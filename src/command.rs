use vstd::prelude::*;

verus! {

/// One instruction of a translated program.
///
/// `LoopOpen(t)` jumps to `t` (one past its matching close) when the current
/// cell is zero; `LoopClose(t)` jumps back to `t` (its matching open) when the
/// current cell is not zero.
#[derive(Debug, Clone, Copy, PartialEq, Eq, Structural)]
pub enum Command {
    Increment(isize),
    MovePointer(isize),
    LoopOpen(usize),
    LoopClose(usize),
    PrintCell,
    InputCell,
}

/// Adds a signed delta to a cell, modulo 256.
pub open spec fn cell_add(c: u8, d: int) -> u8 {
    ((c as int + d) % 256) as u8
}

/// The residue of a signed delta modulo 256, as a value in `0..256`.
fn delta_residue(d: isize) -> (k: usize)
    ensures
        k == d as int % 256,
{
    if d >= 0 {
        (d as usize) % 256
    } else {
        let n: usize = (-(d + 1)) as usize;
        let k = 255 - n % 256;
        assert(k == d as int % 256) by {
            vstd::arithmetic::div_mod::lemma_fundamental_div_mod(n as int, 256);
            vstd::arithmetic::div_mod::lemma_fundamental_div_mod_converse(
                d as int,
                256,
                -(n as int / 256) - 1,
                255 - n as int % 256,
            );
        }
        k
    }
}

/// Adds a signed delta to a cell with wraparound.
pub fn wrapping_cell_add(c: u8, d: isize) -> (r: u8)
    ensures
        r == cell_add(c, d as int),
{
    let k = delta_residue(d);
    let r = ((c as usize + k) % 256) as u8;
    assert(r == cell_add(c, d as int)) by {
        vstd::arithmetic::div_mod::lemma_add_mod_noop_right(c as int, d as int, 256);
    }
    r
}

} // verus!
