use vstd::prelude::*;

use crate::command::Command;
use vstd::string::StringSliceAdditionalSpecFns;

verus! {

/// The command bytes of the source alphabet.
pub const PLUS: u8 = 43;
pub const MINUS: u8 = 45;
pub const RIGHT: u8 = 62;
pub const LEFT: u8 = 60;
pub const OPEN: u8 = 91;
pub const CLOSE: u8 = 93;
pub const DOT: u8 = 46;
pub const COMMA: u8 = 44;

/// Why a source text could not be translated. Each variant carries the byte
/// offset of the offending bracket in the source.
#[derive(Debug, Clone, Copy, PartialEq, Eq, Structural)]
pub enum TranslateError {
    /// A `]` with no pending `[` before it.
    UnmatchedClose(usize),
    /// A `[` that no `]` closes; the earliest such bracket is reported.
    UnmatchedOpen(usize),
}

/// What the translator holds after scanning a prefix of the source: the
/// instructions emitted so far, and for each pending `[` the index of its
/// placeholder instruction and its byte offset.
pub struct ScanState {
    pub program: Seq<Command>,
    pub open: Seq<(usize, usize)>,
}

/// Adds `d` to the last instruction when it is an `Increment`, else emits a
/// new `Increment(d)`.
pub open spec fn fold_increment(p: Seq<Command>, d: int) -> Seq<Command> {
    if p.len() > 0 && p.last() is Increment {
        p.update(p.len() - 1, Command::Increment((p.last()->Increment_0 + d) as isize))
    } else {
        p.push(Command::Increment(d as isize))
    }
}

/// Adds `d` to the last instruction when it is a `MovePointer`, else emits a
/// new `MovePointer(d)`.
pub open spec fn fold_move(p: Seq<Command>, d: int) -> Seq<Command> {
    if p.len() > 0 && p.last() is MovePointer {
        p.update(p.len() - 1, Command::MovePointer((p.last()->MovePointer_0 + d) as isize))
    } else {
        p.push(Command::MovePointer(d as isize))
    }
}

/// The effect of the source byte `b`, found at offset `pos`, on the scan state.
pub open spec fn scan_byte(st: ScanState, b: u8, pos: usize) -> Result<ScanState, TranslateError> {
    if b == PLUS {
        Ok(ScanState { program: fold_increment(st.program, 1), open: st.open })
    } else if b == MINUS {
        Ok(ScanState { program: fold_increment(st.program, -1), open: st.open })
    } else if b == RIGHT {
        Ok(ScanState { program: fold_move(st.program, 1), open: st.open })
    } else if b == LEFT {
        Ok(ScanState { program: fold_move(st.program, -1), open: st.open })
    } else if b == OPEN {
        Ok(
            ScanState {
                program: st.program.push(Command::LoopOpen(0)),
                open: st.open.push((st.program.len() as usize, pos)),
            },
        )
    } else if b == CLOSE {
        if st.open.len() == 0 {
            Err(TranslateError::UnmatchedClose(pos))
        } else {
            let head = st.open.last().0;
            Ok(
                ScanState {
                    program: st.program.update(
                        head as int,
                        Command::LoopOpen((st.program.len() + 1) as usize),
                    ).push(Command::LoopClose(head)),
                    open: st.open.drop_last(),
                },
            )
        }
    } else if b == DOT {
        Ok(ScanState { program: st.program.push(Command::PrintCell), open: st.open })
    } else if b == COMMA {
        Ok(ScanState { program: st.program.push(Command::InputCell), open: st.open })
    } else {
        Ok(st)
    }
}

/// The scan state after all of `bytes`, or the first error met.
pub open spec fn scan(bytes: Seq<u8>) -> Result<ScanState, TranslateError>
    decreases bytes.len(),
{
    if bytes.len() == 0 {
        Ok(ScanState { program: Seq::empty(), open: Seq::empty() })
    } else {
        match scan(bytes.drop_last()) {
            Ok(st) => scan_byte(st, bytes.last(), (bytes.len() - 1) as usize),
            Err(e) => Err(e),
        }
    }
}

/// The program that a source text, given as its bytes, translates to.
pub open spec fn translation(bytes: Seq<u8>) -> Result<Seq<Command>, TranslateError> {
    match scan(bytes) {
        Ok(st) => if st.open.len() == 0 {
            Ok(st.program)
        } else {
            Err(TranslateError::UnmatchedOpen(st.open[0].1))
        },
        Err(e) => Err(e),
    }
}

/// An error met on a prefix of the source is the error of the whole source.
proof fn lemma_scan_error_persists(bytes: Seq<u8>, k: int)
    requires
        0 <= k <= bytes.len(),
        scan(bytes.take(k)) is Err,
    ensures
        scan(bytes) == scan(bytes.take(k)),
    decreases bytes.len() - k,
{
    if k < bytes.len() {
        assert(bytes.take(k + 1).drop_last() =~= bytes.take(k));
        lemma_scan_error_persists(bytes, k + 1);
    } else {
        assert(bytes.take(k) =~= bytes);
    }
}

/// The number of loop heads in a program.
pub open spec fn count_opens(p: Seq<Command>) -> nat
    decreases p.len(),
{
    if p.len() == 0 {
        0
    } else {
        count_opens(p.drop_last()) + if p.last() is LoopOpen {
            1nat
        } else {
            0nat
        }
    }
}

/// The number of loop tails in a program.
pub open spec fn count_closes(p: Seq<Command>) -> nat
    decreases p.len(),
{
    if p.len() == 0 {
        0
    } else {
        count_closes(p.drop_last()) + if p.last() is LoopClose {
            1nat
        } else {
            0nat
        }
    }
}

proof fn lemma_count_push(p: Seq<Command>, c: Command)
    ensures
        count_opens(p.push(c)) == count_opens(p) + if c is LoopOpen {
            1nat
        } else {
            0nat
        },
        count_closes(p.push(c)) == count_closes(p) + if c is LoopClose {
            1nat
        } else {
            0nat
        },
{
    assert(p.push(c).drop_last() =~= p);
}

proof fn lemma_count_update(p: Seq<Command>, i: int, c: Command)
    requires
        0 <= i < p.len(),
        (c is LoopOpen) == (p[i] is LoopOpen),
        (c is LoopClose) == (p[i] is LoopClose),
    ensures
        count_opens(p.update(i, c)) == count_opens(p),
        count_closes(p.update(i, c)) == count_closes(p),
    decreases p.len(),
{
    if i == p.len() - 1 {
        assert(p.update(i, c).drop_last() =~= p.drop_last());
    } else {
        lemma_count_update(p.drop_last(), i, c);
        assert(p.update(i, c).drop_last() =~= p.drop_last().update(i, c));
    }
}

/// Every pending `[` is one more loop head than there are loop tails, and
/// each pending entry points at a loop head.
spec fn scan_balanced(st: ScanState, n: int) -> bool {
    &&& st.program.len() <= n
    &&& count_opens(st.program) == count_closes(st.program) + st.open.len()
    &&& forall|k: int|
        0 <= k < st.open.len() ==> (#[trigger] st.open[k]).0 < st.program.len()
            && st.program[st.open[k].0 as int] is LoopOpen
}

proof fn lemma_fold_preserves(p: Seq<Command>, d: int)
    ensures
        count_opens(fold_increment(p, d)) == count_opens(p),
        count_closes(fold_increment(p, d)) == count_closes(p),
        count_opens(fold_move(p, d)) == count_opens(p),
        count_closes(fold_move(p, d)) == count_closes(p),
        fold_increment(p, d).len() >= p.len(),
        fold_move(p, d).len() >= p.len(),
        forall|k: int| 0 <= k < p.len() && p[k] is LoopOpen ==> fold_increment(p, d)[k] == p[k],
        forall|k: int| 0 <= k < p.len() && p[k] is LoopOpen ==> fold_move(p, d)[k] == p[k],
        forall|k: int| 0 <= k < fold_increment(p, d).len() ==> !(#[trigger] fold_increment(p, d)[k] is InputCell) || (k < p.len() && p[k] is InputCell),
        forall|k: int| 0 <= k < fold_move(p, d).len() ==> !(#[trigger] fold_move(p, d)[k] is InputCell) || (k < p.len() && p[k] is InputCell),
{
    if p.len() > 0 && p.last() is Increment {
        lemma_count_update(
            p,
            p.len() - 1,
            Command::Increment((p.last()->Increment_0 + d) as isize),
        );
    }
    if p.len() > 0 && p.last() is MovePointer {
        lemma_count_update(
            p,
            p.len() - 1,
            Command::MovePointer((p.last()->MovePointer_0 + d) as isize),
        );
    }
    lemma_count_push(p, Command::Increment(d as isize));
    lemma_count_push(p, Command::MovePointer(d as isize));
}

proof fn lemma_scan_balanced(bytes: Seq<u8>)
    requires
        scan(bytes) is Ok,
        bytes.len() <= usize::MAX,
    ensures
        scan_balanced(scan(bytes)->Ok_0, bytes.len() as int),
    decreases bytes.len(),
{
    if bytes.len() > 0 {
        let prev = bytes.drop_last();
        lemma_scan_balanced(prev);
        let st = scan(prev)->Ok_0;
        let b = bytes.last();
        let p = st.program;
        lemma_fold_preserves(p, 1);
        lemma_fold_preserves(p, -1);
        let q = scan(bytes)->Ok_0;
        if b == OPEN {
            lemma_count_push(p, Command::LoopOpen(0));
            assert forall|k: int| 0 <= k < q.open.len() implies (#[trigger] q.open[k]).0
                < q.program.len() && q.program[q.open[k].0 as int] is LoopOpen by {
                if k < st.open.len() {
                    assert(q.open[k] == st.open[k]);
                }
            }
        } else if b == CLOSE {
            let head = st.open.last().0;
            let patched = p.update(head as int, Command::LoopOpen((p.len() + 1) as usize));
            assert(st.open[st.open.len() - 1] == st.open.last());
            lemma_count_update(p, head as int, Command::LoopOpen((p.len() + 1) as usize));
            lemma_count_push(patched, Command::LoopClose(head));
            assert forall|k: int| 0 <= k < q.open.len() implies (#[trigger] q.open[k]).0
                < q.program.len() && q.program[q.open[k].0 as int] is LoopOpen by {
                assert(q.open[k] == st.open[k]);
            }
        } else if b == DOT {
            lemma_count_push(p, Command::PrintCell);
        } else if b == COMMA {
            lemma_count_push(p, Command::InputCell);
        }
    }
}

/// A source that translates has as many loop heads as loop tails in its
/// program.
pub proof fn lemma_translation_balanced(bytes: Seq<u8>)
    requires
        translation(bytes) is Ok,
        bytes.len() <= usize::MAX,
    ensures
        count_opens(translation(bytes)->Ok_0) == count_closes(translation(bytes)->Ok_0),
{
    lemma_scan_balanced(bytes);
}

/// The loop head at `i` jumps to one past a loop tail that jumps back to `i`.
pub open spec fn open_matched(p: Seq<Command>, i: int) -> bool {
    let t = p[i]->LoopOpen_0 as int;
    &&& i + 2 <= t <= p.len()
    &&& p[t - 1] == Command::LoopClose(i as usize)
}

/// The loop tail at `j` jumps back to a loop head that jumps to one past `j`.
pub open spec fn close_matched(p: Seq<Command>, j: int) -> bool {
    let h = p[j]->LoopClose_0 as int;
    &&& 0 <= h < j
    &&& p[h] == Command::LoopOpen((j + 1) as usize)
}

/// Every loop head and every loop tail of the program has its partner.
pub open spec fn brackets_matched(p: Seq<Command>) -> bool {
    &&& forall|i: int| 0 <= i < p.len() && (#[trigger] p[i]) is LoopOpen ==> open_matched(p, i)
    &&& forall|j: int| 0 <= j < p.len() && (#[trigger] p[j]) is LoopClose ==> close_matched(p, j)
}

/// Pending heads hold the placeholder target 0, in increasing order; every
/// other head and every tail has its partner.
spec fn scan_matched(st: ScanState) -> bool {
    let p = st.program;
    let o = st.open;
    &&& forall|k: int|
        0 <= k < o.len() ==> (#[trigger] o[k]).0 < p.len() && p[o[k].0 as int]
            == Command::LoopOpen(0)
    &&& forall|k1: int, k2: int| 0 <= k1 < k2 < o.len() ==> (#[trigger] o[k1]).0 < (#[trigger] o[k2]).0
    &&& forall|i: int|
        0 <= i < p.len() && (#[trigger] p[i]) is LoopOpen && p[i] != Command::LoopOpen(0)
            ==> open_matched(p, i)
    &&& forall|i: int|
        0 <= i < p.len() && (#[trigger] p[i]) == Command::LoopOpen(0) ==> exists|k: int|
            0 <= k < o.len() && (#[trigger] o[k]).0 == i
    &&& forall|j: int| 0 <= j < p.len() && (#[trigger] p[j]) is LoopClose ==> close_matched(p, j)
}

proof fn lemma_scan_matched(bytes: Seq<u8>)
    requires
        scan(bytes) is Ok,
        bytes.len() <= usize::MAX,
    ensures
        scan_matched(scan(bytes)->Ok_0),
    decreases bytes.len(),
{
    if bytes.len() > 0 {
        let prev = bytes.drop_last();
        lemma_scan_matched(prev);
        lemma_scan_balanced(prev);
        let st = scan(prev)->Ok_0;
        let p = st.program;
        let o = st.open;
        let b = bytes.last();
        let q = scan(bytes)->Ok_0;
        let len = p.len() as int;
        if b == PLUS || b == MINUS || b == RIGHT || b == LEFT {
            let d: int = if b == PLUS || b == RIGHT { 1 } else { -1 };
            let inc = b == PLUS || b == MINUS;
            assert(q.open == o);
            assert(q.program == if inc { fold_increment(p, d) } else { fold_move(p, d) });
            let r = q.program;
            assert(r.len() >= len);
            assert forall|i: int| 0 <= i < r.len() && (r[i] is LoopOpen || r[i] is LoopClose)
                implies i < len && r[i] == p[i] by {
                if len > 0 {
                    assert(p.last() == p[len - 1]);
                }
            }
            assert forall|i: int| 0 <= i < len && (p[i] is LoopOpen || p[i] is LoopClose)
                implies r[i] == p[i] by {
                if len > 0 {
                    assert(p.last() == p[len - 1]);
                }
            }
            assert forall|i: int|
                0 <= i < r.len() && (#[trigger] r[i]) is LoopOpen && r[i] != Command::LoopOpen(0)
                    implies open_matched(r, i) by {
                assert(open_matched(p, i));
                let t = p[i]->LoopOpen_0 as int;
                assert(p[t - 1] is LoopClose);
            }
            assert forall|j: int| 0 <= j < r.len() && (#[trigger] r[j]) is LoopClose
                implies close_matched(r, j) by {
                assert(close_matched(p, j));
                let h = p[j]->LoopClose_0 as int;
                assert(p[h] is LoopOpen);
            }
            assert forall|i: int| 0 <= i < r.len() && (#[trigger] r[i]) == Command::LoopOpen(0)
                implies exists|k: int| 0 <= k < o.len() && (#[trigger] o[k]).0 == i by {
                assert(p[i] == Command::LoopOpen(0));
            }
            assert forall|k: int| 0 <= k < o.len() implies (#[trigger] o[k]).0 < r.len()
                && r[o[k].0 as int] == Command::LoopOpen(0) by {
                assert(p[o[k].0 as int] is LoopOpen);
            }
        } else if b == OPEN {
            let r = q.program;
            let o2 = q.open;
            assert(r == p.push(Command::LoopOpen(0)));
            assert(o2 == o.push((len as usize, (bytes.len() - 1) as usize)));
            assert forall|k: int| 0 <= k < o2.len() implies (#[trigger] o2[k]).0 < r.len()
                && r[o2[k].0 as int] == Command::LoopOpen(0) by {
                if k < o.len() {
                    assert(o2[k] == o[k]);
                }
            }
            assert forall|k1: int, k2: int| 0 <= k1 < k2 < o2.len() implies (#[trigger] o2[k1]).0
                < (#[trigger] o2[k2]).0 by {
                assert(o2[k1] == o[k1]);
                if k2 < o.len() {
                    assert(o2[k2] == o[k2]);
                }
            }
            assert forall|i: int|
                0 <= i < r.len() && (#[trigger] r[i]) is LoopOpen && r[i] != Command::LoopOpen(0)
                    implies open_matched(r, i) by {
                assert(open_matched(p, i));
            }
            assert forall|j: int| 0 <= j < r.len() && (#[trigger] r[j]) is LoopClose
                implies close_matched(r, j) by {
                assert(close_matched(p, j));
            }
            assert forall|i: int| 0 <= i < r.len() && (#[trigger] r[i]) == Command::LoopOpen(0)
                implies exists|k: int| 0 <= k < o2.len() && (#[trigger] o2[k]).0 == i by {
                if i == len {
                    assert(o2[o.len() as int].0 == i);
                } else {
                    assert(p[i] == Command::LoopOpen(0));
                    let k = choose|k: int| 0 <= k < o.len() && (#[trigger] o[k]).0 == i;
                    assert(o2[k] == o[k]);
                }
            }
        } else if b == CLOSE {
            let last = o.len() - 1;
            assert(o.last() == o[last]);
            let head = o[last].0 as int;
            let r = q.program;
            let o2 = q.open;
            assert(r == p.update(head, Command::LoopOpen((len + 1) as usize)).push(
                Command::LoopClose(head as usize),
            ));
            assert(o2 == o.drop_last());
            assert(p[head] == Command::LoopOpen(0));
            assert forall|k: int| 0 <= k < o2.len() implies (#[trigger] o2[k]).0 < r.len()
                && r[o2[k].0 as int] == Command::LoopOpen(0) by {
                assert(o2[k] == o[k]);
                assert(o[k].0 < o[last].0);
            }
            assert forall|k1: int, k2: int| 0 <= k1 < k2 < o2.len() implies (#[trigger] o2[k1]).0
                < (#[trigger] o2[k2]).0 by {
                assert(o2[k1] == o[k1]);
                assert(o2[k2] == o[k2]);
            }
            assert forall|i: int|
                0 <= i < r.len() && (#[trigger] r[i]) is LoopOpen && r[i] != Command::LoopOpen(0)
                    implies open_matched(r, i) by {
                if i != head {
                    assert(r[i] == p[i]);
                    assert(open_matched(p, i));
                    let t = p[i]->LoopOpen_0 as int;
                    assert(r[t - 1] == p[t - 1]);
                }
            }
            assert forall|j: int| 0 <= j < r.len() && (#[trigger] r[j]) is LoopClose
                implies close_matched(r, j) by {
                if j < len {
                    assert(r[j] == p[j]);
                    assert(close_matched(p, j));
                    let h = p[j]->LoopClose_0 as int;
                    assert(h != head);
                    assert(r[h] == p[h]);
                }
            }
            assert forall|i: int| 0 <= i < r.len() && (#[trigger] r[i]) == Command::LoopOpen(0)
                implies exists|k: int| 0 <= k < o2.len() && (#[trigger] o2[k]).0 == i by {
                assert(i != head && i != len);
                assert(p[i] == Command::LoopOpen(0));
                let k = choose|k: int| 0 <= k < o.len() && (#[trigger] o[k]).0 == i;
                assert(k != last);
                assert(o2[k] == o[k]);
            }
        } else if b == DOT || b == COMMA {
            let c = if b == DOT { Command::PrintCell } else { Command::InputCell };
            let r = q.program;
            assert(r == p.push(c));
            assert forall|i: int|
                0 <= i < r.len() && (#[trigger] r[i]) is LoopOpen && r[i] != Command::LoopOpen(0)
                    implies open_matched(r, i) by {
                assert(open_matched(p, i));
            }
            assert forall|j: int| 0 <= j < r.len() && (#[trigger] r[j]) is LoopClose
                implies close_matched(r, j) by {
                assert(close_matched(p, j));
            }
            assert forall|i: int| 0 <= i < r.len() && (#[trigger] r[i]) == Command::LoopOpen(0)
                implies exists|k: int| 0 <= k < o.len() && (#[trigger] o[k]).0 == i by {
                assert(p[i] == Command::LoopOpen(0));
            }
        } else {
            assert(q == st);
        }
    }
}

/// In a translated program every loop head jumps to one past its loop tail,
/// and that tail jumps back to the head.
pub proof fn lemma_translation_matched(bytes: Seq<u8>)
    requires
        translation(bytes) is Ok,
        bytes.len() <= usize::MAX,
    ensures
        brackets_matched(translation(bytes)->Ok_0),
{
    lemma_scan_matched(bytes);
    let p = translation(bytes)->Ok_0;
    assert forall|i: int| 0 <= i < p.len() && (#[trigger] p[i]) is LoopOpen implies open_matched(
        p,
        i,
    ) by {
        if p[i] == Command::LoopOpen(0) {
            let k = choose|k: int| 0 <= k < scan(bytes)->Ok_0.open.len() && (#[trigger] scan(
                bytes,
            )->Ok_0.open[k]).0 == i;
        }
    }
}

/// No instruction of the program reads input.
pub open spec fn reads_no_input(p: Seq<Command>) -> bool {
    forall|k: int| 0 <= k < p.len() ==> !(#[trigger] p[k] is InputCell)
}

proof fn lemma_scan_reads_no_input(bytes: Seq<u8>)
    requires
        scan(bytes) is Ok,
        bytes.len() <= usize::MAX,
        forall|k: int| 0 <= k < bytes.len() ==> bytes[k] != COMMA,
    ensures
        reads_no_input(scan(bytes)->Ok_0.program),
    decreases bytes.len(),
{
    if bytes.len() > 0 {
        let prev = bytes.drop_last();
        assert forall|k: int| 0 <= k < prev.len() implies prev[k] != COMMA by {
            assert(prev[k] == bytes[k]);
        }
        lemma_scan_reads_no_input(prev);
        assert(bytes.last() == bytes[bytes.len() - 1]);
        let p = scan(prev)->Ok_0.program;
        let q = scan(bytes)->Ok_0.program;
        assert forall|k: int| 0 <= k < q.len() implies !(#[trigger] q[k] is InputCell) by {
            if k < p.len() {
                assert(!(p[k] is InputCell));
            }
            let st = scan(prev)->Ok_0;
            let b = bytes.last();
            if b == PLUS || b == MINUS || b == RIGHT || b == LEFT {
                lemma_fold_preserves(p, 1);
                lemma_fold_preserves(p, -1);
                if b == PLUS {
                    assert(q == fold_increment(p, 1));
                    assert(!(fold_increment(p, 1)[k] is InputCell));
                } else if b == MINUS {
                    assert(q == fold_increment(p, -1));
                    assert(!(fold_increment(p, -1)[k] is InputCell));
                } else if b == RIGHT {
                    assert(q == fold_move(p, 1));
                    assert(!(fold_move(p, 1)[k] is InputCell));
                } else {
                    assert(q == fold_move(p, -1));
                    assert(!(fold_move(p, -1)[k] is InputCell));
                }
            } else if b == CLOSE {
                assert(st.open[st.open.len() - 1] == st.open.last());
                lemma_scan_balanced(prev);
                assert(!(q[k] is InputCell));
            } else if b == OPEN {
                assert(!(q[k] is InputCell));
            } else {
                assert(b != COMMA);
                assert(!(q[k] is InputCell));
            }
        }
    }
}

/// A source without `,` translates to a program with no input instruction.
pub proof fn lemma_translation_without_comma_reads_no_input(bytes: Seq<u8>)
    requires
        translation(bytes) is Ok,
        bytes.len() <= usize::MAX,
        forall|k: int| 0 <= k < bytes.len() ==> bytes[k] != COMMA,
    ensures
        reads_no_input(translation(bytes)->Ok_0),
{
    lemma_scan_reads_no_input(bytes);
}

/// Bounds the delta of a folded instruction by the number of bytes scanned.
pub open spec fn delta_within(c: Command, n: int) -> bool {
    match c {
        Command::Increment(d) => -n <= d <= n,
        Command::MovePointer(d) => -n <= d <= n,
        _ => true,
    }
}

/// Translates source text into a program: folds runs of `+`/`-` and `<`/`>`,
/// resolves the targets of matched brackets, and skips every other byte.
pub fn parse(source: &str) -> (r: Result<Vec<Command>, TranslateError>)
    requires
        source.spec_bytes().len() <= isize::MAX,
    ensures
        r matches Ok(p) ==> translation(source.spec_bytes()) == Ok::<Seq<Command>, TranslateError>(p@),
        r matches Err(e) ==> translation(source.spec_bytes()) == Err::<Seq<Command>, TranslateError>(e),
        r matches Ok(p) ==> brackets_matched(p@),
        r matches Ok(p) ==> p@.len() <= source.spec_bytes().len(),
{
    let bytes = source.as_bytes();
    let len = bytes.len();
    let mut output: Vec<Command> = Vec::new();
    let mut stack: Vec<(usize, usize)> = Vec::new();
    let mut i: usize = 0;
    while i < len
        invariant
            bytes@ == source.spec_bytes(),
            len == bytes@.len(),
            len <= isize::MAX,
            i <= len,
            scan(bytes@.take(i as int)) == Ok::<ScanState, TranslateError>(
                ScanState { program: output@, open: stack@ },
            ),
            output@.len() <= i,
            forall|k: int| 0 <= k < output@.len() ==> delta_within(#[trigger] output@[k], i as int),
            forall|k: int| 0 <= k < stack@.len() ==> (#[trigger] stack@[k]).0 < output@.len(),
        decreases len - i,
    {
        let b = bytes[i];
        proof {
            assert(bytes@.take(i + 1).drop_last() =~= bytes@.take(i as int));
            assert(bytes@.take(i + 1).last() == b);
        }
        let n = output.len();
        if b == PLUS || b == MINUS {
            let d: isize = if b == PLUS { 1 } else { -1 };
            let last: Option<isize> = if n > 0 {
                match output[n - 1] {
                    Command::Increment(c) => Some(c),
                    _ => None,
                }
            } else {
                None
            };
            match last {
                Some(c) => {
                    assert(delta_within(output@[n - 1], i as int));
                    output.set(n - 1, Command::Increment(c + d));
                },
                None => {
                    output.push(Command::Increment(d));
                },
            }
        } else if b == RIGHT || b == LEFT {
            let d: isize = if b == RIGHT { 1 } else { -1 };
            let last: Option<isize> = if n > 0 {
                match output[n - 1] {
                    Command::MovePointer(c) => Some(c),
                    _ => None,
                }
            } else {
                None
            };
            match last {
                Some(c) => {
                    assert(delta_within(output@[n - 1], i as int));
                    output.set(n - 1, Command::MovePointer(c + d));
                },
                None => {
                    output.push(Command::MovePointer(d));
                },
            }
        } else if b == OPEN {
            stack.push((n, i));
            output.push(Command::LoopOpen(0));
        } else if b == CLOSE {
            match stack.pop() {
                Some(top) => {
                    output.set(top.0, Command::LoopOpen(n + 1));
                    output.push(Command::LoopClose(top.0));
                },
                None => {
                    proof {
                        lemma_scan_error_persists(bytes@, i + 1);
                    }
                    return Err(TranslateError::UnmatchedClose(i));
                },
            }
        } else if b == DOT {
            output.push(Command::PrintCell);
        } else if b == COMMA {
            output.push(Command::InputCell);
        }
        i = i + 1;
    }
    proof {
        assert(bytes@.take(len as int) =~= bytes@);
    }
    if stack.len() > 0 {
        Err(TranslateError::UnmatchedOpen(stack[0].1))
    } else {
        proof {
            lemma_translation_matched(bytes@);
        }
        Ok(output)
    }
}

} // verus!
