use vstd::prelude::*;

use crate::command::{cell_add, wrapping_cell_add, Command};
use crate::translate::{brackets_matched, close_matched, open_matched};

verus! {

/// Number of cells on the tape.
pub const TAPE_LEN: usize = 30000;

/// What the driver of a machine must do after a step.
#[derive(Debug, Clone, Copy, PartialEq, Eq, Structural)]
pub enum Action {
    /// An instruction ran; nothing to do.
    Continue,
    /// An instruction ran and writes this byte.
    Output(u8),
    /// The current instruction reads a byte: answer with `provide_input`.
    NeedInput,
    /// The counter is past the last instruction; nothing ran.
    Halted,
}

/// The result of reading one byte for an input instruction.
#[derive(Debug, Clone, Copy, PartialEq, Eq, Structural)]
pub enum InputOutcome {
    /// A byte was read.
    Byte(u8),
    /// The input is exhausted: the cell becomes zero.
    EndOfStream,
    /// The read failed: the cell keeps its value.
    Failed,
}

/// The state of a machine: tape, data pointer and program counter.
pub struct MachineState {
    pub tape: Seq<u8>,
    pub pointer: int,
    pub pc: int,
}

/// The state in which every run starts.
pub open spec fn initial_state() -> MachineState {
    MachineState { tape: Seq::new(TAPE_LEN as nat, |i: int| 0u8), pointer: 0, pc: 0 }
}

/// The tape has its fixed length and the pointer selects one of its cells.
pub open spec fn state_wf(s: MachineState) -> bool {
    &&& s.tape.len() == TAPE_LEN
    &&& 0 <= s.pointer < TAPE_LEN
    &&& 0 <= s.pc <= usize::MAX
}

/// The cell under the pointer.
pub open spec fn current(s: MachineState) -> u8 {
    s.tape[s.pointer]
}

/// Moves a pointer by `d`, held at the ends of the tape.
pub open spec fn clamp_pointer(p: int, d: int) -> int {
    if p + d < 0 {
        0
    } else if p + d >= TAPE_LEN {
        TAPE_LEN - 1
    } else {
        p + d
    }
}

/// The loop head at `pc` has a body of exactly one `Increment(1)` or
/// `Increment(-1)`, followed by the loop close that jumps back to `pc`.
pub open spec fn is_clear_loop(prog: Seq<Command>, pc: int) -> bool {
    &&& 0 <= pc
    &&& pc + 2 < prog.len()
    &&& (prog[pc + 1] == Command::Increment(1isize) || prog[pc + 1] == Command::Increment(-1isize))
    &&& prog[pc + 2] == Command::LoopClose(pc as usize)
}

/// The state with the cell under the pointer set to `v` and the counter at `pc`.
pub open spec fn with_cell(s: MachineState, v: u8, pc: int) -> MachineState {
    MachineState { tape: s.tape.update(s.pointer, v), pointer: s.pointer, pc }
}

/// The state with the counter at `pc`.
pub open spec fn with_pc(s: MachineState, pc: int) -> MachineState {
    MachineState { tape: s.tape, pointer: s.pointer, pc }
}

/// One transition of the machine. With `clear` set, a loop head whose body
/// is a single `Increment(1)` or `Increment(-1)` zeroes the cell and leaves
/// the loop at once; without it, such a loop runs literally.
pub open spec fn transition(prog: Seq<Command>, s: MachineState, clear: bool) -> (
    MachineState,
    Action,
) {
    if s.pc < 0 || s.pc >= prog.len() {
        (s, Action::Halted)
    } else {
        match prog[s.pc] {
            Command::Increment(d) => (
                with_cell(s, cell_add(current(s), d as int), s.pc + 1),
                Action::Continue,
            ),
            Command::MovePointer(d) => (
                MachineState {
                    tape: s.tape,
                    pointer: clamp_pointer(s.pointer, d as int),
                    pc: s.pc + 1,
                },
                Action::Continue,
            ),
            Command::PrintCell => (with_pc(s, s.pc + 1), Action::Output(current(s))),
            Command::InputCell => (s, Action::NeedInput),
            Command::LoopOpen(t) => if current(s) == 0 {
                (with_pc(s, t as int), Action::Continue)
            } else if clear && is_clear_loop(prog, s.pc) {
                (with_cell(s, 0, t as int), Action::Continue)
            } else {
                (with_pc(s, s.pc + 1), Action::Continue)
            },
            Command::LoopClose(t) => if current(s) != 0 {
                (with_pc(s, t as int), Action::Continue)
            } else {
                (with_pc(s, s.pc + 1), Action::Continue)
            },
        }
    }
}

/// The machine's own transition, with the clear-loop shortcut.
pub open spec fn step_spec(prog: Seq<Command>, s: MachineState) -> (MachineState, Action) {
    transition(prog, s, true)
}

/// The state after `n` transitions without the clear-loop shortcut.
pub open spec fn literal_steps(prog: Seq<Command>, s: MachineState, n: nat) -> MachineState
    decreases n,
{
    if n == 0 {
        s
    } else {
        literal_steps(prog, transition(prog, s, false).0, (n - 1) as nat)
    }
}

/// The loop head at `pc` is a clear loop whose brackets point at each other.
pub open spec fn matched_clear_loop(prog: Seq<Command>, pc: int) -> bool {
    &&& is_clear_loop(prog, pc)
    &&& prog[pc] == Command::LoopOpen((pc + 3) as usize)
    &&& prog[pc + 2] == Command::LoopClose(pc as usize)
}

/// How many literal transitions a clear loop with body `Increment(d)` takes
/// from its head to its exit, when the cell holds `c` (not zero).
pub open spec fn clear_loop_length(d: int, c: int) -> nat {
    if d == -1 {
        (3 * c) as nat
    } else {
        (3 * (256 - c)) as nat
    }
}

proof fn lemma_literal_clear_loop(prog: Seq<Command>, s: MachineState)
    requires
        state_wf(s),
        s.pc + 3 <= usize::MAX,
        matched_clear_loop(prog, s.pc),
        current(s) != 0,
    ensures
        literal_steps(prog, s, clear_loop_length(prog[s.pc + 1]->Increment_0 as int, current(s) as int))
            == with_cell(s, 0, s.pc + 3),
    decreases
            if prog[s.pc + 1] == Command::Increment(-1isize) {
                current(s) as int
            } else {
                256 - current(s)
            },
{
    let h = s.pc;
    let d = prog[h + 1]->Increment_0 as int;
    let c = current(s) as int;
    let s1 = transition(prog, s, false).0;
    assert(s1 == with_pc(s, h + 1));
    let s2 = transition(prog, s1, false).0;
    let c2 = cell_add(c as u8, d);
    assert(s2 == with_cell(s, c2, h + 2));
    assert(c2 == c + d || (d == 1 && c == 255 && c2 == 0));
    let s3 = transition(prog, s2, false).0;
    let n = clear_loop_length(d, c);
    assert(literal_steps(prog, s, n) == literal_steps(prog, s3, (n - 3) as nat)) by {
        assert(literal_steps(prog, s, n) == literal_steps(prog, s1, (n - 1) as nat));
        assert(literal_steps(prog, s1, (n - 1) as nat) == literal_steps(prog, s2, (n - 2) as nat));
        assert(literal_steps(prog, s2, (n - 2) as nat) == literal_steps(prog, s3, (n - 3) as nat));
    }
    if c2 == 0 {
        assert(n == 3);
        assert(s3 == with_cell(s, 0, h + 3));
    } else {
        assert(s3 == with_cell(s, c2, h));
        assert(s3.tape[s3.pointer] == c2);
        lemma_literal_clear_loop(prog, s3);
        assert(clear_loop_length(d, c2 as int) == n - 3);
        assert(with_cell(s3, 0, h + 3).tape =~= with_cell(s, 0, h + 3).tape);
    }
}

/// In a program whose brackets are matched, at the head of a loop whose
/// body is one `Increment(1)` or `Increment(-1)`, the shortcut transition
/// reaches the very state that the literal loop reaches when run to its exit.
pub proof fn lemma_clear_loop_shortcut_is_literal(prog: Seq<Command>, s: MachineState)
    requires
        state_wf(s),
        brackets_matched(prog),
        is_clear_loop(prog, s.pc),
        prog[s.pc] is LoopOpen,
    ensures
        exists|n: nat| literal_steps(prog, s, n) == step_spec(prog, s).0,
{
    let h = s.pc;
    assert(open_matched(prog, h));
    assert(close_matched(prog, h + 2));
    assert(prog[h] == Command::LoopOpen((h + 3) as usize));
    if current(s) == 0 {
        assert(literal_steps(prog, s, 1) == step_spec(prog, s).0) by {
            assert(literal_steps(prog, transition(prog, s, false).0, 0) == transition(prog, s, false).0);
        }
    } else {
        lemma_literal_clear_loop(prog, s);
        assert(step_spec(prog, s).0 == with_cell(s, 0, s.pc + 3));
        assert(literal_steps(
            prog,
            s,
            clear_loop_length(prog[s.pc + 1]->Increment_0 as int, current(s) as int),
        ) == step_spec(prog, s).0);
    }
}

/// Stores the outcome of a read in the current cell and moves past the
/// input instruction.
pub open spec fn receive(s: MachineState, input: InputOutcome) -> MachineState {
    match input {
        InputOutcome::Byte(b) => with_cell(s, b, s.pc + 1),
        InputOutcome::EndOfStream => with_cell(s, 0, s.pc + 1),
        InputOutcome::Failed => with_pc(s, s.pc + 1),
    }
}

/// The effect of a read's outcome: it completes the input instruction under
/// the counter, and is ignored anywhere else.
pub open spec fn deliver(prog: Seq<Command>, s: MachineState, input: InputOutcome) -> MachineState {
    if 0 <= s.pc < prog.len() && prog[s.pc] is InputCell {
        receive(s, input)
    } else {
        s
    }
}

/// A machine that executes a program one instruction at a time. Cells wrap
/// modulo 256; the data pointer is held at the ends of the tape.
pub struct Machine {
    tape: Vec<u8>,
    pointer: usize,
    pc: usize,
}

impl View for Machine {
    type V = MachineState;

    closed spec fn view(&self) -> MachineState {
        MachineState { tape: self.tape@, pointer: self.pointer as int, pc: self.pc as int }
    }
}

impl Machine {
    /// The machine's state is well formed.
    pub open spec fn wf(&self) -> bool {
        state_wf(self@)
    }

    /// A machine with a zeroed tape, the pointer on the first cell and the
    /// counter on the first instruction.
    pub fn new() -> (m: Machine)
        ensures
            m.wf(),
            m@ == initial_state(),
    {
        let tape = vec![0u8; TAPE_LEN];
        let m = Machine { tape, pointer: 0, pc: 0 };
        assert(m@.tape =~= initial_state().tape);
        m
    }

    /// The value of the cell under the pointer.
    pub fn current_cell(&self) -> (r: u8)
        requires
            self.wf(),
        ensures
            r == current(self@),
    {
        self.tape[self.pointer]
    }

    /// The data pointer.
    pub fn pointer(&self) -> (r: usize)
        ensures
            r == self@.pointer,
    {
        self.pointer
    }

    /// The program counter.
    pub fn counter(&self) -> (r: usize)
        ensures
            r == self@.pc,
    {
        self.pc
    }

    /// Writes the cell under the pointer and moves the counter.
    fn set_current(&mut self, v: u8, pc: usize)
        requires
            old(self).wf(),
        ensures
            final(self)@ == with_cell(old(self)@, v, pc as int),
            final(self).wf(),
    {
        let p = self.pointer;
        self.tape.set(p, v);
        self.pc = pc;
    }

    /// Executes the instruction under the counter, unless it reads input or
    /// the counter is past the end.
    pub fn step(&mut self, program: &[Command]) -> (a: Action)
        requires
            old(self).wf(),
        ensures
            final(self).wf(),
            (final(self)@, a) == step_spec(program@, old(self)@),
    {
        if self.pc >= program.len() {
            return Action::Halted;
        }
        let pc = self.pc;
        let cur = self.tape[self.pointer];
        match program[pc] {
            Command::Increment(d) => {
                let v = wrapping_cell_add(cur, d);
                self.set_current(v, pc + 1);
                Action::Continue
            },
            Command::MovePointer(d) => {
                let p = self.pointer as isize;
                let np: isize = if d < 0 {
                    if d < -p {
                        0
                    } else {
                        p + d
                    }
                } else {
                    if d > (TAPE_LEN - 1) as isize - p {
                        (TAPE_LEN - 1) as isize
                    } else {
                        p + d
                    }
                };
                self.pointer = np as usize;
                self.pc = pc + 1;
                Action::Continue
            },
            Command::PrintCell => {
                self.pc = pc + 1;
                Action::Output(cur)
            },
            Command::InputCell => Action::NeedInput,
            Command::LoopOpen(t) => {
                if cur == 0 {
                    self.pc = t;
                } else if self.clear_loop_at(program) {
                    self.set_current(0, t);
                } else {
                    self.pc = pc + 1;
                }
                Action::Continue
            },
            Command::LoopClose(t) => {
                if cur != 0 {
                    self.pc = t;
                } else {
                    self.pc = pc + 1;
                }
                Action::Continue
            },
        }
    }

    /// Whether the loop head under the counter is a clear loop.
    fn clear_loop_at(&self, program: &[Command]) -> (r: bool)
        requires
            self.pc < program.len(),
        ensures
            r == is_clear_loop(program@, self.pc as int),
    {
        let pc = self.pc;
        if program.len() - pc <= 2 {
            return false;
        }
        let unit = match program[pc + 1] {
            Command::Increment(d) => d == 1 || d == -1,
            _ => false,
        };
        let closes = match program[pc + 2] {
            Command::LoopClose(h) => h == pc,
            _ => false,
        };
        unit && closes
    }

    /// Completes the input instruction under the counter with the outcome of
    /// the read; where the counter is on no input instruction, nothing changes.
    pub fn provide_input(&mut self, program: &[Command], input: InputOutcome)
        requires
            old(self).wf(),
        ensures
            final(self).wf(),
            final(self)@ == deliver(program@, old(self)@, input),
    {
        if self.pc >= program.len() {
            return;
        }
        match program[self.pc] {
            Command::InputCell => {},
            _ => {
                return;
            },
        }
        let pc = self.pc + 1;
        match input {
            InputOutcome::Byte(b) => self.set_current(b, pc),
            InputOutcome::EndOfStream => self.set_current(0, pc),
            InputOutcome::Failed => {
                self.pc = pc;
            },
        }
    }
}

} // verus!
