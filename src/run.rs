use vstd::prelude::*;

use crate::command::Command;
use crate::translate::{lemma_translation_without_comma_reads_no_input, reads_no_input, translation, COMMA};
use crate::machine::{
    initial_state, receive, step_spec, Action, InputOutcome, Machine, MachineState,
};

verus! {

/// What a bounded run produced.
#[derive(Debug, PartialEq, Eq)]
pub struct RunOutcome {
    /// The bytes written, in order.
    pub output: Vec<u8>,
    /// Whether the program ran to its end within the step budget.
    pub finished: bool,
}

/// The outcome of the next read from an input stream: its first byte, or the
/// end of the stream.
pub open spec fn next_input(input: Seq<u8>) -> InputOutcome {
    if input.len() > 0 {
        InputOutcome::Byte(input[0])
    } else {
        InputOutcome::EndOfStream
    }
}

/// The input stream after one read.
pub open spec fn rest_input(input: Seq<u8>) -> Seq<u8> {
    if input.len() > 0 {
        input.drop_first()
    } else {
        input
    }
}

/// Runs at most `fuel` instructions from state `s`, reading `input` and
/// appending what is written to `out`; gives the bytes written and whether
/// the counter got past the last instruction.
pub open spec fn run_from(
    prog: Seq<Command>,
    s: MachineState,
    input: Seq<u8>,
    fuel: nat,
    out: Seq<u8>,
) -> (Seq<u8>, bool)
    decreases fuel,
{
    if !(0 <= s.pc < prog.len()) {
        (out, true)
    } else if fuel == 0 {
        (out, false)
    } else {
        let (next, action) = step_spec(prog, s);
        match action {
            Action::NeedInput => run_from(
                prog,
                receive(s, next_input(input)),
                rest_input(input),
                (fuel - 1) as nat,
                out,
            ),
            Action::Output(b) => run_from(prog, next, input, (fuel - 1) as nat, out.push(b)),
            _ => run_from(prog, next, input, (fuel - 1) as nat, out),
        }
    }
}

/// A run of a program from the initial state, over a given input stream,
/// with a budget of instructions.
pub open spec fn run_spec(prog: Seq<Command>, input: Seq<u8>, budget: nat) -> (Seq<u8>, bool) {
    run_from(prog, initial_state(), input, budget, Seq::empty())
}

proof fn lemma_run_from_ignores_input(
    prog: Seq<Command>,
    s: MachineState,
    in1: Seq<u8>,
    in2: Seq<u8>,
    fuel: nat,
    out: Seq<u8>,
)
    requires
        reads_no_input(prog),
    ensures
        run_from(prog, s, in1, fuel, out) == run_from(prog, s, in2, fuel, out),
    decreases fuel,
{
    if 0 <= s.pc < prog.len() && fuel > 0 {
        assert(!(prog[s.pc] is InputCell));
        let (next, action) = step_spec(prog, s);
        match action {
            Action::Output(b) => lemma_run_from_ignores_input(
                prog,
                next,
                in1,
                in2,
                (fuel - 1) as nat,
                out.push(b),
            ),
            _ => lemma_run_from_ignores_input(prog, next, in1, in2, (fuel - 1) as nat, out),
        }
    }
}

/// Translating a source without `,` and running the program gives the same
/// output and the same completion on every run, whatever the input stream
/// holds.
pub proof fn lemma_runs_without_input_agree(
    bytes: Seq<u8>,
    in1: Seq<u8>,
    in2: Seq<u8>,
    budget: nat,
)
    requires
        translation(bytes) is Ok,
        bytes.len() <= usize::MAX,
        forall|k: int| 0 <= k < bytes.len() ==> bytes[k] != COMMA,
    ensures
        run_spec(translation(bytes)->Ok_0, in1, budget) == run_spec(
            translation(bytes)->Ok_0,
            in2,
            budget,
        ),
{
    lemma_translation_without_comma_reads_no_input(bytes);
    lemma_run_from_ignores_input(
        translation(bytes)->Ok_0,
        initial_state(),
        in1,
        in2,
        budget,
        Seq::empty(),
    );
}

/// Runs a program on a fresh machine for at most `budget` instructions,
/// reading from `input` (its end reads as zero) and collecting the output.
pub fn run(program: &[Command], input: &[u8], budget: usize) -> (r: RunOutcome)
    ensures
        (r.output@, r.finished) == run_spec(program@, input@, budget as nat),
{
    let mut m = Machine::new();
    let mut out: Vec<u8> = Vec::new();
    let mut next: usize = 0;
    let mut fuel: usize = budget;
    assert(input@.skip(0) =~= input@);
    loop
        invariant
            m.wf(),
            next <= input@.len(),
            run_spec(program@, input@, budget as nat) == run_from(
                program@,
                m@,
                input@.skip(next as int),
                fuel as nat,
                out@,
            ),
        decreases fuel,
    {
        if m.counter() >= program.len() {
            return RunOutcome { output: out, finished: true };
        }
        if fuel == 0 {
            return RunOutcome { output: out, finished: false };
        }
        let action = m.step(program);
        match action {
            Action::NeedInput => {
                let ghost rest = input@.skip(next as int);
                let outcome = if next < input.len() {
                    let b = input[next];
                    next = next + 1;
                    InputOutcome::Byte(b)
                } else {
                    InputOutcome::EndOfStream
                };
                assert(outcome == next_input(rest));
                assert(input@.skip(next as int) =~= rest_input(rest));
                m.provide_input(program, outcome);
            },
            Action::Output(b) => {
                out.push(b);
            },
            _ => {},
        }
        fuel = fuel - 1;
    }
}

} // verus!
