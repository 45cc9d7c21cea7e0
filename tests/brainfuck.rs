use brainfuck::command::{wrapping_cell_add, Command};
use brainfuck::machine::{Action, InputOutcome, Machine, TAPE_LEN};
use brainfuck::run::run;
use brainfuck::translate::{parse, TranslateError};

fn output_of(source: &str, input: &[u8]) -> Vec<u8> {
    let program = parse(source).expect("source translates");
    let outcome = run(&program, input, 1_000_000);
    assert!(outcome.finished);
    outcome.output
}

#[test]
fn folds_increments_to_net_sum() {
    assert_eq!(parse("+++--+"), Ok(vec![Command::Increment(2)]));
    assert_eq!(parse("++--+"), Ok(vec![Command::Increment(1)]));
    assert_eq!(parse("+-"), Ok(vec![Command::Increment(0)]));
}

#[test]
fn folds_moves_to_net_sum() {
    assert_eq!(parse(">>><<"), Ok(vec![Command::MovePointer(1)]));
    assert_eq!(parse("<<<"), Ok(vec![Command::MovePointer(-3)]));
}

#[test]
fn comments_do_not_break_a_run() {
    assert_eq!(parse("+ a + é +"), Ok(vec![Command::Increment(3)]));
    assert_eq!(parse("hello"), Ok(vec![]));
    assert_eq!(parse(""), Ok(vec![]));
}

#[test]
fn other_commands_break_a_run() {
    assert_eq!(
        parse("+>+.+,+"),
        Ok(vec![
            Command::Increment(1),
            Command::MovePointer(1),
            Command::Increment(1),
            Command::PrintCell,
            Command::Increment(1),
            Command::InputCell,
            Command::Increment(1),
        ])
    );
    assert_eq!(
        parse("+[+]+"),
        Ok(vec![
            Command::Increment(1),
            Command::LoopOpen(4),
            Command::Increment(1),
            Command::LoopClose(1),
            Command::Increment(1),
        ])
    );
}

#[test]
fn loop_targets_point_past_close_and_back_to_open() {
    assert_eq!(
        parse("[[]]"),
        Ok(vec![
            Command::LoopOpen(4),
            Command::LoopOpen(3),
            Command::LoopClose(1),
            Command::LoopClose(0),
        ])
    );
    assert_eq!(parse("[]"), Ok(vec![Command::LoopOpen(2), Command::LoopClose(0)]));
}

#[test]
fn loop_heads_and_tails_are_equal_in_number() {
    let program = parse("[[-]>[<+>]]+[.[,]]").unwrap();
    let opens = program.iter().filter(|c| matches!(c, Command::LoopOpen(_))).count();
    let closes = program.iter().filter(|c| matches!(c, Command::LoopClose(_))).count();
    assert_eq!(opens, 5);
    assert_eq!(opens, closes);
}

#[test]
fn unmatched_close_is_reported_at_its_offset() {
    assert_eq!(parse("]"), Err(TranslateError::UnmatchedClose(0)));
    assert_eq!(parse("+[.]]"), Err(TranslateError::UnmatchedClose(4)));
}

#[test]
fn unmatched_open_is_reported_at_its_offset() {
    assert_eq!(parse("["), Err(TranslateError::UnmatchedOpen(0)));
    assert_eq!(parse("+.[[]"), Err(TranslateError::UnmatchedOpen(2)));
    assert_eq!(parse("[.[]"), Err(TranslateError::UnmatchedOpen(0)));
}

#[test]
fn plus_dot_outputs_one() {
    assert_eq!(output_of("+.", &[]), vec![1]);
}

#[test]
fn eight_times_eight_outputs_at_sign() {
    assert_eq!(output_of("++++++++[>++++++++<-]>.", &[]), vec![64]);
}

#[test]
fn clear_loop_outputs_zero_like_literal_loop() {
    let shortcut = output_of("+++[-].", &[]);
    assert_eq!(shortcut, vec![0]);
    // the body `-><` is not a single increment, so this loop runs literally
    let literal = output_of("+++[-><].", &[]);
    assert_eq!(shortcut, literal);
    assert_eq!(output_of("+++[+].", &[]), vec![0]);
}

#[test]
fn clear_loop_runs_in_one_step() {
    let program = parse("+++[-]").unwrap();
    let mut m = Machine::new();
    assert_eq!(m.step(&program), Action::Continue);
    assert_eq!(m.current_cell(), 3);
    assert_eq!(m.step(&program), Action::Continue);
    assert_eq!(m.current_cell(), 0);
    assert_eq!(m.counter(), 4);
    assert_eq!(m.step(&program), Action::Halted);
}

#[test]
fn wraparound_at_both_ends() {
    assert_eq!(wrapping_cell_add(255, 1), 0);
    assert_eq!(wrapping_cell_add(0, -1), 255);
    assert_eq!(wrapping_cell_add(0, 300), 44);
    assert_eq!(wrapping_cell_add(10, -266), 0);
    assert_eq!(wrapping_cell_add(7, isize::MIN), 7);
    let program = vec![Command::Increment(255), Command::Increment(1), Command::Increment(-1)];
    let mut m = Machine::new();
    m.step(&program);
    assert_eq!(m.current_cell(), 255);
    m.step(&program);
    assert_eq!(m.current_cell(), 0);
    m.step(&program);
    assert_eq!(m.current_cell(), 255);
}

#[test]
fn runs_are_deterministic_and_ignore_unread_input() {
    let source = "++>+++[<+>-]<.>++.";
    let first = output_of(source, &[]);
    let second = output_of(source, &[9, 9, 9]);
    assert_eq!(first, vec![5, 2]);
    assert_eq!(first, second);
}

#[test]
fn input_is_stored_and_end_of_stream_reads_zero() {
    assert_eq!(output_of(",.,.", &[65]), vec![65, 0]);
    assert_eq!(output_of(",+.", &[10]), vec![11]);
}

#[test]
fn failed_read_keeps_the_cell() {
    let program = parse("+++,").unwrap();
    let mut m = Machine::new();
    assert_eq!(m.step(&program), Action::Continue);
    assert_eq!(m.step(&program), Action::NeedInput);
    assert_eq!(m.counter(), 1);
    m.provide_input(&program, InputOutcome::Failed);
    assert_eq!(m.current_cell(), 3);
    assert_eq!(m.counter(), 2);
    assert_eq!(m.step(&program), Action::Halted);
}

#[test]
fn input_off_an_input_instruction_changes_nothing() {
    let program = parse("+").unwrap();
    let mut m = Machine::new();
    m.provide_input(&program, InputOutcome::Byte(9));
    assert_eq!(m.current_cell(), 0);
    assert_eq!(m.counter(), 0);
}

#[test]
fn pointer_is_held_at_the_tape_ends() {
    assert_eq!(output_of("<<+.", &[]), vec![1]);
    let program = vec![Command::MovePointer(40_000), Command::MovePointer(isize::MIN)];
    let mut m = Machine::new();
    m.step(&program);
    assert_eq!(m.pointer(), TAPE_LEN - 1);
    m.step(&program);
    assert_eq!(m.pointer(), 0);
    let program = vec![Command::MovePointer(isize::MAX)];
    let mut m = Machine::new();
    m.step(&program);
    assert_eq!(m.pointer(), TAPE_LEN - 1);
}

#[test]
fn endless_loop_stops_at_the_budget() {
    let program = parse("+[]").unwrap();
    let outcome = run(&program, &[], 1000);
    assert!(!outcome.finished);
    assert!(outcome.output.is_empty());
}

#[test]
fn loop_head_visits_follow_the_iterations() {
    // three iterations: the head is reached on entry and after two back-jumps,
    // and the tail tests the cell once per iteration
    let program = parse("+++[>+<-]").unwrap();
    let head = 1;
    let tail = program.len() - 1;
    let mut m = Machine::new();
    let mut head_visits = 0;
    let mut tail_visits = 0;
    loop {
        if m.counter() == head {
            head_visits += 1;
        }
        if m.counter() == tail {
            tail_visits += 1;
        }
        if m.step(&program) == Action::Halted {
            break;
        }
    }
    assert_eq!(head_visits, 3);
    assert_eq!(tail_visits, 3);
}

#[test]
fn a_zero_cell_skips_the_loop() {
    assert_eq!(output_of("[+.]-.", &[]), vec![255]);
}
