use bf::{execute, parse, Error, Instruction, Machine, StepOutcome};

const FUEL: u64 = 10_000_000;

fn run_ok(source: &str, input: &[u8]) -> Vec<u8> {
    let program = parse(source).expect("program should parse");
    execute(&program, input, FUEL)
        .expect("program should halt within the budget")
        .expect("program should not fail")
}

#[test]
fn parse_empty_source_gives_empty_program() {
    let program = parse("").expect("empty source should parse");
    assert_eq!(program.instructions, vec![]);
}

#[test]
fn execute_empty_program_succeeds_without_output() {
    assert_eq!(run_ok("", &[]), Vec::<u8>::new());
}

#[test]
fn lone_loop_open_fails_unclosed_left_at_offset_zero() {
    assert_eq!(parse("["), Err(Error::UnclosedLB(0)));
}

#[test]
fn lone_loop_close_fails_unclosed_right_at_offset_zero() {
    assert_eq!(parse("]"), Err(Error::UnclosedRB(0)));
}

#[test]
fn unclosed_left_bracket_reports_outermost_offset() {
    assert_eq!(parse("[[]"), Err(Error::UnclosedLB(0)));
    assert_eq!(parse("ab[cd[]"), Err(Error::UnclosedLB(2)));
}

#[test]
fn unclosed_right_bracket_reports_its_own_offset() {
    assert_eq!(parse("+]"), Err(Error::UnclosedRB(1)));
}

#[test]
fn nested_loop_pairs_resolve_mutually() {
    let program = parse("[[]]").expect("nested brackets should parse");
    assert_eq!(
        program.instructions,
        vec![
            Instruction::JumpIfZero(3),
            Instruction::JumpIfZero(2),
            Instruction::JumpIfNonZero(1),
            Instruction::JumpIfNonZero(0),
        ]
    );
}

#[test]
fn move_runs_collapse_into_one_instruction() {
    let program = parse(">><").expect("moves should parse");
    assert_eq!(program.instructions, vec![Instruction::MoveRef(1)]);
    let program = parse("+--").expect("cell changes should parse");
    assert_eq!(program.instructions, vec![Instruction::AddCell(-1)]);
}

#[test]
fn comment_bytes_are_ignored_and_break_runs() {
    let program = parse(">a>").expect("commented source should parse");
    assert_eq!(
        program.instructions,
        vec![Instruction::MoveRef(1), Instruction::MoveRef(1)]
    );
    let program = parse("words 123 {}").expect("pure comments should parse");
    assert_eq!(program.instructions, vec![]);
}

#[test]
fn two_increments_then_output_writes_one_byte_of_value_two() {
    assert_eq!(run_ok("++.", &[]), vec![2]);
}

#[test]
fn increment_then_clear_loop_runs_body_exactly_once() {
    let program = parse("+[-]").expect("loop should parse");
    let mut machine = Machine::new();
    let mut outcomes = Vec::new();
    loop {
        let outcome = machine.step(&program);
        outcomes.push(outcome);
        match outcome {
            StepOutcome::Done | StepOutcome::Failed(_) => break,
            _ => {}
        }
    }
    // One increment, the loop open, one decrement (the body, once), the
    // loop close falling through, then the end: no output anywhere.
    assert_eq!(
        outcomes,
        vec![
            StepOutcome::Ran,
            StepOutcome::Ran,
            StepOutcome::Ran,
            StepOutcome::Ran,
            StepOutcome::Done,
        ]
    );
}

#[test]
fn clear_loop_leaves_cell_at_zero() {
    assert_eq!(run_ok("+[-].", &[]), vec![0]);
}

#[test]
fn backward_move_from_origin_fails_with_negative_data_pointer() {
    let program = parse("<.").expect("program should parse");
    assert_eq!(execute(&program, &[], FUEL), Some(Err(Error::NegDP)));
    // The failing step emits nothing: the very first fetch fails.
    let mut machine = Machine::new();
    assert_eq!(machine.step(&program), StepOutcome::Failed(Error::NegDP));
}

#[test]
fn incrementing_256_times_wraps_the_cell_to_zero() {
    let source = "+".repeat(256) + ".";
    let program = parse(&source).expect("program should parse");
    assert_eq!(
        program.instructions,
        vec![Instruction::AddCell(256), Instruction::Output]
    );
    assert_eq!(run_ok(&source, &[]), vec![0]);
}

#[test]
fn decrement_from_zero_wraps_to_255() {
    assert_eq!(run_ok("-.", &[]), vec![255]);
}

#[test]
fn large_forward_move_reads_default_zero_sparsely() {
    let source = ">".repeat(10_000) + ".";
    let program = parse(&source).expect("program should parse");
    assert_eq!(
        program.instructions,
        vec![Instruction::MoveRef(10_000), Instruction::Output]
    );
    assert_eq!(run_ok(&source, &[]), vec![0]);
}

#[test]
fn skipping_a_loop_costs_one_step_whatever_its_size() {
    // From an all-zero tape the loop open jumps straight past the body:
    // one step, then the end, for a small body and a large one alike.
    for body_pairs in [5usize, 500] {
        let source = format!("[{}]", ">+".repeat(body_pairs));
        let program = parse(&source).expect("program should parse");
        let mut machine = Machine::new();
        assert_eq!(machine.step(&program), StepOutcome::Ran);
        assert_eq!(machine.step(&program), StepOutcome::Done);
    }
}

#[test]
fn input_bytes_are_stored_and_echoed() {
    assert_eq!(run_ok(",.", &[65]), vec![65]);
    assert_eq!(run_ok(",.,.", b"hi"), b"hi".to_vec());
}

#[test]
fn exhausted_input_reads_zero() {
    assert_eq!(run_ok(",.", &[]), vec![0]);
}

#[test]
fn unhalted_program_returns_none_within_budget() {
    let program = parse("+[]").expect("program should parse");
    assert_eq!(execute(&program, &[], 1000), None);
}

#[test]
fn hello_world_program_emits_exactly_its_thirteen_bytes() {
    let source = "++++++++[>++++[>++>+++>+++>+<<<<-]>+>+>->>+[<]<-]>>.>---.+++++++..+++.>>.<-.<.+++.------.--------.>>+.>++.";
    assert_eq!(run_ok(source, &[]), b"Hello World!\n".to_vec());
}
