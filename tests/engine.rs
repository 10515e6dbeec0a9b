use bf_interpreter::{Error, Instr, Machine, PointerPolicy, RunStatus, Step};

fn loaded(tape: usize, text: &str) -> Machine {
    let mut m = Machine::new(tape);
    m.parse_instructions(text.to_string()).unwrap();
    m
}

#[test]
fn new_machine_is_zeroed() {
    let m = Machine::new(4);
    assert_eq!(m.tape_length(), 4);
    assert_eq!(m.data_pointer(), 0);
    assert!(m.instructions().is_empty());
    for i in 0..4 {
        assert_eq!(m.cell(i), 0);
    }
}

#[test]
fn decrement_wraps_below_zero() {
    let mut m = loaded(1, "-");
    let run = m.execute_instructions(&vec![], 10);
    assert_eq!(run.status, RunStatus::Halted);
    assert_eq!(m.cell(0), 255);
}

#[test]
fn increment_wraps_above_255() {
    let mut m = loaded(1, "-+");
    m.execute_instructions(&vec![], 10);
    assert_eq!(m.cell(0), 0);
    let mut m = loaded(1, &"+".repeat(256));
    m.execute_instructions(&vec![], 10);
    assert_eq!(m.cell(0), 0);
}

#[test]
fn long_condensed_run_adds_modulo_256() {
    let mut m = loaded(1, &"+".repeat(300));
    assert_eq!(m.instructions(), &vec![Instr::IncrDataByte(300)]);
    m.execute_instructions(&vec![], 10);
    assert_eq!(m.cell(0), 44);
}

#[test]
fn condensed_increment_gives_five() {
    let mut m = loaded(3, "+++++");
    assert_eq!(m.instructions(), &vec![Instr::IncrDataByte(5)]);
    let run = m.execute_instructions(&vec![], 10);
    assert_eq!(run.status, RunStatus::Halted);
    assert_eq!(m.cell(m.data_pointer()), 5);
}

#[test]
fn condensed_and_stepwise_agree() {
    let mut merged = loaded(3, "+++++");
    merged.execute_instructions(&vec![], 10);
    let mut single = loaded(3, "+");
    for _ in 0..5 {
        single.execute_instructions(&vec![], 10);
        single.parse_instructions("+".to_string()).unwrap();
    }
    assert_eq!(merged.cell(0), 5);
    assert_eq!(single.cell(0), 5);
}

#[test]
fn addition_loop_prints_seven() {
    let mut m = loaded(2, "++>+++++[<+>-]<.");
    let run = m.execute_instructions(&vec![], 1000);
    assert_eq!(run.status, RunStatus::Halted);
    assert_eq!(run.output, vec![7]);
    assert_eq!(m.cell(0), 7);
    assert_eq!(m.cell(1), 0);
    assert_eq!(m.data_pointer(), 0);
}

#[test]
fn echo_reads_and_writes_one_byte() {
    let mut m = loaded(1, ",.");
    let run = m.execute_instructions(&vec![65], 100);
    assert_eq!(run.status, RunStatus::Halted);
    assert_eq!(run.consumed, 1);
    assert_eq!(run.output, vec![65]);
}

#[test]
fn missing_input_is_fatal() {
    let mut m = loaded(1, ".+.,.");
    let run = m.execute_instructions(&vec![], 100);
    assert_eq!(run.status, RunStatus::Failed(Error::InputExhausted));
    assert_eq!(run.output, vec![0, 1]);
    assert_eq!(run.consumed, 0);
}

#[test]
fn pointer_wraps_both_ways() {
    let mut m = loaded(3, "<");
    m.execute_instructions(&vec![], 10);
    assert_eq!(m.data_pointer(), 2);
    let mut m = loaded(3, ">>>>");
    m.execute_instructions(&vec![], 10);
    assert_eq!(m.data_pointer(), 1);
    let mut m = loaded(3, "<<<<<<<");
    m.execute_instructions(&vec![], 10);
    assert_eq!(m.data_pointer(), 2);
}

#[test]
fn checked_pointer_leaving_tape_fails() {
    let mut m = Machine::with_policy(2, PointerPolicy::Checked);
    m.parse_instructions("+.<".to_string()).unwrap();
    let run = m.execute_instructions(&vec![], 10);
    assert_eq!(run.status, RunStatus::Failed(Error::TapeBoundsExceeded));
    assert_eq!(run.output, vec![1]);
    assert_eq!(m.data_pointer(), 0);

    let mut m = Machine::with_policy(2, PointerPolicy::Checked);
    m.parse_instructions(">>".to_string()).unwrap();
    let run = m.execute_instructions(&vec![], 10);
    assert_eq!(run.status, RunStatus::Failed(Error::TapeBoundsExceeded));

    let mut m = Machine::with_policy(2, PointerPolicy::Checked);
    m.parse_instructions("><>".to_string()).unwrap();
    let run = m.execute_instructions(&vec![], 10);
    assert_eq!(run.status, RunStatus::Halted);
    assert_eq!(m.data_pointer(), 1);
}

#[test]
fn step_budget_stops_endless_loop() {
    let mut m = loaded(1, "+[]");
    let run = m.execute_instructions(&vec![], 50);
    assert_eq!(run.status, RunStatus::OutOfSteps);
    assert!(run.output.is_empty());
}

#[test]
fn loop_skipped_on_zero_cell() {
    let mut m = loaded(2, "[>+<-]+.");
    let run = m.execute_instructions(&vec![], 100);
    assert_eq!(run.status, RunStatus::Halted);
    assert_eq!(run.output, vec![1]);
    assert_eq!(m.cell(1), 0);
}

#[test]
fn stepping_by_hand() {
    let mut m = loaded(1, "+,.");
    assert_eq!(m.step(), Ok(Step::Continued));
    assert!(m.awaiting_input());
    assert_eq!(m.step(), Ok(Step::NeedsInput));
    assert_eq!(m.feed_input(Some(9)), Ok(()));
    assert!(!m.awaiting_input());
    assert_eq!(m.step(), Ok(Step::Wrote(9)));
    assert_eq!(m.step(), Ok(Step::Halted));
}

#[test]
fn feeding_nothing_fails() {
    let mut m = loaded(1, ",");
    assert_eq!(m.step(), Ok(Step::NeedsInput));
    assert_eq!(m.feed_input(None), Err(Error::InputExhausted));
    assert!(m.awaiting_input());
}

#[test]
fn bad_program_is_not_kept() {
    let mut m = Machine::new(1);
    assert_eq!(m.parse_instructions("+[".to_string()), Err(Error::UnmatchedOpenBracket(1)));
    assert!(m.instructions().is_empty());
    assert_eq!(m.parse_instructions("]".to_string()), Err(Error::UnmatchedClosedBracket(0)));
    assert!(m.instructions().is_empty());
}

#[test]
fn default_tape_has_thirty_thousand_cells() {
    let m = Machine::new(bf_interpreter::DEFAULT_TAPE_LENGTH);
    assert_eq!(m.tape_length(), 30000);
    assert_eq!(m.cell(29999), 0);
}
