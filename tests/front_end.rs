use bf_interpreter::condenser::condense;
use bf_interpreter::lexer::lex;
use bf_interpreter::resolver::check_brackets;
use bf_interpreter::{Error, Instr};

fn build(text: &str) -> Result<Vec<Instr>, Error> {
    check_brackets(&condense(&lex(text)))
}

#[test]
fn lex_maps_each_symbol_in_order() {
    assert_eq!(
        lex("+-><.,[]"),
        vec![
            Instr::IncrDataByte(1),
            Instr::DecrDataByte(1),
            Instr::IncrDataPointer(1),
            Instr::DecrDataPointer(1),
            Instr::Print,
            Instr::Input,
            Instr::JumpForward(0),
            Instr::JumpBackward(0),
        ]
    );
}

#[test]
fn lex_drops_comments() {
    assert_eq!(lex("hello world\n\t 123 é"), vec![]);
    assert_eq!(lex("a+b"), vec![Instr::IncrDataByte(1)]);
}

#[test]
fn lex_ignores_interspersed_comments() {
    assert_eq!(lex("+ + - \n- > <"), lex("+ +--><"));
    assert_eq!(lex("+ + - \n- > <"), lex("+ + - \n- > <"));
    assert_eq!(lex("+ +--><").len(), 6);
}

#[test]
fn lone_close_is_unmatched_at_zero() {
    assert_eq!(build("]"), Err(Error::UnmatchedClosedBracket(0)));
}

#[test]
fn lone_open_is_unmatched_at_zero() {
    assert_eq!(build("["), Err(Error::UnmatchedOpenBracket(0)));
}

#[test]
fn one_dangling_open_reported() {
    assert_eq!(build("[[]"), Err(Error::UnmatchedOpenBracket(0)));
}

#[test]
fn innermost_dangling_open_reported() {
    assert_eq!(build("[[][ "), Err(Error::UnmatchedOpenBracket(3)));
}

#[test]
fn first_unmatched_close_reported() {
    assert_eq!(build("[]]]"), Err(Error::UnmatchedClosedBracket(2)));
    assert_eq!(build("]["), Err(Error::UnmatchedClosedBracket(0)));
}

#[test]
fn close_position_counts_condensed_opcodes() {
    assert_eq!(build("+++]"), Err(Error::UnmatchedClosedBracket(1)));
}

#[test]
fn targets_point_at_each_other() {
    let prog = build("[[]+[]]").unwrap();
    assert_eq!(
        prog,
        vec![
            Instr::JumpForward(6),
            Instr::JumpForward(2),
            Instr::JumpBackward(1),
            Instr::IncrDataByte(1),
            Instr::JumpForward(5),
            Instr::JumpBackward(4),
            Instr::JumpBackward(0),
        ]
    );
    for (i, op) in prog.iter().enumerate() {
        match *op {
            Instr::JumpForward(j) => assert_eq!(prog[j], Instr::JumpBackward(i)),
            Instr::JumpBackward(j) => assert_eq!(prog[j], Instr::JumpForward(i)),
            _ => {}
        }
    }
}

#[test]
fn condense_merges_runs() {
    assert_eq!(condense(&lex("+++++")), vec![Instr::IncrDataByte(5)]);
    assert_eq!(
        condense(&lex("++-->>><.<<[+]")),
        vec![
            Instr::IncrDataByte(2),
            Instr::DecrDataByte(2),
            Instr::IncrDataPointer(3),
            Instr::DecrDataPointer(1),
            Instr::Print,
            Instr::DecrDataPointer(2),
            Instr::JumpForward(0),
            Instr::IncrDataByte(1),
            Instr::JumpBackward(0),
        ]
    );
}

#[test]
fn condense_keeps_io_and_loops_unmerged() {
    assert_eq!(
        condense(&lex("..,,[[]]")),
        vec![
            Instr::Print,
            Instr::Print,
            Instr::Input,
            Instr::Input,
            Instr::JumpForward(0),
            Instr::JumpForward(0),
            Instr::JumpBackward(0),
            Instr::JumpBackward(0),
        ]
    );
}

#[test]
fn condense_does_not_truncate_long_runs() {
    let text = "+".repeat(300);
    assert_eq!(condense(&lex(&text)), vec![Instr::IncrDataByte(300)]);
}

#[test]
fn condense_of_empty_is_empty() {
    assert_eq!(condense(&vec![]), vec![]);
    assert_eq!(build(""), Ok(vec![]));
}
