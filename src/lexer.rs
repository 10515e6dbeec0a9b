//! Turning program text into opcodes.
use vstd::prelude::*;
use crate::opcode::Instr;

verus! {

/// The opcode a character stands for, if it is one of the eight symbols.
pub open spec fn decode_spec(c: char) -> Option<Instr> {
    if c == '+' {
        Some(Instr::IncrDataByte(1))
    } else if c == '-' {
        Some(Instr::DecrDataByte(1))
    } else if c == '>' {
        Some(Instr::IncrDataPointer(1))
    } else if c == '<' {
        Some(Instr::DecrDataPointer(1))
    } else if c == '.' {
        Some(Instr::Print)
    } else if c == ',' {
        Some(Instr::Input)
    } else if c == '[' {
        Some(Instr::JumpForward(0))
    } else if c == ']' {
        Some(Instr::JumpBackward(0))
    } else {
        None
    }
}

/// The characters of `s` that carry meaning, in order.
pub open spec fn significant(s: Seq<char>) -> Seq<char> {
    s.filter(|c: char| decode_spec(c) is Some)
}

/// The opcodes of a text: one for each significant character, in order.
pub open spec fn lex_spec(s: Seq<char>) -> Seq<Instr> {
    significant(s).map_values(|c: char| decode_spec(c)->0)
}

pub fn decode(c: char) -> (r: Option<Instr>)
    ensures
        r == decode_spec(c),
{
    match c {
        '+' => Some(Instr::IncrDataByte(1)),
        '-' => Some(Instr::DecrDataByte(1)),
        '>' => Some(Instr::IncrDataPointer(1)),
        '<' => Some(Instr::DecrDataPointer(1)),
        '.' => Some(Instr::Print),
        ',' => Some(Instr::Input),
        '[' => Some(Instr::JumpForward(0)),
        ']' => Some(Instr::JumpBackward(0)),
        _ => None,
    }
}

/// Decodes program text, dropping every character that is not an opcode.
pub fn lex(contents: &str) -> (r: Vec<Instr>)
    ensures
        r@ == lex_spec(contents@),
{
    let mut out: Vec<Instr> = Vec::new();
    for c in it: contents.chars()
        invariant
            it.seq() == contents@,
            out@ == lex_spec(contents@.take(it.index() as int)),
    {
        proof {
            let s = contents@.take(it.index() as int);
            let s1 = contents@.take(it.index() + 1);
            assert(s1.drop_last() == s);
            assert(s1.last() == c);
            reveal(Seq::filter);
            assert(significant(s1) == if decode_spec(c) is Some {
                significant(s).push(c)
            } else {
                significant(s)
            });
        }
        match decode(c) {
            Some(op) => out.push(op),
            None => {},
        }
        assert(out@ =~= lex_spec(contents@.take(it.index() + 1)));
    }
    assert(contents@.take(contents@.len() as int) == contents@);
    out
}

/// Lexing sees only the significant characters: two texts that hold the same
/// opcode symbols in the same order, whatever else they hold, lex alike.
pub proof fn lemma_lex_ignores_comments(s: Seq<char>, t: Seq<char>)
    requires
        significant(s) == significant(t),
    ensures
        lex_spec(s) == lex_spec(t),
{
}

} // verus!
