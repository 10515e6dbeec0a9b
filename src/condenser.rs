//! Merging runs of single-step adjustments into counted opcodes.
use vstd::prelude::*;
use crate::opcode::{Instr, is_unit_step};

verus! {

/// The opcode of the same kind as the adjustment `op`, with count `n`.
pub open spec fn with_count(op: Instr, n: usize) -> Instr {
    match op {
        Instr::IncrDataByte(_) => Instr::IncrDataByte(n),
        Instr::DecrDataByte(_) => Instr::DecrDataByte(n),
        Instr::IncrDataPointer(_) => Instr::IncrDataPointer(n),
        Instr::DecrDataPointer(_) => Instr::DecrDataPointer(n),
        _ => op,
    }
}

/// One past the end of the maximal run of opcodes equal to `ops[i]` that starts at `i`.
pub open spec fn run_end(ops: Seq<Instr>, i: int) -> int
    decreases ops.len() - i,
{
    if 0 <= i && i + 1 < ops.len() && ops[i + 1] == ops[i] {
        run_end(ops, i + 1)
    } else {
        i + 1
    }
}

/// `ops[i..]` condensed: each maximal run of one single-step adjustment becomes
/// one opcode counting the run; every other opcode is kept as it is.
pub open spec fn condense_from(ops: Seq<Instr>, i: int) -> Seq<Instr>
    decreases ops.len() - i,
    via condense_from_decreases
{
    if i < 0 || i >= ops.len() {
        seq![]
    } else if is_unit_step(ops[i]) {
        let j = run_end(ops, i);
        seq![with_count(ops[i], (j - i) as usize)] + condense_from(ops, j)
    } else {
        seq![ops[i]] + condense_from(ops, i + 1)
    }
}

/// The condensed form of a whole opcode sequence.
pub open spec fn condense_spec(ops: Seq<Instr>) -> Seq<Instr> {
    condense_from(ops, 0)
}

pub(crate) proof fn lemma_run_end_bounds(ops: Seq<Instr>, i: int)
    requires
        0 <= i < ops.len(),
    ensures
        i < run_end(ops, i) <= ops.len(),
        forall|l: int| i <= l < run_end(ops, i) ==> ops[l] == ops[i],
    decreases ops.len() - i,
{
    if i + 1 < ops.len() && ops[i + 1] == ops[i] {
        lemma_run_end_bounds(ops, i + 1);
    }
}

#[via_fn]
proof fn condense_from_decreases(ops: Seq<Instr>, i: int) {
    if 0 <= i < ops.len() {
        lemma_run_end_bounds(ops, i);
    }
}

/// A run that holds `ops[i]` on `[i, j)` and stops at `j` ends at `j`.
proof fn lemma_run_end_at(ops: Seq<Instr>, i: int, j: int)
    requires
        0 <= i < j <= ops.len(),
        forall|l: int| i <= l < j ==> ops[l] == ops[i],
        j == ops.len() || ops[j] != ops[i],
    ensures
        run_end(ops, i) == j,
    decreases j - i,
{
    if i + 1 < j {
        lemma_run_end_at(ops, i + 1, j);
    }
}

/// Merges each maximal run of one single-step adjustment into a counted opcode.
pub fn condense(ops: &Vec<Instr>) -> (r: Vec<Instr>)
    ensures
        r@ == condense_spec(ops@),
{
    let n = ops.len();
    let mut out: Vec<Instr> = Vec::new();
    let mut i: usize = 0;
    while i < n
        invariant
            n == ops.len(),
            i <= n,
            out@ + condense_from(ops@, i as int) == condense_spec(ops@),
        decreases n - i,
    {
        let op = ops[i];
        let unit = match op {
            Instr::IncrDataByte(c) | Instr::DecrDataByte(c) | Instr::IncrDataPointer(c)
            | Instr::DecrDataPointer(c) => c == 1,
            _ => false,
        };
        if unit {
            let mut j: usize = i + 1;
            while j < n && ops[j] == op
                invariant
                    n == ops.len(),
                    i < j <= n,
                    op == ops@[i as int],
                    forall|l: int| i <= l < j ==> ops@[l] == op,
                decreases n - j,
            {
                j = j + 1;
            }
            proof {
                lemma_run_end_at(ops@, i as int, j as int);
            }
            let merged = match op {
                Instr::IncrDataByte(_) => Instr::IncrDataByte(j - i),
                Instr::DecrDataByte(_) => Instr::DecrDataByte(j - i),
                Instr::IncrDataPointer(_) => Instr::IncrDataPointer(j - i),
                _ => Instr::DecrDataPointer(j - i),
            };
            let ghost before = out@;
            out.push(merged);
            assert(out@ + condense_from(ops@, j as int) =~= before + condense_from(ops@, i as int));
            i = j;
        } else {
            let ghost before = out@;
            out.push(op);
            assert(out@ + condense_from(ops@, i + 1) =~= before + condense_from(ops@, i as int));
            i = i + 1;
        }
    }
    assert(out@ =~= out@ + condense_from(ops@, n as int));
    out
}

} // verus!
