//! Pairing loop-starts with loop-ends.
use vstd::prelude::*;
use crate::opcode::{Instr, Error, is_open, is_close};

verus! {

/// Loop nesting depth before opcode `k`: loop-starts minus loop-ends in `ops[0..k]`.
pub open spec fn depth(ops: Seq<Instr>, k: int) -> int
    decreases k,
{
    if k <= 0 {
        0
    } else {
        depth(ops, k - 1) + if is_open(ops[k - 1]) {
            1int
        } else if is_close(ops[k - 1]) {
            -1int
        } else {
            0int
        }
    }
}

/// No prefix of `ops` closes more loops than it opens.
pub open spec fn never_negative(ops: Seq<Instr>) -> bool {
    forall|k: int| 0 <= k <= ops.len() ==> depth(ops, k) >= 0
}

/// Every loop-start is closed and every loop-end has an open start.
pub open spec fn balanced(ops: Seq<Instr>) -> bool {
    never_negative(ops) && depth(ops, ops.len() as int) == 0
}

/// The loop-start at `i` and the loop-end at `j` belong together: the depth
/// stays above that of `i` strictly between them and comes back at `j`.
pub open spec fn paired(ops: Seq<Instr>, i: int, j: int) -> bool {
    &&& 0 <= i < j < ops.len()
    &&& is_open(ops[i])
    &&& is_close(ops[j])
    &&& depth(ops, j + 1) == depth(ops, i)
    &&& forall|l: int| i < l <= j ==> depth(ops, l) > depth(ops, i)
}

/// `out` is `ops` with every loop opcode pointing at its partner and every
/// other opcode unchanged.
pub open spec fn resolved(ops: Seq<Instr>, out: Seq<Instr>) -> bool {
    &&& out.len() == ops.len()
    &&& forall|k: int|
        0 <= k < ops.len() && !is_open(ops[k]) && !is_close(ops[k]) ==> out[k] == ops[k]
    &&& forall|i: int|
        0 <= i < ops.len() && is_open(ops[i]) ==> exists|j: int|
            paired(ops, i, j) && out[i] == Instr::JumpForward(j as usize)
    &&& forall|j: int|
        0 <= j < ops.len() && is_close(ops[j]) ==> exists|i: int|
            paired(ops, i, j) && out[j] == Instr::JumpBackward(i as usize)
}

/// The loop-end at `k` is the first opcode at which more loops are closed than opened.
pub open spec fn first_unmatched_close(ops: Seq<Instr>, k: int) -> bool {
    &&& 0 <= k < ops.len()
    &&& is_close(ops[k])
    &&& depth(ops, k) == 0
    &&& forall|l: int| 0 <= l <= k ==> depth(ops, l) >= 0
}

/// The loop-start at `k` is the innermost one left open at the end: it opens
/// the last level that is still open, and nothing after it closes that level.
pub open spec fn innermost_unmatched_open(ops: Seq<Instr>, k: int) -> bool {
    &&& 0 <= k < ops.len()
    &&& is_open(ops[k])
    &&& depth(ops, k) == depth(ops, ops.len() as int) - 1
    &&& forall|l: int| k < l <= ops.len() ==> depth(ops, l) > depth(ops, k)
}

/// What resolving `ops` gives back in `r`.
pub open spec fn resolve_result(ops: Seq<Instr>, r: Result<Seq<Instr>, Error>) -> bool {
    match r {
        Ok(out) => balanced(ops) && resolved(ops, out),
        Err(Error::UnmatchedClosedBracket(k)) => first_unmatched_close(ops, k as int),
        Err(Error::UnmatchedOpenBracket(k)) => never_negative(ops) && depth(
            ops,
            ops.len() as int,
        ) > 0 && innermost_unmatched_open(ops, k as int),
        Err(_) => false,
    }
}

/// A resolve result with the program as a sequence.
pub open spec fn result_view(r: Result<Vec<Instr>, Error>) -> Result<Seq<Instr>, Error> {
    match r {
        Ok(v) => Ok(v@),
        Err(e) => Err(e),
    }
}

/// While scanning up to `k`, the loop-start at `p` still opens level `d`.
spec fn open_level(ops: Seq<Instr>, k: int, d: int, p: int) -> bool {
    &&& 0 <= p < k
    &&& is_open(ops[p])
    &&& depth(ops, p) == d
    &&& forall|l: int| p < l <= k ==> depth(ops, l) > d
}

proof fn lemma_depth_step(ops: Seq<Instr>, k: int)
    requires
        0 <= k < ops.len(),
    ensures
        depth(ops, k + 1) == depth(ops, k) + if is_open(ops[k]) {
            1int
        } else if is_close(ops[k]) {
            -1int
        } else {
            0int
        },
{
}

/// Fills in the jump targets of every loop opcode, or reports the first
/// unmatched loop-end, or else the innermost loop-start left open.
pub fn check_brackets(ops: &Vec<Instr>) -> (r: Result<Vec<Instr>, Error>)
    ensures
        resolve_result(ops@, result_view(r)),
{
    let n = ops.len();
    let mut out: Vec<Instr> = ops.clone();
    let mut stack: Vec<usize> = Vec::new();
    let mut k: usize = 0;
    while k < n
        invariant
            n == ops.len(),
            0 <= k <= n,
            out.len() == n,
            stack.len() == depth(ops@, k as int),
            forall|l: int| 0 <= l <= k ==> depth(ops@, l) >= 0,
            forall|d: int| 0 <= d < stack.len() ==> open_level(ops@, k as int, d, #[trigger] stack@[d] as int),
            forall|m: int|
                k <= m < n || (0 <= m < k && !is_open(ops@[m]) && !is_close(ops@[m]))
                    ==> out@[m] == ops@[m],
            forall|m: int|
                0 <= m < k && is_open(ops@[m]) ==> (exists|d: int|
                    0 <= d < stack.len() && stack@[d] == m) || (exists|j: int|
                    paired(ops@, m, j) && out@[m] == Instr::JumpForward(j as usize)),
            forall|j: int|
                0 <= j < k && is_close(ops@[j]) ==> exists|i: int|
                    paired(ops@, i, j) && out@[j] == Instr::JumpBackward(i as usize),
        decreases n - k,
    {
        proof {
            lemma_depth_step(ops@, k as int);
        }
        match ops[k] {
            Instr::JumpForward(_) => {
                let ghost old_stack = stack@;
                stack.push(k);
                proof {
                    assert forall|m: int|
                        0 <= m < k + 1 && is_open(ops@[m]) implies (exists|d: int|
                            0 <= d < stack.len() && stack@[d] == m) || (exists|j: int|
                            paired(ops@, m, j) && out@[m] == Instr::JumpForward(j as usize)) by {
                        if m == k {
                            assert(stack@[old_stack.len() as int] == m);
                        } else if exists|d: int| 0 <= d < old_stack.len() && old_stack[d] == m {
                            let d = choose|d: int| 0 <= d < old_stack.len() && old_stack[d] == m;
                            assert(stack@[d] == m);
                        }
                    }
                }
            },
            Instr::JumpBackward(_) => {
                if stack.len() == 0 {
                    return Err(Error::UnmatchedClosedBracket(k));
                }
                let ghost old_stack = stack@;
                let ghost old_out = out@;
                let start = stack.pop().unwrap();
                assert(open_level(ops@, k as int, old_stack.len() - 1, start as int));
                out.set(k, Instr::JumpBackward(start));
                out.set(start, Instr::JumpForward(k));
                assert(paired(ops@, start as int, k as int));
                proof {
                    assert forall|m: int|
                        0 <= m < k + 1 && is_open(ops@[m]) implies (exists|d: int|
                            0 <= d < stack.len() && stack@[d] == m) || (exists|j: int|
                            paired(ops@, m, j) && out@[m] == Instr::JumpForward(j as usize)) by {
                        if m != start {
                            if exists|d: int| 0 <= d < old_stack.len() && old_stack[d] == m {
                                let d = choose|d: int| 0 <= d < old_stack.len() && old_stack[d] == m;
                                assert(open_level(ops@, k as int, d, old_stack[d] as int));
                                assert(d != old_stack.len() - 1);
                                assert(stack@[d] == m);
                            } else {
                                let j = choose|j: int|
                                    paired(ops@, m, j) && old_out[m] == Instr::JumpForward(j as usize);
                                assert(out@[m] == old_out[m]);
                            }
                        }
                    }
                    assert forall|j: int|
                        0 <= j < k + 1 && is_close(ops@[j]) implies exists|i: int|
                            paired(ops@, i, j) && out@[j] == Instr::JumpBackward(i as usize) by {
                        if j < k {
                            let i = choose|i: int|
                                paired(ops@, i, j) && old_out[j] == Instr::JumpBackward(i as usize);
                            assert(out@[j] == old_out[j]);
                        }
                    }
                }
            },
            _ => {},
        }
        k = k + 1;
    }
    if stack.len() == 0 {
        Ok(out)
    } else {
        let top = stack.pop().unwrap();
        Err(Error::UnmatchedOpenBracket(top))
    }
}

/// Two loop-ends cannot close the same loop-start, nor two loop-starts be
/// closed by the same loop-end.
pub(crate) proof fn lemma_pairing_unique(ops: Seq<Instr>, i: int, j: int, i2: int, j2: int)
    requires
        paired(ops, i, j),
        paired(ops, i2, j2),
        i == i2 || j == j2,
    ensures
        i == i2 && j == j2,
{
    if i == i2 && j < j2 {
        assert(depth(ops, j + 1) > depth(ops, i));
    } else if i == i2 && j2 < j {
        assert(depth(ops, j2 + 1) > depth(ops, i));
    } else if j == j2 && i < i2 {
        assert(depth(ops, i2) > depth(ops, i));
    } else if j == j2 && i2 < i {
        assert(depth(ops, i) > depth(ops, i2));
    }
}

pub(crate) proof fn lemma_partner_of_open(ops: Seq<Instr>, out: Seq<Instr>, i: int) -> (j: int)
    requires
        resolved(ops, out),
        0 <= i < ops.len(),
        is_open(ops[i]),
    ensures
        paired(ops, i, j),
        out[i] == Instr::JumpForward(j as usize),
{
    choose|j: int| paired(ops, i, j) && out[i] == Instr::JumpForward(j as usize)
}

pub(crate) proof fn lemma_partner_of_close(ops: Seq<Instr>, out: Seq<Instr>, j: int) -> (i: int)
    requires
        resolved(ops, out),
        0 <= j < ops.len(),
        is_close(ops[j]),
    ensures
        paired(ops, i, j),
        out[j] == Instr::JumpBackward(i as usize),
{
    choose|i: int| paired(ops, i, j) && out[j] == Instr::JumpBackward(i as usize)
}

/// The loop-start at `i` and the loop-end at `j` point at each other.
pub open spec fn mutual(out: Seq<Instr>, i: int, j: int) -> bool {
    out[i] == Instr::JumpForward(j as usize) && out[j] == Instr::JumpBackward(i as usize)
}

proof fn lemma_open_target(ops: Seq<Instr>, out: Seq<Instr>, i: int) -> (j: int)
    requires
        resolved(ops, out),
        0 <= i < ops.len(),
        is_open(ops[i]),
    ensures
        i < j < ops.len(),
        is_close(ops[j]),
        mutual(out, i, j),
{
    let j = choose|j: int| paired(ops, i, j) && out[i] == Instr::JumpForward(j as usize);
    assert(0 <= j < ops.len() && is_close(ops[j]));
    let i2 = choose|i2: int| paired(ops, i2, j) && out[j] == Instr::JumpBackward(i2 as usize);
    lemma_pairing_unique(ops, i, j, i2, j);
    j
}

proof fn lemma_close_target(ops: Seq<Instr>, out: Seq<Instr>, j: int) -> (i: int)
    requires
        resolved(ops, out),
        0 <= j < ops.len(),
        is_close(ops[j]),
    ensures
        0 <= i < j,
        is_open(ops[i]),
        mutual(out, i, j),
{
    let i = choose|i: int| paired(ops, i, j) && out[j] == Instr::JumpBackward(i as usize);
    assert(0 <= i < ops.len() && is_open(ops[i]));
    let j2 = choose|j2: int| paired(ops, i, j2) && out[i] == Instr::JumpForward(j2 as usize);
    lemma_pairing_unique(ops, i, j, i, j2);
    i
}

/// After a successful resolve no loop opcode is left unresolved, and the
/// targets are mutual: each loop-start at `i` points at a loop-end at some
/// `j > i` that points back at `i`, and each loop-end at `j` at a loop-start
/// at some `i < j` that points back at `j`.
pub proof fn lemma_targets_are_mutual(ops: Seq<Instr>, out: Seq<Instr>)
    requires
        resolve_result(ops, Ok(out)),
    ensures
        forall|i: int|
            0 <= i < ops.len() && #[trigger] is_open(ops[i]) ==> exists|j: int|
                i < j < ops.len() && is_close(ops[j]) && mutual(out, i, j),
        forall|j: int|
            0 <= j < ops.len() && #[trigger] is_close(ops[j]) ==> exists|i: int|
                0 <= i < j && is_open(ops[i]) && mutual(out, i, j),
{
    assert forall|i: int| 0 <= i < ops.len() && #[trigger] is_open(ops[i]) implies exists|j: int|
        i < j < ops.len() && is_close(ops[j]) && mutual(out, i, j) by {
        let j = lemma_open_target(ops, out, i);
    }
    assert forall|j: int| 0 <= j < ops.len() && #[trigger] is_close(ops[j]) implies exists|i: int|
        0 <= i < j && is_open(ops[i]) && mutual(out, i, j) by {
        let i = lemma_close_target(ops, out, j);
    }
}

} // verus!
