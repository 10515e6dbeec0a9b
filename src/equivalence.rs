//! Condensing does not change what a program does.
use vstd::prelude::*;
use crate::opcode::{Instr, Error, is_unit_step, is_open, is_close};
use crate::machine::{
    MachineView,
    PointerPolicy,
    RunStatus,
    Step,
    run_spec,
    effect_of,
    lemma_unit_run_matches_counted_step,
    lemma_step_keeps_wf,
    lemma_resolved_targets_in_range,
};
use crate::condenser::{run_end, with_count, condense_from, condense_spec, lemma_run_end_bounds};
use crate::resolver::{
    depth,
    paired,
    resolved,
    resolve_result,
    lemma_pairing_unique,
    lemma_partner_of_open,
    lemma_partner_of_close,
};

verus! {

/// Where the group of opcodes that starts at `i` ends: after the whole run
/// for a single-step adjustment, after `i` itself otherwise.
pub open spec fn next_start(ops: Seq<Instr>, i: int) -> int {
    if is_unit_step(ops[i]) {
        run_end(ops, i)
    } else {
        i + 1
    }
}

/// The opcode that condensing makes of the group starting at `i`.
pub open spec fn group_op(ops: Seq<Instr>, i: int) -> Instr {
    if is_unit_step(ops[i]) {
        with_count(ops[i], (run_end(ops, i) - i) as usize)
    } else {
        ops[i]
    }
}

/// The start of each group of `ops[i..]`, in order.
pub open spec fn starts_from(ops: Seq<Instr>, i: int) -> Seq<int>
    decreases ops.len() - i,
    via starts_from_decreases
{
    if i < 0 || i >= ops.len() {
        seq![]
    } else {
        seq![i] + starts_from(ops, next_start(ops, i))
    }
}

#[via_fn]
proof fn starts_from_decreases(ops: Seq<Instr>, i: int) {
    if 0 <= i < ops.len() {
        lemma_run_end_bounds(ops, i);
    }
}

/// The index in `ops` of the group that became opcode `q` of the condensed
/// form; one past the end for `q` past the last group.
pub open spec fn origin(ops: Seq<Instr>, q: int) -> int {
    let s = starts_from(ops, 0);
    if 0 <= q < s.len() {
        s[q]
    } else {
        ops.len() as int
    }
}

proof fn lemma_groups_from(ops: Seq<Instr>, i: int)
    requires
        0 <= i <= ops.len(),
    ensures
        ({
            let s = starts_from(ops, i);
            let c = condense_from(ops, i);
            &&& s.len() == c.len()
            &&& (i < ops.len() <==> s.len() > 0)
            &&& s.len() > 0 ==> s[0] == i
            &&& forall|q: int| 0 <= q < s.len() ==> i <= #[trigger] s[q] < ops.len()
            &&& forall|q: int| 0 <= q < s.len() ==> c[q] == group_op(ops, #[trigger] s[q])
            &&& forall|q: int| 0 <= q < s.len() - 1 ==> s[q + 1] == next_start(ops, #[trigger] s[q])
            &&& s.len() > 0 ==> next_start(ops, s[s.len() - 1]) == ops.len()
        }),
    decreases ops.len() - i,
{
    if i < ops.len() {
        lemma_run_end_bounds(ops, i);
        let n = next_start(ops, i);
        lemma_groups_from(ops, n);
        let s = starts_from(ops, i);
        let c = condense_from(ops, i);
        let s1 = starts_from(ops, n);
        let c1 = condense_from(ops, n);
        assert(s == seq![i] + s1);
        assert(c == seq![group_op(ops, i)] + c1);
        assert forall|q: int| 0 <= q < s.len() - 1 implies s[q + 1] == next_start(ops, #[trigger] s[q]) by {
            if q > 0 {
                assert(s[q] == s1[q - 1]);
                assert(s[q + 1] == s1[q]);
            }
        }
        assert forall|q: int| 0 <= q < s.len() implies c[q] == group_op(ops, #[trigger] s[q]) by {
            if q > 0 {
                assert(s[q] == s1[q - 1]);
                assert(c[q] == c1[q - 1]);
            }
        }
        assert forall|q: int| 0 <= q < s.len() implies i <= #[trigger] s[q] < ops.len() by {
            if q > 0 {
                assert(s[q] == s1[q - 1]);
            }
        }
    }
}

proof fn lemma_origin(ops: Seq<Instr>)
    ensures
        ({
            let c = condense_spec(ops);
            &&& origin(ops, 0) == 0
            &&& origin(ops, c.len() as int) == ops.len()
            &&& forall|q: int|
                0 <= q < c.len() ==> {
                    &&& 0 <= #[trigger] origin(ops, q) < ops.len()
                    &&& origin(ops, q + 1) == next_start(ops, origin(ops, q))
                    &&& c[q] == group_op(ops, origin(ops, q))
                }
        }),
{
    lemma_groups_from(ops, 0);
    let s = starts_from(ops, 0);
    let c = condense_spec(ops);
    assert forall|q: int| 0 <= q < c.len() implies {
        &&& 0 <= #[trigger] origin(ops, q) < ops.len()
        &&& origin(ops, q + 1) == next_start(ops, origin(ops, q))
        &&& c[q] == group_op(ops, origin(ops, q))
    } by {
        assert(origin(ops, q) == s[q]);
        if q + 1 < s.len() {
            assert(origin(ops, q + 1) == s[q + 1]);
        }
    }
}

proof fn lemma_next_start_bounds(ops: Seq<Instr>, i: int)
    requires
        0 <= i < ops.len(),
    ensures
        i < next_start(ops, i) <= ops.len(),
        forall|l: int| i <= l < next_start(ops, i) ==> depth(ops, l) == depth(ops, i),
        depth(ops, next_start(ops, i)) == depth(ops, i + 1),
{
    lemma_run_end_bounds(ops, i);
    if is_unit_step(ops[i]) {
        lemma_flat_run(ops, i, run_end(ops, i));
    }
}

/// Depth does not move across a run of one single-step adjustment.
proof fn lemma_flat_run(ops: Seq<Instr>, i: int, j: int)
    requires
        0 <= i < j <= ops.len(),
        is_unit_step(ops[i]),
        forall|l: int| i <= l < j ==> ops[l] == ops[i],
    ensures
        forall|l: int| i <= l <= j ==> depth(ops, l) == depth(ops, i),
    decreases j - i,
{
    if j - 1 > i {
        lemma_flat_run(ops, i, j - 1);
    }
    assert(ops[j - 1] == ops[i]);
    assert(depth(ops, j) == depth(ops, j - 1));
}

proof fn lemma_origin_increasing(ops: Seq<Instr>, q1: int, q2: int)
    requires
        0 <= q1 < q2 <= condense_spec(ops).len(),
    ensures
        origin(ops, q1) < origin(ops, q2),
    decreases q2 - q1,
{
    lemma_origin(ops);
    lemma_next_start_bounds(ops, origin(ops, q2 - 1));
    if q1 < q2 - 1 {
        lemma_origin_increasing(ops, q1, q2 - 1);
    }
}

/// Condensing never lengthens a program.
proof fn lemma_condensed_not_longer(ops: Seq<Instr>)
    ensures
        condense_spec(ops).len() <= ops.len(),
{
    lemma_origin(ops);
    let n = condense_spec(ops).len() as int;
    if n > 0 {
        lemma_origin_at_least(ops, n);
    }
}

proof fn lemma_origin_at_least(ops: Seq<Instr>, q: int)
    requires
        0 <= q <= condense_spec(ops).len(),
    ensures
        origin(ops, q) >= q,
    decreases q,
{
    lemma_origin(ops);
    if q > 0 {
        lemma_origin_at_least(ops, q - 1);
        lemma_next_start_bounds(ops, origin(ops, q - 1));
    }
}

/// Depth before opcode `q` of the condensed form is depth before its origin.
proof fn lemma_depth_corresponds(ops: Seq<Instr>, q: int)
    requires
        0 <= q <= condense_spec(ops).len(),
    ensures
        depth(condense_spec(ops), q) == depth(ops, origin(ops, q)),
    decreases q,
{
    lemma_origin(ops);
    if q > 0 {
        let c = condense_spec(ops);
        let p = origin(ops, q - 1);
        lemma_depth_corresponds(ops, q - 1);
        lemma_next_start_bounds(ops, p);
        assert(depth(c, q) == depth(c, q - 1) + if is_open(c[q - 1]) {
            1int
        } else if is_close(c[q - 1]) {
            -1int
        } else {
            0int
        });
        assert(depth(ops, p + 1) == depth(ops, p) + if is_open(ops[p]) {
            1int
        } else if is_close(ops[p]) {
            -1int
        } else {
            0int
        });
    }
}

/// The group that holds index `l`, searching from group `q` on.
proof fn lemma_group_of(ops: Seq<Instr>, l: int, q: int) -> (r: int)
    requires
        0 <= q < condense_spec(ops).len(),
        origin(ops, q) <= l < ops.len(),
    ensures
        q <= r < condense_spec(ops).len(),
        origin(ops, r) <= l < origin(ops, r + 1),
        depth(ops, l) == depth(ops, origin(ops, r)),
    decreases condense_spec(ops).len() - q,
{
    lemma_origin(ops);
    lemma_next_start_bounds(ops, origin(ops, q));
    if l < origin(ops, q + 1) {
        q
    } else {
        lemma_group_of(ops, l, q + 1)
    }
}

/// Brackets paired in the condensed form are paired at their origins.
proof fn lemma_paired_corresponds(ops: Seq<Instr>, q1: int, q2: int)
    requires
        paired(condense_spec(ops), q1, q2),
    ensures
        paired(ops, origin(ops, q1), origin(ops, q2)),
{
    let c = condense_spec(ops);
    lemma_origin(ops);
    let p1 = origin(ops, q1);
    let p2 = origin(ops, q2);
    lemma_origin_increasing(ops, q1, q2);
    assert(!is_unit_step(ops[p1]));
    assert(!is_unit_step(ops[p2]));
    assert(c[q1] == ops[p1]);
    assert(c[q2] == ops[p2]);
    lemma_depth_corresponds(ops, q1);
    lemma_depth_corresponds(ops, q2 + 1);
    assert forall|l: int| p1 < l <= p2 implies depth(ops, l) > depth(ops, p1) by {
        if l == p2 {
            lemma_depth_corresponds(ops, q2);
        } else {
            let r = lemma_group_of(ops, l, q1);
            if r == q1 {
                lemma_next_start_bounds(ops, p1);
                lemma_depth_corresponds(ops, q1 + 1);
            } else {
                if r > q2 {
                    lemma_origin_increasing(ops, q2, r);
                }
                lemma_depth_corresponds(ops, r);
            }
        }
    }
}

/// Opcode `q` of the resolved condensed program `rc` against its origin in
/// the resolved uncondensed program `ro`: a counted adjustment stands for a run of equal
/// single-step opcodes, any other opcode for one opcode, and a jump points at
/// the origin of its target.
pub open spec fn lines_up_at(ops: Seq<Instr>, ro: Seq<Instr>, rc: Seq<Instr>, q: int) -> bool {
    let p = origin(ops, q);
    let p1 = origin(ops, q + 1);
    &&& 0 <= p < p1 <= ops.len()
    &&& is_unit_step(ro[p]) ==> {
        &&& rc[q] == with_count(ro[p], (p1 - p) as usize)
        &&& forall|l: int| p <= l < p1 ==> ro[l] == ro[p]
    }
    &&& !is_unit_step(ro[p]) ==> {
        &&& p1 == p + 1
        &&& !is_unit_step(rc[q])
        &&& match rc[q] {
            Instr::JumpForward(t) => 0 <= t < rc.len() && ro[p] == Instr::JumpForward(
                origin(ops, t as int) as usize,
            ) && origin(ops, t + 1) == origin(ops, t as int) + 1,
            Instr::JumpBackward(t) => 0 <= t < rc.len() && ro[p] == Instr::JumpBackward(
                origin(ops, t as int) as usize,
            ) && origin(ops, t + 1) == origin(ops, t as int) + 1,
            _ => ro[p] == rc[q],
        }
    }
}

/// The resolved condensed program `rc` lines up, opcode by opcode, with the
/// resolved uncondensed program `ro`.
pub open spec fn lines_up(ops: Seq<Instr>, ro: Seq<Instr>, rc: Seq<Instr>) -> bool {
    &&& ro.len() == ops.len()
    &&& rc.len() == condense_spec(ops).len()
    &&& origin(ops, 0) == 0
    &&& origin(ops, rc.len() as int) == ops.len()
    &&& forall|q: int| 0 <= q < rc.len() ==> #[trigger] lines_up_at(ops, ro, rc, q)
}

/// The facts about group `q` that every case below starts from.
proof fn lemma_group_facts(ops: Seq<Instr>, q: int)
    requires
        0 <= q < condense_spec(ops).len(),
    ensures
        0 <= origin(ops, q) < origin(ops, q + 1) <= ops.len(),
        origin(ops, q + 1) == next_start(ops, origin(ops, q)),
        condense_spec(ops)[q] == group_op(ops, origin(ops, q)),
        run_end(ops, origin(ops, q)) <= ops.len(),
        forall|l: int|
            origin(ops, q) <= l < run_end(ops, origin(ops, q)) ==> #[trigger] ops[l] == ops[origin(ops, q)],
{
    lemma_origin(ops);
    lemma_next_start_bounds(ops, origin(ops, q));
    lemma_run_end_bounds(ops, origin(ops, q));
}

#[verifier::spinoff_prover]
proof fn lemma_lines_up_open(ops: Seq<Instr>, ro: Seq<Instr>, rc: Seq<Instr>, q: int, t: int, j: int)
    requires
        ops.len() <= usize::MAX,
        ro.len() == ops.len(),
        rc.len() == condense_spec(ops).len(),
        0 <= q < rc.len(),
        paired(condense_spec(ops), q, t),
        rc[q] == Instr::JumpForward(t as usize),
        paired(ops, origin(ops, q), j),
        ro[origin(ops, q)] == Instr::JumpForward(j as usize),
    ensures
        lines_up_at(ops, ro, rc, q),
{
    lemma_condensed_not_longer(ops);
    lemma_group_facts(ops, q);
    lemma_paired_corresponds(ops, q, t);
    lemma_pairing_unique(ops, origin(ops, q), j, origin(ops, q), origin(ops, t));
    lemma_group_facts(ops, t);
}

#[verifier::spinoff_prover]
proof fn lemma_lines_up_close(ops: Seq<Instr>, ro: Seq<Instr>, rc: Seq<Instr>, q: int, t: int, i: int)
    requires
        ops.len() <= usize::MAX,
        ro.len() == ops.len(),
        rc.len() == condense_spec(ops).len(),
        0 <= q < rc.len(),
        paired(condense_spec(ops), t, q),
        rc[q] == Instr::JumpBackward(t as usize),
        paired(ops, i, origin(ops, q)),
        ro[origin(ops, q)] == Instr::JumpBackward(i as usize),
    ensures
        lines_up_at(ops, ro, rc, q),
{
    lemma_condensed_not_longer(ops);
    lemma_group_facts(ops, q);
    lemma_paired_corresponds(ops, t, q);
    lemma_pairing_unique(ops, i, origin(ops, q), origin(ops, t), origin(ops, q));
    lemma_group_facts(ops, t);
}

/// Both programs are resolved forms of their sources.
#[verifier::opaque]
spec fn both_resolved(ops: Seq<Instr>, ro: Seq<Instr>, rc: Seq<Instr>) -> bool {
    resolved(ops, ro) && resolved(condense_spec(ops), rc)
}

proof fn lemma_open_partners(ops: Seq<Instr>, ro: Seq<Instr>, rc: Seq<Instr>, q: int) -> (tj: (int, int))
    requires
        both_resolved(ops, ro, rc),
        0 <= q < condense_spec(ops).len(),
        0 <= origin(ops, q) < ops.len(),
        is_open(condense_spec(ops)[q]),
        is_open(ops[origin(ops, q)]),
    ensures
        paired(condense_spec(ops), q, tj.0),
        rc[q] == Instr::JumpForward(tj.0 as usize),
        paired(ops, origin(ops, q), tj.1),
        ro[origin(ops, q)] == Instr::JumpForward(tj.1 as usize),
{
    reveal(both_resolved);
    let t = lemma_partner_of_open(condense_spec(ops), rc, q);
    let j = lemma_partner_of_open(ops, ro, origin(ops, q));
    (t, j)
}

proof fn lemma_close_partners(ops: Seq<Instr>, ro: Seq<Instr>, rc: Seq<Instr>, q: int) -> (ti: (int, int))
    requires
        both_resolved(ops, ro, rc),
        0 <= q < condense_spec(ops).len(),
        0 <= origin(ops, q) < ops.len(),
        is_close(condense_spec(ops)[q]),
        is_close(ops[origin(ops, q)]),
    ensures
        paired(condense_spec(ops), ti.0, q),
        rc[q] == Instr::JumpBackward(ti.0 as usize),
        paired(ops, ti.1, origin(ops, q)),
        ro[origin(ops, q)] == Instr::JumpBackward(ti.1 as usize),
{
    reveal(both_resolved);
    let t = lemma_partner_of_close(condense_spec(ops), rc, q);
    let i = lemma_partner_of_close(ops, ro, origin(ops, q));
    (t, i)
}

proof fn lemma_plain_kept(ops: Seq<Instr>, ro: Seq<Instr>, rc: Seq<Instr>, q: int, l: int)
    requires
        both_resolved(ops, ro, rc),
        0 <= q < condense_spec(ops).len(),
        0 <= l < ops.len(),
        !is_open(condense_spec(ops)[q]),
        !is_close(condense_spec(ops)[q]),
        !is_open(ops[l]),
        !is_close(ops[l]),
    ensures
        rc[q] == condense_spec(ops)[q],
        ro[l] == ops[l],
        ro.len() == ops.len(),
        rc.len() == condense_spec(ops).len(),
{
    reveal(both_resolved);
}

#[verifier::spinoff_prover]
proof fn lemma_lines_up_at(ops: Seq<Instr>, ro: Seq<Instr>, rc: Seq<Instr>, q: int)
    requires
        ops.len() <= usize::MAX,
        ro.len() == ops.len(),
        rc.len() == condense_spec(ops).len(),
        both_resolved(ops, ro, rc),
        0 <= q < rc.len(),
    ensures
        lines_up_at(ops, ro, rc, q),
{
    let c = condense_spec(ops);
    lemma_group_facts(ops, q);
    let p = origin(ops, q);
    let p1 = origin(ops, q + 1);
    if is_open(c[q]) {
        let (t, j) = lemma_open_partners(ops, ro, rc, q);
        lemma_lines_up_open(ops, ro, rc, q, t, j);
    } else if is_close(c[q]) {
        let (t, i) = lemma_close_partners(ops, ro, rc, q);
        lemma_lines_up_close(ops, ro, rc, q, t, i);
    } else {
        lemma_plain_kept(ops, ro, rc, q, p);
        if is_unit_step(ops[p]) {
            assert forall|l: int| p <= l < p1 implies ro[l] == ro[p] by {
                assert(ops[l] == ops[p]);
                lemma_plain_kept(ops, ro, rc, q, l);
            }
        }
    }
}

proof fn lemma_lines_up(ops: Seq<Instr>, ro: Seq<Instr>, rc: Seq<Instr>)
    requires
        ops.len() <= usize::MAX,
        resolve_result(ops, Ok(ro)),
        resolve_result(condense_spec(ops), Ok(rc)),
    ensures
        lines_up(ops, ro, rc),
{
    lemma_origin(ops);
    reveal(both_resolved);
    assert forall|q: int| 0 <= q < rc.len() implies #[trigger] lines_up_at(ops, ro, rc, q) by {
        lemma_lines_up_at(ops, ro, rc, q);
    }
}

/// Running `a` steps that read, write and fail nothing, then `b` more, is
/// running `a + b` steps.
proof fn lemma_run_split(m: MachineView, input: Seq<u8>, a: nat, b: nat)
    requires
        !(run_spec(m, input, a).1 is Failed),
        run_spec(m, input, a).2.len() == 0,
        run_spec(m, input, a).3 == 0,
    ensures
        run_spec(m, input, a + b) == run_spec(run_spec(m, input, a).0, input, b),
    decreases a,
{
    if 0 <= m.pc < m.program.len() && a > 0 {
        let m1 = m.step_spec().0;
        if m.step_spec().1 == Ok::<Step, Error>(Step::Continued) {
            lemma_run_split(m1, input, (a - 1) as nat, b);
            assert((a + b - 1) as nat == (a - 1) as nat + b);
        }
    }
}

/// The condensed machine `mc` and the uncondensed machine `mo` stand at
/// corresponding places with the same tape and pointer.
pub open spec fn in_step(
    ops: Seq<Instr>,
    ro: Seq<Instr>,
    rc: Seq<Instr>,
    mc: MachineView,
    mo: MachineView,
) -> bool {
    &&& lines_up(ops, ro, rc)
    &&& mc.program == rc
    &&& mo.program == ro
    &&& mc.wf()
    &&& mo.wf()
    &&& mc.policy == PointerPolicy::Wrap
    &&& mo.policy == mc.policy
    &&& mo.tape == mc.tape
    &&& mo.pointer == mc.pointer
    &&& mo.pc == origin(ops, mc.pc)
}

/// A step of an opcode that condensing kept as it was keeps the two machines
/// in step, and both report the same thing.
#[verifier::spinoff_prover]
proof fn lemma_plain_step(ops: Seq<Instr>, ro: Seq<Instr>, rc: Seq<Instr>, mc: MachineView, mo: MachineView)
    requires
        ops.len() <= usize::MAX,
        in_step(ops, ro, rc, mc, mo),
        0 <= mc.pc < rc.len(),
        lines_up_at(ops, ro, rc, mc.pc),
        !is_unit_step(ro[mo.pc]),
        rc[mc.pc] != Instr::Input,
    ensures
        mc.step_spec().1 == mo.step_spec().1,
        mc.step_spec().1 is Ok,
        in_step(ops, ro, rc, mc.step_spec().0, mo.step_spec().0),
{
    lemma_step_keeps_wf(mc, 0);
    lemma_step_keeps_wf(mo, 0);
    lemma_origin(ops);
    let mc1 = mc.step_spec().0;
    let mo1 = mo.step_spec().0;
    assert(mo.pc + 1 == origin(ops, mc.pc + 1));
    assert(mo.cell() == mc.cell());
    match rc[mc.pc] {
        Instr::JumpForward(t) => {
            assert(mo1.pc == origin(ops, mc1.pc));
        },
        Instr::JumpBackward(t) => {
            assert(mo1.pc == origin(ops, mc1.pc));
        },
        _ => {
            assert(ro[mo.pc] == rc[mc.pc]);
            assert(mo1.pc == origin(ops, mc1.pc));
            assert(mo1.tape == mc1.tape);
            assert(mo1.pointer == mc1.pointer);
        },
    }
}

/// An input opcode, given the same byte on both sides, keeps the two machines in step.
#[verifier::spinoff_prover]
proof fn lemma_input_step(
    ops: Seq<Instr>,
    ro: Seq<Instr>,
    rc: Seq<Instr>,
    mc: MachineView,
    mo: MachineView,
    byte: u8,
)
    requires
        in_step(ops, ro, rc, mc, mo),
        0 <= mc.pc < rc.len(),
        lines_up_at(ops, ro, rc, mc.pc),
        !is_unit_step(ro[mo.pc]),
        rc[mc.pc] == Instr::Input,
    ensures
        mc.step_spec() == (mc, Ok::<Step, Error>(Step::NeedsInput)),
        mo.step_spec() == (mo, Ok::<Step, Error>(Step::NeedsInput)),
        in_step(ops, ro, rc, mc.input_spec(Some(byte)).0, mo.input_spec(Some(byte)).0),
{
    lemma_step_keeps_wf(mc, byte);
    lemma_step_keeps_wf(mo, byte);
}

/// A counted adjustment on the condensed side and the run it stands for on
/// the uncondensed side keep the two machines in step.
#[verifier::spinoff_prover]
proof fn lemma_counted_step(
    ops: Seq<Instr>,
    ro: Seq<Instr>,
    rc: Seq<Instr>,
    mc: MachineView,
    mo: MachineView,
    input: Seq<u8>,
)
    requires
        ops.len() <= usize::MAX,
        in_step(ops, ro, rc, mc, mo),
        0 <= mc.pc < rc.len(),
        lines_up_at(ops, ro, rc, mc.pc),
        is_unit_step(ro[mo.pc]),
    ensures
        ({
            let k = (origin(ops, mc.pc + 1) - mo.pc) as nat;
            let tk = run_spec(mo, input, k);
            &&& mc.step_spec().1 == Ok::<Step, Error>(Step::Continued)
            &&& !(tk.1 is Failed)
            &&& tk.2.len() == 0
            &&& tk.3 == 0
            &&& in_step(ops, ro, rc, mc.step_spec().0, tk.0)
        }),
{
    let p = mo.pc;
    let u = ro[p];
    let k = (origin(ops, mc.pc + 1) - p) as nat;
    lemma_step_keeps_wf(mc, 0);
    lemma_unit_run_matches_counted_step(mo, input, u, k);
    let tk = run_spec(mo, input, k);
    assert(effect_of(mo, with_count(u, k as usize)) == effect_of(mc, with_count(u, k as usize)));
    lemma_run_keeps_wf(mo, input, k);
    assert(rc[mc.pc] == with_count(u, k as usize));
    let mc1 = mc.step_spec().0;
    assert(mc.step_spec().1 == Ok::<Step, Error>(Step::Continued));
    assert(mc1.tape == effect_of(mc, with_count(u, k as usize)).tape);
    assert(mc1.pointer == effect_of(mc, with_count(u, k as usize)).pointer);
    assert(mc1.pc == mc.pc + 1);
    assert(tk.0.pc == origin(ops, mc1.pc));
}

proof fn lemma_run_keeps_wf(m: MachineView, input: Seq<u8>, f: nat)
    requires
        m.wf(),
    ensures
        run_spec(m, input, f).0.wf(),
    decreases f,
{
    if 0 <= m.pc < m.program.len() && f > 0 {
        lemma_step_keeps_wf(m, if input.len() > 0 { input[0] } else { 0 });
        let m1 = m.step_spec().0;
        lemma_run_keeps_wf(m1, input, (f - 1) as nat);
        if m.awaiting_input() && input.len() > 0 {
            lemma_run_keeps_wf(m1.input_spec(Some(input[0])).0, input.drop_first(), (f - 1) as nat);
        }
    }
}

/// Each run of the condensed machine is matched by a run of the uncondensed
/// machine: one that ends alike where the condensed run ends, and one of at
/// least as many steps that has not ended where the condensed run has not.
proof fn lemma_simulate(
    ops: Seq<Instr>,
    ro: Seq<Instr>,
    rc: Seq<Instr>,
    mc: MachineView,
    mo: MachineView,
    input: Seq<u8>,
    f: nat,
) -> (g: nat)
    requires
        ops.len() <= usize::MAX,
        in_step(ops, ro, rc, mc, mo),
    ensures
        run_spec(mc, input, f).1 != RunStatus::OutOfSteps ==> same_ending(
            run_spec(mc, input, f),
            run_spec(mo, input, g),
        ),
        run_spec(mc, input, f).1 == RunStatus::OutOfSteps ==> run_spec(mo, input, g).1
            == RunStatus::OutOfSteps && g >= f,
    decreases f,
{
    let q = mc.pc;
    if q >= rc.len() {
        return 0;
    }
    assert(lines_up_at(ops, ro, rc, q));
    if f == 0 {
        return 0;
    }
    let p = mo.pc;
    if is_unit_step(ro[p]) {
        let k = (origin(ops, q + 1) - p) as nat;
        lemma_counted_step(ops, ro, rc, mc, mo, input);
        let tk = run_spec(mo, input, k);
        let g1 = lemma_simulate(ops, ro, rc, mc.step_spec().0, tk.0, input, (f - 1) as nat);
        lemma_run_split(mo, input, k, g1);
        k + g1
    } else if rc[q] == Instr::Input {
        if input.len() == 0 {
            lemma_input_step(ops, ro, rc, mc, mo, 0);
            1
        } else {
            lemma_input_step(ops, ro, rc, mc, mo, input[0]);
            let mc2 = mc.input_spec(Some(input[0])).0;
            let mo2 = mo.input_spec(Some(input[0])).0;
            let g1 = lemma_simulate(ops, ro, rc, mc2, mo2, input.drop_first(), (f - 1) as nat);
            g1 + 1
        }
    } else {
        lemma_plain_step(ops, ro, rc, mc, mo);
        let g1 = lemma_simulate(ops, ro, rc, mc.step_spec().0, mo.step_spec().0, input, (f - 1) as nat);
        g1 + 1
    }
}

/// A run that has ended stays ended, whatever more steps it is allowed.
proof fn lemma_ended_run_is_final(m: MachineView, input: Seq<u8>, a: nat, b: nat)
    requires
        run_spec(m, input, a).1 != RunStatus::OutOfSteps,
        a <= b,
    ensures
        run_spec(m, input, b) == run_spec(m, input, a),
    decreases a,
{
    if 0 <= m.pc < m.program.len() && a > 0 {
        let m1 = m.step_spec().0;
        match m.step_spec().1 {
            Ok(Step::Continued) | Ok(Step::Wrote(_)) => {
                lemma_ended_run_is_final(m1, input, (a - 1) as nat, (b - 1) as nat);
            },
            Ok(Step::NeedsInput) => {
                if input.len() > 0 {
                    lemma_ended_run_is_final(
                        m1.input_spec(Some(input[0])).0,
                        input.drop_first(),
                        (a - 1) as nat,
                        (b - 1) as nat,
                    );
                }
            },
            _ => {},
        }
    }
}

/// Two runs end alike: same outcome, same bytes written, same number of
/// bytes read, same tape and pointer.
pub open spec fn same_ending(
    a: (MachineView, RunStatus, Seq<u8>, nat),
    b: (MachineView, RunStatus, Seq<u8>, nat),
) -> bool {
    &&& a.1 == b.1
    &&& a.2 == b.2
    &&& a.3 == b.3
    &&& a.0.tape == b.0.tape
    &&& a.0.pointer == b.0.pointer
}

/// A machine at the first opcode of `program`, under the wraparound policy.
pub open spec fn loaded(program: Seq<Instr>, tape: Seq<u8>, pointer: int) -> MachineView {
    MachineView { program, tape, pointer, pc: 0, policy: PointerPolicy::Wrap }
}

/// Condensing does not change what a program does. Let `ro` be the resolved
/// form of an opcode sequence `ops` and `rc` that of its condensed form, both
/// loaded on the same tape with the pointer on the same cell. If the
/// condensed program, given `input`, halts or fails within `fuel` steps, the
/// uncondensed program does too within some number of steps, with the same outcome, the
/// same bytes written, the same number of bytes read, and the same tape and
/// pointer at the end; and the other way round.
pub proof fn lemma_condensing_preserves_behaviour(
    ops: Seq<Instr>,
    ro: Seq<Instr>,
    rc: Seq<Instr>,
    tape: Seq<u8>,
    pointer: int,
    input: Seq<u8>,
    fuel: nat,
)
    requires
        ops.len() <= usize::MAX,
        0 <= pointer < tape.len(),
        resolve_result(ops, Ok(ro)),
        resolve_result(condense_spec(ops), Ok(rc)),
    ensures
        run_spec(loaded(rc, tape, pointer), input, fuel).1 != RunStatus::OutOfSteps ==> exists|
            g: nat,
        |
            same_ending(
                run_spec(loaded(rc, tape, pointer), input, fuel),
                #[trigger] run_spec(loaded(ro, tape, pointer), input, g),
            ),
        run_spec(loaded(ro, tape, pointer), input, fuel).1 != RunStatus::OutOfSteps ==> exists|
            f: nat,
        |
            same_ending(
                #[trigger] run_spec(loaded(rc, tape, pointer), input, f),
                run_spec(loaded(ro, tape, pointer), input, fuel),
            ),
{
    lemma_lines_up(ops, ro, rc);
    lemma_resolved_targets_in_range(ops, ro);
    lemma_resolved_targets_in_range(condense_spec(ops), rc);
    let mc = loaded(rc, tape, pointer);
    let mo = loaded(ro, tape, pointer);
    assert(in_step(ops, ro, rc, mc, mo));
    let g = lemma_simulate(ops, ro, rc, mc, mo, input, fuel);
    if run_spec(mo, input, fuel).1 != RunStatus::OutOfSteps {
        if run_spec(mc, input, fuel).1 == RunStatus::OutOfSteps {
            lemma_ended_run_is_final(mo, input, fuel, g);
        } else if g <= fuel {
            lemma_ended_run_is_final(mo, input, g, fuel);
        } else {
            lemma_ended_run_is_final(mo, input, fuel, g);
        }
        assert(same_ending(run_spec(mc, input, fuel), run_spec(mo, input, fuel)));
    }
}

} // verus!
