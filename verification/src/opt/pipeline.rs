//! The optimisation pipeline: the per-function fixed point of the local
//! passes, function specialisation for constant arguments, and the whole
//! program schedule.

use vstd::prelude::*;

use crate::ir::{GlobalVar, IrFunction, IrInstr, IrOp, IrProgram, Label, VReg, same_body, same_function, same_instr, same_op};
use crate::maps::AssocMap;
use crate::opt::basic::{
    copy_propagate, cp_pre, cp_state, dbe_keep, dbe_resolves, dbe_rewrite, dce_result, dead_branch_eliminate,
    dead_code_eliminate, keeps_label, remove_dead_labels, same_header,
};
use crate::opt::fold::{cf_emits, cf_run, constant_fold_and_propagate, CfOut};
use crate::opt::local::{cse_instr, label_forward, threaded};
use crate::opt::loops::{licm_result, sink_out, sink_plan};
use crate::opt::memory::{lsf_changes, lsf_instr, rse_kept};
use crate::opt::narrow::{cast_origins, nb_instr, nb_op, np_instr, value_ranges};
use crate::opt::simplify::{cz_result, imm_map, sr_applies, sr_result};
use crate::opt::subst::subst_rel;
use crate::maps::forward_ok;
use crate::opt::inline::{calls_self, has_inline_asm, inline_expand, last_function_named, spec_calls_self, spec_has_inline_asm};
use crate::opt::local::{cse, jump_threading};
use crate::opt::induction::induction_variable_optimization;
use crate::opt::loops::{loop_invariant_code_motion, sink_w8_loads};
use crate::opt::memory::{load_store_forwarding, redundant_store_eliminate};
use crate::opt::narrow::{narrow_byte_ops, narrow_promoted_arithmetic};
use crate::opt::ops::{get_dst_vreg, op_dst};
use crate::opt::simplify::{compare_zero_simplify, strength_reduce};
use crate::opt::specialize::{cloned_instr, local_prefix, reachable, 
    body_calls, call_merged, call_redirected, clone_specialized_function, dedup_specializations, is_spec_name, last_named,
    lemma_redirect_grows, main_name, names_of, next_vreg_id, remove_dead_functions, spec_marker, function_of, vreg_mentioned,
};
use crate::opt::unroll::{concat_all, loop_unrolling, unroll_outcome};
use crate::opt::induction::iv_result;
use crate::opt::inline::{body_fully_inlined, body_inlined, calls_name, candidate_name, inline_room};
use crate::text::{concat4, seq_has_sub, u64_decimal};
use crate::types::CType;

verus! {

/// The optimisation profile: the default pass order, or the benchmark
/// order with a larger specialisation limit and one more clean-up round.
#[derive(Debug, Clone, Copy, PartialEq, Eq, Structural)]
pub enum OptProfile {
    Default,
    Benchmark,
}

/// The local passes of a round.
pub enum LocalPass {
    Fold,
    CompareZero,
    DeadBranch,
    Forward,
    CopyProp,
    DeadStore,
    DeadLabel,
    Strength,
    NarrowPromoted,
    NarrowByte,
    DeadCode,
    Cse,
    Thread,
    Licm,
}

/// What a local pass does to a body `a`, giving `b` and reporting `c`.
#[verifier::opaque]
pub open spec fn pass_rel(p: LocalPass, a: Seq<IrInstr>, b: Seq<IrInstr>, c: bool) -> bool {
    match p {
        LocalPass::Fold => b.len() == a.len()
            && (forall|i: int| 0 <= i < a.len() ==> #[trigger] cf_emits(b[i], a[i], cf_run(a, a.len() as int).1[i]))
            && c == exists|i: int| 0 <= i < a.len() && #[trigger] cf_run(a, a.len() as int).1[i] != CfOut::Keep,
        LocalPass::CompareZero => b == cz_result(a) && c == (b != a),
        LocalPass::DeadBranch => {
            let t = a.map_values(|ins: IrInstr| dbe_rewrite(a, ins)).filter(|ins: IrInstr| dbe_keep(a, ins));
            &&& b.len() == t.len()
            &&& forall|i: int| 0 <= i < t.len() ==> same_instr(#[trigger] b[i], t[i])
            &&& c == exists|i: int| 0 <= i < a.len() && #[trigger] dbe_resolves(a, a[i])
        },
        LocalPass::Forward => b.len() == a.len() && (forall|i: int| 0 <= i < a.len() ==> #[trigger] same_instr(b[i], lsf_instr(a, i)))
            && c == lsf_changes(a),
        LocalPass::CopyProp => b.len() == a.len() && (forall|i: int| 0 <= i < b.len() ==> #[trigger] b[i].line == a[i].line
            && subst_rel(a[i].op, b[i].op, cp_pre(cp_state(a, i), a[i].op)))
            && c == exists|i: int| 0 <= i < a.len() && !same_op(a[i].op, #[trigger] b[i].op),
        LocalPass::DeadStore => same_body(b, rse_kept(a, a.len() as int)) && c == (b.len() != a.len()),
        LocalPass::DeadLabel => b.len() == a.filter(|ins: IrInstr| keeps_label(a, ins)).len()
            && (forall|i: int| 0 <= i < b.len() ==> same_instr(#[trigger] b[i], a.filter(|ins: IrInstr| keeps_label(a, ins))[i]))
            && c == (b.len() != a.len()),
        LocalPass::Strength => b == sr_result(a) && c == sr_applies(a),
        LocalPass::NarrowPromoted => b.len() == a.len() && (forall|i: int| 0 <= i < a.len() ==> #[trigger] b[i] == np_instr(a, i))
            && c == exists|i: int| 0 <= i < a.len() && #[trigger] np_instr(a, i) != a[i],
        LocalPass::NarrowByte => b.len() == a.len() && (forall|i: int| 0 <= i < a.len() ==> #[trigger] b[i] == nb_instr(a, i))
            && c == exists|i: int| 0 <= i < a.len()
                && #[trigger] nb_op(a[i].op, value_ranges(a), cast_origins(a, a.len() as int)) is Some,
        LocalPass::DeadCode => same_body(b, dce_result(a)) && c == (b.len() != a.len()),
        LocalPass::Cse => b.len() == a.len() && (forall|i: int| 0 <= i < a.len() ==> #[trigger] same_instr(b[i], cse_instr(a, i)))
            && c == exists|i: int| 0 <= i < a.len() && cse_instr(a, i) != a[i],
        LocalPass::Thread => exists|f: Map<u32, u32>| forward_ok(label_forward(a), f) && #[trigger] threaded(a, b, f, c),
        LocalPass::Licm => c == licm_result(a) is Some && (c ==> same_body(b, licm_result(a)->Some_0)) && (!c ==> b == a),
    }
}

/// The `k`-th pass of a round of the profile.
pub open spec fn round_pass(profile: OptProfile, k: int) -> LocalPass {
    match profile {
        OptProfile::Default => if k == 0 {
            LocalPass::Fold
        } else if k == 1 {
            LocalPass::CompareZero
        } else if k == 2 {
            LocalPass::DeadBranch
        } else if k == 3 {
            LocalPass::Forward
        } else if k == 4 {
            LocalPass::CopyProp
        } else if k == 5 {
            LocalPass::DeadStore
        } else if k == 6 {
            LocalPass::DeadLabel
        } else if k == 7 {
            LocalPass::Strength
        } else if k == 8 {
            LocalPass::NarrowPromoted
        } else if k == 9 {
            LocalPass::NarrowByte
        } else if k == 10 {
            LocalPass::DeadCode
        } else if k == 11 {
            LocalPass::Cse
        } else if k == 12 {
            LocalPass::Thread
        } else {
            LocalPass::Licm
        },
        OptProfile::Benchmark => if k == 0 {
            LocalPass::Fold
        } else if k == 1 {
            LocalPass::CompareZero
        } else if k == 2 {
            LocalPass::DeadBranch
        } else if k == 3 {
            LocalPass::Forward
        } else if k == 4 {
            LocalPass::CopyProp
        } else if k == 5 {
            LocalPass::DeadStore
        } else if k == 6 {
            LocalPass::DeadLabel
        } else if k == 7 {
            LocalPass::Cse
        } else if k == 8 {
            LocalPass::NarrowPromoted
        } else if k == 9 {
            LocalPass::NarrowByte
        } else if k == 10 {
            LocalPass::Strength
        } else if k == 11 {
            LocalPass::Thread
        } else if k == 12 {
            LocalPass::Licm
        } else {
            LocalPass::DeadCode
        },
    }
}

/// `bs` are the bodies before and after each of the fourteen passes of a
/// round that takes `a` to `b`, and `cs` what each pass reported.
pub open spec fn round_rel(profile: OptProfile, a: Seq<IrInstr>, b: Seq<IrInstr>, bs: Seq<Seq<IrInstr>>, cs: Seq<bool>) -> bool {
    &&& bs.len() == 15
    &&& cs.len() == 14
    &&& bs[0] == a
    &&& bs[14] == b
    &&& forall|k: int| 0 <= k < 14 ==> #[trigger] pass_rel(round_pass(profile, k), bs[k], bs[k + 1], cs[k])
}

/// A round of the profile takes `a` to `b` and reports `c`: whether some
/// pass reported a change.
pub open spec fn round_step(profile: OptProfile, a: Seq<IrInstr>, b: Seq<IrInstr>, c: bool) -> bool {
    exists|bs: Seq<Seq<IrInstr>>, cs: Seq<bool>| #[trigger] round_rel(profile, a, b, bs, cs)
        && c == exists|k: int| 0 <= k < 14 && #[trigger] cs[k]
}

/// The largest number of rounds of the per-function fixed point.
pub const OPT_ROUND_LIMIT: usize = 1000;

/// One round of the local passes in the profile's order; whether any pass
/// changed the function.
/// Run `constant_fold_and_propagate` and state what it did as a pass of a round.
fn run_constant_fold_and_propagate(func: &mut IrFunction) -> (c: bool)
    ensures
        same_header(*old(func), *final(func)),
        pass_rel(LocalPass::Fold, old(func).body@, final(func).body@, c),
{
    let c = constant_fold_and_propagate(func);
    proof {
        reveal(pass_rel);
    }
    c
}

/// Run `compare_zero_simplify` and state what it did as a pass of a round.
fn run_compare_zero_simplify(func: &mut IrFunction) -> (c: bool)
    ensures
        same_header(*old(func), *final(func)),
        pass_rel(LocalPass::CompareZero, old(func).body@, final(func).body@, c),
{
    let c = compare_zero_simplify(func);
    proof {
        reveal(pass_rel);
    }
    c
}

/// Run `dead_branch_eliminate` and state what it did as a pass of a round.
fn run_dead_branch_eliminate(func: &mut IrFunction) -> (c: bool)
    ensures
        same_header(*old(func), *final(func)),
        pass_rel(LocalPass::DeadBranch, old(func).body@, final(func).body@, c),
{
    let c = dead_branch_eliminate(func);
    proof {
        reveal(pass_rel);
    }
    c
}

/// Run `load_store_forwarding` and state what it did as a pass of a round.
fn run_load_store_forwarding(func: &mut IrFunction) -> (c: bool)
    ensures
        same_header(*old(func), *final(func)),
        pass_rel(LocalPass::Forward, old(func).body@, final(func).body@, c),
{
    let c = load_store_forwarding(func);
    proof {
        reveal(pass_rel);
    }
    c
}

/// Run `copy_propagate` and state what it did as a pass of a round.
fn run_copy_propagate(func: &mut IrFunction) -> (c: bool)
    ensures
        same_header(*old(func), *final(func)),
        pass_rel(LocalPass::CopyProp, old(func).body@, final(func).body@, c),
{
    let c = copy_propagate(func);
    proof {
        reveal(pass_rel);
    }
    c
}

/// Run `redundant_store_eliminate` and state what it did as a pass of a round.
fn run_redundant_store_eliminate(func: &mut IrFunction) -> (c: bool)
    ensures
        same_header(*old(func), *final(func)),
        pass_rel(LocalPass::DeadStore, old(func).body@, final(func).body@, c),
{
    let c = redundant_store_eliminate(func);
    proof {
        reveal(pass_rel);
    }
    c
}

/// Run `remove_dead_labels` and state what it did as a pass of a round.
fn run_remove_dead_labels(func: &mut IrFunction) -> (c: bool)
    ensures
        same_header(*old(func), *final(func)),
        pass_rel(LocalPass::DeadLabel, old(func).body@, final(func).body@, c),
{
    let c = remove_dead_labels(func);
    proof {
        reveal(pass_rel);
    }
    c
}

/// Run `strength_reduce` and state what it did as a pass of a round.
fn run_strength_reduce(func: &mut IrFunction) -> (c: bool)
    ensures
        same_header(*old(func), *final(func)),
        pass_rel(LocalPass::Strength, old(func).body@, final(func).body@, c),
{
    let c = strength_reduce(func);
    proof {
        reveal(pass_rel);
    }
    c
}

/// Run `narrow_promoted_arithmetic` and state what it did as a pass of a round.
fn run_narrow_promoted_arithmetic(func: &mut IrFunction) -> (c: bool)
    ensures
        same_header(*old(func), *final(func)),
        pass_rel(LocalPass::NarrowPromoted, old(func).body@, final(func).body@, c),
{
    let c = narrow_promoted_arithmetic(func);
    proof {
        reveal(pass_rel);
    }
    c
}

/// Run `narrow_byte_ops` and state what it did as a pass of a round.
fn run_narrow_byte_ops(func: &mut IrFunction) -> (c: bool)
    ensures
        same_header(*old(func), *final(func)),
        pass_rel(LocalPass::NarrowByte, old(func).body@, final(func).body@, c),
{
    let c = narrow_byte_ops(func);
    proof {
        reveal(pass_rel);
    }
    c
}

/// Run `dead_code_eliminate` and state what it did as a pass of a round.
fn run_dead_code_eliminate(func: &mut IrFunction) -> (c: bool)
    ensures
        same_header(*old(func), *final(func)),
        pass_rel(LocalPass::DeadCode, old(func).body@, final(func).body@, c),
{
    let c = dead_code_eliminate(func);
    proof {
        reveal(pass_rel);
    }
    c
}

/// Run `cse` and state what it did as a pass of a round.
fn run_cse(func: &mut IrFunction) -> (c: bool)
    ensures
        same_header(*old(func), *final(func)),
        pass_rel(LocalPass::Cse, old(func).body@, final(func).body@, c),
{
    let c = cse(func);
    proof {
        reveal(pass_rel);
    }
    c
}

/// Run `jump_threading` and state what it did as a pass of a round.
fn run_jump_threading(func: &mut IrFunction) -> (c: bool)
    ensures
        same_header(*old(func), *final(func)),
        pass_rel(LocalPass::Thread, old(func).body@, final(func).body@, c),
{
    let c = jump_threading(func);
    proof {
        reveal(pass_rel);
    }
    c
}

/// Run `loop_invariant_code_motion` and state what it did as a pass of a round.
fn run_loop_invariant_code_motion(func: &mut IrFunction) -> (c: bool)
    ensures
        same_header(*old(func), *final(func)),
        pass_rel(LocalPass::Licm, old(func).body@, final(func).body@, c),
{
    let c = loop_invariant_code_motion(func);
    proof {
        reveal(pass_rel);
    }
    c
}

/// One round of the local passes in the order of the default profile.
#[verifier::rlimit(100)]
fn round_default(func: &mut IrFunction) -> (changed: bool)
    ensures
        same_header(*old(func), *final(func)),
        round_step(OptProfile::Default, old(func).body@, final(func).body@, changed),
{
    let ghost b0 = func.body@;
    let c0 = run_constant_fold_and_propagate(func);
    let ghost b1 = func.body@;
    let c1 = run_compare_zero_simplify(func);
    let ghost b2 = func.body@;
    let c2 = run_dead_branch_eliminate(func);
    let ghost b3 = func.body@;
    let c3 = run_load_store_forwarding(func);
    let ghost b4 = func.body@;
    let c4 = run_copy_propagate(func);
    let ghost b5 = func.body@;
    let c5 = run_redundant_store_eliminate(func);
    let ghost b6 = func.body@;
    let c6 = run_remove_dead_labels(func);
    let ghost b7 = func.body@;
    let c7 = run_strength_reduce(func);
    let ghost b8 = func.body@;
    let c8 = run_narrow_promoted_arithmetic(func);
    let ghost b9 = func.body@;
    let c9 = run_narrow_byte_ops(func);
    let ghost b10 = func.body@;
    let c10 = run_dead_code_eliminate(func);
    let ghost b11 = func.body@;
    let c11 = run_cse(func);
    let ghost b12 = func.body@;
    let c12 = run_jump_threading(func);
    let ghost b13 = func.body@;
    let c13 = run_loop_invariant_code_motion(func);
    let changed = c0 || c1 || c2 || c3 || c4 || c5 || c6 || c7 || c8 || c9 || c10 || c11 || c12 || c13;
    let ghost bs = seq![b0, b1, b2, b3, b4, b5, b6, b7, b8, b9, b10, b11, b12, b13, func.body@];
    let ghost cs = seq![c0, c1, c2, c3, c4, c5, c6, c7, c8, c9, c10, c11, c12, c13];
    assert forall|k: int| 0 <= k < 14 implies #[trigger] pass_rel(round_pass(OptProfile::Default, k), bs[k], bs[k + 1], cs[k]) by {
        if k == 0 {
        } else if k == 1 {
        } else if k == 2 {
        } else if k == 3 {
        } else if k == 4 {
        } else if k == 5 {
        } else if k == 6 {
        } else if k == 7 {
        } else if k == 8 {
        } else if k == 9 {
        } else if k == 10 {
        } else if k == 11 {
        } else if k == 12 {
        } else if k == 13 {
        }
    }
    assert(round_rel(OptProfile::Default, old(func).body@, func.body@, bs, cs));
    proof {
        if changed {
            let k = choose|k: int| 0 <= k < 14 && #[trigger] cs[k];
        }
        if exists|k: int| 0 <= k < 14 && #[trigger] cs[k] {
            let k = choose|k: int| 0 <= k < 14 && #[trigger] cs[k];
            assert(changed);
        }
    }
    changed
}

/// One round of the local passes in the order of the benchmark profile.
#[verifier::rlimit(100)]
fn round_benchmark(func: &mut IrFunction) -> (changed: bool)
    ensures
        same_header(*old(func), *final(func)),
        round_step(OptProfile::Benchmark, old(func).body@, final(func).body@, changed),
{
    let ghost b0 = func.body@;
    let c0 = run_constant_fold_and_propagate(func);
    let ghost b1 = func.body@;
    let c1 = run_compare_zero_simplify(func);
    let ghost b2 = func.body@;
    let c2 = run_dead_branch_eliminate(func);
    let ghost b3 = func.body@;
    let c3 = run_load_store_forwarding(func);
    let ghost b4 = func.body@;
    let c4 = run_copy_propagate(func);
    let ghost b5 = func.body@;
    let c5 = run_redundant_store_eliminate(func);
    let ghost b6 = func.body@;
    let c6 = run_remove_dead_labels(func);
    let ghost b7 = func.body@;
    let c7 = run_cse(func);
    let ghost b8 = func.body@;
    let c8 = run_narrow_promoted_arithmetic(func);
    let ghost b9 = func.body@;
    let c9 = run_narrow_byte_ops(func);
    let ghost b10 = func.body@;
    let c10 = run_strength_reduce(func);
    let ghost b11 = func.body@;
    let c11 = run_jump_threading(func);
    let ghost b12 = func.body@;
    let c12 = run_loop_invariant_code_motion(func);
    let ghost b13 = func.body@;
    let c13 = run_dead_code_eliminate(func);
    let changed = c0 || c1 || c2 || c3 || c4 || c5 || c6 || c7 || c8 || c9 || c10 || c11 || c12 || c13;
    let ghost bs = seq![b0, b1, b2, b3, b4, b5, b6, b7, b8, b9, b10, b11, b12, b13, func.body@];
    let ghost cs = seq![c0, c1, c2, c3, c4, c5, c6, c7, c8, c9, c10, c11, c12, c13];
    assert forall|k: int| 0 <= k < 14 implies #[trigger] pass_rel(round_pass(OptProfile::Benchmark, k), bs[k], bs[k + 1], cs[k]) by {
        if k == 0 {
        } else if k == 1 {
        } else if k == 2 {
        } else if k == 3 {
        } else if k == 4 {
        } else if k == 5 {
        } else if k == 6 {
        } else if k == 7 {
        } else if k == 8 {
        } else if k == 9 {
        } else if k == 10 {
        } else if k == 11 {
        } else if k == 12 {
        } else if k == 13 {
        }
    }
    assert(round_rel(OptProfile::Benchmark, old(func).body@, func.body@, bs, cs));
    proof {
        if changed {
            let k = choose|k: int| 0 <= k < 14 && #[trigger] cs[k];
        }
        if exists|k: int| 0 <= k < 14 && #[trigger] cs[k] {
            let k = choose|k: int| 0 <= k < 14 && #[trigger] cs[k];
            assert(changed);
        }
    }
    changed
}

/// One round of the local passes in the order of the profile: the body
/// after the round is what the fourteen passes make of it in turn, and the
/// round reports a change when one of them does.
pub fn optimize_round(func: &mut IrFunction, profile: OptProfile) -> (changed: bool)
    ensures
        same_header(*old(func), *final(func)),
        round_step(profile, old(func).body@, final(func).body@, changed),
{
    match profile {
        OptProfile::Default => round_default(func),
        OptProfile::Benchmark => round_benchmark(func),
    }
}

/// `rs` are the bodies before and after each round and `chs` what each
/// round reported: the rounds go on while they report a change, for at
/// most [`OPT_ROUND_LIMIT`] rounds.
pub open spec fn rounds_run(profile: OptProfile, a: Seq<IrInstr>, rs: Seq<Seq<IrInstr>>, chs: Seq<bool>) -> bool {
    &&& rs.len() == chs.len() + 1
    &&& rs[0] == a
    &&& 1 <= chs.len() <= OPT_ROUND_LIMIT
    &&& forall|k: int| 0 <= k < chs.len() ==> #[trigger] round_step(profile, rs[k], rs[k + 1], chs[k])
    &&& forall|k: int| 0 <= k < chs.len() - 1 ==> #[trigger] chs[k]
    &&& chs.len() < OPT_ROUND_LIMIT ==> !chs[chs.len() - 1]
}

/// What sinking single-use loads makes of a body `a`.
pub open spec fn sink_rel(a: Seq<IrInstr>, b: Seq<IrInstr>) -> bool {
    let plan = sink_plan(a, a.len() as int);
    &&& plan.2 ==> same_body(b, sink_out(a, plan.1, plan.0, a.len() as int))
    &&& !plan.2 ==> b == a
}

/// The local passes run on `a` to a fixed point and the single-use loads
/// then sunk give `b`.
pub open spec fn body_optimized(profile: OptProfile, a: Seq<IrInstr>, b: Seq<IrInstr>) -> bool {
    exists|rs: Seq<Seq<IrInstr>>, chs: Seq<bool>| #[trigger] rounds_run(profile, a, rs, chs) && sink_rel(rs.last(), b)
}

/// Run the local passes until a round changes nothing (at most
/// [`OPT_ROUND_LIMIT`] rounds), then sink single-use loads.  Only the body
/// changes.
pub fn optimize_function(func: &mut IrFunction, profile: OptProfile)
    ensures
        same_header(*old(func), *final(func)),
        body_optimized(profile, old(func).body@, final(func).body@),
{
    let ghost mut rs: Seq<Seq<IrInstr>> = seq![func.body@];
    let ghost mut chs: Seq<bool> = Seq::empty();
    let mut rounds: usize = 0;
    let mut changed = true;
    while changed && rounds < OPT_ROUND_LIMIT
        invariant
            same_header(*old(func), *func),
            rs.len() == chs.len() + 1,
            chs.len() == rounds,
            rounds <= OPT_ROUND_LIMIT,
            rs[0] == old(func).body@,
            rs.last() == func.body@,
            forall|k: int| 0 <= k < chs.len() ==> #[trigger] round_step(profile, rs[k], rs[k + 1], chs[k]),
            forall|k: int| 0 <= k < chs.len() - 1 ==> #[trigger] chs[k],
            rounds > 0 ==> changed == chs[chs.len() - 1],
            rounds == 0 ==> changed,
        decreases OPT_ROUND_LIMIT - rounds,
    {
        let ghost rs0 = rs;
        let ghost chs0 = chs;
        let c = optimize_round(func, profile);
        proof {
            rs = rs.push(func.body@);
            chs = chs.push(c);
            assert forall|k: int| 0 <= k < chs.len() implies #[trigger] round_step(profile, rs[k], rs[k + 1], chs[k]) by {
                if k < chs0.len() {
                    assert(rs[k] == rs0[k]);
                    assert(rs[k + 1] == rs0[k + 1]);
                    assert(chs[k] == chs0[k]);
                }
            }
            assert forall|k: int| 0 <= k < chs.len() - 1 implies #[trigger] chs[k] by {
                if k < chs0.len() - 1 {
                    assert(chs[k] == chs0[k]);
                } else {
                    assert(chs[k] == chs0[chs0.len() - 1]);
                }
            }
        }
        changed = c;
        rounds += 1;
    }
    sink_w8_loads(func);
    proof {
        assert(rounds_run(profile, old(func).body@, rs, chs));
        assert(sink_rel(rs.last(), func.body@));
    }
}

fn contains_name(v: &Vec<String>, s: &String) -> (r: bool)
    ensures
        r == exists|k: int| 0 <= k < v@.len() && (#[trigger] v@[k])@ == s@,
{
    let mut i: usize = 0;
    while i < v.len()
        invariant
            i <= v@.len(),
            forall|k: int| 0 <= k < i ==> (#[trigger] v@[k])@ != s@,
        decreases v@.len() - i,
    {
        if v[i] == *s {
            return true;
        }
        i += 1;
    }
    false
}

fn const_args_eq(a: &Vec<(usize, i64)>, b: &Vec<(usize, i64)>) -> (r: bool)
    ensures
        r == (a@ == b@),
{
    if a.len() != b.len() {
        return false;
    }
    let mut i: usize = 0;
    while i < a.len()
        invariant
            a@.len() == b@.len(),
            i <= a@.len(),
            forall|k: int| 0 <= k < i ==> a@[k] == b@[k],
        decreases a@.len() - i,
    {
        if a[i].0 != b[i].0 || a[i].1 != b[i].1 {
            return false;
        }
        i += 1;
    }
    assert(a@ =~= b@);
    true
}

/// The name of a specialised clone, `__spec_<callee>_<n>`.
pub open spec fn spec_clone_name(callee: Seq<char>, n: nat) -> Seq<char> {
    spec_marker() + callee + seq!['_'] + crate::text::decimal(n)
}

proof fn lemma_marker_in_clone_name(callee: Seq<char>, n: nat)
    ensures
        seq_has_sub(spec_clone_name(callee, n), spec_marker()),
{
    let s = spec_clone_name(callee, n);
    let i: int = 0;
    assert(s.subrange(i, i + spec_marker().len()) =~= spec_marker());
}

fn make_clone_name(callee: &str, n: usize) -> (r: String)
    ensures
        r@ == spec_clone_name(callee@, n as nat),
        seq_has_sub(r@, spec_marker()),
{
    proof {
        reveal_strlit("__spec_");
        reveal_strlit("_");
        lemma_marker_in_clone_name(callee@, n as nat);
    }
    assert("__spec_"@ == spec_marker());
    assert("_"@ == seq!['_']);
    let num = u64_decimal(n as u64);
    concat4("__spec_", callee, "_", num.as_str())
}

/// Whether a function may be specialised: not itself a clone, not
/// variadic, no assembly, at most `size_limit` instructions, not directly
/// recursive.
fn is_specialization_candidate(f: &IrFunction, size_limit: usize) -> (r: bool)
    ensures
        r == spec_candidate(*f, size_limit as nat),
{
    !is_spec_name(f.name.as_str()) && !f.is_variadic && !f.is_asm_body && !has_inline_asm(f) && f.body.len() <= size_limit
        && !calls_self(f)
}

/// `g` is a specialised clone of a copy `c` of a function of `fs`: `c`'s
/// body with its local labels renamed to `g`'s prefix and the stores of
/// the parameters given constants in `cs` replaced by constant loads (see
/// [`cloned_instr`], fresh vregs in `[lo, hi)`), then optimised with
/// `profile`; `g` keeps `c`'s parameters and return type.
pub open spec fn clone_of(fs: Seq<IrFunction>, g: IrFunction, profile: OptProfile) -> bool {
    exists|j: int, c: IrFunction, cs: Seq<(usize, i64)>, lo: int, hi: int, segs: Seq<Seq<IrInstr>>|
        #[trigger] clone_witness(fs, g, profile, j, c, cs, lo, hi, segs)
}

/// The witnesses of [`clone_of`].
pub open spec fn clone_witness(fs: Seq<IrFunction>, g: IrFunction, profile: OptProfile, j: int, c: IrFunction,
    cs: Seq<(usize, i64)>, lo: int, hi: int, segs: Seq<Seq<IrInstr>>) -> bool {
    &&& 0 <= j < fs.len()
    &&& same_function(c, fs[j])
    &&& g.params@ == c.params@ && g.return_type == c.return_type
    &&& segs.len() == c.body@.len()
    &&& forall|t: int| 0 <= t < segs.len() ==> #[trigger] cloned_instr(c.body@[t], segs[t], c.params@,
        local_prefix(c.name@), local_prefix(g.name@), cs, lo, hi)
    &&& body_optimized(profile, concat_all(segs), g.body@)
}

/// The largest body that is specialised under `profile`.
pub open spec fn spec_size_limit(profile: OptProfile) -> nat {
    match profile {
        OptProfile::Default => 40,
        OptProfile::Benchmark => 80,
    }
}

/// `f` may be specialised: not itself a clone, not variadic, no assembly,
/// at most `limit` instructions, not directly recursive.
pub open spec fn spec_candidate(f: IrFunction, limit: nat) -> bool {
    &&& !seq_has_sub(f.name@, spec_marker())
    &&& !f.is_variadic
    &&& !f.is_asm_body
    &&& !spec_has_inline_asm(f)
    &&& f.body@.len() <= limit
    &&& !spec_calls_self(f)
}

/// The vregs known to hold constants before instruction `k` of `body`:
/// constant loads and copies of constants, forgotten at labels, jumps,
/// returns and calls, and when overwritten.
pub open spec fn known_consts(body: Seq<IrInstr>, k: int) -> Map<u32, i64>
    decreases k,
{
    if k <= 0 {
        Map::empty()
    } else {
        let m = known_consts(body, k - 1);
        match body[k - 1].op {
            IrOp::LoadImm { dst, value } => m.insert(dst.id, value),
            IrOp::Copy { dst, src } => if m.contains_key(src.id) { m.insert(dst.id, m[src.id]) } else { m.remove(dst.id) },
            IrOp::Cast { dst, src, .. } => if m.contains_key(src.id) { m.insert(dst.id, m[src.id]) } else { m.remove(dst.id) },
            IrOp::Label { .. } | IrOp::Jump { .. } | IrOp::JumpIfTrue { .. } | IrOp::JumpIfFalse { .. }
            | IrOp::Return { .. } | IrOp::Call { .. } => Map::empty(),
            op => match op_dst(op) {
                Some(d) => m.remove(d.id),
                None => m,
            },
        }
    }
}

/// Instruction `t` of `body` calls a function of `fs` that may be
/// specialised (and is no clone itself) with some argument known to be a
/// constant.
pub open spec fn spec_site(fs: Seq<IrFunction>, body: Seq<IrInstr>, t: int, limit: nat) -> bool {
    &&& body[t].op is Call
    &&& !seq_has_sub(body[t].op->Call_func_name@, spec_marker())
    &&& exists|j: int| 0 <= j < fs.len() && #[trigger] fs[j].name@ == body[t].op->Call_func_name@ && spec_candidate(fs[j], limit)
    &&& exists|a: int| 0 <= a < body[t].op->Call_args@.len()
        && #[trigger] known_consts(body, t).contains_key(body[t].op->Call_args@[a].id)
}

/// The number of instructions of the first `n` functions.
pub open spec fn body_total(fs: Seq<IrFunction>, n: int) -> nat
    decreases n,
{
    if n <= 0 {
        0
    } else {
        body_total(fs, n - 1) + fs[n - 1].body@.len()
    }
}

/// The vreg ids above those of `fs` suffice for a clone at every call.
pub open spec fn specialize_room(fs: Seq<IrFunction>) -> bool {
    let t = body_total(fs, fs.len() as int);
    &&& t * t + 2 < u32::MAX
    &&& forall|x: u32| #[trigger] vreg_mentioned(fs, x) ==> x + t * t + 2 < u32::MAX
}

proof fn lemma_total_mono(fs: Seq<IrFunction>, a: int, b: int)
    requires
        0 <= a <= b,
    ensures
        body_total(fs, a) <= body_total(fs, b),
    decreases b - a,
{
    if b > a {
        lemma_total_mono(fs, a, b - 1);
    }
}

proof fn lemma_steps_fit(p: int, t: int)
    requires
        0 <= p,
        p + 1 <= t,
    ensures
        (p + 1) * t == p * t + t,
        p * t <= (p + 1) * t,
        (p + 1) * t <= t * t,
        0 <= p * t,
{
    assert((p + 1) * t == p * t + t && p * t <= (p + 1) * t && (p + 1) * t <= t * t && 0 <= p * t) by (nonlinear_arith)
        requires
            0 <= p,
            p + 1 <= t,
    ;
}

/// Specialise calls that pass constants: within each basic block of each
/// function, a call of a candidate with some arguments known to be
/// constants is redirected to a clone of the callee for those constants
/// (shared between equal callee/constant combinations), optimised on its
/// own; the clones and their local globals are appended to the program.
/// The existing functions keep their names, headers and body lengths; the
/// appended ones are clones.  Where the vreg ids left suffice
/// ([`specialize_room`]), every such call ([`spec_site`]) is redirected.
pub fn function_specialization(program: &mut IrProgram, profile: OptProfile)
    ensures
        final(program).functions@.len() >= old(program).functions@.len(),
        forall|k: int| 0 <= k < old(program).functions@.len() ==> same_header(old(program).functions@[k], #[trigger] final(program).functions@[k])
            && final(program).functions@[k].body@.len() == old(program).functions@[k].body@.len(),
        forall|k: int| old(program).functions@.len() <= k < final(program).functions@.len()
            ==> seq_has_sub((#[trigger] final(program).functions@[k]).name@, spec_marker()),
        forall|k: int, t: int| 0 <= k < old(program).functions@.len() && 0 <= t < old(program).functions@[k].body@.len()
            ==> #[trigger] call_redirected(old(program).functions@[k].body@[t], final(program).functions@[k].body@[t],
                names_of(final(program).functions@.skip(old(program).functions@.len() as int))),
        final(program).strings == old(program).strings,
        old(program).globals@.is_prefix_of(final(program).globals@),
        forall|k: int| old(program).functions@.len() <= k < final(program).functions@.len()
            ==> #[trigger] clone_of(old(program).functions@, final(program).functions@[k], profile),
        specialize_room(old(program).functions@) ==> forall|k: int, t: int| 0 <= k < old(program).functions@.len()
            && 0 <= t < old(program).functions@[k].body@.len()
            && #[trigger] spec_site(old(program).functions@, old(program).functions@[k].body@, t, spec_size_limit(profile))
            ==> final(program).functions@[k].body@[t].op is Call
                && names_of(final(program).functions@.skip(old(program).functions@.len() as int)).contains(
                    final(program).functions@[k].body@[t].op->Call_func_name@),
{
    let size_limit: usize = match profile {
        OptProfile::Default => 40,
        OptProfile::Benchmark => 80,
    };
    let ghost lim = spec_size_limit(profile);
    let mut templates: Vec<IrFunction> = Vec::new();
    let mut candidates: Vec<String> = Vec::new();
    let mut i: usize = 0;
    while i < program.functions.len()
        invariant
            i <= program.functions@.len(),
            templates@.len() == i,
            forall|t: int| 0 <= t < i ==> #[trigger] same_function(templates@[t], program.functions@[t]),
            size_limit as nat == lim,
            forall|c: int| 0 <= c < candidates@.len() ==> exists|j: int| 0 <= j < program.functions@.len()
                && #[trigger] program.functions@[j].name@ == (#[trigger] candidates@[c])@,
            forall|j: int| 0 <= j < i && spec_candidate(#[trigger] program.functions@[j], lim) ==>
                exists|c: int| 0 <= c < candidates@.len() && (#[trigger] candidates@[c])@ == program.functions@[j].name@,
        decreases program.functions@.len() - i,
    {
        templates.push(program.functions[i].clone());
        if is_specialization_candidate(&program.functions[i], size_limit) {
            let ghost c0 = candidates@;
            candidates.push(program.functions[i].name.clone());
            proof {
                assert(candidates@[c0.len() as int]@ == program.functions@[i as int].name@);
                assert forall|c: int| 0 <= c < candidates@.len() implies exists|j: int| 0 <= j < program.functions@.len()
                    && #[trigger] program.functions@[j].name@ == (#[trigger] candidates@[c])@ by {
                    if c < c0.len() {
                        assert(candidates@[c] == c0[c]);
                    } else {
                        assert(program.functions@[i as int].name@ == candidates@[c]@);
                    }
                }
                assert forall|j: int| 0 <= j < i + 1 && spec_candidate(#[trigger] program.functions@[j], lim) implies
                    exists|c: int| 0 <= c < candidates@.len() && (#[trigger] candidates@[c])@ == program.functions@[j].name@ by {
                    if j < i {
                        let c = choose|c: int| 0 <= c < c0.len() && (#[trigger] c0[c])@ == program.functions@[j].name@;
                        assert(candidates@[c] == c0[c]);
                    } else {
                        assert(candidates@[c0.len() as int]@ == program.functions@[j].name@);
                    }
                }
            }
        }
        i += 1;
    }
    if candidates.len() == 0 {
        proof {
            assert forall|k: int, t: int| 0 <= k < program.functions@.len() && 0 <= t < program.functions@[k].body@.len()
                implies !spec_site(program.functions@, program.functions@[k].body@, t, lim) by {
                if spec_site(program.functions@, program.functions@[k].body@, t, lim) {
                    let n = program.functions@[k].body@[t].op->Call_func_name@;
                    let j = choose|j: int| 0 <= j < program.functions@.len() && #[trigger] program.functions@[j].name@ == n
                        && spec_candidate(program.functions@[j], lim);
                    assert(spec_candidate(program.functions@[j], lim));
                }
            }
        }
        return;
    }
    let nb = next_vreg_id(program);
    let ghost room = specialize_room(program.functions@);
    let ghost tt = body_total(program.functions@, program.functions@.len() as int) as int;
    if nb > u32::MAX as u64 {
        proof {
            assert(vreg_mentioned(program.functions@, (nb - 1) as u32));
            assert(!room);
        }
        return;
    }
    proof {
        if room && nb > 0 {
            assert(vreg_mentioned(program.functions@, (nb - 1) as u32));
        }
    }
    let mut next_vreg: u32 = nb as u32;
    let mut cache: Vec<(String, Vec<(usize, i64)>, String)> = Vec::new();
    let mut pending_funcs: Vec<IrFunction> = Vec::new();
    let mut pending_globals: Vec<GlobalVar> = Vec::new();
    let ghost olds = program.functions@;
    let mut fi: usize = 0;
    while fi < program.functions.len()
        invariant
            program.functions@.len() == olds.len(),
            olds == old(program).functions@,
            forall|k: int| 0 <= k < olds.len() ==> same_header(olds[k], #[trigger] program.functions@[k])
                && program.functions@[k].body@.len() == olds[k].body@.len(),
            forall|k: int| 0 <= k < pending_funcs@.len() ==> seq_has_sub((#[trigger] pending_funcs@[k]).name@, spec_marker()),
            forall|k: int| 0 <= k < pending_funcs@.len() ==> #[trigger] clone_of(olds, pending_funcs@[k], profile),
            templates@.len() == olds.len(),
            forall|t: int| 0 <= t < olds.len() ==> #[trigger] same_function(templates@[t], olds[t]),
            program.strings == old(program).strings,
            program.globals == old(program).globals,
            forall|k: int| fi <= k < olds.len() ==> #[trigger] program.functions@[k] == olds[k],
            forall|c: int| 0 <= c < cache@.len() ==> names_of(pending_funcs@).contains(#[trigger] cache@[c].2@),
            forall|k: int, t: int| 0 <= k < fi && 0 <= t < olds[k].body@.len()
                ==> #[trigger] call_redirected(olds[k].body@[t], program.functions@[k].body@[t], names_of(pending_funcs@)),
            fi <= olds.len(),
            room == specialize_room(olds),
            tt == body_total(olds, olds.len() as int),
            room ==> nb + tt * tt + 1 < u32::MAX,
            next_vreg as int <= nb + body_total(olds, fi as int) * tt,
            size_limit as nat == lim,
            lim == spec_size_limit(profile),
            forall|c: int| 0 <= c < candidates@.len() ==> exists|j: int| 0 <= j < olds.len()
                && #[trigger] olds[j].name@ == (#[trigger] candidates@[c])@,
            forall|j: int| 0 <= j < olds.len() && spec_candidate(#[trigger] olds[j], lim) ==>
                exists|c: int| 0 <= c < candidates@.len() && (#[trigger] candidates@[c])@ == olds[j].name@,
            room ==> forall|kk: int, t: int| 0 <= kk < fi && 0 <= t < olds[kk].body@.len()
                && #[trigger] spec_site(olds, olds[kk].body@, t, lim)
                ==> program.functions@[kk].body@[t].op is Call
                    && names_of(pending_funcs@).contains(program.functions@[kk].body@[t].op->Call_func_name@),
        decreases program.functions@.len() - fi,
    {
        let mut func = IrFunction::new("", CType::Void);
        program.functions.set_and_swap(fi, &mut func);
        let ghost f0 = func;
        assert(f0 == olds[fi as int]);
        let mut const_map: AssocMap<u32, i64> = AssocMap::new();
        assert(const_map@ =~= known_consts(f0.body@, 0));
        let mut new_body: Vec<IrInstr> = Vec::new();
        let mut k: usize = 0;
        while k < func.body.len()
            invariant
                const_map.wf(),
                new_body@.len() == k,
                k <= func.body@.len(),
                func == f0,
                forall|t: int| 0 <= t < pending_funcs@.len() ==> seq_has_sub((#[trigger] pending_funcs@[t]).name@, spec_marker()),
                forall|t: int| 0 <= t < pending_funcs@.len() ==> #[trigger] clone_of(olds, pending_funcs@[t], profile),
                templates@.len() == olds.len(),
                forall|t: int| 0 <= t < olds.len() ==> #[trigger] same_function(templates@[t], olds[t]),
                program.strings == old(program).strings,
                program.globals == old(program).globals,
                program.functions@.len() == olds.len(),
                fi < olds.len(),
                forall|c: int| 0 <= c < cache@.len() ==> names_of(pending_funcs@).contains(#[trigger] cache@[c].2@),
                forall|t: int| 0 <= t < k ==> #[trigger] call_redirected(f0.body@[t], new_body@[t], names_of(pending_funcs@)),
                forall|kk: int, t: int| 0 <= kk < fi && 0 <= t < olds[kk].body@.len()
                    ==> #[trigger] call_redirected(olds[kk].body@[t], program.functions@[kk].body@[t], names_of(pending_funcs@)),
                olds == old(program).functions@,
                f0 == olds[fi as int],
                room == specialize_room(olds),
                tt == body_total(olds, olds.len() as int),
                room ==> nb + tt * tt + 1 < u32::MAX,
                next_vreg as int <= nb + (body_total(olds, fi as int) + k) * tt,
                size_limit as nat == lim,
                lim == spec_size_limit(profile),
                forall|c: int| 0 <= c < candidates@.len() ==> exists|j: int| 0 <= j < olds.len()
                    && #[trigger] olds[j].name@ == (#[trigger] candidates@[c])@,
                forall|j: int| 0 <= j < olds.len() && spec_candidate(#[trigger] olds[j], lim) ==>
                    exists|c: int| 0 <= c < candidates@.len() && (#[trigger] candidates@[c])@ == olds[j].name@,
                room ==> const_map@ == known_consts(f0.body@, k as int),
                room ==> forall|t: int| 0 <= t < k && #[trigger] spec_site(olds, f0.body@, t, lim)
                    ==> new_body@[t].op is Call && names_of(pending_funcs@).contains(new_body@[t].op->Call_func_name@),
                room ==> forall|kk: int, t: int| 0 <= kk < fi && 0 <= t < olds[kk].body@.len()
                    && #[trigger] spec_site(olds, olds[kk].body@, t, lim)
                    ==> program.functions@[kk].body@[t].op is Call
                        && names_of(pending_funcs@).contains(program.functions@[kk].body@[t].op->Call_func_name@),
            decreases func.body@.len() - k,
        {
            let ghost pk = body_total(olds, fi as int) + k;
            proof {
                lemma_total_mono(olds, fi + 1, olds.len() as int);
                assert(body_total(olds, fi + 1) == body_total(olds, fi as int) + olds[fi as int].body@.len());
                lemma_steps_fit(pk, tt);
            }
            let line = func.body[k].line;
            match &func.body[k].op {
                IrOp::LoadImm { dst, value } => {
                    const_map.insert(dst.id, *value);
                    new_body.push(func.body[k].clone());
                },
                IrOp::Copy { dst, src } | IrOp::Cast { dst, src, .. } => {
                    match const_map.get(&src.id) {
                        Some(v) => {
                            let v2 = *v;
                            const_map.insert(dst.id, v2);
                        },
                        None => {
                            const_map.remove(&dst.id);
                        },
                    }
                    new_body.push(func.body[k].clone());
                },
                IrOp::Label { .. } | IrOp::Jump { .. } | IrOp::JumpIfTrue { .. } | IrOp::JumpIfFalse { .. }
                | IrOp::Return { .. } => {
                    const_map.clear();
                    new_body.push(func.body[k].clone());
                },
                IrOp::Call { func_name, args, dst } => {
                    let mut new_name: Option<String> = None;
                    let mut keep_constants = false;
                    if contains_name(&candidates, func_name) && !is_spec_name(func_name.as_str()) {
                        let mut const_args: Vec<(usize, i64)> = Vec::new();
                        let mut a: usize = 0;
                        while a < args.len()
                            invariant
                                const_map.wf(),
                                a <= args@.len(),
                                const_args@.len() > 0 <==> exists|a2: int| 0 <= a2 < a && #[trigger] const_map@.contains_key(args@[a2].id),
                            decreases args@.len() - a,
                        {
                            match const_map.get(&args[a].id) {
                                Some(v) => {
                                    const_args.push((a, *v));
                                },
                                None => {},
                            }
                            a += 1;
                        }
                        if const_args.len() > 0 {
                            let mut c: usize = 0;
                            while c < cache.len() && new_name.is_none()
                                invariant
                                    forall|c: int| 0 <= c < cache@.len() ==> names_of(pending_funcs@).contains(#[trigger] cache@[c].2@),
                                    new_name matches Some(nn) ==> names_of(pending_funcs@).contains(nn@),
                                decreases cache@.len() - c,
                            {
                                if cache[c].0 == *func_name && const_args_eq(&cache[c].1, &const_args) {
                                    new_name = Some(cache[c].2.clone());
                                }
                                c += 1;
                            }
                            if new_name.is_none() {
                                match last_function_named(&templates, func_name) {
                                    Some(ti) => {
                                        let name = make_clone_name(func_name.as_str(), cache.len());
                                        let ghost nv_before = next_vreg;
                                        match clone_specialized_function(
                                            &templates[ti],
                                            name.as_str(),
                                            &const_args,
                                            &mut next_vreg,
                                            &program.globals,
                                        ) {
                                            Some((cf, cg)) => {
                                                let mut cf = cf;
                                                let mut cg = cg;
                                                let ghost cf0 = cf;
                                                optimize_function(&mut cf, profile);
                                                proof {
                                                    let tpl = templates@[ti as int];
                                                    assert(same_function(tpl, olds[ti as int]));
                                                    let segs = choose|segs: Seq<Seq<IrInstr>>| #![trigger concat_all(segs)]
                                                        segs.len() == tpl.body@.len() && cf0.body@ == concat_all(segs)
                                                        && forall|t: int| 0 <= t < segs.len() ==> #[trigger] cloned_instr(tpl.body@[t], segs[t], tpl.params@,
                                                            local_prefix(tpl.name@), local_prefix(name@), const_args@,
                                                            nv_before as int, next_vreg as int);
                                                    assert(cf.name@ == name@);
                                                    assert(clone_witness(olds, cf, profile, ti as int, tpl, const_args@, nv_before as int, next_vreg as int, segs));
                                                    lemma_total_mono(olds, ti + 1, olds.len() as int);
                                                    assert(body_total(olds, ti + 1) == body_total(olds, ti as int) + olds[ti as int].body@.len());
                                                    assert(next_vreg as int <= nb + (pk + 1) * tt);
                                                }
                                                pending_globals.append(&mut cg);
                                                let ghost pn0 = names_of(pending_funcs@);
                                                let ghost cfname = cf.name@;
                                                pending_funcs.push(cf);
                                                proof {
                                                    assert(names_of(pending_funcs@) =~= pn0.push(cfname));
                                                    assert forall|t: int| 0 <= t < k implies #[trigger] call_redirected(f0.body@[t], new_body@[t], names_of(pending_funcs@)) by {
                                                        lemma_redirect_grows(f0.body@[t], new_body@[t], pn0, cfname);
                                                    }
                                                    assert forall|kk: int, t: int| 0 <= kk < fi && 0 <= t < olds[kk].body@.len()
                                                        implies #[trigger] call_redirected(olds[kk].body@[t], program.functions@[kk].body@[t], names_of(pending_funcs@)) by {
                                                        lemma_redirect_grows(olds[kk].body@[t], program.functions@[kk].body@[t], pn0, cfname);
                                                    }
                                                    assert forall|x: Seq<char>| pn0.contains(x) implies #[trigger] names_of(pending_funcs@).contains(x) by {
                                                        let j = choose|j: int| 0 <= j < pn0.len() && pn0[j] == x;
                                                        assert(names_of(pending_funcs@)[j] == x);
                                                    }
                                                    assert forall|c: int| 0 <= c < cache@.len() implies names_of(pending_funcs@).contains(#[trigger] cache@[c].2@) by {
                                                        let j = choose|j: int| 0 <= j < pn0.len() && pn0[j] == cache@[c].2@;
                                                        assert(names_of(pending_funcs@)[j] == cache@[c].2@);
                                                    }
                                                    assert(names_of(pending_funcs@)[pn0.len() as int] == cfname);
                                                    assert(pending_funcs@[pn0.len() as int] == cf);
                                                }
                                                let ghost ca0 = cache@;
                                                let ghost pf1 = pending_funcs@;
                                                cache.push((func_name.clone(), const_args, name.clone()));
                                                proof {
                                                    assert(cf.name@ == name@);
                                                    assert(names_of(pf1)[pf1.len() - 1] == name@);
                                                    assert forall|c: int| 0 <= c < cache@.len() implies names_of(pending_funcs@).contains(#[trigger] cache@[c].2@) by {
                                                        if c < ca0.len() {
                                                            assert(cache@[c] == ca0[c]);
                                                            assert(names_of(pending_funcs@).contains(ca0[c].2@));
                                                        } else {
                                                            assert(cache@[c].2@ == name@);
                                                            assert(pf1 == pending_funcs@);
                                                            assert(names_of(pending_funcs@)[pf1.len() - 1] == cache@[c].2@);
                                                        }
                                                    }
                                                }
                                                new_name = Some(name);
                                            },
                                            None => {
                                                proof {
                                                    assert(same_function(templates@[ti as int], olds[ti as int]));
                                                    lemma_total_mono(olds, ti + 1, olds.len() as int);
                                                    assert(body_total(olds, ti + 1) == body_total(olds, ti as int) + olds[ti as int].body@.len());
                                                    assert(!room);
                                                }
                                                keep_constants = true;
                                            },
                                        }
                                    },
                                    None => {
                                        proof {
                                            let c = choose|c: int| 0 <= c < candidates@.len() && (#[trigger] candidates@[c])@ == func_name@;
                                            let j = choose|j: int| 0 <= j < olds.len() && #[trigger] olds[j].name@ == (#[trigger] candidates@[c])@;
                                            assert(same_function(templates@[j], olds[j]));
                                            assert(templates@[j].name@ == func_name@);
                                        }
                                        keep_constants = true;
                                    },
                                }
                            }
                        }
                    }
                    match new_name {
                        Some(n) => {
                            let ghost nn = n@;
                            new_body.push(IrInstr {
                                op: IrOp::Call { func_name: n, args: crate::ir::clone_vregs(args), dst: *dst },
                                line,
                            });
                            assert(names_of(pending_funcs@).contains(nn));
                            assert(call_redirected(f0.body@[k as int], new_body@[k as int], names_of(pending_funcs@)));
                        },
                        None => {
                            proof {
                                if room && spec_site(olds, f0.body@, k as int, lim) {
                                    let j = choose|j: int| 0 <= j < olds.len() && #[trigger] olds[j].name@ == func_name@
                                        && spec_candidate(olds[j], lim);
                                    assert(spec_candidate(olds[j], lim));
                                    let a2 = choose|a2: int| 0 <= a2 < args@.len() && #[trigger] known_consts(f0.body@, k as int).contains_key(args@[a2].id);
                                    assert(const_map@.contains_key(args@[a2].id));
                                    assert(false);
                                }
                            }
                            new_body.push(func.body[k].clone());
                        },
                    }
                    if !keep_constants {
                        const_map.clear();
                    }
                },
                op => {
                    match get_dst_vreg(op) {
                        Some(d) => {
                            const_map.remove(&d.id);
                        },
                        None => {},
                    }
                    new_body.push(func.body[k].clone());
                },
            }
            k += 1;
        }
        func.body = new_body;
        program.functions.set_and_swap(fi, &mut func);
        proof {
            assert forall|kk: int, t: int| 0 <= kk < fi + 1 && 0 <= t < olds[kk].body@.len()
                implies #[trigger] call_redirected(olds[kk].body@[t], program.functions@[kk].body@[t], names_of(pending_funcs@)) by {
                if kk == fi {
                    assert(call_redirected(f0.body@[t], new_body@[t], names_of(pending_funcs@)));
                }
            }
        }
        fi += 1;
    }
    let ghost g0 = program.globals@;
    program.globals.append(&mut pending_globals);
    assert(g0.is_prefix_of(program.globals@)) by {
        assert(program.globals@.subrange(0, g0.len() as int) =~= g0);
    }
    let ghost before = program.functions@;
    let ghost pend = pending_funcs@;
    program.functions.append(&mut pending_funcs);
    proof {
        assert(program.functions@.skip(olds.len() as int) =~= pend);
        assert forall|kk: int, t: int| 0 <= kk < olds.len() && 0 <= t < olds[kk].body@.len()
            implies #[trigger] call_redirected(olds[kk].body@[t], program.functions@[kk].body@[t],
                names_of(program.functions@.skip(olds.len() as int))) by {
            assert(program.functions@[kk] == before[kk]);
        }
        assert forall|k: int| before.len() <= k < program.functions@.len()
            implies seq_has_sub((#[trigger] program.functions@[k]).name@, spec_marker()) by {
            assert(program.functions@[k] == pend[k - before.len()]);
        }
        assert forall|k: int| before.len() <= k < program.functions@.len()
            implies #[trigger] clone_of(olds, program.functions@[k], profile) by {
            assert(program.functions@[k] == pend[k - before.len()]);
        }
    }
}

/// `n` is one of `names`, or the name of a specialised clone.
pub open spec fn good_name(n: Seq<char>, names: Seq<Seq<char>>) -> bool {
    (exists|j: int| 0 <= j < names.len() && names[j] == n) || seq_has_sub(n, spec_marker())
}

/// Every function of `fs` is named like one of `names`, or is a
/// specialised clone.
pub open spec fn named_from(fs: Seq<IrFunction>, names: Seq<Seq<char>>) -> bool {
    forall|k: int| 0 <= k < fs.len() ==> #[trigger] good_name(fs[k].name@, names)
}

/// The program has a function named `main`.
pub open spec fn has_main_fn(p: IrProgram) -> bool {
    exists|k: int| 0 <= k < p.functions@.len() && (#[trigger] p.functions@[k]).name@ == main_name()
}

/// Whether the program has a function named `main`.
fn has_main(program: &IrProgram) -> (r: bool)
    ensures
        r == has_main_fn(*program),
{
    proof {
        reveal_strlit("main");
    }
    let main = String::from_str("main");
    assert(main@ =~= main_name());
    let mut i: usize = 0;
    while i < program.functions.len()
        invariant
            i <= program.functions@.len(),
            main@ == main_name(),
            forall|k: int| 0 <= k < i ==> (#[trigger] program.functions@[k]).name@ != main_name(),
        decreases program.functions@.len() - i,
    {
        if program.functions[i].name == main {
            return true;
        }
        i += 1;
    }
    false
}

/// Every function of `b` is the function of `a` at its position with its
/// body optimised.
#[verifier::opaque]
pub open spec fn each_optimized(profile: OptProfile, a: IrProgram, b: IrProgram) -> bool {
    &&& b.functions@.len() == a.functions@.len()
    &&& forall|k: int| 0 <= k < a.functions@.len() ==> same_header(a.functions@[k], #[trigger] b.functions@[k])
        && body_optimized(profile, a.functions@[k].body@, b.functions@[k].body@)
    &&& b.globals == a.globals
    &&& b.strings == a.strings
}

/// What inline expansion makes of `a`.
#[verifier::opaque]
pub open spec fn inline_rel(a: IrProgram, b: IrProgram) -> bool {
    &&& b.globals == a.globals
    &&& b.strings == a.strings
    &&& b.functions@.len() <= a.functions@.len()
    &&& forall|k: int| 0 <= k < b.functions@.len() ==> exists|j: int| 0 <= j < a.functions@.len()
        && (#[trigger] b.functions@[k]).name@ == a.functions@[j].name@ && same_header(a.functions@[j], b.functions@[k])
        && body_inlined(a.functions@, a.functions@[j].body@, b.functions@[k].body@)
        && (inline_room(a.functions@) ==> body_fully_inlined(a.functions@, a.functions@[j].body@, b.functions@[k].body@))
    &&& forall|j: int| 0 <= j < a.functions@.len() ==> (exists|k: int| 0 <= k < b.functions@.len()
        && (#[trigger] b.functions@[k]).name@ == a.functions@[j].name@)
        || (candidate_name(a.functions@, a.functions@[j].name@)
            && forall|k: int, t: int| 0 <= k < b.functions@.len() && 0 <= t < b.functions@[k].body@.len()
                ==> !calls_name(#[trigger] b.functions@[k].body@[t], a.functions@[j].name@))
}

/// What specialisation for constant arguments makes of `a`.
#[verifier::opaque]
pub open spec fn specialized_rel(profile: OptProfile, a: IrProgram, b: IrProgram) -> bool {
    &&& b.functions@.len() >= a.functions@.len()
    &&& forall|k: int| 0 <= k < a.functions@.len() ==> same_header(a.functions@[k], #[trigger] b.functions@[k])
        && b.functions@[k].body@.len() == a.functions@[k].body@.len()
    &&& forall|k: int| a.functions@.len() <= k < b.functions@.len() ==> seq_has_sub((#[trigger] b.functions@[k]).name@, spec_marker())
    &&& forall|k: int, t: int| 0 <= k < a.functions@.len() && 0 <= t < a.functions@[k].body@.len()
        ==> #[trigger] call_redirected(a.functions@[k].body@[t], b.functions@[k].body@[t],
            names_of(b.functions@.skip(a.functions@.len() as int)))
    &&& b.strings == a.strings
    &&& a.globals@.is_prefix_of(b.globals@)
    &&& forall|k: int| a.functions@.len() <= k < b.functions@.len() ==> #[trigger] clone_of(a.functions@, b.functions@[k], profile)
    &&& specialize_room(a.functions@) ==> forall|k: int, t: int| 0 <= k < a.functions@.len() && 0 <= t < a.functions@[k].body@.len()
        && #[trigger] spec_site(a.functions@, a.functions@[k].body@, t, spec_size_limit(profile))
        ==> b.functions@[k].body@[t].op is Call
            && names_of(b.functions@.skip(a.functions@.len() as int)).contains(b.functions@[k].body@[t].op->Call_func_name@)
}

/// What merging equal clones makes of `a`.
#[verifier::opaque]
pub open spec fn dedup_rel(a: IrProgram, b: IrProgram) -> bool {
    &&& b.functions@.len() == a.functions@.len()
    &&& forall|k: int| 0 <= k < b.functions@.len() ==> (#[trigger] b.functions@[k]).name@ == a.functions@[k].name@
        && b.functions@[k].body@.len() == a.functions@[k].body@.len()
    &&& b.globals == a.globals
    &&& b.strings == a.strings
    &&& forall|k: int, t: int| 0 <= k < a.functions@.len() && 0 <= t < a.functions@[k].body@.len()
        ==> #[trigger] call_merged(a.functions@[k].body@[t], b.functions@[k].body@[t], names_of(a.functions@))
}

/// What removing the functions unreachable from `main` makes of `a`.
#[verifier::opaque]
pub open spec fn live_rel(a: IrProgram, b: IrProgram) -> bool {
    &&& b.functions@.len() <= a.functions@.len()
    &&& forall|k: int| 0 <= k < b.functions@.len() ==> #[trigger] reachable(a.functions@, b.functions@[k].name@)
    &&& forall|k: int| 0 <= k < b.functions@.len() ==> #[trigger] function_of(b.functions@[k], a.functions@)
    &&& b.globals == a.globals
    &&& b.strings == a.strings
    &&& forall|j: int| 0 <= j < a.functions@.len() ==> (#[trigger] function_of(a.functions@[j], b.functions@)
        <==> names_of(b.functions@).contains(a.functions@[j].name@))
    &&& forall|j: int| 0 <= j < a.functions@.len() && a.functions@[j].name@ == main_name()
        ==> #[trigger] function_of(a.functions@[j], b.functions@)
    &&& forall|j: int, m: Seq<char>, j2: int| #![trigger a.functions@[j], body_calls(a.functions@[j].body@, m), a.functions@[j2]]
        0 <= j2 < a.functions@.len() && names_of(b.functions@).contains(a.functions@[j].name@)
        && last_named(a.functions@, a.functions@[j].name@, j) && body_calls(a.functions@[j].body@, m)
        && a.functions@[j2].name@ == m ==> function_of(a.functions@[j2], b.functions@)
    &&& forall|k: int| 0 <= k < b.functions@.len() ==> (#[trigger] b.functions@[k]).name@ == main_name()
        || exists|j: int| #![trigger a.functions@[j]] last_named(a.functions@, a.functions@[j].name@, j)
            && names_of(b.functions@).contains(a.functions@[j].name@)
            && body_calls(a.functions@[j].body@, b.functions@[k].name@)
}

/// What induction-variable strength reduction makes of a body.
pub open spec fn iv_rel(a: Seq<IrInstr>, b: Seq<IrInstr>, c: bool) -> bool {
    &&& c == iv_result(a) is Some
    &&& c ==> same_body(b, iv_result(a)->Some_0)
    &&& !c ==> b == a
}

/// What full unrolling of a marked loop makes of a body.
pub open spec fn unroll_rel(a: Seq<IrInstr>, b: Seq<IrInstr>, headers: Seq<Label>, c: bool) -> bool {
    unroll_outcome(a, b, headers, c)
}

/// The loop passes on `f` give `g`: induction variables, then unrolling,
/// then the local passes again where either changed something.
#[verifier::opaque]
pub open spec fn loop_passes(profile: OptProfile, f: IrFunction, g: IrFunction) -> bool {
    &&& same_header(f, g)
    &&& exists|b1: Seq<IrInstr>, b2: Seq<IrInstr>, c1: bool, c2: bool| #[trigger] iv_rel(f.body@, b1, c1)
        && #[trigger] unroll_rel(b1, b2, f.unroll_loop_headers@, c2)
        && ((c1 || c2) ==> body_optimized(profile, b2, g.body@)) && (!(c1 || c2) ==> g.body@ == b2)
}

/// Every function of `b` is the function of `a` at its position after the
/// loop passes.
#[verifier::opaque]
pub open spec fn each_loop_passes(profile: OptProfile, a: IrProgram, b: IrProgram) -> bool {
    &&& b.functions@.len() == a.functions@.len()
    &&& forall|k: int| 0 <= k < a.functions@.len() ==> #[trigger] loop_passes(profile, a.functions@[k], b.functions@[k])
    &&& b.strings == a.strings
    &&& b.globals == a.globals
}

/// The whole-program schedule takes `p0` through `p1`, ..., `p7` to `p8`.
pub open spec fn schedule(profile: OptProfile, p0: IrProgram, p1: IrProgram, p2: IrProgram, p3: IrProgram, p4: IrProgram,
    p5: IrProgram, p6: IrProgram, p7: IrProgram, p8: IrProgram) -> bool {
    &&& each_optimized(profile, p0, p1)
    &&& inline_rel(p1, p2)
    &&& specialized_rel(profile, p2, p3)
    &&& each_optimized(profile, p3, p4)
    &&& dedup_rel(p4, p5)
    &&& if has_main_fn(p5) { live_rel(p5, p6) } else { p6 == p5 }
    &&& each_loop_passes(profile, p6, p7)
    &&& if profile == OptProfile::Benchmark { each_optimized(profile, p7, p8) } else { p8 == p7 }
}

/// Optimise every function of the program in place.
fn optimize_each(program: &mut IrProgram, profile: OptProfile)
    ensures
        final(program).functions@.len() == old(program).functions@.len(),
        forall|k: int| 0 <= k < old(program).functions@.len() ==> same_header(old(program).functions@[k], #[trigger] final(program).functions@[k]),
        final(program).strings == old(program).strings,
        final(program).globals == old(program).globals,
        each_optimized(profile, *old(program), *final(program)),
{
    let mut i: usize = 0;
    let ghost olds = program.functions@;
    while i < program.functions.len()
        invariant
            program.functions@.len() == olds.len(),
            olds == old(program).functions@,
            forall|k: int| 0 <= k < olds.len() ==> same_header(olds[k], #[trigger] program.functions@[k]),
            forall|k: int| 0 <= k < i ==> #[trigger] body_optimized(profile, olds[k].body@, program.functions@[k].body@),
            forall|k: int| i <= k < olds.len() ==> #[trigger] program.functions@[k] == olds[k],
            program.strings == old(program).strings,
            program.globals == old(program).globals,
        decreases program.functions@.len() - i,
    {
        let mut f = IrFunction::new("", CType::Void);
        program.functions.set_and_swap(i, &mut f);
        optimize_function(&mut f, profile);
        program.functions.set_and_swap(i, &mut f);
        i += 1;
    }
    proof {
        reveal(each_optimized);
    }
}

/// Optimise a whole program: the local passes on every function, inline
/// expansion, specialisation for constant arguments, the local passes
/// again, merging of equal clones, removal of functions unreachable from
/// `main` (when there is one), then the loop passes (induction variables,
/// unrolling) with a clean-up where they changed something, and for the
/// benchmark profile one more clean-up round.  Every function of the
/// result is named like a function of the input or is a specialised clone,
/// and the string literals are untouched.
pub fn optimize_with_profile(program: &mut IrProgram, profile: OptProfile)
    ensures
        named_from(final(program).functions@, old(program).functions@.map_values(|f: IrFunction| f.name@)),
        final(program).strings == old(program).strings,
        old(program).globals@.is_prefix_of(final(program).globals@),
        exists|p1: IrProgram, p2: IrProgram, p3: IrProgram, p4: IrProgram, p5: IrProgram, p6: IrProgram, p7: IrProgram|
            #[trigger] schedule(profile, *old(program), p1, p2, p3, p4, p5, p6, p7, *final(program)),
{
    let ghost names0 = program.functions@.map_values(|f: IrFunction| f.name@);
    let ghost q0 = *program;
    optimize_each(program, profile);
    let ghost q1 = *program;
    assert forall|k: int| 0 <= k < program.functions@.len() implies #[trigger] good_name(program.functions@[k].name@, names0) by {
        assert(names0[k] == program.functions@[k].name@);
    }
    let ghost p1 = program.functions@;
    inline_expand(program);
    let ghost q2 = *program;
    proof {
        reveal(inline_rel);
        assert(inline_rel(q1, q2));
    }
    assert forall|k: int| 0 <= k < program.functions@.len() implies #[trigger] good_name(program.functions@[k].name@, names0) by {
        let j = choose|j: int| 0 <= j < p1.len() && program.functions@[k].name@ == p1[j].name@;
        assert(good_name(p1[j].name@, names0));
    }
    let ghost p2 = program.functions@;
    function_specialization(program, profile);
    let ghost q3 = *program;
    proof {
        reveal(specialized_rel);
        assert(specialized_rel(profile, q2, q3));
    }
    assert forall|k: int| 0 <= k < program.functions@.len() implies #[trigger] good_name(program.functions@[k].name@, names0) by {
        if k < p2.len() {
            assert(same_header(p2[k], program.functions@[k]));
            assert(good_name(p2[k].name@, names0));
        }
    }
    let ghost p3 = program.functions@;
    optimize_each(program, profile);
    let ghost q4 = *program;
    assert forall|k: int| 0 <= k < program.functions@.len() implies #[trigger] good_name(program.functions@[k].name@, names0) by {
        assert(same_header(p3[k], program.functions@[k]));
        assert(good_name(p3[k].name@, names0));
    }
    let ghost p4 = program.functions@;
    dedup_specializations(program);
    let ghost q5 = *program;
    proof {
        reveal(dedup_rel);
        assert(dedup_rel(q4, q5));
    }
    assert forall|k: int| 0 <= k < program.functions@.len() implies #[trigger] good_name(program.functions@[k].name@, names0) by {
        assert(good_name(p4[k].name@, names0));
    }
    if has_main(program) {
        let ghost p5 = program.functions@;
        remove_dead_functions(program);
        proof {
            reveal(live_rel);
            assert(live_rel(q5, *program));
        }
        assert forall|k: int| 0 <= k < program.functions@.len() implies #[trigger] good_name(program.functions@[k].name@, names0) by {
            assert(function_of(program.functions@[k], p5));
            let j = choose|j: int| 0 <= j < p5.len() && p5[j] == program.functions@[k];
            assert(good_name(p5[j].name@, names0));
        }
    }
    let ghost p6 = program.functions@;
    let ghost q6 = *program;
    let mut i: usize = 0;
    while i < program.functions.len()
        invariant
            program.functions@.len() == p6.len(),
            forall|k: int| 0 <= k < p6.len() ==> same_header(p6[k], #[trigger] program.functions@[k]),
            forall|k: int| 0 <= k < i ==> #[trigger] loop_passes(profile, p6[k], program.functions@[k]),
            forall|k: int| i <= k < p6.len() ==> #[trigger] program.functions@[k] == p6[k],
            named_from(p6, names0),
            program.strings == old(program).strings,
            program.strings == q6.strings,
            program.globals == q6.globals,
            p6 == q6.functions@,
        decreases program.functions@.len() - i,
    {
        let mut f = IrFunction::new("", CType::Void);
        program.functions.set_and_swap(i, &mut f);
        run_loop_passes(&mut f, profile);
        program.functions.set_and_swap(i, &mut f);
        i += 1;
    }
    let ghost q7 = *program;
    proof {
        reveal(each_loop_passes);
        assert(each_loop_passes(profile, q6, q7));
    }
    assert forall|k: int| 0 <= k < program.functions@.len() implies #[trigger] good_name(program.functions@[k].name@, names0) by {
        assert(same_header(p6[k], program.functions@[k]));
        assert(good_name(p6[k].name@, names0));
    }
    if profile == OptProfile::Benchmark {
        let ghost p7 = program.functions@;
        optimize_each(program, profile);
        assert forall|k: int| 0 <= k < program.functions@.len() implies #[trigger] good_name(program.functions@[k].name@, names0) by {
            assert(same_header(p7[k], program.functions@[k]));
            assert(good_name(p7[k].name@, names0));
        }
    }
    proof {
        assert(schedule(profile, q0, q1, q2, q3, q4, q5, q6, q7, *program));
        reveal(inline_rel);
        reveal(specialized_rel);
        reveal(dedup_rel);
        reveal(live_rel);
        reveal(each_loop_passes);
        reveal(each_optimized);
        assert(q0.globals == q1.globals);
        assert(q1.globals == q2.globals);
        assert(q3.globals == q4.globals);
        assert(q4.globals == q5.globals);
        assert(q2.globals@.is_prefix_of(q3.globals@));
        assert(q3.globals == q5.globals);
        assert(q5.globals == q6.globals);
        assert(q6.globals == q7.globals);
        assert(q7.globals == program.globals);
        assert(q0.globals@.is_prefix_of(program.globals@));
    }
}

/// Run the loop passes on one function: induction variables, then
/// unrolling, then the local passes again where either changed something.
fn run_loop_passes(f: &mut IrFunction, profile: OptProfile)
    ensures
        loop_passes(profile, *old(f), *final(f)),
        same_header(*old(f), *final(f)),
{
    let ghost b0 = f.body@;
    let a = induction_variable_optimization(f);
    let ghost b1 = f.body@;
    let b = loop_unrolling(f);
    let ghost b2 = f.body@;
    if a || b {
        optimize_function(f, profile);
    }
    proof {
        reveal(loop_passes);
        assert(iv_rel(b0, b1, a));
        assert(unroll_rel(b1, b2, old(f).unroll_loop_headers@, b));
        assert((a || b) ==> body_optimized(profile, b2, f.body@));
        assert(!(a || b) ==> f.body@ == b2);
    }
}

/// Optimise a whole program with the default profile (see
/// [`optimize_with_profile`]).
pub fn optimize(program: &mut IrProgram)
    ensures
        named_from(final(program).functions@, old(program).functions@.map_values(|f: IrFunction| f.name@)),
        final(program).strings == old(program).strings,
        old(program).globals@.is_prefix_of(final(program).globals@),
        exists|p1: IrProgram, p2: IrProgram, p3: IrProgram, p4: IrProgram, p5: IrProgram, p6: IrProgram, p7: IrProgram|
            #[trigger] schedule(OptProfile::Default, *old(program), p1, p2, p3, p4, p5, p6, p7, *final(program)),
{
    optimize_with_profile(program, OptProfile::Default);
}

} // verus!
