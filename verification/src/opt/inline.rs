//! Inline expansion of small functions at their call sites.

use vstd::prelude::*;

use crate::ir::{IrFunction, IrInstr, IrOp, IrParam, IrProgram, Label, VReg, same_body, same_function, same_instr};
use crate::maps::AssocMap;
use crate::opt::basic::same_header;
use crate::opt::ops::{get_dst_vreg, collect_src_vregs, op_dst, op_srcs};
use crate::opt::remap::{covered, keeps, lemma_renamed_grows, remap_op, remap_vreg, renamed, rn_v};
use crate::opt::specialize::{last_named, lemma_last_named_unique};
use crate::opt::unroll::concat_all;
use crate::text::concat4;
use crate::types::CType;

verus! {

/// Largest body (in instructions) of a function that is inlined.
pub const INLINE_THRESHOLD: usize = 20;

/// The operation calls the function with the given name.
pub open spec fn calls_named(op: IrOp, name: Seq<char>) -> bool {
    match op {
        IrOp::Call { func_name, .. } => func_name@ == name,
        _ => false,
    }
}

/// The body calls the function itself.
pub open spec fn spec_calls_self(func: IrFunction) -> bool {
    exists|i: int| 0 <= i < func.body@.len() && calls_named((#[trigger] func.body@[i]).op, func.name@)
}

/// The body holds an inline-assembly block.
pub open spec fn spec_has_inline_asm(func: IrFunction) -> bool {
    exists|i: int| 0 <= i < func.body@.len() && (#[trigger] func.body@[i]).op is InlineAsm
}

/// Whether a function calls itself directly.
pub fn calls_self(func: &IrFunction) -> (r: bool)
    ensures
        r == spec_calls_self(*func),
{
    let mut i: usize = 0;
    while i < func.body.len()
        invariant
            i <= func.body@.len(),
            forall|k: int| 0 <= k < i ==> !calls_named((#[trigger] func.body@[k]).op, func.name@),
        decreases func.body@.len() - i,
    {
        match &func.body[i].op {
            IrOp::Call { func_name, .. } => {
                if *func_name == func.name {
                    return true;
                }
            },
            _ => {},
        }
        i += 1;
    }
    false
}

/// Whether a function holds a raw inline-assembly block.
pub fn has_inline_asm(func: &IrFunction) -> (r: bool)
    ensures
        r == spec_has_inline_asm(*func),
{
    let mut i: usize = 0;
    while i < func.body.len()
        invariant
            i <= func.body@.len(),
            forall|k: int| 0 <= k < i ==> !((#[trigger] func.body@[k]).op is InlineAsm),
        decreases func.body@.len() - i,
    {
        match &func.body[i].op {
            IrOp::InlineAsm { .. } => {
                return true;
            },
            _ => {},
        }
        i += 1;
    }
    false
}

/// The storage label of a parameter, `_l_<function>_<param>`.
pub open spec fn param_label(func: Seq<char>, param: Seq<char>) -> Seq<char> {
    seq!['_', 'l', '_'] + func + seq!['_'] + param
}

fn make_param_label(func: &str, param: &str) -> (r: String)
    ensures
        r@ == param_label(func@, param@),
{
    proof {
        reveal_strlit("_l_");
        reveal_strlit("_");
    }
    concat4("_l_", func, "_", param)
}

fn contains_string(v: &Vec<String>, s: &String) -> (r: bool)
    ensures
        r == exists|k: int| 0 <= k < v@.len() && (#[trigger] v@[k])@ == s@,
{
    let mut i: usize = 0;
    while i < v.len()
        invariant
            i <= v@.len(),
            forall|k: int| 0 <= k < i ==> (#[trigger] v@[k])@ != s@,
        decreases v@.len() - i,
    {
        if v[i] == *s {
            return true;
        }
        i += 1;
    }
    false
}

/// The instruction stores to one of the callee's own parameter slots.
pub open spec fn param_store(instr: IrInstr, callee: IrFunction) -> bool {
    instr.op matches IrOp::StoreGlobal { addr_label, .. } && exists|p: int| 0 <= p < callee.params@.len()
        && addr_label@ == param_label(callee.name@, (#[trigger] callee.params@[p]).name@)
}

/// `s` is the length of the callee's leading run of parameter stores.
pub open spec fn preamble_end(callee: IrFunction, s: int) -> bool {
    &&& 0 <= s <= callee.body@.len()
    &&& forall|j: int| 0 <= j < s ==> #[trigger] param_store(callee.body@[j], callee)
    &&& s < callee.body@.len() ==> !param_store(callee.body@[s], callee)
}

/// `seg` is what one callee instruction becomes when inlined: a return is a
/// copy of its value to the result vreg `rv` (when both are there) and a
/// jump to `merge`; any other operation is renamed through `vm` and `lm`
/// and keeps its line.
pub open spec fn inlined_instr(instr: IrInstr, seg: Seq<IrInstr>, vm: Map<u32, u32>, lm: Map<u32, u32>, rv: Option<VReg>, merge: Label) -> bool {
    match instr.op {
        IrOp::Return { value } => match (value, rv) {
            (Some(v), Some(r)) => seg == seq![
                IrInstr { op: IrOp::Copy { dst: r, src: rn_v(v, vm) }, line: 0 },
                IrInstr { op: IrOp::Jump { target: merge }, line: 0 },
            ],
            _ => seg == seq![IrInstr { op: IrOp::Jump { target: merge }, line: 0 }],
        },
        _ => seg.len() == 1 && renamed(instr.op, seg[0].op, vm, lm) && seg[0].line == instr.line,
    }
}

/// Every vreg and label that inlining `instr` renames has an entry.
pub open spec fn inline_covered(instr: IrInstr, vm: Map<u32, u32>, lm: Map<u32, u32>, rv: Option<VReg>) -> bool {
    match instr.op {
        IrOp::Return { value } => match (value, rv) {
            (Some(v), Some(r)) => vm.contains_key(v.id),
            _ => true,
        },
        _ => covered(instr.op, vm, lm),
    }
}

/// An inlined instruction stays one when the renamings grow.
pub proof fn lemma_inlined_grows(instr: IrInstr, seg: Seq<IrInstr>, vm1: Map<u32, u32>, lm1: Map<u32, u32>,
    vm2: Map<u32, u32>, lm2: Map<u32, u32>, rv: Option<VReg>, merge: Label)
    requires
        inlined_instr(instr, seg, vm1, lm1, rv, merge),
        inline_covered(instr, vm1, lm1, rv),
        keeps(vm1, vm2),
        keeps(lm1, lm2),
    ensures
        inlined_instr(instr, seg, vm2, lm2, rv, merge),
        inline_covered(instr, vm2, lm2, rv),
{
    match instr.op {
        IrOp::Return { .. } => {},
        _ => {
            lemma_renamed_grows(instr.op, seg[0].op, vm1, lm1, vm2, lm2);
        },
    }
}

/// No later one of the first `n` parameters has the same vreg as the `i`-th.
pub open spec fn last_param_vreg(params: Seq<IrParam>, n: int, i: int) -> bool {
    forall|i2: int| i < i2 < n ==> (#[trigger] params[i2]).vreg.id != params[i].vreg.id
}

/// The vreg of one of the first `n` parameters has id `k`.
pub open spec fn is_param_vreg(params: Seq<IrParam>, n: int, k: u32) -> bool {
    exists|i: int| 0 <= i < n && (#[trigger] params[i]).vreg.id == k
}

/// The vreg renaming of an inlined call: the vreg of each of the first `n`
/// parameters goes to the argument in its place (the last such parameter
/// winning), every other vreg to a fresh id in `[lo, hi)`.
pub open spec fn seeded(vm: Map<u32, u32>, params: Seq<IrParam>, args: Seq<VReg>, n: int, lo: int, hi: int) -> bool {
    &&& forall|i: int| 0 <= i < n && #[trigger] last_param_vreg(params, n, i)
        ==> vm.contains_key(params[i].vreg.id) && vm[params[i].vreg.id] == args[i].id
    &&& forall|k: u32| #[trigger] vm.contains_key(k) && !is_param_vreg(params, n, k) ==> lo <= vm[k] < hi
}

/// The smaller of two lengths.
pub open spec fn min_len(a: int, b: int) -> int {
    if a < b { a } else { b }
}

/// `out` is the expansion of a call of `callee` with arguments `args` and
/// destination `dst`, with fresh vreg ids from `nv0` up to `nv` and fresh
/// label ids from `nl0` up to `nl`, under the vreg renaming `vm`, the label
/// renaming `lm`, the preamble length `s` and the inlined instructions
/// `segs`: stores of the arguments to the parameter slots, the callee body
/// after its parameter preamble inlined instruction by instruction, the
/// merge label `nl0`, and a copy of the result vreg `nv0` to the
/// destination.
pub open spec fn inlined_with(callee: IrFunction, args: Seq<VReg>, dst: Option<VReg>, nv0: u32, nl0: u32,
    out: Seq<IrInstr>, nv: u32, nl: u32, vm: Map<u32, u32>, lm: Map<u32, u32>, s: int, segs: Seq<Seq<IrInstr>>) -> bool {
    let ns = min_len(callee.params@.len() as int, args.len() as int);
    let rv = match dst { Some(d) => Some(VReg { id: nv0, width: d.width }), None => None };
    let first = if dst is Some { nv0 + 1 } else { nv0 as int };
    let merge = Label(nl0);
    let tail: int = if dst is Some { 2 } else { 1 };
    &&& out.len() == ns + concat_all(segs).len() + tail
    &&& forall|i: int| 0 <= i < ns ==> (#[trigger] out[i]).line == 0 && (out[i].op matches IrOp::StoreGlobal { addr_label, src }
        && addr_label@ == param_label(callee.name@, callee.params@[i].name@) && src == args[i])
    &&& preamble_end(callee, s)
    &&& segs.len() == callee.body@.len() - s
    &&& out.subrange(ns, out.len() - tail) == concat_all(segs)
    &&& forall|j: int| 0 <= j < segs.len() ==> #[trigger] inlined_instr(callee.body@[s + j], segs[j], vm, lm, rv, merge)
    &&& out[out.len() - tail] == (IrInstr { op: IrOp::Label { label: merge }, line: 0 })
    &&& (dst matches Some(d) ==> out[out.len() - 1] == (IrInstr { op: IrOp::Copy { dst: d, src: VReg { id: nv0, width: d.width } }, line: 0 }))
    &&& seeded(vm, callee.params@, args, ns, first, nv as int)
    &&& (forall|k: u32| #[trigger] lm.contains_key(k) ==> nl0 < lm[k] < nl)
    &&& first <= nv && nl0 < nl
}

/// `out` is the expansion of a call of `callee` (see [`inlined_with`]) under
/// some renamings.
pub open spec fn inlined_call(callee: IrFunction, args: Seq<VReg>, dst: Option<VReg>, nv0: u32, nl0: u32,
    out: Seq<IrInstr>, nv: u32, nl: u32) -> bool {
    exists|vm: Map<u32, u32>, lm: Map<u32, u32>, s: int, segs: Seq<Seq<IrInstr>>|
        #[trigger] inlined_with(callee, args, dst, nv0, nl0, out, nv, nl, vm, lm, s, segs)
}

/// An upper bound on the fresh vreg ids that inlining the first `n`
/// instructions of a callee body takes: one per operand read, one more per
/// instruction.
pub open spec fn vreg_budget(body: Seq<IrInstr>, n: int) -> int
    decreases n,
{
    if n <= 0 {
        0
    } else {
        vreg_budget(body, n - 1) + op_srcs(body[n - 1].op).len() + 1
    }
}

proof fn lemma_vreg_budget_mono(body: Seq<IrInstr>, a: int, b: int)
    requires
        0 <= a <= b,
    ensures
        vreg_budget(body, a) <= vreg_budget(body, b),
    decreases b - a,
{
    if a < b {
        lemma_vreg_budget_mono(body, a, b - 1);
    }
}

/// The fresh ids that remain from `nv0` and `nl0` suffice to inline `callee`.
pub open spec fn ids_suffice(callee: IrFunction, nv0: u32, nl0: u32) -> bool {
    nv0 + vreg_budget(callee.body@, callee.body@.len() as int) + 2 < u32::MAX
        && nl0 + callee.body@.len() + 2 < u32::MAX
}

/// The instructions that replace one call of `callee`: stores of the
/// arguments to the parameter slots, the callee body after its parameter
/// preamble with vregs and labels renamed to fresh ids (returns become a
/// copy to the result vreg and a jump to a merge label), the merge label,
/// and a copy of the result to the call's destination.  Also returns the
/// next free vreg and label ids; `None` when the ids would run out.
#[verifier::rlimit(60)]
pub fn inline_call_site(callee: &IrFunction, call_args: &Vec<VReg>, call_dst: Option<VReg>, next_vreg: u32, next_label: u32)
    -> (r: Option<(Vec<IrInstr>, u32, u32)>)
    ensures
        r matches Some(t) ==> t.1 >= next_vreg && t.2 > next_label
            && t.0@.len() > 0 && t.0@[t.0@.len() - 1].op == (match call_dst {
                Some(d) => IrOp::Copy { dst: d, src: VReg { id: next_vreg, width: d.width } },
                None => IrOp::Label { label: Label(next_label) },
            }),
        r matches Some(t) ==> inlined_call(*callee, call_args@, call_dst, next_vreg, next_label, t.0@, t.1, t.2),
        ids_suffice(*callee, next_vreg, next_label) ==> r is Some,
        r matches Some(t) ==> t.1 <= next_vreg + 1 + vreg_budget(callee.body@, callee.body@.len() as int)
            && t.2 <= next_label + 1 + callee.body@.len(),
{
    proof {
        lemma_vreg_budget_mono(callee.body@, 0, callee.body@.len() as int);
    }
    if next_label == u32::MAX || next_vreg == u32::MAX {
        return None;
    }
    let ghost params = callee.params@;
    let ghost args = call_args@;
    let ghost ns = min_len(params.len() as int, args.len() as int);
    let mut nv: u32 = next_vreg;
    let mut nl: u32 = next_label;
    let mut result: Vec<IrInstr> = Vec::new();
    let mut vmap: AssocMap<u32, u32> = AssocMap::new();
    let mut lmap: AssocMap<u32, u32> = AssocMap::new();
    let merge = Label(nl);
    nl = nl + 1;
    let ret_vreg: Option<VReg> = match call_dst {
        Some(d) => {
            let rv = VReg { id: nv, width: d.width };
            nv = nv + 1;
            Some(rv)
        },
        None => None,
    };
    let ghost first = nv as int;
    let mut i: usize = 0;
    while i < callee.params.len()
        invariant
            vmap.wf(),
            i <= params.len(),
            params == callee.params@,
            args == call_args@,
            forall|j: int| 0 <= j < min_len(i as int, args.len() as int) && #[trigger] last_param_vreg(params, min_len(i as int, args.len() as int), j)
                ==> vmap@.contains_key(params[j].vreg.id) && vmap@[params[j].vreg.id] == args[j].id,
            forall|k: u32| #[trigger] vmap@.contains_key(k) ==> is_param_vreg(params, min_len(i as int, args.len() as int), k),
        decreases callee.params@.len() - i,
    {
        if i < call_args.len() {
            let ghost m0 = vmap@;
            vmap.insert(callee.params[i].vreg.id, call_args[i].id);
            proof {
                assert(min_len(i as int + 1, args.len() as int) == i + 1);
                assert(min_len(i as int, args.len() as int) == i);
                assert forall|j: int| 0 <= j < i + 1 && #[trigger] last_param_vreg(params, i + 1, j)
                    implies vmap@.contains_key(params[j].vreg.id) && vmap@[params[j].vreg.id] == args[j].id by {
                    if j < i {
                        assert(params[i as int].vreg.id != params[j].vreg.id);
                        assert(last_param_vreg(params, i as int, j));
                    }
                }
                assert forall|k: u32| #[trigger] vmap@.contains_key(k) implies is_param_vreg(params, i + 1, k) by {
                    if k == params[i as int].vreg.id {
                        assert(params[i as int].vreg.id == k);
                    } else {
                        assert(m0.contains_key(k));
                        let w = choose|w: int| 0 <= w < i && (#[trigger] params[w]).vreg.id == k;
                        assert(params[w].vreg.id == k);
                    }
                }
            }
        } else {
            assert(min_len(i as int + 1, args.len() as int) == min_len(i as int, args.len() as int));
        }
        i += 1;
    }
    assert(min_len(i as int, args.len() as int) == ns);
    let ghost vseed = vmap@;
    let mut param_labels: Vec<String> = Vec::new();
    i = 0;
    while i < callee.params.len()
        invariant
            i <= params.len(),
            params == callee.params@,
            param_labels@.len() == i,
            forall|k: int| 0 <= k < i ==> (#[trigger] param_labels@[k])@ == param_label(callee.name@, params[k].name@),
        decreases callee.params@.len() - i,
    {
        param_labels.push(make_param_label(callee.name.as_str(), callee.params[i].name.as_str()));
        i += 1;
    }
    i = 0;
    while i < callee.params.len()
        invariant
            i <= params.len(),
            params == callee.params@,
            args == call_args@,
            result@.len() == min_len(i as int, args.len() as int),
            forall|k: int| 0 <= k < result@.len() ==> (#[trigger] result@[k]).line == 0 && (result@[k].op matches IrOp::StoreGlobal { addr_label, src }
                && addr_label@ == param_label(callee.name@, params[k].name@) && src == args[k]),
        decreases callee.params@.len() - i,
    {
        if i < call_args.len() {
            let label = make_param_label(callee.name.as_str(), callee.params[i].name.as_str());
            result.push(IrInstr::bare(IrOp::StoreGlobal { addr_label: label, src: call_args[i] }));
            assert(min_len(i as int + 1, args.len() as int) == i + 1);
        } else {
            assert(min_len(i as int + 1, args.len() as int) == min_len(i as int, args.len() as int));
        }
        i += 1;
    }
    let ghost pre = result@;
    // Skip the callee's leading stores to its own parameter slots.
    let mut start: usize = 0;
    let mut in_preamble = true;
    while start < callee.body.len() && in_preamble
        invariant
            start <= callee.body@.len(),
            param_labels@.len() == callee.params@.len(),
            forall|k: int| 0 <= k < param_labels@.len() ==> (#[trigger] param_labels@[k])@ == param_label(callee.name@, callee.params@[k].name@),
            forall|j: int| 0 <= j < start ==> #[trigger] param_store(callee.body@[j], *callee),
            !in_preamble ==> start < callee.body@.len() && !param_store(callee.body@[start as int], *callee),
        decreases callee.body@.len() - start + (if in_preamble { 1int } else { 0int }),
    {
        let is_param_store = match &callee.body[start].op {
            IrOp::StoreGlobal { addr_label, .. } => {
                let found = contains_string(&param_labels, addr_label);
                proof {
                    if found {
                        let k = choose|k: int| 0 <= k < param_labels@.len() && (#[trigger] param_labels@[k])@ == addr_label@;
                        assert(addr_label@ == param_label(callee.name@, callee.params@[k].name@));
                    } else {
                        assert forall|p: int| 0 <= p < callee.params@.len()
                            implies addr_label@ != param_label(callee.name@, (#[trigger] callee.params@[p]).name@) by {
                            assert(param_labels@[p]@ == param_label(callee.name@, callee.params@[p].name@));
                        }
                    }
                }
                found
            },
            _ => false,
        };
        assert(is_param_store == param_store(callee.body@[start as int], *callee));
        if is_param_store {
            start += 1;
        } else {
            in_preamble = false;
        }
    }
    assert(preamble_end(*callee, start as int));
    let ghost mut segs: Seq<Seq<IrInstr>> = Seq::empty();
    proof {
        assert(result@ =~= pre + concat_all(segs));
        lemma_vreg_budget_mono(callee.body@, 0, start as int);
    }
    let mut k: usize = start;
    while k < callee.body.len()
        invariant
            vmap.wf(),
            lmap.wf(),
            start <= k <= callee.body@.len(),
            nv >= first,
            nl > next_label,
            first >= next_vreg,
            first <= next_vreg + 1,
            k <= callee.body@.len(),
            merge == Label(next_label),
            ret_vreg == (match call_dst { Some(d) => Some(VReg { id: next_vreg, width: d.width }), None => None }),
            result@ == pre + concat_all(segs),
            segs.len() == k - start,
            forall|j: int| 0 <= j < segs.len() ==> #[trigger] inlined_instr(callee.body@[start + j], segs[j], vmap@, lmap@, ret_vreg, merge)
                && inline_covered(callee.body@[start + j], vmap@, lmap@, ret_vreg),
            keeps(vseed, vmap@),
            forall|x: u32| #[trigger] vmap@.contains_key(x) && !vseed.contains_key(x) ==> first <= vmap@[x] < nv,
            forall|x: u32| #[trigger] lmap@.contains_key(x) ==> next_label < lmap@[x] < nl,
            nv as int <= first + vreg_budget(callee.body@, k as int),
            nl as int <= next_label + 1 + k,
        decreases callee.body@.len() - k,
    {
        let ghost vm1 = vmap@;
        let ghost lm1 = lmap@;
        let ghost instr = callee.body@[k as int];
        let ghost mut seg: Seq<IrInstr> = Seq::empty();
        match &callee.body[k].op {
            IrOp::Return { value } => {
                match (value, ret_vreg) {
                    (Some(v), Some(rv)) => {
                        proof {
                            if ids_suffice(*callee, next_vreg, next_label) {
                                lemma_vreg_budget_mono(callee.body@, k + 1, callee.body@.len() as int);
                            }
                        }
                        if nv == u32::MAX {
                            return None;
                        }
                        let src = remap_vreg(*v, &mut vmap, &mut nv);
                        result.push(IrInstr::bare(IrOp::Copy { dst: rv, src }));
                        proof {
                            seg = seq![
                                IrInstr { op: IrOp::Copy { dst: rv, src: rn_v(*v, vmap@) }, line: 0 },
                                IrInstr { op: IrOp::Jump { target: merge }, line: 0 },
                            ];
                        }
                    },
                    _ => {
                        proof {
                            seg = seq![IrInstr { op: IrOp::Jump { target: merge }, line: 0 }];
                        }
                    },
                }
                result.push(IrInstr::bare(IrOp::Jump { target: merge }));
            },
            op => {
                let srcs = collect_src_vregs(op);
                proof {
                    assert(srcs@.len() == op_srcs(*op).len());
                    if ids_suffice(*callee, next_vreg, next_label) {
                        lemma_vreg_budget_mono(callee.body@, k + 1, callee.body@.len() as int);
                        lemma_vreg_budget_mono(callee.body@, 0, k as int);
                    }
                }
                if (srcs.len() as u64) < 0x1_0000_0000u64 && (nv as u64) + (srcs.len() as u64) + 1 < u32::MAX as u64
                    && nl < u32::MAX {
                    let new_op = remap_op(op, &mut vmap, &mut lmap, &mut nv, &mut nl);
                    let line = callee.body[k].line;
                    result.push(IrInstr { op: new_op, line });
                    proof {
                        seg = seq![IrInstr { op: new_op, line }];
                    }
                } else {
                    return None;
                }
            },
        }
        proof {
            assert(keeps(vm1, vmap@));
            assert(keeps(lm1, lmap@));
            assert(inlined_instr(instr, seg, vmap@, lmap@, ret_vreg, merge));
            assert(inline_covered(instr, vmap@, lmap@, ret_vreg));
            assert forall|j: int| 0 <= j < segs.len() implies #[trigger] inlined_instr(callee.body@[start + j], segs[j], vmap@, lmap@, ret_vreg, merge)
                && inline_covered(callee.body@[start + j], vmap@, lmap@, ret_vreg) by {
                assert(inlined_instr(callee.body@[start + j], segs[j], vm1, lm1, ret_vreg, merge));
                lemma_inlined_grows(callee.body@[start + j], segs[j], vm1, lm1, vmap@, lmap@, ret_vreg, merge);
            }
            assert(segs.push(seg).drop_last() =~= segs);
            assert(result@ =~= pre + concat_all(segs.push(seg)));
            segs = segs.push(seg);
        }
        k += 1;
    }
    let ghost mid = result@;
    result.push(IrInstr::bare(IrOp::Label { label: merge }));
    match (call_dst, ret_vreg) {
        (Some(d), Some(rv)) => {
            result.push(IrInstr::bare(IrOp::Copy { dst: d, src: rv }));
        },
        _ => {},
    }
    proof {
        let tail: int = if call_dst is Some { 2 } else { 1 };
        assert(result@.subrange(ns, result@.len() - tail) =~= concat_all(segs));
        assert(forall|i: int| 0 <= i < ns ==> result@[i] == pre[i]);
        assert forall|x: u32| #[trigger] vmap@.contains_key(x) && !is_param_vreg(params, ns, x) implies first <= vmap@[x] < nv by {
            if vseed.contains_key(x) {
            }
        }
        assert(seeded(vmap@, params, args, ns, first, nv as int));
        assert(inlined_with(*callee, call_args@, call_dst, next_vreg, next_label, result@, nv, nl, vmap@, lmap@, start as int, segs));
        assert(inlined_call(*callee, call_args@, call_dst, next_vreg, next_label, result@, nv, nl));
    }
    Some((result, nv, nl))
}

/// Find a name in a list of names.
fn index_of_name(v: &Vec<String>, s: &String) -> (r: Option<usize>)
    ensures
        r matches Some(i) ==> i < v@.len() && v@[i as int]@ == s@,
        r is None ==> forall|k: int| 0 <= k < v@.len() ==> (#[trigger] v@[k])@ != s@,
{
    let mut i: usize = 0;
    while i < v.len()
        invariant
            i <= v@.len(),
            forall|k: int| 0 <= k < i ==> (#[trigger] v@[k])@ != s@,
        decreases v@.len() - i,
    {
        if v[i] == *s {
            return Some(i);
        }
        i += 1;
    }
    None
}

/// The index of the last function with the given name.
pub fn last_function_named(funcs: &Vec<IrFunction>, name: &String) -> (r: Option<usize>)
    ensures
        r matches Some(i) ==> i < funcs@.len() && funcs@[i as int].name@ == name@
            && forall|k: int| i < k < funcs@.len() ==> (#[trigger] funcs@[k]).name@ != name@,
        r is None ==> forall|k: int| 0 <= k < funcs@.len() ==> (#[trigger] funcs@[k]).name@ != name@,
{
    let mut i: usize = funcs.len();
    while i > 0
        invariant
            i <= funcs@.len(),
            forall|k: int| i <= k < funcs@.len() ==> (#[trigger] funcs@[k]).name@ != name@,
        decreases i,
    {
        i -= 1;
        if funcs[i].name == *name {
            return Some(i);
        }
    }
    None
}

/// A function that may be inlined: not `main`, at most
/// [`INLINE_THRESHOLD`] instructions, not directly recursive, no assembly.
pub open spec fn spec_inline_candidate(f: IrFunction) -> bool {
    f.name@ != seq!['m', 'a', 'i', 'n'] && f.body@.len() <= INLINE_THRESHOLD && !spec_calls_self(f) && !f.is_asm_body
        && !spec_has_inline_asm(f)
}

/// Some function of `fs` named `n` may be inlined.
pub open spec fn candidate_name(fs: Seq<IrFunction>, n: Seq<char>) -> bool {
    exists|j: int| 0 <= j < fs.len() && #[trigger] spec_inline_candidate(fs[j]) && fs[j].name@ == n
}

/// The instruction calls the function named `n`.
pub open spec fn calls_name(ins: IrInstr, n: Seq<char>) -> bool {
    ins.op matches IrOp::Call { func_name, .. } && func_name@ == n
}

/// Whether a function may be inlined: not `main`, at most
/// [`INLINE_THRESHOLD`] instructions, not directly recursive, no assembly.
pub fn is_inline_candidate(f: &IrFunction) -> (r: bool)
    ensures
        r == spec_inline_candidate(*f),
{
    proof {
        reveal_strlit("main");
    }
    let main = String::from_str("main");
    assert(main@ == seq!['m', 'a', 'i', 'n']);
    let is_main = f.name == main;
    !is_main && f.body.len() <= INLINE_THRESHOLD && !calls_self(f) && !f.is_asm_body && !has_inline_asm(f)
}

/// `c` is a copy of the last function of `fs` named `n`, a name of a
/// function that may be inlined.
pub open spec fn callee_copy(fs: Seq<IrFunction>, n: Seq<char>, c: IrFunction) -> bool {
    exists|j: int| #[trigger] last_named(fs, n, j) && same_function(c, fs[j]) && candidate_name(fs, n)
}

/// `seg` is the expansion of the call `ins` under the copy `c` of the last
/// function of `fs` named by the call, a function that may be inlined.
pub open spec fn inlined_by(fs: Seq<IrFunction>, ins: IrInstr, seg: Seq<IrInstr>, j: int, c: IrFunction,
    nv0: u32, nl0: u32, nv: u32, nl: u32) -> bool {
    ins.op matches IrOp::Call { func_name, args, dst }
        && last_named(fs, func_name@, j) && candidate_name(fs, func_name@) && same_function(c, fs[j])
        && inlined_call(c, args@, dst, nv0, nl0, seg, nv, nl)
}

/// `seg` is what the instruction `ins` of a caller becomes: itself, or,
/// for a call of a function that may be inlined, its expansion.
pub open spec fn inlined_site(fs: Seq<IrFunction>, ins: IrInstr, seg: Seq<IrInstr>) -> bool {
    (seg.len() == 1 && same_instr(seg[0], ins))
    || exists|j: int, c: IrFunction, nv0: u32, nl0: u32, nv: u32, nl: u32|
        #[trigger] inlined_by(fs, ins, seg, j, c, nv0, nl0, nv, nl)
}

/// `new` is the body `old` with some of its calls of functions of `fs`
/// that may be inlined replaced by their expansions.
pub open spec fn body_inlined(fs: Seq<IrFunction>, old: Seq<IrInstr>, new: Seq<IrInstr>) -> bool {
    exists|segs: Seq<Seq<IrInstr>>| #![trigger concat_all(segs)] segs.len() == old.len() && same_body(new, concat_all(segs))
        && forall|t: int| 0 <= t < old.len() ==> #[trigger] inlined_site(fs, old[t], segs[t])
}

/// Each instruction is the same as itself, so a body is the same as itself.
pub proof fn lemma_same_body_refl(a: Seq<IrInstr>)
    ensures
        same_body(a, a),
{
    assert forall|i: int| 0 <= i < a.len() implies #[trigger] same_instr(a[i], a[i]) by {
        crate::ir::lemma_same_instr_refl(a[i]);
    }
}

/// The one-instruction blocks of the first `n` instructions of `body`
/// concatenate to those instructions.
proof fn lemma_concat_singletons(body: Seq<IrInstr>, n: int)
    requires
        0 <= n <= body.len(),
    ensures
        concat_all(Seq::new(n as nat, |t: int| seq![body[t]])) == body.take(n),
    decreases n,
{
    let segs = Seq::new(n as nat, |t: int| seq![body[t]]);
    if n == 0 {
        assert(concat_all(segs) =~= body.take(0));
    } else {
        lemma_concat_singletons(body, n - 1);
        assert(segs.drop_last() =~= Seq::new((n - 1) as nat, |t: int| seq![body[t]]));
        assert(body.take(n) =~= body.take(n - 1) + seq![body[n - 1]]);
    }
}

/// The instruction calls a function that may be inlined.
pub open spec fn is_candidate_call(fs: Seq<IrFunction>, ins: IrInstr) -> bool {
    ins.op matches IrOp::Call { func_name, .. } && candidate_name(fs, func_name@)
}

/// The fresh vreg and label ids that expanding `ins` may take: the budget
/// of the last function of the name it calls, when it calls a function that
/// may be inlined.
pub open spec fn site_cost(fs: Seq<IrFunction>, ins: IrInstr) -> (int, int) {
    match ins.op {
        IrOp::Call { func_name, .. } => if candidate_name(fs, func_name@) {
            let j = choose|j: int| last_named(fs, func_name@, j);
            (vreg_budget(fs[j].body@, fs[j].body@.len() as int) + 2, fs[j].body@.len() as int + 2)
        } else {
            (0, 0)
        },
        _ => (0, 0),
    }
}

/// The ids that expanding the first `n` instructions of `body` may take.
pub open spec fn body_cost(fs: Seq<IrFunction>, body: Seq<IrInstr>, n: int) -> (int, int)
    decreases n,
{
    if n <= 0 {
        (0, 0)
    } else {
        let c = body_cost(fs, body, n - 1);
        let s = site_cost(fs, body[n - 1]);
        (c.0 + s.0, c.1 + s.1)
    }
}

/// The ids that expanding the first `n` functions of `fs` may take.
pub open spec fn prog_cost(fs: Seq<IrFunction>, n: int) -> (int, int)
    decreases n,
{
    if n <= 0 {
        (0, 0)
    } else {
        let c = prog_cost(fs, n - 1);
        let b = body_cost(fs, fs[n - 1].body@, fs[n - 1].body@.len() as int);
        (c.0 + b.0, c.1 + b.1)
    }
}

/// Every vreg written in `fs` has an id below `d`, every label placed one
/// below `l`.
pub open spec fn ids_below(fs: Seq<IrFunction>, d: int, l: int) -> bool {
    forall|k: int, t: int| 0 <= k < fs.len() && 0 <= t < fs[k].body@.len() ==>
        (op_dst((#[trigger] fs[k].body@[t]).op) matches Some(v) ==> v.id < d)
        && (fs[k].body@[t].op matches IrOp::Label { label } ==> label.0 < l)
}

/// The fresh ids left above those of `fs` suffice for expanding every call
/// of a function that may be inlined.
#[verifier::opaque]
pub open spec fn inline_room(fs: Seq<IrFunction>) -> bool {
    exists|d: int, l: int| #[trigger] ids_below(fs, d, l) && d >= 0 && l >= 0
        && d + prog_cost(fs, fs.len() as int).0 + 2 < u32::MAX && l + prog_cost(fs, fs.len() as int).1 + 2 < u32::MAX
}

/// `seg` is what the instruction `ins` of a caller becomes when every call
/// of a function that may be inlined is expanded: its expansion, or, for
/// any other instruction, itself.
pub open spec fn inlined_site_full(fs: Seq<IrFunction>, ins: IrInstr, seg: Seq<IrInstr>) -> bool {
    if is_candidate_call(fs, ins) {
        exists|j: int, c: IrFunction, nv0: u32, nl0: u32, nv: u32, nl: u32|
            #[trigger] inlined_by(fs, ins, seg, j, c, nv0, nl0, nv, nl)
    } else {
        seg.len() == 1 && same_instr(seg[0], ins)
    }
}

/// `new` is the body `old` with every call of a function of `fs` that may
/// be inlined replaced by its expansion.
#[verifier::opaque]
pub open spec fn body_fully_inlined(fs: Seq<IrFunction>, old: Seq<IrInstr>, new: Seq<IrInstr>) -> bool {
    exists|segs: Seq<Seq<IrInstr>>| #![trigger concat_all(segs)] segs.len() == old.len() && same_body(new, concat_all(segs))
        && forall|t: int| 0 <= t < old.len() ==> #[trigger] inlined_site_full(fs, old[t], segs[t])
}

proof fn lemma_body_cost_mono(fs: Seq<IrFunction>, body: Seq<IrInstr>, a: int, b: int)
    requires
        0 <= a <= b <= body.len(),
    ensures
        body_cost(fs, body, a).0 <= body_cost(fs, body, b).0,
        body_cost(fs, body, a).1 <= body_cost(fs, body, b).1,
        body_cost(fs, body, a).0 >= 0,
        body_cost(fs, body, a).1 >= 0,
    decreases b,
{
    if b > 0 {
        let ins = body[b - 1];
        if ins.op is Call {
            match ins.op {
                IrOp::Call { func_name, .. } => {
                    if candidate_name(fs, func_name@) {
                        let j = choose|j: int| last_named(fs, func_name@, j);
                        lemma_vreg_budget_mono(fs[j].body@, 0, fs[j].body@.len() as int);
                    }
                },
                _ => {},
            }
        }
        if a < b {
            lemma_body_cost_mono(fs, body, a, b - 1);
        } else {
            lemma_body_cost_mono(fs, body, a - 1, b - 1);
        }
    }
}

proof fn lemma_prog_cost_mono(fs: Seq<IrFunction>, a: int, b: int)
    requires
        0 <= a <= b <= fs.len(),
    ensures
        prog_cost(fs, a).0 <= prog_cost(fs, b).0,
        prog_cost(fs, a).1 <= prog_cost(fs, b).1,
        prog_cost(fs, a).0 >= 0,
        prog_cost(fs, a).1 >= 0,
    decreases b,
{
    if b > 0 {
        lemma_body_cost_mono(fs, fs[b - 1].body@, 0, fs[b - 1].body@.len() as int);
        if a < b {
            lemma_prog_cost_mono(fs, a, b - 1);
        } else {
            lemma_prog_cost_mono(fs, a - 1, b - 1);
        }
    }
}

/// Bodies that are the same instruction by instruction have equal budgets.
proof fn lemma_vreg_budget_same(a: Seq<IrInstr>, b: Seq<IrInstr>, n: int)
    requires
        same_body(a, b),
        0 <= n <= a.len(),
    ensures
        vreg_budget(a, n) == vreg_budget(b, n),
    decreases n,
{
    if n > 0 {
        lemma_vreg_budget_same(a, b, n - 1);
        assert(same_instr(a[n - 1], b[n - 1]));
        assert(op_srcs(a[n - 1].op) == op_srcs(b[n - 1].op));
    }
}

/// Every body is an inlining of itself (no call expanded).
pub proof fn lemma_body_inlined_refl(fs: Seq<IrFunction>, body: Seq<IrInstr>)
    ensures
        body_inlined(fs, body, body),
{
    let segs = Seq::new(body.len(), |t: int| seq![body[t]]);
    lemma_concat_singletons(body, body.len() as int);
    assert(body.take(body.len() as int) =~= body);
    lemma_same_body_refl(body);
    assert forall|t: int| 0 <= t < body.len() implies #[trigger] inlined_site(fs, body[t], segs[t]) by {
        crate::ir::lemma_same_instr_refl(body[t]);
    }
    assert(same_body(body, concat_all(segs)));
}

/// One of the names is `n`.
pub open spec fn has_callee_name(names: Seq<String>, n: Seq<char>) -> bool {
    exists|e: int| 0 <= e < names.len() && (#[trigger] names[e])@ == n
}

/// A body without calls of functions that may be inlined is its own full
/// inlining.
pub proof fn lemma_body_fully_refl(fs: Seq<IrFunction>, body: Seq<IrInstr>)
    requires
        forall|t: int| 0 <= t < body.len() ==> !is_candidate_call(fs, #[trigger] body[t]),
    ensures
        body_fully_inlined(fs, body, body),
{
    reveal(body_fully_inlined);
    let segs = Seq::new(body.len(), |t: int| seq![body[t]]);
    lemma_concat_singletons(body, body.len() as int);
    assert(body.take(body.len() as int) =~= body);
    lemma_same_body_refl(body);
    assert forall|t: int| 0 <= t < body.len() implies #[trigger] inlined_site_full(fs, body[t], segs[t]) by {
        crate::ir::lemma_same_instr_refl(body[t]);
        assert(!is_candidate_call(fs, body[t]));
    }
    assert(same_body(body, concat_all(segs)));
}

/// An unchanged program keeps every function, header and body.
proof fn lemma_program_inlined_refl(a: IrProgram, b: IrProgram)
    requires
        a.functions@ == b.functions@,
    ensures
        forall|k: int| 0 <= k < b.functions@.len() ==> exists|j: int| 0 <= j < a.functions@.len()
            && (#[trigger] b.functions@[k]).name@ == a.functions@[j].name@
            && same_header(a.functions@[j], b.functions@[k])
            && body_inlined(a.functions@, a.functions@[j].body@, b.functions@[k].body@),
{
    assert forall|k: int| 0 <= k < b.functions@.len() implies exists|j: int| 0 <= j < a.functions@.len()
        && (#[trigger] b.functions@[k]).name@ == a.functions@[j].name@
        && same_header(a.functions@[j], b.functions@[k])
        && body_inlined(a.functions@, a.functions@[j].body@, b.functions@[k].body@) by {
        lemma_body_inlined_refl(a.functions@, a.functions@[k].body@);
        assert(same_header(a.functions@[k], b.functions@[k]));
    }
}

/// The names of the functions that may be inlined.
fn collect_candidates(program: &IrProgram) -> (candidates: Vec<String>)
    ensures
        forall|c: int| 0 <= c < candidates@.len() ==> #[trigger] candidate_name(program.functions@, candidates@[c]@),
        forall|j: int| 0 <= j < program.functions@.len() && #[trigger] spec_inline_candidate(program.functions@[j])
            ==> exists|c: int| 0 <= c < candidates@.len() && candidates@[c]@ == program.functions@[j].name@,
{
    let ghost fs0 = program.functions@;
    let mut candidates: Vec<String> = Vec::new();
    let mut i: usize = 0;
    while i < program.functions.len()
        invariant
            program.functions@ == fs0,
            i <= fs0.len(),
            forall|c: int| 0 <= c < candidates@.len() ==> #[trigger] candidate_name(fs0, candidates@[c]@),
            forall|j: int| 0 <= j < i && #[trigger] spec_inline_candidate(fs0[j]) ==> exists|c: int| 0 <= c < candidates@.len() && candidates@[c]@ == fs0[j].name@,
        decreases program.functions@.len() - i,
    {
        let ghost c0 = candidates@;
        if is_inline_candidate(&program.functions[i]) {
            assert(spec_inline_candidate(fs0[i as int]));
            candidates.push(program.functions[i].name.clone());
            assert(candidates@[c0.len() as int]@ == fs0[i as int].name@);
        }
        proof {
            assert forall|j: int| 0 <= j < i + 1 && #[trigger] spec_inline_candidate(fs0[j]) implies exists|c: int| 0 <= c < candidates@.len() && candidates@[c]@ == fs0[j].name@ by {
                if j < i {
                    let c = choose|c: int| 0 <= c < c0.len() && c0[c]@ == fs0[j].name@;
                    assert(candidates@[c] == c0[c]);
                }
            }
        }
        i += 1;
    }
    candidates
}

/// The first vreg and label ids above those of the program: below any
/// bounds on its ids.
fn id_bases(program: &IrProgram) -> (r: (u64, u64))
    ensures
        r.0 <= u32::MAX as u64 + 1,
        r.1 <= u32::MAX as u64 + 1,
        forall|d: int, l: int| #[trigger] ids_below(program.functions@, d, l) && d >= 0 && l >= 0 ==> r.0 <= d && r.1 <= l,
{
    let ghost fs0 = program.functions@;
    // Fresh ids start past every vreg written and every label placed.
    let mut vb: u64 = 0;
    let mut lb: u64 = 0;
    let mut i: usize = 0;
    while i < program.functions.len()
        invariant
            program.functions@ == fs0,
            vb <= u32::MAX as u64 + 1,
            lb <= u32::MAX as u64 + 1,
            forall|d: int, l: int| #[trigger] ids_below(fs0, d, l) && d >= 0 && l >= 0 ==> vb <= d && lb <= l,
        decreases program.functions@.len() - i,
    {
        let f = &program.functions[i];
        let mut k: usize = 0;
        while k < f.body.len()
            invariant
                program.functions@ == fs0,
                i < fs0.len(),
                *f == fs0[i as int],
                vb <= u32::MAX as u64 + 1,
                lb <= u32::MAX as u64 + 1,
                forall|d: int, l: int| #[trigger] ids_below(fs0, d, l) && d >= 0 && l >= 0 ==> vb <= d && lb <= l,
            decreases f.body@.len() - k,
        {
            proof {
                assert forall|d: int, l: int| #[trigger] ids_below(fs0, d, l) && d >= 0 && l >= 0 implies
                    (op_dst(f.body@[k as int].op) matches Some(v) ==> v.id < d)
                    && (f.body@[k as int].op matches IrOp::Label { label } ==> label.0 < l) by {
                    assert(fs0[i as int].body@[k as int] == f.body@[k as int]);
                }
            }
            match get_dst_vreg(&f.body[k].op) {
                Some(d) => {
                    if d.id as u64 + 1 > vb {
                        vb = d.id as u64 + 1;
                    }
                },
                None => {},
            }
            match &f.body[k].op {
                IrOp::Label { label } => {
                    if label.0 as u64 + 1 > lb {
                        lb = label.0 as u64 + 1;
                    }
                },
                _ => {},
            }
            k += 1;
        }
        i += 1;
    }
    (vb, lb)
}

/// Copies of the last function of each candidate name, taken before any
/// inlining, with their names.
fn snapshot_callees(program: &IrProgram, candidates: &Vec<String>) -> (r: (Vec<String>, Vec<IrFunction>))
    requires
        forall|c: int| 0 <= c < candidates@.len() ==> #[trigger] candidate_name(program.functions@, candidates@[c]@),
    ensures
        r.0@.len() == r.1@.len(),
        forall|c: int| 0 <= c < r.1@.len() ==> #[trigger] callee_copy(program.functions@, r.0@[c]@, r.1@[c]),
        forall|c: int| 0 <= c < candidates@.len() ==> #[trigger] has_callee_name(r.0@, candidates@[c]@),
{
    let ghost fs0 = program.functions@;
    // Snapshots of the callees, taken before any inlining.
    let mut callee_names: Vec<String> = Vec::new();
    let mut callees: Vec<IrFunction> = Vec::new();
    let mut i: usize = 0;
    while i < candidates.len()
        invariant
            program.functions@ == fs0,
            callee_names@.len() == callees@.len(),
            forall|c: int| 0 <= c < candidates@.len() ==> #[trigger] candidate_name(fs0, candidates@[c]@),
            forall|c: int| 0 <= c < callees@.len() ==> #[trigger] callee_copy(fs0, callee_names@[c]@, callees@[c]),
            i <= candidates@.len(),
            forall|c: int| 0 <= c < i ==> #[trigger] has_callee_name(callee_names@, candidates@[c]@),
        decreases candidates@.len() - i,
    {
        let ghost cn_before = callee_names@;
        proof {
            assert(candidate_name(fs0, candidates@[i as int]@));
        }
        match last_function_named(&program.functions, &candidates[i]) {
            Some(fi) => {
                if index_of_name(&callee_names, &candidates[i]).is_none() {
                    let ghost cn0 = callee_names@;
                    let ghost cs0 = callees@;
                    let cname = candidates[i].clone();
                    let copy = program.functions[fi].clone();
                    proof {
                        assert(candidate_name(fs0, candidates@[i as int]@));
                        assert(last_named(fs0, cname@, fi as int));
                        assert(callee_copy(fs0, cname@, copy));
                    }
                    callee_names.push(cname);
                    callees.push(copy);
                    proof {
                        assert forall|c: int| 0 <= c < callees@.len() implies #[trigger] callee_copy(fs0, callee_names@[c]@, callees@[c]) by {
                            if c < cs0.len() {
                                assert(callee_names@[c] == cn0[c] && callees@[c] == cs0[c]);
                            }
                        }
                    }
                }
            },
            None => {
                proof {
                    let j = choose|j: int| 0 <= j < fs0.len() && #[trigger] spec_inline_candidate(fs0[j]) && fs0[j].name@ == candidates@[i as int]@;
                    assert(fs0[j].name@ != candidates@[i as int]@);
                }
            },
        }
        proof {
            assert forall|c: int| 0 <= c < i + 1 implies #[trigger] has_callee_name(callee_names@, candidates@[c]@) by {
                if c < i {
                    assert(has_callee_name(cn_before, candidates@[c]@));
                    let e = choose|e: int| 0 <= e < cn_before.len() && (#[trigger] cn_before[e])@ == candidates@[c]@;
                    assert(callee_names@[e] == cn_before[e]);
                } else if exists|e: int| 0 <= e < cn_before.len() && (#[trigger] cn_before[e])@ == candidates@[c]@ {
                    let e = choose|e: int| 0 <= e < cn_before.len() && (#[trigger] cn_before[e])@ == candidates@[c]@;
                    assert(callee_names@[e] == cn_before[e]);
                } else {
                    assert(callee_names@[cn_before.len() as int]@ == candidates@[c]@);
                }
            }
        }
        i += 1;
    }
    (callee_names, callees)
}

/// Expand, in one function, the calls of the functions whose copies are
/// given, with fresh ids from `next_vreg` and `next_label` on.
#[verifier::rlimit(60)]
fn inline_into(f: &mut IrFunction, callee_names: &Vec<String>, callees: &Vec<IrFunction>, next_vreg: &mut u32,
    next_label: &mut u32, Ghost(fs0): Ghost<Seq<IrFunction>>)
    requires
        callee_names@.len() == callees@.len(),
        forall|c: int| 0 <= c < callees@.len() ==> #[trigger] callee_copy(fs0, callee_names@[c]@, callees@[c]),
        forall|n: Seq<char>| #[trigger] candidate_name(fs0, n) ==> has_callee_name(callee_names@, n),
    ensures
        same_header(*old(f), *final(f)),
        body_inlined(fs0, old(f).body@, final(f).body@),
        *final(next_vreg) >= *old(next_vreg),
        *final(next_label) >= *old(next_label),
        *final(next_vreg) <= *old(next_vreg) + body_cost(fs0, old(f).body@, old(f).body@.len() as int).0,
        *final(next_label) <= *old(next_label) + body_cost(fs0, old(f).body@, old(f).body@.len() as int).1,
        *old(next_vreg) + body_cost(fs0, old(f).body@, old(f).body@.len() as int).0 < u32::MAX
            && *old(next_label) + body_cost(fs0, old(f).body@, old(f).body@.len() as int).1 < u32::MAX
            ==> body_fully_inlined(fs0, old(f).body@, final(f).body@),
{
    let ghost fh = *f;
    proof {
        reveal(body_fully_inlined);
    }
    let ghost vs0 = *next_vreg;
    let ghost ls0 = *next_label;
    let ghost bc = body_cost(fs0, fh.body@, fh.body@.len() as int);
    let ghost room = vs0 + bc.0 < u32::MAX && ls0 + bc.1 < u32::MAX;
    let mut new_body: Vec<IrInstr> = Vec::new();
    let mut did_inline = false;
    let ghost mut segs: Seq<Seq<IrInstr>> = Seq::empty();
    let ghost mut segs_id: Seq<Seq<IrInstr>> = Seq::empty();
    proof {
        assert(new_body@ =~= concat_all(segs));
        assert(f.body@.take(0) =~= concat_all(segs_id));
    }
    let mut k: usize = 0;
    while k < f.body.len()
        invariant
            callee_names@.len() == callees@.len(),
            forall|c: int| 0 <= c < callees@.len() ==> #[trigger] callee_copy(fs0, callee_names@[c]@, callees@[c]),
            k <= f.body@.len(),
            new_body@ == concat_all(segs),
            segs.len() == k,
            forall|t: int| 0 <= t < k ==> #[trigger] inlined_site(fs0, f.body@[t], segs[t]),
            concat_all(segs_id) == f.body@.take(k as int),
            segs_id.len() == k,
            forall|t: int| 0 <= t < k ==> #[trigger] inlined_site(fs0, f.body@[t], segs_id[t]),
            *f == fh,
            forall|n: Seq<char>| #[trigger] candidate_name(fs0, n) ==> has_callee_name(callee_names@, n),
            vs0 <= *next_vreg <= vs0 + body_cost(fs0, fh.body@, k as int).0,
            ls0 <= *next_label <= ls0 + body_cost(fs0, fh.body@, k as int).1,
            bc == body_cost(fs0, fh.body@, fh.body@.len() as int),
            room == (vs0 + bc.0 < u32::MAX && ls0 + bc.1 < u32::MAX),
            room ==> forall|t: int| 0 <= t < k ==> #[trigger] inlined_site_full(fs0, f.body@[t], segs[t]),
            room && !did_inline ==> forall|t: int| 0 <= t < k ==> !is_candidate_call(fs0, #[trigger] f.body@[t]),
        decreases f.body@.len() - k,
    {
        let mut inlined = false;
        let ghost nb0 = new_body@;
        let ghost mut seg: Seq<IrInstr> = Seq::empty();
        let ghost ins = f.body@[k as int];
        proof {
            lemma_body_cost_mono(fs0, fh.body@, k as int + 1, fh.body@.len() as int);
            lemma_body_cost_mono(fs0, fh.body@, k as int, k as int + 1);
        }
        match &f.body[k].op {
            IrOp::Call { func_name, args, dst } => {
                match index_of_name(&callee_names, func_name) {
                    Some(ci) => {
                        let ghost v0 = *next_vreg;
                        let ghost l0 = *next_label;
                        let ghost c = callees@[ci as int];
                        proof {
                            assert(callee_copy(fs0, callee_names@[ci as int]@, c));
                            let j = choose|j: int| #[trigger] last_named(fs0, callee_names@[ci as int]@, j)
                                && same_function(c, fs0[j]) && candidate_name(fs0, callee_names@[ci as int]@);
                            let j2 = choose|j2: int| last_named(fs0, func_name@, j2);
                            lemma_last_named_unique(fs0, func_name@, j, j2);
                            lemma_vreg_budget_same(c.body@, fs0[j].body@, c.body@.len() as int);
                            lemma_vreg_budget_mono(c.body@, 0, c.body@.len() as int);
                            assert(site_cost(fs0, ins) == (vreg_budget(c.body@, c.body@.len() as int) + 2, c.body@.len() as int + 2));
                            if room {
                                assert(ids_suffice(c, v0, l0));
                            }
                        }
                        match inline_call_site(&callees[ci], args, *dst, *next_vreg, *next_label) {
                            Some((seq, nv, nl)) => {
                                proof {
                                    let j = choose|j: int| #[trigger] last_named(fs0, callee_names@[ci as int]@, j)
                                        && same_function(c, fs0[j]) && candidate_name(fs0, callee_names@[ci as int]@);
                                    assert(inlined_by(fs0, f.body@[k as int], seq@, j, c, v0, l0, nv, nl));
                                    seg = seq@;
                                }
                                *next_vreg = nv;
                                *next_label = nl;
                                let mut s = seq;
                                new_body.append(&mut s);
                                did_inline = true;
                                inlined = true;
                            },
                            None => {},
                        }
                    },
                    None => {
                        proof {
                            if candidate_name(fs0, func_name@) {
                                assert(has_callee_name(callee_names@, func_name@));
                                let e = choose|e: int| 0 <= e < callee_names@.len() && (#[trigger] callee_names@[e])@ == func_name@;
                            }
                            assert(site_cost(fs0, ins) == (0int, 0int));
                        }
                    },
                }
            },
            _ => {
                assert(site_cost(fs0, ins) == (0int, 0int));
            },
        }
        if !inlined {
            let c = f.body[k].clone();
            proof {
                seg = seq![c];
            }
            new_body.push(c);
        }
        proof {
            assert(inlined_site(fs0, f.body@[k as int], seg));
            if room {
                assert(inlined_site_full(fs0, f.body@[k as int], seg));
                assert forall|t: int| 0 <= t < k + 1 implies #[trigger] inlined_site_full(fs0, f.body@[t], segs.push(seg)[t]) by {
                    if t < k {
                        assert(segs.push(seg)[t] == segs[t]);
                    }
                }
            }
            assert(segs.push(seg).drop_last() =~= segs);
            assert(new_body@ =~= concat_all(segs.push(seg)));
            segs = segs.push(seg);
            let one = seq![f.body@[k as int]];
            crate::ir::lemma_same_instr_refl(f.body@[k as int]);
            assert(inlined_site(fs0, f.body@[k as int], one));
            assert(segs_id.push(one).drop_last() =~= segs_id);
            assert(f.body@.take(k + 1) =~= f.body@.take(k as int) + one);
            segs_id = segs_id.push(one);
        }
        k += 1;
    }
    proof {
        assert(f.body@.take(f.body@.len() as int) =~= f.body@);
    }
    if did_inline {
        f.body = new_body;
        proof {
            lemma_same_body_refl(f.body@);
            assert(body_inlined(fs0, fh.body@, f.body@));
            if room {
                assert(body_fully_inlined(fs0, fh.body@, f.body@));
            }
        }
    } else {
        proof {
            lemma_same_body_refl(f.body@);
            assert(body_inlined(fs0, fh.body@, f.body@));
            if room {
                assert forall|t: int| 0 <= t < fh.body@.len() implies #[trigger] inlined_site_full(fs0, fh.body@[t], segs_id[t]) by {
                    assert(!is_candidate_call(fs0, f.body@[t]));
                    assert(inlined_site(fs0, f.body@[t], segs_id[t]));
                    crate::ir::lemma_same_instr_refl(f.body@[t]);
                }
                assert(body_fully_inlined(fs0, fh.body@, f.body@));
            }
        }
    }
    proof {
        assert(same_header(fh, *f));
    }
}

/// The functions kept from `olds`, a function-by-function inlining of
/// `fs0`, keep the names, headers and inlined bodies of functions of `fs0`.
proof fn lemma_kept_functions(fs0: Seq<IrFunction>, olds: Seq<IrFunction>, fin: Seq<IrFunction>, src: Seq<int>)
    requires
        olds.len() == fs0.len(),
        src.len() == fin.len(),
        forall|k: int| 0 <= k < fin.len() ==> 0 <= #[trigger] src[k] < olds.len() && fin[k] == olds[src[k]],
        forall|k: int| 0 <= k < olds.len() ==> #[trigger] same_header(fs0[k], olds[k]),
        forall|k: int| 0 <= k < olds.len() ==> #[trigger] body_inlined(fs0, fs0[k].body@, olds[k].body@),
        inline_room(fs0) ==> forall|k: int| 0 <= k < olds.len() ==> #[trigger] body_fully_inlined(fs0, fs0[k].body@, olds[k].body@),
    ensures
        forall|k: int| 0 <= k < fin.len() ==> exists|j: int| 0 <= j < fs0.len()
            && (#[trigger] fin[k]).name@ == fs0[j].name@
            && same_header(fs0[j], fin[k])
            && body_inlined(fs0, fs0[j].body@, fin[k].body@)
            && (inline_room(fs0) ==> body_fully_inlined(fs0, fs0[j].body@, fin[k].body@)),
{
    assert forall|k: int| 0 <= k < fin.len() implies exists|j: int| 0 <= j < fs0.len()
        && (#[trigger] fin[k]).name@ == fs0[j].name@
        && same_header(fs0[j], fin[k])
        && body_inlined(fs0, fs0[j].body@, fin[k].body@)
        && (inline_room(fs0) ==> body_fully_inlined(fs0, fs0[j].body@, fin[k].body@)) by {
        let j = src[k];
        assert(same_header(fs0[j], olds[j]));
        assert(body_inlined(fs0, fs0[j].body@, olds[j].body@));
        if inline_room(fs0) {
            assert(body_fully_inlined(fs0, fs0[j].body@, olds[j].body@));
        }
    }
}

/// Expand, in every function, the calls of the functions whose copies are
/// given, with fresh ids from `vb` and `lb` on.
#[verifier::rlimit(60)]
fn inline_all(program: &mut IrProgram, callee_names: &Vec<String>, callees: &Vec<IrFunction>, vb: u32, lb: u32,
    Ghost(fs0): Ghost<Seq<IrFunction>>, Ghost(names0): Ghost<Seq<Seq<char>>>)
    requires
        old(program).functions@ == fs0,
        names0 == fs0.map_values(|f: IrFunction| f.name@),
        callee_names@.len() == callees@.len(),
        forall|c: int| 0 <= c < callees@.len() ==> #[trigger] callee_copy(fs0, callee_names@[c]@, callees@[c]),
        forall|n: Seq<char>| #[trigger] candidate_name(fs0, n) ==> has_callee_name(callee_names@, n),
        forall|d: int, l: int| #[trigger] ids_below(fs0, d, l) && d >= 0 && l >= 0 ==> vb <= d && lb <= l,
    ensures
        final(program).functions@.len() == fs0.len(),
        final(program).functions@.map_values(|f: IrFunction| f.name@) == names0,
        forall|k: int| 0 <= k < fs0.len() ==> #[trigger] same_header(fs0[k], final(program).functions@[k]),
        forall|k: int| 0 <= k < fs0.len() ==> #[trigger] body_inlined(fs0, fs0[k].body@, final(program).functions@[k].body@),
        inline_room(fs0) ==> forall|k: int| 0 <= k < fs0.len() ==> #[trigger] body_fully_inlined(fs0, fs0[k].body@, final(program).functions@[k].body@),
        globals_unchanged(*old(program), *final(program)),
{
    let mut next_vreg: u32 = vb;
    let mut next_label: u32 = lb;
    proof {
        reveal(inline_room);
    }
    let ghost room = inline_room(fs0);
    let ghost dl: (int, int) = if room {
        choose|d: int, l: int| #[trigger] ids_below(fs0, d, l) && d >= 0 && l >= 0
            && d + prog_cost(fs0, fs0.len() as int).0 + 2 < u32::MAX && l + prog_cost(fs0, fs0.len() as int).1 + 2 < u32::MAX
    } else {
        (0int, 0int)
    };
    proof {
        if room {
            assert(ids_below(fs0, dl.0, dl.1));
        }
    }
    let ghost len0 = program.functions@.len();
    let mut i: usize = 0;
    while i < program.functions.len()
        invariant
            program.functions@.len() == len0,
            len0 == fs0.len(),
            fs0 == old(program).functions@,
            program.functions@.map_values(|f: IrFunction| f.name@) == names0,
            forall|k: int| 0 <= k < len0 ==> #[trigger] same_header(fs0[k], program.functions@[k]),
            callee_names@.len() == callees@.len(),
            globals_unchanged(*old(program), *program),
            forall|c: int| 0 <= c < callees@.len() ==> #[trigger] callee_copy(fs0, callee_names@[c]@, callees@[c]),
            forall|k: int| i <= k < len0 ==> #[trigger] program.functions@[k] == fs0[k],
            forall|k: int| 0 <= k < i ==> #[trigger] body_inlined(fs0, fs0[k].body@, program.functions@[k].body@),
            forall|n: Seq<char>| #[trigger] candidate_name(fs0, n) ==> has_callee_name(callee_names@, n),
            i <= len0,
            room == inline_room(fs0),
            room ==> ids_below(fs0, dl.0, dl.1) && dl.0 >= 0 && dl.1 >= 0
                && dl.0 + prog_cost(fs0, fs0.len() as int).0 + 2 < u32::MAX && dl.1 + prog_cost(fs0, fs0.len() as int).1 + 2 < u32::MAX,
            room ==> next_vreg as int <= dl.0 + prog_cost(fs0, i as int).0 && next_label as int <= dl.1 + prog_cost(fs0, i as int).1,
            room ==> forall|k: int| 0 <= k < i ==> #[trigger] body_fully_inlined(fs0, fs0[k].body@, program.functions@[k].body@),
        decreases program.functions@.len() - i,
    {
        let ghost pf = program.functions@;
        let mut f = IrFunction::new("", CType::Void);
        program.functions.set_and_swap(i, &mut f);
        let ghost fname = f.name@;
        let ghost fh = f;
        proof {
            assert(f == fs0[i as int]);
            lemma_prog_cost_mono(fs0, i as int + 1, fs0.len() as int);
        }
        inline_into(&mut f, &callee_names, &callees, &mut next_vreg, &mut next_label, Ghost(fs0));
        assert(same_header(fh, f));
        program.functions.set_and_swap(i, &mut f);
        proof {
            assert(program.functions@.map_values(|f: IrFunction| f.name@) =~= names0);
            assert forall|k: int| 0 <= k < len0 implies #[trigger] same_header(fs0[k], program.functions@[k]) by {
                assert(same_header(fs0[k], pf[k]));
                if k != i {
                    assert(program.functions@[k] == pf[k]);
                }
            }
            assert(fh == fs0[i as int]);
            assert forall|k: int| 0 <= k < i + 1 implies #[trigger] body_inlined(fs0, fs0[k].body@, program.functions@[k].body@) by {
                if k < i {
                    assert(program.functions@[k] == pf[k]);
                }
            }
            if room {
                assert forall|k: int| 0 <= k < i + 1 implies #[trigger] body_fully_inlined(fs0, fs0[k].body@, program.functions@[k].body@) by {
                    if k < i {
                        assert(program.functions@[k] == pf[k]);
                    }
                }
            }
            assert forall|k: int| i + 1 <= k < len0 implies #[trigger] program.functions@[k] == fs0[k] by {
                assert(program.functions@[k] == pf[k]);
            }
        }
        i += 1;
    }
}

/// Without candidates, every body is its own full inlining.
proof fn lemma_no_candidates(fs0: Seq<IrFunction>, candidates: Seq<String>)
    requires
        candidates.len() == 0,
        forall|j: int| 0 <= j < fs0.len() && #[trigger] spec_inline_candidate(fs0[j])
            ==> exists|c: int| 0 <= c < candidates.len() && candidates[c]@ == fs0[j].name@,
    ensures
        forall|k: int| 0 <= k < fs0.len() ==> body_fully_inlined(fs0, fs0[k].body@, fs0[k].body@),
{
    assert forall|n: Seq<char>| !candidate_name(fs0, n) by {
        if candidate_name(fs0, n) {
            let j = choose|j: int| 0 <= j < fs0.len() && #[trigger] spec_inline_candidate(fs0[j]) && fs0[j].name@ == n;
        }
    }
    assert forall|k: int| 0 <= k < fs0.len() implies body_fully_inlined(fs0, fs0[k].body@, fs0[k].body@) by {
        lemma_body_fully_refl(fs0, fs0[k].body@);
    }
}

/// Ids that overflow leave no room for inlining.
proof fn lemma_no_room(fs0: Seq<IrFunction>, vb: u64, lb: u64)
    requires
        vb > u32::MAX as u64 || lb > u32::MAX as u64,
        forall|d: int, l: int| #[trigger] ids_below(fs0, d, l) && d >= 0 && l >= 0 ==> vb <= d && lb <= l,
    ensures
        !inline_room(fs0),
{
    reveal(inline_room);
    if inline_room(fs0) {
        let (d, l) = choose|d: int, l: int| #[trigger] ids_below(fs0, d, l) && d >= 0 && l >= 0
            && d + prog_cost(fs0, fs0.len() as int).0 + 2 < u32::MAX && l + prog_cost(fs0, fs0.len() as int).1 + 2 < u32::MAX;
        lemma_prog_cost_mono(fs0, 0, fs0.len() as int);
    }
}

/// Inline every call of a small function (see [`is_inline_candidate`]),
/// one level deep, then drop the candidates that had callers and have
/// none left.  The functions that remain keep their order and their
/// headers; a function is dropped only when a function of its name may be
/// inlined and no function that remains calls it.
#[verifier::rlimit(100)]
pub fn inline_expand(program: &mut IrProgram)
    ensures
        final(program).globals == old(program).globals,
        final(program).strings == old(program).strings,
        final(program).functions@.len() <= old(program).functions@.len(),
        forall|k: int| 0 <= k < final(program).functions@.len() ==> exists|j: int| 0 <= j < old(program).functions@.len()
            && (#[trigger] final(program).functions@[k]).name@ == old(program).functions@[j].name@
            && same_header(old(program).functions@[j], final(program).functions@[k])
            && body_inlined(old(program).functions@, old(program).functions@[j].body@, final(program).functions@[k].body@)
            && (inline_room(old(program).functions@)
                ==> body_fully_inlined(old(program).functions@, old(program).functions@[j].body@, final(program).functions@[k].body@)),
        forall|j: int| 0 <= j < old(program).functions@.len() ==> (exists|k: int| 0 <= k < final(program).functions@.len()
            && (#[trigger] final(program).functions@[k]).name@ == old(program).functions@[j].name@)
            || (candidate_name(old(program).functions@, old(program).functions@[j].name@)
                && forall|k: int, t: int| 0 <= k < final(program).functions@.len() && 0 <= t < final(program).functions@[k].body@.len()
                    ==> !calls_name(#[trigger] final(program).functions@[k].body@[t], old(program).functions@[j].name@)),
{
    let ghost names0 = program.functions@.map_values(|f: IrFunction| f.name@);
    let ghost fs0 = program.functions@;
    let candidates = collect_candidates(program);
    if candidates.len() == 0 {
        proof {
            lemma_program_inlined_refl(*old(program), *program);
            lemma_no_candidates(fs0, candidates@);
            assert forall|k: int| 0 <= k < program.functions@.len() implies exists|j: int| 0 <= j < fs0.len()
                && (#[trigger] program.functions@[k]).name@ == fs0[j].name@
                && same_header(fs0[j], program.functions@[k])
                && body_inlined(fs0, fs0[j].body@, program.functions@[k].body@)
                && (inline_room(fs0) ==> body_fully_inlined(fs0, fs0[j].body@, program.functions@[k].body@)) by {
                lemma_body_inlined_refl(fs0, fs0[k].body@);
                assert(same_header(fs0[k], program.functions@[k]));
                assert(body_fully_inlined(fs0, fs0[k].body@, fs0[k].body@));
            }
        }
        return;
    }
    let (vb, lb) = id_bases(program);
    if vb > u32::MAX as u64 || lb > u32::MAX as u64 {
        proof {
            lemma_program_inlined_refl(*old(program), *program);
            lemma_no_room(fs0, vb, lb);
        }
        return;
    }
    let mut next_vreg: u32 = vb as u32;
    let mut next_label: u32 = lb as u32;
    let (callee_names, callees) = snapshot_callees(program, &candidates);
    let mut i: usize = 0;
    proof {
        assert forall|n: Seq<char>| #[trigger] candidate_name(fs0, n) implies has_callee_name(callee_names@, n) by {
            let j = choose|j: int| 0 <= j < fs0.len() && #[trigger] spec_inline_candidate(fs0[j]) && fs0[j].name@ == n;
            let c = choose|c: int| 0 <= c < candidates@.len() && candidates@[c]@ == fs0[j].name@;
            assert(has_callee_name(callee_names@, candidates@[c]@));
        }
    }
    // Candidates that have at least one call site.
    let mut had_callers: Vec<String> = Vec::new();
    let mut i: usize = 0;
    while i < program.functions.len()
        decreases program.functions@.len() - i,
    {
        let f = &program.functions[i];
        let mut k: usize = 0;
        while k < f.body.len()
            decreases f.body@.len() - k,
        {
            match &f.body[k].op {
                IrOp::Call { func_name, .. } => {
                    if contains_string(&candidates, func_name) && !contains_string(&had_callers, func_name) {
                        had_callers.push(func_name.clone());
                    }
                },
                _ => {},
            }
            k += 1;
        }
        i += 1;
    }
    inline_all(program, &callee_names, &callees, next_vreg, next_label, Ghost(fs0), Ghost(names0));
    let ghost len0 = program.functions@.len();
    // Names still called somewhere.
    let ghost mids = program.functions@;
    let mut still_called: Vec<String> = Vec::new();
    i = 0;
    while i < program.functions.len()
        invariant
            program.functions@ == mids,
            forall|kk: int, t: int, n: Seq<char>| 0 <= kk < i && 0 <= t < mids[kk].body@.len()
                && #[trigger] calls_name(mids[kk].body@[t], n) ==> exists|c: int| 0 <= c < still_called@.len() && still_called@[c]@ == n,
        decreases program.functions@.len() - i,
    {
        let f = &program.functions[i];
        let mut k: usize = 0;
        while k < f.body.len()
            invariant
                program.functions@ == mids,
                i < mids.len(),
                *f == mids[i as int],
                forall|kk: int, t: int, n: Seq<char>| 0 <= kk < i && 0 <= t < mids[kk].body@.len()
                    && #[trigger] calls_name(mids[kk].body@[t], n) ==> exists|c: int| 0 <= c < still_called@.len() && still_called@[c]@ == n,
                forall|t: int, n: Seq<char>| 0 <= t < k && #[trigger] calls_name(f.body@[t], n)
                    ==> exists|c: int| 0 <= c < still_called@.len() && still_called@[c]@ == n,
            decreases f.body@.len() - k,
        {
            let ghost sc0 = still_called@;
            match &f.body[k].op {
                IrOp::Call { func_name, .. } => {
                    if !contains_string(&still_called, func_name) {
                        still_called.push(func_name.clone());
                        proof {
                            assert(still_called@[sc0.len() as int]@ == func_name@);
                        }
                    }
                },
                _ => {},
            }
            proof {
                assert forall|c: int| 0 <= c < sc0.len() implies still_called@[c] == sc0[c] by {}
                assert forall|kk: int, t: int, n: Seq<char>| 0 <= kk < i && 0 <= t < mids[kk].body@.len()
                    && #[trigger] calls_name(mids[kk].body@[t], n) implies exists|c: int| 0 <= c < still_called@.len() && still_called@[c]@ == n by {
                    let c = choose|c: int| 0 <= c < sc0.len() && sc0[c]@ == n;
                    assert(still_called@[c]@ == n);
                }
                assert forall|t: int, n: Seq<char>| 0 <= t < k + 1 && #[trigger] calls_name(f.body@[t], n)
                    implies exists|c: int| 0 <= c < still_called@.len() && still_called@[c]@ == n by {
                    if t < k {
                        let c = choose|c: int| 0 <= c < sc0.len() && sc0[c]@ == n;
                        assert(still_called@[c]@ == n);
                    }
                }
            }
            k += 1;
        }
        i += 1;
    }
    let mut old_funcs: Vec<IrFunction> = Vec::new();
    std::mem::swap(&mut old_funcs, &mut program.functions);
    let ghost olds = old_funcs@;
    let ghost mut src: Seq<int> = Seq::empty();
    let mut t: usize = 0;
    while t < old_funcs.len()
        invariant
            old_funcs@.len() == olds.len(),
            olds == mids,
            forall|k: int| t <= k < olds.len() ==> old_funcs@[k] == olds[k],
            olds.map_values(|f: IrFunction| f.name@) == names0,
            names0.len() == old(program).functions@.len(),
            fs0 == old(program).functions@,
            olds.len() == fs0.len(),
            forall|k: int| 0 <= k < olds.len() ==> #[trigger] same_header(fs0[k], olds[k]),
            forall|k: int| 0 <= k < olds.len() ==> #[trigger] body_inlined(fs0, fs0[k].body@, olds[k].body@),
            program.functions@.len() <= t,
            t <= old_funcs@.len(),
            src.len() == program.functions@.len(),
            forall|k: int| 0 <= k < program.functions@.len() ==> 0 <= #[trigger] src[k] < olds.len() && program.functions@[k] == olds[src[k]],
            forall|j: int| 0 <= j < t ==> (exists|k: int| 0 <= k < program.functions@.len()
                && (#[trigger] program.functions@[k]).name@ == olds[j].name@)
                || (candidate_name(fs0, olds[j].name@) && !(exists|c: int| 0 <= c < still_called@.len() && still_called@[c]@ == olds[j].name@)),
            forall|c: int| 0 <= c < candidates@.len() ==> #[trigger] candidate_name(fs0, candidates@[c]@),
            forall|kk: int, tt: int, n: Seq<char>| 0 <= kk < mids.len() && 0 <= tt < mids[kk].body@.len()
                && #[trigger] calls_name(mids[kk].body@[tt], n) ==> exists|c: int| 0 <= c < still_called@.len() && still_called@[c]@ == n,
            globals_unchanged(*old(program), *program),
        decreases old_funcs@.len() - t,
    {
        assert(old_funcs@[t as int] == olds[t as int]);
        let name = &old_funcs[t].name;
        let keep = !contains_string(&candidates, name) || !contains_string(&had_callers, name)
            || contains_string(&still_called, name);
        let ghost pf0 = program.functions@;
        if keep {
            let mut f = IrFunction::new("", CType::Void);
            old_funcs.set_and_swap(t, &mut f);
            proof {
                assert(f == olds[t as int]);
                assert(names0[t as int] == f.name@);
            }
            program.functions.push(f);
            proof {
                assert(program.functions@[pf0.len() as int] == olds[t as int]);
                src = src.push(t as int);
                assert forall|k: int| 0 <= k < program.functions@.len() implies 0 <= #[trigger] src[k] < olds.len() && program.functions@[k] == olds[src[k]] by {
                    if k < pf0.len() {
                        assert(program.functions@[k] == pf0[k]);
                    }
                }
                assert forall|j: int| 0 <= j < t + 1 implies (exists|k: int| 0 <= k < program.functions@.len()
                    && (#[trigger] program.functions@[k]).name@ == olds[j].name@)
                    || (candidate_name(fs0, olds[j].name@) && !(exists|c: int| 0 <= c < still_called@.len() && still_called@[c]@ == olds[j].name@)) by {
                    if j == t {
                        assert(program.functions@[pf0.len() as int].name@ == olds[j].name@);
                    } else if exists|k: int| 0 <= k < pf0.len() && (#[trigger] pf0[k]).name@ == olds[j].name@ {
                        let k = choose|k: int| 0 <= k < pf0.len() && (#[trigger] pf0[k]).name@ == olds[j].name@;
                        assert(program.functions@[k] == pf0[k]);
                    }
                }
            }
        } else {
            proof {
                let c = choose|c: int| 0 <= c < candidates@.len() && (#[trigger] candidates@[c])@ == olds[t as int].name@;
                assert(candidate_name(fs0, candidates@[c]@));
            }
        }
        t += 1;
    }
    proof {
        lemma_kept_functions(fs0, olds, program.functions@, src);
        assert forall|j: int| 0 <= j < old(program).functions@.len() implies (exists|k: int| 0 <= k < program.functions@.len()
            && (#[trigger] program.functions@[k]).name@ == old(program).functions@[j].name@)
            || (candidate_name(old(program).functions@, old(program).functions@[j].name@)
                && forall|k: int, tt: int| 0 <= k < program.functions@.len() && 0 <= tt < program.functions@[k].body@.len()
                    ==> !calls_name(#[trigger] program.functions@[k].body@[tt], old(program).functions@[j].name@)) by {
            assert(same_header(fs0[j], olds[j]));
            assert(olds[j].name@ == fs0[j].name@);
            if !(exists|k: int| 0 <= k < program.functions@.len() && (#[trigger] program.functions@[k]).name@ == olds[j].name@) {
                assert forall|k: int, tt: int| 0 <= k < program.functions@.len() && 0 <= tt < program.functions@[k].body@.len()
                    implies !calls_name(#[trigger] program.functions@[k].body@[tt], old(program).functions@[j].name@) by {
                    let jj = src[k];
                    if calls_name(program.functions@[k].body@[tt], olds[j].name@) {
                        assert(calls_name(mids[jj].body@[tt], olds[j].name@));
                    }
                }
            }
        }
    }
}

/// The globals and strings of two programs agree.
pub open spec fn globals_unchanged(a: IrProgram, b: IrProgram) -> bool {
    a.globals == b.globals && a.strings == b.strings
}

} // verus!
