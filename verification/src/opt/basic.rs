//! Local clean-up passes: copy propagation, dead labels, dead code,
//! dead branches, common sub-expressions and jump threading.

use vstd::prelude::*;

use crate::ir::{IrFunction, IrInstr, IrOp, Label, VReg, Width, same_body, same_instr, same_op};
use crate::maps::{AssocMap, IdSet};
use crate::opt::ops::{op_dst, op_pure_dst, op_srcs, ids_of, get_dst_vreg, get_pure_dst, collect_src_vregs};
use crate::opt::subst::{sub1, subst_rel, subst_vreg_in_op};

verus! {

/// The fields of a function other than its body agree.
pub open spec fn same_header(a: IrFunction, b: IrFunction) -> bool {
    &&& a.name == b.name
    &&& a.params == b.params
    &&& a.locals == b.locals
    &&& a.unroll_loop_headers == b.unroll_loop_headers
    &&& a.return_type == b.return_type
    &&& a.is_stack_mode == b.is_stack_mode
    &&& a.is_variadic == b.is_variadic
    &&& a.is_asm_body == b.is_asm_body
}

/// Operations that end a basic block for alias tracking.
pub open spec fn is_block_edge(op: IrOp) -> bool {
    op is Label || op is Jump || op is JumpIfTrue || op is JumpIfFalse
}

/// The aliases in force at an instruction: none at a block edge.
pub open spec fn cp_pre(m: Map<u32, VReg>, op: IrOp) -> Map<u32, VReg> {
    if is_block_edge(op) { Map::empty() } else { m }
}

/// The aliases after the first `n` instructions of the block: each `Copy`,
/// and each `Cast` that keeps the width, makes its destination an alias of
/// its (substituted) source.
pub open spec fn cp_state(body: Seq<IrInstr>, n: int) -> Map<u32, VReg>
    decreases n,
{
    if n <= 0 {
        Map::empty()
    } else {
        let m = cp_pre(cp_state(body, n - 1), body[n - 1].op);
        match body[n - 1].op {
            IrOp::Copy { dst, src } => m.insert(dst.id, sub1(src, m)),
            IrOp::Cast { dst, src, .. } => if dst.width == sub1(src, m).width {
                m.insert(dst.id, sub1(src, m))
            } else {
                m
            },
            _ => m,
        }
    }
}

/// Substitute source vregs through `Copy` and width-preserving `Cast`
/// aliases within each basic block.
pub fn copy_propagate(func: &mut IrFunction) -> (changed: bool)
    ensures
        same_header(*old(func), *final(func)),
        final(func).body@.len() == old(func).body@.len(),
        forall|i: int| 0 <= i < final(func).body@.len() ==> #[trigger] final(func).body@[i].line == old(func).body@[i].line
            && subst_rel(old(func).body@[i].op, final(func).body@[i].op, cp_pre(cp_state(old(func).body@, i), old(func).body@[i].op)),
        forall|i: int| 0 <= i < final(func).body@.len() ==> #[trigger] final(func).body@[i].line == old(func).body@[i].line
            && exists|m: Map<u32, VReg>| subst_rel(old(func).body@[i].op, final(func).body@[i].op, m),
        changed == exists|i: int| 0 <= i < old(func).body@.len() && !same_op(old(func).body@[i].op, #[trigger] final(func).body@[i].op),
{
    let ghost body0 = func.body@;
    let mut changed = false;
    let mut subs: AssocMap<u32, VReg> = AssocMap::new();
    let mut new_body: Vec<IrInstr> = Vec::new();
    let mut i: usize = 0;
    proof {
        assert(subs@ =~= cp_state(body0, 0));
    }
    while i < func.body.len()
        invariant
            i <= func.body@.len(),
            func.body@ == body0,
            subs.wf(),
            subs@ == cp_state(body0, i as int),
            new_body@.len() == i,
            forall|k: int| 0 <= k < i ==> #[trigger] new_body@[k].line == func.body@[k].line
                && subst_rel(body0[k].op, new_body@[k].op, cp_pre(cp_state(body0, k), body0[k].op)),
            changed == exists|k: int| 0 <= k < i && !same_op(body0[k].op, #[trigger] new_body@[k].op),
        decreases func.body@.len() - i,
    {
        let instr = &func.body[i];
        match &instr.op {
            IrOp::Label { .. } | IrOp::Jump { .. } | IrOp::JumpIfTrue { .. } | IrOp::JumpIfFalse { .. } => {
                subs.clear();
            },
            _ => {},
        }
        let ghost pre = subs@;
        let ghost ch0 = changed;
        assert(pre =~= cp_pre(cp_state(body0, i as int), body0[i as int].op));
        let (new_op, ch) = subst_vreg_in_op(&instr.op, &subs);
        if ch {
            changed = true;
        }
        match &new_op {
            IrOp::Copy { dst, src } => {
                subs.insert(dst.id, *src);
            },
            IrOp::Cast { dst, src, .. } => {
                if dst.width == src.width {
                    subs.insert(dst.id, *src);
                }
            },
            _ => {},
        }
        proof {
            assert(subs@ =~= cp_state(body0, i + 1));
        }
        let ghost nb0 = new_body@;
        let ghost ghost_op = new_op;
        new_body.push(IrInstr { op: new_op, line: instr.line });
        proof {
            assert(new_body@[i as int].op == ghost_op);
            assert(subst_rel(body0[i as int].op, new_body@[i as int].op, cp_pre(cp_state(body0, i as int), body0[i as int].op)));
            assert forall|k: int| 0 <= k < i + 1 implies #[trigger] new_body@[k].line == func.body@[k].line
                && subst_rel(body0[k].op, new_body@[k].op, cp_pre(cp_state(body0, k), body0[k].op)) by {
                if k < i {
                    assert(new_body@[k] == nb0[k]);
                    assert(nb0[k].line == func.body@[k].line);
                }
            }
            assert(changed == (ch0 || !same_op(body0[i as int].op, new_body@[i as int].op)));
            if ch0 {
                let k = choose|k: int| 0 <= k < i && !same_op(body0[k].op, #[trigger] nb0[k].op);
                assert(new_body@[k] == nb0[k]);
            }
            if exists|k: int| 0 <= k < i + 1 && !same_op(body0[k].op, #[trigger] new_body@[k].op) {
                let k = choose|k: int| 0 <= k < i + 1 && !same_op(body0[k].op, #[trigger] new_body@[k].op);
                if k < i {
                    assert(new_body@[k] == nb0[k]);
                    assert(!same_op(body0[k].op, nb0[k].op));
                    assert(ch0);
                }
            }
        }
        i += 1;
    }
    func.body = new_body;
    changed
}

/// A jump (conditional or not) to the label.
pub open spec fn targets(op: IrOp, l: u32) -> bool {
    match op {
        IrOp::Jump { target } => target.0 == l,
        IrOp::JumpIfTrue { target, .. } => target.0 == l,
        IrOp::JumpIfFalse { target, .. } => target.0 == l,
        _ => false,
    }
}

/// Some instruction of the body jumps to the label.
pub open spec fn referenced(body: Seq<IrInstr>, l: u32) -> bool {
    exists|k: int| 0 <= k < body.len() && targets(#[trigger] body[k].op, l)
}

/// The instruction survives dead-label removal.
pub open spec fn keeps_label(body: Seq<IrInstr>, ins: IrInstr) -> bool {
    match ins.op {
        IrOp::Label { label } => referenced(body, label.0),
        _ => true,
    }
}

/// The target of a jump, if the operation is one.
pub fn jump_target(op: &IrOp) -> (r: Option<u32>)
    ensures
        match r {
            Some(l) => targets(*op, l),
            None => forall|l: u32| !targets(*op, l),
        },
{
    match op {
        IrOp::Jump { target } => Some(target.0),
        IrOp::JumpIfTrue { target, .. } => Some(target.0),
        IrOp::JumpIfFalse { target, .. } => Some(target.0),
        _ => None,
    }
}

/// The set of labels that some jump of the body targets.
fn referenced_labels(body: &Vec<IrInstr>) -> (r: IdSet)
    ensures
        r.wf(),
        forall|l: u32| #[trigger] r@.contains_key(l) <==> referenced(body@, l),
{
    let mut set: IdSet = AssocMap::new();
    let mut i: usize = 0;
    while i < body.len()
        invariant
            i <= body@.len(),
            set.wf(),
            forall|l: u32| #[trigger] set@.contains_key(l) <==> exists|k: int| 0 <= k < i && targets(#[trigger] body@[k].op, l),
        decreases body@.len() - i,
    {
        match jump_target(&body[i].op) {
            Some(t) => {
                set.insert(t, ());
            },
            None => {},
        }
        proof {
            assert forall|l: u32| #[trigger] set@.contains_key(l) <==> exists|k: int| 0 <= k < i + 1 && targets(#[trigger] body@[k].op, l) by {
                if targets(body@[i as int].op, l) {
                    assert(set@.contains_key(l));
                }
                if exists|k: int| 0 <= k < i + 1 && targets(#[trigger] body@[k].op, l) {
                    let k = choose|k: int| 0 <= k < i + 1 && targets(#[trigger] body@[k].op, l);
                    if k < i {
                    }
                }
            }
        }
        i += 1;
    }
    set
}

/// Remove labels that no jump targets.
pub fn remove_dead_labels(func: &mut IrFunction) -> (changed: bool)
    ensures
        same_header(*old(func), *final(func)),
        final(func).body@.len() == old(func).body@.filter(|ins: IrInstr| keeps_label(old(func).body@, ins)).len(),
        forall|i: int| 0 <= i < final(func).body@.len() ==> same_instr(#[trigger] final(func).body@[i],
            old(func).body@.filter(|ins: IrInstr| keeps_label(old(func).body@, ins))[i]),
        changed == (final(func).body@.len() != old(func).body@.len()),
{
    let referenced_set = referenced_labels(&func.body);
    let ghost body0 = func.body@;
    let ghost f = |ins: IrInstr| keeps_label(body0, ins);
    let mut new_body: Vec<IrInstr> = Vec::new();
    let mut i: usize = 0;
    while i < func.body.len()
        invariant
            i <= func.body@.len(),
            func.body@ == body0,
            f == (|ins: IrInstr| keeps_label(body0, ins)),
            referenced_set.wf(),
            forall|l: u32| #[trigger] referenced_set@.contains_key(l) <==> referenced(body0, l),
            new_body@.len() == body0.subrange(0, i as int).filter(f).len(),
            forall|k: int| 0 <= k < new_body@.len() ==> same_instr(#[trigger] new_body@[k], body0.subrange(0, i as int).filter(f)[k]),
        decreases func.body@.len() - i,
    {
        let keep = match &func.body[i].op {
            IrOp::Label { label } => referenced_set.contains_key(&label.0),
            _ => true,
        };
        proof {
            assert(body0.subrange(0, i as int + 1) =~= body0.subrange(0, i as int).push(body0[i as int]));
            body0.subrange(0, i as int).lemma_filter_push(body0[i as int], f);
            assert(keep == f(body0[i as int]));
        }
        if keep {
            new_body.push(func.body[i].clone());
        }
        i += 1;
    }
    proof {
        assert(body0.subrange(0, i as int) =~= body0);
    }
    let changed = new_body.len() != func.body.len();
    func.body = new_body;
    changed
}


/// Some instruction of the body reads the vreg id.
pub open spec fn reads(body: Seq<IrInstr>, id: u32) -> bool {
    exists|k: int| 0 <= k < body.len() && ids_of(op_srcs(#[trigger] body[k].op)).contains(id)
}

/// The set of vreg ids that the body reads (`collect_used_vregs`).
pub fn collect_used_vregs(body: &Vec<IrInstr>) -> (r: IdSet)
    ensures
        r.wf(),
        forall|id: u32| #[trigger] r@.contains_key(id) <==> reads(body@, id),
{
    let mut used: IdSet = AssocMap::new();
    let mut i: usize = 0;
    while i < body.len()
        invariant
            i <= body@.len(),
            used.wf(),
            forall|id: u32| #[trigger] used@.contains_key(id) <==> exists|k: int| 0 <= k < i && ids_of(op_srcs(#[trigger] body@[k].op)).contains(id),
        decreases body@.len() - i,
    {
        let srcs = collect_src_vregs(&body[i].op);
        let mut j: usize = 0;
        let ghost before = used@;
        while j < srcs.len()
            invariant
                j <= srcs@.len(),
                used.wf(),
                srcs@ == ids_of(op_srcs(body@[i as int].op)),
                forall|id: u32| #[trigger] used@.contains_key(id) <==> (before.contains_key(id) || srcs@.subrange(0, j as int).contains(id)),
            decreases srcs@.len() - j,
        {
            used.insert(srcs[j], ());
            proof {
                assert forall|id: u32| #[trigger] used@.contains_key(id) <==> (before.contains_key(id) || srcs@.subrange(0, j as int + 1).contains(id)) by {
                    if srcs@.subrange(0, j as int + 1).contains(id) {
                        let t = choose|t: int| 0 <= t < j + 1 && #[trigger] srcs@.subrange(0, j as int + 1)[t] == id;
                        if t < j {
                            assert(srcs@.subrange(0, j as int)[t] == id);
                        }
                    }
                    if srcs@.subrange(0, j as int).contains(id) {
                        let t = choose|t: int| 0 <= t < j && #[trigger] srcs@.subrange(0, j as int)[t] == id;
                        assert(srcs@.subrange(0, j as int + 1)[t] == id);
                    }
                    if id == srcs@[j as int] {
                        assert(srcs@.subrange(0, j as int + 1)[j as int] == id);
                    }
                }
            }
            j += 1;
        }
        proof {
            assert(srcs@.subrange(0, j as int) =~= srcs@);
            assert forall|id: u32| #[trigger] used@.contains_key(id) <==> exists|k: int| 0 <= k < i + 1 && ids_of(op_srcs(#[trigger] body@[k].op)).contains(id) by {
                if exists|k: int| 0 <= k < i + 1 && ids_of(op_srcs(#[trigger] body@[k].op)).contains(id) {
                    let k = choose|k: int| 0 <= k < i + 1 && ids_of(op_srcs(#[trigger] body@[k].op)).contains(id);
                    if k < i {
                        assert(before.contains_key(id));
                    }
                }
            }
        }
        i += 1;
    }
    used
}

/// An instruction is a copy of some instruction of `body`.
pub open spec fn copied_from(ins: IrInstr, body: Seq<IrInstr>) -> bool {
    exists|j: int| 0 <= j < body.len() && #[trigger] same_instr(ins, body[j])
}

/// `p` sends each position of `new` to a different position of `old` that
/// holds the same instruction, and reaches every position of `old`.
pub open spec fn is_arrangement(p: Seq<int>, new: Seq<IrInstr>, old: Seq<IrInstr>) -> bool {
    &&& p.len() == new.len()
    &&& forall|k: int| 0 <= k < p.len() ==> 0 <= #[trigger] p[k] < old.len() && same_instr(new[k], old[p[k]])
    &&& forall|a: int, b: int| #![trigger p[a], p[b]] 0 <= a < b < p.len() ==> p[a] != p[b]
    &&& forall|j: int| 0 <= j < old.len() ==> #[trigger] hits(p, j)
}

/// Some position of `p` holds `j`.
pub open spec fn hits(p: Seq<int>, j: int) -> bool {
    exists|k: int| 0 <= k < p.len() && p[k] == j
}

/// `new` is `old` with its instructions put in another order: nothing is
/// added, dropped or duplicated.
pub open spec fn rearranged(new: Seq<IrInstr>, old: Seq<IrInstr>) -> bool {
    exists|p: Seq<int>| #[trigger] is_arrangement(p, new, old)
}

/// A body is a rearrangement of itself.
pub proof fn lemma_rearranged_refl(s: Seq<IrInstr>)
    ensures
        rearranged(s, s),
{
    let p = Seq::new(s.len(), |k: int| k);
    assert forall|k: int| 0 <= k < p.len() implies 0 <= #[trigger] p[k] < s.len() && same_instr(s[k], s[p[k]]) by {
        crate::ir::lemma_same_instr_refl(s[k]);
    }
    assert forall|j: int| 0 <= j < s.len() implies #[trigger] hits(p, j) by {
        assert(p[j] == j);
    }
    assert(is_arrangement(p, s, s));
}

/// Every instruction of `s` is a copy of an instruction of `t`.
pub open spec fn sub_body(s: Seq<IrInstr>, t: Seq<IrInstr>) -> bool {
    forall|i: int| 0 <= i < s.len() ==> #[trigger] copied_from(s[i], t)
}

/// A body is obtained from itself.
pub proof fn lemma_sub_body_refl(s: Seq<IrInstr>)
    ensures
        sub_body(s, s),
{
    assert forall|i: int| 0 <= i < s.len() implies #[trigger] copied_from(s[i], s) by {
        crate::ir::lemma_same_instr_refl(s[i]);
        assert(same_instr(s[i], s[i]));
    }
}

/// Instruction `i` jumps to the label on the next line.
pub open spec fn jump_to_next(body: Seq<IrInstr>, i: int) -> bool {
    i + 1 < body.len() && (body[i].op matches IrOp::Jump { target } && body[i + 1].op matches IrOp::Label { label }
        && label.0 == target.0)
}

/// The first `n` instructions without the unreachable ones (those after an
/// unconditional jump or a return, up to the next label) and without jumps
/// to the next label, and whether the point after them is unreachable.
pub open spec fn reachable_prefix(body: Seq<IrInstr>, n: int) -> (Seq<IrInstr>, bool)
    decreases n,
{
    if n <= 0 {
        (Seq::empty(), false)
    } else {
        let (out, unr) = reachable_prefix(body, n - 1);
        let ins = body[n - 1];
        match ins.op {
            IrOp::Jump { .. } => if unr || jump_to_next(body, n - 1) {
                (out, unr)
            } else {
                (out.push(ins), true)
            },
            IrOp::Return { .. } => if unr {
                (out, unr)
            } else {
                (out.push(ins), true)
            },
            IrOp::Label { .. } => (out.push(ins), false),
            _ => if unr {
                (out, unr)
            } else {
                (out.push(ins), false)
            },
        }
    }
}

/// The instruction has a side effect, or something in `p` reads the vreg it
/// defines.
pub open spec fn live_def(p: Seq<IrInstr>, ins: IrInstr) -> bool {
    match op_pure_dst(ins.op) {
        Some(d) => reads(p, d.id),
        None => true,
    }
}

/// The first `n` instructions of `p` without the side-effect-free
/// definitions that nothing in `p` reads.
pub open spec fn live_defs(p: Seq<IrInstr>, n: int) -> Seq<IrInstr>
    decreases n,
{
    if n <= 0 {
        Seq::empty()
    } else {
        live_defs(p, n - 1) + if live_def(p, p[n - 1]) {
            seq![p[n - 1]]
        } else {
            Seq::empty()
        }
    }
}

/// The body after dead-code elimination: unreachable code and jumps to the
/// next label removed, then the definitions that nothing reads.
pub open spec fn dce_result(body: Seq<IrInstr>) -> Seq<IrInstr> {
    let p = reachable_prefix(body, body.len() as int).0;
    live_defs(p, p.len() as int)
}

/// Pairwise-same bodies stay so when the same instruction is added to both.
pub proof fn lemma_same_body_push(a: Seq<IrInstr>, b: Seq<IrInstr>, x: IrInstr, y: IrInstr)
    requires
        same_body(a, b),
        same_instr(x, y),
    ensures
        same_body(a.push(x), b.push(y)),
{
    assert forall|i: int| 0 <= i < a.len() + 1 implies #[trigger] same_instr(a.push(x)[i], b.push(y)[i]) by {
        if i < a.len() {
            assert(same_instr(a[i], b[i]));
        }
    }
}

/// Equal operations read and define the same vregs.
pub proof fn lemma_same_op_regs(a: IrOp, b: IrOp)
    requires
        same_op(a, b),
    ensures
        op_srcs(a) == op_srcs(b),
        op_pure_dst(a) == op_pure_dst(b),
        op_dst(a) == op_dst(b),
{
    match a {
        IrOp::InlineAsm { inputs, .. } => {
            match b {
                IrOp::InlineAsm { inputs: i2, .. } => {
                    assert(inputs@.map_values(|e: (VReg, crate::types::CType)| e.0) =~= i2@.map_values(|e: (VReg, crate::types::CType)| e.0));
                },
                _ => {},
            }
        },
        _ => {},
    }
}

/// Equal bodies read the same vregs.
pub proof fn lemma_same_body_reads(a: Seq<IrInstr>, b: Seq<IrInstr>, id: u32)
    requires
        same_body(a, b),
    ensures
        reads(a, id) == reads(b, id),
{
    if reads(a, id) {
        let k = choose|k: int| 0 <= k < a.len() && ids_of(op_srcs(#[trigger] a[k].op)).contains(id);
        assert(same_instr(a[k], b[k]));
        lemma_same_op_regs(a[k].op, b[k].op);
        assert(ids_of(op_srcs(b[k].op)).contains(id));
    }
    if reads(b, id) {
        let k = choose|k: int| 0 <= k < b.len() && ids_of(op_srcs(#[trigger] b[k].op)).contains(id);
        assert(same_instr(a[k], b[k]));
        lemma_same_op_regs(a[k].op, b[k].op);
        assert(ids_of(op_srcs(a[k].op)).contains(id));
    }
}

/// Remove unreachable code after unconditional jumps and returns, trivial
/// jumps to the next label, and side-effect-free definitions that nothing
/// reads.
pub fn dead_code_eliminate(func: &mut IrFunction) -> (changed: bool)
    ensures
        same_header(*old(func), *final(func)),
        same_body(final(func).body@, dce_result(old(func).body@)),
        final(func).body@.len() <= old(func).body@.len(),
        sub_body(final(func).body@, old(func).body@),
        changed == (final(func).body@.len() != old(func).body@.len()),
{
    let ghost body0 = func.body@;
    let mut changed = false;
    let mut new_body: Vec<IrInstr> = Vec::new();
    let mut unreachable = false;
    let mut idx: usize = 0;
    while idx < func.body.len()
        invariant
            idx <= func.body@.len(),
            func.body@ == body0,
            new_body@.len() <= idx,
            sub_body(new_body@, body0),
            changed == (new_body@.len() != idx),
            same_body(new_body@, reachable_prefix(body0, idx as int).0),
            unreachable == reachable_prefix(body0, idx as int).1,
        decreases func.body@.len() - idx,
    {
        let instr = &func.body[idx];
        let fall_through = match &instr.op {
            IrOp::Jump { target } => {
                if idx + 1 < func.body.len() {
                    match &func.body[idx + 1].op {
                        IrOp::Label { label } => label.0 == target.0,
                        _ => false,
                    }
                } else {
                    false
                }
            },
            _ => false,
        };
        assert(fall_through == jump_to_next(body0, idx as int));
        let keep = match &instr.op {
            IrOp::Jump { .. } => {
                if unreachable || fall_through {
                    false
                } else {
                    unreachable = true;
                    true
                }
            },
            IrOp::Return { .. } => {
                if unreachable {
                    false
                } else {
                    unreachable = true;
                    true
                }
            },
            IrOp::Label { .. } => {
                unreachable = false;
                true
            },
            _ => !unreachable,
        };
        let ghost spec_prev = reachable_prefix(body0, idx as int).0;
        if keep {
            let c = instr.clone();
            proof {
                crate::ir::lemma_same_instr_refl(body0[idx as int]);
                assert(same_instr(c, body0[idx as int]));
                assert forall|i: int| 0 <= i < new_body@.len() + 1 implies #[trigger] same_instr(new_body@.push(c)[i], spec_prev.push(body0[idx as int])[i]) by {
                    if i < new_body@.len() {
                        assert(same_instr(new_body@[i], spec_prev[i]));
                    }
                }
            }
            new_body.push(c);
            proof {
                assert(same_instr(new_body@[new_body@.len() - 1], body0[idx as int]));
            }
        } else {
            changed = true;
        }
        idx += 1;
    }
    let ghost p = reachable_prefix(body0, body0.len() as int).0;
    let used = collect_used_vregs(&new_body);
    let mut kept: Vec<IrInstr> = Vec::new();
    let mut i: usize = 0;
    while i < new_body.len()
        invariant
            i <= new_body@.len(),
            new_body@.len() <= body0.len(),
            sub_body(new_body@, body0),
            kept@.len() <= i,
            sub_body(kept@, body0),
            used.wf(),
            forall|id: u32| #[trigger] used@.contains_key(id) <==> reads(new_body@, id),
            same_body(new_body@, p),
            same_body(kept@, live_defs(p, i as int)),
            changed == (new_body@.len() != body0.len()),
        decreases new_body@.len() - i,
    {
        let remove = match get_pure_dst(&new_body[i].op) {
            Some(d) => !used.contains_key(&d.id),
            None => false,
        };
        proof {
            assert(same_instr(new_body@[i as int], p[i as int]));
            lemma_same_op_regs(new_body@[i as int].op, p[i as int].op);
            if let Some(d) = op_pure_dst(p[i as int].op) {
                lemma_same_body_reads(new_body@, p, d.id);
            }
            assert(remove == !live_def(p, p[i as int]));
        }
        if !remove {
            let c = new_body[i].clone();
            proof {
                assert(copied_from(new_body@[i as int], body0));
                let j = choose|j: int| 0 <= j < body0.len() && same_instr(new_body@[i as int], body0[j]);
                assert(same_instr(c, body0[j]));
                assert(same_instr(c, p[i as int]));
                let spec_prev = live_defs(p, i as int);
                assert forall|q: int| 0 <= q < kept@.len() + 1 implies #[trigger] same_instr(kept@.push(c)[q], spec_prev.push(p[i as int])[q]) by {
                    if q < kept@.len() {
                        assert(same_instr(kept@[q], spec_prev[q]));
                    }
                }
                assert(live_defs(p, i + 1) =~= spec_prev.push(p[i as int]));
            }
            kept.push(c);
            proof {
                assert(copied_from(kept@[kept@.len() - 1], body0));
            }
        } else {
            proof {
                assert(live_defs(p, i + 1) =~= live_defs(p, i as int));
            }
        }
        i += 1;
    }
    if kept.len() != new_body.len() {
        changed = true;
    }
    func.body = kept;
    changed
}

/// The value of the last `LoadImm` to the vreg id, if any.
pub open spec fn last_imm(body: Seq<IrInstr>, id: u32) -> Option<i64>
    decreases body.len(),
{
    if body.len() == 0 {
        None
    } else {
        match body.last().op {
            IrOp::LoadImm { dst, value } => if dst.id == id {
                Some(value)
            } else {
                last_imm(body.drop_last(), id)
            },
            _ => last_imm(body.drop_last(), id),
        }
    }
}

/// The operation is not a `LoadImm` and writes the vreg id.
pub open spec fn writes_other(op: IrOp, id: u32) -> bool {
    !(op is LoadImm) && match op_dst(op) {
        Some(d) => d.id == id,
        None => false,
    }
}

/// Some instruction other than a `LoadImm` writes the vreg id.
pub open spec fn written_otherwise(body: Seq<IrInstr>, id: u32) -> bool {
    exists|k: int| 0 <= k < body.len() && #[trigger] writes_other(body[k].op, id)
}

/// The constant a branch condition is known to hold throughout the body.
pub open spec fn body_const(body: Seq<IrInstr>, id: u32) -> Option<i64> {
    if written_otherwise(body, id) { None } else { last_imm(body, id) }
}

/// A branch whose condition is constant becomes a jump when always taken.
pub open spec fn dbe_rewrite(body: Seq<IrInstr>, ins: IrInstr) -> IrInstr {
    match ins.op {
        IrOp::JumpIfFalse { cond, target } => if body_const(body, cond.id) == Some(0i64) {
            IrInstr { op: IrOp::Jump { target }, line: ins.line }
        } else {
            ins
        },
        IrOp::JumpIfTrue { cond, target } => if body_const(body, cond.id) matches Some(v) && v != 0 {
            IrInstr { op: IrOp::Jump { target }, line: ins.line }
        } else {
            ins
        },
        _ => ins,
    }
}

/// A branch whose condition is constant and never taken is dropped.
pub open spec fn dbe_keep(body: Seq<IrInstr>, ins: IrInstr) -> bool {
    match ins.op {
        IrOp::JumpIfFalse { cond, .. } => !(body_const(body, cond.id) matches Some(v) && v != 0),
        IrOp::JumpIfTrue { cond, .. } => body_const(body, cond.id) != Some(0i64),
        _ => true,
    }
}

/// The instruction is a branch whose condition is a known constant.
pub open spec fn dbe_resolves(body: Seq<IrInstr>, ins: IrInstr) -> bool {
    match ins.op {
        IrOp::JumpIfFalse { cond, .. } | IrOp::JumpIfTrue { cond, .. } => body_const(body, cond.id) is Some,
        _ => false,
    }
}

/// The constants a body's `LoadImm`s give vregs that nothing else writes.
fn branch_constants(body: &Vec<IrInstr>) -> (r: AssocMap<u32, i64>)
    ensures
        r.wf(),
        forall|id: u32| #[trigger] r@.contains_key(id) <==> body_const(body@, id) is Some,
        forall|id: u32| r@.contains_key(id) ==> body_const(body@, id) == Some(#[trigger] r@[id]),
{
    let mut constants: AssocMap<u32, i64> = AssocMap::new();
    let mut i: usize = 0;
    while i < body.len()
        invariant
            i <= body@.len(),
            constants.wf(),
            forall|id: u32| #[trigger] constants@.contains_key(id) <==> last_imm(body@.subrange(0, i as int), id) is Some,
            forall|id: u32| constants@.contains_key(id) ==> last_imm(body@.subrange(0, i as int), id) == Some(#[trigger] constants@[id]),
        decreases body@.len() - i,
    {
        proof {
            assert(body@.subrange(0, i as int + 1).drop_last() =~= body@.subrange(0, i as int));
        }
        match &body[i].op {
            IrOp::LoadImm { dst, value } => {
                constants.insert(dst.id, *value);
            },
            _ => {},
        }
        i += 1;
    }
    proof {
        assert(body@.subrange(0, i as int) =~= body@);
    }
    let mut j: usize = 0;
    while j < body.len()
        invariant
            j <= body@.len(),
            constants.wf(),
            forall|id: u32| #[trigger] constants@.contains_key(id) <==> (last_imm(body@, id) is Some
                && !exists|k: int| 0 <= k < j && #[trigger] writes_other(body@[k].op, id)),
            forall|id: u32| constants@.contains_key(id) ==> last_imm(body@, id) == Some(#[trigger] constants@[id]),
        decreases body@.len() - j,
    {
        let is_imm = match &body[j].op {
            IrOp::LoadImm { .. } => true,
            _ => false,
        };
        let ghost before = constants@;
        if !is_imm {
            match get_dst_vreg(&body[j].op) {
                Some(d) => {
                    constants.remove(&d.id);
                },
                None => {},
            }
        }
        proof {
            assert forall|id: u32| #[trigger] constants@.contains_key(id) <==> (last_imm(body@, id) is Some
                && !exists|k: int| 0 <= k < j + 1 && #[trigger] writes_other(body@[k].op, id)) by {
                if writes_other(body@[j as int].op, id) {
                    assert(!constants@.contains_key(id));
                } else {
                    assert(constants@.contains_key(id) == before.contains_key(id));
                    if exists|k: int| 0 <= k < j + 1 && #[trigger] writes_other(body@[k].op, id) {
                        let k = choose|k: int| 0 <= k < j + 1 && #[trigger] writes_other(body@[k].op, id);
                        assert(k < j);
                    }
                }
            }
        }
        j += 1;
    }
    constants
}

/// Turn always-taken constant branches into jumps and drop never-taken
/// ones.
pub fn dead_branch_eliminate(func: &mut IrFunction) -> (changed: bool)
    ensures
        same_header(*old(func), *final(func)),
        ({
            let t = old(func).body@.map_values(|ins: IrInstr| dbe_rewrite(old(func).body@, ins)).filter(
                |ins: IrInstr| dbe_keep(old(func).body@, ins),
            );
            &&& final(func).body@.len() == t.len()
            &&& forall|i: int| 0 <= i < t.len() ==> same_instr(#[trigger] final(func).body@[i], t[i])
        }),
        changed == exists|i: int| 0 <= i < old(func).body@.len() && #[trigger] dbe_resolves(old(func).body@, old(func).body@[i]),
{
    let ghost body0 = func.body@;
    let constants = branch_constants(&func.body);
    let ghost rw = |ins: IrInstr| dbe_rewrite(body0, ins);
    let ghost kp = |ins: IrInstr| dbe_keep(body0, ins);
    let mut changed = false;
    let mut out: Vec<IrInstr> = Vec::new();
    let mut i: usize = 0;
    while i < func.body.len()
        invariant
            i <= func.body@.len(),
            func.body@ == body0,
            constants.wf(),
            forall|id: u32| #[trigger] constants@.contains_key(id) <==> body_const(body0, id) is Some,
            forall|id: u32| constants@.contains_key(id) ==> body_const(body0, id) == Some(#[trigger] constants@[id]),
            rw == (|ins: IrInstr| dbe_rewrite(body0, ins)),
            kp == (|ins: IrInstr| dbe_keep(body0, ins)),
            out@.len() == body0.subrange(0, i as int).map_values(rw).filter(kp).len(),
            forall|k: int| 0 <= k < out@.len() ==> same_instr(#[trigger] out@[k], body0.subrange(0, i as int).map_values(rw).filter(kp)[k]),
            changed == exists|k: int| 0 <= k < i && #[trigger] dbe_resolves(body0, body0[k]),
        decreases func.body@.len() - i,
    {
        let instr = &func.body[i];
        let ghost ch0 = changed;
        let ghost prev = body0.subrange(0, i as int).map_values(rw);
        proof {
            assert(body0.subrange(0, i as int + 1).map_values(rw) =~= prev.push(rw(body0[i as int])));
            prev.lemma_filter_push(rw(body0[i as int]), kp);
        }
        match &instr.op {
            IrOp::JumpIfFalse { cond, target } => {
                match constants.get(&cond.id) {
                    Some(v) => {
                        changed = true;
                        if *v == 0 {
                            out.push(IrInstr { op: IrOp::Jump { target: *target }, line: instr.line });
                        }
                    },
                    None => {
                        out.push(instr.clone());
                    },
                }
            },
            IrOp::JumpIfTrue { cond, target } => {
                match constants.get(&cond.id) {
                    Some(v) => {
                        changed = true;
                        if *v != 0 {
                            out.push(IrInstr { op: IrOp::Jump { target: *target }, line: instr.line });
                        }
                    },
                    None => {
                        out.push(instr.clone());
                    },
                }
            },
            _ => {
                out.push(instr.clone());
            },
        }
        proof {
            assert(changed == (ch0 || dbe_resolves(body0, body0[i as int])));
            if ch0 {
                let k = choose|k: int| 0 <= k < i && #[trigger] dbe_resolves(body0, body0[k]);
            }
            if exists|k: int| 0 <= k < i + 1 && #[trigger] dbe_resolves(body0, body0[k]) {
                let k = choose|k: int| 0 <= k < i + 1 && #[trigger] dbe_resolves(body0, body0[k]);
                if k < i {
                    assert(ch0);
                }
            }
        }
        i += 1;
    }
    proof {
        assert(body0.subrange(0, i as int) =~= body0);
    }
    func.body = out;
    changed
}
} // verus!
