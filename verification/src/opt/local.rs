//! Block-local rewrites: common sub-expressions, jump threading and
//! compare-with-zero branches.

use vstd::prelude::*;

use crate::ir::{IrFunction, IrInstr, IrOp, Label, VReg, Width, same_instr, same_op};
use crate::maps::{AssocMap, IdSet, distinct_keys, forward_ok, lemma_forward_ok_refl, lemma_forwards_trans};
use crate::opt::basic::same_header;
use crate::opt::ops::{op_srcs_no_asm, ids_of, collect_src_vreg_ids};

verus! {

fn width_code(w: Width) -> (r: u8)
    ensures
        r == match w {
            Width::W8 => 0u8,
            Width::W16 => 1u8,
            Width::W32 => 2u8,
        },
{
    match w {
        Width::W8 => 0,
        Width::W16 => 1,
        Width::W32 => 2,
    }
}

/// The operations whose results are reused by common-sub-expression
/// elimination.
pub open spec fn cse_candidate(op: IrOp) -> bool {
    op is Add || op is Sub || op is Mul || op is And || op is Or || op is Xor || op is Neg || op is Not
}

/// The number of a width.
pub open spec fn width_num(w: Width) -> u8 {
    match w {
        Width::W8 => 0u8,
        Width::W16 => 1u8,
        Width::W32 => 2u8,
    }
}

/// The key of a computation and its destination: the operation kind, its
/// operand ids and its width.
pub open spec fn spec_cse_key(op: IrOp) -> Option<((u8, u32, u32, u8), VReg)> {
    match op {
        IrOp::Add { dst, lhs, rhs, width } => Some(((0u8, lhs.id, rhs.id, width_num(width)), dst)),
        IrOp::Sub { dst, lhs, rhs, width } => Some(((1u8, lhs.id, rhs.id, width_num(width)), dst)),
        IrOp::Mul { dst, lhs, rhs, width, signed } => Some(((if signed { 2u8 } else { 3u8 }, lhs.id, rhs.id, width_num(width)), dst)),
        IrOp::And { dst, lhs, rhs, width } => Some(((4u8, lhs.id, rhs.id, width_num(width)), dst)),
        IrOp::Or { dst, lhs, rhs, width } => Some(((5u8, lhs.id, rhs.id, width_num(width)), dst)),
        IrOp::Xor { dst, lhs, rhs, width } => Some(((6u8, lhs.id, rhs.id, width_num(width)), dst)),
        IrOp::Neg { dst, src, width } => Some(((7u8, src.id, 0u32, width_num(width)), dst)),
        IrOp::Not { dst, src, width } => Some(((8u8, src.id, 0u32, width_num(width)), dst)),
        _ => None,
    }
}

/// The key of a computation and its destination (`cse_key`): the
/// operation kind, its operand ids and its width.
pub fn cse_key(op: &IrOp) -> (r: Option<((u8, u32, u32, u8), VReg)>)
    ensures
        r == spec_cse_key(*op),
        r is Some <==> cse_candidate(*op),
        r matches Some((_, d)) ==> crate::opt::ops::op_dst(*op) == Some(d),
{
    match op {
        IrOp::Add { dst, lhs, rhs, width } => Some(((0, lhs.id, rhs.id, width_code(*width)), *dst)),
        IrOp::Sub { dst, lhs, rhs, width } => Some(((1, lhs.id, rhs.id, width_code(*width)), *dst)),
        IrOp::Mul { dst, lhs, rhs, width, signed } => Some(
            ((if *signed { 2 } else { 3 }, lhs.id, rhs.id, width_code(*width)), *dst),
        ),
        IrOp::And { dst, lhs, rhs, width } => Some(((4, lhs.id, rhs.id, width_code(*width)), *dst)),
        IrOp::Or { dst, lhs, rhs, width } => Some(((5, lhs.id, rhs.id, width_code(*width)), *dst)),
        IrOp::Xor { dst, lhs, rhs, width } => Some(((6, lhs.id, rhs.id, width_code(*width)), *dst)),
        IrOp::Neg { dst, src, width } => Some(((7, src.id, 0, width_code(*width)), *dst)),
        IrOp::Not { dst, src, width } => Some(((8, src.id, 0, width_code(*width)), *dst)),
        _ => None,
    }
}

/// Operations that end a basic block for common-sub-expression elimination.
pub open spec fn cse_boundary(op: IrOp) -> bool {
    op is Label || op is Jump || op is JumpIfTrue || op is JumpIfFalse || op is Call || op is Return
}

/// The available computation with key `k` held in `holder` no longer
/// holds once vreg `w` is written: `w` is one of its operands or the holder.
pub open spec fn cse_mentions(k: (u8, u32, u32, u8), holder: VReg, w: u32) -> bool {
    k.1 == w || k.2 == w || holder.id == w
}

/// The available computations that survive a write of vreg `w`.
pub open spec fn cse_kill(m: Map<(u8, u32, u32, u8), VReg>, w: u32) -> Map<(u8, u32, u32, u8), VReg> {
    Map::new(|k: (u8, u32, u32, u8)| m.contains_key(k) && !cse_mentions(k, m[k], w), |k: (u8, u32, u32, u8)| m[k])
}

/// The key names the vreg `w` as an operand.
pub open spec fn key_reads(k: (u8, u32, u32, u8), w: u32) -> bool {
    k.1 == w || k.2 == w
}

/// The computations available after the first `n` instructions of the
/// block: each key with the first destination that computed it since the
/// last boundary, as long as neither its operands nor that destination
/// have been written since.
pub open spec fn cse_state(body: Seq<IrInstr>, n: int) -> Map<(u8, u32, u32, u8), VReg>
    decreases n,
{
    if n <= 0 {
        Map::empty()
    } else {
        let m = cse_state(body, n - 1);
        let op = body[n - 1].op;
        if cse_boundary(op) {
            Map::empty()
        } else {
            let m1 = match crate::opt::ops::op_dst(op) {
                Some(w) => cse_kill(m, w.id),
                None => m,
            };
            match spec_cse_key(op) {
                Some((k, d)) => if m.contains_key(k) || key_reads(k, d.id) { m1 } else { m1.insert(k, d) },
                None => m1,
            }
        }
    }
}

/// Drop the available computations that a write of vreg `w` invalidates.
fn kill_mentions(m: &AssocMap<(u8, u32, u32, u8), VReg>, w: u32) -> (r: AssocMap<(u8, u32, u32, u8), VReg>)
    requires
        m.wf(),
    ensures
        r.wf(),
        r@ == cse_kill(m@, w),
{
    proof {
        m.lemma_entries();
    }
    let mut r: AssocMap<(u8, u32, u32, u8), VReg> = AssocMap::new();
    let mut i: usize = 0;
    while i < m.len()
        invariant
            m.wf(),
            i <= m.entries().len(),
            r.wf(),
            distinct_keys(m.entries()),
            forall|x: (u8, u32, u32, u8)| #[trigger] m@.contains_key(x) <==> exists|j: int| 0 <= j < m.entries().len() && m.entries()[j].0@ == x,
            forall|j: int| 0 <= j < m.entries().len() ==> m@.contains_key(#[trigger] m.entries()[j].0@) && m@[m.entries()[j].0@] == m.entries()[j].1,
            forall|x: (u8, u32, u32, u8)| #[trigger] r@.contains_key(x) <==> exists|j: int| 0 <= j < i && m.entries()[j].0@ == x
                && !cse_mentions(x, m.entries()[j].1, w),
            forall|x: (u8, u32, u32, u8)| #[trigger] r@.contains_key(x) ==> m@.contains_key(x) && r@[x] == m@[x],
        decreases m.entries().len() - i,
    {
        let k = *m.key_at(i);
        let v = *m.value_at(i);
        let ghost r0 = r@;
        if !(k.1 == w || k.2 == w || v.id == w) {
            r.insert(k, v);
            proof {
                assert forall|x: (u8, u32, u32, u8)| #[trigger] r@.contains_key(x) <==> exists|j: int| 0 <= j < i + 1 && m.entries()[j].0@ == x
                    && !cse_mentions(x, m.entries()[j].1, w) by {
                    if x == k {
                        assert(m.entries()[i as int].0@ == x);
                    } else if r@.contains_key(x) {
                        assert(r0.contains_key(x));
                    } else if exists|j: int| 0 <= j < i + 1 && m.entries()[j].0@ == x && !cse_mentions(x, m.entries()[j].1, w) {
                        let j = choose|j: int| 0 <= j < i + 1 && m.entries()[j].0@ == x && !cse_mentions(x, m.entries()[j].1, w);
                        assert(j < i);
                        assert(r0.contains_key(x));
                    }
                }
                assert(m@.contains_key(m.entries()[i as int].0@));
            }
        } else {
            proof {
                assert forall|x: (u8, u32, u32, u8)| #[trigger] r@.contains_key(x) <==> exists|j: int| 0 <= j < i + 1 && m.entries()[j].0@ == x
                    && !cse_mentions(x, m.entries()[j].1, w) by {
                    if exists|j: int| 0 <= j < i + 1 && m.entries()[j].0@ == x && !cse_mentions(x, m.entries()[j].1, w) {
                        let j = choose|j: int| 0 <= j < i + 1 && m.entries()[j].0@ == x && !cse_mentions(x, m.entries()[j].1, w);
                        if j == i {
                            assert(m.entries()[i as int].0 == k);
                        }
                    }
                }
            }
        }
        i += 1;
    }
    proof {
        assert forall|x: (u8, u32, u32, u8)| #[trigger] r@.contains_key(x) <==> cse_kill(m@, w).contains_key(x) by {
            if m@.contains_key(x) {
                let j = choose|j: int| 0 <= j < m.entries().len() && m.entries()[j].0@ == x;
                assert(m@[x] == m.entries()[j].1);
                if r@.contains_key(x) {
                    let j2 = choose|j2: int| 0 <= j2 < m.entries().len() && m.entries()[j2].0@ == x && !cse_mentions(x, m.entries()[j2].1, w);
                    assert(m@[x] == m.entries()[j2].1);
                }
            }
        }
        assert(r@ =~= cse_kill(m@, w));
    }
    r
}

/// The instruction at `i` after common-sub-expression elimination: a copy
/// of the register holding an available equal computation, or itself.
pub open spec fn cse_instr(body: Seq<IrInstr>, i: int) -> IrInstr {
    let ins = body[i];
    let m = cse_state(body, i);
    if cse_boundary(ins.op) {
        ins
    } else {
        match spec_cse_key(ins.op) {
            Some((k, d)) => if m.contains_key(k) {
                IrInstr { op: IrOp::Copy { dst: d, src: m[k] }, line: ins.line }
            } else {
                ins
            },
            None => ins,
        }
    }
}

/// `b` is a copy into the destination of the candidate computation `a`.
pub open spec fn cse_replaced(a: IrInstr, b: IrInstr) -> bool {
    cse_candidate(a.op) && b.line == a.line && match b.op {
        IrOp::Copy { dst, .. } => crate::opt::ops::op_dst(a.op) == Some(dst),
        _ => false,
    }
}

/// Within each basic block, replace a repeated computation by a copy of
/// the register that already holds its result, as long as neither its
/// operands nor that register have been written in between.
#[verifier::rlimit(80)]
pub fn cse(func: &mut IrFunction) -> (changed: bool)
    ensures
        same_header(*old(func), *final(func)),
        final(func).body@.len() == old(func).body@.len(),
        forall|i: int| 0 <= i < old(func).body@.len() ==> #[trigger] same_instr(final(func).body@[i], cse_instr(old(func).body@, i)),
        forall|i: int| 0 <= i < old(func).body@.len() ==> #[trigger] same_instr(final(func).body@[i], old(func).body@[i])
            || cse_replaced(old(func).body@[i], final(func).body@[i]),
        changed == exists|i: int| 0 <= i < old(func).body@.len() && cse_instr(old(func).body@, i) != old(func).body@[i],
{
    let mut changed = false;
    let mut expr_map: AssocMap<(u8, u32, u32, u8), VReg> = AssocMap::new();
    let mut new_body: Vec<IrInstr> = Vec::new();
    let ghost body0 = func.body@;
    let mut i: usize = 0;
    while i < func.body.len()
        invariant
            i <= func.body@.len(),
            func.body@ == body0,
            expr_map.wf(),
            expr_map@ == cse_state(body0, i as int),
            new_body@.len() == i,
            forall|k: int| 0 <= k < i ==> #[trigger] same_instr(new_body@[k], cse_instr(body0, k)),
            forall|k: int| 0 <= k < i ==> #[trigger] same_instr(new_body@[k], func.body@[k])
                || cse_replaced(func.body@[k], new_body@[k]),
            changed == exists|k: int| 0 <= k < i && cse_instr(body0, k) != body0[k],
        decreases func.body@.len() - i,
    {
        let instr = &func.body[i];
        let boundary = match &instr.op {
            IrOp::Label { .. } | IrOp::Jump { .. } | IrOp::JumpIfTrue { .. } | IrOp::JumpIfFalse { .. }
            | IrOp::Call { .. } | IrOp::Return { .. } => true,
            _ => false,
        };
        proof {
            crate::ir::lemma_same_instr_refl(body0[i as int]);
        }
        if boundary {
            expr_map.clear();
            new_body.push(instr.clone());
            proof {
                assert(expr_map@ =~= cse_state(body0, i + 1));
            }
        } else {
            let ghost m0 = expr_map@;
            let mut to_insert: Option<((u8, u32, u32, u8), VReg)> = None;
            match cse_key(&instr.op) {
                Some((key, dst)) => {
                    match expr_map.get(&key) {
                        Some(existing) => {
                            new_body.push(IrInstr { op: IrOp::Copy { dst, src: *existing }, line: instr.line });
                            proof {
                                crate::ir::lemma_same_instr_refl(new_body@[i as int]);
                                assert(cse_instr(body0, i as int) != body0[i as int]);
                            }
                            changed = true;
                        },
                        None => {
                            if !(key.1 == dst.id || key.2 == dst.id) {
                                to_insert = Some((key, dst));
                            }
                            new_body.push(instr.clone());
                        },
                    }
                },
                None => {
                    new_body.push(instr.clone());
                },
            }
            match crate::opt::ops::get_dst_vreg(&instr.op) {
                Some(w) => {
                    expr_map = kill_mentions(&expr_map, w.id);
                },
                None => {},
            }
            match to_insert {
                Some((key, dst)) => {
                    expr_map.insert(key, dst);
                },
                None => {},
            }
            proof {
                assert(expr_map@ =~= cse_state(body0, i + 1));
            }
        }
        proof {
            assert(same_instr(new_body@[i as int], cse_instr(body0, i as int)));
            if changed {
                assert(exists|k: int| 0 <= k < i + 1 && cse_instr(body0, k) != body0[k]);
            }
            if exists|k: int| 0 <= k < i + 1 && cse_instr(body0, k) != body0[k] {
                let k = choose|k: int| 0 <= k < i + 1 && cse_instr(body0, k) != body0[k];
                if k < i {
                    assert(changed);
                }
            }
        }
        i += 1;
    }
    func.body = new_body;
    changed
}

/// The operation is a jump (conditional or not).
pub open spec fn is_jump(op: IrOp) -> bool {
    op is Jump || op is JumpIfTrue || op is JumpIfFalse
}

/// `b` is `a` with at most the jump target changed.
pub open spec fn retargeted(a: IrInstr, b: IrInstr) -> bool {
    a.line == b.line && match a.op {
        IrOp::Jump { .. } => b.op is Jump,
        IrOp::JumpIfTrue { cond, .. } => b.op matches IrOp::JumpIfTrue { cond: c, .. } && c == cond,
        IrOp::JumpIfFalse { cond, .. } => b.op matches IrOp::JumpIfFalse { cond: c, .. } && c == cond,
        _ => same_op(a.op, b.op),
    }
}

/// The positions of the labels among the first `n` instructions (the last
/// one for a label placed twice).
pub open spec fn label_slots(body: Seq<IrInstr>, n: int) -> Map<u32, usize>
    decreases n,
{
    if n <= 0 {
        Map::empty()
    } else {
        let m = label_slots(body, n - 1);
        match body[n - 1].op {
            IrOp::Label { label } => m.insert(label.0, (n - 1) as usize),
            _ => m,
        }
    }
}

/// The first position at or after `j` that holds no label.
pub open spec fn skip_labels(body: Seq<IrInstr>, j: int) -> int
    decreases body.len() - j,
{
    if j < 0 || j >= body.len() {
        j
    } else if body[j].op is Label {
        skip_labels(body, j + 1)
    } else {
        j
    }
}

/// The target of the unconditional jump that follows the label `l` placed
/// at `idx` (past further labels), unless it jumps back to `l`.
pub open spec fn jump_after_label(body: Seq<IrInstr>, l: u32, idx: int) -> Option<u32> {
    let j = skip_labels(body, idx + 1);
    if 0 <= j < body.len() {
        match body[j].op {
            IrOp::Jump { target } => if target.0 != l { Some(target.0) } else { None },
            _ => None,
        }
    } else {
        None
    }
}

/// Each label directly followed by an unconditional jump elsewhere, with
/// that jump's target.
pub open spec fn label_forward(body: Seq<IrInstr>) -> Map<u32, u32> {
    let slots = label_slots(body, body.len() as int);
    Map::new(
        |l: u32| slots.contains_key(l) && jump_after_label(body, l, slots[l] as int) is Some,
        |l: u32| jump_after_label(body, l, slots[l] as int)->Some_0,
    )
}

/// A jump sent on through `f`; other instructions as they are.
pub open spec fn retarget_by(ins: IrInstr, f: Map<u32, u32>) -> IrInstr {
    match ins.op {
        IrOp::Jump { target } => if f.contains_key(target.0) {
            IrInstr { op: IrOp::Jump { target: Label(f[target.0]) }, line: ins.line }
        } else {
            ins
        },
        IrOp::JumpIfTrue { cond, target } => if f.contains_key(target.0) {
            IrInstr { op: IrOp::JumpIfTrue { cond, target: Label(f[target.0]) }, line: ins.line }
        } else {
            ins
        },
        IrOp::JumpIfFalse { cond, target } => if f.contains_key(target.0) {
            IrInstr { op: IrOp::JumpIfFalse { cond, target: Label(f[target.0]) }, line: ins.line }
        } else {
            ins
        },
        _ => ins,
    }
}

/// The instruction is a jump to a label that `f` sends on.
pub open spec fn jumps_into(ins: IrInstr, f: Map<u32, u32>) -> bool {
    match ins.op {
        IrOp::Jump { target } | IrOp::JumpIfTrue { target, .. } | IrOp::JumpIfFalse { target, .. } => f.contains_key(target.0),
        _ => false,
    }
}

/// The body with every jump sent on through `f`, and whether some jump was.
pub open spec fn threaded(old: Seq<IrInstr>, new: Seq<IrInstr>, f: Map<u32, u32>, changed: bool) -> bool {
    &&& new.len() == old.len()
    &&& forall|i: int| 0 <= i < old.len() ==> #[trigger] same_instr(new[i], retarget_by(old[i], f))
    &&& changed == exists|i: int| 0 <= i < old.len() && #[trigger] jumps_into(old[i], f)
}

fn retarget_with(instr: &IrInstr, forward: &AssocMap<u32, u32>) -> (r: (IrInstr, bool))
    requires
        forward.wf(),
    ensures
        same_instr(r.0, retarget_by(*instr, forward@)),
        r.1 == jumps_into(*instr, forward@),
        retargeted(*instr, r.0),
{
    proof {
        crate::ir::lemma_same_instr_refl(*instr);
    }
    match &instr.op {
        IrOp::Jump { target } => match forward.get(&target.0) {
            Some(t) => {
                let r = IrInstr { op: IrOp::Jump { target: Label(*t) }, line: instr.line };
                proof {
                    crate::ir::lemma_same_instr_refl(r);
                }
                (r, true)
            },
            None => (instr.clone(), false),
        },
        IrOp::JumpIfTrue { cond, target } => match forward.get(&target.0) {
            Some(t) => {
                let r = IrInstr { op: IrOp::JumpIfTrue { cond: *cond, target: Label(*t) }, line: instr.line };
                proof {
                    crate::ir::lemma_same_instr_refl(r);
                }
                (r, true)
            },
            None => (instr.clone(), false),
        },
        IrOp::JumpIfFalse { cond, target } => match forward.get(&target.0) {
            Some(t) => {
                let r = IrInstr { op: IrOp::JumpIfFalse { cond: *cond, target: Label(*t) }, line: instr.line };
                proof {
                    crate::ir::lemma_same_instr_refl(r);
                }
                (r, true)
            },
            None => (instr.clone(), false),
        },
        _ => (instr.clone(), false),
    }
}

/// Retarget jumps whose target label is immediately followed by an
/// unconditional jump towards the final destination of the chain (chains
/// are followed for at most sixteen rounds): the new targets are those of
/// some forwarding that sends each such label to a label its chain reaches.
pub fn jump_threading(func: &mut IrFunction) -> (changed: bool)
    ensures
        same_header(*old(func), *final(func)),
        final(func).body@.len() == old(func).body@.len(),
        forall|i: int| 0 <= i < old(func).body@.len() ==> #[trigger] retargeted(old(func).body@[i], final(func).body@[i]),
        exists|f: Map<u32, u32>| forward_ok(label_forward(old(func).body@), f)
            && #[trigger] threaded(old(func).body@, final(func).body@, f, changed),
{
    let ghost body0 = func.body@;
    // Label id -> index of its (last) definition.
    let mut label_index: AssocMap<u32, usize> = AssocMap::new();
    let mut i: usize = 0;
    while i < func.body.len()
        invariant
            i <= func.body@.len(),
            func.body@ == body0,
            label_index.wf(),
            label_index@ == label_slots(body0, i as int),
            forall|l: u32| #[trigger] label_index@.contains_key(l) ==> label_index@[l] < i,
        decreases func.body@.len() - i,
    {
        match &func.body[i].op {
            IrOp::Label { label } => {
                label_index.insert(label.0, i);
            },
            _ => {},
        }
        i += 1;
    }
    // Label -> target of the jump that follows it.
    proof {
        label_index.lemma_entries();
    }
    let nl = label_index.len();
    let mut forward: AssocMap<u32, u32> = AssocMap::new();
    let mut e: usize = 0;
    while e < nl
        invariant
            e <= nl,
            nl == label_index.entries().len(),
            func.body@ == body0,
            label_index.wf(),
            forward.wf(),
            label_index@ == label_slots(body0, body0.len() as int),
            distinct_keys(label_index.entries()),
            forall|i: int| 0 <= i < label_index.entries().len() ==> label_index@.contains_key(#[trigger] label_index.entries()[i].0)
                && label_index@[label_index.entries()[i].0] == label_index.entries()[i].1,
            forall|l: u32| #[trigger] label_index@.contains_key(l) ==> label_index@[l] < body0.len(),
            forall|x: u32| #[trigger] forward@.contains_key(x) <==> (exists|k: int| 0 <= k < e && label_index.entries()[k].0 == x)
                && label_index@.contains_key(x) && jump_after_label(body0, x, label_index@[x] as int) is Some,
            forall|x: u32| #[trigger] forward@.contains_key(x) ==> jump_after_label(body0, x, label_index@[x] as int) == Some(forward@[x]),
        decreases nl - e,
    {
        let label_id = *label_index.key_at(e);
        let idx = *label_index.value_at(e);
        let ghost before = forward@;
        assert(label_index@.contains_key(label_id));
        let n = func.body.len();
        let mut j: usize = idx + 1;
        let mut found: Option<u32> = None;
        let mut stop = false;
        while j < n && !stop
            invariant
                func.body@ == body0,
                n == body0.len(),
                idx < body0.len(),
                idx + 1 <= j,
                skip_labels(body0, idx + 1) == skip_labels(body0, j as int),
                stop ==> j < n && !(body0[j as int].op is Label),
                found is None,
            decreases n - j, (if stop { 0int } else { 1int }),
        {
            let is_label = match &func.body[j].op {
                IrOp::Label { .. } => true,
                _ => false,
            };
            if !is_label {
                stop = true;
            } else {
                j += 1;
            }
        }
        assert(skip_labels(body0, j as int) == j as int);
        if j < func.body.len() {
            match &func.body[j].op {
                IrOp::Jump { target } => {
                    if target.0 != label_id {
                        found = Some(target.0);
                    }
                },
                _ => {},
            }
        }
        assert(found == jump_after_label(body0, label_id, idx as int));
        match found {
            Some(t) => {
                forward.insert(label_id, t);
            },
            None => {},
        }
        proof {
            assert forall|x: u32| #[trigger] forward@.contains_key(x) <==> (exists|k: int| 0 <= k < e + 1 && label_index.entries()[k].0 == x)
                && label_index@.contains_key(x) && jump_after_label(body0, x, label_index@[x] as int) is Some by {
                if x == label_id {
                    assert(label_index.entries()[e as int].0 == x);
                } else {
                    if exists|k: int| 0 <= k < e + 1 && label_index.entries()[k].0 == x {
                        let k = choose|k: int| 0 <= k < e + 1 && label_index.entries()[k].0 == x;
                        assert(k < e);
                    }
                    assert(forward@.contains_key(x) == before.contains_key(x));
                }
            }
        }
        e += 1;
    }
    let ghost f0 = forward@;
    proof {
        assert forall|x: u32| #[trigger] label_index@.contains_key(x) implies exists|k: int| 0 <= k < nl && label_index.entries()[k].0 == x by {
            label_index.lemma_entries();
        }
        assert(f0 =~= label_forward(body0));
        lemma_forward_ok_refl(f0);
    }
    if forward.is_empty() {
        proof {
            assert(threaded(body0, body0, f0, false)) by {
                assert forall|i: int| 0 <= i < body0.len() implies #[trigger] same_instr(body0[i], retarget_by(body0[i], f0)) by {
                    crate::ir::lemma_same_instr_refl(body0[i]);
                }
            }
            assert forall|i: int| 0 <= i < body0.len() implies #[trigger] retargeted(body0[i], body0[i]) by {
                crate::ir::lemma_same_instr_refl(body0[i]);
            }
        }
        return false;
    }
    // Resolve chains, at most sixteen rounds.
    let mut round: usize = 0;
    while round < 16
        invariant
            forward.wf(),
            forward_ok(f0, forward@),
        decreases 16 - round,
    {
        let mut any = false;
        proof {
            forward.lemma_entries();
        }
        let mut snapshot: Vec<(u32, u32)> = Vec::new();
        let mut k: usize = 0;
        while k < forward.len()
            invariant
                k <= forward.entries().len(),
                forward.wf(),
                snapshot@.len() == k,
                forall|j: int| 0 <= j < k ==> #[trigger] snapshot@[j] == forward.entries()[j],
            decreases forward.entries().len() - k,
        {
            snapshot.push((*forward.key_at(k), *forward.value_at(k)));
            k += 1;
        }
        let mut s: usize = 0;
        while s < snapshot.len()
            invariant
                forward.wf(),
                forward_ok(f0, forward@),
                s <= snapshot@.len(),
                forall|a: int, b: int| 0 <= a < b < snapshot@.len() ==> snapshot@[a].0 != snapshot@[b].0,
                forall|j: int| s <= j < snapshot@.len() ==> forward@.contains_key(#[trigger] snapshot@[j].0)
                    && forward@[snapshot@[j].0] == snapshot@[j].1,
            decreases snapshot@.len() - s,
        {
            let (src, dst) = snapshot[s];
            match forward.get(&dst) {
                Some(further) => {
                    let f = *further;
                    if f != src {
                        let ghost big_f = forward@;
                        proof {
                            lemma_forwards_trans(f0, src, dst, f);
                        }
                        forward.insert(src, f);
                        proof {
                            assert(forward@.dom() =~= f0.dom());
                        }
                        any = true;
                    }
                },
                None => {},
            }
            s += 1;
        }
        if !any {
            break;
        }
        round += 1;
    }
    let ghost big_f = forward@;
    let mut changed = false;
    let mut new_body: Vec<IrInstr> = Vec::new();
    let mut i: usize = 0;
    while i < func.body.len()
        invariant
            i <= func.body@.len(),
            func.body@ == body0,
            forward.wf(),
            forward@ == big_f,
            new_body@.len() == i,
            forall|k: int| 0 <= k < i ==> #[trigger] retargeted(func.body@[k], new_body@[k]),
            forall|k: int| 0 <= k < i ==> #[trigger] same_instr(new_body@[k], retarget_by(body0[k], big_f)),
            changed == exists|k: int| 0 <= k < i && #[trigger] jumps_into(body0[k], big_f),
        decreases func.body@.len() - i,
    {
        let (ins, ch) = retarget_with(&func.body[i], &forward);
        if ch {
            changed = true;
        }
        new_body.push(ins);
        proof {
            if ch {
                assert(jumps_into(body0[i as int], big_f));
            }
            if exists|k: int| 0 <= k < i + 1 && #[trigger] jumps_into(body0[k], big_f) {
                let k = choose|k: int| 0 <= k < i + 1 && #[trigger] jumps_into(body0[k], big_f);
                if k < i {
                    assert(changed);
                }
            }
        }
        i += 1;
    }
    func.body = new_body;
    proof {
        assert(threaded(body0, func.body@, big_f, changed));
    }
    changed
}

} // verus!
