//! Substitution of source vregs through an alias map.

use vstd::prelude::*;

use crate::ir::{IrOp, VReg, same_op};
use crate::maps::AssocMap;

verus! {

/// A source vreg after substitution: replaced by its alias when the alias
/// is a different register.
pub open spec fn sub1(v: VReg, m: Map<u32, VReg>) -> VReg {
    if m.contains_key(v.id) && m[v.id].id != v.id {
        m[v.id]
    } else {
        v
    }
}

/// `new` is `old` with every source vreg (inline-assembly inputs aside)
/// substituted through `m`; destinations and other fields are unchanged.
pub open spec fn subst_rel(old: IrOp, new: IrOp, m: Map<u32, VReg>) -> bool {
    match old {
        IrOp::StoreGlobal { addr_label, src } => new == IrOp::StoreGlobal { addr_label, src: sub1(src, m) },
        IrOp::StoreLocal { offset, src } => new == IrOp::StoreLocal { offset, src: sub1(src, m) },
        IrOp::LoadPtr { dst, ptr } => new == IrOp::LoadPtr { dst, ptr: sub1(ptr, m) },
        IrOp::StorePtr { ptr, src } => new == IrOp::StorePtr { ptr: sub1(ptr, m), src: sub1(src, m) },
        IrOp::Add { dst, lhs, rhs, width } => new == IrOp::Add { dst, lhs: sub1(lhs, m), rhs: sub1(rhs, m), width },
        IrOp::Sub { dst, lhs, rhs, width } => new == IrOp::Sub { dst, lhs: sub1(lhs, m), rhs: sub1(rhs, m), width },
        IrOp::Mul { dst, lhs, rhs, width, signed } => new == IrOp::Mul { dst, lhs: sub1(lhs, m), rhs: sub1(rhs, m), width, signed },
        IrOp::Div { dst, lhs, rhs, width, signed } => new == IrOp::Div { dst, lhs: sub1(lhs, m), rhs: sub1(rhs, m), width, signed },
        IrOp::Mod { dst, lhs, rhs, width, signed } => new == IrOp::Mod { dst, lhs: sub1(lhs, m), rhs: sub1(rhs, m), width, signed },
        IrOp::And { dst, lhs, rhs, width } => new == IrOp::And { dst, lhs: sub1(lhs, m), rhs: sub1(rhs, m), width },
        IrOp::Or { dst, lhs, rhs, width } => new == IrOp::Or { dst, lhs: sub1(lhs, m), rhs: sub1(rhs, m), width },
        IrOp::Xor { dst, lhs, rhs, width } => new == IrOp::Xor { dst, lhs: sub1(lhs, m), rhs: sub1(rhs, m), width },
        IrOp::Shl { dst, lhs, rhs, width } => new == IrOp::Shl { dst, lhs: sub1(lhs, m), rhs: sub1(rhs, m), width },
        IrOp::Shr { dst, lhs, rhs, width, arithmetic } => new == IrOp::Shr { dst, lhs: sub1(lhs, m), rhs: sub1(rhs, m), width, arithmetic },
        IrOp::Eq { dst, lhs, rhs, width } => new == IrOp::Eq { dst, lhs: sub1(lhs, m), rhs: sub1(rhs, m), width },
        IrOp::Ne { dst, lhs, rhs, width } => new == IrOp::Ne { dst, lhs: sub1(lhs, m), rhs: sub1(rhs, m), width },
        IrOp::Lt { dst, lhs, rhs, width, signed } => new == IrOp::Lt { dst, lhs: sub1(lhs, m), rhs: sub1(rhs, m), width, signed },
        IrOp::Le { dst, lhs, rhs, width, signed } => new == IrOp::Le { dst, lhs: sub1(lhs, m), rhs: sub1(rhs, m), width, signed },
        IrOp::Gt { dst, lhs, rhs, width, signed } => new == IrOp::Gt { dst, lhs: sub1(lhs, m), rhs: sub1(rhs, m), width, signed },
        IrOp::Ge { dst, lhs, rhs, width, signed } => new == IrOp::Ge { dst, lhs: sub1(lhs, m), rhs: sub1(rhs, m), width, signed },
        IrOp::Neg { dst, src, width } => new == IrOp::Neg { dst, src: sub1(src, m), width },
        IrOp::Not { dst, src, width } => new == IrOp::Not { dst, src: sub1(src, m), width },
        IrOp::LogicalNot { dst, src, width } => new == IrOp::LogicalNot { dst, src: sub1(src, m), width },
        IrOp::Copy { dst, src } => new == IrOp::Copy { dst, src: sub1(src, m) },
        IrOp::Cast { dst, src, to_type } => new == IrOp::Cast { dst, src: sub1(src, m), to_type },
        IrOp::JumpIfTrue { cond, target } => new == IrOp::JumpIfTrue { cond: sub1(cond, m), target },
        IrOp::JumpIfFalse { cond, target } => new == IrOp::JumpIfFalse { cond: sub1(cond, m), target },
        IrOp::Call { func_name, args, dst } => new matches IrOp::Call { func_name: f2, args: a2, dst: d2 } && f2 == func_name && d2 == dst && a2@ == args@.map_values(|x: VReg| sub1(x, m)),
        IrOp::Return { value } => new == IrOp::Return { value: match value { Some(x) => Some(sub1(x, m)), None => None } },
        IrOp::PtrAdd { dst, ptr, offset, element_size } => new == IrOp::PtrAdd { dst, ptr: sub1(ptr, m), offset: sub1(offset, m), element_size },
        _ => same_op(old, new),
    }
}

fn sub1_exec(v: VReg, subs: &AssocMap<u32, VReg>, changed: &mut bool) -> (r: VReg)
    requires
        subs.wf(),
    ensures
        r == sub1(v, subs@),
        *final(changed) == (*old(changed) || r != v),
{
    match subs.get(&v.id) {
        Some(s) => {
            if s.id != v.id {
                *changed = true;
                *s
            } else {
                v
            }
        },
        None => v,
    }
}

fn sub_vec(args: &Vec<VReg>, subs: &AssocMap<u32, VReg>, changed: &mut bool) -> (r: Vec<VReg>)
    requires
        subs.wf(),
    ensures
        r@ == args@.map_values(|x: VReg| sub1(x, subs@)),
        *final(changed) == (*old(changed) || r@ != args@),
{
    let mut out: Vec<VReg> = Vec::new();
    let mut i: usize = 0;
    let ghost c0 = *changed;
    proof {
        assert(out@ =~= args@.subrange(0, 0));
    }
    while i < args.len()
        invariant
            i <= args@.len(),
            subs.wf(),
            out@ == args@.subrange(0, i as int).map_values(|x: VReg| sub1(x, subs@)),
            *changed == (c0 || out@ != args@.subrange(0, i as int)),
        decreases args@.len() - i,
    {
        let ghost prev = out@;
        let x = sub1_exec(args[i], subs, changed);
        out.push(x);
        proof {
            assert(args@.subrange(0, i as int + 1).map_values(|x: VReg| sub1(x, subs@)) =~= prev.push(sub1(args@[i as int], subs@)));
            if prev != args@.subrange(0, i as int) {
                assert(out@.subrange(0, i as int) =~= prev);
                assert(args@.subrange(0, i as int + 1).subrange(0, i as int) =~= args@.subrange(0, i as int));
            }
            if x != args@[i as int] {
                assert(out@[i as int] != args@.subrange(0, i as int + 1)[i as int]);
            }
            if prev == args@.subrange(0, i as int) && x == args@[i as int] {
                assert(out@ =~= args@.subrange(0, i as int + 1));
            }
        }
        i += 1;
    }
    proof {
        assert(args@.subrange(0, i as int) =~= args@);
    }
    out
}

/// Substitute aliased source vregs of an operation (`subst_vreg_in_op`).
#[verifier::rlimit(100)]
pub fn subst_vreg_in_op(op: &IrOp, subs: &AssocMap<u32, VReg>) -> (r: (IrOp, bool))
    requires
        subs.wf(),
    ensures
        subst_rel(*op, r.0, subs@),
        r.1 == !same_op(*op, r.0),
{
    let mut ch = false;
    let changed = &mut ch;
    let new_op = match op {
        IrOp::StoreGlobal { addr_label, src } => {
            let n = IrOp::StoreGlobal { addr_label: addr_label.clone(), src: sub1_exec(*src, subs, changed) };
            n
        },
        IrOp::StoreLocal { offset, src } => {
            let n = IrOp::StoreLocal { offset: *offset, src: sub1_exec(*src, subs, changed) };
            n
        },
        IrOp::LoadPtr { dst, ptr } => {
            let n = IrOp::LoadPtr { dst: *dst, ptr: sub1_exec(*ptr, subs, changed) };
            n
        },
        IrOp::StorePtr { ptr, src } => {
            let n = IrOp::StorePtr { ptr: sub1_exec(*ptr, subs, changed), src: sub1_exec(*src, subs, changed) };
            n
        },
        IrOp::Add { dst, lhs, rhs, width } => {
            let n = IrOp::Add { dst: *dst, lhs: sub1_exec(*lhs, subs, changed), rhs: sub1_exec(*rhs, subs, changed), width: *width };
            n
        },
        IrOp::Sub { dst, lhs, rhs, width } => {
            let n = IrOp::Sub { dst: *dst, lhs: sub1_exec(*lhs, subs, changed), rhs: sub1_exec(*rhs, subs, changed), width: *width };
            n
        },
        IrOp::Mul { dst, lhs, rhs, width, signed } => {
            let n = IrOp::Mul { dst: *dst, lhs: sub1_exec(*lhs, subs, changed), rhs: sub1_exec(*rhs, subs, changed), width: *width, signed: *signed };
            n
        },
        IrOp::Div { dst, lhs, rhs, width, signed } => {
            let n = IrOp::Div { dst: *dst, lhs: sub1_exec(*lhs, subs, changed), rhs: sub1_exec(*rhs, subs, changed), width: *width, signed: *signed };
            n
        },
        IrOp::Mod { dst, lhs, rhs, width, signed } => {
            let n = IrOp::Mod { dst: *dst, lhs: sub1_exec(*lhs, subs, changed), rhs: sub1_exec(*rhs, subs, changed), width: *width, signed: *signed };
            n
        },
        IrOp::And { dst, lhs, rhs, width } => {
            let n = IrOp::And { dst: *dst, lhs: sub1_exec(*lhs, subs, changed), rhs: sub1_exec(*rhs, subs, changed), width: *width };
            n
        },
        IrOp::Or { dst, lhs, rhs, width } => {
            let n = IrOp::Or { dst: *dst, lhs: sub1_exec(*lhs, subs, changed), rhs: sub1_exec(*rhs, subs, changed), width: *width };
            n
        },
        IrOp::Xor { dst, lhs, rhs, width } => {
            let n = IrOp::Xor { dst: *dst, lhs: sub1_exec(*lhs, subs, changed), rhs: sub1_exec(*rhs, subs, changed), width: *width };
            n
        },
        IrOp::Shl { dst, lhs, rhs, width } => {
            let n = IrOp::Shl { dst: *dst, lhs: sub1_exec(*lhs, subs, changed), rhs: sub1_exec(*rhs, subs, changed), width: *width };
            n
        },
        IrOp::Shr { dst, lhs, rhs, width, arithmetic } => {
            let n = IrOp::Shr { dst: *dst, lhs: sub1_exec(*lhs, subs, changed), rhs: sub1_exec(*rhs, subs, changed), width: *width, arithmetic: *arithmetic };
            n
        },
        IrOp::Eq { dst, lhs, rhs, width } => {
            let n = IrOp::Eq { dst: *dst, lhs: sub1_exec(*lhs, subs, changed), rhs: sub1_exec(*rhs, subs, changed), width: *width };
            n
        },
        IrOp::Ne { dst, lhs, rhs, width } => {
            let n = IrOp::Ne { dst: *dst, lhs: sub1_exec(*lhs, subs, changed), rhs: sub1_exec(*rhs, subs, changed), width: *width };
            n
        },
        IrOp::Lt { dst, lhs, rhs, width, signed } => {
            let n = IrOp::Lt { dst: *dst, lhs: sub1_exec(*lhs, subs, changed), rhs: sub1_exec(*rhs, subs, changed), width: *width, signed: *signed };
            n
        },
        IrOp::Le { dst, lhs, rhs, width, signed } => {
            let n = IrOp::Le { dst: *dst, lhs: sub1_exec(*lhs, subs, changed), rhs: sub1_exec(*rhs, subs, changed), width: *width, signed: *signed };
            n
        },
        IrOp::Gt { dst, lhs, rhs, width, signed } => {
            let n = IrOp::Gt { dst: *dst, lhs: sub1_exec(*lhs, subs, changed), rhs: sub1_exec(*rhs, subs, changed), width: *width, signed: *signed };
            n
        },
        IrOp::Ge { dst, lhs, rhs, width, signed } => {
            let n = IrOp::Ge { dst: *dst, lhs: sub1_exec(*lhs, subs, changed), rhs: sub1_exec(*rhs, subs, changed), width: *width, signed: *signed };
            n
        },
        IrOp::Neg { dst, src, width } => {
            let n = IrOp::Neg { dst: *dst, src: sub1_exec(*src, subs, changed), width: *width };
            n
        },
        IrOp::Not { dst, src, width } => {
            let n = IrOp::Not { dst: *dst, src: sub1_exec(*src, subs, changed), width: *width };
            n
        },
        IrOp::LogicalNot { dst, src, width } => {
            let n = IrOp::LogicalNot { dst: *dst, src: sub1_exec(*src, subs, changed), width: *width };
            n
        },
        IrOp::Copy { dst, src } => {
            let n = IrOp::Copy { dst: *dst, src: sub1_exec(*src, subs, changed) };
            n
        },
        IrOp::Cast { dst, src, to_type } => {
            let n = IrOp::Cast { dst: *dst, src: sub1_exec(*src, subs, changed), to_type: to_type.clone() };
            n
        },
        IrOp::JumpIfTrue { cond, target } => {
            let n = IrOp::JumpIfTrue { cond: sub1_exec(*cond, subs, changed), target: *target };
            n
        },
        IrOp::JumpIfFalse { cond, target } => {
            let n = IrOp::JumpIfFalse { cond: sub1_exec(*cond, subs, changed), target: *target };
            n
        },
        IrOp::Call { func_name, args, dst } => {
            let n = IrOp::Call { func_name: func_name.clone(), args: sub_vec(args, subs, changed), dst: *dst };
            n
        },
        IrOp::Return { value } => {
            let n = IrOp::Return { value: match value { Some(x) => Some(sub1_exec(*x, subs, changed)), None => None } };
            n
        },
        IrOp::PtrAdd { dst, ptr, offset, element_size } => {
            let n = IrOp::PtrAdd { dst: *dst, ptr: sub1_exec(*ptr, subs, changed), offset: sub1_exec(*offset, subs, changed), element_size: *element_size };
            n
        },
        other => {
            let n = other.clone();
            n
        },
    };
    (new_op, ch)
}

} // verus!
