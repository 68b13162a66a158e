//! Operand queries and rewrites on single IR operations.

use vstd::prelude::*;

use crate::ir::{IrOp, VReg};


verus! {

/// The vreg an operation writes, if any.
pub open spec fn op_dst(op: IrOp) -> Option<VReg> {
    match op {
        IrOp::LoadImm { dst, .. } => Some(dst),
        IrOp::LoadGlobal { dst, .. } => Some(dst),
        IrOp::LoadLocal { dst, .. } => Some(dst),
        IrOp::LoadPtr { dst, .. } => Some(dst),
        IrOp::Add { dst, .. } => Some(dst),
        IrOp::Sub { dst, .. } => Some(dst),
        IrOp::Mul { dst, .. } => Some(dst),
        IrOp::Div { dst, .. } => Some(dst),
        IrOp::Mod { dst, .. } => Some(dst),
        IrOp::And { dst, .. } => Some(dst),
        IrOp::Or { dst, .. } => Some(dst),
        IrOp::Xor { dst, .. } => Some(dst),
        IrOp::Shl { dst, .. } => Some(dst),
        IrOp::Shr { dst, .. } => Some(dst),
        IrOp::Eq { dst, .. } => Some(dst),
        IrOp::Ne { dst, .. } => Some(dst),
        IrOp::Lt { dst, .. } => Some(dst),
        IrOp::Le { dst, .. } => Some(dst),
        IrOp::Gt { dst, .. } => Some(dst),
        IrOp::Ge { dst, .. } => Some(dst),
        IrOp::Neg { dst, .. } => Some(dst),
        IrOp::Not { dst, .. } => Some(dst),
        IrOp::LogicalNot { dst, .. } => Some(dst),
        IrOp::Copy { dst, .. } => Some(dst),
        IrOp::Cast { dst, .. } => Some(dst),
        IrOp::Call { dst, .. } => dst,
        IrOp::AddrOfGlobal { dst, .. } => Some(dst),
        IrOp::PtrAdd { dst, .. } => Some(dst),
        _ => None,
    }
}

/// The vreg an operation writes, if any, for the unrolling of loops
/// (`get_any_dst`): the same as [`get_dst_vreg`].
pub fn get_any_dst(op: &IrOp) -> (r: Option<VReg>)
    ensures
        r == op_dst(*op),
{
    get_dst_vreg(op)
}

/// The vreg an operation writes, if any (`get_dst_vreg`).
pub fn get_dst_vreg(op: &IrOp) -> (r: Option<VReg>)
    ensures
        r == op_dst(*op),
{
    match op {
        IrOp::LoadImm { dst, .. } => Some(*dst),
        IrOp::LoadGlobal { dst, .. } => Some(*dst),
        IrOp::LoadLocal { dst, .. } => Some(*dst),
        IrOp::LoadPtr { dst, .. } => Some(*dst),
        IrOp::Add { dst, .. } => Some(*dst),
        IrOp::Sub { dst, .. } => Some(*dst),
        IrOp::Mul { dst, .. } => Some(*dst),
        IrOp::Div { dst, .. } => Some(*dst),
        IrOp::Mod { dst, .. } => Some(*dst),
        IrOp::And { dst, .. } => Some(*dst),
        IrOp::Or { dst, .. } => Some(*dst),
        IrOp::Xor { dst, .. } => Some(*dst),
        IrOp::Shl { dst, .. } => Some(*dst),
        IrOp::Shr { dst, .. } => Some(*dst),
        IrOp::Eq { dst, .. } => Some(*dst),
        IrOp::Ne { dst, .. } => Some(*dst),
        IrOp::Lt { dst, .. } => Some(*dst),
        IrOp::Le { dst, .. } => Some(*dst),
        IrOp::Gt { dst, .. } => Some(*dst),
        IrOp::Ge { dst, .. } => Some(*dst),
        IrOp::Neg { dst, .. } => Some(*dst),
        IrOp::Not { dst, .. } => Some(*dst),
        IrOp::LogicalNot { dst, .. } => Some(*dst),
        IrOp::Copy { dst, .. } => Some(*dst),
        IrOp::Cast { dst, .. } => Some(*dst),
        IrOp::Call { dst, .. } => *dst,
        IrOp::AddrOfGlobal { dst, .. } => Some(*dst),
        IrOp::PtrAdd { dst, .. } => Some(*dst),
        _ => None,
    }
}

/// The vreg written by a side-effect-free operation, if any.
pub open spec fn op_pure_dst(op: IrOp) -> Option<VReg> {
    match op {
        IrOp::LoadImm { dst, .. } => Some(dst),
        IrOp::Add { dst, .. } => Some(dst),
        IrOp::Sub { dst, .. } => Some(dst),
        IrOp::Mul { dst, .. } => Some(dst),
        IrOp::Div { dst, .. } => Some(dst),
        IrOp::Mod { dst, .. } => Some(dst),
        IrOp::And { dst, .. } => Some(dst),
        IrOp::Or { dst, .. } => Some(dst),
        IrOp::Xor { dst, .. } => Some(dst),
        IrOp::Shl { dst, .. } => Some(dst),
        IrOp::Shr { dst, .. } => Some(dst),
        IrOp::Eq { dst, .. } => Some(dst),
        IrOp::Ne { dst, .. } => Some(dst),
        IrOp::Lt { dst, .. } => Some(dst),
        IrOp::Le { dst, .. } => Some(dst),
        IrOp::Gt { dst, .. } => Some(dst),
        IrOp::Ge { dst, .. } => Some(dst),
        IrOp::Neg { dst, .. } => Some(dst),
        IrOp::Not { dst, .. } => Some(dst),
        IrOp::LogicalNot { dst, .. } => Some(dst),
        IrOp::Copy { dst, .. } => Some(dst),
        IrOp::Cast { dst, .. } => Some(dst),
        IrOp::AddrOfGlobal { dst, .. } => Some(dst),
        IrOp::PtrAdd { dst, .. } => Some(dst),
        _ => None,
    }
}

/// The vreg written by a side-effect-free operation (`get_pure_dst`);
/// `None` for operations with side effects.
pub fn get_pure_dst(op: &IrOp) -> (r: Option<VReg>)
    ensures
        r == op_pure_dst(*op),
{
    match op {
        IrOp::LoadImm { dst, .. } => Some(*dst),
        IrOp::Add { dst, .. } => Some(*dst),
        IrOp::Sub { dst, .. } => Some(*dst),
        IrOp::Mul { dst, .. } => Some(*dst),
        IrOp::Div { dst, .. } => Some(*dst),
        IrOp::Mod { dst, .. } => Some(*dst),
        IrOp::And { dst, .. } => Some(*dst),
        IrOp::Or { dst, .. } => Some(*dst),
        IrOp::Xor { dst, .. } => Some(*dst),
        IrOp::Shl { dst, .. } => Some(*dst),
        IrOp::Shr { dst, .. } => Some(*dst),
        IrOp::Eq { dst, .. } => Some(*dst),
        IrOp::Ne { dst, .. } => Some(*dst),
        IrOp::Lt { dst, .. } => Some(*dst),
        IrOp::Le { dst, .. } => Some(*dst),
        IrOp::Gt { dst, .. } => Some(*dst),
        IrOp::Ge { dst, .. } => Some(*dst),
        IrOp::Neg { dst, .. } => Some(*dst),
        IrOp::Not { dst, .. } => Some(*dst),
        IrOp::LogicalNot { dst, .. } => Some(*dst),
        IrOp::Copy { dst, .. } => Some(*dst),
        IrOp::Cast { dst, .. } => Some(*dst),
        IrOp::AddrOfGlobal { dst, .. } => Some(*dst),
        IrOp::PtrAdd { dst, .. } => Some(*dst),
        _ => None,
    }
}

/// The vregs an operation reads, in operand order.
pub open spec fn op_srcs(op: IrOp) -> Seq<VReg> {
    match op {
        IrOp::StoreGlobal { src, .. } => seq![src],
        IrOp::StoreLocal { src, .. } => seq![src],
        IrOp::LoadPtr { ptr, .. } => seq![ptr],
        IrOp::StorePtr { ptr, src, .. } => seq![ptr] + seq![src],
        IrOp::Add { lhs, rhs, .. } => seq![lhs] + seq![rhs],
        IrOp::Sub { lhs, rhs, .. } => seq![lhs] + seq![rhs],
        IrOp::Mul { lhs, rhs, .. } => seq![lhs] + seq![rhs],
        IrOp::Div { lhs, rhs, .. } => seq![lhs] + seq![rhs],
        IrOp::Mod { lhs, rhs, .. } => seq![lhs] + seq![rhs],
        IrOp::And { lhs, rhs, .. } => seq![lhs] + seq![rhs],
        IrOp::Or { lhs, rhs, .. } => seq![lhs] + seq![rhs],
        IrOp::Xor { lhs, rhs, .. } => seq![lhs] + seq![rhs],
        IrOp::Shl { lhs, rhs, .. } => seq![lhs] + seq![rhs],
        IrOp::Shr { lhs, rhs, .. } => seq![lhs] + seq![rhs],
        IrOp::Eq { lhs, rhs, .. } => seq![lhs] + seq![rhs],
        IrOp::Ne { lhs, rhs, .. } => seq![lhs] + seq![rhs],
        IrOp::Lt { lhs, rhs, .. } => seq![lhs] + seq![rhs],
        IrOp::Le { lhs, rhs, .. } => seq![lhs] + seq![rhs],
        IrOp::Gt { lhs, rhs, .. } => seq![lhs] + seq![rhs],
        IrOp::Ge { lhs, rhs, .. } => seq![lhs] + seq![rhs],
        IrOp::Neg { src, .. } => seq![src],
        IrOp::Not { src, .. } => seq![src],
        IrOp::LogicalNot { src, .. } => seq![src],
        IrOp::Copy { src, .. } => seq![src],
        IrOp::Cast { src, .. } => seq![src],
        IrOp::JumpIfTrue { cond, .. } => seq![cond],
        IrOp::JumpIfFalse { cond, .. } => seq![cond],
        IrOp::Call { args, .. } => args@,
        IrOp::Return { value, .. } => match value { Some(x) => seq![x], None => Seq::empty() },
        IrOp::PtrAdd { ptr, offset, .. } => seq![ptr] + seq![offset],
        IrOp::InlineAsm { inputs, .. } => inputs@.map_values(|e: (VReg, crate::types::CType)| e.0),
        _ => Seq::empty(),
    }
}

/// The vregs an operation reads, in operand order, not counting inline-assembly inputs.
pub open spec fn op_srcs_no_asm(op: IrOp) -> Seq<VReg> {
    match op {
        IrOp::StoreGlobal { src, .. } => seq![src],
        IrOp::StoreLocal { src, .. } => seq![src],
        IrOp::LoadPtr { ptr, .. } => seq![ptr],
        IrOp::StorePtr { ptr, src, .. } => seq![ptr] + seq![src],
        IrOp::Add { lhs, rhs, .. } => seq![lhs] + seq![rhs],
        IrOp::Sub { lhs, rhs, .. } => seq![lhs] + seq![rhs],
        IrOp::Mul { lhs, rhs, .. } => seq![lhs] + seq![rhs],
        IrOp::Div { lhs, rhs, .. } => seq![lhs] + seq![rhs],
        IrOp::Mod { lhs, rhs, .. } => seq![lhs] + seq![rhs],
        IrOp::And { lhs, rhs, .. } => seq![lhs] + seq![rhs],
        IrOp::Or { lhs, rhs, .. } => seq![lhs] + seq![rhs],
        IrOp::Xor { lhs, rhs, .. } => seq![lhs] + seq![rhs],
        IrOp::Shl { lhs, rhs, .. } => seq![lhs] + seq![rhs],
        IrOp::Shr { lhs, rhs, .. } => seq![lhs] + seq![rhs],
        IrOp::Eq { lhs, rhs, .. } => seq![lhs] + seq![rhs],
        IrOp::Ne { lhs, rhs, .. } => seq![lhs] + seq![rhs],
        IrOp::Lt { lhs, rhs, .. } => seq![lhs] + seq![rhs],
        IrOp::Le { lhs, rhs, .. } => seq![lhs] + seq![rhs],
        IrOp::Gt { lhs, rhs, .. } => seq![lhs] + seq![rhs],
        IrOp::Ge { lhs, rhs, .. } => seq![lhs] + seq![rhs],
        IrOp::Neg { src, .. } => seq![src],
        IrOp::Not { src, .. } => seq![src],
        IrOp::LogicalNot { src, .. } => seq![src],
        IrOp::Copy { src, .. } => seq![src],
        IrOp::Cast { src, .. } => seq![src],
        IrOp::JumpIfTrue { cond, .. } => seq![cond],
        IrOp::JumpIfFalse { cond, .. } => seq![cond],
        IrOp::Call { args, .. } => args@,
        IrOp::Return { value, .. } => match value { Some(x) => seq![x], None => Seq::empty() },
        IrOp::PtrAdd { ptr, offset, .. } => seq![ptr] + seq![offset],
        _ => Seq::empty(),
    }
}

/// The ids of a sequence of vregs.
pub open spec fn ids_of(s: Seq<VReg>) -> Seq<u32> {
    s.map_values(|v: VReg| v.id)
}

fn push_ids(out: &mut Vec<u32>, vs: &Vec<VReg>)
    ensures
        final(out)@ == old(out)@ + ids_of(vs@),
{
    let mut i: usize = 0;
    let ghost start = out@;
    while i < vs.len()
        invariant
            i <= vs@.len(),
            out@ == start + ids_of(vs@.subrange(0, i as int)),
        decreases vs@.len() - i,
    {
        proof {
            assert(ids_of(vs@.subrange(0, i as int + 1)) =~= ids_of(vs@.subrange(0, i as int)).push(vs@[i as int].id));
        }
        out.push(vs[i].id);
        i += 1;
    }
    proof {
        assert(vs@.subrange(0, i as int) =~= vs@);
    }
}

fn push_input_ids(out: &mut Vec<u32>, vs: &Vec<(VReg, crate::types::CType)>)
    ensures
        final(out)@ == old(out)@ + ids_of(vs@.map_values(|e: (VReg, crate::types::CType)| e.0)),
{
    let mut i: usize = 0;
    let ghost start = out@;
    let ghost all = vs@.map_values(|e: (VReg, crate::types::CType)| e.0);
    while i < vs.len()
        invariant
            i <= vs@.len(),
            all == vs@.map_values(|e: (VReg, crate::types::CType)| e.0),
            out@ == start + ids_of(all.subrange(0, i as int)),
        decreases vs@.len() - i,
    {
        proof {
            assert(ids_of(all.subrange(0, i as int + 1)) =~= ids_of(all.subrange(0, i as int)).push(vs@[i as int].0.id));
        }
        out.push(vs[i].0.id);
        i += 1;
    }
    proof {
        assert(all.subrange(0, i as int) =~= all);
    }
}

fn push_vregs(out: &mut Vec<VReg>, vs: &Vec<VReg>)
    ensures
        final(out)@ == old(out)@ + vs@,
{
    let mut i: usize = 0;
    let ghost start = out@;
    while i < vs.len()
        invariant
            i <= vs@.len(),
            out@ == start + vs@.subrange(0, i as int),
        decreases vs@.len() - i,
    {
        proof {
            assert(vs@.subrange(0, i as int + 1) =~= vs@.subrange(0, i as int).push(vs@[i as int]));
        }
        out.push(vs[i]);
        i += 1;
    }
    proof {
        assert(vs@.subrange(0, i as int) =~= vs@);
    }
}

/// The ids of the vregs an operation reads (`collect_src_vregs`).
pub fn collect_src_vregs(op: &IrOp) -> (r: Vec<u32>)
    ensures
        r@ == ids_of(op_srcs(*op)),
{
    let mut out: Vec<u32> = Vec::new();
    match op {
        IrOp::StoreGlobal { src, .. } => {
            out.push(src.id);
        },
        IrOp::StoreLocal { src, .. } => {
            out.push(src.id);
        },
        IrOp::LoadPtr { ptr, .. } => {
            out.push(ptr.id);
        },
        IrOp::StorePtr { ptr, src, .. } => {
            out.push(ptr.id);
            out.push(src.id);
        },
        IrOp::Add { lhs, rhs, .. } => {
            out.push(lhs.id);
            out.push(rhs.id);
        },
        IrOp::Sub { lhs, rhs, .. } => {
            out.push(lhs.id);
            out.push(rhs.id);
        },
        IrOp::Mul { lhs, rhs, .. } => {
            out.push(lhs.id);
            out.push(rhs.id);
        },
        IrOp::Div { lhs, rhs, .. } => {
            out.push(lhs.id);
            out.push(rhs.id);
        },
        IrOp::Mod { lhs, rhs, .. } => {
            out.push(lhs.id);
            out.push(rhs.id);
        },
        IrOp::And { lhs, rhs, .. } => {
            out.push(lhs.id);
            out.push(rhs.id);
        },
        IrOp::Or { lhs, rhs, .. } => {
            out.push(lhs.id);
            out.push(rhs.id);
        },
        IrOp::Xor { lhs, rhs, .. } => {
            out.push(lhs.id);
            out.push(rhs.id);
        },
        IrOp::Shl { lhs, rhs, .. } => {
            out.push(lhs.id);
            out.push(rhs.id);
        },
        IrOp::Shr { lhs, rhs, .. } => {
            out.push(lhs.id);
            out.push(rhs.id);
        },
        IrOp::Eq { lhs, rhs, .. } => {
            out.push(lhs.id);
            out.push(rhs.id);
        },
        IrOp::Ne { lhs, rhs, .. } => {
            out.push(lhs.id);
            out.push(rhs.id);
        },
        IrOp::Lt { lhs, rhs, .. } => {
            out.push(lhs.id);
            out.push(rhs.id);
        },
        IrOp::Le { lhs, rhs, .. } => {
            out.push(lhs.id);
            out.push(rhs.id);
        },
        IrOp::Gt { lhs, rhs, .. } => {
            out.push(lhs.id);
            out.push(rhs.id);
        },
        IrOp::Ge { lhs, rhs, .. } => {
            out.push(lhs.id);
            out.push(rhs.id);
        },
        IrOp::Neg { src, .. } => {
            out.push(src.id);
        },
        IrOp::Not { src, .. } => {
            out.push(src.id);
        },
        IrOp::LogicalNot { src, .. } => {
            out.push(src.id);
        },
        IrOp::Copy { src, .. } => {
            out.push(src.id);
        },
        IrOp::Cast { src, .. } => {
            out.push(src.id);
        },
        IrOp::JumpIfTrue { cond, .. } => {
            out.push(cond.id);
        },
        IrOp::JumpIfFalse { cond, .. } => {
            out.push(cond.id);
        },
        IrOp::Call { args, .. } => {
            push_ids(&mut out, args);
        },
        IrOp::Return { value, .. } => {
            match value { Some(x) => out.push(x.id), None => {} }
        },
        IrOp::PtrAdd { ptr, offset, .. } => {
            out.push(ptr.id);
            out.push(offset.id);
        },
        IrOp::InlineAsm { inputs, .. } => {
            push_input_ids(&mut out, inputs);
        },
        _ => {},
    }
    proof {
        assert(out@ =~= ids_of(op_srcs(*op)));
    }
    out
}

/// The ids of the vregs an operation reads, not counting inline-assembly inputs (`collect_src_vreg_ids`).
pub fn collect_src_vreg_ids(op: &IrOp) -> (r: Vec<u32>)
    ensures
        r@ == ids_of(op_srcs_no_asm(*op)),
{
    let mut out: Vec<u32> = Vec::new();
    match op {
        IrOp::StoreGlobal { src, .. } => {
            out.push(src.id);
        },
        IrOp::StoreLocal { src, .. } => {
            out.push(src.id);
        },
        IrOp::LoadPtr { ptr, .. } => {
            out.push(ptr.id);
        },
        IrOp::StorePtr { ptr, src, .. } => {
            out.push(ptr.id);
            out.push(src.id);
        },
        IrOp::Add { lhs, rhs, .. } => {
            out.push(lhs.id);
            out.push(rhs.id);
        },
        IrOp::Sub { lhs, rhs, .. } => {
            out.push(lhs.id);
            out.push(rhs.id);
        },
        IrOp::Mul { lhs, rhs, .. } => {
            out.push(lhs.id);
            out.push(rhs.id);
        },
        IrOp::Div { lhs, rhs, .. } => {
            out.push(lhs.id);
            out.push(rhs.id);
        },
        IrOp::Mod { lhs, rhs, .. } => {
            out.push(lhs.id);
            out.push(rhs.id);
        },
        IrOp::And { lhs, rhs, .. } => {
            out.push(lhs.id);
            out.push(rhs.id);
        },
        IrOp::Or { lhs, rhs, .. } => {
            out.push(lhs.id);
            out.push(rhs.id);
        },
        IrOp::Xor { lhs, rhs, .. } => {
            out.push(lhs.id);
            out.push(rhs.id);
        },
        IrOp::Shl { lhs, rhs, .. } => {
            out.push(lhs.id);
            out.push(rhs.id);
        },
        IrOp::Shr { lhs, rhs, .. } => {
            out.push(lhs.id);
            out.push(rhs.id);
        },
        IrOp::Eq { lhs, rhs, .. } => {
            out.push(lhs.id);
            out.push(rhs.id);
        },
        IrOp::Ne { lhs, rhs, .. } => {
            out.push(lhs.id);
            out.push(rhs.id);
        },
        IrOp::Lt { lhs, rhs, .. } => {
            out.push(lhs.id);
            out.push(rhs.id);
        },
        IrOp::Le { lhs, rhs, .. } => {
            out.push(lhs.id);
            out.push(rhs.id);
        },
        IrOp::Gt { lhs, rhs, .. } => {
            out.push(lhs.id);
            out.push(rhs.id);
        },
        IrOp::Ge { lhs, rhs, .. } => {
            out.push(lhs.id);
            out.push(rhs.id);
        },
        IrOp::Neg { src, .. } => {
            out.push(src.id);
        },
        IrOp::Not { src, .. } => {
            out.push(src.id);
        },
        IrOp::LogicalNot { src, .. } => {
            out.push(src.id);
        },
        IrOp::Copy { src, .. } => {
            out.push(src.id);
        },
        IrOp::Cast { src, .. } => {
            out.push(src.id);
        },
        IrOp::JumpIfTrue { cond, .. } => {
            out.push(cond.id);
        },
        IrOp::JumpIfFalse { cond, .. } => {
            out.push(cond.id);
        },
        IrOp::Call { args, .. } => {
            push_ids(&mut out, args);
        },
        IrOp::Return { value, .. } => {
            match value { Some(x) => out.push(x.id), None => {} }
        },
        IrOp::PtrAdd { ptr, offset, .. } => {
            out.push(ptr.id);
            out.push(offset.id);
        },
        _ => {},
    }
    proof {
        assert(out@ =~= ids_of(op_srcs_no_asm(*op)));
    }
    out
}

/// Every vreg an operation mentions: its destination first, then its
/// sources; a call's destination is listed again after its arguments.
pub open spec fn op_all_vregs(op: IrOp) -> Seq<VReg> {
    let d = match op_dst(op) {
        Some(x) => seq![x],
        None => Seq::empty(),
    };
    let extra = match op {
        IrOp::Call { dst: Some(x), .. } => seq![x],
        _ => Seq::empty(),
    };
    d + op_srcs_no_asm(op) + extra
}

/// Every vreg an operation mentions (`collect_vregs`).
pub fn collect_vregs(op: &IrOp) -> (r: Vec<VReg>)
    ensures
        r@ == op_all_vregs(*op),
{
    let mut out: Vec<VReg> = Vec::new();
    match get_dst_vreg(op) {
        Some(d) => out.push(d),
        None => {},
    }
    match op {
        IrOp::StoreGlobal { src, .. } => {
            out.push(*src);
        },
        IrOp::StoreLocal { src, .. } => {
            out.push(*src);
        },
        IrOp::LoadPtr { ptr, .. } => {
            out.push(*ptr);
        },
        IrOp::StorePtr { ptr, src, .. } => {
            out.push(*ptr);
            out.push(*src);
        },
        IrOp::Add { lhs, rhs, .. } => {
            out.push(*lhs);
            out.push(*rhs);
        },
        IrOp::Sub { lhs, rhs, .. } => {
            out.push(*lhs);
            out.push(*rhs);
        },
        IrOp::Mul { lhs, rhs, .. } => {
            out.push(*lhs);
            out.push(*rhs);
        },
        IrOp::Div { lhs, rhs, .. } => {
            out.push(*lhs);
            out.push(*rhs);
        },
        IrOp::Mod { lhs, rhs, .. } => {
            out.push(*lhs);
            out.push(*rhs);
        },
        IrOp::And { lhs, rhs, .. } => {
            out.push(*lhs);
            out.push(*rhs);
        },
        IrOp::Or { lhs, rhs, .. } => {
            out.push(*lhs);
            out.push(*rhs);
        },
        IrOp::Xor { lhs, rhs, .. } => {
            out.push(*lhs);
            out.push(*rhs);
        },
        IrOp::Shl { lhs, rhs, .. } => {
            out.push(*lhs);
            out.push(*rhs);
        },
        IrOp::Shr { lhs, rhs, .. } => {
            out.push(*lhs);
            out.push(*rhs);
        },
        IrOp::Eq { lhs, rhs, .. } => {
            out.push(*lhs);
            out.push(*rhs);
        },
        IrOp::Ne { lhs, rhs, .. } => {
            out.push(*lhs);
            out.push(*rhs);
        },
        IrOp::Lt { lhs, rhs, .. } => {
            out.push(*lhs);
            out.push(*rhs);
        },
        IrOp::Le { lhs, rhs, .. } => {
            out.push(*lhs);
            out.push(*rhs);
        },
        IrOp::Gt { lhs, rhs, .. } => {
            out.push(*lhs);
            out.push(*rhs);
        },
        IrOp::Ge { lhs, rhs, .. } => {
            out.push(*lhs);
            out.push(*rhs);
        },
        IrOp::Neg { src, .. } => {
            out.push(*src);
        },
        IrOp::Not { src, .. } => {
            out.push(*src);
        },
        IrOp::LogicalNot { src, .. } => {
            out.push(*src);
        },
        IrOp::Copy { src, .. } => {
            out.push(*src);
        },
        IrOp::Cast { src, .. } => {
            out.push(*src);
        },
        IrOp::JumpIfTrue { cond, .. } => {
            out.push(*cond);
        },
        IrOp::JumpIfFalse { cond, .. } => {
            out.push(*cond);
        },
        IrOp::Call { args, dst, .. } => {
            push_vregs(&mut out, args);
            match dst { Some(x) => out.push(*x), None => {} }
        },
        IrOp::Return { value, .. } => {
            match value { Some(x) => out.push(*x), None => {} }
        },
        IrOp::PtrAdd { ptr, offset, .. } => {
            out.push(*ptr);
            out.push(*offset);
        },
        _ => {},
    }
    proof {
        assert(out@ =~= op_all_vregs(*op));
    }
    out
}

} // verus!

verus! {

/// The variant of an operation, as a number.
pub open spec fn op_tag(op: IrOp) -> int {
    match op {
        IrOp::LoadImm { .. } => 0,
        IrOp::LoadGlobal { .. } => 1,
        IrOp::StoreGlobal { .. } => 2,
        IrOp::LoadLocal { .. } => 3,
        IrOp::StoreLocal { .. } => 4,
        IrOp::LoadPtr { .. } => 5,
        IrOp::StorePtr { .. } => 6,
        IrOp::Add { .. } => 7,
        IrOp::Sub { .. } => 8,
        IrOp::Mul { .. } => 9,
        IrOp::Div { .. } => 10,
        IrOp::Mod { .. } => 11,
        IrOp::And { .. } => 12,
        IrOp::Or { .. } => 13,
        IrOp::Xor { .. } => 14,
        IrOp::Shl { .. } => 15,
        IrOp::Shr { .. } => 16,
        IrOp::Eq { .. } => 17,
        IrOp::Ne { .. } => 18,
        IrOp::Lt { .. } => 19,
        IrOp::Le { .. } => 20,
        IrOp::Gt { .. } => 21,
        IrOp::Ge { .. } => 22,
        IrOp::Neg { .. } => 23,
        IrOp::Not { .. } => 24,
        IrOp::LogicalNot { .. } => 25,
        IrOp::Copy { .. } => 26,
        IrOp::Cast { .. } => 27,
        IrOp::Jump { .. } => 28,
        IrOp::JumpIfTrue { .. } => 29,
        IrOp::JumpIfFalse { .. } => 30,
        IrOp::Call { .. } => 31,
        IrOp::Return { .. } => 32,
        IrOp::Label { .. } => 33,
        IrOp::AddrOfGlobal { .. } => 34,
        IrOp::PtrAdd { .. } => 35,
        IrOp::InlineAsm { .. } => 36,
    }
}

} // verus!
