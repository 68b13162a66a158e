//! Equality of operations, with strings and vectors compared by content.

use vstd::prelude::*;

use crate::ir::{IrOp, VReg};
use crate::types::CType;

verus! {

/// Two operations are equal field by field; strings and vectors are
/// compared by their contents.
pub open spec fn op_equiv(a: IrOp, b: IrOp) -> bool {
    match a {
        IrOp::LoadImm { dst, value } => b matches IrOp::LoadImm { dst: dst_2, value: value_2 } && dst == dst_2 && value == value_2,
        IrOp::LoadGlobal { dst, addr_label } => b matches IrOp::LoadGlobal { dst: dst_2, addr_label: addr_label_2 } && dst == dst_2 && addr_label@ == addr_label_2@,
        IrOp::StoreGlobal { addr_label, src } => b matches IrOp::StoreGlobal { addr_label: addr_label_2, src: src_2 } && addr_label@ == addr_label_2@ && src == src_2,
        IrOp::LoadLocal { dst, offset } => b matches IrOp::LoadLocal { dst: dst_2, offset: offset_2 } && dst == dst_2 && offset == offset_2,
        IrOp::StoreLocal { offset, src } => b matches IrOp::StoreLocal { offset: offset_2, src: src_2 } && offset == offset_2 && src == src_2,
        IrOp::LoadPtr { dst, ptr } => b matches IrOp::LoadPtr { dst: dst_2, ptr: ptr_2 } && dst == dst_2 && ptr == ptr_2,
        IrOp::StorePtr { ptr, src } => b matches IrOp::StorePtr { ptr: ptr_2, src: src_2 } && ptr == ptr_2 && src == src_2,
        IrOp::Add { dst, lhs, rhs, width } => b matches IrOp::Add { dst: dst_2, lhs: lhs_2, rhs: rhs_2, width: width_2 } && dst == dst_2 && lhs == lhs_2 && rhs == rhs_2 && width == width_2,
        IrOp::Sub { dst, lhs, rhs, width } => b matches IrOp::Sub { dst: dst_2, lhs: lhs_2, rhs: rhs_2, width: width_2 } && dst == dst_2 && lhs == lhs_2 && rhs == rhs_2 && width == width_2,
        IrOp::Mul { dst, lhs, rhs, width, signed } => b matches IrOp::Mul { dst: dst_2, lhs: lhs_2, rhs: rhs_2, width: width_2, signed: signed_2 } && dst == dst_2 && lhs == lhs_2 && rhs == rhs_2 && width == width_2 && signed == signed_2,
        IrOp::Div { dst, lhs, rhs, width, signed } => b matches IrOp::Div { dst: dst_2, lhs: lhs_2, rhs: rhs_2, width: width_2, signed: signed_2 } && dst == dst_2 && lhs == lhs_2 && rhs == rhs_2 && width == width_2 && signed == signed_2,
        IrOp::Mod { dst, lhs, rhs, width, signed } => b matches IrOp::Mod { dst: dst_2, lhs: lhs_2, rhs: rhs_2, width: width_2, signed: signed_2 } && dst == dst_2 && lhs == lhs_2 && rhs == rhs_2 && width == width_2 && signed == signed_2,
        IrOp::And { dst, lhs, rhs, width } => b matches IrOp::And { dst: dst_2, lhs: lhs_2, rhs: rhs_2, width: width_2 } && dst == dst_2 && lhs == lhs_2 && rhs == rhs_2 && width == width_2,
        IrOp::Or { dst, lhs, rhs, width } => b matches IrOp::Or { dst: dst_2, lhs: lhs_2, rhs: rhs_2, width: width_2 } && dst == dst_2 && lhs == lhs_2 && rhs == rhs_2 && width == width_2,
        IrOp::Xor { dst, lhs, rhs, width } => b matches IrOp::Xor { dst: dst_2, lhs: lhs_2, rhs: rhs_2, width: width_2 } && dst == dst_2 && lhs == lhs_2 && rhs == rhs_2 && width == width_2,
        IrOp::Shl { dst, lhs, rhs, width } => b matches IrOp::Shl { dst: dst_2, lhs: lhs_2, rhs: rhs_2, width: width_2 } && dst == dst_2 && lhs == lhs_2 && rhs == rhs_2 && width == width_2,
        IrOp::Shr { dst, lhs, rhs, width, arithmetic } => b matches IrOp::Shr { dst: dst_2, lhs: lhs_2, rhs: rhs_2, width: width_2, arithmetic: arithmetic_2 } && dst == dst_2 && lhs == lhs_2 && rhs == rhs_2 && width == width_2 && arithmetic == arithmetic_2,
        IrOp::Eq { dst, lhs, rhs, width } => b matches IrOp::Eq { dst: dst_2, lhs: lhs_2, rhs: rhs_2, width: width_2 } && dst == dst_2 && lhs == lhs_2 && rhs == rhs_2 && width == width_2,
        IrOp::Ne { dst, lhs, rhs, width } => b matches IrOp::Ne { dst: dst_2, lhs: lhs_2, rhs: rhs_2, width: width_2 } && dst == dst_2 && lhs == lhs_2 && rhs == rhs_2 && width == width_2,
        IrOp::Lt { dst, lhs, rhs, width, signed } => b matches IrOp::Lt { dst: dst_2, lhs: lhs_2, rhs: rhs_2, width: width_2, signed: signed_2 } && dst == dst_2 && lhs == lhs_2 && rhs == rhs_2 && width == width_2 && signed == signed_2,
        IrOp::Le { dst, lhs, rhs, width, signed } => b matches IrOp::Le { dst: dst_2, lhs: lhs_2, rhs: rhs_2, width: width_2, signed: signed_2 } && dst == dst_2 && lhs == lhs_2 && rhs == rhs_2 && width == width_2 && signed == signed_2,
        IrOp::Gt { dst, lhs, rhs, width, signed } => b matches IrOp::Gt { dst: dst_2, lhs: lhs_2, rhs: rhs_2, width: width_2, signed: signed_2 } && dst == dst_2 && lhs == lhs_2 && rhs == rhs_2 && width == width_2 && signed == signed_2,
        IrOp::Ge { dst, lhs, rhs, width, signed } => b matches IrOp::Ge { dst: dst_2, lhs: lhs_2, rhs: rhs_2, width: width_2, signed: signed_2 } && dst == dst_2 && lhs == lhs_2 && rhs == rhs_2 && width == width_2 && signed == signed_2,
        IrOp::Neg { dst, src, width } => b matches IrOp::Neg { dst: dst_2, src: src_2, width: width_2 } && dst == dst_2 && src == src_2 && width == width_2,
        IrOp::Not { dst, src, width } => b matches IrOp::Not { dst: dst_2, src: src_2, width: width_2 } && dst == dst_2 && src == src_2 && width == width_2,
        IrOp::LogicalNot { dst, src, width } => b matches IrOp::LogicalNot { dst: dst_2, src: src_2, width: width_2 } && dst == dst_2 && src == src_2 && width == width_2,
        IrOp::Copy { dst, src } => b matches IrOp::Copy { dst: dst_2, src: src_2 } && dst == dst_2 && src == src_2,
        IrOp::Cast { dst, src, to_type } => b matches IrOp::Cast { dst: dst_2, src: src_2, to_type: to_type_2 } && dst == dst_2 && src == src_2 && to_type == to_type_2,
        IrOp::Jump { target } => b matches IrOp::Jump { target: target_2 } && target == target_2,
        IrOp::JumpIfTrue { cond, target } => b matches IrOp::JumpIfTrue { cond: cond_2, target: target_2 } && cond == cond_2 && target == target_2,
        IrOp::JumpIfFalse { cond, target } => b matches IrOp::JumpIfFalse { cond: cond_2, target: target_2 } && cond == cond_2 && target == target_2,
        IrOp::Call { func_name, args, dst } => b matches IrOp::Call { func_name: func_name_2, args: args_2, dst: dst_2 } && func_name@ == func_name_2@ && args@ == args_2@ && dst == dst_2,
        IrOp::Return { value } => b matches IrOp::Return { value: value_2 } && value == value_2,
        IrOp::Label { label } => b matches IrOp::Label { label: label_2 } && label == label_2,
        IrOp::AddrOfGlobal { dst, name } => b matches IrOp::AddrOfGlobal { dst: dst_2, name: name_2 } && dst == dst_2 && name@ == name_2@,
        IrOp::PtrAdd { dst, ptr, offset, element_size } => b matches IrOp::PtrAdd { dst: dst_2, ptr: ptr_2, offset: offset_2, element_size: element_size_2 } && dst == dst_2 && ptr == ptr_2 && offset == offset_2 && element_size == element_size_2,
        IrOp::InlineAsm { code, inputs, return_type, clobber_all } => b matches IrOp::InlineAsm { code: code_2, inputs: inputs_2, return_type: return_type_2, clobber_all: clobber_all_2 } && code@ == code_2@ && inputs@ == inputs_2@ && return_type == return_type_2 && clobber_all == clobber_all_2,
    }
}

/// Structural equality of C types.
pub fn ctype_eq(a: &CType, b: &CType) -> (r: bool)
    ensures
        r == (*a == *b),
    decreases a,
{
    match (a, b) {
        (CType::Void, CType::Void) => true,
        (CType::Char { signed: x }, CType::Char { signed: y }) => *x == *y,
        (CType::Int { signed: x }, CType::Int { signed: y }) => *x == *y,
        (CType::Long { signed: x }, CType::Long { signed: y }) => *x == *y,
        (CType::Float, CType::Float) => true,
        (CType::Enum, CType::Enum) => true,
        (CType::Pointer(x), CType::Pointer(y)) => ctype_eq(x, y),
        (CType::Array(x, n), CType::Array(y, m)) => {
            let same_len = match (n, m) {
                (Some(p), Some(q)) => *p == *q,
                (None, None) => true,
                _ => false,
            };
            same_len && ctype_eq(x, y)
        },
        (CType::Function(x), CType::Function(y)) => ctype_eq(x, y),
        _ => false,
    }
}

fn vregs_eq(a: &Vec<VReg>, b: &Vec<VReg>) -> (r: bool)
    ensures
        r == (a@ == b@),
{
    if a.len() != b.len() {
        return false;
    }
    let mut i: usize = 0;
    while i < a.len()
        invariant
            a@.len() == b@.len(),
            i <= a@.len(),
            forall|k: int| 0 <= k < i ==> a@[k] == b@[k],
        decreases a@.len() - i,
    {
        if a[i] != b[i] {
            return false;
        }
        i += 1;
    }
    assert(a@ =~= b@);
    true
}

fn inputs_eq(a: &Vec<(VReg, CType)>, b: &Vec<(VReg, CType)>) -> (r: bool)
    ensures
        r == (a@ == b@),
{
    if a.len() != b.len() {
        return false;
    }
    let mut i: usize = 0;
    while i < a.len()
        invariant
            a@.len() == b@.len(),
            i <= a@.len(),
            forall|k: int| 0 <= k < i ==> a@[k] == b@[k],
        decreases a@.len() - i,
    {
        if a[i].0 != b[i].0 || !ctype_eq(&a[i].1, &b[i].1) {
            return false;
        }
        i += 1;
    }
    assert(a@ =~= b@);
    true
}

fn opt_ctype_eq(a: &Option<CType>, b: &Option<CType>) -> (r: bool)
    ensures
        r == (*a == *b),
{
    match (a, b) {
        (Some(x), Some(y)) => ctype_eq(x, y),
        (None, None) => true,
        _ => false,
    }
}

fn opt_vreg_eq(a: &Option<VReg>, b: &Option<VReg>) -> (r: bool)
    ensures
        r == (*a == *b),
{
    match (a, b) {
        (Some(x), Some(y)) => *x == *y,
        (None, None) => true,
        _ => false,
    }
}

/// Whether two operations are equal (see [`op_equiv`]).
pub fn op_eq(a: &IrOp, b: &IrOp) -> (r: bool)
    ensures
        r == op_equiv(*a, *b),
{
    match a {
        IrOp::LoadImm { .. } => eq_loadimm(a, b),
        IrOp::LoadGlobal { .. } => eq_loadglobal(a, b),
        IrOp::StoreGlobal { .. } => eq_storeglobal(a, b),
        IrOp::LoadLocal { .. } => eq_loadlocal(a, b),
        IrOp::StoreLocal { .. } => eq_storelocal(a, b),
        IrOp::LoadPtr { .. } => eq_loadptr(a, b),
        IrOp::StorePtr { .. } => eq_storeptr(a, b),
        IrOp::Add { .. } => eq_add(a, b),
        IrOp::Sub { .. } => eq_sub(a, b),
        IrOp::Mul { .. } => eq_mul(a, b),
        IrOp::Div { .. } => eq_div(a, b),
        IrOp::Mod { .. } => eq_mod(a, b),
        IrOp::And { .. } => eq_and(a, b),
        IrOp::Or { .. } => eq_or(a, b),
        IrOp::Xor { .. } => eq_xor(a, b),
        IrOp::Shl { .. } => eq_shl(a, b),
        IrOp::Shr { .. } => eq_shr(a, b),
        IrOp::Eq { .. } => eq_eq(a, b),
        IrOp::Ne { .. } => eq_ne(a, b),
        IrOp::Lt { .. } => eq_lt(a, b),
        IrOp::Le { .. } => eq_le(a, b),
        IrOp::Gt { .. } => eq_gt(a, b),
        IrOp::Ge { .. } => eq_ge(a, b),
        IrOp::Neg { .. } => eq_neg(a, b),
        IrOp::Not { .. } => eq_not(a, b),
        IrOp::LogicalNot { .. } => eq_logicalnot(a, b),
        IrOp::Copy { .. } => eq_copy(a, b),
        IrOp::Cast { .. } => eq_cast(a, b),
        IrOp::Jump { .. } => eq_jump(a, b),
        IrOp::JumpIfTrue { .. } => eq_jumpiftrue(a, b),
        IrOp::JumpIfFalse { .. } => eq_jumpiffalse(a, b),
        IrOp::Call { .. } => eq_call(a, b),
        IrOp::Return { .. } => eq_return(a, b),
        IrOp::Label { .. } => eq_label(a, b),
        IrOp::AddrOfGlobal { .. } => eq_addrofglobal(a, b),
        IrOp::PtrAdd { .. } => eq_ptradd(a, b),
        IrOp::InlineAsm { .. } => eq_inlineasm(a, b),
    }
}

fn eq_loadimm(a: &IrOp, b: &IrOp) -> (r: bool)
    requires
        *a is LoadImm,
    ensures
        r == op_equiv(*a, *b),
{
    match (a, b) {
        (IrOp::LoadImm { dst, value }, IrOp::LoadImm { dst: dst_2, value: value_2 }) => *dst == *dst_2 && *value == *value_2,
        _ => false,
    }
}

fn eq_loadglobal(a: &IrOp, b: &IrOp) -> (r: bool)
    requires
        *a is LoadGlobal,
    ensures
        r == op_equiv(*a, *b),
{
    match (a, b) {
        (IrOp::LoadGlobal { dst, addr_label }, IrOp::LoadGlobal { dst: dst_2, addr_label: addr_label_2 }) => *dst == *dst_2 && *addr_label == *addr_label_2,
        _ => false,
    }
}

fn eq_storeglobal(a: &IrOp, b: &IrOp) -> (r: bool)
    requires
        *a is StoreGlobal,
    ensures
        r == op_equiv(*a, *b),
{
    match (a, b) {
        (IrOp::StoreGlobal { addr_label, src }, IrOp::StoreGlobal { addr_label: addr_label_2, src: src_2 }) => *addr_label == *addr_label_2 && *src == *src_2,
        _ => false,
    }
}

fn eq_loadlocal(a: &IrOp, b: &IrOp) -> (r: bool)
    requires
        *a is LoadLocal,
    ensures
        r == op_equiv(*a, *b),
{
    match (a, b) {
        (IrOp::LoadLocal { dst, offset }, IrOp::LoadLocal { dst: dst_2, offset: offset_2 }) => *dst == *dst_2 && *offset == *offset_2,
        _ => false,
    }
}

fn eq_storelocal(a: &IrOp, b: &IrOp) -> (r: bool)
    requires
        *a is StoreLocal,
    ensures
        r == op_equiv(*a, *b),
{
    match (a, b) {
        (IrOp::StoreLocal { offset, src }, IrOp::StoreLocal { offset: offset_2, src: src_2 }) => *offset == *offset_2 && *src == *src_2,
        _ => false,
    }
}

fn eq_loadptr(a: &IrOp, b: &IrOp) -> (r: bool)
    requires
        *a is LoadPtr,
    ensures
        r == op_equiv(*a, *b),
{
    match (a, b) {
        (IrOp::LoadPtr { dst, ptr }, IrOp::LoadPtr { dst: dst_2, ptr: ptr_2 }) => *dst == *dst_2 && *ptr == *ptr_2,
        _ => false,
    }
}

fn eq_storeptr(a: &IrOp, b: &IrOp) -> (r: bool)
    requires
        *a is StorePtr,
    ensures
        r == op_equiv(*a, *b),
{
    match (a, b) {
        (IrOp::StorePtr { ptr, src }, IrOp::StorePtr { ptr: ptr_2, src: src_2 }) => *ptr == *ptr_2 && *src == *src_2,
        _ => false,
    }
}

fn eq_add(a: &IrOp, b: &IrOp) -> (r: bool)
    requires
        *a is Add,
    ensures
        r == op_equiv(*a, *b),
{
    match (a, b) {
        (IrOp::Add { dst, lhs, rhs, width }, IrOp::Add { dst: dst_2, lhs: lhs_2, rhs: rhs_2, width: width_2 }) => *dst == *dst_2 && *lhs == *lhs_2 && *rhs == *rhs_2 && *width == *width_2,
        _ => false,
    }
}

fn eq_sub(a: &IrOp, b: &IrOp) -> (r: bool)
    requires
        *a is Sub,
    ensures
        r == op_equiv(*a, *b),
{
    match (a, b) {
        (IrOp::Sub { dst, lhs, rhs, width }, IrOp::Sub { dst: dst_2, lhs: lhs_2, rhs: rhs_2, width: width_2 }) => *dst == *dst_2 && *lhs == *lhs_2 && *rhs == *rhs_2 && *width == *width_2,
        _ => false,
    }
}

fn eq_mul(a: &IrOp, b: &IrOp) -> (r: bool)
    requires
        *a is Mul,
    ensures
        r == op_equiv(*a, *b),
{
    match (a, b) {
        (IrOp::Mul { dst, lhs, rhs, width, signed }, IrOp::Mul { dst: dst_2, lhs: lhs_2, rhs: rhs_2, width: width_2, signed: signed_2 }) => *dst == *dst_2 && *lhs == *lhs_2 && *rhs == *rhs_2 && *width == *width_2 && *signed == *signed_2,
        _ => false,
    }
}

fn eq_div(a: &IrOp, b: &IrOp) -> (r: bool)
    requires
        *a is Div,
    ensures
        r == op_equiv(*a, *b),
{
    match (a, b) {
        (IrOp::Div { dst, lhs, rhs, width, signed }, IrOp::Div { dst: dst_2, lhs: lhs_2, rhs: rhs_2, width: width_2, signed: signed_2 }) => *dst == *dst_2 && *lhs == *lhs_2 && *rhs == *rhs_2 && *width == *width_2 && *signed == *signed_2,
        _ => false,
    }
}

fn eq_mod(a: &IrOp, b: &IrOp) -> (r: bool)
    requires
        *a is Mod,
    ensures
        r == op_equiv(*a, *b),
{
    match (a, b) {
        (IrOp::Mod { dst, lhs, rhs, width, signed }, IrOp::Mod { dst: dst_2, lhs: lhs_2, rhs: rhs_2, width: width_2, signed: signed_2 }) => *dst == *dst_2 && *lhs == *lhs_2 && *rhs == *rhs_2 && *width == *width_2 && *signed == *signed_2,
        _ => false,
    }
}

fn eq_and(a: &IrOp, b: &IrOp) -> (r: bool)
    requires
        *a is And,
    ensures
        r == op_equiv(*a, *b),
{
    match (a, b) {
        (IrOp::And { dst, lhs, rhs, width }, IrOp::And { dst: dst_2, lhs: lhs_2, rhs: rhs_2, width: width_2 }) => *dst == *dst_2 && *lhs == *lhs_2 && *rhs == *rhs_2 && *width == *width_2,
        _ => false,
    }
}

fn eq_or(a: &IrOp, b: &IrOp) -> (r: bool)
    requires
        *a is Or,
    ensures
        r == op_equiv(*a, *b),
{
    match (a, b) {
        (IrOp::Or { dst, lhs, rhs, width }, IrOp::Or { dst: dst_2, lhs: lhs_2, rhs: rhs_2, width: width_2 }) => *dst == *dst_2 && *lhs == *lhs_2 && *rhs == *rhs_2 && *width == *width_2,
        _ => false,
    }
}

fn eq_xor(a: &IrOp, b: &IrOp) -> (r: bool)
    requires
        *a is Xor,
    ensures
        r == op_equiv(*a, *b),
{
    match (a, b) {
        (IrOp::Xor { dst, lhs, rhs, width }, IrOp::Xor { dst: dst_2, lhs: lhs_2, rhs: rhs_2, width: width_2 }) => *dst == *dst_2 && *lhs == *lhs_2 && *rhs == *rhs_2 && *width == *width_2,
        _ => false,
    }
}

fn eq_shl(a: &IrOp, b: &IrOp) -> (r: bool)
    requires
        *a is Shl,
    ensures
        r == op_equiv(*a, *b),
{
    match (a, b) {
        (IrOp::Shl { dst, lhs, rhs, width }, IrOp::Shl { dst: dst_2, lhs: lhs_2, rhs: rhs_2, width: width_2 }) => *dst == *dst_2 && *lhs == *lhs_2 && *rhs == *rhs_2 && *width == *width_2,
        _ => false,
    }
}

fn eq_shr(a: &IrOp, b: &IrOp) -> (r: bool)
    requires
        *a is Shr,
    ensures
        r == op_equiv(*a, *b),
{
    match (a, b) {
        (IrOp::Shr { dst, lhs, rhs, width, arithmetic }, IrOp::Shr { dst: dst_2, lhs: lhs_2, rhs: rhs_2, width: width_2, arithmetic: arithmetic_2 }) => *dst == *dst_2 && *lhs == *lhs_2 && *rhs == *rhs_2 && *width == *width_2 && *arithmetic == *arithmetic_2,
        _ => false,
    }
}

fn eq_eq(a: &IrOp, b: &IrOp) -> (r: bool)
    requires
        *a is Eq,
    ensures
        r == op_equiv(*a, *b),
{
    match (a, b) {
        (IrOp::Eq { dst, lhs, rhs, width }, IrOp::Eq { dst: dst_2, lhs: lhs_2, rhs: rhs_2, width: width_2 }) => *dst == *dst_2 && *lhs == *lhs_2 && *rhs == *rhs_2 && *width == *width_2,
        _ => false,
    }
}

fn eq_ne(a: &IrOp, b: &IrOp) -> (r: bool)
    requires
        *a is Ne,
    ensures
        r == op_equiv(*a, *b),
{
    match (a, b) {
        (IrOp::Ne { dst, lhs, rhs, width }, IrOp::Ne { dst: dst_2, lhs: lhs_2, rhs: rhs_2, width: width_2 }) => *dst == *dst_2 && *lhs == *lhs_2 && *rhs == *rhs_2 && *width == *width_2,
        _ => false,
    }
}

fn eq_lt(a: &IrOp, b: &IrOp) -> (r: bool)
    requires
        *a is Lt,
    ensures
        r == op_equiv(*a, *b),
{
    match (a, b) {
        (IrOp::Lt { dst, lhs, rhs, width, signed }, IrOp::Lt { dst: dst_2, lhs: lhs_2, rhs: rhs_2, width: width_2, signed: signed_2 }) => *dst == *dst_2 && *lhs == *lhs_2 && *rhs == *rhs_2 && *width == *width_2 && *signed == *signed_2,
        _ => false,
    }
}

fn eq_le(a: &IrOp, b: &IrOp) -> (r: bool)
    requires
        *a is Le,
    ensures
        r == op_equiv(*a, *b),
{
    match (a, b) {
        (IrOp::Le { dst, lhs, rhs, width, signed }, IrOp::Le { dst: dst_2, lhs: lhs_2, rhs: rhs_2, width: width_2, signed: signed_2 }) => *dst == *dst_2 && *lhs == *lhs_2 && *rhs == *rhs_2 && *width == *width_2 && *signed == *signed_2,
        _ => false,
    }
}

fn eq_gt(a: &IrOp, b: &IrOp) -> (r: bool)
    requires
        *a is Gt,
    ensures
        r == op_equiv(*a, *b),
{
    match (a, b) {
        (IrOp::Gt { dst, lhs, rhs, width, signed }, IrOp::Gt { dst: dst_2, lhs: lhs_2, rhs: rhs_2, width: width_2, signed: signed_2 }) => *dst == *dst_2 && *lhs == *lhs_2 && *rhs == *rhs_2 && *width == *width_2 && *signed == *signed_2,
        _ => false,
    }
}

fn eq_ge(a: &IrOp, b: &IrOp) -> (r: bool)
    requires
        *a is Ge,
    ensures
        r == op_equiv(*a, *b),
{
    match (a, b) {
        (IrOp::Ge { dst, lhs, rhs, width, signed }, IrOp::Ge { dst: dst_2, lhs: lhs_2, rhs: rhs_2, width: width_2, signed: signed_2 }) => *dst == *dst_2 && *lhs == *lhs_2 && *rhs == *rhs_2 && *width == *width_2 && *signed == *signed_2,
        _ => false,
    }
}

fn eq_neg(a: &IrOp, b: &IrOp) -> (r: bool)
    requires
        *a is Neg,
    ensures
        r == op_equiv(*a, *b),
{
    match (a, b) {
        (IrOp::Neg { dst, src, width }, IrOp::Neg { dst: dst_2, src: src_2, width: width_2 }) => *dst == *dst_2 && *src == *src_2 && *width == *width_2,
        _ => false,
    }
}

fn eq_not(a: &IrOp, b: &IrOp) -> (r: bool)
    requires
        *a is Not,
    ensures
        r == op_equiv(*a, *b),
{
    match (a, b) {
        (IrOp::Not { dst, src, width }, IrOp::Not { dst: dst_2, src: src_2, width: width_2 }) => *dst == *dst_2 && *src == *src_2 && *width == *width_2,
        _ => false,
    }
}

fn eq_logicalnot(a: &IrOp, b: &IrOp) -> (r: bool)
    requires
        *a is LogicalNot,
    ensures
        r == op_equiv(*a, *b),
{
    match (a, b) {
        (IrOp::LogicalNot { dst, src, width }, IrOp::LogicalNot { dst: dst_2, src: src_2, width: width_2 }) => *dst == *dst_2 && *src == *src_2 && *width == *width_2,
        _ => false,
    }
}

fn eq_copy(a: &IrOp, b: &IrOp) -> (r: bool)
    requires
        *a is Copy,
    ensures
        r == op_equiv(*a, *b),
{
    match (a, b) {
        (IrOp::Copy { dst, src }, IrOp::Copy { dst: dst_2, src: src_2 }) => *dst == *dst_2 && *src == *src_2,
        _ => false,
    }
}

fn eq_cast(a: &IrOp, b: &IrOp) -> (r: bool)
    requires
        *a is Cast,
    ensures
        r == op_equiv(*a, *b),
{
    match (a, b) {
        (IrOp::Cast { dst, src, to_type }, IrOp::Cast { dst: dst_2, src: src_2, to_type: to_type_2 }) => *dst == *dst_2 && *src == *src_2 && ctype_eq(to_type, to_type_2),
        _ => false,
    }
}

fn eq_jump(a: &IrOp, b: &IrOp) -> (r: bool)
    requires
        *a is Jump,
    ensures
        r == op_equiv(*a, *b),
{
    match (a, b) {
        (IrOp::Jump { target }, IrOp::Jump { target: target_2 }) => *target == *target_2,
        _ => false,
    }
}

fn eq_jumpiftrue(a: &IrOp, b: &IrOp) -> (r: bool)
    requires
        *a is JumpIfTrue,
    ensures
        r == op_equiv(*a, *b),
{
    match (a, b) {
        (IrOp::JumpIfTrue { cond, target }, IrOp::JumpIfTrue { cond: cond_2, target: target_2 }) => *cond == *cond_2 && *target == *target_2,
        _ => false,
    }
}

fn eq_jumpiffalse(a: &IrOp, b: &IrOp) -> (r: bool)
    requires
        *a is JumpIfFalse,
    ensures
        r == op_equiv(*a, *b),
{
    match (a, b) {
        (IrOp::JumpIfFalse { cond, target }, IrOp::JumpIfFalse { cond: cond_2, target: target_2 }) => *cond == *cond_2 && *target == *target_2,
        _ => false,
    }
}

fn eq_call(a: &IrOp, b: &IrOp) -> (r: bool)
    requires
        *a is Call,
    ensures
        r == op_equiv(*a, *b),
{
    match (a, b) {
        (IrOp::Call { func_name, args, dst }, IrOp::Call { func_name: func_name_2, args: args_2, dst: dst_2 }) => *func_name == *func_name_2 && vregs_eq(args, args_2) && opt_vreg_eq(dst, dst_2),
        _ => false,
    }
}

fn eq_return(a: &IrOp, b: &IrOp) -> (r: bool)
    requires
        *a is Return,
    ensures
        r == op_equiv(*a, *b),
{
    match (a, b) {
        (IrOp::Return { value }, IrOp::Return { value: value_2 }) => opt_vreg_eq(value, value_2),
        _ => false,
    }
}

fn eq_label(a: &IrOp, b: &IrOp) -> (r: bool)
    requires
        *a is Label,
    ensures
        r == op_equiv(*a, *b),
{
    match (a, b) {
        (IrOp::Label { label }, IrOp::Label { label: label_2 }) => *label == *label_2,
        _ => false,
    }
}

fn eq_addrofglobal(a: &IrOp, b: &IrOp) -> (r: bool)
    requires
        *a is AddrOfGlobal,
    ensures
        r == op_equiv(*a, *b),
{
    match (a, b) {
        (IrOp::AddrOfGlobal { dst, name }, IrOp::AddrOfGlobal { dst: dst_2, name: name_2 }) => *dst == *dst_2 && *name == *name_2,
        _ => false,
    }
}

fn eq_ptradd(a: &IrOp, b: &IrOp) -> (r: bool)
    requires
        *a is PtrAdd,
    ensures
        r == op_equiv(*a, *b),
{
    match (a, b) {
        (IrOp::PtrAdd { dst, ptr, offset, element_size }, IrOp::PtrAdd { dst: dst_2, ptr: ptr_2, offset: offset_2, element_size: element_size_2 }) => *dst == *dst_2 && *ptr == *ptr_2 && *offset == *offset_2 && *element_size == *element_size_2,
        _ => false,
    }
}

fn eq_inlineasm(a: &IrOp, b: &IrOp) -> (r: bool)
    requires
        *a is InlineAsm,
    ensures
        r == op_equiv(*a, *b),
{
    match (a, b) {
        (IrOp::InlineAsm { code, inputs, return_type, clobber_all }, IrOp::InlineAsm { code: code_2, inputs: inputs_2, return_type: return_type_2, clobber_all: clobber_all_2 }) => *code == *code_2 && inputs_eq(inputs, inputs_2) && opt_ctype_eq(return_type, return_type_2) && *clobber_all == *clobber_all_2,
        _ => false,
    }
}

} // verus!
