//! Renaming of vregs and labels through growing maps, allocating fresh ids
//! for names seen for the first time.

use vstd::prelude::*;

use crate::ir::{IrOp, VReg, Label};
use crate::maps::AssocMap;
use crate::opt::ops::op_srcs;
use crate::types::CType;

verus! {

/// `b` extends `a`, and the keys it adds map to ids in `[lo, hi)`.
pub open spec fn grows(a: Map<u32, u32>, b: Map<u32, u32>, lo: int, hi: int) -> bool {
    &&& forall|k: u32| #[trigger] a.contains_key(k) ==> b.contains_key(k) && b[k] == a[k]
    &&& forall|k: u32| #[trigger] b.contains_key(k) && !a.contains_key(k) ==> lo <= b[k] < hi
}

/// `b` keeps every entry of `a`.
pub open spec fn keeps(a: Map<u32, u32>, b: Map<u32, u32>) -> bool {
    forall|k: u32| #[trigger] a.contains_key(k) ==> b.contains_key(k) && b[k] == a[k]
}

/// A vreg renamed through `vm`, keeping its width.
pub open spec fn rn_v(v: VReg, vm: Map<u32, u32>) -> VReg {
    VReg { id: vm[v.id], width: v.width }
}

/// A label renamed through `lm`.
pub open spec fn rn_l(l: Label, lm: Map<u32, u32>) -> Label {
    Label(lm[l.0])
}

/// `new` is `old` with every vreg renamed through `vm` and every label
/// through `lm`; all other fields are unchanged.
pub open spec fn renamed(old: IrOp, new: IrOp, vm: Map<u32, u32>, lm: Map<u32, u32>) -> bool {
    match old {
        IrOp::LoadImm { dst, value } => new == IrOp::LoadImm { dst: rn_v(dst, vm), value },
        IrOp::LoadGlobal { dst, addr_label } => new == IrOp::LoadGlobal { dst: rn_v(dst, vm), addr_label },
        IrOp::StoreGlobal { addr_label, src } => new == IrOp::StoreGlobal { addr_label, src: rn_v(src, vm) },
        IrOp::LoadLocal { dst, offset } => new == IrOp::LoadLocal { dst: rn_v(dst, vm), offset },
        IrOp::StoreLocal { offset, src } => new == IrOp::StoreLocal { offset, src: rn_v(src, vm) },
        IrOp::LoadPtr { dst, ptr } => new == IrOp::LoadPtr { dst: rn_v(dst, vm), ptr: rn_v(ptr, vm) },
        IrOp::StorePtr { ptr, src } => new == IrOp::StorePtr { ptr: rn_v(ptr, vm), src: rn_v(src, vm) },
        IrOp::Add { dst, lhs, rhs, width } => new == IrOp::Add { dst: rn_v(dst, vm), lhs: rn_v(lhs, vm), rhs: rn_v(rhs, vm), width },
        IrOp::Sub { dst, lhs, rhs, width } => new == IrOp::Sub { dst: rn_v(dst, vm), lhs: rn_v(lhs, vm), rhs: rn_v(rhs, vm), width },
        IrOp::Mul { dst, lhs, rhs, width, signed } => new == IrOp::Mul { dst: rn_v(dst, vm), lhs: rn_v(lhs, vm), rhs: rn_v(rhs, vm), width, signed },
        IrOp::Div { dst, lhs, rhs, width, signed } => new == IrOp::Div { dst: rn_v(dst, vm), lhs: rn_v(lhs, vm), rhs: rn_v(rhs, vm), width, signed },
        IrOp::Mod { dst, lhs, rhs, width, signed } => new == IrOp::Mod { dst: rn_v(dst, vm), lhs: rn_v(lhs, vm), rhs: rn_v(rhs, vm), width, signed },
        IrOp::And { dst, lhs, rhs, width } => new == IrOp::And { dst: rn_v(dst, vm), lhs: rn_v(lhs, vm), rhs: rn_v(rhs, vm), width },
        IrOp::Or { dst, lhs, rhs, width } => new == IrOp::Or { dst: rn_v(dst, vm), lhs: rn_v(lhs, vm), rhs: rn_v(rhs, vm), width },
        IrOp::Xor { dst, lhs, rhs, width } => new == IrOp::Xor { dst: rn_v(dst, vm), lhs: rn_v(lhs, vm), rhs: rn_v(rhs, vm), width },
        IrOp::Shl { dst, lhs, rhs, width } => new == IrOp::Shl { dst: rn_v(dst, vm), lhs: rn_v(lhs, vm), rhs: rn_v(rhs, vm), width },
        IrOp::Shr { dst, lhs, rhs, width, arithmetic } => new == IrOp::Shr { dst: rn_v(dst, vm), lhs: rn_v(lhs, vm), rhs: rn_v(rhs, vm), width, arithmetic },
        IrOp::Eq { dst, lhs, rhs, width } => new == IrOp::Eq { dst: rn_v(dst, vm), lhs: rn_v(lhs, vm), rhs: rn_v(rhs, vm), width },
        IrOp::Ne { dst, lhs, rhs, width } => new == IrOp::Ne { dst: rn_v(dst, vm), lhs: rn_v(lhs, vm), rhs: rn_v(rhs, vm), width },
        IrOp::Lt { dst, lhs, rhs, width, signed } => new == IrOp::Lt { dst: rn_v(dst, vm), lhs: rn_v(lhs, vm), rhs: rn_v(rhs, vm), width, signed },
        IrOp::Le { dst, lhs, rhs, width, signed } => new == IrOp::Le { dst: rn_v(dst, vm), lhs: rn_v(lhs, vm), rhs: rn_v(rhs, vm), width, signed },
        IrOp::Gt { dst, lhs, rhs, width, signed } => new == IrOp::Gt { dst: rn_v(dst, vm), lhs: rn_v(lhs, vm), rhs: rn_v(rhs, vm), width, signed },
        IrOp::Ge { dst, lhs, rhs, width, signed } => new == IrOp::Ge { dst: rn_v(dst, vm), lhs: rn_v(lhs, vm), rhs: rn_v(rhs, vm), width, signed },
        IrOp::Neg { dst, src, width } => new == IrOp::Neg { dst: rn_v(dst, vm), src: rn_v(src, vm), width },
        IrOp::Not { dst, src, width } => new == IrOp::Not { dst: rn_v(dst, vm), src: rn_v(src, vm), width },
        IrOp::LogicalNot { dst, src, width } => new == IrOp::LogicalNot { dst: rn_v(dst, vm), src: rn_v(src, vm), width },
        IrOp::Copy { dst, src } => new == IrOp::Copy { dst: rn_v(dst, vm), src: rn_v(src, vm) },
        IrOp::Cast { dst, src, to_type } => new == IrOp::Cast { dst: rn_v(dst, vm), src: rn_v(src, vm), to_type },
        IrOp::Jump { target } => new == IrOp::Jump { target: rn_l(target, lm) },
        IrOp::JumpIfTrue { cond, target } => new == IrOp::JumpIfTrue { cond: rn_v(cond, vm), target: rn_l(target, lm) },
        IrOp::JumpIfFalse { cond, target } => new == IrOp::JumpIfFalse { cond: rn_v(cond, vm), target: rn_l(target, lm) },
        IrOp::Call { func_name, args, dst } => new matches IrOp::Call { func_name: f2, args: a2, dst: d2 } && f2 == func_name && a2@ == args@.map_values(|x: VReg| rn_v(x, vm)) && d2 == (match dst { Some(x) => Some(rn_v(x, vm)), None => None }),
        IrOp::Return { value } => new == IrOp::Return { value: match value { Some(x) => Some(rn_v(x, vm)), None => None } },
        IrOp::Label { label } => new == IrOp::Label { label: rn_l(label, lm) },
        IrOp::AddrOfGlobal { dst, name } => new == IrOp::AddrOfGlobal { dst: rn_v(dst, vm), name },
        IrOp::PtrAdd { dst, ptr, offset, element_size } => new == IrOp::PtrAdd { dst: rn_v(dst, vm), ptr: rn_v(ptr, vm), offset: rn_v(offset, vm), element_size },
        IrOp::InlineAsm { code, inputs, return_type, clobber_all } => new matches IrOp::InlineAsm { code: c2, inputs: i2, return_type: r2, clobber_all: k2 } && c2 == code && r2 == return_type && k2 == clobber_all && i2@ == inputs@.map_values(|e: (VReg, CType)| (rn_v(e.0, vm), e.1)),
    }
}

/// Every vreg of `op` has an entry in `vm` and every label one in `lm`.
pub open spec fn covered(op: IrOp, vm: Map<u32, u32>, lm: Map<u32, u32>) -> bool {
    match op {
        IrOp::LoadImm { dst, .. } => vm.contains_key(dst.id),
        IrOp::LoadGlobal { dst, .. } => vm.contains_key(dst.id),
        IrOp::StoreGlobal { src, .. } => vm.contains_key(src.id),
        IrOp::LoadLocal { dst, .. } => vm.contains_key(dst.id),
        IrOp::StoreLocal { src, .. } => vm.contains_key(src.id),
        IrOp::LoadPtr { dst, ptr } => vm.contains_key(dst.id) && vm.contains_key(ptr.id),
        IrOp::StorePtr { ptr, src } => vm.contains_key(ptr.id) && vm.contains_key(src.id),
        IrOp::Add { dst, lhs, rhs, .. } => vm.contains_key(dst.id) && vm.contains_key(lhs.id) && vm.contains_key(rhs.id),
        IrOp::Sub { dst, lhs, rhs, .. } => vm.contains_key(dst.id) && vm.contains_key(lhs.id) && vm.contains_key(rhs.id),
        IrOp::Mul { dst, lhs, rhs, .. } => vm.contains_key(dst.id) && vm.contains_key(lhs.id) && vm.contains_key(rhs.id),
        IrOp::Div { dst, lhs, rhs, .. } => vm.contains_key(dst.id) && vm.contains_key(lhs.id) && vm.contains_key(rhs.id),
        IrOp::Mod { dst, lhs, rhs, .. } => vm.contains_key(dst.id) && vm.contains_key(lhs.id) && vm.contains_key(rhs.id),
        IrOp::And { dst, lhs, rhs, .. } => vm.contains_key(dst.id) && vm.contains_key(lhs.id) && vm.contains_key(rhs.id),
        IrOp::Or { dst, lhs, rhs, .. } => vm.contains_key(dst.id) && vm.contains_key(lhs.id) && vm.contains_key(rhs.id),
        IrOp::Xor { dst, lhs, rhs, .. } => vm.contains_key(dst.id) && vm.contains_key(lhs.id) && vm.contains_key(rhs.id),
        IrOp::Shl { dst, lhs, rhs, .. } => vm.contains_key(dst.id) && vm.contains_key(lhs.id) && vm.contains_key(rhs.id),
        IrOp::Shr { dst, lhs, rhs, .. } => vm.contains_key(dst.id) && vm.contains_key(lhs.id) && vm.contains_key(rhs.id),
        IrOp::Eq { dst, lhs, rhs, .. } => vm.contains_key(dst.id) && vm.contains_key(lhs.id) && vm.contains_key(rhs.id),
        IrOp::Ne { dst, lhs, rhs, .. } => vm.contains_key(dst.id) && vm.contains_key(lhs.id) && vm.contains_key(rhs.id),
        IrOp::Lt { dst, lhs, rhs, .. } => vm.contains_key(dst.id) && vm.contains_key(lhs.id) && vm.contains_key(rhs.id),
        IrOp::Le { dst, lhs, rhs, .. } => vm.contains_key(dst.id) && vm.contains_key(lhs.id) && vm.contains_key(rhs.id),
        IrOp::Gt { dst, lhs, rhs, .. } => vm.contains_key(dst.id) && vm.contains_key(lhs.id) && vm.contains_key(rhs.id),
        IrOp::Ge { dst, lhs, rhs, .. } => vm.contains_key(dst.id) && vm.contains_key(lhs.id) && vm.contains_key(rhs.id),
        IrOp::Neg { dst, src, .. } => vm.contains_key(dst.id) && vm.contains_key(src.id),
        IrOp::Not { dst, src, .. } => vm.contains_key(dst.id) && vm.contains_key(src.id),
        IrOp::LogicalNot { dst, src, .. } => vm.contains_key(dst.id) && vm.contains_key(src.id),
        IrOp::Copy { dst, src } => vm.contains_key(dst.id) && vm.contains_key(src.id),
        IrOp::Cast { dst, src, .. } => vm.contains_key(dst.id) && vm.contains_key(src.id),
        IrOp::Jump { target } => lm.contains_key(target.0),
        IrOp::JumpIfTrue { cond, target } => vm.contains_key(cond.id) && lm.contains_key(target.0),
        IrOp::JumpIfFalse { cond, target } => vm.contains_key(cond.id) && lm.contains_key(target.0),
        IrOp::Call { args, dst, .. } => (forall|k: int| 0 <= k < args@.len() ==> vm.contains_key(#[trigger] args@[k].id)) && (dst matches Some(x) ==> vm.contains_key(x.id)),
        IrOp::Return { value } => (value matches Some(x) ==> vm.contains_key(x.id)),
        IrOp::Label { label } => lm.contains_key(label.0),
        IrOp::AddrOfGlobal { dst, .. } => vm.contains_key(dst.id),
        IrOp::PtrAdd { dst, ptr, offset, .. } => vm.contains_key(dst.id) && vm.contains_key(ptr.id) && vm.contains_key(offset.id),
        IrOp::InlineAsm { inputs, .. } => (forall|k: int| 0 <= k < inputs@.len() ==> vm.contains_key(#[trigger] inputs@[k].0.id)),
    }
}

/// A renaming stays valid when the maps grow.
pub proof fn lemma_renamed_grows(op: IrOp, new: IrOp, vm1: Map<u32, u32>, lm1: Map<u32, u32>, vm2: Map<u32, u32>, lm2: Map<u32, u32>)
    requires
        renamed(op, new, vm1, lm1),
        covered(op, vm1, lm1),
        forall|k: u32| #[trigger] vm1.contains_key(k) ==> vm2.contains_key(k) && vm2[k] == vm1[k],
        forall|k: u32| #[trigger] lm1.contains_key(k) ==> lm2.contains_key(k) && lm2[k] == lm1[k],
    ensures
        renamed(op, new, vm2, lm2),
        covered(op, vm2, lm2),
{
    match op {
        IrOp::Call { func_name, args, dst } => {
            assert(args@.map_values(|x: VReg| rn_v(x, vm1)) =~= args@.map_values(|x: VReg| rn_v(x, vm2)));
        },
        IrOp::InlineAsm { code, inputs, return_type, clobber_all } => {
            assert(inputs@.map_values(|e: (VReg, CType)| (rn_v(e.0, vm1), e.1)) =~= inputs@.map_values(|e: (VReg, CType)| (rn_v(e.0, vm2), e.1)));
        },
        _ => {},
    }
}

/// Rename one vreg, allocating the next fresh id when it has no entry yet.
pub fn remap_vreg(v: VReg, vm: &mut AssocMap<u32, u32>, nv: &mut u32) -> (r: VReg)
    requires
        old(vm).wf(),
        *old(nv) < u32::MAX,
    ensures
        final(vm).wf(),
        grows(old(vm)@, final(vm)@, *old(nv) as int, *final(nv) as int),
        final(vm)@.contains_key(v.id),
        r == rn_v(v, final(vm)@),
        *old(nv) <= *final(nv) <= *old(nv) + 1,
        old(vm)@.contains_key(v.id) ==> final(vm)@ == old(vm)@ && *final(nv) == *old(nv),
        !old(vm)@.contains_key(v.id) ==> final(vm)@ == old(vm)@.insert(v.id, *old(nv)) && *final(nv) == *old(nv) + 1,
{
    match vm.get(&v.id) {
        Some(id) => VReg { id: *id, width: v.width },
        None => {
            let id = *nv;
            vm.insert(v.id, id);
            *nv = id + 1;
            VReg { id, width: v.width }
        },
    }
}

/// Rename one label, allocating the next fresh id when it has no entry yet.
pub fn remap_label(l: Label, lm: &mut AssocMap<u32, u32>, nl: &mut u32) -> (r: Label)
    requires
        old(lm).wf(),
        *old(nl) < u32::MAX,
    ensures
        final(lm).wf(),
        grows(old(lm)@, final(lm)@, *old(nl) as int, *final(nl) as int),
        final(lm)@.contains_key(l.0),
        r == rn_l(l, final(lm)@),
        *old(nl) <= *final(nl) <= *old(nl) + 1,
        old(lm)@.contains_key(l.0) ==> final(lm)@ == old(lm)@ && *final(nl) == *old(nl),
        !old(lm)@.contains_key(l.0) ==> final(lm)@ == old(lm)@.insert(l.0, *old(nl)) && *final(nl) == *old(nl) + 1,
{
    match lm.get(&l.0) {
        Some(id) => Label(*id),
        None => {
            let id = *nl;
            lm.insert(l.0, id);
            *nl = id + 1;
            Label(id)
        },
    }
}

fn remap_vregs(args: &Vec<VReg>, vm: &mut AssocMap<u32, u32>, nv: &mut u32) -> (r: Vec<VReg>)
    requires
        old(vm).wf(),
        *old(nv) as int + args@.len() < u32::MAX,
    ensures
        final(vm).wf(),
        grows(old(vm)@, final(vm)@, *old(nv) as int, *final(nv) as int),
        forall|k: int| 0 <= k < args@.len() ==> final(vm)@.contains_key(#[trigger] args@[k].id),
        r@ == args@.map_values(|x: VReg| rn_v(x, final(vm)@)),
        *old(nv) <= *final(nv) <= *old(nv) + args@.len(),
{
    let ghost vm0 = vm@;
    let ghost nv0 = *nv;
    let mut out: Vec<VReg> = Vec::new();
    let mut i: usize = 0;
    while i < args.len()
        invariant
            i <= args@.len(),
            vm.wf(),
            grows(vm0, vm@, nv0 as int, *nv as int),
            nv0 <= *nv <= nv0 + i,
            nv0 as int + args@.len() < u32::MAX,
            out@.len() == i,
            forall|k: int| 0 <= k < i ==> vm@.contains_key(#[trigger] args@[k].id) && out@[k] == rn_v(args@[k], vm@),
        decreases args@.len() - i,
    {
        let ghost vm1 = vm@;
        let ghost nv1 = *nv;
        let x = remap_vreg(args[i], vm, nv);
        proof {
            assert forall|k: int| 0 <= k < i implies vm@.contains_key(#[trigger] args@[k].id) && out@[k] == rn_v(args@[k], vm@) by {
                assert(vm1.contains_key(args@[k].id));
            }
            assert forall|k: u32| #[trigger] vm@.contains_key(k) && !vm0.contains_key(k) implies nv0 <= vm@[k] < *nv by {
                if vm1.contains_key(k) {
                } else {
                }
            }
        }
        out.push(x);
        i += 1;
    }
    proof {
        assert(out@ =~= args@.map_values(|x: VReg| rn_v(x, vm@)));
    }
    out
}

fn remap_inputs(inputs: &Vec<(VReg, CType)>, vm: &mut AssocMap<u32, u32>, nv: &mut u32) -> (r: Vec<(VReg, CType)>)
    requires
        old(vm).wf(),
        *old(nv) as int + inputs@.len() < u32::MAX,
    ensures
        final(vm).wf(),
        grows(old(vm)@, final(vm)@, *old(nv) as int, *final(nv) as int),
        forall|k: int| 0 <= k < inputs@.len() ==> final(vm)@.contains_key(#[trigger] inputs@[k].0.id),
        r@ == inputs@.map_values(|e: (VReg, CType)| (rn_v(e.0, final(vm)@), e.1)),
        *old(nv) <= *final(nv) <= *old(nv) + inputs@.len(),
{
    let ghost vm0 = vm@;
    let ghost nv0 = *nv;
    let mut out: Vec<(VReg, CType)> = Vec::new();
    let mut i: usize = 0;
    while i < inputs.len()
        invariant
            i <= inputs@.len(),
            vm.wf(),
            grows(vm0, vm@, nv0 as int, *nv as int),
            nv0 <= *nv <= nv0 + i,
            nv0 as int + inputs@.len() < u32::MAX,
            out@.len() == i,
            forall|k: int| 0 <= k < i ==> vm@.contains_key(#[trigger] inputs@[k].0.id) && out@[k] == (rn_v(inputs@[k].0, vm@), inputs@[k].1),
        decreases inputs@.len() - i,
    {
        let ghost vm1 = vm@;
        let x = remap_vreg(inputs[i].0, vm, nv);
        proof {
            assert forall|k: int| 0 <= k < i implies vm@.contains_key(#[trigger] inputs@[k].0.id) && out@[k] == (rn_v(inputs@[k].0, vm@), inputs@[k].1) by {
                assert(vm1.contains_key(inputs@[k].0.id));
            }
        }
        out.push((x, inputs[i].1.clone()));
        i += 1;
    }
    proof {
        assert(out@ =~= inputs@.map_values(|e: (VReg, CType)| (rn_v(e.0, vm@), e.1)));
    }
    out
}

/// Rename every vreg and label of an operation (`remap_op`); a `Return`
/// keeps its value renamed too.
#[verifier::rlimit(60)]
pub fn remap_op(op: &IrOp, vm: &mut AssocMap<u32, u32>, lm: &mut AssocMap<u32, u32>, nv: &mut u32, nl: &mut u32) -> (r: IrOp)
    requires
        old(vm).wf(),
        old(lm).wf(),
        *old(nv) as int + op_srcs(*op).len() + 1 < u32::MAX,
        *old(nl) < u32::MAX,
    ensures
        final(vm).wf(),
        final(lm).wf(),
        grows(old(vm)@, final(vm)@, *old(nv) as int, *final(nv) as int),
        grows(old(lm)@, final(lm)@, *old(nl) as int, *final(nl) as int),
        renamed(*op, r, final(vm)@, final(lm)@),
        covered(*op, final(vm)@, final(lm)@),
        *old(nv) <= *final(nv) <= *old(nv) + op_srcs(*op).len() + 1,
        *old(nl) <= *final(nl) <= *old(nl) + 1,
{
    let ghost vm0 = vm@;
    let ghost lm0 = lm@;
    match op {
        IrOp::LoadImm { dst, value } => {
            let n_dst = remap_vreg(*dst, vm, nv);
            let ghost vm_dst = vm@;
            proof {
                assert(vm_dst.contains_key(dst.id));
            }
            IrOp::LoadImm { dst: n_dst, value: *value }
        },
        IrOp::LoadGlobal { dst, addr_label } => {
            let n_dst = remap_vreg(*dst, vm, nv);
            let ghost vm_dst = vm@;
            proof {
                assert(vm_dst.contains_key(dst.id));
            }
            IrOp::LoadGlobal { dst: n_dst, addr_label: addr_label.clone() }
        },
        IrOp::StoreGlobal { addr_label, src } => {
            let n_src = remap_vreg(*src, vm, nv);
            let ghost vm_src = vm@;
            proof {
                assert(vm_src.contains_key(src.id));
            }
            IrOp::StoreGlobal { addr_label: addr_label.clone(), src: n_src }
        },
        IrOp::LoadLocal { dst, offset } => {
            let n_dst = remap_vreg(*dst, vm, nv);
            let ghost vm_dst = vm@;
            proof {
                assert(vm_dst.contains_key(dst.id));
            }
            IrOp::LoadLocal { dst: n_dst, offset: *offset }
        },
        IrOp::StoreLocal { offset, src } => {
            let n_src = remap_vreg(*src, vm, nv);
            let ghost vm_src = vm@;
            proof {
                assert(vm_src.contains_key(src.id));
            }
            IrOp::StoreLocal { offset: *offset, src: n_src }
        },
        IrOp::LoadPtr { dst, ptr } => {
            let n_dst = remap_vreg(*dst, vm, nv);
            let ghost vm_dst = vm@;
            let n_ptr = remap_vreg(*ptr, vm, nv);
            let ghost vm_ptr = vm@;
            proof {
                assert(vm_dst.contains_key(dst.id));
                assert(vm_ptr.contains_key(ptr.id));
            }
            IrOp::LoadPtr { dst: n_dst, ptr: n_ptr }
        },
        IrOp::StorePtr { ptr, src } => {
            let n_ptr = remap_vreg(*ptr, vm, nv);
            let ghost vm_ptr = vm@;
            let n_src = remap_vreg(*src, vm, nv);
            let ghost vm_src = vm@;
            proof {
                assert(vm_ptr.contains_key(ptr.id));
                assert(vm_src.contains_key(src.id));
            }
            IrOp::StorePtr { ptr: n_ptr, src: n_src }
        },
        IrOp::Add { dst, lhs, rhs, width } => {
            let n_dst = remap_vreg(*dst, vm, nv);
            let ghost vm_dst = vm@;
            let n_lhs = remap_vreg(*lhs, vm, nv);
            let ghost vm_lhs = vm@;
            let n_rhs = remap_vreg(*rhs, vm, nv);
            let ghost vm_rhs = vm@;
            proof {
                assert(vm_dst.contains_key(dst.id));
                assert(vm_lhs.contains_key(lhs.id));
                assert(vm_rhs.contains_key(rhs.id));
            }
            IrOp::Add { dst: n_dst, lhs: n_lhs, rhs: n_rhs, width: *width }
        },
        IrOp::Sub { dst, lhs, rhs, width } => {
            let n_dst = remap_vreg(*dst, vm, nv);
            let ghost vm_dst = vm@;
            let n_lhs = remap_vreg(*lhs, vm, nv);
            let ghost vm_lhs = vm@;
            let n_rhs = remap_vreg(*rhs, vm, nv);
            let ghost vm_rhs = vm@;
            proof {
                assert(vm_dst.contains_key(dst.id));
                assert(vm_lhs.contains_key(lhs.id));
                assert(vm_rhs.contains_key(rhs.id));
            }
            IrOp::Sub { dst: n_dst, lhs: n_lhs, rhs: n_rhs, width: *width }
        },
        IrOp::Mul { dst, lhs, rhs, width, signed } => {
            let n_dst = remap_vreg(*dst, vm, nv);
            let ghost vm_dst = vm@;
            let n_lhs = remap_vreg(*lhs, vm, nv);
            let ghost vm_lhs = vm@;
            let n_rhs = remap_vreg(*rhs, vm, nv);
            let ghost vm_rhs = vm@;
            proof {
                assert(vm_dst.contains_key(dst.id));
                assert(vm_lhs.contains_key(lhs.id));
                assert(vm_rhs.contains_key(rhs.id));
            }
            IrOp::Mul { dst: n_dst, lhs: n_lhs, rhs: n_rhs, width: *width, signed: *signed }
        },
        IrOp::Div { dst, lhs, rhs, width, signed } => {
            let n_dst = remap_vreg(*dst, vm, nv);
            let ghost vm_dst = vm@;
            let n_lhs = remap_vreg(*lhs, vm, nv);
            let ghost vm_lhs = vm@;
            let n_rhs = remap_vreg(*rhs, vm, nv);
            let ghost vm_rhs = vm@;
            proof {
                assert(vm_dst.contains_key(dst.id));
                assert(vm_lhs.contains_key(lhs.id));
                assert(vm_rhs.contains_key(rhs.id));
            }
            IrOp::Div { dst: n_dst, lhs: n_lhs, rhs: n_rhs, width: *width, signed: *signed }
        },
        IrOp::Mod { dst, lhs, rhs, width, signed } => {
            let n_dst = remap_vreg(*dst, vm, nv);
            let ghost vm_dst = vm@;
            let n_lhs = remap_vreg(*lhs, vm, nv);
            let ghost vm_lhs = vm@;
            let n_rhs = remap_vreg(*rhs, vm, nv);
            let ghost vm_rhs = vm@;
            proof {
                assert(vm_dst.contains_key(dst.id));
                assert(vm_lhs.contains_key(lhs.id));
                assert(vm_rhs.contains_key(rhs.id));
            }
            IrOp::Mod { dst: n_dst, lhs: n_lhs, rhs: n_rhs, width: *width, signed: *signed }
        },
        IrOp::And { dst, lhs, rhs, width } => {
            let n_dst = remap_vreg(*dst, vm, nv);
            let ghost vm_dst = vm@;
            let n_lhs = remap_vreg(*lhs, vm, nv);
            let ghost vm_lhs = vm@;
            let n_rhs = remap_vreg(*rhs, vm, nv);
            let ghost vm_rhs = vm@;
            proof {
                assert(vm_dst.contains_key(dst.id));
                assert(vm_lhs.contains_key(lhs.id));
                assert(vm_rhs.contains_key(rhs.id));
            }
            IrOp::And { dst: n_dst, lhs: n_lhs, rhs: n_rhs, width: *width }
        },
        IrOp::Or { dst, lhs, rhs, width } => {
            let n_dst = remap_vreg(*dst, vm, nv);
            let ghost vm_dst = vm@;
            let n_lhs = remap_vreg(*lhs, vm, nv);
            let ghost vm_lhs = vm@;
            let n_rhs = remap_vreg(*rhs, vm, nv);
            let ghost vm_rhs = vm@;
            proof {
                assert(vm_dst.contains_key(dst.id));
                assert(vm_lhs.contains_key(lhs.id));
                assert(vm_rhs.contains_key(rhs.id));
            }
            IrOp::Or { dst: n_dst, lhs: n_lhs, rhs: n_rhs, width: *width }
        },
        IrOp::Xor { dst, lhs, rhs, width } => {
            let n_dst = remap_vreg(*dst, vm, nv);
            let ghost vm_dst = vm@;
            let n_lhs = remap_vreg(*lhs, vm, nv);
            let ghost vm_lhs = vm@;
            let n_rhs = remap_vreg(*rhs, vm, nv);
            let ghost vm_rhs = vm@;
            proof {
                assert(vm_dst.contains_key(dst.id));
                assert(vm_lhs.contains_key(lhs.id));
                assert(vm_rhs.contains_key(rhs.id));
            }
            IrOp::Xor { dst: n_dst, lhs: n_lhs, rhs: n_rhs, width: *width }
        },
        IrOp::Shl { dst, lhs, rhs, width } => {
            let n_dst = remap_vreg(*dst, vm, nv);
            let ghost vm_dst = vm@;
            let n_lhs = remap_vreg(*lhs, vm, nv);
            let ghost vm_lhs = vm@;
            let n_rhs = remap_vreg(*rhs, vm, nv);
            let ghost vm_rhs = vm@;
            proof {
                assert(vm_dst.contains_key(dst.id));
                assert(vm_lhs.contains_key(lhs.id));
                assert(vm_rhs.contains_key(rhs.id));
            }
            IrOp::Shl { dst: n_dst, lhs: n_lhs, rhs: n_rhs, width: *width }
        },
        IrOp::Shr { dst, lhs, rhs, width, arithmetic } => {
            let n_dst = remap_vreg(*dst, vm, nv);
            let ghost vm_dst = vm@;
            let n_lhs = remap_vreg(*lhs, vm, nv);
            let ghost vm_lhs = vm@;
            let n_rhs = remap_vreg(*rhs, vm, nv);
            let ghost vm_rhs = vm@;
            proof {
                assert(vm_dst.contains_key(dst.id));
                assert(vm_lhs.contains_key(lhs.id));
                assert(vm_rhs.contains_key(rhs.id));
            }
            IrOp::Shr { dst: n_dst, lhs: n_lhs, rhs: n_rhs, width: *width, arithmetic: *arithmetic }
        },
        IrOp::Eq { dst, lhs, rhs, width } => {
            let n_dst = remap_vreg(*dst, vm, nv);
            let ghost vm_dst = vm@;
            let n_lhs = remap_vreg(*lhs, vm, nv);
            let ghost vm_lhs = vm@;
            let n_rhs = remap_vreg(*rhs, vm, nv);
            let ghost vm_rhs = vm@;
            proof {
                assert(vm_dst.contains_key(dst.id));
                assert(vm_lhs.contains_key(lhs.id));
                assert(vm_rhs.contains_key(rhs.id));
            }
            IrOp::Eq { dst: n_dst, lhs: n_lhs, rhs: n_rhs, width: *width }
        },
        IrOp::Ne { dst, lhs, rhs, width } => {
            let n_dst = remap_vreg(*dst, vm, nv);
            let ghost vm_dst = vm@;
            let n_lhs = remap_vreg(*lhs, vm, nv);
            let ghost vm_lhs = vm@;
            let n_rhs = remap_vreg(*rhs, vm, nv);
            let ghost vm_rhs = vm@;
            proof {
                assert(vm_dst.contains_key(dst.id));
                assert(vm_lhs.contains_key(lhs.id));
                assert(vm_rhs.contains_key(rhs.id));
            }
            IrOp::Ne { dst: n_dst, lhs: n_lhs, rhs: n_rhs, width: *width }
        },
        IrOp::Lt { dst, lhs, rhs, width, signed } => {
            let n_dst = remap_vreg(*dst, vm, nv);
            let ghost vm_dst = vm@;
            let n_lhs = remap_vreg(*lhs, vm, nv);
            let ghost vm_lhs = vm@;
            let n_rhs = remap_vreg(*rhs, vm, nv);
            let ghost vm_rhs = vm@;
            proof {
                assert(vm_dst.contains_key(dst.id));
                assert(vm_lhs.contains_key(lhs.id));
                assert(vm_rhs.contains_key(rhs.id));
            }
            IrOp::Lt { dst: n_dst, lhs: n_lhs, rhs: n_rhs, width: *width, signed: *signed }
        },
        IrOp::Le { dst, lhs, rhs, width, signed } => {
            let n_dst = remap_vreg(*dst, vm, nv);
            let ghost vm_dst = vm@;
            let n_lhs = remap_vreg(*lhs, vm, nv);
            let ghost vm_lhs = vm@;
            let n_rhs = remap_vreg(*rhs, vm, nv);
            let ghost vm_rhs = vm@;
            proof {
                assert(vm_dst.contains_key(dst.id));
                assert(vm_lhs.contains_key(lhs.id));
                assert(vm_rhs.contains_key(rhs.id));
            }
            IrOp::Le { dst: n_dst, lhs: n_lhs, rhs: n_rhs, width: *width, signed: *signed }
        },
        IrOp::Gt { dst, lhs, rhs, width, signed } => {
            let n_dst = remap_vreg(*dst, vm, nv);
            let ghost vm_dst = vm@;
            let n_lhs = remap_vreg(*lhs, vm, nv);
            let ghost vm_lhs = vm@;
            let n_rhs = remap_vreg(*rhs, vm, nv);
            let ghost vm_rhs = vm@;
            proof {
                assert(vm_dst.contains_key(dst.id));
                assert(vm_lhs.contains_key(lhs.id));
                assert(vm_rhs.contains_key(rhs.id));
            }
            IrOp::Gt { dst: n_dst, lhs: n_lhs, rhs: n_rhs, width: *width, signed: *signed }
        },
        IrOp::Ge { dst, lhs, rhs, width, signed } => {
            let n_dst = remap_vreg(*dst, vm, nv);
            let ghost vm_dst = vm@;
            let n_lhs = remap_vreg(*lhs, vm, nv);
            let ghost vm_lhs = vm@;
            let n_rhs = remap_vreg(*rhs, vm, nv);
            let ghost vm_rhs = vm@;
            proof {
                assert(vm_dst.contains_key(dst.id));
                assert(vm_lhs.contains_key(lhs.id));
                assert(vm_rhs.contains_key(rhs.id));
            }
            IrOp::Ge { dst: n_dst, lhs: n_lhs, rhs: n_rhs, width: *width, signed: *signed }
        },
        IrOp::Neg { dst, src, width } => {
            let n_dst = remap_vreg(*dst, vm, nv);
            let ghost vm_dst = vm@;
            let n_src = remap_vreg(*src, vm, nv);
            let ghost vm_src = vm@;
            proof {
                assert(vm_dst.contains_key(dst.id));
                assert(vm_src.contains_key(src.id));
            }
            IrOp::Neg { dst: n_dst, src: n_src, width: *width }
        },
        IrOp::Not { dst, src, width } => {
            let n_dst = remap_vreg(*dst, vm, nv);
            let ghost vm_dst = vm@;
            let n_src = remap_vreg(*src, vm, nv);
            let ghost vm_src = vm@;
            proof {
                assert(vm_dst.contains_key(dst.id));
                assert(vm_src.contains_key(src.id));
            }
            IrOp::Not { dst: n_dst, src: n_src, width: *width }
        },
        IrOp::LogicalNot { dst, src, width } => {
            let n_dst = remap_vreg(*dst, vm, nv);
            let ghost vm_dst = vm@;
            let n_src = remap_vreg(*src, vm, nv);
            let ghost vm_src = vm@;
            proof {
                assert(vm_dst.contains_key(dst.id));
                assert(vm_src.contains_key(src.id));
            }
            IrOp::LogicalNot { dst: n_dst, src: n_src, width: *width }
        },
        IrOp::Copy { dst, src } => {
            let n_dst = remap_vreg(*dst, vm, nv);
            let ghost vm_dst = vm@;
            let n_src = remap_vreg(*src, vm, nv);
            let ghost vm_src = vm@;
            proof {
                assert(vm_dst.contains_key(dst.id));
                assert(vm_src.contains_key(src.id));
            }
            IrOp::Copy { dst: n_dst, src: n_src }
        },
        IrOp::Cast { dst, src, to_type } => {
            let n_dst = remap_vreg(*dst, vm, nv);
            let ghost vm_dst = vm@;
            let n_src = remap_vreg(*src, vm, nv);
            let ghost vm_src = vm@;
            proof {
                assert(vm_dst.contains_key(dst.id));
                assert(vm_src.contains_key(src.id));
            }
            IrOp::Cast { dst: n_dst, src: n_src, to_type: to_type.clone() }
        },
        IrOp::Jump { target } => {
            let n_target = remap_label(*target, lm, nl);
            proof {
            }
            IrOp::Jump { target: n_target }
        },
        IrOp::JumpIfTrue { cond, target } => {
            let n_cond = remap_vreg(*cond, vm, nv);
            let ghost vm_cond = vm@;
            let n_target = remap_label(*target, lm, nl);
            proof {
                assert(vm_cond.contains_key(cond.id));
            }
            IrOp::JumpIfTrue { cond: n_cond, target: n_target }
        },
        IrOp::JumpIfFalse { cond, target } => {
            let n_cond = remap_vreg(*cond, vm, nv);
            let ghost vm_cond = vm@;
            let n_target = remap_label(*target, lm, nl);
            proof {
                assert(vm_cond.contains_key(cond.id));
            }
            IrOp::JumpIfFalse { cond: n_cond, target: n_target }
        },
        IrOp::Call { func_name, args, dst } => {
            let a = remap_vregs(args, vm, nv);
            let ghost vm1 = vm@;
            let d = match dst {
                Some(x) => Some(remap_vreg(*x, vm, nv)),
                None => None,
            };
            proof {
                assert(a@ =~= args@.map_values(|x: VReg| rn_v(x, vm@))) by {
                    assert forall|k: int| 0 <= k < args@.len() implies a@[k] == rn_v(args@[k], vm@) by {
                        assert(vm1.contains_key(args@[k].id));
                    }
                }
            }
            IrOp::Call { func_name: func_name.clone(), args: a, dst: d }
        },
        IrOp::Return { value } => {
            let v2 = match value {
                Some(x) => Some(remap_vreg(*x, vm, nv)),
                None => None,
            };
            IrOp::Return { value: v2 }
        },
        IrOp::Label { label } => {
            let n_label = remap_label(*label, lm, nl);
            proof {
            }
            IrOp::Label { label: n_label }
        },
        IrOp::AddrOfGlobal { dst, name } => {
            let n_dst = remap_vreg(*dst, vm, nv);
            let ghost vm_dst = vm@;
            proof {
                assert(vm_dst.contains_key(dst.id));
            }
            IrOp::AddrOfGlobal { dst: n_dst, name: name.clone() }
        },
        IrOp::PtrAdd { dst, ptr, offset, element_size } => {
            let n_dst = remap_vreg(*dst, vm, nv);
            let ghost vm_dst = vm@;
            let n_ptr = remap_vreg(*ptr, vm, nv);
            let ghost vm_ptr = vm@;
            let n_offset = remap_vreg(*offset, vm, nv);
            let ghost vm_offset = vm@;
            proof {
                assert(vm_dst.contains_key(dst.id));
                assert(vm_ptr.contains_key(ptr.id));
                assert(vm_offset.contains_key(offset.id));
            }
            IrOp::PtrAdd { dst: n_dst, ptr: n_ptr, offset: n_offset, element_size: *element_size }
        },
        IrOp::InlineAsm { code, inputs, return_type, clobber_all } => {
            let i2 = remap_inputs(inputs, vm, nv);
            IrOp::InlineAsm { code: code.clone(), inputs: i2, return_type: return_type.clone(), clobber_all: *clobber_all }
        },
    }
}

} // verus!
