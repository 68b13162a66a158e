//! Whole-program passes around function specialisation: cloning a callee
//! for constant arguments, merging clones with equal bodies, and removing
//! functions unreachable from `main`.

use vstd::prelude::*;

use crate::ir::{GlobalVar, IrFunction, IrInstr, IrOp, IrParam, IrProgram, Label, VReg, Width, same_function, same_instr};
use crate::opt::unroll::concat_all;
use crate::maps::AssocMap;
use crate::opt::equiv::{op_eq, op_equiv};
use crate::opt::inline::{calls_name, last_function_named};
use crate::opt::ops::{collect_vregs, op_all_vregs};
use crate::opt::remap::{keeps, remap_vreg, remap_label, rn_v, rn_l};
use crate::text::{concat2, concat3, contains, replace_prefix, starts_with, seq_has_sub};
use crate::types::CType;

verus! {

/// The marker that the names of specialised clones contain.
pub open spec fn spec_marker() -> Seq<char> {
    seq!['_', '_', 's', 'p', 'e', 'c', '_']
}

/// Whether a function name is that of a specialised clone (holds `__spec_`).
pub fn is_spec_name(name: &str) -> (r: bool)
    ensures
        r == seq_has_sub(name@, spec_marker()),
{
    proof {
        reveal_strlit("__spec_");
    }
    assert("__spec_"@ == spec_marker());
    contains(name, "__spec_")
}

/// Some operation of `fs` mentions vreg `x`.
pub open spec fn vreg_mentioned(fs: Seq<IrFunction>, x: u32) -> bool {
    exists|f: int, i: int, k: int| 0 <= f < fs.len() && 0 <= i < fs[f].body@.len()
        && 0 <= k < op_all_vregs(fs[f].body@[i].op).len() && (#[trigger] op_all_vregs(fs[f].body@[i].op)[k]).id == x
}

/// One past the largest vreg id mentioned anywhere in the program (0 for a
/// program without vregs), as a wide number.
pub fn next_vreg_id(program: &IrProgram) -> (r: u64)
    ensures
        r <= u32::MAX as u64 + 1,
        r == 0 || vreg_mentioned(program.functions@, (r - 1) as u32),
        forall|f: int, i: int, k: int| 0 <= f < program.functions@.len() && 0 <= i < program.functions@[f].body@.len()
            && 0 <= k < op_all_vregs(program.functions@[f].body@[i].op).len()
            ==> (#[trigger] op_all_vregs(program.functions@[f].body@[i].op)[k]).id < r,
{
    let mut m: u64 = 0;
    let mut f: usize = 0;
    while f < program.functions.len()
        invariant
            f <= program.functions@.len(),
            m <= u32::MAX as u64 + 1,
            m == 0 || vreg_mentioned(program.functions@, (m - 1) as u32),
            forall|g: int, i: int, k: int| 0 <= g < f && 0 <= i < program.functions@[g].body@.len()
                && 0 <= k < op_all_vregs(program.functions@[g].body@[i].op).len()
                ==> (#[trigger] op_all_vregs(program.functions@[g].body@[i].op)[k]).id < m,
        decreases program.functions@.len() - f,
    {
        let func = &program.functions[f];
        let mut i: usize = 0;
        while i < func.body.len()
            invariant
                f < program.functions@.len(),
                *func == program.functions@[f as int],
                i <= func.body@.len(),
                m <= u32::MAX as u64 + 1,
                m == 0 || vreg_mentioned(program.functions@, (m - 1) as u32),
                forall|g: int, i2: int, k: int| 0 <= g < f && 0 <= i2 < program.functions@[g].body@.len()
                    && 0 <= k < op_all_vregs(program.functions@[g].body@[i2].op).len()
                    ==> (#[trigger] op_all_vregs(program.functions@[g].body@[i2].op)[k]).id < m,
                forall|i2: int, k: int| 0 <= i2 < i && 0 <= k < op_all_vregs(func.body@[i2].op).len()
                    ==> (#[trigger] op_all_vregs(func.body@[i2].op)[k]).id < m,
            decreases func.body@.len() - i,
        {
            let vs = collect_vregs(&func.body[i].op);
            let mut k: usize = 0;
            while k < vs.len()
                invariant
                    k <= vs@.len(),
                    vs@ == op_all_vregs(func.body@[i as int].op),
                    i < func.body@.len(),
                    f < program.functions@.len(),
                    *func == program.functions@[f as int],
                    m <= u32::MAX as u64 + 1,
                    m == 0 || vreg_mentioned(program.functions@, (m - 1) as u32),
                    forall|g: int, i2: int, k2: int| 0 <= g < f && 0 <= i2 < program.functions@[g].body@.len()
                        && 0 <= k2 < op_all_vregs(program.functions@[g].body@[i2].op).len()
                        ==> (#[trigger] op_all_vregs(program.functions@[g].body@[i2].op)[k2]).id < m,
                    forall|i2: int, k2: int| 0 <= i2 < i && 0 <= k2 < op_all_vregs(func.body@[i2].op).len()
                        ==> (#[trigger] op_all_vregs(func.body@[i2].op)[k2]).id < m,
                    forall|k2: int| 0 <= k2 < k ==> (#[trigger] vs@[k2]).id < m,
                decreases vs@.len() - k,
            {
                if vs[k].id as u64 >= m {
                    m = vs[k].id as u64 + 1;
                    proof {
                        assert(op_all_vregs(program.functions@[f as int].body@[i as int].op)[k as int].id == (m - 1) as u32);
                    }
                }
                k += 1;
            }
            i += 1;
        }
        f += 1;
    }
    m
}

/// `label` with the prefix `old` replaced by `new` when it starts with it.
pub open spec fn rewritten_label(label: Seq<char>, old: Seq<char>, new: Seq<char>) -> Seq<char> {
    if old.is_prefix_of(label) {
        new + label.subrange(old.len() as int, label.len() as int)
    } else {
        label
    }
}

/// Replace the prefix `old_prefix` of a label by `new_prefix`; other labels
/// are kept.
pub fn maybe_rewrite_local_label(label: &str, old_prefix: &str, new_prefix: &str) -> (r: String)
    ensures
        r@ == rewritten_label(label@, old_prefix@, new_prefix@),
{
    if starts_with(label, old_prefix) {
        replace_prefix(label, old_prefix, new_prefix)
    } else {
        label.to_string()
    }
}

/// `new` is `old` with the storage labels of global loads, stores and
/// address-of operations rewritten (see [`rewritten_label`]).
pub open spec fn labels_rewritten(old: IrOp, new: IrOp, o: Seq<char>, n: Seq<char>) -> bool {
    match old {
        IrOp::LoadGlobal { dst, addr_label } => new matches IrOp::LoadGlobal { dst: d2, addr_label: a2 }
            && d2 == dst && a2@ == rewritten_label(addr_label@, o, n),
        IrOp::StoreGlobal { addr_label, src } => new matches IrOp::StoreGlobal { addr_label: a2, src: s2 }
            && s2 == src && a2@ == rewritten_label(addr_label@, o, n),
        IrOp::AddrOfGlobal { dst, name } => new matches IrOp::AddrOfGlobal { dst: d2, name: a2 }
            && d2 == dst && a2@ == rewritten_label(name@, o, n),
        _ => crate::ir::same_op(new, old),
    }
}

/// Rewrite the local storage labels an operation mentions.
pub fn rename_local_labels_in_op(op: &IrOp, old_prefix: &str, new_prefix: &str) -> (r: IrOp)
    ensures
        labels_rewritten(*op, r, old_prefix@, new_prefix@),
{
    match op {
        IrOp::LoadGlobal { dst, addr_label } => IrOp::LoadGlobal {
            dst: *dst,
            addr_label: maybe_rewrite_local_label(addr_label.as_str(), old_prefix, new_prefix),
        },
        IrOp::StoreGlobal { addr_label, src } => IrOp::StoreGlobal {
            addr_label: maybe_rewrite_local_label(addr_label.as_str(), old_prefix, new_prefix),
            src: *src,
        },
        IrOp::AddrOfGlobal { dst, name } => IrOp::AddrOfGlobal {
            dst: *dst,
            name: maybe_rewrite_local_label(name.as_str(), old_prefix, new_prefix),
        },
        _ => op.clone(),
    }
}

/// The last constant argument given for position `p` is `v`.
pub open spec fn last_const(cs: Seq<(usize, i64)>, p: int, v: i64) -> bool {
    exists|k: int| 0 <= k < cs.len() && #[trigger] cs[k] == (p as usize, v)
        && forall|k2: int| k < k2 < cs.len() ==> (#[trigger] cs[k2]).0 != p
}

/// No constant argument is given for position `p`.
pub open spec fn no_const(cs: Seq<(usize, i64)>, p: int) -> bool {
    forall|k: int| 0 <= k < cs.len() ==> (#[trigger] cs[k]).0 != p
}

fn const_for(const_args: &Vec<(usize, i64)>, idx: usize) -> (r: Option<i64>)
    ensures
        r matches Some(v) ==> last_const(const_args@, idx as int, v),
        r is None ==> no_const(const_args@, idx as int),
{
    let mut r: Option<i64> = None;
    let mut k: usize = 0;
    while k < const_args.len()
        invariant
            k <= const_args@.len(),
            r matches Some(v) ==> exists|j: int| 0 <= j < k && #[trigger] const_args@[j] == (idx, v)
                && forall|k2: int| j < k2 < k ==> (#[trigger] const_args@[k2]).0 != idx,
            r is None ==> forall|j: int| 0 <= j < k ==> (#[trigger] const_args@[j]).0 != idx,
        decreases const_args@.len() - k,
    {
        if const_args[k].0 == idx {
            r = Some(const_args[k].1);
            assert(const_args@[k as int] == (idx, const_args@[k as int].1));
        }
        k += 1;
    }
    r
}

/// The prefix of a function's local storage labels, `_l_<function>`.
pub open spec fn local_prefix(name: Seq<char>) -> Seq<char> {
    seq!['_', 'l', '_'] + name
}

/// The storage label of a parameter under a function's label prefix.
pub open spec fn slot_of(prefix: Seq<char>, pname: Seq<char>) -> Seq<char> {
    prefix + seq!['_'] + pname
}

/// `p` is the first parameter whose slot under `prefix` is `label`.
pub open spec fn first_slot_param(params: Seq<IrParam>, prefix: Seq<char>, label: Seq<char>, p: int) -> bool {
    &&& 0 <= p < params.len()
    &&& label == slot_of(prefix, params[p].name@)
    &&& forall|q: int| 0 <= q < p ==> label != slot_of(prefix, (#[trigger] params[q]).name@)
}

/// `seg` is the callee instruction `instr`, a store to the slot of
/// parameter `p`, replaced by a load of the constant `val` given for `p`
/// into the fresh vreg `c` (id in `[lo, hi)`, the parameter's width) and a
/// store of `c` to the renamed slot.
pub open spec fn const_stored(instr: IrInstr, seg: Seq<IrInstr>, params: Seq<IrParam>, o: Seq<char>, n: Seq<char>,
    cs: Seq<(usize, i64)>, lo: int, hi: int, p: int, c: VReg, val: i64) -> bool {
    instr.op matches IrOp::StoreGlobal { addr_label, .. }
        && first_slot_param(params, n, rewritten_label(addr_label@, o, n), p)
        && last_const(cs, p, val)
        && c.width == params[p].vreg.width && lo <= c.id < hi
        && seg.len() == 2
        && seg[0] == (IrInstr { op: IrOp::LoadImm { dst: c, value: val }, line: instr.line })
        && seg[1].line == instr.line
        && (seg[1].op matches IrOp::StoreGlobal { addr_label: a2, src: s2 }
            && a2@ == rewritten_label(addr_label@, o, n) && s2 == c)
}

/// `seg` is what the callee instruction `instr` becomes in a specialised
/// clone: the instruction with its local labels renamed from prefix `o`
/// to `n` (see [`labels_rewritten`]), unless it stores to the slot of a
/// parameter given a constant, which becomes a constant load and store.
pub open spec fn cloned_instr(instr: IrInstr, seg: Seq<IrInstr>, params: Seq<IrParam>, o: Seq<char>, n: Seq<char>,
    cs: Seq<(usize, i64)>, lo: int, hi: int) -> bool {
    ||| (seg.len() == 1 && seg[0].line == instr.line && labels_rewritten(instr.op, seg[0].op, o, n)
        && (instr.op matches IrOp::StoreGlobal { addr_label, .. } ==> forall|p: int|
            #[trigger] first_slot_param(params, n, rewritten_label(addr_label@, o, n), p) ==> no_const(cs, p)))
    ||| exists|p: int, c: VReg, val: i64| #[trigger] const_stored(instr, seg, params, o, n, cs, lo, hi, p, c, val)
}

/// A cloned instruction stays one when more fresh ids are allowed.
proof fn lemma_cloned_instr_mono(instr: IrInstr, seg: Seq<IrInstr>, params: Seq<IrParam>, o: Seq<char>, n: Seq<char>,
    cs: Seq<(usize, i64)>, lo: int, hi1: int, hi2: int)
    requires
        cloned_instr(instr, seg, params, o, n, cs, lo, hi1),
        hi1 <= hi2,
    ensures
        cloned_instr(instr, seg, params, o, n, cs, lo, hi2),
{
    if !(seg.len() == 1 && seg[0].line == instr.line && labels_rewritten(instr.op, seg[0].op, o, n)
        && (instr.op matches IrOp::StoreGlobal { addr_label, .. } ==> forall|p: int|
            #[trigger] first_slot_param(params, n, rewritten_label(addr_label@, o, n), p) ==> no_const(cs, p))) {
        let (p, c, val) = choose|p: int, c: VReg, val: i64| #[trigger] const_stored(instr, seg, params, o, n, cs, lo, hi1, p, c, val);
        assert(const_stored(instr, seg, params, o, n, cs, lo, hi2, p, c, val));
    }
}

/// A copy of `callee` named `new_name`: its local labels renamed to the new
/// function's prefix, and each store of a constant argument's parameter
/// preceded by a load of that constant into a fresh vreg, which is then
/// stored instead.  Also the copies of the callee's local globals under
/// their new names.  `None` when the fresh vreg ids run out.
#[verifier::rlimit(40)]
pub fn clone_specialized_function(
    callee: &IrFunction,
    new_name: &str,
    const_args: &Vec<(usize, i64)>,
    next_vreg: &mut u32,
    globals: &Vec<GlobalVar>,
) -> (r: Option<(IrFunction, Vec<GlobalVar>)>)
    ensures
        *final(next_vreg) >= *old(next_vreg),
        *final(next_vreg) <= *old(next_vreg) + callee.body@.len(),
        *old(next_vreg) + callee.body@.len() < u32::MAX ==> r is Some,
        r matches Some(p) ==> p.0.name@ == new_name@ && p.0.params@ == callee.params@
            && p.0.return_type == callee.return_type && p.0.is_variadic == callee.is_variadic
            && p.0.is_asm_body == callee.is_asm_body,
        r matches Some(p) ==> exists|segs: Seq<Seq<IrInstr>>| #![trigger concat_all(segs)]
            segs.len() == callee.body@.len() && p.0.body@ == concat_all(segs)
            && forall|t: int| 0 <= t < segs.len() ==> #[trigger] cloned_instr(callee.body@[t], segs[t], callee.params@,
                local_prefix(callee.name@), local_prefix(new_name@), const_args@,
                *old(next_vreg) as int, *final(next_vreg) as int),
{
    proof {
        reveal_strlit("_l_");
        reveal_strlit("_");
    }
    let old_prefix = concat2("_l_", callee.name.as_str());
    let new_prefix = concat2("_l_", new_name);
    let ghost o = old_prefix@;
    let ghost n = new_prefix@;
    assert(o == local_prefix(callee.name@));
    assert(n == local_prefix(new_name@));
    let ghost params = callee.params@;
    let ghost lo = *next_vreg as int;
    let mut cloned = callee.clone();
    cloned.name = new_name.to_string();
    let mut body: Vec<IrInstr> = Vec::new();
    let ghost mut segs: Seq<Seq<IrInstr>> = Seq::empty();
    proof {
        assert(body@ =~= concat_all(segs));
    }
    let mut i: usize = 0;
    while i < callee.body.len()
        invariant
            *next_vreg >= *old(next_vreg),
            lo == *old(next_vreg) as int,
            i <= callee.body@.len(),
            *next_vreg <= lo + i,
            o == old_prefix@,
            n == new_prefix@,
            params == callee.params@,
            body@ == concat_all(segs),
            segs.len() == i,
            forall|t: int| 0 <= t < i ==> #[trigger] cloned_instr(callee.body@[t], segs[t], params, o, n, const_args@,
                lo, *next_vreg as int),
        decreases callee.body@.len() - i,
    {
        let ghost nv0 = *next_vreg as int;
        let ghost instr = callee.body@[i as int];
        let ghost mut seg: Seq<IrInstr> = Seq::empty();
        let line = callee.body[i].line;
        let rewritten = rename_local_labels_in_op(&callee.body[i].op, old_prefix.as_str(), new_prefix.as_str());
        let mut handled = false;
        match &rewritten {
            IrOp::StoreGlobal { addr_label, .. } => {
                // The first parameter whose slot this is.
                let mut p: usize = 0;
                let mut found: Option<usize> = None;
                while p < callee.params.len() && found.is_none()
                    invariant
                        p <= callee.params@.len(),
                        params == callee.params@,
                        n == new_prefix@,
                        found is None ==> forall|q: int| 0 <= q < p ==> addr_label@ != slot_of(n, (#[trigger] params[q]).name@),
                        found matches Some(q) ==> first_slot_param(params, n, addr_label@, q as int),
                    decreases callee.params@.len() - p,
                {
                    proof {
                        reveal_strlit("_");
                    }
                    let slot = concat3(new_prefix.as_str(), "_", callee.params[p].name.as_str());
                    assert(slot@ == slot_of(n, params[p as int].name@));
                    if *addr_label == slot {
                        found = Some(p);
                    }
                    p += 1;
                }
                match found {
                    Some(arg_idx) => {
                        match const_for(const_args, arg_idx) {
                            Some(val) => {
                                if *next_vreg == u32::MAX {
                                    return None;
                                }
                                let c = VReg { id: *next_vreg, width: callee.params[arg_idx].vreg.width };
                                *next_vreg = *next_vreg + 1;
                                let i1 = IrInstr { op: IrOp::LoadImm { dst: c, value: val }, line };
                                let i2 = IrInstr { op: IrOp::StoreGlobal { addr_label: addr_label.clone(), src: c }, line };
                                proof {
                                    seg = seq![i1, i2];
                                    assert(const_stored(instr, seg, params, o, n, const_args@, lo, *next_vreg as int, arg_idx as int, c, val));
                                }
                                body.push(i1);
                                body.push(i2);
                                handled = true;
                            },
                            None => {},
                        }
                    },
                    None => {},
                }
                proof {
                    if !handled {
                        assert forall|q: int| #[trigger] first_slot_param(params, n, addr_label@, q) implies no_const(const_args@, q) by {
                            match found {
                                Some(f) => {
                                    if q < f {
                                        assert(addr_label@ != slot_of(n, params[q].name@));
                                    } else if f < q {
                                        assert(addr_label@ != slot_of(n, params[f as int].name@));
                                    }
                                },
                                None => {},
                            }
                        }
                    }
                }
            },
            _ => {},
        }
        if !handled {
            let i0 = IrInstr { op: rewritten, line };
            proof {
                seg = seq![i0];
            }
            body.push(i0);
        }
        proof {
            assert(cloned_instr(instr, seg, params, o, n, const_args@, lo, *next_vreg as int));
            assert forall|t: int| 0 <= t < i implies #[trigger] cloned_instr(callee.body@[t], segs[t], params, o, n, const_args@,
                lo, *next_vreg as int) by {
                lemma_cloned_instr_mono(callee.body@[t], segs[t], params, o, n, const_args@, lo, nv0, *next_vreg as int);
            }
            assert(segs.push(seg).drop_last() =~= segs);
            assert(body@ =~= concat_all(segs.push(seg)));
            segs = segs.push(seg);
        }
        i += 1;
    }
    cloned.body = body;
    let mut cloned_globals: Vec<GlobalVar> = Vec::new();
    let mut g: usize = 0;
    while g < globals.len()
        decreases globals@.len() - g,
    {
        if starts_with(globals[g].name.as_str(), old_prefix.as_str()) {
            let c = globals[g].clone();
            cloned_globals.push(GlobalVar {
                name: replace_prefix(globals[g].name.as_str(), old_prefix.as_str(), new_prefix.as_str()),
                ty: c.ty,
                init: c.init,
            });
        }
        g += 1;
    }
    Some((cloned, cloned_globals))
}

/// An operation with its vreg and label ids renumbered in order of first
/// appearance (and the vreg widths that do not matter dropped), or an
/// operation kept as it is (`raw`).
pub struct NormOp {
    pub raw: bool,
    pub op: IrOp,
}

/// `m` numbers its keys one-to-one with ids below `n`.
pub open spec fn numbering(m: Map<u32, u32>, n: u32) -> bool {
    &&& forall|k: u32| #[trigger] m.contains_key(k) ==> m[k] < n
    &&& forall|a: u32, b: u32| #[trigger] m.contains_key(a) && #[trigger] m.contains_key(b) && m[a] == m[b] ==> a == b
}

/// A vreg renumbered through `vm`, its width dropped (fixed to 8 bits).
pub open spec fn rn8(v: VReg, vm: Map<u32, u32>) -> VReg {
    VReg { id: vm[v.id], width: Width::W8 }
}

/// An optional vreg renumbered through `vm`, its width dropped.
pub open spec fn rn8_opt(v: Option<VReg>, vm: Map<u32, u32>) -> Option<VReg> {
    match v {
        Some(x) => Some(rn8(x, vm)),
        None => None,
    }
}

/// `n` is the normal form of `op` under the numberings `vm` (vregs) and
/// `lm` (labels): loads and stores of immediates and globals keep their
/// vreg widths, the other renumbered operations drop them, and operations
/// of any other kind are kept as they are (`raw`).
pub open spec fn normalized(op: IrOp, n: NormOp, vm: Map<u32, u32>, lm: Map<u32, u32>) -> bool {
    match op {
        IrOp::LoadImm { dst, value } => !n.raw && n.op == IrOp::LoadImm { dst: rn_v(dst, vm), value },
        IrOp::LoadGlobal { dst, addr_label } => !n.raw && n.op == IrOp::LoadGlobal { dst: rn_v(dst, vm), addr_label },
        IrOp::StoreGlobal { addr_label, src } => !n.raw && n.op == IrOp::StoreGlobal { addr_label, src: rn_v(src, vm) },
        IrOp::Add { dst, lhs, rhs, width } => !n.raw && n.op == IrOp::Add { dst: rn8(dst, vm), lhs: rn8(lhs, vm), rhs: rn8(rhs, vm), width },
        IrOp::Sub { dst, lhs, rhs, width } => !n.raw && n.op == IrOp::Sub { dst: rn8(dst, vm), lhs: rn8(lhs, vm), rhs: rn8(rhs, vm), width },
        IrOp::Mul { dst, lhs, rhs, width, signed } => !n.raw && n.op == IrOp::Mul { dst: rn8(dst, vm), lhs: rn8(lhs, vm), rhs: rn8(rhs, vm), width, signed },
        IrOp::Copy { dst, src } => !n.raw && n.op == IrOp::Copy { dst: rn8(dst, vm), src: rn8(src, vm) },
        IrOp::Label { label } => !n.raw && n.op == IrOp::Label { label: rn_l(label, lm) },
        IrOp::Jump { target } => !n.raw && n.op == IrOp::Jump { target: rn_l(target, lm) },
        IrOp::JumpIfTrue { cond, target } => !n.raw && n.op == IrOp::JumpIfTrue { cond: rn8(cond, vm), target: rn_l(target, lm) },
        IrOp::JumpIfFalse { cond, target } => !n.raw && n.op == IrOp::JumpIfFalse { cond: rn8(cond, vm), target: rn_l(target, lm) },
        IrOp::Return { value } => !n.raw && n.op == IrOp::Return { value: rn8_opt(value, vm) },
        IrOp::Call { func_name, args, dst } => !n.raw && (n.op matches IrOp::Call { func_name: f2, args: a2, dst: d2 }
            && f2 == func_name && a2@ == args@.map_values(|x: VReg| rn8(x, vm)) && d2 == rn8_opt(dst, vm)),
        _ => n.raw && crate::ir::same_op(n.op, op),
    }
}

/// Every vreg and label that the normal form of `op` renumbers has an entry.
pub open spec fn norm_covered(op: IrOp, vm: Map<u32, u32>, lm: Map<u32, u32>) -> bool {
    match op {
        IrOp::LoadImm { dst, .. } => vm.contains_key(dst.id),
        IrOp::LoadGlobal { dst, .. } => vm.contains_key(dst.id),
        IrOp::StoreGlobal { src, .. } => vm.contains_key(src.id),
        IrOp::Add { dst, lhs, rhs, .. } => vm.contains_key(dst.id) && vm.contains_key(lhs.id) && vm.contains_key(rhs.id),
        IrOp::Sub { dst, lhs, rhs, .. } => vm.contains_key(dst.id) && vm.contains_key(lhs.id) && vm.contains_key(rhs.id),
        IrOp::Mul { dst, lhs, rhs, .. } => vm.contains_key(dst.id) && vm.contains_key(lhs.id) && vm.contains_key(rhs.id),
        IrOp::Copy { dst, src } => vm.contains_key(dst.id) && vm.contains_key(src.id),
        IrOp::Label { label } => lm.contains_key(label.0),
        IrOp::Jump { target } => lm.contains_key(target.0),
        IrOp::JumpIfTrue { cond, target } => vm.contains_key(cond.id) && lm.contains_key(target.0),
        IrOp::JumpIfFalse { cond, target } => vm.contains_key(cond.id) && lm.contains_key(target.0),
        IrOp::Return { value } => value matches Some(x) ==> vm.contains_key(x.id),
        IrOp::Call { args, dst, .. } => (forall|k: int| 0 <= k < args@.len() ==> vm.contains_key(#[trigger] args@[k].id))
            && (dst matches Some(x) ==> vm.contains_key(x.id)),
        _ => true,
    }
}

/// A normal form stays one when the numberings grow.
pub proof fn lemma_normalized_grows(op: IrOp, n: NormOp, vm1: Map<u32, u32>, lm1: Map<u32, u32>, vm2: Map<u32, u32>, lm2: Map<u32, u32>)
    requires
        normalized(op, n, vm1, lm1),
        norm_covered(op, vm1, lm1),
        keeps(vm1, vm2),
        keeps(lm1, lm2),
    ensures
        normalized(op, n, vm2, lm2),
        norm_covered(op, vm2, lm2),
{
    match op {
        IrOp::Call { func_name, args, dst } => {
            assert(args@.map_values(|x: VReg| rn8(x, vm1)) =~= args@.map_values(|x: VReg| rn8(x, vm2)));
        },
        _ => {},
    }
}

/// Renumbering one more vreg or label keeps a numbering one-to-one.
proof fn lemma_numbering_step(m1: Map<u32, u32>, n1: u32, m2: Map<u32, u32>, n2: u32, k: u32)
    requires
        numbering(m1, n1),
        m1.contains_key(k) ==> m2 == m1 && n2 == n1,
        !m1.contains_key(k) ==> m2 == m1.insert(k, n1) && n2 == n1 + 1,
    ensures
        numbering(m2, n2),
        keeps(m1, m2),
        m2.contains_key(k),
        n1 <= n2,
{
    assert forall|a: u32, b: u32| #[trigger] m2.contains_key(a) && #[trigger] m2.contains_key(b) && m2[a] == m2[b] implies a == b by {
        if !m1.contains_key(k) {
            if a != k && b != k {
                assert(m1.contains_key(a) && m1.contains_key(b));
            } else if a == k && b != k {
                assert(m1.contains_key(b));
            } else if a != k && b == k {
                assert(m1.contains_key(a));
            }
        }
    }
}

/// A vreg renumbered, with a fixed width.
fn norm_vreg(v: VReg, vm: &mut AssocMap<u32, u32>, nv: &mut u32) -> (r: VReg)
    requires
        old(vm).wf(),
        *old(nv) < u32::MAX,
        numbering(old(vm)@, *old(nv)),
    ensures
        final(vm).wf(),
        *old(nv) <= *final(nv) <= *old(nv) + 1,
        numbering(final(vm)@, *final(nv)),
        keeps(old(vm)@, final(vm)@),
        final(vm)@.contains_key(v.id),
        r == rn8(v, final(vm)@),
{
    let ghost m1 = vm@;
    let ghost n1 = *nv;
    let n = remap_vreg(v, vm, nv);
    proof {
        lemma_numbering_step(m1, n1, vm@, *nv, v.id);
    }
    VReg { id: n.id, width: Width::W8 }
}

/// A vreg renumbered, keeping its width.
fn norm_vreg_w(v: VReg, vm: &mut AssocMap<u32, u32>, nv: &mut u32) -> (r: VReg)
    requires
        old(vm).wf(),
        *old(nv) < u32::MAX,
        numbering(old(vm)@, *old(nv)),
    ensures
        final(vm).wf(),
        *old(nv) <= *final(nv) <= *old(nv) + 1,
        numbering(final(vm)@, *final(nv)),
        keeps(old(vm)@, final(vm)@),
        final(vm)@.contains_key(v.id),
        r == rn_v(v, final(vm)@),
{
    let ghost m1 = vm@;
    let ghost n1 = *nv;
    let r = remap_vreg(v, vm, nv);
    proof {
        lemma_numbering_step(m1, n1, vm@, *nv, v.id);
    }
    r
}

/// A label renumbered.
fn norm_label(l: Label, lm: &mut AssocMap<u32, u32>, nl: &mut u32) -> (r: Label)
    requires
        old(lm).wf(),
        *old(nl) < u32::MAX,
        numbering(old(lm)@, *old(nl)),
    ensures
        final(lm).wf(),
        *old(nl) <= *final(nl) <= *old(nl) + 1,
        numbering(final(lm)@, *final(nl)),
        keeps(old(lm)@, final(lm)@),
        final(lm)@.contains_key(l.0),
        r == rn_l(l, final(lm)@),
{
    let ghost m1 = lm@;
    let ghost n1 = *nl;
    let r = remap_label(l, lm, nl);
    proof {
        lemma_numbering_step(m1, n1, lm@, *nl, l.0);
    }
    r
}

/// The normal form of one operation; `None` when the numbering runs out.
#[verifier::rlimit(40)]
fn normalize_op(op: &IrOp, vm: &mut AssocMap<u32, u32>, lm: &mut AssocMap<u32, u32>, nv: &mut u32, nl: &mut u32)
    -> (r: Option<NormOp>)
    requires
        old(vm).wf(),
        old(lm).wf(),
        numbering(old(vm)@, *old(nv)),
        numbering(old(lm)@, *old(nl)),
    ensures
        final(vm).wf(),
        final(lm).wf(),
        numbering(final(vm)@, *final(nv)),
        numbering(final(lm)@, *final(nl)),
        keeps(old(vm)@, final(vm)@),
        keeps(old(lm)@, final(lm)@),
        r matches Some(n) ==> normalized(*op, n, final(vm)@, final(lm)@) && norm_covered(*op, final(vm)@, final(lm)@),
{
    if *nv as u64 + 3 >= u32::MAX as u64 || *nl == u32::MAX {
        return None;
    }
    let n = match op {
        IrOp::LoadImm { dst, value } => {
            let d = norm_vreg_w(*dst, vm, nv);
            NormOp { raw: false, op: IrOp::LoadImm { dst: d, value: *value } }
        },
        IrOp::LoadGlobal { dst, addr_label } => {
            let d = norm_vreg_w(*dst, vm, nv);
            NormOp { raw: false, op: IrOp::LoadGlobal { dst: d, addr_label: addr_label.clone() } }
        },
        IrOp::StoreGlobal { addr_label, src } => {
            let s = norm_vreg_w(*src, vm, nv);
            NormOp { raw: false, op: IrOp::StoreGlobal { addr_label: addr_label.clone(), src: s } }
        },
        IrOp::Add { dst, lhs, rhs, width } => {
            let d = norm_vreg(*dst, vm, nv);
            let l = norm_vreg(*lhs, vm, nv);
            let r = norm_vreg(*rhs, vm, nv);
            NormOp { raw: false, op: IrOp::Add { dst: d, lhs: l, rhs: r, width: *width } }
        },
        IrOp::Sub { dst, lhs, rhs, width } => {
            let d = norm_vreg(*dst, vm, nv);
            let l = norm_vreg(*lhs, vm, nv);
            let r = norm_vreg(*rhs, vm, nv);
            NormOp { raw: false, op: IrOp::Sub { dst: d, lhs: l, rhs: r, width: *width } }
        },
        IrOp::Mul { dst, lhs, rhs, width, signed } => {
            let d = norm_vreg(*dst, vm, nv);
            let l = norm_vreg(*lhs, vm, nv);
            let r = norm_vreg(*rhs, vm, nv);
            NormOp { raw: false, op: IrOp::Mul { dst: d, lhs: l, rhs: r, width: *width, signed: *signed } }
        },
        IrOp::Copy { dst, src } => {
            let d = norm_vreg(*dst, vm, nv);
            let s = norm_vreg(*src, vm, nv);
            NormOp { raw: false, op: IrOp::Copy { dst: d, src: s } }
        },
        IrOp::Label { label } => {
            let l = norm_label(*label, lm, nl);
            NormOp { raw: false, op: IrOp::Label { label: l } }
        },
        IrOp::Jump { target } => {
            let l = norm_label(*target, lm, nl);
            NormOp { raw: false, op: IrOp::Jump { target: l } }
        },
        IrOp::JumpIfTrue { cond, target } => {
            let c = norm_vreg(*cond, vm, nv);
            let l = norm_label(*target, lm, nl);
            NormOp { raw: false, op: IrOp::JumpIfTrue { cond: c, target: l } }
        },
        IrOp::JumpIfFalse { cond, target } => {
            let c = norm_vreg(*cond, vm, nv);
            let l = norm_label(*target, lm, nl);
            NormOp { raw: false, op: IrOp::JumpIfFalse { cond: c, target: l } }
        },
        IrOp::Return { value } => {
            let v = match value {
                Some(x) => Some(norm_vreg(*x, vm, nv)),
                None => None,
            };
            NormOp { raw: false, op: IrOp::Return { value: v } }
        },
        IrOp::Call { func_name, args, dst } => {
            let ghost vm0 = vm@;
            let mut a: Vec<VReg> = Vec::new();
            let mut k: usize = 0;
            while k < args.len()
                invariant
                    vm.wf(),
                    lm.wf(),
                    k <= args@.len(),
                    a@.len() == k,
                    numbering(vm@, *nv),
                    numbering(lm@, *nl),
                    keeps(vm0, vm@),
                    keeps(old(lm)@, lm@),
                    keeps(old(vm)@, vm0),
                    forall|j: int| 0 <= j < k ==> vm@.contains_key(#[trigger] args@[j].id) && a@[j] == rn8(args@[j], vm@),
                decreases args@.len() - k,
            {
                if *nv == u32::MAX {
                    return None;
                }
                let ghost vm1 = vm@;
                a.push(norm_vreg(args[k], vm, nv));
                proof {
                    assert forall|j: int| 0 <= j < k + 1 implies vm@.contains_key(#[trigger] args@[j].id) && a@[j] == rn8(args@[j], vm@) by {
                        if j < k {
                            assert(vm1.contains_key(args@[j].id));
                        }
                    }
                }
                k += 1;
            }
            if *nv == u32::MAX {
                return None;
            }
            let ghost vm2 = vm@;
            let d = match dst {
                Some(x) => Some(norm_vreg(*x, vm, nv)),
                None => None,
            };
            proof {
                assert forall|j: int| 0 <= j < args@.len() implies vm@.contains_key(#[trigger] args@[j].id) && a@[j] == rn8(args@[j], vm@) by {
                    assert(vm2.contains_key(args@[j].id));
                }
                assert(a@ =~= args@.map_values(|x: VReg| rn8(x, vm@)));
            }
            NormOp { raw: false, op: IrOp::Call { func_name: func_name.clone(), args: a, dst: d } }
        },
        _ => NormOp { raw: true, op: op.clone() },
    };
    Some(n)
}

/// `n` is a normal form of `body`: each operation normalised under
/// one-to-one numberings of vregs and labels shared by the whole body.
pub open spec fn normal_form_of(body: Seq<IrInstr>, n: Seq<NormOp>) -> bool {
    n.len() == body.len() && exists|vm: Map<u32, u32>, vn: u32, lm: Map<u32, u32>, ln: u32|
        numbering(vm, vn) && numbering(lm, ln)
        && forall|i: int| 0 <= i < body.len() ==> #[trigger] normalized(body[i].op, n[i], vm, lm)
}

/// The normal form of a body, so that bodies equal up to a consistent
/// renumbering of vregs and labels compare equal: each operation is
/// normalised under one-to-one numberings of the body's vregs and labels
/// that are shared by the whole body.  `None` when the numbering runs out.
pub fn normalize_body(body: &Vec<IrInstr>) -> (r: Option<Vec<NormOp>>)
    ensures
        r matches Some(n) ==> normal_form_of(body@, n@),
{
    let mut vm: AssocMap<u32, u32> = AssocMap::new();
    let mut lm: AssocMap<u32, u32> = AssocMap::new();
    let mut nv: u32 = 0;
    let mut nl: u32 = 0;
    let mut out: Vec<NormOp> = Vec::new();
    let mut i: usize = 0;
    while i < body.len()
        invariant
            vm.wf(),
            lm.wf(),
            i <= body@.len(),
            out@.len() == i,
            numbering(vm@, nv),
            numbering(lm@, nl),
            forall|k: int| 0 <= k < i ==> #[trigger] normalized(body@[k].op, out@[k], vm@, lm@) && norm_covered(body@[k].op, vm@, lm@),
        decreases body@.len() - i,
    {
        let ghost vm1 = vm@;
        let ghost lm1 = lm@;
        match normalize_op(&body[i].op, &mut vm, &mut lm, &mut nv, &mut nl) {
            Some(n) => {
                proof {
                    assert forall|k: int| 0 <= k < i implies #[trigger] normalized(body@[k].op, out@[k], vm@, lm@) && norm_covered(body@[k].op, vm@, lm@) by {
                        lemma_normalized_grows(body@[k].op, out@[k], vm1, lm1, vm@, lm@);
                    }
                }
                out.push(n);
            },
            None => {
                return None;
            },
        }
        i += 1;
    }
    Some(out)
}

/// Two normalised operations are equal.
pub open spec fn norm_op_equiv(a: NormOp, b: NormOp) -> bool {
    a.raw == b.raw && op_equiv(a.op, b.op)
}

/// Two normal forms are equal.
pub open spec fn norm_equiv(a: Seq<NormOp>, b: Seq<NormOp>) -> bool {
    a.len() == b.len() && forall|i: int| 0 <= i < a.len() ==> #[trigger] norm_op_equiv(a[i], b[i])
}

fn norm_eq(a: &Vec<NormOp>, b: &Vec<NormOp>) -> (r: bool)
    ensures
        r == norm_equiv(a@, b@),
{
    if a.len() != b.len() {
        return false;
    }
    let mut i: usize = 0;
    while i < a.len()
        invariant
            a@.len() == b@.len(),
            i <= a@.len(),
            forall|k: int| 0 <= k < i ==> #[trigger] norm_op_equiv(a@[k], b@[k]),
        decreases a@.len() - i,
    {
        if a[i].raw != b[i].raw || !op_eq(&a[i].op, &b[i].op) {
            assert(!norm_op_equiv(a@[i as int], b@[i as int]));
            return false;
        }
        assert(norm_op_equiv(a@[i as int], b@[i as int]));
        i += 1;
    }
    true
}

/// `b` is `a`, or the call `a` sent to a function named in `names` with the
/// same arguments, destination and line.
pub open spec fn call_redirected(a: IrInstr, b: IrInstr, names: Seq<Seq<char>>) -> bool {
    same_instr(b, a) || (a.op matches IrOp::Call { args, dst, .. } && b.op matches IrOp::Call { func_name: n2, args: a2, dst: d2 }
        && a2@ == args@ && d2 == dst && b.line == a.line && names.contains(n2@))
}

/// The names of the functions.
pub open spec fn names_of(fs: Seq<IrFunction>) -> Seq<Seq<char>> {
    fs.map_values(|f: IrFunction| f.name@)
}

/// A redirection stays valid when more names are allowed.
pub proof fn lemma_redirect_grows(a: IrInstr, b: IrInstr, names: Seq<Seq<char>>, x: Seq<char>)
    requires
        call_redirected(a, b, names),
    ensures
        call_redirected(a, b, names.push(x)),
{
    if !same_instr(b, a) {
        match b.op {
            IrOp::Call { func_name, .. } => {
                let j = choose|j: int| 0 <= j < names.len() && names[j] == func_name@;
                assert(names.push(x)[j] == func_name@);
            },
            _ => {},
        }
    }
}

/// `b` is `a`, or the call `a` redirected to a specialised clone named in
/// `names`.
pub open spec fn call_merged(a: IrInstr, b: IrInstr, names: Seq<Seq<char>>) -> bool {
    &&& call_redirected(a, b, names)
    &&& same_instr(b, a) || (b.op matches IrOp::Call { func_name, .. } && seq_has_sub(func_name@, spec_marker()))
}

/// The names that a list of redirections sends calls to.
pub open spec fn redirect_targets(redirect: Seq<(String, String)>) -> Seq<Seq<char>> {
    redirect.map_values(|p: (String, String)| p.1@)
}

/// `b` is `a`, or the call `a` to the first name of an entry of `redirect`
/// sent to that entry's second name.
pub open spec fn via_redirect(a: IrInstr, b: IrInstr, redirect: Seq<(String, String)>) -> bool {
    same_instr(b, a) || exists|t: int| 0 <= t < redirect.len()
        && (a.op matches IrOp::Call { func_name, .. } && func_name@ == (#[trigger] redirect[t]).0@)
        && (b.op matches IrOp::Call { func_name: n2, .. } && n2@ == redirect[t].1@)
}

/// Redirect the calls of a function to another one, by name.
fn redirect_calls(body: &Vec<IrInstr>, redirect: &Vec<(String, String)>) -> (r: Vec<IrInstr>)
    ensures
        r@.len() == body@.len(),
        forall|i: int| 0 <= i < body@.len() ==> #[trigger] call_redirected(body@[i], r@[i], redirect_targets(redirect@)),
        forall|i: int| 0 <= i < body@.len() ==> #[trigger] via_redirect(body@[i], r@[i], redirect@),
{
    let ghost targets = redirect_targets(redirect@);
    let mut out: Vec<IrInstr> = Vec::new();
    let mut i: usize = 0;
    while i < body.len()
        invariant
            i <= body@.len(),
            out@.len() == i,
            targets == redirect_targets(redirect@),
            forall|k: int| 0 <= k < i ==> #[trigger] call_redirected(body@[k], out@[k], targets),
            forall|k: int| 0 <= k < i ==> #[trigger] via_redirect(body@[k], out@[k], redirect@),
        decreases body@.len() - i,
    {
        let mut replaced = false;
        match &body[i].op {
            IrOp::Call { func_name, args, dst } => {
                let mut k: usize = 0;
                let mut target: Option<usize> = None;
                while k < redirect.len()
                    invariant
                        target matches Some(t) ==> t < redirect@.len() && redirect@[t as int].0@ == func_name@,
                    decreases redirect@.len() - k,
                {
                    if redirect[k].0 == *func_name {
                        target = Some(k);
                    }
                    k += 1;
                }
                match target {
                    Some(t) => {
                        out.push(IrInstr {
                            op: IrOp::Call { func_name: redirect[t].1.clone(), args: crate::ir::clone_vregs(args), dst: *dst },
                            line: body[i].line,
                        });
                        assert(targets[t as int] == redirect@[t as int].1@);
                        assert(call_redirected(body@[i as int], out@[i as int], targets));
                        assert(via_redirect(body@[i as int], out@[i as int], redirect@));
                        replaced = true;
                    },
                    None => {},
                }
            },
            _ => {},
        }
        if !replaced {
            out.push(body[i].clone());
        }
        i += 1;
    }
    out
}

/// Bodies `a` and `b` have equal normal forms: they are equal up to
/// one-to-one renumberings of vregs and labels (and the vreg widths that
/// normal forms drop).
pub open spec fn same_shape(a: Seq<IrInstr>, b: Seq<IrInstr>) -> bool {
    exists|na: Seq<NormOp>, nb: Seq<NormOp>| normal_form_of(a, na) && normal_form_of(b, nb) && norm_equiv(na, nb)
}

/// The entry `e` of a redirection sends calls of a clone of `fs` to an
/// earlier clone of `fs` whose body has the same shape.
pub open spec fn merges_into_earlier(e: (String, String), fs: Seq<IrFunction>) -> bool {
    exists|i: int, j: int| #![trigger fs[i], fs[j]] 0 <= j < i < fs.len()
        && fs[i].name@ == e.0@ && fs[j].name@ == e.1@
        && seq_has_sub(fs[i].name@, spec_marker()) && seq_has_sub(fs[j].name@, spec_marker())
        && same_shape(fs[j].body@, fs[i].body@)
}

/// `b` is `a`, or the call `a` to a clone of `fs` redirected to an earlier
/// clone of `fs` whose body has the same shape.
pub open spec fn merged_call(a: IrInstr, b: IrInstr, fs: Seq<IrFunction>) -> bool {
    same_instr(b, a) || exists|i: int, j: int| #![trigger fs[i], fs[j]] 0 <= j < i < fs.len()
        && (a.op matches IrOp::Call { func_name, .. } && func_name@ == fs[i].name@)
        && (b.op matches IrOp::Call { func_name: n2, .. } && n2@ == fs[j].name@)
        && seq_has_sub(fs[i].name@, spec_marker()) && seq_has_sub(fs[j].name@, spec_marker())
        && same_shape(fs[j].body@, fs[i].body@)
}

/// The canonical entry `e` is the normal form and name of the clone at one
/// of the first `t` positions of `idx`.
pub open spec fn canonical_at(e: (Vec<NormOp>, String), fs: Seq<IrFunction>, idx: Seq<usize>, t: int) -> bool {
    exists|u: int| 0 <= u < t && #[trigger] idx[u] < fs.len() && fs[idx[u] as int].name@ == e.1@
        && seq_has_sub(e.1@, spec_marker()) && normal_form_of(fs[idx[u] as int].body@, e.0@)
}

/// Merge specialised clones whose bodies are equal up to a renumbering of
/// vregs and labels: calls of a later duplicate are redirected to the first
/// clone with that body.  Function bodies keep their lengths; only call
/// targets change.
#[verifier::rlimit(60)]
pub fn dedup_specializations(program: &mut IrProgram)
    ensures
        final(program).functions@.len() == old(program).functions@.len(),
        forall|k: int| 0 <= k < final(program).functions@.len() ==>
            (#[trigger] final(program).functions@[k]).name@ == old(program).functions@[k].name@
            && final(program).functions@[k].body@.len() == old(program).functions@[k].body@.len(),
        final(program).globals == old(program).globals,
        final(program).strings == old(program).strings,
        forall|k: int, t: int| 0 <= k < old(program).functions@.len() && 0 <= t < old(program).functions@[k].body@.len()
            ==> #[trigger] call_merged(old(program).functions@[k].body@[t], final(program).functions@[k].body@[t],
                names_of(old(program).functions@)),
        forall|k: int, t: int| 0 <= k < old(program).functions@.len() && 0 <= t < old(program).functions@[k].body@.len()
            ==> #[trigger] merged_call(old(program).functions@[k].body@[t], final(program).functions@[k].body@[t],
                old(program).functions@),
{
    let ghost olds = program.functions@;
    proof {
        assert forall|k: int, t: int| 0 <= k < olds.len() && 0 <= t < olds[k].body@.len()
            implies #[trigger] call_merged(olds[k].body@[t], olds[k].body@[t], names_of(olds)) by {
            crate::ir::lemma_same_instr_refl(olds[k].body@[t]);
        }
        assert forall|k: int, t: int| 0 <= k < olds.len() && 0 <= t < olds[k].body@.len()
            implies #[trigger] merged_call(olds[k].body@[t], olds[k].body@[t], olds) by {
            crate::ir::lemma_same_instr_refl(olds[k].body@[t]);
        }
    }
    let mut spec_indices: Vec<usize> = Vec::new();
    let mut i: usize = 0;
    while i < program.functions.len()
        invariant
            program.functions@ == olds,
            i <= program.functions@.len(),
            forall|k: int| 0 <= k < spec_indices@.len() ==> #[trigger] spec_indices@[k] < i
                && seq_has_sub(program.functions@[spec_indices@[k] as int].name@, spec_marker()),
            forall|a: int, b: int| 0 <= a < b < spec_indices@.len() ==> spec_indices@[a] < spec_indices@[b],
        decreases program.functions@.len() - i,
    {
        if is_spec_name(program.functions[i].name.as_str()) {
            spec_indices.push(i);
        }
        i += 1;
    }
    if spec_indices.len() < 2 {
        return;
    }
    let mut canonical: Vec<(Vec<NormOp>, String)> = Vec::new();
    let mut redirect: Vec<(String, String)> = Vec::new();
    let mut t: usize = 0;
    while t < spec_indices.len()
        invariant
            program.functions@ == olds,
            t <= spec_indices@.len(),
            forall|k: int| 0 <= k < spec_indices@.len() ==> #[trigger] spec_indices@[k] < program.functions@.len()
                && seq_has_sub(program.functions@[spec_indices@[k] as int].name@, spec_marker()),
            forall|a: int, b: int| 0 <= a < b < spec_indices@.len() ==> spec_indices@[a] < spec_indices@[b],
            forall|c: int| 0 <= c < canonical@.len() ==> names_of(olds).contains(#[trigger] canonical@[c].1@)
                && seq_has_sub(canonical@[c].1@, spec_marker()),
            forall|c: int| 0 <= c < canonical@.len() ==> canonical_at(#[trigger] canonical@[c], olds, spec_indices@, t as int),
            forall|r: int| 0 <= r < redirect@.len() ==> names_of(olds).contains(#[trigger] redirect@[r].1@)
                && seq_has_sub(redirect@[r].1@, spec_marker()),
            forall|r: int| 0 <= r < redirect@.len() ==> merges_into_earlier(#[trigger] redirect@[r], olds),
        decreases spec_indices@.len() - t,
    {
        let idx = spec_indices[t];
        assert(spec_indices@[t as int] < program.functions@.len());
        match normalize_body(&program.functions[idx].body) {
            Some(norm) => {
                let name = program.functions[idx].name.clone();
                assert(names_of(olds)[idx as int] == name@);
                let mut c: usize = 0;
                let mut existing: Option<usize> = None;
                while c < canonical.len() && existing.is_none()
                    invariant
                        existing matches Some(e) ==> e < canonical@.len() && norm_equiv(canonical@[e as int].0@, norm@),
                    decreases canonical@.len() - c,
                {
                    if norm_eq(&canonical[c].0, &norm) {
                        existing = Some(c);
                    }
                    c += 1;
                }
                match existing {
                    Some(e) => {
                        let target = canonical[e].1.clone();
                        let ghost entry = (name, target);
                        proof {
                            assert(canonical_at(canonical@[e as int], olds, spec_indices@, t as int));
                            let u = choose|u: int| 0 <= u < t && #[trigger] spec_indices@[u] < olds.len()
                                && olds[spec_indices@[u] as int].name@ == canonical@[e as int].1@
                                && seq_has_sub(canonical@[e as int].1@, spec_marker())
                                && normal_form_of(olds[spec_indices@[u] as int].body@, canonical@[e as int].0@);
                            let j = spec_indices@[u] as int;
                            assert(j < idx);
                            assert(same_shape(olds[j].body@, olds[idx as int].body@));
                            assert(olds[idx as int].name@ == entry.0@);
                            assert(olds[j].name@ == entry.1@);
                            assert(merges_into_earlier(entry, olds));
                        }
                        // A later entry for the same name replaces an earlier one.
                        let mut r: usize = 0;
                        let mut done = false;
                        while r < redirect.len() && !done
                            invariant
                                names_of(olds).contains(target@) && seq_has_sub(target@, spec_marker()),
                                merges_into_earlier(entry, olds),
                                entry.0@ == name@ && entry.1@ == target@,
                                forall|r: int| 0 <= r < redirect@.len() ==> names_of(olds).contains(#[trigger] redirect@[r].1@)
                                    && seq_has_sub(redirect@[r].1@, spec_marker()),
                                forall|r: int| 0 <= r < redirect@.len() ==> merges_into_earlier(#[trigger] redirect@[r], olds),
                            decreases redirect@.len() - r,
                        {
                            if redirect[r].0 == name {
                                let mut entry2 = (name.clone(), target.clone());
                                assert(merges_into_earlier(entry2, olds)) by {
                                    assert(entry2.0@ == entry.0@ && entry2.1@ == entry.1@);
                                }
                                redirect.set_and_swap(r, &mut entry2);
                                done = true;
                            }
                            r += 1;
                        }
                        if !done {
                            let entry3 = (name, target);
                            assert(merges_into_earlier(entry3, olds)) by {
                                assert(entry3.0@ == entry.0@ && entry3.1@ == entry.1@);
                            }
                            redirect.push(entry3);
                        }
                        proof {
                            assert forall|c: int| 0 <= c < canonical@.len() implies canonical_at(#[trigger] canonical@[c], olds, spec_indices@, t + 1) by {
                                assert(canonical_at(canonical@[c], olds, spec_indices@, t as int));
                            }
                        }
                    },
                    None => {
                        let ghost newc = (norm, name);
                        proof {
                            assert(canonical_at(newc, olds, spec_indices@, t + 1)) by {
                                assert(spec_indices@[t as int] == idx);
                            }
                            assert forall|c: int| 0 <= c < canonical@.len() implies canonical_at(#[trigger] canonical@[c], olds, spec_indices@, t + 1) by {
                                assert(canonical_at(canonical@[c], olds, spec_indices@, t as int));
                            }
                        }
                        canonical.push((norm, name));
                    },
                }
            },
            None => {
                proof {
                    assert forall|c: int| 0 <= c < canonical@.len() implies canonical_at(#[trigger] canonical@[c], olds, spec_indices@, t + 1) by {
                        assert(canonical_at(canonical@[c], olds, spec_indices@, t as int));
                    }
                }
            },
        }
        t += 1;
    }
    if redirect.len() == 0 {
        return;
    }
    let ghost targets = redirect_targets(redirect@);
    let mut f: usize = 0;
    while f < program.functions.len()
        invariant
            program.functions@.len() == olds.len(),
            forall|k: int| 0 <= k < olds.len() ==> (#[trigger] program.functions@[k]).name@ == olds[k].name@
                && program.functions@[k].body@.len() == olds[k].body@.len(),
            program.globals == old(program).globals,
            program.strings == old(program).strings,
            olds == old(program).functions@,
            forall|k: int| f <= k < olds.len() ==> #[trigger] program.functions@[k] == olds[k],
            targets == redirect_targets(redirect@),
            forall|r: int| 0 <= r < redirect@.len() ==> names_of(olds).contains(#[trigger] redirect@[r].1@)
                && seq_has_sub(redirect@[r].1@, spec_marker()),
            forall|r: int| 0 <= r < redirect@.len() ==> merges_into_earlier(#[trigger] redirect@[r], olds),
            forall|k: int, t: int| 0 <= k < f && 0 <= t < olds[k].body@.len()
                ==> #[trigger] call_merged(olds[k].body@[t], program.functions@[k].body@[t], names_of(olds)),
            forall|k: int, t: int| 0 <= k < f && 0 <= t < olds[k].body@.len()
                ==> #[trigger] merged_call(olds[k].body@[t], program.functions@[k].body@[t], olds),
        decreases program.functions@.len() - f,
    {
        let mut func = IrFunction::new("", CType::Void);
        program.functions.set_and_swap(f, &mut func);
        let ghost f0 = func;
        let nb = redirect_calls(&func.body, &redirect);
        proof {
            assert forall|t: int| 0 <= t < f0.body@.len() implies #[trigger] call_merged(f0.body@[t], nb@[t], names_of(olds)) by {
                assert(call_redirected(f0.body@[t], nb@[t], targets));
                if !same_instr(nb@[t], f0.body@[t]) {
                    match nb@[t].op {
                        IrOp::Call { func_name, .. } => {
                            let r = choose|r: int| 0 <= r < targets.len() && targets[r] == func_name@;
                            assert(names_of(olds).contains(redirect@[r].1@));
                        },
                        _ => {},
                    }
                }
            }
            assert forall|t: int| 0 <= t < f0.body@.len() implies #[trigger] merged_call(f0.body@[t], nb@[t], olds) by {
                assert(via_redirect(f0.body@[t], nb@[t], redirect@));
                if !same_instr(nb@[t], f0.body@[t]) {
                    let r = choose|r: int| 0 <= r < redirect@.len()
                        && (f0.body@[t].op matches IrOp::Call { func_name, .. } && func_name@ == (#[trigger] redirect@[r]).0@)
                        && (nb@[t].op matches IrOp::Call { func_name: n2, .. } && n2@ == redirect@[r].1@);
                    assert(merges_into_earlier(redirect@[r], olds));
                }
            }
        }
        func.body = nb;
        program.functions.set_and_swap(f, &mut func);
        f += 1;
    }
}

/// The text of each string.
pub open spec fn names_view(v: Seq<String>) -> Seq<Seq<char>> {
    v.map_values(|s: String| s@)
}

/// The name `main`.
pub open spec fn main_name() -> Seq<char> {
    seq!['m', 'a', 'i', 'n']
}

/// Some instruction of the body calls `n`.
pub open spec fn body_calls(body: Seq<IrInstr>, n: Seq<char>) -> bool {
    exists|t: int| 0 <= t < body.len() && #[trigger] calls_name(body[t], n)
}

/// `j` is the position of the last function of `fs` named `n`.
pub open spec fn last_named(fs: Seq<IrFunction>, n: Seq<char>, j: int) -> bool {
    0 <= j < fs.len() && fs[j].name@ == n && forall|k: int| j < k < fs.len() ==> (#[trigger] fs[k]).name@ != n
}

/// `live` holds `main` and every name that the last function of one of its
/// names calls.
pub open spec fn closed_under_calls(fs: Seq<IrFunction>, live: Seq<Seq<char>>) -> bool {
    &&& live.contains(main_name())
    &&& forall|i: int, j: int, m: Seq<char>| #![trigger live[i], fs[j], body_calls(fs[j].body@, m)]
        0 <= i < live.len() && last_named(fs, live[i], j) && body_calls(fs[j].body@, m) ==> live.contains(m)
}

/// `n` is `main`, or the last function of a name in `live` calls it.
pub open spec fn reached_from(fs: Seq<IrFunction>, live: Seq<Seq<char>>, n: Seq<char>) -> bool {
    n == main_name() || exists|i: int, j: int| #![trigger live[i], fs[j]]
        0 <= i < live.len() && last_named(fs, live[i], j) && body_calls(fs[j].body@, n)
}

proof fn lemma_reached_grows(fs: Seq<IrFunction>, live: Seq<Seq<char>>, x: Seq<char>, n: Seq<char>)
    requires
        reached_from(fs, live, n),
    ensures
        reached_from(fs, live.push(x), n),
{
    if n != main_name() {
        let (a, b) = choose|a: int, b: int| #![trigger live[a], fs[b]] 0 <= a < live.len() && last_named(fs, live[a], b) && body_calls(fs[b].body@, n);
        assert(live.push(x)[a] == live[a]);
    }
}

pub proof fn lemma_last_named_unique(fs: Seq<IrFunction>, n: Seq<char>, a: int, b: int)
    requires
        last_named(fs, n, a),
        last_named(fs, n, b),
    ensures
        a == b,
{
    if a < b {
        assert(fs[b].name@ != n);
    } else if b < a {
        assert(fs[a].name@ != n);
    }
}

proof fn lemma_distinct_within(s: Seq<Seq<char>>, u: Seq<Seq<char>>)
    requires
        s.no_duplicates(),
        forall|i: int| 0 <= i < s.len() ==> u.contains(#[trigger] s[i]),
    ensures
        s.len() <= u.len(),
{
    broadcast use vstd::seq_lib::seq_to_set_is_finite;
    s.unique_seq_to_set();
    u.lemma_cardinality_of_set();
    assert forall|x: Seq<char>| s.to_set().contains(x) implies u.to_set().contains(x) by {
        let i = choose|i: int| 0 <= i < s.len() && s[i] == x;
        assert(u.contains(s[i]));
    }
    vstd::set_lib::lemma_len_subset(s.to_set(), u.to_set());
}

fn has_name(v: &Vec<String>, s: &String) -> (r: bool)
    ensures
        r == names_view(v@).contains(s@),
{
    let mut i: usize = 0;
    while i < v.len()
        invariant
            i <= v@.len(),
            forall|k: int| 0 <= k < i ==> (#[trigger] v@[k])@ != s@,
        decreases v@.len() - i,
    {
        if v[i] == *s {
            assert(names_view(v@)[i as int] == s@);
            return true;
        }
        i += 1;
    }
    assert forall|k: int| 0 <= k < v@.len() implies names_view(v@)[k] != s@ by {
        assert(v@[k]@ != s@);
    }
    false
}

/// The `i`-th live name is `main` or is called by the last function of an
/// earlier live name.
pub open spec fn reached_before(fs: Seq<IrFunction>, live: Seq<Seq<char>>, i: int) -> bool {
    live[i] == main_name() || exists|a: int, b: int| #![trigger live[a], fs[b]]
        0 <= a < i && last_named(fs, live[a], b) && body_calls(fs[b].body@, live[i])
}

/// The `k`-th step of the name chain `c` is a call by the last function of
/// `c[k]` to `c[k + 1]`.
pub open spec fn chain_step(fs: Seq<IrFunction>, c: Seq<Seq<char>>, k: int) -> bool {
    exists|b: int| #[trigger] last_named(fs, c[k], b) && body_calls(fs[b].body@, c[k + 1])
}

/// `c` is a chain of calls from `main`.
pub open spec fn call_chain(fs: Seq<IrFunction>, c: Seq<Seq<char>>) -> bool {
    &&& c.len() >= 1
    &&& c[0] == main_name()
    &&& forall|k: int| 0 <= k < c.len() - 1 ==> #[trigger] chain_step(fs, c, k)
}

/// `n` is reached from `main` through calls (the last function of a name
/// being the one that calls).
pub open spec fn reachable(fs: Seq<IrFunction>, n: Seq<char>) -> bool {
    exists|c: Seq<Seq<char>>| #[trigger] call_chain(fs, c) && c[c.len() - 1] == n
}

/// Names each reached from an earlier one are all reachable from `main`.
proof fn lemma_reached_before_reachable(fs: Seq<IrFunction>, live: Seq<Seq<char>>, i: int)
    requires
        0 <= i < live.len(),
        forall|j: int| 0 <= j < live.len() ==> #[trigger] reached_before(fs, live, j),
    ensures
        reachable(fs, live[i]),
    decreases i,
{
    assert(reached_before(fs, live, i));
    if live[i] == main_name() {
        let c = seq![main_name()];
        assert(call_chain(fs, c));
    } else {
        let (a, b) = choose|a: int, b: int| #![trigger live[a], fs[b]]
            0 <= a < i && last_named(fs, live[a], b) && body_calls(fs[b].body@, live[i]);
        lemma_reached_before_reachable(fs, live, a);
        let c = choose|c: Seq<Seq<char>>| #[trigger] call_chain(fs, c) && c[c.len() - 1] == live[a];
        let c2 = c.push(live[i]);
        assert forall|k: int| 0 <= k < c2.len() - 1 implies #[trigger] chain_step(fs, c2, k) by {
            if k < c.len() - 1 {
                assert(chain_step(fs, c, k));
                let bb = choose|bb: int| #[trigger] last_named(fs, c[k], bb) && body_calls(fs[bb].body@, c[k + 1]);
                assert(c2[k] == c[k] && c2[k + 1] == c[k + 1]);
                assert(last_named(fs, c2[k], bb));
            } else {
                assert(c2[k] == live[a] && c2[k + 1] == live[i]);
                assert(last_named(fs, c2[k], b));
            }
        }
        assert(call_chain(fs, c2));
    }
}

/// The names reachable through calls from `main` (a name without a
/// function reaches nothing further; the last function of a name is the
/// one that counts).
pub fn live_function_names(program: &IrProgram) -> (r: Vec<String>)
    ensures
        closed_under_calls(program.functions@, names_view(r@)),
        forall|i: int| 0 <= i < r@.len() ==> #[trigger] reached_from(program.functions@, names_view(r@), names_view(r@)[i]),
        forall|i: int| 0 <= i < r@.len() ==> #[trigger] reachable(program.functions@, names_view(r@)[i]),
        names_view(r@).no_duplicates(),
{
    proof {
        reveal_strlit("main");
    }
    let ghost fs = program.functions@;
    let main = String::from_str("main");
    assert(main@ == main_name());
    // Every name that can become live: `main` and every name called.
    let mut universe: Vec<String> = Vec::new();
    universe.push(main.clone());
    assert(names_view(universe@)[0] == main_name());
    let mut f: usize = 0;
    while f < program.functions.len()
        invariant
            fs == program.functions@,
            f <= fs.len(),
            names_view(universe@).contains(main_name()),
            forall|j: int, t: int, m: Seq<char>| 0 <= j < f && 0 <= t < fs[j].body@.len() && #[trigger] calls_name(fs[j].body@[t], m)
                ==> names_view(universe@).contains(m),
        decreases fs.len() - f,
    {
        let body = &program.functions[f].body;
        let mut k: usize = 0;
        while k < body.len()
            invariant
                fs == program.functions@,
                f < fs.len(),
                *body == fs[f as int].body,
                k <= body@.len(),
                names_view(universe@).contains(main_name()),
                forall|j: int, t: int, m: Seq<char>| 0 <= j < f && 0 <= t < fs[j].body@.len() && #[trigger] calls_name(fs[j].body@[t], m)
                    ==> names_view(universe@).contains(m),
                forall|t: int, m: Seq<char>| 0 <= t < k && #[trigger] calls_name(body@[t], m) ==> names_view(universe@).contains(m),
            decreases body@.len() - k,
        {
            let ghost u0 = names_view(universe@);
            match &body[k].op {
                IrOp::Call { func_name, .. } => {
                    universe.push(func_name.clone());
                },
                _ => {},
            }
            proof {
                assert forall|x: Seq<char>| u0.contains(x) implies names_view(universe@).contains(x) by {
                    let i = choose|i: int| 0 <= i < u0.len() && u0[i] == x;
                    assert(names_view(universe@)[i] == x);
                }
                if body@[k as int].op is Call {
                    assert(names_view(universe@)[u0.len() as int] == names_view(universe@).last());
                }
            }
            k += 1;
        }
        f += 1;
    }
    let ghost u = names_view(universe@);
    let mut live: Vec<String> = Vec::new();
    let mut worklist: Vec<String> = Vec::new();
    worklist.push(main);
    proof {
        assert(names_view(worklist@)[0] == main_name());
        assert(names_view(live@) =~= Seq::<Seq<char>>::empty());
    }
    while worklist.len() > 0
        invariant
            fs == program.functions@,
            u == names_view(universe@),
            forall|j: int, t: int, m: Seq<char>| 0 <= j < fs.len() && 0 <= t < fs[j].body@.len() && #[trigger] calls_name(fs[j].body@[t], m)
                ==> u.contains(m),
            names_view(live@).no_duplicates(),
            live@.len() <= u.len(),
            forall|i: int| 0 <= i < live@.len() ==> u.contains(#[trigger] names_view(live@)[i]),
            forall|i: int| 0 <= i < worklist@.len() ==> u.contains(#[trigger] names_view(worklist@)[i]),
            names_view(live@).contains(main_name()) || names_view(worklist@).contains(main_name()),
            forall|i: int, j: int, m: Seq<char>| #![trigger names_view(live@)[i], fs[j], body_calls(fs[j].body@, m)]
                0 <= i < live@.len() && last_named(fs, names_view(live@)[i], j) && body_calls(fs[j].body@, m)
                ==> names_view(live@).contains(m) || names_view(worklist@).contains(m),
            forall|i: int| 0 <= i < live@.len() ==> #[trigger] reached_from(fs, names_view(live@), names_view(live@)[i]),
            forall|i: int| 0 <= i < worklist@.len() ==> #[trigger] reached_from(fs, names_view(live@), names_view(worklist@)[i]),
            forall|i: int| 0 <= i < live@.len() ==> #[trigger] reached_before(fs, names_view(live@), i),
        decreases u.len() - live@.len(), worklist@.len(),
    {
        let ghost l0 = names_view(live@);
        let ghost w0 = names_view(worklist@);
        let name = worklist.pop().unwrap();
        proof {
            assert(names_view(worklist@) =~= w0.drop_last());
            assert(w0.last() == name@);
        }
        if !has_name(&live, &name) {
            live.push(name.clone());
            proof {
                assert(names_view(live@) =~= l0.push(name@));
                assert(u.contains(w0[w0.len() - 1]));
                lemma_distinct_within(names_view(live@), u);
                assert(names_view(live@)[l0.len() as int] == name@);
                assert forall|i: int| 0 <= i < worklist@.len() implies #[trigger] reached_from(fs, names_view(live@), names_view(worklist@)[i]) by {
                    assert(names_view(worklist@)[i] == w0[i]);
                    assert(reached_from(fs, l0, w0[i]));
                    lemma_reached_grows(fs, l0, name@, w0[i]);
                }
                assert forall|i: int| 0 <= i < live@.len() implies #[trigger] reached_before(fs, names_view(live@), i) by {
                    let lv = names_view(live@);
                    if i < l0.len() {
                        assert(reached_before(fs, l0, i));
                        assert(lv[i] == l0[i]);
                        if l0[i] != main_name() {
                            let (a, b) = choose|a: int, b: int| #![trigger l0[a], fs[b]]
                                0 <= a < i && last_named(fs, l0[a], b) && body_calls(fs[b].body@, l0[i]);
                            assert(lv[a] == l0[a]);
                        }
                    } else {
                        assert(reached_from(fs, l0, w0[w0.len() - 1]));
                        assert(lv[i] == name@);
                        if name@ != main_name() {
                            let (a, b) = choose|a: int, b: int| #![trigger l0[a], fs[b]]
                                0 <= a < l0.len() && last_named(fs, l0[a], b) && body_calls(fs[b].body@, name@);
                            assert(lv[a] == l0[a]);
                        }
                    }
                }
            }
            match last_function_named(&program.functions, &name) {
                Some(idx) => {
                    let body = &program.functions[idx].body;
                    let ghost l1 = names_view(live@);
                    let ghost w1 = names_view(worklist@);
                    let mut k: usize = 0;
                    while k < body.len()
                        invariant
                            fs == program.functions@,
                            *body == fs[idx as int].body,
                            last_named(fs, name@, idx as int),
                            names_view(live@) == l1,
                            k <= body@.len(),
                            forall|i: int| 0 <= i < worklist@.len() ==> u.contains(#[trigger] names_view(worklist@)[i]),
                            forall|j: int, t: int, m: Seq<char>| 0 <= j < fs.len() && 0 <= t < fs[j].body@.len() && #[trigger] calls_name(fs[j].body@[t], m)
                                ==> u.contains(m),
                            forall|x: Seq<char>| w1.contains(x) ==> names_view(worklist@).contains(x),
                            forall|t: int, m: Seq<char>| 0 <= t < k && #[trigger] calls_name(body@[t], m)
                                ==> l1.contains(m) || names_view(worklist@).contains(m),
                            forall|i: int| 0 <= i < worklist@.len() ==> #[trigger] reached_from(fs, l1, names_view(worklist@)[i]),
                            forall|i: int| 0 <= i < l1.len() ==> #[trigger] reached_before(fs, l1, i),
                            l1.contains(name@),
                        decreases body@.len() - k,
                    {
                        let ghost wk = names_view(worklist@);
                        match &body[k].op {
                            IrOp::Call { func_name, .. } => {
                                if !has_name(&live, func_name) {
                                    worklist.push(func_name.clone());
                                    proof {
                                        assert(names_view(worklist@) =~= wk.push(func_name@));
                                        assert(calls_name(fs[idx as int].body@[k as int], func_name@));
                                        assert(u.contains(func_name@));
                                        let i = choose|i: int| 0 <= i < l1.len() && l1[i] == name@;
                                        assert(body_calls(fs[idx as int].body@, func_name@));
                                        assert(reached_from(fs, l1, func_name@));
                                    }
                                }
                            },
                            _ => {},
                        }
                        proof {
                            assert forall|x: Seq<char>| wk.contains(x) implies names_view(worklist@).contains(x) by {
                                let i = choose|i: int| 0 <= i < wk.len() && wk[i] == x;
                                assert(names_view(worklist@)[i] == x);
                            }
                            assert forall|t: int, m: Seq<char>| 0 <= t < k + 1 && #[trigger] calls_name(body@[t], m)
                                implies l1.contains(m) || names_view(worklist@).contains(m) by {
                                if t < k {
                                    if !l1.contains(m) {
                                        assert(wk.contains(m));
                                    }
                                } else if !l1.contains(m) {
                                    assert(names_view(worklist@)[wk.len() as int] == m);
                                }
                            }
                        }
                        k += 1;
                    }
                    proof {
                        assert forall|i: int, j: int, m: Seq<char>| #![trigger names_view(live@)[i], fs[j], body_calls(fs[j].body@, m)]
                            0 <= i < live@.len() && last_named(fs, names_view(live@)[i], j) && body_calls(fs[j].body@, m)
                            implies names_view(live@).contains(m) || names_view(worklist@).contains(m) by {
                            if i == l0.len() {
                                lemma_last_named_unique(fs, name@, j, idx as int);
                                let t = choose|t: int| 0 <= t < fs[j].body@.len() && #[trigger] calls_name(fs[j].body@[t], m);
                            } else {
                                assert(l0[i] == names_view(live@)[i]);
                                if !l0.contains(m) && w0.contains(m) && m != name@ {
                                    let q = choose|q: int| 0 <= q < w0.len() && w0[q] == m;
                                    assert(w0.drop_last()[q] == m);
                                    assert(w1.contains(m));
                                } else if l0.contains(m) {
                                    let q = choose|q: int| 0 <= q < l0.len() && l0[q] == m;
                                    assert(names_view(live@)[q] == m);
                                } else if m == name@ {
                                    assert(names_view(live@)[l0.len() as int] == m);
                                }
                            }
                        }
                        assert forall|i: int| 0 <= i < live@.len() implies #[trigger] reached_from(fs, names_view(live@), names_view(live@)[i]) by {
                            if i < l0.len() {
                                assert(reached_from(fs, l0, l0[i]));
                                assert(l0[i] == names_view(live@)[i]);
                                if l0[i] != main_name() {
                                    let (a, b) = choose|a: int, b: int| #![trigger l0[a], fs[b]] 0 <= a < l0.len() && last_named(fs, l0[a], b) && body_calls(fs[b].body@, l0[i]);
                                    assert(names_view(live@)[a] == l0[a]);
                                }
                            } else {
                                assert(reached_from(fs, l0, w0[w0.len() - 1]));
                                if name@ != main_name() {
                                    let (a, b) = choose|a: int, b: int| #![trigger l0[a], fs[b]] 0 <= a < l0.len() && last_named(fs, l0[a], b) && body_calls(fs[b].body@, name@);
                                    assert(names_view(live@)[a] == l0[a]);
                                }
                            }
                        }
                        if !l0.contains(main_name()) {
                            if name@ == main_name() {
                                assert(names_view(live@)[l0.len() as int] == main_name());
                            } else {
                                let q = choose|q: int| 0 <= q < w0.len() && w0[q] == main_name();
                                assert(w0.drop_last()[q] == main_name());
                                assert(w1.contains(main_name()));
                            }
                        } else {
                            let q = choose|q: int| 0 <= q < l0.len() && l0[q] == main_name();
                            assert(names_view(live@)[q] == main_name());
                        }
                    }
                },
                None => {
                    proof {
                        assert forall|i: int, j: int, m: Seq<char>| #![trigger names_view(live@)[i], fs[j], body_calls(fs[j].body@, m)]
                            0 <= i < live@.len() && last_named(fs, names_view(live@)[i], j) && body_calls(fs[j].body@, m)
                            implies names_view(live@).contains(m) || names_view(worklist@).contains(m) by {
                            if i == l0.len() {
                                assert(fs[j].name@ == name@);
                            } else {
                                assert(l0[i] == names_view(live@)[i]);
                                if !l0.contains(m) && w0.contains(m) && m != name@ {
                                    let q = choose|q: int| 0 <= q < w0.len() && w0[q] == m;
                                    assert(w0.drop_last()[q] == m);
                                } else if l0.contains(m) {
                                    let q = choose|q: int| 0 <= q < l0.len() && l0[q] == m;
                                    assert(names_view(live@)[q] == m);
                                } else if m == name@ {
                                    assert(names_view(live@)[l0.len() as int] == m);
                                }
                            }
                        }
                        assert forall|i: int| 0 <= i < worklist@.len() implies #[trigger] reached_from(fs, names_view(live@), names_view(worklist@)[i]) by {
                            assert(names_view(worklist@)[i] == w0[i]);
                            assert(reached_from(fs, l0, w0[i]));
                            if w0[i] != main_name() {
                                let (a, b) = choose|a: int, b: int| #![trigger l0[a], fs[b]] 0 <= a < l0.len() && last_named(fs, l0[a], b) && body_calls(fs[b].body@, w0[i]);
                                assert(names_view(live@)[a] == l0[a]);
                            }
                        }
                        assert forall|i: int| 0 <= i < live@.len() implies #[trigger] reached_from(fs, names_view(live@), names_view(live@)[i]) by {
                            if i < l0.len() {
                                assert(reached_from(fs, l0, l0[i]));
                                assert(l0[i] == names_view(live@)[i]);
                                if l0[i] != main_name() {
                                    let (a, b) = choose|a: int, b: int| #![trigger l0[a], fs[b]] 0 <= a < l0.len() && last_named(fs, l0[a], b) && body_calls(fs[b].body@, l0[i]);
                                    assert(names_view(live@)[a] == l0[a]);
                                }
                            } else {
                                assert(reached_from(fs, l0, w0[w0.len() - 1]));
                                if name@ != main_name() {
                                    let (a, b) = choose|a: int, b: int| #![trigger l0[a], fs[b]] 0 <= a < l0.len() && last_named(fs, l0[a], b) && body_calls(fs[b].body@, name@);
                                    assert(names_view(live@)[a] == l0[a]);
                                }
                            }
                        }
                        if !l0.contains(main_name()) {
                            if name@ == main_name() {
                                assert(names_view(live@)[l0.len() as int] == main_name());
                            } else {
                                let q = choose|q: int| 0 <= q < w0.len() && w0[q] == main_name();
                                assert(w0.drop_last()[q] == main_name());
                            }
                        } else {
                            let q = choose|q: int| 0 <= q < l0.len() && l0[q] == main_name();
                            assert(names_view(live@)[q] == main_name());
                        }
                    }
                },
            }
        } else {
            proof {
                assert forall|i: int, j: int, m: Seq<char>| #![trigger names_view(live@)[i], fs[j], body_calls(fs[j].body@, m)]
                    0 <= i < live@.len() && last_named(fs, names_view(live@)[i], j) && body_calls(fs[j].body@, m)
                    implies names_view(live@).contains(m) || names_view(worklist@).contains(m) by {
                    if !l0.contains(m) {
                        let q = choose|q: int| 0 <= q < w0.len() && w0[q] == m;
                        if q < w0.len() - 1 {
                            assert(w0.drop_last()[q] == m);
                        }
                    }
                }
                if !l0.contains(main_name()) {
                    let q = choose|q: int| 0 <= q < w0.len() && w0[q] == main_name();
                    if q < w0.len() - 1 {
                        assert(w0.drop_last()[q] == main_name());
                    }
                }
                assert forall|i: int| 0 <= i < worklist@.len() implies #[trigger] reached_from(fs, names_view(live@), names_view(worklist@)[i]) by {
                    assert(names_view(worklist@)[i] == w0[i]);
                }
            }
        }
    }
    proof {
        assert(names_view(worklist@).len() == 0);
        assert forall|i: int| 0 <= i < live@.len() implies #[trigger] reachable(fs, names_view(live@)[i]) by {
            lemma_reached_before_reachable(fs, names_view(live@), i);
        }
    }
    live
}

/// Remove the functions whose names are not reachable through calls from
/// `main`.  The functions that remain keep their order, and a function
/// remains exactly when some remaining function has its name.  Every
/// function named `main` remains, and so does every function named by a
/// call in the last function of a remaining name; every remaining function
/// is named `main` or is called from the last function of a remaining name.
pub fn remove_dead_functions(program: &mut IrProgram)
    ensures
        final(program).functions@.len() <= old(program).functions@.len(),
        forall|k: int| 0 <= k < final(program).functions@.len() ==> #[trigger] function_of(final(program).functions@[k], old(program).functions@),
        final(program).globals == old(program).globals,
        final(program).strings == old(program).strings,
        forall|j: int| 0 <= j < old(program).functions@.len() ==> (#[trigger] function_of(old(program).functions@[j], final(program).functions@)
            <==> names_of(final(program).functions@).contains(old(program).functions@[j].name@)),
        forall|j: int| 0 <= j < old(program).functions@.len() && old(program).functions@[j].name@ == main_name()
            ==> #[trigger] function_of(old(program).functions@[j], final(program).functions@),
        forall|j: int, m: Seq<char>, j2: int| #![trigger old(program).functions@[j], body_calls(old(program).functions@[j].body@, m), old(program).functions@[j2]]
            0 <= j2 < old(program).functions@.len() && names_of(final(program).functions@).contains(old(program).functions@[j].name@)
            && last_named(old(program).functions@, old(program).functions@[j].name@, j) && body_calls(old(program).functions@[j].body@, m)
            && old(program).functions@[j2].name@ == m ==> function_of(old(program).functions@[j2], final(program).functions@),
        forall|k: int| 0 <= k < final(program).functions@.len() ==> (#[trigger] final(program).functions@[k]).name@ == main_name()
            || exists|j: int| #![trigger old(program).functions@[j]] last_named(old(program).functions@, old(program).functions@[j].name@, j)
                && names_of(final(program).functions@).contains(old(program).functions@[j].name@)
                && body_calls(old(program).functions@[j].body@, final(program).functions@[k].name@),
        forall|k: int| 0 <= k < final(program).functions@.len()
            ==> #[trigger] reachable(old(program).functions@, final(program).functions@[k].name@),
{
    let live = live_function_names(program);
    let ghost lv = names_view(live@);
    let mut old_funcs: Vec<IrFunction> = Vec::new();
    std::mem::swap(&mut old_funcs, &mut program.functions);
    let ghost olds = old_funcs@;
    let ghost mut src: Seq<int> = Seq::empty();
    let mut t: usize = 0;
    while t < old_funcs.len()
        invariant
            old_funcs@.len() == olds.len(),
            olds == old(program).functions@,
            lv == names_view(live@),
            forall|k: int| t <= k < olds.len() ==> old_funcs@[k] == olds[k],
            program.functions@.len() <= t,
            t <= old_funcs@.len(),
            src.len() == program.functions@.len(),
            forall|k: int| 0 <= k < src.len() ==> 0 <= #[trigger] src[k] < t && program.functions@[k] == olds[src[k]]
                && lv.contains(olds[src[k]].name@),
            forall|j: int| 0 <= j < t && lv.contains(#[trigger] olds[j].name@) ==> exists|k: int| 0 <= k < src.len() && src[k] == j,
            program.globals == old(program).globals,
            program.strings == old(program).strings,
        decreases old_funcs@.len() - t,
    {
        assert(old_funcs@[t as int] == olds[t as int]);
        if has_name(&live, &old_funcs[t].name) {
            let ghost p0 = program.functions@;
            let ghost s0 = src;
            let mut f = IrFunction::new("", CType::Void);
            old_funcs.set_and_swap(t, &mut f);
            program.functions.push(f);
            proof {
                src = src.push(t as int);
                assert forall|k: int| 0 <= k < src.len() implies 0 <= #[trigger] src[k] < t + 1 && program.functions@[k] == olds[src[k]]
                    && lv.contains(olds[src[k]].name@) by {
                    if k < p0.len() {
                        assert(program.functions@[k] == p0[k]);
                    }
                }
                assert forall|j: int| 0 <= j < t + 1 && lv.contains(#[trigger] olds[j].name@) implies exists|k: int| 0 <= k < src.len() && src[k] == j by {
                    if j == t {
                        assert(src[p0.len() as int] == j);
                    } else {
                        let k = choose|k: int| 0 <= k < s0.len() && s0[k] == j;
                        assert(src[k] == j);
                    }
                }
            }
        }
        t += 1;
    }
    proof {
        let fin = program.functions@;
        assert forall|k: int| 0 <= k < fin.len() implies #[trigger] function_of(fin[k], olds) by {
            assert(olds[src[k]] == fin[k]);
        }
        // A function remains exactly when its name is live.
        assert forall|j: int| 0 <= j < olds.len() implies (#[trigger] function_of(olds[j], fin)
            <==> names_of(fin).contains(olds[j].name@)) && (function_of(olds[j], fin) <==> lv.contains(olds[j].name@)) by {
            if lv.contains(olds[j].name@) {
                let k = choose|k: int| 0 <= k < src.len() && src[k] == j;
                assert(fin[k] == olds[j]);
                assert(names_of(fin)[k] == olds[j].name@);
            }
            if function_of(olds[j], fin) {
                let k = choose|k: int| 0 <= k < fin.len() && fin[k] == olds[j];
                assert(lv.contains(olds[src[k]].name@));
                assert(names_of(fin)[k] == olds[j].name@);
            }
            if names_of(fin).contains(olds[j].name@) {
                let k = choose|k: int| 0 <= k < names_of(fin).len() && names_of(fin)[k] == olds[j].name@;
                assert(lv.contains(olds[src[k]].name@));
                assert(olds[src[k]].name@ == olds[j].name@);
                let k2 = choose|k2: int| 0 <= k2 < src.len() && src[k2] == j;
                assert(fin[k2] == olds[j]);
            }
        }
        assert forall|j: int| 0 <= j < olds.len() && olds[j].name@ == main_name() implies #[trigger] function_of(olds[j], fin) by {
            assert(lv.contains(main_name()));
        }
        assert forall|j: int, m: Seq<char>, j2: int| #![trigger olds[j], body_calls(olds[j].body@, m), olds[j2]]
            0 <= j2 < olds.len() && names_of(fin).contains(olds[j].name@)
            && last_named(olds, olds[j].name@, j) && body_calls(olds[j].body@, m)
            && olds[j2].name@ == m implies function_of(olds[j2], fin) by {
            assert(function_of(olds[j], fin) <==> lv.contains(olds[j].name@));
            assert(function_of(olds[j], fin) <==> names_of(fin).contains(olds[j].name@));
            let i = choose|i: int| 0 <= i < lv.len() && lv[i] == olds[j].name@;
            assert(lv.contains(m));
            assert(function_of(olds[j2], fin) <==> lv.contains(olds[j2].name@));
        }
        assert forall|k: int| 0 <= k < fin.len() implies (#[trigger] fin[k]).name@ == main_name()
            || exists|j: int| #![trigger olds[j]] last_named(olds, olds[j].name@, j)
                && names_of(fin).contains(olds[j].name@)
                && body_calls(olds[j].body@, fin[k].name@) by {
            let n = fin[k].name@;
            assert(lv.contains(olds[src[k]].name@));
            let i = choose|i: int| 0 <= i < lv.len() && lv[i] == n;
            assert(reached_from(olds, lv, lv[i]));
            if n != main_name() {
                let (a, b) = choose|a: int, b: int| #![trigger lv[a], olds[b]] 0 <= a < lv.len() && last_named(olds, lv[a], b) && body_calls(olds[b].body@, n);
                assert(olds[b].name@ == lv[a]);
                assert(function_of(olds[b], fin) <==> lv.contains(olds[b].name@));
                assert(function_of(olds[b], fin) <==> names_of(fin).contains(olds[b].name@));
            }
        }
    }
    proof {
        let fin = program.functions@;
        let olds = old(program).functions@;
        assert forall|k: int| 0 <= k < fin.len() implies #[trigger] reachable(olds, fin[k].name@) by {
            assert(lv.contains(olds[src[k]].name@));
            let i = choose|i: int| 0 <= i < lv.len() && lv[i] == olds[src[k]].name@;
            assert(names_view(live@)[i] == lv[i]);
            assert(reachable(olds, names_view(live@)[i]));
        }
    }
}

/// `f` is one of the functions of `fs`.
pub open spec fn function_of(f: IrFunction, fs: Seq<IrFunction>) -> bool {
    exists|j: int| 0 <= j < fs.len() && fs[j] == f
}

} // verus!
