//! Constant folding and propagation.

use vstd::prelude::*;

use crate::ir::{IrFunction, IrInstr, IrOp, VReg, Width, same_instr, same_op};
use crate::maps::AssocMap;
use crate::opt::arith::{modulus, spec_wrap, spec_sign_extend, spec_fold_lt, wrap_result, sign_extend, to_unsigned, fold_lt};
use crate::opt::basic::same_header;
use crate::opt::ops::{op_dst, get_dst_vreg};
use crate::text::{is_local_label, concat3, concat2, i64_decimal, local_prefix, signed_decimal};

verus! {

/// Division rounding toward zero.
pub open spec fn spec_tdiv(x: int, y: int) -> int {
    if x >= 0 && y > 0 {
        x / y
    } else if x >= 0 && y < 0 {
        -(x / -y)
    } else if x < 0 && y > 0 {
        -((-x) / y)
    } else {
        (-x) / (-y)
    }
}

/// The remainder of division rounding toward zero.
pub open spec fn spec_trem(x: int, y: int) -> int {
    x - spec_tdiv(x, y) * y
}

/// The shift amount a constant gives: its low 32 bits, modulo 64.
pub open spec fn shift_amount(b: i64) -> u32 {
    ((b as u32) % 64) as u32
}

/// The value of a binary operation on constant operands, when it folds.
/// Division and remainder fold only when the divisor, truncated to the
/// width, is not zero.
pub open spec fn spec_fold_binary(op: IrOp, a: i64, b: i64) -> Option<i64> {
    match op {
        IrOp::Add { width, .. } => Some(spec_wrap(a + b, width) as i64),
        IrOp::Sub { width, .. } => Some(spec_wrap(a - b, width) as i64),
        IrOp::Mul { width, .. } => Some(spec_wrap(a * b, width) as i64),
        IrOp::Div { width, signed, .. } => if spec_wrap(b as int, width) == 0 {
            None
        } else if signed {
            Some(spec_wrap(spec_tdiv(spec_sign_extend(a as int, width), spec_sign_extend(b as int, width)), width) as i64)
        } else {
            Some(spec_wrap(spec_wrap(a as int, width) / spec_wrap(b as int, width), width) as i64)
        },
        IrOp::Mod { width, signed, .. } => if spec_wrap(b as int, width) == 0 {
            None
        } else if signed {
            Some(spec_wrap(spec_trem(spec_sign_extend(a as int, width), spec_sign_extend(b as int, width)), width) as i64)
        } else {
            Some(spec_wrap(spec_wrap(a as int, width) % spec_wrap(b as int, width), width) as i64)
        },
        IrOp::And { width, .. } => Some(spec_wrap((a & b) as int, width) as i64),
        IrOp::Or { width, .. } => Some(spec_wrap((a | b) as int, width) as i64),
        IrOp::Xor { width, .. } => Some(spec_wrap((a ^ b) as int, width) as i64),
        IrOp::Shl { width, .. } => Some(spec_wrap((a << shift_amount(b)) as int, width) as i64),
        IrOp::Shr { width, arithmetic, .. } => if arithmetic {
            Some(spec_wrap(((spec_sign_extend(a as int, width) as i64) >> shift_amount(b)) as int, width) as i64)
        } else {
            Some(spec_wrap(((spec_wrap(a as int, width) as u64) >> shift_amount(b)) as int, width) as i64)
        },
        IrOp::Eq { .. } => Some(if a == b { 1i64 } else { 0i64 }),
        IrOp::Ne { .. } => Some(if a != b { 1i64 } else { 0i64 }),
        IrOp::Lt { width, signed, .. } => Some(spec_fold_lt(a as int, b as int, width, signed) as i64),
        IrOp::Le { width, signed, .. } => Some((1 - spec_fold_lt(b as int, a as int, width, signed)) as i64),
        IrOp::Gt { width, signed, .. } => Some(spec_fold_lt(b as int, a as int, width, signed) as i64),
        IrOp::Ge { width, signed, .. } => Some((1 - spec_fold_lt(a as int, b as int, width, signed)) as i64),
        _ => None,
    }
}

/// The value of a unary operation on a constant operand, when it folds.
pub open spec fn spec_fold_unary(op: IrOp, a: i64) -> Option<i64> {
    match op {
        IrOp::Neg { width, .. } => Some(spec_wrap(-a, width) as i64),
        IrOp::Not { width, .. } => Some(spec_wrap((!a) as int, width) as i64),
        IrOp::LogicalNot { .. } => Some(if a == 0 { 1i64 } else { 0i64 }),
        _ => None,
    }
}

fn wrap_wide(v: i128, width: Width) -> (r: i64)
    ensures
        r == spec_wrap(v as int, width),
{
    let m: i128 = match width {
        Width::W8 => 0x100,
        Width::W16 => 0x1_0000,
        Width::W32 => 0x1_0000_0000,
    };
    let q = v % m;
    let u = if q < 0 { q + m } else { q };
    u as i64
}

fn tdiv(x: i64, y: i64) -> (r: i64)
    requires
        y != 0,
        -0x8000_0000 <= x <= 0x8000_0000,
        -0x8000_0000 <= y <= 0x8000_0000,
    ensures
        r == spec_tdiv(x as int, y as int),
        -0x8000_0000 <= r <= 0x8000_0000,
{
    if x >= 0 && y > 0 {
        x / y
    } else if x >= 0 && y < 0 {
        -(x / -y)
    } else if x < 0 && y > 0 {
        -((-x) / y)
    } else {
        (-x) / (-y)
    }
}

/// Fold a binary operation on constant operands (`None` when the operation
/// is not binary or divides by zero).
#[verifier::rlimit(40)]
pub fn fold_binary(op: &IrOp, a: i64, b: i64) -> (r: Option<i64>)
    ensures
        r == spec_fold_binary(*op, a, b),
{
    match op {
        IrOp::Add { width, .. } => {
            let r = wrap_wide(a as i128 + b as i128, *width);
            assert(r == spec_wrap(a + b, *width));
            Some(r)
        },
        IrOp::Sub { width, .. } => {
            let r = wrap_wide(a as i128 - b as i128, *width);
            assert(r == spec_wrap(a - b, *width));
            Some(r)
        },
        IrOp::Mul { width, .. } => {
            proof {
                assert((a as int) * (b as int) <= 0x4000_0000_0000_0000_0000_0000_0000_0000) by (nonlinear_arith);
                assert((a as int) * (b as int) >= -0x4000_0000_0000_0000_0000_0000_0000_0000) by (nonlinear_arith);
            }
            let r = wrap_wide(a as i128 * b as i128, *width);
            assert(r == spec_wrap(a * b, *width));
            Some(r)
        },
        IrOp::Div { width, signed, .. } => {
            if b == 0 {
                None
            } else if *signed {
                let sa = sign_extend(a, *width);
                let sb = sign_extend(b, *width);
                if sb == 0 {
                    None
                } else {
                    let r = wrap_result(tdiv(sa, sb), *width);
                    assert(Some(r) == spec_fold_binary(*op, a, b));
                    Some(r)
                }
            } else {
                let ua = to_unsigned(a, *width);
                let ub = to_unsigned(b, *width);
                if ub == 0 {
                    None
                } else {
                    let r = wrap_result((ua / ub) as i64, *width);
                    assert(Some(r) == spec_fold_binary(*op, a, b));
                    Some(r)
                }
            }
        },
        IrOp::Mod { width, signed, .. } => {
            if b == 0 {
                None
            } else if *signed {
                let sa = sign_extend(a, *width);
                let sb = sign_extend(b, *width);
                if sb == 0 {
                    None
                } else {
                    let q = tdiv(sa, sb);
                    proof {
                        assert(-0x4000_0000_0000_0000 <= (q as int) * (sb as int) <= 0x4000_0000_0000_0000) by (nonlinear_arith)
                            requires
                                -0x8000_0000 <= q <= 0x8000_0000,
                                -0x8000_0000 <= sb <= 0x8000_0000;
                    }
                    let r = wrap_result(sa - q * sb, *width);
                    assert(Some(r) == spec_fold_binary(*op, a, b));
                    Some(r)
                }
            } else {
                let ua = to_unsigned(a, *width);
                let ub = to_unsigned(b, *width);
                if ub == 0 {
                    None
                } else {
                    let r = wrap_result((ua % ub) as i64, *width);
                    assert(Some(r) == spec_fold_binary(*op, a, b));
                    Some(r)
                }
            }
        },
        IrOp::And { width, .. } => {
            let r = wrap_result(a & b, *width);
            assert(Some(r) == spec_fold_binary(*op, a, b));
            Some(r)
        },
        IrOp::Or { width, .. } => {
            let r: i64 = wrap_result(a | b, *width);
            assert(Some(r) == spec_fold_binary(*op, a, b));
            Some(r)
        },
        IrOp::Xor { width, .. } => {
            let r: i64 = wrap_result(a ^ b, *width);
            assert(Some(r) == spec_fold_binary(*op, a, b));
            Some(r)
        },
        IrOp::Shl { width, .. } => {
            let s: u32 = (#[verifier::truncate] (b as u32)) % 64;
            let r = wrap_result(a << s, *width);
            assert(Some(r) == spec_fold_binary(*op, a, b));
            Some(r)
        },
        IrOp::Shr { width, arithmetic, .. } => {
            let s: u32 = (#[verifier::truncate] (b as u32)) % 64;
            if *arithmetic {
                let sv = sign_extend(a, *width);
                let r = wrap_result(sv >> s, *width);
                assert(Some(r) == spec_fold_binary(*op, a, b));
                Some(r)
            } else {
                let uv = to_unsigned(a, *width);
                let shifted = uv >> s;
                proof {
                    assert(shifted <= uv) by (bit_vector)
                        requires
                            shifted == uv >> s;
                }
                let r = wrap_result(shifted as i64, *width);
                assert(Some(r) == spec_fold_binary(*op, a, b));
                Some(r)
            }
        },
        IrOp::Eq { .. } => {
            let r: i64 = if a == b { 1 } else { 0 };
            assert(Some(r) == spec_fold_binary(*op, a, b));
            Some(r)
        },
        IrOp::Ne { .. } => {
            let r: i64 = if a != b { 1 } else { 0 };
            assert(Some(r) == spec_fold_binary(*op, a, b));
            Some(r)
        },
        IrOp::Lt { width, signed, .. } => {
            let r: i64 = fold_lt(a, b, *width, *signed);
            assert(Some(r) == spec_fold_binary(*op, a, b));
            Some(r)
        },
        IrOp::Le { width, signed, .. } => {
            let r: i64 = if fold_lt(b, a, *width, *signed) == 1 { 0 } else { 1 };
            assert(Some(r) == spec_fold_binary(*op, a, b));
            Some(r)
        },
        IrOp::Gt { width, signed, .. } => {
            let r: i64 = fold_lt(b, a, *width, *signed);
            assert(Some(r) == spec_fold_binary(*op, a, b));
            Some(r)
        },
        IrOp::Ge { width, signed, .. } => {
            let r: i64 = if fold_lt(a, b, *width, *signed) == 1 { 0 } else { 1 };
            assert(Some(r) == spec_fold_binary(*op, a, b));
            Some(r)
        },
        _ => None,
    }
}

/// Fold a unary operation on a constant operand.
pub fn fold_unary(op: &IrOp, a: i64) -> (r: Option<i64>)
    ensures
        r == spec_fold_unary(*op, a),
{
    match op {
        IrOp::Neg { width, .. } => Some(wrap_wide(0i128 - a as i128, *width)),
        IrOp::Not { width, .. } => Some(wrap_result(!a, *width)),
        IrOp::LogicalNot { .. } => Some(if a == 0 { 1 } else { 0 }),
        _ => None,
    }
}


/// The value a cast of a constant gives.
pub open spec fn spec_fold_cast(val: i64, src_w: Width, dst_w: Width, signed: bool) -> i64 {
    if src_w == dst_w {
        val
    } else {
        match (src_w, dst_w) {
            (Width::W8, Width::W16) | (Width::W8, Width::W32) => if signed {
                spec_sign_extend(val as int, Width::W8) as i64
            } else {
                val & 0xff
            },
            (Width::W16, Width::W8) | (Width::W32, Width::W8) => val & 0xff,
            (Width::W16, Width::W32) => if signed {
                spec_sign_extend(val as int, Width::W16) as i64
            } else {
                val & 0xffff
            },
            (Width::W32, Width::W16) => val & 0xffff,
            _ => val,
        }
    }
}

proof fn lemma_imm_before_prefix(s: Seq<IrInstr>, t: Seq<IrInstr>, k: int)
    requires
        0 <= k <= s.len(),
        k <= t.len(),
        forall|j: int| 0 <= j < k ==> s[j] == t[j],
    ensures
        forall|id: u32, v: i64| imm_before(s, k, id, v) == imm_before(t, k, id, v),
{
    assert forall|id: u32, v: i64| imm_before(s, k, id, v) == imm_before(t, k, id, v) by {
        if imm_before(s, k, id, v) {
            let j = choose|j: int| 0 <= j < k && #[trigger] loads_imm(s[j], id, v);
            assert(loads_imm(t[j], id, v));
        }
        if imm_before(t, k, id, v) {
            let j = choose|j: int| 0 <= j < k && #[trigger] loads_imm(t[j], id, v);
            assert(loads_imm(s[j], id, v));
        }
    }
}

/// Fold a cast of a constant.
pub fn fold_cast(val: i64, src_w: Width, dst_w: Width, signed: bool) -> (r: i64)
    ensures
        r == spec_fold_cast(val, src_w, dst_w, signed),
{
    if src_w == dst_w {
        val
    } else {
        match (src_w, dst_w) {
            (Width::W8, Width::W16) | (Width::W8, Width::W32) => if signed {
                sign_extend(val, Width::W8)
            } else {
                val & 0xff
            },
            (Width::W16, Width::W8) | (Width::W32, Width::W8) => val & 0xff,
            (Width::W16, Width::W32) => if signed {
                sign_extend(val, Width::W16)
            } else {
                val & 0xffff
            },
            (Width::W32, Width::W16) => val & 0xffff,
            _ => val,
        }
    }
}

/// The instruction loads the constant `v` into the vreg id.
pub open spec fn loads_imm(ins: IrInstr, id: u32, v: i64) -> bool {
    match ins.op {
        IrOp::LoadImm { dst, value } => dst.id == id && value == v,
        _ => false,
    }
}

/// Some instruction before position `k` loads `v` into the vreg id.
pub open spec fn imm_before(s: Seq<IrInstr>, k: int, id: u32, v: i64) -> bool {
    exists|j: int| 0 <= j < k && #[trigger] loads_imm(s[j], id, v)
}

/// `b` replaces `a` in constant folding: `a` itself, or a `LoadImm`,
/// `Copy` or `AddrOfGlobal` writing the same destination; a folded binary
/// or unary operation loads the fold of constants that earlier output
/// instructions load into its operands.
pub open spec fn cf_rewritten(out: Seq<IrInstr>, i: int, a: IrInstr, b: IrInstr) -> bool {
    &&& b.line == a.line
    &&& same_op(a.op, b.op) || (b.op is LoadImm && op_dst(b.op) == op_dst(a.op)) || (a.op is PtrAdd
        && (b.op is Copy || b.op is AddrOfGlobal) && op_dst(b.op) == op_dst(a.op))
    &&& (b.op is LoadImm && spec_fold_binary(a.op, 0, 1) is Some) ==> match (a.op, b.op) {
        (IrOp::Add { lhs, rhs, .. }, IrOp::LoadImm { value, .. }) | (IrOp::Sub { lhs, rhs, .. }, IrOp::LoadImm { value, .. })
        | (IrOp::Mul { lhs, rhs, .. }, IrOp::LoadImm { value, .. }) | (IrOp::Div { lhs, rhs, .. }, IrOp::LoadImm { value, .. })
        | (IrOp::Mod { lhs, rhs, .. }, IrOp::LoadImm { value, .. }) | (IrOp::And { lhs, rhs, .. }, IrOp::LoadImm { value, .. })
        | (IrOp::Or { lhs, rhs, .. }, IrOp::LoadImm { value, .. }) | (IrOp::Xor { lhs, rhs, .. }, IrOp::LoadImm { value, .. })
        | (IrOp::Shl { lhs, rhs, .. }, IrOp::LoadImm { value, .. }) | (IrOp::Shr { lhs, rhs, .. }, IrOp::LoadImm { value, .. })
        | (IrOp::Eq { lhs, rhs, .. }, IrOp::LoadImm { value, .. }) | (IrOp::Ne { lhs, rhs, .. }, IrOp::LoadImm { value, .. })
        | (IrOp::Lt { lhs, rhs, .. }, IrOp::LoadImm { value, .. }) | (IrOp::Le { lhs, rhs, .. }, IrOp::LoadImm { value, .. })
        | (IrOp::Gt { lhs, rhs, .. }, IrOp::LoadImm { value, .. }) | (IrOp::Ge { lhs, rhs, .. }, IrOp::LoadImm { value, .. }) =>
            exists|x: i64, y: i64| #![trigger spec_fold_binary(a.op, x, y)] imm_before(out, i, lhs.id, x) && imm_before(out, i, rhs.id, y)
                && spec_fold_binary(a.op, x, y) == Some(value),
        _ => true,
    }
    &&& (b.op is LoadImm && spec_fold_unary(a.op, 0) is Some) ==> match (a.op, b.op) {
        (IrOp::Neg { src, .. }, IrOp::LoadImm { value, .. }) | (IrOp::Not { src, .. }, IrOp::LoadImm { value, .. })
        | (IrOp::LogicalNot { src, .. }, IrOp::LoadImm { value, .. }) =>
            exists|x: i64| #![trigger spec_fold_unary(a.op, x)] imm_before(out, i, src.id, x) && spec_fold_unary(a.op, x) == Some(value),
        _ => true,
    }
}

/// What constant folding knows before an instruction: the constants of
/// vregs, the constants stored to compiler-local slots, and the global
/// that the last address computation emitted for each vreg names.
pub struct CfState {
    pub consts: Map<u32, i64>,
    pub globals: Map<Seq<char>, i64>,
    pub addrs: Map<u32, Seq<char>>,
}

/// What constant folding emits for an instruction.
pub enum CfOut {
    /// The instruction itself.
    Keep,
    /// A load of the constant into the destination.
    Imm(VReg, i64),
    /// A copy of the pointer (an offset of zero).
    CopyOf(VReg, VReg),
    /// The address of a global plus a constant offset.
    Addr(VReg, Seq<char>),
}

/// The state with the constant of a vreg forgotten.
pub open spec fn cf_forget(s: CfState, id: u32) -> CfState {
    CfState { consts: s.consts.remove(id), ..s }
}

/// The state with the constant of a vreg set.
pub open spec fn cf_set(s: CfState, id: u32, v: i64) -> CfState {
    CfState { consts: s.consts.insert(id, v), ..s }
}

/// The name of a global displaced by a byte offset: `g+8`, `g-2`, or `g`.
pub open spec fn displaced(name: Seq<char>, b: int) -> Seq<char> {
    if b > 0 {
        name + seq!['+'] + signed_decimal(b)
    } else if b < 0 {
        name + signed_decimal(b)
    } else {
        name
    }
}

/// One step of constant folding.
pub open spec fn cf_step(s: CfState, ins: IrInstr) -> (CfState, CfOut) {
    let c = s.consts;
    match ins.op {
        IrOp::LoadImm { dst, value } => (cf_set(s, dst.id, value), CfOut::Keep),
        IrOp::Copy { dst, src } => if c.contains_key(src.id) {
            (cf_set(s, dst.id, c[src.id]), CfOut::Imm(dst, c[src.id]))
        } else {
            (cf_forget(s, dst.id), CfOut::Keep)
        },
        IrOp::Add { dst, lhs, rhs, .. } | IrOp::Sub { dst, lhs, rhs, .. } | IrOp::Mul { dst, lhs, rhs, .. }
        | IrOp::Div { dst, lhs, rhs, .. } | IrOp::Mod { dst, lhs, rhs, .. } | IrOp::And { dst, lhs, rhs, .. }
        | IrOp::Or { dst, lhs, rhs, .. } | IrOp::Xor { dst, lhs, rhs, .. } | IrOp::Shl { dst, lhs, rhs, .. }
        | IrOp::Shr { dst, lhs, rhs, .. } | IrOp::Eq { dst, lhs, rhs, .. } | IrOp::Ne { dst, lhs, rhs, .. }
        | IrOp::Lt { dst, lhs, rhs, .. } | IrOp::Le { dst, lhs, rhs, .. } | IrOp::Gt { dst, lhs, rhs, .. }
        | IrOp::Ge { dst, lhs, rhs, .. } =>
            if c.contains_key(lhs.id) && c.contains_key(rhs.id) && spec_fold_binary(ins.op, c[lhs.id], c[rhs.id]) is Some {
                let r = spec_fold_binary(ins.op, c[lhs.id], c[rhs.id])->Some_0;
                (cf_set(s, dst.id, r), CfOut::Imm(dst, r))
            } else {
                (cf_forget(s, dst.id), CfOut::Keep)
            },
        IrOp::Neg { dst, src, .. } | IrOp::Not { dst, src, .. } | IrOp::LogicalNot { dst, src, .. } =>
            if c.contains_key(src.id) && spec_fold_unary(ins.op, c[src.id]) is Some {
                let r = spec_fold_unary(ins.op, c[src.id])->Some_0;
                (cf_set(s, dst.id, r), CfOut::Imm(dst, r))
            } else {
                (cf_forget(s, dst.id), CfOut::Keep)
            },
        IrOp::Label { .. } => (CfState { consts: Map::empty(), globals: Map::empty(), addrs: s.addrs }, CfOut::Keep),
        IrOp::Jump { .. } | IrOp::JumpIfTrue { .. } | IrOp::JumpIfFalse { .. } => (s, CfOut::Keep),
        IrOp::Call { dst, .. } => (CfState {
            consts: match dst { Some(d) => c.remove(d.id), None => c },
            globals: Map::empty(),
            addrs: s.addrs,
        }, CfOut::Keep),
        IrOp::LoadGlobal { dst, addr_label } => if local_prefix().is_prefix_of(addr_label@) && s.globals.contains_key(addr_label@) {
            (cf_set(s, dst.id, s.globals[addr_label@]), CfOut::Imm(dst, s.globals[addr_label@]))
        } else {
            (cf_forget(s, dst.id), CfOut::Keep)
        },
        IrOp::LoadLocal { dst, .. } | IrOp::LoadPtr { dst, .. } => (cf_forget(s, dst.id), CfOut::Keep),
        IrOp::AddrOfGlobal { dst, name } => (CfState { consts: c.remove(dst.id), globals: s.globals, addrs: s.addrs.insert(dst.id, name@) }, CfOut::Keep),
        IrOp::PtrAdd { dst, ptr, offset, element_size } => if c.contains_key(offset.id) && c[offset.id] == 0 {
            (s, CfOut::CopyOf(dst, ptr))
        } else if s.addrs.contains_key(ptr.id) && c.contains_key(offset.id)
            && i64::MIN <= c[offset.id] * element_size <= i64::MAX {
            let name = displaced(s.addrs[ptr.id], c[offset.id] * element_size);
            (CfState { addrs: s.addrs.insert(dst.id, name), ..s }, CfOut::Addr(dst, name))
        } else {
            (cf_forget(s, dst.id), CfOut::Keep)
        },
        IrOp::Cast { dst, src, to_type } => if c.contains_key(src.id) {
            let r = spec_fold_cast(c[src.id], src.width, dst.width, to_type.spec_is_signed());
            (cf_set(s, dst.id, r), CfOut::Imm(dst, r))
        } else {
            (cf_forget(s, dst.id), CfOut::Keep)
        },
        _ => {
            let g = match ins.op {
                IrOp::StoreGlobal { addr_label, src } => if local_prefix().is_prefix_of(addr_label@) {
                    if c.contains_key(src.id) { s.globals.insert(addr_label@, c[src.id]) } else { s.globals.remove(addr_label@) }
                } else {
                    s.globals
                },
                _ => s.globals,
            };
            (CfState {
                consts: match op_dst(ins.op) { Some(d) => c.remove(d.id), None => c },
                globals: g,
                addrs: s.addrs,
            }, CfOut::Keep)
        },
    }
}

/// The state after the first `n` instructions and what each of them emits.
pub open spec fn cf_run(body: Seq<IrInstr>, n: int) -> (CfState, Seq<CfOut>)
    decreases n,
{
    if n <= 0 {
        (CfState { consts: Map::empty(), globals: Map::empty(), addrs: Map::empty() }, Seq::empty())
    } else {
        let (s, outs) = cf_run(body, n - 1);
        let (s2, o) = cf_step(s, body[n - 1]);
        (s2, outs.push(o))
    }
}

/// `out` is what `o` says to emit for `orig`.
pub open spec fn cf_emits(out: IrInstr, orig: IrInstr, o: CfOut) -> bool {
    match o {
        CfOut::Keep => same_instr(out, orig),
        CfOut::Imm(d, v) => out == IrInstr { op: IrOp::LoadImm { dst: d, value: v }, line: orig.line },
        CfOut::CopyOf(d, p) => out == IrInstr { op: IrOp::Copy { dst: d, src: p }, line: orig.line },
        CfOut::Addr(d, name) => out.line == orig.line && (out.op matches IrOp::AddrOfGlobal { dst, name: n } && dst == d && n@ == name),
    }
}

/// The operation that constant folding chose to emit (`None` for the
/// instruction itself) is what `o` says.
pub open spec fn cf_out_op(out: Option<IrOp>, orig: IrInstr, o: CfOut) -> bool {
    match o {
        CfOut::Keep => out is None,
        CfOut::Imm(d, v) => out == Some(IrOp::LoadImm { dst: d, value: v }),
        CfOut::CopyOf(d, p) => out == Some(IrOp::Copy { dst: d, src: p }),
        CfOut::Addr(d, name) => out matches Some(IrOp::AddrOfGlobal { dst, name: n }) && dst == d && n@ == name,
    }
}

/// The global named by the last address computation for the vreg among
/// the instructions.
pub open spec fn last_addr_of(out: Seq<IrInstr>, id: u32) -> Option<Seq<char>>
    decreases out.len(),
{
    if out.len() == 0 {
        None
    } else {
        match out.last().op {
            IrOp::AddrOfGlobal { dst, name } => if dst.id == id { Some(name@) } else { last_addr_of(out.drop_last(), id) },
            _ => last_addr_of(out.drop_last(), id),
        }
    }
}

fn find_addr_of(new_body: &Vec<IrInstr>, ptr_id: u32) -> (r: Option<String>)
    ensures
        match r {
            Some(n) => last_addr_of(new_body@, ptr_id) == Some(n@),
            None => last_addr_of(new_body@, ptr_id) is None,
        },
{
    let mut k = new_body.len();
    proof {
        assert(new_body@.take(k as int) =~= new_body@);
    }
    while k > 0
        invariant
            k <= new_body@.len(),
            last_addr_of(new_body@, ptr_id) == last_addr_of(new_body@.take(k as int), ptr_id),
        decreases k,
    {
        proof {
            assert(new_body@.take(k as int).drop_last() =~= new_body@.take(k - 1));
        }
        k -= 1;
        match &new_body[k].op {
            IrOp::AddrOfGlobal { dst, name } => {
                if dst.id == ptr_id {
                    return Some(name.clone());
                }
            },
            _ => {},
        }
    }
    None
}

/// Track the constants that vregs and compiler-local slots hold within each
/// basic block, fold operations on constants, and replace copies and loads
/// of known constants by `LoadImm`.
#[verifier::rlimit(60)]
pub fn constant_fold_and_propagate(func: &mut IrFunction) -> (changed: bool)
    ensures
        same_header(*old(func), *final(func)),
        final(func).body@.len() == old(func).body@.len(),
        forall|i: int| 0 <= i < old(func).body@.len() ==> #[trigger] cf_emits(final(func).body@[i], old(func).body@[i],
            cf_run(old(func).body@, old(func).body@.len() as int).1[i]),
        changed == exists|i: int| 0 <= i < old(func).body@.len()
            && #[trigger] cf_run(old(func).body@, old(func).body@.len() as int).1[i] != CfOut::Keep,
        forall|i: int| 0 <= i < old(func).body@.len() ==> #[trigger] cf_rewritten(final(func).body@, i, old(func).body@[i], final(func).body@[i]),
        !changed ==> forall|i: int| 0 <= i < old(func).body@.len() ==> #[trigger] same_instr(final(func).body@[i], old(func).body@[i]),
{
    let ghost body0 = func.body@;
    let mut changed = false;
    let mut constants: AssocMap<u32, i64> = AssocMap::new();
    let mut global_consts: AssocMap<String, i64> = AssocMap::new();
    let mut new_body: Vec<IrInstr> = Vec::new();
    let mut i: usize = 0;
    proof {
        assert(constants@ =~= cf_run(body0, 0).0.consts);
        assert(global_consts@ =~= cf_run(body0, 0).0.globals);
    }
    while i < func.body.len()
        invariant
            i <= func.body@.len(),
            func.body@ == body0,
            constants.wf(),
            global_consts.wf(),
            new_body@.len() == i,
            constants@ == cf_run(body0, i as int).0.consts,
            global_consts@ == cf_run(body0, i as int).0.globals,
            forall|id: u32| #[trigger] last_addr_of(new_body@, id) == (if cf_run(body0, i as int).0.addrs.contains_key(id) {
                Some(cf_run(body0, i as int).0.addrs[id])
            } else {
                None::<Seq<char>>
            }),
            cf_run(body0, i as int).1.len() == i,
            forall|k: int| 0 <= k < i ==> #[trigger] cf_emits(new_body@[k], body0[k], cf_run(body0, i as int).1[k]),
            changed == exists|k: int| 0 <= k < i && #[trigger] cf_run(body0, i as int).1[k] != CfOut::Keep,
            forall|id: u32| #[trigger] constants@.contains_key(id) ==> imm_before(new_body@, i as int, id, constants@[id]),
            forall|k: int| 0 <= k < i ==> #[trigger] cf_rewritten(new_body@, k, func.body@[k], new_body@[k]),
            !changed ==> forall|k: int| 0 <= k < i ==> #[trigger] same_instr(new_body@[k], func.body@[k]),
        decreases func.body@.len() - i,
    {
        let instr = &func.body[i];
        let line = instr.line;
        let mut out: Option<IrOp> = None;
        let ghost mut wx: i64 = 0;
        let ghost mut wy: i64 = 0;
        match &instr.op {
            IrOp::LoadImm { dst, value } => {
                constants.insert(dst.id, *value);
            },
            IrOp::Copy { dst, src } => {
                match constants.get(&src.id) {
                    Some(v) => {
                        let val = *v;
                        constants.insert(dst.id, val);
                        out = Some(IrOp::LoadImm { dst: *dst, value: val });
                    },
                    None => {
                        constants.remove(&dst.id);
                    },
                }
            },
            IrOp::Add { dst, lhs, rhs, .. } | IrOp::Sub { dst, lhs, rhs, .. } | IrOp::Mul { dst, lhs, rhs, .. }
            | IrOp::Div { dst, lhs, rhs, .. } | IrOp::Mod { dst, lhs, rhs, .. } | IrOp::And { dst, lhs, rhs, .. }
            | IrOp::Or { dst, lhs, rhs, .. } | IrOp::Xor { dst, lhs, rhs, .. } | IrOp::Shl { dst, lhs, rhs, .. }
            | IrOp::Shr { dst, lhs, rhs, .. } | IrOp::Eq { dst, lhs, rhs, .. } | IrOp::Ne { dst, lhs, rhs, .. }
            | IrOp::Lt { dst, lhs, rhs, .. } | IrOp::Le { dst, lhs, rhs, .. } | IrOp::Gt { dst, lhs, rhs, .. }
            | IrOp::Ge { dst, lhs, rhs, .. } => {
                let folded = match (constants.get(&lhs.id), constants.get(&rhs.id)) {
                    (Some(a), Some(b)) => {
                        proof {
                            wx = *a;
                            wy = *b;
                        }
                        fold_binary(&instr.op, *a, *b)
                    },
                    _ => None,
                };
                match folded {
                    Some(result) => {
                        constants.insert(dst.id, result);
                        out = Some(IrOp::LoadImm { dst: *dst, value: result });
                    },
                    None => {
                        constants.remove(&dst.id);
                    },
                }
            },
            IrOp::Neg { dst, src, .. } | IrOp::Not { dst, src, .. } | IrOp::LogicalNot { dst, src, .. } => {
                let folded = match constants.get(&src.id) {
                    Some(a) => {
                        proof {
                            wx = *a;
                        }
                        fold_unary(&instr.op, *a)
                    },
                    None => None,
                };
                match folded {
                    Some(result) => {
                        constants.insert(dst.id, result);
                        out = Some(IrOp::LoadImm { dst: *dst, value: result });
                    },
                    None => {
                        constants.remove(&dst.id);
                    },
                }
            },
            IrOp::Label { .. } => {
                constants.clear();
                global_consts.clear();
            },
            IrOp::Jump { .. } | IrOp::JumpIfTrue { .. } | IrOp::JumpIfFalse { .. } => {},
            IrOp::Call { dst, .. } => {
                match dst {
                    Some(d) => {
                        constants.remove(&d.id);
                    },
                    None => {},
                }
                global_consts.clear();
            },
            IrOp::LoadGlobal { dst, addr_label } => {
                let known = if is_local_label(addr_label.as_str()) {
                    match global_consts.get(addr_label) {
                        Some(v) => Some(*v),
                        None => None,
                    }
                } else {
                    None
                };
                match known {
                    Some(val) => {
                        constants.insert(dst.id, val);
                        out = Some(IrOp::LoadImm { dst: *dst, value: val });
                    },
                    None => {
                        constants.remove(&dst.id);
                    },
                }
            },
            IrOp::LoadLocal { dst, .. } | IrOp::LoadPtr { dst, .. } | IrOp::AddrOfGlobal { dst, .. } => {
                constants.remove(&dst.id);
            },
            IrOp::PtrAdd { dst, ptr, offset, element_size } => {
                let off_val: Option<i64> = match constants.get(&offset.id) {
                    Some(v) => Some(*v),
                    None => None,
                };
                if off_val == Some(0i64) {
                    out = Some(IrOp::Copy { dst: *dst, src: *ptr });
                } else {
                    let addr_name = find_addr_of(&new_body, ptr.id);
                    let folded: Option<String> = match (addr_name, off_val) {
                        (Some(name), Some(off)) => {
                            let es = *element_size as i64;
                            match off.checked_mul(es) {
                                Some(byte_offset) => {
                                    if byte_offset > 0 {
                                        proof {
                                            reveal_strlit("+");
                                            assert("+"@ =~= seq!['+']);
                                        }
                                        let num = i64_decimal(byte_offset);
                                        Some(concat3(name.as_str(), "+", num.as_str()))
                                    } else if byte_offset < 0 {
                                        let num = i64_decimal(byte_offset);
                                        Some(concat2(name.as_str(), num.as_str()))
                                    } else {
                                        Some(name)
                                    }
                                },
                                None => None,
                            }
                        },
                        _ => None,
                    };
                    match folded {
                        Some(n) => {
                            out = Some(IrOp::AddrOfGlobal { dst: *dst, name: n });
                        },
                        None => {
                            constants.remove(&dst.id);
                        },
                    }
                }
            },
            IrOp::Cast { dst, src, to_type } => {
                match constants.get(&src.id) {
                    Some(v) => {
                        let result = fold_cast(*v, src.width, dst.width, to_type.is_signed());
                        constants.insert(dst.id, result);
                        out = Some(IrOp::LoadImm { dst: *dst, value: result });
                    },
                    None => {
                        constants.remove(&dst.id);
                    },
                }
            },
            _ => {
                match &instr.op {
                    IrOp::StoreGlobal { addr_label, src } => {
                        if is_local_label(addr_label.as_str()) {
                            match constants.get(&src.id) {
                                Some(v) => {
                                    let val = *v;
                                    global_consts.insert(addr_label.clone(), val);
                                },
                                None => {
                                    global_consts.remove(addr_label);
                                },
                            }
                        }
                    },
                    _ => {},
                }
                match get_dst_vreg(&instr.op) {
                    Some(d) => {
                        constants.remove(&d.id);
                    },
                    None => {},
                }
            },
        }
        let ghost prev = new_body@;
        let ghost cst = constants@;
        let ghost st = cf_run(body0, i as int).0;
        let ghost step = cf_step(st, body0[i as int]);
        let ghost ch0 = changed;
        proof {
            assert(constants@ =~= step.0.consts);
            assert(global_consts@ =~= step.0.globals);
            assert(cf_out_op(out, body0[i as int], step.1));
        }
        match out {
            Some(op) => {
                new_body.push(IrInstr { op, line });
                changed = true;
            },
            None => {
                new_body.push(instr.clone());
            },
        }
        proof {
            assert(cf_run(body0, i + 1).1 == cf_run(body0, i as int).1.push(step.1));
            assert(cf_emits(new_body@[i as int], body0[i as int], step.1));
            assert forall|k: int| 0 <= k < i + 1 implies #[trigger] cf_emits(new_body@[k], body0[k], cf_run(body0, i + 1).1[k]) by {
                if k < i {
                    assert(new_body@[k] == prev[k]);
                    assert(cf_run(body0, i + 1).1[k] == cf_run(body0, i as int).1[k]);
                }
            }
            assert forall|id: u32| #[trigger] last_addr_of(new_body@, id) == (if step.0.addrs.contains_key(id) {
                Some(step.0.addrs[id])
            } else {
                None::<Seq<char>>
            }) by {
                assert(new_body@.drop_last() =~= prev);
                assert(last_addr_of(prev, id) == (if st.addrs.contains_key(id) { Some(st.addrs[id]) } else { None::<Seq<char>> }));
            }
            assert(changed == (ch0 || step.1 != CfOut::Keep));
            assert(cf_run(body0, i + 1).1[i as int] == step.1);
            if ch0 {
                let k = choose|k: int| 0 <= k < i && #[trigger] cf_run(body0, i as int).1[k] != CfOut::Keep;
                assert(cf_run(body0, i + 1).1[k] == cf_run(body0, i as int).1[k]);
            }
            if exists|k: int| 0 <= k < i + 1 && #[trigger] cf_run(body0, i + 1).1[k] != CfOut::Keep {
                let k = choose|k: int| 0 <= k < i + 1 && #[trigger] cf_run(body0, i + 1).1[k] != CfOut::Keep;
                if k < i {
                    assert(cf_run(body0, i + 1).1[k] == cf_run(body0, i as int).1[k]);
                }
            }
        }
        proof {
            assert forall|j: int| 0 <= j < i implies new_body@[j] == prev[j] by {}
            lemma_imm_before_prefix(prev, new_body@, i as int);
            assert forall|id: u32, v: i64| imm_before(prev, i as int, id, v) implies imm_before(new_body@, i + 1, id, v) by {
                let j = choose|j: int| 0 <= j < i && #[trigger] loads_imm(prev[j], id, v);
                assert(loads_imm(new_body@[j], id, v));
            }
            assert forall|id: u32| #[trigger] constants@.contains_key(id) implies imm_before(new_body@, i + 1, id, constants@[id]) by {
                if loads_imm(new_body@[i as int], id, constants@[id]) {
                    assert(imm_before(new_body@, i + 1, id, constants@[id]));
                }
            }
            assert forall|k: int| 0 <= k < i implies #[trigger] cf_rewritten(new_body@, k, func.body@[k], new_body@[k]) by {
                assert(new_body@[k] == prev[k]);
                lemma_imm_before_prefix(prev, new_body@, k);
                assert(cf_rewritten(prev, k, func.body@[k], prev[k]));
            }
            let a = func.body@[i as int];
            let b = new_body@[i as int];
            if b.op is LoadImm && spec_fold_binary(a.op, 0, 1) is Some {
                assert(spec_fold_binary(a.op, wx, wy) is Some);
                assert(imm_before(new_body@, i as int, crate::opt::ops::op_srcs(a.op)[0].id, wx));
            }
            assert(cf_rewritten(new_body@, i as int, a, b));
        }
        i += 1;
    }
    func.body = new_body;
    changed
}
/// Bit `i` of `x`.
pub open spec fn bit_of(x: u64, i: u64) -> bool {
    (x >> i) & 1 == 1
}

/// The number of bits of a width.
pub open spec fn width_bits(w: Width) -> u64 {
    match w {
        Width::W8 => 8,
        Width::W16 => 16,
        Width::W32 => 32,
    }
}

/// Truncating a bit pattern to a width keeps exactly its bits below the
/// width.
proof fn lemma_low_bits(u: u64, w: Width, i: u64)
    requires
        i < 64,
    ensures
        u as int % modulus(w) == (u % (modulus(w) as u64)) as int,
        bit_of(u % (modulus(w) as u64), i) == (i < width_bits(w) && bit_of(u, i)),
{
    if w == Width::W8 {
        assert((((u % 0x100) >> i) & 1 == 1) == (i < 8 && (u >> i) & 1 == 1)) by (bit_vector)
            requires
                i < 64,
        ;
    } else if w == Width::W16 {
        assert((((u % 0x1_0000) >> i) & 1 == 1) == (i < 16 && (u >> i) & 1 == 1)) by (bit_vector)
            requires
                i < 64,
        ;
    } else {
        assert((((u % 0x1_0000_0000) >> i) & 1 == 1) == (i < 32 && (u >> i) & 1 == 1)) by (bit_vector)
            requires
                i < 64,
        ;
    }
}

/// Folding `Xor` of two non-negative constants is their bitwise
/// exclusive-or truncated to the width: each bit of the result below the
/// width is set exactly when one of the two constants has it set, and
/// every bit above the width is clear.
pub proof fn law_fold_xor_bits(dst: VReg, lhs: VReg, rhs: VReg, w: Width, a: i64, b: i64, i: u64)
    requires
        0 <= a,
        0 <= b,
        i < 64,
    ensures
        spec_fold_binary(IrOp::Xor { dst, lhs, rhs, width: w }, a, b) matches Some(r)
            && r >= 0 && bit_of(r as u64, i) == (i < width_bits(w) && bit_of(a as u64, i) != bit_of(b as u64, i)),
{
    let x: i64 = a ^ b;
    let ua = a as u64;
    let ub = b as u64;
    assert(x >= 0 && x as u64 == ua ^ ub) by (bit_vector)
        requires
            x == a ^ b,
            a >= 0,
            b >= 0,
            ua == a as u64,
            ub == b as u64,
    ;
    let u = ua ^ ub;
    lemma_low_bits(u, w, i);
    assert(((u >> i) & 1 == 1) == (((ua >> i) & 1 == 1) != ((ub >> i) & 1 == 1))) by (bit_vector)
        requires
            u == ua ^ ub,
            i < 64,
    ;
}

/// Folding `And` of two non-negative constants: each bit of the result
/// below the width is set exactly when both constants have it set, and
/// every bit above the width is clear.
pub proof fn law_fold_and_bits(dst: VReg, lhs: VReg, rhs: VReg, w: Width, a: i64, b: i64, i: u64)
    requires
        0 <= a,
        0 <= b,
        i < 64,
    ensures
        spec_fold_binary(IrOp::And { dst, lhs, rhs, width: w }, a, b) matches Some(r)
            && r >= 0 && bit_of(r as u64, i) == (i < width_bits(w) && bit_of(a as u64, i) && bit_of(b as u64, i)),
{
    let x: i64 = a & b;
    let ua = a as u64;
    let ub = b as u64;
    assert(x >= 0 && x as u64 == ua & ub) by (bit_vector)
        requires
            x == a & b,
            a >= 0,
            b >= 0,
            ua == a as u64,
            ub == b as u64,
    ;
    let u = ua & ub;
    lemma_low_bits(u, w, i);
    assert(((u >> i) & 1 == 1) == (((ua >> i) & 1 == 1) && ((ub >> i) & 1 == 1))) by (bit_vector)
        requires
            u == ua & ub,
            i < 64,
    ;
}

/// Folding `Or` of two non-negative constants: each bit of the result
/// below the width is set exactly when either constant has it set, and
/// every bit above the width is clear.
pub proof fn law_fold_or_bits(dst: VReg, lhs: VReg, rhs: VReg, w: Width, a: i64, b: i64, i: u64)
    requires
        0 <= a,
        0 <= b,
        i < 64,
    ensures
        spec_fold_binary(IrOp::Or { dst, lhs, rhs, width: w }, a, b) matches Some(r)
            && r >= 0 && bit_of(r as u64, i) == (i < width_bits(w) && (bit_of(a as u64, i) || bit_of(b as u64, i))),
{
    let x: i64 = a | b;
    let ua = a as u64;
    let ub = b as u64;
    assert(x >= 0 && x as u64 == ua | ub) by (bit_vector)
        requires
            x == a | b,
            a >= 0,
            b >= 0,
            ua == a as u64,
            ub == b as u64,
    ;
    let u = ua | ub;
    lemma_low_bits(u, w, i);
    assert(((u >> i) & 1 == 1) == (((ua >> i) & 1 == 1) || ((ub >> i) & 1 == 1))) by (bit_vector)
        requires
            u == ua | ub,
            i < 64,
    ;
}

/// Folding `Xor` treats its operands alike and cancels a constant against
/// itself, for every pair of constants: `a ^ b` folds to what `b ^ a` does,
/// and `a ^ a` folds to zero.
pub proof fn law_fold_xor_symmetric(dst: VReg, lhs: VReg, rhs: VReg, w: Width, a: i64, b: i64)
    ensures
        spec_fold_binary(IrOp::Xor { dst, lhs, rhs, width: w }, a, b)
            == spec_fold_binary(IrOp::Xor { dst, lhs, rhs, width: w }, b, a),
        spec_fold_binary(IrOp::Xor { dst, lhs, rhs, width: w }, a, a) == Some(0i64),
{
    assert(a ^ b == b ^ a && a ^ a == 0) by (bit_vector);
}

} // verus!
