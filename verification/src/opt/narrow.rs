//! Narrowing of 16-bit operations to 8 bits where operands and results
//! are known to be byte-sized.

use vstd::prelude::*;

use crate::ir::{IrFunction, IrInstr, IrOp, VReg, Width, same_instr, same_op};
use crate::maps::{AssocMap, IdSet};
use crate::opt::arith::{sign_extend, spec_sign_extend};
use crate::opt::basic::same_header;
use crate::opt::ops::{op_all_vregs, op_dst, op_tag, get_dst_vreg, collect_vregs};

verus! {

/// A value range known for a vreg.
#[derive(Clone, Copy)]
pub struct ValueRangeFact {
    pub min: i64,
    pub max: i64,
    pub known: Option<i64>,
    pub valid: bool,
}

/// Nothing is known.
pub open spec fn unknown_range() -> ValueRangeFact {
    ValueRangeFact { min: i64::MIN, max: i64::MAX, known: None, valid: false }
}

/// Exactly `value`.
pub open spec fn exact_range(value: i64) -> ValueRangeFact {
    ValueRangeFact { min: value, max: value, known: Some(value), valid: true }
}

/// Within `[min, max]`; known when the bounds meet.
pub open spec fn interval_range(min: i64, max: i64) -> ValueRangeFact {
    ValueRangeFact { min, max, known: if min == max { Some(min) } else { None }, valid: true }
}

impl ValueRangeFact {
    /// Nothing is known.
    pub fn unknown() -> (r: Self)
        ensures
            r == unknown_range(),
    {
        ValueRangeFact { min: i64::MIN, max: i64::MAX, known: None, valid: false }
    }

    /// The fact a missing entry stands for.
    pub fn none() -> (r: Self)
        ensures
            r == (ValueRangeFact { min: 0, max: 0, known: None, valid: false }),
    {
        ValueRangeFact { min: 0, max: 0, known: None, valid: false }
    }

    /// Exactly `value`.
    pub fn exact(value: i64) -> (r: Self)
        ensures
            r == exact_range(value),
    {
        ValueRangeFact { min: value, max: value, known: Some(value), valid: true }
    }

    /// Within `[min, max]`.
    pub fn interval(min: i64, max: i64) -> (r: Self)
        ensures
            r == interval_range(min, max),
    {
        ValueRangeFact { min, max, known: if min == max { Some(min) } else { None }, valid: true }
    }

    pub open spec fn spec_is_byte(self) -> bool {
        self.valid && self.min >= 0 && self.max <= 0xFF
    }

    pub open spec fn spec_is_signed_byte(self) -> bool {
        self.valid && self.min >= -128 && self.max <= 127
    }

    /// The range lies within `0..=255`.
    pub fn is_byte(self) -> (r: bool)
        ensures
            r == self.spec_is_byte(),
    {
        self.valid && self.min >= 0 && self.max <= 0xFF
    }

    /// The range lies within `-128..=127`.
    pub fn is_signed_byte(self) -> (r: bool)
        ensures
            r == self.spec_is_signed_byte(),
    {
        self.valid && self.min >= -128 && self.max <= 127
    }
}

fn fact_of(facts: &AssocMap<u32, ValueRangeFact>, id: u32, missing: ValueRangeFact) -> (r: ValueRangeFact)
    requires
        facts.wf(),
    ensures
        r == (if facts@.contains_key(id) { facts@[id] } else { missing }),
{
    match facts.get(&id) {
        Some(f) => *f,
        None => missing,
    }
}

/// The fact recorded for `id`, or nothing known.
pub open spec fn fact_in(m: Map<u32, ValueRangeFact>, id: u32) -> ValueRangeFact {
    if m.contains_key(id) { m[id] } else { unknown_range() }
}

/// The fact holds a single value whose bits lie within the low byte.
pub open spec fn small_known(f: ValueRangeFact) -> bool {
    f.known matches Some(v) && (v & !0xFFi64) == 0
}

fn is_small_known(f: ValueRangeFact) -> (r: bool)
    ensures
        r == small_known(f),
{
    match f.known {
        Some(v) => (v & !0xFFi64) == 0,
        None => false,
    }
}

/// The fact for the result of a cast of a vreg with fact `sf` from `src` to
/// `dst`: a widening keeps the byte range (sign- or zero-extended), a
/// narrowing gives `0..=255`, any other cast keeps the fact.
pub open spec fn cast_range(sf: ValueRangeFact, src: VReg, dst: VReg, signed: bool) -> ValueRangeFact {
    if src.width == Width::W8 && (dst.width == Width::W16 || dst.width == Width::W32) {
        if signed {
            if sf.valid {
                interval_range(
                    spec_sign_extend(sf.min as int, Width::W8) as i64,
                    spec_sign_extend(sf.max as int, Width::W8) as i64,
                )
            } else {
                interval_range(-128i64, 127i64)
            }
        } else if sf.valid {
            interval_range(if sf.min > 0 { sf.min } else { 0i64 }, if sf.max < 0xFF { sf.max } else { 0xFFi64 })
        } else {
            interval_range(0i64, 0xFFi64)
        }
    } else if dst.width == Width::W8 && (src.width == Width::W16 || src.width == Width::W32) {
        interval_range(0i64, 0xFFi64)
    } else {
        sf
    }
}

/// Sets or clears the byte fact of `dst`.
pub open spec fn byte_if(m: Map<u32, ValueRangeFact>, dst: VReg, cond: bool) -> Map<u32, ValueRangeFact> {
    if cond { m.insert(dst.id, interval_range(0i64, 0xFFi64)) } else { m.remove(dst.id) }
}

/// The facts after one operation, from those before it.
pub open spec fn range_step(m: Map<u32, ValueRangeFact>, op: IrOp) -> Map<u32, ValueRangeFact> {
    match op {
        IrOp::LoadImm { dst, value } => m.insert(dst.id, exact_range(value)),
        IrOp::Copy { dst, src } => m.insert(dst.id, fact_in(m, src.id)),
        IrOp::Cast { dst, src, to_type } => m.insert(dst.id, cast_range(fact_in(m, src.id), src, dst, to_type.spec_is_signed())),
        IrOp::Eq { dst, .. } | IrOp::Ne { dst, .. } | IrOp::Lt { dst, .. } | IrOp::Le { dst, .. }
        | IrOp::Gt { dst, .. } | IrOp::Ge { dst, .. } | IrOp::LogicalNot { dst, .. } =>
            m.insert(dst.id, interval_range(0i64, 1i64)),
        IrOp::And { dst, lhs, rhs, .. } => byte_if(m, dst,
            (fact_in(m, lhs.id).spec_is_byte() && fact_in(m, rhs.id).spec_is_byte())
            || small_known(fact_in(m, rhs.id)) || small_known(fact_in(m, lhs.id))),
        IrOp::Or { dst, lhs, rhs, .. } | IrOp::Xor { dst, lhs, rhs, .. } | IrOp::Shl { dst, lhs, rhs, .. }
        | IrOp::Add { dst, lhs, rhs, .. } | IrOp::Sub { dst, lhs, rhs, .. } =>
            byte_if(m, dst, fact_in(m, lhs.id).spec_is_byte() && fact_in(m, rhs.id).spec_is_byte()),
        IrOp::Shr { dst, lhs, rhs, arithmetic, .. } =>
            byte_if(m, dst, !arithmetic && fact_in(m, lhs.id).spec_is_byte() && fact_in(m, rhs.id).spec_is_byte()),
        IrOp::Div { dst, lhs, rhs, signed, .. } | IrOp::Mod { dst, lhs, rhs, signed, .. } =>
            byte_if(m, dst, !signed && fact_in(m, lhs.id).spec_is_byte() && fact_in(m, rhs.id).spec_is_byte()
                && fact_in(m, rhs.id).min > 0),
        IrOp::LoadGlobal { dst, .. } | IrOp::LoadLocal { dst, .. } | IrOp::LoadPtr { dst, .. }
        | IrOp::AddrOfGlobal { dst, .. } | IrOp::PtrAdd { dst, .. } | IrOp::Neg { dst, .. }
        | IrOp::Not { dst, .. } | IrOp::Mul { dst, .. } => m.remove(dst.id),
        IrOp::Call { dst: Some(d), .. } => m.remove(d.id),
        _ => m,
    }
}

/// The facts after a single forward pass over `body`, starting from none.
pub open spec fn value_ranges(body: Seq<IrInstr>) -> Map<u32, ValueRangeFact>
    decreases body.len(),
{
    if body.len() == 0 {
        Map::empty()
    } else {
        range_step(value_ranges(body.drop_last()), body.last().op)
    }
}

fn cast_fact(sf: ValueRangeFact, src: VReg, dst: VReg, signed: bool) -> (r: ValueRangeFact)
    ensures
        r == cast_range(sf, src, dst, signed),
{
    let widening = src.width == Width::W8 && (dst.width == Width::W16 || dst.width == Width::W32);
    let narrowing = dst.width == Width::W8 && (src.width == Width::W16 || src.width == Width::W32);
    if widening {
        if signed {
            if sf.valid {
                ValueRangeFact::interval(sign_extend(sf.min, Width::W8), sign_extend(sf.max, Width::W8))
            } else {
                ValueRangeFact::interval(-128, 127)
            }
        } else if sf.valid {
            let lo = if sf.min > 0 { sf.min } else { 0 };
            let hi = if sf.max < 0xFF { sf.max } else { 0xFF };
            ValueRangeFact::interval(lo, hi)
        } else {
            ValueRangeFact::interval(0, 0xFF)
        }
    } else if narrowing {
        ValueRangeFact::interval(0, 0xFF)
    } else {
        sf
    }
}

fn set_byte_fact(facts: &mut AssocMap<u32, ValueRangeFact>, dst: VReg, cond: bool)
    requires
        old(facts).wf(),
    ensures
        final(facts).wf(),
        final(facts)@ == byte_if(old(facts)@, dst, cond),
{
    if cond {
        facts.insert(dst.id, ValueRangeFact::interval(0, 0xFF));
    } else {
        facts.remove(&dst.id);
    }
}

/// Value ranges of the vregs of a body, from their definitions (a single
/// forward scan; facts are kept across labels since each vreg is defined
/// once).
pub fn compute_value_ranges(func: &IrFunction) -> (r: AssocMap<u32, ValueRangeFact>)
    ensures
        r.wf(),
        r@ == value_ranges(func.body@),
{
    let mut facts: AssocMap<u32, ValueRangeFact> = AssocMap::new();
    let mut i: usize = 0;
    proof {
        assert(func.body@.take(0) =~= Seq::<IrInstr>::empty());
        assert(facts@ =~= Map::<u32, ValueRangeFact>::empty());
    }
    while i < func.body.len()
        invariant
            i <= func.body@.len(),
            facts.wf(),
            facts@ == value_ranges(func.body@.take(i as int)),
        decreases func.body@.len() - i,
    {
        let ghost before = facts@;
        proof {
            assert(func.body@.take(i + 1).drop_last() =~= func.body@.take(i as int));
        }
        match &func.body[i].op {
            IrOp::LoadImm { dst, value } => {
                facts.insert(dst.id, ValueRangeFact::exact(*value));
            },
            IrOp::Copy { dst, src } => {
                let f = fact_of(&facts, src.id, ValueRangeFact::unknown());
                facts.insert(dst.id, f);
            },
            IrOp::Cast { dst, src, to_type } => {
                let sf = fact_of(&facts, src.id, ValueRangeFact::unknown());
                let f = cast_fact(sf, *src, *dst, to_type.is_signed());
                facts.insert(dst.id, f);
            },
            IrOp::Eq { dst, .. } | IrOp::Ne { dst, .. } | IrOp::Lt { dst, .. } | IrOp::Le { dst, .. }
            | IrOp::Gt { dst, .. } | IrOp::Ge { dst, .. } | IrOp::LogicalNot { dst, .. } => {
                facts.insert(dst.id, ValueRangeFact::interval(0, 1));
            },
            IrOp::And { dst, lhs, rhs, .. } => {
                let l = fact_of(&facts, lhs.id, ValueRangeFact::unknown());
                let r = fact_of(&facts, rhs.id, ValueRangeFact::unknown());
                let cond = (l.is_byte() && r.is_byte()) || is_small_known(r) || is_small_known(l);
                set_byte_fact(&mut facts, *dst, cond);
            },
            IrOp::Or { dst, lhs, rhs, .. } | IrOp::Xor { dst, lhs, rhs, .. } | IrOp::Shl { dst, lhs, rhs, .. }
            | IrOp::Add { dst, lhs, rhs, .. } | IrOp::Sub { dst, lhs, rhs, .. } => {
                let l = fact_of(&facts, lhs.id, ValueRangeFact::unknown());
                let r = fact_of(&facts, rhs.id, ValueRangeFact::unknown());
                set_byte_fact(&mut facts, *dst, l.is_byte() && r.is_byte());
            },
            IrOp::Shr { dst, lhs, rhs, arithmetic, .. } => {
                let l = fact_of(&facts, lhs.id, ValueRangeFact::unknown());
                let r = fact_of(&facts, rhs.id, ValueRangeFact::unknown());
                set_byte_fact(&mut facts, *dst, !*arithmetic && l.is_byte() && r.is_byte());
            },
            IrOp::Div { dst, lhs, rhs, signed, .. } | IrOp::Mod { dst, lhs, rhs, signed, .. } => {
                let l = fact_of(&facts, lhs.id, ValueRangeFact::unknown());
                let r = fact_of(&facts, rhs.id, ValueRangeFact::unknown());
                set_byte_fact(&mut facts, *dst, !*signed && l.is_byte() && r.is_byte() && r.min > 0);
            },
            IrOp::LoadGlobal { dst, .. } | IrOp::LoadLocal { dst, .. } | IrOp::LoadPtr { dst, .. }
            | IrOp::AddrOfGlobal { dst, .. } | IrOp::PtrAdd { dst, .. } | IrOp::Neg { dst, .. }
            | IrOp::Not { dst, .. } | IrOp::Mul { dst, .. } => {
                facts.remove(&dst.id);
            },
            IrOp::Call { dst, .. } => {
                match dst {
                    Some(d) => {
                        facts.remove(&d.id);
                    },
                    None => {},
                }
            },
            _ => {},
        }
        i += 1;
    }
    proof {
        assert(func.body@.take(i as int) =~= func.body@);
    }
    facts
}

/// `b` is `a` with at most its operand vregs and its width changed: the
/// variant, the destination and the line are kept.
pub open spec fn reshaped(a: IrInstr, b: IrInstr) -> bool {
    a.line == b.line && op_tag(a.op) == op_tag(b.op) && op_dst(a.op) == op_dst(b.op)
}

/// The id of the destination vreg of an operation, if it has one.
pub open spec fn dst_id(op: IrOp) -> Option<u32> {
    match op_dst(op) {
        Some(v) => Some(v.id),
        None => None,
    }
}

/// `b` is `a` kept, or `a` with operands, width and destination width
/// changed: the variant, the destination id and the line are kept.
pub open spec fn renarrowed(a: IrInstr, b: IrInstr) -> bool {
    a.line == b.line && op_tag(a.op) == op_tag(b.op) && dst_id(a.op) == dst_id(b.op)
}

/// The 8-bit origins of the 16-bit vregs that a `Cast` among the first `n`
/// instructions widens from an 8-bit vreg (the last such cast wins).
pub open spec fn cast_origins(body: Seq<IrInstr>, n: int) -> Map<u32, VReg>
    decreases n,
{
    if n <= 0 {
        Map::empty()
    } else {
        let m = cast_origins(body, n - 1);
        match body[n - 1].op {
            IrOp::Cast { dst, src, .. } => if src.width == Width::W8 && dst.width == Width::W16 {
                m.insert(dst.id, src)
            } else {
                m
            },
            _ => m,
        }
    }
}

/// The origin of a vreg, or the vreg itself.
pub open spec fn origin_of(o: Map<u32, VReg>, v: VReg) -> VReg {
    if o.contains_key(v.id) { o[v.id] } else { v }
}

/// The widened origins of 16-bit vregs made by a `Cast` from an 8-bit vreg.
fn widening_origins(body: &Vec<IrInstr>) -> (r: AssocMap<u32, VReg>)
    ensures
        r.wf(),
        r@ == cast_origins(body@, body@.len() as int),
{
    let mut m: AssocMap<u32, VReg> = AssocMap::new();
    let mut i: usize = 0;
    proof {
        assert(m@ =~= cast_origins(body@, 0));
    }
    while i < body.len()
        invariant
            i <= body@.len(),
            m.wf(),
            m@ == cast_origins(body@, i as int),
        decreases body@.len() - i,
    {
        match &body[i].op {
            IrOp::Cast { dst, src, .. } => {
                if src.width == Width::W8 && dst.width == Width::W16 {
                    m.insert(dst.id, *src);
                }
            },
            _ => {},
        }
        i += 1;
    }
    m
}

fn origin_or(origins: &AssocMap<u32, VReg>, v: VReg) -> (r: VReg)
    requires
        origins.wf(),
    ensures
        r == origin_of(origins@, v),
{
    match origins.get(&v.id) {
        Some(o) => *o,
        None => v,
    }
}

/// The fact known of a vreg, or an invalid one.
pub open spec fn nb_fact(f: Map<u32, ValueRangeFact>, id: u32) -> ValueRangeFact {
    if f.contains_key(id) { f[id] } else { ValueRangeFact { min: 0, max: 0, known: None, valid: false } }
}

/// The 8-bit form of a 16-bit operation whose operands and result are known
/// to be bytes (a comparison also takes the 8-bit origins of its widened
/// operands), if it has one.
pub open spec fn nb_op(op: IrOp, f: Map<u32, ValueRangeFact>, o: Map<u32, VReg>) -> Option<IrOp> {
    match op {
        IrOp::And { dst, lhs, rhs, width } | IrOp::Or { dst, lhs, rhs, width } | IrOp::Xor { dst, lhs, rhs, width }
        | IrOp::Add { dst, lhs, rhs, width } | IrOp::Sub { dst, lhs, rhs, width } | IrOp::Shl { dst, lhs, rhs, width } =>
            if width == Width::W16 && nb_fact(f, lhs.id).spec_is_byte() && nb_fact(f, rhs.id).spec_is_byte()
                && nb_fact(f, dst.id).spec_is_byte() {
                Some(rewidth(op, Width::W8))
            } else {
                None
            },
        IrOp::Div { dst, lhs, rhs, width, signed } | IrOp::Mod { dst, lhs, rhs, width, signed } =>
            if width == Width::W16 && !signed && nb_fact(f, lhs.id).spec_is_byte() && nb_fact(f, rhs.id).spec_is_byte()
                && nb_fact(f, rhs.id).min > 0 && nb_fact(f, dst.id).spec_is_byte() {
                Some(rewidth(op, Width::W8))
            } else {
                None
            },
        IrOp::Eq { lhs, rhs, width, .. } | IrOp::Ne { lhs, rhs, width, .. } =>
            if width == Width::W16 && ((nb_fact(f, lhs.id).spec_is_byte() && nb_fact(f, rhs.id).spec_is_byte())
                || (nb_fact(f, lhs.id).spec_is_signed_byte() && nb_fact(f, rhs.id).spec_is_signed_byte())) {
                Some(reoperand(op, origin_of(o, lhs), origin_of(o, rhs), Width::W8))
            } else {
                None
            },
        IrOp::Lt { lhs, rhs, width, signed, .. } | IrOp::Le { lhs, rhs, width, signed, .. }
        | IrOp::Gt { lhs, rhs, width, signed, .. } | IrOp::Ge { lhs, rhs, width, signed, .. } =>
            if width == Width::W16 && (if signed {
                nb_fact(f, lhs.id).spec_is_signed_byte() && nb_fact(f, rhs.id).spec_is_signed_byte()
            } else {
                nb_fact(f, lhs.id).spec_is_byte() && nb_fact(f, rhs.id).spec_is_byte()
            }) {
                Some(reoperand(op, origin_of(o, lhs), origin_of(o, rhs), Width::W8))
            } else {
                None
            },
        _ => None,
    }
}

/// Instruction `i` after byte narrowing, with the facts and origins of the
/// whole body.
pub open spec fn nb_instr(body: Seq<IrInstr>, i: int) -> IrInstr {
    match nb_op(body[i].op, value_ranges(body), cast_origins(body, body.len() as int)) {
        Some(op) => IrInstr { op, line: body[i].line },
        None => body[i],
    }
}

/// Narrow 16-bit operations whose operands (and result) are known to be
/// bytes to 8 bits; comparisons are redirected to the 8-bit origins of
/// widened operands.
pub fn narrow_byte_ops(func: &mut IrFunction) -> (changed: bool)
    ensures
        same_header(*old(func), *final(func)),
        final(func).body@.len() == old(func).body@.len(),
        forall|i: int| 0 <= i < old(func).body@.len() ==> #[trigger] final(func).body@[i] == nb_instr(old(func).body@, i),
        changed == exists|i: int| 0 <= i < old(func).body@.len()
            && #[trigger] nb_op(old(func).body@[i].op, value_ranges(old(func).body@), cast_origins(old(func).body@, old(func).body@.len() as int)) is Some,
        forall|i: int| 0 <= i < old(func).body@.len() ==> #[trigger] reshaped(old(func).body@[i], final(func).body@[i]),
{
    let facts = compute_value_ranges(func);
    let cast_origin = widening_origins(&func.body);
    let ghost body0 = func.body@;
    let ghost fs = facts@;
    let ghost os = cast_origin@;
    let mut changed = false;
    let mut i: usize = 0;
    while i < func.body.len()
        invariant
            i <= func.body@.len(),
            func.body@.len() == body0.len(),
            facts.wf(),
            cast_origin.wf(),
            facts@ == fs,
            cast_origin@ == os,
            fs == value_ranges(body0),
            os == cast_origins(body0, body0.len() as int),
            forall|k: int| 0 <= k < i ==> #[trigger] func.body@[k] == nb_instr(body0, k),
            forall|k: int| i <= k < body0.len() ==> func.body@[k] == body0[k],
            changed == exists|k: int| 0 <= k < i && #[trigger] nb_op(body0[k].op, fs, os) is Some,
            same_header(*old(func), *func),
        decreases func.body@.len() - i,
    {
        let line = func.body[i].line;
        let none = ValueRangeFact::none();
        let new_op: Option<IrOp> = match &func.body[i].op {
            IrOp::And { dst, lhs, rhs, width } | IrOp::Or { dst, lhs, rhs, width } | IrOp::Xor { dst, lhs, rhs, width }
            | IrOp::Add { dst, lhs, rhs, width } | IrOp::Sub { dst, lhs, rhs, width } | IrOp::Shl { dst, lhs, rhs, width } => {
                if *width == Width::W16 && fact_of(&facts, lhs.id, none).is_byte() && fact_of(&facts, rhs.id, none).is_byte()
                    && fact_of(&facts, dst.id, none).is_byte() {
                    Some(with_width(&func.body[i].op, Width::W8))
                } else {
                    None
                }
            },
            IrOp::Div { dst, lhs, rhs, width, signed } | IrOp::Mod { dst, lhs, rhs, width, signed } => {
                let rf = fact_of(&facts, rhs.id, none);
                if *width == Width::W16 && !*signed && fact_of(&facts, lhs.id, none).is_byte() && rf.is_byte() && rf.min > 0
                    && fact_of(&facts, dst.id, none).is_byte() {
                    Some(with_width(&func.body[i].op, Width::W8))
                } else {
                    None
                }
            },
            IrOp::Eq { dst, lhs, rhs, width } | IrOp::Ne { dst, lhs, rhs, width } => {
                let lf = fact_of(&facts, lhs.id, none);
                let rf = fact_of(&facts, rhs.id, none);
                if *width == Width::W16 && ((lf.is_byte() && rf.is_byte()) || (lf.is_signed_byte() && rf.is_signed_byte())) {
                    let nl = origin_or(&cast_origin, *lhs);
                    let nr = origin_or(&cast_origin, *rhs);
                    Some(with_operands(&func.body[i].op, nl, nr, Width::W8))
                } else {
                    None
                }
            },
            IrOp::Lt { dst, lhs, rhs, width, signed } | IrOp::Le { dst, lhs, rhs, width, signed }
            | IrOp::Gt { dst, lhs, rhs, width, signed } | IrOp::Ge { dst, lhs, rhs, width, signed } => {
                let lf = fact_of(&facts, lhs.id, none);
                let rf = fact_of(&facts, rhs.id, none);
                let ok = if *signed {
                    lf.is_signed_byte() && rf.is_signed_byte()
                } else {
                    lf.is_byte() && rf.is_byte()
                };
                if *width == Width::W16 && ok {
                    let nl = origin_or(&cast_origin, *lhs);
                    let nr = origin_or(&cast_origin, *rhs);
                    Some(with_operands(&func.body[i].op, nl, nr, Width::W8))
                } else {
                    None
                }
            },
            _ => None,
        };
        assert(new_op == nb_op(body0[i as int].op, fs, os));
        match new_op {
            Some(op) => {
                func.body.set(i, IrInstr { op, line });
                changed = true;
            },
            None => {},
        }
        proof {
            if exists|k: int| 0 <= k < i + 1 && #[trigger] nb_op(body0[k].op, fs, os) is Some {
                let k = choose|k: int| 0 <= k < i + 1 && #[trigger] nb_op(body0[k].op, fs, os) is Some;
                if k < i {
                    assert(changed);
                }
            }
        }
        i += 1;
    }
    proof {
        assert forall|k: int| 0 <= k < body0.len() implies #[trigger] reshaped(body0[k], func.body@[k]) by {
            assert(func.body@[k] == nb_instr(body0, k));
        }
    }
    changed
}

/// The arithmetic operations that carry a width.
pub open spec fn has_op_width(op: IrOp) -> bool {
    op is Add || op is Sub || op is Mul || op is Div || op is Mod || op is And || op is Or || op is Xor || op is Shl
}

/// A binary operation with its width replaced.
pub open spec fn rewidth(op: IrOp, w: Width) -> IrOp {
    match op {
        IrOp::Add { dst, lhs, rhs, .. } => IrOp::Add { dst, lhs, rhs, width: w },
        IrOp::Sub { dst, lhs, rhs, .. } => IrOp::Sub { dst, lhs, rhs, width: w },
        IrOp::Mul { dst, lhs, rhs, signed, .. } => IrOp::Mul { dst, lhs, rhs, width: w, signed },
        IrOp::Div { dst, lhs, rhs, signed, .. } => IrOp::Div { dst, lhs, rhs, width: w, signed },
        IrOp::Mod { dst, lhs, rhs, signed, .. } => IrOp::Mod { dst, lhs, rhs, width: w, signed },
        IrOp::And { dst, lhs, rhs, .. } => IrOp::And { dst, lhs, rhs, width: w },
        IrOp::Or { dst, lhs, rhs, .. } => IrOp::Or { dst, lhs, rhs, width: w },
        IrOp::Xor { dst, lhs, rhs, .. } => IrOp::Xor { dst, lhs, rhs, width: w },
        IrOp::Shl { dst, lhs, rhs, .. } => IrOp::Shl { dst, lhs, rhs, width: w },
        _ => op,
    }
}

/// The operations whose operands can be replaced.
pub open spec fn has_operands(op: IrOp) -> bool {
    op is Eq || op is Ne || op is Lt || op is Le || op is Gt || op is Ge || op is Add || op is Sub || op is Mul || op is And
        || op is Or || op is Xor || op is Shl
}

/// A comparison or arithmetic operation with its operands and width replaced.
pub open spec fn reoperand(op: IrOp, l: VReg, r: VReg, w: Width) -> IrOp {
    match op {
        IrOp::Eq { dst, .. } => IrOp::Eq { dst, lhs: l, rhs: r, width: w },
        IrOp::Ne { dst, .. } => IrOp::Ne { dst, lhs: l, rhs: r, width: w },
        IrOp::Lt { dst, signed, .. } => IrOp::Lt { dst, lhs: l, rhs: r, width: w, signed },
        IrOp::Le { dst, signed, .. } => IrOp::Le { dst, lhs: l, rhs: r, width: w, signed },
        IrOp::Gt { dst, signed, .. } => IrOp::Gt { dst, lhs: l, rhs: r, width: w, signed },
        IrOp::Ge { dst, signed, .. } => IrOp::Ge { dst, lhs: l, rhs: r, width: w, signed },
        IrOp::Add { dst, .. } => IrOp::Add { dst, lhs: l, rhs: r, width: w },
        IrOp::Sub { dst, .. } => IrOp::Sub { dst, lhs: l, rhs: r, width: w },
        IrOp::Mul { dst, signed, .. } => IrOp::Mul { dst, lhs: l, rhs: r, width: w, signed },
        IrOp::And { dst, .. } => IrOp::And { dst, lhs: l, rhs: r, width: w },
        IrOp::Or { dst, .. } => IrOp::Or { dst, lhs: l, rhs: r, width: w },
        IrOp::Xor { dst, .. } => IrOp::Xor { dst, lhs: l, rhs: r, width: w },
        IrOp::Shl { dst, .. } => IrOp::Shl { dst, lhs: l, rhs: r, width: w },
        _ => op,
    }
}

/// The arithmetic operations whose destination width can be replaced.
pub open spec fn has_dst_width(op: IrOp) -> bool {
    op is Add || op is Sub || op is Mul || op is And || op is Or || op is Xor || op is Shl
}

/// An arithmetic operation whose destination vreg gets the width `w`.
pub open spec fn redst(op: IrOp, w: Width) -> IrOp {
    match op {
        IrOp::Add { dst, lhs, rhs, width } => IrOp::Add { dst: VReg { id: dst.id, width: w }, lhs, rhs, width },
        IrOp::Sub { dst, lhs, rhs, width } => IrOp::Sub { dst: VReg { id: dst.id, width: w }, lhs, rhs, width },
        IrOp::Mul { dst, lhs, rhs, width, signed } => IrOp::Mul { dst: VReg { id: dst.id, width: w }, lhs, rhs, width, signed },
        IrOp::And { dst, lhs, rhs, width } => IrOp::And { dst: VReg { id: dst.id, width: w }, lhs, rhs, width },
        IrOp::Or { dst, lhs, rhs, width } => IrOp::Or { dst: VReg { id: dst.id, width: w }, lhs, rhs, width },
        IrOp::Xor { dst, lhs, rhs, width } => IrOp::Xor { dst: VReg { id: dst.id, width: w }, lhs, rhs, width },
        IrOp::Shl { dst, lhs, rhs, width } => IrOp::Shl { dst: VReg { id: dst.id, width: w }, lhs, rhs, width },
        _ => op,
    }
}

/// A binary operation with its width replaced.
pub fn with_width(op: &IrOp, w: Width) -> (r: IrOp)
    ensures
        has_op_width(*op) ==> r == rewidth(*op, w),
        !has_op_width(*op) ==> same_op(r, *op),
        op_tag(r) == op_tag(*op),
        op_dst(r) == op_dst(*op),
{
    match op {
        IrOp::Add { dst, lhs, rhs, .. } => IrOp::Add { dst: *dst, lhs: *lhs, rhs: *rhs, width: w },
        IrOp::Sub { dst, lhs, rhs, .. } => IrOp::Sub { dst: *dst, lhs: *lhs, rhs: *rhs, width: w },
        IrOp::Mul { dst, lhs, rhs, signed, .. } => IrOp::Mul { dst: *dst, lhs: *lhs, rhs: *rhs, width: w, signed: *signed },
        IrOp::Div { dst, lhs, rhs, signed, .. } => IrOp::Div { dst: *dst, lhs: *lhs, rhs: *rhs, width: w, signed: *signed },
        IrOp::Mod { dst, lhs, rhs, signed, .. } => IrOp::Mod { dst: *dst, lhs: *lhs, rhs: *rhs, width: w, signed: *signed },
        IrOp::And { dst, lhs, rhs, .. } => IrOp::And { dst: *dst, lhs: *lhs, rhs: *rhs, width: w },
        IrOp::Or { dst, lhs, rhs, .. } => IrOp::Or { dst: *dst, lhs: *lhs, rhs: *rhs, width: w },
        IrOp::Xor { dst, lhs, rhs, .. } => IrOp::Xor { dst: *dst, lhs: *lhs, rhs: *rhs, width: w },
        IrOp::Shl { dst, lhs, rhs, .. } => IrOp::Shl { dst: *dst, lhs: *lhs, rhs: *rhs, width: w },
        _ => op.clone(),
    }
}

/// A comparison with its operands and width replaced.
pub fn with_operands(op: &IrOp, lhs: VReg, rhs: VReg, w: Width) -> (r: IrOp)
    ensures
        has_operands(*op) ==> r == reoperand(*op, lhs, rhs, w),
        !has_operands(*op) ==> same_op(r, *op),
        op_tag(r) == op_tag(*op),
        op_dst(r) == op_dst(*op),
{
    match op {
        IrOp::Eq { dst, .. } => IrOp::Eq { dst: *dst, lhs, rhs, width: w },
        IrOp::Ne { dst, .. } => IrOp::Ne { dst: *dst, lhs, rhs, width: w },
        IrOp::Lt { dst, signed, .. } => IrOp::Lt { dst: *dst, lhs, rhs, width: w, signed: *signed },
        IrOp::Le { dst, signed, .. } => IrOp::Le { dst: *dst, lhs, rhs, width: w, signed: *signed },
        IrOp::Gt { dst, signed, .. } => IrOp::Gt { dst: *dst, lhs, rhs, width: w, signed: *signed },
        IrOp::Ge { dst, signed, .. } => IrOp::Ge { dst: *dst, lhs, rhs, width: w, signed: *signed },
        IrOp::Add { dst, .. } => IrOp::Add { dst: *dst, lhs, rhs, width: w },
        IrOp::Sub { dst, .. } => IrOp::Sub { dst: *dst, lhs, rhs, width: w },
        IrOp::Mul { dst, signed, .. } => IrOp::Mul { dst: *dst, lhs, rhs, width: w, signed: *signed },
        IrOp::And { dst, .. } => IrOp::And { dst: *dst, lhs, rhs, width: w },
        IrOp::Or { dst, .. } => IrOp::Or { dst: *dst, lhs, rhs, width: w },
        IrOp::Xor { dst, .. } => IrOp::Xor { dst: *dst, lhs, rhs, width: w },
        IrOp::Shl { dst, .. } => IrOp::Shl { dst: *dst, lhs, rhs, width: w },
        _ => op.clone(),
    }
}

/// The count of a vreg id in a map of counts.
pub open spec fn count_of_id(m: Map<u32, u32>, id: u32) -> u32 {
    if m.contains_key(id) { m[id] } else { 0u32 }
}

/// `m` with one more use counted (wrapping) for each vreg of `vs` other
/// than the destination `skip`.
pub open spec fn count_uses(m: Map<u32, u32>, vs: Seq<VReg>, skip: Option<u32>) -> Map<u32, u32>
    decreases vs.len(),
{
    if vs.len() == 0 {
        m
    } else {
        let m2 = count_uses(m, vs.drop_last(), skip);
        let v = vs.last();
        if skip == Some(v.id) {
            m2
        } else {
            m2.insert(v.id, count_of_id(m2, v.id).wrapping_add(1))
        }
    }
}

/// An operation that uses its operands only for their low byte: 8-bit
/// arithmetic, or a cast to an 8-bit vreg.
pub open spec fn w8_context(op: IrOp) -> bool {
    match op {
        IrOp::Add { width, .. } | IrOp::Sub { width, .. } | IrOp::Mul { width, .. } | IrOp::And { width, .. }
        | IrOp::Or { width, .. } | IrOp::Xor { width, .. } | IrOp::Shl { width, .. } => width == Width::W8,
        IrOp::Cast { dst, .. } => dst.width == Width::W8,
        _ => false,
    }
}

/// The uses of each vreg among the first `n` instructions (an instruction's
/// own destination aside); with `w8_only`, only the uses in a byte context.
pub open spec fn use_map(body: Seq<IrInstr>, n: int, w8_only: bool) -> Map<u32, u32>
    decreases n,
{
    if n <= 0 {
        Map::empty()
    } else {
        let m = use_map(body, n - 1, w8_only);
        let op = body[n - 1].op;
        if !w8_only || w8_context(op) {
            count_uses(m, op_all_vregs(op), dst_id(op))
        } else {
            m
        }
    }
}

/// The vregs that a `LoadImm` among the first `n` instructions defines.
pub open spec fn imm_ids(body: Seq<IrInstr>, n: int) -> Map<u32, ()>
    decreases n,
{
    if n <= 0 {
        Map::empty()
    } else {
        let m = imm_ids(body, n - 1);
        match body[n - 1].op {
            IrOp::LoadImm { dst, .. } => m.insert(dst.id, ()),
            _ => m,
        }
    }
}

/// The 8-bit stand-in of an operand: the origin of a widened byte, or a
/// constant (rematerialised at 8 bits).
pub open spec fn byte_operand(o: Map<u32, VReg>, imm: Map<u32, ()>, v: VReg) -> Option<VReg> {
    if o.contains_key(v.id) {
        Some(o[v.id])
    } else if imm.contains_key(v.id) {
        Some(v)
    } else {
        None
    }
}

/// The 8-bit form of a 16-bit arithmetic operation whose result is only
/// used as a byte and whose operands have 8-bit stand-ins.
pub open spec fn np_op(op: IrOp, total: Map<u32, u32>, w8: Map<u32, u32>, o: Map<u32, VReg>, imm: Map<u32, ()>) -> Option<IrOp> {
    match op {
        IrOp::Add { dst, lhs, rhs, width } | IrOp::Sub { dst, lhs, rhs, width } | IrOp::Mul { dst, lhs, rhs, width, .. }
        | IrOp::And { dst, lhs, rhs, width } | IrOp::Or { dst, lhs, rhs, width } | IrOp::Xor { dst, lhs, rhs, width }
        | IrOp::Shl { dst, lhs, rhs, width } =>
            if width == Width::W16 && count_of_id(total, dst.id) > 0 && count_of_id(w8, dst.id) == count_of_id(total, dst.id) {
                match (byte_operand(o, imm, lhs), byte_operand(o, imm, rhs)) {
                    (Some(l), Some(r)) => Some(redst(reoperand(op, l, r, Width::W8), Width::W8)),
                    _ => None,
                }
            } else {
                None
            },
        _ => None,
    }
}

/// Instruction `i` after narrowing promoted arithmetic, with the counts,
/// origins and constants of the whole body.
pub open spec fn np_instr(body: Seq<IrInstr>, i: int) -> IrInstr {
    let n = body.len() as int;
    match np_op(body[i].op, use_map(body, n, false), use_map(body, n, true), cast_origins(body, n), imm_ids(body, n)) {
        Some(op) => IrInstr { op, line: body[i].line },
        None => body[i],
    }
}

fn count_get(m: &AssocMap<u32, u32>, id: u32) -> (r: u32)
    requires
        m.wf(),
    ensures
        r == count_of_id(m@, id),
{
    match m.get(&id) {
        Some(c) => *c,
        None => 0,
    }
}

/// Narrow 16-bit arithmetic whose result is only ever consumed for its low
/// byte, and whose operands are widened bytes or immediates, to 8 bits.
pub fn narrow_promoted_arithmetic(func: &mut IrFunction) -> (changed: bool)
    ensures
        same_header(*old(func), *final(func)),
        final(func).body@.len() == old(func).body@.len(),
        forall|i: int| 0 <= i < old(func).body@.len() ==> #[trigger] final(func).body@[i] == np_instr(old(func).body@, i),
        changed == exists|i: int| 0 <= i < old(func).body@.len() && #[trigger] np_instr(old(func).body@, i) != old(func).body@[i],
        forall|i: int| 0 <= i < old(func).body@.len() ==> #[trigger] renarrowed(old(func).body@[i], final(func).body@[i]),
{
    let ghost body0 = func.body@;
    let cast_origin = widening_origins(&func.body);
    let mut imm_remat: IdSet = AssocMap::new();
    let mut total_uses: AssocMap<u32, u32> = AssocMap::new();
    let mut w8_uses: AssocMap<u32, u32> = AssocMap::new();
    let mut i: usize = 0;
    proof {
        assert(imm_remat@ =~= imm_ids(body0, 0));
        assert(total_uses@ =~= use_map(body0, 0, false));
        assert(w8_uses@ =~= use_map(body0, 0, true));
    }
    while i < func.body.len()
        invariant
            i <= func.body@.len(),
            func.body@ == body0,
            imm_remat.wf(),
            total_uses.wf(),
            w8_uses.wf(),
            imm_remat@ == imm_ids(body0, i as int),
            total_uses@ == use_map(body0, i as int, false),
            w8_uses@ == use_map(body0, i as int, true),
        decreases func.body@.len() - i,
    {
        let op = &func.body[i].op;
        match op {
            IrOp::LoadImm { dst, .. } => {
                imm_remat.insert(dst.id, ());
            },
            _ => {},
        }
        let dst_id: Option<u32> = match get_dst_vreg(op) {
            Some(d) => Some(d.id),
            None => None,
        };
        let w8_ctx = match op {
            IrOp::Add { width, .. } | IrOp::Sub { width, .. } | IrOp::Mul { width, .. } | IrOp::And { width, .. }
            | IrOp::Or { width, .. } | IrOp::Xor { width, .. } | IrOp::Shl { width, .. } => *width == Width::W8,
            IrOp::Cast { dst, .. } => dst.width == Width::W8,
            _ => false,
        };
        assert(w8_ctx == w8_context(*op));
        assert(dst_id == crate::opt::narrow::dst_id(*op));
        let vs = collect_vregs(op);
        let ghost t0 = total_uses@;
        let ghost e0 = w8_uses@;
        let mut j: usize = 0;
        proof {
            assert(vs@.take(0) =~= Seq::<VReg>::empty());
        }
        while j < vs.len()
            invariant
                j <= vs@.len(),
                total_uses.wf(),
                w8_uses.wf(),
                total_uses@ == count_uses(t0, vs@.take(j as int), dst_id),
                w8_uses@ == (if w8_ctx { count_uses(e0, vs@.take(j as int), dst_id) } else { e0 }),
            decreases vs@.len() - j,
        {
            let v = vs[j];
            proof {
                assert(vs@.take(j + 1).drop_last() =~= vs@.take(j as int));
            }
            if dst_id != Some(v.id) {
                let t = count_get(&total_uses, v.id);
                total_uses.insert(v.id, t.wrapping_add(1));
                if w8_ctx {
                    let c8 = count_get(&w8_uses, v.id);
                    w8_uses.insert(v.id, c8.wrapping_add(1));
                }
            }
            j += 1;
        }
        proof {
            assert(vs@.take(vs@.len() as int) =~= vs@);
        }
        i += 1;
    }
    let ghost tot = total_uses@;
    let ghost w8m = w8_uses@;
    let ghost om = cast_origin@;
    let ghost im = imm_remat@;
    let mut changed = false;
    let mut k: usize = 0;
    while k < func.body.len()
        invariant
            k <= func.body@.len(),
            func.body@.len() == body0.len(),
            cast_origin.wf(),
            imm_remat.wf(),
            total_uses.wf(),
            w8_uses.wf(),
            total_uses@ == tot,
            w8_uses@ == w8m,
            cast_origin@ == om,
            imm_remat@ == im,
            tot == use_map(body0, body0.len() as int, false),
            w8m == use_map(body0, body0.len() as int, true),
            om == cast_origins(body0, body0.len() as int),
            im == imm_ids(body0, body0.len() as int),
            forall|t: int| 0 <= t < k ==> #[trigger] func.body@[t] == np_instr(body0, t),
            forall|t: int| k <= t < body0.len() ==> func.body@[t] == body0[t],
            changed == exists|t: int| 0 <= t < k && #[trigger] np_instr(body0, t) != body0[t],
            same_header(*old(func), *func),
        decreases func.body@.len() - k,
    {
        let line = func.body[k].line;
        let new_op: Option<IrOp> = match &func.body[k].op {
            IrOp::Add { dst, lhs, rhs, width } | IrOp::Sub { dst, lhs, rhs, width } | IrOp::Mul { dst, lhs, rhs, width, .. }
            | IrOp::And { dst, lhs, rhs, width } | IrOp::Or { dst, lhs, rhs, width } | IrOp::Xor { dst, lhs, rhs, width }
            | IrOp::Shl { dst, lhs, rhs, width } => {
                let total = count_get(&total_uses, dst.id);
                let w8 = count_get(&w8_uses, dst.id);
                let consumed = total > 0 && w8 == total;
                if *width == Width::W16 && consumed {
                    let nl: Option<VReg> = match cast_origin.get(&lhs.id) {
                        Some(o) => Some(*o),
                        None => if imm_remat.contains_key(&lhs.id) { Some(*lhs) } else { None },
                    };
                    let nr: Option<VReg> = match cast_origin.get(&rhs.id) {
                        Some(o) => Some(*o),
                        None => if imm_remat.contains_key(&rhs.id) { Some(*rhs) } else { None },
                    };
                    match (nl, nr) {
                        (Some(l), Some(r)) => {
                            let narrowed = with_operands(&func.body[k].op, l, r, Width::W8);
                            Some(with_dst_width(&narrowed, Width::W8))
                        },
                        _ => None,
                    }
                } else {
                    None
                }
            },
            _ => None,
        };
        assert(new_op == np_op(body0[k as int].op, tot, w8m, om, im));
        match new_op {
            Some(op) => {
                func.body.set(k, IrInstr { op, line });
                proof {
                    assert(np_instr(body0, k as int) != body0[k as int]);
                }
                changed = true;
            },
            None => {},
        }
        proof {
            if exists|t: int| 0 <= t < k + 1 && #[trigger] np_instr(body0, t) != body0[t] {
                let t = choose|t: int| 0 <= t < k + 1 && #[trigger] np_instr(body0, t) != body0[t];
                if t < k {
                    assert(changed);
                }
            }
        }
        k += 1;
    }
    proof {
        assert forall|t: int| 0 <= t < body0.len() implies #[trigger] renarrowed(body0[t], func.body@[t]) by {
            assert(func.body@[t] == np_instr(body0, t));
        }
    }
    changed
}

/// A binary operation whose destination vreg gets the given width.
pub fn with_dst_width(op: &IrOp, w: Width) -> (r: IrOp)
    ensures
        has_dst_width(*op) ==> r == redst(*op, w),
        !has_dst_width(*op) ==> same_op(r, *op),
        op_tag(r) == op_tag(*op),
        dst_id(r) == dst_id(*op),
{
    match op {
        IrOp::Add { dst, lhs, rhs, width } => IrOp::Add { dst: VReg { id: dst.id, width: w }, lhs: *lhs, rhs: *rhs, width: *width },
        IrOp::Sub { dst, lhs, rhs, width } => IrOp::Sub { dst: VReg { id: dst.id, width: w }, lhs: *lhs, rhs: *rhs, width: *width },
        IrOp::Mul { dst, lhs, rhs, width, signed } => IrOp::Mul { dst: VReg { id: dst.id, width: w }, lhs: *lhs, rhs: *rhs, width: *width, signed: *signed },
        IrOp::And { dst, lhs, rhs, width } => IrOp::And { dst: VReg { id: dst.id, width: w }, lhs: *lhs, rhs: *rhs, width: *width },
        IrOp::Or { dst, lhs, rhs, width } => IrOp::Or { dst: VReg { id: dst.id, width: w }, lhs: *lhs, rhs: *rhs, width: *width },
        IrOp::Xor { dst, lhs, rhs, width } => IrOp::Xor { dst: VReg { id: dst.id, width: w }, lhs: *lhs, rhs: *rhs, width: *width },
        IrOp::Shl { dst, lhs, rhs, width } => IrOp::Shl { dst: VReg { id: dst.id, width: w }, lhs: *lhs, rhs: *rhs, width: *width },
        _ => op.clone(),
    }
}

} // verus!
