//! Induction-variable strength reduction: a multiplication of a basic
//! induction variable by a constant inside a loop becomes a copy of a
//! derived induction variable that is stepped alongside it.

use vstd::prelude::*;

use crate::ir::{IrFunction, IrInstr, IrOp, VReg, Width, same_body, same_instr, lemma_same_instr_refl};
use crate::maps::AssocMap;
use crate::opt::arith::{spec_wrap, wrap_result};
use crate::opt::basic::same_header;
use crate::opt::fold::loads_imm;
use crate::opt::loops::{find_loops, ids_below, is_loop, natural_loops, vreg_bound, vreg_id_bound};
use crate::opt::simplify::imm_map;
use crate::opt::ops::{get_dst_vreg, op_dst};

verus! {

/// A basic induction variable: `iv = iv ± c` defined once in the loop.
pub struct BasicIv {
    /// The variable.
    pub vreg_id: u32,
    /// Its step.
    pub stride: i64,
    /// Position of its step.
    pub def_idx: usize,
}

/// A multiplication of an induction variable by a constant, replaced by a
/// derived induction variable.
pub struct DerivedIv {
    /// Position of the multiplication in the body.
    pub mul_idx: usize,
    /// The destination of the multiplication.
    pub mul_dst: VReg,
    /// The basic induction variable multiplied.
    pub iv_vreg_id: u32,
    /// The constant it is multiplied by.
    pub factor: i64,
    /// The fresh vreg holding the product.
    pub derived: VReg,
    /// The fresh vreg holding the product's step.
    pub stride_vreg: VReg,
    /// The step of the basic induction variable.
    pub stride: i64,
    /// Position of the step of the basic induction variable.
    pub iv_def_idx: usize,
    /// Width of the multiplication.
    pub width: Width,
}

/// The instruction writes vreg `id`.
pub open spec fn defines_vreg(ins: IrInstr, id: u32) -> bool {
    op_dst(ins.op) matches Some(d) && d.id == id
}

/// The instruction is a `LoadImm` into vreg `id`.
pub open spec fn loads_imm_into(ins: IrInstr, id: u32) -> bool {
    ins.op matches IrOp::LoadImm { dst, .. } && dst.id == id
}

/// The last `LoadImm` into vreg `id` before position `h` loads `v`.
pub open spec fn entry_constant(body: Seq<IrInstr>, h: int, id: u32, v: i64) -> bool {
    exists|j: int|
        0 <= j < h && #[trigger] loads_imm(body[j], id, v) && forall|k: int| j < k < h ==> !loads_imm_into(#[trigger] body[k], id)
}

/// `iv` is a basic induction variable of the loop `h..=b`: the instruction
/// at `def` is its only definition there, and adds a loop-entry constant to
/// it (the step `stride`) or subtracts one from it (the step is then the
/// wrapped negation of the constant).
pub open spec fn basic_iv(body: Seq<IrInstr>, h: int, b: int, iv: u32, def: int, stride: i64) -> bool {
    &&& h <= def <= b
    &&& forall|k: int| h <= k <= b && k != def ==> !defines_vreg(#[trigger] body[k], iv)
    &&& match body[def].op {
        IrOp::Add { dst, lhs, rhs, .. } => dst.id == iv && ((lhs.id == iv && entry_constant(body, h, rhs.id, stride))
            || (rhs.id == iv && entry_constant(body, h, lhs.id, stride))),
        IrOp::Sub { dst, lhs, rhs, .. } => dst.id == iv && lhs.id == iv && exists|c: i64|
            #[trigger] entry_constant(body, h, rhs.id, c) && stride == 0i64.wrapping_sub(c),
        _ => false,
    }
}

/// `d` describes a multiplication in the loop `h..=b` of a basic induction
/// variable by a loop-entry constant.
pub open spec fn derived_ok(body: Seq<IrInstr>, h: int, b: int, d: DerivedIv) -> bool {
    &&& h <= d.mul_idx <= b
    &&& (body[d.mul_idx as int].op matches IrOp::Mul { dst, lhs, rhs, width, .. } && dst == d.mul_dst && width == d.width
        && ((lhs.id == d.iv_vreg_id && entry_constant(body, h, rhs.id, d.factor))
            || (rhs.id == d.iv_vreg_id && entry_constant(body, h, lhs.id, d.factor))))
    &&& basic_iv(body, h, b, d.iv_vreg_id, d.iv_def_idx as int, d.stride)
    &&& d.derived.width == d.width && d.stride_vreg.width == d.width
}

/// The vreg holding the factor of the `t`-th derived variable.
pub open spec fn factor_vreg(d: DerivedIv, kbase: int, t: int) -> VReg {
    VReg { id: (kbase + t) as u32, width: d.width }
}

/// The initialisation of the derived variables before the loop header:
/// for each, its step `stride * factor`, its factor, and the product of the
/// induction variable's entry value with the factor.
pub open spec fn iv_inits(ds: Seq<DerivedIv>, kbase: int) -> Seq<IrInstr>
    decreases ds.len(),
{
    if ds.len() == 0 {
        Seq::empty()
    } else {
        let t = ds.len() - 1;
        let d = ds[t];
        iv_inits(ds.drop_last(), kbase) + seq![
            IrInstr { op: IrOp::LoadImm { dst: d.stride_vreg, value: spec_wrap(d.stride.wrapping_mul(d.factor) as int, d.width) as i64 }, line: 0 },
            IrInstr { op: IrOp::LoadImm { dst: factor_vreg(d, kbase, t), value: spec_wrap(d.factor as int, d.width) as i64 }, line: 0 },
            IrInstr { op: IrOp::Mul { dst: d.derived, lhs: VReg { id: d.iv_vreg_id, width: d.width }, rhs: factor_vreg(d, kbase, t), width: d.width, signed: true }, line: 0 },
        ]
    }
}

/// The steps of the derived variables whose induction variable is stepped at
/// position `i`.
pub open spec fn iv_steps(ds: Seq<DerivedIv>, i: int) -> Seq<IrInstr>
    decreases ds.len(),
{
    if ds.len() == 0 {
        Seq::empty()
    } else {
        let d = ds.last();
        iv_steps(ds.drop_last(), i) + if d.iv_def_idx == i {
            seq![IrInstr { op: IrOp::Add { dst: d.derived, lhs: d.derived, rhs: d.stride_vreg, width: d.width }, line: 0 }]
        } else {
            Seq::empty()
        }
    }
}

/// Some derived variable replaces the multiplication at position `i`.
pub open spec fn replaces_at(ds: Seq<DerivedIv>, i: int) -> bool {
    exists|t: int| 0 <= t < ds.len() && (#[trigger] ds[t]).mul_idx == i
}

/// What stands in the rewritten body for the instruction at position `i`.
pub open spec fn iv_piece(body: Seq<IrInstr>, h: int, ds: Seq<DerivedIv>, kbase: int, i: int) -> Seq<IrInstr> {
    (if i == h { iv_inits(ds, kbase) } else { Seq::empty() }) + if replaces_at(ds, i) {
        let d = ds[choose|t: int| 0 <= t < ds.len() && (#[trigger] ds[t]).mul_idx == i];
        seq![IrInstr { op: IrOp::Copy { dst: d.mul_dst, src: d.derived }, line: 0 }]
    } else {
        seq![body[i]] + iv_steps(ds, i)
    }
}

/// The rewritten body up to (not including) position `n` of the input body.
pub open spec fn iv_body(body: Seq<IrInstr>, h: int, ds: Seq<DerivedIv>, kbase: int, n: int) -> Seq<IrInstr>
    decreases n,
{
    if n <= 0 {
        Seq::empty()
    } else {
        iv_body(body, h, ds, kbase, n - 1) + iv_piece(body, h, ds, kbase, n - 1)
    }
}

/// `new` is `old` with the multiplications `ds` in the loop `h..=b` replaced
/// by derived induction variables whose fresh vregs are numbered from
/// `base`, above every vreg of `old`.
pub open spec fn iv_rewritten(old: Seq<IrInstr>, h: int, b: int, ds: Seq<DerivedIv>, base: int, new: Seq<IrInstr>) -> bool {
    &&& is_loop(old, h, b, true)
    &&& ds.len() > 0
    &&& ids_below(old, base)
    &&& base + 4 * ds.len() <= u32::MAX + 1
    &&& forall|t: int| 0 <= t < ds.len() ==> derived_ok(old, h, b, #[trigger] ds[t])
        && ds[t].derived.id == base + 3 * t && ds[t].stride_vreg.id == base + 3 * t + 1
    &&& forall|s: int, t: int| #![trigger ds[s], ds[t]] 0 <= s < t < ds.len() ==> ds[s].mul_idx < ds[t].mul_idx
    &&& same_body(new, iv_body(old, h, ds, base + 3 * ds.len(), old.len() as int))
}

/// The count of a vreg in a map of counts.
pub open spec fn dc_count(m: Map<u32, usize>, id: u32) -> usize {
    if m.contains_key(id) { m[id] } else { 0usize }
}

/// How often each vreg is written among the instructions `h..n`.
pub open spec fn def_counts_from(body: Seq<IrInstr>, h: int, n: int) -> Map<u32, usize>
    decreases n - h,
{
    if n <= h {
        Map::empty()
    } else {
        let m = def_counts_from(body, h, n - 1);
        match op_dst(body[n - 1].op) {
            Some(d) => m.insert(d.id, (dc_count(m, d.id) + 1) as usize),
            None => m,
        }
    }
}

/// The basic induction variables found among the instructions `h..n`: an
/// `Add` of a constant to a vreg written once, into itself, or a `Sub` of
/// a constant from it, with the constants `c` known at the loop entry.
pub open spec fn iv_bivs(body: Seq<IrInstr>, h: int, n: int, c: Map<u32, i64>, dc: Map<u32, usize>) -> Seq<BasicIv>
    decreases n - h,
{
    if n <= h {
        Seq::empty()
    } else {
        let r = iv_bivs(body, h, n - 1, c, dc);
        let k = (n - 1) as usize;
        match body[n - 1].op {
            IrOp::Add { dst, lhs, rhs, .. } => if dst.id == lhs.id && dc_count(dc, dst.id) == 1 {
                if c.contains_key(rhs.id) { r.push(BasicIv { vreg_id: dst.id, stride: c[rhs.id], def_idx: k }) } else { r }
            } else if dst.id == rhs.id && dc_count(dc, dst.id) == 1 {
                if c.contains_key(lhs.id) { r.push(BasicIv { vreg_id: dst.id, stride: c[lhs.id], def_idx: k }) } else { r }
            } else {
                r
            },
            IrOp::Sub { dst, lhs, rhs, .. } => if dst.id == lhs.id && dc_count(dc, dst.id) == 1 && c.contains_key(rhs.id) {
                r.push(BasicIv { vreg_id: dst.id, stride: 0i64.wrapping_sub(c[rhs.id]), def_idx: k })
            } else {
                r
            },
            _ => r,
        }
    }
}

/// The constant that multiplies the induction variable `b` in a product
/// of `lhs` and `rhs`, if one operand is `b` and the other a constant.
pub open spec fn biv_factor(b: BasicIv, lhs: VReg, rhs: VReg, c: Map<u32, i64>) -> Option<i64> {
    if lhs.id == b.vreg_id {
        if c.contains_key(rhs.id) { Some(c[rhs.id]) } else { None }
    } else if rhs.id == b.vreg_id {
        if c.contains_key(lhs.id) { Some(c[lhs.id]) } else { None }
    } else {
        None
    }
}

/// The first induction variable from position `t` on that the product
/// multiplies by a constant.
pub open spec fn pick_biv(bivs: Seq<BasicIv>, lhs: VReg, rhs: VReg, c: Map<u32, i64>, t: int) -> Option<int>
    decreases bivs.len() - t,
{
    if t < 0 || t >= bivs.len() {
        None
    } else if biv_factor(bivs[t], lhs, rhs, c) is Some {
        Some(t)
    } else {
        pick_biv(bivs, lhs, rhs, c, t + 1)
    }
}

/// The multiplications among the instructions `h..n` replaced by derived
/// induction variables, with their fresh vregs numbered from `base`.
pub open spec fn iv_derived(body: Seq<IrInstr>, h: int, n: int, c: Map<u32, i64>, bivs: Seq<BasicIv>, base: int) -> Seq<DerivedIv>
    decreases n - h,
{
    if n <= h {
        Seq::empty()
    } else {
        let ds = iv_derived(body, h, n - 1, c, bivs, base);
        match body[n - 1].op {
            IrOp::Mul { dst, lhs, rhs, width, .. } => match pick_biv(bivs, lhs, rhs, c, 0) {
                Some(t) => ds.push(DerivedIv {
                    mul_idx: (n - 1) as usize,
                    mul_dst: dst,
                    iv_vreg_id: bivs[t].vreg_id,
                    factor: biv_factor(bivs[t], lhs, rhs, c)->Some_0,
                    derived: VReg { id: (base + 3 * ds.len()) as u32, width },
                    stride_vreg: VReg { id: (base + 3 * ds.len() + 1) as u32, width },
                    stride: bivs[t].stride,
                    iv_def_idx: bivs[t].def_idx,
                    width,
                }),
                None => ds,
            },
            _ => ds,
        }
    }
}

/// The derived induction variables of the loop `h..=b`, when it has any
/// and the fresh vregs fit.
pub open spec fn iv_plan(body: Seq<IrInstr>, h: int, b: int) -> Option<Seq<DerivedIv>> {
    let c = imm_map(body, h);
    let bivs = iv_bivs(body, h, b + 1, c, def_counts_from(body, h, b + 1));
    let base = vreg_bound(body);
    if bivs.len() == 0 || b - h >= (u32::MAX + 1 - base) / 4 {
        None
    } else {
        let ds = iv_derived(body, h, b + 1, c, bivs, base);
        if ds.len() == 0 { None } else { Some(ds) }
    }
}

/// The first loop from position `k` on that has derived induction variables.
pub open spec fn iv_pick(body: Seq<IrInstr>, loops: Seq<(usize, usize)>, k: int) -> Option<int>
    decreases loops.len() - k,
{
    if k < 0 || k >= loops.len() {
        None
    } else if iv_plan(body, loops[k].0 as int, loops[k].1 as int) is Some {
        Some(k)
    } else {
        iv_pick(body, loops, k + 1)
    }
}

/// The body after induction-variable strength reduction, if it changes.
pub open spec fn iv_result(body: Seq<IrInstr>) -> Option<Seq<IrInstr>> {
    let loops = natural_loops(body, true);
    match iv_pick(body, loops, 0) {
        Some(k) => {
            let ds = iv_plan(body, loops[k].0 as int, loops[k].1 as int)->Some_0;
            Some(iv_body(body, loops[k].0 as int, ds, vreg_bound(body) + 3 * ds.len(), body.len() as int))
        },
        None => None,
    }
}

proof fn lemma_pick_skip(bivs: Seq<BasicIv>, lhs: VReg, rhs: VReg, c: Map<u32, i64>, t: int)
    requires
        0 <= t <= bivs.len(),
        forall|u: int| 0 <= u < t ==> biv_factor(#[trigger] bivs[u], lhs, rhs, c) is None,
    ensures
        pick_biv(bivs, lhs, rhs, c, 0) == pick_biv(bivs, lhs, rhs, c, t),
    decreases t,
{
    if t > 0 {
        lemma_pick_skip(bivs, lhs, rhs, c, t - 1);
    }
}

proof fn lemma_entry_new(body: Seq<IrInstr>, h: int, id: u32, v: i64)
    requires
        0 <= h < body.len(),
        loads_imm(body[h], id, v),
    ensures
        entry_constant(body, h + 1, id, v),
{
}

proof fn lemma_entry_extend(body: Seq<IrInstr>, h: int, id: u32, v: i64)
    requires
        0 <= h < body.len(),
        entry_constant(body, h, id, v),
        !loads_imm_into(body[h], id),
    ensures
        entry_constant(body, h + 1, id, v),
{
    let j = choose|j: int|
        0 <= j < h && #[trigger] loads_imm(body[j], id, v) && forall|k: int| j < k < h ==> !loads_imm_into(#[trigger] body[k], id);
    assert(forall|k: int| j < k < h + 1 ==> !loads_imm_into(#[trigger] body[k], id));
}

proof fn lemma_same_body_push(a: Seq<IrInstr>, b: Seq<IrInstr>, x: IrInstr, y: IrInstr)
    requires
        same_body(a, b),
        same_instr(x, y),
    ensures
        same_body(a.push(x), b.push(y)),
{
    assert forall|i: int| 0 <= i < a.len() + 1 implies #[trigger] same_instr(a.push(x)[i], b.push(y)[i]) by {
        if i < a.len() {
            assert(same_instr(a[i], b[i]));
        }
    }
}

fn count_of(m: &AssocMap<u32, usize>, id: u32) -> (r: usize)
    requires
        m.wf(),
    ensures
        r == (if m@.contains_key(id) { m@[id] } else { 0 }),
{
    match m.get(&id) {
        Some(c) => *c,
        None => 0,
    }
}

fn constant_of(m: &AssocMap<u32, i64>, id: u32) -> (r: Option<i64>)
    requires
        m.wf(),
    ensures
        r == (if m@.contains_key(id) { Some(m@[id]) } else { None::<i64> }),
{
    match m.get(&id) {
        Some(c) => Some(*c),
        None => None,
    }
}

proof fn lemma_only_def(body: Seq<IrInstr>, h: int, b: int, def: int, id: u32, counts: Map<u32, usize>)
    requires
        h <= def <= b < body.len(),
        defines_vreg(body[def], id),
        counts.contains_key(id) && counts[id] == 1,
        forall|k1: int, k2: int, x: u32| #![trigger defines_vreg(body[k1], x), defines_vreg(body[k2], x)]
            h <= k1 < k2 <= b && defines_vreg(body[k1], x) && defines_vreg(body[k2], x) ==> counts[x] >= 2,
    ensures
        forall|k: int| h <= k <= b && k != def ==> !defines_vreg(#[trigger] body[k], id),
{
    assert forall|k: int| h <= k <= b && k != def implies !defines_vreg(#[trigger] body[k], id) by {
        if defines_vreg(body[k], id) {
            if k < def {
                assert(counts[id] >= 2);
            } else {
                assert(counts[id] >= 2);
            }
        }
    }
}

/// Replace multiplications of a basic induction variable by a constant
/// inside the innermost loop that has one with a derived induction
/// variable stepped by `stride * factor` (wrapped to the width) after the
/// variable's own step, initialised before the header.
#[verifier::rlimit(80)]
pub fn induction_variable_optimization(func: &mut IrFunction) -> (changed: bool)
    ensures
        same_header(*old(func), *final(func)),
        !changed ==> final(func).body@ == old(func).body@,
        changed ==> exists|h: int, b: int, ds: Seq<DerivedIv>, base: int|
            iv_rewritten(old(func).body@, h, b, ds, base, final(func).body@),
        changed == iv_result(old(func).body@) is Some,
        changed ==> same_body(final(func).body@, iv_result(old(func).body@)->Some_0),
{
    let loops = find_loops(&func.body, true);
    let ghost body0 = func.body@;
    let mut changed = false;
    let mut li: usize = 0;
    while li < loops.len() && !changed
        invariant
            forall|k: int| 0 <= k < loops@.len() ==> #[trigger] is_loop(body0, loops@[k].0 as int, loops@[k].1 as int, true),
            same_header(*old(func), *func),
            body0 == old(func).body@,
            !changed ==> func.body@ == body0,
            changed ==> exists|h: int, b: int, ds: Seq<DerivedIv>, base: int| iv_rewritten(body0, h, b, ds, base, func.body@),
            loops@ == natural_loops(body0, true),
            li <= loops@.len(),
            !changed ==> iv_pick(body0, loops@, 0) == iv_pick(body0, loops@, li as int),
            changed ==> iv_result(body0) is Some && same_body(func.body@, iv_result(body0)->Some_0),
        decreases loops@.len() - li,
    {
        let (h, b) = loops[li];
        assert(is_loop(body0, loops@[li as int].0 as int, loops@[li as int].1 as int, true));
        let n = func.body.len();
        let ghost li0 = li as int;
        proof {
            assert(iv_plan(body0, h as int, b as int) is None ==> iv_pick(body0, loops@, li0) == iv_pick(body0, loops@, li0 + 1));
        }
        li += 1;
        // Constants loaded before the header.
        let mut constants: AssocMap<u32, i64> = AssocMap::new();
        let mut idx: usize = 0;
        while idx < h
            invariant
                h < b < n,
                n == func.body@.len(),
                func.body@ == body0,
                idx <= h,
                constants.wf(),
                constants@ == imm_map(body0, idx as int),
                forall|id: u32| #[trigger] constants@.contains_key(id) ==> entry_constant(body0, idx as int, id, constants@[id]),
            decreases h - idx,
        {
            match &func.body[idx].op {
                IrOp::LoadImm { dst, value } => {
                    constants.insert(dst.id, *value);
                },
                _ => {},
            }
            proof {
                assert forall|id: u32| #[trigger] constants@.contains_key(id) implies entry_constant(body0, idx + 1, id, constants@[id]) by {
                    if loads_imm_into(body0[idx as int], id) {
                        lemma_entry_new(body0, idx as int, id, constants@[id]);
                    } else {
                        lemma_entry_extend(body0, idx as int, id, constants@[id]);
                    }
                }
            }
            idx += 1;
        }
        // How often each vreg is written inside the loop.
        let mut def_counts: AssocMap<u32, usize> = AssocMap::new();
        idx = h;
        while idx <= b
            invariant
                h <= idx <= b + 1,
                h < b < n,
                n == func.body@.len(),
                func.body@ == body0,
                def_counts.wf(),
                def_counts@ == def_counts_from(body0, h as int, idx as int),
                forall|k: u32| #[trigger] def_counts@.contains_key(k) ==> def_counts@[k] <= idx - h,
                forall|k: int, id: u32| h <= k < idx && #[trigger] defines_vreg(body0[k], id) ==> def_counts@.contains_key(id) && def_counts@[id] >= 1,
                forall|k1: int, k2: int, x: u32| #![trigger defines_vreg(body0[k1], x), defines_vreg(body0[k2], x)]
                    h <= k1 < k2 < idx && defines_vreg(body0[k1], x) && defines_vreg(body0[k2], x) ==> def_counts@[x] >= 2,
            decreases b + 1 - idx,
        {
            match get_dst_vreg(&func.body[idx].op) {
                Some(d) => {
                    let c = count_of(&def_counts, d.id);
                    def_counts.insert(d.id, c + 1);
                },
                None => {},
            }
            idx += 1;
        }
        // The basic induction variables.
        let mut bivs: Vec<BasicIv> = Vec::new();
        idx = h;
        while idx <= b
            invariant
                h <= idx <= b + 1,
                h < b < n,
                n == func.body@.len(),
                func.body@ == body0,
                def_counts.wf(),
                constants.wf(),
                constants@ == imm_map(body0, h as int),
                def_counts@ == def_counts_from(body0, h as int, b + 1),
                bivs@ == iv_bivs(body0, h as int, idx as int, constants@, def_counts@),
                forall|id: u32| #[trigger] constants@.contains_key(id) ==> entry_constant(body0, h as int, id, constants@[id]),
                forall|k1: int, k2: int, x: u32| #![trigger defines_vreg(body0[k1], x), defines_vreg(body0[k2], x)]
                    h <= k1 < k2 <= b && defines_vreg(body0[k1], x) && defines_vreg(body0[k2], x) ==> def_counts@[x] >= 2,
                forall|k: int| 0 <= k < bivs@.len() ==> #[trigger] basic_iv(body0, h as int, b as int, bivs@[k].vreg_id, bivs@[k].def_idx as int, bivs@[k].stride),
            decreases b + 1 - idx,
        {
            match &func.body[idx].op {
                IrOp::Add { dst, lhs, rhs, .. } => {
                    if dst.id == lhs.id && count_of(&def_counts, dst.id) == 1 {
                        match constant_of(&constants, rhs.id) {
                            Some(c) => {
                                proof {
                                    lemma_only_def(body0, h as int, b as int, idx as int, dst.id, def_counts@);
                                }
                                bivs.push(BasicIv { vreg_id: dst.id, stride: c, def_idx: idx });
                            },
                            None => {},
                        }
                    } else if dst.id == rhs.id && count_of(&def_counts, dst.id) == 1 {
                        match constant_of(&constants, lhs.id) {
                            Some(c) => {
                                proof {
                                    lemma_only_def(body0, h as int, b as int, idx as int, dst.id, def_counts@);
                                }
                                bivs.push(BasicIv { vreg_id: dst.id, stride: c, def_idx: idx });
                            },
                            None => {},
                        }
                    }
                },
                IrOp::Sub { dst, lhs, rhs, .. } => {
                    if dst.id == lhs.id && count_of(&def_counts, dst.id) == 1 {
                        match constant_of(&constants, rhs.id) {
                            Some(c) => {
                                proof {
                                    lemma_only_def(body0, h as int, b as int, idx as int, dst.id, def_counts@);
                                    assert(entry_constant(body0, h as int, rhs.id, c));
                                }
                                bivs.push(BasicIv { vreg_id: dst.id, stride: 0i64.wrapping_sub(c), def_idx: idx });
                            },
                            None => {},
                        }
                    }
                },
                _ => {},
            }
            idx += 1;
        }
        let ghost cm = constants@;
        proof {
            assert(bivs@ == iv_bivs(body0, h as int, b + 1, cm, def_counts_from(body0, h as int, b + 1)));
        }
        if bivs.len() == 0 {
            proof {
                assert(iv_plan(body0, h as int, b as int) is None);
            }
            continue;
        }
        let base = vreg_id_bound(&func.body);
        let room: u64 = u32::MAX as u64 + 1 - base;
        if (b - h) as u64 >= room / 4 {
            proof {
                assert(iv_plan(body0, h as int, b as int) is None);
            }
            continue;
        }
        // The multiplications to replace, with fresh vregs for each.
        let mut next: u64 = base;
        let mut derived: Vec<DerivedIv> = Vec::new();
        idx = h;
        while idx <= b
            invariant
                h <= idx <= b + 1,
                h < b < n,
                n == func.body@.len(),
                func.body@ == body0,
                constants.wf(),
                forall|id: u32| #[trigger] constants@.contains_key(id) ==> entry_constant(body0, h as int, id, constants@[id]),
                forall|k: int| 0 <= k < bivs@.len() ==> #[trigger] basic_iv(body0, h as int, b as int, bivs@[k].vreg_id, bivs@[k].def_idx as int, bivs@[k].stride),
                base <= u32::MAX as u64 + 1,
                room == u32::MAX as u64 + 1 - base,
                (b - h) < room / 4,
                derived@.len() <= idx - h,
                next == base + 3 * derived@.len(),
                constants@ == cm,
                bivs@ == iv_bivs(body0, h as int, b + 1, cm, def_counts_from(body0, h as int, b + 1)),
                base == vreg_bound(body0),
                derived@ == iv_derived(body0, h as int, idx as int, cm, bivs@, base as int),
                forall|t: int| 0 <= t < derived@.len() ==> derived_ok(body0, h as int, b as int, #[trigger] derived@[t])
                    && derived@[t].derived.id == base + 3 * t && derived@[t].stride_vreg.id == base + 3 * t + 1
                    && derived@[t].mul_idx < idx,
                forall|s: int, t: int| #![trigger derived@[s], derived@[t]] 0 <= s < t < derived@.len() ==> derived@[s].mul_idx < derived@[t].mul_idx,
            decreases b + 1 - idx,
        {
            let ghost before_ds = derived@;
            match &func.body[idx].op {
                IrOp::Mul { dst, lhs, rhs, width, signed } => {
                    let ghost before = derived@.len();
                    let mut t: usize = 0;
                    let mut found = false;
                    while t < bivs.len() && !found
                        invariant
                            h <= idx <= b,
                            b < n,
                            n == func.body@.len(),
                            func.body@ == body0,
                            body0[idx as int].op == (IrOp::Mul { dst: *dst, lhs: *lhs, rhs: *rhs, width: *width, signed: *signed }),
                            constants.wf(),
                            forall|id: u32| #[trigger] constants@.contains_key(id) ==> entry_constant(body0, h as int, id, constants@[id]),
                            forall|k: int| 0 <= k < bivs@.len() ==> #[trigger] basic_iv(body0, h as int, b as int, bivs@[k].vreg_id, bivs@[k].def_idx as int, bivs@[k].stride),
                            room == u32::MAX as u64 + 1 - base,
                            (b - h) < room / 4,
                            before <= idx - h,
                            !found ==> derived@.len() == before,
                            found ==> derived@.len() == before + 1 && derived@[before as int].mul_idx == idx,
                            next == base + 3 * derived@.len(),
                            forall|t: int| 0 <= t < derived@.len() ==> derived_ok(body0, h as int, b as int, #[trigger] derived@[t])
                                && derived@[t].derived.id == base + 3 * t && derived@[t].stride_vreg.id == base + 3 * t + 1
                                && derived@[t].mul_idx <= idx,
                            forall|t: int| 0 <= t < before ==> (#[trigger] derived@[t]).mul_idx < idx,
                            forall|s: int, t: int| #![trigger derived@[s], derived@[t]] 0 <= s < t < derived@.len() ==> derived@[s].mul_idx < derived@[t].mul_idx,
                            constants@ == cm,
                            before == before_ds.len(),
                            next == base + 3 * before_ds.len() + (if found { 3int } else { 0int }),
                            t <= bivs@.len(),
                            !found ==> derived@ == before_ds && forall|u: int| 0 <= u < t ==> biv_factor(#[trigger] bivs@[u], *lhs, *rhs, cm) is None,
                            found ==> 1 <= t && (forall|u: int| 0 <= u < t - 1 ==> biv_factor(#[trigger] bivs@[u], *lhs, *rhs, cm) is None)
                                && biv_factor(bivs@[t - 1], *lhs, *rhs, cm) is Some
                                && derived@ == before_ds.push(DerivedIv {
                                    mul_idx: idx,
                                    mul_dst: *dst,
                                    iv_vreg_id: bivs@[t - 1].vreg_id,
                                    factor: biv_factor(bivs@[t - 1], *lhs, *rhs, cm)->Some_0,
                                    derived: VReg { id: (base + 3 * before_ds.len()) as u32, width: *width },
                                    stride_vreg: VReg { id: (base + 3 * before_ds.len() + 1) as u32, width: *width },
                                    stride: bivs@[t - 1].stride,
                                    iv_def_idx: bivs@[t - 1].def_idx,
                                    width: *width,
                                }),
                        decreases bivs@.len() - t,
                    {
                        let iv = bivs[t].vreg_id;
                        let factor: Option<i64> = if lhs.id == iv {
                            constant_of(&constants, rhs.id)
                        } else if rhs.id == iv {
                            constant_of(&constants, lhs.id)
                        } else {
                            None
                        };
                        match factor {
                            Some(k) => {
                                proof {
                                    assert(basic_iv(body0, h as int, b as int, bivs@[t as int].vreg_id, bivs@[t as int].def_idx as int, bivs@[t as int].stride));
                                }
                                let d = VReg { id: next as u32, width: *width };
                                let sv = VReg { id: (next + 1) as u32, width: *width };
                                next = next + 3;
                                derived.push(DerivedIv {
                                    mul_idx: idx,
                                    mul_dst: *dst,
                                    iv_vreg_id: iv,
                                    factor: k,
                                    derived: d,
                                    stride_vreg: sv,
                                    stride: bivs[t].stride,
                                    iv_def_idx: bivs[t].def_idx,
                                    width: *width,
                                });
                                found = true;
                            },
                            None => {},
                        }
                        t += 1;
                    }
                    proof {
                        if found {
                            lemma_pick_skip(bivs@, *lhs, *rhs, cm, t - 1);
                        } else {
                            lemma_pick_skip(bivs@, *lhs, *rhs, cm, t as int);
                        }
                        assert(derived@ == iv_derived(body0, h as int, idx + 1, cm, bivs@, base as int));
                    }
                },
                _ => {
                    proof {
                        assert(derived@ == iv_derived(body0, h as int, idx + 1, cm, bivs@, base as int));
                    }
                },
            }
            idx += 1;
        }
        if derived.len() == 0 {
            proof {
                assert(iv_plan(body0, h as int, b as int) is None);
            }
            continue;
        }
        proof {
            assert(iv_plan(body0, h as int, b as int) == Some(derived@));
            assert(iv_pick(body0, loops@, li0) == Some(li0));
        }
        // The rewritten body.
        let ghost ds = derived@;
        let ghost kbase = next as int;
        let mut new_body: Vec<IrInstr> = Vec::new();
        let mut i: usize = 0;
        while i < func.body.len()
            invariant
                n == func.body@.len(),
                func.body@ == body0,
                h < b < n,
                i <= n,
                derived@ == ds,
                ds.len() > 0,
                ds.len() <= b - h + 1,
                room == u32::MAX as u64 + 1 - base,
                (b - h) < room / 4,
                kbase == base + 3 * ds.len(),
                next == kbase + (if i > h { ds.len() as int } else { 0int }),
                forall|s: int, t: int| #![trigger ds[s], ds[t]] 0 <= s < t < ds.len() ==> ds[s].mul_idx < ds[t].mul_idx,
                same_body(new_body@, iv_body(body0, h as int, ds, kbase, i as int)),
            decreases n - i,
        {
            let ghost head = if i == h { iv_inits(ds, kbase) } else { Seq::<IrInstr>::empty() };
            proof {
                assert(iv_body(body0, h as int, ds, kbase, i as int) + Seq::<IrInstr>::empty() =~= iv_body(body0, h as int, ds, kbase, i as int));
            }
            if i == h {
                let mut t: usize = 0;
                while t < derived.len()
                    invariant
                        t <= ds.len(),
                        derived@ == ds,
                        ds.len() <= b - h + 1,
                        room == u32::MAX as u64 + 1 - base,
                        (b - h) < room / 4,
                        kbase == base + 3 * ds.len(),
                        next == kbase + t,
                        same_body(new_body@, iv_body(body0, h as int, ds, kbase, i as int) + iv_inits(ds.take(t as int), kbase)),
                    decreases ds.len() - t,
                {
                    let dv = &derived[t];
                    let stride_val = wrap_result(dv.stride.wrapping_mul(dv.factor), dv.width);
                    let k_vreg = VReg { id: next as u32, width: dv.width };
                    let i1 = IrInstr::bare(IrOp::LoadImm { dst: dv.stride_vreg, value: stride_val });
                    let i2 = IrInstr::bare(IrOp::LoadImm { dst: k_vreg, value: wrap_result(dv.factor, dv.width) });
                    let i3 = IrInstr::bare(IrOp::Mul {
                        dst: dv.derived,
                        lhs: VReg { id: dv.iv_vreg_id, width: dv.width },
                        rhs: k_vreg,
                        width: dv.width,
                        signed: true,
                    });
                    let ghost pre = iv_body(body0, h as int, ds, kbase, i as int) + iv_inits(ds.take(t as int), kbase);
                    proof {
                        assert(ds.take(t + 1).drop_last() =~= ds.take(t as int));
                        assert(pre.push(i1).push(i2).push(i3) =~= iv_body(body0, h as int, ds, kbase, i as int) + iv_inits(ds.take(t + 1), kbase));
                        lemma_same_instr_refl(i1);
                        lemma_same_instr_refl(i2);
                        lemma_same_instr_refl(i3);
                        lemma_same_body_push(new_body@, pre, i1, i1);
                        lemma_same_body_push(new_body@.push(i1), pre.push(i1), i2, i2);
                        lemma_same_body_push(new_body@.push(i1).push(i2), pre.push(i1).push(i2), i3, i3);
                    }
                    new_body.push(i1);
                    new_body.push(i2);
                    new_body.push(i3);
                    next = next + 1;
                    t += 1;
                }
                proof {
                    assert(ds.take(ds.len() as int) =~= ds);
                }
            }
            let ghost mid = new_body@;
            let ghost spec_mid = iv_body(body0, h as int, ds, kbase, i as int) + head;
            assert(same_body(mid, spec_mid));
            let mut t: usize = 0;
            let mut replaced = false;
            while t < derived.len() && !replaced
                invariant
                    t <= ds.len(),
                    derived@ == ds,
                    !replaced ==> new_body@ == mid && forall|s: int| 0 <= s < t ==> (#[trigger] ds[s]).mul_idx != i,
                    replaced ==> 1 <= t && ds[t - 1].mul_idx == i && new_body@ == mid.push(
                        IrInstr { op: IrOp::Copy { dst: ds[t - 1].mul_dst, src: ds[t - 1].derived }, line: 0 },
                    ),
                decreases ds.len() - t,
            {
                if derived[t].mul_idx == i {
                    new_body.push(IrInstr::bare(IrOp::Copy { dst: derived[t].mul_dst, src: derived[t].derived }));
                    replaced = true;
                }
                t += 1;
            }
            if replaced {
                proof {
                    let c = IrInstr { op: IrOp::Copy { dst: ds[t - 1].mul_dst, src: ds[t - 1].derived }, line: 0 };
                    assert(replaces_at(ds, i as int));
                    let u = choose|u: int| 0 <= u < ds.len() && (#[trigger] ds[u]).mul_idx == i;
                    if u < t - 1 {
                        assert(ds[u].mul_idx < ds[t - 1].mul_idx);
                    } else if u > t - 1 {
                        assert(ds[t - 1].mul_idx < ds[u].mul_idx);
                    }
                    lemma_same_instr_refl(c);
                    lemma_same_body_push(mid, spec_mid, c, c);
                    assert(spec_mid.push(c) =~= iv_body(body0, h as int, ds, kbase, i + 1));
                }
            } else {
                proof {
                    assert(!replaces_at(ds, i as int));
                }
                let ins = func.body[i].clone();
                proof {
                    lemma_same_body_push(mid, spec_mid, ins, body0[i as int]);
                }
                new_body.push(ins);
                let mut t: usize = 0;
                while t < derived.len()
                    invariant
                        t <= ds.len(),
                        derived@ == ds,
                        same_body(new_body@, spec_mid.push(body0[i as int]) + iv_steps(ds.take(t as int), i as int)),
                    decreases ds.len() - t,
                {
                    let dv = &derived[t];
                    let ghost pre = spec_mid.push(body0[i as int]) + iv_steps(ds.take(t as int), i as int);
                    proof {
                        assert(ds.take(t + 1).drop_last() =~= ds.take(t as int));
                    }
                    if i == dv.iv_def_idx {
                        let step = IrInstr::bare(IrOp::Add { dst: dv.derived, lhs: dv.derived, rhs: dv.stride_vreg, width: dv.width });
                        proof {
                            lemma_same_instr_refl(step);
                            lemma_same_body_push(new_body@, pre, step, step);
                            assert(pre.push(step) =~= spec_mid.push(body0[i as int]) + iv_steps(ds.take(t + 1), i as int));
                        }
                        new_body.push(step);
                    } else {
                        proof {
                            assert(pre =~= spec_mid.push(body0[i as int]) + iv_steps(ds.take(t + 1), i as int));
                        }
                    }
                    t += 1;
                }
                proof {
                    assert(ds.take(ds.len() as int) =~= ds);
                    assert(spec_mid.push(body0[i as int]) + iv_steps(ds, i as int) =~= iv_body(body0, h as int, ds, kbase, i + 1));
                }
            }
            i += 1;
        }
        func.body = new_body;
        changed = true;
        proof {
            assert(iv_rewritten(body0, h as int, b as int, ds, base as int, func.body@));
            assert(iv_result(body0) == Some(iv_body(body0, h as int, ds, kbase, n as int)));
        }
    }
    changed
}

} // verus!
