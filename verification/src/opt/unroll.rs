//! Full unrolling of small counted loops whose header is marked for it.

use vstd::prelude::*;

use crate::ir::{IrFunction, IrInstr, IrOp, Label, Width, same_body, same_instr, lemma_same_instr_refl};
use crate::maps::{AssocMap, IdSet};
use crate::opt::arith::{sign_extend, spec_sign_extend, spec_wrap, to_unsigned};
use crate::opt::basic::same_header;
use crate::opt::local::label_slots;
use crate::opt::loops::{find_loops, ids_below, is_loop, label_positions, natural_loops, vreg_bound, vreg_id_bound};
use crate::opt::simplify::{imm_constants, imm_map};
use crate::opt::ops::{get_any_dst, collect_src_vregs, ids_of, op_dst, op_srcs};
use crate::opt::remap::{covered, lemma_renamed_grows, remap_op, renamed};

verus! {

/// Largest static trip count that is unrolled.
pub const UNROLL_MAX_TRIPS: u64 = 16;

/// Largest number of body instructions that is unrolled.
pub const UNROLL_MAX_BODY: usize = 30;

/// The step of the last `Add`/`Sub` defining `target_id` in
/// `body[start..end]`, when its right operand is a known constant (negated
/// for `Sub`), and the id of its left operand (see [`add_stride`]).
pub fn find_add_stride(body: &Vec<IrInstr>, start: usize, end: usize, target_id: u32, constants: &AssocMap<u32, i64>) -> (r: Option<(i128, u32)>)
    requires
        start <= end <= body@.len(),
        constants.wf(),
    ensures
        r == add_stride(body@, start as int, end as int, target_id, constants@),
        r is Some ==> -0x1_0000_0000_0000_0000i128 < r.unwrap().0 < 0x1_0000_0000_0000_0000i128,
{
    let mut k: usize = end;
    while k > start
        invariant
            start <= k <= end,
            end <= body@.len(),
            constants.wf(),
            add_stride(body@, start as int, k as int, target_id, constants@) == add_stride(body@, start as int, end as int, target_id, constants@),
        decreases k - start,
    {
        k -= 1;
        match &body[k].op {
            IrOp::Add { dst, lhs, rhs, .. } => {
                if dst.id == target_id {
                    match constants.get(&rhs.id) {
                        Some(c) => {
                            return Some((*c as i128, lhs.id));
                        },
                        None => {
                            return None;
                        },
                    }
                }
            },
            IrOp::Sub { dst, lhs, rhs, .. } => {
                if dst.id == target_id {
                    match constants.get(&rhs.id) {
                        Some(c) => {
                            return Some((-(*c as i128), lhs.id));
                        },
                        None => {
                            return None;
                        },
                    }
                }
            },
            _ => {},
        }
    }
    None
}

/// Where the induction variable of a counted loop lives.
pub enum IvKind {
    Ssa,
    Local(i32),
    Global(String),
}

/// Append copies of `body[from..to]`.
fn push_copies(out: &mut Vec<IrInstr>, body: &Vec<IrInstr>, from: usize, to: usize)
    requires
        from <= to <= body@.len(),
    ensures
        final(out)@.len() == old(out)@.len() + (to - from),
        forall|k: int| 0 <= k < old(out)@.len() ==> final(out)@[k] == old(out)@[k],
        forall|k: int| 0 <= k < to - from ==> #[trigger] same_instr(final(out)@[old(out)@.len() + k], body@[from + k]),
        final(out)@ == old(out)@ + final(out)@.skip(old(out)@.len() as int),
        same_body(final(out)@.skip(old(out)@.len() as int), body@.subrange(from as int, to as int)),
{
    let ghost o0 = out@;
    let mut i: usize = from;
    while i < to
        invariant
            from <= i <= to,
            to <= body@.len(),
            out@.len() == o0.len() + (i - from),
            forall|k: int| 0 <= k < o0.len() ==> out@[k] == o0[k],
            forall|k: int| 0 <= k < i - from ==> #[trigger] same_instr(out@[o0.len() + k], body@[from + k]),
        decreases to - i,
    {
        out.push(body[i].clone());
        i += 1;
    }
    proof {
        assert(out@ =~= o0 + out@.skip(o0.len() as int));
        assert forall|k: int| 0 <= k < to - from implies #[trigger] same_instr(out@.skip(o0.len() as int)[k], body@.subrange(from as int, to as int)[k]) by {
            assert(same_instr(out@[o0.len() + k], body@[from + k]));
        }
    }
}

/// Every label that the body places has an id below `r`.
pub open spec fn labels_below(body: Seq<IrInstr>, r: int) -> bool {
    forall|i: int| 0 <= i < body.len() ==> ((#[trigger] body[i]).op matches IrOp::Label { label } ==> label.0 < r)
}

/// One past the largest label id that a body places, as a wide number.
fn label_id_bound(body: &Vec<IrInstr>) -> (r: u64)
    ensures
        r <= u32::MAX as u64 + 1,
        labels_below(body@, r as int),
        forall|l: int| l >= 0 && #[trigger] labels_below(body@, l) ==> r <= l,
{
    let mut m: u64 = 0;
    let mut i: usize = 0;
    while i < body.len()
        invariant
            i <= body@.len(),
            m <= u32::MAX as u64 + 1,
            forall|k: int| 0 <= k < i ==> ((#[trigger] body@[k]).op matches IrOp::Label { label } ==> label.0 < m),
            m == 0 || exists|k: int| 0 <= k < i && (#[trigger] body@[k]).op == (IrOp::Label { label: Label((m - 1) as u32) }),
        decreases body@.len() - i,
    {
        match &body[i].op {
            IrOp::Label { label } => {
                if label.0 as u64 >= m {
                    m = label.0 as u64 + 1;
                    proof {
                        assert(body@[i as int].op == (IrOp::Label { label: Label((m - 1) as u32) }));
                    }
                }
            },
            _ => {},
        }
        i += 1;
    }
    proof {
        assert forall|l: int| l >= 0 && #[trigger] labels_below(body@, l) implies m <= l by {
            if m > 0 {
                let k = choose|k: int| 0 <= k < i && (#[trigger] body@[k]).op == (IrOp::Label { label: Label((m - 1) as u32) });
                assert(body@[k].op matches IrOp::Label { label } ==> label.0 < l);
            }
        }
    }
    m
}

/// The vreg `x` is read in `body[s..b]` and written nowhere there.
pub open spec fn reads_outside(body: Seq<IrInstr>, s: int, b: int, x: u32) -> bool {
    &&& exists|j: int| s <= j < b && #[trigger] ids_of(op_srcs(body[j].op)).contains(x)
    &&& forall|j: int| s <= j < b ==> !(op_dst((#[trigger] body[j]).op) matches Some(d) && d.id == x)
}

/// `blk` is `src` with every operation renamed through `vm` and `lm`, and
/// the lines kept.
pub open spec fn renamed_copy(src: Seq<IrInstr>, blk: Seq<IrInstr>, vm: Map<u32, u32>, lm: Map<u32, u32>) -> bool {
    &&& blk.len() == src.len()
    &&& forall|j: int| 0 <= j < src.len() ==> #[trigger] renamed(src[j].op, blk[j].op, vm, lm) && blk[j].line == src[j].line
}

/// The renaming of a later copy of `body[s..b]`: vregs read from outside
/// the range (and `keep`) keep their ids, every other vreg gets an id at
/// or above `vb`, and every label one at or above `lb`.
pub open spec fn unroll_renaming(body: Seq<IrInstr>, s: int, b: int, vm: Map<u32, u32>, lm: Map<u32, u32>, vb: int, lb: int, keep: Option<u32>) -> bool {
    &&& forall|x: u32| #[trigger] reads_outside(body, s, b, x) ==> vm.contains_key(x) && vm[x] == x
    &&& (keep matches Some(x) ==> vm.contains_key(x) && vm[x] == x)
    &&& forall|x: u32| #[trigger] vm.contains_key(x) && !reads_outside(body, s, b, x) && keep != Some(x) ==> vb <= vm[x]
    &&& forall|l: u32| #[trigger] lm.contains_key(l) ==> lb <= lm[l]
}

/// The blocks one after another.
pub open spec fn concat_all(blocks: Seq<Seq<IrInstr>>) -> Seq<IrInstr>
    decreases blocks.len(),
{
    if blocks.len() == 0 {
        Seq::empty()
    } else {
        concat_all(blocks.drop_last()) + blocks.last()
    }
}

/// The destination, left and right operand ids of an ordering comparison.
pub open spec fn order_test(op: IrOp) -> Option<(u32, u32, u32)> {
    match op {
        IrOp::Lt { dst, lhs, rhs, .. } | IrOp::Le { dst, lhs, rhs, .. } | IrOp::Gt { dst, lhs, rhs, .. }
        | IrOp::Ge { dst, lhs, rhs, .. } => Some((dst.id, lhs.id, rhs.id)),
        _ => None,
    }
}

/// Every body is the same as itself.
proof fn lemma_same_body_refl(a: Seq<IrInstr>)
    ensures
        same_body(a, a),
{
    assert forall|i: int| 0 <= i < a.len() implies #[trigger] same_instr(a[i], a[i]) by {
        lemma_same_instr_refl(a[i]);
    }
}

/// Pairwise the same, piece by piece.
proof fn lemma_same_body_concat(a: Seq<IrInstr>, x: Seq<IrInstr>, b: Seq<IrInstr>, y: Seq<IrInstr>)
    requires
        same_body(a, x),
        same_body(b, y),
    ensures
        same_body(a + b, x + y),
{
    assert forall|i: int| 0 <= i < a.len() + b.len() implies #[trigger] same_instr((a + b)[i], (x + y)[i]) by {
        if i < a.len() {
            assert(same_instr(a[i], x[i]));
        } else {
            assert(same_instr(b[i - a.len()], y[i - a.len()]));
        }
    }
}

proof fn lemma_trips_le(diff: int, step: int)
    requires
        diff > 0,
        step > 0,
    ensures
        0 <= (diff + step - 1) / step <= diff,
{
    assert((diff + step - 1) / step <= diff) by (nonlinear_arith)
        requires
            diff > 0,
            step > 0,
    ;
    assert((diff + step - 1) / step >= 0) by (nonlinear_arith)
        requires
            diff > 0,
            step > 0,
    ;
}

/// The number of iterations of a counted loop from `init` to `limit` (both
/// taken as 16-bit values) with the given step, or `None` when the step
/// goes the wrong way.
pub fn trip_count(init: i64, limit: i64, stride: i128, is_lt: bool, signed: bool) -> (r: Option<u64>)
    requires
        -0x1_0000_0000_0000_0000i128 < stride < 0x1_0000_0000_0000_0000i128,
    ensures
        match spec_trip_count(init, limit, stride, is_lt, signed) {
            Some(t) => 0 <= t <= u64::MAX && r == Some(t as u64),
            None => r is None,
        },
{
    let (a, b) = if is_lt { (limit, init) } else { (init, limit) };
    let diff: i128 = if signed {
        sign_extend(a, Width::W16) as i128 - sign_extend(b, Width::W16) as i128
    } else {
        to_unsigned(a, Width::W16) as i128 - to_unsigned(b, Width::W16) as i128
    };
    let step: i128 = if is_lt { stride } else { -stride };
    if step <= 0 {
        return None;
    }
    if diff <= 0 {
        Some(0)
    } else {
        let t = (diff + step - 1) / step;
        proof {
            lemma_trips_le(diff as int, step as int);
        }
        Some(t as u64)
    }
}

/// The first `JumpIfFalse` at or after `x` and before `b`, or `b`.
pub open spec fn first_jif(body: Seq<IrInstr>, x: int, b: int) -> int
    decreases b - x,
{
    if x >= b {
        b
    } else if body[x].op is JumpIfFalse {
        x
    } else {
        first_jif(body, x + 1, b)
    }
}

/// The last ordering comparison among the positions `lo..x`.
pub open spec fn last_test(body: Seq<IrInstr>, lo: int, x: int) -> Option<int>
    decreases x - lo,
{
    if x <= lo {
        None
    } else if order_test(body[x - 1].op) is Some {
        Some(x - 1)
    } else {
        last_test(body, lo, x - 1)
    }
}

/// The induction variable, the limit, the direction and the signedness of
/// a comparison that computes `cond` against a constant.
pub open spec fn test_info(op: IrOp, cond: u32, c: Map<u32, i64>) -> Option<(u32, i64, bool, bool)> {
    match op {
        IrOp::Lt { dst, lhs, rhs, signed, .. } => if dst.id == cond && c.contains_key(rhs.id) {
            Some((lhs.id, c[rhs.id], true, signed))
        } else {
            None
        },
        IrOp::Le { dst, lhs, rhs, signed, .. } => if dst.id == cond && c.contains_key(rhs.id) {
            Some((lhs.id, vstd::wrapping::i64_specs::wrapping_add(c[rhs.id], 1i64), true, signed))
        } else {
            None
        },
        IrOp::Gt { dst, lhs, rhs, signed, .. } => if dst.id == cond && c.contains_key(rhs.id) {
            Some((lhs.id, c[rhs.id], false, signed))
        } else {
            None
        },
        IrOp::Ge { dst, lhs, rhs, signed, .. } => if dst.id == cond && c.contains_key(rhs.id) {
            Some((lhs.id, vstd::wrapping::i64_specs::wrapping_sub(c[rhs.id], 1i64), false, signed))
        } else {
            None
        },
        _ => None,
    }
}

/// Some constant load before `h` writes `iv`.
pub open spec fn imm_before(body: Seq<IrInstr>, iv: u32, h: int) -> bool {
    exists|k: int| 0 <= k < h && ((#[trigger] body[k]).op matches IrOp::LoadImm { dst, .. } && dst.id == iv)
}

/// The last load of `iv` from a local slot or a global among `lo..x`.
pub open spec fn iv_source(body: Seq<IrInstr>, lo: int, x: int, iv: u32) -> Option<IvKind>
    decreases x - lo,
{
    if x <= lo {
        None
    } else {
        match body[x - 1].op {
            IrOp::LoadLocal { dst, offset } => if dst.id == iv { Some(IvKind::Local(offset)) } else { iv_source(body, lo, x - 1, iv) },
            IrOp::LoadGlobal { dst, addr_label } => if dst.id == iv { Some(IvKind::Global(addr_label)) } else { iv_source(body, lo, x - 1, iv) },
            _ => iv_source(body, lo, x - 1, iv),
        }
    }
}

/// The constant that the last store to local slot `off` of a known
/// constant before `x` writes.
pub open spec fn init_local(body: Seq<IrInstr>, off: i32, c: Map<u32, i64>, x: int) -> Option<i64>
    decreases x,
{
    if x <= 0 {
        None
    } else {
        match body[x - 1].op {
            IrOp::StoreLocal { offset, src } => if offset == off && c.contains_key(src.id) { Some(c[src.id]) } else { init_local(body, off, c, x - 1) },
            _ => init_local(body, off, c, x - 1),
        }
    }
}

/// The constant that the last store to global `lbl` of a known constant
/// before `x` writes.
pub open spec fn init_global(body: Seq<IrInstr>, lbl: Seq<char>, c: Map<u32, i64>, x: int) -> Option<i64>
    decreases x,
{
    if x <= 0 {
        None
    } else {
        match body[x - 1].op {
            IrOp::StoreGlobal { addr_label, src } => if addr_label@ == lbl && c.contains_key(src.id) { Some(c[src.id]) } else { init_global(body, lbl, c, x - 1) },
            _ => init_global(body, lbl, c, x - 1),
        }
    }
}

/// The initial value and home of the induction variable `iv` of the loop
/// headed at `h` and tested at `t`.
pub open spec fn iv_init(body: Seq<IrInstr>, c: Map<u32, i64>, h: int, t: int, iv: u32) -> Option<(i64, IvKind)> {
    if c.contains_key(iv) {
        if imm_before(body, iv, h) { Some((c[iv], IvKind::Ssa)) } else { None }
    } else {
        match iv_source(body, h + 1, t, iv) {
            Some(IvKind::Local(off)) => match init_local(body, off, c, h) {
                Some(v) => Some((v, IvKind::Local(off))),
                None => None,
            },
            Some(IvKind::Global(l)) => match init_global(body, l@, c, h) {
                Some(v) => Some((v, IvKind::Global(l))),
                None => None,
            },
            _ => None,
        }
    }
}

/// The last store to the home of the induction variable among `lo..x`.
pub open spec fn last_store(body: Seq<IrInstr>, lo: int, x: int, kind: IvKind) -> Option<int>
    decreases x - lo,
{
    if x <= lo {
        None
    } else {
        match (body[x - 1].op, kind) {
            (IrOp::StoreLocal { offset, .. }, IvKind::Local(off)) => if offset == off { Some(x - 1) } else { last_store(body, lo, x - 1, kind) },
            (IrOp::StoreGlobal { addr_label, .. }, IvKind::Global(l)) => if addr_label@ == l@ { Some(x - 1) } else { last_store(body, lo, x - 1, kind) },
            _ => last_store(body, lo, x - 1, kind),
        }
    }
}

/// The step of the last `Add`/`Sub` writing `target` among `lo..x`, and its
/// left operand, when its right operand is a known constant.
pub open spec fn add_stride(body: Seq<IrInstr>, lo: int, x: int, target: u32, c: Map<u32, i64>) -> Option<(i128, u32)>
    decreases x - lo,
{
    if x <= lo {
        None
    } else {
        match body[x - 1].op {
            IrOp::Add { dst, lhs, rhs, .. } => if dst.id == target {
                if c.contains_key(rhs.id) { Some((c[rhs.id] as i128, lhs.id)) } else { None }
            } else {
                add_stride(body, lo, x - 1, target, c)
            },
            IrOp::Sub { dst, lhs, rhs, .. } => if dst.id == target {
                if c.contains_key(rhs.id) { Some(((-(c[rhs.id] as int)) as i128, lhs.id)) } else { None }
            } else {
                add_stride(body, lo, x - 1, target, c)
            },
            _ => add_stride(body, lo, x - 1, target, c),
        }
    }
}

/// The last load of `v` from the home of the induction variable among
/// `lo..x`.
pub open spec fn last_load(body: Seq<IrInstr>, lo: int, x: int, v: u32, kind: IvKind) -> Option<int>
    decreases x - lo,
{
    if x <= lo {
        None
    } else {
        match (body[x - 1].op, kind) {
            (IrOp::LoadLocal { dst, offset }, IvKind::Local(off)) => if dst.id == v && offset == off { Some(x - 1) } else { last_load(body, lo, x - 1, v, kind) },
            (IrOp::LoadGlobal { dst, addr_label }, IvKind::Global(l)) => if dst.id == v && addr_label@ == l@ { Some(x - 1) } else { last_load(body, lo, x - 1, v, kind) },
            _ => last_load(body, lo, x - 1, v, kind),
        }
    }
}

/// The step of the induction variable and where its increment starts.
pub open spec fn stride_info(body: Seq<IrInstr>, c: Map<u32, i64>, kind: IvKind, iv: u32, exit: int, b: int) -> Option<(i128, int)> {
    match kind {
        IvKind::Ssa => match body[b - 1].op {
            IrOp::Add { dst, lhs, rhs, .. } => if dst.id == iv && lhs.id == iv && c.contains_key(rhs.id) {
                Some((c[rhs.id] as i128, b - 1))
            } else {
                None
            },
            IrOp::Sub { dst, lhs, rhs, .. } => if dst.id == iv && lhs.id == iv && c.contains_key(rhs.id) {
                Some(((-(c[rhs.id] as i128)) as i128, b - 1))
            } else {
                None
            },
            _ => None,
        },
        _ => match last_store(body, exit + 1, b, kind) {
            None => None,
            Some(si) => match body[si].op {
                IrOp::StoreLocal { src, .. } | IrOp::StoreGlobal { src, .. } => match add_stride(body, exit + 1, si, src.id, c) {
                    None => None,
                    Some((s, l)) => Some((s, match last_load(body, exit + 1, si + 1, l, kind) {
                        Some(li) => li,
                        None => si,
                    })),
                },
                _ => None,
            },
        },
    }
}

/// The number of iterations of a counted loop from `init` to `limit` (both
/// taken as 16-bit values) with the given step, or `None` when the step
/// goes the wrong way.
pub open spec fn spec_trip_count(init: i64, limit: i64, stride: i128, is_lt: bool, signed: bool) -> Option<int> {
    let (a, b) = if is_lt { (limit, init) } else { (init, limit) };
    let diff = if signed {
        spec_sign_extend(a as int, Width::W16) - spec_sign_extend(b as int, Width::W16)
    } else {
        spec_wrap(a as int, Width::W16) - spec_wrap(b as int, Width::W16)
    };
    let step: int = if is_lt { stride as int } else { -(stride as int) };
    if step <= 0 {
        None
    } else if diff <= 0 {
        Some(0)
    } else {
        Some((diff + step - 1) / step)
    }
}

/// The unrolling of the loop `h..=b`: the exit branch, the comparison, the
/// induction variable, the trip count and the range copied, when the loop
/// is a marked counted loop small enough to unroll.
pub struct UnrollPlan {
    pub exit_idx: usize,
    pub test_idx: usize,
    pub exit_label: u32,
    pub iv_id: u32,
    pub is_ssa: bool,
    pub trips: u64,
    pub body_start: usize,
    pub body_end: usize,
}

/// The plan for unrolling the loop `h..=b` of `body` (see [`UnrollPlan`]),
/// with `c` the constants loaded in the body.
pub open spec fn unroll_plan(body: Seq<IrInstr>, headers: Seq<Label>, c: Map<u32, i64>, h: int, b: int) -> Option<UnrollPlan> {
    if !(body[h].op matches IrOp::Label { label } && headers.contains(label)) || b - h < 3 {
        None
    } else {
        let exit = first_jif(body, h + 1, b);
        if exit >= b {
            None
        } else {
            match body[exit].op {
                IrOp::JumpIfFalse { cond, target } => match last_test(body, h + 1, exit) {
                    None => None,
                    Some(t) => match test_info(body[t].op, cond.id, c) {
                        None => None,
                        Some((iv, limit, is_lt, signed)) => match iv_init(body, c, h, t, iv) {
                            None => None,
                            Some((init, kind)) => match stride_info(body, c, kind, iv, exit, b) {
                                None => None,
                                Some((stride, inc)) => if stride == 0 {
                                    None
                                } else {
                                    match spec_trip_count(init, limit, stride, is_lt, signed) {
                                        None => None,
                                        Some(trips) => if trips == 0 || trips > UNROLL_MAX_TRIPS
                                            || inc <= exit + 1 || inc - (exit + 1) > UNROLL_MAX_BODY {
                                            None
                                        } else {
                                            Some(UnrollPlan {
                                                exit_idx: exit as usize,
                                                test_idx: t as usize,
                                                exit_label: target.0,
                                                iv_id: iv,
                                                is_ssa: kind is Ssa,
                                                trips: trips as u64,
                                                body_start: (exit + 1) as usize,
                                                body_end: inc as usize,
                                            })
                                        },
                                    }
                                },
                            },
                        },
                    },
                },
                _ => None,
            }
        }
    }
}

/// The plan for unrolling the loop `h..=b` (see [`unroll_plan`]).
#[verifier::rlimit(100)]
fn plan_loop(body: &Vec<IrInstr>, headers: &IdSet, constants: &AssocMap<u32, i64>, h: usize, b: usize,
    Ghost(hdrs): Ghost<Seq<Label>>) -> (r: Option<UnrollPlan>)
    requires
        h < b < body@.len(),
        headers.wf(),
        constants.wf(),
        forall|id: u32| #[trigger] headers@.contains_key(id) <==> hdrs.contains(Label(id)),
    ensures
        r == unroll_plan(body@, hdrs, constants@, h as int, b as int),
        r is Some ==> h + 1 < r->Some_0.body_start <= b && 1 <= r->Some_0.trips <= UNROLL_MAX_TRIPS,
{
    let ghost c = constants@;
    let header_id: u32 = match &body[h].op {
        IrOp::Label { label } => label.0,
        _ => {
            return None;
        },
    };
    proof {
        assert(body@[h as int].op == (IrOp::Label { label: Label(header_id) }));
    }
    if !headers.contains_key(&header_id) || b - h < 3 {
        return None;
    }
    // The exit branch: the first JumpIfFalse after the header.
    let mut exit_idx: usize = h + 1;
    let mut at_exit = false;
    while exit_idx < b && !at_exit
        invariant
            h < exit_idx <= b,
            b < body@.len(),
            first_jif(body@, exit_idx as int, b as int) == first_jif(body@, h + 1, b as int),
            at_exit ==> exit_idx < b && body@[exit_idx as int].op is JumpIfFalse,
        decreases b - exit_idx + (if at_exit { 0int } else { 1int }),
    {
        let is_exit = match &body[exit_idx].op {
            IrOp::JumpIfFalse { .. } => true,
            _ => false,
        };
        if is_exit {
            at_exit = true;
        } else {
            exit_idx += 1;
        }
    }
    assert(first_jif(body@, exit_idx as int, b as int) == exit_idx as int);
    assert(exit_idx as int == first_jif(body@, h + 1, b as int));
    if exit_idx >= b {
        return None;
    }
    let (cond_id, exit_label) = match &body[exit_idx].op {
        IrOp::JumpIfFalse { cond, target } => (cond.id, target.0),
        _ => {
            return None;
        },
    };
    // The comparison: the last Lt/Le/Gt/Ge between the header and the exit.
    let mut test_idx: usize = exit_idx;
    let mut found_test = false;
    while test_idx > h + 1 && !found_test
        invariant
            h + 1 <= test_idx <= exit_idx,
            exit_idx < b < body@.len(),
            !found_test ==> last_test(body@, h + 1, test_idx as int) == last_test(body@, h + 1, exit_idx as int),
            found_test ==> last_test(body@, h + 1, exit_idx as int) == Some(test_idx as int),
        decreases test_idx + (if found_test { 0int } else { 1int }),
    {
        let is_test = match &body[test_idx - 1].op {
            IrOp::Lt { .. } | IrOp::Le { .. } | IrOp::Gt { .. } | IrOp::Ge { .. } => true,
            _ => false,
        };
        if is_test {
            found_test = true;
        }
        test_idx -= 1;
    }
    if !found_test {
        return None;
    }
    let (iv_id, limit_val, is_lt, is_signed): (u32, i64, bool, bool) = match &body[test_idx].op {
        IrOp::Lt { dst, lhs, rhs, signed, .. } => {
            if dst.id != cond_id {
                return None;
            }
            match constants.get(&rhs.id) {
                Some(l) => (lhs.id, *l, true, *signed),
                None => {
                    return None;
                },
            }
        },
        IrOp::Le { dst, lhs, rhs, signed, .. } => {
            if dst.id != cond_id {
                return None;
            }
            match constants.get(&rhs.id) {
                Some(l) => (lhs.id, l.wrapping_add(1), true, *signed),
                None => {
                    return None;
                },
            }
        },
        IrOp::Gt { dst, lhs, rhs, signed, .. } => {
            if dst.id != cond_id {
                return None;
            }
            match constants.get(&rhs.id) {
                Some(l) => (lhs.id, *l, false, *signed),
                None => {
                    return None;
                },
            }
        },
        IrOp::Ge { dst, lhs, rhs, signed, .. } => {
            if dst.id != cond_id {
                return None;
            }
            match constants.get(&rhs.id) {
                Some(l) => (lhs.id, l.wrapping_sub(1), false, *signed),
                None => {
                    return None;
                },
            }
        },
        _ => {
            return None;
        },
    };
    assert(test_info(body@[test_idx as int].op, cond_id, c) == Some((iv_id, limit_val, is_lt, is_signed)));
    // Initial value and home of the induction variable.
    let (init_val, kind): (i64, IvKind) = match constants.get(&iv_id) {
        Some(v) => {
            let mut before = false;
            let mut k: usize = 0;
            while k < h
                invariant
                    k <= h < body@.len(),
                    before == exists|j: int| 0 <= j < k && ((#[trigger] body@[j]).op matches IrOp::LoadImm { dst, .. } && dst.id == iv_id),
                decreases h - k,
            {
                match &body[k].op {
                    IrOp::LoadImm { dst, .. } => {
                        if dst.id == iv_id {
                            before = true;
                        }
                    },
                    _ => {},
                }
                k += 1;
            }
            if !before {
                return None;
            }
            (*v, IvKind::Ssa)
        },
        None => {
            let mut source: Option<IvKind> = None;
            let mut k: usize = test_idx;
            while k > h + 1 && source.is_none()
                invariant
                    h + 1 <= k <= test_idx,
                    test_idx < body@.len(),
                    source is None ==> iv_source(body@, h + 1, k as int, iv_id) == iv_source(body@, h + 1, test_idx as int, iv_id),
                    source is Some ==> iv_source(body@, h + 1, test_idx as int, iv_id) == source,
                decreases k,
            {
                k -= 1;
                match &body[k].op {
                    IrOp::LoadLocal { dst, offset } => {
                        if dst.id == iv_id {
                            source = Some(IvKind::Local(*offset));
                        }
                    },
                    IrOp::LoadGlobal { dst, addr_label } => {
                        if dst.id == iv_id {
                            source = Some(IvKind::Global(addr_label.clone()));
                        }
                    },
                    _ => {},
                }
            }
            match source {
                None => {
                    return None;
                },
                Some(IvKind::Ssa) => {
                    return None;
                },
                Some(IvKind::Local(off)) => {
                    let mut init: Option<i64> = None;
                    let mut k: usize = h;
                    while k > 0 && init.is_none()
                        invariant
                            k <= h,
                            h < body@.len(),
                            constants.wf(),
                            c == constants@,
                            init is None ==> init_local(body@, off, c, k as int) == init_local(body@, off, c, h as int),
                            init is Some ==> init_local(body@, off, c, h as int) == init,
                        decreases k,
                    {
                        k -= 1;
                        match &body[k].op {
                            IrOp::StoreLocal { offset, src } => {
                                if *offset == off {
                                    match constants.get(&src.id) {
                                        Some(cv) => {
                                            init = Some(*cv);
                                        },
                                        None => {},
                                    }
                                }
                            },
                            _ => {},
                        }
                    }
                    match init {
                        Some(v) => (v, IvKind::Local(off)),
                        None => {
                            return None;
                        },
                    }
                },
                Some(IvKind::Global(lbl)) => {
                    let mut init: Option<i64> = None;
                    let mut k: usize = h;
                    while k > 0 && init.is_none()
                        invariant
                            k <= h,
                            h < body@.len(),
                            constants.wf(),
                            c == constants@,
                            init is None ==> init_global(body@, lbl@, c, k as int) == init_global(body@, lbl@, c, h as int),
                            init is Some ==> init_global(body@, lbl@, c, h as int) == init,
                        decreases k,
                    {
                        k -= 1;
                        match &body[k].op {
                            IrOp::StoreGlobal { addr_label, src } => {
                                if *addr_label == lbl {
                                    match constants.get(&src.id) {
                                        Some(cv) => {
                                            init = Some(*cv);
                                        },
                                        None => {},
                                    }
                                }
                            },
                            _ => {},
                        }
                    }
                    match init {
                        Some(v) => (v, IvKind::Global(lbl)),
                        None => {
                            return None;
                        },
                    }
                },
            }
        },
    };
    assert(iv_init(body@, c, h as int, test_idx as int, iv_id) == Some((init_val, kind)));
    // The step of the induction variable and where the increment starts.
    let (stride, inc_start): (i128, usize) = match &kind {
        IvKind::Ssa => {
            let inc_idx = b - 1;
            let s: i128 = match &body[inc_idx].op {
                IrOp::Add { dst, lhs, rhs, .. } => {
                    if dst.id != iv_id || lhs.id != iv_id {
                        return None;
                    }
                    match constants.get(&rhs.id) {
                        Some(cv) => *cv as i128,
                        None => {
                            return None;
                        },
                    }
                },
                IrOp::Sub { dst, lhs, rhs, .. } => {
                    if dst.id != iv_id || lhs.id != iv_id {
                        return None;
                    }
                    match constants.get(&rhs.id) {
                        Some(cv) => -(*cv as i128),
                        None => {
                            return None;
                        },
                    }
                },
                _ => {
                    return None;
                },
            };
            (s, inc_idx)
        },
        _ => {
            let mut store_idx: usize = b;
            let mut found = false;
            while store_idx > exit_idx + 1 && !found
                invariant
                    exit_idx + 1 <= store_idx <= b,
                    b < body@.len(),
                    !found ==> last_store(body@, exit_idx + 1, store_idx as int, kind) == last_store(body@, exit_idx + 1, b as int, kind),
                    found ==> last_store(body@, exit_idx + 1, b as int, kind) == Some(store_idx as int) && store_idx < b,
                decreases store_idx + (if found { 0int } else { 1int }),
            {
                let hit = match (&body[store_idx - 1].op, &kind) {
                    (IrOp::StoreLocal { offset, .. }, IvKind::Local(off)) => *offset == *off,
                    (IrOp::StoreGlobal { addr_label, .. }, IvKind::Global(l)) => *addr_label == *l,
                    _ => false,
                };
                if hit {
                    found = true;
                }
                store_idx -= 1;
            }
            if !found {
                return None;
            }
            let v_inc = match &body[store_idx].op {
                IrOp::StoreLocal { src, .. } => src.id,
                IrOp::StoreGlobal { src, .. } => src.id,
                _ => {
                    return None;
                },
            };
            let (s, lhs_id) = match find_add_stride(body, exit_idx + 1, store_idx, v_inc, constants) {
                Some(p) => p,
                None => {
                    return None;
                },
            };
            let mut load_idx: usize = store_idx + 1;
            let mut found_load = false;
            while load_idx > exit_idx + 1 && !found_load
                invariant
                    exit_idx + 1 <= load_idx <= store_idx + 1,
                    store_idx < b < body@.len(),
                    !found_load ==> last_load(body@, exit_idx + 1, load_idx as int, lhs_id, kind)
                        == last_load(body@, exit_idx + 1, store_idx + 1, lhs_id, kind),
                    found_load ==> last_load(body@, exit_idx + 1, store_idx + 1, lhs_id, kind) == Some(load_idx as int),
                decreases load_idx + (if found_load { 0int } else { 1int }),
            {
                let hit = match (&body[load_idx - 1].op, &kind) {
                    (IrOp::LoadLocal { dst, offset }, IvKind::Local(off)) => dst.id == lhs_id && *offset == *off,
                    (IrOp::LoadGlobal { dst, addr_label }, IvKind::Global(l)) => dst.id == lhs_id && *addr_label == *l,
                    _ => false,
                };
                if hit {
                    found_load = true;
                }
                load_idx -= 1;
            }
            (s, if found_load { load_idx } else { store_idx })
        },
    };
    assert(stride_info(body@, c, kind, iv_id, exit_idx as int, b as int) == Some((stride, inc_start as int)));
    assert(-0x1_0000_0000_0000_0000i128 < stride < 0x1_0000_0000_0000_0000i128);
    if stride == 0 {
        return None;
    }
    let trips = match trip_count(init_val, limit_val, stride, is_lt, is_signed) {
        Some(t) => t,
        None => {
            return None;
        },
    };
    if trips == 0 || trips > UNROLL_MAX_TRIPS {
        return None;
    }
    let body_start = exit_idx + 1;
    let body_end = inc_start;
    if body_end <= body_start || body_end - body_start > UNROLL_MAX_BODY {
        return None;
    }
    let is_ssa = match &kind {
        IvKind::Ssa => true,
        _ => false,
    };
    Some(UnrollPlan { exit_idx, test_idx, exit_label, iv_id, is_ssa, trips, body_start, body_end })
}

/// The first of the natural loops of `body`, from the `k`-th on, that has
/// an unrolling plan, with its index among them.
pub open spec fn unroll_site(body: Seq<IrInstr>, headers: Seq<Label>, k: int) -> Option<(int, UnrollPlan)>
    decreases natural_loops(body, false).len() - k,
{
    let loops = natural_loops(body, false);
    if k < 0 || k >= loops.len() {
        None
    } else {
        match unroll_plan(body, headers, imm_map(body, body.len() as int), loops[k].0 as int, loops[k].1 as int) {
            Some(p) => Some((k, p)),
            None => unroll_site(body, headers, k + 1),
        }
    }
}

/// The fresh vreg ids that one renamed copy of `body[s..k]` may take: one
/// more than the number of operands of each instruction.
pub open spec fn copy_cost(body: Seq<IrInstr>, s: int, k: int) -> nat
    decreases k - s,
{
    if k <= s {
        0
    } else {
        copy_cost(body, s, k - 1) + op_srcs(body[k - 1].op).len() + 1
    }
}

/// The ids above those of `body` suffice for the largest unrolling.
pub open spec fn unroll_room(body: Seq<IrInstr>) -> bool {
    &&& vreg_bound(body) + UNROLL_MAX_TRIPS * copy_cost(body, 0, body.len() as int) + 2 < u32::MAX
    &&& exists|l: int| l >= 0 && #[trigger] labels_below(body, l) && l + UNROLL_MAX_TRIPS * body.len() + 2 < u32::MAX
}

/// `blk` is `body[s..b]` renamed afresh for a later trip (see
/// [`unroll_renaming`]).
pub open spec fn renamed_block(body: Seq<IrInstr>, s: int, b: int, blk: Seq<IrInstr>, vb: int, lb: int, keep: Option<u32>) -> bool {
    exists|vm: Map<u32, u32>, lm: Map<u32, u32>| #[trigger] renamed_copy(body.subrange(s, b), blk, vm, lm)
        && unroll_renaming(body, s, b, vm, lm, vb, lb, keep)
}

/// `new` is `old` with the marked counted loop `h..=b` fully unrolled by
/// plan `p`: the code before the header, then `blocks`, one per trip (the
/// instructions `old[p.body_start..b]` after the exit branch, once as they
/// are and then renamed afresh, with the induction variable kept when it is
/// a vreg), then the code from the exit label at `e` on (or from after the
/// back edge when the label is placed nowhere).
pub open spec fn unrolled(old: Seq<IrInstr>, new: Seq<IrInstr>, headers: Seq<Label>, h: int, b: int, p: UnrollPlan, e: int,
    blocks: Seq<Seq<IrInstr>>, vb: int, lb: int) -> bool {
    let s = p.body_start as int;
    let keep = if p.is_ssa { Some(p.iv_id) } else { None };
    let labels = label_slots(old, old.len() as int);
    &&& is_loop(old, h, b, false)
    &&& unroll_plan(old, headers, imm_map(old, old.len() as int), h, b) == Some(p)
    &&& e == (if labels.contains_key(p.exit_label) { labels[p.exit_label] as int } else { b + 1 })
    &&& blocks.len() == p.trips
    &&& blocks[0] == old.subrange(s, b)
    &&& ids_below(old, vb) && labels_below(old, lb)
    &&& forall|t: int| 1 <= t < blocks.len() ==> #[trigger] renamed_block(old, s, b, blocks[t], vb, lb, keep)
    &&& same_body(new, old.take(h) + concat_all(blocks) + old.skip(e))
}

/// What [`loop_unrolling`] makes of `old`: the first natural loop that has
/// a plan unrolled by it, or `old` unchanged when no loop has one (or the
/// ids left do not suffice).
pub open spec fn unroll_outcome(old: Seq<IrInstr>, new: Seq<IrInstr>, headers: Seq<Label>, changed: bool) -> bool {
    let site = unroll_site(old, headers, 0);
    &&& changed ==> site is Some && exists|e: int, blocks: Seq<Seq<IrInstr>>, vb: int, lb: int|
        unrolled(old, new, headers, natural_loops(old, false)[site->Some_0.0].0 as int,
            natural_loops(old, false)[site->Some_0.0].1 as int, site->Some_0.1, e, blocks, vb, lb)
    &&& !changed ==> new == old && (site is None || !unroll_room(old))
}

proof fn lemma_cost_split(body: Seq<IrInstr>, a: int, s: int, k: int)
    requires
        a <= s <= k,
    ensures
        copy_cost(body, a, k) == copy_cost(body, a, s) + copy_cost(body, s, k),
    decreases k - s,
{
    if k > s {
        lemma_cost_split(body, a, s, k - 1);
    }
}

proof fn lemma_cost_mono(body: Seq<IrInstr>, s: int, k1: int, k2: int)
    requires
        k1 <= k2,
    ensures
        copy_cost(body, s, k1) <= copy_cost(body, s, k2),
    decreases k2 - k1,
{
    if k2 > k1 {
        lemma_cost_mono(body, s, k1, k2 - 1);
    }
}

proof fn lemma_copies_fit(i: int, c: int, ct: int)
    requires
        1 <= i <= UNROLL_MAX_TRIPS,
        0 <= c <= ct,
    ensures
        (i - 1) * c + c == i * c,
        0 <= (i - 1) * c,
        i * c <= UNROLL_MAX_TRIPS * ct,
{
    assert((i - 1) * c + c == i * c && 0 <= (i - 1) * c && i * c <= 16 * ct) by (nonlinear_arith)
        requires
            1 <= i <= 16,
            0 <= c <= ct,
    ;
}

/// Fully unroll the innermost marked counted loop (a header label listed in
/// `unroll_loop_headers`, an exit `JumpIfFalse` on a comparison of the
/// induction variable with a constant, a constant step before the back
/// edge) whose trip count is at most [`UNROLL_MAX_TRIPS`] and whose body has
/// at most [`UNROLL_MAX_BODY`] instructions.
#[verifier::rlimit(100)]
pub fn loop_unrolling(func: &mut IrFunction) -> (changed: bool)
    ensures
        same_header(*old(func), *final(func)),
        unroll_outcome(old(func).body@, final(func).body@, old(func).unroll_loop_headers@, changed),
{
    let ghost hdrs = func.unroll_loop_headers@;
    let ghost body0 = func.body@;
    let mut headers: IdSet = AssocMap::new();
    let mut t: usize = 0;
    while t < func.unroll_loop_headers.len()
        invariant
            t <= hdrs.len(),
            hdrs == func.unroll_loop_headers@,
            headers.wf(),
            forall|id: u32| #[trigger] headers@.contains_key(id) <==> exists|j: int| 0 <= j < t && hdrs[j] == Label(id),
        decreases hdrs.len() - t,
    {
        let ghost h0 = headers@;
        let id = func.unroll_loop_headers[t].0;
        headers.insert(id, ());
        proof {
            assert(hdrs[t as int] == Label(id));
            assert forall|x: u32| #[trigger] headers@.contains_key(x) <==> exists|j: int| 0 <= j < t + 1 && hdrs[j] == Label(x) by {
                if headers@.contains_key(x) && x != id {
                    assert(h0.contains_key(x));
                }
                if exists|j: int| 0 <= j < t + 1 && hdrs[j] == Label(x) {
                    let j = choose|j: int| 0 <= j < t + 1 && hdrs[j] == Label(x);
                    if j < t {
                        assert(h0.contains_key(x));
                    }
                }
            }
        }
        t += 1;
    }
    proof {
        assert forall|id: u32| #[trigger] headers@.contains_key(id) <==> hdrs.contains(Label(id)) by {
            if hdrs.contains(Label(id)) {
                let j = choose|j: int| 0 <= j < hdrs.len() && hdrs[j] == Label(id);
            }
        }
    }
    let constants = imm_constants(&func.body);
    let label_index = label_positions(&func.body);
    let loops = find_loops(&func.body, false);
    let n = func.body.len();
    // The first natural loop, innermost first, that has a plan.
    let mut li: usize = 0;
    let mut plan: Option<UnrollPlan> = None;
    while li < loops.len() && plan.is_none()
        invariant
            li <= loops@.len(),
            loops@ == natural_loops(body0, false),
            forall|k: int| 0 <= k < loops@.len() ==> #[trigger] is_loop(body0, loops@[k].0 as int, loops@[k].1 as int, false),
            func.body@ == body0,
            *func == *old(func),
            n == body0.len(),
            constants.wf(),
            constants@ == imm_map(body0, n as int),
            headers.wf(),
            forall|id: u32| #[trigger] headers@.contains_key(id) <==> hdrs.contains(Label(id)),
            plan is None ==> unroll_site(body0, hdrs, li as int) == unroll_site(body0, hdrs, 0),
            plan is Some ==> li >= 1 && unroll_site(body0, hdrs, 0) == Some(((li - 1) as int, plan->Some_0))
                && unroll_plan(body0, hdrs, imm_map(body0, n as int), loops@[li - 1].0 as int, loops@[li - 1].1 as int) == plan
                && plan->Some_0.body_start <= loops@[li - 1].1 && loops@[li - 1].0 + 1 < plan->Some_0.body_start
                && 1 <= plan->Some_0.trips <= UNROLL_MAX_TRIPS,
        decreases loops@.len() - li,
    {
        let (h, b) = loops[li];
        assert(is_loop(body0, loops@[li as int].0 as int, loops@[li as int].1 as int, false));
        plan = plan_loop(&func.body, &headers, &constants, h, b, Ghost(hdrs));
        li += 1;
    }
    let p = match plan {
        Some(p) => p,
        None => {
            return false;
        },
    };
    let (h, b) = loops[li - 1];
    proof {
        assert(is_loop(body0, loops@[li - 1].0 as int, loops@[li - 1].1 as int, false));
    }
    let ghost room = unroll_room(body0);
    let body_start = p.body_start;
    let trips = p.trips;
    let iv_id = p.iv_id;
    let is_ssa = p.is_ssa;
    let ghost cc = copy_cost(body0, body_start as int, b as int) as int;
    let ghost ctot = copy_cost(body0, 0, n as int) as int;
    proof {
        lemma_cost_split(body0, 0, body_start as int, b as int);
        lemma_cost_mono(body0, 0, b as int, n as int);
    }
    // Fresh ids for the copies after the first.
    let vb = vreg_id_bound(&func.body);
    let lb = label_id_bound(&func.body);
    if vb > u32::MAX as u64 || lb > u32::MAX as u64 {
        proof {
            if room {
                let l = choose|l: int| l >= 0 && #[trigger] labels_below(body0, l) && l + UNROLL_MAX_TRIPS * body0.len() + 2 < u32::MAX;
                assert(lb <= l);
            }
        }
        return false;
    }
    proof {
        if room {
            let l = choose|l: int| l >= 0 && #[trigger] labels_below(body0, l) && l + UNROLL_MAX_TRIPS * body0.len() + 2 < u32::MAX;
            assert(lb <= l);
        }
    }
    let mut next_vreg: u32 = vb as u32;
    let mut next_label: u32 = lb as u32;
    // Vregs defined inside the replicated range, and those it reads
    // from outside.
        let mut internal: IdSet = AssocMap::new();
        let mut k: usize = body_start;
        while k < b
            invariant
                body_start <= k <= b,
                b < n,
                n == func.body@.len(),
                internal.wf(),
                forall|x: u32| #[trigger] internal@.contains_key(x) <==> exists|j: int| body_start <= j < k
                    && (op_dst((#[trigger] func.body@[j]).op) matches Some(d) && d.id == x),
            decreases b - k,
        {
            let ghost before = internal@;
            match get_any_dst(&func.body[k].op) {
                Some(d) => {
                    internal.insert(d.id, ());
                },
                None => {},
            }
            proof {
                assert forall|x: u32| #[trigger] internal@.contains_key(x) implies exists|j: int| body_start <= j < k + 1
                    && (op_dst((#[trigger] func.body@[j]).op) matches Some(d) && d.id == x) by {
                    if !before.contains_key(x) {
                        assert(op_dst(func.body@[k as int].op) matches Some(d) && d.id == x);
                    }
                }
                assert forall|x: u32| (exists|j: int| body_start <= j < k + 1
                    && (op_dst((#[trigger] func.body@[j]).op) matches Some(d) && d.id == x)) implies #[trigger] internal@.contains_key(x) by {
                    let j = choose|j: int| body_start <= j < k + 1 && (op_dst((#[trigger] func.body@[j]).op) matches Some(d) && d.id == x);
                    if j < k {
                        assert(before.contains_key(x));
                    }
                }
            }
            k += 1;
        }
        let mut external: Vec<u32> = Vec::new();
        k = body_start;
        while k < b
            invariant
                body_start <= k <= b,
                b < n,
                n == func.body@.len(),
                internal.wf(),
                forall|x: u32| #[trigger] internal@.contains_key(x) <==> exists|j: int| body_start <= j < b
                    && (op_dst((#[trigger] func.body@[j]).op) matches Some(d) && d.id == x),
                forall|e: int| 0 <= e < external@.len() ==> #[trigger] reads_outside(func.body@, body_start as int, b as int, external@[e]),
                forall|j: int, x: u32| body_start <= j < k && #[trigger] ids_of(op_srcs(func.body@[j].op)).contains(x)
                    && !internal@.contains_key(x) ==> external@.contains(x),
            decreases b - k,
        {
            let srcs = collect_src_vregs(&func.body[k].op);
            let ghost ext0 = external@;
            let mut j: usize = 0;
            while j < srcs.len()
                invariant
                    body_start <= k < b,
                    b < n,
                    n == func.body@.len(),
                    srcs@ == ids_of(op_srcs(func.body@[k as int].op)),
                    internal.wf(),
                    forall|x: u32| #[trigger] internal@.contains_key(x) <==> exists|j: int| body_start <= j < b
                        && (op_dst((#[trigger] func.body@[j]).op) matches Some(d) && d.id == x),
                    forall|e: int| 0 <= e < external@.len() ==> #[trigger] reads_outside(func.body@, body_start as int, b as int, external@[e]),
                    forall|x: u32| #[trigger] ext0.contains(x) ==> external@.contains(x),
                    forall|t: int| 0 <= t < j && !internal@.contains_key(#[trigger] srcs@[t]) ==> external@.contains(srcs@[t]),
                decreases srcs@.len() - j,
            {
                if !internal.contains_key(&srcs[j]) {
                    proof {
                        assert(srcs@.contains(srcs@[j as int]));
                        assert(ids_of(op_srcs(func.body@[k as int].op)).contains(srcs@[j as int]));
                    }
                    let ghost e0 = external@;
                    external.push(srcs[j]);
                    proof {
                        assert(external@[e0.len() as int] == srcs@[j as int]);
                        assert forall|x: u32| #[trigger] ext0.contains(x) implies external@.contains(x) by {
                            let e = choose|e: int| 0 <= e < e0.len() && e0[e] == x;
                            assert(external@[e] == x);
                        }
                        assert forall|t: int| 0 <= t < j + 1 && !internal@.contains_key(#[trigger] srcs@[t]) implies external@.contains(srcs@[t]) by {
                            if t < j {
                                let e = choose|e: int| 0 <= e < e0.len() && e0[e] == srcs@[t];
                                assert(external@[e] == srcs@[t]);
                            } else {
                                assert(external@[e0.len() as int] == srcs@[t]);
                            }
                        }
                    }
                }
                j += 1;
            }
            proof {
                assert forall|jj: int, x: u32| body_start <= jj < k + 1 && #[trigger] ids_of(op_srcs(func.body@[jj].op)).contains(x)
                    && !internal@.contains_key(x) implies external@.contains(x) by {
                    if jj == k {
                        let t = choose|t: int| 0 <= t < srcs@.len() && srcs@[t] == x;
                    } else {
                        assert(ext0.contains(x));
                    }
                }
            }
            k += 1;
        }
    let ghost keep: Option<u32> = if is_ssa { Some(iv_id) } else { None };
    let ghost body_s = func.body@.subrange(body_start as int, b as int);
    let mut new_body: Vec<IrInstr> = Vec::new();
    push_copies(&mut new_body, &func.body, 0, h);
    proof {
        assert(new_body@ =~= new_body@.skip(0));
        assert(func.body@.take(h as int) =~= func.body@.subrange(0, h as int));
        assert(func.body@.take(h as int) + concat_all(Seq::<Seq<IrInstr>>::empty()) =~= func.body@.take(h as int));
    }
    let ghost mut blocks: Seq<Seq<IrInstr>> = Seq::empty();
    let mut iter: u64 = 0;
    while iter < trips
        invariant
            iter <= trips <= UNROLL_MAX_TRIPS,
            room == unroll_room(body0),
            h + 1 < body_start <= b,
            b < n,
            n == func.body@.len(),
            func.body@ == body0,
            *func == *old(func),
            body_s == func.body@.subrange(body_start as int, b as int),
            vb <= next_vreg,
            lb <= next_label,
            cc == copy_cost(body0, body_start as int, b as int),
            cc <= ctot,
            room ==> vb + UNROLL_MAX_TRIPS * ctot + 2 < u32::MAX,
            room ==> lb + UNROLL_MAX_TRIPS * n + 2 < u32::MAX,
            room ==> next_vreg <= vb + (if iter == 0 { 0 } else { (iter - 1) * cc }),
            room ==> next_label <= lb + (if iter == 0 { 0 } else { (iter - 1) * (b - body_start) }),
            blocks.len() == iter,
            same_body(new_body@, func.body@.take(h as int) + concat_all(blocks)),
            iter >= 1 ==> blocks[0] == body_s,
            forall|t: int| 1 <= t < blocks.len() ==> #[trigger] renamed_block(func.body@, body_start as int, b as int, blocks[t], vb as int, lb as int, keep),
            forall|e: int| 0 <= e < external@.len() ==> #[trigger] reads_outside(func.body@, body_start as int, b as int, external@[e]),
            forall|x: u32| #[trigger] reads_outside(func.body@, body_start as int, b as int, x) ==> external@.contains(x),
            keep == (if is_ssa { Some(iv_id) } else { None::<u32> }),
        decreases trips - iter,
    {
        if iter == 0 {
            let ghost nb0 = new_body@;
            push_copies(&mut new_body, &func.body, body_start, b);
            proof {
                let added = new_body@.skip(nb0.len() as int);
                lemma_same_body_concat(nb0, func.body@.take(h as int) + concat_all(blocks), added, body_s);
                assert(blocks.push(body_s).drop_last() =~= blocks);
                assert(func.body@.take(h as int) + concat_all(blocks) + body_s =~= func.body@.take(h as int) + concat_all(blocks.push(body_s)));
                blocks = blocks.push(body_s);
            }
        } else {
            let ghost nb0 = new_body@;
            let ghost spec0 = func.body@.take(h as int) + concat_all(blocks);
            let mut vmap: AssocMap<u32, u32> = AssocMap::new();
            let mut lmap: AssocMap<u32, u32> = AssocMap::new();
            let mut e: usize = 0;
            while e < external.len()
                invariant
                    e <= external@.len(),
                    vmap.wf(),
                    forall|x: u32| #[trigger] vmap@.contains_key(x) ==> vmap@[x] == x
                        && reads_outside(func.body@, body_start as int, b as int, x),
                    forall|t: int| 0 <= t < e ==> vmap@.contains_key(#[trigger] external@[t]),
                    forall|e: int| 0 <= e < external@.len() ==> #[trigger] reads_outside(func.body@, body_start as int, b as int, external@[e]),
                decreases external@.len() - e,
            {
                vmap.insert(external[e], external[e]);
                e += 1;
            }
            if is_ssa {
                vmap.insert(iv_id, iv_id);
            }
            let ghost vm0 = vmap@;
            proof {
                assert forall|x: u32| #[trigger] vm0.contains_key(x) implies vm0[x] == x
                    && (reads_outside(func.body@, body_start as int, b as int, x) || keep == Some(x)) by {
                }
                assert forall|x: u32| #[trigger] reads_outside(func.body@, body_start as int, b as int, x)
                    implies vm0.contains_key(x) && vm0[x] == x by {
                    assert(external@.contains(x));
                    let t = choose|t: int| 0 <= t < external@.len() && external@[t] == x;
                }
            }
            let ghost mut cur: Seq<IrInstr> = Seq::empty();
            let ghost nv0 = next_vreg;
            let ghost nl0 = next_label;
            let mut k: usize = body_start;
            while k < b
                invariant
                    1 <= iter < trips <= UNROLL_MAX_TRIPS,
                    room == unroll_room(body0),
                    body_start <= k <= b,
                    b < n,
                    n == func.body@.len(),
                    func.body@ == body0,
                    *func == *old(func),
                    body_s == func.body@.subrange(body_start as int, b as int),
                    vmap.wf(),
                    lmap.wf(),
                    vb <= nv0 <= next_vreg,
                    lb <= nl0 <= next_label,
                    cc == copy_cost(body0, body_start as int, b as int),
                    cc <= ctot,
                    room ==> vb + UNROLL_MAX_TRIPS * ctot + 2 < u32::MAX,
                    room ==> lb + UNROLL_MAX_TRIPS * n + 2 < u32::MAX,
                    room ==> nv0 <= vb + (iter - 1) * cc,
                    room ==> nl0 <= lb + (iter - 1) * (b - body_start),
                    next_vreg <= nv0 + copy_cost(body0, body_start as int, k as int),
                    next_label <= nl0 + (k - body_start),
                    forall|x: u32| #[trigger] vm0.contains_key(x) ==> vmap@.contains_key(x) && vmap@[x] == vm0[x],
                    forall|x: u32| #[trigger] vmap@.contains_key(x) && !vm0.contains_key(x) ==> vb <= vmap@[x],
                    forall|l: u32| #[trigger] lmap@.contains_key(l) ==> lb <= lmap@[l],
                    new_body@ == nb0 + cur,
                    cur.len() == k - body_start,
                    blocks.len() == iter,
                    forall|t: int| 1 <= t < blocks.len() ==> #[trigger] renamed_block(func.body@, body_start as int, b as int, blocks[t], vb as int, lb as int, keep),
                    keep == (if is_ssa { Some(iv_id) } else { None::<u32> }),
                    forall|j: int| 0 <= j < cur.len() ==> #[trigger] renamed(body_s[j].op, cur[j].op, vmap@, lmap@)
                        && covered(body_s[j].op, vmap@, lmap@) && cur[j].line == body_s[j].line,
                decreases b - k,
            {
                let op = &func.body[k].op;
                let srcs = collect_src_vregs(op);
                proof {
                    assert(srcs@.len() == op_srcs(*op).len());
                    assert(copy_cost(body0, body_start as int, k + 1) == copy_cost(body0, body_start as int, k as int)
                        + op_srcs(body0[k as int].op).len() + 1);
                    lemma_cost_mono(body0, body_start as int, k + 1, b as int);
                    if room {
                        lemma_copies_fit(iter as int, cc, ctot);
                        lemma_copies_fit(iter as int, b - body_start, n as int);
                    }
                }
                if (srcs.len() as u64) < 0x1_0000_0000u64 && (next_vreg as u64) + (srcs.len() as u64) + 1 < u32::MAX as u64
                    && next_label < u32::MAX {
                    let ghost vm1 = vmap@;
                    let ghost lm1 = lmap@;
                    let ghost nv1 = next_vreg;
                    let ghost nl1 = next_label;
                    let new_op = remap_op(op, &mut vmap, &mut lmap, &mut next_vreg, &mut next_label);
                    let ins = IrInstr { op: new_op, line: func.body[k].line };
                    proof {
                        assert forall|j: int| 0 <= j < cur.len() implies #[trigger] renamed(body_s[j].op, cur[j].op, vmap@, lmap@)
                            && covered(body_s[j].op, vmap@, lmap@) && cur[j].line == body_s[j].line by {
                            assert(renamed(body_s[j].op, cur[j].op, vm1, lm1));
                            lemma_renamed_grows(body_s[j].op, cur[j].op, vm1, lm1, vmap@, lmap@);
                        }
                        assert forall|x: u32| #[trigger] vmap@.contains_key(x) && !vm0.contains_key(x) implies vb <= vmap@[x] by {
                            if vm1.contains_key(x) {
                            } else {
                                assert(nv1 <= vmap@[x]);
                            }
                        }
                        assert forall|l: u32| #[trigger] lmap@.contains_key(l) implies lb <= lmap@[l] by {
                            if lm1.contains_key(l) {
                            } else {
                                assert(nl1 <= lmap@[l]);
                            }
                        }
                        assert(body_s[cur.len() as int] == func.body@[k as int]);
                        cur = cur.push(ins);
                    }
                    new_body.push(ins);
                } else {
                    // The ids left do not suffice.
                    proof {
                        if room {
                            assert(next_vreg as int + srcs@.len() + 1 <= nv0 + copy_cost(body0, body_start as int, k + 1));
                            assert(next_label < nl0 + (b - body_start));
                            assert(false);
                        }
                        assert(!unroll_room(old(func).body@));
                        assert(func.body@ == old(func).body@);
                    }
                    return false;
                }
                k += 1;
            }
            proof {
                assert(renamed_copy(body_s, cur, vmap@, lmap@));
                assert forall|x: u32| #[trigger] reads_outside(func.body@, body_start as int, b as int, x)
                    implies vmap@.contains_key(x) && vmap@[x] == x by {
                    assert(vm0.contains_key(x));
                }
                assert(keep matches Some(x) ==> vmap@.contains_key(x) && vmap@[x] == x) by {
                    if is_ssa {
                        assert(vm0.contains_key(iv_id));
                    }
                }
                assert forall|x: u32| #[trigger] vmap@.contains_key(x) && !reads_outside(func.body@, body_start as int, b as int, x)
                    && keep != Some(x) implies vb <= vmap@[x] by {
                    if vm0.contains_key(x) {
                        assert(vm0[x] == x && (reads_outside(func.body@, body_start as int, b as int, x) || keep == Some(x)));
                    }
                }
                assert(unroll_renaming(func.body@, body_start as int, b as int, vmap@, lmap@, vb as int, lb as int, keep));
                lemma_same_body_refl(cur);
                lemma_same_body_concat(nb0, spec0, cur, cur);
                assert(blocks.push(cur).drop_last() =~= blocks);
                assert(spec0 + cur =~= func.body@.take(h as int) + concat_all(blocks.push(cur)));
                let old_blocks = blocks;
                blocks = blocks.push(cur);
                assert forall|t: int| 1 <= t < blocks.len() implies #[trigger] renamed_block(func.body@, body_start as int, b as int, blocks[t], vb as int, lb as int, keep) by {
                    if t < old_blocks.len() {
                        assert(blocks[t] == old_blocks[t]);
                    } else {
                        assert(blocks[t] == cur);
                        assert(renamed_copy(body_s, blocks[t], vmap@, lmap@));
                        assert(renamed_block(func.body@, body_start as int, b as int, blocks[t], vb as int, lb as int, keep));
                    }
                }
                if room {
                    lemma_copies_fit(iter as int, cc, ctot);
                    lemma_copies_fit(iter as int, b - body_start, n as int);
                }
            }
        }
        iter += 1;
    }
    let ghost nb1 = new_body@;
    let e: usize = match label_index.get(&p.exit_label) {
        Some(e) => *e,
        None => b + 1,
    };
    push_copies(&mut new_body, &func.body, e, n);
    proof {
        let added = new_body@.skip(nb1.len() as int);
        assert(func.body@.skip(e as int) =~= func.body@.subrange(e as int, n as int));
        lemma_same_body_concat(nb1, func.body@.take(h as int) + concat_all(blocks), added, func.body@.skip(e as int));
        assert(new_body@ == nb1 + added);
        let s = p.body_start as int;
        let labels = label_slots(body0, body0.len() as int);
        assert(is_loop(body0, h as int, b as int, false));
        assert(unroll_plan(body0, hdrs, imm_map(body0, body0.len() as int), h as int, b as int) == Some(p));
        assert(e == (if labels.contains_key(p.exit_label) { labels[p.exit_label] as int } else { b + 1 }));
        assert(blocks.len() == p.trips);
        assert(blocks[0] == body0.subrange(s, b as int));
        assert(ids_below(body0, vb as int) && labels_below(body0, lb as int));
        assert(forall|t: int| 1 <= t < blocks.len() ==> #[trigger] renamed_block(body0, s, b as int, blocks[t], vb as int, lb as int, keep));
        assert(same_body(new_body@, body0.take(h as int) + concat_all(blocks) + body0.skip(e as int)));
        assert(unrolled(body0, new_body@, hdrs, h as int, b as int, p, e as int, blocks, vb as int, lb as int));
    }
    func.body = new_body;
    proof {
        assert(unroll_site(old(func).body@, old(func).unroll_loop_headers@, 0) == Some(((li - 1) as int, p)));
        assert(natural_loops(old(func).body@, false)[li - 1] == (h, b));
        assert(unrolled(old(func).body@, func.body@, old(func).unroll_loop_headers@, h as int, b as int, p, e as int, blocks, vb as int, lb as int));
        let site = unroll_site(old(func).body@, old(func).unroll_loop_headers@, 0);
        assert(unrolled(old(func).body@, func.body@, old(func).unroll_loop_headers@,
            natural_loops(old(func).body@, false)[site->Some_0.0].0 as int,
            natural_loops(old(func).body@, false)[site->Some_0.0].1 as int, site->Some_0.1, e as int, blocks, vb as int, lb as int));
    }
    true
}

/// A 16-bit register value as a comparison reads it.
pub open spec fn read16(v: i64, signed: bool) -> int {
    if signed {
        spec_sign_extend(v as int, Width::W16)
    } else {
        spec_wrap(v as int, Width::W16)
    }
}

/// The signedness of an ordering comparison.
pub open spec fn test_signed(op: IrOp) -> bool {
    match op {
        IrOp::Lt { signed, .. } | IrOp::Le { signed, .. } | IrOp::Gt { signed, .. } | IrOp::Ge { signed, .. } => signed,
        _ => false,
    }
}

/// The loop test `op`, `iv OP limit` with the limit a known constant,
/// holds of the induction value `iv`.
pub open spec fn test_holds(op: IrOp, c: Map<u32, i64>, iv: int) -> bool {
    match op {
        IrOp::Lt { rhs, signed, .. } => iv < read16(c[rhs.id], signed),
        IrOp::Le { rhs, signed, .. } => iv <= read16(c[rhs.id], signed),
        IrOp::Gt { rhs, signed, .. } => iv > read16(c[rhs.id], signed),
        IrOp::Ge { rhs, signed, .. } => iv >= read16(c[rhs.id], signed),
        _ => false,
    }
}

/// The limit of a `<=` test is not the largest 16-bit value, nor that of a
/// `>=` test the smallest (where `iv <= L` cannot be read as `iv < L + 1`).
pub open spec fn limit_inner(op: IrOp, c: Map<u32, i64>) -> bool {
    match op {
        IrOp::Le { rhs, signed, .. } => read16(c[rhs.id], signed) < (if signed { 0x7fffint } else { 0xffffint }),
        IrOp::Ge { rhs, signed, .. } => read16(c[rhs.id], signed) > (if signed { -0x8000int } else { 0int }),
        _ => true,
    }
}

proof fn lemma_ceil_steps(d: int, s: int, k: int)
    requires
        d > 0,
        s > 0,
        0 <= k <= (d + s - 1) / s,
    ensures
        (k < (d + s - 1) / s) == (k * s < d),
{
    let t = (d + s - 1) / s;
    assert(t * s <= d + s - 1 && t * s > d - 1) by (nonlinear_arith)
        requires
            d > 0,
            s > 0,
            t == (d + s - 1) / s,
    ;
    if k < t {
        assert(k * s <= (t - 1) * s) by (nonlinear_arith)
            requires
                k <= t - 1,
                s > 0,
        ;
        assert((t - 1) * s == t * s - s) by (nonlinear_arith);
    } else {
        assert(k == t);
    }
}

proof fn lemma_wrap16_shift(x: int, y: int, q: int)
    requires
        y == x + q * 0x1_0000_0000_0000_0000,
    ensures
        spec_wrap(y, Width::W16) == spec_wrap(x, Width::W16),
{
    assert(q * 0x1_0000_0000_0000_0000 == 0x1_0000 * (q * 0x1_0000_0000_0000)) by (nonlinear_arith);
    vstd::arithmetic::div_mod::lemma_mod_multiples_vanish(q * 0x1_0000_0000_0000, x, 0x1_0000);
}

proof fn lemma_read16_step(l: i64, signed: bool, up: bool)
    requires
        up ==> read16(l, signed) < (if signed { 0x7fffint } else { 0xffffint }),
        !up ==> read16(l, signed) > (if signed { -0x8000int } else { 0int }),
    ensures
        up ==> read16(vstd::wrapping::i64_specs::wrapping_add(l, 1i64), signed) == read16(l, signed) + 1,
        !up ==> read16(vstd::wrapping::i64_specs::wrapping_sub(l, 1i64), signed) == read16(l, signed) - 1,
{
    let x = l as int;
    let w = spec_wrap(x, Width::W16);
    if up {
        let n = vstd::wrapping::i64_specs::wrapping_add(l, 1i64);
        if x + 1 > i64::MAX {
            lemma_wrap16_shift(x + 1, n as int, -1);
        } else {
            lemma_wrap16_shift(x + 1, n as int, 0);
        }
        assert(spec_wrap(n as int, Width::W16) == spec_wrap(x + 1, Width::W16));
        vstd::arithmetic::div_mod::lemma_add_mod_noop(x, 1, 0x1_0000);
        assert(spec_wrap(x + 1, Width::W16) == (w + 1) % 0x1_0000);
    } else {
        let n = vstd::wrapping::i64_specs::wrapping_sub(l, 1i64);
        if x - 1 < i64::MIN {
            lemma_wrap16_shift(x - 1, n as int, 1);
        } else {
            lemma_wrap16_shift(x - 1, n as int, 0);
        }
        assert(spec_wrap(n as int, Width::W16) == spec_wrap(x - 1, Width::W16));
        vstd::arithmetic::div_mod::lemma_sub_mod_noop(x, 1, 0x1_0000);
        assert(spec_wrap(x - 1, Width::W16) == (w - 1) % 0x1_0000);
    }
}

proof fn lemma_first_jif_range(body: Seq<IrInstr>, x: int, b: int)
    requires
        x <= b,
    ensures
        x <= first_jif(body, x, b) <= b,
    decreases b - x,
{
    if x < b && !(body[x].op is JumpIfFalse) {
        lemma_first_jif_range(body, x + 1, b);
    }
}

proof fn lemma_last_test_range(body: Seq<IrInstr>, lo: int, x: int)
    ensures
        last_test(body, lo, x) matches Some(t) ==> lo <= t < x,
    decreases x - lo,
{
    if x > lo && order_test(body[x - 1].op) is None {
        lemma_last_test_range(body, lo, x - 1);
    }
}

/// Unrolling copies the loop body once for each iteration the loop runs:
/// with `init` the induction variable's start and `stride` its step, the
/// value `init + k * stride` passes the loop's own test exactly for the
/// `k` below the planned trip count (a test `iv <= L` counts as
/// `iv < L + 1`, and `iv >= L` as `iv > L - 1`).
pub proof fn law_unroll_trip_count(body: Seq<IrInstr>, headers: Seq<Label>, c: Map<u32, i64>, h: int, b: int, k: int)
    requires
        0 <= h < b < body.len() <= usize::MAX,
        unroll_plan(body, headers, c, h, b) is Some,
        limit_inner(body[unroll_plan(body, headers, c, h, b)->Some_0.test_idx as int].op, c),
        0 <= k <= unroll_plan(body, headers, c, h, b)->Some_0.trips,
    ensures
        ({
            let p = unroll_plan(body, headers, c, h, b)->Some_0;
            let op = body[p.test_idx as int].op;
            let (init, kind) = iv_init(body, c, h, p.test_idx as int, p.iv_id)->Some_0;
            let stride = stride_info(body, c, kind, p.iv_id, p.exit_idx as int, b)->Some_0.0;
            test_holds(op, c, read16(init, test_signed(op)) + k * stride) == (k < p.trips)
        }),
{
    let p = unroll_plan(body, headers, c, h, b)->Some_0;
    let exit = first_jif(body, h + 1, b);
    lemma_first_jif_range(body, h + 1, b);
    let cond = body[exit].op->JumpIfFalse_cond;
    let t = last_test(body, h + 1, exit)->Some_0;
    lemma_last_test_range(body, h + 1, exit);
    let ti = test_info(body[t].op, cond.id, c)->Some_0;
    let (init, kind) = iv_init(body, c, h, t, ti.0)->Some_0;
    let (stride, inc) = stride_info(body, c, kind, ti.0, exit, b)->Some_0;
    let trips = spec_trip_count(init, ti.1, stride, ti.2, ti.3)->Some_0;
    assert(p.test_idx == t && p.iv_id == ti.0 && p.exit_idx == exit && p.trips == trips);
    let op = body[t].op;
    let signed = ti.3;
    assert(test_signed(op) == signed);
    let x0 = read16(init, signed);
    if ti.2 {
        let lim = read16(ti.1, signed);
        let d = lim - x0;
        assert(d > 0);
        lemma_ceil_steps(d, stride as int, k);
        match op {
            IrOp::Le { rhs, .. } => {
                lemma_read16_step(c[rhs.id], signed, true);
            },
            _ => {},
        }
    } else {
        let lim = read16(ti.1, signed);
        let d = x0 - lim;
        assert(d > 0);
        lemma_ceil_steps(d, -(stride as int), k);
        assert(k * (-(stride as int)) == -(k * stride)) by (nonlinear_arith);
        match op {
            IrOp::Ge { rhs, .. } => {
                lemma_read16_step(c[rhs.id], signed, false);
            },
            _ => {},
        }
    }
}

} // verus!
