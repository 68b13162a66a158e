//! Peephole simplifications: compare-with-zero branches, strength
//! reduction, store-to-load forwarding and redundant stores.

use vstd::prelude::*;

use crate::ir::{IrFunction, IrInstr, IrOp, Label, VReg, Width, same_instr, same_op};
use crate::maps::{AssocMap, IdSet};
use crate::opt::arith::{is_power_of_two, log2_of_pow2, spec_is_pow2, spec_log2};
use crate::opt::basic::same_header;
use crate::opt::ops::{collect_src_vreg_ids, collect_src_vregs, get_dst_vreg, ids_of, op_dst, op_srcs, op_srcs_no_asm};
use crate::text::is_local_label;

verus! {

/// The value of the last `LoadImm` of each vreg among the first `n`
/// instructions.
pub open spec fn imm_map(body: Seq<IrInstr>, n: int) -> Map<u32, i64>
    decreases n,
{
    if n <= 0 {
        Map::empty()
    } else {
        let m = imm_map(body, n - 1);
        match body[n - 1].op {
            IrOp::LoadImm { dst, value } => m.insert(dst.id, value),
            _ => m,
        }
    }
}

/// The constants that `LoadImm` instructions give (the last one wins).
pub fn imm_constants(body: &Vec<IrInstr>) -> (r: AssocMap<u32, i64>)
    ensures
        r.wf(),
        r@ == imm_map(body@, body@.len() as int),
        forall|id: u32| #[trigger] r@.contains_key(id) ==> exists|k: int| 0 <= k < body@.len()
            && body@[k].op == (IrOp::LoadImm { dst: VReg { id, width: match body@[k].op { IrOp::LoadImm { dst, .. } => dst.width, _ => Width::W8 } }, value: r@[id] }),
{
    let mut m: AssocMap<u32, i64> = AssocMap::new();
    let mut i: usize = 0;
    proof {
        assert(m@ =~= imm_map(body@, 0));
    }
    while i < body.len()
        invariant
            i <= body@.len(),
            m.wf(),
            m@ == imm_map(body@, i as int),
            forall|id: u32| #[trigger] m@.contains_key(id) ==> exists|k: int| 0 <= k < body@.len()
                && body@[k].op == (IrOp::LoadImm { dst: VReg { id, width: match body@[k].op { IrOp::LoadImm { dst, .. } => dst.width, _ => Width::W8 } }, value: m@[id] }),
        decreases body@.len() - i,
    {
        match &body[i].op {
            IrOp::LoadImm { dst, value } => {
                m.insert(dst.id, *value);
                proof {
                    assert(body@[i as int].op == (IrOp::LoadImm { dst: VReg { id: dst.id, width: dst.width }, value: *value }));
                }
            },
            _ => {},
        }
        i += 1;
    }
    m
}

/// `m` with one more read counted for each id of `ids` (wrapping).
pub open spec fn count_ids(m: Map<u32, u32>, ids: Seq<u32>) -> Map<u32, u32>
    decreases ids.len(),
{
    if ids.len() == 0 {
        m
    } else {
        let m2 = count_ids(m, ids.drop_last());
        let id = ids.last();
        m2.insert(id, (if m2.contains_key(id) { m2[id] } else { 0u32 }).wrapping_add(1))
    }
}

/// The number of reads of each vreg id among the first `n` instructions
/// (inline-assembly inputs aside).
pub open spec fn use_count_map(body: Seq<IrInstr>, n: int) -> Map<u32, u32>
    decreases n,
{
    if n <= 0 {
        Map::empty()
    } else {
        count_ids(use_count_map(body, n - 1), ids_of(op_srcs_no_asm(body[n - 1].op)))
    }
}

/// The number of reads of each vreg id (inline-assembly inputs aside).
fn use_counts(body: &Vec<IrInstr>) -> (r: AssocMap<u32, u32>)
    ensures
        r.wf(),
        r@ == use_count_map(body@, body@.len() as int),
{
    let mut counts: AssocMap<u32, u32> = AssocMap::new();
    let mut i: usize = 0;
    proof {
        assert(counts@ =~= use_count_map(body@, 0));
    }
    while i < body.len()
        invariant
            i <= body@.len(),
            counts.wf(),
            counts@ == use_count_map(body@, i as int),
        decreases body@.len() - i,
    {
        let srcs = collect_src_vreg_ids(&body[i].op);
        let ghost before = counts@;
        let mut j: usize = 0;
        proof {
            assert(srcs@.take(0) =~= Seq::<u32>::empty());
        }
        while j < srcs.len()
            invariant
                j <= srcs@.len(),
                counts.wf(),
                counts@ == count_ids(before, srcs@.take(j as int)),
            decreases srcs@.len() - j,
        {
            let c = match counts.get(&srcs[j]) {
                Some(c) => *c,
                None => 0,
            };
            counts.insert(srcs[j], c.wrapping_add(1));
            proof {
                assert(srcs@.take(j + 1).drop_last() =~= srcs@.take(j as int));
            }
            j += 1;
        }
        proof {
            assert(srcs@.take(srcs@.len() as int) =~= srcs@);
        }
        i += 1;
    }
    counts
}

/// `b` is `a`, a placeholder `LoadImm 0`, or `a` as a branch with its
/// condition replaced and its target kept.
pub open spec fn cz_rewritten(a: IrInstr, b: IrInstr) -> bool {
    same_instr(a, b) || ((b.op matches IrOp::LoadImm { value, .. } && value == 0) && b.line == a.line)
        || (b.line == a.line && match a.op {
        IrOp::JumpIfTrue { target, .. } | IrOp::JumpIfFalse { target, .. } => match b.op {
            IrOp::JumpIfTrue { target: t, .. } | IrOp::JumpIfFalse { target: t, .. } => t == target,
            _ => false,
        },
        _ => false,
    })
}

/// A test of a vreg against a register known to hold zero: whether it is
/// `Eq`, its destination id, the other operand and the width.
pub open spec fn zero_test(op: IrOp, c: Map<u32, i64>) -> Option<(bool, u32, VReg, Width)> {
    match op {
        IrOp::Eq { dst, lhs, rhs, width } => if c.contains_key(rhs.id) && c[rhs.id] == 0 {
            Some((true, dst.id, lhs, width))
        } else if c.contains_key(lhs.id) && c[lhs.id] == 0 {
            Some((true, dst.id, rhs, width))
        } else {
            None
        },
        IrOp::Ne { dst, lhs, rhs, width } => if c.contains_key(rhs.id) && c[rhs.id] == 0 {
            Some((false, dst.id, lhs, width))
        } else if c.contains_key(lhs.id) && c[lhs.id] == 0 {
            Some((false, dst.id, rhs, width))
        } else {
            None
        },
        _ => None,
    }
}

/// The branch on the tested operand that replaces a branch on the test.
pub open spec fn zero_branch(next: IrOp, is_eq: bool, d: u32, operand: VReg, w: Width) -> Option<IrOp> {
    match next {
        IrOp::JumpIfTrue { cond, target } => if cond.id == d {
            if is_eq {
                Some(IrOp::JumpIfFalse { cond: VReg { id: operand.id, width: w }, target })
            } else {
                Some(IrOp::JumpIfTrue { cond: VReg { id: operand.id, width: w }, target })
            }
        } else {
            None
        },
        IrOp::JumpIfFalse { cond, target } => if cond.id == d {
            if is_eq {
                Some(IrOp::JumpIfTrue { cond: VReg { id: operand.id, width: w }, target })
            } else {
                Some(IrOp::JumpIfFalse { cond: VReg { id: operand.id, width: w }, target })
            }
        } else {
            None
        },
        _ => None,
    }
}

/// The pair that replaces instructions `i` and `i + 1`, when `i` tests a
/// vreg against zero, the test is read once, and `i + 1` branches on it.
pub open spec fn zero_rewrite(body: Seq<IrInstr>, c: Map<u32, i64>, u: Map<u32, u32>, i: int) -> Option<(IrInstr, IrInstr)> {
    match zero_test(body[i].op, c) {
        Some((is_eq, d, operand, w)) => if (if u.contains_key(d) { u[d] } else { 0u32 }) == 1 {
            match zero_branch(body[i + 1].op, is_eq, d, operand, w) {
                Some(op) => Some((
                    IrInstr { op: IrOp::LoadImm { dst: VReg { id: d, width: Width::W8 }, value: 0 }, line: body[i].line },
                    IrInstr { op, line: body[i + 1].line },
                )),
                None => None,
            }
        } else {
            None
        },
        None => None,
    }
}

/// The body from position `i` on after the rewrites, made left to right
/// without overlapping.
pub open spec fn zero_from(body: Seq<IrInstr>, c: Map<u32, i64>, u: Map<u32, u32>, i: int) -> Seq<IrInstr>
    decreases body.len() - i,
{
    if i < 0 || i + 1 >= body.len() {
        body.skip(i)
    } else {
        match zero_rewrite(body, c, u, i) {
            Some((a, b)) => seq![a, b] + zero_from(body, c, u, i + 2),
            None => seq![body[i]] + zero_from(body, c, u, i + 1),
        }
    }
}

/// The body after compare-with-zero simplification.
pub open spec fn cz_result(body: Seq<IrInstr>) -> Seq<IrInstr> {
    zero_from(body, imm_map(body, body.len() as int), use_count_map(body, body.len() as int), 0)
}

/// Turn `Eq/Ne(x, 0)` feeding the next branch, and used nowhere else, into
/// a branch on `x` itself.
pub fn compare_zero_simplify(func: &mut IrFunction) -> (changed: bool)
    ensures
        same_header(*old(func), *final(func)),
        final(func).body@ == cz_result(old(func).body@),
        changed == (final(func).body@ != old(func).body@),
        final(func).body@.len() == old(func).body@.len(),
        forall|i: int| 0 <= i < old(func).body@.len() ==> #[trigger] cz_rewritten(old(func).body@[i], final(func).body@[i]),
{
    let constants = imm_constants(&func.body);
    let use_count = use_counts(&func.body);
    let ghost body0 = func.body@;
    let ghost c = constants@;
    let ghost u = use_count@;
    let mut changed = false;
    let mut i: usize = 0;
    while func.body.len() > 1 && i < func.body.len() - 1
        invariant
            i <= func.body@.len(),
            func.body@.len() == body0.len(),
            constants.wf(),
            use_count.wf(),
            constants@ == c,
            use_count@ == u,
            func.body@.subrange(0, i as int) + zero_from(body0, c, u, i as int) == zero_from(body0, c, u, 0),
            forall|k: int| 0 <= k < body0.len() ==> #[trigger] cz_rewritten(body0[k], func.body@[k]),
            forall|k: int| i <= k < body0.len() ==> #[trigger] func.body@[k] == body0[k],
            !changed ==> func.body@ == body0,
            changed ==> func.body@ != body0,
            same_header(*old(func), *func),
        decreases func.body@.len() - i,
    {
        let ghost pre = func.body@.subrange(0, i as int);
        let found: Option<(bool, u32, VReg, Width)> = match &func.body[i].op {
            IrOp::Eq { dst, lhs, rhs, width } => {
                if constants.get(&rhs.id) == Some(&0i64) {
                    Some((true, dst.id, *lhs, *width))
                } else if constants.get(&lhs.id) == Some(&0i64) {
                    Some((true, dst.id, *rhs, *width))
                } else {
                    None
                }
            },
            IrOp::Ne { dst, lhs, rhs, width } => {
                if constants.get(&rhs.id) == Some(&0i64) {
                    Some((false, dst.id, *lhs, *width))
                } else if constants.get(&lhs.id) == Some(&0i64) {
                    Some((false, dst.id, *rhs, *width))
                } else {
                    None
                }
            },
            _ => None,
        };
        assert(found == zero_test(body0[i as int].op, c));
        let mut step: Option<(IrInstr, IrInstr)> = None;
        match found {
            None => {},
            Some((is_eq, test_dst_id, operand, test_width)) => {
                let uses = match use_count.get(&test_dst_id) {
                    Some(c) => *c,
                    None => 0,
                };
                if uses == 1 {
                    let line = func.body[i].line;
                    let next_line = func.body[i + 1].line;
                    let new_op: Option<IrOp> = match &func.body[i + 1].op {
                        IrOp::JumpIfTrue { cond, target } => {
                            if cond.id == test_dst_id {
                                if is_eq {
                                    Some(IrOp::JumpIfFalse { cond: VReg::new(operand.id, test_width), target: *target })
                                } else {
                                    Some(IrOp::JumpIfTrue { cond: VReg::new(operand.id, test_width), target: *target })
                                }
                            } else {
                                None
                            }
                        },
                        IrOp::JumpIfFalse { cond, target } => {
                            if cond.id == test_dst_id {
                                if is_eq {
                                    Some(IrOp::JumpIfTrue { cond: VReg::new(operand.id, test_width), target: *target })
                                } else {
                                    Some(IrOp::JumpIfFalse { cond: VReg::new(operand.id, test_width), target: *target })
                                }
                            } else {
                                None
                            }
                        },
                        _ => None,
                    };
                    match new_op {
                        Some(op) => {
                            step = Some((
                                IrInstr { op: IrOp::LoadImm { dst: VReg::new(test_dst_id, Width::W8), value: 0 }, line },
                                IrInstr { op, line: next_line },
                            ));
                        },
                        None => {},
                    }
                }
            },
        }
        assert(step == zero_rewrite(body0, c, u, i as int));
        match step {
            Some((a, b)) => {
                proof {
                    assert(same_instr(func.body@[i as int + 1], body0[i + 1])) by {
                        crate::ir::lemma_same_instr_refl(body0[i + 1]);
                    }
                }
                func.body.set(i, a);
                func.body.set(i + 1, b);
                proof {
                    assert(func.body@.subrange(0, i + 2) =~= pre + seq![a, b]);
                    assert(func.body@[i as int] != body0[i as int]);
                }
                changed = true;
                i += 2;
            },
            None => {
                proof {
                    assert(func.body@.subrange(0, i + 1) =~= pre + seq![body0[i as int]]);
                }
                i += 1;
            },
        }
    }
    proof {
        assert(func.body@.skip(i as int) =~= body0.skip(i as int));
        assert(func.body@ =~= func.body@.subrange(0, i as int) + func.body@.skip(i as int));
    }
    changed
}

/// `b` is `a`, or `a`'s multiply, unsigned divide or unsigned modulo
/// turned into a shift or a mask with the same destination and width, or
/// a `LoadImm` of `a`'s destination with a new value.
pub open spec fn sr_rewritten(a: IrInstr, b: IrInstr) -> bool {
    b.line == a.line && (same_op(a.op, b.op) || match a.op {
        IrOp::Mul { dst, width, .. } => b.op matches IrOp::Shl { dst: d, width: w, .. } && d == dst && w == width,
        IrOp::Div { dst, width, signed, .. } => !signed && (b.op matches IrOp::Shr { dst: d, width: w, arithmetic, .. } && d == dst && w == width && !arithmetic),
        IrOp::Mod { dst, width, signed, .. } => !signed && (b.op matches IrOp::And { dst: d, width: w, .. } && d == dst && w == width),
        IrOp::LoadImm { dst, .. } => b.op matches IrOp::LoadImm { dst: d, .. } && d == dst,
        _ => false,
    })
}

/// `m` with one more occurrence of each id of `ids`, counted up to two.
pub open spec fn bump(m: Map<u32, u32>, ids: Seq<u32>) -> Map<u32, u32>
    decreases ids.len(),
{
    if ids.len() == 0 {
        m
    } else {
        let m2 = bump(m, ids.drop_last());
        m2.insert(ids.last(), if m2.contains_key(ids.last()) { 2u32 } else { 1u32 })
    }
}

/// How often each vreg is read among the first `n` instructions (inline
/// assembly inputs included), counted up to two.
pub open spec fn reads_map(body: Seq<IrInstr>, n: int) -> Map<u32, u32>
    decreases n,
{
    if n <= 0 {
        Map::empty()
    } else {
        bump(reads_map(body, n - 1), ids_of(op_srcs(body[n - 1].op)))
    }
}

/// How often each vreg is written among the first `n` instructions,
/// counted up to two.
pub open spec fn defs_map(body: Seq<IrInstr>, n: int) -> Map<u32, u32>
    decreases n,
{
    if n <= 0 {
        Map::empty()
    } else {
        match op_dst(body[n - 1].op) {
            Some(d) => bump(defs_map(body, n - 1), seq![d.id]),
            None => defs_map(body, n - 1),
        }
    }
}

/// The vreg holds a positive power of two in `c`.
pub open spec fn pow2_const(c: Map<u32, i64>, id: u32) -> bool {
    c.contains_key(id) && c[id] > 0 && spec_is_pow2(c[id] as int)
}

/// The vreg holds a positive power of two, is written once (by its
/// constant load) and read once: its load can be given another value
/// without changing any other instruction.
pub open spec fn sr_const(c: Map<u32, i64>, rd: Map<u32, u32>, df: Map<u32, u32>, id: u32) -> bool {
    pow2_const(c, id) && rd.contains_key(id) && rd[id] == 1 && df.contains_key(id) && df[id] == 1
}

/// A multiplication by such a constant as a left shift, an unsigned
/// division by one as a logical right shift, an unsigned modulo by one as a
/// mask (the constant register is kept and its value rewritten afterwards).
pub open spec fn sr_op(op: IrOp, c: Map<u32, i64>, rd: Map<u32, u32>, df: Map<u32, u32>) -> Option<IrOp> {
    match op {
        IrOp::Mul { dst, lhs, rhs, width, .. } => if sr_const(c, rd, df, rhs.id) {
            Some(IrOp::Shl { dst, lhs, rhs, width })
        } else if sr_const(c, rd, df, lhs.id) {
            Some(IrOp::Shl { dst, lhs: rhs, rhs: lhs, width })
        } else {
            None
        },
        IrOp::Div { dst, lhs, rhs, width, signed } => if !signed && sr_const(c, rd, df, rhs.id) {
            Some(IrOp::Shr { dst, lhs, rhs, width, arithmetic: false })
        } else {
            None
        },
        IrOp::Mod { dst, lhs, rhs, width, signed } => if !signed && sr_const(c, rd, df, rhs.id) {
            Some(IrOp::And { dst, lhs, rhs, width })
        } else {
            None
        },
        _ => None,
    }
}

/// The constant register that the reduction of `op` uses, and its new
/// value: the shift amount or the mask.
pub open spec fn sr_new_val(op: IrOp, c: Map<u32, i64>, rd: Map<u32, u32>, df: Map<u32, u32>) -> Option<(u32, i64)> {
    match op {
        IrOp::Mul { lhs, rhs, .. } => if sr_const(c, rd, df, rhs.id) {
            Some((rhs.id, spec_log2(c[rhs.id] as int) as i64))
        } else if sr_const(c, rd, df, lhs.id) {
            Some((lhs.id, spec_log2(c[lhs.id] as int) as i64))
        } else {
            None
        },
        IrOp::Div { rhs, signed, .. } => if !signed && sr_const(c, rd, df, rhs.id) {
            Some((rhs.id, spec_log2(c[rhs.id] as int) as i64))
        } else {
            None
        },
        IrOp::Mod { rhs, signed, .. } => if !signed && sr_const(c, rd, df, rhs.id) {
            Some((rhs.id, (c[rhs.id] - 1) as i64))
        } else {
            None
        },
        _ => None,
    }
}

/// The new values of the constant registers that the reductions among the
/// first `n` instructions use.
pub open spec fn sr_vals(body: Seq<IrInstr>, c: Map<u32, i64>, rd: Map<u32, u32>, df: Map<u32, u32>, n: int) -> Map<u32, i64>
    decreases n,
{
    if n <= 0 {
        Map::empty()
    } else {
        let m = sr_vals(body, c, rd, df, n - 1);
        match sr_new_val(body[n - 1].op, c, rd, df) {
            Some((id, v)) => m.insert(id, v),
            None => m,
        }
    }
}

/// The instruction with its operation strength-reduced, if it can be.
pub open spec fn sr_instr(ins: IrInstr, c: Map<u32, i64>, rd: Map<u32, u32>, df: Map<u32, u32>) -> IrInstr {
    match sr_op(ins.op, c, rd, df) {
        Some(op) => IrInstr { op, line: ins.line },
        None => ins,
    }
}

/// A constant load with its value replaced by the shift amount or mask that
/// its register now carries.
pub open spec fn sr_reload(ins: IrInstr, vals: Map<u32, i64>) -> IrInstr {
    match ins.op {
        IrOp::LoadImm { dst, value } => IrInstr {
            op: IrOp::LoadImm { dst, value: if vals.contains_key(dst.id) { vals[dst.id] } else { value } },
            line: ins.line,
        },
        _ => ins,
    }
}

/// Some instruction of the body can be strength-reduced.
pub open spec fn sr_applies(body: Seq<IrInstr>) -> bool {
    let c = imm_map(body, body.len() as int);
    let rd = reads_map(body, body.len() as int);
    let df = defs_map(body, body.len() as int);
    exists|i: int| 0 <= i < body.len() && #[trigger] sr_op(body[i].op, c, rd, df) is Some
}

/// The body after strength reduction: the operations reduced, then, when
/// any was, the constant loads of the registers they use rewritten.
pub open spec fn sr_result(body: Seq<IrInstr>) -> Seq<IrInstr> {
    let c = imm_map(body, body.len() as int);
    let rd = reads_map(body, body.len() as int);
    let df = defs_map(body, body.len() as int);
    let p = body.map_values(|ins: IrInstr| sr_instr(ins, c, rd, df));
    if sr_applies(body) {
        let vals = sr_vals(body, c, rd, df, body.len() as int);
        p.map_values(|ins: IrInstr| sr_reload(ins, vals))
    } else {
        body
    }
}

/// Add one occurrence of each id, counted up to two.
fn bump_ids(m: &mut AssocMap<u32, u32>, ids: &Vec<u32>)
    requires
        old(m).wf(),
    ensures
        final(m).wf(),
        final(m)@ == bump(old(m)@, ids@),
{
    let ghost m0 = m@;
    let mut j: usize = 0;
    proof {
        assert(ids@.take(0) =~= Seq::<u32>::empty());
    }
    while j < ids.len()
        invariant
            j <= ids@.len(),
            m.wf(),
            m@ == bump(m0, ids@.take(j as int)),
        decreases ids@.len() - j,
    {
        let present = m.get(&ids[j]).is_some();
        m.insert(ids[j], if present { 2 } else { 1 });
        proof {
            assert(ids@.take(j + 1).drop_last() =~= ids@.take(j as int));
        }
        j += 1;
    }
    proof {
        assert(ids@.take(ids@.len() as int) =~= ids@);
    }
}

/// How often each vreg is read and written, counted up to two.
fn read_write_counts(body: &Vec<IrInstr>) -> (r: (AssocMap<u32, u32>, AssocMap<u32, u32>))
    ensures
        r.0.wf(),
        r.1.wf(),
        r.0@ == reads_map(body@, body@.len() as int),
        r.1@ == defs_map(body@, body@.len() as int),
{
    let mut reads: AssocMap<u32, u32> = AssocMap::new();
    let mut defs: AssocMap<u32, u32> = AssocMap::new();
    let mut i: usize = 0;
    proof {
        assert(reads@ =~= reads_map(body@, 0));
        assert(defs@ =~= defs_map(body@, 0));
    }
    while i < body.len()
        invariant
            i <= body@.len(),
            reads.wf(),
            defs.wf(),
            reads@ == reads_map(body@, i as int),
            defs@ == defs_map(body@, i as int),
        decreases body@.len() - i,
    {
        let srcs = collect_src_vregs(&body[i].op);
        bump_ids(&mut reads, &srcs);
        match get_dst_vreg(&body[i].op) {
            Some(d) => {
                let one = vec![d.id];
                assert(one@ == seq![d.id]);
                bump_ids(&mut defs, &one);
            },
            None => {},
        }
        i += 1;
    }
    (reads, defs)
}

/// Whether a vreg is such a constant (see [`sr_const`]), with its value.
fn sr_const_of(constants: &AssocMap<u32, i64>, reads: &AssocMap<u32, u32>, defs: &AssocMap<u32, u32>, id: u32) -> (r: Option<i64>)
    requires
        constants.wf(),
        reads.wf(),
        defs.wf(),
    ensures
        r is Some == sr_const(constants@, reads@, defs@, id),
        r matches Some(v) ==> v == constants@[id],
{
    match constants.get(&id) {
        Some(v) => {
            let once_read = match reads.get(&id) {
                Some(n) => *n == 1,
                None => false,
            };
            let once_written = match defs.get(&id) {
                Some(n) => *n == 1,
                None => false,
            };
            if *v > 0 && is_power_of_two(*v) && once_read && once_written {
                Some(*v)
            } else {
                None
            }
        },
        None => None,
    }
}

/// Replace multiplication, unsigned division and unsigned modulo by a
/// power-of-two constant with a shift or a mask, and rewrite the constant
/// to the shift amount or the mask.  Only a constant register that is
/// written once and read only by the reduced operation is rewritten, so no
/// other instruction sees a changed value.
pub fn strength_reduce(func: &mut IrFunction) -> (changed: bool)
    ensures
        same_header(*old(func), *final(func)),
        final(func).body@ == sr_result(old(func).body@),
        changed == sr_applies(old(func).body@),
        final(func).body@.len() == old(func).body@.len(),
        forall|i: int| 0 <= i < old(func).body@.len() ==> #[trigger] sr_rewritten(old(func).body@[i], final(func).body@[i]),
{
    let constants = imm_constants(&func.body);
    let (reads, defs) = read_write_counts(&func.body);
    let ghost body0 = func.body@;
    let ghost c = constants@;
    let ghost rd = reads@;
    let ghost df = defs@;
    let ghost p = body0.map_values(|ins: IrInstr| sr_instr(ins, c, rd, df));
    let mut vals: AssocMap<u32, i64> = AssocMap::new();
    let mut changed = false;
    let mut i: usize = 0;
    proof {
        assert(vals@ =~= sr_vals(body0, c, rd, df, 0));
    }
    while i < func.body.len()
        invariant
            i <= func.body@.len(),
            func.body@.len() == body0.len(),
            constants.wf(),
            reads.wf(),
            defs.wf(),
            vals.wf(),
            constants@ == c,
            reads@ == rd,
            defs@ == df,
            c == imm_map(body0, body0.len() as int),
            rd == reads_map(body0, body0.len() as int),
            df == defs_map(body0, body0.len() as int),
            p == body0.map_values(|ins: IrInstr| sr_instr(ins, c, rd, df)),
            vals@ == sr_vals(body0, c, rd, df, i as int),
            forall|k: int| 0 <= k < i ==> #[trigger] func.body@[k] == p[k],
            forall|k: int| i <= k < body0.len() ==> #[trigger] func.body@[k] == body0[k],
            changed == exists|k: int| 0 <= k < i && #[trigger] sr_op(body0[k].op, c, rd, df) is Some,
            same_header(*old(func), *func),
        decreases func.body@.len() - i,
    {
        let line = func.body[i].line;
        let step: Option<(IrOp, u32, i64)> = match &func.body[i].op {
            IrOp::Mul { dst, lhs, rhs, width, .. } => {
                match sr_const_of(&constants, &reads, &defs, rhs.id) {
                    Some(rv) => Some((IrOp::Shl { dst: *dst, lhs: *lhs, rhs: VReg::new(rhs.id, rhs.width), width: *width }, rhs.id, log2_of_pow2(rv))),
                    None => match sr_const_of(&constants, &reads, &defs, lhs.id) {
                        Some(lv) => Some((IrOp::Shl { dst: *dst, lhs: *rhs, rhs: VReg::new(lhs.id, lhs.width), width: *width }, lhs.id, log2_of_pow2(lv))),
                        None => None,
                    },
                }
            },
            IrOp::Div { dst, lhs, rhs, width, signed } => {
                if *signed {
                    None
                } else {
                    match sr_const_of(&constants, &reads, &defs, rhs.id) {
                        Some(rv) => Some((IrOp::Shr { dst: *dst, lhs: *lhs, rhs: VReg::new(rhs.id, rhs.width), width: *width, arithmetic: false }, rhs.id, log2_of_pow2(rv))),
                        None => None,
                    }
                }
            },
            IrOp::Mod { dst, lhs, rhs, width, signed } => {
                if *signed {
                    None
                } else {
                    match sr_const_of(&constants, &reads, &defs, rhs.id) {
                        Some(rv) => Some((IrOp::And { dst: *dst, lhs: *lhs, rhs: VReg::new(rhs.id, rhs.width), width: *width }, rhs.id, rv - 1)),
                        None => None,
                    }
                }
            },
            _ => None,
        };
        assert(step.is_some() == sr_op(body0[i as int].op, c, rd, df).is_some());
        match step {
            Some((op, id, v)) => {
                assert(sr_op(body0[i as int].op, c, rd, df) == Some(op));
                assert(sr_new_val(body0[i as int].op, c, rd, df) == Some((id, v)));
                func.body.set(i, IrInstr { op, line });
                vals.insert(id, v);
                changed = true;
            },
            None => {
                assert(sr_new_val(body0[i as int].op, c, rd, df) is None);
            },
        }
        proof {
            assert(p[i as int] == sr_instr(body0[i as int], c, rd, df));
            if exists|k: int| 0 <= k < i + 1 && #[trigger] sr_op(body0[k].op, c, rd, df) is Some {
                let k = choose|k: int| 0 <= k < i + 1 && #[trigger] sr_op(body0[k].op, c, rd, df) is Some;
                if k < i {
                    assert(changed);
                }
            }
        }
        i += 1;
    }
    proof {
        assert(func.body@ =~= p);
        assert forall|k: int| 0 <= k < body0.len() implies #[trigger] sr_rewritten(body0[k], p[k]) by {
            if sr_op(body0[k].op, c, rd, df) is None {
                assert(same_op(body0[k].op, body0[k].op));
            }
        }
    }
    if changed {
        let ghost vs = vals@;
        let mut k: usize = 0;
        while k < func.body.len()
            invariant
                k <= func.body@.len(),
                func.body@.len() == p.len(),
                vals.wf(),
                vals@ == vs,
                forall|t: int| 0 <= t < k ==> #[trigger] func.body@[t] == sr_reload(p[t], vs),
                forall|t: int| k <= t < p.len() ==> #[trigger] func.body@[t] == p[t],
                same_header(*old(func), *func),
            decreases func.body@.len() - k,
        {
            let line = func.body[k].line;
            let upd: Option<IrOp> = match &func.body[k].op {
                IrOp::LoadImm { dst, value } => {
                    let v = match vals.get(&dst.id) {
                        Some(s) => *s,
                        None => *value,
                    };
                    Some(IrOp::LoadImm { dst: *dst, value: v })
                },
                _ => None,
            };
            match upd {
                Some(op) => {
                    func.body.set(k, IrInstr { op, line });
                },
                None => {},
            }
            k += 1;
        }
        proof {
            assert(func.body@ =~= p.map_values(|ins: IrInstr| sr_reload(ins, vs)));
            assert forall|t: int| 0 <= t < body0.len() implies #[trigger] sr_rewritten(body0[t], func.body@[t]) by {
                assert(sr_rewritten(body0[t], p[t]));
            }
        }
    }
    changed
}

/// Whether a branch is taken when its condition register holds `v`.
pub open spec fn branch_taken(op: IrOp, v: int) -> bool {
    match op {
        IrOp::JumpIfTrue { .. } => v != 0,
        IrOp::JumpIfFalse { .. } => v == 0,
        _ => false,
    }
}

/// The result of an equality test of a value `v` against zero: 1 or 0.
pub open spec fn zero_compare(op: IrOp, v: int) -> int {
    match op {
        IrOp::Eq { .. } => if v == 0 { 1 } else { 0 },
        IrOp::Ne { .. } => if v != 0 { 1 } else { 0 },
        _ => 0,
    }
}

/// Compare-with-zero simplification keeps the control flow: where the
/// test at `i` of a vreg against zero and the branch on its result at
/// `i + 1` are rewritten, the test becomes a dead constant and the branch
/// tests that vreg itself, goes to the same label, and, for every value `v`
/// of the vreg, is taken exactly when the old branch was taken on the
/// test's result.
pub proof fn law_zero_branch_taken_alike(body: Seq<IrInstr>, c: Map<u32, i64>, u: Map<u32, u32>, i: int, v: int)
    requires
        0 <= i,
        i + 1 < body.len(),
        zero_rewrite(body, c, u, i) is Some,
    ensures
        ({
            let pair = zero_rewrite(body, c, u, i)->Some_0;
            let t = zero_test(body[i].op, c)->Some_0;
            &&& (body[i].op is Eq || body[i].op is Ne)
            &&& pair.0.op == (IrOp::LoadImm { dst: VReg { id: t.1, width: Width::W8 }, value: 0 })
            &&& (pair.1.op is JumpIfTrue || pair.1.op is JumpIfFalse)
            &&& (body[i + 1].op is JumpIfTrue || body[i + 1].op is JumpIfFalse)
            &&& branch_cond(pair.1.op).id == t.2.id
            &&& branch_target(pair.1.op) == branch_target(body[i + 1].op)
            &&& branch_cond(body[i + 1].op).id == t.1
            &&& branch_taken(pair.1.op, v) == branch_taken(body[i + 1].op, zero_compare(body[i].op, v))
        }),
{
}

/// The condition register of a branch.
pub open spec fn branch_cond(op: IrOp) -> VReg {
    match op {
        IrOp::JumpIfTrue { cond, .. } | IrOp::JumpIfFalse { cond, .. } => cond,
        _ => VReg { id: 0, width: Width::W8 },
    }
}

/// The target of a branch.
pub open spec fn branch_target(op: IrOp) -> Label {
    match op {
        IrOp::JumpIfTrue { target, .. } | IrOp::JumpIfFalse { target, .. } | IrOp::Jump { target } => target,
        _ => Label(0),
    }
}

} // verus!
