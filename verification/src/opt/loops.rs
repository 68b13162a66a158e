//! Loop passes on the linear body: natural-loop detection, loop-invariant
//! code motion, induction-variable strength reduction, and the sinking of
//! single-use loads towards their consumer.

use vstd::prelude::*;

use crate::ir::{IrFunction, IrInstr, IrOp, Label, VReg, Width, same_instr};
use crate::maps::{AssocMap, IdSet};
use crate::opt::arith::wrap_result;
use crate::opt::basic::{same_header, copied_from, hits, is_arrangement, rearranged, lemma_rearranged_refl, lemma_same_body_push};
use crate::ir::same_body;
use crate::opt::local::label_slots;
use crate::opt::ops::{get_dst_vreg, get_pure_dst, collect_src_vregs, op_dst, op_pure_dst, op_srcs, ids_of};

verus! {

/// Positions of the labels of a body (the last one for a label placed twice).
pub fn label_positions(body: &Vec<IrInstr>) -> (r: AssocMap<u32, usize>)
    ensures
        r.wf(),
        r@ == label_slots(body@, body@.len() as int),
        forall|id: u32| #[trigger] r@.contains_key(id) ==> r@[id] < body@.len()
            && body@[r@[id] as int].op == (IrOp::Label { label: Label(id) }),
{
    let mut m: AssocMap<u32, usize> = AssocMap::new();
    let mut i: usize = 0;
    proof {
        assert(m@ =~= label_slots(body@, 0));
    }
    while i < body.len()
        invariant
            i <= body@.len(),
            m.wf(),
            m@ == label_slots(body@, i as int),
            forall|id: u32| #[trigger] m@.contains_key(id) ==> m@[id] < i
                && body@[m@[id] as int].op == (IrOp::Label { label: Label(id) }),
        decreases body@.len() - i,
    {
        match &body[i].op {
            IrOp::Label { label } => {
                m.insert(label.0, i);
            },
            _ => {},
        }
        i += 1;
    }
    m
}

/// The label that a back-edge candidate jumps to: an unconditional jump,
/// or (when `conditional`) a jump-if-true.
pub open spec fn back_jump(op: IrOp, conditional: bool) -> Option<u32> {
    match op {
        IrOp::Jump { target } => Some(target.0),
        IrOp::JumpIfTrue { target, .. } => if conditional { Some(target.0) } else { None },
        _ => None,
    }
}

/// A natural loop of a body: a label at `h` and a later jump back to it at
/// `b` (a jump-if-true counts when `conditional`).
pub open spec fn is_loop(body: Seq<IrInstr>, h: int, b: int, conditional: bool) -> bool {
    &&& 0 <= h < b < body.len()
    &&& body[h].op matches IrOp::Label { label } && back_jump(body[b].op, conditional) == Some(label.0)
}

fn back_edge_target(op: &IrOp, conditional: bool) -> (r: Option<u32>)
    ensures
        r == back_jump(*op, conditional),
{
    match op {
        IrOp::Jump { target } => Some(target.0),
        IrOp::JumpIfTrue { target, .. } => if conditional {
            Some(target.0)
        } else {
            None
        },
        _ => None,
    }
}

/// The back edges among the first `n` instructions to a label placed
/// before them, as `(header, back_edge)` pairs in the order of the back
/// edges.
pub open spec fn raw_loops(body: Seq<IrInstr>, conditional: bool, n: int) -> Seq<(usize, usize)>
    decreases n,
{
    if n <= 0 {
        Seq::empty()
    } else {
        let r = raw_loops(body, conditional, n - 1);
        let slots = label_slots(body, body.len() as int);
        match back_jump(body[n - 1].op, conditional) {
            Some(t) => if slots.contains_key(t) && slots[t] < n - 1 {
                r.push((slots[t], (n - 1) as usize))
            } else {
                r
            },
            None => r,
        }
    }
}

/// The first `n` loops of `raw` that span `s` instructions.
pub open spec fn with_span(raw: Seq<(usize, usize)>, s: int, n: int) -> Seq<(usize, usize)>
    decreases n,
{
    if n <= 0 {
        Seq::empty()
    } else {
        with_span(raw, s, n - 1) + if raw[n - 1].1 - raw[n - 1].0 == s { seq![raw[n - 1]] } else { Seq::empty() }
    }
}

/// The loops of `raw` with spans below `m`, by span and then in order.
pub open spec fn sorted_loops(raw: Seq<(usize, usize)>, m: int) -> Seq<(usize, usize)>
    decreases m,
{
    if m <= 0 {
        Seq::empty()
    } else {
        sorted_loops(raw, m - 1) + with_span(raw, m - 1, raw.len() as int)
    }
}

/// The natural loops of a body as `(header, back_edge)` index pairs.
pub open spec fn natural_loops(body: Seq<IrInstr>, conditional: bool) -> Seq<(usize, usize)> {
    sorted_loops(raw_loops(body, conditional, body.len() as int), body.len() as int)
}

/// The natural loops of a body as `(header, back_edge)` index pairs,
/// innermost (smallest span) first; loops of equal span keep the order of
/// their back edges.
pub fn find_loops(body: &Vec<IrInstr>, conditional: bool) -> (r: Vec<(usize, usize)>)
    ensures
        r@ == natural_loops(body@, conditional),
        forall|k: int| 0 <= k < r@.len() ==> #[trigger] is_loop(body@, r@[k].0 as int, r@[k].1 as int, conditional),
        forall|a: int, b: int| 0 <= a < b < r@.len() ==> r@[a].1 - r@[a].0 <= r@[b].1 - r@[b].0,
{
    let labels = label_positions(body);
    let ghost raw_spec = raw_loops(body@, conditional, body@.len() as int);
    let mut raw: Vec<(usize, usize)> = Vec::new();
    let mut i: usize = 0;
    while i < body.len()
        invariant
            i <= body@.len(),
            labels.wf(),
            labels@ == label_slots(body@, body@.len() as int),
            raw@ == raw_loops(body@, conditional, i as int),
            forall|id: u32| #[trigger] labels@.contains_key(id) ==> labels@[id] < body@.len()
                && body@[labels@[id] as int].op == (IrOp::Label { label: Label(id) }),
            forall|k: int| 0 <= k < raw@.len() ==> #[trigger] is_loop(body@, raw@[k].0 as int, raw@[k].1 as int, conditional),
        decreases body@.len() - i,
    {
        match back_edge_target(&body[i].op, conditional) {
            Some(t) => {
                match labels.get(&t) {
                    Some(h) => {
                        if *h < i {
                            raw.push((*h, i));
                        }
                    },
                    None => {},
                }
            },
            None => {},
        }
        i += 1;
    }
    let mut out: Vec<(usize, usize)> = Vec::new();
    let mut s: usize = 0;
    while s < body.len()
        invariant
            raw@ == raw_spec,
            s <= body@.len(),
            out@ == sorted_loops(raw_spec, s as int),
            forall|k: int| 0 <= k < raw@.len() ==> #[trigger] is_loop(body@, raw@[k].0 as int, raw@[k].1 as int, conditional),
            forall|k: int| 0 <= k < out@.len() ==> #[trigger] is_loop(body@, out@[k].0 as int, out@[k].1 as int, conditional),
            forall|k: int| 0 <= k < out@.len() ==> out@[k].1 - out@[k].0 < s || (s == 0 && out@.len() == 0),
            forall|a: int, b: int| 0 <= a < b < out@.len() ==> out@[a].1 - out@[a].0 <= out@[b].1 - out@[b].0,
        decreases body@.len() - s,
    {
        let mut j: usize = 0;
        let ghost before = out@.len();
        let ghost base = out@;
        while j < raw.len()
            invariant
                raw@ == raw_spec,
                j <= raw@.len(),
                out@ == base + with_span(raw_spec, s as int, j as int),
                forall|k: int| 0 <= k < raw@.len() ==> #[trigger] is_loop(body@, raw@[k].0 as int, raw@[k].1 as int, conditional),
                forall|k: int| 0 <= k < out@.len() ==> #[trigger] is_loop(body@, out@[k].0 as int, out@[k].1 as int, conditional),
                before <= out@.len(),
                before == base.len(),
                forall|k: int| 0 <= k < before ==> out@[k].1 - out@[k].0 < s || (s == 0 && out@.len() == 0),
                forall|k: int| before <= k < out@.len() ==> out@[k].1 - out@[k].0 == s,
                forall|a: int, b: int| 0 <= a < b < before ==> out@[a].1 - out@[a].0 <= out@[b].1 - out@[b].0,
            decreases raw@.len() - j,
        {
            let (h, b) = raw[j];
            assert(is_loop(body@, raw@[j as int].0 as int, raw@[j as int].1 as int, conditional));
            if b - h == s {
                out.push((h, b));
            }
            proof {
                assert(out@ =~= base + with_span(raw_spec, s as int, j + 1));
            }
            j += 1;
        }
        assert forall|a: int, b: int| 0 <= a < b < out@.len() implies out@[a].1 - out@[a].0 <= out@[b].1 - out@[b].0 by {
            if b < before {
            } else if a < before {
                assert(out@[a].1 - out@[a].0 < s || (s == 0 && out@.len() == 0));
            } else {
            }
        }
        s += 1;
    }
    out
}

pub proof fn lemma_copied_refl(body: Seq<IrInstr>)
    ensures
        forall|k: int| 0 <= k < body.len() ==> #[trigger] copied_from(body[k], body),
{
    assert forall|k: int| 0 <= k < body.len() implies #[trigger] copied_from(body[k], body) by {
        crate::ir::lemma_same_instr_refl(body[k]);
    }
}

fn none_in(ids: &Vec<u32>, set: &IdSet) -> (r: bool)
    requires
        set.wf(),
    ensures
        r == (forall|k: int| 0 <= k < ids@.len() ==> !set@.contains_key(#[trigger] ids@[k])),
{
    let mut i: usize = 0;
    while i < ids.len()
        invariant
            i <= ids@.len(),
            set.wf(),
            forall|k: int| 0 <= k < i ==> !set@.contains_key(#[trigger] ids@[k]),
        decreases ids@.len() - i,
    {
        if set.contains_key(&ids[i]) {
            return false;
        }
        i += 1;
    }
    true
}

/// The vregs written among the instructions `h..n`.
pub open spec fn dst_ids_from(body: Seq<IrInstr>, h: int, n: int) -> Map<u32, ()>
    decreases n - h,
{
    if n <= h {
        Map::empty()
    } else {
        let m = dst_ids_from(body, h, n - 1);
        match op_dst(body[n - 1].op) {
            Some(d) => m.insert(d.id, ()),
            None => m,
        }
    }
}

/// No vreg that the operation reads is in `defs`.
pub open spec fn reads_none_of(op: IrOp, defs: Map<u32, ()>) -> bool {
    forall|k: int| 0 <= k < ids_of(op_srcs(op)).len() ==> !defs.contains_key(#[trigger] ids_of(op_srcs(op))[k])
}

/// The instructions of the loop among `h..n` that are hoisted, and the
/// vregs still written in the loop after them: a pure instruction other
/// than a constant load whose operands are not written in the loop (but by
/// instructions hoisted before it) is hoisted.
pub open spec fn licm_scan(body: Seq<IrInstr>, h: int, b: int, n: int) -> (Map<u32, ()>, Seq<usize>)
    decreases n - h,
{
    if n <= h {
        (dst_ids_from(body, h, b + 1), Seq::empty())
    } else {
        let (defs, hoist) = licm_scan(body, h, b, n - 1);
        let op = body[n - 1].op;
        if op_pure_dst(op) is Some && !(op is LoadImm) && reads_none_of(op, defs) {
            (match op_dst(op) { Some(d) => defs.remove(d.id), None => defs }, hoist.push((n - 1) as usize))
        } else {
            (defs, hoist)
        }
    }
}

/// The first loop from position `k` on that has instructions to hoist.
pub open spec fn licm_pick(body: Seq<IrInstr>, loops: Seq<(usize, usize)>, k: int) -> Option<int>
    decreases loops.len() - k,
{
    if k < 0 || k >= loops.len() {
        None
    } else if licm_scan(body, loops[k].0 as int, loops[k].1 as int, loops[k].1 + 1).1.len() > 0 {
        Some(k)
    } else {
        licm_pick(body, loops, k + 1)
    }
}

/// The first `n` instructions with those at the positions `hoist` moved,
/// in order, to just before the header at `h`.
pub open spec fn licm_body(body: Seq<IrInstr>, h: int, hoist: Seq<usize>, n: int) -> Seq<IrInstr>
    decreases n,
{
    if n <= 0 {
        Seq::empty()
    } else {
        licm_body(body, h, hoist, n - 1) + (if n - 1 == h {
            hoist.map_values(|x: usize| body[x as int])
        } else {
            Seq::empty()
        }) + (if hoist.contains((n - 1) as usize) { Seq::empty() } else { seq![body[n - 1]] })
    }
}

/// The body after loop-invariant code motion, if it changes.
pub open spec fn licm_result(body: Seq<IrInstr>) -> Option<Seq<IrInstr>> {
    let loops = natural_loops(body, true);
    match licm_pick(body, loops, 0) {
        Some(k) => Some(licm_body(body, loops[k].0 as int, licm_scan(body, loops[k].0 as int, loops[k].1 as int, loops[k].1 + 1).1,
            body.len() as int)),
        None => None,
    }
}

/// Hoist loop-invariant pure instructions (not bare constants) of the
/// innermost loop that has any to just before its header label.  Only
/// instructions of the body are moved; nothing is created.
pub fn loop_invariant_code_motion(func: &mut IrFunction) -> (changed: bool)
    ensures
        same_header(*old(func), *final(func)),
        !changed ==> final(func).body@ == old(func).body@,
        forall|k: int| 0 <= k < final(func).body@.len() ==> #[trigger] copied_from(final(func).body@[k], old(func).body@),
        rearranged(final(func).body@, old(func).body@),
        changed == licm_result(old(func).body@) is Some,
        changed ==> same_body(final(func).body@, licm_result(old(func).body@)->Some_0),
{
    let loops = find_loops(&func.body, true);
    let ghost body0 = func.body@;
    proof {
        lemma_copied_refl(body0);
        lemma_rearranged_refl(body0);
    }
    let mut changed = false;
    let mut li: usize = 0;
    while li < loops.len() && !changed
        invariant
            forall|k: int| 0 <= k < loops@.len() ==> #[trigger] is_loop(body0, loops@[k].0 as int, loops@[k].1 as int, true),
            same_header(*old(func), *func),
            body0 == old(func).body@,
            !changed ==> func.body@ == body0,
            forall|k: int| 0 <= k < func.body@.len() ==> #[trigger] copied_from(func.body@[k], body0),
            rearranged(func.body@, body0),
            loops@ == natural_loops(body0, true),
            li <= loops@.len(),
            !changed ==> licm_pick(body0, loops@, 0) == licm_pick(body0, loops@, li as int),
            changed ==> licm_result(body0) is Some && same_body(func.body@, licm_result(body0)->Some_0),
        decreases loops@.len() - li,
    {
        let (h, b) = loops[li];
        assert(is_loop(body0, loops@[li as int].0 as int, loops@[li as int].1 as int, true));
        let n = func.body.len();
        assert(b < n);
        assert(func.body@ == body0);
        let mut loop_defs: IdSet = AssocMap::new();
        let mut idx: usize = h;
        while idx <= b
            invariant
                h <= idx <= b + 1,
                b < func.body@.len(),
                b < usize::MAX,
                func.body@ == body0,
                loop_defs.wf(),
                loop_defs@ == dst_ids_from(body0, h as int, idx as int),
            decreases b + 1 - idx,
        {
            match get_dst_vreg(&func.body[idx].op) {
                Some(d) => {
                    loop_defs.insert(d.id, ());
                },
                None => {},
            }
            idx += 1;
        }
        let mut hoist: Vec<usize> = Vec::new();
        let mut hoist_set: AssocMap<usize, ()> = AssocMap::new();
        idx = h;
        while idx <= b
            invariant
                h <= idx <= b + 1,
                b < func.body@.len(),
                b < usize::MAX,
                loop_defs.wf(),
                hoist_set.wf(),
                forall|k: int| 0 <= k < hoist@.len() ==> h <= #[trigger] hoist@[k] < idx,
                forall|a: int, c: int| #![trigger hoist@[a], hoist@[c]] 0 <= a < c < hoist@.len() ==> hoist@[a] < hoist@[c],
                forall|x: usize| #[trigger] hoist_set@.contains_key(x) <==> exists|k: int| 0 <= k < hoist@.len() && hoist@[k] == x,
                func.body@ == body0,
                (loop_defs@, hoist@) == licm_scan(body0, h as int, b as int, idx as int),
            decreases b + 1 - idx,
        {
            let op = &func.body[idx].op;
            let is_imm = match op {
                IrOp::LoadImm { .. } => true,
                _ => false,
            };
            if get_pure_dst(op).is_some() && !is_imm {
                let srcs = collect_src_vregs(op);
                if none_in(&srcs, &loop_defs) {
                    let ghost hs0 = hoist_set@;
                    let ghost ho0 = hoist@;
                    hoist.push(idx);
                    hoist_set.insert(idx, ());
                    proof {
                        assert forall|x: usize| #[trigger] hoist_set@.contains_key(x) <==> exists|k: int| 0 <= k < hoist@.len() && hoist@[k] == x by {
                            if x == idx {
                                assert(hoist@[ho0.len() as int] == x);
                            } else if hs0.contains_key(x) {
                                let k = choose|k: int| 0 <= k < ho0.len() && ho0[k] == x;
                                assert(hoist@[k] == x);
                            } else if exists|k: int| 0 <= k < hoist@.len() && hoist@[k] == x {
                                let k = choose|k: int| 0 <= k < hoist@.len() && hoist@[k] == x;
                                assert(k < ho0.len());
                                assert(ho0[k] == x);
                            }
                        }
                    }
                    match get_dst_vreg(op) {
                        Some(d) => {
                            loop_defs.remove(&d.id);
                        },
                        None => {},
                    }
                }
            }
            idx += 1;
        }
        assert(hoist@ == licm_scan(body0, h as int, b as int, b + 1).1);
        if hoist.len() > 0 {
            let mut new_body: Vec<IrInstr> = Vec::new();
            let ghost mut p: Seq<int> = Seq::empty();
            let mut i: usize = 0;
            while i < func.body.len()
                invariant
                    func.body@ == body0,
                    n == body0.len(),
                    h < b < n,
                    i <= n,
                    hoist_set.wf(),
                    forall|k: int| 0 <= k < hoist@.len() ==> h <= #[trigger] hoist@[k] <= b,
                    forall|a: int, c: int| #![trigger hoist@[a], hoist@[c]] 0 <= a < c < hoist@.len() ==> hoist@[a] < hoist@[c],
                    forall|x: usize| #[trigger] hoist_set@.contains_key(x) <==> exists|k: int| 0 <= k < hoist@.len() && hoist@[k] == x,
                    forall|k: int| 0 <= k < new_body@.len() ==> #[trigger] copied_from(new_body@[k], body0),
                    same_body(new_body@, licm_body(body0, h as int, hoist@, i as int)),
                    p.len() == new_body@.len(),
                    forall|k: int| 0 <= k < p.len() ==> 0 <= #[trigger] p[k] < n && same_instr(new_body@[k], body0[p[k]]),
                    forall|a: int, c: int| #![trigger p[a], p[c]] 0 <= a < c < p.len() ==> p[a] != p[c],
                    forall|k: int| 0 <= k < p.len() ==> (#[trigger] p[k] < i && !hoist_set@.contains_key(p[k] as usize))
                        || (i > h && hoist_set@.contains_key(p[k] as usize)),
                    forall|j: int| 0 <= j < i && !hoist_set@.contains_key(j as usize) ==> #[trigger] hits(p, j),
                    i > h ==> forall|t: int| 0 <= t < hoist@.len() ==> #[trigger] hits(p, hoist@[t] as int),
                decreases func.body@.len() - i,
            {
                if i == h {
                    let mut t: usize = 0;
                    while t < hoist.len()
                        invariant
                            func.body@ == body0,
                            n == body0.len(),
                            h < b < n,
                            i == h,
                            t <= hoist@.len(),
                            hoist_set.wf(),
                            forall|k: int| 0 <= k < hoist@.len() ==> h <= #[trigger] hoist@[k] <= b,
                            forall|a: int, c: int| #![trigger hoist@[a], hoist@[c]] 0 <= a < c < hoist@.len() ==> hoist@[a] < hoist@[c],
                            forall|x: usize| #[trigger] hoist_set@.contains_key(x) <==> exists|k: int| 0 <= k < hoist@.len() && hoist@[k] == x,
                            forall|k: int| 0 <= k < new_body@.len() ==> #[trigger] copied_from(new_body@[k], body0),
                            same_body(new_body@, licm_body(body0, h as int, hoist@, i as int) + hoist@.take(t as int).map_values(|x: usize| body0[x as int])),
                            p.len() == new_body@.len(),
                            forall|k: int| 0 <= k < p.len() ==> 0 <= #[trigger] p[k] < n && same_instr(new_body@[k], body0[p[k]]),
                            forall|a: int, c: int| #![trigger p[a], p[c]] 0 <= a < c < p.len() ==> p[a] != p[c],
                            forall|k: int| 0 <= k < p.len() ==> (#[trigger] p[k] < h && !hoist_set@.contains_key(p[k] as usize))
                                || (exists|u: int| 0 <= u < t && hoist@[u] == p[k]),
                            forall|j: int| 0 <= j < h && !hoist_set@.contains_key(j as usize) ==> #[trigger] hits(p, j),
                            forall|u: int| 0 <= u < t ==> #[trigger] hits(p, hoist@[u] as int),
                        decreases hoist@.len() - t,
                    {
                        let hi = hoist[t];
                        assert(h <= hoist@[t as int] <= b);
                        let c = func.body[hi].clone();
                        assert(same_instr(c, body0[hi as int]));
                        proof {
                            let sp = licm_body(body0, h as int, hoist@, i as int) + hoist@.take(t as int).map_values(|x: usize| body0[x as int]);
                            lemma_same_body_push(new_body@, sp, c, body0[hi as int]);
                            assert(sp.push(body0[hi as int]) =~= licm_body(body0, h as int, hoist@, i as int) + hoist@.take(t + 1).map_values(|x: usize| body0[x as int]));
                        }
                        proof {
                            assert forall|k: int| 0 <= k < p.len() implies p[k] != hi as int by {
                                if p[k] < h && !hoist_set@.contains_key(p[k] as usize) {
                                } else {
                                    let u = choose|u: int| 0 <= u < t && hoist@[u] == p[k];
                                    assert(hoist@[u] < hoist@[t as int]);
                                }
                            }
                            let p0 = p;
                            p = p.push(hi as int);
                            assert forall|u: int| 0 <= u < t + 1 implies #[trigger] hits(p, hoist@[u] as int) by {
                                if u < t {
                                    assert(hits(p0, hoist@[u] as int));
                                    let k = choose|k: int| 0 <= k < p0.len() && p0[k] == hoist@[u];
                                    assert(p[k] == hoist@[u]);
                                } else {
                                    assert(p[p0.len() as int] == hoist@[u]);
                                }
                            }
                            assert forall|j: int| 0 <= j < h && !hoist_set@.contains_key(j as usize) implies #[trigger] hits(p, j) by {
                                assert(hits(p0, j));
                                let k = choose|k: int| 0 <= k < p0.len() && p0[k] == j;
                                assert(p[k] == j);
                            }
                            assert forall|k: int| 0 <= k < p.len() implies (#[trigger] p[k] < h && !hoist_set@.contains_key(p[k] as usize))
                                || (exists|u: int| 0 <= u < t + 1 && hoist@[u] == p[k]) by {
                                if k < p0.len() {
                                    assert(p[k] == p0[k]);
                                    if !(p0[k] < h && !hoist_set@.contains_key(p0[k] as usize)) {
                                        let u = choose|u: int| 0 <= u < t && hoist@[u] == p0[k];
                                        assert(0 <= u < t + 1 && hoist@[u] == p[k]);
                                    }
                                } else {
                                    assert(hoist@[t as int] == p[k]);
                                }
                            }
                        }
                        new_body.push(c);
                        assert(copied_from(new_body@[new_body@.len() - 1], body0));
                        t += 1;
                    }
                    proof {
                        assert forall|k: int| 0 <= k < p.len() implies (#[trigger] p[k] < i && !hoist_set@.contains_key(p[k] as usize))
                            || (i + 1 > h && hoist_set@.contains_key(p[k] as usize)) by {
                            if !(p[k] < h && !hoist_set@.contains_key(p[k] as usize)) {
                                let u = choose|u: int| 0 <= u < hoist@.len() && hoist@[u] == p[k];
                                assert(hoist_set@.contains_key(hoist@[u]));
                            }
                        }
                    }
                }
                let ghost mid = p;
                let ghost spec_mid = licm_body(body0, h as int, hoist@, i as int) + (if i == h {
                    hoist@.map_values(|x: usize| body0[x as int])
                } else {
                    Seq::<IrInstr>::empty()
                });
                proof {
                    if i == h {
                        assert(hoist@.take(hoist@.len() as int) =~= hoist@);
                    } else {
                        assert(spec_mid =~= licm_body(body0, h as int, hoist@, i as int));
                    }
                    assert(same_body(new_body@, spec_mid));
                    assert(hoist@.contains(i) == hoist_set@.contains_key(i)) by {
                        if hoist@.contains(i) {
                            let k = choose|k: int| 0 <= k < hoist@.len() && hoist@[k] == i;
                        }
                    }
                }
                if !hoist_set.contains_key(&i) {
                    let c = func.body[i].clone();
                    assert(same_instr(c, body0[i as int]));
                    proof {
                        lemma_same_body_push(new_body@, spec_mid, c, body0[i as int]);
                        assert(spec_mid.push(body0[i as int]) =~= licm_body(body0, h as int, hoist@, i + 1));
                    }
                    proof {
                        assert forall|k: int| 0 <= k < p.len() implies p[k] != i as int by {
                        }
                        p = p.push(i as int);
                        assert forall|j: int| 0 <= j < i + 1 && !hoist_set@.contains_key(j as usize) implies #[trigger] hits(p, j) by {
                            if j < i {
                                assert(hits(mid, j));
                                let k = choose|k: int| 0 <= k < mid.len() && mid[k] == j;
                                assert(p[k] == j);
                            } else {
                                assert(p[mid.len() as int] == j);
                            }
                        }
                        if i + 1 > h {
                            assert forall|t: int| 0 <= t < hoist@.len() implies #[trigger] hits(p, hoist@[t] as int) by {
                                assert(hits(mid, hoist@[t] as int));
                                let k = choose|k: int| 0 <= k < mid.len() && mid[k] == hoist@[t];
                                assert(p[k] == hoist@[t]);
                            }
                        }
                    }
                    new_body.push(c);
                    assert(copied_from(new_body@[new_body@.len() - 1], body0));
                } else {
                    proof {
                        let k = choose|k: int| 0 <= k < hoist@.len() && hoist@[k] == i;
                        assert(h <= hoist@[k] <= b);
                        assert(spec_mid =~= licm_body(body0, h as int, hoist@, i + 1));
                    }
                }
                i += 1;
            }
            proof {
                assert forall|j: int| 0 <= j < body0.len() implies #[trigger] hits(p, j) by {
                    if hoist_set@.contains_key(j as usize) {
                        let t = choose|t: int| 0 <= t < hoist@.len() && hoist@[t] == j as usize;
                        assert(#[trigger] hits(p, hoist@[t] as int));
                    }
                }
                assert(is_arrangement(p, new_body@, body0));
                assert(licm_pick(body0, loops@, li as int) == Some(li as int));
                assert(licm_result(body0) == Some(licm_body(body0, h as int, hoist@, n as int)));
            }
            func.body = new_body;
            changed = true;
        } else {
            proof {
                assert(licm_pick(body0, loops@, li as int) == licm_pick(body0, loops@, li + 1));
            }
        }
        li += 1;
    }
    changed
}

/// The instruction names vreg `id` as its destination or as a source.
pub open spec fn mentions_id(ins: IrInstr, id: u32) -> bool {
    (op_dst(ins.op) matches Some(d) && d.id == id) || ids_of(op_srcs(ins.op)).contains(id)
}

/// Every vreg id that the body mentions is below `r`.
pub open spec fn ids_below(body: Seq<IrInstr>, r: int) -> bool {
    forall|i: int, id: u32| 0 <= i < body.len() && #[trigger] mentions_id(body[i], id) ==> id < r
}

/// `r` is one past the largest vreg id that the body mentions (zero when
/// it mentions none).
pub open spec fn is_id_bound(body: Seq<IrInstr>, r: int) -> bool {
    &&& 0 <= r <= u32::MAX + 1
    &&& ids_below(body, r)
    &&& r == 0 || exists|i: int| 0 <= i < body.len() && #[trigger] mentions_id(body[i], (r - 1) as u32)
}

/// One past the largest vreg id that the body mentions.
pub open spec fn vreg_bound(body: Seq<IrInstr>) -> int {
    choose|r: int| is_id_bound(body, r)
}

/// There is one such bound.
pub proof fn lemma_id_bound_unique(body: Seq<IrInstr>, r: int)
    requires
        is_id_bound(body, r),
    ensures
        vreg_bound(body) == r,
{
    let q = vreg_bound(body);
    assert(is_id_bound(body, q));
    if q < r {
        let i = choose|i: int| 0 <= i < body.len() && #[trigger] mentions_id(body[i], (r - 1) as u32);
        assert(((r - 1) as u32) < q);
    } else if r < q {
        let i = choose|i: int| 0 <= i < body.len() && #[trigger] mentions_id(body[i], (q - 1) as u32);
        assert(((q - 1) as u32) < r);
    }
}

/// One past the largest vreg id that a body mentions as a destination or a
/// source (zero for a body that mentions none), as a wide number.
pub fn vreg_id_bound(body: &Vec<IrInstr>) -> (r: u64)
    ensures
        r <= u32::MAX as u64 + 1,
        ids_below(body@, r as int),
        r == 0 || exists|i: int| 0 <= i < body@.len() && #[trigger] mentions_id(body@[i], (r - 1) as u32),
        r == vreg_bound(body@),
{
    let mut m: u64 = 0;
    let mut i: usize = 0;
    while i < body.len()
        invariant
            i <= body@.len(),
            m <= u32::MAX as u64 + 1,
            forall|k: int, id: u32| 0 <= k < i && #[trigger] mentions_id(body@[k], id) ==> id < m,
            m == 0 || exists|k: int| 0 <= k < i && #[trigger] mentions_id(body@[k], (m - 1) as u32),
        decreases body@.len() - i,
    {
        let ghost m0 = m;
        match get_dst_vreg(&body[i].op) {
            Some(d) => {
                if d.id as u64 >= m {
                    m = d.id as u64 + 1;
                    assert(mentions_id(body@[i as int], (m - 1) as u32));
                }
            },
            None => {},
        }
        let srcs = collect_src_vregs(&body[i].op);
        let mut j: usize = 0;
        while j < srcs.len()
            invariant
                i < body@.len(),
                srcs@ == ids_of(op_srcs(body@[i as int].op)),
                m0 <= m <= u32::MAX as u64 + 1,
                forall|k: int, id: u32| 0 <= k < i && #[trigger] mentions_id(body@[k], id) ==> id < m,
                op_dst(body@[i as int].op) matches Some(d) ==> d.id < m,
                forall|t: int| 0 <= t < j ==> srcs@[t] < m,
                m == 0 || exists|k: int| 0 <= k <= i && #[trigger] mentions_id(body@[k], (m - 1) as u32),
            decreases srcs@.len() - j,
        {
            if srcs[j] as u64 >= m {
                m = srcs[j] as u64 + 1;
                assert(srcs@.contains(srcs@[j as int]));
                assert(mentions_id(body@[i as int], (m - 1) as u32));
            }
            j += 1;
        }
        assert forall|k: int, id: u32| 0 <= k < i + 1 && #[trigger] mentions_id(body@[k], id) implies id < m by {
            if k == i {
                if ids_of(op_srcs(body@[k].op)).contains(id) {
                    let t = choose|t: int| 0 <= t < srcs@.len() && srcs@[t] == id;
                }
            }
        }
        i += 1;
    }
    proof {
        lemma_id_bound_unique(body@, m as int);
    }
    m
}

/// Cheap pure loads that may be moved towards their single consumer.
/// Cheap pure loads that may be moved towards their single consumer.
pub open spec fn sinkable(op: IrOp) -> bool {
    op is LoadImm || op is AddrOfGlobal || op is LoadPtr || op is LoadGlobal
}

/// Operations that write memory or end a basic block.
pub open spec fn sink_barrier(op: IrOp) -> bool {
    op is StoreGlobal || op is StoreLocal || op is StorePtr || op is Call || op is Label || op is Jump || op is JumpIfTrue
        || op is JumpIfFalse || op is Return
}

/// No barrier stands strictly between `from` and `to`.
pub open spec fn safe_between(body: Seq<IrInstr>, from: int, to: int) -> bool {
    forall|k: int| from < k < to ==> !sink_barrier(#[trigger] body[k].op)
}

/// The position of the last definition of each vreg among the first `n`
/// instructions.
pub open spec fn def_sites(body: Seq<IrInstr>, n: int) -> Map<u32, usize>
    decreases n,
{
    if n <= 0 {
        Map::empty()
    } else {
        let m = def_sites(body, n - 1);
        match op_dst(body[n - 1].op) {
            Some(d) => m.insert(d.id, (n - 1) as usize),
            None => m,
        }
    }
}

/// The number of reads of each vreg (saturating) and the position of its
/// first read, with the reads `ids` at `at` added.
pub open spec fn add_uses(m: Map<u32, (usize, usize)>, ids: Seq<u32>, at: usize) -> Map<u32, (usize, usize)>
    decreases ids.len(),
{
    if ids.len() == 0 {
        m
    } else {
        let m2 = add_uses(m, ids.drop_last(), at);
        let id = ids.last();
        let (c, f) = if m2.contains_key(id) { m2[id] } else { (0usize, 0usize) };
        if c == 0 {
            m2.insert(id, (1usize, at))
        } else {
            m2.insert(id, (if c + 1 > usize::MAX { usize::MAX } else { (c + 1) as usize }, f))
        }
    }
}

/// The reads of each vreg among the first `n` instructions.
pub open spec fn use_info(body: Seq<IrInstr>, n: int) -> Map<u32, (usize, usize)>
    decreases n,
{
    if n <= 0 {
        Map::empty()
    } else {
        add_uses(use_info(body, n - 1), ids_of(op_srcs(body[n - 1].op)), (n - 1) as usize)
    }
}

/// The reads of a vreg: how many and where the first is.
pub open spec fn uses_at(uses: Map<u32, (usize, usize)>, id: u32) -> (usize, usize) {
    if uses.contains_key(id) { uses[id] } else { (0usize, 0usize) }
}

/// The single-use sinkable instruction just before `cur` that defines its
/// only operand, if it can be sunk to `use_idx` too.
pub open spec fn chain_step(body: Seq<IrInstr>, defs: Map<u32, usize>, uses: Map<u32, (usize, usize)>, use_idx: int, cur: int) -> Option<int> {
    let srcs = ids_of(op_srcs(body[cur].op));
    if srcs.len() != 1 {
        None
    } else {
        let src = srcs[0];
        if defs.contains_key(src) && defs[src] < cur && cur - defs[src] == 1 {
            let d = defs[src] as int;
            if sinkable(body[d].op) && uses_at(uses, src).0 == 1 && safe_between(body, d, use_idx) {
                Some(d)
            } else {
                None
            }
        } else {
            None
        }
    }
}

/// The instruction at `cur` and the chain of its dependencies sunk with it.
pub open spec fn sink_chain(body: Seq<IrInstr>, defs: Map<u32, usize>, uses: Map<u32, (usize, usize)>, use_idx: int, cur: int) -> Seq<usize>
    decreases cur,
{
    seq![cur as usize] + match chain_step(body, defs, uses, use_idx, cur) {
        Some(d) => if 0 <= d < cur { sink_chain(body, defs, uses, use_idx, d) } else { Seq::empty() },
        None => Seq::empty(),
    }
}

/// A sinkable instruction read exactly once, more than one instruction
/// later, with no barrier in between: the position of its use and the
/// chain that moves there.
pub open spec fn sink_candidate(body: Seq<IrInstr>, defs: Map<u32, usize>, uses: Map<u32, (usize, usize)>, idx: int) -> Option<(int, Seq<usize>)> {
    let op = body[idx].op;
    if sinkable(op) && op_dst(op) is Some {
        let u = uses_at(uses, op_dst(op)->Some_0.id);
        if u.0 == 1 && u.1 > idx + 1 && safe_between(body, idx, u.1 as int) {
            Some((u.1 as int, sink_chain(body, defs, uses, u.1 as int, idx)))
        } else {
            None
        }
    } else {
        None
    }
}

/// The moves `(use, position)` for a chain: dependencies first.
pub open spec fn chain_moves(ch: Seq<usize>, u: int) -> Seq<(usize, usize)> {
    Seq::new(ch.len(), |j: int| (u as usize, ch[ch.len() - 1 - j]))
}

/// The positions removed, the moves, and whether any candidate was found
/// among the first `n` instructions; a chain that overlaps one already
/// taken is skipped.
pub open spec fn sink_plan(body: Seq<IrInstr>, n: int) -> (Map<usize, ()>, Seq<(usize, usize)>, bool)
    decreases n,
{
    if n <= 0 {
        (Map::empty(), Seq::empty(), false)
    } else {
        let (rm, mv, any) = sink_plan(body, n - 1);
        let len = body.len() as int;
        match sink_candidate(body, def_sites(body, len), use_info(body, len), n - 1) {
            Some((u, ch)) => if exists|t: int| 0 <= t < ch.len() && rm.contains_key(#[trigger] ch[t]) {
                (rm, mv, true)
            } else {
                (Map::new(|x: usize| rm.contains_key(x) || ch.contains(x), |x: usize| ()), mv + chain_moves(ch, u), true)
            },
            None => (rm, mv, any),
        }
    }
}

/// The instructions moved to just before position `i`, among the first
/// `m` moves.
pub open spec fn moved_to(body: Seq<IrInstr>, mv: Seq<(usize, usize)>, i: int, m: int) -> Seq<IrInstr>
    decreases m,
{
    if m <= 0 {
        Seq::empty()
    } else {
        moved_to(body, mv, i, m - 1) + if mv[m - 1].0 == i { seq![body[mv[m - 1].1 as int]] } else { Seq::empty() }
    }
}

/// The first `n` positions of the body after the moves.
pub open spec fn sink_out(body: Seq<IrInstr>, mv: Seq<(usize, usize)>, rm: Map<usize, ()>, n: int) -> Seq<IrInstr>
    decreases n,
{
    if n <= 0 {
        Seq::empty()
    } else {
        sink_out(body, mv, rm, n - 1) + moved_to(body, mv, n - 1, mv.len() as int) + if rm.contains_key((n - 1) as usize) {
            Seq::empty()
        } else {
            seq![body[n - 1]]
        }
    }
}

fn is_sinkable(op: &IrOp) -> (r: bool)
    ensures
        r == sinkable(*op),
{
    match op {
        IrOp::LoadImm { .. } | IrOp::AddrOfGlobal { .. } | IrOp::LoadPtr { .. } | IrOp::LoadGlobal { .. } => true,
        _ => false,
    }
}

fn is_sink_barrier(op: &IrOp) -> (r: bool)
    ensures
        r == sink_barrier(*op),
{
    match op {
        IrOp::StoreGlobal { .. } | IrOp::StoreLocal { .. } | IrOp::StorePtr { .. } | IrOp::Call { .. }
        | IrOp::Label { .. } | IrOp::Jump { .. } | IrOp::JumpIfTrue { .. } | IrOp::JumpIfFalse { .. }
        | IrOp::Return { .. } => true,
        _ => false,
    }
}

/// No barrier stands strictly between `from` and `to`.
fn safe_to_sink(body: &Vec<IrInstr>, from: usize, to: usize) -> (r: bool)
    requires
        from < to <= body@.len(),
    ensures
        r == safe_between(body@, from as int, to as int),
{
    let mut i: usize = from + 1;
    while i < to
        invariant
            from < i <= to,
            to <= body@.len(),
            forall|k: int| from < k < i ==> !sink_barrier(#[trigger] body@[k].op),
        decreases to - i,
    {
        if is_sink_barrier(&body[i].op) {
            return false;
        }
        i += 1;
    }
    true
}

/// Number of reads of a vreg and the position of its first read.
fn uses_of(m: &AssocMap<u32, (usize, usize)>, id: u32) -> (r: (usize, usize))
    requires
        m.wf(),
    ensures
        r == uses_at(m@, id),
        m@.contains_key(id) ==> r == m@[id],
        !m@.contains_key(id) ==> r.0 == 0,
{
    match m.get(&id) {
        Some(u) => *u,
        None => (0, 0),
    }
}

/// Sink cheap single-use loads (with their single-use dependency chains)
/// to just before their consumer within the same basic block.  Only
/// instructions of the body are moved; nothing is created.
pub fn sink_w8_loads(func: &mut IrFunction) -> (changed: bool)
    ensures
        same_header(*old(func), *final(func)),
        !changed ==> final(func).body@ == old(func).body@,
        forall|k: int| 0 <= k < final(func).body@.len() ==> #[trigger] copied_from(final(func).body@[k], old(func).body@),
        rearranged(final(func).body@, old(func).body@),
        changed == sink_plan(old(func).body@, old(func).body@.len() as int).2,
        changed ==> same_body(final(func).body@, sink_out(old(func).body@, sink_plan(old(func).body@, old(func).body@.len() as int).1,
            sink_plan(old(func).body@, old(func).body@.len() as int).0, old(func).body@.len() as int)),
{
    let ghost body0 = func.body@;
    let n0 = func.body.len();
    proof {
        lemma_copied_refl(body0);
        lemma_rearranged_refl(body0);
    }
    let mut def_site: AssocMap<u32, usize> = AssocMap::new();
    let mut uses: AssocMap<u32, (usize, usize)> = AssocMap::new();
    let mut i: usize = 0;
    while i < func.body.len()
        invariant
            i <= func.body@.len(),
            func.body@ == body0,
            def_site.wf(),
            uses.wf(),
            def_site@ == def_sites(body0, i as int),
            uses@ == use_info(body0, i as int),
            forall|k: u32| #[trigger] def_site@.contains_key(k) ==> def_site@[k] < func.body@.len(),
            forall|k: u32| #[trigger] uses@.contains_key(k) ==> uses@[k].1 < func.body@.len(),
        decreases func.body@.len() - i,
    {
        match get_dst_vreg(&func.body[i].op) {
            Some(d) => {
                def_site.insert(d.id, i);
            },
            None => {},
        }
        let srcs = collect_src_vregs(&func.body[i].op);
        let ghost u0 = uses@;
        let mut j: usize = 0;
        proof {
            assert(srcs@.take(0) =~= Seq::<u32>::empty());
        }
        while j < srcs.len()
            invariant
                i < func.body@.len(),
                j <= srcs@.len(),
                uses.wf(),
                uses@ == add_uses(u0, srcs@.take(j as int), i as usize),
                forall|k: u32| #[trigger] uses@.contains_key(k) ==> uses@[k].1 < func.body@.len(),
            decreases srcs@.len() - j,
        {
            proof {
                assert(srcs@.take(j + 1).drop_last() =~= srcs@.take(j as int));
            }
            let (n, first) = uses_of(&uses, srcs[j]);
            if n == 0 {
                uses.insert(srcs[j], (1, i));
            } else {
                uses.insert(srcs[j], (n.saturating_add(1), first));
            }
            j += 1;
        }
        proof {
            assert(srcs@.take(srcs@.len() as int) =~= srcs@);
        }
        i += 1;
    }
    // (use position, index of the instruction to copy there), in order.
    let mut moves: Vec<(usize, usize)> = Vec::new();
    let mut removed: AssocMap<usize, ()> = AssocMap::new();
    let mut any = false;
    let mut idx: usize = 0;
    let ghost dm = def_site@;
    let ghost um = uses@;
    proof {
        assert(removed@ =~= sink_plan(body0, 0).0);
    }
    while idx < func.body.len()
        invariant
            func.body@ == body0,
            n0 == body0.len(),
            def_site.wf(),
            uses.wf(),
            removed.wf(),
            def_site@ == dm,
            uses@ == um,
            dm == def_sites(body0, n0 as int),
            um == use_info(body0, n0 as int),
            idx <= n0,
            (removed@, moves@, any) == sink_plan(body0, idx as int),
            forall|k: u32| #[trigger] def_site@.contains_key(k) ==> def_site@[k] < func.body@.len(),
            forall|k: u32| #[trigger] uses@.contains_key(k) ==> uses@[k].1 < func.body@.len(),
            forall|k: int| 0 <= k < moves@.len() ==> #[trigger] moves@[k].1 < func.body@.len() && moves@[k].0 < func.body@.len(),
            forall|a: int, c: int| #![trigger moves@[a], moves@[c]] 0 <= a < c < moves@.len() ==> moves@[a].1 != moves@[c].1,
            forall|x: usize| #[trigger] removed@.contains_key(x) <==> exists|k: int| 0 <= k < moves@.len() && moves@[k].1 == x,
        decreases func.body@.len() - idx,
    {
        let op = &func.body[idx].op;
        if is_sinkable(op) {
            match get_dst_vreg(op) {
                Some(dst) => {
                    let (n, use_idx) = uses_of(&uses, dst.id);
                    if n == 1 && use_idx > idx + 1 && safe_to_sink(&func.body, idx, use_idx) {
                        let mut chain: Vec<usize> = Vec::new();
                        chain.push(idx);
                        let mut cur: usize = idx;
                        let mut stop = false;
                        while !stop
                            invariant
                                cur <= idx,
                                idx < use_idx,
                                use_idx < func.body@.len(),
                                def_site.wf(),
                                uses.wf(),
                                forall|k: u32| #[trigger] def_site@.contains_key(k) ==> def_site@[k] < func.body@.len(),
                                forall|k: int| 0 <= k < chain@.len() ==> #[trigger] chain@[k] < func.body@.len(),
                                chain@.len() >= 1,
                                chain@[chain@.len() - 1] == cur,
                                forall|a: int, c: int| #![trigger chain@[a], chain@[c]] 0 <= a < c < chain@.len() ==> chain@[a] > chain@[c],
                                func.body@ == body0,
                                def_site@ == dm,
                                uses@ == um,
                                (if stop { chain@ } else { chain@.drop_last() + sink_chain(body0, dm, um, use_idx as int, cur as int) })
                                    == sink_chain(body0, dm, um, use_idx as int, idx as int),
                            decreases cur + (if stop { 0int } else { 1int }),
                        {
                            let ghost ch0 = chain@;
                            let srcs = collect_src_vregs(&func.body[cur].op);
                            if srcs.len() != 1 {
                                stop = true;
                                proof {
                                    assert(chain_step(body0, dm, um, use_idx as int, cur as int) is None);
                                    assert(chain@ =~= ch0.drop_last() + seq![cur]);
                                }
                            } else {
                                let src_id = srcs[0];
                                let dep: Option<usize> = match def_site.get(&src_id) {
                                    Some(d) => if *d < cur && cur - *d == 1 {
                                        Some(*d)
                                    } else {
                                        None
                                    },
                                    None => None,
                                };
                                match dep {
                                    None => {
                                        stop = true;
                                        proof {
                                            assert(chain_step(body0, dm, um, use_idx as int, cur as int) is None);
                                            assert(chain@ =~= ch0.drop_last() + seq![cur]);
                                        }
                                    },
                                    Some(d) => {
                                        let (dn, _) = uses_of(&uses, src_id);
                                        if !is_sinkable(&func.body[d].op) || dn != 1 || !safe_to_sink(&func.body, d, use_idx) {
                                            stop = true;
                                            proof {
                                                assert(chain_step(body0, dm, um, use_idx as int, cur as int) is None);
                                                assert(chain@ =~= ch0.drop_last() + seq![cur]);
                                            }
                                        } else {
                                            proof {
                                                assert(chain_step(body0, dm, um, use_idx as int, cur as int) == Some(d as int));
                                            }
                                            let ghost c0 = cur;
                                            chain.push(d);
                                            cur = d;
                                            proof {
                                                assert(chain@.drop_last() =~= ch0);
                                                assert(ch0 =~= ch0.drop_last() + seq![c0]);
                                                assert(chain@.drop_last() + sink_chain(body0, dm, um, use_idx as int, cur as int)
                                                    =~= ch0.drop_last() + sink_chain(body0, dm, um, use_idx as int, c0 as int));
                                            }
                                        }
                                    },
                                }
                            }
                        }
                        // Skip a chain that overlaps one already taken.
                        let mut clash = false;
                        let mut t: usize = 0;
                        let ghost r_in = removed@;
                        let ghost m_in = moves@;
                        proof {
                            assert(chain@ == sink_chain(body0, dm, um, use_idx as int, idx as int));
                            assert(sink_candidate(body0, dm, um, idx as int) == Some((use_idx as int, chain@)));
                        }
                        while t < chain.len()
                            invariant
                                removed.wf(),
                                t <= chain@.len(),
                                removed@ == r_in,
                                !clash ==> forall|u: int| 0 <= u < t ==> !removed@.contains_key(#[trigger] chain@[u]),
                                clash == exists|u: int| 0 <= u < t && removed@.contains_key(#[trigger] chain@[u]),
                            decreases chain@.len() - t,
                        {
                            if removed.contains_key(&chain[t]) {
                                clash = true;
                            }
                            t += 1;
                        }
                        any = true;
                        if !clash {
                            let mut t: usize = chain.len();
                            while t > 0
                                invariant
                                    removed@ == Map::new(|x: usize| r_in.contains_key(x) || chain@.subrange(t as int, chain@.len() as int).contains(x), |x: usize| ()),
                                    moves@ == m_in + chain_moves(chain@.subrange(t as int, chain@.len() as int), use_idx as int),
                                    t <= chain@.len(),
                                    use_idx < func.body@.len(),
                                    removed.wf(),
                                    forall|k: int| 0 <= k < chain@.len() ==> #[trigger] chain@[k] < func.body@.len(),
                                    forall|a: int, c: int| #![trigger chain@[a], chain@[c]] 0 <= a < c < chain@.len() ==> chain@[a] > chain@[c],
                                    forall|u: int| 0 <= u < t ==> !removed@.contains_key(#[trigger] chain@[u]),
                                    forall|k: int| 0 <= k < moves@.len() ==> #[trigger] moves@[k].1 < func.body@.len() && moves@[k].0 < func.body@.len(),
                                    forall|a: int, c: int| #![trigger moves@[a], moves@[c]] 0 <= a < c < moves@.len() ==> moves@[a].1 != moves@[c].1,
                                    forall|x: usize| #[trigger] removed@.contains_key(x) <==> exists|k: int| 0 <= k < moves@.len() && moves@[k].1 == x,
                                decreases t,
                            {
                                t -= 1;
                                let ghost m0 = moves@;
                                let ghost r0 = removed@;
                                proof {
                                    assert(!r0.contains_key(chain@[t as int]));
                                    assert forall|k: int| 0 <= k < m0.len() implies m0[k].1 != chain@[t as int] by {
                                        if m0[k].1 == chain@[t as int] {
                                            assert(r0.contains_key(m0[k].1));
                                        }
                                    }
                                }
                                let ghost sub0 = chain@.subrange(t + 1, chain@.len() as int);
                                removed.insert(chain[t], ());
                                moves.push((use_idx, chain[t]));
                                proof {
                                    let sub1 = chain@.subrange(t as int, chain@.len() as int);
                                    assert forall|x: usize| sub1.contains(x) <==> (sub0.contains(x) || x == chain@[t as int]) by {
                                        if sub1.contains(x) {
                                            let q = choose|q: int| 0 <= q < sub1.len() && sub1[q] == x;
                                            if q > 0 {
                                                assert(sub0[q - 1] == x);
                                            }
                                        }
                                        if sub0.contains(x) {
                                            let q = choose|q: int| 0 <= q < sub0.len() && sub0[q] == x;
                                            assert(sub1[q + 1] == x);
                                        }
                                        if x == chain@[t as int] {
                                            assert(sub1[0] == x);
                                        }
                                    }
                                    assert(removed@ =~= Map::new(|x: usize| r_in.contains_key(x) || sub1.contains(x), |x: usize| ()));
                                    assert(chain_moves(sub1, use_idx as int) =~= chain_moves(sub0, use_idx as int).push((use_idx, chain@[t as int])));
                                    assert(moves@ =~= m_in + chain_moves(sub1, use_idx as int));
                                    assert forall|u: int| 0 <= u < t implies !removed@.contains_key(#[trigger] chain@[u]) by {
                                        assert(chain@[u] > chain@[t as int]);
                                    }
                                    assert forall|x: usize| #[trigger] removed@.contains_key(x) <==> exists|k: int| 0 <= k < moves@.len() && moves@[k].1 == x by {
                                        if x == chain@[t as int] {
                                            assert(moves@[m0.len() as int].1 == x);
                                        } else if r0.contains_key(x) {
                                            let k = choose|k: int| 0 <= k < m0.len() && m0[k].1 == x;
                                            assert(moves@[k].1 == x);
                                        } else if exists|k: int| 0 <= k < moves@.len() && moves@[k].1 == x {
                                            let k = choose|k: int| 0 <= k < moves@.len() && moves@[k].1 == x;
                                            assert(k < m0.len());
                                            assert(m0[k].1 == x);
                                        }
                                    }
                                }
                            }
                            proof {
                                assert(chain@.subrange(0, chain@.len() as int) =~= chain@);
                            }
                        }
                    }
                },
                None => {},
            }
        }
        proof {
            assert((removed@, moves@, any) == sink_plan(body0, idx + 1));
        }
        idx += 1;
    }
    if !any {
        return false;
    }
    let ghost rmf = removed@;
    let ghost mvf = moves@;
    let mut new_body: Vec<IrInstr> = Vec::new();
    let ghost mut p: Seq<int> = Seq::empty();
    let mut i: usize = 0;
    while i < func.body.len()
        invariant
            func.body@ == body0,
            n0 == body0.len(),
            i <= n0,
            removed.wf(),
            forall|k: int| 0 <= k < moves@.len() ==> #[trigger] moves@[k].1 < body0.len() && moves@[k].0 < body0.len(),
            forall|a: int, c: int| #![trigger moves@[a], moves@[c]] 0 <= a < c < moves@.len() ==> moves@[a].1 != moves@[c].1,
            forall|x: usize| #[trigger] removed@.contains_key(x) <==> exists|k: int| 0 <= k < moves@.len() && moves@[k].1 == x,
            forall|k: int| 0 <= k < new_body@.len() ==> #[trigger] copied_from(new_body@[k], body0),
            removed@ == rmf,
            moves@ == mvf,
            same_body(new_body@, sink_out(body0, mvf, rmf, i as int)),
            p.len() == new_body@.len(),
            forall|k: int| 0 <= k < p.len() ==> 0 <= #[trigger] p[k] < n0 && same_instr(new_body@[k], body0[p[k]]),
            forall|a: int, c: int| #![trigger p[a], p[c]] 0 <= a < c < p.len() ==> p[a] != p[c],
            forall|k: int| 0 <= k < p.len() ==> (#[trigger] p[k] < i && !removed@.contains_key(p[k] as usize))
                || (exists|m: int| 0 <= m < moves@.len() && moves@[m].0 < i && moves@[m].1 == p[k]),
            forall|j: int| 0 <= j < i && !removed@.contains_key(j as usize) ==> #[trigger] hits(p, j),
            forall|m: int| 0 <= m < moves@.len() && moves@[m].0 < i ==> #[trigger] hits(p, moves@[m].1 as int),
        decreases func.body@.len() - i,
    {
        let mut t: usize = 0;
        while t < moves.len()
            invariant
                func.body@ == body0,
                n0 == body0.len(),
                i < n0,
                t <= moves@.len(),
                removed.wf(),
                forall|k: int| 0 <= k < moves@.len() ==> #[trigger] moves@[k].1 < body0.len() && moves@[k].0 < body0.len(),
                forall|a: int, c: int| #![trigger moves@[a], moves@[c]] 0 <= a < c < moves@.len() ==> moves@[a].1 != moves@[c].1,
                forall|x: usize| #[trigger] removed@.contains_key(x) <==> exists|k: int| 0 <= k < moves@.len() && moves@[k].1 == x,
                forall|k: int| 0 <= k < new_body@.len() ==> #[trigger] copied_from(new_body@[k], body0),
                removed@ == rmf,
                moves@ == mvf,
                same_body(new_body@, sink_out(body0, mvf, rmf, i as int) + moved_to(body0, mvf, i as int, t as int)),
                p.len() == new_body@.len(),
                forall|k: int| 0 <= k < p.len() ==> 0 <= #[trigger] p[k] < n0 && same_instr(new_body@[k], body0[p[k]]),
                forall|a: int, c: int| #![trigger p[a], p[c]] 0 <= a < c < p.len() ==> p[a] != p[c],
                forall|k: int| 0 <= k < p.len() ==> (#[trigger] p[k] < i && !removed@.contains_key(p[k] as usize))
                    || (exists|m: int| 0 <= m < moves@.len() && (moves@[m].0 < i || (moves@[m].0 == i && m < t)) && moves@[m].1 == p[k]),
                forall|j: int| 0 <= j < i && !removed@.contains_key(j as usize) ==> #[trigger] hits(p, j),
                forall|m: int| 0 <= m < moves@.len() && (moves@[m].0 < i || (moves@[m].0 == i && m < t)) ==> #[trigger] hits(p, moves@[m].1 as int),
            decreases moves@.len() - t,
        {
            let (u, sidx) = moves[t];
            let ghost sp = sink_out(body0, mvf, rmf, i as int) + moved_to(body0, mvf, i as int, t as int);
            if u == i {
                assert(moves@[t as int].1 < body0.len());
                let c = func.body[sidx].clone();
                assert(same_instr(c, body0[sidx as int]));
                proof {
                    crate::opt::basic::lemma_same_body_push(new_body@, sp, c, body0[sidx as int]);
                    assert(sp.push(body0[sidx as int]) =~= sink_out(body0, mvf, rmf, i as int) + moved_to(body0, mvf, i as int, t + 1));
                }
                proof {
                    let p0 = p;
                    assert(removed@.contains_key(sidx));
                    assert forall|k: int| 0 <= k < p0.len() implies p0[k] != sidx as int by {
                        if !(p0[k] < i && !removed@.contains_key(p0[k] as usize)) {
                            let m = choose|m: int| 0 <= m < moves@.len() && (moves@[m].0 < i || (moves@[m].0 == i && m < t)) && moves@[m].1 == p0[k];
                            assert(m != t);
                            if m < t {
                                assert(moves@[m].1 != moves@[t as int].1);
                            } else {
                                assert(moves@[t as int].1 != moves@[m].1);
                            }
                        }
                    }
                    p = p.push(sidx as int);
                    assert forall|j: int| 0 <= j < i && !removed@.contains_key(j as usize) implies #[trigger] hits(p, j) by {
                        assert(hits(p0, j));
                        let k = choose|k: int| 0 <= k < p0.len() && p0[k] == j;
                        assert(p[k] == j);
                    }
                    assert forall|m: int| 0 <= m < moves@.len() && (moves@[m].0 < i || (moves@[m].0 == i && m < t + 1))
                        implies #[trigger] hits(p, moves@[m].1 as int) by {
                        if m == t {
                            assert(p[p0.len() as int] == moves@[m].1);
                        } else {
                            assert(hits(p0, moves@[m].1 as int));
                            let k = choose|k: int| 0 <= k < p0.len() && p0[k] == moves@[m].1;
                            assert(p[k] == moves@[m].1);
                        }
                    }
                    assert forall|k: int| 0 <= k < p.len() implies (#[trigger] p[k] < i && !removed@.contains_key(p[k] as usize))
                        || (exists|m: int| 0 <= m < moves@.len() && (moves@[m].0 < i || (moves@[m].0 == i && m < t + 1)) && moves@[m].1 == p[k]) by {
                        if k < p0.len() {
                            assert(p[k] == p0[k]);
                            if !(p0[k] < i && !removed@.contains_key(p0[k] as usize)) {
                                let m = choose|m: int| 0 <= m < moves@.len() && (moves@[m].0 < i || (moves@[m].0 == i && m < t)) && moves@[m].1 == p0[k];
                                assert(0 <= m < moves@.len() && (moves@[m].0 < i || (moves@[m].0 == i && m < t + 1)) && moves@[m].1 == p[k]);
                            }
                        } else {
                            assert(moves@[t as int].1 == p[k]);
                        }
                    }
                }
                new_body.push(c);
                assert(copied_from(new_body@[new_body@.len() - 1], body0));
            } else {
                proof {
                    assert(sp =~= sink_out(body0, mvf, rmf, i as int) + moved_to(body0, mvf, i as int, t + 1));
                    assert forall|m: int| 0 <= m < moves@.len() && (moves@[m].0 < i || (moves@[m].0 == i && m < t + 1))
                        implies #[trigger] hits(p, moves@[m].1 as int) by {
                        if m != t {
                            assert(hits(p, moves@[m].1 as int));
                        }
                    }
                    assert forall|k: int| 0 <= k < p.len() implies (#[trigger] p[k] < i && !removed@.contains_key(p[k] as usize))
                        || (exists|m: int| 0 <= m < moves@.len() && (moves@[m].0 < i || (moves@[m].0 == i && m < t + 1)) && moves@[m].1 == p[k]) by {
                        if !(p[k] < i && !removed@.contains_key(p[k] as usize)) {
                            let m = choose|m: int| 0 <= m < moves@.len() && (moves@[m].0 < i || (moves@[m].0 == i && m < t)) && moves@[m].1 == p[k];
                            assert(0 <= m < moves@.len() && (moves@[m].0 < i || (moves@[m].0 == i && m < t + 1)) && moves@[m].1 == p[k]);
                        }
                    }
                }
            }
            t += 1;
        }
        let ghost mid = p;
        let ghost sp2 = sink_out(body0, mvf, rmf, i as int) + moved_to(body0, mvf, i as int, mvf.len() as int);
        if !removed.contains_key(&i) {
            let c = func.body[i].clone();
            assert(same_instr(c, body0[i as int]));
            proof {
                crate::opt::basic::lemma_same_body_push(new_body@, sp2, c, body0[i as int]);
                assert(sp2.push(body0[i as int]) =~= sink_out(body0, mvf, rmf, i + 1));
            }
            proof {
                assert forall|k: int| 0 <= k < mid.len() implies mid[k] != i as int by {
                    if !(mid[k] < i && !removed@.contains_key(mid[k] as usize)) {
                        let m = choose|m: int| 0 <= m < moves@.len() && (moves@[m].0 < i || (moves@[m].0 == i && m < moves@.len())) && moves@[m].1 == mid[k];
                        assert(removed@.contains_key(moves@[m].1));
                    }
                }
                p = p.push(i as int);
                assert forall|j: int| 0 <= j < i + 1 && !removed@.contains_key(j as usize) implies #[trigger] hits(p, j) by {
                    if j < i {
                        assert(hits(mid, j));
                        let k = choose|k: int| 0 <= k < mid.len() && mid[k] == j;
                        assert(p[k] == j);
                    } else {
                        assert(p[mid.len() as int] == j);
                    }
                }
                assert forall|m: int| 0 <= m < moves@.len() && moves@[m].0 < i + 1 implies #[trigger] hits(p, moves@[m].1 as int) by {
                    assert(hits(mid, moves@[m].1 as int));
                    let k = choose|k: int| 0 <= k < mid.len() && mid[k] == moves@[m].1;
                    assert(p[k] == moves@[m].1);
                }
            }
            new_body.push(c);
            assert(copied_from(new_body@[new_body@.len() - 1], body0));
        }
        proof {
            if rmf.contains_key(i as usize) {
                assert(sp2 =~= sink_out(body0, mvf, rmf, i + 1));
            }
            assert forall|k: int| 0 <= k < p.len() implies (#[trigger] p[k] < i + 1 && !removed@.contains_key(p[k] as usize))
                || (exists|m: int| 0 <= m < moves@.len() && moves@[m].0 < i + 1 && moves@[m].1 == p[k]) by {
                if k < mid.len() {
                    assert(p[k] == mid[k]);
                    if !(mid[k] < i && !removed@.contains_key(mid[k] as usize)) {
                        let m = choose|m: int| 0 <= m < moves@.len() && (moves@[m].0 < i || (moves@[m].0 == i && m < moves@.len())) && moves@[m].1 == mid[k];
                        assert(0 <= m < moves@.len() && moves@[m].0 < i + 1 && moves@[m].1 == p[k]);
                    }
                }
            }
        }
        i += 1;
    }
    proof {
        assert forall|j: int| 0 <= j < body0.len() implies #[trigger] hits(p, j) by {
            if removed@.contains_key(j as usize) {
                let m = choose|m: int| 0 <= m < moves@.len() && moves@[m].1 == j as usize;
                assert(hits(p, moves@[m].1 as int));
            }
        }
        assert(is_arrangement(p, new_body@, body0));
    }
    func.body = new_body;
    true
}

} // verus!
