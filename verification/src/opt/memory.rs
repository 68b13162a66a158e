//! Passes over memory operations: store-to-load forwarding and removal of
//! stores that nothing reads.

use vstd::prelude::*;

use crate::ir::{IrFunction, IrInstr, IrOp, VReg, same_body, same_instr, same_op};
use crate::maps::{AssocMap, IdSet};
use crate::opt::basic::{same_header, sub_body};
use crate::text::{is_local_label, local_prefix};

verus! {

/// The value last stored to a memory slot.
#[derive(Clone, Copy)]
pub struct MemValue {
    pub version: u32,
    pub src: VReg,
}

/// `b` is `a`, or a copy into the destination of the global load `a`.
pub open spec fn forwarded(a: IrInstr, b: IrInstr) -> bool {
    b.line == a.line && (same_op(a.op, b.op) || match a.op {
        IrOp::LoadGlobal { dst, .. } => b.op matches IrOp::Copy { dst: d, .. } && d == dst,
        _ => false,
    })
}

/// Keep only the entries for compiler-local slots.
fn retain_local(m: &AssocMap<String, MemValue>) -> (r: AssocMap<String, MemValue>)
    requires
        m.wf(),
    ensures
        r.wf(),
        forall|k: Seq<char>| #[trigger] r@.contains_key(k) <==> m@.contains_key(k) && local_prefix().is_prefix_of(k),
        forall|k: Seq<char>| #[trigger] r@.contains_key(k) ==> r@[k] == m@[k],
{
    let mut out: AssocMap<String, MemValue> = AssocMap::new();
    let mut i: usize = 0;
    proof {
        m.lemma_entries();
    }
    while i < m.len()
        invariant
            i <= m.entries().len(),
            m.wf(),
            out.wf(),
            forall|k: Seq<char>| #[trigger] out@.contains_key(k) <==> (exists|j: int| 0 <= j < i && m.entries()[j].0@ == k) && local_prefix().is_prefix_of(k),
            forall|k: Seq<char>| #[trigger] out@.contains_key(k) ==> m@.contains_key(k) && out@[k] == m@[k],
        decreases m.entries().len() - i,
    {
        proof {
            m.lemma_entries();
        }
        let key = m.key_at(i);
        if is_local_label(key.as_str()) {
            out.insert(key.clone(), *m.value_at(i));
        }
        proof {
            assert forall|k: Seq<char>| #[trigger] out@.contains_key(k) <==> (exists|j: int| 0 <= j < i + 1 && m.entries()[j].0@ == k) && local_prefix().is_prefix_of(k) by {
                if exists|j: int| 0 <= j < i + 1 && m.entries()[j].0@ == k {
                    let j = choose|j: int| 0 <= j < i + 1 && m.entries()[j].0@ == k;
                    if j < i {
                        assert(exists|j2: int| 0 <= j2 < i && m.entries()[j2].0@ == k);
                    }
                }
            }
        }
        i += 1;
    }
    out
}

/// The register last stored to each global slot among the first `n`
/// instructions, since the last label, jump, return, call or inline
/// assembly; a store through a pointer or to the frame forgets all but the
/// compiler-local slots.
pub open spec fn lsf_state(body: Seq<IrInstr>, n: int) -> Map<Seq<char>, VReg>
    decreases n,
{
    if n <= 0 {
        Map::empty()
    } else {
        let m = lsf_state(body, n - 1);
        match body[n - 1].op {
            IrOp::Label { .. } | IrOp::Jump { .. } | IrOp::Return { .. } | IrOp::Call { .. } | IrOp::InlineAsm { .. } => Map::empty(),
            IrOp::StoreGlobal { addr_label, src } => m.insert(addr_label@, src),
            IrOp::StorePtr { .. } | IrOp::LoadPtr { .. } | IrOp::StoreLocal { .. } => Map::new(
                |k: Seq<char>| m.contains_key(k) && local_prefix().is_prefix_of(k),
                |k: Seq<char>| m[k],
            ),
            _ => m,
        }
    }
}

/// Instruction `i` after forwarding: a load of a slot whose stored register
/// is known (and is not the load's own destination) becomes a copy of it.
pub open spec fn lsf_instr(body: Seq<IrInstr>, i: int) -> IrInstr {
    let m = lsf_state(body, i);
    match body[i].op {
        IrOp::LoadGlobal { dst, addr_label } => if m.contains_key(addr_label@) && m[addr_label@].id != dst.id {
            IrInstr { op: IrOp::Copy { dst, src: m[addr_label@] }, line: body[i].line }
        } else {
            body[i]
        },
        _ => body[i],
    }
}

/// Some load is forwarded.
pub open spec fn lsf_changes(body: Seq<IrInstr>) -> bool {
    exists|i: int| 0 <= i < body.len() && #[trigger] lsf_instr(body, i) != body[i]
}

/// The stored registers of a forwarding state.
pub open spec fn mem_srcs(m: Map<Seq<char>, MemValue>) -> Map<Seq<char>, VReg> {
    m.map_values(|v: MemValue| v.src)
}

/// Forward the value of the latest store to a global slot to loads of the
/// same slot within a region, turning such loads into copies.
pub fn load_store_forwarding(func: &mut IrFunction) -> (changed: bool)
    ensures
        same_header(*old(func), *final(func)),
        final(func).body@.len() == old(func).body@.len(),
        changed == lsf_changes(old(func).body@),
        forall|i: int| 0 <= i < old(func).body@.len() ==> #[trigger] same_instr(final(func).body@[i], lsf_instr(old(func).body@, i)),
        forall|i: int| 0 <= i < old(func).body@.len() ==> #[trigger] forwarded(old(func).body@[i], final(func).body@[i]),
        !changed ==> final(func).body@ == old(func).body@,
{
    let ghost body0 = func.body@;
    let mut changed = false;
    let mut mem_state: AssocMap<String, MemValue> = AssocMap::new();
    let mut version: u32 = 1;
    let mut out: Vec<IrInstr> = Vec::new();
    let mut i: usize = 0;
    proof {
        assert(mem_srcs(mem_state@) =~= lsf_state(body0, 0));
    }
    while i < func.body.len()
        invariant
            i <= func.body@.len(),
            func.body@ == body0,
            mem_state.wf(),
            mem_srcs(mem_state@) == lsf_state(body0, i as int),
            out@.len() == i,
            forall|k: int| 0 <= k < i ==> #[trigger] forwarded(func.body@[k], out@[k]),
            forall|k: int| 0 <= k < i ==> #[trigger] same_instr(out@[k], lsf_instr(body0, k)),
            changed == exists|k: int| 0 <= k < i && #[trigger] lsf_instr(body0, k) != body0[k],
        decreases func.body@.len() - i,
    {
        let instr = &func.body[i];
        let ghost changed0 = changed;
        proof {
            crate::ir::lemma_same_instr_refl(body0[i as int]);
        }
        match &instr.op {
            IrOp::Label { .. } | IrOp::Jump { .. } | IrOp::Return { .. } | IrOp::Call { .. } | IrOp::InlineAsm { .. } => {
                mem_state.clear();
                out.push(instr.clone());
            },
            IrOp::StoreGlobal { addr_label, src } => {
                mem_state.insert(addr_label.clone(), MemValue { version, src: *src });
                version = version.wrapping_add(1);
                out.push(instr.clone());
            },
            IrOp::LoadGlobal { dst, addr_label } => {
                match mem_state.get(addr_label) {
                    Some(mem) => {
                        if mem.src.id != dst.id {
                            let c = IrInstr { op: IrOp::Copy { dst: *dst, src: mem.src }, line: instr.line };
                            proof {
                                crate::ir::lemma_same_instr_refl(c);
                            }
                            out.push(c);
                            assert(lsf_instr(body0, i as int) != body0[i as int]);
                            changed = true;
                        } else {
                            out.push(instr.clone());
                        }
                    },
                    None => {
                        out.push(instr.clone());
                    },
                }
            },
            IrOp::StorePtr { .. } | IrOp::LoadPtr { .. } | IrOp::StoreLocal { .. } => {
                mem_state = retain_local(&mem_state);
                out.push(instr.clone());
            },
            _ => {
                out.push(instr.clone());
            },
        }
        proof {
            assert(mem_srcs(mem_state@) =~= lsf_state(body0, i + 1));
            assert(changed == (changed0 || lsf_instr(body0, i as int) != body0[i as int]));
            if exists|k: int| 0 <= k < i + 1 && #[trigger] lsf_instr(body0, k) != body0[k] {
                let k = choose|k: int| 0 <= k < i + 1 && #[trigger] lsf_instr(body0, k) != body0[k];
                if k < i {
                    assert(changed);
                }
            }
        }
        i += 1;
    }
    if changed {
        func.body = out;
    } else {
        proof {
            assert forall|k: int| 0 <= k < body0.len() implies #[trigger] same_instr(body0[k], lsf_instr(body0, k)) by {
                crate::ir::lemma_same_instr_refl(body0[k]);
            }
        }
    }
    changed
}


/// The characters of a string (`str::chars`, collected).
#[verifier::external_body]
pub fn chars_of(s: &str) -> (r: Vec<char>)
    ensures
        r@ == s@,
{
    s.chars().collect()
}

/// A character of an assembly identifier: an ASCII letter or digit, or `_`.
pub open spec fn word_char(c: char) -> bool {
    c == '_' || ('0' <= c && c <= '9') || ('a' <= c && c <= 'z') || ('A' <= c && c <= 'Z')
}

/// `code[i..j]` is a maximal run of identifier characters.
pub open spec fn word_run(code: Seq<char>, i: int, j: int) -> bool {
    &&& 0 <= i <= j <= code.len()
    &&& i == 0 || !word_char(code[i - 1])
    &&& j == code.len() || !word_char(code[j])
    &&& forall|k: int| i <= k < j ==> word_char(#[trigger] code[k])
}

/// The identifier names a compiler-local (`_l_`) or global (`_g_`) slot.
pub open spec fn slot_name(w: Seq<char>) -> bool {
    w.len() >= 3 && w[0] == '_' && (w[1] == 'l' || w[1] == 'g') && w[2] == '_'
}

/// `w` is a slot name that stands as a whole identifier in `code`.
pub open spec fn names_slot(code: Seq<char>, w: Seq<char>) -> bool {
    slot_name(w) && exists|i: int, j: int| #[trigger] word_run(code, i, j) && code.subrange(i, j) == w
}

fn is_word_char(c: char) -> (r: bool)
    ensures
        r == word_char(c),
{
    c == '_' || ('0' <= c && c <= '9') || ('a' <= c && c <= 'z') || ('A' <= c && c <= 'Z')
}

fn starts_with_chars(w: &Vec<char>, a: char, b: char, c: char) -> (r: bool)
    ensures
        r == (w@.len() >= 3 && w@[0] == a && w@[1] == b && w@[2] == c),
{
    w.len() >= 3 && w[0] == a && w[1] == b && w[2] == c
}

/// Close the run `c[start..i]`, which ends at a boundary: keep it when it
/// names a slot.
proof fn lemma_close_run(c: Seq<char>, start: int, i: int, w0: Seq<Seq<char>>, w1: Seq<Seq<char>>, cur: Seq<char>)
    requires
        0 <= start <= i <= c.len(),
        start == 0 || !word_char(c[start - 1]),
        i == c.len() || !word_char(c[i]),
        forall|k: int| start <= k < i ==> word_char(#[trigger] c[k]),
        cur == c.subrange(start, i),
        forall|w: Seq<char>| #[trigger] w0.contains(w) <==> (slot_name(w) && exists|a: int, b: int| #[trigger] word_run(c, a, b) && b < start && c.subrange(a, b) == w),
        w1 == (if slot_name(cur) { w0.push(cur) } else { w0 }),
    ensures
        forall|w: Seq<char>| #[trigger] w1.contains(w) <==> (slot_name(w) && exists|a: int, b: int| #[trigger] word_run(c, a, b) && b <= i && c.subrange(a, b) == w),
{
    assert(word_run(c, start, i));
    assert forall|w: Seq<char>| #[trigger] w1.contains(w) <==> (slot_name(w) && exists|a: int, b: int| #[trigger] word_run(c, a, b) && b <= i && c.subrange(a, b) == w) by {
        if w1.contains(w) {
            let k = choose|k: int| 0 <= k < w1.len() && w1[k] == w;
            if k < w0.len() {
                if slot_name(cur) {
                    assert(w0.push(cur)[k] == w0[k]);
                }
                assert(w0[k] == w);
                assert(w0.contains(w));
                let (a, b) = choose|a: int, b: int| #[trigger] word_run(c, a, b) && b < start && c.subrange(a, b) == w;
                assert(word_run(c, a, b) && b <= i && c.subrange(a, b) == w);
            } else {
                assert(slot_name(cur));
                assert(w0.push(cur)[k] == cur);
                assert(word_run(c, start, i) && c.subrange(start, i) == w);
            }
        }
        if slot_name(w) && exists|a: int, b: int| #[trigger] word_run(c, a, b) && b <= i && c.subrange(a, b) == w {
            let (a, b) = choose|a: int, b: int| #[trigger] word_run(c, a, b) && b <= i && c.subrange(a, b) == w;
            if b < start {
                assert(w0.contains(w));
                let k = choose|k: int| 0 <= k < w0.len() && w0[k] == w;
                if slot_name(cur) {
                    assert(w0.push(cur)[k] == w0[k]);
                }
                assert(w1[k] == w);
            } else {
                if a < start {
                    assert(word_char(c[start - 1]));
                }
                if a > start {
                    assert(word_char(c[a - 1]));
                }
                assert(a == start);
                if b < i {
                    assert(word_char(c[b]));
                }
                assert(b == i);
                assert(cur == w);
                assert(w0.push(cur)[w0.len() as int] == cur);
                assert(w1[w0.len() as int] == w);
            }
        }
    }
}

/// The identifiers of an assembly text that name compiler-local (`_l_`) or
/// global (`_g_`) slots.
pub fn asm_slot_words(code: &str) -> (r: Vec<Vec<char>>)
    ensures
        forall|w: Seq<char>| (exists|k: int| 0 <= k < r@.len() && (#[trigger] r@[k])@ == w) <==> names_slot(code@, w),
{
    let cs = chars_of(code);
    let ghost c = cs@;
    let mut words: Vec<Vec<char>> = Vec::new();
    let mut cur: Vec<char> = Vec::new();
    let mut i: usize = 0;
    let ghost mut start: int = 0;
    proof {
        assert(cur@ =~= c.subrange(0, 0));
        assert forall|w: Seq<char>| #[trigger] words_view(words@).contains(w) <==> (slot_name(w) && exists|a: int, b: int| #[trigger] word_run(c, a, b) && b < start && c.subrange(a, b) == w) by {
            if exists|a: int, b: int| #[trigger] word_run(c, a, b) && b < start && c.subrange(a, b) == w {
                let (a, b) = choose|a: int, b: int| #[trigger] word_run(c, a, b) && b < start && c.subrange(a, b) == w;
            }
        }
    }
    while i < cs.len()
        invariant
            c == cs@,
            c == code@,
            i <= cs@.len(),
            0 <= start <= i,
            cur@ == c.subrange(start, i as int),
            start == 0 || !word_char(c[start - 1]),
            forall|k: int| start <= k < i ==> word_char(#[trigger] c[k]),
            forall|w: Seq<char>| #[trigger] words_view(words@).contains(w) <==> (slot_name(w) && exists|a: int, b: int| #[trigger] word_run(c, a, b) && b < start && c.subrange(a, b) == w),
        decreases cs@.len() - i,
    {
        if !is_word_char(cs[i]) {
            let ghost w0 = words_view(words@);
            let ghost cv = cur@;
            if starts_with_chars(&cur, '_', 'l', '_') || starts_with_chars(&cur, '_', 'g', '_') {
                words.push(cur);
            }
            proof {
                assert(words_view(words@) =~= (if slot_name(cv) { w0.push(cv) } else { w0 }));
                lemma_close_run(c, start, i as int, w0, words_view(words@), cv);
                start = i + 1;
                assert forall|w: Seq<char>| #[trigger] words_view(words@).contains(w) <==> (slot_name(w) && exists|a: int, b: int| #[trigger] word_run(c, a, b) && b < start && c.subrange(a, b) == w) by {
                    if words_view(words@).contains(w) {
                        let (a, b) = choose|a: int, b: int| #[trigger] word_run(c, a, b) && b <= i && c.subrange(a, b) == w;
                        assert(word_run(c, a, b) && b < start && c.subrange(a, b) == w);
                    }
                    if slot_name(w) && exists|a: int, b: int| #[trigger] word_run(c, a, b) && b < start && c.subrange(a, b) == w {
                        let (a, b) = choose|a: int, b: int| #[trigger] word_run(c, a, b) && b < start && c.subrange(a, b) == w;
                        assert(word_run(c, a, b) && b <= i && c.subrange(a, b) == w);
                    }
                }
            }
            cur = Vec::new();
            proof {
                assert(cur@ =~= c.subrange(start, i + 1));
            }
        } else {
            cur.push(cs[i]);
            proof {
                assert(cur@ =~= c.subrange(start, i + 1));
            }
        }
        i += 1;
    }
    let ghost w0 = words_view(words@);
    let ghost cv = cur@;
    if starts_with_chars(&cur, '_', 'l', '_') || starts_with_chars(&cur, '_', 'g', '_') {
        words.push(cur);
    }
    proof {
        assert(words_view(words@) =~= (if slot_name(cv) { w0.push(cv) } else { w0 }));
        lemma_close_run(c, start, i as int, w0, words_view(words@), cv);
        assert forall|w: Seq<char>| (exists|k: int| 0 <= k < words@.len() && (#[trigger] words@[k])@ == w) <==> names_slot(code@, w) by {
            if exists|k: int| 0 <= k < words@.len() && (#[trigger] words@[k])@ == w {
                let k = choose|k: int| 0 <= k < words@.len() && (#[trigger] words@[k])@ == w;
                assert(words_view(words@)[k] == w);
                assert(words_view(words@).contains(w));
                let (a, b) = choose|a: int, b: int| #[trigger] word_run(c, a, b) && b <= i && c.subrange(a, b) == w;
                assert(word_run(c, a, b) && c.subrange(a, b) == w);
            }
            if names_slot(code@, w) {
                let (a, b) = choose|a: int, b: int| #[trigger] word_run(c, a, b) && c.subrange(a, b) == w;
                assert(word_run(c, a, b) && b <= i && c.subrange(a, b) == w);
                assert(words_view(words@).contains(w));
                let k = choose|k: int| 0 <= k < words_view(words@).len() && words_view(words@)[k] == w;
                assert(words@[k]@ == w);
            }
        }
    }
    words
}

/// The text of each word.
pub open spec fn words_view(ws: Seq<Vec<char>>) -> Seq<Seq<char>> {
    ws.map_values(|w: Vec<char>| w@)
}

fn chars_eq(a: &Vec<char>, b: &Vec<char>) -> (r: bool)
    ensures
        r == (a@ == b@),
{
    if a.len() != b.len() {
        return false;
    }
    let mut i: usize = 0;
    while i < a.len()
        invariant
            a@.len() == b@.len(),
            i <= a@.len(),
            forall|k: int| 0 <= k < i ==> a@[k] == b@[k],
        decreases a@.len() - i,
    {
        if a[i] != b[i] {
            return false;
        }
        i += 1;
    }
    assert(a@ =~= b@);
    true
}

/// The operation stores to a global or local slot.
pub open spec fn is_store(op: IrOp) -> bool {
    op is StoreGlobal || op is StoreLocal
}

/// The pending stores of global and frame slots (slot to position) and the
/// stores already overwritten before any read, after the first `n`
/// instructions; control flow, calls, pointer accesses and inline assembly
/// forget the pending stores.
pub open spec fn rse_scan(body: Seq<IrInstr>, n: int) -> (Map<Seq<char>, usize>, Map<i32, usize>, Map<usize, ()>)
    decreases n,
{
    if n <= 0 {
        (Map::empty(), Map::empty(), Map::empty())
    } else {
        let (pg, pl, dead) = rse_scan(body, n - 1);
        let k = (n - 1) as usize;
        match body[n - 1].op {
            IrOp::StoreGlobal { addr_label, .. } => (
                pg.insert(addr_label@, k),
                pl,
                if pg.contains_key(addr_label@) { dead.insert(pg[addr_label@], ()) } else { dead },
            ),
            IrOp::LoadGlobal { addr_label, .. } => (pg.remove(addr_label@), pl, dead),
            IrOp::StoreLocal { offset, .. } => (
                pg,
                pl.insert(offset, k),
                if pl.contains_key(offset) { dead.insert(pl[offset], ()) } else { dead },
            ),
            IrOp::LoadLocal { offset, .. } => (pg, pl.remove(offset), dead),
            IrOp::Label { .. } | IrOp::Jump { .. } | IrOp::JumpIfTrue { .. } | IrOp::JumpIfFalse { .. }
            | IrOp::Return { .. } | IrOp::Call { .. } | IrOp::StorePtr { .. } | IrOp::LoadPtr { .. }
            | IrOp::InlineAsm { .. } => (Map::empty(), Map::empty(), dead),
            _ => (pg, pl, dead),
        }
    }
}

/// Some instruction loads the global slot.
pub open spec fn loads_slot(body: Seq<IrInstr>, l: Seq<char>) -> bool {
    exists|k: int| 0 <= k < body.len() && (#[trigger] body[k].op matches IrOp::LoadGlobal { addr_label, .. } && addr_label@ == l)
}

/// Some inline assembly names the slot.
pub open spec fn asm_names(body: Seq<IrInstr>, l: Seq<char>) -> bool {
    exists|k: int| 0 <= k < body.len() && (#[trigger] body[k].op matches IrOp::InlineAsm { code, .. } && names_slot(code@, l))
}

/// Instruction `k` stores to a compiler-local slot that nothing loads and
/// no inline assembly names.
pub open spec fn unread_local_store(body: Seq<IrInstr>, k: int) -> bool {
    body[k].op matches IrOp::StoreGlobal { addr_label, .. } && local_prefix().is_prefix_of(addr_label@)
        && !loads_slot(body, addr_label@) && !asm_names(body, addr_label@)
}

/// Instruction `k` is a store that redundant-store elimination removes.
pub open spec fn rse_dead(body: Seq<IrInstr>, k: int) -> bool {
    rse_scan(body, body.len() as int).2.contains_key(k as usize) || unread_local_store(body, k)
}

/// The first `n` instructions without the removed stores.
pub open spec fn rse_kept(body: Seq<IrInstr>, n: int) -> Seq<IrInstr>
    decreases n,
{
    if n <= 0 {
        Seq::empty()
    } else {
        rse_kept(body, n - 1) + if rse_dead(body, n - 1) { Seq::empty() } else { seq![body[n - 1]] }
    }
}

proof fn lemma_rse_dead_stores(body: Seq<IrInstr>, n: int)
    requires
        0 <= n <= body.len(),
        body.len() <= usize::MAX,
    ensures
        forall|x: usize| #[trigger] rse_scan(body, n).2.contains_key(x) ==> x < n && is_store(body[x as int].op),
        forall|g: Seq<char>| #[trigger] rse_scan(body, n).0.contains_key(g) ==> rse_scan(body, n).0[g] < n
            && is_store(body[rse_scan(body, n).0[g] as int].op),
        forall|o: i32| #[trigger] rse_scan(body, n).1.contains_key(o) ==> rse_scan(body, n).1[o] < n
            && is_store(body[rse_scan(body, n).1[o] as int].op),
    decreases n,
{
    if n > 0 {
        lemma_rse_dead_stores(body, n - 1);
        let (pg, pl, dead) = rse_scan(body, n - 1);
        let k = (n - 1) as usize;
        match body[n - 1].op {
            IrOp::StoreGlobal { addr_label, .. } => {
                assert forall|g: Seq<char>| #[trigger] rse_scan(body, n).0.contains_key(g) implies rse_scan(body, n).0[g] < n
                    && is_store(body[rse_scan(body, n).0[g] as int].op) by {
                    if g != addr_label@ {
                        assert(pg.contains_key(g));
                    }
                }
            },
            IrOp::LoadGlobal { addr_label, .. } => {
                assert forall|g: Seq<char>| #[trigger] rse_scan(body, n).0.contains_key(g) implies rse_scan(body, n).0[g] < n
                    && is_store(body[rse_scan(body, n).0[g] as int].op) by {
                    assert(pg.contains_key(g));
                }
            },
            IrOp::StoreLocal { offset, .. } => {
                assert forall|o: i32| #[trigger] rse_scan(body, n).1.contains_key(o) implies rse_scan(body, n).1[o] < n
                    && is_store(body[rse_scan(body, n).1[o] as int].op) by {
                    if o != offset {
                        assert(pl.contains_key(o));
                    }
                }
            },
            IrOp::LoadLocal { offset, .. } => {
                assert forall|o: i32| #[trigger] rse_scan(body, n).1.contains_key(o) implies rse_scan(body, n).1[o] < n
                    && is_store(body[rse_scan(body, n).1[o] as int].op) by {
                    assert(pl.contains_key(o));
                }
            },
            _ => {},
        }
    }
}

/// Remove stores overwritten before any read within a region, and stores
/// to compiler-local slots that the function never loads (nor names in
/// inline assembly).
pub fn redundant_store_eliminate(func: &mut IrFunction) -> (changed: bool)
    ensures
        same_header(*old(func), *final(func)),
        same_body(final(func).body@, rse_kept(old(func).body@, old(func).body@.len() as int)),
        final(func).body@.len() <= old(func).body@.len(),
        sub_body(final(func).body@, old(func).body@),
        ({
            let a = old(func).body@.filter(|ins: IrInstr| !is_store(ins.op));
            let b = final(func).body@.filter(|ins: IrInstr| !is_store(ins.op));
            a.len() == b.len() && forall|k: int| 0 <= k < a.len() ==> #[trigger] same_instr(b[k], a[k])
        }),
        changed == (final(func).body@.len() != old(func).body@.len()),
{
    let ghost body0 = func.body@;
    let mut pending_global: AssocMap<String, usize> = AssocMap::new();
    let mut pending_local: AssocMap<i32, usize> = AssocMap::new();
    let mut dead: AssocMap<usize, ()> = AssocMap::new();
    let mut idx: usize = 0;
    proof {
        assert((pending_global@, pending_local@, dead@) =~= rse_scan(body0, 0));
    }
    while idx < func.body.len()
        invariant
            idx <= func.body@.len(),
            func.body@ == body0,
            pending_global.wf(),
            pending_local.wf(),
            dead.wf(),
            (pending_global@, pending_local@, dead@) == rse_scan(body0, idx as int),
        decreases func.body@.len() - idx,
    {
        match &func.body[idx].op {
            IrOp::StoreGlobal { addr_label, .. } => {
                match pending_global.get(addr_label) {
                    Some(prev) => {
                        dead.insert(*prev, ());
                    },
                    None => {},
                }
                pending_global.insert(addr_label.clone(), idx);
            },
            IrOp::LoadGlobal { addr_label, .. } => {
                pending_global.remove(addr_label);
            },
            IrOp::StoreLocal { offset, .. } => {
                match pending_local.get(offset) {
                    Some(prev) => {
                        dead.insert(*prev, ());
                    },
                    None => {},
                }
                pending_local.insert(*offset, idx);
            },
            IrOp::LoadLocal { offset, .. } => {
                pending_local.remove(offset);
            },
            IrOp::Label { .. } | IrOp::Jump { .. } | IrOp::JumpIfTrue { .. } | IrOp::JumpIfFalse { .. }
            | IrOp::Return { .. } | IrOp::Call { .. } | IrOp::StorePtr { .. } | IrOp::LoadPtr { .. }
            | IrOp::InlineAsm { .. } => {
                pending_global.clear();
                pending_local.clear();
            },
            _ => {},
        }
        proof {
            assert((pending_global@, pending_local@, dead@) =~= rse_scan(body0, idx + 1));
        }
        idx += 1;
    }
    let ghost dead0 = dead@;
    proof {
        assert(body0.len() == func.body.len());
        lemma_rse_dead_stores(body0, body0.len() as int);
    }
    // Slots that some load reads, and slot names that inline assembly uses.
    let mut loaded: AssocMap<String, ()> = AssocMap::new();
    let mut asm_words: Vec<Vec<char>> = Vec::new();
    let mut j: usize = 0;
    while j < func.body.len()
        invariant
            j <= func.body@.len(),
            func.body@ == body0,
            loaded.wf(),
            forall|l: Seq<char>| #[trigger] loaded@.contains_key(l) <==> exists|k: int| 0 <= k < j
                && (#[trigger] body0[k].op matches IrOp::LoadGlobal { addr_label, .. } && addr_label@ == l),
            forall|w: Seq<char>| #[trigger] words_view(asm_words@).contains(w) <==> exists|k: int| 0 <= k < j
                && (#[trigger] body0[k].op matches IrOp::InlineAsm { code, .. } && names_slot(code@, w)),
        decreases func.body@.len() - j,
    {
        let ghost l0 = loaded@;
        let ghost a0 = words_view(asm_words@);
        match &func.body[j].op {
            IrOp::LoadGlobal { addr_label, .. } => {
                loaded.insert(addr_label.clone(), ());
            },
            IrOp::InlineAsm { code, .. } => {
                let ws = asm_slot_words(code.as_str());
                let mut w: usize = 0;
                while w < ws.len()
                    invariant
                        w <= ws@.len(),
                        words_view(asm_words@) == a0 + words_view(ws@.take(w as int)),
                    decreases ws@.len() - w,
                {
                    let wc = crate::emit::chars::slice(&ws[w], 0, ws[w].len());
                    proof {
                        assert(wc@ =~= ws@[w as int]@);
                    }
                    let ghost pw = asm_words@;
                    asm_words.push(wc);
                    proof {
                        assert(words_view(asm_words@) =~= words_view(pw).push(wc@));
                        assert(words_view(ws@.take(w + 1)) =~= words_view(ws@.take(w as int)).push(ws@[w as int]@));
                        assert(words_view(asm_words@) =~= a0 + words_view(ws@.take(w + 1)));
                    }
                    w += 1;
                }
                proof {
                    assert(ws@.take(ws@.len() as int) =~= ws@);
                    assert forall|x: Seq<char>| #[trigger] words_view(asm_words@).contains(x) <==> (a0.contains(x) || names_slot(code@, x)) by {
                        if words_view(asm_words@).contains(x) {
                            let q = choose|q: int| 0 <= q < words_view(asm_words@).len() && words_view(asm_words@)[q] == x;
                            if q >= a0.len() {
                                assert(words_view(ws@)[q - a0.len()] == x);
                                assert(ws@[q - a0.len()]@ == x);
                            } else {
                                assert(a0[q] == x);
                            }
                        }
                        if a0.contains(x) {
                            let q = choose|q: int| 0 <= q < a0.len() && a0[q] == x;
                            assert(words_view(asm_words@)[q] == x);
                        }
                        if names_slot(code@, x) {
                            let q = choose|q: int| 0 <= q < ws@.len() && (#[trigger] ws@[q])@ == x;
                            assert(words_view(asm_words@)[a0.len() + q] == x);
                        }
                    }
                }
            },
            _ => {},
        }
        proof {
            assert forall|l: Seq<char>| #[trigger] loaded@.contains_key(l) <==> exists|k: int| 0 <= k < j + 1
                && (#[trigger] body0[k].op matches IrOp::LoadGlobal { addr_label, .. } && addr_label@ == l) by {
                if exists|k: int| 0 <= k < j + 1 && (#[trigger] body0[k].op matches IrOp::LoadGlobal { addr_label, .. } && addr_label@ == l) {
                    let k = choose|k: int| 0 <= k < j + 1 && (#[trigger] body0[k].op matches IrOp::LoadGlobal { addr_label, .. } && addr_label@ == l);
                    if k < j {
                        assert(l0.contains_key(l));
                    }
                }
            }
            assert forall|w: Seq<char>| #[trigger] words_view(asm_words@).contains(w) <==> exists|k: int| 0 <= k < j + 1
                && (#[trigger] body0[k].op matches IrOp::InlineAsm { code, .. } && names_slot(code@, w)) by {
                if exists|k: int| 0 <= k < j + 1 && (#[trigger] body0[k].op matches IrOp::InlineAsm { code, .. } && names_slot(code@, w)) {
                    let k = choose|k: int| 0 <= k < j + 1 && (#[trigger] body0[k].op matches IrOp::InlineAsm { code, .. } && names_slot(code@, w));
                    if k < j {
                        assert(a0.contains(w));
                    }
                }
                if !(body0[j as int].op is InlineAsm) {
                    assert(words_view(asm_words@) == a0);
                }
            }
        }
        j += 1;
    }
    let mut k: usize = 0;
    while k < func.body.len()
        invariant
            k <= func.body@.len(),
            func.body@ == body0,
            loaded.wf(),
            dead.wf(),
            forall|l: Seq<char>| #[trigger] loaded@.contains_key(l) <==> loads_slot(body0, l),
            forall|w: Seq<char>| #[trigger] words_view(asm_words@).contains(w) <==> asm_names(body0, w),
            forall|x: usize| #[trigger] dead@.contains_key(x) <==> dead0.contains_key(x) || (x < k && unread_local_store(body0, x as int)),
            dead0 == rse_scan(body0, body0.len() as int).2,
            forall|d: usize| #[trigger] dead@.contains_key(d) ==> d < func.body@.len() && is_store(func.body@[d as int].op),
        decreases func.body@.len() - k,
    {
        let ghost dk = dead@;
        match &func.body[k].op {
            IrOp::StoreGlobal { addr_label, .. } => {
                if is_local_label(addr_label.as_str()) && !loaded.contains_key(addr_label) {
                    let label_chars = chars_of(addr_label.as_str());
                    let mut in_asm = false;
                    let mut w: usize = 0;
                    while w < asm_words.len()
                        invariant
                            w <= asm_words@.len(),
                            in_asm == exists|q: int| 0 <= q < w && asm_words@[q]@ == label_chars@,
                        decreases asm_words@.len() - w,
                    {
                        if chars_eq(&asm_words[w], &label_chars) {
                            in_asm = true;
                        }
                        w += 1;
                    }
                    proof {
                        if in_asm {
                            let q = choose|q: int| 0 <= q < asm_words@.len() && asm_words@[q]@ == label_chars@;
                            assert(words_view(asm_words@)[q] == addr_label@);
                        }
                        if words_view(asm_words@).contains(addr_label@) {
                            let q = choose|q: int| 0 <= q < words_view(asm_words@).len() && words_view(asm_words@)[q] == addr_label@;
                            assert(asm_words@[q]@ == label_chars@);
                        }
                        assert(in_asm == asm_names(body0, addr_label@));
                    }
                    if !in_asm {
                        dead.insert(k, ());
                    }
                }
            },
            _ => {},
        }
        proof {
            assert forall|x: usize| #[trigger] dead@.contains_key(x) <==> dead0.contains_key(x) || (x < k + 1 && unread_local_store(body0, x as int)) by {
                if x == k {
                } else {
                    assert(dead@.contains_key(x) == dk.contains_key(x));
                }
            }
        }
        k += 1;
    }
    if dead.is_empty() {
        proof {
            crate::opt::basic::lemma_sub_body_refl(func.body@);
            let a = func.body@.filter(|ins: IrInstr| !is_store(ins.op));
            assert forall|k: int| 0 <= k < a.len() implies #[trigger] same_instr(a[k], a[k]) by {}
            assert forall|n: int| 0 <= n <= body0.len() implies #[trigger] rse_kept(body0, n) == body0.subrange(0, n) by {
                lemma_rse_kept_all(body0, n, dead@);
            }
            assert(body0.subrange(0, body0.len() as int) =~= body0);
            assert forall|i: int| 0 <= i < body0.len() implies #[trigger] same_instr(body0[i], body0[i]) by {
                crate::ir::lemma_same_instr_refl(body0[i]);
            }
        }
        return false;
    }
    let ghost f = |ins: IrInstr| !is_store(ins.op);
    let mut kept: Vec<IrInstr> = Vec::new();
    let mut i: usize = 0;
    while i < func.body.len()
        invariant
            i <= func.body@.len(),
            func.body@ == body0,
            f == (|ins: IrInstr| !is_store(ins.op)),
            dead.wf(),
            forall|x: usize| #[trigger] dead@.contains_key(x) <==> rse_dead(body0, x as int) && x < body0.len(),
            forall|d: usize| #[trigger] dead@.contains_key(d) ==> d < body0.len() && is_store(body0[d as int].op),
            kept@.len() <= i,
            sub_body(kept@, body0),
            same_body(kept@, rse_kept(body0, i as int)),
            kept@.filter(f).len() == body0.subrange(0, i as int).filter(f).len(),
            forall|t: int| 0 <= t < kept@.filter(f).len() ==> #[trigger] same_instr(kept@.filter(f)[t], body0.subrange(0, i as int).filter(f)[t]),
        decreases func.body@.len() - i,
    {
        let ghost prev = kept@;
        proof {
            assert(body0.subrange(0, i as int + 1) =~= body0.subrange(0, i as int).push(body0[i as int]));
            body0.subrange(0, i as int).lemma_filter_push(body0[i as int], f);
        }
        if !dead.contains_key(&i) {
            let c = func.body[i].clone();
            proof {
                assert(!rse_dead(body0, i as int));
                let spec_prev = rse_kept(body0, i as int);
                assert(rse_kept(body0, i + 1) =~= spec_prev.push(body0[i as int]));
                assert forall|q: int| 0 <= q < prev.len() + 1 implies #[trigger] same_instr(prev.push(c)[q], spec_prev.push(body0[i as int])[q]) by {
                    if q < prev.len() {
                        assert(same_instr(prev[q], spec_prev[q]));
                    }
                }
            }
            kept.push(c);
            proof {
                assert(kept@ =~= prev.push(kept@[prev.len() as int]));
                prev.lemma_filter_push(kept@[prev.len() as int], f);
                assert(same_instr(kept@[prev.len() as int], body0[i as int]));
                assert(f(kept@[prev.len() as int]) == f(body0[i as int]));
            }
        } else {
            proof {
                assert(!f(body0[i as int]));
                assert(rse_dead(body0, i as int));
                assert(rse_kept(body0, i + 1) =~= rse_kept(body0, i as int));
            }
        }
        i += 1;
    }
    proof {
        assert(body0.subrange(0, i as int) =~= body0);
    }
    let changed = kept.len() != func.body.len();
    func.body = kept;
    changed
}

proof fn lemma_rse_kept_all(body: Seq<IrInstr>, n: int, dead: Map<usize, ()>)
    requires
        0 <= n <= body.len(),
        body.len() <= usize::MAX,
        forall|x: usize| #[trigger] dead.contains_key(x) <==> rse_scan(body, body.len() as int).2.contains_key(x)
            || (x < body.len() && unread_local_store(body, x as int)),
        dead == Map::<usize, ()>::empty(),
    ensures
        rse_kept(body, n) == body.subrange(0, n),
    decreases n,
{
    if n > 0 {
        lemma_rse_kept_all(body, n - 1, dead);
        let x = (n - 1) as usize;
        assert(x as int == n - 1);
        assert(!dead.contains_key(x));
        assert(!rse_dead(body, n - 1));
        assert(rse_kept(body, n) =~= body.subrange(0, n));
    }
}

} // verus!
