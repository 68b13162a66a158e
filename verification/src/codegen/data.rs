//! The data section of the generated assembly: storage for the globals,
//! the string literals, the spill slots, the static frames of the
//! non-recursive functions and the bases of variadic arguments.

use vstd::prelude::*;

use crate::callgraph::CallGraphAnalysis;
use crate::codegen::layout::{lines_view, rows_view};
use crate::ir::{GlobalVar, IrFunction, IrProgram, StringLiteral, Width};
use crate::maps::{AssocMap, distinct_keys};
use crate::opt::memory::chars_of;
use crate::text::{concat2, decimal, local_prefix, starts_with, string_of, u64_decimal};

verus! {

/// A character with the Unicode `White_Space` property, as
/// `char::is_whitespace` decides it.
pub open spec fn is_space(c: char) -> bool {
    ('\t' <= c && c <= '\r') || c == ' ' || c == '\u{85}' || c == '\u{a0}' || c == '\u{1680}'
        || ('\u{2000}' <= c && c <= '\u{200a}') || c == '\u{2028}' || c == '\u{2029}' || c == '\u{202f}'
        || c == '\u{205f}' || c == '\u{3000}'
}

/// A character that ends a symbol in a line of code: white space, or `,`
/// and `+`, and then `)` after a spill label or `;` elsewhere.
pub open spec fn ends_symbol(c: char, spill: bool) -> bool {
    is_space(c) || c == ',' || c == '+' || (spill && c == ')') || (!spill && c == ';')
}

/// The end of the symbol that starts at `p` in `line`.
pub open spec fn symbol_end(line: Seq<char>, p: int, spill: bool) -> int
    decreases line.len() - p,
{
    if p >= line.len() {
        line.len() as int
    } else if ends_symbol(line[p], spill) {
        p
    } else {
        symbol_end(line, p + 1, spill)
    }
}

/// Some symbol of the code, one that starts at an underscore, is `l`.
pub open spec fn referenced(code: Seq<Seq<char>>, l: Seq<char>) -> bool {
    exists|i: int, p: int| 0 <= i < code.len() && 0 <= p < code[i].len() && code[i][p] == '_'
        && #[trigger] code[i].subrange(p, symbol_end(code[i], p, false)) == l
}

/// The label of a global: its name where that starts with `_`, else
/// `_g_` and the name.
pub open spec fn data_label(name: Seq<char>) -> Seq<char> {
    if name.len() > 0 && name[0] == '_' {
        name
    } else {
        seq!['_', 'g', '_'] + name
    }
}

/// The line that places label `l`.
pub open spec fn label_line(l: Seq<char>) -> Seq<char> {
    l + seq![':']
}

/// A `DB` line for one byte.
pub open spec fn db_line(b: nat) -> Seq<char> {
    seq!['\t', 'D', 'B', ' '] + decimal(b)
}

/// A `.storage` line for `n` bytes.
pub open spec fn storage_line(n: nat) -> Seq<char> {
    seq!['\t', '.', 's', 't', 'o', 'r', 'a', 'g', 'e', ' '] + decimal(n)
}

/// The size of a global, two bytes where its type has none.
pub open spec fn global_size(g: GlobalVar) -> usize {
    match g.ty.spec_size() {
        Some(s) => s as usize,
        None => 2,
    }
}

/// A `DB` line for each of the first `n` bytes.
pub open spec fn db_lines(bytes: Seq<u8>, n: int) -> Seq<Seq<char>>
    decreases n,
{
    if n <= 0 {
        Seq::empty()
    } else {
        db_lines(bytes, n - 1).push(db_line(bytes[n - 1] as nat))
    }
}

/// `n` lines `DB 0`.
pub open spec fn zero_lines(n: int) -> Seq<Seq<char>>
    decreases n,
{
    if n <= 0 {
        Seq::empty()
    } else {
        zero_lines(n - 1).push(db_line(0))
    }
}

/// The storage of a global: its initial bytes padded with zeros to its
/// size, or uninitialised storage of its size.
pub open spec fn global_storage(g: GlobalVar) -> Seq<Seq<char>> {
    match g.init {
        Some(init) => db_lines(init@, init@.len() as int) + zero_lines(global_size(g) - init@.len()),
        None => seq![storage_line(global_size(g) as nat)],
    }
}

/// The lines of the first `n` globals, and the labels placed so far. A
/// global is left out when its label is a static local slot, a local
/// label that the code never mentions, or one placed before.
pub open spec fn global_part(gs: Seq<GlobalVar>, locals: Map<Seq<char>, u16>, code: Seq<Seq<char>>, n: int)
    -> (Seq<Seq<char>>, Set<Seq<char>>)
    decreases n,
{
    if n <= 0 {
        (Seq::empty(), Set::empty())
    } else {
        let (ls, em) = global_part(gs, locals, code, n - 1);
        let l = data_label(gs[n - 1].name@);
        if locals.contains_key(l) || (local_prefix().is_prefix_of(l) && !referenced(code, l)) || em.contains(l) {
            (ls, em)
        } else {
            (ls.push(label_line(l)) + global_storage(gs[n - 1]), em.insert(l))
        }
    }
}

/// The sizes of the globals by label (the last one wins).
pub open spec fn global_sizes(gs: Seq<GlobalVar>, n: int) -> Map<Seq<char>, usize>
    decreases n,
{
    if n <= 0 {
        Map::empty()
    } else {
        global_sizes(gs, n - 1).insert(data_label(gs[n - 1].name@), global_size(gs[n - 1]))
    }
}

/// The lines of the first `n` string literals, after the labels `em0`.
pub open spec fn string_part(ss: Seq<StringLiteral>, em0: Set<Seq<char>>, n: int) -> (Seq<Seq<char>>, Set<Seq<char>>)
    decreases n,
{
    if n <= 0 {
        (Seq::empty(), em0)
    } else {
        let (ls, em) = string_part(ss, em0, n - 1);
        let l = ss[n - 1].label@;
        if em.contains(l) {
            (ls, em)
        } else {
            (ls.push(label_line(l)) + db_lines(ss[n - 1].data@, ss[n - 1].data@.len() as int), em.insert(l))
        }
    }
}

/// The prefix of spill labels.
pub open spec fn spill_marker() -> Seq<char> {
    seq!['_', '_', 's', 'p', 'i', 'l', 'l', '_']
}

/// The first position at or after `p` where `pat` occurs in `line`.
pub open spec fn find_from(line: Seq<char>, pat: Seq<char>, p: int) -> Option<int>
    decreases line.len() - p,
{
    if p < 0 || p >= line.len() || p + pat.len() > line.len() {
        None
    } else if line.subrange(p, p + pat.len()) == pat {
        Some(p)
    } else {
        find_from(line, pat, p + 1)
    }
}

/// The spill labels of the first `n` lines of code, in order of first
/// appearance (one per line, at its first spill marker).
pub open spec fn spill_labels(code: Seq<Seq<char>>, n: int) -> Seq<Seq<char>>
    decreases n,
{
    if n <= 0 {
        Seq::empty()
    } else {
        let s = spill_labels(code, n - 1);
        match find_from(code[n - 1], spill_marker(), 0) {
            Some(p) => {
                let l = code[n - 1].subrange(p, symbol_end(code[n - 1], p, true));
                if s.contains(l) {
                    s
                } else {
                    s.push(l)
                }
            },
            None => s,
        }
    }
}

/// The bytes of a spill slot of the given width (two where unknown).
pub open spec fn spill_size(w: Option<Width>) -> nat {
    match w {
        Some(Width::W8) => 1,
        Some(Width::W32) => 4,
        _ => 2,
    }
}

/// The lines of the first `n` spill labels, after the labels `em0`.
pub open spec fn spill_part(labels: Seq<Seq<char>>, widths: Map<Seq<char>, Width>, em0: Set<Seq<char>>, n: int)
    -> (Seq<Seq<char>>, Set<Seq<char>>)
    decreases n,
{
    if n <= 0 {
        (Seq::empty(), em0)
    } else {
        let (ls, em) = spill_part(labels, widths, em0, n - 1);
        let l = labels[n - 1];
        if em.contains(l) {
            (ls, em)
        } else {
            let w = if widths.contains_key(l) { Some(widths[l]) } else { None };
            (ls.push(label_line(l)).push(storage_line(spill_size(w))), em.insert(l))
        }
    }
}

/// `a` comes before `b` in the order of `str`: by character codes, a
/// proper prefix first.
pub open spec fn lex_lt(a: Seq<char>, b: Seq<char>) -> bool
    decreases a.len(),
{
    if a.len() == 0 {
        b.len() > 0
    } else if b.len() == 0 {
        false
    } else if a[0] != b[0] {
        a[0] < b[0]
    } else {
        lex_lt(a.drop_first(), b.drop_first())
    }
}

/// Static slots ordered by address, then by label.
pub open spec fn slot_lt(x: (u16, Seq<char>), y: (u16, Seq<char>)) -> bool {
    x.0 < y.0 || (x.0 == y.0 && lex_lt(x.1, y.1))
}

/// `ps` lists the static slots of `locals` (address and label), each once,
/// in increasing order; exactly one sequence does.
pub open spec fn slot_order(locals: Map<Seq<char>, u16>, ps: Seq<(u16, Seq<char>)>) -> bool {
    &&& forall|i: int, j: int| 0 <= i < j < ps.len() ==> slot_lt(ps[i], ps[j])
    &&& forall|x: (u16, Seq<char>)| ps.contains(x) <==> locals.contains_key(x.1) && locals[x.1] == x.0
}

/// The size of a slot label: that of the global it names, else two.
pub open spec fn label_size(sizes: Map<Seq<char>, usize>, l: Seq<char>) -> nat {
    if sizes.contains_key(l) {
        sizes[l] as nat
    } else {
        2
    }
}

/// The largest size among the slots of `ps[k]`'s address up to `k`.
pub open spec fn run_size(ps: Seq<(u16, Seq<char>)>, sizes: Map<Seq<char>, usize>, k: int) -> nat
    decreases k,
{
    let s = label_size(sizes, ps[k].1);
    if k > 0 && ps[k - 1].0 == ps[k].0 {
        let t = run_size(ps, sizes, k - 1);
        if s < t { t } else { s }
    } else {
        s
    }
}

/// The lines of the first `n` static slots, after the labels `em0`: the
/// labels of one address one after another, then storage for the largest.
pub open spec fn slot_part(ps: Seq<(u16, Seq<char>)>, sizes: Map<Seq<char>, usize>, em0: Set<Seq<char>>, n: int)
    -> (Seq<Seq<char>>, Set<Seq<char>>)
    decreases n,
{
    if n <= 0 {
        (Seq::empty(), em0)
    } else {
        let (ls, em) = slot_part(ps, sizes, em0, n - 1);
        let x = ps[n - 1];
        let ls1 = if em.contains(x.1) { ls } else { ls.push(label_line(x.1)) };
        let ls2 = if n >= ps.len() || ps[n].0 != x.0 { ls1.push(storage_line(run_size(ps, sizes, n - 1))) } else { ls1 };
        (ls2, em.insert(x.1))
    }
}

/// The label of the base of a variadic function's arguments.
pub open spec fn va_label(name: Seq<char>) -> Seq<char> {
    seq!['_', '_', 'v', 'a', '_', 'b', 'a', 's', 'e', '_'] + name
}

/// The lines of the variadic bases of the first `n` functions, after the
/// labels `em0`.
pub open spec fn va_part(fs: Seq<IrFunction>, em0: Set<Seq<char>>, n: int) -> (Seq<Seq<char>>, Set<Seq<char>>)
    decreases n,
{
    if n <= 0 {
        (Seq::empty(), em0)
    } else {
        let (ls, em) = va_part(fs, em0, n - 1);
        let l = va_label(fs[n - 1].name@);
        if !fs[n - 1].is_variadic || em.contains(l) {
            (ls, em)
        } else {
            (ls.push(label_line(l)).push(storage_line(2)), em.insert(l))
        }
    }
}

/// The data section of `p`, with the static slots in the order `ps`:
/// globals, string literals, spill slots, static slots and variadic bases,
/// each label placed once.
pub open spec fn spec_data_section(p: IrProgram, locals: Map<Seq<char>, u16>, code: Seq<Seq<char>>,
    widths: Map<Seq<char>, Width>, ps: Seq<(u16, Seq<char>)>) -> Seq<Seq<char>> {
    let g = global_part(p.globals@, locals, code, p.globals@.len() as int);
    let s = string_part(p.strings@, g.1, p.strings@.len() as int);
    let sl = spill_labels(code, code.len() as int);
    let sp = spill_part(sl, widths, s.1, sl.len() as int);
    let st = slot_part(ps, global_sizes(p.globals@, p.globals@.len() as int), sp.1, ps.len() as int);
    let va = va_part(p.functions@, st.1, p.functions@.len() as int);
    g.0 + s.0 + sp.0 + st.0 + va.0
}

fn is_space_char(c: char) -> (r: bool)
    ensures
        r == is_space(c),
{
    ('\t' <= c && c <= '\r') || c == ' ' || c == '\u{85}' || c == '\u{a0}' || c == '\u{1680}'
        || ('\u{2000}' <= c && c <= '\u{200a}') || c == '\u{2028}' || c == '\u{2029}' || c == '\u{202f}'
        || c == '\u{205f}' || c == '\u{3000}'
}

/// The end of the symbol that starts at `p` (see [`symbol_end`]).
fn symbol_end_at(line: &Vec<char>, p: usize, spill: bool) -> (r: usize)
    requires
        p <= line@.len(),
    ensures
        r == symbol_end(line@, p as int, spill),
        p <= r <= line@.len(),
{
    let mut q: usize = p;
    while q < line.len()
        invariant
            p <= q <= line@.len(),
            symbol_end(line@, q as int, spill) == symbol_end(line@, p as int, spill),
        decreases line@.len() - q,
    {
        let c = line[q];
        if is_space_char(c) || c == ',' || c == '+' || (spill && c == ')') || (!spill && c == ';') {
            return q;
        }
        q += 1;
    }
    q
}

/// Whether `line[p..e]` is `l`.
fn slice_is(line: &Vec<char>, p: usize, e: usize, l: &Vec<char>) -> (r: bool)
    requires
        p <= e <= line@.len(),
    ensures
        r == (line@.subrange(p as int, e as int) == l@),
{
    if e - p != l.len() {
        return false;
    }
    let mut k: usize = 0;
    while k < l.len()
        invariant
            e - p == l@.len(),
            p <= e <= line@.len(),
            k <= l@.len(),
            forall|j: int| 0 <= j < k ==> line@[p + j] == l@[j],
        decreases l@.len() - k,
    {
        if line[p + k] != l[k] {
            assert(line@.subrange(p as int, e as int)[k as int] != l@[k as int]);
            return false;
        }
        k += 1;
    }
    assert(line@.subrange(p as int, e as int) =~= l@);
    true
}

/// Whether two character sequences are equal.
fn chars_eq(a: &Vec<char>, b: &Vec<char>) -> (r: bool)
    ensures
        r == (a@ == b@),
{
    let r = slice_is(a, 0, a.len(), b);
    assert(a@.subrange(0, a@.len() as int) =~= a@);
    r
}

/// Whether some symbol of the code is `l` (see [`referenced`]).
fn is_referenced(code: &Vec<Vec<char>>, l: &Vec<char>) -> (r: bool)
    ensures
        r == referenced(rows_view(code@), l@),
{
    let ghost cv = rows_view(code@);
    let mut i: usize = 0;
    while i < code.len()
        invariant
            i <= code@.len(),
            cv == rows_view(code@),
            forall|ii: int, p: int| 0 <= ii < i && 0 <= p < cv[ii].len() && cv[ii][p] == '_'
                ==> #[trigger] cv[ii].subrange(p, symbol_end(cv[ii], p, false)) != l@,
        decreases code@.len() - i,
    {
        let line = &code[i];
        assert(cv[i as int] == line@);
        let mut p: usize = 0;
        while p < line.len()
            invariant
                i < code@.len(),
                cv == rows_view(code@),
                cv[i as int] == line@,
                p <= line@.len(),
                forall|ii: int, q: int| 0 <= ii < i && 0 <= q < cv[ii].len() && cv[ii][q] == '_'
                    ==> #[trigger] cv[ii].subrange(q, symbol_end(cv[ii], q, false)) != l@,
                forall|q: int| 0 <= q < p && cv[i as int][q] == '_'
                    ==> #[trigger] cv[i as int].subrange(q, symbol_end(cv[i as int], q, false)) != l@,
            decreases line@.len() - p,
        {
            if line[p] == '_' {
                let e = symbol_end_at(line, p, false);
                if slice_is(line, p, e, l) {
                    return true;
                }
            }
            p += 1;
        }
        i += 1;
    }
    false
}

/// The first spill marker of a line (see [`find_from`]).
fn find_spill(line: &Vec<char>) -> (r: Option<usize>)
    ensures
        r matches Some(p) ==> find_from(line@, spill_marker(), 0) == Some(p as int) && p + 8 <= line@.len(),
        r is None ==> find_from(line@, spill_marker(), 0) is None,
{
    let marker: Vec<char> = vec!['_', '_', 's', 'p', 'i', 'l', 'l', '_'];
    assert(marker@ =~= spill_marker());
    let mut p: usize = 0;
    while p < line.len() && line.len() - p >= 8
        invariant
            p <= line@.len(),
            marker@ == spill_marker(),
            find_from(line@, spill_marker(), p as int) == find_from(line@, spill_marker(), 0),
        decreases line@.len() - p,
    {
        if slice_is(line, p, p + 8, &marker) {
            return Some(p);
        }
        p += 1;
    }
    None
}

proof fn lemma_lex_irrefl(a: Seq<char>)
    ensures
        !lex_lt(a, a),
    decreases a.len(),
{
    if a.len() > 0 {
        lemma_lex_irrefl(a.drop_first());
    }
}

proof fn lemma_lex_total(a: Seq<char>, b: Seq<char>)
    requires
        a != b,
    ensures
        lex_lt(a, b) || lex_lt(b, a),
    decreases a.len(),
{
    if a.len() > 0 && b.len() > 0 && a[0] == b[0] {
        if a.drop_first() == b.drop_first() {
            assert(a =~= seq![a[0]] + a.drop_first());
            assert(b =~= seq![b[0]] + b.drop_first());
        }
        lemma_lex_total(a.drop_first(), b.drop_first());
    } else if a.len() == 0 && b.len() == 0 {
        assert(a =~= b);
    }
}

proof fn lemma_lex_trans(a: Seq<char>, b: Seq<char>, c: Seq<char>)
    requires
        lex_lt(a, b),
        lex_lt(b, c),
    ensures
        lex_lt(a, c),
    decreases a.len(),
{
    if a.len() > 0 && b.len() > 0 && c.len() > 0 && a[0] == b[0] && b[0] == c[0] {
        lemma_lex_trans(a.drop_first(), b.drop_first(), c.drop_first());
    }
}

/// Whether `a` comes before `b` (see [`lex_lt`]).
fn lex_less(a: &Vec<char>, b: &Vec<char>) -> (r: bool)
    ensures
        r == lex_lt(a@, b@),
{
    let mut k: usize = 0;
    assert(a@.subrange(0, a@.len() as int) =~= a@);
    assert(b@.subrange(0, b@.len() as int) =~= b@);
    while k < a.len() && k < b.len()
        invariant
            k <= a@.len(),
            k <= b@.len(),
            a@.subrange(0, k as int) == b@.subrange(0, k as int),
            lex_lt(a@.subrange(k as int, a@.len() as int), b@.subrange(k as int, b@.len() as int)) == lex_lt(a@, b@),
        decreases a@.len() - k,
    {
        if a[k] != b[k] {
            return a[k] < b[k];
        }
        proof {
            let sa = a@.subrange(k as int, a@.len() as int);
            let sb = b@.subrange(k as int, b@.len() as int);
            assert(sa.drop_first() =~= a@.subrange(k + 1, a@.len() as int));
            assert(sb.drop_first() =~= b@.subrange(k + 1, b@.len() as int));
            assert(a@.subrange(0, k + 1) =~= a@.subrange(0, k as int).push(a@[k as int]));
            assert(b@.subrange(0, k + 1) =~= b@.subrange(0, k as int).push(b@[k as int]));
        }
        k += 1;
    }
    k == a.len() && k < b.len()
}

/// Add the line that places `l`.
fn push_label(out: &mut Vec<String>, l: &str)
    ensures
        lines_view(final(out)@) == lines_view(old(out)@).push(label_line(l@)),
{
    proof {
        reveal_strlit(":");
    }
    let line = concat2(l, ":");
    assert(line@ =~= label_line(l@));
    out.push(line);
    assert(lines_view(out@) =~= lines_view(old(out)@).push(label_line(l@)));
}

/// Add a `DB` line.
fn push_db(out: &mut Vec<String>, b: u64)
    ensures
        lines_view(final(out)@) == lines_view(old(out)@).push(db_line(b as nat)),
{
    proof {
        reveal_strlit("\tDB ");
    }
    let d = u64_decimal(b);
    let line = concat2("\tDB ", d.as_str());
    assert(line@ =~= db_line(b as nat));
    out.push(line);
    assert(lines_view(out@) =~= lines_view(old(out)@).push(db_line(b as nat)));
}

/// Add a `.storage` line.
fn push_storage(out: &mut Vec<String>, n: u64)
    ensures
        lines_view(final(out)@) == lines_view(old(out)@).push(storage_line(n as nat)),
{
    proof {
        reveal_strlit("\t.storage ");
    }
    let d = u64_decimal(n);
    let line = concat2("\t.storage ", d.as_str());
    assert(line@ =~= storage_line(n as nat));
    out.push(line);
    assert(lines_view(out@) =~= lines_view(old(out)@).push(storage_line(n as nat)));
}

/// The characters `line[p..e]`.
fn sub_chars(line: &Vec<char>, p: usize, e: usize) -> (r: Vec<char>)
    requires
        p <= e <= line@.len(),
    ensures
        r@ == line@.subrange(p as int, e as int),
{
    let mut r: Vec<char> = Vec::new();
    let mut k: usize = p;
    while k < e
        invariant
            p <= k <= e <= line@.len(),
            r@ == line@.subrange(p as int, k as int),
        decreases e - k,
    {
        r.push(line[k]);
        assert(r@ =~= line@.subrange(p as int, k + 1));
        k += 1;
    }
    r
}

/// The label of a global (see [`data_label`]).
fn make_data_label(name: &String) -> (r: String)
    ensures
        r@ == data_label(name@),
{
    proof {
        reveal_strlit("_");
        reveal_strlit("_g_");
    }
    assert("_"@ =~= seq!['_']);
    if starts_with(name.as_str(), "_") {
        assert(name@[0] == "_"@[0]);
        assert(name@.len() > 0 && name@[0] == '_');
        name.clone()
    } else {
        proof {
            if name@.len() > 0 && name@[0] == '_' {
                assert("_"@ =~= name@.subrange(0, 1));
            }
        }
        let r = concat2("_g_", name.as_str());
        assert(r@ =~= data_label(name@));
        r
    }
}

/// Add the storage of a global (see [`global_storage`]).
fn push_global_storage(out: &mut Vec<String>, g: &GlobalVar)
    ensures
        lines_view(final(out)@) == lines_view(old(out)@) + global_storage(*g),
{
    let size: usize = match g.ty.size_of() {
        Some(s) => s,
        None => 2,
    };
    assert(size == global_size(*g));
    match &g.init {
        Some(init) => {
            let mut j: usize = 0;
            while j < init.len()
                invariant
                    j <= init@.len(),
                    lines_view(out@) == lines_view(old(out)@) + db_lines(init@, j as int),
                decreases init@.len() - j,
            {
                push_db(out, init[j] as u64);
                assert(lines_view(old(out)@) + db_lines(init@, j + 1) =~= (lines_view(old(out)@) + db_lines(init@, j as int)).push(db_line(init@[j as int] as nat)));
                j += 1;
            }
            let ghost mid = lines_view(out@);
            let mut t: usize = init.len();
            while t < size
                invariant
                    init@.len() <= t,
                    t <= size || t == init@.len(),
                    lines_view(out@) == mid + zero_lines(t - init@.len()),
                decreases size - t,
            {
                push_db(out, 0);
                assert(mid + zero_lines(t + 1 - init@.len()) =~= (mid + zero_lines(t - init@.len())).push(db_line(0)));
                t += 1;
            }
            assert(zero_lines(t - init@.len()) == zero_lines(size - init@.len()));
        },
        None => {
            push_storage(out, size as u64);
            assert(lines_view(out@) =~= lines_view(old(out)@) + global_storage(*g));
        },
    }
}

/// The address and label of each slot.
pub open spec fn slot_view(ps: Seq<(u16, Vec<char>, String)>) -> Seq<(u16, Seq<char>)> {
    ps.map_values(|x: (u16, Vec<char>, String)| (x.0, x.1@))
}

proof fn lemma_slot_total(x: (u16, Seq<char>), y: (u16, Seq<char>))
    requires
        x.1 != y.1,
    ensures
        slot_lt(x, y) || slot_lt(y, x),
{
    lemma_lex_total(x.1, y.1);
}

proof fn lemma_slot_trans(x: (u16, Seq<char>), y: (u16, Seq<char>), z: (u16, Seq<char>))
    requires
        slot_lt(x, y),
        slot_lt(y, z),
    ensures
        slot_lt(x, z),
{
    if x.0 == y.0 && y.0 == z.0 {
        lemma_lex_trans(x.1, y.1, z.1);
    }
}

/// Whether slot `(a, l)` comes before slot `(b, m)`.
fn slot_less(a: u16, l: &Vec<char>, b: u16, m: &Vec<char>) -> (r: bool)
    ensures
        r == slot_lt((a, l@), (b, m@)),
{
    a < b || (a == b && lex_less(l, m))
}

/// The static slots in increasing order (see [`slot_order`]).
fn sorted_slots(locals: &AssocMap<String, u16>) -> (r: Vec<(u16, Vec<char>, String)>)
    requires
        locals.wf(),
    ensures
        slot_order(locals@, slot_view(r@)),
        forall|a: int| 0 <= a < r@.len() ==> (#[trigger] r@[a]).1@ == r@[a].2@,
{
    let ghost ents = locals.entries();
    proof {
        locals.lemma_entries();
    }
    let mut ps: Vec<(u16, Vec<char>, String)> = Vec::new();
    let mut i: usize = 0;
    while i < locals.len()
        invariant
            i <= ents.len(),
            ents == locals.entries(),
            distinct_keys(ents),
            forall|a: int, b: int| 0 <= a < b < ps@.len() ==> slot_lt(slot_view(ps@)[a], slot_view(ps@)[b]),
            forall|x: (u16, Seq<char>)| slot_view(ps@).contains(x) <==> exists|j: int| 0 <= j < i && x == (ents[j].1, ents[j].0@),
            forall|a: int| 0 <= a < ps@.len() ==> (#[trigger] ps@[a]).1@ == ps@[a].2@,
        decreases ents.len() - i,
    {
        let label = locals.key_at(i).clone();
        let addr = *locals.value_at(i);
        let ch = chars_of(label.as_str());
        let ghost nx = (addr, ch@);
        let ghost pv = slot_view(ps@);
        let mut j: usize = 0;
        while j < ps.len() && !slot_less(addr, &ch, ps[j].0, &ps[j].1)
            invariant
                j <= ps@.len(),
                i < ents.len(),
                ents == locals.entries(),
                distinct_keys(ents),
                nx == (addr, ch@),
                ch@ == label@,
                label@ == ents[i as int].0@,
                addr == ents[i as int].1,
                pv == slot_view(ps@),
                forall|a: int, b: int| 0 <= a < b < ps@.len() ==> slot_lt(slot_view(ps@)[a], slot_view(ps@)[b]),
                forall|x: (u16, Seq<char>)| slot_view(ps@).contains(x) <==> exists|j: int| 0 <= j < i && x == (ents[j].1, ents[j].0@),
                forall|a: int| 0 <= a < ps@.len() ==> (#[trigger] ps@[a]).1@ == ps@[a].2@,
                forall|a: int| 0 <= a < j ==> !slot_lt(nx, #[trigger] pv[a]),
            decreases ps@.len() - j,
        {
            j += 1;
        }
        proof {
            // The new label is none of those placed before.
            assert forall|a: int| 0 <= a < pv.len() implies (#[trigger] pv[a]).1 != nx.1 by {
                assert(pv.contains(pv[a]));
                let jj = choose|jj: int| 0 <= jj < i && pv[a] == (ents[jj].1, ents[jj].0@);
                assert(ents[jj].0@ != ents[i as int].0@);
            }
            assert forall|a: int| 0 <= a < j implies slot_lt(#[trigger] pv[a], nx) by {
                lemma_slot_total(pv[a], nx);
            }
        }
        let ghost ops = ps@;
        ps.insert(j, (addr, ch, label));
        proof {
            let nv = slot_view(ps@);
            assert(nv =~= pv.insert(j as int, nx));
            assert forall|a: int, b: int| 0 <= a < b < nv.len() implies slot_lt(nv[a], nv[b]) by {
                if b < j {
                } else if b == j {
                    assert(nv[a] == pv[a]);
                } else if a < j {
                    assert(nv[b] == pv[b - 1]);
                    if b - 1 == j {
                        lemma_slot_trans(pv[a], nx, pv[b - 1]);
                    } else {
                        lemma_slot_trans(nx, pv[j as int], pv[b - 1]);
                        lemma_slot_trans(pv[a], nx, pv[b - 1]);
                    }
                } else if a == j {
                    assert(nv[b] == pv[b - 1]);
                    if b - 1 > j {
                        lemma_slot_trans(nx, pv[j as int], pv[b - 1]);
                    }
                } else {
                    assert(nv[a] == pv[a - 1] && nv[b] == pv[b - 1]);
                }
            }
            assert forall|x: (u16, Seq<char>)| nv.contains(x) <==> exists|jj: int| 0 <= jj < i + 1 && x == (ents[jj].1, ents[jj].0@) by {
                if nv.contains(x) {
                    let a = choose|a: int| 0 <= a < nv.len() && nv[a] == x;
                    if a < j {
                        assert(pv.contains(pv[a]));
                    } else if a == j {
                        assert(x == (ents[i as int].1, ents[i as int].0@));
                    } else {
                        assert(pv[a - 1] == x);
                        assert(pv.contains(pv[a - 1]));
                    }
                }
                if exists|jj: int| 0 <= jj < i + 1 && x == (ents[jj].1, ents[jj].0@) {
                    let jj = choose|jj: int| 0 <= jj < i + 1 && x == (ents[jj].1, ents[jj].0@);
                    if jj == i {
                        assert(nv[j as int] == x);
                    } else {
                        assert(pv.contains(x));
                        let a = choose|a: int| 0 <= a < pv.len() && pv[a] == x;
                        if a < j {
                            assert(nv[a] == x);
                        } else {
                            assert(nv[a + 1] == x);
                        }
                    }
                }
            }
            assert forall|a: int| 0 <= a < ps@.len() implies (#[trigger] ps@[a]).1@ == ps@[a].2@ by {
                if a < j {
                    assert(ps@[a] == ops[a]);
                } else if a > j {
                    assert(ps@[a] == ops[a - 1]);
                }
            }
        }
        i += 1;
    }
    proof {
        let nv = slot_view(ps@);
        assert forall|x: (u16, Seq<char>)| nv.contains(x) <==> locals@.contains_key(x.1) && locals@[x.1] == x.0 by {
            if locals@.contains_key(x.1) && locals@[x.1] == x.0 {
                let jj = choose|jj: int| 0 <= jj < ents.len() && ents[jj].0@ == x.1;
                assert(locals@[ents[jj].0@] == ents[jj].1);
            }
        }
    }
    ps
}

/// The data section of a program: the lines that give storage to its
/// globals, string literals, spill slots (those that `code` mentions,
/// sized by `spill_widths`), the static slots of `analysis` and the
/// variadic bases, each label placed once (see [`spec_data_section`]).
#[verifier::rlimit(50)]
pub fn data_section(program: &IrProgram, analysis: &CallGraphAnalysis, code: &Vec<String>,
    spill_widths: &AssocMap<String, Width>) -> (r: Vec<String>)
    requires
        analysis.wf(),
        spill_widths.wf(),
    ensures
        exists|ps: Seq<(u16, Seq<char>)>| slot_order(analysis.local_allocs@, ps)
            && lines_view(r@) == spec_data_section(*program, analysis.local_allocs@, lines_view(code@), spill_widths@, ps),
{
    let ghost locals = analysis.local_allocs@;
    let ghost gs = program.globals@;
    // The characters of each line of code.
    let mut rows: Vec<Vec<char>> = Vec::new();
    let mut i: usize = 0;
    while i < code.len()
        invariant
            i <= code@.len(),
            rows@.len() == i,
            forall|j: int| 0 <= j < i ==> (#[trigger] rows@[j])@ == code@[j]@,
        decreases code@.len() - i,
    {
        rows.push(chars_of(code[i].as_str()));
        i += 1;
    }
    let ghost cv = lines_view(code@);
    assert(rows_view(rows@) =~= cv);
    let mut out: Vec<String> = Vec::new();
    let mut emitted: AssocMap<String, ()> = AssocMap::new();
    let mut sizes: AssocMap<String, usize> = AssocMap::new();
    // Globals.
    i = 0;
    assert(emitted@.dom() =~= Set::<Seq<char>>::empty());
    while i < program.globals.len()
        invariant
            i <= gs.len(),
            gs == program.globals@,
            locals == analysis.local_allocs@,
            analysis.wf(),
            rows_view(rows@) == cv,
            emitted.wf(),
            sizes.wf(),
            lines_view(out@) == global_part(gs, locals, cv, i as int).0,
            emitted@.dom() == global_part(gs, locals, cv, i as int).1,
            sizes@ == global_sizes(gs, i as int),
        decreases gs.len() - i,
    {
        let g = &program.globals[i];
        let label = make_data_label(&g.name);
        let size: usize = match g.ty.size_of() {
            Some(s) => s,
            None => 2,
        };
        sizes.insert(label.clone(), size);
        let skip = if analysis.local_allocs.contains_key(&label) {
            true
        } else if crate::text::is_local_label(label.as_str()) && !is_referenced(&rows, &chars_of(label.as_str())) {
            true
        } else {
            emitted.contains_key(&label)
        };
        if !skip {
            push_label(&mut out, label.as_str());
            push_global_storage(&mut out, g);
            emitted.insert(label, ());
        }
        proof {
            assert(emitted@.dom() =~= global_part(gs, locals, cv, i + 1).1);
        }
        i += 1;
    }
    let ghost gp = global_part(gs, locals, cv, gs.len() as int);
    let ghost lines_g = lines_view(out@);
    // String literals.
    let ghost ss = program.strings@;
    i = 0;
    while i < program.strings.len()
        invariant
            i <= ss.len(),
            ss == program.strings@,
            emitted.wf(),
            lines_view(out@) == lines_g + string_part(ss, gp.1, i as int).0,
            emitted@.dom() == string_part(ss, gp.1, i as int).1,
        decreases ss.len() - i,
    {
        let lit = &program.strings[i];
        if !emitted.contains_key(&lit.label) {
            push_label(&mut out, lit.label.as_str());
            let mut j: usize = 0;
            let ghost base = lines_view(out@);
            while j < lit.data.len()
                invariant
                    j <= lit.data@.len(),
                    lines_view(out@) == base + db_lines(lit.data@, j as int),
                decreases lit.data@.len() - j,
            {
                push_db(&mut out, lit.data[j] as u64);
                assert(base + db_lines(lit.data@, j + 1) =~= (base + db_lines(lit.data@, j as int)).push(db_line(lit.data@[j as int] as nat)));
                j += 1;
            }
            emitted.insert(lit.label.clone(), ());
            proof {
                let prev = string_part(ss, gp.1, i as int);
                assert(lines_view(out@) =~= lines_g + string_part(ss, gp.1, i + 1).0);
                assert(emitted@.dom() =~= string_part(ss, gp.1, i + 1).1);
            }
        }
        i += 1;
    }
    let ghost sp = string_part(ss, gp.1, ss.len() as int);
    let ghost lines_s = lines_view(out@);
    // Spill labels, in order of first appearance.
    let mut spills: Vec<Vec<char>> = Vec::new();
    i = 0;
    while i < rows.len()
        invariant
            i <= rows@.len(),
            rows_view(rows@) == cv,
            rows_view(spills@) == spill_labels(cv, i as int),
        decreases rows@.len() - i,
    {
        let line = &rows[i];
        assert(cv[i as int] == line@);
        match find_spill(line) {
            Some(p) => {
                let e = symbol_end_at(line, p, true);
                let l = sub_chars(line, p, e);
                let mut seen = false;
                let mut k: usize = 0;
                while k < spills.len()
                    invariant
                        k <= spills@.len(),
                        seen == exists|t: int| 0 <= t < k && (#[trigger] spills@[t])@ == l@,
                    decreases spills@.len() - k,
                {
                    if chars_eq(&spills[k], &l) {
                        seen = true;
                    }
                    k += 1;
                }
                proof {
                    let sv = rows_view(spills@);
                    if seen {
                        let t = choose|t: int| 0 <= t < k && (#[trigger] spills@[t])@ == l@;
                        assert(sv[t] == l@);
                    } else {
                        assert forall|t: int| 0 <= t < sv.len() implies sv[t] != l@ by {
                            assert(spills@[t]@ != l@);
                        }
                    }
                }
                if !seen {
                    let ghost sv0 = rows_view(spills@);
                    spills.push(l);
                    assert(rows_view(spills@) =~= sv0.push(l@));
                }
            },
            None => {},
        }
        i += 1;
    }
    let ghost sl = spill_labels(cv, cv.len() as int);
    i = 0;
    while i < spills.len()
        invariant
            i <= spills@.len(),
            rows_view(spills@) == sl,
            emitted.wf(),
            spill_widths.wf(),
            lines_view(out@) == lines_s + spill_part(sl, spill_widths@, sp.1, i as int).0,
            emitted@.dom() == spill_part(sl, spill_widths@, sp.1, i as int).1,
        decreases spills@.len() - i,
    {
        let label = string_of(&spills[i]);
        assert(sl[i as int] == label@);
        if !emitted.contains_key(&label) {
            let bytes: u64 = match spill_widths.get(&label) {
                Some(Width::W8) => 1,
                Some(Width::W32) => 4,
                _ => 2,
            };
            push_label(&mut out, label.as_str());
            push_storage(&mut out, bytes);
            emitted.insert(label, ());
            proof {
                assert(emitted@.dom() =~= spill_part(sl, spill_widths@, sp.1, i + 1).1);
            }
        }
        i += 1;
    }
    let ghost pp = spill_part(sl, spill_widths@, sp.1, sl.len() as int);
    let ghost lines_p = lines_view(out@);
    // Static slots, by address and then by label.
    let ps = sorted_slots(&analysis.local_allocs);
    let ghost pv = slot_view(ps@);
    let ghost gsz = global_sizes(gs, gs.len() as int);
    let mut run: usize = 0;
    i = 0;
    while i < ps.len()
        invariant
            i <= ps@.len(),
            pv == slot_view(ps@),
            forall|a: int| 0 <= a < ps@.len() ==> (#[trigger] ps@[a]).1@ == ps@[a].2@,
            emitted.wf(),
            sizes.wf(),
            sizes@ == gsz,
            lines_view(out@) == lines_p + slot_part(pv, gsz, pp.1, i as int).0,
            emitted@.dom() == slot_part(pv, gsz, pp.1, i as int).1,
            i > 0 ==> run == run_size(pv, gsz, i - 1),
        decreases ps@.len() - i,
    {
        let ghost x = pv[i as int];
        assert(x.1 == ps@[i as int].2@);
        let own: usize = match sizes.get(&ps[i].2) {
            Some(s) => *s,
            None => 2,
        };
        let r2: usize = if i > 0 && ps[i - 1].0 == ps[i].0 {
            if own < run { run } else { own }
        } else {
            own
        };
        assert(r2 == run_size(pv, gsz, i as int));
        let ghost before = lines_view(out@);
        if !emitted.contains_key(&ps[i].2) {
            push_label(&mut out, ps[i].2.as_str());
        }
        emitted.insert(ps[i].2.clone(), ());
        if i + 1 >= ps.len() || ps[i + 1].0 != ps[i].0 {
            push_storage(&mut out, r2 as u64);
        }
        proof {
            assert(lines_view(out@) =~= lines_p + slot_part(pv, gsz, pp.1, i + 1).0);
            assert(emitted@.dom() =~= slot_part(pv, gsz, pp.1, i + 1).1);
        }
        run = r2;
        i += 1;
    }
    let ghost st = slot_part(pv, gsz, pp.1, pv.len() as int);
    let ghost lines_t = lines_view(out@);
    // Variadic bases.
    let ghost fs = program.functions@;
    i = 0;
    while i < program.functions.len()
        invariant
            i <= fs.len(),
            fs == program.functions@,
            emitted.wf(),
            lines_view(out@) == lines_t + va_part(fs, st.1, i as int).0,
            emitted@.dom() == va_part(fs, st.1, i as int).1,
        decreases fs.len() - i,
    {
        let f = &program.functions[i];
        if f.is_variadic {
            proof {
                reveal_strlit("__va_base_");
            }
            let label = concat2("__va_base_", f.name.as_str());
            assert(label@ =~= va_label(f.name@));
            if !emitted.contains_key(&label) {
                push_label(&mut out, label.as_str());
                push_storage(&mut out, 2);
                emitted.insert(label, ());
                proof {
                    assert(emitted@.dom() =~= va_part(fs, st.1, i + 1).1);
                }
            }
        }
        i += 1;
    }
    proof {
        assert(lines_view(out@) =~= spec_data_section(*program, locals, cv, spill_widths@, pv));
    }
    out
}

} // verus!
