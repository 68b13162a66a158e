//! Clean-up of the generated assembly text: jumps to a label that is
//! directly followed by an unconditional jump are sent on to that jump's
//! target, and unconditional jumps to the label on the next line of code
//! are dropped.

use vstd::prelude::*;

use crate::emit::chars::{chars_equal, slice, trim, trim_chars, upper_chars, upper_seq};
use crate::emit::listing::{find_ws, first_ws, push_chars};
use crate::maps::{AssocMap, chain, distinct_keys, forward_ok, forwards_to, lemma_forwards_trans};
use crate::opt::memory::chars_of;
use crate::text::string_of;

verus! {

/// The text of each line.
pub open spec fn lines_view(lines: Seq<String>) -> Seq<Seq<char>> {
    lines.map_values(|s: String| s@)
}

/// The text of each row of characters.
pub open spec fn rows_view(rows: Seq<Vec<char>>) -> Seq<Seq<char>> {
    rows.map_values(|r: Vec<char>| r@)
}

/// A line carries code: it is neither blank nor a comment.
pub open spec fn significant(line: Seq<char>) -> bool {
    trim(line).len() > 0 && trim(line)[0] != ';'
}

/// The first line at or after `idx` that carries code.
pub open spec fn next_significant(lines: Seq<Seq<char>>, idx: int) -> Option<int>
    decreases lines.len() - idx,
{
    if idx < 0 || idx >= lines.len() {
        None
    } else if significant(lines[idx]) {
        Some(idx)
    } else {
        next_significant(lines, idx + 1)
    }
}

/// An instruction line: its mnemonic in upper case and its operand text,
/// split at the first white space of the trimmed line.  Blank lines,
/// comments and labels are none.
pub open spec fn parse_inst(line: Seq<char>) -> Option<(Seq<char>, Seq<char>)> {
    let t = trim(line);
    if t.len() == 0 || t[0] == ';' || t.last() == ':' {
        None
    } else {
        let k = first_ws(t);
        Some((upper_seq(t.take(k)), if k < t.len() { trim(t.skip(k + 1)) } else { Seq::empty() }))
    }
}

/// `s` without its trailing colons.
pub open spec fn strip_colons(s: Seq<char>) -> Seq<char>
    decreases s.len(),
{
    if s.len() > 0 && s.last() == ':' {
        strip_colons(s.drop_last())
    } else {
        s
    }
}

/// The label that a line defines: a trimmed line ending in `:` that is
/// not a comment, without its colons.
pub open spec fn label_of(line: Seq<char>) -> Option<Seq<char>> {
    let t = trim(line);
    if t.len() > 0 && t.last() == ':' && t[0] != ';' {
        Some(strip_colons(t))
    } else {
        None
    }
}

/// The line of each label among the first `n` lines (the last one for a
/// label defined twice).
pub open spec fn label_lines(lines: Seq<Seq<char>>, n: int) -> Map<Seq<char>, usize>
    decreases n,
{
    if n <= 0 {
        Map::empty()
    } else {
        let m = label_lines(lines, n - 1);
        match label_of(lines[n - 1]) {
            Some(l) => m.insert(l, (n - 1) as usize),
            None => m,
        }
    }
}

/// The mnemonic of the unconditional jump.
pub open spec fn jmp_word() -> Seq<char> {
    seq!['J', 'M', 'P']
}

/// The target of the unconditional jump that is the first line of code
/// after line `i`, if it is one.
pub open spec fn jmp_after(lines: Seq<Seq<char>>, i: int) -> Option<Seq<char>> {
    match next_significant(lines, i + 1) {
        Some(j) => match parse_inst(lines[j]) {
            Some(p) => if p.0 == jmp_word() { Some(p.1) } else { None },
            None => None,
        },
        None => None,
    }
}

/// Each label whose next line of code is an unconditional jump, with that
/// jump's target.
pub open spec fn initial_forward(lines: Seq<Seq<char>>) -> Map<Seq<char>, Seq<char>> {
    let labels = label_lines(lines, lines.len() as int);
    Map::new(
        |l: Seq<char>| labels.contains_key(l) && jmp_after(lines, labels[l] as int) is Some,
        |l: Seq<char>| jmp_after(lines, labels[l] as int)->Some_0,
    )
}

/// The text of the strings of a map.
pub open spec fn text_map(m: Map<Seq<char>, String>) -> Map<Seq<char>, Seq<char>> {
    m.map_values(|s: String| s@)
}

/// The mnemonics of the 8080 jumps.
pub open spec fn is_jump_op(op: Seq<char>) -> bool {
    op == jmp_word() || op == seq!['J', 'Z'] || op == seq!['J', 'N', 'Z'] || op == seq!['J', 'C'] || op == seq![
        'J',
        'N',
        'C',
    ] || op == seq!['J', 'M'] || op == seq!['J', 'P'] || op == seq!['J', 'P', 'E'] || op == seq!['J', 'P', 'O']
}

/// A jump line with its target sent on through `f`; other lines as they are.
pub open spec fn forwarded_line(line: Seq<char>, f: Map<Seq<char>, Seq<char>>) -> Seq<char> {
    match parse_inst(line) {
        Some(p) => if is_jump_op(p.0) && f.contains_key(trim(p.1)) {
            seq!['\t'] + p.0 + seq![' '] + f[trim(p.1)]
        } else {
            line
        },
        None => line,
    }
}

/// Line `i` is an unconditional jump to the label on the next line of code.
pub open spec fn redundant_jmp(lines: Seq<Seq<char>>, i: int) -> bool {
    match parse_inst(lines[i]) {
        Some(p) => p.0 == jmp_word() && match next_significant(lines, i + 1) {
            Some(j) => trim(lines[j]).last() == ':' && strip_colons(trim(lines[j])) == trim(p.1),
            None => false,
        },
        None => false,
    }
}

/// The first `n` lines without the redundant jumps.
pub open spec fn without_redundant(lines: Seq<Seq<char>>, n: int) -> Seq<Seq<char>>
    decreases n,
{
    if n <= 0 {
        Seq::empty()
    } else {
        without_redundant(lines, n - 1) + if redundant_jmp(lines, n - 1) {
            Seq::empty()
        } else {
            seq![lines[n - 1]]
        }
    }
}

/// The lines with every jump sent on through `f` and the redundant jumps
/// then dropped.
pub open spec fn compacted(lines: Seq<Seq<char>>, f: Map<Seq<char>, Seq<char>>) -> Seq<Seq<char>> {
    let out = lines.map_values(|l: Seq<char>| forwarded_line(l, f));
    without_redundant(out, out.len() as int)
}

fn is_significant(line: &Vec<char>) -> (r: bool)
    ensures
        r == significant(line@),
{
    let t = trim_chars(line);
    t.len() > 0 && t[0] != ';'
}

fn find_next_significant(rows: &Vec<Vec<char>>, idx: usize) -> (r: Option<usize>)
    ensures
        match r {
            Some(j) => idx <= j < rows@.len() && next_significant(rows_view(rows@), idx as int) == Some(j as int)
                && significant(rows@[j as int]@),
            None => next_significant(rows_view(rows@), idx as int) is None,
        },
{
    let ghost v = rows_view(rows@);
    let mut j: usize = idx;
    while j < rows.len()
        invariant
            idx <= j,
            v == rows_view(rows@),
            next_significant(v, idx as int) == next_significant(v, j as int),
        decreases rows@.len() - j,
    {
        if is_significant(&rows[j]) {
            return Some(j);
        }
        j += 1;
    }
    None
}

fn parse_inst_chars(line: &Vec<char>) -> (r: Option<(Vec<char>, Vec<char>)>)
    ensures
        match r {
            Some(p) => parse_inst(line@) == Some((p.0@, p.1@)),
            None => parse_inst(line@) is None,
        },
{
    let t = trim_chars(line);
    let n = t.len();
    if n == 0 || t[0] == ';' || t[n - 1] == ':' {
        return None;
    }
    let k = find_ws(&t);
    let head = slice(&t, 0, k);
    let op = upper_chars(&head);
    proof {
        assert(t@.take(k as int) =~= t@.subrange(0, k as int));
    }
    if k < n {
        let rest = slice(&t, k + 1, n);
        let opnds = trim_chars(&rest);
        proof {
            assert(t@.skip(k + 1) =~= t@.subrange(k + 1, n as int));
        }
        Some((op, opnds))
    } else {
        let opnds: Vec<char> = Vec::new();
        proof {
            assert(opnds@ =~= Seq::<char>::empty());
        }
        Some((op, opnds))
    }
}

fn strip_colons_chars(s: &Vec<char>) -> (r: Vec<char>)
    ensures
        r@ == strip_colons(s@),
{
    let mut j: usize = s.len();
    proof {
        assert(s@.subrange(0, s@.len() as int) =~= s@);
    }
    while j > 0 && s[j - 1] == ':'
        invariant
            j <= s@.len(),
            strip_colons(s@) == strip_colons(s@.subrange(0, j as int)),
        decreases j,
    {
        proof {
            assert(s@.subrange(0, j as int).drop_last() =~= s@.subrange(0, j - 1));
        }
        j -= 1;
    }
    slice(s, 0, j)
}

fn label_chars(line: &Vec<char>) -> (r: Option<Vec<char>>)
    ensures
        match r {
            Some(l) => label_of(line@) == Some(l@),
            None => label_of(line@) is None,
        },
{
    let t = trim_chars(line);
    let n = t.len();
    if n > 0 && t[n - 1] == ':' && t[0] != ';' {
        Some(strip_colons_chars(&t))
    } else {
        None
    }
}

fn word_is(s: &Vec<char>, w: &str) -> (r: bool)
    ensures
        r == (s@ == w@),
{
    let wc = chars_of(w);
    chars_equal(s, &wc)
}

fn is_jmp(op: &Vec<char>) -> (r: bool)
    ensures
        r == (op@ == jmp_word()),
{
    proof {
        reveal_strlit("JMP");
        assert("JMP"@ =~= jmp_word());
    }
    word_is(op, "JMP")
}

fn is_jump_mnemonic(op: &Vec<char>) -> (r: bool)
    ensures
        r == is_jump_op(op@),
{
    proof {
        reveal_strlit("JMP");
        reveal_strlit("JZ");
        reveal_strlit("JNZ");
        reveal_strlit("JC");
        reveal_strlit("JNC");
        reveal_strlit("JM");
        reveal_strlit("JP");
        reveal_strlit("JPE");
        reveal_strlit("JPO");
        assert("JMP"@ =~= jmp_word());
        assert("JZ"@ =~= seq!['J', 'Z']);
        assert("JNZ"@ =~= seq!['J', 'N', 'Z']);
        assert("JC"@ =~= seq!['J', 'C']);
        assert("JNC"@ =~= seq!['J', 'N', 'C']);
        assert("JM"@ =~= seq!['J', 'M']);
        assert("JP"@ =~= seq!['J', 'P']);
        assert("JPE"@ =~= seq!['J', 'P', 'E']);
        assert("JPO"@ =~= seq!['J', 'P', 'O']);
    }
    word_is(op, "JMP") || word_is(op, "JZ") || word_is(op, "JNZ") || word_is(op, "JC") || word_is(op, "JNC")
        || word_is(op, "JM") || word_is(op, "JP") || word_is(op, "JPE") || word_is(op, "JPO")
}

fn jmp_target_after(rows: &Vec<Vec<char>>, i: usize) -> (r: Option<Vec<char>>)
    requires
        i < rows@.len(),
    ensures
        match r {
            Some(t) => jmp_after(rows_view(rows@), i as int) == Some(t@),
            None => jmp_after(rows_view(rows@), i as int) is None,
        },
{
    let n = rows.len();
    match find_next_significant(rows, i + 1) {
        Some(j) => {
            assert(rows_view(rows@)[j as int] == rows@[j as int]@);
            match parse_inst_chars(&rows[j]) {
                Some(p) => {
                    if is_jmp(&p.0) {
                        Some(p.1)
                    } else {
                        None
                    }
                },
                None => None,
            }
        },
        None => None,
    }
}

fn snapshot(m: &AssocMap<String, String>) -> (r: Vec<(String, String)>)
    requires
        m.wf(),
    ensures
        r@.len() == m.entries().len(),
        forall|j: int| 0 <= j < r@.len() ==> #[trigger] r@[j] == m.entries()[j],
{
    let mut out: Vec<(String, String)> = Vec::new();
    let n = m.len();
    let mut j: usize = 0;
    while j < n
        invariant
            j <= n,
            n == m.entries().len(),
            out@.len() == j,
            forall|k: int| 0 <= k < j ==> #[trigger] out@[k] == m.entries()[k],
        decreases n - j,
    {
        out.push((m.key_at(j).clone(), m.value_at(j).clone()));
        j += 1;
    }
    out
}

/// Send each jump whose target label is directly followed by an
/// unconditional jump on towards that jump's target (chains of such labels
/// are followed for at most 16 rounds), then drop each unconditional jump
/// to the label on the next line of code.  The targets are those of some
/// forwarding that sends each such label to a label that its chain of
/// jumps reaches.
pub fn compact_cfg_layout(lines: Vec<String>) -> (r: Vec<String>)
    ensures
        exists|f: Map<Seq<char>, Seq<char>>| forward_ok(initial_forward(lines_view(lines@)), f)
            && lines_view(r@) == #[trigger] compacted(lines_view(lines@), f),
{
    let ghost v = lines_view(lines@);
    let mut rows: Vec<Vec<char>> = Vec::new();
    let mut i: usize = 0;
    while i < lines.len()
        invariant
            i <= lines@.len(),
            v == lines_view(lines@),
            rows@.len() == i,
            forall|k: int| 0 <= k < i ==> #[trigger] rows@[k]@ == v[k],
        decreases lines@.len() - i,
    {
        rows.push(chars_of(lines[i].as_str()));
        i += 1;
    }
    proof {
        assert(rows_view(rows@) =~= v);
    }
    // The line of each label.
    let mut labels: AssocMap<String, usize> = AssocMap::new();
    i = 0;
    while i < rows.len()
        invariant
            i <= rows@.len(),
            rows_view(rows@) == v,
            labels.wf(),
            labels@ == label_lines(v, i as int),
            forall|l: Seq<char>| #[trigger] labels@.contains_key(l) ==> labels@[l] < i,
        decreases rows@.len() - i,
    {
        proof {
            assert(v[i as int] == rows@[i as int]@);
        }
        match label_chars(&rows[i]) {
            Some(l) => {
                labels.insert(string_of(&l), i);
            },
            None => {},
        }
        i += 1;
    }
    // The labels that are directly followed by a jump, with its target.
    proof {
        labels.lemma_entries();
    }
    let nl = labels.len();
    let mut forward: AssocMap<String, String> = AssocMap::new();
    let mut e: usize = 0;
    while e < nl
        invariant
            e <= nl,
            nl == labels.entries().len(),
            labels.wf(),
            forward.wf(),
            rows_view(rows@) == v,
            labels@ == label_lines(v, v.len() as int),
            distinct_keys(labels.entries()),
            forall|i: int| 0 <= i < labels.entries().len() ==> labels@.contains_key(#[trigger] labels.entries()[i].0@)
                && labels@[labels.entries()[i].0@] == labels.entries()[i].1,
            forall|l: Seq<char>| #[trigger] labels@.contains_key(l) ==> labels@[l] < v.len(),
            forall|x: Seq<char>| #[trigger] forward@.contains_key(x) <==> (exists|k: int| 0 <= k < e && labels.entries()[k].0@ == x)
                && labels@.contains_key(x) && jmp_after(v, labels@[x] as int) is Some,
            forall|x: Seq<char>| #[trigger] forward@.contains_key(x) ==> jmp_after(v, labels@[x] as int) == Some(forward@[x]@),
        decreases nl - e,
    {
        let key = labels.key_at(e);
        let idx = *labels.value_at(e);
        let ghost before = forward@;
        let ghost ek = labels.entries()[e as int].0@;
        assert(labels@.contains_key(ek));
        match jmp_target_after(&rows, idx) {
            Some(t) => {
                forward.insert(key.clone(), string_of(&t));
            },
            None => {},
        }
        proof {
            assert forall|x: Seq<char>| #[trigger] forward@.contains_key(x) <==> (exists|k: int| 0 <= k < e + 1 && labels.entries()[k].0@ == x)
                && labels@.contains_key(x) && jmp_after(v, labels@[x] as int) is Some by {
                if x == ek {
                    assert(labels.entries()[e as int].0@ == x);
                } else {
                    if exists|k: int| 0 <= k < e + 1 && labels.entries()[k].0@ == x {
                        let k = choose|k: int| 0 <= k < e + 1 && labels.entries()[k].0@ == x;
                        assert(k < e);
                    }
                    assert(forward@.contains_key(x) == before.contains_key(x));
                }
            }
        }
        e += 1;
    }
    let ghost f0 = text_map(forward@);
    proof {
        assert forall|x: Seq<char>| #[trigger] labels@.contains_key(x) implies exists|k: int| 0 <= k < nl && labels.entries()[k].0@ == x by {
            labels.lemma_entries();
        }
        assert(f0 =~= initial_forward(v));
        assert forall|x: Seq<char>| #[trigger] f0.contains_key(x) implies forwards_to(f0, x, f0[x]) by {
            assert(chain(f0, f0[x], f0[x], 0));
            assert(chain(f0, x, f0[x], 1));
        }
    }
    // Follow chains of such labels.
    let mut round: usize = 0;
    let mut go = true;
    while go && round < 16
        invariant
            forward.wf(),
            forward_ok(f0, text_map(forward@)),
            round <= 16,
        decreases 16 - round,
    {
        proof {
            forward.lemma_entries();
        }
        let snap = snapshot(&forward);
        let mut ch = false;
        let mut t: usize = 0;
        while t < snap.len()
            invariant
                forward.wf(),
                forward_ok(f0, text_map(forward@)),
                t <= snap@.len(),
                forall|i: int, j: int| 0 <= i < j < snap@.len() ==> snap@[i].0@ != snap@[j].0@,
                forall|j: int| t <= j < snap@.len() ==> forward@.contains_key(#[trigger] snap@[j].0@)
                    && forward@[snap@[j].0@]@ == snap@[j].1@,
            decreases snap@.len() - t,
        {
            let src = &snap[t].0;
            let dst = &snap[t].1;
            match forward.get(dst) {
                Some(next) => {
                    if !(*next == *src) {
                        let nn = next.clone();
                        let ghost big_f = text_map(forward@);
                        proof {
                            assert(big_f.contains_key(src@) && big_f[src@] == dst@);
                            assert(big_f.contains_key(dst@) && big_f[dst@] == nn@);
                            lemma_forwards_trans(f0, src@, dst@, nn@);
                        }
                        forward.insert(src.clone(), nn);
                        proof {
                            assert(text_map(forward@) =~= big_f.insert(src@, nn@));
                            assert(text_map(forward@).dom() =~= f0.dom());
                        }
                        ch = true;
                    }
                },
                None => {},
            }
            t += 1;
        }
        go = ch;
        round += 1;
    }
    // Send each jump on.
    let ghost big_f = text_map(forward@);
    let mut out: Vec<Vec<char>> = Vec::new();
    i = 0;
    while i < rows.len()
        invariant
            i <= rows@.len(),
            rows_view(rows@) == v,
            forward.wf(),
            text_map(forward@) == big_f,
            out@.len() == i,
            forall|k: int| 0 <= k < i ==> #[trigger] out@[k]@ == forwarded_line(v[k], big_f),
        decreases rows@.len() - i,
    {
        let line = &rows[i];
        proof {
            assert(v[i as int] == line@);
        }
        let mut sent: Option<Vec<char>> = None;
        match parse_inst_chars(line) {
            Some(p) => {
                if is_jump_mnemonic(&p.0) {
                    let key = string_of(&trim_chars(&p.1));
                    match forward.get(&key) {
                        Some(tg) => {
                            let mut nl: Vec<char> = Vec::new();
                            nl.push('\t');
                            push_chars(&mut nl, &p.0);
                            nl.push(' ');
                            push_chars(&mut nl, &chars_of(tg.as_str()));
                            proof {
                                assert(nl@ =~= seq!['\t'] + p.0@ + seq![' '] + big_f[trim(p.1@)]);
                            }
                            sent = Some(nl);
                        },
                        None => {},
                    }
                }
            },
            None => {},
        }
        match sent {
            Some(nl) => {
                out.push(nl);
            },
            None => {
                let same = slice(line, 0, line.len());
                proof {
                    assert(same@ =~= line@);
                }
                out.push(same);
            },
        }
        i += 1;
    }
    // Drop jumps to the next line of code.
    let ghost w = rows_view(out@);
    proof {
        assert(w =~= v.map_values(|l: Seq<char>| forwarded_line(l, big_f)));
    }
    let mut res: Vec<String> = Vec::new();
    i = 0;
    while i < out.len()
        invariant
            i <= out@.len(),
            rows_view(out@) == w,
            lines_view(res@) == without_redundant(w, i as int),
        decreases out@.len() - i,
    {
        proof {
            assert(w[i as int] == out@[i as int]@);
        }
        let mut remove = false;
        match parse_inst_chars(&out[i]) {
            Some(p) => {
                if is_jmp(&p.0) {
                    match find_next_significant(&out, i + 1) {
                        Some(j) => {
                            proof {
                                assert(w[j as int] == out@[j as int]@);
                            }
                            let nt = trim_chars(&out[j]);
                            let n2 = nt.len();
                            if n2 > 0 && nt[n2 - 1] == ':' {
                                let lab = strip_colons_chars(&nt);
                                let opn = trim_chars(&p.1);
                                remove = chars_equal(&lab, &opn);
                            }
                        },
                        None => {},
                    }
                }
            },
            None => {},
        }
        proof {
            assert(remove == redundant_jmp(w, i as int));
        }
        if !remove {
            let s = string_of(&out[i]);
            proof {
                assert(lines_view(res@.push(s)) =~= lines_view(res@) + seq![w[i as int]]);
            }
            res.push(s);
        } else {
            proof {
                assert(without_redundant(w, i + 1) =~= without_redundant(w, i as int));
            }
        }
        i += 1;
    }
    proof {
        assert(compacted(v, big_f) == without_redundant(w, w.len() as int));
    }
    res
}

proof fn lemma_label_lines(lines: Seq<Seq<char>>, n: int, x: Seq<char>)
    requires
        n <= lines.len() <= usize::MAX,
        label_lines(lines, n).contains_key(x),
    ensures
        0 <= label_lines(lines, n)[x] < n,
        label_of(lines[label_lines(lines, n)[x] as int]) == Some(x),
    decreases n,
{
    if n > 0 {
        match label_of(lines[n - 1]) {
            Some(l) => {
                if l != x {
                    lemma_label_lines(lines, n - 1, x);
                }
            },
            None => {
                lemma_label_lines(lines, n - 1, x);
            },
        }
    }
}

proof fn lemma_next_significant(lines: Seq<Seq<char>>, idx: int)
    requires
        next_significant(lines, idx) is Some,
    ensures
        idx <= next_significant(lines, idx)->Some_0 < lines.len(),
    decreases lines.len() - idx,
{
    if 0 <= idx < lines.len() && !significant(lines[idx]) {
        lemma_next_significant(lines, idx + 1);
    }
}

/// Jumps are forwarded only through unconditional jumps: a label that the
/// clean-up forwards is defined on some line `i`, the first line of code
/// after it is `JMP` itself (no conditional jump), and the label is
/// forwarded to exactly that jump's operand.
pub proof fn law_forward_only_through_jmp(lines: Seq<Seq<char>>, x: Seq<char>)
    requires
        lines.len() <= usize::MAX,
        initial_forward(lines).contains_key(x),
    ensures
        exists|i: int, j: int| 0 <= i < j < lines.len() && #[trigger] label_of(lines[i]) == Some(x)
            && next_significant(lines, i + 1) == Some(j)
            && #[trigger] parse_inst(lines[j]) == Some((seq!['J', 'M', 'P'], initial_forward(lines)[x])),
{
    let labels = label_lines(lines, lines.len() as int);
    lemma_label_lines(lines, lines.len() as int, x);
    let i = labels[x] as int;
    lemma_next_significant(lines, i + 1);
    let j = next_significant(lines, i + 1)->Some_0;
    let p = parse_inst(lines[j])->Some_0;
    assert(p.0 == jmp_word());
    assert(seq!['J', 'M', 'P'] =~= jmp_word());
    assert(parse_inst(lines[j]) == Some((p.0, p.1)));
}

} // verus!
