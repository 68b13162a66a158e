//! The listing of an assembly text: each line parsed into an optional
//! label and statement, laid out in two passes (label addresses first),
//! with the address and bytes of every line.

use vstd::prelude::*;

use crate::emit::chars::{
    is_ws, is_whitespace, parse_unsigned, parse_unsigned_chars, slice, trim, trim_chars, trim_end, trim_end_chars,
    trim_start, trim_start_chars, upper_chars, upper_seq, chars_equal,
};
use crate::emit::encode::{encode_8080_instruction, encoding, hi, lo};
use crate::emit::expr::{eval_expr, expr_value, lemma_expr_range};
use crate::maps::AssocMap;
use crate::opt::memory::chars_of;
use crate::text::{concat2, concat3, decimal, string_of, u64_decimal};

verus! {

/// The fields of `s` between commas, given the field in progress.
pub open spec fn split_acc(s: Seq<char>, cur: Seq<char>) -> Seq<Seq<char>>
    decreases s.len(),
{
    if s.len() == 0 {
        seq![cur]
    } else if s[0] == ',' {
        seq![cur] + split_acc(s.drop_first(), Seq::empty())
    } else {
        split_acc(s.drop_first(), cur.push(s[0]))
    }
}

/// The trimmed fields that are not empty.
pub open spec fn nonempty_trimmed(fs: Seq<Seq<char>>) -> Seq<Seq<char>>
    decreases fs.len(),
{
    if fs.len() == 0 {
        Seq::empty()
    } else {
        let r = nonempty_trimmed(fs.drop_last());
        let t = trim(fs.last());
        if t.len() > 0 { r.push(t) } else { r }
    }
}

/// The operands of a statement: the trimmed, non-empty comma-separated
/// fields.
pub open spec fn args_of(s: Seq<char>) -> Seq<Seq<char>> {
    if s.len() == 0 { Seq::empty() } else { nonempty_trimmed(split_acc(s, Seq::empty())) }
}

proof fn lemma_nonempty_concat(a: Seq<Seq<char>>, b: Seq<Seq<char>>)
    ensures
        nonempty_trimmed(a + b) == nonempty_trimmed(a) + nonempty_trimmed(b),
    decreases b.len(),
{
    if b.len() == 0 {
        assert(a + b =~= a);
        assert(nonempty_trimmed(a) + nonempty_trimmed(b) =~= nonempty_trimmed(a));
    } else {
        lemma_nonempty_concat(a, b.drop_last());
        assert((a + b).drop_last() =~= a + b.drop_last());
        assert((a + b).last() == b.last());
        let t = trim(b.last());
        if t.len() > 0 {
            assert(nonempty_trimmed(a) + nonempty_trimmed(b.drop_last()).push(t)
                =~= (nonempty_trimmed(a) + nonempty_trimmed(b.drop_last())).push(t));
        }
    }
}

proof fn lemma_split_step(s: Seq<char>, i: int, cur: Seq<char>)
    requires
        0 <= i < s.len(),
    ensures
        s[i] == ',' ==> split_acc(s.subrange(i, s.len() as int), cur)
            == seq![cur] + split_acc(s.subrange(i + 1, s.len() as int), Seq::empty()),
        s[i] != ',' ==> split_acc(s.subrange(i, s.len() as int), cur)
            == split_acc(s.subrange(i + 1, s.len() as int), cur.push(s[i])),
{
    assert(s.subrange(i, s.len() as int).drop_first() =~= s.subrange(i + 1, s.len() as int));
}

fn push_field(out: &mut Vec<String>, cur: &Vec<char>)
    ensures
        final(out)@.map_values(|x: String| x@) == old(out)@.map_values(|x: String| x@) + nonempty_trimmed(seq![cur@]),
{
    let t = trim_chars(cur);
    let ghost one = seq![cur@];
    proof {
        assert(one.drop_last() =~= Seq::<Seq<char>>::empty());
        assert(one.last() == cur@);
        assert(nonempty_trimmed(one.drop_last()) =~= Seq::<Seq<char>>::empty());
    }
    if t.len() > 0 {
        out.push(string_of(&t));
        assert(nonempty_trimmed(one) =~= seq![t@]);
        assert(out@.map_values(|x: String| x@) =~= old(out)@.map_values(|x: String| x@) + seq![t@]);
    } else {
        assert(nonempty_trimmed(one) =~= Seq::<Seq<char>>::empty());
        assert(out@.map_values(|x: String| x@) =~= old(out)@.map_values(|x: String| x@) + Seq::<Seq<char>>::empty());
    }
}

/// The operands of a statement (`split_args`).
pub fn split_args(s: &Vec<char>) -> (r: Vec<String>)
    ensures
        r@.map_values(|x: String| x@) == args_of(s@),
{
    let mut out: Vec<String> = Vec::new();
    if s.len() == 0 {
        assert(out@.map_values(|x: String| x@) =~= Seq::<Seq<char>>::empty());
        return out;
    }
    let mut cur: Vec<char> = Vec::new();
    let ghost mut done: Seq<Seq<char>> = Seq::empty();
    let mut i: usize = 0;
    assert(s@.subrange(0, s@.len() as int) =~= s@);
    while i < s.len()
        invariant
            i <= s@.len(),
            split_acc(s@, Seq::empty()) == done + split_acc(s@.subrange(i as int, s@.len() as int), cur@),
            out@.map_values(|x: String| x@) == nonempty_trimmed(done),
        decreases s@.len() - i,
    {
        proof {
            lemma_split_step(s@, i as int, cur@);
        }
        if s[i] == ',' {
            let ghost old_done = done;
            proof {
                lemma_nonempty_concat(old_done, seq![cur@]);
                done = old_done + seq![cur@];
                assert(split_acc(s@, Seq::empty()) =~= done + split_acc(s@.subrange(i + 1, s@.len() as int), Seq::empty()));
            }
            push_field(&mut out, &cur);
            cur = Vec::new();
        } else {
            cur.push(s[i]);
        }
        i += 1;
    }
    proof {
        assert(s@.subrange(i as int, s@.len() as int) =~= Seq::<char>::empty());
        lemma_nonempty_concat(done, seq![cur@]);
    }
    push_field(&mut out, &cur);
    out
}

/// The character may start an identifier.
pub open spec fn ident_start(c: char) -> bool {
    c == '_' || c == '.' || ('a' <= c && c <= 'z') || ('A' <= c && c <= 'Z')
}

/// The character may continue an identifier.
pub open spec fn ident_char(c: char) -> bool {
    ident_start(c) || ('0' <= c && c <= '9')
}

/// `s` is an identifier: a letter, `_` or `.`, then letters, digits, `_`
/// or `.`.
pub open spec fn spec_is_identifier(s: Seq<char>) -> bool {
    s.len() > 0 && ident_start(s[0]) && forall|i: int| 1 <= i < s.len() ==> ident_char(#[trigger] s[i])
}

/// Whether a string is an identifier (`is_identifier`).
pub fn is_identifier(s: &Vec<char>) -> (r: bool)
    ensures
        r == spec_is_identifier(s@),
{
    if s.len() == 0 {
        return false;
    }
    let c = s[0];
    if !(c == '_' || c == '.' || ('a' <= c && c <= 'z') || ('A' <= c && c <= 'Z')) {
        return false;
    }
    let mut i: usize = 1;
    while i < s.len()
        invariant
            1 <= i <= s@.len(),
            forall|k: int| 1 <= k < i ==> ident_char(#[trigger] s@[k]),
        decreases s@.len() - i,
    {
        let d = s[i];
        if !(d == '_' || d == '.' || ('a' <= d && d <= 'z') || ('A' <= d && d <= 'Z') || ('0' <= d && d <= '9')) {
            assert(!ident_char(s@[i as int]));
            return false;
        }
        i += 1;
    }
    true
}

/// A statement of the assembly text.
pub enum ListingStmt {
    Org(u16),
    Db(Vec<String>),
    Dw(Vec<String>),
    Ds(usize),
    Inst { op: String, args: Vec<String> },
}

/// A statement in terms of character sequences.
pub enum StmtView {
    Org(u16),
    Db(Seq<Seq<char>>),
    Dw(Seq<Seq<char>>),
    Ds(nat),
    Inst(Seq<char>, Seq<Seq<char>>),
}

impl View for ListingStmt {
    type V = StmtView;

    open spec fn view(&self) -> StmtView {
        match self {
            ListingStmt::Org(v) => StmtView::Org(*v),
            ListingStmt::Db(vs) => StmtView::Db(vs@.map_values(|x: String| x@)),
            ListingStmt::Dw(vs) => StmtView::Dw(vs@.map_values(|x: String| x@)),
            ListingStmt::Ds(n) => StmtView::Ds(*n as nat),
            ListingStmt::Inst { op, args } => StmtView::Inst(op@, args@.map_values(|x: String| x@)),
        }
    }
}

/// The low byte of each value (0 for one without a value).
pub open spec fn db_bytes(vals: Seq<Seq<char>>, labels: Map<Seq<char>, u16>, pc: u16) -> Seq<u8>
    decreases vals.len(),
{
    if vals.len() == 0 {
        Seq::empty()
    } else {
        let v = match expr_value(vals.last(), labels, pc) { Some(x) => x, None => 0 };
        db_bytes(vals.drop_last(), labels, pc).push(lo(v))
    }
}

/// Each value as two bytes, low first (0 for one without a value).
pub open spec fn dw_bytes(vals: Seq<Seq<char>>, labels: Map<Seq<char>, u16>, pc: u16) -> Seq<u8>
    decreases vals.len(),
{
    if vals.len() == 0 {
        Seq::empty()
    } else {
        let v = match expr_value(vals.last(), labels, pc) { Some(x) => x, None => 0 };
        dw_bytes(vals.drop_last(), labels, pc).push(lo(v)).push(hi(v))
    }
}

/// The bytes a statement assembles to at address `pc`.
pub open spec fn stmt_bytes(s: StmtView, labels: Map<Seq<char>, u16>, pc: u16) -> Seq<u8> {
    match s {
        StmtView::Org(_) => Seq::empty(),
        StmtView::Db(vals) => db_bytes(vals, labels, pc),
        StmtView::Dw(vals) => dw_bytes(vals, labels, pc),
        StmtView::Ds(n) => Seq::new(n, |i: int| 0u8),
        StmtView::Inst(op, args) => encoding(op, args, labels, pc),
    }
}

fn value_at(vals: &Vec<String>, k: usize, labels: &AssocMap<String, u16>, pc: u16) -> (r: u16)
    requires
        labels.wf(),
        k < vals@.len(),
    ensures
        r as int == (match expr_value(vals@[k as int]@, labels@, pc) { Some(x) => x, None => 0 }),
{
    proof {
        lemma_expr_range(vals@[k as int]@, labels@, pc);
    }
    match eval_expr(vals[k].as_str(), labels, pc) {
        Some(v) => v,
        None => 0,
    }
}

impl ListingStmt {
    /// The bytes of the statement at address `pc` (`encode`).
    pub fn encode(&self, labels: &AssocMap<String, u16>, pc: u16) -> (r: Vec<u8>)
        requires
            labels.wf(),
        ensures
            r@ == stmt_bytes(self@, labels@, pc),
    {
        match self {
            ListingStmt::Org(_) => Vec::new(),
            ListingStmt::Db(vals) => {
                let mut out: Vec<u8> = Vec::new();
                let ghost vs = vals@.map_values(|x: String| x@);
                let mut k: usize = 0;
                while k < vals.len()
                    invariant
                        k <= vals@.len(),
                        labels.wf(),
                        vs == vals@.map_values(|x: String| x@),
                        out@ == db_bytes(vs.subrange(0, k as int), labels@, pc),
                    decreases vals@.len() - k,
                {
                    let v = value_at(vals, k, labels, pc);
                    assert((v & 0xFF) == v % 256) by (bit_vector);
                    out.push((v & 0xFF) as u8);
                    proof {
                        assert(vs.subrange(0, k + 1).drop_last() =~= vs.subrange(0, k as int));
                    }
                    k += 1;
                }
                assert(vs.subrange(0, vals@.len() as int) =~= vs);
                out
            },
            ListingStmt::Dw(vals) => {
                let mut out: Vec<u8> = Vec::new();
                let ghost vs = vals@.map_values(|x: String| x@);
                let mut k: usize = 0;
                while k < vals.len()
                    invariant
                        k <= vals@.len(),
                        labels.wf(),
                        vs == vals@.map_values(|x: String| x@),
                        out@ == dw_bytes(vs.subrange(0, k as int), labels@, pc),
                    decreases vals@.len() - k,
                {
                    let v = value_at(vals, k, labels, pc);
                    assert((v & 0xFF) == v % 256) by (bit_vector);
                    assert((v >> 8) == (v / 256) % 256) by (bit_vector);
                    out.push((v & 0xFF) as u8);
                    out.push((v >> 8) as u8);
                    proof {
                        assert(vs.subrange(0, k + 1).drop_last() =~= vs.subrange(0, k as int));
                    }
                    k += 1;
                }
                assert(vs.subrange(0, vals@.len() as int) =~= vs);
                out
            },
            ListingStmt::Ds(n) => {
                let mut out: Vec<u8> = Vec::new();
                let mut k: usize = 0;
                while k < *n
                    invariant
                        k <= *n,
                        out@ == Seq::new(k as nat, |i: int| 0u8),
                    decreases *n - k,
                {
                    out.push(0);
                    k += 1;
                    assert(out@ =~= Seq::new(k as nat, |i: int| 0u8));
                }
                out
            },
            ListingStmt::Inst { op, args } => encode_8080_instruction(op.as_str(), args, labels, pc),
        }
    }

    /// The number of bytes of the statement (`size`), taken at address 0.
    pub fn size(&self, labels: &AssocMap<String, u16>) -> (r: usize)
        requires
            labels.wf(),
        ensures
            r == stmt_bytes(self@, labels@, 0).len(),
    {
        self.encode(labels, 0).len()
    }
}

/// A line of the assembly text, parsed.
pub struct ParsedListingLine {
    pub label: Option<String>,
    pub stmt: Option<ListingStmt>,
}

/// The position of the first occurrence of `c` in `s`, or its length.
pub open spec fn first_index(s: Seq<char>, c: char) -> int
    decreases s.len(),
{
    if s.len() == 0 {
        0
    } else if s[0] == c {
        0
    } else {
        1 + first_index(s.drop_first(), c)
    }
}

/// The position of the first white-space character of `s`, or its length.
pub open spec fn first_ws(s: Seq<char>) -> int
    decreases s.len(),
{
    if s.len() == 0 {
        0
    } else if is_ws(s[0]) {
        0
    } else {
        1 + first_ws(s.drop_first())
    }
}

proof fn lemma_first_index(s: Seq<char>, c: char)
    ensures
        0 <= first_index(s, c) <= s.len(),
        forall|k: int| 0 <= k < first_index(s, c) ==> s[k] != c,
        first_index(s, c) < s.len() ==> s[first_index(s, c)] == c,
    decreases s.len(),
{
    if s.len() > 0 && s[0] != c {
        lemma_first_index(s.drop_first(), c);
        assert forall|k: int| 0 <= k < first_index(s, c) implies s[k] != c by {
            if k > 0 {
                assert(s.drop_first()[k - 1] == s[k]);
            }
        }
    }
}

proof fn lemma_first_ws(s: Seq<char>)
    ensures
        0 <= first_ws(s) <= s.len(),
        forall|k: int| 0 <= k < first_ws(s) ==> !is_ws(s[k]),
        first_ws(s) < s.len() ==> is_ws(s[first_ws(s)]),
    decreases s.len(),
{
    if s.len() > 0 && !is_ws(s[0]) {
        lemma_first_ws(s.drop_first());
        assert forall|k: int| 0 <= k < first_ws(s) implies !is_ws(s[k]) by {
            if k > 0 {
                assert(s.drop_first()[k - 1] == s[k]);
            }
        }
    }
}

fn find_char(s: &Vec<char>, c: char) -> (r: usize)
    ensures
        r as int == first_index(s@, c),
        r <= s@.len(),
{
    proof {
        lemma_first_index(s@, c);
    }
    let mut i: usize = 0;
    while i < s.len() && s[i] != c
        invariant
            i <= s@.len(),
            forall|k: int| 0 <= k < i ==> s@[k] != c,
            0 <= first_index(s@, c) <= s@.len(),
            forall|k: int| 0 <= k < first_index(s@, c) ==> s@[k] != c,
            first_index(s@, c) < s@.len() ==> s@[first_index(s@, c)] == c,
        decreases s@.len() - i,
    {
        i += 1;
    }
    i
}

/// The position of the first white-space character of `s`, or its length.
pub fn find_ws(s: &Vec<char>) -> (r: usize)
    ensures
        r as int == first_ws(s@),
        r <= s@.len(),
{
    proof {
        lemma_first_ws(s@);
    }
    let mut i: usize = 0;
    while i < s.len() && !is_whitespace(s[i])
        invariant
            i <= s@.len(),
            forall|k: int| 0 <= k < i ==> !is_ws(s@[k]),
            0 <= first_ws(s@) <= s@.len(),
            forall|k: int| 0 <= k < first_ws(s@) ==> !is_ws(s@[k]),
            first_ws(s@) < s@.len() ==> is_ws(s@[first_ws(s@)]),
        decreases s@.len() - i,
    {
        i += 1;
    }
    i
}

/// The code of a line: the text before any `;`, trimmed.
pub open spec fn line_code(line: Seq<char>) -> Seq<char> {
    trim(line.subrange(0, first_index(line, ';')))
}

/// The label of a line: the trimmed identifier before the first `:` of
/// its code, if there is one.
pub open spec fn line_label(line: Seq<char>) -> Option<Seq<char>> {
    let code = line_code(line);
    let colon = first_index(code, ':');
    let cand = trim(code.subrange(0, colon));
    if code.len() > 0 && colon < code.len() && cand.len() > 0 && spec_is_identifier(cand) {
        Some(cand)
    } else {
        None
    }
}

/// The code of a line after its label.
pub open spec fn line_body(line: Seq<char>) -> Seq<char> {
    let code = line_code(line);
    if line_label(line) is Some {
        trim(code.subrange(first_index(code, ':') + 1, code.len() as int))
    } else {
        code
    }
}

/// The mnemonic of a statement, in upper case.
pub open spec fn line_op(line: Seq<char>) -> Seq<char> {
    let b = line_body(line);
    upper_seq(b.subrange(0, first_ws(b)))
}

/// The operand text of a statement.
pub open spec fn line_rest(line: Seq<char>) -> Seq<char> {
    let b = line_body(line);
    let w = first_ws(b);
    if w < b.len() { trim(b.subrange(w + 1, b.len() as int)) } else { Seq::empty() }
}

/// The value of the first operand evaluated without labels at address 0,
/// 0 when absent or without a value.
pub open spec fn first_arg_value(args: Seq<Seq<char>>) -> int {
    if args.len() > 0 {
        match expr_value(args[0], Map::empty(), 0) {
            Some(v) => v,
            None => 0,
        }
    } else {
        0
    }
}

/// The statement of a line, if any.
pub open spec fn line_stmt(line: Seq<char>) -> Option<StmtView> {
    let op = line_op(line);
    let args = args_of(line_rest(line));
    if line_body(line).len() == 0 {
        None
    } else if op == seq!['.', 'O', 'R', 'G'] || op == seq!['O', 'R', 'G'] {
        Some(StmtView::Org(first_arg_value(args) as u16))
    } else if op == seq!['D', 'B'] {
        Some(StmtView::Db(args))
    } else if op == seq!['D', 'W'] {
        Some(StmtView::Dw(args))
    } else if op == seq!['D', 'S'] || op == seq!['.', 'S', 'T', 'O', 'R', 'A', 'G', 'E'] {
        Some(StmtView::Ds((first_arg_value(args) as u16) as nat))
    } else {
        Some(StmtView::Inst(op, args))
    }
}

fn first_arg_u16(args: &Vec<String>) -> (r: u16)
    ensures
        r as int == first_arg_value(args@.map_values(|x: String| x@)),
{
    let empty: AssocMap<String, u16> = AssocMap::new();
    if args.len() > 0 {
        proof {
            lemma_expr_range(args@[0]@, Map::empty(), 0);
            assert(empty@ == Map::<Seq<char>, u16>::empty());
        }
        match eval_expr(args[0].as_str(), &empty, 0) {
            Some(v) => v,
            None => 0,
        }
    } else {
        0
    }
}

fn lit_eq(s: &Vec<char>, w: &Vec<char>) -> (r: bool)
    ensures
        r == (s@ == w@),
{
    chars_equal(s, w)
}

/// Parse a line of the assembly text (`parse_listing_line`): a comment
/// after `;` is dropped, a leading identifier followed by `:` is the label,
/// and the rest is a directive (`ORG`, `DB`, `DW`, `DS`) or an instruction
/// with comma-separated operands.
pub fn parse_listing_line(line: &str) -> (r: ParsedListingLine)
    ensures
        r.label matches Some(l) ==> line_label(line@) == Some(l@),
        r.label is None ==> line_label(line@) is None,
        r.stmt matches Some(s) ==> line_stmt(line@) == Some(s@),
        r.stmt is None ==> line_stmt(line@) is None,
{
    let cs = chars_of(line);
    let semi = find_char(&cs, ';');
    let raw = slice(&cs, 0, semi);
    let code = trim_chars(&raw);
    assert(code@ == line_code(line@));
    if code.len() == 0 {
        return ParsedListingLine { label: None, stmt: None };
    }
    let colon = find_char(&code, ':');
    let mut label: Option<String> = None;
    let mut body = code;
    if colon < body.len() {
        let cand_raw = slice(&body, 0, colon);
        let cand = trim_chars(&cand_raw);
        if cand.len() > 0 && is_identifier(&cand) {
            label = Some(string_of(&cand));
            let after = slice(&body, colon + 1, body.len());
            body = trim_chars(&after);
        }
    }
    assert(body@ == line_body(line@));
    if body.len() == 0 {
        return ParsedListingLine { label, stmt: None };
    }
    let w = find_ws(&body);
    let op_raw = slice(&body, 0, w);
    let op = upper_chars(&op_raw);
    let rest = if w < body.len() {
        let r = slice(&body, w + 1, body.len());
        trim_chars(&r)
    } else {
        Vec::new()
    };
    assert(rest@ == line_rest(line@));
    let args = split_args(&rest);
    let stmt = if lit_eq(&op, &vec!['.', 'O', 'R', 'G']) || lit_eq(&op, &vec!['O', 'R', 'G']) {
        ListingStmt::Org(first_arg_u16(&args))
    } else if lit_eq(&op, &vec!['D', 'B']) {
        ListingStmt::Db(args)
    } else if lit_eq(&op, &vec!['D', 'W']) {
        ListingStmt::Dw(args)
    } else if lit_eq(&op, &vec!['D', 'S']) || lit_eq(&op, &vec!['.', 'S', 'T', 'O', 'R', 'A', 'G', 'E']) {
        let n = first_arg_u16(&args);
        ListingStmt::Ds(n as usize)
    } else {
        ListingStmt::Inst { op: string_of(&op), args }
    };
    ParsedListingLine { label, stmt: Some(stmt) }
}


/// An upper-case hexadecimal digit.
pub open spec fn hex_digit(d: int) -> char {
    if d < 10 { ((d + 48) as u32) as char } else { ((d + 55) as u32) as char }
}

/// A byte as two hexadecimal digits.
pub open spec fn hex2(b: u8) -> Seq<char> {
    seq![hex_digit(b as int / 16), hex_digit(b as int % 16)]
}

/// Bytes in hexadecimal, separated by spaces.
pub open spec fn hex_join(bytes: Seq<u8>) -> Seq<char>
    decreases bytes.len(),
{
    if bytes.len() == 0 {
        Seq::empty()
    } else if bytes.len() == 1 {
        hex2(bytes[0])
    } else {
        hex_join(bytes.drop_last()) + seq![' '] + hex2(bytes.last())
    }
}

/// The bytes column of a listing row: up to eight bytes in hexadecimal,
/// and the count of the others.
pub open spec fn bytes_column(bytes: Seq<u8>) -> Seq<char> {
    if bytes.len() <= 8 {
        hex_join(bytes)
    } else {
        hex_join(bytes.subrange(0, 8)) + seq![' ', '.', '.', '.', ' ', '(', '+'] + decimal((bytes.len() - 8) as nat)
            + seq![' ', 'b', 'y', 't', 'e', 's', ')']
    }
}

fn hex_digit_of(d: u8) -> (r: char)
    requires
        d < 16,
    ensures
        r == hex_digit(d as int),
{
    if d < 10 { (d + 48) as char } else { (d + 55) as char }
}

/// Append the characters of `s`.
pub fn push_chars(out: &mut Vec<char>, s: &Vec<char>)
    ensures
        final(out)@ == old(out)@ + s@,
{
    let mut i: usize = 0;
    while i < s.len()
        invariant
            i <= s@.len(),
            out@ == old(out)@ + s@.subrange(0, i as int),
        decreases s@.len() - i,
    {
        out.push(s[i]);
        i += 1;
    }
    assert(s@.subrange(0, s@.len() as int) =~= s@);
}

/// The bytes column of a listing row (`format_bytes_column`).
pub fn format_bytes_column(bytes: &Vec<u8>) -> (r: String)
    ensures
        r@ == bytes_column(bytes@),
{
    let shown: usize = if bytes.len() <= 8 { bytes.len() } else { 8 };
    let mut out: Vec<char> = Vec::new();
    let mut i: usize = 0;
    while i < shown
        invariant
            i <= shown,
            shown <= bytes@.len(),
            out@ == hex_join(bytes@.subrange(0, i as int)),
        decreases shown - i,
    {
        proof {
            let t = bytes@.subrange(0, i + 1);
            assert(t.drop_last() =~= bytes@.subrange(0, i as int));
        }
        if i > 0 {
            out.push(' ');
        }
        out.push(hex_digit_of(bytes[i] / 16));
        out.push(hex_digit_of(bytes[i] % 16));
        proof {
            let t = bytes@.subrange(0, i + 1);
            if i == 0 {
                assert(out@ =~= hex2(bytes@[0]));
            } else {
                assert(out@ =~= hex_join(t.drop_last()) + seq![' '] + hex2(t.last()));
            }
        }
        i += 1;
    }
    if bytes.len() > 8 {
        proof {
            reveal_strlit(" ... (+");
            reveal_strlit(" bytes)");
        }
        let n = u64_decimal((bytes.len() - 8) as u64);
        push_chars(&mut out, &chars_of(" ... (+"));
        push_chars(&mut out, &chars_of(n.as_str()));
        push_chars(&mut out, &chars_of(" bytes)"));
        assert(" ... (+"@ == seq![' ', '.', '.', '.', ' ', '(', '+']);
        assert(" bytes)"@ == seq![' ', 'b', 'y', 't', 'e', 's', ')']);
    } else {
        assert(bytes@.subrange(0, bytes@.len() as int) =~= bytes@);
    }
    string_of(&out)
}

/// The marker the code generator puts before the code of a source line.
pub open spec fn c_line_marker() -> Seq<char> {
    seq![';', ' ', 'C', '_', 'L', 'I', 'N', 'E', ' ']
}

/// The text of a listing row: a `; C_LINE n` marker becomes `; n` and the
/// text of source line `n` (when there is one), other lines stay as they
/// are.
pub open spec fn row_text(line: Seq<char>, source: Option<Seq<Seq<char>>>) -> Seq<char> {
    let t = trim_start(line);
    let m = c_line_marker();
    if m.is_prefix_of(t) {
        match parse_unsigned(trim(t.subrange(m.len() as int, t.len() as int)), 10, usize::MAX as int) {
            Some(n) => {
                let idx = if n >= 1 { n - 1 } else { 0 };
                match source {
                    Some(v) => if idx < v.len() {
                        seq![';', ' '] + decimal(n as nat) + seq![' '] + trim_end(v[idx])
                    } else {
                        seq![';', ' '] + decimal(n as nat)
                    },
                    None => seq![';', ' '] + decimal(n as nat),
                }
            },
            None => line,
        }
    } else {
        line
    }
}

fn has_prefix(s: &Vec<char>, p: &Vec<char>) -> (r: bool)
    ensures
        r == p@.is_prefix_of(s@),
{
    if p.len() > s.len() {
        return false;
    }
    let mut i: usize = 0;
    while i < p.len()
        invariant
            p@.len() <= s@.len(),
            i <= p@.len(),
            forall|k: int| 0 <= k < i ==> p@[k] == s@[k],
        decreases p@.len() - i,
    {
        if p[i] != s[i] {
            return false;
        }
        i += 1;
    }
    true
}

/// The text of a listing row (`map_c_source_marker`).
pub fn map_c_source_marker(line: &Vec<char>, source: Option<&Vec<String>>) -> (r: String)
    ensures
        r@ == row_text(line@, source_view(source)),
{
    let t = trim_start_chars(line);
    let m: Vec<char> = vec![';', ' ', 'C', '_', 'L', 'I', 'N', 'E', ' '];
    assert(m@ == c_line_marker());
    if has_prefix(&t, &m) {
        let rest_raw = slice(&t, m.len(), t.len());
        let rest = trim_chars(&rest_raw);
        match parse_unsigned_chars(&rest, 10, usize::MAX as u64) {
            Some(n64) => {
                proof {
                    crate::emit::chars::lemma_parse_unsigned_range(rest@, 10, usize::MAX as int);
                }
                let n: usize = n64 as usize;
                let idx: usize = if n >= 1 { n - 1 } else { 0 };
                let mut out: Vec<char> = vec![';', ' '];
                let num = u64_decimal(n64);
                push_chars(&mut out, &chars_of(num.as_str()));
                match source {
                    Some(v) => {
                        if idx < v.len() {
                            out.push(' ');
                            let src = chars_of(v[idx].as_str());
                            let src_t = trim_end_chars(&src);
                            push_chars(&mut out, &src_t);
                        }
                    },
                    None => {},
                }
                return string_of(&out);
            },
            None => {},
        }
    }
    string_of(line)
}

/// A row of the listing: the address (for a line with a statement or a
/// label), the bytes, and the text.
pub struct ListingRow {
    pub address: Option<u16>,
    pub bytes: Vec<u8>,
    pub text: String,
}

/// The labels and address after the first `k` lines in the first pass.
pub open spec fn layout(lines: Seq<Seq<char>>, k: int) -> (Map<Seq<char>, u16>, u16)
    decreases k,
{
    if k <= 0 {
        (Map::empty(), 0)
    } else {
        let prev = layout(lines, k - 1);
        let line = lines[k - 1];
        let labels = match line_label(line) {
            Some(l) => prev.0.insert(l, prev.1),
            None => prev.0,
        };
        let pc = match line_stmt(line) {
            Some(StmtView::Org(v)) => v,
            Some(s) => ((prev.1 + stmt_bytes(s, labels, 0).len()) % 65536) as u16,
            None => prev.1,
        };
        (labels, pc)
    }
}

/// The address after a line that starts at `pc`, in the second pass.
pub open spec fn next_pc(line: Seq<char>, labels: Map<Seq<char>, u16>, pc: u16) -> u16 {
    match line_stmt(line) {
        Some(StmtView::Org(v)) => v,
        Some(s) => ((pc + stmt_bytes(s, labels, pc).len()) % 65536) as u16,
        None => pc,
    }
}

/// The address shown for a line that starts at `pc`.
pub open spec fn line_address(line: Seq<char>, pc: u16) -> Option<u16> {
    match line_stmt(line) {
        Some(StmtView::Org(v)) => Some(v),
        Some(_) => Some(pc),
        None => if line_label(line) is Some { Some(pc) } else { None },
    }
}

/// The bytes shown for a line that starts at `pc`.
pub open spec fn line_bytes(line: Seq<char>, labels: Map<Seq<char>, u16>, pc: u16) -> Seq<u8> {
    match line_stmt(line) {
        Some(StmtView::Org(_)) => Seq::empty(),
        Some(s) => stmt_bytes(s, labels, pc),
        None => Seq::empty(),
    }
}

/// The address before line `k` in the second pass, with the final labels.
pub open spec fn row_pc(lines: Seq<Seq<char>>, labels: Map<Seq<char>, u16>, k: int) -> u16
    decreases k,
{
    if k <= 0 {
        0
    } else {
        next_pc(lines[k - 1], labels, row_pc(lines, labels, k - 1))
    }
}

/// The address shown on row `k`.
pub open spec fn row_address(lines: Seq<Seq<char>>, labels: Map<Seq<char>, u16>, k: int) -> Option<u16> {
    line_address(lines[k], row_pc(lines, labels, k))
}

/// The bytes shown on row `k`.
pub open spec fn row_bytes(lines: Seq<Seq<char>>, labels: Map<Seq<char>, u16>, k: int) -> Seq<u8> {
    line_bytes(lines[k], labels, row_pc(lines, labels, k))
}

/// The source lines as character sequences.
pub open spec fn source_view(source: Option<&Vec<String>>) -> Option<Seq<Seq<char>>> {
    match source {
        Some(v) => Some(v@.map_values(|x: String| x@)),
        None => None,
    }
}

fn listing_row(line: &String, labels: &AssocMap<String, u16>, pc: u16, source: Option<&Vec<String>>) -> (r: (ListingRow, u16))
    requires
        labels.wf(),
    ensures
        r.0.address == line_address(line@, pc),
        r.0.bytes@ == line_bytes(line@, labels@, pc),
        r.0.text@ == row_text(trim_end(line@), source_view(source)),
        r.1 == next_pc(line@, labels@, pc),
{
    let parsed = parse_listing_line(line.as_str());
    let lc = chars_of(line.as_str());
    let lt = trim_end_chars(&lc);
    let text = map_c_source_marker(&lt, source);
    let mut address: Option<u16> = None;
    let mut bytes: Vec<u8> = Vec::new();
    let mut next: u16 = pc;
    match parsed.stmt {
        Some(stmt) => {
            match stmt {
                ListingStmt::Org(v) => {
                    next = v;
                    address = Some(v);
                },
                _ => {
                    address = Some(pc);
                    bytes = stmt.encode(labels, pc);
                    next = pc.wrapping_add((bytes.len() % 65536) as u16);
                    proof {
                        let n = bytes@.len() as int;
                        vstd::arithmetic::div_mod::lemma_add_mod_noop(pc as int, n, 65536);
                        assert((n % 65536) % 65536 == n % 65536) by {
                            vstd::arithmetic::div_mod::lemma_mod_twice(n, 65536);
                        }
                    }
                },
            }
        },
        None => {
            if parsed.label.is_some() {
                address = Some(pc);
            }
        },
    }
    (ListingRow { address, bytes, text }, next)
}

/// The rows of the listing of an assembly text (`build_listing_rows`):
/// label addresses are resolved in a first pass, then every line gets its
/// address, bytes and text.
pub fn build_listing_rows(lines: &Vec<String>, source: Option<&Vec<String>>) -> (r: Vec<ListingRow>)
    ensures
        r@.len() == lines@.len(),
        forall|k: int| 0 <= k < r@.len() ==> {
            let ls = lines@.map_values(|x: String| x@);
            let labels = layout(ls, ls.len() as int).0;
            &&& (#[trigger] r@[k]).address == row_address(ls, labels, k)
            &&& r@[k].bytes@ == row_bytes(ls, labels, k)
            &&& r@[k].text@ == row_text(trim_end(ls[k]), source_view(source))
        },
{
    let ghost ls = lines@.map_values(|x: String| x@);
    let mut labels: AssocMap<String, u16> = AssocMap::new();
    let mut pc: u16 = 0;
    let mut i: usize = 0;
    while i < lines.len()
        invariant
            i <= lines@.len(),
            ls == lines@.map_values(|x: String| x@),
            labels.wf(),
            labels@ == layout(ls, i as int).0,
            pc == layout(ls, i as int).1,
        decreases lines@.len() - i,
    {
        let parsed = parse_listing_line(lines[i].as_str());
        assert(ls[i as int] == lines@[i as int]@);
        match parsed.label {
            Some(l) => {
                labels.insert(l, pc);
            },
            None => {},
        }
        match parsed.stmt {
            Some(stmt) => {
                let size = stmt.size(&labels);
                pc = pc.wrapping_add((size % 65536) as u16);
                match stmt {
                    ListingStmt::Org(v) => {
                        pc = v;
                    },
                    _ => {},
                }
            },
            None => {},
        }
        i += 1;
    }
    let ghost fl = labels@;
    let mut rows: Vec<ListingRow> = Vec::new();
    pc = 0;
    i = 0;
    while i < lines.len()
        invariant
            i <= lines@.len(),
            ls == lines@.map_values(|x: String| x@),
            labels.wf(),
            labels@ == fl,
            fl == layout(ls, ls.len() as int).0,
            pc == row_pc(ls, fl, i as int),
            rows@.len() == i,
            forall|k: int| 0 <= k < i ==> {
                &&& (#[trigger] rows@[k]).address == row_address(ls, fl, k)
                &&& rows@[k].bytes@ == row_bytes(ls, fl, k)
                &&& rows@[k].text@ == row_text(trim_end(ls[k]), source_view(source))
            },
        decreases lines@.len() - i,
    {
        assert(ls[i as int] == lines@[i as int]@);
        let (row, next) = listing_row(&lines[i], &labels, pc, source);
        rows.push(row);
        pc = next;
        i += 1;
    }
    rows
}

} // verus!
