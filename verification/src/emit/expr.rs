//! Operand expressions of the assembly text: numerals, character
//! constants, labels and `$`, combined with `+` and `-`.

use vstd::prelude::*;

use crate::emit::chars::{lemma_parse_unsigned_range, parse_unsigned, parse_unsigned_chars, slice, trim, trim_chars};
use crate::maps::AssocMap;
use crate::opt::memory::chars_of;
use crate::text::string_of;

verus! {

/// The first byte of the UTF-8 encoding of a character.
pub open spec fn first_byte(c: char) -> int {
    let v = (c as u32) as int;
    if v < 0x80 {
        v
    } else if v < 0x800 {
        0xC0 + v / 64
    } else if v < 0x10000 {
        0xE0 + v / 4096
    } else {
        0xF0 + (v / 262144) % 8
    }
}

fn first_byte_of(c: char) -> (r: u16)
    ensures
        r as int == first_byte(c),
{
    let v: u32 = c as u32;
    if v < 0x80 {
        v as u16
    } else if v < 0x800 {
        (0xC0 + v / 64) as u16
    } else if v < 0x10000 {
        (0xE0 + v / 4096) as u16
    } else {
        (0xF0 + (v / 262144) % 8) as u16
    }
}

/// Every character is a binary digit.
pub open spec fn all_binary(s: Seq<char>) -> bool {
    forall|i: int| 0 <= i < s.len() ==> s[i] == '0' || s[i] == '1'
}

/// The value of one operand term (after trimming): `$` is the current
/// address; `0x..` and `..h` are hexadecimal, `..b` binary, a quoted
/// character its first byte, a bare numeral decimal (all at most 16 bits);
/// anything else a label.
pub open spec fn atom_value(a0: Seq<char>, labels: Map<Seq<char>, u16>, pc: u16) -> Option<int> {
    let a = trim(a0);
    if a == seq!['$'] {
        Some(pc as int)
    } else if a.len() >= 2 && a[0] == '0' && a[1] == 'x' {
        parse_unsigned(a.subrange(2, a.len() as int), 16, 65535)
    } else if a.len() >= 1 && (a.last() == 'h' || a.last() == 'H') {
        parse_unsigned(a.drop_last(), 16, 65535)
    } else if a.len() >= 1 && (a.last() == 'b' || a.last() == 'B') && all_binary(a.drop_last()) {
        parse_unsigned(a.drop_last(), 2, 65535)
    } else if a.len() >= 2 && a[0] == '"' && a.last() == '"' {
        Some(first_byte(a[1]))
    } else if a.len() >= 3 && a[0] == '\'' && a.last() == '\'' {
        Some(first_byte(a[1]))
    } else if parse_unsigned(a, 10, 65535) is Some {
        parse_unsigned(a, 10, 65535)
    } else if labels.contains_key(a) {
        Some(labels[a] as int)
    } else {
        None
    }
}

/// A term's value is a 16-bit number.
pub proof fn lemma_atom_range(a0: Seq<char>, labels: Map<Seq<char>, u16>, pc: u16)
    ensures
        atom_value(a0, labels, pc) matches Some(v) ==> 0 <= v <= 65535,
{
    let a = trim(a0);
    lemma_parse_unsigned_range(a.subrange(2, a.len() as int), 16, 65535);
    lemma_parse_unsigned_range(a.drop_last(), 16, 65535);
    lemma_parse_unsigned_range(a.drop_last(), 2, 65535);
    lemma_parse_unsigned_range(a, 10, 65535);
}

fn all_binary_chars(s: &Vec<char>, end: usize) -> (r: bool)
    requires
        end <= s@.len(),
    ensures
        r == all_binary(s@.subrange(0, end as int)),
{
    let mut i: usize = 0;
    while i < end
        invariant
            i <= end,
            end <= s@.len(),
            forall|k: int| 0 <= k < i ==> s@[k] == '0' || s@[k] == '1',
        decreases end - i,
    {
        if s[i] != '0' && s[i] != '1' {
            assert(!(s@.subrange(0, end as int)[i as int] == '0' || s@.subrange(0, end as int)[i as int] == '1'));
            return false;
        }
        i += 1;
    }
    true
}

/// The value of one operand term (`parse_atom`).
pub fn parse_atom(atom: &Vec<char>, labels: &AssocMap<String, u16>, pc: u16) -> (r: Option<u16>)
    requires
        labels.wf(),
    ensures
        match atom_value(atom@, labels@, pc) {
            Some(v) => r == Some(v as u16),
            None => r is None,
        },
{
    proof {
        lemma_atom_range(atom@, labels@, pc);
    }
    let a = trim_chars(atom);
    let n = a.len();
    if n == 1 && a[0] == '$' {
        assert(a@ =~= seq!['$']);
        return Some(pc);
    }
    assert(a@ != seq!['$']) by {
        if a@ == seq!['$'] {
            assert(a@.len() == 1 && a@[0] == '$');
        }
    }
    if n >= 2 && a[0] == '0' && a[1] == 'x' {
        let hex = slice(&a, 2, n);
        return match parse_unsigned_chars(&hex, 16, 65535) {
            Some(v) => Some(v as u16),
            None => None,
        };
    }
    if n >= 1 && (a[n - 1] == 'h' || a[n - 1] == 'H') {
        let hex = slice(&a, 0, n - 1);
        assert(hex@ =~= a@.drop_last());
        return match parse_unsigned_chars(&hex, 16, 65535) {
            Some(v) => Some(v as u16),
            None => None,
        };
    }
    if n >= 1 && (a[n - 1] == 'b' || a[n - 1] == 'B') {
        if all_binary_chars(&a, n - 1) {
            let bin = slice(&a, 0, n - 1);
            assert(bin@ =~= a@.drop_last());
            return match parse_unsigned_chars(&bin, 2, 65535) {
                Some(v) => Some(v as u16),
                None => None,
            };
        }
        assert(!all_binary(a@.drop_last())) by {
            assert(a@.subrange(0, n - 1) =~= a@.drop_last());
        }
    }
    if n >= 2 && a[0] == '"' && a[n - 1] == '"' {
        return Some(first_byte_of(a[1]));
    }
    if n >= 3 && a[0] == '\'' && a[n - 1] == '\'' {
        return Some(first_byte_of(a[1]));
    }
    match parse_unsigned_chars(&a, 10, 65535) {
        Some(v) => {
            return Some(v as u16);
        },
        None => {},
    }
    let key = string_of(&a);
    match labels.get(&key) {
        Some(v) => Some(*v),
        None => None,
    }
}

/// Add a finished term to the running total; an empty term adds nothing.
pub open spec fn flush_term(tok: Seq<char>, sign: int, total: int, labels: Map<Seq<char>, u16>, pc: u16) -> Option<int> {
    if trim(tok).len() == 0 {
        Some(total)
    } else {
        match atom_value(tok, labels, pc) {
            None => None,
            Some(v) => Some(total + sign * v),
        }
    }
}

/// The sum of the terms of `s` (split at `+` and `-`, each sign applying to
/// the term after it), given the pending term, sign and total.
pub open spec fn eval_scan(s: Seq<char>, tok: Seq<char>, sign: int, total: int, labels: Map<Seq<char>, u16>, pc: u16)
    -> Option<int>
    decreases s.len(),
{
    if s.len() == 0 {
        flush_term(tok, sign, total, labels, pc)
    } else if s[0] == '+' || s[0] == '-' {
        match flush_term(tok, sign, total, labels, pc) {
            None => None,
            Some(t) => eval_scan(s.drop_first(), Seq::empty(), if s[0] == '+' { 1 } else { -1 }, t, labels, pc),
        }
    } else {
        eval_scan(s.drop_first(), tok.push(s[0]), sign, total, labels, pc)
    }
}

/// The value of an operand expression modulo 2^16, if every term has one.
pub open spec fn expr_value(e: Seq<char>, labels: Map<Seq<char>, u16>, pc: u16) -> Option<int> {
    match eval_scan(e, Seq::empty(), 1, 0, labels, pc) {
        Some(t) => Some(t % 65536),
        None => None,
    }
}

fn flush(tok: &Vec<char>, sign: i32, total: i32, labels: &AssocMap<String, u16>, pc: u16, Ghost(gt): Ghost<int>)
    -> (r: Option<i32>)
    requires
        labels.wf(),
        sign == 1 || sign == -1,
        (total - gt) % 65536 == 0,
    ensures
        match flush_term(tok@, sign as int, gt, labels@, pc) {
            Some(t) => r matches Some(x) && (x - t) % 65536 == 0,
            None => r is None,
        },
{
    let t = trim_chars(tok);
    if t.len() == 0 {
        return Some(total);
    }
    proof {
        lemma_atom_range(tok@, labels@, pc);
    }
    match parse_atom(tok, labels, pc) {
        None => None,
        Some(v) => {
            assert(atom_value(tok@, labels@, pc) == Some(v as int));
            let add: i32 = sign * (v as i32);
            let x = total.wrapping_add(add);
            proof {
                let m = total as int + add as int;
                assert(x as int == m || x as int == m - 0x1_0000_0000 || x as int == m + 0x1_0000_0000);
                assert((x as int - (gt + sign * v)) % 65536 == 0) by {
                    lemma_mod_shift(total as int - gt, x as int - m);
                }
            }
            Some(x)
        },
    }
}

proof fn lemma_mod_shift(a: int, b: int)
    requires
        a % 65536 == 0,
        b == 0 || b == 0x1_0000_0000 || b == -0x1_0000_0000,
    ensures
        (a + b) % 65536 == 0,
{
    vstd::arithmetic::div_mod::lemma_add_mod_noop(a, b, 65536);
}

/// The value of an operand expression (`eval_expr`): the terms separated by
/// `+` and `-` summed modulo 2^16, or `None` when a term has no value.
pub fn eval_expr(expr: &str, labels: &AssocMap<String, u16>, pc: u16) -> (r: Option<u16>)
    requires
        labels.wf(),
    ensures
        match expr_value(expr@, labels@, pc) {
            Some(v) => r == Some(v as u16),
            None => r is None,
        },
{
    let cs = chars_of(expr);
    let mut total: i32 = 0;
    let mut sign: i32 = 1;
    let mut token: Vec<char> = Vec::new();
    let ghost mut gt: int = 0;
    let mut i: usize = 0;
    assert(cs@.subrange(0, cs@.len() as int) =~= cs@);
    while i < cs.len()
        invariant
            i <= cs@.len(),
            cs@ == expr@,
            labels.wf(),
            sign == 1 || sign == -1,
            (total - gt) % 65536 == 0,
            eval_scan(cs@, Seq::empty(), 1, 0, labels@, pc)
                == eval_scan(cs@.subrange(i as int, cs@.len() as int), token@, sign as int, gt, labels@, pc),
        decreases cs@.len() - i,
    {
        let ghost rest = cs@.subrange(i as int, cs@.len() as int);
        assert(rest.drop_first() =~= cs@.subrange(i + 1, cs@.len() as int));
        let ch = cs[i];
        if ch == '+' || ch == '-' {
            match flush(&token, sign, total, labels, pc, Ghost(gt)) {
                None => {
                    return None;
                },
                Some(t) => {
                    proof {
                        gt = flush_term(token@, sign as int, gt, labels@, pc).unwrap();
                    }
                    total = t;
                },
            }
            token = Vec::new();
            sign = if ch == '+' { 1 } else { -1 };
        } else {
            token.push(ch);
        }
        i += 1;
    }
    match flush(&token, sign, total, labels, pc, Ghost(gt)) {
        None => None,
        Some(t) => {
            proof {
                let ft = flush_term(token@, sign as int, gt, labels@, pc).unwrap();
                assert(cs@.subrange(i as int, cs@.len() as int) =~= Seq::<char>::empty());
                assert(eval_scan(cs@, Seq::empty(), 1, 0, labels@, pc) == Some(ft));
                lemma_low_bits(t as int, ft);
            }
            Some((t & 0xFFFF) as u16)
        },
    }
}

/// An expression's value is a 16-bit number.
pub proof fn lemma_expr_range(e: Seq<char>, labels: Map<Seq<char>, u16>, pc: u16)
    ensures
        expr_value(e, labels, pc) matches Some(v) ==> 0 <= v <= 65535,
{
}

proof fn lemma_low_bits(t: int, ft: int)
    requires
        (t - ft) % 65536 == 0,
        -0x8000_0000 <= t < 0x8000_0000,
    ensures
        ((t as i32) & 0xFFFFi32) as u16 == (ft % 65536) as u16,
{
    let x = t as i32;
    assert((x & 0xFFFFi32) as int == (x as int) % 65536) by (bit_vector);
    vstd::arithmetic::div_mod::lemma_add_mod_noop(t - ft, ft, 65536);
}

} // verus!
