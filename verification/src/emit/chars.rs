//! Character-level helpers for the assembly listing: whitespace, trimming,
//! case folding and numerals.

use vstd::prelude::*;

verus! {

/// `char::is_whitespace`: the Unicode `White_Space` characters.
pub open spec fn is_ws(c: char) -> bool {
    c == ' ' || ('\t' <= c && c <= '\r') || c == '\u{85}' || c == '\u{A0}' || c == '\u{1680}'
        || ('\u{2000}' <= c && c <= '\u{200A}') || c == '\u{2028}' || c == '\u{2029}' || c == '\u{202F}'
        || c == '\u{205F}' || c == '\u{3000}'
}

/// Whether a character is white space.
pub fn is_whitespace(c: char) -> (r: bool)
    ensures
        r == is_ws(c),
{
    c == ' ' || ('\t' <= c && c <= '\r') || c == '\u{85}' || c == '\u{A0}' || c == '\u{1680}'
        || ('\u{2000}' <= c && c <= '\u{200A}') || c == '\u{2028}' || c == '\u{2029}' || c == '\u{202F}'
        || c == '\u{205F}' || c == '\u{3000}'
}

/// `s` without its leading white space.
pub open spec fn trim_start(s: Seq<char>) -> Seq<char>
    decreases s.len(),
{
    if s.len() > 0 && is_ws(s[0]) {
        trim_start(s.drop_first())
    } else {
        s
    }
}

/// `s` without its trailing white space.
pub open spec fn trim_end(s: Seq<char>) -> Seq<char>
    decreases s.len(),
{
    if s.len() > 0 && is_ws(s.last()) {
        trim_end(s.drop_last())
    } else {
        s
    }
}

/// `s` without leading and trailing white space.
pub open spec fn trim(s: Seq<char>) -> Seq<char> {
    trim_end(trim_start(s))
}

proof fn lemma_trim_start_step(s: Seq<char>, i: int)
    requires
        0 <= i < s.len(),
        is_ws(s[i]),
    ensures
        trim_start(s.subrange(i, s.len() as int)) == trim_start(s.subrange(i + 1, s.len() as int)),
{
    let t = s.subrange(i, s.len() as int);
    assert(t.drop_first() =~= s.subrange(i + 1, s.len() as int));
}

proof fn lemma_trim_end_step(s: Seq<char>, j: int)
    requires
        0 < j <= s.len(),
        is_ws(s[j - 1]),
    ensures
        trim_end(s.subrange(0, j)) == trim_end(s.subrange(0, j - 1)),
{
    let t = s.subrange(0, j);
    assert(t.drop_last() =~= s.subrange(0, j - 1));
}

/// Copy `s[from..to]`.
pub fn slice(s: &Vec<char>, from: usize, to: usize) -> (r: Vec<char>)
    requires
        from <= to <= s@.len(),
    ensures
        r@ == s@.subrange(from as int, to as int),
{
    let mut out: Vec<char> = Vec::new();
    let mut i: usize = from;
    while i < to
        invariant
            from <= i <= to,
            to <= s@.len(),
            out@ == s@.subrange(from as int, i as int),
        decreases to - i,
    {
        out.push(s[i]);
        i += 1;
    }
    out
}

/// Remove leading white space.
pub fn trim_start_chars(s: &Vec<char>) -> (r: Vec<char>)
    ensures
        r@ == trim_start(s@),
{
    let mut i: usize = 0;
    assert(s@.subrange(0, s@.len() as int) =~= s@);
    while i < s.len() && is_whitespace(s[i])
        invariant
            i <= s@.len(),
            trim_start(s@) == trim_start(s@.subrange(i as int, s@.len() as int)),
        decreases s@.len() - i,
    {
        proof {
            lemma_trim_start_step(s@, i as int);
        }
        i += 1;
    }
    assert(s@.subrange(0, s@.len() as int) =~= s@);
    slice(s, i, s.len())
}

/// Remove trailing white space.
pub fn trim_end_chars(s: &Vec<char>) -> (r: Vec<char>)
    ensures
        r@ == trim_end(s@),
{
    let mut j: usize = s.len();
    assert(s@.subrange(0, s@.len() as int) =~= s@);
    while j > 0 && is_whitespace(s[j - 1])
        invariant
            j <= s@.len(),
            trim_end(s@) == trim_end(s@.subrange(0, j as int)),
        decreases j,
    {
        proof {
            lemma_trim_end_step(s@, j as int);
        }
        j -= 1;
    }
    slice(s, 0, j)
}

/// Remove leading and trailing white space.
pub fn trim_chars(s: &Vec<char>) -> (r: Vec<char>)
    ensures
        r@ == trim(s@),
{
    let t = trim_start_chars(s);
    trim_end_chars(&t)
}

/// `char::to_ascii_uppercase`.
pub open spec fn upper(c: char) -> char {
    if 'a' <= c && c <= 'z' {
        ((c as u32) - 32) as char
    } else {
        c
    }
}

/// A string with its ASCII letters in upper case.
pub open spec fn upper_seq(s: Seq<char>) -> Seq<char> {
    s.map_values(|c: char| upper(c))
}

fn upper_char(c: char) -> (r: char)
    ensures
        r == upper(c),
{
    if 'a' <= c && c <= 'z' {
        let v: u8 = (c as u8) - 32;
        v as char
    } else {
        c
    }
}

/// Fold ASCII letters to upper case.
pub fn upper_chars(s: &Vec<char>) -> (r: Vec<char>)
    ensures
        r@ == upper_seq(s@),
{
    let mut out: Vec<char> = Vec::new();
    let mut i: usize = 0;
    while i < s.len()
        invariant
            i <= s@.len(),
            out@ == upper_seq(s@.subrange(0, i as int)),
        decreases s@.len() - i,
    {
        out.push(upper_char(s[i]));
        proof {
            assert(upper_seq(s@.subrange(0, i + 1)) =~= upper_seq(s@.subrange(0, i as int)).push(upper(s@[i as int])));
        }
        i += 1;
    }
    assert(s@.subrange(0, s@.len() as int) =~= s@);
    out
}

/// Whether two character strings are equal.
pub fn chars_equal(a: &Vec<char>, b: &Vec<char>) -> (r: bool)
    ensures
        r == (a@ == b@),
{
    if a.len() != b.len() {
        return false;
    }
    let mut i: usize = 0;
    while i < a.len()
        invariant
            a@.len() == b@.len(),
            i <= a@.len(),
            forall|k: int| 0 <= k < i ==> a@[k] == b@[k],
        decreases a@.len() - i,
    {
        if a[i] != b[i] {
            return false;
        }
        i += 1;
    }
    assert(a@ =~= b@);
    true
}

/// The value of a digit in the radix, if it is one.
pub open spec fn digit_value(c: char, radix: u32) -> Option<int> {
    let v: int = if '0' <= c && c <= '9' {
        c as int - '0' as int
    } else if 'a' <= c && c <= 'z' {
        c as int - 'a' as int + 10
    } else if 'A' <= c && c <= 'Z' {
        c as int - 'A' as int + 10
    } else {
        99
    };
    if v < radix { Some(v) } else { None }
}

/// The value of a string of digits (at least one) in the radix.
pub open spec fn digits_value(s: Seq<char>, radix: u32) -> Option<int>
    decreases s.len(),
{
    if s.len() == 0 {
        None
    } else {
        match digit_value(s.last(), radix) {
            None => None,
            Some(d) => if s.len() == 1 {
                Some(d)
            } else {
                match digits_value(s.drop_last(), radix) {
                    None => None,
                    Some(v) => Some(v * radix + d),
                }
            },
        }
    }
}

/// The unsigned numeral in the radix, with an optional leading `+`, whose
/// value is at most `max` (`from_str_radix` of an unsigned type).
pub open spec fn parse_unsigned(s: Seq<char>, radix: u32, max: int) -> Option<int> {
    let digits = if s.len() > 1 && s[0] == '+' { s.drop_first() } else { s };
    match digits_value(digits, radix) {
        Some(v) => if v <= max { Some(v) } else { None },
        None => None,
    }
}

/// A parsed unsigned numeral lies in `0..=max`.
pub proof fn lemma_parse_unsigned_range(s: Seq<char>, radix: u32, max: int)
    requires
        2 <= radix <= 36,
    ensures
        parse_unsigned(s, radix, max) matches Some(v) ==> 0 <= v <= max,
{
    let digits = if s.len() > 1 && s[0] == '+' { s.drop_first() } else { s };
    lemma_digits_nonneg(digits, radix);
}

proof fn lemma_digits_nonneg(s: Seq<char>, radix: u32)
    requires
        2 <= radix <= 36,
    ensures
        digits_value(s, radix) matches Some(v) ==> v >= 0,
    decreases s.len(),
{
    if s.len() > 1 {
        lemma_digits_nonneg(s.drop_last(), radix);
    }
}

proof fn lemma_digits_prefix(s: Seq<char>, i: int, radix: u32)
    requires
        2 <= radix <= 36,
        0 < i < s.len(),
        digits_value(s.subrange(0, i + 1), radix) is Some,
    ensures
        digits_value(s.subrange(0, i), radix) is Some,
        digits_value(s.subrange(0, i), radix).unwrap() * radix <= digits_value(s.subrange(0, i + 1), radix).unwrap(),
{
    let t = s.subrange(0, i + 1);
    assert(t.drop_last() =~= s.subrange(0, i));
    lemma_digits_nonneg(s.subrange(0, i), radix);
}

proof fn lemma_digits_monotone(s: Seq<char>, i: int, radix: u32)
    requires
        2 <= radix <= 36,
        0 < i <= s.len(),
        digits_value(s, radix) is Some,
    ensures
        digits_value(s.subrange(0, i), radix) is Some,
        digits_value(s.subrange(0, i), radix).unwrap() <= digits_value(s, radix).unwrap(),
    decreases s.len() - i,
{
    if i == s.len() {
        assert(s.subrange(0, i) =~= s);
    } else {
        lemma_digits_monotone(s, i + 1, radix);
        lemma_digits_prefix(s, i, radix);
        lemma_digits_nonneg(s.subrange(0, i), radix);
        let a = digits_value(s.subrange(0, i), radix).unwrap();
        assert(a <= a * radix) by (nonlinear_arith)
            requires
                a >= 0,
                radix >= 2,
        ;
    }
}

fn digit_of(c: char, radix: u32) -> (r: Option<u32>)
    requires
        2 <= radix <= 36,
    ensures
        match digit_value(c, radix) {
            Some(v) => r == Some(v as u32),
            None => r is None,
        },
{
    let v: u32 = if '0' <= c && c <= '9' {
        (c as u32) - ('0' as u32)
    } else if 'a' <= c && c <= 'z' {
        (c as u32) - ('a' as u32) + 10
    } else if 'A' <= c && c <= 'Z' {
        (c as u32) - ('A' as u32) + 10
    } else {
        99
    };
    if v < radix {
        Some(v)
    } else {
        None
    }
}

/// Parse an unsigned numeral in the radix with an optional leading `+`,
/// failing on an empty string, a stray character, or a value above `max`
/// (`u16::from_str_radix`, `str::parse::<usize>`).
pub fn parse_unsigned_chars(s: &Vec<char>, radix: u32, max: u64) -> (r: Option<u64>)
    requires
        2 <= radix <= 36,
        max <= u64::MAX,
    ensures
        match parse_unsigned(s@, radix, max as int) {
            Some(v) => r == Some(v as u64),
            None => r is None,
        },
{
    let start: usize = if s.len() > 1 && s[0] == '+' { 1 } else { 0 };
    let ghost digits = if s@.len() > 1 && s@[0] == '+' { s@.drop_first() } else { s@ };
    assert(digits =~= s@.subrange(start as int, s@.len() as int));
    if start >= s.len() {
        return None;
    }
    let mut value: u64 = 0;
    let mut i: usize = start;
    while i < s.len()
        invariant
            start <= i <= s@.len(),
            start < s@.len(),
            digits =~= s@.subrange(start as int, s@.len() as int),
            2 <= radix <= 36,
            max <= u64::MAX,
            i > start ==> digits_value(s@.subrange(start as int, i as int), radix) == Some(value as int),
            i == start ==> value == 0,
            digits == (if s@.len() > 1 && s@[0] == '+' { s@.drop_first() } else { s@ }),
            value <= max,
        decreases s@.len() - i,
    {
        let ghost pre = s@.subrange(start as int, i as int);
        let ghost next = s@.subrange(start as int, i + 1);
        assert(next.drop_last() =~= pre);
        assert(next.last() == s@[i as int]);
        match digit_of(s[i], radix) {
            None => {
                proof {
                    lemma_no_digits_extend(s@, start as int, i as int, radix);
                    assert(digits_value(digits, radix) is None);
                    assert(parse_unsigned(s@, radix, max as int) is None);
                }
                return None;
            },
            Some(d) => {
                assert((value as u128) * (radix as u128) <= (max as u128) * 36) by (nonlinear_arith)
                    requires
                        value <= max,
                        radix <= 36,
                ;
                let nv: u128 = (value as u128) * (radix as u128) + (d as u128);
                if nv > max as u128 {
                    proof {
                        if i > start {
                            assert(digits_value(next, radix) == Some(nv as int));
                        } else {
                            assert(digits_value(next, radix) == Some(d as int));
                            assert(nv as int == d as int);
                        }
                        assert(next == s@.subrange(start as int, i as int + 1));
                        lemma_big_extends(s@, start as int, i as int + 1, radix, max as int, nv as int);
                        assert(match digits_value(digits, radix) { Some(w) => w > max, None => true });
                    }
                    return None;
                }
                proof {
                    if i > start {
                        assert(digits_value(next, radix) == Some(value * radix + d));
                    } else {
                        assert(value == 0);
                        assert(digits_value(next, radix) == Some(d as int));
                    }
                }
                value = nv as u64;
            },
        }
        i += 1;
    }
    Some(value)
}

proof fn lemma_no_digits_extend(s: Seq<char>, start: int, i: int, radix: u32)
    requires
        0 <= start <= i < s.len(),
        2 <= radix <= 36,
        digit_value(s[i], radix) is None,
    ensures
        digits_value(s.subrange(start, s.len() as int), radix) is None,
{
    let full = s.subrange(start, s.len() as int);
    if digits_value(full, radix) is Some {
        lemma_digits_monotone(full, i - start + 1, radix);
        let p = full.subrange(0, i - start + 1);
        assert(p.last() == s[i]);
    }
}

proof fn lemma_big_extends(s: Seq<char>, start: int, j: int, radix: u32, max: int, v: int)
    requires
        0 <= start < j <= s.len(),
        2 <= radix <= 36,
        digits_value(s.subrange(start, j), radix) == Some(v),
        v > max,
    ensures
        match digits_value(s.subrange(start, s.len() as int), radix) {
            Some(w) => w > max,
            None => true,
        },
{
    let full = s.subrange(start, s.len() as int);
    if digits_value(full, radix) is Some {
        lemma_digits_monotone(full, j - start, radix);
        assert(full.subrange(0, j - start) =~= s.subrange(start, j));
    }
}

} // verus!
