//! Text helpers over `String` / `str`, stated over the character sequences
//! that the strings hold.

use vstd::prelude::*;

verus! {

/// `p` occurs in `s` at some position.
pub open spec fn seq_has_sub(s: Seq<char>, p: Seq<char>) -> bool {
    exists|i: int| 0 <= i && i + p.len() <= s.len() && #[trigger] s.subrange(i, i + p.len()) == p
}

/// The character of a decimal digit.
pub open spec fn digit_char(d: int) -> char {
    if d == 0 { '0' } else if d == 1 { '1' } else if d == 2 { '2' } else if d == 3 { '3' } else if d
        == 4 { '4' } else if d == 5 { '5' } else if d == 6 { '6' } else if d == 7 { '7' } else if d
        == 8 { '8' } else { '9' }
}

/// The decimal numeral of a natural number, without leading zeros.
pub open spec fn decimal(n: nat) -> Seq<char>
    decreases n,
{
    if n < 10 {
        seq![digit_char(n as int)]
    } else {
        decimal(n / 10).push(digit_char((n % 10) as int))
    }
}

/// The decimal numeral of an integer, with a leading `-` when negative.
pub open spec fn signed_decimal(n: int) -> Seq<char> {
    if n < 0 {
        seq!['-'] + decimal((-n) as nat)
    } else {
        decimal(n as nat)
    }
}

/// Whether `s` begins with `prefix` (`str::starts_with`).
#[verifier::external_body]
pub fn starts_with(s: &str, prefix: &str) -> (r: bool)
    ensures
        r == prefix@.is_prefix_of(s@),
{
    s.starts_with(prefix)
}

/// Whether `pat` occurs in `s` (`str::contains`).
#[verifier::external_body]
pub fn contains(s: &str, pat: &str) -> (r: bool)
    ensures
        r == seq_has_sub(s@, pat@),
{
    s.contains(pat)
}

/// The decimal numeral of an unsigned number (`u64::to_string`).
#[verifier::external_body]
pub fn u64_decimal(n: u64) -> (r: String)
    ensures
        r@ == decimal(n as nat),
{
    n.to_string()
}

/// The decimal numeral of a signed number (`i64::to_string`).
#[verifier::external_body]
pub fn i64_decimal(n: i64) -> (r: String)
    ensures
        r@ == signed_decimal(n as int),
{
    n.to_string()
}

/// Replace the prefix `old` of `s` by `new` (`str::replacen` with a count
/// of one, where the first occurrence is the prefix).
#[verifier::external_body]
pub fn replace_prefix(s: &str, old: &str, new: &str) -> (r: String)
    requires
        old@.is_prefix_of(s@),
    ensures
        r@ == new@ + s@.subrange(old@.len() as int, s@.len() as int),
{
    s.replacen(old, new, 1)
}

/// The string of a sequence of characters (`Iterator::collect` into a
/// `String`).
#[verifier::external_body]
pub fn string_of(cs: &Vec<char>) -> (r: String)
    ensures
        r@ == cs@,
{
    cs.iter().collect()
}

/// The concatenation of two strings.
pub fn concat2(a: &str, b: &str) -> (r: String)
    ensures
        r@ == a@ + b@,
{
    let mut s = String::from_str(a);
    s.append(b);
    s
}

/// The concatenation of three strings.
pub fn concat3(a: &str, b: &str, c: &str) -> (r: String)
    ensures
        r@ == a@ + b@ + c@,
{
    let mut s = String::from_str(a);
    s.append(b);
    s.append(c);
    s
}

/// The concatenation of four strings.
pub fn concat4(a: &str, b: &str, c: &str, d: &str) -> (r: String)
    ensures
        r@ == a@ + b@ + c@ + d@,
{
    let mut s = String::from_str(a);
    s.append(b);
    s.append(c);
    s.append(d);
    s
}

/// Whether a string begins with the prefix of compiler-local storage
/// labels, `_l_`.
pub fn is_local_label(s: &str) -> (r: bool)
    ensures
        r == local_prefix().is_prefix_of(s@),
{
    proof {
        reveal_strlit("_l_");
    }
    starts_with(s, "_l_")
}

/// The prefix of compiler-local storage labels.
pub open spec fn local_prefix() -> Seq<char> {
    seq!['_', 'l', '_']
}

} // verus!
