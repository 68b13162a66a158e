//! Width-aware integer helpers used when folding constants.

use vstd::prelude::*;

use crate::ir::Width;

verus! {

/// `2^bits` of a width.
pub open spec fn modulus(w: Width) -> int {
    match w {
        Width::W8 => 0x100,
        Width::W16 => 0x1_0000,
        Width::W32 => 0x1_0000_0000,
    }
}

/// The value truncated to the width, read as unsigned.
pub open spec fn spec_wrap(v: int, w: Width) -> int {
    v % modulus(w)
}

/// The value truncated to the width, read as two's complement.
pub open spec fn spec_sign_extend(v: int, w: Width) -> int {
    let r = spec_wrap(v, w);
    if r >= modulus(w) / 2 {
        r - modulus(w)
    } else {
        r
    }
}

/// `a < b` at a width, signed or unsigned, as 1 or 0.
pub open spec fn spec_fold_lt(a: int, b: int, w: Width, signed: bool) -> int {
    if signed {
        if spec_sign_extend(a, w) < spec_sign_extend(b, w) { 1 } else { 0 }
    } else {
        if spec_wrap(a, w) < spec_wrap(b, w) { 1 } else { 0 }
    }
}

/// `v` is a power of two.
pub open spec fn spec_is_pow2(v: int) -> bool
    decreases v,
{
    if v <= 0 {
        false
    } else if v == 1 {
        true
    } else {
        v % 2 == 0 && spec_is_pow2(v / 2)
    }
}

/// The base-2 logarithm of a power of two.
pub open spec fn spec_log2(v: int) -> nat
    decreases v,
{
    if v <= 1 {
        0
    } else {
        1 + spec_log2(v / 2)
    }
}

fn modulus_of(width: Width) -> (r: i64)
    ensures
        r == modulus(width),
{
    match width {
        Width::W8 => 0x100,
        Width::W16 => 0x1_0000,
        Width::W32 => 0x1_0000_0000,
    }
}

/// Truncate a value to the width (as an unsigned number).
pub fn wrap_result(val: i64, width: Width) -> (r: i64)
    ensures
        r == spec_wrap(val as int, width),
        0 <= r < modulus(width),
{
    let m = modulus_of(width);
    let q = val % m;
    if q < 0 {
        q + m
    } else {
        q
    }
}

/// Sign-extend a value from the width to `i64`.
pub fn sign_extend(val: i64, width: Width) -> (r: i64)
    ensures
        r == spec_sign_extend(val as int, width),
        -modulus(width) / 2 <= r < modulus(width) / 2,
{
    let m = modulus_of(width);
    let u = wrap_result(val, width);
    if u >= m / 2 {
        u - m
    } else {
        u
    }
}

/// The value as an unsigned number of the width.
pub fn to_unsigned(val: i64, width: Width) -> (r: u64)
    ensures
        r == spec_wrap(val as int, width),
{
    wrap_result(val, width) as u64
}

/// Fold a less-than comparison to 1 or 0.
pub fn fold_lt(a: i64, b: i64, width: Width, signed: bool) -> (r: i64)
    ensures
        r == spec_fold_lt(a as int, b as int, width, signed),
{
    if signed {
        let sa = sign_extend(a, width);
        let sb = sign_extend(b, width);
        if sa < sb { 1 } else { 0 }
    } else {
        let ua = to_unsigned(a, width);
        let ub = to_unsigned(b, width);
        if ua < ub { 1 } else { 0 }
    }
}

/// Whether a value is a power of two.
pub fn is_power_of_two(val: i64) -> (r: bool)
    ensures
        r == spec_is_pow2(val as int),
{
    if val <= 0 {
        return false;
    }
    let mut v = val;
    while v > 1 && v % 2 == 0
        invariant
            v > 0,
            spec_is_pow2(v as int) == spec_is_pow2(val as int),
        decreases v,
    {
        v = v / 2;
    }
    v == 1
}

/// The exponent of a power of two.
pub fn log2_of_pow2(val: i64) -> (r: i64)
    requires
        spec_is_pow2(val as int),
    ensures
        r == spec_log2(val as int),
        0 <= r < 64,
{
    proof {
        lemma_log2_i64(val);
    }
    let mut v = val;
    let mut k: i64 = 0;
    while v > 1
        invariant
            spec_is_pow2(v as int),
            k + spec_log2(v as int) == spec_log2(val as int),
            0 <= k,
            k + spec_log2(v as int) < 64,
        decreases v,
    {
        v = v / 2;
        k = k + 1;
    }
    k
}

spec fn two_to(k: nat) -> int
    decreases k,
{
    if k == 0 {
        1
    } else {
        2 * two_to((k - 1) as nat)
    }
}

proof fn lemma_log2_lt(v: int, k: nat)
    requires
        1 <= v < two_to(k),
    ensures
        spec_log2(v) < k,
    decreases k,
{
    if k == 0 {
    } else if v > 1 {
        lemma_log2_lt(v / 2, (k - 1) as nat);
    }
}

proof fn lemma_log2_i64(v: i64)
    requires
        v >= 1,
    ensures
        spec_log2(v as int) < 63,
{
    reveal_with_fuel(two_to, 64);
    assert(two_to(63) == 0x8000_0000_0000_0000);
    lemma_log2_lt(v as int, 63);
}

} // verus!
