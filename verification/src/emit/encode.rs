//! Encoding of 8080 instructions.

use vstd::prelude::*;

use crate::emit::chars::{chars_equal, trim, trim_chars, upper_chars, upper_seq};
use crate::emit::expr::{eval_expr, expr_value};
use crate::maps::AssocMap;
use crate::opt::memory::chars_of;

verus! {

/// An operand as written: trimmed and in upper case.
pub open spec fn norm(s: Seq<char>) -> Seq<char> {
    upper_seq(trim(s))
}

fn norm_chars(s: &str) -> (r: Vec<char>)
    ensures
        r@ == norm(s@),
{
    let cs = chars_of(s);
    let t = trim_chars(&cs);
    upper_chars(&t)
}

/// The number of a register name.
pub open spec fn reg_of(t: Seq<char>) -> Option<u8> {
    if t == seq!['B'] {
        Some(0x00u8)
    } else if t == seq!['C'] {
        Some(0x01u8)
    } else if t == seq!['D'] {
        Some(0x02u8)
    } else if t == seq!['E'] {
        Some(0x03u8)
    } else if t == seq!['H'] {
        Some(0x04u8)
    } else if t == seq!['L'] {
        Some(0x05u8)
    } else if t == seq!['M'] {
        Some(0x06u8)
    } else if t == seq!['A'] {
        Some(0x07u8)
    } else {
        None
    }
}

/// The number of a register pair for `LXI`, `INX`, `DCX`, `DAD`.
pub open spec fn rp_of(t: Seq<char>) -> Option<u8> {
    if t == seq!['B'] {
        Some(0x00u8)
    } else if t == seq!['B', 'C'] {
        Some(0x00u8)
    } else if t == seq!['D'] {
        Some(0x01u8)
    } else if t == seq!['D', 'E'] {
        Some(0x01u8)
    } else if t == seq!['H'] {
        Some(0x02u8)
    } else if t == seq!['H', 'L'] {
        Some(0x02u8)
    } else if t == seq!['S', 'P'] {
        Some(0x03u8)
    } else {
        None
    }
}

/// The number of a register pair for `PUSH` and `POP`.
pub open spec fn push_pop_of(t: Seq<char>) -> Option<u8> {
    if t == seq!['B'] {
        Some(0x00u8)
    } else if t == seq!['B', 'C'] {
        Some(0x00u8)
    } else if t == seq!['D'] {
        Some(0x01u8)
    } else if t == seq!['D', 'E'] {
        Some(0x01u8)
    } else if t == seq!['H'] {
        Some(0x02u8)
    } else if t == seq!['H', 'L'] {
        Some(0x02u8)
    } else if t == seq!['P', 'S', 'W'] {
        Some(0x03u8)
    } else if t == seq!['A'] {
        Some(0x03u8)
    } else {
        None
    }
}

/// The opcode of an instruction without operands.
pub open spec fn fixed_opcode(t: Seq<char>) -> Option<u8> {
    if t == seq!['N', 'O', 'P'] {
        Some(0x00u8)
    } else if t == seq!['H', 'L', 'T'] {
        Some(0x76u8)
    } else if t == seq!['D', 'I'] {
        Some(0xf3u8)
    } else if t == seq!['E', 'I'] {
        Some(0xfbu8)
    } else if t == seq!['R', 'L', 'C'] {
        Some(0x07u8)
    } else if t == seq!['R', 'R', 'C'] {
        Some(0x0fu8)
    } else if t == seq!['R', 'A', 'L'] {
        Some(0x17u8)
    } else if t == seq!['R', 'A', 'R'] {
        Some(0x1fu8)
    } else if t == seq!['D', 'A', 'A'] {
        Some(0x27u8)
    } else if t == seq!['C', 'M', 'A'] {
        Some(0x2fu8)
    } else if t == seq!['S', 'T', 'C'] {
        Some(0x37u8)
    } else if t == seq!['C', 'M', 'C'] {
        Some(0x3fu8)
    } else if t == seq!['R', 'E', 'T'] {
        Some(0xc9u8)
    } else if t == seq!['R', 'N', 'Z'] {
        Some(0xc0u8)
    } else if t == seq!['R', 'Z'] {
        Some(0xc8u8)
    } else if t == seq!['R', 'N', 'C'] {
        Some(0xd0u8)
    } else if t == seq!['R', 'C'] {
        Some(0xd8u8)
    } else if t == seq!['R', 'P', 'O'] {
        Some(0xe0u8)
    } else if t == seq!['R', 'P', 'E'] {
        Some(0xe8u8)
    } else if t == seq!['R', 'P'] {
        Some(0xf0u8)
    } else if t == seq!['R', 'M'] {
        Some(0xf8u8)
    } else if t == seq!['P', 'C', 'H', 'L'] {
        Some(0xe9u8)
    } else if t == seq!['X', 'T', 'H', 'L'] {
        Some(0xe3u8)
    } else if t == seq!['X', 'C', 'H', 'G'] {
        Some(0xebu8)
    } else if t == seq!['S', 'P', 'H', 'L'] {
        Some(0xf9u8)
    } else if t == seq!['R', 'I', 'M'] {
        Some(0x20u8)
    } else if t == seq!['S', 'I', 'M'] {
        Some(0x30u8)
    } else {
        None
    }
}

/// The base opcode of an accumulator operation on a register.
pub open spec fn alu_opcode(t: Seq<char>) -> Option<u8> {
    if t == seq!['A', 'D', 'D'] {
        Some(0x80u8)
    } else if t == seq!['A', 'D', 'C'] {
        Some(0x88u8)
    } else if t == seq!['S', 'U', 'B'] {
        Some(0x90u8)
    } else if t == seq!['S', 'B', 'B'] {
        Some(0x98u8)
    } else if t == seq!['A', 'N', 'A'] {
        Some(0xa0u8)
    } else if t == seq!['X', 'R', 'A'] {
        Some(0xa8u8)
    } else if t == seq!['O', 'R', 'A'] {
        Some(0xb0u8)
    } else if t == seq!['C', 'M', 'P'] {
        Some(0xb8u8)
    } else {
        None
    }
}

/// The opcode of an instruction with an 8-bit immediate.
pub open spec fn imm8_opcode(t: Seq<char>) -> Option<u8> {
    if t == seq!['A', 'D', 'I'] {
        Some(0xc6u8)
    } else if t == seq!['A', 'C', 'I'] {
        Some(0xceu8)
    } else if t == seq!['S', 'U', 'I'] {
        Some(0xd6u8)
    } else if t == seq!['S', 'B', 'I'] {
        Some(0xdeu8)
    } else if t == seq!['A', 'N', 'I'] {
        Some(0xe6u8)
    } else if t == seq!['X', 'R', 'I'] {
        Some(0xeeu8)
    } else if t == seq!['O', 'R', 'I'] {
        Some(0xf6u8)
    } else if t == seq!['C', 'P', 'I'] {
        Some(0xfeu8)
    } else if t == seq!['I', 'N'] {
        Some(0xdbu8)
    } else if t == seq!['O', 'U', 'T'] {
        Some(0xd3u8)
    } else {
        None
    }
}

/// The opcode of an instruction with a 16-bit address.
pub open spec fn imm16_opcode(t: Seq<char>) -> Option<u8> {
    if t == seq!['J', 'M', 'P'] {
        Some(0xc3u8)
    } else if t == seq!['J', 'N', 'Z'] {
        Some(0xc2u8)
    } else if t == seq!['J', 'Z'] {
        Some(0xcau8)
    } else if t == seq!['J', 'N', 'C'] {
        Some(0xd2u8)
    } else if t == seq!['J', 'C'] {
        Some(0xdau8)
    } else if t == seq!['J', 'P', 'O'] {
        Some(0xe2u8)
    } else if t == seq!['J', 'P', 'E'] {
        Some(0xeau8)
    } else if t == seq!['J', 'P'] {
        Some(0xf2u8)
    } else if t == seq!['J', 'M'] {
        Some(0xfau8)
    } else if t == seq!['C', 'A', 'L', 'L'] {
        Some(0xcdu8)
    } else if t == seq!['C', 'N', 'Z'] {
        Some(0xc4u8)
    } else if t == seq!['C', 'Z'] {
        Some(0xccu8)
    } else if t == seq!['C', 'N', 'C'] {
        Some(0xd4u8)
    } else if t == seq!['C', 'C'] {
        Some(0xdcu8)
    } else if t == seq!['C', 'P', 'O'] {
        Some(0xe4u8)
    } else if t == seq!['C', 'P', 'E'] {
        Some(0xecu8)
    } else if t == seq!['C', 'P'] {
        Some(0xf4u8)
    } else if t == seq!['C', 'M'] {
        Some(0xfcu8)
    } else if t == seq!['L', 'D', 'A'] {
        Some(0x3au8)
    } else if t == seq!['S', 'T', 'A'] {
        Some(0x32u8)
    } else if t == seq!['L', 'H', 'L', 'D'] {
        Some(0x2au8)
    } else if t == seq!['S', 'H', 'L', 'D'] {
        Some(0x22u8)
    } else {
        None
    }
}

fn reg_table(t: &Vec<char>) -> (r: Option<u8>)
    ensures
        r == reg_of(t@),
{
    if t.len() == 1 && t[0] == 'B' {
        assert(t@ =~= seq!['B']);
        return Some(0x00u8);
    }
    assert(t@ != seq!['B']) by {
        if t@ == seq!['B'] {
            assert(t@.len() == 1 && t@[0] == 'B');
        }
    }
    if t.len() == 1 && t[0] == 'C' {
        assert(t@ =~= seq!['C']);
        return Some(0x01u8);
    }
    assert(t@ != seq!['C']) by {
        if t@ == seq!['C'] {
            assert(t@.len() == 1 && t@[0] == 'C');
        }
    }
    if t.len() == 1 && t[0] == 'D' {
        assert(t@ =~= seq!['D']);
        return Some(0x02u8);
    }
    assert(t@ != seq!['D']) by {
        if t@ == seq!['D'] {
            assert(t@.len() == 1 && t@[0] == 'D');
        }
    }
    if t.len() == 1 && t[0] == 'E' {
        assert(t@ =~= seq!['E']);
        return Some(0x03u8);
    }
    assert(t@ != seq!['E']) by {
        if t@ == seq!['E'] {
            assert(t@.len() == 1 && t@[0] == 'E');
        }
    }
    if t.len() == 1 && t[0] == 'H' {
        assert(t@ =~= seq!['H']);
        return Some(0x04u8);
    }
    assert(t@ != seq!['H']) by {
        if t@ == seq!['H'] {
            assert(t@.len() == 1 && t@[0] == 'H');
        }
    }
    if t.len() == 1 && t[0] == 'L' {
        assert(t@ =~= seq!['L']);
        return Some(0x05u8);
    }
    assert(t@ != seq!['L']) by {
        if t@ == seq!['L'] {
            assert(t@.len() == 1 && t@[0] == 'L');
        }
    }
    if t.len() == 1 && t[0] == 'M' {
        assert(t@ =~= seq!['M']);
        return Some(0x06u8);
    }
    assert(t@ != seq!['M']) by {
        if t@ == seq!['M'] {
            assert(t@.len() == 1 && t@[0] == 'M');
        }
    }
    if t.len() == 1 && t[0] == 'A' {
        assert(t@ =~= seq!['A']);
        return Some(0x07u8);
    }
    assert(t@ != seq!['A']) by {
        if t@ == seq!['A'] {
            assert(t@.len() == 1 && t@[0] == 'A');
        }
    }
    None
}

fn rp_table(t: &Vec<char>) -> (r: Option<u8>)
    ensures
        r == rp_of(t@),
{
    if t.len() == 1 && t[0] == 'B' {
        assert(t@ =~= seq!['B']);
        return Some(0x00u8);
    }
    assert(t@ != seq!['B']) by {
        if t@ == seq!['B'] {
            assert(t@.len() == 1 && t@[0] == 'B');
        }
    }
    if chars_equal(t, &vec!['B', 'C']) {
        assert(t@ == seq!['B', 'C']);
        return Some(0x00u8);
    }
    if t.len() == 1 && t[0] == 'D' {
        assert(t@ =~= seq!['D']);
        return Some(0x01u8);
    }
    assert(t@ != seq!['D']) by {
        if t@ == seq!['D'] {
            assert(t@.len() == 1 && t@[0] == 'D');
        }
    }
    if chars_equal(t, &vec!['D', 'E']) {
        assert(t@ == seq!['D', 'E']);
        return Some(0x01u8);
    }
    if t.len() == 1 && t[0] == 'H' {
        assert(t@ =~= seq!['H']);
        return Some(0x02u8);
    }
    assert(t@ != seq!['H']) by {
        if t@ == seq!['H'] {
            assert(t@.len() == 1 && t@[0] == 'H');
        }
    }
    if chars_equal(t, &vec!['H', 'L']) {
        assert(t@ == seq!['H', 'L']);
        return Some(0x02u8);
    }
    if chars_equal(t, &vec!['S', 'P']) {
        assert(t@ == seq!['S', 'P']);
        return Some(0x03u8);
    }
    None
}

fn push_pop_table(t: &Vec<char>) -> (r: Option<u8>)
    ensures
        r == push_pop_of(t@),
{
    if t.len() == 1 && t[0] == 'B' {
        assert(t@ =~= seq!['B']);
        return Some(0x00u8);
    }
    assert(t@ != seq!['B']) by {
        if t@ == seq!['B'] {
            assert(t@.len() == 1 && t@[0] == 'B');
        }
    }
    if chars_equal(t, &vec!['B', 'C']) {
        assert(t@ == seq!['B', 'C']);
        return Some(0x00u8);
    }
    if t.len() == 1 && t[0] == 'D' {
        assert(t@ =~= seq!['D']);
        return Some(0x01u8);
    }
    assert(t@ != seq!['D']) by {
        if t@ == seq!['D'] {
            assert(t@.len() == 1 && t@[0] == 'D');
        }
    }
    if chars_equal(t, &vec!['D', 'E']) {
        assert(t@ == seq!['D', 'E']);
        return Some(0x01u8);
    }
    if t.len() == 1 && t[0] == 'H' {
        assert(t@ =~= seq!['H']);
        return Some(0x02u8);
    }
    assert(t@ != seq!['H']) by {
        if t@ == seq!['H'] {
            assert(t@.len() == 1 && t@[0] == 'H');
        }
    }
    if chars_equal(t, &vec!['H', 'L']) {
        assert(t@ == seq!['H', 'L']);
        return Some(0x02u8);
    }
    if chars_equal(t, &vec!['P', 'S', 'W']) {
        assert(t@ == seq!['P', 'S', 'W']);
        return Some(0x03u8);
    }
    if t.len() == 1 && t[0] == 'A' {
        assert(t@ =~= seq!['A']);
        return Some(0x03u8);
    }
    assert(t@ != seq!['A']) by {
        if t@ == seq!['A'] {
            assert(t@.len() == 1 && t@[0] == 'A');
        }
    }
    None
}

fn fixed_table(t: &Vec<char>) -> (r: Option<u8>)
    ensures
        r == fixed_opcode(t@),
{
    if chars_equal(t, &vec!['N', 'O', 'P']) {
        assert(t@ == seq!['N', 'O', 'P']);
        return Some(0x00u8);
    }
    if chars_equal(t, &vec!['H', 'L', 'T']) {
        assert(t@ == seq!['H', 'L', 'T']);
        return Some(0x76u8);
    }
    if chars_equal(t, &vec!['D', 'I']) {
        assert(t@ == seq!['D', 'I']);
        return Some(0xf3u8);
    }
    if chars_equal(t, &vec!['E', 'I']) {
        assert(t@ == seq!['E', 'I']);
        return Some(0xfbu8);
    }
    if chars_equal(t, &vec!['R', 'L', 'C']) {
        assert(t@ == seq!['R', 'L', 'C']);
        return Some(0x07u8);
    }
    if chars_equal(t, &vec!['R', 'R', 'C']) {
        assert(t@ == seq!['R', 'R', 'C']);
        return Some(0x0fu8);
    }
    if chars_equal(t, &vec!['R', 'A', 'L']) {
        assert(t@ == seq!['R', 'A', 'L']);
        return Some(0x17u8);
    }
    if chars_equal(t, &vec!['R', 'A', 'R']) {
        assert(t@ == seq!['R', 'A', 'R']);
        return Some(0x1fu8);
    }
    if chars_equal(t, &vec!['D', 'A', 'A']) {
        assert(t@ == seq!['D', 'A', 'A']);
        return Some(0x27u8);
    }
    if chars_equal(t, &vec!['C', 'M', 'A']) {
        assert(t@ == seq!['C', 'M', 'A']);
        return Some(0x2fu8);
    }
    if chars_equal(t, &vec!['S', 'T', 'C']) {
        assert(t@ == seq!['S', 'T', 'C']);
        return Some(0x37u8);
    }
    if chars_equal(t, &vec!['C', 'M', 'C']) {
        assert(t@ == seq!['C', 'M', 'C']);
        return Some(0x3fu8);
    }
    if chars_equal(t, &vec!['R', 'E', 'T']) {
        assert(t@ == seq!['R', 'E', 'T']);
        return Some(0xc9u8);
    }
    if chars_equal(t, &vec!['R', 'N', 'Z']) {
        assert(t@ == seq!['R', 'N', 'Z']);
        return Some(0xc0u8);
    }
    if chars_equal(t, &vec!['R', 'Z']) {
        assert(t@ == seq!['R', 'Z']);
        return Some(0xc8u8);
    }
    if chars_equal(t, &vec!['R', 'N', 'C']) {
        assert(t@ == seq!['R', 'N', 'C']);
        return Some(0xd0u8);
    }
    if chars_equal(t, &vec!['R', 'C']) {
        assert(t@ == seq!['R', 'C']);
        return Some(0xd8u8);
    }
    if chars_equal(t, &vec!['R', 'P', 'O']) {
        assert(t@ == seq!['R', 'P', 'O']);
        return Some(0xe0u8);
    }
    if chars_equal(t, &vec!['R', 'P', 'E']) {
        assert(t@ == seq!['R', 'P', 'E']);
        return Some(0xe8u8);
    }
    if chars_equal(t, &vec!['R', 'P']) {
        assert(t@ == seq!['R', 'P']);
        return Some(0xf0u8);
    }
    if chars_equal(t, &vec!['R', 'M']) {
        assert(t@ == seq!['R', 'M']);
        return Some(0xf8u8);
    }
    if chars_equal(t, &vec!['P', 'C', 'H', 'L']) {
        assert(t@ == seq!['P', 'C', 'H', 'L']);
        return Some(0xe9u8);
    }
    if chars_equal(t, &vec!['X', 'T', 'H', 'L']) {
        assert(t@ == seq!['X', 'T', 'H', 'L']);
        return Some(0xe3u8);
    }
    if chars_equal(t, &vec!['X', 'C', 'H', 'G']) {
        assert(t@ == seq!['X', 'C', 'H', 'G']);
        return Some(0xebu8);
    }
    if chars_equal(t, &vec!['S', 'P', 'H', 'L']) {
        assert(t@ == seq!['S', 'P', 'H', 'L']);
        return Some(0xf9u8);
    }
    if chars_equal(t, &vec!['R', 'I', 'M']) {
        assert(t@ == seq!['R', 'I', 'M']);
        return Some(0x20u8);
    }
    if chars_equal(t, &vec!['S', 'I', 'M']) {
        assert(t@ == seq!['S', 'I', 'M']);
        return Some(0x30u8);
    }
    None
}

fn alu_table(t: &Vec<char>) -> (r: Option<u8>)
    ensures
        r == alu_opcode(t@),
{
    if chars_equal(t, &vec!['A', 'D', 'D']) {
        assert(t@ == seq!['A', 'D', 'D']);
        return Some(0x80u8);
    }
    if chars_equal(t, &vec!['A', 'D', 'C']) {
        assert(t@ == seq!['A', 'D', 'C']);
        return Some(0x88u8);
    }
    if chars_equal(t, &vec!['S', 'U', 'B']) {
        assert(t@ == seq!['S', 'U', 'B']);
        return Some(0x90u8);
    }
    if chars_equal(t, &vec!['S', 'B', 'B']) {
        assert(t@ == seq!['S', 'B', 'B']);
        return Some(0x98u8);
    }
    if chars_equal(t, &vec!['A', 'N', 'A']) {
        assert(t@ == seq!['A', 'N', 'A']);
        return Some(0xa0u8);
    }
    if chars_equal(t, &vec!['X', 'R', 'A']) {
        assert(t@ == seq!['X', 'R', 'A']);
        return Some(0xa8u8);
    }
    if chars_equal(t, &vec!['O', 'R', 'A']) {
        assert(t@ == seq!['O', 'R', 'A']);
        return Some(0xb0u8);
    }
    if chars_equal(t, &vec!['C', 'M', 'P']) {
        assert(t@ == seq!['C', 'M', 'P']);
        return Some(0xb8u8);
    }
    None
}

fn imm8_table(t: &Vec<char>) -> (r: Option<u8>)
    ensures
        r == imm8_opcode(t@),
{
    if chars_equal(t, &vec!['A', 'D', 'I']) {
        assert(t@ == seq!['A', 'D', 'I']);
        return Some(0xc6u8);
    }
    if chars_equal(t, &vec!['A', 'C', 'I']) {
        assert(t@ == seq!['A', 'C', 'I']);
        return Some(0xceu8);
    }
    if chars_equal(t, &vec!['S', 'U', 'I']) {
        assert(t@ == seq!['S', 'U', 'I']);
        return Some(0xd6u8);
    }
    if chars_equal(t, &vec!['S', 'B', 'I']) {
        assert(t@ == seq!['S', 'B', 'I']);
        return Some(0xdeu8);
    }
    if chars_equal(t, &vec!['A', 'N', 'I']) {
        assert(t@ == seq!['A', 'N', 'I']);
        return Some(0xe6u8);
    }
    if chars_equal(t, &vec!['X', 'R', 'I']) {
        assert(t@ == seq!['X', 'R', 'I']);
        return Some(0xeeu8);
    }
    if chars_equal(t, &vec!['O', 'R', 'I']) {
        assert(t@ == seq!['O', 'R', 'I']);
        return Some(0xf6u8);
    }
    if chars_equal(t, &vec!['C', 'P', 'I']) {
        assert(t@ == seq!['C', 'P', 'I']);
        return Some(0xfeu8);
    }
    if chars_equal(t, &vec!['I', 'N']) {
        assert(t@ == seq!['I', 'N']);
        return Some(0xdbu8);
    }
    if chars_equal(t, &vec!['O', 'U', 'T']) {
        assert(t@ == seq!['O', 'U', 'T']);
        return Some(0xd3u8);
    }
    None
}

fn imm16_table(t: &Vec<char>) -> (r: Option<u8>)
    ensures
        r == imm16_opcode(t@),
{
    if chars_equal(t, &vec!['J', 'M', 'P']) {
        assert(t@ == seq!['J', 'M', 'P']);
        return Some(0xc3u8);
    }
    if chars_equal(t, &vec!['J', 'N', 'Z']) {
        assert(t@ == seq!['J', 'N', 'Z']);
        return Some(0xc2u8);
    }
    if chars_equal(t, &vec!['J', 'Z']) {
        assert(t@ == seq!['J', 'Z']);
        return Some(0xcau8);
    }
    if chars_equal(t, &vec!['J', 'N', 'C']) {
        assert(t@ == seq!['J', 'N', 'C']);
        return Some(0xd2u8);
    }
    if chars_equal(t, &vec!['J', 'C']) {
        assert(t@ == seq!['J', 'C']);
        return Some(0xdau8);
    }
    if chars_equal(t, &vec!['J', 'P', 'O']) {
        assert(t@ == seq!['J', 'P', 'O']);
        return Some(0xe2u8);
    }
    if chars_equal(t, &vec!['J', 'P', 'E']) {
        assert(t@ == seq!['J', 'P', 'E']);
        return Some(0xeau8);
    }
    if chars_equal(t, &vec!['J', 'P']) {
        assert(t@ == seq!['J', 'P']);
        return Some(0xf2u8);
    }
    if chars_equal(t, &vec!['J', 'M']) {
        assert(t@ == seq!['J', 'M']);
        return Some(0xfau8);
    }
    if chars_equal(t, &vec!['C', 'A', 'L', 'L']) {
        assert(t@ == seq!['C', 'A', 'L', 'L']);
        return Some(0xcdu8);
    }
    if chars_equal(t, &vec!['C', 'N', 'Z']) {
        assert(t@ == seq!['C', 'N', 'Z']);
        return Some(0xc4u8);
    }
    if chars_equal(t, &vec!['C', 'Z']) {
        assert(t@ == seq!['C', 'Z']);
        return Some(0xccu8);
    }
    if chars_equal(t, &vec!['C', 'N', 'C']) {
        assert(t@ == seq!['C', 'N', 'C']);
        return Some(0xd4u8);
    }
    if chars_equal(t, &vec!['C', 'C']) {
        assert(t@ == seq!['C', 'C']);
        return Some(0xdcu8);
    }
    if chars_equal(t, &vec!['C', 'P', 'O']) {
        assert(t@ == seq!['C', 'P', 'O']);
        return Some(0xe4u8);
    }
    if chars_equal(t, &vec!['C', 'P', 'E']) {
        assert(t@ == seq!['C', 'P', 'E']);
        return Some(0xecu8);
    }
    if chars_equal(t, &vec!['C', 'P']) {
        assert(t@ == seq!['C', 'P']);
        return Some(0xf4u8);
    }
    if chars_equal(t, &vec!['C', 'M']) {
        assert(t@ == seq!['C', 'M']);
        return Some(0xfcu8);
    }
    if chars_equal(t, &vec!['L', 'D', 'A']) {
        assert(t@ == seq!['L', 'D', 'A']);
        return Some(0x3au8);
    }
    if chars_equal(t, &vec!['S', 'T', 'A']) {
        assert(t@ == seq!['S', 'T', 'A']);
        return Some(0x32u8);
    }
    if chars_equal(t, &vec!['L', 'H', 'L', 'D']) {
        assert(t@ == seq!['L', 'H', 'L', 'D']);
        return Some(0x2au8);
    }
    if chars_equal(t, &vec!['S', 'H', 'L', 'D']) {
        assert(t@ == seq!['S', 'H', 'L', 'D']);
        return Some(0x22u8);
    }
    None
}

/// The number of a register operand (`reg_code`).
pub fn reg_code(reg: &str) -> (r: Option<u8>)
    ensures
        r == reg_of(norm(reg@)),
{
    reg_table(&norm_chars(reg))
}

/// The number of a register-pair operand (`rp_code`).
pub fn rp_code(rp: &str) -> (r: Option<u8>)
    ensures
        r == rp_of(norm(rp@)),
{
    rp_table(&norm_chars(rp))
}

/// The number of a `PUSH`/`POP` operand (`push_pop_code`).
pub fn push_pop_code(rp: &str) -> (r: Option<u8>)
    ensures
        r == push_pop_of(norm(rp@)),
{
    push_pop_table(&norm_chars(rp))
}

/// The low byte of a 16-bit value.
pub open spec fn lo(v: int) -> u8 {
    (v % 256) as u8
}

/// The high byte of a 16-bit value.
pub open spec fn hi(v: int) -> u8 {
    ((v / 256) % 256) as u8
}

/// An opcode followed by a 16-bit operand, low byte first (`encode_imm16`).
pub fn encode_imm16(op: u8, value: u16) -> (r: Vec<u8>)
    ensures
        r@ == seq![op, lo(value as int), hi(value as int)],
{
    let l: u8 = (value & 0xFF) as u8;
    let h: u8 = (value >> 8) as u8;
    assert(l == lo(value as int)) by {
        assert((value & 0xFF) == value % 256) by (bit_vector);
    }
    assert(h == hi(value as int)) by {
        assert((value >> 8) == value / 256) by (bit_vector);
    }
    let r: Vec<u8> = vec![op, l, h];
    r
}

/// The register number of operand `i`, 0 when absent or not a register.
pub open spec fn reg_arg(args: Seq<Seq<char>>, i: int) -> int {
    if 0 <= i < args.len() {
        match reg_of(norm(args[i])) {
            Some(r) => r as int,
            None => 0,
        }
    } else {
        0
    }
}

/// The register-pair number of operand `i`, 0 when absent or not a pair.
pub open spec fn rp_arg(args: Seq<Seq<char>>, i: int) -> int {
    if 0 <= i < args.len() {
        match rp_of(norm(args[i])) {
            Some(r) => r as int,
            None => 0,
        }
    } else {
        0
    }
}

/// The `PUSH`/`POP` pair number of operand `i`, 0 when absent or unknown.
pub open spec fn pp_arg(args: Seq<Seq<char>>, i: int) -> int {
    if 0 <= i < args.len() {
        match push_pop_of(norm(args[i])) {
            Some(r) => r as int,
            None => 0,
        }
    } else {
        0
    }
}

/// The value of operand `i` as an expression, 0 when absent or without
/// a value.
pub open spec fn imm_arg(args: Seq<Seq<char>>, i: int, labels: Map<Seq<char>, u16>, pc: u16) -> int {
    if 0 <= i < args.len() {
        match expr_value(args[i], labels, pc) {
            Some(v) => v,
            None => 0,
        }
    } else {
        0
    }
}

/// `LDAX`/`STAX` address the pair of `D` for `D`/`DE`, otherwise `B`.
pub open spec fn is_de(args: Seq<Seq<char>>) -> bool {
    args.len() > 0 && (norm(args[0]) == seq!['D'] || norm(args[0]) == seq!['D', 'E'])
}

/// The bytes of an instruction (`encode_8080_instruction`); an unknown
/// mnemonic has none.
pub open spec fn encoding(op: Seq<char>, args: Seq<Seq<char>>, labels: Map<Seq<char>, u16>, pc: u16) -> Seq<u8> {
    if fixed_opcode(op) is Some {
        seq![fixed_opcode(op).unwrap()]
    } else if op == seq!['M', 'O', 'V'] {
        seq![(0x40 + reg_arg(args, 0) * 8 + reg_arg(args, 1)) as u8]
    } else if op == seq!['M', 'V', 'I'] {
        seq![(0x06 + reg_arg(args, 0) * 8) as u8, lo(imm_arg(args, 1, labels, pc))]
    } else if op == seq!['I', 'N', 'R'] {
        seq![(0x04 + reg_arg(args, 0) * 8) as u8]
    } else if op == seq!['D', 'C', 'R'] {
        seq![(0x05 + reg_arg(args, 0) * 8) as u8]
    } else if alu_opcode(op) is Some {
        seq![(alu_opcode(op).unwrap() + reg_arg(args, 0)) as u8]
    } else if op == seq!['L', 'X', 'I'] {
        seq![(0x01 + rp_arg(args, 0) * 16) as u8, lo(imm_arg(args, 1, labels, pc)), hi(imm_arg(args, 1, labels, pc))]
    } else if op == seq!['I', 'N', 'X'] {
        seq![(0x03 + rp_arg(args, 0) * 16) as u8]
    } else if op == seq!['D', 'C', 'X'] {
        seq![(0x0B + rp_arg(args, 0) * 16) as u8]
    } else if op == seq!['D', 'A', 'D'] {
        seq![(0x09 + rp_arg(args, 0) * 16) as u8]
    } else if op == seq!['L', 'D', 'A', 'X'] {
        seq![if is_de(args) { 0x1Au8 } else { 0x0Au8 }]
    } else if op == seq!['S', 'T', 'A', 'X'] {
        seq![if is_de(args) { 0x12u8 } else { 0x02u8 }]
    } else if op == seq!['P', 'U', 'S', 'H'] {
        seq![(0xC5 + pp_arg(args, 0) * 16) as u8]
    } else if op == seq!['P', 'O', 'P'] {
        seq![(0xC1 + pp_arg(args, 0) * 16) as u8]
    } else if imm8_opcode(op) is Some {
        seq![imm8_opcode(op).unwrap(), lo(imm_arg(args, 0, labels, pc))]
    } else if imm16_opcode(op) is Some {
        seq![imm16_opcode(op).unwrap(), lo(imm_arg(args, 0, labels, pc)), hi(imm_arg(args, 0, labels, pc))]
    } else if op == seq!['R', 'S', 'T'] {
        seq![(0xC7 + (imm_arg(args, 0, labels, pc) % 8) * 8) as u8]
    } else {
        Seq::empty()
    }
}

fn reg_at(args: &Vec<String>, i: usize) -> (r: u8)
    ensures
        r as int == reg_arg(args@.map_values(|s: String| s@), i as int),
        r <= 7,
{
    if i < args.len() {
        match reg_code(args[i].as_str()) {
            Some(c) => c,
            None => 0,
        }
    } else {
        0
    }
}

fn rp_at(args: &Vec<String>, i: usize) -> (r: u8)
    ensures
        r as int == rp_arg(args@.map_values(|s: String| s@), i as int),
        r <= 3,
{
    if i < args.len() {
        match rp_code(args[i].as_str()) {
            Some(c) => c,
            None => 0,
        }
    } else {
        0
    }
}

fn pp_at(args: &Vec<String>, i: usize) -> (r: u8)
    ensures
        r as int == pp_arg(args@.map_values(|s: String| s@), i as int),
        r <= 3,
{
    if i < args.len() {
        match push_pop_code(args[i].as_str()) {
            Some(c) => c,
            None => 0,
        }
    } else {
        0
    }
}

fn imm_at(args: &Vec<String>, i: usize, labels: &AssocMap<String, u16>, pc: u16) -> (r: u16)
    requires
        labels.wf(),
    ensures
        r as int == imm_arg(args@.map_values(|s: String| s@), i as int, labels@, pc),
{
    if i < args.len() {
        proof {
            crate::emit::expr::lemma_expr_range(args@[i as int]@, labels@, pc);
        }
        match eval_expr(args[i].as_str(), labels, pc) {
            Some(v) => v,
            None => 0,
        }
    } else {
        0
    }
}

fn low_byte(v: u16) -> (r: u8)
    ensures
        r == lo(v as int),
{
    assert((v & 0xFF) == v % 256) by (bit_vector);
    (v & 0xFF) as u8
}

fn is_de_exec(args: &Vec<String>) -> (r: bool)
    ensures
        r == is_de(args@.map_values(|s: String| s@)),
{
    if args.len() == 0 {
        return false;
    }
    let t = norm_chars(args[0].as_str());
    assert(args@.map_values(|s: String| s@)[0] == args@[0]@);
    let a = t.len() == 1 && t[0] == 'D';
    assert(a ==> t@ =~= seq!['D']);
    assert(t@ == seq!['D'] ==> t@.len() == 1 && t@[0] == 'D');
    let b = chars_equal(&t, &vec!['D', 'E']);
    assert(a == (t@ == seq!['D']));
    assert(b == (t@ == seq!['D', 'E']));
    a || b
}

/// The bytes of one instruction (`encode_8080_instruction`), operands
/// evaluated at address `pc`.
#[verifier::rlimit(60)]
pub fn encode_8080_instruction(op: &str, args: &Vec<String>, labels: &AssocMap<String, u16>, pc: u16) -> (r: Vec<u8>)
    requires
        labels.wf(),
    ensures
        r@ == encoding(op@, args@.map_values(|s: String| s@), labels@, pc),
{
    let o = chars_of(op);
    match fixed_table(&o) {
        Some(b) => {
            return vec![b];
        },
        None => {},
    }
    if chars_equal(&o, &vec!['M', 'O', 'V']) {
        let d = reg_at(args, 0);
        let s = reg_at(args, 1);
        return vec![0x40 + d * 8 + s];
    }
    if chars_equal(&o, &vec!['M', 'V', 'I']) {
        let d = reg_at(args, 0);
        let v = imm_at(args, 1, labels, pc);
        return vec![0x06 + d * 8, low_byte(v)];
    }
    if chars_equal(&o, &vec!['I', 'N', 'R']) {
        let d = reg_at(args, 0);
        return vec![0x04 + d * 8];
    }
    if chars_equal(&o, &vec!['D', 'C', 'R']) {
        let d = reg_at(args, 0);
        return vec![0x05 + d * 8];
    }
    match alu_table(&o) {
        Some(b) => {
            let d = reg_at(args, 0);
            return vec![b + d];
        },
        None => {},
    }
    if chars_equal(&o, &vec!['L', 'X', 'I']) {
        let p = rp_at(args, 0);
        let v = imm_at(args, 1, labels, pc);
        return encode_imm16(0x01 + p * 0x10, v);
    }
    if chars_equal(&o, &vec!['I', 'N', 'X']) {
        let p = rp_at(args, 0);
        return vec![0x03 + p * 0x10];
    }
    if chars_equal(&o, &vec!['D', 'C', 'X']) {
        let p = rp_at(args, 0);
        return vec![0x0B + p * 0x10];
    }
    if chars_equal(&o, &vec!['D', 'A', 'D']) {
        let p = rp_at(args, 0);
        return vec![0x09 + p * 0x10];
    }
    if chars_equal(&o, &vec!['L', 'D', 'A', 'X']) {
        return vec![if is_de_exec(args) { 0x1A } else { 0x0A }];
    }
    if chars_equal(&o, &vec!['S', 'T', 'A', 'X']) {
        return vec![if is_de_exec(args) { 0x12 } else { 0x02 }];
    }
    if chars_equal(&o, &vec!['P', 'U', 'S', 'H']) {
        let p = pp_at(args, 0);
        return vec![0xC5 + p * 0x10];
    }
    if chars_equal(&o, &vec!['P', 'O', 'P']) {
        let p = pp_at(args, 0);
        return vec![0xC1 + p * 0x10];
    }
    match imm8_table(&o) {
        Some(b) => {
            let v = imm_at(args, 0, labels, pc);
            return vec![b, low_byte(v)];
        },
        None => {},
    }
    match imm16_table(&o) {
        Some(b) => {
            let v = imm_at(args, 0, labels, pc);
            return encode_imm16(b, v);
        },
        None => {},
    }
    if chars_equal(&o, &vec!['R', 'S', 'T']) {
        let v = imm_at(args, 0, labels, pc);
        let n: u8 = (v & 0x7) as u8;
        assert((v & 0x7) == v % 8) by (bit_vector);
        assert(n < 8 ==> (n << 3) == n * 8) by (bit_vector);
        return vec![0xC7 + (n << 3)];
    }
    Vec::new()
}

} // verus!
