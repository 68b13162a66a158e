//! Analyses and tables of the code generator that stand on their own: the
//! last read of each vreg, whether inline assembly ends a function, the
//! branches of fused compare-immediate tests and the soft-float helpers.

use vstd::prelude::*;

use crate::emit::chars::{chars_equal, slice, trim, trim_chars, upper_chars, upper_seq};
use crate::emit::listing::{find_ws, first_ws};
use crate::ir::{IrFunction, IrInstr, IrOp};
use crate::maps::AssocMap;
use crate::opt::memory::chars_of;
use crate::opt::ops::{collect_src_vregs, ids_of, op_srcs};

verus! {

/// The ids of the vregs an operation reads (`collect_op_src_ids`).
pub fn collect_op_src_ids(op: &IrOp) -> (r: Vec<u32>)
    ensures
        r@ == ids_of(op_srcs(*op)),
{
    collect_src_vregs(op)
}

/// Instruction `k` reads vreg `id`.
pub open spec fn reads_at(body: Seq<IrInstr>, k: int, id: u32) -> bool {
    ids_of(op_srcs(body[k].op)).contains(id)
}

/// The position of the last instruction that reads each vreg
/// (`compute_last_use`).
pub fn compute_last_use(body: &Vec<IrInstr>) -> (r: AssocMap<u32, usize>)
    ensures
        r.wf(),
        forall|id: u32| #[trigger] r@.contains_key(id) <==> exists|k: int| 0 <= k < body@.len() && #[trigger] reads_at(body@, k, id),
        forall|id: u32| #[trigger] r@.contains_key(id) ==> r@[id] < body@.len() && reads_at(body@, r@[id] as int, id)
            && forall|k: int| r@[id] < k < body@.len() ==> !#[trigger] reads_at(body@, k, id),
{
    let mut last: AssocMap<u32, usize> = AssocMap::new();
    let mut idx: usize = 0;
    while idx < body.len()
        invariant
            idx <= body@.len(),
            last.wf(),
            forall|id: u32| #[trigger] last@.contains_key(id) <==> exists|k: int| 0 <= k < idx && #[trigger] reads_at(body@, k, id),
            forall|id: u32| #[trigger] last@.contains_key(id) ==> last@[id] < idx && reads_at(body@, last@[id] as int, id)
                && forall|k: int| last@[id] < k < idx ==> !#[trigger] reads_at(body@, k, id),
        decreases body@.len() - idx,
    {
        let ids = collect_op_src_ids(&body[idx].op);
        let ghost before = last@;
        let mut j: usize = 0;
        while j < ids.len()
            invariant
                idx < body@.len(),
                j <= ids@.len(),
                ids@ == ids_of(op_srcs(body@[idx as int].op)),
                last.wf(),
                forall|id: u32| #[trigger] last@.contains_key(id) <==> before.contains_key(id)
                    || exists|t: int| 0 <= t < j && ids@[t] == id,
                forall|id: u32| #[trigger] last@.contains_key(id) && (exists|t: int| 0 <= t < j && ids@[t] == id)
                    ==> last@[id] == idx,
                forall|id: u32| #[trigger] last@.contains_key(id) && !(exists|t: int| 0 <= t < j && ids@[t] == id)
                    ==> last@[id] == before[id],
            decreases ids@.len() - j,
        {
            let ghost l0 = last@;
            last.insert(ids[j], idx);
            proof {
                assert forall|id: u32| #[trigger] last@.contains_key(id) <==> before.contains_key(id)
                    || exists|t: int| 0 <= t < j + 1 && ids@[t] == id by {
                    if exists|t: int| 0 <= t < j + 1 && ids@[t] == id {
                        let t = choose|t: int| 0 <= t < j + 1 && ids@[t] == id;
                        if t < j {
                            assert(l0.contains_key(id));
                        }
                    }
                    if l0.contains_key(id) && id != ids@[j as int] {
                        if !before.contains_key(id) {
                            let t = choose|t: int| 0 <= t < j && ids@[t] == id;
                        }
                    }
                }
                assert forall|id: u32| #[trigger] last@.contains_key(id) && (exists|t: int| 0 <= t < j + 1 && ids@[t] == id)
                    implies last@[id] == idx by {
                    let t = choose|t: int| 0 <= t < j + 1 && ids@[t] == id;
                    if id != ids@[j as int] {
                        assert(t < j);
                    }
                }
                assert forall|id: u32| #[trigger] last@.contains_key(id) && !(exists|t: int| 0 <= t < j + 1 && ids@[t] == id)
                    implies last@[id] == before[id] by {
                    assert(id != ids@[j as int]);
                    assert(!(exists|t: int| 0 <= t < j && ids@[t] == id)) by {
                        if exists|t: int| 0 <= t < j && ids@[t] == id {
                            let t = choose|t: int| 0 <= t < j && ids@[t] == id;
                            assert(0 <= t < j + 1 && ids@[t] == id);
                        }
                    }
                }
            }
            j += 1;
        }
        proof {
            assert forall|id: u32| #[trigger] last@.contains_key(id) <==> exists|k: int| 0 <= k < idx + 1 && #[trigger] reads_at(body@, k, id) by {
                if reads_at(body@, idx as int, id) {
                    let t = choose|t: int| 0 <= t < ids@.len() && ids@[t] == id;
                }
                if last@.contains_key(id) && !before.contains_key(id) {
                    let t = choose|t: int| 0 <= t < ids@.len() && ids@[t] == id;
                    assert(ids@.contains(id));
                    assert(reads_at(body@, idx as int, id));
                }
                if exists|k: int| 0 <= k < idx + 1 && #[trigger] reads_at(body@, k, id) {
                    let k = choose|k: int| 0 <= k < idx + 1 && #[trigger] reads_at(body@, k, id);
                    if k < idx {
                        assert(before.contains_key(id));
                    } else {
                        let t = choose|t: int| 0 <= t < ids@.len() && ids@[t] == id;
                    }
                }
            }
            assert forall|id: u32| #[trigger] last@.contains_key(id) implies last@[id] < idx + 1 && reads_at(body@, last@[id] as int, id)
                && forall|k: int| last@[id] < k < idx + 1 ==> !#[trigger] reads_at(body@, k, id) by {
                if exists|t: int| 0 <= t < ids@.len() && ids@[t] == id {
                    let t = choose|t: int| 0 <= t < ids@.len() && ids@[t] == id;
                    assert(ids@.contains(id));
                } else {
                    assert(!ids@.contains(id));
                    assert(before.contains_key(id));
                }
            }
        }
        idx += 1;
    }
    last
}

/// The position of the last occurrence of `c` in `s`, or `-1`.
pub open spec fn last_index(s: Seq<char>, c: char) -> int
    decreases s.len(),
{
    if s.len() == 0 {
        -1
    } else if s.last() == c {
        s.len() - 1
    } else {
        last_index(s.drop_last(), c)
    }
}

/// The position of the first occurrence of `c` in `s`, or its length.
pub open spec fn first_of(s: Seq<char>, c: char) -> int
    decreases s.len(),
{
    if s.len() == 0 {
        0
    } else if s[0] == c {
        0
    } else {
        1 + first_of(s.drop_first(), c)
    }
}

/// The mnemonic of an assembly line: its first word before any `;`, in
/// upper case, if it has one.
pub open spec fn line_mnemonic(line: Seq<char>) -> Option<Seq<char>> {
    let t = trim(line.take(first_of(line, ';')));
    if t.len() == 0 {
        None
    } else {
        Some(upper_seq(t.take(first_ws(t))))
    }
}

/// The mnemonic of the last line of `code` (lines end at `\n`) that has one.
pub open spec fn last_mnemonic(code: Seq<char>) -> Option<Seq<char>>
    decreases code.len(),
{
    let k = last_index(code, '\n');
    match line_mnemonic(code.skip(k + 1)) {
        Some(m) => Some(m),
        None => if k < 0 || k >= code.len() {
            None
        } else {
            last_mnemonic(code.take(k))
        },
    }
}

/// The mnemonics after which control does not fall through.
pub open spec fn is_control_transfer(m: Seq<char>) -> bool {
    m == seq!['R', 'E', 'T'] || m == seq!['R', 'Z'] || m == seq!['R', 'N', 'Z'] || m == seq!['R', 'C'] || m == seq![
        'R',
        'N',
        'C',
    ] || m == seq!['R', 'P'] || m == seq!['R', 'M'] || m == seq!['R', 'P', 'E'] || m == seq!['R', 'P', 'O'] || m
        == seq!['J', 'M', 'P'] || m == seq!['P', 'C', 'H', 'L']
}

/// Among the first `n` instructions, the last inline assembly with an
/// instruction in it ends with a control transfer.
pub open spec fn asm_ends_control(body: Seq<IrInstr>, n: int) -> bool
    decreases n,
{
    if n <= 0 {
        false
    } else {
        match body[n - 1].op {
            IrOp::InlineAsm { code, .. } => match last_mnemonic(code@) {
                Some(m) => is_control_transfer(m),
                None => asm_ends_control(body, n - 1),
            },
            _ => asm_ends_control(body, n - 1),
        }
    }
}

proof fn lemma_last_index(s: Seq<char>, c: char)
    ensures
        -1 <= last_index(s, c) < s.len(),
        last_index(s, c) >= 0 ==> s[last_index(s, c)] == c,
        forall|k: int| last_index(s, c) < k < s.len() ==> s[k] != c,
    decreases s.len(),
{
    if s.len() > 0 && s.last() != c {
        lemma_last_index(s.drop_last(), c);
        assert forall|k: int| last_index(s, c) < k < s.len() implies s[k] != c by {
            if k < s.len() - 1 {
                assert(s.drop_last()[k] == s[k]);
            }
        }
    }
}

proof fn lemma_first_of(s: Seq<char>, c: char)
    ensures
        0 <= first_of(s, c) <= s.len(),
        forall|k: int| 0 <= k < first_of(s, c) ==> s[k] != c,
        first_of(s, c) < s.len() ==> s[first_of(s, c)] == c,
    decreases s.len(),
{
    if s.len() > 0 && s[0] != c {
        lemma_first_of(s.drop_first(), c);
        assert forall|k: int| 0 <= k < first_of(s, c) implies s[k] != c by {
            if k > 0 {
                assert(s.drop_first()[k - 1] == s[k]);
            }
        }
    }
}

fn line_mnemonic_of(code: &Vec<char>, from: usize, to: usize) -> (r: Option<Vec<char>>)
    requires
        from <= to <= code@.len(),
    ensures
        match r {
            Some(m) => line_mnemonic(code@.subrange(from as int, to as int)) == Some(m@),
            None => line_mnemonic(code@.subrange(from as int, to as int)) is None,
        },
{
    let line = slice(code, from, to);
    proof {
        lemma_first_of(line@, ';');
    }
    let mut e: usize = 0;
    while e < line.len() && line[e] != ';'
        invariant
            e <= line@.len(),
            forall|k: int| 0 <= k < e ==> line@[k] != ';',
        decreases line@.len() - e,
    {
        e += 1;
    }
    assert(e == first_of(line@, ';')) by {
        if e < first_of(line@, ';') {
            assert(line@[e as int] == ';');
        }
        if e > first_of(line@, ';') {
            assert(line@[first_of(line@, ';')] != ';');
        }
    }
    let head = slice(&line, 0, e);
    let t = trim_chars(&head);
    proof {
        assert(line@.take(e as int) =~= head@);
    }
    if t.len() == 0 {
        return None;
    }
    let k = find_ws(&t);
    let word = slice(&t, 0, k);
    proof {
        assert(t@.take(k as int) =~= word@);
    }
    Some(upper_chars(&word))
}

fn word_is(s: &Vec<char>, w: &str) -> (r: bool)
    ensures
        r == (s@ == w@),
{
    let wc = chars_of(w);
    chars_equal(s, &wc)
}

fn is_control_mnemonic(m: &Vec<char>) -> (r: bool)
    ensures
        r == is_control_transfer(m@),
{
    proof {
        reveal_strlit("RET");
        reveal_strlit("RZ");
        reveal_strlit("RNZ");
        reveal_strlit("RC");
        reveal_strlit("RNC");
        reveal_strlit("RP");
        reveal_strlit("RM");
        reveal_strlit("RPE");
        reveal_strlit("RPO");
        reveal_strlit("JMP");
        reveal_strlit("PCHL");
        assert("RET"@ =~= seq!['R', 'E', 'T']);
        assert("RZ"@ =~= seq!['R', 'Z']);
        assert("RNZ"@ =~= seq!['R', 'N', 'Z']);
        assert("RC"@ =~= seq!['R', 'C']);
        assert("RNC"@ =~= seq!['R', 'N', 'C']);
        assert("RP"@ =~= seq!['R', 'P']);
        assert("RM"@ =~= seq!['R', 'M']);
        assert("RPE"@ =~= seq!['R', 'P', 'E']);
        assert("RPO"@ =~= seq!['R', 'P', 'O']);
        assert("JMP"@ =~= seq!['J', 'M', 'P']);
        assert("PCHL"@ =~= seq!['P', 'C', 'H', 'L']);
    }
    word_is(m, "RET") || word_is(m, "RZ") || word_is(m, "RNZ") || word_is(m, "RC") || word_is(m, "RNC")
        || word_is(m, "RP") || word_is(m, "RM") || word_is(m, "RPE") || word_is(m, "RPO") || word_is(m, "JMP")
        || word_is(m, "PCHL")
}

fn last_mnemonic_of(code: &Vec<char>) -> (r: Option<Vec<char>>)
    ensures
        match r {
            Some(m) => last_mnemonic(code@) == Some(m@),
            None => last_mnemonic(code@) is None,
        },
{
    let mut end: usize = code.len();
    proof {
        assert(code@.take(end as int) =~= code@);
    }
    loop
        invariant
            end <= code@.len(),
            last_mnemonic(code@) == last_mnemonic(code@.take(end as int)),
        decreases end,
    {
        let ghost s = code@.take(end as int);
        proof {
            lemma_last_index(s, '\n');
        }
        let mut k: usize = end;
        while k > 0 && code[k - 1] != '\n'
            invariant
                k <= end <= code@.len(),
                s == code@.take(end as int),
                forall|j: int| k <= j < end ==> code@[j] != '\n',
            decreases k,
        {
            k -= 1;
        }
        // `k - 1` is the last newline before `end`, if `k > 0`.
        assert(last_index(s, '\n') == k - 1) by {
            if last_index(s, '\n') > k - 1 {
                assert(s[last_index(s, '\n')] == '\n');
            }
            if last_index(s, '\n') < k - 1 {
                assert(s[k - 1] == '\n');
            }
        }
        proof {
            assert(s.skip(k as int) =~= code@.subrange(k as int, end as int));
        }
        match line_mnemonic_of(code, k, end) {
            Some(m) => {
                return Some(m);
            },
            None => {
                if k == 0 {
                    return None;
                }
                proof {
                    assert(s.take(k - 1) =~= code@.take(k - 1));
                }
                end = k - 1;
            },
        }
    }
}

/// Whether the last inline assembly of the function that has an
/// instruction in it ends with a return, a jump or `PCHL`
/// (`asm_ends_with_control_flow`).
pub fn asm_ends_with_control_flow(func: &IrFunction) -> (r: bool)
    ensures
        r == asm_ends_control(func.body@, func.body@.len() as int),
{
    let mut i: usize = func.body.len();
    while i > 0
        invariant
            i <= func.body@.len(),
            asm_ends_control(func.body@, func.body@.len() as int) == asm_ends_control(func.body@, i as int),
        decreases i,
    {
        match &func.body[i - 1].op {
            IrOp::InlineAsm { code, .. } => {
                let cs = chars_of(code.as_str());
                match last_mnemonic_of(&cs) {
                    Some(m) => {
                        return is_control_mnemonic(&m);
                    },
                    None => {},
                }
            },
            _ => {},
        }
        i -= 1;
    }
    false
}

/// The jump taken when a fused compare-immediate test of the given kind
/// holds: the carry flag for the ordering tests, none for the two that
/// need two branches.
pub open spec fn cpi_true(kind: Seq<char>) -> Option<Seq<char>> {
    if kind == seq!['e', 'q'] {
        Some(seq!['J', 'Z'])
    } else if kind == seq!['n', 'e'] {
        Some(seq!['J', 'N', 'Z'])
    } else if kind == seq!['l', 't'] {
        Some(seq!['J', 'C'])
    } else if kind == seq!['g', 'e'] {
        Some(seq!['J', 'N', 'C'])
    } else {
        None
    }
}

/// The jump taken when a fused compare-immediate test of the given kind
/// fails.
pub open spec fn cpi_false(kind: Seq<char>) -> Option<Seq<char>> {
    if kind == seq!['e', 'q'] {
        Some(seq!['J', 'N', 'Z'])
    } else if kind == seq!['n', 'e'] {
        Some(seq!['J', 'Z'])
    } else if kind == seq!['l', 't'] {
        Some(seq!['J', 'N', 'C'])
    } else if kind == seq!['g', 'e'] {
        Some(seq!['J', 'C'])
    } else {
        None
    }
}

proof fn lemma_kind_words()
    ensures
        "eq"@ == seq!['e', 'q'],
        "ne"@ == seq!['n', 'e'],
        "lt"@ == seq!['l', 't'],
        "ge"@ == seq!['g', 'e'],
        "JZ"@ == seq!['J', 'Z'],
        "JNZ"@ == seq!['J', 'N', 'Z'],
        "JC"@ == seq!['J', 'C'],
        "JNC"@ == seq!['J', 'N', 'C'],
{
    reveal_strlit("eq");
    reveal_strlit("ne");
    reveal_strlit("lt");
    reveal_strlit("ge");
    reveal_strlit("JZ");
    reveal_strlit("JNZ");
    reveal_strlit("JC");
    reveal_strlit("JNC");
    assert("eq"@ =~= seq!['e', 'q']);
    assert("ne"@ =~= seq!['n', 'e']);
    assert("lt"@ =~= seq!['l', 't']);
    assert("ge"@ =~= seq!['g', 'e']);
    assert("JZ"@ =~= seq!['J', 'Z']);
    assert("JNZ"@ =~= seq!['J', 'N', 'Z']);
    assert("JC"@ =~= seq!['J', 'C']);
    assert("JNC"@ =~= seq!['J', 'N', 'C']);
}

/// The branch for a fused compare-immediate test that holds
/// (`cpi_branch_true`); the signedness does not matter.
pub fn cpi_branch_true(kind: &str, _signed: bool) -> (r: Option<&'static str>)
    ensures
        match r {
            Some(s) => cpi_true(kind@) == Some(s@),
            None => cpi_true(kind@) is None,
        },
{
    proof {
        lemma_kind_words();
    }
    let k = chars_of(kind);
    if word_is(&k, "eq") {
        Some("JZ")
    } else if word_is(&k, "ne") {
        Some("JNZ")
    } else if word_is(&k, "lt") {
        Some("JC")
    } else if word_is(&k, "ge") {
        Some("JNC")
    } else {
        None
    }
}

/// The branch for a fused compare-immediate test that fails
/// (`cpi_branch_false`); the signedness does not matter.
pub fn cpi_branch_false(kind: &str, _signed: bool) -> (r: Option<&'static str>)
    ensures
        match r {
            Some(s) => cpi_false(kind@) == Some(s@),
            None => cpi_false(kind@) is None,
        },
{
    proof {
        lemma_kind_words();
    }
    let k = chars_of(kind);
    if word_is(&k, "eq") {
        Some("JNZ")
    } else if word_is(&k, "ne") {
        Some("JZ")
    } else if word_is(&k, "lt") {
        Some("JNC")
    } else if word_is(&k, "ge") {
        Some("JC")
    } else {
        None
    }
}

/// The soft-float helpers, which pass 32-bit operands in memory.
pub open spec fn float_helpers() -> Seq<Seq<char>> {
    seq![
        seq!['_', '_', 'f', 'a', 'd', 'd'],
        seq!['_', '_', 'f', 's', 'u', 'b'],
        seq!['_', '_', 'f', 'm', 'u', 'l'],
        seq!['_', '_', 'f', 'd', 'i', 'v'],
        seq!['_', '_', 'f', 'e', 'q'],
        seq!['_', '_', 'f', 'n', 'e'],
        seq!['_', '_', 'f', 'l', 't'],
        seq!['_', '_', 'f', 'l', 'e'],
        seq!['_', '_', 'f', 'g', 't'],
        seq!['_', '_', 'f', 'g', 'e'],
        seq!['_', '_', 'i', 't', 'o', 'f'],
        seq!['_', '_', 'f', 't', 'o', 'i'],
    ]
}

/// Whether a call goes to one of the soft-float helpers
/// (`is_float_runtime_call`).
pub fn is_float_runtime_call(func_name: &str) -> (r: bool)
    ensures
        r == float_helpers().contains(func_name@),
{
    proof {
        reveal_strlit("__fadd");
        assert("__fadd"@ =~= seq!['_', '_', 'f', 'a', 'd', 'd']);
        reveal_strlit("__fsub");
        assert("__fsub"@ =~= seq!['_', '_', 'f', 's', 'u', 'b']);
        reveal_strlit("__fmul");
        assert("__fmul"@ =~= seq!['_', '_', 'f', 'm', 'u', 'l']);
        reveal_strlit("__fdiv");
        assert("__fdiv"@ =~= seq!['_', '_', 'f', 'd', 'i', 'v']);
        reveal_strlit("__feq");
        assert("__feq"@ =~= seq!['_', '_', 'f', 'e', 'q']);
        reveal_strlit("__fne");
        assert("__fne"@ =~= seq!['_', '_', 'f', 'n', 'e']);
        reveal_strlit("__flt");
        assert("__flt"@ =~= seq!['_', '_', 'f', 'l', 't']);
        reveal_strlit("__fle");
        assert("__fle"@ =~= seq!['_', '_', 'f', 'l', 'e']);
        reveal_strlit("__fgt");
        assert("__fgt"@ =~= seq!['_', '_', 'f', 'g', 't']);
        reveal_strlit("__fge");
        assert("__fge"@ =~= seq!['_', '_', 'f', 'g', 'e']);
        reveal_strlit("__itof");
        assert("__itof"@ =~= seq!['_', '_', 'i', 't', 'o', 'f']);
        reveal_strlit("__ftoi");
        assert("__ftoi"@ =~= seq!['_', '_', 'f', 't', 'o', 'i']);
    }
    let f = chars_of(func_name);
    let r = word_is(&f, "__fadd") || word_is(&f, "__fsub") || word_is(&f, "__fmul") || word_is(&f, "__fdiv") || word_is(&f, "__feq") || word_is(&f, "__fne") || word_is(&f, "__flt") || word_is(&f, "__fle") || word_is(&f, "__fgt") || word_is(&f, "__fge") || word_is(&f, "__itof") || word_is(&f, "__ftoi");
    proof {
        if float_helpers().contains(func_name@) {
            let j = choose|j: int| 0 <= j < float_helpers().len() && float_helpers()[j] == func_name@;
        }
        if r {
            if f@ == "__fadd"@ { assert(float_helpers()[0] == func_name@); }
            if f@ == "__fsub"@ { assert(float_helpers()[1] == func_name@); }
            if f@ == "__fmul"@ { assert(float_helpers()[2] == func_name@); }
            if f@ == "__fdiv"@ { assert(float_helpers()[3] == func_name@); }
            if f@ == "__feq"@ { assert(float_helpers()[4] == func_name@); }
            if f@ == "__fne"@ { assert(float_helpers()[5] == func_name@); }
            if f@ == "__flt"@ { assert(float_helpers()[6] == func_name@); }
            if f@ == "__fle"@ { assert(float_helpers()[7] == func_name@); }
            if f@ == "__fgt"@ { assert(float_helpers()[8] == func_name@); }
            if f@ == "__fge"@ { assert(float_helpers()[9] == func_name@); }
            if f@ == "__itof"@ { assert(float_helpers()[10] == func_name@); }
            if f@ == "__ftoi"@ { assert(float_helpers()[11] == func_name@); }
        }
    }
    r
}

} // verus!
