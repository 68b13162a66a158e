//! Single passes on small bodies, checked instruction by instruction.

use lib::ir::{IrFunction, IrInstr, IrOp, Label, VReg, Width};
use lib::opt::basic::{copy_propagate, dead_code_eliminate};
use lib::opt::local::cse;
use lib::opt::loops::sink_w8_loads;
use lib::opt::memory::{asm_slot_words, load_store_forwarding, redundant_store_eliminate};
use lib::opt::narrow::narrow_byte_ops;
use lib::opt::simplify::{compare_zero_simplify, strength_reduce};
use lib::types::CType;

fn v(id: u32) -> VReg {
    VReg::new(id, Width::W16)
}

fn v8(id: u32) -> VReg {
    VReg::new(id, Width::W8)
}

fn func_with(body: Vec<IrInstr>) -> IrFunction {
    let mut f = IrFunction::new("f", CType::Void);
    f.body = body;
    f
}

fn ins(op: IrOp) -> IrInstr {
    IrInstr::bare(op)
}

#[test]
fn repeated_sum_becomes_a_copy_until_the_block_ends() {
    let mut f = func_with(vec![
        ins(IrOp::add(v(3), v(1), v(2), Width::W16)),
        ins(IrOp::add(v(4), v(1), v(2), Width::W16)),
        ins(IrOp::label(Label::new(0))),
        ins(IrOp::add(v(5), v(1), v(2), Width::W16)),
    ]);
    assert!(cse(&mut f));
    assert_eq!(f.body[1].op, IrOp::copy(v(4), v(3)));
    assert!(matches!(f.body[3].op, IrOp::Add { .. }));
    let mut g = func_with(vec![ins(IrOp::add(v(3), v(1), v(2), Width::W16))]);
    assert!(!cse(&mut g));
}

#[test]
fn copies_are_propagated_into_later_reads() {
    let mut f = func_with(vec![
        ins(IrOp::copy(v(2), v(1))),
        ins(IrOp::store_global("_g_x", v(2))),
        ins(IrOp::label(Label::new(0))),
        ins(IrOp::store_global("_g_y", v(2))),
    ]);
    assert!(copy_propagate(&mut f));
    assert_eq!(f.body[1].op, IrOp::store_global("_g_x", v(1)));
    assert_eq!(f.body[3].op, IrOp::store_global("_g_y", v(2)));
}

#[test]
fn unreachable_and_unused_code_is_removed() {
    let mut f = func_with(vec![
        ins(IrOp::load_imm(v(1), 5)),
        ins(IrOp::jump(Label::new(0))),
        ins(IrOp::store_global("_g_x", v(1))),
        ins(IrOp::label(Label::new(0))),
        ins(IrOp::ret(None)),
    ]);
    assert!(dead_code_eliminate(&mut f));
    assert_eq!(f.body.len(), 3);
    assert_eq!(f.body[0].op, IrOp::jump(Label::new(0)));
    assert_eq!(f.body[1].op, IrOp::label(Label::new(0)));
}

#[test]
fn multiplication_by_eight_becomes_a_shift_by_three() {
    let mut f = func_with(vec![
        ins(IrOp::load_imm(v(2), 8)),
        ins(IrOp::Mul { dst: v(3), lhs: v(1), rhs: v(2), width: Width::W16, signed: true }),
    ]);
    assert!(strength_reduce(&mut f));
    assert_eq!(f.body[0].op, IrOp::load_imm(v(2), 3));
    assert_eq!(f.body[1].op, IrOp::Shl { dst: v(3), lhs: v(1), rhs: v(2), width: Width::W16 });
}

#[test]
fn test_against_zero_feeding_a_branch_is_folded_into_it() {
    let mut f = func_with(vec![
        ins(IrOp::load_imm(v(2), 0)),
        ins(IrOp::Eq { dst: v8(3), lhs: v(1), rhs: v(2), width: Width::W16 }),
        ins(IrOp::jump_if_true(v8(3), Label::new(7))),
    ]);
    assert!(compare_zero_simplify(&mut f));
    assert_eq!(f.body[1].op, IrOp::load_imm(v8(3), 0));
    assert_eq!(f.body[2].op, IrOp::jump_if_false(v(1), Label::new(7)));
}

#[test]
fn load_after_store_reads_the_stored_register() {
    let mut f = func_with(vec![
        ins(IrOp::store_global("_g_x", v(1))),
        ins(IrOp::load_global(v(2), "_g_x")),
        ins(IrOp::store_ptr(v(5), v(6))),
        ins(IrOp::load_global(v(3), "_g_x")),
    ]);
    assert!(load_store_forwarding(&mut f));
    assert_eq!(f.body[1].op, IrOp::copy(v(2), v(1)));
    assert!(matches!(f.body[3].op, IrOp::LoadGlobal { .. }));
}

#[test]
fn overwritten_and_unread_local_stores_are_removed() {
    let mut f = func_with(vec![
        ins(IrOp::store_global("_g_x", v(1))),
        ins(IrOp::store_global("_g_x", v(2))),
        ins(IrOp::store_global("_l_f_t", v(3))),
        ins(IrOp::store_global("_l_f_u", v(4))),
        ins(IrOp::InlineAsm { code: "  lda _l_f_u\n".to_string(), inputs: Vec::new(), return_type: None, clobber_all: false }),
        ins(IrOp::ret(None)),
    ]);
    assert!(redundant_store_eliminate(&mut f));
    assert_eq!(f.body.len(), 4);
    assert_eq!(f.body[0].op, IrOp::store_global("_g_x", v(2)));
    assert_eq!(f.body[1].op, IrOp::store_global("_l_f_u", v(4)));
}

#[test]
fn slot_names_are_whole_identifiers_of_the_assembly() {
    let words = asm_slot_words("lda _l_f_u ; shld _g_y+1\n mov a,_l_x_l_");
    let texts: Vec<String> = words.iter().map(|w| w.iter().collect()).collect();
    assert_eq!(texts, vec!["_l_f_u".to_string(), "_g_y".to_string(), "_l_x_l_".to_string()]);
    assert!(asm_slot_words("x_l_y").is_empty());
}

#[test]
fn byte_sized_sum_is_narrowed() {
    let mut f = func_with(vec![
        ins(IrOp::load_imm(v(1), 3)),
        ins(IrOp::load_imm(v(2), 4)),
        ins(IrOp::And { dst: v(3), lhs: v(1), rhs: v(2), width: Width::W16 }),
    ]);
    assert!(narrow_byte_ops(&mut f));
    assert!(matches!(f.body[2].op, IrOp::And { width: Width::W8, .. }));
}

#[test]
fn single_use_load_is_sunk_to_its_use() {
    let mut f = func_with(vec![
        ins(IrOp::load_global(v(1), "_g_a")),
        ins(IrOp::load_imm(v(2), 1)),
        ins(IrOp::add(v(3), v(2), v(2), Width::W16)),
        ins(IrOp::add(v(4), v(1), v(3), Width::W16)),
    ]);
    assert!(sink_w8_loads(&mut f));
    assert_eq!(f.body.len(), 4);
    assert!(matches!(f.body[2].op, IrOp::LoadGlobal { .. }));
    assert!(matches!(f.body[3].op, IrOp::Add { dst, .. } if dst.id == 4));
}

#[test]
fn a_shared_constant_is_not_turned_into_a_shift_amount() {
    let mut f = func_with(vec![
        ins(IrOp::load_global(v(0), "_g_x")),
        ins(IrOp::load_imm(v(1), 4)),
        ins(IrOp::Mul { dst: v(2), lhs: v(0), rhs: v(1), width: Width::W16, signed: false }),
        ins(IrOp::add(v(3), v(0), v(1), Width::W16)),
        ins(IrOp::store_global("_g_y", v(2))),
        ins(IrOp::store_global("_g_z", v(3))),
        ins(IrOp::ret(None)),
    ]);
    let before = f.body.clone();
    assert!(!strength_reduce(&mut f));
    for i in 0..before.len() {
        assert_eq!(f.body[i].op, before[i].op);
    }
    // Read once, the constant becomes the shift amount.
    let mut g = func_with(vec![
        ins(IrOp::load_global(v(0), "_g_x")),
        ins(IrOp::load_imm(v(1), 4)),
        ins(IrOp::Mul { dst: v(2), lhs: v(0), rhs: v(1), width: Width::W16, signed: false }),
        ins(IrOp::store_global("_g_y", v(2))),
    ]);
    assert!(strength_reduce(&mut g));
    assert_eq!(g.body[1].op, IrOp::load_imm(v(1), 2));
    assert_eq!(g.body[2].op, IrOp::Shl { dst: v(2), lhs: v(0), rhs: v(1), width: Width::W16 });
}

#[test]
fn an_existing_shift_keeps_its_amount() {
    let mut f = func_with(vec![
        ins(IrOp::load_global(v(0), "_g_x")),
        ins(IrOp::load_imm(v(1), 4)),
        ins(IrOp::Shl { dst: v(2), lhs: v(0), rhs: v(1), width: Width::W16 }),
        ins(IrOp::load_imm(v(4), 8)),
        ins(IrOp::Mod { dst: v(5), lhs: v(0), rhs: v(4), width: Width::W16, signed: false }),
        ins(IrOp::store_global("_g_y", v(2))),
        ins(IrOp::store_global("_g_z", v(5))),
    ]);
    assert!(strength_reduce(&mut f));
    assert_eq!(f.body[1].op, IrOp::load_imm(v(1), 4));
    assert_eq!(f.body[3].op, IrOp::load_imm(v(4), 7));
    assert_eq!(f.body[4].op, IrOp::And { dst: v(5), lhs: v(0), rhs: v(4), width: Width::W16 });
}

#[test]
fn a_sum_is_not_reused_after_an_operand_is_reloaded() {
    let mut f = func_with(vec![
        ins(IrOp::load_global(v(0), "_g_a")),
        ins(IrOp::load_global(v(1), "_g_b")),
        ins(IrOp::add(v(2), v(0), v(1), Width::W16)),
        ins(IrOp::load_global(v(0), "_g_c")),
        ins(IrOp::add(v(3), v(0), v(1), Width::W16)),
        ins(IrOp::store_global("_g_d", v(3))),
        ins(IrOp::ret(None)),
    ]);
    assert!(!cse(&mut f));
    assert_eq!(f.body[4].op, IrOp::add(v(3), v(0), v(1), Width::W16));
    // Nor after the register holding it is overwritten.
    let mut g = func_with(vec![
        ins(IrOp::add(v(2), v(0), v(1), Width::W16)),
        ins(IrOp::load_global(v(2), "_g_c")),
        ins(IrOp::add(v(3), v(0), v(1), Width::W16)),
    ]);
    assert!(!cse(&mut g));
    // An unrelated write keeps it available.
    let mut h = func_with(vec![
        ins(IrOp::add(v(2), v(0), v(1), Width::W16)),
        ins(IrOp::load_global(v(7), "_g_c")),
        ins(IrOp::add(v(3), v(0), v(1), Width::W16)),
    ]);
    assert!(cse(&mut h));
    assert_eq!(h.body[2].op, IrOp::copy(v(3), v(2)));
}
