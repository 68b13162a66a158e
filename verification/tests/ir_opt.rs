//! Behaviour of the optimisation pipeline on small bodies.

use lib::ir::{IrFunction, IrInstr, IrOp, IrParam, IrProgram, Label, VReg, Width};
use lib::opt::pipeline::optimize;
use lib::types::CType;

/// Build a simple function with the given body, optimize it, and return
/// the optimized body.
fn opt_body(body: Vec<IrInstr>) -> Vec<IrInstr> {
    let mut func = IrFunction::new("test", CType::Void);
    func.body = body;
    let mut program = IrProgram::new();
    program.functions.push(func);
    optimize(&mut program);
    program.functions.pop().unwrap().body
}

fn opt_body_with_unroll_headers(body: Vec<IrInstr>, headers: &[u32]) -> Vec<IrInstr> {
    let mut func = IrFunction::new("test", CType::Void);
    func.body = body;
    func.unroll_loop_headers = headers.iter().copied().map(Label::new).collect();
    let mut program = IrProgram::new();
    program.functions.push(func);
    optimize(&mut program);
    program.functions.pop().unwrap().body
}

/// Helper to build a LoadImm instruction.
fn load_imm(id: u32, width: Width, value: i64) -> IrInstr {
    IrInstr::bare(IrOp::LoadImm {
        dst: VReg::new(id, width),
        value,
    })
}

// -- Constant folding -------------------------------------------------

#[test]
fn fold_add_constants() {
    let body = vec![
        load_imm(0, Width::W16, 10),
        load_imm(1, Width::W16, 20),
        IrInstr::bare(IrOp::Add {
            dst: VReg::new(2, Width::W16),
            lhs: VReg::new(0, Width::W16),
            rhs: VReg::new(1, Width::W16),
            width: Width::W16,
        }),
        IrInstr::bare(IrOp::ret(Some(VReg::new(2, Width::W16)))),
    ];
    let result = opt_body(body);
    // The Add should be folded to LoadImm 30
    assert!(result.iter().any(|i| matches!(&i.op,
        IrOp::LoadImm { dst, value: 30 } if dst.id == 2)));
}

#[test]
fn fold_sub_constants() {
    let body = vec![
        load_imm(0, Width::W16, 100),
        load_imm(1, Width::W16, 30),
        IrInstr::bare(IrOp::Sub {
            dst: VReg::new(2, Width::W16),
            lhs: VReg::new(0, Width::W16),
            rhs: VReg::new(1, Width::W16),
            width: Width::W16,
        }),
        IrInstr::bare(IrOp::ret(Some(VReg::new(2, Width::W16)))),
    ];
    let result = opt_body_with_unroll_headers(body, &[0]);
    assert!(result.iter().any(|i| matches!(&i.op,
        IrOp::LoadImm { dst, value: 70 } if dst.id == 2)));
}

#[test]
fn fold_mul_constants() {
    let body = vec![
        load_imm(0, Width::W16, 6),
        load_imm(1, Width::W16, 7),
        IrInstr::bare(IrOp::Mul {
            dst: VReg::new(2, Width::W16),
            lhs: VReg::new(0, Width::W16),
            rhs: VReg::new(1, Width::W16),
            width: Width::W16,
            signed: true,
        }),
        IrInstr::bare(IrOp::ret(Some(VReg::new(2, Width::W16)))),
    ];
    let result = opt_body_with_unroll_headers(body, &[0]);
    assert!(result.iter().any(|i| matches!(&i.op,
        IrOp::LoadImm { dst, value: 42 } if dst.id == 2)));
}

#[test]
fn fold_div_by_zero_not_folded() {
    let body = vec![
        load_imm(0, Width::W16, 42),
        load_imm(1, Width::W16, 0),
        IrInstr::bare(IrOp::Div {
            dst: VReg::new(2, Width::W16),
            lhs: VReg::new(0, Width::W16),
            rhs: VReg::new(1, Width::W16),
            width: Width::W16,
            signed: false,
        }),
        IrInstr::bare(IrOp::ret(Some(VReg::new(2, Width::W16)))),
    ];
    let result = opt_body_with_unroll_headers(body, &[0]);
    // Division by zero should NOT be folded
    assert!(result.iter().any(|i| matches!(&i.op, IrOp::Div { .. })));
}

#[test]
fn fold_comparison_eq() {
    let body = vec![
        load_imm(0, Width::W16, 5),
        load_imm(1, Width::W16, 5),
        IrInstr::bare(IrOp::Eq {
            dst: VReg::new(2, Width::W16),
            lhs: VReg::new(0, Width::W16),
            rhs: VReg::new(1, Width::W16),
            width: Width::W16,
        }),
        IrInstr::bare(IrOp::ret(Some(VReg::new(2, Width::W16)))),
    ];
    let result = opt_body(body);
    assert!(result.iter().any(|i| matches!(&i.op,
        IrOp::LoadImm { dst, value: 1 } if dst.id == 2)));
}

#[test]
fn fold_neg_constant() {
    let body = vec![
        load_imm(0, Width::W16, 42),
        IrInstr::bare(IrOp::Neg {
            dst: VReg::new(1, Width::W16),
            src: VReg::new(0, Width::W16),
            width: Width::W16,
        }),
        IrInstr::bare(IrOp::ret(Some(VReg::new(1, Width::W16)))),
    ];
    let result = opt_body(body);
    // -42 as u16 = 65494
    assert!(result.iter().any(|i| matches!(&i.op,
        IrOp::LoadImm { dst, value: 65494 } if dst.id == 1)));
}

#[test]
fn fold_wraps_8bit() {
    let body = vec![
        load_imm(0, Width::W8, 200),
        load_imm(1, Width::W8, 100),
        IrInstr::bare(IrOp::Add {
            dst: VReg::new(2, Width::W8),
            lhs: VReg::new(0, Width::W8),
            rhs: VReg::new(1, Width::W8),
            width: Width::W8,
        }),
        IrInstr::bare(IrOp::ret(Some(VReg::new(2, Width::W8)))),
    ];
    let result = opt_body(body);
    // 200 + 100 = 300, wrapped to 8 bits = 44
    assert!(result.iter().any(|i| matches!(&i.op,
        IrOp::LoadImm { dst, value: 44 } if dst.id == 2)));
}

// -- Constant propagation ---------------------------------------------

#[test]
fn propagate_through_copy() {
    let body = vec![
        load_imm(0, Width::W16, 42),
        IrInstr::bare(IrOp::Copy {
            dst: VReg::new(1, Width::W16),
            src: VReg::new(0, Width::W16),
        }),
        IrInstr::bare(IrOp::ret(Some(VReg::new(1, Width::W16)))),
    ];
    let result = opt_body(body);
    // Copy of a constant should be replaced with LoadImm
    assert!(result.iter().any(|i| matches!(&i.op,
        IrOp::LoadImm { dst, value: 42 } if dst.id == 1)));
}

// -- Strength reduction -----------------------------------------------

#[test]
fn strength_reduce_mul_by_4() {
    let body = vec![
        IrInstr::bare(IrOp::LoadGlobal {
            dst: VReg::new(0, Width::W16),
            addr_label: "_g_x".into(),
        }),
        load_imm(1, Width::W16, 4),
        IrInstr::bare(IrOp::Mul {
            dst: VReg::new(2, Width::W16),
            lhs: VReg::new(0, Width::W16),
            rhs: VReg::new(1, Width::W16),
            width: Width::W16,
            signed: false,
        }),
        IrInstr::bare(IrOp::StoreGlobal {
            addr_label: "_g_y".into(),
            src: VReg::new(2, Width::W16),
        }),
        IrInstr::bare(IrOp::ret(None)),
    ];
    let result = opt_body(body);
    // Should be rewritten to Shl with shift count 2
    assert!(result.iter().any(|i| matches!(&i.op, IrOp::Shl { .. })));
    // The LoadImm for the shift amount should be 2 (log2(4))
    assert!(result.iter().any(|i| matches!(&i.op,
        IrOp::LoadImm { dst, value: 2 } if dst.id == 1)));
}

#[test]
fn strength_reduce_unsigned_div_by_8() {
    let body = vec![
        IrInstr::bare(IrOp::LoadGlobal {
            dst: VReg::new(0, Width::W16),
            addr_label: "_g_x".into(),
        }),
        load_imm(1, Width::W16, 8),
        IrInstr::bare(IrOp::Div {
            dst: VReg::new(2, Width::W16),
            lhs: VReg::new(0, Width::W16),
            rhs: VReg::new(1, Width::W16),
            width: Width::W16,
            signed: false,
        }),
        IrInstr::bare(IrOp::StoreGlobal {
            addr_label: "_g_y".into(),
            src: VReg::new(2, Width::W16),
        }),
        IrInstr::bare(IrOp::ret(None)),
    ];
    let result = opt_body(body);
    assert!(result.iter().any(|i| matches!(&i.op, IrOp::Shr { arithmetic: false, .. })));
    assert!(result.iter().any(|i| matches!(&i.op,
        IrOp::LoadImm { dst, value: 3 } if dst.id == 1)));
}

#[test]
fn strength_reduce_unsigned_mod_by_256() {
    let body = vec![
        IrInstr::bare(IrOp::LoadGlobal {
            dst: VReg::new(0, Width::W16),
            addr_label: "_g_x".into(),
        }),
        load_imm(1, Width::W16, 256),
        IrInstr::bare(IrOp::Mod {
            dst: VReg::new(2, Width::W16),
            lhs: VReg::new(0, Width::W16),
            rhs: VReg::new(1, Width::W16),
            width: Width::W16,
            signed: false,
        }),
        IrInstr::bare(IrOp::StoreGlobal {
            addr_label: "_g_y".into(),
            src: VReg::new(2, Width::W16),
        }),
        IrInstr::bare(IrOp::ret(None)),
    ];
    let result = opt_body(body);
    assert!(result.iter().any(|i| matches!(&i.op, IrOp::And { .. })));
    // mask = 256 - 1 = 255
    assert!(result.iter().any(|i| matches!(&i.op,
        IrOp::LoadImm { dst, value: 255 } if dst.id == 1)));
}

#[test]
fn signed_div_not_strength_reduced() {
    let body = vec![
        IrInstr::bare(IrOp::LoadGlobal {
            dst: VReg::new(0, Width::W16),
            addr_label: "_g_x".into(),
        }),
        load_imm(1, Width::W16, 4),
        IrInstr::bare(IrOp::Div {
            dst: VReg::new(2, Width::W16),
            lhs: VReg::new(0, Width::W16),
            rhs: VReg::new(1, Width::W16),
            width: Width::W16,
            signed: true,
        }),
        IrInstr::bare(IrOp::StoreGlobal {
            addr_label: "_g_y".into(),
            src: VReg::new(2, Width::W16),
        }),
        IrInstr::bare(IrOp::ret(None)),
    ];
    let result = opt_body(body);
    // Signed div should NOT be converted to shift
    assert!(result.iter().any(|i| matches!(&i.op, IrOp::Div { signed: true, .. })));
}

// -- Dead-code elimination --------------------------------------------

#[test]
fn dce_removes_unreachable_after_jump() {
    let body = vec![
        IrInstr::bare(IrOp::Jump { target: Label::new(0) }),
        // This instruction is unreachable
        load_imm(0, Width::W16, 42),
        IrInstr::bare(IrOp::Label { label: Label::new(0) }),
        IrInstr::bare(IrOp::ret(None)),
    ];
    let result = opt_body(body);
    // The LoadImm should be removed
    assert!(!result.iter().any(|i| matches!(&i.op, IrOp::LoadImm { value: 42, .. })));
}

#[test]
fn dce_removes_unused_definitions() {
    let body = vec![
        load_imm(0, Width::W16, 42),
        load_imm(1, Width::W16, 99),
        // Only vreg 1 is used
        IrInstr::bare(IrOp::ret(Some(VReg::new(1, Width::W16)))),
    ];
    let result = opt_body(body);
    // LoadImm for vreg 0 should be removed (unused)
    assert!(!result.iter().any(|i| matches!(&i.op,
        IrOp::LoadImm { dst, value: 42 } if dst.id == 0)));
    // LoadImm for vreg 1 should still be there
    assert!(result.iter().any(|i| matches!(&i.op,
        IrOp::LoadImm { dst, value: 99 } if dst.id == 1)));
}

// -- CSE --------------------------------------------------------------

#[test]
fn cse_eliminates_duplicate_add() {
    let body = vec![
        IrInstr::bare(IrOp::LoadGlobal {
            dst: VReg::new(0, Width::W16),
            addr_label: "_g_a".into(),
        }),
        IrInstr::bare(IrOp::LoadGlobal {
            dst: VReg::new(1, Width::W16),
            addr_label: "_g_b".into(),
        }),
        IrInstr::bare(IrOp::Add {
            dst: VReg::new(2, Width::W16),
            lhs: VReg::new(0, Width::W16),
            rhs: VReg::new(1, Width::W16),
            width: Width::W16,
        }),
        // Duplicate computation
        IrInstr::bare(IrOp::Add {
            dst: VReg::new(3, Width::W16),
            lhs: VReg::new(0, Width::W16),
            rhs: VReg::new(1, Width::W16),
            width: Width::W16,
        }),
        IrInstr::bare(IrOp::StoreGlobal {
            addr_label: "_g_c".into(),
            src: VReg::new(2, Width::W16),
        }),
        IrInstr::bare(IrOp::StoreGlobal {
            addr_label: "_g_d".into(),
            src: VReg::new(3, Width::W16),
        }),
        IrInstr::bare(IrOp::ret(None)),
    ];
    let result = opt_body(body);
    // CSE replaces the second Add with Copy { dst:3, src:2 }.  copy_propagate
    // then substitutes v3→v2 in StoreGlobal "_g_d" and DCE removes the Copy.
    // Accept either form: the Copy is still present, or _g_d already uses v2.
    assert!(result.iter().any(|i| {
        matches!(&i.op,
            IrOp::Copy { dst, src } if dst.id == 3 && src.id == 2)
        || matches!(&i.op,
            IrOp::StoreGlobal { addr_label, src } if addr_label == "_g_d" && src.id == 2)
    }));
}

#[test]
fn cse_cleared_at_label() {
    // A label that IS reached from two different paths (a real merge point)
    // must clear the CSE table, because the label can be reached with
    // different values in flight.  We construct this with a conditional jump:
    // the label is the target of a JumpIfTrue, so it is NOT a trivial
    // fall-through label and is preserved by remove_dead_labels.
    let body = vec![
        IrInstr::bare(IrOp::LoadGlobal {
            dst: VReg::new(0, Width::W16),
            addr_label: "_g_a".into(),
        }),
        IrInstr::bare(IrOp::LoadGlobal {
            dst: VReg::new(1, Width::W16),
            addr_label: "_g_b".into(),
        }),
        IrInstr::bare(IrOp::Add {
            dst: VReg::new(2, Width::W16),
            lhs: VReg::new(0, Width::W16),
            rhs: VReg::new(1, Width::W16),
            width: Width::W16,
        }),
        // Conditional jump makes Label(0) a real merge point (two predecessors:
        // the JumpIfTrue path and the fall-through path).
        IrInstr::bare(IrOp::JumpIfTrue {
            cond: VReg::new(0, Width::W16),
            target: Label::new(0),
        }),
        IrInstr::bare(IrOp::Label { label: Label::new(0) }),
        // Same computation after a live label — should NOT be CSE'd because
        // the label is a real merge point (CSE table cleared at Label).
        IrInstr::bare(IrOp::Add {
            dst: VReg::new(3, Width::W16),
            lhs: VReg::new(0, Width::W16),
            rhs: VReg::new(1, Width::W16),
            width: Width::W16,
        }),
        IrInstr::bare(IrOp::StoreGlobal {
            addr_label: "_g_c".into(),
            src: VReg::new(2, Width::W16),
        }),
        IrInstr::bare(IrOp::StoreGlobal {
            addr_label: "_g_d".into(),
            src: VReg::new(3, Width::W16),
        }),
        IrInstr::bare(IrOp::ret(None)),
    ];
    let result = opt_body(body);
    // After a real convergence label, CSE is cleared, so the second Add should remain.
    let add_count = result.iter().filter(|i| matches!(&i.op, IrOp::Add { .. })).count();
    assert_eq!(add_count, 2);
}

// -- Combined optimizations -------------------------------------------

#[test]
fn chain_fold_propagate_dce() {
    // x = 3; y = 4; z = x + y; return z;
    // Should fold to: return 7; with x and y eliminated.
    let body = vec![
        load_imm(0, Width::W16, 3),
        load_imm(1, Width::W16, 4),
        IrInstr::bare(IrOp::Add {
            dst: VReg::new(2, Width::W16),
            lhs: VReg::new(0, Width::W16),
            rhs: VReg::new(1, Width::W16),
            width: Width::W16,
        }),
        IrInstr::bare(IrOp::ret(Some(VReg::new(2, Width::W16)))),
    ];
    let result = opt_body(body);
    // Should have just LoadImm 7 and Return
    assert_eq!(result.len(), 2);
    assert!(matches!(&result[0].op, IrOp::LoadImm { value: 7, .. }));
    assert!(matches!(&result[1].op, IrOp::Return { .. }));
}

#[test]
fn fold_chained_operations() {
    // a = 2; b = 3; c = a * b; d = c + 1; return d;
    // Should fold to: return 7;
    let body = vec![
        load_imm(0, Width::W16, 2),
        load_imm(1, Width::W16, 3),
        IrInstr::bare(IrOp::Mul {
            dst: VReg::new(2, Width::W16),
            lhs: VReg::new(0, Width::W16),
            rhs: VReg::new(1, Width::W16),
            width: Width::W16,
            signed: true,
        }),
        load_imm(3, Width::W16, 1),
        IrInstr::bare(IrOp::Add {
            dst: VReg::new(4, Width::W16),
            lhs: VReg::new(2, Width::W16),
            rhs: VReg::new(3, Width::W16),
            width: Width::W16,
        }),
        IrInstr::bare(IrOp::ret(Some(VReg::new(4, Width::W16)))),
    ];
    let result = opt_body(body);
    assert_eq!(result.len(), 2);
    assert!(matches!(&result[0].op, IrOp::LoadImm { value: 7, .. }));
}

// -- 8-bit wrapping ---------------------------------------------------

#[test]
fn fold_bitwise_and_8bit() {
    let body = vec![
        load_imm(0, Width::W8, 0xFF),
        load_imm(1, Width::W8, 0x0F),
        IrInstr::bare(IrOp::And {
            dst: VReg::new(2, Width::W8),
            lhs: VReg::new(0, Width::W8),
            rhs: VReg::new(1, Width::W8),
            width: Width::W8,
        }),
        IrInstr::bare(IrOp::ret(Some(VReg::new(2, Width::W8)))),
    ];
    let result = opt_body(body);
    assert!(result.iter().any(|i| matches!(&i.op,
        IrOp::LoadImm { dst, value: 0x0F } if dst.id == 2)));
}

// -- Logical not folding ----------------------------------------------

#[test]
fn fold_logical_not_zero() {
    let body = vec![
        load_imm(0, Width::W16, 0),
        IrInstr::bare(IrOp::LogicalNot {
            dst: VReg::new(1, Width::W16),
            src: VReg::new(0, Width::W16),
            width: Width::W16,
        }),
        IrInstr::bare(IrOp::ret(Some(VReg::new(1, Width::W16)))),
    ];
    let result = opt_body(body);
    assert!(result.iter().any(|i| matches!(&i.op,
        IrOp::LoadImm { dst, value: 1 } if dst.id == 1)));
}

#[test]
fn fold_logical_not_nonzero() {
    let body = vec![
        load_imm(0, Width::W16, 42),
        IrInstr::bare(IrOp::LogicalNot {
            dst: VReg::new(1, Width::W16),
            src: VReg::new(0, Width::W16),
            width: Width::W16,
        }),
        IrInstr::bare(IrOp::ret(Some(VReg::new(1, Width::W16)))),
    ];
    let result = opt_body(body);
    assert!(result.iter().any(|i| matches!(&i.op,
        IrOp::LoadImm { dst, value: 0 } if dst.id == 1)));
}

// -- Loop-invariant code motion ---------------------------------------

#[test]
fn licm_hoists_invariant_computation() {
    // Simulate:
    //   a = load_global "_g_a"              // vreg 0
    //   b = load_global "_g_b"              // vreg 1
    // L0:                                    // loop header
    //   c = add a, b                         // invariant! (vreg 2)
    //   i = load_global "_g_i"               // vreg 3 (changes each iter)
    //   store_global "_g_x", c
    //   jump_if_true i L0                    // back edge
    //
    // After LICM, the Add should be before L0.
    let body = vec![
        IrInstr::bare(IrOp::LoadGlobal {
            dst: VReg::new(0, Width::W16),
            addr_label: "_g_a".into(),
        }),
        IrInstr::bare(IrOp::LoadGlobal {
            dst: VReg::new(1, Width::W16),
            addr_label: "_g_b".into(),
        }),
        IrInstr::bare(IrOp::Label { label: Label::new(0) }),
        IrInstr::bare(IrOp::Add {
            dst: VReg::new(2, Width::W16),
            lhs: VReg::new(0, Width::W16),
            rhs: VReg::new(1, Width::W16),
            width: Width::W16,
        }),
        IrInstr::bare(IrOp::LoadGlobal {
            dst: VReg::new(3, Width::W16),
            addr_label: "_g_i".into(),
        }),
        IrInstr::bare(IrOp::StoreGlobal {
            addr_label: "_g_x".into(),
            src: VReg::new(2, Width::W16),
        }),
        IrInstr::bare(IrOp::JumpIfTrue {
            cond: VReg::new(3, Width::W16),
            target: Label::new(0),
        }),
        IrInstr::bare(IrOp::ret(None)),
    ];

    let result = opt_body(body);

    // The Add of vreg 0 + vreg 1 producing vreg 2 should appear
    // before the Label(0), i.e., it was hoisted out of the loop.
    let label_pos = result
        .iter()
        .position(|i| matches!(&i.op, IrOp::Label { label } if label.0 == 0))
        .expect("label L0 must exist");
    let add_pos = result
        .iter()
        .position(|i| matches!(&i.op, IrOp::Add { dst, .. } if dst.id == 2))
        .expect("add must exist");
    assert!(
        add_pos < label_pos,
        "invariant Add should be hoisted before the loop header (add at {}, label at {})",
        add_pos, label_pos,
    );
}

#[test]
fn licm_does_not_hoist_loop_dependent() {
    // Instruction that depends on a loop-defined vreg should NOT be hoisted.
    //   a = load_global "_g_a"              // vreg 0
    // L0:
    //   i = load_global "_g_i"               // vreg 1 (loop-variant)
    //   c = add a, i                         // depends on i → NOT invariant
    //   store_global "_g_x", c
    //   jump_if_true i L0
    let body = vec![
        IrInstr::bare(IrOp::LoadGlobal {
            dst: VReg::new(0, Width::W16),
            addr_label: "_g_a".into(),
        }),
        IrInstr::bare(IrOp::Label { label: Label::new(0) }),
        IrInstr::bare(IrOp::LoadGlobal {
            dst: VReg::new(1, Width::W16),
            addr_label: "_g_i".into(),
        }),
        IrInstr::bare(IrOp::Add {
            dst: VReg::new(2, Width::W16),
            lhs: VReg::new(0, Width::W16),
            rhs: VReg::new(1, Width::W16),
            width: Width::W16,
        }),
        IrInstr::bare(IrOp::StoreGlobal {
            addr_label: "_g_x".into(),
            src: VReg::new(2, Width::W16),
        }),
        IrInstr::bare(IrOp::JumpIfTrue {
            cond: VReg::new(1, Width::W16),
            target: Label::new(0),
        }),
        IrInstr::bare(IrOp::ret(None)),
    ];

    let result = opt_body(body);

    // The Add should still be AFTER the label (not hoisted).
    let label_pos = result
        .iter()
        .position(|i| matches!(&i.op, IrOp::Label { label } if label.0 == 0))
        .expect("label L0 must exist");
    let add_pos = result
        .iter()
        .position(|i| matches!(&i.op, IrOp::Add { dst, .. } if dst.id == 2))
        .expect("add must exist");
    assert!(
        add_pos > label_pos,
        "loop-dependent Add should NOT be hoisted (add at {}, label at {})",
        add_pos, label_pos,
    );
}

// -- Induction variable optimization ----------------------------------

#[test]
fn iv_opt_replaces_mul_with_derived_iv() {
    // Simulate:
    //   iv (v0) = 0               // init
    //   stride (v1) = 1           // constant stride
    //   factor (v3) = 10          // constant factor
    // L0: (loop header)
    //   t (v2) = iv * factor      // should be replaced
    //   store_global "_g_x", t
    //   iv = iv + stride          // IV increment
    //   jump_if_true iv, L0       // back edge
    //
    // After IV opt: the Mul should be gone, replaced by a Copy from
    // a derived IV that is incremented by stride * factor = 10.
    let body = vec![
        load_imm(0, Width::W16, 0),           // iv = 0
        load_imm(1, Width::W16, 1),           // stride = 1
        load_imm(3, Width::W16, 10),          // factor = 10
        IrInstr::bare(IrOp::Label { label: Label::new(0) }),
        IrInstr::bare(IrOp::Mul {
            dst: VReg::new(2, Width::W16),
            lhs: VReg::new(0, Width::W16),
            rhs: VReg::new(3, Width::W16),
            width: Width::W16,
            signed: true,
        }),
        IrInstr::bare(IrOp::StoreGlobal {
            addr_label: "_g_x".into(),
            src: VReg::new(2, Width::W16),
        }),
        IrInstr::bare(IrOp::Add {
            dst: VReg::new(0, Width::W16),
            lhs: VReg::new(0, Width::W16),
            rhs: VReg::new(1, Width::W16),
            width: Width::W16,
        }),
        IrInstr::bare(IrOp::JumpIfTrue {
            cond: VReg::new(0, Width::W16),
            target: Label::new(0),
        }),
        IrInstr::bare(IrOp::ret(None)),
    ];

    let result = opt_body(body);

    // The loop body should no longer contain a Mul instruction.
    let label_pos = result
        .iter()
        .position(|i| matches!(&i.op, IrOp::Label { label } if label.0 == 0))
        .expect("label L0 must exist");
    let has_mul_in_loop = result[label_pos..]
        .iter()
        .any(|i| matches!(&i.op, IrOp::Mul { .. }));
    assert!(
        !has_mul_in_loop,
        "Mul inside the loop should be replaced by IV opt"
    );

    // Should have a Copy for the replaced Mul destination, OR copy_propagate
    // already propagated the derived-IV value into the StoreGlobal so the
    // Copy was eliminated.  Either way, the _g_x store must not use the
    // Mul destination vreg (v2) directly.
    let has_copy = result[label_pos..]
        .iter()
        .any(|i| matches!(&i.op, IrOp::Copy { dst, .. } if dst.id == 2));
    let store_avoids_mul_dst = !result[label_pos..]
        .iter()
        .any(|i| matches!(&i.op, IrOp::StoreGlobal { addr_label, src } if addr_label == "_g_x" && src.id == 2));
    assert!(
        has_copy || store_avoids_mul_dst,
        "Mul should be replaced with a Copy from the derived IV (or the derived IV used directly)"
    );
}

// -- Loop unrolling ---------------------------------------------------

#[test]
fn loop_unrolling_fully_unrolls_small_loop() {
    // Simulate:
    //   iv (v0) = 0
    //   limit (v1) = 4
    //   stride (v2) = 1
    // L0: (header)
    //   cond (v3) = Lt iv, limit
    //   JumpIfFalse cond, L1
    //   store_global "_g_x", iv   // body
    //   iv = Add iv, stride       // increment
    //   Jump L0                   // back edge
    // L1: (exit)
    //   Return
    //
    // Trip count = 4, should fully unroll.
    let body = vec![
        load_imm(0, Width::W16, 0),
        load_imm(1, Width::W16, 4),
        load_imm(2, Width::W16, 1),
        IrInstr::bare(IrOp::Label { label: Label::new(0) }),
        IrInstr::bare(IrOp::Lt {
            dst: VReg::new(3, Width::W16),
            lhs: VReg::new(0, Width::W16),
            rhs: VReg::new(1, Width::W16),
            width: Width::W16,
            signed: true,
        }),
        IrInstr::bare(IrOp::JumpIfFalse {
            cond: VReg::new(3, Width::W16),
            target: Label::new(1),
        }),
        IrInstr::bare(IrOp::StoreGlobal {
            addr_label: "_g_x".into(),
            src: VReg::new(0, Width::W16),
        }),
        IrInstr::bare(IrOp::Add {
            dst: VReg::new(0, Width::W16),
            lhs: VReg::new(0, Width::W16),
            rhs: VReg::new(2, Width::W16),
            width: Width::W16,
        }),
        IrInstr::bare(IrOp::Jump { target: Label::new(0) }),
        IrInstr::bare(IrOp::Label { label: Label::new(1) }),
        IrInstr::bare(IrOp::ret(None)),
    ];

    let result = opt_body_with_unroll_headers(body, &[0]);

    // After full unrolling, there should be no Jump back to L0
    // (the loop is eliminated).
    let has_jump_to_l0 = result
        .iter()
        .any(|i| matches!(&i.op, IrOp::Jump { target } if target.0 == 0));
    assert!(
        !has_jump_to_l0,
        "Fully unrolled loop should not have a back-edge jump"
    );

    // After unrolling + redundant-store elimination only the last store to
    // _g_x remains (the first 3 are overwritten before being read).
    let store_count = result
        .iter()
        .filter(|i| matches!(&i.op, IrOp::StoreGlobal { addr_label, .. } if addr_label == "_g_x"))
        .count();
    assert_eq!(
        store_count, 1,
        "Expected 1 remaining store (last value), got {}", store_count
    );
}

#[test]
fn loop_unrolling_skips_large_trip_count() {
    // Trip count = 100, exceeds UNROLL_MAX_TRIPS → should NOT unroll.
    let body = vec![
        load_imm(0, Width::W16, 0),
        load_imm(1, Width::W16, 100),
        load_imm(2, Width::W16, 1),
        IrInstr::bare(IrOp::Label { label: Label::new(0) }),
        IrInstr::bare(IrOp::Lt {
            dst: VReg::new(3, Width::W16),
            lhs: VReg::new(0, Width::W16),
            rhs: VReg::new(1, Width::W16),
            width: Width::W16,
            signed: true,
        }),
        IrInstr::bare(IrOp::JumpIfFalse {
            cond: VReg::new(3, Width::W16),
            target: Label::new(1),
        }),
        IrInstr::bare(IrOp::StoreGlobal {
            addr_label: "_g_x".into(),
            src: VReg::new(0, Width::W16),
        }),
        IrInstr::bare(IrOp::Add {
            dst: VReg::new(0, Width::W16),
            lhs: VReg::new(0, Width::W16),
            rhs: VReg::new(2, Width::W16),
            width: Width::W16,
        }),
        IrInstr::bare(IrOp::Jump { target: Label::new(0) }),
        IrInstr::bare(IrOp::Label { label: Label::new(1) }),
        IrInstr::bare(IrOp::ret(None)),
    ];

    let result = opt_body(body);

    // Loop should still exist (not unrolled).
    let has_jump_to_l0 = result
        .iter()
        .any(|i| matches!(&i.op, IrOp::Jump { target } if target.0 == 0));
    assert!(
        has_jump_to_l0,
        "Loop with trip count > UNROLL_MAX_TRIPS should NOT be unrolled"
    );
}

#[test]
fn loop_unrolling_requires_hint() {
    // Canonical 4-iteration loop, but without unroll hint metadata.
    let body = vec![
        load_imm(0, Width::W16, 0),
        load_imm(1, Width::W16, 4),
        load_imm(2, Width::W16, 1),
        IrInstr::bare(IrOp::Label { label: Label::new(0) }),
        IrInstr::bare(IrOp::Lt {
            dst: VReg::new(3, Width::W16),
            lhs: VReg::new(0, Width::W16),
            rhs: VReg::new(1, Width::W16),
            width: Width::W16,
            signed: true,
        }),
        IrInstr::bare(IrOp::JumpIfFalse {
            cond: VReg::new(3, Width::W16),
            target: Label::new(1),
        }),
        IrInstr::bare(IrOp::StoreGlobal {
            addr_label: "_g_x".into(),
            src: VReg::new(0, Width::W16),
        }),
        IrInstr::bare(IrOp::Add {
            dst: VReg::new(0, Width::W16),
            lhs: VReg::new(0, Width::W16),
            rhs: VReg::new(2, Width::W16),
            width: Width::W16,
        }),
        IrInstr::bare(IrOp::Jump { target: Label::new(0) }),
        IrInstr::bare(IrOp::Label { label: Label::new(1) }),
        IrInstr::bare(IrOp::ret(None)),
    ];

    let result = opt_body(body);
    let has_jump_to_l0 = result
        .iter()
        .any(|i| matches!(&i.op, IrOp::Jump { target } if target.0 == 0));
    assert!(has_jump_to_l0, "Loop should not be unrolled without hint");
}

// -- Phase 2: forwarding and narrowing -------------------------------

#[test]
fn forwarding_replaces_load_after_store_global() {
    let body = vec![
        load_imm(0, Width::W16, 42),
        IrInstr::bare(IrOp::StoreGlobal {
            addr_label: "_g_x".into(),
            src: VReg::new(0, Width::W16),
        }),
        IrInstr::bare(IrOp::LoadGlobal {
            dst: VReg::new(1, Width::W16),
            addr_label: "_g_x".into(),
        }),
        IrInstr::bare(IrOp::ret(Some(VReg::new(1, Width::W16)))),
    ];

    let result = opt_body(body);
    // load_store_forwarding replaces the LoadGlobal with Copy { dst:1, src:0 }.
    // copy_propagate then substitutes v1→v0 in all uses and DCE removes the
    // Copy.  Either form is correct; accept both.
    assert!(result.iter().any(|i| {
        matches!(
            &i.op,
            IrOp::Copy { dst, src } if dst.id == 1 && src.id == 0
        ) || matches!(
            &i.op,
            IrOp::LoadImm { dst, value: 42 } if dst.id == 1
        ) || matches!(
            // copy_propagate propagated v1→v0; Return now references v0 directly.
            &i.op,
            IrOp::Return { value: Some(v) } if v.id == 0
        )
    }));
}

#[test]
fn forwarding_invalidated_by_call() {
    let body = vec![
        load_imm(0, Width::W16, 42),
        IrInstr::bare(IrOp::StoreGlobal {
            addr_label: "_g_x".into(),
            src: VReg::new(0, Width::W16),
        }),
        IrInstr::bare(IrOp::call("ext", vec![], None)),
        IrInstr::bare(IrOp::LoadGlobal {
            dst: VReg::new(1, Width::W16),
            addr_label: "_g_x".into(),
        }),
        IrInstr::bare(IrOp::ret(Some(VReg::new(1, Width::W16)))),
    ];

    let result = opt_body(body);
    assert!(result.iter().any(|i| matches!(&i.op, IrOp::LoadGlobal { dst, .. } if dst.id == 1)));
}

#[test]
fn narrow_compare_to_w8_when_operands_are_byte_range() {
    let body = vec![
        IrInstr::bare(IrOp::LoadGlobal {
            dst: VReg::new(0, Width::W16),
            addr_label: "_g_a".into(),
        }),
        IrInstr::bare(IrOp::LoadGlobal {
            dst: VReg::new(1, Width::W16),
            addr_label: "_g_b".into(),
        }),
        IrInstr::bare(IrOp::And {
            dst: VReg::new(3, Width::W16),
            lhs: VReg::new(0, Width::W16),
            rhs: VReg::new(1, Width::W16),
            width: Width::W16,
        }),
        load_imm(4, Width::W16, 255),
        IrInstr::bare(IrOp::And {
            dst: VReg::new(5, Width::W16),
            lhs: VReg::new(3, Width::W16),
            rhs: VReg::new(4, Width::W16),
            width: Width::W16,
        }),
        IrInstr::bare(IrOp::Lt {
            dst: VReg::new(2, Width::W16),
            lhs: VReg::new(5, Width::W16),
            rhs: VReg::new(4, Width::W16),
            width: Width::W16,
            signed: false,
        }),
        IrInstr::bare(IrOp::ret(Some(VReg::new(2, Width::W16)))),
    ];

    let result = opt_body(body);
    assert!(result.iter().any(|i| {
        matches!(
            &i.op,
            IrOp::Lt { width: Width::W8, .. }
        )
    }));
}

#[test]
fn narrow_promoted_add_consumed_by_w8_cast() {
    // Model: data3 += data4 + 1 where chars are promoted to int for add,
    // then truncated back to char on assignment.
    let s1 = VReg::new(0, Width::W8);
    let s2 = VReg::new(1, Width::W8);
    let x1 = VReg::new(2, Width::W16);
    let k1 = VReg::new(3, Width::W16);
    let x2 = VReg::new(4, Width::W16);
    let n1 = VReg::new(5, Width::W8);
    let x3 = VReg::new(6, Width::W16);
    let x4 = VReg::new(7, Width::W16);
    let x5 = VReg::new(8, Width::W16);

    let body = vec![
        IrInstr::bare(IrOp::LoadGlobal {
            dst: s1,
            addr_label: "_g_data3".into(),
        }),
        IrInstr::bare(IrOp::LoadGlobal {
            dst: s2,
            addr_label: "_g_data4".into(),
        }),
        IrInstr::bare(IrOp::cast(x1, s2, CType::int_signed())),
        load_imm(k1.id, Width::W16, 1),
        IrInstr::bare(IrOp::Add {
            dst: x2,
            lhs: x1,
            rhs: k1,
            width: Width::W16,
        }),
        IrInstr::bare(IrOp::cast(n1, x2, CType::char_signed())),
        IrInstr::bare(IrOp::cast(x3, s1, CType::int_signed())),
        IrInstr::bare(IrOp::cast(x4, n1, CType::int_signed())),
        IrInstr::bare(IrOp::Add {
            dst: x5,
            lhs: x3,
            rhs: x4,
            width: Width::W16,
        }),
        IrInstr::bare(IrOp::ret(Some(x5))),
    ];

    let result = opt_body(body);

    let narrowed_first_add = result.iter().any(|i| {
        matches!(
            &i.op,
            IrOp::Add {
                dst,
                lhs,
                rhs,
                width: Width::W8,
            } if dst.id == x2.id && (lhs.id == s2.id || rhs.id == s2.id)
        )
    });
    assert!(
        narrowed_first_add,
        "expected first promoted add to narrow to W8; got:\n{:#?}",
        result
    );

    let has_old_widen = result.iter().any(|i| {
        matches!(
            &i.op,
            IrOp::Cast { dst, src, .. } if dst.id == x1.id && src.id == s2.id
        )
    });
    assert!(
        !has_old_widen,
        "expected dead widen cast to be removed; got:\n{:#?}",
        result
    );
}

// -- Dedup specializations (Step 3) -----------------------------------

#[test]
fn dedup_identical_specializations() {
    // Two call sites calling `add_one(x, 1)` with the same constant.
    // function_specialization creates two __spec_ variants, but they are
    // identical after optimization.  dedup_specializations should redirect
    // both call sites to a single copy.
    let mut callee = IrFunction::new("add_one", CType::int_signed());
    let p0 = VReg::new(100, Width::W16);
    let p1 = VReg::new(101, Width::W16);
    let r  = VReg::new(102, Width::W16);
    callee.params = vec![
        IrParam { name: "a".into(), ty: CType::int_signed(), vreg: VReg::new(100, Width::W16) },
        IrParam { name: "b".into(), ty: CType::int_signed(), vreg: VReg::new(101, Width::W16) },
    ];
    callee.body = vec![
        IrInstr::bare(IrOp::LoadGlobal { dst: p0, addr_label: "_l_add_one_a".into() }),
        IrInstr::bare(IrOp::LoadGlobal { dst: p1, addr_label: "_l_add_one_b".into() }),
        IrInstr::bare(IrOp::Add { dst: r, lhs: p0, rhs: p1, width: Width::W16 }),
        IrInstr::bare(IrOp::ret(Some(r))),
    ];

    let mut main_fn = IrFunction::new("main", CType::Void);
    let c1  = VReg::new(0, Width::W16);
    let a1  = VReg::new(1, Width::W16);
    let r1  = VReg::new(2, Width::W16);
    let c2  = VReg::new(3, Width::W16);
    let a2  = VReg::new(4, Width::W16);
    let r2  = VReg::new(5, Width::W16);
    main_fn.body = vec![
        // First call: add_one(10, 1)
        IrInstr::bare(IrOp::LoadImm { dst: a1, value: 10 }),
        IrInstr::bare(IrOp::LoadImm { dst: c1, value: 1 }),
        IrInstr::bare(IrOp::Call { func_name: "add_one".into(), args: vec![a1, c1], dst: Some(r1) }),
        // Second call: add_one(20, 1) — same constant arg at position 1
        IrInstr::bare(IrOp::LoadImm { dst: a2, value: 20 }),
        IrInstr::bare(IrOp::LoadImm { dst: c2, value: 1 }),
        IrInstr::bare(IrOp::Call { func_name: "add_one".into(), args: vec![a2, c2], dst: Some(r2) }),
        IrInstr::bare(IrOp::ret(None)),
    ];

    let mut program = IrProgram::new();
    program.functions.push(main_fn);
    program.functions.push(callee);
    optimize(&mut program);

    // After optimization: at most one __spec_ function should survive.
    let spec_count = program.functions.iter()
        .filter(|f| f.name.contains("__spec_"))
        .count();
    assert!(
        spec_count <= 1,
        "expected at most 1 __spec_ function after dedup, got {}: {:?}",
        spec_count,
        program.functions.iter().map(|f| &f.name).collect::<Vec<_>>()
    );
}

// -- Compare-with-zero simplification (Step 4) ------------------------

#[test]
fn compare_zero_eq_jump_if_true_simplified() {
    // Eq(x, 0) + JumpIfTrue → JumpIfFalse(x)
    let x = VReg::new(0, Width::W16);
    let zero = VReg::new(1, Width::W16);
    let cmp = VReg::new(2, Width::W16);
    let lbl = Label::new(10);
    let body = vec![
        IrInstr::bare(IrOp::LoadGlobal { dst: x, addr_label: "_g_x".into() }),
        load_imm(1, Width::W16, 0),
        IrInstr::bare(IrOp::Eq { dst: cmp, lhs: x, rhs: zero, width: Width::W16 }),
        IrInstr::bare(IrOp::JumpIfTrue { cond: cmp, target: lbl }),
        IrInstr::bare(IrOp::Label { label: lbl }),
        IrInstr::bare(IrOp::ret(None)),
    ];
    let result = opt_body(body);
    // Should have JumpIfFalse(x) instead of Eq+JumpIfTrue
    let has_jump_if_false = result.iter().any(|i| {
        matches!(&i.op, IrOp::JumpIfFalse { cond, .. } if cond.id == x.id)
    });
    assert!(has_jump_if_false, "expected JumpIfFalse(x) after simplification; got:\n{:#?}", result);
}

#[test]
fn compare_zero_ne_jump_if_true_simplified() {
    // Ne(x, 0) + JumpIfTrue → JumpIfTrue(x)
    let x = VReg::new(0, Width::W16);
    let zero = VReg::new(1, Width::W16);
    let cmp = VReg::new(2, Width::W16);
    let lbl = Label::new(10);
    let body = vec![
        IrInstr::bare(IrOp::LoadGlobal { dst: x, addr_label: "_g_x".into() }),
        load_imm(1, Width::W16, 0),
        IrInstr::bare(IrOp::Ne { dst: cmp, lhs: x, rhs: zero, width: Width::W16 }),
        IrInstr::bare(IrOp::JumpIfTrue { cond: cmp, target: lbl }),
        IrInstr::bare(IrOp::Label { label: lbl }),
        IrInstr::bare(IrOp::ret(None)),
    ];
    let result = opt_body(body);
    let has_jump_if_true = result.iter().any(|i| {
        matches!(&i.op, IrOp::JumpIfTrue { cond, .. } if cond.id == x.id)
    });
    assert!(has_jump_if_true, "expected JumpIfTrue(x) after simplification; got:\n{:#?}", result);
}

