//! Construction of the IR and its small helpers.

use lib::ir::{IrFunction, IrInstr, IrOp, IrProgram, Label, LabelAllocator, VReg, VRegAllocator, Width};
use lib::types::CType;

// -- Width ------------------------------------------------------------

#[test]
fn width_bytes() {
    assert_eq!(Width::W8.bytes(), 1);
    assert_eq!(Width::W16.bytes(), 2);
    assert_eq!(Width::W32.bytes(), 4);
}

#[test]
fn width_from_ctype() {
    assert_eq!(Width::from_ctype(&CType::char_signed()), Some(Width::W8));
    assert_eq!(Width::from_ctype(&CType::int_signed()), Some(Width::W16));
    assert_eq!(Width::from_ctype(&CType::long_unsigned()), Some(Width::W32));
    assert_eq!(
        Width::from_ctype(&CType::ptr(CType::char_signed())),
        Some(Width::W16)
    );
    assert_eq!(Width::from_ctype(&CType::Void), None);
}

// -- VReg / Label display --------------------------------------------

#[test]
fn vreg_display() {
    let r = VReg::new(42, Width::W16);
    assert_eq!(r.to_string(), "t42.w16");
    assert_eq!(r.to_string(), "t42.w16");
}

#[test]
fn label_display() {
    let l = Label::new(7);
    assert_eq!(l.to_string(), "L7");
}

// -- Allocators -------------------------------------------------------

#[test]
fn vreg_allocator_increments() {
    let mut alloc = VRegAllocator::new();
    let r0 = alloc.allocate(Width::W8);
    let r1 = alloc.allocate(Width::W16);
    let r2 = alloc.allocate(Width::W32);
    assert_eq!(r0.id, 0);
    assert_eq!(r1.id, 1);
    assert_eq!(r2.id, 2);
    assert_eq!(r0.width, Width::W8);
    assert_eq!(r1.width, Width::W16);
    assert_eq!(r2.width, Width::W32);
}

#[test]
fn vreg_alloc_for_type() {
    let mut alloc = VRegAllocator::new();
    let r = alloc.alloc_for_type(&CType::int_signed());
    assert_eq!(r.width, Width::W16);
}

#[test]
fn label_allocator_increments() {
    let mut alloc = LabelAllocator::new();
    let l0 = alloc.allocate();
    let l1 = alloc.allocate();
    assert_eq!(l0.0, 0);
    assert_eq!(l1.0, 1);
}

// -- IrInstr construction ---------------------------------------------

#[test]
fn instr_with_line() {
    let r = VReg::new(0, Width::W16);
    let instr = IrInstr::new(IrOp::load_imm(r, 42), 10);
    assert_eq!(instr.line, 10);
    assert_eq!(
        instr.op,
        IrOp::LoadImm {
            dst: r,
            value: 42
        }
    );
}

#[test]
fn instr_bare() {
    let r = VReg::new(0, Width::W8);
    let instr = IrInstr::bare(IrOp::ret(None));
    assert_eq!(instr.line, 0);
    assert_eq!(instr.op, IrOp::Return { value: None });
    let _ = r; // suppress unused
}

// -- IrFunction -------------------------------------------------------

#[test]
fn function_push_op() {
    let mut func = IrFunction::new("main", CType::int_signed());
    let r = VReg::new(0, Width::W16);
    func.push_op(IrOp::load_imm(r, 0));
    func.push_op(IrOp::ret(Some(r)));
    assert_eq!(func.body.len(), 2);
}

#[test]
fn function_locals_size() {
    let mut func = IrFunction::new("f", CType::Void);
    func.is_stack_mode = true;
    func.locals.push(("x".into(), CType::int_signed(), 0));
    func.locals.push(("y".into(), CType::long_signed(), 2));
    assert_eq!(func.locals_size(), 6); // 2 + 4
}

// -- IrProgram --------------------------------------------------------

#[test]
fn program_default_is_empty() {
    let prog = IrProgram::default();
    assert!(prog.globals.is_empty());
    assert!(prog.functions.is_empty());
    assert!(prog.strings.is_empty());
}

// -- Convenience constructors -----------------------------------------

#[test]
fn op_constructors() {
    let mut va = VRegAllocator::new();
    let r0 = va.allocate(Width::W16);
    let r1 = va.allocate(Width::W16);
    let r2 = va.allocate(Width::W16);
    let lbl = Label::new(0);

    // Spot-check a few constructors to make sure they produce the right
    // variant and don't panic.
    let _ = IrOp::load_imm(r0, 100);
    let _ = IrOp::load_global(r0, "_x");
    let _ = IrOp::store_global("_x", r0);
    let _ = IrOp::add(r2, r0, r1, Width::W16);
    let _ = IrOp::sub(r2, r0, r1, Width::W16);
    let _ = IrOp::copy(r1, r0);
    let _ = IrOp::cast(r1, r0, CType::long_signed());
    let _ = IrOp::jump(lbl);
    let _ = IrOp::jump_if_true(r0, lbl);
    let _ = IrOp::jump_if_false(r0, lbl);
    let _ = IrOp::call("puts", vec![r0], Some(r1));
    let _ = IrOp::ret(Some(r0));
    let _ = IrOp::label(lbl);
    let _ = IrOp::addr_of_global(r0, "_msg");
    let _ = IrOp::ptr_add(r2, r0, r1, 2);
}

// -- Binary op width --------------------------------------------------

#[test]
fn binary_ops_carry_width() {
    let r = VReg::new(0, Width::W32);
    let s = VReg::new(1, Width::W32);
    let d = VReg::new(2, Width::W32);
    let op = IrOp::Add {
        dst: d,
        lhs: r,
        rhs: s,
        width: Width::W32,
    };
    if let IrOp::Add { width, .. } = op {
        assert_eq!(width, Width::W32);
    } else {
        panic!("expected Add");
    }
}

