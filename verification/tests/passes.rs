//! Individual optimisation passes, their helpers, and the call-graph laws on
//! small programs.

use lib::callgraph::analyze;
use lib::ir::{IrFunction, IrInstr, IrOp, IrParam, IrProgram, Label, VReg, Width};
use lib::opt::pipeline::{function_specialization, OptProfile};
use lib::maps::AssocMap;
use lib::opt::arith::{fold_lt, is_power_of_two, log2_of_pow2, sign_extend, to_unsigned, wrap_result};
use lib::opt::basic::{dead_branch_eliminate, remove_dead_labels};
use lib::opt::fold::{constant_fold_and_propagate, fold_binary};
use lib::opt::inline::{calls_self, inline_expand};
use lib::opt::local::jump_threading;
use lib::opt::induction::induction_variable_optimization;
use lib::opt::loops::{find_loops, loop_invariant_code_motion, vreg_id_bound};
use lib::opt::narrow::compute_value_ranges;
use lib::opt::specialize::{is_spec_name, maybe_rewrite_local_label, remove_dead_functions};
use lib::opt::unroll::{find_add_stride, loop_unrolling, trip_count};
use lib::types::CType;

fn v(id: u32) -> VReg {
    VReg::new(id, Width::W16)
}

fn func_with(name: &str, body: Vec<IrInstr>) -> IrFunction {
    let mut f = IrFunction::new(name, CType::Void);
    f.body = body;
    f
}

#[test]
fn width_arithmetic() {
    assert_eq!(wrap_result(300, Width::W8), 44);
    assert_eq!(wrap_result(-1, Width::W16), 65535);
    assert_eq!(sign_extend(0xFF, Width::W8), -1);
    assert_eq!(sign_extend(0x7FFF, Width::W16), 0x7FFF);
    assert_eq!(to_unsigned(-1, Width::W8), 255);
    assert_eq!(fold_lt(-1, 1, Width::W16, true), 1);
    assert_eq!(fold_lt(-1, 1, Width::W16, false), 0);
}

#[test]
fn powers_of_two() {
    assert!(is_power_of_two(64));
    assert!(!is_power_of_two(0));
    assert!(!is_power_of_two(-4));
    assert!(!is_power_of_two(12));
    assert_eq!(log2_of_pow2(64), 6);
    assert_eq!(log2_of_pow2(1), 0);
}

#[test]
fn binary_folding_wraps_and_refuses_division_by_zero() {
    let add = IrOp::Add { dst: v(2), lhs: v(0), rhs: v(1), width: Width::W16 };
    assert_eq!(fold_binary(&add, 65535, 1), Some(0));
    let div = IrOp::Div { dst: v(2), lhs: v(0), rhs: v(1), width: Width::W16, signed: true };
    assert_eq!(fold_binary(&div, -7, 2), Some(65533));
    assert_eq!(fold_binary(&div, 7, 0), None);
    let shr = IrOp::Shr { dst: v(2), lhs: v(0), rhs: v(1), width: Width::W8, arithmetic: true };
    assert_eq!(fold_binary(&shr, 0x80, 1), Some(0xC0));
}

#[test]
fn trip_counts() {
    assert_eq!(trip_count(0, 4, 1, true, true), Some(4));
    assert_eq!(trip_count(10, 0, -3, false, true), Some(4));
    assert_eq!(trip_count(5, 5, 1, true, true), Some(0));
    assert_eq!(trip_count(0, 4, -1, true, true), None);
    assert_eq!(trip_count(0, 0xFFFF, 1, true, false), Some(0xFFFF));
}

#[test]
fn stride_of_an_increment() {
    let body = vec![
        IrInstr::bare(IrOp::load_imm(v(1), 2)),
        IrInstr::bare(IrOp::Sub { dst: v(5), lhs: v(4), rhs: v(1), width: Width::W16 }),
    ];
    let mut constants: AssocMap<u32, i64> = AssocMap::new();
    constants.insert(1, 2);
    assert_eq!(find_add_stride(&body, 0, 2, 5, &constants), Some((-2, 4)));
    assert_eq!(find_add_stride(&body, 0, 2, 6, &constants), None);
}

#[test]
fn local_label_rewriting() {
    assert_eq!(maybe_rewrite_local_label("_l_f_x", "_l_f", "_l___spec_f_0"), "_l___spec_f_0_x");
    assert_eq!(maybe_rewrite_local_label("_g_x", "_l_f", "_l_g"), "_g_x");
    assert!(is_spec_name("__spec_f_0"));
    assert!(!is_spec_name("f"));
}

#[test]
fn pointer_offset_into_global_is_folded() {
    let mut f = func_with("f", vec![
        IrInstr::bare(IrOp::addr_of_global(v(0), "_g_arr")),
        IrInstr::bare(IrOp::load_imm(v(1), 3)),
        IrInstr::bare(IrOp::ptr_add(v(2), v(0), v(1), 2)),
        IrInstr::bare(IrOp::ret(Some(v(2)))),
    ]);
    assert!(constant_fold_and_propagate(&mut f));
    assert_eq!(f.body[2].op, IrOp::AddrOfGlobal { dst: v(2), name: "_g_arr+6".to_string() });
}

#[test]
fn constant_branches_are_resolved() {
    let mut f = func_with("f", vec![
        IrInstr::bare(IrOp::load_imm(v(0), 0)),
        IrInstr::bare(IrOp::jump_if_false(v(0), Label::new(1))),
        IrInstr::bare(IrOp::ret(None)),
        IrInstr::bare(IrOp::label(Label::new(1))),
        IrInstr::bare(IrOp::ret(None)),
    ]);
    assert!(dead_branch_eliminate(&mut f));
    assert!(f.body.iter().any(|i| i.op == IrOp::Jump { target: Label::new(1) }));
}

#[test]
fn unreferenced_labels_are_removed() {
    let mut f = func_with("f", vec![
        IrInstr::bare(IrOp::label(Label::new(3))),
        IrInstr::bare(IrOp::label(Label::new(4))),
        IrInstr::bare(IrOp::jump(Label::new(4))),
    ]);
    assert!(remove_dead_labels(&mut f));
    assert_eq!(f.body.len(), 2);
    assert_eq!(f.body[0].op, IrOp::Label { label: Label::new(4) });
}

#[test]
fn jumps_to_jumps_are_threaded() {
    let mut f = func_with("f", vec![
        IrInstr::bare(IrOp::jump(Label::new(1))),
        IrInstr::bare(IrOp::label(Label::new(1))),
        IrInstr::bare(IrOp::jump(Label::new(2))),
        IrInstr::bare(IrOp::label(Label::new(2))),
        IrInstr::bare(IrOp::ret(None)),
    ]);
    assert!(jump_threading(&mut f));
    assert_eq!(f.body[0].op, IrOp::Jump { target: Label::new(2) });
}

#[test]
fn loops_are_found_innermost_first() {
    let body = vec![
        IrInstr::bare(IrOp::label(Label::new(0))),
        IrInstr::bare(IrOp::label(Label::new(1))),
        IrInstr::bare(IrOp::jump(Label::new(1))),
        IrInstr::bare(IrOp::jump_if_true(v(0), Label::new(0))),
    ];
    assert_eq!(find_loops(&body, true), vec![(1, 2), (0, 3)]);
    assert_eq!(find_loops(&body, false), vec![(1, 2)]);
}

#[test]
fn invariant_code_is_hoisted_once() {
    let mut f = func_with("f", vec![
        IrInstr::bare(IrOp::load_global(v(0), "_g_a")),
        IrInstr::bare(IrOp::label(Label::new(0))),
        IrInstr::bare(IrOp::Neg { dst: v(1), src: v(0), width: Width::W16 }),
        IrInstr::bare(IrOp::store_global("_g_b", v(1))),
        IrInstr::bare(IrOp::jump_if_true(v(0), Label::new(0))),
    ]);
    assert!(loop_invariant_code_motion(&mut f));
    assert_eq!(f.body.len(), 5);
    assert!(matches!(f.body[1].op, IrOp::Neg { .. }));
    assert!(matches!(f.body[2].op, IrOp::Label { .. }));
}

#[test]
fn small_callee_is_inlined_and_dropped() {
    let callee = func_with("one", vec![
        IrInstr::bare(IrOp::load_imm(v(0), 1)),
        IrInstr::bare(IrOp::ret(Some(v(0)))),
    ]);
    let main = func_with("main", vec![
        IrInstr::bare(IrOp::call("one", vec![], Some(v(5)))),
        IrInstr::bare(IrOp::ret(Some(v(5)))),
    ]);
    assert!(!calls_self(&main));
    let mut p = IrProgram::new();
    p.functions.push(main);
    p.functions.push(callee);
    inline_expand(&mut p);
    assert_eq!(p.functions.len(), 1);
    assert!(!p.functions[0].body.iter().any(|i| matches!(i.op, IrOp::Call { .. })));
    assert!(p.functions[0].body.iter().any(|i| matches!(i.op, IrOp::LoadImm { value: 1, .. })));
}

#[test]
fn functions_unreachable_from_main_are_removed() {
    let mut p = IrProgram::new();
    p.functions.push(func_with("main", vec![IrInstr::bare(IrOp::call("used", vec![], None))]));
    p.functions.push(func_with("used", vec![]));
    p.functions.push(func_with("unused", vec![IrInstr::bare(IrOp::call("used", vec![], None))]));
    remove_dead_functions(&mut p);
    let names: Vec<&str> = p.functions.iter().map(|f| f.name.as_str()).collect();
    assert_eq!(names, vec!["main", "used"]);
}

#[test]
fn recursion_laws_on_a_small_graph() {
    let mut p = IrProgram::new();
    p.functions.push(func_with("main", vec![IrInstr::bare(IrOp::call("a", vec![], None))]));
    p.functions.push(func_with("a", vec![IrInstr::bare(IrOp::call("a", vec![], None))]));
    p.functions.push(func_with("leaf", vec![]));
    let r = analyze(&p, None);
    // A self-call is recursion; nothing else here is.
    assert!(r.is_recursive("a"));
    assert!(!r.is_recursive("main"));
    assert!(r.is_stack_mode("a"));
    assert!(r.is_leaf("leaf"));
    assert!(!r.is_leaf("a"));
    assert_eq!(r.graph.recursive.len(), 1);
}

#[test]
fn vreg_bound_is_one_past_the_largest_id() {
    let body = vec![
        IrInstr::bare(IrOp::load_imm(v(3), 1)),
        IrInstr::bare(IrOp::store_global("_g_a", v(9))),
    ];
    assert_eq!(vreg_id_bound(&body), 10);
    assert_eq!(vreg_id_bound(&Vec::new()), 0);
}

#[test]
fn value_ranges_follow_definitions() {
    let f = func_with("f", vec![
        IrInstr::bare(IrOp::load_imm(v(1), 300)),
        IrInstr::bare(IrOp::load_imm(v(2), 0x0F)),
        IrInstr::bare(IrOp::And { dst: v(3), lhs: v(1), rhs: v(2), width: Width::W16 }),
        IrInstr::bare(IrOp::Add { dst: v(4), lhs: v(1), rhs: v(2), width: Width::W16 }),
        IrInstr::bare(IrOp::Lt { dst: v(5), lhs: v(1), rhs: v(2), width: Width::W16, signed: true }),
    ]);
    let facts = compute_value_ranges(&f);
    let a = facts.get(&1).unwrap();
    assert!(a.valid && a.min == 300 && a.max == 300 && a.known == Some(300));
    let b = facts.get(&3).unwrap();
    assert!(b.valid && b.min == 0 && b.max == 0xFF && b.known.is_none());
    assert!(facts.get(&4).is_none());
    let c = facts.get(&5).unwrap();
    assert!(c.valid && c.min == 0 && c.max == 1);
}

#[test]
fn multiplication_by_induction_variable_becomes_a_derived_variable() {
    let mut f = func_with("f", vec![
        IrInstr::bare(IrOp::load_imm(v(1), 0)),
        IrInstr::bare(IrOp::load_imm(v(2), 1)),
        IrInstr::bare(IrOp::load_imm(v(3), 3)),
        IrInstr::bare(IrOp::label(Label::new(1))),
        IrInstr::bare(IrOp::Mul { dst: v(4), lhs: v(1), rhs: v(3), width: Width::W16, signed: true }),
        IrInstr::bare(IrOp::add(v(1), v(1), v(2), Width::W16)),
        IrInstr::bare(IrOp::jump(Label::new(1))),
        IrInstr::bare(IrOp::ret(None)),
    ]);
    assert!(induction_variable_optimization(&mut f));
    assert_eq!(f.body.len(), 12);
    assert!(matches!(f.body[3].op, IrOp::LoadImm { dst, value: 3 } if dst.id == 6));
    assert!(matches!(f.body[4].op, IrOp::LoadImm { dst, value: 3 } if dst.id == 8));
    assert!(matches!(f.body[5].op, IrOp::Mul { dst, lhs, rhs, .. } if dst.id == 5 && lhs.id == 1 && rhs.id == 8));
    assert!(matches!(f.body[6].op, IrOp::Label { .. }));
    assert!(matches!(f.body[7].op, IrOp::Copy { dst, src } if dst.id == 4 && src.id == 5));
    assert!(matches!(f.body[8].op, IrOp::Add { dst, .. } if dst.id == 1));
    assert!(matches!(f.body[9].op, IrOp::Add { dst, lhs, rhs, .. } if dst.id == 5 && lhs.id == 5 && rhs.id == 6));
    assert!(matches!(f.body[10].op, IrOp::Jump { .. }));
}

#[test]
fn loop_without_induction_multiplication_is_kept() {
    let mut f = func_with("f", vec![
        IrInstr::bare(IrOp::load_imm(v(2), 1)),
        IrInstr::bare(IrOp::label(Label::new(1))),
        IrInstr::bare(IrOp::add(v(1), v(1), v(2), Width::W16)),
        IrInstr::bare(IrOp::jump(Label::new(1))),
    ]);
    assert!(!induction_variable_optimization(&mut f));
    assert_eq!(f.body.len(), 4);
}

#[test]
fn marked_counted_loop_is_fully_unrolled() {
    let mut f = func_with("f", vec![
        IrInstr::bare(IrOp::load_imm(v(1), 0)),
        IrInstr::bare(IrOp::load_imm(v(2), 3)),
        IrInstr::bare(IrOp::load_imm(v(3), 1)),
        IrInstr::bare(IrOp::label(Label::new(0))),
        IrInstr::bare(IrOp::Lt { dst: v(4), lhs: v(1), rhs: v(2), width: Width::W16, signed: true }),
        IrInstr::bare(IrOp::jump_if_false(v(4), Label::new(1))),
        IrInstr::bare(IrOp::store_global("_g_x", v(1))),
        IrInstr::bare(IrOp::add(v(1), v(1), v(3), Width::W16)),
        IrInstr::bare(IrOp::jump(Label::new(0))),
        IrInstr::bare(IrOp::label(Label::new(1))),
        IrInstr::bare(IrOp::ret(None)),
    ]);
    f.unroll_loop_headers = vec![Label::new(0)];
    assert!(loop_unrolling(&mut f));
    assert_eq!(f.body.len(), 11);
    for k in [3, 5, 7] {
        assert!(matches!(&f.body[k].op, IrOp::StoreGlobal { src, .. } if src.id == 1));
        assert!(matches!(&f.body[k + 1].op, IrOp::Add { dst, lhs, rhs, .. } if dst.id == 1 && lhs.id == 1 && rhs.id == 3));
    }
    assert!(matches!(f.body[9].op, IrOp::Label { label } if label.0 == 1));
    assert!(!f.body.iter().any(|i| matches!(i.op, IrOp::Jump { .. })));
}

#[test]
fn unmarked_loop_is_not_unrolled() {
    let mut f = func_with("f", vec![
        IrInstr::bare(IrOp::load_imm(v(1), 0)),
        IrInstr::bare(IrOp::load_imm(v(2), 3)),
        IrInstr::bare(IrOp::load_imm(v(3), 1)),
        IrInstr::bare(IrOp::label(Label::new(0))),
        IrInstr::bare(IrOp::Lt { dst: v(4), lhs: v(1), rhs: v(2), width: Width::W16, signed: true }),
        IrInstr::bare(IrOp::jump_if_false(v(4), Label::new(1))),
        IrInstr::bare(IrOp::store_global("_g_x", v(1))),
        IrInstr::bare(IrOp::add(v(1), v(1), v(3), Width::W16)),
        IrInstr::bare(IrOp::jump(Label::new(0))),
        IrInstr::bare(IrOp::label(Label::new(1))),
    ]);
    assert!(!loop_unrolling(&mut f));
    assert_eq!(f.body.len(), 10);
}

#[test]
fn le_loop_with_step_two_unrolls_three_trips() {
    // i = 0; while i <= 5 { x = i; i += 2 }: i takes 0, 2, 4.
    let mut f = func_with("f", vec![
        IrInstr::bare(IrOp::load_imm(v(1), 0)),
        IrInstr::bare(IrOp::load_imm(v(2), 5)),
        IrInstr::bare(IrOp::load_imm(v(3), 2)),
        IrInstr::bare(IrOp::label(Label::new(0))),
        IrInstr::bare(IrOp::Le { dst: v(4), lhs: v(1), rhs: v(2), width: Width::W16, signed: true }),
        IrInstr::bare(IrOp::jump_if_false(v(4), Label::new(1))),
        IrInstr::bare(IrOp::store_global("_g_x", v(1))),
        IrInstr::bare(IrOp::add(v(1), v(1), v(3), Width::W16)),
        IrInstr::bare(IrOp::jump(Label::new(0))),
        IrInstr::bare(IrOp::label(Label::new(1))),
        IrInstr::bare(IrOp::ret(None)),
    ]);
    f.unroll_loop_headers = vec![Label::new(0)];
    assert!(loop_unrolling(&mut f));
    let stores = f.body.iter().filter(|i| matches!(i.op, IrOp::StoreGlobal { .. })).count();
    assert_eq!(stores, 3);
    assert_eq!(f.body.len(), 11);
    assert!(!f.body.iter().any(|i| matches!(i.op, IrOp::Jump { .. })));
}

#[test]
fn call_with_constant_argument_is_specialised() {
    let mut callee = func_with("add1", vec![IrInstr::bare(IrOp::ret(None))]);
    callee.params.push(IrParam { name: "a".to_string(), ty: CType::int_signed(), vreg: v(0) });
    let main = func_with("main", vec![
        IrInstr::bare(IrOp::load_imm(v(5), 7)),
        IrInstr::bare(IrOp::call("add1", vec![v(5)], None)),
        IrInstr::bare(IrOp::ret(None)),
    ]);
    let mut prog = IrProgram { globals: vec![], functions: vec![callee, main], strings: vec![] };
    function_specialization(&mut prog, OptProfile::Default);
    assert_eq!(prog.functions.len(), 3);
    assert!(prog.functions[2].name.contains("__spec_"));
    match &prog.functions[1].body[1].op {
        IrOp::Call { func_name, args, .. } => {
            assert_eq!(func_name, &prog.functions[2].name);
            assert_eq!(args.len(), 1);
        },
        _ => panic!("the call stays a call"),
    }
}
