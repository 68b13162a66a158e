//! Normal forms of bodies, merging of equal clones, and the expansion of
//! one call site.

use lib::ir::{GlobalVar, IrFunction, IrInstr, IrOp, IrParam, IrProgram, Label, VReg, Width};
use lib::opt::inline::inline_call_site;
use lib::opt::specialize::{clone_specialized_function, dedup_specializations, normalize_body, remove_dead_functions};
use lib::types::CType;

fn v(id: u32) -> VReg {
    VReg::new(id, Width::W16)
}

fn ins(op: IrOp) -> IrInstr {
    IrInstr::bare(op)
}

fn func(name: &str, body: Vec<IrInstr>) -> IrFunction {
    let mut f = IrFunction::new(name, CType::Void);
    f.body = body;
    f
}

fn loop_body(a: u32, b: u32, l: u32) -> Vec<IrInstr> {
    vec![
        ins(IrOp::label(Label::new(l))),
        ins(IrOp::add(v(a), v(a), v(b), Width::W16)),
        ins(IrOp::jump_if_true(v(a), Label::new(l))),
        ins(IrOp::ret(Some(v(a)))),
    ]
}

#[test]
fn renumbered_bodies_have_equal_normal_forms() {
    let n1 = normalize_body(&loop_body(7, 9, 40)).unwrap();
    let n2 = normalize_body(&loop_body(3, 1, 2)).unwrap();
    assert_eq!(n1.len(), 4);
    assert_eq!(n1.len(), n2.len());
    for i in 0..n1.len() {
        assert_eq!(n1[i].raw, n2[i].raw);
        assert_eq!(n1[i].op, n2[i].op);
    }
    // First appearance numbering, vreg widths of arithmetic dropped.
    assert_eq!(n1[0].op, IrOp::label(Label::new(0)));
    assert_eq!(
        n1[1].op,
        IrOp::add(VReg::new(0, Width::W8), VReg::new(0, Width::W8), VReg::new(1, Width::W8), Width::W16)
    );
    // A body that reads its vregs the other way round differs.
    let n3 = normalize_body(&loop_body(3, 3, 2)).unwrap();
    assert_ne!(n1[1].op, n3[1].op);
}

#[test]
fn equal_clones_are_merged_into_the_first() {
    let mut p = IrProgram::new();
    p.functions.push(func("f__spec_a", loop_body(1, 2, 0)));
    p.functions.push(func("f__spec_b", loop_body(5, 6, 3)));
    p.functions.push(func("f__spec_c", vec![ins(IrOp::ret(None))]));
    p.functions.push(func(
        "main",
        vec![
            ins(IrOp::call("f__spec_b", vec![], Some(v(8)))),
            ins(IrOp::call("f__spec_c", vec![], None)),
            ins(IrOp::call("f__spec_a", vec![], Some(v(9)))),
        ],
    ));
    dedup_specializations(&mut p);
    assert_eq!(p.functions.len(), 4);
    let main = &p.functions[3];
    assert_eq!(main.body[0].op, IrOp::call("f__spec_a", vec![], Some(v(8))));
    assert_eq!(main.body[1].op, IrOp::call("f__spec_c", vec![], None));
    assert_eq!(main.body[2].op, IrOp::call("f__spec_a", vec![], Some(v(9))));
}

#[test]
fn a_call_site_expands_into_stores_body_merge_and_result_copy() {
    let mut callee = func(
        "g",
        vec![
            ins(IrOp::store_global("_l_g_x", v(1))),
            ins(IrOp::add(v(2), v(1), v(1), Width::W16)),
            ins(IrOp::ret(Some(v(2)))),
        ],
    );
    callee.params.push(IrParam { name: String::from("x"), ty: CType::Int { signed: true }, vreg: v(1) });
    let (out, nv, nl) = inline_call_site(&callee, &vec![v(50)], Some(v(60)), 100, 10).unwrap();
    assert_eq!(out.len(), 6);
    assert_eq!(out[0].op, IrOp::store_global("_l_g_x", v(50)));
    // The parameter's vreg is the argument; the other vreg is fresh (101,
    // after the result vreg 100).
    assert_eq!(out[1].op, IrOp::add(v(101), v(50), v(50), Width::W16));
    assert_eq!(out[2].op, IrOp::copy(v(100), v(101)));
    assert_eq!(out[3].op, IrOp::jump(Label::new(10)));
    assert_eq!(out[4].op, IrOp::label(Label::new(10)));
    assert_eq!(out[5].op, IrOp::copy(v(60), v(100)));
    assert_eq!(nv, 102);
    assert_eq!(nl, 11);
}

#[test]
fn a_clone_loads_its_constant_argument_and_renames_its_slots() {
    let mut callee = func(
        "g",
        vec![
            IrInstr::new(IrOp::store_global("_l_g_x", v(1)), 3),
            IrInstr::new(IrOp::load_global(v(2), "_l_g_x"), 4),
            IrInstr::new(IrOp::load_global(v(3), "_g_other"), 5),
            IrInstr::new(IrOp::ret(Some(v(2))), 6),
        ],
    );
    callee.params.push(IrParam { name: String::from("x"), ty: CType::Int { signed: true }, vreg: VReg::new(1, Width::W8) });
    let globals = vec![
        GlobalVar { name: String::from("_l_g_x"), ty: CType::Int { signed: true }, init: None },
        GlobalVar { name: String::from("_g_other"), ty: CType::Int { signed: true }, init: None },
    ];
    let mut next = 100u32;
    let (clone, cloned_globals) =
        clone_specialized_function(&callee, "g__spec_0_7", &vec![(0, 7)], &mut next, &globals).unwrap();
    assert_eq!(clone.name, "g__spec_0_7");
    assert_eq!(next, 101);
    assert_eq!(clone.body.len(), 5);
    assert_eq!(clone.body[0].op, IrOp::load_imm(VReg::new(100, Width::W8), 7));
    assert_eq!(clone.body[0].line, 3);
    assert_eq!(clone.body[1].op, IrOp::store_global("_l_g__spec_0_7_x", VReg::new(100, Width::W8)));
    assert_eq!(clone.body[2].op, IrOp::load_global(v(2), "_l_g__spec_0_7_x"));
    assert_eq!(clone.body[3].op, IrOp::load_global(v(3), "_g_other"));
    assert_eq!(clone.body[4].op, IrOp::ret(Some(v(2))));
    assert_eq!(cloned_globals.len(), 1);
    assert_eq!(cloned_globals[0].name, "_l_g__spec_0_7_x");
    // Without a constant for the parameter, the store is only renamed.
    let mut next2 = 100u32;
    let (plain, _) = clone_specialized_function(&callee, "g__spec_1_2", &vec![(1, 2)], &mut next2, &globals).unwrap();
    assert_eq!(next2, 100);
    assert_eq!(plain.body.len(), 4);
    assert_eq!(plain.body[0].op, IrOp::store_global("_l_g__spec_1_2_x", v(1)));
}

#[test]
fn a_cycle_unreachable_from_main_is_removed() {
    let mut p = IrProgram::new();
    p.functions.push(func("main", vec![ins(IrOp::call("used", vec![], None))]));
    p.functions.push(func("used", vec![ins(IrOp::ret(None))]));
    p.functions.push(func("a", vec![ins(IrOp::call("b", vec![], None))]));
    p.functions.push(func("b", vec![ins(IrOp::call("a", vec![], None))]));
    remove_dead_functions(&mut p);
    assert_eq!(p.functions.len(), 2);
    assert_eq!(p.functions[0].name, "main");
    assert_eq!(p.functions[1].name, "used");
}
