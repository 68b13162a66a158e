//! Call-graph construction, recursion detection and static allocation.

use lib::callgraph::{analyze, DEFAULT_BASE_ADDR};
use lib::ir::{GlobalVar, IrFunction, IrOp, IrParam, IrProgram, VReg, Width};
use lib::types::CType;

// -- helpers ----------------------------------------------------------

/// Create a minimal function that calls a list of other functions.
fn make_func(name: &str, calls: &[&str]) -> IrFunction {
    let mut f = IrFunction::new(name, CType::Void);
    for callee in calls {
        f.push_op(IrOp::call(*callee, vec![], None));
    }
    f
}

/// Create a function with locals and parameters.
fn make_func_with_vars(
    name: &str,
    params: &[(&str, CType)],
    locals: &[(&str, CType)],
    calls: &[&str],
) -> IrFunction {
    let mut f = IrFunction::new(name, CType::int_signed());
    for (i, (pname, ty)) in params.iter().enumerate() {
        let w = Width::from_ctype(ty).unwrap_or(Width::W16);
        f.params.push(IrParam {
            name: (*pname).to_string(),
            ty: ty.clone(),
            vreg: VReg::new(i as u32, w),
        });
    }
    let mut offset: i32 = 0;
    for (lname, ty) in locals {
        let sz = ty.size_of().unwrap_or(2) as i32;
        f.locals.push(((*lname).to_string(), ty.clone(), offset));
        offset += sz;
    }
    for callee in calls {
        f.push_op(IrOp::call(*callee, vec![], None));
    }
    f
}

fn make_program(functions: Vec<IrFunction>) -> IrProgram {
    IrProgram {
        globals: Vec::new(),
        functions,
        strings: Vec::new(),
    }
}

// -- call graph construction -----------------------------------------

#[test]
fn empty_program() {
    let prog = make_program(vec![]);
    let result = analyze(&prog, None);
    assert!(result.graph.callees.is_empty());
    assert!(result.graph.recursive.is_empty());
    assert!(result.local_allocs.is_empty());
    assert!(result.global_allocs.is_empty());
    assert_eq!(result.next_addr, DEFAULT_BASE_ADDR);
}

#[test]
fn single_function_no_calls() {
    let prog = make_program(vec![make_func("main", &[])]);
    let result = analyze(&prog, None);

    assert_eq!(result.graph.callees.len(), 1);
    assert!(result.graph.callees_of("main").unwrap().is_empty());
    assert!(!result.is_recursive("main"));
    assert!(!result.is_stack_mode("main"));
}

#[test]
fn linear_call_chain() {
    // main -> foo -> bar
    let prog = make_program(vec![
        make_func("main", &["foo"]),
        make_func("foo", &["bar"]),
        make_func("bar", &[]),
    ]);
    let result = analyze(&prog, None);

    assert!(result.graph.callees_of("main").unwrap().contains("foo"));
    assert!(result.graph.callees_of("foo").unwrap().contains("bar"));
    assert!(result.graph.callees_of("bar").unwrap().is_empty());
    assert!(!result.is_recursive("main"));
    assert!(!result.is_recursive("foo"));
    assert!(!result.is_recursive("bar"));
}

#[test]
fn call_to_external_function() {
    // main calls "printf" which is not defined in the program.
    let prog = make_program(vec![make_func("main", &["printf"])]);
    let result = analyze(&prog, None);

    assert!(result.graph.callees_of("main").unwrap().contains("printf"));
    assert!(!result.is_recursive("main"));
}

// -- recursion detection ---------------------------------------------

#[test]
fn direct_recursion() {
    // f calls itself
    let prog = make_program(vec![make_func("f", &["f"])]);
    let result = analyze(&prog, None);
    assert!(result.is_recursive("f"));
    assert!(result.is_stack_mode("f"));
}

#[test]
fn mutual_recursion() {
    // a -> b -> a
    let prog = make_program(vec![
        make_func("a", &["b"]),
        make_func("b", &["a"]),
    ]);
    let result = analyze(&prog, None);
    assert!(result.is_recursive("a"));
    assert!(result.is_recursive("b"));
}

#[test]
fn partial_recursion() {
    // main -> a -> b -> a  (cycle in a,b; main is NOT recursive)
    let prog = make_program(vec![
        make_func("main", &["a"]),
        make_func("a", &["b"]),
        make_func("b", &["a"]),
    ]);
    let result = analyze(&prog, None);
    assert!(!result.is_recursive("main"));
    assert!(result.is_recursive("a"));
    assert!(result.is_recursive("b"));
}

#[test]
fn diamond_no_recursion() {
    // main -> a, main -> b, a -> c, b -> c
    let prog = make_program(vec![
        make_func("main", &["a", "b"]),
        make_func("a", &["c"]),
        make_func("b", &["c"]),
        make_func("c", &[]),
    ]);
    let result = analyze(&prog, None);
    assert!(!result.is_recursive("main"));
    assert!(!result.is_recursive("a"));
    assert!(!result.is_recursive("b"));
    assert!(!result.is_recursive("c"));
}

// -- global allocation -----------------------------------------------

#[test]
fn global_allocation_basic() {
    let prog = IrProgram {
        globals: vec![
            GlobalVar {
                name: "x".into(),
                ty: CType::int_signed(),
                init: None,
            },
            GlobalVar {
                name: "buf".into(),
                ty: CType::array(CType::char_signed(), 10),
                init: None,
            },
        ],
        functions: vec![],
        strings: vec![],
    };

    let result = analyze(&prog, Some(0x8000));

    assert_eq!(result.global_addr("x"), Some(0x8000));
    // int = 2 bytes, so buf starts at 0x8002
    assert_eq!(result.global_addr("buf"), Some(0x8002));
    // buf = 10 * 1 = 10 bytes, next addr = 0x800C
    assert_eq!(result.next_addr, 0x800C);
}

// -- local allocation ------------------------------------------------

#[test]
fn local_allocation_simple() {
    let prog = make_program(vec![make_func_with_vars(
        "foo",
        &[("a", CType::int_signed())],
        &[("x", CType::int_signed()), ("y", CType::char_signed())],
        &[],
    )]);

    let result = analyze(&prog, Some(0x8000));

    // param a: 2 bytes at 0x8000
    assert_eq!(result.local_addr("foo", "a"), Some(0x8000));
    // local x: 2 bytes at 0x8002
    assert_eq!(result.local_addr("foo", "x"), Some(0x8002));
    // local y: 1 byte at 0x8004
    assert_eq!(result.local_addr("foo", "y"), Some(0x8004));
    // next: 0x8005
    assert_eq!(result.next_addr, 0x8005);
}

#[test]
fn recursive_function_gets_no_static_locals() {
    let prog = make_program(vec![make_func_with_vars(
        "rec",
        &[("n", CType::int_signed())],
        &[("tmp", CType::int_signed())],
        &["rec"],
    )]);

    let result = analyze(&prog, Some(0x8000));

    assert!(result.is_stack_mode("rec"));
    assert_eq!(result.local_addr("rec", "n"), None);
    assert_eq!(result.local_addr("rec", "tmp"), None);
    assert_eq!(result.next_addr, 0x8000); // nothing allocated
}

#[test]
fn mixed_recursive_and_non_recursive() {
    let prog = make_program(vec![
        make_func_with_vars(
            "main",
            &[],
            &[("retval", CType::int_signed())],
            &["helper", "rec"],
        ),
        make_func_with_vars(
            "helper",
            &[("a", CType::int_signed())],
            &[],
            &[],
        ),
        make_func_with_vars(
            "rec",
            &[("n", CType::int_signed())],
            &[("tmp", CType::int_signed())],
            &["rec"],
        ),
    ]);

    let result = analyze(&prog, Some(0x8000));

    // main is not recursive
    assert!(!result.is_stack_mode("main"));
    assert!(result.local_addr("main", "retval").is_some());

    // helper is not recursive
    assert!(!result.is_stack_mode("helper"));
    assert!(result.local_addr("helper", "a").is_some());

    // rec is recursive — no static allocation
    assert!(result.is_stack_mode("rec"));
    assert_eq!(result.local_addr("rec", "n"), None);
    assert_eq!(result.local_addr("rec", "tmp"), None);
}

#[test]
fn globals_before_locals() {
    let prog = IrProgram {
        globals: vec![GlobalVar {
            name: "g".into(),
            ty: CType::int_signed(),
            init: None,
        }],
        functions: vec![make_func_with_vars(
            "f",
            &[],
            &[("x", CType::int_signed())],
            &[],
        )],
        strings: vec![],
    };

    let result = analyze(&prog, Some(0x8000));

    // global g at 0x8000 (2 bytes)
    assert_eq!(result.global_addr("g"), Some(0x8000));
    // local x at 0x8002 (after globals)
    assert_eq!(result.local_addr("f", "x"), Some(0x8002));
    assert_eq!(result.next_addr, 0x8004);
}

// -- custom base address ---------------------------------------------

#[test]
fn custom_base_address() {
    let prog = make_program(vec![make_func_with_vars(
        "f",
        &[],
        &[("x", CType::int_signed())],
        &[],
    )]);

    let result = analyze(&prog, Some(0x4000));
    assert_eq!(result.local_addr("f", "x"), Some(0x4000));
}

#[test]
fn default_base_address() {
    let prog = make_program(vec![make_func_with_vars(
        "f",
        &[],
        &[("x", CType::int_signed())],
        &[],
    )]);

    let result = analyze(&prog, None);
    assert_eq!(result.local_addr("f", "x"), Some(DEFAULT_BASE_ADDR));
}

// -- CallGraph queries -----------------------------------------------

#[test]
fn callees_of_query() {
    let prog = make_program(vec![
        make_func("main", &["foo", "bar"]),
        make_func("foo", &[]),
        make_func("bar", &[]),
    ]);
    let result = analyze(&prog, None);

    let cs = result.graph.callees_of("main").unwrap();
    assert!(cs.contains("foo"));
    assert!(cs.contains("bar"));
    assert_eq!(cs.len(), 2);

    assert!(result.graph.callees_of("foo").unwrap().is_empty());
    assert!(result.graph.callees_of("unknown").is_none());
}

// -- three-node cycle ------------------------------------------------

#[test]
fn three_node_cycle() {
    // a -> b -> c -> a
    let prog = make_program(vec![
        make_func("a", &["b"]),
        make_func("b", &["c"]),
        make_func("c", &["a"]),
    ]);
    let result = analyze(&prog, None);
    assert!(result.is_recursive("a"));
    assert!(result.is_recursive("b"));
    assert!(result.is_recursive("c"));
}

// -- long types -------------------------------------------------------

#[test]
fn long_variable_uses_four_bytes() {
    let prog = make_program(vec![make_func_with_vars(
        "f",
        &[],
        &[
            ("a", CType::long_signed()),
            ("b", CType::char_signed()),
        ],
        &[],
    )]);

    let result = analyze(&prog, Some(0x8000));
    assert_eq!(result.local_addr("f", "a"), Some(0x8000));
    // long = 4 bytes → b starts at 0x8004
    assert_eq!(result.local_addr("f", "b"), Some(0x8004));
    assert_eq!(result.next_addr, 0x8005);
}

// -- pointer variables ------------------------------------------------

#[test]
fn pointer_variable_uses_two_bytes() {
    let prog = make_program(vec![make_func_with_vars(
        "f",
        &[("p", CType::ptr(CType::char_signed()))],
        &[],
        &[],
    )]);

    let result = analyze(&prog, Some(0x8000));
    assert_eq!(result.local_addr("f", "p"), Some(0x8000));
    assert_eq!(result.next_addr, 0x8002);
}


#[test]
fn a_cycle_closed_through_a_finished_function_is_found() {
    // a -> b -> a, and a -> c -> b: c lies on the cycle a -> c -> b -> a.
    let prog = make_program(vec![
        make_func("a", &["b", "c"]),
        make_func("b", &["a"]),
        make_func("c", &["b"]),
        make_func("d", &["a"]),
    ]);
    let result = analyze(&prog, None);
    assert!(result.is_recursive("a"));
    assert!(result.is_recursive("b"));
    assert!(result.is_recursive("c"));
    assert!(!result.is_recursive("d"));
    assert!(result.is_stack_mode("c"));
}
