//! The data section: globals, string literals, spill slots, static slots
//! and variadic bases.

use lib::callgraph::analyze;
use lib::codegen::data::data_section;
use lib::ir::{GlobalVar, IrFunction, IrParam, IrProgram, StringLiteral, VReg, Width};
use lib::maps::AssocMap;
use lib::types::CType;

fn lines(v: &[&str]) -> Vec<String> {
    v.iter().map(|s| s.to_string()).collect()
}

#[test]
fn data_section_globals_strings_spills_and_va() {
    let mut pf = IrFunction::new("pf", CType::Void);
    pf.is_variadic = true;
    let prog = IrProgram {
        globals: vec![
            GlobalVar { name: "x".into(), ty: CType::int_signed(), init: Some(vec![5]) },
            GlobalVar { name: "_y".into(), ty: CType::char_signed(), init: None },
            GlobalVar { name: "x".into(), ty: CType::int_signed(), init: None },
            GlobalVar { name: "_l_main_t".into(), ty: CType::int_signed(), init: None },
            GlobalVar { name: "_l_main_u".into(), ty: CType::int_signed(), init: None },
        ],
        functions: vec![pf],
        strings: vec![StringLiteral { label: "_S0".into(), data: vec![104, 105, 0] }],
    };
    let analysis = analyze(&prog, None);
    let code = lines(&["\tLDA _l_main_u+1", "\tSHLD __spill_3", "\tLHLD __spill_3", "\tSTA __spill_1)"]);
    let mut widths: AssocMap<String, Width> = AssocMap::new();
    widths.insert("__spill_1".to_string(), Width::W8);
    let out = data_section(&prog, &analysis, &code, &widths);
    assert_eq!(
        out,
        lines(&[
            "_g_x:", "\tDB 5", "\tDB 0",
            "_y:", "\t.storage 1",
            "_l_main_u:", "\t.storage 2",
            "_S0:", "\tDB 104", "\tDB 105", "\tDB 0",
            "__spill_3:", "\t.storage 2",
            "__spill_1:", "\t.storage 1",
            "__va_base_pf:", "\t.storage 2",
        ])
    );
}

#[test]
fn data_section_static_slots_by_address_then_label() {
    let mut foo = IrFunction::new("foo", CType::int_signed());
    foo.params.push(IrParam { name: "a".to_string(), ty: CType::int_signed(), vreg: VReg::new(0, Width::W16) });
    foo.locals.push(("x".to_string(), CType::int_signed(), 0));
    let prog = IrProgram {
        globals: vec![GlobalVar { name: "_l_foo_z".into(), ty: CType::array(CType::char_signed(), 4), init: None }],
        functions: vec![foo],
        strings: vec![],
    };
    let mut analysis = analyze(&prog, Some(0x8000));
    let x_addr = *analysis.local_allocs.get(&"_l_foo_x".to_string()).unwrap();
    let a_addr = *analysis.local_allocs.get(&"_l_foo_a".to_string()).unwrap();
    assert!(a_addr < x_addr);
    analysis.local_allocs.insert("_l_foo_z".to_string(), x_addr);
    let out = data_section(&prog, &analysis, &vec![], &AssocMap::new());
    assert_eq!(
        out,
        lines(&["_l_foo_a:", "\t.storage 2", "_l_foo_x:", "_l_foo_z:", "\t.storage 4"])
    );
}
