//! The assembly clean-up and the stand-alone analyses of the code generator.

use lib::codegen::helpers::{
    asm_ends_with_control_flow, collect_op_src_ids, compute_last_use, cpi_branch_false, cpi_branch_true,
    is_float_runtime_call,
};
use lib::codegen::layout::compact_cfg_layout;
use lib::ir::{IrFunction, IrInstr, IrOp, Label, VReg, Width};
use lib::types::CType;

fn lines(ls: &[&str]) -> Vec<String> {
    ls.iter().map(|s| s.to_string()).collect()
}

fn v(id: u32) -> VReg {
    VReg::new(id, Width::W16)
}

#[test]
fn jumps_through_jump_labels_are_forwarded() {
    let out = compact_cfg_layout(lines(&[
        "main:", "\tJMP L1", "L1:", "\tJMP L2", "L2:", "\tMVI A,1", "\tJZ L1", "\tRET",
    ]));
    assert_eq!(out, lines(&["main:", "\tJMP L2", "L1:", "L2:", "\tMVI A,1", "\tJZ L2", "\tRET"]));
}

#[test]
fn jump_to_next_label_is_dropped_across_comments() {
    let out = compact_cfg_layout(lines(&["\tMVI A,1", "\tjmp L3", "; note", "", "L3:", "\tRET"]));
    assert_eq!(out, lines(&["\tMVI A,1", "; note", "", "L3:", "\tRET"]));
}

#[test]
fn lines_without_jumps_are_kept() {
    let input = lines(&["f:", "\tMOV A,B", "\tRET"]);
    assert_eq!(compact_cfg_layout(input.clone()), input);
    assert!(compact_cfg_layout(Vec::new()).is_empty());
}

#[test]
fn jump_cycle_is_left_pointing_into_the_cycle() {
    let out = compact_cfg_layout(lines(&["A:", "\tJMP B", "B:", "\tJMP A", "\tJNZ A"]));
    assert_eq!(out.len(), 5);
    assert!(out[4] == "\tJNZ B" || out[4] == "\tJNZ A");
}

#[test]
fn last_reads_of_vregs() {
    let body = vec![
        IrInstr::bare(IrOp::load_imm(v(1), 5)),
        IrInstr::bare(IrOp::add(v(2), v(1), v(1), Width::W16)),
        IrInstr::bare(IrOp::store_global("_g_x", v(2))),
        IrInstr::bare(IrOp::ret(Some(v(1)))),
    ];
    let last = compute_last_use(&body);
    assert_eq!(last.get(&1), Some(&3));
    assert_eq!(last.get(&2), Some(&2));
    assert_eq!(last.get(&0), None);
    assert_eq!(collect_op_src_ids(&body[1].op), vec![1, 1]);
    assert!(collect_op_src_ids(&body[0].op).is_empty());
}

#[test]
fn inline_assembly_ending_in_return() {
    let mut f = IrFunction::new("f", CType::Void);
    f.body = vec![IrInstr::bare(IrOp::InlineAsm {
        code: "  mvi a,1\n  ret ; done\n\n; trailing".to_string(),
        inputs: Vec::new(),
        return_type: None,
        clobber_all: false,
    })];
    assert!(asm_ends_with_control_flow(&f));
    f.body.push(IrInstr::bare(IrOp::InlineAsm {
        code: "  pchl".to_string(),
        inputs: Vec::new(),
        return_type: None,
        clobber_all: false,
    }));
    assert!(asm_ends_with_control_flow(&f));
    f.body.push(IrInstr::bare(IrOp::InlineAsm {
        code: "  mov a,b".to_string(),
        inputs: Vec::new(),
        return_type: None,
        clobber_all: false,
    }));
    assert!(!asm_ends_with_control_flow(&f));
    f.body.push(IrInstr::bare(IrOp::label(Label::new(0))));
    f.body.push(IrInstr::bare(IrOp::InlineAsm {
        code: "; only a comment".to_string(),
        inputs: Vec::new(),
        return_type: None,
        clobber_all: false,
    }));
    assert!(!asm_ends_with_control_flow(&f));
    assert!(!asm_ends_with_control_flow(&IrFunction::new("g", CType::Void)));
}

#[test]
fn compare_immediate_branches() {
    assert_eq!(cpi_branch_true("eq", false), Some("JZ"));
    assert_eq!(cpi_branch_true("lt", true), Some("JC"));
    assert_eq!(cpi_branch_true("gt", false), None);
    assert_eq!(cpi_branch_false("ne", false), Some("JZ"));
    assert_eq!(cpi_branch_false("ge", true), Some("JC"));
    assert_eq!(cpi_branch_false("le", false), None);
}

#[test]
fn soft_float_helpers() {
    assert!(is_float_runtime_call("__fadd"));
    assert!(is_float_runtime_call("__ftoi"));
    assert!(!is_float_runtime_call("__mul16"));
    assert!(!is_float_runtime_call("fadd"));
}
