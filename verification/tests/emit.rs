//! The assembly listing: operand expressions, instruction encoding, line
//! parsing and the two-pass layout.

use lib::emit::encode::{encode_8080_instruction, encode_imm16, push_pop_code, reg_code, rp_code};
use lib::emit::expr::{eval_expr, parse_atom};
use lib::emit::listing::{
    build_listing_rows, format_bytes_column, is_identifier, map_c_source_marker, parse_listing_line, split_args,
    ListingStmt,
};
use lib::maps::AssocMap;

fn chars(s: &str) -> Vec<char> {
    s.chars().collect()
}

fn strings(v: &[&str]) -> Vec<String> {
    v.iter().map(|s| s.to_string()).collect()
}

fn no_labels() -> AssocMap<String, u16> {
    AssocMap::new()
}

#[test]
fn expr_hex_decimal_binary_and_chars() {
    let l = no_labels();
    assert_eq!(eval_expr("0x10+2", &l, 0), Some(18));
    assert_eq!(eval_expr("10h", &l, 0), Some(16));
    assert_eq!(eval_expr("0FFH", &l, 0), Some(255));
    assert_eq!(eval_expr("101b", &l, 0), Some(5));
    assert_eq!(eval_expr("'A'", &l, 0), Some(65));
    assert_eq!(eval_expr("\"z\"", &l, 0), Some(122));
    assert_eq!(eval_expr(" 42 ", &l, 0), Some(42));
}

#[test]
fn expr_current_address_and_labels() {
    let mut l = no_labels();
    l.insert("loop".to_string(), 0x200);
    assert_eq!(eval_expr("$+3", &l, 0x100), Some(0x103));
    assert_eq!(eval_expr("loop-1", &l, 0), Some(0x1FF));
    assert_eq!(eval_expr("loop + 2", &l, 0), Some(0x202));
}

#[test]
fn expr_wraps_and_fails() {
    let l = no_labels();
    assert_eq!(eval_expr("1-2", &l, 0), Some(0xFFFF));
    assert_eq!(eval_expr("-1", &l, 0), Some(0xFFFF));
    assert_eq!(eval_expr("zz", &l, 0), None);
    assert_eq!(eval_expr("0x", &l, 0), None);
    assert_eq!(eval_expr("70000", &l, 0), None);
    assert_eq!(eval_expr("", &l, 0), Some(0));
}

#[test]
fn atom_binary_suffix_falls_back_to_label() {
    let mut l = no_labels();
    l.insert("tab".to_string(), 7);
    // "tab" ends in 'b' but "ta" is not binary, so it is a label.
    assert_eq!(parse_atom(&chars("tab"), &l, 0), Some(7));
    assert_eq!(parse_atom(&chars("$"), &l, 9), Some(9));
}

#[test]
fn register_codes() {
    assert_eq!(reg_code("a"), Some(7));
    assert_eq!(reg_code(" M "), Some(6));
    assert_eq!(reg_code("X"), None);
    assert_eq!(rp_code("hl"), Some(2));
    assert_eq!(rp_code("SP"), Some(3));
    assert_eq!(push_pop_code("PSW"), Some(3));
    assert_eq!(push_pop_code("SP"), None);
}

#[test]
fn imm16_is_little_endian() {
    assert_eq!(encode_imm16(0xC3, 0x1234), vec![0xC3, 0x34, 0x12]);
}

#[test]
fn encode_register_and_immediate_forms() {
    let l = no_labels();
    assert_eq!(encode_8080_instruction("NOP", &vec![], &l, 0), vec![0x00]);
    assert_eq!(encode_8080_instruction("MOV", &strings(&["A", "B"]), &l, 0), vec![0x78]);
    assert_eq!(encode_8080_instruction("MVI", &strings(&["A", "0"]), &l, 0), vec![0x3E, 0x00]);
    assert_eq!(encode_8080_instruction("ADD", &strings(&["M"]), &l, 0), vec![0x86]);
    assert_eq!(encode_8080_instruction("LXI", &strings(&["H", "0x1234"]), &l, 0), vec![0x21, 0x34, 0x12]);
    assert_eq!(encode_8080_instruction("DAD", &strings(&["D"]), &l, 0), vec![0x19]);
    assert_eq!(encode_8080_instruction("PUSH", &strings(&["PSW"]), &l, 0), vec![0xF5]);
    assert_eq!(encode_8080_instruction("POP", &strings(&["B"]), &l, 0), vec![0xC1]);
    assert_eq!(encode_8080_instruction("LDAX", &strings(&["D"]), &l, 0), vec![0x1A]);
    assert_eq!(encode_8080_instruction("STAX", &strings(&["B"]), &l, 0), vec![0x02]);
    assert_eq!(encode_8080_instruction("CPI", &strings(&["0x1FF"]), &l, 0), vec![0xFE, 0xFF]);
    assert_eq!(encode_8080_instruction("RST", &strings(&["7"]), &l, 0), vec![0xFF]);
    assert_eq!(encode_8080_instruction("FOO", &vec![], &l, 0), Vec::<u8>::new());
}

#[test]
fn encode_jump_to_label() {
    let mut l = no_labels();
    l.insert("_start".to_string(), 0x0103);
    assert_eq!(encode_8080_instruction("JMP", &strings(&["_start"]), &l, 0), vec![0xC3, 0x03, 0x01]);
    // An unknown label assembles as address 0.
    assert_eq!(encode_8080_instruction("CALL", &strings(&["nowhere"]), &l, 0), vec![0xCD, 0x00, 0x00]);
}

#[test]
fn identifiers() {
    assert!(is_identifier(&chars("_start")));
    assert!(is_identifier(&chars(".L1")));
    assert!(!is_identifier(&chars("1abc")));
    assert!(!is_identifier(&chars("")));
    assert!(!is_identifier(&chars("a b")));
}

#[test]
fn operands_are_split_and_trimmed() {
    assert_eq!(split_args(&chars(" a , ,b ")), strings(&["a", "b"]));
    assert_eq!(split_args(&chars("")), Vec::<String>::new());
}

#[test]
fn parse_label_only_line() {
    let p = parse_listing_line("main:");
    assert_eq!(p.label, Some("main".to_string()));
    assert!(p.stmt.is_none());
}

#[test]
fn parse_instruction_with_comment() {
    let p = parse_listing_line("\tmvi a,0 ; clear");
    assert!(p.label.is_none());
    match p.stmt {
        Some(ListingStmt::Inst { op, args }) => {
            assert_eq!(op, "MVI");
            assert_eq!(args, strings(&["a", "0"]));
        },
        _ => panic!("expected an instruction"),
    }
}

#[test]
fn parse_directives() {
    assert!(matches!(parse_listing_line("\t.org 0x100").stmt, Some(ListingStmt::Org(0x100))));
    assert!(matches!(parse_listing_line("buf: DS 4").stmt, Some(ListingStmt::Ds(4))));
    match parse_listing_line("DB 1, 2 ,3").stmt {
        Some(ListingStmt::Db(v)) => assert_eq!(v, strings(&["1", "2", "3"])),
        _ => panic!("expected DB"),
    }
    assert!(parse_listing_line("   ; only a comment").stmt.is_none());
}

#[test]
fn bytes_column_format() {
    assert_eq!(format_bytes_column(&vec![]), "");
    assert_eq!(format_bytes_column(&vec![0xC3, 0x00, 0x01]), "C3 00 01");
    let ten: Vec<u8> = (0..10).collect();
    assert_eq!(format_bytes_column(&ten), "00 01 02 03 04 05 06 07 ... (+2 bytes)");
}

#[test]
fn c_line_markers() {
    let src = strings(&["int a;", "int main(void) { return 0; }  "]);
    assert_eq!(map_c_source_marker(&chars("; C_LINE 2"), Some(&src)), "; 2 int main(void) { return 0; }");
    assert_eq!(map_c_source_marker(&chars("; C_LINE 9"), Some(&src)), "; 9");
    assert_eq!(map_c_source_marker(&chars("; C_LINE x"), Some(&src)), "; C_LINE x");
    assert_eq!(map_c_source_marker(&chars("\tNOP"), None), "\tNOP");
}

#[test]
fn listing_layout_two_passes() {
    let lines = strings(&["\t.org 0x100", "\tJMP _start", "_start:", "\tHLT", "data: DW _start, 1"]);
    let rows = build_listing_rows(&lines, None);
    assert_eq!(rows.len(), 5);
    assert_eq!(rows[0].address, Some(0x100));
    assert!(rows[0].bytes.is_empty());
    assert_eq!(rows[1].address, Some(0x100));
    assert_eq!(rows[1].bytes, vec![0xC3, 0x03, 0x01]);
    assert_eq!(rows[2].address, Some(0x103));
    assert_eq!(rows[3].bytes, vec![0x76]);
    assert_eq!(rows[4].address, Some(0x104));
    assert_eq!(rows[4].bytes, vec![0x03, 0x01, 0x01, 0x00]);
    assert_eq!(rows[1].text, "\tJMP _start");
}
