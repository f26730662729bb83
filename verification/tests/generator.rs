use opcode_gen::generator::{
    collect_opcodes, generate_getter, opcodes_from_json, generate_setter, get_branch_cycle, get_cycles, hex_to_dec,
    is_branch_jp, is_numeric, rm_first_last, set_flag, sort_by_code,
};
use opcode_gen::opcode_data::{Cycles, Opcode};
use opcode_gen::text_map::TextMap;

#[test]
fn getter_for_each_kind_of_operand() {
    assert_eq!(generate_getter("5", 8), "5");
    assert_eq!(generate_getter("00h", 8), "0x00");
    assert_eq!(generate_getter("NZ", 8), "!self.status.contains(StatusFlags::Z)");
    assert_eq!(generate_getter("NC", 8), "!self.status.contains(StatusFlags::C)");
    assert_eq!(generate_getter("Z", 8), "self.status.contains(StatusFlags::Z)");
    assert_eq!(generate_getter("CF", 8), "self.status.contains(StatusFlags::C)");
    assert_eq!(generate_getter("i8", 8), "self.mem_read_u8(self.program_counter)");
    assert_eq!(generate_getter("u16", 16), "self.mem_read_u16(self.program_counter)");
    assert_eq!(
        generate_getter("FF00+u8", 8),
        "0xFF00 + self.mem_read_u8(self.program_counter)"
    );
    assert_eq!(
        generate_getter("(FF00+C)", 8),
        "self.mem_read_u8(0xFF00 + self.get_c())"
    );
    assert_eq!(generate_getter("(HL+)", 8), "self.mem_read_u8(self.get_hl+())");
    assert_eq!(
        generate_getter("SP+i8", 16),
        "self.get_sp() + self.mem_read_u8(self.program_counter)"
    );
    assert_eq!(generate_getter("HL", 16), "self.get_hl()");
}

#[test]
fn setter_for_registers_and_memory() {
    assert_eq!(generate_setter("A", 8), "self.set_a(");
    assert_eq!(generate_setter("(HL)", 16), "self.mem_write_u16(self.get_hl(), ");
    assert_eq!(
        generate_setter("(u16)", 16),
        "self.mem_write_u16(self.mem_read_u16(self.program_counter), "
    );
}

#[test]
fn flag_statements() {
    assert_eq!(set_flag("-", "Z"), "");
    assert_eq!(set_flag("0", "N"), "self.status.remove(StatusFlags::N);");
    assert_eq!(set_flag("1", "H"), "self.status.insert(StatusFlags::H);");
    assert_eq!(set_flag("Z", "Z"), "self.status.set(StatusFlags::Z, z);");
}

#[test]
fn numbers_and_hex() {
    assert!(is_numeric(" 12 "));
    assert!(is_numeric("+7"));
    assert!(!is_numeric("1a"));
    assert!(!is_numeric(""));
    assert!(!is_numeric("-1"));
    assert_eq!(hex_to_dec("CB1D"), 0xCB1D);
    assert_eq!(hex_to_dec("00af"), 0xAF);
    assert_eq!(rm_first_last("(HL)"), "HL");
    assert_eq!(rm_first_last("()"), "");
}

#[test]
fn cycle_counts() {
    assert_eq!(get_cycles(&Cycles::One(4)), "4");
    assert_eq!(get_branch_cycle(&Cycles::One(4)), "4");
    assert_eq!(get_cycles(&Cycles::Two(12, 8)), "8");
    assert_eq!(get_branch_cycle(&Cycles::Two(12, 8)), "12");
    assert_eq!(get_cycles(&Cycles::One(0)), "0");
    assert_eq!(get_cycles(&Cycles::Two(0, 120)), "120");
    assert!(is_branch_jp(Some(2)));
    assert!(!is_branch_jp(Some(1)));
    assert!(!is_branch_jp(None));
}

fn fields(mnemonic: &str) -> TextMap {
    TextMap::from_pairs(
        [
            ("bits", "8"),
            ("operands", "A"),
            ("N", "-"),
            ("H", "-"),
            ("C", "-"),
            ("K", "-"),
            ("size", "1"),
            ("mnemonic", mnemonic),
            ("cycles", "4"),
            ("operator", "X"),
        ]
        .iter()
        .map(|(k, v)| (k.to_string(), v.to_string()))
        .collect(),
    )
}

#[test]
fn opcodes_come_out_sorted_by_code() {
    let non_cb = vec![
        ("FF".to_string(), fields("a")),
        ("01".to_string(), fields("b")),
        ("10".to_string(), fields("c")),
    ];
    let cb = vec![("00".to_string(), fields("d")), ("0f".to_string(), fields("e"))];
    let ops = collect_opcodes(non_cb, cb);
    let codes: Vec<&str> = ops.iter().map(|o| o.code.as_str()).collect();
    assert_eq!(codes, vec!["0001", "0010", "00FF", "CB00", "CB0f"]);
}

#[test]
fn sorting_keeps_order_of_equal_codes() {
    let a = Opcode::new("1A".to_string(), fields("first"), false);
    let b = Opcode::new("01".to_string(), fields("second"), false);
    let c = Opcode::new("1a".to_string(), fields("third"), false);
    let sorted = sort_by_code(vec![a, b, c]);
    let names: Vec<&str> = sorted.iter().map(|o| o.mnemonic.as_str()).collect();
    assert_eq!(names, vec!["second", "first", "third"]);
}

const NON_CB_JSON: &str = r#"{
  "C2": {"bits": "16", "operands": "NZ|u16", "N": "-", "H": "-", "C": "-", "K": "-",
         "size": "3", "mnemonic": "JP NZ,u16", "cycles": "16-12", "operator": "JP"},
  "00": {"bits": "0", "operands": "", "N": "-", "H": "-", "C": "-", "K": "-",
         "size": "1", "mnemonic": "NOP", "cycles": "4", "operator": "NOP"}
}"#;

const CB_JSON: &str = r#"{
  "11": {"bits": "8", "operands": "C", "N": "0", "H": "0", "C": "C", "K": "Z",
         "size": "2", "mnemonic": "RL C", "cycles": "8", "operator": "RL"}
}"#;

#[test]
fn json_tables_become_sorted_opcodes() {
    let ops = opcodes_from_json(NON_CB_JSON, CB_JSON).unwrap();
    let codes: Vec<&str> = ops.iter().map(|o| o.code.as_str()).collect();
    assert_eq!(codes, vec!["0000", "00C2", "CB11"]);
    assert_eq!(ops[1].cycles, Cycles::Two(16, 12));
    assert_eq!(ops[2].z, "Z");
}

#[test]
fn json_tables_that_cannot_be_read_are_refused() {
    assert!(opcodes_from_json("not json", CB_JSON).is_none());
    assert!(opcodes_from_json(NON_CB_JSON, r#"{"11": {"bits": "8"}}"#).is_none());
    let bad_code = r#"{"XY": {"bits": "8", "operands": "C", "N": "0", "H": "0", "C": "C", "K": "Z",
         "size": "2", "mnemonic": "RL C", "cycles": "8", "operator": "RL"}}"#;
    assert!(opcodes_from_json(NON_CB_JSON, bad_code).is_none());
    let single = opcodes_from_json("{}", bad_code).unwrap();
    assert_eq!(single[0].code, "CBXY");
}

#[test]
fn json_entry_order_does_not_matter() {
    let reordered = r#"{
  "00": {"bits": "0", "operands": "", "N": "-", "H": "-", "C": "-", "K": "-",
         "size": "1", "mnemonic": "NOP", "cycles": "4", "operator": "NOP"},
  "C2": {"bits": "16", "operands": "NZ|u16", "N": "-", "H": "-", "C": "-", "K": "-",
         "size": "3", "mnemonic": "JP NZ,u16", "cycles": "16-12", "operator": "JP"}
}"#;
    let first = opcodes_from_json(NON_CB_JSON, CB_JSON).unwrap();
    let second = opcodes_from_json(reordered, CB_JSON).unwrap();
    let a: Vec<(&str, &str)> = first.iter().map(|o| (o.code.as_str(), o.mnemonic.as_str())).collect();
    let b: Vec<(&str, &str)> = second.iter().map(|o| (o.code.as_str(), o.mnemonic.as_str())).collect();
    assert_eq!(a, b);
}
