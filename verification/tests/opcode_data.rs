use opcode_gen::opcode_data::{Cycles, Opcode};
use opcode_gen::text_map::TextMap;

fn pairs(items: &[(&str, &str)]) -> TextMap {
    TextMap::from_pairs(items.iter().map(|(k, v)| (k.to_string(), v.to_string())).collect())
}

#[test]
fn test_constructor() {
    let data = pairs(&[
        ("bits", "8"),
        ("operands", "E"),
        ("N", "1"),
        ("H", "H"),
        ("C", "-"),
        ("size", "1"),
        ("K", "Z"),
        ("mnemonic", "DEC E"),
        ("cycles", "4"),
        ("operator", "DEC"),
    ]);

    let code = "1D".to_string();

    let s = Opcode::new(code, data, true);

    assert_eq!("CB1D", &s.code);
}

#[test]
fn new_reads_every_field() {
    let data = pairs(&[
        ("bits", "16"),
        ("operands", "NZ|u16"),
        ("N", "-"),
        ("H", "-"),
        ("C", "-"),
        ("Z", "-"),
        ("size", "3"),
        ("mnemonic", "JP NZ,u16"),
        ("cycles", "16-12"),
        ("operator", "JP"),
    ]);
    assert!(Opcode::accepts(&data));
    let op = Opcode::new("C2".to_string(), data, false);
    assert_eq!(op.code, "00C2");
    assert_eq!(op.mnemonic, "JP NZ,u16");
    assert_eq!(op.operator, "JP");
    assert_eq!(op.operands, vec!["NZ".to_string(), "u16".to_string()]);
    assert_eq!(op.cycles, Cycles::Two(16, 12));
    assert_eq!(op.size, 3);
    assert_eq!(op.bits, 16);
    assert_eq!(op.z, "-");
}

#[test]
fn zero_flag_is_read_under_z_before_k() {
    let data = pairs(&[
        ("bits", "0"),
        ("operands", ""),
        ("N", "0"),
        ("H", "0"),
        ("C", "0"),
        ("Z", "0"),
        ("K", "Z"),
        ("size", "1"),
        ("mnemonic", "XOR A"),
        ("cycles", "4"),
        ("operator", "XOR"),
    ]);
    let op = Opcode::new("AF".to_string(), data, false);
    assert_eq!(op.z, "0");
    assert_eq!(op.operands, vec!["".to_string()]);
    assert_eq!(op.cycles, Cycles::One(4));
}

#[test]
fn carry_condition_is_renamed() {
    assert_eq!(Opcode::fix_c_flag("0038", "C"), "CF");
    assert_eq!(Opcode::fix_c_flag("00D8", "C"), "CF");
    assert_eq!(Opcode::fix_c_flag("00DA", "C"), "CF");
    assert_eq!(Opcode::fix_c_flag("00DC", "C"), "CF");
    assert_eq!(Opcode::fix_c_flag("0039", "C"), "C");
    assert_eq!(Opcode::fix_c_flag("0038", "-"), "-");
}

#[test]
fn accepts_rejects_missing_or_bad_fields() {
    let missing = pairs(&[("bits", "8"), ("size", "1")]);
    assert!(!Opcode::accepts(&missing));
    let bad_cycles = pairs(&[
        ("bits", "8"),
        ("operands", "E"),
        ("N", "1"),
        ("H", "H"),
        ("C", "-"),
        ("size", "1"),
        ("K", "Z"),
        ("mnemonic", "DEC E"),
        ("cycles", "4-x"),
        ("operator", "DEC"),
    ]);
    assert!(!Opcode::accepts(&bad_cycles));
}

#[test]
fn get_number_reads_counts() {
    let data = pairs(&[("size", "+12"), ("bits", "16")]);
    assert_eq!(Opcode::get_number(&data, "size"), 12);
    assert_eq!(Opcode::get_number(&data, "bits"), 16);
}

#[test]
fn text_map_keeps_last_value() {
    let mut m = pairs(&[("a", "1"), ("b", "2"), ("a", "3")]);
    assert_eq!(m.get("a").map(|s| s.as_str()), Some("3"));
    m.insert("b".to_string(), "4".to_string());
    assert_eq!(m.get("b").map(|s| s.as_str()), Some("4"));
    assert!(!m.contains_key("c"));
    assert_eq!(m.to_pairs().len(), 2);
    let rebuilt = TextMap::from_pairs(m.to_pairs());
    assert_eq!(rebuilt.get("a").map(|s| s.as_str()), Some("3"));
    assert_eq!(rebuilt.get("b").map(|s| s.as_str()), Some("4"));
    assert_eq!(rebuilt.to_pairs().len(), 2);
}
