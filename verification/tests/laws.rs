use opcode_gen::generator::{generate_getter, generate_setter, get_cycles, hex_to_dec};
use opcode_gen::html_scraper::{extract_table, parse_scraped_entry, TableCell};
use opcode_gen::opcode_data::{Cycles, Opcode};
use opcode_gen::pest_parser::parse_str;
use opcode_gen::text::{chars_of, join_strings, parse_unsigned_chars, split_chars};
use opcode_gen::text_map::TextMap;

#[test]
fn written_counts_read_back() {
    let text = get_cycles(&Cycles::Two(3, 18446744073709551615));
    let value = parse_unsigned_chars(&chars_of(&text), 10, usize::MAX);
    assert_eq!(value, Some(usize::MAX));
    let data = TextMap::from_pairs(vec![("size".to_string(), get_cycles(&Cycles::One(255)))]);
    assert_eq!(Opcode::get_number(&data, "size"), 255);
}

#[test]
fn split_and_join_undo_each_other() {
    let pieces = vec!["(HL+)".to_string(), "A".to_string(), "".to_string()];
    let joined = join_strings(&pieces, "|");
    assert_eq!(joined, "(HL+)|A|");
    assert_eq!(split_chars(&chars_of(&joined), '|'), pieces);
    let text = "a||b|";
    let back = join_strings(&split_chars(&chars_of(text), '|'), "|");
    assert_eq!(back, text);
}

#[test]
fn operands_and_cycles_survive_reading_and_building() {
    let mut fields = parse_str("LD (FF00+u8),A\n2 12t\n- - - -".to_string());
    fields.insert("bits".to_string(), "8".to_string());
    assert!(Opcode::accepts(&fields));
    let op = Opcode::new("E0".to_string(), fields, false);
    assert_eq!(op.operands, vec!["(FF00+u8)".to_string(), "A".to_string()]);
    assert_eq!(op.cycles, Cycles::One(12));
    assert_eq!(op.size, 2);
}

#[test]
fn operands_do_not_survive_without_any() {
    let mut fields = parse_str("NOP\n1 4t\n- - - -".to_string());
    fields.insert("bits".to_string(), "0".to_string());
    let op = Opcode::new("00".to_string(), fields, false);
    assert_eq!(op.operands, vec!["".to_string()]);
}

#[test]
fn memory_operands_read_and_written_at_the_same_place() {
    let read = generate_getter("(BC)", 8);
    let write = generate_setter("(BC)", 8);
    assert_eq!(read, "self.mem_read_u8(self.get_bc())");
    assert_eq!(write, "self.mem_write_u8(self.get_bc(), ");
}

#[test]
fn table_position_gives_the_code_value() {
    let mut row = Vec::new();
    for _ in 0..16 {
        row.push(TableCell {
            has_children: true,
            class: Some(String::new()),
            content: Some("NOP<br>1 4t<br>- - - -".to_string()),
        });
    }
    let rows = vec![Vec::new(), row];
    let table = extract_table(&rows);
    let pairs = table.to_pairs();
    assert_eq!(pairs.len(), 16);
    for (key, text) in pairs {
        let (code, _) = parse_scraped_entry(&key, &text);
        let value = hex_to_dec(&format!("00{code}"));
        let lsb = u16::from_str_radix(&key[1..2], 16).unwrap();
        assert_eq!(value, 16 + lsb);
    }
}

#[test]
fn width_matters_only_for_memory_operands() {
    for op in ["HL", "SP+i8", "FF00+u8", "u16", "NZ", "00h"] {
        assert_eq!(generate_getter(op, 8), generate_getter(op, 16));
    }
    assert_ne!(generate_getter("(HL)", 8), generate_getter("(HL)", 16));
}

fn opcode(code: &str) -> Opcode {
    let data = TextMap::from_pairs(
        [
            ("bits", "8"), ("operands", "A"), ("N", "-"), ("H", "-"), ("C", "-"), ("K", "-"),
            ("size", "1"), ("mnemonic", code), ("cycles", "4"), ("operator", "X"),
        ]
        .iter()
        .map(|(k, v)| (k.to_string(), v.to_string()))
        .collect(),
    );
    Opcode::new(code.to_string(), data, false)
}

#[test]
fn sorting_ignores_the_input_order() {
    let first = opcode_gen::generator::sort_by_code(vec![opcode("3A"), opcode("01"), opcode("C0")]);
    let second = opcode_gen::generator::sort_by_code(vec![opcode("C0"), opcode("3A"), opcode("01")]);
    let a: Vec<&str> = first.iter().map(|o| o.code.as_str()).collect();
    let b: Vec<&str> = second.iter().map(|o| o.code.as_str()).collect();
    assert_eq!(a, b);
    assert_eq!(a, vec!["0001", "003A", "00C0"]);
}
