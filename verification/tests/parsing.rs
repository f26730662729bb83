use opcode_gen::html_scraper::{
    extract_table, parse_scraped_entry, replace_zero_width_spaces, scrap_record, scrap_tables,
    TableCell,
};
use opcode_gen::opcode_data::{Cycles, Opcode};
use opcode_gen::pest_parser::{get_flag_value, parse_str, OpcodeParser, Rule};

#[test]
fn parses_the_documented_example() {
    let m = parse_str("SCF\n1 4t\n- 0 0 1".to_string());
    assert_eq!(m.get("mnemonic").unwrap(), "SCF");
    assert_eq!(m.get("operator").unwrap(), "SCF");
    assert_eq!(m.get("operands").unwrap(), "");
    assert_eq!(m.get("size").unwrap(), "1");
    assert_eq!(m.get("cycles").unwrap(), "4");
    assert_eq!(m.get("K").unwrap(), "-");
    assert_eq!(m.get("N").unwrap(), "0");
    assert_eq!(m.get("H").unwrap(), "0");
    assert_eq!(m.get("C").unwrap(), "1");
}

#[test]
fn parses_a_branch_with_operands() {
    let m = parse_str("JR NZ,i8\n2 12t-8t\n- - - -".to_string());
    assert_eq!(m.get("mnemonic").unwrap(), "JR NZ,i8");
    assert_eq!(m.get("operator").unwrap(), "JR");
    assert_eq!(m.get("operands").unwrap(), "NZ|i8");
    assert_eq!(m.get("size").unwrap(), "2");
    assert_eq!(m.get("cycles").unwrap(), "12-8");
}

#[test]
fn parser_rejects_malformed_cells() {
    assert!(OpcodeParser::parse("SCF\n1 4\n- 0 0 1").is_none());
    assert!(OpcodeParser::parse("SCF\n1 4t\n- 0 0").is_none());
    assert!(OpcodeParser::parse("LD A,,B\n1 4t\n- - - -").is_none());
    assert!(OpcodeParser::parse("SCF\nx 4t\n- 0 0 1").is_none());
    assert!(OpcodeParser::parse("SCF\n1 4t\n- 0 0 X").is_none());
    let ins = OpcodeParser::parse("  LD (HL+),A \n 1  8t\n - - - - ").unwrap();
    assert_eq!(ins.operands, vec!["(HL+)".to_string(), "A".to_string()]);
    assert_eq!(ins.flags, vec![Rule::NotAffect; 4]);
}

#[test]
fn flag_values() {
    assert_eq!(get_flag_value(Rule::Z), "Z");
    assert_eq!(get_flag_value(Rule::N), "N");
    assert_eq!(get_flag_value(Rule::H), "H");
    assert_eq!(get_flag_value(Rule::C), "C");
    assert_eq!(get_flag_value(Rule::NotAffect), "-");
    assert_eq!(get_flag_value(Rule::SetOne), "1");
    assert_eq!(get_flag_value(Rule::Unset), "0");
}

#[test]
fn scraped_entry_becomes_an_opcode() {
    let (code, fields) = parse_scraped_entry("c2-16", "JP\u{200b}NZ,u16\n3 16t-12t\n-\u{200b}-\u{200b}-\u{200b}-");
    assert_eq!(code, "C2");
    assert_eq!(fields.get("bits").unwrap(), "16");
    assert!(Opcode::accepts(&fields));
    let op = Opcode::new(code, fields, false);
    assert_eq!(op.code, "00C2");
    assert_eq!(op.operands, vec!["NZ".to_string(), "u16".to_string()]);
    assert_eq!(op.cycles, Cycles::Two(16, 12));
    assert_eq!(op.z, "-");
}

#[test]
fn scraped_entry_without_bits() {
    let (code, fields) = parse_scraped_entry("00", "NOP\n1 4t\n- - - -");
    assert_eq!(code, "00");
    assert_eq!(fields.get("bits").unwrap(), "0");
}

#[test]
fn zero_width_spaces_become_spaces() {
    assert_eq!(replace_zero_width_spaces("a\u{200b}b\u{200b}"), "a b ");
}

fn cell(has_children: bool, class: &str, content: &str) -> TableCell {
    TableCell { has_children, class: Some(class.to_string()), content: Some(content.to_string()) }
}

#[test]
fn table_cells_are_keyed_by_position_and_width() {
    let rows = vec![
        vec![cell(true, "misc", "NOP<br>1 4t<br>- - - -"), cell(true, "x16 load", "LD BC,u16<br>3 12t<br>- - - -")],
        vec![cell(false, "", ""), cell(true, "x8 alu", "INC B<br>1 4t<br>Z 0 H -")],
    ];
    let m = extract_table(&rows);
    assert_eq!(m.get("00-0").unwrap(), "NOP\n1 4t\n- - - -");
    assert_eq!(m.get("01-16").unwrap(), "LD BC,u16\n3 12t\n- - - -");
    assert_eq!(m.get("11-8").unwrap(), "INC B\n1 4t\nZ 0 H -");
    assert!(!m.contains_key("10-0"));
    let mut wide = Vec::new();
    for _ in 0..11 {
        wide.push(cell(true, "", "X"));
    }
    let m = extract_table(&vec![wide]);
    assert!(m.contains_key("0a-0"));
}

const PAGE: &str = "<html><body>\
<table><tbody>\
<tr><td class=\"misc\"><div><div>NOP<br>1 4t<br>- - - -</div></div></td><td></td></tr>\
<tr><td class=\"x8 alu\"><div><div>INC B<br>1 4t<br>Z 0 H -</div></div></td></tr>\
</tbody></table>\
<table><tbody>\
<tr><td class=\"x16\"><div><div>RLC B<br>2 8t<br>Z 0 0 C</div></div></td></tr>\
</tbody></table>\
</body></html>";

#[test]
fn page_tables_are_scraped() {
    let (plain, cb) = scrap_tables(PAGE).unwrap();
    assert_eq!(plain.get("00-0").unwrap(), "NOP\n1 4t\n- - - -");
    assert_eq!(plain.get("10-8").unwrap(), "INC B\n1 4t\nZ 0 H -");
    assert!(!plain.contains_key("01-0"));
    assert_eq!(plain.to_pairs().len(), 2);
    assert_eq!(cb.get("00-16").unwrap(), "RLC B\n2 8t\nZ 0 0 C");
}

#[test]
fn page_without_two_tables_or_with_bad_cells_is_refused() {
    assert!(scrap_tables("<table><tbody><tr><td>x</td></tr></tbody></table>").is_none());
    let no_div = "<table><tbody><tr><td class=\"a\">x</td></tr></tbody></table>\
<table><tbody></tbody></table>";
    assert!(scrap_tables(no_div).is_none());
    let no_class = "<table><tbody><tr><td><div><div>x</div></div></td></tr></tbody></table>\
<table><tbody></tbody></table>";
    assert!(scrap_tables(no_class).is_none());
}

#[test]
fn incomplete_cell_in_rows() {
    let rows = vec![vec![TableCell { has_children: false, class: None, content: None }]];
    assert_eq!(extract_table(&rows).to_pairs().len(), 0);
}

#[test]
fn scrape_log_record() {
    assert_eq!(scrap_record("2e-8", "LD L,u8\u{200b}\n2 8t"), "2E-8\nLD L,u8 \n2 8t\n\n");
}
