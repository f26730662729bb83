//! The grammar of one instruction cell of the opcode table, and the reading of
//! a cell into its named fields.
//!
//! A cell holds, separated by white space (spaces and line breaks alike):
//! the operator; optionally the operands, joined by `,` without spaces; the
//! size in bytes; the cycles, written `<n>t` or `<taken>t-<not taken>t`; and
//! the four flags Z, N, H and C, each one of `Z`, `N`, `H`, `C`, `-`, `1`, `0`.
//!
//! ```text
//! SCF
//! 1 4t
//! - 0 0 1
//! ```
use vstd::prelude::*;
use crate::text::{
    all_digits, chars_of, join, join_strings, replace_all, replace_chars, split_chars, split_on,
    words, words_of,
};
use crate::text_map::TextMap;

verus! {

/// The rules of the grammar; the last seven are the forms a flag can take.
#[derive(Debug, Clone, Copy, PartialEq, Eq, Structural)]
pub enum Rule {
    Instruction,
    Mnemonic,
    Operator,
    Operand,
    Number,
    Cycles,
    Flags,
    Z,
    N,
    H,
    C,
    NotAffect,
    SetOne,
    Unset,
}

/// The parser of instruction cells.
pub struct OpcodeParser;

/// An instruction cell, read.
pub struct Instruction {
    /// The operator and the operands as written, one space between them.
    pub mnemonic: String,
    pub operator: String,
    pub operands: Vec<String>,
    pub size: String,
    /// The cycles as written, such as `4t` or `12t-8t`.
    pub cycles: String,
    /// The rules of the four flags Z, N, H and C, in that order.
    pub flags: Vec<Rule>,
}

/// The rule of a flag word, if it is one.
pub open spec fn flag_rule(w: Seq<char>) -> Option<Rule> {
    if w.len() != 1 {
        None
    } else if w[0] == 'Z' {
        Some(Rule::Z)
    } else if w[0] == 'N' {
        Some(Rule::N)
    } else if w[0] == 'H' {
        Some(Rule::H)
    } else if w[0] == 'C' {
        Some(Rule::C)
    } else if w[0] == '-' {
        Some(Rule::NotAffect)
    } else if w[0] == '1' {
        Some(Rule::SetOne)
    } else if w[0] == '0' {
        Some(Rule::Unset)
    } else {
        None
    }
}

/// The rule is one of the forms a flag can take.
pub open spec fn is_flag_rule(r: Rule) -> bool {
    r is Z || r is N || r is H || r is C || r is NotAffect || r is SetOne || r is Unset
}

/// The text that stands for a flag rule in the fields.
pub open spec fn flag_text(r: Rule) -> Seq<char> {
    match r {
        Rule::Z => seq!['Z'],
        Rule::N => seq!['N'],
        Rule::H => seq!['H'],
        Rule::C => seq!['C'],
        Rule::NotAffect => seq!['-'],
        Rule::SetOne => seq!['1'],
        _ => seq!['0'],
    }
}

/// Each flag rule is read back from its text, and each flag word from its rule.
pub proof fn law_flag_text_round_trip(r: Rule, w: Seq<char>)
    ensures
        is_flag_rule(r) ==> flag_rule(flag_text(r)) == Some(r),
        flag_rule(w) is Some ==> flag_text(flag_rule(w).unwrap()) == w,
{
    if flag_rule(w) is Some {
        assert(flag_text(flag_rule(w).unwrap()) =~= seq![w[0]]);
        assert(seq![w[0]] =~= w);
    }
}

/// A run of one or more decimal digits.
pub open spec fn is_number(w: Seq<char>) -> bool {
    w.len() > 0 && all_digits(w, 10)
}

/// A count of cycles: a number followed by `t`.
pub open spec fn is_cycle_count(w: Seq<char>) -> bool {
    w.len() >= 2 && w.last() == 't' && is_number(w.drop_last())
}

/// The cycles: one count, or two joined by `-`.
pub open spec fn is_cycles(w: Seq<char>) -> bool {
    let p = split_on(w, '-');
    (p.len() == 1 && is_cycle_count(p[0])) || (p.len() == 2 && is_cycle_count(p[0])
        && is_cycle_count(p[1]))
}

/// The operands: pieces joined by `,`, none of them empty.
pub open spec fn is_operand_list(w: Seq<char>) -> bool {
    forall|i: int| 0 <= i < split_on(w, ',').len() ==> (#[trigger] split_on(w, ',')[i]).len() > 0
}

/// Whether the cell has operands (eight words rather than seven).
pub open spec fn has_operands(s: Seq<char>) -> bool {
    words(s).len() == 8
}

/// The position of the size among the words.
pub open spec fn size_at(s: Seq<char>) -> int {
    if has_operands(s) {
        2
    } else {
        1
    }
}

/// The cell `s` is an instruction of the grammar.
pub open spec fn is_instruction(s: Seq<char>) -> bool {
    let w = words(s);
    let b = size_at(s);
    &&& w.len() == 7 || w.len() == 8
    &&& has_operands(s) ==> is_operand_list(w[1])
    &&& is_number(w[b])
    &&& is_cycles(w[b + 1])
    &&& forall|k: int| 0 <= k < 4 ==> (#[trigger] flag_rule(w[b + 2 + k])) is Some
}

/// The operator of the cell: its first word.
pub open spec fn operator_of(s: Seq<char>) -> Seq<char> {
    words(s)[0]
}

/// The operands of the cell: its second word split at `,`, or none.
pub open spec fn operands_of(s: Seq<char>) -> Seq<Seq<char>> {
    if has_operands(s) {
        split_on(words(s)[1], ',')
    } else {
        Seq::<Seq<char>>::empty()
    }
}

/// The mnemonic of the cell: the operator and the operands, one space between.
pub open spec fn mnemonic_of(s: Seq<char>) -> Seq<char> {
    if has_operands(s) {
        words(s)[0] + seq![' '] + words(s)[1]
    } else {
        words(s)[0]
    }
}

/// The size word of the cell.
pub open spec fn size_of(s: Seq<char>) -> Seq<char> {
    words(s)[size_at(s)]
}

/// The cycles word of the cell, such as `4t` or `12t-8t`.
pub open spec fn cycles_text_of(s: Seq<char>) -> Seq<char> {
    words(s)[size_at(s) + 1]
}

/// The rule of flag `k` (Z, N, H, C for 0 to 3).
pub open spec fn flag_of(s: Seq<char>, k: int) -> Rule {
    flag_rule(words(s)[size_at(s) + 2 + k]).unwrap()
}

/// The fields that reading the cell `s` gives: the flags under `K` (the zero
/// flag), `N`, `H` and `C`, the operands joined by `|`, and the cycles without
/// their `t`s.
pub open spec fn fields_of(s: Seq<char>) -> Map<Seq<char>, Seq<char>> {
    Map::<Seq<char>, Seq<char>>::empty().insert("mnemonic"@, mnemonic_of(s)).insert(
        "operator"@,
        operator_of(s),
    ).insert("operands"@, join(operands_of(s), seq!['|'])).insert("size"@, size_of(s)).insert(
        "cycles"@,
        replace_all(cycles_text_of(s), seq!['t'], Seq::<char>::empty()),
    ).insert("K"@, flag_text(flag_of(s, 0))).insert("N"@, flag_text(flag_of(s, 1))).insert(
        "H"@,
        flag_text(flag_of(s, 2)),
    ).insert("C"@, flag_text(flag_of(s, 3)))
}

fn flag_rule_exec(w: &String) -> (r: Option<Rule>)
    ensures
        r == flag_rule(w@),
{
    let c = chars_of(w.as_str());
    if c.len() != 1 {
        None
    } else if c[0] == 'Z' {
        Some(Rule::Z)
    } else if c[0] == 'N' {
        Some(Rule::N)
    } else if c[0] == 'H' {
        Some(Rule::H)
    } else if c[0] == 'C' {
        Some(Rule::C)
    } else if c[0] == '-' {
        Some(Rule::NotAffect)
    } else if c[0] == '1' {
        Some(Rule::SetOne)
    } else if c[0] == '0' {
        Some(Rule::Unset)
    } else {
        None
    }
}

fn is_number_exec(c: &Vec<char>) -> (r: bool)
    ensures
        r == is_number(c@),
{
    if c.len() == 0 {
        return false;
    }
    let mut i: usize = 0;
    while i < c.len()
        invariant
            i <= c.len(),
            forall|j: int| 0 <= j < i ==> (#[trigger] crate::text::digit_of(c@[j], 10)) is Some,
        decreases c.len() - i,
    {
        if !('0' <= c[i] && c[i] <= '9') {
            assert(crate::text::digit_of(c@[i as int], 10) is None);
            return false;
        }
        i = i + 1;
    }
    true
}

fn is_cycle_count_exec(w: &String) -> (r: bool)
    ensures
        r == is_cycle_count(w@),
{
    let c = chars_of(w.as_str());
    if c.len() < 2 || c[c.len() - 1] != 't' {
        return false;
    }
    let mut d = c;
    d.pop();
    is_number_exec(&d)
}

fn is_cycles_exec(w: &String) -> (r: bool)
    ensures
        r == is_cycles(w@),
{
    let p = split_chars(&chars_of(w.as_str()), '-');
    proof {
        if p.len() >= 1 {
            assert(p.deep_view()[0] == p@[0]@);
        }
        if p.len() >= 2 {
            assert(p.deep_view()[1] == p@[1]@);
        }
    }
    if p.len() == 1 {
        is_cycle_count_exec(&p[0])
    } else if p.len() == 2 {
        is_cycle_count_exec(&p[0]) && is_cycle_count_exec(&p[1])
    } else {
        false
    }
}

fn operand_pieces(w: &String) -> (r: Option<Vec<String>>)
    ensures
        match r {
            Some(v) => is_operand_list(w@) && v.deep_view() == split_on(w@, ','),
            None => !is_operand_list(w@),
        },
{
    let p = split_chars(&chars_of(w.as_str()), ',');
    let mut i: usize = 0;
    while i < p.len()
        invariant
            i <= p.len(),
            p.deep_view() == split_on(w@, ','),
            forall|j: int| 0 <= j < i ==> (#[trigger] split_on(w@, ',')[j]).len() > 0,
        decreases p.len() - i,
    {
        assert(p.deep_view()[i as int] == p@[i as int]@);
        if chars_of(p[i].as_str()).len() == 0 {
            assert(split_on(w@, ',')[i as int].len() == 0);
            return None;
        }
        i = i + 1;
    }
    Some(p)
}

impl OpcodeParser {
    /// Reads an instruction cell; `None` where it is not one of the grammar.
    pub fn parse(input: &str) -> (r: Option<Instruction>)
        ensures
            r is Some <==> is_instruction(input@),
            r matches Some(ins) ==> {
                &&& ins.mnemonic@ == mnemonic_of(input@)
                &&& ins.operator@ == operator_of(input@)
                &&& ins.operands.deep_view() == operands_of(input@)
                &&& ins.size@ == size_of(input@)
                &&& ins.cycles@ == cycles_text_of(input@)
                &&& ins.flags@.len() == 4
                &&& forall|k: int| 0 <= k < 4 ==> #[trigger] ins.flags@[k] == flag_of(input@, k)
            },
    {
        let w = words_of(&chars_of(input));
        let ghost s = input@;
        if w.len() != 7 && w.len() != 8 {
            return None;
        }
        let b: usize = if w.len() == 8 { 2 } else { 1 };
        proof {
            assert forall|k: int| 0 <= k < w.len() implies #[trigger] w.deep_view()[k] == w@[k]@ by {}
        }
        let operands = if w.len() == 8 {
            match operand_pieces(&w[1]) {
                Some(p) => p,
                None => return None,
            }
        } else {
            Vec::new()
        };
        assert(w.deep_view()[b as int] == w@[b as int]@);
        assert(w.deep_view()[b + 1] == w@[b + 1]@);
        assert(b == size_at(s));
        if !is_number_exec(&chars_of(w[b].as_str())) || !is_cycles_exec(&w[b + 1]) {
            return None;
        }
        let mut flags: Vec<Rule> = Vec::new();
        let mut k: usize = 0;
        while k < 4
            invariant
                k <= 4,
                s == input@,
                w.deep_view() == words(s),
                w.len() == words(s).len(),
                b == size_at(s),
                b + 6 == w.len(),
                flags@.len() == k,
                forall|j: int| 0 <= j < k ==> (#[trigger] flag_rule(words(s)[b + 2 + j])) == Some(
                    flags@[j],
                ),
            decreases 4 - k,
        {
            assert(w.deep_view()[b + 2 + k] == w@[b + 2 + k]@);
            match flag_rule_exec(&w[b + 2 + k]) {
                Some(r) => flags.push(r),
                None => {
                    assert(flag_rule(words(s)[size_at(s) + 2 + k as int]) is None);
                    return None;
                },
            }
            k = k + 1;
        }
        let mut mnemonic = w[0].clone();
        if w.len() == 8 {
            mnemonic.append(" ");
            mnemonic.append(w[1].as_str());
            proof {
                reveal_strlit(" ");
            }
        }
        let ins = Instruction {
            mnemonic,
            operator: w[0].clone(),
            operands,
            size: w[b].clone(),
            cycles: w[b + 1].clone(),
            flags,
        };
        proof {
            assert forall|j: int| 0 <= j < 4 implies (#[trigger] flag_rule(words(s)[b + 2 + j])) is Some by {
                assert(flag_rule(words(s)[b + 2 + j]) == Some(flags@[j]));
            }
        }
        Some(ins)
    }
}

/// The text that stands for the flag rule `rule`.
pub fn get_flag_value(rule: Rule) -> (r: String)
    requires
        is_flag_rule(rule),
    ensures
        r@ == flag_text(rule),
{
    let t = match rule {
        Rule::Z => "Z",
        Rule::N => "N",
        Rule::H => "H",
        Rule::C => "C",
        Rule::NotAffect => "-",
        Rule::SetOne => "1",
        _ => "0",
    };
    proof {
        reveal_strlit("Z");
        reveal_strlit("N");
        reveal_strlit("H");
        reveal_strlit("C");
        reveal_strlit("-");
        reveal_strlit("1");
        reveal_strlit("0");
    }
    String::from_str(t)
}

/// Reads the instruction cell `instruction` into its fields.
pub fn parse_str(instruction: String) -> (r: TextMap)
    requires
        is_instruction(instruction@),
    ensures
        r@ == fields_of(instruction@),
{
    let ins = OpcodeParser::parse(instruction.as_str()).unwrap();
    let mut res = TextMap::new();
    res.insert(String::from_str("mnemonic"), ins.mnemonic);
    res.insert(String::from_str("operator"), ins.operator);
    let operands = join_strings(&ins.operands, "|");
    res.insert(String::from_str("operands"), operands);
    res.insert(String::from_str("size"), ins.size);
    proof {
        reveal_strlit("t");
        reveal_strlit("|");
        assert("t"@ =~= seq!['t']);
        assert("|"@ =~= seq!['|']);
    }
    let cycles = replace_chars(&chars_of(ins.cycles.as_str()), &chars_of("t"), &Vec::new());
    res.insert(String::from_str("cycles"), crate::text::string_of(&cycles));
    proof {
        reveal_strlit("|");
        reveal_strlit("t");
        assert(flag_rule(words(instruction@)[size_at(instruction@) + 2 + 0]) is Some);
        assert(flag_rule(words(instruction@)[size_at(instruction@) + 2 + 1]) is Some);
        assert(flag_rule(words(instruction@)[size_at(instruction@) + 2 + 2]) is Some);
        assert(flag_rule(words(instruction@)[size_at(instruction@) + 2 + 3]) is Some);
    }
    res.insert(String::from_str("K"), get_flag_value(ins.flags[0]));
    res.insert(String::from_str("N"), get_flag_value(ins.flags[1]));
    res.insert(String::from_str("H"), get_flag_value(ins.flags[2]));
    res.insert(String::from_str("C"), get_flag_value(ins.flags[3]));
    assert(res@ =~= fields_of(instruction@));
    res
}

} // verus!
