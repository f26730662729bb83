//! The code fragments that the opcode templates insert, and the ordering of
//! the opcode table.
use vstd::prelude::*;
use crate::opcode_data::{
    accepts_fields, built_from, full_code, lemma_built_from_same, lemma_same_opcode_code, same_opcode,
    Cycles, Opcode,
};
use crate::text_map::TextMap;
use crate::text::{
    chars_of, ends_with_chars, format_digits, format_unsigned, has_prefix, has_suffix, is_ascii_char,
    is_text, lemma_split_on_piece_len, lower_text, parse_unsigned, parse_unsigned_chars, split_chars,
    split_on, starts_with_chars, string_of, to_lowercase, trim, trim_chars,
};

verus! {

/// The text is a number once white space around it is removed.
pub open spec fn is_numeric_text(s: Seq<char>) -> bool {
    parse_unsigned(trim(s), 10, usize::MAX as nat) is Some
}

/// Whether `s`, without white space around it, is a number.
pub fn is_numeric(s: &str) -> (r: bool)
    ensures
        r == is_numeric_text(s@),
{
    let t = trim_chars(&chars_of(s));
    parse_unsigned_chars(&t, 10, usize::MAX).is_some()
}

/// `s` without its first and last character.
pub open spec fn inner_of(s: Seq<char>) -> Seq<char> {
    s.subrange(1, s.len() - 1)
}

/// The expression that reads the operand `op` in an instruction of `bits` bits.
pub open spec fn getter_text(op: Seq<char>, bits: nat) -> Seq<char>
    decreases op.len(),
{
    if is_numeric_text(op) {
        op
    } else if has_suffix(op, "h"@) {
        "0x"@ + op.drop_last()
    } else if op == "NZ"@ {
        "!self.status.contains(StatusFlags::Z)"@
    } else if op == "NC"@ {
        "!self.status.contains(StatusFlags::C)"@
    } else if op == "Z"@ {
        "self.status.contains(StatusFlags::Z)"@
    } else if op == "CF"@ {
        "self.status.contains(StatusFlags::C)"@
    } else if op == "i8"@ {
        "self.mem_read_u8(self.program_counter)"@
    } else if op == "u8"@ || op == "u16"@ {
        "self.mem_read_"@ + op + "(self.program_counter)"@
    } else if has_prefix(op, "FF"@) {
        let parts = split_on(op, '+');
        proof {
            lemma_split_on_piece_len(op, '+');
        }
        if parts.len() >= 2 {
            "0x"@ + parts[0] + " + "@ + getter_text(parts[1], bits)
        } else {
            Seq::<char>::empty()
        }
    } else if has_prefix(op, "("@) {
        if op.len() >= 2 {
            "self.mem_read_u"@ + format_digits(bits, 10) + "("@ + getter_text(inner_of(op), bits)
                + ")"@
        } else {
            Seq::<char>::empty()
        }
    } else if op == "SP+i8"@ {
        let parts = split_on(op, '+');
        proof {
            lemma_split_on_piece_len(op, '+');
        }
        if parts.len() >= 2 {
            getter_text(parts[0], bits) + " + "@ + getter_text(parts[1], bits)
        } else {
            Seq::<char>::empty()
        }
    } else {
        "self.get_"@ + lower_text(op) + "()"@
    }
}

/// The operand can be read without a failure: an `FF` address has a `+` and
/// an operand it adds, and a memory operand `(...)` has its closing character
/// (ASCII) and a readable operand inside.
pub open spec fn getter_defined(op: Seq<char>) -> bool
    decreases op.len(),
{
    if is_numeric_text(op) || has_suffix(op, "h"@) || op == "NZ"@ || op == "NC"@ || op == "Z"@
        || op == "CF"@ || op == "i8"@ || op == "u8"@ || op == "u16"@ {
        true
    } else if has_prefix(op, "FF"@) {
        let parts = split_on(op, '+');
        proof {
            lemma_split_on_piece_len(op, '+');
        }
        parts.len() >= 2 && getter_defined(parts[1])
    } else if has_prefix(op, "("@) {
        op.len() >= 2 && is_ascii_char(op.last()) && getter_defined(inner_of(op))
    } else {
        true
    }
}

proof fn lemma_split_sp_i8()
    ensures
        split_on(seq!['S', 'P', '+', 'i', '8'], '+') == seq![seq!['S', 'P'], seq!['i', '8']],
{
    let e = Seq::<char>::empty();
    assert(seq!['S'].drop_last() =~= e);
    assert(split_on(e, '+') == seq![e]);
    assert(e.push('S') =~= seq!['S']);
    assert(split_on(seq!['S'], '+') =~= seq![seq!['S']]);
    assert(seq!['S', 'P'].drop_last() =~= seq!['S']);
    assert(seq!['S'].push('P') =~= seq!['S', 'P']);
    assert(split_on(seq!['S', 'P'], '+') =~= seq![seq!['S', 'P']]);
    assert(seq!['S', 'P', '+'].drop_last() =~= seq!['S', 'P']);
    assert(split_on(seq!['S', 'P', '+'], '+') =~= seq![seq!['S', 'P'], e]);
    assert(seq!['S', 'P', '+', 'i'].drop_last() =~= seq!['S', 'P', '+']);
    assert(e.push('i') =~= seq!['i']);
    assert(split_on(seq!['S', 'P', '+', 'i'], '+') =~= seq![seq!['S', 'P'], seq!['i']]);
    assert(seq!['S', 'P', '+', 'i', '8'].drop_last() =~= seq!['S', 'P', '+', 'i']);
    assert(seq!['i'].push('8') =~= seq!['i', '8']);
    assert(split_on(seq!['S', 'P', '+', 'i', '8'], '+') =~= seq![seq!['S', 'P'], seq!['i', '8']]);
}

/// `s` without its first and last character.
pub fn rm_first_last(s: &str) -> (r: &str)
    requires
        s@.len() >= 2,
        is_ascii_char(s@[0]),
        is_ascii_char(s@.last()),
    ensures
        r@ == inner_of(s@),
{
    let n = s.unicode_len();
    s.substring_char(1, n - 1)
}

fn is_ascii_exec(c: char) -> (r: bool)
    ensures
        r == is_ascii_char(c),
{
    (c as u32) < 128
}

/// Whether the expression that reads `operand` can be generated.
pub fn operand_readable(operand: &str) -> (r: bool)
    ensures
        r == getter_defined(operand@),
    decreases operand@.len(),
{
    let op = chars_of(operand);
    if is_numeric(operand) || ends_with_chars(&op, &chars_of("h")) || is_text(&op, "NZ") || is_text(
        &op,
        "NC",
    ) || is_text(&op, "Z") || is_text(&op, "CF") || is_text(&op, "i8") || is_text(&op, "u8")
        || is_text(&op, "u16") {
        true
    } else if starts_with_chars(&op, &chars_of("FF")) {
        let parts = split_chars(&op, '+');
        proof {
            lemma_split_on_piece_len(op@, '+');
        }
        if parts.len() >= 2 {
            assert(parts.deep_view()[1] == parts@[1]@);
            operand_readable(parts[1].as_str())
        } else {
            false
        }
    } else if starts_with_chars(&op, &chars_of("(")) {
        if op.len() < 2 || !is_ascii_exec(op[op.len() - 1]) {
            false
        } else {
            proof {
                reveal_strlit("(");
                assert(operand@[0] == "("@[0]);
            }
            operand_readable(rm_first_last(operand))
        }
    } else {
        true
    }
}

/// Whether the statement that writes `operand` can be generated.
pub fn operand_writable(operand: &str) -> (r: bool)
    ensures
        r == setter_defined(operand@),
{
    let op = chars_of(operand);
    if starts_with_chars(&op, &chars_of("(")) {
        if op.len() < 2 || !is_ascii_exec(op[op.len() - 1]) {
            false
        } else {
            proof {
                reveal_strlit("(");
                assert(operand@[0] == "("@[0]);
            }
            operand_readable(rm_first_last(operand))
        }
    } else {
        true
    }
}

fn append_chars(s: &mut String, v: &Vec<char>)
    ensures
        final(s)@ == old(s)@ + v@,
{
    let t = string_of(v);
    s.append(t.as_str());
}

/// The expression that reads `operand` in an instruction of `bits` bits.
pub fn generate_getter(operand: &str, bits: usize) -> (r: String)
    requires
        getter_defined(operand@),
    ensures
        r@ == getter_text(operand@, bits as nat),
    decreases operand@.len(),
{
    let op = chars_of(operand);
    let mut r = String::new();
    if is_numeric(operand) {
        r.append(operand);
    } else if ends_with_chars(&op, &chars_of("h")) {
        proof {
            reveal_strlit("h");
        }
        let mut body = op;
        body.pop();
        assert(body@ =~= operand@.drop_last());
        r.append("0x");
        append_chars(&mut r, &body);
    } else if is_text(&op, "NZ") {
        r.append("!self.status.contains(StatusFlags::Z)");
    } else if is_text(&op, "NC") {
        r.append("!self.status.contains(StatusFlags::C)");
    } else if is_text(&op, "Z") {
        r.append("self.status.contains(StatusFlags::Z)");
    } else if is_text(&op, "CF") {
        r.append("self.status.contains(StatusFlags::C)");
    } else if is_text(&op, "i8") {
        r.append("self.mem_read_u8(self.program_counter)");
    } else if is_text(&op, "u8") || is_text(&op, "u16") {
        r.append("self.mem_read_");
        r.append(operand);
        r.append("(self.program_counter)");
    } else if starts_with_chars(&op, &chars_of("FF")) {
        let parts = split_chars(&op, '+');
        proof {
            lemma_split_on_piece_len(op@, '+');
            assert(parts.deep_view()[0] == parts@[0]@);
            assert(parts.deep_view()[1] == parts@[1]@);
        }
        let num = generate_getter(parts[1].as_str(), bits);
        r.append("0x");
        r.append(parts[0].as_str());
        r.append(" + ");
        r.append(num.as_str());
    } else if starts_with_chars(&op, &chars_of("(")) {
        proof {
            reveal_strlit("(");
            assert(operand@[0] == "("@[0]);
        }
        let inner = generate_getter(rm_first_last(operand), bits);
        r.append("self.mem_read_u");
        append_chars(&mut r, &format_unsigned(bits, 10));
        r.append("(");
        r.append(inner.as_str());
        r.append(")");
    } else if is_text(&op, "SP+i8") {
        let parts = split_chars(&op, '+');
        proof {
            lemma_split_on_piece_len(op@, '+');
            reveal_strlit("SP+i8");
            assert(op@ == seq!['S', 'P', '+', 'i', '8']);
            assert(parts.deep_view().len() >= 2) by {
                reveal_with_fuel(split_on, 6);
                assert(op@.drop_last() =~= seq!['S', 'P', '+', 'i']);
                assert(op@.drop_last().drop_last() =~= seq!['S', 'P', '+']);
                assert(op@.drop_last().drop_last().drop_last() =~= seq!['S', 'P']);
            }
            lemma_split_sp_i8();
            reveal_strlit("FF");
            reveal_strlit("(");
            reveal_strlit("i8");
            assert(seq!['S', 'P'].take(2)[0] != "FF"@[0]);
            assert(!has_prefix(seq!['S', 'P'], "FF"@));
            assert(seq!['S', 'P'].take(1)[0] != "("@[0]);
            assert(!has_prefix(seq!['S', 'P'], "("@));
            assert(seq!['i', '8'] =~= "i8"@);
            assert(parts.deep_view()[0] == parts@[0]@);
            assert(parts.deep_view()[1] == parts@[1]@);
        }
        let sp = generate_getter(parts[0].as_str(), bits);
        let num = generate_getter(parts[1].as_str(), bits);
        r.append(sp.as_str());
        r.append(" + ");
        r.append(num.as_str());
    } else {
        let lower = to_lowercase(operand);
        r.append("self.get_");
        r.append(lower.as_str());
        r.append("()");
    }
    r
}


/// The statement that writes the operand `op` in an instruction of `bits`
/// bits, up to the value written (which the template appends, with `)`).
pub open spec fn setter_text(op: Seq<char>, bits: nat) -> Seq<char> {
    if has_prefix(op, "("@) {
        "self.mem_write_u"@ + format_digits(bits, 10) + "("@ + getter_text(inner_of(op), bits)
            + ", "@
    } else {
        "self.set_"@ + lower_text(op) + "("@
    }
}

/// The operand can be written without a failure: a memory operand `(...)`
/// has its closing character (ASCII) and a readable address inside.
pub open spec fn setter_defined(op: Seq<char>) -> bool {
    has_prefix(op, "("@) ==> op.len() >= 2 && is_ascii_char(op.last()) && getter_defined(
        inner_of(op),
    )
}

/// The start of the statement that writes `operand` in an instruction of `bits` bits.
pub fn generate_setter(operand: &str, bits: usize) -> (r: String)
    requires
        setter_defined(operand@),
    ensures
        r@ == setter_text(operand@, bits as nat),
{
    let mut r = String::new();
    if starts_with_chars(&chars_of(operand), &chars_of("(")) {
        proof {
            reveal_strlit("(");
            assert(operand@[0] == "("@[0]);
        }
        let inner = generate_getter(rm_first_last(operand), bits);
        r.append("self.mem_write_u");
        append_chars(&mut r, &format_unsigned(bits, 10));
        r.append("(");
        r.append(inner.as_str());
        r.append(", ");
    } else {
        let lower = to_lowercase(operand);
        r.append("self.set_");
        r.append(lower.as_str());
        r.append("(");
    }
    r
}

/// The statement that updates the flag `flag` as the flag text `v` says: none
/// for `-`, clearing for `0`, setting for `1`, and otherwise setting it to the
/// condition that `v` names, in lower case.
pub open spec fn set_flag_text(v: Seq<char>, flag: Seq<char>) -> Seq<char> {
    if v == "-"@ {
        Seq::<char>::empty()
    } else if v == "0"@ {
        "self.status.remove(StatusFlags::"@ + flag + ");"@
    } else if v == "1"@ {
        "self.status.insert(StatusFlags::"@ + flag + ");"@
    } else {
        "self.status.set(StatusFlags::"@ + flag + ", "@ + lower_text(v) + ");"@
    }
}

/// The statement that updates the flag `flag_name` (Z, N, H or C) after an
/// instruction whose flag text is `value`.
pub fn set_flag(value: &str, flag_name: &str) -> (r: String)
    ensures
        r@ == set_flag_text(value@, flag_name@),
{
    let v = chars_of(value);
    let mut r = String::new();
    if is_text(&v, "-") {
    } else if is_text(&v, "0") {
        r.append("self.status.remove(StatusFlags::");
        r.append(flag_name);
        r.append(");");
    } else if is_text(&v, "1") {
        r.append("self.status.insert(StatusFlags::");
        r.append(flag_name);
        r.append(");");
    } else {
        let lower = to_lowercase(value);
        r.append("self.status.set(StatusFlags::");
        r.append(flag_name);
        r.append(", ");
        r.append(lower.as_str());
        r.append(");");
    }
    r
}


/// The cycles the templates count for an instruction: its only count, or, for
/// a conditional branch, the count when the branch is not taken.
pub open spec fn cycle_count(c: Cycles) -> usize {
    match c {
        Cycles::One(n) => n,
        Cycles::Two(_, n) => n,
    }
}

/// The cycles of a conditional branch when it is taken (the only count for others).
pub open spec fn branch_cycle_count(c: Cycles) -> usize {
    match c {
        Cycles::One(n) => n,
        Cycles::Two(n, _) => n,
    }
}

/// The cycles count, written in decimal.
pub fn get_cycles(c: &Cycles) -> (r: String)
    ensures
        r@ == format_digits(cycle_count(*c) as nat, 10),
{
    let n = match c {
        Cycles::One(n) => *n,
        Cycles::Two(_, n) => *n,
    };
    string_of(&format_unsigned(n, 10))
}

/// The cycles count of a taken branch, written in decimal.
pub fn get_branch_cycle(c: &Cycles) -> (r: String)
    ensures
        r@ == format_digits(branch_cycle_count(*c) as nat, 10),
{
    let n = match c {
        Cycles::One(n) => *n,
        Cycles::Two(n, _) => *n,
    };
    string_of(&format_unsigned(n, 10))
}

/// Whether a value is a list of more than one operand, which marks a
/// conditional jump: `operand_count` is the length of the list, or `None`
/// where the value is not a list.
pub fn is_branch_jp(operand_count: Option<usize>) -> (r: bool)
    ensures
        r == (operand_count matches Some(n) && n > 1),
{
    match operand_count {
        Some(n) => n > 1,
        None => false,
    }
}

/// The number that the hexadecimal text `hex` writes, as `u16::from_str_radix`
/// reads it, if it is one that fits in 16 bits.
pub open spec fn hex_value(hex: Seq<char>) -> Option<nat> {
    parse_unsigned(hex, 16, 0xFFFF)
}

/// The number that the hexadecimal text `hex` writes.
pub fn hex_to_dec(hex: &str) -> (r: u16)
    requires
        hex_value(hex@) is Some,
    ensures
        r as nat == hex_value(hex@).unwrap(),
{
    let v = parse_unsigned_chars(&chars_of(hex), 16, 0xFFFF).unwrap();
    v as u16
}

/// The numeric value of an opcode's code.
pub open spec fn code_value(o: Opcode) -> nat {
    hex_value(o.code@).unwrap()
}

/// `r` is `ops` rearranged by `perm` (position in `r` to position in `ops`),
/// with opcodes of equal code value kept in their order in `ops`.
pub open spec fn stable_arrangement(r: Seq<Opcode>, ops: Seq<Opcode>, perm: Seq<int>) -> bool {
    &&& r.len() == ops.len()
    &&& perm.len() == r.len()
    &&& forall|i: int| 0 <= i < r.len() ==> 0 <= #[trigger] perm[i] < ops.len() && r[i] == ops[perm[i]]
    &&& forall|i: int, j: int| 0 <= i < j < r.len() ==> #[trigger] perm[i] != #[trigger] perm[j]
    &&& forall|i: int, j: int|
        0 <= i < j < r.len() && code_value(#[trigger] r[i]) == code_value(#[trigger] r[j]) ==> perm[i]
            < perm[j]
}

/// The opcodes in increasing order of code value.
pub open spec fn sorted_by_code(r: Seq<Opcode>) -> bool {
    forall|i: int, j: int| 0 <= i < j < r.len() ==> code_value(#[trigger] r[i]) <= code_value(#[trigger] r[j])
}

/// The state of the insertion sort after `m` opcodes of `orig`: `r` holds
/// them in order of code value, `keys` their code values, and `perm` where
/// each came from.
spec fn insertion_state(keys: Seq<u16>, r: Seq<Opcode>, perm: Seq<int>, orig: Seq<Opcode>, m: int) -> bool {
    &&& keys.len() == r.len()
    &&& r.len() == m
    &&& perm.len() == m
    &&& forall|i: int| 0 <= i < r.len() ==> #[trigger] keys[i] as nat == code_value(r[i])
    &&& forall|i: int, j: int| 0 <= i < j < keys.len() ==> #[trigger] keys[i] <= #[trigger] keys[j]
    &&& forall|i: int| 0 <= i < r.len() ==> 0 <= #[trigger] perm[i] < m && r[i] == orig[perm[i]]
    &&& forall|i: int, j: int| 0 <= i < j < r.len() ==> #[trigger] perm[i] != #[trigger] perm[j]
    &&& forall|i: int, j: int|
        0 <= i < j < r.len() && keys[i] == keys[j] ==> #[trigger] perm[i] < #[trigger] perm[j]
}

proof fn lemma_insertion_keys(keys: Seq<u16>, r: Seq<Opcode>, o: Opcode, p: int, k: u16)
    requires
        keys.len() == r.len(),
        0 <= p <= keys.len(),
        k as nat == code_value(o),
        forall|i: int| 0 <= i < r.len() ==> #[trigger] keys[i] as nat == code_value(r[i]),
        forall|i: int, j: int| 0 <= i < j < keys.len() ==> #[trigger] keys[i] <= #[trigger] keys[j],
        forall|j: int| 0 <= j < p ==> #[trigger] keys[j] <= k,
        forall|j: int| p <= j < keys.len() ==> #[trigger] keys[j] > k,
    ensures
        ({
            let nk = keys.insert(p, k);
            let nr = r.insert(p, o);
            &&& forall|i: int| 0 <= i < nr.len() ==> #[trigger] nk[i] as nat == code_value(nr[i])
            &&& forall|i: int, j: int| 0 <= i < j < nk.len() ==> #[trigger] nk[i] <= #[trigger] nk[j]
        }),
{
    let nk = keys.insert(p, k);
    let nr = r.insert(p, o);
    assert forall|i: int| 0 <= i < nr.len() implies #[trigger] nk[i] as nat == code_value(nr[i]) by {
        if i < p {
            assert(nk[i] == keys[i] && nr[i] == r[i]);
        } else if i > p {
            assert(nk[i] == keys[i - 1] && nr[i] == r[i - 1]);
        }
    }
    assert forall|i: int, j: int| 0 <= i < j < nk.len() implies #[trigger] nk[i] <= #[trigger] nk[j] by {
        if j < p {
            assert(nk[i] == keys[i] && nk[j] == keys[j]);
        } else if j == p {
            assert(nk[i] == keys[i]);
        } else if i < p {
            assert(nk[i] == keys[i] && nk[j] == keys[j - 1]);
        } else if i == p {
            assert(nk[j] == keys[j - 1]);
        } else {
            assert(nk[i] == keys[i - 1] && nk[j] == keys[j - 1]);
        }
    }
}

proof fn lemma_insertion_origins(
    keys: Seq<u16>,
    r: Seq<Opcode>,
    perm: Seq<int>,
    orig: Seq<Opcode>,
    m: int,
    p: int,
    k: u16,
)
    requires
        insertion_state(keys, r, perm, orig, m),
        0 <= m < orig.len(),
        0 <= p <= keys.len(),
        forall|j: int| 0 <= j < p ==> #[trigger] keys[j] <= k,
        forall|j: int| p <= j < keys.len() ==> #[trigger] keys[j] > k,
    ensures
        ({
            let nk = keys.insert(p, k);
            let nr = r.insert(p, orig[m]);
            let np = perm.insert(p, m);
            &&& forall|i: int| 0 <= i < nr.len() ==> 0 <= #[trigger] np[i] < m + 1 && nr[i] == orig[np[i]]
            &&& forall|i: int, j: int| 0 <= i < j < nr.len() ==> #[trigger] np[i] != #[trigger] np[j]
            &&& forall|i: int, j: int|
                0 <= i < j < nr.len() && nk[i] == nk[j] ==> #[trigger] np[i] < #[trigger] np[j]
        }),
{
    let nk = keys.insert(p, k);
    let nr = r.insert(p, orig[m]);
    let np = perm.insert(p, m);
    assert forall|i: int| 0 <= i < nr.len() implies 0 <= #[trigger] np[i] < m + 1 && nr[i] == orig[np[i]] by {
        if i < p {
            assert(np[i] == perm[i] && nr[i] == r[i]);
        } else if i > p {
            assert(np[i] == perm[i - 1] && nr[i] == r[i - 1]);
        }
    }
    assert forall|i: int, j: int| 0 <= i < j < nr.len() implies #[trigger] np[i] != #[trigger] np[j] by {
        if j < p {
            assert(np[i] == perm[i] && np[j] == perm[j]);
        } else if j == p {
            assert(np[i] == perm[i]);
        } else if i < p {
            assert(np[i] == perm[i] && np[j] == perm[j - 1]);
        } else if i == p {
            assert(np[j] == perm[j - 1]);
        } else {
            assert(np[i] == perm[i - 1] && np[j] == perm[j - 1]);
        }
    }
    assert forall|i: int, j: int| 0 <= i < j < nr.len() && nk[i] == nk[j] implies #[trigger] np[i]
        < #[trigger] np[j] by {
        if j < p {
            assert(np[i] == perm[i] && np[j] == perm[j]);
            assert(nk[i] == keys[i] && nk[j] == keys[j]);
        } else if j == p {
            assert(np[i] == perm[i]);
        } else if i < p {
            assert(nk[i] == keys[i] && nk[j] == keys[j - 1]);
        } else if i == p {
            assert(nk[j] == keys[j - 1]);
        } else {
            assert(np[i] == perm[i - 1] && np[j] == perm[j - 1]);
            assert(nk[i] == keys[i - 1] && nk[j] == keys[j - 1]);
        }
    }
}

proof fn lemma_insertion_step(
    keys: Seq<u16>,
    r: Seq<Opcode>,
    perm: Seq<int>,
    orig: Seq<Opcode>,
    m: int,
    p: int,
    k: u16,
)
    requires
        insertion_state(keys, r, perm, orig, m),
        0 <= m < orig.len(),
        0 <= p <= keys.len(),
        k as nat == code_value(orig[m]),
        forall|j: int| 0 <= j < p ==> #[trigger] keys[j] <= k,
        forall|j: int| p <= j < keys.len() ==> #[trigger] keys[j] > k,
    ensures
        insertion_state(keys.insert(p, k), r.insert(p, orig[m]), perm.insert(p, m), orig, m + 1),
{
    lemma_insertion_keys(keys, r, orig[m], p, k);
    lemma_insertion_origins(keys, r, perm, orig, m, p, k);
}

/// Sorts opcodes by the value of their code, keeping the order of opcodes with
/// equal values (a stable sort). The codes are read only where two opcodes
/// have to be compared.
pub fn sort_by_code(ops: Vec<Opcode>) -> (r: Vec<Opcode>)
    requires
        ops@.len() >= 2 ==> forall|i: int| 0 <= i < ops@.len() ==> (#[trigger] hex_value(ops@[i].code@)) is Some,
    ensures
        sorted_by_code(r@),
        exists|perm: Seq<int>| stable_arrangement(r@, ops@, perm),
        r@.to_multiset() == ops@.to_multiset(),
{
    if ops.len() < 2 {
        proof {
            let perm = Seq::new(ops@.len(), |i: int| i);
            assert(stable_arrangement(ops@, ops@, perm));
        }
        return ops;
    }
    let ghost orig = ops@;
    let mut rest = ops;
    let mut r: Vec<Opcode> = Vec::new();
    let mut keys: Vec<u16> = Vec::new();
    let ghost mut perm: Seq<int> = Seq::empty();
    let mut m: usize = 0;
    assert(orig.skip(0) =~= orig);
    assert(orig.len() == rest.len());
    proof {
        vstd::seq_lib::to_multiset_len(r@);
        assert(r@.to_multiset().add(rest@.to_multiset()) =~= orig.to_multiset());
    }
    while rest.len() > 0
        invariant
            m + rest@.len() == orig.len(),
            orig.len() <= usize::MAX,
            rest@ == orig.skip(m as int),
            forall|i: int| 0 <= i < orig.len() ==> (#[trigger] hex_value(orig[i].code@)) is Some,
            insertion_state(keys@, r@, perm, orig, m as int),
            r@.to_multiset().add(rest@.to_multiset()) == orig.to_multiset(),
        decreases rest@.len(),
    {
        assert(rest@[0] == orig[m as int]);
        let ghost rest_before = rest@;
        let ghost r_before = r@;
        let op = rest.remove(0);
        assert(rest@ =~= orig.skip(m + 1));
        assert(hex_value(orig[m as int].code@) is Some);
        let k = hex_to_dec(op.code.as_str());
        let mut p: usize = 0;
        while p < keys.len() && keys[p] <= k
            invariant
                p <= keys@.len(),
                forall|j: int| 0 <= j < p ==> #[trigger] keys@[j] <= k,
            decreases keys.len() - p,
        {
            p = p + 1;
        }
        proof {
            assert forall|j: int| p <= j < keys@.len() implies #[trigger] keys@[j] > k by {
                if j > p {
                    assert(keys@[p as int] <= keys@[j]);
                }
            }
            lemma_insertion_step(keys@, r@, perm, orig, m as int, p as int, k);
            perm = perm.insert(p as int, m as int);
        }
        r.insert(p, op);
        keys.insert(p, k);
        proof {
            vstd::seq_lib::to_multiset_remove(rest_before, 0);
            vstd::seq_lib::to_multiset_insert(r_before, p as int, rest_before[0]);
            assert(rest_before.to_multiset().count(rest_before[0]) > 0) by {
                vstd::seq_lib::to_multiset_contains(rest_before, rest_before[0]);
            }
            assert(r@.to_multiset().add(rest@.to_multiset()) =~= orig.to_multiset());
        }
        m = m + 1;
    }
    proof {
        assert(rest@ =~= Seq::<Opcode>::empty());
        vstd::seq_lib::to_multiset_len(rest@);
        assert(r@.to_multiset() =~= orig.to_multiset());
    }
    proof {
        assert forall|i: int, j: int| 0 <= i < j < r@.len() implies code_value(#[trigger] r@[i])
            <= code_value(#[trigger] r@[j]) by {
            assert(keys@[i] <= keys@[j]);
        }
        assert forall|i: int, j: int|
            0 <= i < j < r@.len() && code_value(#[trigger] r@[i]) == code_value(#[trigger] r@[j])
            implies perm[i] < perm[j] by {
            assert(keys@[i] as nat == code_value(r@[i]));
            assert(keys@[j] as nat == code_value(r@[j]));
        }
        assert(stable_arrangement(r@, orig, perm));
    }
    r
}

/// The entries of a table can be built into opcodes.
pub open spec fn table_buildable(table: Seq<(String, TextMap)>) -> bool {
    forall|i: int| 0 <= i < table.len() ==> accepts_fields(#[trigger] table[i].1@)
}

/// The full codes of the entries of a table are read as numbers.
pub open spec fn codes_readable(table: Seq<(String, TextMap)>, is_cb: bool) -> bool {
    forall|i: int| 0 <= i < table.len() ==> (#[trigger] hex_value(full_code(table[i].0@, is_cb))) is Some
}

/// `built` holds the opcodes of `table` (codes and fields), in its order, from position `at` on.
pub open spec fn built_table(built: Seq<Opcode>, at: int, table: Seq<(String, TextMap)>, is_cb: bool) -> bool {
    forall|i: int|
        0 <= i < table.len() ==> built_from(#[trigger] built[at + i], table[i].0@, table[i].1@, is_cb)
}

fn build_all(table: Vec<(String, TextMap)>, is_cb: bool, out: &mut Vec<Opcode>)
    requires
        table_buildable(table@),
    ensures
        final(out)@.len() == old(out)@.len() + table@.len(),
        final(out)@.take(old(out)@.len() as int) == old(out)@,
        built_table(final(out)@, old(out)@.len() as int, table@, is_cb),
        codes_readable(table@, is_cb) ==> forall|i: int| old(out)@.len() <= i < final(out)@.len() ==> (#[trigger] hex_value(final(out)@[i].code@)) is Some,
{
    let ghost orig = table@;
    let ghost start = out@.len();
    let ghost before = out@;
    let mut rest = table;
    let mut m: usize = 0;
    assert(orig.skip(0) =~= orig);
    assert(orig.len() == rest.len());
    while rest.len() > 0
        invariant
            m + rest@.len() == orig.len(),
            orig.len() <= usize::MAX,
            rest@ == orig.skip(m as int),
            table_buildable(orig),
            out@.len() == start + m,
            out@.take(start as int) == before,
            forall|i: int| 0 <= i < m ==> built_from(#[trigger] out@[start + i], orig[i].0@, orig[i].1@, is_cb),
            codes_readable(orig, is_cb) ==> forall|i: int| start <= i < out@.len() ==> (#[trigger] hex_value(out@[i].code@)) is Some,
        decreases rest@.len(),
    {
        assert(rest@[0] == orig[m as int]);
        let (code, data) = rest.remove(0);
        assert(rest@ =~= orig.skip(m + 1));
        assert(accepts_fields(orig[m as int].1@));
        let ghost old_out = out@;
        let op = Opcode::new(code, data, is_cb);
        out.push(op);
        proof {
            assert(out@.take(start as int) =~= old_out.take(start as int));
            assert forall|i: int| 0 <= i < m + 1 implies built_from(#[trigger] out@[start + i], orig[i].0@, orig[i].1@, is_cb) by {
                if i < m {
                    assert(out@[start + i] == old_out[start + i]);
                }
            }
            if codes_readable(orig, is_cb) {
                assert forall|i: int| start <= i < out@.len() implies (#[trigger] hex_value(out@[i].code@)) is Some by {
                    if i < out@.len() - 1 {
                        assert(out@[i] == old_out[i]);
                    } else {
                        assert(hex_value(full_code(orig[m as int].0@, is_cb)) is Some);
                    }
                }
            }
        }
        m = m + 1;
    }
    proof {
        assert forall|i: int| 0 <= i < orig.len() implies built_from(#[trigger] out@[start + i], orig[i].0@, orig[i].1@, is_cb) by {
        }
    }
}

/// The opcodes of both tables (codes prefixed `00` for the first, `CB` for the
/// second) in increasing order of code value, opcodes of equal value in table order.
pub fn collect_opcodes(non_cb: Vec<(String, TextMap)>, cb: Vec<(String, TextMap)>) -> (r: Vec<Opcode>)
    requires
        table_buildable(non_cb@),
        table_buildable(cb@),
        non_cb@.len() + cb@.len() >= 2 ==> codes_readable(non_cb@, false) && codes_readable(cb@, true),
    ensures
        sorted_by_code(r@),
        exists|built: Seq<Opcode>, perm: Seq<int>|
            {
                &&& built.len() == non_cb@.len() + cb@.len()
                &&& built_table(built, 0, non_cb@, false)
                &&& built_table(built, non_cb@.len() as int, cb@, true)
                &&& #[trigger] stable_arrangement(r@, built, perm)
                &&& r@.to_multiset() == built.to_multiset()
            },
{
    let ghost n1 = non_cb@;
    let mut all: Vec<Opcode> = Vec::new();
    build_all(non_cb, false, &mut all);
    let ghost first = all@;
    build_all(cb, true, &mut all);
    proof {
        assert forall|i: int| 0 <= i < n1.len() implies built_from(#[trigger] all@[0 + i], n1[i].0@, n1[i].1@, false) by {
            assert(all@.take(n1.len() as int)[i] == all@[i]);
            assert(first[0 + i] == all@[i]);
        }
        if all@.len() >= 2 {
            assert forall|i: int| 0 <= i < all@.len() implies (#[trigger] hex_value(all@[i].code@)) is Some by {
                if i < first.len() {
                    assert(all@.take(first.len() as int)[i] == all@[i]);
                    assert(hex_value(first[i].code@) is Some);
                }
            }
        }
    }
    let ghost built = all@;
    let r = sort_by_code(all);
    proof {
        let perm = choose|perm: Seq<int>| stable_arrangement(r@, built, perm);
        assert(stable_arrangement(r@, built, perm));
    }
    r
}


proof fn lemma_trim_keeps_first(s: Seq<char>)
    requires
        s.len() > 0,
        !crate::text::is_white_space(s[0]),
    ensures
        trim(s).len() > 0,
        trim(s)[0] == s[0],
    decreases s.len(),
{
    assert(crate::text::trim_start(s) == s);
    if s.len() > 1 && crate::text::is_white_space(s.last()) {
        assert(s.drop_last()[0] == s[0]);
        lemma_trim_keeps_first(s.drop_last());
        assert(crate::text::trim_end(s) == crate::text::trim_end(s.drop_last()));
    }
}

/// Reading and writing a memory operand `(X)` go to the same place: both use
/// the expression that reads `X`, at the same width.
pub proof fn law_memory_operand_same_address(op: Seq<char>, bits: nat)
    requires
        op.len() >= 2,
        op[0] == '(',
        op.last() == ')',
    ensures
        getter_text(op, bits) == "self.mem_read_u"@ + format_digits(bits, 10) + "("@ + getter_text(
            inner_of(op),
            bits,
        ) + ")"@,
        setter_text(op, bits) == "self.mem_write_u"@ + format_digits(bits, 10) + "("@
            + getter_text(inner_of(op), bits) + ", "@,
{
    reveal_strlit("(");
    reveal_strlit("h");
    reveal_strlit("FF");
    reveal_strlit("NZ");
    reveal_strlit("NC");
    reveal_strlit("Z");
    reveal_strlit("CF");
    reveal_strlit("i8");
    reveal_strlit("u8");
    reveal_strlit("u16");
    reveal_strlit("SP+i8");
    assert(op.take(1) =~= "("@);
    assert(has_prefix(op, "("@));
    lemma_trim_keeps_first(op);
    let t = crate::text::unsigned_body(trim(op));
    assert(t[0] == '(');
    assert(crate::text::digit_of(t[0], 10) is None);
    assert(!is_numeric_text(op));
    assert(op.skip(op.len() - 1)[0] == ')');
    assert(!has_suffix(op, "h"@));
    assert(op.take(2)[0] == '(');
    assert(!has_prefix(op, "FF"@));
    assert(op != "NZ"@ && op != "NC"@ && op != "Z"@ && op != "CF"@ && op != "i8"@);
    assert(op != "u8"@ && op != "u16"@);
}

proof fn lemma_two_digit_code(a: char, b: char, m: nat, l: nat)
    requires
        crate::text::digit_of(a, 16) == Some(m),
        crate::text::digit_of(b, 16) == Some(l),
    ensures
        hex_value(seq!['0', '0', a, b]) == Some(16 * m + l),
{
    let s = seq!['0', '0', a, b];
    assert(crate::text::unsigned_body(s) == s);
    assert(s.drop_last() =~= seq!['0', '0', a]);
    assert(s.drop_last().drop_last() =~= seq!['0', '0']);
    assert(s.drop_last().drop_last().drop_last() =~= seq!['0']);
    assert(s.drop_last().drop_last().drop_last().drop_last() =~= Seq::<char>::empty());
    reveal_with_fuel(crate::text::digits_value, 5);
    assert(crate::text::digits_value(s, 16) == 16 * m + l);
    assert(crate::text::all_digits(s, 16)) by {
        assert forall|i: int| 0 <= i < s.len() implies (#[trigger] crate::text::digit_of(s[i], 16)) is Some by {
            if i == 2 {
                assert(s[i] == a);
            } else if i == 3 {
                assert(s[i] == b);
            }
        }
    }
}

/// The opcode read from the key of the cell in row `msb` and column `lsb` of a
/// table (both under sixteen), with `00` before it as `Opcode::new` writes it,
/// is the number `16 * msb + lsb`: the opcodes sort in the order of the table.
pub proof fn law_cell_position_code_value(msb: nat, lsb: nat, class: Seq<char>)
    requires
        msb < 16,
        lsb < 16,
    ensures
        hex_value(full_code(crate::html_scraper::entry_opcode(crate::html_scraper::cell_key(msb, lsb, class)), false))
            == Some(16 * msb + lsb),
{
    let a = crate::text::digit_char(msb);
    let b = crate::text::digit_char(lsb);
    assert(format_digits(msb, 16) == seq![a]);
    assert(format_digits(lsb, 16) == seq![b]);
    let h = seq![a, b];
    reveal_strlit("8");
    reveal_strlit("16");
    reveal_strlit("-8");
    reveal_strlit("-16");
    reveal_strlit("-0");
    reveal_strlit("00");
    let suffix = crate::html_scraper::bits_suffix(class);
    let t = suffix.drop_first();
    assert(suffix =~= seq!['-'] + t);
    assert(crate::text::free_of(t, '-'));
    assert(crate::text::free_of(h, '-'));
    let key = crate::html_scraper::cell_key(msb, lsb, class);
    assert(key =~= h + seq!['-'] + t);
    let xs = seq![h, t];
    assert(xs.drop_last() =~= seq![h]);
    assert(crate::text::join(xs.drop_last(), seq!['-']) == h);
    assert(crate::text::join(xs, seq!['-']) == key);
    assert forall|i: int| 0 <= i < xs.len() implies crate::text::free_of(#[trigger] xs[i], '-') by {}
    crate::text::law_split_undoes_join(xs, '-');
    assert(split_on(key, '-')[0] == h);
    assert(crate::text::is_ascii_text(h)) by {
        assert forall|i: int| 0 <= i < h.len() implies crate::text::is_ascii_char(#[trigger] h[i]) by {}
    }
    let u = crate::text::upper_text(h);
    assert(u =~= seq![crate::text::ascii_upper(a), crate::text::ascii_upper(b)]);
    assert(crate::text::digit_of(crate::text::ascii_upper(a), 16) == Some(msb));
    assert(crate::text::digit_of(crate::text::ascii_upper(b), 16) == Some(lsb));
    assert(full_code(u, false) =~= seq!['0', '0', crate::text::ascii_upper(a), crate::text::ascii_upper(b)]);
    lemma_two_digit_code(crate::text::ascii_upper(a), crate::text::ascii_upper(b), msb, lsb);
}

/// The code values of `r` strictly increase.
pub open spec fn strictly_sorted_by_code(r: Seq<Opcode>) -> bool {
    forall|i: int, j: int| 0 <= i < j < r.len() ==> code_value(#[trigger] r[i]) < code_value(#[trigger] r[j])
}

/// Two lists with strictly increasing code values that hold the same opcodes are the same list.
proof fn lemma_strictly_sorted_unique(r1: Seq<Opcode>, r2: Seq<Opcode>)
    requires
        strictly_sorted_by_code(r1),
        strictly_sorted_by_code(r2),
        r1.to_multiset() == r2.to_multiset(),
    ensures
        r1 == r2,
    decreases r1.len(),
{
    vstd::seq_lib::to_multiset_len(r1);
    vstd::seq_lib::to_multiset_len(r2);
    if r1.len() == 0 {
        assert(r2.len() == 0);
        assert(r1 =~= r2);
    } else {
        vstd::seq_lib::to_multiset_contains(r1, r1[0]);
        vstd::seq_lib::to_multiset_contains(r2, r1[0]);
        vstd::seq_lib::to_multiset_contains(r2, r2[0]);
        vstd::seq_lib::to_multiset_contains(r1, r2[0]);
        assert(r1.contains(r1[0]));
        let j = choose|j: int| 0 <= j < r2.len() && r2[j] == r1[0];
        assert(r2.contains(r2[0]));
        let k = choose|k: int| 0 <= k < r1.len() && r1[k] == r2[0];
        if j > 0 {
            assert(code_value(r2[0]) < code_value(r2[j]));
            if k > 0 {
                assert(code_value(r1[0]) < code_value(r1[k]));
            }
            assert(false);
        }
        assert(r1[0] == r2[0]);
        vstd::seq_lib::to_multiset_remove(r1, 0);
        vstd::seq_lib::to_multiset_remove(r2, 0);
        assert(r1.remove(0) =~= r1.drop_first());
        assert(r2.remove(0) =~= r2.drop_first());
        let t1 = r1.drop_first();
        let t2 = r2.drop_first();
        assert forall|a: int, b: int| 0 <= a < b < t1.len() implies code_value(#[trigger] t1[a]) < code_value(#[trigger] t1[b]) by {
            assert(t1[a] == r1[a + 1] && t1[b] == r1[b + 1]);
        }
        assert forall|a: int, b: int| 0 <= a < b < t2.len() implies code_value(#[trigger] t2[a]) < code_value(#[trigger] t2[b]) by {
            assert(t2[a] == r2[a + 1] && t2[b] == r2[b + 1]);
        }
        lemma_strictly_sorted_unique(t1, t2);
        assert(r1 =~= r2) by {
            assert forall|i: int| 0 <= i < r1.len() implies r1[i] == r2[i] by {
                if i > 0 {
                    assert(r1[i] == t1[i - 1] && r2[i] == t2[i - 1]);
                }
            }
        }
    }
}

/// A sorted arrangement of opcodes with distinct code values has strictly increasing values.
proof fn lemma_distinct_arrangement_strict(r: Seq<Opcode>, ops: Seq<Opcode>, perm: Seq<int>)
    requires
        sorted_by_code(r),
        stable_arrangement(r, ops, perm),
        forall|i: int, j: int| 0 <= i < j < ops.len() ==> code_value(#[trigger] ops[i]) != code_value(#[trigger] ops[j]),
    ensures
        strictly_sorted_by_code(r),
{
    assert forall|i: int, j: int| 0 <= i < j < r.len() implies code_value(#[trigger] r[i]) < code_value(#[trigger] r[j]) by {
        assert(perm[i] != perm[j]);
        assert(r[i] == ops[perm[i]] && r[j] == ops[perm[j]]);
        if perm[i] < perm[j] {
            assert(code_value(ops[perm[i]]) != code_value(ops[perm[j]]));
        } else {
            assert(code_value(ops[perm[j]]) != code_value(ops[perm[i]]));
        }
    }
}

/// Where the codes are distinct, the order of the opcodes handed to the sort
/// does not matter: sorting two orderings of the same opcodes gives the same
/// list, so the generated table does not depend on the order in which the
/// tables were read.
pub proof fn law_sort_ignores_input_order(
    ops1: Seq<Opcode>,
    ops2: Seq<Opcode>,
    r1: Seq<Opcode>,
    r2: Seq<Opcode>,
    perm1: Seq<int>,
    perm2: Seq<int>,
)
    requires
        ops1.to_multiset() == ops2.to_multiset(),
        forall|i: int, j: int| 0 <= i < j < ops1.len() ==> code_value(#[trigger] ops1[i]) != code_value(#[trigger] ops1[j]),
        forall|i: int, j: int| 0 <= i < j < ops2.len() ==> code_value(#[trigger] ops2[i]) != code_value(#[trigger] ops2[j]),
        sorted_by_code(r1),
        stable_arrangement(r1, ops1, perm1),
        r1.to_multiset() == ops1.to_multiset(),
        sorted_by_code(r2),
        stable_arrangement(r2, ops2, perm2),
        r2.to_multiset() == ops2.to_multiset(),
    ensures
        r1 == r2,
{
    lemma_distinct_arrangement_strict(r1, ops1, perm1);
    lemma_distinct_arrangement_strict(r2, ops2, perm2);
    lemma_strictly_sorted_unique(r1, r2);
}

/// The width only matters for memory operands: the expression that reads an
/// operand without `(` is the same at every width.
pub proof fn law_getter_ignores_bits(op: Seq<char>, b1: nat, b2: nat)
    requires
        crate::text::free_of(op, '('),
    ensures
        getter_text(op, b1) == getter_text(op, b2),
    decreases op.len(),
{
    reveal_strlit("(");
    lemma_split_on_piece_len(op, '+');
    crate::text::lemma_split_on_pieces_free(op, '+', '(');
    let parts = split_on(op, '+');
    if has_prefix(op, "("@) {
        assert(op[0] == op.take(1)[0]);
        assert(false);
    }
    if parts.len() >= 2 {
        law_getter_ignores_bits(parts[0], b1, b2);
        law_getter_ignores_bits(parts[1], b1, b2);
    }
}

/// For an instruction with a single count, the cycles counted with and without
/// the branch taken are the same.
pub proof fn law_single_count_cycles(c: Cycles)
    requires
        c is One,
    ensures
        cycle_count(c) == branch_cycle_count(c),
{
}

/// What `serde_json::from_str` reads from `text` as a JSON object whose values
/// are objects of strings: the entries in order of name, each with its fields
/// in order of name; `None` where the text is not such an object.
pub uninterp spec fn json_table(text: Seq<char>) -> Option<Seq<(Seq<char>, Seq<(Seq<char>, Seq<char>)>)>>;

/// `serde_json::from_str` into a `BTreeMap` of `BTreeMap`s of strings, its
/// entries listed in key order. The result is a function of the text alone
/// and is only named (`json_table`), not spelled out.
#[verifier::external_body]
pub(crate) fn parse_table_json(text: &str) -> (r: Option<Vec<(String, Vec<(String, String)>)>>)
    ensures
        match r {
            Some(v) => json_table(text@) == Some(v.deep_view()),
            None => json_table(text@) is None,
        },
{
    serde_json::from_str::<std::collections::BTreeMap<String, std::collections::BTreeMap<String, String>>>(
        text,
    ).ok().map(|m| m.into_iter().map(|(k, v)| (k, v.into_iter().collect())).collect())
}

/// Every entry of a JSON table has the fields an opcode is built from.
pub open spec fn json_fields_buildable(t: Seq<(Seq<char>, Seq<(Seq<char>, Seq<char>)>)>) -> bool {
    forall|i: int| 0 <= i < t.len() ==> accepts_fields(TextMap::map_of_pairs((#[trigger] t[i]).1))
}

/// The full code of every entry of a JSON table is read as a number.
pub open spec fn json_codes_readable(t: Seq<(Seq<char>, Seq<(Seq<char>, Seq<char>)>)>, is_cb: bool) -> bool {
    forall|i: int| 0 <= i < t.len() ==> (#[trigger] hex_value(full_code(t[i].0, is_cb))) is Some
}

/// The two JSON tables can be built into opcodes and ordered: every entry has
/// its fields, and, where there are two opcodes or more to compare, every
/// code is read as a number.
pub open spec fn json_tables_buildable(
    a: Seq<(Seq<char>, Seq<(Seq<char>, Seq<char>)>)>,
    b: Seq<(Seq<char>, Seq<(Seq<char>, Seq<char>)>)>,
) -> bool {
    &&& json_fields_buildable(a)
    &&& json_fields_buildable(b)
    &&& a.len() + b.len() >= 2 ==> json_codes_readable(a, false) && json_codes_readable(b, true)
}

/// `built` holds the opcodes of the JSON table `t`, in its order, from position `at` on.
pub open spec fn json_built(built: Seq<Opcode>, at: int, t: Seq<(Seq<char>, Seq<(Seq<char>, Seq<char>)>)>, is_cb: bool) -> bool {
    forall|i: int|
        0 <= i < t.len() ==> built_from(#[trigger] built[at + i], t[i].0, TextMap::map_of_pairs(t[i].1), is_cb)
}

/// `v` holds the opcodes of the JSON tables `a` and `b` (codes prefixed `00`
/// and `CB`), in increasing order of code value, opcodes of equal value in
/// table order.
pub open spec fn json_tables_ordered(
    v: Seq<Opcode>,
    a: Seq<(Seq<char>, Seq<(Seq<char>, Seq<char>)>)>,
    b: Seq<(Seq<char>, Seq<(Seq<char>, Seq<char>)>)>,
) -> bool {
    &&& sorted_by_code(v)
    &&& exists|built: Seq<Opcode>, perm: Seq<int>|
        {
            &&& built.len() == a.len() + b.len()
            &&& json_built(built, 0, a, false)
            &&& json_built(built, a.len() as int, b, true)
            &&& #[trigger] stable_arrangement(v, built, perm)
            &&& v.to_multiset() == built.to_multiset()
        }
}

fn table_of_json(t: Vec<(String, Vec<(String, String)>)>) -> (r: Vec<(String, TextMap)>)
    ensures
        r@.len() == t.deep_view().len(),
        forall|i: int| 0 <= i < r@.len() ==> (#[trigger] r@[i]).0@ == t.deep_view()[i].0 && r@[i].1@
            == TextMap::map_of_pairs(t.deep_view()[i].1),
{
    let ghost dv = t.deep_view();
    let mut rest = t;
    let mut r: Vec<(String, TextMap)> = Vec::new();
    let mut m: usize = 0;
    assert(dv.skip(0) =~= dv);
    assert(rest.deep_view() == dv);
    let n = rest.len();
    assert(dv.len() == n);
    while rest.len() > 0
        invariant
            m + rest@.len() == dv.len(),
            dv.len() <= usize::MAX,
            rest.deep_view() == dv.skip(m as int),
            r@.len() == m,
            forall|i: int| 0 <= i < m ==> (#[trigger] r@[i]).0@ == dv[i].0 && r@[i].1@ == TextMap::map_of_pairs(dv[i].1),
        decreases rest@.len(),
    {
        let ghost before = rest.deep_view();
        assert(before[0] == dv[m as int]);
        let (name, pairs) = rest.remove(0);
        assert(rest.deep_view() =~= before.drop_first());
        assert(rest.deep_view() =~= dv.skip(m + 1));
        let fields = TextMap::from_pairs(pairs);
        r.push((name, fields));
        m = m + 1;
    }
    r
}

fn check_fields(t: &Vec<(String, TextMap)>) -> (b: bool)
    ensures
        b == table_buildable(t@),
{
    let mut i: usize = 0;
    while i < t.len()
        invariant
            i <= t@.len(),
            forall|j: int| 0 <= j < i ==> accepts_fields((#[trigger] t@[j]).1@),
        decreases t.len() - i,
    {
        if !Opcode::accepts(&t[i].1) {
            return false;
        }
        i = i + 1;
    }
    true
}

fn check_codes(t: &Vec<(String, TextMap)>, is_cb: bool) -> (b: bool)
    ensures
        b == codes_readable(t@, is_cb),
{
    let mut i: usize = 0;
    while i < t.len()
        invariant
            i <= t@.len(),
            forall|j: int| 0 <= j < i ==> (#[trigger] hex_value(full_code(t@[j].0@, is_cb))) is Some,
        decreases t.len() - i,
    {
        let mut full = String::new();
        if is_cb {
            full.append("CB");
        } else {
            full.append("00");
        }
        full.append(t[i].0.as_str());
        assert(full@ =~= full_code(t@[i as int].0@, is_cb));
        if parse_unsigned_chars(&chars_of(full.as_str()), 16, 0xFFFF).is_none() {
            assert(hex_value(full_code(t@[i as int].0@, is_cb)) is None);
            return false;
        }
        i = i + 1;
    }
    true
}

/// The opcodes of the two JSON tables `non_cb` and `cb` (codes prefixed `00`
/// and `CB`) in increasing order of code value; `None` where a text is not a
/// table, an entry lacks its fields, or (with two opcodes or more) a code is
/// not a 16-bit hexadecimal number.
pub fn opcodes_from_json(non_cb: &str, cb: &str) -> (r: Option<Vec<Opcode>>)
    ensures
        r is Some <==> (json_table(non_cb@) is Some && json_table(cb@) is Some && json_tables_buildable(
            json_table(non_cb@).unwrap(),
            json_table(cb@).unwrap(),
        )),
        r matches Some(v) ==> json_tables_ordered(v@, json_table(non_cb@).unwrap(), json_table(cb@).unwrap()),
{
    let a = match parse_table_json(non_cb) {
        Some(a) => a,
        None => return None,
    };
    let b = match parse_table_json(cb) {
        Some(b) => b,
        None => return None,
    };
    let ghost ja = a.deep_view();
    let ghost jb = b.deep_view();
    let ta = table_of_json(a);
    let tb = table_of_json(b);
    proof {
        assert(table_buildable(ta@) == json_fields_buildable(ja)) by {
            if json_fields_buildable(ja) {
                assert forall|i: int| 0 <= i < ta@.len() implies accepts_fields(#[trigger] ta@[i].1@) by {
                    assert(accepts_fields(TextMap::map_of_pairs(ja[i].1)));
                }
            }
            if table_buildable(ta@) {
                assert forall|i: int| 0 <= i < ja.len() implies accepts_fields(TextMap::map_of_pairs((#[trigger] ja[i]).1)) by {
                    assert(accepts_fields(ta@[i].1@));
                }
            }
        }
        assert(table_buildable(tb@) == json_fields_buildable(jb)) by {
            if json_fields_buildable(jb) {
                assert forall|i: int| 0 <= i < tb@.len() implies accepts_fields(#[trigger] tb@[i].1@) by {
                    assert(accepts_fields(TextMap::map_of_pairs(jb[i].1)));
                }
            }
            if table_buildable(tb@) {
                assert forall|i: int| 0 <= i < jb.len() implies accepts_fields(TextMap::map_of_pairs((#[trigger] jb[i]).1)) by {
                    assert(accepts_fields(tb@[i].1@));
                }
            }
        }
        assert(codes_readable(ta@, false) == json_codes_readable(ja, false)) by {
            if json_codes_readable(ja, false) {
                assert forall|i: int| 0 <= i < ta@.len() implies (#[trigger] hex_value(full_code(ta@[i].0@, false))) is Some by {
                    assert(hex_value(full_code(ja[i].0, false)) is Some);
                }
            }
            if codes_readable(ta@, false) {
                assert forall|i: int| 0 <= i < ja.len() implies (#[trigger] hex_value(full_code(ja[i].0, false))) is Some by {
                    assert(hex_value(full_code(ta@[i].0@, false)) is Some);
                }
            }
        }
        assert(codes_readable(tb@, true) == json_codes_readable(jb, true)) by {
            if json_codes_readable(jb, true) {
                assert forall|i: int| 0 <= i < tb@.len() implies (#[trigger] hex_value(full_code(tb@[i].0@, true))) is Some by {
                    assert(hex_value(full_code(jb[i].0, true)) is Some);
                }
            }
            if codes_readable(tb@, true) {
                assert forall|i: int| 0 <= i < jb.len() implies (#[trigger] hex_value(full_code(jb[i].0, true))) is Some by {
                    assert(hex_value(full_code(tb@[i].0@, true)) is Some);
                }
            }
        }
    }
    if !check_fields(&ta) || !check_fields(&tb) {
        return None;
    }
    if ta.len() >= 2 || tb.len() >= 2 || (ta.len() == 1 && tb.len() == 1) {
        if !check_codes(&ta, false) || !check_codes(&tb, true) {
            return None;
        }
    }
    let ghost ta_v = ta@;
    let ghost tb_v = tb@;
    let r = collect_opcodes(ta, tb);
    proof {
        let (built, perm) = choose|built: Seq<Opcode>, perm: Seq<int>|
            {
                &&& built.len() == ta_v.len() + tb_v.len()
                &&& built_table(built, 0, ta_v, false)
                &&& built_table(built, ta_v.len() as int, tb_v, true)
                &&& #[trigger] stable_arrangement(r@, built, perm)
                &&& r@.to_multiset() == built.to_multiset()
            };
        assert forall|i: int| 0 <= i < ja.len() implies built_from(#[trigger] built[0 + i], ja[i].0, TextMap::map_of_pairs(ja[i].1), false) by {
            assert(built_from(built[0 + i], ta_v[i].0@, ta_v[i].1@, false));
        }
        assert forall|i: int| 0 <= i < jb.len() implies built_from(#[trigger] built[ja.len() + i], jb[i].0, TextMap::map_of_pairs(jb[i].1), true) by {
            assert(built_from(built[ta_v.len() + i], tb_v[i].0@, tb_v[i].1@, true));
        }
        assert(stable_arrangement(r@, built, perm));
        assert(json_table(non_cb@).unwrap() == ja);
        assert(json_table(cb@).unwrap() == jb);
        assert(json_built(built, 0, ja, false));
        assert(json_built(built, ja.len() as int, jb, true));
        assert(built.len() == ja.len() + jb.len());
        assert(json_tables_ordered(r@, ja, jb));
    }
    Some(r)
}

/// The full code of entry `i` of the two JSON tables taken one after the other.
pub open spec fn json_code(
    a: Seq<(Seq<char>, Seq<(Seq<char>, Seq<char>)>)>,
    b: Seq<(Seq<char>, Seq<(Seq<char>, Seq<char>)>)>,
    i: int,
) -> Seq<char> {
    if i < a.len() {
        full_code(a[i].0, false)
    } else {
        full_code(b[i - a.len()].0, true)
    }
}

/// The codes of all the entries of the two JSON tables are read as numbers,
/// and no two of them are the same number.
pub open spec fn json_code_values_distinct(
    a: Seq<(Seq<char>, Seq<(Seq<char>, Seq<char>)>)>,
    b: Seq<(Seq<char>, Seq<(Seq<char>, Seq<char>)>)>,
) -> bool {
    &&& forall|i: int| 0 <= i < a.len() + b.len() ==> (#[trigger] hex_value(json_code(a, b, i))) is Some
    &&& forall|i: int, j: int|
        0 <= i < j < a.len() + b.len() ==> #[trigger] hex_value(json_code(a, b, i)) != #[trigger] hex_value(
            json_code(a, b, j),
        )
}

proof fn lemma_built_codes(
    built: Seq<Opcode>,
    a: Seq<(Seq<char>, Seq<(Seq<char>, Seq<char>)>)>,
    b: Seq<(Seq<char>, Seq<(Seq<char>, Seq<char>)>)>,
)
    requires
        built.len() == a.len() + b.len(),
        json_built(built, 0, a, false),
        json_built(built, a.len() as int, b, true),
    ensures
        forall|i: int| 0 <= i < built.len() ==> (#[trigger] built[i]).code@ == json_code(a, b, i),
{
    assert forall|i: int| 0 <= i < built.len() implies (#[trigger] built[i]).code@ == json_code(a, b, i) by {
        let n = a.len() as int;
        if i < n {
            assert(built_from(built[0 + i], a[i].0, TextMap::map_of_pairs(a[i].1), false));
        } else {
            assert(built_from(built[n + (i - n)], b[i - n].0, TextMap::map_of_pairs(b[i - n].1), true));
        }
    }
}

proof fn lemma_built_codes_distinct(
    built: Seq<Opcode>,
    a: Seq<(Seq<char>, Seq<(Seq<char>, Seq<char>)>)>,
    b: Seq<(Seq<char>, Seq<(Seq<char>, Seq<char>)>)>,
)
    requires
        built.len() == a.len() + b.len(),
        json_built(built, 0, a, false),
        json_built(built, a.len() as int, b, true),
        json_code_values_distinct(a, b),
    ensures
        forall|i: int, j: int|
            0 <= i < j < built.len() ==> code_value(#[trigger] built[i]) != code_value(#[trigger] built[j]),
{
    lemma_built_codes(built, a, b);
    assert forall|i: int, j: int| 0 <= i < j < built.len() implies code_value(#[trigger] built[i])
        != code_value(#[trigger] built[j]) by {
        assert(built[i].code@ == json_code(a, b, i));
        assert(built[j].code@ == json_code(a, b, j));
        assert(hex_value(json_code(a, b, i)) is Some);
        assert(hex_value(json_code(a, b, j)) is Some);
        assert(hex_value(json_code(a, b, i)) != hex_value(json_code(a, b, j)));
    }
}

/// `x` has its like in `r`.
pub open spec fn has_like(x: Opcode, r: Seq<Opcode>) -> bool {
    exists|k: int| 0 <= k < r.len() && same_opcode(x, #[trigger] r[k])
}

/// Every opcode of `v1` has its like in `v2`, when both come from tables that
/// hold the same entries.
proof fn lemma_each_has_like(
    v1: Seq<Opcode>,
    built1: Seq<Opcode>,
    a1: Seq<(Seq<char>, Seq<(Seq<char>, Seq<char>)>)>,
    b1: Seq<(Seq<char>, Seq<(Seq<char>, Seq<char>)>)>,
    v2: Seq<Opcode>,
    built2: Seq<Opcode>,
    a2: Seq<(Seq<char>, Seq<(Seq<char>, Seq<char>)>)>,
    b2: Seq<(Seq<char>, Seq<(Seq<char>, Seq<char>)>)>,
)
    requires
        built1.len() == a1.len() + b1.len(),
        json_built(built1, 0, a1, false),
        json_built(built1, a1.len() as int, b1, true),
        v1.to_multiset() == built1.to_multiset(),
        built2.len() == a2.len() + b2.len(),
        json_built(built2, 0, a2, false),
        json_built(built2, a2.len() as int, b2, true),
        v2.to_multiset() == built2.to_multiset(),
        a1.to_multiset() == a2.to_multiset(),
        b1.to_multiset() == b2.to_multiset(),
    ensures
        forall|i: int| 0 <= i < v1.len() ==> has_like(#[trigger] v1[i], v2),
{
    assert forall|i: int| 0 <= i < v1.len() implies has_like(#[trigger] v1[i], v2) by {
        let x = v1[i];
        assert(v1.contains(x));
        vstd::seq_lib::to_multiset_contains(v1, x);
        vstd::seq_lib::to_multiset_contains(built1, x);
        let p = choose|p: int| 0 <= p < built1.len() && built1[p] == x;
        let n1 = a1.len() as int;
        let n2 = a2.len() as int;
        let y = if p < n1 {
            let e = a1[p];
            assert(a1.contains(e));
            vstd::seq_lib::to_multiset_contains(a1, e);
            vstd::seq_lib::to_multiset_contains(a2, e);
            let j = choose|j: int| 0 <= j < a2.len() && a2[j] == e;
            assert(built_from(built1[0 + p], e.0, TextMap::map_of_pairs(e.1), false));
            assert(built_from(built2[0 + j], e.0, TextMap::map_of_pairs(e.1), false));
            lemma_built_from_same(x, built2[j], e.0, TextMap::map_of_pairs(e.1), false);
            built2[j]
        } else {
            let e = b1[p - n1];
            assert(b1.contains(e));
            vstd::seq_lib::to_multiset_contains(b1, e);
            vstd::seq_lib::to_multiset_contains(b2, e);
            let j = choose|j: int| 0 <= j < b2.len() && b2[j] == e;
            assert(built_from(built1[n1 + (p - n1)], e.0, TextMap::map_of_pairs(e.1), true));
            assert(built_from(built2[n2 + j], e.0, TextMap::map_of_pairs(e.1), true));
            lemma_built_from_same(x, built2[n2 + j], e.0, TextMap::map_of_pairs(e.1), true);
            built2[n2 + j]
        };
        assert(same_opcode(x, y));
        assert(built2.contains(y));
        vstd::seq_lib::to_multiset_contains(built2, y);
        vstd::seq_lib::to_multiset_contains(v2, y);
        let k = choose|k: int| 0 <= k < v2.len() && v2[k] == y;
        assert(same_opcode(x, v2[k]));
    }
}

proof fn lemma_tail_strict(r: Seq<Opcode>)
    requires
        strictly_sorted_by_code(r),
        r.len() > 0,
    ensures
        strictly_sorted_by_code(r.drop_first()),
{
    let t = r.drop_first();
    assert forall|a: int, b: int| 0 <= a < b < t.len() implies code_value(#[trigger] t[a]) < code_value(#[trigger] t[b]) by {
        assert(t[a] == r[a + 1] && t[b] == r[b + 1]);
    }
}

/// The first opcodes of two such lists are alike.
proof fn lemma_heads_alike(r1: Seq<Opcode>, r2: Seq<Opcode>)
    requires
        strictly_sorted_by_code(r1),
        strictly_sorted_by_code(r2),
        r1.len() > 0,
        r2.len() > 0,
        has_like(r1[0], r2),
        has_like(r2[0], r1),
    ensures
        same_opcode(r1[0], r2[0]),
{
    let j = choose|j: int| 0 <= j < r2.len() && same_opcode(r1[0], #[trigger] r2[j]);
    let k = choose|k: int| 0 <= k < r1.len() && same_opcode(r2[0], #[trigger] r1[k]);
    lemma_same_opcode_code(r1[0], r2[j]);
    lemma_same_opcode_code(r2[0], r1[k]);
    if j > 0 {
        assert(code_value(r2[0]) < code_value(r2[j]));
        if k > 0 {
            assert(code_value(r1[0]) < code_value(r1[k]));
        }
        assert(false);
    }
}

/// Past alike first opcodes, the rest of `r1` still has its like in the rest of `r2`.
proof fn lemma_tail_like(r1: Seq<Opcode>, r2: Seq<Opcode>)
    requires
        strictly_sorted_by_code(r1),
        r1.len() > 0,
        r2.len() > 0,
        same_opcode(r1[0], r2[0]),
        forall|i: int| 0 <= i < r1.len() ==> has_like(#[trigger] r1[i], r2),
    ensures
        forall|i: int| 0 <= i < r1.len() - 1 ==> has_like(#[trigger] r1.drop_first()[i], r2.drop_first()),
{
    let t1 = r1.drop_first();
    let t2 = r2.drop_first();
    lemma_same_opcode_code(r1[0], r2[0]);
    assert forall|i: int| 0 <= i < t1.len() implies has_like(#[trigger] t1[i], t2) by {
        assert(t1[i] == r1[i + 1]);
        assert(has_like(r1[i + 1], r2));
        let m = choose|m: int| 0 <= m < r2.len() && same_opcode(r1[i + 1], #[trigger] r2[m]);
        lemma_same_opcode_code(r1[i + 1], r2[m]);
        assert(code_value(r1[0]) < code_value(r1[i + 1]));
        assert(m != 0);
        assert(t2[m - 1] == r2[m]);
    }
}

/// Two lists with strictly increasing code values, each of whose opcodes has
/// its like in the other, are alike position by position.
proof fn lemma_sorted_alike(r1: Seq<Opcode>, r2: Seq<Opcode>)
    requires
        strictly_sorted_by_code(r1),
        strictly_sorted_by_code(r2),
        forall|i: int| 0 <= i < r1.len() ==> has_like(#[trigger] r1[i], r2),
        forall|i: int| 0 <= i < r2.len() ==> has_like(#[trigger] r2[i], r1),
    ensures
        r1.len() == r2.len(),
        forall|i: int| 0 <= i < r1.len() ==> same_opcode(#[trigger] r1[i], r2[i]),
    decreases r1.len() + r2.len(),
{
    if r1.len() == 0 {
        if r2.len() > 0 {
            assert(has_like(r2[0], r1));
        }
    } else {
        assert(has_like(r1[0], r2));
        assert(r2.len() > 0);
        assert(has_like(r2[0], r1));
        lemma_heads_alike(r1, r2);
        reveal(same_opcode);
        assert(same_opcode(r2[0], r1[0]));
        lemma_tail_strict(r1);
        lemma_tail_strict(r2);
        lemma_tail_like(r1, r2);
        lemma_tail_like(r2, r1);
        let t1 = r1.drop_first();
        let t2 = r2.drop_first();
        lemma_sorted_alike(t1, t2);
        assert forall|i: int| 0 <= i < r1.len() implies same_opcode(#[trigger] r1[i], r2[i]) by {
            if i > 0 {
                assert(r1[i] == t1[i - 1] && r2[i] == t2[i - 1]);
            }
        }
    }
}

/// The opcode list read from two JSON tables does not depend on the order of
/// their entries: two lists read from tables that hold the same entries, in
/// any order, with codes that are distinct numbers, are the same list.
pub proof fn law_json_order_independent(
    v1: Seq<Opcode>,
    a1: Seq<(Seq<char>, Seq<(Seq<char>, Seq<char>)>)>,
    b1: Seq<(Seq<char>, Seq<(Seq<char>, Seq<char>)>)>,
    v2: Seq<Opcode>,
    a2: Seq<(Seq<char>, Seq<(Seq<char>, Seq<char>)>)>,
    b2: Seq<(Seq<char>, Seq<(Seq<char>, Seq<char>)>)>,
)
    requires
        json_tables_ordered(v1, a1, b1),
        json_tables_ordered(v2, a2, b2),
        a1.to_multiset() == a2.to_multiset(),
        b1.to_multiset() == b2.to_multiset(),
        json_code_values_distinct(a1, b1),
        json_code_values_distinct(a2, b2),
    ensures
        v1.len() == v2.len(),
        forall|i: int| 0 <= i < v1.len() ==> same_opcode(#[trigger] v1[i], v2[i]),
{
    let (built1, perm1) = choose|built: Seq<Opcode>, perm: Seq<int>|
        {
            &&& built.len() == a1.len() + b1.len()
            &&& json_built(built, 0, a1, false)
            &&& json_built(built, a1.len() as int, b1, true)
            &&& #[trigger] stable_arrangement(v1, built, perm)
            &&& v1.to_multiset() == built.to_multiset()
        };
    let (built2, perm2) = choose|built: Seq<Opcode>, perm: Seq<int>|
        {
            &&& built.len() == a2.len() + b2.len()
            &&& json_built(built, 0, a2, false)
            &&& json_built(built, a2.len() as int, b2, true)
            &&& #[trigger] stable_arrangement(v2, built, perm)
            &&& v2.to_multiset() == built.to_multiset()
        };
    lemma_built_codes_distinct(built1, a1, b1);
    lemma_built_codes_distinct(built2, a2, b2);
    lemma_distinct_arrangement_strict(v1, built1, perm1);
    lemma_distinct_arrangement_strict(v2, built2, perm2);
    lemma_each_has_like(v1, built1, a1, b1, v2, built2, a2, b2);
    lemma_each_has_like(v2, built2, a2, b2, v1, built1, a1, b1);
    lemma_sorted_alike(v1, v2);
}

/// Trimming white space keeps the last character when it is not white space.
proof fn lemma_trim_keeps_last(s: Seq<char>)
    requires
        s.len() > 0,
        !crate::text::is_white_space(s.last()),
    ensures
        trim(s).len() > 0,
        trim(s).last() == s.last(),
    decreases s.len(),
{
    let t = crate::text::trim_start(s);
    lemma_trim_start_keeps_last(s);
    assert(crate::text::trim_end(t) == t);
}

proof fn lemma_trim_start_keeps_last(s: Seq<char>)
    requires
        s.len() > 0,
        !crate::text::is_white_space(s.last()),
    ensures
        crate::text::trim_start(s).len() > 0,
        crate::text::trim_start(s).last() == s.last(),
    decreases s.len(),
{
    if crate::text::is_white_space(s[0]) {
        assert(s.len() > 1);
        assert(s.drop_first().last() == s.last());
        lemma_trim_start_keeps_last(s.drop_first());
    }
}

/// An operand that ends in a character other than a decimal digit and is not
/// white space there is no number.
proof fn lemma_not_numeric_by_last(op: Seq<char>)
    requires
        op.len() > 0,
        !crate::text::is_white_space(op.last()),
        crate::text::digit_of(op.last(), 10) is None,
    ensures
        !is_numeric_text(op),
{
    lemma_trim_keeps_last(op);
    let t = crate::text::unsigned_body(trim(op));
    if t.len() > 0 {
        assert(t.last() == op.last());
        assert(crate::text::digit_of(t[t.len() - 1], 10) is None);
    }
}

/// An operand that begins with a character other than a decimal digit, `+`
/// or white space is no number.
proof fn lemma_not_numeric_by_first(op: Seq<char>)
    requires
        op.len() > 0,
        !crate::text::is_white_space(op[0]),
        op[0] != '+',
        crate::text::digit_of(op[0], 10) is None,
    ensures
        !is_numeric_text(op),
{
    lemma_trim_keeps_first(op);
    let t = crate::text::unsigned_body(trim(op));
    assert(t[0] == op[0]);
}

/// A hexadecimal literal `<digits>h` is read as `0x<digits>`: its digits are
/// kept as written, in the same order, whatever they are and at every width.
pub proof fn law_getter_hex_literal(d: Seq<char>, bits: nat)
    ensures
        getter_text(d.push('h'), bits) == "0x"@ + d,
{
    reveal_strlit("h");
    let op = d.push('h');
    lemma_not_numeric_by_last(op);
    assert(op.skip(op.len() - 1) =~= "h"@);
    assert(has_suffix(op, "h"@));
    assert(op.drop_last() =~= d);
}

/// A register operand, one or more capital letters that are neither a
/// condition (`NZ`, `NC`, `Z`, `CF`) nor an `FF` address, is read and written
/// through the same register: `self.get_<r>()` and `self.set_<r>(`, with `<r>`
/// the whole operand in lower case.
pub proof fn law_register_read_write(op: Seq<char>, bits: nat)
    requires
        op.len() > 0,
        forall|i: int| 0 <= i < op.len() ==> 'A' <= #[trigger] op[i] && op[i] <= 'Z',
        op != "NZ"@,
        op != "NC"@,
        op != "Z"@,
        op != "CF"@,
        !has_prefix(op, "FF"@),
    ensures
        getter_text(op, bits) == "self.get_"@ + op.map_values(|c: char| crate::text::ascii_lower(c))
            + "()"@,
        setter_text(op, bits) == "self.set_"@ + op.map_values(|c: char| crate::text::ascii_lower(c))
            + "("@,
{
    reveal_strlit("(");
    reveal_strlit("h");
    reveal_strlit("i8");
    reveal_strlit("u8");
    reveal_strlit("u16");
    reveal_strlit("SP+i8");
    assert('A' <= op.last() && op.last() <= 'Z');
    assert(!crate::text::is_white_space(op.last()));
    lemma_not_numeric_by_last(op);
    assert(op.skip(op.len() - 1)[0] == op.last());
    assert(!has_suffix(op, "h"@));
    assert(op.take(1)[0] == op[0]);
    assert(!has_prefix(op, "("@));
    assert(op != "i8"@ && op != "u8"@ && op != "u16"@);
    if op.len() == 5 {
        assert(op[2] != '+');
    }
    assert(op != "SP+i8"@);
    assert(crate::text::is_ascii_text(op));
}

/// The statement that writes an operand other than a memory operand `(...)`
/// names the whole operand in lower case: `self.set_<operand>(`.
pub proof fn law_setter_names_whole_operand(op: Seq<char>, bits: nat)
    requires
        crate::text::is_ascii_text(op),
        op.len() == 0 || op[0] != '(',
    ensures
        setter_text(op, bits) == "self.set_"@ + op.map_values(|c: char| crate::text::ascii_lower(c))
            + "("@,
{
    reveal_strlit("(");
    if op.len() > 0 {
        assert(op.take(1)[0] == op[0]);
    }
    assert(!has_prefix(op, "("@));
}

/// The statement that updates a flag names the flag it was asked for, right
/// after `StatusFlags::`: `self.status.remove(StatusFlags::<flag>);` for `0`,
/// `self.status.insert(StatusFlags::<flag>);` for `1`, and
/// `self.status.set(StatusFlags::<flag>, <condition>);` for any other text but
/// `-`, with the condition in lower case; `-` gives no statement.
pub proof fn law_set_flag_names_its_flag(v: Seq<char>, flag: Seq<char>)
    ensures
        v == "-"@ ==> set_flag_text(v, flag).len() == 0,
        v != "-"@ ==> set_flag_text(v, flag) == "self.status."@ + (if v == "0"@ {
            "remove"@
        } else if v == "1"@ {
            "insert"@
        } else {
            "set"@
        }) + "(StatusFlags::"@ + flag + (if v == "0"@ || v == "1"@ {
            ");"@
        } else {
            ", "@ + lower_text(v) + ");"@
        }),
{
    reveal_strlit("self.status.");
    reveal_strlit("remove");
    reveal_strlit("insert");
    reveal_strlit("set");
    reveal_strlit("(StatusFlags::");
    reveal_strlit("self.status.remove(StatusFlags::");
    reveal_strlit("self.status.insert(StatusFlags::");
    reveal_strlit("self.status.set(StatusFlags::");
    let p = "self.status."@;
    let q = "(StatusFlags::"@;
    if v != "-"@ {
        if v == "0"@ {
            assert(p + "remove"@ + q =~= "self.status.remove(StatusFlags::"@);
        } else if v == "1"@ {
            assert(p + "insert"@ + q =~= "self.status.insert(StatusFlags::"@);
        } else {
            assert(p + "set"@ + q =~= "self.status.set(StatusFlags::"@);
            assert("self.status.set(StatusFlags::"@ + flag + ", "@ + lower_text(v) + ");"@
                =~= "self.status.set(StatusFlags::"@ + flag + (", "@ + lower_text(v) + ");"@));
        }
    }
}

/// The four conditions read the flag they name: `Z` for `NZ` and `Z`, `C` for
/// `NC` and `CF`, negated exactly for the two that begin with `N`.
pub proof fn law_condition_reads_its_flag(op: Seq<char>, bits: nat)
    requires
        op == "NZ"@ || op == "NC"@ || op == "Z"@ || op == "CF"@,
    ensures
        getter_text(op, bits) == (if op[0] == 'N' {
            "!"@
        } else {
            Seq::<char>::empty()
        }) + "self.status.contains(StatusFlags::"@ + seq![
            if op.contains('Z') {
                'Z'
            } else {
                'C'
            },
        ] + ")"@,
{
    reveal_strlit("h");
    reveal_strlit("NZ");
    reveal_strlit("NC");
    reveal_strlit("Z");
    reveal_strlit("CF");
    reveal_strlit("!");
    reveal_strlit(")");
    reveal_strlit("self.status.contains(StatusFlags::");
    reveal_strlit("!self.status.contains(StatusFlags::Z)");
    reveal_strlit("!self.status.contains(StatusFlags::C)");
    reveal_strlit("self.status.contains(StatusFlags::Z)");
    reveal_strlit("self.status.contains(StatusFlags::C)");
    assert(!crate::text::is_white_space(op.last()));
    lemma_not_numeric_by_last(op);
    assert(op.skip(op.len() - 1)[0] == op.last());
    assert(!has_suffix(op, "h"@));
    let p = "self.status.contains(StatusFlags::"@;
    let e = Seq::<char>::empty();
    if op == "NZ"@ {
        assert(op.contains('Z')) by {
            assert(op[1] == 'Z');
        }
        assert("!"@ + p + seq!['Z'] + ")"@ =~= "!self.status.contains(StatusFlags::Z)"@);
    } else if op == "NC"@ {
        assert(!op.contains('Z')) by {
            assert forall|i: int| 0 <= i < op.len() implies op[i] != 'Z' by {}
        }
        assert("!"@ + p + seq!['C'] + ")"@ =~= "!self.status.contains(StatusFlags::C)"@);
    } else if op == "Z"@ {
        assert(op.contains('Z')) by {
            assert(op[0] == 'Z');
        }
        assert(e + p + seq!['Z'] + ")"@ =~= "self.status.contains(StatusFlags::Z)"@);
    } else {
        assert(!op.contains('Z')) by {
            assert forall|i: int| 0 <= i < op.len() implies op[i] != 'Z' by {}
        }
        assert(e + p + seq!['C'] + ")"@ =~= "self.status.contains(StatusFlags::C)"@);
    }
}

/// The immediate operands are read at the program counter: `i8` as one byte,
/// exactly as `u8` is read, and `u8` and `u16` with the read of their own width.
pub proof fn law_immediate_operands(bits: nat)
    ensures
        getter_text("i8"@, bits) == getter_text("u8"@, bits),
        getter_text("u8"@, bits) == "self.mem_read_"@ + "u8"@ + "(self.program_counter)"@,
        getter_text("u16"@, bits) == "self.mem_read_"@ + "u16"@ + "(self.program_counter)"@,
{
    reveal_strlit("h");
    reveal_strlit("NZ");
    reveal_strlit("NC");
    reveal_strlit("Z");
    reveal_strlit("CF");
    reveal_strlit("i8");
    reveal_strlit("u8");
    reveal_strlit("u16");
    reveal_strlit("self.mem_read_");
    reveal_strlit("(self.program_counter)");
    reveal_strlit("self.mem_read_u8(self.program_counter)");
    lemma_not_numeric_by_first("i8"@);
    lemma_not_numeric_by_first("u8"@);
    lemma_not_numeric_by_first("u16"@);
    assert("i8"@.skip(1)[0] == '8');
    assert("u8"@.skip(1)[0] == '8');
    assert("u16"@.skip(2)[0] == '6');
    assert(!has_suffix("i8"@, "h"@));
    assert(!has_suffix("u8"@, "h"@));
    assert(!has_suffix("u16"@, "h"@));
    assert("self.mem_read_"@ + "u8"@ + "(self.program_counter)"@
        =~= "self.mem_read_u8(self.program_counter)"@);
}

/// An address `FF<a>+<x>` in the high page is read as the hexadecimal base
/// `0xFF<a>` plus what reading `<x>` gives, whatever `<a>` and `<x>` are
/// (neither holding `+`, and `<x>` not a literal ending in `h`).
pub proof fn law_high_page_address(a: Seq<char>, x: Seq<char>, bits: nat)
    requires
        crate::text::free_of(a, '+'),
        crate::text::free_of(x, '+'),
        x.len() == 0 || x.last() != 'h',
    ensures
        getter_text("FF"@ + a + seq!['+'] + x, bits) == "0x"@ + ("FF"@ + a) + " + "@ + getter_text(
            x,
            bits,
        ),
{
    reveal_strlit("h");
    reveal_strlit("FF");
    reveal_strlit("NZ");
    reveal_strlit("NC");
    reveal_strlit("Z");
    reveal_strlit("CF");
    reveal_strlit("i8");
    reveal_strlit("u8");
    reveal_strlit("u16");
    let head = "FF"@ + a;
    let op = head + seq!['+'] + x;
    assert(op[0] == 'F');
    lemma_trim_keeps_first(op);
    let t = crate::text::unsigned_body(trim(op));
    assert(t[0] == 'F');
    assert(crate::text::digit_of(t[0], 10) is None);
    assert(!is_numeric_text(op));
    if x.len() == 0 {
        assert(op.last() == '+');
    } else {
        assert(op.last() == x.last());
    }
    assert(op.skip(op.len() - 1)[0] == op.last());
    assert(!has_suffix(op, "h"@));
    assert(op.len() >= 3);
    assert(op != "NZ"@ && op != "NC"@ && op != "Z"@ && op != "CF"@ && op != "i8"@ && op != "u8"@);
    assert(op != "u16"@) by {
        if op.len() == 3 {
            assert(op[0] != "u16"@[0]);
        }
    }
    assert(op.take(2) =~= "FF"@);
    assert(has_prefix(op, "FF"@));
    let xs = seq![head, x];
    assert(crate::text::free_of(head, '+')) by {
        assert forall|i: int| 0 <= i < head.len() implies head[i] != '+' by {
            if i >= 2 {
                assert(head[i] == a[i - 2]);
            }
        }
    }
    assert forall|i: int| 0 <= i < xs.len() implies crate::text::free_of(#[trigger] xs[i], '+') by {}
    assert(xs.drop_last() =~= seq![head]);
    assert(crate::text::join(xs.drop_last(), seq!['+']) == head);
    assert(crate::text::join(xs, seq!['+']) == op);
    crate::text::law_split_undoes_join(xs, '+');
    assert(split_on(op, '+') == xs);
}

/// The stack pointer plus offset `SP+i8` is read as the stack pointer, ` + `,
/// and the offset byte, each read as on its own.
pub proof fn law_stack_offset(bits: nat)
    ensures
        getter_text("SP+i8"@, bits) == getter_text("SP"@, bits) + " + "@ + getter_text("i8"@, bits),
{
    reveal_strlit("h");
    reveal_strlit("(");
    reveal_strlit("FF");
    reveal_strlit("NZ");
    reveal_strlit("NC");
    reveal_strlit("Z");
    reveal_strlit("CF");
    reveal_strlit("i8");
    reveal_strlit("u8");
    reveal_strlit("u16");
    reveal_strlit("SP");
    reveal_strlit("SP+i8");
    let op = "SP+i8"@;
    assert(op =~= seq!['S', 'P', '+', 'i', '8']);
    lemma_not_numeric_by_first(op);
    assert(op.skip(op.len() - 1)[0] == '8');
    assert(!has_suffix(op, "h"@));
    assert(op.take(2)[0] == 'S');
    assert(!has_prefix(op, "FF"@));
    assert(op.take(1)[0] == 'S');
    assert(!has_prefix(op, "("@));
    lemma_split_sp_i8();
    assert(seq!['S', 'P'] =~= "SP"@);
    assert(seq!['i', '8'] =~= "i8"@);
}

/// A number, with or without white space around it, is an operand read as
/// it is written.
pub proof fn law_number_operand_as_written(p: Seq<char>, n: nat, q: Seq<char>, bits: nat)
    requires
        forall|i: int| 0 <= i < p.len() ==> crate::text::is_white_space(#[trigger] p[i]),
        forall|i: int| 0 <= i < q.len() ==> crate::text::is_white_space(#[trigger] q[i]),
        n <= usize::MAX,
    ensures
        is_numeric_text(p + format_digits(n, 10) + q),
        getter_text(p + format_digits(n, 10) + q, bits) == p + format_digits(n, 10) + q,
{
    let x = format_digits(n, 10);
    crate::text::lemma_format_digits_parse(n, 10);
    assert(crate::text::digit_of(x[0], 10) is Some);
    assert(crate::text::digit_of(x.last(), 10) is Some);
    assert(!crate::text::is_white_space(x[0]));
    assert(!crate::text::is_white_space(x.last()));
    crate::text::law_trim_removes_surrounding_space(p, x, q);
    crate::text::law_format_then_parse(n, 10, usize::MAX as nat);
}

/// The opcodes sorted by code begin with the smallest code and end with the
/// largest.
pub proof fn law_sorted_by_code_ends(r: Seq<Opcode>)
    requires
        sorted_by_code(r),
        r.len() > 0,
    ensures
        forall|i: int| 0 <= i < r.len() ==> code_value(r[0]) <= #[trigger] code_value(r[i]),
        forall|i: int| 0 <= i < r.len() ==> #[trigger] code_value(r[i]) <= code_value(r.last()),
{
    assert forall|i: int| 0 <= i < r.len() implies code_value(r[0]) <= #[trigger] code_value(r[i]) by {
        if i > 0 {
            assert(code_value(r[0]) <= code_value(r[i]));
        }
    }
    assert forall|i: int| 0 <= i < r.len() implies #[trigger] code_value(r[i]) <= code_value(r.last()) by {
        if i < r.len() - 1 {
            assert(code_value(r[i]) <= code_value(r[r.len() - 1]));
        }
    }
}

/// The code `CB<a><b>` is the number `0xCB00 + 16 * m + l` for the digits `a`
/// and `b` of values `m` and `l`.
proof fn lemma_cb_code(a: char, b: char, m: nat, l: nat)
    requires
        crate::text::digit_of(a, 16) == Some(m),
        crate::text::digit_of(b, 16) == Some(l),
    ensures
        hex_value(seq!['C', 'B', a, b]) == Some(0xCB00 + 16 * m + l),
{
    let s = seq!['C', 'B', a, b];
    assert(crate::text::unsigned_body(s) == s);
    assert(s.drop_last() =~= seq!['C', 'B', a]);
    assert(s.drop_last().drop_last() =~= seq!['C', 'B']);
    assert(s.drop_last().drop_last().drop_last() =~= seq!['C']);
    assert(s.drop_last().drop_last().drop_last().drop_last() =~= Seq::<char>::empty());
    reveal_with_fuel(crate::text::digits_value, 5);
    assert(crate::text::digit_of('C', 16) == Some(12nat));
    assert(crate::text::digit_of('B', 16) == Some(11nat));
    assert(crate::text::digits_value(s, 16) == 0xCB00 + 16 * m + l);
    assert(crate::text::all_digits(s, 16)) by {
        assert forall|i: int| 0 <= i < s.len() implies (#[trigger] crate::text::digit_of(s[i], 16)) is Some by {
            if i == 2 {
                assert(s[i] == a);
            } else if i == 3 {
                assert(s[i] == b);
            }
        }
    }
}

/// The opcode read from the key of the cell in row `msb` and column `lsb` of
/// the CB-prefixed table (both under sixteen), with `CB` before it as
/// `Opcode::new` writes it, is the number `0xCB00 + 16 * msb + lsb`: every
/// CB-prefixed opcode sorts after every opcode of the other table.
pub proof fn law_cb_cell_position_code_value(msb: nat, lsb: nat, class: Seq<char>)
    requires
        msb < 16,
        lsb < 16,
    ensures
        hex_value(full_code(crate::html_scraper::entry_opcode(crate::html_scraper::cell_key(msb, lsb, class)), true))
            == Some(0xCB00 + 16 * msb + lsb),
        0xCB00 + 16 * msb + lsb > 0xFF,
{
    let a = crate::text::digit_char(msb);
    let b = crate::text::digit_char(lsb);
    let h = seq![a, b];
    assert(format_digits(msb, 16) == seq![a]);
    assert(format_digits(lsb, 16) == seq![b]);
    reveal_strlit("CB");
    let suffix = crate::html_scraper::bits_suffix(class);
    reveal_strlit("-8");
    reveal_strlit("-16");
    reveal_strlit("-0");
    let t = suffix.drop_first();
    assert(suffix =~= seq!['-'] + t);
    assert(crate::text::free_of(t, '-'));
    assert(crate::text::free_of(h, '-'));
    assert(crate::html_scraper::cell_key(msb, lsb, class) =~= h + seq!['-'] + t);
    crate::html_scraper::law_entry_key_parts(h, t);
    assert(crate::text::is_ascii_text(h)) by {
        assert forall|i: int| 0 <= i < h.len() implies crate::text::is_ascii_char(#[trigger] h[i]) by {}
    }
    let u = crate::text::upper_text(h);
    assert(u =~= seq![crate::text::ascii_upper(a), crate::text::ascii_upper(b)]);
    assert(crate::text::digit_of(crate::text::ascii_upper(a), 16) == Some(msb));
    assert(crate::text::digit_of(crate::text::ascii_upper(b), 16) == Some(lsb));
    assert(full_code(u, true) =~= seq!['C', 'B', crate::text::ascii_upper(a), crate::text::ascii_upper(b)]);
    lemma_cb_code(crate::text::ascii_upper(a), crate::text::ascii_upper(b), msb, lsb);
}

} // verus!
