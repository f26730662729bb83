//! What holds of the way from an instruction cell of the table to an opcode:
//! the fields that reading a cell gives are those an opcode is built from, and
//! the operands and cycles written in the cell come back unchanged.
use vstd::prelude::*;
use crate::generator::{branch_cycle_count, cycle_count};
use crate::opcode_data::{
    accepts_fields, built_from, cycle_pieces, cycles_of, parse_count, zero_flag, Opcode,
};
use crate::pest_parser::{
    cycles_text_of, fields_of, flag_of, flag_rule, has_operands, is_cycle_count, is_cycles,
    is_instruction, is_number, operands_of, size_of,
};
use crate::text::{
    digit_of, digits_value, free_of, join, law_join_undoes_split, law_split_undoes_join,
    lemma_replace_char_absent, lemma_replace_char_concat, lemma_replace_char_itself,
    lemma_split_on_nonempty, replace_all, split_on, unsigned_body,
};

verus! {

/// The counts written in a cycles word such as `12t-8t`: the digits of each
/// count, without its `t`.
pub open spec fn cycle_digits(w: Seq<char>) -> Seq<Seq<char>> {
    split_on(w, '-').map_values(|p: Seq<char>| p.drop_last())
}

/// A run of decimal digits holds neither `t` nor `-` nor `|`.
proof fn lemma_number_free(d: Seq<char>)
    requires
        is_number(d),
    ensures
        free_of(d, 't'),
        free_of(d, '-'),
        d[0] != '+',
{
    assert forall|k: int| 0 <= k < d.len() implies d[k] != 't' && d[k] != '-' by {
        assert(digit_of(d[k], 10) is Some);
    }
    assert(digit_of(d[0], 10) is Some);
}

/// A count word `<digits>t` loses its `t` when the `t`s are removed.
proof fn lemma_count_without_t(p: Seq<char>)
    requires
        is_cycle_count(p),
    ensures
        replace_all(p, seq!['t'], Seq::<char>::empty()) == p.drop_last(),
{
    let d = p.drop_last();
    lemma_number_free(d);
    assert(p =~= d + seq!['t']);
    lemma_replace_char_concat(d, seq!['t'], 't', Seq::<char>::empty());
    lemma_replace_char_absent(d, 't', Seq::<char>::empty());
    lemma_replace_char_itself('t', Seq::<char>::empty());
    assert(d + Seq::<char>::empty() =~= d);
}

/// Removing the `t`s from a cycles word and splitting at `-` gives the digits of its counts.
pub proof fn law_cycles_read_back(w: Seq<char>)
    requires
        is_cycles(w),
    ensures
        split_on(replace_all(w, seq!['t'], Seq::<char>::empty()), '-') == cycle_digits(w),
        forall|i: int| 0 <= i < cycle_digits(w).len() ==> is_number(#[trigger] cycle_digits(w)[i]),
{
    let p = split_on(w, '-');
    let e = Seq::<char>::empty();
    law_join_undoes_split(w, '-');
    let ds = cycle_digits(w);
    if p.len() == 1 {
        assert(join(p, seq!['-']) == p[0]);
        lemma_count_without_t(p[0]);
        lemma_number_free(p[0].drop_last());
        assert(ds =~= seq![p[0].drop_last()]);
        assert(free_of(ds[0], '-'));
        law_split_undoes_join(ds, '-');
        assert(join(ds, seq!['-']) == ds[0]);
    } else {
        assert(p.drop_last() =~= seq![p[0]]);
        assert(join(p.drop_last(), seq!['-']) == p[0]);
        assert(w == p[0] + seq!['-'] + p[1]);
        lemma_count_without_t(p[0]);
        lemma_count_without_t(p[1]);
        lemma_number_free(p[0].drop_last());
        lemma_number_free(p[1].drop_last());
        lemma_replace_char_concat(p[0] + seq!['-'], p[1], 't', e);
        lemma_replace_char_concat(p[0], seq!['-'], 't', e);
        assert(free_of(seq!['-'], 't'));
        lemma_replace_char_absent(seq!['-'], 't', e);
        assert(ds =~= seq![p[0].drop_last(), p[1].drop_last()]);
        assert forall|i: int| 0 <= i < ds.len() implies free_of(#[trigger] ds[i], '-') by {}
        law_split_undoes_join(ds, '-');
        assert(ds.drop_last() =~= seq![ds[0]]);
        assert(join(ds.drop_last(), seq!['-']) == ds[0]);
    }
}

/// A run of decimal digits is read as the number it writes, where that fits.
proof fn lemma_number_count(d: Seq<char>)
    requires
        is_number(d),
        digits_value(d, 10) <= usize::MAX,
    ensures
        parse_count(d) == Some(digits_value(d, 10)),
{
    lemma_number_free(d);
    assert(unsigned_body(d) == d);
}

/// The keys of the fields, told apart.
proof fn lemma_field_names_distinct()
    ensures
        "mnemonic"@ != "operator"@,
        "operands"@ != "size"@ && "operands"@ != "cycles"@ && "operands"@ != "K"@ && "operands"@ != "N"@
            && "operands"@ != "H"@ && "operands"@ != "C"@ && "operands"@ != "bits"@,
        "size"@ != "cycles"@ && "size"@ != "K"@ && "size"@ != "N"@ && "size"@ != "H"@ && "size"@
            != "C"@ && "size"@ != "bits"@,
        "cycles"@ != "K"@ && "cycles"@ != "N"@ && "cycles"@ != "H"@ && "cycles"@ != "C"@
            && "cycles"@ != "bits"@,
        "K"@ != "N"@ && "K"@ != "H"@ && "K"@ != "C"@ && "K"@ != "bits"@,
        "N"@ != "H"@ && "N"@ != "C"@ && "N"@ != "bits"@,
        "H"@ != "C"@ && "H"@ != "bits"@,
        "C"@ != "bits"@,
        "mnemonic"@ != "operands"@ && "mnemonic"@ != "size"@ && "mnemonic"@ != "cycles"@ && "mnemonic"@
            != "K"@ && "mnemonic"@ != "N"@ && "mnemonic"@ != "H"@ && "mnemonic"@ != "C"@ && "mnemonic"@
            != "bits"@,
        "operator"@ != "operands"@ && "operator"@ != "size"@ && "operator"@ != "cycles"@ && "operator"@
            != "K"@ && "operator"@ != "N"@ && "operator"@ != "H"@ && "operator"@ != "C"@ && "operator"@
            != "bits"@,
        "Z"@ != "mnemonic"@ && "Z"@ != "operator"@ && "Z"@ != "operands"@ && "Z"@ != "size"@ && "Z"@
            != "cycles"@ && "Z"@ != "K"@ && "Z"@ != "N"@ && "Z"@ != "H"@ && "Z"@ != "C"@ && "Z"@ != "bits"@,
{
    reveal_strlit("Z");
    reveal_strlit("mnemonic");
    reveal_strlit("operator");
    reveal_strlit("operands");
    reveal_strlit("size");
    reveal_strlit("cycles");
    reveal_strlit("K");
    reveal_strlit("N");
    reveal_strlit("H");
    reveal_strlit("C");
    reveal_strlit("bits");
    assert("operator"@[6] != "operands"@[6]);
    assert("size"@[0] != "bits"@[0]);
    assert("cycles"@.len() == 6 && "size"@.len() == 4 && "bits"@.len() == 4);
    assert("K"@.len() == 1 && "N"@.len() == 1 && "H"@.len() == 1 && "C"@.len() == 1);
    assert("K"@[0] != "N"@[0] && "K"@[0] != "H"@[0] && "K"@[0] != "C"@[0]);
    assert("N"@[0] != "H"@[0] && "N"@[0] != "C"@[0] && "H"@[0] != "C"@[0]);
    assert("mnemonic"@[0] != "operands"@[0]);
    assert("mnemonic"@[0] != "operator"@[0]);
    assert("Z"@.len() == 1 && "Z"@[0] != "K"@[0] && "Z"@[0] != "N"@[0] && "Z"@[0] != "H"@[0]
        && "Z"@[0] != "C"@[0]);
}

/// The fields that reading an instruction cell gives, with its bits added,
/// are always ones an opcode can be built from, and its cycles are the counts
/// written in the cell: provided the bits and the numbers in the cell fit in
/// a `usize`.
pub proof fn law_cell_fields_build_opcode(s: Seq<char>, bits: Seq<char>)
    requires
        is_instruction(s),
        parse_count(bits) is Some,
        digits_value(size_of(s), 10) <= usize::MAX,
        forall|i: int|
            0 <= i < cycle_digits(cycles_text_of(s)).len() ==> digits_value(
                #[trigger] cycle_digits(cycles_text_of(s))[i],
                10,
            ) <= usize::MAX,
    ensures
        accepts_fields(fields_of(s).insert("bits"@, bits)),
        cycle_pieces(fields_of(s).insert("bits"@, bits)) == cycle_digits(cycles_text_of(s)),
        parse_count(fields_of(s).insert("bits"@, bits)["size"@]) == Some(digits_value(size_of(s), 10)),
{
    let f = fields_of(s).insert("bits"@, bits);
    lemma_field_names_distinct();
    assert(f["size"@] == size_of(s));
    assert(f["cycles"@] == replace_all(cycles_text_of(s), seq!['t'], Seq::<char>::empty()));
    assert(f["bits"@] == bits);
    law_cycles_read_back(cycles_text_of(s));
    lemma_number_count(size_of(s));
    let ds = cycle_digits(cycles_text_of(s));
    assert forall|i: int| 0 <= i < cycle_pieces(f).len() implies (#[trigger] parse_count(cycle_pieces(f)[i])) is Some by {
        assert(cycle_pieces(f)[i] == ds[i]);
        lemma_number_count(ds[i]);
    }
    assert(f.contains_key("K"@));
}

/// The operands that reading an instruction cell gives come back unchanged
/// when the opcode splits them again, as long as the cell has operands and
/// none of them holds `|`.
pub proof fn law_operands_read_back(s: Seq<char>)
    requires
        is_instruction(s),
        has_operands(s),
        forall|i: int| 0 <= i < operands_of(s).len() ==> free_of(#[trigger] operands_of(s)[i], '|'),
    ensures
        split_on(fields_of(s)["operands"@], '|') == operands_of(s),
{
    lemma_field_names_distinct();
    assert(fields_of(s)["operands"@] == join(operands_of(s), seq!['|']));
    lemma_split_on_nonempty(crate::text::words(s)[1], ',');
    law_split_undoes_join(operands_of(s), '|');
}

/// Reading an instruction cell puts its last four words, the flags in the
/// order Z, N, H, C, under `K`, `N`, `H` and `C` as they are written; its
/// first word is the operator and the word before the cycles its size.
pub proof fn law_flags_read_from_words(s: Seq<char>)
    requires
        is_instruction(s),
    ensures
        fields_of(s)["K"@] == crate::text::words(s)[crate::text::words(s).len() - 4],
        fields_of(s)["N"@] == crate::text::words(s)[crate::text::words(s).len() - 3],
        fields_of(s)["H"@] == crate::text::words(s)[crate::text::words(s).len() - 2],
        fields_of(s)["C"@] == crate::text::words(s)[crate::text::words(s).len() - 1],
        fields_of(s)["operator"@] == crate::text::words(s)[0],
        fields_of(s)["size"@] == crate::text::words(s)[crate::text::words(s).len() - 6],
{
    let w = crate::text::words(s);
    let b = crate::pest_parser::size_at(s);
    lemma_field_names_distinct();
    assert(b + 2 == w.len() - 4);
    assert(flag_rule(w[b + 2 + 0]) is Some);
    assert(flag_rule(w[b + 2 + 1]) is Some);
    assert(flag_rule(w[b + 2 + 2]) is Some);
    assert(flag_rule(w[b + 2 + 3]) is Some);
    crate::pest_parser::law_flag_text_round_trip(flag_of(s, 0), w[b + 2]);
    crate::pest_parser::law_flag_text_round_trip(flag_of(s, 0), w[b + 3]);
    crate::pest_parser::law_flag_text_round_trip(flag_of(s, 0), w[b + 4]);
    crate::pest_parser::law_flag_text_round_trip(flag_of(s, 0), w[b + 5]);
}

/// The opcode built from an instruction cell (with its bits added) holds the
/// flags written in the cell: Z, N and H as they are written, and C as written
/// unless it is `C` itself, which may stand for the carry condition `CF`.
pub proof fn law_cell_flags_reach_opcode(
    s: Seq<char>,
    bits: Seq<char>,
    o: Opcode,
    code: Seq<char>,
    is_cb: bool,
)
    requires
        is_instruction(s),
        built_from(o, code, fields_of(s).insert("bits"@, bits), is_cb),
    ensures
        o.z@ == crate::text::words(s)[crate::text::words(s).len() - 4],
        o.n@ == crate::text::words(s)[crate::text::words(s).len() - 3],
        o.h@ == crate::text::words(s)[crate::text::words(s).len() - 2],
        crate::text::words(s)[crate::text::words(s).len() - 1] != "C"@ ==> o.c@
            == crate::text::words(s)[crate::text::words(s).len() - 1],
{
    let f = fields_of(s).insert("bits"@, bits);
    lemma_field_names_distinct();
    law_flags_read_from_words(s);
    assert(!fields_of(s).contains_key("Z"@));
    assert(!f.contains_key("Z"@));
    assert(zero_flag(f) == f["K"@]);
    assert(f["K"@] == fields_of(s)["K"@]);
    assert(f["N"@] == fields_of(s)["N"@]);
    assert(f["H"@] == fields_of(s)["H"@]);
    assert(f["C"@] == fields_of(s)["C"@]);
}

/// The opcode built from an instruction cell (with its bits added) counts the
/// cycles written in the cell: a taken branch costs the first count, and the
/// count the templates use otherwise is the last one, the only one where
/// there is only one.
pub proof fn law_cell_cycles_reach_opcode(
    s: Seq<char>,
    bits: Seq<char>,
    o: Opcode,
    code: Seq<char>,
    is_cb: bool,
)
    requires
        is_instruction(s),
        parse_count(bits) is Some,
        digits_value(size_of(s), 10) <= usize::MAX,
        forall|i: int|
            0 <= i < cycle_digits(cycles_text_of(s)).len() ==> digits_value(
                #[trigger] cycle_digits(cycles_text_of(s))[i],
                10,
            ) <= usize::MAX,
        built_from(o, code, fields_of(s).insert("bits"@, bits), is_cb),
    ensures
        cycle_digits(cycles_text_of(s)).len() == 1 || cycle_digits(cycles_text_of(s)).len() == 2,
        branch_cycle_count(o.cycles) == digits_value(cycle_digits(cycles_text_of(s))[0], 10),
        cycle_count(o.cycles) == digits_value(cycle_digits(cycles_text_of(s)).last(), 10),
        (o.cycles is Two) == (cycle_digits(cycles_text_of(s)).len() == 2),
{
    let f = fields_of(s).insert("bits"@, bits);
    law_cell_fields_build_opcode(s, bits);
    let ds = cycle_digits(cycles_text_of(s));
    let p = cycle_pieces(f);
    assert(p == ds);
    assert(ds.len() == split_on(cycles_text_of(s), '-').len());
    lemma_number_count(ds[0]);
    if ds.len() == 2 {
        lemma_number_count(ds[1]);
    }
    assert(o.cycles == cycles_of(f));
}

/// The mnemonic that reading an instruction cell gives is its operator, then,
/// where the cell has operands, a space and the operands joined by `,` as the
/// cell writes them.
pub proof fn law_mnemonic_from_operator_and_operands(s: Seq<char>)
    requires
        is_instruction(s),
    ensures
        has_operands(s) ==> fields_of(s)["mnemonic"@] == fields_of(s)["operator"@] + seq![' ']
            + join(operands_of(s), seq![',']),
        has_operands(s) ==> fields_of(s)["mnemonic"@] == crate::text::words(s)[0] + seq![' ']
            + crate::text::words(s)[1],
        !has_operands(s) ==> fields_of(s)["mnemonic"@] == fields_of(s)["operator"@],
{
    lemma_field_names_distinct();
    law_flags_read_from_words(s);
    if has_operands(s) {
        law_join_undoes_split(crate::text::words(s)[1], ',');
    }
}

} // verus!
