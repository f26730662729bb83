//! Opcode records built from the fields that the instruction parser extracts.
use vstd::prelude::*;
use crate::text::{
    chars_of, lemma_split_on_nonempty, parse_unsigned, parse_unsigned_chars, split_chars, split_on,
};
use crate::text_map::{str_eq, TextMap};

verus! {

/// The cycles an instruction takes: one count, or for a conditional branch
/// the count when the branch is taken and the count when it is not.
#[derive(Debug, Clone, Copy, PartialEq, Eq, Structural)]
pub enum Cycles {
    One(usize),
    Two(usize, usize),
}

/// One opcode of the table with everything the code templates need.
#[derive(Debug)]
pub struct Opcode {
    pub code: String,
    pub mnemonic: String,
    pub operator: String,
    pub operands: Vec<String>,
    pub cycles: Cycles,
    pub size: usize,
    pub z: String,
    pub n: String,
    pub h: String,
    pub c: String,
    pub bits: usize,
}

/// A count as `usize::from_str` reads it.
pub open spec fn parse_count(s: Seq<char>) -> Option<nat> {
    parse_unsigned(s, 10, usize::MAX as nat)
}

/// The pieces of the cycles field, split at `-`.
pub open spec fn cycle_pieces(data: Map<Seq<char>, Seq<char>>) -> Seq<Seq<char>> {
    split_on(data["cycles"@], '-')
}

/// The text of the zero flag: under `Z`, or, where there is no `Z`, under `K`,
/// the name that the instruction parser gives it.
pub open spec fn zero_flag(data: Map<Seq<char>, Seq<char>>) -> Seq<char> {
    if data.contains_key("Z"@) {
        data["Z"@]
    } else {
        data["K"@]
    }
}

/// The fields from which an opcode can be built: every field is there, and the
/// counts (size, bits and each piece of the cycles) are numbers.
pub open spec fn accepts_fields(data: Map<Seq<char>, Seq<char>>) -> bool {
    &&& data.contains_key("operands"@)
    &&& data.contains_key("cycles"@)
    &&& data.contains_key("C"@)
    &&& data.contains_key("mnemonic"@)
    &&& data.contains_key("operator"@)
    &&& data.contains_key("size"@)
    &&& data.contains_key("N"@)
    &&& data.contains_key("H"@)
    &&& data.contains_key("bits"@)
    &&& (data.contains_key("Z"@) || data.contains_key("K"@))
    &&& parse_count(data["size"@]) is Some
    &&& parse_count(data["bits"@]) is Some
    &&& forall|i: int|
        0 <= i < cycle_pieces(data).len() ==> (#[trigger] parse_count(cycle_pieces(data)[i])) is Some
}

/// The cycles that the cycles field gives: its first count alone, or its first
/// two counts where it has more than one.
pub open spec fn cycles_of(data: Map<Seq<char>, Seq<char>>) -> Cycles {
    let p = cycle_pieces(data);
    if p.len() == 1 {
        Cycles::One(parse_count(p[0]).unwrap() as usize)
    } else {
        Cycles::Two(parse_count(p[0]).unwrap() as usize, parse_count(p[1]).unwrap() as usize)
    }
}

/// The carry flag text: `C` becomes `CF` for the four opcodes whose operand `C`
/// is the carry condition, so that it is not read as register C.
pub open spec fn carry_flag(code: Seq<char>, cf: Seq<char>) -> Seq<char> {
    if cf == "C"@ && (code == "0038"@ || code == "00D8"@ || code == "00DA"@ || code == "00DC"@) {
        "CF"@
    } else {
        cf
    }
}

/// The full code of an opcode: `CB` before the code of a CB-prefixed one, `00` before the others.
pub open spec fn full_code(code: Seq<char>, is_cb: bool) -> Seq<char> {
    (if is_cb { "CB"@ } else { "00"@ }) + code
}

/// `o` is the opcode with code `code` (in the CB-prefixed table if `is_cb`)
/// and the fields `data`.
pub open spec fn built_from(o: Opcode, code: Seq<char>, data: Map<Seq<char>, Seq<char>>, is_cb: bool) -> bool {
    &&& o.code@ == full_code(code, is_cb)
    &&& o.mnemonic@ == data["mnemonic"@]
    &&& o.operator@ == data["operator"@]
    &&& o.operands.deep_view() == split_on(data["operands"@], '|')
    &&& o.cycles == cycles_of(data)
    &&& o.size as nat == parse_count(data["size"@]).unwrap()
    &&& o.z@ == zero_flag(data)
    &&& o.n@ == data["N"@]
    &&& o.h@ == data["H"@]
    &&& o.c@ == carry_flag(full_code(code, is_cb), data["C"@])
    &&& o.bits as nat == parse_count(data["bits"@]).unwrap()
}

/// The two opcodes hold the same texts and numbers in every field.
#[verifier::opaque]
pub open spec fn same_opcode(o1: Opcode, o2: Opcode) -> bool {
    &&& o1.code@ == o2.code@
    &&& o1.mnemonic@ == o2.mnemonic@
    &&& o1.operator@ == o2.operator@
    &&& o1.operands.deep_view() == o2.operands.deep_view()
    &&& o1.cycles == o2.cycles
    &&& o1.size == o2.size
    &&& o1.z@ == o2.z@
    &&& o1.n@ == o2.n@
    &&& o1.h@ == o2.h@
    &&& o1.c@ == o2.c@
    &&& o1.bits == o2.bits
}

/// Two opcodes built from the same code and fields are the same opcode.
pub proof fn lemma_built_from_same(o1: Opcode, o2: Opcode, code: Seq<char>, data: Map<Seq<char>, Seq<char>>, is_cb: bool)
    requires
        built_from(o1, code, data, is_cb),
        built_from(o2, code, data, is_cb),
    ensures
        same_opcode(o1, o2),
{
    reveal(same_opcode);
}

/// An opcode keeps each flag under the field of the same name: the zero flag
/// under `Z` (or `K` where there is no `Z`), `N`, `H`, and the carry flag under
/// `C`, which only the text `C` itself can turn into `CF`, and never in the
/// CB-prefixed table.
pub proof fn law_opcode_keeps_flags(o: Opcode, code: Seq<char>, data: Map<Seq<char>, Seq<char>>, is_cb: bool)
    requires
        built_from(o, code, data, is_cb),
    ensures
        data.contains_key("Z"@) ==> o.z@ == data["Z"@],
        !data.contains_key("Z"@) ==> o.z@ == data["K"@],
        o.n@ == data["N"@],
        o.h@ == data["H"@],
        data["C"@] != "C"@ ==> o.c@ == data["C"@],
        o.c@ == data["C"@] || o.c@ == "CF"@,
        is_cb ==> o.c@ == data["C"@],
{
    reveal_strlit("CB");
    reveal_strlit("0038");
    reveal_strlit("00D8");
    reveal_strlit("00DA");
    reveal_strlit("00DC");
    if is_cb {
        let f = full_code(code, is_cb);
        assert(f[1] == 'B');
        assert(f != "0038"@ && f != "00D8"@ && f != "00DA"@ && f != "00DC"@) by {
            assert("0038"@[1] == '0' && "00D8"@[1] == '0' && "00DA"@[1] == '0' && "00DC"@[1] == '0');
        }
    }
}

/// Alike opcodes have the same code.
pub proof fn lemma_same_opcode_code(o1: Opcode, o2: Opcode)
    requires
        same_opcode(o1, o2),
    ensures
        o1.code@ == o2.code@,
{
    reveal(same_opcode);
}

impl Opcode {
    /// The opcode with code `code` (in the CB-prefixed table if `is_cb`) and the
    /// fields `data`. The zero flag is read under `Z`, or, where there is none,
    /// under `K`, the name that the instruction parser gives it.
    pub fn new(code: String, data: TextMap, is_cb: bool) -> (r: Self)
        requires
            accepts_fields(data@),
        ensures
            built_from(r, code@, data@, is_cb),
            r.z@ == (if data@.contains_key("Z"@) { data@["Z"@] } else { data@["K"@] }),
            r.n@ == data@["N"@],
            r.h@ == data@["H"@],
            data@["C"@] != "C"@ ==> r.c@ == data@["C"@],
    {
        let mut full = String::new();
        if is_cb {
            full.append("CB");
        } else {
            full.append("00");
        }
        full.append(code.as_str());
        let operands_text = chars_of(data.get("operands").unwrap().as_str());
        let operands = split_chars(&operands_text, '|');
        let cycles_text = chars_of(data.get("cycles").unwrap().as_str());
        let pieces = split_chars(&cycles_text, '-');
        proof {
            lemma_split_on_nonempty(cycles_text@, '-');
            assert(pieces.deep_view() == cycle_pieces(data@));
            assert(pieces.deep_view()[0] == pieces@[0]@);
            assert(parse_count(cycle_pieces(data@)[0]) is Some);
            if pieces.len() > 1 {
                assert(parse_count(cycle_pieces(data@)[1]) is Some);
            }
        }
        let first = parse_unsigned_chars(&chars_of(pieces[0].as_str()), 10, usize::MAX).unwrap();
        let cycles = if pieces.len() == 1 {
            Cycles::One(first)
        } else {
            assert(pieces.deep_view()[1] == pieces@[1]@);
            let second = parse_unsigned_chars(&chars_of(pieces[1].as_str()), 10, usize::MAX).unwrap();
            Cycles::Two(first, second)
        };
        let c_flag = Self::fix_c_flag(full.as_str(), data.get("C").unwrap().as_str());
        let z = match data.get("Z") {
            Some(z) => z.clone(),
            None => data.get("K").unwrap().clone(),
        };
        let size = Self::get_number(&data, "size");
        let bits = Self::get_number(&data, "bits");
        Opcode {
            code: full,
            mnemonic: data.get("mnemonic").unwrap().clone(),
            operator: data.get("operator").unwrap().clone(),
            operands,
            cycles,
            size,
            z,
            n: data.get("N").unwrap().clone(),
            h: data.get("H").unwrap().clone(),
            c: c_flag,
            bits,
        }
    }

    /// Whether `data` holds the fields an opcode can be built from.
    pub fn accepts(data: &TextMap) -> (r: bool)
        ensures
            r == accepts_fields(data@),
    {
        if !(data.contains_key("operands") && data.contains_key("cycles") && data.contains_key("C")
            && data.contains_key("mnemonic") && data.contains_key("operator")
            && data.contains_key("size") && data.contains_key("N") && data.contains_key("H")
            && data.contains_key("bits") && (data.contains_key("Z") || data.contains_key("K"))) {
            return false;
        }
        let size = chars_of(data.get("size").unwrap().as_str());
        let bits = chars_of(data.get("bits").unwrap().as_str());
        if parse_unsigned_chars(&size, 10, usize::MAX).is_none() || parse_unsigned_chars(
            &bits,
            10,
            usize::MAX,
        ).is_none() {
            return false;
        }
        let cycles_text = chars_of(data.get("cycles").unwrap().as_str());
        let pieces = split_chars(&cycles_text, '-');
        let mut i: usize = 0;
        while i < pieces.len()
            invariant
                i <= pieces.len(),
                pieces.deep_view() == cycle_pieces(data@),
                forall|j: int| 0 <= j < i ==> (#[trigger] parse_count(cycle_pieces(data@)[j])) is Some,
            decreases pieces.len() - i,
        {
            assert(pieces.deep_view()[i as int] == pieces@[i as int]@);
            if parse_unsigned_chars(&chars_of(pieces[i].as_str()), 10, usize::MAX).is_none() {
                assert(parse_count(cycle_pieces(data@)[i as int]) is None);
                return false;
            }
            i = i + 1;
        }
        true
    }

    /// The count under `field`.
    pub fn get_number(data: &TextMap, field: &str) -> (r: usize)
        requires
            data@.contains_key(field@),
            parse_count(data@[field@]) is Some,
        ensures
            r as nat == parse_count(data@[field@]).unwrap(),
    {
        let text = chars_of(data.get(field).unwrap().as_str());
        parse_unsigned_chars(&text, 10, usize::MAX).unwrap()
    }

    /// The carry flag text for the opcode `code`: `CF` in place of `C` where
    /// `C` would be taken for register C.
    pub fn fix_c_flag(code: &str, current_cf: &str) -> (r: String)
        ensures
            r@ == carry_flag(code@, current_cf@),
    {
        if str_eq(current_cf, "C") && (str_eq(code, "0038") || str_eq(code, "00D8") || str_eq(
            code,
            "00DA",
        ) || str_eq(code, "00DC")) {
            String::from_str("CF")
        } else {
            String::from_str(current_cf)
        }
    }
}

} // verus!
