//! Character-sequence utilities with their specifications: decimal and
//! hexadecimal numbers, splitting, joining, replacing and trimming.
use vstd::prelude::*;

verus! {

/// Appends one character to a string.
#[verifier::external_body]
pub(crate) fn push_char(s: &mut String, c: char)
    ensures
        final(s)@ == old(s)@.push(c),
{
    s.push(c);
}

/// The characters of a string slice, in order.
pub fn chars_of(s: &str) -> (v: Vec<char>)
    ensures
        v@ == s@,
{
    let mut v: Vec<char> = Vec::new();
    for c in it: s.chars()
        invariant
            v@ == it.seq().take(it.index() as int),
            it.seq() == s@,
    {
        v.push(c);
    }
    v
}

/// A string holding exactly the given characters.
pub fn string_of(v: &Vec<char>) -> (s: String)
    ensures
        s@ == v@,
{
    let mut s = String::new();
    let mut i: usize = 0;
    while i < v.len()
        invariant
            i <= v.len(),
            s@ == v@.take(i as int),
        decreases v.len() - i,
    {
        push_char(&mut s, v[i]);
        assert(v@.take(i as int).push(v@[i as int]) =~= v@.take(i + 1));
        i = i + 1;
    }
    assert(v@.take(v.len() as int) =~= v@);
    s
}


/// The value of `c` as a digit in base `radix` (letters of either case
/// stand for the digits from ten up), if it is one.
pub open spec fn digit_of(c: char, radix: nat) -> Option<nat> {
    let d: int = if '0' <= c && c <= '9' {
        c as int - '0' as int
    } else if 'a' <= c && c <= 'z' {
        c as int - 'a' as int + 10
    } else if 'A' <= c && c <= 'Z' {
        c as int - 'A' as int + 10
    } else {
        radix as int
    };
    if 0 <= d < radix {
        Some(d as nat)
    } else {
        None
    }
}

/// Every character of `s` is a digit in base `radix`.
pub open spec fn all_digits(s: Seq<char>, radix: nat) -> bool {
    forall|i: int| 0 <= i < s.len() ==> (#[trigger] digit_of(s[i], radix)) is Some
}

/// The number that the digits `s` write in base `radix`, most significant first.
pub open spec fn digits_value(s: Seq<char>, radix: nat) -> nat
    decreases s.len(),
{
    if s.len() == 0 {
        0
    } else {
        digits_value(s.drop_last(), radix) * radix + match digit_of(s.last(), radix) {
            Some(d) => d,
            None => 0,
        }
    }
}

/// The digits of `s` after an optional leading `+`.
pub open spec fn unsigned_body(s: Seq<char>) -> Seq<char> {
    if s.len() > 0 && s[0] == '+' {
        s.drop_first()
    } else {
        s
    }
}

/// The unsigned number that `s` writes in base `radix`, as the standard
/// library reads one: an optional `+`, then at least one digit, with a value
/// of at most `max`; `None` for anything else.
pub open spec fn parse_unsigned(s: Seq<char>, radix: nat, max: nat) -> Option<nat> {
    let t = unsigned_body(s);
    if t.len() > 0 && all_digits(t, radix) && digits_value(t, radix) <= max {
        Some(digits_value(t, radix))
    } else {
        None
    }
}

/// A prefix of a run of digits never writes a larger number than the whole run.
proof fn lemma_digits_value_prefix(s: Seq<char>, radix: nat, k: int)
    requires
        0 <= k <= s.len(),
        radix >= 1,
    ensures
        digits_value(s.take(k), radix) <= digits_value(s, radix),
    decreases s.len(),
{
    if k < s.len() {
        assert(s.drop_last().take(k) =~= s.take(k));
        lemma_digits_value_prefix(s.drop_last(), radix, k);
        let v = digits_value(s.drop_last(), radix);
        assert(v <= v * radix) by (nonlinear_arith)
            requires
                radix >= 1,
        ;
    } else {
        assert(s.take(k) =~= s);
    }
}

/// The digit that `c` stands for, computed.
fn digit_exec(c: char, radix: u32) -> (r: Option<u32>)
    requires
        2 <= radix <= 36,
    ensures
        match r {
            Some(d) => digit_of(c, radix as nat) == Some(d as nat),
            None => digit_of(c, radix as nat) is None,
        },
{
    let code = c as u32;
    let d: u32 = if '0' <= c && c <= '9' {
        code - ('0' as u32)
    } else if 'a' <= c && c <= 'z' {
        code - ('a' as u32) + 10
    } else if 'A' <= c && c <= 'Z' {
        code - ('A' as u32) + 10
    } else {
        radix
    };
    if d < radix {
        Some(d)
    } else {
        None
    }
}

/// Reads an unsigned number in base `radix` that is at most `max`, as
/// `usize::from_str` (base ten) and `u16::from_str_radix` do.
pub fn parse_unsigned_chars(s: &Vec<char>, radix: u32, max: usize) -> (r: Option<usize>)
    requires
        2 <= radix <= 36,
    ensures
        match r {
            Some(v) => parse_unsigned(s@, radix as nat, max as nat) == Some(v as nat),
            None => parse_unsigned(s@, radix as nat, max as nat) is None,
        },
{
    let ghost t = unsigned_body(s@);
    let start: usize = if s.len() > 0 && s[0] == '+' { 1 } else { 0 };
    assert(t =~= s@.skip(start as int));
    if start == s.len() {
        return None;
    }
    let ghost rad = radix as nat;
    let r: usize = radix as usize;
    let mut v: usize = 0;
    let mut i: usize = start;
    while i < s.len()
        invariant
            start <= i <= s.len(),
            t =~= s@.skip(start as int),
            t == unsigned_body(s@),
            rad == radix as nat,
            r == radix,
            2 <= radix <= 36,
            all_digits(s@.subrange(start as int, i as int), rad),
            v as nat == digits_value(s@.subrange(start as int, i as int), rad),
            v <= max,
        decreases s.len() - i,
    {
        let ghost pre = s@.subrange(start as int, i as int);
        let ghost next = s@.subrange(start as int, i + 1);
        assert(next.drop_last() =~= pre);
        assert(next.last() == s@[i as int]);
        assert(t.take(i + 1 - start) =~= next);
        match digit_exec(s[i], radix) {
            None => {
                assert(t[i - start] == s@[i as int]);
                assert(!all_digits(t, rad));
                return None;
            },
            Some(d) => {
                let d: usize = d as usize;
                if d > max {
                    proof {
                        assert(v * r + d > max) by (nonlinear_arith)
                            requires
                                d > max,
                                r >= 2,
                        ;
                        if all_digits(t, rad) {
                            lemma_digits_value_prefix(t, rad, i + 1 - start);
                        }
                    }
                    return None;
                }
                if v > (max - d) / r {
                    proof {
                        let q = (max - d) / (r as int);
                        assert(v * r > max - d) by (nonlinear_arith)
                            requires
                                v > q,
                                q == (max - d) / (r as int),
                                r >= 2,
                                max >= d,
                        ;
                        if all_digits(t, rad) {
                            lemma_digits_value_prefix(t, rad, i + 1 - start);
                        }
                    }
                    return None;
                }
                proof {
                    let q = (max - d) / (r as int);
                    assert(v * r + d <= max) by (nonlinear_arith)
                        requires
                            v <= q,
                            q == (max - d) / (r as int),
                            r >= 2,
                            max >= d,
                    ;
                }
                v = v * r + d;
                assert forall|k: int| 0 <= k < next.len() implies (#[trigger] digit_of(
                    next[k],
                    rad,
                )) is Some by {
                    if k < pre.len() {
                        assert(next[k] == pre[k]);
                    }
                }
            },
        }
        i = i + 1;
    }
    assert(s@.subrange(start as int, s.len() as int) =~= t);
    Some(v)
}


/// The character that writes the digit `d` (lower-case letters from ten up).
pub open spec fn digit_char(d: nat) -> char {
    if d < 10 {
        ('0' as nat + d) as char
    } else {
        ('a' as nat + d - 10) as char
    }
}

/// `n` written in base `radix` without leading zeros, most significant digit
/// first, as `format!("{}")` (base ten) and `format!("{:x}")` (base sixteen) write it.
pub open spec fn format_digits(n: nat, radix: nat) -> Seq<char>
    decreases n,
{
    if radix < 2 || n < radix {
        seq![digit_char(n)]
    } else {
        proof {
            vstd::arithmetic::div_mod::lemma_div_decreases(n as int, radix as int);
        }
        format_digits(n / radix, radix).push(digit_char(n % radix))
    }
}

fn digit_char_exec(d: usize) -> (c: char)
    requires
        d < 16,
    ensures
        c == digit_char(d as nat),
{
    if d < 10 {
        ((48 + d) as u8) as char
    } else {
        ((97 + d - 10) as u8) as char
    }
}

/// Writes `n` in base `radix` (ten or sixteen) without leading zeros.
pub fn format_unsigned(n: usize, radix: usize) -> (v: Vec<char>)
    requires
        2 <= radix <= 16,
    ensures
        v@ == format_digits(n as nat, radix as nat),
    decreases n,
{
    if n < radix {
        let mut v: Vec<char> = Vec::new();
        v.push(digit_char_exec(n));
        v
    } else {
        proof {
            vstd::arithmetic::div_mod::lemma_div_decreases(n as int, radix as int);
        }
        let mut v = format_unsigned(n / radix, radix);
        v.push(digit_char_exec(n % radix));
        v
    }
}

/// Reading back what `format_digits` writes gives the number again.
pub proof fn lemma_format_digits_parse(n: nat, radix: nat)
    requires
        2 <= radix <= 16,
    ensures
        all_digits(format_digits(n, radix), radix),
        digits_value(format_digits(n, radix), radix) == n,
        format_digits(n, radix).len() > 0,
        format_digits(n, radix)[0] != '+',
    decreases n,
{
    let s = format_digits(n, radix);
    if n < radix {
        assert(s.drop_last() =~= Seq::<char>::empty());
        assert(digit_of(s[0], radix) == Some(n));
        assert(digits_value(s.drop_last(), radix) == 0);
        assert(0 * radix == 0);
    } else {
        vstd::arithmetic::div_mod::lemma_div_decreases(n as int, radix as int);
        lemma_format_digits_parse(n / radix, radix);
        let p = format_digits(n / radix, radix);
        assert(s.drop_last() =~= p);
        let d = n % radix;
        assert(digit_of(s.last(), radix) == Some(d));
        vstd::arithmetic::div_mod::lemma_fundamental_div_mod(n as int, radix as int);
        assert((n / radix) * radix == radix * (n / radix)) by (nonlinear_arith);
        assert forall|i: int| 0 <= i < s.len() implies (#[trigger] digit_of(s[i], radix)) is Some by {
            if i < p.len() {
                assert(s[i] == p[i]);
            }
        }
        assert(s[0] == p[0]);
    }
}

/// Numbers survive being written out and read back: reading the base-`radix`
/// digits of `n` gives `n`, whenever `n` is within the bound read against.
pub proof fn law_format_then_parse(n: nat, radix: nat, max: nat)
    requires
        2 <= radix <= 16,
        n <= max,
    ensures
        parse_unsigned(format_digits(n, radix), radix, max) == Some(n),
{
    lemma_format_digits_parse(n, radix);
}


/// The pieces of `s` between occurrences of `c`, as `str::split` with a
/// character pattern yields them (an empty `s` gives one empty piece).
pub open spec fn split_on(s: Seq<char>, c: char) -> Seq<Seq<char>>
    decreases s.len(),
{
    if s.len() == 0 {
        seq![Seq::<char>::empty()]
    } else {
        let prev = split_on(s.drop_last(), c);
        if s.last() == c {
            prev.push(Seq::<char>::empty())
        } else {
            prev.update(prev.len() - 1, prev.last().push(s.last()))
        }
    }
}

/// The pieces `xs` with `sep` between each two, as `[String]::join` gives them.
pub open spec fn join(xs: Seq<Seq<char>>, sep: Seq<char>) -> Seq<char>
    decreases xs.len(),
{
    if xs.len() == 0 {
        Seq::<char>::empty()
    } else if xs.len() == 1 {
        xs[0]
    } else {
        join(xs.drop_last(), sep) + sep + xs.last()
    }
}

/// `s` with every occurrence of `from`, taken left to right without overlap,
/// replaced by `to`, as `str::replace` gives it for a non-empty `from`.
pub open spec fn replace_all(s: Seq<char>, from: Seq<char>, to: Seq<char>) -> Seq<char>
    decreases s.len(),
{
    if s.len() == 0 {
        Seq::<char>::empty()
    } else if from.len() > 0 && from.len() <= s.len() && s.take(from.len() as int) == from {
        to + replace_all(s.skip(from.len() as int), from, to)
    } else {
        seq![s[0]] + replace_all(s.drop_first(), from, to)
    }
}

/// `s` begins with `p`.
pub open spec fn has_prefix(s: Seq<char>, p: Seq<char>) -> bool {
    p.len() <= s.len() && s.take(p.len() as int) == p
}

/// `s` ends with `p`.
pub open spec fn has_suffix(s: Seq<char>, p: Seq<char>) -> bool {
    p.len() <= s.len() && s.skip(s.len() - p.len()) == p
}

/// The characters that Unicode gives the `White_Space` property, which is
/// what `char::is_whitespace` tests.
pub open spec fn is_white_space(c: char) -> bool {
    ||| '\u{9}' <= c && c <= '\u{D}'
    ||| c == ' '
    ||| c == '\u{85}'
    ||| c == '\u{A0}'
    ||| c == '\u{1680}'
    ||| '\u{2000}' <= c && c <= '\u{200A}'
    ||| c == '\u{2028}'
    ||| c == '\u{2029}'
    ||| c == '\u{202F}'
    ||| c == '\u{205F}'
    ||| c == '\u{3000}'
}

/// `s` without its leading white space.
pub open spec fn trim_start(s: Seq<char>) -> Seq<char>
    decreases s.len(),
{
    if s.len() > 0 && is_white_space(s[0]) {
        trim_start(s.drop_first())
    } else {
        s
    }
}

/// `s` without its trailing white space.
pub open spec fn trim_end(s: Seq<char>) -> Seq<char>
    decreases s.len(),
{
    if s.len() > 0 && is_white_space(s.last()) {
        trim_end(s.drop_last())
    } else {
        s
    }
}

/// `s` without leading and trailing white space, as `str::trim` gives it.
pub open spec fn trim(s: Seq<char>) -> Seq<char> {
    trim_end(trim_start(s))
}

/// What `str::to_lowercase` gives for the characters `s` (Unicode case mapping).
pub uninterp spec fn lowercase(s: Seq<char>) -> Seq<char>;

/// What `str::to_uppercase` gives for the characters `s` (Unicode case mapping).
pub uninterp spec fn uppercase(s: Seq<char>) -> Seq<char>;

/// The character in lower case where it is an ASCII capital letter, else itself.
pub open spec fn ascii_lower(c: char) -> char {
    if 'A' <= c && c <= 'Z' {
        ((c as int) + 32) as char
    } else {
        c
    }
}

/// The character in upper case where it is an ASCII small letter, else itself.
pub open spec fn ascii_upper(c: char) -> char {
    if 'a' <= c && c <= 'z' {
        ((c as int) - 32) as char
    } else {
        c
    }
}

/// `s` in lower case, as `str::to_lowercase` gives it: the ASCII mapping for
/// ASCII text, the Unicode one (only named) otherwise.
pub open spec fn lower_text(s: Seq<char>) -> Seq<char> {
    if is_ascii_text(s) {
        s.map_values(|c: char| ascii_lower(c))
    } else {
        lowercase(s)
    }
}

/// `s` in upper case, as `str::to_uppercase` gives it: the ASCII mapping for
/// ASCII text, the Unicode one (only named) otherwise.
pub open spec fn upper_text(s: Seq<char>) -> Seq<char> {
    if is_ascii_text(s) {
        s.map_values(|c: char| ascii_upper(c))
    } else {
        uppercase(s)
    }
}

/// Every character of `s` is ASCII.
pub open spec fn is_ascii_text(s: Seq<char>) -> bool {
    forall|i: int| 0 <= i < s.len() ==> is_ascii_char(#[trigger] s[i])
}

/// `str::to_lowercase`: the string mapped to lower case by the Unicode case
/// tables, a function of the characters alone (named `lowercase`). For ASCII
/// text that mapping is the ASCII one: `A` to `Z` become `a` to `z`, every
/// other character stays. Nothing is claimed of other text beyond the name.
#[verifier::external_body]
pub(crate) fn to_lowercase(s: &str) -> (r: String)
    ensures
        r@ == lowercase(s@),
        is_ascii_text(s@) ==> r@ == s@.map_values(|c: char| ascii_lower(c)),
{
    s.to_lowercase()
}

/// `str::to_uppercase`: the string mapped to upper case by the Unicode case
/// tables, a function of the characters alone (named `uppercase`). For ASCII
/// text that mapping is the ASCII one: `a` to `z` become `A` to `Z`, every
/// other character stays. Nothing is claimed of other text beyond the name.
#[verifier::external_body]
pub(crate) fn to_uppercase(s: &str) -> (r: String)
    ensures
        r@ == uppercase(s@),
        is_ascii_text(s@) ==> r@ == s@.map_values(|c: char| ascii_upper(c)),
{
    s.to_uppercase()
}

fn is_white_space_exec(c: char) -> (b: bool)
    ensures
        b == is_white_space(c),
{
    ('\u{9}' <= c && c <= '\u{D}') || c == ' ' || c == '\u{85}' || c == '\u{A0}' || c == '\u{1680}'
        || ('\u{2000}' <= c && c <= '\u{200A}') || c == '\u{2028}' || c == '\u{2029}' || c
        == '\u{202F}' || c == '\u{205F}' || c == '\u{3000}'
}

/// `s` without leading and trailing white space.
pub fn trim_chars(s: &Vec<char>) -> (r: Vec<char>)
    ensures
        r@ == trim(s@),
{
    let mut i: usize = 0;
    assert(s@.skip(0) =~= s@);
    while i < s.len() && is_white_space_exec(s[i])
        invariant
            i <= s.len(),
            trim_start(s@) == trim_start(s@.skip(i as int)),
        decreases s.len() - i,
    {
        assert(s@.skip(i as int).drop_first() =~= s@.skip(i + 1));
        i = i + 1;
    }
    let ghost t = s@.skip(i as int);
    assert(trim_start(t) == t);
    let mut j: usize = s.len();
    while j > i && is_white_space_exec(s[j - 1])
        invariant
            i <= j <= s.len(),
            t == s@.skip(i as int),
            trim_end(t) == trim_end(s@.subrange(i as int, j as int)),
        decreases j,
    {
        assert(s@.subrange(i as int, j as int).drop_last() =~= s@.subrange(i as int, j - 1));
        j = j - 1;
    }
    let mut r: Vec<char> = Vec::new();
    let mut k: usize = i;
    while k < j
        invariant
            i <= k <= j <= s.len(),
            r@ == s@.subrange(i as int, k as int),
        decreases j - k,
    {
        r.push(s[k]);
        assert(s@.subrange(i as int, k + 1) =~= s@.subrange(i as int, k as int).push(s@[k as int]));
        k = k + 1;
    }
    r
}

/// Whether the characters `a` and `b` are the same.
pub fn same_chars(a: &Vec<char>, b: &Vec<char>) -> (r: bool)
    ensures
        r == (a@ == b@),
{
    if a.len() != b.len() {
        return false;
    }
    let mut i: usize = 0;
    while i < a.len()
        invariant
            i <= a.len() == b.len(),
            a@.take(i as int) == b@.take(i as int),
        decreases a.len() - i,
    {
        if a[i] != b[i] {
            return false;
        }
        assert(a@.take(i + 1) =~= a@.take(i as int).push(a@[i as int]));
        assert(b@.take(i + 1) =~= b@.take(i as int).push(b@[i as int]));
        i = i + 1;
    }
    assert(a@.take(a.len() as int) =~= a@);
    assert(b@.take(b.len() as int) =~= b@);
    true
}

/// Whether `s` equals the literal `lit`.
pub fn is_text(s: &Vec<char>, lit: &str) -> (r: bool)
    ensures
        r == (s@ == lit@),
{
    let l = chars_of(lit);
    same_chars(s, &l)
}

/// Whether `p` occurs in `s` at position `at`.
fn occurs_at(s: &Vec<char>, p: &Vec<char>, at: usize) -> (r: bool)
    requires
        at <= s.len(),
    ensures
        r == (p.len() <= s.len() - at && s@.subrange(at as int, at + p.len()) == p@),
{
    if p.len() > s.len() - at {
        return false;
    }
    let mut i: usize = 0;
    while i < p.len()
        invariant
            p.len() <= s.len() - at,
            i <= p.len(),
            s@.subrange(at as int, at + i) == p@.take(i as int),
        decreases p.len() - i,
    {
        if s[at + i] != p[i] {
            assert(s@.subrange(at as int, at + p.len())[i as int] == s@[at + i]);
            return false;
        }
        assert(s@.subrange(at as int, at + i + 1) =~= s@.subrange(at as int, at + i).push(
            s@[at + i],
        ));
        assert(p@.take(i + 1) =~= p@.take(i as int).push(p@[i as int]));
        i = i + 1;
    }
    assert(p@.take(p.len() as int) =~= p@);
    true
}

/// Whether `s` begins with `p`.
pub fn starts_with_chars(s: &Vec<char>, p: &Vec<char>) -> (r: bool)
    ensures
        r == has_prefix(s@, p@),
{
    let r = occurs_at(s, p, 0);
    assert(s@.subrange(0, p.len() as int) =~= s@.take(p.len() as int));
    r
}

/// Whether `s` ends with `p`.
pub fn ends_with_chars(s: &Vec<char>, p: &Vec<char>) -> (r: bool)
    ensures
        r == has_suffix(s@, p@),
{
    if p.len() > s.len() {
        return false;
    }
    let r = occurs_at(s, p, s.len() - p.len());
    assert(s@.subrange(s.len() - p.len(), s.len() as int) =~= s@.skip(s.len() - p.len()));
    r
}

/// `s` with every occurrence of the non-empty `from` replaced by `to`.
pub fn replace_chars(s: &Vec<char>, from: &Vec<char>, to: &Vec<char>) -> (r: Vec<char>)
    requires
        from.len() > 0,
    ensures
        r@ == replace_all(s@, from@, to@),
{
    let mut out: Vec<char> = Vec::new();
    let mut i: usize = 0;
    assert(s@.skip(0) =~= s@);
    while i < s.len()
        invariant
            i <= s.len(),
            from.len() > 0,
            out@ + replace_all(s@.skip(i as int), from@, to@) == replace_all(s@, from@, to@),
        decreases s.len() - i,
    {
        let ghost rest = s@.skip(i as int);
        if occurs_at(s, from, i) {
            assert(rest.take(from.len() as int) =~= s@.subrange(i as int, i + from.len()));
            assert(rest.skip(from.len() as int) =~= s@.skip(i + from.len()));
            let mut k: usize = 0;
            let ghost before = out@;
            while k < to.len()
                invariant
                    k <= to.len(),
                    out@ == before + to@.take(k as int),
                decreases to.len() - k,
            {
                out.push(to[k]);
                assert(to@.take(k + 1) =~= to@.take(k as int).push(to@[k as int]));
                k = k + 1;
            }
            assert(to@.take(to.len() as int) =~= to@);
            assert(before + (to@ + replace_all(rest.skip(from.len() as int), from@, to@)) =~= (
            before + to@) + replace_all(rest.skip(from.len() as int), from@, to@));
            i = i + from.len();
        } else {
            proof {
                if from.len() <= rest.len() {
                    assert(rest.take(from.len() as int) =~= s@.subrange(i as int, i + from.len()));
                }
            }
            assert(rest.drop_first() =~= s@.skip(i + 1));
            let ghost before = out@;
            out.push(s[i]);
            assert(before + (seq![s@[i as int]] + replace_all(rest.drop_first(), from@, to@))
                =~= before.push(s@[i as int]) + replace_all(rest.drop_first(), from@, to@));
            i = i + 1;
        }
    }
    assert(s@.skip(i as int) =~= Seq::<char>::empty());
    assert(out@ + Seq::<char>::empty() =~= out@);
    out
}

/// The pieces of `s` between occurrences of `c`.
pub fn split_chars(s: &Vec<char>, c: char) -> (r: Vec<String>)
    ensures
        r.deep_view() == split_on(s@, c),
{
    let mut pieces: Vec<String> = Vec::new();
    let mut cur: Vec<char> = Vec::new();
    let mut i: usize = 0;
    assert(s@.take(0) =~= Seq::<char>::empty());
    assert(pieces.deep_view().push(cur@) =~= split_on(s@.take(0), c));
    while i < s.len()
        invariant
            i <= s.len(),
            pieces.deep_view().push(cur@) == split_on(s@.take(i as int), c),
        decreases s.len() - i,
    {
        let ghost prev = split_on(s@.take(i as int), c);
        assert(s@.take(i + 1).drop_last() =~= s@.take(i as int));
        if s[i] == c {
            let piece = string_of(&cur);
            pieces.push(piece);
            cur = Vec::new();
            assert(pieces.deep_view().push(cur@) =~= prev.push(Seq::<char>::empty()));
        } else {
            cur.push(s[i]);
            assert(pieces.deep_view().push(cur@) =~= prev.update(
                prev.len() - 1,
                prev.last().push(s@[i as int]),
            ));
        }
        i = i + 1;
    }
    assert(s@.take(s.len() as int) =~= s@);
    let last = string_of(&cur);
    pieces.push(last);
    assert(pieces.deep_view() =~= split_on(s@, c));
    pieces
}

/// The strings `xs` with `sep` between each two.
pub fn join_strings(xs: &Vec<String>, sep: &str) -> (r: String)
    ensures
        r@ == join(xs.deep_view(), sep@),
{
    let mut r = String::new();
    let mut i: usize = 0;
    while i < xs.len()
        invariant
            i <= xs.len(),
            r@ == join(xs.deep_view().take(i as int), sep@),
        decreases xs.len() - i,
    {
        let ghost pre = xs.deep_view().take(i as int);
        let ghost next = xs.deep_view().take(i + 1);
        assert(next.drop_last() =~= pre);
        if i > 0 {
            r.append(sep);
        }
        r.append(xs[i].as_str());
        if i == 0 {
            assert(r@ =~= next[0]);
        }
        i = i + 1;
    }
    assert(xs.deep_view().take(xs.len() as int) =~= xs.deep_view());
    r
}


/// Splitting always yields at least one piece.
pub proof fn lemma_split_on_nonempty(s: Seq<char>, c: char)
    ensures
        split_on(s, c).len() >= 1,
    decreases s.len(),
{
    if s.len() > 0 {
        lemma_split_on_nonempty(s.drop_last(), c);
    }
}

/// `c` does not occur in `t`.
pub open spec fn free_of(t: Seq<char>, c: char) -> bool {
    forall|k: int| 0 <= k < t.len() ==> t[k] != c
}

/// Appending characters other than the separator only lengthens the last piece.
proof fn lemma_split_on_append_free(s: Seq<char>, t: Seq<char>, c: char)
    requires
        free_of(t, c),
    ensures
        split_on(s + t, c) == split_on(s, c).update(
            split_on(s, c).len() - 1,
            split_on(s, c).last() + t,
        ),
    decreases t.len(),
{
    lemma_split_on_nonempty(s, c);
    let ps = split_on(s, c);
    if t.len() == 0 {
        assert(s + t =~= s);
        assert(ps.last() + t =~= ps.last());
        assert(ps.update(ps.len() - 1, ps.last() + t) =~= ps);
    } else {
        lemma_split_on_append_free(s, t.drop_last(), c);
        assert((s + t).drop_last() =~= s + t.drop_last());
        assert((s + t).last() == t.last());
        let prev = split_on(s + t.drop_last(), c);
        assert(t.last() != c);
        assert(prev.len() == ps.len());
        assert(prev.last() == ps.last() + t.drop_last());
        assert(prev.last().push(t.last()) =~= ps.last() + t);
        assert(split_on(s + t, c) == prev.update(prev.len() - 1, prev.last().push(t.last())));
        assert(split_on(s + t, c) =~= ps.update(ps.len() - 1, ps.last() + t));
    }
}

/// Splitting on `c` undoes joining with `c`: the pieces come back unchanged,
/// as long as there is at least one piece and no piece holds `c` itself.
pub proof fn law_split_undoes_join(xs: Seq<Seq<char>>, c: char)
    requires
        xs.len() > 0,
        forall|i: int| 0 <= i < xs.len() ==> free_of(#[trigger] xs[i], c),
    ensures
        split_on(join(xs, seq![c]), c) == xs,
    decreases xs.len(),
{
    if xs.len() == 1 {
        lemma_split_on_append_free(Seq::<char>::empty(), xs[0], c);
        assert(Seq::<char>::empty() + xs[0] =~= xs[0]);
        assert(split_on(Seq::<char>::empty(), c).last() + xs[0] =~= xs[0]);
        assert(split_on(join(xs, seq![c]), c) =~= xs);
    } else {
        let front = xs.drop_last();
        assert forall|i: int| 0 <= i < front.len() implies free_of(#[trigger] front[i], c) by {
            assert(front[i] == xs[i]);
        }
        law_split_undoes_join(front, c);
        let a = join(front, seq![c]) + seq![c];
        assert(a.drop_last() =~= join(front, seq![c]));
        assert(split_on(a, c) == front.push(Seq::<char>::empty()));
        assert(free_of(xs.last(), c));
        lemma_split_on_append_free(a, xs.last(), c);
        assert(Seq::<char>::empty() + xs.last() =~= xs.last());
        assert(split_on(a + xs.last(), c) =~= xs);
    }
}


/// The words of `s`: its maximal runs of characters that are not white space, in order.
pub open spec fn words(s: Seq<char>) -> Seq<Seq<char>>
    decreases s.len(),
{
    if s.len() == 0 {
        Seq::<Seq<char>>::empty()
    } else {
        let w = words(s.drop_last());
        if is_white_space(s.last()) {
            w
        } else if s.len() >= 2 && !is_white_space(s[s.len() - 2]) {
            w.update(w.len() - 1, w.last().push(s.last()))
        } else {
            w.push(seq![s.last()])
        }
    }
}

/// The words of `s`.
pub fn words_of(s: &Vec<char>) -> (r: Vec<String>)
    ensures
        r.deep_view() == words(s@),
{
    let mut done: Vec<String> = Vec::new();
    let mut cur = String::new();
    let mut in_word = false;
    let mut i: usize = 0;
    assert(s@.take(0) =~= Seq::<char>::empty());
    while i < s.len()
        invariant
            i <= s.len(),
            in_word == (cur@.len() > 0),
            cur@.len() > 0 <==> (i > 0 && !is_white_space(s@[i - 1])),
            cur@.len() > 0 ==> done.deep_view().push(cur@) == words(s@.take(i as int)),
            cur@.len() == 0 ==> done.deep_view() == words(s@.take(i as int)),
        decreases s.len() - i,
    {
        let ghost t = s@.take(i + 1);
        assert(t.drop_last() =~= s@.take(i as int));
        assert(t.last() == s@[i as int]);
        if is_white_space_exec(s[i]) {
            if in_word {
                let ghost before = done.deep_view();
                let ghost wv = cur@;
                let w = cur;
                done.push(w);
                cur = String::new();
                in_word = false;
                assert(done.deep_view() =~= before.push(wv));
            }
        } else {
            proof {
                if i > 0 {
                    assert(t[t.len() - 2] == s@[i - 1]);
                }
            }
            let ghost before = done.deep_view();
            push_char(&mut cur, s[i]);
            in_word = true;
            proof {
                if cur@.len() == 1 {
                    assert(cur@ =~= seq![s@[i as int]]);
                }
                assert(done.deep_view() == before);
            }
        }
        i = i + 1;
    }
    assert(s@.take(s.len() as int) =~= s@);
    if in_word {
        let ghost before = done.deep_view();
        let ghost wv = cur@;
        done.push(cur);
        assert(done.deep_view() =~= before.push(wv));
    }
    done
}


/// Each piece of a split is shorter than the whole by at least the number of
/// separators that were taken out.
pub proof fn lemma_split_on_piece_len(s: Seq<char>, c: char)
    ensures
        split_on(s, c).len() >= 1,
        forall|i: int|
            0 <= i < split_on(s, c).len() ==> #[trigger] split_on(s, c)[i].len() + split_on(s, c).len()
                - 1 <= s.len(),
    decreases s.len(),
{
    if s.len() > 0 {
        lemma_split_on_piece_len(s.drop_last(), c);
        let prev = split_on(s.drop_last(), c);
        assert(prev[0].len() + prev.len() - 1 <= s.drop_last().len());
        let p = split_on(s, c);
        assert forall|i: int| 0 <= i < p.len() implies #[trigger] p[i].len() + p.len() - 1 <= s.len() by {
            if i < prev.len() {
                assert(prev[i].len() + prev.len() - 1 <= s.drop_last().len());
            }
        }
    }
}

/// The character is ASCII (a single byte in UTF-8).
pub open spec fn is_ascii_char(c: char) -> bool {
    (c as int) < 128
}


/// `p` occurs somewhere in `s`.
pub open spec fn contains_text(s: Seq<char>, p: Seq<char>) -> bool {
    exists|i: int| 0 <= i && i + p.len() <= s.len() && #[trigger] s.subrange(i, i + p.len()) == p
}

/// Whether `p` occurs somewhere in `s`.
pub fn contains_chars(s: &Vec<char>, p: &Vec<char>) -> (r: bool)
    ensures
        r == contains_text(s@, p@),
{
    let mut i: usize = 0;
    while i < s.len()
        invariant
            i <= s.len(),
            forall|j: int| 0 <= j < i && j + p@.len() <= s@.len() ==> #[trigger] s@.subrange(j, j + p@.len()) != p@,
        decreases s.len() - i,
    {
        if occurs_at(s, p, i) {
            return true;
        }
        i = i + 1;
    }
    if occurs_at(s, p, i) {
        return true;
    }
    false
}


/// Joining the pieces of a split with the separator gives back the text.
pub proof fn law_join_undoes_split(s: Seq<char>, c: char)
    ensures
        join(split_on(s, c), seq![c]) == s,
    decreases s.len(),
{
    if s.len() > 0 {
        let prev = split_on(s.drop_last(), c);
        law_join_undoes_split(s.drop_last(), c);
        lemma_split_on_nonempty(s.drop_last(), c);
        let p = split_on(s, c);
        if s.last() == c {
            assert(p == prev.push(Seq::<char>::empty()));
            assert(p.drop_last() =~= prev);
            assert(join(p, seq![c]) =~= s);
        } else {
            let q = prev.last().push(s.last());
            assert(p == prev.update(prev.len() - 1, q));
            if prev.len() == 1 {
                assert(join(prev, seq![c]) == prev[0]);
                assert(q =~= s);
                assert(p =~= seq![q]);
                assert(p.len() == 1);
                assert(join(p, seq![c]) == p[0]);
                assert(p[0] == q);
            } else {
                assert(p.drop_last() =~= prev.drop_last());
                assert(join(prev, seq![c]) == join(prev.drop_last(), seq![c]) + seq![c] + prev.last());
                assert(join(p, seq![c]) == join(prev.drop_last(), seq![c]) + seq![c] + q);
                let jd = join(prev.drop_last(), seq![c]);
                assert((jd + seq![c] + prev.last()).push(s.last()) =~= jd + seq![c] + q);
                assert(s.drop_last().push(s.last()) =~= s);
            }
        }
    } else {
        assert(split_on(s, c) == seq![Seq::<char>::empty()]);
        assert(join(split_on(s, c), seq![c]) =~= s);
    }
}

/// Replacing one character is done character by character, so it
/// distributes over concatenation.
pub proof fn lemma_replace_char_concat(a: Seq<char>, b: Seq<char>, x: char, to: Seq<char>)
    ensures
        replace_all(a + b, seq![x], to) == replace_all(a, seq![x], to) + replace_all(b, seq![x], to),
    decreases a.len(),
{
    if a.len() == 0 {
        assert(a + b =~= b);
        assert(replace_all(a, seq![x], to) + replace_all(b, seq![x], to) =~= replace_all(b, seq![x], to));
    } else {
        lemma_replace_char_concat(a.drop_first(), b, x, to);
        assert((a + b).drop_first() =~= a.drop_first() + b);
        assert((a + b).take(1) =~= a.take(1));
        assert((a + b).skip(1) =~= a.drop_first() + b);
        assert(a.skip(1) =~= a.drop_first());
        if a[0] == x {
            assert(a.take(1) =~= seq![x]);
        } else {
            assert(a.take(1) != seq![x]) by {
                assert(a.take(1)[0] != seq![x][0]);
            }
        }
        assert(replace_all(a + b, seq![x], to) =~= replace_all(a, seq![x], to) + replace_all(b, seq![x], to));
    }
}

/// Replacing a character that does not occur changes nothing.
pub proof fn lemma_replace_char_absent(a: Seq<char>, x: char, to: Seq<char>)
    requires
        free_of(a, x),
    ensures
        replace_all(a, seq![x], to) == a,
    decreases a.len(),
{
    if a.len() > 0 {
        assert(free_of(a.drop_first(), x));
        lemma_replace_char_absent(a.drop_first(), x, to);
        assert(a.take(1) != seq![x]) by {
            assert(a.take(1)[0] != seq![x][0]);
        }
        assert(replace_all(a, seq![x], to) =~= a);
    }
}

/// Replacing a character in the text that is just that character gives the replacement.
pub proof fn lemma_replace_char_itself(x: char, to: Seq<char>)
    ensures
        replace_all(seq![x], seq![x], to) == to,
{
    assert(seq![x].take(1) =~= seq![x]);
    assert(seq![x].skip(1) =~= Seq::<char>::empty());
    assert(replace_all(Seq::<char>::empty(), seq![x], to) == Seq::<char>::empty());
    assert(replace_all(seq![x], seq![x], to) == to + replace_all(Seq::<char>::empty(), seq![x], to));
    assert(to + Seq::<char>::empty() =~= to);
}

/// The pieces of a split hold only characters of the text.
pub proof fn lemma_split_on_pieces_free(s: Seq<char>, c: char, x: char)
    requires
        free_of(s, x),
    ensures
        forall|i: int| 0 <= i < split_on(s, c).len() ==> free_of(#[trigger] split_on(s, c)[i], x),
    decreases s.len(),
{
    if s.len() > 0 {
        assert(free_of(s.drop_last(), x));
        lemma_split_on_pieces_free(s.drop_last(), c, x);
        lemma_split_on_nonempty(s.drop_last(), c);
        let prev = split_on(s.drop_last(), c);
        let p = split_on(s, c);
        assert(s.last() != x);
        assert forall|i: int| 0 <= i < p.len() implies free_of(#[trigger] p[i], x) by {
            if i < prev.len() && !(s.last() != c && i == prev.len() - 1) {
                assert(p[i] == prev[i]);
            } else if s.last() != c {
                assert(p[i] == prev.last().push(s.last()));
                assert(free_of(prev[prev.len() - 1], x));
            } else {
                assert(p[i] == Seq::<char>::empty());
            }
        }
    }
}

/// Text that ends in a character other than white space has a word.
proof fn lemma_words_nonempty(s: Seq<char>)
    requires
        s.len() > 0,
        !is_white_space(s.last()),
    ensures
        words(s).len() > 0,
    decreases s.len(),
{
    if s.len() >= 2 && !is_white_space(s[s.len() - 2]) {
        assert(s.drop_last().last() == s[s.len() - 2]);
        lemma_words_nonempty(s.drop_last());
    }
}

/// Text without white space, and not empty, is one word.
pub proof fn law_words_of_one_word(w: Seq<char>)
    requires
        w.len() > 0,
        forall|i: int| 0 <= i < w.len() ==> !is_white_space(#[trigger] w[i]),
    ensures
        words(w) == seq![w],
    decreases w.len(),
{
    if w.len() == 1 {
        assert(words(w.drop_last()) == Seq::<Seq<char>>::empty());
        assert(seq![w.last()] =~= w);
    } else {
        law_words_of_one_word(w.drop_last());
        assert(!is_white_space(w[w.len() - 2]));
        assert(w.drop_last().push(w.last()) =~= w);
        assert(seq![w.drop_last()].update(0, w.drop_last().push(w.last())) =~= seq![w]);
    }
}

/// A white-space character separates words: the words of `a`, the separator
/// and `b` are the words of `a` followed by the words of `b`.
pub proof fn law_words_split_at_space(a: Seq<char>, c: char, b: Seq<char>)
    requires
        is_white_space(c),
    ensures
        words(a + seq![c] + b) == words(a) + words(b),
    decreases b.len(),
{
    let s = a + seq![c] + b;
    if b.len() == 0 {
        assert(s.drop_last() =~= a);
        assert(words(a) + words(b) =~= words(a));
    } else {
        let x = b.last();
        assert(s.drop_last() =~= a + seq![c] + b.drop_last());
        law_words_split_at_space(a, c, b.drop_last());
        let wa = words(a);
        let wb = words(b.drop_last());
        assert(words(s.drop_last()) == wa + wb);
        assert(s.last() == x);
        if is_white_space(x) {
        } else if b.len() >= 2 && !is_white_space(b[b.len() - 2]) {
            assert(s[s.len() - 2] == b[b.len() - 2]);
            assert(b.drop_last().last() == b[b.len() - 2]);
            lemma_words_nonempty(b.drop_last());
            assert((wa + wb).last() == wb.last());
            assert((wa + wb).update((wa + wb).len() - 1, wb.last().push(x)) =~= wa + wb.update(
                wb.len() - 1,
                wb.last().push(x),
            ));
        } else {
            if b.len() == 1 {
                assert(s[s.len() - 2] == c);
                assert(b.drop_last().len() == 0);
                assert(wb == Seq::<Seq<char>>::empty());
            } else {
                assert(s[s.len() - 2] == b[b.len() - 2]);
            }
            assert((wa + wb).push(seq![x]) =~= wa + wb.push(seq![x]));
        }
    }
}

/// Leading white space goes, and nothing after it.
proof fn lemma_trim_start_skips(p: Seq<char>, y: Seq<char>)
    requires
        forall|i: int| 0 <= i < p.len() ==> is_white_space(#[trigger] p[i]),
        y.len() == 0 || !is_white_space(y[0]),
    ensures
        trim_start(p + y) == y,
    decreases p.len(),
{
    if p.len() == 0 {
        assert(p + y =~= y);
    } else {
        assert((p + y)[0] == p[0]);
        assert((p + y).drop_first() =~= p.drop_first() + y);
        lemma_trim_start_skips(p.drop_first(), y);
    }
}

/// Trailing white space goes, and nothing before it.
proof fn lemma_trim_end_skips(y: Seq<char>, q: Seq<char>)
    requires
        forall|i: int| 0 <= i < q.len() ==> is_white_space(#[trigger] q[i]),
        y.len() == 0 || !is_white_space(y.last()),
    ensures
        trim_end(y + q) == y,
    decreases q.len(),
{
    if q.len() == 0 {
        assert(y + q =~= y);
    } else {
        assert((y + q).last() == q.last());
        assert((y + q).drop_last() =~= y + q.drop_last());
        lemma_trim_end_skips(y, q.drop_last());
    }
}

/// Trimming removes exactly the white space around the text: with white
/// space `p` before and `q` after, text `x` that neither begins nor ends with
/// white space comes back as it is.
pub proof fn law_trim_removes_surrounding_space(p: Seq<char>, x: Seq<char>, q: Seq<char>)
    requires
        forall|i: int| 0 <= i < p.len() ==> is_white_space(#[trigger] p[i]),
        forall|i: int| 0 <= i < q.len() ==> is_white_space(#[trigger] q[i]),
        x.len() == 0 || (!is_white_space(x[0]) && !is_white_space(x.last())),
    ensures
        trim(p + x + q) == x,
{
    if x.len() == 0 {
        let pq = p + q;
        assert(p + x + q =~= pq + x);
        assert forall|i: int| 0 <= i < pq.len() implies is_white_space(#[trigger] pq[i]) by {
            if i < p.len() {
                assert(pq[i] == p[i]);
            } else {
                assert(pq[i] == q[i - p.len()]);
            }
        }
        lemma_trim_start_skips(pq, x);
        assert(trim_end(x) == x);
    } else {
        assert(p + x + q =~= p + (x + q));
        assert((x + q)[0] == x[0]);
        lemma_trim_start_skips(p, x + q);
        lemma_trim_end_skips(x, q);
    }
}

} // verus!
