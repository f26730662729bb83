//! The opcode tables as scraped from the HTML page: each cell's key and text,
//! and the reading of a scraped cell into opcode fields.
use vstd::prelude::*;
use crate::pest_parser::{fields_of, is_instruction, parse_str};
use crate::text::{
    chars_of, contains_chars, contains_text, format_digits, format_unsigned, replace_all,
    replace_chars, split_chars, split_on, string_of, to_uppercase, upper_text,
};
use crate::text_map::TextMap;

verus! {

/// A cell of a table body, with what the scraper read from it.
pub struct TableCell {
    /// Whether the cell has any content (an unused opcode's cell has none).
    pub has_children: bool,
    /// The cell's `class` attribute, if it has one.
    pub class: Option<String>,
    /// The inner HTML of the first `div` inside the first `div` of the cell, if there is one.
    pub content: Option<String>,
}

/// A cell as plain values: whether it has content, its class, its inner HTML.
pub type CellView = (bool, Option<Seq<char>>, Option<Seq<char>>);

/// The text of an optional string.
pub open spec fn option_text(o: Option<String>) -> Option<Seq<char>> {
    match o {
        Some(s) => Some(s@),
        None => None,
    }
}

/// The cell as plain values.
pub open spec fn cell_view(c: TableCell) -> CellView {
    (c.has_children, option_text(c.class), option_text(c.content))
}

/// The rows of a table body as plain values.
pub open spec fn rows_view(rows: Seq<Vec<TableCell>>) -> Seq<Seq<CellView>> {
    rows.map_values(|row: Vec<TableCell>| row@.map_values(|c: TableCell| cell_view(c)))
}

/// What the scraper reads from the table body number `index` of the HTML page
/// `html`: for each row, for each cell, whether it has content, its class and
/// the inner HTML of its nested `div`; `None` where the page has no such body.
pub uninterp spec fn scraped_table(html: Seq<char>, index: nat) -> Option<Seq<Seq<CellView>>>;

/// `scraper`: parses the page with `Html::parse_document`, takes the
/// `tbody` number `index`, and reads each `td` of each `tr` in it: whether it
/// has children, its `class` attribute, and the inner HTML of the `div` inside
/// its `div`. The result is a function of the page alone and is only named
/// (`scraped_table`), not spelled out.
#[verifier::external_body]
pub(crate) fn scrape_table(html: &str, index: usize) -> (r: Option<Vec<Vec<TableCell>>>)
    ensures
        match r {
            Some(rows) => scraped_table(html@, index as nat) == Some(rows_view(rows@)),
            None => scraped_table(html@, index as nat) is None,
        },
{
    let doc = scraper::Html::parse_document(html);
    let sel = |css: &str| scraper::Selector::parse(css).unwrap();
    let (tr, td, div) = (sel("tr"), sel("td"), sel("div"));
    let table = doc.select(&sel("tbody")).nth(index)?;
    let cell = |c: scraper::ElementRef| TableCell {
        has_children: c.has_children(),
        class: c.value().attr("class").map(String::from),
        content: c.select(&div).next().and_then(|d| d.select(&div).next()).map(|d| d.inner_html()),
    };
    Some(table.select(&tr).map(|row| row.select(&td).map(cell).collect()).collect())
}

/// The suffix that names the width of the data an opcode handles, from the
/// cell's class: `-8`, `-16`, or `-0` for neither.
pub open spec fn bits_suffix(class: Seq<char>) -> Seq<char> {
    if contains_text(class, "8"@) {
        "-8"@
    } else if contains_text(class, "16"@) {
        "-16"@
    } else {
        "-0"@
    }
}

/// The key of the cell in row `msb` and column `lsb`: both in lower-case
/// hexadecimal, then the width suffix.
pub open spec fn cell_key(msb: nat, lsb: nat, class: Seq<char>) -> Seq<char> {
    format_digits(msb, 16) + format_digits(lsb, 16) + bits_suffix(class)
}

/// The text of a cell: its HTML with each `<br>` made a line break.
pub open spec fn cell_text(content: Seq<char>) -> Seq<char> {
    replace_all(content, "<br>"@, "\n"@)
}

/// Every cell with content has a class and a nested `div` to read.
pub open spec fn cells_complete(rows: Seq<Seq<CellView>>) -> bool {
    forall|i: int, j: int|
        0 <= i < rows.len() && 0 <= j < rows[i].len() && (#[trigger] rows[i][j]).0 ==> rows[i][j].1 is Some
            && rows[i][j].2 is Some
}

/// What the cells `cells` of row `msb` add to `base`, left to right; cells
/// without content are skipped.
pub open spec fn row_map(base: Map<Seq<char>, Seq<char>>, msb: nat, cells: Seq<CellView>) -> Map<
    Seq<char>,
    Seq<char>,
>
    decreases cells.len(),
{
    if cells.len() == 0 {
        base
    } else {
        let m = row_map(base, msb, cells.drop_last());
        let c = cells.last();
        if c.0 {
            m.insert(cell_key(msb, (cells.len() - 1) as nat, c.1.unwrap()), cell_text(c.2.unwrap()))
        } else {
            m
        }
    }
}

/// The map from cell keys to cell texts of a table body, rows top to bottom.
pub open spec fn table_map(rows: Seq<Seq<CellView>>) -> Map<Seq<char>, Seq<char>>
    decreases rows.len(),
{
    if rows.len() == 0 {
        Map::empty()
    } else {
        row_map(table_map(rows.drop_last()), (rows.len() - 1) as nat, rows.last())
    }
}

fn bits_suffix_exec(class: &String) -> (r: String)
    ensures
        r@ == bits_suffix(class@),
{
    let c = chars_of(class.as_str());
    if contains_chars(&c, &chars_of("8")) {
        String::from_str("-8")
    } else if contains_chars(&c, &chars_of("16")) {
        String::from_str("-16")
    } else {
        String::from_str("-0")
    }
}

/// The map from cell keys to cell texts of the table body `rows`.
pub fn extract_table(rows: &Vec<Vec<TableCell>>) -> (r: TextMap)
    requires
        cells_complete(rows_view(rows@)),
    ensures
        r@ == table_map(rows_view(rows@)),
{
    let ghost rv = rows_view(rows@);
    let mut m = TextMap::new();
    let mut msb: usize = 0;
    assert(rv.take(0) =~= Seq::<Seq<CellView>>::empty());
    while msb < rows.len()
        invariant
            msb <= rows@.len(),
            rv == rows_view(rows@),
            cells_complete(rv),
            m@ == table_map(rv.take(msb as int)),
        decreases rows.len() - msb,
    {
        let row = &rows[msb];
        let ghost base = m@;
        let ghost cv = rv[msb as int];
        assert(cv == row@.map_values(|c: TableCell| cell_view(c)));
        let mut lsb: usize = 0;
        assert(cv.take(0) =~= Seq::<CellView>::empty());
        while lsb < row.len()
            invariant
                lsb <= row@.len(),
                cv == row@.map_values(|c: TableCell| cell_view(c)),
                msb < rv.len(),
                cv == rv[msb as int],
                cells_complete(rv),
                m@ == row_map(base, msb as nat, cv.take(lsb as int)),
            decreases row.len() - lsb,
        {
            let cell = &row[lsb];
            assert(cv.take(lsb + 1).drop_last() =~= cv.take(lsb as int));
            assert(cv.take(lsb + 1).last() == cell_view(*cell));
            if cell.has_children {
                assert(rv[msb as int][lsb as int].0);
                let class = match &cell.class {
                    Some(c) => c,
                    None => {
                        assert(false);
                        return m;
                    },
                };
                let content = match &cell.content {
                    Some(c) => c,
                    None => {
                        assert(false);
                        return m;
                    },
                };
                let mut key = string_of(&format_unsigned(msb, 16));
                let low = string_of(&format_unsigned(lsb, 16));
                key.append(low.as_str());
                let suffix = bits_suffix_exec(class);
                key.append(suffix.as_str());
                proof {
                    reveal_strlit("<br>");
                }
                let text = replace_chars(&chars_of(content.as_str()), &chars_of("<br>"), &chars_of("\n"));
                m.insert(key, string_of(&text));
            }
            lsb = lsb + 1;
        }
        assert(cv.take(cv.len() as int) =~= cv);
        assert(rv.take(msb + 1).drop_last() =~= rv.take(msb as int));
        msb = msb + 1;
    }
    assert(rv.take(rv.len() as int) =~= rv);
    m
}

/// The page has two table bodies, and in each every cell with content has a
/// class and a nested `div` to read.
pub open spec fn page_tables_readable(html: Seq<char>) -> bool {
    &&& scraped_table(html, 0) is Some
    &&& cells_complete(scraped_table(html, 0).unwrap())
    &&& scraped_table(html, 1) is Some
    &&& cells_complete(scraped_table(html, 1).unwrap())
}

/// The tables of cell keys and texts of the first two table bodies of the
/// HTML page `html` (the unprefixed opcodes, then the CB-prefixed ones);
/// `None` where the page has fewer than two, or a cell with content lacks its
/// class or its nested `div`.
pub fn scrap_tables(html: &str) -> (r: Option<(TextMap, TextMap)>)
    ensures
        r is Some <==> page_tables_readable(html@),
        r matches Some((x, y)) ==> x@ == table_map(scraped_table(html@, 0).unwrap()) && y@ == table_map(
            scraped_table(html@, 1).unwrap(),
        ),
{
    let first = match scrape_table(html, 0) {
        Some(t) => t,
        None => return None,
    };
    let second = match scrape_table(html, 1) {
        Some(t) => t,
        None => return None,
    };
    if !rows_complete(&first) || !rows_complete(&second) {
        return None;
    }
    Some((extract_table(&first), extract_table(&second)))
}

fn rows_complete(rows: &Vec<Vec<TableCell>>) -> (b: bool)
    ensures
        b == cells_complete(rows_view(rows@)),
{
    let ghost rv = rows_view(rows@);
    let mut i: usize = 0;
    while i < rows.len()
        invariant
            i <= rows@.len(),
            rv == rows_view(rows@),
            forall|a: int, b: int|
                0 <= a < i && 0 <= b < rv[a].len() && (#[trigger] rv[a][b]).0 ==> rv[a][b].1 is Some
                    && rv[a][b].2 is Some,
        decreases rows.len() - i,
    {
        let row = &rows[i];
        let mut j: usize = 0;
        assert(rv[i as int] == row@.map_values(|c: TableCell| cell_view(c)));
        while j < row.len()
            invariant
                j <= row@.len(),
                i < rows@.len(),
                rv == rows_view(rows@),
                rv[i as int] == row@.map_values(|c: TableCell| cell_view(c)),
                forall|a: int, b: int|
                    0 <= a < i && 0 <= b < rv[a].len() && (#[trigger] rv[a][b]).0 ==> rv[a][b].1 is Some
                        && rv[a][b].2 is Some,
                forall|b: int| 0 <= b < j && (#[trigger] rv[i as int][b]).0 ==> rv[i as int][b].1 is Some
                    && rv[i as int][b].2 is Some,
            decreases row.len() - j,
        {
            let c = &row[j];
            assert(rv[i as int][j as int] == cell_view(*c));
            if c.has_children && (c.class.is_none() || c.content.is_none()) {
                return false;
            }
            j = j + 1;
        }
        i = i + 1;
    }
    true
}

/// `text` with each zero-width space made a plain space.
pub open spec fn spaced(text: Seq<char>) -> Seq<char> {
    replace_all(text, seq!['\u{200B}'], seq![' '])
}

/// `text` with each zero-width space made a plain space.
pub fn replace_zero_width_spaces(text: &str) -> (r: String)
    ensures
        r@ == spaced(text@),
{
    let zw = chars_of("\u{200B}");
    let sp = chars_of(" ");
    proof {
        reveal_strlit("\u{200B}");
        reveal_strlit(" ");
        assert(zw@ =~= seq!['\u{200B}']);
        assert(sp@ =~= seq![' ']);
    }
    string_of(&replace_chars(&chars_of(text), &zw, &sp))
}

/// The record that the scrape log holds for one cell: its key in upper case,
/// a line break, its text with each zero-width space made a space, and a
/// blank line.
pub open spec fn scrap_record_text(key: Seq<char>, text: Seq<char>) -> Seq<char> {
    upper_text(key) + seq!['\n'] + spaced(text) + seq!['\n', '\n']
}

/// The record that the scrape log holds for the cell under `key` with text `text`.
pub fn scrap_record(key: &str, text: &str) -> (r: String)
    ensures
        r@ == scrap_record_text(key@, text@),
{
    let mut r = to_uppercase(key);
    r.append("\n");
    let body = replace_zero_width_spaces(text);
    r.append(body.as_str());
    r.append("\n\n");
    proof {
        reveal_strlit("\n");
        reveal_strlit("\n\n");
        assert("\n"@ =~= seq!['\n']);
        assert("\n\n"@ =~= seq!['\n', '\n']);
    }
    r
}

/// The opcode of a scraped key such as `2e-8`: its part before the first `-`, in upper case.
pub open spec fn entry_opcode(key: Seq<char>) -> Seq<char> {
    upper_text(split_on(key, '-')[0])
}

/// The bits of a scraped key: its part after the first `-`, or `0` where there is none.
pub open spec fn entry_bits(key: Seq<char>) -> Seq<char> {
    if split_on(key, '-').len() > 1 {
        split_on(key, '-')[1]
    } else {
        seq!['0']
    }
}

/// Reads the scraped cell `text` under the key `key` into its opcode and its
/// fields, the bits among them.
pub fn parse_scraped_entry(key: &str, text: &str) -> (r: (String, TextMap))
    requires
        is_instruction(spaced(text@)),
    ensures
        r.0@ == entry_opcode(key@),
        r.1@ == fields_of(spaced(text@)).insert("bits"@, entry_bits(key@)),
{
    let parts = split_chars(&chars_of(key), '-');
    proof {
        crate::text::lemma_split_on_nonempty(key@, '-');
        assert(parts.deep_view()[0] == parts@[0]@);
    }
    let opcode = to_uppercase(parts[0].as_str());
    let bits = if parts.len() > 1 {
        assert(parts.deep_view()[1] == parts@[1]@);
        parts[1].clone()
    } else {
        proof {
            reveal_strlit("0");
        }
        let b = String::from_str("0");
        assert(b@ =~= seq!['0']);
        b
    };
    let instruction = replace_zero_width_spaces(text);
    let mut fields = parse_str(instruction);
    fields.insert(String::from_str("bits"), bits);
    (opcode, fields)
}

/// Each zero-width space of the text becomes a plain space and every other
/// character stays where it is.
pub proof fn law_spaced_by_character(text: Seq<char>)
    ensures
        spaced(text).len() == text.len(),
        forall|i: int|
            0 <= i < text.len() ==> #[trigger] spaced(text)[i] == (if text[i] == '\u{200B}' {
                ' '
            } else {
                text[i]
            }),
    decreases text.len(),
{
    if text.len() > 0 {
        let front = text.drop_last();
        let last = text.last();
        law_spaced_by_character(front);
        assert(text =~= front + seq![last]);
        crate::text::lemma_replace_char_concat(front, seq![last], '\u{200B}', seq![' ']);
        if last == '\u{200B}' {
            crate::text::lemma_replace_char_itself('\u{200B}', seq![' ']);
        } else {
            crate::text::lemma_replace_char_absent(seq![last], '\u{200B}', seq![' ']);
        }
        assert forall|i: int| 0 <= i < text.len() implies #[trigger] spaced(text)[i] == (if text[i]
            == '\u{200B}' {
            ' '
        } else {
            text[i]
        }) by {
            if i < front.len() {
                assert(spaced(text)[i] == spaced(front)[i]);
                assert(text[i] == front[i]);
            }
        }
    }
}

/// Text without `<` is its own cell text.
proof fn lemma_cell_text_plain(a: Seq<char>)
    requires
        crate::text::free_of(a, '<'),
    ensures
        cell_text(a) == a,
    decreases a.len(),
{
    reveal_strlit("<br>");
    if a.len() > 0 {
        assert(crate::text::free_of(a.drop_first(), '<'));
        lemma_cell_text_plain(a.drop_first());
        if 4 <= a.len() {
            assert(a.take(4)[0] != "<br>"@[0]);
        }
        assert(cell_text(a) =~= seq![a[0]] + a.drop_first());
    }
}

/// In the cell text, each `<br>` becomes a line break and the text before it
/// stays as it is: a cell `a<br>b` reads as `a`, a line break, and the text of `b`.
pub proof fn law_cell_text_line_break(a: Seq<char>, b: Seq<char>)
    requires
        crate::text::free_of(a, '<'),
    ensures
        cell_text(a) == a,
        cell_text(a + "<br>"@ + b) == a + "\n"@ + cell_text(b),
    decreases a.len(),
{
    reveal_strlit("<br>");
    lemma_cell_text_plain(a);
    let s = a + "<br>"@ + b;
    if a.len() == 0 {
        assert(s =~= "<br>"@ + b);
        assert(s.take(4) =~= "<br>"@);
        assert(s.skip(4) =~= b);
        assert(a + "\n"@ + cell_text(b) =~= "\n"@ + cell_text(b));
    } else {
        assert(crate::text::free_of(a.drop_first(), '<'));
        law_cell_text_line_break(a.drop_first(), b);
        assert(s.drop_first() =~= a.drop_first() + "<br>"@ + b);
        assert(s.take(4)[0] != "<br>"@[0]);
        assert(a + "\n"@ + cell_text(b) =~= seq![a[0]] + (a.drop_first() + "\n"@ + cell_text(b)));
    }
}

/// A scraped key `<code>-<bits>` is read as its code in upper case and its
/// bits; a key without `-` as itself in upper case, with bits `0`.
pub proof fn law_entry_key_parts(a: Seq<char>, b: Seq<char>)
    requires
        crate::text::free_of(a, '-'),
        crate::text::free_of(b, '-'),
    ensures
        entry_opcode(a + seq!['-'] + b) == upper_text(a),
        entry_bits(a + seq!['-'] + b) == b,
        entry_opcode(a) == upper_text(a),
        entry_bits(a) == seq!['0'],
{
    let xs = seq![a, b];
    assert forall|i: int| 0 <= i < xs.len() implies crate::text::free_of(#[trigger] xs[i], '-') by {}
    assert(xs.drop_last() =~= seq![a]);
    assert(crate::text::join(xs.drop_last(), seq!['-']) == a);
    crate::text::law_split_undoes_join(xs, '-');
    crate::text::law_split_undoes_join(seq![a], '-');
    assert(forall|i: int| 0 <= i < seq![a].len() ==> crate::text::free_of(#[trigger] seq![a][i], '-'));
}

/// The key that the scraper writes for a cell of the table (row and column
/// under sixteen) is read back with the bits that the cell's class names:
/// `8`, `16`, or `0` for neither.
pub proof fn law_cell_key_bits(msb: nat, lsb: nat, class: Seq<char>)
    requires
        msb < 16,
        lsb < 16,
    ensures
        seq!['-'] + entry_bits(cell_key(msb, lsb, class)) == bits_suffix(class),
{
    reveal_strlit("-8");
    reveal_strlit("-16");
    reveal_strlit("-0");
    let h = format_digits(msb, 16) + format_digits(lsb, 16);
    assert(format_digits(msb, 16) == seq![crate::text::digit_char(msb)]);
    assert(format_digits(lsb, 16) == seq![crate::text::digit_char(lsb)]);
    let suffix = bits_suffix(class);
    let t = suffix.drop_first();
    assert(suffix =~= seq!['-'] + t);
    assert(crate::text::free_of(t, '-'));
    assert(crate::text::free_of(h, '-'));
    assert(cell_key(msb, lsb, class) =~= h + seq!['-'] + t);
    law_entry_key_parts(h, t);
}

/// Cells at two different places of a table of at most sixteen rows and
/// columns have different keys: the key begins with the row and the column.
proof fn lemma_cell_keys_differ(i: nat, j: nat, c: Seq<char>, i2: nat, j2: nat, c2: Seq<char>)
    requires
        i < 16,
        j < 16,
        i2 < 16,
        j2 < 16,
        i != i2 || j != j2,
    ensures
        cell_key(i, j, c) != cell_key(i2, j2, c2),
{
    assert(format_digits(i, 16) == seq![crate::text::digit_char(i)]);
    assert(format_digits(j, 16) == seq![crate::text::digit_char(j)]);
    assert(format_digits(i2, 16) == seq![crate::text::digit_char(i2)]);
    assert(format_digits(j2, 16) == seq![crate::text::digit_char(j2)]);
    let k1 = cell_key(i, j, c);
    let k2 = cell_key(i2, j2, c2);
    assert(k1[0] == crate::text::digit_char(i) && k1[1] == crate::text::digit_char(j));
    assert(k2[0] == crate::text::digit_char(i2) && k2[1] == crate::text::digit_char(j2));
    if i != i2 {
        assert(k1[0] != k2[0]);
    } else {
        assert(k1[1] != k2[1]);
    }
}

/// Cells whose keys differ from `k` leave what the map holds under `k` as it was.
proof fn lemma_row_map_keeps(base: Map<Seq<char>, Seq<char>>, msb: nat, cells: Seq<CellView>, k: Seq<char>)
    requires
        forall|j: int|
            0 <= j < cells.len() && (#[trigger] cells[j]).0 ==> cell_key(msb, j as nat, cells[j].1.unwrap())
                != k,
    ensures
        row_map(base, msb, cells).contains_key(k) == base.contains_key(k),
        base.contains_key(k) ==> row_map(base, msb, cells)[k] == base[k],
    decreases cells.len(),
{
    if cells.len() > 0 {
        lemma_row_map_keeps(base, msb, cells.drop_last(), k);
        assert(cells.last() == cells[cells.len() - 1]);
    }
}

/// After a row is read, the text of each of its cells with content is found
/// under the cell's key.
proof fn lemma_row_map_has(base: Map<Seq<char>, Seq<char>>, msb: nat, cells: Seq<CellView>, j: int)
    requires
        msb < 16,
        cells.len() <= 16,
        0 <= j < cells.len(),
        cells[j].0,
    ensures
        row_map(base, msb, cells).contains_key(cell_key(msb, j as nat, cells[j].1.unwrap())),
        row_map(base, msb, cells)[cell_key(msb, j as nat, cells[j].1.unwrap())] == cell_text(
            cells[j].2.unwrap(),
        ),
    decreases cells.len(),
{
    let n = cells.len() - 1;
    if j < n {
        lemma_row_map_has(base, msb, cells.drop_last(), j);
        assert(cells.drop_last()[j] == cells[j]);
        if cells.last().0 {
            lemma_cell_keys_differ(msb, n as nat, cells.last().1.unwrap(), msb, j as nat, cells[j].1.unwrap());
        }
    }
}

/// Reading the table body `rows` (at most sixteen rows of at most sixteen
/// cells) gives back, under the key of each cell with content, the text of
/// that cell: no other cell takes its place.
pub proof fn law_table_cell_read_back(rows: Seq<Seq<CellView>>, i: int, j: int)
    requires
        rows.len() <= 16,
        forall|r: int| 0 <= r < rows.len() ==> (#[trigger] rows[r]).len() <= 16,
        0 <= i < rows.len(),
        0 <= j < rows[i].len(),
        rows[i][j].0,
    ensures
        table_map(rows).contains_key(cell_key(i as nat, j as nat, rows[i][j].1.unwrap())),
        table_map(rows)[cell_key(i as nat, j as nat, rows[i][j].1.unwrap())] == cell_text(
            rows[i][j].2.unwrap(),
        ),
    decreases rows.len(),
{
    let n = rows.len() - 1;
    let k = cell_key(i as nat, j as nat, rows[i][j].1.unwrap());
    assert(rows.last() == rows[n]);
    if i == n {
        lemma_row_map_has(table_map(rows.drop_last()), n as nat, rows.last(), j);
    } else {
        let front = rows.drop_last();
        assert forall|r: int| 0 <= r < front.len() implies (#[trigger] front[r]).len() <= 16 by {
            assert(front[r] == rows[r]);
        }
        assert(front[i] == rows[i]);
        law_table_cell_read_back(front, i, j);
        let cells = rows.last();
        assert forall|j2: int| 0 <= j2 < cells.len() && (#[trigger] cells[j2]).0 implies cell_key(
            n as nat,
            j2 as nat,
            cells[j2].1.unwrap(),
        ) != k by {
            lemma_cell_keys_differ(n as nat, j2 as nat, cells[j2].1.unwrap(), i as nat, j as nat, rows[i][j].1.unwrap());
        }
        lemma_row_map_keeps(table_map(front), n as nat, cells, k);
    }
}

/// The scrape log's record of a cell with an ASCII key is the key in capitals
/// on a line of its own, then the cell text with each zero-width space made a
/// space, then a blank line.
pub proof fn law_scrap_record_layout(key: Seq<char>, text: Seq<char>)
    requires
        crate::text::is_ascii_text(key),
    ensures
        scrap_record_text(key, text) == key.map_values(|c: char| crate::text::ascii_upper(c))
            + seq!['\n'] + spaced(text) + seq!['\n', '\n'],
        scrap_record_text(key, text).len() == key.len() + text.len() + 3,
{
    law_spaced_by_character(text);
}

} // verus!
