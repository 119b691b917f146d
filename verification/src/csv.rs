//! A quote-aware CSV scanner and writer.
//!
//! Rows are newline-delimited (no embedded newlines in fields) so the input can
//! be split into chunks at line boundaries and parsed in parallel. Within a
//! line, fields are comma-separated and may be `"`-quoted; a quoted field may
//! contain commas, and `""` is an escaped quote.
//!
//! See [`crate::field`] for how values are represented.

use crate::field::{Field, FieldV, Row, row_texts, row_view, rows_view, text_row};
use crate::text::{
    chars_of, find_char, joined, lemma_joined_front, lemma_next_of, lemma_next_of_is, next_of,
    string_from, texts,
};
use vstd::prelude::*;

verus! {

/// A line without the `\r` of a CRLF ending.
pub open spec fn without_cr(line: Seq<char>) -> Seq<char> {
    if line.len() > 0 && line.last() == '\r' {
        line.drop_last()
    } else {
        line
    }
}

/// Where the quoted text that goes on at `j` closes: at the first `"` that is
/// not one of a `""` pair, or at the end of the line.
pub open spec fn closing_quote(line: Seq<char>, j: int) -> int
    decreases line.len() - j,
{
    if j >= line.len() {
        line.len() as int
    } else if line[j] != '"' {
        closing_quote(line, j + 1)
    } else if j + 1 < line.len() && line[j + 1] == '"' {
        closing_quote(line, j + 2)
    } else {
        j
    }
}

/// Quoted text with each `""` read as one `"`.
pub open spec fn unescaped(s: Seq<char>) -> Seq<char>
    decreases s.len(),
{
    if s.len() == 0 {
        seq![]
    } else if s.len() >= 2 && s[0] == '"' && s[1] == '"' {
        seq!['"'] + unescaped(s.skip(2))
    } else {
        seq![s[0]] + unescaped(s.skip(1))
    }
}

/// Whether the field at `i` is quoted.
pub open spec fn quoted_at(line: Seq<char>, i: int) -> bool {
    0 <= i < line.len() && line[i] == '"'
}

/// The text of the field that starts at `i`: up to the next comma, or what the
/// quotes hold (any stray text between the closing quote and the next comma is
/// dropped).
pub open spec fn field_text(line: Seq<char>, i: int) -> Seq<char> {
    if quoted_at(line, i) {
        unescaped(line.subrange(i + 1, closing_quote(line, i + 1)))
    } else {
        line.subrange(i, next_of(line, ',', i))
    }
}

/// Where the field that starts at `i` ends: at the comma behind it, or at the
/// end of the line.
pub open spec fn field_end(line: Seq<char>, i: int) -> int {
    if quoted_at(line, i) {
        let q = closing_quote(line, i + 1);
        if q < line.len() {
            next_of(line, ',', q + 1)
        } else {
            line.len() as int
        }
    } else {
        next_of(line, ',', i)
    }
}

proof fn lemma_closing_quote(line: Seq<char>, j: int)
    requires
        0 <= j <= line.len(),
    ensures
        j <= closing_quote(line, j) <= line.len(),
    decreases line.len() - j,
{
    if j < line.len() {
        if line[j] != '"' {
            lemma_closing_quote(line, j + 1);
        } else if j + 1 < line.len() && line[j + 1] == '"' {
            lemma_closing_quote(line, j + 2);
        }
    }
}

/// A field ends at a comma behind it or at the end of the line.
pub proof fn lemma_field_end(line: Seq<char>, i: int)
    requires
        0 <= i <= line.len(),
    ensures
        i <= field_end(line, i) <= line.len(),
        field_end(line, i) < line.len() ==> line[field_end(line, i)] == ',',
{
    if quoted_at(line, i) {
        lemma_closing_quote(line, i + 1);
        let q = closing_quote(line, i + 1);
        if q < line.len() {
            lemma_next_of(line, ',', q + 1);
        }
    } else {
        lemma_next_of(line, ',', i);
    }
}

/// The fields of a line from `i` on. A comma in the last position means a
/// trailing empty field.
pub open spec fn fields_from(line: Seq<char>, i: int) -> Seq<Seq<char>>
    decreases line.len() - i,
    when 0 <= i <= line.len()
{
    proof {
        lemma_field_end(line, i);
    }
    let f = field_text(line, i);
    let n = field_end(line, i);
    if n >= line.len() {
        seq![f]
    } else if n + 1 == line.len() {
        seq![f, seq![]]
    } else {
        seq![f] + fields_from(line, n + 1)
    }
}

/// The fields of a line.
pub open spec fn line_fields(line: Seq<char>) -> Seq<Seq<char>> {
    fields_from(without_cr(line), 0)
}

/// The rows of a chunk from `i` on. Trailing text that no newline ends is still
/// a row; a trailing newline is followed by none.
pub open spec fn rows_from(chunk: Seq<char>, i: int) -> Seq<Seq<Seq<char>>>
    decreases chunk.len() - i,
    when 0 <= i <= chunk.len()
{
    proof {
        lemma_next_of(chunk, '\n', i);
    }
    let n = next_of(chunk, '\n', i);
    if i >= chunk.len() {
        seq![]
    } else if n >= chunk.len() {
        seq![line_fields(chunk.subrange(i, chunk.len() as int))]
    } else {
        seq![line_fields(chunk.subrange(i, n))] + rows_from(chunk, n + 1)
    }
}

/// The rows of a chunk.
pub open spec fn chunk_rows(chunk: Seq<char>) -> Seq<Seq<Seq<char>>> {
    rows_from(chunk, 0)
}

/// Rows of plain text cells.
pub open spec fn text_rows(rows: Seq<Seq<Seq<char>>>) -> Seq<Seq<FieldV>> {
    rows.map_values(|r: Seq<Seq<char>>| text_row(r))
}

/// Whether a text has to be quoted: it holds a delimiter, a quote or a line
/// break.
pub open spec fn needs_quotes(s: Seq<char>) -> bool {
    exists|i: int|
        0 <= i < s.len() && (#[trigger] s[i] == ',' || s[i] == '"' || s[i] == '\n' || s[i] == '\r')
}

/// A text with every `"` doubled.
pub open spec fn doubled(s: Seq<char>) -> Seq<char>
    decreases s.len(),
{
    if s.len() == 0 {
        seq![]
    } else if s.last() == '"' {
        doubled(s.drop_last()).push('"').push('"')
    } else {
        doubled(s.drop_last()).push(s.last())
    }
}

/// A text as a CSV field: quoted only when it has to be.
pub open spec fn encoded(s: Seq<char>) -> Seq<char> {
    if needs_quotes(s) {
        seq!['"'] + doubled(s) + seq!['"']
    } else {
        s
    }
}

/// A cell as a CSV field: a number never needs quoting.
pub open spec fn encoded_cell(f: FieldV) -> Seq<char> {
    match f {
        FieldV::Num(n) => n.text,
        FieldV::Str(s) => encoded(s),
    }
}

/// A row as a line of CSV, its newline included.
pub open spec fn row_line(row: Seq<FieldV>) -> Seq<char> {
    joined(row.map_values(|f: FieldV| encoded_cell(f)), seq![',']).push('\n')
}

/// Rows as lines of CSV.
pub open spec fn rows_text(rows: Seq<Seq<FieldV>>) -> Seq<char>
    decreases rows.len(),
{
    if rows.len() == 0 {
        seq![]
    } else {
        rows_text(rows.drop_last()) + row_line(rows.last())
    }
}

/// Parse every row in `chunk`.
pub fn parse_chunk(chunk: &str) -> (rows: Vec<Row>)
    ensures
        rows_view(rows@) == text_rows(chunk_rows(chunk@)),
{
    let v = chars_of(chunk);
    let mut rows: Vec<Row> = Vec::new();
    let mut start: usize = 0;
    proof {
        assert(rows_view(rows@) + text_rows(rows_from(v@, 0)) =~= text_rows(rows_from(v@, 0)));
    }
    while start < v.len()
        invariant
            start <= v.len(),
            rows_view(rows@) + text_rows(rows_from(v@, start as int)) == text_rows(
                rows_from(v@, 0),
            ),
        decreases v.len() - start,
    {
        let nl = find_char(v.as_slice(), '\n', start);
        let ghost before = rows_view(rows@);
        let row = parse_line(v.as_slice(), start, nl);
        rows.push(row);
        proof {
            let this = line_fields(v@.subrange(start as int, nl as int));
            assert(rows_view(rows@) =~= before.push(text_row(this)));
            if nl < v.len() {
                assert(text_rows(rows_from(v@, start as int)) =~= seq![text_row(this)] + text_rows(
                    rows_from(v@, nl + 1),
                ));
                assert(before + (seq![text_row(this)] + text_rows(rows_from(v@, nl + 1)))
                    =~= before.push(text_row(this)) + text_rows(rows_from(v@, nl + 1)));
            } else {
                assert(text_rows(rows_from(v@, start as int)) =~= seq![text_row(this)]);
                assert(before + seq![text_row(this)] =~= before.push(text_row(this)));
                assert(text_rows(rows_from(v@, nl as int)) =~= seq![]);
                assert(rows_view(rows@) + seq![] =~= rows_view(rows@));
            }
        }
        if nl < v.len() {
            start = nl + 1;
        } else {
            start = nl;
        }
    }
    assert(text_rows(rows_from(v@, start as int)) =~= seq![]);
    assert(rows_view(rows@) + seq![] =~= rows_view(rows@));
    rows
}

/// Parse a CSV header line into owned column names.
pub fn parse_header(line: &str) -> (names: Vec<String>)
    ensures
        texts(names@) == line_fields(line@),
{
    let v = chars_of(line);
    let row = parse_line(v.as_slice(), 0, v.len());
    assert(v@.subrange(0, v@.len() as int) =~= v@);
    let mut names: Vec<String> = Vec::new();
    let mut i: usize = 0;
    while i < row.len()
        invariant
            i <= row.len(),
            row_view(row@) == text_row(line_fields(line@)),
            texts(names@) == line_fields(line@).take(i as int),
        decreases row.len() - i,
    {
        let ghost before = names@;
        names.push(row[i].as_str().to_string());
        proof {
            assert(row_view(row@)[i as int] == text_row(line_fields(line@))[i as int]);
            assert(row_view(row@).len() == line_fields(line@).len());
            assert(texts(names@) =~= texts(before).push(line_fields(line@)[i as int]));
            assert(line_fields(line@).take(i + 1) =~= line_fields(line@).take(i as int).push(
                line_fields(line@)[i as int],
            ));
        }
        i += 1;
    }
    proof {
        assert(row_view(row@).len() == text_row(line_fields(line@)).len());
        assert(line_fields(line@).take(row@.len() as int) =~= line_fields(line@));
    }
    names
}

/// Where the line from `start` to `end` ends without the `\r` of a CRLF ending.
fn strip_cr(v: &[char], start: usize, end: usize) -> (n: usize)
    requires
        start <= end <= v.len(),
    ensures
        start <= n <= end,
        v@.subrange(start as int, n as int) == without_cr(v@.subrange(start as int, end as int)),
{
    if start < end && v[end - 1] == '\r' {
        assert(v@.subrange(start as int, end as int).drop_last() =~= v@.subrange(
            start as int,
            end - 1,
        ));
        end - 1
    } else {
        end
    }
}

/// Split one line, from `start` to `end`, into fields.
fn parse_line(v: &[char], start: usize, end: usize) -> (row: Row)
    requires
        start <= end <= v.len(),
    ensures
        row_view(row@) == text_row(line_fields(v@.subrange(start as int, end as int))),
{
    let stop = strip_cr(v, start, end);
    let line: &[char] = &v[start..stop];
    let mut row: Row = Vec::new();
    let mut i: usize = 0;
    proof {
        assert(row_view(row@) + text_row(fields_from(line@, 0)) =~= text_row(
            fields_from(line@, 0),
        ));
    }
    loop
        invariant_except_break
            row_view(row@) + text_row(fields_from(line@, i as int)) == text_row(
                fields_from(line@, 0),
            ),
        invariant
            i <= line.len(),
        ensures
            row_view(row@) == text_row(fields_from(line@, 0)),
        decreases line.len() - i,
    {
        let ghost before = row_view(row@);
        let (field, next) = if i < line.len() && line[i] == '"' {
            parse_quoted(line, i)
        } else {
            parse_plain(line, i)
        };
        let ghost this = FieldV::Str(field_text(line@, i as int));
        row.push(Field::Str(field));
        proof {
            lemma_field_end(line@, i as int);
            assert(row_view(row@) =~= before.push(this));
        }
        if next >= line.len() {
            proof {
                assert(text_row(fields_from(line@, i as int)) =~= seq![this]);
                assert(before + seq![this] =~= before.push(this));
            }
            break;
        }
        if next + 1 == line.len() {
            row.push(Field::Str(String::new()));
            proof {
                assert(row@.last()@->Str_0 =~= seq![]);
                let empty = FieldV::Str(seq![]);
                assert(row_view(row@) =~= before.push(this).push(empty));
                assert(text_row(fields_from(line@, i as int)) =~= seq![this, empty]);
                assert(before + seq![this, empty] =~= before.push(this).push(empty));
            }
            break;
        }
        proof {
            let rest = text_row(fields_from(line@, next + 1));
            assert(text_row(fields_from(line@, i as int)) =~= seq![this] + rest);
            assert(before + (seq![this] + rest) =~= before.push(this) + rest);
        }
        i = next + 1;
    }
    row
}

/// Plain field from `i` up to the next comma (or end of line).
fn parse_plain(line: &[char], i: usize) -> (r: (String, usize))
    requires
        i <= line.len(),
        !quoted_at(line@, i as int),
    ensures
        r.0@ == field_text(line@, i as int),
        r.1 == field_end(line@, i as int),
{
    let n = find_char(line, ',', i);
    (string_from(line, i, n), n)
}

/// Quoted field starting at the opening `"` at `i`. Returns the field and the
/// index of the following comma (or end of line); any stray text between the
/// closing quote and that comma is dropped.
fn parse_quoted(line: &[char], i: usize) -> (r: (String, usize))
    requires
        i < line.len(),
        quoted_at(line@, i as int),
    ensures
        r.0@ == field_text(line@, i as int),
        r.1 == field_end(line@, i as int),
{
    let start: usize = i + 1;
    let mut j: usize = start;
    while j < line.len() && (line[j] != '"' || (j + 1 < line.len() && line[j + 1] == '"'))
        invariant
            start <= j <= line.len(),
            closing_quote(line@, start as int) == closing_quote(line@, j as int),
        decreases line.len() - j,
    {
        if line[j] == '"' {
            j += 2;
        } else {
            j += 1;
        }
    }
    let field = make_quoted(line, start, j);
    if j < line.len() {
        (field, find_char(line, ',', j + 1))
    } else {
        (field, j)
    }
}

/// The quoted text from `start` to `q`, each `""` read as one `"`.
fn make_quoted(line: &[char], start: usize, q: usize) -> (s: String)
    requires
        start <= q <= line.len(),
    ensures
        s@ == unescaped(line@.subrange(start as int, q as int)),
{
    let mut s = String::new();
    let mut k: usize = start;
    let ghost whole = line@.subrange(start as int, q as int);
    assert(whole.skip(0) =~= whole);
    assert(s@ + unescaped(whole) =~= unescaped(whole));
    while k < q
        invariant
            start <= k <= q <= line.len(),
            whole == line@.subrange(start as int, q as int),
            s@ + unescaped(whole.skip(k - start)) == unescaped(whole),
        decreases q - k,
    {
        let ghost before = s@;
        let ghost rest = whole.skip(k - start);
        s.push(line[k]);
        if line[k] == '"' && k + 1 < q && line[k + 1] == '"' {
            assert(rest.skip(2) =~= whole.skip(k + 2 - start));
            assert(before + (seq!['"'] + unescaped(rest.skip(2))) =~= s@ + unescaped(rest.skip(2)));
            k += 2;
        } else {
            assert(rest.skip(1) =~= whole.skip(k + 1 - start));
            assert(before + (seq![line@[k as int]] + unescaped(rest.skip(1))) =~= s@ + unescaped(
                rest.skip(1),
            ));
            k += 1;
        }
    }
    assert(whole.skip(q - start) =~= seq![]);
    assert(s@ + unescaped(whole.skip(q - start)) =~= s@);
    s
}

/// Append a CSV-encoded row (with trailing newline) to `buf`. A field is quoted
/// only when it contains a delimiter, quote, or newline; `"` is escaped as `""`.
/// Numbers are already formatted and never need quoting.
pub fn write_row(buf: &mut String, row: &[Field])
    ensures
        final(buf)@ == old(buf)@ + row_line(row_view(row@)),
{
    let ghost cells = row_view(row@).map_values(|f: FieldV| encoded_cell(f));
    let mut i: usize = 0;
    assert(old(buf)@ + joined(cells.take(0), seq![',']) =~= old(buf)@);
    while i < row.len()
        invariant
            i <= row.len(),
            cells == row_view(row@).map_values(|f: FieldV| encoded_cell(f)),
            buf@ == old(buf)@ + joined(cells.take(i as int), seq![',']),
        decreases row.len() - i,
    {
        if i > 0 {
            buf.push(',');
        }
        match &row[i] {
            Field::Num(n) => buf.append(n.text.as_str()),
            Field::Str(s) => write_text(buf, s.as_str()),
        }
        proof {
            let this = cells[i as int];
            assert(this == encoded_cell(row@[i as int]@));
            assert(cells.take(i + 1).drop_last() =~= cells.take(i as int));
            assert(cells.take(i + 1).last() == this);
            if i == 0 {
                assert(buf@ =~= old(buf)@ + joined(cells.take(1), seq![',']));
            } else {
                assert(buf@ =~= old(buf)@ + (joined(cells.take(i as int), seq![',']) + seq![',']
                    + this));
            }
        }
        i += 1;
    }
    buf.push('\n');
    assert(cells.take(row@.len() as int) =~= cells);
    assert(buf@ =~= old(buf)@ + row_line(row_view(row@)));
}

/// CSV-encode one field's text (quoting only if needed), returned as a String.
/// Used when colouring plain CSV output, where each cell is encoded then wrapped
/// in ANSI separately.
pub fn encode_field(s: &str) -> (r: String)
    ensures
        r@ == encoded(s@),
{
    let mut buf = String::new();
    write_text(&mut buf, s);
    assert(buf@ =~= encoded(s@));
    buf
}

/// Append one field's text, quoted if it has to be.
fn write_text(buf: &mut String, s: &str)
    ensures
        final(buf)@ == old(buf)@ + encoded(s@),
{
    let v = chars_of(s);
    let mut quote = false;
    let mut i: usize = 0;
    while i < v.len()
        invariant
            i <= v.len(),
            v@ == s@,
            quote ==> needs_quotes(s@),
            !quote ==> forall|k: int|
                0 <= k < i ==> #[trigger] v@[k] != ',' && v@[k] != '"' && v@[k] != '\n' && v@[k]
                    != '\r',
        decreases v.len() - i,
    {
        let c = v[i];
        if c == ',' || c == '"' || c == '\n' || c == '\r' {
            assert(s@[i as int] == c);
            quote = true;
        }
        i += 1;
    }
    if !quote {
        buf.append(s);
        return;
    }
    buf.push('"');
    let ghost opened = buf@;
    let mut k: usize = 0;
    assert(buf@ =~= opened + doubled(v@.take(0)));
    while k < v.len()
        invariant
            k <= v.len(),
            buf@ == opened + doubled(v@.take(k as int)),
        decreases v.len() - k,
    {
        let c = v[k];
        if c == '"' {
            buf.push('"');
        }
        buf.push(c);
        proof {
            assert(v@.take(k + 1).drop_last() =~= v@.take(k as int));
            assert(buf@ =~= opened + doubled(v@.take(k + 1)));
        }
        k += 1;
    }
    buf.push('"');
    assert(v@.take(v@.len() as int) =~= v@);
    assert(buf@ =~= old(buf)@ + encoded(s@));
}

/// Rows as lines of CSV.
pub fn write_rows(rows: &[Row]) -> (buf: String)
    ensures
        buf@ == rows_text(rows_view(rows@)),
{
    let mut buf = String::new();
    let mut i: usize = 0;
    while i < rows.len()
        invariant
            i <= rows.len(),
            buf@ == rows_text(rows_view(rows@).take(i as int)),
        decreases rows.len() - i,
    {
        write_row(&mut buf, rows[i].as_slice());
        proof {
            let t = rows_view(rows@);
            assert(t.take(i + 1).drop_last() =~= t.take(i as int));
            assert(t.take(i + 1).last() == row_view(rows@[i as int]@));
        }
        i += 1;
    }
    assert(rows_view(rows@).take(rows@.len() as int) =~= rows_view(rows@));
    buf
}

/// A text that can stand in a row: no newline, since rows are lines.
pub open spec fn one_line(s: Seq<char>) -> bool {
    forall|i: int| 0 <= i < s.len() ==> #[trigger] s[i] != '\n'
}

/// A cell whose encoding tells its text: for a number, a text that needs no quotes.
pub open spec fn encodable(f: FieldV) -> bool {
    f is Num ==> !needs_quotes(f.text())
}

/// A row whose encoding tells its texts.
pub open spec fn encodable_row(row: Seq<FieldV>) -> bool {
    &&& row.len() > 0
    &&& forall|i: int| 0 <= i < row.len() ==> encodable(#[trigger] row[i])
}

/// A cell that can stand in a row: one line of text, and for a number a text
/// that needs no quotes.
pub open spec fn writable(f: FieldV) -> bool {
    one_line(f.text()) && encodable(f)
}

/// A row that a line of CSV can hold.
pub open spec fn writable_row(row: Seq<FieldV>) -> bool {
    &&& row.len() > 0
    &&& forall|i: int| 0 <= i < row.len() ==> writable(#[trigger] row[i])
}

proof fn lemma_doubled_front(c: char, s: Seq<char>)
    ensures
        doubled(seq![c] + s) == (if c == '"' {
            seq!['"', '"']
        } else {
            seq![c]
        }) + doubled(s),
    decreases s.len(),
{
    let t = seq![c] + s;
    if s.len() == 0 {
        assert(t.drop_last() =~= seq![]);
        assert(t.last() == c);
        assert(doubled(t.drop_last()) =~= seq![]);
        assert(doubled(s) =~= seq![]);
        assert(doubled(t) =~= (if c == '"' {
            seq!['"', '"']
        } else {
            seq![c]
        }) + doubled(s));
    } else {
        lemma_doubled_front(c, s.drop_last());
        assert(t.drop_last() =~= seq![c] + s.drop_last());
        assert(t.last() == s.last());
        assert(doubled(t) =~= (if c == '"' {
            seq!['"', '"']
        } else {
            seq![c]
        }) + doubled(s));
    }
}

/// Doubling the quotes of a text and reading the pairs back gives the text.
pub proof fn law_unescape_undoes_doubling(s: Seq<char>)
    ensures
        unescaped(doubled(s)) == s,
    decreases s.len(),
{
    if s.len() > 0 {
        let c = s[0];
        let r = s.skip(1);
        assert(s =~= seq![c] + r);
        lemma_doubled_front(c, r);
        law_unescape_undoes_doubling(r);
        let d = doubled(s);
        if c == '"' {
            assert(d.skip(2) =~= doubled(r));
        } else {
            assert(d.skip(1) =~= doubled(r));
        }
        assert(unescaped(d) =~= s);
    }
}

proof fn lemma_closes_behind(line: Seq<char>, j: int, s: Seq<char>)
    requires
        0 <= j,
        j + doubled(s).len() < line.len(),
        line.subrange(j, j + doubled(s).len()) == doubled(s),
        line[j + doubled(s).len()] == '"',
        j + doubled(s).len() + 1 < line.len() ==> line[j + doubled(s).len() + 1] != '"',
    ensures
        closing_quote(line, j) == j + doubled(s).len(),
    decreases s.len(),
{
    let d = doubled(s);
    if s.len() > 0 {
        let c = s[0];
        let r = s.skip(1);
        assert(s =~= seq![c] + r);
        lemma_doubled_front(c, r);
        let step: int = if c == '"' {
            2
        } else {
            1
        };
        assert(line[j] == d[0]);
        if c == '"' {
            assert(line[j + 1] == d[1]);
        }
        assert(doubled(r) =~= line.subrange(j + step, j + step + doubled(r).len())) by {
            assert(d.skip(step) =~= doubled(r));
            assert(line.subrange(j, j + d.len()).skip(step) =~= line.subrange(
                j + step,
                j + d.len(),
            ));
        }
        lemma_closes_behind(line, j + step, r);
    }
}

/// A text that no quotes are needed for holds no comma, quote or line break.
proof fn lemma_plain(s: Seq<char>)
    requires
        !needs_quotes(s),
    ensures
        forall|k: int|
            0 <= k < s.len() ==> #[trigger] s[k] != ',' && s[k] != '"' && s[k] != '\n' && s[k]
                != '\r',
{
}

/// An encoded field standing in a line, a comma or the end behind it, is read
/// back as the text it encodes.
proof fn lemma_field_back(line: Seq<char>, i: int, f: FieldV)
    requires
        0 <= i,
        i + encoded_cell(f).len() <= line.len(),
        line.subrange(i, i + encoded_cell(f).len()) == encoded_cell(f),
        i + encoded_cell(f).len() < line.len() ==> line[i + encoded_cell(f).len()] == ',',
        f is Num ==> !needs_quotes(f.text()),
    ensures
        field_text(line, i) == f.text(),
        field_end(line, i) == i + encoded_cell(f).len(),
{
    let e = encoded_cell(f);
    let s = f.text();
    if needs_quotes(s) {
        let d = doubled(s);
        assert(e == seq!['"'] + d + seq!['"']);
        assert(line[i] == e[0]);
        assert(line[i + 1 + d.len()] == e[1 + d.len() as int]);
        assert(line.subrange(i + 1, i + 1 + d.len()) =~= d) by {
            assert(e.subrange(1, 1 + d.len() as int) =~= d);
            assert(line.subrange(i, i + e.len()).subrange(1, 1 + d.len() as int) =~= line.subrange(
                i + 1,
                i + 1 + d.len(),
            ));
        }
        lemma_closes_behind(line, i + 1, s);
        law_unescape_undoes_doubling(s);
        lemma_next_of_is(line, ',', i + e.len(), i + e.len());
    } else {
        lemma_plain(s);
        assert(e == s);
        assert forall|k: int| i <= k < i + s.len() implies line[k] != ',' by {
            assert(line[k] == s[k - i]);
        }
        if s.len() > 0 {
            assert(line[i] == s[0]);
        }
        lemma_next_of_is(line, ',', i, i + s.len());
    }
}

proof fn lemma_fields_back(line: Seq<char>, i: int, row: Seq<FieldV>)
    requires
        0 <= i <= line.len(),
        encodable_row(row),
        line.skip(i) == joined(row.map_values(|f: FieldV| encoded_cell(f)), seq![',']),
    ensures
        i == line.len() ==> row.len() == 1 && row[0].text().len() == 0,
        fields_from(line, i) == row_texts(row),
    decreases row.len(),
{
    let cells = row.map_values(|f: FieldV| encoded_cell(f));
    let e = cells[0];
    assert(e == encoded_cell(row[0]));
    let tail = line.skip(i);
    assert(encodable(row[0]));
    if row.len() == 1 {
        assert(tail == e);
        assert(line.subrange(i, i + e.len()) =~= e);
        lemma_field_back(line, i, row[0]);
        assert(fields_from(line, i) =~= row_texts(row));
        if i == line.len() {
            assert(e.len() == 0);
            assert(!needs_quotes(row[0].text()));
        }
    } else {
        let rest = row.drop_first();
        lemma_joined_front(cells, seq![',']);
        assert(cells.drop_first() =~= rest.map_values(|f: FieldV| encoded_cell(f)));
        let n = i + e.len();
        let behind = joined(cells.drop_first(), seq![',']);
        assert(tail == e + seq![','] + behind);
        assert(tail.len() == e.len() + 1 + behind.len());
        assert(line.subrange(i, n) =~= e) by {
            assert(tail.take(e.len() as int) =~= e);
            assert(line.subrange(i, n) =~= tail.take(e.len() as int));
        }
        assert(line[n] == tail[e.len() as int]);
        assert(line.skip(n + 1) =~= behind) by {
            assert(tail.skip(e.len() as int + 1) =~= behind);
            assert(line.skip(n + 1) =~= tail.skip(e.len() as int + 1));
        }
        lemma_field_back(line, i, row[0]);
        assert forall|k: int| 0 <= k < rest.len() implies encodable(#[trigger] rest[k]) by {
            assert(rest[k] == row[k + 1]);
        }
        lemma_fields_back(line, n + 1, rest);
        assert(row_texts(row) =~= seq![row[0].text()] + row_texts(rest));
        if n + 1 == line.len() {
            assert(rest[0].text() =~= seq![]);
            assert(row_texts(rest) =~= seq![seq![]]);
            assert(fields_from(line, i) =~= row_texts(row));
        } else {
            assert(fields_from(line, i) =~= row_texts(row));
        }
    }
}

proof fn lemma_doubled_has_no_newline(s: Seq<char>)
    requires
        one_line(s),
    ensures
        one_line(doubled(s)),
    decreases s.len(),
{
    if s.len() > 0 {
        let r = s.drop_last();
        assert forall|i: int| 0 <= i < r.len() implies #[trigger] r[i] != '\n' by {
            assert(r[i] == s[i]);
        }
        lemma_doubled_has_no_newline(r);
        assert(s[s.len() - 1] != '\n');
    }
}

proof fn lemma_line_end(row: Seq<FieldV>)
    requires
        encodable_row(row),
    ensures
        ({
            let line = joined(row.map_values(|f: FieldV| encoded_cell(f)), seq![',']);
            line.len() > 0 ==> line.last() != '\r'
        }),
{
    let cells = row.map_values(|f: FieldV| encoded_cell(f));
    let f = row.last();
    let e = cells.last();
    let line = joined(cells, seq![',']);
    assert(encodable(row[row.len() - 1]));
    assert(e == encoded_cell(f));
    if e.len() > 0 {
        if needs_quotes(f.text()) {
            assert(e.last() == '"');
        } else {
            lemma_plain(f.text());
            assert(e.last() == f.text()[f.text().len() - 1]);
        }
    }
    if row.len() > 1 {
        assert(line == joined(cells.drop_last(), seq![',']) + seq![','] + e);
        if e.len() > 0 {
            assert(line.last() == e.last());
        } else {
            assert(line.last() == ',');
        }
    }
}

proof fn lemma_encoded_line(row: Seq<FieldV>)
    requires
        writable_row(row),
    ensures
        one_line(joined(row.map_values(|f: FieldV| encoded_cell(f)), seq![','])),
    decreases row.len(),
{
    let cells = row.map_values(|f: FieldV| encoded_cell(f));
    let f = row.last();
    let e = cells.last();
    let line = joined(cells, seq![',']);
    assert(writable(row[row.len() - 1]));
    assert(e == encoded_cell(f));
    assert(one_line(e)) by {
        if needs_quotes(f.text()) {
            lemma_doubled_has_no_newline(f.text());
        }
    }
    if row.len() > 1 {
        let front = row.drop_last();
        assert forall|k: int| 0 <= k < front.len() implies writable(#[trigger] front[k]) by {
            assert(front[k] == row[k]);
        }
        lemma_encoded_line(front);
        assert(cells.drop_last() =~= front.map_values(|f: FieldV| encoded_cell(f)));
        let head = joined(cells.drop_last(), seq![',']);
        assert(line == head + seq![','] + e);
        assert forall|k: int| 0 <= k < line.len() implies #[trigger] line[k] != '\n' by {
            if k < head.len() {
                assert(line[k] == head[k]);
            } else if k > head.len() {
                assert(line[k] == e[k - head.len() - 1]);
            }
        }
    }
}

/// A row written as a line and read back gives the texts of its cells.
pub proof fn law_line_round_trip(row: Seq<FieldV>)
    requires
        encodable_row(row),
    ensures
        line_fields(row_line(row).drop_last()) == row_texts(row),
{
    let line = joined(row.map_values(|f: FieldV| encoded_cell(f)), seq![',']);
    assert(row_line(row).drop_last() =~= line);
    lemma_line_end(row);
    assert(line.skip(0) =~= line);
    lemma_fields_back(line, 0, row);
}

proof fn lemma_next_of_concat(a: Seq<char>, b: Seq<char>, c: char, i: int)
    requires
        0 <= i <= a.len(),
    ensures
        next_of(a, c, i) < a.len() ==> next_of(a + b, c, i) == next_of(a, c, i),
        next_of(b, c, 0) + a.len() == next_of(a + b, c, a.len() as int),
{
    lemma_next_of(a, c, i);
    lemma_next_of(b, c, 0);
    if next_of(a, c, i) < a.len() {
        lemma_next_of_is(a + b, c, i, next_of(a, c, i));
    }
    let n = next_of(b, c, 0);
    assert forall|k: int| a.len() <= k < a.len() + n implies (a + b)[k] != c by {
        assert((a + b)[k] == b[k - a.len()]);
    }
    lemma_next_of_is(a + b, c, a.len() as int, a.len() + n);
}

proof fn lemma_rows_shift(a: Seq<char>, b: Seq<char>, i: int)
    requires
        0 <= i <= b.len(),
    ensures
        rows_from(a + b, a.len() + i) == rows_from(b, i),
    decreases b.len() - i,
{
    let s = a + b;
    let n = next_of(b, '\n', i);
    lemma_next_of(b, '\n', i);
    assert forall|k: int| a.len() + i <= k < a.len() + n implies s[k] != '\n' by {
        assert(s[k] == b[k - a.len()]);
    }
    lemma_next_of_is(s, '\n', a.len() + i, a.len() + n);
    if i < b.len() {
        if n >= b.len() {
            assert(s.subrange(a.len() + i, s.len() as int) =~= b.subrange(i, b.len() as int));
        } else {
            assert(s.subrange(a.len() + i, a.len() + n) =~= b.subrange(i, n));
            lemma_rows_shift(a, b, n + 1);
        }
    }
}

proof fn lemma_rows_concat(a: Seq<char>, b: Seq<char>, i: int)
    requires
        0 <= i <= a.len(),
        a.len() > 0 ==> a.last() == '\n',
    ensures
        rows_from(a + b, i) == rows_from(a, i) + rows_from(b, 0),
    decreases a.len() - i,
{
    if i >= a.len() {
        lemma_rows_shift(a, b, 0);
        assert(rows_from(a + b, i) =~= rows_from(a, i) + rows_from(b, 0));
    } else {
        let n = next_of(a, '\n', i);
        lemma_next_of(a, '\n', i);
        assert(n < a.len()) by {
            if n >= a.len() {
                assert(a[a.len() - 1] == '\n');
            }
        }
        lemma_next_of_concat(a, b, '\n', i);
        assert((a + b).subrange(i, n) =~= a.subrange(i, n));
        lemma_rows_concat(a, b, n + 1);
        assert(rows_from(a + b, i) =~= rows_from(a, i) + rows_from(b, 0));
    }
}

/// Input cut at a line boundary parses to the same rows as the whole: chunks
/// and shards can be parsed apart from each other.
pub proof fn law_chunks_parse_apart(a: Seq<char>, b: Seq<char>)
    requires
        a.len() > 0 ==> a.last() == '\n',
    ensures
        chunk_rows(a + b) == chunk_rows(a) + chunk_rows(b),
{
    lemma_rows_concat(a, b, 0);
}

/// Rows written as CSV and read back give the texts of their cells.
pub proof fn law_rows_round_trip(rows: Seq<Seq<FieldV>>)
    requires
        forall|i: int| 0 <= i < rows.len() ==> writable_row(#[trigger] rows[i]),
    ensures
        chunk_rows(rows_text(rows)) == rows.map_values(|r: Seq<FieldV>| row_texts(r)),
        rows.len() > 0 ==> rows_text(rows).len() > 0 && rows_text(rows).last() == '\n',
    decreases rows.len(),
{
    if rows.len() == 0 {
        assert(chunk_rows(rows_text(rows)) =~= rows.map_values(|r: Seq<FieldV>| row_texts(r)));
    } else {
        let front = rows.drop_last();
        let row = rows.last();
        assert(writable_row(rows[rows.len() - 1]));
        assert forall|i: int| 0 <= i < front.len() implies writable_row(#[trigger] front[i]) by {
            assert(front[i] == rows[i]);
        }
        law_rows_round_trip(front);
        let line = row_line(row);
        law_chunks_parse_apart(rows_text(front), line);
        assert(encodable_row(row)) by {
            assert forall|i: int| 0 <= i < row.len() implies encodable(#[trigger] row[i]) by {
                assert(writable(row[i]));
            }
        }
        law_line_round_trip(row);
        lemma_encoded_line(row);
        let body = line.drop_last();
        assert(body =~= joined(row.map_values(|f: FieldV| encoded_cell(f)), seq![',']));
        assert forall|k: int| 0 <= k < line.len() - 1 implies line[k] != '\n' by {
            assert(line[k] == body[k]);
        }
        lemma_next_of_is(line, '\n', 0, line.len() - 1);
        assert(line.subrange(0, line.len() - 1) =~= body);
        assert(rows_from(line, line.len() as int) =~= seq![]);
        assert(chunk_rows(line) =~= seq![row_texts(row)]);
        assert(rows.map_values(|r: Seq<FieldV>| row_texts(r)) =~= front.map_values(
            |r: Seq<FieldV>| row_texts(r),
        ).push(row_texts(row)));
        assert(chunk_rows(rows_text(rows)) =~= rows.map_values(|r: Seq<FieldV>| row_texts(r)));
    }
}

/// Two rows are written as the same line only when their cells show the same texts,
/// newlines in them included: a line can stand for a row as a key.
pub proof fn law_lines_tell_rows_apart(a: Seq<FieldV>, b: Seq<FieldV>)
    requires
        encodable_row(a),
        encodable_row(b),
        row_line(a) == row_line(b),
    ensures
        row_texts(a) == row_texts(b),
{
    law_line_round_trip(a);
    law_line_round_trip(b);
}

/// The text of rows is the text of the first ones, then that of the others.
pub proof fn lemma_rows_text_concat(a: Seq<Seq<FieldV>>, b: Seq<Seq<FieldV>>)
    ensures
        rows_text(a + b) == rows_text(a) + rows_text(b),
    decreases b.len(),
{
    if b.len() == 0 {
        assert(a + b =~= a);
        assert(rows_text(a) + rows_text(b) =~= rows_text(a));
    } else {
        assert((a + b).drop_last() =~= a + b.drop_last());
        lemma_rows_text_concat(a, b.drop_last());
        assert(rows_text(a + b) =~= rows_text(a) + rows_text(b));
    }
}

} // verus!
