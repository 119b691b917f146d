//! How CSV is read and written.

use crate::csv::{
    chunk_rows, closing_quote, doubled, encoded, encoded_cell, field_end, field_text,
    law_line_round_trip, line_fields, needs_quotes, row_line, rows_from, unescaped, without_cr,
};
use crate::field::{FieldV, row_texts, text_row};
use crate::text::{joined, lemma_next_of, next_of};
use vstd::prelude::*;

verus! {

/// Whether a text can stand in a line as it is: it has no comma, quote or line break.
pub open spec fn plain(s: Seq<char>) -> bool {
    forall|i: int|
        0 <= i < s.len() ==> #[trigger] s[i] != ',' && s[i] != '"' && s[i] != '\n' && s[i] != '\r'
}

/// A text is written as it is where it can stand so, and else in quotes, each quote in it
/// doubled.
pub proof fn law_a_text_is_quoted_where_it_has_to_be(s: Seq<char>)
    ensures
        plain(s) ==> encoded(s) == s,
        !plain(s) ==> encoded(s) == seq!['"'] + doubled(s) + seq!['"'],
{
    if needs_quotes(s) {
        let i = choose|i: int|
            0 <= i < s.len() && (#[trigger] s[i] == ',' || s[i] == '"' || s[i] == '\n' || s[i]
                == '\r');
        assert(!plain(s));
    }
}

/// Doubling goes character by character: a quote becomes two, and anything else stays.
pub proof fn law_quotes_are_doubled_one_by_one(a: Seq<char>, c: char, b: Seq<char>)
    ensures
        doubled(seq![]) == Seq::<char>::empty(),
        doubled(a.push(c)) == doubled(a) + (if c == '"' {
            seq!['"', '"']
        } else {
            seq![c]
        }),
        doubled(a + b) == doubled(a) + doubled(b),
    decreases b.len(),
{
    assert(a.push(c).drop_last() =~= a);
    assert(doubled(a.push(c)) =~= doubled(a) + (if c == '"' {
        seq!['"', '"']
    } else {
        seq![c]
    }));
    if b.len() > 0 {
        law_quotes_are_doubled_one_by_one(a, c, b.drop_last());
        assert((a + b).drop_last() =~= a + b.drop_last());
        assert(doubled(a + b) =~= doubled(a) + doubled(b));
    } else {
        assert(a + b =~= a);
        assert(doubled(a) + doubled(b) =~= doubled(a));
    }
}

/// A row is written as its cells with a comma between each two and a newline behind: a
/// number as it is shown, a text quoted where it has to be.
pub proof fn law_a_row_is_a_line_of_cells(row: Seq<FieldV>) -> (cells: Seq<Seq<char>>)
    ensures
        row_line(row) == joined(cells, seq![',']) + seq!['\n'],
        cells.len() == row.len(),
        forall|i: int|
            0 <= i < row.len() ==> #[trigger] cells[i] == match row[i] {
                FieldV::Num(n) => n.text,
                FieldV::Str(s) => if plain(s) {
                    s
                } else {
                    seq!['"'] + doubled(s) + seq!['"']
                },
            },
{
    let cells = row.map_values(|f: FieldV| encoded_cell(f));
    assert forall|i: int| 0 <= i < row.len() implies #[trigger] cells[i] == (match row[i] {
        FieldV::Num(n) => n.text,
        FieldV::Str(s) => if plain(s) {
            s
        } else {
            seq!['"'] + doubled(s) + seq!['"']
        },
    }) by {
        if let FieldV::Str(s) = row[i] {
            law_a_text_is_quoted_where_it_has_to_be(s);
        }
    }
    assert(row_line(row) =~= joined(cells, seq![',']) + seq!['\n']);
    cells
}

/// A line without quotes is read as the texts between its commas.
pub proof fn law_a_line_is_read_between_its_commas(cells: Seq<Seq<char>>)
    requires
        cells.len() > 0,
        forall|i: int| 0 <= i < cells.len() ==> plain(#[trigger] cells[i]),
    ensures
        line_fields(joined(cells, seq![','])) == cells,
{
    let row = text_row(cells);
    law_line_round_trip(row);
    let own = law_a_row_is_a_line_of_cells(row);
    assert forall|i: int| 0 <= i < cells.len() implies own[i] == cells[i] by {
        assert(row[i] == FieldV::Str(cells[i]));
    }
    assert(own =~= cells);
    assert(row_line(row).drop_last() =~= joined(cells, seq![',']));
    assert(row_texts(row) =~= cells);
}

proof fn lemma_no_quote(s: Seq<char>)
    requires
        forall|i: int| 0 <= i < s.len() ==> #[trigger] s[i] != '"',
    ensures
        unescaped(s) == s,
    decreases s.len(),
{
    if s.len() > 0 {
        let rest = s.skip(1);
        assert forall|i: int| 0 <= i < rest.len() implies #[trigger] rest[i] != '"' by {
            assert(rest[i] == s[i + 1]);
        }
        lemma_no_quote(rest);
        assert(seq![s[0]] + rest =~= s);
    } else {
        assert(s =~= seq![]);
    }
}

proof fn lemma_closes_at(line: Seq<char>, j: int, q: int)
    requires
        0 <= j <= q <= line.len(),
        forall|k: int| j <= k < q ==> #[trigger] line[k] != '"',
        q < line.len() ==> line[q] == '"' && (q + 1 < line.len() ==> line[q + 1] != '"'),
    ensures
        closing_quote(line, j) == q,
    decreases q - j,
{
    if j < q {
        lemma_closes_at(line, j + 1, q);
    }
}

proof fn lemma_comma_at(line: Seq<char>, i: int, n: int)
    requires
        0 <= i <= n <= line.len(),
        forall|k: int| i <= k < n ==> #[trigger] line[k] != ',',
        n < line.len() ==> line[n] == ',',
    ensures
        next_of(line, ',', i) == n,
{
    lemma_next_of(line, ',', i);
    let m = next_of(line, ',', i);
    if m < n {
        assert(line[m] == ',');
    }
    if n < m {
        assert(line[n] != ',');
    }
}

/// What stands in quotes is read as it is, commas included; what stands between the
/// closing quote and the next comma is dropped.
pub proof fn law_quoted_text_is_read_whole(t: Seq<char>, stray: Seq<char>)
    requires
        forall|i: int| 0 <= i < t.len() ==> #[trigger] t[i] != '"',
        forall|i: int| 0 <= i < stray.len() ==> #[trigger] stray[i] != ',',
        stray.len() > 0 ==> stray[0] != '"' && stray.last() != '\r',
    ensures
        line_fields(seq!['"'] + t + seq!['"'] + stray) == seq![t],
{
    let line = seq!['"'] + t + seq!['"'] + stray;
    let q = 1 + t.len() as int;
    assert(line[q] == '"');
    assert forall|k: int| 1 <= k < q implies #[trigger] line[k] != '"' by {
        assert(line[k] == t[k - 1]);
    }
    if q + 1 < line.len() {
        assert(line[q + 1] == stray[0]);
    }
    assert(without_cr(line) == line) by {
        if stray.len() > 0 {
            assert(line.last() == stray.last());
        } else {
            assert(line.last() == '"');
        }
    }
    lemma_closes_at(line, 1, q);
    assert forall|k: int| q + 1 <= k < line.len() implies #[trigger] line[k] != ',' by {
        assert(line[k] == stray[k - q - 1]);
    }
    lemma_comma_at(line, q + 1, line.len() as int);
    assert(line.subrange(1, q) =~= t);
    lemma_no_quote(t);
    assert(field_text(line, 0) == t);
    assert(field_end(line, 0) == line.len());
}

/// A quote that is never closed runs to the end of the line.
pub proof fn law_an_open_quote_runs_to_the_end(t: Seq<char>)
    requires
        forall|i: int| 0 <= i < t.len() ==> #[trigger] t[i] != '"',
        t.len() > 0 ==> t.last() != '\r',
    ensures
        line_fields(seq!['"'] + t) == seq![t],
{
    let line = seq!['"'] + t;
    assert(without_cr(line) == line) by {
        if t.len() > 0 {
            assert(line.last() == t.last());
        } else {
            assert(line.last() == '"');
        }
    }
    assert forall|k: int| 1 <= k < line.len() implies #[trigger] line[k] != '"' by {
        assert(line[k] == t[k - 1]);
    }
    lemma_closes_at(line, 1, line.len() as int);
    assert(line.subrange(1, line.len() as int) =~= t);
    lemma_no_quote(t);
}

/// A carriage return at the end of a line is no part of it.
pub proof fn law_a_carriage_return_is_dropped(line: Seq<char>)
    requires
        line.len() > 0 ==> line.last() != '\r',
    ensures
        line_fields(line.push('\r')) == line_fields(line),
{
    assert(line.push('\r').drop_last() =~= line);
}

proof fn lemma_rows_shift(a: Seq<char>, b: Seq<char>, i: int)
    requires
        0 <= i <= b.len(),
    ensures
        rows_from(a + b, a.len() + i) == rows_from(b, i),
    decreases b.len() - i,
{
    let s = a + b;
    let n = next_of(b, '\n', i);
    lemma_next_of(b, '\n', i);
    lemma_next_of(s, '\n', a.len() + i);
    let m = next_of(s, '\n', a.len() + i);
    assert(m == a.len() + n) by {
        if m < a.len() + n {
            assert(s[m] == b[m - a.len()]);
        }
        if a.len() + n < m {
            assert(s[a.len() + n] == b[n]);
        }
    }
    if i < b.len() {
        if n < b.len() {
            lemma_rows_shift(a, b, n + 1);
            assert(s.subrange(a.len() + i, m) =~= b.subrange(i, n));
        } else {
            assert(s.subrange(a.len() + i, s.len() as int) =~= b.subrange(i, b.len() as int));
        }
    }
}

/// Text is read line by line: each line is a row, the last one whether a newline ends it
/// or not, and behind a newline at the end there is none.
pub proof fn law_each_line_is_a_row(line: Seq<char>, rest: Seq<char>)
    requires
        forall|i: int| 0 <= i < line.len() ==> #[trigger] line[i] != '\n',
    ensures
        chunk_rows(seq![]) == Seq::<Seq<Seq<char>>>::empty(),
        line.len() > 0 ==> chunk_rows(line) == seq![line_fields(line)],
        chunk_rows(line + seq!['\n'] + rest) == seq![line_fields(line)] + chunk_rows(rest),
{
    let s = line + seq!['\n'] + rest;
    let n = line.len() as int;
    lemma_next_of(line, '\n', 0);
    if line.len() > 0 {
        let m = next_of(line, '\n', 0);
        if m < n {
            assert(line[m] == '\n');
        }
        assert(line.subrange(0, n) =~= line);
    }
    lemma_next_of(s, '\n', 0);
    let m = next_of(s, '\n', 0);
    assert(s[n] == '\n');
    if m < n {
        assert(s[m] == line[m]);
    }
    assert(m == n) by {
        if n < m {
            assert(s[n] != '\n');
        }
    }
    assert(s.subrange(0, n) =~= line);
    let a = line + seq!['\n'];
    assert(a + rest =~= s);
    lemma_rows_shift(a, rest, 0);
}

} // verus!
