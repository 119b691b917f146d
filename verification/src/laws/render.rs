//! What `fmt` lays out, and what `color` paints.

use crate::color::{Style, plain_style};
use crate::csv::{encoded, encoded_cell, row_line, rows_text, text_rows};
use crate::field::{FieldV, NumV, text_row};
use crate::outside::display_width;
use crate::render::{
    aligned, aligned_cell, aligned_cells, cell_text, col_numeric, col_width, colored_cells,
    colored_csv, columns_of, law_painting_shows_only_in_escapes, no_escapes, style_of_cell,
    unescaped_text,
};
use crate::text::{joined, repeated, trimmed};
use vstd::prelude::*;

verus! {

/// Whether `w` is the width of column `c`: no cell of it is wider, and one is as wide,
/// unless no row has such a cell.
pub open spec fn is_width(rows: Seq<Seq<Seq<char>>>, c: int, w: nat) -> bool {
    &&& forall|r: int|
        #![trigger rows[r]]
        0 <= r < rows.len() && c < rows[r].len() ==> display_width(rows[r][c]) <= w
    &&& w > 0 ==> exists|r: int|
        #![trigger rows[r]]
        0 <= r < rows.len() && c < rows[r].len() && display_width(rows[r][c]) == w
}

proof fn lemma_col_width(rows: Seq<Seq<Seq<char>>>, c: int, n: int)
    requires
        0 <= c,
        0 <= n <= rows.len(),
    ensures
        forall|r: int|
            #![trigger rows[r]]
            0 <= r < n && c < rows[r].len() ==> display_width(rows[r][c]) <= col_width(rows, c, n),
        col_width(rows, c, n) > 0 ==> exists|r: int|
            #![trigger rows[r]]
            0 <= r < n && c < rows[r].len() && display_width(rows[r][c]) == col_width(rows, c, n),
    decreases n,
{
    if n > 0 {
        lemma_col_width(rows, c, n - 1);
        let last = rows[n - 1];
        if c < last.len() && display_width(last[c]) as nat > col_width(rows, c, n - 1) {
            assert(display_width(rows[n - 1][c]) == col_width(rows, c, n));
        } else if col_width(rows, c, n) > 0 {
            let r = choose|r: int|
                #![trigger rows[r]]
                0 <= r < n - 1 && c < rows[r].len() && display_width(rows[r][c]) == col_width(
                    rows,
                    c,
                    n - 1,
                );
            assert(display_width(rows[r][c]) == col_width(rows, c, n));
        }
    }
}

/// A column is as wide as its widest cell: none is wider, and one is as wide.
pub proof fn law_a_column_is_as_wide_as_its_widest_cell(rows: Seq<Seq<Seq<char>>>, c: int)
    requires
        0 <= c,
    ensures
        is_width(rows, c, col_width(rows, c, rows.len() as int)),
        forall|w: nat| #[trigger] is_width(rows, c, w) ==> w == col_width(
            rows,
            c,
            rows.len() as int,
        ),
{
    let n = rows.len() as int;
    let own = col_width(rows, c, n);
    lemma_col_width(rows, c, n);
    assert forall|w: nat| #[trigger] is_width(rows, c, w) implies w == own by {
        if w > own {
            let r = choose|r: int|
                #![trigger rows[r]]
                0 <= r < rows.len() && c < rows[r].len() && display_width(rows[r][c]) == w;
            assert(display_width(rows[r][c]) <= own);
        }
        if own > w {
            let r = choose|r: int|
                #![trigger rows[r]]
                0 <= r < n && c < rows[r].len() && display_width(rows[r][c]) == own;
            assert(display_width(rows[r][c]) <= w);
        }
    }
}

/// Whether the column is one of numbers: every cell below the header is blank or reads
/// as a number, and not all of them are blank.
pub open spec fn number_column(
    rows: Seq<Seq<Seq<char>>>,
    c: int,
    readings: Map<Seq<char>, NumV>,
) -> bool {
    &&& forall|r: int|
        #![trigger rows[r]]
        1 <= r < rows.len() && c < rows[r].len() && trimmed(rows[r][c]).len() > 0
            ==> readings.dom().contains(trimmed(rows[r][c]))
    &&& exists|r: int|
        #![trigger rows[r]]
        1 <= r < rows.len() && c < rows[r].len() && trimmed(rows[r][c]).len() > 0
}

proof fn lemma_number_column(rows: Seq<Seq<Seq<char>>>, c: int, readings: Map<Seq<char>, NumV>)
    requires
        0 <= c,
    ensures
        number_column(rows, c, readings) <==> col_numeric(rows, c, readings),
{
    assert(trimmed(Seq::<char>::empty()).len() == 0);
    if number_column(rows, c, readings) {
        let r = choose|r: int|
            #![trigger rows[r]]
            1 <= r < rows.len() && c < rows[r].len() && trimmed(rows[r][c]).len() > 0;
        assert(trimmed(cell_text(rows, r, c)).len() > 0);
        assert forall|r: int| 1 <= r < rows.len() implies FieldV::Str(
            #[trigger] cell_text(rows, r, c),
        ).num_soft(readings) is Some by {
            assert(rows[r].len() >= 0);
        }
    }
    if col_numeric(rows, c, readings) {
        let r = choose|r: int|
            1 <= r < rows.len() && trimmed(#[trigger] cell_text(rows, r, c)).len() > 0;
        assert(trimmed(rows[r][c]).len() > 0);
        assert forall|r: int|
            #![trigger rows[r]]
            1 <= r < rows.len() && c < rows[r].len() && trimmed(rows[r][c]).len()
                > 0 implies readings.dom().contains(trimmed(rows[r][c])) by {
            assert(FieldV::Str(cell_text(rows, r, c)).num_soft(readings) is Some);
        }
    }
}

/// A text with spaces around it.
pub struct Piece {
    pub before: nat,
    pub text: Seq<char>,
    pub behind: nat,
}

/// The pieces one behind the other.
pub open spec fn flat(pieces: Seq<Piece>) -> Seq<char>
    decreases pieces.len(),
{
    if pieces.len() == 0 {
        seq![]
    } else {
        let p = pieces.last();
        flat(pieces.drop_last()) + repeated(' ', p.before) + p.text + repeated(' ', p.behind)
    }
}

/// The columns of a terminal that the pieces before `n` take up.
pub open spec fn taken(pieces: Seq<Piece>, n: int) -> nat
    decreases n,
{
    if n <= 0 {
        0
    } else {
        taken(pieces, n - 1) + pieces[n - 1].before + display_width(pieces[n - 1].text) as nat
            + pieces[n - 1].behind
    }
}

/// Where column `c` begins: behind the columns before it, with two spaces behind each.
pub open spec fn edge(widths: Seq<nat>, c: int) -> nat
    decreases c,
{
    if c <= 0 {
        0
    } else {
        edge(widths, c - 1) + widths[c - 1] + 2
    }
}

/// Whether the pieces are the cells of row `r`, each in its column: a text begins
/// where the column does, and a number ends where the column ends.
pub open spec fn lined_up(
    rows: Seq<Seq<Seq<char>>>,
    widths: Seq<nat>,
    readings: Map<Seq<char>, NumV>,
    r: int,
    pieces: Seq<Piece>,
    n: int,
) -> bool {
    &&& pieces.len() == n
    &&& forall|c: int|
        0 <= c < n ==> {
            let p = #[trigger] pieces[c];
            let at = taken(pieces, c) + p.before;
            &&& p.text == rows[r][c]
            &&& if number_column(rows, c, readings) {
                at + display_width(p.text) == edge(widths, c) + widths[c]
            } else {
                at == edge(widths, c)
            }
        }
}

proof fn lemma_taken(pieces: Seq<Piece>, p: Piece, n: int)
    requires
        0 <= n <= pieces.len(),
    ensures
        taken(pieces.push(p), n) == taken(pieces, n),
    decreases n,
{
    if n > 0 {
        lemma_taken(pieces, p, n - 1);
    }
}

proof fn lemma_line_up(
    rows: Seq<Seq<Seq<char>>>,
    widths: Seq<nat>,
    readings: Map<Seq<char>, NumV>,
    r: int,
    n: int,
) -> (pieces: Seq<Piece>)
    requires
        0 <= r < rows.len(),
        0 <= n <= rows[r].len() <= widths.len(),
        forall|c: int| 0 <= c < widths.len() ==> is_width(rows, c, #[trigger] widths[c]),
    ensures
        lined_up(rows, widths, readings, r, pieces, n),
        aligned_cells(rows, None, readings, r, n) == flat(pieces),
        n > 0 && n < rows[r].len() ==> taken(pieces, n) + 2 == edge(widths, n),
        n == 0 ==> taken(pieces, n) == 0,
    decreases n,
{
    if n == 0 {
        Seq::empty()
    } else {
        let front = lemma_line_up(rows, widths, readings, r, n - 1);
        let c = n - 1;
        let text = rows[r][c];
        let w = widths[c];
        assert(is_width(rows, c, w));
        law_a_column_is_as_wide_as_its_widest_cell(rows, c);
        lemma_number_column(rows, c, readings);
        assert(display_width(text) <= w);
        let gap: nat = if c > 0 {
            2
        } else {
            0
        };
        let pad = (w - display_width(text)) as nat;
        let p = if number_column(rows, c, readings) {
            Piece { before: gap + pad, text, behind: 0 }
        } else if c != rows[r].len() - 1 {
            Piece { before: gap, text, behind: pad }
        } else {
            Piece { before: gap, text, behind: 0 }
        };
        let pieces = front.push(p);
        assert(pieces.drop_last() =~= front);
        let one = aligned_cell(rows, None, readings, r, c);
        assert(one =~= repeated(' ', p.before) + p.text + repeated(' ', p.behind)) by {
            reveal_strlit("  ");
        }
        assert(flat(pieces) =~= flat(front) + one);
        lemma_taken(front, p, c);
        assert forall|k: int| 0 <= k < n implies {
            let q = #[trigger] pieces[k];
            let at = taken(pieces, k) + q.before;
            &&& q.text == rows[r][k]
            &&& if number_column(rows, k, readings) {
                at + display_width(q.text) == edge(widths, k) + widths[k]
            } else {
                at == edge(widths, k)
            }
        } by {
            if k < c {
                assert(pieces[k] == front[k]);
                lemma_taken(front, p, k);
            }
        }
        pieces
    }
}

/// The columns of a table line up: on every line each text begins where its column
/// does, and each number ends where its column ends, a column being as wide as its
/// widest cell, with two spaces between columns.
pub proof fn law_columns_line_up(
    rows: Seq<Seq<Seq<char>>>,
    widths: Seq<nat>,
    readings: Map<Seq<char>, NumV>,
    r: int,
) -> (pieces: Seq<Piece>)
    requires
        0 <= r < rows.len(),
        rows[r].len() <= widths.len(),
        forall|c: int| 0 <= c < widths.len() ==> is_width(rows, c, #[trigger] widths[c]),
    ensures
        lined_up(rows, widths, readings, r, pieces, rows[r].len() as int),
        aligned_cells(rows, None, readings, r, rows[r].len() as int) == flat(pieces),
{
    lemma_line_up(rows, widths, readings, r, rows[r].len() as int)
}

/// A table has a line for each row, in order.
pub proof fn law_a_table_has_a_line_for_each_row(
    rows: Seq<Seq<Seq<char>>>,
    readings: Map<Seq<char>, NumV>,
    n: int,
) -> (lines: Seq<Seq<char>>)
    requires
        0 <= n <= rows.len(),
    ensures
        lines.len() == n,
        forall|r: int|
            0 <= r < n ==> #[trigger] lines[r] == aligned_cells(
                rows,
                None,
                readings,
                r,
                rows[r].len() as int,
            ),
        aligned(rows, None, readings, n) == lines.map_values(
            |l: Seq<char>| l.push('\n'),
        ).flatten(),
    decreases n,
{
    let f = |l: Seq<char>| l.push('\n');
    if n == 0 {
        let none = Seq::<Seq<char>>::empty();
        assert(none.map_values(f) =~= Seq::<Seq<char>>::empty());
        none
    } else {
        let front = law_a_table_has_a_line_for_each_row(rows, readings, n - 1);
        let line = aligned_cells(rows, None, readings, n - 1, rows[n - 1].len() as int);
        let lines = front.push(line);
        reveal_strlit("\n");
        assert(lines.map_values(f) =~= front.map_values(f).push(f(line)));
        front.map_values(f).lemma_flatten_push(f(line));
        assert(aligned(rows, None, readings, n) =~= aligned(rows, None, readings, n - 1) + f(line));
        lines
    }
}

/// A table has as many columns as its longest row.
pub proof fn law_a_table_has_the_columns_of_its_longest_row(rows: Seq<Seq<Seq<char>>>, n: int)
    requires
        0 <= n <= rows.len(),
    ensures
        forall|r: int| 0 <= r < n ==> (#[trigger] rows[r]).len() <= columns_of(rows, n),
        n > 0 ==> exists|r: int| 0 <= r < n && (#[trigger] rows[r]).len() == columns_of(rows, n),
        n == 0 ==> columns_of(rows, n) == 0,
    decreases n,
{
    if n > 0 {
        law_a_table_has_the_columns_of_its_longest_row(rows, n - 1);
        if columns_of(rows, n - 1) >= rows[n - 1].len() && n > 1 {
            let r = choose|r: int|
                0 <= r < n - 1 && (#[trigger] rows[r]).len() == columns_of(rows, n - 1);
            assert(rows[r].len() == columns_of(rows, n));
        } else {
            assert(rows[n - 1].len() == columns_of(rows, n));
        }
    }
}

proof fn lemma_uncolored_cells(rows: Seq<Seq<Seq<char>>>, r: int, n: int)
    requires
        0 <= r < rows.len(),
        0 <= n <= rows[r].len(),
    ensures
        colored_cells(rows, None, r, n) == joined(
            text_row(rows[r]).take(n).map_values(|f: FieldV| encoded_cell(f)),
            seq![','],
        ),
    decreases n,
{
    let f = |f: FieldV| encoded_cell(f);
    let all = text_row(rows[r]).take(n).map_values(f);
    reveal_strlit(",");
    assert(","@ =~= seq![',']);
    if n > 0 {
        lemma_uncolored_cells(rows, r, n - 1);
        let before = text_row(rows[r]).take(n - 1).map_values(f);
        assert(all.drop_last() =~= before);
        assert(all.last() == encoded(rows[r][n - 1]));
        assert(style_of_cell(None, r, n - 1).painted(encoded(rows[r][n - 1])) == encoded(
            rows[r][n - 1],
        ));
        if n == 1 {
            assert(colored_cells(rows, None, r, n) =~= all[0]);
        }
    }
}

/// Without colour, coloured CSV is plain CSV.
pub proof fn law_uncolored_csv_is_plain(rows: Seq<Seq<Seq<char>>>, n: int)
    requires
        0 <= n <= rows.len(),
    ensures
        colored_csv(rows, None, n) == rows_text(text_rows(rows.take(n))),
    decreases n,
{
    let all = text_rows(rows.take(n));
    if n > 0 {
        law_uncolored_csv_is_plain(rows, n - 1);
        let row = text_row(rows[n - 1]);
        assert(all.drop_last() =~= text_rows(rows.take(n - 1)));
        assert(all.last() == row);
        lemma_uncolored_cells(rows, n - 1, rows[n - 1].len() as int);
        assert(row.take(rows[n - 1].len() as int) =~= row);
        reveal_strlit("\n");
        assert(colored_csv(rows, None, n) =~= colored_csv(rows, None, n - 1) + row_line(row));
    }
}

proof fn lemma_unpainted_cells(
    rows: Seq<Seq<Seq<char>>>,
    styles: Option<Seq<Seq<Style>>>,
    r: int,
    n: int,
    rest: Seq<char>,
)
    requires
        0 <= r < rows.len(),
        0 <= n <= rows[r].len(),
        forall|c: int| 0 <= c < rows[r].len() ==> no_escapes(encoded(#[trigger] rows[r][c])),
    ensures
        unescaped_text(colored_cells(rows, styles, r, n) + rest) == colored_cells(rows, None, r, n)
            + unescaped_text(rest),
    decreases n,
{
    if n > 0 {
        let text = encoded(rows[r][n - 1]);
        let style = style_of_cell(styles, r, n - 1);
        let comma = if n > 1 {
            ","@
        } else {
            Seq::<char>::empty()
        };
        reveal_strlit(",");
        let tail = style.painted(text) + rest;
        assert(no_escapes(text));
        law_painting_shows_only_in_escapes(style, text, rest);
        assert(no_escapes(comma));
        law_painting_shows_only_in_escapes(plain_style(), comma, tail);
        lemma_unpainted_cells(rows, styles, r, n - 1, comma + tail);
        assert(colored_cells(rows, styles, r, n) + rest =~= colored_cells(rows, styles, r, n - 1)
            + (comma + tail));
        let p = colored_cells(rows, None, r, n - 1);
        assert(style_of_cell(None, r, n - 1).painted(text) == text);
        assert(p + (comma + (text + unescaped_text(rest))) =~= colored_cells(rows, None, r, n)
            + unescaped_text(rest));
    } else {
        assert(colored_cells(rows, styles, r, n) + rest =~= rest);
        assert(colored_cells(rows, None, r, n) + unescaped_text(rest) =~= unescaped_text(rest));
    }
}

/// Coloured CSV without its escapes is the CSV.
pub proof fn law_color_leaves_the_csv_alone(
    rows: Seq<Seq<Seq<char>>>,
    styles: Option<Seq<Seq<Style>>>,
    n: int,
    rest: Seq<char>,
)
    requires
        0 <= n <= rows.len(),
        forall|r: int, c: int|
            #![trigger rows[r][c]]
            0 <= r < rows.len() && 0 <= c < rows[r].len() ==> no_escapes(encoded(rows[r][c])),
    ensures
        unescaped_text(colored_csv(rows, styles, n) + rest) == colored_csv(rows, None, n)
            + unescaped_text(rest),
    decreases n,
{
    if n > 0 {
        let m = rows[n - 1].len() as int;
        let cells = colored_cells(rows, styles, n - 1, m);
        let before = colored_csv(rows, styles, n - 1);
        reveal_strlit("\n");
        let tail = "\n"@ + rest;
        assert(no_escapes("\n"@));
        law_painting_shows_only_in_escapes(plain_style(), "\n"@, rest);
        lemma_unpainted_cells(rows, styles, n - 1, m, tail);
        law_color_leaves_the_csv_alone(rows, styles, n - 1, cells + tail);
        assert(colored_csv(rows, styles, n) + rest =~= before + (cells + tail));
        let (p, q) = (colored_csv(rows, None, n - 1), colored_cells(rows, None, n - 1, m));
        assert(p + (q + ("\n"@ + unescaped_text(rest))) =~= colored_csv(rows, None, n)
            + unescaped_text(rest));
    } else {
        assert(colored_csv(rows, styles, n) + rest =~= rest);
        assert(colored_csv(rows, None, n) + unescaped_text(rest) =~= unescaped_text(rest));
    }
}

} // verus!
