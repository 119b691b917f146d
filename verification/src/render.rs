//! Rendering buffered output: colouring cells by the plan's rules, and aligning
//! columns.

use crate::color::{Rgb, Style, layered, plain_style};
use crate::csv::{chunk_rows, encode_field, encoded, parse_chunk, text_rows};
use crate::error::Error;
use crate::field::{
    Field, FieldV, NumV, Rank, Readings, Row, rank, rank_bits, row_view, rows_view, text_row,
};
use crate::outside::{display_width, utf8_fault, utf8_text, vis_width};
use crate::plan::{ColorRule, ColorScope, OutputFormat, Plan, eval_spec};
use crate::text::{cat2, is_blank, push_repeated, repeated, texts, trimmed};
use vstd::prelude::*;
use vstd::utf8::{decode_utf8, valid_utf8};

verus! {

/// Cells as text, row by row.
pub open spec fn grid(rows: Seq<Vec<String>>) -> Seq<Seq<Seq<char>>> {
    rows.map_values(|r: Vec<String>| texts(r@))
}

/// The number of columns of the widest of the first `n` rows.
pub open spec fn columns_of(rows: Seq<Seq<Seq<char>>>, n: int) -> nat
    decreases n,
{
    if n <= 0 {
        0
    } else if columns_of(rows, n - 1) >= rows[n - 1].len() {
        columns_of(rows, n - 1)
    } else {
        rows[n - 1].len()
    }
}

fn column_count(rows: &[Vec<String>]) -> (n: usize)
    ensures
        n == columns_of(grid(rows@), rows@.len() as int),
{
    let mut n: usize = 0;
    let mut i: usize = 0;
    while i < rows.len()
        invariant
            i <= rows@.len(),
            n == columns_of(grid(rows@), i as int),
        decreases rows.len() - i,
    {
        assert(grid(rows@)[i as int].len() == rows@[i as int]@.len());
        if rows[i].len() > n {
            n = rows[i].len();
        }
        i += 1;
    }
    n
}

proof fn lemma_columns_of(rows: Seq<Seq<Seq<char>>>, n: int, r: int)
    requires
        0 <= r < n <= rows.len(),
    ensures
        rows[r].len() <= columns_of(rows, n),
    decreases n,
{
    if r < n - 1 {
        lemma_columns_of(rows, n - 1, r);
    }
}

/// The number in a cell, when it holds one.
pub open spec fn cell_num(
    rows: Seq<Seq<Seq<char>>>,
    r: int,
    c: int,
    readings: Map<Seq<char>, NumV>,
) -> Option<NumV> {
    if 0 <= c < rows[r].len() {
        FieldV::Str(rows[r][c]).num_opt(readings)
    } else {
        None
    }
}

/// The bits of the infinity and of its opposite.
pub const INF: u64 = 0x7ff0_0000_0000_0000;

/// The bits of minus infinity.
pub const NEG_INF: u64 = 0xfff0_0000_0000_0000;

/// The least number of a column, of the data rows before `n`.
pub open spec fn column_low(
    rows: Seq<Seq<Seq<char>>>,
    c: int,
    readings: Map<Seq<char>, NumV>,
    n: int,
) -> u64
    decreases n,
{
    if n <= 1 {
        INF
    } else {
        let before = column_low(rows, c, readings, n - 1);
        match cell_num(rows, n - 1, c, readings) {
            Some(v) => if rank(v.bits, before) == Rank::Before {
                v.bits
            } else {
                before
            },
            None => before,
        }
    }
}

/// The greatest number of a column, of the data rows before `n`.
pub open spec fn column_high(
    rows: Seq<Seq<Seq<char>>>,
    c: int,
    readings: Map<Seq<char>, NumV>,
    n: int,
) -> u64
    decreases n,
{
    if n <= 1 {
        NEG_INF
    } else {
        let before = column_high(rows, c, readings, n - 1);
        match cell_num(rows, n - 1, c, readings) {
            Some(v) => if rank(v.bits, before) == Rank::After {
                v.bits
            } else {
                before
            },
            None => before,
        }
    }
}

/// The bounds of a column that a gradient runs between unless it says otherwise:
/// its least and its greatest number, or zero and one where it has none.
pub open spec fn column_bounds(
    rows: Seq<Seq<Seq<char>>>,
    c: int,
    readings: Map<Seq<char>, NumV>,
) -> (u64, u64) {
    let lo = column_low(rows, c, readings, rows.len() as int);
    let hi = column_high(rows, c, readings, rows.len() as int);
    if rank(lo, hi) == Rank::Before || rank(lo, hi) == Rank::Same {
        (lo, hi)
    } else {
        (0, crate::color::ONE)
    }
}

fn num_in(rows: &[Vec<String>], r: usize, c: usize, readings: &Readings) -> (n: Option<u64>)
    requires
        r < rows@.len(),
    ensures
        n == (match cell_num(grid(rows@), r as int, c as int, readings@) {
            Some(v) => Some(v.bits),
            None => None,
        }),
{
    assert(grid(rows@)[r as int] == texts(rows@[r as int]@));
    if c < rows[r].len() {
        assert(texts(rows@[r as int]@)[c as int] == rows@[r as int]@[c as int]@);
        match Field::Str(rows[r][c].clone()).num_opt(readings) {
            Some(v) => Some(v.bits),
            None => None,
        }
    } else {
        None
    }
}

/// Default gradient bounds: the min/max over the column's *parseable* cells,
/// exactly the cells the gradient will paint. A lone non-numeric cell does not
/// count. Falls back to `0..1` when no cell parses (then nothing is painted
/// anyway).
pub fn column_minmax(rows: &[Vec<String>], pos: usize, readings: &Readings) -> (r: (u64, u64))
    ensures
        r == column_bounds(grid(rows@), pos as int, readings@),
{
    let mut lo: u64 = INF;
    let mut hi: u64 = NEG_INF;
    if rows.len() > 0 {
        let mut i: usize = 1;
        while i < rows.len()
            invariant
                1 <= i <= rows@.len(),
                lo == column_low(grid(rows@), pos as int, readings@, i as int),
                hi == column_high(grid(rows@), pos as int, readings@, i as int),
            decreases rows.len() - i,
        {
            if let Some(v) = num_in(rows, i, pos, readings) {
                if rank_bits(v, lo) == Rank::Before {
                    lo = v;
                }
                if rank_bits(v, hi) == Rank::After {
                    hi = v;
                }
            }
            i += 1;
        }
    }
    let r = rank_bits(lo, hi);
    if r == Rank::Before || r == Rank::Same {
        (lo, hi)
    } else {
        (0, crate::color::ONE)
    }
}

/// Where the values of a gradient lie: for rule `k` and row `r`, the bits of the
/// fraction of the way between the bounds, and the colour mixed there.
pub open spec fn mix_at(mixes: Seq<Vec<(u64, Rgb)>>, k: int, r: int) -> Option<(u64, Rgb)> {
    if 0 <= k < mixes.len() && 0 <= r < mixes[k]@.len() {
        Some(mixes[k]@[r])
    } else {
        None
    }
}

/// The style of a cell under the first `k` rules. The header row is never
/// styled. Each rule layers onto what the earlier ones set. A condition that
/// cannot be decided on a row (a non-numeric cell in a numeric comparison) leaves
/// that row unpainted.
pub open spec fn cell_style(
    rules: Seq<ColorRule>,
    rows: Seq<Seq<Seq<char>>>,
    readings: Map<Seq<char>, NumV>,
    mixes: Seq<Vec<(u64, Rgb)>>,
    r: int,
    c: int,
    k: int,
) -> Style
    decreases k,
{
    if k <= 0 || r == 0 {
        plain_style()
    } else {
        let before = cell_style(rules, rows, readings, mixes, r, c, k - 1);
        match rules[k - 1] {
            ColorRule::Predicate { scope, style, expr } => {
                let here = match scope {
                    ColorScope::Row => true,
                    ColorScope::Cell(col) => col.pos == c,
                };
                if here && eval_spec(expr, text_row(rows[r]), readings) == Ok::<bool, Seq<char>>(
                    true,
                ) {
                    layered(before, style)
                } else {
                    before
                }
            },
            ColorRule::Gradient { col, ramp, bounds } => {
                let (lo, hi) = match bounds {
                    Some((a, b)) => (a.num.bits, b.num.bits),
                    None => column_bounds(rows, col.pos as int, readings),
                };
                match (cell_num(rows, r, c, readings), mix_at(mixes, k - 1, r)) {
                    (Some(_), Some((t, between))) => if col.pos == c {
                        layered(
                            before,
                            Style {
                                fg: Some(
                                    crate::color::Color::Rgb(ramp.color_at(lo, hi, t, between)),
                                ),
                                ..plain_style()
                            },
                        )
                    } else {
                        before
                    },
                    _ => before,
                }
            },
        }
    }
}

fn text_fields(cells: &[String]) -> (row: Row)
    ensures
        row_view(row@) == text_row(texts(cells@)),
{
    let ghost want = text_row(texts(cells@));
    let mut row: Row = Vec::new();
    let mut i: usize = 0;
    while i < cells.len()
        invariant
            i <= cells@.len(),
            want == text_row(texts(cells@)),
            row_view(row@) == want.take(i as int),
        decreases cells.len() - i,
    {
        let ghost before = row_view(row@);
        row.push(Field::Str(cells[i].clone()));
        assert(row_view(row@) =~= before.push(want[i as int]));
        assert(want.take(i + 1) =~= want.take(i as int).push(want[i as int]));
        i += 1;
    }
    assert(want.take(cells@.len() as int) =~= want);
    row
}

/// What a rule paints a row's cells with: `(true, style)` for all of them, or
/// `(false, style)` for one.
fn rule_on_row(
    rule: &ColorRule,
    k: usize,
    rows: &[Vec<String>],
    r: usize,
    bounds: (u64, u64),
    readings: &Readings,
    mixes: &[Vec<(u64, Rgb)>],
) -> (p: Option<(Option<usize>, Style)>)
    requires
        0 < r < rows@.len(),
        rule matches ColorRule::Gradient { col, bounds: given, .. } ==> bounds == (match given {
            Some((a, b)) => (a.num.bits, b.num.bits),
            None => column_bounds(grid(rows@), col.pos as int, readings@),
        }),
    ensures
        match *rule {
            ColorRule::Predicate { scope, style, expr } => if eval_spec(
                expr,
                text_row(grid(rows@)[r as int]),
                readings@,
            ) == Ok::<bool, Seq<char>>(true) {
                p == Some(
                    (
                        match scope {
                            ColorScope::Row => None::<usize>,
                            ColorScope::Cell(c) => Some(c.pos),
                        },
                        style,
                    ),
                )
            } else {
                p is None
            },
            ColorRule::Gradient { col, ramp, .. } => match (
                cell_num(grid(rows@), r as int, col.pos as int, readings@),
                mix_at(mixes@, k as int, r as int),
            ) {
                (Some(_), Some((t, between))) => p == Some(
                    (
                        Some(col.pos),
                        Style {
                            fg: Some(
                                crate::color::Color::Rgb(
                                    ramp.color_at(bounds.0, bounds.1, t, between),
                                ),
                            ),
                            ..plain_style()
                        },
                    ),
                ),
                _ => p is None,
            },
        },
{
    assert(grid(rows@)[r as int] == texts(rows@[r as int]@));
    match rule {
        ColorRule::Predicate { scope, style, expr } => {
            let row = text_fields(rows[r].as_slice());
            let ok = match expr.eval(row.as_slice(), readings) {
                Ok(b) => b,
                Err(_) => false,
            };
            if ok {
                let at: Option<usize> = match scope {
                    ColorScope::Row => None,
                    ColorScope::Cell(c) => Some(c.pos),
                };
                Some((at, *style))
            } else {
                None
            }
        },
        ColorRule::Gradient { col, ramp, .. } => {
            if num_in(rows, r, col.pos, readings).is_some() && k < mixes.len() && r < mixes[k].len() {
                let (t, between) = mixes[k][r];
                Some((Some(col.pos), ramp.at(bounds.0, bounds.1, t, between)))
            } else {
                None
            }
        },
    }
}

/// The style of row `r`, cell by cell, under the first `k` rules.
pub open spec fn row_styles(
    rules: Seq<ColorRule>,
    rows: Seq<Seq<Seq<char>>>,
    readings: Map<Seq<char>, NumV>,
    mixes: Seq<Vec<(u64, Rgb)>>,
    r: int,
    ncols: nat,
    k: int,
) -> Seq<Style> {
    Seq::new(ncols, |c: int| cell_style(rules, rows, readings, mixes, r, c, k))
}

/// The per-cell style grid (`[row][col]`) for the colour rules over `rows`.
/// The header row (index 0) is never styled. Rules apply in order; each layers
/// onto what earlier rules set (last wins per attribute).
///
/// Best-effort: a predicate that errors on a row (e.g. a non-numeric cell in a
/// numeric comparison) leaves that row unpainted rather than aborting: colour
/// is a cosmetic overlay, so one bad cell shouldn't kill the whole output.
pub fn compute_styles(
    rules: &[ColorRule],
    rows: &[Vec<String>],
    readings: &Readings,
    mixes: &[Vec<(u64, Rgb)>],
) -> (styles: Vec<Vec<Style>>)
    ensures
        styles@.len() == rows@.len(),
        forall|r: int|
            0 <= r < rows@.len() ==> (#[trigger] styles@[r])@ == row_styles(
                rules@,
                grid(rows@),
                readings@,
                mixes@,
                r,
                columns_of(grid(rows@), rows@.len() as int),
                rules@.len() as int,
            ),
{
    let ncols = column_count(rows);
    let ghost g = grid(rows@);
    let mut bounds: Vec<(u64, u64)> = Vec::new();
    let mut k: usize = 0;
    while k < rules.len()
        invariant
            k <= rules@.len(),
            g == grid(rows@),
            bounds@.len() == k,
            forall|i: int|
                0 <= i < k ==> (#[trigger] rules@[i] matches ColorRule::Gradient {
                    col,
                    bounds: given,
                    ..
                } ==> bounds@[i] == (match given {
                    Some((a, b)) => (a.num.bits, b.num.bits),
                    None => column_bounds(g, col.pos as int, readings@),
                })),
        decreases rules.len() - k,
    {
        let b = match &rules[k] {
            ColorRule::Gradient { col, bounds, .. } => match bounds {
                Some((a, b)) => (a.num.bits, b.num.bits),
                None => column_minmax(rows, col.pos, readings),
            },
            _ => (0u64, 0u64),
        };
        bounds.push(b);
        k += 1;
    }
    let mut styles: Vec<Vec<Style>> = Vec::new();
    let mut r: usize = 0;
    while r < rows.len()
        invariant
            r <= rows@.len(),
            g == grid(rows@),
            ncols == columns_of(g, rows@.len() as int),
            bounds@.len() == rules@.len(),
            forall|i: int|
                0 <= i < rules@.len() ==> (#[trigger] rules@[i] matches ColorRule::Gradient {
                    col,
                    bounds: given,
                    ..
                } ==> bounds@[i] == (match given {
                    Some((a, b)) => (a.num.bits, b.num.bits),
                    None => column_bounds(g, col.pos as int, readings@),
                })),
            styles@.len() == r,
            forall|i: int|
                0 <= i < r ==> (#[trigger] styles@[i])@ == row_styles(
                    rules@,
                    g,
                    readings@,
                    mixes@,
                    i,
                    ncols as nat,
                    rules@.len() as int,
                ),
        decreases rows.len() - r,
    {
        let mut line: Vec<Style> = Vec::new();
        let mut c: usize = 0;
        while c < ncols
            invariant
                c <= ncols,
                line@.len() == c,
                forall|i: int| 0 <= i < c ==> #[trigger] line@[i] == plain_style(),
            decreases ncols - c,
        {
            line.push(Style::default());
            c += 1;
        }
        let mut k: usize = 0;
        while k < rules.len()
            invariant
                k <= rules@.len(),
                r < rows@.len(),
                g == grid(rows@),
                line@.len() == ncols,
                bounds@.len() == rules@.len(),
                forall|i: int|
                    0 <= i < rules@.len() ==> (#[trigger] rules@[i] matches ColorRule::Gradient {
                        col,
                        bounds: given,
                        ..
                    } ==> bounds@[i] == (match given {
                        Some((a, b)) => (a.num.bits, b.num.bits),
                        None => column_bounds(g, col.pos as int, readings@),
                    })),
                forall|i: int|
                    0 <= i < ncols ==> #[trigger] line@[i] == cell_style(
                        rules@,
                        g,
                        readings@,
                        mixes@,
                        r as int,
                        i,
                        k as int,
                    ),
            decreases rules.len() - k,
        {
            if r > 0 {
                let ghost rule = rules@[k as int];
                let paint = rule_on_row(&rules[k], k, rows, r, bounds[k], readings, mixes);
                let ghost before = line@;
                match paint {
                    Some((None, style)) => {
                        let mut c: usize = 0;
                        while c < ncols
                            invariant
                                c <= ncols,
                                line@.len() == ncols,
                                before.len() == ncols,
                                forall|i: int|
                                    0 <= i < c ==> #[trigger] line@[i] == layered(before[i], style),
                                forall|i: int| c <= i < ncols ==> #[trigger] line@[i] == before[i],
                            decreases ncols - c,
                        {
                            let s = line[c].over(style);
                            line.set(c, s);
                            c += 1;
                        }
                    },
                    Some((Some(p), style)) => {
                        if p < line.len() {
                            let s = line[p].over(style);
                            line.set(p, s);
                        }
                    },
                    None => {},
                }
                proof {
                    assert forall|i: int| 0 <= i < ncols implies #[trigger] line@[i] == cell_style(
                        rules@,
                        g,
                        readings@,
                        mixes@,
                        r as int,
                        i,
                        k + 1,
                    ) by {
                        assert(before[i] == cell_style(
                            rules@,
                            g,
                            readings@,
                            mixes@,
                            r as int,
                            i,
                            k as int,
                        ));
                    }
                }
            }
            k += 1;
        }
        assert(line@ =~= row_styles(
            rules@,
            g,
            readings@,
            mixes@,
            r as int,
            ncols as nat,
            rules@.len() as int,
        ));
        styles.push(line);
        r += 1;
    }
    styles
}

/// Styles, row by row.
pub open spec fn style_grid(styles: Option<&[Vec<Style>]>) -> Option<Seq<Seq<Style>>> {
    match styles {
        Some(s) => Some(s@.map_values(|r: Vec<Style>| r@)),
        None => None,
    }
}

/// The style of a cell, the plain one where there is none.
pub open spec fn style_of_cell(styles: Option<Seq<Seq<Style>>>, r: int, c: int) -> Style {
    match styles {
        Some(s) => if 0 <= r < s.len() && 0 <= c < s[r].len() {
            s[r][c]
        } else {
            plain_style()
        },
        None => plain_style(),
    }
}

/// Look up the style for cell `[ri][ci]`, defaulting to empty.
pub fn style_at(styles: Option<&[Vec<Style>]>, ri: usize, ci: usize) -> (s: Style)
    ensures
        s == style_of_cell(style_grid(styles), ri as int, ci as int),
{
    if let Some(grid) = styles {
        if ri < grid.len() && ci < grid[ri].len() {
            return grid[ri][ci];
        }
    }
    Style::default()
}

/// The width of column `c` in the first `n` rows: that of its widest cell.
pub open spec fn col_width(rows: Seq<Seq<Seq<char>>>, c: int, n: int) -> nat
    decreases n,
{
    if n <= 0 {
        0
    } else {
        let before = col_width(rows, c, n - 1);
        if c < rows[n - 1].len() && display_width(rows[n - 1][c]) as nat > before {
            display_width(rows[n - 1][c]) as nat
        } else {
            before
        }
    }
}

/// The text of a cell, empty where the row is too short.
pub open spec fn cell_text(rows: Seq<Seq<Seq<char>>>, r: int, c: int) -> Seq<char> {
    if 0 <= c < rows[r].len() {
        rows[r][c]
    } else {
        seq![]
    }
}

/// Whether every data cell of the column reads as a number (blanks allowed, but
/// at least one must be a real number).
pub open spec fn col_numeric(
    rows: Seq<Seq<Seq<char>>>,
    c: int,
    readings: Map<Seq<char>, NumV>,
) -> bool {
    &&& forall|r: int|
        1 <= r < rows.len() ==> FieldV::Str(#[trigger] cell_text(rows, r, c)).num_soft(
            readings,
        ) is Some
    &&& exists|r: int|
        1 <= r < rows.len() && trimmed(#[trigger] cell_text(rows, r, c)).len() > 0
}

fn width_of(rows: &[Vec<String>], c: usize) -> (w: usize)
    ensures
        w == col_width(grid(rows@), c as int, rows@.len() as int),
{
    let mut w: usize = 0;
    let mut i: usize = 0;
    while i < rows.len()
        invariant
            i <= rows@.len(),
            w == col_width(grid(rows@), c as int, i as int),
        decreases rows.len() - i,
    {
        assert(grid(rows@)[i as int] == texts(rows@[i as int]@));
        if c < rows[i].len() {
            assert(texts(rows@[i as int]@)[c as int] == rows@[i as int]@[c as int]@);
            let n = vis_width(rows[i][c].as_str());
            if n > w {
                w = n;
            }
        }
        i += 1;
    }
    w
}

fn numeric_column(rows: &[Vec<String>], c: usize, readings: &Readings) -> (r: bool)
    ensures
        r == col_numeric(grid(rows@), c as int, readings@),
{
    let ghost g = grid(rows@);
    let mut saw = false;
    let mut i: usize = 1;
    while i < rows.len()
        invariant
            1 <= i,
            i <= rows@.len() || i == 1,
            g == grid(rows@),
            forall|k: int|
                1 <= k < i && k < g.len() ==> FieldV::Str(
                    #[trigger] cell_text(g, k, c as int),
                ).num_soft(readings@) is Some,
            saw ==> exists|k: int|
                1 <= k < g.len() && trimmed(#[trigger] cell_text(g, k, c as int)).len() > 0,
            !saw ==> forall|k: int|
                1 <= k < i && k < g.len() ==> trimmed(
                    #[trigger] cell_text(g, k, c as int),
                ).len() == 0,
        decreases rows.len() - i,
    {
        assert(g[i as int] == texts(rows@[i as int]@));
        let cell = if c < rows[i].len() {
            assert(texts(rows@[i as int]@)[c as int] == rows@[i as int]@[c as int]@);
            rows[i][c].clone()
        } else {
            String::new()
        };
        assert(cell@ =~= cell_text(g, i as int, c as int));
        if !is_blank(cell.as_str()) {
            saw = true;
        }
        if Field::Str(cell).num_soft(readings).is_none() {
            assert(FieldV::Str(cell_text(g, i as int, c as int)).num_soft(readings@) is None);
            return false;
        }
        i += 1;
    }
    saw
}

/// A cell in its place in an aligned row: two spaces before it but for the first
/// column, and padded to the column's width: a number on its left, a text on its
/// right, except in the row's last column.
pub open spec fn aligned_cell(
    rows: Seq<Seq<Seq<char>>>,
    styles: Option<Seq<Seq<Style>>>,
    readings: Map<Seq<char>, NumV>,
    r: int,
    c: int,
) -> Seq<char> {
    let text = rows[r][c];
    let gap = if c > 0 {
        "  "@
    } else {
        seq![]
    };
    let width = col_width(rows, c, rows.len() as int);
    let pad = repeated(
        ' ',
        if width >= display_width(text) {
            (width - display_width(text)) as nat
        } else {
            0
        },
    );
    let painted = style_of_cell(styles, r, c).painted(text);
    if col_numeric(rows, c, readings) {
        gap + pad + painted
    } else if c != rows[r].len() - 1 {
        gap + painted + pad
    } else {
        gap + painted
    }
}

/// The first `n` cells of an aligned row.
pub open spec fn aligned_cells(
    rows: Seq<Seq<Seq<char>>>,
    styles: Option<Seq<Seq<Style>>>,
    readings: Map<Seq<char>, NumV>,
    r: int,
    n: int,
) -> Seq<char>
    decreases n,
{
    if n <= 0 {
        seq![]
    } else {
        aligned_cells(rows, styles, readings, r, n - 1) + aligned_cell(
            rows,
            styles,
            readings,
            r,
            n - 1,
        )
    }
}

/// The first `n` rows aligned, each on a line.
pub open spec fn aligned(
    rows: Seq<Seq<Seq<char>>>,
    styles: Option<Seq<Seq<Style>>>,
    readings: Map<Seq<char>, NumV>,
    n: int,
) -> Seq<char>
    decreases n,
{
    if n <= 0 {
        seq![]
    } else {
        aligned(rows, styles, readings, n - 1) + aligned_cells(
            rows,
            styles,
            readings,
            n - 1,
            rows[n - 1].len() as int,
        ) + "\n"@
    }
}

fn align_cell(
    out: &mut String,
    text: &str,
    style: Style,
    first: bool,
    last: bool,
    width: usize,
    numeric: bool,
)
    ensures
        ({
            let gap = if first {
                seq![]
            } else {
                "  "@
            };
            let pad = repeated(
                ' ',
                if width >= display_width(text@) {
                    (width - display_width(text@)) as nat
                } else {
                    0
                },
            );
            let painted = style.painted(text@);
            final(out)@ == old(out)@ + (if numeric {
                gap + pad + painted
            } else if !last {
                gap + painted + pad
            } else {
                gap + painted
            })
        }),
{
    let ghost start = out@;
    if !first {
        out.append("  ");
    }
    let wide = vis_width(text);
    let n: usize = if width >= wide {
        width - wide
    } else {
        0
    };
    let painted = style.paint(text);
    let ghost gap = if first {
        seq![]
    } else {
        "  "@
    };
    assert(out@ =~= start + gap);
    if numeric {
        // Right-justify: pad on the left (so never a trailing space).
        push_repeated(out, ' ', n);
        out.append(painted.as_str());
        assert(out@ =~= start + (gap + repeated(' ', n as nat) + painted@));
    } else {
        out.append(painted.as_str());
        // Left-justify: pad on the right, except the last column.
        if !last {
            push_repeated(out, ' ', n);
            assert(out@ =~= start + (gap + painted@ + repeated(' ', n as nat)));
        } else {
            assert(out@ =~= start + (gap + painted@));
        }
    }
}

/// Whitespace-align columns (`fmt` / `column -t`): each column padded to its
/// widest cell, two spaces between. A numeric column (every data cell reads as a
/// number) is right-justified; text columns left-justified, trailing column
/// unpadded. Padding is by visible width; the painted text carries the colour.
pub fn align_and_write(
    rows: &[Vec<String>],
    styles: Option<&[Vec<Style>]>,
    readings: &Readings,
) -> (out: String)
    ensures
        out@ == aligned(grid(rows@), style_grid(styles), readings@, rows@.len() as int),
{
    let ghost g = grid(rows@);
    let ghost sg = style_grid(styles);
    let ncols = column_count(rows);
    let mut widths: Vec<usize> = Vec::new();
    let mut numeric: Vec<bool> = Vec::new();
    let mut c: usize = 0;
    while c < ncols
        invariant
            c <= ncols,
            g == grid(rows@),
            widths@.len() == c,
            numeric@.len() == c,
            forall|i: int| 0 <= i < c ==> #[trigger] widths@[i] == col_width(g, i, g.len() as int),
            forall|i: int| 0 <= i < c ==> #[trigger] numeric@[i] == col_numeric(g, i, readings@),
        decreases ncols - c,
    {
        widths.push(width_of(rows, c));
        numeric.push(numeric_column(rows, c, readings));
        c += 1;
    }
    let mut out = String::new();
    let mut r: usize = 0;
    assert(out@ =~= aligned(g, sg, readings@, 0));
    while r < rows.len()
        invariant
            r <= rows@.len(),
            g == grid(rows@),
            sg == style_grid(styles),
            ncols == columns_of(g, g.len() as int),
            widths@.len() == ncols,
            numeric@.len() == ncols,
            forall|i: int|
                0 <= i < ncols ==> #[trigger] widths@[i] == col_width(g, i, g.len() as int),
            forall|i: int|
                0 <= i < ncols ==> #[trigger] numeric@[i] == col_numeric(g, i, readings@),
            out@ == aligned(g, sg, readings@, r as int),
        decreases rows.len() - r,
    {
        let ghost start = out@;
        let ghost cells = g[r as int];
        proof {
            assert(cells == texts(rows@[r as int]@));
            lemma_columns_of(g, g.len() as int, r as int);
        }
        let n: usize = rows[r].len();
        let mut c: usize = 0;
        assert(out@ =~= start + aligned_cells(g, sg, readings@, r as int, 0));
        while c < n
            invariant
                c <= n,
                r < rows@.len(),
                n == rows@[r as int]@.len(),
                n <= ncols,
                g == grid(rows@),
                sg == style_grid(styles),
                cells == g[r as int],
                cells == texts(rows@[r as int]@),
                widths@.len() == ncols,
                numeric@.len() == ncols,
                forall|i: int|
                    0 <= i < ncols ==> #[trigger] widths@[i] == col_width(g, i, g.len() as int),
                forall|i: int|
                    0 <= i < ncols ==> #[trigger] numeric@[i] == col_numeric(g, i, readings@),
                out@ == start + aligned_cells(g, sg, readings@, r as int, c as int),
            decreases n - c,
        {
            assert(cells[c as int] == rows@[r as int]@[c as int]@);
            let style = style_at(styles, r, c);
            align_cell(
                &mut out,
                rows[r][c].as_str(),
                style,
                c == 0,
                c == n - 1,
                widths[c],
                numeric[c],
            );
            proof {
                assert(out@ =~= start + (aligned_cells(g, sg, readings@, r as int, c as int)
                    + aligned_cell(g, sg, readings@, r as int, c as int)));
            }
            c += 1;
        }
        out.append("\n");
        r += 1;
    }
    out
}

/// The first `n` cells of a line of painted CSV.
pub open spec fn colored_cells(
    rows: Seq<Seq<Seq<char>>>,
    styles: Option<Seq<Seq<Style>>>,
    r: int,
    n: int,
) -> Seq<char>
    decreases n,
{
    if n <= 0 {
        seq![]
    } else {
        colored_cells(rows, styles, r, n - 1) + (if n > 1 {
            ","@
        } else {
            seq![]
        }) + style_of_cell(styles, r, n - 1).painted(encoded(rows[r][n - 1]))
    }
}

/// The first `n` rows as CSV, each cell painted by its style.
pub open spec fn colored_csv(
    rows: Seq<Seq<Seq<char>>>,
    styles: Option<Seq<Seq<Style>>>,
    n: int,
) -> Seq<char>
    decreases n,
{
    if n <= 0 {
        seq![]
    } else {
        colored_csv(rows, styles, n - 1) + colored_cells(
            rows,
            styles,
            n - 1,
            rows[n - 1].len() as int,
        ) + "\n"@
    }
}

/// Write CSV rows with each cell painted by its style (for colouring plain,
/// non-aligned output).
pub fn write_csv_colored(rows: &[Vec<String>], styles: Option<&[Vec<Style>]>) -> (out: String)
    ensures
        out@ == colored_csv(grid(rows@), style_grid(styles), rows@.len() as int),
{
    let ghost g = grid(rows@);
    let ghost sg = style_grid(styles);
    let mut out = String::new();
    let mut r: usize = 0;
    while r < rows.len()
        invariant
            r <= rows@.len(),
            g == grid(rows@),
            sg == style_grid(styles),
            out@ == colored_csv(g, sg, r as int),
        decreases rows.len() - r,
    {
        let ghost start = out@;
        let ghost cells = g[r as int];
        assert(cells == texts(rows@[r as int]@));
        let n: usize = rows[r].len();
        let mut c: usize = 0;
        assert(out@ =~= start + colored_cells(g, sg, r as int, 0));
        while c < n
            invariant
                c <= n,
                r < rows@.len(),
                n == rows@[r as int]@.len(),
                g == grid(rows@),
                sg == style_grid(styles),
                cells == g[r as int],
                cells == texts(rows@[r as int]@),
                out@ == start + colored_cells(g, sg, r as int, c as int),
            decreases n - c,
        {
            assert(cells[c as int] == rows@[r as int]@[c as int]@);
            let ghost before = out@;
            if c > 0 {
                out.append(",");
            }
            let code = encode_field(rows[r][c].as_str());
            let painted = style_at(styles, r, c).paint(code.as_str());
            out.append(painted.as_str());
            assert(out@ =~= start + colored_cells(g, sg, r as int, c + 1));
            c += 1;
        }
        out.append("\n");
        r += 1;
    }
    out
}

/// What rendering buffered output comes to.
#[derive(Debug)]
pub enum Rendered {
    /// A chart is to be drawn from the rows.
    Chart,
    /// The bytes go out as they are.
    AsIs,
    /// This text goes out in their place.
    Text(String),
}

/// Rows of text cells.
pub fn cell_rows(text: &str) -> (rows: Vec<Vec<String>>)
    ensures
        grid(rows@) == chunk_rows(text@),
{
    let parsed = parse_chunk(text);
    let ghost want = chunk_rows(text@);
    let mut rows: Vec<Vec<String>> = Vec::new();
    let mut i: usize = 0;
    while i < parsed.len()
        invariant
            i <= parsed@.len(),
            rows_view(parsed@) == text_rows(want),
            want == chunk_rows(text@),
            grid(rows@) == want.take(i as int),
        decreases parsed.len() - i,
    {
        let mut cells: Vec<String> = Vec::new();
        let ghost one = want[i as int];
        proof {
            assert(rows_view(parsed@).len() == text_rows(want).len());
            assert(rows_view(parsed@)[i as int] == text_rows(want)[i as int]);
            assert(row_view(parsed@[i as int]@) == text_row(one));
            assert(row_view(parsed@[i as int]@).len() == one.len());
        }
        let mut c: usize = 0;
        while c < parsed[i].len()
            invariant
                c <= parsed@[i as int]@.len(),
                i < parsed@.len(),
                row_view(parsed@[i as int]@) == text_row(one),
                parsed@[i as int]@.len() == one.len(),
                texts(cells@) == one.take(c as int),
            decreases parsed@[i as int]@.len() - c,
        {
            let ghost before = texts(cells@);
            assert(row_view(parsed@[i as int]@)[c as int] == text_row(one)[c as int]);
            cells.push(parsed[i][c].as_str().to_string());
            assert(texts(cells@) =~= before.push(one[c as int]));
            assert(one.take(c + 1) =~= one.take(c as int).push(one[c as int]));
            c += 1;
        }
        assert(one.take(c as int) =~= one);
        let ghost before = grid(rows@);
        rows.push(cells);
        assert(grid(rows@) =~= before.push(one));
        assert(want.take(i + 1) =~= want.take(i as int).push(one));
        i += 1;
    }
    proof {
        assert(rows_view(parsed@).len() == text_rows(want).len());
        assert(want.take(i as int) =~= want);
    }
    rows
}

/// Renders buffered output `bytes`, applying the plan's colour rules (when
/// `color` is on) and aligning columns when the plan's output is `Aligned`. The
/// graph sink draws a chart from the buffered output instead of emitting rows; it
/// takes precedence over alignment and colour.
pub fn render(
    bytes: &[u8],
    plan: &Plan,
    color: bool,
    readings: &Readings,
    mixes: &[Vec<(u64, Rgb)>],
) -> (r: Result<Rendered, Error>)
    ensures
        ({
            let is_aligned = plan.output == OutputFormat::Aligned;
            let want_color = color && plan.colors@.len() > 0;
            if plan.graph is Some {
                r is Ok && r->Ok_0 is Chart
            } else if !is_aligned && !want_color {
                r is Ok && r->Ok_0 is AsIs
            } else if !valid_utf8(bytes@) {
                r is Err && r->Err_0 is Other && r->Err_0.said()
                    == "output is not valid UTF-8: "@ + utf8_fault(bytes@)
            } else {
                let rows = chunk_rows(decode_utf8(bytes@));
                let n = rows.len() as int;
                let styles = if want_color {
                    Some(
                        Seq::new(
                            rows.len(),
                            |r: int|
                                row_styles(
                                    plan.colors@,
                                    rows,
                                    readings@,
                                    mixes@,
                                    r,
                                    columns_of(rows, n),
                                    plan.colors@.len() as int,
                                ),
                        ),
                    )
                } else {
                    None
                };
                &&& r is Ok
                &&& r->Ok_0 is Text
                &&& r->Ok_0->Text_0@ == (if is_aligned {
                    aligned(rows, styles, readings@, n)
                } else {
                    colored_csv(rows, styles, n)
                })
            }
        }),
{
    if plan.graph.is_some() {
        return Ok(Rendered::Chart);
    }
    let is_aligned = plan.output == OutputFormat::Aligned;
    let want_color = color && plan.colors.len() > 0;
    if !is_aligned && !want_color {
        return Ok(Rendered::AsIs);
    }
    match utf8_text(bytes) {
        Err(e) => Err(Error::Other(cat2("output is not valid UTF-8: ", e.message.as_str()))),
        Ok(text) => {
            proof {
                vstd::utf8::encode_utf8_decode_utf8(text@);
            }
            let rows = cell_rows(text.as_str());
            let ghost g = chunk_rows(text@);
            assert(g.len() == rows@.len());
            if want_color {
                let styles = compute_styles(
                    plan.colors.as_slice(),
                    rows.as_slice(),
                    readings,
                    mixes,
                );
                let shown = Some(styles.as_slice());
                proof {
                    assert(style_grid(shown)->0 =~= Seq::new(
                        g.len(),
                        |r: int|
                            row_styles(
                                plan.colors@,
                                g,
                                readings@,
                                mixes@,
                                r,
                                columns_of(g, g.len() as int),
                                plan.colors@.len() as int,
                            ),
                    ));
                }
                let out = if is_aligned {
                    align_and_write(rows.as_slice(), shown, readings)
                } else {
                    write_csv_colored(rows.as_slice(), shown)
                };
                Ok(Rendered::Text(out))
            } else {
                Ok(Rendered::Text(align_and_write(rows.as_slice(), None, readings)))
            }
        },
    }
}

/// A text without its terminal escapes: each goes from the escape character to
/// the next `m`.
pub open spec fn unescaped_text(s: Seq<char>) -> Seq<char>
    decreases s.len(),
{
    if s.len() == 0 {
        seq![]
    } else if s[0] == '\x1b' {
        behind_escape(s.drop_first())
    } else {
        seq![s[0]] + unescaped_text(s.drop_first())
    }
}

/// What is left of a text that begins inside a terminal escape.
pub open spec fn behind_escape(s: Seq<char>) -> Seq<char>
    decreases s.len(),
{
    if s.len() == 0 {
        seq![]
    } else if s[0] == 'm' {
        unescaped_text(s.drop_first())
    } else {
        behind_escape(s.drop_first())
    }
}

/// Whether a text holds no escape character.
pub open spec fn no_escapes(s: Seq<char>) -> bool {
    forall|i: int| 0 <= i < s.len() ==> #[trigger] s[i] != '\x1b'
}

proof fn lemma_plain_front(a: Seq<char>, b: Seq<char>)
    requires
        no_escapes(a),
    ensures
        unescaped_text(a + b) == a + unescaped_text(b),
    decreases a.len(),
{
    if a.len() == 0 {
        assert(a + b =~= b);
        assert(a + unescaped_text(b) =~= unescaped_text(b));
    } else {
        assert(a[0] != '\x1b');
        let r = a.drop_first();
        assert forall|i: int| 0 <= i < r.len() implies #[trigger] r[i] != '\x1b' by {
            assert(r[i] == a[i + 1]);
        }
        lemma_plain_front(r, b);
        assert((a + b).drop_first() =~= r + b);
        assert(seq![a[0]] + (r + unescaped_text(b)) =~= a + unescaped_text(b));
    }
}

proof fn lemma_escape_front(a: Seq<char>, b: Seq<char>)
    requires
        forall|i: int| 0 <= i < a.len() ==> #[trigger] a[i] != 'm',
    ensures
        behind_escape(a + seq!['m'] + b) == unescaped_text(b),
    decreases a.len(),
{
    let s = a + seq!['m'] + b;
    if a.len() == 0 {
        assert(s.drop_first() =~= b);
    } else {
        assert(a[0] != 'm');
        let r = a.drop_first();
        assert forall|i: int| 0 <= i < r.len() implies #[trigger] r[i] != 'm' by {
            assert(r[i] == a[i + 1]);
        }
        lemma_escape_front(r, b);
        assert(s.drop_first() =~= r + seq!['m'] + b);
    }
}

/// Whether a text is digits and semicolons.
pub open spec fn is_code(s: Seq<char>) -> bool {
    forall|i: int| 0 <= i < s.len() ==> #[trigger] s[i] == ';' || crate::text::is_digit(s[i])
}

proof fn lemma_color_code(c: crate::color::Color, bg: bool)
    ensures
        is_code(c.codes(bg)),
{
    reveal_strlit("100");
    reveal_strlit("90");
    reveal_strlit("48;2;");
    reveal_strlit("38;2;");
    reveal_strlit(";");
    match c {
        crate::color::Color::Base(i) => {
            crate::text::lemma_decimal((i + 40) as nat);
            crate::text::lemma_decimal((i + 30) as nat);
        },
        crate::color::Color::Rgb(r) => {
            crate::text::lemma_decimal(r.0 as nat);
            crate::text::lemma_decimal(r.1 as nat);
            crate::text::lemma_decimal(r.2 as nat);
        },
    }
}

proof fn lemma_code_joined(parts: Seq<Seq<char>>)
    requires
        forall|i: int| 0 <= i < parts.len() ==> is_code(#[trigger] parts[i]),
    ensures
        is_code(crate::text::joined(parts, ";"@)),
    decreases parts.len(),
{
    reveal_strlit(";");
    if parts.len() == 1 {
        assert(is_code(parts[0]));
    } else if parts.len() > 1 {
        let front = parts.drop_last();
        assert forall|i: int| 0 <= i < front.len() implies is_code(#[trigger] front[i]) by {
            assert(front[i] == parts[i]);
        }
        lemma_code_joined(front);
        let last = parts[parts.len() - 1];
        assert(is_code(last));
        let a = crate::text::joined(front, ";"@);
        let s = crate::text::joined(parts, ";"@);
        assert(s == a + ";"@ + last);
        assert forall|i: int| 0 <= i < s.len() implies #[trigger] s[i] == ';'
            || crate::text::is_digit(s[i]) by {
            if i < a.len() {
                assert(s[i] == a[i]);
            } else if i > a.len() {
                assert(s[i] == last[i - a.len() - 1]);
            }
        }
    }
}

proof fn lemma_style_code(style: Style)
    ensures
        is_code(crate::text::joined(style.codes(), ";"@)),
{
    reveal_strlit("1");
    reveal_strlit("2");
    reveal_strlit("4");
    let parts = style.codes();
    if style.fg is Some {
        lemma_color_code(style.fg->0, false);
    }
    if style.bg is Some {
        lemma_color_code(style.bg->0, true);
    }
    assert forall|i: int| 0 <= i < parts.len() implies is_code(#[trigger] parts[i]) by {
        let p = parts[i];
        assert(p == "1"@ || p == "2"@ || p == "4"@ || (style.fg is Some && p == style.fg->0.codes(
            false,
        )) || (style.bg is Some && p == style.bg->0.codes(true)));
    }
    lemma_code_joined(parts);
}

/// Painting shows in the escapes alone: without them a painted text is the text.
pub proof fn law_painting_shows_only_in_escapes(style: Style, text: Seq<char>, rest: Seq<char>)
    requires
        no_escapes(text),
    ensures
        unescaped_text(style.painted(text) + rest) == text + unescaped_text(rest),
{
    if style == plain_style() {
        lemma_plain_front(text, rest);
    } else {
        reveal_strlit("\x1b[");
        reveal_strlit("m");
        reveal_strlit("\x1b[0m");
        lemma_style_code(style);
        let code = crate::text::joined(style.codes(), ";"@);
        let open = seq!['['] + code;
        assert forall|i: int| 0 <= i < open.len() implies #[trigger] open[i] != 'm' by {
            if i > 0 {
                assert(open[i] == code[i - 1]);
            }
        }
        let tail = "\x1b[0m"@ + rest;
        let s = style.painted(text) + rest;
        assert(s =~= seq!['\x1b'] + (open + seq!['m'] + (text + tail)));
        assert(s.drop_first() =~= open + seq!['m'] + (text + tail));
        lemma_escape_front(open, text + tail);
        lemma_plain_front(text, tail);
        let close = seq!['[', '0'];
        assert(tail =~= seq!['\x1b'] + (close + seq!['m'] + rest));
        assert(tail.drop_first() =~= close + seq!['m'] + rest);
        lemma_escape_front(close, rest);
    }
}

proof fn lemma_repeated_plain(n: nat)
    ensures
        no_escapes(repeated(' ', n)),
{
}

proof fn lemma_aligned_cell_plain(
    rows: Seq<Seq<Seq<char>>>,
    styles: Option<Seq<Seq<Style>>>,
    readings: Map<Seq<char>, NumV>,
    r: int,
    c: int,
    rest: Seq<char>,
)
    requires
        no_escapes(rows[r][c]),
    ensures
        unescaped_text(aligned_cell(rows, styles, readings, r, c) + rest) == aligned_cell(
            rows,
            None,
            readings,
            r,
            c,
        ) + unescaped_text(rest),
{
    reveal_strlit("  ");
    let text = rows[r][c];
    let gap = if c > 0 {
        "  "@
    } else {
        seq![]
    };
    let width = col_width(rows, c, rows.len() as int);
    let n = if width >= display_width(text) {
        (width - display_width(text)) as nat
    } else {
        0
    };
    let pad = repeated(' ', n);
    lemma_repeated_plain(n);
    let style = style_of_cell(styles, r, c);
    let painted = style.painted(text);
    if col_numeric(rows, c, readings) {
        assert(gap + pad + painted + rest =~= (gap + pad) + (painted + rest));
        lemma_plain_front(gap + pad, painted + rest);
        law_painting_shows_only_in_escapes(style, text, rest);
        assert((gap + pad) + (text + unescaped_text(rest)) =~= gap + pad + text + unescaped_text(
            rest,
        ));
    } else if c != rows[r].len() - 1 {
        assert(gap + painted + pad + rest =~= gap + (painted + (pad + rest)));
        lemma_plain_front(gap, painted + (pad + rest));
        law_painting_shows_only_in_escapes(style, text, pad + rest);
        lemma_plain_front(pad, rest);
        assert(gap + (text + (pad + unescaped_text(rest))) =~= gap + text + pad + unescaped_text(
            rest,
        ));
    } else {
        assert(gap + painted + rest =~= gap + (painted + rest));
        lemma_plain_front(gap, painted + rest);
        law_painting_shows_only_in_escapes(style, text, rest);
        assert(gap + (text + unescaped_text(rest)) =~= gap + text + unescaped_text(rest));
    }
}

proof fn lemma_aligned_cells_plain(
    rows: Seq<Seq<Seq<char>>>,
    styles: Option<Seq<Seq<Style>>>,
    readings: Map<Seq<char>, NumV>,
    r: int,
    n: int,
    rest: Seq<char>,
)
    requires
        0 <= r < rows.len(),
        n <= rows[r].len(),
        forall|c: int| 0 <= c < rows[r].len() ==> no_escapes(#[trigger] rows[r][c]),
    ensures
        unescaped_text(aligned_cells(rows, styles, readings, r, n) + rest) == aligned_cells(
            rows,
            None,
            readings,
            r,
            n,
        ) + unescaped_text(rest),
    decreases n,
{
    if n <= 0 {
        assert(aligned_cells(rows, styles, readings, r, n) + rest =~= rest);
        assert(aligned_cells(rows, None, readings, r, n) + unescaped_text(rest) =~= unescaped_text(
            rest,
        ));
    } else {
        let cell = aligned_cell(rows, styles, readings, r, n - 1);
        let before = aligned_cells(rows, styles, readings, r, n - 1);
        assert(before + cell + rest =~= before + (cell + rest));
        lemma_aligned_cells_plain(rows, styles, readings, r, n - 1, cell + rest);
        assert(no_escapes(rows[r][n - 1]));
        lemma_aligned_cell_plain(rows, styles, readings, r, n - 1, rest);
        let p = aligned_cells(rows, None, readings, r, n - 1);
        let q = aligned_cell(rows, None, readings, r, n - 1);
        assert(p + (q + unescaped_text(rest)) =~= p + q + unescaped_text(rest));
    }
}

proof fn lemma_aligned_plain(
    rows: Seq<Seq<Seq<char>>>,
    styles: Option<Seq<Seq<Style>>>,
    readings: Map<Seq<char>, NumV>,
    n: int,
    rest: Seq<char>,
)
    requires
        n <= rows.len(),
        forall|r: int, c: int|
            #![trigger rows[r][c]]
            0 <= r < rows.len() && 0 <= c < rows[r].len() ==> no_escapes(rows[r][c]),
    ensures
        unescaped_text(aligned(rows, styles, readings, n) + rest) == aligned(
            rows,
            None,
            readings,
            n,
        ) + unescaped_text(rest),
    decreases n,
{
    reveal_strlit("\n");
    if n <= 0 {
        assert(aligned(rows, styles, readings, n) + rest =~= rest);
        assert(aligned(rows, None, readings, n) + unescaped_text(rest) =~= unescaped_text(rest));
    } else {
        let m = rows[n - 1].len() as int;
        let cells = aligned_cells(rows, styles, readings, n - 1, m);
        let before = aligned(rows, styles, readings, n - 1);
        let tail = "\n"@ + rest;
        assert(before + cells + "\n"@ + rest =~= before + (cells + tail));
        lemma_aligned_plain(rows, styles, readings, n - 1, cells + tail);
        lemma_aligned_cells_plain(rows, styles, readings, n - 1, m, tail);
        lemma_plain_front("\n"@, rest);
        let p = aligned(rows, None, readings, n - 1);
        let q = aligned_cells(rows, None, readings, n - 1, m);
        assert(p + (q + ("\n"@ + unescaped_text(rest))) =~= p + q + "\n"@ + unescaped_text(rest));
    }
}

/// The coloured and the plain table have the same layout: without its escapes
/// the coloured one is the plain one.
pub proof fn law_color_leaves_the_layout_alone(
    rows: Seq<Seq<Seq<char>>>,
    styles: Option<Seq<Seq<Style>>>,
    readings: Map<Seq<char>, NumV>,
)
    requires
        forall|r: int, c: int|
            #![trigger rows[r][c]]
            0 <= r < rows.len() && 0 <= c < rows[r].len() ==> no_escapes(rows[r][c]),
    ensures
        unescaped_text(aligned(rows, styles, readings, rows.len() as int)) == aligned(
            rows,
            None,
            readings,
            rows.len() as int,
        ),
{
    let n = rows.len() as int;
    let none = Seq::<char>::empty();
    lemma_aligned_plain(rows, styles, readings, n, none);
    assert(aligned(rows, styles, readings, n) + none =~= aligned(rows, styles, readings, n));
    assert(aligned(rows, None, readings, n) + unescaped_text(none) =~= aligned(
        rows,
        None,
        readings,
        n,
    ));
}

} // verus!
