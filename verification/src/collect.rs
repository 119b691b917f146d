//! Reading the charted columns out of the buffered output. Cells that are not
//! numbers are dropped *loudly*: counted here and reported by the renderer, the
//! "strict and loud" policy.

use vstd::prelude::*;

use crate::chart::{no_drops, Drops};
use crate::csv::{chunk_rows, parse_chunk, text_rows};
use crate::field::{
    cell_at, cell_or_empty, finite_bits, is_finite, rank, rank_bits, row_view, rows_view, whole,
    whole_bits, Field, FieldV, Num, NumV, Rank, Readings, Row,
};
use crate::graph::{XAxis, XAxisV};
use crate::plan::{ColRef, GraphKind, GraphSpec};
use crate::text::{decimal, opt_text, show_usize, texts};

verus! {

/// An explicit axis range, `Some((lo, hi))` from `-x`/`-y`, or `None` for the
/// data's own extent. A range *is* the axis: the chart spans it, and the values
/// outside it are dropped (and counted) rather than squeezed in.
pub type AxisRange = Option<(Num, Num)>;

/// A range by the bits of its bounds.
pub open spec fn range_bits(range: AxisRange) -> Option<(u64, u64)> {
    match range {
        Some((lo, hi)) => Some((lo.bits, hi.bits)),
        None => None,
    }
}

/// Whether one number is no more than another.
pub open spec fn at_most(a: u64, b: u64) -> bool {
    rank(a, b) == Rank::Before || rank(a, b) == Rank::Same
}

/// Whether a number lies in a range.
pub open spec fn in_range(v: u64, range: Option<(u64, u64)>) -> bool {
    match range {
        Some((lo, hi)) => at_most(lo, v) && at_most(v, hi),
        None => true,
    }
}

/// Whether a number is positive.
pub open spec fn positive(v: u64) -> bool {
    rank(v, 0) == Rank::After
}

fn le(a: u64, b: u64) -> (r: bool)
    ensures
        r == at_most(a, b),
{
    match rank_bits(a, b) {
        Rank::Before | Rank::Same => true,
        _ => false,
    }
}

fn inside(v: u64, range: &AxisRange) -> (r: bool)
    ensures
        r == in_range(v, range_bits(*range)),
{
    match range {
        Some((lo, hi)) => le(lo.bits, v) && le(v, hi.bits),
        None => true,
    }
}

fn above_zero(v: u64) -> (r: bool)
    ensures
        r == positive(v),
{
    match rank_bits(v, 0) {
        Rank::After => true,
        _ => false,
    }
}

/// Numbers in contracts.
pub open spec fn nums(v: Seq<Num>) -> Seq<NumV> {
    v.map_values(|n: Num| n@)
}

/// A number that may be missing, in contracts.
pub open spec fn opt_num(o: Option<Num>) -> Option<NumV> {
    match o {
        Some(n) => Some(n@),
        None => None,
    }
}

/// Numbers that may be missing, in contracts.
pub open spec fn opt_nums(v: Seq<Option<Num>>) -> Seq<Option<NumV>> {
    v.map_values(|o: Option<Num>| opt_num(o))
}

/// A count, as far as 64 bits hold it.
pub open spec fn capped(n: nat) -> u64 {
    if n > u64::MAX {
        u64::MAX
    } else {
        n as u64
    }
}

fn tally(n: u64, Ghost(total): Ghost<nat>, k: usize) -> (r: u64)
    requires
        n == capped(total),
    ensures
        r == capped(total + k as nat),
{
    if n > u64::MAX - k as u64 {
        u64::MAX
    } else {
        n + k as u64
    }
}

/// The number in a cell: the numeric-cell rule shared by every chart. `None` for
/// a missing, empty, non-numeric or infinite cell.
pub open spec fn chart_num(
    row: Seq<FieldV>,
    pos: int,
    readings: Map<Seq<char>, NumV>,
) -> Option<NumV> {
    if 0 <= pos < row.len() {
        match row[pos].num_opt(readings) {
            Some(n) => if is_finite(n.bits) {
                Some(n)
            } else {
                None
            },
            None => None,
        }
    } else {
        None
    }
}

/// Parse a cell as a finite number: the numeric-cell rule shared by every chart.
/// `None` for a missing, empty, or non-numeric cell.
pub fn cell_num(row: &[Field], pos: usize, readings: &Readings) -> (r: Option<Num>)
    ensures
        opt_num(r) == chart_num(row_view(row@), pos as int, readings@),
{
    if pos >= row.len() {
        return None;
    }
    assert(row_view(row@)[pos as int] == row@[pos as int]@);
    match row[pos].num_opt(readings) {
        Some(n) => if finite_bits(n.bits) {
            Some(n)
        } else {
            None
        },
        None => None,
    }
}

/// The data rows of the buffered output: all but the header.
pub open spec fn data_of(text: Seq<char>) -> Seq<Seq<FieldV>> {
    let rows = text_rows(chunk_rows(text));
    if rows.len() == 0 {
        rows
    } else {
        rows.skip(1)
    }
}

/// The data rows of the buffered output: all but the header.
pub fn data_rows(text: &str) -> (r: Vec<Row>)
    ensures
        rows_view(r@) == data_of(text@),
{
    let mut rows = parse_chunk(text);
    let ghost all = rows_view(rows@);
    assert(all.len() == rows@.len());
    if rows.len() > 0 {
        rows.remove(0);
        assert(rows_view(rows@) =~= all.skip(1));
    }
    rows
}

/// The numbers of a column in the first `n` rows.
pub open spec fn column(
    rows: Seq<Seq<FieldV>>,
    pos: int,
    readings: Map<Seq<char>, NumV>,
    n: int,
) -> Seq<NumV>
    decreases n,
{
    if n <= 0 {
        seq![]
    } else {
        match chart_num(rows[n - 1], pos, readings) {
            Some(v) => column(rows, pos, readings, n - 1).push(v),
            None => column(rows, pos, readings, n - 1),
        }
    }
}

/// One column's finite values, plus the non-numeric count.
pub fn collect_numeric(rows: &Vec<Row>, pos: usize, readings: &Readings) -> (r: (Vec<Num>, u64))
    ensures
        nums(r.0@) == column(rows_view(rows@), pos as int, readings@, rows@.len() as int),
        r.1 == rows@.len() - r.0@.len(),
{
    let ghost all = rows_view(rows@);
    let mut values: Vec<Num> = Vec::new();
    let mut skipped: u64 = 0;
    let mut i: usize = 0;
    assert(nums(values@) =~= column(all, pos as int, readings@, 0));
    while i < rows.len()
        invariant
            i <= rows.len(),
            all == rows_view(rows@),
            nums(values@) == column(all, pos as int, readings@, i as int),
            skipped == i - values@.len(),
            values@.len() <= i,
        decreases rows.len() - i,
    {
        assert(all[i as int] == row_view(rows@[i as int]@));
        let ghost before = nums(values@);
        match cell_num(rows[i].as_slice(), pos, readings) {
            Some(v) => {
                values.push(v);
                assert(nums(values@) =~= before.push(v@));
            },
            None => {
                skipped += 1;
            },
        }
        i += 1;
    }
    (values, skipped)
}

/// The values inside a range.
pub open spec fn within(values: Seq<NumV>, range: Option<(u64, u64)>) -> Seq<NumV>
    decreases values.len(),
{
    if values.len() == 0 {
        seq![]
    } else if in_range(values.last().bits, range) {
        within(values.drop_last(), range).push(values.last())
    } else {
        within(values.drop_last(), range)
    }
}

/// Keep the values inside `range` (when given); the count dropped is reported.
pub fn clip(values: Vec<Num>, range: &AxisRange) -> (r: (Vec<Num>, u64))
    ensures
        nums(r.0@) == within(nums(values@), range_bits(*range)),
        r.1 == values@.len() - r.0@.len(),
{
    let ghost all = nums(values@);
    let mut kept: Vec<Num> = Vec::new();
    let mut dropped: u64 = 0;
    let mut i: usize = 0;
    assert(nums(kept@) =~= within(all.take(0), range_bits(*range)));
    while i < values.len()
        invariant
            i <= values.len(),
            all == nums(values@),
            nums(kept@) == within(all.take(i as int), range_bits(*range)),
            dropped == i - kept@.len(),
            kept@.len() <= i,
        decreases values.len() - i,
    {
        assert(all.take(i + 1).drop_last() =~= all.take(i as int));
        assert(all.take(i + 1).last() == values@[i as int]@);
        let ghost before = nums(kept@);
        if inside(values[i].bits, range) {
            kept.push(values[i].clone());
            assert(nums(kept@) =~= before.push(values@[i as int]@));
        } else {
            dropped += 1;
        }
        i += 1;
    }
    assert(all.take(all.len() as int) =~= all);
    (kept, dropped)
}

/// The positive values.
pub open spec fn positives(values: Seq<NumV>) -> Seq<NumV>
    decreases values.len(),
{
    if values.len() == 0 {
        seq![]
    } else if positive(values.last().bits) {
        positives(values.drop_last()).push(values.last())
    } else {
        positives(values.drop_last())
    }
}

/// Keep only the positive values — the ones a log axis can place; the count
/// dropped is reported. The values themselves stay real: the log10 happens when
/// they are drawn.
pub fn drop_non_positive(values: Vec<Num>) -> (r: (Vec<Num>, u64))
    ensures
        nums(r.0@) == positives(nums(values@)),
        r.1 == values@.len() - r.0@.len(),
{
    let ghost all = nums(values@);
    let mut kept: Vec<Num> = Vec::new();
    let mut dropped: u64 = 0;
    let mut i: usize = 0;
    assert(nums(kept@) =~= positives(all.take(0)));
    while i < values.len()
        invariant
            i <= values.len(),
            all == nums(values@),
            nums(kept@) == positives(all.take(i as int)),
            dropped == i - kept@.len(),
            kept@.len() <= i,
        decreases values.len() - i,
    {
        assert(all.take(i + 1).drop_last() =~= all.take(i as int));
        assert(all.take(i + 1).last() == values@[i as int]@);
        let ghost before = nums(kept@);
        if above_zero(values[i].bits) {
            kept.push(values[i].clone());
            assert(nums(kept@) =~= before.push(values@[i as int]@));
        } else {
            dropped += 1;
        }
        i += 1;
    }
    assert(all.take(all.len() as int) =~= all);
    (kept, dropped)
}

/// A column's values that a chart can place, and what was dropped on the way to
/// them: what is no number, what lies outside the range, and on a log axis what
/// is not positive. The range is in real values, so it clips before the log.
pub open spec fn charted(
    rows: Seq<Seq<FieldV>>,
    pos: int,
    range: Option<(u64, u64)>,
    log: bool,
    readings: Map<Seq<char>, NumV>,
) -> (Seq<NumV>, Drops) {
    let read = column(rows, pos, readings, rows.len() as int);
    let clipped = within(read, range);
    let kept = if log {
        positives(clipped)
    } else {
        clipped
    };
    (
        kept,
        Drops {
            skipped: (rows.len() - read.len()) as u64,
            clipped: (read.len() - clipped.len()) as u64,
            dropped: (clipped.len() - kept.len()) as u64,
            ..no_drops()
        },
    )
}

/// One column's values, ready to chart, and what it took to get there: the
/// finite numbers in it, inside `range`, and under `log` the positive ones —
/// each pass counting what it threw away. The range is in real values, so it
/// clips before the log.
///
/// The hist and spark collectors are this same pipeline. They differ in which
/// axis their range came off — a hist's `-x`, a spark's `-y` — and in `log`: a
/// spark passes `-l` on, a hist passes `false`, because its value axis is the
/// bin count and no input value is dropped for it.
pub fn numeric_values(
    rows: &Vec<Row>,
    pos: usize,
    range: &AxisRange,
    log: bool,
    readings: &Readings,
) -> (r: (Vec<Num>, Drops))
    ensures
        (nums(r.0@), r.1) == charted(
            rows_view(rows@),
            pos as int,
            range_bits(*range),
            log,
            readings@,
        ),
{
    let (values, skipped) = collect_numeric(rows, pos, readings);
    let ghost read = nums(values@);
    let (values, clipped) = clip(values, range);
    let (values, dropped): (Vec<Num>, u64) = if log {
        drop_non_positive(values)
    } else {
        (values, 0)
    };
    (values, Drops { skipped, clipped, dropped, ..Drops::default() })
}

/// Default cap on the number of bar labels drawn (one terminal line each);
/// excess is counted and reported rather than flooding the screen ("no silent
/// caps").
pub const MAX_BARS: usize = 50;

/// One bar row: its label and one value per series (`None` where the cell was
/// not numeric).
pub type BarRow = (String, Vec<Option<Num>>);

/// What a [`BarRow`] is in contracts.
pub type BarRowV = (Seq<char>, Seq<Option<NumV>>);

/// Bar rows in contracts.
pub open spec fn bar_rows(rows: Seq<BarRow>) -> Seq<BarRowV> {
    rows.map_values(|r: BarRow| (r.0@, opt_nums(r.1@)))
}

/// The numbers of a row in some columns.
pub open spec fn row_nums(
    row: Seq<FieldV>,
    positions: Seq<usize>,
    readings: Map<Seq<char>, NumV>,
) -> Seq<Option<NumV>> {
    positions.map_values(|p: usize| chart_num(row, p as int, readings))
}

/// How many of the values there are.
pub open spec fn present(vs: Seq<Option<NumV>>) -> nat
    decreases vs.len(),
{
    if vs.len() == 0 {
        0
    } else {
        present(vs.drop_last()) + if vs.last() is Some {
            1nat
        } else {
            0nat
        }
    }
}

proof fn lemma_present(vs: Seq<Option<NumV>>)
    ensures
        present(vs) <= vs.len(),
        present(vs) == 0 <==> forall|i: int| 0 <= i < vs.len() ==> #[trigger] vs[i] is None,
    decreases vs.len(),
{
    if vs.len() > 0 {
        lemma_present(vs.drop_last());
        assert forall|i: int| 0 <= i < vs.len() - 1 implies vs.drop_last()[i] == #[trigger] vs[i] by {}
        if present(vs) == 0 {
            assert forall|i: int| 0 <= i < vs.len() implies #[trigger] vs[i] is None by {
                if i < vs.len() - 1 {
                    assert(vs.drop_last()[i] is None);
                }
            }
        }
    }
}

/// The numbers of a row in some columns.
fn read_nums(row: &[Field], positions: &[usize], readings: &Readings) -> (r: Vec<Option<Num>>)
    ensures
        opt_nums(r@) == row_nums(row_view(row@), positions@, readings@),
        r@.len() == positions@.len(),
{
    let ghost all = row_nums(row_view(row@), positions@, readings@);
    let mut r: Vec<Option<Num>> = Vec::new();
    let mut i: usize = 0;
    while i < positions.len()
        invariant
            i <= positions.len(),
            all == row_nums(row_view(row@), positions@, readings@),
            opt_nums(r@) == all.take(i as int),
            r@.len() == i,
        decreases positions.len() - i,
    {
        let ghost before = r@;
        r.push(cell_num(row, positions[i], readings));
        assert(opt_nums(r@) =~= opt_nums(before).push(all[i as int]));
        i += 1;
        assert(opt_nums(r@) =~= all.take(i as int));
    }
    assert(all.take(all.len() as int) =~= all);
    r
}

fn count_present(vs: &Vec<Option<Num>>) -> (n: usize)
    ensures
        n == present(opt_nums(vs@)),
        n <= vs@.len(),
{
    let ghost all = opt_nums(vs@);
    let mut n: usize = 0;
    let mut i: usize = 0;
    while i < vs.len()
        invariant
            i <= vs.len(),
            all == opt_nums(vs@),
            n <= i,
            n == present(all.take(i as int)),
        decreases vs.len() - i,
    {
        assert(all.take(i + 1).drop_last() =~= all.take(i as int));
        assert(all.take(i + 1).last() == opt_num(vs@[i as int]));
        if vs[i].is_some() {
            n += 1;
        }
        i += 1;
    }
    assert(all.take(all.len() as int) =~= all);
    n
}

/// The bars of the first `n` rows, as many as `cap`.
pub open spec fn bars(
    rows: Seq<Seq<FieldV>>,
    label_pos: int,
    value_pos: Seq<usize>,
    cap: int,
    readings: Map<Seq<char>, NumV>,
    n: int,
) -> Seq<BarRowV>
    decreases n,
{
    if n <= 0 {
        seq![]
    } else {
        let before = bars(rows, label_pos, value_pos, cap, readings, n - 1);
        let values = row_nums(rows[n - 1], value_pos, readings);
        if present(values) > 0 && before.len() < cap {
            before.push((cell_or_empty(rows[n - 1], label_pos).text(), values))
        } else {
            before
        }
    }
}

/// How many of the first `n` rows have a number in one of the columns.
pub open spec fn numeric_rows(
    rows: Seq<Seq<FieldV>>,
    value_pos: Seq<usize>,
    readings: Map<Seq<char>, NumV>,
    n: int,
) -> nat
    decreases n,
{
    if n <= 0 {
        0
    } else {
        numeric_rows(rows, value_pos, readings, n - 1) + if present(
            row_nums(rows[n - 1], value_pos, readings),
        ) > 0 {
            1nat
        } else {
            0nat
        }
    }
}

/// `(label, values)` rows for a bar chart. A row whose every value is
/// non-numeric is skipped; rows past `cap` are counted as truncated.
pub fn collect_bars(
    rows: &Vec<Row>,
    label_pos: usize,
    value_pos: &[usize],
    cap: usize,
    readings: &Readings,
) -> (r: (Vec<BarRow>, u64, usize))
    ensures
        bar_rows(r.0@) == bars(
            rows_view(rows@),
            label_pos as int,
            value_pos@,
            cap as int,
            readings@,
            rows@.len() as int,
        ),
        r.1 == rows@.len() - numeric_rows(
            rows_view(rows@),
            value_pos@,
            readings@,
            rows@.len() as int,
        ),
        r.2 == numeric_rows(rows_view(rows@), value_pos@, readings@, rows@.len() as int)
            - r.0@.len(),
{
    let ghost all = rows_view(rows@);
    let mut out: Vec<BarRow> = Vec::new();
    let mut skipped: u64 = 0;
    let mut truncated: usize = 0;
    let mut i: usize = 0;
    assert(bar_rows(out@) =~= bars(
        all,
        label_pos as int,
        value_pos@,
        cap as int,
        readings@,
        0,
    ));
    while i < rows.len()
        invariant
            i <= rows.len(),
            all == rows_view(rows@),
            bar_rows(out@) == bars(
                all,
                label_pos as int,
                value_pos@,
                cap as int,
                readings@,
                i as int,
            ),
            skipped == i - numeric_rows(all, value_pos@, readings@, i as int),
            truncated == numeric_rows(all, value_pos@, readings@, i as int) - out@.len(),
            numeric_rows(all, value_pos@, readings@, i as int) <= i,
        decreases rows.len() - i,
    {
        assert(all[i as int] == row_view(rows@[i as int]@));
        let values = read_nums(rows[i].as_slice(), value_pos, readings);
        let ghost before = bar_rows(out@);
        assert(before.len() == out@.len());
        if count_present(&values) == 0 {
            skipped += 1;
        } else if out.len() < cap {
            let label = cell_at(rows[i].as_slice(), label_pos).as_str().to_string();
            let ghost row = (label@, opt_nums(values@));
            out.push((label, values));
            assert(bar_rows(out@) =~= before.push(row));
        } else {
            truncated += 1;
        }
        i += 1;
    }
    (out, skipped, truncated)
}

/// One input row of an xy chart: the raw x cell, its plotted x, one y per
/// series (`None` where the cell was not numeric, or not positive under a log
/// axis), and the `--color-by` value. The ys are in the input's own units — a
/// log axis maps them as they are drawn.
pub struct XyRow {
    pub xcell: String,
    pub x: Num,
    pub ys: Vec<Option<Num>>,
    pub color_by: Option<Num>,
}

/// What an [`XyRow`] is in contracts.
pub struct XyRowV {
    pub xcell: Seq<char>,
    pub x: NumV,
    pub ys: Seq<Option<NumV>>,
    pub color_by: Option<NumV>,
}

impl View for XyRow {
    type V = XyRowV;

    open spec fn view(&self) -> XyRowV {
        XyRowV {
            xcell: self.xcell@,
            x: self.x@,
            ys: opt_nums(self.ys@),
            color_by: opt_num(self.color_by),
        }
    }
}

/// Rows of an xy chart in contracts.
pub open spec fn xy_rows(rows: Seq<XyRow>) -> Seq<XyRowV> {
    rows.map_values(|r: XyRow| r@)
}

/// A scatter/line chart's rows and how to graduate its x axis.
pub struct XyData {
    pub xname: String,
    pub names: Vec<String>,
    pub rows: Vec<XyRow>,
    pub xaxis: XAxis,
    /// Join the points of each series (a `line` chart, not a `scatter`).
    pub connect: bool,
    /// Explicit axis ranges (`-x`/`-y`): the canvas spans these instead of the
    /// points' own extent. The points are already clipped to them. Real units,
    /// like the ys `yrange` bounds.
    pub xrange: AxisRange,
    pub yrange: AxisRange,
    /// The `-c/--color-by` column's name, when the script asked for one. This
    /// is the *plan's* answer, not the data's: a colour column whose every cell
    /// was non-numeric still makes this a colour-by chart (drawn with no
    /// colour, and counted in the notes), so the renderers never quietly fall
    /// back to density.
    pub color_by: Option<String>,
}

/// How an x column is plotted.
#[derive(Clone, Copy, PartialEq, Eq, Structural)]
pub enum XMode {
    /// By its numbers.
    Numeric,
    /// By its timestamps.
    Time,
    /// By the number of the row.
    Row,
}

/// How the x column is plotted: by its numbers when it has any; by its
/// timestamps when every cell is one; else by the number of the row.
pub open spec fn x_mode(
    rows: Seq<Seq<FieldV>>,
    xpos: int,
    readings: Map<Seq<char>, NumV>,
    epochs: Map<Seq<char>, NumV>,
) -> XMode {
    if exists|i: int|
        0 <= i < rows.len() && chart_num(#[trigger] rows[i], xpos, readings) is Some {
        XMode::Numeric
    } else if rows.len() > 0 && forall|i: int|
        0 <= i < rows.len() ==> epochs.contains_key(
            cell_or_empty(#[trigger] rows[i], xpos).text(),
        ) {
        XMode::Time
    } else {
        XMode::Row
    }
}

/// Where row `i` is plotted, when it is.
pub open spec fn x_of(
    row: Seq<FieldV>,
    i: int,
    xpos: int,
    mode: XMode,
    readings: Map<Seq<char>, NumV>,
    epochs: Map<Seq<char>, NumV>,
) -> Option<NumV> {
    match mode {
        XMode::Numeric => chart_num(row, xpos, readings),
        XMode::Time => Some(epochs[cell_or_empty(row, xpos).text()]),
        XMode::Row => Some(
            NumV { bits: whole_bits((i + 1) as nat) as u64, text: decimal((i + 1) as nat) },
        ),
    }
}

/// The columns of an xy chart.
pub struct XyCols {
    pub x: int,
    pub ys: Seq<usize>,
    pub color: Option<usize>,
}

/// A row of an xy chart, plotted at `x`.
pub open spec fn xy_row(
    row: Seq<FieldV>,
    x: NumV,
    cols: XyCols,
    readings: Map<Seq<char>, NumV>,
) -> XyRowV {
    XyRowV {
        xcell: cell_or_empty(row, cols.x).text(),
        x,
        ys: row_nums(row, cols.ys, readings),
        color_by: match cols.color {
            Some(p) => chart_num(row, p as int, readings),
            None => None,
        },
    }
}

/// The plotted rows among the first `n`: those with a place and at least one
/// value.
pub open spec fn plotted(
    rows: Seq<Seq<FieldV>>,
    cols: XyCols,
    mode: XMode,
    readings: Map<Seq<char>, NumV>,
    epochs: Map<Seq<char>, NumV>,
    n: int,
) -> Seq<XyRowV>
    decreases n,
{
    if n <= 0 {
        seq![]
    } else {
        let before = plotted(rows, cols, mode, readings, epochs, n - 1);
        match x_of(rows[n - 1], n - 1, cols.x, mode, readings, epochs) {
            Some(x) => if present(row_nums(rows[n - 1], cols.ys, readings)) > 0 {
                before.push(xy_row(rows[n - 1], x, cols, readings))
            } else {
                before
            },
            None => before,
        }
    }
}

/// How many points of the first `n` rows are not plotted: every one of a row
/// without a place, else those without a number.
pub open spec fn unplotted(
    rows: Seq<Seq<FieldV>>,
    cols: XyCols,
    mode: XMode,
    readings: Map<Seq<char>, NumV>,
    epochs: Map<Seq<char>, NumV>,
    n: int,
) -> nat
    decreases n,
{
    if n <= 0 {
        0
    } else {
        unplotted(rows, cols, mode, readings, epochs, n - 1) + match x_of(
            rows[n - 1],
            n - 1,
            cols.x,
            mode,
            readings,
            epochs,
        ) {
            Some(x) => (cols.ys.len() - present(row_nums(rows[n - 1], cols.ys, readings))) as nat,
            None => cols.ys.len(),
        }
    }
}

/// The axis of an x column. A row-number axis is labelled with the first and the
/// last raw cell.
pub open spec fn axis_of(rows: Seq<Seq<FieldV>>, xpos: int, mode: XMode) -> XAxisV {
    match mode {
        XMode::Numeric => XAxisV::Numeric,
        XMode::Time => XAxisV::Time,
        XMode::Row => if rows.len() == 0 {
            XAxisV::Ends(seq![], seq![])
        } else {
            XAxisV::Ends(
                cell_or_empty(rows[0], xpos).text(),
                cell_or_empty(rows.last(), xpos).text(),
            )
        },
    }
}

fn find_mode(rows: &Vec<Row>, xpos: usize, readings: &Readings, epochs: &Readings) -> (r: XMode)
    ensures
        r == x_mode(rows_view(rows@), xpos as int, readings@, epochs@),
{
    let ghost all = rows_view(rows@);
    let mut timed = rows.len() > 0;
    let mut i: usize = 0;
    while i < rows.len()
        invariant
            i <= rows.len(),
            all == rows_view(rows@),
            all.len() == rows.len(),
            forall|k: int| 0 <= k < i ==> chart_num(#[trigger] all[k], xpos as int, readings@) is None,
            timed == (all.len() > 0 && forall|k: int|
                0 <= k < i ==> epochs@.contains_key(
                    cell_or_empty(#[trigger] all[k], xpos as int).text(),
                )),
        decreases rows.len() - i,
    {
        assert(all[i as int] == row_view(rows@[i as int]@));
        if cell_num(rows[i].as_slice(), xpos, readings).is_some() {
            assert(chart_num(all[i as int], xpos as int, readings@) is Some);
            return XMode::Numeric;
        }
        if timed {
            let cell = cell_at(rows[i].as_slice(), xpos);
            if epochs.read(cell.as_str()).is_none() {
                timed = false;
            }
        }
        i += 1;
    }
    if timed {
        XMode::Time
    } else {
        XMode::Row
    }
}

fn place_row(
    row: &Row,
    i: usize,
    xpos: usize,
    mode: XMode,
    readings: &Readings,
    epochs: &Readings,
) -> (r: Option<Num>)
    requires
        mode == XMode::Time ==> epochs@.contains_key(
            cell_or_empty(row_view(row@), xpos as int).text(),
        ),
        i < usize::MAX,
    ensures
        opt_num(r) == x_of(row_view(row@), i as int, xpos as int, mode, readings@, epochs@),
{
    match mode {
        XMode::Numeric => cell_num(row.as_slice(), xpos, readings),
        XMode::Time => epochs.read(cell_at(row.as_slice(), xpos).as_str()),
        XMode::Row => Some(Num { bits: whole((i + 1) as u64), text: show_usize(i + 1) }),
    }
}

/// The raw cell of a column.
fn raw(row: &Row, pos: usize) -> (r: String)
    ensures
        r@ == cell_or_empty(row_view(row@), pos as int).text(),
{
    cell_at(row.as_slice(), pos).as_str().to_string()
}

/// Collect the rows of a scatter/line chart (header skipped). A non-numeric y
/// drops just that series' point (counted in `skipped`). The x column is
/// handled in three modes:
/// - **numeric** — plotted as-is, numeric axis labels;
/// - **temporal** — if no value is numeric but every one is a timestamp of
///   `epochs`, plot at true epoch positions and label the axis with formatted
///   dates;
/// - **row-index fallback** — otherwise (e.g. categories) plot against the
///   1-based row ordinal and label the axis with the first/last raw cells.
///
/// `color_pos` is the `-c/--color-by` column: each row keeps its value there,
/// for the renderers to map onto the ramp. A non-numeric colour cell simply
/// leaves that point uncoloured (it is not a reason to drop the point); the
/// caller counts those once the clipping is done, from the points it kept.
pub fn collect_xy(
    rows: &Vec<Row>,
    xname: String,
    xpos: usize,
    names: Vec<String>,
    ypos: &[usize],
    color_pos: Option<usize>,
    readings: &Readings,
    epochs: &Readings,
) -> (r: (XyData, u64))
    ensures
        ({
            let all = rows_view(rows@);
            let cols = XyCols { x: xpos as int, ys: ypos@, color: color_pos };
            let mode = x_mode(all, xpos as int, readings@, epochs@);
            &&& xy_rows(r.0.rows@) == plotted(
                all,
                cols,
                mode,
                readings@,
                epochs@,
                all.len() as int,
            )
            &&& r.1 == capped(
                unplotted(all, cols, mode, readings@, epochs@, all.len() as int),
            )
            &&& r.0.xaxis@ == axis_of(all, xpos as int, mode)
        }),
        r.0.xname == xname,
        r.0.names == names,
        !r.0.connect,
        r.0.xrange is None,
        r.0.yrange is None,
        r.0.color_by is None,
{
    let ghost all = rows_view(rows@);
    let ghost cols = XyCols { x: xpos as int, ys: ypos@, color: color_pos };
    let mode = find_mode(rows, xpos, readings, epochs);
    let mut out: Vec<XyRow> = Vec::new();
    let mut skipped: u64 = 0;
    let mut i: usize = 0;
    assert(xy_rows(out@) =~= plotted(all, cols, mode, readings@, epochs@, 0));
    while i < rows.len()
        invariant
            i <= rows.len(),
            all == rows_view(rows@),
            all.len() == rows.len(),
            cols == (XyCols { x: xpos as int, ys: ypos@, color: color_pos }),
            mode == x_mode(all, xpos as int, readings@, epochs@),
            xy_rows(out@) == plotted(all, cols, mode, readings@, epochs@, i as int),
            skipped == capped(unplotted(all, cols, mode, readings@, epochs@, i as int)),
        decreases rows.len() - i,
    {
        assert(all[i as int] == row_view(rows@[i as int]@));
        let ghost before = xy_rows(out@);
        let ghost lost = unplotted(all, cols, mode, readings@, epochs@, i as int);
        match place_row(&rows[i], i, xpos, mode, readings, epochs) {
            Some(x) => {
                let ys = read_nums(rows[i].as_slice(), ypos, readings);
                let n = count_present(&ys);
                skipped = tally(skipped, Ghost(lost), ypos.len() - n);
                if n > 0 {
                    let color_by = match color_pos {
                        Some(p) => cell_num(rows[i].as_slice(), p, readings),
                        None => None,
                    };
                    let row = XyRow { xcell: raw(&rows[i], xpos), x, ys, color_by };
                    let ghost shown = row@;
                    out.push(row);
                    assert(xy_rows(out@) =~= before.push(shown));
                }
            },
            None => {
                skipped = tally(skipped, Ghost(lost), ypos.len());
            },
        }
        i += 1;
    }
    let xaxis = match mode {
        XMode::Numeric => XAxis::Numeric,
        XMode::Time => XAxis::Time,
        XMode::Row => if rows.len() == 0 {
            let (first, last) = (String::new(), String::new());
            assert(first@ =~= seq![] && last@ =~= seq![]);
            XAxis::Ends(first, last)
        } else {
            assert(all[0] == row_view(rows@[0]@));
            assert(all.last() == row_view(rows@[rows@.len() - 1]@));
            XAxis::Ends(raw(&rows[0], xpos), raw(&rows[rows.len() - 1], xpos))
        },
    };
    let data = XyData {
        xname,
        names,
        rows: out,
        xaxis,
        connect: false,
        xrange: None,
        yrange: None,
        color_by: None,
    };
    (data, skipped)
}

/// Whether a chart has a place for a y: inside the range and, on a log axis,
/// positive.
pub open spec fn y_fits(y: Option<NumV>, yrange: Option<(u64, u64)>, log: bool) -> bool {
    match y {
        Some(v) => in_range(v.bits, yrange) && (log ==> positive(v.bits)),
        None => true,
    }
}

/// A row's ys, blank where the chart has no place for them.
pub open spec fn sifted_ys(
    ys: Seq<Option<NumV>>,
    yrange: Option<(u64, u64)>,
    log: bool,
) -> Seq<Option<NumV>> {
    ys.map_values(
        |y: Option<NumV>|
            if y_fits(y, yrange, log) {
                y
            } else {
                None
            },
    )
}

/// The rows that are left of the first `n`: those inside the x range, with the
/// ys that the chart has a place for, when there are any.
pub open spec fn sifted(
    rows: Seq<XyRowV>,
    xrange: Option<(u64, u64)>,
    yrange: Option<(u64, u64)>,
    log: bool,
    n: int,
) -> Seq<XyRowV>
    decreases n,
{
    if n <= 0 {
        seq![]
    } else {
        let before = sifted(rows, xrange, yrange, log, n - 1);
        let ys = sifted_ys(rows[n - 1].ys, yrange, log);
        if in_range(rows[n - 1].x.bits, xrange) && present(ys) > 0 {
            before.push(XyRowV { ys, ..rows[n - 1] })
        } else {
            before
        }
    }
}

/// How many points of the first `n` rows are lost to the ranges or the log axis.
pub open spec fn sifted_out(
    rows: Seq<XyRowV>,
    xrange: Option<(u64, u64)>,
    yrange: Option<(u64, u64)>,
    log: bool,
    n: int,
) -> nat
    decreases n,
{
    if n <= 0 {
        0
    } else {
        sifted_out(rows, xrange, yrange, log, n - 1) + if in_range(rows[n - 1].x.bits, xrange) {
            (present(rows[n - 1].ys) - present(sifted_ys(rows[n - 1].ys, yrange, log))) as nat
        } else {
            present(rows[n - 1].ys)
        }
    }
}

/// The axis of the rows that are left: a category axis labels its ends with the
/// raw cells, so they come from the rows that survived.
pub open spec fn refreshed(axis: XAxisV, rows: Seq<XyRowV>) -> XAxisV {
    match axis {
        XAxisV::Ends(_, _) => if rows.len() == 0 {
            XAxisV::Ends(seq![], seq![])
        } else {
            XAxisV::Ends(rows[0].xcell, rows.last().xcell)
        },
        _ => axis,
    }
}

proof fn lemma_sifting_loses(ys: Seq<Option<NumV>>, yrange: Option<(u64, u64)>, log: bool)
    ensures
        present(sifted_ys(ys, yrange, log)) <= present(ys),
    decreases ys.len(),
{
    if ys.len() > 0 {
        lemma_sifting_loses(ys.drop_last(), yrange, log);
        assert(sifted_ys(ys, yrange, log).drop_last() =~= sifted_ys(
            ys.drop_last(),
            yrange,
            log,
        ));
    }
}

fn fits(y: &Option<Num>, yrange: &AxisRange, log: bool) -> (r: bool)
    ensures
        r == y_fits(opt_num(*y), range_bits(*yrange), log),
{
    match y {
        Some(v) => inside(v.bits, yrange) && (!log || above_zero(v.bits)),
        None => true,
    }
}

fn sift_ys(ys: &Vec<Option<Num>>, yrange: &AxisRange, log: bool) -> (r: Vec<Option<Num>>)
    ensures
        opt_nums(r@) == sifted_ys(opt_nums(ys@), range_bits(*yrange), log),
        r@.len() == ys@.len(),
{
    let ghost all = sifted_ys(opt_nums(ys@), range_bits(*yrange), log);
    let mut r: Vec<Option<Num>> = Vec::new();
    let mut i: usize = 0;
    while i < ys.len()
        invariant
            i <= ys.len(),
            all == sifted_ys(opt_nums(ys@), range_bits(*yrange), log),
            opt_nums(r@) == all.take(i as int),
            r@.len() == i,
        decreases ys.len() - i,
    {
        let ghost before = r@;
        assert(opt_nums(ys@)[i as int] == opt_num(ys@[i as int]));
        let y: Option<Num> = match &ys[i] {
            Some(v) => if fits(&ys[i], yrange, log) {
                Some(v.clone())
            } else {
                None
            },
            None => None,
        };
        r.push(y);
        assert(opt_nums(r@) =~= opt_nums(before).push(all[i as int]));
        i += 1;
        assert(opt_nums(r@) =~= all.take(i as int));
    }
    assert(all.take(all.len() as int) =~= all);
    r
}

fn clone_opt(o: &Option<Num>) -> (r: Option<Num>)
    ensures
        opt_num(r) == opt_num(*o),
{
    match o {
        Some(n) => Some(n.clone()),
        None => None,
    }
}

fn sift(
    rows: &Vec<XyRow>,
    xrange: &AxisRange,
    yrange: &AxisRange,
    log: bool,
) -> (r: (Vec<XyRow>, u64))
    ensures
        xy_rows(r.0@) == sifted(
            xy_rows(rows@),
            range_bits(*xrange),
            range_bits(*yrange),
            log,
            rows@.len() as int,
        ),
        r.1 == capped(
            sifted_out(
                xy_rows(rows@),
                range_bits(*xrange),
                range_bits(*yrange),
                log,
                rows@.len() as int,
            ),
        ),
{
    let ghost all = xy_rows(rows@);
    let ghost (xr, yr) = (range_bits(*xrange), range_bits(*yrange));
    let mut out: Vec<XyRow> = Vec::new();
    let mut lost: u64 = 0;
    let mut i: usize = 0;
    assert(xy_rows(out@) =~= sifted(all, xr, yr, log, 0));
    while i < rows.len()
        invariant
            i <= rows.len(),
            all == xy_rows(rows@),
            xr == range_bits(*xrange),
            yr == range_bits(*yrange),
            xy_rows(out@) == sifted(all, xr, yr, log, i as int),
            lost == capped(sifted_out(all, xr, yr, log, i as int)),
        decreases rows.len() - i,
    {
        assert(all[i as int] == rows@[i as int]@);
        let ghost before = xy_rows(out@);
        let ghost gone = sifted_out(all, xr, yr, log, i as int);
        let row = &rows[i];
        let had = count_present(&row.ys);
        if inside(row.x.bits, xrange) {
            let ys = sift_ys(&row.ys, yrange, log);
            let has = count_present(&ys);
            proof {
                lemma_sifting_loses(opt_nums(row.ys@), yr, log);
            }
            lost = tally(lost, Ghost(gone), had - has);
            if has > 0 {
                let kept = XyRow {
                    xcell: row.xcell.as_str().to_string(),
                    x: row.x.clone(),
                    ys,
                    color_by: clone_opt(&row.color_by),
                };
                let ghost shown = kept@;
                out.push(kept);
                assert(xy_rows(out@) =~= before.push(shown));
            }
        } else {
            lost = tally(lost, Ghost(gone), had);
        }
        i += 1;
    }
    (out, lost)
}

impl XyData {
    /// A category axis labels its ends with the raw cells, so they have to come
    /// from the rows that survived a drop, not the original first and last.
    fn refresh_ends(&mut self)
        ensures
            final(self).xaxis@ == refreshed(old(self).xaxis@, xy_rows(old(self).rows@)),
            *final(self) == (XyData { xaxis: final(self).xaxis, ..*old(self) }),
    {
        let ghost all = xy_rows(self.rows@);
        let ends = match &self.xaxis {
            XAxis::Ends(_, _) => true,
            _ => false,
        };
        if ends {
            if self.rows.len() == 0 {
                let (first, last) = (String::new(), String::new());
                assert(first@ =~= seq![] && last@ =~= seq![]);
                self.xaxis = XAxis::Ends(first, last);
            } else {
                assert(all[0] == self.rows@[0]@);
                assert(all.last() == self.rows@[self.rows@.len() - 1]@);
                let first = self.rows[0].xcell.as_str().to_string();
                let last = self.rows[self.rows.len() - 1].xcell.as_str().to_string();
                self.xaxis = XAxis::Ends(first, last);
            }
        }
    }

    /// Apply the axis ranges to already-collected xy rows: a row whose x falls
    /// outside `xrange` goes entirely, and a y outside `yrange` is blanked. Every
    /// plotted point lost is counted, so the chart still says what it dropped.
    pub fn clip_xy(&mut self, xrange: &AxisRange, yrange: &AxisRange) -> (clipped: u64)
        ensures
            ({
                let rows = xy_rows(old(self).rows@);
                let (xr, yr) = (range_bits(*xrange), range_bits(*yrange));
                if xr is None && yr is None {
                    clipped == 0 && *final(self) == *old(self)
                } else {
                    let left = sifted(rows, xr, yr, false, rows.len() as int);
                    &&& clipped == capped(sifted_out(rows, xr, yr, false, rows.len() as int))
                    &&& xy_rows(final(self).rows@) == left
                    &&& final(self).xaxis@ == refreshed(old(self).xaxis@, left)
                    &&& *final(self) == (XyData {
                        rows: final(self).rows,
                        xaxis: final(self).xaxis,
                        ..*old(self)
                    })
                }
            }),
    {
        if xrange.is_none() && yrange.is_none() {
            return 0;
        }
        let (rows, clipped) = sift(&self.rows, xrange, yrange, false);
        self.rows = rows;
        self.refresh_ends();
        clipped
    }

    /// Blank each xy y a log axis cannot place (not positive, counted) and drop
    /// the rows left with no y at all. The kept ys stay real: the log10 happens
    /// when they are drawn.
    pub fn drop_non_positive_xy(&mut self) -> (dropped: u64)
        ensures
            ({
                let rows = xy_rows(old(self).rows@);
                let left = sifted(rows, None, None, true, rows.len() as int);
                &&& dropped == capped(sifted_out(rows, None, None, true, rows.len() as int))
                &&& xy_rows(final(self).rows@) == left
                &&& final(self).xaxis@ == refreshed(old(self).xaxis@, left)
                &&& *final(self) == (XyData {
                    rows: final(self).rows,
                    xaxis: final(self).xaxis,
                    ..*old(self)
                })
            }),
    {
        let (rows, dropped) = sift(&self.rows, &None, &None, true);
        self.rows = rows;
        self.refresh_ends();
        dropped
    }
}

/// Whether a row has a point of the first series.
pub open spec fn leads(row: XyRowV) -> bool {
    row.ys.len() > 0 && row.ys[0] is Some
}

/// The colour values of the first series' points among the first `n` rows.
pub open spec fn colors_of(rows: Seq<XyRowV>, n: int) -> Seq<Option<NumV>>
    decreases n,
{
    if n <= 0 {
        seq![]
    } else if leads(rows[n - 1]) {
        colors_of(rows, n - 1).push(rows[n - 1].color_by)
    } else {
        colors_of(rows, n - 1)
    }
}

/// The points of a series among the first `n` rows.
pub open spec fn series_of(rows: Seq<XyRowV>, k: int, n: int) -> Seq<(NumV, NumV)>
    decreases n,
{
    if n <= 0 {
        seq![]
    } else if k < rows[n - 1].ys.len() && rows[n - 1].ys[k] is Some {
        series_of(rows, k, n - 1).push((rows[n - 1].x, rows[n - 1].ys[k]->0))
    } else {
        series_of(rows, k, n - 1)
    }
}

/// Points in contracts.
pub open spec fn points(v: Seq<(Num, Num)>) -> Seq<(NumV, NumV)> {
    v.map_values(|p: (Num, Num)| (p.0@, p.1@))
}

impl XyData {
    /// The `-c/--color-by` value of every plotted point of the first series, in
    /// the same order as `series()[0]`. `--color-by` needs a single y series
    /// (the parser says so), so this is the whole per-point colouring.
    pub fn color_values(&self) -> (r: Vec<Option<Num>>)
        ensures
            opt_nums(r@) == colors_of(xy_rows(self.rows@), self.rows@.len() as int),
            r@.len() <= self.rows@.len(),
    {
        let ghost all = xy_rows(self.rows@);
        let mut r: Vec<Option<Num>> = Vec::new();
        let mut i: usize = 0;
        assert(opt_nums(r@) =~= colors_of(all, 0));
        while i < self.rows.len()
            invariant
                i <= self.rows.len(),
                all == xy_rows(self.rows@),
                opt_nums(r@) == colors_of(all, i as int),
                r@.len() <= i,
            decreases self.rows.len() - i,
        {
            assert(all[i as int] == self.rows@[i as int]@);
            let row = &self.rows[i];
            if row.ys.len() > 0 {
                assert(all[i as int].ys[0] == opt_num(row.ys@[0]));
                if row.ys[0].is_some() {
                    let ghost before = opt_nums(r@);
                    r.push(clone_opt(&row.color_by));
                    assert(opt_nums(r@) =~= before.push(all[i as int].color_by));
                }
            }
            i += 1;
        }
        r
    }

    /// How many of the plotted points have no `-c/--color-by` value, or 0 when
    /// the chart was never asked for one. Only a *drawn* point can be missing a
    /// colour, so this is asked after the ranges and the log axis have taken
    /// their rows — a note about colour has to count the same points the chart
    /// does.
    pub fn color_drops(&self) -> (n: u64)
        ensures
            n == (if self.color_by is Some {
                let colors = colors_of(xy_rows(self.rows@), self.rows@.len() as int);
                colors.len() - present(colors)
            } else {
                0
            }),
    {
        if self.color_by.is_none() {
            return 0;
        }
        let colors = self.color_values();
        (colors.len() - count_present(&colors)) as u64
    }

    /// The plotted points of a y-series.
    pub fn series_points(&self, k: usize) -> (r: Vec<(Num, Num)>)
        ensures
            points(r@) == series_of(xy_rows(self.rows@), k as int, self.rows@.len() as int),
    {
        let ghost all = xy_rows(self.rows@);
        let mut r: Vec<(Num, Num)> = Vec::new();
        let mut i: usize = 0;
        assert(points(r@) =~= series_of(all, k as int, 0));
        while i < self.rows.len()
            invariant
                i <= self.rows.len(),
                all == xy_rows(self.rows@),
                points(r@) == series_of(all, k as int, i as int),
            decreases self.rows.len() - i,
        {
            assert(all[i as int] == self.rows@[i as int]@);
            let row = &self.rows[i];
            if k < row.ys.len() {
                assert(all[i as int].ys[k as int] == opt_num(row.ys@[k as int]));
                match &row.ys[k] {
                    Some(y) => {
                        let ghost before = points(r@);
                        r.push((row.x.clone(), y.clone()));
                        assert(points(r@) =~= before.push((row.x@, y@)));
                    },
                    None => {},
                }
            }
            i += 1;
        }
        r
    }

    /// The plotted points per y-series.
    pub fn series(&self) -> (r: Vec<Vec<(Num, Num)>>)
        ensures
            r@.len() == self.names@.len(),
            forall|k: int|
                0 <= k < r@.len() ==> points((#[trigger] r@[k])@) == series_of(
                    xy_rows(self.rows@),
                    k,
                    self.rows@.len() as int,
                ),
    {
        let mut r: Vec<Vec<(Num, Num)>> = Vec::new();
        while r.len() < self.names.len()
            invariant
                r@.len() <= self.names@.len(),
                forall|k: int|
                    0 <= k < r@.len() ==> points((#[trigger] r@[k])@) == series_of(
                        xy_rows(self.rows@),
                        k,
                        self.rows@.len() as int,
                    ),
            decreases self.names.len() - r.len(),
        {
            let k = r.len();
            r.push(self.series_points(k));
        }
        r
    }
}

/// A range in contracts.
pub open spec fn range_view(range: AxisRange) -> Option<(NumV, NumV)> {
    match range {
        Some((lo, hi)) => Some((lo@, hi@)),
        None => None,
    }
}

fn clone_range(range: &AxisRange) -> (r: AxisRange)
    ensures
        range_view(r) == range_view(*range),
        range_bits(r) == range_bits(*range),
{
    match range {
        Some((lo, hi)) => Some((lo.clone(), hi.clone())),
        None => None,
    }
}

/// Labelled bars: one row per label, one value per series.
pub struct BarData {
    /// The label column's name (the CSV header's first cell under `--data`).
    pub label_name: String,
    pub value_names: Vec<String>,
    pub rows: Vec<BarRow>,
    /// An explicit value axis (`-y`/`--yrange`) instead of the data's own
    /// range: a bar past it draws to the edge, still printing its real value.
    pub axis: AxisRange,
}

/// What was read for a chart, by kind: what floating-point arithmetic makes of
/// it (bins, buckets, a grid) comes after.
pub enum Gathered {
    /// The values to bin.
    Hist(Vec<Num>),
    Bar(BarData),
    /// The values to bucket to the chart's width.
    Spark(Vec<Num>),
    Xy(XyData),
    /// The points to count in a grid: one series.
    Heat(XyData),
}

/// A collected chart: its data and the counts of what it could not use.
pub struct Collected {
    pub data: Gathered,
    pub drops: Drops,
}

/// The names of columns behind the first.
pub open spec fn value_names(cols: Seq<ColRef>) -> Seq<Seq<char>> {
    cols.skip(1).map_values(|c: ColRef| c.name@)
}

/// The positions of columns behind the first.
pub open spec fn value_positions(cols: Seq<ColRef>) -> Seq<usize> {
    cols.skip(1).map_values(|c: ColRef| c.pos)
}

fn behind_first(cols: &Vec<ColRef>) -> (r: (Vec<String>, Vec<usize>))
    requires
        cols@.len() > 0,
    ensures
        texts(r.0@) == value_names(cols@),
        r.1@ == value_positions(cols@),
{
    let ghost names_all = value_names(cols@);
    let ghost positions_all = value_positions(cols@);
    let mut names: Vec<String> = Vec::new();
    let mut positions: Vec<usize> = Vec::new();
    let mut i: usize = 1;
    assert(texts(names@) =~= names_all.take(0));
    assert(positions@ =~= positions_all.take(0));
    while i < cols.len()
        invariant
            1 <= i <= cols.len(),
            names_all == value_names(cols@),
            positions_all == value_positions(cols@),
            texts(names@) == names_all.take(i - 1),
            positions@ == positions_all.take(i - 1),
        decreases cols.len() - i,
    {
        let ghost before = texts(names@);
        assert(cols@.skip(1)[i - 1] == cols@[i as int]);
        names.push(cols[i].name.as_str().to_string());
        positions.push(cols[i].pos);
        assert(texts(names@) =~= before.push(cols@[i as int].name@));
        assert(texts(names@) =~= names_all.take(i as int));
        assert(positions@ =~= positions_all.take(i as int));
        i += 1;
    }
    assert(names_all.take(names_all.len() as int) =~= names_all);
    assert(positions_all.take(positions_all.len() as int) =~= positions_all);
    (names, positions)
}

/// What an xy chart collects, before any range or log axis takes from it: the
/// rows, the axis, and the points that are not plotted.
pub open spec fn xy_read(
    rows: Seq<Seq<FieldV>>,
    cols: XyCols,
    readings: Map<Seq<char>, NumV>,
    epochs: Map<Seq<char>, NumV>,
) -> (Seq<XyRowV>, XAxisV, u64) {
    let mode = x_mode(rows, cols.x, readings, epochs);
    (
        plotted(rows, cols, mode, readings, epochs, rows.len() as int),
        axis_of(rows, cols.x, mode),
        capped(unplotted(rows, cols, mode, readings, epochs, rows.len() as int)),
    )
}

/// What the ranges leave of an xy chart, and how many points they take.
pub open spec fn xy_clipped(
    rows: Seq<XyRowV>,
    axis: XAxisV,
    xr: Option<(u64, u64)>,
    yr: Option<(u64, u64)>,
) -> (Seq<XyRowV>, XAxisV, u64) {
    if xr is None && yr is None {
        (rows, axis, 0)
    } else {
        let left = sifted(rows, xr, yr, false, rows.len() as int);
        (
            left,
            refreshed(axis, left),
            capped(sifted_out(rows, xr, yr, false, rows.len() as int)),
        )
    }
}

/// What a log axis leaves of an xy chart, and how many points it takes.
pub open spec fn xy_logged(rows: Seq<XyRowV>, axis: XAxisV, log: bool) -> (
    Seq<XyRowV>,
    XAxisV,
    u64,
) {
    if log {
        let left = sifted(rows, None, None, true, rows.len() as int);
        (
            left,
            refreshed(axis, left),
            capped(sifted_out(rows, None, None, true, rows.len() as int)),
        )
    } else {
        (rows, axis, 0)
    }
}

/// Whether an xy chart and its drops are what its columns hold.
pub open spec fn xy_is(
    rows: Seq<Seq<FieldV>>,
    g: GraphSpec,
    readings: Map<Seq<char>, NumV>,
    epochs: Map<Seq<char>, NumV>,
    xy: XyData,
    drops: Drops,
) -> bool {
    let cols = XyCols {
        x: g.cols@[0].pos as int,
        ys: value_positions(g.cols@),
        color: match g.opts.color_by {
            Some(c) => Some(c.pos),
            None => None,
        },
    };
    let (r1, a1, skipped) = xy_read(rows, cols, readings, epochs);
    let (r2, a2, clipped) = xy_clipped(
        r1,
        a1,
        range_bits(g.opts.xrange),
        range_bits(g.opts.yrange),
    );
    let (r3, a3, dropped) = xy_logged(r2, a2, g.opts.log);
    let colors = colors_of(r3, r3.len() as int);
    &&& xy_rows(xy.rows@) == r3
    &&& xy.xaxis@ == a3
    &&& xy.xname@ == g.cols@[0].name@
    &&& texts(xy.names@) == value_names(g.cols@)
    &&& xy.connect == (g.kind == GraphKind::Line)
    &&& range_view(xy.xrange) == range_view(g.opts.xrange)
    &&& range_view(xy.yrange) == range_view(g.opts.yrange)
    &&& opt_text(xy.color_by) == (match g.opts.color_by {
        Some(c) => Some(c.name@),
        None => None,
    })
    &&& drops == (Drops {
        skipped,
        clipped,
        dropped,
        color: if g.opts.color_by is Some {
            (colors.len() - present(colors)) as u64
        } else {
            0
        },
        ..no_drops()
    })
}

/// Whether the points of a heatmap and its drops are what its columns hold. The
/// log axis of a heatmap is its count, so it takes no point.
pub open spec fn heat_is(
    rows: Seq<Seq<FieldV>>,
    g: GraphSpec,
    readings: Map<Seq<char>, NumV>,
    epochs: Map<Seq<char>, NumV>,
    xy: XyData,
    drops: Drops,
) -> bool {
    let cols = XyCols { x: g.cols@[0].pos as int, ys: seq![g.cols@[1].pos], color: None };
    let (r1, a1, skipped) = xy_read(rows, cols, readings, epochs);
    let (r2, a2, clipped) = xy_clipped(
        r1,
        a1,
        range_bits(g.opts.xrange),
        range_bits(g.opts.yrange),
    );
    &&& xy_rows(xy.rows@) == r2
    &&& xy.xaxis@ == a2
    &&& xy.xname@ == g.cols@[0].name@
    &&& texts(xy.names@) == seq![g.cols@[1].name@]
    &&& drops == (Drops { skipped, clipped, ..no_drops() })
}

/// Whether the bars and their drops are what a chart's columns hold.
pub open spec fn bars_are(
    rows: Seq<Seq<FieldV>>,
    g: GraphSpec,
    readings: Map<Seq<char>, NumV>,
    b: BarData,
    drops: Drops,
) -> bool {
    let cap = if g.opts.data {
        usize::MAX
    } else {
        MAX_BARS
    };
    let positions = value_positions(g.cols@);
    let drawn = bars(
        rows,
        g.cols@[0].pos as int,
        positions,
        cap as int,
        readings,
        rows.len() as int,
    );
    let numeric = numeric_rows(rows, positions, readings, rows.len() as int);
    &&& bar_rows(b.rows@) == drawn
    &&& b.label_name@ == g.cols@[0].name@
    &&& texts(b.value_names@) == value_names(g.cols@)
    &&& range_view(b.axis) == range_view(g.opts.yrange)
    &&& drops == (Drops {
        skipped: (rows.len() - numeric) as u64,
        truncated: (numeric - drawn.len()) as usize,
        ..no_drops()
    })
}

fn gather_xy(
    rows: &Vec<Row>,
    g: &GraphSpec,
    readings: &Readings,
    epochs: &Readings,
) -> (r: (XyData, Drops))
    requires
        g.cols@.len() > 0,
    ensures
        xy_is(rows_view(rows@), *g, readings@, epochs@, r.0, r.1),
{
    let (names, positions) = behind_first(&g.cols);
    let color_pos: Option<usize> = match &g.opts.color_by {
        Some(c) => Some(c.pos),
        None => None,
    };
    let (mut xy, skipped) = collect_xy(
        rows,
        g.cols[0].name.as_str().to_string(),
        g.cols[0].pos,
        names,
        positions.as_slice(),
        color_pos,
        readings,
        epochs,
    );
    xy.color_by = match &g.opts.color_by {
        Some(c) => Some(c.name.as_str().to_string()),
        None => None,
    };
    xy.connect = g.kind == GraphKind::Line;
    xy.xrange = clone_range(&g.opts.xrange);
    xy.yrange = clone_range(&g.opts.yrange);
    let clipped = xy.clip_xy(&g.opts.xrange, &g.opts.yrange);
    let dropped = if g.opts.log {
        xy.drop_non_positive_xy()
    } else {
        0
    };
    let color = xy.color_drops();
    assert(xy_rows(xy.rows@).len() == xy.rows@.len());
    (xy, Drops { skipped, clipped, dropped, color, ..Drops::default() })
}

fn gather_heat(
    rows: &Vec<Row>,
    g: &GraphSpec,
    readings: &Readings,
    epochs: &Readings,
) -> (r: (XyData, Drops))
    requires
        g.cols@.len() > 1,
    ensures
        heat_is(rows_view(rows@), *g, readings@, epochs@, r.0, r.1),
{
    let mut names: Vec<String> = Vec::new();
    names.push(g.cols[1].name.as_str().to_string());
    let mut positions: Vec<usize> = Vec::new();
    positions.push(g.cols[1].pos);
    assert(texts(names@) =~= seq![g.cols@[1].name@]);
    assert(positions@ =~= seq![g.cols@[1].pos]);
    let (mut xy, skipped) = collect_xy(
        rows,
        g.cols[0].name.as_str().to_string(),
        g.cols[0].pos,
        names,
        positions.as_slice(),
        None,
        readings,
        epochs,
    );
    let clipped = xy.clip_xy(&g.opts.xrange, &g.opts.yrange);
    (xy, Drops { skipped, clipped, ..Drops::default() })
}

/// Read the charted columns out of the buffered output (its first line is the
/// header) into the chart's data, with the counts of what it could not use.
/// Cells that are not numbers are dropped *loudly* — counted here and reported
/// by the renderer, the "strict and loud" policy. `readings` says what each text
/// reads as, and `epochs` which cells are timestamps and of what time.
pub fn collect(text: &str, g: &GraphSpec, readings: &Readings, epochs: &Readings) -> (r: Collected)
    requires
        g.cols@.len() > 0,
        g.kind == GraphKind::Heatmap ==> g.cols@.len() > 1,
    ensures
        ({
            let rows = data_of(text@);
            match g.kind {
                GraphKind::Hist => {
                    &&& r.data matches Gathered::Hist(values)
                    &&& (nums(values@), r.drops) == charted(
                        rows,
                        g.cols@[0].pos as int,
                        range_bits(g.opts.xrange),
                        false,
                        readings@,
                    )
                },
                GraphKind::Spark => {
                    &&& r.data matches Gathered::Spark(values)
                    &&& (nums(values@), r.drops) == charted(
                        rows,
                        g.cols@[0].pos as int,
                        range_bits(g.opts.yrange),
                        g.opts.log,
                        readings@,
                    )
                },
                GraphKind::Bar => {
                    &&& r.data matches Gathered::Bar(b)
                    &&& bars_are(rows, *g, readings@, b, r.drops)
                },
                GraphKind::Scatter | GraphKind::Line => {
                    &&& r.data matches Gathered::Xy(xy)
                    &&& xy_is(rows, *g, readings@, epochs@, xy, r.drops)
                },
                GraphKind::Heatmap => {
                    &&& r.data matches Gathered::Heat(xy)
                    &&& heat_is(rows, *g, readings@, epochs@, xy, r.drops)
                },
            }
        }),
{
    let rows = data_rows(text);
    match g.kind {
        GraphKind::Hist => {
            let (values, drops) = numeric_values(
                &rows,
                g.cols[0].pos,
                &g.opts.xrange,
                false,
                readings,
            );
            Collected { data: Gathered::Hist(values), drops }
        },
        GraphKind::Spark => {
            let (values, drops) = numeric_values(
                &rows,
                g.cols[0].pos,
                &g.opts.yrange,
                g.opts.log,
                readings,
            );
            Collected { data: Gathered::Spark(values), drops }
        },
        GraphKind::Bar => {
            let (value_names, positions) = behind_first(&g.cols);
            // The cap is on the *drawn* labels, one terminal line each.
            // `--data` writes CSV, not a picture, so it keeps every row.
            let cap: usize = if g.opts.data {
                usize::MAX
            } else {
                MAX_BARS
            };
            let (bars, skipped, truncated) = collect_bars(
                &rows,
                g.cols[0].pos,
                positions.as_slice(),
                cap,
                readings,
            );
            assert(bar_rows(bars@).len() == bars@.len());
            assert(rows_view(rows@).len() == rows@.len());
            let data = BarData {
                label_name: g.cols[0].name.as_str().to_string(),
                value_names,
                rows: bars,
                axis: clone_range(&g.opts.yrange),
            };
            Collected {
                data: Gathered::Bar(data),
                drops: Drops { skipped, truncated, ..Drops::default() },
            }
        },
        GraphKind::Scatter | GraphKind::Line => {
            let (xy, drops) = gather_xy(&rows, g, readings, epochs);
            Collected { data: Gathered::Xy(xy), drops }
        },
        GraphKind::Heatmap => {
            let (xy, drops) = gather_heat(&rows, g, readings, epochs);
            Collected { data: Gathered::Heat(xy), drops }
        },
    }
}

proof fn lemma_fewer(values: Seq<NumV>, range: Option<(u64, u64)>)
    ensures
        within(values, range).len() <= values.len(),
        positives(values).len() <= values.len(),
    decreases values.len(),
{
    if values.len() > 0 {
        lemma_fewer(values.drop_last(), range);
    }
}

proof fn lemma_column_fits(
    rows: Seq<Seq<FieldV>>,
    pos: int,
    readings: Map<Seq<char>, NumV>,
    n: int,
)
    requires
        0 <= n,
    ensures
        column(rows, pos, readings, n).len() <= n,
    decreases n,
{
    if n > 0 {
        lemma_column_fits(rows, pos, readings, n - 1);
    }
}

/// Strict and loud: every row of a charted column is either a value of the chart
/// or counted among its drops.
pub proof fn law_every_value_is_charted_or_counted(
    rows: Seq<Seq<FieldV>>,
    pos: int,
    range: Option<(u64, u64)>,
    log: bool,
    readings: Map<Seq<char>, NumV>,
)
    requires
        rows.len() <= u64::MAX,
    ensures
        ({
            let (values, drops) = charted(rows, pos, range, log, readings);
            values.len() + drops.skipped + drops.clipped + drops.dropped == rows.len()
        }),
{
    let read = column(rows, pos, readings, rows.len() as int);
    lemma_column_fits(rows, pos, readings, rows.len() as int);
    lemma_fewer(read, range);
    lemma_fewer(within(read, range), range);
}

/// How many points there are in rows of an xy chart.
pub open spec fn point_count(rows: Seq<XyRowV>) -> nat
    decreases rows.len(),
{
    if rows.len() == 0 {
        0
    } else {
        point_count(rows.drop_last()) + present(rows.last().ys)
    }
}

proof fn lemma_point_count_push(rows: Seq<XyRowV>, r: XyRowV)
    ensures
        point_count(rows.push(r)) == point_count(rows) + present(r.ys),
{
    assert(rows.push(r).drop_last() =~= rows);
}

/// Strict and loud: every point of an xy chart, one for each row and series, is
/// either plotted or counted.
pub proof fn law_every_point_is_plotted_or_counted(
    rows: Seq<Seq<FieldV>>,
    cols: XyCols,
    mode: XMode,
    readings: Map<Seq<char>, NumV>,
    epochs: Map<Seq<char>, NumV>,
    n: int,
)
    requires
        0 <= n <= rows.len(),
    ensures
        point_count(plotted(rows, cols, mode, readings, epochs, n)) + unplotted(
            rows,
            cols,
            mode,
            readings,
            epochs,
            n,
        ) == n * cols.ys.len(),
    decreases n,
{
    if n > 0 {
        law_every_point_is_plotted_or_counted(rows, cols, mode, readings, epochs, n - 1);
        let before = plotted(rows, cols, mode, readings, epochs, n - 1);
        let ys = row_nums(rows[n - 1], cols.ys, readings);
        lemma_present(ys);
        assert(n * cols.ys.len() == (n - 1) * cols.ys.len() + cols.ys.len()) by (nonlinear_arith);
        match x_of(rows[n - 1], n - 1, cols.x, mode, readings, epochs) {
            Some(x) => {
                if present(ys) > 0 {
                    lemma_point_count_push(before, xy_row(rows[n - 1], x, cols, readings));
                }
            },
            None => {},
        }
    } else {
        assert(n * cols.ys.len() == 0) by (nonlinear_arith)
            requires
                n == 0,
        ;
    }
}

/// Strict and loud: every point that a range or a log axis takes is counted.
pub proof fn law_every_point_taken_is_counted(
    rows: Seq<XyRowV>,
    xrange: Option<(u64, u64)>,
    yrange: Option<(u64, u64)>,
    log: bool,
    n: int,
)
    requires
        0 <= n <= rows.len(),
    ensures
        point_count(sifted(rows, xrange, yrange, log, n)) + sifted_out(
            rows,
            xrange,
            yrange,
            log,
            n,
        ) == point_count(rows.take(n)),
    decreases n,
{
    if n > 0 {
        law_every_point_taken_is_counted(rows, xrange, yrange, log, n - 1);
        let before = sifted(rows, xrange, yrange, log, n - 1);
        let ys = sifted_ys(rows[n - 1].ys, yrange, log);
        lemma_sifting_loses(rows[n - 1].ys, yrange, log);
        assert(rows.take(n).drop_last() =~= rows.take(n - 1));
        assert(rows.take(n).last() == rows[n - 1]);
        if in_range(rows[n - 1].x.bits, xrange) && present(ys) > 0 {
            lemma_point_count_push(before, XyRowV { ys, ..rows[n - 1] });
        }
    }
}

} // verus!
