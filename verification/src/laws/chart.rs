//! What a chart takes of the rows, and what it leaves out.

use crate::chart::Drops;
use crate::collect::{
    BarData, XMode, XyCols, XyData, XyRowV, axis_of, bar_rows, bars, bars_are, charted, colors_of,
    column, data_of, heat_is, in_range, numeric_rows, plotted, positive, positives, present,
    range_bits, refreshed, row_nums, series_of, sifted, sifted_ys, value_names, value_positions,
    within, x_mode, x_of, xy_clipped, xy_is, xy_logged, xy_rows,
};
use crate::csv::{chunk_rows, text_rows};
use crate::field::{FieldV, NumV, cell_or_empty, is_nan, place};
use crate::graph::XAxisV;
use crate::laws::csv::law_each_line_is_a_row;
use crate::plan::{GraphKind, GraphSpec};
use crate::text::{texts, trimmed};
use vstd::prelude::*;

verus! {

/// The number that a chart finds in a row's cell: a finite one, that is there.
pub open spec fn point(
    row: Seq<FieldV>,
    pos: int,
    readings: Map<Seq<char>, NumV>,
) -> Option<NumV> {
    if 0 <= pos < row.len() {
        let found = match row[pos] {
            FieldV::Num(n) => Some(n),
            FieldV::Str(s) => if trimmed(s).len() > 0 && readings.dom().contains(trimmed(s)) {
                Some(readings[trimmed(s)])
            } else {
                None
            },
        };
        match found {
            Some(n) => if -0x7ff0_0000_0000_0000 < place(n.bits) < 0x7ff0_0000_0000_0000 {
                Some(n)
            } else {
                None
            },
            None => None,
        }
    } else {
        None
    }
}

/// Whether a number lies in a range, its ends included.
pub open spec fn inside(n: NumV, range: Option<(u64, u64)>) -> bool {
    match range {
        Some((lo, hi)) => !is_nan(lo) && !is_nan(hi) && place(lo) <= place(n.bits) <= place(hi),
        None => true,
    }
}

/// What a range takes in: every number between its ends, both included; and what a log
/// axis can show: what is above zero.
pub proof fn law_a_range_holds_what_is_between_its_ends(
    row: Seq<FieldV>,
    pos: int,
    readings: Map<Seq<char>, NumV>,
    range: Option<(u64, u64)>,
    n: NumV,
)
    requires
        !is_nan(n.bits),
    ensures
        in_range(n.bits, range) <==> inside(n, range),
        positive(n.bits) <==> place(n.bits) > 0,
        crate::collect::chart_num(row, pos, readings) == point(row, pos, readings),
        point(row, pos, readings) matches Some(v) ==> !is_nan(v.bits),
{
    assert(place(0) == 0);
}

/// Whether a row has a number that a chart of its column shows.
pub open spec fn shown(
    row: Seq<FieldV>,
    pos: int,
    range: Option<(u64, u64)>,
    log: bool,
    readings: Map<Seq<char>, NumV>,
) -> bool {
    point(row, pos, readings) matches Some(n) && inside(n, range) && (log ==> place(n.bits) > 0)
}

/// A chart of a column has the finite numbers of the column that lie in its range, and on
/// a log axis are above zero, in the order of the rows; and it counts the rows without a
/// number, those that are out of range, and those that a log axis cannot show.
pub proof fn law_a_chart_has_the_numbers_of_its_column(
    rows: Seq<Seq<FieldV>>,
    pos: int,
    range: Option<(u64, u64)>,
    log: bool,
    readings: Map<Seq<char>, NumV>,
) -> (from: Seq<int>)
    requires
        rows.len() <= u64::MAX,
    ensures
        ({
            let (values, drops) = charted(rows, pos, range, log, readings);
            &&& values.len() == from.len()
            &&& forall|i: int|
                0 <= i < from.len() ==> 0 <= #[trigger] from[i] < rows.len() && point(
                    rows[from[i]],
                    pos,
                    readings,
                ) == Some(values[i])
            &&& forall|i: int, k: int|
                0 <= i < k < from.len() ==> #[trigger] from[i] < #[trigger] from[k]
            &&& forall|r: int|
                0 <= r < rows.len() ==> (#[trigger] from.contains(r) <==> shown(
                    rows[r],
                    pos,
                    range,
                    log,
                    readings,
                ))
            &&& drops.skipped == rows.filter(
                |row: Seq<FieldV>| point(row, pos, readings) is None,
            ).len()
            &&& drops.clipped == rows.filter(
                |row: Seq<FieldV>|
                    point(row, pos, readings) is Some && !inside(
                        point(row, pos, readings)->Some_0,
                        range,
                    ),
            ).len()
            &&& drops.dropped == rows.filter(
                |row: Seq<FieldV>|
                    log && point(row, pos, readings) is Some && inside(
                        point(row, pos, readings)->Some_0,
                        range,
                    ) && place(point(row, pos, readings)->Some_0.bits) <= 0,
            ).len()
        }),
{
    assert(rows.take(rows.len() as int) =~= rows);
    lemma_charted(rows, pos, range, log, readings, rows.len() as int)
}

proof fn lemma_charted(
    rows: Seq<Seq<FieldV>>,
    pos: int,
    range: Option<(u64, u64)>,
    log: bool,
    readings: Map<Seq<char>, NumV>,
    n: int,
) -> (from: Seq<int>)
    requires
        0 <= n <= rows.len(),
    ensures
        ({
            let read = column(rows, pos, readings, n);
            let clipped = within(read, range);
            let kept = if log {
                positives(clipped)
            } else {
                clipped
            };
            let some = rows.take(n);
            &&& kept.len() == from.len()
            &&& forall|i: int|
                0 <= i < from.len() ==> 0 <= #[trigger] from[i] < n && point(
                    rows[from[i]],
                    pos,
                    readings,
                ) == Some(kept[i])
            &&& forall|i: int, k: int|
                0 <= i < k < from.len() ==> #[trigger] from[i] < #[trigger] from[k]
            &&& forall|r: int|
                0 <= r < n ==> (#[trigger] from.contains(r) <==> shown(
                    rows[r],
                    pos,
                    range,
                    log,
                    readings,
                ))
            &&& n - read.len() == some.filter(
                |row: Seq<FieldV>| point(row, pos, readings) is None,
            ).len()
            &&& read.len() - clipped.len() == some.filter(
                |row: Seq<FieldV>|
                    point(row, pos, readings) is Some && !inside(
                        point(row, pos, readings)->Some_0,
                        range,
                    ),
            ).len()
            &&& clipped.len() - kept.len() == some.filter(
                |row: Seq<FieldV>|
                    log && point(row, pos, readings) is Some && inside(
                        point(row, pos, readings)->Some_0,
                        range,
                    ) && place(point(row, pos, readings)->Some_0.bits) <= 0,
            ).len()
        }),
    decreases n,
{
    reveal(Seq::filter);
    if n == 0 {
        Seq::empty()
    } else {
        let before = lemma_charted(rows, pos, range, log, readings, n - 1);
        assert(rows.take(n).drop_last() =~= rows.take(n - 1));
        assert(rows.take(n).last() == rows[n - 1]);
        let row = rows[n - 1];
        let read = column(rows, pos, readings, n - 1);
        let clipped = within(read, range);
        match point(row, pos, readings) {
            None => {
                law_a_range_holds_what_is_between_its_ends(
                    row,
                    pos,
                    readings,
                    range,
                    crate::field::zero(),
                );
                lemma_not_more(before, n);
                before
            },
            Some(v) => {
                assert(!is_nan(v.bits));
                law_a_range_holds_what_is_between_its_ends(row, pos, readings, range, v);
                assert(read.push(v).drop_last() =~= read);
                assert(clipped.push(v).drop_last() =~= clipped);
                if shown(row, pos, range, log, readings) {
                    let from = before.push(n - 1);
                    lemma_one_more(before, n);
                    assert forall|i: int| 0 <= i < from.len() implies 0 <= #[trigger] from[i] < n
                        && point(rows[from[i]], pos, readings) == Some(
                        (if log {
                            positives(within(read.push(v), range))
                        } else {
                            within(read.push(v), range)
                        })[i],
                    ) by {
                        if i < before.len() {
                            assert(from[i] == before[i]);
                        }
                    }
                    from
                } else {
                    lemma_not_more(before, n);
                    before
                }
            },
        }
    }
}

proof fn lemma_one_more(before: Seq<int>, n: int)
    requires
        forall|i: int| 0 <= i < before.len() ==> #[trigger] before[i] < n - 1,
    ensures
        before.push(n - 1).contains(n - 1),
        forall|r: int|
            r < n - 1 ==> (#[trigger] before.push(n - 1).contains(r) <==> before.contains(r)),
{
    let from = before.push(n - 1);
    assert(from[before.len() as int] == n - 1);
    assert forall|r: int| r < n - 1 implies (#[trigger] from.contains(r) <==> before.contains(
        r,
    )) by {
        if before.contains(r) {
            let i = before.index_of(r);
            assert(from[i] == r);
        }
        if from.contains(r) {
            let i = from.index_of(r);
            assert(before[i] == r);
        }
    }
}

proof fn lemma_not_more(before: Seq<int>, n: int)
    requires
        forall|i: int| 0 <= i < before.len() ==> #[trigger] before[i] < n - 1,
    ensures
        !before.contains(n - 1),
{
    if before.contains(n - 1) {
        let i = before.index_of(n - 1);
        assert(before[i] == n - 1);
    }
}

/// Whether one of the row's cells at those places has a number.
pub open spec fn any_point(
    row: Seq<FieldV>,
    positions: Seq<usize>,
    readings: Map<Seq<char>, NumV>,
) -> bool {
    exists|k: int|
        0 <= k < positions.len() && point(row, #[trigger] positions[k] as int, readings) is Some
}

proof fn lemma_present(vs: Seq<Option<NumV>>)
    ensures
        present(vs) > 0 <==> exists|k: int| 0 <= k < vs.len() && #[trigger] vs[k] is Some,
    decreases vs.len(),
{
    if vs.len() > 0 {
        let front = vs.drop_last();
        lemma_present(front);
        assert(forall|k: int| 0 <= k < front.len() ==> #[trigger] front[k] == vs[k]);
        if present(front) > 0 {
            let k = choose|k: int| 0 <= k < front.len() && #[trigger] front[k] is Some;
            assert(vs[k] is Some);
        }
        if vs.last() is Some {
            assert(vs[vs.len() - 1] is Some);
        }
        if exists|k: int| 0 <= k < vs.len() && #[trigger] vs[k] is Some {
            let k = choose|k: int| 0 <= k < vs.len() && #[trigger] vs[k] is Some;
            if k < front.len() {
                assert(front[k] is Some);
            }
        }
    }
}

proof fn lemma_row_nums(row: Seq<FieldV>, positions: Seq<usize>, readings: Map<Seq<char>, NumV>)
    ensures
        row_nums(row, positions, readings).len() == positions.len(),
        forall|k: int|
            0 <= k < positions.len() ==> #[trigger] row_nums(row, positions, readings)[k] == point(
                row,
                positions[k] as int,
                readings,
            ),
        present(row_nums(row, positions, readings)) > 0 <==> any_point(row, positions, readings),
{
    let vs = row_nums(row, positions, readings);
    lemma_present(vs);
    assert forall|k: int| 0 <= k < positions.len() implies #[trigger] vs[k] == point(
        row,
        positions[k] as int,
        readings,
    ) by {
        law_a_range_holds_what_is_between_its_ends(
            row,
            positions[k] as int,
            readings,
            None,
            crate::field::zero(),
        );
    }
    if any_point(row, positions, readings) {
        let k = choose|k: int|
            0 <= k < positions.len() && point(row, #[trigger] positions[k] as int, readings) is Some;
        assert(vs[k] is Some);
    }
    if present(vs) > 0 {
        let k = choose|k: int| 0 <= k < vs.len() && #[trigger] vs[k] is Some;
        assert(point(row, positions[k] as int, readings) is Some);
    }
}

/// A bar chart has a group of bars for each row with a number, in order and up to its
/// cap: the row's label, and for each value column the number there, if any.
pub proof fn law_bars_are_of_the_rows_with_numbers(
    rows: Seq<Seq<FieldV>>,
    label: int,
    positions: Seq<usize>,
    cap: int,
    readings: Map<Seq<char>, NumV>,
    n: int,
) -> (from: Seq<int>)
    requires
        0 <= n <= rows.len(),
        0 <= cap,
    ensures
        ({
            let out = bars(rows, label, positions, cap, readings, n);
            let all = numeric_rows(rows, positions, readings, n);
            &&& out.len() == from.len()
            &&& out.len() == (if all < cap {
                all as int
            } else {
                cap
            })
            &&& all == rows.take(n).filter(
                |row: Seq<FieldV>| any_point(row, positions, readings),
            ).len()
            &&& forall|i: int|
                0 <= i < from.len() ==> {
                    let row = rows[#[trigger] from[i]];
                    &&& 0 <= from[i] < n
                    &&& out[i].0 == cell_or_empty(row, label).text()
                    &&& out[i].1.len() == positions.len()
                    &&& forall|k: int|
                        0 <= k < positions.len() ==> #[trigger] out[i].1[k] == point(
                            row,
                            positions[k] as int,
                            readings,
                        )
                }
            &&& forall|i: int, k: int|
                0 <= i < k < from.len() ==> #[trigger] from[i] < #[trigger] from[k]
            &&& forall|r: int|
                0 <= r < n && all <= cap ==> (#[trigger] from.contains(r) <==> any_point(
                    rows[r],
                    positions,
                    readings,
                ))
            &&& forall|r: int|
                0 <= r < n && any_point(#[trigger] rows[r], positions, readings) ==> from.contains(
                    r,
                ) || forall|i: int| 0 <= i < from.len() ==> #[trigger] from[i] < r
        }),
    decreases n,
{
    reveal(Seq::filter);
    if n == 0 {
        Seq::empty()
    } else {
        let before = law_bars_are_of_the_rows_with_numbers(
            rows,
            label,
            positions,
            cap,
            readings,
            n - 1,
        );
        assert(rows.take(n).drop_last() =~= rows.take(n - 1));
        assert(rows.take(n).last() == rows[n - 1]);
        let row = rows[n - 1];
        let out = bars(rows, label, positions, cap, readings, n - 1);
        lemma_row_nums(row, positions, readings);
        lemma_not_more(before, n);
        if any_point(row, positions, readings) && out.len() < cap {
            let from = before.push(n - 1);
            lemma_one_more(before, n);
            let new = bars(rows, label, positions, cap, readings, n);
            assert forall|i: int| 0 <= i < from.len() implies {
                let row = rows[#[trigger] from[i]];
                &&& 0 <= from[i] < n
                &&& new[i].0 == cell_or_empty(row, label).text()
                &&& new[i].1.len() == positions.len()
                &&& forall|k: int|
                    0 <= k < positions.len() ==> #[trigger] new[i].1[k] == point(
                        row,
                        positions[k] as int,
                        readings,
                    )
            } by {
                if i < before.len() {
                    assert(from[i] == before[i]);
                    assert(new[i] == out[i]);
                }
            }
            assert forall|r: int|
                0 <= r < n && any_point(
                    #[trigger] rows[r],
                    positions,
                    readings,
                ) implies from.contains(r) || forall|i: int|
                0 <= i < from.len() ==> #[trigger] from[i] < r by {
                if r < n - 1 {
                    assert(before.contains(r));
                }
            }
            from
        } else {
            before
        }
    }
}

/// The x axis is one of numbers where one of its cells is a number; else one of times
/// where all of them are; else the rows are counted.
pub proof fn law_the_x_axis_goes_by_its_cells(
    rows: Seq<Seq<FieldV>>,
    xpos: int,
    readings: Map<Seq<char>, NumV>,
    epochs: Map<Seq<char>, NumV>,
    i: int,
)
    requires
        0 <= i < rows.len(),
    ensures
        point(rows[i], xpos, readings) is Some ==> x_mode(rows, xpos, readings, epochs)
            == XMode::Numeric,
        x_mode(rows, xpos, readings, epochs) == XMode::Numeric ==> x_of(
            rows[i],
            i,
            xpos,
            XMode::Numeric,
            readings,
            epochs,
        ) == point(rows[i], xpos, readings),
        x_mode(rows, xpos, readings, epochs) == XMode::Time ==> point(rows[i], xpos, readings) is None
            && epochs.dom().contains(cell_or_empty(rows[i], xpos).text()) && x_of(
            rows[i],
            i,
            xpos,
            XMode::Time,
            readings,
            epochs,
        ) == Some(epochs[cell_or_empty(rows[i], xpos).text()]),
        x_mode(rows, xpos, readings, epochs) == XMode::Row ==> point(rows[i], xpos, readings) is None
            && (exists|k: int|
            0 <= k < rows.len() && !epochs.dom().contains(
                cell_or_empty(#[trigger] rows[k], xpos).text(),
            )) && (x_of(rows[i], i, xpos, XMode::Row, readings, epochs) matches Some(x) && x.text
            == crate::text::decimal((i + 1) as nat)),
{
    assert forall|k: int| 0 <= k < rows.len() implies crate::collect::chart_num(
        #[trigger] rows[k],
        xpos,
        readings,
    ) == point(rows[k], xpos, readings) by {
        law_a_range_holds_what_is_between_its_ends(
            rows[k],
            xpos,
            readings,
            None,
            crate::field::zero(),
        );
    }
}

/// Whether an xy chart has a point of the row: it has an x, and one of its y cells has a
/// number.
pub open spec fn has_point(
    row: Seq<FieldV>,
    i: int,
    cols: XyCols,
    mode: XMode,
    readings: Map<Seq<char>, NumV>,
    epochs: Map<Seq<char>, NumV>,
) -> bool {
    x_of(row, i, cols.x, mode, readings, epochs) is Some && any_point(row, cols.ys, readings)
}

/// An xy chart plots the rows that have a point, in order: at the row's x, and for each
/// series at the number of its column, if any.
pub proof fn law_points_are_of_the_rows_that_have_them(
    rows: Seq<Seq<FieldV>>,
    cols: XyCols,
    mode: XMode,
    readings: Map<Seq<char>, NumV>,
    epochs: Map<Seq<char>, NumV>,
    n: int,
) -> (from: Seq<int>)
    requires
        0 <= n <= rows.len(),
    ensures
        ({
            let out = plotted(rows, cols, mode, readings, epochs, n);
            &&& out.len() == from.len()
            &&& forall|i: int|
                0 <= i < from.len() ==> {
                    let row = rows[#[trigger] from[i]];
                    &&& 0 <= from[i] < n
                    &&& x_of(row, from[i], cols.x, mode, readings, epochs) == Some(out[i].x)
                    &&& out[i].xcell == cell_or_empty(row, cols.x).text()
                    &&& out[i].ys.len() == cols.ys.len()
                    &&& forall|k: int|
                        0 <= k < cols.ys.len() ==> #[trigger] out[i].ys[k] == point(
                            row,
                            cols.ys[k] as int,
                            readings,
                        )
                }
            &&& forall|i: int, k: int|
                0 <= i < k < from.len() ==> #[trigger] from[i] < #[trigger] from[k]
            &&& forall|r: int|
                0 <= r < n ==> (#[trigger] from.contains(r) <==> has_point(
                    rows[r],
                    r,
                    cols,
                    mode,
                    readings,
                    epochs,
                ))
        }),
    decreases n,
{
    if n == 0 {
        Seq::empty()
    } else {
        let before = law_points_are_of_the_rows_that_have_them(
            rows,
            cols,
            mode,
            readings,
            epochs,
            n - 1,
        );
        let row = rows[n - 1];
        let out = plotted(rows, cols, mode, readings, epochs, n - 1);
        lemma_row_nums(row, cols.ys, readings);
        if has_point(row, n - 1, cols, mode, readings, epochs) {
            let from = before.push(n - 1);
            lemma_one_more(before, n);
            let new = plotted(rows, cols, mode, readings, epochs, n);
            assert forall|i: int| 0 <= i < from.len() implies {
                let row = rows[#[trigger] from[i]];
                &&& 0 <= from[i] < n
                &&& x_of(row, from[i], cols.x, mode, readings, epochs) == Some(new[i].x)
                &&& new[i].xcell == cell_or_empty(row, cols.x).text()
                &&& new[i].ys.len() == cols.ys.len()
                &&& forall|k: int|
                    0 <= k < cols.ys.len() ==> #[trigger] new[i].ys[k] == point(
                        row,
                        cols.ys[k] as int,
                        readings,
                    )
            } by {
                if i < before.len() {
                    assert(from[i] == before[i]);
                    assert(new[i] == out[i]);
                }
            }
            from
        } else {
            lemma_not_more(before, n);
            before
        }
    }
}

/// Whether a point stays under the ranges and the log axis.
pub open spec fn stays(
    x: NumV,
    y: NumV,
    xrange: Option<(u64, u64)>,
    yrange: Option<(u64, u64)>,
    log: bool,
) -> bool {
    &&& in_range(x.bits, xrange)
    &&& in_range(y.bits, yrange)
    &&& log ==> positive(y.bits)
}

/// Ranges and a log axis take just the points that are outside, and keep the order of
/// the others: a series has, of the rows in order, each point of it that stays.
pub proof fn law_ranges_take_just_the_points_outside(
    rows: Seq<XyRowV>,
    xrange: Option<(u64, u64)>,
    yrange: Option<(u64, u64)>,
    log: bool,
    k: int,
    n: int,
)
    requires
        0 <= n <= rows.len(),
        0 <= k,
    ensures
        ({
            let left = sifted(rows, xrange, yrange, log, n);
            series_of(left, k, left.len() as int) == series_of(rows, k, n).filter(
                |p: (NumV, NumV)| stays(p.0, p.1, xrange, yrange, log),
            )
        }),
    decreases n,
{
    reveal(Seq::filter);
    let f = |p: (NumV, NumV)| stays(p.0, p.1, xrange, yrange, log);
    if n > 0 {
        law_ranges_take_just_the_points_outside(rows, xrange, yrange, log, k, n - 1);
        let row = rows[n - 1];
        let ys = sifted_ys(row.ys, yrange, log);
        let before = sifted(rows, xrange, yrange, log, n - 1);
        let left = sifted(rows, xrange, yrange, log, n);
        let was = series_of(rows, k, n - 1);
        lemma_present(ys);
        if in_range(row.x.bits, xrange) && present(ys) > 0 {
            let new = XyRowV { ys, ..row };
            assert(left == before.push(new));
            lemma_series_prefix(before, new, k, before.len() as int);
            if k < row.ys.len() && row.ys[k] is Some {
                let p = (row.x, row.ys[k]->0);
                assert(was.push(p).drop_last() =~= was);
                assert(was.push(p).last() == p);
            }
        } else {
            if k < row.ys.len() && row.ys[k] is Some {
                let p = (row.x, row.ys[k]->0);
                assert(was.push(p).drop_last() =~= was);
                assert(was.push(p).last() == p);
                if in_range(row.x.bits, xrange) {
                    assert(!(ys[k] is Some));
                }
            }
        }
    }
}

proof fn lemma_series_prefix(before: Seq<XyRowV>, new: XyRowV, k: int, n: int)
    requires
        0 <= n <= before.len(),
    ensures
        series_of(before.push(new), k, n) == series_of(before, k, n),
    decreases n,
{
    if n > 0 {
        lemma_series_prefix(before, new, k, n - 1);
    }
}

/// The points that a chart's ranges and its log axis let through.
pub open spec fn let_through(g: GraphSpec, p: (NumV, NumV)) -> bool {
    &&& in_range(p.0.bits, range_bits(g.opts.xrange))
    &&& in_range(p.1.bits, range_bits(g.opts.yrange))
    &&& g.opts.log ==> positive(p.1.bits)
}

proof fn lemma_all_stay(s: Seq<(NumV, NumV)>, f: spec_fn((NumV, NumV)) -> bool)
    requires
        forall|i: int| 0 <= i < s.len() ==> f(#[trigger] s[i]),
    ensures
        s.filter(f) == s,
    decreases s.len(),
{
    reveal(Seq::filter);
    if s.len() > 0 {
        assert forall|i: int| 0 <= i < s.drop_last().len() implies f(
            #[trigger] s.drop_last()[i],
        ) by {
            assert(s.drop_last()[i] == s[i]);
        }
        lemma_all_stay(s.drop_last(), f);
        assert(s.drop_last().push(s.last()) =~= s);
    }
}

proof fn lemma_filter_twice(
    s: Seq<(NumV, NumV)>,
    f: spec_fn((NumV, NumV)) -> bool,
    g: spec_fn((NumV, NumV)) -> bool,
    both: spec_fn((NumV, NumV)) -> bool,
)
    requires
        forall|p: (NumV, NumV)| #[trigger] both(p) <==> f(p) && g(p),
    ensures
        s.filter(f).filter(g) == s.filter(both),
    decreases s.len(),
{
    reveal(Seq::filter);
    if s.len() > 0 {
        let front = s.drop_last();
        lemma_filter_twice(front, f, g, both);
        assert(both(s.last()) <==> f(s.last()) && g(s.last()));
        if f(s.last()) {
            let a = front.filter(f);
            assert(s.filter(f) == a.push(s.last()));
            assert(a.push(s.last()).drop_last() =~= a);
            assert(a.push(s.last()).last() == s.last());
        }
    }
}

/// An xy chart has, in each series, the points of its column that its ranges and its log
/// axis let through, in the order of the rows; its columns go by their names, and it
/// joins its points just when it is a line chart.
pub proof fn law_an_xy_chart_has_the_points_let_through(
    rows: Seq<Seq<FieldV>>,
    g: GraphSpec,
    readings: Map<Seq<char>, NumV>,
    epochs: Map<Seq<char>, NumV>,
    xy: XyData,
    drops: Drops,
    k: int,
)
    requires
        g.cols@.len() >= 2,
        xy_is(rows, g, readings, epochs, xy, drops),
        0 <= k < g.cols@.len() - 1,
    ensures
        ({
            let cols = XyCols {
                x: g.cols@[0].pos as int,
                ys: Seq::new((g.cols@.len() - 1) as nat, |i: int| g.cols@[i + 1].pos),
                color: match g.opts.color_by {
                    Some(c) => Some(c.pos),
                    None => None,
                },
            };
            let mode = x_mode(rows, cols.x, readings, epochs);
            let all = plotted(rows, cols, mode, readings, epochs, rows.len() as int);
            let got = xy_rows(xy.rows@);
            &&& series_of(got, k, got.len() as int) == series_of(all, k, all.len() as int).filter(
                |p: (NumV, NumV)| let_through(g, p),
            )
            &&& xy.xname@ == g.cols@[0].name@
            &&& xy.names@.len() == g.cols@.len() - 1
            &&& xy.names@[k]@ == g.cols@[k + 1].name@
            &&& xy.connect <==> g.kind == GraphKind::Line
        }),
{
    let ys = Seq::new((g.cols@.len() - 1) as nat, |i: int| g.cols@[i + 1].pos);
    assert(value_positions(g.cols@) =~= ys);
    let cols = XyCols {
        x: g.cols@[0].pos as int,
        ys,
        color: match g.opts.color_by {
            Some(c) => Some(c.pos),
            None => None,
        },
    };
    let mode = x_mode(rows, cols.x, readings, epochs);
    let r1 = plotted(rows, cols, mode, readings, epochs, rows.len() as int);
    let (xr, yr) = (range_bits(g.opts.xrange), range_bits(g.opts.yrange));
    let a = series_of(r1, k, r1.len() as int);
    let f = |p: (NumV, NumV)| stays(p.0, p.1, xr, yr, false);
    let h = |p: (NumV, NumV)| stays(p.0, p.1, None, None, true);
    let both = |p: (NumV, NumV)| let_through(g, p);
    let axis = axis_of(rows, cols.x, mode);
    let (r2, a2, _) = xy_clipped(r1, axis, xr, yr);
    let b = series_of(r2, k, r2.len() as int);
    assert(b == a.filter(f)) by {
        if xr is None && yr is None {
            lemma_all_stay(a, f);
        } else {
            law_ranges_take_just_the_points_outside(r1, xr, yr, false, k, r1.len() as int);
        }
    }
    let (r3, _, _) = xy_logged(r2, a2, g.opts.log);
    if g.opts.log {
        law_ranges_take_just_the_points_outside(r2, None, None, true, k, r2.len() as int);
        lemma_filter_twice(a, f, h, both);
        assert(series_of(r3, k, r3.len() as int) == a.filter(f).filter(h));
    } else {
        lemma_filter_twice(a, f, |p: (NumV, NumV)| true, both);
        lemma_all_stay(a.filter(f), |p: (NumV, NumV)| true);
    }
    assert(texts(xy.names@).len() == xy.names@.len());
    assert(texts(xy.names@)[k] == xy.names@[k]@);
    assert(value_names(g.cols@)[k] == g.cols@[k + 1].name@);
}

/// A bar chart is of its first column's labels and the values of the others, by their
/// names; what is past the cap is counted, and so are the rows without a number.
pub proof fn law_a_bar_chart_goes_by_its_columns(
    rows: Seq<Seq<FieldV>>,
    g: GraphSpec,
    readings: Map<Seq<char>, NumV>,
    b: BarData,
    drops: Drops,
) -> (from: Seq<int>)
    requires
        g.cols@.len() >= 2,
        bars_are(rows, g, readings, b, drops),
        rows.len() <= usize::MAX,
    ensures
        ({
            let ys = Seq::new((g.cols@.len() - 1) as nat, |i: int| g.cols@[i + 1].pos);
            let cap: int = if g.opts.data {
                usize::MAX as int
            } else {
                50
            };
            let out = bar_rows(b.rows@);
            let all = rows.filter(|row: Seq<FieldV>| any_point(row, ys, readings)).len();
            &&& b.label_name@ == g.cols@[0].name@
            &&& b.value_names@.len() == g.cols@.len() - 1
            &&& forall|k: int|
                0 <= k < b.value_names@.len() ==> (#[trigger] b.value_names@[k])@ == g.cols@[k
                    + 1].name@
            &&& out.len() == from.len() == (if all < cap {
                all as int
            } else {
                cap
            })
            &&& drops.skipped == rows.len() - all
            &&& drops.truncated == all - out.len()
            &&& forall|i: int|
                0 <= i < from.len() ==> {
                    let row = rows[#[trigger] from[i]];
                    &&& 0 <= from[i] < rows.len()
                    &&& out[i].0 == cell_or_empty(row, g.cols@[0].pos as int).text()
                    &&& out[i].1.len() == ys.len()
                    &&& forall|k: int|
                        0 <= k < ys.len() ==> #[trigger] out[i].1[k] == point(
                            row,
                            ys[k] as int,
                            readings,
                        )
                }
            &&& forall|i: int, k: int|
                0 <= i < k < from.len() ==> #[trigger] from[i] < #[trigger] from[k]
        }),
{
    let ys = Seq::new((g.cols@.len() - 1) as nat, |i: int| g.cols@[i + 1].pos);
    assert(value_positions(g.cols@) =~= ys);
    let cap: int = if g.opts.data {
        usize::MAX as int
    } else {
        50
    };
    let from = law_bars_are_of_the_rows_with_numbers(
        rows,
        g.cols@[0].pos as int,
        ys,
        cap,
        readings,
        rows.len() as int,
    );
    assert(rows.take(rows.len() as int) =~= rows);
    let f = |row: Seq<FieldV>| any_point(row, ys, readings);
    lemma_filter_len(rows, f);
    assert(texts(b.value_names@).len() == b.value_names@.len());
    assert forall|k: int| 0 <= k < b.value_names@.len() implies (#[trigger] b.value_names@[k])@
        == g.cols@[k + 1].name@ by {
        assert(texts(b.value_names@)[k] == b.value_names@[k]@);
        assert(value_names(g.cols@)[k] == g.cols@[k + 1].name@);
    }
    from
}

proof fn lemma_filter_len(rows: Seq<Seq<FieldV>>, f: spec_fn(Seq<FieldV>) -> bool)
    ensures
        rows.filter(f).len() <= rows.len(),
    decreases rows.len(),
{
    reveal(Seq::filter);
    if rows.len() > 0 {
        lemma_filter_len(rows.drop_last(), f);
    }
}

/// A category axis is labelled by the cells of its first and its last row.
pub proof fn law_a_category_axis_is_named_by_its_ends(rows: Seq<Seq<FieldV>>, left: Seq<XyRowV>)
    requires
        rows.len() > 0,
        left.len() > 0,
    ensures
        forall|xpos: int| #[trigger]
            axis_of(rows, xpos, XMode::Row) == XAxisV::Ends(
                cell_or_empty(rows[0], xpos).text(),
                cell_or_empty(rows[rows.len() - 1], xpos).text(),
            ),
        forall|a: Seq<char>, b: Seq<char>| #[trigger]
            refreshed(XAxisV::Ends(a, b), left)
                == XAxisV::Ends(left[0].xcell, left[left.len() - 1].xcell),
{
}

/// The colours of points are those of the rows whose first series has one, in order.
pub proof fn law_colors_are_of_the_first_series(rows: Seq<XyRowV>, n: int)
    requires
        0 <= n <= rows.len(),
    ensures
        colors_of(rows, n) == rows.take(n).filter(
            |r: XyRowV| r.ys.len() > 0 && r.ys[0] is Some,
        ).map_values(|r: XyRowV| r.color_by),
    decreases n,
{
    reveal(Seq::filter);
    let f = |r: XyRowV| r.ys.len() > 0 && r.ys[0] is Some;
    let g = |r: XyRowV| r.color_by;
    let some = rows.take(n);
    if n > 0 {
        law_colors_are_of_the_first_series(rows, n - 1);
        let before = rows.take(n - 1);
        assert(some.drop_last() =~= before);
        assert(some.last() == rows[n - 1]);
        if f(rows[n - 1]) {
            assert(some.filter(f).map_values(g) =~= before.filter(f).map_values(g).push(
                g(rows[n - 1]),
            ));
        }
    } else {
        assert(some.filter(f).map_values(g) =~= seq![]);
    }
}

/// A heatmap has the points of its two columns that its ranges let through, in the order
/// of the rows.
pub proof fn law_a_heatmap_has_the_points_let_through(
    rows: Seq<Seq<FieldV>>,
    g: GraphSpec,
    readings: Map<Seq<char>, NumV>,
    epochs: Map<Seq<char>, NumV>,
    xy: XyData,
    drops: Drops,
)
    requires
        g.cols@.len() == 2,
        heat_is(rows, g, readings, epochs, xy, drops),
    ensures
        ({
            let cols = XyCols { x: g.cols@[0].pos as int, ys: seq![g.cols@[1].pos], color: None };
            let mode = x_mode(rows, cols.x, readings, epochs);
            let all = plotted(rows, cols, mode, readings, epochs, rows.len() as int);
            let got = xy_rows(xy.rows@);
            &&& series_of(got, 0, got.len() as int) == series_of(all, 0, all.len() as int).filter(
                |p: (NumV, NumV)|
                    in_range(p.0.bits, range_bits(g.opts.xrange)) && in_range(
                        p.1.bits,
                        range_bits(g.opts.yrange),
                    ),
            )
            &&& xy.xname@ == g.cols@[0].name@
        }),
{
    let cols = XyCols { x: g.cols@[0].pos as int, ys: seq![g.cols@[1].pos], color: None };
    let mode = x_mode(rows, cols.x, readings, epochs);
    let r1 = plotted(rows, cols, mode, readings, epochs, rows.len() as int);
    let (xr, yr) = (range_bits(g.opts.xrange), range_bits(g.opts.yrange));
    let a = series_of(r1, 0, r1.len() as int);
    let f = |p: (NumV, NumV)| stays(p.0, p.1, xr, yr, false);
    let want = |p: (NumV, NumV)| in_range(p.0.bits, xr) && in_range(p.1.bits, yr);
    if xr is None && yr is None {
        lemma_all_stay(a, want);
    } else {
        law_ranges_take_just_the_points_outside(r1, xr, yr, false, 0, r1.len() as int);
        lemma_filter_twice(a, f, |p: (NumV, NumV)| true, want);
        lemma_all_stay(a.filter(f), |p: (NumV, NumV)| true);
    }
}

/// The data of a chart is what follows the header.
pub proof fn law_chart_data_follows_the_header(header: Seq<char>, rest: Seq<char>)
    requires
        forall|i: int| 0 <= i < header.len() ==> #[trigger] header[i] != '\n',
    ensures
        data_of(header + seq!['\n'] + rest) == text_rows(chunk_rows(rest)),
        data_of(seq![]).len() == 0,
{
    law_each_line_is_a_row(header, rest);
    let all = text_rows(chunk_rows(header + seq!['\n'] + rest));
    assert(all.skip(1) =~= text_rows(chunk_rows(rest)));
}

} // verus!
