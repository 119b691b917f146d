//! How charts are counted, written out and drawn.

use crate::canvas::{
    apart, dot_bit, law_a_dot_lights_one_pixel, law_lines_are_straight_and_whole, lit, towards,
    trace, with_dot, with_line, with_trace,
};
use crate::chart::{
    ChartData, Dots, Drawn, Drops, Frame, Glyphs, HeatData, HistData, MAX_CELLS, bin_at, binned,
    bins_of, csv_lines, dots_char, ends_of, extent_of, grid_of, heat_count, heat_lines, highest,
    hist_lines, labelled, lowest, no_drops, point_xs, point_ys, present_nums, spark_lines, sturges,
    tail_of, title_of,
};
use crate::collect::{XyRowV, bar_rows, xy_rows};
use crate::field::{FieldV, Num, NumV, whole_view};
use crate::graph::{
    BarLen, BarPlace, HistBar, SparkCell, Tick, XAxisV, bar_field, bar_lines, bar_room, bar_text,
    blank_cells, canvas_line, cell_text, cells_of, centred, connected, drawn_bars, ends_row,
    gutter_of, hist_rows, legend_names, pixel_count, right_aligned, row_cells, scattered,
    series_cells, series_painted, spark_cells, tail_without_spacing, tick_start, ticked, widest,
    written, x_labels,
};
use crate::plan::GraphSpec;
use crate::text::{decimal, repeated, trimmed_end};
use vstd::arithmetic::power2::{lemma2_to64, lemma_pow2_unfold, pow2};
use vstd::prelude::*;

verus! {

/// The longest text is as long as `widest` says: none is longer, and one is as long.
pub proof fn law_the_widest_is_the_longest(v: Seq<Seq<char>>)
    ensures
        forall|i: int| 0 <= i < v.len() ==> (#[trigger] v[i]).len() <= widest(v),
        v.len() > 0 ==> exists|i: int| 0 <= i < v.len() && (#[trigger] v[i]).len() == widest(v),
        v.len() == 0 ==> widest(v) == 0,
    decreases v.len(),
{
    if v.len() > 0 {
        let front = v.drop_last();
        law_the_widest_is_the_longest(front);
        assert forall|i: int| 0 <= i < v.len() implies (#[trigger] v[i]).len() <= widest(v) by {
            if i < front.len() {
                assert(front[i] == v[i]);
            }
        }
        if widest(front) < v.last().len() || front.len() == 0 {
            assert(v[v.len() - 1].len() == widest(v));
        } else {
            let i = choose|i: int| 0 <= i < front.len() && (#[trigger] front[i]).len() == widest(
                front,
            );
            assert(v[i].len() == widest(v));
        }
    }
}

/// A label is moved to the right end of its field by spaces, and is never cut.
pub proof fn law_labels_end_where_their_field_does(s: Seq<char>, width: int)
    ensures
        ({
            let out = right_aligned(s, width);
            &&& s.len() <= width ==> out.len() == width
            &&& s.len() > width ==> out == s
            &&& out.len() >= s.len()
            &&& out.skip(out.len() - s.len()) == s
            &&& forall|i: int| 0 <= i < out.len() - s.len() ==> #[trigger] out[i] == ' '
        }),
{
    let out = right_aligned(s, width);
    assert(out.skip(out.len() - s.len()) =~= s);
    if s.len() > width {
        assert(out =~= s);
    }
}

/// A bar has its full cells, up to the room there is, and behind them at most one more
/// for the part of a cell that is left.
pub proof fn law_a_bar_is_as_long_as_its_value(len: BarLen, width: int, g: Glyphs)
    requires
        0 <= width,
    ensures
        ({
            let out = bar_text(len, width, g);
            let full: int = if len.full < width {
                len.full as int
            } else {
                width
            };
            &&& full <= out.len() <= full + 1
            &&& out.len() <= width
            &&& forall|i: int| 0 <= i < full ==> #[trigger] out[i] == g.full
            &&& len.eighths is None ==> out.len() == full
            &&& (g.partial is None ==> out.len() == full)
        }),
{
}

/// A bar covers the cells between the baseline and where it ends, whichever side of the
/// baseline that is, and no other.
pub proof fn law_a_bar_runs_from_the_baseline(full: char, zero: int, p: usize, w: int)
    requires
        0 <= zero,
        0 <= w,
        full != ' ',
    ensures
        ({
            let out = bar_field(full, zero, Some(p), w);
            &&& out.len() == w
            &&& forall|k: int|
                0 <= k < w ==> (#[trigger] out[k] == full <==> ((zero <= k && k < p) || (p <= k && k
                    < zero)))
            &&& forall|k: int| 0 <= k < w ==> #[trigger] out[k] == full || out[k] == ' '
        }),
        forall|k: int| 0 <= k < w ==> #[trigger] bar_field(full, zero, None, w)[k] == ' ',
{
}

/// By default a histogram has as many bins as Sturges' rule gives: one more than the
/// exponent of the least power of two that is no less than the number of values, as long
/// as that is no more than fifty.
pub proof fn law_bins_follow_sturges(n: nat)
    ensures
        1 <= sturges(n) <= 50,
        n <= 1 ==> sturges(n) == 1,
        n > 1 && sturges(n) < 50 ==> pow2((sturges(n) - 2) as nat) < n <= pow2(
            (sturges(n) - 1) as nat,
        ),
        bins_of(n, None) == sturges(n),
        forall|b: usize| b > 0 ==> #[trigger] bins_of(n, Some(b)) == b,
        bins_of(n, Some(0)) == 1,
{
    if n > 1 {
        let m = (n - 1) as nat;
        let e = crate::field::top_bit(m);
        lemma_top(m);
        lemma_pow2_unfold(e + 1);
    }
}

proof fn lemma_top(n: nat)
    requires
        n > 0,
    ensures
        pow2(crate::field::top_bit(n)) <= n < 2 * pow2(crate::field::top_bit(n)),
    decreases n,
{
    if n <= 1 {
        lemma2_to64();
    } else {
        lemma_top(n / 2);
        lemma_pow2_unfold(crate::field::top_bit(n));
    }
}

/// The count of a bin is the number of values that lie in it; the last bin takes what
/// lies at the end of the axis too.
pub proof fn law_a_bin_counts_the_values_in_it(
    places: Seq<usize>,
    nbins: int,
    b: int,
    n: int,
)
    requires
        0 <= b < nbins,
        0 <= n <= places.len(),
    ensures
        binned(places, nbins, b, n) == places.take(n).filter(
            |p: usize| p == b || (b == nbins - 1 && p >= nbins),
        ).len(),
    decreases n,
{
    reveal(Seq::filter);
    if n > 0 {
        law_a_bin_counts_the_values_in_it(places, nbins, b, n - 1);
        assert(places.take(n).drop_last() =~= places.take(n - 1));
        assert(places.take(n).last() == places[n - 1]);
    }
}

/// The count of a heatmap's cell is the number of points that lie in its column and its
/// row, the last of either taking what lies at the end.
pub proof fn law_a_heat_cell_counts_the_points_in_it(
    cells: Seq<(usize, usize)>,
    cols: int,
    rows: int,
    x: int,
    y: int,
    n: int,
)
    requires
        0 <= x < cols,
        0 <= y < rows,
        0 <= n <= cells.len(),
    ensures
        heat_count(cells, cols, rows, y * cols + x, n) == cells.take(n).filter(
            |c: (usize, usize)|
                (c.0 == x || (x == cols - 1 && c.0 >= cols)) && (c.1 == y || (y == rows - 1 && c.1
                    >= rows)),
        ).len(),
    decreases n,
{
    reveal(Seq::filter);
    if n > 0 {
        law_a_heat_cell_counts_the_points_in_it(cells, cols, rows, x, y, n - 1);
        assert(cells.take(n).drop_last() =~= cells.take(n - 1));
        assert(cells.take(n).last() == cells[n - 1]);
        let (a, b) = (bin_at(cells[n - 1].0 as int, cols), bin_at(cells[n - 1].1 as int, rows));
        assert(b * cols + a == y * cols + x <==> (a == x && b == y)) by (nonlinear_arith)
            requires
                0 <= a < cols,
                0 <= x < cols,
                0 <= b,
                0 <= y,
        ;
    }
}

/// Whatever a chart could not use is noted, with how much of it there was; and where it
/// used everything there is no note.
pub proof fn law_what_is_left_out_is_noted(d: Drops)
    ensures
        d.truncated > 0 ==> d.noted().contains(
            "+"@ + decimal(d.truncated as nat) + " more not shown"@,
        ),
        d.skipped > 0 ==> d.noted().contains(
            "skipped "@ + decimal(d.skipped as nat) + " non-numeric"@,
        ),
        d.clipped > 0 ==> d.noted().contains(
            "clipped "@ + decimal(d.clipped as nat) + " out of range"@,
        ),
        d.dropped > 0 ==> d.noted().contains(
            "dropped "@ + decimal(d.dropped as nat) + " non-positive"@,
        ),
        d.color > 0 ==> d.noted().contains(
            decimal(d.color as nat) + " non-numeric colour cells"@,
        ),
        d.grid_capped matches Some((c, r)) ==> d.noted().contains(
            "grid capped to "@ + decimal(c as nat) + "x"@ + decimal(r as nat),
        ),
        d.noted().len() == one_if(d.truncated > 0) + one_if(d.skipped > 0) + one_if(d.clipped > 0)
            + one_if(d.dropped > 0) + one_if(d.color > 0) + one_if(d.grid_capped is Some),
        d == no_drops() ==> d.noted().len() == 0,
{
    let a = one_if(d.truncated > 0);
    let b = a + one_if(d.skipped > 0);
    let c = b + one_if(d.clipped > 0);
    let e = c + one_if(d.dropped > 0);
    let f = e + one_if(d.color > 0);
    let all = d.noted();
    if d.truncated > 0 {
        assert(all[0] == "+"@ + decimal(d.truncated as nat) + " more not shown"@);
    }
    if d.skipped > 0 {
        assert(all[a] == "skipped "@ + decimal(d.skipped as nat) + " non-numeric"@);
    }
    if d.clipped > 0 {
        assert(all[b] == "clipped "@ + decimal(d.clipped as nat) + " out of range"@);
    }
    if d.dropped > 0 {
        assert(all[c] == "dropped "@ + decimal(d.dropped as nat) + " non-positive"@);
    }
    if d.color > 0 {
        assert(all[e] == decimal(d.color as nat) + " non-numeric colour cells"@);
    }
    if let Some((x, y)) = d.grid_capped {
        assert(all[f] == "grid capped to "@ + decimal(x as nat) + "x"@ + decimal(y as nat));
    }
}

/// One, where there is one.
pub open spec fn one_if(b: bool) -> int {
    if b {
        1
    } else {
        0
    }
}

/// A histogram is written out bin by bin: where the bin begins, where it ends and how
/// many values it has; each begins where the one before ends, from the low end of the
/// axis to the high end.
pub proof fn law_a_histogram_is_written_bin_by_bin(h: HistData, n: int)
    requires
        h.wf(),
        0 <= n <= h.counts@.len(),
    ensures
        hist_lines(h, n).len() == n,
        forall|i: int|
            #![trigger hist_lines(h, n)[i]]
            0 <= i < n ==> {
                let line = hist_lines(h, n)[i];
                &&& line.len() == 3
                &&& line[2] == FieldV::Num(whole_view(h.counts@[i] as nat))
                &&& i == 0 ==> line[0] == FieldV::Num(h.lo@)
                &&& i == h.counts@.len() - 1 ==> line[1] == FieldV::Num(h.hi@)
                &&& i > 0 ==> line[0] == FieldV::Num(h.inner@[i - 1]@)
                &&& i < h.counts@.len() - 1 ==> line[1] == FieldV::Num(h.inner@[i]@)
            },
    decreases n,
{
    if n > 0 {
        law_a_histogram_is_written_bin_by_bin(h, n - 1);
        let before = hist_lines(h, n - 1);
        assert forall|i: int|
            #![trigger hist_lines(h, n)[i]]
            0 <= i < n implies {
            let line = hist_lines(h, n)[i];
            &&& line.len() == 3
            &&& line[2] == FieldV::Num(whole_view(h.counts@[i] as nat))
            &&& i == 0 ==> line[0] == FieldV::Num(h.lo@)
            &&& i == h.counts@.len() - 1 ==> line[1] == FieldV::Num(h.hi@)
            &&& i > 0 ==> line[0] == FieldV::Num(h.inner@[i - 1]@)
            &&& i < h.counts@.len() - 1 ==> line[1] == FieldV::Num(h.inner@[i]@)
        } by {
            if i < n - 1 {
                assert(hist_lines(h, n)[i] == before[i]);
            }
        }
    }
}

/// A heatmap is written out cell by cell, without the empty ones: where the cell's column
/// and its row begin, and how many points it has.
pub proof fn law_a_heatmap_is_written_cell_by_cell(h: HeatData, n: int) -> (from: Seq<int>)
    requires
        h.wf(),
        0 <= n <= h.counts@.len(),
    ensures
        heat_lines(h, n).len() == from.len(),
        forall|i: int|
            0 <= i < from.len() ==> {
                let at = #[trigger] from[i];
                let line = heat_lines(h, n)[i];
                &&& 0 <= at < n
                &&& line.len() == 3
                &&& line[0] == FieldV::Num(h.xedges@[at % h.cols as int]@)
                &&& line[1] == FieldV::Num(h.yedges@[at / h.cols as int]@)
                &&& line[2] == FieldV::Num(whole_view(h.counts@[at] as nat))
            },
        forall|i: int, k: int| 0 <= i < k < from.len() ==> #[trigger] from[i] < #[trigger] from[k],
        forall|at: int| 0 <= at < n ==> (#[trigger] from.contains(at) <==> h.counts@[at] > 0),
    decreases n,
{
    if n == 0 {
        Seq::empty()
    } else {
        let before = law_a_heatmap_is_written_cell_by_cell(h, n - 1);
        let was = heat_lines(h, n - 1);
        if h.counts@[n - 1] == 0 {
            if before.contains(n - 1) {
                let i = before.index_of(n - 1);
                assert(before[i] < n - 1);
            }
            before
        } else {
            let from = before.push(n - 1);
            let now = heat_lines(h, n);
            assert forall|i: int| 0 <= i < from.len() implies {
                let at = #[trigger] from[i];
                let line = now[i];
                &&& 0 <= at < n
                &&& line.len() == 3
                &&& line[0] == FieldV::Num(h.xedges@[at % h.cols as int]@)
                &&& line[1] == FieldV::Num(h.yedges@[at / h.cols as int]@)
                &&& line[2] == FieldV::Num(whole_view(h.counts@[at] as nat))
            } by {
                if i < before.len() {
                    assert(from[i] == before[i]);
                    assert(now[i] == was[i]);
                }
            }
            assert forall|at: int| 0 <= at < n implies (#[trigger] from.contains(at)
                <==> h.counts@[at] > 0) by {
                if at == n - 1 {
                    assert(from[before.len() as int] == at);
                } else {
                    if before.contains(at) {
                        let i = before.index_of(at);
                        assert(from[i] == at);
                    }
                    if from.contains(at) {
                        let i = from.index_of(at);
                        assert(before[i] == at);
                    }
                }
            }
            from
        }
    }
}

/// The values of a chart are written out in order: numbered from one in a sparkline, and
/// behind their label in a bar or xy chart, a blank where there is none.
pub proof fn law_values_are_written_in_order(
    values: Seq<Num>,
    label: Seq<char>,
    ys: Seq<Option<NumV>>,
    i: int,
)
    ensures
        spark_lines(values).len() == values.len(),
        0 <= i < values.len() ==> spark_lines(values)[i] == seq![
            FieldV::Num(whole_view((i + 1) as nat)),
            FieldV::Num(values[i]@),
        ],
        labelled(label, ys).len() == ys.len() + 1,
        labelled(label, ys)[0] == FieldV::Str(label),
        0 <= i < ys.len() ==> labelled(label, ys)[i + 1] == (match ys[i] {
            Some(n) => FieldV::Num(n),
            None => FieldV::Str(seq![]),
        }),
{
}

/// An axis has the range that it was given, and else runs from the least to the greatest
/// value.
pub proof fn law_an_axis_has_its_range(values: Seq<NumV>, range: Option<(NumV, NumV)>)
    ensures
        range matches Some(r) ==> ends_of(values, range) == r && extent_of(values, range) == r,
        range is None && values.len() > 0 ==> ends_of(values, range) == (
            lowest(values),
            highest(values),
        ) && extent_of(values, range) == ends_of(values, range),
{
}

/// The grid of a heatmap is the one asked for, as far as what draws it can hold it, and
/// has at least one cell; where it is less than was asked for, that is said.
pub proof fn law_a_grid_is_cut_to_what_draws_it(
    bins: Option<usize>,
    cols_fit: usize,
    rows_fit: usize,
    drawn: Drawn,
)
    requires
        cols_fit >= 1,
        rows_fit >= 1,
        drawn matches Drawn::Svg(w, h) ==> w >= 1 && h >= 1,
    ensures
        ({
            let (cols, rows, capped) = grid_of(bins, cols_fit, rows_fit, drawn);
            let (most_c, most_r) = match drawn {
                Drawn::Data => (MAX_CELLS as int, MAX_CELLS as int),
                Drawn::Svg(w, h) => (w as int, h as int),
                Drawn::Terminal => (cols_fit as int, rows_fit as int),
            };
            &&& 1 <= cols <= most_c
            &&& 1 <= rows <= most_r
            &&& bins matches Some(b) ==> {
                &&& 1 <= b <= most_c ==> cols == b
                &&& 1 <= b <= most_r ==> rows == b
                &&& capped <==> b > most_c || b > most_r
            }
            &&& bins is None && cols_fit <= most_c && rows_fit <= most_r ==> cols == cols_fit
                && rows == rows_fit && !capped
        }),
{
}

/// Only the first series of a bar chart is drawn, where it has a value, in order.
pub proof fn law_the_first_series_is_drawn(rows: Seq<(Seq<char>, Seq<Option<NumV>>)>)
    ensures
        drawn_bars(rows) == rows.filter(
            |r: (Seq<char>, Seq<Option<NumV>>)| r.1.len() > 0 && r.1[0] is Some,
        ).map_values(|r: (Seq<char>, Seq<Option<NumV>>)| (r.0, r.1[0]->Some_0)),
    decreases rows.len(),
{
    reveal(Seq::filter);
    let f = |r: (Seq<char>, Seq<Option<NumV>>)| r.1.len() > 0 && r.1[0] is Some;
    let g = |r: (Seq<char>, Seq<Option<NumV>>)| (r.0, r.1[0]->Some_0);
    if rows.len() > 0 {
        let front = rows.drop_last();
        law_the_first_series_is_drawn(front);
        if f(rows.last()) {
            assert(rows.filter(f) =~= front.filter(f).push(rows.last()));
            assert(rows.filter(f).map_values(g) =~= front.filter(f).map_values(g).push(
                g(rows.last()),
            ));
        } else {
            assert(rows.filter(f) =~= front.filter(f));
        }
    } else {
        assert(rows.filter(f).map_values(g) =~= seq![]);
    }
}

/// A scatter chart lights the pixel of each point, and no other.
pub proof fn law_a_scatter_lights_its_points(
    points: Seq<(i64, i64)>,
    w: int,
    h: int,
    n: int,
    px: int,
    py: int,
)
    requires
        0 < w,
        0 < h,
        0 <= n <= points.len(),
        0 <= px < 2 * w,
        0 <= py < 4 * h,
    ensures
        lit(scattered(points, w, h, n), w, px, py) <==> exists|i: int|
            0 <= i < n && #[trigger] points[i].0 == px && points[i].1 == py,
        scattered(points, w, h, n).len() == w * h,
    decreases n,
{
    assert(w * h >= 0) by (nonlinear_arith)
        requires
            0 < w,
            0 < h,
    ;
    if n > 0 {
        law_a_scatter_lights_its_points(points, w, h, n - 1, px, py);
        let before = scattered(points, w, h, n - 1);
        let p = points[n - 1];
        law_a_dot_lights_one_pixel(before, w, h, p.0 as int, p.1 as int, px, py);
        lemma_dot_len(before, w, h, p.0 as int, p.1 as int);
    } else {
        lemma_blank(w, h, px, py);
    }
}

proof fn lemma_dot_len(bits: Seq<u8>, w: int, h: int, x: int, y: int)
    requires
        bits.len() == w * h,
    ensures
        with_dot(bits, w, h, x, y).len() == bits.len(),
{
    if 0 <= x < 2 * w && 0 <= y < 4 * h {
        let (cx, cy) = (x / 2, y / 4);
        assert(0 <= cy * w + cx < w * h) by (nonlinear_arith)
            requires
                0 <= cx < w,
                0 <= cy < h,
        ;
    }
}

proof fn lemma_blank(w: int, h: int, px: int, py: int)
    requires
        0 < w,
        0 < h,
        0 <= px < 2 * w,
        0 <= py < 4 * h,
    ensures
        !lit(blank_cells(w, h), w, px, py),
{
    let (cx, cy) = (px / 2, py / 4);
    assert(0 <= cy * w + cx < w * h) by (nonlinear_arith)
        requires
            0 <= cx < w,
            0 <= cy < h,
    ;
    let d = crate::canvas::dot_bit(px % 2, py % 4);
    assert(0u8 & d == 0) by (bit_vector);
}

proof fn lemma_trace_lit(
    bits: Seq<u8>,
    w: int,
    h: int,
    ends: (int, int, int, int),
    t: Seq<(int, int)>,
    n: int,
    px: int,
    py: int,
)
    requires
        0 < w,
        0 < h,
        bits.len() == w * h,
        0 <= n <= t.len(),
        0 <= px < 2 * w,
        0 <= py < 4 * h,
    ensures
        with_trace(bits, w, h, ends, t, n).len() == w * h,
        lit(with_trace(bits, w, h, ends, t, n), w, px, py) <==> lit(bits, w, px, py) || exists|
            k: int,
        |
            0 <= k < n && towards(ends.0, ends.2, (#[trigger] t[k]).0) == px && towards(
                ends.1,
                ends.3,
                t[k].1,
            ) == py,
    decreases n,
{
    if n > 0 {
        lemma_trace_lit(bits, w, h, ends, t, n - 1, px, py);
        let before = with_trace(bits, w, h, ends, t, n - 1);
        lemma_dot_len(
            before,
            w,
            h,
            towards(ends.0, ends.2, t[n - 1].0),
            towards(ends.1, ends.3, t[n - 1].1),
        );
        law_a_dot_lights_one_pixel(
            before,
            w,
            h,
            towards(ends.0, ends.2, t[n - 1].0),
            towards(ends.1, ends.3, t[n - 1].1),
            px,
            py,
        );
    }
}

/// A line between two pixels lights both of them, and takes no light away.
pub proof fn law_a_line_lights_both_ends(
    bits: Seq<u8>,
    w: int,
    h: int,
    a: (int, int),
    b: (int, int),
    px: int,
    py: int,
)
    requires
        0 < w,
        0 < h,
        bits.len() == w * h,
        0 <= px < 2 * w,
        0 <= py < 4 * h,
    ensures
        ({
            let out = with_line(bits, w, h, a.0, a.1, b.0, b.1);
            &&& out.len() == w * h
            &&& (px, py) == a || (px, py) == b ==> lit(out, w, px, py)
            &&& lit(bits, w, px, py) ==> lit(out, w, px, py)
        }),
{
    let (dx, dy) = (apart(a.0, b.0), apart(a.1, b.1));
    let t = trace(dx, dy, 0, 0);
    let ends = (a.0, a.1, b.0, b.1);
    law_lines_are_straight_and_whole(dx, dy);
    lemma_trace_lit(bits, w, h, ends, t, t.len() as int, px, py);
    assert(t[0] == (0int, 0int));
    assert(t[t.len() - 1] == (dx, dy));
    assert(towards(a.0, b.0, t[0].0) == a.0 && towards(a.1, b.1, t[0].1) == a.1);
    assert(towards(a.0, b.0, t[t.len() - 1].0) == b.0 && towards(a.1, b.1, t[t.len() - 1].1)
        == b.1);
}

/// A line chart lights each of its points, joined in order.
pub proof fn law_a_line_chart_goes_through_its_points(
    points: Seq<(i64, i64)>,
    w: int,
    h: int,
    n: int,
    i: int,
)
    requires
        0 < w,
        0 < h,
        2 <= n <= points.len(),
        0 <= i < n,
        0 <= points[i].0 < 2 * w,
        0 <= points[i].1 < 4 * h,
    ensures
        lit(connected(points, w, h, n), w, points[i].0 as int, points[i].1 as int),
        connected(points, w, h, n).len() == w * h,
    decreases n,
{
    assert(w * h >= 0) by (nonlinear_arith)
        requires
            0 < w,
            0 < h,
    ;
    let (p, q) = (points[n - 2], points[n - 1]);
    let before = connected(points, w, h, n - 1);
    lemma_connected_len(points, w, h, n - 1);
    let (px, py) = (points[i].0 as int, points[i].1 as int);
    law_a_line_lights_both_ends(
        before,
        w,
        h,
        (p.0 as int, p.1 as int),
        (q.0 as int, q.1 as int),
        px,
        py,
    );
    if i < n - 2 {
        law_a_line_chart_goes_through_its_points(points, w, h, n - 1, i);
    }
}

proof fn lemma_connected_len(points: Seq<(i64, i64)>, w: int, h: int, n: int)
    requires
        0 < w,
        0 < h,
        0 <= n <= points.len(),
    ensures
        connected(points, w, h, n).len() == w * h,
    decreases n,
{
    assert(w * h >= 0) by (nonlinear_arith)
        requires
            0 < w,
            0 < h,
    ;
    if n > 1 {
        lemma_connected_len(points, w, h, n - 1);
        let (p, q) = (points[n - 2], points[n - 1]);
        law_a_line_lights_both_ends(
            connected(points, w, h, n - 1),
            w,
            h,
            (p.0 as int, p.1 as int),
            (q.0 as int, q.1 as int),
            0,
            0,
        );
    }
}

/// In a cell that several series have a dot in, the first of them shows.
pub proof fn law_the_first_series_in_a_cell_shows(
    frame: Frame,
    layers: Seq<Seq<u8>>,
    at: int,
    painted: bool,
    from: int,
    s: int,
)
    requires
        0 <= from <= s < layers.len(),
        layers[s][at] != 0,
        forall|k: int| from <= k < s ==> (#[trigger] layers[k])[at] == 0,
    ensures
        ({
            let glyph = seq![dots_char(frame.glyphs.dots, layers[s][at])];
            cell_text(frame, layers, at, painted, from) == if painted {
                series_painted(s, glyph)
            } else {
                glyph
            }
        }),
    decreases s - from,
{
    if from < s {
        assert(layers[from][at] == 0);
        law_the_first_series_in_a_cell_shows(frame, layers, at, painted, from + 1, s);
    }
}

/// A label that is placed on a numeric axis leaves those before it alone, with a space
/// between them; the row keeps its width.
pub proof fn law_labels_do_not_run_into_each_other(width: int, ticks: Seq<Tick>, n: int)
    requires
        0 <= width,
        0 <= n < ticks.len(),
    ensures
        ({
            let (row, free) = ticked(width, ticks, false, n);
            let (now, next) = ticked(width, ticks, false, n + 1);
            &&& row.len() == width
            &&& now.len() == width
            &&& next >= free
            &&& forall|k: int| 0 <= k < free && k < width ==> #[trigger] now[k] == row[k]
        }),
    decreases n,
{
    let (row, free) = ticked(width, ticks, false, n);
    assert(row.len() == width) by {
        if n > 0 {
            law_labels_do_not_run_into_each_other(width, ticks, n - 1);
        } else {
            assert(row == repeated(' ', width as nat));
        }
    }
    let (start, pinned) = tick_start(width, ticks, false, n);
    assert(!pinned);
    let label = ticks[n].label@;
    let (now, next) = ticked(width, ticks, false, n + 1);
    if start < free {
        assert((now, next) == (row, free));
    } else {
        assert(now == written(row, label, start));
        assert(next == start + label.len() + 1);
        assert forall|k: int| 0 <= k < free && k < width implies #[trigger] now[k] == row[k] by {
            assert(k < start);
        }
    }
}

/// A category axis has its first label at its beginning and its last at its end.
pub proof fn law_a_category_axis_is_labelled_at_its_ends(width: int, a: Seq<char>, b: Seq<char>)
    requires
        a.len() + b.len() < width,
        b.len() > 0,
        !crate::text::is_white(b.last()),
    ensures
        ends_row(width, a, b).len() == width,
        ends_row(width, a, b).take(a.len() as int) == a,
        ends_row(width, a, b).skip(width - b.len()) == b,
{
    let blank = repeated(' ', width as nat);
    let one = written(blank, a, 0);
    let two = written(one, b, width - b.len());
    assert(two.last() == b.last());
    assert(two.take(a.len() as int) =~= a);
    assert(two.skip(width - b.len()) =~= b);
}

/// The data of a chart is written out under the names of its columns, a line for each of
/// its bins, rows, values or cells.
pub proof fn law_chart_data_is_written_under_its_names(data: ChartData, i: int)
    ensures
        data matches ChartData::Hist(Some(h)) ==> {
            &&& csv_lines(data)[0] == seq![
                FieldV::Str("bin_lo"@),
                FieldV::Str("bin_hi"@),
                FieldV::Str("count"@),
            ]
            &&& csv_lines(data).skip(1) == hist_lines(h, h.counts@.len() as int)
        },
        data matches ChartData::Hist(None) ==> csv_lines(data).len() == 1,
        data matches ChartData::Spark(s) ==> {
            &&& csv_lines(data)[0] == seq![FieldV::Str("bucket"@), FieldV::Str(s.name@)]
            &&& csv_lines(data).skip(1) == spark_lines(s.values@)
        },
        data matches ChartData::Heat(h) ==> {
            &&& csv_lines(data)[0] == seq![
                FieldV::Str(h.xname@),
                FieldV::Str(h.yname@),
                FieldV::Str("count"@),
            ]
            &&& csv_lines(data).skip(1) == heat_lines(h, h.counts@.len() as int)
        },
        data matches ChartData::Bar(b) ==> {
            let lines = csv_lines(data);
            &&& lines.len() == b.rows@.len() + 1
            &&& lines[0].len() == b.value_names@.len() + 1
            &&& lines[0][0] == FieldV::Str(b.label_name@)
            &&& 0 <= i < b.value_names@.len() ==> lines[0][i + 1] == FieldV::Str(
                b.value_names@[i]@,
            )
            &&& 0 <= i < b.rows@.len() ==> lines[i + 1] == labelled(
                bar_rows(b.rows@)[i].0,
                bar_rows(b.rows@)[i].1,
            )
        },
        data matches ChartData::Xy(xy) ==> {
            let lines = csv_lines(data);
            &&& lines.len() == xy.rows@.len() + 1
            &&& lines[0].len() == xy.names@.len() + 1
            &&& lines[0][0] == FieldV::Str(xy.xname@)
            &&& 0 <= i < xy.names@.len() ==> lines[0][i + 1] == FieldV::Str(xy.names@[i]@)
            &&& 0 <= i < xy.rows@.len() ==> lines[i + 1] == labelled(
                xy_rows(xy.rows@)[i].xcell,
                xy_rows(xy.rows@)[i].ys,
            )
        },
{
    let lines = csv_lines(data);
    match data {
        ChartData::Hist(Some(h)) => {
            assert(lines.skip(1) =~= hist_lines(h, h.counts@.len() as int));
        },
        ChartData::Spark(s) => {
            assert(lines.skip(1) =~= spark_lines(s.values@));
        },
        ChartData::Heat(h) => {
            assert(lines.skip(1) =~= heat_lines(h, h.counts@.len() as int));
        },
        _ => {},
    }
}

/// A chart is titled by what it shows: its value column, or the one against the other.
pub proof fn law_a_chart_is_titled_by_its_columns(g: GraphSpec)
    ensures
        g.kind is Hist || g.kind is Spark ==> title_of(g) == g.cols@[0].name@,
        g.kind is Bar ==> title_of(g) == g.cols@[1].name@,
        g.kind is Heatmap ==> title_of(g) == g.cols@[1].name@ + " vs "@ + g.cols@[0].name@,
        (g.kind is Scatter || g.kind is Line) && g.cols@.len() == 2 ==> title_of(g)
            == g.cols@[1].name@ + " vs "@ + g.cols@[0].name@,
        (g.kind is Scatter || g.kind is Line) && g.cols@.len() > 2 ==> title_of(g) == "vs "@
            + g.cols@[0].name@,
{
}

proof fn lemma_present_nums(ys: Seq<Option<NumV>>, y: NumV)
    ensures
        present_nums(ys).contains(y) <==> ys.contains(Some(y)),
    decreases ys.len(),
{
    if ys.len() > 0 {
        let front = ys.drop_last();
        lemma_present_nums(front, y);
        let (a, b) = (present_nums(front), present_nums(ys));
        if ys.contains(Some(y)) {
            let i = ys.index_of(Some(y));
            if i < front.len() {
                assert(front[i] == Some(y));
                let k = a.index_of(y);
                assert(b[k] == y);
            } else {
                assert(b[a.len() as int] == y);
            }
        }
        if b.contains(y) {
            let k = b.index_of(y);
            if k < a.len() {
                assert(a[k] == y);
                let i = front.index_of(Some(y));
                assert(ys[i] == Some(y));
            } else {
                assert(ys[ys.len() - 1] == Some(y));
            }
        }
    }
}

/// The extent of an xy chart is taken over every point there is: each has its x among
/// the x values and its y among the y values, and nothing else is there.
pub proof fn law_extents_are_over_every_point(rows: Seq<XyRowV>, r: int, y: NumV)
    requires
        0 <= r < rows.len(),
        rows[r].ys.contains(Some(y)),
    ensures
        point_ys(rows).contains(y),
        point_xs(rows).contains(rows[r].x),
        point_xs(rows).len() == point_ys(rows).len(),
    decreases rows.len(),
{
    let front = rows.drop_last();
    let last = rows.last();
    let ys = present_nums(last.ys);
    lemma_same_points(rows);
    let (ax, bx) = (point_xs(front), point_xs(rows));
    let (ay, by) = (point_ys(front), point_ys(rows));
    if r < rows.len() - 1 {
        assert(front[r] == rows[r]);
        law_extents_are_over_every_point(front, r, y);
        let i = ay.index_of(y);
        assert(by[i] == y);
        let k = ax.index_of(rows[r].x);
        assert(bx[k] == rows[r].x);
    } else {
        lemma_present_nums(last.ys, y);
        let i = ys.index_of(y);
        assert(by[ay.len() + i] == y);
        assert(bx[ax.len() + i] == last.x);
    }
}

proof fn lemma_same_points(rows: Seq<XyRowV>)
    ensures
        point_xs(rows).len() == point_ys(rows).len(),
    decreases rows.len(),
{
    if rows.len() > 0 {
        lemma_same_points(rows.drop_last());
    }
}

/// Every y value that the extent is taken over is one of a point.
pub proof fn law_extents_are_over_points_alone(rows: Seq<XyRowV>, y: NumV)
    requires
        point_ys(rows).contains(y),
    ensures
        exists|r: int| 0 <= r < rows.len() && (#[trigger] rows[r]).ys.contains(Some(y)),
    decreases rows.len(),
{
    if rows.len() > 0 {
        let front = rows.drop_last();
        let (a, b) = (point_ys(front), point_ys(rows));
        let i = b.index_of(y);
        if i < a.len() {
            assert(a[i] == y);
            law_extents_are_over_points_alone(front, y);
            let r = choose|r: int|
                0 <= r < front.len() && (#[trigger] front[r]).ys.contains(Some(y));
            assert(rows[r] == front[r]);
        } else {
            let ys = present_nums(rows.last().ys);
            assert(ys[i - a.len()] == y);
            lemma_present_nums(rows.last().ys, y);
            assert(rows[rows.len() - 1].ys.contains(Some(y)));
        }
    }
}

/// The high end of the y axis labels the first line of a canvas and the low end the last;
/// each line is behind its gutter.
pub proof fn law_the_high_end_is_at_the_top(
    frame: Frame,
    layers: Seq<Seq<u8>>,
    dims: (int, int, int),
    ends: (Seq<char>, Seq<char>),
    painted: bool,
    cy: int,
)
    requires
        dims.1 >= 2,
        0 <= cy < dims.1,
    ensures
        ({
            let (w, h, gutter) = dims;
            let cells = row_cells(frame, layers, w, cy, painted, w);
            let label = if cy == 0 {
                ends.1
            } else if cy == h - 1 {
                ends.0
            } else {
                Seq::empty()
            };
            canvas_line(frame, layers, dims, ends, painted, cy) == right_aligned(label, gutter)
                + seq![' ', frame.glyphs.axis_tick] + cells + seq!['\n']
        }),
{
    reveal_strlit("");
    reveal_strlit(" ");
    reveal_strlit("\n");
    assert(""@ =~= Seq::<char>::empty());
    let (w, h, gutter) = dims;
    let cells = row_cells(frame, layers, w, cy, painted, w);
    let label = if cy == 0 {
        ends.1
    } else if cy == h - 1 {
        ends.0
    } else {
        Seq::empty()
    };
    assert(canvas_line(frame, layers, dims, ends, painted, cy) =~= right_aligned(label, gutter)
        + seq![' ', frame.glyphs.axis_tick] + cells + seq!['\n']);
}

/// The notes of a chart stand behind its summary in brackets, in order; the one on the
/// spacing of the rows is in the title instead.
pub proof fn law_notes_stand_in_brackets(notes: Seq<Seq<char>>, note: Seq<char>)
    ensures
        tail_of(seq![]) == Seq::<char>::empty(),
        tail_of(notes.push(note)) == tail_of(notes) + seq![' ', ' ', '('] + note + seq![')'],
        tail_without_spacing(notes) == tail_of(
            notes.filter(|n: Seq<char>| n != "even row spacing"@),
        ),
    decreases notes.len(),
{
    reveal(Seq::filter);
    reveal_strlit("  (");
    reveal_strlit(")");
    assert("  ("@ =~= seq![' ', ' ', '(']);
    assert(")"@ =~= seq![')']);
    assert(notes.push(note).drop_last() =~= notes);
    let f = |n: Seq<char>| n != "even row spacing"@;
    if notes.len() > 0 {
        let front = notes.drop_last();
        law_notes_stand_in_brackets(front, note);
        if f(notes.last()) {
            let kept = front.filter(f);
            assert(kept.push(notes.last()).drop_last() =~= kept);
        }
    }
}

/// Each dot of a cell has its own bit, in the order of the braille glyphs: down the left
/// column, down the right one, then the two at the bottom.
pub proof fn law_dots_are_in_braille_order(col: int, row: int)
    requires
        0 <= col < 2,
        0 <= row < 4,
    ensures
        dot_bit(col, row) == (if row < 3 {
            1u8 << ((3 * col + row) as u8)
        } else {
            1u8 << ((6 + col) as u8)
        }),
        forall|bits: u8| #[trigger]
            dots_char(Dots::Unicode, bits) == ((0x2800 + bits) as u32) as char,
        dots_char(Dots::Ascii, 0) == ' ',
        forall|bits: u8| bits != 0 ==> #[trigger] dots_char(Dots::Ascii, bits) == '*',
{
    assert(1u8 << 0u8 == 1u8 && 1u8 << 1u8 == 2u8 && 1u8 << 2u8 == 4u8 && 1u8 << 3u8 == 8u8 && 1u8
        << 4u8 == 16u8 && 1u8 << 5u8 == 32u8 && 1u8 << 6u8 == 64u8 && 1u8 << 7u8 == 128u8)
        by (bit_vector);
}

/// The room that is left for a chart behind its labels is what remains of the width, and
/// never less than it needs.
pub proof fn law_charts_keep_some_room(width: int, label: int, margin: int, lo: NumV, hi: NumV)
    ensures
        bar_room(width, label, margin) >= 10,
        width - label - margin >= 10 ==> bar_room(width, label, margin) == width - label - margin,
        cells_of(width, label) >= 4,
        width - label - 3 >= 4 ==> cells_of(width, label) == width - label - 3,
        lo.text.len() <= gutter_of(lo, hi) && hi.text.len() <= gutter_of(lo, hi),
        gutter_of(lo, hi) == lo.text.len() || gutter_of(lo, hi) == hi.text.len(),
{
}

/// A text in the middle of a field has as many spaces before it as behind it, or one less.
pub proof fn law_a_label_is_centred(s: Seq<char>, width: int)
    requires
        s.len() <= width,
    ensures
        centred(s, width).len() == width,
        ({
            let before = (width - s.len()) / 2;
            centred(s, width).subrange(before, before + s.len()) == s
        }),
{
    let before = (width - s.len()) / 2;
    let out = centred(s, width);
    assert(out.subrange(before, before + s.len()) =~= s);
}

/// The legend names each series in order, and a chart counts the points of all of them.
pub proof fn law_the_legend_names_every_series(
    frame: Frame,
    names: Seq<Seq<char>>,
    pixels: Seq<Vec<(i64, i64)>>,
    i: int,
)
    ensures
        legend_names(frame, names).len() == names.len(),
        0 <= i < names.len() && !frame.color ==> legend_names(frame, names)[i] == names[i],
        0 <= i < names.len() && frame.color ==> legend_names(frame, names)[i] == series_painted(
            i,
            seq![frame.glyphs.legend],
        ) + " "@ + names[i],
        pixel_count(pixels, 0) == 0,
        0 <= i < pixels.len() ==> pixel_count(pixels, i + 1) == pixel_count(pixels, i)
            + pixels[i]@.len(),
{
}

/// The lines of a histogram are its bins in order: the edge at the right end of its
/// column, the axis, the bar, and the count.
pub proof fn law_a_histogram_is_drawn_bin_by_bin(
    frame: Frame,
    bars: Seq<HistBar>,
    counts: Seq<u64>,
    w: int,
    i: int,
)
    requires
        0 <= i < bars.len(),
        frame.ramp is None,
    ensures
        hist_rows(frame, bars, counts, w, 0) == Seq::<char>::empty(),
        hist_rows(frame, bars, counts, w, i + 1) == hist_rows(frame, bars, counts, w, i) + (
        right_aligned(bars[i].edge@, w) + seq![' ', frame.glyphs.axis_v] + bar_text(
            bars[i].len,
            bar_room(frame.width as int, w, 12),
            frame.glyphs,
        ) + seq![' '] + decimal(counts[i] as nat) + seq!['\n']),
{
    reveal_strlit(" ");
    reveal_strlit("\n");
    assert(hist_rows(frame, bars, counts, w, i + 1) =~= hist_rows(frame, bars, counts, w, i) + (
    right_aligned(bars[i].edge@, w) + seq![' ', frame.glyphs.axis_v] + bar_text(
        bars[i].len,
        bar_room(frame.width as int, w, 12),
        frame.glyphs,
    ) + seq![' '] + decimal(counts[i] as nat) + seq!['\n']));
}

/// The lines of a bar chart are its rows in order: the label at the right end of its
/// column, the axis, the bar, and the value.
pub proof fn law_bars_are_drawn_row_by_row(
    frame: Frame,
    rows: Seq<(Seq<char>, NumV)>,
    places: Seq<BarPlace>,
    zero: int,
    w: int,
    i: int,
)
    requires
        0 <= i < rows.len(),
        frame.ramp is None,
    ensures
        bar_lines(frame, rows, places, zero, w, 0) == Seq::<char>::empty(),
        bar_lines(frame, rows, places, zero, w, i + 1) == bar_lines(
            frame,
            rows,
            places,
            zero,
            w,
            i,
        ) + (right_aligned(rows[i].0, w) + seq![' ', frame.glyphs.axis_v] + bar_field(
            frame.glyphs.full,
            zero,
            places[i].at,
            bar_room(frame.width as int, w, 14),
        ) + seq![' '] + rows[i].1.text + seq!['\n']),
{
    reveal_strlit(" ");
    reveal_strlit("\n");
    assert(bar_lines(frame, rows, places, zero, w, i + 1) =~= bar_lines(
        frame,
        rows,
        places,
        zero,
        w,
        i,
    ) + (right_aligned(rows[i].0, w) + seq![' ', frame.glyphs.axis_v] + bar_field(
        frame.glyphs.full,
        zero,
        places[i].at,
        bar_room(frame.width as int, w, 14),
    ) + seq![' '] + rows[i].1.text + seq!['\n']));
}

/// A sparkline has a cell for each value, at its level, the highest for all above it.
pub proof fn law_a_sparkline_has_a_cell_for_each_value(
    frame: Frame,
    cells: Seq<SparkCell>,
    i: int,
)
    requires
        0 <= i < cells.len(),
        frame.ramp is None,
    ensures
        spark_cells(frame, cells, 0) == Seq::<char>::empty(),
        spark_cells(frame, cells, i + 1) == spark_cells(frame, cells, i) + seq![
            frame.glyphs.levels@[
                if cells[i].level >= 7 {
                    7
                } else {
                    cells[i].level as int
                }
            ],
        ],
{
}

/// The labels of a numeric axis sit at their ticks, those of a time axis have its ends
/// pinned, and a category axis has just its ends.
pub proof fn law_each_axis_has_its_labels(
    a: Seq<char>,
    b: Seq<char>,
    width: int,
    worked: Seq<Tick>,
)
    ensures
        x_labels(XAxisV::Ends(a, b), width, worked) == ends_row(width, a, b),
        x_labels(XAxisV::Numeric, width, worked) == trimmed_end(
            ticked(width, worked, false, worked.len() as int).0,
        ),
        x_labels(XAxisV::Time, width, worked) == trimmed_end(
            ticked(width, worked, true, worked.len() as int).0,
        ),
{
}

/// The first label of a time axis is at its beginning and the last at its end; a label
/// between them, and any on a numeric axis, is centred on its tick as far as it fits.
pub proof fn law_labels_are_centred_on_their_ticks(width: int, ticks: Seq<Tick>, i: int)
    requires
        0 <= i < ticks.len(),
        ticks[i].label@.len() <= width,
    ensures
        tick_start(width, ticks, true, 0) == (0int, true),
        i > 0 && i == ticks.len() - 1 ==> tick_start(width, ticks, true, i) == (
            width - ticks[i].label@.len(),
            true,
        ),
        ({
            let (start, pinned) = tick_start(width, ticks, false, i);
            let half = ticks[i].label@.len() as int / 2;
            &&& !pinned
            &&& 0 <= start <= width - ticks[i].label@.len()
            &&& half <= ticks[i].at && ticks[i].at - half <= width - ticks[i].label@.len() ==> start
                == ticks[i].at - half
        }),
{
}

/// A series of a line chart is joined where it has more than one point, and else each of
/// its points is lit.
pub proof fn law_a_series_is_joined_or_lit(points: Seq<(i64, i64)>, w: int, h: int)
    ensures
        points.len() >= 2 ==> series_cells(points, true, w, h) == connected(
            points,
            w,
            h,
            points.len() as int,
        ),
        points.len() == 1 ==> series_cells(points, true, w, h) == scattered(points, w, h, 1),
        series_cells(points, false, w, h) == scattered(points, w, h, points.len() as int),
{
}

} // verus!
