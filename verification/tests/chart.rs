use csvm::chart::{
    Bounds, ChartData, Drawn, Drops, Frame, Glyphs, HeatData, HistData, MAX_CELLS, SparkData,
    bar_value, bin_count, bucket, chart_size, default_title, heat_counts, heat_grid, lerp, minmax,
    to_csv,
};
use csvm::collect::{AxisRange, BarData, BarRow, XyData, XyRow};
use csvm::field::Num;
use csvm::graph::XAxis;
use csvm::plan::{ColRef, GraphKind, GraphOpts, GraphSpec};

fn num(v: f64) -> Num {
    Num {
        bits: v.to_bits(),
        text: v.to_string(),
    }
}

fn nums(vs: &[f64]) -> Vec<Num> {
    vs.iter().map(|&v| num(v)).collect()
}

fn val(n: &Num) -> f64 {
    f64::from_bits(n.bits)
}

fn range(r: Option<(f64, f64)>) -> AxisRange {
    r.map(|(lo, hi)| (num(lo), num(hi)))
}

/// The size at `scale`, over a terminal of that width.
fn size(
    scale: f64,
    term: Option<usize>,
    width: Option<usize>,
    height: Option<usize>,
) -> (usize, usize) {
    let scaled = |base: usize| (base as f64 * scale).round() as usize;
    chart_size(scaled(term.unwrap_or(80)), scaled(15), width, height)
}

/// The point between the ends, as a weighted sum.
fn step(lo: f64, hi: f64, i: usize, n: usize) -> Num {
    let (i, n) = (i as f64, n as f64);
    num(lo / n * (n - i) + hi / n * i)
}

fn lerp_f(lo: f64, hi: f64, i: usize, n: usize) -> f64 {
    val(&lerp(&num(lo), &num(hi), i, n, &step(lo, hi, i, n)))
}

/// The band of the axis that `v` lies in, of `n`.
fn band(v: f64, lo: f64, hi: f64, n: usize) -> usize {
    let span = hi * 0.5 - lo * 0.5;
    if span > 0.0 {
        ((v * 0.5 - lo * 0.5) / span * n as f64).floor() as usize
    } else {
        0
    }
}

fn hist(values: &[f64], bins: Option<usize>, span: Option<(f64, f64)>) -> Option<HistData> {
    let n = bin_count(values.len(), bins);
    let lo = values.iter().copied().fold(f64::INFINITY, f64::min);
    let hi = values.iter().copied().fold(f64::NEG_INFINITY, f64::max);
    let (lo, hi) = span.unwrap_or((lo, hi));
    let places: Vec<usize> = values.iter().map(|&v| band(v, lo, hi, n)).collect();
    let inner: Vec<Num> = (1..n).map(|i| step(lo, hi, i, n)).collect();
    HistData::build(&nums(values), bins, &range(span), &places, inner)
}

fn points(pts: &[(f64, f64)]) -> Vec<(Num, Num)> {
    pts.iter().map(|&(x, y)| (num(x), num(y))).collect()
}

fn bounds(
    pts: &[(f64, f64)],
    xrange: Option<(f64, f64)>,
    yrange: Option<(f64, f64)>,
) -> (f64, f64, f64, f64) {
    let b: Bounds = HeatData::bounds(&points(pts), &range(xrange), &range(yrange));
    (val(&b.xlo), val(&b.xhi), val(&b.ylo), val(&b.yhi))
}

fn heat(pts: &[(f64, f64)], cols: usize, rows: usize) -> Vec<u64> {
    let (xlo, xhi, ylo, yhi) = bounds(pts, None, None);
    let cells: Vec<(usize, usize)> = pts
        .iter()
        .map(|&(x, y)| {
            (
                band(x, xlo, xhi, cols.max(1)),
                band(y, ylo, yhi, rows.max(1)),
            )
        })
        .collect();
    heat_counts(&cells, cols, rows)
}

/// The rows of an xy chart: one for each x, with the ys of each series there.
fn xy_data(names: &[&str], series: &[&[(f64, f64)]]) -> XyData {
    let mut xs: Vec<f64> = Vec::new();
    for pts in series {
        for &(x, _) in *pts {
            if !xs.contains(&x) {
                xs.push(x);
            }
        }
    }
    xs.sort_by(|a, b| a.partial_cmp(b).unwrap());
    XyData {
        xname: "x".to_string(),
        names: names.iter().map(|n| n.to_string()).collect(),
        rows: xs
            .iter()
            .map(|&x| XyRow {
                xcell: x.to_string(),
                x: num(x),
                ys: series
                    .iter()
                    .map(|pts| pts.iter().find(|(px, _)| *px == x).map(|&(_, y)| num(y)))
                    .collect(),
                color_by: None,
            })
            .collect(),
        xaxis: XAxis::Numeric,
        connect: false,
        xrange: None,
        yrange: None,
        color_by: None,
    }
}

fn xy_of(pts: &[(f64, f64)]) -> XyData {
    xy_data(&["y"], &[pts])
}

fn bounds_of(d: &XyData) -> (f64, f64, f64, f64) {
    let (a, b, c, e) = d.bounds();
    (val(&a), val(&b), val(&c), val(&e))
}

#[test]
fn chart_size_follows_the_terminal_then_scale_then_overrides() {
    assert_eq!(size(1.0, None, None, None), (80, 15));
    assert_eq!(size(1.0, Some(120), None, None), (120, 15));
    assert_eq!(size(0.5, Some(120), None, None), (60, 8));
    assert_eq!(size(2.0, Some(120), Some(40), Some(3)), (40, 3));
    // Floors: 16 wide, 2 high.
    assert_eq!(size(0.01, None, None, None), (16, 2));
    assert_eq!(size(1.0, None, Some(1), Some(1)), (16, 2));
    // ...and the same ceiling `-W`/`-H` have, so `-s` cannot escape it.
    assert_eq!(size(1000.0, None, None, None), (4096, 4096));
    assert_eq!(MAX_CELLS, 4096);
}

#[test]
fn frame_notes_render_as_a_tail_and_a_line() {
    let mut f = Frame::new("t".into(), 80, 15, false);
    assert_eq!(f.notes_tail(), "");
    f.notes.push("skipped 2 non-numeric".into());
    f.notes.push("+1 more not shown".into());
    assert_eq!(
        f.notes_tail(),
        "  (skipped 2 non-numeric)  (+1 more not shown)"
    );
    assert_eq!(f.notes_line(), "skipped 2 non-numeric  +1 more not shown");
}

#[test]
fn lerp_hits_both_ends_exactly() {
    // An epoch-millisecond axis has no spare bits for a rounding error: the
    // ends are the ends, and the steps between them still climb.
    let (lo, n) = (1700000000000.0, 11);
    let hi = lo + 100000.0;
    let edges: Vec<f64> = (0..=n).map(|i| lerp_f(lo, hi, i, n)).collect();
    assert_eq!(edges[0], lo);
    assert_eq!(edges[n], hi);
    assert!(edges.windows(2).all(|w| w[0] <= w[1]), "{edges:?}");
}

#[test]
fn drops_notes_read_in_one_fixed_order() {
    assert!(Drops::default().notes().is_empty());
    let d = Drops {
        skipped: 1,
        clipped: 2,
        dropped: 3,
        color: 4,
        truncated: 5,
        grid_capped: Some((6, 7)),
    };
    assert_eq!(
        d.notes(),
        [
            "+5 more not shown",
            "skipped 1 non-numeric",
            "clipped 2 out of range",
            "dropped 3 non-positive",
            "4 non-numeric colour cells",
            "grid capped to 6x7",
        ]
    );
}

#[test]
fn hist_data_bins_a_span_wider_than_f64_can_subtract() {
    // The bins have to divide the axis all the same, and their edges stay real
    // numbers.
    let h = hist(&[-1e308, 0.0, 1e308], Some(4), None).unwrap();
    assert_eq!(h.counts, [1, 0, 1, 1]);
    let edges: Vec<f64> = (0..=4).map(|i| val(&h.edge(i))).collect();
    assert!(edges.iter().all(|e| e.is_finite()), "{edges:?}");
    assert_eq!(edges[0], -1e308);
    assert_eq!(edges[2], 0.0);
    assert_eq!(edges[4], 1e308);
}

#[test]
fn hist_data_bins_with_sturges_by_default() {
    let h = hist(&[1.0, 2.0, 3.0, 4.0], None, None).unwrap();
    assert_eq!((val(&h.lo), val(&h.hi), h.total), (1.0, 4.0, 4));
    assert_eq!(h.counts.len(), 3); // ceil(log2 4) + 1
    assert_eq!(h.counts.iter().sum::<u64>(), 4);
    assert!(hist(&[], None, None).is_none());
    assert_eq!(hist(&[5.0, 5.0], Some(2), None).unwrap().counts, [2, 0]);
}

#[test]
fn heat_counts_bin_points_into_a_grid() {
    let pts = [(0.0, 0.0), (1.0, 1.0), (1.0, 1.0), (0.5, 0.5)];
    // row 0 = low y. The bands are half-open, so only (0,0) is in the
    // low-left cell: (0.5, 0.5) sits on the mid boundary and joins the two
    // (1, 1)s in the top-right one.
    assert_eq!(heat(&pts, 2, 2), [1, 0, 0, 3]);
    // Nothing to bin is still a grid of the right shape with nothing in it.
    assert_eq!(heat(&[], 2, 2), [0, 0, 0, 0]);
}

#[test]
fn heat_counts_treats_a_zero_dimension_as_one() {
    let pts = [(0.0, 0.0), (1.0, 1.0)];
    assert_eq!(heat(&pts, 0, 2), [1, 1]);
    assert_eq!(heat(&pts, 2, 0), [1, 1]);
    assert_eq!(heat(&pts, 0, 0), [2]);
}

#[test]
fn heat_counts_bin_an_axis_too_wide_to_subtract() {
    let pts = [(-1e308, 0.0), (0.0, 0.0), (1e308, 0.0)];
    assert_eq!(heat(&pts, 4, 1), [1, 0, 1, 1]);
}

#[test]
fn heat_bounds_take_the_ranges_over_the_points_own_spread() {
    let pts = [(1.0, 2.0), (7.0, 3.0)];
    // No range: the points' own extent on both axes.
    assert_eq!(bounds(&pts, None, None), (1.0, 7.0, 2.0, 3.0));
    // A range *is* the axis, on each axis independently.
    assert_eq!(
        bounds(&pts, Some((0.0, 100.0)), Some((0.0, 10.0))),
        (0.0, 100.0, 0.0, 10.0)
    );
    assert_eq!(
        bounds(&pts, Some((0.0, 100.0)), None),
        (0.0, 100.0, 2.0, 3.0)
    );
    // An axis with neither a range nor a point spans nothing.
    assert_eq!(bounds(&[], None, None), (0.0, 0.0, 0.0, 0.0));
}

#[test]
fn ascii_glyphs_are_all_ascii() {
    let g = Glyphs::ascii();
    let all: String = [
        g.full,
        g.axis_v,
        g.axis_corner,
        g.axis_h,
        g.axis_tick,
        g.legend,
    ]
    .into_iter()
    .chain(g.levels)
    .chain(g.shades)
    .chain((0u8..=255).map(|b| g.braille(b)))
    .collect();
    assert!(all.is_ascii(), "{all}");
    assert!(g.partial.is_none());
    assert_eq!(g.braille(0), ' ');
    assert_eq!(g.braille(0x40), '*');
}

#[test]
fn to_csv_writes_each_kind_as_rows() {
    let h = HistData {
        lo: num(0.0),
        hi: num(10.0),
        counts: vec![3, 1],
        total: 4,
        inner: vec![num(5.0)],
    };
    assert_eq!(
        to_csv(&ChartData::Hist(Some(h))),
        "bin_lo,bin_hi,count\n0,5,3\n5,10,1\n"
    );
    assert_eq!(to_csv(&ChartData::Hist(None)), "bin_lo,bin_hi,count\n");
    let b = BarData {
        label_name: "label".into(),
        value_names: vec!["n".into(), "m".into()],
        rows: vec![
            ("a".into(), vec![Some(num(1.0)), None]),
            ("b, c".into(), vec![Some(num(2.0)), Some(num(3.0))]),
        ],
        axis: None,
    };
    assert_eq!(
        to_csv(&ChartData::Bar(b)),
        "label,n,m\na,1,\n\"b, c\",2,3\n"
    );
    let s = SparkData {
        name: "value".into(),
        values: nums(&[1.5, 2.0]),
        range: None,
    };
    assert_eq!(to_csv(&ChartData::Spark(s)), "bucket,value\n1,1.5\n2,2\n");
    let xy = XyData {
        xname: "t".into(),
        names: vec!["y".into()],
        rows: vec![XyRow {
            xcell: "2024-01-01".into(),
            x: num(0.0),
            ys: vec![Some(num(2.0))],
            color_by: None,
        }],
        xaxis: XAxis::Time,
        connect: false,
        xrange: None,
        yrange: None,
        color_by: None,
    };
    assert_eq!(to_csv(&ChartData::Xy(xy)), "t,y\n2024-01-01,2\n");
}

#[test]
fn to_csv_writes_real_values_under_a_log_axis() {
    let spark = |values: &[f64]| {
        to_csv(&ChartData::Spark(SparkData {
            name: "v".into(),
            values: nums(values),
            range: None,
        }))
    };
    assert_eq!(
        spark(&[10.0, 100.0, 1000.0]),
        "bucket,v\n1,10\n2,100\n3,1000\n"
    );
    assert_eq!(spark(&[5000000000.0]), "bucket,v\n1,5000000000\n");
    let xy = XyData {
        xname: "x".into(),
        names: vec!["y".into()],
        rows: vec![XyRow {
            xcell: "1".into(),
            x: num(1.0),
            ys: vec![Some(num(5000000000.0))],
            color_by: None,
        }],
        xaxis: XAxis::Numeric,
        connect: false,
        xrange: None,
        yrange: None,
        color_by: None,
    };
    assert_eq!(to_csv(&ChartData::Xy(xy)), "x,y\n1,5000000000\n");
}

#[test]
fn xy_bounds_fold_the_points_unless_a_range_says_otherwise() {
    let mut d = xy_of(&[(1.0, 20.0), (3.0, 5.0)]);
    assert_eq!(bounds_of(&d), (1.0, 3.0, 5.0, 20.0));
    // A range *is* the axis, on that axis alone.
    d.xrange = range(Some((0.0, 10.0)));
    assert_eq!(bounds_of(&d), (0.0, 10.0, 5.0, 20.0));
    d.yrange = range(Some((0.0, 100.0)));
    assert_eq!(bounds_of(&d), (0.0, 10.0, 0.0, 100.0));
    // Nothing plotted has no extent; the renderers read that as an empty
    // chart rather than drawing an axis over it.
    assert!(!bounds_of(&xy_of(&[])).0.is_finite());
}

#[test]
fn xy_color_bounds_span_the_plotted_points_colour_values() {
    let mut d = xy_of(&[(1.0, 1.0), (2.0, 2.0), (3.0, 3.0)]);
    assert!(d.color_bounds().is_none());
    d.rows[0].color_by = Some(num(4.0));
    d.rows[2].color_by = Some(num(-1.0));
    let (lo, hi) = d.color_bounds().unwrap();
    assert_eq!((val(&lo), val(&hi)), (-1.0, 4.0));
}

/// The bounds of the axis of the bars, their lengths mapped where it is a log one.
fn axis_bounds(rows: &[BarRow], axis: Option<(f64, f64)>, log: bool) -> (f64, f64) {
    let mapped = |v: &Num| bar_value(v, log, &num(val(v).log10()));
    let axis: AxisRange = axis.and_then(|(lo, hi)| Some((mapped(&num(lo))?, mapped(&num(hi))?)));
    let drawn: Vec<Num> = rows
        .iter()
        .flat_map(|(_, vs)| vs.iter().flatten())
        .filter_map(mapped)
        .collect();
    let (lo, hi) = BarData::axis_bounds(&axis, &drawn);
    (val(&lo), val(&hi))
}

#[test]
fn bar_axis_bounds_anchor_at_zero_or_take_the_explicit_axis() {
    let rows = vec![
        ("x".to_string(), vec![Some(num(2.0)), Some(num(5.0))]),
        ("y".to_string(), vec![Some(num(-3.0)), None]),
    ];
    // The baseline is 0 and the axis spans every series, so a group reads
    // against one scale.
    assert_eq!(axis_bounds(&rows, None, false), (-3.0, 5.0));
    // An explicit `-y` axis replaces that, through the drawn value.
    assert_eq!(axis_bounds(&rows, Some((0.0, 10.0)), false), (0.0, 10.0));
    assert_eq!(axis_bounds(&rows, Some((1.0, 100.0)), true), (0.0, 2.0));
    // Under a log axis only the positive values are drawable.
    assert_eq!(axis_bounds(&rows, None, true), (0.0, 0.6989700043360189));
    assert_eq!(axis_bounds(&[], None, false), (0.0, 0.0));
}

#[test]
fn xy_series_drops_blank_ys_per_series() {
    let d = xy_data(&["a", "b"], &[&[(1.0, 2.0), (2.0, 3.0)], &[(2.0, 4.0)]]);
    let series: Vec<Vec<(f64, f64)>> = d
        .series()
        .iter()
        .map(|pts| pts.iter().map(|(x, y)| (val(x), val(y))).collect())
        .collect();
    assert_eq!(
        series,
        vec![vec![(1.0, 2.0), (2.0, 3.0)], vec![(2.0, 4.0)]]
    );
}

#[test]
fn the_spread_holds_every_value() {
    let (lo, hi) = minmax(&nums(&[3.0, -1.5, 7.0])).unwrap();
    assert_eq!((val(&lo), val(&hi)), (-1.5, 7.0));
    assert!(minmax(&[]).is_none());
}

#[test]
fn buckets_part_the_values() {
    assert_eq!(
        bucket(10, 3).unwrap(),
        vec![(0, 3), (3, 6), (6, 10)]
    );
    assert!(bucket(3, 10).is_none());
}

#[test]
fn a_grid_is_cut_to_what_can_draw_it() {
    assert_eq!(heat_grid(Some(500), 40, 10, Drawn::Data), (500, 500, None));
    let (c, r, capped) = heat_grid(Some(500), 40, 10, Drawn::Terminal);
    assert_eq!(capped, Some((c, r)));
    assert!(c <= 40 && r <= 10);
}

#[test]
fn a_heatmap_names_its_corners_and_is_written_out() {
    let h = HeatData {
        xname: "x".into(),
        yname: "y".into(),
        xedges: nums(&[0.0, 5.0]),
        yedges: nums(&[0.0, 1.0]),
        cols: 2,
        rows: 2,
        counts: vec![1, 0, 0, 2],
        total: 3,
    };
    let (x, y) = h.cell_lo(3);
    assert_eq!((val(&x), val(&y)), (5.0, 1.0));
    let written = to_csv(&ChartData::Heat(h));
    // Only the cells that hold a point are written.
    assert_eq!(written, "x,y,count\n0,0,1\n5,1,2\n");
}

#[test]
fn a_chart_is_titled_by_its_columns() {
    let spec = |kind: GraphKind, cols: &[&str]| GraphSpec {
        kind,
        cols: cols.iter().map(|c| ColRef::new(c.to_string())).collect(),
        opts: GraphOpts {
            title: None,
            bins: None,
            scale: num(1.0),
            svg: false,
            data: false,
            log: false,
            xrange: None,
            yrange: None,
            color_by: None,
        },
    };
    assert_eq!(default_title(&spec(GraphKind::Hist, &["v"])), "v");
    assert_eq!(default_title(&spec(GraphKind::Bar, &["l", "v"])), "v");
    assert_eq!(
        default_title(&spec(GraphKind::Scatter, &["x", "y"])),
        "y vs x"
    );
}
