use csvm::chart::Drops;
use csvm::collect::{
    AxisRange, Gathered, MAX_BARS, XyData, clip, collect, collect_bars, collect_numeric,
    collect_xy, data_rows, drop_non_positive, numeric_values,
};
use csvm::field::{Num, Readings};
use csvm::graph::{XAxis, frame_of};
use csvm::plan::{ColRef, GraphKind, GraphOpts, GraphSpec};

fn num(v: f64) -> Num {
    Num {
        bits: v.to_bits(),
        text: v.to_string(),
    }
}

fn val(n: &Num) -> f64 {
    f64::from_bits(n.bits)
}

fn vals(ns: &[Num]) -> Vec<f64> {
    ns.iter().map(val).collect()
}

fn range(lo: f64, hi: f64) -> AxisRange {
    Some((num(lo), num(hi)))
}

/// What the numbers of a text read as.
fn readings(text: &str) -> Readings {
    let mut r = Readings::new();
    for cell in text.split([',', '\n']) {
        let t = cell.trim();
        if let Ok(v) = t.parse::<f64>() {
            r.learn(t.to_string(), num(v));
        }
    }
    r
}

fn spec(kind: GraphKind, cols: &[(&str, usize)]) -> GraphSpec {
    GraphSpec {
        kind,
        cols: cols
            .iter()
            .map(|&(name, pos)| ColRef {
                name: name.to_string(),
                pos,
            })
            .collect(),
        opts: GraphOpts {
            title: None,
            bins: None,
            scale: num(1.0),
            svg: false,
            data: false,
            log: false,
            xrange: None,
            yrange: None,
            color_by: None,
        },
    }
}

fn strings(names: &[&str]) -> Vec<String> {
    names.iter().map(|n| n.to_string()).collect()
}

fn points(xy: &XyData, k: usize) -> Vec<(f64, f64)> {
    xy.series_points(k)
        .iter()
        .map(|(x, y)| (val(x), val(y)))
        .collect()
}

#[test]
fn only_finite_numbers_are_charted() {
    let text = "v\n1\nx\n\n2.5\ninf\nNaN\n-3\n";
    let rows = data_rows(text);
    let (values, skipped) = collect_numeric(&rows, 0, &readings(text));
    assert_eq!(vals(&values), [1.0, 2.5, -3.0]);
    assert_eq!(skipped as usize + values.len(), rows.len());
    // A column that is not there has no numbers.
    let (values, skipped) = collect_numeric(&rows, 7, &readings(text));
    assert!(values.is_empty());
    assert_eq!(skipped as usize, rows.len());
}

#[test]
fn a_range_clips_and_a_log_axis_drops() {
    let all = || [-1.0, 0.0, 1.0, 5.0, 9.0].map(num).to_vec();
    let (kept, clipped) = clip(all(), &range(0.0, 5.0));
    assert_eq!(vals(&kept), [0.0, 1.0, 5.0]);
    assert_eq!(clipped, 2);
    let (kept, clipped) = clip(all(), &None);
    assert_eq!((kept.len(), clipped), (5, 0));
    let (kept, dropped) = drop_non_positive(all());
    assert_eq!(vals(&kept), [1.0, 5.0, 9.0]);
    assert_eq!(dropped, 2);
    // The range is in real values, so it clips before the log.
    let text = "v\n-1\n0\n1\n5\n9\nz\n";
    let rows = data_rows(text);
    let (kept, drops) = numeric_values(&rows, 0, &range(0.0, 5.0), true, &readings(text));
    assert_eq!(vals(&kept), [1.0, 5.0]);
    assert_eq!((drops.skipped, drops.clipped, drops.dropped), (1, 2, 1));
}

#[test]
fn bars_keep_one_row_a_label_up_to_the_cap() {
    let text = "k,a,b\nx,1,2\ny,n,3\nz,n,m\nw,4,\n";
    let rows = data_rows(text);
    let (bars, skipped, truncated) = collect_bars(&rows, 0, &[1, 2], 2, &readings(text));
    assert_eq!(bars.len(), 2);
    assert_eq!(bars[0].0, "x");
    assert_eq!(bars[1].0, "y");
    assert!(bars[1].1[0].is_none());
    assert_eq!(bars[1].1[1].as_ref().map(val), Some(3.0));
    assert_eq!((skipped, truncated), (1, 1));
}

#[test]
fn a_numeric_x_drops_the_rows_that_are_not() {
    let text = "x,y,z\n1,10,n\nq,20,30\n3,n,n\n4,40,5\n";
    let rows = data_rows(text);
    let (xy, skipped) = collect_xy(
        &rows,
        "x".to_string(),
        0,
        strings(&["y", "z"]),
        &[1, 2],
        None,
        &readings(text),
        &Readings::new(),
    );
    assert!(matches!(xy.xaxis, XAxis::Numeric));
    assert_eq!(points(&xy, 0), [(1.0, 10.0), (4.0, 40.0)]);
    assert_eq!(points(&xy, 1), [(4.0, 5.0)]);
    // Both points of the row without an x, one of the first, both of the third.
    assert_eq!(skipped, 5);
    let plotted = points(&xy, 0).len() + points(&xy, 1).len();
    assert_eq!(plotted + skipped as usize, 2 * rows.len());
}

#[test]
fn times_plot_at_their_epochs_and_other_texts_by_row() {
    let text = "t,y\n2024-01-01,1\n2024-01-02,2\n";
    let rows = data_rows(text);
    let xy_of = |epochs: &Readings| {
        collect_xy(
            &rows,
            "t".to_string(),
            0,
            strings(&["y"]),
            &[1],
            None,
            &readings(text),
            epochs,
        )
        .0
    };
    let mut epochs = Readings::new();
    epochs.learn("2024-01-01".to_string(), num(1704067200.0));
    // One cell that is no time makes the axis one of rows.
    let xy = xy_of(&epochs);
    assert!(
        matches!(&xy.xaxis, XAxis::Ends(a, b) if a == "2024-01-01" && b == "2024-01-02")
    );
    assert_eq!(points(&xy, 0), [(1.0, 1.0), (2.0, 2.0)]);
    epochs.learn("2024-01-02".to_string(), num(1704153600.0));
    let xy = xy_of(&epochs);
    assert!(matches!(xy.xaxis, XAxis::Time));
    assert_eq!(
        points(&xy, 0),
        [(1704067200.0, 1.0), (1704153600.0, 2.0)]
    );
}

#[test]
fn points_are_clipped_then_dropped_then_counted_for_colour() {
    let text = "x,y,c\n1,5,1\n2,-5,1\n3,50,1\n4,6,n\n";
    let mut g = spec(GraphKind::Line, &[("x", 0), ("y", 1)]);
    g.opts.yrange = range(-10.0, 10.0);
    g.opts.log = true;
    g.opts.color_by = Some(ColRef {
        name: "c".to_string(),
        pos: 2,
    });
    let c = collect(text, &g, &readings(text), &Readings::new());
    let Gathered::Xy(xy) = &c.data else {
        panic!("a line chart gathers points");
    };
    assert!(xy.connect);
    assert_eq!(points(xy, 0), [(1.0, 5.0), (4.0, 6.0)]);
    assert_eq!((c.drops.clipped, c.drops.dropped, c.drops.color), (1, 1, 1));
    assert_eq!(xy.color_by.as_deref(), Some("c"));
}

#[test]
fn a_hist_keeps_what_a_log_axis_would_drop() {
    let text = "v\n-1\n0\n7\n";
    let mut g = spec(GraphKind::Hist, &[("v", 0)]);
    g.opts.log = true;
    let c = collect(text, &g, &readings(text), &Readings::new());
    assert!(matches!(&c.data, Gathered::Hist(vs) if vals(vs) == [-1.0, 0.0, 7.0]));
    let mut g = spec(GraphKind::Spark, &[("v", 0)]);
    g.opts.log = true;
    let c = collect(text, &g, &readings(text), &Readings::new());
    assert!(matches!(&c.data, Gathered::Spark(vs) if vals(vs) == [7.0]));
    assert_eq!(c.drops.dropped, 2);
}

#[test]
fn a_drawn_bar_chart_is_capped_and_a_written_one_is_not() {
    let mut text = "k,v\n".to_string();
    for i in 0..MAX_BARS + 3 {
        text.push_str(&format!("l{i},{i}\n"));
    }
    let mut g = spec(GraphKind::Bar, &[("k", 0), ("v", 1)]);
    let c = collect(&text, &g, &readings(&text), &Readings::new());
    assert!(matches!(&c.data, Gathered::Bar(b) if b.rows.len() == MAX_BARS));
    assert_eq!(c.drops.truncated, 3);
    g.opts.data = true;
    let c = collect(&text, &g, &readings(&text), &Readings::new());
    assert!(matches!(&c.data, Gathered::Bar(b) if b.rows.len() == MAX_BARS + 3));
    assert_eq!(c.drops.truncated, 0);
}

#[test]
fn a_heatmap_gathers_one_series() {
    let text = "x,y\n1,2\n3,4\nq,5\n";
    let mut g = spec(GraphKind::Heatmap, &[("x", 0), ("y", 1)]);
    g.opts.xrange = range(0.0, 2.0);
    let c = collect(text, &g, &readings(text), &Readings::new());
    let Gathered::Heat(xy) = &c.data else {
        panic!("a heatmap gathers points");
    };
    assert_eq!(points(xy, 0), [(1.0, 2.0)]);
    assert_eq!((c.drops.skipped, c.drops.clipped), (1, 1));
}

#[test]
fn a_frame_says_what_its_chart_could_not_use() {
    let text = "k,v\na,1\nb,x\nc,3\n";
    let mut g = spec(GraphKind::Scatter, &[("k", 0), ("v", 1)]);
    let c = collect(text, &g, &readings(text), &Readings::new());
    let f = frame_of(&g, &c, 40, 9, true);
    assert_eq!(f.title, "v vs k");
    assert_eq!((f.width, f.height, f.color, f.log), (40, 9, true, false));
    assert_eq!(f.notes, ["skipped 1 non-numeric", "even row spacing"]);
    g.opts.title = Some("growth".to_string());
    g.opts.log = true;
    let c = csvm::collect::Collected {
        drops: Drops::default(),
        ..c
    };
    let f = frame_of(&g, &c, 40, 9, false);
    assert_eq!(f.title, "growth");
    assert!(f.log);
    assert_eq!(f.notes, ["even row spacing"]);
}
