use csvm::canvas::Braille;
use csvm::chart::{
    ChartData, Frame, Glyphs, HistData, SparkData, bar_value, bin_count, bucket,
};
use csvm::collect::{BarData, XyData, XyRow};
use csvm::color::{Rgb, parse_ramp};
use csvm::field::Num;
use csvm::graph::{
    BarLen, BarPlace, HistBar, Marks, Mix, SparkCell, Tick, XAxis, axis_label_width, bar_len,
    bars_to_draw, canvas_cells, canvas_size, label_width, place_ticks, render, render_bars,
    render_hist, render_spark, render_xy, room, series_rgb, tick_count, x_label_row,
};

/// A number as it prints.
fn shown(v: f64) -> String {
    if v.fract() == 0.0 && v.abs() < 1e15 {
        return format!("{}", v as i64);
    }
    let s = format!("{v:.6}");
    s.trim_end_matches('0').trim_end_matches('.').to_string()
}

fn num(v: f64) -> Num {
    Num {
        bits: v.to_bits(),
        text: shown(v),
    }
}

fn nums(vs: &[f64]) -> Vec<Num> {
    vs.iter().map(|&v| num(v)).collect()
}

fn val(n: &Num) -> f64 {
    f64::from_bits(n.bits)
}

fn step(lo: f64, hi: f64, i: usize, n: usize) -> f64 {
    let (i, n) = (i as f64, n as f64);
    lo / n * (n - i) + hi / n * i
}

fn hist(values: &[f64], bins: usize) -> Option<HistData> {
    let n = bin_count(values.len(), Some(bins));
    let lo = values.iter().copied().fold(f64::INFINITY, f64::min);
    let hi = values.iter().copied().fold(f64::NEG_INFINITY, f64::max);
    let span = hi * 0.5 - lo * 0.5;
    let places: Vec<usize> = values
        .iter()
        .map(|&v| {
            if span > 0.0 {
                ((v * 0.5 - lo * 0.5) / span * n as f64).floor() as usize
            } else {
                0
            }
        })
        .collect();
    let inner: Vec<Num> = (1..n).map(|i| num(step(lo, hi, i, n))).collect();
    HistData::build(&nums(values), Some(bins), &None, &places, inner)
}

/// How long a bar of `v` is, where one of `max` fills `width` cells.
fn length(v: f64, max: f64, width: usize) -> BarLen {
    if max <= 0.0 || v <= 0.0 || width == 0 {
        return BarLen {
            full: 0,
            eighths: None,
        };
    }
    let frac = v / max * width as f64;
    let full = frac.floor() as usize;
    let rem = frac - full as f64;
    BarLen {
        full,
        eighths: if rem > 0.0 {
            Some((rem * 8.0).round() as usize)
        } else {
            None
        },
    }
}

fn hist_text(frame: &Frame, h: &HistData) -> String {
    let n = h.counts.len();
    let edges: Vec<String> = (0..n).map(|i| shown(val(&h.edge(i)))).collect();
    let axis_w = edges.iter().map(String::len).max().unwrap_or(1);
    let width = room(frame.width, axis_w, 12);
    let max = h.counts.iter().copied().max().unwrap_or(0);
    let bars: Vec<HistBar> = edges
        .into_iter()
        .zip(&h.counts)
        .map(|(edge, &c)| HistBar {
            edge,
            len: length(c as f64, max as f64, width),
            mix: None,
        })
        .collect();
    render_hist(frame, h, &bars)
}

fn bar_data(rows: &[(&str, f64)]) -> BarData {
    BarData {
        label_name: "label".to_string(),
        value_names: vec!["v".to_string()],
        rows: rows
            .iter()
            .map(|(l, v)| (l.to_string(), vec![Some(num(*v))]))
            .collect(),
        axis: None,
    }
}

fn bars_text(frame: &Frame, b: &BarData) -> String {
    let rows = bars_to_draw(b);
    let w = room(frame.width, label_width(&rows), 14);
    let drawn: Vec<Option<f64>> = rows
        .iter()
        .map(|(_, v)| bar_value(v, frame.log, &num(val(v).log10())).map(|n| val(&n)))
        .collect();
    let some: Vec<Num> = drawn.iter().flatten().map(|&v| num(v)).collect();
    let (lo, hi) = BarData::axis_bounds(&b.axis, &some);
    let (lo, hi) = (val(&lo), val(&hi));
    let at = |v: f64| {
        let span = hi - lo;
        if span > 0.0 {
            ((v.clamp(lo, hi) - lo) / span * w as f64).round() as usize
        } else {
            0
        }
    };
    let places: Vec<BarPlace> = drawn
        .iter()
        .map(|d| BarPlace {
            at: d.map(at),
            mix: None,
        })
        .collect();
    render_bars(frame, b, &places, at(0.0))
}

fn spark_text(frame: &Frame, s: &SparkData) -> String {
    let (lo, hi) = s.bounds();
    let pos = |v: f64| if frame.log { v.log10() } else { v };
    let (lo, hi) = (pos(val(&lo)), pos(val(&hi)));
    let span = hi - lo;
    let cells: Vec<SparkCell> = s
        .values
        .iter()
        .map(|v| SparkCell {
            level: if span > 0.0 {
                ((pos(val(v)) - lo) / span * 7.0).round() as usize
            } else {
                3
            },
            mix: None,
        })
        .collect();
    render_spark(frame, s, &cells)
}

fn xy_data(names: &[&str], series: &[Vec<(f64, f64)>], xaxis: XAxis, connect: bool) -> XyData {
    let mut xs: Vec<f64> = Vec::new();
    for pts in series {
        for &(x, _) in pts {
            if !xs.contains(&x) {
                xs.push(x);
            }
        }
    }
    xs.sort_by(|a, b| a.partial_cmp(b).unwrap());
    XyData {
        xname: "x".to_string(),
        names: names.iter().map(|n| n.to_string()).collect(),
        rows: xs
            .iter()
            .map(|&x| XyRow {
                xcell: shown(x),
                x: num(x),
                ys: series
                    .iter()
                    .map(|pts| pts.iter().find(|(px, _)| *px == x).map(|&(_, y)| num(y)))
                    .collect(),
                color_by: None,
            })
            .collect(),
        xaxis,
        connect,
        xrange: None,
        yrange: None,
        color_by: None,
    }
}

/// Ticks at every tenth of a round step, as a numeric axis has them.
fn numeric_ticks(lo: f64, hi: f64, target: usize, width: usize) -> Vec<Tick> {
    let span = hi - lo;
    if span <= 0.0 || target == 0 {
        return vec![Tick {
            at: 0,
            label: shown(lo),
        }];
    }
    let raw = span / target as f64;
    let mag = 10f64.powf(raw.log10().floor());
    let norm = raw / mag;
    let step = mag
        * if norm < 1.5 {
            1.0
        } else if norm < 3.0 {
            2.0
        } else if norm < 7.0 {
            5.0
        } else {
            10.0
        };
    let mut out = Vec::new();
    let mut v = (lo / step).ceil() * step;
    while v <= hi + step * 1e-9 {
        let t = (v - lo) / span;
        out.push(Tick {
            at: (t * width.saturating_sub(1) as f64).round() as usize,
            label: shown(v),
        });
        v += step;
    }
    out
}

fn marks(frame: &Frame, xy: &XyData) -> (Vec<Vec<(i64, i64)>>, Vec<Tick>) {
    let (w, h, _) = canvas_size(frame, xy);
    let (pw, ph) = (w * 2, h * 4);
    let (xlo, xhi, ylo, yhi) = xy.bounds();
    let (xlo, xhi, ylo, yhi) = (val(&xlo), val(&xhi), val(&ylo), val(&yhi));
    let (xspan, yspan) = (xhi - xlo, yhi - ylo);
    let pixel = |x: f64, y: f64| {
        let px = if xspan > 0.0 {
            ((x - xlo) / xspan * (pw - 1) as f64).round() as i64
        } else {
            (pw / 2) as i64
        };
        let py = if yspan > 0.0 {
            ((ph - 1) as f64 - (y - ylo) / yspan * (ph - 1) as f64).round() as i64
        } else {
            (ph / 2) as i64
        };
        (px, py)
    };
    let pixels = xy
        .series()
        .iter()
        .map(|pts| pts.iter().map(|(x, y)| pixel(val(x), val(y))).collect())
        .collect();
    let target = tick_count(w, axis_label_width(&xy.xaxis, &num(xlo), &num(xhi), false));
    (pixels, numeric_ticks(xlo, xhi, target, w))
}

fn xy_text(frame: &Frame, xy: &XyData) -> String {
    let (pixels, ticks) = marks(frame, xy);
    render_xy(frame, xy, &pixels, ticks)
}

#[test]
fn bins_span_min_to_max_inclusive() {
    // 0..=9 into 3 bins: edges 0,3,6; the max (9) lands in the last bin.
    let h = hist(&[0.0, 1.0, 3.0, 4.0, 9.0], 3).unwrap();
    assert_eq!(val(&h.lo), 0.0);
    assert_eq!(val(&h.hi), 9.0);
    assert_eq!(h.counts, vec![2, 2, 1]);
    assert_eq!(h.total, 5);
}

#[test]
fn equal_values_collapse_to_one_populated_bin() {
    let h = hist(&[5.0, 5.0, 5.0], 4).unwrap();
    assert_eq!(h.counts.iter().sum::<u64>(), 3);
    assert_eq!(h.counts[0], 3);
}

#[test]
fn empty_values_render_nothing() {
    assert!(hist(&[], 4).is_none());
}

#[test]
fn hist_edges_stay_real_on_an_axis_too_wide_to_subtract() {
    let h = hist(&[-1e308, 0.0, 1e308], 4).unwrap();
    let s = hist_text(&Frame::new("v".to_string(), 80, 15, false), &h);
    assert!(!s.contains("NaN") && !s.contains("inf"), "{s}");
}

#[test]
fn render_reports_skipped_and_summary() {
    let h = hist(&[1.0, 2.0, 3.0], 2).unwrap();
    let mut f = Frame::new("amount".to_string(), 40, 15, false);
    f.notes.push("skipped 2 non-numeric".to_string());
    let s = hist_text(&f, &h);
    assert!(s.starts_with("amount\n"));
    assert!(s.contains("n=3"));
    assert!(s.contains("min=1"));
    assert!(s.contains("max=3"));
    assert!(s.contains("(skipped 2 non-numeric)"));
}

#[test]
fn bars_anchor_positive_at_left_edge() {
    let s = bars_text(
        &Frame::new("v".to_string(), 30, 15, false),
        &bar_data(&[("a", 2.0), ("b", 4.0)]),
    );
    assert!(s.starts_with("v\n"));
    // All-positive: the zero baseline is the left edge, so bars start there.
    let a_line = s.lines().nth(1).unwrap();
    assert!(a_line.contains("│█"), "{a_line}");
    assert!(s.contains("bars=2"));
}

#[test]
fn bars_diverge_around_zero_for_negatives() {
    let s = bars_text(
        &Frame::new("d".to_string(), 40, 15, false),
        &bar_data(&[("pos", 5.0), ("neg", -5.0)]),
    );
    let pos = s.lines().find(|l| l.contains("pos")).unwrap();
    let neg = s.lines().find(|l| l.contains("neg")).unwrap();
    // The negative bar starts left of where the positive bar starts.
    let bar_start = |l: &str| l.find('█').unwrap();
    assert!(bar_start(neg) < bar_start(pos), "neg={neg} pos={pos}");
}

#[test]
fn bars_clamp_to_an_explicit_axis_but_print_the_real_value() {
    let mut b = bar_data(&[("a", 1.0), ("b", 9.0)]);
    b.axis = Some((num(0.0), num(2.0)));
    let s = bars_text(&Frame::new("v".to_string(), 40, 15, false), &b);
    // The drawn field of a row: between the axis rule and the printed value.
    let field = |name: &str| {
        let line = s.lines().find(|l| l.contains(name)).unwrap();
        line.split_once('│')
            .unwrap()
            .1
            .rsplit_once(' ')
            .unwrap()
            .0
            .to_string()
    };
    // `b` is past the axis top, so its bar fills the field; `a` does not.
    assert!(field("b").chars().all(|c| c == '█'), "{s}");
    assert!(field("a").contains(' '), "{s}");
    // The clamp is only in the drawing: the printed value is still 9.
    assert!(s.lines().any(|l| l.ends_with(" 9")), "{s}");
}

#[test]
fn bars_report_skipped_and_truncated() {
    let mut f = Frame::new("v".to_string(), 30, 15, false);
    f.notes.push("+2 more not shown".to_string());
    f.notes.push("skipped 3 non-numeric".to_string());
    let s = bars_text(&f, &bar_data(&[("a", 1.0)]));
    assert!(s.contains("(+2 more not shown)"), "{s}");
    assert!(s.contains("(skipped 3 non-numeric)"), "{s}");
}

#[test]
fn spark_is_one_line_scaled_to_width() {
    let s = spark_text(
        &Frame::new("v".to_string(), 4, 15, false),
        &SparkData {
            name: "v".to_string(),
            values: nums(&[1.0, 2.0, 3.0, 4.0]),
            range: None,
        },
    );
    let line = s.lines().nth(1).unwrap();
    assert_eq!(line.chars().count(), 4);
    // Ascending values ⇒ the last cell is the tallest block.
    assert_eq!(line.chars().last().unwrap(), '█');
    assert_eq!(line.chars().next().unwrap(), '▁');
    assert!(s.contains("min=1") && s.contains("max=4"));
}

#[test]
fn spark_downsamples_long_series() {
    let vals: Vec<f64> = (0..100).map(|i| i as f64).collect();
    let parts = bucket(vals.len(), 10).unwrap();
    let means: Vec<f64> = parts
        .iter()
        .map(|&(a, b)| vals[a..b].iter().sum::<f64>() / (b - a) as f64)
        .collect();
    let s = spark_text(
        &Frame::new("v".to_string(), 10, 15, false),
        &SparkData {
            name: "v".to_string(),
            values: nums(&means),
            range: None,
        },
    );
    assert_eq!(s.lines().nth(1).unwrap().chars().count(), 10);
}

#[test]
fn braille_set_maps_pixels_to_dot_bits() {
    let mut b = Braille::new(1, 1); // one cell = 2×4 pixels
    b.set(0, 0); // dot 1
    assert_eq!(b.bits[0], 0x01);
    b.set(1, 3); // dot 8
    assert_eq!(b.bits[0], 0x01 | 0x80);
    b.set(99, 99); // out of range — ignored
    assert_eq!(b.bits[0], 0x01 | 0x80);
    assert_eq!(Glyphs::unicode().braille(0x01), '⠁');
}

#[test]
fn render_xy_frames_a_scatter() {
    let pts = vec![vec![(0.0, 0.0), (1.0, 1.0), (2.0, 2.0)]];
    let s = xy_text(
        &Frame::new("y vs x".to_string(), 10, 4, false),
        &xy_data(&["y"], &pts, XAxis::Numeric, false),
    );
    assert!(s.starts_with("y vs x\n"));
    assert!(s.contains('┤')); // y-axis border
    assert!(s.contains('└')); // bottom axis
    assert!(s.contains("points=3"));
    // The axis labels span the data range.
    assert!(s.contains('0') && s.contains('2'));
}

#[test]
fn render_xy_uses_end_labels_for_a_category_axis() {
    // Row-index fallback: positions are 1,2,3 but the axis shows real ends.
    let pts = vec![vec![(1.0, 0.0), (2.0, 1.0), (3.0, 2.0)]];
    let ends = XAxis::Ends("2024-01-01".to_string(), "2024-01-03".to_string());
    let s = xy_text(
        &Frame::new("y vs t".to_string(), 40, 4, false),
        &xy_data(&["y"], &pts, ends, true),
    );
    assert!(s.contains("2024-01-01") && s.contains("2024-01-03"), "{s}");
}

#[test]
fn render_xy_numeric_axis_has_intermediate_ticks() {
    // A wide numeric axis over 0..100 should graduate beyond just the ends.
    let pts = vec![(0..=100).map(|i| (i as f64, i as f64)).collect()];
    let s = xy_text(
        &Frame::new("y vs x".to_string(), 80, 6, false),
        &xy_data(&["y"], &pts, XAxis::Numeric, false),
    );
    // More than the two ends (0 and 100) — an intermediate tick near 50.
    assert!(s.contains("50"), "{s}");
}

#[test]
fn render_xy_empty_is_loud() {
    let mut f = Frame::new("y vs x".to_string(), 80, 15, false);
    f.notes.push("skipped 5 non-numeric".to_string());
    let xy = xy_data(&["y"], &[vec![]], XAxis::Numeric, false);
    let s = render(
        &f,
        &ChartData::Xy(xy),
        Marks::Xy {
            pixels: vec![vec![]],
            ticks: vec![],
        },
    );
    assert!(s.contains("no numeric points to plot"));
    assert!(s.contains("skipped 5"));
}

#[test]
fn render_xy_multi_series_adds_a_legend_when_coloured() {
    let series = vec![vec![(0.0, 0.0)], vec![(0.0, 1.0)]];
    let s = xy_text(
        &Frame::new("t".to_string(), 8, 4, true),
        &xy_data(&["a", "b"], &series, XAxis::Numeric, false),
    );
    assert!(s.contains('\x1b')); // coloured glyphs
    assert!(s.contains('●')); // legend markers
}

#[test]
fn spark_levels_follow_the_log_axis_over_real_values() {
    // 1, 10, 100: linearly the first two share the bottom level; on a log
    // axis they are evenly spread over the eight levels.
    let s = SparkData {
        name: "v".to_string(),
        values: nums(&[1.0, 10.0, 100.0]),
        range: None,
    };
    let mut frame = Frame::new("v".to_string(), 8, 4, false);
    let line = |f: &Frame| spark_text(f, &s).lines().nth(1).unwrap().to_string();
    let lin = line(&frame);
    frame.log = true;
    let log = line(&frame);
    // Both axes run 1..100, so the ends match; only the middle moves.
    assert_eq!(
        (lin.chars().next(), lin.chars().last()),
        (Some('▁'), Some('█'))
    );
    assert_eq!(
        (log.chars().next(), log.chars().last()),
        (Some('▁'), Some('█'))
    );
    assert_eq!(lin.chars().nth(1), Some('▂')); // 10 is a tenth of the way up
    assert_eq!(log.chars().nth(1), Some('▅')); // and halfway up in log space
    // The summary reports the real values on either axis.
    assert!(spark_text(&frame, &s).contains("min=1  max=100"));
}

#[test]
fn bar_scales_and_caps_at_width() {
    let g = Glyphs::unicode();
    let bar = |v: f64, max: f64, width: usize| bar_len(length(v, max, width), width, &g);
    assert_eq!(bar(0.0, 10.0, 8), "");
    assert_eq!(bar(10.0, 10.0, 8), "████████"); // full
    assert!(bar(10.0, 10.0, 8).chars().count() == 8);
    // A partial bar gets an eighth-block tail.
    let half = bar(1.0, 2.0, 4);
    assert!(half.starts_with("██"));
}

#[test]
fn a_bar_ends_in_an_eighth_block() {
    let g = Glyphs::unicode();
    assert_eq!(
        bar_len(
            BarLen {
                full: 2,
                eighths: Some(4)
            },
            4,
            &g
        ),
        "██▌"
    );
    // None past the width, and none without the glyphs for it.
    assert_eq!(
        bar_len(
            BarLen {
                full: 9,
                eighths: Some(4)
            },
            4,
            &g
        ),
        "████"
    );
    assert_eq!(
        bar_len(
            BarLen {
                full: 2,
                eighths: Some(4)
            },
            4,
            &Glyphs::ascii()
        ),
        "##"
    );
}

#[test]
fn a_line_joins_its_ends_without_a_gap() {
    let mut b = Braille::new(4, 2);
    assert_eq!((b.pw(), b.ph()), (8, 8));
    b.line(0, 0, 7, 7);
    for i in 0..8usize {
        let mut one = Braille::new(4, 2);
        one.set(i, i);
        let cell = (i / 4) * 4 + i / 2;
        assert!(b.bits[cell] & one.bits[cell] != 0, "pixel {i}");
    }
    // A pixel off the canvas is left out.
    let before = b.bits.clone();
    b.set_signed(-1, 3);
    assert_eq!(b.bits, before);
}

#[test]
fn a_ramp_paints_the_bars() {
    let h = hist(&[1.0, 1.0, 9.0], 2).unwrap();
    let mut frame = Frame::new("v".to_string(), 40, 15, true);
    frame.ramp = Some(parse_ramp("green:red").unwrap());
    let bars: Vec<HistBar> = h
        .counts
        .iter()
        .map(|&c| HistBar {
            edge: "1".to_string(),
            len: BarLen {
                full: c as usize,
                eighths: None,
            },
            mix: Some(Mix {
                lo: 0.0_f64.to_bits(),
                hi: 2.0_f64.to_bits(),
                t: (c as f64 / 2.0).to_bits(),
                between: Rgb(1, 2, 3),
            }),
        })
        .collect();
    let s = render_hist(&frame, &h, &bars);
    assert!(s.contains("\x1b[38;2;205;0;0m██\x1b[0m 2"), "{s}");
    assert!(s.contains("\x1b[38;2;1;2;3m█\x1b[0m 1"), "{s}");
}

#[test]
fn ticks_do_not_run_into_each_other() {
    let tick = |at: usize, label: &str| Tick {
        at,
        label: label.to_string(),
    };
    assert_eq!(
        place_ticks(12, &vec![tick(0, "0"), tick(5, "50"), tick(11, "100")], false),
        "0   50   100"
    );
    assert_eq!(
        x_label_row(
            &XAxis::Ends("first".to_string(), "last".to_string()),
            14,
            vec![]
        ),
        "first     last"
    );
    assert_eq!(tick_count(10, 3), 2);
    assert_eq!(tick_count(100, 3), 7);
}

#[test]
fn series_colours_come_round_again() {
    assert_eq!(series_rgb(0), series_rgb(6));
    assert_ne!(series_rgb(0), series_rgb(1));
}

#[test]
fn a_canvas_leaves_room_for_the_wider_label() {
    assert_eq!(canvas_cells(80, &num(0.0), &num(100.0)), (3, 74));
    assert_eq!(canvas_cells(80, &num(-1000.0), &num(5.0)), (5, 72));
    // A narrow chart keeps a canvas all the same.
    assert_eq!(canvas_cells(5, &num(0.0), &num(100.0)), (3, 4));
}
