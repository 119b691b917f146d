//! Terminal-native charts (the `graph` sink). Draws a [`crate::chart`] model
//! with Unicode block and braille glyphs straight to the terminal — no plotting
//! dependency, matching csvm's point-it-at-a-CSV-and-get-an-answer flow.
//! Histogram, horizontal bar, sparkline, and braille scatter/line
//! (multi-series, coloured).
//!
//! Where a value lies on an axis takes floating-point arithmetic, so positions
//! are handed in: a bar's cells, a level, a pixel, a tick's column.

use vstd::prelude::*;

use crate::canvas::{with_dot, with_line, Braille};
use crate::chart::{
    default_title, extent_of, has_columns, highest, lowest, minmax, point_ys, tail_of, title_of,
    ChartData, Frame, Glyphs, HistData, SparkData,
};
use crate::collect::{
    bar_rows, nums, opt_num, opt_nums, range_view, xy_rows, BarData, Collected, Gathered, XyData,
};
use crate::color::{plain_style, Color, Rgb, Style};
use crate::field::{zero, Num, NumV};
use crate::plan::GraphSpec;
use crate::text::{
    chars_of, decimal, join, joined, push_repeated, repeated, same, show_u64, show_usize, texts,
    trim_end, trimmed_end,
};

verus! {

/// How to label the x-axis of a scatter/line chart.
#[derive(Debug)]
pub enum XAxis {
    /// A numeric x: interpolate ticks over the range and format as numbers.
    Numeric,
    /// A timestamp x (epoch seconds): interpolate ticks and format as dates.
    Time,
    /// A category / row-index x: only the first and last raw cells are known.
    Ends(String, String),
}

/// What an [`XAxis`] is in contracts.
pub enum XAxisV {
    Numeric,
    Time,
    Ends(Seq<char>, Seq<char>),
}

impl View for XAxis {
    type V = XAxisV;

    open spec fn view(&self) -> XAxisV {
        match self {
            XAxis::Numeric => XAxisV::Numeric,
            XAxis::Time => XAxisV::Time,
            XAxis::Ends(a, b) => XAxisV::Ends(a@, b@),
        }
    }
}

/// Where a value lies on a ramp: the bounds, the fraction of the way between
/// them, by their bits, and the colour mixed there.
#[derive(Clone, Copy)]
pub struct Mix {
    pub lo: u64,
    pub hi: u64,
    pub t: u64,
    pub between: Rgb,
}

/// Text painted with the ramp. Terminal colour is opt-in, so this is the text
/// itself unless both a ramp and colour are on; empty text is left alone so no
/// chart grows a pair of escapes around nothing.
pub open spec fn ramped(frame: Frame, mix: Option<Mix>, text: Seq<char>) -> Seq<char> {
    match (frame.ramp, mix) {
        (Some(r), Some(m)) => if frame.color && text.len() > 0 {
            (Style {
                fg: Some(Color::Rgb(r.color_at(m.lo, m.hi, m.t, m.between))),
                ..plain_style()
            }).painted(text)
        } else {
            text
        },
        _ => text,
    }
}

/// Paint `text` with the frame's ramp where the value lies on it — the
/// `-r/--ramp` gradient.
fn paint(frame: &Frame, mix: &Option<Mix>, text: &str) -> (r: String)
    ensures
        r@ == ramped(*frame, *mix, text@),
{
    match (&frame.ramp, mix) {
        (Some(r), Some(m)) => if frame.color && !text.is_empty() {
            r.at(m.lo, m.hi, m.t, m.between).paint(text)
        } else {
            text.to_string()
        },
        _ => text.to_string(),
    }
}

/// `s` behind as many spaces as fill the width.
pub open spec fn right_aligned(s: Seq<char>, width: int) -> Seq<char> {
    repeated(
        ' ',
        if width > s.len() {
            (width - s.len()) as nat
        } else {
            0
        },
    ) + s
}

fn push_right(out: &mut String, s: &str, width: usize)
    ensures
        final(out)@ == old(out)@ + right_aligned(s@, width as int),
{
    let ghost start = out@;
    let n = chars_of(s).len();
    push_repeated(
        out,
        ' ',
        if width > n {
            width - n
        } else {
            0
        },
    );
    out.append(s);
    assert(out@ =~= start + right_aligned(s@, width as int));
}

/// The title, and the label of the value axis under it.
pub open spec fn head_text(title: Seq<char>, ylabel: Option<String>) -> Seq<char> {
    title + "\n"@ + match ylabel {
        Some(y) => y@ + "\n"@,
        None => seq![],
    }
}

/// The label of the x axis behind a gutter, when there is one.
pub open spec fn xlabel_text(xlabel: Option<String>, gutter: int) -> Seq<char> {
    match xlabel {
        Some(x) => repeated(' ', gutter as nat) + "  "@ + x@ + "\n"@,
        None => seq![],
    }
}

fn push_head(out: &mut String, title: &str, ylabel: &Option<String>)
    ensures
        final(out)@ == old(out)@ + head_text(title@, *ylabel),
{
    let ghost start = out@;
    out.append(title);
    out.append("\n");
    match ylabel {
        Some(y) => {
            out.append(y.as_str());
            out.append("\n");
        },
        None => {},
    }
    assert(out@ =~= start + head_text(title@, *ylabel));
}

fn push_xlabel(out: &mut String, xlabel: &Option<String>, gutter: usize)
    ensures
        final(out)@ == old(out)@ + xlabel_text(*xlabel, gutter as int),
{
    let ghost start = out@;
    match xlabel {
        Some(x) => {
            push_repeated(out, ' ', gutter);
            out.append("  ");
            out.append(x.as_str());
            out.append("\n");
        },
        None => {},
    }
    assert(out@ =~= start + xlabel_text(*xlabel, gutter as int));
}

/// The length of the longest text.
pub open spec fn widest(v: Seq<Seq<char>>) -> nat
    decreases v.len(),
{
    if v.len() == 0 {
        0
    } else if widest(v.drop_last()) < v.last().len() {
        v.last().len()
    } else {
        widest(v.drop_last())
    }
}

/// The cells left of a chart's width for its bars, at the least ten.
pub open spec fn bar_room(width: int, label: int, margin: int) -> int {
    if width - label - margin > 10 {
        width - label - margin
    } else {
        10
    }
}

/// The cells left of a chart's width for its bars, at the least ten.
pub fn room(width: usize, label: usize, margin: usize) -> (r: usize)
    ensures
        r == bar_room(width as int, label as int, margin as int),
{
    let left: i128 = width as i128 - label as i128 - margin as i128;
    if left > 10 {
        left as usize
    } else {
        10
    }
}

/// One note in brackets.
pub open spec fn bracketed(notes: Seq<Seq<char>>) -> Seq<Seq<char>> {
    notes.map_values(|n: Seq<char>| "("@ + n + ")"@)
}

/// `TITLE: MESSAGE (note)…` for a chart with nothing to draw.
pub open spec fn empty_text(frame: Frame, message: Seq<char>) -> Seq<char> {
    frame.title@ + ": "@ + message + (if frame.notes@.len() == 0 {
        seq![]
    } else {
        " "@ + joined(bracketed(texts(frame.notes@)), " "@)
    }) + "\n"@
}

/// `TITLE: MESSAGE (note)…` for a chart with nothing to draw — the dropped-row
/// counts still get reported ("strict and loud").
pub fn empty_line(frame: &Frame, message: &str) -> (r: String)
    ensures
        r@ == empty_text(*frame, message@),
{
    let mut s = frame.title.as_str().to_string();
    s.append(": ");
    s.append(message);
    let ghost head = s@;
    if frame.notes.len() > 0 {
        let mut notes: Vec<String> = Vec::new();
        let ghost all = bracketed(texts(frame.notes@));
        let mut i: usize = 0;
        while i < frame.notes.len()
            invariant
                i <= frame.notes.len(),
                all == bracketed(texts(frame.notes@)),
                texts(notes@) == all.take(i as int),
            decreases frame.notes.len() - i,
        {
            let ghost before = texts(notes@);
            let note = crate::text::cat3("(", frame.notes[i].as_str(), ")");
            assert(texts(frame.notes@)[i as int] == frame.notes@[i as int]@);
            notes.push(note);
            assert(texts(notes@) =~= before.push(note@));
            i += 1;
            assert(texts(notes@) =~= all.take(i as int));
        }
        assert(all.take(all.len() as int) =~= all);
        s.append(" ");
        s.append(join(notes.as_slice(), " ").as_str());
        assert(s@ =~= head + (" "@ + joined(all, " "@)));
    } else {
        assert(s@ =~= head + seq![]);
    }
    s.append("\n");
    s
}

/// Whether there is a note that the x axis is evenly spaced.
pub open spec fn even_spacing(notes: Seq<Seq<char>>) -> bool {
    notes.contains("even row spacing"@)
}

/// The notes shown in the summary tail: all but the spacing note, which goes
/// into the title instead.
pub open spec fn tail_without_spacing(notes: Seq<Seq<char>>) -> Seq<char>
    decreases notes.len(),
{
    if notes.len() == 0 {
        seq![]
    } else if notes.last() == "even row spacing"@ {
        tail_without_spacing(notes.drop_last())
    } else {
        tail_without_spacing(notes.drop_last()) + "  ("@ + notes.last() + ")"@
    }
}

/// The notes shown in the summary tail: the spacing note goes into the title
/// instead (see [`render_xy`]), so it is left out here.
fn tail_notes(frame: &Frame) -> (r: (String, bool))
    ensures
        r.0@ == tail_without_spacing(texts(frame.notes@)),
        r.1 == even_spacing(texts(frame.notes@)),
{
    let ghost all = texts(frame.notes@);
    let mut s = String::new();
    let mut even = false;
    let mut i: usize = 0;
    assert(s@ =~= tail_without_spacing(all.take(0)));
    while i < frame.notes.len()
        invariant
            i <= frame.notes.len(),
            all == texts(frame.notes@),
            s@ == tail_without_spacing(all.take(i as int)),
            even == exists|k: int| 0 <= k < i && #[trigger] all[k] == "even row spacing"@,
        decreases frame.notes.len() - i,
    {
        assert(all.take(i + 1).drop_last() =~= all.take(i as int));
        assert(all.take(i + 1).last() == frame.notes@[i as int]@);
        assert(all[i as int] == frame.notes@[i as int]@);
        let note = frame.notes[i].as_str();
        if same(note, "even row spacing") {
            even = true;
        } else {
            s.append("  (");
            s.append(note);
            s.append(")");
        }
        i += 1;
    }
    assert(all.take(all.len() as int) =~= all);
    assert(even == even_spacing(all)) by {
        if even_spacing(all) {
            let k = choose|k: int| 0 <= k < all.len() && all[k] == "even row spacing"@;
            assert(all[k] == "even row spacing"@);
        }
    }
    (s, even)
}

/// How long a bar is: its full cells, and the eighths of one more, from one to
/// eight.
#[derive(Clone, Copy)]
pub struct BarLen {
    pub full: usize,
    pub eighths: Option<usize>,
}

/// A bar in glyphs, no longer than `width`. The fractional tail is drawn when the
/// glyphs have one, so short bars stay distinguishable.
pub open spec fn bar_text(len: BarLen, width: int, g: Glyphs) -> Seq<char> {
    repeated(
        g.full,
        if len.full < width {
            len.full as nat
        } else {
            width as nat
        },
    ) + (match (len.eighths, g.partial) {
        (Some(k), Some(p)) => if len.full < width && 1 <= k <= 8 {
            seq![p@[k - 1]]
        } else {
            seq![]
        },
        _ => seq![],
    })
}

/// A horizontal block bar, drawn with `g`'s glyphs, with a fractional tail (when
/// `g` has one) so short bars stay distinguishable.
pub fn bar_len(len: BarLen, width: usize, g: &Glyphs) -> (r: String)
    ensures
        r@ == bar_text(len, width as int, *g),
{
    let mut s = String::new();
    let n: usize = if len.full < width {
        len.full
    } else {
        width
    };
    push_repeated(&mut s, g.full, n);
    assert(s@ =~= repeated(g.full, n as nat));
    match (len.eighths, g.partial) {
        (Some(k), Some(p)) => {
            if len.full < width && 1 <= k && k <= 8 {
                s.push(p[k - 1]);
            }
        },
        _ => {},
    }
    assert(s@ =~= bar_text(len, width as int, *g));
    s
}

/// One bin of a histogram as it is drawn: the label of its lower edge, its bar,
/// and where its count lies on the ramp.
pub struct HistBar {
    pub edge: String,
    pub len: BarLen,
    pub mix: Option<Mix>,
}

/// The labels of the edges.
pub open spec fn edge_labels(bars: Seq<HistBar>) -> Seq<Seq<char>> {
    bars.map_values(|b: HistBar| b.edge@)
}

/// The width of the axis: that of the longest label.
pub open spec fn edge_width(bars: Seq<HistBar>) -> nat {
    if bars.len() == 0 {
        1
    } else {
        widest(edge_labels(bars))
    }
}

/// The lines of the first `n` bins.
pub open spec fn hist_rows(
    frame: Frame,
    bars: Seq<HistBar>,
    counts: Seq<u64>,
    axis_w: int,
    n: int,
) -> Seq<char>
    decreases n,
{
    if n <= 0 {
        seq![]
    } else {
        let b = bars[n - 1];
        hist_rows(frame, bars, counts, axis_w, n - 1) + right_aligned(b.edge@, axis_w) + " "@
            + seq![frame.glyphs.axis_v] + ramped(
            frame,
            b.mix,
            bar_text(b.len, bar_room(frame.width as int, axis_w, 12), frame.glyphs),
        ) + " "@ + decimal(counts[n - 1] as nat) + "\n"@
    }
}

/// A histogram: a right-aligned bin-edge axis, a block bar per bin, and the
/// count, followed by a summary line.
pub open spec fn hist_text(frame: Frame, h: HistData, bars: Seq<HistBar>) -> Seq<char> {
    let axis_w = edge_width(bars) as int;
    head_text(frame.title@, frame.ylabel) + hist_rows(
        frame,
        bars,
        h.counts@,
        axis_w,
        bars.len() as int,
    ) + xlabel_text(frame.xlabel, axis_w) + "n="@ + decimal(h.total as nat) + "  min="@ + h.lo.text@
        + "  max="@ + h.hi.text@ + "  bins="@ + decimal(h.counts@.len()) + tail_of(
        texts(frame.notes@),
    ) + "\n"@
}

fn widest_edge(bars: &Vec<HistBar>) -> (r: usize)
    ensures
        r == widest(edge_labels(bars@)),
{
    let ghost all = edge_labels(bars@);
    let mut w: usize = 0;
    let mut i: usize = 0;
    while i < bars.len()
        invariant
            i <= bars.len(),
            all == edge_labels(bars@),
            w == widest(all.take(i as int)),
        decreases bars.len() - i,
    {
        assert(all.take(i + 1).drop_last() =~= all.take(i as int));
        assert(all.take(i + 1).last() == bars@[i as int].edge@);
        let n = chars_of(bars[i].edge.as_str()).len();
        if w < n {
            w = n;
        }
        i += 1;
    }
    assert(all.take(all.len() as int) =~= all);
    w
}

/// Draw a histogram: a right-aligned bin-edge axis, a block bar per bin, and the
/// count, followed by a summary line. The bars fill what the axis leaves of
/// `frame.width`; `bars` has what each bin draws.
pub fn render_hist(frame: &Frame, h: &HistData, bars: &Vec<HistBar>) -> (r: String)
    requires
        bars@.len() == h.counts@.len(),
    ensures
        r@ == hist_text(*frame, *h, bars@),
{
    let axis_w: usize = if bars.len() == 0 {
        1
    } else {
        widest_edge(bars)
    };
    let width = room(frame.width, axis_w, 12);
    let mut out = String::new();
    push_head(&mut out, frame.title.as_str(), &frame.ylabel);
    let ghost head = head_text(frame.title@, frame.ylabel);
    assert(out@ =~= head + hist_rows(*frame, bars@, h.counts@, axis_w as int, 0));
    let mut i: usize = 0;
    while i < bars.len()
        invariant
            i <= bars.len(),
            bars@.len() == h.counts@.len(),
            width == bar_room(frame.width as int, axis_w as int, 12),
            out@ == head + hist_rows(*frame, bars@, h.counts@, axis_w as int, i as int),
        decreases bars.len() - i,
    {
        let b = &bars[i];
        let bar = bar_len(b.len, width, &frame.glyphs);
        push_right(&mut out, b.edge.as_str(), axis_w);
        out.append(" ");
        out.push(frame.glyphs.axis_v);
        out.append(paint(frame, &b.mix, bar.as_str()).as_str());
        out.append(" ");
        out.append(show_u64(h.counts[i]).as_str());
        out.append("\n");
        i += 1;
        assert(out@ =~= head + hist_rows(*frame, bars@, h.counts@, axis_w as int, i as int));
    }
    push_xlabel(&mut out, &frame.xlabel, axis_w);
    out.append("n=");
    out.append(show_u64(h.total).as_str());
    out.append("  min=");
    out.append(h.lo.text.as_str());
    out.append("  max=");
    out.append(h.hi.text.as_str());
    out.append("  bins=");
    out.append(show_usize(h.counts.len()).as_str());
    out.append(frame.notes_tail().as_str());
    out.append("\n");
    out
}

/// The rows that a bar is drawn for, by label and value: only the first value
/// series is drawn, where it has a value.
pub open spec fn drawn_bars(rows: Seq<(Seq<char>, Seq<Option<NumV>>)>) -> Seq<(Seq<char>, NumV)>
    decreases rows.len(),
{
    if rows.len() == 0 {
        seq![]
    } else {
        let before = drawn_bars(rows.drop_last());
        let values = rows.last().1;
        if values.len() > 0 && values[0] is Some {
            before.push((rows.last().0, values[0]->0))
        } else {
            before
        }
    }
}

/// Labelled values in contracts.
pub open spec fn labelled_values(v: Seq<(String, Num)>) -> Seq<(Seq<char>, NumV)> {
    v.map_values(|r: (String, Num)| (r.0@, r.1@))
}

/// The rows that a bar is drawn for, by label and value: only the first value
/// series is drawn; `graph bar` takes one value column.
pub fn bars_to_draw(b: &BarData) -> (r: Vec<(String, Num)>)
    ensures
        labelled_values(r@) == drawn_bars(bar_rows(b.rows@)),
{
    let ghost all = bar_rows(b.rows@);
    let mut r: Vec<(String, Num)> = Vec::new();
    let mut i: usize = 0;
    assert(labelled_values(r@) =~= drawn_bars(all.take(0)));
    while i < b.rows.len()
        invariant
            i <= b.rows.len(),
            all == bar_rows(b.rows@),
            labelled_values(r@) == drawn_bars(all.take(i as int)),
        decreases b.rows.len() - i,
    {
        let row = &b.rows[i];
        assert(all.take(i + 1).drop_last() =~= all.take(i as int));
        assert(all.take(i + 1).last() == (row.0@, opt_nums(row.1@)));
        if row.1.len() > 0 {
            assert(opt_nums(row.1@)[0] == opt_num(row.1@[0]));
            match &row.1[0] {
                Some(v) => {
                    let ghost before = labelled_values(r@);
                    r.push((row.0.as_str().to_string(), v.clone()));
                    assert(labelled_values(r@) =~= before.push((row.0@, v@)));
                },
                None => {},
            }
        }
        i += 1;
    }
    assert(all.take(all.len() as int) =~= all);
    r
}

/// Where a bar ends on the axis, when the axis has a place for it, and where its
/// value lies on the ramp.
#[derive(Clone, Copy)]
pub struct BarPlace {
    pub at: Option<usize>,
    pub mix: Option<Mix>,
}

/// A bar between the baseline and where it ends, in a field of `w` cells.
pub open spec fn bar_field(full: char, zero: int, at: Option<usize>, w: int) -> Seq<char> {
    Seq::new(
        w as nat,
        |k: int|
            match at {
                Some(p) => if (zero <= k < p) || (p <= k < zero) {
                    full
                } else {
                    ' '
                },
                None => ' ',
            },
    )
}

/// The lines of the first `n` bars.
pub open spec fn bar_lines(
    frame: Frame,
    rows: Seq<(Seq<char>, NumV)>,
    places: Seq<BarPlace>,
    zero: int,
    label_w: int,
    n: int,
) -> Seq<char>
    decreases n,
{
    if n <= 0 {
        seq![]
    } else {
        let (label, value) = rows[n - 1];
        let place = places[n - 1];
        bar_lines(frame, rows, places, zero, label_w, n - 1) + right_aligned(label, label_w) + " "@
            + seq![frame.glyphs.axis_v] + ramped(
            frame,
            if place.at is Some {
                place.mix
            } else {
                None
            },
            bar_field(
                frame.glyphs.full,
                zero,
                place.at,
                bar_room(frame.width as int, label_w, 14),
            ),
        ) + " "@ + value.text + "\n"@
    }
}

/// The labels of bars.
pub open spec fn bar_labels(rows: Seq<(Seq<char>, NumV)>) -> Seq<Seq<char>> {
    rows.map_values(|r: (Seq<char>, NumV)| r.0)
}

/// A bar chart: one labelled horizontal bar per row, anchored at a baseline.
pub open spec fn bars_text(
    frame: Frame,
    rows: Seq<(Seq<char>, NumV)>,
    places: Seq<BarPlace>,
    zero: int,
) -> Seq<char> {
    let label_w = widest(bar_labels(rows)) as int;
    head_text(frame.title@, frame.ylabel) + bar_lines(
        frame,
        rows,
        places,
        zero,
        label_w,
        rows.len() as int,
    ) + xlabel_text(frame.xlabel, label_w) + "bars="@ + decimal(rows.len()) + tail_of(
        texts(frame.notes@),
    ) + "\n"@
}

fn draw_field(full: char, zero: usize, at: Option<usize>, w: usize) -> (r: String)
    ensures
        r@ == bar_field(full, zero as int, at, w as int),
{
    let mut s = String::new();
    let ghost all = bar_field(full, zero as int, at, w as int);
    let mut k: usize = 0;
    while k < w
        invariant
            k <= w,
            all == bar_field(full, zero as int, at, w as int),
            s@ == all.take(k as int),
        decreases w - k,
    {
        let lit = match at {
            Some(p) => (zero <= k && k < p) || (p <= k && k < zero),
            None => false,
        };
        let ghost before = s@;
        s.push(
            if lit {
                full
            } else {
                ' '
            },
        );
        k += 1;
        assert(s@ =~= all.take(k as int));
    }
    assert(all.take(all.len() as int) =~= all);
    s
}

/// The width of the longest label.
pub fn label_width(rows: &Vec<(String, Num)>) -> (r: usize)
    ensures
        r == widest(bar_labels(labelled_values(rows@))),
{
    let ghost all = bar_labels(labelled_values(rows@));
    let mut w: usize = 0;
    let mut i: usize = 0;
    while i < rows.len()
        invariant
            i <= rows.len(),
            all == bar_labels(labelled_values(rows@)),
            w == widest(all.take(i as int)),
        decreases rows.len() - i,
    {
        assert(all.take(i + 1).drop_last() =~= all.take(i as int));
        assert(all.take(i + 1).last() == rows@[i as int].0@);
        let n = chars_of(rows[i].0.as_str()).len();
        if w < n {
            w = n;
        }
        i += 1;
    }
    assert(all.take(all.len() as int) =~= all);
    w
}

/// Draw one labelled horizontal bar per row, anchored at a baseline so negative
/// values extend left (a diverging bar chart). Labels are right-aligned to a
/// common width. Best used after group-by, where there are few rows. `places` has
/// where each bar ends, and `zero` is the baseline: the drawn length is clamped to
/// the axis; the printed value is real.
pub fn render_bars(frame: &Frame, b: &BarData, places: &Vec<BarPlace>, zero: usize) -> (r: String)
    requires
        places@.len() == drawn_bars(bar_rows(b.rows@)).len(),
    ensures
        r@ == bars_text(*frame, drawn_bars(bar_rows(b.rows@)), places@, zero as int),
{
    let rows = bars_to_draw(b);
    let ghost all = labelled_values(rows@);
    assert(all.len() == rows@.len());
    let label_w = label_width(&rows);
    let w = room(frame.width, label_w, 14);
    let mut out = String::new();
    push_head(&mut out, frame.title.as_str(), &frame.ylabel);
    let ghost head = head_text(frame.title@, frame.ylabel);
    assert(out@ =~= head + bar_lines(*frame, all, places@, zero as int, label_w as int, 0));
    let mut i: usize = 0;
    while i < rows.len()
        invariant
            i <= rows.len(),
            all == labelled_values(rows@),
            places@.len() == rows@.len(),
            w == bar_room(frame.width as int, label_w as int, 14),
            out@ == head + bar_lines(
                *frame,
                all,
                places@,
                zero as int,
                label_w as int,
                i as int,
            ),
        decreases rows.len() - i,
    {
        let row = &rows[i];
        assert(all[i as int] == (row.0@, row.1@));
        let place = places[i];
        let drawn = draw_field(frame.glyphs.full, zero, place.at, w);
        let mix: Option<Mix> = match place.at {
            Some(_) => place.mix,
            None => None,
        };
        push_right(&mut out, row.0.as_str(), label_w);
        out.append(" ");
        out.push(frame.glyphs.axis_v);
        out.append(paint(frame, &mix, drawn.as_str()).as_str());
        out.append(" ");
        out.append(row.1.text.as_str());
        out.append("\n");
        i += 1;
        assert(out@ =~= head + bar_lines(
            *frame,
            all,
            places@,
            zero as int,
            label_w as int,
            i as int,
        ));
    }
    push_xlabel(&mut out, &frame.xlabel, label_w);
    out.append("bars=");
    out.append(show_usize(rows.len()).as_str());
    out.append(frame.notes_tail().as_str());
    out.append("\n");
    out
}

/// One cell of a sparkline: the level it is drawn at, the lowest first, and where
/// its value lies on the ramp.
#[derive(Clone, Copy)]
pub struct SparkCell {
    pub level: usize,
    pub mix: Option<Mix>,
}

/// The first `n` cells of a sparkline.
pub open spec fn spark_cells(frame: Frame, cells: Seq<SparkCell>, n: int) -> Seq<char>
    decreases n,
{
    if n <= 0 {
        seq![]
    } else {
        let level = if cells[n - 1].level < 7 {
            cells[n - 1].level as int
        } else {
            7
        };
        spark_cells(frame, cells, n - 1) + ramped(
            frame,
            cells[n - 1].mix,
            seq![frame.glyphs.levels@[level]],
        )
    }
}

/// The least and the greatest value, or zero where there are none.
pub open spec fn value_ends(values: Seq<NumV>) -> (NumV, NumV) {
    if values.len() == 0 {
        (zero(), zero())
    } else {
        (lowest(values), highest(values))
    }
}

/// A one-line sparkline, with a title and a min/max summary.
pub open spec fn spark_text(frame: Frame, s: SparkData, cells: Seq<SparkCell>) -> Seq<char> {
    let (lo, hi) = value_ends(nums(s.values@));
    head_text(frame.title@, frame.ylabel) + spark_cells(frame, cells, cells.len() as int) + "\n"@
        + (match frame.xlabel {
        Some(x) => "  "@ + x@ + "\n"@,
        None => seq![],
    }) + "min="@ + lo.text + "  max="@ + hi.text + tail_of(texts(frame.notes@)) + "\n"@
}

/// Draw a one-line sparkline (the values are already bucketed to the chart
/// width), with a title and a min/max summary. Each cell is an eighth-height block
/// at the level that its value scales to; the summary reports the data's own min
/// and max.
pub fn render_spark(frame: &Frame, s: &SparkData, cells: &Vec<SparkCell>) -> (r: String)
    requires
        cells@.len() == s.values@.len(),
    ensures
        r@ == spark_text(*frame, *s, cells@),
{
    let mut out = String::new();
    push_head(&mut out, frame.title.as_str(), &frame.ylabel);
    let ghost head = head_text(frame.title@, frame.ylabel);
    assert(out@ =~= head + spark_cells(*frame, cells@, 0));
    let mut i: usize = 0;
    while i < cells.len()
        invariant
            i <= cells.len(),
            out@ == head + spark_cells(*frame, cells@, i as int),
        decreases cells.len() - i,
    {
        let level: usize = if cells[i].level < 7 {
            cells[i].level
        } else {
            7
        };
        let mut cell = String::new();
        cell.push(frame.glyphs.levels[level]);
        assert(cell@ =~= seq![frame.glyphs.levels@[level as int]]);
        out.append(paint(frame, &cells[i].mix, cell.as_str()).as_str());
        i += 1;
        assert(out@ =~= head + spark_cells(*frame, cells@, i as int));
    }
    out.append("\n");
    let ghost body = out@;
    match &frame.xlabel {
        Some(x) => {
            out.append("  ");
            out.append(x.as_str());
            out.append("\n");
            assert(out@ =~= body + ("  "@ + x@ + "\n"@));
        },
        None => {
            assert(out@ =~= body + seq![]);
        },
    }
    out.append("min=");
    match minmax(s.values.as_slice()) {
        Some((lo, hi)) => {
            out.append(lo.text.as_str());
            out.append("  max=");
            out.append(hi.text.as_str());
        },
        None => {
            out.append("0");
            out.append("  max=");
            out.append("0");
        },
    }
    out.append(frame.notes_tail().as_str());
    out.append("\n");
    out
}

/// How many ticks fit across `width` columns given a label of `label_w` chars
/// (with a small gap), clamped to a sensible 2..=7.
pub fn tick_count(width: usize, label_w: usize) -> (r: usize)
    ensures
        r == crate::chart::held(width as int / (label_w as int + 3), 2, 7),
{
    let n: u128 = width as u128 / (label_w as u128 + 3);
    if n < 2 {
        2
    } else if n > 7 {
        7
    } else {
        n as usize
    }
}

/// A tick's label, and the column of the axis that it is centred on.
pub struct Tick {
    pub at: usize,
    pub label: String,
}

/// Where the label of tick `i` of `n` starts, and whether it is pinned to an end
/// of the axis. With `force_ends`, the first and the last label are.
pub open spec fn tick_start(width: int, ticks: Seq<Tick>, force_ends: bool, i: int) -> (int, bool) {
    let lw = ticks[i].label@.len();
    let left = ticks[i].at - lw / 2;
    let most = if width > lw {
        width - lw
    } else {
        0
    };
    if force_ends && i == 0 {
        (0, true)
    } else if force_ends && i == ticks.len() - 1 {
        (most, true)
    } else if left < 0 {
        (0, false)
    } else if left > most {
        (most, false)
    } else {
        (left, false)
    }
}

/// A row of cells with a label written into it, as far as there is room.
pub open spec fn written(row: Seq<char>, label: Seq<char>, at: int) -> Seq<char> {
    Seq::new(
        row.len(),
        |k: int|
            if at <= k < at + label.len() {
                label[k - at]
            } else {
                row[k]
            },
    )
}

/// The row with the first `n` labels, and the first cell that is free behind them.
/// A label that would collide with the one before it is dropped, and with
/// `force_ends` one that would collide with the last.
pub open spec fn ticked(width: int, ticks: Seq<Tick>, force_ends: bool, n: int) -> (Seq<char>, int)
    decreases n,
{
    if n <= 0 {
        (repeated(' ', width as nat), 0)
    } else {
        let (row, free) = ticked(width, ticks, force_ends, n - 1);
        let (start, pinned) = tick_start(width, ticks, force_ends, n - 1);
        let label = ticks[n - 1].label@;
        let last_w = ticks.last().label@.len();
        let last_start = if width > last_w {
            width - last_w
        } else {
            0
        };
        if !pinned && (start < free || (force_ends && start + label.len() + 1 > last_start)) {
            (row, free)
        } else {
            (written(row, label, start), start + label.len() + 1)
        }
    }
}

fn tick_place(width: usize, ticks: &Vec<Tick>, force_ends: bool, i: usize, lw: usize) -> (r: (
    usize,
    bool,
))
    requires
        i < ticks@.len(),
        lw == ticks@[i as int].label@.len(),
    ensures
        (r.0 as int, r.1) == tick_start(width as int, ticks@, force_ends, i as int),
        r.0 <= width || r.0 == 0,
{
    let most: usize = if width > lw {
        width - lw
    } else {
        0
    };
    if force_ends && i == 0 {
        return (0, true);
    }
    if force_ends && i == ticks.len() - 1 {
        return (most, true);
    }
    let at = ticks[i].at;
    if at < lw / 2 {
        (0, false)
    } else if at - lw / 2 > most {
        (most, false)
    } else {
        (at - lw / 2, false)
    }
}

fn write_label(row: &mut Vec<char>, label: &Vec<char>, at: usize)
    ensures
        final(row)@ == written(old(row)@, label@, at as int),
{
    let ghost start = row@;
    let mut j: usize = 0;
    assert(row@ =~= written(start, label@.take(0), at as int));
    while j < label.len() && at < row.len() && j < row.len() - at
        invariant
            j <= label.len(),
            row@.len() == start.len(),
            at < row@.len() ==> j <= row@.len() - at,
            row@ == written(start, label@.take(j as int), at as int),
        decreases label.len() - j,
    {
        row.set(at + j, label[j]);
        j += 1;
        assert(row@ =~= written(start, label@.take(j as int), at as int));
    }
    assert(row@ =~= written(start, label@, at as int));
}

/// Lay tick labels into a `width`-wide row, each centred on its column; a label
/// that would collide with the previous one is dropped. With `force_ends`, the
/// first/last labels are pinned to the left/right edges (for evenly-spaced ticks
/// whose ends are the data range) and middles also stay clear of the reserved
/// last label; without it (nice ticks, whose ends aren't the range) every label
/// sits at its true position.
pub fn place_ticks(width: usize, ticks: &Vec<Tick>, force_ends: bool) -> (r: String)
    ensures
        r@ == trimmed_end(ticked(width as int, ticks@, force_ends, ticks@.len() as int).0),
{
    let mut row: Vec<char> = Vec::new();
    while row.len() < width
        invariant
            row@.len() <= width,
            row@ == repeated(' ', row@.len()),
        decreases width - row.len(),
    {
        row.push(' ');
        assert(row@ =~= repeated(' ', row@.len()));
    }
    let last_w: usize = if ticks.len() > 0 {
        chars_of(ticks[ticks.len() - 1].label.as_str()).len()
    } else {
        0
    };
    let last_start: usize = if width > last_w {
        width - last_w
    } else {
        0
    };
    let mut free: u128 = 0;
    let mut i: usize = 0;
    while i < ticks.len()
        invariant
            i <= ticks.len(),
            ticks@.len() > 0 ==> last_w == ticks@.last().label@.len(),
            last_start == (if width > last_w {
                width - last_w
            } else {
                0
            }),
            row@.len() == width,
            (row@, free as int) == ticked(width as int, ticks@, force_ends, i as int),
        decreases ticks.len() - i,
    {
        let label = chars_of(ticks[i].label.as_str());
        let lw = label.len();
        let (start, pinned) = tick_place(width, ticks, force_ends, i, lw);
        let end: u128 = start as u128 + lw as u128 + 1;
        if !pinned && ((start as u128) < free || (force_ends && end > last_start as u128)) {
        } else {
            write_label(&mut row, &label, start);
            free = end;
        }
        i += 1;
    }
    let s = crate::text::string_of(row.as_slice());
    trim_end(s.as_str())
}

/// A representative axis label width in chars, for choosing how many ticks fit.
pub fn axis_label_width(xaxis: &XAxis, xlo: &Num, xhi: &Num, same_day: bool) -> (r: usize)
    ensures
        r == (match xaxis@ {
            XAxisV::Ends(a, b) => if a.len() >= b.len() {
                a.len() as int
            } else {
                b.len() as int
            },
            XAxisV::Numeric => if xlo.text@.len() >= xhi.text@.len() {
                xlo.text@.len() as int
            } else {
                xhi.text@.len() as int
            },
            XAxisV::Time => if same_day {
                8
            } else {
                19
            },
        }),
{
    match xaxis {
        XAxis::Ends(a, b) => {
            let (m, n) = (chars_of(a.as_str()).len(), chars_of(b.as_str()).len());
            if m >= n {
                m
            } else {
                n
            }
        },
        XAxis::Numeric => {
            let (m, n) = (chars_of(xlo.text.as_str()).len(), chars_of(xhi.text.as_str()).len());
            if m >= n {
                m
            } else {
                n
            }
        },
        XAxis::Time => if same_day {
            8
        } else {
            19
        },
    }
}

/// The ticks of an axis: the two end cells of a category axis, else those that
/// were worked out for it.
pub open spec fn ticks_are(xaxis: XAxisV, width: int, worked: Seq<Tick>, ticks: Seq<Tick>) -> bool {
    match xaxis {
        XAxisV::Ends(a, b) => {
            &&& ticks.len() == 2
            &&& ticks[0].at == 0 && ticks[0].label@ == a
            &&& ticks[1].at == width - 1 && ticks[1].label@ == b
        },
        _ => ticks == worked,
    }
}

/// Labelled axis ticks: those that were worked out (round 1/2/5×10ⁿ numbers, or
/// interpolated timestamps), or the two end cells (category).
fn axis_ticks(xaxis: &XAxis, width: usize, worked: Vec<Tick>) -> (r: Vec<Tick>)
    requires
        width > 0,
    ensures
        ticks_are(xaxis@, width as int, worked@, r@),
{
    match xaxis {
        XAxis::Ends(a, b) => {
            let mut r: Vec<Tick> = Vec::new();
            r.push(Tick { at: 0, label: a.as_str().to_string() });
            r.push(Tick { at: width - 1, label: b.as_str().to_string() });
            r
        },
        _ => worked,
    }
}

/// The labels of the first two ticks of a category axis, in a row.
pub open spec fn ends_row(width: int, a: Seq<char>, b: Seq<char>) -> Seq<char> {
    let last = if width > b.len() {
        width - b.len()
    } else {
        0
    };
    trimmed_end(written(written(repeated(' ', width as nat), a, 0), b, last))
}

/// The x-axis label row: a category axis is labelled at its ends; the ticks of a
/// numeric one sit at their true positions; the ends of a time axis are pinned.
pub open spec fn x_labels(xaxis: XAxisV, width: int, worked: Seq<Tick>) -> Seq<char> {
    match xaxis {
        XAxisV::Ends(a, b) => ends_row(width, a, b),
        XAxisV::Numeric => trimmed_end(ticked(width, worked, false, worked.len() as int).0),
        XAxisV::Time => trimmed_end(ticked(width, worked, true, worked.len() as int).0),
    }
}

/// Build the x-axis label row (without the gutter prefix) for a `width`-wide
/// canvas.
pub fn x_label_row(xaxis: &XAxis, width: usize, worked: Vec<Tick>) -> (r: String)
    requires
        width > 0,
    ensures
        r@ == x_labels(xaxis@, width as int, worked@),
{
    // Numeric (nice) ticks sit at their true positions; time/category ends pin.
    let force_ends = match xaxis {
        XAxis::Numeric => false,
        _ => true,
    };
    let ticks = axis_ticks(xaxis, width, worked);
    proof {
        if let XAxisV::Ends(a, b) = xaxis@ {
            reveal_with_fuel(ticked, 3);
            let w = width as int;
            assert(ticked(w, ticks@, true, 1).0 == written(repeated(' ', width as nat), a, 0));
        }
    }
    place_ticks(width, &ticks, force_ends)
}

/// The series colour for index `i` (cycled): cyan, orange, green, purple, yellow,
/// red.
pub open spec fn series_color(i: int) -> Rgb {
    if i % 6 == 0 {
        Rgb(0x4f, 0xc3, 0xf7)
    } else if i % 6 == 1 {
        Rgb(0xff, 0x8a, 0x65)
    } else if i % 6 == 2 {
        Rgb(0x81, 0xc7, 0x84)
    } else if i % 6 == 3 {
        Rgb(0xba, 0x68, 0xc8)
    } else if i % 6 == 4 {
        Rgb(0xff, 0xd5, 0x4f)
    } else {
        Rgb(0xe5, 0x73, 0x73)
    }
}

/// The series colour for index `i` (cycled): distinct foreground colours for
/// multi-series charts.
pub fn series_rgb(i: usize) -> (r: Rgb)
    ensures
        r == series_color(i as int),
{
    match i % 6 {
        0 => Rgb(0x4f, 0xc3, 0xf7),
        1 => Rgb(0xff, 0x8a, 0x65),
        2 => Rgb(0x81, 0xc7, 0x84),
        3 => Rgb(0xba, 0x68, 0xc8),
        4 => Rgb(0xff, 0xd5, 0x4f),
        _ => Rgb(0xe5, 0x73, 0x73),
    }
}

/// Text in a series' colour.
pub open spec fn series_painted(i: int, text: Seq<char>) -> Seq<char> {
    (Style { fg: Some(Color::Rgb(series_color(i))), ..plain_style() }).painted(text)
}

fn paint_series(i: usize, text: &str) -> (r: String)
    ensures
        r@ == series_painted(i as int, text@),
{
    let style = Style { fg: Some(Color::Rgb(series_rgb(i))), ..Style::default() };
    style.paint(text)
}

/// The cells of an empty canvas.
pub open spec fn blank_cells(w: int, h: int) -> Seq<u8> {
    Seq::new((w * h) as nat, |i: int| 0u8)
}

/// The cells with the first `n` points of a series lit.
pub open spec fn scattered(points: Seq<(i64, i64)>, w: int, h: int, n: int) -> Seq<u8>
    decreases n,
{
    if n <= 0 {
        blank_cells(w, h)
    } else {
        with_dot(
            scattered(points, w, h, n - 1),
            w,
            h,
            points[n - 1].0 as int,
            points[n - 1].1 as int,
        )
    }
}

/// The cells with the first `n` points of a series joined.
pub open spec fn connected(points: Seq<(i64, i64)>, w: int, h: int, n: int) -> Seq<u8>
    decreases n,
{
    if n <= 1 {
        blank_cells(w, h)
    } else {
        let (p, q) = (points[n - 2], points[n - 1]);
        with_line(
            connected(points, w, h, n - 1),
            w,
            h,
            p.0 as int,
            p.1 as int,
            q.0 as int,
            q.1 as int,
        )
    }
}

/// The cells of a series: its points lit, or joined when there are two or more.
pub open spec fn series_cells(points: Seq<(i64, i64)>, connect: bool, w: int, h: int) -> Seq<u8> {
    if connect && points.len() != 1 {
        connected(points, w, h, points.len() as int)
    } else {
        scattered(points, w, h, points.len() as int)
    }
}

/// Whether a canvas of that many cells can be held and its pixels counted.
pub open spec fn canvas_fits(w: int, h: int) -> bool {
    w * h <= usize::MAX && 2 * w <= usize::MAX && 4 * h <= usize::MAX
}

fn draw_series(points: &Vec<(i64, i64)>, connect: bool, w: usize, h: usize) -> (r: Braille)
    requires
        canvas_fits(w as int, h as int),
    ensures
        r.wf(),
        r.w == w,
        r.h == h,
        r.bits@ == series_cells(points@, connect, w as int, h as int),
{
    let mut b = Braille::new(w, h);
    if connect && points.len() != 1 {
        let mut i: usize = 1;
        assert(b.bits@ == connected(points@, w as int, h as int, 0));
        while i < points.len()
            invariant
                1 <= i,
                b.wf(),
                b.w == w,
                b.h == h,
                points@.len() > 0 ==> i <= points@.len(),
                b.bits@ == connected(
                    points@,
                    w as int,
                    h as int,
                    if points@.len() == 0 {
                        0
                    } else {
                        i as int
                    },
                ),
            decreases points.len() - i,
        {
            let (x0, y0) = points[i - 1];
            let (x1, y1) = points[i];
            b.line(x0, y0, x1, y1);
            i += 1;
        }
    } else {
        let mut i: usize = 0;
        while i < points.len()
            invariant
                i <= points.len(),
                b.wf(),
                b.w == w,
                b.h == h,
                b.bits@ == scattered(points@, w as int, h as int, i as int),
            decreases points.len() - i,
        {
            let (x, y) = points[i];
            b.set_signed(x, y);
            i += 1;
        }
    }
    b
}

/// The cells of each series.
pub open spec fn canvases(
    pixels: Seq<Vec<(i64, i64)>>,
    connect: bool,
    w: int,
    h: int,
) -> Seq<Seq<u8>> {
    pixels.map_values(|p: Vec<(i64, i64)>| series_cells(p@, connect, w, h))
}

/// What a cell shows: the first series from `s` on that has a dot in it. On a
/// shared cell the first series wins the glyph.
pub open spec fn cell_text(
    frame: Frame,
    layers: Seq<Seq<u8>>,
    at: int,
    painted: bool,
    s: int,
) -> Seq<char>
    decreases layers.len() - s,
{
    if s >= layers.len() {
        " "@
    } else if layers[s][at] != 0 {
        let glyph = seq![crate::chart::dots_char(frame.glyphs.dots, layers[s][at])];
        if painted {
            series_painted(s, glyph)
        } else {
            glyph
        }
    } else {
        cell_text(frame, layers, at, painted, s + 1)
    }
}

/// The first `n` cells of a canvas row.
pub open spec fn row_cells(
    frame: Frame,
    layers: Seq<Seq<u8>>,
    w: int,
    cy: int,
    painted: bool,
    n: int,
) -> Seq<char>
    decreases n,
{
    if n <= 0 {
        seq![]
    } else {
        row_cells(frame, layers, w, cy, painted, n - 1) + cell_text(
            frame,
            layers,
            cy * w + n - 1,
            painted,
            0,
        )
    }
}

/// Canvas row `cy` behind its gutter: the high end of the axis is on the first row,
/// the low end on the last.
pub open spec fn canvas_line(
    frame: Frame,
    layers: Seq<Seq<u8>>,
    dims: (int, int, int),
    ends: (Seq<char>, Seq<char>),
    painted: bool,
    cy: int,
) -> Seq<char> {
    let (w, h, gutter) = dims;
    let label = if cy == 0 {
        ends.1
    } else if cy == h - 1 {
        ends.0
    } else {
        ""@
    };
    right_aligned(label, gutter) + " "@ + seq![frame.glyphs.axis_tick] + row_cells(
        frame,
        layers,
        w,
        cy,
        painted,
        w,
    ) + "\n"@
}

/// The first `n` canvas rows.
pub open spec fn canvas_rows(
    frame: Frame,
    layers: Seq<Seq<u8>>,
    dims: (int, int, int),
    ends: (Seq<char>, Seq<char>),
    painted: bool,
    n: int,
) -> Seq<char>
    decreases n,
{
    if n <= 0 {
        seq![]
    } else {
        canvas_rows(frame, layers, dims, ends, painted, n - 1) + canvas_line(
            frame,
            layers,
            dims,
            ends,
            painted,
            n - 1,
        )
    }
}

fn push_cell(out: &mut String, frame: &Frame, layers: &Vec<Braille>, at: usize, painted: bool)
    requires
        forall|k: int| 0 <= k < layers@.len() ==> at < (#[trigger] layers@[k]).bits@.len(),
    ensures
        final(out)@ == old(out)@ + cell_text(
            *frame,
            layers@.map_values(|b: Braille| b.bits@),
            at as int,
            painted,
            0,
        ),
{
    let ghost all = layers@.map_values(|b: Braille| b.bits@);
    let ghost start = out@;
    let mut s: usize = 0;
    while s < layers.len()
        invariant
            s <= layers.len(),
            all == layers@.map_values(|b: Braille| b.bits@),
            out@ == start,
            start == old(out)@,
            forall|k: int| 0 <= k < layers@.len() ==> at < (#[trigger] layers@[k]).bits@.len(),
            cell_text(*frame, all, at as int, painted, 0) == cell_text(
                *frame,
                all,
                at as int,
                painted,
                s as int,
            ),
        decreases layers.len() - s,
    {
        assert(all[s as int] == layers@[s as int].bits@);
        assert(at < layers@[s as int].bits@.len());
        let bits: u8 = layers[s].bits[at];
        if bits != 0 {
            let mut glyph = String::new();
            glyph.push(frame.glyphs.braille(bits));
            assert(glyph@ =~= seq![crate::chart::dots_char(frame.glyphs.dots, bits)]);
            if painted {
                out.append(paint_series(s, glyph.as_str()).as_str());
            } else {
                out.append(glyph.as_str());
            }
            return;
        }
        s += 1;
    }
    out.append(" ");
}

fn push_canvas_row(
    out: &mut String,
    frame: &Frame,
    layers: &Vec<Braille>,
    w: usize,
    h: usize,
    cy: usize,
    painted: bool,
)
    requires
        cy < h,
        canvas_fits(w as int, h as int),
        forall|k: int| 0 <= k < layers@.len() ==> (#[trigger] layers@[k]).bits@.len() == w * h,
    ensures
        final(out)@ == old(out)@ + row_cells(
            *frame,
            layers@.map_values(|b: Braille| b.bits@),
            w as int,
            cy as int,
            painted,
            w as int,
        ),
{
    let ghost all = layers@.map_values(|b: Braille| b.bits@);
    let ghost start = out@;
    proof {
        assert(cy * w + w <= w * h) by (nonlinear_arith)
            requires
                cy + 1 <= h,
                0 <= w,
        ;
        assert(cy * w >= 0) by (nonlinear_arith)
            requires
                0 <= cy,
                0 <= w,
        ;
    }
    let base: usize = cy * w;
    let mut cx: usize = 0;
    assert(out@ =~= start + row_cells(*frame, all, w as int, cy as int, painted, 0));
    while cx < w
        invariant
            cx <= w,
            all == layers@.map_values(|b: Braille| b.bits@),
            base == cy * w,
            base + w <= w * h,
            w * h <= usize::MAX,
            forall|k: int| 0 <= k < layers@.len() ==> (#[trigger] layers@[k]).bits@.len() == w * h,
            out@ == start + row_cells(*frame, all, w as int, cy as int, painted, cx as int),
        decreases w - cx,
    {
        push_cell(out, frame, layers, base + cx, painted);
        cx += 1;
        assert(out@ =~= start + row_cells(
            *frame,
            all,
            w as int,
            cy as int,
            painted,
            cx as int,
        ));
    }
}

/// The width of the gutter that holds the labels of the ends of the y axis.
pub open spec fn gutter_of(ylo: NumV, yhi: NumV) -> int {
    if yhi.text.len() >= ylo.text.len() {
        yhi.text.len() as int
    } else {
        ylo.text.len() as int
    }
}

/// How many cells of a chart that wide are left for the canvas behind the gutter.
pub open spec fn cells_of(width: int, gutter: int) -> int {
    if width - (gutter + 3) > 4 {
        width - (gutter + 3)
    } else {
        4
    }
}

/// The canvas of an xy chart: its cells across and down, and the width of the
/// gutter that holds the y-axis labels.
pub open spec fn canvas_of(frame: Frame, xy: XyData) -> (int, int, int) {
    let (ylo, yhi) = extent_of(point_ys(xy_rows(xy.rows@)), range_view(xy.yrange));
    let gutter = gutter_of(ylo, yhi);
    let w = cells_of(frame.width as int, gutter);
    let h = if frame.height > 2 {
        frame.height as int
    } else {
        2
    };
    (w, h, gutter)
}

/// The width of the gutter that holds the labels of the ends of the y axis, and how
/// many cells of a chart that wide are left for the canvas.
pub fn canvas_cells(width: usize, ylo: &Num, yhi: &Num) -> (r: (usize, usize))
    ensures
        r.0 == gutter_of(ylo@, yhi@),
        r.1 == cells_of(width as int, r.0 as int),
{
    let (m, n) = (chars_of(yhi.text.as_str()).len(), chars_of(ylo.text.as_str()).len());
    let gutter: usize = if m >= n {
        m
    } else {
        n
    };
    let left: i128 = width as i128 - (gutter as i128 + 3);
    let w: usize = if left > 4 {
        left as usize
    } else {
        4
    };
    (gutter, w)
}

/// The canvas of an xy chart: its cells across and down, and the width of the
/// gutter that holds the y-axis labels (top = the high end, bottom = the low
/// end) — the real values, whatever the axis does with them.
pub fn canvas_size(frame: &Frame, xy: &XyData) -> (r: (usize, usize, usize))
    ensures
        (r.0 as int, r.1 as int, r.2 as int) == canvas_of(*frame, *xy),
        r.0 > 0,
        r.1 >= 2,
{
    let (_xlo, _xhi, ylo, yhi) = xy.bounds();
    let (gutter, w) = canvas_cells(frame.width, &ylo, &yhi);
    let h: usize = if frame.height > 2 {
        frame.height
    } else {
        2
    };
    (w, h, gutter)
}

/// `s` in the middle of a field, the odd space behind it.
pub open spec fn centred(s: Seq<char>, width: int) -> Seq<char> {
    if s.len() >= width {
        s
    } else {
        let pad = width - s.len();
        repeated(' ', (pad / 2) as nat) + s + repeated(' ', (pad - pad / 2) as nat)
    }
}

/// How many points there are.
pub open spec fn pixel_count(pixels: Seq<Vec<(i64, i64)>>, n: int) -> nat
    decreases n,
{
    if n <= 0 {
        0
    } else {
        pixel_count(pixels, n - 1) + pixels[n - 1]@.len()
    }
}

/// The name of each series in the legend, behind a marker in its colour when
/// there is colour.
pub open spec fn legend_names(frame: Frame, names: Seq<Seq<char>>) -> Seq<Seq<char>> {
    Seq::new(
        names.len(),
        |i: int|
            if frame.color {
                series_painted(i, seq![frame.glyphs.legend]) + " "@ + names[i]
            } else {
                names[i]
            },
    )
}

/// The x axis of a chart: the rule, the labels under it, and the axis's own label
/// in the middle.
pub open spec fn xaxis_text(frame: Frame, dims: (int, int, int), labels: Seq<char>) -> Seq<char> {
    let (w, h, gutter) = dims;
    repeated(' ', gutter as nat) + " "@ + seq![frame.glyphs.axis_corner] + repeated(
        frame.glyphs.axis_h,
        w as nat,
    ) + "\n"@ + repeated(' ', gutter as nat) + "  "@ + labels + "\n"@ + (match frame.xlabel {
        Some(x) => trimmed_end(repeated(' ', gutter as nat) + "  "@ + centred(x@, w)) + "\n"@,
        None => seq![],
    })
}

/// A scatter or line chart on a canvas with a labelled frame.
pub open spec fn xy_text(
    frame: Frame,
    xy: XyData,
    pixels: Seq<Vec<(i64, i64)>>,
    ticks: Seq<Tick>,
) -> Seq<char> {
    let dims = canvas_of(frame, xy);
    let (ylo, yhi) = extent_of(point_ys(xy_rows(xy.rows@)), range_view(xy.yrange));
    let multi = pixels.len() > 1;
    let notes = texts(frame.notes@);
    frame.title@ + (if even_spacing(notes) {
        "  (even row spacing)"@
    } else {
        seq![]
    }) + head_text(seq![], frame.ylabel) + canvas_rows(
        frame,
        canvases(pixels, xy.connect, dims.0, dims.1),
        dims,
        (ylo.text, yhi.text),
        frame.color && multi,
        dims.1,
    ) + xaxis_text(frame, dims, x_labels(xy.xaxis@, dims.0, ticks)) + "points="@ + decimal(
        pixel_count(pixels, pixels.len() as int),
    ) + tail_without_spacing(notes) + "\n"@ + (if multi {
        joined(legend_names(frame, texts(xy.names@)), "  "@) + "\n"@
    } else {
        seq![]
    })
}

fn draw_all(pixels: &Vec<Vec<(i64, i64)>>, connect: bool, w: usize, h: usize) -> (r: Vec<Braille>)
    requires
        canvas_fits(w as int, h as int),
    ensures
        r@.map_values(|b: Braille| b.bits@) == canvases(pixels@, connect, w as int, h as int),
        forall|k: int| 0 <= k < r@.len() ==> (#[trigger] r@[k]).bits@.len() == w * h,
{
    let ghost all = canvases(pixels@, connect, w as int, h as int);
    let mut r: Vec<Braille> = Vec::new();
    let mut i: usize = 0;
    while i < pixels.len()
        invariant
            i <= pixels.len(),
            canvas_fits(w as int, h as int),
            all == canvases(pixels@, connect, w as int, h as int),
            r@.map_values(|b: Braille| b.bits@) == all.take(i as int),
            forall|k: int| 0 <= k < r@.len() ==> (#[trigger] r@[k]).bits@.len() == w * h,
        decreases pixels.len() - i,
    {
        let ghost before = r@.map_values(|b: Braille| b.bits@);
        let b = draw_series(&pixels[i], connect, w, h);
        let ghost bits = b.bits@;
        r.push(b);
        assert(r@.map_values(|b: Braille| b.bits@) =~= before.push(bits));
        i += 1;
        assert(r@.map_values(|b: Braille| b.bits@) =~= all.take(i as int));
    }
    assert(all.take(all.len() as int) =~= all);
    r
}

fn push_canvas_line(
    out: &mut String,
    frame: &Frame,
    layers: &Vec<Braille>,
    dims: (usize, usize, usize),
    ends: (&str, &str),
    painted: bool,
    cy: usize,
)
    requires
        cy < dims.1,
        canvas_fits(dims.0 as int, dims.1 as int),
        forall|k: int|
            0 <= k < layers@.len() ==> (#[trigger] layers@[k]).bits@.len() == dims.0 * dims.1,
    ensures
        final(out)@ == old(out)@ + canvas_line(
            *frame,
            layers@.map_values(|b: Braille| b.bits@),
            (dims.0 as int, dims.1 as int, dims.2 as int),
            (ends.0@, ends.1@),
            painted,
            cy as int,
        ),
{
    let (w, h, gutter) = dims;
    let ghost start = out@;
    let label: &str = if cy == 0 {
        ends.1
    } else if cy == h - 1 {
        ends.0
    } else {
        ""
    };
    push_right(out, label, gutter);
    out.append(" ");
    out.push(frame.glyphs.axis_tick);
    push_canvas_row(out, frame, layers, w, h, cy, painted);
    out.append("\n");
    assert(out@ =~= start + canvas_line(
        *frame,
        layers@.map_values(|b: Braille| b.bits@),
        (w as int, h as int, gutter as int),
        (ends.0@, ends.1@),
        painted,
        cy as int,
    ));
}

fn push_canvas(
    out: &mut String,
    frame: &Frame,
    layers: &Vec<Braille>,
    dims: (usize, usize, usize),
    ends: (&str, &str),
    painted: bool,
)
    requires
        canvas_fits(dims.0 as int, dims.1 as int),
        forall|k: int|
            0 <= k < layers@.len() ==> (#[trigger] layers@[k]).bits@.len() == dims.0 * dims.1,
    ensures
        final(out)@ == old(out)@ + canvas_rows(
            *frame,
            layers@.map_values(|b: Braille| b.bits@),
            (dims.0 as int, dims.1 as int, dims.2 as int),
            (ends.0@, ends.1@),
            painted,
            dims.1 as int,
        ),
{
    let ghost d = (dims.0 as int, dims.1 as int, dims.2 as int);
    let ghost all = layers@.map_values(|b: Braille| b.bits@);
    let ghost e = (ends.0@, ends.1@);
    let ghost start = out@;
    let mut cy: usize = 0;
    assert(out@ =~= start + canvas_rows(*frame, all, d, e, painted, 0));
    while cy < dims.1
        invariant
            cy <= dims.1,
            d == (dims.0 as int, dims.1 as int, dims.2 as int),
            e == (ends.0@, ends.1@),
            all == layers@.map_values(|b: Braille| b.bits@),
            canvas_fits(dims.0 as int, dims.1 as int),
            forall|k: int|
                0 <= k < layers@.len() ==> (#[trigger] layers@[k]).bits@.len() == dims.0 * dims.1,
            out@ == start + canvas_rows(*frame, all, d, e, painted, cy as int),
        decreases dims.1 - cy,
    {
        push_canvas_line(out, frame, layers, dims, ends, painted, cy);
        cy += 1;
        assert(out@ =~= start + canvas_rows(*frame, all, d, e, painted, cy as int));
    }
}

fn push_centred(out: &mut String, s: &str, width: usize)
    ensures
        final(out)@ == old(out)@ + centred(s@, width as int),
{
    let ghost start = out@;
    let n = chars_of(s).len();
    if n >= width {
        out.append(s);
    } else {
        let pad: usize = width - n;
        push_repeated(out, ' ', pad / 2);
        out.append(s);
        push_repeated(out, ' ', pad - pad / 2);
        assert(out@ =~= start + centred(s@, width as int));
    }
}

fn push_xaxis(out: &mut String, frame: &Frame, dims: (usize, usize, usize), labels: &str)
    ensures
        final(out)@ == old(out)@ + xaxis_text(
            *frame,
            (dims.0 as int, dims.1 as int, dims.2 as int),
            labels@,
        ),
{
    let ghost start = out@;
    let (w, _h, gutter) = dims;
    push_repeated(out, ' ', gutter);
    out.append(" ");
    out.push(frame.glyphs.axis_corner);
    push_repeated(out, frame.glyphs.axis_h, w);
    out.append("\n");
    push_repeated(out, ' ', gutter);
    out.append("  ");
    out.append(labels);
    out.append("\n");
    match &frame.xlabel {
        Some(x) => {
            let mut line = String::new();
            push_repeated(&mut line, ' ', gutter);
            assert(line@ =~= repeated(' ', gutter as nat));
            line.append("  ");
            push_centred(&mut line, x.as_str(), w);
            out.append(trim_end(line.as_str()).as_str());
            out.append("\n");
        },
        None => {},
    }
    assert(out@ =~= start + xaxis_text(
        *frame,
        (dims.0 as int, dims.1 as int, dims.2 as int),
        labels@,
    ));
}

fn legend(frame: &Frame, names: &Vec<String>) -> (r: Vec<String>)
    ensures
        texts(r@) == legend_names(*frame, texts(names@)),
{
    let ghost all = legend_names(*frame, texts(names@));
    let mut r: Vec<String> = Vec::new();
    let mut i: usize = 0;
    while i < names.len()
        invariant
            i <= names.len(),
            all == legend_names(*frame, texts(names@)),
            texts(r@) == all.take(i as int),
        decreases names.len() - i,
    {
        let ghost before = texts(r@);
        assert(texts(names@)[i as int] == names@[i as int]@);
        let mut entry = String::new();
        if frame.color {
            let mut mark = String::new();
            mark.push(frame.glyphs.legend);
            assert(mark@ =~= seq![frame.glyphs.legend]);
            entry.append(paint_series(i, mark.as_str()).as_str());
            entry.append(" ");
        }
        entry.append(names[i].as_str());
        assert(entry@ =~= all[i as int]);
        r.push(entry);
        assert(texts(r@) =~= before.push(entry@));
        i += 1;
        assert(texts(r@) =~= all.take(i as int));
    }
    assert(all.take(all.len() as int) =~= all);
    r
}

fn count_pixels(pixels: &Vec<Vec<(i64, i64)>>) -> (r: u128)
    ensures
        r == pixel_count(pixels@, pixels@.len() as int),
{
    let mut n: u128 = 0;
    let mut i: usize = 0;
    while i < pixels.len()
        invariant
            i <= pixels.len(),
            n == pixel_count(pixels@, i as int),
            n <= i * 0xffff_ffff_ffff_ffff,
        decreases pixels.len() - i,
    {
        assert(i * 0xffff_ffff_ffff_ffff + 0xffff_ffff_ffff_ffff <= 0xffff_ffff_ffff_ffff
            * 0xffff_ffff_ffff_ffff) by (nonlinear_arith)
            requires
                0 <= i < 0xffff_ffff_ffff_ffff,
        ;
        n = n + pixels[i].len() as u128;
        i += 1;
    }
    n
}

/// Whether there is a pixel for each point of each series.
pub open spec fn pixels_fit(xy: XyData, pixels: Seq<Vec<(i64, i64)>>) -> bool {
    &&& pixels.len() == xy.names@.len()
    &&& forall|k: int|
        0 <= k < pixels.len() ==> (#[trigger] pixels[k])@.len() == crate::collect::series_of(
            xy_rows(xy.rows@),
            k,
            xy.rows@.len() as int,
        ).len()
}

/// Draw a scatter or line chart of one or more y-series against a shared x, on a
/// braille canvas with a labelled frame. Multiple series get distinct colours
/// (when `frame.color`); on a shared cell the first series wins the glyph
/// (overlap is approximate, as in other terminal plotters). `xy.xaxis` selects how
/// the bottom axis is graduated (numeric/time interpolate intermediate ticks; a
/// category axis shows only the first/last cells) — a category axis says so in the
/// title, since it distorts spacing. `pixels` has the pixel of each point of each
/// series, and `ticks` the ticks of a numeric or time axis.
pub fn render_xy(
    frame: &Frame,
    xy: &XyData,
    pixels: &Vec<Vec<(i64, i64)>>,
    ticks: Vec<Tick>,
) -> (r: String)
    requires
        pixels_fit(*xy, pixels@),
        canvas_fits(canvas_of(*frame, *xy).0, canvas_of(*frame, *xy).1),
    ensures
        r@ == xy_text(*frame, *xy, pixels@, ticks@),
{
    let dims = canvas_size(frame, xy);
    let ghost d = canvas_of(*frame, *xy);
    let (_xlo, _xhi, ylo, yhi) = xy.bounds();
    let layers = draw_all(pixels, xy.connect, dims.0, dims.1);
    let multi = pixels.len() > 1;
    let (tail, even) = tail_notes(frame);
    let labels = x_label_row(&xy.xaxis, dims.0, ticks);
    let mut out = frame.title.as_str().to_string();
    if even {
        out.append("  (even row spacing)");
    } else {
        assert(out@ =~= frame.title@ + seq![]);
    }
    push_head(&mut out, "", &frame.ylabel);
    proof {
        reveal_strlit("");
        assert(""@ =~= seq![]);
    }
    push_canvas(
        &mut out,
        frame,
        &layers,
        dims,
        (ylo.text.as_str(), yhi.text.as_str()),
        frame.color && multi,
    );
    push_xaxis(&mut out, frame, dims, labels.as_str());
    out.append("points=");
    out.append(crate::text::show_u128(count_pixels(pixels)).as_str());
    out.append(tail.as_str());
    out.append("\n");
    let ghost body = out@;
    if multi {
        let entries = legend(frame, &xy.names);
        out.append(join(entries.as_slice(), "  ").as_str());
        out.append("\n");
        assert(out@ =~= body + (joined(legend_names(*frame, texts(xy.names@)), "  "@) + "\n"@));
    } else {
        assert(out@ =~= body + seq![]);
    }
    out
}

/// What floating-point arithmetic makes of a chart's data, for its drawing.
pub enum Marks {
    Hist(Vec<HistBar>),
    Bars { places: Vec<BarPlace>, zero: usize },
    Spark(Vec<SparkCell>),
    Xy { pixels: Vec<Vec<(i64, i64)>>, ticks: Vec<Tick> },
}

/// Whether the marks are those of the chart.
pub open spec fn marks_fit(frame: Frame, data: ChartData, marks: Marks) -> bool {
    match data {
        ChartData::Hist(None) => true,
        ChartData::Hist(Some(h)) => marks matches Marks::Hist(bars) && bars@.len()
            == h.counts@.len(),
        ChartData::Bar(b) => marks matches Marks::Bars { places, zero } && places@.len()
            == drawn_bars(bar_rows(b.rows@)).len(),
        ChartData::Spark(s) => marks matches Marks::Spark(cells) && cells@.len()
            == s.values@.len(),
        ChartData::Xy(xy) => marks matches Marks::Xy { pixels, ticks } && pixels_fit(xy, pixels@)
            && canvas_fits(canvas_of(frame, xy).0, canvas_of(frame, xy).1),
        ChartData::Heat(_) => false,
    }
}

/// A chart as text; one with nothing to plot is a one-line diagnostic.
pub open spec fn chart_text(frame: Frame, data: ChartData, marks: Marks) -> Seq<char> {
    match (data, marks) {
        (ChartData::Hist(None), _) => empty_text(frame, "no numeric values to plot"@),
        (ChartData::Hist(Some(h)), Marks::Hist(bars)) => hist_text(frame, h, bars@),
        (ChartData::Bar(b), Marks::Bars { places, zero }) => if b.rows@.len() == 0 {
            empty_text(frame, "no numeric values to plot"@)
        } else {
            bars_text(frame, drawn_bars(bar_rows(b.rows@)), places@, zero as int)
        },
        (ChartData::Spark(s), Marks::Spark(cells)) => if s.values@.len() == 0 {
            empty_text(frame, "no numeric values to plot"@)
        } else {
            spark_text(frame, s, cells@)
        },
        (ChartData::Xy(xy), Marks::Xy { pixels, ticks }) => if xy.rows@.len() == 0 {
            empty_text(frame, "no numeric points to plot"@)
        } else {
            xy_text(frame, xy, pixels@, ticks@)
        },
        _ => seq![],
    }
}

/// Draw `data` in the terminal within `frame`. Each kind has its own drawer;
/// a chart with nothing to plot becomes a one-line diagnostic.
pub fn render(frame: &Frame, data: &ChartData, marks: Marks) -> (r: String)
    requires
        marks_fit(*frame, *data, marks),
    ensures
        r@ == chart_text(*frame, *data, marks),
{
    match (data, marks) {
        (ChartData::Hist(None), _) => empty_line(frame, "no numeric values to plot"),
        (ChartData::Hist(Some(h)), Marks::Hist(bars)) => render_hist(frame, h, &bars),
        (ChartData::Bar(b), Marks::Bars { places, zero }) => if b.rows.len() == 0 {
            empty_line(frame, "no numeric values to plot")
        } else {
            render_bars(frame, b, &places, zero)
        },
        (ChartData::Spark(s), Marks::Spark(cells)) => if s.values.len() == 0 {
            empty_line(frame, "no numeric values to plot")
        } else {
            render_spark(frame, s, &cells)
        },
        (ChartData::Xy(xy), Marks::Xy { pixels, ticks }) => if xy.rows.len() == 0 {
            empty_line(frame, "no numeric points to plot")
        } else {
            render_xy(frame, xy, &pixels, ticks)
        },
        _ => String::new(),
    }
}

/// A chart's title: the one it was given, or the one its columns give.
pub open spec fn chart_title(g: GraphSpec) -> Seq<char> {
    match g.opts.title {
        Some(t) => t@,
        None => title_of(g),
    }
}

/// A chart's notes: what it could not use, and that its x axis is evenly spaced
/// where its x cells are neither numbers nor times.
pub open spec fn chart_notes(c: Collected) -> Seq<Seq<char>> {
    c.drops.noted() + (match c.data {
        Gathered::Xy(xy) => match xy.xaxis {
            XAxis::Ends(_, _) => seq!["even row spacing"@],
            _ => seq![],
        },
        _ => seq![],
    })
}

/// The frame that a collected chart is drawn in.
pub fn frame_of(g: &GraphSpec, c: &Collected, width: usize, height: usize, color: bool) -> (r:
    Frame)
    requires
        g.opts.title is None ==> has_columns(*g),
    ensures
        r.title@ == chart_title(*g),
        texts(r.notes@) == chart_notes(*c),
        r.width == width,
        r.height == height,
        r.color == color,
        r.log == g.opts.log,
        r.xlabel is None,
        r.ylabel is None,
        r.ramp is None,
        r.glyphs.blocks(),
{
    let title = match &g.opts.title {
        Some(t) => t.clone(),
        None => default_title(g),
    };
    let mut frame = Frame::new(title, width, height, color);
    frame.log = g.opts.log;
    let mut notes = c.drops.notes();
    let ghost dropped = texts(notes@);
    if let Gathered::Xy(xy) = &c.data {
        if let XAxis::Ends(_, _) = &xy.xaxis {
            notes.push("even row spacing".to_string());
            assert(texts(notes@) =~= dropped + seq!["even row spacing"@]);
        }
    }
    assert(texts(notes@) =~= chart_notes(*c));
    frame.notes = notes;
    frame
}

} // verus!
