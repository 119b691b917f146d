//! The chart data model behind the `graph` sink: what a chart shows, apart
//! from how it is drawn. The collectors read the charted columns out of the
//! buffered output; [`crate::graph`] draws the result in the terminal.
//!
//! A number is known by its bits and its text, so what a chart needs is decided
//! by how numbers rank. What takes floating-point arithmetic (a bin's edges, a
//! bucket's mean, a position along an axis) is handed in.

use vstd::prelude::*;

use crate::collect::{
    at_most, bar_rows, colors_of, nums, opt_num, opt_nums, positive, range_view, xy_rows,
    AxisRange, BarData, BarRow, BarRowV, XyData, XyRow, XyRowV,
};
use crate::color::Ramp;
use crate::csv::{rows_text, write_rows};
use crate::field::{
    is_finite, rank, rank_bits, row_view, rows_view, top_bit, whole_num, whole_view, Field, FieldV,
    Num, NumV, Rank, Row,
};
use crate::plan::{GraphKind, GraphSpec};
use crate::text::{cat2, cat3, decimal, join, joined, show_u64, show_usize, texts};

verus! {

/// How a canvas draws a cell of dots.
#[derive(Clone, Copy, Debug, PartialEq, Eq, Structural)]
pub enum Dots {
    /// The braille glyph with those dots.
    Unicode,
    /// A star for any dot at all.
    Ascii,
}

/// The characters a terminal renderer draws with (Unicode by default).
#[derive(Clone, Copy, Debug)]
pub struct Glyphs {
    /// A full bar cell.
    pub full: char,
    /// Eighth-width bar tails, 1/8..8/8; `None` draws no partial cell.
    pub partial: Option<[char; 8]>,
    /// Eighth-height spark levels, lowest first.
    pub levels: [char; 8],
    /// The vertical axis rule.
    pub axis_v: char,
    /// The corner where the two axes meet.
    pub axis_corner: char,
    /// The horizontal axis rule.
    pub axis_h: char,
    /// The tick on the left edge of a canvas row.
    pub axis_tick: char,
    /// Heatmap shades, lightest (empty) first.
    pub shades: [char; 5],
    /// A braille cell from its dot bits (0 = empty).
    pub dots: Dots,
    /// The multi-series legend marker.
    pub legend: char,
}

/// What a cell with those dots is drawn as.
pub open spec fn dots_char(dots: Dots, bits: u8) -> char {
    match dots {
        Dots::Unicode => ((0x2800 + bits) as u32) as char,
        Dots::Ascii => if bits == 0 {
            ' '
        } else {
            '*'
        },
    }
}

/// The braille cell for `bits`: the glyphs start at U+2800 and the dot bits
/// index into that block.
fn braille_unicode(bits: u8) -> (c: char)
    ensures
        c == dots_char(Dots::Unicode, bits),
{
    let code: u32 = 0x2800 + bits as u32;
    match std::char::from_u32(code) {
        Some(c) => {
            proof {
                vstd::utf8::char_u32_cast(c, code);
            }
            c
        },
        None => ' ',
    }
}

impl Glyphs {
    /// What a cell with those dots is drawn as.
    pub fn braille(&self, bits: u8) -> (c: char)
        ensures
            c == dots_char(self.dots, bits),
    {
        match self.dots {
            Dots::Unicode => braille_unicode(bits),
            Dots::Ascii => if bits == 0 {
                ' '
            } else {
                '*'
            },
        }
    }

    /// Whether these are the Unicode block and braille glyphs.
    pub open spec fn blocks(self) -> bool {
        &&& self.full == '█'
        &&& self.partial is Some
        &&& self.partial->0@ == seq!['▏', '▎', '▍', '▌', '▋', '▊', '▉', '█']
        &&& self.levels@ == seq!['▁', '▂', '▃', '▄', '▅', '▆', '▇', '█']
        &&& self.axis_v == '│'
        &&& self.axis_corner == '└'
        &&& self.axis_h == '─'
        &&& self.axis_tick == '┤'
        &&& self.shades@ == seq![' ', '░', '▒', '▓', '█']
        &&& self.dots == Dots::Unicode
        &&& self.legend == '●'
    }

    /// The Unicode block/braille glyph set — what every chart draws with today.
    pub fn unicode() -> (r: Self)
        ensures
            r.blocks(),
    {
        Glyphs {
            full: '█',
            partial: Some(['▏', '▎', '▍', '▌', '▋', '▊', '▉', '█']),
            levels: ['▁', '▂', '▃', '▄', '▅', '▆', '▇', '█'],
            axis_v: '│',
            axis_corner: '└',
            axis_h: '─',
            axis_tick: '┤',
            shades: [' ', '░', '▒', '▓', '█'],
            dots: Dots::Unicode,
            legend: '●',
        }
    }

    /// Plain ASCII, for terminals without block glyphs: `#` bars with no
    /// partial cells, `" .:-=+*#"` spark levels, `| + - |` axes, `" .:*#"`
    /// shades, `*` for any lit braille cell or the legend marker.
    pub fn ascii() -> (r: Self)
        ensures
            r.full == '#',
            r.partial is None,
            r.levels@ == seq![' ', '.', ':', '-', '=', '+', '*', '#'],
            r.axis_v == '|',
            r.axis_corner == '+',
            r.axis_h == '-',
            r.axis_tick == '|',
            r.shades@ == seq![' ', '.', ':', '*', '#'],
            r.dots == Dots::Ascii,
            r.legend == '*',
    {
        Glyphs {
            full: '#',
            partial: None,
            levels: [' ', '.', ':', '-', '=', '+', '*', '#'],
            axis_v: '|',
            axis_corner: '+',
            axis_h: '-',
            axis_tick: '|',
            shades: [' ', '.', ':', '*', '#'],
            dots: Dots::Ascii,
            legend: '*',
        }
    }
}

/// The most cells a chart dimension may ask for (`-b`, `-W`, `-H`, and what
/// `-s` may scale a default up to). A chart is drawn into a buffer of
/// `cols * rows` cells, so an unbounded value is an allocation no terminal
/// could show. This is far past any terminal and keeps the product well inside
/// a `usize`.
pub const MAX_CELLS: usize = 4096;

/// A number held between two bounds.
pub open spec fn held(n: int, lo: int, hi: int) -> int {
    if n < lo {
        lo
    } else if n > hi {
        hi
    } else {
        n
    }
}

fn hold(n: usize, lo: usize, hi: usize) -> (r: usize)
    requires
        lo <= hi,
    ensures
        r == held(n as int, lo as int, hi as int),
{
    if n < lo {
        lo
    } else if n > hi {
        hi
    } else {
        n
    }
}

/// The chart size in cells: an explicit `width`/`height` wins; else the scaled
/// default size. Floors keep a tiny chart drawable, and the same [`MAX_CELLS`]
/// ceiling the flags carry caps the result, so a large `-s` cannot ask for the
/// allocation `-W` may not.
pub fn chart_size(
    scaled_width: usize,
    scaled_height: usize,
    width: Option<usize>,
    height: Option<usize>,
) -> (r: (usize, usize))
    ensures
        r.0 == held(
            (match width {
                Some(w) => w,
                None => scaled_width,
            }) as int,
            16,
            MAX_CELLS as int,
        ),
        r.1 == held(
            (match height {
                Some(h) => h,
                None => scaled_height,
            }) as int,
            2,
            MAX_CELLS as int,
        ),
{
    let w: usize = match width {
        Some(w) => w,
        None => scaled_width,
    };
    let h: usize = match height {
        Some(h) => h,
        None => scaled_height,
    };
    (hold(w, 16, MAX_CELLS), hold(h, 2, MAX_CELLS))
}

/// Everything about a chart that is not its data.
#[derive(Debug)]
pub struct Frame {
    pub title: String,
    pub xlabel: Option<String>,
    pub ylabel: Option<String>,
    /// Total chart width in cells.
    pub width: usize,
    /// Canvas rows (scatter, line, heatmap).
    pub height: usize,
    pub glyphs: Glyphs,
    pub ramp: Option<Ramp>,
    /// ANSI colour is on.
    pub color: bool,
    /// The value axis is on a log10 scale.
    pub log: bool,
    /// Dropped-data notes, e.g. "skipped 3 non-numeric".
    pub notes: Vec<String>,
}

/// Each note in brackets, behind two spaces.
pub open spec fn tail_of(notes: Seq<Seq<char>>) -> Seq<char>
    decreases notes.len(),
{
    if notes.len() == 0 {
        seq![]
    } else {
        tail_of(notes.drop_last()) + "  ("@ + notes.last() + ")"@
    }
}

impl Frame {
    /// A frame with the given title and size, drawn with the Unicode glyphs and
    /// no labels, ramp, log scale or notes.
    pub fn new(title: String, width: usize, height: usize, color: bool) -> (r: Self)
        ensures
            r.title == title,
            r.width == width,
            r.height == height,
            r.color == color,
            r.xlabel is None,
            r.ylabel is None,
            r.ramp is None,
            !r.log,
            r.notes@.len() == 0,
            r.glyphs.blocks(),
    {
        Frame {
            title,
            xlabel: None,
            ylabel: None,
            width,
            height,
            glyphs: Glyphs::unicode(),
            ramp: None,
            color,
            log: false,
            notes: Vec::new(),
        }
    }

    /// The notes as a summary tail: `  (a)  (b)`, empty when there are none.
    pub fn notes_tail(&self) -> (r: String)
        ensures
            r@ == tail_of(texts(self.notes@)),
    {
        let mut r = String::new();
        let ghost all = texts(self.notes@);
        let mut i: usize = 0;
        assert(r@ =~= tail_of(all.take(0)));
        while i < self.notes.len()
            invariant
                i <= self.notes.len(),
                all == texts(self.notes@),
                r@ == tail_of(all.take(i as int)),
            decreases self.notes.len() - i,
        {
            r.append("  (");
            r.append(self.notes[i].as_str());
            r.append(")");
            proof {
                assert(all.take(i + 1).drop_last() =~= all.take(i as int));
                assert(all.take(i + 1).last() == self.notes@[i as int]@);
            }
            i += 1;
        }
        assert(all.take(all.len() as int) =~= all);
        r
    }

    /// The notes joined with two spaces (the SVG footer).
    pub fn notes_line(&self) -> (r: String)
        ensures
            r@ == joined(texts(self.notes@), "  "@),
    {
        join(self.notes.as_slice(), "  ")
    }
}

/// What a chart could not use, counted rather than described. Every collector
/// reports the same counts, and one place turns them into the notes a chart
/// prints under itself — so the wording and the order of the notes do not
/// depend on which kind dropped what.
#[derive(Clone, Copy, Debug, PartialEq, Eq)]
pub struct Drops {
    /// Cells that held no number.
    pub skipped: u64,
    /// Values outside an `-x`/`-y` range.
    pub clipped: u64,
    /// Values a log axis cannot place (not positive).
    pub dropped: u64,
    /// `-c/--color-by` cells that held no number. Those points are still
    /// plotted, just left uncoloured.
    pub color: u64,
    /// Bar labels past the drawn cap.
    pub truncated: usize,
    /// The grid a heatmap's `-b` was cut down to, when what draws it — the
    /// terminal canvas, an SVG's plot area — could not hold the one it asked
    /// for.
    pub grid_capped: Option<(usize, usize)>,
}

/// Nothing dropped.
pub open spec fn no_drops() -> Drops {
    Drops { skipped: 0, clipped: 0, dropped: 0, color: 0, truncated: 0, grid_capped: None }
}

impl Default for Drops {
    fn default() -> (r: Self)
        ensures
            r == no_drops(),
    {
        Drops { skipped: 0, clipped: 0, dropped: 0, color: 0, truncated: 0, grid_capped: None }
    }
}

/// A note, when there is something to note.
pub open spec fn note_if(some: bool, note: Seq<char>) -> Seq<Seq<char>> {
    if some {
        seq![note]
    } else {
        seq![]
    }
}

impl Drops {
    /// The notes for what was dropped, in one fixed order.
    pub open spec fn noted(self) -> Seq<Seq<char>> {
        note_if(self.truncated > 0, "+"@ + decimal(self.truncated as nat) + " more not shown"@)
            + note_if(self.skipped > 0, "skipped "@ + decimal(self.skipped as nat) + " non-numeric"@)
            + note_if(
            self.clipped > 0,
            "clipped "@ + decimal(self.clipped as nat) + " out of range"@,
        ) + note_if(
            self.dropped > 0,
            "dropped "@ + decimal(self.dropped as nat) + " non-positive"@,
        ) + note_if(self.color > 0, decimal(self.color as nat) + " non-numeric colour cells"@) + (
        match self.grid_capped {
            Some((c, r)) => seq![
                "grid capped to "@ + decimal(c as nat) + "x"@ + decimal(r as nat),
            ],
            None => seq![],
        })
    }

    /// The notes for what was dropped, in one fixed order, empty where nothing
    /// was. This is the whole "strict and loud" wording.
    pub fn notes(&self) -> (r: Vec<String>)
        ensures
            texts(r@) == self.noted(),
    {
        let mut r: Vec<String> = Vec::new();
        push_note(&mut r, self.truncated > 0, "+", show_usize(self.truncated), " more not shown");
        push_note(&mut r, self.skipped > 0, "skipped ", show_u64(self.skipped), " non-numeric");
        push_note(&mut r, self.clipped > 0, "clipped ", show_u64(self.clipped), " out of range");
        push_note(&mut r, self.dropped > 0, "dropped ", show_u64(self.dropped), " non-positive");
        push_note(&mut r, self.color > 0, "", show_u64(self.color), " non-numeric colour cells");
        proof {
            reveal_strlit("");
            assert(""@ + decimal(self.color as nat) =~= decimal(self.color as nat));
        }
        let ghost before = texts(r@);
        match self.grid_capped {
            Some((cols, rows)) => {
                let mut note = cat3("grid capped to ", show_usize(cols).as_str(), "x");
                note.append(show_usize(rows).as_str());
                r.push(note);
                assert(texts(r@) =~= before + seq![note@]);
            },
            None => {
                assert(texts(r@) =~= before + seq![]);
            },
        }
        r
    }
}

fn push_note(notes: &mut Vec<String>, some: bool, before: &str, n: String, behind: &str)
    ensures
        texts(final(notes)@) == texts(old(notes)@) + note_if(some, before@ + n@ + behind@),
{
    let ghost start = texts(notes@);
    if some {
        let note = cat3(before, n.as_str(), behind);
        notes.push(note);
        assert(texts(notes@) =~= start + seq![note@]);
    } else {
        assert(texts(notes@) =~= start + seq![]);
    }
}

/// The default chart title: the value column, or `y vs x` for one series.
pub open spec fn title_of(g: GraphSpec) -> Seq<char> {
    match g.kind {
        GraphKind::Bar => g.cols@[1].name@,
        GraphKind::Heatmap => g.cols@[1].name@ + " vs "@ + g.cols@[0].name@,
        GraphKind::Scatter | GraphKind::Line => if g.cols@.len() == 2 {
            g.cols@[1].name@ + " vs "@ + g.cols@[0].name@
        } else {
            "vs "@ + g.cols@[0].name@
        },
        GraphKind::Hist | GraphKind::Spark => g.cols@[0].name@,
    }
}

/// Whether a chart names as many columns as its kind takes at the least.
pub open spec fn has_columns(g: GraphSpec) -> bool {
    match g.kind {
        GraphKind::Bar | GraphKind::Heatmap => g.cols@.len() >= 2,
        _ => g.cols@.len() >= 1,
    }
}

/// The default chart title: the value column, or `y vs x` for one series.
pub fn default_title(g: &GraphSpec) -> (r: String)
    requires
        has_columns(*g),
    ensures
        r@ == title_of(*g),
{
    match g.kind {
        GraphKind::Bar => g.cols[1].name.as_str().to_string(),
        GraphKind::Heatmap => cat3(g.cols[1].name.as_str(), " vs ", g.cols[0].name.as_str()),
        GraphKind::Scatter | GraphKind::Line => if g.cols.len() == 2 {
            cat3(g.cols[1].name.as_str(), " vs ", g.cols[0].name.as_str())
        } else {
            cat2("vs ", g.cols[0].name.as_str())
        },
        GraphKind::Hist | GraphKind::Spark => g.cols[0].name.as_str().to_string(),
    }
}

/// The lowest of the values, the first of those that tie.
pub open spec fn lowest(values: Seq<NumV>) -> NumV
    decreases values.len(),
{
    if values.len() <= 1 {
        values[0]
    } else if rank(values.last().bits, lowest(values.drop_last()).bits) == Rank::Before {
        values.last()
    } else {
        lowest(values.drop_last())
    }
}

/// The highest of the values, the first of those that tie.
pub open spec fn highest(values: Seq<NumV>) -> NumV
    decreases values.len(),
{
    if values.len() <= 1 {
        values[0]
    } else if rank(values.last().bits, highest(values.drop_last()).bits) == Rank::After {
        values.last()
    } else {
        highest(values.drop_last())
    }
}

/// Min and max of `values`, or `None` when empty. Shared by the chart renderers.
pub fn minmax(values: &[Num]) -> (r: Option<(Num, Num)>)
    ensures
        range_view(r) == (if values@.len() == 0 {
            None
        } else {
            Some((lowest(nums(values@)), highest(nums(values@))))
        }),
{
    if values.len() == 0 {
        return None;
    }
    let ghost all = nums(values@);
    let mut lo: usize = 0;
    let mut hi: usize = 0;
    let mut i: usize = 1;
    assert(all.take(1).len() == 1 && all.take(1)[0] == all[0]);
    while i < values.len()
        invariant
            1 <= i <= values.len(),
            lo < values.len(),
            hi < values.len(),
            all == nums(values@),
            values@[lo as int]@ == lowest(all.take(i as int)),
            values@[hi as int]@ == highest(all.take(i as int)),
        decreases values.len() - i,
    {
        assert(all.take(i + 1).drop_last() =~= all.take(i as int));
        assert(all.take(i + 1).last() == values@[i as int]@);
        match rank_bits(values[i].bits, values[lo].bits) {
            Rank::Before => {
                lo = i;
            },
            _ => {},
        }
        match rank_bits(values[i].bits, values[hi].bits) {
            Rank::After => {
                hi = i;
            },
            _ => {},
        }
        i += 1;
    }
    assert(all.take(all.len() as int) =~= all);
    Some((values[lo].clone(), values[hi].clone()))
}

/// The spread of numbers holds every one of them, and its ends are among them.
pub proof fn law_spread_holds_every_value(values: Seq<NumV>)
    requires
        values.len() > 0,
        forall|i: int| 0 <= i < values.len() ==> is_finite((#[trigger] values[i]).bits),
    ensures
        forall|i: int|
            0 <= i < values.len() ==> at_most(lowest(values).bits, (#[trigger] values[i]).bits)
                && at_most(values[i].bits, highest(values).bits),
        values.contains(lowest(values)),
        values.contains(highest(values)),
    decreases values.len(),
{
    if values.len() > 1 {
        let front = values.drop_last();
        assert forall|i: int| 0 <= i < front.len() implies is_finite(
            (#[trigger] front[i]).bits,
        ) by {
            assert(front[i] == values[i]);
        }
        law_spread_holds_every_value(front);
        let (l, h) = (lowest(front), highest(front));
        let a = choose|i: int| 0 <= i < front.len() && front[i] == l;
        let b = choose|i: int| 0 <= i < front.len() && front[i] == h;
        assert(values[a] == l && values[b] == h);
        assert(values[values.len() - 1] == values.last());
        assert forall|i: int| 0 <= i < values.len() implies at_most(
            lowest(values).bits,
            (#[trigger] values[i]).bits,
        ) && at_most(values[i].bits, highest(values).bits) by {
            if i < front.len() {
                assert(front[i] == values[i]);
            }
        }
    } else {
        assert(values[0] == lowest(values));
    }
}

/// The bins that a number of values gets by Sturges' rule: one more than the
/// exponent of the first power of two that is no less, from one up to 50.
pub open spec fn sturges(n: nat) -> int {
    held(
        if n <= 1 {
            1
        } else {
            top_bit((n - 1) as nat) as int + 2
        },
        1,
        50,
    )
}

/// How many bins a histogram has.
pub open spec fn bins_of(n: nat, bins: Option<usize>) -> int {
    match bins {
        Some(b) => if b == 0 {
            1
        } else {
            b as int
        },
        None => sturges(n),
    }
}

proof fn lemma_top_bit_halves(n: nat)
    ensures
        n >= 2 ==> top_bit(n) == top_bit(n / 2) + 1,
        n < 2 ==> top_bit(n) == 0,
{
}

/// How many bins a histogram of `n` values has. The default is Sturges' rule
/// (⌈log2 n⌉ + 1), capped at 50; `bins` wins when given.
pub fn bin_count(n: usize, bins: Option<usize>) -> (r: usize)
    ensures
        r == bins_of(n as nat, bins),
        r > 0,
{
    match bins {
        Some(b) => if b == 0 {
            1
        } else {
            b
        },
        None => {
            if n <= 1 {
                return 1;
            }
            let mut m: usize = n - 1;
            let mut e: usize = 0;
            while m >= 2
                invariant
                    e + top_bit(m as nat) == top_bit((n - 1) as nat),
                    e + m <= n - 1,
                decreases m,
            {
                proof {
                    lemma_top_bit_halves(m as nat);
                }
                m = m / 2;
                e = e + 1;
            }
            proof {
                lemma_top_bit_halves(m as nat);
            }
            hold(
                if e < 50 {
                    e + 2
                } else {
                    50
                },
                1,
                50,
            )
        },
    }
}

/// A binned distribution: `counts` equal-width buckets over `[lo, hi]`, the
/// last inclusive of `hi`. `inner` are the edges between the bins.
pub struct HistData {
    pub lo: Num,
    pub hi: Num,
    pub counts: Vec<u64>,
    pub total: u64,
    pub inner: Vec<Num>,
}

/// The bin that a value goes to when it lies at bin `place` of the axis: the
/// last bin takes what lies at its end.
pub open spec fn bin_at(place: int, nbins: int) -> int {
    if place < nbins {
        place
    } else {
        nbins - 1
    }
}

/// How many of the first `n` values go to bin `b`.
pub open spec fn binned(places: Seq<usize>, nbins: int, b: int, n: int) -> nat
    decreases n,
{
    if n <= 0 {
        0
    } else {
        binned(places, nbins, b, n - 1) + if bin_at(places[n - 1] as int, nbins) == b {
            1nat
        } else {
            0nat
        }
    }
}

proof fn lemma_binned_fits(places: Seq<usize>, nbins: int, b: int, n: int)
    requires
        0 <= n,
    ensures
        binned(places, nbins, b, n) <= n,
    decreases n,
{
    if n > 0 {
        lemma_binned_fits(places, nbins, b, n - 1);
    }
}

/// How many values each bin takes.
fn count_bins(places: &[usize], nbins: usize) -> (r: Vec<u64>)
    requires
        nbins > 0,
    ensures
        r@.len() == nbins,
        forall|b: int|
            0 <= b < nbins ==> #[trigger] r@[b] == binned(
                places@,
                nbins as int,
                b,
                places@.len() as int,
            ),
{
    let mut counts: Vec<u64> = Vec::new();
    while counts.len() < nbins
        invariant
            counts@.len() <= nbins,
            forall|b: int| 0 <= b < counts@.len() ==> #[trigger] counts@[b] == 0,
        decreases nbins - counts.len(),
    {
        counts.push(0);
    }
    let mut i: usize = 0;
    while i < places.len()
        invariant
            i <= places.len(),
            nbins > 0,
            counts@.len() == nbins,
            forall|b: int|
                0 <= b < nbins ==> #[trigger] counts@[b] == binned(
                    places@,
                    nbins as int,
                    b,
                    i as int,
                ),
        decreases places.len() - i,
    {
        let at: usize = if places[i] < nbins {
            places[i]
        } else {
            nbins - 1
        };
        proof {
            lemma_binned_fits(places@, nbins as int, at as int, i as int);
        }
        let n: u64 = counts[at];
        counts.set(at, n + 1);
        i += 1;
    }
    counts
}

impl HistData {
    /// Whether there is an edge between each two bins.
    pub open spec fn wf(self) -> bool {
        self.counts@.len() == self.inner@.len() + 1
    }

    /// Edge `i` of the bins: the ends are the axis's own.
    pub open spec fn edge_at(self, i: int) -> NumV {
        if i == 0 {
            self.lo@
        } else if i == self.counts@.len() {
            self.hi@
        } else {
            self.inner@[i - 1]@
        }
    }

    /// Edge `i` of the bins: the ends are the axis's own.
    pub fn edge(&self, i: usize) -> (r: Num)
        requires
            self.wf(),
            i <= self.counts@.len(),
        ensures
            r@ == self.edge_at(i as int),
    {
        let n = self.counts.len();
        if i == 0 || i == n {
            lerp(&self.lo, &self.hi, i, n, &self.lo)
        } else {
            lerp(&self.lo, &self.hi, i, n, &self.inner[i - 1])
        }
    }

    /// Bin finite `values`; `None` when there are none. `span` is an explicit axis
    /// range (`-x`/`--xrange`): the bins then cover exactly it, so a range widens
    /// or narrows the axis rather than only filtering — the values are already
    /// clipped to it. `places` has the bin of the axis that each value lies at, and
    /// `inner` the edges between the bins.
    pub fn build(
        values: &[Num],
        bins: Option<usize>,
        span: &AxisRange,
        places: &[usize],
        inner: Vec<Num>,
    ) -> (r: Option<HistData>)
        requires
            places@.len() == values@.len(),
            values@.len() > 0 ==> inner@.len() + 1 == bins_of(values@.len(), bins),
        ensures
            match r {
                None => values@.len() == 0,
                Some(h) => {
                    let nbins = bins_of(values@.len(), bins);
                    &&& values@.len() > 0
                    &&& (match range_view(*span) {
                        Some((lo, hi)) => h.lo@ == lo && h.hi@ == hi,
                        None => h.lo@ == lowest(nums(values@)) && h.hi@ == highest(nums(values@)),
                    })
                    &&& h.counts@.len() == nbins
                    &&& forall|b: int|
                        0 <= b < nbins ==> #[trigger] h.counts@[b] == binned(
                            places@,
                            nbins,
                            b,
                            values@.len() as int,
                        )
                    &&& h.total == values@.len()
                    &&& h.inner == inner
                    &&& h.wf()
                },
            },
    {
        let (dlo, dhi) = match minmax(values) {
            None => {
                return None;
            },
            Some(p) => p,
        };
        let (lo, hi) = match span {
            Some((lo, hi)) => (lo.clone(), hi.clone()),
            None => (dlo, dhi),
        };
        let nbins = bin_count(values.len(), bins);
        let counts = count_bins(places, nbins);
        Some(HistData { lo, hi, counts, total: values.len() as u64, inner })
    }
}

/// The sum of the counts of the first `k` bins.
pub open spec fn binned_sum(places: Seq<usize>, nbins: int, k: int, n: int) -> nat
    decreases k,
{
    if k <= 0 {
        0
    } else {
        binned_sum(places, nbins, k - 1, n) + binned(places, nbins, k - 1, n)
    }
}

proof fn lemma_one_more(places: Seq<usize>, nbins: int, k: int, n: int)
    requires
        0 < n <= places.len(),
        0 <= k <= nbins,
        nbins > 0,
    ensures
        binned_sum(places, nbins, k, n) == binned_sum(places, nbins, k, n - 1) + (if bin_at(
            places[n - 1] as int,
            nbins,
        ) < k {
            1nat
        } else {
            0nat
        }),
    decreases k,
{
    if k > 0 {
        lemma_one_more(places, nbins, k - 1, n);
    }
}

proof fn lemma_no_bins_filled(places: Seq<usize>, nbins: int, k: int)
    ensures
        binned_sum(places, nbins, k, 0) == 0,
    decreases k,
{
    if k > 0 {
        lemma_no_bins_filled(places, nbins, k - 1);
    }
}

/// Every value is in one bin: the counts of all the bins add up to the values.
pub proof fn law_every_value_is_in_one_bin(places: Seq<usize>, nbins: int, n: int)
    requires
        nbins > 0,
        0 <= n <= places.len(),
    ensures
        binned_sum(places, nbins, nbins, n) == n,
    decreases n,
{
    if n > 0 {
        law_every_value_is_in_one_bin(places, nbins, n - 1);
        lemma_one_more(places, nbins, nbins, n);
    } else {
        lemma_no_bins_filled(places, nbins, nbins);
    }
}

/// The `i`th of `n` steps from `lo` to `hi` — a bin edge, or a cell's corner.
///
/// Only the edges *between* the ends are worked out (as a weighted sum, which
/// lands near an end rather than on it): the ends are handed back as they came
/// in.
pub fn lerp(lo: &Num, hi: &Num, i: usize, n: usize, between: &Num) -> (r: Num)
    ensures
        r@ == (if i == 0 {
            lo@
        } else if i == n {
            hi@
        } else {
            between@
        }),
{
    if i == 0 {
        lo.clone()
    } else if i == n {
        hi.clone()
    } else {
        between.clone()
    }
}

/// Where bucket `i` of `cols` starts among `len` values.
pub open spec fn bucket_start(len: int, cols: int, i: int) -> int {
    i * len / cols
}

/// The buckets that values are averaged in (the sparkline's width): a series that
/// already fits is left alone, which is `None`.
pub fn bucket(len: usize, cols: usize) -> (r: Option<Vec<(usize, usize)>>)
    ensures
        match r {
            None => len <= (if cols == 0 {
                1
            } else {
                cols as int
            }),
            Some(v) => {
                let n = if cols == 0 {
                    1
                } else {
                    cols as int
                };
                &&& len > n
                &&& v@.len() == n
                &&& forall|i: int|
                    0 <= i < n ==> (#[trigger] v@[i]).0 == bucket_start(len as int, n, i)
                        && v@[i].1 == bucket_start(len as int, n, i + 1)
            },
        },
{
    let cols: usize = if cols == 0 {
        1
    } else {
        cols
    };
    if len <= cols {
        return None;
    }
    let mut r: Vec<(usize, usize)> = Vec::new();
    let mut i: usize = 0;
    while i < cols
        invariant
            i <= cols,
            0 < cols < len,
            r@.len() == i,
            forall|k: int|
                0 <= k < i ==> (#[trigger] r@[k]).0 == bucket_start(len as int, cols as int, k)
                    && r@[k].1 == bucket_start(len as int, cols as int, k + 1),
        decreases cols - i,
    {
        proof {
            lemma_bucket(len as int, cols as int, i as int);
            lemma_bucket(len as int, cols as int, i + 1);
        }
        let start: usize = (i as u128 * len as u128 / cols as u128) as usize;
        let end: usize = ((i as u128 + 1) * len as u128 / cols as u128) as usize;
        r.push((start, end));
        i += 1;
    }
    Some(r)
}

proof fn lemma_bucket(len: int, cols: int, i: int)
    requires
        0 < cols <= u64::MAX,
        0 <= len <= u64::MAX,
        0 <= i <= cols,
    ensures
        0 <= bucket_start(len, cols, i) <= len,
        0 <= i * len <= u128::MAX,
{
    assert(0 <= i * len <= cols * len) by (nonlinear_arith)
        requires
            0 <= i <= cols,
            0 <= len,
    ;
    assert(i * len / cols <= len) by (nonlinear_arith)
        requires
            0 <= i * len <= cols * len,
            0 < cols,
    ;
    assert(0 <= i * len / cols) by (nonlinear_arith)
        requires
            0 <= i * len,
            0 < cols,
    ;
    assert(i * len <= 0xffff_ffff_ffff_ffff * 0xffff_ffff_ffff_ffff) by (nonlinear_arith)
        requires
            0 <= i <= 0xffff_ffff_ffff_ffff,
            0 <= len <= 0xffff_ffff_ffff_ffff,
    ;
}

/// The buckets part the values: the first begins at the start, each holds at
/// least one value and ends where the next begins, and the last ends at the end.
pub proof fn law_buckets_part_the_values(len: int, cols: int, i: int)
    requires
        0 < cols < len,
        0 <= i < cols,
    ensures
        bucket_start(len, cols, 0) == 0,
        bucket_start(len, cols, cols) == len,
        bucket_start(len, cols, i) < bucket_start(len, cols, i + 1),
{
    assert(0 * len / cols == 0) by (nonlinear_arith)
        requires
            0 < cols,
    ;
    assert(cols * len / cols == len) by (nonlinear_arith)
        requires
            0 < cols,
    ;
    assert(i * len / cols + 1 <= (i + 1) * len / cols) by (nonlinear_arith)
        requires
            0 < cols < len,
            0 <= i,
    ;
}

/// The extent a heatmap's grid spans, on both of its binned axes.
pub struct Bounds {
    pub xlo: Num,
    pub xhi: Num,
    pub ylo: Num,
    pub yhi: Num,
}

/// The ends of an axis: its range where one was given, else the spread of the
/// values, else nothing but zero.
pub open spec fn ends_of(values: Seq<NumV>, range: Option<(NumV, NumV)>) -> (NumV, NumV) {
    match range {
        Some(ends) => ends,
        None => if values.len() == 0 {
            (crate::field::zero(), crate::field::zero())
        } else {
            (lowest(values), highest(values))
        },
    }
}

fn axis_ends(values: &[Num], range: &AxisRange) -> (r: (Num, Num))
    ensures
        (r.0@, r.1@) == ends_of(nums(values@), range_view(*range)),
{
    match range {
        Some((lo, hi)) => (lo.clone(), hi.clone()),
        None => match minmax(values) {
            Some(ends) => ends,
            None => (
                Num { bits: 0, text: "0".to_string() },
                Num { bits: 0, text: "0".to_string() },
            ),
        },
    }
}

/// The first numbers of pairs.
pub open spec fn firsts(v: Seq<(Num, Num)>) -> Seq<NumV> {
    v.map_values(|p: (Num, Num)| p.0@)
}

/// The second numbers of pairs.
pub open spec fn seconds(v: Seq<(Num, Num)>) -> Seq<NumV> {
    v.map_values(|p: (Num, Num)| p.1@)
}

fn parted(points: &[(Num, Num)]) -> (r: (Vec<Num>, Vec<Num>))
    ensures
        nums(r.0@) == firsts(points@),
        nums(r.1@) == seconds(points@),
{
    let mut xs: Vec<Num> = Vec::new();
    let mut ys: Vec<Num> = Vec::new();
    let mut i: usize = 0;
    while i < points.len()
        invariant
            i <= points.len(),
            nums(xs@) == firsts(points@).take(i as int),
            nums(ys@) == seconds(points@).take(i as int),
        decreases points.len() - i,
    {
        let ghost (a, b) = (nums(xs@), nums(ys@));
        let p = &points[i];
        xs.push(p.0.clone());
        ys.push(p.1.clone());
        assert(nums(xs@) =~= a.push(points@[i as int].0@));
        assert(nums(ys@) =~= b.push(points@[i as int].1@));
        i += 1;
        assert(nums(xs@) =~= firsts(points@).take(i as int));
        assert(nums(ys@) =~= seconds(points@).take(i as int));
    }
    assert(firsts(points@).take(points@.len() as int) =~= firsts(points@));
    assert(seconds(points@).take(points@.len() as int) =~= seconds(points@));
    (xs, ys)
}

/// A 2-D density grid: how many points fall in each of `cols` × `rows` equal
/// cells over `[xlo, xhi]` × `[ylo, yhi]`. A scatter of millions of points is a
/// blob; binning it to the canvas keeps the chart O(canvas) whatever the input
/// size, and the count is what the cell is shaded by.
pub struct HeatData {
    /// The x column's name (the CSV header's first cell under `--data`).
    pub xname: String,
    /// The y column's name.
    pub yname: String,
    /// The lower edge of each column of cells.
    pub xedges: Vec<Num>,
    /// The lower edge of each row of cells.
    pub yedges: Vec<Num>,
    pub cols: usize,
    pub rows: usize,
    /// Row-major counts; row 0 is the lowest y band.
    pub counts: Vec<u64>,
    pub total: u64,
}

/// The cell of a grid that a point goes to, counted row by row.
pub open spec fn cell_index(cell: (usize, usize), cols: int, rows: int) -> int {
    bin_at(cell.1 as int, rows) * cols + bin_at(cell.0 as int, cols)
}

/// How many of the first `n` points go to a cell.
pub open spec fn heat_count(
    cells: Seq<(usize, usize)>,
    cols: int,
    rows: int,
    at: int,
    n: int,
) -> nat
    decreases n,
{
    if n <= 0 {
        0
    } else {
        heat_count(cells, cols, rows, at, n - 1) + if cell_index(cells[n - 1], cols, rows) == at {
            1nat
        } else {
            0nat
        }
    }
}

/// A dimension of a grid: at the least one band for a point to fall in.
pub open spec fn at_least_one(n: usize) -> int {
    if n == 0 {
        1
    } else {
        n as int
    }
}

proof fn lemma_cell_index(cell: (usize, usize), cols: int, rows: int)
    requires
        cols > 0,
        rows > 0,
    ensures
        0 <= cell_index(cell, cols, rows) < cols * rows,
        0 <= bin_at(cell.1 as int, rows) * cols,
{
    let (cx, cy) = (bin_at(cell.0 as int, cols), bin_at(cell.1 as int, rows));
    assert(0 <= cy * cols <= (rows - 1) * cols) by (nonlinear_arith)
        requires
            0 <= cy <= rows - 1,
            cols > 0,
    ;
    assert((rows - 1) * cols + cols == cols * rows) by (nonlinear_arith);
}

/// Row-major counts of the points falling in each of `cols` × `rows` cells,
/// where `cells` has the column and the row of the axes that each point lies at.
/// Row 0 is the lowest y band. A chart whose points were all dropped still gets a
/// grid of the right shape with nothing in it. A dimension of zero is treated as
/// one — a grid has to have a band for a point to fall in.
pub fn heat_counts(cells: &[(usize, usize)], cols: usize, rows: usize) -> (r: Vec<u64>)
    requires
        at_least_one(cols) * at_least_one(rows) <= usize::MAX,
    ensures
        r@.len() == at_least_one(cols) * at_least_one(rows),
        forall|at: int|
            0 <= at < r@.len() ==> #[trigger] r@[at] == heat_count(
                cells@,
                at_least_one(cols),
                at_least_one(rows),
                at,
                cells@.len() as int,
            ),
{
    let cols: usize = if cols == 0 {
        1
    } else {
        cols
    };
    let rows: usize = if rows == 0 {
        1
    } else {
        rows
    };
    let mut places: Vec<usize> = Vec::new();
    let mut i: usize = 0;
    assert(cols * rows > 0) by (nonlinear_arith)
        requires
            cols > 0,
            rows > 0,
    ;
    while i < cells.len()
        invariant
            i <= cells.len(),
            cols > 0,
            rows > 0,
            cols * rows <= usize::MAX,
            places@.len() == i,
            forall|k: int|
                0 <= k < i ==> #[trigger] places@[k] == cell_index(
                    cells@[k],
                    cols as int,
                    rows as int,
                ) && places@[k] < cols * rows,
        decreases cells.len() - i,
    {
        let (x, y) = cells[i];
        let cx: usize = if x < cols {
            x
        } else {
            cols - 1
        };
        let cy: usize = if y < rows {
            y
        } else {
            rows - 1
        };
        proof {
            lemma_cell_index(cells@[i as int], cols as int, rows as int);
        }
        places.push(cy * cols + cx);
        i += 1;
    }
    let r = count_bins(places.as_slice(), cols * rows);
    proof {
        assert forall|at: int| 0 <= at < r@.len() implies #[trigger] r@[at] == heat_count(
            cells@,
            cols as int,
            rows as int,
            at,
            cells@.len() as int,
        ) by {
            lemma_heat_bins(
                cells@,
                places@,
                cols as int,
                rows as int,
                at,
                cells@.len() as int,
            );
        }
    }
    r
}

proof fn lemma_heat_bins(
    cells: Seq<(usize, usize)>,
    places: Seq<usize>,
    cols: int,
    rows: int,
    at: int,
    n: int,
)
    requires
        0 <= n <= cells.len(),
        places.len() == cells.len(),
        forall|k: int|
            0 <= k < cells.len() ==> #[trigger] places[k] == cell_index(cells[k], cols, rows)
                && places[k] < cols * rows,
    ensures
        binned(places, cols * rows, at, n) == heat_count(cells, cols, rows, at, n),
    decreases n,
{
    if n > 0 {
        lemma_heat_bins(cells, places, cols, rows, at, n - 1);
        assert(places[n - 1] == cell_index(cells[n - 1], cols, rows));
    }
}

impl HeatData {
    /// The extent the grid spans: an explicit `xrange`/`yrange` where one was
    /// given (`-x`/`-y` *is* the axis, so it sets the bin spans and the points
    /// outside it are already clipped away), else the points' own spread on
    /// that axis. An axis with neither a range nor a point spans nothing and reads
    /// `(0, 0)`.
    pub fn bounds(points: &[(Num, Num)], xrange: &AxisRange, yrange: &AxisRange) -> (r: Bounds)
        ensures
            (r.xlo@, r.xhi@) == ends_of(firsts(points@), range_view(*xrange)),
            (r.ylo@, r.yhi@) == ends_of(seconds(points@), range_view(*yrange)),
    {
        let (xs, ys) = parted(points);
        let (xlo, xhi) = axis_ends(xs.as_slice(), xrange);
        let (ylo, yhi) = axis_ends(ys.as_slice(), yrange);
        Bounds { xlo, xhi, ylo, yhi }
    }

    /// Whether the grid has an edge and a count for each cell.
    pub open spec fn wf(self) -> bool {
        &&& self.cols > 0
        &&& self.xedges@.len() == self.cols
        &&& self.yedges@.len() == self.rows
        &&& self.counts@.len() == self.cols * self.rows
    }

    /// The lower edges of cell `i`'s x and y bands — the corner `--data` names
    /// the cell by.
    pub fn cell_lo(&self, i: usize) -> (r: (Num, Num))
        requires
            self.wf(),
            i < self.counts@.len(),
        ensures
            r.0@ == self.xedges@[i as int % self.cols as int]@,
            r.1@ == self.yedges@[i as int / self.cols as int]@,
    {
        proof {
            assert(i as int / (self.cols as int) < self.rows) by (nonlinear_arith)
                requires
                    0 <= i < self.cols * self.rows,
                    self.cols > 0,
            ;
        }
        (self.xedges[i % self.cols].clone(), self.yedges[i / self.cols].clone())
    }
}

/// What draws a heatmap, as far as its grid goes.
#[derive(Clone, Copy)]
pub enum Drawn {
    /// Nothing: `-D` writes the grid out.
    Data,
    /// An SVG with a plot area of that many pixels across and down.
    Svg(usize, usize),
    /// The terminal canvas.
    Terminal,
}

/// The columns and rows of a grid of cells, and what they were cut down to when
/// what was asked for was more: `-b`, or without it the canvas.
pub open spec fn grid_of(
    bins: Option<usize>,
    cols_fit: usize,
    rows_fit: usize,
    drawn: Drawn,
) -> (int, int, bool) {
    let (cols_max, rows_max) = match drawn {
        Drawn::Data => (MAX_CELLS, MAX_CELLS),
        Drawn::Svg(w, h) => (w, h),
        Drawn::Terminal => (cols_fit, rows_fit),
    };
    let (ask_c, ask_r) = match bins {
        Some(b) => (b, b),
        None => (cols_fit, rows_fit),
    };
    let cols = held(ask_c as int, 1, cols_max as int);
    let rows = held(ask_r as int, 1, rows_max as int);
    (cols, rows, cols < ask_c || rows < ask_r)
}

/// The grid a heatmap is counted into, and whether that is less than was asked
/// for. A grid is capped to whatever has to draw it: in the terminal it *is* the
/// canvas, so `-b N` cannot ask for more of it than the frame has; an SVG has no
/// cells but it does have pixels; `-D` draws nothing at all, so there `-b` stands
/// whole, up to the [`MAX_CELLS`] the flag itself carries.
pub fn heat_grid(bins: Option<usize>, cols_fit: usize, rows_fit: usize, drawn: Drawn) -> (r: (
    usize,
    usize,
    Option<(usize, usize)>,
))
    requires
        cols_fit > 0,
        rows_fit > 0,
        drawn matches Drawn::Svg(w, h) ==> w > 0 && h > 0,
    ensures
        ({
            let (cols, rows, cut) = grid_of(bins, cols_fit, rows_fit, drawn);
            &&& r.0 == cols
            &&& r.1 == rows
            &&& r.2 == (if cut {
                Some((r.0, r.1))
            } else {
                None
            })
        }),
{
    let (cols_max, rows_max): (usize, usize) = match drawn {
        Drawn::Data => (MAX_CELLS, MAX_CELLS),
        Drawn::Svg(w, h) => (w, h),
        Drawn::Terminal => (cols_fit, rows_fit),
    };
    let (ask_c, ask_r): (usize, usize) = match bins {
        Some(b) => (b, b),
        None => (cols_fit, rows_fit),
    };
    let cols = hold(ask_c, 1, cols_max);
    let rows = hold(ask_r, 1, rows_max);
    let cut = cols < ask_c || rows < ask_r;
    (
        cols,
        rows,
        if cut {
            Some((cols, rows))
        } else {
            None
        },
    )
}

/// A sparkline's values, already bucketed to the chart width.
pub struct SparkData {
    /// The charted column's name (the CSV value header under `--data`).
    pub name: String,
    /// The bucketed values, in the input's own units — a log axis maps them as
    /// they are drawn.
    pub values: Vec<Num>,
    /// An explicit value range (`-y`/`--yrange`): the levels scale to it
    /// instead of to the values' own min/max. Real units, like `values`.
    pub range: AxisRange,
}

impl SparkData {
    /// The value axis the levels scale to: an explicit `-y` range, else the
    /// values' own spread, else nothing at all. Real units, as the model keeps
    /// them; a log axis maps them at draw time.
    pub fn bounds(&self) -> (r: (Num, Num))
        ensures
            (r.0@, r.1@) == ends_of(nums(self.values@), range_view(self.range)),
    {
        axis_ends(self.values.as_slice(), &self.range)
    }
}

/// One chart's data, by kind.
pub enum ChartData {
    /// `None` when no value was numeric.
    Hist(Option<HistData>),
    Bar(BarData),
    Spark(SparkData),
    Xy(XyData),
    /// Always present, empty (`total == 0`) when no point survived.
    Heat(HeatData),
}

/// A cell for a value that a chart may have none for, which is blank then.
pub open spec fn cell_of(v: Option<NumV>) -> FieldV {
    match v {
        Some(n) => FieldV::Num(n),
        None => FieldV::Str(seq![]),
    }
}

/// A header line: a first name and the others.
pub open spec fn header_of(first: Seq<char>, names: Seq<Seq<char>>) -> Seq<FieldV> {
    seq![FieldV::Str(first)] + names.map_values(|n: Seq<char>| FieldV::Str(n))
}

/// A line of a label and values.
pub open spec fn labelled(label: Seq<char>, values: Seq<Option<NumV>>) -> Seq<FieldV> {
    seq![FieldV::Str(label)] + values.map_values(|v: Option<NumV>| cell_of(v))
}

/// The lines of the first `n` bins.
pub open spec fn hist_lines(h: HistData, n: int) -> Seq<Seq<FieldV>>
    decreases n,
{
    if n <= 0 {
        seq![]
    } else {
        hist_lines(h, n - 1).push(
            seq![
                FieldV::Num(h.edge_at(n - 1)),
                FieldV::Num(h.edge_at(n)),
                FieldV::Num(whole_view(h.counts@[n - 1] as nat)),
            ],
        )
    }
}

/// The lines of the first `n` cells, without the empty ones.
pub open spec fn heat_lines(h: HeatData, n: int) -> Seq<Seq<FieldV>>
    decreases n,
{
    if n <= 0 {
        seq![]
    } else if h.counts@[n - 1] == 0 {
        heat_lines(h, n - 1)
    } else {
        heat_lines(h, n - 1).push(
            seq![
                FieldV::Num(h.xedges@[(n - 1) % h.cols as int]@),
                FieldV::Num(h.yedges@[(n - 1) / h.cols as int]@),
                FieldV::Num(whole_view(h.counts@[n - 1] as nat)),
            ],
        )
    }
}

/// The chart's reduced data as lines, the header first.
pub open spec fn csv_lines(data: ChartData) -> Seq<Seq<FieldV>> {
    match data {
        ChartData::Hist(h) => seq![
            seq![FieldV::Str("bin_lo"@), FieldV::Str("bin_hi"@), FieldV::Str("count"@)],
        ] + (match h {
            Some(h) => hist_lines(h, h.counts@.len() as int),
            None => seq![],
        }),
        ChartData::Bar(b) => seq![header_of(b.label_name@, texts(b.value_names@))] + bar_rows(
            b.rows@,
        ).map_values(|r: BarRowV| labelled(r.0, r.1)),
        ChartData::Spark(s) => seq![seq![FieldV::Str("bucket"@), FieldV::Str(s.name@)]]
            + spark_lines(s.values@),
        ChartData::Heat(h) => seq![
            seq![FieldV::Str(h.xname@), FieldV::Str(h.yname@), FieldV::Str("count"@)],
        ] + heat_lines(h, h.counts@.len() as int),
        ChartData::Xy(xy) => seq![header_of(xy.xname@, texts(xy.names@))] + xy_rows(
            xy.rows@,
        ).map_values(|r: XyRowV| labelled(r.xcell, r.ys)),
    }
}

/// Whether the data's parts fit together.
pub open spec fn data_wf(data: ChartData) -> bool {
    match data {
        ChartData::Hist(Some(h)) => h.wf(),
        ChartData::Heat(h) => h.wf(),
        _ => true,
    }
}

fn text_cell(s: &str) -> (r: Field)
    ensures
        r@ == FieldV::Str(s@),
{
    Field::Str(s.to_string())
}

fn push_row(rows: &mut Vec<Row>, row: Row)
    ensures
        rows_view(final(rows)@) == rows_view(old(rows)@).push(row_view(row@)),
{
    let ghost before = rows_view(rows@);
    rows.push(row);
    assert(rows_view(rows@) =~= before.push(row_view(row@)));
}

fn row_of_three(a: Field, b: Field, c: Field) -> (r: Row)
    ensures
        row_view(r@) == seq![a@, b@, c@],
{
    let mut r: Row = Vec::new();
    r.push(a);
    r.push(b);
    r.push(c);
    assert(row_view(r@) =~= seq![a@, b@, c@]);
    r
}

fn header_row(first: &str, names: &Vec<String>) -> (r: Row)
    ensures
        row_view(r@) == header_of(first@, texts(names@)),
{
    let ghost all = header_of(first@, texts(names@));
    let mut r: Row = Vec::new();
    r.push(text_cell(first));
    let mut i: usize = 0;
    assert(row_view(r@) =~= all.take(1));
    while i < names.len()
        invariant
            i <= names.len(),
            all == header_of(first@, texts(names@)),
            row_view(r@) == all.take(i + 1),
        decreases names.len() - i,
    {
        let ghost before = row_view(r@);
        r.push(text_cell(names[i].as_str()));
        assert(texts(names@)[i as int] == names@[i as int]@);
        assert(row_view(r@) =~= before.push(FieldV::Str(names@[i as int]@)));
        i += 1;
        assert(row_view(r@) =~= all.take(i + 1));
    }
    assert(all.take(all.len() as int) =~= all);
    r
}

fn labelled_row(label: &str, values: &Vec<Option<Num>>) -> (r: Row)
    ensures
        row_view(r@) == labelled(label@, opt_nums(values@)),
{
    let ghost all = labelled(label@, opt_nums(values@));
    let mut r: Row = Vec::new();
    r.push(text_cell(label));
    let mut i: usize = 0;
    assert(row_view(r@) =~= all.take(1));
    while i < values.len()
        invariant
            i <= values.len(),
            all == labelled(label@, opt_nums(values@)),
            row_view(r@) == all.take(i + 1),
        decreases values.len() - i,
    {
        let ghost before = row_view(r@);
        assert(opt_nums(values@)[i as int] == opt_num(values@[i as int]));
        let cell = match &values[i] {
            Some(n) => Field::Num(n.clone()),
            None => {
                let blank = Field::Str(String::new());
                assert(blank@ == FieldV::Str(seq![])) by {
                    assert(blank->Str_0@ =~= seq![]);
                }
                blank
            },
        };
        assert(cell@ == cell_of(opt_num(values@[i as int])));
        r.push(cell);
        assert(row_view(r@) =~= before.push(cell@));
        i += 1;
        assert(row_view(r@) =~= all.take(i + 1));
    }
    assert(all.take(all.len() as int) =~= all);
    r
}

fn hist_csv(rows: &mut Vec<Row>, h: &HistData)
    requires
        h.wf(),
    ensures
        rows_view(final(rows)@) == rows_view(old(rows)@) + hist_lines(*h, h.counts@.len() as int),
{
    let ghost start = rows_view(rows@);
    let mut i: usize = 0;
    assert(rows_view(rows@) =~= start + hist_lines(*h, 0));
    while i < h.counts.len()
        invariant
            i <= h.counts.len(),
            h.wf(),
            rows_view(rows@) == start + hist_lines(*h, i as int),
        decreases h.counts.len() - i,
    {
        let row = row_of_three(
            Field::Num(h.edge(i)),
            Field::Num(h.edge(i + 1)),
            Field::Num(whole_num(h.counts[i])),
        );
        push_row(rows, row);
        i += 1;
        assert(rows_view(rows@) =~= start + hist_lines(*h, i as int));
    }
}

fn heat_csv(rows: &mut Vec<Row>, h: &HeatData)
    requires
        h.wf(),
    ensures
        rows_view(final(rows)@) == rows_view(old(rows)@) + heat_lines(*h, h.counts@.len() as int),
{
    let ghost start = rows_view(rows@);
    let mut i: usize = 0;
    assert(rows_view(rows@) =~= start + heat_lines(*h, 0));
    while i < h.counts.len()
        invariant
            i <= h.counts.len(),
            h.wf(),
            rows_view(rows@) == start + heat_lines(*h, i as int),
        decreases h.counts.len() - i,
    {
        let count: u64 = h.counts[i];
        if count != 0 {
            let (x, y) = h.cell_lo(i);
            let row = row_of_three(Field::Num(x), Field::Num(y), Field::Num(whole_num(count)));
            push_row(rows, row);
        }
        i += 1;
        assert(rows_view(rows@) =~= start + heat_lines(*h, i as int));
    }
}

fn bar_csv(rows: &mut Vec<Row>, bars: &Vec<BarRow>)
    ensures
        rows_view(final(rows)@) == rows_view(old(rows)@) + bar_rows(bars@).map_values(
            |r: BarRowV| labelled(r.0, r.1),
        ),
{
    let ghost start = rows_view(rows@);
    let ghost all = bar_rows(bars@).map_values(|r: BarRowV| labelled(r.0, r.1));
    let mut i: usize = 0;
    assert(rows_view(rows@) =~= start + all.take(0));
    while i < bars.len()
        invariant
            i <= bars.len(),
            all == bar_rows(bars@).map_values(|r: BarRowV| labelled(r.0, r.1)),
            rows_view(rows@) == start + all.take(i as int),
        decreases bars.len() - i,
    {
        let bar = &bars[i];
        push_row(rows, labelled_row(bar.0.as_str(), &bar.1));
        assert(all[i as int] == labelled(bar.0@, opt_nums(bar.1@)));
        i += 1;
        assert(rows_view(rows@) =~= start + all.take(i as int));
    }
    assert(all.take(all.len() as int) =~= all);
}

fn xy_csv(rows: &mut Vec<Row>, points: &Vec<XyRow>)
    ensures
        rows_view(final(rows)@) == rows_view(old(rows)@) + xy_rows(points@).map_values(
            |r: XyRowV| labelled(r.xcell, r.ys),
        ),
{
    let ghost start = rows_view(rows@);
    let ghost all = xy_rows(points@).map_values(|r: XyRowV| labelled(r.xcell, r.ys));
    let mut i: usize = 0;
    assert(rows_view(rows@) =~= start + all.take(0));
    while i < points.len()
        invariant
            i <= points.len(),
            all == xy_rows(points@).map_values(|r: XyRowV| labelled(r.xcell, r.ys)),
            rows_view(rows@) == start + all.take(i as int),
        decreases points.len() - i,
    {
        let point = &points[i];
        push_row(rows, labelled_row(point.xcell.as_str(), &point.ys));
        assert(all[i as int] == labelled(point.xcell@, opt_nums(point.ys@)));
        i += 1;
        assert(rows_view(rows@) =~= start + all.take(i as int));
    }
    assert(all.take(all.len() as int) =~= all);
}

fn row_of_two(a: Field, b: Field) -> (r: Row)
    ensures
        row_view(r@) == seq![a@, b@],
{
    let mut r: Row = Vec::new();
    r.push(a);
    r.push(b);
    assert(row_view(r@) =~= seq![a@, b@]);
    r
}

/// The lines of a sparkline's values.
pub open spec fn spark_lines(values: Seq<Num>) -> Seq<Seq<FieldV>> {
    Seq::new(
        values.len(),
        |i: int| seq![FieldV::Num(whole_view((i + 1) as nat)), FieldV::Num(values[i]@)],
    )
}

fn spark_csv(rows: &mut Vec<Row>, values: &Vec<Num>)
    ensures
        rows_view(final(rows)@) == rows_view(old(rows)@) + spark_lines(values@),
{
    let ghost start = rows_view(rows@);
    let ghost all = spark_lines(values@);
    let mut i: usize = 0;
    assert(rows_view(rows@) =~= start + all.take(0));
    while i < values.len()
        invariant
            i <= values.len(),
            all == spark_lines(values@),
            rows_view(rows@) == start + all.take(i as int),
        decreases values.len() - i,
    {
        let row = row_of_two(
            Field::Num(whole_num((i + 1) as u64)),
            Field::Num(values[i].clone()),
        );
        push_row(rows, row);
        i += 1;
        assert(rows_view(rows@) =~= start + all.take(i as int));
    }
    assert(all.take(all.len() as int) =~= all);
}

/// The chart's reduced data as CSV (header first), for `--data`: the bins,
/// bars or points a chart would have drawn, written as rows instead. The model
/// holds real values whatever the axis is (a log axis maps them at draw time),
/// so the numbers here are the ones that came out of the pipeline.
pub fn to_csv(data: &ChartData) -> (r: String)
    requires
        data_wf(*data),
    ensures
        r@ == rows_text(csv_lines(*data)),
{
    let mut rows: Vec<Row> = Vec::new();
    assert(rows_view(rows@) =~= seq![]);
    match data {
        ChartData::Hist(h) => {
            push_row(
                &mut rows,
                row_of_three(text_cell("bin_lo"), text_cell("bin_hi"), text_cell("count")),
            );
            match h {
                Some(h) => {
                    hist_csv(&mut rows, h);
                },
                None => {},
            }
        },
        ChartData::Bar(b) => {
            push_row(&mut rows, header_row(b.label_name.as_str(), &b.value_names));
            bar_csv(&mut rows, &b.rows);
        },
        ChartData::Spark(s) => {
            push_row(&mut rows, row_of_two(text_cell("bucket"), text_cell(s.name.as_str())));
            spark_csv(&mut rows, &s.values);
        },
        ChartData::Heat(h) => {
            push_row(
                &mut rows,
                row_of_three(
                    text_cell(h.xname.as_str()),
                    text_cell(h.yname.as_str()),
                    text_cell("count"),
                ),
            );
            heat_csv(&mut rows, h);
        },
        ChartData::Xy(xy) => {
            push_row(&mut rows, header_row(xy.xname.as_str(), &xy.names));
            xy_csv(&mut rows, &xy.rows);
        },
    }
    assert(rows_view(rows@) =~= csv_lines(*data));
    write_rows(rows.as_slice())
}

/// The values of a row that there are.
pub open spec fn present_nums(ys: Seq<Option<NumV>>) -> Seq<NumV>
    decreases ys.len(),
{
    if ys.len() == 0 {
        seq![]
    } else {
        match ys.last() {
            Some(y) => present_nums(ys.drop_last()).push(y),
            None => present_nums(ys.drop_last()),
        }
    }
}

/// The x of each point of rows, the points of a row after one another.
pub open spec fn point_xs(rows: Seq<XyRowV>) -> Seq<NumV>
    decreases rows.len(),
{
    if rows.len() == 0 {
        seq![]
    } else {
        point_xs(rows.drop_last()) + Seq::new(
            present_nums(rows.last().ys).len(),
            |i: int| rows.last().x,
        )
    }
}

/// The y of each point of rows.
pub open spec fn point_ys(rows: Seq<XyRowV>) -> Seq<NumV>
    decreases rows.len(),
{
    if rows.len() == 0 {
        seq![]
    } else {
        point_ys(rows.drop_last()) + present_nums(rows.last().ys)
    }
}

/// The two infinities, in the order in which an empty spread has them.
pub open spec fn no_extent() -> (NumV, NumV) {
    (
        NumV { bits: 0x7ff0_0000_0000_0000, text: "inf"@ },
        NumV { bits: 0xfff0_0000_0000_0000, text: "-inf"@ },
    )
}

/// The extent of an axis: its range where one was given, else the spread of the
/// values, which is empty where there are none.
pub open spec fn extent_of(values: Seq<NumV>, range: Option<(NumV, NumV)>) -> (NumV, NumV) {
    match range {
        Some(ends) => ends,
        None => if values.len() == 0 {
            no_extent()
        } else {
            (lowest(values), highest(values))
        },
    }
}

fn extent(values: &[Num], range: &AxisRange) -> (r: (Num, Num))
    ensures
        (r.0@, r.1@) == extent_of(nums(values@), range_view(*range)),
{
    match range {
        Some((lo, hi)) => (lo.clone(), hi.clone()),
        None => match minmax(values) {
            Some(ends) => ends,
            None => (
                Num { bits: 0x7ff0_0000_0000_0000, text: "inf".to_string() },
                Num { bits: 0xfff0_0000_0000_0000, text: "-inf".to_string() },
            ),
        },
    }
}

fn push_present(xs: &mut Vec<Num>, ys: &mut Vec<Num>, row: &XyRow)
    ensures
        nums(final(xs)@) == nums(old(xs)@) + Seq::new(
            present_nums(row@.ys).len(),
            |i: int| row@.x,
        ),
        nums(final(ys)@) == nums(old(ys)@) + present_nums(row@.ys),
{
    let ghost (a, b) = (nums(xs@), nums(ys@));
    let ghost all = row@.ys;
    let mut i: usize = 0;
    assert(nums(xs@) =~= a + Seq::new(present_nums(all.take(0)).len(), |i: int| row@.x));
    assert(nums(ys@) =~= b + present_nums(all.take(0)));
    while i < row.ys.len()
        invariant
            i <= row.ys.len(),
            all == row@.ys,
            nums(xs@) == a + Seq::new(present_nums(all.take(i as int)).len(), |i: int| row@.x),
            nums(ys@) == b + present_nums(all.take(i as int)),
        decreases row.ys.len() - i,
    {
        assert(all.take(i + 1).drop_last() =~= all.take(i as int));
        assert(all.take(i + 1).last() == opt_num(row.ys@[i as int]));
        match &row.ys[i] {
            Some(y) => {
                let ghost (c, d) = (nums(xs@), nums(ys@));
                xs.push(row.x.clone());
                ys.push(y.clone());
                assert(nums(xs@) =~= c.push(row@.x));
                assert(nums(ys@) =~= d.push(y@));
                assert(nums(xs@) =~= a + Seq::new(
                    present_nums(all.take(i + 1)).len(),
                    |i: int| row@.x,
                ));
                assert(nums(ys@) =~= b + present_nums(all.take(i + 1)));
            },
            None => {},
        }
        i += 1;
    }
    assert(all.take(all.len() as int) =~= all);
}

impl XyData {
    /// The chart's extent, `(xlo, xhi, ylo, yhi)` over the plotted points, with
    /// an explicit `-x`/`-y` range in place of the points' own spread on that
    /// axis — a range *is* the axis. The ys are real, as the model keeps them;
    /// a log axis maps them at draw time. A chart with no point has no extent,
    /// and the empty fold's infinities come back for the renderers to read as
    /// "nothing to draw".
    pub fn bounds(&self) -> (r: (Num, Num, Num, Num))
        ensures
            (r.0@, r.1@) == extent_of(point_xs(xy_rows(self.rows@)), range_view(self.xrange)),
            (r.2@, r.3@) == extent_of(point_ys(xy_rows(self.rows@)), range_view(self.yrange)),
    {
        let ghost all = xy_rows(self.rows@);
        let mut xs: Vec<Num> = Vec::new();
        let mut ys: Vec<Num> = Vec::new();
        let mut i: usize = 0;
        assert(nums(xs@) =~= point_xs(all.take(0)));
        assert(nums(ys@) =~= point_ys(all.take(0)));
        while i < self.rows.len()
            invariant
                i <= self.rows.len(),
                all == xy_rows(self.rows@),
                nums(xs@) == point_xs(all.take(i as int)),
                nums(ys@) == point_ys(all.take(i as int)),
            decreases self.rows.len() - i,
        {
            assert(all.take(i + 1).drop_last() =~= all.take(i as int));
            assert(all.take(i + 1).last() == self.rows@[i as int]@);
            push_present(&mut xs, &mut ys, &self.rows[i]);
            i += 1;
        }
        assert(all.take(all.len() as int) =~= all);
        let (xlo, xhi) = extent(xs.as_slice(), &self.xrange);
        let (ylo, yhi) = extent(ys.as_slice(), &self.yrange);
        (xlo, xhi, ylo, yhi)
    }

    /// The ends of the `-c/--color-by` ramp: the lowest and highest colour
    /// value over the plotted points, or `None` when no plotted point carried
    /// one. One derivation for both renderers, so a point's colour does not
    /// depend on which of them drew it.
    pub fn color_bounds(&self) -> (r: Option<(Num, Num)>)
        ensures
            range_view(r) == ({
                let colors = present_nums(
                    colors_of(xy_rows(self.rows@), self.rows@.len() as int),
                );
                if colors.len() == 0 {
                    None
                } else {
                    Some((lowest(colors), highest(colors)))
                }
            }),
    {
        let colors = self.color_values();
        let ghost all = opt_nums(colors@);
        let mut values: Vec<Num> = Vec::new();
        let mut i: usize = 0;
        assert(nums(values@) =~= present_nums(all.take(0)));
        while i < colors.len()
            invariant
                i <= colors.len(),
                all == opt_nums(colors@),
                nums(values@) == present_nums(all.take(i as int)),
            decreases colors.len() - i,
        {
            assert(all.take(i + 1).drop_last() =~= all.take(i as int));
            assert(all.take(i + 1).last() == opt_num(colors@[i as int]));
            match &colors[i] {
                Some(c) => {
                    let ghost before = nums(values@);
                    values.push(c.clone());
                    assert(nums(values@) =~= before.push(c@));
                },
                None => {},
            }
            i += 1;
        }
        assert(all.take(all.len() as int) =~= all);
        assert(nums(values@).len() == values@.len());
        minmax(values.as_slice())
    }
}

/// Where a bar of value `v` is drawn on the value axis: `v` itself, or its
/// log10, which is handed in, on a log axis — `None` for a value a log axis
/// cannot place.
pub fn bar_value(v: &Num, log: bool, log10: &Num) -> (r: Option<Num>)
    ensures
        opt_num(r) == (if !log {
            Some(v@)
        } else if positive(v.bits) {
            Some(log10@)
        } else {
            None
        }),
{
    if !log {
        return Some(v.clone());
    }
    match rank_bits(v.bits, 0) {
        Rank::After => Some(log10.clone()),
        _ => None,
    }
}

impl BarData {
    /// The value axis the bars are drawn against, in axis units: an explicit `-y`
    /// axis, else a baseline at 0 stretched over the values `drawn`, so the bars of
    /// a group read against one scale. A value a log axis cannot place has no bar
    /// and so no say in the bounds.
    pub fn axis_bounds(axis: &AxisRange, drawn: &[Num]) -> (r: (Num, Num))
        ensures
            (r.0@, r.1@) == (match range_view(*axis) {
                Some(ends) => ends,
                None => {
                    let values = seq![crate::field::zero()] + nums(drawn@);
                    (lowest(values), highest(values))
                },
            }),
    {
        let mut values: Vec<Num> = Vec::new();
        values.push(Num { bits: 0, text: "0".to_string() });
        let mut i: usize = 0;
        let ghost all = seq![crate::field::zero()] + nums(drawn@);
        assert(nums(values@) =~= all.take(1));
        while i < drawn.len()
            invariant
                i <= drawn.len(),
                all == seq![crate::field::zero()] + nums(drawn@),
                nums(values@) == all.take(i + 1),
            decreases drawn.len() - i,
        {
            let ghost before = nums(values@);
            values.push(drawn[i].clone());
            assert(nums(values@) =~= before.push(drawn@[i as int]@));
            i += 1;
            assert(nums(values@) =~= all.take(i + 1));
        }
        assert(all.take(all.len() as int) =~= all);
        match axis {
            Some((lo, hi)) => (lo.clone(), hi.clone()),
            None => axis_ends(values.as_slice(), &None),
        }
    }
}

} // verus!
