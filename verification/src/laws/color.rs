//! What `color` paints, and with what.

use crate::color::{
    Color, ONE, Ramp, Rgb, Style, base_name, base_of, base_rgb, hex2, hex_digit, hex_of, layered,
    plain_style, ramp_of, style_of, with_part, with_parts,
};
use crate::field::{NumV, Rank, is_nan, place, rank, text_row};
use crate::laws::select::says_yes;
use crate::plan::{BoolExpr, ColRef, ColorRule, ColorScope, Literal};
use crate::render::{INF, NEG_INF, cell_num, cell_style, column_bounds, column_high, column_low};
use crate::text::{decimal, joined, lemma_next_of, lemma_split_joined, next_of, trimmed};
use vstd::prelude::*;

verus! {

/// The header is never painted.
pub proof fn law_the_header_is_never_painted(
    rules: Seq<ColorRule>,
    rows: Seq<Seq<Seq<char>>>,
    readings: Map<Seq<char>, NumV>,
    mixes: Seq<Vec<(u64, Rgb)>>,
    c: int,
    k: int,
)
    ensures
        cell_style(rules, rows, readings, mixes, 0, c, k) == plain_style(),
        cell_style(rules, rows, readings, mixes, 1, c, 0) == plain_style(),
{
}

/// The colour that shows: the later one where there is one.
pub open spec fn shows(below: Option<Color>, above: Option<Color>) -> Option<Color> {
    if above is Some {
        above
    } else {
        below
    }
}

/// A condition paints the cells it is about, of the rows it holds on, over what the rules
/// before it painted: its colours show, what they leave open stays, and attributes add
/// up. Elsewhere it changes nothing.
pub proof fn law_a_condition_paints_where_it_holds(
    rules: Seq<ColorRule>,
    rows: Seq<Seq<Seq<char>>>,
    readings: Map<Seq<char>, NumV>,
    mixes: Seq<Vec<(u64, Rgb)>>,
    r: int,
    c: int,
    k: int,
    scope: ColorScope,
    style: Style,
    expr: BoolExpr,
)
    requires
        r > 0,
        0 <= k < rules.len(),
        rules[k] == (ColorRule::Predicate { scope, style, expr }),
    ensures
        ({
            let old = cell_style(rules, rows, readings, mixes, r, c, k);
            let new = cell_style(rules, rows, readings, mixes, r, c, k + 1);
            let here = says_yes(expr, text_row(rows[r]), readings) && (scope matches ColorScope::Cell(
                col,
            ) ==> col.pos == c);
            if here {
                &&& new.fg == shows(old.fg, style.fg)
                &&& new.bg == shows(old.bg, style.bg)
                &&& new.bold == (old.bold || style.bold)
                &&& new.dim == (old.dim || style.dim)
                &&& new.underline == (old.underline || style.underline)
            } else {
                new == old
            }
        }),
{
}

/// A gradient paints the numbers of its column in the colour of its ramp, over what the
/// rules before it painted, and nothing else.
pub proof fn law_a_gradient_paints_the_numbers_of_its_column(
    rules: Seq<ColorRule>,
    rows: Seq<Seq<Seq<char>>>,
    readings: Map<Seq<char>, NumV>,
    mixes: Seq<Vec<(u64, Rgb)>>,
    r: int,
    c: int,
    k: int,
    col: ColRef,
    ramp: Ramp,
    bounds: Option<(Literal, Literal)>,
)
    requires
        0 < r < rows.len(),
        0 <= c,
        0 <= k < rules.len(),
        rules[k] == (ColorRule::Gradient { col, ramp, bounds }),
        k < mixes.len(),
        r < mixes[k]@.len(),
    ensures
        ({
            let old = cell_style(rules, rows, readings, mixes, r, c, k);
            let new = cell_style(rules, rows, readings, mixes, r, c, k + 1);
            let ends = match bounds {
                Some((a, b)) => (a.num.bits, b.num.bits),
                None => column_bounds(rows, c, readings),
            };
            let (t, between) = mixes[k]@[r];
            if col.pos == c && c < rows[r].len() && trimmed(rows[r][c]).len() > 0
                && readings.dom().contains(trimmed(rows[r][c])) {
                &&& new.fg == Some(Color::Rgb(ramp.color_at(ends.0, ends.1, t, between)))
                &&& new == (Style { fg: new.fg, ..old })
            } else {
                new == old
            }
        }),
{
}

/// A ramp has its low colour at the low bound and below it, its high colour at the high
/// bound and above it, and the mixed colour in between; between equal bounds it has its
/// low colour.
pub proof fn law_a_ramp_runs_from_end_to_end(ramp: Ramp, lo: u64, hi: u64, t: u64, between: Rgb)
    requires
        !is_nan(lo) && !is_nan(hi) && !is_nan(t),
    ensures
        place(lo) == place(hi) ==> ramp.color_at(lo, hi, t, between) == ramp.lo,
        place(lo) != place(hi) ==> {
            let at = ramp.color_at(lo, hi, t, between);
            &&& place(t) <= 0 ==> at == ramp.lo
            &&& place(t) >= 0x3ff0_0000_0000_0000 ==> at == ramp.hi
            &&& 0 < place(t) < 0x3ff0_0000_0000_0000 ==> at == between
        },
{
    assert(place(0) == 0);
    assert(place(ONE) == 0x3ff0_0000_0000_0000);
}

/// Whether the cell has a number, and it is that one.
pub open spec fn number_at(
    rows: Seq<Seq<Seq<char>>>,
    r: int,
    c: int,
    readings: Map<Seq<char>, NumV>,
    n: NumV,
) -> bool {
    &&& 1 <= r < rows.len()
    &&& 0 <= c < rows[r].len()
    &&& trimmed(rows[r][c]).len() > 0
    &&& readings.dom().contains(trimmed(rows[r][c]))
    &&& readings[trimmed(rows[r][c])] == n
    &&& !is_nan(n.bits)
}

proof fn lemma_low(
    rows: Seq<Seq<Seq<char>>>,
    c: int,
    readings: Map<Seq<char>, NumV>,
    n: int,
)
    requires
        0 <= n <= rows.len(),
    ensures
        !is_nan(column_low(rows, c, readings, n)),
        place(column_low(rows, c, readings, n)) <= place(INF),
        forall|r: int, v: NumV|
            #[trigger] number_at(rows, r, c, readings, v) && r < n ==> place(
                column_low(rows, c, readings, n),
            ) <= place(v.bits),
        column_low(rows, c, readings, n) != INF ==> exists|r: int, v: NumV|
            #[trigger] number_at(rows, r, c, readings, v) && r < n && v.bits == column_low(
                rows,
                c,
                readings,
                n,
            ),
    decreases n,
{
    assert(place(INF) == 0x7ff0_0000_0000_0000);
    if n > 1 {
        lemma_low(rows, c, readings, n - 1);
        let before = column_low(rows, c, readings, n - 1);
        if let Some(v) = cell_num(rows, n - 1, c, readings) {
            if rank(v.bits, before) == Rank::Before {
                assert(number_at(rows, n - 1, c, readings, v));
            }
        }
        assert forall|r: int, v: NumV|
            #[trigger] number_at(rows, r, c, readings, v) && r < n implies place(
            column_low(rows, c, readings, n),
        ) <= place(v.bits) by {
            if r == n - 1 {
                assert(cell_num(rows, n - 1, c, readings) == Some(v));
            }
        }
    } else {
        assert forall|r: int, v: NumV|
            #[trigger] number_at(rows, r, c, readings, v) && r < n implies place(
            column_low(rows, c, readings, n),
        ) <= place(v.bits) by {}
    }
}

proof fn lemma_high(
    rows: Seq<Seq<Seq<char>>>,
    c: int,
    readings: Map<Seq<char>, NumV>,
    n: int,
)
    requires
        0 <= n <= rows.len(),
    ensures
        !is_nan(column_high(rows, c, readings, n)),
        place(column_high(rows, c, readings, n)) >= place(NEG_INF),
        forall|r: int, v: NumV|
            #[trigger] number_at(rows, r, c, readings, v) && r < n ==> place(
                column_high(rows, c, readings, n),
            ) >= place(v.bits),
        column_high(rows, c, readings, n) != NEG_INF ==> exists|r: int, v: NumV|
            #[trigger] number_at(rows, r, c, readings, v) && r < n && v.bits == column_high(
                rows,
                c,
                readings,
                n,
            ),
    decreases n,
{
    assert(place(NEG_INF) == -0x7ff0_0000_0000_0000);
    if n > 1 {
        lemma_high(rows, c, readings, n - 1);
        let before = column_high(rows, c, readings, n - 1);
        if let Some(v) = cell_num(rows, n - 1, c, readings) {
            if rank(v.bits, before) == Rank::After {
                assert(number_at(rows, n - 1, c, readings, v));
            }
        }
        assert forall|r: int, v: NumV|
            #[trigger] number_at(rows, r, c, readings, v) && r < n implies place(
            column_high(rows, c, readings, n),
        ) >= place(v.bits) by {
            if r == n - 1 {
                assert(cell_num(rows, n - 1, c, readings) == Some(v));
            }
        }
    } else {
        assert forall|r: int, v: NumV|
            #[trigger] number_at(rows, r, c, readings, v) && r < n implies place(
            column_high(rows, c, readings, n),
        ) >= place(v.bits) by {}
    }
}

/// Without bounds of its own a gradient runs from the least to the greatest number of its
/// column, the header apart: no number of the column is outside, and both are numbers of
/// it.
pub proof fn law_a_gradient_spans_its_column(
    rows: Seq<Seq<Seq<char>>>,
    c: int,
    readings: Map<Seq<char>, NumV>,
    r: int,
    v: NumV,
)
    requires
        number_at(rows, r, c, readings, v),
    ensures
        ({
            let (lo, hi) = column_bounds(rows, c, readings);
            &&& place(lo) <= place(v.bits) <= place(hi)
            &&& lo == INF || exists|i: int, n: NumV|
                #[trigger] number_at(rows, i, c, readings, n) && n.bits == lo
            &&& hi == NEG_INF || exists|i: int, n: NumV|
                #[trigger] number_at(rows, i, c, readings, n) && n.bits == hi
        }),
{
    let n = rows.len() as int;
    lemma_low(rows, c, readings, n);
    lemma_high(rows, c, readings, n);
}

/// Each part of a colour spec sets one thing: an attribute, the background, or the colour
/// of the text.
pub proof fn law_a_part_sets_one_thing(spec: Seq<char>, name: Seq<char>, style: Style, i: u8)
    requires
        base_of(name) == Some(i),
    ensures
        with_part(spec, "bold"@, style) == Ok::<Style, Seq<char>>(Style { bold: true, ..style }),
        with_part(spec, "dim"@, style) == Ok::<Style, Seq<char>>(Style { dim: true, ..style }),
        with_part(spec, "underline"@, style) == Ok::<Style, Seq<char>>(
            Style { underline: true, ..style },
        ),
        with_part(spec, name, style) == Ok::<Style, Seq<char>>(
            Style { fg: Some(Color::Base(i)), ..style },
        ),
        with_part(spec, "bg:"@ + name, style) == Ok::<Style, Seq<char>>(
            Style { bg: Some(Color::Base(i)), ..style },
        ),
        i <= 8 && (name == base_name(i as int) || (i == 8 && name == "grey"@)),
{
    reveal_strlit("bold");
    reveal_strlit("dim");
    reveal_strlit("underline");
    reveal_strlit("bg:");
    reveal_strlit("black");
    reveal_strlit("red");
    reveal_strlit("green");
    reveal_strlit("yellow");
    reveal_strlit("blue");
    reveal_strlit("magenta");
    reveal_strlit("cyan");
    reveal_strlit("white");
    reveal_strlit("gray");
    reveal_strlit("grey");
    let bg = "bg:"@ + name;
    assert("dim"@.len() == 3 && "bold"@.len() == 4 && "underline"@.len() == 9);
    assert("dim"@[0] == 'd' && "bold"@[0] == 'b' && "bold"@[1] == 'o' && "underline"@[0] == 'u');
    assert(bg[0] == 'b' && bg[1] == 'g' && bg[2] == ':');
    assert(name.len() > 0);
    assert(name[0] != 'u' && name[0] != 'd');
    assert(name[0] == 'b' ==> name[1] == 'l');
    assert(name[1] != 'g');
    assert(bg.skip(3) =~= name);
    assert(bg.take(3) =~= "bg:"@);
    assert(!crate::text::starts_with(name, "bg:"@)) by {
        if crate::text::starts_with(name, "bg:"@) {
            assert(name.take(3)[1] == name[1]);
        }
    }
}

proof fn lemma_part_layers(spec: Seq<char>, part: Seq<char>, style: Style)
    ensures
        match with_part(spec, part, plain_style()) {
            Ok(s) => with_part(spec, part, style) == Ok::<Style, Seq<char>>(layered(style, s)),
            Err(e) => with_part(spec, part, style) == Err::<Style, Seq<char>>(e),
        },
{
}

/// The parts of a spec are laid one over the other: a later colour wins, and attributes
/// add up.
pub proof fn law_parts_lie_one_over_the_other(
    spec: Seq<char>,
    a: Seq<Seq<char>>,
    b: Seq<Seq<char>>,
    x: Style,
    y: Style,
    style: Style,
)
    requires
        with_parts(spec, a, plain_style()) == Ok::<Style, Seq<char>>(x),
        with_parts(spec, b, plain_style()) == Ok::<Style, Seq<char>>(y),
    ensures
        with_parts(spec, a + b, style) == Ok::<Style, Seq<char>>(layered(layered(style, x), y)),
{
    lemma_layers(spec, a, x, style);
    lemma_over(spec, a, b, style);
    lemma_layers(spec, b, y, layered(style, x));
}

proof fn lemma_layers(spec: Seq<char>, parts: Seq<Seq<char>>, x: Style, style: Style)
    requires
        with_parts(spec, parts, plain_style()) == Ok::<Style, Seq<char>>(x),
    ensures
        with_parts(spec, parts, style) == Ok::<Style, Seq<char>>(layered(style, x)),
    decreases parts.len(),
{
    if parts.len() > 0 {
        lemma_part_layers(spec, parts[0], style);
        let rest = parts.drop_first();
        let s = with_part(spec, parts[0], plain_style())->Ok_0;
        lemma_all_or_none(spec, rest, s);
        let y = with_parts(spec, rest, plain_style())->Ok_0;
        lemma_layers(spec, rest, y, s);
        lemma_layers(spec, rest, y, layered(style, s));
        crate::color::law_layering_is_associative(style, s, y);
    }
}

proof fn lemma_all_or_none(spec: Seq<char>, parts: Seq<Seq<char>>, style: Style)
    requires
        with_parts(spec, parts, style) is Ok,
    ensures
        with_parts(spec, parts, plain_style()) is Ok,
    decreases parts.len(),
{
    if parts.len() > 0 {
        lemma_part_layers(spec, parts[0], style);
        let rest = parts.drop_first();
        let s = with_part(spec, parts[0], plain_style())->Ok_0;
        let t = with_part(spec, parts[0], style)->Ok_0;
        lemma_all_or_none(spec, rest, t);
        let y = with_parts(spec, rest, plain_style())->Ok_0;
        lemma_layers(spec, rest, y, s);
    }
}

proof fn lemma_over(spec: Seq<char>, a: Seq<Seq<char>>, b: Seq<Seq<char>>, style: Style)
    requires
        with_parts(spec, a, style) is Ok,
    ensures
        with_parts(spec, a + b, style) == with_parts(spec, b, with_parts(spec, a, style)->Ok_0),
    decreases a.len(),
{
    if a.len() > 0 {
        let s = with_part(spec, a[0], style)->Ok_0;
        assert((a + b)[0] == a[0]);
        assert((a + b).drop_first() =~= a.drop_first() + b);
        lemma_over(spec, a.drop_first(), b, s);
    } else {
        assert(a + b =~= b);
    }
}

/// A spec is its parts between the `+` signs, in order.
pub proof fn law_a_spec_is_its_parts(parts: Seq<Seq<char>>)
    requires
        parts.len() > 0,
        forall|i: int, k: int|
            #![trigger parts[i][k]]
            0 <= i < parts.len() && 0 <= k < parts[i].len() ==> parts[i][k] != '+',
    ensures
        style_of(joined(parts, seq!['+'])) == with_parts(
            joined(parts, seq!['+']),
            parts,
            plain_style(),
        ),
{
    lemma_split_joined(parts, '+');
}

/// A ramp's spec is the names of its low and its high colour, in that order.
pub proof fn law_a_ramp_is_named_from_low_to_high(lo: Seq<char>, hi: Seq<char>)
    requires
        forall|i: int| 0 <= i < lo.len() ==> #[trigger] lo[i] != ':',
    ensures
        match (base_of(lo), base_of(hi)) {
            (Some(i), Some(j)) => ramp_of(lo + seq![':'] + hi) == Ok::<Ramp, Seq<char>>(
                Ramp { lo: base_rgb(i as int), hi: base_rgb(j as int) },
            ),
            (None, _) => ramp_of(lo + seq![':'] + hi) == Err::<Ramp, Seq<char>>(
                "unknown colour '"@ + lo + "'"@,
            ),
            (_, None) => ramp_of(lo + seq![':'] + hi) == Err::<Ramp, Seq<char>>(
                "unknown colour '"@ + hi + "'"@,
            ),
        },
        ramp_of(lo) is Err,
{
    let s = lo + seq![':'] + hi;
    let n = lo.len() as int;
    lemma_next_of(s, ':', 0);
    lemma_next_of(lo, ':', 0);
    let m = next_of(s, ':', 0);
    assert(s[n] == ':');
    if m < n {
        assert(s[m] == lo[m]);
    }
    assert(m == n) by {
        if n < m {
            assert(s[n] != ':');
        }
    }
    assert(s.take(n) =~= lo);
    assert(s.skip(n + 1) =~= hi);
}

/// A style that paints something is sent as its codes before the text, with a reset
/// behind it: one for each attribute, then the colour of the text, then the background.
pub proof fn law_styles_are_sent_as_codes(s: Style, text: Seq<char>)
    requires
        s != plain_style(),
    ensures
        s.painted(text) == seq!['\x1b', '['] + joined(s.codes(), seq![';']) + seq!['m'] + text + seq![
            '\x1b',
            '[',
            '0',
            'm',
        ],
        s.codes() == attribute(s.bold, '1') + attribute(s.dim, '2') + attribute(s.underline, '4')
            + (match s.fg {
            Some(c) => seq![c.codes(false)],
            None => seq![],
        }) + (match s.bg {
            Some(c) => seq![c.codes(true)],
            None => seq![],
        }),
{
    reveal_strlit("\x1b[");
    reveal_strlit(";");
    reveal_strlit("m");
    reveal_strlit("\x1b[0m");
    reveal_strlit("1");
    reveal_strlit("2");
    reveal_strlit("4");
    assert("\x1b["@ =~= seq!['\x1b', '[']);
    assert(";"@ =~= seq![';']);
    assert("m"@ =~= seq!['m']);
    assert("\x1b[0m"@ =~= seq!['\x1b', '[', '0', 'm']);
    assert("1"@ =~= seq!['1']);
    assert("2"@ =~= seq!['2']);
    assert("4"@ =~= seq!['4']);
}

/// The code of an attribute that is on.
pub open spec fn attribute(on: bool, code: char) -> Seq<Seq<char>> {
    if on {
        seq![seq![code]]
    } else {
        seq![]
    }
}

/// A base colour is sent by its number, ten more for a background; grey by that of the
/// bright black. An exact colour is sent by its red, green and blue.
pub proof fn law_colors_are_sent_by_their_numbers(i: u8, c: Rgb)
    requires
        i < 8,
    ensures
        Color::Base(i).codes(false) == decimal((30 + i) as nat),
        Color::Base(i).codes(true) == decimal((40 + i) as nat),
        Color::Base(8).codes(false) == decimal(90),
        Color::Base(8).codes(true) == decimal(100),
        Color::Rgb(c).codes(false) == "38;2;"@ + decimal(c.0 as nat) + ";"@ + decimal(c.1 as nat)
            + ";"@ + decimal(c.2 as nat),
        Color::Rgb(c).codes(true) == "48;2;"@ + decimal(c.0 as nat) + ";"@ + decimal(c.1 as nat)
            + ";"@ + decimal(c.2 as nat),
{
    reveal_strlit("90");
    reveal_strlit("100");
    reveal_with_fuel(decimal, 3);
    assert("90"@ =~= decimal(90));
    assert("100"@ =~= decimal(100));
}

/// The value of a hexadecimal digit.
pub open spec fn hex_value(c: char) -> int {
    if '0' <= c <= '9' {
        c as int - '0' as int
    } else {
        c as int - 'a' as int + 10
    }
}

/// A colour's literal is a hash and two hexadecimal digits each for its red, its green
/// and its blue, which read as their values.
pub proof fn law_a_literal_reads_as_its_color(c: Rgb)
    ensures
        hex_of(c).len() == 7,
        hex_of(c)[0] == '#',
        16 * hex_value(hex_of(c)[1]) + hex_value(hex_of(c)[2]) == c.0,
        16 * hex_value(hex_of(c)[3]) + hex_value(hex_of(c)[4]) == c.1,
        16 * hex_value(hex_of(c)[5]) + hex_value(hex_of(c)[6]) == c.2,
{
    reveal_strlit("#");
    lemma_hex(c.0);
    lemma_hex(c.1);
    lemma_hex(c.2);
}

proof fn lemma_hex(b: u8)
    ensures
        hex2(b).len() == 2,
        16 * hex_value(hex2(b)[0]) + hex_value(hex2(b)[1]) == b,
{
    lemma_hex_digit(b as int / 16);
    lemma_hex_digit(b as int % 16);
}

proof fn lemma_hex_digit(d: int)
    requires
        0 <= d < 16,
    ensures
        hex_value(hex_digit(d)) == d,
{
    let u: u32 = if d < 10 {
        ('0' as u32 + d) as u32
    } else {
        ('a' as u32 + (d - 10)) as u32
    };
    vstd::utf8::char_u32_cast(hex_digit(d), u);
}

} // verus!
