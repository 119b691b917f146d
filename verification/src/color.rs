//! Colour vocabulary and rendering for the `color` command (and `fmt`).
//!
//! [`Style`] is a foreground/background/attribute set parsed from a spec like
//! `bold+bg:red`; [`Ramp`] is a two-colour gradient (`green:red`) that maps a
//! value within a range to an interpolated colour. Both render to ANSI SGR
//! escapes. This module is presentation-only: *what* to colour is the caller's
//! decision (see [`crate::plan::ColorRule`]).

use crate::field::{Rank, rank, rank_bits};
use crate::text::{
    cat2, cat3, cat4, chars_of, decimal, find_char, has_prefix, join, joined, lemma_next_of_is,
    lemma_split_joined, next_of, outcome, same, show_u64, split, split_on, starts_with,
    string_from, texts,
};
use vstd::prelude::*;

verus! {

/// An RGB triple. Named colours are kept as RGB so gradients can interpolate.
#[derive(Clone, Copy, Debug, PartialEq, Eq, Structural)]
pub struct Rgb(pub u8, pub u8, pub u8);

/// How many colours a terminal is asked for.
#[derive(Clone, Copy, Debug, PartialEq, Eq, Structural)]
pub enum Depth {
    Ansi256,
    Truecolor,
}

/// The terminal's base colours: the 8 ANSI colours and grey (bright black). A
/// base colour is painted with its own SGR code, so it shows in the shade the
/// terminal's theme gives it.
pub open spec fn base_name(i: int) -> Seq<char> {
    if i == 0 {
        "black"@
    } else if i == 1 {
        "red"@
    } else if i == 2 {
        "green"@
    } else if i == 3 {
        "yellow"@
    } else if i == 4 {
        "blue"@
    } else if i == 5 {
        "magenta"@
    } else if i == 6 {
        "cyan"@
    } else if i == 7 {
        "white"@
    } else {
        "gray"@
    }
}

/// The RGB a gradient between base colours interpolates through: only the
/// stand-in for arithmetic.
pub open spec fn base_rgb(i: int) -> Rgb {
    if i == 0 {
        Rgb(0, 0, 0)
    } else if i == 1 {
        Rgb(205, 0, 0)
    } else if i == 2 {
        Rgb(0, 205, 0)
    } else if i == 3 {
        Rgb(205, 205, 0)
    } else if i == 4 {
        Rgb(0, 0, 238)
    } else if i == 5 {
        Rgb(205, 0, 205)
    } else if i == 6 {
        Rgb(0, 205, 205)
    } else if i == 7 {
        Rgb(229, 229, 229)
    } else {
        Rgb(127, 127, 127)
    }
}

/// The base colour of that name (`grey` spells `gray` too).
pub open spec fn base_of(name: Seq<char>) -> Option<u8> {
    if name == "black"@ {
        Some(0)
    } else if name == "red"@ {
        Some(1)
    } else if name == "green"@ {
        Some(2)
    } else if name == "yellow"@ {
        Some(3)
    } else if name == "blue"@ {
        Some(4)
    } else if name == "magenta"@ {
        Some(5)
    } else if name == "cyan"@ {
        Some(6)
    } else if name == "white"@ {
        Some(7)
    } else if name == "gray"@ || name == "grey"@ {
        Some(8)
    } else {
        None
    }
}

/// The name of base colour `i`.
fn name_of_base(i: u8) -> (s: &'static str)
    ensures
        s@ == base_name(i as int),
{
    match i {
        0 => "black",
        1 => "red",
        2 => "green",
        3 => "yellow",
        4 => "blue",
        5 => "magenta",
        6 => "cyan",
        7 => "white",
        _ => "gray",
    }
}

/// The stand-in RGB of base colour `i`.
fn rgb_of_base(i: u8) -> (c: Rgb)
    ensures
        c == base_rgb(i as int),
{
    match i {
        0 => Rgb(0, 0, 0),
        1 => Rgb(205, 0, 0),
        2 => Rgb(0, 205, 0),
        3 => Rgb(205, 205, 0),
        4 => Rgb(0, 0, 238),
        5 => Rgb(205, 0, 205),
        6 => Rgb(0, 205, 205),
        7 => Rgb(229, 229, 229),
        _ => Rgb(127, 127, 127),
    }
}

/// The base colour of that name (`grey` spells `gray` too).
pub fn base_index(name: &str) -> (r: Option<u8>)
    ensures
        r == base_of(name@),
{
    if same(name, "black") {
        Some(0)
    } else if same(name, "red") {
        Some(1)
    } else if same(name, "green") {
        Some(2)
    } else if same(name, "yellow") {
        Some(3)
    } else if same(name, "blue") {
        Some(4)
    } else if same(name, "magenta") {
        Some(5)
    } else if same(name, "cyan") {
        Some(6)
    } else if same(name, "white") {
        Some(7)
    } else if same(name, "gray") || same(name, "grey") {
        Some(8)
    } else {
        None
    }
}

/// A base colour's name as RGB, for a gradient's ends.
pub fn named(name: &str) -> (r: Option<Rgb>)
    ensures
        r == (match base_of(name@) {
            Some(i) => Some(base_rgb(i as int)),
            None => None,
        }),
{
    match base_index(name) {
        Some(i) => Some(rgb_of_base(i)),
        None => None,
    }
}

/// A hexadecimal digit.
pub open spec fn hex_digit(d: int) -> char {
    if d < 10 {
        ('0' as u32 + d) as char
    } else {
        ('a' as u32 + (d - 10)) as char
    }
}

/// A byte as two hexadecimal digits.
pub open spec fn hex2(b: u8) -> Seq<char> {
    seq![hex_digit(b as int / 16), hex_digit(b as int % 16)]
}

/// `c` as a `#rrggbb` literal.
pub open spec fn hex_of(c: Rgb) -> Seq<char> {
    "#"@ + hex2(c.0) + hex2(c.1) + hex2(c.2)
}

fn hex_char(d: u8) -> (c: char)
    requires
        d < 16,
    ensures
        c == hex_digit(d as int),
{
    match d {
        0 => '0',
        1 => '1',
        2 => '2',
        3 => '3',
        4 => '4',
        5 => '5',
        6 => '6',
        7 => '7',
        8 => '8',
        9 => '9',
        10 => 'a',
        11 => 'b',
        12 => 'c',
        13 => 'd',
        14 => 'e',
        _ => 'f',
    }
}

fn show_hex(b: u8) -> (s: String)
    ensures
        s@ == hex2(b),
{
    let mut s = String::new();
    s.push(hex_char(b / 16));
    s.push(hex_char(b % 16));
    assert(s@ =~= hex2(b));
    s
}

/// `c` as a `#rrggbb` literal: the hex form SVG and CSS want.
pub fn rgb_hex(c: &Rgb) -> (s: String)
    ensures
        s@ == hex_of(*c),
{
    cat4("#", show_hex(c.0).as_str(), show_hex(c.1).as_str(), show_hex(c.2).as_str())
}

/// The base-colour name for `c`, or a `#rrggbb` literal when it isn't one of the
/// named colours (e.g. a value interpolated along a ramp).
pub open spec fn name_or_hex(c: Rgb) -> Seq<char> {
    if exists|i: int| 0 <= i <= 8 && #[trigger] base_rgb(i) == c {
        base_name(choose|i: int| 0 <= i <= 8 && #[trigger] base_rgb(i) == c)
    } else {
        hex_of(c)
    }
}

/// The base-colour name for `c`, or a `#rrggbb` literal when it isn't one of the
/// named colours (e.g. a value interpolated along a ramp).
pub fn rgb_name(c: Rgb) -> (s: String)
    ensures
        s@ == name_or_hex(c),
{
    let mut i: u8 = 0;
    while i <= 8
        invariant
            i <= 9,
            forall|k: int| 0 <= k < i ==> #[trigger] base_rgb(k) != c,
        decreases 9 - i,
    {
        if rgb_of_base(i) == c {
            let ghost j = choose|j: int| 0 <= j <= 8 && #[trigger] base_rgb(j) == c;
            assert(base_rgb(i as int) == c);
            assert(j == i);
            return name_of_base(i).to_string();
        }
        i += 1;
    }
    rgb_hex(&c)
}

/// A colour as the terminal is asked for it.
#[derive(Clone, Copy, Debug, PartialEq, Eq, Structural)]
pub enum Color {
    /// One of the terminal's base colours, by its index into the table of
    /// them (black, red, …, gray), drawn in the shade the terminal's theme
    /// gives it.
    Base(u8),
    /// An exact colour: a point along a ramp, or a chart's series colour.
    Rgb(Rgb),
}

impl Color {
    /// Whether the colour is an exact one or a base colour there is.
    pub open spec fn known(self) -> bool {
        match self {
            Color::Base(i) => i <= 8,
            Color::Rgb(_) => true,
        }
    }

    /// The SGR parameters for this colour, as a foreground or a background.
    pub open spec fn codes(self, bg: bool) -> Seq<char> {
        match self {
            // Grey is bright black, which has its own code range (90/100).
            Color::Base(i) => if i == 8 {
                if bg {
                    "100"@
                } else {
                    "90"@
                }
            } else {
                decimal((i + if bg {
                    40int
                } else {
                    30int
                }) as nat)
            },
            Color::Rgb(c) => (if bg {
                "48;2;"@
            } else {
                "38;2;"@
            }) + decimal(c.0 as nat) + ";"@ + decimal(c.1 as nat) + ";"@ + decimal(c.2 as nat),
        }
    }

    /// The SGR parameters for this colour, as a foreground (`bg` false) or a
    /// background.
    fn sgr(self, bg: bool) -> (s: String)
        ensures
            s@ == self.codes(bg),
    {
        match self {
            Color::Base(i) => {
                if i == 8 {
                    (if bg {
                        "100"
                    } else {
                        "90"
                    }).to_string()
                } else {
                    show_u64(
                        i as u64 + if bg {
                            40u64
                        } else {
                            30u64
                        },
                    )
                }
            },
            Color::Rgb(c) => {
                let mut s = (if bg {
                    "48;2;"
                } else {
                    "38;2;"
                }).to_string();
                s.append(show_u64(c.0 as u64).as_str());
                s.append(";");
                s.append(show_u64(c.1 as u64).as_str());
                s.append(";");
                s.append(show_u64(c.2 as u64).as_str());
                s
            },
        }
    }

    /// The colour's name.
    pub open spec fn shown(self) -> Seq<char> {
        match self {
            Color::Base(i) => base_name(i as int),
            Color::Rgb(c) => name_or_hex(c),
        }
    }

    /// The colour's name, as a spec gives it.
    pub fn show(&self) -> (s: String)
        requires
            self.known(),
        ensures
            s@ == self.shown(),
    {
        match self {
            Color::Base(i) => name_of_base(*i).to_string(),
            Color::Rgb(c) => rgb_name(*c),
        }
    }
}

/// A foreground/background/attribute set.
#[derive(Clone, Copy, Debug, PartialEq, Eq, Structural)]
pub struct Style {
    pub fg: Option<Color>,
    pub bg: Option<Color>,
    pub bold: bool,
    pub dim: bool,
    pub underline: bool,
}

/// The style that paints nothing.
pub open spec fn plain_style() -> Style {
    Style { fg: None, bg: None, bold: false, dim: false, underline: false }
}

impl Default for Style {
    fn default() -> (s: Self)
        ensures
            s == plain_style(),
    {
        Style { fg: None, bg: None, bold: false, dim: false, underline: false }
    }
}

/// `a`, or `b` where there is none.
pub open spec fn or_else(a: Option<Color>, b: Option<Color>) -> Option<Color> {
    match a {
        Some(_) => a,
        None => b,
    }
}

/// `other` layered on top of `below`: a colour `other` sets wins, attributes
/// accumulate.
pub open spec fn layered(below: Style, other: Style) -> Style {
    Style {
        fg: or_else(other.fg, below.fg),
        bg: or_else(other.bg, below.bg),
        bold: below.bold || other.bold,
        dim: below.dim || other.dim,
        underline: below.underline || other.underline,
    }
}

/// `part` as a list of its own when `on`, else nothing.
pub open spec fn part_if(on: bool, part: Seq<char>) -> Seq<Seq<char>> {
    if on {
        seq![part]
    } else {
        seq![]
    }
}

impl Style {
    /// The SGR codes of the style, in the order they are sent.
    pub open spec fn codes(self) -> Seq<Seq<char>> {
        part_if(self.bold, "1"@) + part_if(self.dim, "2"@) + part_if(self.underline, "4"@)
            + part_if(self.fg is Some, self.fg->0.codes(false)) + part_if(
            self.bg is Some,
            self.bg->0.codes(true),
        )
    }

    /// `text` wrapped in the SGR escapes of the style; unchanged when the style
    /// is empty.
    pub open spec fn painted(self, text: Seq<char>) -> Seq<char> {
        if self == plain_style() {
            text
        } else {
            "\x1b["@ + joined(self.codes(), ";"@) + "m"@ + text + "\x1b[0m"@
        }
    }

    /// The parts of the style's spec form.
    pub open spec fn parts(self) -> Seq<Seq<char>> {
        part_if(self.bold, "bold"@) + part_if(self.dim, "dim"@) + part_if(
            self.underline,
            "underline"@,
        ) + part_if(self.fg is Some, self.fg->0.shown()) + part_if(
            self.bg is Some,
            "bg:"@ + self.bg->0.shown(),
        )
    }

    /// The `+`-joined spec form of the style; `default` when it is empty.
    pub open spec fn shown(self) -> Seq<char> {
        if self == plain_style() {
            "default"@
        } else {
            joined(self.parts(), seq!['+'])
        }
    }

    /// Whether its colours are ones there are.
    pub open spec fn known(self) -> bool {
        &&& self.fg is Some ==> self.fg->0.known()
        &&& self.bg is Some ==> self.bg->0.known()
    }

    /// Whether the style paints nothing.
    pub fn is_empty(&self) -> (r: bool)
        ensures
            r == (*self == plain_style()),
    {
        self.fg.is_none() && self.bg.is_none() && !self.bold && !self.dim && !self.underline
    }

    /// Layer `other` on top of `self`: a colour `other` sets wins, attributes
    /// accumulate. This is the rule-stacking semantics (last wins per attribute).
    pub fn over(self, other: Style) -> (r: Style)
        ensures
            r == layered(self, other),
    {
        Style {
            fg: if other.fg.is_some() {
                other.fg
            } else {
                self.fg
            },
            bg: if other.bg.is_some() {
                other.bg
            } else {
                self.bg
            },
            bold: self.bold || other.bold,
            dim: self.dim || other.dim,
            underline: self.underline || other.underline,
        }
    }

    /// Wrap `text` in SGR escapes for this style (returns it unchanged when the
    /// style is empty, so no stray resets are emitted).
    pub fn paint(&self, text: &str) -> (r: String)
        ensures
            r@ == self.painted(text@),
    {
        if self.is_empty() {
            return text.to_string();
        }
        let mut codes: Vec<String> = Vec::new();
        if self.bold {
            codes.push("1".to_string());
        }
        assert(texts(codes@) =~= part_if(self.bold, "1"@));
        if self.dim {
            codes.push("2".to_string());
        }
        assert(texts(codes@) =~= part_if(self.bold, "1"@) + part_if(self.dim, "2"@));
        if self.underline {
            codes.push("4".to_string());
        }
        let ghost three = part_if(self.bold, "1"@) + part_if(self.dim, "2"@) + part_if(
            self.underline,
            "4"@,
        );
        assert(texts(codes@) =~= three);
        if let Some(fg) = self.fg {
            codes.push(fg.sgr(false));
        }
        assert(texts(codes@) =~= three + part_if(self.fg is Some, self.fg->0.codes(false)));
        if let Some(bg) = self.bg {
            codes.push(bg.sgr(true));
        }
        assert(texts(codes@) =~= self.codes());
        let mut r = "\x1b[".to_string();
        r.append(join(codes.as_slice(), ";").as_str());
        r.append("m");
        r.append(text);
        r.append("\x1b[0m");
        r
    }

    /// The `+`-joined spec form (the inverse of [`parse_style`], modulo part
    /// order), e.g. `bold+red` or `white+bg:red`; `default` when empty.
    pub fn show(&self) -> (r: String)
        requires
            self.known(),
        ensures
            r@ == self.shown(),
    {
        if self.is_empty() {
            return "default".to_string();
        }
        let mut parts: Vec<String> = Vec::new();
        if self.bold {
            parts.push("bold".to_string());
        }
        assert(texts(parts@) =~= part_if(self.bold, "bold"@));
        if self.dim {
            parts.push("dim".to_string());
        }
        assert(texts(parts@) =~= part_if(self.bold, "bold"@) + part_if(self.dim, "dim"@));
        if self.underline {
            parts.push("underline".to_string());
        }
        let ghost three = part_if(self.bold, "bold"@) + part_if(self.dim, "dim"@) + part_if(
            self.underline,
            "underline"@,
        );
        assert(texts(parts@) =~= three);
        if let Some(fg) = self.fg {
            parts.push(fg.show());
        }
        assert(texts(parts@) =~= three + part_if(self.fg is Some, self.fg->0.shown()));
        if let Some(bg) = self.bg {
            parts.push(cat2("bg:", bg.show().as_str()));
        }
        assert(texts(parts@) =~= self.parts());
        proof {
            reveal_strlit("+");
            assert("+"@ =~= seq!['+']);
        }
        join(parts.as_slice(), "+")
    }
}

/// What a colour name in a spec stands for.
pub open spec fn named_color(name: Seq<char>) -> Result<Color, Seq<char>> {
    match base_of(name) {
        Some(i) => Ok(Color::Base(i)),
        None => Err("unknown colour '"@ + name + "'"@),
    }
}

/// What one part of `spec` makes of the style so far.
pub open spec fn with_part(spec: Seq<char>, part: Seq<char>, style: Style) -> Result<
    Style,
    Seq<char>,
> {
    if part == "bold"@ {
        Ok(Style { bold: true, ..style })
    } else if part == "dim"@ {
        Ok(Style { dim: true, ..style })
    } else if part == "underline"@ {
        Ok(Style { underline: true, ..style })
    } else if part.len() == 0 {
        Err("empty colour part in '"@ + spec + "'"@)
    } else if starts_with(part, "bg:"@) {
        match named_color(part.skip(3)) {
            Ok(c) => Ok(Style { bg: Some(c), ..style }),
            Err(e) => Err(e),
        }
    } else {
        match named_color(part) {
            Ok(c) => Ok(Style { fg: Some(c), ..style }),
            Err(e) => Err(e),
        }
    }
}

/// What the parts of `spec` make of the style so far, one after the other.
pub open spec fn with_parts(spec: Seq<char>, parts: Seq<Seq<char>>, style: Style) -> Result<
    Style,
    Seq<char>,
>
    decreases parts.len(),
{
    if parts.len() == 0 {
        Ok(style)
    } else {
        match with_part(spec, parts[0], style) {
            Ok(s) => with_parts(spec, parts.drop_first(), s),
            Err(e) => Err(e),
        }
    }
}

/// What a colour spec stands for: its `+`-separated parts, one after the other.
pub open spec fn style_of(spec: Seq<char>) -> Result<Style, Seq<char>> {
    with_parts(spec, split(spec, '+'), plain_style())
}

fn color_named(name: &str) -> (r: Result<Color, String>)
    ensures
        outcome(r) == named_color(name@),
{
    match base_index(name) {
        Some(i) => Ok(Color::Base(i)),
        None => Err(cat3("unknown colour '", name, "'")),
    }
}

fn parse_part(spec: &str, part: &str, style: Style) -> (r: Result<Style, String>)
    ensures
        outcome(r) == with_part(spec@, part@, style),
{
    if same(part, "bold") {
        Ok(Style { bold: true, ..style })
    } else if same(part, "dim") {
        Ok(Style { dim: true, ..style })
    } else if same(part, "underline") {
        Ok(Style { underline: true, ..style })
    } else if part.is_empty() {
        Err(cat3("empty colour part in '", spec, "'"))
    } else if has_prefix(part, "bg:") {
        let v = chars_of(part);
        proof {
            reveal_strlit("bg:");
            assert(part@.subrange(3, part@.len() as int) =~= part@.skip(3));
        }
        let name = string_from(v.as_slice(), 3, v.len());
        match color_named(name.as_str()) {
            Ok(c) => Ok(Style { bg: Some(c), ..style }),
            Err(e) => Err(e),
        }
    } else {
        match color_named(part) {
            Ok(c) => Ok(Style { fg: Some(c), ..style }),
            Err(e) => Err(e),
        }
    }
}

/// Parse a colour spec: `+`-separated parts, each an attribute (`bold`/`dim`/
/// `underline`), a `bg:NAME` background, or a `NAME` foreground. A name is a
/// base colour, so it paints in the terminal theme's shade of it.
pub fn parse_style(spec: &str) -> (r: Result<Style, String>)
    ensures
        outcome(r) == style_of(spec@),
{
    let parts = split_on(spec, '+');
    let mut style = Style::default();
    let mut i: usize = 0;
    let ghost all = split(spec@, '+');
    assert(all.skip(0) =~= all);
    while i < parts.len()
        invariant
            i <= parts.len(),
            texts(parts@) == all,
            style_of(spec@) == with_parts(spec@, all.skip(i as int), style),
        decreases parts.len() - i,
    {
        proof {
            assert(all.skip(i as int)[0] == parts@[i as int]@);
            assert(all.skip(i as int).drop_first() =~= all.skip(i + 1));
        }
        match parse_part(spec, parts[i].as_str(), style) {
            Ok(s) => {
                style = s;
            },
            Err(e) => {
                return Err(e);
            },
        }
        i += 1;
    }
    Ok(style)
}

/// A two-colour gradient between `lo` and `hi`.
#[derive(Clone, Copy, Debug, PartialEq, Eq, Structural)]
pub struct Ramp {
    pub lo: Rgb,
    pub hi: Rgb,
}

impl Default for Ramp {
    /// Green at the low end, red at the high end.
    fn default() -> (r: Self)
        ensures
            r == (Ramp { lo: base_rgb(2), hi: base_rgb(1) }),
    {
        Ramp { lo: rgb_of_base(2), hi: rgb_of_base(1) }
    }
}

/// What a colour name in a ramp spec stands for.
pub open spec fn ramp_end(name: Seq<char>) -> Result<Rgb, Seq<char>> {
    match base_of(name) {
        Some(i) => Ok(base_rgb(i as int)),
        None => Err("unknown colour '"@ + name + "'"@),
    }
}

/// What a ramp spec stands for.
pub open spec fn ramp_of(spec: Seq<char>) -> Result<Ramp, Seq<char>> {
    let n = next_of(spec, ':', 0);
    if n >= spec.len() {
        Err("ramp must be 'lo:hi', got '"@ + spec + "'"@)
    } else {
        match ramp_end(spec.take(n)) {
            Err(e) => Err(e),
            Ok(lo) => match ramp_end(spec.skip(n + 1)) {
                Err(e) => Err(e),
                Ok(hi) => Ok(Ramp { lo, hi }),
            },
        }
    }
}

fn parse_ramp_end(name: &str) -> (r: Result<Rgb, String>)
    ensures
        outcome(r) == ramp_end(name@),
{
    match named(name) {
        Some(c) => Ok(c),
        None => Err(cat3("unknown colour '", name, "'")),
    }
}

/// Parse a ramp spec `locolour:hicolour`, e.g. `green:red`.
pub fn parse_ramp(spec: &str) -> (r: Result<Ramp, String>)
    ensures
        outcome(r) == ramp_of(spec@),
{
    let v = chars_of(spec);
    let n = find_char(v.as_slice(), ':', 0);
    if n >= v.len() {
        return Err(cat3("ramp must be 'lo:hi', got '", spec, "'"));
    }
    let lo = string_from(v.as_slice(), 0, n);
    let hi = string_from(v.as_slice(), n + 1, v.len());
    proof {
        assert(lo@ =~= spec@.take(n as int));
        assert(hi@ =~= spec@.skip(n + 1));
    }
    match parse_ramp_end(lo.as_str()) {
        Err(e) => Err(e),
        Ok(lo) => match parse_ramp_end(hi.as_str()) {
            Err(e) => Err(e),
            Ok(hi) => Ok(Ramp { lo, hi }),
        },
    }
}

/// The bits of the double one.
pub const ONE: u64 = 0x3ff0_0000_0000_0000;

impl Ramp {
    /// The `lo:hi` spec form.
    pub open spec fn shown(self) -> Seq<char> {
        name_or_hex(self.lo) + ":"@ + name_or_hex(self.hi)
    }

    /// The `lo:hi` spec form (the inverse of [`parse_ramp`]).
    pub fn show(&self) -> (r: String)
        ensures
            r@ == self.shown(),
    {
        cat3(rgb_name(self.lo).as_str(), ":", rgb_name(self.hi).as_str())
    }

    /// The colour at fraction `t` of the way from bound `lo` to bound `hi`:
    /// `between` inside the bounds, the ramp's ends at them and outside.
    pub open spec fn color_at(self, lo: u64, hi: u64, t: u64, between: Rgb) -> Rgb {
        if rank(hi, lo) == Rank::Same {
            self.lo
        } else if rank(t, 0) == Rank::Before || rank(t, 0) == Rank::Same {
            self.lo
        } else if rank(t, ONE) == Rank::After || rank(t, ONE) == Rank::Same {
            self.hi
        } else {
            between
        }
    }

    /// The foreground style for a value mapped onto the ramp between bounds
    /// `lo` and `hi`: `lo` takes the ramp's low colour, `hi` its high colour, and
    /// values outside `[lo, hi]` clamp to the endpoints. `lo > hi` inverts the
    /// gradient (the larger value gets the low colour); `lo == hi` is degenerate
    /// and yields the low colour. The bounds are given by their bits, the value
    /// by the bits of the fraction `t = (v - lo) / (hi - lo)` of the way it lies
    /// at and by the colour `between` the ends that this fraction mixes.
    pub fn at(&self, lo: u64, hi: u64, t: u64, between: Rgb) -> (r: Style)
        ensures
            r == (Style {
                fg: Some(Color::Rgb(self.color_at(lo, hi, t, between))),
                ..plain_style()
            }),
    {
        Style { fg: Some(Color::Rgb(self.rgb_at(lo, hi, t, between))), ..Style::default() }
    }

    /// The colour [`Ramp::at`] paints with, as RGB. Every point of a ramp
    /// is an exact colour, its ends included, so a gradient runs smoothly
    /// whatever the terminal's theme makes of the base colours it is named by.
    pub fn rgb_at(&self, lo: u64, hi: u64, t: u64, between: Rgb) -> (c: Rgb)
        ensures
            c == self.color_at(lo, hi, t, between),
    {
        if rank_bits(hi, lo) == Rank::Same {
            return self.lo;
        }
        let below = rank_bits(t, 0);
        if below == Rank::Before || below == Rank::Same {
            return self.lo;
        }
        let above = rank_bits(t, ONE);
        if above == Rank::After || above == Rank::Same {
            return self.hi;
        }
        between
    }
}

/// Layering the plain style changes nothing, on either side.
pub proof fn law_plain_style_is_neutral(s: Style)
    ensures
        layered(s, plain_style()) == s,
        layered(plain_style(), s) == s,
{
}

/// Rules stack the same however they are grouped.
pub proof fn law_layering_is_associative(a: Style, b: Style, c: Style)
    ensures
        layered(layered(a, b), c) == layered(a, layered(b, c)),
{
}

/// The last rule wins: its colours show, and its attributes are on.
pub proof fn law_last_layer_wins(a: Style, b: Style)
    ensures
        b.fg is Some ==> layered(a, b).fg == b.fg,
        b.bg is Some ==> layered(a, b).bg == b.bg,
        b.bold ==> layered(a, b).bold,
        b.dim ==> layered(a, b).dim,
        b.underline ==> layered(a, b).underline,
{
}

proof fn lemma_base_names(i: u8)
    requires
        i <= 8,
    ensures
        base_of(base_name(i as int)) == Some(i),
        base_name(i as int).len() > 0,
        base_name(i as int)[0] != 'd' && base_name(i as int)[0] != 'u',
        base_name(i as int) != "bold"@,
        !starts_with(base_name(i as int), "bg:"@),
        forall|k: int|
            0 <= k < base_name(i as int).len() ==> #[trigger] base_name(i as int)[k] != '+'
                && base_name(i as int)[k] != ':',
{
    reveal_strlit("black");
    reveal_strlit("red");
    reveal_strlit("green");
    reveal_strlit("yellow");
    reveal_strlit("blue");
    reveal_strlit("magenta");
    reveal_strlit("cyan");
    reveal_strlit("white");
    reveal_strlit("gray");
    reveal_strlit("grey");
    reveal_strlit("bold");
    reveal_strlit("bg:");
    let n = base_name(i as int);
    if starts_with(n, "bg:"@) {
        assert(n.take(3)[0] == n[0]);
        assert(n.take(3)[1] == n[1]);
    }
    assert(n != "bold"@) by {
        if n == "bold"@ {
            assert(n[1] == 'o');
        }
    }
    let names = seq![
        "black"@,
        "red"@,
        "green"@,
        "yellow"@,
        "blue"@,
        "magenta"@,
        "cyan"@,
        "white"@,
        "gray"@,
    ];
    assert(n == names[i as int]);
    assert(n[1] == names[i as int][1]);
    assert(n[2] == names[i as int][2]);
    assert("black"@[2] == 'a' && "blue"@[2] == 'u');
    assert("green"@[2] == 'e' && "gray"@[2] == 'a' && "grey"@[2] == 'e' && "green"@.len() == 5);
}

/// The part of a base colour sets the foreground, or the background behind
/// `bg:`.
proof fn lemma_color_parts(spec: Seq<char>, i: u8, style: Style)
    requires
        i <= 8,
    ensures
        with_part(spec, base_name(i as int), style) == Ok::<Style, Seq<char>>(
            Style { fg: Some(Color::Base(i)), ..style },
        ),
        with_part(spec, "bg:"@ + base_name(i as int), style) == Ok::<Style, Seq<char>>(
            Style { bg: Some(Color::Base(i)), ..style },
        ),
{
    lemma_base_names(i);
    reveal_strlit("bg:");
    reveal_strlit("bold");
    reveal_strlit("dim");
    reveal_strlit("underline");
    let n = base_name(i as int);
    assert("dim"@[0] == 'd' && "underline"@[0] == 'u');
    let p = "bg:"@ + n;
    assert(p[0] == 'b' && p[1] == 'g');
    assert("bold"@[1] == 'o');
    assert(p.take(3) =~= "bg:"@);
    assert(p.skip(3) =~= n);
}

proof fn lemma_parts_step(
    spec: Seq<char>,
    on: bool,
    part: Seq<char>,
    rest: Seq<Seq<char>>,
    style: Style,
)
    ensures
        with_parts(spec, part_if(on, part) + rest, style) == (if on {
            match with_part(spec, part, style) {
                Ok(s) => with_parts(spec, rest, s),
                Err(e) => Err(e),
            }
        } else {
            with_parts(spec, rest, style)
        }),
{
    let all = part_if(on, part) + rest;
    if on {
        assert(all.drop_first() =~= rest);
    } else {
        assert(all =~= rest);
    }
}

/// Reading back the spec form of a style in the base colours gives the style.
pub proof fn law_style_round_trip(s: Style)
    requires
        s.known(),
        s != plain_style(),
        s.fg is Some ==> s.fg->0 is Base,
        s.bg is Some ==> s.bg->0 is Base,
    ensures
        style_of(s.shown()) == Ok::<Style, Seq<char>>(s),
{
    reveal_strlit("bold");
    reveal_strlit("dim");
    reveal_strlit("underline");
    reveal_strlit("bg:");
    let spec = s.shown();
    let parts = s.parts();
    let i = s.fg->0->Base_0;
    let j = s.bg->0->Base_0;
    let fg = s.fg->0.shown();
    let bg = "bg:"@ + s.bg->0.shown();
    if s.fg is Some {
        lemma_base_names(i);
    }
    if s.bg is Some {
        lemma_base_names(j);
        assert forall|k: int| 0 <= k < bg.len() implies #[trigger] bg[k] != '+' by {
            if k >= 3 {
                assert(bg[k] == s.bg->0.shown()[k - 3]);
            }
        }
    }
    assert forall|a: int, k: int|
        #![trigger parts[a][k]]
        0 <= a < parts.len() && 0 <= k < parts[a].len() implies parts[a][k] != '+' by {
        let p = parts[a];
        assert(p == "bold"@ || p == "dim"@ || p == "underline"@ || (s.fg is Some && p == fg) || (
        s.bg is Some && p == bg));
    }
    assert(parts.len() > 0);
    lemma_split_joined(parts, '+');
    let p1 = part_if(s.bold, "bold"@);
    let p2 = part_if(s.dim, "dim"@);
    let p3 = part_if(s.underline, "underline"@);
    let p4 = part_if(s.fg is Some, fg);
    let p5 = part_if(s.bg is Some, bg);
    assert(parts =~= p1 + (p2 + (p3 + (p4 + (p5 + seq![])))));
    let s0 = plain_style();
    let s1 = Style { bold: s.bold, ..s0 };
    let s2 = Style { dim: s.dim, ..s1 };
    let s3 = Style { underline: s.underline, ..s2 };
    let s4 = Style { fg: s.fg, ..s3 };
    lemma_parts_step(spec, s.bold, "bold"@, p2 + (p3 + (p4 + (p5 + seq![]))), s0);
    lemma_parts_step(spec, s.dim, "dim"@, p3 + (p4 + (p5 + seq![])), s1);
    assert("dim"@[0] == 'd' && "bold"@[0] == 'b' && "underline"@[0] == 'u');
    lemma_parts_step(spec, s.underline, "underline"@, p4 + (p5 + seq![]), s2);
    lemma_parts_step(spec, s.fg is Some, fg, p5 + seq![], s3);
    if s.fg is Some {
        lemma_color_parts(spec, i, s3);
    }
    lemma_parts_step(spec, s.bg is Some, bg, seq![], s4);
    if s.bg is Some {
        lemma_color_parts(spec, j, s4);
    }
}

proof fn lemma_base_rgb_named(i: int)
    requires
        0 <= i <= 8,
    ensures
        name_or_hex(base_rgb(i)) == base_name(i),
{
    let c = base_rgb(i);
    let k = choose|k: int| 0 <= k <= 8 && #[trigger] base_rgb(k) == c;
    assert(base_rgb(i) == c);
    assert(k == i);
}

/// Reading back the spec form of a ramp between base colours gives the ramp.
pub proof fn law_ramp_round_trip(i: u8, j: u8)
    requires
        i <= 8,
        j <= 8,
    ensures
        ({
            let r = Ramp { lo: base_rgb(i as int), hi: base_rgb(j as int) };
            ramp_of(r.shown()) == Ok::<Ramp, Seq<char>>(r)
        }),
{
    let r = Ramp { lo: base_rgb(i as int), hi: base_rgb(j as int) };
    let a = base_name(i as int);
    let b = base_name(j as int);
    lemma_base_rgb_named(i as int);
    lemma_base_rgb_named(j as int);
    lemma_base_names(i);
    lemma_base_names(j);
    reveal_strlit(":");
    let spec = r.shown();
    assert(spec == a + ":"@ + b);
    assert forall|k: int| 0 <= k < a.len() implies spec[k] != ':' by {
        assert(spec[k] == a[k]);
    }
    lemma_next_of_is(spec, ':', 0, a.len() as int);
    assert(spec.take(a.len() as int) =~= a);
    assert(spec.skip(a.len() as int + 1) =~= b);
}

/// A base colour's name and index stand for each other.
pub proof fn law_base_names_are_told_apart(i: u8)
    requires
        i <= 8,
    ensures
        base_of(base_name(i as int)) == Some(i),
{
    lemma_base_names(i);
}

} // verus!
