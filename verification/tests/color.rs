use csvm::color::{
    Color, Depth, Ramp, Rgb, Style, base_index, named, parse_ramp, parse_style, rgb_hex, rgb_name,
};

/// A base colour by name, as a parsed spec holds it.
fn base(name: &str) -> Option<Color> {
    base_index(name).map(Color::Base)
}

/// A base colour's stand-in RGB, as a ramp paints it.
fn rgb(name: &str) -> Option<Color> {
    named(name).map(Color::Rgb)
}

/// The ramp's style for `v` in `lo..hi`, with the point between its ends worked
/// out channel by channel.
fn at(r: &Ramp, v: f64, lo: f64, hi: f64) -> Style {
    let t = (v - lo) / (hi - lo);
    let c = t.clamp(0.0, 1.0);
    let mix = |a: u8, b: u8| (a as f64 + (b as f64 - a as f64) * c).round() as u8;
    let between = Rgb(
        mix(r.lo.0, r.hi.0),
        mix(r.lo.1, r.hi.1),
        mix(r.lo.2, r.hi.2),
    );
    r.at(lo.to_bits(), hi.to_bits(), t.to_bits(), between)
}

#[test]
fn parse_and_paint() {
    let s = parse_style("bold+red").unwrap();
    assert!(s.bold);
    assert_eq!(s.fg, base("red"));
    let painted = s.paint("hi");
    assert!(painted.starts_with("\x1b["));
    assert!(painted.ends_with("\x1b[0m"));
    assert!(painted.contains("hi"));
    // An empty style adds no escapes.
    assert_eq!(Style::default().paint("x"), "x");
}

#[test]
fn base_colours_use_the_terminal_codes() {
    let s = parse_style("red+bg:blue").unwrap();
    assert_eq!(s.paint("x"), "\x1b[31;44mx\x1b[0m");
    // Grey is bright black, from the 90/100 range.
    let s = parse_style("grey+bg:gray").unwrap();
    assert_eq!(s.paint("x"), "\x1b[90;100mx\x1b[0m");
}

#[test]
fn exact_colours_are_24_bit() {
    let s = Style {
        fg: Some(Color::Rgb(Rgb(255, 0, 0))),
        bg: Some(Color::Rgb(Rgb(0, 0, 0))),
        ..Style::default()
    };
    assert_eq!(s.paint("x"), "\x1b[38;2;255;0;0;48;2;0;0;0mx\x1b[0m");
}

#[test]
fn background_and_unknown() {
    assert_eq!(parse_style("bg:blue").unwrap().bg, base("blue"));
    assert!(parse_style("chartreuse").is_err());
    assert!(parse_style("bg:nope").is_err());
    assert!(parse_style("bold+").is_err());
}

#[test]
fn ramp_endpoints_and_clamp() {
    let r = parse_ramp("green:red").unwrap();
    assert_eq!(at(&r, 0.0, 0.0, 10.0).fg, rgb("green"));
    assert_eq!(at(&r, 10.0, 0.0, 10.0).fg, rgb("red"));
    assert_eq!(at(&r, -5.0, 0.0, 10.0).fg, rgb("green")); // below clamps to lo
    assert_eq!(at(&r, 99.0, 0.0, 10.0).fg, rgb("red")); // above clamps to hi
    assert_eq!(at(&r, 5.0, 3.0, 3.0).fg, rgb("green")); // degenerate range
    // Reversed bounds (lo > hi) invert: the larger value takes the lo colour.
    assert_eq!(at(&r, 10.0, 10.0, 0.0).fg, rgb("green"));
    assert_eq!(at(&r, 0.0, 10.0, 0.0).fg, rgb("red"));
    assert_eq!(at(&r, 99.0, 10.0, 0.0).fg, rgb("green")); // above lo clamps to lo
    assert!(parse_ramp("green").is_err());
    assert_eq!(Ramp::default(), parse_ramp("green:red").unwrap()); // default ramp
}

#[test]
fn display_round_trips_specs() {
    for spec in ["red", "bold+red", "white+bg:red", "bg:blue", "gray"] {
        assert_eq!(parse_style(spec).unwrap().show(), spec);
    }
    assert_eq!(parse_style("grey").unwrap().show(), "gray");
    assert_eq!(Style::default().show(), "default");
    assert_eq!(Ramp::default().show(), "green:red");
    assert_eq!(parse_ramp("blue:yellow").unwrap().show(), "blue:yellow");
    // A non-named colour (e.g. a ramp-interpolated value) shows as hex.
    assert_eq!(rgb_name(Rgb(0x12, 0x34, 0x56)), "#123456");
}

#[test]
fn layering_last_wins_per_attribute() {
    let red = parse_style("red").unwrap();
    let bg = parse_style("bg:white").unwrap();
    let both = red.over(bg);
    assert_eq!(both.fg, base("red"));
    assert_eq!(both.bg, base("white"));
}

#[test]
fn a_point_between_the_ends_is_mixed() {
    let r = Ramp {
        lo: Rgb(0, 0, 0),
        hi: Rgb(200, 100, 50),
    };
    assert_eq!(
        at(&r, 5.0, 0.0, 10.0).fg,
        Some(Color::Rgb(Rgb(100, 50, 25)))
    );
}

#[test]
fn layering_is_associative_and_the_plain_style_is_neutral() {
    let a = parse_style("bold+red").unwrap();
    let b = parse_style("underline+bg:blue").unwrap();
    let c = parse_style("dim+green").unwrap();
    assert_eq!(a.over(b).over(c), a.over(b.over(c)));
    assert_eq!(a.over(Style::default()), a);
    assert_eq!(Style::default().over(a), a);
    assert!(Style::default().is_empty());
    assert!(!a.is_empty());
}

#[test]
fn hex_is_two_digits_a_channel() {
    assert_eq!(rgb_hex(&Rgb(0, 10, 255)), "#000aff");
    assert_ne!(Depth::Ansi256, Depth::Truecolor);
}
