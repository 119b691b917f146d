use csvm::error::{Error, did_you_mean, excerpt, preview};
use csvm::field::NumError;

#[test]
fn a_place_is_kept_once_given_and_does_not_show_in_the_message() {
    let e = Error::Compile("bad".into()).at(3..5).at(0..9);
    assert_eq!(e.span(), Some(3..5));
    assert_eq!(e.message(), "bad");
    assert!(matches!(e.unplaced(), Error::Compile(m) if m == "bad"));
    assert_eq!(Error::Compile("x".into()).span(), None);
}

#[test]
fn excerpt_marks_the_span_on_its_line() {
    assert_eq!(
        excerpt("select a >> 1", 10..11, false),
        "  select a >> 1\n            ^"
    );
    // A span with no width still gets a marker: the end of the text.
    assert_eq!(
        excerpt("select a >", 10..10, false),
        "  select a >\n            ^"
    );
    // Wide glyphs before the span count two columns.
    assert_eq!(excerpt("袋 >> 1", 4..6, false), "  袋 >> 1\n     ^^");
    // A script of several lines numbers the line the span is on.
    assert_eq!(
        excerpt("cols a\nselect a >> 1\nfmt", 16..17, false),
        "2 | select a >> 1\n  |          ^"
    );
    // A CRLF script shows its lines without the `\r`.
    assert_eq!(
        excerpt("cols a\r\nselect a >> 1\r\nfmt", 17..24, false),
        "2 | select a >> 1\n  |          ^^^^"
    );
    assert_eq!(
        excerpt("select a >> 1", 10..11, true),
        "  select a >> 1\n            \x1b[1;31m^\x1b[0m"
    );
}

#[test]
fn did_you_mean_finds_near_typos() {
    let cols = [
        "amount".to_string(),
        "region".to_string(),
        "price".to_string(),
    ];
    assert_eq!(did_you_mean("amont", &cols), Some("amount"));
    assert_eq!(did_you_mean("regin", &cols), Some("region"));
    // Too far to be a plausible typo.
    assert_eq!(did_you_mean("zzzzzz", &cols), None);
}

#[test]
fn an_exact_name_is_suggested_for_itself() {
    let cols = ["b".to_string(), "amount".to_string()];
    assert_eq!(did_you_mean("amount", &cols), Some("amount"));
}

#[test]
fn each_error_says_what_is_wrong() {
    let available = vec!["amount".to_string(), "region".to_string()];
    assert_eq!(
        Error::Column {
            name: "amont".to_string(),
            available: available.clone()
        }
        .message(),
        format!(
            "column not found: amont (did you mean `amount`?) — have: {}",
            preview(&available)
        )
    );
    assert_eq!(
        Error::ColumnIndex {
            index: "7".to_string(),
            available: available.clone()
        }
        .message(),
        format!(
            "column index 7 is out of range — have 2 columns ({})",
            preview(&available)
        )
    );
    assert_eq!(
        Error::Num(NumError("NA".to_string())).message(),
        "non-numeric value 'NA'"
    );
    assert_eq!(Error::Io("gone".to_string()).message(), "gone");
    assert_eq!(Error::Other("odd".to_string()).message(), "odd");
}

#[test]
fn a_tab_is_shown_as_one_space() {
    assert_eq!(excerpt("a\tb", 2..3, false), "  a b\n    ^");
}

#[test]
fn the_nearest_name_takes_the_fewest_edits() {
    let names = |ns: &[&str]| -> Vec<String> { ns.iter().map(|n| n.to_string()).collect() };
    // One edit: a character put in, left out, or replaced.
    for typed in ["amo_unt", "amunt", "amoumt"] {
        assert_eq!(
            did_you_mean(typed, &names(&["account", "amount"])),
            Some("amount"),
            "{typed}"
        );
    }
    // Two characters swapped are two edits, still within a third of six.
    assert_eq!(did_you_mean("amuont", &names(&["amount"])), Some("amount"));
    // Turned round it is further than that.
    assert_eq!(did_you_mean("tnuoma", &names(&["amount"])), None);
    // Of two as near, the first.
    assert_eq!(did_you_mean("cat", &names(&["bat", "car"])), Some("bat"));
    // As far as the lengths differ, at least.
    assert_eq!(did_you_mean("am", &names(&["amount"])), None);
}
