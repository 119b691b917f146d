use csvm::datetime::{Stamp, civil_from_days, days_from_civil, format_epoch, read_stamp};
use csvm::field::{Num, Readings};

/// The readings that `s` needs: its seconds, where it has any.
fn readings(s: &str) -> Readings {
    let mut r = Readings::new();
    if let Some((_, _, _, Some(text), _)) = read_stamp(s) {
        if let Ok(v) = text.parse::<f64>() {
            let shown = v.to_string();
            r.learn(
                text,
                Num {
                    bits: v.to_bits(),
                    text: shown,
                },
            );
        }
    }
    r
}

fn seconds(t: &Stamp) -> f64 {
    t.days as f64 * 86400.0
        + (t.hour * 3600) as f64
        + (t.minute * 60) as f64
        + f64::from_bits(t.second)
        - t.offset as f64
}

fn parse_epoch(s: &str) -> Option<f64> {
    csvm::datetime::parse_epoch(s, &readings(s)).map(|t| seconds(&t))
}

#[test]
fn known_epochs() {
    assert_eq!(parse_epoch("1970-01-01"), Some(0.0));
    assert_eq!(parse_epoch("1970-01-01T00:00:00Z"), Some(0.0));
    assert_eq!(parse_epoch("2024-01-01"), Some(1_704_067_200.0));
    // Space separator + explicit UTC offset (the user's format).
    assert_eq!(
        parse_epoch("2024-01-01 00:00:00+00:00"),
        Some(1_704_067_200.0)
    );
    // A +05:30 zone is 5.5h earlier in UTC.
    assert_eq!(
        parse_epoch("2024-01-01T05:30:00+05:30"),
        Some(1_704_067_200.0)
    );
    // Fractional seconds.
    assert_eq!(parse_epoch("2024-01-01T00:00:00.5Z"), Some(1_704_067_200.5));
}

#[test]
fn rejects_non_timestamps() {
    assert_eq!(parse_epoch("hello"), None);
    assert_eq!(parse_epoch("42"), None); // a plain number isn't a date
    assert_eq!(parse_epoch("1-2-3"), None); // short year ⇒ a category, not a date
    assert_eq!(parse_epoch("2024-13-01"), None); // bad month
    assert_eq!(parse_epoch("2024-01-01T25:00"), None); // bad hour
    assert_eq!(parse_epoch(""), None);
}

#[test]
fn format_round_trips() {
    for ts in [
        "1970-01-01 00:00:00",
        "2024-01-01 00:00:00",
        "2026-06-15 11:56:40",
    ] {
        let e = parse_epoch(ts).unwrap();
        assert_eq!(format_epoch(e.floor() as i64), ts, "round-trip {ts}");
    }
}

#[test]
fn dates_are_told_apart() {
    assert_eq!(days_from_civil(1970, 1, 1), 0);
    assert_eq!(days_from_civil(2000, 3, 1), 11017);
    assert_eq!(days_from_civil(1969, 12, 31), -1);
    for z in [-719_468_i64, -1, 0, 59, 11016, 11017, 2_932_896] {
        let (y, m, d) = civil_from_days(z);
        assert_eq!(days_from_civil(y, m, d), z as i128);
    }
    assert_eq!(civil_from_days(11016), (2000, 2, 29));
}

#[test]
fn times_before_the_epoch_are_shown() {
    assert_eq!(format_epoch(-1), "1969-12-31 23:59:59");
}

#[test]
fn second_sixty_one_is_refused() {
    assert!(parse_epoch("2024-01-01T00:00:60Z").is_some());
    assert_eq!(parse_epoch("2024-01-01T00:00:61Z"), None);
}
