use csvm::field::{Field, Num, NumError, Rank, Readings, finite_bits, rank_bits, whole};

fn num(v: f64) -> Num {
    Num {
        bits: v.to_bits(),
        text: v.to_string(),
    }
}

/// The readings of the texts among these that are numbers.
fn readings(texts: &[&str]) -> Readings {
    let mut r = Readings::new();
    for t in texts {
        if let Ok(v) = t.trim().parse::<f64>() {
            r.learn(t.trim().to_string(), num(v));
        }
    }
    r
}

fn text(s: &str) -> Field {
    Field::Str(s.to_string())
}

fn value(n: Option<Num>) -> Option<f64> {
    n.map(|n| f64::from_bits(n.bits))
}

#[test]
fn coerce_num_rules() {
    let r = readings(&["25", "  ", "", "hello"]);
    let coerce = |f: Field| f.coerce_num(&r).map(|n| f64::from_bits(n.bits));
    assert!(matches!(coerce(text("25")), Ok(v) if v == 25.0));
    assert!(matches!(coerce(text("  ")), Ok(v) if v == 0.0));
    assert!(matches!(coerce(text("")), Ok(v) if v == 0.0));
    assert!(matches!(coerce(Field::Num(num(3.5))), Ok(v) if v == 3.5));
    assert!(matches!(coerce(text("hello")), Err(NumError(t)) if t == "hello"));
}

#[test]
fn num_soft_reads_blank_as_zero_and_text_as_none() {
    let r = readings(&["", "  ", " 5 ", "hello"]);
    assert_eq!(value(text("").num_soft(&r)), Some(0.0));
    assert_eq!(value(text("  ").num_soft(&r)), Some(0.0));
    assert_eq!(value(text(" 5 ").num_soft(&r)), Some(5.0));
    assert_eq!(value(text("hello").num_soft(&r)), None);
    assert_eq!(value(Field::Num(num(3.5)).num_soft(&r)), Some(3.5));
}

#[test]
fn num_opt_is_strict_about_empty_and_text() {
    let r = readings(&["", "  ", "hello", " 5 ", "1e3", "NaN", "inf"]);
    assert_eq!(value(text("").num_opt(&r)), None);
    assert_eq!(value(text("  ").num_opt(&r)), None);
    assert_eq!(value(text("hello").num_opt(&r)), None);
    assert_eq!(value(text(" 5 ").num_opt(&r)), Some(5.0));
    assert_eq!(value(text("1e3").num_opt(&r)), Some(1000.0));
    assert_eq!(value(Field::Num(num(3.5)).num_opt(&r)), Some(3.5));
    // Non-finite values parse as numbers, as they do for coerce_num.
    assert!(value(text("NaN").num_opt(&r)).is_some_and(f64::is_nan));
    assert_eq!(value(text("inf").num_opt(&r)), Some(f64::INFINITY));
}

#[test]
fn as_str_views() {
    assert_eq!(text("hi").as_str(), "hi");
    assert_eq!(Field::Num(num(42.0)).as_str(), "42");
}

#[test]
fn into_owned_detaches() {
    let s = String::from("borrowed");
    let owned = text(&s).clone();
    drop(s);
    assert_eq!(owned.as_str(), "borrowed");
}

#[test]
fn a_bad_number_is_reported() {
    assert_eq!(
        NumError("NA".to_string()).message(),
        "non-numeric value 'NA'"
    );
}

#[test]
fn bits_are_ranked_as_their_numbers_are() {
    let values = [
        f64::NEG_INFINITY,
        -1e300,
        -1.5,
        -0.0,
        0.0,
        f64::MIN_POSITIVE,
        1.0,
        2.5,
        f64::INFINITY,
        f64::NAN,
    ];
    for a in values {
        for b in values {
            let want = match a.partial_cmp(&b) {
                None => Rank::Apart,
                Some(std::cmp::Ordering::Less) => Rank::Before,
                Some(std::cmp::Ordering::Equal) => Rank::Same,
                Some(std::cmp::Ordering::Greater) => Rank::After,
            };
            assert_eq!(rank_bits(a.to_bits(), b.to_bits()), want, "{a} {b}");
        }
        assert_eq!(finite_bits(a.to_bits()), a.is_finite(), "{a}");
    }
}

#[test]
fn whole_numbers_round_to_the_nearest_double() {
    for n in [
        0_u64,
        1,
        7,
        1 << 53,
        (1 << 53) + 1,
        (1 << 53) + 3,
        u64::MAX,
        u64::MAX - 1024,
    ] {
        assert_eq!(whole(n), (n as f64).to_bits(), "{n}");
    }
}
