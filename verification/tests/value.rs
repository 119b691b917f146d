use csvm::field::{Field, Num, NumError, Readings};
use csvm::plan::{ArithOp, BoolExpr, Cmp, CmpOp, ColRef, Func, Literal, Operand, ValExpr};
use csvm::value::{Fault, NumOp, Place, Stop};

fn num(v: f64) -> Num {
    Num {
        bits: v.to_bits(),
        text: v.to_string(),
    }
}

fn literal(v: f64) -> Literal {
    Literal {
        num: num(v),
        shown: v.to_string(),
    }
}

fn col(pos: usize) -> ValExpr {
    ValExpr::Col(ColRef {
        name: format!("c{pos}"),
        pos,
    })
}

fn prev(pos: usize) -> ValExpr {
    ValExpr::Prev(ColRef {
        name: format!("c{pos}"),
        pos,
    })
}

fn text(s: &str) -> ValExpr {
    ValExpr::Str(s.to_string())
}

fn number(v: f64) -> ValExpr {
    ValExpr::Num(literal(v))
}

fn arith(op: ArithOp, lhs: ValExpr, rhs: ValExpr) -> ValExpr {
    ValExpr::Arith {
        op,
        lhs: Box::new(lhs),
        rhs: Box::new(rhs),
    }
}

fn call(f: Func, args: Vec<ValExpr>) -> ValExpr {
    ValExpr::Func(f, args)
}

fn row(cells: &[&str]) -> Vec<Field> {
    cells.iter().map(|c| Field::Str(c.to_string())).collect()
}

fn readings(cells: &[&str]) -> Readings {
    let mut r = Readings::new();
    for c in cells.iter().map(|c| c.trim()) {
        if let Ok(v) = c.parse::<f64>() {
            r.learn(c.to_string(), num(v));
        }
    }
    r
}

/// What the operation comes to, for those that the tests use.
fn compute(op: &NumOp) -> Num {
    let v = |n: &Num| f64::from_bits(n.bits);
    num(match op {
        NumOp::Neg(n) => -v(n),
        NumOp::Arith(ArithOp::Plus, a, b) => v(a) + v(b),
        NumOp::Arith(ArithOp::Minus, a, b) => v(a) - v(b),
        NumOp::Arith(ArithOp::Times, a, b) => v(a) * v(b),
        NumOp::Arith(ArithOp::Over, a, b) => v(a) / v(b),
        NumOp::Arith(ArithOp::Modulo, a, b) => v(a) % v(b),
        NumOp::Func(Func::Max, ns) => ns.iter().map(v).fold(f64::MIN, f64::max),
        NumOp::Func(f, _) => panic!("{f:?}"),
    })
}

/// The text of the expression's value on a row behind another, and how many
/// operations it took.
fn value_on(
    e: &ValExpr,
    cells: &[&str],
    before: Option<&[&str]>,
    rownum: u64,
) -> Result<(String, usize), Stop> {
    let r = readings(&[cells, before.unwrap_or(&[])].concat());
    let cells = row(cells);
    let before = before.map(row);
    let mut results: Vec<Num> = Vec::new();
    loop {
        let place = Place {
            row: &cells,
            prev: before.as_ref(),
            rownum,
            readings: &r,
            results: &results,
        };
        match e.value(&place) {
            Ok(v) => return Ok((v.as_str().to_string(), results.len())),
            Err(Stop::Wants(op)) => results.push(compute(&op)),
            Err(stop) => return Err(stop),
        }
    }
}

fn value(e: &ValExpr, cells: &[&str]) -> String {
    value_on(e, cells, None, 1).unwrap().0
}

fn over_ten(pos: usize) -> BoolExpr {
    BoolExpr::Cmp(Cmp {
        op: CmpOp::Gt,
        lhs: Operand::Col(ColRef {
            name: format!("c{pos}"),
            pos,
        }),
        rhs: Operand::Num(literal(10.0)),
        numeric: true,
    })
}

#[test]
fn operations_are_asked_for_from_the_left_and_from_within() {
    // (c0 + 2) * -c1
    let e = arith(
        ArithOp::Times,
        arith(ArithOp::Plus, col(0), number(2.0)),
        ValExpr::Neg(Box::new(col(1))),
    );
    let cells = row(&["5", "3"]);
    let r = readings(&["5", "3"]);
    let asked = |results: &[Num]| {
        let place = Place {
            row: &cells,
            prev: None,
            rownum: 1,
            readings: &r,
            results,
        };
        e.value(&place)
    };
    match asked(&[]) {
        Err(Stop::Wants(NumOp::Arith(ArithOp::Plus, a, b))) => {
            assert_eq!((a.text.as_str(), b.text.as_str()), ("5", "2"));
        }
        other => panic!("{other:?}"),
    }
    match asked(&[num(7.0)]) {
        Err(Stop::Wants(NumOp::Neg(n))) => assert_eq!(n.text, "3"),
        other => panic!("{other:?}"),
    }
    match asked(&[num(7.0), num(-3.0)]) {
        Err(Stop::Wants(NumOp::Arith(ArithOp::Times, a, b))) => {
            assert_eq!((a.text.as_str(), b.text.as_str()), ("7", "-3"));
        }
        other => panic!("{other:?}"),
    }
    let done = asked(&[num(7.0), num(-3.0), num(-21.0)]).unwrap();
    assert_eq!(done.as_str(), "-21");
    // Results behind those it asks for change nothing.
    let more = asked(&[num(7.0), num(-3.0), num(-21.0), num(99.0)]).unwrap();
    assert_eq!(more.as_str(), "-21");
    assert_eq!(
        value_on(&e, &["5", "3"], None, 1).unwrap(),
        ("-21".to_string(), 3)
    );
}

#[test]
fn the_row_before_is_the_row_itself_on_the_first() {
    let delta = arith(ArithOp::Minus, col(0), prev(0));
    assert_eq!(value_on(&delta, &["7"], None, 1).unwrap().0, "0");
    assert_eq!(value_on(&delta, &["7"], Some(&["4"]), 2).unwrap().0, "3");
    assert_eq!(value_on(&ValExpr::Rownum, &["7"], None, 12).unwrap().0, "12");
    // What does not look past the row is the same wherever the row stands.
    let plain = arith(ArithOp::Plus, col(0), number(1.0));
    assert_eq!(value_on(&plain, &["7"], None, 1).unwrap().0, "8");
    assert_eq!(value_on(&plain, &["7"], Some(&["4"]), 9).unwrap().0, "8");
}

#[test]
fn arithmetic_on_a_non_number_or_a_division_by_zero_is_refused() {
    let sum = arith(ArithOp::Plus, col(0), col(1));
    match value_on(&sum, &["1", "pear"], None, 1) {
        Err(Stop::Fault(Fault::NotNumber(NumError(t)))) => assert_eq!(t, "pear"),
        other => panic!("{other:?}"),
    }
    // A blank cell counts as zero.
    assert_eq!(value(&sum, &["1", " "]), "1");
    for op in [ArithOp::Over, ArithOp::Modulo] {
        assert!(matches!(
            value_on(&arith(op, col(0), col(1)), &["1", "0"], None, 1),
            Err(Stop::Fault(Fault::DivisionByZero))
        ));
        assert!(matches!(
            value_on(&arith(op, col(0), col(1)), &["1", "-0"], None, 1),
            Err(Stop::Fault(Fault::DivisionByZero))
        ));
    }
    assert_eq!(value(&arith(ArithOp::Over, col(0), col(1)), &["6", "4"]), "1.5");
    assert!(matches!(
        value_on(&call(Func::Upper, vec![]), &[], None, 1),
        Err(Stop::Fault(Fault::NoArgument(Func::Upper)))
    ));
}

#[test]
fn text_is_joined_and_changed_without_arithmetic() {
    let e = ValExpr::Concat(vec![col(0), text("-"), col(1), number(2.0)]);
    assert_eq!(
        value_on(&e, &["a", "7"], None, 1).unwrap(),
        ("a-72".to_string(), 0)
    );
    assert_eq!(value(&ValExpr::Concat(vec![]), &[]), "");
    let on = |f: Func, cell: &str| value(&call(f, vec![col(0)]), &[cell]);
    assert_eq!(on(Func::Upper, "Straße"), "STRASSE");
    assert_eq!(on(Func::Lower, "ÄB"), "äb");
    assert_eq!(on(Func::Trim, "  x y "), "x y");
    assert_eq!(on(Func::Str, "x"), "x");
    assert_eq!(on(Func::Len, "äbc"), "3");
    assert_eq!(on(Func::Num, " 7"), "7");
    assert!(matches!(
        value_on(&call(Func::Num, vec![col(0)]), &["x"], None, 1),
        Err(Stop::Fault(Fault::NotNumber(_)))
    ));
}

#[test]
fn coalesce_is_the_first_that_is_not_empty() {
    let e = call(Func::Coalesce, vec![col(0), col(1), col(2)]);
    assert_eq!(value(&e, &["", "b", "c"]), "b");
    assert_eq!(value(&e, &["a", "b", "c"]), "a");
    assert_eq!(value(&e, &["", "", "c"]), "c");
    assert_eq!(value(&e, &["", "", ""]), "");
}

#[test]
fn a_function_of_numbers_takes_all_of_its_arguments_as_numbers() {
    let e = call(Func::Max, vec![col(0), col(1), number(4.0)]);
    assert_eq!(value(&e, &["3", "9"]), "9");
    match value_on(&e, &["3", "pear"], None, 1) {
        Err(Stop::Fault(Fault::NotNumber(NumError(t)))) => assert_eq!(t, "pear"),
        other => panic!("{other:?}"),
    }
}

#[test]
fn only_the_branch_taken_is_evaluated() {
    let e = ValExpr::Cond {
        test: Box::new(over_ten(0)),
        then_: Box::new(text("big")),
        else_: Box::new(arith(ArithOp::Over, number(1.0), number(0.0))),
    };
    assert_eq!(value(&e, &["11"]), "big");
    assert!(matches!(
        value_on(&e, &["9"], None, 1),
        Err(Stop::Fault(Fault::DivisionByZero))
    ));
    assert!(matches!(
        value_on(&e, &["pear"], None, 1),
        Err(Stop::Fault(Fault::NotNumber(_)))
    ));
    let test = ValExpr::Bool(Box::new(over_ten(0)));
    assert_eq!(value(&test, &["11"]), "t");
    assert_eq!(value(&test, &["9"]), "f");
}
