use std::cell::RefCell;
use std::rc::Rc;

use csvm::compile::{Builder, Form, Literals, Refusal, Shape, VERBS, conclude};
use csvm::error::Error;
use csvm::field::Num;
use csvm::plan::{BoolExpr, Literal, Operand, Plan, Stage, Stmt};
use tulisp::{Error as LispError, TulispContext, TulispObject};

fn literal(v: f64) -> Literal {
    Literal {
        num: Num {
            bits: v.to_bits(),
            text: v.to_string(),
        },
        shown: v.to_string(),
    }
}

/// A Lisp value as it is written.
fn form_of(obj: &TulispObject) -> Form {
    let shape = if obj.consp() {
        Shape::List(obj.base_iter().map(|o| form_of(&o)).collect())
    } else if let Ok(name) = obj.as_symbol() {
        Shape::Symbol(name)
    } else if let Ok(text) = obj.as_string() {
        Shape::Str(text)
    } else if let Ok(x) = obj.try_float() {
        Shape::Num(literal(x))
    } else {
        Shape::Other
    };
    Form {
        shape,
        shown: obj.to_string(),
    }
}

/// Run a script in which these literals are numbers, its verbs on one builder.
fn compiled(script: &str, numbers: &[&str]) -> Result<Plan, Error> {
    let mut literals = Literals::new();
    for n in numbers {
        literals.learn(n.to_string(), literal(n.parse().unwrap()));
    }
    let builder = Rc::new(RefCell::new(Builder {
        literals,
        ..Builder::default()
    }));
    let mut ctx = TulispContext::new();
    for verb in VERBS {
        let handle = Rc::clone(&builder);
        ctx.defspecial(verb, move |_ctx, args| {
            match handle.borrow_mut().apply_to(verb, form_of(args)) {
                Ok(()) => Ok(TulispObject::nil()),
                Err(Refusal::Argument(m)) => Err(LispError::invalid_argument(m)),
                Err(Refusal::Mismatch(m)) => Err(LispError::type_mismatch(m)),
            }
        });
    }
    let fault = ctx.eval_string(script).err().map(|e| e.format(&ctx));
    conclude(builder.take(), fault)
}

#[test]
fn compiles_cols_and_keeps_symbols_literal() {
    // `id` etc. are unbound symbols; raw-args compilation must not try to
    // evaluate them as variables.
    let plan = compiled("(cols id fieldA countZ)", &[]).unwrap();
    assert_eq!(plan.stages.len(), 1);
    let Stage::Transform(stmts) = &plan.stages[0] else {
        panic!()
    };
    let Stmt::Cols(p) = &stmts[0] else { panic!() };
    assert!(!p.exclude);
    assert_eq!(p.names, vec!["id", "fieldA", "countZ"]);
}

#[test]
fn select_numeric_vs_string_modes() {
    // `(== a "t")` is a string compare; `(> b 0)` is numeric.
    let plan = compiled(r#"(select (and (== a "t") (> b 0)))"#, &["0"]).unwrap();
    let Stage::Transform(stmts) = &plan.stages[0] else {
        panic!()
    };
    let Stmt::Select(BoolExpr::And(parts)) = &stmts[0] else {
        panic!()
    };
    let BoolExpr::Cmp(eq) = &parts[0] else {
        panic!()
    };
    assert!(!eq.numeric);
    let BoolExpr::Cmp(gt) = &parts[1] else {
        panic!()
    };
    assert!(gt.numeric);
}

#[test]
fn to_num_makes_later_compare_numeric() {
    // After `to-num`, comparing the column against a *string* literal is
    // still numeric, and the literal is parsed at compile time.
    let plan = compiled(r#"(to-num c) (select (== c "5"))"#, &["5"]).unwrap();
    let Stage::Transform(stmts) = &plan.stages[0] else {
        panic!()
    };
    let Stmt::Select(BoolExpr::Cmp(c)) = &stmts[1] else {
        panic!()
    };
    assert!(c.numeric);
    assert!(matches!(&c.rhs, Operand::Num(n) if f64::from_bits(n.num.bits) == 5.0));
}

#[test]
fn sort_splits_stages_like_csvm() {
    // to_num + select, then sort, then to_str -> three stages.
    let plan = compiled(
        "(to-num c) (select (> c 0)) (sort-by (c :r)) (to-str c)",
        &["0"],
    )
    .unwrap();
    assert_eq!(plan.stages.len(), 3);
    assert!(matches!(plan.stages[0], Stage::Transform(_)));
    let Stage::Sort(s) = &plan.stages[1] else {
        panic!()
    };
    assert!(s.keys[0].descending);
    assert!(s.keys[0].numeric); // from the earlier to-num
    assert!(matches!(plan.stages[2], Stage::Transform(_)));
}

#[test]
fn drop_cols_and_string_names() {
    let plan = compiled(r#"(drop-cols "weird name" fieldA)"#, &[]).unwrap();
    let Stage::Transform(stmts) = &plan.stages[0] else {
        panic!()
    };
    let Stmt::Cols(p) = &stmts[0] else { panic!() };
    assert!(p.exclude);
    assert_eq!(p.names, vec!["weird name", "fieldA"]);
}

#[test]
fn unknown_operator_is_a_compile_error() {
    let e = compiled("(select (xor a b))", &[]).unwrap_err();
    assert!(matches!(e, Error::Compile(m) if m.contains("unknown operator")));
}

#[test]
fn regex_match_compiles() {
    let plan = compiled(r#"(select (=~ name "^a.*z$"))"#, &[]).unwrap();
    let Stage::Transform(stmts) = &plan.stages[0] else {
        panic!()
    };
    assert!(matches!(
        &stmts[0],
        Stmt::Select(BoolExpr::Match { negate: false, .. })
    ));
}

#[test]
fn a_number_is_the_number_it_is_written_as() {
    let plan = compiled("(select (>= b 2.5))", &[]).unwrap();
    let Stage::Transform(stmts) = &plan.stages[0] else {
        panic!()
    };
    let Stmt::Select(BoolExpr::Cmp(c)) = &stmts[0] else {
        panic!()
    };
    assert!(matches!(&c.rhs, Operand::Num(n) if f64::from_bits(n.num.bits) == 2.5));
}

#[test]
fn each_refusal_says_what_was_wanted() {
    for (script, want) in [
        ("(cols)", "cols expects at least one column"),
        ("(cols 5)", "expected a column name, got: 5"),
        ("(select)", "select expects one argument"),
        ("(select (> a 1) (> b 1))", "select expects exactly one argument"),
        ("(select a)", "select expects a comparison or logical form"),
        ("(select (not))", "not expects exactly one argument"),
        ("(select (> a))", "comparison expects exactly two operands"),
        ("(select (=~ a))", "=~ expects a column and a pattern"),
        ("(select (=~ a 5))", "=~ pattern must be a string"),
        ("(select (=~ a \"(\"))", "invalid regex '('"),
        ("(to-num c) (select (== c \"x\"))", "non-numeric literal 'x' in numeric comparison"),
        ("(sort-by)", "sort expects at least one column"),
        ("(sort-by (c :up))", "unknown sort modifier"),
    ] {
        match compiled(script, &[]) {
            Err(Error::Compile(m)) => assert!(m.contains(want), "{script}: {m}"),
            _ => panic!("{script} compiled"),
        }
    }
}

#[test]
fn a_script_comes_to_its_plan_or_to_its_error() {
    let plan = conclude(Builder::default(), None).unwrap();
    assert!(plan.stages.is_empty() && plan.graph.is_none() && plan.colors.is_empty());
    assert!(matches!(
        conclude(Builder::default(), Some("no such verb".to_string())),
        Err(Error::Compile(m)) if m == "no such verb"
    ));
}

#[test]
fn a_verb_takes_its_argument_list_or_none() {
    let form = |shape: Shape, shown: &str| Form {
        shape,
        shown: shown.to_string(),
    };
    let name = form(Shape::Symbol("id".to_string()), "id");
    let mut b = Builder::default();
    assert!(
        b.apply_to("cols", form(Shape::List(vec![name]), "(id)"))
            .is_ok()
    );
    assert_eq!(b.items.len(), 1);
    // No list is an empty one, which the verb refuses.
    assert!(matches!(
        b.apply_to("cols", form(Shape::Symbol("nil".to_string()), "nil")),
        Err(Refusal::Argument(m)) if m == "cols expects at least one column"
    ));
    assert_eq!(b.items.len(), 1);
    let plan = conclude(b, None).unwrap();
    let Stage::Transform(stmts) = &plan.stages[0] else {
        panic!("one transform");
    };
    assert!(matches!(&stmts[0], Stmt::Cols(p) if p.names == ["id"] && !p.exclude));
}
