use csvm::error::Error;
use csvm::field::Num;
use csvm::plan::{
    AddStmt, ColRef, GraphKind, GraphOpts, GraphSpec, Plan, ProjectStmt, RenameStmt, SortKey,
    SortStmt, Stage, Stmt, ValExpr,
};
use csvm::resolve::{find, find_all};

fn num(v: f64) -> Num {
    Num {
        bits: v.to_bits(),
        text: v.to_string(),
    }
}

fn strings(names: &[&str]) -> Vec<String> {
    names.iter().map(|n| n.to_string()).collect()
}

fn cols(exclude: bool, names: &[&str]) -> Plan {
    Plan::of(vec![Stage::Transform(vec![Stmt::Cols(ProjectStmt {
        exclude,
        names: strings(names),
        positions: vec![],
    })])])
}

#[test]
fn a_column_is_found_by_name_or_by_position() {
    let h = strings(&["id", "2", "amount"]);
    assert_eq!(find(&h, "amount").unwrap(), 2);
    // An exact name wins over a position.
    assert_eq!(find(&h, "2").unwrap(), 1);
    assert_eq!(find(&h, "1").unwrap(), 0);
    assert_eq!(find(&h, "3").unwrap(), 2);
    assert!(matches!(find(&h, "nope"), Err(Error::Column { name, .. }) if name == "nope"));
    for bad in ["0", "4", "99999999999999999999999999"] {
        let e = find(&h, bad).unwrap_err();
        assert!(
            matches!(&e, Error::ColumnIndex { index, available }
                if index == bad && available == &h),
            "{e:?}"
        );
    }
    assert_eq!(find_all(&h, &strings(&["amount", "id"])).unwrap(), [2, 0]);
    assert!(matches!(
        find_all(&h, &strings(&["id", "x", "y"])),
        Err(Error::Column { name, .. }) if name == "x"
    ));
}

#[test]
fn dropping_ignores_unknown_names_but_not_bad_positions() {
    let h = strings(&["a", "b", "c"]);
    let (_, left) = cols(true, &["b", "nope"]).resolve(&h).unwrap();
    assert_eq!(left, ["a", "c"]);
    let (_, left) = cols(true, &["3"]).resolve(&h).unwrap();
    assert_eq!(left, ["a", "b"]);
    assert!(matches!(
        cols(true, &["9"]).resolve(&h),
        Err(Error::ColumnIndex { .. })
    ));
}

#[test]
fn later_stages_see_the_header_the_earlier_leave() {
    let rename = Stmt::Rename(RenameStmt {
        pairs: vec![("a".to_string(), "x".to_string())],
    });
    let add = Stmt::Add(AddStmt {
        name: "y".to_string(),
        pos: None,
        expr: ValExpr::Col(ColRef::new("x".to_string())),
    });
    let replace = Stmt::Add(AddStmt {
        name: "b".to_string(),
        pos: None,
        expr: ValExpr::Rownum,
    });
    let sort = Stage::Sort(SortStmt {
        keys: vec![SortKey {
            name: "y".to_string(),
            pos: 0,
            descending: false,
            numeric: false,
        }],
    });
    let plan = Plan::of(vec![Stage::Transform(vec![rename, add, replace]), sort]);
    let (plan, left) = plan.resolve(&strings(&["a", "b"])).unwrap();
    assert_eq!(left, ["x", "b", "y"]);
    let Stage::Transform(stmts) = &plan.stages[0] else {
        panic!("a transform")
    };
    assert!(matches!(&stmts[1], Stmt::Add(a) if a.pos.is_none()));
    assert!(matches!(&stmts[2], Stmt::Add(a) if a.pos == Some(1)));
    assert!(matches!(&plan.stages[1], Stage::Sort(s) if s.keys[0].pos == 2));
}

#[test]
fn a_chart_has_to_find_its_columns() {
    let chart = |name: &str| Plan {
        graph: Some(GraphSpec {
            kind: GraphKind::Hist,
            cols: vec![ColRef::new(name.to_string())],
            opts: GraphOpts {
                title: None,
                bins: None,
                scale: num(1.0),
                svg: false,
                data: false,
                log: false,
                xrange: None,
                yrange: None,
                color_by: None,
            },
        }),
        ..Plan::of(vec![])
    };
    let h = strings(&["a", "b"]);
    let (p, left) = chart("b").resolve(&h).unwrap();
    assert_eq!(left, h);
    assert_eq!(p.graph.unwrap().cols[0].pos, 1);
    assert!(matches!(chart("c").resolve(&h), Err(Error::Column { .. })));
}
