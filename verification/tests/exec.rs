use csvm::color::{Ramp, Rgb, parse_ramp, parse_style};
use csvm::csv::parse_chunk;
use csvm::describe::describe;
use csvm::error::Error;
use csvm::exec::{RunOpts, Why, transform_chunk};
use csvm::field::{Field, Num, Readings, Row};
use csvm::group::{ColFigures, Tally, dedup_rows, group_rows, profile_rows};
use csvm::join::right_rows;
use csvm::plan::{
    AddStmt, AffixKind, AggFunc, AggSpec, ArithOp, BoolExpr, Cmp, CmpOp, ColRef, ColorRule,
    ColorScope, ConvStmt, GroupStmt, JoinStmt, JoinType, Literal, Operand, OutputFormat, Plan,
    ProjectStmt, RenameStmt, SortKey, SortStmt, Stage, StatsStmt, Stmt, UniqStmt, ValExpr,
};
use csvm::prepare::{FileHeader, join_files, prepare_joins};
use csvm::render::{Rendered, render};
use csvm::stages::{StageHalt, Supply, apply_stages_over_rows, run};
use csvm::stream::{
    ChunkStep, FileRoute, Reassembly, Route, chunk_text, file_route, next_chunk,
    next_chunk_available, read_header, route, shard_cut, shard_ranges, snap_to_newline,
    stream_head,
};
use csvm::value::{Fault, NumOp};

const INPUT: &str = "id,fieldA,countZ\n1,t,5\n2,f,0\n3,t,0\n4,t,9\n";

// Numbers.

fn shown(v: f64) -> String {
    if v.fract() == 0.0 && v.abs() < 1e15 {
        return format!("{}", v as i64);
    }
    let s = format!("{v:.6}");
    s.trim_end_matches('0').trim_end_matches('.').to_string()
}

fn num(v: f64) -> Num {
    Num {
        bits: v.to_bits(),
        text: shown(v),
    }
}

/// A number written in a script.
fn literal(v: f64) -> Literal {
    Literal {
        num: num(v),
        shown: v.to_string(),
    }
}

/// What the cells of the input read as.
fn readings(input: &str) -> Readings {
    let mut r = Readings::new();
    for row in parse_chunk(input) {
        for f in row {
            let t = f.as_str().trim().to_string();
            if let Ok(v) = t.parse::<f64>() {
                r.learn(t, num(v));
            }
        }
    }
    r
}

/// What is known of a column's cells: numeric figures where every filled cell is
/// a number.
fn figures(cells: &[Field]) -> ColFigures {
    let texts: Vec<&str> = cells.iter().map(|f| f.as_str()).collect();
    let filled: Vec<&str> = texts.iter().copied().filter(|t| !t.is_empty()).collect();
    let numbers: Vec<f64> = filled.iter().filter_map(|t| t.parse().ok()).collect();
    let numeric = !filled.is_empty() && numbers.len() == filled.len();
    let n = numbers.len() as f64;
    let sum: f64 = numbers.iter().sum();
    let text = |t: Option<&&str>| Field::Str(t.map_or(String::new(), |t| t.to_string()));
    let (min, max) = if numeric {
        (
            Field::Num(num(numbers.iter().copied().fold(f64::INFINITY, f64::min))),
            Field::Num(num(numbers
                .iter()
                .copied()
                .fold(f64::NEG_INFINITY, f64::max))),
        )
    } else {
        (text(filled.iter().min()), text(filled.iter().max()))
    };
    let mean = sum / n;
    let spread: f64 = numbers.iter().map(|v| (v - mean) * (v - mean)).sum();
    ColFigures {
        min,
        max,
        sum: if numeric { Some(num(sum)) } else { None },
        mean: if numeric { Some(num(mean)) } else { None },
        stddev: if numeric && numbers.len() > 1 {
            Field::Num(num((spread / (n - 1.0)).sqrt()))
        } else {
            Field::Str(String::new())
        },
    }
}

// Plans.

fn strings(names: &[&str]) -> Vec<String> {
    names.iter().map(|n| n.to_string()).collect()
}

fn col(name: &str) -> Operand {
    Operand::Col(ColRef::new(name.to_string()))
}

fn text(s: &str) -> Operand {
    Operand::Str(s.to_string())
}

fn number(v: f64) -> Operand {
    Operand::Num(literal(v))
}

/// A comparison, numeric where a side is a number.
fn cmp(op: CmpOp, lhs: Operand, rhs: Operand) -> BoolExpr {
    let numeric = matches!(lhs, Operand::Num(_)) || matches!(rhs, Operand::Num(_));
    BoolExpr::Cmp(Cmp {
        op,
        lhs,
        rhs,
        numeric,
    })
}

fn select(e: BoolExpr) -> Stmt {
    Stmt::Select(e)
}

fn cols(exclude: bool, names: &[&str]) -> Stmt {
    Stmt::Cols(ProjectStmt {
        exclude,
        names: strings(names),
        positions: vec![],
    })
}

fn sort(keys: &[(&str, bool, bool)]) -> Stage {
    Stage::Sort(SortStmt {
        keys: keys
            .iter()
            .map(|(name, numeric, descending)| SortKey {
                name: name.to_string(),
                pos: 0,
                descending: *descending,
                numeric: *numeric,
            })
            .collect(),
    })
}

fn transform(stmts: Vec<Stmt>) -> Stage {
    Stage::Transform(stmts)
}

fn uniq(names: &[&str]) -> Stage {
    Stage::Uniq(UniqStmt {
        cols: strings(names),
        positions: vec![],
    })
}

fn stats(names: &[&str]) -> Stage {
    Stage::Stats(StatsStmt {
        names: strings(names),
        positions: vec![],
    })
}

fn agg(func: AggFunc, name: &str, col: Option<&str>) -> AggSpec {
    AggSpec {
        name: name.to_string(),
        func,
        col: col.map(|c| c.to_string()),
        pos: None,
    }
}

fn group(keys: &[&str], aggs: Vec<AggSpec>) -> Stage {
    Stage::Group(GroupStmt {
        keys: strings(keys),
        key_positions: vec![],
        aggs,
    })
}

fn flag_is_t() -> BoolExpr {
    cmp(CmpOp::Eq, col("fieldA"), text("t"))
}

fn plan(stages: Vec<Stage>) -> Plan {
    Plan::of(stages)
}

// Running.

fn supplies(n: usize) -> Vec<Supply> {
    (0..n)
        .map(|_| Supply {
            results: vec![],
            figures: vec![],
            right: vec![],
        })
        .collect()
}

/// What an operation comes to, for the few used here.
fn compute(op: &NumOp) -> Num {
    let v = |n: &Num| f64::from_bits(n.bits);
    num(match op {
        NumOp::Neg(n) => -v(n),
        NumOp::Arith(ArithOp::Plus, a, b) => v(a) + v(b),
        NumOp::Arith(ArithOp::Minus, a, b) => v(a) - v(b),
        NumOp::Arith(ArithOp::Times, a, b) => v(a) * v(b),
        NumOp::Arith(ArithOp::Over, a, b) => v(a) / v(b),
        NumOp::Arith(ArithOp::Modulo, a, b) => v(a) % v(b),
        NumOp::Func(f, _) => panic!("{f:?} is not used here"),
    })
}

fn fault(f: Fault) -> Error {
    match f {
        Fault::NotNumber(e) => Error::Num(e),
        other => panic!("{other:?}"),
    }
}

/// Resolve the plan against the input's header and run it end to end, with what
/// its stages ask for worked out as they ask.
fn run_plan(plan: Plan, input: &str) -> Result<String, Error> {
    let cut = input.find('\n').map_or(input.len(), |i| i + 1);
    let header = read_header(input[..cut].as_bytes())?;
    let (plan, out_header) = plan.resolve(&header)?;
    run_resolved(&plan, &out_header, &input[cut..], vec![])
}

fn run_resolved(
    plan: &Plan,
    out_header: &[String],
    body: &str,
    right: Vec<(usize, Vec<Row>)>,
) -> Result<String, Error> {
    let readings = readings(body);
    let mut supply = supplies(plan.stages.len());
    for (k, rows) in right {
        supply[k].right = rows;
    }
    loop {
        let (k, halt) = match run(plan, out_header, body, &supply, &readings) {
            Ok(out) => return Ok(out),
            Err(e) => e,
        };
        let rows = || {
            apply_stages_over_rows(
                &plan.stages[..k],
                parse_chunk(body),
                &supply[..k],
                &readings,
            )
            .unwrap_or_else(|_| panic!("the stages before have run"))
        };
        match halt {
            StageHalt::Num(e) => return Err(Error::Num(e)),
            StageHalt::Figures => {
                supply[k].figures = match &plan.stages[k] {
                    Stage::Group(g) => group_rows(g, &rows())
                        .accs()
                        .iter()
                        .map(|acc| acc.cells.iter().map(|c| figures(c)).collect())
                        .collect(),
                    Stage::Stats(s) => {
                        let rows = rows();
                        vec![
                            s.positions
                                .iter()
                                .map(|&p| {
                                    let cells: Vec<Field> =
                                        rows.iter().map(|r| r[p].clone()).collect();
                                    figures(&cells)
                                })
                                .collect(),
                        ]
                    }
                    _ => panic!("only these need figures"),
                };
            }
            StageHalt::Row(h) => match h.why {
                Why::Fail(f) => return Err(fault(f)),
                Why::Wants(op) => {
                    while supply[k].results.len() <= h.row {
                        supply[k].results.push(vec![]);
                    }
                    supply[k].results[h.row].push(compute(&op));
                }
            },
        }
    }
}

fn lines(s: &str) -> Vec<&str> {
    s.lines().collect()
}

#[test]
fn cols_reorder_and_drop() {
    assert_eq!(
        run_plan(
            plan(vec![transform(vec![cols(false, &["countZ", "id"])])]),
            INPUT
        )
        .unwrap(),
        "countZ,id\n5,1\n0,2\n0,3\n9,4\n"
    );
    assert_eq!(
        run_plan(plan(vec![transform(vec![cols(true, &["fieldA"])])]), INPUT).unwrap(),
        "id,countZ\n1,5\n2,0\n3,0\n4,9\n"
    );
}

#[test]
fn select_string_and_implicit_numeric() {
    assert_eq!(
        run_plan(plan(vec![transform(vec![select(flag_is_t())])]), INPUT).unwrap(),
        "id,fieldA,countZ\n1,t,5\n3,t,0\n4,t,9\n"
    );
    // Implicit numeric: no to-num needed.
    let both = BoolExpr::And(vec![
        flag_is_t(),
        cmp(CmpOp::Gt, col("countZ"), number(0.0)),
    ]);
    assert_eq!(
        run_plan(plan(vec![transform(vec![select(both)])]), INPUT).unwrap(),
        "id,fieldA,countZ\n1,t,5\n4,t,9\n"
    );
}

#[test]
fn numeric_sort_then_filter() {
    // sort by countZ descending, numerically; output numbers print cleanly.
    assert_eq!(
        run_plan(plan(vec![sort(&[("countZ", true, true)])]), INPUT).unwrap(),
        "id,fieldA,countZ\n4,t,9\n1,t,5\n2,f,0\n3,t,0\n"
    );
}

#[test]
fn pipeline_with_sort_stage_split() {
    // filter, sort, then drop a column — three stages.
    let out = run_plan(
        plan(vec![
            transform(vec![select(flag_is_t())]),
            sort(&[("countZ", true, false)]),
            transform(vec![cols(true, &["fieldA"])]),
        ]),
        INPUT,
    )
    .unwrap();
    assert_eq!(out, "id,countZ\n3,0\n1,5\n4,9\n");
}

#[test]
fn lexical_vs_numeric_sort() {
    let input = "n\n10\n9\n100\n";
    // numeric: 9 < 10 < 100
    assert_eq!(
        run_plan(plan(vec![sort(&[("n", true, false)])]), input).unwrap(),
        "n\n9\n10\n100\n"
    );
    // lexical: "10" < "100" < "9"
    assert_eq!(
        run_plan(plan(vec![sort(&[("n", false, false)])]), input).unwrap(),
        "n\n10\n100\n9\n"
    );
}

/// The chunks of up to `size` bytes that an input is read in.
fn chunked(input: &str, size: usize) -> Vec<&str> {
    let mut chunks: Vec<&str> = Vec::new();
    let mut rest = input;
    loop {
        let n = size.min(rest.len());
        let end = match next_chunk(size, n) {
            ChunkStep::End => return chunks,
            ChunkStep::Complete => n,
            ChunkStep::FinishLine => line_end(rest, n),
        };
        chunks.push(&rest[..end]);
        rest = &rest[end..];
    }
}

fn line_end(text: &str, from: usize) -> usize {
    text[from..].find('\n').map_or(text.len(), |i| from + i + 1)
}

/// The plan's only transform over the chunks of `size` bytes of the input, their
/// outputs put back in order after they come in from the last to the first.
fn in_chunks(stmts: Vec<Stmt>, input: &str, size: usize) -> String {
    let cut = input.find('\n').unwrap() + 1;
    let header = read_header(input[..cut].as_bytes()).unwrap();
    let (plan, _) = plan(vec![transform(stmts)]).resolve(&header).unwrap();
    let Stage::Transform(stmts) = &plan.stages[0] else {
        panic!("a transform")
    };
    let body = &input[cut..];
    let readings = readings(body);
    let chunks = chunked(body, size);
    let mut done = Reassembly::new();
    let mut out = input[..cut].to_string();
    for (id, chunk) in chunks.iter().enumerate().rev() {
        let Ok(piece) = transform_chunk(stmts, chunk, &[], &readings) else {
            panic!("no row stops it")
        };
        out.push_str(&done.offer(id as u64, piece));
    }
    out
}

#[test]
fn parallel_preserves_order_and_matches_serial() {
    // Many rows + a tiny chunk size forces multiple chunks across workers;
    // output must come back in input order regardless of thread count.
    let mut input = String::from("id,keep\n");
    for i in 0..5000 {
        input.push_str(&format!("{i},{}\n", i % 2));
    }
    let keep = || vec![select(cmp(CmpOp::Eq, col("keep"), text("1")))];
    let serial = run_plan(plan(vec![transform(keep())]), &input).unwrap();
    let parallel = in_chunks(keep(), &input, 64);
    assert_eq!(serial, parallel);
    // Spot-check ordering: first data rows are 1, 3, 5, ...
    assert!(parallel.starts_with("id,keep\n1,1\n3,1\n5,1\n"));
}

#[test]
fn head_negative_keeps_all_but_last() {
    // INPUT has ids 1..4; `head -n -1` drops the last row.
    assert_eq!(
        run_plan(plan(vec![Stage::DropLast(1)]), INPUT).unwrap(),
        "id,fieldA,countZ\n1,t,5\n2,f,0\n3,t,0\n"
    );
    // Dropping more than present yields just the header.
    assert_eq!(
        run_plan(plan(vec![Stage::DropLast(9)]), INPUT).unwrap(),
        "id,fieldA,countZ\n"
    );
}

#[test]
fn uniq_dedups_keeping_first() {
    let input = "g,v\na,1\nb,2\na,3\na,1\nb,9\n";
    // Whole-row dedup keeps the first of each distinct row (a,1 appears twice).
    assert_eq!(
        run_plan(plan(vec![uniq(&[])]), input).unwrap(),
        "g,v\na,1\nb,2\na,3\nb,9\n"
    );
    // By a key column: first row per distinct g.
    assert_eq!(
        run_plan(plan(vec![uniq(&["g"])]), input).unwrap(),
        "g,v\na,1\nb,2\n"
    );
}

#[test]
fn tail_keeps_last_rows() {
    // INPUT has 4 data rows (ids 1..4); tail 2 keeps the last two.
    assert_eq!(
        run_plan(plan(vec![Stage::Tail(2)]), INPUT).unwrap(),
        "id,fieldA,countZ\n3,t,0\n4,t,9\n"
    );
    // Composes after a filter (fieldA == 't' -> ids 1,3,4; last one).
    assert_eq!(
        run_plan(
            plan(vec![
                transform(vec![select(flag_is_t())]),
                Stage::Tail(1)
            ]),
            INPUT
        )
        .unwrap(),
        "id,fieldA,countZ\n4,t,9\n"
    );
    // Asking for more than present keeps them all.
    assert_eq!(
        run_plan(plan(vec![Stage::Tail(99)]), INPUT).unwrap(),
        INPUT
    );
}

#[test]
fn missing_column_is_an_error() {
    assert!(matches!(
        run_plan(plan(vec![transform(vec![cols(false, &["nope"])])]), INPUT),
        Err(Error::Column { .. })
    ));
}

#[test]
fn describe_annotates_compare_mode_and_affix() {
    // Two bare columns compare as text (the footgun, now visible as :str);
    // a numeric literal forces :num; affix renders with its operator.
    let e = BoolExpr::And(vec![
        cmp(CmpOp::Gt, col("fieldA"), col("id")),
        cmp(CmpOp::Gt, col("countZ"), number(0.0)),
        BoolExpr::Affix {
            col: ColRef::new("fieldA".to_string()),
            needle: "t".to_string(),
            kind: AffixKind::Begins,
        },
    ]);
    let header = strings(&["id", "fieldA", "countZ"]);
    let (plan, _) = plan(vec![transform(vec![select(e)])])
        .resolve(&header)
        .unwrap();
    let d = describe(&plan);
    assert!(d.contains("(> fieldA[1] id[0] :str)"), "{d}");
    assert!(d.contains("(> countZ[2] 0 :num)"), "{d}");
    assert!(d.contains("(^= fieldA[1] \"t\")"), "{d}");
}

#[test]
fn stats_profiles_every_column() {
    let out = run_plan(plan(vec![stats(&[])]), INPUT).unwrap();
    let lines = lines(&out);
    assert_eq!(lines[0], "field,count,empty,min,max,sum,mean,stddev");
    assert_eq!(lines[1], "id,4,0,1,4,10,2.5,1.290994");
    // text column: lexical min/max, numeric stats blank
    assert_eq!(lines[2], "fieldA,4,0,f,t,,,");
    assert_eq!(lines[3], "countZ,4,0,0,9,14,3.5,4.358899");
}

#[test]
fn stats_after_filter_streams_named_column() {
    // fieldA == 't' keeps countZ values 5,0,9 (streaming path with a pre-filter)
    let out = run_plan(
        plan(vec![
            transform(vec![select(flag_is_t())]),
            stats(&["countZ"]),
        ]),
        INPUT,
    )
    .unwrap();
    let lines = lines(&out);
    assert_eq!(lines.len(), 2); // header + countZ
    assert!(lines[1].starts_with("countZ,3,0,0,9,14,4.666667,"));
}

#[test]
fn stats_composes_with_sort_and_head() {
    // largest mean first: countZ(3.5) > id(2.5) > fieldA(blank => 0)
    let out = run_plan(
        plan(vec![
            stats(&[]),
            sort(&[("mean", true, true)]),
            Stage::Head(1),
        ]),
        INPUT,
    )
    .unwrap();
    let lines = lines(&out);
    assert_eq!(lines.len(), 2);
    assert!(lines[1].starts_with("countZ,"));
}

#[test]
fn stats_after_sort_uses_in_memory_path() {
    // A blocking stage before stats falls back to the materializing path.
    let out = run_plan(
        plan(vec![sort(&[("id", true, true)]), stats(&["id"])]),
        INPUT,
    )
    .unwrap();
    assert_eq!(lines(&out)[1], "id,4,0,1,4,10,2.5,1.290994");
}

#[test]
fn group_default_count_in_first_seen_order() {
    // fieldA: 't' first (row 1), then 'f' (row 2). count = rows per group.
    let out = run_plan(
        plan(vec![group(
            &["fieldA"],
            vec![agg(AggFunc::Count, "count", None)],
        )]),
        INPUT,
    )
    .unwrap();
    assert_eq!(out, "fieldA,count\nt,3\nf,1\n");
}

#[test]
fn group_agg_numeric_reductions() {
    // 't' rows have countZ 5,0,9; 'f' has 0.
    let out = run_plan(
        plan(vec![group(
            &["fieldA"],
            vec![
                agg(AggFunc::Sum, "countZ_sum", Some("countZ")),
                agg(AggFunc::Mean, "countZ_mean", Some("countZ")),
                agg(AggFunc::Min, "countZ_min", Some("countZ")),
                agg(AggFunc::Max, "countZ_max", Some("countZ")),
            ],
        )]),
        INPUT,
    )
    .unwrap();
    let lines = lines(&out);
    assert_eq!(
        lines[0],
        "fieldA,countZ_sum,countZ_mean,countZ_min,countZ_max"
    );
    assert_eq!(lines[1], "t,14,4.666667,0,9");
    assert_eq!(lines[2], "f,0,0,0,0");
}

#[test]
fn agg_global_with_no_keys_is_one_row() {
    let out = run_plan(
        plan(vec![group(
            &[],
            vec![
                agg(AggFunc::Count, "count", None),
                agg(AggFunc::Sum, "countZ_sum", Some("countZ")),
            ],
        )]),
        INPUT,
    )
    .unwrap();
    assert_eq!(out, "count,countZ_sum\n4,14\n");
}

#[test]
fn agg_by_clause_supplies_keys() {
    let out = run_plan(
        plan(vec![group(
            &["fieldA"],
            vec![agg(AggFunc::Sum, "countZ_sum", Some("countZ"))],
        )]),
        INPUT,
    )
    .unwrap();
    assert_eq!(out, "fieldA,countZ_sum\nt,14\nf,0\n");
}

#[test]
fn agg_sum_of_text_column_is_blank() {
    // fieldA is text, so sum/mean are blank, but min/max stay lexical.
    let out = run_plan(
        plan(vec![group(
            &["id"],
            vec![
                agg(AggFunc::Sum, "fieldA_sum", Some("fieldA")),
                agg(AggFunc::Min, "fieldA_min", Some("fieldA")),
            ],
        )]),
        INPUT,
    )
    .unwrap();
    let lines = lines(&out);
    assert_eq!(lines[0], "id,fieldA_sum,fieldA_min");
    assert_eq!(lines[1], "1,,t");
}

#[test]
fn count_rows_differs_from_count_of_column() {
    // A bare count counts rows; count(col) counts non-empty cells.
    let input = "g,v\nx,1\nx,\nx,3\n";
    let out = run_plan(
        plan(vec![group(
            &["g"],
            vec![
                agg(AggFunc::Count, "count", None),
                agg(AggFunc::Count, "v_count", Some("v")),
            ],
        )]),
        input,
    )
    .unwrap();
    assert_eq!(out, "g,count,v_count\nx,3,2\n");
}

#[test]
fn group_composes_with_sort_and_fmt() {
    let out = run_plan(
        plan(vec![
            group(
                &["fieldA"],
                vec![agg(AggFunc::Sum, "countZ_sum", Some("countZ"))],
            ),
            sort(&[("countZ_sum", true, true)]),
        ]),
        INPUT,
    )
    .unwrap();
    let lines = lines(&out);
    // f,0 sorts after t,14 when descending by the aggregate.
    assert_eq!(lines[1], "t,14");
    assert_eq!(lines[2], "f,0");
}

// Rendering.

/// Run the plan, then render what it wrote.
fn render_plan(plan: Plan, input: &str, color: bool) -> String {
    let cut = input.find('\n').unwrap() + 1;
    let header = read_header(input[..cut].as_bytes()).unwrap();
    let (plan, out_header) = plan.resolve(&header).unwrap();
    let out = run_resolved(&plan, &out_header, &input[cut..], vec![]).unwrap();
    let readings = readings(&out);
    let rows = parse_chunk(&out);
    // The place of each cell of a gradient's column between the least and the
    // most, and the colour there.
    let mixes: Vec<Vec<(u64, Rgb)>> = plan
        .colors
        .iter()
        .map(|rule| match rule {
            ColorRule::Gradient { col, ramp, .. } => {
                let cells: Vec<Option<f64>> = rows
                    .iter()
                    .map(|r| r[col.pos].as_str().parse::<f64>().ok())
                    .collect();
                let some: Vec<f64> = cells.iter().flatten().copied().collect();
                let lo = some.iter().copied().fold(f64::INFINITY, f64::min);
                let hi = some.iter().copied().fold(f64::NEG_INFINITY, f64::max);
                cells
                    .iter()
                    .map(|c| {
                        let t = (c.unwrap_or(lo) - lo) / (hi - lo);
                        (t.to_bits(), between(ramp, t))
                    })
                    .collect()
            }
            _ => vec![],
        })
        .collect();
    match render(out.as_bytes(), &plan, color, &readings, &mixes).unwrap() {
        Rendered::Text(t) => t,
        Rendered::AsIs => out,
        Rendered::Chart => panic!("no chart here"),
    }
}

fn between(ramp: &Ramp, t: f64) -> Rgb {
    let c = t.clamp(0.0, 1.0);
    let mix = |a: u8, b: u8| (a as f64 + (b as f64 - a as f64) * c).round() as u8;
    Rgb(
        mix(ramp.lo.0, ramp.hi.0),
        mix(ramp.lo.1, ramp.hi.1),
        mix(ramp.lo.2, ramp.hi.2),
    )
}

/// Paint the rows where `expr` holds.
fn rule(style: &str, expr: BoolExpr) -> ColorRule {
    ColorRule::Predicate {
        scope: ColorScope::Row,
        style: parse_style(style).unwrap(),
        expr,
    }
}

fn gradient(column: &str, ramp: &str) -> ColorRule {
    ColorRule::Gradient {
        col: ColRef::new(column.to_string()),
        ramp: parse_ramp(ramp).unwrap(),
        bounds: None,
    }
}

fn coloured(stages: Vec<Stage>, colors: Vec<ColorRule>, aligned: bool) -> Plan {
    Plan {
        input_header: None,
        stages,
        output: if aligned {
            OutputFormat::Aligned
        } else {
            OutputFormat::Csv
        },
        colors,
        graph: None,
    }
}

fn strip_ansi(s: &str) -> String {
    let mut out = String::new();
    let mut chars = s.chars();
    while let Some(c) = chars.next() {
        if c == '\u{1b}' {
            // skip until the SGR terminator 'm'
            for d in chars.by_ref() {
                if d == 'm' {
                    break;
                }
            }
        } else {
            out.push(c);
        }
    }
    out
}

fn zeros_red() -> ColorRule {
    rule("red", cmp(CmpOp::Eq, col("countZ"), text("0")))
}

#[test]
fn color_rule_for_a_dropped_column_is_skipped_not_fatal() {
    // A colour rule on countZ, then countZ dropped by `cols`: the rule is
    // inert (its column isn't in the output), so the run succeeds.
    let out = render_plan(
        coloured(
            vec![transform(vec![cols(false, &["id", "fieldA"])])],
            vec![zeros_red()],
            false,
        ),
        INPUT,
        true,
    );
    let lines = lines(&out);
    assert_eq!(lines[0], "id,fieldA");
    assert_eq!(lines.len(), 5); // header + 4 rows, no error
    assert!(!out.contains('\x1b')); // nothing painted (the column is gone)
}

#[test]
fn color_predicate_paints_matching_rows() {
    // countZ is 5,0,0,9 — paint rows where countZ == 0.
    let out = render_plan(coloured(vec![], vec![zeros_red()], true), INPUT, true);
    assert!(out.contains('\x1b')); // some cells coloured
    // Colour off ⇒ no escapes (aligned, but plain).
    let plain = render_plan(coloured(vec![], vec![zeros_red()], true), INPUT, false);
    assert!(!plain.contains('\x1b'));
}

#[test]
fn fmt_aligns_by_display_width() {
    // A wide (CJK) glyph occupies two terminal columns; alignment must count
    // it as 2, not as one char. With char-count the first column would be 1
    // wide and the 袋 row would gain a stray trailing space.
    let out = render_plan(
        coloured(vec![], vec![], true),
        "v,tag\n袋,x\nab,y\n",
        false,
    );
    assert_eq!(lines(&out), ["v   tag", "袋  x", "ab  y"]);
}

#[test]
fn color_predicate_is_best_effort_on_non_numeric() {
    // A non-numeric cell in a numeric predicate must not abort the render;
    // the offending row is just left unpainted.
    let input = "amount\n10\nNA\n30\n";
    let out = render_plan(
        coloured(
            vec![],
            vec![rule(
                "red",
                cmp(CmpOp::Gt, col("amount"), number(20.0)),
            )],
            true,
        ),
        input,
        true,
    );
    let line = |needle: &str| out.lines().find(|l| l.contains(needle)).unwrap();
    assert!(line("30").contains("\u{1b}[31m"), "30 should be red: {out:?}");
    assert!(!line("10").contains('\u{1b}'), "10 unpainted: {out:?}");
    assert!(!line("NA").contains('\u{1b}'), "NA unpainted: {out:?}");
}

#[test]
fn color_gradient_paints_numeric_column() {
    let out = render_plan(
        coloured(vec![], vec![gradient("countZ", "green:red")], true),
        INPUT,
        true,
    );
    assert!(out.contains("\u{1b}[38;2;")); // truecolour foreground
}

#[test]
fn color_gradient_bounds_ignore_non_numeric_cells() {
    // A lone non-numeric cell must not collapse the default bounds: the
    // numeric values still span green(min)..red(max).
    let input = "amount\n10\nNA\n30\n";
    let out = render_plan(
        coloured(vec![], vec![gradient("amount", "green:red")], true),
        input,
        true,
    );
    let line = |needle: &str| out.lines().find(|l| l.contains(needle)).unwrap();
    assert!(
        line("10").contains("38;2;0;205;0"), // min -> green
        "min should be green, got: {out:?}"
    );
    assert!(
        line("30").contains("38;2;205;0;0"), // max -> red
        "max should be red, got: {out:?}"
    );
}

#[test]
fn color_alignment_unaffected_by_escapes() {
    // The painted and plain aligned output have the same visible layout:
    // stripping ANSI from the coloured render reproduces the plain render.
    let painted = render_plan(coloured(vec![], vec![zeros_red()], true), INPUT, true);
    let plain = render_plan(coloured(vec![], vec![zeros_red()], true), INPUT, false);
    assert_eq!(strip_ansi(&painted), plain);
}

// Streaming.

#[test]
fn head_stops_early_without_reading_to_eof() {
    // Chunks of a stream that has produced some rows but has not ended: `head`
    // must emit its N rows and stop *before* demanding more input.
    let header = strings(&["id", "val"]);
    let (plan, _) = plan(vec![Stage::Head(2)]).resolve(&header).unwrap();
    let Route::Head { pre, n, post } = route(&plan, 1) else {
        panic!("a head streams")
    };
    let mut chunks = (0..5).map(|i| format!("{i},x\n"));
    let readings = Readings::new();
    let mut out = String::from("id,val\n");
    let mut taken = 0;
    while taken < n {
        let chunk = chunks.next().unwrap();
        let Ok((piece, now)) = stream_head(pre, n, post, taken, &chunk, &[], &[], &readings)
        else {
            panic!("no row stops it")
        };
        out.push_str(&piece);
        taken = now;
    }
    assert_eq!(out, "id,val\n0,x\n1,x\n");
    // Three chunks were never asked for.
    assert_eq!(chunks.count(), 3);
}

#[test]
fn chunks_end_at_a_line() {
    assert_eq!(next_chunk(10, 0), ChunkStep::End);
    assert_eq!(next_chunk(10, 10), ChunkStep::FinishLine);
    assert_eq!(next_chunk(10, 7), ChunkStep::Complete);
    assert_eq!(next_chunk_available(b""), ChunkStep::End);
    assert_eq!(next_chunk_available(b"a,b"), ChunkStep::FinishLine);
    assert_eq!(next_chunk_available(b"a,b\n"), ChunkStep::Complete);
    assert_eq!(chunk_text("袋\n".as_bytes()).unwrap(), "袋\n");
    let e = chunk_text(&[b'a', 0xff]).unwrap_err();
    assert!(e.message().starts_with("input is not valid UTF-8: "));
}

#[test]
fn a_header_line_is_required() {
    assert_eq!(
        read_header(b"").unwrap_err().message(),
        "input is empty (no header line)"
    );
    assert_eq!(read_header(b"a,\"b,c\"\n").unwrap(), ["a", "b,c"]);
    assert!(
        read_header(&[0xff, b'\n'])
            .unwrap_err()
            .message()
            .starts_with("header is not valid UTF-8: ")
    );
}

#[test]
fn shards_cover_the_data_at_line_ends() {
    let file = b"h\naaaa\nbb\ncccccc\nd\n";
    let (start, len) = (2_u64, file.len() as u64);
    let n = 3;
    let cuts: Vec<u64> = (1..n)
        .map(|i| {
            let at = shard_cut(start, len, i, n);
            snap_to_newline(&file[at as usize..], at).unwrap_or(len)
        })
        .collect();
    let ranges = shard_ranges(start, len, &cuts);
    assert_eq!(ranges.first().unwrap().0, start);
    assert_eq!(ranges.last().unwrap().1, len);
    for w in ranges.windows(2) {
        assert_eq!(w[0].1, w[1].0);
        assert_eq!(file[w[1].0 as usize - 1], b'\n');
    }
}

#[test]
fn a_plan_is_routed_by_its_shape() {
    let lone = plan(vec![transform(vec![])]);
    assert!(matches!(route(&lone, 1), Route::Stream(_)));
    assert!(matches!(route(&lone, 4), Route::Parallel(_)));
    assert!(matches!(file_route(&lone, 4), FileRoute::Sharded(_)));
    let sorted = plan(vec![sort(&[("a", false, false)])]);
    assert!(matches!(route(&sorted, 4), Route::Sort { .. }));
    assert!(matches!(file_route(&sorted, 4), FileRoute::Reader));
    let tail = plan(vec![Stage::Tail(1)]);
    assert!(matches!(route(&tail, 4), Route::InMemory));
    let profile = plan(vec![stats(&[])]);
    assert!(matches!(route(&profile, 1), Route::Stats { .. }));
    // Only a lone transform goes another way on more threads.
    assert!(matches!(route(&sorted, 1), Route::Sort { .. }));
    assert!(matches!(route(&tail, 1), Route::InMemory));
    assert!(matches!(route(&profile, 4), Route::Stats { .. }));
    assert!(matches!(
        file_route(&profile, 4),
        FileRoute::StatsSharded { .. }
    ));
}

#[test]
fn the_same_output_comes_in_any_chunks() {
    let mut input = String::from("id,v\n");
    for i in 0..200 {
        input.push_str(&format!("{i},{}\n", (i * 7) % 11));
    }
    let keep = || vec![select(cmp(CmpOp::Gt, col("v"), number(4.0)))];
    let whole = run_plan(plan(vec![transform(keep())]), &input).unwrap();
    for size in [1, 9, 100, 100_000] {
        assert_eq!(in_chunks(keep(), &input, size), whole, "{size}");
    }
}

// Statements.

#[test]
fn a_delta_looks_at_the_row_before() {
    let delta = ValExpr::Arith {
        op: ArithOp::Minus,
        lhs: Box::new(ValExpr::Col(ColRef::new("countZ".to_string()))),
        rhs: Box::new(ValExpr::Prev(ColRef::new("countZ".to_string()))),
    };
    let out = run_plan(
        plan(vec![transform(vec![
            Stmt::Add(AddStmt {
                name: "countZ_delta".to_string(),
                pos: None,
                expr: delta,
            }),
            cols(false, &["id", "countZ_delta"]),
        ])]),
        INPUT,
    )
    .unwrap();
    assert_eq!(out, "id,countZ_delta\n1,0\n2,-5\n3,0\n4,9\n");
}

#[test]
fn a_rename_changes_the_header_alone() {
    let out = run_plan(
        plan(vec![transform(vec![Stmt::Rename(RenameStmt {
            pairs: vec![("countZ".to_string(), "n".to_string())],
        })])]),
        INPUT,
    )
    .unwrap();
    assert_eq!(out, INPUT.replace("countZ", "n"));
}

#[test]
fn to_num_stops_at_text() {
    let conv = |name: &str| {
        plan(vec![transform(vec![Stmt::ToNum(ConvStmt {
            names: strings(&[name]),
            positions: vec![],
        })])])
    };
    assert_eq!(run_plan(conv("countZ"), INPUT).unwrap(), INPUT);
    let e = run_plan(conv("fieldA"), INPUT).unwrap_err();
    assert_eq!(e.message(), "non-numeric value 't'");
}

#[test]
fn a_pattern_that_matches_keeps_the_row() {
    let matching = |pattern: &str, negate: bool| {
        run_plan(
            plan(vec![transform(vec![select(BoolExpr::Match {
                col: ColRef::new("name".to_string()),
                pattern: pattern.to_string(),
                negate,
            })])]),
            "name\nabcz\nxyz\nalz\n",
        )
        .unwrap()
    };
    assert_eq!(matching("^a.*z$", false), "name\nabcz\nalz\n");
    assert_eq!(matching("^a.*z$", true), "name\nxyz\n");
}

#[test]
fn a_sort_is_stable() {
    let input = "k,v\nb,1\na,2\nb,3\na,4\n";
    assert_eq!(
        run_plan(plan(vec![sort(&[("k", false, false)])]), input).unwrap(),
        "k,v\na,2\na,4\nb,1\nb,3\n"
    );
    assert_eq!(
        run_plan(plan(vec![sort(&[("k", false, true)])]), input).unwrap(),
        "k,v\nb,1\nb,3\na,2\na,4\n"
    );
}

// Joins.

fn join(join_type: JoinType, file: &str, on: &[(&str, &str)], right: Plan) -> Stage {
    Stage::Join(JoinStmt {
        join_type,
        file: file.to_string(),
        keys: on
            .iter()
            .map(|(l, r)| (l.to_string(), r.to_string()))
            .collect(),
        left_key_pos: vec![],
        right_key_pos: vec![],
        right_emit_pos: vec![],
        left_ncols: 0,
        right_plan: right,
        right_header: vec![],
    })
}

/// Join `left` with `right`, whose file is `r.csv`.
fn joined(kind: JoinType, left: &str, right: &str) -> String {
    let p = plan(vec![join(
        kind,
        "r.csv",
        &[("sku", "item")],
        plan(vec![]),
    )]);
    assert_eq!(join_files(&p), ["r.csv"]);
    let rcut = right.find('\n').unwrap() + 1;
    let files = vec![FileHeader {
        path: "r.csv".to_string(),
        header: Ok(read_header(right[..rcut].as_bytes()).unwrap()),
    }];
    let p = prepare_joins(p, &files).unwrap();
    let cut = left.find('\n').unwrap() + 1;
    let (p, out_header) = p
        .resolve(&read_header(left[..cut].as_bytes()).unwrap())
        .unwrap();
    let rows = right_rows(right.as_bytes()).unwrap();
    run_resolved(&p, &out_header, &left[cut..], vec![(0, rows)]).unwrap()
}

#[test]
fn a_join_keeps_what_its_type_keeps() {
    let left = "sku,n\na,1\nb,2\nz,3\n";
    let right = "item,n,price\na,9,10\na,9,11\nq,9,12\n";
    // A left row meets every right row of its key; a clashing name is suffixed.
    assert_eq!(
        joined(JoinType::Inner, left, right),
        "sku,n,n_r,price\na,1,9,10\na,1,9,11\n"
    );
    assert_eq!(
        joined(JoinType::Left, left, right),
        "sku,n,n_r,price\na,1,9,10\na,1,9,11\nb,2,,\nz,3,,\n"
    );
    assert_eq!(
        joined(JoinType::Right, left, right),
        "sku,n,n_r,price\na,1,9,10\na,1,9,11\nq,,9,12\n"
    );
    assert_eq!(
        joined(JoinType::Full, left, right),
        "sku,n,n_r,price\na,1,9,10\na,1,9,11\nb,2,,\nz,3,,\nq,,9,12\n"
    );
}

#[test]
fn a_join_names_the_column_it_does_not_find() {
    let files = vec![FileHeader {
        path: "r.csv".to_string(),
        header: Ok(strings(&["item"])),
    }];
    let p = plan(vec![join(
        JoinType::Inner,
        "r.csv",
        &[("sku", "nope")],
        plan(vec![]),
    )]);
    let p = prepare_joins(p, &files).unwrap();
    let e = p.resolve(&strings(&["sku"])).unwrap_err();
    assert!(matches!(e, Error::Column { name, .. } if name == "nope"));
}

#[test]
fn a_nested_join_is_prepared_first() {
    let inner = plan(vec![join(
        JoinType::Inner,
        "c.csv",
        &[("k", "k")],
        plan(vec![]),
    )]);
    let outer = || {
        plan(vec![join(
            JoinType::Inner,
            "b.csv",
            &[("k", "k")],
            plan(vec![join(
                JoinType::Inner,
                "c.csv",
                &[("k", "k")],
                plan(vec![]),
            )]),
        )])
    };
    assert_eq!(join_files(&inner), ["c.csv"]);
    assert_eq!(join_files(&outer()), ["c.csv", "b.csv"]);
    let file = |path: &str, header: Result<Vec<String>, String>| FileHeader {
        path: path.to_string(),
        header,
    };
    let files = vec![
        file("b.csv", Ok(strings(&["k", "b"]))),
        file("c.csv", Ok(strings(&["k", "c"]))),
    ];
    let p = prepare_joins(outer(), &files).unwrap();
    let Stage::Join(j) = &p.stages[0] else {
        panic!("a join")
    };
    assert_eq!(j.right_header, ["k", "b", "c"]);
    // A file that could not be read is what is wrong.
    let files = vec![
        file("b.csv", Ok(strings(&["k", "b"]))),
        file("c.csv", Err("no such file".to_string())),
    ];
    assert_eq!(
        prepare_joins(outer(), &files).unwrap_err().message(),
        "no such file"
    );
    // A pipeline that names its columns needs no file's header.
    let named = Plan {
        input_header: Some(strings(&["k", "v"])),
        ..plan(vec![])
    };
    let p = plan(vec![join(JoinType::Inner, "d.csv", &[("k", "k")], named)]);
    assert!(join_files(&p).is_empty());
    assert!(prepare_joins(p, &[]).is_ok());
}

#[test]
fn a_right_side_must_be_text() {
    assert!(right_rows(b"h\n").unwrap().is_empty());
    let e = right_rows(&[b'h', b'\n', 0xff]).unwrap_err();
    assert!(
        e.message()
            .starts_with("join right side is not valid UTF-8: ")
    );
}

#[test]
fn knobs_are_kept() {
    let opts = RunOpts {
        chunk_size: 64,
        threads: 2,
        temp_dir: "/tmp".to_string(),
        sort_buffer: 1,
    };
    assert_eq!(opts.clone().chunk_size, 64);
}

#[test]
fn the_same_output_comes_from_any_number_of_shards() {
    let mut file = String::from("id,v\n");
    for i in 0..57 {
        file.push_str(&format!("{i},{}\n", "é€x".repeat(i % 7)));
    }
    let (start, len) = (5_u64, file.len() as u64);
    let stmts = [
        select(BoolExpr::Affix {
            col: ColRef {
                name: "v".to_string(),
                pos: 1,
            },
            needle: "x".to_string(),
            kind: AffixKind::Contains,
        }),
        Stmt::Rename(RenameStmt {
            pairs: vec![("v".to_string(), "w".to_string())],
        }),
    ];
    let none = Readings::new();
    let whole = transform_chunk(&stmts, &file[5..], &[], &none).unwrap();
    assert!(whole.starts_with("1,é€x\n"));
    for n in 1..40 {
        let cuts: Vec<u64> = (1..n)
            .map(|i| {
                let at = shard_cut(start, len, i, n);
                snap_to_newline(&file.as_bytes()[at as usize..], at).unwrap_or(len)
            })
            .collect();
        let mut out = String::new();
        for (a, b) in shard_ranges(start, len, &cuts) {
            let text = chunk_text(&file.as_bytes()[a as usize..b as usize]).unwrap();
            out.push_str(&transform_chunk(&stmts, &text, &[], &none).unwrap());
        }
        assert_eq!(out, whole, "{n} shards");
    }
}

#[test]
fn cells_are_counted_apart_and_together() {
    let cells = |texts: &[&str]| -> Vec<Field> {
        texts.iter().map(|t| Field::Str(t.to_string())).collect()
    };
    let (a, b) = (cells(&["x", "", "1"]), cells(&["", " ", ""]));
    let mut tally = Tally::of(&a);
    assert_eq!((tally.count, tally.empty), (2, 1));
    tally.merge(&Tally::of(&b));
    assert_eq!((tally.count, tally.empty), (3, 3));
    tally.update(&Field::Num(num(0.0)));
    assert_eq!((tally.count, tally.empty), (4, 3));
    // The profile counts what was tallied.
    let s = StatsStmt {
        names: strings(&["v"]),
        positions: vec![0],
    };
    let rows = profile_rows(&s, &[tally], &[figures(&a)]);
    let texts: Vec<&str> = rows[0].iter().map(|f| f.as_str()).collect();
    assert_eq!(texts[..3], ["v", "4", "3"]);
}

#[test]
fn chunks_split_no_row_and_put_together_to_the_input() {
    let input = "1,a\n22,bb\n333,ccc\n4,d\n55,e";
    for size in 1..40 {
        let chunks = chunked(input, size);
        assert_eq!(chunks.concat(), input, "{size}");
        for (i, c) in chunks.iter().enumerate() {
            assert!(!c.is_empty());
            if i + 1 < chunks.len() {
                assert!(c.ends_with('\n') && c.len() >= size, "{size}: {c:?}");
            }
        }
    }
    assert!(chunked("", 5).is_empty());
    assert_eq!(chunked(input, 4), ["1,a\n22,bb\n", "333,ccc\n", "4,d\n55,e"]);
    // As the input arrives: each read is completed to the end of its line.
    let mut got: Vec<&str> = Vec::new();
    let mut rest = input;
    for n in [2, 6, 8, 3, 4] {
        let n = n.min(rest.len());
        let end = match next_chunk_available(&rest.as_bytes()[..n]) {
            ChunkStep::End => break,
            ChunkStep::Complete => n,
            ChunkStep::FinishLine => line_end(rest, n),
        };
        got.push(&rest[..end]);
        rest = &rest[end..];
    }
    assert_eq!(got, ["1,a\n", "22,bb\n", "333,ccc\n", "4,d\n", "55,e"]);
}

fn add(name: &str, pos: Option<usize>, expr: ValExpr) -> Stmt {
    Stmt::Add(AddStmt {
        name: name.to_string(),
        pos,
        expr,
    })
}

fn cell(pos: usize) -> ColRef {
    ColRef {
        name: format!("c{pos}"),
        pos,
    }
}

fn sum(lhs: ValExpr, rhs: ValExpr) -> ValExpr {
    ValExpr::Arith {
        op: ArithOp::Plus,
        lhs: Box::new(lhs),
        rhs: Box::new(rhs),
    }
}

#[test]
fn a_row_says_which_operation_it_wants() {
    let stmts = [add("n", None, sum(ValExpr::Col(cell(0)), ValExpr::Rownum))];
    let known = vec![vec![num(11.0)], vec![num(22.0)]];
    let text = "10\n20\n30\n";
    let halt = transform_chunk(&stmts, text, &known, &readings(text)).unwrap_err();
    assert_eq!(halt.row, 2);
    match halt.why {
        Why::Wants(NumOp::Arith(ArithOp::Plus, a, b)) => {
            assert_eq!((a.text.as_str(), b.text.as_str()), ("30", "3"));
        }
        other => panic!("{other:?}"),
    }
    let known = vec![vec![num(11.0)], vec![num(22.0)], vec![num(33.0)]];
    assert_eq!(
        transform_chunk(&stmts, text, &known, &readings(text)).unwrap(),
        "10,11\n20,22\n30,33\n"
    );
}

#[test]
fn an_add_writes_the_value_of_its_expression() {
    // Without arithmetic nothing is asked for; a value may replace a column, and what
    // a later expression sees is the row as the one before it left it.
    let stmts = [
        add(
            "tag",
            Some(1),
            ValExpr::Concat(vec![
                ValExpr::Col(cell(1)),
                ValExpr::Str("-".to_string()),
                ValExpr::Prev(cell(1)),
            ]),
        ),
        add("again", None, ValExpr::Col(cell(1))),
        add("n", None, ValExpr::Rownum),
    ];
    assert_eq!(
        transform_chunk(&stmts, "1,a\n2,b\n3,c\n", &[], &Readings::new()).unwrap(),
        "1,a-a,a-a,1\n2,b-a,b-a,2\n3,c-b,c-b,3\n"
    );
    // A division by zero stops the row.
    let over = add(
        "q",
        None,
        ValExpr::Arith {
            op: ArithOp::Over,
            lhs: Box::new(ValExpr::Col(cell(0))),
            rhs: Box::new(ValExpr::Num(literal(0.0))),
        },
    );
    let halt = transform_chunk(&[over], "1\n", &[], &readings("1\n")).unwrap_err();
    assert!(matches!(halt.why, Why::Fail(Fault::DivisionByZero)));
}

#[test]
fn a_head_looks_at_no_row_behind_its_last() {
    // `to-num a | head 1` over a row that is no number, behind the first.
    let stages = || {
        vec![
            transform(vec![Stmt::ToNum(ConvStmt {
                names: strings(&["a"]),
                positions: vec![],
            })]),
            Stage::Head(1),
        ]
    };
    assert_eq!(run_plan(plan(stages()), "a\n1\nx\n").unwrap(), "a\n1\n");
    let e = run_plan(plan(stages()), "a\nx\n1\n").unwrap_err();
    assert_eq!(e.message(), "non-numeric value 'x'");
    // Behind a stage that needs all rows, every row is looked at.
    let mut with_tail = stages();
    with_tail.push(Stage::Tail(1));
    let e = run_plan(plan(with_tail), "a\n1\nx\n").unwrap_err();
    assert_eq!(e.message(), "non-numeric value 'x'");
    // The statements behind the head see only the rows that reach it.
    let twice = Stmt::Add(AddStmt {
        name: "b".to_string(),
        pos: None,
        expr: ValExpr::Arith {
            op: ArithOp::Times,
            lhs: Box::new(ValExpr::Col(ColRef::new("a".to_string()))),
            rhs: Box::new(ValExpr::Num(literal(2.0))),
        },
    });
    assert_eq!(
        run_plan(
            plan(vec![
                transform(vec![select(cmp(CmpOp::Gt, col("a"), number(1.0)))]),
                Stage::Head(2),
                transform(vec![twice]),
            ]),
            "a\n1\n2\n3\nx\n"
        )
        .unwrap(),
        "a,b\n2,4\n3,6\n"
    );
}

#[test]
fn statements_behind_a_sort_read_its_lines_again() {
    // A numeric sort writes its keys as numbers, and behind it they are read again:
    // what a number loses when it is written is lost to the statements there.
    let input = "n\n0.30000000000000004\n0.3\n0.2\n";
    let over = || transform(vec![select(cmp(CmpOp::Gt, col("n"), number(0.3)))]);
    let by_n = || sort(&[("n", true, false)]);
    assert_eq!(run_plan(plan(vec![by_n()]), input).unwrap(), "n\n0.2\n0.3\n0.3\n");
    assert_eq!(run_plan(plan(vec![by_n(), over()]), input).unwrap(), "n\n");
    assert_eq!(run_plan(plan(vec![over(), by_n()]), input).unwrap(), "n\n0.3\n");
    // Stage by stage in memory the rows stay what the sort made of them.
    assert_eq!(
        run_plan(plan(vec![by_n(), over(), Stage::Tail(5)]), input).unwrap(),
        "n\n0.3\n"
    );
}

#[test]
fn a_plan_shows_a_number_in_full() {
    // Written to a cell it has fifteen digits; in a plan all that tell it apart.
    let v = 0.1 + 0.2;
    let lit = || Literal {
        num: Num {
            bits: f64::to_bits(v),
            text: "0.3".to_string(),
        },
        shown: v.to_string(),
    };
    let header = strings(&["a"]);
    let mut p = plan(vec![transform(vec![
        select(cmp(CmpOp::Gt, col("a"), Operand::Num(lit()))),
        Stmt::Add(AddStmt {
            name: "b".to_string(),
            pos: None,
            expr: ValExpr::Num(lit()),
        }),
    ])]);
    p.colors = vec![ColorRule::Gradient {
        col: ColRef::new("a".to_string()),
        ramp: parse_ramp("green:red").unwrap(),
        bounds: Some((literal(0.0), lit())),
    }];
    let (p, _) = p.resolve(&header).unwrap();
    let d = describe(&p);
    assert!(d.contains("(> a[0] 0.30000000000000004 :num)"), "{d}");
    assert_eq!(d.matches("0.30000000000000004").count(), 3, "{d}");
    assert!(d.contains("bounds 0..0.30000000000000004"), "{d}");
}

#[test]
fn keys_with_a_newline_are_told_apart() {
    let row = |a: &str, b: &str| vec![Field::Str(a.to_string()), Field::Str(b.to_string())];
    let rows = [
        row("x\ny", "1"),
        row("x", "y"),
        row("x\ny", "2"),
        row("x\n", "y"),
        row("x", "\ny"),
    ];
    let kept = |positions: &[usize]| -> Vec<String> {
        dedup_rows(&rows, positions)
            .iter()
            .map(|r| format!("{}|{}", r[0].as_str(), r[1].as_str()))
            .collect()
    };
    assert_eq!(kept(&[0]), ["x\ny|1", "x|y", "x\n|y"]);
    assert_eq!(kept(&[0, 1]).len(), 5);
    assert_eq!(kept(&[1]), ["x\ny|1", "x|y", "x\ny|2", "x|\ny"]);
}

#[test]
fn a_head_writes_the_same_in_any_chunks() {
    let input = "1\n2\n3\n4\n5\n6\n";
    let known = readings(input);
    let pre = [select(BoolExpr::Not(Box::new(BoolExpr::Cmp(Cmp {
        op: CmpOp::Eq,
        lhs: Operand::Col(cell(0)),
        rhs: Operand::Str("2".to_string()),
        numeric: false,
    }))))];
    let post = [add("twice", None, sum(ValExpr::Col(cell(0)), ValExpr::Col(cell(0))))];
    // The results for the rows that reach the head: 1, 3 and 4.
    let behind = [vec![num(2.0)], vec![num(6.0)], vec![num(8.0)]];
    for size in 1..15 {
        let mut out = String::new();
        let mut taken = 0;
        for chunk in chunked(input, size) {
            if taken == 3 {
                break;
            }
            let (text, now) =
                stream_head(&pre, 3, &post, taken, chunk, &[], &behind[taken..], &known).unwrap();
            out.push_str(&text);
            taken = now;
        }
        assert_eq!(out, "1,2\n3,6\n4,8\n", "{size}");
    }
    // Where a row behind the head wants a result, it says so by the rows that reached
    // the head.
    let halt = stream_head(&pre, 3, &post, 0, input, &[], &behind[..1], &known).unwrap_err();
    assert!(halt.behind);
    assert_eq!(halt.halt.row, 1);
}

#[test]
fn outputs_in_any_order_are_written_in_order() {
    let piece = |id: u64| format!("{id};");
    for order in [[0, 1, 2, 3], [3, 2, 1, 0], [2, 0, 3, 1], [1, 3, 0, 2]] {
        let mut done = Reassembly::new();
        let mut out = String::new();
        for id in order {
            out.push_str(&done.offer(id, piece(id)));
        }
        assert_eq!(out, "0;1;2;3;", "{order:?}");
    }
}
