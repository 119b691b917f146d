//! Executing a compiled [`Plan`](crate::plan::Plan) over CSV rows.
//!
//! A transform stage takes its rows one by one; the other stages take them all
//! at once. An `add` puts the [`value`](crate::value) of its expression into the
//! row. That can need the machine's arithmetic: a row that wants the result of an
//! operation is handed back with it, and run again once the result is known.

use crate::csv::{chunk_rows, law_chunks_parse_apart, parse_chunk, rows_text, text_rows, write_rows};
use crate::field::{
    Field, FieldV, Num, NumError, NumV, Readings, Row, clone_row, pick, pick_cells, row_view,
    rows_view,
};
use crate::plan::{AddStmt, BoolExpr, RenameStmt, Stmt, ValExpr, eval_spec};
use crate::value::{
    Fault, FaultV, NumOp, NumOpV, Place, PlaceV, Stop, StopV, law_a_plain_value_is_of_its_row_alone,
    nums_view, value_of,
};
use vstd::prelude::*;

verus! {

/// Knobs for a run: chunk size, worker count, where sort spills its temp files,
/// and how much it holds before it does.
#[derive(Clone, Debug)]
pub struct RunOpts {
    pub chunk_size: usize,
    pub threads: usize,
    pub temp_dir: String,
    pub sort_buffer: usize,
}

/// Whether a value expression looks past its own row: at the previous one, or
/// at the row's number.
pub open spec fn looks_past(e: ValExpr) -> bool
    decreases e,
{
    match e {
        ValExpr::Prev(_) => true,
        ValExpr::Rownum => true,
        ValExpr::Col(_) => false,
        ValExpr::Num(_) => false,
        ValExpr::Str(_) => false,
        ValExpr::Bool(_) => false,
        ValExpr::Neg(e) => looks_past(*e),
        ValExpr::Arith { lhs, rhs, .. } => looks_past(*lhs) || looks_past(*rhs),
        ValExpr::Concat(es) => any_looks_past(es@),
        ValExpr::Func(_, es) => any_looks_past(es@),
        ValExpr::Cond { then_, else_, .. } => looks_past(*then_) || looks_past(*else_),
    }
}

/// Whether any of the expressions looks past its own row.
pub open spec fn any_looks_past(es: Seq<ValExpr>) -> bool
    decreases es,
{
    if es.len() == 0 {
        false
    } else {
        looks_past(es[0]) || any_looks_past(es.subrange(1, es.len() as int))
    }
}

/// Whether a statement depends on the rows before: an `add` that looks past its
/// own row.
pub open spec fn stateful(s: Stmt) -> bool {
    match s {
        Stmt::Add(a) => looks_past(a.expr),
        _ => false,
    }
}

/// Whether any of the statements depends on the rows before.
pub open spec fn any_stateful(stmts: Seq<Stmt>) -> bool {
    exists|i: int| 0 <= i < stmts.len() && stateful(#[trigger] stmts[i])
}

impl ValExpr {
    fn is_stateful(&self) -> (r: bool)
        ensures
            r == looks_past(*self),
        decreases self,
    {
        match self {
            ValExpr::Prev(_) => true,
            ValExpr::Rownum => true,
            ValExpr::Col(_) => false,
            ValExpr::Num(_) => false,
            ValExpr::Str(_) => false,
            ValExpr::Bool(_) => false,
            ValExpr::Neg(e) => e.is_stateful(),
            ValExpr::Arith { lhs, rhs, .. } => lhs.is_stateful() || rhs.is_stateful(),
            ValExpr::Concat(es) => {
                assert(es@.subrange(0, es@.len() as int) =~= es@);
                any_past(es, 0)
            },
            ValExpr::Func(_, es) => {
                assert(es@.subrange(0, es@.len() as int) =~= es@);
                any_past(es, 0)
            },
            ValExpr::Cond { then_, else_, .. } => then_.is_stateful() || else_.is_stateful(),
        }
    }
}

fn any_past(es: &Vec<ValExpr>, i: usize) -> (r: bool)
    requires
        i <= es@.len(),
    ensures
        r == any_looks_past(es@.subrange(i as int, es@.len() as int)),
    decreases es, es@.len() - i,
{
    if i >= es.len() {
        false
    } else {
        proof {
            let s = es@.subrange(i as int, es@.len() as int);
            assert(s[0] == es@[i as int]);
            assert(s.subrange(1, s.len() as int) =~= es@.subrange(i + 1, es@.len() as int));
        }
        es[i].is_stateful() || any_past(es, i + 1)
    }
}

impl Stmt {
    /// Whether the statement depends on the rows before.
    pub fn is_stateful(&self) -> (r: bool)
        ensures
            r == stateful(*self),
    {
        match self {
            Stmt::Add(a) => a.expr.is_stateful(),
            _ => false,
        }
    }
}

/// Whether any of the statements depends on the rows before.
pub fn has_stateful(stmts: &[Stmt]) -> (r: bool)
    ensures
        r == any_stateful(stmts@),
{
    let mut i: usize = 0;
    while i < stmts.len()
        invariant
            i <= stmts.len(),
            forall|k: int| 0 <= k < i ==> !stateful(#[trigger] stmts@[k]),
        decreases stmts.len() - i,
    {
        if stmts[i].is_stateful() {
            assert(stateful(stmts@[i as int]));
            return true;
        }
        i += 1;
    }
    false
}

/// The row with the cells at `positions` read as numbers, from the `k`th of
/// them on; or the text of the first that is none.
pub open spec fn with_nums(
    row: Seq<FieldV>,
    positions: Seq<usize>,
    k: int,
    readings: Map<Seq<char>, NumV>,
) -> Result<Seq<FieldV>, Seq<char>>
    decreases positions.len() - k,
{
    if k >= positions.len() {
        Ok(row)
    } else {
        let p = positions[k] as int;
        if p >= row.len() {
            with_nums(row, positions, k + 1, readings)
        } else {
            match row[p].num_soft(readings) {
                Some(n) => with_nums(row.update(p, FieldV::Num(n)), positions, k + 1, readings),
                None => Err(row[p].text()),
            }
        }
    }
}

/// The row with the cells at `positions` as text, from the `k`th of them on.
pub open spec fn with_texts(row: Seq<FieldV>, positions: Seq<usize>, k: int) -> Seq<FieldV>
    decreases positions.len() - k,
{
    if k >= positions.len() {
        row
    } else {
        let p = positions[k] as int;
        if p >= row.len() {
            with_texts(row, positions, k + 1)
        } else {
            with_texts(row.update(p, FieldV::Str(row[p].text())), positions, k + 1)
        }
    }
}

/// The row with a value put in place of the cell at `pos`, or appended.
pub open spec fn with_value(row: Seq<FieldV>, pos: Option<usize>, value: FieldV) -> Seq<FieldV> {
    match pos {
        Some(p) if p < row.len() => row.update(p as int, value),
        _ => row.push(value),
    }
}

/// What becomes of a row in a transform stage, in contracts.
pub enum FateV {
    Keep(Seq<FieldV>),
    Drop,
    /// A value that cannot be had.
    Fail(FaultV),
    /// The result of an operation is needed first.
    Wants(NumOpV),
}

/// A row's fate, and the previous row that each statement will see next.
pub struct TurnV {
    pub fate: FateV,
    pub prevs: Seq<Option<Seq<FieldV>>>,
}

/// Where the expression of the statement at `k` is evaluated: on the row as that
/// statement sees it, behind the row that it saw last when it looks past its own.
pub open spec fn place_of(
    stmts: Seq<Stmt>,
    k: int,
    row: Seq<FieldV>,
    prevs: Seq<Option<Seq<FieldV>>>,
    rownum: nat,
    results: Seq<NumV>,
    readings: Map<Seq<char>, NumV>,
) -> PlaceV {
    PlaceV {
        row,
        prev: if stateful(stmts[k]) {
            prevs[k]
        } else {
            None
        },
        rownum,
        readings,
        results,
    }
}

/// What the statements from `k` on make of a row, the `rownum`th of its stage.
/// `prevs[k]` is the row that last reached statement `k`, when that one looks past
/// its own row: it is the row as that statement saw it, after the statements before
/// it and before those behind. An `add` puts the value of its expression into the
/// row. `results` are the results of the operations that the expressions need, in
/// the order they are reached, the first `used` of them used up.
pub open spec fn turn(
    stmts: Seq<Stmt>,
    k: int,
    row: Seq<FieldV>,
    prevs: Seq<Option<Seq<FieldV>>>,
    rownum: nat,
    results: Seq<NumV>,
    used: int,
    readings: Map<Seq<char>, NumV>,
) -> TurnV
    decreases stmts.len() - k,
{
    if k >= stmts.len() {
        TurnV { fate: FateV::Keep(row), prevs }
    } else {
        match stmts[k] {
            Stmt::Cols(p) => turn(
                stmts,
                k + 1,
                pick(row, p.positions@),
                prevs,
                rownum,
                results,
                used,
                readings,
            ),
            Stmt::Select(e) => match eval_spec(e, row, readings) {
                Ok(true) => turn(stmts, k + 1, row, prevs, rownum, results, used, readings),
                Ok(false) => TurnV { fate: FateV::Drop, prevs },
                Err(t) => TurnV { fate: FateV::Fail(FaultV::NotNumber(t)), prevs },
            },
            Stmt::ToNum(c) => match with_nums(row, c.positions@, 0, readings) {
                Ok(r) => turn(stmts, k + 1, r, prevs, rownum, results, used, readings),
                Err(t) => TurnV { fate: FateV::Fail(FaultV::NotNumber(t)), prevs },
            },
            Stmt::ToStr(c) => turn(
                stmts,
                k + 1,
                with_texts(row, c.positions@, 0),
                prevs,
                rownum,
                results,
                used,
                readings,
            ),
            Stmt::Rename(_) => turn(stmts, k + 1, row, prevs, rownum, results, used, readings),
            Stmt::Add(a) => match value_of(
                a.expr,
                place_of(stmts, k, row, prevs, rownum, results, readings),
                used,
            ) {
                Ok((v, n)) => turn(
                    stmts,
                    k + 1,
                    with_value(row, a.pos, v),
                    if stateful(stmts[k]) {
                        prevs.update(k, Some(row))
                    } else {
                        prevs
                    },
                    rownum,
                    results,
                    n,
                    readings,
                ),
                Err(StopV::Wants(op)) => TurnV { fate: FateV::Wants(op), prevs },
                Err(StopV::Fault(f)) => TurnV { fate: FateV::Fail(f), prevs },
            },
        }
    }
}

/// What becomes of a row in a transform stage.
#[derive(Debug)]
pub enum Fate {
    Keep(Row),
    Drop,
    /// A value that cannot be had.
    Fail(Fault),
    /// The result of an operation is needed first.
    Wants(NumOp),
}

/// A previous row in contracts.
pub open spec fn prev_view(p: Option<Row>) -> Option<Seq<FieldV>> {
    match p {
        Some(r) => Some(row_view(r@)),
        None => None,
    }
}

/// The previous rows in contracts.
pub open spec fn prevs_view(p: Seq<Option<Row>>) -> Seq<Option<Seq<FieldV>>> {
    p.map_values(|r: Option<Row>| prev_view(r))
}

impl View for Fate {
    type V = FateV;

    open spec fn view(&self) -> FateV {
        match self {
            Fate::Keep(r) => FateV::Keep(row_view(r@)),
            Fate::Drop => FateV::Drop,
            Fate::Fail(f) => FateV::Fail(f@),
            Fate::Wants(op) => FateV::Wants(op@),
        }
    }
}

fn clone_prev(p: &Option<Row>) -> (r: Option<Row>)
    ensures
        prev_view(r) == prev_view(*p),
{
    match p {
        Some(row) => Some(clone_row(row.as_slice())),
        None => None,
    }
}

fn clone_prevs(p: &Vec<Option<Row>>) -> (r: Vec<Option<Row>>)
    ensures
        prevs_view(r@) == prevs_view(p@),
{
    let mut r: Vec<Option<Row>> = Vec::new();
    let mut i: usize = 0;
    while i < p.len()
        invariant
            i <= p.len(),
            prevs_view(r@) == prevs_view(p@).take(i as int),
        decreases p.len() - i,
    {
        let ghost before = r@;
        r.push(clone_prev(&p[i]));
        assert(prevs_view(r@) =~= prevs_view(before).push(prev_view(p@[i as int])));
        assert(prevs_view(p@).take(i + 1) =~= prevs_view(p@).take(i as int).push(
            prev_view(p@[i as int]),
        ));
        i += 1;
    }
    assert(prevs_view(p@).take(p@.len() as int) =~= prevs_view(p@));
    r
}

/// The row with the cells at `positions` read as numbers; or the text of the
/// first that is none.
pub fn to_nums(row: Row, positions: &[usize], readings: &Readings) -> (r: Result<Row, NumError>)
    ensures
        match r {
            Ok(out) => with_nums(row_view(row@), positions@, 0, readings@) == Ok::<
                Seq<FieldV>,
                Seq<char>,
            >(row_view(out@)),
            Err(e) => with_nums(row_view(row@), positions@, 0, readings@) == Err::<
                Seq<FieldV>,
                Seq<char>,
            >(e.0@),
        },
{
    let ghost start = row_view(row@);
    let mut cur = row;
    let mut k: usize = 0;
    while k < positions.len()
        invariant
            k <= positions.len(),
            start == row_view(row@),
            with_nums(start, positions@, 0, readings@) == with_nums(
                row_view(cur@),
                positions@,
                k as int,
                readings@,
            ),
        decreases positions.len() - k,
    {
        let p = positions[k];
        if p < cur.len() {
            let ghost before = row_view(cur@);
            match cur[p].coerce_num(readings) {
                Ok(n) => {
                    let ghost nv = n@;
                    cur.set(p, Field::Num(n));
                    assert(row_view(cur@) =~= before.update(p as int, FieldV::Num(nv)));
                },
                Err(e) => {
                    return Err(e);
                },
            }
        }
        k += 1;
    }
    Ok(cur)
}

/// The row with the cells at `positions` as text.
pub fn to_strs(row: Row, positions: &[usize]) -> (out: Row)
    ensures
        row_view(out@) == with_texts(row_view(row@), positions@, 0),
{
    let ghost start = row_view(row@);
    let mut cur = row;
    let mut k: usize = 0;
    while k < positions.len()
        invariant
            k <= positions.len(),
            start == row_view(row@),
            with_texts(start, positions@, 0) == with_texts(row_view(cur@), positions@, k as int),
        decreases positions.len() - k,
    {
        let p = positions[k];
        if p < cur.len() {
            let ghost before = row_view(cur@);
            let text = cur[p].as_str().to_string();
            let ghost tv = text@;
            cur.set(p, Field::Str(text));
            assert(row_view(cur@) =~= before.update(p as int, FieldV::Str(tv)));
        }
        k += 1;
    }
    cur
}

fn put_value(row: Row, pos: Option<usize>, value: Field) -> (out: Row)
    ensures
        row_view(out@) == with_value(row_view(row@), pos, value@),
{
    let mut row = row;
    let ghost before = row_view(row@);
    match pos {
        Some(p) if p < row.len() => {
            row.set(p, value);
            assert(row_view(row@) =~= before.update(p as int, value@));
        },
        _ => {
            row.push(value);
            assert(row_view(row@) =~= before.push(value@));
        },
    }
    row
}

/// Runs one row, the `rownum`th of its stage, through the statements. `prevs[k]`
/// holds the row that last reached statement `k` when that one looks past its own
/// row; it moves on only when the row is kept or dropped, so that a row which wants
/// a result can be run again with it.
pub fn take_turn(
    stmts: &[Stmt],
    row: Row,
    prevs: &mut Vec<Option<Row>>,
    rownum: u64,
    results: &[Num],
    readings: &Readings,
) -> (fate: Fate)
    requires
        old(prevs)@.len() == stmts@.len(),
    ensures
        ({
            let t = turn(
                stmts@,
                0,
                row_view(row@),
                prevs_view(old(prevs)@),
                rownum as nat,
                nums_view(results@),
                0,
                readings@,
            );
            &&& fate@ == t.fate
            &&& prevs_view(final(prevs)@) == (if fate is Keep || fate is Drop {
                t.prevs
            } else {
                prevs_view(old(prevs)@)
            })
        }),
        final(prevs)@.len() == stmts@.len(),
{
    let ghost start = row_view(row@);
    let ghost first = prevs_view(prevs@);
    let ghost all = nums_view(results@);
    let mut now = clone_prevs(prevs);
    let mut cur = row;
    let mut used: usize = 0;
    let mut k: usize = 0;
    assert(now@.len() == prevs_view(now@).len());
    assert(prevs@.len() == first.len());
    while k < stmts.len()
        invariant
            k <= stmts.len(),
            all == nums_view(results@),
            start == row_view(row@),
            prevs_view(prevs@) == first,
            prevs@.len() == stmts@.len(),
            first == prevs_view(old(prevs)@),
            now@.len() == stmts@.len(),
            turn(stmts@, 0, start, first, rownum as nat, all, 0, readings@) == turn(
                stmts@,
                k as int,
                row_view(cur@),
                prevs_view(now@),
                rownum as nat,
                all,
                used as int,
                readings@,
            ),
        decreases stmts.len() - k,
    {
        match &stmts[k] {
            Stmt::Cols(p) => {
                cur = pick_cells(cur.as_slice(), p.positions.as_slice());
            },
            Stmt::Select(e) => {
                match e.eval(cur.as_slice(), readings) {
                    Ok(true) => {},
                    Ok(false) => {
                        *prevs = now;
                        return Fate::Drop;
                    },
                    Err(t) => {
                        return Fate::Fail(Fault::NotNumber(t));
                    },
                }
            },
            Stmt::ToNum(c) => {
                match to_nums(cur, c.positions.as_slice(), readings) {
                    Ok(r) => {
                        cur = r;
                    },
                    Err(t) => {
                        return Fate::Fail(Fault::NotNumber(t));
                    },
                }
            },
            Stmt::ToStr(c) => {
                cur = to_strs(cur, c.positions.as_slice());
            },
            Stmt::Rename(_) => {},
            Stmt::Add(a) => {
                let past = stmts[k].is_stateful();
                let prev: Option<&Vec<Field>> = if past {
                    match &now[k] {
                        Some(row) => Some(row),
                        None => None,
                    }
                } else {
                    None
                };
                let place = Place { row: cur.as_slice(), prev, rownum, readings, results };
                proof {
                    assert(prevs_view(now@)[k as int] == prev_view(now@[k as int]));
                    assert(place@ == place_of(
                        stmts@,
                        k as int,
                        row_view(cur@),
                        prevs_view(now@),
                        rownum as nat,
                        all,
                        readings@,
                    ));
                }
                let (value, n) = match a.expr.value_behind(&place, used) {
                    Ok(v) => v,
                    Err(Stop::Wants(op)) => {
                        return Fate::Wants(op);
                    },
                    Err(Stop::Fault(f)) => {
                        return Fate::Fail(f);
                    },
                };
                if past {
                    let ghost before = now@;
                    let snapshot = clone_row(cur.as_slice());
                    now.set(k, Some(snapshot));
                    assert(prevs_view(now@) =~= prevs_view(before).update(
                        k as int,
                        Some(row_view(cur@)),
                    ));
                }
                cur = put_value(cur, a.pos, value);
                used = n;
            },
        }
        k += 1;
    }
    *prevs = now;
    Fate::Keep(cur)
}

/// The results for row `i`, none when there are none.
pub open spec fn results_at(results: Seq<Seq<NumV>>, i: int) -> Seq<NumV> {
    if 0 <= i < results.len() {
        results[i]
    } else {
        seq![]
    }
}

/// No statement has seen a row yet.
pub open spec fn no_prevs(n: nat) -> Seq<Option<Seq<FieldV>>> {
    Seq::new(n, |i: int| None)
}

/// Where rows stop going through a transform stage: at `row`, by its fate.
pub struct HaltV {
    pub row: int,
    pub fate: FateV,
}

/// How far a transform stage has got.
pub struct PassV {
    pub kept: Seq<Seq<FieldV>>,
    pub prevs: Seq<Option<Seq<FieldV>>>,
    pub stop: Option<HaltV>,
}

/// What a transform stage makes of the first `n` rows, in order: those it keeps,
/// up to the first row that fails or wants a result.
pub open spec fn pass(
    stmts: Seq<Stmt>,
    rows: Seq<Seq<FieldV>>,
    results: Seq<Seq<NumV>>,
    readings: Map<Seq<char>, NumV>,
    n: int,
) -> PassV
    decreases n,
{
    if n <= 0 {
        PassV { kept: seq![], prevs: no_prevs(stmts.len()), stop: None }
    } else {
        let p = pass(stmts, rows, results, readings, n - 1);
        if p.stop is Some {
            p
        } else {
            let t = turn(
                stmts,
                0,
                rows[n - 1],
                p.prevs,
                n as nat,
                results_at(results, n - 1),
                0,
                readings,
            );
            match t.fate {
                FateV::Keep(r) => PassV { kept: p.kept.push(r), prevs: t.prevs, stop: None },
                FateV::Drop => PassV { kept: p.kept, prevs: t.prevs, stop: None },
                f => PassV { stop: Some(HaltV { row: n - 1, fate: f }), ..p },
            }
        }
    }
}

/// What a transform stage makes of the rows.
pub open spec fn transformed(
    stmts: Seq<Stmt>,
    rows: Seq<Seq<FieldV>>,
    results: Seq<Seq<NumV>>,
    readings: Map<Seq<char>, NumV>,
) -> PassV {
    pass(stmts, rows, results, readings, rows.len() as int)
}

/// A row at which a transform stage stops: for a value that cannot be had, or for a
/// result.
#[derive(Debug)]
pub struct Halt {
    pub row: usize,
    pub why: Why,
}

/// Why a transform stage stops.
#[derive(Debug)]
pub enum Why {
    Fail(Fault),
    Wants(NumOp),
}

impl View for Halt {
    type V = HaltV;

    open spec fn view(&self) -> HaltV {
        HaltV {
            row: self.row as int,
            fate: match self.why {
                Why::Fail(f) => FateV::Fail(f@),
                Why::Wants(op) => FateV::Wants(op@),
            },
        }
    }
}

proof fn lemma_pass_stops(
    stmts: Seq<Stmt>,
    rows: Seq<Seq<FieldV>>,
    results: Seq<Seq<NumV>>,
    readings: Map<Seq<char>, NumV>,
    m: int,
    n: int,
)
    requires
        m <= n,
        pass(stmts, rows, results, readings, m).stop is Some,
    ensures
        pass(stmts, rows, results, readings, n) == pass(stmts, rows, results, readings, m),
    decreases n - m,
{
    if m < n {
        lemma_pass_stops(stmts, rows, results, readings, m, n - 1);
    }
}

/// Results for the rows of a stage, in contracts.
pub open spec fn results_view(results: Seq<Vec<Num>>) -> Seq<Seq<NumV>> {
    results.map_values(|v: Vec<Num>| nums_view(v@))
}

/// Runs rows through a transform stage, in order. `results[i]` holds the results of
/// the operations that row `i` wants, as far as they are known; the first row that
/// wants one more, or fails, stops the stage.
pub fn transform_rows(stmts: &[Stmt], rows: &[Row], results: &[Vec<Num>], readings: &Readings) -> (r:
    Result<Vec<Row>, Halt>)
    ensures
        ({
            let p = transformed(stmts@, rows_view(rows@), results_view(results@), readings@);
            match r {
                Ok(out) => p.stop is None && rows_view(out@) == p.kept,
                Err(h) => p.stop == Some(h@),
            }
        }),
{
    let ghost rv = rows_view(rows@);
    let ghost vv = results_view(results@);
    let mut prevs: Vec<Option<Row>> = Vec::new();
    let mut k: usize = 0;
    while k < stmts.len()
        invariant
            k <= stmts.len(),
            prevs@.len() == k,
            forall|j: int| 0 <= j < k ==> #[trigger] prevs@[j] is None,
        decreases stmts.len() - k,
    {
        prevs.push(None);
        k += 1;
    }
    assert(prevs_view(prevs@) =~= no_prevs(stmts@.len()));
    let none: Vec<Num> = Vec::new();
    assert(nums_view(none@) =~= seq![]);
    let mut kept: Vec<Row> = Vec::new();
    let mut i: usize = 0;
    assert(rows_view(kept@) =~= seq![]);
    while i < rows.len()
        invariant
            i <= rows.len(),
            rv == rows_view(rows@),
            vv == results_view(results@),
            nums_view(none@) == Seq::<NumV>::empty(),
            prevs@.len() == stmts@.len(),
            ({
                let p = pass(stmts@, rv, vv, readings@, i as int);
                &&& p.stop is None
                &&& p.kept == rows_view(kept@)
                &&& p.prevs == prevs_view(prevs@)
            }),
        decreases rows.len() - i,
    {
        let v: &Vec<Num> = if i < results.len() {
            &results[i]
        } else {
            &none
        };
        assert(nums_view(v@) == results_at(vv, i as int));
        assert(rv[i as int] == row_view(rows@[i as int]@));
        let ghost before = rows_view(kept@);
        let fate = take_turn(
            stmts,
            clone_row(rows[i].as_slice()),
            &mut prevs,
            i as u64 + 1,
            v.as_slice(),
            readings,
        );
        match fate {
            Fate::Keep(row) => {
                let ghost kv = row_view(row@);
                kept.push(row);
                assert(rows_view(kept@) =~= before.push(kv));
            },
            Fate::Drop => {},
            Fate::Fail(e) => {
                proof {
                    lemma_pass_stops(stmts@, rv, vv, readings@, i + 1, rv.len() as int);
                }
                return Err(Halt { row: i, why: Why::Fail(e) });
            },
            Fate::Wants(op) => {
                proof {
                    lemma_pass_stops(stmts@, rv, vv, readings@, i + 1, rv.len() as int);
                }
                return Err(Halt { row: i, why: Why::Wants(op) });
            },
        }
        i += 1;
    }
    Ok(kept)
}

/// Parses a chunk, runs its rows through a transform stage and serializes those
/// it keeps: what a worker does with its part of the input.
pub fn transform_chunk(stmts: &[Stmt], chunk: &str, results: &[Vec<Num>], readings: &Readings) -> (r:
    Result<String, Halt>)
    ensures
        ({
            let p = transformed(
                stmts@,
                text_rows(chunk_rows(chunk@)),
                results_view(results@),
                readings@,
            );
            match r {
                Ok(out) => p.stop is None && out@ == rows_text(p.kept),
                Err(h) => p.stop == Some(h@),
            }
        }),
{
    let rows = parse_chunk(chunk);
    match transform_rows(stmts, rows.as_slice(), results, readings) {
        Ok(kept) => Ok(write_rows(kept.as_slice())),
        Err(h) => Err(h),
    }
}

/// A row that no statement looks past leaves no trace for the next one, and its
/// place among the others does not tell.
pub proof fn lemma_stateless_turn(
    stmts: Seq<Stmt>,
    k: int,
    row: Seq<FieldV>,
    prevs: Seq<Option<Seq<FieldV>>>,
    rownum: nat,
    other: nat,
    results: Seq<NumV>,
    used: int,
    readings: Map<Seq<char>, NumV>,
)
    requires
        0 <= k <= stmts.len(),
        !any_stateful(stmts),
    ensures
        turn(stmts, k, row, prevs, rownum, results, used, readings).prevs == prevs,
        turn(stmts, k, row, prevs, other, results, used, readings) == turn(
            stmts,
            k,
            row,
            prevs,
            rownum,
            results,
            used,
            readings,
        ),
    decreases stmts.len() - k,
{
    if k < stmts.len() {
        assert(!stateful(stmts[k]));
        match stmts[k] {
            Stmt::Cols(p) => lemma_stateless_turn(
                stmts,
                k + 1,
                pick(row, p.positions@),
                prevs,
                rownum,
                other,
                results,
                used,
                readings,
            ),
            Stmt::Select(_) | Stmt::Rename(_) => lemma_stateless_turn(
                stmts,
                k + 1,
                row,
                prevs,
                rownum,
                other,
                results,
                used,
                readings,
            ),
            Stmt::ToNum(c) => {
                if let Ok(r) = with_nums(row, c.positions@, 0, readings) {
                    lemma_stateless_turn(
                        stmts,
                        k + 1,
                        r,
                        prevs,
                        rownum,
                        other,
                        results,
                        used,
                        readings,
                    );
                }
            },
            Stmt::ToStr(c) => lemma_stateless_turn(
                stmts,
                k + 1,
                with_texts(row, c.positions@, 0),
                prevs,
                rownum,
                other,
                results,
                used,
                readings,
            ),
            Stmt::Add(a) => {
                let at = place_of(stmts, k, row, prevs, rownum, results, readings);
                law_a_plain_value_is_of_its_row_alone(a.expr, at, used, None, other);
                if let Ok((v, n)) = value_of(a.expr, at, used) {
                    lemma_stateless_turn(
                        stmts,
                        k + 1,
                        with_value(row, a.pos, v),
                        prevs,
                        rownum,
                        other,
                        results,
                        n,
                        readings,
                    );
                }
            },
        }
    }
}

/// Statements that look at no other row leave no trace for the next one.
pub proof fn lemma_stateless_pass(
    stmts: Seq<Stmt>,
    rows: Seq<Seq<FieldV>>,
    results: Seq<Seq<NumV>>,
    readings: Map<Seq<char>, NumV>,
    n: int,
)
    requires
        !any_stateful(stmts),
    ensures
        pass(stmts, rows, results, readings, n).prevs == no_prevs(stmts.len()),
    decreases n,
{
    if n > 0 {
        lemma_stateless_pass(stmts, rows, results, readings, n - 1);
        let p = pass(stmts, rows, results, readings, n - 1);
        lemma_stateless_turn(
            stmts,
            0,
            rows[n - 1],
            p.prevs,
            n as nat,
            n as nat,
            results_at(results, n - 1),
            0,
            readings,
        );
    }
}

proof fn lemma_pass_front(
    stmts: Seq<Stmt>,
    a: Seq<Seq<FieldV>>,
    b: Seq<Seq<FieldV>>,
    va: Seq<Seq<NumV>>,
    vb: Seq<Seq<NumV>>,
    readings: Map<Seq<char>, NumV>,
    n: int,
)
    requires
        va.len() == a.len(),
        n <= a.len(),
    ensures
        pass(stmts, a + b, va + vb, readings, n) == pass(stmts, a, va, readings, n),
    decreases n,
{
    if n > 0 {
        lemma_pass_front(stmts, a, b, va, vb, readings, n - 1);
        assert((a + b)[n - 1] == a[n - 1]);
        assert(results_at(va + vb, n - 1) == results_at(va, n - 1));
    }
}

proof fn lemma_pass_back(
    stmts: Seq<Stmt>,
    a: Seq<Seq<FieldV>>,
    b: Seq<Seq<FieldV>>,
    va: Seq<Seq<NumV>>,
    vb: Seq<Seq<NumV>>,
    readings: Map<Seq<char>, NumV>,
    n: int,
)
    requires
        !any_stateful(stmts),
        va.len() == a.len(),
        0 <= n <= b.len(),
        transformed(stmts, a, va, readings).stop is None,
    ensures
        ({
            let p = pass(stmts, a + b, va + vb, readings, a.len() + n);
            let q = pass(stmts, b, vb, readings, n);
            &&& p.stop is None <==> q.stop is None
            &&& q.stop is None ==> p.kept == transformed(stmts, a, va, readings).kept + q.kept
        }),
    decreases n,
{
    let h = transformed(stmts, a, va, readings).kept;
    if n == 0 {
        lemma_pass_front(stmts, a, b, va, vb, readings, a.len() as int);
        assert(h + Seq::<Seq<FieldV>>::empty() =~= h);
    } else {
        lemma_pass_back(stmts, a, b, va, vb, readings, n - 1);
        lemma_stateless_pass(stmts, a + b, va + vb, readings, a.len() + n - 1);
        lemma_stateless_pass(stmts, b, vb, readings, n - 1);
        assert((a + b)[a.len() + n - 1] == b[n - 1]);
        assert(results_at(va + vb, a.len() + n - 1) == results_at(vb, n - 1));
        lemma_stateless_turn(
            stmts,
            0,
            b[n - 1],
            no_prevs(stmts.len()),
            n as nat,
            (a.len() + n) as nat,
            results_at(vb, n - 1),
            0,
            readings,
        );
        let p = pass(stmts, a + b, va + vb, readings, a.len() + n);
        let q = pass(stmts, b, vb, readings, n);
        if q.stop is None {
            assert(p.kept =~= h + q.kept);
        }
    }
}

/// Statements that look at no other row take rows apart from each other: two runs
/// of rows go through a stage just when each of them does, and what the stage makes
/// of them is what it makes of the one, then of the other.
pub proof fn law_rows_transform_apart(
    stmts: Seq<Stmt>,
    a: Seq<Seq<FieldV>>,
    b: Seq<Seq<FieldV>>,
    va: Seq<Seq<NumV>>,
    vb: Seq<Seq<NumV>>,
    readings: Map<Seq<char>, NumV>,
)
    requires
        !any_stateful(stmts),
        va.len() == a.len(),
    ensures
        ({
            let whole = transformed(stmts, a + b, va + vb, readings);
            let first = transformed(stmts, a, va, readings);
            let second = transformed(stmts, b, vb, readings);
            &&& whole.stop is None <==> first.stop is None && second.stop is None
            &&& whole.stop is None ==> whole.kept == first.kept + second.kept
        }),
{
    if transformed(stmts, a, va, readings).stop is None {
        lemma_pass_back(stmts, a, b, va, vb, readings, b.len() as int);
    } else {
        let n = a.len() as int;
        lemma_pass_front(stmts, a, b, va, vb, readings, n);
        lemma_pass_stops(stmts, a + b, va + vb, readings, n, (a + b).len() as int);
    }
}

/// The pieces one after the other.
pub open spec fn concat(pieces: Seq<Seq<char>>) -> Seq<char>
    decreases pieces.len(),
{
    if pieces.len() == 0 {
        seq![]
    } else {
        concat(pieces.drop_last()) + pieces.last()
    }
}

/// The results for all the chunks' rows, in order.
pub open spec fn all_results(results: Seq<Seq<Seq<NumV>>>) -> Seq<Seq<NumV>>
    decreases results.len(),
{
    if results.len() == 0 {
        seq![]
    } else {
        all_results(results.drop_last()) + results.last()
    }
}

/// What a chunk is transformed to.
pub open spec fn chunk_output(
    stmts: Seq<Stmt>,
    chunk: Seq<char>,
    results: Seq<Seq<NumV>>,
    readings: Map<Seq<char>, NumV>,
) -> Seq<char> {
    rows_text(transformed(stmts, text_rows(chunk_rows(chunk)), results, readings).kept)
}

/// Whether a chunk goes through the statements without a stop.
pub open spec fn chunk_passes(
    stmts: Seq<Stmt>,
    chunk: Seq<char>,
    results: Seq<Seq<NumV>>,
    readings: Map<Seq<char>, NumV>,
) -> bool {
    transformed(stmts, text_rows(chunk_rows(chunk)), results, readings).stop is None
}

/// Whether every chunk goes through the statements without a stop.
pub open spec fn all_pass(
    stmts: Seq<Stmt>,
    chunks: Seq<Seq<char>>,
    results: Seq<Seq<Seq<NumV>>>,
    readings: Map<Seq<char>, NumV>,
) -> bool {
    forall|i: int|
        0 <= i < chunks.len() ==> chunk_passes(stmts, #[trigger] chunks[i], results[i], readings)
}

/// The outputs of the chunks, one after the other.
pub open spec fn chunk_outputs(
    stmts: Seq<Stmt>,
    chunks: Seq<Seq<char>>,
    results: Seq<Seq<Seq<NumV>>>,
    readings: Map<Seq<char>, NumV>,
) -> Seq<char> {
    concat(Seq::new(chunks.len(), |i: int| chunk_output(stmts, chunks[i], results[i], readings)))
}

/// However the input is cut into chunks at line boundaries, it goes through the
/// statements just when every chunk does, and then the outputs of the chunks, put
/// together in order, are the output of the whole: results do not depend on the
/// chunk size, the shards or the number of threads.
pub proof fn law_output_is_the_same_in_any_chunks(
    stmts: Seq<Stmt>,
    chunks: Seq<Seq<char>>,
    results: Seq<Seq<Seq<NumV>>>,
    readings: Map<Seq<char>, NumV>,
)
    requires
        !any_stateful(stmts),
        results.len() == chunks.len(),
        forall|i: int|
            0 <= i < chunks.len() - 1 && (#[trigger] chunks[i]).len() > 0 ==> chunks[i].last()
                == '\n',
        forall|i: int|
            0 <= i < chunks.len() ==> #[trigger] results[i].len() == chunk_rows(chunks[i]).len(),
    ensures
        chunk_passes(stmts, concat(chunks), all_results(results), readings) <==> all_pass(
            stmts,
            chunks,
            results,
            readings,
        ),
        chunk_passes(stmts, concat(chunks), all_results(results), readings) ==> chunk_output(
            stmts,
            concat(chunks),
            all_results(results),
            readings,
        ) == chunk_outputs(stmts, chunks, results, readings),
        all_results(results).len() == chunk_rows(concat(chunks)).len(),
    decreases chunks.len(),
{
    let outs = Seq::new(chunks.len(), |i: int| chunk_output(stmts, chunks[i], results[i], readings));
    if chunks.len() == 0 {
        assert(chunk_rows(concat(chunks)) =~= seq![]);
        assert(text_rows(chunk_rows(concat(chunks))) =~= seq![]);
    } else {
        let front = chunks.drop_last();
        let vfront = results.drop_last();
        let a = concat(front);
        let b = chunks.last();
        let last = chunks.len() - 1;
        assert forall|i: int| 0 <= i < front.len() implies #[trigger] vfront[i].len()
            == chunk_rows(front[i]).len() by {
            assert(results[i].len() == chunk_rows(chunks[i]).len());
        }
        law_output_is_the_same_in_any_chunks(stmts, front, vfront, readings);
        lemma_concat_ends(front);
        law_chunks_parse_apart(a, b);
        let ra = text_rows(chunk_rows(a));
        let rb = text_rows(chunk_rows(b));
        assert(text_rows(chunk_rows(a + b)) =~= ra + rb);
        assert(results[last].len() == chunk_rows(chunks[last]).len());
        let va = all_results(vfront);
        law_rows_transform_apart(stmts, ra, rb, va, results.last(), readings);
        assert(all_pass(stmts, chunks, results, readings) <==> all_pass(stmts, front, vfront, readings)
            && chunk_passes(stmts, b, results.last(), readings)) by {
            assert(chunks[last] == b && results[last] == results.last());
            if all_pass(stmts, chunks, results, readings) {
                assert(chunk_passes(stmts, chunks[last], results[last], readings));
                assert forall|i: int| 0 <= i < front.len() implies chunk_passes(
                    stmts,
                    #[trigger] front[i],
                    vfront[i],
                    readings,
                ) by {
                    assert(chunk_passes(stmts, chunks[i], results[i], readings));
                }
            }
            if all_pass(stmts, front, vfront, readings) && chunk_passes(
                stmts,
                b,
                results.last(),
                readings,
            ) {
                assert forall|i: int| 0 <= i < chunks.len() implies chunk_passes(
                    stmts,
                    #[trigger] chunks[i],
                    results[i],
                    readings,
                ) by {
                    if i < last {
                        assert(chunk_passes(stmts, front[i], vfront[i], readings));
                    }
                }
            }
        }
        crate::csv::lemma_rows_text_concat(
            transformed(stmts, ra, va, readings).kept,
            transformed(stmts, rb, results.last(), readings).kept,
        );
        assert(outs.drop_last() =~= Seq::new(
            front.len(),
            |i: int| chunk_output(stmts, front[i], vfront[i], readings),
        ));
        assert(outs.last() == chunk_output(stmts, b, results.last(), readings));
    }
}

/// Pieces that end in a newline, if they hold anything, do so put together.
pub proof fn lemma_concat_ends(chunks: Seq<Seq<char>>)
    requires
        forall|i: int|
            0 <= i < chunks.len() && (#[trigger] chunks[i]).len() > 0 ==> chunks[i].last() == '\n',
    ensures
        concat(chunks).len() > 0 ==> concat(chunks).last() == '\n',
    decreases chunks.len(),
{
    if chunks.len() > 0 {
        let front = chunks.drop_last();
        assert forall|i: int| 0 <= i < front.len() && (#[trigger] front[i]).len() > 0 implies front[
        i].last() == '\n' by {
            assert(front[i] == chunks[i]);
        }
        lemma_concat_ends(front);
        let last = chunks[chunks.len() - 1];
        if last.len() == 0 {
            assert(concat(chunks) =~= concat(front));
        }
    }
}

/// Where the expression of an `add` that stands alone is evaluated for row `i`: on
/// that row, behind the one before it.
pub open spec fn place_at(
    rows: Seq<Seq<FieldV>>,
    i: int,
    results: Seq<Seq<NumV>>,
    readings: Map<Seq<char>, NumV>,
) -> PlaceV {
    PlaceV {
        row: rows[i],
        prev: if i > 0 {
            Some(rows[i - 1])
        } else {
            None
        },
        rownum: (i + 1) as nat,
        readings,
        results: results_at(results, i),
    }
}

/// Whether `out` is row `i` with the value of the expression put in.
pub open spec fn has_added(
    a: AddStmt,
    rows: Seq<Seq<FieldV>>,
    i: int,
    results: Seq<Seq<NumV>>,
    readings: Map<Seq<char>, NumV>,
    out: Seq<FieldV>,
) -> bool {
    &&& value_of(a.expr, place_at(rows, i, results, readings), 0) matches Ok((v, _))
    &&& out == with_value(rows[i], a.pos, v)
}

proof fn lemma_added(
    a: AddStmt,
    rows: Seq<Seq<FieldV>>,
    results: Seq<Seq<NumV>>,
    readings: Map<Seq<char>, NumV>,
    n: int,
)
    requires
        0 <= n <= rows.len(),
        pass(seq![Stmt::Add(a)], rows, results, readings, n).stop is None,
    ensures
        ({
            let p = pass(seq![Stmt::Add(a)], rows, results, readings, n);
            &&& p.kept.len() == n
            &&& p.prevs.len() == 1
            &&& p.prevs[0] == (if looks_past(a.expr) && n > 0 {
                Some(rows[n - 1])
            } else {
                None
            })
            &&& forall|i: int|
                0 <= i < n ==> has_added(a, rows, i, results, readings, #[trigger] p.kept[i])
        }),
    decreases n,
{
    let stmts = seq![Stmt::Add(a)];
    reveal_with_fuel(turn, 2);
    if n > 0 {
        let p = pass(stmts, rows, results, readings, n - 1);
        assert(p.stop is None);
        lemma_added(a, rows, results, readings, n - 1);
        let at = place_of(
            stmts,
            0,
            rows[n - 1],
            p.prevs,
            n as nat,
            results_at(results, n - 1),
            readings,
        );
        let to = place_at(rows, n - 1, results, readings);
        if looks_past(a.expr) {
            assert(at == to);
        } else {
            law_a_plain_value_is_of_its_row_alone(a.expr, at, 0, to.prev, to.rownum);
            assert(PlaceV { prev: to.prev, rownum: to.rownum, ..at } == to);
        }
        let q = pass(stmts, rows, results, readings, n);
        assert(q.kept.len() == n);
        assert(has_added(a, rows, n - 1, results, readings, q.kept[n - 1]));
        assert forall|i: int| 0 <= i < n implies has_added(
            a,
            rows,
            i,
            results,
            readings,
            #[trigger] q.kept[i],
        ) by {
            if i < n - 1 {
                assert(q.kept[i] == p.kept[i]);
            }
        }
    }
}

/// The cell that an `add` writes into a row is the value of its expression there,
/// `prev` being the row before and `rownum` the number of the row: no row is lost, and
/// no other cell changes.
pub proof fn law_an_add_writes_the_value_of_its_expression(
    a: AddStmt,
    rows: Seq<Seq<FieldV>>,
    results: Seq<Seq<NumV>>,
    readings: Map<Seq<char>, NumV>,
)
    requires
        transformed(seq![Stmt::Add(a)], rows, results, readings).stop is None,
    ensures
        ({
            let kept = transformed(seq![Stmt::Add(a)], rows, results, readings).kept;
            &&& kept.len() == rows.len()
            &&& forall|i: int|
                0 <= i < rows.len() ==> has_added(
                    a,
                    rows,
                    i,
                    results,
                    readings,
                    #[trigger] kept[i],
                )
        }),
{
    lemma_added(a, rows, results, readings, rows.len() as int);
}

proof fn lemma_renamed(
    r: RenameStmt,
    rows: Seq<Seq<FieldV>>,
    results: Seq<Seq<NumV>>,
    readings: Map<Seq<char>, NumV>,
    n: int,
)
    requires
        0 <= n <= rows.len(),
    ensures
        pass(seq![Stmt::Rename(r)], rows, results, readings, n).stop is None,
        pass(seq![Stmt::Rename(r)], rows, results, readings, n).kept == rows.take(n),
    decreases n,
{
    reveal_with_fuel(turn, 2);
    if n > 0 {
        lemma_renamed(r, rows, results, readings, n - 1);
        assert(rows.take(n) =~= rows.take(n - 1).push(rows[n - 1]));
    } else {
        assert(rows.take(0) =~= seq![]);
    }
}

/// A rename is one of the header only: the rows stay as they are.
pub proof fn law_a_rename_changes_no_row(
    r: RenameStmt,
    rows: Seq<Seq<FieldV>>,
    results: Seq<Seq<NumV>>,
    readings: Map<Seq<char>, NumV>,
)
    ensures
        transformed(seq![Stmt::Rename(r)], rows, results, readings).stop is None,
        transformed(seq![Stmt::Rename(r)], rows, results, readings).kept == rows,
{
    lemma_renamed(r, rows, results, readings, rows.len() as int);
    assert(rows.take(rows.len() as int) =~= rows);
}

proof fn lemma_selected(
    e: BoolExpr,
    rows: Seq<Seq<FieldV>>,
    results: Seq<Seq<NumV>>,
    readings: Map<Seq<char>, NumV>,
    n: int,
)
    requires
        0 <= n <= rows.len(),
        forall|i: int| 0 <= i < rows.len() ==> eval_spec(e, #[trigger] rows[i], readings) is Ok,
    ensures
        pass(seq![Stmt::Select(e)], rows, results, readings, n).stop is None,
        pass(seq![Stmt::Select(e)], rows, results, readings, n).kept == rows.take(n).filter(
            |row: Seq<FieldV>| eval_spec(e, row, readings) == Ok::<bool, Seq<char>>(true),
        ),
    decreases n,
{
    reveal_with_fuel(turn, 2);
    reveal(Seq::filter);
    if n > 0 {
        lemma_selected(e, rows, results, readings, n - 1);
        assert(rows.take(n).drop_last() =~= rows.take(n - 1));
        assert(eval_spec(e, rows[n - 1], readings) is Ok);
    }
}

/// A selection on which every row gives an answer keeps the rows whose answer is
/// yes, as they are and in their order, and no others.
pub proof fn law_select_keeps_the_rows_that_hold(
    e: BoolExpr,
    rows: Seq<Seq<FieldV>>,
    results: Seq<Seq<NumV>>,
    readings: Map<Seq<char>, NumV>,
)
    requires
        forall|i: int| 0 <= i < rows.len() ==> eval_spec(e, #[trigger] rows[i], readings) is Ok,
    ensures
        transformed(seq![Stmt::Select(e)], rows, results, readings).stop is None,
        transformed(seq![Stmt::Select(e)], rows, results, readings).kept == rows.filter(
            |row: Seq<FieldV>| eval_spec(e, row, readings) == Ok::<bool, Seq<char>>(true),
        ),
{
    lemma_selected(e, rows, results, readings, rows.len() as int);
    assert(rows.take(rows.len() as int) =~= rows);
}

} // verus!
