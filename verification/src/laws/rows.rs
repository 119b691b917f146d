//! What `cols`, `to-num`, `to-str` and `add` make of rows.

use crate::exec::{
    FateV, pass, place_of, results_at, stateful, turn, with_nums, with_texts, with_value,
};
use crate::field::{FieldV, NumV, cell_or_empty, pick};
use crate::laws::select::reads_as;
use crate::plan::Stmt;
use crate::value::value_of;
use vstd::prelude::*;

verus! {

/// Whether `out` is the cells of `row` at those places, in their order, empty ones where
/// the row is too short.
pub open spec fn chosen(row: Seq<FieldV>, positions: Seq<usize>, out: Seq<FieldV>) -> bool {
    &&& out.len() == positions.len()
    &&& forall|i: int|
        #![trigger out[i]]
        #![trigger positions[i]]
        0 <= i < positions.len() ==> out[i] == if positions[i] < row.len() {
            row[positions[i] as int]
        } else {
            FieldV::Str(seq![])
        }
}

/// Whether `out` is `row` with the numbers that its cells at those places read as.
pub open spec fn read_in(
    row: Seq<FieldV>,
    positions: Seq<usize>,
    readings: Map<Seq<char>, NumV>,
    out: Seq<FieldV>,
) -> bool {
    &&& out.len() == row.len()
    &&& forall|c: int|
        #![trigger out[c]]
        #![trigger row[c]]
        0 <= c < row.len() ==> if positions.contains(c as usize) {
            reading(row[c], readings) == Ok::<NumV, Seq<char>>(out[c]->Num_0) && out[c] is Num
        } else {
            out[c] == row[c]
        }
}

/// What a cell is as a number: a number is itself, and a text what it reads as.
pub open spec fn reading(f: FieldV, readings: Map<Seq<char>, NumV>) -> Result<NumV, Seq<char>> {
    match f {
        FieldV::Num(n) => Ok(n),
        FieldV::Str(s) => reads_as(s, readings),
    }
}

proof fn lemma_with_nums(
    row: Seq<FieldV>,
    positions: Seq<usize>,
    k: int,
    readings: Map<Seq<char>, NumV>,
)
    requires
        0 <= k <= positions.len(),
        row.len() <= usize::MAX,
    ensures
        with_nums(row, positions, k, readings) matches Ok(out) ==> read_in(
            row,
            positions.skip(k),
            readings,
            out,
        ),
        with_nums(row, positions, k, readings) matches Err(t) ==> exists|i: int|
            k <= i < positions.len() && #[trigger] positions[i] < row.len() && reading(
                row[positions[i] as int],
                readings,
            ) == Err::<NumV, Seq<char>>(t),
    decreases positions.len() - k,
{
    let rest = positions.skip(k);
    if k < positions.len() {
        let p = positions[k] as int;
        let next = positions.skip(k + 1);
        assert(rest[0] == positions[k]);
        assert forall|c: usize| #[trigger] rest.contains(c) <==> (c == positions[k]
            || next.contains(c)) by {
            if rest.contains(c) {
                let i = rest.index_of(c);
                if i > 0 {
                    assert(next[i - 1] == rest[i]);
                }
            }
            if next.contains(c) {
                let i = next.index_of(c);
                assert(rest[i + 1] == next[i]);
            }
        }
        if p >= row.len() {
            lemma_with_nums(row, positions, k + 1, readings);
        } else {
            match row[p].num_soft(readings) {
                Some(n) => {
                    let one = row.update(p, FieldV::Num(n));
                    lemma_with_nums(one, positions, k + 1, readings);
                    match with_nums(row, positions, k, readings) {
                        Ok(out) => {
                            assert forall|c: int|
                                #![trigger out[c]]
                                #![trigger row[c]]
                                0 <= c < row.len() implies if rest.contains(c as usize) {
                                reading(row[c], readings) == Ok::<NumV, Seq<char>>(out[c]->Num_0)
                                    && out[c] is Num
                            } else {
                                out[c] == row[c]
                            } by {
                                assert(one[c] == if c == p {
                                    FieldV::Num(n)
                                } else {
                                    row[c]
                                });
                            }
                        },
                        Err(t) => {
                            let i = choose|i: int|
                                k + 1 <= i < positions.len() && #[trigger] positions[i] < one.len()
                                    && reading(one[positions[i] as int], readings) == Err::<
                                    NumV,
                                    Seq<char>,
                                >(t);
                            assert(reading(row[positions[i] as int], readings) == Err::<
                                NumV,
                                Seq<char>,
                            >(t));
                        },
                    }
                },
                None => {
                    assert(reading(row[positions[k] as int], readings) == Err::<NumV, Seq<char>>(
                        row[p].text(),
                    ));
                },
            }
        }
    } else {
        assert forall|c: usize| !#[trigger] rest.contains(c) by {}
    }
}

/// `to-num` puts the numbers that the named cells read as in their place and leaves the
/// others alone; it fails on a cell that is no number, and only there.
pub proof fn law_to_num_reads_the_named_cells(
    row: Seq<FieldV>,
    positions: Seq<usize>,
    readings: Map<Seq<char>, NumV>,
)
    requires
        row.len() <= usize::MAX,
    ensures
        with_nums(row, positions, 0, readings) matches Ok(out) ==> read_in(
            row,
            positions,
            readings,
            out,
        ),
        with_nums(row, positions, 0, readings) matches Err(t) ==> exists|i: int|
            0 <= i < positions.len() && #[trigger] positions[i] < row.len() && reading(
                row[positions[i] as int],
                readings,
            ) == Err::<NumV, Seq<char>>(t),
{
    lemma_with_nums(row, positions, 0, readings);
    assert(positions.skip(0) =~= positions);
}

/// `to-str` makes texts of the named cells, as they are written, and leaves the others
/// alone.
pub proof fn law_to_str_keeps_how_the_named_cells_are_written(
    row: Seq<FieldV>,
    positions: Seq<usize>,
    k: int,
)
    requires
        0 <= k <= positions.len(),
        row.len() <= usize::MAX,
    ensures
        ({
            let out = with_texts(row, positions, k);
            &&& out.len() == row.len()
            &&& forall|c: int|
                #![trigger out[c]]
                #![trigger row[c]]
                0 <= c < row.len() ==> {
                    &&& out[c].text() == row[c].text()
                    &&& if positions.skip(k).contains(c as usize) {
                        out[c] is Str
                    } else {
                        out[c] == row[c]
                    }
                }
        }),
    decreases positions.len() - k,
{
    let rest = positions.skip(k);
    if k < positions.len() {
        let p = positions[k] as int;
        let next = positions.skip(k + 1);
        assert(rest[0] == positions[k]);
        assert forall|c: usize| #[trigger] rest.contains(c) <==> (c == positions[k]
            || next.contains(c)) by {
            if rest.contains(c) {
                let i = rest.index_of(c);
                if i > 0 {
                    assert(next[i - 1] == rest[i]);
                }
            }
            if next.contains(c) {
                let i = next.index_of(c);
                assert(rest[i + 1] == next[i]);
            }
        }
        if p >= row.len() {
            law_to_str_keeps_how_the_named_cells_are_written(row, positions, k + 1);
        } else {
            let one = row.update(p, FieldV::Str(row[p].text()));
            law_to_str_keeps_how_the_named_cells_are_written(one, positions, k + 1);
            let out = with_texts(row, positions, k);
            assert forall|c: int|
                #![trigger out[c]]
                #![trigger row[c]]
                0 <= c < row.len() implies {
                &&& out[c].text() == row[c].text()
                &&& if rest.contains(c as usize) {
                    out[c] is Str
                } else {
                    out[c] == row[c]
                }
            } by {
                assert(one[c] == if c == p {
                    FieldV::Str(row[p].text())
                } else {
                    row[c]
                });
            }
        }
    } else {
        assert forall|c: usize| !#[trigger] rest.contains(c) by {}
    }
}

/// `add` puts its value in the place of the column that it replaces, or behind the
/// others, and changes no other cell.
pub proof fn law_add_changes_one_cell(row: Seq<FieldV>, pos: Option<usize>, value: FieldV)
    ensures
        ({
            let out = with_value(row, pos, value);
            match pos {
                Some(p) if p < row.len() => {
                    &&& out.len() == row.len()
                    &&& out[p as int] == value
                    &&& forall|c: int|
                        0 <= c < row.len() && c != p ==> #[trigger] out[c] == row[c]
                },
                _ => {
                    &&& out.len() == row.len() + 1
                    &&& out[row.len() as int] == value
                    &&& forall|c: int| 0 <= c < row.len() ==> #[trigger] out[c] == row[c]
                },
            }
        }),
{
}

/// Whether none of the statements is an `add`.
pub open spec fn no_adds(stmts: Seq<Stmt>) -> bool {
    forall|k: int| 0 <= k < stmts.len() ==> !(#[trigger] stmts[k] is Add)
}

/// What one statement makes of a row.
pub open spec fn fate(s: Stmt, row: Seq<FieldV>, readings: Map<Seq<char>, NumV>) -> FateV {
    turn(seq![s], 0, row, seq![None], 1, seq![], 0, readings).fate
}

/// What each kind of statement makes of a row: `cols` picks its cells, `select` keeps it
/// or drops it whole, `to-num` and `to-str` change the cells they name, and `rename`
/// changes nothing.
pub proof fn law_a_statement_does_what_it_says(
    s: Stmt,
    row: Seq<FieldV>,
    readings: Map<Seq<char>, NumV>,
)
    requires
        row.len() <= usize::MAX,
    ensures
        s matches Stmt::Cols(p) ==> fate(s, row, readings) is Keep && chosen(
            row,
            p.positions@,
            fate(s, row, readings)->Keep_0,
        ),
        s is Rename ==> fate(s, row, readings) == FateV::Keep(row),
        s matches Stmt::Select(e) ==> match crate::plan::eval_spec(e, row, readings) {
            Ok(yes) => fate(s, row, readings) == (if yes {
                FateV::Keep(row)
            } else {
                FateV::Drop
            }),
            Err(_) => fate(s, row, readings) is Fail,
        },
        s matches Stmt::ToNum(c) ==> match fate(s, row, readings) {
            FateV::Keep(out) => read_in(row, c.positions@, readings, out),
            FateV::Fail(_) => exists|i: int|
                0 <= i < c.positions@.len() && #[trigger] c.positions@[i] < row.len() && reading(
                    row[c.positions@[i] as int],
                    readings,
                ) is Err,
            _ => false,
        },
        s matches Stmt::ToStr(c) ==> fate(s, row, readings) == FateV::Keep(
            with_texts(row, c.positions@, 0),
        ),
{
    reveal_with_fuel(turn, 2);
    if let Stmt::ToNum(c) = s {
        law_to_num_reads_the_named_cells(row, c.positions@, readings);
        match with_nums(row, c.positions@, 0, readings) {
            Ok(_) => {},
            Err(t) => {
                let i = choose|i: int|
                    0 <= i < c.positions@.len() && #[trigger] c.positions@[i] < row.len()
                        && reading(row[c.positions@[i] as int], readings) == Err::<NumV, Seq<char>>(
                        t,
                    );
                assert(reading(row[c.positions@[i] as int], readings) is Err);
            },
        }
    }
    if let Stmt::Cols(p) = s {
        let out = pick(row, p.positions@);
        assert forall|i: int|
            #![trigger out[i]]
            #![trigger p.positions@[i]]
            0 <= i < p.positions@.len() implies out[i] == (if p.positions@[i] < row.len() {
            row[p.positions@[i] as int]
        } else {
            FieldV::Str(seq![])
        }) by {
            assert(out[i] == cell_or_empty(row, p.positions@[i] as int));
        }
    }
}

proof fn lemma_turn_of_rest(
    s: Stmt,
    rest: Seq<Stmt>,
    k: int,
    row: Seq<FieldV>,
    prevs: Seq<Option<Seq<FieldV>>>,
    others: Seq<Option<Seq<FieldV>>>,
    rownum: nat,
    other: nat,
    results: Seq<NumV>,
    more: Seq<NumV>,
    readings: Map<Seq<char>, NumV>,
)
    requires
        no_adds(rest),
        0 <= k <= rest.len(),
    ensures
        turn(seq![s] + rest, k + 1, row, prevs, rownum, results, 0, readings).fate == turn(
            rest,
            k,
            row,
            others,
            other,
            more,
            0,
            readings,
        ).fate,
    decreases rest.len() - k,
{
    let all = seq![s] + rest;
    if k < rest.len() {
        assert(all[k + 1] == rest[k]);
        assert(!(rest[k] is Add));
        let next = match rest[k] {
            Stmt::Cols(p) => pick(row, p.positions@),
            Stmt::ToNum(c) => match with_nums(row, c.positions@, 0, readings) {
                Ok(r) => r,
                Err(_) => row,
            },
            Stmt::ToStr(c) => with_texts(row, c.positions@, 0),
            _ => row,
        };
        lemma_turn_of_rest(
            s,
            rest,
            k + 1,
            next,
            prevs,
            others,
            rownum,
            other,
            results,
            more,
            readings,
        );
    }
}

/// Statements work one after the other: what the first makes of a row is what the others
/// are given.
pub proof fn law_statements_work_in_turn(
    s: Stmt,
    rest: Seq<Stmt>,
    row: Seq<FieldV>,
    prevs: Seq<Option<Seq<FieldV>>>,
    rownum: nat,
    results: Seq<NumV>,
    readings: Map<Seq<char>, NumV>,
)
    requires
        !(s is Add),
        no_adds(rest),
    ensures
        ({
            let all = turn(seq![s] + rest, 0, row, prevs, rownum, results, 0, readings).fate;
            match fate(s, row, readings) {
                FateV::Keep(r) => all == turn(rest, 0, r, prevs, rownum, results, 0, readings).fate,
                f => all == f,
            }
        }),
{
    reveal_with_fuel(turn, 2);
    let all = seq![s] + rest;
    assert(all[0] == s);
    match fate(s, row, readings) {
        FateV::Keep(r) => {
            lemma_turn_of_rest(
                s,
                rest,
                0,
                r,
                prevs,
                prevs,
                rownum,
                rownum,
                results,
                results,
                readings,
            );
        },
        _ => {},
    }
}

/// A transform keeps what becomes of each row that it keeps, in the order of the rows,
/// and stops at the first that fails.
pub proof fn law_a_transform_goes_row_by_row(
    stmts: Seq<Stmt>,
    rows: Seq<Seq<FieldV>>,
    results: Seq<Seq<NumV>>,
    readings: Map<Seq<char>, NumV>,
    n: int,
) -> (from: Seq<int>)
    requires
        no_adds(stmts),
        0 <= n <= rows.len(),
    ensures
        ({
            let p = pass(stmts, rows, results, readings, n);
            let done = match p.stop {
                Some(h) => h.row as int,
                None => n,
            };
            &&& p.stop matches Some(h) ==> 0 <= h.row < n && alone(
                stmts,
                rows[h.row],
                readings,
            ) == h.fate && !(h.fate is Keep) && !(h.fate is Drop)
            &&& from.len() == p.kept.len()
            &&& forall|i: int|
                0 <= i < from.len() ==> 0 <= #[trigger] from[i] < done && alone(
                    stmts,
                    rows[from[i]],
                    readings,
                ) == FateV::Keep(p.kept[i])
            &&& forall|i: int, j: int|
                0 <= i < j < from.len() ==> #[trigger] from[i] < #[trigger] from[j]
            &&& forall|r: int|
                0 <= r < done ==> match alone(stmts, #[trigger] rows[r], readings) {
                    FateV::Keep(_) => from.contains(r),
                    FateV::Drop => true,
                    _ => false,
                }
        }),
    decreases n,
{
    if n == 0 {
        Seq::empty()
    } else {
        let from = law_a_transform_goes_row_by_row(stmts, rows, results, readings, n - 1);
        let p = pass(stmts, rows, results, readings, n - 1);
        if p.stop is Some {
            from
        } else {
            let row = rows[n - 1];
            lemma_alone(
                stmts,
                0,
                row,
                p.prevs,
                n as nat,
                results_at(results, n - 1),
                readings,
            );
            let q = pass(stmts, rows, results, readings, n);
            match alone(stmts, row, readings) {
                FateV::Keep(r) => {
                    let all = from.push(n - 1);
                    assert(q.kept == p.kept.push(r));
                    assert forall|i: int| 0 <= i < all.len() implies 0 <= #[trigger] all[i] < n
                        && alone(stmts, rows[all[i]], readings) == FateV::Keep(q.kept[i]) by {
                        if i < from.len() {
                            assert(all[i] == from[i]);
                        }
                    }
                    assert forall|r: int| 0 <= r < n implies match alone(
                        stmts,
                        #[trigger] rows[r],
                        readings,
                    ) {
                        FateV::Keep(_) => all.contains(r),
                        FateV::Drop => true,
                        _ => false,
                    } by {
                        if r == n - 1 {
                            assert(all[from.len() as int] == r);
                        } else if alone(stmts, rows[r], readings) is Keep {
                            let i = from.index_of(r);
                            assert(all[i] == r);
                        }
                    }
                    all
                },
                _ => from,
            }
        }
    }
}

/// What becomes of a row by itself.
pub open spec fn alone(stmts: Seq<Stmt>, row: Seq<FieldV>, readings: Map<Seq<char>, NumV>) -> FateV {
    turn(stmts, 0, row, seq![], 0, seq![], 0, readings).fate
}

proof fn lemma_alone(
    stmts: Seq<Stmt>,
    k: int,
    row: Seq<FieldV>,
    prevs: Seq<Option<Seq<FieldV>>>,
    rownum: nat,
    results: Seq<NumV>,
    readings: Map<Seq<char>, NumV>,
)
    requires
        no_adds(stmts),
        0 <= k <= stmts.len(),
    ensures
        turn(stmts, k, row, prevs, rownum, results, 0, readings).fate == turn(
            stmts,
            k,
            row,
            seq![],
            0,
            seq![],
            0,
            readings,
        ).fate,
    decreases stmts.len() - k,
{
    if k < stmts.len() {
        assert(!(stmts[k] is Add));
        let next = match stmts[k] {
            Stmt::Cols(p) => pick(row, p.positions@),
            Stmt::ToNum(c) => match with_nums(row, c.positions@, 0, readings) {
                Ok(r) => r,
                Err(_) => row,
            },
            Stmt::ToStr(c) => with_texts(row, c.positions@, 0),
            _ => row,
        };
        lemma_alone(stmts, k + 1, next, prevs, rownum, results, readings);
    }
}

/// The row that an `add` will see as the one before is the row as it saw it itself: what
/// the statements before it made of it. One that they drop leaves it what it was.
pub proof fn law_the_row_before_is_the_last_that_came_here(
    stmts: Seq<Stmt>,
    i: int,
    k: int,
    row: Seq<FieldV>,
    prevs: Seq<Option<Seq<FieldV>>>,
    rownum: nat,
    results: Seq<NumV>,
    used: int,
    readings: Map<Seq<char>, NumV>,
)
    requires
        0 <= i <= k < stmts.len() == prevs.len(),
        no_adds(stmts.subrange(i, k)),
    ensures
        ({
            let t = turn(stmts, i, row, prevs, rownum, results, used, readings);
            &&& t.prevs.len() == prevs.len()
            &&& !stateful(stmts[k]) ==> t.prevs[k] == prevs[k]
            &&& stateful(stmts[k]) ==> match turn(
                stmts.take(k),
                i,
                row,
                prevs,
                rownum,
                results,
                used,
                readings,
            ).fate {
                FateV::Keep(r) => {
                    ||| t.prevs[k] == Some(r)
                    ||| t.prevs[k] == prevs[k] && (t.fate is Fail || t.fate is Wants)
                },
                _ => t.prevs[k] == prevs[k],
            }
        }),
    decreases k - i,
{
    let front = stmts.take(k);
    if i < k {
        assert(front[i] == stmts[i]);
        assert(stmts.subrange(i, k)[0] == stmts[i]);
        assert forall|m: int| 0 <= m < stmts.subrange(i + 1, k).len() implies !(
        #[trigger] stmts.subrange(i + 1, k)[m] is Add) by {
            assert(stmts.subrange(i, k)[m + 1] == stmts.subrange(i + 1, k)[m]);
        }
        let next = match stmts[i] {
            Stmt::Cols(p) => pick(row, p.positions@),
            Stmt::ToNum(c) => match with_nums(row, c.positions@, 0, readings) {
                Ok(r) => r,
                Err(_) => row,
            },
            Stmt::ToStr(c) => with_texts(row, c.positions@, 0),
            _ => row,
        };
        law_the_row_before_is_the_last_that_came_here(
            stmts,
            i + 1,
            k,
            next,
            prevs,
            rownum,
            results,
            used,
            readings,
        );
    } else {
        reveal_with_fuel(turn, 2);
        if let Stmt::Add(a) = stmts[k] {
            let at = place_of(stmts, k, row, prevs, rownum, results, readings);
            if let Ok((v, n)) = value_of(a.expr, at, used) {
                let now = if stateful(stmts[k]) {
                    prevs.update(k, Some(row))
                } else {
                    prevs
                };
                lemma_behind(
                    stmts,
                    k + 1,
                    k,
                    with_value(row, a.pos, v),
                    now,
                    rownum,
                    results,
                    n,
                    readings,
                );
            }
        } else {
            lemma_behind(stmts, k, k, row, prevs, rownum, results, used, readings);
        }
    }
}

proof fn lemma_behind(
    stmts: Seq<Stmt>,
    i: int,
    k: int,
    row: Seq<FieldV>,
    prevs: Seq<Option<Seq<FieldV>>>,
    rownum: nat,
    results: Seq<NumV>,
    used: int,
    readings: Map<Seq<char>, NumV>,
)
    requires
        0 <= k < stmts.len() == prevs.len(),
        k <= i <= stmts.len(),
        i == k ==> !(stmts[k] is Add),
    ensures
        turn(stmts, i, row, prevs, rownum, results, used, readings).prevs.len() == prevs.len(),
        turn(stmts, i, row, prevs, rownum, results, used, readings).prevs[k] == prevs[k],
    decreases stmts.len() - i,
{
    if i < stmts.len() {
        match stmts[i] {
            Stmt::Add(a) => {
                let at = place_of(stmts, i, row, prevs, rownum, results, readings);
                if let Ok((v, n)) = value_of(a.expr, at, used) {
                    lemma_behind(
                        stmts,
                        i + 1,
                        k,
                        with_value(row, a.pos, v),
                        if stateful(stmts[i]) {
                            prevs.update(i, Some(row))
                        } else {
                            prevs
                        },
                        rownum,
                        results,
                        n,
                        readings,
                    );
                }
            },
            _ => {
                let next = match stmts[i] {
                    Stmt::Cols(p) => pick(row, p.positions@),
                    Stmt::ToNum(c) => match with_nums(row, c.positions@, 0, readings) {
                        Ok(r) => r,
                        Err(_) => row,
                    },
                    Stmt::ToStr(c) => with_texts(row, c.positions@, 0),
                    _ => row,
                };
                lemma_behind(
                    stmts,
                    i + 1,
                    k,
                    next,
                    prevs,
                    rownum,
                    results,
                    used,
                    readings,
                );
            },
        }
    }
}

/// The results that are given for rows go by the rows: the `i`th are those of row `i`, and
/// there are none behind the last.
pub proof fn law_results_go_by_the_rows(results: Seq<Seq<NumV>>, i: int)
    ensures
        0 <= i < results.len() ==> results_at(results, i) == results[i],
        i >= results.len() ==> results_at(results, i).len() == 0,
{
}

} // verus!
