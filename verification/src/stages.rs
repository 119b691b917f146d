//! Running a plan: its stages one after the other over rows in memory, and the shapes
//! that stream.

use crate::csv::{chunk_rows, parse_chunk, row_line, rows_text, text_rows, write_rows};
use crate::exec::{
    Halt, HaltV, all_pass, all_results, any_stateful, chunk_outputs, concat,
    law_output_is_the_same_in_any_chunks, pass, results_view, transform_chunk, transform_rows,
    transformed,
};
use crate::field::{FieldV, Num, NumError, NumV, Readings, Row, clone_row, rows_view, text_row};
use crate::group::{
    ColFigures, agg_columns, column_cells, dedup_rows, deduped, filled, group_row, group_rows,
    groups_of, profile_row, profile_rows, profiled, tally_columns,
};
use crate::join::{join_rows, joined_rows};
use crate::plan::{AggSpec, Plan, SortKey, Stage, Stmt};
use crate::sort::{
    converted, law_a_stable_sort_has_one_result, law_sorted_rows_are_in_order,
    law_there_is_a_sorted_order, numeric_keys, rows_sign, sort_rows, stably_sorted,
};
use crate::stream::{
    Route, blocking, head_pass, head_step, ordered_only, route, stream_head, streams_head,
    streams_sort, streams_stats, transform_of, write_header,
};
use crate::text::texts;
use vstd::prelude::*;

verus! {

/// What a stage needs from outside: the results of the operations that its rows
/// want, row by row, the figures of its groups or profiled columns, and the rows of its right
/// side.
pub struct Supply {
    pub results: Vec<Vec<Num>>,
    pub figures: Vec<Vec<ColFigures>>,
    pub right: Vec<Row>,
}

/// Why a stage cannot go on, in contracts.
pub enum StageStopV {
    /// A row of a transform stops it.
    Row(HaltV),
    /// A sort key that should have been a number.
    Num(Seq<char>),
    /// The figures of its groups, or of its profiled columns, are missing.
    Figures,
}

/// Why a stage cannot go on.
#[derive(Debug)]
pub enum StageHalt {
    Row(Halt),
    Num(NumError),
    Figures,
}

impl View for StageHalt {
    type V = StageStopV;

    open spec fn view(&self) -> StageStopV {
        match self {
            StageHalt::Row(h) => StageStopV::Row(h@),
            StageHalt::Num(e) => StageStopV::Num(e.0@),
            StageHalt::Figures => StageStopV::Figures,
        }
    }
}

/// The rows sorted by the keys, rows with equal keys in the order they came in.
pub open spec fn sorted_of(keys: Seq<SortKey>, rows: Seq<Seq<FieldV>>) -> Seq<Seq<FieldV>> {
    choose|out: Seq<Seq<FieldV>>| stably_sorted(keys, rows, out)
}

/// `n`, or the number of rows when there are fewer.
pub open spec fn at_most(n: usize, len: nat) -> int {
    if n <= len {
        n as int
    } else {
        len as int
    }
}

/// The place of each aggregate's column among the aggregated ones.
pub open spec fn slots_of(aggs: Seq<AggSpec>) -> Seq<Option<usize>> {
    let columns = agg_columns(aggs, aggs.len() as int);
    Seq::new(
        aggs.len(),
        |i: int|
            match aggs[i].pos {
                Some(p) => Some(columns.index_of(p) as usize),
                None => None,
            },
    )
}

/// Whether there are figures for each of `groups` groups and `columns` columns.
pub open spec fn enough(figures: Seq<Vec<ColFigures>>, groups: nat, columns: nat) -> bool {
    &&& figures.len() == groups
    &&& forall|i: int| 0 <= i < groups ==> (#[trigger] figures[i])@.len() == columns
}

/// What a stage makes of the rows, or why it cannot go on.
pub open spec fn stage_out(
    stage: Stage,
    rows: Seq<Seq<FieldV>>,
    supply: Supply,
    readings: Map<Seq<char>, NumV>,
) -> Result<Seq<Seq<FieldV>>, StageStopV> {
    match stage {
        Stage::Transform(stmts) => {
            let p = transformed(stmts@, rows, results_view(supply.results@), readings);
            match p.stop {
                Some(s) => Err(StageStopV::Row(s)),
                None => Ok(p.kept),
            }
        },
        Stage::Sort(sort) => match converted(
            rows,
            numeric_keys(sort.keys@),
            readings,
            rows.len() as int,
        ) {
            Ok(c) => Ok(sorted_of(sort.keys@, c)),
            Err(t) => Err(StageStopV::Num(t)),
        },
        Stage::Head(n) => Ok(rows.take(at_most(n, rows.len()))),
        Stage::Tail(n) => Ok(rows.skip(rows.len() - at_most(n, rows.len()))),
        Stage::DropLast(n) => Ok(rows.take(rows.len() - at_most(n, rows.len()))),
        Stage::Uniq(u) => Ok(deduped(rows, u.positions@, rows.len() as int)),
        Stage::Stats(s) => if enough(supply.figures@, 1, s.positions@.len()) {
            Ok(
                Seq::new(
                    profiled(s.names@.len(), s.positions@.len(), s.positions@.len()),
                    |i: int|
                        {
                            let cells = column_cells(rows, s.positions@[i]);
                            profile_row(
                                s.names@[i]@,
                                filled(cells),
                                (cells.len() - filled(cells)) as nat,
                                supply.figures@[0]@[i],
                            )
                        },
                ),
            )
        } else {
            Err(StageStopV::Figures)
        },
        Stage::Group(g) => {
            let columns = agg_columns(g.aggs@, g.aggs@.len() as int);
            let gs = groups_of(g.key_positions@, columns, rows, rows.len() as int);
            if enough(supply.figures@, gs.len(), columns.len()) {
                Ok(
                    Seq::new(
                        gs.len(),
                        |i: int|
                            group_row(gs[i], g.aggs@, slots_of(g.aggs@), supply.figures@[i]@),
                    ),
                )
            } else {
                Err(StageStopV::Figures)
            }
        },
        Stage::Join(j) => Ok(joined_rows(j, rows, rows_view(supply.right@))),
    }
}

/// What the stages from `k` on make of the rows, each with its own supply; or
/// which stage cannot go on, and why.
pub open spec fn stages_out(
    stages: Seq<Stage>,
    k: int,
    rows: Seq<Seq<FieldV>>,
    supplies: Seq<Supply>,
    readings: Map<Seq<char>, NumV>,
) -> Result<Seq<Seq<FieldV>>, (int, StageStopV)>
    decreases stages.len() - k,
{
    if k >= stages.len() {
        Ok(rows)
    } else {
        match stage_out(stages[k], rows, supplies[k], readings) {
            Ok(next) => stages_out(stages, k + 1, next, supplies, readings),
            Err(s) => Err((k, s)),
        }
    }
}

proof fn lemma_agg_columns(aggs: Seq<AggSpec>, n: int)
    requires
        0 <= n <= aggs.len(),
    ensures
        agg_columns(aggs, n).no_duplicates(),
        forall|i: int|
            0 <= i < n && (#[trigger] aggs[i]).pos is Some ==> agg_columns(aggs, n).contains(
                aggs[i].pos->0,
            ),
    decreases n,
{
    if n > 0 {
        lemma_agg_columns(aggs, n - 1);
        let before = agg_columns(aggs, n - 1);
        let all = agg_columns(aggs, n);
        assert forall|i: int| 0 <= i < n && (#[trigger] aggs[i]).pos is Some implies all.contains(
            aggs[i].pos->0,
        ) by {
            let p = aggs[i].pos->0;
            if i < n - 1 {
                let k = before.index_of(p);
                assert(before[k] == p);
                assert(all[k] == p);
            } else if !before.contains(p) {
                assert(all[before.len() as int] == p);
            }
        }
    }
}

fn take_rows(rows: &[Row], a: usize, b: usize) -> (out: Vec<Row>)
    requires
        a <= b <= rows@.len(),
    ensures
        rows_view(out@) == rows_view(rows@).subrange(a as int, b as int),
{
    let ghost rv = rows_view(rows@);
    let mut out: Vec<Row> = Vec::new();
    let mut i: usize = a;
    assert(rows_view(out@) =~= rv.subrange(a as int, a as int));
    while i < b
        invariant
            a <= i <= b <= rows@.len(),
            rv == rows_view(rows@),
            rows_view(out@) == rv.subrange(a as int, i as int),
        decreases b - i,
    {
        let ghost before = rows_view(out@);
        out.push(clone_row(rows[i].as_slice()));
        assert(rows_view(out@) =~= before.push(rv[i as int]));
        assert(rv.subrange(a as int, i + 1) =~= rv.subrange(a as int, i as int).push(
            rv[i as int],
        ));
        i += 1;
    }
    out
}

fn has_enough(figures: &Vec<Vec<ColFigures>>, groups: usize, columns: usize) -> (r: bool)
    ensures
        r == enough(figures@, groups as nat, columns as nat),
{
    if figures.len() != groups {
        return false;
    }
    let mut i: usize = 0;
    while i < groups
        invariant
            i <= groups,
            figures@.len() == groups,
            forall|k: int| 0 <= k < i ==> (#[trigger] figures@[k])@.len() == columns,
        decreases groups - i,
    {
        if figures[i].len() != columns {
            assert(figures@[i as int]@.len() != columns);
            return false;
        }
        i += 1;
    }
    true
}

/// Runs one stage over rows in memory.
pub fn apply_stage(stage: &Stage, rows: Vec<Row>, supply: &Supply, readings: &Readings) -> (r:
    Result<Vec<Row>, StageHalt>)
    ensures
        match r {
            Ok(out) => stage_out(*stage, rows_view(rows@), *supply, readings@) == Ok::<
                Seq<Seq<FieldV>>,
                StageStopV,
            >(rows_view(out@)),
            Err(h) => stage_out(*stage, rows_view(rows@), *supply, readings@) == Err::<
                Seq<Seq<FieldV>>,
                StageStopV,
            >(h@),
        },
{
    let ghost rv = rows_view(rows@);
    match stage {
        Stage::Transform(stmts) => match transform_rows(
            stmts.as_slice(),
            rows.as_slice(),
            supply.results.as_slice(),
            readings,
        ) {
            Ok(out) => Ok(out),
            Err(h) => Err(StageHalt::Row(h)),
        },
        Stage::Sort(sort) => match sort_rows(sort, rows.as_slice(), readings) {
            Ok(out) => {
                proof {
                    assert(rv.len() == rows.len());
                    let c = converted(
                        rv,
                        numeric_keys(sort.keys@),
                        readings@,
                        rv.len() as int,
                    )->Ok_0;
                    lemma_converted_len(rv, numeric_keys(sort.keys@), readings@, rv.len() as int);
                    assert(stably_sorted(sort.keys@, c, rows_view(out@)));
                    law_a_stable_sort_has_one_result(
                        sort.keys@,
                        c,
                        rows_view(out@),
                        sorted_of(sort.keys@, c),
                    );
                }
                Ok(out)
            },
            Err(e) => Err(StageHalt::Num(e)),
        },
        Stage::Head(n) => {
            let k: usize = if *n <= rows.len() {
                *n
            } else {
                rows.len()
            };
            let out = take_rows(rows.as_slice(), 0, k);
            assert(rv.subrange(0, k as int) =~= rv.take(k as int));
            Ok(out)
        },
        Stage::Tail(n) => {
            let k: usize = if *n <= rows.len() {
                *n
            } else {
                rows.len()
            };
            let from: usize = rows.len() - k;
            let out = take_rows(rows.as_slice(), from, rows.len());
            assert(rv.subrange(from as int, rv.len() as int) =~= rv.skip(from as int));
            Ok(out)
        },
        Stage::DropLast(n) => {
            let k: usize = if *n <= rows.len() {
                *n
            } else {
                rows.len()
            };
            let to: usize = rows.len() - k;
            let out = take_rows(rows.as_slice(), 0, to);
            assert(rv.subrange(0, to as int) =~= rv.take(to as int));
            Ok(out)
        },
        Stage::Uniq(u) => Ok(dedup_rows(rows.as_slice(), u.positions.as_slice())),
        Stage::Stats(s) => {
            if has_enough(&supply.figures, 1, s.positions.len()) {
                assert(supply.figures@[0]@.len() == s.positions@.len());
                let tallies = tally_columns(rows.as_slice(), s.positions.as_slice());
                let out = profile_rows(s, tallies.as_slice(), supply.figures[0].as_slice());
                proof {
                    let want = stage_out(*stage, rv, *supply, readings@)->Ok_0;
                    assert forall|i: int| 0 <= i < want.len() implies #[trigger] rows_view(out@)[i]
                        == want[i] by {
                        assert(tallies@[i].counts(column_cells(rv, s.positions@[i])));
                    }
                    assert(rows_view(out@) =~= want);
                }
                Ok(out)
            } else {
                Err(StageHalt::Figures)
            }
        },
        Stage::Group(g) => {
            let grouper = group_rows(g, rows.as_slice());
            let ghost columns = agg_columns(g.aggs@, g.aggs@.len() as int);
            let ghost gs = grouper.groups();
            let ncols = grouper.column_count();
            let n = grouper.accs().len();
            if has_enough(&supply.figures, n, ncols) {
                proof {
                    lemma_agg_columns(g.aggs@, g.aggs@.len() as int);
                    let slots = grouper.slots();
                    assert forall|i: int| 0 <= i < slots.len() implies slots[i] == slots_of(
                        g.aggs@,
                    )[i] by {
                        match g.aggs@[i].pos {
                            Some(p) => {
                                let s = slots[i]->0 as int;
                                let t = columns.index_of(p);
                                assert(columns.contains(p));
                                assert(columns[s] == p && columns[t] == p);
                                assert(s == t);
                            },
                            None => {},
                        }
                    }
                    assert(slots =~= slots_of(g.aggs@));
                }
                let out = grouper.into_rows(g, supply.figures.as_slice());
                Ok(out)
            } else {
                Err(StageHalt::Figures)
            }
        },
        Stage::Join(j) => Ok(join_rows(j, rows.as_slice(), supply.right.as_slice())),
    }
}

proof fn lemma_converted_len(
    rows: Seq<Seq<FieldV>>,
    positions: Seq<usize>,
    readings: Map<Seq<char>, NumV>,
    n: int,
)
    requires
        0 <= n <= rows.len(),
    ensures
        converted(rows, positions, readings, n) is Ok ==> converted(
            rows,
            positions,
            readings,
            n,
        )->Ok_0.len() == n,
    decreases n,
{
    if n > 0 {
        lemma_converted_len(rows, positions, readings, n - 1);
    }
}

/// Runs a sequence of stages over already-materialized rows, returning the final
/// rows, or the number of the stage that cannot go on and why.
pub fn apply_stages_over_rows(
    stages: &[Stage],
    rows: Vec<Row>,
    supplies: &[Supply],
    readings: &Readings,
) -> (r: Result<Vec<Row>, (usize, StageHalt)>)
    requires
        supplies@.len() == stages@.len(),
    ensures
        match r {
            Ok(out) => stages_out(stages@, 0, rows_view(rows@), supplies@, readings@) == Ok::<
                Seq<Seq<FieldV>>,
                (int, StageStopV),
            >(rows_view(out@)),
            Err((k, h)) => stages_out(stages@, 0, rows_view(rows@), supplies@, readings@) == Err::<
                Seq<Seq<FieldV>>,
                (int, StageStopV),
            >((k as int, h@)),
        },
{
    let ghost start = rows_view(rows@);
    let mut now = rows;
    let mut k: usize = 0;
    while k < stages.len()
        invariant
            k <= stages@.len(),
            supplies@.len() == stages@.len(),
            start == rows_view(rows@),
            stages_out(stages@, 0, start, supplies@, readings@) == stages_out(
                stages@,
                k as int,
                rows_view(now@),
                supplies@,
                readings@,
            ),
        decreases stages.len() - k,
    {
        match apply_stage(&stages[k], now, &supplies[k], readings) {
            Ok(next) => {
                now = next;
            },
            Err(h) => {
                return Err((k, h));
            },
        }
        k += 1;
    }
    Ok(now)
}

/// The results for the rows of an optional single transform stage (none otherwise).
pub open spec fn results_of(stages: Seq<Stage>, supplies: Seq<Supply>) -> Seq<Seq<NumV>> {
    if stages.len() == 1 && stages[0] is Transform {
        results_view(supplies[0].results@)
    } else {
        seq![]
    }
}

/// What a plan that streams through its `head` at `i` writes of the rows: no row is
/// looked at once the head has its rows.
pub open spec fn head_out(
    stages: Seq<Stage>,
    i: int,
    rows: Seq<Seq<FieldV>>,
    supplies: Seq<Supply>,
    readings: Map<Seq<char>, NumV>,
) -> Result<Seq<char>, (int, StageStopV)> {
    let h = head_pass(
        transform_of(stages.take(i)),
        transform_of(stages.skip(i + 1)),
        stages[i]->Head_0 as int,
        0,
        rows,
        results_of(stages.take(i), supplies.take(i)),
        results_of(stages.skip(i + 1), supplies.skip(i + 1)),
        readings,
        rows.len() as int,
    );
    match h.stop {
        None => Ok(rows_text(h.out)),
        Some(s) => Err(
            (
                if s.behind {
                    i + 1
                } else {
                    i - 1
                },
                StageStopV::Row(s.halt),
            ),
        ),
    }
}

/// What a plan that streams through its `sort` at `i` writes of the rows: the
/// statements behind the sort read its rows again from the lines that they are
/// written as.
pub open spec fn sort_out(
    stages: Seq<Stage>,
    i: int,
    rows: Seq<Seq<FieldV>>,
    supplies: Seq<Supply>,
    readings: Map<Seq<char>, NumV>,
) -> Result<Seq<char>, (int, StageStopV)> {
    let pre = transform_of(stages.take(i));
    let post = transform_of(stages.skip(i + 1));
    let p = transformed(pre, rows, results_of(stages.take(i), supplies.take(i)), readings);
    match p.stop {
        Some(s) => Err((i - 1, StageStopV::Row(s))),
        None => match stage_out(stages[i], p.kept, supplies[i], readings) {
            Err(s) => Err((i, s)),
            Ok(sorted) => if post.len() == 0 {
                Ok(rows_text(sorted))
            } else {
                let q = transformed(
                    post,
                    text_rows(chunk_rows(rows_text(sorted))),
                    results_of(stages.skip(i + 1), supplies.skip(i + 1)),
                    readings,
                );
                match q.stop {
                    Some(s) => Err((i + 1, StageStopV::Row(s))),
                    None => Ok(rows_text(q.kept)),
                }
            },
        },
    }
}

/// What a plan writes of the rows behind the header: a `head` with nothing that needs
/// all rows streams and stops early, one sort among transforms goes through the
/// external sort, and everything else gives what its stages make of the rows one
/// after the other. A statement that looks past its row has the stages run in turn.
pub open spec fn body_out(
    stages: Seq<Stage>,
    rows: Seq<Seq<FieldV>>,
    supplies: Seq<Supply>,
    readings: Map<Seq<char>, NumV>,
) -> Result<Seq<char>, (int, StageStopV)> {
    if !ordered_only(stages) && exists|i: int| #[trigger] streams_head(stages, i) {
        head_out(stages, choose|i: int| #[trigger] streams_head(stages, i), rows, supplies, readings)
    } else if !ordered_only(stages) && exists|i: int| #[trigger] streams_sort(stages, i) {
        sort_out(stages, choose|i: int| #[trigger] streams_sort(stages, i), rows, supplies, readings)
    } else {
        match stages_out(stages, 0, rows, supplies, readings) {
            Ok(out) => Ok(rows_text(out)),
            Err(e) => Err(e),
        }
    }
}

/// Whether the outcome of a run is what a specification says.
pub open spec fn comes_to(
    r: Result<String, (usize, StageHalt)>,
    want: Result<Seq<char>, (int, StageStopV)>,
) -> bool {
    match (r, want) {
        (Ok(text), Ok(t)) => text@ == t,
        (Err((k, h)), Err((n, s))) => k == n && h@ == s,
        _ => false,
    }
}

fn only_results<'a>(stages: &[Stage], supplies: &'a [Supply]) -> (r: &'a [Vec<Num>])
    requires
        supplies@.len() == stages@.len(),
    ensures
        results_view(r@) == results_of(stages@, supplies@),
{
    if stages.len() == 1 {
        if let Stage::Transform(_) = &stages[0] {
            return supplies[0].results.as_slice();
        }
    }
    let r: &[Vec<Num>] = &[];
    assert(results_view(r@) =~= seq![]);
    r
}

fn head_index(stages: &[Stage]) -> (i: usize)
    requires
        exists|k: int| #[trigger] streams_head(stages@, k),
    ensures
        streams_head(stages@, i as int),
{
    let ghost k = choose|k: int| #[trigger] streams_head(stages@, k);
    let mut i: usize = 0;
    while i < stages.len()
        invariant
            i <= k,
            streams_head(stages@, k),
        decreases stages.len() - i,
    {
        if let Stage::Head(_) = &stages[i] {
            return i;
        }
        assert(stages@[k] is Head);
        i += 1;
    }
    i
}

fn sort_index(stages: &[Stage]) -> (i: usize)
    requires
        exists|k: int| #[trigger] streams_sort(stages@, k),
    ensures
        streams_sort(stages@, i as int),
{
    let ghost k = choose|k: int| #[trigger] streams_sort(stages@, k);
    let mut i: usize = 0;
    while i < stages.len()
        invariant
            i <= k,
            streams_sort(stages@, k),
        decreases stages.len() - i,
    {
        if let Stage::Sort(_) = &stages[i] {
            return i;
        }
        assert(stages@[k] is Sort);
        i += 1;
    }
    i
}

fn run_head(
    stages: &[Stage],
    pre: &[Stmt],
    n: usize,
    post: &[Stmt],
    input: &str,
    supplies: &[Supply],
    readings: &Readings,
) -> (r: Result<String, (usize, StageHalt)>)
    requires
        supplies@.len() == stages@.len(),
        exists|i: int|
            {
                &&& #[trigger] streams_head(stages@, i)
                &&& pre@ == transform_of(stages@.take(i))
                &&& stages@[i] == Stage::Head(n)
                &&& post@ == transform_of(stages@.skip(i + 1))
            },
    ensures
        comes_to(
            r,
            head_out(
                stages@,
                choose|i: int| #[trigger] streams_head(stages@, i),
                text_rows(chunk_rows(input@)),
                supplies@,
                readings@,
            ),
        ),
{
    let i = head_index(stages);
    let last = stages.len();
    proof {
        lemma_one_head(stages@);
        assert(stages@.subrange(0, i as int) =~= stages@.take(i as int));
        assert(supplies@.subrange(0, i as int) =~= supplies@.take(i as int));
        assert(stages@.subrange(i + 1, last as int) =~= stages@.skip(i + 1));
        assert(supplies@.subrange(i + 1, last as int) =~= supplies@.skip(i + 1));
        lemma_nothing_stops_no_row(
            post@,
            pre@,
            n as int,
            text_rows(chunk_rows(input@)),
            results_of(stages@.take(i as int), supplies@.take(i as int)),
            results_of(stages@.skip(i + 1), supplies@.skip(i + 1)),
            readings@,
            text_rows(chunk_rows(input@)).len() as int,
        );
    }
    let before = only_results(&stages[0..i], &supplies[0..i]);
    let behind = only_results(&stages[i + 1..last], &supplies[i + 1..last]);
    match stream_head(pre, n, post, 0, input, before, behind, readings) {
        Ok((text, _)) => Ok(text),
        Err(s) => Err(
            (
                if s.behind {
                    i + 1
                } else {
                    i - 1
                },
                StageHalt::Row(s.halt),
            ),
        ),
    }
}

/// Statements that are none stop no row.
proof fn lemma_nothing_stops_no_row(
    post: Seq<Stmt>,
    pre: Seq<Stmt>,
    n: int,
    rows: Seq<Seq<FieldV>>,
    pre_results: Seq<Seq<NumV>>,
    post_results: Seq<Seq<NumV>>,
    readings: Map<Seq<char>, NumV>,
    m: int,
)
    ensures
        ({
            let h = head_pass(pre, post, n, 0, rows, pre_results, post_results, readings, m);
            h.stop matches Some(s) ==> (s.behind ==> post.len() > 0) && (!s.behind ==> pre.len()
                > 0)
        }),
    decreases m,
{
    reveal(head_step);
    if m > 0 {
        lemma_nothing_stops_no_row(
            post,
            pre,
            n,
            rows,
            pre_results,
            post_results,
            readings,
            m - 1,
        );
    }
}

/// There is one place at which a plan streams through its `head`.
pub proof fn lemma_one_head(stages: Seq<Stage>)
    ensures
        forall|i: int, k: int|
            #[trigger] streams_head(stages, i) && #[trigger] streams_head(stages, k) ==> i == k,
{
    assert forall|i: int, k: int|
        #[trigger] streams_head(stages, i) && #[trigger] streams_head(stages, k) implies i == k by {
        if i != k {
            assert(stages[k] !is Head);
        }
    }
}

proof fn lemma_one_sort(stages: Seq<Stage>)
    ensures
        forall|i: int, k: int|
            #[trigger] streams_sort(stages, i) && #[trigger] streams_sort(stages, k) ==> i == k,
{
    assert forall|i: int, k: int|
        #[trigger] streams_sort(stages, i) && #[trigger] streams_sort(stages, k) implies i == k by {
        if i != k {
            assert(stages[k] !is Sort);
        }
    }
}

proof fn lemma_no_statement_stops(
    rows: Seq<Seq<FieldV>>,
    results: Seq<Seq<NumV>>,
    readings: Map<Seq<char>, NumV>,
    n: int,
)
    ensures
        pass(seq![], rows, results, readings, n).stop is None,
    decreases n,
{
    if n > 0 {
        lemma_no_statement_stops(rows, results, readings, n - 1);
    }
}

fn run_sort(
    stages: &[Stage],
    pre: &[Stmt],
    post: &[Stmt],
    input: &str,
    supplies: &[Supply],
    readings: &Readings,
) -> (r: Result<String, (usize, StageHalt)>)
    requires
        supplies@.len() == stages@.len(),
        exists|i: int|
            {
                &&& #[trigger] streams_sort(stages@, i)
                &&& pre@ == transform_of(stages@.take(i))
                &&& post@ == transform_of(stages@.skip(i + 1))
            },
    ensures
        comes_to(
            r,
            sort_out(
                stages@,
                choose|i: int| #[trigger] streams_sort(stages@, i),
                text_rows(chunk_rows(input@)),
                supplies@,
                readings@,
            ),
        ),
{
    let i = sort_index(stages);
    let last = stages.len();
    let rows = parse_chunk(input);
    proof {
        lemma_one_sort(stages@);
        assert(stages@.subrange(0, i as int) =~= stages@.take(i as int));
        assert(supplies@.subrange(0, i as int) =~= supplies@.take(i as int));
        assert(stages@.subrange(i + 1, last as int) =~= stages@.skip(i + 1));
        assert(supplies@.subrange(i + 1, last as int) =~= supplies@.skip(i + 1));
        let before = results_of(stages@.take(i as int), supplies@.take(i as int));
        lemma_no_statement_stops(rows_view(rows@), before, readings@, rows@.len() as int);
        if pre@.len() == 0 {
            assert(pre@ =~= seq![]);
        }
    }
    let before = only_results(&stages[0..i], &supplies[0..i]);
    let kept = match transform_rows(pre, rows.as_slice(), before, readings) {
        Ok(kept) => kept,
        Err(h) => {
            return Err((i - 1, StageHalt::Row(h)));
        },
    };
    let sorted = match apply_stage(&stages[i], kept, &supplies[i], readings) {
        Ok(sorted) => sorted,
        Err(h) => {
            return Err((i, h));
        },
    };
    let text = write_rows(sorted.as_slice());
    if post.len() == 0 {
        return Ok(text);
    }
    let behind = only_results(&stages[i + 1..last], &supplies[i + 1..last]);
    match transform_chunk(post, text.as_str(), behind, readings) {
        Ok(text) => Ok(text),
        Err(h) => Err((i + 1, StageHalt::Row(h))),
    }
}

/// Runs a plan over the whole input behind its header line: the output's header
/// line, then what the plan writes of the input's rows.
pub fn run(
    plan: &Plan,
    out_header: &[String],
    input: &str,
    supplies: &[Supply],
    readings: &Readings,
) -> (r: Result<String, (usize, StageHalt)>)
    requires
        supplies@.len() == plan.stages@.len(),
    ensures
        comes_to(
            r,
            match body_out(plan.stages@, text_rows(chunk_rows(input@)), supplies@, readings@) {
                Ok(body) => Ok(row_line(text_row(texts(out_header@))) + body),
                Err(e) => Err(e),
            },
        ),
{
    let stages = plan.stages.as_slice();
    let body = match route(plan, 1) {
        Route::Head { pre, n, post } => run_head(stages, pre, n, post, input, supplies, readings),
        Route::Sort { pre, post, .. } => run_sort(stages, pre, post, input, supplies, readings),
        _ => {
            proof {
                assert forall|i: int| !ordered_only(stages@) implies !#[trigger] streams_sort(
                    stages@,
                    i,
                ) by {
                    lemma_a_sort_stands_alone(stages@);
                }
            }
            match apply_stages_over_rows(stages, parse_chunk(input), supplies, readings) {
                Ok(out) => Ok(write_rows(out.as_slice())),
                Err(e) => Err(e),
            }
        },
    };
    match body {
        Ok(body) => {
            let mut text = write_header(out_header);
            text.append(body.as_str());
            Ok(text)
        },
        Err(e) => Err(e),
    }
}

/// A plan that streams through a sort streams into no profile and is no lone
/// transform.
proof fn lemma_a_sort_stands_alone(stages: Seq<Stage>)
    ensures
        forall|i: int, k: int| #[trigger]
            streams_sort(stages, i) ==> !#[trigger] streams_stats(stages, k),
        forall|i: int| #[trigger]
            streams_sort(stages, i) ==> !(stages.len() == 1 && stages[0] is Transform),
{
    assert forall|i: int, k: int| #[trigger] streams_sort(stages, i) implies !#[trigger] streams_stats(
        stages,
        k,
    ) by {
        if streams_stats(stages, k) {
            assert(blocking(stages[k]));
            assert(stages[i] is Sort);
        }
    }
}

/// Keeping all but the last `n` rows and keeping the last `n` part the rows
/// between them.
pub proof fn law_tail_is_what_drop_last_drops(
    rows: Seq<Seq<FieldV>>,
    n: usize,
    supply: Supply,
    readings: Map<Seq<char>, NumV>,
)
    ensures
        stage_out(Stage::DropLast(n), rows, supply, readings)->Ok_0 + stage_out(
            Stage::Tail(n),
            rows,
            supply,
            readings,
        )->Ok_0 == rows,
{
    let k = rows.len() - at_most(n, rows.len());
    assert(rows.take(k) + rows.skip(k) =~= rows);
}

/// A lone transform gives the same output in memory as chunk by chunk: it goes
/// through the whole input just when it goes through every chunk, and then what the
/// stages make of the whole is the outputs of its chunks, one after the other.
pub proof fn law_a_lone_transform_streams(
    stmts: Vec<Stmt>,
    chunks: Seq<Seq<char>>,
    results: Seq<Seq<Seq<NumV>>>,
    supply: Supply,
    readings: Map<Seq<char>, NumV>,
)
    requires
        !any_stateful(stmts@),
        results.len() == chunks.len(),
        results_view(supply.results@) == all_results(results),
        forall|i: int|
            0 <= i < chunks.len() - 1 && (#[trigger] chunks[i]).len() > 0 ==> chunks[i].last()
                == '\n',
        forall|i: int|
            0 <= i < chunks.len() ==> #[trigger] results[i].len() == chunk_rows(chunks[i]).len(),
    ensures
        ({
            let out = stages_out(
                seq![Stage::Transform(stmts)],
                0,
                text_rows(chunk_rows(concat(chunks))),
                seq![supply],
                readings,
            );
            &&& out is Ok <==> all_pass(stmts@, chunks, results, readings)
            &&& out is Ok ==> rows_text(out->Ok_0) == chunk_outputs(stmts@, chunks, results, readings)
        }),
{
    law_output_is_the_same_in_any_chunks(stmts@, chunks, results, readings);
    reveal_with_fuel(stages_out, 2);
}

/// What a sort stage makes of rows is the rows sorted by its keys, each once and in
/// their order.
pub proof fn law_a_sort_stage_sorts(keys: Seq<SortKey>, rows: Seq<Seq<FieldV>>)
    requires
        rows.len() <= usize::MAX,
    ensures
        stably_sorted(keys, rows, sorted_of(keys, rows)),
        sorted_of(keys, rows).len() == rows.len(),
        forall|i: int, j: int|
            0 <= i < j < rows.len() ==> rows_sign(
                keys,
                #[trigger] sorted_of(keys, rows)[i],
                #[trigger] sorted_of(keys, rows)[j],
            ) <= 0,
{
    let out = law_there_is_a_sorted_order(keys, rows);
    assert(stably_sorted(keys, rows, out));
    law_sorted_rows_are_in_order(keys, rows, sorted_of(keys, rows));
}

} // verus!
