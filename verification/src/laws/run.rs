//! A run writes what its stages make, whichever way it goes.

use crate::csv::rows_text;
use crate::exec::{any_stateful, pass, results_view, transformed};
use crate::field::{FieldV, NumV};
use crate::plan::Stage;
use crate::stages::{
    StageStopV, Supply, body_out, head_out, results_of, sort_out, stage_out, stages_out,
};
use crate::stream::{
    blocking, law_head_streams_the_first_rows, ordered_only, streams_head, streams_sort,
    transform_of,
};
use vstd::prelude::*;

verus! {

proof fn lemma_nothing_to_do(
    rows: Seq<Seq<FieldV>>,
    results: Seq<Seq<NumV>>,
    readings: Map<Seq<char>, NumV>,
    n: int,
)
    requires
        0 <= n <= rows.len(),
    ensures
        pass(seq![], rows, results, readings, n).stop is None,
        pass(seq![], rows, results, readings, n).kept == rows.take(n),
    decreases n,
{
    if n > 0 {
        lemma_nothing_to_do(rows, results, readings, n - 1);
        assert(rows.take(n) =~= rows.take(n - 1).push(rows[n - 1]));
    } else {
        assert(rows.take(0) =~= seq![]);
    }
}

/// Whether no transform stands behind another: their statements are one.
pub open spec fn merged(stages: Seq<Stage>) -> bool {
    forall|k: int|
        #![trigger stages[k]]
        0 < k < stages.len() ==> !(stages[k - 1] is Transform && stages[k] is Transform)
}

proof fn lemma_around(stages: Seq<Stage>, i: int)
    requires
        merged(stages),
        0 <= i < stages.len(),
        forall|k: int| 0 <= k < stages.len() && k != i ==> #[trigger] stages[k] is Transform,
    ensures
        i <= 1,
        stages.len() <= i + 2,
{
    if i > 1 {
        assert(stages[0] is Transform && stages[1] is Transform);
    }
    if stages.len() > i + 2 {
        assert(stages[i + 1] is Transform && stages[i + 2] is Transform);
    }
}

proof fn lemma_stateless(stages: Seq<Stage>, part: Seq<Stage>, at: int)
    requires
        !ordered_only(stages),
        0 <= at <= stages.len(),
        part == stages.take(at) || part == stages.skip(at),
    ensures
        !any_stateful(transform_of(part)),
{
    if part.len() == 1 && part[0] is Transform {
        let k = if part == stages.take(at) {
            0
        } else {
            at
        };
        assert(stages[k] == part[0]);
        assert(stages[k] is Transform);
    }
}

/// The rows that a stage before `i`, if there is one, hands on.
proof fn lemma_before(
    stages: Seq<Stage>,
    i: int,
    rows: Seq<Seq<FieldV>>,
    supplies: Seq<Supply>,
    readings: Map<Seq<char>, NumV>,
    out: Seq<Seq<FieldV>>,
) -> (mid: Seq<Seq<FieldV>>)
    requires
        0 <= i <= 1,
        i < stages.len() == supplies.len(),
        i == 1 ==> stages[0] is Transform,
        stages_out(stages, 0, rows, supplies, readings) == Ok::<
            Seq<Seq<FieldV>>,
            (int, StageStopV),
        >(out),
    ensures
        ({
            let p = transformed(
                transform_of(stages.take(i)),
                rows,
                results_of(stages.take(i), supplies.take(i)),
                readings,
            );
            p.stop is None && p.kept == mid
        }),
        stages_out(stages, i, mid, supplies, readings) == Ok::<
            Seq<Seq<FieldV>>,
            (int, StageStopV),
        >(out),
{
    if i == 0 {
        assert(transform_of(stages.take(0)) =~= seq![]);
        lemma_nothing_to_do(
            rows,
            results_of(stages.take(0), supplies.take(0)),
            readings,
            rows.len() as int,
        );
        assert(rows.take(rows.len() as int) =~= rows);
        rows
    } else {
        assert(stages.take(1).len() == 1 && stages.take(1)[0] == stages[0]);
        assert(supplies.take(1)[0] == supplies[0]);
        let stmts = stages[0]->Transform_0@;
        transformed(stmts, rows, results_view(supplies[0].results@), readings).kept
    }
}

/// What a stage behind `i`, if there is one, makes of the rows.
proof fn lemma_behind(
    stages: Seq<Stage>,
    i: int,
    mid: Seq<Seq<FieldV>>,
    supplies: Seq<Supply>,
    readings: Map<Seq<char>, NumV>,
    out: Seq<Seq<FieldV>>,
)
    requires
        0 <= i < stages.len() <= i + 2,
        stages.len() == supplies.len(),
        stages.len() == i + 2 ==> stages[i + 1] is Transform,
        stages_out(stages, i + 1, mid, supplies, readings) == Ok::<
            Seq<Seq<FieldV>>,
            (int, StageStopV),
        >(out),
    ensures
        ({
            let p = transformed(
                transform_of(stages.skip(i + 1)),
                mid,
                results_of(stages.skip(i + 1), supplies.skip(i + 1)),
                readings,
            );
            p.stop is None && p.kept == out
        }),
{
    let tail = stages.skip(i + 1);
    reveal_with_fuel(stages_out, 3);
    if stages.len() == i + 1 {
        assert(transform_of(tail) =~= seq![]);
        lemma_nothing_to_do(
            mid,
            results_of(tail, supplies.skip(i + 1)),
            readings,
            mid.len() as int,
        );
        assert(mid.take(mid.len() as int) =~= mid);
    } else {
        assert(tail.len() == 1 && tail[0] == stages[i + 1]);
        assert(supplies.skip(i + 1)[0] == supplies[i + 1]);
    }
}

/// A run writes what its stages make of the rows, one after the other, also where it
/// streams through a `head` and stops early, or through a sort at its end.
pub proof fn law_a_run_writes_what_its_stages_make(
    stages: Seq<Stage>,
    rows: Seq<Seq<FieldV>>,
    supplies: Seq<Supply>,
    readings: Map<Seq<char>, NumV>,
    out: Seq<Seq<FieldV>>,
)
    requires
        merged(stages),
        stages.len() == supplies.len(),
        stages_out(stages, 0, rows, supplies, readings) == Ok::<
            Seq<Seq<FieldV>>,
            (int, StageStopV),
        >(out),
        forall|i: int| #[trigger] streams_sort(stages, i) ==> i == stages.len() - 1,
    ensures
        body_out(stages, rows, supplies, readings) == Ok::<Seq<char>, (int, StageStopV)>(
            rows_text(out),
        ),
{
    if !ordered_only(stages) && exists|i: int| #[trigger] streams_head(stages, i) {
        let i = choose|i: int| #[trigger] streams_head(stages, i);
        assert forall|k: int| 0 <= k < stages.len() && k != i implies #[trigger] stages[k] is
            Transform by {
            assert(!blocking(stages[k]));
        }
        lemma_around(stages, i);
        let mid = lemma_before(stages, i, rows, supplies, readings, out);
        let n = stages[i]->Head_0;
        let first = stage_out(stages[i], mid, supplies[i], readings)->Ok_0;
        assert(stages_out(stages, i + 1, first, supplies, readings) == Ok::<
            Seq<Seq<FieldV>>,
            (int, StageStopV),
        >(out));
        lemma_behind(stages, i, first, supplies, readings, out);
        lemma_stateless(stages, stages.take(i), i);
        lemma_stateless(stages, stages.skip(i + 1), i + 1);
        assert(first == mid.take(crate::stream::lesser(n as int, mid.len() as int)));
        law_head_streams_the_first_rows(
            transform_of(stages.take(i)),
            transform_of(stages.skip(i + 1)),
            n as int,
            rows,
            results_of(stages.take(i), supplies.take(i)),
            results_of(stages.skip(i + 1), supplies.skip(i + 1)),
            readings,
        );
        assert(head_out(stages, i, rows, supplies, readings) == Ok::<Seq<char>, (int, StageStopV)>(
            rows_text(out),
        ));
    } else if !ordered_only(stages) && exists|i: int| #[trigger] streams_sort(stages, i) {
        let i = choose|i: int| #[trigger] streams_sort(stages, i);
        assert forall|k: int| 0 <= k < stages.len() && k != i implies #[trigger] stages[k] is
            Transform by {
            assert(!blocking(stages[k]));
        }
        lemma_around(stages, i);
        let mid = lemma_before(stages, i, rows, supplies, readings, out);
        let sorted = stage_out(stages[i], mid, supplies[i], readings)->Ok_0;
        lemma_behind(stages, i, sorted, supplies, readings, out);
        assert(transform_of(stages.skip(i + 1)) =~= seq![]);
        lemma_nothing_to_do(
            sorted,
            results_of(stages.skip(i + 1), supplies.skip(i + 1)),
            readings,
            sorted.len() as int,
        );
        assert(sorted.take(sorted.len() as int) =~= sorted);
        assert(sort_out(stages, i, rows, supplies, readings) == Ok::<Seq<char>, (int, StageStopV)>(
            rows_text(out),
        ));
    }
}

} // verus!
