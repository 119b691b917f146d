//! What the stages of a pipeline make of rows.

use crate::exec::with_nums;
use crate::field::{FieldV, NumV, pick, rows_view, whole_view};
use crate::group::{agg_columns, column_cells, groups_of};
use crate::laws::group::{
    gathers, grouped, law_a_group_row_is_its_key_and_its_aggregates,
    law_aggregated_columns_have_one_place, law_filled_cells_have_text,
    law_groups_gather_the_rows_of_their_key, law_uniq_keeps_what_is_new, members, new_at,
    plain_groups, plain_rows,
};
use crate::laws::join::{
    Origin, asked_for, comes_from, law_a_join_gives_just_the_rows_it_asks_for, plain_keys,
};
use crate::laws::rows::{law_to_num_reads_the_named_cells, read_in, reading};
use crate::laws::sort::{
    goes_first, law_sorted_rows_follow_the_keys_in_turn,
    law_sorting_moves_rows_only_where_a_key_asks, tied,
};
use crate::plan::{GroupStmt, JoinStmt, SortKey, SortStmt, Stage, StatsStmt, UniqStmt};
use crate::sort::{converted, numeric_keys};
use crate::stages::{
    StageStopV, Supply, law_a_sort_stage_sorts, slots_of, sorted_of, stage_out, stages_out,
};
use vstd::prelude::*;

verus! {

/// The smaller of the two.
pub open spec fn fewer(n: usize, len: nat) -> nat {
    if (n as nat) < len {
        n as nat
    } else {
        len
    }
}

/// `head N` keeps the first `N` rows, or all of fewer; `tail N` the last `N`; and
/// `head -n -N` all but the last `N`: as they are, in their order.
pub proof fn law_head_and_tail_keep_the_ends(
    n: usize,
    rows: Seq<Seq<FieldV>>,
    supply: Supply,
    readings: Map<Seq<char>, NumV>,
)
    ensures
        stage_out(Stage::Head(n), rows, supply, readings) matches Ok(out) && out.len() == fewer(
            n,
            rows.len(),
        ) && forall|i: int| 0 <= i < out.len() ==> #[trigger] out[i] == rows[i],
        stage_out(Stage::Tail(n), rows, supply, readings) matches Ok(out) && out.len() == fewer(
            n,
            rows.len(),
        ) && forall|i: int|
            0 <= i < out.len() ==> #[trigger] out[i] == rows[rows.len() - out.len() + i],
        stage_out(Stage::DropLast(n), rows, supply, readings) matches Ok(out) && out.len()
            == rows.len() - fewer(n, rows.len()) && forall|i: int|
            0 <= i < out.len() ==> #[trigger] out[i] == rows[i],
{
}

/// A pipeline's stages work one after the other: what the first ones give is what the
/// others are given.
pub proof fn law_stages_work_in_turn(
    stages: Seq<Stage>,
    supplies: Seq<Supply>,
    rows: Seq<Seq<FieldV>>,
    readings: Map<Seq<char>, NumV>,
    k: int,
    m: int,
)
    requires
        0 <= k <= m <= stages.len() == supplies.len(),
    ensures
        match stages_out(stages.take(m), k, rows, supplies.take(m), readings) {
            Ok(mid) => stages_out(stages, k, rows, supplies, readings) == stages_out(
                stages,
                m,
                mid,
                supplies,
                readings,
            ),
            Err(e) => stages_out(stages, k, rows, supplies, readings) == Err::<
                Seq<Seq<FieldV>>,
                (int, StageStopV),
            >(e),
        },
        k == stages.len() ==> stages_out(stages, k, rows, supplies, readings) == Ok::<
            Seq<Seq<FieldV>>,
            (int, StageStopV),
        >(rows),
        stages.len() == 1 && k == 0 ==> (stages_out(stages, k, rows, supplies, readings) matches Ok(
            out,
        ) ==> stage_out(stages[0], rows, supplies[0], readings) == Ok::<
            Seq<Seq<FieldV>>,
            StageStopV,
        >(out)),
    decreases m - k,
{
    reveal_with_fuel(stages_out, 2);
    if k < m {
        assert(stages.take(m)[k] == stages[k]);
        assert(supplies.take(m)[k] == supplies[k]);
        match stage_out(stages[k], rows, supplies[k], readings) {
            Ok(next) => law_stages_work_in_turn(stages, supplies, next, readings, k + 1, m),
            Err(_) => {},
        }
    }
}

proof fn lemma_numeric_keys(keys: Seq<SortKey>, p: usize)
    ensures
        numeric_keys(keys).contains(p) <==> exists|k: int|
            0 <= k < keys.len() && (#[trigger] keys[k]).numeric && keys[k].pos == p,
    decreases keys.len(),
{
    if keys.len() > 0 {
        let front = keys.drop_last();
        lemma_numeric_keys(front, p);
        let all = numeric_keys(keys);
        let before = numeric_keys(front);
        if before.contains(p) {
            let i = before.index_of(p);
            assert(all[i] == p);
            let k = choose|k: int|
                0 <= k < front.len() && (#[trigger] front[k]).numeric && front[k].pos == p;
            assert(keys[k] == front[k]);
        }
        if keys.last().numeric && keys.last().pos == p {
            assert(all[before.len() as int] == p);
            assert(keys[keys.len() - 1].numeric);
        }
        if all.contains(p) && !before.contains(p) {
            let i = all.index_of(p);
            assert(i == before.len());
            assert(keys[keys.len() - 1].numeric && keys[keys.len() - 1].pos == p);
        }
        if exists|k: int| 0 <= k < keys.len() && (#[trigger] keys[k]).numeric && keys[k].pos == p {
            let k = choose|k: int|
                0 <= k < keys.len() && (#[trigger] keys[k]).numeric && keys[k].pos == p;
            if k < front.len() {
                assert(front[k].numeric && front[k].pos == p);
            }
        }
    }
}

proof fn lemma_converted(
    rows: Seq<Seq<FieldV>>,
    positions: Seq<usize>,
    readings: Map<Seq<char>, NumV>,
    n: int,
)
    requires
        0 <= n <= rows.len(),
        forall|i: int| 0 <= i < rows.len() ==> (#[trigger] rows[i]).len() <= usize::MAX,
    ensures
        match converted(rows, positions, readings, n) {
            Ok(out) => out.len() == n && forall|i: int|
                0 <= i < n ==> read_in(rows[i], positions, readings, #[trigger] out[i]),
            Err(t) => exists|i: int, p: usize|
                0 <= i < n && p < (#[trigger] rows[i]).len() && #[trigger] positions.contains(p)
                    && reading(rows[i][p as int], readings) == Err::<NumV, Seq<char>>(t),
        },
    decreases n,
{
    if n > 0 {
        lemma_converted(rows, positions, readings, n - 1);
        law_to_num_reads_the_named_cells(rows[n - 1], positions, readings);
        match converted(rows, positions, readings, n - 1) {
            Err(t) => {
                let (i, p) = choose|i: int, p: usize|
                    0 <= i < n - 1 && p < (#[trigger] rows[i]).len() && #[trigger] positions.contains(
                        p,
                    ) && reading(rows[i][p as int], readings) == Err::<NumV, Seq<char>>(t);
                assert(p < rows[i].len() && positions.contains(p));
            },
            Ok(before) => match with_nums(rows[n - 1], positions, 0, readings) {
                Err(t) => {
                    let i = choose|i: int|
                        0 <= i < positions.len() && #[trigger] positions[i] < rows[n - 1].len()
                            && reading(rows[n - 1][positions[i] as int], readings) == Err::<
                            NumV,
                            Seq<char>,
                        >(t);
                    assert(positions.contains(positions[i]) && positions[i] < rows[n - 1].len());
                },
                Ok(r) => {
                    let out = before.push(r);
                    assert forall|i: int| 0 <= i < n implies read_in(
                        rows[i],
                        positions,
                        readings,
                        #[trigger] out[i],
                    ) by {
                        if i < n - 1 {
                            assert(out[i] == before[i]);
                        }
                    }
                },
            },
        }
    }
}

/// Whether `out` is `row` with the cells of the numeric keys read as numbers.
pub open spec fn keyed(
    keys: Seq<SortKey>,
    row: Seq<FieldV>,
    readings: Map<Seq<char>, NumV>,
    out: Seq<FieldV>,
) -> bool {
    &&& out.len() == row.len()
    &&& forall|c: int|
        #![trigger out[c]]
        #![trigger row[c]]
        0 <= c < row.len() ==> if exists|k: int|
            0 <= k < keys.len() && (#[trigger] keys[k]).numeric && keys[k].pos == c {
            reading(row[c], readings) == Ok::<NumV, Seq<char>>(out[c]->Num_0) && out[c] is Num
        } else {
            out[c] == row[c]
        }
}

/// `sort` gives each of the rows once, the cells of its numeric keys read as numbers, in
/// the order of the first key, then of the next, and so on, and rows that no key tells
/// apart as they came. It fails only on a numeric key's cell that is no number.
pub proof fn law_sort_gives_the_rows_in_the_order_of_the_keys(
    s: SortStmt,
    rows: Seq<Seq<FieldV>>,
    supply: Supply,
    readings: Map<Seq<char>, NumV>,
) -> (from: Seq<usize>)
    requires
        rows.len() <= usize::MAX,
        forall|i: int| 0 <= i < rows.len() ==> (#[trigger] rows[i]).len() <= usize::MAX,
    ensures
        match stage_out(Stage::Sort(s), rows, supply, readings) {
            Ok(out) => {
                let keys = s.keys@;
                &&& out.len() == from.len() == rows.len()
                &&& forall|i: int|
                    0 <= i < out.len() ==> #[trigger] from[i] < rows.len() && keyed(
                        keys,
                        rows[from[i] as int],
                        readings,
                        out[i],
                    )
                &&& forall|i: int, j: int|
                    0 <= i < j < out.len() ==> #[trigger] from[i] != #[trigger] from[j]
                &&& forall|i: int, j: int, k: int|
                    0 <= i < j < out.len() && 0 <= k < keys.len() && #[trigger] tied(
                        keys,
                        k,
                        out[i],
                        out[j],
                    ) ==> !goes_first(keys[k], out[j], out[i])
                &&& forall|i: int, j: int|
                    0 <= i < j < out.len() && tied(keys, keys.len() as int, out[i], out[j])
                        ==> #[trigger] from[i] < #[trigger] from[j]
            },
            Err(e) => e is Num && exists|i: int, k: int|
                0 <= i < rows.len() && 0 <= k < s.keys@.len() && (#[trigger] s.keys@[k]).numeric
                    && s.keys@[k].pos < (#[trigger] rows[i]).len() && reading(
                    rows[i][s.keys@[k].pos as int],
                    readings,
                ) == Err::<NumV, Seq<char>>(e->Num_0),
        },
{
    let keys = s.keys@;
    let ps = numeric_keys(keys);
    lemma_converted(rows, ps, readings, rows.len() as int);
    match converted(rows, ps, readings, rows.len() as int) {
        Ok(c) => {
            let out = sorted_of(keys, c);
            law_a_sort_stage_sorts(keys, c);
            law_sorted_rows_follow_the_keys_in_turn(keys, c, out);
            let from = law_sorting_moves_rows_only_where_a_key_asks(keys, c, out);
            assert forall|i: int| 0 <= i < out.len() implies #[trigger] from[i] < rows.len()
                && keyed(keys, rows[from[i] as int], readings, out[i]) by {
                let row = rows[from[i] as int];
                assert(read_in(row, ps, readings, c[from[i] as int]));
                assert forall|x: int|
                    #![trigger out[i][x]]
                    #![trigger row[x]]
                    0 <= x < row.len() implies if exists|k: int|
                    0 <= k < keys.len() && (#[trigger] keys[k]).numeric && keys[k].pos == x {
                    reading(row[x], readings) == Ok::<NumV, Seq<char>>(out[i][x]->Num_0)
                        && out[i][x] is Num
                } else {
                    out[i][x] == row[x]
                } by {
                    lemma_numeric_keys(keys, x as usize);
                }
            }
            from
        },
        Err(t) => {
            let (i, p) = choose|i: int, p: usize|
                0 <= i < rows.len() && p < (#[trigger] rows[i]).len() && #[trigger] ps.contains(p)
                    && reading(rows[i][p as int], readings) == Err::<NumV, Seq<char>>(t);
            lemma_numeric_keys(keys, p);
            let k = choose|k: int|
                0 <= k < keys.len() && (#[trigger] keys[k]).numeric && keys[k].pos == p;
            assert(s.keys@[k].numeric && s.keys@[k].pos < rows[i].len());
            Seq::empty()
        },
    }
}

/// `uniq` keeps, in order, just the rows that are the same as no row before them in
/// every column it names, or as a whole where it names none.
pub proof fn law_uniq_drops_what_came_before(
    u: UniqStmt,
    rows: Seq<Seq<FieldV>>,
    supply: Supply,
    readings: Map<Seq<char>, NumV>,
) -> (kept: Seq<int>)
    requires
        plain_rows(rows, u.positions@),
    ensures
        stage_out(Stage::Uniq(u), rows, supply, readings) matches Ok(out) && {
            &&& out.len() == kept.len()
            &&& forall|i: int|
                0 <= i < kept.len() ==> 0 <= #[trigger] kept[i] < rows.len() && out[i]
                    == rows[kept[i]]
            &&& forall|i: int, k: int|
                0 <= i < k < kept.len() ==> #[trigger] kept[i] < #[trigger] kept[k]
            &&& forall|i: int|
                0 <= i < rows.len() ==> (#[trigger] kept.contains(i) <==> new_at(
                    rows,
                    u.positions@,
                    i,
                ))
        },
{
    law_uniq_keeps_what_is_new(rows, u.positions@, rows.len() as int)
}

/// A join stage gives just the rows that its type and its keys ask for, in order.
pub proof fn law_a_join_stage_joins(
    j: JoinStmt,
    rows: Seq<Seq<FieldV>>,
    supply: Supply,
    readings: Map<Seq<char>, NumV>,
) -> (from: Seq<Origin>)
    requires
        plain_keys(j, rows, rows_view(supply.right@)),
        supply.right@.len() <= usize::MAX,
    ensures
        stage_out(Stage::Join(j), rows, supply, readings) matches Ok(out) && {
            &&& comes_from(j, rows, rows_view(supply.right@), out, from)
            &&& forall|o: Origin| #[trigger]
                asked_for(j, rows, rows_view(supply.right@), o) ==> from.contains(o)
        },
{
    law_a_join_gives_just_the_rows_it_asks_for(j, rows, rows_view(supply.right@))
}

/// `stats` gives a row for each column that it names: the name, how many of the column's
/// cells have text and how many have none, then the column's figures.
pub proof fn law_stats_gives_a_row_for_each_column(
    s: StatsStmt,
    rows: Seq<Seq<FieldV>>,
    supply: Supply,
    readings: Map<Seq<char>, NumV>,
    i: int,
)
    requires
        s.names@.len() == s.positions@.len(),
        supply.figures@.len() == 1,
        supply.figures@[0]@.len() == s.positions@.len(),
        0 <= i < s.names@.len(),
    ensures
        stage_out(Stage::Stats(s), rows, supply, readings) matches Ok(out) && {
            let cells = column_cells(rows, s.positions@[i]);
            let full = cells.filter(|f: FieldV| f.text().len() > 0).len();
            let f = supply.figures@[0]@[i];
            &&& out.len() == s.names@.len()
            &&& out[i].len() == 8
            &&& out[i][0] == FieldV::Str(s.names@[i]@)
            &&& out[i][1] == FieldV::Num(whole_view(full))
            &&& out[i][2] == FieldV::Num(whole_view((rows.len() - full) as nat))
            &&& out[i][3] == f.min@
            &&& out[i][4] == f.max@
            &&& out[i][5] == crate::group::num_or_blank_spec(f.sum)
            &&& out[i][6] == crate::group::num_or_blank_spec(f.mean)
            &&& out[i][7] == f.stddev@
        },
{
    let cells = column_cells(rows, s.positions@[i]);
    law_filled_cells_have_text(cells);
}

/// `group` with `agg` gives a row for each key there is, in the order in which the keys
/// are first seen: the key's cells, then what each aggregate gives over the rows with
/// that key.
pub proof fn law_group_gives_a_row_for_each_key(
    g: GroupStmt,
    rows: Seq<Seq<FieldV>>,
    supply: Supply,
    readings: Map<Seq<char>, NumV>,
    i: int,
    a: int,
) -> (first: Seq<int>)
    requires
        plain_groups(g.key_positions@, rows),
        g.aggs@.len() <= usize::MAX,
        stage_out(Stage::Group(g), rows, supply, readings) is Ok,
        0 <= i < stage_out(Stage::Group(g), rows, supply, readings)->Ok_0.len(),
        0 <= a < g.aggs@.len(),
    ensures
        ({
            let out = stage_out(Stage::Group(g), rows, supply, readings)->Ok_0;
            let columns = agg_columns(g.aggs@, g.aggs@.len() as int);
            let gs = groups_of(g.key_positions@, columns, rows, rows.len() as int);
            let of = members(g.key_positions@, rows, rows.len() as int, gs[i].key);
            let keys = g.key_positions@.len();
            let cell = out[i][keys + a];
            &&& grouped(g.key_positions@, columns, rows, rows.len() as int, gs, first)
            &&& out.len() == first.len()
            &&& out[i].len() == keys + g.aggs@.len()
            &&& out[i].take(keys as int) == pick(rows[first[i]], g.key_positions@)
            &&& (g.aggs@[a].func is Count && g.aggs@[a].pos is None) ==> cell == FieldV::Num(
                whole_view(of.len()),
            )
            &&& g.aggs@[a].func is Count && g.aggs@[a].pos is Some ==> cell == FieldV::Num(
                whole_view(
                    column_cells(of, g.aggs@[a].pos->Some_0).filter(
                        |f: FieldV| f.text().len() > 0,
                    ).len(),
                ),
            )
            &&& g.aggs@[a].pos is Some ==> {
                let at = columns.index_of(g.aggs@[a].pos->Some_0);
                let f = supply.figures@[i]@[at];
                &&& columns[at] == g.aggs@[a].pos->Some_0
                &&& g.aggs@[a].func is Min ==> cell == f.min@
                &&& g.aggs@[a].func is Max ==> cell == f.max@
                &&& g.aggs@[a].func is Sum ==> cell == crate::group::num_or_blank_spec(f.sum)
                &&& g.aggs@[a].func is Mean ==> cell == crate::group::num_or_blank_spec(f.mean)
                &&& g.aggs@[a].func is Stddev ==> cell == f.stddev@
            }
        }),
{
    let n = rows.len() as int;
    let keys = g.key_positions@;
    let columns = agg_columns(g.aggs@, g.aggs@.len() as int);
    let gs = groups_of(keys, columns, rows, n);
    let slots = slots_of(g.aggs@);
    let first = law_groups_gather_the_rows_of_their_key(keys, columns, rows, n);
    law_aggregated_columns_have_one_place(g.aggs@, g.aggs@.len() as int);
    lemma_few_columns(g.aggs@, g.aggs@.len() as int);
    assert(first[i] < n);
    assert(gathers(gs[i], columns, members(keys, rows, n, gs[i].key)));
    assert(gs[i].key.len() == keys.len());
    if g.aggs@[a].pos is Some {
        let p = g.aggs@[a].pos->Some_0;
        assert(columns.contains(p));
    }
    law_a_group_row_is_its_key_and_its_aggregates(
        gs[i],
        members(keys, rows, n, gs[i].key),
        columns,
        g.aggs@,
        slots,
        supply.figures@[i]@,
        a,
    );
    first
}

proof fn lemma_few_columns(aggs: Seq<crate::plan::AggSpec>, n: int)
    requires
        0 <= n <= aggs.len(),
    ensures
        agg_columns(aggs, n).len() <= n,
    decreases n,
{
    if n > 0 {
        lemma_few_columns(aggs, n - 1);
    }
}

} // verus!
