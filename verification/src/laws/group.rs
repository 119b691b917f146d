//! What `uniq`, `group` with `agg`, and `stats` give.

use crate::csv::{encodable_row, row_line};
use crate::field::{FieldV, cell_or_empty, pick, row_texts, whole_view};
use crate::group::{
    ColFigures, GroupV, Tally, agg_cell, agg_columns, column_cells, deduped, filled, first_of_key,
    group_at, group_row, groups_of, num_or_blank_spec, profile_of, profile_row, uniq_key, with_row,
};
use crate::laws::join::{
    agree, law_lines_are_the_same_where_the_texts_are, law_picked_lines_agree_in_every_column,
};
use crate::plan::{AggFunc, AggSpec};
use crate::resolve::profile_header;
use vstd::prelude::*;

verus! {

/// Whether two rows are the same to `uniq`: in every one of the columns, or as a whole
/// where none are named.
pub open spec fn same_row(a: Seq<FieldV>, b: Seq<FieldV>, columns: Seq<usize>) -> bool {
    if columns.len() == 0 {
        row_texts(a) == row_texts(b)
    } else {
        agree(a, columns, b, columns)
    }
}

/// Whether `uniq` can tell rows apart by their texts: no number among the cells that
/// it looks at has a comma, a quote or a line break in it.
pub open spec fn plain_rows(rows: Seq<Seq<FieldV>>, columns: Seq<usize>) -> bool {
    forall|i: int|
        0 <= i < rows.len() ==> encodable_row(
            if columns.len() == 0 {
                #[trigger] rows[i]
            } else {
                pick(rows[i], columns)
            },
        )
}

/// Whether no row before `i` is the same as row `i`.
pub open spec fn new_at(rows: Seq<Seq<FieldV>>, columns: Seq<usize>, i: int) -> bool {
    forall|k: int| 0 <= k < i ==> !same_row(#[trigger] rows[k], rows[i], columns)
}

proof fn lemma_same_key(rows: Seq<Seq<FieldV>>, columns: Seq<usize>, i: int, k: int)
    requires
        plain_rows(rows, columns),
        0 <= i < rows.len(),
        0 <= k < rows.len(),
    ensures
        uniq_key(rows[k], columns) == uniq_key(rows[i], columns) <==> same_row(
            rows[k],
            rows[i],
            columns,
        ),
{
    if columns.len() == 0 {
        law_lines_are_the_same_where_the_texts_are(rows[k], rows[i]);
    } else {
        law_picked_lines_agree_in_every_column(rows[k], columns, rows[i], columns);
    }
}

/// `uniq` keeps, in order, just the rows that are the same as no row before them.
pub proof fn law_uniq_keeps_what_is_new(
    rows: Seq<Seq<FieldV>>,
    columns: Seq<usize>,
    n: int,
) -> (kept: Seq<int>)
    requires
        plain_rows(rows, columns),
        0 <= n <= rows.len(),
    ensures
        deduped(rows, columns, n).len() == kept.len(),
        forall|i: int|
            0 <= i < kept.len() ==> 0 <= #[trigger] kept[i] < n && deduped(rows, columns, n)[i]
                == rows[kept[i]],
        forall|i: int, k: int| 0 <= i < k < kept.len() ==> #[trigger] kept[i] < #[trigger] kept[k],
        forall|i: int| 0 <= i < n ==> (#[trigger] kept.contains(i) <==> new_at(rows, columns, i)),
    decreases n,
{
    if n == 0 {
        Seq::empty()
    } else {
        let before = law_uniq_keeps_what_is_new(rows, columns, n - 1);
        assert forall|k: int| 0 <= k < n - 1 implies (uniq_key(#[trigger] rows[k], columns)
            == uniq_key(rows[n - 1], columns) <==> same_row(rows[k], rows[n - 1], columns)) by {
            lemma_same_key(rows, columns, n - 1, k);
        }
        assert(first_of_key(rows, columns, n - 1) <==> new_at(rows, columns, n - 1));
        if first_of_key(rows, columns, n - 1) {
            let kept = before.push(n - 1);
            assert forall|i: int| 0 <= i < n implies (#[trigger] kept.contains(i) <==> new_at(
                rows,
                columns,
                i,
            )) by {
                if i == n - 1 {
                    assert(kept[before.len() as int] == i);
                } else {
                    assert(before.contains(i) <==> new_at(rows, columns, i));
                    if before.contains(i) {
                        let k = before.index_of(i);
                        assert(kept[k] == i);
                    }
                    if kept.contains(i) {
                        let k = kept.index_of(i);
                        assert(before[k] == i);
                    }
                }
            }
            kept
        } else {
            assert forall|i: int| 0 <= i < n implies (#[trigger] before.contains(i) <==> new_at(
                rows,
                columns,
                i,
            )) by {
                if before.contains(i) {
                    let k = before.index_of(i);
                    assert(before[k] < n - 1);
                }
            }
            before
        }
    }
}

/// Which of the first `n` rows have the key, in order.
pub open spec fn members(
    keys: Seq<usize>,
    rows: Seq<Seq<FieldV>>,
    n: int,
    key: Seq<FieldV>,
) -> Seq<Seq<FieldV>> {
    rows.take(n).filter(|row: Seq<FieldV>| row_texts(pick(row, keys)) == row_texts(key))
}

/// Whether a group is that of the rows with its key: as many, and in each column their
/// cells.
pub open spec fn gathers(g: GroupV, columns: Seq<usize>, of: Seq<Seq<FieldV>>) -> bool {
    &&& g.rows == of.len()
    &&& g.cells.len() == columns.len()
    &&& forall|s: int|
        0 <= s < columns.len() ==> #[trigger] g.cells[s] == column_cells(of, columns[s])
}

/// Whether groups can be told apart by the texts of their keys.
pub open spec fn plain_groups(keys: Seq<usize>, rows: Seq<Seq<FieldV>>) -> bool {
    forall|i: int| 0 <= i < rows.len() ==> encodable_row(pick(#[trigger] rows[i], keys))
}

/// Whether those are the groups of the first `n` rows, each first seen at the row that
/// `first` gives.
pub open spec fn grouped(
    keys: Seq<usize>,
    columns: Seq<usize>,
    rows: Seq<Seq<FieldV>>,
    n: int,
    gs: Seq<GroupV>,
    first: Seq<int>,
) -> bool {
    &&& first.len() == gs.len()
    &&& forall|g: int|
        0 <= g < gs.len() ==> {
            &&& 0 <= #[trigger] first[g] < n
            &&& gs[g].key == pick(rows[first[g]], keys)
        }
    &&& forall|g: int|
        0 <= g < gs.len() ==> gathers(
            #[trigger] gs[g],
            columns,
            members(keys, rows, n, gs[g].key),
        )
    &&& forall|g: int, h: int| 0 <= g < h < gs.len() ==> #[trigger] first[g] < #[trigger] first[h]
    &&& forall|g: int, h: int|
        0 <= g < h < gs.len() ==> row_texts((#[trigger] gs[g]).key) != row_texts(
            (#[trigger] gs[h]).key,
        )
    &&& forall|i: int| 0 <= i < n ==> has_group(keys, gs, #[trigger] rows[i])
}

/// Whether one of the groups has the row's key.
pub open spec fn has_group(keys: Seq<usize>, gs: Seq<GroupV>, row: Seq<FieldV>) -> bool {
    exists|g: int|
        0 <= g < gs.len() && row_texts((#[trigger] gs[g]).key) == row_texts(pick(row, keys))
}

/// The group that is found has the key, and none before it.
pub proof fn lemma_group_found(gs: Seq<GroupV>, line: Seq<char>, i: int)
    requires
        0 <= i <= gs.len(),
    ensures
        ({
            let g = group_at(gs, line, i);
            &&& i <= g <= gs.len()
            &&& g < gs.len() ==> row_line(gs[g].key) == line
            &&& forall|k: int| i <= k < g ==> row_line((#[trigger] gs[k]).key) != line
        }),
    decreases gs.len() - i,
{
    if i < gs.len() && row_line(gs[i].key) != line {
        lemma_group_found(gs, line, i + 1);
    }
}

proof fn lemma_members(keys: Seq<usize>, rows: Seq<Seq<FieldV>>, n: int, key: Seq<FieldV>)
    requires
        0 < n <= rows.len(),
    ensures
        members(keys, rows, n, key) == if row_texts(pick(rows[n - 1], keys)) == row_texts(key) {
            members(keys, rows, n - 1, key).push(rows[n - 1])
        } else {
            members(keys, rows, n - 1, key)
        },
{
    let f = |row: Seq<FieldV>| row_texts(pick(row, keys)) == row_texts(key);
    assert(rows.take(n).drop_last() =~= rows.take(n - 1));
    assert(rows.take(n).last() == rows[n - 1]);
    reveal(Seq::filter);
}

proof fn lemma_nobody(keys: Seq<usize>, rows: Seq<Seq<FieldV>>, n: int, key: Seq<FieldV>)
    requires
        0 <= n <= rows.len(),
        forall|i: int|
            0 <= i < n ==> row_texts(pick(#[trigger] rows[i], keys)) != row_texts(key),
    ensures
        members(keys, rows, n, key).len() == 0,
    decreases n,
{
    if n > 0 {
        lemma_members(keys, rows, n, key);
        lemma_nobody(keys, rows, n - 1, key);
    } else {
        reveal(Seq::filter);
        assert(rows.take(0).len() == 0);
    }
}

/// `group` parts the rows by their texts in every key column: each row is in the one
/// group with its key, a group counts its rows and has their cells in order, and the
/// groups stand in the order in which they are first seen.
#[verifier::rlimit(40)]
#[verifier::spinoff_prover]
pub proof fn law_groups_gather_the_rows_of_their_key(
    keys: Seq<usize>,
    columns: Seq<usize>,
    rows: Seq<Seq<FieldV>>,
    n: int,
) -> (first: Seq<int>)
    requires
        plain_groups(keys, rows),
        0 <= n <= rows.len(),
    ensures
        grouped(keys, columns, rows, n, groups_of(keys, columns, rows, n), first),
    decreases n,
{
    let gs = groups_of(keys, columns, rows, n);
    if n == 0 {
        Seq::empty()
    } else {
        let was = groups_of(keys, columns, rows, n - 1);
        let first = law_groups_gather_the_rows_of_their_key(keys, columns, rows, n - 1);
        let row = rows[n - 1];
        let key = pick(row, keys);
        let at = group_at(was, row_line(key), 0);
        lemma_group_found(was, row_line(key), 0);
        assert forall|g: int| 0 <= g < was.len() implies (row_line((#[trigger] was[g]).key)
            == row_line(key) <==> row_texts(was[g].key) == row_texts(key)) by {
            assert(was[g].key == pick(rows[first[g]], keys));
            law_lines_are_the_same_where_the_texts_are(was[g].key, key);
        }
        assert forall|g: int| 0 <= g < was.len() implies members(
            keys,
            rows,
            n,
            (#[trigger] was[g]).key,
        ) == (if row_texts(key) == row_texts(was[g].key) {
            members(keys, rows, n - 1, was[g].key).push(row)
        } else {
            members(keys, rows, n - 1, was[g].key)
        }) by {
            lemma_members(keys, rows, n, was[g].key);
        }
        if at < was.len() {
            let of = members(keys, rows, n - 1, was[at].key);
            assert(gs == was.update(at, with_row(was[at], columns, row)));
            assert(row_texts(was[at].key) == row_texts(key));
            assert(gathers(gs[at], columns, of.push(row))) by {
                assert forall|s: int| 0 <= s < columns.len() implies #[trigger] gs[at].cells[s]
                    == column_cells(of.push(row), columns[s]) by {
                    assert(was[at].cells[s] == column_cells(of, columns[s]));
                    assert(column_cells(of.push(row), columns[s]) =~= column_cells(
                        of,
                        columns[s],
                    ).push(cell_or_empty(row, columns[s] as int)));
                }
            }
            assert forall|g: int| 0 <= g < gs.len() implies gathers(
                #[trigger] gs[g],
                columns,
                members(keys, rows, n, gs[g].key),
            ) by {
                assert(gs[g].key == was[g].key);
                if g != at {
                    assert(gs[g] == was[g]);
                    if row_texts(was[g].key) == row_texts(key) {
                        if g < at {
                            assert(row_texts(was[g].key) != row_texts(was[at].key));
                        } else {
                            assert(row_texts(was[at].key) != row_texts(was[g].key));
                        }
                    }
                }
            }
            assert forall|g: int, h: int| 0 <= g < h < gs.len() implies row_texts(
                (#[trigger] gs[g]).key,
            ) != row_texts((#[trigger] gs[h]).key) by {
                assert(row_texts(was[g].key) != row_texts(was[h].key));
            }
            assert forall|i: int| 0 <= i < n implies has_group(keys, gs, #[trigger] rows[i]) by {
                if i < n - 1 {
                    assert(has_group(keys, was, rows[i]));
                    let g = choose|g: int|
                        0 <= g < was.len() && row_texts((#[trigger] was[g]).key) == row_texts(
                            pick(rows[i], keys),
                        );
                    assert(row_texts(gs[g].key) == row_texts(pick(rows[i], keys)));
                } else {
                    assert(row_texts(gs[at].key) == row_texts(pick(rows[i], keys)));
                }
            }
            assert forall|g: int| 0 <= g < gs.len() implies 0 <= #[trigger] first[g] < n
                && gs[g].key == pick(rows[first[g]], keys) by {
                assert(gs[g].key == was[g].key);
            }
            first
        } else {
            let fresh = with_row(crate::group::empty_group(key, columns), columns, row);
            assert(gs == was.push(fresh));
            let all = first.push(n - 1);
            assert forall|i: int| 0 <= i < n - 1 implies row_texts(
                pick(#[trigger] rows[i], keys),
            ) != row_texts(key) by {
                assert(has_group(keys, was, rows[i]));
                let g = choose|g: int|
                    0 <= g < was.len() && row_texts((#[trigger] was[g]).key) == row_texts(
                        pick(rows[i], keys),
                    );
                assert(row_line(was[g].key) != row_line(key));
            }
            lemma_nobody(keys, rows, n - 1, key);
            lemma_members(keys, rows, n, key);
            let none = members(keys, rows, n - 1, key);
            assert(none =~= Seq::<Seq<FieldV>>::empty());
            assert(gathers(fresh, columns, none.push(row))) by {
                assert forall|s: int| 0 <= s < columns.len() implies #[trigger] fresh.cells[s]
                    == column_cells(none.push(row), columns[s]) by {
                    assert(column_cells(none.push(row), columns[s]) =~= seq![
                        cell_or_empty(row, columns[s] as int),
                    ]);
                    assert(fresh.cells[s] =~= seq![cell_or_empty(row, columns[s] as int)]);
                }
            }
            assert forall|g: int| 0 <= g < gs.len() implies gathers(
                #[trigger] gs[g],
                columns,
                members(keys, rows, n, gs[g].key),
            ) by {
                if g < was.len() {
                    assert(gs[g] == was[g]);
                    assert(row_line(was[g].key) != row_line(key));
                } else {
                    assert(gs[g] == fresh);
                }
            }
            assert forall|g: int, h: int| 0 <= g < h < gs.len() implies row_texts(
                (#[trigger] gs[g]).key,
            ) != row_texts((#[trigger] gs[h]).key) by {
                assert(gs[g] == was[g]);
                if h < was.len() {
                    assert(gs[h] == was[h]);
                    assert(row_texts(was[g].key) != row_texts(was[h].key));
                } else {
                    assert(row_line(was[g].key) != row_line(key));
                }
            }
            assert forall|i: int| 0 <= i < n implies has_group(keys, gs, #[trigger] rows[i]) by {
                if i < n - 1 {
                    assert(has_group(keys, was, rows[i]));
                    let g = choose|g: int|
                        0 <= g < was.len() && row_texts((#[trigger] was[g]).key) == row_texts(
                            pick(rows[i], keys),
                        );
                    assert(gs[g] == was[g]);
                } else {
                    assert(gs[was.len() as int] == fresh);
                }
            }
            assert forall|g: int| 0 <= g < gs.len() implies 0 <= #[trigger] all[g] < n
                && gs[g].key == pick(rows[all[g]], keys) by {
                if g < was.len() {
                    assert(all[g] == first[g]);
                    assert(gs[g] == was[g]);
                }
            }
            all
        }
    }
}

/// The cells that are filled are those that have text; the others are empty.
pub proof fn law_filled_cells_have_text(cells: Seq<FieldV>)
    ensures
        filled(cells) == cells.filter(|f: FieldV| f.text().len() > 0).len(),
        filled(cells) == 0 <==> forall|i: int|
            0 <= i < cells.len() ==> (#[trigger] cells[i]).text().len() == 0,
        filled(cells) == cells.len() <==> forall|i: int|
            0 <= i < cells.len() ==> (#[trigger] cells[i]).text().len() > 0,
        filled(cells) <= cells.len(),
    decreases cells.len(),
{
    reveal(Seq::filter);
    if cells.len() > 0 {
        let rest = cells.drop_last();
        law_filled_cells_have_text(rest);
        assert(forall|i: int| 0 <= i < rest.len() ==> #[trigger] rest[i] == cells[i]);
        assert(cells.last() == cells[cells.len() - 1]);
        if forall|i: int| 0 <= i < rest.len() ==> (#[trigger] rest[i]).text().len() == 0 {
            assert forall|i: int|
                0 <= i < cells.len() && cells.last().text().len()
                    == 0 implies (#[trigger] cells[i]).text().len() == 0 by {
                if i < rest.len() {
                    assert(rest[i] == cells[i]);
                }
            }
        }
        if forall|i: int| 0 <= i < rest.len() ==> (#[trigger] rest[i]).text().len() > 0 {
            assert forall|i: int|
                0 <= i < cells.len() && cells.last().text().len()
                    > 0 implies (#[trigger] cells[i]).text().len() > 0 by {
                if i < rest.len() {
                    assert(rest[i] == cells[i]);
                }
            }
        }
    }
}

/// Where the profile has what an aggregate gives.
pub open spec fn profile_name(func: AggFunc) -> Seq<char> {
    match func {
        AggFunc::Count => "count"@,
        AggFunc::Min => "min"@,
        AggFunc::Max => "max"@,
        AggFunc::Sum => "sum"@,
        AggFunc::Mean => "mean"@,
        AggFunc::Stddev => "stddev"@,
    }
}

/// What an aggregate of a column gives stands in the profile of that column too, under
/// the aggregate's name: `agg stddev(col)` is the `stddev` of `stats col`, and so on.
pub proof fn law_aggregates_are_what_the_profile_has(
    func: AggFunc,
    name: Seq<char>,
    f: ColFigures,
    count: nat,
    empty: nat,
    rows: nat,
    p: int,
)
    requires
        0 <= p < profile_header().len(),
        profile_header()[p] == profile_name(func),
    ensures
        profile_row(name, count, empty, f).len() == profile_header().len(),
        profile_row(name, count, empty, f)[p] == agg_cell(func, Some((f, count)), rows),
{
    reveal_strlit("field");
    reveal_strlit("count");
    reveal_strlit("empty");
    reveal_strlit("min");
    reveal_strlit("max");
    reveal_strlit("sum");
    reveal_strlit("mean");
    reveal_strlit("stddev");
    let h = profile_header();
    let want = profile_name(func);
    if p == 0 {
        assert(h[p].len() == 5 && h[p][0] == 'f');
    } else if p == 1 {
        assert(h[p].len() == 5 && h[p][0] == 'c');
    } else if p == 2 {
        assert(h[p].len() == 5 && h[p][0] == 'e');
    } else if p == 3 {
        assert(h[p].len() == 3 && h[p][1] == 'i');
    } else if p == 4 {
        assert(h[p].len() == 3 && h[p][1] == 'a');
    } else if p == 5 {
        assert(h[p].len() == 3 && h[p][1] == 'u');
    } else if p == 6 {
        assert(h[p].len() == 4);
    } else {
        assert(h[p].len() == 6);
    }
}

/// Each aggregate gives its own figure of the column: `count` the number of filled
/// cells, `sum` and `mean` a blank where the column has no numbers; and a bare `count`
/// the number of rows.
pub proof fn law_each_aggregate_gives_its_own_figure(f: ColFigures, count: nat, rows: nat)
    ensures
        agg_cell(AggFunc::Count, None, rows) == FieldV::Num(whole_view(rows)),
        agg_cell(AggFunc::Count, Some((f, count)), rows) == FieldV::Num(whole_view(count)),
        agg_cell(AggFunc::Min, Some((f, count)), rows) == f.min@,
        agg_cell(AggFunc::Max, Some((f, count)), rows) == f.max@,
        agg_cell(AggFunc::Stddev, Some((f, count)), rows) == f.stddev@,
        f.sum matches Some(n) ==> agg_cell(AggFunc::Sum, Some((f, count)), rows) == FieldV::Num(n@),
        f.mean matches Some(n) ==> agg_cell(AggFunc::Mean, Some((f, count)), rows) == FieldV::Num(
            n@,
        ),
        f.sum is None ==> agg_cell(AggFunc::Sum, Some((f, count)), rows).text().len() == 0,
        f.mean is None ==> agg_cell(AggFunc::Mean, Some((f, count)), rows).text().len() == 0,
{
}

/// A group's row has its key cells, then what each aggregate gives, in order: of its own
/// column's cells in the group, or, for a bare `count`, of the rows.
pub proof fn law_a_group_row_is_its_key_and_its_aggregates(
    g: GroupV,
    of: Seq<Seq<FieldV>>,
    columns: Seq<usize>,
    aggs: Seq<AggSpec>,
    slots: Seq<Option<usize>>,
    figures: Seq<ColFigures>,
    a: int,
)
    requires
        gathers(g, columns, of),
        0 <= a < aggs.len() == slots.len(),
        slots[a] matches Some(s) ==> s < columns.len() && aggs[a].pos == Some(columns[s as int]),
        slots[a] is None ==> aggs[a].pos is None,
    ensures
        ({
            let row = group_row(g, aggs, slots, figures);
            let cell = row[g.key.len() + a];
            &&& row.len() == g.key.len() + aggs.len()
            &&& row.take(g.key.len() as int) == g.key
            &&& (aggs[a].func is Count && aggs[a].pos is None) ==> cell == FieldV::Num(
                whole_view(of.len()),
            )
            &&& aggs[a].func is Count && aggs[a].pos is Some ==> cell == FieldV::Num(
                whole_view(
                    column_cells(of, aggs[a].pos->Some_0).filter(
                        |f: FieldV| f.text().len() > 0,
                    ).len(),
                ),
            )
            &&& aggs[a].func is Min && aggs[a].pos is Some ==> cell
                == figures[slots[a]->Some_0 as int].min@
            &&& aggs[a].func is Max && aggs[a].pos is Some ==> cell
                == figures[slots[a]->Some_0 as int].max@
            &&& aggs[a].func is Sum && aggs[a].pos is Some ==> cell == num_or_blank_spec(
                figures[slots[a]->Some_0 as int].sum,
            )
            &&& aggs[a].func is Mean && aggs[a].pos is Some ==> cell == num_or_blank_spec(
                figures[slots[a]->Some_0 as int].mean,
            )
            &&& aggs[a].func is Stddev && aggs[a].pos is Some ==> cell
                == figures[slots[a]->Some_0 as int].stddev@
        }),
{
    let row = group_row(g, aggs, slots, figures);
    assert(row.take(g.key.len() as int) =~= g.key);
    if slots[a] is Some {
        let s = slots[a]->Some_0 as int;
        assert(g.cells[s] == column_cells(of, columns[s]));
        law_filled_cells_have_text(g.cells[s]);
    }
}

/// Each column that is aggregated has one place, and every aggregate of a column finds it.
pub proof fn law_aggregated_columns_have_one_place(aggs: Seq<AggSpec>, n: int)
    requires
        0 <= n <= aggs.len(),
    ensures
        forall|i: int|
            0 <= i < n && (#[trigger] aggs[i]).pos is Some ==> agg_columns(aggs, n).contains(
                aggs[i].pos->Some_0,
            ),
        agg_columns(aggs, n).no_duplicates(),
        forall|s: int|
            0 <= s < agg_columns(aggs, n).len() ==> exists|i: int|
                0 <= i < n && (#[trigger] aggs[i]).pos == Some(#[trigger] agg_columns(aggs, n)[s]),
    decreases n,
{
    if n > 0 {
        law_aggregated_columns_have_one_place(aggs, n - 1);
        let before = agg_columns(aggs, n - 1);
        let out = agg_columns(aggs, n);
        assert forall|i: int| 0 <= i < n && (#[trigger] aggs[i]).pos is Some implies out.contains(
            aggs[i].pos->Some_0,
        ) by {
            let p = aggs[i].pos->Some_0;
            if i < n - 1 {
                let k = before.index_of(p);
                assert(before.contains(p));
                assert(out[k] == p);
            } else if !before.contains(p) {
                assert(out[before.len() as int] == p);
            }
        }
        assert forall|s: int| 0 <= s < out.len() implies exists|i: int|
            0 <= i < n && (#[trigger] aggs[i]).pos == Some(#[trigger] out[s]) by {
            if s < before.len() {
                assert(out[s] == before[s]);
                let i = choose|i: int|
                    0 <= i < n - 1 && (#[trigger] aggs[i]).pos == Some(before[s]);
                assert(aggs[i].pos == Some(out[s]));
            } else {
                assert(aggs[n - 1].pos == Some(out[s]));
            }
        }
    }
}

/// The profile has a row for each column, in order: its name, the number of its filled
/// cells and of its empty ones, and its figures.
pub proof fn law_the_profile_has_a_row_for_each_column(
    names: Seq<String>,
    tallies: Seq<Tally>,
    figures: Seq<ColFigures>,
    cells: Seq<Seq<FieldV>>,
    i: int,
)
    requires
        names.len() == tallies.len() == figures.len() == cells.len(),
        0 <= i < names.len(),
        tallies[i].counts(cells[i]),
    ensures
        profile_of(names, tallies, figures).len() == names.len(),
        ({
            let row = profile_of(names, tallies, figures)[i];
            let full = cells[i].filter(|f: FieldV| f.text().len() > 0).len();
            &&& row[0] == FieldV::Str(names[i]@)
            &&& row[1] == FieldV::Num(whole_view(full))
            &&& row[2] == FieldV::Num(whole_view((cells[i].len() - full) as nat))
            &&& row[3] == figures[i].min@
            &&& row[4] == figures[i].max@
            &&& row[5] == num_or_blank_spec(figures[i].sum)
            &&& row[6] == num_or_blank_spec(figures[i].mean)
            &&& row[7] == figures[i].stddev@
        }),
{
    law_filled_cells_have_text(cells[i]);
}

} // verus!
