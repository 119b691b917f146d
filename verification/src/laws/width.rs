//! Rows and the header stay together.

use crate::csv::row_line;
use crate::exec::{
    FateV, pass, place_of, results_at, results_view, stateful, turn, with_nums, with_texts,
    with_value,
};
use crate::field::{FieldV, NumV, pick, rows_view};
use crate::group::{agg_columns, deduped, groups_of};
use crate::join::{joined_rows, law_join_rows_have_one_width};
use crate::laws::group::lemma_group_found;
use crate::laws::header::law_a_name_stands_for_what_it_means;
use crate::laws::rows::{
    law_to_num_reads_the_named_cells, law_to_str_keeps_how_the_named_cells_are_written,
};
use crate::laws::sort::law_sorting_moves_rows_only_where_a_key_asks;
use crate::plan::{JoinStmt, Stage, Stmt};
use crate::resolve::{
    named_from, position, renamed, stage_found, stage_header, stmt_found, stmt_header, stmts_found,
    stmts_header,
};
use crate::sort::{converted, numeric_keys};
use crate::stages::{Supply, law_a_sort_stage_sorts, sorted_of, stage_out};
use crate::value::value_of;
use vstd::prelude::*;

verus! {

/// Whether each of the rows has that many cells.
pub open spec fn all_wide(rows: Seq<Seq<FieldV>>, n: nat) -> bool {
    forall|i: int| 0 <= i < rows.len() ==> (#[trigger] rows[i]).len() == n
}

proof fn lemma_renamed_len(header: Seq<Seq<char>>, pairs: Seq<(String, String)>, k: nat)
    requires
        renamed(header, pairs, k) is Ok,
    ensures
        renamed(header, pairs, k)->Ok_0.len() == header.len(),
    decreases k,
{
    if k > 0 {
        lemma_renamed_len(header, pairs, (k - 1) as nat);
        let h = renamed(header, pairs, (k - 1) as nat)->Ok_0;
        let n = pairs[k - 1].0@;
        law_a_name_stands_for_what_it_means(h, n, position(h, n)->Some_0);
    }
}

proof fn lemma_prefix(header: Seq<Seq<char>>, stmts: Seq<Stmt>, k: int)
    requires
        0 <= k < stmts.len(),
        stmts_header(header, stmts.take(k + 1)) is Ok,
    ensures
        stmts_header(header, stmts.take(k)) is Ok,
        stmts_header(header, stmts.take(k + 1)) == stmt_header(
            stmts_header(header, stmts.take(k))->Ok_0,
            stmts[k],
        ),
{
    assert(stmts.take(k + 1).drop_last() =~= stmts.take(k));
}

proof fn lemma_prefixes(header: Seq<Seq<char>>, stmts: Seq<Stmt>, k: int)
    requires
        0 <= k <= stmts.len(),
        stmts_header(header, stmts) is Ok,
    ensures
        stmts_header(header, stmts.take(k)) is Ok,
    decreases stmts.len() - k,
{
    if k < stmts.len() {
        lemma_prefixes(header, stmts, k + 1);
        lemma_prefix(header, stmts, k);
    } else {
        assert(stmts.take(k) =~= stmts);
    }
}

/// What the statements from `k` on make of a row that fits the header they see fits the
/// header that they leave.
pub proof fn law_a_row_fits_the_header_that_is_left(
    header: Seq<Seq<char>>,
    stmts: Seq<Stmt>,
    rs: Seq<Stmt>,
    k: int,
    row: Seq<FieldV>,
    prevs: Seq<Option<Seq<FieldV>>>,
    rownum: nat,
    results: Seq<NumV>,
    used: int,
    readings: Map<Seq<char>, NumV>,
)
    requires
        0 <= k <= stmts.len(),
        stmts_found(header, stmts, rs),
        stmts_header(header, stmts) is Ok,
        row.len() == stmts_header(header, stmts.take(k))->Ok_0.len(),
        forall|i: int|
            0 <= i <= stmts.len() ==> stmts_header(header, #[trigger] stmts.take(i))->Ok_0.len()
                <= usize::MAX,
    ensures
        turn(rs, k, row, prevs, rownum, results, used, readings).fate matches FateV::Keep(r)
            ==> r.len() == stmts_header(header, stmts)->Ok_0.len(),
    decreases stmts.len() - k,
{
    if k < stmts.len() {
        let h = stmts_header(header, stmts.take(k))->Ok_0;
        assert(stmts.take(k).len() == k);
        lemma_prefixes(header, stmts, k);
        lemma_prefixes(header, stmts, k + 1);
        lemma_prefix(header, stmts, k);
        assert(stmt_found(h, stmts[k], rs[k]));
        assert(h.len() <= usize::MAX);
        match rs[k] {
            Stmt::Cols(p) => {
                let next = pick(row, p.positions@);
                law_a_row_fits_the_header_that_is_left(
                    header,
                    stmts,
                    rs,
                    k + 1,
                    next,
                    prevs,
                    rownum,
                    results,
                    used,
                    readings,
                );
            },
            Stmt::Select(_) => {
                law_a_row_fits_the_header_that_is_left(
                    header,
                    stmts,
                    rs,
                    k + 1,
                    row,
                    prevs,
                    rownum,
                    results,
                    used,
                    readings,
                );
            },
            Stmt::ToNum(c) => {
                law_to_num_reads_the_named_cells(row, c.positions@, readings);
                if let Ok(next) = with_nums(row, c.positions@, 0, readings) {
                    law_a_row_fits_the_header_that_is_left(
                        header,
                        stmts,
                        rs,
                        k + 1,
                        next,
                        prevs,
                        rownum,
                        results,
                        used,
                        readings,
                    );
                }
            },
            Stmt::ToStr(c) => {
                law_to_str_keeps_how_the_named_cells_are_written(row, c.positions@, 0);
                law_a_row_fits_the_header_that_is_left(
                    header,
                    stmts,
                    rs,
                    k + 1,
                    with_texts(row, c.positions@, 0),
                    prevs,
                    rownum,
                    results,
                    used,
                    readings,
                );
            },
            Stmt::Rename(_) => {
                if let Stmt::Rename(r) = stmts[k] {
                    lemma_renamed_len(h, r.pairs@, r.pairs@.len());
                }
                law_a_row_fits_the_header_that_is_left(
                    header,
                    stmts,
                    rs,
                    k + 1,
                    row,
                    prevs,
                    rownum,
                    results,
                    used,
                    readings,
                );
            },
            Stmt::Add(a) => {
                let at = place_of(rs, k, row, prevs, rownum, results, readings);
                if let Stmt::Add(own) = stmts[k] {
                    let named = named_from(h, own.name@, 0);
                    law_a_name_stands_for_what_it_means(
                        h,
                        own.name@,
                        if named is Some {
                            named->Some_0
                        } else {
                            0
                        },
                    );
                }
                if let Ok((v, n)) = value_of(a.expr, at, used) {
                    law_a_row_fits_the_header_that_is_left(
                        header,
                        stmts,
                        rs,
                        k + 1,
                        with_value(row, a.pos, v),
                        if stateful(rs[k]) {
                            prevs.update(k, Some(row))
                        } else {
                            prevs
                        },
                        rownum,
                        results,
                        n,
                        readings,
                    );
                }
            },
        }
    } else {
        assert(stmts.take(k) =~= stmts);
    }
}

/// A transform leaves rows that fit the header that it leaves.
pub proof fn law_a_transform_keeps_rows_to_the_header(
    header: Seq<Seq<char>>,
    stmts: Seq<Stmt>,
    rs: Seq<Stmt>,
    rows: Seq<Seq<FieldV>>,
    results: Seq<Seq<NumV>>,
    readings: Map<Seq<char>, NumV>,
    n: int,
)
    requires
        0 <= n <= rows.len(),
        stmts_found(header, stmts, rs),
        stmts_header(header, stmts) is Ok,
        all_wide(rows, header.len()),
        forall|i: int|
            0 <= i <= stmts.len() ==> stmts_header(header, #[trigger] stmts.take(i))->Ok_0.len()
                <= usize::MAX,
    ensures
        all_wide(
            pass(rs, rows, results, readings, n).kept,
            stmts_header(header, stmts)->Ok_0.len(),
        ),
    decreases n,
{
    if n > 0 {
        law_a_transform_keeps_rows_to_the_header(header, stmts, rs, rows, results, readings, n - 1);
        let p = pass(rs, rows, results, readings, n - 1);
        if p.stop is None {
            assert(stmts.take(0) =~= seq![]);
            law_a_row_fits_the_header_that_is_left(
                header,
                stmts,
                rs,
                0,
                rows[n - 1],
                p.prevs,
                n as nat,
                results_at(results, n - 1),
                0,
                readings,
            );
            let q = pass(rs, rows, results, readings, n);
            let w = stmts_header(header, stmts)->Ok_0.len();
            assert forall|i: int| 0 <= i < q.kept.len() implies (#[trigger] q.kept[i]).len() == w by {
                if i < p.kept.len() {
                    assert(q.kept[i] == p.kept[i]);
                }
            }
        }
    }
}

proof fn lemma_converted_wide(
    rows: Seq<Seq<FieldV>>,
    positions: Seq<usize>,
    readings: Map<Seq<char>, NumV>,
    n: int,
    w: nat,
)
    requires
        0 <= n <= rows.len(),
        all_wide(rows, w),
        w <= usize::MAX,
        converted(rows, positions, readings, n) is Ok,
    ensures
        converted(rows, positions, readings, n)->Ok_0.len() == n,
        all_wide(converted(rows, positions, readings, n)->Ok_0, w),
    decreases n,
{
    if n > 0 {
        lemma_converted_wide(rows, positions, readings, n - 1, w);
        law_to_num_reads_the_named_cells(rows[n - 1], positions, readings);
        let before = converted(rows, positions, readings, n - 1)->Ok_0;
        let all = converted(rows, positions, readings, n)->Ok_0;
        assert forall|i: int| 0 <= i < all.len() implies (#[trigger] all[i]).len() == w by {
            if i < before.len() {
                assert(all[i] == before[i]);
            }
        }
    }
}

proof fn lemma_deduped_wide(rows: Seq<Seq<FieldV>>, positions: Seq<usize>, n: int, w: nat)
    requires
        0 <= n <= rows.len(),
        all_wide(rows, w),
    ensures
        all_wide(deduped(rows, positions, n), w),
    decreases n,
{
    if n > 0 {
        lemma_deduped_wide(rows, positions, n - 1, w);
    }
}

proof fn lemma_groups_wide(
    keys: Seq<usize>,
    columns: Seq<usize>,
    rows: Seq<Seq<FieldV>>,
    n: int,
)
    requires
        0 <= n <= rows.len(),
    ensures
        forall|g: int|
            0 <= g < groups_of(keys, columns, rows, n).len() ==> (#[trigger] groups_of(
                keys,
                columns,
                rows,
                n,
            )[g]).key.len() == keys.len(),
    decreases n,
{
    if n > 0 {
        lemma_groups_wide(keys, columns, rows, n - 1);
        let was = groups_of(keys, columns, rows, n - 1);
        let gs = groups_of(keys, columns, rows, n);
        let key = pick(rows[n - 1], keys);
        lemma_group_found(was, row_line(key), 0);
        assert(key.len() == keys.len());
        assert forall|g: int| 0 <= g < gs.len() implies (#[trigger] gs[g]).key.len()
            == keys.len() by {
            if g < was.len() {
                assert(gs[g].key == was[g].key);
            }
        }
    }
}

/// Every stage leaves rows that fit the header that it leaves: as many cells as there are
/// names.
pub proof fn law_rows_fit_the_header(
    header: Seq<Seq<char>>,
    stage: Stage,
    found: Stage,
    rows: Seq<Seq<FieldV>>,
    supply: Supply,
    readings: Map<Seq<char>, NumV>,
)
    requires
        stage_header(header, stage) is Ok,
        stage_found(header, stage, found),
        all_wide(rows, header.len()),
        header.len() <= usize::MAX,
        rows.len() <= usize::MAX,
        stage matches Stage::Transform(stmts) ==> forall|i: int|
            0 <= i <= stmts@.len() ==> stmts_header(header, #[trigger] stmts@.take(i))->Ok_0.len()
                <= usize::MAX,
        stage_out(found, rows, supply, readings) is Ok,
    ensures
        all_wide(
            stage_out(found, rows, supply, readings)->Ok_0,
            stage_header(header, stage)->Ok_0.len(),
        ),
{
    let out = stage_out(found, rows, supply, readings)->Ok_0;
    match found {
        Stage::Transform(rs) => {
            if let Stage::Transform(stmts) = stage {
                law_a_transform_keeps_rows_to_the_header(
                    header,
                    stmts@,
                    rs@,
                    rows,
                    results_view(supply.results@),
                    readings,
                    rows.len() as int,
                );
            }
        },
        Stage::Sort(s) => {
            let ps = numeric_keys(s.keys@);
            lemma_converted_wide(rows, ps, readings, rows.len() as int, header.len());
            let c = converted(rows, ps, readings, rows.len() as int)->Ok_0;
            law_a_sort_stage_sorts(s.keys@, c);
            let from = law_sorting_moves_rows_only_where_a_key_asks(
                s.keys@,
                c,
                sorted_of(s.keys@, c),
            );
            assert forall|i: int| 0 <= i < out.len() implies (#[trigger] out[i]).len()
                == header.len() by {
                assert(from[i] < c.len());
                assert(out[i] == c[from[i] as int]);
            }
        },
        Stage::Uniq(u) => {
            lemma_deduped_wide(rows, u.positions@, rows.len() as int, header.len());
        },
        Stage::Group(g) => {
            let columns = agg_columns(g.aggs@, g.aggs@.len() as int);
            lemma_groups_wide(g.key_positions@, columns, rows, rows.len() as int);
        },
        Stage::Join(j) => {
            if let Stage::Join(own) = stage {
                lemma_joined_wide(j, rows, rows_view(supply.right@));
            }
        },
        _ => {},
    }
}

proof fn lemma_joined_wide(
    j: JoinStmt,
    left: Seq<Seq<FieldV>>,
    right: Seq<Seq<FieldV>>,
)
    ensures
        all_wide(
            joined_rows(j, left, right),
            (j.left_ncols + j.right_emit_pos@.len()) as nat,
        ),
{
    law_join_rows_have_one_width(j, left, right);
}

} // verus!
