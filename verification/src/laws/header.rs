//! What column names stand for, and what header the stages leave.

use crate::plan::{
    AddStmt, BoolExpr, Cmp, ColRef, ColorRule, ColorScope, GraphSpec, GroupStmt, JoinStmt, Operand,
    ProjectStmt, SortStmt, Stage, StatsStmt, Stmt, UniqStmt, ValExpr,
};
use crate::resolve::{
    agg_names, bool_found, bool_names, bools_names, col_found, covers, graph_found, join_found,
    kept, key_found, named_from, numbered, operand_found, operand_names, position, renamed,
    right_name, rule_found, rule_names, rules_found, side, stage_found, stage_header, stages_header,
    stmt_found, stmt_header, stmts_header, unknown, val_found,
};
use crate::text::{all_digits, digits_value, texts};
use vstd::prelude::*;

verus! {

/// Whether `i` is the first place of the name in the header.
pub open spec fn first_at(header: Seq<Seq<char>>, name: Seq<char>, i: int) -> bool {
    &&& 0 <= i < header.len()
    &&& header[i] == name
    &&& forall|k: int| 0 <= k < i ==> #[trigger] header[k] != name
}

/// Whether the name means column `i`: it is the first column of that name, or no column
/// has that name and it is the column's number, counted from one.
pub open spec fn means(header: Seq<Seq<char>>, name: Seq<char>, i: int) -> bool {
    first_at(header, name, i) || (!header.contains(name) && 0 <= i < header.len() && all_digits(
        name,
    ) && digits_value(name) == i + 1)
}

proof fn lemma_named(header: Seq<Seq<char>>, name: Seq<char>, k: int)
    requires
        0 <= k <= header.len(),
        forall|j: int| 0 <= j < k ==> #[trigger] header[j] != name,
    ensures
        match named_from(header, name, k) {
            Some(i) => first_at(header, name, i),
            None => !header.contains(name),
        },
    decreases header.len() - k,
{
    if k < header.len() && header[k] != name {
        lemma_named(header, name, k + 1);
    }
}

/// A name stands for a column just when it means it: by its name first, then by its
/// number.
pub proof fn law_a_name_stands_for_what_it_means(header: Seq<Seq<char>>, name: Seq<char>, i: int)
    ensures
        position(header, name) == Some(i) <==> means(header, name, i),
        position(header, name) is None <==> forall|k: int| !#[trigger] means(header, name, k),
        named_from(header, name, 0) == Some(i) <==> first_at(header, name, i),
        named_from(header, name, 0) is None <==> !header.contains(name),
{
    lemma_named(header, name, 0);
    if named_from(header, name, 0) is Some {
        let f = named_from(header, name, 0)->Some_0;
        assert(header.contains(name));
        assert(means(header, name, f));
        if first_at(header, name, i) {
            if i < f {
                assert(header[i] != name);
            }
            if f < i {
                assert(header[f] != name);
            }
        }
    } else {
        assert forall|k: int| !#[trigger] first_at(header, name, k) by {
            if first_at(header, name, k) {
                assert(header[k] == name);
            }
        }
        if position(header, name) is Some {
            assert(means(header, name, position(header, name)->Some_0));
        }
    }
}

/// A number that is written in digits is read digit by digit, ten times what is before.
pub proof fn law_digits_are_read_in_tens(s: Seq<char>, c: char)
    requires
        '0' <= c <= '9',
    ensures
        digits_value(s.push(c)) == 10 * digits_value(s) + (c as int - '0' as int),
        digits_value(seq![]) == 0,
{
    assert(s.push(c).drop_last() =~= s);
}

proof fn lemma_unknown(header: Seq<Seq<char>>, names: Seq<Seq<char>>)
    ensures
        match unknown(header, names) {
            None => forall|i: int|
                0 <= i < names.len() ==> position(header, #[trigger] names[i]) is Some,
            Some(n) => exists|i: int|
                {
                    &&& 0 <= i < names.len()
                    &&& #[trigger] names[i] == n
                    &&& position(header, n) is None
                    &&& forall|k: int|
                        0 <= k < i ==> position(header, #[trigger] names[k]) is Some
                },
        },
    decreases names.len(),
{
    if names.len() > 0 {
        let front = names.drop_last();
        lemma_unknown(header, front);
        assert(forall|i: int| 0 <= i < front.len() ==> #[trigger] front[i] == names[i]);
        match unknown(header, front) {
            None => {
                assert forall|k: int| 0 <= k < names.len() - 1 implies position(
                    header,
                    #[trigger] names[k],
                ) is Some by {
                    assert(front[k] == names[k]);
                }
                if position(header, names.last()) is None {
                    assert(names[names.len() - 1] == names.last());
                }
            },
            Some(n) => {
                let i = choose|i: int|
                    {
                        &&& 0 <= i < front.len()
                        &&& #[trigger] front[i] == n
                        &&& position(header, n) is None
                        &&& forall|k: int|
                            0 <= k < i ==> position(header, #[trigger] front[k]) is Some
                    };
                assert(names[i] == n);
                assert forall|k: int| 0 <= k < i implies position(
                    header,
                    #[trigger] names[k],
                ) is Some by {
                    assert(front[k] == names[k]);
                }
            },
        }
    }
}

/// Whether the name means a column.
pub open spec fn known(header: Seq<Seq<char>>, name: Seq<char>) -> bool {
    exists|p: int| #[trigger] means(header, name, p)
}

/// The first name that means no column is the one that is reported; there is none just
/// when every name means one.
pub proof fn law_the_first_unknown_name_is_reported(header: Seq<Seq<char>>, names: Seq<Seq<char>>)
    ensures
        unknown(header, names) is None <==> forall|i: int|
            0 <= i < names.len() ==> known(header, #[trigger] names[i]),
        unknown(header, names) matches Some(n) ==> exists|i: int|
            {
                &&& 0 <= i < names.len()
                &&& #[trigger] names[i] == n
                &&& !known(header, n)
                &&& forall|k: int| 0 <= k < i ==> known(header, #[trigger] names[k])
            },
{
    lemma_unknown(header, names);
    assert forall|i: int| 0 <= i < names.len() implies (position(header, #[trigger] names[i]) is Some
        <==> known(header, names[i])) by {
        law_a_name_stands_for_what_it_means(header, names[i], 0);
        if position(header, names[i]) is Some {
            let p = position(header, names[i])->Some_0;
            law_a_name_stands_for_what_it_means(header, names[i], p);
            assert(means(header, names[i], p));
        }
    }
    match unknown(header, names) {
        None => {},
        Some(n) => {
            let i = choose|i: int|
                {
                    &&& 0 <= i < names.len()
                    &&& #[trigger] names[i] == n
                    &&& position(header, n) is None
                    &&& forall|k: int|
                        0 <= k < i ==> position(header, #[trigger] names[k]) is Some
                };
            law_a_name_stands_for_what_it_means(header, n, 0);
            assert(names[i] == n);
            assert(position(header, names[i]) is None);
            assert forall|k: int| 0 <= k < i implies known(header, #[trigger] names[k]) by {
                assert(position(header, names[k]) is Some);
            }
        },
    }
}

/// `cols` keeps the columns that its names mean, in the order of the names, in the header
/// as in the rows; where all of them are names of columns, they are the header it leaves.
pub proof fn law_cols_leaves_the_named_columns(
    header: Seq<Seq<char>>,
    p: ProjectStmt,
    q: ProjectStmt,
    left: Seq<Seq<char>>,
)
    requires
        !p.exclude,
        header.len() <= usize::MAX,
        stmt_header(header, Stmt::Cols(p)) == Ok::<
            Seq<Seq<char>>,
            (Seq<Seq<char>>, Seq<char>),
        >(left),
        stmt_found(header, Stmt::Cols(p), Stmt::Cols(q)),
    ensures
        left.len() == q.positions@.len() == p.names@.len(),
        forall|i: int|
            #![trigger left[i]]
            #![trigger q.positions@[i]]
            0 <= i < left.len() ==> {
                &&& means(header, p.names@[i]@, q.positions@[i] as int)
                &&& left[i] == header[q.positions@[i] as int]
                &&& header.contains(p.names@[i]@) ==> left[i] == p.names@[i]@
            },
{
    let names = texts(p.names@);
    lemma_unknown(header, names);
    assert forall|i: int|
        #![trigger left[i]]
        #![trigger q.positions@[i]]
        0 <= i < left.len() implies {
        &&& means(header, p.names@[i]@, q.positions@[i] as int)
        &&& left[i] == header[q.positions@[i] as int]
        &&& header.contains(p.names@[i]@) ==> left[i] == p.names@[i]@
    } by {
        let n = p.names@[i]@;
        assert(names[i] == n);
        assert(position(header, n) is Some);
        let at = position(header, n)->Some_0;
        law_a_name_stands_for_what_it_means(header, n, at);
        assert(0 <= at < header.len());
        assert(q.positions@[i] == at);
    }
}

/// Whether none of the names means column `i`.
pub open spec fn unnamed(header: Seq<Seq<char>>, names: Seq<Seq<char>>, i: int) -> bool {
    forall|k: int| 0 <= k < names.len() ==> !means(header, #[trigger] names[k], i)
}

/// The columns that are kept beside the named ones are all the others, once each and in
/// their order.
pub proof fn law_what_is_not_named_is_kept(
    header: Seq<Seq<char>>,
    names: Seq<Seq<char>>,
    n: nat,
)
    requires
        n <= header.len() <= usize::MAX,
    ensures
        forall|i: int|
            0 <= i < kept(header, names, n).len() ==> #[trigger] kept(header, names, n)[i] < n,
        forall|i: int, k: int|
            0 <= i < k < kept(header, names, n).len() ==> #[trigger] kept(header, names, n)[i]
                < #[trigger] kept(header, names, n)[k],
        forall|c: int|
            0 <= c < n ==> (#[trigger] kept(header, names, n).contains(c as usize) <==> unnamed(
                header,
                names,
                c,
            )),
    decreases n,
{
    if n > 0 {
        let m = (n - 1) as nat;
        law_what_is_not_named_is_kept(header, names, m);
        let before = kept(header, names, m);
        let all = kept(header, names, n);
        assert(covers(header, names, n - 1) <==> !unnamed(header, names, n - 1)) by {
            assert forall|k: int| 0 <= k < names.len() implies (position(
                header,
                #[trigger] names[k],
            ) == Some(n - 1) <==> means(header, names[k], n - 1)) by {
                law_a_name_stands_for_what_it_means(header, names[k], n - 1);
            }
            if covers(header, names, n - 1) {
                let k = choose|k: int|
                    0 <= k < names.len() && position(header, #[trigger] names[k]) == Some(n - 1);
                assert(means(header, names[k], n - 1));
            }
        }
        assert forall|c: int| 0 <= c < n implies (#[trigger] all.contains(c as usize) <==> unnamed(
            header,
            names,
            c,
        )) by {
            if c < m {
                assert(before.contains(c as usize) <==> unnamed(header, names, c));
                if before.contains(c as usize) {
                    let i = before.index_of(c as usize);
                    assert(all[i] == c as usize);
                }
                if all.contains(c as usize) {
                    let i = all.index_of(c as usize);
                    if i == before.len() {
                        assert(all[i] == m as usize);
                    }
                    assert(before[i] == c as usize);
                }
            } else {
                if !covers(header, names, n - 1) {
                    assert(all[before.len() as int] == c as usize);
                } else if before.contains(c as usize) {
                    let i = before.index_of(c as usize);
                    assert(before[i] < m);
                }
            }
        }
    }
}

/// `cols -v` keeps the columns that none of its names means, in the header as in the
/// rows.
pub proof fn law_cols_without_leaves_the_others(
    header: Seq<Seq<char>>,
    p: ProjectStmt,
    q: ProjectStmt,
    left: Seq<Seq<char>>,
)
    requires
        p.exclude,
        header.len() <= usize::MAX,
        stmt_header(header, Stmt::Cols(p)) == Ok::<
            Seq<Seq<char>>,
            (Seq<Seq<char>>, Seq<char>),
        >(left),
        stmt_found(header, Stmt::Cols(p), Stmt::Cols(q)),
    ensures
        left.len() == q.positions@.len(),
        forall|i: int|
            #![trigger left[i]]
            #![trigger q.positions@[i]]
            0 <= i < left.len() ==> q.positions@[i] < header.len() && left[i]
                == header[q.positions@[i] as int],
        forall|i: int, k: int|
            0 <= i < k < left.len() ==> #[trigger] q.positions@[i] < #[trigger] q.positions@[k],
        forall|c: int|
            0 <= c < header.len() ==> (#[trigger] q.positions@.contains(c as usize) <==> unnamed(
                header,
                texts(p.names@),
                c,
            )),
{
    law_what_is_not_named_is_kept(header, texts(p.names@), header.len());
}

/// Whether `to` is the header with that name in place `p`.
pub open spec fn changed_at(
    header: Seq<Seq<char>>,
    to: Seq<Seq<char>>,
    p: int,
    name: Seq<char>,
) -> bool {
    &&& to.len() == header.len()
    &&& 0 <= p < to.len()
    &&& to[p] == name
    &&& forall|c: int| 0 <= c < header.len() && c != p ==> #[trigger] to[c] == header[c]
}

/// A rename gives the first column that its old name means its new name, and leaves the
/// others alone; each is made in the header that those before it leave.
pub proof fn law_a_rename_changes_one_name(
    header: Seq<Seq<char>>,
    pairs: Seq<(String, String)>,
    k: nat,
    h: Seq<Seq<char>>,
)
    requires
        k < pairs.len(),
        renamed(header, pairs, k) == Ok::<Seq<Seq<char>>, (Seq<Seq<char>>, Seq<char>)>(h),
    ensures
        h.len() == header.len(),
        renamed(header, pairs, 0) == Ok::<Seq<Seq<char>>, (Seq<Seq<char>>, Seq<char>)>(header),
        match renamed(header, pairs, k + 1) {
            Ok(to) => exists|p: int|
                {
                    &&& #[trigger] means(h, pairs[k as int].0@, p)
                    &&& changed_at(h, to, p, pairs[k as int].1@)
                },
            Err((at, n)) => at == h && n == pairs[k as int].0@ && forall|p: int|
                !#[trigger] means(h, n, p),
        },
    decreases k,
{
    if k > 0 {
        let b = renamed(header, pairs, (k - 1) as nat);
        assert(b is Ok);
        law_a_rename_changes_one_name(header, pairs, (k - 1) as nat, b->Ok_0);
    }
    let n = pairs[k as int].0@;
    match position(h, n) {
        Some(p) => {
            law_a_name_stands_for_what_it_means(h, n, p);
            let to = h.update(p, pairs[k as int].1@);
            assert(means(h, n, p) && changed_at(h, to, p, pairs[k as int].1@));
        },
        None => {
            law_a_name_stands_for_what_it_means(h, n, 0);
        },
    }
}

/// `add` replaces the first column of its name in place, and else puts a new column of
/// that name behind the others.
pub proof fn law_add_names_its_column(
    header: Seq<Seq<char>>,
    a: AddStmt,
    b: AddStmt,
    left: Seq<Seq<char>>,
)
    requires
        header.len() <= usize::MAX,
        stmt_header(header, Stmt::Add(a)) == Ok::<
            Seq<Seq<char>>,
            (Seq<Seq<char>>, Seq<char>),
        >(left),
        stmt_found(header, Stmt::Add(a), Stmt::Add(b)),
    ensures
        match b.pos {
            Some(p) => left == header && first_at(header, a.name@, p as int),
            None => {
                &&& !header.contains(a.name@)
                &&& left.len() == header.len() + 1
                &&& left[header.len() as int] == a.name@
                &&& forall|c: int| 0 <= c < header.len() ==> #[trigger] left[c] == header[c]
            },
        },
{
    lemma_named(header, a.name@, 0);
}

/// The other statements leave the header as it is.
pub proof fn law_other_statements_leave_the_header(
    header: Seq<Seq<char>>,
    s: Stmt,
    left: Seq<Seq<char>>,
)
    requires
        s is Select || s is ToNum || s is ToStr,
        stmt_header(header, s) == Ok::<Seq<Seq<char>>, (Seq<Seq<char>>, Seq<char>)>(left),
    ensures
        left == header,
{
}

/// The stages that keep, drop or order rows leave the header as it is; `stats` leaves
/// that of a profile.
pub proof fn law_stages_of_rows_leave_the_header(
    header: Seq<Seq<char>>,
    s: Stage,
    left: Seq<Seq<char>>,
)
    requires
        stage_header(header, s) == Ok::<Seq<Seq<char>>, (Seq<Seq<char>>, Seq<char>)>(left),
    ensures
        s is Sort || s is Head || s is Tail || s is DropLast || s is Uniq ==> left == header,
        s is Stats ==> left == seq![
            "field"@,
            "count"@,
            "empty"@,
            "min"@,
            "max"@,
            "sum"@,
            "mean"@,
            "stddev"@,
        ],
{
}

/// `group` with `agg` leaves the columns that its keys mean, then one for each aggregate
/// under the aggregate's name.
pub proof fn law_group_leaves_its_keys_and_aggregates(
    header: Seq<Seq<char>>,
    g: GroupStmt,
    f: GroupStmt,
    left: Seq<Seq<char>>,
)
    requires
        header.len() <= usize::MAX,
        stage_header(header, Stage::Group(g)) == Ok::<
            Seq<Seq<char>>,
            (Seq<Seq<char>>, Seq<char>),
        >(left),
        stage_found(header, Stage::Group(g), Stage::Group(f)),
    ensures
        left.len() == g.keys@.len() + g.aggs@.len(),
        f.key_positions@.len() == g.keys@.len(),
        forall|i: int|
            #![trigger f.key_positions@[i]]
            0 <= i < g.keys@.len() ==> {
                &&& means(header, g.keys@[i]@, f.key_positions@[i] as int)
                &&& left[i] == header[f.key_positions@[i] as int]
            },
        forall|a: int|
            #![trigger g.aggs@[a]]
            0 <= a < g.aggs@.len() ==> {
                &&& left[g.keys@.len() + a] == g.aggs@[a].name@
                &&& f.aggs@[a].func == g.aggs@[a].func
                &&& match g.aggs@[a].col {
                    Some(c) => f.aggs@[a].pos matches Some(p) && means(header, c@, p as int),
                    None => f.aggs@[a].pos is None,
                }
            },
{
    let names = texts(g.keys@) + crate::resolve::agg_cols(g.aggs@);
    lemma_unknown(header, names);
    assert forall|i: int|
        #![trigger f.key_positions@[i]]
        0 <= i < g.keys@.len() implies {
        &&& means(header, g.keys@[i]@, f.key_positions@[i] as int)
        &&& left[i] == header[f.key_positions@[i] as int]
    } by {
        let n = g.keys@[i]@;
        assert(names[i] == n);
        assert(position(header, n) is Some);
        let at = position(header, n)->Some_0;
        law_a_name_stands_for_what_it_means(header, n, at);
        assert(f.key_positions@[i] == at);
    }
    assert forall|a: int|
        #![trigger g.aggs@[a]]
        0 <= a < g.aggs@.len() implies {
        &&& left[g.keys@.len() + a] == g.aggs@[a].name@
        &&& f.aggs@[a].func == g.aggs@[a].func
        &&& match g.aggs@[a].col {
            Some(c) => f.aggs@[a].pos matches Some(p) && means(header, c@, p as int),
            None => f.aggs@[a].pos is None,
        }
    } by {
        assert(left[g.keys@.len() + a] == agg_names(g.aggs@)[a]);
        assert(crate::resolve::agg_found(header, g.aggs@[a], f.aggs@[a]));
        if let Some(c) = g.aggs@[a].col {
            law_a_name_stands_for_what_it_means(
                header,
                c@,
                f.aggs@[a].pos->Some_0 as int,
            );
        }
    }
}

/// A join leaves the left columns, then the right ones that are no keys, under their own
/// names, with `_r` behind a name that a left column has; and it takes those columns'
/// cells. Its keys are what the names on either side mean.
pub proof fn law_a_join_leaves_both_sides(
    header: Seq<Seq<char>>,
    j: JoinStmt,
    r: JoinStmt,
    left: Seq<Seq<char>>,
)
    requires
        header.len() <= usize::MAX,
        j.right_header@.len() <= usize::MAX,
        stage_header(header, Stage::Join(j)) == Ok::<
            Seq<Seq<char>>,
            (Seq<Seq<char>>, Seq<char>),
        >(left),
        join_found(header, j, r),
    ensures
        ({
            let right = texts(j.right_header@);
            &&& r.join_type == j.join_type
            &&& r.left_ncols == header.len()
            &&& left.len() == header.len() + r.right_emit_pos@.len()
            &&& forall|c: int| 0 <= c < header.len() ==> #[trigger] left[c] == header[c]
            &&& forall|e: int|
                #![trigger r.right_emit_pos@[e]]
                0 <= e < r.right_emit_pos@.len() ==> {
                    let p = r.right_emit_pos@[e] as int;
                    &&& p < right.len()
                    &&& left[header.len() + e] == if header.contains(right[p]) {
                        right[p] + seq!['_', 'r']
                    } else {
                        right[p]
                    }
                }
            &&& forall|e: int, f: int|
                0 <= e < f < r.right_emit_pos@.len() ==> #[trigger] r.right_emit_pos@[e]
                    < #[trigger] r.right_emit_pos@[f]
            &&& forall|c: int|
                0 <= c < right.len() ==> (#[trigger] r.right_emit_pos@.contains(c as usize)
                    <==> unnamed(right, side(j.keys@, true), c))
            &&& r.left_key_pos@.len() == r.right_key_pos@.len() == j.keys@.len()
            &&& forall|k: int|
                #![trigger j.keys@[k]]
                0 <= k < j.keys@.len() ==> {
                    &&& means(header, j.keys@[k].0@, r.left_key_pos@[k] as int)
                    &&& means(right, j.keys@[k].1@, r.right_key_pos@[k] as int)
                }
        }),
{
    let right = texts(j.right_header@);
    let (ln, rn) = (side(j.keys@, false), side(j.keys@, true));
    lemma_unknown(header, ln);
    lemma_unknown(right, rn);
    law_what_is_not_named_is_kept(right, rn, right.len());
    reveal_strlit("_r");
    assert("_r"@ =~= seq!['_', 'r']);
    assert forall|e: int|
        #![trigger r.right_emit_pos@[e]]
        0 <= e < r.right_emit_pos@.len() implies {
        let p = r.right_emit_pos@[e] as int;
        &&& p < right.len()
        &&& left[header.len() + e] == if header.contains(right[p]) {
            right[p] + seq!['_', 'r']
        } else {
            right[p]
        }
    } by {
        let p = r.right_emit_pos@[e] as int;
        assert(left[header.len() + e] == right_name(header, right[p]));
    }
    assert forall|k: int|
        #![trigger j.keys@[k]]
        0 <= k < j.keys@.len() implies {
        &&& means(header, j.keys@[k].0@, r.left_key_pos@[k] as int)
        &&& means(right, j.keys@[k].1@, r.right_key_pos@[k] as int)
    } by {
        let (a, b) = (j.keys@[k].0@, j.keys@[k].1@);
        assert(ln[k] == a && rn[k] == b);
        assert(position(header, a) is Some);
        assert(position(right, b) is Some);
        law_a_name_stands_for_what_it_means(header, a, position(header, a)->Some_0);
        law_a_name_stands_for_what_it_means(right, b, position(right, b)->Some_0);
    }
}

/// Stages, and the statements of one, are resolved one behind the other: each in the
/// header that those before it leave.
pub proof fn law_headers_are_left_in_turn(
    header: Seq<Seq<char>>,
    stages: Seq<Stage>,
    stmts: Seq<Stmt>,
    k: int,
)
    requires
        stmts.len() > 0,
        stages.len() > 0,
    ensures
        stages_header(header, seq![]) == Ok::<Seq<Seq<char>>, (Seq<Seq<char>>, Seq<char>)>(header),
        stmts_header(header, seq![]) == Ok::<Seq<Seq<char>>, (Seq<Seq<char>>, Seq<char>)>(header),
        stages_header(header, stages.take(stages.len() - 1)) matches Ok(h) ==> stages_header(
            header,
            stages,
        ) == stage_header(h, stages[stages.len() - 1]),
        stmts_header(header, stmts.take(stmts.len() - 1)) matches Ok(h) ==> stmts_header(
            header,
            stmts,
        ) == stmt_header(h, stmts[stmts.len() - 1]),
{
    assert(stages.take(stages.len() - 1) =~= stages.drop_last());
    assert(stmts.take(stmts.len() - 1) =~= stmts.drop_last());
}

/// What is found for a column is the one that its name means.
pub proof fn law_columns_are_found_where_their_names_mean(
    header: Seq<Seq<char>>,
    c: ColRef,
    d: ColRef,
    o: Operand,
    r: Operand,
)
    ensures
        col_found(header, c, d) <==> d.name@ == c.name@ && means(header, c.name@, d.pos as int),
        operand_found(header, o, r) && o is Col ==> r is Col && means(
            header,
            o->Col_0.name@,
            r->Col_0.pos as int,
        ),
        operand_found(header, o, r) && o is Str ==> r is Str && r->Str_0@ == o->Str_0@,
        operand_found(header, o, r) && o is Num ==> r is Num && r->Num_0@ == o->Num_0@,
{
    law_a_name_stands_for_what_it_means(header, c.name@, d.pos as int);
    if operand_found(header, o, r) && o is Col {
        law_a_name_stands_for_what_it_means(header, o->Col_0.name@, r->Col_0.pos as int);
    }
}

/// A sort key keeps its direction and its kind and is found where its name means.
pub proof fn law_sort_keys_are_found_as_they_are(
    header: Seq<Seq<char>>,
    s: SortStmt,
    t: SortStmt,
    i: int,
)
    requires
        stage_found(header, Stage::Sort(s), Stage::Sort(t)),
        0 <= i < s.keys@.len(),
    ensures
        t.keys@.len() == s.keys@.len(),
        t.keys@[i].descending == s.keys@[i].descending,
        t.keys@[i].numeric == s.keys@[i].numeric,
        means(header, s.keys@[i].name@, t.keys@[i].pos as int),
{
    assert(key_found(header, s.keys@[i], t.keys@[i]));
    law_a_name_stands_for_what_it_means(header, s.keys@[i].name@, t.keys@[i].pos as int);
}

/// `uniq` and `stats` look at the columns that they name, in order; `stats` without names
/// at all of them.
pub proof fn law_uniq_and_stats_find_their_columns(
    header: Seq<Seq<char>>,
    u: UniqStmt,
    v: UniqStmt,
    s: StatsStmt,
    t: StatsStmt,
    i: int,
)
    requires
        header.len() <= usize::MAX,
        stage_header(header, Stage::Uniq(u)) is Ok,
        stage_found(header, Stage::Uniq(u), Stage::Uniq(v)),
        stage_header(header, Stage::Stats(s)) is Ok,
        stage_found(header, Stage::Stats(s), Stage::Stats(t)),
    ensures
        v.positions@.len() == u.cols@.len(),
        0 <= i < u.cols@.len() ==> means(header, u.cols@[i]@, v.positions@[i] as int),
        s.names@.len() > 0 ==> t.positions@.len() == s.names@.len(),
        s.names@.len() > 0 && 0 <= i < s.names@.len() ==> means(
            header,
            s.names@[i]@,
            t.positions@[i] as int,
        ),
        s.names@.len() == 0 ==> t.positions@.len() == header.len() && (0 <= i < header.len()
            ==> t.positions@[i] == i),
        t.names@.len() == t.positions@.len(),
        0 <= i < t.names@.len() ==> t.names@[i]@ == header[t.positions@[i] as int],
{
    let (a, b) = (texts(u.cols@), texts(s.names@));
    lemma_unknown(header, a);
    lemma_unknown(header, b);
    if 0 <= i < u.cols@.len() {
        let n = u.cols@[i]@;
        assert(a[i] == n);
        assert(position(header, n) is Some);
        law_a_name_stands_for_what_it_means(header, n, position(header, n)->Some_0);
    }
    if 0 <= i < s.names@.len() {
        let n = s.names@[i]@;
        assert(b[i] == n);
        assert(position(header, n) is Some);
        law_a_name_stands_for_what_it_means(header, n, position(header, n)->Some_0);
    }
    assert(texts(t.names@).len() == t.names@.len());
    if 0 <= i < t.names@.len() {
        assert(texts(t.names@)[i] == t.names@[i]@);
    }
}

/// The colour rules that are kept are those whose columns the output has, in order.
pub proof fn law_rules_on_missing_columns_are_left_out(
    header: Seq<Seq<char>>,
    rules: Seq<ColorRule>,
    rs: Seq<ColorRule>,
) -> (from: Seq<int>)
    requires
        rules_found(header, rules, rs),
    ensures
        from.len() == rs.len(),
        forall|i: int|
            0 <= i < from.len() ==> 0 <= #[trigger] from[i] < rules.len() && rule_found(
                header,
                rules[from[i]],
                rs[i],
            ),
        forall|i: int, k: int| 0 <= i < k < from.len() ==> #[trigger] from[i] < #[trigger] from[k],
        forall|k: int|
            0 <= k < rules.len() ==> (#[trigger] from.contains(k) <==> unknown(
                header,
                rule_names(rules[k]),
            ) is None),
    decreases rules.len(),
{
    if rules.len() == 0 {
        Seq::empty()
    } else {
        let front = rules.drop_last();
        let n = rules.len() - 1;
        if unknown(header, rule_names(rules.last())) is None {
            let before = law_rules_on_missing_columns_are_left_out(header, front, rs.drop_last());
            let from = before.push(n);
            assert forall|i: int| 0 <= i < from.len() implies 0 <= #[trigger] from[i] < rules.len()
                && rule_found(header, rules[from[i]], rs[i]) by {
                if i < before.len() {
                    assert(from[i] == before[i]);
                    assert(front[before[i]] == rules[before[i]]);
                    assert(rs.drop_last()[i] == rs[i]);
                }
            }
            assert forall|k: int| 0 <= k < rules.len() implies (#[trigger] from.contains(k)
                <==> unknown(header, rule_names(rules[k])) is None) by {
                if k == n {
                    assert(from[before.len() as int] == k);
                } else {
                    assert(front[k] == rules[k]);
                    assert(before.contains(k) <==> unknown(header, rule_names(front[k])) is None);
                    if before.contains(k) {
                        let i = before.index_of(k);
                        assert(from[i] == k);
                    }
                    if from.contains(k) {
                        let i = from.index_of(k);
                        assert(before[i] == k);
                    }
                }
            }
            from
        } else {
            let before = law_rules_on_missing_columns_are_left_out(header, front, rs);
            assert forall|i: int| 0 <= i < before.len() implies 0 <= #[trigger] before[i]
                < rules.len() && rule_found(header, rules[before[i]], rs[i]) by {
                assert(front[before[i]] == rules[before[i]]);
            }
            assert forall|k: int| 0 <= k < rules.len() implies (#[trigger] before.contains(k)
                <==> unknown(header, rule_names(rules[k])) is None) by {
                if k < n {
                    assert(front[k] == rules[k]);
                    assert(before.contains(k) <==> unknown(header, rule_names(front[k])) is None);
                } else if before.contains(k) {
                    let i = before.index_of(k);
                    assert(before[i] < front.len());
                }
            }
            before
        }
    }
}

/// A condition whose columns are found is otherwise as it was: its operators, its sides
/// and its parts in their order, and what it looks for.
pub proof fn law_conditions_are_found_as_they_are(
    header: Seq<Seq<char>>,
    e: BoolExpr,
    r: BoolExpr,
)
    requires
        bool_found(header, e, r),
    ensures
        match (e, r) {
            (BoolExpr::And(a), BoolExpr::And(b)) => a@.len() == b@.len() && forall|i: int|
                0 <= i < a@.len() ==> bool_found(header, #[trigger] a@[i], b@[i]),
            (BoolExpr::Or(a), BoolExpr::Or(b)) => a@.len() == b@.len() && forall|i: int|
                0 <= i < a@.len() ==> bool_found(header, #[trigger] a@[i], b@[i]),
            (BoolExpr::Not(a), BoolExpr::Not(b)) => bool_found(header, *a, *b),
            (BoolExpr::Cmp(a), BoolExpr::Cmp(b)) => {
                &&& a.op == b.op
                &&& a.numeric == b.numeric
                &&& operand_found(header, a.lhs, b.lhs)
                &&& operand_found(header, a.rhs, b.rhs)
            },
            (
                BoolExpr::Match { col, pattern, negate },
                BoolExpr::Match { col: c, pattern: p, negate: n },
            ) => means(header, col.name@, c.pos as int) && p@ == pattern@ && n == negate,
            (
                BoolExpr::Affix { col, needle, kind },
                BoolExpr::Affix { col: c, needle: n, kind: k },
            ) => means(header, col.name@, c.pos as int) && n@ == needle@ && k == kind,
            _ => false,
        },
{
    match (e, r) {
        (BoolExpr::Match { col, .. }, BoolExpr::Match { col: c, .. }) => {
            law_a_name_stands_for_what_it_means(header, col.name@, c.pos as int);
        },
        (BoolExpr::Affix { col, .. }, BoolExpr::Affix { col: c, .. }) => {
            law_a_name_stands_for_what_it_means(header, col.name@, c.pos as int);
        },
        _ => {},
    }
}

/// A value whose columns are found is otherwise as it was: its operators, its sides and
/// its parts in their order, and its branches.
pub proof fn law_values_are_found_as_they_are(header: Seq<Seq<char>>, e: ValExpr, r: ValExpr)
    requires
        val_found(header, e, r),
    ensures
        match (e, r) {
            (ValExpr::Col(a), ValExpr::Col(b)) => means(header, a.name@, b.pos as int),
            (ValExpr::Prev(a), ValExpr::Prev(b)) => means(header, a.name@, b.pos as int),
            (ValExpr::Num(a), ValExpr::Num(b)) => a@ == b@,
            (ValExpr::Str(a), ValExpr::Str(b)) => a@ == b@,
            (ValExpr::Rownum, ValExpr::Rownum) => true,
            (ValExpr::Neg(a), ValExpr::Neg(b)) => val_found(header, *a, *b),
            (ValExpr::Arith { op, lhs, rhs }, ValExpr::Arith { op: o, lhs: a, rhs: b }) => {
                &&& o == op
                &&& val_found(header, *lhs, *a)
                &&& val_found(header, *rhs, *b)
            },
            (ValExpr::Concat(a), ValExpr::Concat(b)) => a@.len() == b@.len() && forall|i: int|
                0 <= i < a@.len() ==> val_found(header, #[trigger] a@[i], b@[i]),
            (ValExpr::Func(f, a), ValExpr::Func(g, b)) => f == g && a@.len() == b@.len() && forall|
                i: int,
            |
                0 <= i < a@.len() ==> val_found(header, #[trigger] a@[i], b@[i]),
            (ValExpr::Bool(a), ValExpr::Bool(b)) => bool_found(header, *a, *b),
            (
                ValExpr::Cond { test, then_, else_ },
                ValExpr::Cond { test: t, then_: a, else_: b },
            ) => {
                &&& bool_found(header, *test, *t)
                &&& val_found(header, *then_, *a)
                &&& val_found(header, *else_, *b)
            },
            _ => false,
        },
{
    match (e, r) {
        (ValExpr::Col(a), ValExpr::Col(b)) => {
            law_a_name_stands_for_what_it_means(header, a.name@, b.pos as int);
        },
        (ValExpr::Prev(a), ValExpr::Prev(b)) => {
            law_a_name_stands_for_what_it_means(header, a.name@, b.pos as int);
        },
        _ => {},
    }
}

/// A colour rule whose columns are found is otherwise as it was: its scope, its style,
/// its ramp and its bounds.
pub proof fn law_rules_are_found_as_they_are(
    header: Seq<Seq<char>>,
    rule: ColorRule,
    r: ColorRule,
)
    requires
        rule_found(header, rule, r),
    ensures
        match (rule, r) {
            (
                ColorRule::Predicate { scope, style, expr },
                ColorRule::Predicate { scope: s, style: t, expr: e },
            ) => {
                &&& t == style
                &&& bool_found(header, expr, e)
                &&& match (scope, s) {
                    (ColorScope::Row, ColorScope::Row) => true,
                    (ColorScope::Cell(a), ColorScope::Cell(b)) => means(
                        header,
                        a.name@,
                        b.pos as int,
                    ),
                    _ => false,
                }
            },
            (
                ColorRule::Gradient { col, ramp, bounds },
                ColorRule::Gradient { col: c, ramp: p, bounds: b },
            ) => means(header, col.name@, c.pos as int) && p == ramp && b == bounds,
            _ => false,
        },
{
    match (rule, r) {
        (ColorRule::Predicate { scope, .. }, ColorRule::Predicate { scope: s, .. }) => {
            if let (ColorScope::Cell(a), ColorScope::Cell(b)) = (scope, s) {
                law_a_name_stands_for_what_it_means(header, a.name@, b.pos as int);
            }
        },
        (ColorRule::Gradient { col, .. }, ColorRule::Gradient { col: c, .. }) => {
            law_a_name_stands_for_what_it_means(header, col.name@, c.pos as int);
        },
        _ => {},
    }
}

/// The names that a list of conditions looks up are those of each, in order.
pub proof fn law_names_are_looked_up_in_order(es: Seq<BoolExpr>, e: BoolExpr, c: Cmp)
    ensures
        bools_names(seq![]) == Seq::<Seq<char>>::empty(),
        bools_names(es.push(e)) == bools_names(es) + bool_names(e),
        bool_names(BoolExpr::Cmp(c)) == operand_names(c.lhs) + operand_names(c.rhs),
        bool_names(BoolExpr::Not(Box::new(e))) == bool_names(e),
        c.lhs matches Operand::Col(col) ==> operand_names(c.lhs) == seq![col.name@],
        !(c.lhs is Col) ==> operand_names(c.lhs).len() == 0,
{
    assert(es.push(e).subrange(0, es.push(e).len() - 1) =~= es);
}

/// A chart whose columns are found has them in their order, and is otherwise as it was.
pub proof fn law_charts_are_found_as_they_are(
    header: Seq<Seq<char>>,
    g: GraphSpec,
    f: GraphSpec,
    i: int,
)
    requires
        graph_found(header, Some(g), Some(f)),
    ensures
        f.kind == g.kind,
        f.cols@.len() == g.cols@.len(),
        0 <= i < g.cols@.len() ==> means(header, g.cols@[i].name@, f.cols@[i].pos as int)
            && f.cols@[i].name@ == g.cols@[i].name@,
        f.opts.title == g.opts.title,
        f.opts.bins == g.opts.bins,
        f.opts.scale == g.opts.scale,
        f.opts.svg == g.opts.svg,
        f.opts.data == g.opts.data,
        f.opts.log == g.opts.log,
        f.opts.xrange == g.opts.xrange,
        f.opts.yrange == g.opts.yrange,
        g.opts.color_by is Some <==> f.opts.color_by is Some,
        g.opts.color_by matches Some(c) ==> means(
            header,
            c.name@,
            f.opts.color_by->Some_0.pos as int,
        ),
{
    if 0 <= i < g.cols@.len() {
        assert(col_found(header, g.cols@[i], f.cols@[i]));
        law_a_name_stands_for_what_it_means(header, g.cols@[i].name@, f.cols@[i].pos as int);
    }
    if let Some(c) = g.opts.color_by {
        law_a_name_stands_for_what_it_means(
            header,
            c.name@,
            f.opts.color_by->Some_0.pos as int,
        );
    }
}

/// `cols -v` passes over a name that there is no column of, but not over a number.
pub proof fn law_cols_without_passes_over_unknown_names(header: Seq<Seq<char>>, p: ProjectStmt)
    requires
        p.exclude,
    ensures
        stmt_header(header, Stmt::Cols(p)) is Ok <==> forall|i: int|
            0 <= i < p.names@.len() && all_digits((#[trigger] p.names@[i])@) ==> known(
                header,
                p.names@[i]@,
            ),
{
    let names = texts(p.names@);
    law_the_first_unknown_name_is_reported(header, numbered(names));
    lemma_numbered(names);
    let ns = numbered(names);
    if stmt_header(header, Stmt::Cols(p)) is Ok {
        assert forall|i: int|
            0 <= i < p.names@.len() && all_digits((#[trigger] p.names@[i])@) implies known(
            header,
            p.names@[i]@,
        ) by {
            assert(names[i] == p.names@[i]@);
            assert(names.contains(names[i]));
            assert(ns.contains(names[i]));
            let k = ns.index_of(names[i]);
            assert(known(header, ns[k]));
        }
    } else {
        let k = choose|k: int| 0 <= k < ns.len() && !known(header, #[trigger] ns[k]);
        assert(ns.contains(ns[k]));
        assert(names.contains(ns[k]) && all_digits(ns[k]));
        let i = names.index_of(ns[k]);
        assert(names[i] == p.names@[i]@);
    }
}

proof fn lemma_numbered(names: Seq<Seq<char>>)
    ensures
        forall|n: Seq<char>| #[trigger]
            numbered(names).contains(n) <==> names.contains(n) && all_digits(n),
    decreases names.len(),
{
    if names.len() > 0 {
        let front = names.drop_last();
        lemma_numbered(front);
        let (a, b) = (numbered(front), numbered(names));
        assert forall|n: Seq<char>| #[trigger] b.contains(n) <==> names.contains(n) && all_digits(
            n,
        ) by {
            assert(a.contains(n) <==> front.contains(n) && all_digits(n));
            if names.contains(n) && all_digits(n) {
                let i = names.index_of(n);
                if i < front.len() {
                    assert(front[i] == n);
                    let k = a.index_of(n);
                    assert(b[k] == n);
                } else {
                    assert(b[a.len() as int] == n);
                }
            }
            if b.contains(n) {
                let k = b.index_of(n);
                if k < a.len() {
                    assert(a[k] == n);
                    let i = front.index_of(n);
                    assert(names[i] == n);
                } else {
                    assert(names[names.len() - 1] == n);
                }
            }
        }
    }
}

} // verus!
