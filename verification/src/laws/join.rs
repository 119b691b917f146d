//! What `join` gives: which rows it brings together, and what stands in them.

use crate::csv::{encodable_row, encoded_cell, law_lines_tell_rows_apart, row_line};
use crate::field::{FieldV, cell_or_empty, pick, row_texts};
use crate::join::{
    coalesced, combined, join_key, joined_rows, key_among, key_pairs, left_part, left_parts,
    matches_of, right_only, right_parts,
};
use crate::plan::{JoinStmt, JoinType};
use vstd::prelude::*;

verus! {

/// The text of a row's cell, none where the row is too short.
pub open spec fn text_at(row: Seq<FieldV>, p: usize) -> Seq<char> {
    if p < row.len() {
        row[p as int].text()
    } else {
        Seq::empty()
    }
}

/// Whether two rows have the same texts in the columns of the one and of the other.
pub open spec fn agree(a: Seq<FieldV>, ap: Seq<usize>, b: Seq<FieldV>, bp: Seq<usize>) -> bool {
    &&& ap.len() == bp.len()
    &&& forall|k: int|
        #![trigger ap[k]]
        #![trigger bp[k]]
        0 <= k < ap.len() ==> text_at(a, ap[k]) == text_at(b, bp[k])
}

/// Two lines of CSV are the same just when the texts of their cells are.
pub proof fn law_lines_are_the_same_where_the_texts_are(a: Seq<FieldV>, b: Seq<FieldV>)
    requires
        encodable_row(a),
        encodable_row(b),
    ensures
        row_line(a) == row_line(b) <==> row_texts(a) == row_texts(b),
{
    if row_line(a) == row_line(b) {
        law_lines_tell_rows_apart(a, b);
    }
    if row_texts(a) == row_texts(b) {
        let x = a.map_values(|f: FieldV| encoded_cell(f));
        let y = b.map_values(|f: FieldV| encoded_cell(f));
        assert(a.len() == row_texts(a).len());
        assert(b.len() == row_texts(b).len());
        assert forall|i: int| 0 <= i < a.len() implies x[i] == y[i] by {
            assert(row_texts(a)[i] == a[i].text());
            assert(row_texts(b)[i] == b[i].text());
        }
        assert(x =~= y);
    }
}

/// Two rows have the same line of cells just when they agree in every one of the
/// columns.
pub proof fn law_picked_lines_agree_in_every_column(
    a: Seq<FieldV>,
    ap: Seq<usize>,
    b: Seq<FieldV>,
    bp: Seq<usize>,
)
    requires
        encodable_row(pick(a, ap)),
        encodable_row(pick(b, bp)),
    ensures
        row_line(pick(a, ap)) == row_line(pick(b, bp)) <==> agree(a, ap, b, bp),
{
    let (x, y) = (row_texts(pick(a, ap)), row_texts(pick(b, bp)));
    law_lines_are_the_same_where_the_texts_are(pick(a, ap), pick(b, bp));
    assert(x.len() == ap.len() && y.len() == bp.len());
    assert forall|k: int| 0 <= k < ap.len() implies #[trigger] x[k] == text_at(a, ap[k]) by {
        assert(pick(a, ap)[k] == cell_or_empty(a, ap[k] as int));
    }
    assert forall|k: int| 0 <= k < bp.len() implies #[trigger] y[k] == text_at(b, bp[k]) by {
        assert(pick(b, bp)[k] == cell_or_empty(b, bp[k] as int));
    }
    if x == y {
        assert forall|k: int| 0 <= k < ap.len() implies text_at(a, ap[k]) == text_at(b, bp[k]) by {
            assert(x[k] == y[k]);
        }
    }
    if agree(a, ap, b, bp) {
        assert forall|k: int| 0 <= k < x.len() implies x[k] == y[k] by {
            assert(text_at(a, ap[k]) == text_at(b, bp[k]));
        }
        assert(x =~= y);
    }
}

/// A left row and a right row have the same key just when their cells' texts are equal
/// at every pair of key columns.
pub proof fn law_rows_join_on_every_key_column(
    l: Seq<FieldV>,
    lp: Seq<usize>,
    r: Seq<FieldV>,
    rp: Seq<usize>,
)
    requires
        encodable_row(pick(l, lp)),
        encodable_row(pick(r, rp)),
    ensures
        join_key(l, lp) == join_key(r, rp) <==> agree(l, lp, r, rp),
{
    law_picked_lines_agree_in_every_column(l, lp, r, rp);
}

/// Which left row and which right row a joined row is made of.
pub struct Origin {
    pub left: Option<int>,
    pub right: Option<int>,
}

/// Whether what is made of `a` stands above what is made of `b`: by the left row, then
/// by the right one, and what has no left row at the end.
pub open spec fn above(a: Origin, b: Origin) -> bool {
    match (a.left, b.left) {
        (Some(l), Some(m)) => l < m || (l == m && a.right is Some && b.right is Some
            && a.right->Some_0 < b.right->Some_0),
        (Some(_), None) => true,
        (None, Some(_)) => false,
        (None, None) => a.right is Some && b.right is Some && a.right->Some_0 < b.right->Some_0,
    }
}

/// Whether a left and a right row agree in the key columns.
pub open spec fn pairs_up(j: JoinStmt, l: Seq<FieldV>, r: Seq<FieldV>) -> bool {
    agree(l, j.left_key_pos@, r, j.right_key_pos@)
}

/// Whether the join asks for what is made so: a pair that agrees, a left row that
/// agrees with no right one where such rows are kept, or a right row that agrees with
/// no left one where those are.
pub open spec fn asked_for(
    j: JoinStmt,
    left: Seq<Seq<FieldV>>,
    right: Seq<Seq<FieldV>>,
    o: Origin,
) -> bool {
    match (o.left, o.right) {
        (Some(l), Some(r)) => 0 <= l < left.len() && 0 <= r < right.len() && pairs_up(
            j,
            left[l],
            right[r],
        ),
        (Some(l), None) => {
            &&& 0 <= l < left.len()
            &&& j.join_type is Left || j.join_type is Full
            &&& forall|r: int| 0 <= r < right.len() ==> !pairs_up(j, left[l], #[trigger] right[r])
        },
        (None, Some(r)) => {
            &&& 0 <= r < right.len()
            &&& j.join_type is Right || j.join_type is Full
            &&& forall|l: int| 0 <= l < left.len() ==> !pairs_up(j, #[trigger] left[l], right[r])
        },
        (None, None) => false,
    }
}

/// Whether `k` is the last key column that stands at `p` on the left.
pub open spec fn last_key_at(j: JoinStmt, p: int, k: int) -> bool {
    &&& 0 <= k < j.left_key_pos@.len()
    &&& j.left_key_pos@[k] == p
    &&& forall|m: int| k < m < j.left_key_pos@.len() ==> #[trigger] j.left_key_pos@[m] != p
}

/// Whether the row is made of those two: the left cells, or, where there is no left
/// row, the key cells of the right one and nothing else; then the cells that the right
/// side adds, empty ones where there is no right row.
pub open spec fn made_of(
    j: JoinStmt,
    row: Seq<FieldV>,
    left: Option<Seq<FieldV>>,
    right: Option<Seq<FieldV>>,
) -> bool {
    &&& row.len() == j.left_ncols + j.right_emit_pos@.len()
    &&& left matches Some(l) ==> forall|p: int|
        0 <= p < j.left_ncols ==> #[trigger] row[p] == cell_or_empty(l, p)
    &&& (left is None && right is Some) ==> forall|p: int, k: int|
        0 <= p < j.left_ncols && #[trigger] last_key_at(j, p, k) ==> row[p] == cell_or_empty(
            right->Some_0,
            j.right_key_pos@[k] as int,
        )
    &&& left is None ==> forall|p: int|
        0 <= p < j.left_ncols && !j.left_key_pos@.contains(p as usize) ==> #[trigger] row[p]
            == FieldV::Str(seq![])
    &&& forall|e: int|
        0 <= e < j.right_emit_pos@.len() ==> row[#[trigger] added(j, e)] == match right {
            Some(r) => cell_or_empty(r, j.right_emit_pos@[e] as int),
            None => FieldV::Str(seq![]),
        }
}

/// Where the `e`-th cell that the right side adds stands.
pub open spec fn added(j: JoinStmt, e: int) -> int {
    j.left_ncols + e
}

/// Whether what has been joined comes from those rows.
pub open spec fn comes_from(
    j: JoinStmt,
    left: Seq<Seq<FieldV>>,
    right: Seq<Seq<FieldV>>,
    out: Seq<Seq<FieldV>>,
    from: Seq<Origin>,
) -> bool {
    &&& from.len() == out.len()
    &&& forall|i: int|
        0 <= i < out.len() ==> asked_for(j, left, right, #[trigger] from[i]) && made_of(
            j,
            out[i],
            match from[i].left {
                Some(l) => Some(left[l]),
                None => None,
            },
            match from[i].right {
                Some(r) => Some(right[r]),
                None => None,
            },
        )
    &&& forall|i: int, k: int|
        0 <= i < k < from.len() ==> above(#[trigger] from[i], #[trigger] from[k])
}

proof fn lemma_made(j: JoinStmt, l: Seq<FieldV>, r: Option<Seq<FieldV>>)
    ensures
        made_of(j, combined(j, l, r), Some(l), r),
{
    let row = combined(j, l, r);
    assert forall|e: int| 0 <= e < j.right_emit_pos@.len() implies row[#[trigger] added(j, e)]
        == (match r {
        Some(r) => cell_or_empty(r, j.right_emit_pos@[e] as int),
        None => FieldV::Str(seq![]),
    }) by {
        if r is Some {
            assert(row[added(j, e)] == pick(r->Some_0, j.right_emit_pos@)[e]);
        }
    }
}

proof fn lemma_coalesced(j: JoinStmt, r: Seq<FieldV>, n: int)
    requires
        0 <= n <= key_pairs(j),
    ensures
        coalesced(j, r, n).len() == j.left_ncols,
        forall|p: int|
            0 <= p < j.left_ncols && (forall|m: int|
                0 <= m < n ==> #[trigger] j.left_key_pos@[m] != p) ==> #[trigger] coalesced(
                j,
                r,
                n,
            )[p] == FieldV::Str(seq![]),
        forall|p: int, k: int|
            0 <= p < j.left_ncols && 0 <= k < n && j.left_key_pos@[k] == p && (forall|m: int|
                k < m < n ==> #[trigger] j.left_key_pos@[m] != p) ==> #[trigger] coalesced(
                j,
                r,
                n,
            )[p] == cell_or_empty(r, #[trigger] j.right_key_pos@[k] as int),
    decreases n,
{
    if n > 0 {
        lemma_coalesced(j, r, n - 1);
    }
}

proof fn lemma_made_right(j: JoinStmt, r: Seq<FieldV>)
    requires
        j.left_key_pos@.len() == j.right_key_pos@.len(),
    ensures
        made_of(j, right_only(j, r), None, Some(r)),
{
    let row = right_only(j, r);
    let n = key_pairs(j);
    let c = coalesced(j, r, n);
    lemma_coalesced(j, r, n);
    assert forall|p: int, k: int|
        0 <= p < j.left_ncols && #[trigger] last_key_at(j, p, k) implies row[p] == cell_or_empty(
        r,
        j.right_key_pos@[k] as int,
    ) by {
        assert(c[p] == cell_or_empty(r, j.right_key_pos@[k] as int));
        assert(row[p] == c[p]);
    }
    assert forall|p: int|
        0 <= p < j.left_ncols && !j.left_key_pos@.contains(p as usize) implies #[trigger] row[p]
        == FieldV::Str(seq![]) by {
        assert forall|m: int| 0 <= m < n implies #[trigger] j.left_key_pos@[m] != p by {
            if j.left_key_pos@[m] == p {
                assert(j.left_key_pos@[m] == p as usize);
                assert(j.left_key_pos@.contains(p as usize));
            }
        }
        assert(c[p] == FieldV::Str(seq![]));
        assert(row[p] == c[p]);
    }
    assert forall|e: int| 0 <= e < j.right_emit_pos@.len() implies row[#[trigger] added(j, e)]
        == cell_or_empty(r, j.right_emit_pos@[e] as int) by {
        assert(row[added(j, e)] == pick(r, j.right_emit_pos@)[e]);
    }
}

/// Whether the keys can be told apart by their texts: no number among the key cells
/// has a comma, a quote or a line break in it.
pub open spec fn plain_keys(
    j: JoinStmt,
    left: Seq<Seq<FieldV>>,
    right: Seq<Seq<FieldV>>,
) -> bool {
    &&& j.left_key_pos@.len() == j.right_key_pos@.len()
    &&& forall|l: int|
        0 <= l < left.len() ==> encodable_row(pick(#[trigger] left[l], j.left_key_pos@))
    &&& forall|r: int|
        0 <= r < right.len() ==> encodable_row(pick(#[trigger] right[r], j.right_key_pos@))
}

proof fn lemma_matches(
    j: JoinStmt,
    left: Seq<Seq<FieldV>>,
    right: Seq<Seq<FieldV>>,
    l: int,
    n: int,
)
    requires
        plain_keys(j, left, right),
        0 <= l < left.len(),
        0 <= n <= right.len() <= usize::MAX,
    ensures
        ({
            let ms = matches_of(right, j.right_key_pos@, join_key(left[l], j.left_key_pos@), n);
            &&& forall|i: int|
                0 <= i < ms.len() ==> #[trigger] ms[i] < n && pairs_up(
                    j,
                    left[l],
                    right[ms[i] as int],
                )
            &&& forall|i: int, k: int|
                0 <= i < k < ms.len() ==> #[trigger] ms[i] < #[trigger] ms[k]
            &&& forall|r: int|
                0 <= r < n && pairs_up(j, left[l], #[trigger] right[r]) ==> ms.contains(r as usize)
        }),
    decreases n,
{
    let key = join_key(left[l], j.left_key_pos@);
    let ms = matches_of(right, j.right_key_pos@, key, n);
    if n > 0 {
        lemma_matches(j, left, right, l, n - 1);
        let before = matches_of(right, j.right_key_pos@, key, n - 1);
        let last = right[n - 1];
        law_rows_join_on_every_key_column(left[l], j.left_key_pos@, last, j.right_key_pos@);
        if join_key(last, j.right_key_pos@) == key {
            assert(ms == before.push((n - 1) as usize));
            assert(ms[before.len() as int] == n - 1);
            assert forall|r: int|
                0 <= r < n && pairs_up(j, left[l], #[trigger] right[r]) implies ms.contains(
                r as usize,
            ) by {
                if r < n - 1 {
                    let i = before.index_of(r as usize);
                    assert(ms[i] == before[i]);
                }
            }
        }
    }
}

proof fn lemma_left_part(
    j: JoinStmt,
    left: Seq<Seq<FieldV>>,
    right: Seq<Seq<FieldV>>,
    l: int,
) -> (from: Seq<Origin>)
    requires
        plain_keys(j, left, right),
        0 <= l < left.len(),
        right.len() <= usize::MAX,
    ensures
        comes_from(j, left, right, left_part(j, left[l], right), from),
        forall|i: int| 0 <= i < from.len() ==> (#[trigger] from[i]).left == Some(l),
        forall|o: Origin| #[trigger]
            asked_for(j, left, right, o) && o.left == Some(l) ==> from.contains(o),
{
    let out = left_part(j, left[l], right);
    let n = right.len() as int;
    let ms = matches_of(right, j.right_key_pos@, join_key(left[l], j.left_key_pos@), n);
    lemma_matches(j, left, right, l, n);
    if ms.len() > 0 {
        let from = Seq::new(
            ms.len(),
            |i: int| Origin { left: Some(l), right: Some(ms[i] as int) },
        );
        assert forall|i: int| 0 <= i < out.len() implies asked_for(
            j,
            left,
            right,
            #[trigger] from[i],
        ) && made_of(j, out[i], Some(left[l]), Some(right[ms[i] as int])) by {
            assert(ms[i] < n);
            lemma_made(j, left[l], Some(right[ms[i] as int]));
        }
        assert forall|i: int, k: int| 0 <= i < k < from.len() implies above(
            #[trigger] from[i],
            #[trigger] from[k],
        ) by {
            assert(ms[i] < ms[k]);
        }
        assert forall|o: Origin| #[trigger]
            asked_for(j, left, right, o) && o.left == Some(l) implies from.contains(o) by {
            if o.right is Some {
                let r = o.right->Some_0;
                assert(pairs_up(j, left[l], right[r]));
                assert(ms.contains(r as usize));
                let i = ms.index_of(r as usize);
                assert(from[i] == o);
            } else {
                let r = ms[0] as int;
                assert(pairs_up(j, left[l], right[r]));
            }
        }
        from
    } else if j.join_type is Left || j.join_type is Full {
        let one = Origin { left: Some(l), right: None };
        let from = seq![one];
        lemma_made(j, left[l], None);
        assert forall|r: int| 0 <= r < right.len() implies !pairs_up(
            j,
            left[l],
            #[trigger] right[r],
        ) by {
            if pairs_up(j, left[l], right[r]) {
                assert(ms.contains(r as usize));
            }
        }
        assert(asked_for(j, left, right, one));
        assert(out =~= seq![combined(j, left[l], None)]);
        assert forall|o: Origin| #[trigger]
            asked_for(j, left, right, o) && o.left == Some(l) implies from.contains(o) by {
            if o.right is Some {
                let r = o.right->Some_0;
                assert(pairs_up(j, left[l], right[r]));
            }
            assert(from[0] == o);
        }
        from
    } else {
        let from = Seq::<Origin>::empty();
        assert forall|o: Origin| #[trigger]
            asked_for(j, left, right, o) && o.left == Some(l) implies from.contains(o) by {
            if o.right is Some {
                let r = o.right->Some_0;
                assert(pairs_up(j, left[l], right[r]));
                assert(ms.contains(r as usize));
            }
        }
        from
    }
}

proof fn lemma_left_parts(
    j: JoinStmt,
    left: Seq<Seq<FieldV>>,
    right: Seq<Seq<FieldV>>,
    n: int,
) -> (from: Seq<Origin>)
    requires
        plain_keys(j, left, right),
        0 <= n <= left.len(),
        right.len() <= usize::MAX,
    ensures
        comes_from(j, left, right, left_parts(j, left, right, n), from),
        forall|i: int|
            0 <= i < from.len() ==> (#[trigger] from[i]).left is Some && from[i].left->Some_0 < n,
        forall|o: Origin| #[trigger]
            asked_for(j, left, right, o) && o.left is Some && o.left->Some_0 < n ==> from.contains(
                o,
            ),
    decreases n,
{
    if n <= 0 {
        Seq::empty()
    } else {
        let a = lemma_left_parts(j, left, right, n - 1);
        let b = lemma_left_part(j, left, right, n - 1);
        let from = a + b;
        let (x, y) = (left_parts(j, left, right, n - 1), left_part(j, left[n - 1], right));
        let out = left_parts(j, left, right, n);
        assert(out == x + y);
        lemma_put_together(j, left, right, x, a, y, b);
        assert forall|o: Origin| #[trigger]
            asked_for(j, left, right, o) && o.left is Some && o.left->Some_0
                < n implies from.contains(o) by {
            if o.left->Some_0 == n - 1 {
                assert(b.contains(o));
                let i = b.index_of(o);
                assert(from[a.len() + i] == o);
            } else {
                assert(a.contains(o));
                let i = a.index_of(o);
                assert(from[i] == o);
            }
        }
        from
    }
}

proof fn lemma_put_together(
    j: JoinStmt,
    left: Seq<Seq<FieldV>>,
    right: Seq<Seq<FieldV>>,
    x: Seq<Seq<FieldV>>,
    a: Seq<Origin>,
    y: Seq<Seq<FieldV>>,
    b: Seq<Origin>,
)
    requires
        comes_from(j, left, right, x, a),
        comes_from(j, left, right, y, b),
        forall|i: int, k: int|
            0 <= i < a.len() && 0 <= k < b.len() ==> above(#[trigger] a[i], #[trigger] b[k]),
    ensures
        comes_from(j, left, right, x + y, a + b),
{
    let (out, from) = (x + y, a + b);
    assert forall|i: int| 0 <= i < out.len() implies asked_for(j, left, right, #[trigger] from[i])
        && made_of(
        j,
        out[i],
        match from[i].left {
            Some(l) => Some(left[l]),
            None => None,
        },
        match from[i].right {
            Some(r) => Some(right[r]),
            None => None,
        },
    ) by {
        if i < a.len() {
            assert(from[i] == a[i] && out[i] == x[i]);
        } else {
            assert(from[i] == b[i - a.len()] && out[i] == y[i - x.len()]);
        }
    }
    assert forall|i: int, k: int| 0 <= i < k < from.len() implies above(
        #[trigger] from[i],
        #[trigger] from[k],
    ) by {
        if k < a.len() {
            assert(above(a[i], a[k]));
        } else if i < a.len() {
            assert(above(a[i], b[k - a.len()]));
        } else {
            assert(above(b[i - a.len()], b[k - a.len()]));
        }
    }
}

proof fn lemma_key_among(
    j: JoinStmt,
    left: Seq<Seq<FieldV>>,
    right: Seq<Seq<FieldV>>,
    r: int,
)
    requires
        plain_keys(j, left, right),
        0 <= r < right.len(),
    ensures
        key_among(j, left, join_key(right[r], j.right_key_pos@), left.len() as int) <==> exists|
            l: int,
        |
            0 <= l < left.len() && pairs_up(j, #[trigger] left[l], right[r]),
{
    let key = join_key(right[r], j.right_key_pos@);
    assert forall|l: int| 0 <= l < left.len() implies (join_key(
        #[trigger] left[l],
        j.left_key_pos@,
    ) == key <==> pairs_up(j, left[l], right[r])) by {
        law_rows_join_on_every_key_column(left[l], j.left_key_pos@, right[r], j.right_key_pos@);
    }
    if key_among(j, left, key, left.len() as int) {
        let l = choose|l: int|
            0 <= l < left.len() && join_key(#[trigger] left[l], j.left_key_pos@) == key;
        assert(pairs_up(j, left[l], right[r]));
    }
}

proof fn lemma_right_parts(
    j: JoinStmt,
    left: Seq<Seq<FieldV>>,
    right: Seq<Seq<FieldV>>,
    n: int,
) -> (from: Seq<Origin>)
    requires
        plain_keys(j, left, right),
        0 <= n <= right.len(),
        j.join_type is Right || j.join_type is Full,
    ensures
        comes_from(j, left, right, right_parts(j, left, right, n), from),
        forall|i: int|
            0 <= i < from.len() ==> (#[trigger] from[i]).left is None && from[i].right is Some
                && from[i].right->Some_0 < n,
        forall|o: Origin| #[trigger]
            asked_for(j, left, right, o) && o.left is None && o.right->Some_0 < n ==> from.contains(
                o,
            ),
    decreases n,
{
    if n <= 0 {
        Seq::empty()
    } else {
        let a = lemma_right_parts(j, left, right, n - 1);
        let x = right_parts(j, left, right, n - 1);
        let key = join_key(right[n - 1], j.right_key_pos@);
        let one = Origin { left: None, right: Some(n - 1) };
        lemma_key_among(j, left, right, n - 1);
        if key_among(j, left, key, left.len() as int) {
            assert forall|o: Origin| #[trigger]
                asked_for(j, left, right, o) && o.left is None && o.right->Some_0
                    < n implies a.contains(o) by {
                if o.right->Some_0 == n - 1 {
                    let l = choose|l: int|
                        0 <= l < left.len() && pairs_up(j, #[trigger] left[l], right[n - 1]);
                    assert(!pairs_up(j, left[l], right[n - 1]));
                }
            }
            a
        } else {
            let y = seq![right_only(j, right[n - 1])];
            let b = seq![one];
            lemma_made_right(j, right[n - 1]);
            assert(asked_for(j, left, right, one));
            assert(comes_from(j, left, right, y, b));
            lemma_put_together(j, left, right, x, a, y, b);
            assert(right_parts(j, left, right, n) =~= x + y);
            let from = a + b;
            assert forall|o: Origin| #[trigger]
                asked_for(j, left, right, o) && o.left is None && o.right->Some_0
                    < n implies from.contains(o) by {
                if o.right->Some_0 == n - 1 {
                    assert(from[a.len() as int] == o);
                } else {
                    assert(a.contains(o));
                    let i = a.index_of(o);
                    assert(from[i] == o);
                }
            }
            from
        }
    }
}

/// A join gives each pair of rows that agree in every key column once, and, as its type
/// keeps them, each left row and each right row that agrees with none; in the order of
/// the left rows, then of the right ones, and the right rows without a left one behind.
pub proof fn law_a_join_gives_just_the_rows_it_asks_for(
    j: JoinStmt,
    left: Seq<Seq<FieldV>>,
    right: Seq<Seq<FieldV>>,
) -> (from: Seq<Origin>)
    requires
        plain_keys(j, left, right),
        right.len() <= usize::MAX,
    ensures
        comes_from(j, left, right, joined_rows(j, left, right), from),
        forall|o: Origin| #[trigger] asked_for(j, left, right, o) ==> from.contains(o),
{
    let a = lemma_left_parts(j, left, right, left.len() as int);
    let x = left_parts(j, left, right, left.len() as int);
    if j.join_type is Right || j.join_type is Full {
        let b = lemma_right_parts(j, left, right, right.len() as int);
        let y = right_parts(j, left, right, right.len() as int);
        lemma_put_together(j, left, right, x, a, y, b);
        let from = a + b;
        assert forall|o: Origin| #[trigger] asked_for(j, left, right, o) implies from.contains(
            o,
        ) by {
            if o.left is Some {
                let i = a.index_of(o);
                assert(from[i] == o);
            } else {
                let i = b.index_of(o);
                assert(from[a.len() + i] == o);
            }
        }
        from
    } else {
        assert(joined_rows(j, left, right) =~= x);
        a
    }
}

/// An inner join keeps no row that has no other, a left join the left ones, a right join
/// the right ones, and a full join both: what a join keeps alone is what it asks for.
pub proof fn law_a_join_type_keeps_its_side(
    j: JoinStmt,
    left: Seq<Seq<FieldV>>,
    right: Seq<Seq<FieldV>>,
    o: Origin,
)
    requires
        asked_for(j, left, right, o),
    ensures
        o.right is None ==> j.join_type.keeps_left(),
        o.left is None ==> j.join_type.keeps_right(),
        !JoinType::Inner.keeps_left() && !JoinType::Inner.keeps_right(),
        JoinType::Left.keeps_left() && !JoinType::Left.keeps_right(),
        !JoinType::Right.keeps_left() && JoinType::Right.keeps_right(),
        JoinType::Full.keeps_left() && JoinType::Full.keeps_right(),
{
}

} // verus!
