//! What `sort` gives: the rows it was given, in the order of its keys.

use crate::field::{FieldV, cell_or_empty, is_nan, place};
use crate::laws::select::{comes_first, law_texts_stand_in_dictionary_order};
use crate::plan::SortKey;
use crate::sort::{key_sign, precedes, rows_sign, sorted_run, stably_sorted};
use vstd::prelude::*;

verus! {

/// Whether `a` has the smaller number of the two cells: what is not a number is
/// larger than every number, and a cell without a number is zero.
pub open spec fn smaller_number(a: FieldV, b: FieldV) -> bool {
    let x = match a {
        FieldV::Num(n) => n.bits,
        FieldV::Str(_) => 0,
    };
    let y = match b {
        FieldV::Num(n) => n.bits,
        FieldV::Str(_) => 0,
    };
    !is_nan(x) && (is_nan(y) || place(x) < place(y))
}

/// Whether the key asks for row `a` above row `b`: its cell in the key's column is
/// the smaller one, or, where the key is descending, the larger one.
pub open spec fn goes_first(key: SortKey, a: Seq<FieldV>, b: Seq<FieldV>) -> bool {
    let x = cell_or_empty(a, key.pos as int);
    let y = cell_or_empty(b, key.pos as int);
    match (key.numeric, key.descending) {
        (true, false) => smaller_number(x, y),
        (true, true) => smaller_number(y, x),
        (false, false) => comes_first(x.text(), y.text()),
        (false, true) => comes_first(y.text(), x.text()),
    }
}

/// Whether the key does not tell the two rows apart.
pub open spec fn ties(key: SortKey, a: Seq<FieldV>, b: Seq<FieldV>) -> bool {
    !goes_first(key, a, b) && !goes_first(key, b, a)
}

/// Whether none of the first `k` keys tells the two rows apart.
pub open spec fn tied(keys: Seq<SortKey>, k: int, a: Seq<FieldV>, b: Seq<FieldV>) -> bool {
    forall|m: int| 0 <= m < k ==> ties(#[trigger] keys[m], a, b)
}

/// A key puts the row with the smaller cell first, and a descending one the row with
/// the larger cell: by value where the key is numeric, else as in a dictionary.
pub proof fn law_a_key_goes_by_its_column(key: SortKey, a: Seq<FieldV>, b: Seq<FieldV>)
    ensures
        key_sign(key, a, b) < 0 <==> goes_first(key, a, b),
        key_sign(key, a, b) > 0 <==> goes_first(key, b, a),
        key_sign(key, a, b) == 0 <==> ties(key, a, b),
{
    let x = cell_or_empty(a, key.pos as int).text();
    let y = cell_or_empty(b, key.pos as int).text();
    law_texts_stand_in_dictionary_order(x, y);
    law_texts_stand_in_dictionary_order(y, x);
}

/// The first key that tells two rows apart decides between them.
pub proof fn law_earlier_keys_come_first(
    keys: Seq<SortKey>,
    a: Seq<FieldV>,
    b: Seq<FieldV>,
    k: int,
)
    requires
        0 <= k < keys.len(),
        tied(keys, k, a, b),
    ensures
        goes_first(keys[k], a, b) ==> rows_sign(keys, a, b) < 0,
        goes_first(keys[k], b, a) ==> rows_sign(keys, a, b) > 0,
    decreases keys.len(),
{
    law_a_key_goes_by_its_column(keys[0], a, b);
    if k > 0 {
        assert(ties(keys[0], a, b));
        let rest = keys.drop_first();
        assert forall|m: int| 0 <= m < k - 1 implies ties(#[trigger] rest[m], a, b) by {
            assert(rest[m] == keys[m + 1]);
        }
        law_earlier_keys_come_first(rest, a, b, k - 1);
    }
}

/// Two rows that no key tells apart are equal in the order of rows.
pub proof fn law_rows_that_no_key_tells_apart_are_equal(
    keys: Seq<SortKey>,
    a: Seq<FieldV>,
    b: Seq<FieldV>,
)
    ensures
        rows_sign(keys, a, b) == 0 <==> tied(keys, keys.len() as int, a, b),
    decreases keys.len(),
{
    if keys.len() > 0 {
        let rest = keys.drop_first();
        law_a_key_goes_by_its_column(keys[0], a, b);
        law_rows_that_no_key_tells_apart_are_equal(rest, a, b);
        if tied(keys, keys.len() as int, a, b) {
            assert(ties(keys[0], a, b));
            assert forall|m: int| 0 <= m < rest.len() implies ties(#[trigger] rest[m], a, b) by {
                assert(rest[m] == keys[m + 1]);
            }
        }
        if rows_sign(keys, a, b) == 0 {
            assert forall|m: int| 0 <= m < keys.len() implies ties(#[trigger] keys[m], a, b) by {
                if m > 0 {
                    assert(rest[m - 1] == keys[m]);
                }
            }
        }
    }
}

/// The sorted rows are in order by the first key, and those that the first keys do not
/// tell apart are in order by the next: no row stands below one that it should be above.
pub proof fn law_sorted_rows_follow_the_keys_in_turn(
    keys: Seq<SortKey>,
    rows: Seq<Seq<FieldV>>,
    out: Seq<Seq<FieldV>>,
)
    requires
        stably_sorted(keys, rows, out),
    ensures
        forall|i: int, j: int, k: int|
            0 <= i < j < out.len() && 0 <= k < keys.len() && #[trigger] tied(
                keys,
                k,
                out[i],
                out[j],
            ) ==> !goes_first(keys[k], out[j], out[i]),
        keys.len() > 0 ==> forall|i: int, j: int|
            0 <= i < j < out.len() ==> key_sign(keys[0], #[trigger] out[i], #[trigger] out[j]) <= 0,
{
    let idx = choose|idx: Seq<usize>|
        {
            &&& #[trigger] sorted_run(keys, rows, idx, 0, rows.len() as int)
            &&& out == idx.map_values(|i: usize| rows[i as int])
        };
    assert forall|i: int, j: int, k: int|
        0 <= i < j < out.len() && 0 <= k < keys.len() && #[trigger] tied(
            keys,
            k,
            out[i],
            out[j],
        ) implies !goes_first(keys[k], out[j], out[i]) by {
        assert(precedes(keys, rows, idx[i] as int, idx[j] as int));
        law_earlier_keys_come_first(keys, out[i], out[j], k);
    }
    if keys.len() > 0 {
        assert forall|i: int, j: int| 0 <= i < j < out.len() implies key_sign(
            keys[0],
            #[trigger] out[i],
            #[trigger] out[j],
        ) <= 0 by {
            assert(tied(keys, 0, out[i], out[j]));
            law_a_key_goes_by_its_column(keys[0], out[i], out[j]);
        }
    }
}

/// Sorting keeps every row, once, and leaves those that no key tells apart in the order
/// they came in.
pub proof fn law_sorting_moves_rows_only_where_a_key_asks(
    keys: Seq<SortKey>,
    rows: Seq<Seq<FieldV>>,
    out: Seq<Seq<FieldV>>,
) -> (from: Seq<usize>)
    requires
        stably_sorted(keys, rows, out),
    ensures
        out.len() == rows.len(),
        from.len() == rows.len(),
        forall|i: int|
            0 <= i < out.len() ==> #[trigger] from[i] < rows.len() && out[i] == rows[from[i] as int],
        forall|i: int, j: int|
            0 <= i < j < out.len() ==> #[trigger] from[i] != #[trigger] from[j],
        forall|i: int, j: int|
            0 <= i < j < out.len() && tied(keys, keys.len() as int, out[i], out[j])
                ==> #[trigger] from[i] < #[trigger] from[j],
        forall|k: usize| k < rows.len() ==> #[trigger] from.contains(k),
{
    let idx = choose|idx: Seq<usize>|
        {
            &&& #[trigger] sorted_run(keys, rows, idx, 0, rows.len() as int)
            &&& out == idx.map_values(|i: usize| rows[i as int])
        };
    assert forall|i: int, j: int| 0 <= i < j < out.len() implies #[trigger] idx[i]
        != #[trigger] idx[j] by {
        assert(precedes(keys, rows, idx[i] as int, idx[j] as int));
        law_rows_that_no_key_tells_apart_are_equal(keys, out[i], out[j]);
        if idx[i] == idx[j] {
            crate::sort::law_rows_are_totally_ordered(keys, out[i], out[i], out[i]);
        }
    }
    assert forall|i: int, j: int|
        0 <= i < j < out.len() && tied(
            keys,
            keys.len() as int,
            out[i],
            out[j],
        ) implies #[trigger] idx[i] < #[trigger] idx[j] by {
        assert(precedes(keys, rows, idx[i] as int, idx[j] as int));
        law_rows_that_no_key_tells_apart_are_equal(keys, out[i], out[j]);
    }
    idx
}

} // verus!
