//! `sort`: the order of rows, and a stable sort by it.

use crate::exec::{to_nums, with_nums};
use crate::field::{
    Field, FieldV, NumError, NumV, Rank, Readings, Row, cell_at, cell_or_empty, clone_row, is_nan,
    place, row_view, rows_view,
};
use crate::plan::{SortKey, SortStmt, rank_texts, text_rank};
use crate::text::lex_lt;
use vstd::prelude::*;

verus! {

/// Where a number stands in a sort: by its value, and behind every number when
/// it is none.
pub open spec fn sort_place(bits: u64) -> int {
    if is_nan(bits) {
        0x8000_0000_0000_0000
    } else {
        place(bits)
    }
}

/// Where a cell stands in a numeric sort; a cell that is not there reads as
/// zero.
pub open spec fn cell_place(f: FieldV) -> int {
    match f {
        FieldV::Num(n) => sort_place(n.bits),
        FieldV::Str(_) => 0,
    }
}

/// -1, 0 or 1: how two numbers compare.
pub open spec fn sign_of(a: int, b: int) -> int {
    if a < b {
        -1
    } else if a == b {
        0
    } else {
        1
    }
}

/// -1, 0 or 1: how two rows compare by one key.
pub open spec fn key_sign(key: SortKey, a: Seq<FieldV>, b: Seq<FieldV>) -> int {
    let x = cell_or_empty(a, key.pos as int);
    let y = cell_or_empty(b, key.pos as int);
    let up = if key.numeric {
        sign_of(cell_place(x), cell_place(y))
    } else {
        match text_rank(x.text(), y.text()) {
            Rank::Before => -1int,
            Rank::Same => 0int,
            _ => 1int,
        }
    };
    if key.descending {
        -up
    } else {
        up
    }
}

/// -1, 0 or 1: how two rows compare, the first key that tells them apart
/// deciding.
pub open spec fn rows_sign(keys: Seq<SortKey>, a: Seq<FieldV>, b: Seq<FieldV>) -> int
    decreases keys.len(),
{
    if keys.len() == 0 {
        0
    } else if key_sign(keys[0], a, b) != 0 {
        key_sign(keys[0], a, b)
    } else {
        rows_sign(keys.drop_first(), a, b)
    }
}

/// Whether row `i` comes before row `j` once sorted: by the keys, and in the
/// order they came in where those are equal.
pub open spec fn precedes(keys: Seq<SortKey>, rows: Seq<Seq<FieldV>>, i: int, j: int) -> bool {
    let s = rows_sign(keys, rows[i], rows[j]);
    s < 0 || (s == 0 && i < j)
}

/// Whether `idx` lists the rows from `lo` up to `hi` in their sorted order.
pub open spec fn sorted_run(
    keys: Seq<SortKey>,
    rows: Seq<Seq<FieldV>>,
    idx: Seq<usize>,
    lo: int,
    hi: int,
) -> bool {
    &&& idx.len() == hi - lo
    &&& forall|i: int| 0 <= i < idx.len() ==> lo <= #[trigger] idx[i] < hi
    &&& forall|k: usize| lo <= k < hi ==> #[trigger] idx.contains(k)
    &&& forall|i: int, j: int|
        0 <= i < j < idx.len() ==> precedes(
            keys,
            rows,
            #[trigger] idx[i] as int,
            #[trigger] idx[j] as int,
        )
}

/// Whether `out` is `rows` sorted by the keys, rows with equal keys in the order
/// they came in.
pub open spec fn stably_sorted(
    keys: Seq<SortKey>,
    rows: Seq<Seq<FieldV>>,
    out: Seq<Seq<FieldV>>,
) -> bool {
    exists|idx: Seq<usize>|
        {
            &&& #[trigger] sorted_run(keys, rows, idx, 0, rows.len() as int)
            &&& out == idx.map_values(|i: usize| rows[i as int])
        }
}

proof fn lemma_lex_total(a: Seq<char>, b: Seq<char>)
    ensures
        lex_lt(a, b) ==> !lex_lt(b, a) && a != b,
        !lex_lt(a, b) && !lex_lt(b, a) ==> a == b,
    decreases a.len(),
{
    if a.len() == 0 || b.len() == 0 {
        if a.len() == 0 && b.len() == 0 {
            assert(a =~= b);
        }
    } else if a[0] == b[0] {
        lemma_lex_total(a.drop_first(), b.drop_first());
        if a.drop_first() == b.drop_first() {
            assert(a =~= seq![a[0]] + a.drop_first());
            assert(b =~= seq![b[0]] + b.drop_first());
        }
    } else {
        vstd::utf8::char_u32_cast(a[0], a[0] as u32);
        vstd::utf8::char_u32_cast(b[0], b[0] as u32);
    }
}

proof fn lemma_lex_transitive(a: Seq<char>, b: Seq<char>, c: Seq<char>)
    requires
        lex_lt(a, b),
        lex_lt(b, c),
    ensures
        lex_lt(a, c),
    decreases a.len(),
{
    if a.len() > 0 && a[0] == b[0] && b[0] == c[0] {
        lemma_lex_transitive(a.drop_first(), b.drop_first(), c.drop_first());
    }
}

proof fn lemma_key_order(key: SortKey, a: Seq<FieldV>, b: Seq<FieldV>, c: Seq<FieldV>)
    ensures
        -1 <= key_sign(key, a, b) <= 1,
        key_sign(key, a, b) == -key_sign(key, b, a),
        key_sign(key, a, b) <= 0 && key_sign(key, b, c) <= 0 ==> key_sign(key, a, c) <= 0,
        key_sign(key, a, b) <= 0 && key_sign(key, b, c) <= 0 && key_sign(key, a, c) == 0
            ==> key_sign(key, a, b) == 0 && key_sign(key, b, c) == 0,
{
    let x = cell_or_empty(a, key.pos as int).text();
    let y = cell_or_empty(b, key.pos as int).text();
    let z = cell_or_empty(c, key.pos as int).text();
    lemma_lex_total(x, y);
    lemma_lex_total(y, x);
    lemma_lex_total(y, z);
    lemma_lex_total(z, y);
    lemma_lex_total(x, z);
    lemma_lex_total(z, x);
    if lex_lt(x, y) && lex_lt(y, z) {
        lemma_lex_transitive(x, y, z);
    }
    if lex_lt(z, y) && lex_lt(y, x) {
        lemma_lex_transitive(z, y, x);
    }
}

/// The order of rows is a total preorder.
pub proof fn law_rows_are_totally_ordered(
    keys: Seq<SortKey>,
    a: Seq<FieldV>,
    b: Seq<FieldV>,
    c: Seq<FieldV>,
)
    ensures
        rows_sign(keys, a, a) == 0,
        rows_sign(keys, a, b) == -rows_sign(keys, b, a),
        rows_sign(keys, a, b) <= 0 && rows_sign(keys, b, c) <= 0 ==> rows_sign(keys, a, c) <= 0,
        rows_sign(keys, a, b) <= 0 && rows_sign(keys, b, c) <= 0 && rows_sign(keys, a, c) == 0
            ==> rows_sign(keys, a, b) == 0 && rows_sign(keys, b, c) == 0,
    decreases keys.len(),
{
    if keys.len() > 0 {
        law_rows_are_totally_ordered(keys.drop_first(), a, b, c);
        lemma_key_order(keys[0], a, b, c);
        lemma_key_order(keys[0], a, a, a);
        lemma_key_order(keys[0], b, c, a);
        lemma_key_order(keys[0], b, a, c);
        lemma_key_order(keys[0], c, b, a);
    }
}

proof fn lemma_precedes(keys: Seq<SortKey>, rows: Seq<Seq<FieldV>>, i: int, j: int, k: int)
    ensures
        precedes(keys, rows, i, j) && precedes(keys, rows, j, k) ==> precedes(keys, rows, i, k),
        precedes(keys, rows, i, j) ==> !precedes(keys, rows, j, i),
        i != j ==> precedes(keys, rows, i, j) || precedes(keys, rows, j, i),
{
    law_rows_are_totally_ordered(keys, rows[i], rows[j], rows[k]);
    law_rows_are_totally_ordered(keys, rows[j], rows[i], rows[k]);
}

fn place_of(f: &Field) -> (r: i128)
    ensures
        r == cell_place(f@),
{
    match f {
        Field::Num(n) => {
            let sign: u64 = 0x8000_0000_0000_0000;
            let m: u64 = n.bits % sign;
            if m > 0x7ff0_0000_0000_0000 {
                0x8000_0000_0000_0000
            } else if n.bits >= sign {
                -(m as i128)
            } else {
                m as i128
            }
        },
        Field::Str(_) => 0,
    }
}

impl SortKey {
    fn sign(&self, a: &[Field], b: &[Field]) -> (r: i8)
        ensures
            r == key_sign(*self, row_view(a@), row_view(b@)),
    {
        let x = cell_at(a, self.pos);
        let y = cell_at(b, self.pos);
        let up: i8 = if self.numeric {
            let i = place_of(&x);
            let j = place_of(&y);
            if i < j {
                -1
            } else if i == j {
                0
            } else {
                1
            }
        } else {
            match rank_texts(x.as_str(), y.as_str()) {
                Rank::Before => -1,
                Rank::Same => 0,
                _ => 1,
            }
        };
        if self.descending {
            -up
        } else {
            up
        }
    }
}

impl SortStmt {
    /// -1, 0 or 1: how two rows compare.
    pub fn compare(&self, a: &[Field], b: &[Field]) -> (r: i8)
        ensures
            r == rows_sign(self.keys@, row_view(a@), row_view(b@)),
    {
        let ghost x = row_view(a@);
        let ghost y = row_view(b@);
        let mut i: usize = 0;
        assert(self.keys@.skip(0) =~= self.keys@);
        while i < self.keys.len()
            invariant
                i <= self.keys.len(),
                x == row_view(a@),
                y == row_view(b@),
                rows_sign(self.keys@, x, y) == rows_sign(self.keys@.skip(i as int), x, y),
            decreases self.keys.len() - i,
        {
            let s = self.keys[i].sign(a, b);
            if s != 0 {
                return s;
            }
            assert(self.keys@.skip(i as int).drop_first() =~= self.keys@.skip(i + 1));
            i += 1;
        }
        0
    }

    /// The positions of the numeric keys.
    pub fn numeric_positions(&self) -> (r: Vec<usize>)
        ensures
            r@ == numeric_keys(self.keys@),
    {
        let mut r: Vec<usize> = Vec::new();
        let mut i: usize = 0;
        while i < self.keys.len()
            invariant
                i <= self.keys.len(),
                r@ == numeric_keys(self.keys@.take(i as int)),
            decreases self.keys.len() - i,
        {
            assert(self.keys@.take(i + 1).drop_last() =~= self.keys@.take(i as int));
            if self.keys[i].numeric {
                r.push(self.keys[i].pos);
            }
            i += 1;
        }
        assert(self.keys@.take(self.keys@.len() as int) =~= self.keys@);
        r
    }
}

/// The positions of the numeric keys.
pub open spec fn numeric_keys(keys: Seq<SortKey>) -> Seq<usize>
    decreases keys.len(),
{
    if keys.len() == 0 {
        seq![]
    } else if keys.last().numeric {
        numeric_keys(keys.drop_last()).push(keys.last().pos)
    } else {
        numeric_keys(keys.drop_last())
    }
}

/// The first `n` rows with the cells at `positions` read as numbers, or the text
/// of the first that is none.
pub open spec fn converted(
    rows: Seq<Seq<FieldV>>,
    positions: Seq<usize>,
    readings: Map<Seq<char>, NumV>,
    n: int,
) -> Result<Seq<Seq<FieldV>>, Seq<char>>
    decreases n,
{
    if n <= 0 {
        Ok(seq![])
    } else {
        match converted(rows, positions, readings, n - 1) {
            Err(t) => Err(t),
            Ok(before) => match with_nums(rows[n - 1], positions, 0, readings) {
                Err(t) => Err(t),
                Ok(r) => Ok(before.push(r)),
            },
        }
    }
}

proof fn lemma_converted_fails(
    rows: Seq<Seq<FieldV>>,
    positions: Seq<usize>,
    readings: Map<Seq<char>, NumV>,
    m: int,
    n: int,
)
    requires
        m <= n,
        converted(rows, positions, readings, m) is Err,
    ensures
        converted(rows, positions, readings, n) == converted(rows, positions, readings, m),
    decreases n - m,
{
    if m < n {
        lemma_converted_fails(rows, positions, readings, m, n - 1);
    }
}

fn merge(
    sort: &SortStmt,
    rows: &[Row],
    left: &Vec<usize>,
    right: &Vec<usize>,
    Ghost(lo): Ghost<int>,
    Ghost(mid): Ghost<int>,
    Ghost(hi): Ghost<int>,
) -> (out: Vec<usize>)
    requires
        0 <= lo <= mid <= hi <= rows@.len(),
        sorted_run(sort.keys@, rows_view(rows@), left@, lo, mid),
        sorted_run(sort.keys@, rows_view(rows@), right@, mid, hi),
    ensures
        sorted_run(sort.keys@, rows_view(rows@), out@, lo, hi),
{
    let ghost rv = rows_view(rows@);
    let ghost ks = sort.keys@;
    let mut out: Vec<usize> = Vec::new();
    let mut i: usize = 0;
    let mut j: usize = 0;
    while i < left.len() || j < right.len()
        invariant
            i <= left.len(),
            j <= right.len(),
            0 <= lo <= mid <= hi <= rows@.len(),
            rv == rows_view(rows@),
            ks == sort.keys@,
            sorted_run(ks, rv, left@, lo, mid),
            sorted_run(ks, rv, right@, mid, hi),
            out@.len() == i + j,
            forall|k: int| 0 <= k < out@.len() ==> lo <= #[trigger] out@[k] < hi,
            forall|a: int, b: int|
                0 <= a < b < out@.len() ==> precedes(
                    ks,
                    rv,
                    #[trigger] out@[a] as int,
                    #[trigger] out@[b] as int,
                ),
            forall|a: int, b: int|
                0 <= a < out@.len() && i <= b < left@.len() ==> precedes(
                    ks,
                    rv,
                    #[trigger] out@[a] as int,
                    #[trigger] left@[b] as int,
                ),
            forall|a: int, b: int|
                0 <= a < out@.len() && j <= b < right@.len() ==> precedes(
                    ks,
                    rv,
                    #[trigger] out@[a] as int,
                    #[trigger] right@[b] as int,
                ),
            forall|b: int| 0 <= b < i ==> out@.contains(#[trigger] left@[b]),
            forall|b: int| 0 <= b < j ==> out@.contains(#[trigger] right@[b]),
        decreases left.len() - i + right.len() - j,
    {
        let from_left = if i >= left.len() {
            false
        } else if j >= right.len() {
            true
        } else {
            assert(lo <= left@[i as int] < mid);
            assert(mid <= right@[j as int] < hi);
            let s = sort.compare(rows[left[i]].as_slice(), rows[right[j]].as_slice());
            proof {
                assert(rv[left@[i as int] as int] == row_view(rows@[left@[i as int] as int]@));
                assert(rv[right@[j as int] as int] == row_view(rows@[right@[j as int] as int]@));
            }
            s <= 0
        };
        let next: usize = if from_left {
            left[i]
        } else {
            right[j]
        };
        let ghost old_out = out@;
        proof {
            if from_left {
                assert(lo <= left@[i as int] < mid);
                if j < right@.len() {
                    let r = right@[j as int] as int;
                    assert(mid <= right@[j as int] < hi);
                    assert(precedes(ks, rv, next as int, r));
                    assert forall|b: int| j <= b < right@.len() implies precedes(
                        ks,
                        rv,
                        next as int,
                        #[trigger] right@[b] as int,
                    ) by {
                        if b > j {
                            lemma_precedes(ks, rv, next as int, r, right@[b] as int);
                        }
                    }
                }
            } else {
                assert(mid <= right@[j as int] < hi);
                if i < left@.len() {
                    let l = left@[i as int] as int;
                    assert(lo <= left@[i as int] < mid);
                    law_rows_are_totally_ordered(ks, rv[l], rv[next as int], rv[l]);
                    assert(precedes(ks, rv, next as int, l));
                    assert forall|b: int| i <= b < left@.len() implies precedes(
                        ks,
                        rv,
                        next as int,
                        #[trigger] left@[b] as int,
                    ) by {
                        if b > i {
                            lemma_precedes(ks, rv, next as int, l, left@[b] as int);
                        }
                    }
                }
            }
        }
        out.push(next);
        proof {
            assert(out@[old_out.len() as int] == next);
            assert forall|x: usize| old_out.contains(x) implies out@.contains(x) by {
                let k = old_out.index_of(x);
                assert(out@[k] == x);
            }
        }
        if from_left {
            i += 1;
        } else {
            j += 1;
        }
    }
    proof {
        assert forall|k: usize| lo <= k < hi implies #[trigger] out@.contains(k) by {
            if k < mid {
                assert(left@.contains(k));
                let b = left@.index_of(k);
                assert(left@[b] == k);
            } else {
                assert(right@.contains(k));
                let b = right@.index_of(k);
                assert(right@[b] == k);
            }
        }
    }
    out
}

/// The rows from `lo` up to `hi`, listed in their sorted order.
fn merge_sort(sort: &SortStmt, rows: &[Row], lo: usize, hi: usize) -> (idx: Vec<usize>)
    requires
        lo <= hi <= rows@.len(),
    ensures
        sorted_run(sort.keys@, rows_view(rows@), idx@, lo as int, hi as int),
    decreases hi - lo,
{
    if hi - lo <= 1 {
        let mut idx: Vec<usize> = Vec::new();
        if lo < hi {
            idx.push(lo);
            assert(idx@[0] == lo);
        }
        return idx;
    }
    let mid: usize = lo + (hi - lo) / 2;
    let left = merge_sort(sort, rows, lo, mid);
    let right = merge_sort(sort, rows, mid, hi);
    merge(sort, rows, &left, &right, Ghost(lo as int), Ghost(mid as int), Ghost(hi as int))
}

/// Converts the numeric sort-key columns once, then stable-sorts.
pub fn sort_rows(sort: &SortStmt, rows: &[Row], readings: &Readings) -> (r: Result<
    Vec<Row>,
    NumError,
>)
    ensures
        ({
            let c = converted(
                rows_view(rows@),
                numeric_keys(sort.keys@),
                readings@,
                rows@.len() as int,
            );
            match r {
                Ok(out) => c is Ok && stably_sorted(sort.keys@, c->Ok_0, rows_view(out@)),
                Err(e) => c == Err::<Seq<Seq<FieldV>>, Seq<char>>(e.0@),
            }
        }),
{
    let numeric = sort.numeric_positions();
    let ghost rv = rows_view(rows@);
    let mut ready: Vec<Row> = Vec::new();
    let mut i: usize = 0;
    assert(rows_view(ready@) =~= seq![]);
    while i < rows.len()
        invariant
            i <= rows.len(),
            rv == rows_view(rows@),
            numeric@ == numeric_keys(sort.keys@),
            converted(rv, numeric@, readings@, i as int) == Ok::<Seq<Seq<FieldV>>, Seq<char>>(
                rows_view(ready@),
            ),
        decreases rows.len() - i,
    {
        let ghost before = rows_view(ready@);
        assert(rv[i as int] == row_view(rows@[i as int]@));
        match to_nums(clone_row(rows[i].as_slice()), numeric.as_slice(), readings) {
            Ok(row) => {
                let ghost one = row_view(row@);
                ready.push(row);
                assert(rows_view(ready@) =~= before.push(one));
            },
            Err(e) => {
                proof {
                    lemma_converted_fails(rv, numeric@, readings@, i + 1, rows@.len() as int);
                }
                return Err(e);
            },
        }
        i += 1;
    }
    let idx = merge_sort(sort, ready.as_slice(), 0, ready.len());
    let ghost ordered = idx@.map_values(|k: usize| rows_view(ready@)[k as int]);
    let mut out: Vec<Row> = Vec::new();
    let mut k: usize = 0;
    while k < idx.len()
        invariant
            k <= idx.len(),
            forall|n: int| 0 <= n < idx@.len() ==> #[trigger] idx@[n] < ready@.len(),
            ordered == idx@.map_values(|k: usize| rows_view(ready@)[k as int]),
            rows_view(out@) == ordered.take(k as int),
        decreases idx.len() - k,
    {
        let ghost before = rows_view(out@);
        let row = clone_row(ready[idx[k]].as_slice());
        let ghost one = row_view(row@);
        out.push(row);
        proof {
            assert(rows_view(out@) =~= before.push(one));
            assert(ordered[k as int] == one);
            assert(ordered.take(k + 1) =~= ordered.take(k as int).push(one));
        }
        k += 1;
    }
    proof {
        assert(ordered.take(idx@.len() as int) =~= ordered);
        assert(sorted_run(sort.keys@, rows_view(ready@), idx@, 0, rows_view(ready@).len() as int));
    }
    Ok(out)
}

proof fn lemma_run_is_unique(
    keys: Seq<SortKey>,
    rows: Seq<Seq<FieldV>>,
    a: Seq<usize>,
    b: Seq<usize>,
)
    requires
        a.len() == b.len(),
        forall|i: int, j: int|
            0 <= i < j < a.len() ==> precedes(
                keys,
                rows,
                #[trigger] a[i] as int,
                #[trigger] a[j] as int,
            ),
        forall|i: int, j: int|
            0 <= i < j < b.len() ==> precedes(
                keys,
                rows,
                #[trigger] b[i] as int,
                #[trigger] b[j] as int,
            ),
        forall|k: usize| a.contains(k) <==> b.contains(k),
    ensures
        a == b,
    decreases a.len(),
{
    if a.len() == 0 {
        assert(a =~= b);
    } else {
        let n = a.len() - 1;
        let x = a[n];
        let y = b[n];
        assert(a.contains(x) && b.contains(y));
        assert(b.contains(x) && a.contains(y));
        let i = b.index_of(x);
        let j = a.index_of(y);
        if x != y {
            assert(i < n && j < n);
            assert(precedes(keys, rows, b[i] as int, b[n] as int));
            assert(precedes(keys, rows, a[j] as int, a[n] as int));
            lemma_precedes(keys, rows, x as int, y as int, x as int);
        }
        let fa = a.drop_last();
        let fb = b.drop_last();
        assert forall|k: usize| fa.contains(k) <==> fb.contains(k) by {
            if fa.contains(k) {
                let p = fa.index_of(k);
                assert(a[p] == k);
                assert(precedes(keys, rows, a[p] as int, a[n] as int));
                lemma_precedes(keys, rows, k as int, x as int, k as int);
                assert(b.contains(k));
                let q = b.index_of(k);
                assert(q != n);
                assert(fb[q] == k);
            }
            if fb.contains(k) {
                let p = fb.index_of(k);
                assert(b[p] == k);
                assert(precedes(keys, rows, b[p] as int, b[n] as int));
                lemma_precedes(keys, rows, k as int, x as int, k as int);
                assert(a.contains(k));
                let q = a.index_of(k);
                assert(q != n);
                assert(fa[q] == k);
            }
        }
        lemma_run_is_unique(keys, rows, fa, fb);
        assert(a =~= fa.push(x));
        assert(b =~= fb.push(y));
    }
}

/// A stable sort has one result: however the rows are sorted (in memory, in
/// parallel runs, or spilled and merged), they come out the same.
pub proof fn law_a_stable_sort_has_one_result(
    keys: Seq<SortKey>,
    rows: Seq<Seq<FieldV>>,
    a: Seq<Seq<FieldV>>,
    b: Seq<Seq<FieldV>>,
)
    requires
        stably_sorted(keys, rows, a),
        stably_sorted(keys, rows, b),
        rows.len() <= usize::MAX,
    ensures
        a == b,
{
    let n = rows.len() as int;
    let x = choose|idx: Seq<usize>|
        {
            &&& #[trigger] sorted_run(keys, rows, idx, 0, n)
            &&& a == idx.map_values(|i: usize| rows[i as int])
        };
    let y = choose|idx: Seq<usize>|
        {
            &&& #[trigger] sorted_run(keys, rows, idx, 0, n)
            &&& b == idx.map_values(|i: usize| rows[i as int])
        };
    assert forall|k: usize| x.contains(k) <==> y.contains(k) by {
        if x.contains(k) {
            let i = x.index_of(k);
            assert(x[i] == k);
        }
        if y.contains(k) {
            let i = y.index_of(k);
            assert(y[i] == k);
        }
    }
    lemma_run_is_unique(keys, rows, x, y);
}

/// Sorted rows are in order, and there are as many as before.
pub proof fn law_sorted_rows_are_in_order(
    keys: Seq<SortKey>,
    rows: Seq<Seq<FieldV>>,
    out: Seq<Seq<FieldV>>,
)
    requires
        stably_sorted(keys, rows, out),
    ensures
        out.len() == rows.len(),
        forall|i: int, j: int|
            0 <= i < j < out.len() ==> rows_sign(keys, #[trigger] out[i], #[trigger] out[j]) <= 0,
        forall|i: int| 0 <= i < out.len() ==> rows.contains(#[trigger] out[i]),
{
    let idx = choose|idx: Seq<usize>|
        {
            &&& #[trigger] sorted_run(keys, rows, idx, 0, rows.len() as int)
            &&& out == idx.map_values(|i: usize| rows[i as int])
        };
    assert forall|i: int, j: int| 0 <= i < j < out.len() implies rows_sign(
        keys,
        #[trigger] out[i],
        #[trigger] out[j],
    ) <= 0 by {
        assert(precedes(keys, rows, idx[i] as int, idx[j] as int));
    }
    assert forall|i: int| 0 <= i < out.len() implies rows.contains(#[trigger] out[i]) by {
        assert(0 <= idx[i] < rows.len());
        assert(rows[idx[i] as int] == out[i]);
    }
}

proof fn lemma_place_in_run(
    keys: Seq<SortKey>,
    rows: Seq<Seq<FieldV>>,
    idx: Seq<usize>,
    x: int,
    from: int,
) -> (p: int)
    requires
        0 <= from <= idx.len(),
        forall|i: int| 0 <= i < from ==> precedes(keys, rows, #[trigger] idx[i] as int, x),
    ensures
        0 <= p <= idx.len(),
        forall|i: int| 0 <= i < p ==> precedes(keys, rows, #[trigger] idx[i] as int, x),
        p < idx.len() ==> !precedes(keys, rows, idx[p] as int, x),
    decreases idx.len() - from,
{
    if from < idx.len() && precedes(keys, rows, idx[from] as int, x) {
        lemma_place_in_run(keys, rows, idx, x, from + 1)
    } else {
        from
    }
}

proof fn lemma_run_exists(keys: Seq<SortKey>, rows: Seq<Seq<FieldV>>, n: int) -> (idx: Seq<usize>)
    requires
        0 <= n <= rows.len(),
        rows.len() <= usize::MAX,
    ensures
        sorted_run(keys, rows, idx, 0, n),
    decreases n,
{
    if n == 0 {
        Seq::empty()
    } else {
        let x = n - 1;
        let front = lemma_run_exists(keys, rows, x);
        let p = lemma_place_in_run(keys, rows, front, x, 0);
        let idx = front.insert(p, x as usize);
        assert forall|i: int| p <= i < front.len() implies precedes(
            keys,
            rows,
            x,
            #[trigger] front[i] as int,
        ) by {
            lemma_precedes(keys, rows, x, front[p] as int, front[i] as int);
            if i > p {
                assert(precedes(keys, rows, front[p] as int, front[i] as int));
            }
        }
        assert forall|k: usize| 0 <= k < n implies #[trigger] idx.contains(k) by {
            if k == x {
                assert(idx[p] == k);
            } else {
                assert(front.contains(k));
                let i = front.index_of(k);
                if i < p {
                    assert(idx[i] == k);
                } else {
                    assert(idx[i + 1] == k);
                }
            }
        }
        assert forall|i: int| 0 <= i < idx.len() implies 0 <= #[trigger] idx[i] < n by {
            if i < p {
                assert(idx[i] == front[i]);
            } else if i > p {
                assert(idx[i] == front[i - 1]);
            }
        }
        assert forall|i: int, j: int| 0 <= i < j < idx.len() implies precedes(
            keys,
            rows,
            #[trigger] idx[i] as int,
            #[trigger] idx[j] as int,
        ) by {
            let a = if i < p {
                i
            } else {
                i - 1
            };
            let b = if j < p {
                j
            } else {
                j - 1
            };
            if i == p {
                assert(idx[j] == front[b]);
            } else if j == p {
                assert(idx[i] == front[a]);
            } else {
                assert(idx[i] == front[a] && idx[j] == front[b]);
            }
        }
        idx
    }
}

/// Any rows can be sorted by any keys.
pub proof fn law_there_is_a_sorted_order(keys: Seq<SortKey>, rows: Seq<Seq<FieldV>>) -> (out: Seq<
    Seq<FieldV>,
>)
    requires
        rows.len() <= usize::MAX,
    ensures
        stably_sorted(keys, rows, out),
{
    let idx = lemma_run_exists(keys, rows, rows.len() as int);
    idx.map_values(|i: usize| rows[i as int])
}

} // verus!
