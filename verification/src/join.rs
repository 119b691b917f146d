//! `join`: merging the rows of a right side in by key.

use crate::csv::{chunk_rows, parse_chunk, row_line, text_rows, write_row};
use crate::error::Error;
use crate::field::{
    Field, FieldV, Row, cell_at, cell_or_empty, pick, pick_cells, row_view, rows_view,
};
use crate::outside::{utf8_fault, utf8_text};
use crate::plan::{JoinStmt, JoinType};
use crate::text::cat2;
use vstd::hash_map::StringHashMap;
use vstd::prelude::*;
use vstd::utf8::{decode_utf8, valid_utf8};

verus! {

/// A row's key: the cells at `positions` as a line of CSV, so that commas and
/// quotes in cells cannot collide between keys.
pub open spec fn join_key(row: Seq<FieldV>, positions: Seq<usize>) -> Seq<char> {
    row_line(pick(row, positions))
}

/// Which of the first `n` right rows have the key, in order.
pub open spec fn matches_of(
    right: Seq<Seq<FieldV>>,
    positions: Seq<usize>,
    key: Seq<char>,
    n: int,
) -> Seq<usize>
    decreases n,
{
    if n <= 0 {
        seq![]
    } else if join_key(right[n - 1], positions) == key {
        matches_of(right, positions, key, n - 1).push((n - 1) as usize)
    } else {
        matches_of(right, positions, key, n - 1)
    }
}

/// A joined output row: the left columns, then the right's emitted columns
/// (empty cells when there is no right row, i.e. for an unmatched left row).
pub open spec fn combined(
    j: JoinStmt,
    lrow: Seq<FieldV>,
    rrow: Option<Seq<FieldV>>,
) -> Seq<FieldV> {
    Seq::new(j.left_ncols as nat, |i: int| cell_or_empty(lrow, i)) + match rrow {
        Some(r) => pick(r, j.right_emit_pos@),
        None => j.right_emit_pos@.map_values(|p: usize| FieldV::Str(seq![])),
    }
}

/// The left cells of an unmatched right row: empty, except that the first `n`
/// key columns carry the equal right key value.
pub open spec fn coalesced(j: JoinStmt, rrow: Seq<FieldV>, n: int) -> Seq<FieldV>
    decreases n,
{
    if n <= 0 {
        Seq::new(j.left_ncols as nat, |i: int| FieldV::Str(seq![]))
    } else {
        let before = coalesced(j, rrow, n - 1);
        let lp = j.left_key_pos@[n - 1] as int;
        if lp < before.len() {
            before.update(lp, cell_or_empty(rrow, j.right_key_pos@[n - 1] as int))
        } else {
            before
        }
    }
}

/// How many key columns there are on both sides.
pub open spec fn key_pairs(j: JoinStmt) -> int {
    if j.left_key_pos@.len() <= j.right_key_pos@.len() {
        j.left_key_pos@.len() as int
    } else {
        j.right_key_pos@.len() as int
    }
}

/// An unmatched right row (right/full join): left columns empty, except the left
/// key columns carry the equal right key value (coalesce), then the right cells.
pub open spec fn right_only(j: JoinStmt, rrow: Seq<FieldV>) -> Seq<FieldV> {
    coalesced(j, rrow, key_pairs(j)) + pick(rrow, j.right_emit_pos@)
}

/// What one left row is joined to: a row per right row with its key; when there
/// is none, itself padded with empty cells if the join keeps unmatched left
/// rows.
pub open spec fn left_part(j: JoinStmt, lrow: Seq<FieldV>, right: Seq<Seq<FieldV>>) -> Seq<
    Seq<FieldV>,
> {
    let ms = matches_of(
        right,
        j.right_key_pos@,
        join_key(lrow, j.left_key_pos@),
        right.len() as int,
    );
    if ms.len() > 0 {
        ms.map_values(|i: usize| combined(j, lrow, Some(right[i as int])))
    } else if j.join_type == JoinType::Left || j.join_type == JoinType::Full {
        seq![combined(j, lrow, None)]
    } else {
        seq![]
    }
}

/// What the first `n` left rows are joined to.
pub open spec fn left_parts(
    j: JoinStmt,
    left: Seq<Seq<FieldV>>,
    right: Seq<Seq<FieldV>>,
    n: int,
) -> Seq<Seq<FieldV>>
    decreases n,
{
    if n <= 0 {
        seq![]
    } else {
        left_parts(j, left, right, n - 1) + left_part(j, left[n - 1], right)
    }
}

/// Whether one of the first `n` left rows has the key.
pub open spec fn key_among(
    j: JoinStmt,
    left: Seq<Seq<FieldV>>,
    key: Seq<char>,
    n: int,
) -> bool {
    exists|i: int| 0 <= i < n && join_key(#[trigger] left[i], j.left_key_pos@) == key
}

/// The first `n` right rows that no left row matches.
pub open spec fn right_parts(
    j: JoinStmt,
    left: Seq<Seq<FieldV>>,
    right: Seq<Seq<FieldV>>,
    n: int,
) -> Seq<Seq<FieldV>>
    decreases n,
{
    if n <= 0 {
        seq![]
    } else {
        let before = right_parts(j, left, right, n - 1);
        if key_among(j, left, join_key(right[n - 1], j.right_key_pos@), left.len() as int) {
            before
        } else {
            before.push(right_only(j, right[n - 1]))
        }
    }
}

/// The rows of a join: those of the left rows in order, then, if the join keeps
/// them, the right rows that nothing matched.
pub open spec fn joined_rows(j: JoinStmt, left: Seq<Seq<FieldV>>, right: Seq<Seq<FieldV>>) -> Seq<
    Seq<FieldV>,
> {
    left_parts(j, left, right, left.len() as int) + if j.join_type == JoinType::Right || j.join_type
        == JoinType::Full {
        right_parts(j, left, right, right.len() as int)
    } else {
        seq![]
    }
}

fn encode_key(row: &[Field], positions: &[usize]) -> (key: String)
    ensures
        key@ == join_key(row_view(row@), positions@),
{
    let sel = pick_cells(row, positions);
    let mut key = String::new();
    write_row(&mut key, sel.as_slice());
    assert(key@ =~= join_key(row_view(row@), positions@));
    key
}

fn empty_cell() -> (f: Field)
    ensures
        f@ == FieldV::Str(seq![]),
{
    let f = Field::Str(String::new());
    assert(f@->Str_0 =~= seq![]);
    f
}

fn combine(j: &JoinStmt, lrow: &[Field], rrow: Option<&[Field]>) -> (out: Row)
    ensures
        row_view(out@) == combined(
            *j,
            row_view(lrow@),
            match rrow {
                Some(r) => Some(row_view(r@)),
                None => None,
            },
        ),
{
    let ghost rv = match rrow {
        Some(r) => Some(row_view(r@)),
        None => None,
    };
    let ghost want = combined(*j, row_view(lrow@), rv);
    let ghost n = j.left_ncols as int;
    let mut out: Row = Vec::new();
    let mut i: usize = 0;
    assert(row_view(out@) =~= want.take(0));
    while i < j.left_ncols
        invariant
            i <= j.left_ncols,
            n == j.left_ncols,
            want == combined(*j, row_view(lrow@), rv),
            want.len() == n + j.right_emit_pos@.len(),
            row_view(out@) == want.take(i as int),
        decreases j.left_ncols - i,
    {
        let ghost before = row_view(out@);
        out.push(cell_at(lrow, i));
        proof {
            assert(row_view(out@) =~= before.push(want[i as int]));
            assert(want.take(i + 1) =~= want.take(i as int).push(want[i as int]));
        }
        i += 1;
    }
    let mut k: usize = 0;
    while k < j.right_emit_pos.len()
        invariant
            k <= j.right_emit_pos@.len(),
            n == j.left_ncols,
            rv == (match rrow {
                Some(r) => Some(row_view(r@)),
                None => None,
            }),
            want == combined(*j, row_view(lrow@), rv),
            want.len() == n + j.right_emit_pos@.len(),
            row_view(out@) == want.take(n + k),
        decreases j.right_emit_pos.len() - k,
    {
        let ghost before = row_view(out@);
        let cell = match rrow {
            Some(r) => cell_at(r, j.right_emit_pos[k]),
            None => empty_cell(),
        };
        out.push(cell);
        proof {
            assert(want[n + k] == cell@);
            assert(row_view(out@) =~= before.push(want[n + k]));
            assert(want.take(n + k + 1) =~= want.take(n + k).push(want[n + k]));
        }
        k += 1;
    }
    assert(want.take(n + k) =~= want);
    out
}

fn combine_right_only(j: &JoinStmt, rrow: &[Field]) -> (out: Row)
    ensures
        row_view(out@) == right_only(*j, row_view(rrow@)),
{
    let ghost rv = row_view(rrow@);
    let mut out: Row = Vec::new();
    let mut i: usize = 0;
    assert(row_view(out@) =~= coalesced(*j, rv, 0).take(0));
    while i < j.left_ncols
        invariant
            i <= j.left_ncols,
            row_view(out@) == coalesced(*j, rv, 0).take(i as int),
        decreases j.left_ncols - i,
    {
        let ghost before = row_view(out@);
        out.push(empty_cell());
        proof {
            let c = coalesced(*j, rv, 0);
            assert(row_view(out@) =~= before.push(c[i as int]));
            assert(c.take(i + 1) =~= c.take(i as int).push(c[i as int]));
        }
        i += 1;
    }
    assert(coalesced(*j, rv, 0).take(i as int) =~= coalesced(*j, rv, 0));
    let mut k: usize = 0;
    while k < j.left_key_pos.len() && k < j.right_key_pos.len()
        invariant
            k <= key_pairs(*j),
            rv == row_view(rrow@),
            row_view(out@) == coalesced(*j, rv, k as int),
        decreases j.left_key_pos.len() - k,
    {
        let ghost before = row_view(out@);
        let lp = j.left_key_pos[k];
        if lp < out.len() {
            let cell = cell_at(rrow, j.right_key_pos[k]);
            let ghost cv = cell@;
            out.set(lp, cell);
            assert(row_view(out@) =~= before.update(lp as int, cv));
        }
        k += 1;
    }
    let ghost keyed = row_view(out@);
    let mut tail = pick_cells(rrow, j.right_emit_pos.as_slice());
    let ghost tv = row_view(tail@);
    out.append(&mut tail);
    assert(row_view(out@) =~= keyed + tv);
    out
}

proof fn lemma_matches_are_rows(
    right: Seq<Seq<FieldV>>,
    positions: Seq<usize>,
    key: Seq<char>,
    n: int,
)
    requires
        0 <= n <= right.len(),
        n <= usize::MAX,
    ensures
        forall|i: int|
            0 <= i < matches_of(right, positions, key, n).len() ==> {
                let m = #[trigger] matches_of(right, positions, key, n)[i];
                m < n && join_key(right[m as int], positions) == key
            },
        forall|m: int|
            0 <= m < n && join_key(#[trigger] right[m], positions) == key ==> matches_of(
                right,
                positions,
                key,
                n,
            ).contains(m as usize),
    decreases n,
{
    if n > 0 {
        lemma_matches_are_rows(right, positions, key, n - 1);
        let before = matches_of(right, positions, key, n - 1);
        let all = matches_of(right, positions, key, n);
        assert forall|m: int|
            0 <= m < n && join_key(#[trigger] right[m], positions) == key implies all.contains(
            m as usize,
        ) by {
            if m == n - 1 {
                assert(all[before.len() as int] == m as usize);
            } else {
                assert(before.contains(m as usize));
                let k = before.index_of(m as usize);
                assert(all[k] == m as usize);
            }
        }
    }
}

/// The lists of right rows, one for each key there is.
struct Table {
    index: StringHashMap<usize>,
    lists: Vec<Vec<usize>>,
}

impl Table {
    /// Whether the table lists the first `n` right rows by key.
    spec fn lists_rows(&self, right: Seq<Seq<FieldV>>, positions: Seq<usize>, n: int) -> bool {
        &&& forall|key: Seq<char>| #[trigger]
            self.index@.contains_key(key) ==> {
                let i = self.index@[key] as int;
                0 <= i < self.lists@.len() && self.lists@[i]@ == matches_of(
                    right,
                    positions,
                    key,
                    n,
                )
            }
        &&& forall|key: Seq<char>|
            !(#[trigger] self.index@.contains_key(key)) ==> matches_of(right, positions, key, n).len()
                == 0
        &&& forall|a: Seq<char>, b: Seq<char>|
            #[trigger] self.index@.contains_key(a) && #[trigger] self.index@.contains_key(b) && a
                != b ==> self.index@[a] != self.index@[b]
        &&& forall|a: Seq<char>| #[trigger]
            self.index@.contains_key(a) ==> self.index@[a] < self.lists@.len()
    }

    fn build(rows: &[Row], positions: &[usize]) -> (t: Table)
        ensures
            t.lists_rows(rows_view(rows@), positions@, rows@.len() as int),
    {
        let ghost rv = rows_view(rows@);
        let mut t = Table { index: StringHashMap::new(), lists: Vec::new() };
        let mut i: usize = 0;
        while i < rows.len()
            invariant
                i <= rows.len(),
                rv == rows_view(rows@),
                t.lists_rows(rv, positions@, i as int),
            decreases rows.len() - i,
        {
            let key = encode_key(rows[i].as_slice(), positions);
            let ghost kt = key@;
            assert(rv[i as int] == row_view(rows@[i as int]@));
            let ghost before = t;
            let found: Option<usize> = match t.index.get(key.as_str()) {
                Some(n) => Some(*n),
                None => None,
            };
            match found {
                Some(n) => {
                    t.lists[n].push(i);
                },
                None => {
                    let mut list: Vec<usize> = Vec::new();
                    list.push(i);
                    assert(list@ =~= seq![i]);
                    let n = t.lists.len();
                    t.index.insert(key, n);
                    t.lists.push(list);
                },
            }
            proof {
                assert forall|key: Seq<char>| #[trigger] t.index@.contains_key(key) implies ({
                    let k = t.index@[key] as int;
                    0 <= k < t.lists@.len() && t.lists@[k]@ == matches_of(
                        rv,
                        positions@,
                        key,
                        i + 1,
                    )
                }) by {
                    if key == kt {
                        if found is None {
                            assert(matches_of(rv, positions@, key, i as int) =~= seq![]);
                        }
                        assert(t.lists@[t.index@[key] as int]@ =~= matches_of(
                            rv,
                            positions@,
                            key,
                            i as int,
                        ).push(i));
                    } else {
                        assert(before.index@.contains_key(key));
                        let k = before.index@[key] as int;
                        assert(t.index@[key] == before.index@[key]);
                        assert(t.lists@[k] == before.lists@[k]);
                    }
                }
                assert forall|key: Seq<char>|
                    !(#[trigger] t.index@.contains_key(key)) implies matches_of(
                    rv,
                    positions@,
                    key,
                    i + 1,
                ).len() == 0 by {
                    assert(!before.index@.contains_key(key));
                    assert(key != kt);
                }
                assert forall|a: Seq<char>, b: Seq<char>|
                    #[trigger] t.index@.contains_key(a) && #[trigger] t.index@.contains_key(b) && a
                        != b implies t.index@[a] != t.index@[b] by {
                    if found is None {
                        if a != kt {
                            assert(before.index@.contains_key(a));
                        }
                        if b != kt {
                            assert(before.index@.contains_key(b));
                        }
                    }
                }
            }
            i += 1;
        }
        t
    }
}

/// Probes the left rows against a table of the right rows, emitting joined rows
/// per the join type. One-to-many fan-out is honored (a left row matching N
/// right rows yields N rows); unmatched rows are padded with empty cells for
/// left/right/full as appropriate.
pub fn join_rows(j: &JoinStmt, left: &[Row], right: &[Row]) -> (out: Vec<Row>)
    ensures
        rows_view(out@) == joined_rows(*j, rows_view(left@), rows_view(right@)),
{
    let ghost lv = rows_view(left@);
    let ghost rv = rows_view(right@);
    let ghost rn = right@.len() as int;
    let table = Table::build(right, j.right_key_pos.as_slice());
    let mut matched: Vec<bool> = Vec::new();
    let mut i: usize = 0;
    while i < right.len()
        invariant
            i <= right.len(),
            matched@.len() == i,
            forall|k: int| 0 <= k < i ==> !(#[trigger] matched@[k]),
        decreases right.len() - i,
    {
        matched.push(false);
        i += 1;
    }
    let mut out: Vec<Row> = Vec::new();
    let mut l: usize = 0;
    assert(rows_view(out@) =~= seq![]);
    while l < left.len()
        invariant
            l <= left.len(),
            lv == rows_view(left@),
            rv == rows_view(right@),
            rn == right@.len(),
            rn <= usize::MAX,
            table.lists_rows(rv, j.right_key_pos@, rn),
            matched@.len() == rn,
            rows_view(out@) == left_parts(*j, lv, rv, l as int),
            forall|k: int|
                0 <= k < rn ==> #[trigger] matched@[k] == key_among(
                    *j,
                    lv,
                    join_key(rv[k], j.right_key_pos@),
                    l as int,
                ),
        decreases left.len() - l,
    {
        let key = encode_key(left[l].as_slice(), j.left_key_pos.as_slice());
        let ghost kt = key@;
        assert(lv[l as int] == row_view(left@[l as int]@));
        let ghost before = rows_view(out@);
        let ghost ms = matches_of(rv, j.right_key_pos@, kt, rn);
        let ghost was = matched@;
        proof {
            lemma_matches_are_rows(rv, j.right_key_pos@, kt, rn);
        }
        let found: Option<usize> = match table.index.get(key.as_str()) {
            Some(n) => Some(*n),
            None => None,
        };
        let hits: usize = match found {
            Some(n) => table.lists[n].len(),
            None => 0,
        };
        if hits > 0 {
            let n: usize = match found {
                Some(n) => n,
                None => 0,
            };
            let ghost part = ms.map_values(
                |i: usize| combined(*j, lv[l as int], Some(rv[i as int])),
            );
            let mut m: usize = 0;
            assert(before + part.take(0) =~= before);
            while m < hits
                invariant
                    m <= hits,
                    l < left@.len(),
                    n < table.lists@.len(),
                    hits == ms.len(),
                    table.lists@[n as int]@ == ms,
                    lv == rows_view(left@),
                    rv == rows_view(right@),
                    rn == right@.len(),
            rn <= usize::MAX,
                    matched@.len() == rn,
                    forall|i: int| 0 <= i < ms.len() ==> (#[trigger] ms[i]) < rn,
                    lv[l as int] == row_view(left@[l as int]@),
                    part == ms.map_values(
                        |i: usize| combined(*j, lv[l as int], Some(rv[i as int])),
                    ),
                    rows_view(out@) == before + part.take(m as int),
                    forall|k: int|
                        0 <= k < rn ==> #[trigger] matched@[k] == (was[k] || ms.take(
                            m as int,
                        ).contains(k as usize)),
                decreases hits - m,
            {
                let ri = table.lists[n][m];
                assert(ms[m as int] == ri);
                let ghost old_matched = matched@;
                matched.set(ri, true);
                let ghost so_far = rows_view(out@);
                let row = combine(j, left[l].as_slice(), Some(right[ri].as_slice()));
                out.push(row);
                proof {
                    assert(rv[ri as int] == row_view(right@[ri as int]@));
                    assert(rows_view(out@) =~= so_far.push(part[m as int]));
                    assert(part.take(m + 1) =~= part.take(m as int).push(part[m as int]));
                    assert(before + part.take(m + 1) =~= (before + part.take(m as int)).push(
                        part[m as int],
                    ));
                    assert forall|k: int| 0 <= k < rn implies #[trigger] matched@[k] == (was[k]
                        || ms.take(m + 1).contains(k as usize)) by {
                        let a = ms.take(m as int);
                        let b = ms.take(m + 1);
                        assert(b =~= a.push(ri));
                        assert(old_matched[k] == (was[k] || a.contains(k as usize)));
                        if a.contains(k as usize) {
                            let x = a.index_of(k as usize);
                            assert(b[x] == k as usize);
                        }
                        if b.contains(k as usize) {
                            let x = b.index_of(k as usize);
                            if x < m {
                                assert(a[x] == k as usize);
                            }
                        }
                        if k == ri {
                            assert(b[m as int] == k as usize);
                        }
                    }
                }
                m += 1;
            }
            proof {
                assert(part.take(hits as int) =~= part);
                assert(ms.take(hits as int) =~= ms);
            }
        } else if j.join_type.keeps_left_unmatched() {
            let row = combine(j, left[l].as_slice(), None);
            out.push(row);
            assert(rows_view(out@) =~= before + seq![combined(*j, lv[l as int], None)]);
        } else {
            assert(before + Seq::<Seq<FieldV>>::empty() =~= before);
        }
        proof {
            assert(rows_view(out@) =~= left_parts(*j, lv, rv, l + 1));
            assert forall|k: int| 0 <= k < rn implies #[trigger] matched@[k] == key_among(
                *j,
                lv,
                join_key(rv[k], j.right_key_pos@),
                l + 1,
            ) by {
                let rk = join_key(rv[k], j.right_key_pos@);
                lemma_key_among_step(*j, lv, rk, l as int);
                assert(was[k] == key_among(*j, lv, rk, l as int));
                if rk == kt {
                    assert(ms.contains(k as usize));
                } else if ms.contains(k as usize) {
                    let x = ms.index_of(k as usize);
                    assert(join_key(rv[ms[x] as int], j.right_key_pos@) == kt);
                }
            }
        }
        l += 1;
    }
    if j.join_type.keeps_right_unmatched() {
        let ghost lefts = rows_view(out@);
        let mut r: usize = 0;
        assert(lefts + right_parts(*j, lv, rv, 0) =~= lefts);
        while r < right.len()
            invariant
                r <= right.len(),
                lv == rows_view(left@),
                rv == rows_view(right@),
                rn == right@.len(),
            rn <= usize::MAX,
                matched@.len() == rn,
                forall|k: int|
                    0 <= k < rn ==> #[trigger] matched@[k] == key_among(
                        *j,
                        lv,
                        join_key(rv[k], j.right_key_pos@),
                        lv.len() as int,
                    ),
                rows_view(out@) == lefts + right_parts(*j, lv, rv, r as int),
            decreases right.len() - r,
        {
            let ghost so_far = rows_view(out@);
            assert(rv[r as int] == row_view(right@[r as int]@));
            if !matched[r] {
                out.push(combine_right_only(j, right[r].as_slice()));
                assert(rows_view(out@) =~= so_far.push(right_only(*j, rv[r as int])));
                assert(so_far.push(right_only(*j, rv[r as int])) =~= lefts + right_parts(
                    *j,
                    lv,
                    rv,
                    r + 1,
                ));
            }
            r += 1;
        }
    } else {
        assert(rows_view(out@) + Seq::<Seq<FieldV>>::empty() =~= rows_view(out@));
    }
    out
}

proof fn lemma_key_among_step(j: JoinStmt, left: Seq<Seq<FieldV>>, key: Seq<char>, n: int)
    requires
        n >= 0,
    ensures
        key_among(j, left, key, n + 1) == (key_among(j, left, key, n) || join_key(
            left[n],
            j.left_key_pos@,
        ) == key),
{
    if join_key(left[n], j.left_key_pos@) == key {
        assert(join_key(left[n], j.left_key_pos@) == key);
    }
}

/// A left row that N right rows match yields N rows; one that none matches
/// yields one row if the join keeps unmatched left rows, and none otherwise.
pub proof fn law_a_left_row_fans_out(j: JoinStmt, lrow: Seq<FieldV>, right: Seq<Seq<FieldV>>)
    ensures
        ({
            let n = matches_of(
                right,
                j.right_key_pos@,
                join_key(lrow, j.left_key_pos@),
                right.len() as int,
            ).len();
            left_part(j, lrow, right).len() == (if n > 0 {
                n
            } else if j.join_type == JoinType::Left || j.join_type == JoinType::Full {
                1
            } else {
                0
            })
        }),
{
}

proof fn lemma_coalesced_width(j: JoinStmt, rrow: Seq<FieldV>, n: int)
    ensures
        coalesced(j, rrow, n).len() == j.left_ncols,
    decreases n,
{
    if n > 0 {
        lemma_coalesced_width(j, rrow, n - 1);
    }
}

proof fn lemma_left_parts_width(
    j: JoinStmt,
    left: Seq<Seq<FieldV>>,
    right: Seq<Seq<FieldV>>,
    n: int,
)
    ensures
        forall|i: int|
            0 <= i < left_parts(j, left, right, n).len() ==> (#[trigger] left_parts(
                j,
                left,
                right,
                n,
            )[i]).len() == j.left_ncols + j.right_emit_pos@.len(),
    decreases n,
{
    if n > 0 {
        lemma_left_parts_width(j, left, right, n - 1);
        let before = left_parts(j, left, right, n - 1);
        let part = left_part(j, left[n - 1], right);
        let all = left_parts(j, left, right, n);
        assert forall|i: int| 0 <= i < all.len() implies (#[trigger] all[i]).len() == j.left_ncols
            + j.right_emit_pos@.len() by {
            if i < before.len() {
                assert(all[i] == before[i]);
            } else {
                assert(all[i] == part[i - before.len()]);
            }
        }
    }
}

proof fn lemma_right_parts_width(
    j: JoinStmt,
    left: Seq<Seq<FieldV>>,
    right: Seq<Seq<FieldV>>,
    n: int,
)
    ensures
        forall|i: int|
            0 <= i < right_parts(j, left, right, n).len() ==> (#[trigger] right_parts(
                j,
                left,
                right,
                n,
            )[i]).len() == j.left_ncols + j.right_emit_pos@.len(),
    decreases n,
{
    if n > 0 {
        lemma_right_parts_width(j, left, right, n - 1);
        lemma_coalesced_width(j, right[n - 1], key_pairs(j));
        let before = right_parts(j, left, right, n - 1);
        let all = right_parts(j, left, right, n);
        assert forall|i: int| 0 <= i < all.len() implies (#[trigger] all[i]).len() == j.left_ncols
            + j.right_emit_pos@.len() by {
            if i < before.len() {
                assert(all[i] == before[i]);
            }
        }
    }
}

/// Every row of a join has the left columns and the right's emitted columns,
/// matched or padded.
pub proof fn law_join_rows_have_one_width(
    j: JoinStmt,
    left: Seq<Seq<FieldV>>,
    right: Seq<Seq<FieldV>>,
)
    ensures
        forall|i: int|
            0 <= i < joined_rows(j, left, right).len() ==> (#[trigger] joined_rows(
                j,
                left,
                right,
            )[i]).len() == j.left_ncols + j.right_emit_pos@.len(),
{
    lemma_left_parts_width(j, left, right, left.len() as int);
    lemma_right_parts_width(j, left, right, right.len() as int);
    let a = left_parts(j, left, right, left.len() as int);
    let b = right_parts(j, left, right, right.len() as int);
    let all = joined_rows(j, left, right);
    assert forall|i: int| 0 <= i < all.len() implies (#[trigger] all[i]).len() == j.left_ncols
        + j.right_emit_pos@.len() by {
        if i < a.len() {
            assert(all[i] == a[i]);
        } else {
            assert(all[i] == b[i - a.len()]);
        }
    }
}

/// What stands behind the first line.
pub open spec fn behind_first_line(bytes: Seq<u8>) -> Seq<u8>
    decreases bytes.len(),
{
    if bytes.len() == 0 {
        bytes
    } else if bytes[0] == 10u8 {
        bytes.drop_first()
    } else {
        behind_first_line(bytes.drop_first())
    }
}

proof fn lemma_behind_first_line(bytes: Seq<u8>, i: int)
    requires
        0 <= i <= bytes.len(),
        forall|k: int| 0 <= k < i ==> bytes[k] != 10u8,
        i < bytes.len() ==> bytes[i] == 10u8,
    ensures
        behind_first_line(bytes) == (if i < bytes.len() {
            bytes.skip(i + 1)
        } else {
            Seq::empty()
        }),
    decreases bytes.len(),
{
    if bytes.len() > 0 {
        if i == 0 {
            assert(bytes.drop_first() =~= bytes.skip(1));
        } else {
            let rest = bytes.drop_first();
            assert forall|k: int| 0 <= k < i - 1 implies rest[k] != 10u8 by {
                assert(rest[k] == bytes[k + 1]);
            }
            lemma_behind_first_line(rest, i - 1);
            if i < bytes.len() {
                assert(rest.skip(i) =~= bytes.skip(i + 1));
            }
        }
    }
}

/// The rows of a right side, from what its pipeline wrote: its header line is
/// dropped and the rest parsed.
pub fn right_rows(written: &[u8]) -> (r: Result<Vec<Row>, Error>)
    ensures
        ({
            let body = behind_first_line(written@);
            match r {
                Ok(rows) => valid_utf8(body) && rows_view(rows@) == text_rows(
                    chunk_rows(decode_utf8(body)),
                ),
                Err(e) => !valid_utf8(body) && e is Other && e.said()
                    == "join right side is not valid UTF-8: "@ + utf8_fault(body),
            }
        }),
{
    let len = written.len();
    let cut = match memchr::memchr(10, written) {
        Some(i) => {
            proof {
                lemma_behind_first_line(written@, i as int);
            }
            i + 1
        },
        None => {
            proof {
                lemma_behind_first_line(written@, written@.len() as int);
            }
            len
        },
    };
    let body = &written[cut..len];
    assert(body@ =~= behind_first_line(written@));
    match utf8_text(body) {
        Ok(text) => {
            proof {
                vstd::utf8::encode_utf8_decode_utf8(text@);
            }
            Ok(parse_chunk(text.as_str()))
        },
        Err(e) => Err(
            Error::Other(cat2("join right side is not valid UTF-8: ", e.message.as_str())),
        ),
    }
}

} // verus!
