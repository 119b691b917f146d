//! Stages that look at all rows by a key: `uniq`, and `group … | agg …`; and the
//! profile that `stats` reduces its rows to.
//!
//! What an aggregate is of numbers (a sum, a mean) is floating-point work done
//! outside: a group collects the cells of each aggregated column, and takes the
//! [`ColFigures`] that summarize them.

use crate::csv::{row_line, write_row};
use crate::field::{
    Field, FieldV, Num, Row, cell_at, cell_or_empty, clone_row, pick, pick_cells, row_view,
    rows_view, whole_num, whole_view,
};
use crate::plan::{AggFunc, AggSpec, GroupStmt, StatsStmt};
use vstd::hash_map::StringHashMap;
use vstd::hash_set::StringHashSet;
use vstd::prelude::*;

verus! {

/// The key of a row: the whole row when there are no positions, else those
/// columns' cells; as a line of CSV, so that commas and quotes in cells cannot
/// collide.
pub open spec fn uniq_key(row: Seq<FieldV>, positions: Seq<usize>) -> Seq<char> {
    if positions.len() == 0 {
        row_line(row)
    } else {
        row_line(pick(row, positions))
    }
}

/// Whether row `i` is the first with its key.
pub open spec fn first_of_key(rows: Seq<Seq<FieldV>>, positions: Seq<usize>, i: int) -> bool {
    forall|k: int|
        0 <= k < i ==> uniq_key(#[trigger] rows[k], positions) != uniq_key(rows[i], positions)
}

/// The first `n` rows without those whose key came before.
pub open spec fn deduped(rows: Seq<Seq<FieldV>>, positions: Seq<usize>, n: int) -> Seq<Seq<FieldV>>
    decreases n,
{
    if n <= 0 {
        seq![]
    } else if first_of_key(rows, positions, n - 1) {
        deduped(rows, positions, n - 1).push(rows[n - 1])
    } else {
        deduped(rows, positions, n - 1)
    }
}

fn key_line(row: &[Field], positions: &[usize]) -> (key: String)
    ensures
        key@ == uniq_key(row_view(row@), positions@),
{
    let mut key = String::new();
    if positions.len() == 0 {
        write_row(&mut key, row);
    } else {
        let sel = pick_cells(row, positions);
        write_row(&mut key, sel.as_slice());
    }
    assert(key@ =~= uniq_key(row_view(row@), positions@));
    key
}

/// Drops duplicate rows, keeping the first occurrence. The dedup key is the
/// whole row when `positions` is empty, else those columns' cells.
pub fn dedup_rows(rows: &[Row], positions: &[usize]) -> (out: Vec<Row>)
    ensures
        rows_view(out@) == deduped(rows_view(rows@), positions@, rows@.len() as int),
{
    let ghost rv = rows_view(rows@);
    let mut seen = StringHashSet::new();
    let mut out: Vec<Row> = Vec::new();
    let mut i: usize = 0;
    assert(rows_view(out@) =~= seq![]);
    while i < rows.len()
        invariant
            i <= rows.len(),
            rv == rows_view(rows@),
            rows_view(out@) == deduped(rv, positions@, i as int),
            forall|k: int| 0 <= k < i ==> seen@.contains(uniq_key(#[trigger] rv[k], positions@)),
            forall|t: Seq<char>|
                seen@.contains(t) ==> exists|k: int|
                    0 <= k < i && uniq_key(#[trigger] rv[k], positions@) == t,
        decreases rows.len() - i,
    {
        let key = key_line(rows[i].as_slice(), positions);
        let ghost kt = key@;
        let ghost before = rows_view(out@);
        assert(rv[i as int] == row_view(rows@[i as int]@));
        let fresh = !seen.contains(key.as_str());
        if fresh {
            assert forall|k: int| 0 <= k < i implies uniq_key(#[trigger] rv[k], positions@)
                != kt by {
                assert(seen@.contains(uniq_key(rv[k], positions@)));
            }
            seen.insert(key);
            let row = clone_row(rows[i].as_slice());
            out.push(row);
            assert(rows_view(out@) =~= before.push(rv[i as int]));
        } else {
            assert(!first_of_key(rv, positions@, i as int)) by {
                let k = choose|k: int|
                    0 <= k < i && uniq_key(#[trigger] rv[k], positions@) == kt;
                assert(uniq_key(rv[k], positions@) == uniq_key(rv[i as int], positions@));
            }
        }
        i += 1;
    }
    out
}

/// Whether one of the first `n` rows has that key.
pub open spec fn has_key(
    rows: Seq<Seq<FieldV>>,
    positions: Seq<usize>,
    key: Seq<char>,
    n: int,
) -> bool {
    exists|k: int| 0 <= k < n && uniq_key(#[trigger] rows[k], positions) == key
}

proof fn lemma_has_key_step(
    rows: Seq<Seq<FieldV>>,
    positions: Seq<usize>,
    key: Seq<char>,
    n: int,
)
    requires
        n > 0,
    ensures
        has_key(rows, positions, key, n) == (has_key(rows, positions, key, n - 1) || uniq_key(
            rows[n - 1],
            positions,
        ) == key),
{
    if uniq_key(rows[n - 1], positions) == key {
        assert(uniq_key(rows[n - 1], positions) == key);
    }
}

proof fn lemma_has_key_push(
    rows: Seq<Seq<FieldV>>,
    positions: Seq<usize>,
    key: Seq<char>,
    row: Seq<FieldV>,
)
    ensures
        has_key(rows.push(row), positions, key, rows.len() as int) == has_key(
            rows,
            positions,
            key,
            rows.len() as int,
        ),
{
    let all = rows.push(row);
    let n = rows.len() as int;
    if has_key(all, positions, key, n) {
        let k = choose|k: int| 0 <= k < n && uniq_key(#[trigger] all[k], positions) == key;
        assert(rows[k] == all[k]);
    }
    if has_key(rows, positions, key, n) {
        let k = choose|k: int| 0 <= k < n && uniq_key(#[trigger] rows[k], positions) == key;
        assert(rows[k] == all[k]);
    }
}

/// `uniq` keeps just the keys there were, and each of them once.
pub proof fn law_uniq_keeps_one_row_of_each_key(
    rows: Seq<Seq<FieldV>>,
    positions: Seq<usize>,
    n: int,
)
    requires
        0 <= n <= rows.len(),
    ensures
        forall|key: Seq<char>|
            has_key(
                deduped(rows, positions, n),
                positions,
                key,
                deduped(rows, positions, n).len() as int,
            ) <==> #[trigger] has_key(rows, positions, key, n),
        forall|i: int|
            0 <= i < deduped(rows, positions, n).len() ==> #[trigger] first_of_key(
                deduped(rows, positions, n),
                positions,
                i,
            ),
    decreases n,
{
    let out = deduped(rows, positions, n);
    if n > 0 {
        law_uniq_keeps_one_row_of_each_key(rows, positions, n - 1);
        let before = deduped(rows, positions, n - 1);
        let last = rows[n - 1];
        let kt = uniq_key(last, positions);
        assert(first_of_key(rows, positions, n - 1) == !has_key(rows, positions, kt, n - 1));
        assert forall|key: Seq<char>|
            has_key(out, positions, key, out.len() as int) <==> #[trigger] has_key(
                rows,
                positions,
                key,
                n,
            ) by {
            lemma_has_key_step(rows, positions, key, n);
            assert(has_key(rows, positions, key, n - 1) <==> has_key(
                before,
                positions,
                key,
                before.len() as int,
            ));
            if first_of_key(rows, positions, n - 1) {
                lemma_has_key_step(out, positions, key, out.len() as int);
                lemma_has_key_push(before, positions, key, last);
            }
        }
        if first_of_key(rows, positions, n - 1) {
            assert forall|i: int| 0 <= i < out.len() implies #[trigger] first_of_key(
                out,
                positions,
                i,
            ) by {
                if i < before.len() {
                    assert(first_of_key(before, positions, i));
                    assert forall|k: int| 0 <= k < i implies uniq_key(
                        #[trigger] out[k],
                        positions,
                    ) != uniq_key(out[i], positions) by {
                        assert(out[k] == before[k]);
                        assert(out[i] == before[i]);
                    }
                } else {
                    assert(!has_key(rows, positions, kt, n - 1));
                    assert(!has_key(before, positions, kt, before.len() as int));
                    assert forall|k: int| 0 <= k < i implies uniq_key(
                        #[trigger] out[k],
                        positions,
                    ) != uniq_key(out[i], positions) by {
                        assert(out[k] == before[k]);
                    }
                }
            }
        }
    }
}

/// How many of the cells are filled.
pub open spec fn filled(cells: Seq<FieldV>) -> nat
    decreases cells.len(),
{
    if cells.len() == 0 {
        0
    } else {
        filled(cells.drop_last()) + if cells.last().text().len() > 0 {
            1nat
        } else {
            0nat
        }
    }
}

/// The cells of runs of cells put together are filled where those of the runs are.
pub proof fn law_filled_cells_add_up(a: Seq<FieldV>, b: Seq<FieldV>)
    ensures
        filled(a + b) == filled(a) + filled(b),
        filled(a) <= a.len(),
    decreases a.len() + b.len(),
{
    if b.len() > 0 {
        assert((a + b).drop_last() =~= a + b.drop_last());
        law_filled_cells_add_up(a, b.drop_last());
    } else {
        assert(a + b =~= a);
        if a.len() > 0 {
            law_filled_cells_add_up(a.drop_last(), b);
        }
    }
}

/// How many cells of a column are filled, and how many are empty.
#[derive(Clone, Copy, Debug, PartialEq, Eq, Structural)]
pub struct Tally {
    pub count: u64,
    pub empty: u64,
}

impl Tally {
    /// Whether this is the tally of those cells.
    pub open spec fn counts(self, cells: Seq<FieldV>) -> bool {
        self.count == filled(cells) && self.count + self.empty == cells.len()
    }

    /// The tally of no cells.
    pub fn new() -> (r: Self)
        ensures
            r.counts(seq![]),
    {
        Tally { count: 0, empty: 0 }
    }

    /// Counts one cell more.
    pub fn update(&mut self, f: &Field)
        requires
            old(self).count < u64::MAX,
            old(self).empty < u64::MAX,
        ensures
            forall|cells: Seq<FieldV>| #[trigger]
                old(self).counts(cells) ==> final(self).counts(cells.push(f@)),
    {
        let ghost before = *self;
        if f.as_str().is_empty() {
            self.empty = self.empty + 1;
        } else {
            self.count = self.count + 1;
        }
        assert forall|cells: Seq<FieldV>| #[trigger] before.counts(cells) implies self.counts(
            cells.push(f@),
        ) by {
            assert(cells.push(f@).drop_last() =~= cells);
        }
    }

    /// Counts the cells of another tally too.
    pub fn merge(&mut self, other: &Tally)
        requires
            old(self).count + other.count <= u64::MAX,
            old(self).empty + other.empty <= u64::MAX,
        ensures
            forall|a: Seq<FieldV>, b: Seq<FieldV>|
                #![trigger old(self).counts(a), other.counts(b)]
                old(self).counts(a) && other.counts(b) ==> final(self).counts(a + b),
    {
        let ghost before = *self;
        self.count = self.count + other.count;
        self.empty = self.empty + other.empty;
        assert forall|a: Seq<FieldV>, b: Seq<FieldV>|
            #![trigger before.counts(a), other.counts(b)]
            before.counts(a) && other.counts(b) implies self.counts(a + b) by {
            law_filled_cells_add_up(a, b);
        }
    }

    /// The tally of a list of cells.
    pub fn of(cells: &[Field]) -> (r: Self)
        ensures
            r.counts(row_view(cells@)),
    {
        let mut r = Tally::new();
        let ghost all = row_view(cells@);
        let mut i: usize = 0;
        assert(all.take(0) =~= seq![]);
        while i < cells.len()
            invariant
                i <= cells.len(),
                all == row_view(cells@),
                r.counts(all.take(i as int)),
            decreases cells.len() - i,
        {
            assert(all.take(i + 1) =~= all.take(i as int).push(cells@[i as int]@));
            r.update(&cells[i]);
            i += 1;
        }
        assert(all.take(i as int) =~= all);
        r
    }
}

/// The cells of a column, empty ones where a row is too short.
pub open spec fn column_cells(rows: Seq<Seq<FieldV>>, p: usize) -> Seq<FieldV> {
    rows.map_values(|row: Seq<FieldV>| cell_or_empty(row, p as int))
}

/// The tally of a column of rows.
fn tally_column(rows: &[Row], p: usize) -> (r: Tally)
    ensures
        r.counts(column_cells(rows_view(rows@), p)),
{
    let mut r = Tally::new();
    let ghost all = column_cells(rows_view(rows@), p);
    let mut i: usize = 0;
    assert(all.take(0) =~= seq![]);
    while i < rows.len()
        invariant
            i <= rows.len(),
            all == column_cells(rows_view(rows@), p),
            r.counts(all.take(i as int)),
        decreases rows.len() - i,
    {
        let cell = cell_at(rows[i].as_slice(), p);
        assert(rows_view(rows@)[i as int] == row_view(rows@[i as int]@));
        assert(all.take(i + 1) =~= all.take(i as int).push(cell@));
        r.update(&cell);
        i += 1;
    }
    assert(all.take(i as int) =~= all);
    r
}

/// The tallies of columns of rows.
pub fn tally_columns(rows: &[Row], positions: &[usize]) -> (r: Vec<Tally>)
    ensures
        r@.len() == positions@.len(),
        forall|i: int|
            0 <= i < positions@.len() ==> (#[trigger] r@[i]).counts(
                column_cells(rows_view(rows@), positions@[i]),
            ),
{
    let mut r: Vec<Tally> = Vec::new();
    let mut i: usize = 0;
    while i < positions.len()
        invariant
            i <= positions.len(),
            r@.len() == i,
            forall|k: int|
                0 <= k < i ==> (#[trigger] r@[k]).counts(
                    column_cells(rows_view(rows@), positions@[k]),
                ),
        decreases positions.len() - i,
    {
        r.push(tally_column(rows, positions[i]));
        i += 1;
    }
    r
}

/// What is known of a column's cells beside how many there are: the least and the
/// greatest, and, when they are numbers, their sum, mean and standard deviation.
#[derive(Debug)]
pub struct ColFigures {
    pub min: Field,
    pub max: Field,
    pub sum: Option<Num>,
    pub mean: Option<Num>,
    pub stddev: Field,
}

/// A number as a cell, blank when there is none.
pub open spec fn num_or_blank_spec(n: Option<Num>) -> FieldV {
    match n {
        Some(n) => FieldV::Num(n@),
        None => FieldV::Str(seq![]),
    }
}

/// One aggregate's output cell. A bare `count` counts rows, `count(col)` its
/// filled cells. Numeric aggregates over a text column are blank (the same
/// policy `stats` uses).
pub open spec fn agg_cell(
    func: AggFunc,
    column: Option<(ColFigures, nat)>,
    rows: nat,
) -> FieldV {
    match column {
        None => if func == AggFunc::Count {
            FieldV::Num(whole_view(rows))
        } else {
            FieldV::Str(seq![])
        },
        Some((f, count)) => match func {
            AggFunc::Count => FieldV::Num(whole_view(count)),
            AggFunc::Min => f.min@,
            AggFunc::Max => f.max@,
            AggFunc::Sum => num_or_blank_spec(f.sum),
            AggFunc::Mean => num_or_blank_spec(f.mean),
            AggFunc::Stddev => f.stddev@,
        },
    }
}

fn blank() -> (f: Field)
    ensures
        f@ == FieldV::Str(seq![]),
{
    let f = Field::Str(String::new());
    assert(f@->Str_0 =~= seq![]);
    f
}

fn num_or_blank(n: &Option<Num>) -> (f: Field)
    ensures
        f@ == num_or_blank_spec(*n),
{
    match n {
        Some(n) => Field::Num(n.clone()),
        None => blank(),
    }
}

/// One aggregate's output cell: `column` has the figures of its column and the
/// number of filled cells. Numeric aggregates over a text/empty column are blank
/// (the same policy `stats` uses).
pub fn agg_value(a: &AggSpec, column: Option<(&ColFigures, u64)>, rows: u64) -> (f: Field)
    ensures
        f@ == agg_cell(
            a.func,
            match column {
                Some((s, count)) => Some((*s, count as nat)),
                None => None,
            },
            rows as nat,
        ),
{
    match column {
        None => match a.func {
            // Bare `count` counts rows; `count(col)` counts non-empty cells.
            AggFunc::Count => Field::Num(whole_num(rows)),
            _ => blank(),
        },
        Some((s, count)) => match a.func {
            AggFunc::Count => Field::Num(whole_num(count)),
            AggFunc::Min => s.min.clone(),
            AggFunc::Max => s.max.clone(),
            AggFunc::Sum => num_or_blank(&s.sum),
            AggFunc::Mean => num_or_blank(&s.mean),
            AggFunc::Stddev => s.stddev.clone(),
        },
    }
}

/// The distinct columns that the first `n` aggregates are of, in the order they
/// are first named.
pub open spec fn agg_columns(aggs: Seq<AggSpec>, n: int) -> Seq<usize>
    decreases n,
{
    if n <= 0 {
        seq![]
    } else {
        let before = agg_columns(aggs, n - 1);
        match aggs[n - 1].pos {
            Some(p) => if before.contains(p) {
                before
            } else {
                before.push(p)
            },
            None => before,
        }
    }
}

/// A group of rows with the same key: the key cells as first seen, how many
/// rows, and for each aggregated column its cells in order.
pub struct GroupV {
    pub key: Seq<FieldV>,
    pub rows: nat,
    pub cells: Seq<Seq<FieldV>>,
}

/// The group with one row more.
pub open spec fn with_row(g: GroupV, columns: Seq<usize>, row: Seq<FieldV>) -> GroupV {
    GroupV {
        key: g.key,
        rows: g.rows + 1,
        cells: Seq::new(
            columns.len(),
            |s: int| g.cells[s].push(cell_or_empty(row, columns[s] as int)),
        ),
    }
}

/// A group without rows.
pub open spec fn empty_group(key: Seq<FieldV>, columns: Seq<usize>) -> GroupV {
    GroupV { key, rows: 0, cells: Seq::new(columns.len(), |s: int| seq![]) }
}

/// The first group from `i` on whose key is written so, or their number.
pub open spec fn group_at(gs: Seq<GroupV>, line: Seq<char>, i: int) -> int
    decreases gs.len() - i,
{
    if i >= gs.len() {
        gs.len() as int
    } else if row_line(gs[i].key) == line {
        i
    } else {
        group_at(gs, line, i + 1)
    }
}

/// The groups with one row more: in the group of its key, or in a new one behind
/// the others.
pub open spec fn fold_row(
    gs: Seq<GroupV>,
    keys: Seq<usize>,
    columns: Seq<usize>,
    row: Seq<FieldV>,
) -> Seq<GroupV> {
    let key = pick(row, keys);
    let i = group_at(gs, row_line(key), 0);
    if i < gs.len() {
        gs.update(i, with_row(gs[i], columns, row))
    } else {
        gs.push(with_row(empty_group(key, columns), columns, row))
    }
}

/// The groups of the first `n` rows.
pub open spec fn groups_of(
    keys: Seq<usize>,
    columns: Seq<usize>,
    rows: Seq<Seq<FieldV>>,
    n: int,
) -> Seq<GroupV>
    decreases n,
{
    if n <= 0 {
        seq![]
    } else {
        fold_row(groups_of(keys, columns, rows, n - 1), keys, columns, rows[n - 1])
    }
}

/// A group of rows with the same key.
#[derive(Debug)]
pub struct GroupAcc {
    pub key: Row,
    pub rows: u64,
    pub cells: Vec<Row>,
}

impl View for GroupAcc {
    type V = GroupV;

    open spec fn view(&self) -> GroupV {
        GroupV { key: row_view(self.key@), rows: self.rows as nat, cells: rows_view(self.cells@) }
    }
}

/// Groups in contracts.
pub open spec fn groups_view(gs: Seq<GroupAcc>) -> Seq<GroupV> {
    gs.map_values(|g: GroupAcc| g@)
}

/// Folds one row's cells into its group.
fn add_cells(acc: &mut GroupAcc, columns: &[usize], row: &[Field])
    requires
        old(acc).cells@.len() == columns@.len(),
        old(acc).rows < u64::MAX,
    ensures
        final(acc)@ == with_row(old(acc)@, columns@, row_view(row@)),
{
    let ghost one = acc@;
    let ghost want = with_row(one, columns@, row_view(row@));
    acc.rows = acc.rows + 1;
    let mut s: usize = 0;
    while s < columns.len()
        invariant
            s <= columns.len(),
            want == with_row(one, columns@, row_view(row@)),
            one.cells.len() == columns@.len(),
            acc.cells@.len() == columns@.len(),
            acc@.key == one.key,
            acc@.rows == one.rows + 1,
            forall|k: int| 0 <= k < s ==> #[trigger] acc@.cells[k] == want.cells[k],
            forall|k: int| s <= k < columns@.len() ==> #[trigger] acc@.cells[k] == one.cells[k],
        decreases columns.len() - s,
    {
        let ghost before = acc@.cells;
        let cell = cell_at(row, columns[s]);
        let ghost had = row_view(acc.cells@[s as int]@);
        let ghost cv = cell@;
        proof {
            assert(before[s as int] == had);
            assert(want.cells[s as int] == had.push(cv));
        }
        acc.cells[s].push(cell);
        proof {
            assert(row_view(acc.cells@[s as int]@) =~= had.push(cv));
            assert(acc@.cells =~= before.update(s as int, had.push(cv)));
        }
        s += 1;
    }
    assert(acc@.cells =~= want.cells);
}

/// `group … | agg …` reducer: folds rows into per-group accumulators keyed by
/// the CSV-encoded key cells, preserving first-seen order. Aggregates sharing a
/// column share its cells.
pub struct Grouper {
    key_positions: Vec<usize>,
    /// Distinct aggregated column positions (a bare `count` contributes none).
    stat_positions: Vec<usize>,
    /// For each agg, the slot into a group's cells, or `None` for a bare `count`.
    agg_slot: Vec<Option<usize>>,
    index: StringHashMap<usize>,
    groups: Vec<GroupAcc>,
}

impl Grouper {
    /// The key columns.
    pub closed spec fn keys(&self) -> Seq<usize> {
        self.key_positions@
    }

    /// The aggregated columns.
    pub closed spec fn columns(&self) -> Seq<usize> {
        self.stat_positions@
    }

    /// The column of each aggregate, by its place among the aggregated ones.
    pub closed spec fn slots(&self) -> Seq<Option<usize>> {
        self.agg_slot@
    }

    /// The groups so far.
    pub closed spec fn groups(&self) -> Seq<GroupV> {
        groups_view(self.groups@)
    }

    /// Whether the index finds each group by its key.
    pub closed spec fn wf(&self) -> bool {
        &&& forall|i: int|
            0 <= i < self.groups().len() ==> {
                let t = row_line((#[trigger] self.groups()[i]).key);
                self.index@.contains_key(t) && self.index@[t] == i
            }
        &&& forall|t: Seq<char>| #[trigger]
            self.index@.contains_key(t) ==> {
                let i = self.index@[t] as int;
                0 <= i < self.groups().len() && row_line(self.groups()[i].key) == t
            }
        &&& forall|i: int|
            0 <= i < self.groups().len() ==> (#[trigger] self.groups()[i]).cells.len()
                == self.columns().len()
        &&& self.groups().len() == self.groups@.len()
    }

    /// No rows yet. Each aggregated column has one place, the first aggregate of
    /// it deciding the order.
    pub fn new(g: &GroupStmt) -> (r: Self)
        ensures
            r.wf(),
            r.keys() == g.key_positions@,
            r.columns() == agg_columns(g.aggs@, g.aggs@.len() as int),
            r.slots().len() == g.aggs@.len(),
            forall|i: int|
                0 <= i < g.aggs@.len() ==> match (#[trigger] r.slots()[i], g.aggs@[i].pos) {
                    (Some(s), Some(p)) => s < r.columns().len() && r.columns()[s as int] == p,
                    (None, None) => true,
                    _ => false,
                },
            r.groups() == Seq::<GroupV>::empty(),
    {
        let mut stat_positions: Vec<usize> = Vec::new();
        let mut agg_slot: Vec<Option<usize>> = Vec::new();
        let mut i: usize = 0;
        while i < g.aggs.len()
            invariant
                i <= g.aggs.len(),
                stat_positions@ == agg_columns(g.aggs@, i as int),
                agg_slot@.len() == i,
                forall|k: int|
                    0 <= k < i ==> match (#[trigger] agg_slot@[k], g.aggs@[k].pos) {
                        (Some(s), Some(p)) => s < stat_positions@.len() && stat_positions@[s as int]
                            == p,
                        (None, None) => true,
                        _ => false,
                    },
            decreases g.aggs.len() - i,
        {
            match g.aggs[i].pos {
                Some(p) => {
                    let mut s: usize = 0;
                    while s < stat_positions.len() && stat_positions[s] != p
                        invariant
                            s <= stat_positions@.len(),
                            forall|k: int| 0 <= k < s ==> #[trigger] stat_positions@[k] != p,
                        decreases stat_positions.len() - s,
                    {
                        s += 1;
                    }
                    let ghost before = stat_positions@;
                    if s == stat_positions.len() {
                        assert(!before.contains(p));
                        stat_positions.push(p);
                        assert forall|k: int| 0 <= k < before.len() implies stat_positions@[k]
                            == #[trigger] before[k] by {
                        }
                    } else {
                        assert(before[s as int] == p);
                    }
                    agg_slot.push(Some(s));
                },
                None => {
                    agg_slot.push(None);
                },
            }
            i += 1;
        }
        let mut key_positions: Vec<usize> = Vec::new();
        let mut k: usize = 0;
        while k < g.key_positions.len()
            invariant
                k <= g.key_positions.len(),
                key_positions@ == g.key_positions@.take(k as int),
            decreases g.key_positions.len() - k,
        {
            key_positions.push(g.key_positions[k]);
            k += 1;
        }
        assert(g.key_positions@.take(k as int) =~= g.key_positions@);
        let r = Grouper {
            key_positions,
            stat_positions,
            agg_slot,
            index: StringHashMap::new(),
            groups: Vec::new(),
        };
        assert(r.groups() =~= Seq::<GroupV>::empty());
        r
    }

    /// Folds one more row in.
    pub fn update(&mut self, row: &[Field])
        requires
            old(self).wf(),
            forall|i: int|
                0 <= i < old(self).groups().len() ==> (#[trigger] old(self).groups()[i]).rows
                    < u64::MAX,
        ensures
            final(self).wf(),
            final(self).keys() == old(self).keys(),
            final(self).columns() == old(self).columns(),
            final(self).slots() == old(self).slots(),
            final(self).groups() == fold_row(
                old(self).groups(),
                old(self).keys(),
                old(self).columns(),
                row_view(row@),
            ),
    {
        let ghost gs = self.groups();
        let ghost rv = row_view(row@);
        let ghost cols = self.columns();
        let key = pick_cells(row, self.key_positions.as_slice());
        let ghost kv = row_view(key@);
        let mut line = String::new();
        write_row(&mut line, key.as_slice());
        let ghost lt = line@;
        assert(lt =~= row_line(kv));
        let found: Option<usize> = match self.index.get(line.as_str()) {
            Some(i) => Some(*i),
            None => None,
        };
        let at: usize = match found {
            Some(i) => {
                proof {
                    lemma_group_at(gs, lt, 0, i as int);
                }
                i
            },
            None => {
                let i: usize = self.groups.len();
                let mut cells: Vec<Row> = Vec::new();
                let mut s: usize = 0;
                while s < self.stat_positions.len()
                    invariant
                        s <= self.stat_positions@.len(),
                        rows_view(cells@) == Seq::new(s as nat, |k: int| Seq::<FieldV>::empty()),
                    decreases self.stat_positions.len() - s,
                {
                    let ghost before = cells@;
                    let none: Row = Vec::new();
                    assert(row_view(none@) =~= Seq::<FieldV>::empty());
                    cells.push(none);
                    assert(rows_view(cells@) =~= rows_view(before).push(Seq::<FieldV>::empty()));
                    assert(rows_view(before).push(Seq::<FieldV>::empty()) =~= Seq::new(
                        (s + 1) as nat,
                        |k: int| Seq::<FieldV>::empty(),
                    ));
                    s += 1;
                }
                let acc = GroupAcc { key, rows: 0, cells };
                assert(acc@.cells =~= empty_group(kv, cols).cells);
                self.index.insert(line, i);
                self.groups.push(acc);
                proof {
                    assert(self.groups() =~= gs.push(empty_group(kv, cols)));
                    lemma_no_group(gs, lt, 0);
                }
                i
            },
        };
        let ghost mid = self.groups();
        let ghost one = mid[at as int];
        proof {
            assert(one == self.groups@[at as int]@);
        }
        add_cells(&mut self.groups[at], self.stat_positions.as_slice(), row);
        proof {
            assert(self.groups() =~= mid.update(at as int, with_row(one, cols, rv)));
            if found is None {
                assert(mid.update(at as int, with_row(one, cols, rv)) =~= gs.push(
                    with_row(empty_group(kv, cols), cols, rv),
                ));
            }
        }
    }

    /// How many columns are aggregated.
    pub fn column_count(&self) -> (n: usize)
        ensures
            n == self.columns().len(),
    {
        self.stat_positions.len()
    }

    /// The groups so far, in first-seen order: what the outside figures are made
    /// from.
    pub fn accs(&self) -> (r: &Vec<GroupAcc>)
        ensures
            groups_view(r@) == self.groups(),
            r@.len() == self.groups().len(),
    {
        &self.groups
    }

    /// Emits one row per group: key cells followed by one cell per aggregate.
    /// `figures[i]` is what is known of the cells of group `i`, column by column.
    pub fn into_rows(self, g: &GroupStmt, figures: &[Vec<ColFigures>]) -> (out: Vec<Row>)
        requires
            self.wf(),
            self.slots().len() == g.aggs@.len(),
            figures@.len() == self.groups().len(),
            forall|i: int|
                0 <= i < figures@.len() ==> (#[trigger] figures@[i])@.len() == self.columns().len(),
            forall|s: int|
                0 <= s < self.slots().len() && self.slots()[s] is Some ==> (
                #[trigger] self.slots()[s])->0 < self.columns().len(),
        ensures
            rows_view(out@) == Seq::new(
                self.groups().len(),
                |i: int| group_row(self.groups()[i], g.aggs@, self.slots(), figures@[i]@),
            ),
    {
        let ghost gs = self.groups();
        let ghost slots = self.slots();
        let ghost want = Seq::new(
            gs.len(),
            |i: int| group_row(gs[i], g.aggs@, slots, figures@[i]@),
        );
        let mut out: Vec<Row> = Vec::new();
        let mut i: usize = 0;
        while i < self.groups.len()
            invariant
                i <= self.groups@.len(),
                gs == groups_view(self.groups@),
                slots == self.agg_slot@,
                slots.len() == g.aggs@.len(),
                figures@.len() == gs.len(),
                want == Seq::new(gs.len(), |i: int| group_row(gs[i], g.aggs@, slots, figures@[i]@)),
                self.wf(),
                forall|i: int|
                    0 <= i < figures@.len() ==> (#[trigger] figures@[i])@.len()
                        == self.columns().len(),
                forall|s: int|
                    0 <= s < slots.len() && slots[s] is Some ==> (#[trigger] slots[s])->0
                        < self.columns().len(),
                rows_view(out@) == want.take(i as int),
            decreases self.groups.len() - i,
        {
            let ghost before = rows_view(out@);
            assert(self.groups()[i as int] == self.groups@[i as int]@);
            let row = emit_row(&self.groups[i], &g.aggs, &self.agg_slot, &figures[i]);
            out.push(row);
            proof {
                assert(rows_view(out@) =~= before.push(want[i as int]));
                assert(want.take(i + 1) =~= want.take(i as int).push(want[i as int]));
            }
            i += 1;
        }
        assert(want.take(gs.len() as int) =~= want);
        out
    }
}

/// A group's output row: its key cells, then a cell per aggregate.
pub open spec fn group_row(
    g: GroupV,
    aggs: Seq<AggSpec>,
    slots: Seq<Option<usize>>,
    figures: Seq<ColFigures>,
) -> Seq<FieldV> {
    g.key + Seq::new(
        aggs.len(),
        |a: int|
            agg_cell(
                aggs[a].func,
                match slots[a] {
                    Some(s) => Some((figures[s as int], filled(g.cells[s as int]))),
                    None => None,
                },
                g.rows,
            ),
    )
}

fn emit_row(
    acc: &GroupAcc,
    aggs: &Vec<AggSpec>,
    slots: &Vec<Option<usize>>,
    figures: &Vec<ColFigures>,
) -> (row: Row)
    requires
        slots@.len() == aggs@.len(),
        forall|s: int|
            0 <= s < slots@.len() && slots@[s] is Some ==> (#[trigger] slots@[s])->0
                < figures@.len(),
        acc.cells@.len() == figures@.len(),
    ensures
        row_view(row@) == group_row(acc@, aggs@, slots@, figures@),
{
    let ghost want = group_row(acc@, aggs@, slots@, figures@);
    let ghost n = acc@.key.len() as int;
    let mut row = clone_row(acc.key.as_slice());
    let mut a: usize = 0;
    assert(want.take(n) =~= acc@.key);
    while a < aggs.len()
        invariant
            a <= aggs.len(),
            n == acc@.key.len(),
            slots@.len() == aggs@.len(),
            forall|s: int|
                0 <= s < slots@.len() && slots@[s] is Some ==> (#[trigger] slots@[s])->0
                    < figures@.len(),
            acc.cells@.len() == figures@.len(),
            want == group_row(acc@, aggs@, slots@, figures@),
            row_view(row@) == want.take(n + a),
        decreases aggs.len() - a,
    {
        let ghost before = row_view(row@);
        let column: Option<(&ColFigures, u64)> = match slots[a] {
            Some(s) => {
                let tally = Tally::of(acc.cells[s].as_slice());
                assert(acc@.cells[s as int] == row_view(acc.cells@[s as int]@));
                Some((&figures[s], tally.count))
            },
            None => None,
        };
        row.push(agg_value(&aggs[a], column, acc.rows));
        proof {
            assert(row_view(row@) =~= before.push(want[n + a]));
            assert(want.take(n + a + 1) =~= want.take(n + a).push(want[n + a]));
        }
        a += 1;
    }
    assert(want.take(n + aggs@.len()) =~= want);
    row
}

proof fn lemma_group_at(gs: Seq<GroupV>, line: Seq<char>, i: int, n: int)
    requires
        0 <= i <= n < gs.len(),
        row_line(gs[n].key) == line,
        forall|a: int, b: int|
            0 <= a < b < gs.len() ==> row_line((#[trigger] gs[a]).key) != row_line(
                (#[trigger] gs[b]).key,
            ),
    ensures
        group_at(gs, line, i) == n,
    decreases n - i,
{
    if i < n {
        assert(row_line(gs[i].key) != row_line(gs[n].key));
        lemma_group_at(gs, line, i + 1, n);
    }
}

proof fn lemma_no_group(gs: Seq<GroupV>, line: Seq<char>, i: int)
    requires
        0 <= i <= gs.len(),
        forall|a: int| 0 <= a < gs.len() ==> row_line((#[trigger] gs[a]).key) != line,
    ensures
        group_at(gs, line, i) == gs.len(),
    decreases gs.len() - i,
{
    if i < gs.len() {
        assert(row_line(gs[i].key) != line);
        lemma_no_group(gs, line, i + 1);
    }
}

proof fn lemma_group_at_found(gs: Seq<GroupV>, line: Seq<char>, i: int)
    requires
        0 <= i <= gs.len(),
    ensures
        i <= group_at(gs, line, i) <= gs.len(),
        group_at(gs, line, i) < gs.len() ==> row_line(gs[group_at(gs, line, i)].key) == line,
        forall|k: int|
            i <= k < group_at(gs, line, i) ==> row_line((#[trigger] gs[k]).key) != line,
    decreases gs.len() - i,
{
    if i < gs.len() && row_line(gs[i].key) != line {
        lemma_group_at_found(gs, line, i + 1);
    }
}

/// The rows in all the groups.
pub open spec fn grouped_rows(gs: Seq<GroupV>) -> nat
    decreases gs.len(),
{
    if gs.len() == 0 {
        0
    } else {
        grouped_rows(gs.drop_last()) + gs.last().rows
    }
}

proof fn lemma_grouped_rows_update(gs: Seq<GroupV>, i: int, g: GroupV)
    requires
        0 <= i < gs.len(),
        g.rows == gs[i].rows + 1,
    ensures
        grouped_rows(gs.update(i, g)) == grouped_rows(gs) + 1,
    decreases gs.len(),
{
    let new = gs.update(i, g);
    if i < gs.len() - 1 {
        lemma_grouped_rows_update(gs.drop_last(), i, g);
        assert(new.drop_last() =~= gs.drop_last().update(i, g));
    } else {
        assert(new.drop_last() =~= gs.drop_last());
    }
}

/// Every row is counted in one group; no group is empty; no two groups have the
/// same key.
pub proof fn law_groups_part_the_rows(
    keys: Seq<usize>,
    columns: Seq<usize>,
    rows: Seq<Seq<FieldV>>,
    n: int,
)
    requires
        0 <= n <= rows.len(),
    ensures
        ({
            let gs = groups_of(keys, columns, rows, n);
            &&& grouped_rows(gs) == n
            &&& forall|i: int| 0 <= i < gs.len() ==> (#[trigger] gs[i]).rows >= 1
            &&& forall|i: int, j: int|
                0 <= i < j < gs.len() ==> row_line((#[trigger] gs[i]).key) != row_line(
                    (#[trigger] gs[j]).key,
                )
        }),
    decreases n,
{
    if n > 0 {
        law_groups_part_the_rows(keys, columns, rows, n - 1);
        let gs = groups_of(keys, columns, rows, n - 1);
        let row = rows[n - 1];
        let key = pick(row, keys);
        lemma_group_at_found(gs, row_line(key), 0);
        let i = group_at(gs, row_line(key), 0);
        if i < gs.len() {
            lemma_grouped_rows_update(gs, i, with_row(gs[i], columns, row));
        } else {
            let g = with_row(empty_group(key, columns), columns, row);
            assert(gs.push(g).drop_last() =~= gs);
        }
    }
}

/// Folds rows into groups.
pub fn group_rows(g: &GroupStmt, rows: &[Row]) -> (r: Grouper)
    ensures
        r.wf(),
        r.keys() == g.key_positions@,
        r.columns() == agg_columns(g.aggs@, g.aggs@.len() as int),
        r.slots().len() == g.aggs@.len(),
        forall|i: int|
            0 <= i < g.aggs@.len() ==> match (#[trigger] r.slots()[i], g.aggs@[i].pos) {
                (Some(s), Some(p)) => s < r.columns().len() && r.columns()[s as int] == p,
                (None, None) => true,
                _ => false,
            },
        r.groups() == groups_of(r.keys(), r.columns(), rows_view(rows@), rows@.len() as int),
{
    let mut r = Grouper::new(g);
    let ghost rv = rows_view(rows@);
    let ghost keys = r.keys();
    let ghost columns = r.columns();
    let ghost slots = r.slots();
    let mut i: usize = 0;
    while i < rows.len()
        invariant
            i <= rows.len(),
            rv == rows_view(rows@),
            r.wf(),
            r.keys() == keys,
            r.columns() == columns,
            r.slots() == slots,
            r.groups() == groups_of(keys, columns, rv, i as int),
        decreases rows.len() - i,
    {
        proof {
            law_groups_part_the_rows(keys, columns, rv, i as int);
            assert forall|k: int| 0 <= k < r.groups().len() implies (#[trigger] r.groups()[k]).rows
                < u64::MAX by {
                lemma_group_is_part(r.groups(), k);
            }
            assert(rv[i as int] == row_view(rows@[i as int]@));
        }
        r.update(rows[i].as_slice());
        i += 1;
    }
    r
}

proof fn lemma_group_is_part(gs: Seq<GroupV>, k: int)
    requires
        0 <= k < gs.len(),
    ensures
        gs[k].rows <= grouped_rows(gs),
    decreases gs.len(),
{
    if k < gs.len() - 1 {
        lemma_group_is_part(gs.drop_last(), k);
    }
}

/// A column's line in the profile: its name, how many of its cells are filled and
/// how many are empty, then its figures.
pub open spec fn profile_row(
    name: Seq<char>,
    count: nat,
    empty: nat,
    f: ColFigures,
) -> Seq<FieldV> {
    seq![
        FieldV::Str(name),
        FieldV::Num(whole_view(count)),
        FieldV::Num(whole_view(empty)),
        f.min@,
        f.max@,
        num_or_blank_spec(f.sum),
        num_or_blank_spec(f.mean),
        f.stddev@,
    ]
}

/// How many columns are profiled that are named, tallied and known in figures.
pub open spec fn profiled(names: nat, tallies: nat, figures: nat) -> nat {
    if names <= tallies && names <= figures {
        names
    } else if tallies <= figures {
        tallies
    } else {
        figures
    }
}

/// The profile of the columns, as far as they are named, tallied and known in
/// figures.
pub open spec fn profile_of(
    names: Seq<String>,
    tallies: Seq<Tally>,
    figures: Seq<ColFigures>,
) -> Seq<Seq<FieldV>> {
    Seq::new(
        profiled(names.len(), tallies.len(), figures.len()),
        |i: int|
            profile_row(
                names[i]@,
                tallies[i].count as nat,
                tallies[i].empty as nat,
                figures[i],
            ),
    )
}

/// Turns the columns' tallies and figures into the profile rows (one per profiled
/// column, as far as there are both).
pub fn profile_rows(stats: &StatsStmt, tallies: &[Tally], figures: &[ColFigures]) -> (out: Vec<Row>)
    ensures
        rows_view(out@) == profile_of(stats.names@, tallies@, figures@),
{
    let mut out: Vec<Row> = Vec::new();
    let ghost want = profile_of(stats.names@, tallies@, figures@);
    let mut i: usize = 0;
    while i < stats.names.len() && i < tallies.len() && i < figures.len()
        invariant
            i <= want.len(),
            want == profile_of(stats.names@, tallies@, figures@),
            rows_view(out@) == want.take(i as int),
        decreases stats.names.len() - i,
    {
        let ghost before = rows_view(out@);
        let row = profile_line(&stats.names[i], tallies[i], &figures[i]);
        assert(row_view(row@) == want[i as int]);
        out.push(row);
        proof {
            assert(rows_view(out@) =~= before.push(want[i as int]));
            assert(want.take(i + 1) =~= want.take(i as int).push(want[i as int]));
        }
        i += 1;
    }
    assert(want.take(i as int) =~= want);
    out
}

fn profile_line(name: &String, tally: Tally, f: &ColFigures) -> (row: Row)
    ensures
        row_view(row@) == profile_row(name@, tally.count as nat, tally.empty as nat, *f),
{
    let mut row: Row = Vec::new();
    row.push(Field::Str(name.clone()));
    row.push(Field::Num(whole_num(tally.count)));
    row.push(Field::Num(whole_num(tally.empty)));
    row.push(f.min.clone());
    row.push(f.max.clone());
    row.push(num_or_blank(&f.sum));
    row.push(num_or_blank(&f.mean));
    row.push(f.stddev.clone());
    assert(row_view(row@) =~= profile_row(name@, tally.count as nat, tally.empty as nat, *f));
    row
}

} // verus!
