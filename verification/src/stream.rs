//! Running a plan over input that arrives in pieces: which way a plan is run,
//! `head` that stops early, outputs that come back out of order, and a file cut
//! into line-aligned shards.

use crate::csv::{chunk_rows, parse_chunk, rows_text, text_rows, write_rows};
use crate::error::Error;
use crate::exec::{
    Fate, FateV, Halt, HaltV, Why, all_pass, all_results, any_stateful, chunk_output, chunk_outputs,
    chunk_passes, concat, has_stateful, law_output_is_the_same_in_any_chunks, no_prevs, pass,
    prevs_view, results_at, results_view, take_turn, transformed, turn,
};
use crate::field::{Field, FieldV, Num, NumV, Readings, Row, clone_row, row_view, rows_view};
use crate::outside::{utf8_fault, utf8_text};
use crate::plan::{Plan, SortStmt, Stage, StatsStmt, Stmt};
use crate::value::nums_view;
use std::collections::HashMap;
use vstd::prelude::*;
use vstd::utf8::{
    decode_first_scalar, decode_utf8, decode_utf8_split, encode_utf8, is_char_boundary,
    is_char_boundary_start_end_of_seq, is_continuation_byte, length_of_first_scalar,
    pop_first_scalar, valid_utf8, valid_utf8_split,
};

verus! {

/// Where rows stop on their way through `[pre | head n | post]`: at a row of `pre`,
/// or behind the head at one of the rows that reached it.
pub struct HeadHaltV {
    pub behind: bool,
    pub halt: HaltV,
}

/// How far `head` has got: the rows it has let through, and how many reached it.
pub struct HeadV {
    pub out: Seq<Seq<FieldV>>,
    pub taken: int,
    pub stop: Option<HeadHaltV>,
}

/// What becomes of a row on its way through `[pre | head | post]`, in contracts.
pub enum HeadFateV {
    /// It reaches the head and is kept behind it.
    Out(Seq<FieldV>),
    /// It reaches the head and is dropped behind it.
    Gone,
    /// It does not reach the head.
    Missed,
    Stop(HeadHaltV),
}

/// What becomes of the `m`th row on its way through `[pre | head | post]`, `k` rows
/// having reached the head before it.
pub open spec fn head_fate(
    pre: Seq<Stmt>,
    post: Seq<Stmt>,
    row: Seq<FieldV>,
    m: int,
    k: int,
    results: Seq<NumV>,
    behind: Seq<NumV>,
    readings: Map<Seq<char>, NumV>,
) -> HeadFateV {
    match turn(pre, 0, row, no_prevs(pre.len()), m as nat, results, 0, readings).fate {
        FateV::Keep(r) => match turn(
            post,
            0,
            r,
            no_prevs(post.len()),
            (k + 1) as nat,
            behind,
            0,
            readings,
        ).fate {
            FateV::Keep(q) => HeadFateV::Out(q),
            FateV::Drop => HeadFateV::Gone,
            f => HeadFateV::Stop(HeadHaltV { behind: true, halt: HaltV { row: k, fate: f } }),
        },
        FateV::Drop => HeadFateV::Missed,
        f => HeadFateV::Stop(HeadHaltV { behind: false, halt: HaltV { row: m - 1, fate: f } }),
    }
}

/// What one more row, the `m`th, makes of how far `[pre | head n | post]` has got,
/// `taken` rows having reached the head before the first. Once `n` have, no further
/// row is looked at.
#[verifier::opaque]
pub open spec fn head_step(
    pre: Seq<Stmt>,
    post: Seq<Stmt>,
    n: int,
    taken: int,
    h: HeadV,
    row: Seq<FieldV>,
    m: int,
    results: Seq<NumV>,
    post_results: Seq<Seq<NumV>>,
    readings: Map<Seq<char>, NumV>,
) -> HeadV {
    if h.stop is Some || h.taken >= n {
        h
    } else {
        let k = h.taken - taken;
        match head_fate(pre, post, row, m, k, results, results_at(post_results, k), readings) {
            HeadFateV::Out(q) => HeadV { out: h.out.push(q), taken: h.taken + 1, stop: None },
            HeadFateV::Gone => HeadV { taken: h.taken + 1, ..h },
            HeadFateV::Missed => h,
            HeadFateV::Stop(s) => HeadV { stop: Some(s), ..h },
        }
    }
}

/// What `[pre | head n | post]` makes of the first `m` rows, `taken` having
/// reached the head before. The results for `pre` go by the rows, those for `post` by
/// the rows that reach it.
pub open spec fn head_pass(
    pre: Seq<Stmt>,
    post: Seq<Stmt>,
    n: int,
    taken: int,
    rows: Seq<Seq<FieldV>>,
    pre_results: Seq<Seq<NumV>>,
    post_results: Seq<Seq<NumV>>,
    readings: Map<Seq<char>, NumV>,
    m: int,
) -> HeadV
    decreases m,
{
    if m <= 0 {
        HeadV { out: seq![], taken, stop: None }
    } else {
        head_step(
            pre,
            post,
            n,
            taken,
            head_pass(pre, post, n, taken, rows, pre_results, post_results, readings, m - 1),
            rows[m - 1],
            m,
            results_at(pre_results, m - 1),
            post_results,
            readings,
        )
    }
}

/// Once the head has its rows, or a row stops it, no further row changes anything.
pub proof fn lemma_head_stays(
    pre: Seq<Stmt>,
    post: Seq<Stmt>,
    n: int,
    taken: int,
    rows: Seq<Seq<FieldV>>,
    pre_results: Seq<Seq<NumV>>,
    post_results: Seq<Seq<NumV>>,
    readings: Map<Seq<char>, NumV>,
    m: int,
    k: int,
)
    requires
        m <= k,
        ({
            let h = head_pass(pre, post, n, taken, rows, pre_results, post_results, readings, m);
            h.stop is Some || h.taken >= n
        }),
    ensures
        head_pass(pre, post, n, taken, rows, pre_results, post_results, readings, k) == head_pass(
            pre,
            post,
            n,
            taken,
            rows,
            pre_results,
            post_results,
            readings,
            m,
        ),
    decreases k - m,
{
    reveal(head_step);
    if m < k {
        lemma_head_stays(pre, post, n, taken, rows, pre_results, post_results, readings, m, k - 1);
    }
}

fn none_yet(n: usize) -> (prevs: Vec<Option<Row>>)
    ensures
        prevs@.len() == n,
        prevs_view(prevs@) == no_prevs(n as nat),
{
    let mut prevs: Vec<Option<Row>> = Vec::new();
    let mut k: usize = 0;
    while k < n
        invariant
            k <= n,
            prevs@.len() == k,
            forall|j: int| 0 <= j < k ==> #[trigger] prevs@[j] is None,
        decreases n - k,
    {
        prevs.push(None);
        k += 1;
    }
    assert(prevs_view(prevs@) =~= no_prevs(n as nat));
    prevs
}

/// Where rows stop on their way through `[pre | head n | post]`: at a row of `pre`,
/// or behind the head at one of the rows that reached it.
#[derive(Debug)]
pub struct HeadHalt {
    pub behind: bool,
    pub halt: Halt,
}

impl View for HeadHalt {
    type V = HeadHaltV;

    open spec fn view(&self) -> HeadHaltV {
        HeadHaltV { behind: self.behind, halt: self.halt@ }
    }
}

enum HeadFate {
    Out(Row),
    Gone,
    Missed,
    Stop(HeadHalt),
}

impl HeadFate {
    spec fn model(self) -> HeadFateV {
        match self {
            HeadFate::Out(row) => HeadFateV::Out(row_view(row@)),
            HeadFate::Gone => HeadFateV::Gone,
            HeadFate::Missed => HeadFateV::Missed,
            HeadFate::Stop(h) => HeadFateV::Stop(h@),
        }
    }
}

fn run_through_head(
    pre: &[Stmt],
    post: &[Stmt],
    row: &Row,
    i: usize,
    k: usize,
    results: &[Num],
    behind: &[Num],
    readings: &Readings,
) -> (fate: HeadFate)
    requires
        i < usize::MAX,
        k < usize::MAX,
    ensures
        fate.model() == head_fate(
            pre@,
            post@,
            row_view(row@),
            i + 1,
            k as int,
            nums_view(results@),
            nums_view(behind@),
            readings@,
        ),
{
    let mut prevs = none_yet(pre.len());
    let number: u64 = i as u64 + 1;
    let kept = match take_turn(
        pre,
        clone_row(row.as_slice()),
        &mut prevs,
        number,
        results,
        readings,
    ) {
        Fate::Keep(row) => row,
        Fate::Drop => {
            return HeadFate::Missed;
        },
        Fate::Fail(f) => {
            return HeadFate::Stop(
                HeadHalt { behind: false, halt: Halt { row: i, why: Why::Fail(f) } },
            );
        },
        Fate::Wants(op) => {
            return HeadFate::Stop(
                HeadHalt { behind: false, halt: Halt { row: i, why: Why::Wants(op) } },
            );
        },
    };
    let mut after = none_yet(post.len());
    match take_turn(post, kept, &mut after, k as u64 + 1, behind, readings) {
        Fate::Keep(row) => HeadFate::Out(row),
        Fate::Drop => HeadFate::Gone,
        Fate::Fail(f) => HeadFate::Stop(
            HeadHalt { behind: true, halt: Halt { row: k, why: Why::Fail(f) } },
        ),
        Fate::Wants(op) => HeadFate::Stop(
            HeadHalt { behind: true, halt: Halt { row: k, why: Why::Wants(op) } },
        ),
    }
}

/// Streams `[pre | head n | post]` over one more chunk, `taken` rows having
/// reached the head before. Returns the output of the chunk and how many rows
/// have now reached the head: at `n`, no more input is needed.
pub fn stream_head(
    pre: &[Stmt],
    n: usize,
    post: &[Stmt],
    taken: usize,
    chunk: &str,
    pre_results: &[Vec<Num>],
    post_results: &[Vec<Num>],
    readings: &Readings,
) -> (r: Result<(String, usize), HeadHalt>)
    ensures
        ({
            let rows = text_rows(chunk_rows(chunk@));
            let h = head_pass(
                pre@,
                post@,
                n as int,
                taken as int,
                rows,
                results_view(pre_results@),
                results_view(post_results@),
                readings@,
                rows.len() as int,
            );
            match r {
                Ok((out, t)) => h.stop is None && out@ == rows_text(h.out) && t == h.taken,
                Err(e) => h.stop == Some(e@),
            }
        }),
{
    let rows = parse_chunk(chunk);
    let ghost rv = rows_view(rows@);
    let ghost pv = results_view(pre_results@);
    let ghost qv = results_view(post_results@);
    let none: Vec<Num> = Vec::new();
    assert(nums_view(none@) =~= seq![]);
    let mut out: Vec<Row> = Vec::new();
    let mut now: usize = taken;
    let mut i: usize = 0;
    assert(rows_view(out@) =~= seq![]);
    while i < rows.len() && now < n
        invariant
            i <= rows.len(),
            taken <= now,
            now <= n || now == taken,
            rv == rows_view(rows@),
            pv == results_view(pre_results@),
            qv == results_view(post_results@),
            nums_view(none@) == Seq::<NumV>::empty(),
            ({
                let h = head_pass(
                    pre@,
                    post@,
                    n as int,
                    taken as int,
                    rv,
                    pv,
                    qv,
                    readings@,
                    i as int,
                );
                &&& h.stop is None
                &&& h.out == rows_view(out@)
                &&& h.taken == now
            }),
            rows_view(rows@) == text_rows(chunk_rows(chunk@)),
        decreases rows.len() - i,
    {
        proof {
            reveal(head_step);
        }
        let v: &Vec<Num> = if i < pre_results.len() {
            &pre_results[i]
        } else {
            &none
        };
        assert(nums_view(v@) == results_at(pv, i as int));
        assert(rv[i as int] == row_view(rows@[i as int]@));
        let k: usize = now - taken;
        let w: &Vec<Num> = if k < post_results.len() {
            &post_results[k]
        } else {
            &none
        };
        assert(nums_view(w@) == results_at(qv, k as int));
        match run_through_head(
            pre,
            post,
            &rows[i],
            i,
            k,
            v.as_slice(),
            w.as_slice(),
            readings,
        ) {
            HeadFate::Out(row) => {
                let ghost before = rows_view(out@);
                let ghost kv = row_view(row@);
                out.push(row);
                assert(rows_view(out@) =~= before.push(kv));
                now += 1;
            },
            HeadFate::Gone => {
                now += 1;
            },
            HeadFate::Missed => {},
            HeadFate::Stop(h) => {
                proof {
                    lemma_head_stays(
                        pre@,
                        post@,
                        n as int,
                        taken as int,
                        rv,
                        pv,
                        qv,
                        readings@,
                        i + 1,
                        rv.len() as int,
                    );
                }
                return Err(h);
            },
        }
        i += 1;
    }
    proof {
        if i < rows.len() {
            lemma_head_stays(
                pre@,
                post@,
                n as int,
                taken as int,
                rv,
                pv,
                qv,
                readings@,
                i as int,
                rv.len() as int,
            );
        }
    }
    (Ok((write_rows(out.as_slice()), now)))
}

/// The smaller of two.
pub open spec fn lesser(a: int, b: int) -> int {
    if a <= b {
        a
    } else {
        b
    }
}

proof fn lemma_kept_grows(
    stmts: Seq<Stmt>,
    rows: Seq<Seq<FieldV>>,
    results: Seq<Seq<NumV>>,
    readings: Map<Seq<char>, NumV>,
    m: int,
    n: int,
)
    requires
        0 <= m <= n,
    ensures
        ({
            let a = pass(stmts, rows, results, readings, m).kept;
            let b = pass(stmts, rows, results, readings, n).kept;
            a.len() <= b.len() && b.take(a.len() as int) == a
        }),
    decreases n - m,
{
    let a = pass(stmts, rows, results, readings, m).kept;
    let b = pass(stmts, rows, results, readings, n).kept;
    if m < n {
        lemma_kept_grows(stmts, rows, results, readings, m, n - 1);
        let c = pass(stmts, rows, results, readings, n - 1).kept;
        assert(b.take(a.len() as int) =~= c.take(a.len() as int));
    } else {
        assert(b.take(a.len() as int) =~= a);
    }
}

proof fn lemma_no_stop_before(
    stmts: Seq<Stmt>,
    rows: Seq<Seq<FieldV>>,
    results: Seq<Seq<NumV>>,
    readings: Map<Seq<char>, NumV>,
    m: int,
    n: int,
)
    requires
        m <= n,
        pass(stmts, rows, results, readings, n).stop is None,
    ensures
        pass(stmts, rows, results, readings, m).stop is None,
    decreases n - m,
{
    if m < n {
        assert(pass(stmts, rows, results, readings, n - 1).stop is None);
        lemma_no_stop_before(stmts, rows, results, readings, m, n - 1);
    }
}

proof fn lemma_head_is_take(
    pre: Seq<Stmt>,
    post: Seq<Stmt>,
    n: int,
    rows: Seq<Seq<FieldV>>,
    pre_results: Seq<Seq<NumV>>,
    post_results: Seq<Seq<NumV>>,
    readings: Map<Seq<char>, NumV>,
    m: int,
)
    requires
        0 <= n,
        0 <= m <= rows.len(),
        !any_stateful(pre),
        !any_stateful(post),
        transformed(pre, rows, pre_results, readings).stop is None,
        ({
            let kept = transformed(pre, rows, pre_results, readings).kept;
            transformed(
                post,
                kept.take(lesser(n, kept.len() as int)),
                post_results,
                readings,
            ).stop is None
        }),
    ensures
        ({
            let kept = transformed(pre, rows, pre_results, readings).kept;
            let first = kept.take(lesser(n, kept.len() as int));
            let h = head_pass(pre, post, n, 0, rows, pre_results, post_results, readings, m);
            let t = lesser(n, pass(pre, rows, pre_results, readings, m).kept.len() as int);
            &&& h.stop is None
            &&& h.taken == t
            &&& h.out == pass(post, first, post_results, readings, t).kept
        }),
    decreases m,
{
    reveal(head_step);
    let kept = transformed(pre, rows, pre_results, readings).kept;
    let first = kept.take(lesser(n, kept.len() as int));
    if m > 0 {
        lemma_head_is_take(pre, post, n, rows, pre_results, post_results, readings, m - 1);
        let h = head_pass(pre, post, n, 0, rows, pre_results, post_results, readings, m - 1);
        let p = pass(pre, rows, pre_results, readings, m - 1);
        crate::exec::lemma_stateless_pass(pre, rows, pre_results, readings, m - 1);
        lemma_no_stop_before(pre, rows, pre_results, readings, m, rows.len() as int);
        lemma_no_stop_before(pre, rows, pre_results, readings, m - 1, rows.len() as int);
        lemma_kept_grows(pre, rows, pre_results, readings, m, rows.len() as int);
        if h.taken < n {
            let t = turn(
                pre,
                0,
                rows[m - 1],
                no_prevs(pre.len()),
                m as nat,
                results_at(pre_results, m - 1),
                0,
                readings,
            );
            if let FateV::Keep(r) = t.fate {
                let q = pass(pre, rows, pre_results, readings, m).kept;
                let k = p.kept.len() as int;
                assert(q[k] == r);
                assert(kept.take(q.len() as int)[k] == kept[k]);
                assert(first[k] == r);
                crate::exec::lemma_stateless_pass(post, first, post_results, readings, k);
                lemma_no_stop_before(post, first, post_results, readings, k + 1, first.len() as int);
                lemma_no_stop_before(post, first, post_results, readings, k, first.len() as int);
            }
        }
    }
}

/// Streaming `[pre | head n | post]` gives what the three stages give one after
/// the other: the rows that `pre` keeps, the first `n` of them, run through
/// `post`.
pub proof fn law_head_streams_the_first_rows(
    pre: Seq<Stmt>,
    post: Seq<Stmt>,
    n: int,
    rows: Seq<Seq<FieldV>>,
    pre_results: Seq<Seq<NumV>>,
    post_results: Seq<Seq<NumV>>,
    readings: Map<Seq<char>, NumV>,
)
    requires
        0 <= n,
        !any_stateful(pre),
        !any_stateful(post),
        transformed(pre, rows, pre_results, readings).stop is None,
        ({
            let kept = transformed(pre, rows, pre_results, readings).kept;
            transformed(
                post,
                kept.take(lesser(n, kept.len() as int)),
                post_results,
                readings,
            ).stop is None
        }),
    ensures
        ({
            let kept = transformed(pre, rows, pre_results, readings).kept;
            let first = kept.take(lesser(n, kept.len() as int));
            let h = head_pass(
                pre,
                post,
                n,
                0,
                rows,
                pre_results,
                post_results,
                readings,
                rows.len() as int,
            );
            &&& h.stop is None
            &&& h.taken == first.len()
            &&& h.out == transformed(post, first, post_results, readings).kept
        }),
{
    lemma_head_is_take(pre, post, n, rows, pre_results, post_results, readings, rows.len() as int);
}

/// Outputs that workers hand back out of order, put back in the order of their
/// numbers.
pub struct Reassembly {
    next: u64,
    pending: HashMap<u64, String>,
}

/// The texts of numbered outputs.
pub open spec fn pieces(m: Map<u64, String>) -> Map<u64, Seq<char>> {
    m.map_values(|s: String| s@)
}

/// The first number from `k` on that there is no output for.
pub open spec fn first_gap(m: Map<u64, Seq<char>>, k: int) -> int
    decreases u64::MAX - k,
{
    if 0 <= k < u64::MAX && m.contains_key(k as u64) {
        first_gap(m, k + 1)
    } else {
        k
    }
}

/// The outputs from `k` on, up to the first gap, one after the other.
pub open spec fn ready(m: Map<u64, Seq<char>>, k: int) -> Seq<char>
    decreases u64::MAX - k,
{
    if 0 <= k < u64::MAX && m.contains_key(k as u64) {
        m[k as u64] + ready(m, k + 1)
    } else {
        seq![]
    }
}

/// The outputs that are not written yet when the first `k` are.
pub open spec fn waiting(m: Map<u64, Seq<char>>, k: int) -> Map<u64, Seq<char>> {
    m.restrict(Set::new(|i: u64| i >= k))
}

impl Reassembly {
    /// The number of the output to be written next.
    pub closed spec fn at(&self) -> int {
        self.next as int
    }

    /// The outputs that wait for their turn.
    pub closed spec fn held(&self) -> Map<u64, Seq<char>> {
        pieces(self.pending@)
    }

    /// Whether what waits comes later than what is written.
    pub open spec fn wf(&self) -> bool {
        &&& self.at() < u64::MAX
        &&& forall|i: u64|
            #[trigger] self.held().contains_key(i) ==> self.at() <= i && i < u64::MAX - 1
    }

    /// Nothing written, nothing waiting.
    pub fn new() -> (r: Self)
        ensures
            r.at() == 0,
            r.held() == Map::<u64, Seq<char>>::empty(),
            r.wf(),
    {
        let r = Reassembly { next: 0, pending: HashMap::new() };
        assert(r.held() =~= Map::<u64, Seq<char>>::empty());
        r
    }

    /// Takes the output numbered `id` and returns what can be written now: every
    /// output whose turn has come.
    pub fn offer(&mut self, id: u64, buf: String) -> (out: String)
        requires
            old(self).wf(),
            old(self).at() <= id,
            id < u64::MAX - 1,
        ensures
            final(self).wf(),
            ({
                let m = old(self).held().insert(id, buf@);
                &&& out@ == ready(m, old(self).at())
                &&& final(self).at() == first_gap(m, old(self).at())
                &&& final(self).held() == waiting(m, first_gap(m, old(self).at()))
            }),
    {
        broadcast use vstd::std_specs::hash::group_hash_axioms;

        let ghost m = self.held().insert(id, buf@);
        let ghost start = self.at();
        let mut out = String::new();
        self.pending.insert(id, buf);
        proof {
            assert(self.held() =~= m);
            assert(m =~= waiting(m, start));
            assert(out@ + ready(m, start) =~= ready(m, start));
        }
        loop
            invariant
                0 <= start <= self.next < u64::MAX,
                start == old(self).at(),
                m == old(self).held().insert(id, buf@),
                forall|i: u64| #[trigger] m.contains_key(i) ==> start <= i && i < u64::MAX - 1,
                self.held() == waiting(m, self.next as int),
                out@ + ready(m, self.next as int) == ready(m, start),
                first_gap(m, self.next as int) == first_gap(m, start),
            ensures
                !m.contains_key(self.next),
            decreases u64::MAX - self.next,
        {
            broadcast use vstd::std_specs::hash::group_hash_axioms;

            let n = self.next;
            let ghost before = self.pending@;
            assert(self.held().contains_key(n) == m.contains_key(n));
            match self.pending.remove(&n) {
                Some(piece) => {
                    proof {
                        assert(before.contains_key(n) && before[n] == piece);
                        assert(self.pending@ =~= before.remove(n));
                        assert(pieces(before)[n] == piece@);
                        assert(self.held() =~= pieces(before).remove(n));
                        assert forall|i: u64| #[trigger] waiting(m, n as int).remove(n).contains_key(
                            i,
                        ) == waiting(m, n + 1).contains_key(i) by {
                        }
                        assert(waiting(m, n as int).remove(n) =~= waiting(m, n + 1));
                        assert(m.contains_key(n));
                        assert(out@ + ready(m, n as int) =~= (out@ + m[n]) + ready(m, n + 1));
                    }
                    out.append(piece.as_str());
                    self.next = n + 1;
                },
                None => {
                    break;
                },
            }
        }
        proof {
            assert(out@ + ready(m, self.next as int) =~= out@);
        }
        out
    }
}

/// The outputs numbered below `k`, one after the other.
pub open spec fn in_order(all: Map<u64, Seq<char>>, k: int) -> Seq<char>
    decreases k,
{
    if k <= 0 {
        seq![]
    } else {
        in_order(all, k - 1) + all[(k - 1) as u64]
    }
}

/// Whether `written` and `held` are what has become of the outputs `all` that
/// were handed in so far, the one numbered `next` being the first that is
/// missing.
pub open spec fn in_step(
    all: Map<u64, Seq<char>>,
    next: int,
    held: Map<u64, Seq<char>>,
    written: Seq<char>,
) -> bool {
    &&& 0 <= next < u64::MAX
    &&& !all.contains_key(next as u64)
    &&& forall|i: u64| i < next ==> #[trigger] all.contains_key(i)
    &&& held == waiting(all, next)
    &&& written == in_order(all, next)
}

proof fn lemma_ready_is_in_order(
    all: Map<u64, Seq<char>>,
    m: Map<u64, Seq<char>>,
    k: int,
    start: int,
)
    requires
        0 <= start <= k < u64::MAX,
        m == waiting(all, start),
        !all.contains_key((u64::MAX - 1) as u64),
    ensures
        in_order(all, k) + ready(m, k) == in_order(all, first_gap(m, k)),
        k <= first_gap(m, k) < u64::MAX,
        !all.contains_key(first_gap(m, k) as u64),
        forall|i: u64| k <= i < first_gap(m, k) ==> #[trigger] all.contains_key(i),
    decreases u64::MAX - k,
{
    if m.contains_key(k as u64) {
        assert(k < u64::MAX - 1);
        lemma_ready_is_in_order(all, m, k + 1, start);
        assert(in_order(all, k) + (m[k as u64] + ready(m, k + 1)) =~= in_order(all, k + 1) + ready(
            m,
            k + 1,
        ));
    } else {
        assert(in_order(all, k) + ready(m, k) =~= in_order(all, k));
    }
}

proof fn lemma_in_order_unchanged(
    all: Map<u64, Seq<char>>,
    more: Map<u64, Seq<char>>,
    k: int,
)
    requires
        k <= u64::MAX,
        forall|i: u64| i < k ==> #[trigger] all[i] == more[i],
    ensures
        in_order(all, k) == in_order(more, k),
    decreases k,
{
    if k > 0 {
        lemma_in_order_unchanged(all, more, k - 1);
        assert(all[(k - 1) as u64] == more[(k - 1) as u64]);
    }
}

/// Whatever order the outputs come in, what is written is what they hold in the
/// order of their numbers, up to the first that is missing: each step of
/// [`Reassembly::offer`] keeps it so.
pub proof fn law_outputs_are_written_in_order(
    all: Map<u64, Seq<char>>,
    next: int,
    held: Map<u64, Seq<char>>,
    written: Seq<char>,
    id: u64,
    buf: Seq<char>,
)
    requires
        in_step(all, next, held, written),
        !all.contains_key(id),
        id < u64::MAX - 1,
        forall|i: u64| #[trigger] all.contains_key(i) ==> i < u64::MAX - 1,
    ensures
        ({
            let m = held.insert(id, buf);
            let gap = first_gap(m, next);
            in_step(all.insert(id, buf), gap, waiting(m, gap), written + ready(m, next))
        }),
{
    let more = all.insert(id, buf);
    let m = held.insert(id, buf);
    assert(id >= next);
    assert(m =~= waiting(more, next));
    lemma_in_order_unchanged(all, more, next);
    lemma_ready_is_in_order(more, m, next, next);
    let gap = first_gap(m, next);
    assert(waiting(m, gap) =~= waiting(more, gap));
    assert forall|i: u64| i < gap implies #[trigger] more.contains_key(i) by {
        if i < next {
            assert(all.contains_key(i));
        }
    }
}

/// Once the outputs numbered below `n` have all been handed in, and no others,
/// everything is written, in order, and nothing waits.
pub proof fn law_all_outputs_are_written(
    all: Map<u64, Seq<char>>,
    next: int,
    held: Map<u64, Seq<char>>,
    written: Seq<char>,
    n: int,
)
    requires
        in_step(all, next, held, written),
        0 <= n < u64::MAX,
        forall|i: u64| #[trigger] all.contains_key(i) <==> i < n,
    ensures
        next == n,
        written == in_order(all, n),
        held == Map::<u64, Seq<char>>::empty(),
{
    assert(all.contains_key(next as u64) <==> next < n);
    if n < next {
        assert(all.contains_key(n as u64));
    }
    assert(held =~= Map::<u64, Seq<char>>::empty());
}

/// The statements of an optional single transform stage (none otherwise).
pub open spec fn transform_of(stages: Seq<Stage>) -> Seq<Stmt> {
    if stages.len() == 1 && stages[0] is Transform {
        stages[0]->Transform_0@
    } else {
        seq![]
    }
}

/// The statements of an optional single transform stage (empty otherwise).
pub fn transform_stmts(stages: &[Stage]) -> (r: &[Stmt])
    ensures
        r@ == transform_of(stages@),
{
    if stages.len() == 1 {
        if let Stage::Transform(stmts) = &stages[0] {
            return stmts.as_slice();
        }
    }
    let r: &[Stmt] = &[];
    assert(r@ =~= seq![]);
    r
}

/// Whether a stage needs all its rows before it can hand on any.
pub open spec fn blocking(s: Stage) -> bool {
    s is Sort || s is Stats || s is Tail || s is DropLast || s is Uniq || s is Group || s is Join
}

/// Whether `i` is the one `head` of the stages.
pub open spec fn only_head(stages: Seq<Stage>, i: int) -> bool {
    &&& 0 <= i < stages.len()
    &&& stages[i] is Head
    &&& forall|k: int| 0 <= k < stages.len() && k != i ==> #[trigger] stages[k] !is Head
}

/// Whether `i` is the one `stats` of the stages.
pub open spec fn only_stats(stages: Seq<Stage>, i: int) -> bool {
    &&& 0 <= i < stages.len()
    &&& stages[i] is Stats
    &&& forall|k: int| 0 <= k < stages.len() && k != i ==> #[trigger] stages[k] !is Stats
}

/// Whether `i` is the one `sort` of the stages.
pub open spec fn only_sort(stages: Seq<Stage>, i: int) -> bool {
    &&& 0 <= i < stages.len()
    &&& stages[i] is Sort
    &&& forall|k: int| 0 <= k < stages.len() && k != i ==> #[trigger] stages[k] !is Sort
}

/// Whether any stage needs all its rows before it can hand on any.
pub open spec fn any_blocking(stages: Seq<Stage>) -> bool {
    exists|i: int| 0 <= i < stages.len() && blocking(#[trigger] stages[i])
}

/// Whether the plan streams through a `head`: there is one, at `i`, and nothing
/// that needs all rows.
pub open spec fn streams_head(stages: Seq<Stage>, i: int) -> bool {
    !any_blocking(stages) && only_head(stages, i)
}

/// Whether the plan streams into a `stats` at `i`: the only one, with at most a
/// transform before it.
pub open spec fn streams_stats(stages: Seq<Stage>, i: int) -> bool {
    &&& only_stats(stages, i)
    &&& i == 0 || (i == 1 && stages[0] is Transform)
}

/// Whether the plan streams through a `sort` at `i`: the only one, with nothing
/// else that needs all rows or counts them.
pub open spec fn streams_sort(stages: Seq<Stage>, i: int) -> bool {
    &&& only_sort(stages, i)
    &&& forall|k: int|
        0 <= k < stages.len() && k != i ==> !blocking(#[trigger] stages[k]) && stages[k] !is Head
}

/// If the plan is `[Transform?, Head(n), Transform?]` with no sort, return the
/// pre-head statements, the limit, and the post-head statements.
pub fn head_only_shape(plan: &Plan) -> (r: Option<(&[Stmt], usize, &[Stmt])>)
    ensures
        match r {
            Some((pre, n, post)) => exists|i: int|
                {
                    &&& #[trigger] streams_head(plan.stages@, i)
                    &&& pre@ == transform_of(plan.stages@.take(i))
                    &&& plan.stages@[i] == Stage::Head(n)
                    &&& post@ == transform_of(plan.stages@.skip(i + 1))
                },
            None => forall|i: int| !#[trigger] streams_head(plan.stages@, i),
        },
{
    let ghost all = plan.stages@;
    let mut found: Option<(usize, usize)> = None;
    let mut i: usize = 0;
    while i < plan.stages.len()
        invariant
            i <= plan.stages.len(),
            all == plan.stages@,
            forall|k: int| 0 <= k < i ==> !blocking(#[trigger] all[k]),
            match found {
                Some((h, n)) => {
                    &&& h < i
                    &&& all[h as int] == Stage::Head(n)
                    &&& forall|k: int| 0 <= k < i && k != h ==> #[trigger] all[k] !is Head
                },
                None => forall|k: int| 0 <= k < i ==> #[trigger] all[k] !is Head,
            },
        decreases plan.stages.len() - i,
    {
        match &plan.stages[i] {
            Stage::Transform(_) => {},
            Stage::Head(n) => {
                if let Some((h, _)) = found {
                    assert(all[h as int] is Head && all[i as int] is Head);
                    return None;
                }
                found = Some((i, *n));
            },
            _ => {
                assert(blocking(all[i as int]));
                return None;
            },
        }
        i += 1;
    }
    match found {
        Some((h, n)) => {
            let pre = transform_stmts(&plan.stages[0..h]);
            let post = transform_stmts(&plan.stages[h + 1..plan.stages.len()]);
            proof {
                assert(streams_head(all, h as int));
                assert(all.subrange(0, h as int) =~= all.take(h as int));
                assert(all.subrange(h + 1, all.len() as int) =~= all.skip(h + 1));
            }
            Some((pre, n, post))
        },
        None => None,
    }
}

/// If the plan has exactly one `stats` stage with nothing blocking before it (an
/// optional leading transform only), return the pre-stats statements, the stats
/// stage, and the stages that follow it. Anything else (a sort/head before
/// stats, or multiple stats) returns `None` and takes the in-memory path.
pub fn stats_shape(plan: &Plan) -> (r: Option<(&[Stmt], &StatsStmt, &[Stage])>)
    ensures
        match r {
            Some((pre, stats, post)) => exists|i: int|
                {
                    &&& #[trigger] streams_stats(plan.stages@, i)
                    &&& pre@ == transform_of(plan.stages@.take(i))
                    &&& plan.stages@[i] == Stage::Stats(*stats)
                    &&& post@ == plan.stages@.skip(i + 1)
                },
            None => forall|i: int| !#[trigger] streams_stats(plan.stages@, i),
        },
{
    let ghost all = plan.stages@;
    let mut found: Option<usize> = None;
    let mut i: usize = 0;
    while i < plan.stages.len()
        invariant
            i <= plan.stages.len(),
            all == plan.stages@,
            match found {
                Some(h) => {
                    &&& h < i
                    &&& all[h as int] is Stats
                    &&& forall|k: int| 0 <= k < i && k != h ==> #[trigger] all[k] !is Stats
                },
                None => forall|k: int| 0 <= k < i ==> #[trigger] all[k] !is Stats,
            },
        decreases plan.stages.len() - i,
    {
        if let Stage::Stats(_) = &plan.stages[i] {
            if let Some(h) = found {
                assert(all[h as int] is Stats && all[i as int] is Stats);
                return None;
            }
            found = Some(i);
        }
        i += 1;
    }
    match found {
        Some(h) => {
            assert(only_stats(all, h as int));
            let plain = h == 0 || (h == 1 && matches!(&plan.stages[0], Stage::Transform(_)));
            if !plain {
                return None;
            }
            assert(streams_stats(all, h as int));
            let pre = transform_stmts(&plan.stages[0..h]);
            let post: &[Stage] = &plan.stages[h + 1..plan.stages.len()];
            proof {
                assert(all.subrange(0, h as int) =~= all.take(h as int));
                assert(all.subrange(h + 1, all.len() as int) =~= all.skip(h + 1));
            }
            if let Stage::Stats(stats) = &plan.stages[h] {
                Some((pre, stats, post))
            } else {
                None
            }
        },
        None => None,
    }
}

/// If the plan has exactly one `sort` and otherwise transforms alone, return the
/// pre-sort statements, the sort, and the post-sort statements.
pub fn sort_shape(plan: &Plan) -> (r: Option<(&[Stmt], &SortStmt, &[Stmt])>)
    ensures
        match r {
            Some((pre, sort, post)) => exists|i: int|
                {
                    &&& #[trigger] streams_sort(plan.stages@, i)
                    &&& pre@ == transform_of(plan.stages@.take(i))
                    &&& plan.stages@[i] == Stage::Sort(*sort)
                    &&& post@ == transform_of(plan.stages@.skip(i + 1))
                },
            None => forall|i: int| !#[trigger] streams_sort(plan.stages@, i),
        },
{
    let ghost all = plan.stages@;
    let mut found: Option<usize> = None;
    let mut i: usize = 0;
    while i < plan.stages.len()
        invariant
            i <= plan.stages.len(),
            all == plan.stages@,
            forall|k: int|
                0 <= k < i ==> (#[trigger] all[k] is Sort || !blocking(all[k])) && all[k] !is Head,
            match found {
                Some(h) => {
                    &&& h < i
                    &&& all[h as int] is Sort
                    &&& forall|k: int| 0 <= k < i && k != h ==> #[trigger] all[k] !is Sort
                },
                None => forall|k: int| 0 <= k < i ==> #[trigger] all[k] !is Sort,
            },
        decreases plan.stages.len() - i,
    {
        match &plan.stages[i] {
            Stage::Transform(_) => {},
            Stage::Sort(_) => {
                if let Some(h) = found {
                    assert(all[h as int] is Sort && all[i as int] is Sort);
                    return None;
                }
                found = Some(i);
            },
            _ => {
                assert forall|k: int| !#[trigger] streams_sort(all, k) by {
                    assert(all[i as int] !is Sort);
                }
                return None;
            },
        }
        i += 1;
    }
    match found {
        Some(h) => {
            let pre = transform_stmts(&plan.stages[0..h]);
            let post = transform_stmts(&plan.stages[h + 1..plan.stages.len()]);
            proof {
                assert(streams_sort(all, h as int));
                assert(all.subrange(0, h as int) =~= all.take(h as int));
                assert(all.subrange(h + 1, all.len() as int) =~= all.skip(h + 1));
            }
            if let Stage::Sort(sort) = &plan.stages[h] {
                Some((pre, sort, post))
            } else {
                None
            }
        },
        None => None,
    }
}

/// Whether any transform stage holds a stateful `add` (`prev()`/`rownum()`).
pub open spec fn ordered_only(stages: Seq<Stage>) -> bool {
    exists|i: int|
        0 <= i < stages.len() && #[trigger] stages[i] is Transform && any_stateful(
            stages[i]->Transform_0@,
        )
}

/// Whether any transform stage holds a stateful `add` (`prev()`/`rownum()`),
/// which is order-dependent and so can't shard or stream chunk-parallel.
pub fn plan_has_stateful_add(plan: &Plan) -> (r: bool)
    ensures
        r == ordered_only(plan.stages@),
{
    let mut i: usize = 0;
    while i < plan.stages.len()
        invariant
            i <= plan.stages.len(),
            forall|k: int|
                0 <= k < i && #[trigger] plan.stages@[k] is Transform ==> !any_stateful(
                    plan.stages@[k]->Transform_0@,
                ),
        decreases plan.stages.len() - i,
    {
        if let Stage::Transform(stmts) = &plan.stages[i] {
            if has_stateful(stmts.as_slice()) {
                assert(plan.stages@[i as int] is Transform);
                return true;
            }
        }
        i += 1;
    }
    false
}

/// The ways to run a plan over a reader.
#[derive(Debug)]
#[allow(inconsistent_fields)]
pub enum Route<'a> {
    /// All rows in memory, stage by stage.
    InMemory,
    /// `[pre | head n | post]`, streamed, stopping early.
    Head { pre: &'a [Stmt], n: usize, post: &'a [Stmt] },
    /// `[pre | stats]` streamed into a profile, then the other stages over it.
    Stats { pre: &'a [Stmt], stats: &'a StatsStmt, post: &'a [Stage] },
    /// A lone transform, its chunks handed out to workers.
    Parallel(&'a [Stmt]),
    /// A lone transform, chunk by chunk.
    Stream(&'a [Stmt]),
    /// `[pre | sort | post]`, through an external sort.
    Sort { pre: &'a [Stmt], sort: &'a SortStmt, post: &'a [Stmt] },
}

/// Whether a way is the one that a run over a reader goes. A stateful `add` is
/// order-dependent: it runs in memory, in order. `head` with no sort streams and
/// stops early; `stats` reduces the stream to a tiny profile; a lone transform
/// streams, handed out to workers when there are several threads; one sort among
/// transforms goes through the external sort; everything else is run in memory.
pub open spec fn routed(all: Seq<Stage>, threads: usize, r: Route<'_>) -> bool {
    let has_head = exists|i: int| #[trigger] streams_head(all, i);
    let has_stats = exists|i: int| #[trigger] streams_stats(all, i);
    let lone = all.len() == 1 && all[0] is Transform;
    let has_sort = exists|i: int| #[trigger] streams_sort(all, i);
    if ordered_only(all) {
        r is InMemory
    } else if has_head {
        &&& r is Head
        &&& exists|i: int|
            {
                &&& #[trigger] streams_head(all, i)
                &&& r->Head_pre@ == transform_of(all.take(i))
                &&& all[i] == Stage::Head(r->n)
                &&& r->Head_post@ == transform_of(all.skip(i + 1))
            }
    } else if has_stats {
        &&& r is Stats
        &&& exists|i: int|
            {
                &&& #[trigger] streams_stats(all, i)
                &&& r->Stats_pre@ == transform_of(all.take(i))
                &&& all[i] == Stage::Stats(*r->stats)
                &&& r->Stats_post@ == all.skip(i + 1)
            }
    } else if lone && threads > 1 {
        r is Parallel && r->Parallel_0@ == transform_of(all)
    } else if lone {
        r is Stream && r->Stream_0@ == transform_of(all)
    } else if has_sort {
        &&& r is Sort
        &&& exists|i: int|
            {
                &&& #[trigger] streams_sort(all, i)
                &&& r->Sort_pre@ == transform_of(all.take(i))
                &&& all[i] == Stage::Sort(*r->sort)
                &&& r->Sort_post@ == transform_of(all.skip(i + 1))
            }
    } else {
        r is InMemory
    }
}

/// Whether two ways do the same work: they are one, on the same statements, or both
/// run a lone transform, on one thread or on several.
pub open spec fn same_work(a: Route<'_>, b: Route<'_>) -> bool {
    match (a, b) {
        (Route::InMemory, Route::InMemory) => true,
        (Route::Head { pre, n, post }, Route::Head { pre: p, n: m, post: q }) => pre@ == p@ && n
            == m && post@ == q@,
        (Route::Stats { pre, stats, post }, Route::Stats { pre: p, stats: t, post: q }) => pre@
            == p@ && stats == t && post@ == q@,
        (Route::Sort { pre, sort, post }, Route::Sort { pre: p, sort: t, post: q }) => pre@ == p@
            && sort == t && post@ == q@,
        (Route::Parallel(s), Route::Parallel(t)) => s@ == t@,
        (Route::Parallel(s), Route::Stream(t)) => s@ == t@,
        (Route::Stream(s), Route::Parallel(t)) => s@ == t@,
        (Route::Stream(s), Route::Stream(t)) => s@ == t@,
        _ => false,
    }
}

/// The number of threads changes the way of a run for a lone transform alone, and
/// there only whether its chunks are handed out.
pub proof fn law_threads_change_no_work(
    stages: Seq<Stage>,
    threads: usize,
    others: usize,
    a: Route<'_>,
    b: Route<'_>,
)
    requires
        routed(stages, threads, a),
        routed(stages, others, b),
    ensures
        same_work(a, b),
{
    assert forall|i: int, k: int|
        #[trigger] streams_head(stages, i) && #[trigger] streams_head(stages, k) implies i == k by {
        if i != k {
            assert(stages[k] !is Head);
        }
    }
    assert forall|i: int, k: int|
        #[trigger] streams_stats(stages, i) && #[trigger] streams_stats(stages, k) implies i
        == k by {
        if i != k {
            assert(stages[k] !is Stats);
        }
    }
    assert forall|i: int, k: int|
        #[trigger] streams_sort(stages, i) && #[trigger] streams_sort(stages, k) implies i == k by {
        if i != k {
            assert(stages[k] !is Sort);
        }
    }
}

/// Which way a run over a reader goes.
pub fn route(plan: &Plan, threads: usize) -> (r: Route<'_>)
    ensures
        routed(plan.stages@, threads, r),
{
    if plan_has_stateful_add(plan) {
        return Route::InMemory;
    }
    if let Some((pre, n, post)) = head_only_shape(plan) {
        return Route::Head { pre, n, post };
    }
    if let Some((pre, stats, post)) = stats_shape(plan) {
        return Route::Stats { pre, stats, post };
    }
    if plan.stages.len() == 1 {
        if let Stage::Transform(stmts) = &plan.stages[0] {
            return if threads > 1 {
                Route::Parallel(stmts.as_slice())
            } else {
                Route::Stream(stmts.as_slice())
            };
        }
    }
    match sort_shape(plan) {
        Some((pre, sort, post)) => Route::Sort { pre, sort, post },
        None => Route::InMemory,
    }
}

/// The ways to run a plan over a seekable file.
#[derive(Debug)]
pub enum FileRoute<'a> {
    /// A lone transform, each worker reading its own byte range.
    Sharded(&'a [Stmt]),
    /// `[pre | stats]`, each worker profiling its own byte range.
    StatsSharded { pre: &'a [Stmt], stats: &'a StatsStmt, post: &'a [Stage] },
    /// From the start of the data on, as from a reader.
    Reader,
}

/// Whether a way is the one that a run over a file goes: a lone transform, or a
/// `stats`, with more than one thread is sharded unless a stateful `add` forces the
/// order; everything else goes as from a reader.
pub open spec fn file_routed(all: Seq<Stage>, threads: usize, r: FileRoute<'_>) -> bool {
    let has_stats = exists|i: int| #[trigger] streams_stats(all, i);
    let lone = all.len() == 1 && all[0] is Transform;
    if threads > 1 && !ordered_only(all) && lone {
        r is Sharded && r->Sharded_0@ == transform_of(all)
    } else if threads > 1 && !ordered_only(all) && has_stats {
        &&& r is StatsSharded
        &&& exists|i: int|
            {
                &&& #[trigger] streams_stats(all, i)
                &&& r->pre@ == transform_of(all.take(i))
                &&& all[i] == Stage::Stats(*r->stats)
                &&& r->post@ == all.skip(i + 1)
            }
    } else {
        r is Reader
    }
}

/// Which way a run over a file goes.
pub fn file_route(plan: &Plan, threads: usize) -> (r: FileRoute<'_>)
    ensures
        file_routed(plan.stages@, threads, r),
{
    if threads <= 1 || plan_has_stateful_add(plan) {
        return FileRoute::Reader;
    }
    if plan.stages.len() == 1 {
        if let Stage::Transform(stmts) = &plan.stages[0] {
            return FileRoute::Sharded(stmts.as_slice());
        }
    }
    match stats_shape(plan) {
        Some((pre, stats, post)) => FileRoute::StatsSharded { pre, stats, post },
        None => FileRoute::Reader,
    }
}

/// A line without its newline.
pub open spec fn without_newline(line: Seq<char>) -> Seq<char> {
    if line.len() > 0 && line.last() == '\n' {
        line.drop_last()
    } else {
        line
    }
}

/// What is said of a header line that is not there.
pub open spec fn no_header() -> Seq<char> {
    "input is empty (no header line)"@
}

/// The fields of a line, its bytes up to and with the newline. `wrong` begins what is
/// said of bytes that are not text.
pub(crate) fn fields_of_line(line: &[u8], wrong: &str) -> (r: Result<Vec<String>, String>)
    ensures
        match r {
            Ok(names) => {
                &&& line@.len() > 0
                &&& valid_utf8(line@)
                &&& crate::text::texts(names@) == crate::csv::line_fields(
                    without_newline(decode_utf8(line@)),
                )
            },
            Err(e) => if line@.len() == 0 {
                e@ == no_header()
            } else {
                !valid_utf8(line@) && e@ == wrong@ + utf8_fault(line@)
            },
        },
{
    if line.len() == 0 {
        return Err("input is empty (no header line)".to_string());
    }
    match utf8_text(line) {
        Err(e) => Err(crate::text::cat2(wrong, e.message.as_str())),
        Ok(text) => {
            proof {
                vstd::utf8::encode_utf8_decode_utf8(text@);
            }
            let v = crate::text::chars_of(text.as_str());
            let n: usize = if v.len() > 0 && v[v.len() - 1] == '\n' {
                v.len() - 1
            } else {
                v.len()
            };
            let line = crate::text::string_from(v.as_slice(), 0, n);
            assert(line@ =~= without_newline(text@));
            Ok(crate::csv::parse_header(line.as_str()))
        },
    }
}

/// Parses the header line, its bytes up to and with the newline. The data begin
/// behind it.
pub fn read_header(line: &[u8]) -> (r: Result<Vec<String>, Error>)
    ensures
        match r {
            Ok(names) => {
                &&& line@.len() > 0
                &&& valid_utf8(line@)
                &&& crate::text::texts(names@) == crate::csv::line_fields(
                    without_newline(decode_utf8(line@)),
                )
            },
            Err(e) => {
                &&& e is Other
                &&& line@.len() == 0 ==> e.said() == no_header()
                &&& line@.len() > 0 ==> !valid_utf8(line@) && e.said()
                    == "header is not valid UTF-8: "@ + utf8_fault(line@)
            },
        },
{
    match fields_of_line(line, "header is not valid UTF-8: ") {
        Ok(names) => Ok(names),
        Err(e) => Err(Error::Other(e)),
    }
}

/// The header line of the output.
pub fn write_header(header: &[String]) -> (r: String)
    ensures
        r@ == crate::csv::row_line(crate::field::text_row(crate::text::texts(header@))),
{
    let mut row: Row = Vec::new();
    let mut i: usize = 0;
    let ghost want = crate::field::text_row(crate::text::texts(header@));
    while i < header.len()
        invariant
            i <= header.len(),
            want == crate::field::text_row(crate::text::texts(header@)),
            row_view(row@) == want.take(i as int),
        decreases header.len() - i,
    {
        let ghost before = row@;
        row.push(Field::Str(header[i].clone()));
        assert(row_view(row@) =~= row_view(before).push(want[i as int]));
        assert(want.take(i + 1) =~= want.take(i as int).push(want[i as int]));
        i += 1;
    }
    assert(want.take(header@.len() as int) =~= want);
    let mut buf = String::new();
    crate::csv::write_row(&mut buf, row.as_slice());
    assert(buf@ =~= crate::csv::row_line(want));
    buf
}

/// What to do with what a read returned.
#[derive(Clone, Copy, Debug, PartialEq, Eq, Structural)]
pub enum ChunkStep {
    /// The input has ended.
    End,
    /// The chunk may stop in a line: read on to the end of that line.
    FinishLine,
    /// The chunk is complete.
    Complete,
}

/// What to do with a chunk of up to `size` bytes of which `n` were read.
pub open spec fn full_step(size: usize, n: int) -> ChunkStep {
    if n == 0 {
        ChunkStep::End
    } else if n == size {
        ChunkStep::FinishLine
    } else {
        ChunkStep::Complete
    }
}

/// What to do with a chunk of up to `size` bytes of which `n` were read, when
/// whole chunks are wanted: a full one is extended to the end of its last line,
/// so that a chunk never splits a row.
pub fn next_chunk(size: usize, n: usize) -> (r: ChunkStep)
    ensures
        r == full_step(size, n as int),
{
    if n == 0 {
        ChunkStep::End
    } else if n == size {
        ChunkStep::FinishLine
    } else {
        ChunkStep::Complete
    }
}

/// What to do with what a single read has yielded.
pub open spec fn ready_step(buf: Seq<u8>) -> ChunkStep {
    if buf.len() == 0 {
        ChunkStep::End
    } else if buf.last() != 10 {
        ChunkStep::FinishLine
    } else {
        ChunkStep::Complete
    }
}

/// Like [`next_chunk`], but for what a single read has yielded: whatever it is,
/// it is completed to a line boundary and no further, so that output flows as
/// input arrives.
pub fn next_chunk_available(buf: &[u8]) -> (r: ChunkStep)
    ensures
        r == ready_step(buf@),
{
    if buf.len() == 0 {
        ChunkStep::End
    } else if buf[buf.len() - 1] != 10 {
        ChunkStep::FinishLine
    } else {
        ChunkStep::Complete
    }
}

/// A chunk's bytes as text.
pub fn chunk_text(bytes: &[u8]) -> (r: Result<String, Error>)
    ensures
        match r {
            Ok(s) => valid_utf8(bytes@) && encode_utf8(s@) == bytes@,
            Err(e) => !valid_utf8(bytes@) && e is Other && e.said()
                == "input is not valid UTF-8: "@ + utf8_fault(bytes@),
        },
{
    match utf8_text(bytes) {
        Ok(s) => Ok(s),
        Err(e) => Err(
            Error::Other(crate::text::cat2("input is not valid UTF-8: ", e.message.as_str())),
        ),
    }
}

/// Where the line behind offset `pos` of a file begins: just past the next
/// newline at or after it, or at the end.
pub open spec fn line_behind(file: Seq<u8>, pos: int) -> int
    decreases file.len() - pos,
{
    if pos >= file.len() {
        file.len() as int
    } else if file[pos] == 10 {
        pos + 1
    } else {
        line_behind(file, pos + 1)
    }
}

proof fn lemma_line_behind(file: Seq<u8>, pos: int, n: int)
    requires
        0 <= pos <= n <= file.len(),
        forall|k: int| pos <= k < n ==> #[trigger] file[k] != 10,
        n < file.len() ==> file[n] == 10,
    ensures
        line_behind(file, pos) == (if n < file.len() {
            n + 1
        } else {
            n
        }),
    decreases n - pos,
{
    if pos < n {
        assert(file[pos] != 10);
        lemma_line_behind(file, pos + 1, n);
    }
}

/// Looks for a newline in a block of a file that begins at offset `at`, and
/// returns the offset just past the first one.
pub fn snap_to_newline(block: &[u8], at: u64) -> (r: Option<u64>)
    requires
        at + block@.len() <= u64::MAX,
    ensures
        match r {
            Some(p) => {
                &&& at < p <= at + block@.len()
                &&& block@[p - at - 1] == 10
                &&& forall|k: int| 0 <= k < p - at - 1 ==> #[trigger] block@[k] != 10
            },
            None => forall|k: int| 0 <= k < block@.len() ==> #[trigger] block@[k] != 10,
        },
{
    match memchr::memchr(10, block) {
        Some(rel) => Some(at + rel as u64 + 1),
        None => None,
    }
}

/// Reading a file block by block from `pos` on, the newline found first is the
/// one that ends the line `pos` is in.
pub proof fn law_snapping_finds_the_line_behind(
    file: Seq<u8>,
    pos: int,
    at: int,
    block: Seq<u8>,
    p: int,
)
    requires
        0 <= pos <= at,
        at + block.len() <= file.len(),
        block == file.subrange(at, at + block.len()),
        forall|k: int| pos <= k < at ==> #[trigger] file[k] != 10,
        at < p <= at + block.len(),
        block[p - at - 1] == 10,
        forall|k: int| 0 <= k < p - at - 1 ==> #[trigger] block[k] != 10,
    ensures
        line_behind(file, pos) == p,
{
    assert forall|k: int| pos <= k < p - 1 implies #[trigger] file[k] != 10 by {
        if k >= at {
            assert(block[k - at] == file[k]);
        }
    }
    assert(block[p - at - 1] == file[p - 1]);
    lemma_line_behind(file, pos, p - 1);
}

/// Where the `i`th of `n` equal parts of the data begins, before it is moved to
/// a line boundary.
pub open spec fn cut_at(data_start: int, file_len: int, i: int, n: int) -> int {
    data_start + (file_len - data_start) * i / n
}

/// Where the `i`th of `n` equal parts of the data begins, before it is moved to
/// a line boundary.
pub fn shard_cut(data_start: u64, file_len: u64, i: usize, n: usize) -> (r: u64)
    requires
        data_start <= file_len,
        0 < i < n,
    ensures
        r == cut_at(data_start as int, file_len as int, i as int, n as int),
        data_start <= r <= file_len,
{
    let total: u64 = file_len - data_start;
    proof {
        let t = total as int;
        let a = i as int;
        let b = n as int;
        assert(0 <= t * a <= t * b) by (nonlinear_arith)
            requires
                0 <= t,
                0 < a < b,
        ;
        assert(0 <= (t * a) / b <= t) by (nonlinear_arith)
            requires
                0 <= t * a <= t * b,
                0 < b,
        ;
        assert(t * a <= 0xffff_ffff_ffff_ffff * 0xffff_ffff_ffff_ffff) by (nonlinear_arith)
            requires
                0 <= t <= 0xffff_ffff_ffff_ffff,
                0 < a <= 0xffff_ffff_ffff_ffff,
        ;
    }
    let part: u128 = total as u128 * i as u128 / n as u128;
    data_start + part as u64
}

/// The pairs of neighbouring bounds that have anything between them.
pub open spec fn ranges_of(bounds: Seq<u64>) -> Seq<(u64, u64)>
    decreases bounds.len(),
{
    if bounds.len() < 2 {
        seq![]
    } else {
        let w = (bounds[bounds.len() - 2], bounds.last());
        let before = ranges_of(bounds.drop_last());
        if w.0 < w.1 {
            before.push(w)
        } else {
            before
        }
    }
}

/// Divides `[data_start, file_len)` into contiguous ranges between `cuts`, the
/// line boundaries that the parts were moved to, so every row falls in exactly
/// one shard. Empty ranges (more threads than lines) are dropped.
pub fn shard_ranges(data_start: u64, file_len: u64, cuts: &[u64]) -> (r: Vec<(u64, u64)>)
    ensures
        r@ == (if data_start >= file_len {
            seq![]
        } else {
            ranges_of(seq![data_start] + cuts@ + seq![file_len])
        }),
{
    let mut ranges: Vec<(u64, u64)> = Vec::new();
    if data_start >= file_len {
        assert(ranges@ =~= seq![]);
        return ranges;
    }
    let ghost bounds = seq![data_start] + cuts@ + seq![file_len];
    let mut last: u64 = data_start;
    let mut i: usize = 0;
    assert(bounds.take(1) =~= seq![data_start]);
    assert(ranges@ =~= ranges_of(bounds.take(1)));
    while i < cuts.len()
        invariant
            i <= cuts.len(),
            bounds == seq![data_start] + cuts@ + seq![file_len],
            last == bounds[i as int],
            ranges@ == ranges_of(bounds.take(i + 1)),
        decreases cuts.len() - i,
    {
        let c = cuts[i];
        proof {
            let b = bounds.take(i + 2);
            assert(b.drop_last() =~= bounds.take(i + 1));
            assert(b[b.len() - 2] == last);
            assert(b.last() == c);
        }
        if last < c {
            ranges.push((last, c));
        }
        last = c;
        i += 1;
    }
    proof {
        assert(bounds.drop_last() =~= bounds.take(i + 1));
        assert(bounds[bounds.len() - 2] == last);
    }
    if last < file_len {
        ranges.push((last, file_len));
    }
    ranges
}

/// Whether the ranges follow on each other from `a` to `b`, none of them empty.
pub open spec fn covers(ranges: Seq<(u64, u64)>, a: u64, b: u64) -> bool {
    &&& forall|i: int| 0 <= i < ranges.len() ==> (#[trigger] ranges[i]).0 < ranges[i].1
    &&& forall|i: int|
        0 <= i < ranges.len() - 1 ==> (#[trigger] ranges[i]).1 == ranges[i + 1].0
    &&& ranges.len() == 0 ==> a == b
    &&& ranges.len() > 0 ==> ranges[0].0 == a && ranges.last().1 == b
}

/// Bounds in order split what lies between the first and the last: the ranges
/// follow on each other without a gap and without an overlap.
pub proof fn law_shards_cover_the_data(bounds: Seq<u64>)
    requires
        bounds.len() > 0,
        forall|i: int, k: int| 0 <= i <= k < bounds.len() ==> bounds[i] <= bounds[k],
    ensures
        covers(ranges_of(bounds), bounds[0], bounds.last()),
    decreases bounds.len(),
{
    if bounds.len() >= 2 {
        let front = bounds.drop_last();
        law_shards_cover_the_data(front);
        let r = ranges_of(front);
        let w = (bounds[bounds.len() - 2], bounds.last());
        assert(front.last() == w.0);
        assert(bounds[bounds.len() - 2] <= bounds[bounds.len() - 1]);
        if w.0 < w.1 {
            let all = r.push(w);
            assert forall|i: int| 0 <= i < all.len() - 1 implies (#[trigger] all[i]).1 == all[i
                + 1].0 by {
                if i < r.len() - 1 {
                    assert(r[i].1 == r[i + 1].0);
                } else {
                    assert(all[i] == r.last());
                }
            }
        }
    }
}

/// A cut further on is never moved before one further back: the bounds of the
/// shards are in order.
pub proof fn law_cuts_stay_in_order(file: Seq<u8>, a: int, b: int)
    requires
        0 <= a <= b <= file.len(),
    ensures
        a <= line_behind(file, a) <= line_behind(file, b) <= file.len(),
    decreases b - a, file.len() - a,
{
    if a < b {
        if file[a] == 10 {
            law_cuts_stay_in_order(file, b, b);
        } else {
            law_cuts_stay_in_order(file, a + 1, b);
        }
    } else if a < file.len() && file[a] != 10 {
        law_cuts_stay_in_order(file, a + 1, a + 1);
    }
}

/// A shard ends where a line ends: with a newline, or with the file.
pub proof fn law_cuts_are_at_lines(file: Seq<u8>, pos: int)
    requires
        0 <= pos <= file.len(),
    ensures
        line_behind(file, pos) == file.len() || (pos < line_behind(file, pos) && file[line_behind(
            file,
            pos,
        ) - 1] == 10),
    decreases file.len() - pos,
{
    if pos < file.len() && file[pos] != 10 {
        law_cuts_are_at_lines(file, pos + 1);
    }
}

proof fn lemma_boundary_behind_newline(bytes: Seq<u8>, p: int)
    requires
        valid_utf8(bytes),
        0 < p <= bytes.len(),
        bytes[p - 1] == 10,
    ensures
        is_char_boundary(bytes, p),
    decreases bytes.len(),
{
    let n = length_of_first_scalar(bytes);
    let rest = pop_first_scalar(bytes);
    if p - 1 < n {
        assert(p - 1 > 0 ==> is_continuation_byte(bytes[p - 1]));
        assert(n == 1);
        assert(is_char_boundary(rest, 0));
    } else {
        assert(rest[p - 1 - n] == bytes[p - 1]);
        lemma_boundary_behind_newline(rest, p - n);
    }
}

proof fn lemma_newline_last(bytes: Seq<u8>)
    requires
        valid_utf8(bytes),
        bytes.len() > 0,
        bytes.last() == 10,
    ensures
        decode_utf8(bytes).len() > 0,
        decode_utf8(bytes).last() == '\n',
    decreases bytes.len(),
{
    let n = length_of_first_scalar(bytes);
    let rest = pop_first_scalar(bytes);
    if rest.len() == 0 {
        assert(n == bytes.len());
        assert(n > 1 ==> is_continuation_byte(bytes[n - 1]));
        assert(n == 1);
        assert(10u8 & 0x7f == 10u8) by (bit_vector);
        assert(decode_first_scalar(bytes) == 10u32);
        assert(decode_utf8(rest) =~= seq![]);
        assert(decode_utf8(bytes) =~= seq![10u32 as char]);
    } else {
        assert(rest.last() == bytes.last());
        lemma_newline_last(rest);
    }
}

/// The bytes of a range of a file.
pub open spec fn range_bytes(file: Seq<u8>, range: (u64, u64)) -> Seq<u8> {
    file.subrange(range.0 as int, range.1 as int)
}

/// The texts of ranges of a file.
pub open spec fn range_texts(file: Seq<u8>, ranges: Seq<(u64, u64)>) -> Seq<Seq<char>> {
    Seq::new(ranges.len(), |i: int| decode_utf8(range_bytes(file, ranges[i])))
}

/// Whether bounds in a file are in order, and each within them follows a newline.
pub open spec fn at_lines(file: Seq<u8>, bounds: Seq<u64>) -> bool {
    &&& bounds.len() > 0
    &&& bounds.last() <= file.len()
    &&& forall|i: int, k: int| 0 <= i <= k < bounds.len() ==> bounds[i] <= bounds[k]
    &&& forall|i: int|
        0 <= i < bounds.len() && bounds[0] < #[trigger] bounds[i] < bounds.last() ==> file[bounds[i]
            - 1] == 10
}

/// The ranges between bounds at lines hold whole characters and whole lines, and
/// their texts, put together, are the text between the first bound and the last.
#[verifier::spinoff_prover]
#[verifier::rlimit(60)]
pub proof fn law_shards_read_the_whole(file: Seq<u8>, bounds: Seq<u64>)
    requires
        at_lines(file, bounds),
        valid_utf8(range_bytes(file, (bounds[0], bounds.last()))),
    ensures
        forall|i: int|
            0 <= i < ranges_of(bounds).len() ==> valid_utf8(
                #[trigger] range_bytes(file, ranges_of(bounds)[i]),
            ),
        forall|i: int|
            0 <= i < ranges_of(bounds).len() - 1 ==> (#[trigger] range_texts(
                file,
                ranges_of(bounds),
            )[i]).len() > 0 && range_texts(file, ranges_of(bounds))[i].last() == '\n',
        concat(range_texts(file, ranges_of(bounds))) == decode_utf8(
            range_bytes(file, (bounds[0], bounds.last())),
        ),
    decreases bounds.len(),
{
    let a = bounds[0];
    let b = bounds.last();
    let ranges = ranges_of(bounds);
    let all = range_bytes(file, (a, b));
    if bounds.len() == 1 {
        assert(all =~= seq![]);
        assert(range_texts(file, ranges) =~= seq![]);
    } else {
        let front = bounds.drop_last();
        let q = front.last();
        assert(q == bounds[bounds.len() - 2]);
        assert(bounds[0] <= q <= b);
        let p = q - a;
        is_char_boundary_start_end_of_seq(all);
        if a < q < b {
            assert(all[p - 1] == file[q - 1]);
            lemma_boundary_behind_newline(all, p);
        }
        valid_utf8_split(all, p);
        decode_utf8_split(all, p);
        assert(all.subrange(0, p) =~= range_bytes(file, (a, q)));
        assert(all.subrange(p, all.len() as int) =~= range_bytes(file, (q, b)));
        assert forall|i: int|
            0 <= i < front.len() && front[0] < #[trigger] front[i] < front.last() implies file[front[i]
            - 1] == 10 by {
            assert(bounds[i] == front[i]);
        }
        law_shards_read_the_whole(file, front);
        law_shards_cover_the_data(front);
        let before = ranges_of(front);
        let texts = range_texts(file, ranges);
        let earlier = range_texts(file, before);
        if q < b {
            assert(ranges == before.push((q, b)));
            assert(texts.drop_last() =~= earlier);
            assert(texts.last() == decode_utf8(range_bytes(file, (q, b))));
            assert forall|i: int| 0 <= i < ranges.len() implies valid_utf8(
                #[trigger] range_bytes(file, ranges[i]),
            ) by {
                if i < before.len() {
                    assert(ranges[i] == before[i]);
                }
            }
            assert forall|i: int| 0 <= i < ranges.len() - 1 implies (#[trigger] texts[i]).len() > 0
                && texts[i].last() == '\n' by {
                assert(texts[i] == earlier[i]);
                if i == before.len() - 1 {
                    let last = range_bytes(file, before[i]);
                    assert(before[i] == before.last());
                    assert(before[i].0 < before[i].1);
                    assert(q > a);
                    assert(last.last() == file[q - 1]);
                    lemma_newline_last(last);
                }
            }
        } else {
            assert(ranges == before);
            assert(range_bytes(file, (q, b)) =~= seq![]);
            assert(decode_utf8(range_bytes(file, (q, b))) =~= seq![]);
        }
    }
}

/// The bounds of `n` shards of a file's data: equal parts, each moved on to where a
/// line begins.
pub open spec fn shard_bounds(file: Seq<u8>, data_start: u64, n: int) -> Seq<u64> {
    seq![data_start] + Seq::new(
        (n - 1) as nat,
        |i: int|
            line_behind(
                file,
                cut_at(data_start as int, file.len() as int, i + 1, n),
            ) as u64,
    ) + seq![file.len() as u64]
}

proof fn lemma_cuts_grow(data_start: int, file_len: int, i: int, k: int, n: int)
    requires
        0 <= data_start <= file_len,
        0 <= i <= k <= n,
        0 < n,
    ensures
        data_start <= cut_at(data_start, file_len, i, n) <= cut_at(data_start, file_len, k, n)
            <= file_len,
{
    let t = file_len - data_start;
    assert(0 <= t * i <= t * k <= t * n) by (nonlinear_arith)
        requires
            0 <= t,
            0 <= i <= k <= n,
    ;
    assert(0 <= (t * i) / n <= (t * k) / n <= t) by (nonlinear_arith)
        requires
            0 <= t * i <= t * k <= t * n,
            0 < n,
    ;
}

/// The bounds of the shards of a file are at lines.
pub proof fn law_shard_bounds_are_at_lines(file: Seq<u8>, data_start: u64, n: int)
    requires
        data_start <= file.len() <= u64::MAX,
        n > 0,
    ensures
        at_lines(file, shard_bounds(file, data_start, n)),
        shard_bounds(file, data_start, n)[0] == data_start,
        shard_bounds(file, data_start, n).last() == file.len(),
{
    let bounds = shard_bounds(file, data_start, n);
    let start = data_start as int;
    let len = file.len() as int;
    assert(bounds.len() == n + 1);
    assert forall|i: int| 0 < i < n implies #[trigger] bounds[i] == line_behind(
        file,
        cut_at(start, len, i, n),
    ) && start <= bounds[i] <= len by {
        lemma_cuts_grow(start, len, i, i, n);
        let c = cut_at(start, len, i, n);
        law_cuts_stay_in_order(file, c, c);
    }
    assert forall|i: int, k: int| 0 <= i <= k < bounds.len() implies bounds[i] <= bounds[k] by {
        if 0 < i && k < n {
            lemma_cuts_grow(start, len, i, k, n);
            law_cuts_stay_in_order(file, cut_at(start, len, i, n), cut_at(start, len, k, n));
        }
    }
    assert forall|i: int|
        0 <= i < bounds.len() && bounds[0] < #[trigger] bounds[i] < bounds.last() implies file[bounds[i]
        - 1] == 10 by {
        lemma_cuts_grow(start, len, i, i, n);
        law_cuts_are_at_lines(file, cut_at(start, len, i, n));
    }
}

/// A file's data split over any number of threads is transformed to what it is
/// transformed to whole: each shard is text, the data go through the statements
/// just when every shard does, and then the outputs of the shards, put together in
/// the order of the file, are the output of the data.
pub proof fn law_results_do_not_depend_on_the_threads(
    stmts: Seq<Stmt>,
    file: Seq<u8>,
    data_start: u64,
    n: int,
    results: Seq<Seq<Seq<NumV>>>,
    readings: Map<Seq<char>, NumV>,
)
    requires
        !any_stateful(stmts),
        data_start <= file.len() <= u64::MAX,
        n > 0,
        valid_utf8(range_bytes(file, (data_start, file.len() as u64))),
        results.len() == ranges_of(shard_bounds(file, data_start, n)).len(),
        forall|i: int|
            0 <= i < results.len() ==> #[trigger] results[i].len() == chunk_rows(
                range_texts(file, ranges_of(shard_bounds(file, data_start, n)))[i],
            ).len(),
    ensures
        ({
            let ranges = ranges_of(shard_bounds(file, data_start, n));
            let texts = range_texts(file, ranges);
            let data = decode_utf8(range_bytes(file, (data_start, file.len() as u64)));
            &&& forall|i: int|
                0 <= i < ranges.len() ==> valid_utf8(#[trigger] range_bytes(file, ranges[i]))
            &&& chunk_passes(stmts, data, all_results(results), readings) <==> all_pass(
                stmts,
                texts,
                results,
                readings,
            )
            &&& chunk_passes(stmts, data, all_results(results), readings) ==> chunk_output(
                stmts,
                data,
                all_results(results),
                readings,
            ) == chunk_outputs(stmts, texts, results, readings)
        }),
{
    let bounds = shard_bounds(file, data_start, n);
    let texts = range_texts(file, ranges_of(bounds));
    law_shard_bounds_are_at_lines(file, data_start, n);
    law_shards_read_the_whole(file, bounds);
    law_output_is_the_same_in_any_chunks(stmts, texts, results, readings);
}

/// Whether byte chunks are an input cut at its lines: put together they are the
/// input, none is empty, and all but the last end in a newline.
pub open spec fn line_chunks(input: Seq<u8>, chunks: Seq<Seq<u8>>) -> bool {
    &&& chunks.flatten() == input
    &&& forall|i: int| 0 <= i < chunks.len() ==> (#[trigger] chunks[i]).len() > 0
    &&& forall|i: int| 0 <= i < chunks.len() - 1 ==> (#[trigger] chunks[i]).last() == 10
}

/// Where a chunk ends that begins at `at` with a read of `n` bytes: there, or where
/// the line behind them does.
pub open spec fn chunk_end(input: Seq<u8>, at: int, n: int, step: ChunkStep) -> int {
    match step {
        ChunkStep::FinishLine => line_behind(input, at + n),
        _ => at + n,
    }
}

/// The chunks of an input from `at` on, where whole ones of `size` bytes are
/// wanted.
pub open spec fn full_chunks(input: Seq<u8>, at: int, size: usize) -> Seq<Seq<u8>>
    decreases input.len() - at,
{
    let n = if input.len() - at < size {
        input.len() - at
    } else {
        size as int
    };
    let end = chunk_end(input, at, n, full_step(size, n));
    if at < 0 || end <= at || end > input.len() {
        seq![]
    } else {
        seq![input.subrange(at, end)] + full_chunks(input, end, size)
    }
}

/// The chunks of an input from `at` on, where a read at an offset yields as many
/// bytes as `reads` says.
pub open spec fn ready_chunks(input: Seq<u8>, at: int, reads: spec_fn(int) -> int) -> Seq<Seq<u8>>
    decreases input.len() - at,
{
    let n = reads(at);
    let end = chunk_end(input, at, n, ready_step(input.subrange(at, at + n)));
    if at < 0 || end <= at || end > input.len() {
        seq![]
    } else {
        seq![input.subrange(at, end)] + ready_chunks(input, end, reads)
    }
}

proof fn lemma_one_more_chunk(input: Seq<u8>, at: int, end: int, rest: Seq<Seq<u8>>)
    requires
        0 <= at < end <= input.len(),
        end < input.len() ==> input[end - 1] == 10,
        line_chunks(input.skip(end), rest),
    ensures
        line_chunks(input.skip(at), seq![input.subrange(at, end)] + rest),
{
    let chunks = seq![input.subrange(at, end)] + rest;
    assert(chunks.drop_first() =~= rest);
    assert(chunks.first() == input.subrange(at, end));
    assert(chunks.flatten() =~= input.skip(at));
    assert forall|i: int| 0 <= i < chunks.len() implies (#[trigger] chunks[i]).len() > 0 by {
        if i > 0 {
            assert(chunks[i] == rest[i - 1]);
        }
    }
    assert forall|i: int| 0 <= i < chunks.len() - 1 implies (#[trigger] chunks[i]).last() == 10 by {
        if i > 0 {
            assert(chunks[i] == rest[i - 1]);
        } else if end == input.len() {
            lemma_no_chunks(rest);
            assert(input.skip(end).len() == 0);
        }
    }
}

proof fn lemma_no_chunks(chunks: Seq<Seq<u8>>)
    requires
        chunks.len() > 0,
        chunks[0].len() > 0,
    ensures
        chunks.flatten().len() > 0,
{
    assert(chunks.flatten() == chunks.first() + chunks.drop_first().flatten());
}

/// Reading whole chunks until the input ends gives the input cut at its lines, and
/// every chunk but the last holds at least `size` bytes. An empty input gives none.
pub proof fn law_full_chunks_split_no_row(input: Seq<u8>, at: int, size: usize)
    requires
        0 <= at <= input.len(),
        size > 0,
    ensures
        line_chunks(input.skip(at), full_chunks(input, at, size)),
        forall|i: int|
            0 <= i < full_chunks(input, at, size).len() - 1 ==> (#[trigger] full_chunks(
                input,
                at,
                size,
            )[i]).len() >= size,
        full_chunks(input, at, size).len() == 0 <==> at == input.len(),
    decreases input.len() - at,
{
    let chunks = full_chunks(input, at, size);
    if at == input.len() {
        assert(input.skip(at) =~= seq![]);
        assert(chunks.flatten() =~= seq![]);
    } else {
        let n = if input.len() - at < size {
            input.len() - at
        } else {
            size as int
        };
        let end = chunk_end(input, at, n, full_step(size, n));
        law_cuts_stay_in_order(input, at + n, at + n);
        law_cuts_are_at_lines(input, at + n);
        law_full_chunks_split_no_row(input, end, size);
        let rest = full_chunks(input, end, size);
        lemma_one_more_chunk(input, at, end, rest);
        assert forall|i: int| 0 <= i < chunks.len() - 1 implies (#[trigger] chunks[i]).len()
            >= size by {
            if i > 0 {
                assert(chunks[i] == rest[i - 1]);
            }
        }
    }
}

/// Reading whatever there is until the input ends gives the input cut at its lines,
/// however much each read yields.
pub proof fn law_ready_chunks_split_no_row(
    input: Seq<u8>,
    at: int,
    reads: spec_fn(int) -> int,
)
    requires
        0 <= at <= input.len(),
        forall|k: int| 0 <= k < input.len() ==> 0 < #[trigger] reads(k) <= input.len() - k,
    ensures
        line_chunks(input.skip(at), ready_chunks(input, at, reads)),
        ready_chunks(input, at, reads).len() == 0 <==> at == input.len(),
    decreases input.len() - at,
{
    let chunks = ready_chunks(input, at, reads);
    if at == input.len() {
        assert(input.skip(at) =~= seq![]);
        assert(chunks.flatten() =~= seq![]);
    } else {
        let n = reads(at);
        let read = input.subrange(at, at + n);
        let end = chunk_end(input, at, n, ready_step(read));
        assert(read.last() == input[at + n - 1]);
        law_cuts_stay_in_order(input, at + n, at + n);
        law_cuts_are_at_lines(input, at + n);
        law_ready_chunks_split_no_row(input, end, reads);
        lemma_one_more_chunk(input, at, end, ready_chunks(input, end, reads));
    }
}

/// The texts of chunks.
pub open spec fn chunk_texts(chunks: Seq<Seq<u8>>) -> Seq<Seq<char>> {
    Seq::new(chunks.len(), |i: int| decode_utf8(chunks[i]))
}

/// Pieces put together are the first, then the others.
pub proof fn lemma_concat_first(pieces: Seq<Seq<char>>)
    requires
        pieces.len() > 0,
    ensures
        concat(pieces) == pieces[0] + concat(pieces.drop_first()),
    decreases pieces.len(),
{
    if pieces.len() == 1 {
        assert(pieces.drop_last() =~= seq![]);
        assert(pieces.drop_first() =~= seq![]);
        reveal_with_fuel(concat, 2);
        assert(concat(pieces) =~= pieces[0] + concat(pieces.drop_first()));
    } else {
        let front = pieces.drop_last();
        lemma_concat_first(front);
        assert(front.drop_first() =~= pieces.drop_first().drop_last());
        assert(pieces.drop_first().last() == pieces.last());
        assert(concat(pieces) =~= pieces[0] + concat(pieces.drop_first()));
    }
}

/// The chunks of a text cut at its lines are texts, which put together are the
/// whole, and all but the last of which end in a newline.
pub proof fn law_line_chunks_read_the_whole(input: Seq<u8>, chunks: Seq<Seq<u8>>)
    requires
        valid_utf8(input),
        line_chunks(input, chunks),
    ensures
        forall|i: int| 0 <= i < chunks.len() ==> valid_utf8(#[trigger] chunks[i]),
        concat(chunk_texts(chunks)) == decode_utf8(input),
        forall|i: int|
            0 <= i < chunks.len() - 1 ==> (#[trigger] chunk_texts(chunks)[i]).len() > 0
                && chunk_texts(chunks)[i].last() == '\n',
    decreases chunks.len(),
{
    let texts = chunk_texts(chunks);
    if chunks.len() == 0 {
        assert(input =~= seq![]);
        assert(concat(texts) =~= decode_utf8(input));
    } else {
        let first = chunks.first();
        let rest = chunks.drop_first();
        assert(input == first + rest.flatten());
        let e = first.len() as int;
        is_char_boundary_start_end_of_seq(input);
        if rest.len() == 0 {
            assert(rest.flatten() =~= seq![]);
            assert(e == input.len());
        } else {
            assert(chunks[0].last() == 10);
            assert(input[e - 1] == first.last());
            lemma_boundary_behind_newline(input, e);
        }
        valid_utf8_split(input, e);
        decode_utf8_split(input, e);
        assert(input.subrange(0, e) =~= first);
        assert(input.subrange(e, input.len() as int) =~= rest.flatten());
        assert forall|i: int| 0 <= i < rest.len() implies (#[trigger] rest[i]).len() > 0 by {
            assert(rest[i] == chunks[i + 1]);
        }
        assert forall|i: int| 0 <= i < rest.len() - 1 implies (#[trigger] rest[i]).last() == 10 by {
            assert(rest[i] == chunks[i + 1]);
        }
        law_line_chunks_read_the_whole(rest.flatten(), rest);
        assert(texts.drop_first() =~= chunk_texts(rest));
        lemma_concat_first(texts);
        assert forall|i: int| 0 <= i < chunks.len() implies valid_utf8(#[trigger] chunks[i]) by {
            if i > 0 {
                assert(chunks[i] == rest[i - 1]);
            }
        }
        assert forall|i: int| 0 <= i < chunks.len() - 1 implies (#[trigger] texts[i]).len() > 0
            && texts[i].last() == '\n' by {
            if i > 0 {
                assert(texts[i] == chunk_texts(rest)[i - 1]);
            } else {
                assert(chunks[0].last() == 10);
                lemma_newline_last(first);
            }
        }
    }
}

/// An input read in chunks cut at its lines, whole or as they come and on any number
/// of threads, is transformed to what it is transformed to in one piece: each chunk
/// is text, the input goes through the statements just when every chunk does, and
/// then the chunks' outputs, put together in order, are the output of the input.
pub proof fn law_results_do_not_depend_on_the_chunks(
    stmts: Seq<Stmt>,
    input: Seq<u8>,
    chunks: Seq<Seq<u8>>,
    results: Seq<Seq<Seq<NumV>>>,
    readings: Map<Seq<char>, NumV>,
)
    requires
        !any_stateful(stmts),
        valid_utf8(input),
        line_chunks(input, chunks),
        results.len() == chunks.len(),
        forall|i: int|
            0 <= i < results.len() ==> #[trigger] results[i].len() == chunk_rows(
                chunk_texts(chunks)[i],
            ).len(),
    ensures
        forall|i: int| 0 <= i < chunks.len() ==> valid_utf8(#[trigger] chunks[i]),
        chunk_passes(stmts, decode_utf8(input), all_results(results), readings) <==> all_pass(
            stmts,
            chunk_texts(chunks),
            results,
            readings,
        ),
        chunk_passes(stmts, decode_utf8(input), all_results(results), readings) ==> chunk_output(
            stmts,
            decode_utf8(input),
            all_results(results),
            readings,
        ) == chunk_outputs(stmts, chunk_texts(chunks), results, readings),
{
    law_line_chunks_read_the_whole(input, chunks);
    law_output_is_the_same_in_any_chunks(stmts, chunk_texts(chunks), results, readings);
}

} // verus!
