//! What a run on several threads writes: the same as a run on one.

use crate::csv::{
    chunk_rows, law_chunks_parse_apart, lemma_rows_text_concat, rows_text, text_rows,
};
use crate::exec::{
    FateV, all_pass, all_results, any_stateful, chunk_output, chunk_outputs, chunk_passes, concat,
    law_output_is_the_same_in_any_chunks, lemma_concat_ends, lemma_stateless_turn, no_prevs,
    results_at, results_view, turn,
};
use crate::field::{FieldV, NumV};
use crate::plan::{Stage, Stmt};
use crate::stages::{Supply, body_out, lemma_one_head, results_of, stages_out};
use crate::stream::{
    FileRoute, HeadV, Route, chunk_texts, file_routed, first_gap, head_pass, head_step, in_order,
    in_step, law_all_outputs_are_written, law_line_chunks_read_the_whole,
    law_outputs_are_written_in_order, law_shard_bounds_are_at_lines, law_shards_read_the_whole,
    lemma_concat_first, lemma_head_stays, line_chunks, ordered_only, range_bytes, range_texts,
    ranges_of, ready, routed, shard_bounds, streams_head, streams_sort, transform_of, waiting,
};
use vstd::prelude::*;
use vstd::utf8::{decode_utf8, valid_utf8};

verus! {

/// The results for the rows of a text, dealt out to the pieces that it is cut into:
/// to each as many as it has rows.
pub open spec fn dealt(texts: Seq<Seq<char>>, results: Seq<Seq<NumV>>) -> Seq<Seq<Seq<NumV>>>
    decreases texts.len(),
{
    if texts.len() == 0 {
        seq![]
    } else {
        let n = results.len() - chunk_rows(texts.last()).len();
        dealt(texts.drop_last(), results.take(n)).push(results.skip(n))
    }
}

/// Whether a text is cut at its lines: each piece but the last ends in a newline, if
/// it holds anything.
pub open spec fn cut_at_lines(texts: Seq<Seq<char>>) -> bool {
    forall|i: int|
        0 <= i < texts.len() - 1 && (#[trigger] texts[i]).len() > 0 ==> texts[i].last() == '\n'
}

proof fn lemma_dealt(texts: Seq<Seq<char>>, results: Seq<Seq<NumV>>)
    requires
        cut_at_lines(texts),
        results.len() == chunk_rows(concat(texts)).len(),
    ensures
        dealt(texts, results).len() == texts.len(),
        forall|i: int|
            0 <= i < texts.len() ==> #[trigger] dealt(texts, results)[i].len() == chunk_rows(
                texts[i],
            ).len(),
        all_results(dealt(texts, results)) == results,
    decreases texts.len(),
{
    if texts.len() == 0 {
        assert(chunk_rows(concat(texts)) =~= seq![]);
        assert(all_results(dealt(texts, results)) =~= results);
    } else {
        let front = texts.drop_last();
        let last = texts.last();
        let n = results.len() - chunk_rows(last).len();
        assert forall|i: int| 0 <= i < front.len() && (#[trigger] front[i]).len() > 0 implies front[
        i].last() == '\n' by {
            assert(front[i] == texts[i]);
        }
        lemma_concat_ends(front);
        law_chunks_parse_apart(concat(front), last);
        assert(cut_at_lines(front));
        lemma_dealt(front, results.take(n));
        let all = dealt(texts, results);
        assert(all.drop_last() =~= dealt(front, results.take(n)));
        assert(all_results(all) =~= results);
        assert forall|i: int| 0 <= i < texts.len() implies #[trigger] all[i].len() == chunk_rows(
            texts[i],
        ).len() by {
            if i < front.len() {
                assert(all[i] == dealt(front, results.take(n))[i]);
                assert(front[i] == texts[i]);
            }
        }
    }
}

/// What is written of a text that is cut into pieces, each transformed apart: their
/// outputs one after the other, unless one of them stops.
pub open spec fn pieces_text(
    stmts: Seq<Stmt>,
    texts: Seq<Seq<char>>,
    results: Seq<Seq<NumV>>,
    readings: Map<Seq<char>, NumV>,
) -> Option<Seq<char>> {
    if all_pass(stmts, texts, dealt(texts, results), readings) {
        Some(chunk_outputs(stmts, texts, dealt(texts, results), readings))
    } else {
        None
    }
}

/// What is written of a text that is transformed in one piece, unless it stops.
pub open spec fn whole_text(
    stmts: Seq<Stmt>,
    text: Seq<char>,
    results: Seq<Seq<NumV>>,
    readings: Map<Seq<char>, NumV>,
) -> Option<Seq<char>> {
    if chunk_passes(stmts, text, results, readings) {
        Some(chunk_output(stmts, text, results, readings))
    } else {
        None
    }
}

/// However a text is cut at its lines, its pieces give what it gives in one piece.
pub proof fn law_pieces_write_what_the_whole_does(
    stmts: Seq<Stmt>,
    texts: Seq<Seq<char>>,
    results: Seq<Seq<NumV>>,
    readings: Map<Seq<char>, NumV>,
)
    requires
        !any_stateful(stmts),
        cut_at_lines(texts),
        results.len() == chunk_rows(concat(texts)).len(),
    ensures
        pieces_text(stmts, texts, results, readings) == whole_text(
            stmts,
            concat(texts),
            results,
            readings,
        ),
{
    lemma_dealt(texts, results);
    law_output_is_the_same_in_any_chunks(stmts, texts, dealt(texts, results), readings);
}

/// How far a writer has got: the number of the output it writes next, those that wait
/// for their turn, and what it has written.
pub struct WriterV {
    pub next: int,
    pub held: Map<u64, Seq<char>>,
    pub written: Seq<char>,
}

/// What becomes of numbered outputs that are offered to a
/// [`Reassembly`](crate::stream::Reassembly) one after the other, in the given order.
pub open spec fn offered(order: Seq<u64>, outs: Seq<Seq<char>>) -> WriterV
    decreases order.len(),
{
    if order.len() == 0 {
        WriterV { next: 0, held: Map::empty(), written: seq![] }
    } else {
        let w = offered(order.drop_last(), outs);
        let m = w.held.insert(order.last(), outs[order.last() as int]);
        let gap = first_gap(m, w.next);
        WriterV { next: gap, held: waiting(m, gap), written: w.written + ready(m, w.next) }
    }
}

/// Whether each number below `n` comes once, and no other.
pub open spec fn each_once(order: Seq<u64>, n: nat) -> bool {
    &&& order.len() == n
    &&& order.no_duplicates()
    &&& forall|k: int| 0 <= k < order.len() ==> #[trigger] order[k] < n
}

/// The outputs that have been offered.
spec fn those(order: Seq<u64>, outs: Seq<Seq<char>>) -> Map<u64, Seq<char>> {
    Map::new(|i: u64| order.contains(i), |i: u64| outs[i as int])
}

proof fn lemma_offered(order: Seq<u64>, outs: Seq<Seq<char>>)
    requires
        outs.len() < u64::MAX - 1,
        order.no_duplicates(),
        forall|k: int| 0 <= k < order.len() ==> #[trigger] order[k] < outs.len(),
    ensures
        ({
            let w = offered(order, outs);
            in_step(those(order, outs), w.next, w.held, w.written)
        }),
    decreases order.len(),
{
    if order.len() == 0 {
        assert(waiting(those(order, outs), 0) =~= Map::empty());
    } else {
        let front = order.drop_last();
        let id = order.last();
        assert forall|k: int| 0 <= k < front.len() implies #[trigger] front[k] < outs.len() by {
            assert(front[k] == order[k]);
        }
        lemma_offered(front, outs);
        let all = those(front, outs);
        let w = offered(front, outs);
        if front.contains(id) {
            let k = choose|k: int| 0 <= k < front.len() && front[k] == id;
            assert(order[k] == order[order.len() - 1]);
        }
        assert(order[order.len() - 1] < outs.len());
        assert forall|i: u64| #[trigger] all.contains_key(i) implies i < u64::MAX - 1 by {
            let k = choose|k: int| 0 <= k < front.len() && front[k] == i;
            assert(front[k] < outs.len());
        }
        law_outputs_are_written_in_order(all, w.next, w.held, w.written, id, outs[id as int]);
        let more = those(order, outs);
        assert forall|i: u64| #[trigger] more.contains_key(i) == all.insert(
            id,
            outs[id as int],
        ).contains_key(i) by {
            if order.contains(i) && i != id {
                let k = choose|k: int| 0 <= k < order.len() && order[k] == i;
                assert(front[k] == i);
            }
            if front.contains(i) {
                let k = choose|k: int| 0 <= k < front.len() && front[k] == i;
                assert(order[k] == i);
            }
            if i == id {
                assert(order[order.len() - 1] == i);
            }
        }
        assert(more =~= all.insert(id, outs[id as int]));
    }
}

proof fn lemma_each_is_there(order: Seq<u64>, n: nat)
    requires
        each_once(order, n),
        n < u64::MAX,
    ensures
        forall|i: u64| i < n <==> #[trigger] order.contains(i),
{
    let below = Set::new(|i: u64| i < n);
    vstd::set_lib::lemma_int_range(0, n as int);
    let range = vstd::set_lib::set_int_range(0, n as int);
    assert(below =~= range.map(|i: int| i as u64)) by {
        assert forall|i: u64| #[trigger] below.contains(i) implies range.map(
            |i: int| i as u64,
        ).contains(i) by {
            assert(range.contains(i as int));
        }
    }
    assert(below.finite() && below.len() <= n) by {
        vstd::set_lib::lemma_map_size_bound(range, below, |i: int| i as u64);
    }
    order.unique_seq_to_set();
    let seen = order.to_set();
    assert(seen.subset_of(below)) by {
        assert forall|i: u64| #[trigger] seen.contains(i) implies below.contains(i) by {
            let k = choose|k: int| 0 <= k < order.len() && order[k] == i;
            assert(order[k] < n);
        }
    }
    vstd::set_lib::lemma_len_subset(seen, below);
    vstd::set_lib::lemma_subset_equality(seen, below);
    assert forall|i: u64| i < n <==> #[trigger] order.contains(i) by {
        assert(seen.contains(i) == below.contains(i));
    }
}

proof fn lemma_in_order_is_concat(order: Seq<u64>, outs: Seq<Seq<char>>, k: int)
    requires
        0 <= k <= outs.len() < u64::MAX,
        forall|i: u64| i < outs.len() ==> #[trigger] order.contains(i),
    ensures
        in_order(those(order, outs), k) == concat(outs.take(k)),
    decreases k,
{
    if k > 0 {
        lemma_in_order_is_concat(order, outs, k - 1);
        assert(outs.take(k).drop_last() =~= outs.take(k - 1));
        assert(order.contains((k - 1) as u64));
    } else {
        assert(outs.take(0) =~= seq![]);
    }
}

/// Outputs offered in any order, each once, are all written, in the order of their
/// numbers, and none is left waiting.
pub proof fn law_outputs_in_any_order_are_written(order: Seq<u64>, outs: Seq<Seq<char>>)
    requires
        outs.len() < u64::MAX - 1,
        each_once(order, outs.len()),
    ensures
        offered(order, outs).written == concat(outs),
        offered(order, outs).next == outs.len(),
        offered(order, outs).held == Map::<u64, Seq<char>>::empty(),
{
    let n = outs.len();
    let w = offered(order, outs);
    lemma_offered(order, outs);
    lemma_each_is_there(order, n);
    assert forall|i: u64| #[trigger] those(order, outs).contains_key(i) <==> i < n by {
        assert(order.contains(i) <==> i < n);
    }
    law_all_outputs_are_written(those(order, outs), w.next, w.held, w.written, n as int);
    lemma_in_order_is_concat(order, outs, n as int);
    assert(outs.take(n as int) =~= outs);
}

/// What is written of chunks that workers transform, their outputs offered in some
/// order, unless one of them stops.
pub open spec fn parallel_text(
    stmts: Seq<Stmt>,
    texts: Seq<Seq<char>>,
    order: Seq<u64>,
    results: Seq<Seq<NumV>>,
    readings: Map<Seq<char>, NumV>,
) -> Option<Seq<char>> {
    let given = dealt(texts, results);
    if all_pass(stmts, texts, given, readings) {
        Some(
            offered(
                order,
                Seq::new(
                    texts.len(),
                    |i: int| chunk_output(stmts, texts[i], given[i], readings),
                ),
            ).written,
        )
    } else {
        None
    }
}

/// An input read in chunks that are cut at its lines, the chunks transformed by
/// workers and their outputs offered in whatever order they are done, is written as
/// the serial output of the whole: the rows that are kept, in the order of the input,
/// none lost and none repeated. Of statements that look past their row this does not
/// hold.
pub proof fn law_parallel_chunks_write_the_serial_output(
    stmts: Seq<Stmt>,
    input: Seq<u8>,
    chunks: Seq<Seq<u8>>,
    order: Seq<u64>,
    results: Seq<Seq<NumV>>,
    readings: Map<Seq<char>, NumV>,
)
    requires
        !any_stateful(stmts),
        valid_utf8(input),
        line_chunks(input, chunks),
        chunks.len() < u64::MAX - 1,
        each_once(order, chunks.len()),
        results.len() == chunk_rows(decode_utf8(input)).len(),
    ensures
        parallel_text(stmts, chunk_texts(chunks), order, results, readings) == whole_text(
            stmts,
            decode_utf8(input),
            results,
            readings,
        ),
{
    let texts = chunk_texts(chunks);
    let given = dealt(texts, results);
    law_line_chunks_read_the_whole(input, chunks);
    law_pieces_write_what_the_whole_does(stmts, texts, results, readings);
    let outs = Seq::new(texts.len(), |i: int| chunk_output(stmts, texts[i], given[i], readings));
    law_outputs_in_any_order_are_written(order, outs);
}

/// The results from row `k` on.
pub open spec fn from_row(results: Seq<Seq<NumV>>, k: int) -> Seq<Seq<NumV>> {
    if k <= results.len() {
        results.skip(k)
    } else {
        seq![]
    }
}

/// What `[pre | head n | post]` writes of chunks that come in one after the other,
/// `taken` rows having reached the head before, unless a row stops it. Once `n` have,
/// no further chunk is asked for.
pub open spec fn head_text(
    pre: Seq<Stmt>,
    post: Seq<Stmt>,
    n: int,
    taken: int,
    texts: Seq<Seq<char>>,
    pre_results: Seq<Seq<NumV>>,
    post_results: Seq<Seq<NumV>>,
    readings: Map<Seq<char>, NumV>,
) -> Option<Seq<char>>
    decreases texts.len(),
{
    if texts.len() == 0 || taken >= n {
        Some(seq![])
    } else {
        let rows = text_rows(chunk_rows(texts[0]));
        let h = head_pass(
            pre,
            post,
            n,
            taken,
            rows,
            pre_results,
            post_results,
            readings,
            rows.len() as int,
        );
        let rest = head_text(
            pre,
            post,
            n,
            h.taken,
            texts.drop_first(),
            from_row(pre_results, rows.len() as int),
            from_row(post_results, h.taken - taken),
            readings,
        );
        match (h.stop, rest) {
            (None, Some(text)) => Some(rows_text(h.out) + text),
            _ => None,
        }
    }
}

proof fn lemma_taken_grows(
    pre: Seq<Stmt>,
    post: Seq<Stmt>,
    n: int,
    taken: int,
    rows: Seq<Seq<FieldV>>,
    pre_results: Seq<Seq<NumV>>,
    post_results: Seq<Seq<NumV>>,
    readings: Map<Seq<char>, NumV>,
    m: int,
)
    ensures
        taken <= head_pass(
            pre,
            post,
            n,
            taken,
            rows,
            pre_results,
            post_results,
            readings,
            m,
        ).taken,
    decreases m,
{
    reveal(head_step);
    if m > 0 {
        lemma_taken_grows(pre, post, n, taken, rows, pre_results, post_results, readings, m - 1);
    }
}

proof fn lemma_head_front(
    pre: Seq<Stmt>,
    post: Seq<Stmt>,
    n: int,
    taken: int,
    a: Seq<Seq<FieldV>>,
    b: Seq<Seq<FieldV>>,
    pre_results: Seq<Seq<NumV>>,
    post_results: Seq<Seq<NumV>>,
    readings: Map<Seq<char>, NumV>,
    m: int,
)
    requires
        m <= a.len(),
    ensures
        head_pass(pre, post, n, taken, a + b, pre_results, post_results, readings, m) == head_pass(
            pre,
            post,
            n,
            taken,
            a,
            pre_results,
            post_results,
            readings,
            m,
        ),
    decreases m,
{
    if m > 0 {
        lemma_head_front(pre, post, n, taken, a, b, pre_results, post_results, readings, m - 1);
        assert((a + b)[m - 1] == a[m - 1]);
    }
}

proof fn lemma_head_apart(
    pre: Seq<Stmt>,
    post: Seq<Stmt>,
    n: int,
    taken: int,
    a: Seq<Seq<FieldV>>,
    b: Seq<Seq<FieldV>>,
    pre_results: Seq<Seq<NumV>>,
    post_results: Seq<Seq<NumV>>,
    readings: Map<Seq<char>, NumV>,
    k: int,
)
    requires
        !any_stateful(pre),
        !any_stateful(post),
        0 <= k <= b.len(),
        head_pass(
            pre,
            post,
            n,
            taken,
            a,
            pre_results,
            post_results,
            readings,
            a.len() as int,
        ).stop is None,
    ensures
        ({
            let h = head_pass(
                pre,
                post,
                n,
                taken,
                a,
                pre_results,
                post_results,
                readings,
                a.len() as int,
            );
            let rest = head_pass(
                pre,
                post,
                n,
                h.taken,
                b,
                from_row(pre_results, a.len() as int),
                from_row(post_results, h.taken - taken),
                readings,
                k,
            );
            let all = head_pass(
                pre,
                post,
                n,
                taken,
                a + b,
                pre_results,
                post_results,
                readings,
                a.len() + k,
            );
            &&& all.taken == rest.taken
            &&& all.stop is None <==> rest.stop is None
            &&& all.stop is None ==> all.out == h.out + rest.out
        }),
    decreases k,
{
    let h = head_pass(
        pre,
        post,
        n,
        taken,
        a,
        pre_results,
        post_results,
        readings,
        a.len() as int,
    );
    lemma_taken_grows(pre, post, n, taken, a, pre_results, post_results, readings, a.len() as int);
    let pb = from_row(pre_results, a.len() as int);
    let qb = from_row(post_results, h.taken - taken);
    if k == 0 {
        lemma_head_front(
            pre,
            post,
            n,
            taken,
            a,
            b,
            pre_results,
            post_results,
            readings,
            a.len() as int,
        );
        assert(h.out + Seq::<Seq<FieldV>>::empty() =~= h.out);
    } else {
        lemma_head_apart(pre, post, n, taken, a, b, pre_results, post_results, readings, k - 1);
        let rest = head_pass(pre, post, n, h.taken, b, pb, qb, readings, k - 1);
        lemma_taken_grows(pre, post, n, h.taken, b, pb, qb, readings, k - 1);
        let all = head_pass(
            pre,
            post,
            n,
            taken,
            a + b,
            pre_results,
            post_results,
            readings,
            a.len() + k - 1,
        );
        let i = a.len() + k - 1;
        assert((a + b)[i] == b[k - 1]);
        assert(results_at(pre_results, i) == results_at(pb, k - 1));
        lemma_step_apart(
            pre,
            post,
            n,
            taken,
            h,
            all,
            rest,
            b[k - 1],
            i + 1,
            k,
            results_at(pb, k - 1),
            post_results,
            readings,
        );
    }
}

proof fn lemma_step_apart(
    pre: Seq<Stmt>,
    post: Seq<Stmt>,
    n: int,
    taken: int,
    h: HeadV,
    all: HeadV,
    rest: HeadV,
    row: Seq<FieldV>,
    m: int,
    k: int,
    results: Seq<NumV>,
    post_results: Seq<Seq<NumV>>,
    readings: Map<Seq<char>, NumV>,
)
    requires
        !any_stateful(pre),
        !any_stateful(post),
        taken <= h.taken <= rest.taken,
        all.taken == rest.taken,
        all.stop is None <==> rest.stop is None,
        all.stop is None ==> all.out == h.out + rest.out,
    ensures
        ({
            let more = head_step(
                pre,
                post,
                n,
                taken,
                all,
                row,
                m,
                results,
                post_results,
                readings,
            );
            let part = head_step(
                pre,
                post,
                n,
                h.taken,
                rest,
                row,
                k,
                results,
                from_row(post_results, h.taken - taken),
                readings,
            );
            &&& more.taken == part.taken
            &&& more.stop is None <==> part.stop is None
            &&& more.stop is None ==> more.out == h.out + part.out
        }),
{
    reveal(head_step);
    let qb = from_row(post_results, h.taken - taken);
    let d = all.taken - h.taken;
    assert(results_at(post_results, all.taken - taken) == results_at(qb, d));
    let start = no_prevs(pre.len());
    lemma_stateless_turn(pre, 0, row, start, k as nat, m as nat, results, 0, readings);
    if let FateV::Keep(r) = turn(pre, 0, row, start, k as nat, results, 0, readings).fate {
        let first = no_prevs(post.len());
        let given = results_at(qb, d);
        let number = (all.taken - taken + 1) as nat;
        lemma_stateless_turn(post, 0, r, first, (d + 1) as nat, number, given, 0, readings);
        if let FateV::Keep(q) = turn(
            post,
            0,
            r,
            first,
            (d + 1) as nat,
            given,
            0,
            readings,
        ).fate {
            assert((h.out + rest.out).push(q) =~= h.out + rest.out.push(q));
        }
    }
}

proof fn lemma_head_is_full(
    pre: Seq<Stmt>,
    post: Seq<Stmt>,
    n: int,
    taken: int,
    rows: Seq<Seq<FieldV>>,
    pre_results: Seq<Seq<NumV>>,
    post_results: Seq<Seq<NumV>>,
    readings: Map<Seq<char>, NumV>,
    m: int,
)
    requires
        taken >= n,
    ensures
        ({
            let h = head_pass(
                pre,
                post,
                n,
                taken,
                rows,
                pre_results,
                post_results,
                readings,
                m,
            );
            h.stop is None && h.out == Seq::<Seq<FieldV>>::empty()
        }),
{
    if m > 0 {
        lemma_head_stays(pre, post, n, taken, rows, pre_results, post_results, readings, 0, m);
    }
}

/// However an input is cut at its lines, `[pre | head n | post]` over its chunks in
/// turn, which asks for none once the head has its rows, writes what it writes of the
/// whole.
pub proof fn law_head_writes_the_same_in_any_chunks(
    pre: Seq<Stmt>,
    post: Seq<Stmt>,
    n: int,
    taken: int,
    texts: Seq<Seq<char>>,
    pre_results: Seq<Seq<NumV>>,
    post_results: Seq<Seq<NumV>>,
    readings: Map<Seq<char>, NumV>,
)
    requires
        !any_stateful(pre),
        !any_stateful(post),
        cut_at_lines(texts),
    ensures
        ({
            let rows = text_rows(chunk_rows(concat(texts)));
            let h = head_pass(
                pre,
                post,
                n,
                taken,
                rows,
                pre_results,
                post_results,
                readings,
                rows.len() as int,
            );
            head_text(pre, post, n, taken, texts, pre_results, post_results, readings) == (
            match h.stop {
                None => Some(rows_text(h.out)),
                Some(_) => None::<Seq<char>>,
            })
        }),
    decreases texts.len(),
{
    let rows = text_rows(chunk_rows(concat(texts)));
    if texts.len() == 0 {
        assert(rows =~= seq![]);
    } else if taken >= n {
        lemma_head_is_full(
            pre,
            post,
            n,
            taken,
            rows,
            pre_results,
            post_results,
            readings,
            rows.len() as int,
        );
    } else {
        let first = texts[0];
        let others = texts.drop_first();
        let a = text_rows(chunk_rows(first));
        let b = text_rows(chunk_rows(concat(others)));
        lemma_concat_first(texts);
        if others.len() == 0 {
            assert(concat(others) =~= seq![]);
            assert(chunk_rows(concat(others)) =~= seq![]);
            assert(first + concat(others) =~= first);
            assert(chunk_rows(concat(texts)) =~= chunk_rows(first) + chunk_rows(concat(others)));
        } else {
            assert(texts[0] == first);
            law_chunks_parse_apart(first, concat(others));
        }
        assert(rows =~= a + b);
        assert(cut_at_lines(others)) by {
            assert forall|i: int| 0 <= i < others.len() - 1 && (#[trigger] others[i]).len()
                > 0 implies others[i].last() == '\n' by {
                assert(others[i] == texts[i + 1]);
            }
        }
        let h = head_pass(
            pre,
            post,
            n,
            taken,
            a,
            pre_results,
            post_results,
            readings,
            a.len() as int,
        );
        if h.stop is None {
            law_head_writes_the_same_in_any_chunks(
                pre,
                post,
                n,
                h.taken,
                others,
                from_row(pre_results, a.len() as int),
                from_row(post_results, h.taken - taken),
                readings,
            );
            lemma_head_apart(
                pre,
                post,
                n,
                taken,
                a,
                b,
                pre_results,
                post_results,
                readings,
                b.len() as int,
            );
            lemma_rows_text_concat(
                h.out,
                head_pass(
                    pre,
                    post,
                    n,
                    h.taken,
                    b,
                    from_row(pre_results, a.len() as int),
                    from_row(post_results, h.taken - taken),
                    readings,
                    b.len() as int,
                ).out,
            );
        } else {
            lemma_head_front(
                pre,
                post,
                n,
                taken,
                a,
                b,
                pre_results,
                post_results,
                readings,
                a.len() as int,
            );
            lemma_head_stays(
                pre,
                post,
                n,
                taken,
                a + b,
                pre_results,
                post_results,
                readings,
                a.len() as int,
                rows.len() as int,
            );
        }
    }
}

/// A run of a plan over a file: on how many threads, which way it goes, into which
/// chunks its reads cut the data, and in which order the outputs of the chunks are
/// done, where they are handed out.
pub struct FileRunV<'a> {
    pub threads: usize,
    pub file_route: FileRoute<'a>,
    pub route: Route<'a>,
    pub chunks: Seq<Seq<u8>>,
    pub order: Seq<u64>,
}

/// Whether a run over data goes the way of the plan, and reads them in chunks cut at
/// their lines.
pub open spec fn runs(run: FileRunV<'_>, stages: Seq<Stage>, data: Seq<u8>) -> bool {
    &&& run.threads > 0
    &&& file_routed(stages, run.threads, run.file_route)
    &&& routed(stages, run.threads, run.route)
    &&& line_chunks(data, run.chunks)
    &&& run.chunks.len() < u64::MAX - 1
    &&& each_once(run.order, run.chunks.len())
}

/// What a run writes of a file's data behind the header, unless it stops. A sharded
/// profile is left open: its sums depend on where the shards are cut.
pub open spec fn run_text(
    run: FileRunV<'_>,
    stages: Seq<Stage>,
    file: Seq<u8>,
    data_start: u64,
    supplies: Seq<Supply>,
    readings: Map<Seq<char>, NumV>,
) -> Option<Seq<char>> {
    match run.file_route {
        FileRoute::Sharded(stmts) => pieces_text(
            stmts@,
            range_texts(file, ranges_of(shard_bounds(file, data_start, run.threads as int))),
            results_view(supplies[0].results@),
            readings,
        ),
        FileRoute::StatsSharded { .. } => arbitrary(),
        FileRoute::Reader => match run.route {
            Route::Stream(stmts) => pieces_text(
                stmts@,
                chunk_texts(run.chunks),
                results_view(supplies[0].results@),
                readings,
            ),
            Route::Parallel(stmts) => parallel_text(
                stmts@,
                chunk_texts(run.chunks),
                run.order,
                results_view(supplies[0].results@),
                readings,
            ),
            Route::Head { pre, n, post } => {
                let i = choose|i: int| #[trigger] streams_head(stages, i);
                head_text(
                    pre@,
                    post@,
                    n as int,
                    0,
                    chunk_texts(run.chunks),
                    results_of(stages.take(i), supplies.take(i)),
                    results_of(stages.skip(i + 1), supplies.skip(i + 1)),
                    readings,
                )
            },
            _ => body_text(stages, data_of(file, data_start), supplies, readings),
        },
    }
}

/// The bytes of a file behind its header.
pub open spec fn data_of(file: Seq<u8>, data_start: u64) -> Seq<u8> {
    range_bytes(file, (data_start, file.len() as u64))
}

/// What a plan writes of data, unless it stops.
pub open spec fn body_text(
    stages: Seq<Stage>,
    data: Seq<u8>,
    supplies: Seq<Supply>,
    readings: Map<Seq<char>, NumV>,
) -> Option<Seq<char>> {
    match body_out(stages, text_rows(chunk_rows(decode_utf8(data))), supplies, readings) {
        Ok(text) => Some(text),
        Err(_) => None,
    }
}

proof fn lemma_a_lone_transform_is_whole(
    stages: Seq<Stage>,
    data: Seq<u8>,
    supplies: Seq<Supply>,
    readings: Map<Seq<char>, NumV>,
)
    requires
        stages.len() == 1,
        stages[0] is Transform,
        supplies.len() == 1,
    ensures
        body_text(stages, data, supplies, readings) == whole_text(
            transform_of(stages),
            decode_utf8(data),
            results_view(supplies[0].results@),
            readings,
        ),
{
    assert(forall|i: int| !#[trigger] streams_head(stages, i));
    assert(forall|i: int| !#[trigger] streams_sort(stages, i));
    reveal_with_fuel(stages_out, 2);
}

/// A run over a file without a profile writes, on any number of threads and however
/// its reads cut the data, what the plan writes of the data read as a whole.
pub proof fn law_a_run_over_a_file_writes_the_whole(
    run: FileRunV<'_>,
    stages: Seq<Stage>,
    file: Seq<u8>,
    data_start: u64,
    supplies: Seq<Supply>,
    readings: Map<Seq<char>, NumV>,
)
    requires
        forall|i: int| 0 <= i < stages.len() ==> #[trigger] stages[i] !is Stats,
        supplies.len() == stages.len(),
        data_start <= file.len() <= u64::MAX,
        valid_utf8(data_of(file, data_start)),
        stages.len() == 1 && stages[0] is Transform ==> supplies[0].results@.len() == chunk_rows(
            decode_utf8(data_of(file, data_start)),
        ).len(),
        runs(run, stages, data_of(file, data_start)),
    ensures
        run_text(run, stages, file, data_start, supplies, readings) == body_text(
            stages,
            data_of(file, data_start),
            supplies,
            readings,
        ),
{
    let data = data_of(file, data_start);
    if stages.len() == 1 && stages[0] is Transform && !ordered_only(stages) {
        let stmts = transform_of(stages);
        let results = results_view(supplies[0].results@);
        lemma_a_lone_transform_is_whole(stages, data, supplies, readings);
        assert(stages[0] is Transform);
        assert(!any_stateful(stmts));
        assert(forall|i: int| !#[trigger] streams_head(stages, i));
        if run.threads > 1 {
            let n = run.threads as int;
            let bounds = shard_bounds(file, data_start, n);
            law_shard_bounds_are_at_lines(file, data_start, n);
            law_shards_read_the_whole(file, bounds);
            law_pieces_write_what_the_whole_does(
                stmts,
                range_texts(file, ranges_of(bounds)),
                results,
                readings,
            );
        } else {
            law_line_chunks_read_the_whole(data, run.chunks);
            law_pieces_write_what_the_whole_does(
                stmts,
                chunk_texts(run.chunks),
                results,
                readings,
            );
        }
    } else if !ordered_only(stages) && run.route is Head {
        let i = choose|i: int| #[trigger] streams_head(stages, i);
        lemma_one_head(stages);
        law_line_chunks_read_the_whole(data, run.chunks);
        assert(!any_stateful(transform_of(stages.take(i)))) by {
            assert(i > 0 ==> stages.take(i)[0] == stages[0]);
        }
        assert(!any_stateful(transform_of(stages.skip(i + 1)))) by {
            assert(i + 1 < stages.len() ==> stages.skip(i + 1)[0] == stages[i + 1]);
        }
        law_head_writes_the_same_in_any_chunks(
            transform_of(stages.take(i)),
            transform_of(stages.skip(i + 1)),
            stages[i]->Head_0 as int,
            0,
            chunk_texts(run.chunks),
            results_of(stages.take(i), supplies.take(i)),
            results_of(stages.skip(i + 1), supplies.skip(i + 1)),
            readings,
        );
    }
}

/// Two runs of a plan without a profile over one file write the same text, on however
/// many threads each of them goes.
pub proof fn law_threads_write_the_same_text(
    one: FileRunV<'_>,
    other: FileRunV<'_>,
    stages: Seq<Stage>,
    file: Seq<u8>,
    data_start: u64,
    supplies: Seq<Supply>,
    readings: Map<Seq<char>, NumV>,
)
    requires
        forall|i: int| 0 <= i < stages.len() ==> #[trigger] stages[i] !is Stats,
        supplies.len() == stages.len(),
        data_start <= file.len() <= u64::MAX,
        valid_utf8(data_of(file, data_start)),
        stages.len() == 1 && stages[0] is Transform ==> supplies[0].results@.len() == chunk_rows(
            decode_utf8(data_of(file, data_start)),
        ).len(),
        runs(one, stages, data_of(file, data_start)),
        runs(other, stages, data_of(file, data_start)),
    ensures
        run_text(one, stages, file, data_start, supplies, readings) == run_text(
            other,
            stages,
            file,
            data_start,
            supplies,
            readings,
        ),
{
    law_a_run_over_a_file_writes_the_whole(one, stages, file, data_start, supplies, readings);
    law_a_run_over_a_file_writes_the_whole(other, stages, file, data_start, supplies, readings);
}

} // verus!
