//! What the highlighter answers.

use crate::cli::UsageV;
use crate::error::Error;
use crate::highlight::{
    Arg, MAX_MESSAGE, MAX_SPAN_BYTES, ReplyErrorV, ScriptReading, Span, any_raw, bad_arg,
    char_width, error_line, first_bad, fitting, one_line_of, path_from, reply_text, run_error_of,
    script_error_of, script_place, span_line, span_lines, usage_error_of, width_of, without_returns,
};
use crate::text::{decimal, ends_with, is_white, lemma_next_of, next_of, starts_with};
use std::ops::Range;
use vstd::prelude::*;
use vstd::utf8::{encode_utf8, valid_utf8};

verus! {

/// The lines of spans, one behind the other.
pub open spec fn all_lines(spans: Seq<Span>, i: int) -> Seq<char>
    decreases spans.len() - i,
{
    if i >= spans.len() {
        seq![]
    } else {
        span_line(spans[i]) + all_lines(spans, i + 1)
    }
}

proof fn lemma_all_fit(spans: Seq<Span>, i: int, used: int)
    requires
        0 <= i <= spans.len(),
        0 <= used,
        used + all_lines(spans, i).len() <= MAX_SPAN_BYTES,
    ensures
        span_lines(spans, i, used) == all_lines(spans, i),
    decreases spans.len() - i,
{
    if i < spans.len() {
        lemma_all_fit(spans, i + 1, used + span_line(spans[i]).len());
    }
}

/// A reply has a line for each span, in order, as long as there is room for them; then
/// the error, if there is one; and it ends with the request's number.
pub proof fn law_a_reply_has_every_span(
    id: nat,
    spans: Seq<Span>,
    error: Option<ReplyErrorV>,
)
    requires
        all_lines(spans, 0).len() <= MAX_SPAN_BYTES,
    ensures
        error is None ==> reply_text(id, spans, error) == all_lines(spans, 0) + (":end "@ + decimal(
            id,
        ) + "\n"@),
        error matches Some(e) ==> reply_text(id, spans, error) == all_lines(spans, 0) + error_line(
            e,
        ) + (":end "@ + decimal(id) + "\n"@),
{
    lemma_all_fit(spans, 0, 0);
    let end = ":end "@ + decimal(id) + "\n"@;
    match error {
        None => {
            assert(reply_text(id, spans, error) =~= all_lines(spans, 0) + end);
        },
        Some(e) => {
            assert(reply_text(id, spans, error) =~= all_lines(spans, 0) + error_line(e) + end);
        },
    }
}

/// A span's line has its argument, where it begins and ends in it, and what it is.
pub proof fn law_a_span_is_sent_with_its_place(s: Span)
    ensures
        span_line(s) == ":span "@ + decimal(s.arg as nat) + " "@ + decimal(s.at.start as nat) + " "@
            + decimal(s.at.end as nat) + " "@ + s.kind.called() + "\n"@,
{
}

proof fn lemma_fits(s: Seq<char>, max: int, k: int, used: int)
    requires
        0 <= k <= s.len(),
        used + width_of(s.skip(k)) <= max,
    ensures
        fitting(s, max, k, used) == s.len(),
    decreases s.len() - k,
{
    if k < s.len() {
        assert(s.skip(k)[0] == s[k]);
        assert(s.skip(k).drop_first() =~= s.skip(k + 1));
        lemma_fits(s, max, k + 1, used + char_width(s[k]));
    }
}

/// A message of one line that is not too long is sent as it is.
pub proof fn law_a_short_message_is_sent_as_it_is(message: Seq<char>)
    requires
        width_of(message) <= MAX_MESSAGE,
        forall|i: int|
            0 <= i < message.len() ==> #[trigger] message[i] != '\n' && message[i] != '\r',
        message.len() > 0 ==> !is_white(message.last()),
    ensures
        one_line_of(message) == message,
{
    lemma_next_of(message, '\n', 0);
    let n = next_of(message, '\n', 0);
    assert(n == message.len()) by {
        if n < message.len() {
            assert(message[n] == '\n');
        }
    }
    let first = message.take(n);
    assert(first =~= message);
    assert(message.skip(0) =~= message);
    lemma_fits(message, MAX_MESSAGE as int, 0, 0);
    assert(message.take(message.len() as int) =~= message);
    assert(without_returns(message) =~= message);
}

/// What is wrong in a script is placed inside it; a span of the script stays as it is.
pub proof fn law_an_error_is_placed_inside_the_script(
    arg: usize,
    script: Seq<char>,
    e: Error,
)
    requires
        encode_utf8(script).len() <= usize::MAX,
    ensures
        ({
            let len = encode_utf8(script).len();
            match script_place(arg, script, e) {
                Some((a, at)) => {
                    &&& e is At
                    &&& a == arg
                    &&& at.start <= at.end <= len
                    &&& e->At_span.start <= e->At_span.end <= len ==> at == e->At_span
                },
                None => !(e is At),
            }
        }),
{
}

/// A mistake in the command line is placed on the whole argument that it is about, the
/// one behind the program's name being the first; where the shell may change a word up to
/// there, nothing is said.
pub proof fn law_a_mistake_is_placed_on_its_argument(args: Seq<Arg>, usage: UsageV, at: int)
    requires
        usage.arg == Some(at),
        0 <= at,
        at + 1 < args.len() <= usize::MAX,
        args[at + 1].bytes@.len() <= usize::MAX,
    ensures
        ({
            let raw = if usage.whole_line {
                exists|i: int| 1 <= i < args.len() && (#[trigger] args[i]).raw
            } else {
                exists|i: int| 1 <= i <= at + 1 && (#[trigger] args[i]).raw
            };
            if raw {
                usage_error_of(args, usage) is None
            } else {
                usage_error_of(args, usage) matches Some(e) && {
                    &&& e.place == Some(
                        (
                            (at + 1) as usize,
                            Range { start: 0usize, end: args[at + 1].bytes@.len() as usize },
                        ),
                    )
                    &&& e.message == one_line_of(usage.message)
                }
            }
        }),
{
    let to = if usage.whole_line {
        args.len() as int
    } else {
        at + 2
    };
    if any_raw(args, 1, to) {
        let i = choose|i: int| 1 <= i < to && 0 <= i < args.len() && (#[trigger] args[i]).raw;
        assert(args[i].raw);
    }
}

/// What is wrong in the script comes before a column that is not there; neither is said
/// where the shell may change what it depends on.
pub proof fn law_the_script_is_at_fault_before_its_columns(
    args: Seq<Arg>,
    at: int,
    script: Seq<char>,
    found: ScriptReading,
)
    requires
        0 <= at,
        forall|i: int| 0 <= i < args.len() ==> !(#[trigger] args[i]).raw,
    ensures
        found.error matches Some(e) ==> run_error_of(args, at, script, found) == Some(
            script_error_of((at + 1) as usize, script, e),
        ),
        found.error is None ==> (found.columns matches Some(e) ==> run_error_of(
            args,
            at,
            script,
            found,
        ) == Some(script_error_of((at + 1) as usize, script, e))),
        found.error is None && found.columns is None ==> run_error_of(args, at, script, found) is None,
{
}

/// The first argument that is no text is the one that is reported.
pub proof fn law_the_first_argument_that_is_no_text_is_reported(args: Seq<Arg>, i: int)
    requires
        1 <= i,
        bad_arg(args, i),
    ensures
        ({
            let b = first_bad(args, 1);
            &&& 1 <= b <= i
            &&& !valid_utf8(args[b].bytes@)
            &&& forall|k: int| 1 <= k < b ==> valid_utf8((#[trigger] args[k]).bytes@)
        }),
{
    lemma_first_bad(args, 1, i);
}

proof fn lemma_first_bad(args: Seq<Arg>, k: int, i: int)
    requires
        0 <= k <= i < args.len(),
        !valid_utf8(args[i].bytes@),
    ensures
        ({
            let b = first_bad(args, k);
            &&& k <= b <= i
            &&& !valid_utf8(args[b].bytes@)
            &&& forall|j: int| k <= j < b ==> valid_utf8((#[trigger] args[j]).bytes@)
        }),
    decreases i - k,
{
    if k < i && valid_utf8(args[k].bytes@) {
        lemma_first_bad(args, k + 1, i);
    }
}

/// A path is read from the directory of the request unless it begins at the root.
pub proof fn law_paths_are_read_from_the_directory(dir: Seq<char>, path: Seq<char>)
    requires
        path.len() > 0,
        dir.len() > 0,
    ensures
        path[0] == '/' ==> path_from(Some(dir), path) == Some(path) && path_from(None, path) == Some(
            path,
        ),
        path[0] != '/' ==> path_from(None, path) is None,
        path[0] != '/' && dir.last() == '/' ==> path_from(Some(dir), path) == Some(dir + path),
        path[0] != '/' && dir.last() != '/' ==> path_from(Some(dir), path) == Some(
            dir + seq!['/'] + path,
        ),
{
    reveal_strlit("/");
    assert("/"@ =~= seq!['/']);
    if path[0] == '/' {
        assert(path.take(1) =~= "/"@);
    } else if starts_with(path, "/"@) {
        assert(path.take(1)[0] == path[0]);
    }
    if dir.last() == '/' {
        assert(dir.skip(dir.len() - 1) =~= "/"@);
    } else if ends_with(dir, "/"@) {
        assert(dir.skip(dir.len() - 1)[0] == dir.last());
    }
}

/// An error's line has its argument and where it begins and ends in it, or dashes where
/// it has no place, and what it says.
pub proof fn law_an_error_is_sent_with_its_place(e: ReplyErrorV)
    ensures
        e.place matches Some((arg, at)) ==> error_line(e) == ":error "@ + (decimal(arg as nat) + " "@
            + decimal(at.start as nat) + " "@ + decimal(at.end as nat)) + " "@ + one_line_of(
            e.message,
        ) + "\n"@,
        e.place is None ==> error_line(e) == ":error "@ + "- - -"@ + " "@ + one_line_of(e.message)
            + "\n"@,
{
}

} // verus!
