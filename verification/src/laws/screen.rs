//! How output is shown, and what is said when something goes wrong.

use crate::cli::{ColorWhen, InputFormat};
use crate::console::{Console, Sink, newlines};
use crate::csv::without_cr;
use crate::error::{
    Error, before_span, byte_len, closest, drawn, edit_distance, in_span, last_line_start,
    line_from_span, many_lines, near, on_boundaries, previewed, span_bytes, span_start, suggestion,
};
use crate::field::FieldV;
use crate::outside::display_width;
use crate::pager::{
    assignments_from, assigns, banner_release, command_of, digits_end, last_name, program_of,
    runs_less, table_options,
};
use crate::parquet::{Cell, cell_field, readable, unreadable};
use crate::plan::{OutputFormat, Plan};
use crate::source::{auto_names, format_of, rendered, small, smalls};
use crate::text::{
    all_digits, count_of, decimal, digits_value, is_digit, joined, lemma_next_of,
    lemma_split_joined, next_of, repeated, trimmed, words,
};
use std::ops::Range;
use vstd::prelude::*;
use vstd::utf8::{
    decode_utf8, decode_utf8_encode_utf8, decode_utf8_split, encode_utf8, encode_utf8_decode_utf8,
    encode_utf8_valid_utf8, valid_utf8_split,
};

verus! {

/// `--color always` and `never` decide whatever else is set. Otherwise `NO_COLOR` turns
/// colour off, then `CLICOLOR_FORCE` turns it on, and else a terminal has it that is not
/// a dumb one.
pub proof fn law_color_is_decided_in_turn(c: Console, terminal: bool)
    ensures
        c.color == ColorWhen::Always ==> c.coloring(terminal),
        c.color == ColorWhen::Never ==> !c.coloring(terminal),
        c.color == ColorWhen::Auto && c.no_color ==> !c.coloring(terminal),
        c.color == ColorWhen::Auto && !c.no_color && c.force_color ==> c.coloring(terminal),
        c.color == ColorWhen::Auto && !c.no_color && !c.force_color ==> (c.coloring(terminal)
            <==> terminal && !c.dumb),
{
}

/// Stdout is drawn in colour at the terminal's depth, and has a width, only as far as it
/// goes to the terminal; links need both colour and the terminal.
pub proof fn law_the_screen_is_the_terminal(c: Console)
    ensures
        c.drawn() is Some ==> c.drawn() == Some(c.depth),
        c.drawn() is Some <==> c.coloring(c.stdout == Sink::Terminal),
        c.stdout == Sink::Terminal ==> c.shown_width() == c.columns,
        c.stdout != Sink::Terminal ==> c.shown_width() is None && !c.linking(),
        c.linking() ==> c.drawn() is Some,
        c.stdout == Sink::Terminal && c.drawn() is Some ==> c.linking(),
{
}

/// The lines of output are counted by their newlines.
pub proof fn law_lines_are_counted_by_newlines(a: Seq<u8>, b: Seq<u8>)
    ensures
        newlines(a + b) == newlines(a) + newlines(b),
        newlines(seq![10u8]) == 1,
        forall|c: u8| c != 10 ==> #[trigger] newlines(seq![c]) == 0,
    decreases a.len(),
{
    reveal_with_fuel(newlines, 2);
    if a.len() > 0 {
        law_lines_are_counted_by_newlines(a.drop_first(), b);
        assert((a + b).drop_first() =~= a.drop_first() + b);
    } else {
        assert(a + b =~= b);
    }
    assert(seq![10u8].drop_first() =~= Seq::<u8>::empty());
    assert forall|c: u8| c != 10 implies #[trigger] newlines(seq![c]) == 0 by {
        assert(seq![c].drop_first() =~= Seq::<u8>::empty());
    }
}

/// `$CSVM_PAGER` is asked first, then `$PAGER`, and `less` where neither is set; an empty
/// one, or `cat`, turns paging off.
pub proof fn law_the_pager_is_asked_for_in_turn(own: Seq<char>, pager: Option<Seq<char>>)
    ensures
        command_of(Some(own), pager) == (if trimmed(own).len() == 0 || trimmed(own) == "cat"@ {
            None
        } else {
            Some(trimmed(own))
        }),
        pager matches Some(p) ==> command_of(None, pager) == command_of(Some(p), None),
        command_of(None, None) == command_of(Some("less"@), None),
{
}

/// The program of a pager command is its first word that sets no variable.
pub proof fn law_the_program_is_behind_the_assignments(cmd: Seq<char>, i: int)
    requires
        0 <= i < words(cmd).len(),
        !assigns(words(cmd)[i]),
        forall|k: int| 0 <= k < i ==> assigns(#[trigger] words(cmd)[k]),
    ensures
        program_of(cmd) == words(cmd)[i],
{
    lemma_assignments(words(cmd), 0, i);
}

proof fn lemma_assignments(ws: Seq<Seq<char>>, k: int, i: int)
    requires
        0 <= k <= i < ws.len(),
        !assigns(ws[i]),
        forall|j: int| k <= j < i ==> assigns(#[trigger] ws[j]),
    ensures
        assignments_from(ws, k) == i,
    decreases i - k,
{
    if k < i {
        assert(assigns(ws[k]));
        lemma_assignments(ws, k + 1, i);
    }
}

/// The file name of a path is its last piece that is neither empty nor a dot.
pub proof fn law_a_file_name_is_the_last_piece(pieces: Seq<Seq<char>>, n: int)
    requires
        0 <= n <= pieces.len(),
    ensures
        last_name(pieces, n) matches Some(s) ==> exists|i: int|
            {
                &&& 0 <= i < n
                &&& #[trigger] pieces[i] == s
                &&& s.len() > 0
                &&& s != seq!['.']
                &&& forall|k: int|
                    i < k < n ==> (#[trigger] pieces[k]).len() == 0 || pieces[k] == seq!['.']
            },
        last_name(pieces, n) is None ==> forall|k: int|
            0 <= k < n ==> (#[trigger] pieces[k]).len() == 0 || pieces[k] == seq!['.'],
    decreases n,
{
    if n > 0 {
        let p = pieces[n - 1];
        if p.len() == 0 || p == seq!['.'] {
            law_a_file_name_is_the_last_piece(pieces, n - 1);
            if let Some(s) = last_name(pieces, n - 1) {
                let i = choose|i: int|
                    {
                        &&& 0 <= i < n - 1
                        &&& #[trigger] pieces[i] == s
                        &&& s.len() > 0
                        &&& s != seq!['.']
                        &&& forall|k: int|
                            i < k < n - 1 ==> (#[trigger] pieces[k]).len() == 0 || pieces[k]
                                == seq!['.']
                    };
                assert(pieces[i] == s);
            }
        }
    }
}

/// The name that is suggested is one of the candidates, none of which is closer; the
/// first of those that are as close; and it is close: one edit away, or a third of the
/// longer name.
pub proof fn law_the_closest_name_is_suggested(target: Seq<char>, candidates: Seq<Seq<char>>)
    ensures
        suggestion(target, candidates) matches Some(s) ==> exists|i: int|
            {
                &&& 0 <= i < candidates.len()
                &&& #[trigger] candidates[i] == s
                &&& forall|k: int|
                    0 <= k < candidates.len() ==> edit_distance(target, s) <= edit_distance(
                        target,
                        #[trigger] candidates[k],
                    )
                &&& forall|k: int|
                    0 <= k < i ==> edit_distance(target, s) < edit_distance(
                        target,
                        #[trigger] candidates[k],
                    )
                &&& edit_distance(target, s) <= 1 || 3 * edit_distance(target, s) <= byte_len(
                    target,
                ) || 3 * edit_distance(target, s) <= byte_len(s)
            },
{
    if let Some(s) = suggestion(target, candidates) {
        let i = choose|i: int| closest(target, candidates, i);
        let j = choose|j: int| closest(target, candidates, j) && near(target, candidates[j]);
        assert(closest(target, candidates, j));
        assert(i == j) by {
            if i < j {
                assert(edit_distance(target, candidates[i]) > edit_distance(target, candidates[j]));
            }
            if j < i {
                assert(edit_distance(target, candidates[j]) > edit_distance(target, candidates[i]));
            }
        }
        assert(candidates[i] == s);
    }
}

/// Up to eight names are listed in full; of more, the first eight, and how many there are
/// beside them.
pub proof fn law_long_lists_are_cut_after_eight(names: Seq<Seq<char>>)
    ensures
        names.len() <= 8 ==> previewed(names) == joined(names, ", "@),
        names.len() > 8 ==> exists|rest: Seq<char>|
            previewed(names) == #[trigger] (joined(names.take(8), ", "@) + rest),
        names.len() > 8 ==> previewed(names) == joined(names.take(8), ", "@) + (", … (+"@ + decimal(
            (names.len() - 8) as nat,
        ) + " more)"@),
{
    if names.len() > 8 {
        let rest = ", … (+"@ + decimal((names.len() - 8) as nat) + " more)"@;
        assert(previewed(names) =~= joined(names.take(8), ", "@) + rest);
    }
}

/// The last line of a text begins behind its last newline.
pub proof fn law_the_last_line_begins_behind_the_last_newline(s: Seq<char>)
    ensures
        0 <= last_line_start(s) <= s.len(),
        last_line_start(s) > 0 ==> s[last_line_start(s) - 1] == '\n',
        forall|i: int| last_line_start(s) <= i < s.len() ==> #[trigger] s[i] != '\n',
    decreases s.len(),
{
    if s.len() > 0 && s.last() != '\n' {
        law_the_last_line_begins_behind_the_last_newline(s.drop_last());
        let n = last_line_start(s);
        assert forall|i: int| n <= i < s.len() implies #[trigger] s[i] != '\n' by {
            if i < s.len() - 1 {
                assert(s.drop_last()[i] == s[i]);
            }
        }
    }
}

/// The carets under a line of a script stand under what they mark: behind as many spaces
/// as the text before it is wide, one for each column that it takes, and at least one. In
/// a script of several lines both are behind the number of the line.
pub proof fn law_carets_stand_under_what_they_mark(
    head: Seq<char>,
    rest: Seq<char>,
    marked: Seq<char>,
    many: bool,
)
    ensures
        ({
            let lead = crate::error::detabbed(head.skip(last_line_start(head)));
            let line = lead + crate::error::detabbed(rest);
            let wide = display_width(crate::error::detabbed(marked)) as nat;
            let carets = repeated('^', if wide == 0 {
                1
            } else {
                wide
            });
            exists|a: Seq<char>, b: Seq<char>|
                {
                    &&& drawn(head, rest, marked, many, false) == #[trigger] (a + line) + seq!['\n']
                        + #[trigger] (b + repeated(' ', display_width(lead) as nat)) + carets
                    &&& a.len() == b.len()
                    &&& many ==> a == decimal(count_of(head, '\n') + 1) + " | "@
                    &&& !many ==> a == "  "@
                }
        }),
{
    reveal_strlit("\n");
    reveal_strlit("  ");
    reveal_strlit("\n  ");
    reveal_strlit(" | ");
    let lead = crate::error::detabbed(head.skip(last_line_start(head)));
    let line = lead + crate::error::detabbed(rest);
    let wide = display_width(crate::error::detabbed(marked)) as nat;
    let carets = repeated('^', if wide == 0 {
        1
    } else {
        wide
    });
    let under = repeated(' ', display_width(lead) as nat);
    let out = drawn(head, rest, marked, many, false);
    if many {
        let number = decimal(count_of(head, '\n') + 1);
        let a = number + " | "@;
        let b = repeated(' ', number.len()) + " | "@;
        assert(out =~= (a + line) + seq!['\n'] + (b + under) + carets);
    } else {
        let (a, b) = ("  "@, "  "@);
        assert(out =~= (a + line) + seq!['\n'] + (b + under) + carets);
    }
}

/// The columns of an input without a header are named `c1`, `c2` and so on.
pub proof fn law_unnamed_columns_are_numbered(n: nat, i: int)
    requires
        0 <= i < n,
    ensures
        auto_names(n).len() == n,
        auto_names(n)[i] == seq!['c'] + decimal((i + 1) as nat),
{
    reveal_strlit("c");
    assert("c"@ =~= seq!['c']);
}

/// What a cell of a typed file is: nothing where there is none, a letter for a yes or a
/// no, and else the number or the text that it holds.
pub proof fn law_typed_cells_keep_their_values(c: Cell)
    ensures
        c is Null ==> cell_field(c).text().len() == 0,
        c matches Cell::Bool(b) ==> cell_field(c) == FieldV::Str(
            seq![
                if b {
                    't'
                } else {
                    'f'
                },
            ],
        ),
        c matches Cell::Number(n) ==> cell_field(c) == FieldV::Num(n@),
        c matches Cell::Text(s) ==> cell_field(c) == FieldV::Str(s@),
{
}

/// The first column of a kind that cannot be read is the one that is refused; there is
/// none just when all can be.
pub proof fn law_the_first_unreadable_column_is_refused(
    columns: Seq<crate::parquet::Column>,
    k: int,
)
    requires
        0 <= k <= columns.len(),
    ensures
        match unreadable(columns, k) {
            Some(i) => k <= i < columns.len() && !readable(columns[i].kind) && forall|j: int|
                k <= j < i ==> readable((#[trigger] columns[j]).kind),
            None => forall|j: int| k <= j < columns.len() ==> readable((#[trigger] columns[j]).kind),
        },
    decreases columns.len() - k,
{
    if k < columns.len() && readable(columns[k].kind) {
        law_the_first_unreadable_column_is_refused(columns, k + 1);
    }
}

/// A pager runs `less` where the file name of its program is that.
pub proof fn law_less_goes_by_its_file_name(cmd: Seq<char>, pieces: Seq<Seq<char>>)
    requires
        pieces.len() > 0,
        program_of(cmd) == joined(pieces, seq!['/']),
        forall|i: int, k: int|
            #![trigger pieces[i][k]]
            0 <= i < pieces.len() && 0 <= k < pieces[i].len() ==> pieces[i][k] != '/',
        pieces.last().len() > 0,
        pieces.last() != seq!['.'],
    ensures
        runs_less(cmd) <==> pieces.last() == "less"@,
{
    lemma_split_joined(pieces, '/');
}

/// The release in a pager's banner is the number that its second word begins with.
pub proof fn law_a_release_is_the_second_words_number(
    banner: Seq<char>,
    digits: Seq<char>,
    rest: Seq<char>,
)
    requires
        words(banner).len() >= 2,
        words(banner)[1] == digits + rest,
        all_digits(digits),
        rest.len() > 0 ==> !is_digit(rest[0]),
        digits_value(digits) <= u32::MAX,
    ensures
        banner_release(banner) == Some(digits_value(digits) as u32),
{
    let word = digits + rest;
    lemma_digits_end(word, digits.len() as int, 0);
    assert(word.take(digits.len() as int) =~= digits);
}

proof fn lemma_digits_end(word: Seq<char>, n: int, i: int)
    requires
        0 <= i <= n <= word.len(),
        forall|k: int| i <= k < n ==> is_digit(#[trigger] word[k]),
        n < word.len() ==> !is_digit(word[n]),
    ensures
        digits_end(word, i) == n,
    decreases n - i,
{
    if i < n {
        assert(is_digit(word[i]));
        lemma_digits_end(word, n, i + 1);
    }
}

/// An excerpt is cut at its span: the script is what stands before the span and what
/// follows; the line goes on to its end; and what is marked is what the span covers of
/// it, at most to the end of the line.
pub proof fn law_an_excerpt_is_cut_at_its_span(
    script: Seq<char>,
    span: Range<usize>,
) -> (tail: Seq<char>)
    requires
        on_boundaries(script, span),
    ensures
        script == before_span(script, span) + tail,
        span.start <= encode_utf8(script).len() ==> encode_utf8(before_span(script, span)).len()
            == span.start,
        span.start > encode_utf8(script).len() ==> tail.len() == 0,
        line_from_span(script, span) == without_cr(tail.take(next_of(tail, '\n', 0))),
        in_span(script, span).len() <= line_from_span(script, span).len(),
        in_span(script, span) == line_from_span(script, span).take(
            in_span(script, span).len() as int,
        ),
        span.start <= span.end <= encode_utf8(script).len() && span.end - span.start
            <= encode_utf8(line_from_span(script, span)).len() ==> encode_utf8(
            in_span(script, span),
        ).len() == span.end - span.start,
{
    let bytes = encode_utf8(script);
    let at = span_start(script, span);
    encode_utf8_valid_utf8(script);
    encode_utf8_decode_utf8(script);
    decode_utf8_split(bytes, at);
    valid_utf8_split(bytes, at);
    decode_utf8_encode_utf8(bytes.subrange(0, at));
    let tail = decode_utf8(bytes.subrange(at, bytes.len() as int));
    assert(script =~= before_span(script, span) + tail);
    if at == bytes.len() {
        assert(bytes.subrange(at, bytes.len() as int).len() == 0);
    }
    let line = line_from_span(script, span);
    let lb = encode_utf8(line);
    let n = span_bytes(script, span);
    encode_utf8_valid_utf8(line);
    encode_utf8_decode_utf8(line);
    decode_utf8_split(lb, n);
    valid_utf8_split(lb, n);
    decode_utf8_encode_utf8(lb.subrange(0, n));
    let marked = in_span(script, span);
    assert(line =~= marked + decode_utf8(lb.subrange(n, lb.len() as int)));
    assert(line.take(marked.len() as int) =~= marked);
    tail
}

/// A script has several lines where something other than a newline follows one.
pub proof fn law_a_script_has_several_lines_where_one_follows(a: Seq<char>, c: char, b: Seq<char>)
    requires
        c != '\n',
    ensures
        many_lines(a + seq!['\n', c] + b),
        (forall|i: int| 0 <= i < a.len() ==> #[trigger] a[i] != '\n') ==> !many_lines(a),
        (forall|i: int| 0 <= i < a.len() ==> #[trigger] a[i] != '\n') ==> !many_lines(
            a + seq!['\n'],
        ),
{
    let s = a + seq!['\n', c] + b;
    let n = a.len() as int;
    assert(s[n] == '\n' && s[n + 1] != '\n');
}

/// Letters are made small, and nothing else changes.
pub proof fn law_letters_are_made_small(c: char)
    ensures
        'A' <= c <= 'Z' ==> small(c) as u32 == c as u32 + 32 && 'a' <= small(c) <= 'z',
        !('A' <= c <= 'Z') ==> small(c) == c,
{
    vstd::utf8::char_u32_cast(c, c as u32);
    if 'A' <= c <= 'Z' {
        vstd::utf8::char_u32_cast(small(c), (c as u32 + 32) as u32);
    }
}

/// A word sets a variable where it is a name, an equals sign and a value: a name begins
/// with a letter or an underscore, and goes on with those or digits.
pub proof fn law_a_word_that_assigns_has_a_name(name: Seq<char>, value: Seq<char>)
    requires
        forall|i: int| 0 <= i < name.len() ==> #[trigger] name[i] != '=',
    ensures
        assigns(name + seq!['='] + value) <==> {
            &&& name.len() > 0
            &&& is_letter(name[0])
            &&& forall|i: int|
                0 <= i < name.len() ==> is_letter(#[trigger] name[i]) || is_digit(name[i])
        },
        !assigns(name),
{
    let word = name + seq!['='] + value;
    let n = name.len() as int;
    lemma_next_of(word, '=', 0);
    lemma_next_of(name, '=', 0);
    let m = next_of(word, '=', 0);
    assert(word[n] == '=');
    if m < n {
        assert(word[m] == name[m]);
    }
    assert(m == n) by {
        if n < m {
            assert(word[n] != '=');
        }
    }
    assert(forall|i: int| 0 <= i < n ==> #[trigger] word[i] == name[i]);
    if assigns(word) {
        assert forall|i: int| 0 <= i < name.len() implies is_letter(#[trigger] name[i]) || is_digit(
            name[i],
        ) by {
            assert(word[i] == name[i]);
        }
    }
}

/// Whether a variable's name can begin so.
pub open spec fn is_letter(c: char) -> bool {
    c == '_' || 'a' <= c <= 'z' || 'A' <= c <= 'Z'
}

/// Output is paged on a terminal that can be drawn on, unless `--no-pager` or the pager's
/// variables turn it off: each of these alone is enough to do so.
pub proof fn law_paging_can_be_turned_off(c: Console, cmd: String)
    ensures
        !(Console { no_pager: true, ..c }).paging(),
        !(Console { dumb: true, ..c }).paging(),
        !(Console { pager_command: None, ..c }).paging(),
        !(Console { stdout: Sink::File, ..c }).paging(),
        !(Console { stdout: Sink::Pipe, ..c }).paging(),
        (Console {
            stdout: Sink::Terminal,
            dumb: false,
            no_pager: false,
            pager_command: Some(cmd),
            ..c
        }).paging(),
{
}

/// The meter is drawn on a terminal that nothing else is drawing on: not where it is
/// turned off, where someone types the input, where stderr is no terminal or a dumb one,
/// where stdout feeds another program, or where it writes rows to the terminal.
pub proof fn law_the_meter_is_drawn_where_nothing_else_is(c: Console, buffered: bool)
    ensures
        !(Console { no_progress: true, ..c }).metering(buffered),
        !(Console { stderr_terminal: false, ..c }).metering(buffered),
        !(Console { dumb: true, ..c }).metering(buffered),
        !(Console { typed_input: true, ..c }).metering(buffered),
        !(Console { stdout: Sink::Pipe, ..c }).metering(buffered),
        !(Console { stdout: Sink::Terminal, ..c }).metering(false),
        (Console {
            stdout: Sink::File,
            no_progress: false,
            stderr_terminal: true,
            dumb: false,
            typed_input: false,
            ..c
        }).metering(buffered),
        (Console {
            stdout: Sink::Terminal,
            no_progress: false,
            stderr_terminal: true,
            dumb: false,
            typed_input: false,
            ..c
        }).metering(true),
{
}

/// A table's lines are cut off in `less`, and its header stays on screen where it is
/// taller than the window and the release can do that.
pub proof fn law_a_tall_table_keeps_its_header(version: Option<u32>, tall: bool)
    ensures
        table_options(version, tall)[0] == "-S"@,
        version matches Some(v) ==> (tall && v >= 608 ==> table_options(version, tall) == seq![
            "-S"@,
            "--header=1"@,
        ]),
        version matches Some(v) ==> (v < 608 ==> table_options(version, tall).len() == 1),
        version is None || !tall ==> table_options(version, tall).len() == 1,
{
}

/// The format that is asked for is the one; else it goes by the extension of the file, in
/// capitals or not.
pub proof fn law_the_format_goes_by_the_extension(f: InputFormat, e: Seq<char>)
    ensures
        format_of(Some(f), Some(e)) == f,
        format_of(Some(f), None) == f,
        format_of(None, None) == InputFormat::Csv,
        format_of(None, Some(e)) == InputFormat::Parquet || format_of(None, Some(e))
            == InputFormat::Csv,
        format_of(None, Some(e)) == InputFormat::Parquet <==> e.map_values(|c: char| small(c)) == seq![
            'p',
            'a',
            'r',
            'q',
            'u',
            'e',
            't',
        ],
{
    reveal_strlit("parquet");
    assert("parquet"@ =~= seq!['p', 'a', 'r', 'q', 'u', 'e', 't']);
    assert(smalls(e) =~= e.map_values(|c: char| small(c)));
}

/// Output waits for all of its rows where it is a table, a chart, or painted.
pub proof fn law_tables_charts_and_colors_wait_for_all_rows(plan: Plan, color: bool)
    ensures
        plan.output == OutputFormat::Aligned ==> rendered(plan, color),
        plan.graph is Some ==> rendered(plan, color),
        plan.colors@.len() > 0 ==> rendered(plan, true),
        plan.output == OutputFormat::Csv && plan.graph is None ==> !rendered(plan, false),
        plan.output == OutputFormat::Csv && plan.graph is None && plan.colors@.len() == 0
            ==> !rendered(plan, color),
{
}

/// A name is suggested whenever the closest candidate, the first of those that are as
/// close, is one edit away, or no more edits than a third of the longer name.
pub proof fn law_a_close_name_is_suggested(
    target: Seq<char>,
    candidates: Seq<Seq<char>>,
    i: int,
)
    requires
        0 <= i < candidates.len(),
        forall|k: int|
            0 <= k < candidates.len() ==> edit_distance(target, candidates[i]) <= edit_distance(
                target,
                #[trigger] candidates[k],
            ),
        forall|k: int|
            0 <= k < i ==> edit_distance(target, candidates[i]) < edit_distance(
                target,
                #[trigger] candidates[k],
            ),
        ({
            let d = edit_distance(target, candidates[i]);
            d <= 1 || 3 * d <= byte_len(target) || 3 * d <= byte_len(candidates[i])
        }),
    ensures
        suggestion(target, candidates) == Some(candidates[i]),
{
    assert(closest(target, candidates, i));
    assert(near(target, candidates[i]));
    let j = choose|j: int| closest(target, candidates, j);
    if i < j {
        assert(edit_distance(target, candidates[i]) > edit_distance(target, candidates[j]));
    }
    if j < i {
        assert(edit_distance(target, candidates[j]) > edit_distance(target, candidates[i]));
    }
}

/// A table is fitted to the terminal just where no pager scrolls it; links reach a pager
/// only where it shows them; and colour and width do not depend on it.
pub proof fn law_a_paged_table_is_not_fitted(c: Console, shows: bool)
    ensures
        c.seen_through(None).fit,
        !c.seen_through(Some(shows)).fit,
        c.seen_through(None).links == c.linking(),
        c.seen_through(Some(true)).links == c.linking(),
        !c.seen_through(Some(false)).links,
        c.seen_through(Some(shows)).color == c.seen_through(None).color,
        c.seen_through(Some(shows)).width == c.seen_through(None).width,
        c.seen_through(None).color == c.drawn(),
        c.seen_through(None).width == c.shown_width(),
{
}

/// Output fills a window that has no more rows than it has lines; one whose rows are not
/// known is never filled.
pub proof fn law_output_fills_a_window_of_as_many_rows(c: Console, output: Seq<u8>, rows: usize)
    ensures
        (Console { rows: Some(rows), ..c }).filled_by(output) <==> newlines(output) >= rows,
        !(Console { rows: None, ..c }).filled_by(output),
{
}

/// The first place that an error is given stays; without it the error is what it was, and
/// says the same.
pub proof fn law_the_first_place_of_an_error_stays(
    e: Error,
    first: Range<usize>,
    later: Range<usize>,
)
    ensures
        e.placed_at(first).placed_at(later) == e.placed_at(first),
        e.place() is None ==> e.placed_at(first).place() == Some(first),
        e.place() is Some ==> e.placed_at(first).place() == e.place(),
        e.place() is None ==> e.placed_at(first).itself() == e,
        e.placed_at(first).said() == e.said(),
        e.place() is Some ==> e.itself().said() == e.said(),
{
    reveal_with_fuel(Error::said, 2);
}

} // verus!
