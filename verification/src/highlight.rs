//! `csvm --highlight`: the helper inkline asks to colour a csvm command
//! line while it is typed.
//!
//! inkline writes requests to stdin:
//!
//! ```text
//! :request ID
//! :cwd LEN
//! BYTES
//! :arg final|raw LEN
//! BYTES
//! :done
//! ```
//!
//! with one `:arg` per argument, the command's name first. csvm answers
//! each on stdout, in order:
//!
//! ```text
//! :span ARG START END KIND
//! :error ARG START END MESSAGE      (or :error - - - MESSAGE)
//! :end ID
//! ```
//!
//! Lengths and offsets count bytes.

use std::ops::Range;
use vstd::prelude::*;
use vstd::utf8::{decode_utf8, encode_utf8, valid_utf8};

use crate::cli::{
    Header, InputFormat, Parsed, ParsedV, UsageV, law_places_are_of_the_line, parse_at, parsed_of,
};
use crate::error::Error;
use crate::outside::{debug_quoted, debug_str, lossy_text, utf8_bad_len, utf8_lossy, utf8_text};
use crate::plan::Plan;
use crate::prepare::{
    FileHeader, UnpreparedV, law_a_prepared_plan_writes_the_given_header, listed, plan_files,
    plan_given, plan_rights, prepare_joins,
};
use crate::resolve::reports;
use crate::text::{
    all_digits, cat2, chars_of, decimal, digits_value, find_char, has_prefix, lemma_decimal,
    lemma_next_of, next_of, read_digits, same, show_u64, show_usize, starts_with, string_from,
    texts, trim_end, trimmed_end,
};

verus! {

/// The line csvm writes first: the protocol's name and version.
pub const GREETING: &'static str = "inkline-highlight 1";

/// The longest `:` line a request may have, newline included.
pub const MAX_LINE: usize = 256;

/// The most bytes one `:cwd` or `:arg` may hold. A command line is far
/// smaller; the limit keeps a corrupt length from asking for any amount of
/// memory.
pub const MAX_BYTES: usize = 16_777_216;

/// The most bytes of `:span` lines one reply may hold. inkline turns a
/// helper off when a reply passes 1 MiB, so the spans past this are not
/// sent (the end of a very long script is then not coloured), which leaves
/// room for the error and `:end`.
pub const MAX_SPAN_BYTES: usize = 921_600;

/// The most bytes of an error's message that are sent, so that a message
/// quoting a very long word cannot push a reply past inkline's limit either.
pub const MAX_MESSAGE: usize = 4096;

/// One request: the shell's directory and the command's arguments.
#[derive(Debug, Clone, PartialEq, Eq)]
pub struct Request {
    pub id: u64,
    pub cwd: Vec<u8>,
    /// Argument 0 is the command's name.
    pub args: Vec<Arg>,
}

/// One argument of the command line.
#[derive(Debug, Clone, PartialEq, Eq)]
pub struct Arg {
    /// Bash will still expand it, so `bytes` is the text as typed, not what
    /// csvm will get.
    pub raw: bool,
    pub bytes: Vec<u8>,
}

/// What an [`Arg`] is in contracts.
pub struct ArgV {
    pub raw: bool,
    pub bytes: Seq<u8>,
}

/// What a [`Request`] is in contracts.
pub struct RequestV {
    pub id: u64,
    pub cwd: Seq<u8>,
    pub args: Seq<ArgV>,
}

/// Arguments in contracts.
pub open spec fn arg_views(args: Seq<Arg>) -> Seq<ArgV> {
    args.map_values(|a: Arg| ArgV { raw: a.raw, bytes: a.bytes@ })
}

impl View for Request {
    type V = RequestV;

    open spec fn view(&self) -> RequestV {
        RequestV { id: self.id, cwd: self.cwd@, args: arg_views(self.args@) }
    }
}

/// How input fails to be a request.
#[derive(Clone, Copy, Debug, PartialEq, Eq, Structural)]
pub enum FaultKind {
    /// It breaks the protocol, and the stream cannot be followed after it.
    InvalidData,
    /// It ends inside a request.
    UnexpectedEof,
}

/// Why input is not a request.
#[derive(Debug)]
pub struct Fault {
    pub kind: FaultKind,
    pub message: String,
}

/// What a [`Fault`] is in contracts.
pub struct FaultV {
    pub kind: FaultKind,
    pub message: Seq<char>,
}

impl View for Fault {
    type V = FaultV;

    open spec fn view(&self) -> FaultV {
        FaultV { kind: self.kind, message: self.message@ }
    }
}

/// The error for input that is not a request.
pub open spec fn bad_of(what: Seq<char>) -> FaultV {
    FaultV {
        kind: FaultKind::InvalidData,
        message: "not a highlight request: "@ + debug_quoted(what),
    }
}

/// The error for input that ends inside a request.
pub open spec fn cut_off(message: Seq<char>) -> FaultV {
    FaultV { kind: FaultKind::UnexpectedEof, message }
}

fn bad(what: &str) -> (r: Fault)
    ensures
        r@ == bad_of(what@),
{
    Fault {
        kind: FaultKind::InvalidData,
        message: cat2("not a highlight request: ", debug_str(what).as_str()),
    }
}

/// The first newline at or after `i`, or the length when there is none.
pub open spec fn newline_from(input: Seq<u8>, i: int) -> int
    decreases input.len() - i,
{
    if i >= input.len() {
        input.len() as int
    } else if input[i] == 10u8 {
        i
    } else {
        newline_from(input, i + 1)
    }
}

/// The `:` line at `i`, without its newline, and where the next one starts;
/// `None` at the end of the input.
pub open spec fn line_at(input: Seq<u8>, i: int) -> Result<Option<(Seq<char>, int)>, FaultV> {
    let n = newline_from(input, i);
    if i >= input.len() {
        Ok(None)
    } else if n < input.len() && n - i < MAX_LINE {
        let line = input.subrange(i, n);
        if valid_utf8(line) {
            Ok(Some((decode_utf8(line), n + 1)))
        } else {
            Err(bad_of(utf8_lossy(line)))
        }
    } else {
        let end = if i + MAX_LINE < input.len() {
            i + MAX_LINE
        } else {
            input.len() as int
        };
        Err(bad_of(utf8_lossy(input.subrange(i, end - 1))))
    }
}

proof fn lemma_newline_from(input: Seq<u8>, i: int, n: int)
    requires
        0 <= i <= n < input.len(),
        input[n] == 10u8,
        forall|k: int| i <= k < n ==> input[k] != 10u8,
    ensures
        newline_from(input, i) == n,
    decreases n - i,
{
    if i < n {
        lemma_newline_from(input, i + 1, n);
    }
}

proof fn lemma_no_newline_before(input: Seq<u8>, i: int, end: int)
    requires
        0 <= i <= end <= input.len(),
        forall|k: int| i <= k < end ==> input[k] != 10u8,
    ensures
        newline_from(input, i) >= end,
    decreases end - i,
{
    if i < end {
        lemma_no_newline_before(input, i + 1, end);
    } else if i < input.len() {
        lemma_newline_bounds(input, i);
    }
}

proof fn lemma_newline_bounds(input: Seq<u8>, i: int)
    requires
        0 <= i <= input.len(),
    ensures
        i <= newline_from(input, i) <= input.len(),
    decreases input.len() - i,
{
    if i < input.len() && input[i] != 10u8 {
        lemma_newline_bounds(input, i + 1);
    }
}

/// One `:` line, without its newline; `None` at the end of the input.
fn read_line(input: &[u8], i: usize) -> (r: Result<Option<(String, usize)>, Fault>)
    requires
        i <= input@.len(),
    ensures
        match r {
            Ok(Some((line, j))) => {
                &&& line_at(input@, i as int) == Ok::<Option<(Seq<char>, int)>, FaultV>(
                    Some((line@, j as int)),
                )
                &&& i < j <= input@.len()
            },
            Ok(None) => line_at(input@, i as int) == Ok::<Option<(Seq<char>, int)>, FaultV>(None),
            Err(e) => line_at(input@, i as int) == Err::<Option<(Seq<char>, int)>, FaultV>(e@),
        },
{
    if i == input.len() {
        return Ok(None);
    }
    let end: usize = if input.len() - i > MAX_LINE {
        i + MAX_LINE
    } else {
        input.len()
    };
    let window: &[u8] = &input[i..end];
    match memchr::memchr(10, window) {
        Some(k) => {
            let n: usize = i + k;
            proof {
                assert forall|m: int| i <= m < n implies input@[m] != 10u8 by {
                    assert(window@[m - i] != 10u8);
                }
                assert(input@[n as int] == window@[k as int]);
                lemma_newline_from(input@, i as int, n as int);
            }
            let line: &[u8] = &input[i..n];
            match utf8_text(line) {
                Ok(text) => {
                    proof {
                        vstd::utf8::encode_utf8_decode_utf8(text@);
                    }
                    Ok(Some((text, n + 1)))
                },
                Err(_) => Err(bad(lossy_text(line).as_str())),
            }
        },
        None => {
            proof {
                assert forall|m: int| i <= m < end implies input@[m] != 10u8 by {
                    assert(window@[m - i] != 10u8);
                }
                lemma_no_newline_before(input@, i as int, end as int);
            }
            let cut: &[u8] = &input[i..end - 1];
            Err(bad(lossy_text(cut).as_str()))
        },
    }
}

/// A decimal number, ASCII digits only, of at most `max`.
pub open spec fn number_of(text: Seq<char>, max: int) -> Result<int, FaultV> {
    if all_digits(text) && digits_value(text) <= max {
        Ok(digits_value(text) as int)
    } else {
        Err(bad_of(text))
    }
}

fn number(text: &str, max: u64) -> (r: Result<u64, Fault>)
    ensures
        match r {
            Ok(n) => number_of(text@, max as int) == Ok::<int, FaultV>(n as int),
            Err(e) => number_of(text@, max as int) == Err::<int, FaultV>(e@),
        },
{
    match read_digits(chars_of(text).as_slice(), max) {
        Some(n) => Ok(n),
        None => Err(bad(text)),
    }
}

/// The rest of `line` after `keyword`, which it must start with.
pub open spec fn field_of(line: Seq<char>, keyword: Seq<char>) -> Result<Seq<char>, FaultV> {
    if starts_with(line, keyword) {
        Ok(line.skip(keyword.len() as int))
    } else {
        Err(bad_of(line))
    }
}

fn field(line: &str, keyword: &str) -> (r: Result<String, Fault>)
    ensures
        match r {
            Ok(s) => field_of(line@, keyword@) == Ok::<Seq<char>, FaultV>(s@),
            Err(e) => field_of(line@, keyword@) == Err::<Seq<char>, FaultV>(e@),
        },
{
    if !has_prefix(line, keyword) {
        return Err(bad(line));
    }
    let v = chars_of(line);
    let k = chars_of(keyword).len();
    let s = string_from(v.as_slice(), k, v.len());
    assert(s@ =~= line@.skip(keyword@.len() as int));
    Ok(s)
}

/// `len` bytes at `i`, then the newline after them, and where the next line
/// starts.
pub open spec fn bytes_at(input: Seq<u8>, i: int, len: int) -> Result<(Seq<u8>, int), FaultV> {
    if len > MAX_BYTES {
        Err(bad_of(decimal(len as nat) + " bytes"@))
    } else if i + len >= input.len() {
        Err(cut_off("failed to fill whole buffer"@))
    } else if input[i + len] != 10u8 {
        Err(bad_of("no newline after the bytes"@))
    } else {
        Ok((input.subrange(i, i + len), i + len + 1))
    }
}

fn read_bytes(input: &[u8], i: usize, len: u64) -> (r: Result<(Vec<u8>, usize), Fault>)
    requires
        i <= input@.len(),
    ensures
        match r {
            Ok((bytes, j)) => {
                &&& bytes_at(input@, i as int, len as int) == Ok::<(Seq<u8>, int), FaultV>(
                    (bytes@, j as int),
                )
                &&& i < j <= input@.len()
            },
            Err(e) => bytes_at(input@, i as int, len as int) == Err::<(Seq<u8>, int), FaultV>(e@),
        },
{
    if len > MAX_BYTES as u64 {
        return Err(bad(cat2(show_u64(len).as_str(), " bytes").as_str()));
    }
    if len as u128 + i as u128 >= input.len() as u128 {
        return Err(
            Fault {
                kind: FaultKind::UnexpectedEof,
                message: "failed to fill whole buffer".to_string(),
            },
        );
    }
    let end: usize = i + len as usize;
    if input[end] != 10 {
        return Err(bad("no newline after the bytes"));
    }
    let mut bytes: Vec<u8> = Vec::new();
    let mut k: usize = i;
    assert(bytes@ =~= input@.subrange(i as int, i as int));
    while k < end
        invariant
            i <= k <= end < input@.len(),
            bytes@ == input@.subrange(i as int, k as int),
        decreases end - k,
    {
        bytes.push(input[k]);
        k += 1;
        assert(bytes@ =~= input@.subrange(i as int, k as int));
    }
    Ok((bytes, end + 1))
}

/// The kind and the length of an `:arg` line.
pub open spec fn arg_header(line: Seq<char>) -> Result<(bool, int), FaultV> {
    match field_of(line, ":arg "@) {
        Err(e) => Err(e),
        Ok(rest) => {
            let cut = next_of(rest, ' ', 0);
            let kind = rest.take(cut);
            if cut >= rest.len() || (kind != "final"@ && kind != "raw"@) {
                Err(bad_of(line))
            } else {
                match number_of(rest.skip(cut + 1), usize::MAX as int) {
                    Ok(n) => Ok((kind == "raw"@, n)),
                    Err(e) => Err(e),
                }
            }
        },
    }
}

fn read_arg_header(line: &str) -> (r: Result<(bool, u64), Fault>)
    ensures
        match r {
            Ok((raw, len)) => arg_header(line@) == Ok::<(bool, int), FaultV>((raw, len as int)),
            Err(e) => arg_header(line@) == Err::<(bool, int), FaultV>(e@),
        },
{
    proof {
        reveal_strlit("final");
        reveal_strlit("raw");
        assert("final"@.len() != "raw"@.len());
    }
    let rest = match field(line, ":arg ") {
        Err(e) => {
            return Err(e);
        },
        Ok(rest) => rest,
    };
    let v = chars_of(rest.as_str());
    let cut = find_char(v.as_slice(), ' ', 0);
    if cut >= v.len() {
        return Err(bad(line));
    }
    let kind = string_from(v.as_slice(), 0, cut);
    assert(kind@ =~= rest@.take(cut as int));
    let raw = if same(kind.as_str(), "final") {
        false
    } else if same(kind.as_str(), "raw") {
        true
    } else {
        return Err(bad(line));
    };
    let len = string_from(v.as_slice(), cut + 1, v.len());
    assert(len@ =~= rest@.skip(cut + 1));
    match number(len.as_str(), usize::MAX as u64) {
        Ok(n) => Ok((raw, n)),
        Err(e) => Err(e),
    }
}

/// The arguments of a request from `i` on, behind those before, and where the next
/// request starts.
pub open spec fn args_at(input: Seq<u8>, i: int, before: Seq<ArgV>) -> Result<
    (Seq<ArgV>, int),
    FaultV,
>
    decreases input.len() - i,
{
    match line_at(input, i) {
        Err(e) => Err(e),
        Ok(None) => Err(cut_off("the input ended inside a request"@)),
        Ok(Some((line, j))) => if line == ":done"@ {
            Ok((before, j))
        } else {
            match arg_header(line) {
                Err(e) => Err(e),
                Ok((raw, len)) => match bytes_at(input, j, len) {
                    Err(e) => Err(e),
                    Ok((bytes, k)) => if i < k <= input.len() {
                        args_at(input, k, before.push(ArgV { raw, bytes }))
                    } else {
                        Ok((before, k))
                    },
                },
            }
        },
    }
}

/// The request at `i` and where the next one starts; `None` when the input ends
/// before one starts.
pub open spec fn request_at(input: Seq<u8>, i: int) -> Result<Option<(RequestV, int)>, FaultV> {
    match line_at(input, i) {
        Err(e) => Err(e),
        Ok(None) => Ok(None),
        Ok(Some((line, j))) => match field_of(line, ":request "@) {
            Err(e) => Err(e),
            Ok(id_text) => match number_of(id_text, u64::MAX as int) {
                Err(e) => Err(e),
                Ok(id) => match line_at(input, j) {
                    Err(e) => Err(e),
                    Ok(None) => Err(cut_off("the input ended inside a request"@)),
                    Ok(Some((line, k))) => match field_of(line, ":cwd "@) {
                        Err(e) => Err(e),
                        Ok(len_text) => match number_of(len_text, usize::MAX as int) {
                            Err(e) => Err(e),
                            Ok(len) => match bytes_at(input, k, len) {
                                Err(e) => Err(e),
                                Ok((cwd, m)) => match args_at(input, m, seq![]) {
                                    Err(e) => Err(e),
                                    Ok((args, end)) => Ok(
                                        Some((RequestV { id: id as u64, cwd, args }, end)),
                                    ),
                                },
                            },
                        },
                    },
                },
            },
        },
    }
}

fn ended() -> (r: Fault)
    ensures
        r@ == cut_off("the input ended inside a request"@),
{
    Fault {
        kind: FaultKind::UnexpectedEof,
        message: "the input ended inside a request".to_string(),
    }
}

fn read_args(input: &[u8], from: usize) -> (r: Result<(Vec<Arg>, usize), Fault>)
    requires
        from <= input@.len(),
    ensures
        match r {
            Ok((args, end)) => {
                &&& args_at(input@, from as int, seq![]) == Ok::<(Seq<ArgV>, int), FaultV>(
                    (arg_views(args@), end as int),
                )
                &&& from < end <= input@.len()
            },
            Err(e) => args_at(input@, from as int, seq![]) == Err::<(Seq<ArgV>, int), FaultV>(e@),
        },
{
    let mut args: Vec<Arg> = Vec::new();
    let mut i: usize = from;
    assert(arg_views(args@) =~= seq![]);
    loop
        invariant
            from <= i <= input@.len(),
            args_at(input@, from as int, seq![]) == args_at(
                input@,
                i as int,
                arg_views(args@),
            ),
        decreases input.len() - i,
    {
        match read_line(input, i) {
            Err(e) => {
                return Err(e);
            },
            Ok(None) => {
                return Err(ended());
            },
            Ok(Some((line, j))) => {
                if same(line.as_str(), ":done") {
                    return Ok((args, j));
                }
                match read_arg_header(line.as_str()) {
                    Err(e) => {
                        return Err(e);
                    },
                    Ok((raw, len)) => match read_bytes(input, j, len) {
                        Err(e) => {
                            return Err(e);
                        },
                        Ok((bytes, k)) => {
                            let ghost before = arg_views(args@);
                            let ghost arg = ArgV { raw, bytes: bytes@ };
                            args.push(Arg { raw, bytes });
                            assert(arg_views(args@) =~= before.push(arg));
                            i = k;
                        },
                    },
                }
            },
        }
    }
}

/// Read the request at `i`, and where the next one starts; `None` when the input
/// ends before one starts. Input that is not a request is a fault: after it, the
/// stream cannot be followed.
pub fn read_request(input: &[u8], i: usize) -> (r: Result<Option<(Request, usize)>, Fault>)
    requires
        i <= input@.len(),
    ensures
        match r {
            Ok(Some((request, end))) => {
                &&& request_at(input@, i as int) == Ok::<Option<(RequestV, int)>, FaultV>(
                    Some((request@, end as int)),
                )
                &&& i < end <= input@.len()
            },
            Ok(None) => request_at(input@, i as int) == Ok::<Option<(RequestV, int)>, FaultV>(None),
            Err(e) => request_at(input@, i as int) == Err::<Option<(RequestV, int)>, FaultV>(e@),
        },
{
    let (line, j) = match read_line(input, i) {
        Err(e) => {
            return Err(e);
        },
        Ok(None) => {
            return Ok(None);
        },
        Ok(Some(p)) => p,
    };
    let id_text = match field(line.as_str(), ":request ") {
        Err(e) => {
            return Err(e);
        },
        Ok(t) => t,
    };
    let id: u64 = match number(id_text.as_str(), u64::MAX) {
        Err(e) => {
            return Err(e);
        },
        Ok(n) => n,
    };
    let (line, k) = match read_line(input, j) {
        Err(e) => {
            return Err(e);
        },
        Ok(None) => {
            return Err(ended());
        },
        Ok(Some(p)) => p,
    };
    let len_text = match field(line.as_str(), ":cwd ") {
        Err(e) => {
            return Err(e);
        },
        Ok(t) => t,
    };
    let len: u64 = match number(len_text.as_str(), usize::MAX as u64) {
        Err(e) => {
            return Err(e);
        },
        Ok(n) => n,
    };
    let (cwd, m) = match read_bytes(input, k, len) {
        Err(e) => {
            return Err(e);
        },
        Ok(p) => p,
    };
    match read_args(input, m) {
        Err(e) => Err(e),
        Ok((args, end)) => Ok(Some((Request { id, cwd, args }, end))),
    }
}

/// What a part of a script is.
#[derive(Clone, Copy, Debug, PartialEq, Eq, Structural)]
pub enum SpanKind {
    Command,
    Variable,
    Operator,
    Number,
    Comment,
}

impl SpanKind {
    /// The kind as replies have it.
    pub open spec fn called(self) -> Seq<char> {
        match self {
            SpanKind::Command => "command"@,
            SpanKind::Variable => "variable"@,
            SpanKind::Operator => "operator"@,
            SpanKind::Number => "number"@,
            SpanKind::Comment => "comment"@,
        }
    }

    /// The kind as replies have it.
    pub fn name(self) -> (r: &'static str)
        ensures
            r@ == self.called(),
    {
        match self {
            SpanKind::Command => "command",
            SpanKind::Variable => "variable",
            SpanKind::Operator => "operator",
            SpanKind::Number => "number",
            SpanKind::Comment => "comment",
        }
    }
}

/// A coloured part of one argument.
#[derive(Debug, PartialEq, Eq)]
pub struct Span {
    /// The argument's index in the request.
    pub arg: usize,
    /// Byte offsets in the argument.
    pub at: Range<usize>,
    pub kind: SpanKind,
}

/// The one error a reply may carry.
#[derive(Debug, PartialEq, Eq)]
pub struct ReplyError {
    /// The argument, and the bytes of it, the error is about; `None` when
    /// it has no place in the arguments.
    pub place: Option<(usize, Range<usize>)>,
    /// One line of text.
    pub message: String,
}

/// What a [`ReplyError`] is in contracts.
pub struct ReplyErrorV {
    pub place: Option<(usize, Range<usize>)>,
    pub message: Seq<char>,
}

impl View for ReplyError {
    type V = ReplyErrorV;

    open spec fn view(&self) -> ReplyErrorV {
        ReplyErrorV { place: self.place, message: self.message@ }
    }
}

/// The answer to one request.
#[derive(Debug, PartialEq, Eq)]
pub struct Reply {
    /// In order, none overlapping another.
    pub spans: Vec<Span>,
    pub error: Option<ReplyError>,
}

/// An error that may be missing, in contracts.
pub open spec fn reply_error(o: Option<ReplyError>) -> Option<ReplyErrorV> {
    match o {
        Some(e) => Some(e@),
        None => None,
    }
}

impl Default for Reply {
    /// Nothing to say.
    fn default() -> (r: Self)
        ensures
            r.spans@.len() == 0,
            r.error is None,
    {
        Reply { spans: Vec::new(), error: None }
    }
}

/// The bytes that a character takes.
pub open spec fn char_width(c: char) -> nat {
    if (c as u32) < 0x80 {
        1
    } else if (c as u32) < 0x800 {
        2
    } else if (c as u32) < 0x10000 {
        3
    } else {
        4
    }
}

/// The bytes that a text takes.
pub open spec fn width_of(s: Seq<char>) -> nat
    decreases s.len(),
{
    if s.len() == 0 {
        0
    } else {
        char_width(s[0]) + width_of(s.drop_first())
    }
}

/// How many characters from `k` on fit, where `used` bytes are taken before them.
pub open spec fn fitting(s: Seq<char>, max: int, k: int, used: int) -> int
    decreases s.len() - k,
{
    if k >= s.len() || used + char_width(s[k]) > max {
        k
    } else {
        fitting(s, max, k + 1, used + char_width(s[k]))
    }
}

/// A text with a space in place of each carriage return.
pub open spec fn without_returns(s: Seq<char>) -> Seq<char> {
    s.map_values(
        |c: char|
            if c == '\r' {
                ' '
            } else {
                c
            },
    )
}

/// A message as one line: up to its first newline, at most [`MAX_MESSAGE`]
/// bytes, cut between two characters, a `\r` as a space, and no spaces at the
/// end.
pub open spec fn one_line_of(message: Seq<char>) -> Seq<char> {
    let first = message.take(next_of(message, '\n', 0));
    trimmed_end(without_returns(first.take(fitting(first, MAX_MESSAGE as int, 0, 0))))
}

fn width(c: char) -> (n: usize)
    ensures
        n == char_width(c),
        1 <= n <= 4,
{
    let u: u32 = c as u32;
    if u < 0x80 {
        1
    } else if u < 0x800 {
        2
    } else if u < 0x10000 {
        3
    } else {
        4
    }
}

/// `message` as one line: up to its first newline, at most [`MAX_MESSAGE`]
/// bytes, cut between two characters, a `\r` as a space, and no spaces at
/// the end.
fn one_line(message: &str) -> (r: String)
    ensures
        r@ == one_line_of(message@),
{
    let v = chars_of(message);
    let end = find_char(v.as_slice(), '\n', 0);
    let ghost first = message@.take(end as int);
    let mut line = String::new();
    let mut k: usize = 0;
    let mut used: usize = 0;
    assert(line@ =~= without_returns(first.take(0)));
    while k < end && used + width(v[k]) <= MAX_MESSAGE
        invariant
            k <= end <= v.len(),
            v@ == message@,
            first == message@.take(end as int),
            used <= MAX_MESSAGE,
            line@ == without_returns(first.take(k as int)),
            fitting(first, MAX_MESSAGE as int, 0, 0) == fitting(
                first,
                MAX_MESSAGE as int,
                k as int,
                used as int,
            ),
        decreases end - k,
    {
        let c = v[k];
        assert(first[k as int] == c);
        used = used + width(c);
        line.push(
            if c == '\r' {
                ' '
            } else {
                c
            },
        );
        k += 1;
        assert(line@ =~= without_returns(first.take(k as int)));
    }
    assert(k < end ==> first[k as int] == v@[k as int]);
    trim_end(line.as_str())
}

impl ReplyError {
    /// An error with `message` made one line, as [`write_reply`] writes it.
    pub fn new(place: Option<(usize, Range<usize>)>, message: &str) -> (r: ReplyError)
        ensures
            r.place == place,
            r.message@ == one_line_of(message@),
    {
        ReplyError { place, message: one_line(message) }
    }
}

/// The line of a span.
pub open spec fn span_line(s: Span) -> Seq<char> {
    ":span "@ + decimal(s.arg as nat) + " "@ + decimal(s.at.start as nat) + " "@ + decimal(
        s.at.end as nat,
    ) + " "@ + s.kind.called() + "\n"@
}

/// The lines of the spans from `i` on, as many as fit where `used` bytes are taken
/// before them. A span's line is ASCII.
pub open spec fn span_lines(spans: Seq<Span>, i: int, used: int) -> Seq<char>
    decreases spans.len() - i,
{
    if i >= spans.len() || used + span_line(spans[i]).len() > MAX_SPAN_BYTES {
        seq![]
    } else {
        span_line(spans[i]) + span_lines(spans, i + 1, used + span_line(spans[i]).len())
    }
}

/// The line of an error.
pub open spec fn error_line(e: ReplyErrorV) -> Seq<char> {
    ":error "@ + (match e.place {
        Some((arg, at)) => decimal(arg as nat) + " "@ + decimal(at.start as nat) + " "@ + decimal(
            at.end as nat,
        ),
        None => "- - -"@,
    }) + " "@ + one_line_of(e.message) + "\n"@
}

/// A reply to request `id`.
pub open spec fn reply_text(id: nat, spans: Seq<Span>, error: Option<ReplyErrorV>) -> Seq<char> {
    span_lines(spans, 0, 0) + (match error {
        Some(e) => error_line(e),
        None => seq![],
    }) + ":end "@ + decimal(id) + "\n"@
}

fn show_span(s: &Span) -> (r: String)
    ensures
        r@ == span_line(*s),
{
    let mut line = ":span ".to_string();
    line.append(show_usize(s.arg).as_str());
    line.append(" ");
    line.append(show_usize(s.at.start).as_str());
    line.append(" ");
    line.append(show_usize(s.at.end).as_str());
    line.append(" ");
    line.append(s.kind.name());
    line.append("\n");
    line
}

/// `reply` to request `id` as it is written, ending with `:end ID`. The spans stop
/// before they pass [`MAX_SPAN_BYTES`]; the error, on one line of at most
/// [`MAX_MESSAGE`] bytes, and the end are always written.
pub fn write_reply(id: u64, reply: &Reply) -> (r: String)
    ensures
        r@ == reply_text(id as nat, reply.spans@, reply_error(reply.error)),
{
    let mut out = String::new();
    let mut used: usize = 0;
    let mut i: usize = 0;
    let ghost all = span_lines(reply.spans@, 0, 0);
    assert(out@ + all =~= all);
    while i < reply.spans.len()
        invariant_except_break
            out@ + span_lines(reply.spans@, i as int, used as int) == all,
        invariant
            i <= reply.spans.len(),
            used <= MAX_SPAN_BYTES,
        ensures
            out@ == all,
        decreases reply.spans.len() - i,
    {
        let line = show_span(&reply.spans[i]);
        let n = chars_of(line.as_str()).len();
        if n > MAX_SPAN_BYTES - used {
            assert(out@ + seq![] =~= out@);
            break;
        }
        let ghost before = out@;
        out.append(line.as_str());
        assert(before + (line@ + span_lines(reply.spans@, i + 1, used + n)) =~= out@ + span_lines(
            reply.spans@,
            i + 1,
            used + n,
        ));
        used = used + n;
        i += 1;
        assert(out@ + seq![] =~= out@);
    }
    let ghost body = out@;
    match &reply.error {
        Some(e) => {
            out.append(":error ");
            match &e.place {
                Some((arg, at)) => {
                    out.append(show_usize(*arg).as_str());
                    out.append(" ");
                    out.append(show_usize(at.start).as_str());
                    out.append(" ");
                    out.append(show_usize(at.end).as_str());
                },
                None => {
                    out.append("- - -");
                },
            }
            out.append(" ");
            out.append(one_line(e.message.as_str()).as_str());
            out.append("\n");
            assert(out@ =~= body + error_line(e@));
        },
        None => {
            assert(out@ =~= body + seq![]);
        },
    }
    out.append(":end ");
    out.append(show_u64(id).as_str());
    out.append("\n");
    out
}

/// The words of a command line behind the command's name.
pub open spec fn words_of(args: Seq<Arg>) -> Seq<Seq<char>> {
    if args.len() == 0 {
        seq![]
    } else {
        args.drop_first().map_values(|a: Arg| decode_utf8(a.bytes@))
    }
}

/// What is found in a script: its coloured parts, the error that parsing it ends
/// in, and, where that ends well, the error that its columns end in.
pub struct ScriptReading {
    pub spans: Vec<(Range<usize>, SpanKind)>,
    pub error: Option<Error>,
    pub columns: Option<Error>,
}

/// Whether bash will still expand one of the arguments from `from` up to `to`.
pub open spec fn any_raw(args: Seq<Arg>, from: int, to: int) -> bool {
    exists|i: int| from <= i < to && 0 <= i < args.len() && (#[trigger] args[i]).raw
}

/// Whether an argument behind the command's name is not UTF-8.
pub open spec fn bad_arg(args: Seq<Arg>, i: int) -> bool {
    1 <= i < args.len() && !valid_utf8(args[i].bytes@)
}

/// Where the place that an error names lies in a script, as far as there is one.
pub open spec fn script_place(arg: usize, script: Seq<char>, e: Error) -> Option<
    (usize, Range<usize>),
> {
    match e {
        Error::At { span, .. } => {
            let len = encode_utf8(script).len();
            let end = if span.end < len {
                span.end
            } else {
                len as usize
            };
            let start = if span.start < end {
                span.start
            } else {
                end
            };
            Some((arg, Range { start, end }))
        },
        _ => None,
    }
}

/// An error in the script, which is argument `arg`, as a reply has it: on its
/// place in the script when it has one.
pub open spec fn script_error_of(arg: usize, script: Seq<char>, e: Error) -> ReplyErrorV {
    ReplyErrorV { place: script_place(arg, script, e), message: one_line_of(e.said()) }
}

/// `e`, found in the script, which is argument `arg`, as a reply's error:
/// on its place in the script when it has one.
fn script_error(arg: usize, script: &str, e: &Error) -> (r: ReplyError)
    ensures
        r@ == script_error_of(arg, script@, *e),
{
    let place: Option<(usize, Range<usize>)> = match e.span() {
        Some(at) => {
            let len: usize = script.as_bytes().len();
            let end: usize = if at.end < len {
                at.end
            } else {
                len
            };
            let start: usize = if at.start < end {
                at.start
            } else {
                end
            };
            Some((arg, Range { start, end }))
        },
        None => None,
    };
    ReplyError::new(place, e.message().as_str())
}

/// Whether the spans of a reply are the parts of a script, on argument `arg`.
pub open spec fn spans_are(
    spans: Seq<Span>,
    parts: Seq<(Range<usize>, SpanKind)>,
    arg: int,
) -> bool {
    &&& spans.len() == parts.len()
    &&& forall|i: int|
        0 <= i < spans.len() ==> (#[trigger] spans[i]).arg == arg && spans[i].at == parts[i].0
            && spans[i].kind == parts[i].1
}

/// The error of a usage error, when it is sent: a line that stops before its script
/// is still being typed, so an error with no argument to point at is not; nor is
/// one that depends on an argument that bash may still turn into other words.
pub open spec fn usage_error_of(
    args: Seq<Arg>,
    usage: UsageV,
) -> Option<ReplyErrorV> {
    match usage.arg {
        None => None,
        Some(at) => if any_raw(
            args,
            1,
            if usage.whole_line {
                args.len() as int
            } else {
                at + 2
            },
        ) {
            None
        } else {
            Some(
                ReplyErrorV {
                    place: Some(
                        (
                            (at + 1) as usize,
                            Range { start: 0, end: args[at + 1].bytes@.len() as usize },
                        ),
                    ),
                    message: one_line_of(usage.message),
                },
            )
        },
    }
}

/// The error of a script, when it is sent: what parsing it found, else what its
/// columns ended in. A `raw` argument before the script may become other words, so
/// csvm may take another argument as its script, and a raw script is not the text
/// csvm gets; a `raw` argument anywhere may change the input or its header.
pub open spec fn run_error_of(
    args: Seq<Arg>,
    at: int,
    script: Seq<char>,
    found: ScriptReading,
) -> Option<ReplyErrorV> {
    let arg = (at + 1) as usize;
    if any_raw(args, 1, at + 2) {
        None
    } else {
        match (found.error, found.columns) {
            (Some(e), _) => Some(script_error_of(arg, script, e)),
            (None, Some(e)) => if any_raw(args, 1, args.len() as int) {
                None
            } else {
                Some(script_error_of(arg, script, e))
            },
            (None, None) => None,
        }
    }
}

/// Whether a reply is the answer to a request. What the line asks for does not depend
/// on how many cores there are, but for the threads of a run.
pub open spec fn answers(args: Seq<Arg>, found: ScriptReading, reply: Reply) -> bool {
    if exists|i: int| #[trigger] bad_arg(args, i) {
        let i = first_bad(args, 1);
        let bytes = args[i].bytes@;
        &&& reply.spans@.len() == 0
        &&& reply.error matches Some(e)
        &&& e.message@ == one_line_of("this argument is not valid UTF-8"@)
        &&& e.place matches Some((arg, at))
        &&& arg == i
        &&& valid_utf8(bytes.take(at.start as int))
        &&& forall|k: int|
            at.start < k <= bytes.len() ==> !valid_utf8(#[trigger] bytes.take(k))
        &&& at.end == (match utf8_bad_len(bytes) {
            Some(n) => at.start + n,
            None => bytes.len() as int,
        })
    } else {
        match parsed_of(words_of(args), 1) {
            Err(usage) => {
                &&& reply.spans@.len() == 0
                &&& reply_error(reply.error) == usage_error_of(args, usage)
            },
            Ok(ParsedV::Run(run)) => match run.script_at {
                None => reply.spans@.len() == 0 && reply.error is None,
                Some(at) => {
                    &&& spans_are(reply.spans@, found.spans@, at + 1)
                    &&& reply_error(reply.error) == run_error_of(args, at, run.script, found)
                },
            },
            Ok(_) => reply.spans@.len() == 0 && reply.error is None,
        }
    }
}

/// The first argument from `i` on that is not UTF-8.
pub open spec fn first_bad(args: Seq<Arg>, i: int) -> int
    decreases args.len() - i,
{
    if i >= args.len() || !valid_utf8(args[i].bytes@) {
        i
    } else {
        first_bad(args, i + 1)
    }
}

fn has_raw(args: &Vec<Arg>, from: usize, to: usize) -> (r: bool)
    requires
        to <= args@.len(),
    ensures
        r == any_raw(args@, from as int, to as int),
{
    let mut i: usize = from;
    while i < to
        invariant
            from <= i,
            i <= to || from > to,
            to <= args@.len(),
            forall|k: int| from <= k < i && k < to ==> !(#[trigger] args@[k]).raw,
        decreases to - i,
    {
        if args[i].raw {
            assert(args@[i as int].raw);
            return true;
        }
        i += 1;
    }
    false
}

/// The words of a request behind the command's name, which csvm's own parser
/// reads; or the error for the first that is not UTF-8: csvm cannot start with
/// such an argument at all.
pub fn words(request: &Request) -> (r: Result<Vec<String>, ReplyError>)
    ensures
        match r {
            Ok(words) => {
                &&& forall|i: int| !(#[trigger] bad_arg(request.args@, i))
                &&& texts(words@) == words_of(request.args@)
            },
            Err(e) => {
                let i = first_bad(request.args@, 1);
                let bytes = request.args@[i].bytes@;
                &&& bad_arg(request.args@, i)
                &&& e.message@ == one_line_of("this argument is not valid UTF-8"@)
                &&& e.place matches Some((arg, at))
                &&& arg == i
                &&& valid_utf8(bytes.take(at.start as int))
                &&& forall|k: int|
                    at.start < k <= bytes.len() ==> !valid_utf8(#[trigger] bytes.take(k))
                &&& at.end == (match utf8_bad_len(bytes) {
                    Some(n) => at.start + n,
                    None => bytes.len() as int,
                })
            },
        },
{
    let args = &request.args;
    let mut words: Vec<String> = Vec::new();
    let mut i: usize = 1;
    while i < args.len()
        invariant
            1 <= i,
            args@.len() > 0 ==> i <= args@.len(),
            args@ == request.args@,
            words@.len() == i - 1,
            first_bad(args@, 1) == first_bad(args@, i as int),
            forall|k: int| 1 <= k < i ==> valid_utf8((#[trigger] args@[k]).bytes@),
            forall|k: int|
                1 <= k < i ==> (#[trigger] args@[k]).bytes@ == encode_utf8(words@[k - 1]@),
        decreases args.len() - i,
    {
        match utf8_text(args[i].bytes.as_slice()) {
            Ok(text) => {
                words.push(text);
            },
            Err(e) => {
                let total: usize = args[i].bytes.len();
                let end: usize = match e.len {
                    Some(n) => e.start + n,
                    None => total,
                };
                assert(bad_arg(args@, i as int));
                let place = Some((i, Range { start: e.start, end }));
                return Err(ReplyError::new(place, "this argument is not valid UTF-8"));
            },
        }
        i += 1;
    }
    assert forall|k: int| !(#[trigger] bad_arg(request.args@, k)) by {
        if 1 <= k < request.args@.len() {
            assert(valid_utf8(args@[k].bytes@));
        }
    }
    proof {
        assert forall|k: int| 0 <= k < words@.len() implies #[trigger] texts(words@)[k]
            == words_of(request.args@)[k] by {
            assert(args@[k + 1].bytes@ == encode_utf8(words@[k]@));
            vstd::utf8::encode_utf8_decode_utf8(words@[k]@);
        }
        assert(texts(words@) =~= words_of(request.args@));
    }
    Ok(words)
}

/// How many files [`Headers`] keeps; past that it starts again from none.
pub const MAX_FILES: usize = 64;

/// The most bytes read looking for the end of a CSV file's first line.
pub const MAX_HEADER_BYTES: u64 = 1_048_576;

/// One file's first line, or `None` when it could not be read, and the
/// file's size and time (when it has one) when it was read.
pub struct Seen {
    pub path: String,
    pub format: InputFormat,
    pub len: u64,
    pub modified: Option<i128>,
    pub columns: Option<Vec<String>>,
}

/// The first line of each file read so far, by path and format. An entry
/// is used again only while the file's size and modification time are
/// what they were when it was read, so an unchanged file costs one look at
/// its size and time per request. A read that failed is kept too, so it is
/// not tried again until the file changes.
pub struct Headers {
    pub files: Vec<Seen>,
}

/// Columns that may be missing, in contracts.
pub open spec fn columns_of(o: Option<Vec<String>>) -> Option<Seq<Seq<char>>> {
    match o {
        Some(v) => Some(texts(v@)),
        None => None,
    }
}

/// Whether an entry is that of a file.
pub open spec fn is_of(s: Seen, path: Seq<char>, format: InputFormat) -> bool {
    s.path@ == path && s.format == format
}

/// The entry of a file at or after `i`, by its size, its time and its columns.
pub open spec fn kept_from(files: Seq<Seen>, path: Seq<char>, format: InputFormat, i: int) -> Option<
    (u64, Option<i128>, Option<Seq<Seq<char>>>),
>
    decreases files.len() - i,
{
    if i >= files.len() {
        None
    } else if is_of(files[i], path, format) {
        Some((files[i].len, files[i].modified, columns_of(files[i].columns)))
    } else {
        kept_from(files, path, format, i + 1)
    }
}

impl Headers {
    /// What is kept of a file.
    pub open spec fn of(self, path: Seq<char>, format: InputFormat) -> Option<
        (u64, Option<i128>, Option<Seq<Seq<char>>>),
    > {
        kept_from(self.files@, path, format, 0)
    }

    /// Nothing kept.
    pub fn new() -> (r: Self)
        ensures
            r.files@.len() == 0,
            forall|path: Seq<char>, format: InputFormat| (#[trigger] r.of(path, format)) is None,
    {
        Headers { files: Vec::new() }
    }

    /// The columns kept of a file, when they are still those of the file: its size
    /// and its time are what they were.
    pub fn find(
        &self,
        path: &str,
        format: InputFormat,
        len: u64,
        modified: Option<i128>,
    ) -> (r: Option<Option<Vec<String>>>)
        ensures
            match r {
                Some(columns) => self.of(path@, format) == Some(
                    (len, modified, columns_of(columns)),
                ),
                None => match self.of(path@, format) {
                    Some((l, m, _)) => l != len || m != modified,
                    None => true,
                },
            },
    {
        let mut i: usize = 0;
        while i < self.files.len()
            invariant
                i <= self.files.len(),
                kept_from(self.files@, path@, format, 0) == kept_from(
                    self.files@,
                    path@,
                    format,
                    i as int,
                ),
            decreases self.files.len() - i,
        {
            let seen = &self.files[i];
            if seen.format == format && same(seen.path.as_str(), path) {
                if seen.len == len && same_time(seen.modified, modified) {
                    return Some(clone_columns(&seen.columns));
                }
                return None;
            }
            i += 1;
        }
        None
    }

    /// Keeps the columns of a file. When there are as many files as are kept, the
    /// others go.
    pub fn keep(&mut self, seen: Seen)
        requires
            old(self).files@.len() <= MAX_FILES,
        ensures
            final(self).files@.len() <= MAX_FILES,
            final(self).of(seen.path@, seen.format) == Some(
                (seen.len, seen.modified, columns_of(seen.columns)),
            ),
            forall|path: Seq<char>, format: InputFormat|
                path != seen.path@ || format != seen.format ==> #[trigger] final(self).of(
                    path,
                    format,
                ) == (if old(self).files@.len() >= MAX_FILES {
                    None
                } else {
                    old(self).of(path, format)
                }),
    {
        let full = self.files.len() >= MAX_FILES;
        if full {
            self.files = Vec::new();
        }
        let ghost before = self.files@;
        let mut i: usize = 0;
        while i < self.files.len() && !(self.files[i].format == seen.format && same(
            self.files[i].path.as_str(),
            seen.path.as_str(),
        ))
            invariant
                i <= self.files.len(),
                self.files@ == before,
                forall|k: int|
                    0 <= k < i ==> !is_of(#[trigger] before[k], seen.path@, seen.format),
            decreases self.files.len() - i,
        {
            i += 1;
        }
        let ghost (p, f) = (seen.path@, seen.format);
        let ghost entry = seen;
        if i < self.files.len() {
            self.files.set(i, seen);
        } else {
            self.files.push(seen);
        }
        proof {
            let after = self.files@;
            assert(after[i as int] == entry);
            lemma_kept_at(after, p, f, 0, i as int);
            assert forall|path: Seq<char>, format: InputFormat|
                path != p || format != f implies #[trigger] kept_from(after, path, format, 0)
                == kept_from(before, path, format, 0) by {
                lemma_kept_others(before, after, path, format, i as int, 0);
            }
        }
    }
}

proof fn lemma_kept_at(files: Seq<Seen>, path: Seq<char>, format: InputFormat, i: int, n: int)
    requires
        0 <= i <= n < files.len(),
        is_of(files[n], path, format),
        forall|k: int| i <= k < n ==> !is_of(#[trigger] files[k], path, format),
    ensures
        kept_from(files, path, format, i) == Some(
            (files[n].len, files[n].modified, columns_of(files[n].columns)),
        ),
    decreases n - i,
{
    if i < n {
        lemma_kept_at(files, path, format, i + 1, n);
    }
}

proof fn lemma_kept_others(
    before: Seq<Seen>,
    after: Seq<Seen>,
    path: Seq<char>,
    format: InputFormat,
    n: int,
    i: int,
)
    requires
        0 <= i,
        0 <= n <= before.len(),
        after.len() == before.len() || (n == before.len() && after.len() == n + 1),
        n < after.len(),
        forall|k: int| 0 <= k < before.len() && k != n ==> after[k] == before[k],
        !is_of(after[n], path, format),
        n < before.len() ==> !is_of(before[n], path, format),
    ensures
        kept_from(after, path, format, i) == kept_from(before, path, format, i),
    decreases after.len() - i,
{
    if i < after.len() {
        lemma_kept_others(before, after, path, format, n, i + 1);
    }
}

fn same_time(a: Option<i128>, b: Option<i128>) -> (r: bool)
    ensures
        r == (a == b),
{
    match (a, b) {
        (Some(x), Some(y)) => x == y,
        (None, None) => true,
        _ => false,
    }
}

fn clone_columns(o: &Option<Vec<String>>) -> (r: Option<Vec<String>>)
    ensures
        columns_of(r) == columns_of(*o),
{
    match o {
        None => None,
        Some(v) => {
            let mut r: Vec<String> = Vec::new();
            let mut i: usize = 0;
            while i < v.len()
                invariant
                    i <= v.len(),
                    texts(r@) == texts(v@).take(i as int),
                decreases v.len() - i,
            {
                let ghost before = texts(r@);
                r.push(v[i].as_str().to_string());
                assert(texts(r@) =~= before.push(v@[i as int]@));
                i += 1;
                assert(texts(r@) =~= texts(v@).take(i as int));
            }
            assert(texts(v@).take(v@.len() as int) =~= texts(v@));
            Some(r)
        },
    }
}

/// What the helper keeps from one request to the next.
pub struct Session {
    pub headers: Headers,
}

impl Default for Session {
    fn default() -> (r: Self)
        ensures
            r.headers.files@.len() == 0,
    {
        Session { headers: Headers::new() }
    }
}

impl Session {
    /// Answer one request: the script's colours, and the first thing csvm
    /// would reject on this command line. `found` is what is found in its script.
    pub fn answer(&self, request: &Request, found: ScriptReading) -> (r: Reply)
        ensures
            answers(request.args@, found, r),
    {
        let args = &request.args;
        let words = match words(request) {
            Err(e) => {
                return Reply { spans: Vec::new(), error: Some(e) };
            },
            Ok(words) => words,
        };
        assert(args.len() == request.args@.len());
        let ghost line = texts(words@);
        proof {
            law_places_are_of_the_line(line, 1);
        }
        let run = match parse_at(words, 1) {
            Ok(Parsed::Run(run)) => run,
            Ok(_) => {
                return Reply::default();
            },
            Err(usage) => {
                let at: usize = match usage.arg {
                    None => {
                        return Reply::default();
                    },
                    Some(at) => at,
                };
                let to: usize = if usage.whole_line {
                    args.len()
                } else {
                    at + 2
                };
                if has_raw(args, 1, to) {
                    return Reply::default();
                }
                let place = Some((at + 1, Range { start: 0, end: args[at + 1].bytes.len() }));
                return Reply {
                    spans: Vec::new(),
                    error: Some(ReplyError::new(place, usage.message.as_str())),
                };
            },
        };
        let at: usize = match run.script_at {
            None => {
                return Reply::default();
            },
            Some(at) => at,
        };
        let arg: usize = at + 1;
        let error: Option<ReplyError> = if has_raw(args, 1, arg + 1) {
            None
        } else {
            match (&found.error, &found.columns) {
                (Some(e), _) => Some(script_error(arg, run.script.as_str(), e)),
                (None, Some(e)) => if has_raw(args, 1, args.len()) {
                    None
                } else {
                    Some(script_error(arg, run.script.as_str(), e))
                },
                (None, None) => None,
            }
        };
        let spans = place_spans(&found.spans, arg);
        Reply { spans, error }
    }
}

/// The column that resolving the plan against the input's header would not find,
/// and the header that it is not in: in a join's pipeline first, then in the plan
/// itself. None where every column is found, and where the header of a join's
/// file is not known.
pub open spec fn unknown_column(
    plan: Plan,
    header: Seq<Seq<char>>,
    files: Seq<FileHeader>,
) -> Option<(Seq<Seq<char>>, Seq<char>)> {
    match plan_rights(files, plan) {
        Err(UnpreparedV::Unread(_)) => None,
        Err(UnpreparedV::Unknown(h, n)) => Some((h, n)),
        Ok(rights) => match plan_given(header, plan, rights) {
            Err((h, n)) => Some((h, n)),
            Ok(_) => None,
        },
    }
}

/// The error csvm would find resolving `plan` against the input's header and the
/// headers of its joins' files.
pub fn check_columns(plan: Plan, header: &[String], files: &[FileHeader]) -> (r: Option<Error>)
    requires
        listed(files@, plan_files(plan)),
    ensures
        match unknown_column(plan, texts(header@), files@) {
            None => r is None,
            Some((h, n)) => r matches Some(e) && reports(e, h, n),
        },
{
    let ghost given = plan;
    match prepare_joins(plan, files) {
        Err(e) => match e {
            Error::Other(_) => None,
            e => Some(e),
        },
        Ok(p) => {
            proof {
                law_a_prepared_plan_writes_the_given_header(files@, given, p, texts(header@));
            }
            match p.resolve(header) {
                Ok(_) => None,
                Err(e) => Some(e),
            }
        },
    }
}

fn place_spans(parts: &Vec<(Range<usize>, SpanKind)>, arg: usize) -> (r: Vec<Span>)
    ensures
        spans_are(r@, parts@, arg as int),
{
    let mut r: Vec<Span> = Vec::new();
    let mut i: usize = 0;
    while i < parts.len()
        invariant
            i <= parts.len(),
            r@.len() == i,
            forall|k: int|
                0 <= k < i ==> (#[trigger] r@[k]).arg == arg && r@[k].at == parts@[k].0
                    && r@[k].kind == parts@[k].1,
        decreases parts.len() - i,
    {
        let part = &parts[i];
        let at = Range { start: part.0.start, end: part.0.end };
        r.push(Span { arg, at, kind: part.1 });
        i += 1;
    }
    r
}

/// The shell's directory, from a request's `:cwd`. `None` when that is not
/// an absolute UTF-8 path: bash sends an empty one when `PWD` is unset.
pub fn shell_dir(cwd: &[u8]) -> (r: Option<String>)
    ensures
        match r {
            Some(dir) => encode_utf8(dir@) == cwd@ && valid_utf8(cwd@) && starts_with(dir@, "/"@),
            None => !valid_utf8(cwd@) || !starts_with(decode_utf8(cwd@), "/"@),
        },
{
    match utf8_text(cwd) {
        Ok(dir) => {
            proof {
                vstd::utf8::encode_utf8_decode_utf8(dir@);
            }
            if has_prefix(dir.as_str(), "/") {
                Some(dir)
            } else {
                None
            }
        },
        Err(_) => None,
    }
}

/// `path` as the shell sees it from its directory.
pub open spec fn path_from(cwd: Option<Seq<char>>, path: Seq<char>) -> Option<Seq<char>> {
    if starts_with(path, "/"@) {
        Some(path)
    } else {
        match cwd {
            Some(dir) => Some(
                if crate::text::ends_with(dir, "/"@) {
                    dir + path
                } else {
                    dir + "/"@ + path
                },
            ),
            None => None,
        }
    }
}

/// `path` as the shell sees it from its directory `cwd`. `None` for a
/// relative path when that directory is not known: the helper's own
/// directory is not the shell's, so it is never used.
pub fn from_dir(cwd: &Option<String>, path: &str) -> (r: Option<String>)
    ensures
        crate::text::opt_text(r) == path_from(crate::text::opt_text(*cwd), path@),
{
    if has_prefix(path, "/") {
        return Some(path.to_string());
    }
    match cwd {
        Some(dir) => if crate::text::has_suffix(dir.as_str(), "/") {
            Some(cat2(dir.as_str(), path))
        } else {
            Some(crate::text::cat3(dir.as_str(), "/", path))
        },
        None => None,
    }
}

/// Whether the bytes read of a file's first line are all of it: they end in the
/// line's newline or with the file, which is `len` bytes long. A line that the limit
/// cut off is not the whole header.
pub fn whole_line(line: &[u8], len: u64) -> (r: bool)
    ensures
        r == ((line@.len() > 0 && line@.last() == 10u8) || line@.len() >= len),
{
    (line.len() > 0 && line[line.len() - 1] == 10) || line.len() as u64 >= len
}

/// Where a command line's columns come from.
#[derive(Clone, Copy, Debug, PartialEq, Eq, Structural)]
pub enum Columns {
    /// Nowhere: csvm rejects `--header` for Parquet, which names its own columns.
    Unknown,
    /// The names that `--header` gives, as long as the input is a regular file.
    Named,
    /// The input's first line.
    FirstLine,
}

/// Where a command line's columns come from, by `--header` and the input's format.
pub fn columns_from(header: &Option<Header>, format: InputFormat) -> (r: Columns)
    ensures
        r == (match (*header, format) {
            (Some(_), InputFormat::Parquet) => Columns::Unknown,
            (Some(Header::Named(_)), _) => Columns::Named,
            _ => Columns::FirstLine,
        }),
{
    match (header, format) {
        (Some(_), InputFormat::Parquet) => Columns::Unknown,
        (Some(Header::Named(_)), _) => Columns::Named,
        _ => Columns::FirstLine,
    }
}

/// A text takes as many bytes as its characters take.
pub proof fn lemma_width_counts_bytes(s: Seq<char>)
    ensures
        encode_utf8(s).len() == width_of(s),
    decreases s.len(),
{
    if s.len() > 0 {
        lemma_width_counts_bytes(s.drop_first());
        vstd::utf8::char_is_scalar(s[0]);
    }
}

proof fn lemma_width_concat(a: Seq<char>, b: Seq<char>)
    ensures
        width_of(a + b) == width_of(a) + width_of(b),
    decreases a.len(),
{
    if a.len() > 0 {
        lemma_width_concat(a.drop_first(), b);
        assert((a + b).drop_first() =~= a.drop_first() + b);
    } else {
        assert(a + b =~= b);
    }
}

/// Whether every character is one byte.
pub open spec fn plain(s: Seq<char>) -> bool {
    forall|i: int| 0 <= i < s.len() ==> #[trigger] s[i] <= '\u{7f}'
}

proof fn lemma_plain_char(c: char)
    ensures
        '\0' <= c,
        c <= '\u{7f}' <==> (c as u32) < 0x80,
{
}

proof fn lemma_plain_width(s: Seq<char>)
    requires
        plain(s),
    ensures
        width_of(s) == s.len(),
    decreases s.len(),
{
    if s.len() > 0 {
        assert(plain(s.drop_first())) by {
            assert forall|i: int| 0 <= i < s.drop_first().len() implies #[trigger] s.drop_first()[i]
                <= '\u{7f}' by {
                assert(s.drop_first()[i] == s[i + 1]);
            }
        }
        lemma_plain_width(s.drop_first());
        lemma_plain_char(s[0]);
    }
}

proof fn lemma_decimal_plain(n: nat)
    ensures
        plain(decimal(n)),
{
    lemma_decimal(n);
    assert forall|i: int| 0 <= i < decimal(n).len() implies #[trigger] decimal(n)[i]
        <= '\u{7f}' by {
        assert(crate::text::is_digit(decimal(n)[i]));
    }
}

/// Ten to the power of `k`.
spec fn ten_to(k: nat) -> nat
    decreases k,
{
    if k == 0 {
        1
    } else {
        10 * ten_to((k - 1) as nat)
    }
}

proof fn lemma_decimal_len(n: nat, k: nat)
    requires
        k > 0,
        n < ten_to(k),
    ensures
        decimal(n).len() <= k,
    decreases k,
{
    if n >= 10 {
        if k == 1 {
            assert(ten_to(1) == 10 * ten_to(0));
        }
        lemma_decimal_len(n / 10, (k - 1) as nat);
    }
}

proof fn lemma_word_len(n: nat)
    requires
        n <= u64::MAX,
    ensures
        decimal(n).len() <= 20,
        plain(decimal(n)),
        width_of(decimal(n)) <= 20,
{
    assert(ten_to(20) == 100_000_000_000_000_000_000) by {
        reveal_with_fuel(ten_to, 21);
    }
    lemma_decimal_len(n, 20);
    lemma_decimal_plain(n);
    lemma_plain_width(decimal(n));
}

proof fn lemma_trimmed_is_front(s: Seq<char>)
    ensures
        trimmed_end(s).len() <= s.len(),
        trimmed_end(s) == s.take(trimmed_end(s).len() as int),
    decreases s.len(),
{
    if s.len() > 0 && crate::text::is_white(s.last()) {
        lemma_trimmed_is_front(s.drop_last());
        let n = trimmed_end(s).len() as int;
        assert(s.drop_last().take(n) =~= s.take(n));
    } else {
        assert(s.take(s.len() as int) =~= s);
    }
}

proof fn lemma_front_width(s: Seq<char>, k: int)
    requires
        0 <= k <= s.len(),
    ensures
        width_of(s.take(k)) <= width_of(s),
{
    lemma_width_concat(s.take(k), s.skip(k));
    assert(s.take(k) + s.skip(k) =~= s);
}

proof fn lemma_fitting(s: Seq<char>, max: int, k: int, used: int)
    requires
        0 <= k <= s.len(),
        used == width_of(s.take(k)),
        used <= max,
    ensures
        k <= fitting(s, max, k, used) <= s.len(),
        width_of(s.take(fitting(s, max, k, used))) <= max,
    decreases s.len() - k,
{
    if k < s.len() && used + char_width(s[k]) <= max {
        let one = seq![s[k]];
        assert(s.take(k + 1) =~= s.take(k) + one);
        lemma_width_concat(s.take(k), one);
        assert(one.drop_first() =~= Seq::<char>::empty());
        assert(width_of(one) == char_width(s[k]) + width_of(one.drop_first()));
        assert(width_of(one.drop_first()) == 0);
        lemma_fitting(s, max, k + 1, used + char_width(s[k]));
    }
}

proof fn lemma_without_returns_width(s: Seq<char>)
    ensures
        width_of(without_returns(s)) == width_of(s),
    decreases s.len(),
{
    if s.len() > 0 {
        lemma_without_returns_width(s.drop_first());
        assert(without_returns(s).drop_first() =~= without_returns(s.drop_first()));
        assert(char_width('\r') == 1 && char_width(' ') == 1);
    }
}

/// Whatever a message was, it is sent as one line without a carriage return, and
/// takes no more than [`MAX_MESSAGE`] bytes.
pub proof fn law_a_message_is_one_short_line(message: Seq<char>)
    ensures
        forall|i: int|
            0 <= i < one_line_of(message).len() ==> #[trigger] one_line_of(message)[i] != '\n'
                && one_line_of(message)[i] != '\r',
        encode_utf8(one_line_of(message)).len() <= MAX_MESSAGE,
{
    let first = message.take(next_of(message, '\n', 0));
    lemma_next_of(message, '\n', 0);
    assert(first.take(0) =~= Seq::<char>::empty());
    assert(width_of(first.take(0)) == 0);
    lemma_fitting(first, MAX_MESSAGE as int, 0, 0);
    let n = fitting(first, MAX_MESSAGE as int, 0, 0);
    let cut = without_returns(first.take(n));
    lemma_without_returns_width(first.take(n));
    lemma_trimmed_is_front(cut);
    let line = one_line_of(message);
    assert(line == cut.take(line.len() as int));
    lemma_front_width(cut, line.len() as int);
    lemma_width_counts_bytes(line);
    assert forall|i: int| 0 <= i < line.len() implies #[trigger] line[i] != '\n' && line[i]
        != '\r' by {
        assert(line[i] == cut[i]);
        assert(first.take(n)[i] == message[i]);
    }
}

proof fn lemma_literals()
    ensures
        width_of(":span "@) == 6,
        width_of(" "@) == 1,
        width_of("\n"@) == 1,
        width_of(":error "@) == 7,
        width_of("- - -"@) == 5,
        width_of(":end "@) == 5,
        plain(":span "@),
        plain(" "@),
        plain("\n"@),
        plain("command"@),
        plain("variable"@),
        plain("operator"@),
        plain("number"@),
        plain("comment"@),
{
    reveal_strlit(":span ");
    reveal_strlit(" ");
    reveal_strlit("\n");
    reveal_strlit(":error ");
    reveal_strlit("- - -");
    reveal_strlit(":end ");
    reveal_strlit("command");
    reveal_strlit("variable");
    reveal_strlit("operator");
    reveal_strlit("number");
    reveal_strlit("comment");
    lemma_plain_width(":span "@);
    lemma_plain_width(" "@);
    lemma_plain_width("\n"@);
    lemma_plain_width(":error "@);
    lemma_plain_width("- - -"@);
    lemma_plain_width(":end "@);
}

proof fn lemma_plain_concat(a: Seq<char>, b: Seq<char>)
    requires
        plain(a),
        plain(b),
    ensures
        plain(a + b),
{
    let s = a + b;
    assert forall|i: int| 0 <= i < s.len() implies #[trigger] s[i] <= '\u{7f}' by {
        if i < a.len() {
            assert(s[i] == a[i]);
        } else {
            assert(s[i] == b[i - a.len()]);
        }
    }
}

proof fn lemma_span_line_plain(s: Span)
    ensures
        plain(span_line(s)),
        width_of(span_line(s)) == span_line(s).len(),
{
    lemma_literals();
    lemma_decimal_plain(s.arg as nat);
    lemma_decimal_plain(s.at.start as nat);
    lemma_decimal_plain(s.at.end as nat);
    let a = ":span "@ + decimal(s.arg as nat);
    lemma_plain_concat(":span "@, decimal(s.arg as nat));
    lemma_plain_concat(a, " "@);
    let b = a + " "@ + decimal(s.at.start as nat);
    lemma_plain_concat(a + " "@, decimal(s.at.start as nat));
    lemma_plain_concat(b, " "@);
    let c = b + " "@ + decimal(s.at.end as nat);
    lemma_plain_concat(b + " "@, decimal(s.at.end as nat));
    lemma_plain_concat(c, " "@);
    lemma_plain_concat(c + " "@, s.kind.called());
    lemma_plain_concat(c + " "@ + s.kind.called(), "\n"@);
    lemma_plain_width(span_line(s));
}

proof fn lemma_spans_fit(spans: Seq<Span>, i: int, used: int)
    requires
        0 <= used <= MAX_SPAN_BYTES,
    ensures
        width_of(span_lines(spans, i, used)) + used <= MAX_SPAN_BYTES,
    decreases spans.len() - i,
{
    if i < spans.len() && used + span_line(spans[i]).len() <= MAX_SPAN_BYTES {
        let line = span_line(spans[i]);
        lemma_span_line_plain(spans[i]);
        lemma_spans_fit(spans, i + 1, used + line.len());
        lemma_width_concat(line, span_lines(spans, i + 1, used + line.len()));
    }
}

proof fn lemma_error_line_width(e: ReplyErrorV)
    ensures
        width_of(error_line(e)) <= 4096 + 7 + 62 + 2,
{
    lemma_literals();
    law_a_message_is_one_short_line(e.message);
    lemma_width_counts_bytes(one_line_of(e.message));
    let place = match e.place {
        Some((arg, at)) => decimal(arg as nat) + " "@ + decimal(at.start as nat) + " "@ + decimal(
            at.end as nat,
        ),
        None => "- - -"@,
    };
    assert(width_of(place) <= 62) by {
        match e.place {
            Some((arg, at)) => {
                lemma_word_len(arg as nat);
                lemma_word_len(at.start as nat);
                lemma_word_len(at.end as nat);
                let a = decimal(arg as nat);
                let b = decimal(at.start as nat);
                let c = decimal(at.end as nat);
                lemma_width_concat(a, " "@);
                lemma_width_concat(a + " "@, b);
                lemma_width_concat(a + " "@ + b, " "@);
                lemma_width_concat(a + " "@ + b + " "@, c);
            },
            None => {},
        }
    }
    lemma_width_concat(":error "@, place);
    lemma_width_concat(":error "@ + place, " "@);
    lemma_width_concat(":error "@ + place + " "@, one_line_of(e.message));
    lemma_width_concat(":error "@ + place + " "@ + one_line_of(e.message), "\n"@);
}

/// However long the script and the message are, a reply stays under the 1 MiB past
/// which inkline turns a helper off.
pub proof fn law_a_reply_stays_under_the_limit(
    id: u64,
    spans: Seq<Span>,
    error: Option<ReplyErrorV>,
)
    ensures
        encode_utf8(reply_text(id as nat, spans, error)).len() < 1_048_576,
{
    lemma_literals();
    lemma_spans_fit(spans, 0, 0);
    lemma_word_len(id as nat);
    let a = span_lines(spans, 0, 0);
    let b = match error {
        Some(e) => error_line(e),
        None => seq![],
    };
    assert(width_of(b) <= 4096 + 7 + 62 + 2) by {
        match error {
            Some(e) => {
                lemma_error_line_width(e);
            },
            None => {},
        }
    }
    lemma_width_concat(a, b);
    lemma_width_concat(a + b, ":end "@);
    lemma_width_concat(a + b + ":end "@, decimal(id as nat));
    lemma_width_concat(a + b + ":end "@ + decimal(id as nat), "\n"@);
    lemma_width_counts_bytes(reply_text(id as nat, spans, error));
}

/// A `:` line as it is written.
pub open spec fn line_bytes(s: Seq<char>) -> Seq<u8> {
    encode_utf8(s).push(10u8)
}

/// The `:arg` line of an argument.
pub open spec fn arg_line(a: ArgV) -> Seq<char> {
    ":arg "@ + (if a.raw {
        "raw"@
    } else {
        "final"@
    }) + " "@ + decimal(a.bytes.len())
}

/// Arguments as they are written, up to the end of their request.
pub open spec fn written_args(args: Seq<ArgV>) -> Seq<u8>
    decreases args.len(),
{
    if args.len() == 0 {
        line_bytes(":done"@)
    } else {
        line_bytes(arg_line(args[0])) + args[0].bytes.push(10u8) + written_args(args.drop_first())
    }
}

/// A request as it is written.
pub open spec fn written_request(r: RequestV) -> Seq<u8> {
    line_bytes(":request "@ + decimal(r.id as nat)) + line_bytes(":cwd "@ + decimal(r.cwd.len()))
        + r.cwd.push(10u8) + written_args(r.args)
}

/// Whether a text can stand on a `:` line.
spec fn on_line(s: Seq<char>) -> bool {
    &&& plain(s)
    &&& s.len() < 255
    &&& forall|i: int| 0 <= i < s.len() ==> #[trigger] s[i] != '\n'
}

/// Whether the input holds `part` at `i`.
spec fn holds_at(input: Seq<u8>, i: int, part: Seq<u8>) -> bool {
    0 <= i && i + part.len() <= input.len() && input.subrange(i, i + part.len()) == part
}

proof fn lemma_holds_parts(input: Seq<u8>, i: int, a: Seq<u8>, b: Seq<u8>)
    requires
        holds_at(input, i, a + b),
    ensures
        holds_at(input, i, a),
        holds_at(input, i + a.len(), b),
{
    let ab = a + b;
    assert(input.subrange(i, i + a.len()) =~= a) by {
        assert forall|k: int| 0 <= k < a.len() implies input[i + k] == a[k] by {
            assert(input.subrange(i, i + ab.len())[k] == ab[k]);
        }
    }
    assert(input.subrange(i + a.len(), i + a.len() + b.len()) =~= b) by {
        assert forall|k: int| 0 <= k < b.len() implies input[i + a.len() + k] == b[k] by {
            assert(input.subrange(i, i + ab.len())[a.len() + k] == ab[a.len() + k]);
        }
    }
}

proof fn lemma_line_is_read(input: Seq<u8>, i: int, s: Seq<char>)
    requires
        on_line(s),
        holds_at(input, i, line_bytes(s)),
    ensures
        line_at(input, i) == Ok::<Option<(Seq<char>, int)>, FaultV>(
            Some((s, i + line_bytes(s).len())),
        ),
        line_bytes(s).len() == s.len() + 1,
{
    let line = line_bytes(s);
    let n = i + s.len();
    assert forall|k: int| 0 <= k < s.len() implies '\0' <= #[trigger] s[k] <= '\u{7f}' by {
        lemma_plain_char(s[k]);
    }
    vstd::utf8::is_ascii_chars_encode_utf8(s);
    assert forall|k: int| 0 <= k < line.len() implies input[i + k] == line[k] by {
        assert(input.subrange(i, i + line.len())[k] == line[k]);
    }
    assert forall|k: int| i <= k < n implies input[k] != 10u8 by {
        assert(input[i + (k - i)] == line[k - i]);
        assert(s[k - i] != '\n');
        assert(s[k - i] as u8 == encode_utf8(s)[k - i]);
        assert(s[k - i] <= '\u{7f}');
    }
    assert(input[i + s.len()] == line[s.len() as int]);
    lemma_newline_from(input, i, n);
    assert(input.subrange(i, n) =~= encode_utf8(s)) by {
        assert forall|k: int| 0 <= k < s.len() implies input.subrange(i, n)[k] == encode_utf8(
            s,
        )[k] by {
            assert(input[i + k] == line[k]);
        }
    }
    vstd::utf8::encode_utf8_valid_utf8(s);
    vstd::utf8::encode_utf8_decode_utf8(s);
}

proof fn lemma_bytes_are_read(input: Seq<u8>, i: int, b: Seq<u8>)
    requires
        b.len() <= MAX_BYTES,
        holds_at(input, i, b.push(10u8)),
    ensures
        bytes_at(input, i, b.len() as int) == Ok::<(Seq<u8>, int), FaultV>(
            (b, i + b.len() + 1),
        ),
{
    let p = b.push(10u8);
    assert(p =~= b + seq![10u8]);
    lemma_holds_parts(input, i, b, seq![10u8]);
    assert(input.subrange(i + b.len(), i + b.len() + 1)[0] == 10u8);
}

proof fn lemma_number_is_read(n: nat, max: int)
    requires
        n <= max,
    ensures
        number_of(decimal(n), max) == Ok::<int, FaultV>(n as int),
{
    lemma_decimal(n);
}

proof fn lemma_numbered_line(keyword: Seq<char>, n: nat)
    requires
        plain(keyword),
        keyword.len() < 200,
        forall|i: int| 0 <= i < keyword.len() ==> #[trigger] keyword[i] != '\n',
        n <= u64::MAX,
    ensures
        on_line(keyword + decimal(n)),
        field_of(keyword + decimal(n), keyword) == Ok::<Seq<char>, FaultV>(decimal(n)),
{
    let s = keyword + decimal(n);
    lemma_word_len(n);
    lemma_decimal(n);
    lemma_plain_concat(keyword, decimal(n));
    assert forall|i: int| 0 <= i < s.len() implies #[trigger] s[i] != '\n' by {
        if i < keyword.len() {
            assert(s[i] == keyword[i]);
        } else {
            assert(s[i] == decimal(n)[i - keyword.len()]);
            assert(crate::text::is_digit(decimal(n)[i - keyword.len()]));
        }
    }
    assert(s.take(keyword.len() as int) =~= keyword);
    assert(s.skip(keyword.len() as int) =~= decimal(n));
}

proof fn lemma_arg_line(a: ArgV)
    requires
        a.bytes.len() <= MAX_BYTES,
    ensures
        on_line(arg_line(a)),
        arg_header(arg_line(a)) == Ok::<(bool, int), FaultV>((a.raw, a.bytes.len() as int)),
        arg_line(a) != ":done"@,
{
    reveal_strlit(":arg ");
    reveal_strlit("raw");
    reveal_strlit("final");
    reveal_strlit(" ");
    reveal_strlit(":done");
    let kind = if a.raw {
        "raw"@
    } else {
        "final"@
    };
    let n = a.bytes.len();
    let line = arg_line(a);
    let keyword = ":arg "@ + kind + " "@;
    assert(keyword.len() < 12);
    assert forall|i: int| 0 <= i < keyword.len() implies #[trigger] keyword[i] != '\n'
        && keyword[i] <= '\u{7f}' by {
        if i < 5 {
            assert(keyword[i] == ":arg "@[i]);
        } else if i < 5 + kind.len() {
            assert(keyword[i] == kind[i - 5]);
        } else {
            assert(keyword[i] == ' ');
        }
    }
    lemma_numbered_line(keyword, n);
    assert(line == keyword + decimal(n));
    let rest = kind + " "@ + decimal(n);
    assert(line =~= ":arg "@ + rest);
    assert(line.take(5) =~= ":arg "@);
    assert(line.skip(5) =~= rest);
    assert forall|k: int| 0 <= k < kind.len() implies rest[k] != ' ' by {
        assert(rest[k] == kind[k]);
    }
    crate::text::lemma_next_of_is(rest, ' ', 0, kind.len() as int);
    assert(rest.take(kind.len() as int) =~= kind);
    assert(rest.skip(kind.len() as int + 1) =~= decimal(n));
    lemma_number_is_read(n, usize::MAX as int);
    assert("raw"@.len() != "final"@.len());
    assert(line[1] == 'a' && ":done"@[1] == 'd');
}

proof fn lemma_args_are_read(input: Seq<u8>, i: int, args: Seq<ArgV>, before: Seq<ArgV>)
    requires
        forall|k: int| 0 <= k < args.len() ==> (#[trigger] args[k]).bytes.len() <= MAX_BYTES,
        holds_at(input, i, written_args(args)),
    ensures
        args_at(input, i, before) == Ok::<(Seq<ArgV>, int), FaultV>(
            (before + args, i + written_args(args).len()),
        ),
    decreases args.len(),
{
    if args.len() == 0 {
        reveal_strlit(":done");
        assert(on_line(":done"@));
        lemma_line_is_read(input, i, ":done"@);
        assert(before + args =~= before);
    } else {
        let a = args[0];
        let rest = args.drop_first();
        let line = line_bytes(arg_line(a));
        let tail = written_args(rest);
        let body = a.bytes.push(10u8);
        lemma_arg_line(a);
        lemma_holds_parts(input, i, line + body, tail);
        lemma_holds_parts(input, i, line, body);
        lemma_line_is_read(input, i, arg_line(a));
        lemma_bytes_are_read(input, i + line.len(), a.bytes);
        assert forall|k: int| 0 <= k < rest.len() implies (#[trigger] rest[k]).bytes.len()
            <= MAX_BYTES by {
            assert(rest[k] == args[k + 1]);
        }
        lemma_args_are_read(input, i + line.len() + body.len(), rest, before.push(a));
        assert(before.push(a) + rest =~= before + args);
        assert(ArgV { raw: a.raw, bytes: a.bytes } == a);
    }
}

/// A request is read as it was written, whatever its arguments hold, and reading
/// stops where it ends.
pub proof fn law_a_request_is_read_as_written(before: Seq<u8>, r: RequestV, behind: Seq<u8>)
    requires
        r.cwd.len() <= MAX_BYTES,
        forall|i: int| 0 <= i < r.args.len() ==> (#[trigger] r.args[i]).bytes.len() <= MAX_BYTES,
    ensures
        request_at(before + written_request(r) + behind, before.len() as int) == Ok::<
            Option<(RequestV, int)>,
            FaultV,
        >(Some((r, (before.len() + written_request(r).len()) as int))),
{
    let input = before + written_request(r) + behind;
    let i = before.len() as int;
    assert(input.subrange(i, i + written_request(r).len()) =~= written_request(r));
    lemma_request_is_read(input, i, r);
}

proof fn lemma_request_is_read(input: Seq<u8>, i: int, r: RequestV)
    requires
        r.cwd.len() <= MAX_BYTES,
        forall|i: int| 0 <= i < r.args.len() ==> (#[trigger] r.args[i]).bytes.len() <= MAX_BYTES,
        holds_at(input, i, written_request(r)),
    ensures
        request_at(input, i) == Ok::<Option<(RequestV, int)>, FaultV>(
            Some((r, i + written_request(r).len())),
        ),
{
    reveal_strlit(":request ");
    reveal_strlit(":cwd ");
    let first = line_bytes(":request "@ + decimal(r.id as nat));
    let second = line_bytes(":cwd "@ + decimal(r.cwd.len()));
    let cwd = r.cwd.push(10u8);
    let args = written_args(r.args);
    lemma_numbered_line(":request "@, r.id as nat);
    lemma_number_is_read(r.id as nat, u64::MAX as int);
    lemma_numbered_line(":cwd "@, r.cwd.len());
    lemma_number_is_read(r.cwd.len(), usize::MAX as int);
    lemma_holds_parts(input, i, first + second + cwd, args);
    lemma_holds_parts(input, i, first + second, cwd);
    lemma_holds_parts(input, i, first, second);
    lemma_line_is_read(input, i, ":request "@ + decimal(r.id as nat));
    lemma_line_is_read(input, i + first.len(), ":cwd "@ + decimal(r.cwd.len()));
    lemma_bytes_are_read(input, i + first.len() + second.len(), r.cwd);
    lemma_args_are_read(input, i + first.len() + second.len() + cwd.len(), r.args, seq![]);
    assert(Seq::<ArgV>::empty() + r.args =~= r.args);
    assert(RequestV { id: r.id, cwd: r.cwd, args: r.args } == r);
}

} // verus!
