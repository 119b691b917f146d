use csvm::cli::{Header, InputFormat};
use csvm::error::Error;
use csvm::highlight::{
    Arg, Columns, FaultKind, GREETING, Headers, MAX_FILES, MAX_MESSAGE, Reply,
    ReplyError, Request, ScriptReading, Seen, Session, Span, SpanKind, check_columns,
    columns_from, from_dir, read_request, shell_dir, whole_line, words, write_reply,
};
use csvm::plan::{JoinStmt, JoinType, Plan, ProjectStmt, Stage, Stmt};
use csvm::prepare::FileHeader;

fn arg(raw: bool, bytes: &[u8]) -> Arg {
    Arg {
        raw,
        bytes: bytes.to_vec(),
    }
}

#[test]
fn a_request_is_read_with_its_bytes_as_given() {
    let input = b":request 7\n:cwd 4\n/tmp\n:arg final 4\ncsvm\n:arg final 5\na\n\0|b\n\
                  :arg raw 7\n$HOME/x\n:arg final 0\n\n:done\n";
    let Ok(Some((request, end))) = read_request(input, 0) else {
        panic!("a request")
    };
    assert_eq!(
        request,
        Request {
            id: 7,
            cwd: b"/tmp".to_vec(),
            args: vec![
                arg(false, b"csvm"),
                arg(false, b"a\n\0|b"),
                arg(true, b"$HOME/x"),
                arg(false, b""),
            ],
        }
    );
    // Then the input ends: no more requests.
    assert!(matches!(read_request(input, end), Ok(None)));
}

#[test]
fn a_request_that_breaks_the_protocol_is_an_error() {
    let bad = |input: &[u8]| match read_request(input, 0) {
        Err(f) => f.kind,
        Ok(_) => panic!("read"),
    };
    assert_eq!(bad(b"hello\n"), FaultKind::InvalidData);
    assert_eq!(bad(b":request x\n"), FaultKind::InvalidData);
    assert_eq!(bad(b":request +1\n"), FaultKind::InvalidData);
    // A line cut off, or too long to be a `:` line.
    assert_eq!(bad(b":request 1"), FaultKind::InvalidData);
    assert_eq!(
        bad(format!(":request {}\n", "1".repeat(300)).as_bytes()),
        FaultKind::InvalidData
    );
    // No `:cwd`, or a kind that is neither final nor raw.
    assert_eq!(bad(b":request 1\n:arg final 1\na\n"), FaultKind::InvalidData);
    assert_eq!(
        bad(b":request 1\n:cwd 1\n/\n:arg odd 1\na\n:done\n"),
        FaultKind::InvalidData
    );
    // Fewer bytes than the length says, or no newline after them.
    assert_eq!(bad(b":request 1\n:cwd 2\n/\n"), FaultKind::UnexpectedEof);
    assert_eq!(bad(b":request 1\n:cwd 1\n/x:done\n"), FaultKind::InvalidData);
    // A length too large to be a command line.
    assert_eq!(bad(b":request 1\n:cwd 99999999999\n"), FaultKind::InvalidData);
    // The input ends before `:done`.
    assert_eq!(bad(b":request 1\n:cwd 1\n/\n"), FaultKind::UnexpectedEof);
}

#[test]
fn what_breaks_the_protocol_is_shown() {
    let message = |input: &[u8]| match read_request(input, 0) {
        Err(f) => f.message,
        Ok(_) => panic!("read"),
    };
    assert_eq!(
        message(b"hello\n"),
        "not a highlight request: \"hello\""
    );
    assert_eq!(
        message(&[b':', 0xff, b'\n']),
        "not a highlight request: \":\u{fffd}\""
    );
    assert_eq!(
        message(b":request 1\n:cwd 1\n/\n"),
        "the input ended inside a request"
    );
}

fn span(arg: usize, at: std::ops::Range<usize>, kind: SpanKind) -> Span {
    Span { arg, at, kind }
}

#[test]
fn a_reply_is_written_line_by_line() {
    let reply = Reply {
        spans: vec![
            span(1, 0..4, SpanKind::Command),
            span(1, 5..6, SpanKind::Variable),
        ],
        error: Some(ReplyError::new(Some((1, 7..7)), "bad thing\nsecond line")),
    };
    assert_eq!(
        write_reply(3, &reply),
        ":span 1 0 4 command\n:span 1 5 6 variable\n:error 1 7 7 bad thing\n:end 3\n"
    );
    // An error with no place; a stray `\r` does not reach the line.
    let reply = Reply {
        spans: Vec::new(),
        error: Some(ReplyError::new(None, "no place\r")),
    };
    assert_eq!(write_reply(4, &reply), ":error - - - no place\n:end 4\n");
    // Nothing to say: only the end.
    assert_eq!(write_reply(5, &Reply::default()), ":end 5\n");
}

/// The space before `MESSAGE` is required even when the message is empty
/// (`:error ARG START END ` / `:error - - - `), so a consumer can always split
/// off four fields.
#[test]
fn an_error_with_an_empty_message_still_gets_its_trailing_space() {
    let reply = Reply {
        spans: Vec::new(),
        error: Some(ReplyError::new(Some((0, 3..3)), "")),
    };
    assert_eq!(write_reply(1, &reply), ":error 0 3 3 \n:end 1\n");
    let reply = Reply {
        spans: Vec::new(),
        error: Some(ReplyError::new(None, "")),
    };
    assert_eq!(write_reply(2, &reply), ":error - - - \n:end 2\n");
}

#[test]
fn a_message_is_written_on_one_line_however_it_was_built() {
    let reply = Reply {
        spans: Vec::new(),
        error: Some(ReplyError {
            place: None,
            message: "a\nb".to_string(),
        }),
    };
    assert_eq!(write_reply(1, &reply), ":error - - - a\n:end 1\n");
    // A `\r` is a space; a message too long is cut on a character.
    let reply = Reply {
        spans: Vec::new(),
        error: Some(ReplyError {
            place: Some((1, 0..1)),
            message: format!("a\rb{}", "é".repeat(MAX_MESSAGE)),
        }),
    };
    let text = write_reply(2, &reply);
    let message = text
        .strip_prefix(":error 1 0 1 ")
        .and_then(|t| t.strip_suffix("\n:end 2\n"))
        .unwrap();
    assert!(message.starts_with("a b\u{e9}"));
    assert!(message.len() <= MAX_MESSAGE);
    assert!(message.len() > MAX_MESSAGE - 2);
}

/// Check that `text` is a well-formed reply to request `id`, by the protocol's
/// shape: every line ends in a newline and is a `:span`, `:error` or `:end`
/// line; a number field is plain ASCII digits, no sign; `:span` and `:error`
/// each carry exactly four space-separated fields; a span has `START < END` and
/// a placed error `START <= END`; a placeless error is exactly `- - -`; there is
/// at most one `:error`; and the reply ends with `:end ID` and nothing after it.
fn check_reply_is_well_formed(text: &str, id: u64) {
    let is_number = |s: &str| !s.is_empty() && s.bytes().all(|b| b.is_ascii_digit());
    let mut lines: Vec<&str> = text.split('\n').collect();
    assert_eq!(
        lines.pop(),
        Some(""),
        "every line, :end included, ends in a newline"
    );
    assert!(!lines.is_empty(), "a reply always has :end");
    let mut error_seen = false;
    for (i, line) in lines.iter().enumerate() {
        assert!(
            line.starts_with(':'),
            "a reply line starts with ':': {line:?}"
        );
        if let Some(rest) = line.strip_prefix(":span ") {
            let fields: Vec<&str> = rest.splitn(4, ' ').collect();
            assert_eq!(fields.len(), 4, ":span needs ARG START END KIND: {line:?}");
            assert!(is_number(fields[0]), "ARG is not plain digits: {line:?}");
            assert!(is_number(fields[1]), "START is not plain digits: {line:?}");
            assert!(is_number(fields[2]), "END is not plain digits: {line:?}");
            let start: u64 = fields[1].parse().unwrap();
            let end: u64 = fields[2].parse().unwrap();
            assert!(start < end, "a span needs START < END: {line:?}");
            assert!(!fields[3].is_empty(), "KIND is missing: {line:?}");
        } else if let Some(rest) = line.strip_prefix(":error ") {
            assert!(!error_seen, "at most one :error line per reply");
            error_seen = true;
            let fields: Vec<&str> = rest.splitn(4, ' ').collect();
            assert_eq!(
                fields.len(),
                4,
                ":error needs ARG START END MESSAGE: {line:?}"
            );
            if fields[0] == "-" || fields[1] == "-" || fields[2] == "-" {
                assert_eq!(
                    (fields[0], fields[1], fields[2]),
                    ("-", "-", "-"),
                    "a placeless error is exactly '- - -': {line:?}"
                );
            } else {
                assert!(is_number(fields[0]), "ARG is not plain digits: {line:?}");
                assert!(is_number(fields[1]), "START is not plain digits: {line:?}");
                assert!(is_number(fields[2]), "END is not plain digits: {line:?}");
                let start: u64 = fields[1].parse().unwrap();
                let end: u64 = fields[2].parse().unwrap();
                assert!(start <= end, "an error needs START <= END: {line:?}");
            }
        } else if let Some(rest) = line.strip_prefix(":end ") {
            assert_eq!(i, lines.len() - 1, ":end must be the reply's last line");
            assert!(is_number(rest), "ID is not plain digits: {line:?}");
            assert_eq!(rest.parse::<u64>().unwrap(), id, "wrong :end ID");
        } else {
            panic!("not a reply line: {line:?}");
        }
    }
    assert!(
        lines.last().unwrap().starts_with(":end "),
        "a reply must end with :end"
    );
}

#[test]
fn a_written_reply_is_well_formed() {
    let reply = Reply {
        spans: vec![
            span(1, 0..4, SpanKind::Command),
            span(1, 5..6, SpanKind::Variable),
        ],
        error: Some(ReplyError::new(Some((1, 7..7)), "bad thing")),
    };
    check_reply_is_well_formed(&write_reply(9, &reply), 9);
    let reply = Reply {
        spans: Vec::new(),
        error: Some(ReplyError::new(None, "")),
    };
    check_reply_is_well_formed(&write_reply(10, &reply), 10);
    check_reply_is_well_formed(&write_reply(11, &Reply::default()), 11);
}

/// A request for the command line `args` (the command's name first), every
/// argument `final`, from the directory `cwd`.
fn request(cwd: &str, args: &[&str]) -> Request {
    Request {
        id: 1,
        cwd: cwd.as_bytes().to_vec(),
        args: args.iter().map(|a| arg(false, a.as_bytes())).collect(),
    }
}

/// The reply's lines as [`write_reply`] writes them, without `:end`.
fn reply_lines(reply: &Reply) -> Vec<String> {
    write_reply(1, reply)
        .lines()
        .filter(|l| !l.starts_with(":end"))
        .map(|l| l.to_string())
        .collect()
}

type Part = (std::ops::Range<usize>, SpanKind);

/// What a script's text was found to hold.
fn found(spans: &[Part], error: Option<Error>) -> ScriptReading {
    ScriptReading {
        spans: spans.to_vec(),
        error,
        columns: None,
    }
}

fn nothing() -> ScriptReading {
    found(&[], None)
}

/// The reply's lines for the command line `args`, from `/`, with the arguments at
/// `raw` sent as `raw`.
fn ask(args: &[&str], raw: &[usize], script: ScriptReading) -> Vec<String> {
    let mut req = request("/", args);
    for &i in raw {
        req.args[i].raw = true;
    }
    reply_lines(&Session::default().answer(&req, script))
}

fn at(message: &str, span: std::ops::Range<usize>) -> Option<Error> {
    Some(Error::Compile(message.to_string()).at(span))
}

#[test]
fn the_script_is_coloured_where_it_is_on_the_line() {
    let args = ["csvm", "-n", "2", "cols a | head 3"];
    let spans = [
        (0..4, SpanKind::Command),
        (5..6, SpanKind::Variable),
        (7..8, SpanKind::Operator),
        (9..13, SpanKind::Command),
        (14..15, SpanKind::Number),
    ];
    assert_eq!(
        ask(&args, &[], found(&spans, None)),
        [
            ":span 3 0 4 command",
            ":span 3 5 6 variable",
            ":span 3 7 8 operator",
            ":span 3 9 13 command",
            ":span 3 14 15 number",
        ]
    );
}

#[test]
fn a_multi_line_script_is_coloured_on_every_line() {
    let args = ["csvm", "cols a\nselect a > 1"];
    let spans = [
        (0..4, SpanKind::Command),
        (5..6, SpanKind::Variable),
        (7..13, SpanKind::Command),
        (14..15, SpanKind::Variable),
        (16..17, SpanKind::Operator),
        (18..19, SpanKind::Number),
    ];
    assert_eq!(
        ask(&args, &[], found(&spans, None)),
        [
            ":span 1 0 4 command",
            ":span 1 5 6 variable",
            ":span 1 7 13 command",
            ":span 1 14 15 variable",
            ":span 1 16 17 operator",
            ":span 1 18 19 number",
        ]
    );
}

#[test]
fn a_script_error_is_sent_on_its_place() {
    let args = ["csvm", "select a >> 1"];
    let spans = [
        (0..6, SpanKind::Command),
        (7..8, SpanKind::Variable),
        (9..10, SpanKind::Operator),
        (10..11, SpanKind::Operator),
        (12..13, SpanKind::Number),
    ];
    let e = at(
        "expected a column, number, string, or function, found '>'",
        10..11,
    );
    assert_eq!(
        ask(&args, &[], found(&spans, e)),
        [
            ":span 1 0 6 command",
            ":span 1 7 8 variable",
            ":span 1 9 10 operator",
            ":span 1 10 11 operator",
            ":span 1 12 13 number",
            ":error 1 10 11 expected a column, number, string, or function, found '>'",
        ]
    );
    // An unknown command, with its hint.
    let args = ["csvm", "selct a"];
    let e = at("unknown command: selct (did you mean `select`?)", 0..5);
    assert_eq!(
        ask(&args, &[], found(&[], e)),
        [":error 1 0 5 unknown command: selct (did you mean `select`?)"]
    );
    // An error with no place in the script.
    let args = ["csvm", "# only a comment"];
    let e = Some(Error::Compile("empty script".to_string()));
    assert_eq!(
        ask(
            &args,
            &[],
            found(&[(0..16, SpanKind::Comment)], e)
        ),
        [":span 1 0 16 comment", ":error - - - empty script"]
    );
}

#[test]
fn an_option_error_is_sent_on_its_argument() {
    let none: Vec<String> = Vec::new();
    assert_eq!(
        ask(&["csvm", "--colr", "always", "cols a"], &[], nothing()),
        [":error 1 0 6 unknown option: --colr"]
    );
    assert_eq!(
        ask(&["csvm", "cols a", "-n", "many"], &[], nothing()),
        [":error 3 0 4 invalid threads value: many"]
    );
    assert_eq!(
        ask(&["csvm", "cols a", "-f"], &[], nothing()),
        [":error 2 0 2 missing value for -f"]
    );
    // A value behind its option's `=` is part of that argument.
    assert_eq!(
        ask(&["csvm", "cols a", "--threads=many"], &[], nothing()),
        [":error 2 0 14 invalid threads value: many"]
    );
    // A line that stops before its script: nothing to say yet.
    assert_eq!(ask(&["csvm", "-n", "2"], &[], nothing()), none);
    assert_eq!(ask(&["csvm"], &[], nothing()), none);
}

#[test]
fn a_usage_error_after_a_raw_argument_is_not_sent() {
    let none: Vec<String> = Vec::new();
    // `$FLAGS` may become any number of words, options among them, so the arguments
    // after it may not be what they look like here.
    assert_eq!(
        ask(
            &["csvm", "$FLAGS", "select amount > 1", "data.csv"],
            &[1],
            nothing()
        ),
        none
    );
    assert_eq!(
        ask(&["csvm", "$X", "--colr", "cols a"], &[1], nothing()),
        none
    );
    // Nor an error on the raw argument itself.
    assert_eq!(ask(&["csvm", "-n", "$N", "cols a"], &[2], nothing()), none);
    // A usage error before any raw argument is still sent.
    assert_eq!(
        ask(&["csvm", "--colr", "$X", "cols a"], &[2], nothing()),
        [":error 1 0 6 unknown option: --colr"]
    );
    assert_eq!(
        ask(&["csvm", "cols a", "-n", "many", "$X"], &[4], nothing()),
        [":error 3 0 4 invalid threads value: many"]
    );
    // An error found once every argument is read depends on all of them: `$X`
    // may be `--help`.
    assert_eq!(
        ask(&["csvm", "cols a", "in.csv", "extra", "$X"], &[4], nothing()),
        none
    );
    assert_eq!(
        ask(&["csvm", "help", "fmt", "extra", "$X"], &[4], nothing()),
        none
    );
    // With nothing left to expand it points at the first argument too many.
    assert_eq!(
        ask(&["csvm", "cols a", "in.csv", "extra"], &[], nothing()),
        [":error 3 0 5 too many arguments (expected [SCRIPT] [INPUT])"]
    );
    assert_eq!(
        ask(&["csvm", "help", "fmt", "extra"], &[], nothing()),
        [":error 3 0 5 usage: csvm help [COMMAND|TOPIC]"]
    );
}

#[test]
fn a_script_error_after_a_raw_argument_is_not_sent() {
    let args = ["csvm", "-o", "$OUT", "cols a | selct"];
    let spans = [
        (0..4, SpanKind::Command),
        (5..6, SpanKind::Variable),
        (7..8, SpanKind::Operator),
    ];
    let unknown = || at("unknown command: selct (did you mean `select`?)", 9..14);
    // `$OUT` may become several words, so csvm may take another argument as its
    // script: the colours stay, the error does not.
    assert_eq!(
        ask(&args, &[2], found(&spans, unknown())),
        [
            ":span 3 0 4 command",
            ":span 3 5 6 variable",
            ":span 3 7 8 operator",
        ]
    );
    // Nor in a raw script, sent as typed, quote marks included.
    let none: Vec<String> = Vec::new();
    let e = at("unknown command: \"cols (did you mean `cols`?)", 0..5);
    assert_eq!(
        ask(&["csvm", "\"cols a | selct\""], &[1], found(&[], e)),
        none
    );
    // A raw argument after the script is taken to stay one argument that is not
    // an option, so the script's error is still sent.
    let args = ["csvm", "cols a | selct", "$f"];
    assert_eq!(
        ask(&args, &[2], found(&spans, unknown()))
            .last()
            .unwrap(),
        ":error 1 9 14 unknown command: selct (did you mean `select`?)"
    );
}

#[test]
fn a_script_file_or_help_is_not_coloured() {
    let none: Vec<String> = Vec::new();
    let coloured = || found(&[(0..4, SpanKind::Command)], None);
    assert_eq!(
        ask(&["csvm", "-f", "prog.csvm", "data.csv"], &[], coloured()),
        none
    );
    assert_eq!(ask(&["csvm", "help", "select"], &[], coloured()), none);
    assert_eq!(ask(&["csvm", "--version"], &[], coloured()), none);
}

#[test]
fn an_argument_that_is_not_utf8_is_an_error_at_its_first_bad_byte() {
    let mut req = request("/", &["csvm", "cols a"]);
    req.args[1].bytes = b"cols \xff a".to_vec();
    assert_eq!(
        reply_lines(&Session::default().answer(&req, nothing())),
        [":error 1 5 6 this argument is not valid UTF-8"]
    );
    assert!(words(&req).is_err());
    // Cut off inside a character: up to the end.
    req.args[1].bytes = b"cols \xc3".to_vec();
    assert_eq!(
        reply_lines(&Session::default().answer(&req, nothing())),
        [":error 1 5 6 this argument is not valid UTF-8"]
    );
}

#[test]
fn an_empty_cwd_is_answered_like_any_other() {
    let args = ["csvm", "cols a"];
    let spans = [(0..4, SpanKind::Command), (5..6, SpanKind::Variable)];
    let req = request("", &args);
    assert_eq!(
        reply_lines(&Session::default().answer(&req, found(&spans, None))),
        [":span 1 0 4 command", ":span 1 5 6 variable"]
    );
    assert_eq!(shell_dir(b""), None);
}

#[test]
fn a_reply_to_a_very_long_script_stays_under_inklines_limit() {
    // Over 3 MiB of spans in all, and an error at the very end.
    let script = format!("cols {}| selct", "a ".repeat(100_000));
    let mut spans = vec![(0..4, SpanKind::Command)];
    for i in 0..100_000 {
        spans.push((5 + 2 * i..6 + 2 * i, SpanKind::Variable));
    }
    spans.push((script.len() - 7..script.len() - 6, SpanKind::Operator));
    let e = at(
        "unknown command: selct (did you mean `select`?)",
        script.len() - 5..script.len(),
    );
    let args = ["csvm", script.as_str()];
    let reply =
        Session::default().answer(&request("/", &args), found(&spans, e));
    // `cols`, each `a` and the `|`.
    assert_eq!(reply.spans.len(), 100_002);
    let out = write_reply(1, &reply);
    assert!(out.len() < 1 << 20, "{} bytes", out.len());
    check_reply_is_well_formed(&out, 1);
    let lines = reply_lines(&reply);
    let (error, spans) = lines.split_last().unwrap();
    // The spans written are the first ones, as many as fit.
    assert!(spans.len() > 20_000 && spans.len() < reply.spans.len());
    assert_eq!(spans[0], ":span 1 0 4 command");
    assert_eq!(spans[spans.len() - 1], {
        let at = 5 + 2 * (spans.len() - 2);
        format!(":span 1 {at} {} variable", at + 1)
    });
    // The error and the end are always written.
    let at = script.len() - 5;
    assert_eq!(
        *error,
        format!(
            ":error 1 {at} {} unknown command: selct (did you mean `select`?)",
            script.len()
        )
    );
    assert!(out.ends_with(":end 1\n"));
}

#[test]
fn an_unknown_column_is_the_error_unless_an_argument_may_change() {
    let args = ["csvm", "cols amont", "data.csv"];
    let reading = |columns: Option<Error>| ScriptReading {
        spans: vec![],
        error: None,
        columns,
    };
    let missing = || {
        Some(
            Error::Column {
                name: "amont".to_string(),
                available: vec!["amount".to_string(), "region".to_string()],
            }
            .at(5..10),
        )
    };
    let sent = ask(&args, &[], reading(missing()));
    assert_eq!(sent.len(), 1);
    assert!(
        sent[0].starts_with(":error 1 5 10 column not found: amont (did you mean `amount`?)"),
        "{sent:?}"
    );
    // A raw argument after the script may change the input.
    let none: Vec<String> = Vec::new();
    assert_eq!(
        ask(&args, &[2], reading(missing())),
        none
    );
}

#[test]
fn the_words_are_those_behind_the_command() {
    let req = request("/", &["csvm", "cols a", "袋.csv"]);
    let Ok(w) = words(&req) else {
        panic!("they are text")
    };
    assert_eq!(w, ["cols a", "袋.csv"]);
}

fn seen(path: &str, len: u64, modified: i128, columns: Option<Vec<String>>) -> Seen {
    Seen {
        path: path.to_string(),
        format: InputFormat::Csv,
        len,
        modified: Some(modified),
        columns,
    }
}

#[test]
fn a_header_is_kept_while_its_file_is_unchanged() {
    let mut h = Headers::new();
    let cols = vec!["a".to_string()];
    assert!(h.find("x.csv", InputFormat::Csv, 10, Some(1)).is_none());
    h.keep(seen("x.csv", 10, 1, Some(cols.clone())));
    assert_eq!(
        h.find("x.csv", InputFormat::Csv, 10, Some(1)),
        Some(Some(cols.clone()))
    );
    // Another size, another time, another format: read again.
    assert!(h.find("x.csv", InputFormat::Csv, 11, Some(1)).is_none());
    assert!(h.find("x.csv", InputFormat::Csv, 10, Some(2)).is_none());
    assert!(h.find("x.csv", InputFormat::Parquet, 10, Some(1)).is_none());
    // A read that failed is kept too.
    h.keep(seen("y.csv", 5, 1, None));
    assert_eq!(h.find("y.csv", InputFormat::Csv, 5, Some(1)), Some(None));
    // Past the limit it starts again from none.
    for i in 0..MAX_FILES {
        h.keep(seen(&format!("{i}"), 1, 1, None));
    }
    assert!(h.find("x.csv", InputFormat::Csv, 10, Some(1)).is_none());
    assert!(h.files.len() <= MAX_FILES);
}

#[test]
fn a_relative_path_needs_a_directory() {
    assert_eq!(shell_dir(b"/tmp").as_deref(), Some("/tmp"));
    assert_eq!(
        from_dir(&Some("/tmp".to_string()), "a.csv").as_deref(),
        Some("/tmp/a.csv")
    );
    assert_eq!(
        from_dir(&None, "/abs/a.csv").as_deref(),
        Some("/abs/a.csv")
    );
    assert_eq!(from_dir(&None, "a.csv"), None);
}

#[test]
fn columns_come_from_the_header_or_the_first_line() {
    assert!(matches!(
        columns_from(&None, InputFormat::Csv),
        Columns::FirstLine
    ));
    assert!(matches!(
        columns_from(&Some(Header::Named(vec![])), InputFormat::Csv),
        Columns::Named
    ));
    assert!(matches!(
        columns_from(&Some(Header::Auto), InputFormat::Parquet),
        Columns::Unknown
    ));
    assert!(whole_line(b"a,b\n", 4));
    assert!(whole_line(b"a,b", 3));
    assert!(!whole_line(b"a,b", 9));
    assert_eq!(GREETING, "inkline-highlight 1");
}

fn keeps(name: &str) -> Plan {
    Plan::of(vec![Stage::Transform(vec![Stmt::Cols(ProjectStmt {
        exclude: false,
        names: vec![name.to_string()],
        positions: vec![],
    })])])
}

fn joined(right_plan: Plan) -> Plan {
    Plan::of(vec![Stage::Join(JoinStmt {
        join_type: JoinType::Inner,
        file: "r.csv".to_string(),
        keys: vec![("id".to_string(), "id".to_string())],
        left_key_pos: vec![],
        right_key_pos: vec![],
        right_emit_pos: vec![],
        left_ncols: 0,
        right_plan,
        right_header: vec![],
    })])
}

#[test]
fn a_column_that_is_not_there_is_found_before_the_run() {
    let header = ["id".to_string(), "amount".to_string()];
    assert!(check_columns(keeps("amount"), &header, &[]).is_none());
    assert!(matches!(
        check_columns(keeps("amuont"), &header, &[]),
        Some(Error::Column { name, .. }) if name == "amuont"
    ));
    let file = |header: Result<Vec<String>, String>| {
        [FileHeader {
            path: "r.csv".to_string(),
            header,
        }]
    };
    let known = file(Ok(vec!["id".to_string(), "name".to_string()]));
    assert!(check_columns(joined(Plan::of(vec![])), &header, &known).is_none());
    // The pipeline of a join is looked at first, against its own file.
    assert!(matches!(
        check_columns(joined(keeps("amount")), &header, &known),
        Some(Error::Column { name, .. }) if name == "amount"
    ));
    // A file whose header is not known says nothing of the columns.
    let unread = file(Err("cannot read".to_string()));
    assert!(check_columns(joined(keeps("amount")), &header, &unread).is_none());
}
