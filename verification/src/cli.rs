//! Command-line argument parsing.
//!
//! The script is the first positional and the input file an optional second
//! positional (`csvm SCRIPT [INPUT]`, like `awk 'prog' file`); input defaults to
//! stdin, and a bare `-` is also stdin. At most one input is accepted. Options:
//! `-o`/`--output` (default stdout), `-n`/`--threads`, `-f`/`--file` (read the
//! script from a file), `-t`/`--temp-dir`, `--chunk-size`, `--sort-buffer`,
//! `--header`, `--color`, `--format` (csv | parquet), and `--explain`.
//! Long options take their value as `--flag VALUE` or `--flag=VALUE`. See the
//! help registry for the full help.

use crate::csv::{line_fields, parse_header};
use crate::text::{
    cat2, cat3, cat4, chars_of, find_char, has_prefix, int_value, next_of, opt_text, outcome,
    read_i64, same, starts_with, string_from, texts, trim, trimmed,
};
use vstd::prelude::*;

verus! {

/// Parsed command-line arguments.
#[derive(Debug)]
pub struct Args {
    pub script: String,
    /// Where the script stands among the arguments; `None` when it comes from a file.
    pub script_at: Option<usize>,
    /// When set (`-f`), the pipeline is read from this file and `script` is
    /// empty; the reading happens at the program's edge.
    pub script_file: Option<String>,
    pub in_file: Option<String>,
    pub out_file: Option<String>,
    pub threads: usize,
    pub temp_dir: Option<String>,
    pub chunk_size: usize,
    pub sort_buffer: usize,
    pub explain: bool,
    pub color: ColorWhen,
    /// `--header`: the input has no header line; this names its columns.
    pub header: Option<Header>,
    /// `--format`: input format override. `None` auto-detects from the file
    /// extension (`.parquet` ⇒ Parquet, else CSV).
    pub format: Option<InputFormat>,
}

/// `--header`: how a headerless input's columns are named.
#[derive(Debug, PartialEq, Eq)]
pub enum Header {
    /// These names, in order.
    Named(Vec<String>),
    /// `c1, c2, …`, one per column of the first line.
    Auto,
}

/// What a [`Header`] is in contracts.
pub enum HeaderV {
    Named(Seq<Seq<char>>),
    Auto,
}

impl View for Header {
    type V = HeaderV;

    open spec fn view(&self) -> HeaderV {
        match self {
            Header::Named(names) => HeaderV::Named(texts(names@)),
            Header::Auto => HeaderV::Auto,
        }
    }
}

/// An optional header in contracts.
pub open spec fn header_view(h: Option<Header>) -> Option<HeaderV> {
    match h {
        Some(h) => Some(h@),
        None => None,
    }
}

/// What the value of `--header` stands for: `-` or empty auto-names; else a comma
/// list, read like a header line (so a quoted name may contain a comma), none of
/// its names empty.
pub open spec fn header_of(value: Seq<char>) -> Result<HeaderV, Seq<char>> {
    let v = trimmed(value);
    let names = line_fields(v).map_values(|n: Seq<char>| trimmed(n));
    if v.len() == 0 || v == "-"@ {
        Ok(HeaderV::Auto)
    } else if exists|i: int| 0 <= i < names.len() && (#[trigger] names[i]).len() == 0 {
        Err("--header has an empty column name in '"@ + v + "'"@)
    } else {
        Ok(HeaderV::Named(names))
    }
}

impl Header {
    /// Parse the flag's value: `-` or empty auto-names; else a comma list,
    /// read like a header line (so a quoted name may contain a comma).
    pub fn parse(value: &str) -> (r: Result<Header, String>)
        ensures
            match r {
                Ok(h) => header_of(value@) == Ok::<HeaderV, Seq<char>>(h@),
                Err(e) => header_of(value@) == Err::<HeaderV, Seq<char>>(e@),
            },
    {
        let value = trim(value);
        if value.as_str().is_empty() || same(value.as_str(), "-") {
            return Ok(Header::Auto);
        }
        let fields = parse_header(value.as_str());
        let ghost want = line_fields(value@).map_values(|n: Seq<char>| trimmed(n));
        let mut names: Vec<String> = Vec::new();
        let mut empty = false;
        let mut i: usize = 0;
        while i < fields.len()
            invariant
                i <= fields@.len(),
                texts(fields@) == line_fields(value@),
                want == line_fields(value@).map_values(|n: Seq<char>| trimmed(n)),
                texts(names@) == want.take(i as int),
                empty == exists|k: int| 0 <= k < i && (#[trigger] want[k]).len() == 0,
            decreases fields.len() - i,
        {
            let ghost before = texts(names@);
            let name = trim(fields[i].as_str());
            assert(texts(fields@)[i as int] == fields@[i as int]@);
            assert(want[i as int] == name@);
            if name.as_str().is_empty() {
                empty = true;
            }
            names.push(name);
            assert(texts(names@) =~= before.push(want[i as int]));
            assert(want.take(i + 1) =~= want.take(i as int).push(want[i as int]));
            i += 1;
        }
        assert(texts(fields@).len() == fields@.len());
        assert(want.take(i as int) =~= want);
        if empty {
            return Err(cat3("--header has an empty column name in '", value.as_str(), "'"));
        }
        Ok(Header::Named(names))
    }
}

/// The input format, set by `--format` or auto-detected from the extension.
#[derive(Debug, Clone, Copy, PartialEq, Eq, Structural)]
pub enum InputFormat {
    Csv,
    /// Read `.parquet`.
    Parquet,
}

/// When to emit ANSI colour for `color` rules.
#[derive(Debug, Clone, Copy, PartialEq, Eq, Structural)]
pub enum ColorWhen {
    /// Colour only when stdout is a terminal.
    Auto,
    Always,
    Never,
}

impl Default for ColorWhen {
    fn default() -> (r: Self)
        ensures
            r == ColorWhen::Auto,
    {
        ColorWhen::Auto
    }
}

/// The input chunk size unless `--chunk-size` says otherwise.
pub const DEFAULT_CHUNK_SIZE: usize = 1_000_000;

/// In-memory budget before `sort` spills a run to a temp file.
pub const DEFAULT_SORT_BUFFER: usize = 268_435_456;

/// Most worker threads a run gets, whether `-n` asked for more or the
/// machine has more cores.
pub const MAX_THREADS: usize = 1024;

/// The worker count for `-n`.
pub open spec fn threads_for(requested: Option<i64>, cores: usize) -> int {
    let asked = match requested {
        Some(n) => n as int,
        None => cores as int,
    };
    if asked < 1 {
        1
    } else if asked > MAX_THREADS {
        MAX_THREADS as int
    } else {
        asked
    }
}

/// The worker count for `-n`: the request when positive (capped at
/// [`MAX_THREADS`]), else 1; `cores` (the machine's core count) when no `-n`
/// was given.
pub fn resolve_threads(requested: Option<i64>, cores: usize) -> (r: usize)
    ensures
        r == threads_for(requested, cores),
        1 <= r <= MAX_THREADS,
{
    match requested {
        Some(n) => if n < 1 {
            1
        } else if n > 1024 {
            MAX_THREADS
        } else {
            n as usize
        },
        None => if cores < 1 {
            1
        } else if cores > MAX_THREADS {
            MAX_THREADS
        } else {
            cores
        },
    }
}

/// What a size's last character multiplies the number before it by, when it is a
/// suffix.
pub open spec fn suffix_of(c: char) -> Option<int> {
    if c == 'k' || c == 'K' {
        Some(1024)
    } else if c == 'm' || c == 'M' {
        Some(1_048_576)
    } else if c == 'g' || c == 'G' {
        Some(1_073_741_824)
    } else {
        None
    }
}

/// The number of bytes that a size stands for: a plain integer, or one with a
/// binary `K`/`M`/`G` suffix, when it fits in 64 bits.
pub open spec fn size_of_text(text: Seq<char>) -> Option<i64> {
    let s = trimmed(text);
    let (digits, mult) = if s.len() > 0 && suffix_of(s.last()) is Some {
        (s.drop_last(), suffix_of(s.last())->0)
    } else {
        (s, 1int)
    };
    match int_value(trimmed(digits)) {
        Some(n) => if i64::MIN <= n * mult <= i64::MAX {
            Some((n * mult) as i64)
        } else {
            None
        },
        None => None,
    }
}

/// Parse a byte size: a plain integer, or one with a binary `K`/`M`/`G` suffix
/// (case-insensitive, powers of 1024, matching the `256 MiB` default). Returns
/// `i64` so a non-positive value can fall back to the default at the call site.
pub fn parse_size(s: &str, what: &str) -> (r: Result<i64, String>)
    ensures
        outcome(r) == (match size_of_text(s@) {
            Some(n) => Ok::<i64, Seq<char>>(n),
            None => Err("invalid "@ + what@ + " value: "@ + trimmed(s@)),
        }),
{
    let s = trim(s);
    let v = chars_of(s.as_str());
    let mut end: usize = v.len();
    let mut mult: i64 = 1;
    if v.len() > 0 {
        let c = v[v.len() - 1];
        if c == 'k' || c == 'K' {
            end = v.len() - 1;
            mult = 1024;
        } else if c == 'm' || c == 'M' {
            end = v.len() - 1;
            mult = 1_048_576;
        } else if c == 'g' || c == 'G' {
            end = v.len() - 1;
            mult = 1_073_741_824;
        }
    }
    let digits = string_from(v.as_slice(), 0, end);
    proof {
        if end < v.len() {
            assert(digits@ =~= s@.drop_last());
        } else {
            assert(digits@ =~= s@);
        }
    }
    let n = match read_i64(trim(digits.as_str()).as_str()) {
        Some(n) => n.checked_mul(mult),
        None => None,
    };
    match n {
        Some(n) => Ok(n),
        None => Err(cat4("invalid ", what, " value: ", s.as_str())),
    }
}

/// Outcome of parsing: run with `Args`, or print help / version and exit. `Help`
/// carries an optional topic (`csvm help CMD`); `None` is the overview.
#[derive(Debug)]
pub enum Parsed {
    Run(Box<Args>),
    Help(Option<String>),
    Version,
}

/// A command line that cannot be run.
#[derive(Debug, PartialEq, Eq)]
pub struct Usage {
    /// The argument that the message is about, where there is one.
    pub arg: Option<usize>,
    /// Whether this was found once every argument was read, so that it depends on
    /// all of them, and not only on those up to `arg`.
    pub whole_line: bool,
    pub message: String,
}

/// What a [`Usage`] is in contracts.
pub struct UsageV {
    pub arg: Option<int>,
    pub whole_line: bool,
    pub message: Seq<char>,
}

impl View for Usage {
    type V = UsageV;

    open spec fn view(&self) -> UsageV {
        UsageV {
            arg: place_view(self.arg),
            whole_line: self.whole_line,
            message: self.message@,
        }
    }
}

/// An argument's place in contracts.
pub open spec fn place_view(at: Option<usize>) -> Option<int> {
    match at {
        Some(i) => Some(i as int),
        None => None,
    }
}

/// What [`Args`] are in contracts.
pub struct ArgsV {
    pub script: Seq<char>,
    pub script_at: Option<int>,
    pub script_file: Option<Seq<char>>,
    pub in_file: Option<Seq<char>>,
    pub out_file: Option<Seq<char>>,
    pub threads: int,
    pub temp_dir: Option<Seq<char>>,
    pub chunk_size: usize,
    pub sort_buffer: usize,
    pub explain: bool,
    pub color: ColorWhen,
    pub header: Option<HeaderV>,
    pub format: Option<InputFormat>,
}

/// What [`Parsed`] is in contracts.
pub enum ParsedV {
    Run(ArgsV),
    Help(Option<Seq<char>>),
    Version,
}

impl View for Args {
    type V = ArgsV;

    open spec fn view(&self) -> ArgsV {
        ArgsV {
            script: self.script@,
            script_at: place_view(self.script_at),
            script_file: opt_text(self.script_file),
            in_file: opt_text(self.in_file),
            out_file: opt_text(self.out_file),
            threads: self.threads as int,
            temp_dir: opt_text(self.temp_dir),
            chunk_size: self.chunk_size,
            sort_buffer: self.sort_buffer,
            explain: self.explain,
            color: self.color,
            header: header_view(self.header),
            format: self.format,
        }
    }
}

impl View for Parsed {
    type V = ParsedV;

    open spec fn view(&self) -> ParsedV {
        match self {
            Parsed::Run(a) => ParsedV::Run(a@),
            Parsed::Help(t) => ParsedV::Help(opt_text(*t)),
            Parsed::Version => ParsedV::Version,
        }
    }
}

/// What the options read so far say.
pub struct OptsV {
    pub positionals: Seq<Seq<char>>,
    /// Where each positional stands among the arguments.
    pub places: Seq<int>,
    pub out_file: Option<Seq<char>>,
    pub threads: Option<i64>,
    pub temp_dir: Option<Seq<char>>,
    pub chunk_size: usize,
    pub sort_buffer: usize,
    pub explain: bool,
    pub color: ColorWhen,
    pub script_file: Option<Seq<char>>,
    pub header: Option<HeaderV>,
    pub format: Option<InputFormat>,
}

/// No options read yet.
pub open spec fn no_opts() -> OptsV {
    OptsV {
        positionals: seq![],
        places: seq![],
        out_file: None,
        threads: None,
        temp_dir: None,
        chunk_size: DEFAULT_CHUNK_SIZE,
        sort_buffer: DEFAULT_SORT_BUFFER,
        explain: false,
        color: ColorWhen::Auto,
        script_file: None,
        header: None,
        format: None,
    }
}

/// An argument as an option and the value behind its `=`: a long option is split
/// on its first `=`, anything else stands as it is.
pub open spec fn flag_of(raw: Seq<char>) -> (Seq<char>, Option<Seq<char>>) {
    let n = next_of(raw, '=', 0);
    if n < raw.len() && starts_with(raw.take(n), "--"@) {
        (raw.take(n), Some(raw.skip(n + 1)))
    } else {
        (raw, None)
    }
}

/// What an option is.
pub enum FlagV {
    Help,
    Version,
    Output,
    Threads,
    File,
    TempDir,
    ChunkSize,
    SortBuffer,
    Explain,
    Header,
    Format,
    Color,
    Unknown,
    Positional,
}

/// Which option an argument is.
pub open spec fn flag_kind(arg: Seq<char>) -> FlagV {
    if arg == "-h"@ || arg == "--help"@ {
        FlagV::Help
    } else if arg == "-V"@ || arg == "--version"@ {
        FlagV::Version
    } else if arg == "-o"@ || arg == "--output"@ {
        FlagV::Output
    } else if arg == "-n"@ || arg == "--threads"@ {
        FlagV::Threads
    } else if arg == "-f"@ || arg == "--file"@ {
        FlagV::File
    } else if arg == "-t"@ || arg == "--temp-dir"@ {
        FlagV::TempDir
    } else if arg == "--chunk-size"@ {
        FlagV::ChunkSize
    } else if arg == "--sort-buffer"@ {
        FlagV::SortBuffer
    } else if arg == "--explain"@ {
        FlagV::Explain
    } else if arg == "--header"@ {
        FlagV::Header
    } else if arg == "--format"@ {
        FlagV::Format
    } else if arg == "--color"@ {
        FlagV::Color
    } else if starts_with(arg, "-"@) && arg != "-"@ {
        FlagV::Unknown
    } else {
        FlagV::Positional
    }
}

/// Whether an option takes a value.
pub open spec fn takes_value(f: FlagV) -> bool {
    match f {
        FlagV::Help | FlagV::Version | FlagV::Explain | FlagV::Unknown | FlagV::Positional => false,
        _ => true,
    }
}

/// A size as a byte count: a non-positive one is the default.
pub open spec fn size_or(n: i64, default: usize) -> usize {
    if n <= 0 {
        default
    } else {
        n as usize
    }
}

/// What an option with its value makes of the options so far.
pub open spec fn with_value_of(o: OptsV, f: FlagV, v: Seq<char>) -> Result<OptsV, Seq<char>> {
    match f {
        FlagV::Output => Ok(OptsV { out_file: Some(v), ..o }),
        FlagV::Threads => match int_value(v) {
            Some(n) => Ok(OptsV { threads: Some(n), ..o }),
            None => Err("invalid threads value: "@ + v),
        },
        FlagV::File => Ok(OptsV { script_file: Some(v), ..o }),
        FlagV::TempDir => Ok(OptsV { temp_dir: Some(v), ..o }),
        FlagV::ChunkSize => match size_of_text(v) {
            Some(n) => Ok(OptsV { chunk_size: size_or(n, DEFAULT_CHUNK_SIZE), ..o }),
            None => Err("invalid "@ + "--chunk-size"@ + " value: "@ + trimmed(v)),
        },
        FlagV::SortBuffer => match size_of_text(v) {
            Some(n) => Ok(OptsV { sort_buffer: size_or(n, DEFAULT_SORT_BUFFER), ..o }),
            None => Err("invalid "@ + "--sort-buffer"@ + " value: "@ + trimmed(v)),
        },
        FlagV::Header => match header_of(v) {
            Ok(h) => Ok(OptsV { header: Some(h), ..o }),
            Err(e) => Err(e),
        },
        FlagV::Format => if v == "csv"@ {
            Ok(OptsV { format: Some(InputFormat::Csv), ..o })
        } else if v == "parquet"@ {
            Ok(OptsV { format: Some(InputFormat::Parquet), ..o })
        } else {
            Err("invalid --format value: "@ + v + " (csv|parquet)"@)
        },
        FlagV::Color => if v == "auto"@ {
            Ok(OptsV { color: ColorWhen::Auto, ..o })
        } else if v == "always"@ {
            Ok(OptsV { color: ColorWhen::Always, ..o })
        } else if v == "never"@ {
            Ok(OptsV { color: ColorWhen::Never, ..o })
        } else {
            Err("invalid --color value: "@ + v + " (auto|always|never)"@)
        },
        _ => Ok(o),
    }
}

/// What reading the arguments comes to.
pub enum ScanV {
    Done(OptsV),
    Help,
    Version,
    /// A message about one argument.
    Fail(int, Seq<char>),
}

/// What the arguments from `i` on make of the options so far.
pub open spec fn scan(args: Seq<Seq<char>>, i: int, o: OptsV) -> ScanV
    decreases args.len() - i,
{
    if i >= args.len() {
        ScanV::Done(o)
    } else {
        let (arg, inline) = flag_of(args[i]);
        let f = flag_kind(arg);
        match f {
            FlagV::Help => ScanV::Help,
            FlagV::Version => ScanV::Version,
            FlagV::Unknown => ScanV::Fail(i, "unknown option: "@ + arg),
            FlagV::Positional => scan(
                args,
                i + 1,
                OptsV { positionals: o.positionals.push(arg), places: o.places.push(i), ..o },
            ),
            FlagV::Explain => scan(args, i + 1, OptsV { explain: true, ..o }),
            _ => match inline {
                Some(v) => match with_value_of(o, f, v) {
                    Ok(next) => scan(args, i + 1, next),
                    Err(e) => ScanV::Fail(i, e),
                },
                None => if i + 1 >= args.len() {
                    ScanV::Fail(i, "missing value for "@ + arg)
                } else {
                    match with_value_of(o, f, args[i + 1]) {
                        Ok(next) => scan(args, i + 2, next),
                        Err(e) => ScanV::Fail(i + 1, e),
                    }
                },
            },
        }
    }
}

/// A message about the whole line.
pub open spec fn whole_line(arg: Option<int>, message: Seq<char>) -> UsageV {
    UsageV { arg, whole_line: true, message }
}

/// What the options and positionals ask for. `help [TOPIC]` (without `-f`) prints
/// help, like a subcommand. The positionals are `SCRIPT [INPUT]`; with `-f FILE`
/// the script comes from the file, so the single positional is the input. What is
/// wrong here is about the whole line, and points at the first positional too many.
pub open spec fn asked(o: OptsV, cores: usize) -> Result<ParsedV, UsageV> {
    let p = o.positionals;
    if o.script_file is None && p.len() > 0 && p[0] == "help"@ {
        if p.len() > 2 {
            Err(whole_line(Some(o.places[2]), "usage: csvm help [COMMAND|TOPIC]"@))
        } else {
            Ok(
                ParsedV::Help(
                    if p.len() > 1 {
                        Some(p[1])
                    } else {
                        None
                    },
                ),
            )
        }
    } else if o.script_file is None && p.len() == 0 {
        Err(whole_line(None, "no script given"@))
    } else {
        let used = if o.script_file is Some {
            0int
        } else {
            1int
        };
        let rest = p.skip(used);
        if rest.len() > 1 {
            Err(
                whole_line(
                    Some(o.places[used + 1]),
                    "too many arguments (expected [SCRIPT] [INPUT])"@,
                ),
            )
        } else {
            Ok(
                ParsedV::Run(
                    ArgsV {
                        script: if o.script_file is Some {
                            seq![]
                        } else {
                            p[0]
                        },
                        script_at: if o.script_file is Some {
                            None
                        } else {
                            Some(o.places[0])
                        },
                        script_file: o.script_file,
                        in_file: if rest.len() > 0 {
                            Some(rest[0])
                        } else {
                            None
                        },
                        out_file: o.out_file,
                        threads: threads_for(o.threads, cores),
                        temp_dir: o.temp_dir,
                        chunk_size: o.chunk_size,
                        sort_buffer: o.sort_buffer,
                        explain: o.explain,
                        color: o.color,
                        header: o.header,
                        format: o.format,
                    },
                ),
            )
        }
    }
}

/// What the arguments ask for.
pub open spec fn parsed_of(args: Seq<Seq<char>>, cores: usize) -> Result<ParsedV, UsageV> {
    match scan(args, 0, no_opts()) {
        ScanV::Help => Ok(ParsedV::Help(None)),
        ScanV::Version => Ok(ParsedV::Version),
        ScanV::Fail(at, e) => Err(UsageV { arg: Some(at), whole_line: false, message: e }),
        ScanV::Done(o) => asked(o, cores),
    }
}

struct Opts {
    positionals: Vec<String>,
    places: Vec<usize>,
    out_file: Option<String>,
    threads: Option<i64>,
    temp_dir: Option<String>,
    chunk_size: usize,
    sort_buffer: usize,
    explain: bool,
    color: ColorWhen,
    script_file: Option<String>,
    header: Option<Header>,
    format: Option<InputFormat>,
}

impl Opts {
    spec fn model(&self) -> OptsV {
        OptsV {
            positionals: texts(self.positionals@),
            places: self.places@.map_values(|i: usize| i as int),
            out_file: opt_text(self.out_file),
            threads: self.threads,
            temp_dir: opt_text(self.temp_dir),
            chunk_size: self.chunk_size,
            sort_buffer: self.sort_buffer,
            explain: self.explain,
            color: self.color,
            script_file: opt_text(self.script_file),
            header: header_view(self.header),
            format: self.format,
        }
    }
}

/// Which option an argument is.
#[derive(Clone, Copy, PartialEq, Eq, Structural)]
enum Flag {
    Help,
    Version,
    Output,
    Threads,
    File,
    TempDir,
    ChunkSize,
    SortBuffer,
    Explain,
    Header,
    Format,
    Color,
    Unknown,
    Positional,
}

impl Flag {
    spec fn model(self) -> FlagV {
        match self {
            Flag::Help => FlagV::Help,
            Flag::Version => FlagV::Version,
            Flag::Output => FlagV::Output,
            Flag::Threads => FlagV::Threads,
            Flag::File => FlagV::File,
            Flag::TempDir => FlagV::TempDir,
            Flag::ChunkSize => FlagV::ChunkSize,
            Flag::SortBuffer => FlagV::SortBuffer,
            Flag::Explain => FlagV::Explain,
            Flag::Header => FlagV::Header,
            Flag::Format => FlagV::Format,
            Flag::Color => FlagV::Color,
            Flag::Unknown => FlagV::Unknown,
            Flag::Positional => FlagV::Positional,
        }
    }

    fn of(arg: &str) -> (f: Flag)
        ensures
            f.model() == flag_kind(arg@),
    {
        if same(arg, "-h") || same(arg, "--help") {
            Flag::Help
        } else if same(arg, "-V") || same(arg, "--version") {
            Flag::Version
        } else if same(arg, "-o") || same(arg, "--output") {
            Flag::Output
        } else if same(arg, "-n") || same(arg, "--threads") {
            Flag::Threads
        } else if same(arg, "-f") || same(arg, "--file") {
            Flag::File
        } else if same(arg, "-t") || same(arg, "--temp-dir") {
            Flag::TempDir
        } else if same(arg, "--chunk-size") {
            Flag::ChunkSize
        } else if same(arg, "--sort-buffer") {
            Flag::SortBuffer
        } else if same(arg, "--explain") {
            Flag::Explain
        } else if same(arg, "--header") {
            Flag::Header
        } else if same(arg, "--format") {
            Flag::Format
        } else if same(arg, "--color") {
            Flag::Color
        } else if has_prefix(arg, "-") && !same(arg, "-") {
            Flag::Unknown
        } else {
            Flag::Positional
        }
    }
}

fn split_flag(raw: &str) -> (r: (String, Option<String>))
    ensures
        (r.0@, opt_text(r.1)) == flag_of(raw@),
{
    let v = chars_of(raw);
    let n = find_char(v.as_slice(), '=', 0);
    if n < v.len() {
        let flag = string_from(v.as_slice(), 0, n);
        assert(flag@ =~= raw@.take(n as int));
        if has_prefix(flag.as_str(), "--") {
            let value = string_from(v.as_slice(), n + 1, v.len());
            assert(value@ =~= raw@.skip(n + 1));
            return (flag, Some(value));
        }
    }
    (raw.to_string(), None)
}

fn apply_value(o: &mut Opts, f: Flag, v: String) -> (r: Result<(), String>)
    requires
        takes_value(f.model()),
    ensures
        match r {
            Ok(_) => with_value_of(old(o).model(), f.model(), v@) == Ok::<OptsV, Seq<char>>(
                final(o).model(),
            ) && final(o).places@.len() == old(o).places@.len() && final(o).positionals@.len()
                == old(o).positionals@.len(),
            Err(e) => with_value_of(old(o).model(), f.model(), v@) == Err::<OptsV, Seq<char>>(e@),
        },
{
    match f {
        Flag::Output => {
            o.out_file = Some(v);
        },
        Flag::Threads => match read_i64(v.as_str()) {
            Some(n) => {
                o.threads = Some(n);
            },
            None => {
                return Err(cat2("invalid threads value: ", v.as_str()));
            },
        },
        Flag::File => {
            o.script_file = Some(v);
        },
        Flag::TempDir => {
            o.temp_dir = Some(v);
        },
        Flag::ChunkSize => match parse_size(v.as_str(), "--chunk-size") {
            Ok(n) => {
                o.chunk_size = if n <= 0 {
                    DEFAULT_CHUNK_SIZE
                } else {
                    n as usize
                };
            },
            Err(e) => {
                return Err(e);
            },
        },
        Flag::SortBuffer => match parse_size(v.as_str(), "--sort-buffer") {
            Ok(n) => {
                o.sort_buffer = if n <= 0 {
                    DEFAULT_SORT_BUFFER
                } else {
                    n as usize
                };
            },
            Err(e) => {
                return Err(e);
            },
        },
        Flag::Header => match Header::parse(v.as_str()) {
            Ok(h) => {
                o.header = Some(h);
            },
            Err(e) => {
                return Err(e);
            },
        },
        Flag::Format => {
            if same(v.as_str(), "csv") {
                o.format = Some(InputFormat::Csv);
            } else if same(v.as_str(), "parquet") {
                o.format = Some(InputFormat::Parquet);
            } else {
                return Err(cat3("invalid --format value: ", v.as_str(), " (csv|parquet)"));
            }
        },
        Flag::Color => {
            if same(v.as_str(), "auto") {
                o.color = ColorWhen::Auto;
            } else if same(v.as_str(), "always") {
                o.color = ColorWhen::Always;
            } else if same(v.as_str(), "never") {
                o.color = ColorWhen::Never;
            } else {
                return Err(cat3("invalid --color value: ", v.as_str(), " (auto|always|never)"));
            }
        },
        _ => {},
    }
    Ok(())
}

fn finish(o: Opts, cores: usize) -> (r: Result<Parsed, Usage>)
    requires
        o.places@.len() == o.positionals@.len(),
    ensures
        match r {
            Ok(p) => asked(o.model(), cores) == Ok::<ParsedV, UsageV>(p@),
            Err(e) => asked(o.model(), cores) == Err::<ParsedV, UsageV>(e@),
        },
{
    let ghost p = texts(o.positionals@);
    let n = o.positionals.len();
    assert(p.len() == n);
    proof {
        if n > 0 {
            assert(p[0] == o.positionals@[0]@);
        }
        if n > 1 {
            assert(p[1] == o.positionals@[1]@);
        }
    }
    if o.script_file.is_none() && n > 0 && same(o.positionals[0].as_str(), "help") {
        if n > 2 {
            return Err(
                Usage {
                    arg: Some(o.places[2]),
                    whole_line: true,
                    message: "usage: csvm help [COMMAND|TOPIC]".to_string(),
                },
            );
        }
        return Ok(
            Parsed::Help(
                if n > 1 {
                    Some(o.positionals[1].clone())
                } else {
                    None
                },
            ),
        );
    }
    let from_file = o.script_file.is_some();
    if !from_file && n == 0 {
        return Err(
            Usage { arg: None, whole_line: true, message: "no script given".to_string() },
        );
    }
    let used: usize = if from_file {
        0
    } else {
        1
    };
    if n - used > 1 {
        return Err(
            Usage {
                arg: Some(o.places[used + 1]),
                whole_line: true,
                message: "too many arguments (expected [SCRIPT] [INPUT])".to_string(),
            },
        );
    }
    let script = if from_file {
        String::new()
    } else {
        o.positionals[0].clone()
    };
    assert(from_file ==> script@ =~= seq![]);
    let script_at = if from_file {
        None
    } else {
        Some(o.places[0])
    };
    let in_file = if n > used {
        Some(o.positionals[used].clone())
    } else {
        None
    };
    let threads = resolve_threads(o.threads, cores);
    Ok(
        Parsed::Run(
            Box::new(
                Args {
                    script,
                    script_at,
                    script_file: o.script_file,
                    in_file,
                    out_file: o.out_file,
                    threads,
                    temp_dir: o.temp_dir,
                    chunk_size: o.chunk_size,
                    sort_buffer: o.sort_buffer,
                    explain: o.explain,
                    color: o.color,
                    header: o.header,
                    format: o.format,
                },
            ),
        ),
    )
}

fn at_argument(i: usize, message: String) -> (r: Usage)
    ensures
        r@ == (UsageV { arg: Some(i as int), whole_line: false, message: message@ }),
{
    Usage { arg: Some(i), whole_line: false, message }
}

/// Parse arguments (excluding argv[0]); `cores` is the machine's core count, the
/// default for `-n`. Returns an error message suitable for printing to stderr.
pub fn parse(args: Vec<String>, cores: usize) -> (r: Result<Parsed, String>)
    ensures
        match r {
            Ok(p) => parsed_of(texts(args@), cores) == Ok::<ParsedV, UsageV>(p@),
            Err(e) => parsed_of(texts(args@), cores) is Err && parsed_of(
                texts(args@),
                cores,
            )->Err_0.message == e@,
        },
{
    match parse_at(args, cores) {
        Ok(p) => Ok(p),
        Err(u) => Err(u.message),
    }
}

/// Whether what the arguments ask for, or are refused for, points at arguments that
/// are there.
pub open spec fn points_inside(args: Seq<Seq<char>>, r: Result<ParsedV, UsageV>) -> bool {
    match r {
        Ok(ParsedV::Run(a)) => a.script_at matches Some(at) ==> 0 <= at < args.len() && args[at]
            == a.script,
        Ok(_) => true,
        Err(u) => u.arg matches Some(at) ==> 0 <= at < args.len(),
    }
}

/// Whether each positional read before the argument at `i` stands at its place.
spec fn placed(args: Seq<Seq<char>>, i: int, o: OptsV) -> bool {
    &&& o.places.len() == o.positionals.len()
    &&& forall|k: int|
        0 <= k < o.places.len() ==> 0 <= #[trigger] o.places[k] < i && args[o.places[k]]
            == o.positionals[k]
}

proof fn lemma_a_positional_stands_as_it_is(raw: Seq<char>)
    requires
        flag_kind(flag_of(raw).0) is Positional,
    ensures
        flag_of(raw).0 == raw,
{
    reveal_strlit("-");
    reveal_strlit("--");
    let n = next_of(raw, '=', 0);
    if n < raw.len() && starts_with(raw.take(n), "--"@) {
        let arg = raw.take(n);
        assert(arg.take(2)[0] == '-');
        assert(arg.take(1) =~= "-"@);
    }
}

proof fn lemma_scan_places(args: Seq<Seq<char>>, i: int, o: OptsV)
    requires
        0 <= i <= args.len(),
        placed(args, i, o),
    ensures
        match scan(args, i, o) {
            ScanV::Done(last) => placed(args, args.len() as int, last),
            ScanV::Fail(at, _) => 0 <= at < args.len(),
            _ => true,
        },
    decreases args.len() - i,
{
    if i < args.len() {
        let (arg, inline) = flag_of(args[i]);
        let f = flag_kind(arg);
        match f {
            FlagV::Help | FlagV::Version | FlagV::Unknown => {},
            FlagV::Positional => {
                lemma_a_positional_stands_as_it_is(args[i]);
                lemma_scan_places(
                    args,
                    i + 1,
                    OptsV { positionals: o.positionals.push(arg), places: o.places.push(i), ..o },
                );
            },
            FlagV::Explain => lemma_scan_places(args, i + 1, OptsV { explain: true, ..o }),
            _ => match inline {
                Some(v) => match with_value_of(o, f, v) {
                    Ok(next) => lemma_scan_places(args, i + 1, next),
                    Err(_) => {},
                },
                None => if i + 1 < args.len() {
                    match with_value_of(o, f, args[i + 1]) {
                        Ok(next) => lemma_scan_places(args, i + 2, next),
                        Err(_) => {},
                    }
                },
            },
        }
    }
}

/// The script is the argument at the place it is said to stand at, and a usage error
/// is about an argument of the line.
pub proof fn law_places_are_of_the_line(args: Seq<Seq<char>>, cores: usize)
    ensures
        points_inside(args, parsed_of(args, cores)),
{
    lemma_scan_places(args, 0, no_opts());
}

/// The number of cores sets how many threads a run gets, and nothing else.
pub proof fn law_cores_set_the_threads_alone(args: Seq<Seq<char>>, cores: usize, others: usize)
    ensures
        match (parsed_of(args, cores), parsed_of(args, others)) {
            (Ok(ParsedV::Run(a)), Ok(ParsedV::Run(b))) => a == (ArgsV { threads: a.threads, ..b }),
            (a, b) => a == b,
        },
{
}

/// [`parse`], with an error that says which argument it is about.
pub fn parse_at(args: Vec<String>, cores: usize) -> (r: Result<Parsed, Usage>)
    ensures
        match r {
            Ok(p) => parsed_of(texts(args@), cores) == Ok::<ParsedV, UsageV>(p@),
            Err(u) => parsed_of(texts(args@), cores) == Err::<ParsedV, UsageV>(u@),
        },
{
    let ghost all = texts(args@);
    let mut o = Opts {
        positionals: Vec::new(),
        places: Vec::new(),
        out_file: None,
        threads: None,
        temp_dir: None,
        chunk_size: DEFAULT_CHUNK_SIZE,
        sort_buffer: DEFAULT_SORT_BUFFER,
        explain: false,
        color: ColorWhen::Auto,
        script_file: None,
        header: None,
        format: None,
    };
    assert(o.model().positionals =~= seq![]);
    assert(o.model().places =~= seq![]);
    let mut i: usize = 0;
    while i < args.len()
        invariant
            i <= args@.len(),
            all == texts(args@),
            o.places@.len() == o.positionals@.len(),
            scan(all, 0, no_opts()) == scan(all, i as int, o.model()),
        decreases args.len() - i,
    {
        let ghost before = o.model();
        assert(all[i as int] == args@[i as int]@);
        let (arg, inline) = split_flag(args[i].as_str());
        let f = Flag::of(arg.as_str());
        match f {
            Flag::Help => {
                return Ok(Parsed::Help(None));
            },
            Flag::Version => {
                return Ok(Parsed::Version);
            },
            Flag::Unknown => {
                return Err(at_argument(i, cat2("unknown option: ", arg.as_str())));
            },
            Flag::Positional => {
                let ghost t = arg@;
                o.positionals.push(arg);
                o.places.push(i);
                assert(o.model().places =~= before.places.push(i as int));
                assert(o.model().positionals =~= before.positionals.push(t));
                i += 1;
            },
            Flag::Explain => {
                o.explain = true;
                i += 1;
            },
            _ => {
                match inline {
                    Some(v) => {
                        match apply_value(&mut o, f, v) {
                            Ok(_) => {},
                            Err(e) => {
                                return Err(at_argument(i, e));
                            },
                        }
                        i += 1;
                    },
                    None => {
                        if args.len() - i < 2 {
                            return Err(at_argument(i, cat2("missing value for ", arg.as_str())));
                        }
                        assert(all[i + 1] == args@[i + 1]@);
                        match apply_value(&mut o, f, args[i + 1].clone()) {
                            Ok(_) => {},
                            Err(e) => {
                                return Err(at_argument(i + 1, e));
                            },
                        }
                        i += 2;
                    },
                }
            },
        }
    }
    finish(o, cores)
}

} // verus!
