use csvm::cli::{
    Args, ColorWhen, DEFAULT_CHUNK_SIZE, DEFAULT_SORT_BUFFER, Header, InputFormat, MAX_THREADS,
    Parsed, Usage, parse_at, parse_size, resolve_threads,
};

const CORES: usize = 8;

fn parse(parts: &[&str]) -> Result<Parsed, String> {
    csvm::cli::parse(parts.iter().map(|s| s.to_string()).collect(), CORES)
}

fn args(parts: &[&str]) -> Result<Args, String> {
    match parse(parts)? {
        Parsed::Run(a) => Ok(*a),
        Parsed::Help(_) => Err("help".into()),
        Parsed::Version => Err("version".into()),
    }
}

#[test]
fn version_flag() {
    assert!(matches!(parse(&["-V"]), Ok(Parsed::Version)));
    assert!(matches!(parse(&["--version"]), Ok(Parsed::Version)));
}

#[test]
fn defaults_and_script() {
    let a = args(&["cols a"]).unwrap();
    assert_eq!(a.script, "cols a");
    assert_eq!(a.in_file, None);
    assert!(a.threads >= 1);
    assert_eq!(a.chunk_size, DEFAULT_CHUNK_SIZE);
    assert!(!a.explain);
}

#[test]
fn flags_parse() {
    let a = args(&["-o", "out.csv", "-n", "4", "--explain", "sort x"]).unwrap();
    // The old spelling is gone.
    assert!(parse(&["--print-engine", "sort x"]).is_err());
    assert_eq!(a.out_file.as_deref(), Some("out.csv"));
    assert_eq!(a.threads, 4);
    assert!(a.explain);
    assert_eq!(a.script, "sort x");
    assert_eq!(a.in_file, None); // no input positional -> stdin
}

#[test]
fn long_flag_equals_value() {
    // GNU `--flag=value` form, alongside `--flag value`.
    let a = args(&["--threads=3", "--color=always", "--output=o.csv", "cols a"]).unwrap();
    assert_eq!(a.threads, 3);
    assert_eq!(a.color, ColorWhen::Always);
    assert_eq!(a.out_file.as_deref(), Some("o.csv"));
    // The value keeps any further `=` (split on the first only).
    assert_eq!(
        args(&["--output=a=b.csv", "cols a"])
            .unwrap()
            .out_file
            .as_deref(),
        Some("a=b.csv")
    );
    // A bad value still errors through the same path.
    assert!(parse(&["--color=bogus", "cols a"]).is_err());
}

#[test]
fn positional_input_file() {
    // `csvm SCRIPT INPUT` (awk-style): script first, input second.
    let a = args(&["select x > 1", "data.csv"]).unwrap();
    assert_eq!(a.script, "select x > 1");
    assert_eq!(a.in_file.as_deref(), Some("data.csv"));
    // Flags may surround the positionals.
    let a = args(&["-n", "4", "cols a", "data.csv"]).unwrap();
    assert_eq!(a.script, "cols a");
    assert_eq!(a.in_file.as_deref(), Some("data.csv"));
    assert_eq!(a.threads, 4);
    // A bare '-' input means stdin.
    assert_eq!(
        args(&["cols a", "-"]).unwrap().in_file.as_deref(),
        Some("-")
    );
}

#[test]
fn size_suffixes() {
    assert_eq!(
        args(&["--sort-buffer", "256M", "cols a"])
            .unwrap()
            .sort_buffer,
        256 << 20
    );
    assert_eq!(
        args(&["--chunk-size", "2g", "cols a"]).unwrap().chunk_size,
        2 << 30
    );
    assert_eq!(
        args(&["--chunk-size", "4096", "cols a"])
            .unwrap()
            .chunk_size,
        4096
    );
    // non-positive falls back to the default; garbage errors.
    assert_eq!(
        args(&["--chunk-size", "0", "cols a"]).unwrap().chunk_size,
        DEFAULT_CHUNK_SIZE
    );
    assert!(parse(&["--chunk-size", "5x", "cols a"]).is_err());
}

#[test]
fn header_flag() {
    assert_eq!(args(&["cols a"]).unwrap().header, None);
    assert_eq!(
        args(&["--header", "a, b", "cols a"]).unwrap().header,
        Some(Header::Named(vec!["a".into(), "b".into()]))
    );
    assert_eq!(
        args(&["--header=a,b", "cols a"]).unwrap().header,
        Some(Header::Named(vec!["a".into(), "b".into()]))
    );
    // `-` (or nothing) auto-names the columns c1, c2, …
    assert_eq!(
        args(&["--header", "-", "cols c1"]).unwrap().header,
        Some(Header::Auto)
    );
    assert_eq!(
        args(&["--header", "", "cols c1"]).unwrap().header,
        Some(Header::Auto)
    );
    assert!(args(&["--header", "a,,b", "cols a"]).is_err());
    // Quoted like a header line, so a name may hold a comma.
    assert_eq!(
        args(&["--header", "\"last, first\",n", "cols n"])
            .unwrap()
            .header,
        Some(Header::Named(vec!["last, first".into(), "n".into()]))
    );
    // The old flag is gone.
    assert!(args(&["--no-header", "cols c1"]).is_err());
}

#[test]
fn long_form_flags() {
    let a = args(&["--threads", "3", "--output", "o.csv", "cols a", "in.csv"]).unwrap();
    assert_eq!(a.threads, 3);
    assert_eq!(a.out_file.as_deref(), Some("o.csv"));
    assert_eq!(a.script, "cols a");
    assert_eq!(a.in_file.as_deref(), Some("in.csv"));
}

#[test]
fn threads_default_to_the_core_count_and_clamp_to_one() {
    assert_eq!(resolve_threads(None, 8), 8);
    assert_eq!(resolve_threads(None, 1), 1);
    assert_eq!(resolve_threads(Some(4), 1), 4);
    assert_eq!(resolve_threads(Some(0), 8), 1);
    assert_eq!(resolve_threads(Some(-3), 8), 1);
    assert_eq!(resolve_threads(Some(1 << 40), 8), MAX_THREADS);
    assert_eq!(resolve_threads(Some(i64::MAX), 8), MAX_THREADS);
    assert_eq!(args(&["-n", "0", "cols a"]).unwrap().threads, 1);
    assert_eq!(args(&["-n", "-3", "cols a"]).unwrap().threads, 1);
}

#[test]
fn errors() {
    assert!(parse(&["--nope", "cols a"]).is_err()); // unknown option
    assert!(parse(&[]).is_err()); // no script
    // A third positional beyond SCRIPT and INPUT is an error.
    assert!(parse(&["s", "in.csv", "extra"]).is_err());
}

#[test]
fn script_file_flag() {
    // With -f, the script comes from the file and the positional is the input.
    let a = args(&["-f", "prog.csvm", "data.csv"]).unwrap();
    assert_eq!(a.script_file.as_deref(), Some("prog.csvm"));
    assert_eq!(a.in_file.as_deref(), Some("data.csv"));
    assert_eq!(a.script, "");
    // -f with no input -> stdin.
    let a = args(&["--file", "prog.csvm"]).unwrap();
    assert_eq!(a.in_file, None);
    // Without -f, a script is still required.
    assert!(parse(&[]).is_err());
}

#[test]
fn help_takes_a_topic() {
    assert!(matches!(parse(&["help"]), Ok(Parsed::Help(None))));
    assert!(matches!(parse(&["help", "join"]), Ok(Parsed::Help(Some(t))) if t == "join"));
    assert!(matches!(parse(&["--help"]), Ok(Parsed::Help(_))));
}

#[test]
fn formats_and_colours_are_named() {
    assert_eq!(
        args(&["--format", "parquet", "cols a"]).unwrap().format,
        Some(InputFormat::Parquet)
    );
    assert_eq!(
        args(&["--format=csv", "cols a"]).unwrap().format,
        Some(InputFormat::Csv)
    );
    assert!(args(&["--format", "xml", "cols a"]).is_err());
    assert_eq!(args(&["cols a"]).unwrap().color, ColorWhen::Auto);
    assert_eq!(
        args(&["--color", "never", "cols a"]).unwrap().color,
        ColorWhen::Never
    );
    assert_eq!(args(&["cols a"]).unwrap().sort_buffer, DEFAULT_SORT_BUFFER);
    assert_eq!(args(&["cols a"]).unwrap().threads, CORES);
}

#[test]
fn sizes_are_read_to_the_byte() {
    assert_eq!(parse_size("1K", "--chunk-size"), Ok(1024));
    assert_eq!(parse_size("3m", "--chunk-size"), Ok(3 << 20));
    assert_eq!(parse_size("7", "--chunk-size"), Ok(7));
    assert!(parse_size("", "--chunk-size").is_err());
    // A size that does not fit is an error, not a wrapped number.
    assert!(parse_size("9223372036854775807G", "--chunk-size").is_err());
}

#[test]
fn a_flag_without_its_value_is_an_error() {
    assert!(parse(&["-o"]).is_err());
    assert!(parse(&["-n", "x", "cols a"]).is_err());
}

fn refused(parts: &[&str]) -> Usage {
    match parse_at(parts.iter().map(|s| s.to_string()).collect(), CORES) {
        Err(usage) => usage,
        Ok(p) => panic!("{p:?}"),
    }
}

fn usage(arg: Option<usize>, whole_line: bool, message: &str) -> Usage {
    Usage {
        arg,
        whole_line,
        message: message.to_string(),
    }
}

#[test]
fn the_script_is_at_its_place_among_the_arguments() {
    assert_eq!(args(&["cols a"]).unwrap().script_at, Some(0));
    assert_eq!(args(&["-n", "2", "cols a"]).unwrap().script_at, Some(2));
    // The value of an option may read like the script.
    let a = args(&["-o", "cols a", "--explain", "cols a", "in.csv"]).unwrap();
    assert_eq!((a.script_at, a.script.as_str()), (Some(3), "cols a"));
    assert_eq!(args(&["-f", "p.csvm", "in.csv"]).unwrap().script_at, None);
}

#[test]
fn a_usage_error_says_which_argument_it_is_about() {
    assert_eq!(
        refused(&["cols a", "--colr"]),
        usage(Some(1), false, "unknown option: --colr")
    );
    assert_eq!(
        refused(&["cols a", "-n", "many"]),
        usage(Some(2), false, "invalid threads value: many")
    );
    assert_eq!(
        refused(&["cols a", "--format=xml"]),
        usage(Some(1), false, "invalid --format value: xml (csv|parquet)")
    );
    assert_eq!(
        refused(&["cols a", "-o"]),
        usage(Some(1), false, "missing value for -o")
    );
    assert_eq!(
        refused(&["-n", "2"]),
        usage(None, true, "no script given")
    );
    assert_eq!(
        refused(&["cols a", "x.csv", "-n", "2", "y.csv"]),
        usage(Some(4), true, "too many arguments (expected [SCRIPT] [INPUT])")
    );
    assert_eq!(
        refused(&["-f", "p.csvm", "x.csv", "y.csv"]),
        usage(Some(3), true, "too many arguments (expected [SCRIPT] [INPUT])")
    );
    assert_eq!(
        refused(&["help", "fmt", "extra"]),
        usage(Some(2), true, "usage: csvm help [COMMAND|TOPIC]")
    );
}

#[test]
fn the_cores_set_the_threads_alone() {
    let on = |cores: usize| {
        let words = ["-o", "out.csv", "cols a", "in.csv"];
        match csvm::cli::parse(words.iter().map(|s| s.to_string()).collect(), cores) {
            Ok(Parsed::Run(a)) => *a,
            other => panic!("{other:?}"),
        }
    };
    let (one, six) = (on(1), on(6));
    assert_eq!((one.threads, six.threads), (1, 6));
    assert_eq!(format!("{one:?}"), format!("{six:?}").replace("threads: 6", "threads: 1"));
}
