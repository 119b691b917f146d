use csvm::cli::{Args, Header, InputFormat, Parsed, parse};
use csvm::plan::{OutputFormat, Plan};
use csvm::source::{first_fields, input_format, parquet_path, renders, usage_error};

fn strings(names: &[&str]) -> Vec<String> {
    names.iter().map(|n| n.to_string()).collect()
}

fn args(parts: &[&str]) -> Args {
    match parse(strings(parts), 1) {
        Ok(Parsed::Run(a)) => *a,
        _ => panic!("a run"),
    }
}

#[test]
fn the_extension_says_the_format_unless_the_flag_does() {
    assert_eq!(input_format(None, Some("parquet")), InputFormat::Parquet);
    assert_eq!(input_format(None, Some("PARQUET")), InputFormat::Parquet);
    assert_eq!(input_format(None, Some("csv")), InputFormat::Csv);
    assert_eq!(input_format(None, None), InputFormat::Csv);
    assert_eq!(
        input_format(Some(InputFormat::Csv), Some("parquet")),
        InputFormat::Csv
    );
}

#[test]
fn parquet_needs_a_file_and_no_header() {
    assert_eq!(parquet_path(&args(&["fmt", "x.parquet"])), Ok("x.parquet"));
    assert_eq!(
        parquet_path(&args(&["fmt"])).unwrap_err(),
        "parquet input must be a seekable file, not stdin"
    );
    assert_eq!(
        parquet_path(&args(&["--header", "a", "fmt", "x.parquet"])).unwrap_err(),
        "--header doesn't apply to parquet input (it carries a typed schema)"
    );
}

#[test]
fn the_first_line_is_the_header_unless_the_columns_are_named() {
    let first = || strings(&["x", "y"]);
    assert_eq!(Header::resolve(None, first(), 7), (first(), 7));
    assert_eq!(
        Header::resolve(Some(&Header::Auto), first(), 7),
        (strings(&["c1", "c2"]), 0)
    );
    assert_eq!(
        Header::resolve(Some(&Header::Named(strings(&["a"]))), first(), 7),
        (strings(&["a"]), 0)
    );
}

#[test]
fn the_first_line_of_a_stream_is_read() {
    assert_eq!(first_fields(b"a,b\n").unwrap(), ["a", "b"]);
    assert_eq!(
        first_fields(b"").unwrap_err(),
        "input is empty (no header line)"
    );
    assert!(
        first_fields(&[0xff])
            .unwrap_err()
            .starts_with("input is not valid UTF-8: ")
    );
}

#[test]
fn a_table_is_drawn_from_all_of_its_rows() {
    let plain = Plan::of(vec![]);
    assert!(!renders(&plain, true));
    let table = Plan {
        output: OutputFormat::Aligned,
        ..plain
    };
    assert!(renders(&table, false));
}

#[test]
fn a_usage_error_shows_how_to_call() {
    let m = usage_error("unknown option '--x'");
    assert!(m.starts_with("unknown option '--x'\n\nusage: csvm "), "{m}");
    assert!(
        m.ends_with("\nrun `csvm --help` for options, `csvm help CMD` for a command"),
        "{m}"
    );
}
