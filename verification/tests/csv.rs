use csvm::csv::{encode_field, parse_chunk, parse_header, write_row, write_rows};
use csvm::field::{Field, Num};

fn rows(chunk: &str) -> Vec<Vec<String>> {
    parse_chunk(chunk)
        .iter()
        .map(|r| r.iter().map(|f| f.as_str().to_string()).collect())
        .collect()
}

fn text(s: &str) -> Field {
    Field::Str(s.to_string())
}

#[test]
fn plain_rows() {
    assert_eq!(
        rows("a,b,c\n1,2,3\n"),
        vec![vec!["a", "b", "c"], vec!["1", "2", "3"]]
    );
}

#[test]
fn no_trailing_newline() {
    assert_eq!(rows("1,2,3"), vec![vec!["1", "2", "3"]]);
}

#[test]
fn trailing_and_empty_fields() {
    assert_eq!(rows("a,,c\n"), vec![vec!["a", "", "c"]]);
    assert_eq!(rows("a,b,\n"), vec![vec!["a", "b", ""]]);
}

#[test]
fn crlf_line_endings() {
    assert_eq!(rows("a,b\r\n1,2\r\n"), vec![vec!["a", "b"], vec!["1", "2"]]);
}

#[test]
fn quoted_with_comma() {
    assert_eq!(rows(r#"a,"b,c",d"#), vec![vec!["a", "b,c", "d"]]);
}

#[test]
fn quoted_with_escaped_quote() {
    assert_eq!(
        rows(r#""he said ""hi""",x"#),
        vec![vec![r#"he said "hi""#, "x"]]
    );
}

#[test]
fn header_parsing() {
    assert_eq!(parse_header("A,B,C"), vec!["A", "B", "C"]);
    assert_eq!(
        parse_header(r#""first,name",age"#),
        vec!["first,name", "age"]
    );
}

#[test]
fn roundtrip_requoting() {
    // A field with a comma is re-quoted; a plain field is not.
    let mut buf = String::new();
    let number = Field::Num(Num {
        bits: 25.0_f64.to_bits(),
        text: "25".to_string(),
    });
    write_row(&mut buf, &[text("a,b"), text("plain"), number]);
    assert_eq!(buf, "\"a,b\",plain,25\n");
}

#[test]
fn roundtrip_escaped_quote() {
    let mut buf = String::new();
    write_row(&mut buf, &[text(r#"a"b"#)]);
    assert_eq!(buf, "\"a\"\"b\"\n");
}

#[test]
fn a_field_is_quoted_only_where_it_must_be() {
    assert_eq!(encode_field("plain"), "plain");
    assert_eq!(encode_field(""), "");
    assert_eq!(encode_field("a b"), "a b");
    assert_eq!(encode_field("a,b"), "\"a,b\"");
    assert_eq!(encode_field("a\rb"), "\"a\rb\"");
    assert_eq!(encode_field("say \"hi\""), "\"say \"\"hi\"\"\"");
}

#[test]
fn rows_read_back_as_written() {
    let given = vec![
        vec![text("a,b"), text("say \"hi\""), text("")],
        vec![text("1"), text("x\ry"), text("袋")],
    ];
    let written = write_rows(&given);
    let back = rows(&written);
    assert_eq!(
        back,
        vec![
            vec!["a,b", "say \"hi\"", ""],
            vec!["1", "x\ry", "袋"],
        ]
    );
}

#[test]
fn chunks_parse_apart() {
    let whole = "a,b\n\"c,d\",e\n1,2\n";
    let mut parts = rows("a,b\n\"c,d\",e\n");
    parts.extend(rows("1,2\n"));
    assert_eq!(rows(whole), parts);
    assert!(rows("").is_empty());
}
