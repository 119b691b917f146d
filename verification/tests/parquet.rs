use csvm::field::{Field, Num};
use csvm::parquet::{
    BATCH_ROWS, Batch, Cell, Column, DataKind, ParquetReader, read_header, supported, unopened,
};

fn column(name: &str, kind: DataKind, shown: &str) -> Column {
    Column {
        name: name.to_string(),
        kind,
        shown: shown.to_string(),
    }
}

fn schema() -> Vec<Column> {
    vec![
        column("id", DataKind::Int64, "Int64"),
        column("name", DataKind::Utf8, "Utf8"),
        column("amount", DataKind::Float64, "Float64"),
        column("flag", DataKind::Boolean, "Boolean"),
    ]
}

fn number(v: f64) -> Cell {
    Cell::Number(Num {
        bits: v.to_bits(),
        text: v.to_string(),
    })
}

fn text(s: &str) -> Cell {
    Cell::Text(s.to_string())
}

fn batch() -> Batch {
    Batch {
        cols: vec![
            vec![number(1.0), number(2.0), number(3.0)],
            vec![text("a"), Cell::Null, text("c")],
            vec![number(5.0), number(20.0), number(15.0)],
            vec![Cell::Bool(true), Cell::Bool(false), Cell::Bool(true)],
        ],
        rows: 3,
    }
}

#[test]
fn reads_schema_header_and_typed_rows() {
    assert_eq!(
        read_header(&schema()).unwrap(),
        ["id", "name", "amount", "flag"]
    );
    let reader = ParquetReader::open(schema()).unwrap();
    let rows = reader.next_batch(Ok(batch())).unwrap();
    // Numeric columns decode to Field::Num; a null is the empty string;
    // booleans render t/f.
    assert!(matches!(&rows[0][0], Field::Num(n) if f64::from_bits(n.bits) == 1.0)); // id
    assert!(matches!(&rows[1][1], Field::Str(s) if s.is_empty())); // null name
    assert!(matches!(&rows[1][2], Field::Num(n) if f64::from_bits(n.bits) == 20.0)); // amount
    assert_eq!(rows[0][3].as_str(), "t"); // flag true
    assert_eq!(rows[1][3].as_str(), "f"); // flag false
    let cells: Vec<Vec<&str>> = rows
        .iter()
        .map(|r| r.iter().map(|f| f.as_str()).collect())
        .collect();
    assert_eq!(
        cells,
        vec![
            vec!["1", "a", "5", "t"],
            vec!["2", "", "20", "f"],
            vec!["3", "c", "15", "t"],
        ]
    );
}

#[test]
fn unsupported_column_type_errors_by_name() {
    let columns = vec![column(
        "ts",
        DataKind::Timestamp,
        "Timestamp(Millisecond, None)",
    )];
    let err = read_header(&columns).unwrap_err().message();
    assert!(err.contains("ts") && err.contains("unsupported"), "{err}");
    assert_eq!(
        err,
        "parquet column 'ts' has unsupported type Timestamp(Millisecond, None) \
         (only flat int/float/string/bool columns are supported)"
    );
    assert!(ParquetReader::open(columns).is_err());
    assert!(supported(DataKind::LargeUtf8));
    assert!(!supported(DataKind::Float16));
}

#[test]
fn a_batch_of_no_rows_is_no_rows() {
    let reader = ParquetReader::open(schema()).unwrap();
    let empty = Batch {
        cols: vec![vec![], vec![], vec![], vec![]],
        rows: 0,
    };
    assert!(reader.next_batch(Ok(empty)).unwrap().is_empty());
    assert_eq!(BATCH_ROWS, 8192);
}

#[test]
fn what_went_wrong_is_said() {
    let reader = ParquetReader::open(schema()).unwrap();
    assert_eq!(
        reader
            .next_batch(Err("bad page".to_string()))
            .unwrap_err()
            .message(),
        "parquet read error: bad page"
    );
    assert_eq!(
        unopened("x.parquet", "no footer").message(),
        "cannot read parquet 'x.parquet': no footer"
    );
}
