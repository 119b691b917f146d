//! Parquet input: which columns can be read, and their batches as rows.
//!
//! Parquet carries its own typed schema, so numeric columns are numbers from the
//! start and column names come from the schema. Only flat primitive columns can
//! be read (int, float, string, bool); others are refused by name.

use crate::error::Error;
use crate::field::{Field, FieldV, Num, Row, row_view, rows_view};
use crate::text::texts;
use vstd::prelude::*;

verus! {

/// How many rows are decoded at a time.
pub const BATCH_ROWS: usize = 8192;

/// The type of a column.
#[derive(Clone, Copy, Debug, PartialEq, Eq, Structural)]
pub enum DataKind {
    Null,
    Boolean,
    Int8,
    Int16,
    Int32,
    Int64,
    UInt8,
    UInt16,
    UInt32,
    UInt64,
    Float16,
    Float32,
    Float64,
    Timestamp,
    Date32,
    Date64,
    Time32,
    Time64,
    Duration,
    Interval,
    Binary,
    FixedSizeBinary,
    LargeBinary,
    BinaryView,
    Utf8,
    LargeUtf8,
    Utf8View,
    List,
    ListView,
    FixedSizeList,
    LargeList,
    LargeListView,
    Struct,
    Union,
    Dictionary,
    Decimal,
    KeyValue,
    RunEndEncoded,
}

/// A column of the schema: its name, its type, and how the type is shown.
#[derive(Debug)]
pub struct Column {
    pub name: String,
    pub kind: DataKind,
    pub shown: String,
}

/// Whether a column of this type can be read: a flat boolean, integer, float or
/// string.
pub open spec fn readable(kind: DataKind) -> bool {
    ||| kind == DataKind::Boolean
    ||| kind == DataKind::Int8
    ||| kind == DataKind::Int16
    ||| kind == DataKind::Int32
    ||| kind == DataKind::Int64
    ||| kind == DataKind::UInt8
    ||| kind == DataKind::UInt16
    ||| kind == DataKind::UInt32
    ||| kind == DataKind::UInt64
    ||| kind == DataKind::Float32
    ||| kind == DataKind::Float64
    ||| kind == DataKind::Utf8
    ||| kind == DataKind::LargeUtf8
}

/// Whether a column of this type can be read.
pub fn supported(kind: DataKind) -> (r: bool)
    ensures
        r == readable(kind),
{
    match kind {
        DataKind::Boolean
        | DataKind::Int8
        | DataKind::Int16
        | DataKind::Int32
        | DataKind::Int64
        | DataKind::UInt8
        | DataKind::UInt16
        | DataKind::UInt32
        | DataKind::UInt64
        | DataKind::Float32
        | DataKind::Float64
        | DataKind::Utf8
        | DataKind::LargeUtf8 => true,
        _ => false,
    }
}

/// The first column, from `k` on, that cannot be read.
pub open spec fn unreadable(columns: Seq<Column>, k: int) -> Option<int>
    decreases columns.len() - k,
{
    if k >= columns.len() {
        None
    } else if !readable(columns[k].kind) {
        Some(k)
    } else {
        unreadable(columns, k + 1)
    }
}

/// What is said of a column that cannot be read.
pub open spec fn refusal(c: Column) -> Seq<char> {
    "parquet column '"@ + c.name@ + "' has unsupported type "@ + c.shown@
        + " (only flat int/float/string/bool columns are supported)"@
}

/// The names of the columns.
pub open spec fn names_of(columns: Seq<Column>) -> Seq<Seq<char>> {
    columns.map_values(|c: Column| c.name@)
}

/// Reject any column that cannot be read, naming it and its type.
pub fn validate_schema(columns: &[Column]) -> (r: Result<(), Error>)
    ensures
        match unreadable(columns@, 0) {
            None => r is Ok,
            Some(i) => r matches Err(e) && e is Other && e.said() == refusal(columns@[i]),
        },
{
    let mut i: usize = 0;
    while i < columns.len()
        invariant
            i <= columns@.len(),
            unreadable(columns@, 0) == unreadable(columns@, i as int),
        decreases columns@.len() - i,
    {
        if !supported(columns[i].kind) {
            let mut m = "parquet column '".to_string();
            m.append(columns[i].name.as_str());
            m.append("' has unsupported type ");
            m.append(columns[i].shown.as_str());
            m.append(" (only flat int/float/string/bool columns are supported)");
            return Err(Error::Other(m));
        }
        i += 1;
    }
    Ok(())
}

/// The column names of the schema, where every column can be read.
pub fn read_header(columns: &[Column]) -> (r: Result<Vec<String>, Error>)
    ensures
        match unreadable(columns@, 0) {
            None => r matches Ok(names) && texts(names@) == names_of(columns@),
            Some(i) => r matches Err(e) && e is Other && e.said() == refusal(columns@[i]),
        },
{
    match validate_schema(columns) {
        Err(e) => return Err(e),
        Ok(()) => {},
    }
    let mut names: Vec<String> = Vec::new();
    let mut i: usize = 0;
    while i < columns.len()
        invariant
            i <= columns@.len(),
            texts(names@) == names_of(columns@).take(i as int),
        decreases columns@.len() - i,
    {
        let ghost before = names@;
        names.push(columns[i].name.clone());
        assert(texts(names@) =~= texts(before).push(columns@[i as int].name@));
        assert(names_of(columns@).take(i + 1) =~= names_of(columns@).take(i as int).push(
            columns@[i as int].name@,
        ));
        i += 1;
    }
    assert(names_of(columns@).take(i as int) =~= names_of(columns@));
    Ok(names)
}

/// A cell of a column.
#[derive(Debug)]
pub enum Cell {
    Null,
    Bool(bool),
    Number(Num),
    Text(String),
}

/// The field that a cell becomes: a null is the empty string, as an empty cell of
/// CSV is; a boolean is `t` or `f`.
pub open spec fn cell_field(c: Cell) -> FieldV {
    match c {
        Cell::Null => FieldV::Str(seq![]),
        Cell::Bool(true) => FieldV::Str(seq!['t']),
        Cell::Bool(false) => FieldV::Str(seq!['f']),
        Cell::Number(n) => FieldV::Num(n@),
        Cell::Text(s) => FieldV::Str(s@),
    }
}

/// One cell as a field.
pub fn field_at(c: &Cell) -> (r: Field)
    ensures
        r@ == cell_field(*c),
{
    proof {
        reveal_strlit("");
        reveal_strlit("t");
        reveal_strlit("f");
    }
    match c {
        Cell::Null => {
            assert(""@ =~= seq![]);
            Field::Str("".to_string())
        },
        Cell::Bool(b) => if *b {
            assert("t"@ =~= seq!['t']);
            Field::Str("t".to_string())
        } else {
            assert("f"@ =~= seq!['f']);
            Field::Str("f".to_string())
        },
        Cell::Number(n) => Field::Num(n.clone()),
        Cell::Text(s) => Field::Str(s.clone()),
    }
}

/// Row `r` of the columns.
pub open spec fn row_of(cols: Seq<Vec<Cell>>, r: int) -> Seq<FieldV> {
    Seq::new(cols.len(), |c: int| cell_field(cols[c]@[r]))
}

/// The columns turned into rows: `n` of them, each with a cell of every column.
pub open spec fn transposed(cols: Seq<Vec<Cell>>, n: nat) -> Seq<Seq<FieldV>> {
    Seq::new(n, |r: int| row_of(cols, r))
}

/// The rows of a batch, whose columns have `n` cells each.
pub fn batch_to_rows(cols: &[Vec<Cell>], n: usize) -> (rows: Vec<Row>)
    requires
        forall|c: int| 0 <= c < cols@.len() ==> (#[trigger] cols@[c])@.len() == n,
    ensures
        rows_view(rows@) == transposed(cols@, n as nat),
{
    let mut rows: Vec<Row> = Vec::new();
    let mut r: usize = 0;
    while r < n
        invariant
            r <= n,
            forall|c: int| 0 <= c < cols@.len() ==> (#[trigger] cols@[c])@.len() == n,
            rows_view(rows@) == transposed(cols@, r as nat),
        decreases n - r,
    {
        let mut row: Row = Vec::new();
        let mut c: usize = 0;
        while c < cols.len()
            invariant
                c <= cols@.len(),
                r < n,
                forall|c: int| 0 <= c < cols@.len() ==> (#[trigger] cols@[c])@.len() == n,
                row_view(row@) == row_of(cols@, r as int).take(c as int),
            decreases cols@.len() - c,
        {
            let ghost before = row@;
            let f = field_at(&cols[c][r]);
            row.push(f);
            assert(row_view(row@) =~= row_view(before).push(row_of(cols@, r as int)[c as int]));
            assert(row_of(cols@, r as int).take(c + 1) =~= row_of(cols@, r as int).take(
                c as int,
            ).push(row_of(cols@, r as int)[c as int]));
            c += 1;
        }
        assert(row_of(cols@, r as int).take(c as int) =~= row_of(cols@, r as int));
        let ghost before = rows@;
        rows.push(row);
        assert(rows_view(rows@) =~= rows_view(before).push(row_of(cols@, r as int)));
        assert(transposed(cols@, (r + 1) as nat) =~= transposed(cols@, r as nat).push(
            row_of(cols@, r as int),
        ));
        r += 1;
    }
    rows
}

/// A batch as it was decoded: its columns' cells, and how many rows it has.
#[derive(Debug)]
pub struct Batch {
    pub cols: Vec<Vec<Cell>>,
    pub rows: usize,
}

impl Batch {
    /// Whether every column has a cell for each row.
    pub open spec fn wf(&self) -> bool {
        forall|c: int| 0 <= c < self.cols@.len() ==> (#[trigger] self.cols@[c])@.len() == self.rows
    }
}

/// A file that is read batch by batch, every column of which can be read.
#[derive(Debug)]
pub struct ParquetReader {
    columns: Vec<Column>,
}

impl ParquetReader {
    /// The columns of the file.
    pub closed spec fn schema(&self) -> Seq<Column> {
        self.columns@
    }

    /// A reader of a file with these columns, or what is said of the first that
    /// cannot be read.
    pub fn open(columns: Vec<Column>) -> (r: Result<ParquetReader, Error>)
        ensures
            match unreadable(columns@, 0) {
                None => r matches Ok(p) && p.schema() == columns@,
                Some(i) => r matches Err(e) && e is Other && e.said() == refusal(columns@[i]),
            },
    {
        match validate_schema(columns.as_slice()) {
            Ok(()) => Ok(ParquetReader { columns }),
            Err(e) => Err(e),
        }
    }

    /// The next batch as rows, from what decoding it came to.
    pub fn next_batch(&self, batch: Result<Batch, String>) -> (r: Result<Vec<Row>, Error>)
        requires
            batch matches Ok(b) ==> b.wf(),
        ensures
            match batch {
                Ok(b) => r matches Ok(rows) && rows_view(rows@) == transposed(
                    b.cols@,
                    b.rows as nat,
                ),
                Err(m) => r matches Err(e) && e is Other && e.said() == "parquet read error: "@
                    + m@,
            },
    {
        match batch {
            Ok(b) => Ok(batch_to_rows(b.cols.as_slice(), b.rows)),
            Err(m) => Err(Error::Other(crate::text::cat2("parquet read error: ", m.as_str()))),
        }
    }
}

/// What is said of a file that cannot be opened as parquet.
pub fn unopened(path: &str, why: &str) -> (r: Error)
    ensures
        r is Other,
        r.said() == "cannot read parquet '"@ + path@ + "': "@ + why@,
{
    Error::Other(crate::text::cat4("cannot read parquet '", path, "': ", why))
}

/// Every cell is in the row and the column that it was in.
pub proof fn law_a_batch_keeps_its_cells(b: Batch, r: int, c: int)
    requires
        b.wf(),
        0 <= r < b.rows,
        0 <= c < b.cols@.len(),
    ensures
        transposed(b.cols@, b.rows as nat).len() == b.rows,
        transposed(b.cols@, b.rows as nat)[r].len() == b.cols@.len(),
        transposed(b.cols@, b.rows as nat)[r][c] == cell_field(b.cols@[c]@[r]),
{
}

} // verus!
