//! The execution plan: what a script compiles to, and what each of its
//! statements does to a row.

use crate::color::{Ramp, Style};
use crate::field::{
    Field, FieldV, Num, NumError, NumV, Rank, Readings, Row, cell_at, cell_or_empty, rank,
    rank_bits, row_view,
};
use crate::outside::{regex_found, regex_search};
use crate::text::{ends_with, has_prefix, has_suffix, less, lex_lt, same, starts_with};
use vstd::prelude::*;

verus! {

/// A column, by the name it was written with and the position it resolved to.
#[derive(Debug)]
pub struct ColRef {
    pub name: String,
    pub pos: usize,
}

impl ColRef {
    /// A column that has not been resolved yet.
    pub fn new(name: String) -> (r: Self)
        ensures
            r.name == name,
            r.pos == 0,
    {
        ColRef { name, pos: 0 }
    }
}

/// A number written in a script: what it is, and the shortest decimal text that reads
/// back as it, by which a plan shows it.
#[derive(Debug)]
pub struct Literal {
    pub num: Num,
    pub shown: String,
}

/// What a [`Literal`] is in contracts.
pub struct LiteralV {
    pub num: NumV,
    pub shown: Seq<char>,
}

impl View for Literal {
    type V = LiteralV;

    open spec fn view(&self) -> LiteralV {
        LiteralV { num: self.num@, shown: self.shown@ }
    }
}

impl Clone for Literal {
    fn clone(&self) -> (r: Self)
        ensures
            r@ == self@,
    {
        Literal { num: self.num.clone(), shown: self.shown.clone() }
    }
}

/// One side of a comparison.
#[derive(Debug)]
pub enum Operand {
    Col(ColRef),
    Str(String),
    Num(Literal),
}

/// A comparison operator.
#[derive(Clone, Copy, Debug, PartialEq, Eq, Structural)]
pub enum CmpOp {
    Eq,
    Ne,
    Lt,
    Gt,
    Le,
    Ge,
}

/// A comparison, of numbers or of texts.
#[derive(Debug)]
pub struct Cmp {
    pub op: CmpOp,
    pub lhs: Operand,
    pub rhs: Operand,
    pub numeric: bool,
}

/// Where a literal has to stand in a cell.
#[derive(Clone, Copy, Debug, PartialEq, Eq, Structural)]
pub enum AffixKind {
    Begins,
    Contains,
    Ends,
}

/// A condition on a row.
#[derive(Debug)]
pub enum BoolExpr {
    And(Vec<BoolExpr>),
    Or(Vec<BoolExpr>),
    Not(Box<BoolExpr>),
    Cmp(Cmp),
    Match { col: ColRef, pattern: String, negate: bool },
    Affix { col: ColRef, needle: String, kind: AffixKind },
}

/// An arithmetic operator.
#[derive(Clone, Copy, Debug, PartialEq, Eq, Structural)]
pub enum ArithOp {
    Plus,
    Minus,
    Times,
    Over,
    Modulo,
}

/// A function of value expressions.
#[derive(Clone, Copy, Debug, PartialEq, Eq, Structural)]
pub enum Func {
    Round,
    Floor,
    Ceil,
    Abs,
    Int,
    Sqrt,
    Pow,
    Exp,
    Log,
    Log10,
    Log2,
    Sign,
    Min,
    Max,
    Len,
    Upper,
    Lower,
    Trim,
    Coalesce,
    Num,
    Str,
}

/// A value computed from a row.
#[derive(Debug)]
pub enum ValExpr {
    Col(ColRef),
    Num(Literal),
    Str(String),
    Neg(Box<ValExpr>),
    Arith { op: ArithOp, lhs: Box<ValExpr>, rhs: Box<ValExpr> },
    Concat(Vec<ValExpr>),
    Func(Func, Vec<ValExpr>),
    Bool(Box<BoolExpr>),
    Cond { test: Box<BoolExpr>, then_: Box<ValExpr>, else_: Box<ValExpr> },
    Prev(ColRef),
    Rownum,
}

/// `cols`: the columns to keep, in order, by the positions they resolved to.
#[derive(Debug)]
pub struct ProjectStmt {
    pub exclude: bool,
    pub names: Vec<String>,
    pub positions: Vec<usize>,
}

/// `to-num` and `to-str`: the columns to convert.
#[derive(Debug)]
pub struct ConvStmt {
    pub names: Vec<String>,
    pub positions: Vec<usize>,
}

/// `rename`: old and new names.
#[derive(Debug)]
pub struct RenameStmt {
    pub pairs: Vec<(String, String)>,
}

/// `add`: a computed column, put in place of the one at `pos` or appended.
#[derive(Debug)]
pub struct AddStmt {
    pub name: String,
    pub pos: Option<usize>,
    pub expr: ValExpr,
}

/// A statement that takes one row to at most one row.
#[derive(Debug)]
pub enum Stmt {
    Cols(ProjectStmt),
    Select(BoolExpr),
    ToNum(ConvStmt),
    ToStr(ConvStmt),
    Rename(RenameStmt),
    Add(AddStmt),
}

/// One key of a sort.
#[derive(Debug)]
pub struct SortKey {
    pub name: String,
    pub pos: usize,
    pub descending: bool,
    pub numeric: bool,
}

/// `sort`: its keys, the first one foremost.
#[derive(Debug)]
pub struct SortStmt {
    pub keys: Vec<SortKey>,
}

/// `uniq`: the key columns, none for the whole row.
#[derive(Debug)]
pub struct UniqStmt {
    pub cols: Vec<String>,
    pub positions: Vec<usize>,
}

/// `stats`: the columns to profile.
#[derive(Debug)]
pub struct StatsStmt {
    pub names: Vec<String>,
    pub positions: Vec<usize>,
}

/// An aggregate function.
#[derive(Clone, Copy, Debug, PartialEq, Eq, Structural)]
pub enum AggFunc {
    Count,
    Sum,
    Min,
    Max,
    Mean,
    Stddev,
}

/// One aggregate: its output name, and the column it is of (none for a bare
/// `count`).
#[derive(Debug)]
pub struct AggSpec {
    pub name: String,
    pub func: AggFunc,
    pub col: Option<String>,
    pub pos: Option<usize>,
}

/// `group … | agg …`.
#[derive(Debug)]
pub struct GroupStmt {
    pub keys: Vec<String>,
    pub key_positions: Vec<usize>,
    pub aggs: Vec<AggSpec>,
}

/// Which unmatched rows a join keeps.
#[derive(Clone, Copy, Debug, PartialEq, Eq, Structural)]
pub enum JoinType {
    Inner,
    Left,
    Right,
    Full,
}

/// `join`: a right side and how its rows meet the left ones.
#[derive(Debug)]
pub struct JoinStmt {
    pub join_type: JoinType,
    pub file: String,
    /// The key columns' names, left and right.
    pub keys: Vec<(String, String)>,
    pub left_key_pos: Vec<usize>,
    pub right_key_pos: Vec<usize>,
    pub right_emit_pos: Vec<usize>,
    pub left_ncols: usize,
    pub right_plan: Plan,
    pub right_header: Vec<String>,
}

/// A step of a plan that takes all rows to all rows.
#[derive(Debug)]
pub enum Stage {
    Transform(Vec<Stmt>),
    Sort(SortStmt),
    Head(usize),
    Tail(usize),
    DropLast(usize),
    Uniq(UniqStmt),
    Stats(StatsStmt),
    Group(GroupStmt),
    Join(JoinStmt),
}

/// How the output is written.
#[derive(Clone, Copy, Debug, PartialEq, Eq, Structural)]
pub enum OutputFormat {
    Csv,
    Aligned,
}

/// What a colour rule paints.
#[derive(Debug)]
pub enum ColorScope {
    Row,
    Cell(ColRef),
}

/// A colour rule.
#[derive(Debug)]
pub enum ColorRule {
    Predicate { scope: ColorScope, style: Style, expr: BoolExpr },
    Gradient { col: ColRef, ramp: Ramp, bounds: Option<(Literal, Literal)> },
}

/// A kind of chart.
#[derive(Clone, Copy, Debug, PartialEq, Eq, Structural)]
pub enum GraphKind {
    Hist,
    Bar,
    Spark,
    Scatter,
    Line,
    Heatmap,
}

/// A chart's options.
#[derive(Debug)]
pub struct GraphOpts {
    pub title: Option<String>,
    pub bins: Option<usize>,
    /// What the default size is multiplied by.
    pub scale: Num,
    pub svg: bool,
    /// Write the chart's data as CSV in place of drawing it.
    pub data: bool,
    /// The value axis is on a log scale.
    pub log: bool,
    /// Explicit axis ranges.
    pub xrange: Option<(Num, Num)>,
    pub yrange: Option<(Num, Num)>,
    /// The column that colours the points.
    pub color_by: Option<ColRef>,
}

/// A chart to draw in place of the rows.
#[derive(Debug)]
pub struct GraphSpec {
    pub kind: GraphKind,
    pub cols: Vec<ColRef>,
    pub opts: GraphOpts,
}

/// A compiled script.
#[derive(Debug)]
pub struct Plan {
    pub input_header: Option<Vec<String>>,
    pub stages: Vec<Stage>,
    pub output: OutputFormat,
    pub colors: Vec<ColorRule>,
    pub graph: Option<GraphSpec>,
}

impl Plan {
    /// A plan of these stages that writes plain CSV.
    pub fn of(stages: Vec<Stage>) -> (r: Self)
        ensures
            r.stages == stages,
            r.input_header is None,
            r.output == OutputFormat::Csv,
            r.colors@.len() == 0,
            r.graph is None,
    {
        Plan {
            input_header: None,
            stages,
            output: OutputFormat::Csv,
            colors: Vec::new(),
            graph: None,
        }
    }
}

impl JoinType {
    /// Whether the join keeps the left rows that nothing matches.
    pub open spec fn keeps_left(self) -> bool {
        self == JoinType::Left || self == JoinType::Full
    }

    /// Whether the join keeps the right rows that nothing matches.
    pub open spec fn keeps_right(self) -> bool {
        self == JoinType::Right || self == JoinType::Full
    }

    /// Whether a left row that nothing matches is kept.
    pub fn keeps_left_unmatched(self) -> (r: bool)
        ensures
            r == (self == JoinType::Left || self == JoinType::Full),
            r == self.keeps_left(),
    {
        match self {
            JoinType::Left | JoinType::Full => true,
            _ => false,
        }
    }

    /// Whether a right row that nothing matches is kept.
    pub fn keeps_right_unmatched(self) -> (r: bool)
        ensures
            r == (self == JoinType::Right || self == JoinType::Full),
            r == self.keeps_right(),
    {
        match self {
            JoinType::Right | JoinType::Full => true,
            _ => false,
        }
    }
}

/// The text of an operand on a row.
pub open spec fn operand_text(o: Operand, row: Seq<FieldV>) -> Seq<char> {
    match o {
        Operand::Col(c) => cell_or_empty(row, c.pos as int).text(),
        Operand::Str(s) => s@,
        Operand::Num(n) => n.num.text@,
    }
}

/// The number an operand is on a row, or the text that is none.
pub open spec fn operand_num(
    o: Operand,
    row: Seq<FieldV>,
    readings: Map<Seq<char>, NumV>,
) -> Result<NumV, Seq<char>> {
    let cell = match o {
        Operand::Col(c) => cell_or_empty(row, c.pos as int),
        Operand::Str(s) => FieldV::Str(s@),
        Operand::Num(n) => FieldV::Num(n.num@),
    };
    match cell.num_soft(readings) {
        Some(n) => Ok(n),
        None => Err(cell.text()),
    }
}

/// Whether the operator holds between two numbers that rank so.
pub open spec fn holds(op: CmpOp, r: Rank) -> bool {
    match op {
        CmpOp::Eq => r == Rank::Same,
        CmpOp::Ne => r != Rank::Same,
        CmpOp::Lt => r == Rank::Before,
        CmpOp::Gt => r == Rank::After,
        CmpOp::Le => r == Rank::Before || r == Rank::Same,
        CmpOp::Ge => r == Rank::After || r == Rank::Same,
    }
}

/// How two texts rank, in the order of their characters.
pub open spec fn text_rank(a: Seq<char>, b: Seq<char>) -> Rank {
    if a == b {
        Rank::Same
    } else if lex_lt(a, b) {
        Rank::Before
    } else {
        Rank::After
    }
}

/// Whether a comparison holds on a row: of numbers when it is numeric (a text
/// that is no number is the failure), else of texts.
pub open spec fn compares(
    c: Cmp,
    row: Seq<FieldV>,
    readings: Map<Seq<char>, NumV>,
) -> Result<bool, Seq<char>> {
    if c.numeric {
        match operand_num(c.lhs, row, readings) {
            Err(e) => Err(e),
            Ok(a) => match operand_num(c.rhs, row, readings) {
                Err(e) => Err(e),
                Ok(b) => Ok(holds(c.op, rank(a.bits, b.bits))),
            },
        }
    } else {
        Ok(holds(c.op, text_rank(operand_text(c.lhs, row), operand_text(c.rhs, row))))
    }
}

/// Whether `needle` occurs in `s`.
pub open spec fn occurs(s: Seq<char>, needle: Seq<char>) -> bool {
    exists|i: int| 0 <= i <= s.len() && #[trigger] starts_with(s.skip(i), needle)
}

/// Whether `needle` stands in `s` where the kind says.
pub open spec fn affixed(kind: AffixKind, s: Seq<char>, needle: Seq<char>) -> bool {
    match kind {
        AffixKind::Begins => starts_with(s, needle),
        AffixKind::Contains => occurs(s, needle),
        AffixKind::Ends => ends_with(s, needle),
    }
}

/// Whether a condition holds on a row, or the text that should have been a
/// number. `&&` and `||` stop at the first operand that decides.
pub open spec fn eval_spec(
    e: BoolExpr,
    row: Seq<FieldV>,
    readings: Map<Seq<char>, NumV>,
) -> Result<bool, Seq<char>>
    decreases e,
{
    match e {
        BoolExpr::And(es) => eval_until(es@, true, row, readings),
        BoolExpr::Or(es) => eval_until(es@, false, row, readings),
        BoolExpr::Not(e) => match eval_spec(*e, row, readings) {
            Ok(b) => Ok(!b),
            Err(t) => Err(t),
        },
        BoolExpr::Cmp(c) => compares(c, row, readings),
        BoolExpr::Match { col, pattern, negate } => Ok(
            (regex_found(pattern@, cell_or_empty(row, col.pos as int).text()) == Some(true))
                != negate,
        ),
        BoolExpr::Affix { col, needle, kind } => Ok(
            affixed(kind, cell_or_empty(row, col.pos as int).text(), needle@),
        ),
    }
}

/// `go` when every condition gives `go`; else what the first one that does not
/// gives.
pub open spec fn eval_until(
    es: Seq<BoolExpr>,
    go: bool,
    row: Seq<FieldV>,
    readings: Map<Seq<char>, NumV>,
) -> Result<bool, Seq<char>>
    decreases es,
{
    if es.len() == 0 {
        Ok(go)
    } else {
        match eval_spec(es[0], row, readings) {
            Ok(b) => if b == go {
                eval_until(es.subrange(1, es.len() as int), go, row, readings)
            } else {
                Ok(b)
            },
            Err(t) => Err(t),
        }
    }
}

/// A result with its offending text.
pub open spec fn num_outcome<T>(r: Result<T, NumError>) -> Result<T, Seq<char>> {
    match r {
        Ok(v) => Ok(v),
        Err(e) => Err(e.0@),
    }
}

fn test_op(op: CmpOp, r: Rank) -> (b: bool)
    ensures
        b == holds(op, r),
{
    match op {
        CmpOp::Eq => r == Rank::Same,
        CmpOp::Ne => r != Rank::Same,
        CmpOp::Lt => r == Rank::Before,
        CmpOp::Gt => r == Rank::After,
        CmpOp::Le => r == Rank::Before || r == Rank::Same,
        CmpOp::Ge => r == Rank::After || r == Rank::Same,
    }
}

/// How two texts rank, in the order of their characters.
pub fn rank_texts(a: &str, b: &str) -> (r: Rank)
    ensures
        r == text_rank(a@, b@),
{
    if same(a, b) {
        Rank::Same
    } else if less(a, b) {
        Rank::Before
    } else {
        Rank::After
    }
}

impl Operand {
    fn text_on(&self, row: &[Field]) -> (r: String)
        ensures
            r@ == operand_text(*self, row_view(row@)),
    {
        match self {
            Operand::Col(c) => cell_at(row, c.pos).as_str().to_string(),
            Operand::Str(s) => s.clone(),
            Operand::Num(n) => n.num.text.clone(),
        }
    }

    fn num_on(&self, row: &[Field], readings: &Readings) -> (r: Result<Num, NumError>)
        ensures
            match r {
                Ok(n) => operand_num(*self, row_view(row@), readings@) == Ok::<NumV, Seq<char>>(n@),
                Err(e) => operand_num(*self, row_view(row@), readings@) == Err::<NumV, Seq<char>>(
                    e.0@,
                ),
            },
    {
        match self {
            Operand::Col(c) => cell_at(row, c.pos).coerce_num(readings),
            Operand::Str(s) => Field::Str(s.clone()).coerce_num(readings),
            Operand::Num(n) => Ok(n.num.clone()),
        }
    }
}

impl Cmp {
    /// Whether the comparison holds on a row.
    pub fn eval(&self, row: &[Field], readings: &Readings) -> (r: Result<bool, NumError>)
        ensures
            num_outcome(r) == compares(*self, row_view(row@), readings@),
    {
        if self.numeric {
            match self.lhs.num_on(row, readings) {
                Err(e) => Err(e),
                Ok(a) => match self.rhs.num_on(row, readings) {
                    Err(e) => Err(e),
                    Ok(b) => Ok(test_op(self.op, rank_bits(a.bits, b.bits))),
                },
            }
        } else {
            let a = self.lhs.text_on(row);
            let b = self.rhs.text_on(row);
            Ok(test_op(self.op, rank_texts(a.as_str(), b.as_str())))
        }
    }
}

/// Whether `needle` occurs in `s`.
pub fn contains_text(s: &str, needle: &str) -> (r: bool)
    ensures
        r == occurs(s@, needle@),
{
    let v = crate::text::chars_of(s);
    let w = crate::text::chars_of(needle);
    if w.len() > v.len() {
        return false;
    }
    let last: usize = v.len() - w.len();
    let mut i: usize = 0;
    loop
        invariant
            v@ == s@,
            w@ == needle@,
            last + w@.len() == v@.len(),
            last + w.len() == v.len(),
            i <= last,
            forall|k: int| 0 <= k < i ==> !starts_with(#[trigger] s@.skip(k), needle@),
        ensures
            forall|k: int| 0 <= k <= last ==> !starts_with(#[trigger] s@.skip(k), needle@),
        decreases last - i,
    {
        assert(v@.subrange(i as int, i + w@.len()) =~= s@.skip(i as int).take(w@.len() as int));
        if crate::text::same_chars(&v[i..i + w.len()], w.as_slice()) {
            assert(starts_with(s@.skip(i as int), needle@));
            return true;
        }
        if i == last {
            break;
        }
        i += 1;
    }
    assert forall|k: int| 0 <= k <= s@.len() implies !starts_with(#[trigger] s@.skip(k), needle@) by {
    }
    false
}

impl AffixKind {
    fn test(self, s: &str, needle: &str) -> (r: bool)
        ensures
            r == affixed(self, s@, needle@),
    {
        match self {
            AffixKind::Begins => has_prefix(s, needle),
            AffixKind::Contains => contains_text(s, needle),
            AffixKind::Ends => has_suffix(s, needle),
        }
    }
}

impl BoolExpr {
    /// Whether the condition holds on a row.
    pub fn eval(&self, row: &[Field], readings: &Readings) -> (r: Result<bool, NumError>)
        ensures
            num_outcome(r) == eval_spec(*self, row_view(row@), readings@),
        decreases self,
    {
        match self {
            BoolExpr::And(es) => {
                assert(es@.subrange(0, es@.len() as int) =~= es@);
                eval_list(es, 0, true, row, readings)
            },
            BoolExpr::Or(es) => {
                assert(es@.subrange(0, es@.len() as int) =~= es@);
                eval_list(es, 0, false, row, readings)
            },
            BoolExpr::Not(e) => match e.eval(row, readings) {
                Ok(b) => Ok(!b),
                Err(t) => Err(t),
            },
            BoolExpr::Cmp(c) => c.eval(row, readings),
            BoolExpr::Match { col, pattern, negate } => {
                let cell = cell_at(row, col.pos);
                let found = match regex_search(pattern.as_str(), cell.as_str()) {
                    Some(b) => b,
                    None => false,
                };
                Ok(found != *negate)
            },
            BoolExpr::Affix { col, needle, kind } => {
                let cell = cell_at(row, col.pos);
                Ok(kind.test(cell.as_str(), needle.as_str()))
            },
        }
    }
}

fn eval_list(es: &Vec<BoolExpr>, i: usize, go: bool, row: &[Field], readings: &Readings) -> (r:
    Result<bool, NumError>)
    requires
        i <= es@.len(),
    ensures
        num_outcome(r) == eval_until(
            es@.subrange(i as int, es@.len() as int),
            go,
            row_view(row@),
            readings@,
        ),
    decreases es, es@.len() - i,
{
    if i >= es.len() {
        Ok(go)
    } else {
        proof {
            let s = es@.subrange(i as int, es@.len() as int);
            assert(s[0] == es@[i as int]);
            assert(s.subrange(1, s.len() as int) =~= es@.subrange(i + 1, es@.len() as int));
        }
        match es[i].eval(row, readings) {
            Ok(b) => if b == go {
                eval_list(es, i + 1, go, row, readings)
            } else {
                Ok(b)
            },
            Err(t) => Err(t),
        }
    }
}

} // verus!
