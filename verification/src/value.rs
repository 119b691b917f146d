//! The value of an expression over a row.
//!
//! Arithmetic is the machine's own: where a value needs it, the operation and the
//! numbers it takes are handed back as a [`NumOp`], and the evaluation is asked
//! again with the result of that operation behind the results of those before it.

use crate::exec::{any_looks_past, looks_past};
use crate::field::{
    Field, FieldV, Num, NumError, NumV, Readings, cell_at, cell_or_empty, magnitude, row_texts,
    row_view, whole_num, whole_view,
};
use crate::outside::{lower_form, lower_text, upper_form, upper_text};
use crate::plan::{ArithOp, ColRef, Func, ValExpr, eval_spec};
use crate::text::{chars_of, join, joined, texts, trim, trimmed};
use vstd::prelude::*;

verus! {

/// An operation on numbers that an expression needs the result of.
#[derive(Debug)]
pub enum NumOp {
    Neg(Num),
    Arith(ArithOp, Num, Num),
    Func(Func, Vec<Num>),
}

/// What a [`NumOp`] is in contracts.
pub enum NumOpV {
    Neg(NumV),
    Arith(ArithOp, NumV, NumV),
    Func(Func, Seq<NumV>),
}

/// A list of numbers in contracts.
pub open spec fn nums_view(ns: Seq<Num>) -> Seq<NumV> {
    ns.map_values(|n: Num| n@)
}

impl View for NumOp {
    type V = NumOpV;

    open spec fn view(&self) -> NumOpV {
        match self {
            NumOp::Neg(n) => NumOpV::Neg(n@),
            NumOp::Arith(op, a, b) => NumOpV::Arith(*op, a@, b@),
            NumOp::Func(f, ns) => NumOpV::Func(*f, nums_view(ns@)),
        }
    }
}

/// What a value cannot be had for, whatever the machine computes.
#[derive(Debug)]
pub enum Fault {
    /// A text that should have been a number.
    NotNumber(NumError),
    /// A number divided by zero.
    DivisionByZero,
    /// A function of nothing.
    NoArgument(Func),
}

/// What a [`Fault`] is in contracts.
pub enum FaultV {
    NotNumber(Seq<char>),
    DivisionByZero,
    NoArgument(Func),
}

impl View for Fault {
    type V = FaultV;

    open spec fn view(&self) -> FaultV {
        match self {
            Fault::NotNumber(e) => FaultV::NotNumber(e.0@),
            Fault::DivisionByZero => FaultV::DivisionByZero,
            Fault::NoArgument(f) => FaultV::NoArgument(*f),
        }
    }
}

/// Why an expression has no value.
#[derive(Debug)]
pub enum Stop {
    /// The result of an operation is needed first.
    Wants(NumOp),
    Fault(Fault),
}

/// What a [`Stop`] is in contracts.
pub enum StopV {
    Wants(NumOpV),
    Fault(FaultV),
}

impl View for Stop {
    type V = StopV;

    open spec fn view(&self) -> StopV {
        match self {
            Stop::Wants(op) => StopV::Wants(op@),
            Stop::Fault(f) => StopV::Fault(f@),
        }
    }
}

/// Where an expression is evaluated: the row, the one before it, its number, what
/// texts read as, and the results of the operations so far.
pub struct Place<'a> {
    pub row: &'a [Field],
    pub prev: Option<&'a Vec<Field>>,
    pub rownum: u64,
    pub readings: &'a Readings,
    pub results: &'a [Num],
}

/// What a [`Place`] is in contracts.
pub struct PlaceV {
    pub row: Seq<FieldV>,
    pub prev: Option<Seq<FieldV>>,
    pub rownum: nat,
    pub readings: Map<Seq<char>, NumV>,
    pub results: Seq<NumV>,
}

impl<'a> View for Place<'a> {
    type V = PlaceV;

    open spec fn view(&self) -> PlaceV {
        PlaceV {
            row: row_view(self.row@),
            prev: match self.prev {
                Some(r) => Some(row_view(r@)),
                None => None,
            },
            rownum: self.rownum as nat,
            readings: self.readings@,
            results: nums_view(self.results@),
        }
    }
}

/// The result of an operation, the one behind the `used` first.
pub open spec fn answer(op: NumOpV, at: PlaceV, used: int) -> Result<(FieldV, int), StopV> {
    if used < at.results.len() {
        Ok((FieldV::Num(at.results[used]), used + 1))
    } else {
        Err(StopV::Wants(op))
    }
}

/// A value as a number, a blank one as zero.
pub open spec fn number(v: FieldV, at: PlaceV) -> Result<NumV, StopV> {
    match v.num_soft(at.readings) {
        Some(n) => Ok(n),
        None => Err(StopV::Fault(FaultV::NotNumber(v.text()))),
    }
}

/// The values as numbers; or what is said of the first that is none.
pub open spec fn numbers(vs: Seq<FieldV>, at: PlaceV) -> Result<Seq<NumV>, StopV>
    decreases vs.len(),
{
    if vs.len() == 0 {
        Ok(seq![])
    } else {
        match numbers(vs.drop_last(), at) {
            Ok(ns) => match number(vs.last(), at) {
                Ok(n) => Ok(ns.push(n)),
                Err(s) => Err(s),
            },
            Err(s) => Err(s),
        }
    }
}

/// Where the first value from `i` on that is not empty stands, or past the end.
pub open spec fn next_filled(vs: Seq<FieldV>, i: int) -> int
    decreases vs.len() - i,
{
    if i >= vs.len() || vs[i].text().len() > 0 {
        i
    } else {
        next_filled(vs, i + 1)
    }
}

/// The first of the values that is not empty, or the first of all where each is.
pub open spec fn first_filled(vs: Seq<FieldV>) -> FieldV {
    let i = next_filled(vs, 0);
    if i < vs.len() {
        vs[i]
    } else {
        vs[0]
    }
}

/// A function of its arguments. A function of numbers takes all of its arguments as
/// numbers.
pub open spec fn call(f: Func, vs: Seq<FieldV>, at: PlaceV, used: int) -> Result<
    (FieldV, int),
    StopV,
> {
    if vs.len() == 0 {
        Err(StopV::Fault(FaultV::NoArgument(f)))
    } else {
        let text = vs[0].text();
        match f {
            Func::Len => Ok((FieldV::Num(whole_view(text.len())), used)),
            Func::Upper => Ok((FieldV::Str(upper_form(text)), used)),
            Func::Lower => Ok((FieldV::Str(lower_form(text)), used)),
            Func::Trim => Ok((FieldV::Str(trimmed(text)), used)),
            Func::Str => Ok((FieldV::Str(text), used)),
            Func::Coalesce => Ok((first_filled(vs), used)),
            Func::Num => match number(vs[0], at) {
                Ok(n) => Ok((FieldV::Num(n), used)),
                Err(s) => Err(s),
            },
            _ => match numbers(vs, at) {
                Ok(ns) => answer(NumOpV::Func(f, ns), at, used),
                Err(s) => Err(s),
            },
        }
    }
}

/// An arithmetic operation on two values.
pub open spec fn arith(op: ArithOp, a: FieldV, b: FieldV, at: PlaceV, used: int) -> Result<
    (FieldV, int),
    StopV,
> {
    match (number(a, at), number(b, at)) {
        (Err(s), _) => Err(s),
        (Ok(_), Err(s)) => Err(s),
        (Ok(a), Ok(b)) => if (op == ArithOp::Over || op == ArithOp::Modulo) && magnitude(b.bits)
            == 0 {
            Err(StopV::Fault(FaultV::DivisionByZero))
        } else {
            answer(NumOpV::Arith(op, a, b), at, used)
        },
    }
}

/// The value of an expression, with how many results are used up behind it: those
/// before are `used`. Of a choice only the branch taken is evaluated.
pub open spec fn value_of(e: ValExpr, at: PlaceV, used: int) -> Result<(FieldV, int), StopV>
    decreases e,
{
    match e {
        ValExpr::Col(c) => Ok((cell_or_empty(at.row, c.pos as int), used)),
        ValExpr::Prev(c) => Ok((cell_or_empty(before(at), c.pos as int), used)),
        ValExpr::Rownum => Ok((FieldV::Num(whole_view(at.rownum)), used)),
        ValExpr::Num(n) => Ok((FieldV::Num(n.num@), used)),
        ValExpr::Str(s) => Ok((FieldV::Str(s@), used)),
        ValExpr::Neg(e) => match value_of(*e, at, used) {
            Ok((v, k)) => match number(v, at) {
                Ok(n) => answer(NumOpV::Neg(n), at, k),
                Err(s) => Err(s),
            },
            Err(s) => Err(s),
        },
        ValExpr::Arith { op, lhs, rhs } => match value_of(*lhs, at, used) {
            Ok((a, k)) => match value_of(*rhs, at, k) {
                Ok((b, k)) => arith(op, a, b, at, k),
                Err(s) => Err(s),
            },
            Err(s) => Err(s),
        },
        ValExpr::Concat(es) => match values_of(es@, at, used) {
            Ok((vs, k)) => Ok((FieldV::Str(joined(row_texts(vs), ""@)), k)),
            Err(s) => Err(s),
        },
        ValExpr::Func(f, es) => match values_of(es@, at, used) {
            Ok((vs, k)) => call(f, vs, at, k),
            Err(s) => Err(s),
        },
        ValExpr::Bool(test) => match eval_spec(*test, at.row, at.readings) {
            Ok(b) => Ok(
                (
                    FieldV::Str(
                        if b {
                            "t"@
                        } else {
                            "f"@
                        },
                    ),
                    used,
                ),
            ),
            Err(t) => Err(StopV::Fault(FaultV::NotNumber(t))),
        },
        ValExpr::Cond { test, then_, else_ } => match eval_spec(*test, at.row, at.readings) {
            Ok(b) => if b {
                value_of(*then_, at, used)
            } else {
                value_of(*else_, at, used)
            },
            Err(t) => Err(StopV::Fault(FaultV::NotNumber(t))),
        },
    }
}

/// The values of expressions, each evaluated behind those before it.
pub open spec fn values_of(es: Seq<ValExpr>, at: PlaceV, used: int) -> Result<
    (Seq<FieldV>, int),
    StopV,
>
    decreases es,
{
    if es.len() == 0 {
        Ok((seq![], used))
    } else {
        match value_of(es[0], at, used) {
            Ok((v, k)) => match values_of(es.subrange(1, es.len() as int), at, k) {
                Ok((vs, k)) => Ok((seq![v] + vs, k)),
                Err(s) => Err(s),
            },
            Err(s) => Err(s),
        }
    }
}

/// The row before, on the first row the row itself.
pub open spec fn before(at: PlaceV) -> Seq<FieldV> {
    match at.prev {
        Some(row) => row,
        None => at.row,
    }
}

/// Whether a result is what a specification says.
pub open spec fn gives(
    r: Result<(Field, usize), Stop>,
    want: Result<(FieldV, int), StopV>,
) -> bool {
    match (r, want) {
        (Ok((v, k)), Ok((w, n))) => v@ == w && k == n,
        (Err(s), Err(t)) => s@ == t,
        _ => false,
    }
}

impl<'a> Place<'a> {
    fn answer(&self, op: NumOp, used: usize) -> (r: Result<(Field, usize), Stop>)
        ensures
            gives(r, answer(op@, self@, used as int)),
    {
        if used < self.results.len() {
            Ok((Field::Num(self.results[used].clone()), used + 1))
        } else {
            Err(Stop::Wants(op))
        }
    }

    fn number(&self, v: &Field) -> (r: Result<Num, Stop>)
        ensures
            match r {
                Ok(n) => number(v@, self@) == Ok::<NumV, StopV>(n@),
                Err(s) => number(v@, self@) == Err::<NumV, StopV>(s@),
            },
    {
        match v.coerce_num(self.readings) {
            Ok(n) => Ok(n),
            Err(e) => Err(Stop::Fault(Fault::NotNumber(e))),
        }
    }

    fn numbers(&self, vs: &[Field]) -> (r: Result<Vec<Num>, Stop>)
        ensures
            match r {
                Ok(ns) => numbers(row_view(vs@), self@) == Ok::<Seq<NumV>, StopV>(nums_view(ns@)),
                Err(s) => numbers(row_view(vs@), self@) == Err::<Seq<NumV>, StopV>(s@),
            },
    {
        let ghost all = row_view(vs@);
        let mut ns: Vec<Num> = Vec::new();
        let mut i: usize = 0;
        assert(nums_view(ns@) =~= seq![]);
        while i < vs.len()
            invariant
                i <= vs@.len(),
                all == row_view(vs@),
                numbers(all.take(i as int), self@) == Ok::<Seq<NumV>, StopV>(nums_view(ns@)),
            decreases vs.len() - i,
        {
            let ghost before = ns@;
            let ghost next = all.take(i + 1);
            assert(next.drop_last() =~= all.take(i as int));
            assert(next.last() == vs@[i as int]@);
            match self.number(&vs[i]) {
                Ok(n) => {
                    ns.push(n);
                    assert(nums_view(ns@) =~= nums_view(before).push(n@));
                },
                Err(s) => {
                    proof {
                        lemma_numbers_stop(all, self@, i + 1);
                    }
                    return Err(s);
                },
            }
            i += 1;
        }
        assert(all.take(i as int) =~= all);
        Ok(ns)
    }

    fn call(&self, f: Func, vs: &[Field], used: usize) -> (r: Result<(Field, usize), Stop>)
        ensures
            gives(r, call(f, row_view(vs@), self@, used as int)),
    {
        if vs.len() == 0 {
            return Err(Stop::Fault(Fault::NoArgument(f)));
        }
        assert(row_view(vs@)[0] == vs@[0]@);
        let text = vs[0].as_str();
        match f {
            Func::Len => Ok((Field::Num(whole_num(chars_of(text).len() as u64)), used)),
            Func::Upper => Ok((Field::Str(upper_text(text)), used)),
            Func::Lower => Ok((Field::Str(lower_text(text)), used)),
            Func::Trim => Ok((Field::Str(trim(text)), used)),
            Func::Str => Ok((Field::Str(text.to_string()), used)),
            Func::Coalesce => Ok((coalesce(vs), used)),
            Func::Num => match self.number(&vs[0]) {
                Ok(n) => Ok((Field::Num(n), used)),
                Err(s) => Err(s),
            },
            _ => match self.numbers(vs) {
                Ok(ns) => self.answer(NumOp::Func(f, ns), used),
                Err(s) => Err(s),
            },
        }
    }

    fn arith(&self, op: ArithOp, a: &Field, b: &Field, used: usize) -> (r: Result<
        (Field, usize),
        Stop,
    >)
        ensures
            gives(r, arith(op, a@, b@, self@, used as int)),
    {
        match self.number(a) {
            Err(s) => Err(s),
            Ok(a) => match self.number(b) {
                Err(s) => Err(s),
                Ok(b) => if (op == ArithOp::Over || op == ArithOp::Modulo) && zero_bits(b.bits) {
                    Err(Stop::Fault(Fault::DivisionByZero))
                } else {
                    self.answer(NumOp::Arith(op, a, b), used)
                },
            },
        }
    }
}

fn zero_bits(bits: u64) -> (r: bool)
    ensures
        r == (magnitude(bits) == 0),
{
    bits % 0x8000_0000_0000_0000 == 0
}

fn coalesce(vs: &[Field]) -> (r: Field)
    requires
        vs@.len() > 0,
    ensures
        r@ == first_filled(row_view(vs@)),
{
    let ghost all = row_view(vs@);
    let mut i: usize = 0;
    while i < vs.len()
        invariant
            i <= vs@.len(),
            vs@.len() > 0,
            all == row_view(vs@),
            next_filled(all, 0) == next_filled(all, i as int),
        decreases vs.len() - i,
    {
        assert(all[i as int] == vs@[i as int]@);
        if !vs[i].as_str().is_empty() {
            return vs[i].clone();
        }
        i += 1;
    }
    assert(all[0] == vs@[0]@);
    vs[0].clone()
}

proof fn lemma_numbers_stop(vs: Seq<FieldV>, at: PlaceV, n: int)
    requires
        0 <= n <= vs.len(),
        numbers(vs.take(n), at) is Err,
    ensures
        numbers(vs, at) == numbers(vs.take(n), at),
    decreases vs.len() - n,
{
    if n == vs.len() {
        assert(vs.take(n) =~= vs);
    } else {
        assert(vs.take(n + 1).drop_last() =~= vs.take(n));
        lemma_numbers_stop(vs, at, n + 1);
    }
}

impl ValExpr {
    /// The value of the expression at a place.
    pub fn value(&self, at: &Place) -> (r: Result<Field, Stop>)
        ensures
            match r {
                Ok(v) => value_of(*self, at@, 0) is Ok && value_of(*self, at@, 0)->Ok_0.0 == v@,
                Err(s) => value_of(*self, at@, 0) == Err::<(FieldV, int), StopV>(s@),
            },
    {
        match self.value_behind(at, 0) {
            Ok((v, _)) => Ok(v),
            Err(s) => Err(s),
        }
    }

    /// The value of the expression at a place where `used` of the results are used up,
    /// and how many are used up behind it.
    pub fn value_behind(&self, at: &Place, used: usize) -> (r: Result<(Field, usize), Stop>)
        ensures
            gives(r, value_of(*self, at@, used as int)),
        decreases self,
    {
        match self {
            ValExpr::Col(c) => Ok((cell_at(at.row, c.pos), used)),
            ValExpr::Prev(c) => Ok(
                (
                    match at.prev {
                        Some(row) => cell_at(row.as_slice(), c.pos),
                        None => cell_at(at.row, c.pos),
                    },
                    used,
                ),
            ),
            ValExpr::Rownum => Ok((Field::Num(whole_num(at.rownum)), used)),
            ValExpr::Num(n) => Ok((Field::Num(n.num.clone()), used)),
            ValExpr::Str(s) => Ok((Field::Str(s.clone()), used)),
            ValExpr::Neg(e) => match e.value_behind(at, used) {
                Ok((v, k)) => match at.number(&v) {
                    Ok(n) => at.answer(NumOp::Neg(n), k),
                    Err(s) => Err(s),
                },
                Err(s) => Err(s),
            },
            ValExpr::Arith { op, lhs, rhs } => match lhs.value_behind(at, used) {
                Ok((a, k)) => match rhs.value_behind(at, k) {
                    Ok((b, k)) => at.arith(*op, &a, &b, k),
                    Err(s) => Err(s),
                },
                Err(s) => Err(s),
            },
            ValExpr::Concat(es) => {
                assert(es@.subrange(0, es@.len() as int) =~= es@);
                match list_values(es, 0, at, used) {
                    Ok((vs, k)) => Ok((Field::Str(put_together(vs.as_slice())), k)),
                    Err(s) => Err(s),
                }
            },
            ValExpr::Func(f, es) => {
                assert(es@.subrange(0, es@.len() as int) =~= es@);
                match list_values(es, 0, at, used) {
                    Ok((vs, k)) => at.call(*f, vs.as_slice(), k),
                    Err(s) => Err(s),
                }
            },
            ValExpr::Bool(test) => match test.eval(at.row, at.readings) {
                Ok(b) => Ok(
                    (
                        Field::Str(
                            if b {
                                "t".to_string()
                            } else {
                                "f".to_string()
                            },
                        ),
                        used,
                    ),
                ),
                Err(e) => Err(Stop::Fault(Fault::NotNumber(e))),
            },
            ValExpr::Cond { test, then_, else_ } => match test.eval(at.row, at.readings) {
                Ok(b) => if b {
                    then_.value_behind(at, used)
                } else {
                    else_.value_behind(at, used)
                },
                Err(e) => Err(Stop::Fault(Fault::NotNumber(e))),
            },
        }
    }
}

fn list_values(es: &Vec<ValExpr>, i: usize, at: &Place, used: usize) -> (r: Result<
    (Vec<Field>, usize),
    Stop,
>)
    requires
        i <= es@.len(),
    ensures
        match (r, values_of(es@.subrange(i as int, es@.len() as int), at@, used as int)) {
            (Ok((vs, k)), Ok((ws, n))) => row_view(vs@) == ws && k == n,
            (Err(s), Err(t)) => s@ == t,
            _ => false,
        },
    decreases es, es@.len() - i,
{
    if i >= es.len() {
        let vs: Vec<Field> = Vec::new();
        assert(row_view(vs@) =~= seq![]);
        Ok((vs, used))
    } else {
        proof {
            let s = es@.subrange(i as int, es@.len() as int);
            assert(s[0] == es@[i as int]);
            assert(s.subrange(1, s.len() as int) =~= es@.subrange(i + 1, es@.len() as int));
        }
        match es[i].value_behind(at, used) {
            Ok((v, k)) => match list_values(es, i + 1, at, k) {
                Ok((mut vs, k)) => {
                    let ghost rest = row_view(vs@);
                    let ghost first = v@;
                    vs.insert(0, v);
                    assert(row_view(vs@) =~= seq![first] + rest);
                    Ok((vs, k))
                },
                Err(s) => Err(s),
            },
            Err(s) => Err(s),
        }
    }
}

fn put_together(vs: &[Field]) -> (r: String)
    ensures
        r@ == joined(row_texts(row_view(vs@)), ""@),
{
    let ghost want = row_texts(row_view(vs@));
    let mut parts: Vec<String> = Vec::new();
    let mut i: usize = 0;
    while i < vs.len()
        invariant
            i <= vs@.len(),
            want == row_texts(row_view(vs@)),
            texts(parts@) == want.take(i as int),
        decreases vs.len() - i,
    {
        let ghost before = texts(parts@);
        parts.push(vs[i].as_str().to_string());
        assert(texts(parts@) =~= before.push(want[i as int]));
        assert(want.take(i + 1) =~= want.take(i as int).push(want[i as int]));
        i += 1;
    }
    assert(want.take(i as int) =~= want);
    join(parts.as_slice(), "")
}

/// How many operations on numbers an expression can need the results of.
pub open spec fn asks(e: ValExpr) -> nat
    decreases e,
{
    match e {
        ValExpr::Neg(e) => asks(*e) + 1,
        ValExpr::Arith { lhs, rhs, .. } => asks(*lhs) + asks(*rhs) + 1,
        ValExpr::Concat(es) => all_ask(es@),
        ValExpr::Func(_, es) => all_ask(es@) + 1,
        ValExpr::Cond { then_, else_, .. } => if asks(*then_) < asks(*else_) {
            asks(*else_)
        } else {
            asks(*then_)
        },
        _ => 0,
    }
}

/// How many operations on numbers expressions can need the results of.
pub open spec fn all_ask(es: Seq<ValExpr>) -> nat
    decreases es,
{
    if es.len() == 0 {
        0
    } else {
        asks(es[0]) + all_ask(es.subrange(1, es.len() as int))
    }
}

/// Whether what came of an evaluation stands, whatever results come behind.
pub open spec fn settled<T>(r: Result<(T, int), StopV>) -> bool {
    !(r matches Err(StopV::Wants(_)))
}

/// With as many results as it can ask for, an expression asks for none: it has a
/// value or is refused.
pub proof fn law_an_expression_asks_no_more(e: ValExpr, at: PlaceV, used: int)
    requires
        0 <= used,
        used + asks(e) <= at.results.len(),
    ensures
        settled(value_of(e, at, used)),
        value_of(e, at, used) matches Ok((_, k)) ==> used <= k <= used + asks(e),
    decreases e,
{
    match e {
        ValExpr::Neg(x) => {
            law_an_expression_asks_no_more(*x, at, used);
        },
        ValExpr::Arith { lhs, rhs, .. } => {
            law_an_expression_asks_no_more(*lhs, at, used);
            if let Ok((_, k)) = value_of(*lhs, at, used) {
                law_an_expression_asks_no_more(*rhs, at, k);
            }
        },
        ValExpr::Concat(es) => {
            lemma_expressions_ask_no_more(es@, at, used);
        },
        ValExpr::Func(_, es) => {
            lemma_expressions_ask_no_more(es@, at, used);
            if let Ok((vs, _)) = values_of(es@, at, used) {
                lemma_numbers_want_nothing(vs, at);
            }
        },
        ValExpr::Cond { then_, else_, .. } => {
            law_an_expression_asks_no_more(*then_, at, used);
            law_an_expression_asks_no_more(*else_, at, used);
        },
        _ => {},
    }
}

proof fn lemma_numbers_want_nothing(vs: Seq<FieldV>, at: PlaceV)
    ensures
        !(numbers(vs, at) matches Err(StopV::Wants(_))),
    decreases vs.len(),
{
    if vs.len() > 0 {
        lemma_numbers_want_nothing(vs.drop_last(), at);
    }
}

proof fn lemma_expressions_ask_no_more(es: Seq<ValExpr>, at: PlaceV, used: int)
    requires
        0 <= used,
        used + all_ask(es) <= at.results.len(),
    ensures
        settled(values_of(es, at, used)),
        values_of(es, at, used) matches Ok((_, k)) ==> used <= k <= used + all_ask(es),
    decreases es,
{
    if es.len() > 0 {
        law_an_expression_asks_no_more(es[0], at, used);
        if let Ok((_, k)) = value_of(es[0], at, used) {
            lemma_expressions_ask_no_more(es.subrange(1, es.len() as int), at, k);
        }
    }
}

/// The place with more results behind those it has.
pub open spec fn with_more(at: PlaceV, more: Seq<NumV>) -> PlaceV {
    PlaceV { results: at.results + more, ..at }
}

/// A value, or why there is none, stands whatever results come behind: an expression
/// can be asked again with one more result until it asks for none.
pub proof fn law_a_value_stands(e: ValExpr, at: PlaceV, used: int, more: Seq<NumV>)
    requires
        0 <= used,
        settled(value_of(e, at, used)),
    ensures
        value_of(e, with_more(at, more), used) == value_of(e, at, used),
        value_of(e, at, used) matches Ok((_, k)) ==> used <= k,
    decreases e,
{
    let to = with_more(at, more);
    match e {
        ValExpr::Neg(x) => {
            law_a_value_stands(*x, at, used, more);
        },
        ValExpr::Arith { lhs, rhs, .. } => {
            law_a_value_stands(*lhs, at, used, more);
            if let Ok((_, k)) = value_of(*lhs, at, used) {
                law_a_value_stands(*rhs, at, k, more);
            }
        },
        ValExpr::Concat(es) => {
            lemma_values_stand(es@, at, used, more);
        },
        ValExpr::Func(_, es) => {
            lemma_values_stand(es@, at, used, more);
            if let Ok((vs, _)) = values_of(es@, at, used) {
                lemma_numbers_need_no_results(vs, at, to);
            }
        },
        ValExpr::Cond { test, then_, else_ } => {
            if let Ok(b) = eval_spec(*test, at.row, at.readings) {
                if b {
                    law_a_value_stands(*then_, at, used, more);
                } else {
                    law_a_value_stands(*else_, at, used, more);
                }
            }
        },
        _ => {},
    }
}

proof fn lemma_numbers_need_no_results(vs: Seq<FieldV>, at: PlaceV, to: PlaceV)
    requires
        at.readings == to.readings,
    ensures
        numbers(vs, at) == numbers(vs, to),
    decreases vs.len(),
{
    if vs.len() > 0 {
        lemma_numbers_need_no_results(vs.drop_last(), at, to);
    }
}

proof fn lemma_values_stand(es: Seq<ValExpr>, at: PlaceV, used: int, more: Seq<NumV>)
    requires
        0 <= used,
        settled(values_of(es, at, used)),
    ensures
        values_of(es, with_more(at, more), used) == values_of(es, at, used),
        values_of(es, at, used) matches Ok((_, k)) ==> used <= k,
    decreases es,
{
    if es.len() > 0 {
        law_a_value_stands(es[0], at, used, more);
        if let Ok((_, k)) = value_of(es[0], at, used) {
            lemma_values_stand(es.subrange(1, es.len() as int), at, k, more);
        }
    }
}

/// On the first row a column of the row before is that of the row itself.
pub proof fn law_the_first_row_stands_before_itself(column: ColRef, at: PlaceV, used: int)
    requires
        at.prev is None,
    ensures
        value_of(ValExpr::Prev(column), at, used) == value_of(ValExpr::Col(column), at, used),
{
}

/// An expression that does not look past its row has the same value wherever that
/// row stands among the others.
pub proof fn law_a_plain_value_is_of_its_row_alone(
    e: ValExpr,
    at: PlaceV,
    used: int,
    prev: Option<Seq<FieldV>>,
    rownum: nat,
)
    requires
        !looks_past(e),
    ensures
        value_of(e, PlaceV { prev, rownum, ..at }, used) == value_of(e, at, used),
    decreases e,
{
    let to = PlaceV { prev, rownum, ..at };
    match e {
        ValExpr::Neg(x) => {
            law_a_plain_value_is_of_its_row_alone(*x, at, used, prev, rownum);
        },
        ValExpr::Arith { lhs, rhs, .. } => {
            law_a_plain_value_is_of_its_row_alone(*lhs, at, used, prev, rownum);
            if let Ok((_, k)) = value_of(*lhs, at, used) {
                law_a_plain_value_is_of_its_row_alone(*rhs, at, k, prev, rownum);
            }
        },
        ValExpr::Concat(es) => {
            lemma_plain_values(es@, at, used, prev, rownum);
        },
        ValExpr::Func(_, es) => {
            lemma_plain_values(es@, at, used, prev, rownum);
            if let Ok((vs, _)) = values_of(es@, at, used) {
                lemma_numbers_need_no_results(vs, at, to);
            }
        },
        ValExpr::Cond { then_, else_, .. } => {
            law_a_plain_value_is_of_its_row_alone(*then_, at, used, prev, rownum);
            law_a_plain_value_is_of_its_row_alone(*else_, at, used, prev, rownum);
        },
        _ => {},
    }
}

proof fn lemma_plain_values(
    es: Seq<ValExpr>,
    at: PlaceV,
    used: int,
    prev: Option<Seq<FieldV>>,
    rownum: nat,
)
    requires
        !any_looks_past(es),
    ensures
        values_of(es, PlaceV { prev, rownum, ..at }, used) == values_of(es, at, used),
    decreases es,
{
    if es.len() > 0 {
        law_a_plain_value_is_of_its_row_alone(es[0], at, used, prev, rownum);
        if let Ok((_, k)) = value_of(es[0], at, used) {
            lemma_plain_values(es.subrange(1, es.len() as int), at, k, prev, rownum);
        }
    }
}

} // verus!
