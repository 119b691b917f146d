//! What the expressions of `add` come to.

use crate::field::{FieldV, NumV, place, row_texts, whole_view};
use crate::laws::rows::reading;
use crate::outside::{lower_form, upper_form};
use crate::plan::{ArithOp, BoolExpr, ColRef, Func, ValExpr, eval_spec};
use crate::text::{joined, trimmed};
use crate::value::{
    FaultV, NumOpV, PlaceV, StopV, next_filled, number, numbers, value_of, values_of,
};
use vstd::prelude::*;

verus! {

/// A column is the cell of the row in its place, `prev` that of the row before, or of the
/// row itself on the first one, and `rownum` the number of the row; a cell that is not
/// there is empty.
pub proof fn law_columns_are_cells(col: ColRef, at: PlaceV, used: int)
    ensures
        value_of(ValExpr::Col(col), at, used) == Ok::<(FieldV, int), StopV>(
            (
                if col.pos < at.row.len() {
                    at.row[col.pos as int]
                } else {
                    FieldV::Str(seq![])
                },
                used,
            ),
        ),
        at.prev matches Some(prev) ==> value_of(ValExpr::Prev(col), at, used) == Ok::<
            (FieldV, int),
            StopV,
        >(
            (
                if col.pos < prev.len() {
                    prev[col.pos as int]
                } else {
                    FieldV::Str(seq![])
                },
                used,
            ),
        ),
        at.prev is None ==> value_of(ValExpr::Prev(col), at, used) == value_of(
            ValExpr::Col(col),
            at,
            used,
        ),
        value_of(ValExpr::Rownum, at, used) == Ok::<(FieldV, int), StopV>(
            (FieldV::Num(whole_view(at.rownum)), used),
        ),
{
}

/// Literals are themselves.
pub proof fn law_literals_are_themselves(e: ValExpr, at: PlaceV, used: int)
    ensures
        e matches ValExpr::Num(n) ==> value_of(e, at, used) == Ok::<(FieldV, int), StopV>(
            (FieldV::Num(n.num@), used),
        ),
        e matches ValExpr::Str(s) ==> value_of(e, at, used) == Ok::<(FieldV, int), StopV>(
            (FieldV::Str(s@), used),
        ),
{
}

/// Whether what comes of an operation is its result: the next one there is, or that it
/// is wanted.
pub open spec fn results_in(
    r: Result<(FieldV, int), StopV>,
    op: NumOpV,
    at: PlaceV,
    used: int,
) -> bool {
    if used < at.results.len() {
        r == Ok::<(FieldV, int), StopV>((FieldV::Num(at.results[used]), used + 1))
    } else {
        r == Err::<(FieldV, int), StopV>(StopV::Wants(op))
    }
}

/// An operation is that of its left side with its right side, in that order, each read
/// as a number; a text that is none is what is wrong, the left one first, and so is a
/// zero that is divided by.
pub proof fn law_an_operation_is_of_its_two_sides(
    op: ArithOp,
    lhs: ValExpr,
    rhs: ValExpr,
    at: PlaceV,
    used: int,
    a: FieldV,
    k: int,
    b: FieldV,
    m: int,
)
    requires
        value_of(lhs, at, used) == Ok::<(FieldV, int), StopV>((a, k)),
        value_of(rhs, at, k) == Ok::<(FieldV, int), StopV>((b, m)),
    ensures
        ({
            let e = ValExpr::Arith { op, lhs: Box::new(lhs), rhs: Box::new(rhs) };
            let r = value_of(e, at, used);
            match (reading(a, at.readings), reading(b, at.readings)) {
                (Ok(x), Ok(y)) => if place(y.bits) == 0 && (op is Over || op is Modulo) {
                    r == Err::<(FieldV, int), StopV>(StopV::Fault(FaultV::DivisionByZero))
                } else {
                    results_in(r, NumOpV::Arith(op, x, y), at, m)
                },
                (Err(t), _) => r == Err::<(FieldV, int), StopV>(
                    StopV::Fault(FaultV::NotNumber(t)),
                ),
                (Ok(_), Err(t)) => r == Err::<(FieldV, int), StopV>(
                    StopV::Fault(FaultV::NotNumber(t)),
                ),
            }
        }),
{
}

/// What goes wrong in a side of an operation goes wrong in it, the left side first.
pub proof fn law_an_operation_fails_where_a_side_does(
    op: ArithOp,
    lhs: ValExpr,
    rhs: ValExpr,
    at: PlaceV,
    used: int,
)
    ensures
        ({
            let e = ValExpr::Arith { op, lhs: Box::new(lhs), rhs: Box::new(rhs) };
            let r = value_of(e, at, used);
            match value_of(lhs, at, used) {
                Err(s) => r == Err::<(FieldV, int), StopV>(s),
                Ok((_, k)) => value_of(rhs, at, k) matches Err(s) ==> r == Err::<
                    (FieldV, int),
                    StopV,
                >(s),
            }
        }),
{
}

/// A sign is that of the number behind it.
pub proof fn law_a_sign_is_of_its_number(e: ValExpr, at: PlaceV, used: int, v: FieldV, k: int)
    requires
        value_of(e, at, used) == Ok::<(FieldV, int), StopV>((v, k)),
    ensures
        ({
            let r = value_of(ValExpr::Neg(Box::new(e)), at, used);
            match reading(v, at.readings) {
                Ok(n) => results_in(r, NumOpV::Neg(n), at, k),
                Err(t) => r == Err::<(FieldV, int), StopV>(StopV::Fault(FaultV::NotNumber(t))),
            }
        }),
{
}

/// A choice is its first branch where its condition holds on the row, and its second
/// where it does not; the other branch is not looked at.
pub proof fn law_a_choice_is_one_of_its_branches(
    test: BoolExpr,
    yes: ValExpr,
    no: ValExpr,
    at: PlaceV,
    used: int,
)
    ensures
        ({
            let e = ValExpr::Cond {
                test: Box::new(test),
                then_: Box::new(yes),
                else_: Box::new(no),
            };
            match eval_spec(test, at.row, at.readings) {
                Ok(holds) => value_of(e, at, used) == if holds {
                    value_of(yes, at, used)
                } else {
                    value_of(no, at, used)
                },
                Err(t) => value_of(e, at, used) == Err::<(FieldV, int), StopV>(
                    StopV::Fault(FaultV::NotNumber(t)),
                ),
            }
        }),
        match eval_spec(test, at.row, at.readings) {
            Ok(holds) => value_of(ValExpr::Bool(Box::new(test)), at, used) == Ok::<
                (FieldV, int),
                StopV,
            >((FieldV::Str(seq![if holds { 't' } else { 'f' }]), used)),
            Err(t) => value_of(ValExpr::Bool(Box::new(test)), at, used) == Err::<
                (FieldV, int),
                StopV,
            >(StopV::Fault(FaultV::NotNumber(t))),
        },
{
    reveal_strlit("t");
    reveal_strlit("f");
    assert("t"@ =~= seq!['t']);
    assert("f"@ =~= seq!['f']);
}

/// Whether those are the values of the expressions, each evaluated behind those before
/// it: `ks` has how many results are used up before each.
pub open spec fn evaluates(
    es: Seq<ValExpr>,
    at: PlaceV,
    vs: Seq<FieldV>,
    ks: Seq<int>,
) -> bool {
    &&& vs.len() == es.len()
    &&& ks.len() == es.len() + 1
    &&& forall|i: int|
        0 <= i < es.len() ==> value_of(#[trigger] es[i], at, ks[i]) == Ok::<(FieldV, int), StopV>(
            (vs[i], ks[i + 1]),
        )
}

/// The values of a list of expressions are those of each, in order.
pub proof fn law_lists_are_evaluated_in_order(
    es: Seq<ValExpr>,
    at: PlaceV,
    vs: Seq<FieldV>,
    ks: Seq<int>,
)
    requires
        evaluates(es, at, vs, ks),
    ensures
        values_of(es, at, ks[0]) == Ok::<(Seq<FieldV>, int), StopV>((vs, ks.last())),
    decreases es.len(),
{
    if es.len() > 0 {
        let rest = es.subrange(1, es.len() as int);
        let (ws, ls) = (vs.drop_first(), ks.drop_first());
        assert(value_of(es[0], at, ks[0]) == Ok::<(FieldV, int), StopV>((vs[0], ks[1])));
        assert forall|i: int| 0 <= i < rest.len() implies value_of(#[trigger] rest[i], at, ls[i])
            == Ok::<(FieldV, int), StopV>((ws[i], ls[i + 1])) by {
            assert(rest[i] == es[i + 1]);
        }
        law_lists_are_evaluated_in_order(rest, at, ws, ls);
        assert(vs =~= seq![vs[0]] + ws);
        assert(ls.last() == ks.last());
    } else {
        assert(vs =~= seq![]);
    }
}

proof fn lemma_run_together(parts: Seq<Seq<char>>)
    ensures
        joined(parts, ""@) == parts.flatten(),
    decreases parts.len(),
{
    reveal_strlit("");
    assert(""@ =~= Seq::<char>::empty());
    if parts.len() == 0 {
        assert(parts =~= Seq::<Seq<char>>::empty());
    } else {
        let front = parts.drop_last();
        lemma_run_together(front);
        front.lemma_flatten_push(parts.last());
        assert(front.push(parts.last()) =~= parts);
        assert(joined(parts, ""@) =~= joined(front, ""@) + parts.last()) by {
            if parts.len() == 1 {
                assert(joined(front, ""@) =~= Seq::<char>::empty());
            }
        }
    }
}

/// Texts put together are one behind the other, in order and with nothing between them.
pub proof fn law_texts_are_put_together_in_order(
    es: Vec<ValExpr>,
    at: PlaceV,
    vs: Seq<FieldV>,
    ks: Seq<int>,
)
    requires
        evaluates(es@, at, vs, ks),
    ensures
        value_of(ValExpr::Concat(es), at, ks[0]) == Ok::<(FieldV, int), StopV>(
            (FieldV::Str(row_texts(vs).flatten()), ks.last()),
        ),
{
    law_lists_are_evaluated_in_order(es@, at, vs, ks);
    lemma_run_together(row_texts(vs));
}

proof fn lemma_next_filled(vs: Seq<FieldV>, i: int)
    requires
        0 <= i <= vs.len(),
    ensures
        i <= next_filled(vs, i) <= vs.len(),
        next_filled(vs, i) < vs.len() ==> vs[next_filled(vs, i)].text().len() > 0,
        forall|k: int| i <= k < next_filled(vs, i) ==> (#[trigger] vs[k]).text().len() == 0,
    decreases vs.len() - i,
{
    if i < vs.len() && vs[i].text().len() == 0 {
        lemma_next_filled(vs, i + 1);
    }
}

/// `coalesce` is the first of its arguments that is not empty.
pub proof fn law_coalesce_is_the_first_that_is_not_empty(
    es: Vec<ValExpr>,
    at: PlaceV,
    vs: Seq<FieldV>,
    ks: Seq<int>,
    i: int,
)
    requires
        evaluates(es@, at, vs, ks),
        vs.len() > 0,
        0 <= i < vs.len(),
        vs[i].text().len() > 0,
        forall|k: int| 0 <= k < i ==> (#[trigger] vs[k]).text().len() == 0,
    ensures
        value_of(ValExpr::Func(Func::Coalesce, es), at, ks[0]) == Ok::<(FieldV, int), StopV>(
            (vs[i], ks.last()),
        ),
{
    law_lists_are_evaluated_in_order(es@, at, vs, ks);
    lemma_next_filled(vs, 0);
    let k = next_filled(vs, 0);
    if k < i {
        assert(vs[k].text().len() == 0);
    }
    if i < k {
        assert(vs[i].text().len() == 0);
    }
}

/// `coalesce` of nothing but empty values is empty.
pub proof fn law_coalesce_of_empty_values_is_empty(
    es: Vec<ValExpr>,
    at: PlaceV,
    vs: Seq<FieldV>,
    ks: Seq<int>,
)
    requires
        evaluates(es@, at, vs, ks),
        vs.len() > 0,
        forall|k: int| 0 <= k < vs.len() ==> (#[trigger] vs[k]).text().len() == 0,
    ensures
        value_of(ValExpr::Func(Func::Coalesce, es), at, ks[0]) matches Ok((v, k)) && v.text().len()
            == 0 && k == ks.last(),
{
    law_lists_are_evaluated_in_order(es@, at, vs, ks);
    lemma_next_filled(vs, 0);
    assert(vs[0].text().len() == 0);
}

proof fn lemma_numbers(vs: Seq<FieldV>, at: PlaceV)
    ensures
        match numbers(vs, at) {
            Ok(ns) => ns.len() == vs.len() && forall|i: int|
                0 <= i < vs.len() ==> reading(#[trigger] vs[i], at.readings) == Ok::<
                    NumV,
                    Seq<char>,
                >(ns[i]),
            Err(s) => s matches StopV::Fault(FaultV::NotNumber(t)) && exists|i: int|
                0 <= i < vs.len() && reading(#[trigger] vs[i], at.readings) == Err::<
                    NumV,
                    Seq<char>,
                >(t) && forall|k: int| 0 <= k < i ==> reading(#[trigger] vs[k], at.readings) is Ok,
        },
    decreases vs.len(),
{
    if vs.len() > 0 {
        let front = vs.drop_last();
        lemma_numbers(front, at);
        assert(forall|i: int| 0 <= i < front.len() ==> #[trigger] front[i] == vs[i]);
        match numbers(front, at) {
            Ok(ns) => {
                assert forall|k: int| 0 <= k < front.len() implies reading(
                    #[trigger] vs[k],
                    at.readings,
                ) is Ok by {
                    assert(front[k] == vs[k]);
                }
                match number(vs.last(), at) {
                    Ok(n) => {
                        assert forall|i: int| 0 <= i < vs.len() implies reading(
                            #[trigger] vs[i],
                            at.readings,
                        ) == Ok::<NumV, Seq<char>>(ns.push(n)[i]) by {
                            if i < front.len() {
                                assert(front[i] == vs[i]);
                            }
                        }
                    },
                    Err(_) => {
                        assert(reading(vs[vs.len() - 1], at.readings) is Err);
                    },
                }
            },
            Err(s) => {
                let t = s->Fault_0->NotNumber_0;
                let i = choose|i: int|
                    0 <= i < front.len() && reading(#[trigger] front[i], at.readings) == Err::<
                        NumV,
                        Seq<char>,
                    >(t) && forall|k: int|
                        0 <= k < i ==> reading(#[trigger] front[k], at.readings) is Ok;
                assert(vs[i] == front[i]);
                assert forall|k: int| 0 <= k < i implies reading(#[trigger] vs[k], at.readings) is Ok by {
                    assert(front[k] == vs[k]);
                }
            },
        }
    }
}

/// The functions of a text look at their first argument: `len` counts its characters,
/// `trim` takes the space around it, `upper` and `lower` change its letters, and `str`
/// is how it is written; `num` is the number it reads as.
pub proof fn law_functions_of_texts_look_at_the_first_argument(
    es: Vec<ValExpr>,
    at: PlaceV,
    vs: Seq<FieldV>,
    ks: Seq<int>,
)
    requires
        evaluates(es@, at, vs, ks),
        vs.len() > 0,
    ensures
        ({
            let text = vs[0].text();
            let end = ks.last();
            &&& value_of(ValExpr::Func(Func::Len, es), at, ks[0]) == Ok::<(FieldV, int), StopV>(
                (FieldV::Num(whole_view(text.len())), end),
            )
            &&& value_of(ValExpr::Func(Func::Trim, es), at, ks[0]) == Ok::<(FieldV, int), StopV>(
                (FieldV::Str(trimmed(text)), end),
            )
            &&& value_of(ValExpr::Func(Func::Upper, es), at, ks[0]) == Ok::<(FieldV, int), StopV>(
                (FieldV::Str(upper_form(text)), end),
            )
            &&& value_of(ValExpr::Func(Func::Lower, es), at, ks[0]) == Ok::<(FieldV, int), StopV>(
                (FieldV::Str(lower_form(text)), end),
            )
            &&& value_of(ValExpr::Func(Func::Str, es), at, ks[0]) == Ok::<(FieldV, int), StopV>(
                (FieldV::Str(text), end),
            )
            &&& value_of(ValExpr::Func(Func::Num, es), at, ks[0]) == match reading(
                vs[0],
                at.readings,
            ) {
                Ok(n) => Ok::<(FieldV, int), StopV>((FieldV::Num(n), end)),
                Err(t) => Err(StopV::Fault(FaultV::NotNumber(t))),
            }
        }),
{
    law_lists_are_evaluated_in_order(es@, at, vs, ks);
}

/// A function of numbers is that of all of its arguments, in order, each read as a
/// number; the first text that is none is what is wrong.
pub proof fn law_functions_of_numbers_are_of_all_arguments(
    f: Func,
    es: Vec<ValExpr>,
    at: PlaceV,
    vs: Seq<FieldV>,
    ks: Seq<int>,
)
    requires
        f is Round || f is Floor || f is Ceil || f is Abs || f is Int || f is Sqrt || f is Pow
            || f is Exp || f is Log || f is Log10 || f is Log2 || f is Sign || f is Min || f is Max,
        evaluates(es@, at, vs, ks),
        vs.len() > 0,
    ensures
        ({
            let r = value_of(ValExpr::Func(f, es), at, ks[0]);
            &&& (forall|i: int| 0 <= i < vs.len() ==> reading(#[trigger] vs[i], at.readings) is Ok)
                ==> exists|ns: Seq<NumV>|
                {
                    &&& ns.len() == vs.len()
                    &&& forall|i: int|
                        0 <= i < vs.len() ==> reading(#[trigger] vs[i], at.readings) == Ok::<
                            NumV,
                            Seq<char>,
                        >(ns[i])
                    &&& #[trigger] results_in(r, NumOpV::Func(f, ns), at, ks.last())
                }
            &&& forall|i: int, t: Seq<char>|
                0 <= i < vs.len() && #[trigger] reading(vs[i], at.readings) == Err::<
                    NumV,
                    Seq<char>,
                >(t) && (forall|k: int|
                    0 <= k < i ==> reading(#[trigger] vs[k], at.readings) is Ok) ==> r == Err::<
                    (FieldV, int),
                    StopV,
                >(#[trigger] not_number(t))
        }),
{
    law_lists_are_evaluated_in_order(es@, at, vs, ks);
    lemma_numbers(vs, at);
    let r = value_of(ValExpr::Func(f, es), at, ks[0]);
    match numbers(vs, at) {
        Ok(ns) => {
            assert(results_in(r, NumOpV::Func(f, ns), at, ks.last()));
        },
        Err(s) => {
            let t = s->Fault_0->NotNumber_0;
            let i = choose|i: int|
                0 <= i < vs.len() && reading(#[trigger] vs[i], at.readings) == Err::<
                    NumV,
                    Seq<char>,
                >(t) && forall|k: int| 0 <= k < i ==> reading(#[trigger] vs[k], at.readings) is Ok;
            assert(!(reading(vs[i], at.readings) is Ok));
        },
    }
}

/// What is said of a text that is no number.
pub open spec fn not_number(t: Seq<char>) -> StopV {
    StopV::Fault(FaultV::NotNumber(t))
}

/// A function of nothing fails.
pub proof fn law_a_function_of_nothing_fails(f: Func, es: Vec<ValExpr>, at: PlaceV, used: int)
    requires
        es@.len() == 0,
    ensures
        value_of(ValExpr::Func(f, es), at, used) == Err::<(FieldV, int), StopV>(
            StopV::Fault(FaultV::NoArgument(f)),
        ),
{
    assert(values_of(es@, at, used) == Ok::<(Seq<FieldV>, int), StopV>((seq![], used)));
}

} // verus!
