//! What `select` keeps: what a condition means on a row.

use crate::field::{FieldV, NumV, is_nan, place};
use crate::outside::regex_found;
use crate::plan::{
    AffixKind, BoolExpr, Cmp, CmpOp, ColRef, Operand, affixed, compares, eval_spec, eval_until,
    occurs, operand_num, operand_text,
};
use crate::text::{
    blank, ends_with, is_white, lex_lt, starts_with, trimmed, trimmed_end, trimmed_start,
};
use vstd::prelude::*;

verus! {

/// Whether `a` comes before `b` in a dictionary: they agree up to some place, and
/// there `a` ends, or has the character with the smaller code.
pub open spec fn comes_first(a: Seq<char>, b: Seq<char>) -> bool {
    exists|k: int| #[trigger] parts_at(a, b, k)
}

/// Whether `a` and `b` agree up to `k`, and `a` is the smaller there.
pub open spec fn parts_at(a: Seq<char>, b: Seq<char>, k: int) -> bool {
    &&& 0 <= k <= a.len()
    &&& k < b.len()
    &&& forall|i: int| 0 <= i < k ==> a[i] == b[i]
    &&& k < a.len() ==> (a[k] as u32) < (b[k] as u32)
}

/// The order of texts is that of a dictionary.
pub proof fn law_texts_stand_in_dictionary_order(a: Seq<char>, b: Seq<char>)
    ensures
        lex_lt(a, b) <==> comes_first(a, b),
        comes_first(a, b) ==> !comes_first(b, a) && a != b,
        a == b || comes_first(a, b) || comes_first(b, a),
    decreases a.len(),
{
    lemma_dictionary(a, b);
    lemma_dictionary(b, a);
    lemma_one_comes_first(a, b);
}

proof fn lemma_dictionary(a: Seq<char>, b: Seq<char>)
    ensures
        lex_lt(a, b) <==> comes_first(a, b),
    decreases a.len(),
{
    if a.len() == 0 || b.len() == 0 {
        if b.len() > 0 {
            assert(parts_at(a, b, 0));
        }
    } else {
        vstd::utf8::char_u32_cast(a[0], a[0] as u32);
        vstd::utf8::char_u32_cast(b[0], b[0] as u32);
        let (x, y) = (a.drop_first(), b.drop_first());
        lemma_dictionary(x, y);
        if a[0] == b[0] {
            if comes_first(x, y) {
                let k = choose|k: int| #[trigger] parts_at(x, y, k);
                assert forall|i: int| 0 <= i < k + 1 implies a[i] == b[i] by {
                    if i > 0 {
                        assert(x[i - 1] == y[i - 1]);
                    }
                }
                assert(k < x.len() ==> x[k] == a[k + 1]);
                assert(y[k] == b[k + 1]);
                assert(parts_at(a, b, k + 1));
            }
            if comes_first(a, b) {
                let k = choose|k: int| #[trigger] parts_at(a, b, k);
                assert forall|i: int| 0 <= i < k - 1 implies x[i] == y[i] by {
                    assert(a[i + 1] == b[i + 1]);
                }
                assert(k > 0);
                assert(parts_at(x, y, k - 1));
            }
        } else {
            if (a[0] as u32) < (b[0] as u32) {
                assert(parts_at(a, b, 0));
            }
            if comes_first(a, b) {
                let k = choose|k: int| #[trigger] parts_at(a, b, k);
                if k > 0 {
                    assert(a[0] == b[0]);
                }
            }
        }
    }
}

proof fn lemma_one_comes_first(a: Seq<char>, b: Seq<char>)
    ensures
        comes_first(a, b) ==> !comes_first(b, a) && a != b,
        a == b || comes_first(a, b) || comes_first(b, a),
    decreases a.len(),
{
    lemma_dictionary(a, b);
    lemma_dictionary(b, a);
    if a.len() == 0 || b.len() == 0 {
        if a.len() == 0 && b.len() == 0 {
            assert(a =~= b);
        }
    } else {
        vstd::utf8::char_u32_cast(a[0], a[0] as u32);
        vstd::utf8::char_u32_cast(b[0], b[0] as u32);
        let (x, y) = (a.drop_first(), b.drop_first());
        lemma_one_comes_first(x, y);
        lemma_dictionary(x, y);
        lemma_dictionary(y, x);
        if a[0] == b[0] && x == y {
            assert(a =~= seq![a[0]] + x);
            assert(b =~= seq![b[0]] + y);
        }
    }
}

/// A comparison of numbers holds by their values, each operator by its own relation;
/// one with what is not a number holds only where it says that the two differ.
pub proof fn law_numbers_compare_by_value(
    c: Cmp,
    row: Seq<FieldV>,
    readings: Map<Seq<char>, NumV>,
    a: NumV,
    b: NumV,
)
    requires
        c.numeric,
        operand_num(c.lhs, row, readings) == Ok::<NumV, Seq<char>>(a),
        operand_num(c.rhs, row, readings) == Ok::<NumV, Seq<char>>(b),
    ensures
        ({
            let (x, y) = (place(a.bits), place(b.bits));
            let both = !is_nan(a.bits) && !is_nan(b.bits);
            compares(c, row, readings) == Ok::<bool, Seq<char>>(
                match c.op {
                    CmpOp::Lt => both && x < y,
                    CmpOp::Le => both && x <= y,
                    CmpOp::Gt => both && x > y,
                    CmpOp::Ge => both && x >= y,
                    CmpOp::Eq => both && x == y,
                    CmpOp::Ne => !(both && x == y),
                },
            )
        }),
{
}

/// A comparison of texts holds by their order in a dictionary, each operator by its
/// own relation.
pub proof fn law_texts_compare_by_dictionary(
    c: Cmp,
    row: Seq<FieldV>,
    readings: Map<Seq<char>, NumV>,
)
    requires
        !c.numeric,
    ensures
        ({
            let (x, y) = (operand_text(c.lhs, row), operand_text(c.rhs, row));
            compares(c, row, readings) == Ok::<bool, Seq<char>>(
                match c.op {
                    CmpOp::Lt => comes_first(x, y),
                    CmpOp::Le => comes_first(x, y) || x == y,
                    CmpOp::Gt => comes_first(y, x),
                    CmpOp::Ge => comes_first(y, x) || x == y,
                    CmpOp::Eq => x == y,
                    CmpOp::Ne => x != y,
                },
            )
        }),
{
    law_texts_stand_in_dictionary_order(operand_text(c.lhs, row), operand_text(c.rhs, row));
    law_texts_stand_in_dictionary_order(operand_text(c.rhs, row), operand_text(c.lhs, row));
}

/// What stands on one side of a comparison: a column is the row's cell in its place,
/// an empty one where the row is too short, and a literal is itself.
pub proof fn law_operands_are_cells_and_literals(
    o: Operand,
    row: Seq<FieldV>,
    readings: Map<Seq<char>, NumV>,
)
    ensures
        o matches Operand::Str(s) ==> operand_text(o, row) == s@,
        o matches Operand::Num(n) ==> operand_text(o, row) == n.num.text@ && operand_num(
            o,
            row,
            readings,
        ) == Ok::<NumV, Seq<char>>(n.num@),
        o matches Operand::Col(c) ==> if c.pos < row.len() {
            match row[c.pos as int] {
                FieldV::Str(s) => {
                    &&& operand_text(o, row) == s
                    &&& operand_num(o, row, readings) == reads_as(s, readings)
                },
                FieldV::Num(n) => {
                    &&& operand_text(o, row) == n.text
                    &&& operand_num(o, row, readings) == Ok::<NumV, Seq<char>>(n)
                },
            }
        } else {
            &&& operand_text(o, row) == Seq::<char>::empty()
            &&& operand_num(o, row, readings) == reads_as(seq![], readings)
        },
{
}

/// What a text is as a number: what its characters without the space around them
/// read as, zero where there are none, and else the text is what is wrong.
pub open spec fn reads_as(s: Seq<char>, readings: Map<Seq<char>, NumV>) -> Result<
    NumV,
    Seq<char>,
> {
    let t = trimmed(s);
    if t.len() == 0 {
        Ok(NumV { bits: 0, text: "0"@ })
    } else if readings.dom().contains(t) {
        Ok(readings[t])
    } else {
        Err(s)
    }
}

/// `!` gives the other answer.
pub proof fn law_not_gives_the_other_answer(
    e: BoolExpr,
    row: Seq<FieldV>,
    readings: Map<Seq<char>, NumV>,
    b: bool,
)
    requires
        eval_spec(e, row, readings) == Ok::<bool, Seq<char>>(b),
    ensures
        eval_spec(BoolExpr::Not(Box::new(e)), row, readings) == Ok::<bool, Seq<char>>(!b),
{
}

/// Whether each of the conditions has an answer on the row.
pub open spec fn all_answered(
    es: Seq<BoolExpr>,
    row: Seq<FieldV>,
    readings: Map<Seq<char>, NumV>,
) -> bool {
    forall|i: int| 0 <= i < es.len() ==> eval_spec(#[trigger] es[i], row, readings) is Ok
}

/// Whether a condition holds on the row.
pub open spec fn says_yes(
    e: BoolExpr,
    row: Seq<FieldV>,
    readings: Map<Seq<char>, NumV>,
) -> bool {
    eval_spec(e, row, readings) == Ok::<bool, Seq<char>>(true)
}

proof fn lemma_until(
    es: Seq<BoolExpr>,
    go: bool,
    row: Seq<FieldV>,
    readings: Map<Seq<char>, NumV>,
)
    requires
        all_answered(es, row, readings),
    ensures
        eval_until(es, go, row, readings) == Ok::<bool, Seq<char>>(
            if exists|i: int|
                0 <= i < es.len() && eval_spec(#[trigger] es[i], row, readings) == Ok::<
                    bool,
                    Seq<char>,
                >(!go) {
                !go
            } else {
                go
            },
        ),
    decreases es.len(),
{
    if es.len() > 0 {
        let rest = es.subrange(1, es.len() as int);
        assert(eval_spec(es[0], row, readings) is Ok);
        assert forall|i: int| 0 <= i < rest.len() implies eval_spec(
            #[trigger] rest[i],
            row,
            readings,
        ) is Ok by {
            assert(rest[i] == es[i + 1]);
        }
        lemma_until(rest, go, row, readings);
        if exists|i: int|
            0 <= i < rest.len() && eval_spec(#[trigger] rest[i], row, readings) == Ok::<
                bool,
                Seq<char>,
            >(!go) {
            let i = choose|i: int|
                0 <= i < rest.len() && eval_spec(#[trigger] rest[i], row, readings) == Ok::<
                    bool,
                    Seq<char>,
                >(!go);
            assert(es[i + 1] == rest[i]);
        }
        if exists|i: int|
            0 <= i < es.len() && eval_spec(#[trigger] es[i], row, readings) == Ok::<
                bool,
                Seq<char>,
            >(!go) {
            let i = choose|i: int|
                0 <= i < es.len() && eval_spec(#[trigger] es[i], row, readings) == Ok::<
                    bool,
                    Seq<char>,
                >(!go);
            if i > 0 {
                assert(rest[i - 1] == es[i]);
            }
        }
    }
}

/// `&&` holds where every condition does, and `||` where one does.
pub proof fn law_and_needs_all_and_or_needs_one(
    all: Vec<BoolExpr>,
    row: Seq<FieldV>,
    readings: Map<Seq<char>, NumV>,
)
    requires
        all_answered(all@, row, readings),
    ensures
        eval_spec(BoolExpr::And(all), row, readings) == Ok::<bool, Seq<char>>(
            forall|i: int| 0 <= i < all@.len() ==> says_yes(#[trigger] all@[i], row, readings),
        ),
        eval_spec(BoolExpr::Or(all), row, readings) == Ok::<bool, Seq<char>>(
            exists|i: int| 0 <= i < all@.len() && says_yes(#[trigger] all@[i], row, readings),
        ),
{
    lemma_until(all@, true, row, readings);
    lemma_until(all@, false, row, readings);
    assert forall|i: int| 0 <= i < all@.len() implies says_yes(#[trigger] all@[i], row, readings)
        || eval_spec(all@[i], row, readings) == Ok::<bool, Seq<char>>(false) by {
        lemma_yes_or_no(eval_spec(all@[i], row, readings));
    }
}

proof fn lemma_yes_or_no(r: Result<bool, Seq<char>>)
    requires
        r is Ok,
    ensures
        r == Ok::<bool, Seq<char>>(true) || r == Ok::<bool, Seq<char>>(false),
{
    let b = r->Ok_0;
    if b {
        assert(r == Ok::<bool, Seq<char>>(true));
    } else {
        assert(r == Ok::<bool, Seq<char>>(false));
    }
}

/// What one condition in a row of them decides stands, whatever those behind it say:
/// `&&` at the first that does not hold, `||` at the first that does.
pub proof fn law_and_and_or_stop_where_they_are_decided(
    all: Vec<BoolExpr>,
    row: Seq<FieldV>,
    readings: Map<Seq<char>, NumV>,
    k: int,
)
    requires
        0 <= k < all@.len(),
        all_answered(all@.take(k + 1), row, readings),
    ensures
        !says_yes(all@[k], row, readings) && (forall|i: int|
            0 <= i < k ==> says_yes(#[trigger] all@[i], row, readings)) ==> eval_spec(
            BoolExpr::And(all),
            row,
            readings,
        ) == Ok::<bool, Seq<char>>(false),
        says_yes(all@[k], row, readings) && (forall|i: int|
            0 <= i < k ==> !says_yes(#[trigger] all@[i], row, readings)) ==> eval_spec(
            BoolExpr::Or(all),
            row,
            readings,
        ) == Ok::<bool, Seq<char>>(true),
{
    assert forall|i: int| 0 <= i <= k implies says_yes(#[trigger] all@[i], row, readings)
        || eval_spec(all@[i], row, readings) == Ok::<bool, Seq<char>>(false) by {
        assert(all@.take(k + 1)[i] == all@[i]);
        lemma_yes_or_no(eval_spec(all@[i], row, readings));
    }
    if !says_yes(all@[k], row, readings) && (forall|i: int|
        0 <= i < k ==> says_yes(#[trigger] all@[i], row, readings)) {
        lemma_decided(all@, true, row, readings, k);
    }
    if says_yes(all@[k], row, readings) && (forall|i: int|
        0 <= i < k ==> !says_yes(#[trigger] all@[i], row, readings)) {
        lemma_decided(all@, false, row, readings, k);
    }
}

proof fn lemma_decided(
    es: Seq<BoolExpr>,
    go: bool,
    row: Seq<FieldV>,
    readings: Map<Seq<char>, NumV>,
    k: int,
)
    requires
        0 <= k < es.len(),
        forall|i: int|
            0 <= i < k ==> eval_spec(#[trigger] es[i], row, readings) == Ok::<bool, Seq<char>>(go),
        eval_spec(es[k], row, readings) == Ok::<bool, Seq<char>>(!go),
    ensures
        eval_until(es, go, row, readings) == Ok::<bool, Seq<char>>(!go),
    decreases k,
{
    if k > 0 {
        let rest = es.subrange(1, es.len() as int);
        assert(eval_spec(es[0], row, readings) == Ok::<bool, Seq<char>>(go));
        assert forall|i: int| 0 <= i < k - 1 implies eval_spec(#[trigger] rest[i], row, readings)
            == Ok::<bool, Seq<char>>(go) by {
            assert(rest[i] == es[i + 1]);
        }
        assert(rest[k - 1] == es[k]);
        lemma_decided(rest, go, row, readings, k - 1);
    }
}

/// A cell begins with, holds or ends with a text where the text stands in it there,
/// character by character.
pub proof fn law_affixes_stand_where_they_say(s: Seq<char>, t: Seq<char>)
    ensures
        affixed(AffixKind::Begins, s, t) <==> exists|rest: Seq<char>| s == #[trigger] (t + rest),
        affixed(AffixKind::Ends, s, t) <==> exists|front: Seq<char>| s == #[trigger] (front + t),
        affixed(AffixKind::Contains, s, t) <==> exists|front: Seq<char>, rest: Seq<char>|
            s == #[trigger] (front + t + rest),
{
    if starts_with(s, t) {
        assert(s =~= t + s.skip(t.len() as int));
    }
    assert forall|rest: Seq<char>| s == #[trigger] (t + rest) implies starts_with(s, t) by {
        assert(s.take(t.len() as int) =~= t);
    }
    if ends_with(s, t) {
        assert(s =~= s.take(s.len() - t.len()) + t);
    }
    assert forall|front: Seq<char>| s == #[trigger] (front + t) implies ends_with(s, t) by {
        assert(s.skip(s.len() - t.len()) =~= t);
    }
    if occurs(s, t) {
        let i = choose|i: int| 0 <= i <= s.len() && #[trigger] starts_with(s.skip(i), t);
        assert(s =~= s.take(i) + t + s.skip(i + t.len()));
    }
    assert forall|front: Seq<char>, rest: Seq<char>| s == #[trigger] (front + t + rest) implies occurs(
        s,
        t,
    ) by {
        let i = front.len() as int;
        assert(s.skip(i).take(t.len() as int) =~= t);
        assert(starts_with(s.skip(i), t));
    }
}

/// A condition on a column's text looks at the row's cell in that place.
pub proof fn law_texts_are_looked_for_in_their_column(
    col: ColRef,
    needle: String,
    kind: AffixKind,
    row: Seq<FieldV>,
    readings: Map<Seq<char>, NumV>,
)
    ensures
        eval_spec(BoolExpr::Affix { col, needle, kind }, row, readings) == Ok::<bool, Seq<char>>(
            affixed(
                kind,
                if col.pos < row.len() {
                    row[col.pos as int].text()
                } else {
                    Seq::empty()
                },
                needle@,
            ),
        ),
{
}

/// A pattern is looked for in the row's cell in its column's place; `!~` holds where
/// `=~` does not.
pub proof fn law_patterns_are_looked_for_in_their_column(
    col: ColRef,
    pattern: String,
    row: Seq<FieldV>,
    readings: Map<Seq<char>, NumV>,
)
    ensures
        ({
            let cell = if col.pos < row.len() {
                row[col.pos as int].text()
            } else {
                Seq::empty()
            };
            let found = regex_found(pattern@, cell) == Some(true);
            &&& says_yes(BoolExpr::Match { col, pattern, negate: false }, row, readings) <==> found
            &&& says_yes(BoolExpr::Match { col, pattern, negate: true }, row, readings) <==> !found
        }),
{
}

/// Trimming takes the white space at both ends of a text, and nothing else.
pub proof fn law_trimming_takes_the_white_space_at_both_ends(s: Seq<char>)
    ensures
        exists|a: Seq<char>, b: Seq<char>|
            blank(a) && blank(b) && s == #[trigger] (a + trimmed(s) + b),
        trimmed(s).len() > 0 ==> !is_white(trimmed(s)[0]) && !is_white(trimmed(s).last()),
{
    let t = trimmed_start(s);
    let a = lemma_start(s);
    let b = lemma_end(t);
    assert(s =~= a + trimmed(s) + b);
    if trimmed(s).len() > 0 {
        assert(trimmed(s)[0] == t[0]);
    }
}

proof fn lemma_start(s: Seq<char>) -> (a: Seq<char>)
    ensures
        blank(a),
        s == a + trimmed_start(s),
        trimmed_start(s).len() > 0 ==> !is_white(trimmed_start(s)[0]),
    decreases s.len(),
{
    if s.len() > 0 && is_white(s[0]) {
        let r = lemma_start(s.drop_first());
        let a = seq![s[0]] + r;
        assert(s =~= a + trimmed_start(s)) by {
            assert(s =~= seq![s[0]] + s.drop_first());
        }
        assert forall|i: int| 0 <= i < a.len() implies is_white(#[trigger] a[i]) by {
            if i > 0 {
                assert(a[i] == r[i - 1]);
            }
        }
        a
    } else {
        assert(s =~= Seq::<char>::empty() + s);
        Seq::empty()
    }
}

proof fn lemma_end(s: Seq<char>) -> (b: Seq<char>)
    ensures
        blank(b),
        s == trimmed_end(s) + b,
        trimmed_end(s).len() > 0 ==> !is_white(trimmed_end(s).last()),
    decreases s.len(),
{
    if s.len() > 0 && is_white(s.last()) {
        let r = lemma_end(s.drop_last());
        let b = r + seq![s.last()];
        assert(s =~= trimmed_end(s) + b) by {
            assert(s =~= s.drop_last() + seq![s.last()]);
        }
        b
    } else {
        assert(s =~= s + Seq::<char>::empty());
        Seq::empty()
    }
}

} // verus!
