//! What the forms of a pipeline compile to.

use crate::compile::{
    BoolOp, ColType, Form, Item, Modifier, RefusalV, Shape, any_bool_refusal, any_key_refusal,
    any_name_refusal, asks, bool_is, bool_refusal, bools_are, flat, grouped, item_is, key_is,
    key_parts, marked, match_refusal, modifier_named, modifier_of, modifier_refusal, name_of,
    names_of, names_refusal, numeric_col, op_named, pair_refusal, stage_items, types_after,
    verb_refusal,
};
use crate::outside::regex_fault;
use crate::plan::{BoolExpr, CmpOp, LiteralV, Operand, SortKey, SortStmt, Stage, Stmt};
use crate::text::{texts, trimmed};
use vstd::prelude::*;

verus! {

/// What each operator of a condition stands for, by its names.
pub proof fn law_operators_go_by_their_names()
    ensures
        op_named("and"@) == Some(BoolOp::And) && op_named("&&"@) == Some(BoolOp::And),
        op_named("or"@) == Some(BoolOp::Or) && op_named("||"@) == Some(BoolOp::Or),
        op_named("not"@) == Some(BoolOp::Not) && op_named("!"@) == Some(BoolOp::Not),
        op_named("=="@) == Some(BoolOp::Compare(CmpOp::Eq)),
        op_named("="@) == Some(BoolOp::Compare(CmpOp::Eq)),
        op_named("!="@) == Some(BoolOp::Compare(CmpOp::Ne)),
        op_named("/="@) == Some(BoolOp::Compare(CmpOp::Ne)),
        op_named("<"@) == Some(BoolOp::Compare(CmpOp::Lt)),
        op_named(">"@) == Some(BoolOp::Compare(CmpOp::Gt)),
        op_named("<="@) == Some(BoolOp::Compare(CmpOp::Le)),
        op_named(">="@) == Some(BoolOp::Compare(CmpOp::Ge)),
        op_named("=~"@) == Some(BoolOp::Match { negate: false }),
        op_named("!~"@) == Some(BoolOp::Match { negate: true }),
{
    reveal_strlit("and");
    reveal_strlit("&&");
    reveal_strlit("or");
    reveal_strlit("||");
    reveal_strlit("not");
    reveal_strlit("!");
    reveal_strlit("==");
    reveal_strlit("=");
    reveal_strlit("!=");
    reveal_strlit("/=");
    reveal_strlit("<");
    reveal_strlit(">");
    reveal_strlit("<=");
    reveal_strlit(">=");
    reveal_strlit("=~");
    reveal_strlit("!~");
    assert("and"@.len() == 3 && "not"@.len() == 3 && "and"@[0] == 'a' && "not"@[0] == 'n');
    assert("!"@.len() == 1 && "="@.len() == 1 && "<"@.len() == 1 && ">"@.len() == 1);
    assert("!"@[0] == '!' && "="@[0] == '=' && "<"@[0] == '<' && ">"@[0] == '>');
    assert("or"@.len() == 2 && "&&"@.len() == 2 && "||"@.len() == 2 && "=="@.len() == 2
        && "!="@.len() == 2 && "/="@.len() == 2 && "<="@.len() == 2 && ">="@.len() == 2
        && "=~"@.len() == 2 && "!~"@.len() == 2);
    assert("or"@[0] == 'o' && "&&"@[0] == '&' && "||"@[0] == '|' && "=="@[0] == '=' && "!="@[0]
        == '!' && "/="@[0] == '/' && "<="@[0] == '<' && ">="@[0] == '>' && "=~"@[0] == '='
        && "!~"@[0] == '!');
    assert("=="@[1] == '=' && "=~"@[1] == '~' && "!="@[1] == '=' && "!~"@[1] == '~');
}

/// A comparison compares its first operand with its second by its operator, as numbers
/// where one of the two is a number or a column marked as one.
pub proof fn law_a_comparison_compares_in_order(
    form: Form,
    items: Vec<Form>,
    name: String,
    op: CmpOp,
    types: Map<Seq<char>, ColType>,
    literals: Map<Seq<char>, LiteralV>,
    e: BoolExpr,
)
    requires
        form.shape == Shape::List(items),
        items@.len() > 0,
        items@[0].shape == Shape::Symbol(name),
        op_named(name@) == Some(BoolOp::Compare(op)),
        bool_is(form, types, literals, e),
    ensures
        items@.len() == 3,
        e matches BoolExpr::Cmp(c) && {
            &&& c.op == op
            &&& c.numeric <==> (items@[1].shape is Num || items@[2].shape is Num || (
            items@[1].shape matches Shape::Symbol(s) && types.contains_key(s@) && types[s@]
                == ColType::Num) || (items@[2].shape matches Shape::Symbol(s)
                && types.contains_key(s@) && types[s@] == ColType::Num))
            &&& items@[1].shape matches Shape::Symbol(s) ==> (c.lhs matches Operand::Col(col)
                && col.name@ == s@)
            &&& items@[2].shape matches Shape::Symbol(s) ==> (c.rhs matches Operand::Col(col)
                && col.name@ == s@)
            &&& items@[1].shape matches Shape::Num(n) ==> (c.lhs matches Operand::Num(m) && m@ == n@)
            &&& items@[2].shape matches Shape::Num(n) ==> (c.rhs matches Operand::Num(m) && m@ == n@)
            &&& items@[1].shape matches Shape::Str(s) ==> (!c.numeric ==> (c.lhs matches Operand::Str(
                t,
            ) && t@ == s@))
            &&& items@[2].shape matches Shape::Str(s) ==> (!c.numeric ==> (c.rhs matches Operand::Str(
                t,
            ) && t@ == s@))
            &&& items@[1].shape matches Shape::Str(s) ==> (c.numeric ==> (c.lhs matches Operand::Num(
                n,
            ) && n@ == literals[trimmed(s@)]))
            &&& items@[2].shape matches Shape::Str(s) ==> (c.numeric ==> (c.rhs matches Operand::Num(
                n,
            ) && n@ == literals[trimmed(s@)]))
        },
{
    let rest = items@.subrange(1, items@.len() as int);
    assert(rest.len() == 2);
    assert(rest[0] == items@[1] && rest[1] == items@[2]);
}

proof fn lemma_bools(
    forms: Seq<Form>,
    types: Map<Seq<char>, ColType>,
    literals: Map<Seq<char>, LiteralV>,
    es: Seq<BoolExpr>,
)
    requires
        bools_are(forms, types, literals, es),
    ensures
        es.len() == forms.len(),
        forall|i: int|
            0 <= i < forms.len() ==> bool_is(#[trigger] forms[i], types, literals, es[i]),
    decreases forms.len(),
{
    if forms.len() > 0 {
        let f = forms.subrange(1, forms.len() as int);
        let r = es.subrange(1, es.len() as int);
        lemma_bools(f, types, literals, r);
        assert forall|i: int| 0 <= i < forms.len() implies bool_is(
            #[trigger] forms[i],
            types,
            literals,
            es[i],
        ) by {
            if i > 0 {
                assert(f[i - 1] == forms[i]);
                assert(r[i - 1] == es[i]);
            }
        }
    }
}

/// `and`, `or` and `not` are of the conditions behind them, in order.
pub proof fn law_connectives_are_of_the_conditions_behind_them(
    form: Form,
    items: Vec<Form>,
    name: String,
    types: Map<Seq<char>, ColType>,
    literals: Map<Seq<char>, LiteralV>,
    e: BoolExpr,
)
    requires
        form.shape == Shape::List(items),
        items@.len() > 0,
        items@[0].shape == Shape::Symbol(name),
        bool_is(form, types, literals, e),
    ensures
        op_named(name@) == Some(BoolOp::And) ==> (e matches BoolExpr::And(es) && es@.len()
            == items@.len() - 1 && (forall|i: int|
            0 <= i < es@.len() ==> bool_is(items@[i + 1], types, literals, #[trigger] es@[i]))),
        op_named(name@) == Some(BoolOp::Or) ==> (e matches BoolExpr::Or(es) && es@.len()
            == items@.len() - 1 && (forall|i: int|
            0 <= i < es@.len() ==> bool_is(items@[i + 1], types, literals, #[trigger] es@[i]))),
        op_named(name@) == Some(BoolOp::Not) ==> (e matches BoolExpr::Not(x) && items@.len() == 2
            && bool_is(items@[1], types, literals, *x)),
        op_named(name@) == Some(BoolOp::Match { negate: false }) ==> (e matches BoolExpr::Match {
            col,
            pattern,
            negate,
        } && !negate && items@.len() == 3 && name_of(items@[1]) == Some(col.name@) && (
        items@[2].shape matches Shape::Str(p) && pattern@ == p@)),
        op_named(name@) == Some(BoolOp::Match { negate: true }) ==> (e matches BoolExpr::Match {
            col,
            pattern,
            negate,
        } && negate && items@.len() == 3 && name_of(items@[1]) == Some(col.name@) && (
        items@[2].shape matches Shape::Str(p) && pattern@ == p@)),
{
    let rest = items@.subrange(1, items@.len() as int);
    match e {
        BoolExpr::And(es) => {
            if op_named(name@) == Some(BoolOp::And) {
                lemma_bools(rest, types, literals, es@);
                assert forall|i: int| 0 <= i < es@.len() implies bool_is(
                    items@[i + 1],
                    types,
                    literals,
                    #[trigger] es@[i],
                ) by {
                    assert(rest[i] == items@[i + 1]);
                }
            }
        },
        BoolExpr::Or(es) => {
            if op_named(name@) == Some(BoolOp::Or) {
                lemma_bools(rest, types, literals, es@);
                assert forall|i: int| 0 <= i < es@.len() implies bool_is(
                    items@[i + 1],
                    types,
                    literals,
                    #[trigger] es@[i],
                ) by {
                    assert(rest[i] == items@[i + 1]);
                }
            }
        },
        _ => {},
    }
    if rest.len() == 2 {
        assert(rest[0] == items@[1] && rest[1] == items@[2]);
    }
}

/// What each modifier of a sort key asks for, by its names, with a colon before them or
/// without.
pub proof fn law_modifiers_go_by_their_names(name: Seq<char>)
    ensures
        name == "reverse"@ || name == "r"@ || name == "desc"@ || name == "descending"@ ==> (
        modifier_named(name) == Some(Modifier::Reverse) && modifier_named(seq![':'] + name) == Some(
            Modifier::Reverse,
        )),
        name == "numeric"@ || name == "n"@ || name == "num"@ ==> (modifier_named(name) == Some(
            Modifier::Numeric,
        ) && modifier_named(seq![':'] + name) == Some(Modifier::Numeric)),
{
    reveal_strlit("reverse");
    reveal_strlit("r");
    reveal_strlit("desc");
    reveal_strlit("descending");
    reveal_strlit("numeric");
    reveal_strlit("n");
    reveal_strlit("num");
    assert((seq![':'] + name).skip(1) =~= name);
    assert("reverse"@[0] == 'r' && "r"@[0] == 'r' && "desc"@[0] == 'd' && "descending"@[0] == 'd'
        && "numeric"@[0] == 'n' && "n"@[0] == 'n' && "num"@[0] == 'n');
}

/// A sort key is descending just when one of its modifiers says so, and numeric just when
/// one says so or its column is marked numeric.
pub proof fn law_a_key_is_what_its_modifiers_say(
    spec: Form,
    types: Map<Seq<char>, ColType>,
    key: SortKey,
)
    requires
        key_is(spec, types, key),
    ensures
        ({
            let (col, mods) = key_parts(spec);
            &&& name_of(col) == Some(key.name@)
            &&& key.descending <==> exists|i: int|
                0 <= i < mods.len() && (#[trigger] mods[i]).shape is Symbol && modifier_named(
                    mods[i].shape->Symbol_0@,
                ) == Some(Modifier::Reverse)
            &&& key.numeric <==> (types.contains_key(key.name@) && types[key.name@] == ColType::Num)
                || exists|i: int|
                0 <= i < mods.len() && (#[trigger] mods[i]).shape is Symbol && modifier_named(
                    mods[i].shape->Symbol_0@,
                ) == Some(Modifier::Numeric)
        }),
        spec.shape matches Shape::List(items) ==> (items@.len() > 0 ==> {
            let (col, mods) = key_parts(spec);
            col == items@[0] && mods.len() == items@.len() - 1 && forall|i: int|
                0 <= i < mods.len() ==> #[trigger] mods[i] == items@[i + 1]
        }),
        !(spec.shape is List) ==> key_parts(spec).0 == spec && key_parts(spec).1.len() == 0,
{
    let (col, mods) = key_parts(spec);
    if asks(mods, Modifier::Reverse) {
        let i = choose|i: int|
            0 <= i < mods.len() && modifier_of(#[trigger] mods[i]) == Some(Modifier::Reverse);
        assert(mods[i].shape is Symbol);
    }
    if asks(mods, Modifier::Numeric) {
        let i = choose|i: int|
            0 <= i < mods.len() && modifier_of(#[trigger] mods[i]) == Some(Modifier::Numeric);
        assert(mods[i].shape is Symbol);
    }
}

/// What each verb appends: `cols` and `drop-cols` the columns they name, to keep or to
/// leave out, `to-num` and `to-str` those to convert, and `sort-by` its keys, in order.
pub proof fn law_a_verb_appends_its_statement(
    verb: Seq<char>,
    args: Seq<Form>,
    types: Map<Seq<char>, ColType>,
    literals: Map<Seq<char>, LiteralV>,
    item: Item,
)
    requires
        item_is(verb, args, types, literals, item),
    ensures
        verb == "cols"@ ==> (item matches Item::Stmt(Stmt::Cols(p)) && !p.exclude && names(
            texts(p.names@),
            args,
        )),
        verb == "drop-cols"@ ==> (item matches Item::Stmt(Stmt::Cols(p)) && p.exclude && names(
            texts(p.names@),
            args,
        )),
        verb == "to-num"@ || verb == "to_num"@ ==> (item matches Item::Stmt(Stmt::ToNum(c))
            && names(texts(c.names@), args)),
        verb == "to-str"@ || verb == "to_str"@ ==> (item matches Item::Stmt(Stmt::ToStr(c))
            && names(texts(c.names@), args)),
        verb == "select"@ ==> (item matches Item::Stmt(Stmt::Select(e)) && bool_is(
            args[0],
            types,
            literals,
            e,
        )),
        verb == "sort-by"@ ==> (item matches Item::Sort(s) && s.keys@.len() == args.len() && (
        forall|i: int| 0 <= i < args.len() ==> key_is(args[i], types, #[trigger] s.keys@[i]))),
{
    reveal_strlit("select");
    reveal_strlit("sort-by");
    reveal_strlit("cols");
    reveal_strlit("drop-cols");
    reveal_strlit("to-num");
    reveal_strlit("to_num");
    reveal_strlit("to-str");
    reveal_strlit("to_str");
    assert("select"@.len() == 6 && "to-num"@.len() == 6 && "to_num"@.len() == 6 && "to-str"@.len()
        == 6 && "to_str"@.len() == 6 && "sort-by"@.len() == 7 && "cols"@.len() == 4
        && "drop-cols"@.len() == 9);
    assert("select"@[0] == 's' && "to-num"@[0] == 't' && "to_num"@[0] == 't' && "to-str"@[0] == 't'
        && "to_str"@[0] == 't');
    assert("to-num"@[3] == 'n' && "to_num"@[3] == 'n' && "to-str"@[3] == 's' && "to_str"@[3]
        == 's');
}

/// Whether those are the columns that the arguments name, in order.
pub open spec fn names(ns: Seq<Seq<char>>, args: Seq<Form>) -> bool {
    &&& ns.len() == args.len()
    &&& forall|i: int|
        0 <= i < args.len() ==> #[trigger] ns[i] == match args[i].shape {
            Shape::Symbol(s) => s@,
            Shape::Str(s) => s@,
            _ => ns[i],
        }
}

/// `to-num` marks the columns it names numeric and `to-str` takes the mark from those it
/// names; other columns and other verbs stay as they are.
pub proof fn law_conversions_mark_their_columns(
    args: Seq<Form>,
    types: Map<Seq<char>, ColType>,
    name: Seq<char>,
)
    ensures
        numeric_col(types_after("to-num"@, args, types), name) == (numeric_col(types, name)
            || names_of(args).contains(name)),
        numeric_col(types_after("to-str"@, args, types), name) == (numeric_col(types, name)
            && !names_of(args).contains(name)),
        types_after("cols"@, args, types) == types,
        types_after("drop-cols"@, args, types) == types,
        types_after("select"@, args, types) == types,
        types_after("sort-by"@, args, types) == types,
{
    reveal_strlit("select");
    reveal_strlit("sort-by");
    reveal_strlit("cols");
    reveal_strlit("drop-cols");
    reveal_strlit("to-num");
    reveal_strlit("to_num");
    reveal_strlit("to-str");
    reveal_strlit("to_str");
    assert("select"@.len() == 6 && "to-num"@.len() == 6 && "to_num"@.len() == 6 && "to-str"@.len()
        == 6 && "to_str"@.len() == 6 && "sort-by"@.len() == 7 && "cols"@.len() == 4
        && "drop-cols"@.len() == 9);
    assert("select"@[0] == 's' && "to-num"@[0] == 't' && "to_num"@[0] == 't' && "to-str"@[0] == 't'
        && "to_str"@[0] == 't');
    assert("to-num"@[3] == 'n' && "to_num"@[3] == 'n' && "to-str"@[3] == 's' && "to_str"@[3]
        == 's');
    let ns = names_of(args);
    lemma_marked(types, ns, ns.len() as int, ColType::Num, name);
    lemma_marked(types, ns, ns.len() as int, ColType::Str, name);
    assert(ns.take(ns.len() as int) =~= ns);
}

proof fn lemma_marked(
    types: Map<Seq<char>, ColType>,
    ns: Seq<Seq<char>>,
    n: int,
    to: ColType,
    name: Seq<char>,
)
    requires
        0 <= n <= ns.len(),
    ensures
        numeric_col(marked(types, ns, n, to), name) == if ns.take(n).contains(name) {
            to == ColType::Num
        } else {
            numeric_col(types, name)
        },
    decreases n,
{
    if n > 0 {
        lemma_marked(types, ns, n - 1, to, name);
        let (a, b) = (ns.take(n - 1), ns.take(n));
        assert(b =~= a.push(ns[n - 1]));
        if a.contains(name) {
            let i = a.index_of(name);
            assert(b[i] == name);
        }
        if ns[n - 1] == name {
            assert(b[n - 1] == name);
        }
        if b.contains(name) && ns[n - 1] != name {
            let i = b.index_of(name);
            assert(a[i] == name);
        }
    }
}

/// A verb that takes columns refuses just what is no name, the first such, and having
/// none.
pub proof fn law_columns_are_refused_where_they_are_no_names(args: Seq<Form>, verb: Seq<char>)
    ensures
        names_refusal(args, verb) is None <==> args.len() > 0 && forall|i: int|
            0 <= i < args.len() ==> (#[trigger] args[i]).shape is Symbol || args[i].shape is Str,
        args.len() == 0 ==> names_refusal(args, verb) == Some(
            RefusalV::Argument(verb + " expects at least one column"@),
        ),
{
    lemma_names(args, 0);
}

proof fn lemma_names(args: Seq<Form>, i: int)
    requires
        0 <= i <= args.len(),
    ensures
        any_name_refusal(args, i) is None <==> forall|k: int|
            i <= k < args.len() ==> (#[trigger] args[k]).shape is Symbol || args[k].shape is Str,
    decreases args.len() - i,
{
    if i < args.len() {
        lemma_names(args, i + 1);
    }
}

/// Whether a form can stand on a side of a comparison.
pub open spec fn is_operand(form: Form) -> bool {
    form.shape is Symbol || form.shape is Str || form.shape is Num
}

/// Whether a form makes its comparison one of numbers: a number, or a column that is
/// marked as one.
pub open spec fn makes_numeric(form: Form, types: Map<Seq<char>, ColType>) -> bool {
    match form.shape {
        Shape::Num(_) => true,
        Shape::Symbol(s) => types.contains_key(s@) && types[s@] == ColType::Num,
        _ => false,
    }
}

/// Whether a form can stand in a comparison of numbers: a text has to read as one.
pub open spec fn can_be_number(form: Form, literals: Map<Seq<char>, LiteralV>) -> bool {
    form.shape matches Shape::Str(s) ==> literals.dom().contains(trimmed(s@))
}

/// A comparison is accepted just when it has two operands, which, where one makes it
/// numeric, both can be numbers.
pub proof fn law_a_comparison_takes_two_operands(
    rest: Seq<Form>,
    types: Map<Seq<char>, ColType>,
    literals: Map<Seq<char>, LiteralV>,
)
    ensures
        pair_refusal(rest, types, literals) is None <==> {
            &&& rest.len() == 2
            &&& is_operand(rest[0])
            &&& is_operand(rest[1])
            &&& makes_numeric(rest[0], types) || makes_numeric(rest[1], types) ==> can_be_number(
                rest[0],
                literals,
            ) && can_be_number(rest[1], literals)
        },
{
}

/// A match is accepted just when it has a column and a pattern that is a good one.
pub proof fn law_a_match_takes_a_column_and_a_pattern(rest: Seq<Form>)
    ensures
        match_refusal(rest) is None <==> {
            &&& rest.len() == 2
            &&& rest[0].shape is Symbol || rest[0].shape is Str
            &&& rest[1].shape matches Shape::Str(p) && regex_fault(p@) is None
        },
{
}

/// A condition is accepted just when it is an operator with what it takes: `and` and `or`
/// take conditions, `not` one of them.
pub proof fn law_a_condition_is_an_operator_with_what_it_takes(
    form: Form,
    items: Vec<Form>,
    name: String,
    types: Map<Seq<char>, ColType>,
    literals: Map<Seq<char>, LiteralV>,
)
    requires
        form.shape == Shape::List(items),
        items@.len() > 0,
        items@[0].shape == Shape::Symbol(name),
    ensures
        op_named(name@) is None ==> bool_refusal(form, types, literals) is Some,
        op_named(name@) == Some(BoolOp::And) || op_named(name@) == Some(BoolOp::Or) ==> (
        bool_refusal(form, types, literals) is None <==> forall|i: int|
            1 <= i < items@.len() ==> bool_refusal(#[trigger] items@[i], types, literals) is None),
        op_named(name@) == Some(BoolOp::Not) ==> (bool_refusal(form, types, literals) is None
            <==> items@.len() == 2 && bool_refusal(items@[1], types, literals) is None),
{
    let rest = items@.subrange(1, items@.len() as int);
    lemma_any_bool(rest, types, literals);
    assert(forall|i: int| 0 <= i < rest.len() ==> #[trigger] rest[i] == items@[i + 1]);
    if forall|i: int|
        1 <= i < items@.len() ==> bool_refusal(#[trigger] items@[i], types, literals) is None {
        assert forall|i: int| 0 <= i < rest.len() implies bool_refusal(
            #[trigger] rest[i],
            types,
            literals,
        ) is None by {
            assert(bool_refusal(items@[i + 1], types, literals) is None);
        }
    }
    if any_bool_refusal(rest, types, literals) is None {
        assert forall|i: int| 1 <= i < items@.len() implies bool_refusal(
            #[trigger] items@[i],
            types,
            literals,
        ) is None by {
            assert(rest[i - 1] == items@[i]);
        }
    }
}

proof fn lemma_any_bool(
    forms: Seq<Form>,
    types: Map<Seq<char>, ColType>,
    literals: Map<Seq<char>, LiteralV>,
)
    ensures
        any_bool_refusal(forms, types, literals) is None <==> forall|i: int|
            0 <= i < forms.len() ==> bool_refusal(#[trigger] forms[i], types, literals) is None,
    decreases forms.len(),
{
    if forms.len() > 0 {
        let rest = forms.subrange(1, forms.len() as int);
        lemma_any_bool(rest, types, literals);
        assert(forall|i: int| 0 <= i < rest.len() ==> #[trigger] rest[i] == forms[i + 1]);
        if any_bool_refusal(forms, types, literals) is None {
            assert forall|i: int| 0 <= i < forms.len() implies bool_refusal(
                #[trigger] forms[i],
                types,
                literals,
            ) is None by {
                if i > 0 {
                    assert(rest[i - 1] == forms[i]);
                }
            }
        } else if bool_refusal(forms[0], types, literals) is None {
            let i = choose|i: int|
                0 <= i < rest.len() && bool_refusal(#[trigger] rest[i], types, literals) is Some;
            assert(rest[i] == forms[i + 1]);
        }
    }
}

/// A sort is accepted just when it has a key, and each key is a column with modifiers
/// that there are.
pub proof fn law_a_sort_takes_columns_with_modifiers(
    args: Seq<Form>,
    types: Map<Seq<char>, ColType>,
    literals: Map<Seq<char>, LiteralV>,
)
    ensures
        verb_refusal("sort-by"@, args, types, literals) is None <==> args.len() > 0 && forall|
            i: int,
        |
            0 <= i < args.len() ==> is_key(#[trigger] args[i]),
{
    reveal_strlit("select");
    reveal_strlit("sort-by");
    assert("select"@.len() == 6 && "sort-by"@.len() == 7);
    lemma_any_key(args, 0);
}

/// Whether a form is a sort key: a column's name, alone or with modifiers behind it.
pub open spec fn is_key(spec: Form) -> bool {
    let (col, mods) = key_parts(spec);
    &&& col.shape is Symbol || col.shape is Str
    &&& forall|i: int|
        0 <= i < mods.len() ==> (#[trigger] mods[i]).shape is Symbol && modifier_named(
            mods[i].shape->Symbol_0@,
        ) is Some
}

proof fn lemma_any_key(args: Seq<Form>, k: int)
    requires
        0 <= k <= args.len(),
    ensures
        any_key_refusal(args, k) is None <==> forall|i: int|
            k <= i < args.len() ==> is_key(#[trigger] args[i]),
    decreases args.len() - k,
{
    if k < args.len() {
        lemma_any_key(args, k + 1);
        lemma_modifiers(key_parts(args[k]).1, 0);
    }
}

proof fn lemma_modifiers(mods: Seq<Form>, k: int)
    requires
        0 <= k <= mods.len(),
    ensures
        modifier_refusal(mods, k) is None <==> forall|i: int|
            k <= i < mods.len() ==> (#[trigger] mods[i]).shape is Symbol && modifier_named(
                mods[i].shape->Symbol_0@,
            ) is Some,
    decreases mods.len() - k,
{
    if k < mods.len() {
        lemma_modifiers(mods, k + 1);
    }
}

/// Items are put into stages in their order: a run of statements is one transform, and
/// each sort stands alone.
pub proof fn law_items_keep_their_order(
    items: Seq<Item>,
    stages: Seq<Stage>,
    stage: Stage,
    stmts: Vec<Stmt>,
    s: SortStmt,
)
    ensures
        grouped(items, stages) ==> flat(stages) == items,
        flat(seq![]) == Seq::<Item>::empty(),
        flat(stages.push(stage)) == flat(stages) + stage_items(stage),
        stage_items(Stage::Transform(stmts)) == Seq::new(
            stmts@.len(),
            |i: int| Item::Stmt(stmts@[i]),
        ),
        stage_items(Stage::Sort(s)) == seq![Item::Sort(s)],
        grouped(items, stages) ==> forall|i: int|
            #![trigger stages[i]]
            0 <= i < stages.len() ==> (stages[i] is Transform && stages[i]->Transform_0@.len() > 0)
                || stages[i] is Sort,
        grouped(items, stages) ==> forall|i: int|
            #![trigger stages[i]]
            0 < i < stages.len() ==> stages[i] is Sort || stages[i - 1] is Sort,
{
    assert(stages.push(stage).drop_last() =~= stages);
    assert(stage_items(Stage::Transform(stmts)) =~= Seq::new(
        stmts@.len(),
        |i: int| Item::Stmt(stmts@[i]),
    ));
    if grouped(items, stages) {
        assert forall|i: int|
            #![trigger stages[i]]
            0 < i < stages.len() implies stages[i] is Sort || stages[i - 1] is Sort by {
            let before = stages[i - 1];
            assert(!(stages[i - 1] is Transform && stages[i] is Transform));
        }
    }
}

} // verus!
