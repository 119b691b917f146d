//! What a plan is shown as.

use crate::color::{Ramp, Style};
use crate::compile::{BoolOp, op_named};
use crate::describe::{
    agg_text, col_text, color_text, colors_text, comparison_text, debug_list, debug_nums,
    debug_pairs, expr_text, expr_texts, group_lines, join_lines, key_text, op_text, operand_shown,
    pair_text, stage_text, stages_text, stmt_text, stmts_text, val_text, val_texts,
};
use crate::laws::compile::law_operators_go_by_their_names;
use crate::laws::group::profile_name;
use crate::outside::debug_quoted;
use crate::plan::{
    AffixKind, AggFunc, AggSpec, ArithOp, BoolExpr, Cmp, CmpOp, ColRef, ColorRule, ColorScope,
    GroupStmt, JoinStmt, Literal, SortKey, Stage, Stmt, ValExpr,
};
use crate::text::{decimal, joined, texts};
use vstd::prelude::*;

verus! {

/// A comparison is shown by an operator that compiles to it.
pub proof fn law_operators_are_shown_as_they_are_written(op: CmpOp, f: AggFunc)
    ensures
        op_named(op_text(op)) == Some(BoolOp::Compare(op)),
        f.name_spec() == profile_name(f),
{
    law_operators_go_by_their_names();
}

/// A comparison is shown with its operator first, then its left and its right side, and
/// whether it compares numbers.
pub proof fn law_comparisons_are_shown_in_order(c: Cmp)
    ensures
        comparison_text(c) == "("@ + op_text(c.op) + " "@ + operand_shown(c.lhs) + " "@
            + operand_shown(c.rhs) + (if c.numeric {
            " :num)"@
        } else {
            " :str)"@
        }),
{
    reveal_strlit(" :");
    reveal_strlit("num");
    reveal_strlit("str");
    reveal_strlit(")");
    reveal_strlit(" :num)");
    reveal_strlit(" :str)");
    assert(" :num)"@ =~= " :"@ + "num"@ + ")"@);
    assert(" :str)"@ =~= " :"@ + "str"@ + ")"@);
    let front = "("@ + op_text(c.op) + " "@ + operand_shown(c.lhs) + " "@ + operand_shown(c.rhs);
    if c.numeric {
        assert(comparison_text(c) =~= front + " :num)"@);
    } else {
        assert(comparison_text(c) =~= front + " :str)"@);
    }
}

/// The parts of a condition, and those of a value, are shown in their order.
pub proof fn law_parts_are_shown_in_order(es: Seq<BoolExpr>, vs: Seq<ValExpr>)
    ensures
        expr_texts(es).len() == es.len(),
        forall|i: int| 0 <= i < es.len() ==> #[trigger] expr_texts(es)[i] == expr_text(es[i]),
        val_texts(vs).len() == vs.len(),
        forall|i: int| 0 <= i < vs.len() ==> #[trigger] val_texts(vs)[i] == val_text(vs[i]),
{
    lemma_exprs(es);
    lemma_vals(vs);
}

proof fn lemma_exprs(es: Seq<BoolExpr>)
    ensures
        expr_texts(es).len() == es.len(),
        forall|i: int| 0 <= i < es.len() ==> #[trigger] expr_texts(es)[i] == expr_text(es[i]),
    decreases es.len(),
{
    if es.len() > 0 {
        let rest = es.subrange(1, es.len() as int);
        lemma_exprs(rest);
        assert forall|i: int| 0 <= i < es.len() implies #[trigger] expr_texts(es)[i] == expr_text(
            es[i],
        ) by {
            if i > 0 {
                assert(expr_texts(es)[i] == expr_texts(rest)[i - 1]);
                assert(rest[i - 1] == es[i]);
            }
        }
    }
}

proof fn lemma_vals(vs: Seq<ValExpr>)
    ensures
        val_texts(vs).len() == vs.len(),
        forall|i: int| 0 <= i < vs.len() ==> #[trigger] val_texts(vs)[i] == val_text(vs[i]),
    decreases vs.len(),
{
    if vs.len() > 0 {
        let rest = vs.subrange(1, vs.len() as int);
        lemma_vals(rest);
        assert forall|i: int| 0 <= i < vs.len() implies #[trigger] val_texts(vs)[i] == val_text(
            vs[i],
        ) by {
            if i > 0 {
                assert(val_texts(vs)[i] == val_texts(rest)[i - 1]);
                assert(rest[i - 1] == vs[i]);
            }
        }
    }
}

/// An operation is shown with its operator first, then its left and its right side.
pub proof fn law_operations_are_shown_in_order(op: ArithOp, lhs: ValExpr, rhs: ValExpr)
    ensures
        ({
            let sign = seq![
                match op {
                    ArithOp::Plus => '+',
                    ArithOp::Minus => '-',
                    ArithOp::Times => '*',
                    ArithOp::Over => '/',
                    ArithOp::Modulo => '%',
                },
            ];
            val_text(ValExpr::Arith { op, lhs: Box::new(lhs), rhs: Box::new(rhs) }) == "("@ + sign
                + " "@ + val_text(lhs) + " "@ + val_text(rhs) + ")"@
        }),
{
    reveal_strlit("+");
    reveal_strlit("-");
    reveal_strlit("*");
    reveal_strlit("/");
    reveal_strlit("%");
    assert("+"@ =~= seq!['+']);
    assert("-"@ =~= seq!['-']);
    assert("*"@ =~= seq!['*']);
    assert("/"@ =~= seq!['/']);
    assert("%"@ =~= seq!['%']);
}

/// A sort key is shown with its column, its place and the modifiers that it has.
pub proof fn law_keys_are_shown_with_their_modifiers(k: SortKey)
    ensures
        ({
            let own = k.name@ + "["@ + decimal(k.pos as nat) + "]"@;
            key_text(k) == match (k.descending, k.numeric) {
                (false, false) => own,
                (true, false) => own + " reverse"@,
                (false, true) => own + " numeric"@,
                (true, true) => own + " reverse"@ + " numeric"@,
            }
        }),
{
    let own = k.name@ + "["@ + decimal(k.pos as nat) + "]"@;
    assert(own + Seq::<char>::empty() =~= own);
    assert(own + " reverse"@ + Seq::<char>::empty() =~= own + " reverse"@);
}

/// The stages of a plan are shown in order, each under its number.
pub proof fn law_stages_are_shown_in_order(stages: Seq<Stage>, n: nat)
    ensures
        stages_text(stages, n) == Seq::new(
            stages.len(),
            |i: int| stage_text((n + i) as nat, stages[i]),
        ).flatten(),
    decreases stages.len(),
{
    let all = Seq::new(stages.len(), |i: int| stage_text((n + i) as nat, stages[i]));
    if stages.len() == 0 {
        assert(all =~= Seq::<Seq<char>>::empty());
    } else {
        let rest = stages.subrange(1, stages.len() as int);
        law_stages_are_shown_in_order(rest, n + 1);
        let others = Seq::new(rest.len(), |i: int| stage_text((n + 1 + i) as nat, rest[i]));
        assert(all.drop_first() =~= others);
        assert(all[0] == stage_text(n, stages[0]));
    }
}

/// The statements of a stage are shown in order, a line for each, under the numbers of
/// the stage and of the statement.
pub proof fn law_statements_are_shown_in_order(n: nat, stmts: Seq<Stmt>, k: int)
    requires
        0 <= k < stmts.len(),
    ensures
        stmts_text(n, stmts, 0) == Seq::<char>::empty(),
        stmts_text(n, stmts, k + 1) == stmts_text(n, stmts, k) + ("  "@ + decimal(n) + "."@
            + decimal((k + 1) as nat) + " "@ + stmt_text(stmts[k]) + "\n"@),
{
    let line = "  "@ + decimal(n) + "."@ + decimal((k + 1) as nat) + " "@ + stmt_text(stmts[k])
        + "\n"@;
    assert(stmts_text(n, stmts, k + 1) =~= stmts_text(n, stmts, k) + line);
}

/// The colour rules of a plan are shown in order.
pub proof fn law_color_rules_are_shown_in_order(rules: Seq<ColorRule>, k: int)
    requires
        0 <= k < rules.len(),
    ensures
        colors_text(rules, 0) == Seq::<char>::empty(),
        colors_text(rules, k + 1) == colors_text(rules, k) + color_text(rules[k]),
{
}

/// An aggregate is shown with the name it is written under, its function, and its column
/// if it has one.
pub proof fn law_aggregates_are_shown_with_their_column(a: AggSpec)
    ensures
        a.col matches Some(c) ==> agg_text(a) == a.name@ + "="@ + profile_name(a.func) + "("@ + c@
            + ")"@,
        a.col is None ==> agg_text(a) == a.name@ + "="@ + profile_name(a.func),
{
}

/// A condition is shown with its connective first: `and` and `or` before their parts,
/// `not` before what it denies, and a match by whether it is one that is denied.
pub proof fn law_conditions_are_shown_with_their_connective(
    es: Vec<BoolExpr>,
    e: BoolExpr,
    col: ColRef,
    pattern: String,
    needle: String,
)
    ensures
        expr_text(BoolExpr::And(es)) == "(and "@ + joined(expr_texts(es@), " "@) + ")"@,
        expr_text(BoolExpr::Or(es)) == "(or "@ + joined(expr_texts(es@), " "@) + ")"@,
        expr_text(BoolExpr::Not(Box::new(e))) == "(not "@ + expr_text(e) + ")"@,
        expr_text(BoolExpr::Match { col, pattern, negate: false }) == "("@ + "=~"@ + " "@ + col_text(
            col,
        ) + " /regex/)"@,
        expr_text(BoolExpr::Match { col, pattern, negate: true }) == "("@ + "!~"@ + " "@ + col_text(
            col,
        ) + " /regex/)"@,
        expr_text(BoolExpr::Affix { col, needle, kind: AffixKind::Begins }) == "("@ + "^="@ + " "@
            + col_text(col) + " "@ + debug_quoted(needle@) + ")"@,
        expr_text(BoolExpr::Affix { col, needle, kind: AffixKind::Contains }) == "("@ + "*="@ + " "@
            + col_text(col) + " "@ + debug_quoted(needle@) + ")"@,
        expr_text(BoolExpr::Affix { col, needle, kind: AffixKind::Ends }) == "("@ + "$="@ + " "@
            + col_text(col) + " "@ + debug_quoted(needle@) + ")"@,
        col_text(col) == col.name@ + "["@ + decimal(col.pos as nat) + "]"@,
{
}

/// Each kind of statement is shown by its verb and what it does: a conversion by its
/// columns and their places, a selection by its condition, an addition by its column and
/// its value.
pub proof fn law_statements_are_shown_by_their_verbs(s: Stmt)
    ensures
        s matches Stmt::Cols(p) ==> stmt_text(s) == (if p.exclude {
            "drop-cols"@
        } else {
            "cols"@
        }) + " -> keep positions "@ + debug_nums(p.positions@),
        s matches Stmt::Select(e) ==> stmt_text(s) == "select "@ + expr_text(e),
        s matches Stmt::ToNum(c) ==> stmt_text(s) == "to-num "@ + debug_list(texts(c.names@))
            + " (positions "@ + debug_nums(c.positions@) + ")"@,
        s matches Stmt::ToStr(c) ==> stmt_text(s) == "to-str "@ + debug_list(texts(c.names@))
            + " (positions "@ + debug_nums(c.positions@) + ")"@,
        s matches Stmt::Rename(r) ==> stmt_text(s) == "rename "@ + debug_pairs(r.pairs@),
        s matches Stmt::Add(a) ==> stmt_text(s) == "add "@ + (match a.pos {
            Some(i) => a.name@ + "["@ + decimal(i as nat) + "]"@,
            None => a.name@ + " (append)"@,
        }) + " = "@ + val_text(a.expr),
{
}

/// The stages that keep rows are shown by how many they keep or drop.
pub proof fn law_stages_are_shown_by_what_they_keep(n: nat, limit: usize)
    ensures
        stage_text(n, Stage::Head(limit)) == "stage "@ + decimal(n) + " (head):\n  "@ + decimal(n)
            + ".1 head "@ + decimal(limit as nat) + "\n"@,
        stage_text(n, Stage::Tail(limit)) == "stage "@ + decimal(n) + " (tail):\n  "@ + decimal(n)
            + ".1 tail "@ + decimal(limit as nat) + "\n"@,
        stage_text(n, Stage::DropLast(limit)) == "stage "@ + decimal(n) + " (drop-last):\n  "@
            + decimal(n) + ".1 drop last "@ + decimal(limit as nat) + " (head -n -"@ + decimal(
            limit as nat,
        ) + ")\n"@,
{
}

/// A colour rule is shown with what it paints, its style or its ramp, and when: by its
/// condition, or between its bounds.
pub proof fn law_color_rules_are_shown_with_their_scope(
    style: Style,
    expr: BoolExpr,
    col: ColRef,
    ramp: Ramp,
    lo: Literal,
    hi: Literal,
)
    ensures
        color_text(ColorRule::Predicate { scope: ColorScope::Row, style, expr }) == "color "@
            + "row"@ + " "@ + style.shown() + " when "@ + expr_text(expr) + "\n"@,
        color_text(ColorRule::Predicate { scope: ColorScope::Cell(col), style, expr }) == "color "@
            + ("cell "@ + col_text(col)) + " "@ + style.shown() + " when "@ + expr_text(expr)
            + "\n"@,
        color_text(ColorRule::Gradient { col, ramp, bounds: Some((lo, hi)) }) == "color gradient "@
            + col_text(col) + " "@ + ramp.shown() + " bounds "@ + (lo.shown@ + ".."@ + hi.shown@)
            + "\n"@,
        color_text(ColorRule::Gradient { col, ramp, bounds: None }) == "color gradient "@ + col_text(
            col,
        ) + " "@ + ramp.shown() + " bounds "@ + "auto"@ + "\n"@,
{
}

/// A join is shown with its file, its keys and where they are on either side; a key that
/// has two names, with both.
pub proof fn law_joins_are_shown_with_both_sides(n: nat, j: JoinStmt, p: (String, String))
    ensures
        join_lines(n, j) == "  "@ + decimal(n) + ".1 join "@ + j.file@ + " on "@ + joined(
            j.keys@.map_values(|p: (String, String)| pair_text(p)),
            ","@,
        ) + " (left keys "@ + debug_nums(j.left_key_pos@) + ", right keys "@ + debug_nums(
            j.right_key_pos@,
        ) + ")\n  "@ + decimal(n) + ".1 emit right positions "@ + debug_nums(j.right_emit_pos@)
            + "\n"@,
        p.0@ == p.1@ ==> pair_text(p) == p.0@,
        p.0@ != p.1@ ==> pair_text(p) == p.0@ + "="@ + p.1@,
        j.join_type is Inner ==> j.join_type.label_spec() == "inner"@,
        j.join_type is Left ==> j.join_type.label_spec() == "left"@,
        j.join_type is Right ==> j.join_type.label_spec() == "right"@,
        j.join_type is Full ==> j.join_type.label_spec() == "full"@,
{
}

/// A grouping is shown with its keys and where they are, then its aggregates in order.
pub proof fn law_groups_are_shown_with_keys_and_aggregates(n: nat, g: GroupStmt)
    ensures
        group_lines(n, g) == "  "@ + decimal(n) + ".1 keys "@ + debug_list(texts(g.keys@))
            + " (positions "@ + debug_nums(g.key_positions@) + ")\n  "@ + decimal(n) + ".2 agg "@
            + debug_list(g.aggs@.map_values(|a: AggSpec| agg_text(a))) + "\n"@,
{
}

/// A choice is shown with its condition, then what it is where that holds, then what it
/// is where it does not.
pub proof fn law_choices_are_shown_in_order(test: BoolExpr, yes: ValExpr, no: ValExpr)
    ensures
        val_text(
            ValExpr::Cond { test: Box::new(test), then_: Box::new(yes), else_: Box::new(no) },
        ) == "(if "@ + expr_text(test) + " "@ + val_text(yes) + " "@ + val_text(no) + ")"@,
{
}

} // verus!
