//! The text form of a resolved plan, for `--explain`: stages, their
//! statements, and the column positions each one resolved to.

use crate::csv::without_cr;
use crate::outside::{debug_quoted, debug_str};
use crate::plan::{
    AffixKind, AggFunc, AggSpec, ArithOp, BoolExpr, Cmp, CmpOp, ColRef, ColorRule, ColorScope,
    Func, GraphKind, GraphSpec, GroupStmt, JoinStmt, JoinType, Operand, OutputFormat, Plan,
    SortKey, SortStmt, Stage, Stmt, ValExpr,
};
use crate::text::{
    cat2, cat3, cat4, chars_of, decimal, join, joined, same, show_usize, split_from, string_from,
    texts,
};
use vstd::prelude::*;

verus! {

/// A list of texts in its debug form: `["a", "b"]`.
pub open spec fn debug_list(items: Seq<Seq<char>>) -> Seq<char> {
    "["@ + joined(items.map_values(|s: Seq<char>| debug_quoted(s)), ", "@) + "]"@
}

/// A list of numbers in its debug form: `[0, 1]`.
pub open spec fn debug_nums(items: Seq<usize>) -> Seq<char> {
    "["@ + joined(items.map_values(|n: usize| decimal(n as nat)), ", "@) + "]"@
}

/// A list of pairs in its debug form: `[("a", "b")]`.
pub open spec fn debug_pairs(items: Seq<(String, String)>) -> Seq<char> {
    "["@ + joined(
        items.map_values(
            |p: (String, String)|
                "("@ + debug_quoted(p.0@) + ", "@ + debug_quoted(p.1@) + ")"@,
        ),
        ", "@,
    ) + "]"@
}

fn show_list(items: &[String]) -> (s: String)
    ensures
        s@ == debug_list(texts(items@)),
{
    let mut parts: Vec<String> = Vec::new();
    let ghost want = texts(items@).map_values(|s: Seq<char>| debug_quoted(s));
    let mut i: usize = 0;
    while i < items.len()
        invariant
            i <= items.len(),
            want == texts(items@).map_values(|s: Seq<char>| debug_quoted(s)),
            texts(parts@) == want.take(i as int),
        decreases items.len() - i,
    {
        let ghost before = texts(parts@);
        parts.push(debug_str(items[i].as_str()));
        assert(texts(parts@) =~= before.push(want[i as int]));
        assert(want.take(i + 1) =~= want.take(i as int).push(want[i as int]));
        i += 1;
    }
    assert(want.take(items@.len() as int) =~= want);
    cat3("[", join(parts.as_slice(), ", ").as_str(), "]")
}

fn show_nums(items: &[usize]) -> (s: String)
    ensures
        s@ == debug_nums(items@),
{
    let mut parts: Vec<String> = Vec::new();
    let ghost want = items@.map_values(|n: usize| decimal(n as nat));
    let mut i: usize = 0;
    while i < items.len()
        invariant
            i <= items.len(),
            want == items@.map_values(|n: usize| decimal(n as nat)),
            texts(parts@) == want.take(i as int),
        decreases items.len() - i,
    {
        let ghost before = texts(parts@);
        parts.push(show_usize(items[i]));
        assert(texts(parts@) =~= before.push(want[i as int]));
        assert(want.take(i + 1) =~= want.take(i as int).push(want[i as int]));
        i += 1;
    }
    assert(want.take(items@.len() as int) =~= want);
    cat3("[", join(parts.as_slice(), ", ").as_str(), "]")
}

fn show_pairs(items: &[(String, String)]) -> (s: String)
    ensures
        s@ == debug_pairs(items@),
{
    let mut parts: Vec<String> = Vec::new();
    let ghost want = items@.map_values(
        |p: (String, String)| "("@ + debug_quoted(p.0@) + ", "@ + debug_quoted(p.1@) + ")"@,
    );
    let mut i: usize = 0;
    while i < items.len()
        invariant
            i <= items.len(),
            want == items@.map_values(
                |p: (String, String)|
                    "("@ + debug_quoted(p.0@) + ", "@ + debug_quoted(p.1@) + ")"@,
            ),
            texts(parts@) == want.take(i as int),
        decreases items.len() - i,
    {
        let ghost before = texts(parts@);
        let mut one = "(".to_string();
        one.append(debug_str(items[i].0.as_str()).as_str());
        one.append(", ");
        one.append(debug_str(items[i].1.as_str()).as_str());
        one.append(")");
        parts.push(one);
        assert(texts(parts@) =~= before.push(want[i as int]));
        assert(want.take(i + 1) =~= want.take(i as int).push(want[i as int]));
        i += 1;
    }
    assert(want.take(items@.len() as int) =~= want);
    cat3("[", join(parts.as_slice(), ", ").as_str(), "]")
}

/// A column: its name and position.
pub open spec fn col_text(c: ColRef) -> Seq<char> {
    c.name@ + "["@ + decimal(c.pos as nat) + "]"@
}

fn show_col(c: &ColRef) -> (s: String)
    ensures
        s@ == col_text(*c),
{
    cat4(c.name.as_str(), "[", show_usize(c.pos).as_str(), "]")
}

/// A comparison operator as it is written.
pub open spec fn op_text(op: CmpOp) -> Seq<char> {
    match op {
        CmpOp::Eq => "=="@,
        CmpOp::Ne => "!="@,
        CmpOp::Lt => "<"@,
        CmpOp::Gt => ">"@,
        CmpOp::Le => "<="@,
        CmpOp::Ge => ">="@,
    }
}

/// A comparison operator as it is written.
pub fn cmp_symbol(op: CmpOp) -> (s: &'static str)
    ensures
        s@ == op_text(op),
{
    match op {
        CmpOp::Eq => "==",
        CmpOp::Ne => "!=",
        CmpOp::Lt => "<",
        CmpOp::Gt => ">",
        CmpOp::Le => "<=",
        CmpOp::Ge => ">=",
    }
}

/// An operand: a column, a quoted text, or a number.
pub open spec fn operand_shown(o: Operand) -> Seq<char> {
    match o {
        Operand::Col(c) => col_text(c),
        Operand::Str(s) => debug_quoted(s@),
        Operand::Num(n) => n.shown@,
    }
}

/// An operand: a column, a quoted text, or a number.
pub fn fmt_operand(op: &Operand) -> (s: String)
    ensures
        s@ == operand_shown(*op),
{
    match op {
        Operand::Col(c) => show_col(c),
        Operand::Str(s) => debug_str(s.as_str()),
        Operand::Num(n) => n.shown.clone(),
    }
}

impl AffixKind {
    /// The operator as it is written.
    pub open spec fn symbol_spec(self) -> Seq<char> {
        match self {
            AffixKind::Begins => "^="@,
            AffixKind::Contains => "*="@,
            AffixKind::Ends => "$="@,
        }
    }

    /// The operator as it is written.
    pub fn symbol(self) -> (s: &'static str)
        ensures
            s@ == self.symbol_spec(),
    {
        match self {
            AffixKind::Begins => "^=",
            AffixKind::Contains => "*=",
            AffixKind::Ends => "$=",
        }
    }
}

/// A comparison in prefix form. The `:num`/`:str` tag says whether it coerces to
/// a number or compares text.
pub open spec fn comparison_text(c: Cmp) -> Seq<char> {
    "("@ + op_text(c.op) + " "@ + operand_shown(c.lhs) + " "@ + operand_shown(c.rhs) + " :"@ + (
    if c.numeric {
        "num"@
    } else {
        "str"@
    }) + ")"@
}

fn fmt_comparison(c: &Cmp) -> (s: String)
    ensures
        s@ == comparison_text(*c),
{
    let mut s = "(".to_string();
    s.append(cmp_symbol(c.op));
    s.append(" ");
    s.append(fmt_operand(&c.lhs).as_str());
    s.append(" ");
    s.append(fmt_operand(&c.rhs).as_str());
    s.append(" :");
    s.append(
        if c.numeric {
            "num"
        } else {
            "str"
        },
    );
    s.append(")");
    s
}

/// A condition in prefix form.
pub open spec fn expr_text(e: BoolExpr) -> Seq<char>
    decreases e,
{
    match e {
        BoolExpr::And(es) => "(and "@ + joined(expr_texts(es@), " "@) + ")"@,
        BoolExpr::Or(es) => "(or "@ + joined(expr_texts(es@), " "@) + ")"@,
        BoolExpr::Not(e) => "(not "@ + expr_text(*e) + ")"@,
        BoolExpr::Cmp(c) => comparison_text(c),
        BoolExpr::Match { col, negate, .. } => "("@ + (if negate {
            "!~"@
        } else {
            "=~"@
        }) + " "@ + col_text(col) + " /regex/)"@,
        BoolExpr::Affix { col, needle, kind } => "("@ + kind.symbol_spec() + " "@ + col_text(col)
            + " "@ + debug_quoted(needle@) + ")"@,
    }
}

/// Conditions in prefix form.
pub open spec fn expr_texts(es: Seq<BoolExpr>) -> Seq<Seq<char>>
    decreases es,
{
    if es.len() == 0 {
        seq![]
    } else {
        seq![expr_text(es[0])] + expr_texts(es.subrange(1, es.len() as int))
    }
}

/// A condition in prefix form. The `:num`/`:str` tag exposes whether the
/// comparison coerces to a number or compares text, so a surprise lexical
/// compare (e.g. two bare columns, with no numeric literal to trigger numeric
/// mode) is visible.
pub fn fmt_expr(e: &BoolExpr) -> (s: String)
    ensures
        s@ == expr_text(*e),
    decreases e,
{
    match e {
        BoolExpr::And(es) => {
            assert(es@.subrange(0, es@.len() as int) =~= es@);
            let parts = fmt_list(es, 0);
            cat3("(and ", join(parts.as_slice(), " ").as_str(), ")")
        },
        BoolExpr::Or(es) => {
            assert(es@.subrange(0, es@.len() as int) =~= es@);
            let parts = fmt_list(es, 0);
            cat3("(or ", join(parts.as_slice(), " ").as_str(), ")")
        },
        BoolExpr::Not(e) => cat3("(not ", fmt_expr(e).as_str(), ")"),
        BoolExpr::Cmp(c) => fmt_comparison(c),
        BoolExpr::Match { col, negate, .. } => {
            let mut s = "(".to_string();
            s.append(
                if *negate {
                    "!~"
                } else {
                    "=~"
                },
            );
            s.append(" ");
            s.append(show_col(col).as_str());
            s.append(" /regex/)");
            s
        },
        BoolExpr::Affix { col, needle, kind } => {
            let mut s = "(".to_string();
            s.append(kind.symbol());
            s.append(" ");
            s.append(show_col(col).as_str());
            s.append(" ");
            s.append(debug_str(needle.as_str()).as_str());
            s.append(")");
            s
        },
    }
}

fn fmt_list(es: &Vec<BoolExpr>, i: usize) -> (parts: Vec<String>)
    requires
        i <= es@.len(),
    ensures
        texts(parts@) == expr_texts(es@.subrange(i as int, es@.len() as int)),
    decreases es, es@.len() - i,
{
    let mut parts: Vec<String> = Vec::new();
    if i < es.len() {
        let ghost s = es@.subrange(i as int, es@.len() as int);
        let first = fmt_expr(&es[i]);
        parts.push(first);
        let mut rest = fmt_list(es, i + 1);
        let ghost rv = texts(rest@);
        parts.append(&mut rest);
        proof {
            assert(s[0] == es@[i as int]);
            assert(s.subrange(1, s.len() as int) =~= es@.subrange(i + 1, es@.len() as int));
            assert(texts(parts@) =~= seq![first@] + rv);
        }
    } else {
        assert(texts(parts@) =~= seq![]);
    }
    parts
}

impl ArithOp {
    /// The operator as it is written.
    pub open spec fn symbol_spec(self) -> Seq<char> {
        match self {
            ArithOp::Plus => "+"@,
            ArithOp::Minus => "-"@,
            ArithOp::Times => "*"@,
            ArithOp::Over => "/"@,
            ArithOp::Modulo => "%"@,
        }
    }

    /// The operator as it is written.
    pub fn symbol(self) -> (s: &'static str)
        ensures
            s@ == self.symbol_spec(),
    {
        match self {
            ArithOp::Plus => "+",
            ArithOp::Minus => "-",
            ArithOp::Times => "*",
            ArithOp::Over => "/",
            ArithOp::Modulo => "%",
        }
    }
}

impl Func {
    /// The function as it is written.
    pub open spec fn name_spec(self) -> Seq<char> {
        match self {
            Func::Round => "round"@,
            Func::Floor => "floor"@,
            Func::Ceil => "ceil"@,
            Func::Abs => "abs"@,
            Func::Int => "int"@,
            Func::Sqrt => "sqrt"@,
            Func::Pow => "pow"@,
            Func::Exp => "exp"@,
            Func::Log => "log"@,
            Func::Log10 => "log10"@,
            Func::Log2 => "log2"@,
            Func::Sign => "sign"@,
            Func::Min => "min"@,
            Func::Max => "max"@,
            Func::Len => "len"@,
            Func::Upper => "upper"@,
            Func::Lower => "lower"@,
            Func::Trim => "trim"@,
            Func::Coalesce => "coalesce"@,
            Func::Num => "num"@,
            Func::Str => "str"@,
        }
    }

    /// The function as it is written.
    pub fn name(self) -> (s: &'static str)
        ensures
            s@ == self.name_spec(),
    {
        match self {
            Func::Round => "round",
            Func::Floor => "floor",
            Func::Ceil => "ceil",
            Func::Abs => "abs",
            Func::Int => "int",
            Func::Sqrt => "sqrt",
            Func::Pow => "pow",
            Func::Exp => "exp",
            Func::Log => "log",
            Func::Log10 => "log10",
            Func::Log2 => "log2",
            Func::Sign => "sign",
            Func::Min => "min",
            Func::Max => "max",
            Func::Len => "len",
            Func::Upper => "upper",
            Func::Lower => "lower",
            Func::Trim => "trim",
            Func::Coalesce => "coalesce",
            Func::Num => "num",
            Func::Str => "str",
        }
    }
}

/// A value expression in prefix form.
pub open spec fn val_text(e: ValExpr) -> Seq<char>
    decreases e,
{
    match e {
        ValExpr::Col(c) => col_text(c),
        ValExpr::Num(n) => n.shown@,
        ValExpr::Str(s) => debug_quoted(s@),
        ValExpr::Neg(e) => "(neg "@ + val_text(*e) + ")"@,
        ValExpr::Arith { op, lhs, rhs } => "("@ + op.symbol_spec() + " "@ + val_text(*lhs) + " "@
            + val_text(*rhs) + ")"@,
        ValExpr::Concat(parts) => "(++ "@ + joined(val_texts(parts@), " "@) + ")"@,
        ValExpr::Func(f, args) => "("@ + f.name_spec() + " "@ + joined(val_texts(args@), " "@)
            + ")"@,
        ValExpr::Bool(b) => "(bool "@ + expr_text(*b) + ")"@,
        ValExpr::Cond { test, then_, else_ } => "(if "@ + expr_text(*test) + " "@ + val_text(
            *then_,
        ) + " "@ + val_text(*else_) + ")"@,
        ValExpr::Prev(c) => "(prev "@ + col_text(c) + ")"@,
        ValExpr::Rownum => "(rownum)"@,
    }
}

/// Value expressions in prefix form.
pub open spec fn val_texts(es: Seq<ValExpr>) -> Seq<Seq<char>>
    decreases es,
{
    if es.len() == 0 {
        seq![]
    } else {
        seq![val_text(es[0])] + val_texts(es.subrange(1, es.len() as int))
    }
}

/// A value expression in prefix form.
pub fn fmt_valexpr(e: &ValExpr) -> (s: String)
    ensures
        s@ == val_text(*e),
    decreases e,
{
    match e {
        ValExpr::Col(c) => show_col(c),
        ValExpr::Num(n) => n.shown.clone(),
        ValExpr::Str(s) => debug_str(s.as_str()),
        ValExpr::Neg(e) => cat3("(neg ", fmt_valexpr(e).as_str(), ")"),
        ValExpr::Arith { op, lhs, rhs } => {
            let mut s = "(".to_string();
            s.append(op.symbol());
            s.append(" ");
            s.append(fmt_valexpr(lhs).as_str());
            s.append(" ");
            s.append(fmt_valexpr(rhs).as_str());
            s.append(")");
            s
        },
        ValExpr::Concat(parts) => {
            assert(parts@.subrange(0, parts@.len() as int) =~= parts@);
            let list = fmt_valexpr_list(parts, 0);
            cat3("(++ ", join(list.as_slice(), " ").as_str(), ")")
        },
        ValExpr::Func(f, args) => {
            assert(args@.subrange(0, args@.len() as int) =~= args@);
            let list = fmt_valexpr_list(args, 0);
            let mut s = "(".to_string();
            s.append(f.name());
            s.append(" ");
            s.append(join(list.as_slice(), " ").as_str());
            s.append(")");
            s
        },
        ValExpr::Bool(b) => cat3("(bool ", fmt_expr(b).as_str(), ")"),
        ValExpr::Cond { test, then_, else_ } => {
            let mut s = "(if ".to_string();
            s.append(fmt_expr(test).as_str());
            s.append(" ");
            s.append(fmt_valexpr(then_).as_str());
            s.append(" ");
            s.append(fmt_valexpr(else_).as_str());
            s.append(")");
            s
        },
        ValExpr::Prev(c) => cat3("(prev ", show_col(c).as_str(), ")"),
        ValExpr::Rownum => "(rownum)".to_string(),
    }
}

fn fmt_valexpr_list(es: &Vec<ValExpr>, i: usize) -> (parts: Vec<String>)
    requires
        i <= es@.len(),
    ensures
        texts(parts@) == val_texts(es@.subrange(i as int, es@.len() as int)),
    decreases es, es@.len() - i,
{
    let mut parts: Vec<String> = Vec::new();
    if i < es.len() {
        let ghost s = es@.subrange(i as int, es@.len() as int);
        let first = fmt_valexpr(&es[i]);
        parts.push(first);
        let mut rest = fmt_valexpr_list(es, i + 1);
        let ghost rv = texts(rest@);
        parts.append(&mut rest);
        proof {
            assert(s[0] == es@[i as int]);
            assert(s.subrange(1, s.len() as int) =~= es@.subrange(i + 1, es@.len() as int));
            assert(texts(parts@) =~= seq![first@] + rv);
        }
    } else {
        assert(texts(parts@) =~= seq![]);
    }
    parts
}

/// A statement with the positions it resolved to.
pub open spec fn stmt_text(stmt: Stmt) -> Seq<char> {
    match stmt {
        Stmt::Cols(p) => (if p.exclude {
            "drop-cols"@
        } else {
            "cols"@
        }) + " -> keep positions "@ + debug_nums(p.positions@),
        Stmt::Select(e) => "select "@ + expr_text(e),
        Stmt::ToNum(c) => "to-num "@ + debug_list(texts(c.names@)) + " (positions "@ + debug_nums(
            c.positions@,
        ) + ")"@,
        Stmt::ToStr(c) => "to-str "@ + debug_list(texts(c.names@)) + " (positions "@ + debug_nums(
            c.positions@,
        ) + ")"@,
        Stmt::Rename(r) => "rename "@ + debug_pairs(r.pairs@),
        Stmt::Add(a) => "add "@ + (match a.pos {
            Some(i) => a.name@ + "["@ + decimal(i as nat) + "]"@,
            None => a.name@ + " (append)"@,
        }) + " = "@ + val_text(a.expr),
    }
}

/// A statement with the positions it resolved to.
pub fn describe_stmt(stmt: &Stmt) -> (s: String)
    ensures
        s@ == stmt_text(*stmt),
{
    match stmt {
        Stmt::Cols(p) => {
            let verb = if p.exclude {
                "drop-cols"
            } else {
                "cols"
            };
            cat3(verb, " -> keep positions ", show_nums(p.positions.as_slice()).as_str())
        },
        Stmt::Select(e) => cat2("select ", fmt_expr(e).as_str()),
        Stmt::ToNum(c) => {
            let mut s = "to-num ".to_string();
            s.append(show_list(c.names.as_slice()).as_str());
            s.append(" (positions ");
            s.append(show_nums(c.positions.as_slice()).as_str());
            s.append(")");
            s
        },
        Stmt::ToStr(c) => {
            let mut s = "to-str ".to_string();
            s.append(show_list(c.names.as_slice()).as_str());
            s.append(" (positions ");
            s.append(show_nums(c.positions.as_slice()).as_str());
            s.append(")");
            s
        },
        Stmt::Rename(r) => cat2("rename ", show_pairs(r.pairs.as_slice()).as_str()),
        Stmt::Add(a) => {
            let target = match a.pos {
                Some(i) => cat4(a.name.as_str(), "[", show_usize(i).as_str(), "]"),
                None => cat2(a.name.as_str(), " (append)"),
            };
            cat4("add ", target.as_str(), " = ", fmt_valexpr(&a.expr).as_str())
        },
    }
}

/// A sort key: the column, and how it is sorted.
pub open spec fn key_text(k: SortKey) -> Seq<char> {
    k.name@ + "["@ + decimal(k.pos as nat) + "]"@ + (if k.descending {
        " reverse"@
    } else {
        seq![]
    }) + (if k.numeric {
        " numeric"@
    } else {
        seq![]
    })
}

/// A sort with its keys.
pub fn describe_sort(sort: &SortStmt) -> (s: String)
    ensures
        s@ == "sort "@ + joined(sort.keys@.map_values(|k: SortKey| key_text(k)), ", "@),
{
    let ghost want = sort.keys@.map_values(|k: SortKey| key_text(k));
    let mut parts: Vec<String> = Vec::new();
    let mut i: usize = 0;
    while i < sort.keys.len()
        invariant
            i <= sort.keys@.len(),
            want == sort.keys@.map_values(|k: SortKey| key_text(k)),
            texts(parts@) == want.take(i as int),
        decreases sort.keys.len() - i,
    {
        let ghost before = texts(parts@);
        let k = &sort.keys[i];
        let mut s = cat4(k.name.as_str(), "[", show_usize(k.pos).as_str(), "]");
        if k.descending {
            s.append(" reverse");
        }
        if k.numeric {
            s.append(" numeric");
        }
        assert(s@ =~= want[i as int]);
        parts.push(s);
        assert(texts(parts@) =~= before.push(want[i as int]));
        assert(want.take(i + 1) =~= want.take(i as int).push(want[i as int]));
        i += 1;
    }
    assert(want.take(sort.keys@.len() as int) =~= want);
    cat2("sort ", join(parts.as_slice(), ", ").as_str())
}

/// Whether the colours of a rule are ones there are.
pub open spec fn rule_known(rule: ColorRule) -> bool {
    match rule {
        ColorRule::Predicate { style, .. } => style.known(),
        ColorRule::Gradient { .. } => true,
    }
}

/// A colour rule.
pub open spec fn color_text(rule: ColorRule) -> Seq<char> {
    match rule {
        ColorRule::Predicate { scope, style, expr } => "color "@ + (match scope {
            ColorScope::Row => "row"@,
            ColorScope::Cell(c) => "cell "@ + col_text(c),
        }) + " "@ + style.shown() + " when "@ + expr_text(expr) + "\n"@,
        ColorRule::Gradient { col, ramp, bounds } => "color gradient "@ + col_text(col) + " "@
            + ramp.shown() + " bounds "@ + (match bounds {
            Some((lo, hi)) => lo.shown@ + ".."@ + hi.shown@,
            None => "auto"@,
        }) + "\n"@,
    }
}

/// A colour rule, on a line of its own.
pub fn describe_color(rule: &ColorRule) -> (s: String)
    requires
        rule_known(*rule),
    ensures
        s@ == color_text(*rule),
{
    match rule {
        ColorRule::Predicate { scope, style, expr } => {
            let target = match scope {
                ColorScope::Row => "row".to_string(),
                ColorScope::Cell(c) => cat2("cell ", show_col(c).as_str()),
            };
            let mut s = "color ".to_string();
            s.append(target.as_str());
            s.append(" ");
            s.append(style.show().as_str());
            s.append(" when ");
            s.append(fmt_expr(expr).as_str());
            s.append("\n");
            s
        },
        ColorRule::Gradient { col, ramp, bounds } => {
            let b = match bounds {
                Some((lo, hi)) => cat3(lo.shown.as_str(), "..", hi.shown.as_str()),
                None => "auto".to_string(),
            };
            let mut s = "color gradient ".to_string();
            s.append(show_col(col).as_str());
            s.append(" ");
            s.append(ramp.show().as_str());
            s.append(" bounds ");
            s.append(b.as_str());
            s.append("\n");
            s
        },
    }
}

impl AggFunc {
    /// The function as it is written.
    pub open spec fn name_spec(self) -> Seq<char> {
        match self {
            AggFunc::Count => "count"@,
            AggFunc::Sum => "sum"@,
            AggFunc::Min => "min"@,
            AggFunc::Max => "max"@,
            AggFunc::Mean => "mean"@,
            AggFunc::Stddev => "stddev"@,
        }
    }

    /// The function as it is written.
    pub fn name(self) -> (s: &'static str)
        ensures
            s@ == self.name_spec(),
    {
        match self {
            AggFunc::Count => "count",
            AggFunc::Sum => "sum",
            AggFunc::Min => "min",
            AggFunc::Max => "max",
            AggFunc::Mean => "mean",
            AggFunc::Stddev => "stddev",
        }
    }
}

impl JoinType {
    /// The join type as it is called.
    pub open spec fn label_spec(self) -> Seq<char> {
        match self {
            JoinType::Inner => "inner"@,
            JoinType::Left => "left"@,
            JoinType::Right => "right"@,
            JoinType::Full => "full"@,
        }
    }

    /// The join type as it is called.
    pub fn label(self) -> (s: &'static str)
        ensures
            s@ == self.label_spec(),
    {
        match self {
            JoinType::Inner => "inner",
            JoinType::Left => "left",
            JoinType::Right => "right",
            JoinType::Full => "full",
        }
    }
}

/// The lines of a text, without their line endings.
pub open spec fn lines_of(s: Seq<char>) -> Seq<Seq<char>> {
    let pieces = split_from(s, '\n', 0);
    let ended = pieces.drop_last().map_values(|l: Seq<char>| without_cr(l));
    if pieces.last().len() == 0 {
        ended
    } else {
        ended.push(pieces.last())
    }
}

/// Lines, each behind four spaces.
pub open spec fn indented(lines: Seq<Seq<char>>) -> Seq<char>
    decreases lines.len(),
{
    if lines.len() == 0 {
        seq![]
    } else {
        indented(lines.drop_last()) + "    "@ + lines.last() + "\n"@
    }
}

fn indent_lines(text: &str) -> (s: String)
    ensures
        s@ == indented(lines_of(text@)),
{
    let pieces = crate::text::split_on(text, '\n');
    let ghost all = split_from(text@, '\n', 0);
    let ghost lines = lines_of(text@);
    let mut s = String::new();
    let mut i: usize = 0;
    let n: usize = pieces.len() - 1;
    assert(lines.take(0) =~= seq![]);
    while i < n
        invariant
            i <= n,
            n + 1 == pieces@.len(),
            texts(pieces@) == all,
            lines == lines_of(text@),
            all == split_from(text@, '\n', 0),
            lines.len() >= n,
            s@ == indented(lines.take(i as int)),
        decreases n - i,
    {
        let v = chars_of(pieces[i].as_str());
        let end: usize = if v.len() > 0 && v[v.len() - 1] == '\r' {
            v.len() - 1
        } else {
            v.len()
        };
        let line = string_from(v.as_slice(), 0, end);
        proof {
            assert(all[i as int] == pieces@[i as int]@);
            assert(line@ =~= without_cr(all[i as int]));
            assert(lines[i as int] == line@);
            assert(lines.take(i + 1).drop_last() =~= lines.take(i as int));
        }
        s.append("    ");
        s.append(line.as_str());
        s.append("\n");
        i += 1;
    }
    assert(all[n as int] == pieces@[n as int]@);
    assert(all.last() == all[n as int]);
    if !pieces[n].as_str().is_empty() {
        assert(lines.take(n + 1).drop_last() =~= lines.take(n as int));
        s.append("    ");
        s.append(pieces[n].as_str());
        s.append("\n");
        assert(lines.take(n + 1) =~= lines);
    } else {
        assert(lines.take(n as int) =~= lines);
    }
    s
}

/// The statements of transform stage `n`, the first `k` of them, each on a line.
pub open spec fn stmts_text(n: nat, stmts: Seq<Stmt>, k: int) -> Seq<char>
    decreases k,
{
    if k <= 0 {
        seq![]
    } else {
        stmts_text(n, stmts, k - 1) + "  "@ + decimal(n) + "."@ + decimal(k as nat) + " "@
            + stmt_text(stmts[k - 1]) + "\n"@
    }
}

fn describe_stmts(n: usize, stmts: &[Stmt]) -> (s: String)
    ensures
        s@ == stmts_text(n as nat, stmts@, stmts@.len() as int),
{
    let mut s = String::new();
    let mut k: usize = 0;
    while k < stmts.len()
        invariant
            k <= stmts@.len(),
            s@ == stmts_text(n as nat, stmts@, k as int),
        decreases stmts.len() - k,
    {
        s.append("  ");
        s.append(show_usize(n).as_str());
        s.append(".");
        s.append(show_usize(k + 1).as_str());
        s.append(" ");
        s.append(describe_stmt(&stmts[k]).as_str());
        s.append("\n");
        k += 1;
    }
    s
}

/// An aggregate: its output name, and what it is of.
pub open spec fn agg_text(a: AggSpec) -> Seq<char> {
    match a.col {
        Some(c) => a.name@ + "="@ + a.func.name_spec() + "("@ + c@ + ")"@,
        None => a.name@ + "="@ + a.func.name_spec(),
    }
}

fn describe_aggs(aggs: &[AggSpec]) -> (r: Vec<String>)
    ensures
        texts(r@) == aggs@.map_values(|a: AggSpec| agg_text(a)),
{
    let ghost want = aggs@.map_values(|a: AggSpec| agg_text(a));
    let mut r: Vec<String> = Vec::new();
    let mut i: usize = 0;
    while i < aggs.len()
        invariant
            i <= aggs@.len(),
            want == aggs@.map_values(|a: AggSpec| agg_text(a)),
            texts(r@) == want.take(i as int),
        decreases aggs.len() - i,
    {
        let ghost before = texts(r@);
        let a = &aggs[i];
        let mut s = cat3(a.name.as_str(), "=", a.func.name());
        if let Some(c) = &a.col {
            s.append("(");
            s.append(c.as_str());
            s.append(")");
        }
        r.push(s);
        assert(texts(r@) =~= before.push(want[i as int]));
        assert(want.take(i + 1) =~= want.take(i as int).push(want[i as int]));
        i += 1;
    }
    assert(want.take(aggs@.len() as int) =~= want);
    r
}

/// A join key: one name, or both when they differ.
pub open spec fn pair_text(p: (String, String)) -> Seq<char> {
    if p.0@ == p.1@ {
        p.0@
    } else {
        p.0@ + "="@ + p.1@
    }
}

fn describe_keys(keys: &[(String, String)]) -> (r: Vec<String>)
    ensures
        texts(r@) == keys@.map_values(|p: (String, String)| pair_text(p)),
{
    let ghost want = keys@.map_values(|p: (String, String)| pair_text(p));
    let mut r: Vec<String> = Vec::new();
    let mut i: usize = 0;
    while i < keys.len()
        invariant
            i <= keys@.len(),
            want == keys@.map_values(|p: (String, String)| pair_text(p)),
            texts(r@) == want.take(i as int),
        decreases keys.len() - i,
    {
        let ghost before = texts(r@);
        let s = if same(keys[i].0.as_str(), keys[i].1.as_str()) {
            keys[i].0.clone()
        } else {
            cat3(keys[i].0.as_str(), "=", keys[i].1.as_str())
        };
        r.push(s);
        assert(texts(r@) =~= before.push(want[i as int]));
        assert(want.take(i + 1) =~= want.take(i as int).push(want[i as int]));
        i += 1;
    }
    assert(want.take(keys@.len() as int) =~= want);
    r
}

/// What a join says of its keys and of the columns it emits.
pub open spec fn join_lines(n: nat, j: JoinStmt) -> Seq<char> {
    "  "@ + decimal(n) + ".1 join "@ + j.file@ + " on "@ + joined(
        j.keys@.map_values(|p: (String, String)| pair_text(p)),
        ","@,
    ) + " (left keys "@ + debug_nums(j.left_key_pos@) + ", right keys "@ + debug_nums(
        j.right_key_pos@,
    ) + ")\n  "@ + decimal(n) + ".1 emit right positions "@ + debug_nums(j.right_emit_pos@)
        + "\n"@
}

fn describe_join(n: usize, j: &JoinStmt) -> (s: String)
    ensures
        s@ == join_lines(n as nat, *j),
{
    let keys = describe_keys(j.keys.as_slice());
    let mut s = "  ".to_string();
    s.append(show_usize(n).as_str());
    s.append(".1 join ");
    s.append(j.file.as_str());
    s.append(" on ");
    s.append(join(keys.as_slice(), ",").as_str());
    s.append(" (left keys ");
    s.append(show_nums(j.left_key_pos.as_slice()).as_str());
    s.append(", right keys ");
    s.append(show_nums(j.right_key_pos.as_slice()).as_str());
    s.append(")\n  ");
    s.append(show_usize(n).as_str());
    s.append(".1 emit right positions ");
    s.append(show_nums(j.right_emit_pos.as_slice()).as_str());
    s.append("\n");
    s
}

/// What a group says of its keys and aggregates.
pub open spec fn group_lines(n: nat, g: GroupStmt) -> Seq<char> {
    "  "@ + decimal(n) + ".1 keys "@ + debug_list(texts(g.keys@)) + " (positions "@ + debug_nums(
        g.key_positions@,
    ) + ")\n  "@ + decimal(n) + ".2 agg "@ + debug_list(
        g.aggs@.map_values(|a: AggSpec| agg_text(a)),
    ) + "\n"@
}

fn describe_group(n: usize, g: &GroupStmt) -> (s: String)
    ensures
        s@ == group_lines(n as nat, *g),
{
    let aggs = describe_aggs(g.aggs.as_slice());
    let mut s = "  ".to_string();
    s.append(show_usize(n).as_str());
    s.append(".1 keys ");
    s.append(show_list(g.keys.as_slice()).as_str());
    s.append(" (positions ");
    s.append(show_nums(g.key_positions.as_slice()).as_str());
    s.append(")\n  ");
    s.append(show_usize(n).as_str());
    s.append(".2 agg ");
    s.append(show_list(aggs.as_slice()).as_str());
    s.append("\n");
    s
}

/// Stage `n`: its heading, then a line or more on what it does.
pub open spec fn stage_text(n: nat, stage: Stage) -> Seq<char>
    decreases stage,
{
    let head = "stage "@ + decimal(n);
    match stage {
        Stage::Transform(stmts) => head + " (transform):\n"@ + stmts_text(
            n,
            stmts@,
            stmts@.len() as int,
        ),
        Stage::Sort(sort) => head + " (sort):\n  "@ + decimal(n) + ".1 "@ + ("sort "@ + joined(
            sort.keys@.map_values(|k: SortKey| key_text(k)),
            ", "@,
        )) + "\n"@,
        Stage::Head(limit) => head + " (head):\n  "@ + decimal(n) + ".1 head "@ + decimal(
            limit as nat,
        ) + "\n"@,
        Stage::Tail(limit) => head + " (tail):\n  "@ + decimal(n) + ".1 tail "@ + decimal(
            limit as nat,
        ) + "\n"@,
        Stage::DropLast(limit) => head + " (drop-last):\n  "@ + decimal(n) + ".1 drop last "@
            + decimal(limit as nat) + " (head -n -"@ + decimal(limit as nat) + ")\n"@,
        Stage::Uniq(u) => head + " (uniq):\n  "@ + decimal(n) + ".1 uniq by "@ + (
        if u.positions@.len() == 0 {
            "whole row"@
        } else {
            debug_list(texts(u.cols@)) + " (positions "@ + debug_nums(u.positions@) + ")"@
        }) + "\n"@,
        Stage::Stats(s) => head + " (stats):\n  "@ + decimal(n) + ".1 stats "@ + debug_list(
            texts(s.names@),
        ) + " (positions "@ + debug_nums(s.positions@) + ")\n"@,
        Stage::Group(g) => head + " (group):\n"@ + group_lines(n, g),
        Stage::Join(j) => head + " (join "@ + j.join_type.label_spec() + "):\n"@ + join_lines(n, j)
            + (if j.right_plan.stages@.len() == 0 {
            seq![]
        } else {
            "  right sub-pipeline:\n"@ + indented(lines_of(plan_text(j.right_plan)))
        }),
    }
}

/// The stages, numbered from `n` on.
pub open spec fn stages_text(stages: Seq<Stage>, n: nat) -> Seq<char>
    decreases stages,
{
    if stages.len() == 0 {
        seq![]
    } else {
        stage_text(n, stages[0]) + stages_text(stages.subrange(1, stages.len() as int), n + 1)
    }
}

/// The first `k` colour rules.
pub open spec fn colors_text(rules: Seq<ColorRule>, k: int) -> Seq<char>
    decreases k,
{
    if k <= 0 {
        seq![]
    } else {
        colors_text(rules, k - 1) + color_text(rules[k - 1])
    }
}

/// A kind of chart as it is called.
pub open spec fn kind_text(kind: GraphKind) -> Seq<char> {
    match kind {
        GraphKind::Hist => "hist"@,
        GraphKind::Bar => "bar"@,
        GraphKind::Spark => "spark"@,
        GraphKind::Scatter => "scatter"@,
        GraphKind::Line => "line"@,
        GraphKind::Heatmap => "heatmap"@,
    }
}

/// A chart: its kind, columns and bins.
pub open spec fn graph_text(g: GraphSpec) -> Seq<char> {
    "graph: "@ + kind_text(g.kind) + " "@ + debug_list(g.cols@.map_values(|c: ColRef| c.name@)) + (
    match g.opts.bins {
        Some(b) => " bins="@ + decimal(b as nat),
        None => seq![],
    }) + "\n"@
}

/// A resolved plan.
pub open spec fn plan_text(plan: Plan) -> Seq<char>
    decreases plan,
{
    (match plan.input_header {
        Some(h) => "input header (hdr): "@ + debug_list(texts(h@)) + "\n"@,
        None => seq![],
    }) + stages_text(plan.stages@, 1) + (if plan.output == OutputFormat::Aligned {
        "output: aligned\n"@
    } else {
        seq![]
    }) + colors_text(plan.colors@, plan.colors@.len() as int) + (match plan.graph {
        Some(g) => graph_text(g),
        None => seq![],
    })
}

/// Whether the colours of a plan, and of the plans of its right sides, are ones
/// there are.
pub open spec fn plan_known(plan: Plan) -> bool
    decreases plan,
{
    &&& forall|i: int| 0 <= i < plan.colors@.len() ==> rule_known(#[trigger] plan.colors@[i])
    &&& stages_known(plan.stages@)
}

/// Whether the colours of the right sides are ones there are.
pub open spec fn stages_known(stages: Seq<Stage>) -> bool
    decreases stages,
{
    if stages.len() == 0 {
        true
    } else {
        stage_known(stages[0]) && stages_known(stages.subrange(1, stages.len() as int))
    }
}

/// Whether the colours of a right side are ones there are.
pub open spec fn stage_known(stage: Stage) -> bool
    decreases stage,
{
    match stage {
        Stage::Join(j) => plan_known(j.right_plan),
        _ => true,
    }
}

fn describe_graph(g: &GraphSpec) -> (s: String)
    ensures
        s@ == graph_text(*g),
{
    let kind = match g.kind {
        GraphKind::Hist => "hist",
        GraphKind::Bar => "bar",
        GraphKind::Spark => "spark",
        GraphKind::Scatter => "scatter",
        GraphKind::Line => "line",
        GraphKind::Heatmap => "heatmap",
    };
    let ghost want = g.cols@.map_values(|c: ColRef| c.name@);
    let mut names: Vec<String> = Vec::new();
    let mut i: usize = 0;
    while i < g.cols.len()
        invariant
            i <= g.cols@.len(),
            want == g.cols@.map_values(|c: ColRef| c.name@),
            texts(names@) == want.take(i as int),
        decreases g.cols.len() - i,
    {
        let ghost before = texts(names@);
        names.push(g.cols[i].name.clone());
        assert(texts(names@) =~= before.push(want[i as int]));
        assert(want.take(i + 1) =~= want.take(i as int).push(want[i as int]));
        i += 1;
    }
    assert(want.take(g.cols@.len() as int) =~= want);
    let mut s = "graph: ".to_string();
    s.append(kind);
    s.append(" ");
    s.append(show_list(names.as_slice()).as_str());
    let ghost head = s@;
    if let Some(b) = g.opts.bins {
        s.append(" bins=");
        s.append(show_usize(b).as_str());
        assert(s@ =~= head + (" bins="@ + decimal(b as nat)));
    } else {
        assert(s@ =~= head + seq![]);
    }
    s.append("\n");
    s
}

fn heading(n: usize, kind: &str) -> (s: String)
    ensures
        s@ == "stage "@ + decimal(n as nat) + kind@,
{
    cat3("stage ", show_usize(n).as_str(), kind)
}

fn describe_stage(n: usize, stage: &Stage) -> (s: String)
    requires
        stage_known(*stage),
    ensures
        s@ == stage_text(n as nat, *stage),
    decreases stage,
{
    match stage {
        Stage::Transform(stmts) => {
            let mut s = heading(n, " (transform):\n");
            s.append(describe_stmts(n, stmts.as_slice()).as_str());
            s
        },
        Stage::Sort(sort) => {
            let mut s = heading(n, " (sort):\n  ");
            s.append(show_usize(n).as_str());
            s.append(".1 ");
            s.append(describe_sort(sort).as_str());
            s.append("\n");
            s
        },
        Stage::Head(limit) => {
            let mut s = heading(n, " (head):\n  ");
            s.append(show_usize(n).as_str());
            s.append(".1 head ");
            s.append(show_usize(*limit).as_str());
            s.append("\n");
            s
        },
        Stage::Tail(limit) => {
            let mut s = heading(n, " (tail):\n  ");
            s.append(show_usize(n).as_str());
            s.append(".1 tail ");
            s.append(show_usize(*limit).as_str());
            s.append("\n");
            s
        },
        Stage::DropLast(limit) => {
            let mut s = heading(n, " (drop-last):\n  ");
            s.append(show_usize(n).as_str());
            s.append(".1 drop last ");
            s.append(show_usize(*limit).as_str());
            s.append(" (head -n -");
            s.append(show_usize(*limit).as_str());
            s.append(")\n");
            s
        },
        Stage::Uniq(u) => {
            let by = if u.positions.len() == 0 {
                "whole row".to_string()
            } else {
                cat4(
                    show_list(u.cols.as_slice()).as_str(),
                    " (positions ",
                    show_nums(u.positions.as_slice()).as_str(),
                    ")",
                )
            };
            let mut s = heading(n, " (uniq):\n  ");
            s.append(show_usize(n).as_str());
            s.append(".1 uniq by ");
            s.append(by.as_str());
            s.append("\n");
            s
        },
        Stage::Stats(st) => {
            let mut s = heading(n, " (stats):\n  ");
            s.append(show_usize(n).as_str());
            s.append(".1 stats ");
            s.append(show_list(st.names.as_slice()).as_str());
            s.append(" (positions ");
            s.append(show_nums(st.positions.as_slice()).as_str());
            s.append(")\n");
            s
        },
        Stage::Group(g) => {
            let mut s = heading(n, " (group):\n");
            s.append(describe_group(n, g).as_str());
            s
        },
        Stage::Join(j) => {
            let mut s = heading(n, " (join ");
            s.append(j.join_type.label());
            s.append("):\n");
            s.append(describe_join(n, j).as_str());
            let ghost head = s@;
            if j.right_plan.stages.len() > 0 {
                let inner = describe(&j.right_plan);
                let lines = indent_lines(inner.as_str());
                s.append("  right sub-pipeline:\n");
                s.append(lines.as_str());
                assert(s@ =~= head + ("  right sub-pipeline:\n"@ + lines@));
            } else {
                assert(s@ =~= head + seq![]);
            }
            s
        },
    }
}

fn describe_stages(stages: &Vec<Stage>, i: usize) -> (s: String)
    requires
        i <= stages@.len(),
        stages_known(stages@.subrange(i as int, stages@.len() as int)),
    ensures
        s@ == stages_text(stages@.subrange(i as int, stages@.len() as int), (i + 1) as nat),
    decreases stages, stages@.len() - i,
{
    let ghost rest = stages@.subrange(i as int, stages@.len() as int);
    if i >= stages.len() {
        let s = String::new();
        assert(s@ =~= seq![]);
        return s;
    }
    proof {
        assert(rest[0] == stages@[i as int]);
        assert(rest.subrange(1, rest.len() as int) =~= stages@.subrange(
            i + 1,
            stages@.len() as int,
        ));
    }
    let mut s = describe_stage(i + 1, &stages[i]);
    s.append(describe_stages(stages, i + 1).as_str());
    s
}

/// Renders a resolved plan for `--explain`: stages, their statements, and
/// the column positions each one resolved to.
pub fn describe(plan: &Plan) -> (s: String)
    requires
        plan_known(*plan),
    ensures
        s@ == plan_text(*plan),
    decreases plan,
{
    let mut s = String::new();
    if let Some(h) = &plan.input_header {
        s.append("input header (hdr): ");
        s.append(show_list(h.as_slice()).as_str());
        s.append("\n");
        assert(s@ =~= "input header (hdr): "@ + debug_list(texts(h@)) + "\n"@);
    } else {
        assert(s@ =~= seq![]);
    }
    assert(plan.stages@.subrange(0, plan.stages@.len() as int) =~= plan.stages@);
    s.append(describe_stages(&plan.stages, 0).as_str());
    let ghost a = s@;
    if plan.output == OutputFormat::Aligned {
        s.append("output: aligned\n");
    } else {
        assert(s@ =~= a + seq![]);
    }
    let ghost b = s@;
    let mut k: usize = 0;
    assert(s@ =~= b + colors_text(plan.colors@, 0));
    while k < plan.colors.len()
        invariant
            k <= plan.colors@.len(),
            forall|i: int| 0 <= i < plan.colors@.len() ==> rule_known(#[trigger] plan.colors@[i]),
            s@ == b + colors_text(plan.colors@, k as int),
        decreases plan.colors.len() - k,
    {
        assert(rule_known(plan.colors@[k as int]));
        s.append(describe_color(&plan.colors[k]).as_str());
        assert(s@ =~= b + colors_text(plan.colors@, k + 1));
        k += 1;
    }
    let ghost c = s@;
    if let Some(g) = &plan.graph {
        s.append(describe_graph(g).as_str());
    } else {
        assert(s@ =~= c + seq![]);
    }
    s
}

} // verus!
