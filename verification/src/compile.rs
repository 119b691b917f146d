//! Compiling the Lisp command script into a [`Plan`].
//!
//! The pipeline verbs (`cols`, `drop-cols`, `select`, `sort-by`, `to-num`,
//! `to-str`) are special forms of the interpreter, so they receive their **raw,
//! unevaluated** argument forms. A column name therefore stays a symbol — it is
//! read structurally, never looked up as a variable — and the verbs only ever
//! *append to a plan*: each call of one is a [`Builder::apply_to`], and what the
//! script comes to in the end is [`conclude`]d from the builder. The resulting
//! [`Plan`] is plain data with no interpreter attached.
//!
//! Column types (`Str`/`Num`) are tracked as the script is walked so that
//! `select` and `sort-by` can be numeric *implicitly*: a comparison against a
//! number, or against a column that an earlier `to-num` marked numeric, becomes
//! a numeric comparison.

use vstd::hash_map::StringHashMap;
use vstd::prelude::*;

use crate::error::Error;
use crate::outside::{regex_error, regex_fault};
use crate::plan::{
    BoolExpr, Cmp, CmpOp, ColRef, ConvStmt, Literal, LiteralV, Operand, OutputFormat, Plan,
    ProjectStmt, SortKey, SortStmt, Stage, Stmt,
};
use crate::text::{cat2, cat3, chars_of, same, string_from, texts, trim, trimmed};

verus! {

/// An argument of a verb as it is written, and what it prints as.
pub struct Form {
    pub shape: Shape,
    pub shown: String,
}

/// What an argument is. A list has at least one item.
pub enum Shape {
    Symbol(String),
    Str(String),
    Num(Literal),
    List(Vec<Form>),
    Other,
}

/// Why a verb refuses its arguments.
#[derive(Debug)]
pub enum Refusal {
    /// An argument that the verb cannot use.
    Argument(String),
    /// An argument of another type.
    Mismatch(String),
}

/// What a [`Refusal`] is in contracts.
pub enum RefusalV {
    Argument(Seq<char>),
    Mismatch(Seq<char>),
}

impl View for Refusal {
    type V = RefusalV;

    open spec fn view(&self) -> RefusalV {
        match self {
            Refusal::Argument(m) => RefusalV::Argument(m@),
            Refusal::Mismatch(m) => RefusalV::Mismatch(m@),
        }
    }
}

/// What is known of a column's cells.
#[derive(Clone, Copy, PartialEq, Eq, Structural)]
pub enum ColType {
    Str,
    Num,
}

/// What each numeric text in a script reads as. A text that is not in the table is
/// not a number.
pub struct Literals {
    table: StringHashMap<Literal>,
}

impl View for Literals {
    type V = Map<Seq<char>, LiteralV>;

    closed spec fn view(&self) -> Map<Seq<char>, LiteralV> {
        self.table@.map_values(|n: Literal| n@)
    }
}

impl Literals {
    /// The table in which nothing is a number.
    pub fn new() -> (r: Self)
        ensures
            r@ == Map::<Seq<char>, LiteralV>::empty(),
    {
        let r = Literals { table: StringHashMap::new() };
        assert(r@ =~= Map::<Seq<char>, LiteralV>::empty());
        r
    }

    /// Records that `text` reads as `number`.
    pub fn learn(&mut self, text: String, number: Literal)
        ensures
            final(self)@ == old(self)@.insert(text@, number@),
    {
        self.table.insert(text, number);
        assert(self@ =~= old(self)@.insert(text@, number@));
    }

    /// What `text` reads as.
    pub fn read(&self, text: &str) -> (r: Option<Literal>)
        ensures
            match r {
                Some(n) => self@.contains_key(text@) && n@ == self@[text@],
                None => !self@.contains_key(text@),
            },
    {
        match self.table.get(text) {
            Some(n) => Some(n.clone()),
            None => None,
        }
    }
}

/// A compiled item before it is grouped into stages.
pub enum Item {
    Stmt(Stmt),
    Sort(SortStmt),
}

/// The plan that a script has built so far: its items, and what it has said of
/// its columns. `literals` says what a string literal reads as.
pub struct Builder {
    pub items: Vec<Item>,
    pub col_types: StringHashMap<ColType>,
    pub literals: Literals,
}

impl Default for Builder {
    /// Nothing built, and no text is a number.
    fn default() -> (r: Self)
        ensures
            r.items@ == Seq::<Item>::empty(),
            r.col_types@ == Map::<Seq<char>, ColType>::empty(),
            r.literals@ == Map::<Seq<char>, LiteralV>::empty(),
    {
        Builder {
            items: Vec::new(),
            col_types: StringHashMap::new(),
            literals: Literals::new(),
        }
    }
}

/// Every verb.
pub const VERBS: [&'static str; 8] = [
    "cols",
    "drop-cols",
    "select",
    "sort-by",
    "to-num",
    "to_num",
    "to-str",
    "to_str",
];

/// Whether a column has been marked numeric.
pub open spec fn numeric_col(types: Map<Seq<char>, ColType>, name: Seq<char>) -> bool {
    types.contains_key(name) && types[name] == ColType::Num
}

/// The column that a form names: a bare symbol or a string literal.
pub open spec fn name_of(form: Form) -> Option<Seq<char>> {
    match form.shape {
        Shape::Symbol(s) => Some(s@),
        Shape::Str(s) => Some(s@),
        _ => None,
    }
}

/// Why a form is no column name, when it is not.
pub open spec fn name_refusal(form: Form) -> Option<RefusalV> {
    if name_of(form) is Some {
        None
    } else {
        Some(RefusalV::Argument("expected a column name, got: "@ + form.shown@))
    }
}

/// The first refusal among forms that should be column names.
pub open spec fn any_name_refusal(forms: Seq<Form>, i: int) -> Option<RefusalV>
    decreases forms.len() - i,
{
    if i >= forms.len() {
        None
    } else if name_refusal(forms[i]) is Some {
        name_refusal(forms[i])
    } else {
        any_name_refusal(forms, i + 1)
    }
}

/// Why a verb refuses its columns, when it does: one is no name, or there are
/// none.
pub open spec fn names_refusal(args: Seq<Form>, verb: Seq<char>) -> Option<RefusalV> {
    if any_name_refusal(args, 0) is Some {
        any_name_refusal(args, 0)
    } else if args.len() == 0 {
        Some(RefusalV::Argument(verb + " expects at least one column"@))
    } else {
        None
    }
}

/// The columns that forms name.
pub open spec fn names_of(forms: Seq<Form>) -> Seq<Seq<char>> {
    forms.map_values(|f: Form| name_of(f)->0)
}

/// What an operator of a condition does.
#[derive(Clone, Copy)]
pub enum BoolOp {
    And,
    Or,
    Not,
    Compare(CmpOp),
    Match { negate: bool },
}

/// The operator with that name.
pub open spec fn op_named(name: Seq<char>) -> Option<BoolOp> {
    if name == "and"@ || name == "&&"@ {
        Some(BoolOp::And)
    } else if name == "or"@ || name == "||"@ {
        Some(BoolOp::Or)
    } else if name == "not"@ || name == "!"@ {
        Some(BoolOp::Not)
    } else if name == "=="@ || name == "="@ {
        Some(BoolOp::Compare(CmpOp::Eq))
    } else if name == "!="@ || name == "/="@ {
        Some(BoolOp::Compare(CmpOp::Ne))
    } else if name == "<"@ {
        Some(BoolOp::Compare(CmpOp::Lt))
    } else if name == ">"@ {
        Some(BoolOp::Compare(CmpOp::Gt))
    } else if name == "<="@ {
        Some(BoolOp::Compare(CmpOp::Le))
    } else if name == ">="@ {
        Some(BoolOp::Compare(CmpOp::Ge))
    } else if name == "=~"@ {
        Some(BoolOp::Match { negate: false })
    } else if name == "!~"@ {
        Some(BoolOp::Match { negate: true })
    } else {
        None
    }
}

/// Why a form is no operand, when it is not.
pub open spec fn operand_refusal(form: Form) -> Option<RefusalV> {
    match form.shape {
        Shape::Symbol(_) | Shape::Str(_) | Shape::Num(_) => None,
        _ => Some(
            RefusalV::Argument("operand must be a column, string, or number, got: "@ + form.shown@),
        ),
    }
}

/// Whether an operand makes its comparison numeric.
pub open spec fn numeric_operand(form: Form, types: Map<Seq<char>, ColType>) -> bool {
    match form.shape {
        Shape::Num(_) => true,
        Shape::Symbol(s) => numeric_col(types, s@),
        _ => false,
    }
}

/// Why an operand cannot stand in a numeric comparison, when it cannot.
pub open spec fn number_refusal(
    form: Form,
    literals: Map<Seq<char>, LiteralV>,
) -> Option<RefusalV> {
    match form.shape {
        Shape::Str(s) => if literals.contains_key(trimmed(s@)) {
            None
        } else {
            Some(
                RefusalV::Argument(
                    "non-numeric literal '"@ + s@ + "' in numeric comparison"@,
                ),
            )
        },
        _ => None,
    }
}

/// Why a comparison is refused, when it is.
pub open spec fn pair_refusal(
    rest: Seq<Form>,
    types: Map<Seq<char>, ColType>,
    literals: Map<Seq<char>, LiteralV>,
) -> Option<RefusalV> {
    if rest.len() != 2 {
        Some(RefusalV::Argument("comparison expects exactly two operands"@))
    } else if operand_refusal(rest[0]) is Some {
        operand_refusal(rest[0])
    } else if operand_refusal(rest[1]) is Some {
        operand_refusal(rest[1])
    } else if !numeric_operand(rest[0], types) && !numeric_operand(rest[1], types) {
        None
    } else if number_refusal(rest[0], literals) is Some {
        number_refusal(rest[0], literals)
    } else {
        number_refusal(rest[1], literals)
    }
}

/// Why a regex match is refused, when it is.
pub open spec fn match_refusal(rest: Seq<Form>) -> Option<RefusalV> {
    if rest.len() != 2 {
        Some(RefusalV::Argument("=~ expects a column and a pattern"@))
    } else if name_refusal(rest[0]) is Some {
        name_refusal(rest[0])
    } else {
        match rest[1].shape {
            Shape::Str(p) => match regex_fault(p@) {
                Some(e) => Some(RefusalV::Argument("invalid regex '"@ + p@ + "': "@ + e)),
                None => None,
            },
            _ => Some(
                RefusalV::Argument("=~ pattern must be a string, got: "@ + rest[1].shown@),
            ),
        }
    }
}

/// Why a condition is refused, when it is.
pub open spec fn bool_refusal(
    form: Form,
    types: Map<Seq<char>, ColType>,
    literals: Map<Seq<char>, LiteralV>,
) -> Option<RefusalV>
    decreases form,
{
    match form.shape {
        Shape::List(items) => if items@.len() == 0 {
            Some(
                RefusalV::Argument(
                    "select expects a comparison or logical form, got: "@ + form.shown@,
                ),
            )
        } else {
            let rest = items@.subrange(1, items@.len() as int);
            match items@[0].shape {
                Shape::Symbol(op) => match op_named(op@) {
                    None => Some(RefusalV::Argument("unknown operator in select: "@ + op@)),
                    Some(BoolOp::And) | Some(BoolOp::Or) => any_bool_refusal(
                        rest,
                        types,
                        literals,
                    ),
                    Some(BoolOp::Not) => if items@.len() != 2 {
                        Some(RefusalV::Argument("not expects exactly one argument"@))
                    } else {
                        bool_refusal(items@[1], types, literals)
                    },
                    Some(BoolOp::Compare(_)) => pair_refusal(rest, types, literals),
                    Some(BoolOp::Match { .. }) => match_refusal(rest),
                },
                _ => Some(
                    RefusalV::Argument("expected an operator, got: "@ + items@[0].shown@),
                ),
            }
        },
        _ => Some(
            RefusalV::Argument(
                "select expects a comparison or logical form, got: "@ + form.shown@,
            ),
        ),
    }
}

/// The first refusal among conditions.
pub open spec fn any_bool_refusal(
    forms: Seq<Form>,
    types: Map<Seq<char>, ColType>,
    literals: Map<Seq<char>, LiteralV>,
) -> Option<RefusalV>
    decreases forms,
{
    if forms.len() == 0 {
        None
    } else if bool_refusal(forms[0], types, literals) is Some {
        bool_refusal(forms[0], types, literals)
    } else {
        any_bool_refusal(forms.subrange(1, forms.len() as int), types, literals)
    }
}

/// Whether an operand is what a form compiles to.
pub open spec fn operand_is(
    form: Form,
    numeric: bool,
    literals: Map<Seq<char>, LiteralV>,
    operand: Operand,
) -> bool {
    match form.shape {
        Shape::Symbol(s) => operand matches Operand::Col(c) && c.name@ == s@ && c.pos == 0,
        Shape::Str(s) => if numeric {
            operand matches Operand::Num(n) && n@ == literals[trimmed(s@)]
        } else {
            operand matches Operand::Str(t) && t@ == s@
        },
        Shape::Num(n) => operand matches Operand::Num(m) && m@ == n@,
        _ => false,
    }
}

/// Whether a condition is what a form compiles to.
pub open spec fn bool_is(
    form: Form,
    types: Map<Seq<char>, ColType>,
    literals: Map<Seq<char>, LiteralV>,
    e: BoolExpr,
) -> bool
    decreases form,
{
    match form.shape {
        Shape::List(items) => if items@.len() == 0 {
            false
        } else {
            let rest = items@.subrange(1, items@.len() as int);
            match items@[0].shape {
                Shape::Symbol(op) => match op_named(op@) {
                    None => false,
                    Some(BoolOp::And) => match e {
                        BoolExpr::And(es) => bools_are(rest, types, literals, es@),
                        _ => false,
                    },
                    Some(BoolOp::Or) => match e {
                        BoolExpr::Or(es) => bools_are(rest, types, literals, es@),
                        _ => false,
                    },
                    Some(BoolOp::Not) => match e {
                        BoolExpr::Not(inner) => items@.len() == 2 && bool_is(
                            items@[1],
                            types,
                            literals,
                            *inner,
                        ),
                        _ => false,
                    },
                    Some(BoolOp::Compare(op)) => match e {
                        BoolExpr::Cmp(c) => {
                            &&& rest.len() == 2
                            &&& c.op == op
                            &&& c.numeric == (numeric_operand(rest[0], types) || numeric_operand(
                                rest[1],
                                types,
                            ))
                            &&& operand_is(rest[0], c.numeric, literals, c.lhs)
                            &&& operand_is(rest[1], c.numeric, literals, c.rhs)
                        },
                        _ => false,
                    },
                    Some(BoolOp::Match { negate: n }) => match e {
                        BoolExpr::Match { col, pattern, negate } => {
                            &&& rest.len() == 2
                            &&& name_of(rest[0]) == Some(col.name@)
                            &&& col.pos == 0
                            &&& rest[1].shape matches Shape::Str(p)
                            &&& pattern@ == p@
                            &&& negate == n
                        },
                        _ => false,
                    },
                },
                _ => false,
            }
        },
        _ => false,
    }
}

/// Whether conditions are what forms compile to, one for one.
pub open spec fn bools_are(
    forms: Seq<Form>,
    types: Map<Seq<char>, ColType>,
    literals: Map<Seq<char>, LiteralV>,
    es: Seq<BoolExpr>,
) -> bool
    decreases forms,
{
    if forms.len() == 0 {
        es.len() == 0
    } else {
        &&& es.len() > 0
        &&& bool_is(forms[0], types, literals, es[0])
        &&& bools_are(
            forms.subrange(1, forms.len() as int),
            types,
            literals,
            es.subrange(1, es.len() as int),
        )
    }
}

/// What a sort modifier asks for.
#[derive(Clone, Copy, PartialEq, Eq, Structural)]
pub enum Modifier {
    Reverse,
    Numeric,
}

/// The modifier with that name, which a colon may start.
pub open spec fn modifier_named(raw: Seq<char>) -> Option<Modifier> {
    let name = if raw.len() > 0 && raw[0] == ':' {
        raw.skip(1)
    } else {
        raw
    };
    if name == "reverse"@ || name == "r"@ || name == "desc"@ || name == "descending"@ {
        Some(Modifier::Reverse)
    } else if name == "numeric"@ || name == "n"@ || name == "num"@ {
        Some(Modifier::Numeric)
    } else {
        None
    }
}

/// The modifier that a form is.
pub open spec fn modifier_of(form: Form) -> Option<Modifier> {
    match form.shape {
        Shape::Symbol(s) => modifier_named(s@),
        _ => None,
    }
}

/// The first refusal among the modifiers from `i` on.
pub open spec fn modifier_refusal(items: Seq<Form>, i: int) -> Option<RefusalV>
    decreases items.len() - i,
{
    if i >= items.len() {
        None
    } else {
        match items[i].shape {
            Shape::Symbol(s) => if modifier_named(s@) is None {
                Some(RefusalV::Argument("unknown sort modifier: "@ + items[i].shown@))
            } else {
                modifier_refusal(items, i + 1)
            },
            _ => Some(RefusalV::Mismatch("Expected symbol, got: "@ + items[i].shown@)),
        }
    }
}

/// A sort key's column and the modifiers behind it.
pub open spec fn key_parts(spec: Form) -> (Form, Seq<Form>) {
    match spec.shape {
        Shape::List(items) => if items@.len() > 0 {
            (items@[0], items@.subrange(1, items@.len() as int))
        } else {
            (spec, seq![])
        },
        _ => (spec, seq![]),
    }
}

/// Why a sort key is refused, when it is.
pub open spec fn key_refusal(spec: Form) -> Option<RefusalV> {
    let (col, mods) = key_parts(spec);
    if name_refusal(col) is Some {
        name_refusal(col)
    } else {
        modifier_refusal(mods, 0)
    }
}

/// The first refusal among the sort keys from `i` on.
pub open spec fn any_key_refusal(args: Seq<Form>, i: int) -> Option<RefusalV>
    decreases args.len() - i,
{
    if i >= args.len() {
        None
    } else if key_refusal(args[i]) is Some {
        key_refusal(args[i])
    } else {
        any_key_refusal(args, i + 1)
    }
}

/// Whether one of the modifiers is `m`.
pub open spec fn asks(mods: Seq<Form>, m: Modifier) -> bool {
    exists|i: int| 0 <= i < mods.len() && modifier_of(#[trigger] mods[i]) == Some(m)
}

/// Whether a sort key is what a form compiles to.
pub open spec fn key_is(spec: Form, types: Map<Seq<char>, ColType>, key: SortKey) -> bool {
    let (col, mods) = key_parts(spec);
    &&& name_of(col) == Some(key.name@)
    &&& key.pos == 0
    &&& key.descending == asks(mods, Modifier::Reverse)
    &&& key.numeric == (numeric_col(types, key.name@) || asks(mods, Modifier::Numeric))
}

/// Why a verb refuses its arguments, when it does.
pub open spec fn verb_refusal(
    verb: Seq<char>,
    args: Seq<Form>,
    types: Map<Seq<char>, ColType>,
    literals: Map<Seq<char>, LiteralV>,
) -> Option<RefusalV> {
    if verb == "select"@ {
        if args.len() == 0 {
            Some(RefusalV::Argument("select expects one argument"@))
        } else if args.len() > 1 {
            Some(RefusalV::Argument("select expects exactly one argument"@))
        } else {
            bool_refusal(args[0], types, literals)
        }
    } else if verb == "sort-by"@ {
        if any_key_refusal(args, 0) is Some {
            any_key_refusal(args, 0)
        } else if args.len() == 0 {
            Some(RefusalV::Argument("sort expects at least one column"@))
        } else {
            None
        }
    } else {
        names_refusal(args, verb)
    }
}

/// Whether an item is what a verb appends.
pub open spec fn item_is(
    verb: Seq<char>,
    args: Seq<Form>,
    types: Map<Seq<char>, ColType>,
    literals: Map<Seq<char>, LiteralV>,
    item: Item,
) -> bool {
    if verb == "select"@ {
        item matches Item::Stmt(Stmt::Select(e)) && bool_is(args[0], types, literals, e)
    } else if verb == "sort-by"@ {
        &&& item matches Item::Sort(s)
        &&& s.keys@.len() == args.len()
        &&& forall|i: int| 0 <= i < args.len() ==> key_is(args[i], types, #[trigger] s.keys@[i])
    } else if verb == "cols"@ || verb == "drop-cols"@ {
        &&& item matches Item::Stmt(Stmt::Cols(p))
        &&& p.exclude == (verb == "drop-cols"@)
        &&& texts(p.names@) == names_of(args)
        &&& p.positions@.len() == 0
    } else if verb == "to-num"@ || verb == "to_num"@ {
        &&& item matches Item::Stmt(Stmt::ToNum(c))
        &&& texts(c.names@) == names_of(args)
        &&& c.positions@.len() == 0
    } else {
        &&& item matches Item::Stmt(Stmt::ToStr(c))
        &&& texts(c.names@) == names_of(args)
        &&& c.positions@.len() == 0
    }
}

/// What is known of the columns once the first `n` of `names` have been marked.
pub open spec fn marked(
    types: Map<Seq<char>, ColType>,
    names: Seq<Seq<char>>,
    n: int,
    to: ColType,
) -> Map<Seq<char>, ColType>
    decreases n,
{
    if n <= 0 {
        types
    } else {
        marked(types, names, n - 1, to).insert(names[n - 1], to)
    }
}

/// What is known of the columns behind a verb.
pub open spec fn types_after(
    verb: Seq<char>,
    args: Seq<Form>,
    types: Map<Seq<char>, ColType>,
) -> Map<Seq<char>, ColType> {
    if verb == "to-num"@ || verb == "to_num"@ {
        marked(types, names_of(args), args.len() as int, ColType::Num)
    } else if verb == "to-str"@ || verb == "to_str"@ {
        marked(types, names_of(args), args.len() as int, ColType::Str)
    } else {
        types
    }
}

/// Whether a verb takes one state of the builder to the next.
pub open spec fn applied(
    before: Builder,
    verb: Seq<char>,
    args: Seq<Form>,
    after: Builder,
) -> bool {
    &&& verb_refusal(verb, args, before.col_types@, before.literals@) is None
    &&& after.items@.len() == before.items@.len() + 1
    &&& after.items@.drop_last() == before.items@
    &&& item_is(verb, args, before.col_types@, before.literals@, after.items@.last())
    &&& after.col_types@ == types_after(verb, args, before.col_types@)
    &&& after.literals == before.literals
}

/// The arguments in an argument list: none when it is no list.
pub open spec fn arguments(list: Form) -> Seq<Form> {
    match list.shape {
        Shape::List(items) => items@,
        _ => seq![],
    }
}

/// Whether `r` is a verb's answer to its arguments: it has done its work, or it has
/// refused them and changed nothing.
pub open spec fn answered(
    before: Builder,
    verb: Seq<char>,
    args: Seq<Form>,
    r: Result<(), Refusal>,
    after: Builder,
) -> bool {
    match r {
        Ok(_) => applied(before, verb, args, after),
        Err(e) => {
            &&& after == before
            &&& verb_refusal(verb, args, before.col_types@, before.literals@) == Some(e@)
        },
    }
}

/// A run of statements as items.
pub open spec fn pending(stmts: Seq<Stmt>) -> Seq<Item> {
    stmts.map_values(|s: Stmt| Item::Stmt(s))
}

/// The items of a stage.
pub open spec fn stage_items(stage: Stage) -> Seq<Item> {
    match stage {
        Stage::Transform(stmts) => pending(stmts@),
        Stage::Sort(s) => seq![Item::Sort(s)],
        _ => seq![],
    }
}

/// The items of stages, in order.
pub open spec fn flat(stages: Seq<Stage>) -> Seq<Item>
    decreases stages.len(),
{
    if stages.len() == 0 {
        seq![]
    } else {
        flat(stages.drop_last()) + stage_items(stages.last())
    }
}

/// Whether stages are items grouped as far as they can be: a run of statements
/// is one transform, and each sort stands alone.
pub open spec fn grouped(items: Seq<Item>, stages: Seq<Stage>) -> bool {
    &&& flat(stages) == items
    &&& forall|i: int|
        0 <= i < stages.len() ==> match #[trigger] stages[i] {
            Stage::Transform(stmts) => stmts@.len() > 0,
            Stage::Sort(_) => true,
            _ => false,
        }
    &&& forall|i: int|
        #![trigger stages[i]]
        0 < i < stages.len() ==> !(stages[i - 1] is Transform && stages[i] is Transform)
}

/// Whether a plan is that of items: their stages, written as CSV, with no header
/// of its own, no colours and no chart.
pub open spec fn built(items: Seq<Item>, plan: Plan) -> bool {
    &&& grouped(items, plan.stages@)
    &&& plan.input_header is None
    &&& plan.output == OutputFormat::Csv
    &&& plan.colors@.len() == 0
    &&& plan.graph is None
}

fn col_name(form: &Form) -> (r: Result<String, Refusal>)
    ensures
        match r {
            Ok(s) => name_refusal(*form) is None && name_of(*form) == Some(s@),
            Err(e) => name_refusal(*form) == Some(e@),
        },
{
    match &form.shape {
        Shape::Symbol(s) => Ok(s.as_str().to_string()),
        Shape::Str(s) => Ok(s.as_str().to_string()),
        _ => Err(
            Refusal::Argument(cat2("expected a column name, got: ", form.shown.as_str())),
        ),
    }
}

/// Read a non-empty list of column names from a verb's arguments.
fn col_names(args: &Vec<Form>, verb: &str) -> (r: Result<Vec<String>, Refusal>)
    ensures
        match r {
            Ok(names) => names_refusal(args@, verb@) is None && texts(names@) == names_of(args@),
            Err(e) => names_refusal(args@, verb@) == Some(e@),
        },
{
    let mut names: Vec<String> = Vec::new();
    let mut i: usize = 0;
    while i < args.len()
        invariant
            i <= args.len(),
            any_name_refusal(args@, 0) == any_name_refusal(args@, i as int),
            texts(names@) == names_of(args@).take(i as int),
        decreases args.len() - i,
    {
        match col_name(&args[i]) {
            Ok(s) => {
                let ghost before = names@;
                names.push(s);
                assert(texts(names@) =~= texts(before).push(s@));
                assert(texts(names@) =~= names_of(args@).take(i + 1));
            },
            Err(e) => {
                return Err(e);
            },
        }
        i += 1;
    }
    assert(names_of(args@).take(args@.len() as int) =~= names_of(args@));
    if args.len() == 0 {
        return Err(Refusal::Argument(cat2(verb, " expects at least one column")));
    }
    Ok(names)
}

fn op_of(name: &str) -> (r: Option<BoolOp>)
    ensures
        r == op_named(name@),
{
    if same(name, "and") || same(name, "&&") {
        Some(BoolOp::And)
    } else if same(name, "or") || same(name, "||") {
        Some(BoolOp::Or)
    } else if same(name, "not") || same(name, "!") {
        Some(BoolOp::Not)
    } else if same(name, "==") || same(name, "=") {
        Some(BoolOp::Compare(CmpOp::Eq))
    } else if same(name, "!=") || same(name, "/=") {
        Some(BoolOp::Compare(CmpOp::Ne))
    } else if same(name, "<") {
        Some(BoolOp::Compare(CmpOp::Lt))
    } else if same(name, ">") {
        Some(BoolOp::Compare(CmpOp::Gt))
    } else if same(name, "<=") {
        Some(BoolOp::Compare(CmpOp::Le))
    } else if same(name, ">=") {
        Some(BoolOp::Compare(CmpOp::Ge))
    } else if same(name, "=~") {
        Some(BoolOp::Match { negate: false })
    } else if same(name, "!~") {
        Some(BoolOp::Match { negate: true })
    } else {
        None
    }
}

/// Compile a comparison operand: a symbol is a column, a string/number is a
/// literal. In a numeric comparison, a string literal is read here.
fn compile_operand(form: &Form, numeric: bool, literals: &Literals) -> (r: Result<
    Operand,
    Refusal,
>)
    requires
        operand_refusal(*form) is None,
    ensures
        match r {
            Ok(o) => {
                &&& numeric ==> number_refusal(*form, literals@) is None
                &&& operand_is(*form, numeric, literals@, o)
            },
            Err(e) => numeric && number_refusal(*form, literals@) == Some(e@),
        },
{
    match &form.shape {
        Shape::Symbol(s) => Ok(Operand::Col(ColRef::new(s.as_str().to_string()))),
        Shape::Str(s) => if numeric {
            match literals.read(trim(s.as_str()).as_str()) {
                Some(n) => Ok(Operand::Num(n)),
                None => Err(
                    Refusal::Argument(
                        cat3(
                            "non-numeric literal '",
                            s.as_str(),
                            "' in numeric comparison",
                        ),
                    ),
                ),
            }
        } else {
            Ok(Operand::Str(s.as_str().to_string()))
        },
        Shape::Num(n) => Ok(Operand::Num(n.clone())),
        _ => Err(Refusal::Argument(String::new())),
    }
}

fn check_operand(form: &Form) -> (r: Result<(), Refusal>)
    ensures
        match r {
            Ok(_) => operand_refusal(*form) is None,
            Err(e) => operand_refusal(*form) == Some(e@),
        },
{
    match &form.shape {
        Shape::Symbol(_) | Shape::Str(_) | Shape::Num(_) => Ok(()),
        _ => Err(
            Refusal::Argument(
                cat2(
                    "operand must be a column, string, or number, got: ",
                    form.shown.as_str(),
                ),
            ),
        ),
    }
}

impl Builder {
    fn is_num(&self, name: &str) -> (r: bool)
        ensures
            r == numeric_col(self.col_types@, name@),
    {
        match self.col_types.get(name) {
            Some(t) => *t == ColType::Num,
            None => false,
        }
    }

    fn is_numeric(&self, form: &Form) -> (r: bool)
        ensures
            r == numeric_operand(*form, self.col_types@),
    {
        match &form.shape {
            Shape::Num(_) => true,
            Shape::Symbol(s) => self.is_num(s.as_str()),
            _ => false,
        }
    }

    fn compile_pair(&self, op: CmpOp, lhs: &Form, rhs: &Form) -> (r: Result<Cmp, Refusal>)
        ensures
            match r {
                Ok(c) => {
                    &&& pair_refusal(seq![*lhs, *rhs], self.col_types@, self.literals@) is None
                    &&& c.op == op
                    &&& c.numeric == (numeric_operand(*lhs, self.col_types@) || numeric_operand(
                        *rhs,
                        self.col_types@,
                    ))
                    &&& operand_is(*lhs, c.numeric, self.literals@, c.lhs)
                    &&& operand_is(*rhs, c.numeric, self.literals@, c.rhs)
                },
                Err(e) => pair_refusal(seq![*lhs, *rhs], self.col_types@, self.literals@) == Some(
                    e@,
                ),
            },
    {
        match check_operand(lhs) {
            Err(e) => {
                return Err(e);
            },
            Ok(_) => {},
        }
        match check_operand(rhs) {
            Err(e) => {
                return Err(e);
            },
            Ok(_) => {},
        }
        let numeric = self.is_numeric(lhs) || self.is_numeric(rhs);
        let left = match compile_operand(lhs, numeric, &self.literals) {
            Err(e) => {
                return Err(e);
            },
            Ok(o) => o,
        };
        let right = match compile_operand(rhs, numeric, &self.literals) {
            Err(e) => {
                return Err(e);
            },
            Ok(o) => o,
        };
        Ok(Cmp { op, lhs: left, rhs: right, numeric })
    }

    /// Compile a boolean form: `(and ...)`, `(or ...)`, `(not e)`, a comparison, or
    /// a regex match.
    pub fn compile_bool(&self, form: &Form) -> (r: Result<BoolExpr, Refusal>)
        ensures
            match r {
                Ok(e) => {
                    &&& bool_refusal(*form, self.col_types@, self.literals@) is None
                    &&& bool_is(*form, self.col_types@, self.literals@, e)
                },
                Err(e) => bool_refusal(*form, self.col_types@, self.literals@) == Some(e@),
            },
        decreases *form, 0nat,
    {
        let items = match &form.shape {
            Shape::List(items) => items,
            _ => {
                return Err(
                    Refusal::Argument(
                        cat2(
                            "select expects a comparison or logical form, got: ",
                            form.shown.as_str(),
                        ),
                    ),
                );
            },
        };
        if items.len() == 0 {
            return Err(
                Refusal::Argument(
                    cat2(
                        "select expects a comparison or logical form, got: ",
                        form.shown.as_str(),
                    ),
                ),
            );
        }
        let name = match &items[0].shape {
            Shape::Symbol(op) => op.as_str(),
            _ => {
                return Err(
                    Refusal::Argument(
                        cat2("expected an operator, got: ", items[0].shown.as_str()),
                    ),
                );
            },
        };
        let ghost rest = items@.subrange(1, items@.len() as int);
        match op_of(name) {
            None => Err(Refusal::Argument(cat2("unknown operator in select: ", name))),
            Some(BoolOp::And) => match self.compile_bool_list(items, 1) {
                Ok(es) => Ok(BoolExpr::And(es)),
                Err(e) => Err(e),
            },
            Some(BoolOp::Or) => match self.compile_bool_list(items, 1) {
                Ok(es) => Ok(BoolExpr::Or(es)),
                Err(e) => Err(e),
            },
            Some(BoolOp::Not) => {
                if items.len() != 2 {
                    return Err(
                        Refusal::Argument("not expects exactly one argument".to_string()),
                    );
                }
                match self.compile_bool(&items[1]) {
                    Ok(e) => Ok(BoolExpr::Not(Box::new(e))),
                    Err(e) => Err(e),
                }
            },
            Some(BoolOp::Compare(op)) => {
                if items.len() != 3 {
                    return Err(
                        Refusal::Argument("comparison expects exactly two operands".to_string()),
                    );
                }
                assert(rest =~= seq![items@[1], items@[2]]);
                match self.compile_pair(op, &items[1], &items[2]) {
                    Ok(c) => Ok(BoolExpr::Cmp(c)),
                    Err(e) => Err(e),
                }
            },
            Some(BoolOp::Match { negate }) => {
                if items.len() != 3 {
                    return Err(
                        Refusal::Argument("=~ expects a column and a pattern".to_string()),
                    );
                }
                assert(rest =~= seq![items@[1], items@[2]]);
                compile_match(&items[1], &items[2], negate)
            },
        }
    }

    fn compile_bool_list(&self, forms: &Vec<Form>, from: usize) -> (r: Result<
        Vec<BoolExpr>,
        Refusal,
    >)
        requires
            from <= forms.len(),
        ensures
            match r {
                Ok(es) => {
                    &&& any_bool_refusal(
                        forms@.subrange(from as int, forms@.len() as int),
                        self.col_types@,
                        self.literals@,
                    ) is None
                    &&& bools_are(
                        forms@.subrange(from as int, forms@.len() as int),
                        self.col_types@,
                        self.literals@,
                        es@,
                    )
                },
                Err(e) => any_bool_refusal(
                    forms@.subrange(from as int, forms@.len() as int),
                    self.col_types@,
                    self.literals@,
                ) == Some(e@),
            },
        decreases *forms, forms.len() - from,
    {
        let ghost rest = forms@.subrange(from as int, forms@.len() as int);
        if from == forms.len() {
            return Ok(Vec::new());
        }
        let first = match self.compile_bool(&forms[from]) {
            Ok(e) => e,
            Err(e) => {
                return Err(e);
            },
        };
        assert(rest.subrange(1, rest.len() as int) =~= forms@.subrange(
            from + 1,
            forms@.len() as int,
        ));
        match self.compile_bool_list(forms, from + 1) {
            Err(e) => Err(e),
            Ok(more) => {
                let ghost tail = more@;
                let mut es: Vec<BoolExpr> = Vec::new();
                es.push(first);
                let mut more = more;
                es.append(&mut more);
                assert(es@.subrange(1, es@.len() as int) =~= tail);
                Ok(es)
            },
        }
    }

    /// Parse `sort-by` specs: a bare column, or `(column :reverse :numeric ...)`.
    fn sort_keys(&self, args: &Vec<Form>) -> (r: Result<Vec<SortKey>, Refusal>)
        ensures
            match r {
                Ok(keys) => {
                    &&& any_key_refusal(args@, 0) is None
                    &&& args@.len() > 0
                    &&& keys@.len() == args@.len()
                    &&& forall|i: int|
                        0 <= i < args@.len() ==> key_is(
                            args@[i],
                            self.col_types@,
                            #[trigger] keys@[i],
                        )
                },
                Err(e) => verb_refusal("sort-by"@, args@, self.col_types@, self.literals@) == Some(
                    e@,
                ),
            },
    {
        proof {
            reveal_strlit("select");
            reveal_strlit("sort-by");
            assert("select"@.len() != "sort-by"@.len());
        }
        let mut keys: Vec<SortKey> = Vec::new();
        let mut i: usize = 0;
        while i < args.len()
            invariant
                i <= args.len(),
                "select"@.len() != "sort-by"@.len(),
                any_key_refusal(args@, 0) == any_key_refusal(args@, i as int),
                keys@.len() == i,
                forall|k: int|
                    0 <= k < i ==> key_is(args@[k], self.col_types@, #[trigger] keys@[k]),
            decreases args.len() - i,
        {
            match self.sort_key(&args[i]) {
                Ok(key) => {
                    keys.push(key);
                },
                Err(e) => {
                    return Err(e);
                },
            }
            i += 1;
        }
        if args.len() == 0 {
            return Err(Refusal::Argument("sort expects at least one column".to_string()));
        }
        Ok(keys)
    }

    fn sort_key(&self, spec: &Form) -> (r: Result<SortKey, Refusal>)
        ensures
            match r {
                Ok(key) => key_refusal(*spec) is None && key_is(*spec, self.col_types@, key),
                Err(e) => key_refusal(*spec) == Some(e@),
            },
    {
        match &spec.shape {
            Shape::List(items) => {
                if items.len() == 0 {
                    return match col_name(spec) {
                        Ok(name) => Ok(self.plain_key(name)),
                        Err(e) => Err(e),
                    };
                }
                match col_name(&items[0]) {
                    Ok(name) => {
                        let mut key = self.plain_key(name);
                        match read_modifiers(items) {
                            Ok((reverse, numeric)) => {
                                key.descending = reverse;
                                key.numeric = key.numeric || numeric;
                                Ok(key)
                            },
                            Err(e) => Err(e),
                        }
                    },
                    Err(e) => Err(e),
                }
            },
            _ => match col_name(spec) {
                Ok(name) => Ok(self.plain_key(name)),
                Err(e) => Err(e),
            },
        }
    }

    fn plain_key(&self, name: String) -> (r: SortKey)
        ensures
            r.name == name,
            r.pos == 0,
            !r.descending,
            r.numeric == numeric_col(self.col_types@, name@),
    {
        let numeric = self.is_num(name.as_str());
        SortKey { name, pos: 0, descending: false, numeric }
    }
}

fn compile_match(col: &Form, pattern: &Form, negate: bool) -> (r: Result<BoolExpr, Refusal>)
    ensures
        match r {
            Ok(e) => {
                &&& match_refusal(seq![*col, *pattern]) is None
                &&& e matches BoolExpr::Match { col: c, pattern: p, negate: n }
                &&& name_of(*col) == Some(c.name@)
                &&& c.pos == 0
                &&& pattern.shape matches Shape::Str(t)
                &&& p@ == t@
                &&& n == negate
            },
            Err(e) => match_refusal(seq![*col, *pattern]) == Some(e@),
        },
{
    let name = match col_name(col) {
        Ok(name) => name,
        Err(e) => {
            return Err(e);
        },
    };
    match &pattern.shape {
        Shape::Str(p) => match regex_error(p.as_str()) {
            Some(e) => {
                let mut m = cat3("invalid regex '", p.as_str(), "': ");
                m.append(e.as_str());
                Err(Refusal::Argument(m))
            },
            None => Ok(
                BoolExpr::Match {
                    col: ColRef::new(name),
                    pattern: p.as_str().to_string(),
                    negate,
                },
            ),
        },
        _ => Err(
            Refusal::Argument(cat2("=~ pattern must be a string, got: ", pattern.shown.as_str())),
        ),
    }
}

fn modifier(raw: &str) -> (r: Option<Modifier>)
    ensures
        r == modifier_named(raw@),
{
    let v = chars_of(raw);
    let from: usize = if v.len() > 0 && v[0] == ':' {
        1
    } else {
        0
    };
    let name = string_from(v.as_slice(), from, v.len());
    proof {
        if from == 1 {
            assert(name@ =~= raw@.skip(1));
        } else {
            assert(name@ =~= raw@);
        }
    }
    let name = name.as_str();
    if same(name, "reverse") || same(name, "r") || same(name, "desc") || same(
        name,
        "descending",
    ) {
        Some(Modifier::Reverse)
    } else if same(name, "numeric") || same(name, "n") || same(name, "num") {
        Some(Modifier::Numeric)
    } else {
        None
    }
}

fn read_modifiers(items: &Vec<Form>) -> (r: Result<(bool, bool), Refusal>)
    requires
        items.len() > 0,
    ensures
        match r {
            Ok((reverse, numeric)) => {
                let mods = items@.subrange(1, items@.len() as int);
                &&& modifier_refusal(mods, 0) is None
                &&& reverse == asks(mods, Modifier::Reverse)
                &&& numeric == asks(mods, Modifier::Numeric)
            },
            Err(e) => modifier_refusal(items@.subrange(1, items@.len() as int), 0) == Some(e@),
        },
{
    let ghost mods = items@.subrange(1, items@.len() as int);
    let mut reverse = false;
    let mut numeric = false;
    let mut i: usize = 1;
    while i < items.len()
        invariant
            1 <= i <= items.len(),
            mods == items@.subrange(1, items@.len() as int),
            modifier_refusal(mods, 0) == modifier_refusal(mods, i - 1),
            reverse == exists|k: int|
                0 <= k < i - 1 && modifier_of(#[trigger] mods[k]) == Some(Modifier::Reverse),
            numeric == exists|k: int|
                0 <= k < i - 1 && modifier_of(#[trigger] mods[k]) == Some(Modifier::Numeric),
        decreases items.len() - i,
    {
        assert(mods[i - 1] == items@[i as int]);
        match &items[i].shape {
            Shape::Symbol(s) => match modifier(s.as_str()) {
                Some(Modifier::Reverse) => {
                    assert(modifier_of(mods[i - 1]) == Some(Modifier::Reverse));
                    reverse = true;
                },
                Some(Modifier::Numeric) => {
                    assert(modifier_of(mods[i - 1]) == Some(Modifier::Numeric));
                    numeric = true;
                },
                None => {
                    return Err(
                        Refusal::Argument(
                            cat2("unknown sort modifier: ", items[i].shown.as_str()),
                        ),
                    );
                },
            },
            _ => {
                return Err(
                    Refusal::Mismatch(cat2("Expected symbol, got: ", items[i].shown.as_str())),
                );
            },
        }
        i += 1;
    }
    Ok((reverse, numeric))
}

/// The verbs that mark columns, by what they mark them as.
fn marks(verb: &str) -> (r: Option<ColType>)
    ensures
        match r {
            Some(ColType::Num) => verb@ == "to-num"@ || verb@ == "to_num"@,
            Some(ColType::Str) => {
                &&& verb@ != "to-num"@ && verb@ != "to_num"@
                &&& verb@ == "to-str"@ || verb@ == "to_str"@
            },
            None => {
                &&& verb@ != "to-num"@ && verb@ != "to_num"@
                &&& verb@ != "to-str"@ && verb@ != "to_str"@
            },
        },
{
    if same(verb, "to-num") || same(verb, "to_num") {
        Some(ColType::Num)
    } else if same(verb, "to-str") || same(verb, "to_str") {
        Some(ColType::Str)
    } else {
        None
    }
}

/// Whether `verb` is one of the verbs.
pub open spec fn is_verb(verb: Seq<char>) -> bool {
    ||| verb == "cols"@
    ||| verb == "drop-cols"@
    ||| verb == "select"@
    ||| verb == "sort-by"@
    ||| verb == "to-num"@
    ||| verb == "to_num"@
    ||| verb == "to-str"@
    ||| verb == "to_str"@
}

proof fn lemma_verbs_differ()
    ensures
        "to-num"@ != "select"@,
        "to-num"@ != "sort-by"@,
        "to-num"@ != "cols"@,
        "to-num"@ != "drop-cols"@,
        "to_num"@ != "select"@,
        "to_num"@ != "sort-by"@,
        "to_num"@ != "cols"@,
        "to_num"@ != "drop-cols"@,
        "to-str"@ != "select"@,
        "to-str"@ != "sort-by"@,
        "to-str"@ != "cols"@,
        "to-str"@ != "drop-cols"@,
        "to_str"@ != "select"@,
        "to_str"@ != "sort-by"@,
        "to_str"@ != "cols"@,
        "to_str"@ != "drop-cols"@,
        "cols"@ != "drop-cols"@,
        "select"@ != "sort-by"@,
        "select"@ != "cols"@,
        "select"@ != "drop-cols"@,
        "sort-by"@ != "cols"@,
        "sort-by"@ != "drop-cols"@,
{
    reveal_strlit("to-num");
    reveal_strlit("to_num");
    reveal_strlit("to-str");
    reveal_strlit("to_str");
    reveal_strlit("select");
    reveal_strlit("sort-by");
    reveal_strlit("cols");
    reveal_strlit("drop-cols");
    assert("select"@[0] == 's' && "to-num"@[0] == 't' && "to_num"@[0] == 't');
    assert("to-str"@[0] == 't' && "to_str"@[0] == 't');
    assert("cols"@.len() == 4 && "select"@.len() == 6);
    assert("sort-by"@.len() == 7 && "drop-cols"@.len() == 9);
}

impl Builder {
    /// Appends what `verb` compiles its arguments to; a verb that refuses them
    /// changes nothing.
    pub fn apply(&mut self, verb: &str, args: &Vec<Form>) -> (r: Result<(), Refusal>)
        requires
            is_verb(verb@),
        ensures
            match r {
                Ok(_) => applied(*old(self), verb@, args@, *final(self)),
                Err(e) => {
                    &&& *final(self) == *old(self)
                    &&& verb_refusal(verb@, args@, old(self).col_types@, old(self).literals@)
                        == Some(e@)
                },
            },
    {
        proof {
            lemma_verbs_differ();
        }
        if same(verb, "select") {
            if args.len() == 0 {
                return Err(Refusal::Argument("select expects one argument".to_string()));
            }
            if args.len() > 1 {
                return Err(Refusal::Argument("select expects exactly one argument".to_string()));
            }
            return match self.compile_bool(&args[0]) {
                Ok(e) => {
                    self.items.push(Item::Stmt(Stmt::Select(e)));
                    assert(self.items@.drop_last() =~= old(self).items@);
                    Ok(())
                },
                Err(e) => Err(e),
            };
        }
        if same(verb, "sort-by") {
            return match self.sort_keys(args) {
                Ok(keys) => {
                    self.items.push(Item::Sort(SortStmt { keys }));
                    assert(self.items@.drop_last() =~= old(self).items@);
                    Ok(())
                },
                Err(e) => Err(e),
            };
        }
        let names = match col_names(args, verb) {
            Ok(names) => names,
            Err(e) => {
                return Err(e);
            },
        };
        match marks(verb) {
            Some(to) => {
                self.mark(&names, to);
                assert(texts(names@).len() == args@.len());
                let conv = ConvStmt { names, positions: Vec::new() };
                self.items.push(
                    Item::Stmt(
                        match to {
                            ColType::Num => Stmt::ToNum(conv),
                            ColType::Str => Stmt::ToStr(conv),
                        },
                    ),
                );
            },
            None => {
                let exclude = same(verb, "drop-cols");
                self.items.push(
                    Item::Stmt(Stmt::Cols(ProjectStmt { exclude, names, positions: Vec::new() })),
                );
            },
        }
        assert(self.items@.drop_last() =~= old(self).items@);
        Ok(())
    }

    fn mark(&mut self, names: &Vec<String>, to: ColType)
        ensures
            final(self).items == old(self).items,
            final(self).literals == old(self).literals,
            final(self).col_types@ == marked(
                old(self).col_types@,
                texts(names@),
                names@.len() as int,
                to,
            ),
    {
        let mut i: usize = 0;
        while i < names.len()
            invariant
                i <= names.len(),
                self.items == old(self).items,
                self.literals == old(self).literals,
                self.col_types@ == marked(old(self).col_types@, texts(names@), i as int, to),
            decreases names.len() - i,
        {
            assert(texts(names@)[i as int] == names@[i as int]@);
            self.col_types.insert(names[i].as_str().to_string(), to);
            i += 1;
        }
    }

    /// Group the flat item list into stages: runs of statements become a
    /// `Transform`, and each `sort-by` is isolated into its own stage.
    pub fn take_plan(self) -> (r: Plan)
        ensures
            built(self.items@, r),
    {
        let mut stages: Vec<Stage> = Vec::new();
        let mut transform: Vec<Stmt> = Vec::new();
        let ghost all = self.items@;
        assert(pending(transform@) =~= seq![]);
        assert(flat(stages@) + pending(transform@) =~= all.take(0));
        for item in it: self.items
            invariant
                it.seq() == all,
                flat(stages@) + pending(transform@) == all.take(it.index()),
                grouped(flat(stages@), stages@),
                stages@.len() > 0 ==> stages@.last() is Sort,
        {
            let ghost n = it.index();
            assert(all.take(n + 1) =~= all.take(n).push(all[n]));
            assert(item == all[n]);
            let ghost before = stages@;
            let ghost run = transform@;
            match item {
                Item::Stmt(s) => {
                    transform.push(s);
                    assert(pending(transform@) =~= pending(run).push(Item::Stmt(s)));
                    assert(flat(stages@) + pending(transform@) =~= all.take(n + 1));
                },
                Item::Sort(s) => {
                    if transform.len() > 0 {
                        stages.push(Stage::Transform(transform));
                        transform = Vec::new();
                        proof {
                            assert(stages@.drop_last() =~= before);
                            assert(flat(stages@) =~= flat(before) + pending(run));
                        }
                    } else {
                        assert(pending(run) =~= seq![]);
                        assert(flat(stages@) =~= flat(before) + pending(run));
                    }
                    let ghost middle = stages@;
                    stages.push(Stage::Sort(s));
                    proof {
                        assert(stages@.drop_last() =~= middle);
                        assert(pending(transform@) =~= seq![]);
                        assert(flat(stages@) + pending(transform@) =~= all.take(n + 1));
                    }
                },
            }
        }
        proof {
            assert(all.take(all.len() as int) =~= all);
        }
        if transform.len() > 0 {
            let ghost before = stages@;
            stages.push(Stage::Transform(transform));
            assert(stages@.drop_last() =~= before);
        } else {
            assert(flat(stages@) + pending(transform@) =~= flat(stages@));
        }
        Plan::of(stages)
    }
}

impl Builder {
    /// Applies `verb` to its argument list, which is empty when it is no list.
    pub fn apply_to(&mut self, verb: &str, args: Form) -> (r: Result<(), Refusal>)
        requires
            is_verb(verb@),
        ensures
            answered(*old(self), verb@, arguments(args), r, *final(self)),
    {
        let forms: Vec<Form> = match args.shape {
            Shape::List(items) => items,
            _ => Vec::new(),
        };
        assert(forms@ =~= arguments(args));
        self.apply(verb, &forms)
    }
}

/// What a script comes to: the plan of what its verbs built, or the error that
/// ended it.
pub fn conclude(builder: Builder, fault: Option<String>) -> (r: Result<Plan, Error>)
    ensures
        match fault {
            Some(message) => r == Err::<Plan, Error>(Error::Compile(message)),
            None => r matches Ok(plan) && built(builder.items@, plan),
        },
{
    match fault {
        Some(message) => Err(Error::Compile(message)),
        None => Ok(builder.take_plan()),
    }
}

proof fn lemma_marked(
    types: Map<Seq<char>, ColType>,
    names: Seq<Seq<char>>,
    n: int,
    to: ColType,
    i: int,
)
    requires
        0 <= i < n <= names.len(),
    ensures
        marked(types, names, n, to).contains_key(names[i]),
        marked(types, names, n, to)[names[i]] == to,
    decreases n,
{
    if i < n - 1 {
        lemma_marked(types, names, n - 1, to, i);
    }
}

/// A `to-num` that is not refused makes every comparison with one of its columns
/// numeric from then on, whatever the other side is.
pub proof fn law_to_num_makes_later_comparisons_numeric(
    before: Builder,
    args: Seq<Form>,
    after: Builder,
    i: int,
    operand: Form,
)
    requires
        applied(before, "to-num"@, args, after),
        0 <= i < args.len(),
        operand.shape matches Shape::Symbol(s) && name_of(args[i]) == Some(s@),
    ensures
        numeric_operand(operand, after.col_types@),
{
    let names = names_of(args);
    lemma_marked(before.col_types@, names, args.len() as int, ColType::Num, i);
    assert(names[i] == name_of(args[i])->0);
}

} // verus!
