//! Resolving a plan: each column it names is looked up in the header that the
//! stages before it leave, and the header that the plan writes is worked out.

use crate::error::Error;
use crate::plan::{
    AddStmt, AggSpec, BoolExpr, Cmp, ColRef, ColorRule, ColorScope, ConvStmt, GraphSpec, GroupStmt,
    JoinStmt, Operand, Plan, ProjectStmt, RenameStmt, SortKey, SortStmt, Stage, StatsStmt, Stmt,
    UniqStmt, ValExpr,
};
use crate::text::{all_digits, cat2, chars_of, digits_value, read_digits, same, texts};
use vstd::prelude::*;

verus! {

/// Where `name` first stands in the header, from `k` on.
pub open spec fn named_from(header: Seq<Seq<char>>, name: Seq<char>, k: int) -> Option<int>
    decreases header.len() - k,
{
    if k >= header.len() {
        None
    } else if header[k] == name {
        Some(k)
    } else {
        named_from(header, name, k + 1)
    }
}

/// The column that `name` stands for: the first one of that name; else, for a
/// bare integer, the one at that 1-based position.
pub open spec fn position(header: Seq<Seq<char>>, name: Seq<char>) -> Option<int> {
    match named_from(header, name, 0) {
        Some(i) => Some(i),
        None => if all_digits(name) && 1 <= digits_value(name) <= header.len() {
            Some(digits_value(name) - 1)
        } else {
            None
        },
    }
}

/// The first of the names that stands for no column.
pub open spec fn unknown(header: Seq<Seq<char>>, names: Seq<Seq<char>>) -> Option<Seq<char>>
    decreases names.len(),
{
    if names.len() == 0 {
        None
    } else {
        match unknown(header, names.drop_last()) {
            Some(n) => Some(n),
            None => if position(header, names.last()) is None {
                Some(names.last())
            } else {
                None
            },
        }
    }
}

/// Whether `e` reports that `name` stands for no column of the header: as a bad
/// position where it is a bare integer, as an unknown name otherwise.
pub open spec fn reports(e: Error, header: Seq<Seq<char>>, name: Seq<char>) -> bool {
    if all_digits(name) {
        e matches Error::ColumnIndex { index, available } && index@ == name && texts(available@)
            == header
    } else {
        e matches Error::Column { name: n, available } && n@ == name && texts(available@) == header
    }
}

proof fn lemma_named_from(header: Seq<Seq<char>>, name: Seq<char>, k: int)
    requires
        0 <= k,
    ensures
        named_from(header, name, k) matches Some(i) ==> k <= i < header.len() && header[i] == name,
    decreases header.len() - k,
{
    if k < header.len() && header[k] != name {
        lemma_named_from(header, name, k + 1);
    }
}

proof fn lemma_unknown_concat(header: Seq<Seq<char>>, a: Seq<Seq<char>>, b: Seq<Seq<char>>)
    ensures
        unknown(header, a + b) == (match unknown(header, a) {
            Some(n) => Some(n),
            None => unknown(header, b),
        }),
    decreases b.len(),
{
    if b.len() == 0 {
        assert(a + b =~= a);
    } else {
        lemma_unknown_concat(header, a, b.drop_last());
        assert((a + b).drop_last() =~= a + b.drop_last());
        assert((a + b).last() == b.last());
    }
}

proof fn lemma_unknown_one(header: Seq<Seq<char>>, name: Seq<char>)
    ensures
        unknown(header, seq![name]) == (if position(header, name) is None {
            Some(name)
        } else {
            None
        }),
{
    assert(seq![name].drop_last() =~= Seq::<Seq<char>>::empty());
    assert(unknown(header, Seq::<Seq<char>>::empty()) is None);
}

/// The same names again.
pub fn copy_names(names: &[String]) -> (r: Vec<String>)
    ensures
        texts(r@) == texts(names@),
        r@.len() == names@.len(),
{
    let mut r: Vec<String> = Vec::new();
    let mut i: usize = 0;
    while i < names.len()
        invariant
            i <= names@.len(),
            texts(r@) == texts(names@).take(i as int),
            r@.len() == i,
        decreases names@.len() - i,
    {
        let ghost before = r@;
        r.push(names[i].clone());
        assert(texts(r@) =~= texts(before).push(names@[i as int]@));
        assert(texts(names@).take(i + 1) =~= texts(names@).take(i as int).push(names@[i as int]@));
        i += 1;
    }
    assert(texts(names@).take(i as int) =~= texts(names@));
    r
}

/// The column of the header that `name` stands for.
pub fn find(header: &[String], name: &str) -> (r: Result<usize, Error>)
    ensures
        match r {
            Ok(p) => position(texts(header@), name@) == Some(p as int) && p < header@.len(),
            Err(e) => position(texts(header@), name@) is None && reports(e, texts(header@), name@),
        },
{
    let ghost h = texts(header@);
    let mut i: usize = 0;
    while i < header.len()
        invariant
            i <= header@.len(),
            h == texts(header@),
            named_from(h, name@, 0) == named_from(h, name@, i as int),
        decreases header@.len() - i,
    {
        assert(h[i as int] == header@[i as int]@);
        if same(header[i].as_str(), name) {
            return Ok(i);
        }
        i += 1;
    }
    let cs = chars_of(name);
    let n = header.len();
    match read_digits(cs.as_slice(), n as u64) {
        Some(p) if p > 0 => Ok((p - 1) as usize),
        _ => {
            let available = copy_names(header);
            if digits_only(cs.as_slice()) {
                Err(Error::ColumnIndex { index: name.to_string(), available })
            } else {
                Err(Error::Column { name: name.to_string(), available })
            }
        },
    }
}

fn digits_only(v: &[char]) -> (r: bool)
    ensures
        r == all_digits(v@),
{
    let mut i: usize = 0;
    while i < v.len()
        invariant
            i <= v@.len(),
            forall|k: int| 0 <= k < i ==> crate::text::is_digit(#[trigger] v@[k]),
        decreases v@.len() - i,
    {
        let c = v[i];
        if !('0' <= c && c <= '9') {
            assert(!crate::text::is_digit(v@[i as int]));
            return false;
        }
        i += 1;
    }
    v.len() > 0
}

/// Whether the positions are those that the names stand for.
pub open spec fn at_positions(
    header: Seq<Seq<char>>,
    names: Seq<Seq<char>>,
    positions: Seq<usize>,
) -> bool {
    &&& positions.len() == names.len()
    &&& forall|i: int|
        0 <= i < names.len() ==> position(header, names[i]) == Some(#[trigger] positions[i] as int)
}

/// The columns of the header that the names stand for.
pub fn find_all(header: &[String], names: &[String]) -> (r: Result<Vec<usize>, Error>)
    ensures
        match r {
            Ok(ps) => unknown(texts(header@), texts(names@)) is None && at_positions(
                texts(header@),
                texts(names@),
                ps@,
            ) && forall|i: int| 0 <= i < ps@.len() ==> #[trigger] ps@[i] < header@.len(),
            Err(e) => unknown(texts(header@), texts(names@)) matches Some(n) && reports(
                e,
                texts(header@),
                n,
            ),
        },
{
    let ghost h = texts(header@);
    let ghost ns = texts(names@);
    let mut ps: Vec<usize> = Vec::new();
    let mut i: usize = 0;
    while i < names.len()
        invariant
            i <= names@.len(),
            h == texts(header@),
            ns == texts(names@),
            unknown(h, ns.take(i as int)) is None,
            at_positions(h, ns.take(i as int), ps@),
            forall|k: int| 0 <= k < ps@.len() ==> #[trigger] ps@[k] < header@.len(),
        decreases names@.len() - i,
    {
        proof {
            assert(ns.take(i + 1) =~= ns.take(i as int) + seq![names@[i as int]@]);
            lemma_unknown_concat(h, ns.take(i as int), seq![names@[i as int]@]);
            lemma_unknown_one(h, names@[i as int]@);
            assert(ns =~= ns.take(i + 1) + ns.skip(i + 1));
            lemma_unknown_concat(h, ns.take(i + 1), ns.skip(i + 1));
        }
        match find(header, names[i].as_str()) {
            Ok(p) => {
                ps.push(p);
                assert forall|k: int| 0 <= k < ns.take(i + 1).len() implies position(
                    h,
                    ns.take(i + 1)[k],
                ) == Some(#[trigger] ps@[k] as int) by {
                    if k < i {
                        assert(ns.take(i as int)[k] == ns.take(i + 1)[k]);
                    }
                }
            },
            Err(e) => return Err(e),
        }
        i += 1;
    }
    assert(ns.take(i as int) =~= ns);
    Ok(ps)
}

/// Whether `r` is the column `c`, found in the header.
pub open spec fn col_found(header: Seq<Seq<char>>, c: ColRef, r: ColRef) -> bool {
    r.name@ == c.name@ && position(header, c.name@) == Some(r.pos as int)
}

/// The columns that an operand names.
pub open spec fn operand_names(o: Operand) -> Seq<Seq<char>> {
    match o {
        Operand::Col(c) => seq![c.name@],
        _ => seq![],
    }
}

/// Whether `r` is the operand `o` with its column found.
pub open spec fn operand_found(header: Seq<Seq<char>>, o: Operand, r: Operand) -> bool {
    match o {
        Operand::Col(c) => r matches Operand::Col(d) && col_found(header, c, d),
        Operand::Str(s) => r matches Operand::Str(t) && t@ == s@,
        Operand::Num(n) => r matches Operand::Num(m) && m@ == n@,
    }
}

/// The columns that a condition names, in reading order.
pub open spec fn bool_names(e: BoolExpr) -> Seq<Seq<char>>
    decreases e,
{
    match e {
        BoolExpr::And(es) => bools_names(es@),
        BoolExpr::Or(es) => bools_names(es@),
        BoolExpr::Not(e) => bool_names(*e),
        BoolExpr::Cmp(c) => operand_names(c.lhs) + operand_names(c.rhs),
        BoolExpr::Match { col, .. } => seq![col.name@],
        BoolExpr::Affix { col, .. } => seq![col.name@],
    }
}

/// The columns that the conditions name, in reading order.
pub open spec fn bools_names(es: Seq<BoolExpr>) -> Seq<Seq<char>>
    decreases es,
{
    if es.len() == 0 {
        seq![]
    } else {
        bools_names(es.subrange(0, es.len() - 1)) + bool_names(es[es.len() - 1])
    }
}

/// Whether `r` is the condition `e` with its columns found.
pub open spec fn bool_found(header: Seq<Seq<char>>, e: BoolExpr, r: BoolExpr) -> bool
    decreases e,
{
    match e {
        BoolExpr::And(es) => r matches BoolExpr::And(rs) && rs@.len() == es@.len() && (forall|i: int|
         0 <= i < es@.len() ==> bool_found(header, #[trigger] es@[i], rs@[i])),
        BoolExpr::Or(es) => r matches BoolExpr::Or(rs) && rs@.len() == es@.len() && (forall|i: int|
            0 <= i < es@.len() ==> bool_found(header, #[trigger] es@[i], rs@[i])),
        BoolExpr::Not(x) => r matches BoolExpr::Not(y) && bool_found(header, *x, *y),
        BoolExpr::Cmp(c) => {
            &&& r matches BoolExpr::Cmp(d)
            &&& d.op == c.op
            &&& d.numeric == c.numeric
            &&& operand_found(header, c.lhs, d.lhs)
            &&& operand_found(header, c.rhs, d.rhs)
        },
        BoolExpr::Match { col, pattern, negate } => {
            &&& r matches BoolExpr::Match { col: c, pattern: p, negate: n }
            &&& col_found(header, col, c)
            &&& p@ == pattern@
            &&& n == negate
        },
        BoolExpr::Affix { col, needle, kind } => {
            &&& r matches BoolExpr::Affix { col: c, needle: n, kind: k }
            &&& col_found(header, col, c)
            &&& n@ == needle@
            &&& k == kind
        },
    }
}

/// Whether `r` is how looking the names up goes: with what `ok` says where they
/// all stand for a column, else with the report of the first that does not.
pub open spec fn looked_up<T>(
    r: Result<T, Error>,
    header: Seq<Seq<char>>,
    names: Seq<Seq<char>>,
    ok: bool,
) -> bool {
    match r {
        Ok(_) => unknown(header, names) is None && ok,
        Err(e) => unknown(header, names) matches Some(n) && reports(e, header, n),
    }
}

fn resolve_col(header: &[String], c: &ColRef) -> (r: Result<ColRef, Error>)
    ensures
        looked_up(
            r,
            texts(header@),
            seq![c.name@],
            col_found(texts(header@), *c, r->Ok_0) && r->Ok_0.pos < header@.len(),
        ),
{
    proof {
        lemma_unknown_one(texts(header@), c.name@);
    }
    match find(header, c.name.as_str()) {
        Ok(pos) => Ok(ColRef { name: c.name.clone(), pos }),
        Err(e) => Err(e),
    }
}

fn resolve_operand(header: &[String], o: &Operand) -> (r: Result<Operand, Error>)
    ensures
        looked_up(
            r,
            texts(header@),
            operand_names(*o),
            operand_found(texts(header@), *o, r->Ok_0),
        ),
{
    match o {
        Operand::Col(c) => match resolve_col(header, c) {
            Ok(c) => Ok(Operand::Col(c)),
            Err(e) => Err(e),
        },
        Operand::Str(s) => Ok(Operand::Str(s.clone())),
        Operand::Num(n) => Ok(Operand::Num(n.clone())),
    }
}

/// The condition with its columns found in the header.
pub fn resolve_bool(header: &[String], e: &BoolExpr) -> (r: Result<BoolExpr, Error>)
    ensures
        looked_up(r, texts(header@), bool_names(*e), bool_found(texts(header@), *e, r->Ok_0)),
    decreases e,
{
    let ghost h = texts(header@);
    match e {
        BoolExpr::And(es) => match resolve_bools(header, es) {
            Ok(rs) => Ok(BoolExpr::And(rs)),
            Err(x) => Err(x),
        },
        BoolExpr::Or(es) => match resolve_bools(header, es) {
            Ok(rs) => Ok(BoolExpr::Or(rs)),
            Err(x) => Err(x),
        },
        BoolExpr::Not(x) => match resolve_bool(header, x) {
            Ok(r) => Ok(BoolExpr::Not(Box::new(r))),
            Err(x) => Err(x),
        },
        BoolExpr::Cmp(c) => {
            proof {
                lemma_unknown_concat(h, operand_names(c.lhs), operand_names(c.rhs));
            }
            let lhs = match resolve_operand(header, &c.lhs) {
                Ok(o) => o,
                Err(x) => return Err(x),
            };
            let rhs = match resolve_operand(header, &c.rhs) {
                Ok(o) => o,
                Err(x) => return Err(x),
            };
            Ok(BoolExpr::Cmp(Cmp { op: c.op, lhs, rhs, numeric: c.numeric }))
        },
        BoolExpr::Match { col, pattern, negate } => match resolve_col(header, col) {
            Ok(col) => Ok(BoolExpr::Match { col, pattern: pattern.clone(), negate: *negate }),
            Err(x) => Err(x),
        },
        BoolExpr::Affix { col, needle, kind } => match resolve_col(header, col) {
            Ok(col) => Ok(BoolExpr::Affix { col, needle: needle.clone(), kind: *kind }),
            Err(x) => Err(x),
        },
    }
}

proof fn lemma_bools_names_prefix(header: Seq<Seq<char>>, es: Seq<BoolExpr>, i: int)
    requires
        0 <= i <= es.len(),
    ensures
        unknown(header, bools_names(es.take(i))) matches Some(n) ==> unknown(
            header,
            bools_names(es),
        ) == Some(n),
    decreases es.len() - i,
{
    if i == es.len() {
        assert(es.take(i) =~= es);
    } else {
        lemma_bools_names_prefix(header, es, i + 1);
        let t = es.take(i + 1);
        assert(t.subrange(0, i) =~= es.take(i));
        lemma_unknown_concat(header, bools_names(es.take(i)), bool_names(es[i]));
    }
}

fn resolve_bools(header: &[String], es: &Vec<BoolExpr>) -> (r: Result<Vec<BoolExpr>, Error>)
    ensures
        looked_up(
            r,
            texts(header@),
            bools_names(es@),
            r->Ok_0@.len() == es@.len() && (forall|i: int|
                0 <= i < es@.len() ==> bool_found(
                    texts(header@),
                    #[trigger] es@[i],
                    r->Ok_0@[i],
                )),
        ),
    decreases es,
{
    let ghost h = texts(header@);
    let mut rs: Vec<BoolExpr> = Vec::new();
    let mut i: usize = 0;
    while i < es.len()
        invariant
            i <= es@.len(),
            h == texts(header@),
            unknown(h, bools_names(es@.take(i as int))) is None,
            rs@.len() == i,
            forall|k: int| 0 <= k < i ==> bool_found(h, #[trigger] es@[k], rs@[k]),
        decreases es@.len() - i,
    {
        proof {
            let t = es@.take(i + 1);
            assert(t.subrange(0, i as int) =~= es@.take(i as int));
            lemma_unknown_concat(h, bools_names(es@.take(i as int)), bool_names(es@[i as int]));
            lemma_bools_names_prefix(h, es@, i + 1);
        }
        match resolve_bool(header, &es[i]) {
            Ok(r) => rs.push(r),
            Err(x) => return Err(x),
        }
        i += 1;
    }
    assert(es@.take(i as int) =~= es@);
    Ok(rs)
}

/// The columns that a value names, in reading order.
pub open spec fn val_names(e: ValExpr) -> Seq<Seq<char>>
    decreases e,
{
    match e {
        ValExpr::Col(c) => seq![c.name@],
        ValExpr::Prev(c) => seq![c.name@],
        ValExpr::Num(_) => seq![],
        ValExpr::Str(_) => seq![],
        ValExpr::Rownum => seq![],
        ValExpr::Neg(x) => val_names(*x),
        ValExpr::Arith { lhs, rhs, .. } => val_names(*lhs) + val_names(*rhs),
        ValExpr::Concat(es) => vals_names(es@),
        ValExpr::Func(_, es) => vals_names(es@),
        ValExpr::Bool(b) => bool_names(*b),
        ValExpr::Cond { test, then_, else_ } => bool_names(*test) + val_names(*then_) + val_names(
            *else_,
        ),
    }
}

/// The columns that the values name, in reading order.
pub open spec fn vals_names(es: Seq<ValExpr>) -> Seq<Seq<char>>
    decreases es,
{
    if es.len() == 0 {
        seq![]
    } else {
        vals_names(es.subrange(0, es.len() - 1)) + val_names(es[es.len() - 1])
    }
}

/// Whether `r` is the value `e` with its columns found.
pub open spec fn val_found(header: Seq<Seq<char>>, e: ValExpr, r: ValExpr) -> bool
    decreases e,
{
    match e {
        ValExpr::Col(c) => r matches ValExpr::Col(d) && col_found(header, c, d),
        ValExpr::Prev(c) => r matches ValExpr::Prev(d) && col_found(header, c, d),
        ValExpr::Num(n) => r matches ValExpr::Num(m) && m@ == n@,
        ValExpr::Str(s) => r matches ValExpr::Str(t) && t@ == s@,
        ValExpr::Rownum => r is Rownum,
        ValExpr::Neg(x) => r matches ValExpr::Neg(y) && val_found(header, *x, *y),
        ValExpr::Arith { op, lhs, rhs } => {
            &&& r matches ValExpr::Arith { op: o, lhs: a, rhs: b }
            &&& o == op
            &&& val_found(header, *lhs, *a)
            &&& val_found(header, *rhs, *b)
        },
        ValExpr::Concat(es) => r matches ValExpr::Concat(rs) && rs@.len() == es@.len() && (forall|
            i: int,
        |
            0 <= i < es@.len() ==> val_found(header, #[trigger] es@[i], rs@[i])),
        ValExpr::Func(f, es) => r matches ValExpr::Func(g, rs) && g == f && rs@.len() == es@.len()
            && (forall|i: int|
            0 <= i < es@.len() ==> val_found(header, #[trigger] es@[i], rs@[i])),
        ValExpr::Bool(x) => r matches ValExpr::Bool(y) && bool_found(header, *x, *y),
        ValExpr::Cond { test, then_, else_ } => {
            &&& r matches ValExpr::Cond { test: t, then_: a, else_: b }
            &&& bool_found(header, *test, *t)
            &&& val_found(header, *then_, *a)
            &&& val_found(header, *else_, *b)
        },
    }
}

/// The value with its columns found in the header.
pub fn resolve_val(header: &[String], e: &ValExpr) -> (r: Result<ValExpr, Error>)
    ensures
        looked_up(r, texts(header@), val_names(*e), val_found(texts(header@), *e, r->Ok_0)),
    decreases e,
{
    let ghost h = texts(header@);
    match e {
        ValExpr::Col(c) => match resolve_col(header, c) {
            Ok(c) => Ok(ValExpr::Col(c)),
            Err(x) => Err(x),
        },
        ValExpr::Prev(c) => match resolve_col(header, c) {
            Ok(c) => Ok(ValExpr::Prev(c)),
            Err(x) => Err(x),
        },
        ValExpr::Num(n) => Ok(ValExpr::Num(n.clone())),
        ValExpr::Str(s) => Ok(ValExpr::Str(s.clone())),
        ValExpr::Rownum => Ok(ValExpr::Rownum),
        ValExpr::Neg(x) => match resolve_val(header, x) {
            Ok(r) => Ok(ValExpr::Neg(Box::new(r))),
            Err(x) => Err(x),
        },
        ValExpr::Arith { op, lhs, rhs } => {
            proof {
                lemma_unknown_concat(h, val_names(**lhs), val_names(**rhs));
            }
            let a = match resolve_val(header, lhs) {
                Ok(v) => v,
                Err(x) => return Err(x),
            };
            let b = match resolve_val(header, rhs) {
                Ok(v) => v,
                Err(x) => return Err(x),
            };
            Ok(ValExpr::Arith { op: *op, lhs: Box::new(a), rhs: Box::new(b) })
        },
        ValExpr::Concat(es) => match resolve_vals(header, es) {
            Ok(rs) => Ok(ValExpr::Concat(rs)),
            Err(x) => Err(x),
        },
        ValExpr::Func(f, es) => match resolve_vals(header, es) {
            Ok(rs) => Ok(ValExpr::Func(*f, rs)),
            Err(x) => Err(x),
        },
        ValExpr::Bool(b) => match resolve_bool(header, b) {
            Ok(r) => Ok(ValExpr::Bool(Box::new(r))),
            Err(x) => Err(x),
        },
        ValExpr::Cond { test, then_, else_ } => {
            proof {
                lemma_unknown_concat(h, bool_names(**test), val_names(**then_));
                lemma_unknown_concat(
                    h,
                    bool_names(**test) + val_names(**then_),
                    val_names(**else_),
                );
            }
            let t = match resolve_bool(header, test) {
                Ok(v) => v,
                Err(x) => return Err(x),
            };
            let a = match resolve_val(header, then_) {
                Ok(v) => v,
                Err(x) => return Err(x),
            };
            let b = match resolve_val(header, else_) {
                Ok(v) => v,
                Err(x) => return Err(x),
            };
            Ok(ValExpr::Cond { test: Box::new(t), then_: Box::new(a), else_: Box::new(b) })
        },
    }
}

proof fn lemma_vals_names_prefix(header: Seq<Seq<char>>, es: Seq<ValExpr>, i: int)
    requires
        0 <= i <= es.len(),
    ensures
        unknown(header, vals_names(es.take(i))) matches Some(n) ==> unknown(header, vals_names(es))
            == Some(n),
    decreases es.len() - i,
{
    if i == es.len() {
        assert(es.take(i) =~= es);
    } else {
        lemma_vals_names_prefix(header, es, i + 1);
        let t = es.take(i + 1);
        assert(t.subrange(0, i) =~= es.take(i));
        lemma_unknown_concat(header, vals_names(es.take(i)), val_names(es[i]));
    }
}

fn resolve_vals(header: &[String], es: &Vec<ValExpr>) -> (r: Result<Vec<ValExpr>, Error>)
    ensures
        looked_up(
            r,
            texts(header@),
            vals_names(es@),
            r->Ok_0@.len() == es@.len() && (forall|i: int|
                0 <= i < es@.len() ==> val_found(texts(header@), #[trigger] es@[i], r->Ok_0@[i])),
        ),
    decreases es,
{
    let ghost h = texts(header@);
    let mut rs: Vec<ValExpr> = Vec::new();
    let mut i: usize = 0;
    while i < es.len()
        invariant
            i <= es@.len(),
            h == texts(header@),
            unknown(h, vals_names(es@.take(i as int))) is None,
            rs@.len() == i,
            forall|k: int| 0 <= k < i ==> val_found(h, #[trigger] es@[k], rs@[k]),
        decreases es@.len() - i,
    {
        proof {
            let t = es@.take(i + 1);
            assert(t.subrange(0, i as int) =~= es@.take(i as int));
            lemma_unknown_concat(h, vals_names(es@.take(i as int)), val_names(es@[i as int]));
            lemma_vals_names_prefix(h, es@, i + 1);
        }
        match resolve_val(header, &es[i]) {
            Ok(r) => rs.push(r),
            Err(x) => return Err(x),
        }
        i += 1;
    }
    assert(es@.take(i as int) =~= es@);
    Ok(rs)
}

/// Whether one of the names stands for column `i`.
pub open spec fn covers(header: Seq<Seq<char>>, names: Seq<Seq<char>>, i: int) -> bool {
    exists|k: int| 0 <= k < names.len() && position(header, #[trigger] names[k]) == Some(i)
}

/// The first `n` columns but for those that the names stand for.
pub open spec fn kept(header: Seq<Seq<char>>, names: Seq<Seq<char>>, n: nat) -> Seq<usize>
    decreases n,
{
    if n == 0 {
        seq![]
    } else if covers(header, names, n - 1) {
        kept(header, names, (n - 1) as nat)
    } else {
        kept(header, names, (n - 1) as nat).push((n - 1) as usize)
    }
}

/// The names at the positions.
pub open spec fn picked(header: Seq<Seq<char>>, positions: Seq<usize>) -> Seq<Seq<char>> {
    positions.map_values(|p: usize| header[p as int])
}

/// The names' positions, where each stands for a column.
pub open spec fn positions_of(header: Seq<Seq<char>>, names: Seq<Seq<char>>) -> Seq<usize> {
    names.map_values(|n: Seq<char>| position(header, n)->0 as usize)
}

/// The names that read as positions.
pub open spec fn numbered(names: Seq<Seq<char>>) -> Seq<Seq<char>>
    decreases names.len(),
{
    if names.len() == 0 {
        seq![]
    } else if all_digits(names.last()) {
        numbered(names.drop_last()).push(names.last())
    } else {
        numbered(names.drop_last())
    }
}

/// What is left where the names have been looked up: the header `next`, or the
/// header and the name that was not in it.
pub open spec fn after(header: Seq<Seq<char>>, names: Seq<Seq<char>>, next: Seq<Seq<char>>) -> Result<
    Seq<Seq<char>>,
    (Seq<Seq<char>>, Seq<char>),
> {
    match unknown(header, names) {
        Some(n) => Err((header, n)),
        None => Ok(next),
    }
}

/// The header with the first `k` renames made, one behind the other.
pub open spec fn renamed(header: Seq<Seq<char>>, pairs: Seq<(String, String)>, k: nat) -> Result<
    Seq<Seq<char>>,
    (Seq<Seq<char>>, Seq<char>),
>
    decreases k,
{
    if k == 0 {
        Ok(header)
    } else {
        match renamed(header, pairs, (k - 1) as nat) {
            Ok(h) => match position(h, pairs[k - 1].0@) {
                Some(p) => Ok(h.update(p, pairs[k - 1].1@)),
                None => Err((h, pairs[k - 1].0@)),
            },
            Err(e) => Err(e),
        }
    }
}

/// The header that a statement leaves.
pub open spec fn stmt_header(header: Seq<Seq<char>>, s: Stmt) -> Result<
    Seq<Seq<char>>,
    (Seq<Seq<char>>, Seq<char>),
> {
    match s {
        Stmt::Cols(p) => if p.exclude {
            after(
                header,
                numbered(texts(p.names@)),
                picked(header, kept(header, texts(p.names@), header.len())),
            )
        } else {
            after(
                header,
                texts(p.names@),
                picked(header, positions_of(header, texts(p.names@))),
            )
        },
        Stmt::Select(e) => after(header, bool_names(e), header),
        Stmt::ToNum(c) => after(header, texts(c.names@), header),
        Stmt::ToStr(c) => after(header, texts(c.names@), header),
        Stmt::Rename(r) => renamed(header, r.pairs@, r.pairs@.len()),
        Stmt::Add(a) => after(
            header,
            val_names(a.expr),
            if named_from(header, a.name@, 0) is Some {
                header
            } else {
                header.push(a.name@)
            },
        ),
    }
}

/// Whether `r` is the conversion `c` with its columns found.
pub open spec fn conv_found(header: Seq<Seq<char>>, c: ConvStmt, r: ConvStmt) -> bool {
    texts(r.names@) == texts(c.names@) && r.positions@ == positions_of(header, texts(c.names@))
}

/// Whether `r` is the statement `s` with its columns found.
pub open spec fn stmt_found(header: Seq<Seq<char>>, s: Stmt, r: Stmt) -> bool {
    match s {
        Stmt::Cols(p) => {
            &&& r matches Stmt::Cols(q)
            &&& q.exclude == p.exclude
            &&& texts(q.names@) == texts(p.names@)
            &&& q.positions@ == (if p.exclude {
                kept(header, texts(p.names@), header.len())
            } else {
                positions_of(header, texts(p.names@))
            })
        },
        Stmt::Select(e) => r matches Stmt::Select(f) && bool_found(header, e, f),
        Stmt::ToNum(c) => r matches Stmt::ToNum(d) && conv_found(header, c, d),
        Stmt::ToStr(c) => r matches Stmt::ToStr(d) && conv_found(header, c, d),
        Stmt::Rename(n) => r matches Stmt::Rename(m) && pairs_view(m.pairs@) == pairs_view(n.pairs@),
        Stmt::Add(a) => {
            &&& r matches Stmt::Add(b)
            &&& b.name@ == a.name@
            &&& b.pos == (match named_from(header, a.name@, 0) {
                Some(i) => Some(i as usize),
                None => None,
            })
            &&& val_found(header, a.expr, b.expr)
        },
    }
}

/// Pairs of names in contracts.
pub open spec fn pairs_view(pairs: Seq<(String, String)>) -> Seq<(Seq<char>, Seq<char>)> {
    pairs.map_values(|p: (String, String)| (p.0@, p.1@))
}

/// Whether `r` is how a step goes that leaves the header `left`, or reports the
/// name that it does not know.
pub open spec fn stepped<T>(
    r: Result<(T, Vec<String>), Error>,
    left: Result<Seq<Seq<char>>, (Seq<Seq<char>>, Seq<char>)>,
    ok: bool,
) -> bool {
    match r {
        Ok((_, h)) => left == Ok::<Seq<Seq<char>>, (Seq<Seq<char>>, Seq<char>)>(texts(h@)) && ok,
        Err(e) => left matches Err((h, n)) && reports(e, h, n),
    }
}

proof fn lemma_at_positions(header: Seq<Seq<char>>, names: Seq<Seq<char>>, positions: Seq<usize>)
    requires
        at_positions(header, names, positions),
    ensures
        positions == positions_of(header, names),
{
    assert forall|i: int| 0 <= i < names.len() implies positions[i] == #[trigger] positions_of(
        header,
        names,
    )[i] by {
        assert(position(header, names[i]) == Some(positions[i] as int));
    }
    assert(positions =~= positions_of(header, names));
}

fn pick_names(header: &[String], positions: &[usize]) -> (r: Vec<String>)
    requires
        forall|i: int| 0 <= i < positions@.len() ==> #[trigger] positions@[i] < header@.len(),
    ensures
        texts(r@) == picked(texts(header@), positions@),
{
    let mut r: Vec<String> = Vec::new();
    let mut i: usize = 0;
    while i < positions.len()
        invariant
            i <= positions@.len(),
            forall|k: int| 0 <= k < positions@.len() ==> #[trigger] positions@[k] < header@.len(),
            texts(r@) == picked(texts(header@), positions@.take(i as int)),
        decreases positions@.len() - i,
    {
        let ghost before = r@;
        r.push(header[positions[i]].clone());
        proof {
            assert(texts(r@) =~= texts(before).push(header@[positions@[i as int] as int]@));
            assert(positions@.take(i + 1) =~= positions@.take(i as int).push(positions@[i as int]));
            assert(picked(texts(header@), positions@.take(i + 1)) =~= picked(
                texts(header@),
                positions@.take(i as int),
            ).push(texts(header@)[positions@[i as int] as int]));
        }
        i += 1;
    }
    assert(positions@.take(i as int) =~= positions@);
    r
}

/// The columns that the names do not stand for, in header order. A name that is
/// not there drops nothing; a bad position is reported.
fn find_rest(header: &[String], names: &[String]) -> (r: Result<Vec<usize>, Error>)
    ensures
        looked_up(
            r,
            texts(header@),
            numbered(texts(names@)),
            r->Ok_0@ == kept(texts(header@), texts(names@), header@.len()) && (forall|i: int|
                0 <= i < r->Ok_0@.len() ==> #[trigger] r->Ok_0@[i] < header@.len()),
        ),
{
    let ghost h = texts(header@);
    let ghost ns = texts(names@);
    let mut dropped: Vec<bool> = Vec::new();
    let mut i: usize = 0;
    while i < header.len()
        invariant
            i <= header@.len(),
            dropped@.len() == i,
            forall|k: int| 0 <= k < i ==> !#[trigger] dropped@[k],
        decreases header@.len() - i,
    {
        dropped.push(false);
        i += 1;
    }
    let mut j: usize = 0;
    proof {
        assert(ns.take(0) =~= Seq::<Seq<char>>::empty());
    }
    while j < names.len()
        invariant
            j <= names@.len(),
            h == texts(header@),
            ns == texts(names@),
            dropped@.len() == header@.len(),
            unknown(h, numbered(ns.take(j as int))) is None,
            forall|k: int|
                0 <= k < dropped@.len() ==> #[trigger] dropped@[k] == covers(h, ns.take(j as int), k),
        decreases names@.len() - j,
    {
        let ghost before = dropped@;
        let ghost t = ns.take(j + 1);
        proof {
            assert(t.drop_last() =~= ns.take(j as int));
            assert(t.last() == names@[j as int]@);
            lemma_numbered_prefix(h, ns, j + 1);
            if all_digits(t.last()) {
                assert(numbered(t) =~= numbered(ns.take(j as int)) + seq![t.last()]);
                lemma_unknown_concat(h, numbered(ns.take(j as int)), seq![t.last()]);
                lemma_unknown_one(h, t.last());
            }
        }
        match find(header, names[j].as_str()) {
            Ok(p) => {
                dropped.set(p, true);
            },
            Err(e) => {
                let cs = chars_of(names[j].as_str());
                if digits_only(cs.as_slice()) {
                    return Err(e);
                }
            },
        }
        proof {
            assert forall|k: int| 0 <= k < dropped@.len() implies #[trigger] dropped@[k] == covers(
                h,
                t,
                k,
            ) by {
                if covers(h, t, k) {
                    let w = choose|w: int|
                        0 <= w < t.len() && position(h, #[trigger] t[w]) == Some(k);
                    if w < j {
                        assert(ns.take(j as int)[w] == t[w]);
                        assert(covers(h, ns.take(j as int), k));
                    } else {
                        assert(t[w] == names@[j as int]@);
                    }
                }
                if covers(h, ns.take(j as int), k) {
                    let w = choose|w: int|
                        0 <= w < j && position(h, #[trigger] ns.take(j as int)[w]) == Some(k);
                    assert(t[w] == ns.take(j as int)[w]);
                }
                if position(h, t.last()) == Some(k) {
                    assert(t[j as int] == t.last());
                    assert(covers(h, t, k));
                }
            }
        }
        j += 1;
    }
    assert(ns.take(j as int) =~= ns);
    let mut out: Vec<usize> = Vec::new();
    let mut i: usize = 0;
    while i < dropped.len()
        invariant
            i <= dropped@.len(),
            dropped@.len() == header@.len(),
            forall|k: int| 0 <= k < dropped@.len() ==> #[trigger] dropped@[k] == covers(h, ns, k),
            out@ == kept(h, ns, i as nat),
            forall|k: int| 0 <= k < out@.len() ==> #[trigger] out@[k] < header@.len(),
        decreases dropped@.len() - i,
    {
        assert(dropped@[i as int] == covers(h, ns, i as int));
        if !dropped[i] {
            out.push(i);
        }
        i += 1;
    }
    Ok(out)
}

proof fn lemma_numbered_prefix(header: Seq<Seq<char>>, names: Seq<Seq<char>>, i: int)
    requires
        0 <= i <= names.len(),
    ensures
        unknown(header, numbered(names.take(i))) matches Some(n) ==> unknown(
            header,
            numbered(names),
        ) == Some(n),
    decreases names.len() - i,
{
    if i == names.len() {
        assert(names.take(i) =~= names);
    } else {
        lemma_numbered_prefix(header, names, i + 1);
        let t = names.take(i + 1);
        assert(t.drop_last() =~= names.take(i));
        if all_digits(t.last()) {
            assert(numbered(t) =~= numbered(names.take(i)) + seq![t.last()]);
            lemma_unknown_concat(header, numbered(names.take(i)), seq![t.last()]);
        }
    }
}

fn find_exact(header: &[String], name: &str) -> (r: Option<usize>)
    ensures
        r == (match named_from(texts(header@), name@, 0) {
            Some(i) => Some(i as usize),
            None => None,
        }),
{
    let ghost h = texts(header@);
    let mut i: usize = 0;
    while i < header.len()
        invariant
            i <= header@.len(),
            h == texts(header@),
            named_from(h, name@, 0) == named_from(h, name@, i as int),
        decreases header@.len() - i,
    {
        assert(h[i as int] == header@[i as int]@);
        if same(header[i].as_str(), name) {
            return Some(i);
        }
        i += 1;
    }
    None
}

fn resolve_conv(header: &[String], c: &ConvStmt) -> (r: Result<ConvStmt, Error>)
    ensures
        looked_up(
            r,
            texts(header@),
            texts(c.names@),
            conv_found(texts(header@), *c, r->Ok_0),
        ),
{
    match find_all(header, c.names.as_slice()) {
        Ok(positions) => {
            proof {
                lemma_at_positions(texts(header@), texts(c.names@), positions@);
            }
            Ok(ConvStmt { names: copy_names(c.names.as_slice()), positions })
        },
        Err(e) => Err(e),
    }
}

fn resolve_renames(header: &[String], pairs: &Vec<(String, String)>) -> (r: Result<
    (RenameStmt, Vec<String>),
    Error,
>)
    ensures
        stepped(
            r,
            renamed(texts(header@), pairs@, pairs@.len()),
            pairs_view(r->Ok_0.0.pairs@) == pairs_view(pairs@),
        ),
{
    let ghost h0 = texts(header@);
    let mut h = copy_names(header);
    let mut out: Vec<(String, String)> = Vec::new();
    let mut k: usize = 0;
    while k < pairs.len()
        invariant
            k <= pairs@.len(),
            h0 == texts(header@),
            renamed(h0, pairs@, k as nat) == Ok::<
                Seq<Seq<char>>,
                (Seq<Seq<char>>, Seq<char>),
            >(texts(h@)),
            pairs_view(out@) == pairs_view(pairs@).take(k as int),
        decreases pairs@.len() - k,
    {
        let ghost was = h@;
        let ghost before = out@;
        match find(h.as_slice(), pairs[k].0.as_str()) {
            Ok(p) => {
                h.set(p, pairs[k].1.clone());
                assert(texts(h@) =~= texts(was).update(p as int, pairs@[k as int].1@));
            },
            Err(e) => {
                proof {
                    lemma_renamed_stops(h0, pairs@, k as nat + 1, pairs@.len());
                }
                return Err(e);
            },
        }
        out.push((pairs[k].0.clone(), pairs[k].1.clone()));
        proof {
            assert(pairs_view(out@) =~= pairs_view(before).push(
                (pairs@[k as int].0@, pairs@[k as int].1@),
            ));
            assert(pairs_view(pairs@).take(k + 1) =~= pairs_view(pairs@).take(k as int).push(
                (pairs@[k as int].0@, pairs@[k as int].1@),
            ));
        }
        k += 1;
    }
    assert(pairs_view(pairs@).take(k as int) =~= pairs_view(pairs@));
    Ok((RenameStmt { pairs: out }, h))
}

proof fn lemma_renamed_stops(
    header: Seq<Seq<char>>,
    pairs: Seq<(String, String)>,
    k: nat,
    n: nat,
)
    requires
        k <= n,
        renamed(header, pairs, k) is Err,
    ensures
        renamed(header, pairs, n) == renamed(header, pairs, k),
    decreases n,
{
    if k < n {
        lemma_renamed_stops(header, pairs, k, (n - 1) as nat);
    }
}

/// The statement with its columns found in the header, and the header that it
/// leaves.
pub fn resolve_stmt(header: &[String], s: &Stmt) -> (r: Result<(Stmt, Vec<String>), Error>)
    ensures
        stepped(
            r,
            stmt_header(texts(header@), *s),
            stmt_found(texts(header@), *s, r->Ok_0.0),
        ),
{
    let ghost h = texts(header@);
    match s {
        Stmt::Cols(p) => {
            let found = if p.exclude {
                find_rest(header, p.names.as_slice())
            } else {
                find_all(header, p.names.as_slice())
            };
            match found {
                Ok(positions) => {
                    proof {
                        if !p.exclude {
                            lemma_at_positions(h, texts(p.names@), positions@);
                        }
                    }
                    let left = pick_names(header, positions.as_slice());
                    let names = copy_names(p.names.as_slice());
                    Ok((Stmt::Cols(ProjectStmt { exclude: p.exclude, names, positions }), left))
                },
                Err(e) => Err(e),
            }
        },
        Stmt::Select(e) => match resolve_bool(header, e) {
            Ok(e) => Ok((Stmt::Select(e), copy_names(header))),
            Err(e) => Err(e),
        },
        Stmt::ToNum(c) => match resolve_conv(header, c) {
            Ok(c) => Ok((Stmt::ToNum(c), copy_names(header))),
            Err(e) => Err(e),
        },
        Stmt::ToStr(c) => match resolve_conv(header, c) {
            Ok(c) => Ok((Stmt::ToStr(c), copy_names(header))),
            Err(e) => Err(e),
        },
        Stmt::Rename(r) => match resolve_renames(header, &r.pairs) {
            Ok((r, left)) => Ok((Stmt::Rename(r), left)),
            Err(e) => Err(e),
        },
        Stmt::Add(a) => match resolve_val(header, &a.expr) {
            Ok(expr) => {
                let pos = find_exact(header, a.name.as_str());
                let mut left = copy_names(header);
                if pos.is_none() {
                    let ghost before = left@;
                    left.push(a.name.clone());
                    assert(texts(left@) =~= texts(before).push(a.name@));
                }
                Ok((Stmt::Add(AddStmt { name: a.name.clone(), pos, expr }), left))
            },
            Err(e) => Err(e),
        },
    }
}

/// The header that the statements leave, one behind the other.
pub open spec fn stmts_header(header: Seq<Seq<char>>, stmts: Seq<Stmt>) -> Result<
    Seq<Seq<char>>,
    (Seq<Seq<char>>, Seq<char>),
>
    decreases stmts.len(),
{
    if stmts.len() == 0 {
        Ok(header)
    } else {
        match stmts_header(header, stmts.drop_last()) {
            Ok(h) => stmt_header(h, stmts.last()),
            Err(e) => Err(e),
        }
    }
}

/// Whether `rs` are the statements with their columns found, each in the header
/// that those before it leave.
pub open spec fn stmts_found(header: Seq<Seq<char>>, stmts: Seq<Stmt>, rs: Seq<Stmt>) -> bool {
    &&& rs.len() == stmts.len()
    &&& forall|i: int|
        0 <= i < stmts.len() ==> stmt_found(
            stmts_header(header, stmts.take(i))->Ok_0,
            #[trigger] stmts[i],
            rs[i],
        )
}

proof fn lemma_stmts_stop(header: Seq<Seq<char>>, stmts: Seq<Stmt>, i: int)
    requires
        0 <= i <= stmts.len(),
        stmts_header(header, stmts.take(i)) is Err,
    ensures
        stmts_header(header, stmts) == stmts_header(header, stmts.take(i)),
    decreases stmts.len() - i,
{
    if i == stmts.len() {
        assert(stmts.take(i) =~= stmts);
    } else {
        assert(stmts.take(i + 1).drop_last() =~= stmts.take(i));
        lemma_stmts_stop(header, stmts, i + 1);
    }
}

fn resolve_stmts(header: &[String], stmts: &Vec<Stmt>) -> (r: Result<
    (Vec<Stmt>, Vec<String>),
    Error,
>)
    ensures
        stepped(
            r,
            stmts_header(texts(header@), stmts@),
            stmts_found(texts(header@), stmts@, r->Ok_0.0@),
        ),
{
    let ghost h0 = texts(header@);
    let mut h = copy_names(header);
    let mut rs: Vec<Stmt> = Vec::new();
    let mut i: usize = 0;
    while i < stmts.len()
        invariant
            i <= stmts@.len(),
            h0 == texts(header@),
            stmts_header(h0, stmts@.take(i as int)) == Ok::<
                Seq<Seq<char>>,
                (Seq<Seq<char>>, Seq<char>),
            >(texts(h@)),
            rs@.len() == i,
            forall|k: int|
                0 <= k < i ==> stmt_found(
                    stmts_header(h0, stmts@.take(k))->Ok_0,
                    #[trigger] stmts@[k],
                    rs@[k],
                ),
        decreases stmts@.len() - i,
    {
        proof {
            assert(stmts@.take(i + 1).drop_last() =~= stmts@.take(i as int));
        }
        match resolve_stmt(h.as_slice(), &stmts[i]) {
            Ok((s, left)) => {
                rs.push(s);
                h = left;
            },
            Err(e) => {
                proof {
                    lemma_stmts_stop(h0, stmts@, i + 1);
                }
                return Err(e);
            },
        }
        i += 1;
    }
    assert(stmts@.take(i as int) =~= stmts@);
    Ok((rs, h))
}

/// The names of the sort's keys.
pub open spec fn key_names(keys: Seq<SortKey>) -> Seq<Seq<char>> {
    keys.map_values(|k: SortKey| k.name@)
}

/// The columns that the aggregates are of.
pub open spec fn agg_cols(aggs: Seq<AggSpec>) -> Seq<Seq<char>>
    decreases aggs.len(),
{
    if aggs.len() == 0 {
        seq![]
    } else {
        match aggs.last().col {
            Some(c) => agg_cols(aggs.drop_last()).push(c@),
            None => agg_cols(aggs.drop_last()),
        }
    }
}

/// The names that the aggregates are written under.
pub open spec fn agg_names(aggs: Seq<AggSpec>) -> Seq<Seq<char>> {
    aggs.map_values(|a: AggSpec| a.name@)
}

/// The header of a profile.
pub open spec fn profile_header() -> Seq<Seq<char>> {
    seq!["field"@, "count"@, "empty"@, "min"@, "max"@, "sum"@, "mean"@, "stddev"@]
}

/// The left, or right, names of a join's keys.
pub open spec fn side(keys: Seq<(String, String)>, right: bool) -> Seq<Seq<char>> {
    keys.map_values(
        |k: (String, String)|
            if right {
                k.1@
            } else {
                k.0@
            },
    )
}

/// The name a right column is written under: its own, suffixed where a left
/// column has it.
pub open spec fn right_name(left: Seq<Seq<char>>, name: Seq<char>) -> Seq<char> {
    if left.contains(name) {
        name + "_r"@
    } else {
        name
    }
}

/// The header that a join leaves: the left columns, then the right ones that are
/// no keys.
pub open spec fn join_header(
    header: Seq<Seq<char>>,
    keys: Seq<(String, String)>,
    right: Seq<Seq<char>>,
) -> Result<Seq<Seq<char>>, (Seq<Seq<char>>, Seq<char>)> {
    match unknown(header, side(keys, false)) {
        Some(n) => Err((header, n)),
        None => after(
            right,
            side(keys, true),
            header + kept(right, side(keys, true), right.len()).map_values(
                |p: usize| right_name(header, right[p as int]),
            ),
        ),
    }
}

/// The header that a stage leaves.
pub open spec fn stage_header(header: Seq<Seq<char>>, stage: Stage) -> Result<
    Seq<Seq<char>>,
    (Seq<Seq<char>>, Seq<char>),
> {
    match stage {
        Stage::Transform(stmts) => stmts_header(header, stmts@),
        Stage::Sort(s) => after(header, key_names(s.keys@), header),
        Stage::Head(_) => Ok(header),
        Stage::Tail(_) => Ok(header),
        Stage::DropLast(_) => Ok(header),
        Stage::Uniq(u) => after(header, texts(u.cols@), header),
        Stage::Stats(s) => after(header, texts(s.names@), profile_header()),
        Stage::Group(g) => after(
            header,
            texts(g.keys@) + agg_cols(g.aggs@),
            picked(header, positions_of(header, texts(g.keys@))) + agg_names(g.aggs@),
        ),
        Stage::Join(j) => join_header(header, j.keys@, texts(j.right_header@)),
    }
}

/// Whether `r` is the sort key `k` with its column found.
pub open spec fn key_found(header: Seq<Seq<char>>, k: SortKey, r: SortKey) -> bool {
    &&& r.name@ == k.name@
    &&& position(header, k.name@) == Some(r.pos as int)
    &&& r.descending == k.descending
    &&& r.numeric == k.numeric
}

/// Whether `r` is the aggregate `a` with its column found.
pub open spec fn agg_found(header: Seq<Seq<char>>, a: AggSpec, r: AggSpec) -> bool {
    &&& r.name@ == a.name@
    &&& r.func == a.func
    &&& crate::text::opt_text(r.col) == crate::text::opt_text(a.col)
    &&& match a.col {
        Some(c) => r.pos matches Some(p) && position(header, c@) == Some(p as int),
        None => r.pos is None,
    }
}

/// Whether `r` is the join `j` with its columns found: the keys on either side,
/// and the right columns that are no keys.
pub open spec fn join_found(header: Seq<Seq<char>>, j: JoinStmt, r: JoinStmt) -> bool {
    let right = texts(j.right_header@);
    &&& r.join_type == j.join_type
    &&& r.file == j.file
    &&& r.keys == j.keys
    &&& r.right_plan == j.right_plan
    &&& r.right_header == j.right_header
    &&& r.left_ncols == header.len()
    &&& r.left_key_pos@ == positions_of(header, side(j.keys@, false))
    &&& r.right_key_pos@ == positions_of(right, side(j.keys@, true))
    &&& r.right_emit_pos@ == kept(right, side(j.keys@, true), right.len())
}

/// Whether `r` is the stage with its columns found.
pub open spec fn stage_found(header: Seq<Seq<char>>, stage: Stage, r: Stage) -> bool {
    match stage {
        Stage::Transform(stmts) => r matches Stage::Transform(rs) && stmts_found(
            header,
            stmts@,
            rs@,
        ),
        Stage::Sort(s) => r matches Stage::Sort(t) && t.keys@.len() == s.keys@.len() && (forall|
            i: int,
        |
            0 <= i < s.keys@.len() ==> key_found(header, #[trigger] s.keys@[i], t.keys@[i])),
        Stage::Head(n) => r == Stage::Head(n),
        Stage::Tail(n) => r == Stage::Tail(n),
        Stage::DropLast(n) => r == Stage::DropLast(n),
        Stage::Uniq(u) => {
            &&& r matches Stage::Uniq(v)
            &&& texts(v.cols@) == texts(u.cols@)
            &&& v.positions@ == positions_of(header, texts(u.cols@))
        },
        Stage::Stats(s) => {
            &&& r matches Stage::Stats(t)
            &&& t.positions@ == (if s.names@.len() == 0 {
                Seq::new(header.len(), |i: int| i as usize)
            } else {
                positions_of(header, texts(s.names@))
            })
            &&& texts(t.names@) == picked(header, t.positions@)
        },
        Stage::Group(g) => {
            &&& r matches Stage::Group(f)
            &&& texts(f.keys@) == texts(g.keys@)
            &&& f.key_positions@ == positions_of(header, texts(g.keys@))
            &&& f.aggs@.len() == g.aggs@.len()
            &&& forall|i: int|
                0 <= i < g.aggs@.len() ==> agg_found(header, #[trigger] g.aggs@[i], f.aggs@[i])
        },
        Stage::Join(j) => r matches Stage::Join(i) && join_found(header, j, i),
    }
}

proof fn lemma_unknown_prefix(header: Seq<Seq<char>>, names: Seq<Seq<char>>, i: int)
    requires
        0 <= i <= names.len(),
    ensures
        unknown(header, names.take(i)) matches Some(n) ==> unknown(header, names) == Some(n),
{
    assert(names =~= names.take(i) + names.skip(i));
    lemma_unknown_concat(header, names.take(i), names.skip(i));
}

fn resolve_keys(header: &[String], keys: &Vec<SortKey>) -> (r: Result<Vec<SortKey>, Error>)
    ensures
        looked_up(
            r,
            texts(header@),
            key_names(keys@),
            r->Ok_0@.len() == keys@.len() && (forall|i: int|
                0 <= i < keys@.len() ==> key_found(
                    texts(header@),
                    #[trigger] keys@[i],
                    r->Ok_0@[i],
                )),
        ),
{
    let ghost h = texts(header@);
    let ghost ns = key_names(keys@);
    let mut rs: Vec<SortKey> = Vec::new();
    let mut i: usize = 0;
    while i < keys.len()
        invariant
            i <= keys@.len(),
            h == texts(header@),
            ns == key_names(keys@),
            unknown(h, ns.take(i as int)) is None,
            rs@.len() == i,
            forall|k: int| 0 <= k < i ==> key_found(h, #[trigger] keys@[k], rs@[k]),
        decreases keys@.len() - i,
    {
        proof {
            assert(ns.take(i + 1) =~= ns.take(i as int) + seq![keys@[i as int].name@]);
            lemma_unknown_concat(h, ns.take(i as int), seq![keys@[i as int].name@]);
            lemma_unknown_one(h, keys@[i as int].name@);
            lemma_unknown_prefix(h, ns, i + 1);
        }
        let k = &keys[i];
        match find(header, k.name.as_str()) {
            Ok(pos) => rs.push(
                SortKey {
                    name: k.name.clone(),
                    pos,
                    descending: k.descending,
                    numeric: k.numeric,
                },
            ),
            Err(e) => return Err(e),
        }
        i += 1;
    }
    assert(ns.take(i as int) =~= ns);
    Ok(rs)
}

proof fn lemma_agg_cols_prefix(header: Seq<Seq<char>>, aggs: Seq<AggSpec>, i: int)
    requires
        0 <= i <= aggs.len(),
    ensures
        unknown(header, agg_cols(aggs.take(i))) matches Some(n) ==> unknown(header, agg_cols(aggs))
            == Some(n),
    decreases aggs.len() - i,
{
    if i == aggs.len() {
        assert(aggs.take(i) =~= aggs);
    } else {
        lemma_agg_cols_prefix(header, aggs, i + 1);
        let t = aggs.take(i + 1);
        assert(t.drop_last() =~= aggs.take(i));
        if let Some(c) = t.last().col {
            assert(agg_cols(t) =~= agg_cols(aggs.take(i)) + seq![c@]);
            lemma_unknown_concat(header, agg_cols(aggs.take(i)), seq![c@]);
        }
    }
}

fn resolve_aggs(header: &[String], aggs: &Vec<AggSpec>) -> (r: Result<Vec<AggSpec>, Error>)
    ensures
        looked_up(
            r,
            texts(header@),
            agg_cols(aggs@),
            r->Ok_0@.len() == aggs@.len() && (forall|i: int|
                0 <= i < aggs@.len() ==> agg_found(
                    texts(header@),
                    #[trigger] aggs@[i],
                    r->Ok_0@[i],
                )),
        ),
{
    let ghost h = texts(header@);
    let mut rs: Vec<AggSpec> = Vec::new();
    let mut i: usize = 0;
    while i < aggs.len()
        invariant
            i <= aggs@.len(),
            h == texts(header@),
            unknown(h, agg_cols(aggs@.take(i as int))) is None,
            rs@.len() == i,
            forall|k: int| 0 <= k < i ==> agg_found(h, #[trigger] aggs@[k], rs@[k]),
        decreases aggs@.len() - i,
    {
        let a = &aggs[i];
        proof {
            let t = aggs@.take(i + 1);
            assert(t.drop_last() =~= aggs@.take(i as int));
            lemma_agg_cols_prefix(h, aggs@, i + 1);
            if let Some(c) = &a.col {
                assert(agg_cols(t) =~= agg_cols(aggs@.take(i as int)) + seq![c@]);
                lemma_unknown_concat(h, agg_cols(aggs@.take(i as int)), seq![c@]);
                lemma_unknown_one(h, c@);
            }
        }
        let (col, pos) = match &a.col {
            Some(c) => match find(header, c.as_str()) {
                Ok(p) => (Some(c.clone()), Some(p)),
                Err(e) => return Err(e),
            },
            None => (None, None),
        };
        rs.push(AggSpec { name: a.name.clone(), func: a.func, col, pos });
        i += 1;
    }
    assert(aggs@.take(i as int) =~= aggs@);
    Ok(rs)
}

fn push_agg_names(out: &mut Vec<String>, aggs: &Vec<AggSpec>)
    ensures
        texts(final(out)@) == texts(old(out)@) + agg_names(aggs@),
{
    let ghost start = texts(out@);
    let mut i: usize = 0;
    while i < aggs.len()
        invariant
            i <= aggs@.len(),
            texts(out@) =~= start + agg_names(aggs@).take(i as int),
        decreases aggs@.len() - i,
    {
        let ghost before = out@;
        out.push(aggs[i].name.clone());
        assert(texts(out@) =~= texts(before).push(aggs@[i as int].name@));
        assert(agg_names(aggs@).take(i + 1) =~= agg_names(aggs@).take(i as int).push(
            aggs@[i as int].name@,
        ));
        i += 1;
    }
    assert(agg_names(aggs@).take(i as int) =~= agg_names(aggs@));
}

fn side_names(keys: &Vec<(String, String)>, right: bool) -> (r: Vec<String>)
    ensures
        texts(r@) == side(keys@, right),
{
    let mut r: Vec<String> = Vec::new();
    let mut i: usize = 0;
    while i < keys.len()
        invariant
            i <= keys@.len(),
            texts(r@) == side(keys@, right).take(i as int),
        decreases keys@.len() - i,
    {
        let ghost before = r@;
        let name = if right {
            keys[i].1.clone()
        } else {
            keys[i].0.clone()
        };
        r.push(name);
        assert(texts(r@) =~= texts(before).push(side(keys@, right)[i as int]));
        assert(side(keys@, right).take(i + 1) =~= side(keys@, right).take(i as int).push(
            side(keys@, right)[i as int],
        ));
        i += 1;
    }
    assert(side(keys@, right).take(i as int) =~= side(keys@, right));
    r
}

fn push_right_names(out: &mut Vec<String>, left: &[String], right: &[String], emit: &[usize])
    requires
        forall|i: int| 0 <= i < emit@.len() ==> #[trigger] emit@[i] < right@.len(),
    ensures
        texts(final(out)@) == texts(old(out)@) + emit@.map_values(
            |p: usize| right_name(texts(left@), texts(right@)[p as int]),
        ),
{
    let ghost start = texts(out@);
    let ghost all = emit@.map_values(
        |p: usize| right_name(texts(left@), texts(right@)[p as int]),
    );
    let mut i: usize = 0;
    while i < emit.len()
        invariant
            i <= emit@.len(),
            forall|k: int| 0 <= k < emit@.len() ==> #[trigger] emit@[k] < right@.len(),
            all == emit@.map_values(
                |p: usize| right_name(texts(left@), texts(right@)[p as int]),
            ),
            texts(out@) =~= start + all.take(i as int),
        decreases emit@.len() - i,
    {
        let ghost before = out@;
        let name = &right[emit[i]];
        proof {
            lemma_named_from(texts(left@), name@, 0);
            lemma_contained(texts(left@), name@, 0);
        }
        let written = match find_exact(left, name.as_str()) {
            Some(_) => cat2(name.as_str(), "_r"),
            None => name.clone(),
        };
        out.push(written);
        assert(texts(out@) =~= texts(before).push(all[i as int]));
        assert(all.take(i + 1) =~= all.take(i as int).push(all[i as int]));
        i += 1;
    }
    assert(all.take(i as int) =~= all);
}

proof fn lemma_contained(header: Seq<Seq<char>>, name: Seq<char>, k: int)
    requires
        0 <= k <= header.len(),
    ensures
        named_from(header, name, k) is Some == header.skip(k).contains(name),
        k == 0 ==> named_from(header, name, k) is Some == header.contains(name),
    decreases header.len() - k,
{
    if k < header.len() {
        lemma_contained(header, name, k + 1);
        if header[k] == name {
            assert(header.skip(k)[0] == name);
        } else if header.skip(k).contains(name) {
            let i = choose|i: int| 0 <= i < header.skip(k).len() && header.skip(k)[i] == name;
            assert(header.skip(k + 1)[i - 1] == name);
        } else if header.skip(k + 1).contains(name) {
            let rest = header.skip(k + 1);
            let i = choose|i: int| 0 <= i < rest.len() && rest[i] == name;
            assert(header.skip(k)[i + 1] == name);
        }
    }
    if k == 0 {
        assert(header.skip(0) =~= header);
    }
}

fn resolve_join(header: &[String], j: JoinStmt) -> (r: Result<(JoinStmt, Vec<String>), Error>)
    ensures
        stepped(
            r,
            stage_header(texts(header@), Stage::Join(j)),
            join_found(texts(header@), j, r->Ok_0.0),
        ),
{
    let ghost h = texts(header@);
    let lnames = side_names(&j.keys, false);
    let rnames = side_names(&j.keys, true);
    let left_key_pos = match find_all(header, lnames.as_slice()) {
        Ok(ps) => ps,
        Err(e) => return Err(e),
    };
    let right_key_pos = match find_all(j.right_header.as_slice(), rnames.as_slice()) {
        Ok(ps) => ps,
        Err(e) => return Err(e),
    };
    proof {
        lemma_at_positions(h, texts(lnames@), left_key_pos@);
        lemma_at_positions(texts(j.right_header@), texts(rnames@), right_key_pos@);
        lemma_numbered_known(texts(j.right_header@), texts(rnames@));
    }
    let right_emit_pos = match find_rest(j.right_header.as_slice(), rnames.as_slice()) {
        Ok(ps) => ps,
        Err(e) => return Err(e),
    };
    let mut left = copy_names(header);
    push_right_names(
        &mut left,
        header,
        j.right_header.as_slice(),
        right_emit_pos.as_slice(),
    );
    Ok(
        (
            JoinStmt {
                join_type: j.join_type,
                file: j.file,
                keys: j.keys,
                left_key_pos,
                right_key_pos,
                right_emit_pos,
                left_ncols: header.len(),
                right_plan: j.right_plan,
                right_header: j.right_header,
            },
            left,
        ),
    )
}

proof fn lemma_numbered_known(header: Seq<Seq<char>>, names: Seq<Seq<char>>)
    ensures
        unknown(header, names) is None ==> unknown(header, numbered(names)) is None,
    decreases names.len(),
{
    if names.len() > 0 {
        lemma_numbered_known(header, names.drop_last());
        if all_digits(names.last()) {
            let a = numbered(names.drop_last());
            assert(numbered(names) =~= a + seq![names.last()]);
            lemma_unknown_concat(header, a, seq![names.last()]);
            lemma_unknown_one(header, names.last());
        }
    }
}

fn profile_names() -> (r: Vec<String>)
    ensures
        texts(r@) == profile_header(),
{
    let mut r: Vec<String> = Vec::new();
    r.push("field".to_string());
    r.push("count".to_string());
    r.push("empty".to_string());
    r.push("min".to_string());
    r.push("max".to_string());
    r.push("sum".to_string());
    r.push("mean".to_string());
    r.push("stddev".to_string());
    assert(texts(r@) =~= profile_header());
    r
}

fn all_positions(n: usize) -> (r: Vec<usize>)
    ensures
        r@ == Seq::new(n as nat, |i: int| i as usize),
{
    let mut r: Vec<usize> = Vec::new();
    let mut i: usize = 0;
    while i < n
        invariant
            i <= n,
            r@ =~= Seq::new(i as nat, |i: int| i as usize),
        decreases n - i,
    {
        r.push(i);
        i += 1;
    }
    r
}

/// The stage with its columns found in the header, and the header that it
/// leaves.
pub fn resolve_stage(header: &[String], stage: Stage) -> (r: Result<(Stage, Vec<String>), Error>)
    ensures
        stepped(
            r,
            stage_header(texts(header@), stage),
            stage_found(texts(header@), stage, r->Ok_0.0),
        ),
{
    let ghost h = texts(header@);
    match stage {
        Stage::Transform(stmts) => match resolve_stmts(header, &stmts) {
            Ok((rs, left)) => Ok((Stage::Transform(rs), left)),
            Err(e) => Err(e),
        },
        Stage::Sort(s) => match resolve_keys(header, &s.keys) {
            Ok(keys) => Ok((Stage::Sort(SortStmt { keys }), copy_names(header))),
            Err(e) => Err(e),
        },
        Stage::Head(n) => Ok((Stage::Head(n), copy_names(header))),
        Stage::Tail(n) => Ok((Stage::Tail(n), copy_names(header))),
        Stage::DropLast(n) => Ok((Stage::DropLast(n), copy_names(header))),
        Stage::Uniq(u) => match find_all(header, u.cols.as_slice()) {
            Ok(positions) => {
                proof {
                    lemma_at_positions(h, texts(u.cols@), positions@);
                }
                Ok((Stage::Uniq(UniqStmt { cols: u.cols, positions }), copy_names(header)))
            },
            Err(e) => Err(e),
        },
        Stage::Stats(s) => {
            let positions = if s.names.len() == 0 {
                all_positions(header.len())
            } else {
                match find_all(header, s.names.as_slice()) {
                    Ok(ps) => {
                        proof {
                            lemma_at_positions(h, texts(s.names@), ps@);
                        }
                        ps
                    },
                    Err(e) => return Err(e),
                }
            };
            let names = pick_names(header, positions.as_slice());
            Ok((Stage::Stats(StatsStmt { names, positions }), profile_names()))
        },
        Stage::Group(g) => {
            proof {
                lemma_unknown_concat(h, texts(g.keys@), agg_cols(g.aggs@));
            }
            let key_positions = match find_all(header, g.keys.as_slice()) {
                Ok(ps) => ps,
                Err(e) => return Err(e),
            };
            proof {
                lemma_at_positions(h, texts(g.keys@), key_positions@);
            }
            let aggs = match resolve_aggs(header, &g.aggs) {
                Ok(a) => a,
                Err(e) => return Err(e),
            };
            let mut left = pick_names(header, key_positions.as_slice());
            push_agg_names(&mut left, &g.aggs);
            Ok((Stage::Group(GroupStmt { keys: g.keys, key_positions, aggs }), left))
        },
        Stage::Join(j) => match resolve_join(header, j) {
            Ok((j, left)) => Ok((Stage::Join(j), left)),
            Err(e) => Err(e),
        },
    }
}

/// The header that the stages leave, one behind the other.
pub open spec fn stages_header(header: Seq<Seq<char>>, stages: Seq<Stage>) -> Result<
    Seq<Seq<char>>,
    (Seq<Seq<char>>, Seq<char>),
>
    decreases stages.len(),
{
    if stages.len() == 0 {
        Ok(header)
    } else {
        match stages_header(header, stages.drop_last()) {
            Ok(h) => stage_header(h, stages.last()),
            Err(e) => Err(e),
        }
    }
}

/// Whether `rs` are the stages with their columns found, each in the header that
/// those before it leave.
pub open spec fn stages_found(header: Seq<Seq<char>>, stages: Seq<Stage>, rs: Seq<Stage>) -> bool {
    &&& rs.len() == stages.len()
    &&& forall|i: int|
        0 <= i < stages.len() ==> stage_found(
            stages_header(header, stages.take(i))->Ok_0,
            #[trigger] stages[i],
            rs[i],
        )
}

/// The columns that a colour rule names.
pub open spec fn rule_names(rule: ColorRule) -> Seq<Seq<char>> {
    match rule {
        ColorRule::Predicate { scope, expr, .. } => (match scope {
            ColorScope::Row => Seq::<Seq<char>>::empty(),
            ColorScope::Cell(c) => seq![c.name@],
        }) + bool_names(expr),
        ColorRule::Gradient { col, .. } => seq![col.name@],
    }
}

/// Whether `r` is the colour rule with its columns found.
pub open spec fn rule_found(header: Seq<Seq<char>>, rule: ColorRule, r: ColorRule) -> bool {
    match rule {
        ColorRule::Predicate { scope, style, expr } => {
            &&& r matches ColorRule::Predicate { scope: s, style: t, expr: e }
            &&& match scope {
                ColorScope::Row => s is Row,
                ColorScope::Cell(c) => s matches ColorScope::Cell(d) && col_found(header, c, d),
            }
            &&& t == style
            &&& bool_found(header, expr, e)
        },
        ColorRule::Gradient { col, ramp, bounds } => {
            &&& r matches ColorRule::Gradient { col: c, ramp: p, bounds: b }
            &&& col_found(header, col, c)
            &&& p == ramp
            &&& b == bounds
        },
    }
}

/// Whether `rs` are the colour rules with their columns found; a rule on a column
/// that the output does not have is left out.
pub open spec fn rules_found(
    header: Seq<Seq<char>>,
    rules: Seq<ColorRule>,
    rs: Seq<ColorRule>,
) -> bool
    decreases rules.len(),
{
    if rules.len() == 0 {
        rs.len() == 0
    } else if unknown(header, rule_names(rules.last())) is None {
        &&& rs.len() > 0
        &&& rule_found(header, rules.last(), rs.last())
        &&& rules_found(header, rules.drop_last(), rs.drop_last())
    } else {
        rules_found(header, rules.drop_last(), rs)
    }
}

/// The names of the columns.
pub open spec fn col_names(cols: Seq<ColRef>) -> Seq<Seq<char>> {
    cols.map_values(|c: ColRef| c.name@)
}

/// The columns that a chart names.
pub open spec fn graph_names(graph: Option<GraphSpec>) -> Seq<Seq<char>> {
    match graph {
        None => seq![],
        Some(g) => col_names(g.cols@) + (match g.opts.color_by {
            Some(c) => seq![c.name@],
            None => seq![],
        }),
    }
}

/// Whether `r` is the chart with its columns found.
pub open spec fn graph_found(
    header: Seq<Seq<char>>,
    graph: Option<GraphSpec>,
    r: Option<GraphSpec>,
) -> bool {
    match graph {
        None => r is None,
        Some(g) => {
            &&& r matches Some(f)
            &&& f.kind == g.kind
            &&& f.cols@.len() == g.cols@.len()
            &&& forall|i: int|
                0 <= i < g.cols@.len() ==> col_found(header, #[trigger] g.cols@[i], f.cols@[i])
            &&& f.opts.title == g.opts.title
            &&& f.opts.bins == g.opts.bins
            &&& f.opts.scale == g.opts.scale
            &&& f.opts.svg == g.opts.svg
            &&& f.opts.data == g.opts.data
            &&& f.opts.log == g.opts.log
            &&& f.opts.xrange == g.opts.xrange
            &&& f.opts.yrange == g.opts.yrange
            &&& match g.opts.color_by {
                Some(c) => f.opts.color_by matches Some(d) && col_found(header, c, d),
                None => f.opts.color_by is None,
            }
        },
    }
}

/// The header that a plan writes.
pub open spec fn plan_header(header: Seq<Seq<char>>, plan: Plan) -> Result<
    Seq<Seq<char>>,
    (Seq<Seq<char>>, Seq<char>),
> {
    match stages_header(header, plan.stages@) {
        Ok(h) => after(h, graph_names(plan.graph), h),
        Err(e) => Err(e),
    }
}

/// Whether `r` is the plan with its columns found.
#[verifier::opaque]
pub open spec fn plan_found(header: Seq<Seq<char>>, plan: Plan, r: Plan) -> bool {
    let last = stages_header(header, plan.stages@)->Ok_0;
    &&& r.input_header == plan.input_header
    &&& r.output == plan.output
    &&& stages_found(header, plan.stages@, r.stages@)
    &&& rules_found(last, plan.colors@, r.colors@)
    &&& graph_found(last, plan.graph, r.graph)
}

proof fn lemma_stages_stop(header: Seq<Seq<char>>, stages: Seq<Stage>, i: int)
    requires
        0 <= i <= stages.len(),
        stages_header(header, stages.take(i)) is Err,
    ensures
        stages_header(header, stages) == stages_header(header, stages.take(i)),
    decreases stages.len() - i,
{
    if i == stages.len() {
        assert(stages.take(i) =~= stages);
    } else {
        assert(stages.take(i + 1).drop_last() =~= stages.take(i));
        lemma_stages_stop(header, stages, i + 1);
    }
}

fn resolve_stages(header: &[String], stages: Vec<Stage>) -> (r: Result<
    (Vec<Stage>, Vec<String>),
    Error,
>)
    ensures
        stepped(
            r,
            stages_header(texts(header@), stages@),
            stages_found(texts(header@), stages@, r->Ok_0.0@),
        ),
{
    let ghost h0 = texts(header@);
    let ghost all = stages@;
    let mut h = copy_names(header);
    let mut rs: Vec<Stage> = Vec::new();
    for stage in it: stages
        invariant
            it.seq() == all,
            h0 == texts(header@),
            stages_header(h0, all.take(it.index() as int)) == Ok::<
                Seq<Seq<char>>,
                (Seq<Seq<char>>, Seq<char>),
            >(texts(h@)),
            rs@.len() == it.index(),
            forall|k: int|
                0 <= k < it.index() ==> stage_found(
                    stages_header(h0, all.take(k))->Ok_0,
                    #[trigger] all[k],
                    rs@[k],
                ),
    {
        let ghost i = it.index() as int;
        proof {
            assert(stage == all[i]);
            assert(all.take(i + 1).drop_last() =~= all.take(i));
        }
        match resolve_stage(h.as_slice(), stage) {
            Ok((s, left)) => {
                rs.push(s);
                h = left;
            },
            Err(e) => {
                proof {
                    lemma_stages_stop(h0, all, i + 1);
                }
                return Err(e);
            },
        }
    }
    assert(all.take(all.len() as int) =~= all);
    Ok((rs, h))
}

fn resolve_rule(header: &[String], rule: ColorRule) -> (r: Result<ColorRule, Error>)
    ensures
        looked_up(
            r,
            texts(header@),
            rule_names(rule),
            rule_found(texts(header@), rule, r->Ok_0),
        ),
{
    let ghost h = texts(header@);
    match rule {
        ColorRule::Predicate { scope, style, expr } => {
            proof {
                let a = match &scope {
                    ColorScope::Row => Seq::<Seq<char>>::empty(),
                    ColorScope::Cell(c) => seq![c.name@],
                };
                lemma_unknown_concat(h, a, bool_names(expr));
            }
            let scope = match scope {
                ColorScope::Row => ColorScope::Row,
                ColorScope::Cell(c) => match resolve_col(header, &c) {
                    Ok(c) => ColorScope::Cell(c),
                    Err(e) => return Err(e),
                },
            };
            match resolve_bool(header, &expr) {
                Ok(expr) => Ok(ColorRule::Predicate { scope, style, expr }),
                Err(e) => Err(e),
            }
        },
        ColorRule::Gradient { col, ramp, bounds } => match resolve_col(header, &col) {
            Ok(col) => Ok(ColorRule::Gradient { col, ramp, bounds }),
            Err(e) => Err(e),
        },
    }
}

fn resolve_rules(header: &[String], rules: Vec<ColorRule>) -> (rs: Vec<ColorRule>)
    ensures
        rules_found(texts(header@), rules@, rs@),
{
    let ghost all = rules@;
    let ghost h = texts(header@);
    let mut rs: Vec<ColorRule> = Vec::new();
    for rule in it: rules
        invariant
            it.seq() == all,
            h == texts(header@),
            rules_found(h, all.take(it.index() as int), rs@),
    {
        let ghost before = rs@;
        let ghost i = it.index() as int;
        proof {
            assert(rule == all[i]);
            assert(all.take(i + 1).drop_last() =~= all.take(i));
            assert(all.take(i + 1).last() == all[i]);
        }
        match resolve_rule(header, rule) {
            Ok(r) => {
                rs.push(r);
                assert(rs@.drop_last() =~= before);
            },
            Err(_) => {},
        }
    }
    assert(all.take(all.len() as int) =~= all);
    rs
}

fn resolve_cols(header: &[String], cols: &Vec<ColRef>) -> (r: Result<Vec<ColRef>, Error>)
    ensures
        looked_up(
            r,
            texts(header@),
            col_names(cols@),
            r->Ok_0@.len() == cols@.len() && (forall|i: int|
                0 <= i < cols@.len() ==> col_found(
                    texts(header@),
                    #[trigger] cols@[i],
                    r->Ok_0@[i],
                )),
        ),
{
    let ghost h = texts(header@);
    let ghost ns = col_names(cols@);
    let mut rs: Vec<ColRef> = Vec::new();
    let mut i: usize = 0;
    while i < cols.len()
        invariant
            i <= cols@.len(),
            h == texts(header@),
            ns == col_names(cols@),
            unknown(h, ns.take(i as int)) is None,
            rs@.len() == i,
            forall|k: int| 0 <= k < i ==> col_found(h, #[trigger] cols@[k], rs@[k]),
        decreases cols@.len() - i,
    {
        proof {
            assert(ns.take(i + 1) =~= ns.take(i as int) + seq![cols@[i as int].name@]);
            lemma_unknown_concat(h, ns.take(i as int), seq![cols@[i as int].name@]);
            lemma_unknown_prefix(h, ns, i + 1);
        }
        match resolve_col(header, &cols[i]) {
            Ok(c) => rs.push(c),
            Err(e) => return Err(e),
        }
        i += 1;
    }
    assert(ns.take(i as int) =~= ns);
    Ok(rs)
}

fn resolve_graph(header: &[String], graph: Option<GraphSpec>) -> (r: Result<
    Option<GraphSpec>,
    Error,
>)
    ensures
        looked_up(
            r,
            texts(header@),
            graph_names(graph),
            graph_found(texts(header@), graph, r->Ok_0),
        ),
{
    let mut g = match graph {
        None => return Ok(None),
        Some(g) => g,
    };
    proof {
        let b = match &g.opts.color_by {
            Some(c) => seq![c.name@],
            None => Seq::<Seq<char>>::empty(),
        };
        lemma_unknown_concat(texts(header@), col_names(g.cols@), b);
    }
    let cols = match resolve_cols(header, &g.cols) {
        Ok(cols) => cols,
        Err(e) => return Err(e),
    };
    let color_by = match &g.opts.color_by {
        None => None,
        Some(c) => match resolve_col(header, c) {
            Ok(c) => Some(c),
            Err(e) => return Err(e),
        },
    };
    g.cols = cols;
    g.opts.color_by = color_by;
    Ok(Some(g))
}

impl Plan {
    /// The plan with each column found in the header, and the header that it
    /// writes; or what the first name that stands for no column is reported as.
    pub fn resolve(self, header: &[String]) -> (r: Result<(Plan, Vec<String>), Error>)
        ensures
            stepped(
                r,
                plan_header(texts(header@), self),
                plan_found(texts(header@), self, r->Ok_0.0),
            ),
    {
        proof {
            reveal(plan_found);
        }
        let (stages, left) = match resolve_stages(header, self.stages) {
            Ok(x) => x,
            Err(e) => return Err(e),
        };
        let colors = resolve_rules(left.as_slice(), self.colors);
        match resolve_graph(left.as_slice(), self.graph) {
            Ok(graph) => Ok(
                (
                    Plan {
                        input_header: self.input_header,
                        stages,
                        output: self.output,
                        colors,
                        graph,
                    },
                    left,
                ),
            ),
            Err(e) => Err(e),
        }
    }
}

/// A name that stands for a column stands for one of the header's; an exact name
/// wins over a position, and the first of several columns of one name is meant.
pub proof fn law_an_exact_name_wins(header: Seq<Seq<char>>, name: Seq<char>)
    ensures
        position(header, name) matches Some(i) ==> 0 <= i < header.len(),
        header.contains(name) ==> (position(header, name) matches Some(i) && header[i] == name && (
        forall|k: int| 0 <= k < i ==> #[trigger] header[k] != name)),
        position(header, name) is None ==> !header.contains(name),
{
    lemma_named_from(header, name, 0);
    lemma_contained(header, name, 0);
    lemma_first_named(header, name, 0);
}

proof fn lemma_first_named(header: Seq<Seq<char>>, name: Seq<char>, k: int)
    requires
        0 <= k <= header.len(),
    ensures
        named_from(header, name, k) matches Some(i) ==> forall|j: int|
            k <= j < i ==> #[trigger] header[j] != name,
    decreases header.len() - k,
{
    if k < header.len() && header[k] != name {
        lemma_first_named(header, name, k + 1);
    }
}

} // verus!
