//! What the help says: a page for each command and for each topic.

use vstd::prelude::*;

use crate::help::{is_called, listed, CmdHelp, CmdHelpV, Topic, TopicV};

verus! {

/// The other names of `cols`.
pub const COLS_ALIASES: [&'static str; 1] = [
    "cut",
];

/// The forms of `cols`.
pub const COLS_FORMS: [&'static str; 4] = [
    "cols A,B,C      keep these columns, in this order",
    "cols -v A,B     keep everything except these",
    "cols 1,3 2-4    columns by 1-based position; N-M is a range",
    "cols A:D        a range between any two columns (names or positions)",
];

/// What there is to know about `cols`.
pub const COLS_DETAIL: &'static str = "Reorders to the listed order. Names may be comma- or space-separated; \
backtick-quote a name containing a comma or space, e.g. `cols `first, last`,age`. A bare \
integer that is not a column name is a 1-based position (handy with --no-header's c1, c2, …), \
and that works wherever a column is named — sort, group, agg, stats — not just here. Inside an \
expression a bare integer is a number literal, so backtick it there: select `3` > 0. A range \
expands in header order; an exact column name always wins over a position or range reading. \
In `cols -v` an unknown name is ignored, but a bad position or range is an error.";

/// Invocations that show `cols`.
pub const COLS_EXAMPLES: [&'static str; 3] = [
    "csvm 'cols id,amount' data.csv",
    "csvm 'cols -v notes' data.csv",
    "csvm --no-header 'cols 2-4 | sort 1=n' data.csv",
];

/// The page of `cols`.
pub open spec fn cols_page() -> CmdHelpV {
    CmdHelpV {
        name: "cols"@,
        aliases: listed(COLS_ALIASES@),
        summary: "keep or drop columns"@,
        synopsis: listed(COLS_FORMS@),
        detail: COLS_DETAIL@,
        examples: listed(COLS_EXAMPLES@),
    }
}

fn cols_help() -> (r: CmdHelp)
    ensures
        r@ == cols_page(),
{
    CmdHelp {
        name: "cols",
        aliases: list(&COLS_ALIASES),
        summary: "keep or drop columns",
        synopsis: list(&COLS_FORMS),
        detail: COLS_DETAIL,
        examples: list(&COLS_EXAMPLES),
    }
}

/// The other names of `select`.
pub const SELECT_ALIASES: [&'static str; 2] = [
    "where",
    "filter",
];

/// The forms of `select`.
pub const SELECT_FORMS: [&'static str; 2] = [
    "select EXPR     keep rows where EXPR is true",
    "select -v EXPR  drop rows where EXPR is true",
];

/// What there is to know about `select`.
pub const SELECT_DETAIL: &'static str = "EXPR is a bare infix expression (quote only string literals, not the whole \
expression). See `csvm help operators` for the full operator set. Comparison operands are full \
value expressions — arithmetic, functions (see `csvm help expr`), parenthesized booleans \
(compared as t/f), prev(col), rownum() — not just columns and literals; a stateful comparison \
(prev/rownum) makes the run single-threaded and in input order. A comparison is numeric \
against a statically numeric side (a number literal, arithmetic, a numeric function, a to-num \
column), lexical against a statically string side (a string literal, ++ concat, a bool, a \
to-str column); an ordering (< > <= >=) between two untyped operands auto-detects per row \
(numeric when both sides parse as numbers, else lexical), while == / != between untyped \
operands stay lexical.";

/// Invocations that show `select`.
pub const SELECT_EXAMPLES: [&'static str; 3] = [
    "csvm 'select amount > 1000 && flag == \"t\"' data.csv",
    "csvm 'select price * qty >= 1000' data.csv",
    "csvm 'select name =~ \"^A\"' data.csv",
];

/// The page of `select`.
pub open spec fn select_page() -> CmdHelpV {
    CmdHelpV {
        name: "select"@,
        aliases: listed(SELECT_ALIASES@),
        summary: "keep or drop matching rows"@,
        synopsis: listed(SELECT_FORMS@),
        detail: SELECT_DETAIL@,
        examples: listed(SELECT_EXAMPLES@),
    }
}

fn select_help() -> (r: CmdHelp)
    ensures
        r@ == select_page(),
{
    CmdHelp {
        name: "select",
        aliases: list(&SELECT_ALIASES),
        summary: "keep or drop matching rows",
        synopsis: list(&SELECT_FORMS),
        detail: SELECT_DETAIL,
        examples: list(&SELECT_EXAMPLES),
    }
}

/// The other names of `sort`.
pub const SORT_ALIASES: [&'static str; 0] = [];

/// The forms of `sort`.
pub const SORT_FORMS: [&'static str; 2] = [
    "sort COL ...           sort by each column (auto: numbers numerically, then text)",
    "sort COL=nr ...        flags: n numeric, s lexical (string), r reverse (also COL:nr)",
];

/// What there is to know about `sort`.
pub const SORT_DETAIL: &'static str = "Keys are applied left to right; the sort is stable. A bare column auto-detects per \
cell: cells that parse as numbers order numerically and come first (a blank reads as 0, as in \
select), the rest follow lexically — so an all-numeric column sorts numerically with no flag, \
and a mixed one never aborts. NaN and inf are numbers, as for to-num. =n forces numeric (a non-number aborts), =s forces lexical; a to-num / to-str \
column defaults to the matching mode. See `csvm help types`.";

/// Invocations that show `sort`.
pub const SORT_EXAMPLES: [&'static str; 1] = [
    "csvm 'sort region score=nr' data.csv",
];

/// The page of `sort`.
pub open spec fn sort_page() -> CmdHelpV {
    CmdHelpV {
        name: "sort"@,
        aliases: listed(SORT_ALIASES@),
        summary: "stable multi-key sort"@,
        synopsis: listed(SORT_FORMS@),
        detail: SORT_DETAIL@,
        examples: listed(SORT_EXAMPLES@),
    }
}

fn sort_help() -> (r: CmdHelp)
    ensures
        r@ == sort_page(),
{
    CmdHelp {
        name: "sort",
        aliases: list(&SORT_ALIASES),
        summary: "stable multi-key sort",
        synopsis: list(&SORT_FORMS),
        detail: SORT_DETAIL,
        examples: list(&SORT_EXAMPLES),
    }
}

/// The other names of `head`.
pub const HEAD_ALIASES: [&'static str; 0] = [];

/// The forms of `head`.
pub const HEAD_FORMS: [&'static str; 2] = [
    "head [N]        first N rows (default 10; also -n N, -nN, --lines N)",
    "head -n -N      keep all but the last N rows",
];

/// What there is to know about `head`.
pub const HEAD_DETAIL: &'static str = "Streams and stops early when there is no sort before it.";

/// Invocations that show `head`.
pub const HEAD_EXAMPLES: [&'static str; 1] = [
    "csvm 'sort score=nr | head 5' data.csv",
];

/// The page of `head`.
pub open spec fn head_page() -> CmdHelpV {
    CmdHelpV {
        name: "head"@,
        aliases: listed(HEAD_ALIASES@),
        summary: "keep the first N rows"@,
        synopsis: listed(HEAD_FORMS@),
        detail: HEAD_DETAIL@,
        examples: listed(HEAD_EXAMPLES@),
    }
}

fn head_help() -> (r: CmdHelp)
    ensures
        r@ == head_page(),
{
    CmdHelp {
        name: "head",
        aliases: list(&HEAD_ALIASES),
        summary: "keep the first N rows",
        synopsis: list(&HEAD_FORMS),
        detail: HEAD_DETAIL,
        examples: list(&HEAD_EXAMPLES),
    }
}

/// The other names of `tail`.
pub const TAIL_ALIASES: [&'static str; 0] = [];

/// The forms of `tail`.
pub const TAIL_FORMS: [&'static str; 1] = [
    "tail [N]        last N rows (default 10; same count spellings as head)",
];

/// What there is to know about `tail`.
pub const TAIL_DETAIL: &'static str = "Blocking: it buffers the tail, so a plan with tail reads all input.";

/// Invocations that show `tail`.
pub const TAIL_EXAMPLES: [&'static str; 1] = [
    "csvm 'tail 20' data.csv",
];

/// The page of `tail`.
pub open spec fn tail_page() -> CmdHelpV {
    CmdHelpV {
        name: "tail"@,
        aliases: listed(TAIL_ALIASES@),
        summary: "keep the last N rows"@,
        synopsis: listed(TAIL_FORMS@),
        detail: TAIL_DETAIL@,
        examples: listed(TAIL_EXAMPLES@),
    }
}

fn tail_help() -> (r: CmdHelp)
    ensures
        r@ == tail_page(),
{
    CmdHelp {
        name: "tail",
        aliases: list(&TAIL_ALIASES),
        summary: "keep the last N rows",
        synopsis: list(&TAIL_FORMS),
        detail: TAIL_DETAIL,
        examples: list(&TAIL_EXAMPLES),
    }
}

/// The other names of `uniq`.
pub const UNIQ_ALIASES: [&'static str; 1] = [
    "dedup",
];

/// The forms of `uniq`.
pub const UNIQ_FORMS: [&'static str; 2] = [
    "uniq            dedup whole rows",
    "uniq COLS       dedup by these key columns",
];

/// What there is to know about `uniq`.
pub const UNIQ_DETAIL: &'static str = "Global (not adjacent-only like Unix uniq), so the input need not be pre-sorted.";

/// Invocations that show `uniq`.
pub const UNIQ_EXAMPLES: [&'static str; 1] = [
    "csvm 'uniq email' contacts.csv",
];

/// The page of `uniq`.
pub open spec fn uniq_page() -> CmdHelpV {
    CmdHelpV {
        name: "uniq"@,
        aliases: listed(UNIQ_ALIASES@),
        summary: "drop duplicate rows, keep the first"@,
        synopsis: listed(UNIQ_FORMS@),
        detail: UNIQ_DETAIL@,
        examples: listed(UNIQ_EXAMPLES@),
    }
}

fn uniq_help() -> (r: CmdHelp)
    ensures
        r@ == uniq_page(),
{
    CmdHelp {
        name: "uniq",
        aliases: list(&UNIQ_ALIASES),
        summary: "drop duplicate rows, keep the first",
        synopsis: list(&UNIQ_FORMS),
        detail: UNIQ_DETAIL,
        examples: list(&UNIQ_EXAMPLES),
    }
}

/// The other names of `stats`.
pub const STATS_ALIASES: [&'static str; 0] = [];

/// The forms of `stats`.
pub const STATS_FORMS: [&'static str; 2] = [
    "stats           profile every column",
    "stats COLS      profile just these columns",
];

/// What there is to know about `stats`.
pub const STATS_DETAIL: &'static str = "Reduces the input to one row per column: field, count, empty, min, max, sum, \
mean, stddev. min/max are numeric for numeric columns, lexical for text; sum/mean/stddev are \
numeric-only. Composes with sort/head/fmt after it.";

/// Invocations that show `stats`.
pub const STATS_EXAMPLES: [&'static str; 1] = [
    "csvm 'stats | sort mean=nr | fmt' data.csv",
];

/// The page of `stats`.
pub open spec fn stats_page() -> CmdHelpV {
    CmdHelpV {
        name: "stats"@,
        aliases: listed(STATS_ALIASES@),
        summary: "per-column summary statistics"@,
        synopsis: listed(STATS_FORMS@),
        detail: STATS_DETAIL@,
        examples: listed(STATS_EXAMPLES@),
    }
}

fn stats_help() -> (r: CmdHelp)
    ensures
        r@ == stats_page(),
{
    CmdHelp {
        name: "stats",
        aliases: list(&STATS_ALIASES),
        summary: "per-column summary statistics",
        synopsis: list(&STATS_FORMS),
        detail: STATS_DETAIL,
        examples: list(&STATS_EXAMPLES),
    }
}

/// The other names of `group`.
pub const GROUP_ALIASES: [&'static str; 0] = [];

/// The forms of `group`.
pub const GROUP_FORMS: [&'static str; 2] = [
    "group COLS              one row per distinct key",
    "group COLS | agg FNS    aggregate within each group",
];

/// What there is to know about `group`.
pub const GROUP_DETAIL: &'static str = "On its own, reduces to one row per key with a count of the group's rows. \
Followed by agg, the aggregates replace that count. The per-key sibling of stats.";

/// Invocations that show `group`.
pub const GROUP_EXAMPLES: [&'static str; 1] = [
    "csvm 'group region | agg sum(amount) | fmt' sales.csv",
];

/// The page of `group`.
pub open spec fn group_page() -> CmdHelpV {
    CmdHelpV {
        name: "group"@,
        aliases: listed(GROUP_ALIASES@),
        summary: "set group-by keys for agg"@,
        synopsis: listed(GROUP_FORMS@),
        detail: GROUP_DETAIL@,
        examples: listed(GROUP_EXAMPLES@),
    }
}

fn group_help() -> (r: CmdHelp)
    ensures
        r@ == group_page(),
{
    CmdHelp {
        name: "group",
        aliases: list(&GROUP_ALIASES),
        summary: "set group-by keys for agg",
        synopsis: list(&GROUP_FORMS),
        detail: GROUP_DETAIL,
        examples: list(&GROUP_EXAMPLES),
    }
}

/// The other names of `agg`.
pub const AGG_ALIASES: [&'static str; 0] = [];

/// The forms of `agg`.
pub const AGG_FORMS: [&'static str; 3] = [
    "agg FN(col),... [by COLS]",
    "  FN: count sum min max mean stddev   (count alone counts rows)",
    "  by COLS: keys, or fuse with a preceding group; neither ⇒ one global row",
];

/// What there is to know about `agg`.
pub const AGG_DETAIL: &'static str = "Reduces to one row per key: the key columns then one column per aggregate, \
named col_func (e.g. amount_sum), or count. sum/mean/stddev are blank for a non-numeric column.";

/// Invocations that show `agg`.
pub const AGG_EXAMPLES: [&'static str; 2] = [
    "csvm 'group region | agg count, mean(amount) | fmt' sales.csv",
    "csvm 'agg sum(amount) by region,product' sales.csv",
];

/// The page of `agg`.
pub open spec fn agg_page() -> CmdHelpV {
    CmdHelpV {
        name: "agg"@,
        aliases: listed(AGG_ALIASES@),
        summary: "aggregate rows per group"@,
        synopsis: listed(AGG_FORMS@),
        detail: AGG_DETAIL@,
        examples: listed(AGG_EXAMPLES@),
    }
}

fn agg_help() -> (r: CmdHelp)
    ensures
        r@ == agg_page(),
{
    CmdHelp {
        name: "agg",
        aliases: list(&AGG_ALIASES),
        summary: "aggregate rows per group",
        synopsis: list(&AGG_FORMS),
        detail: AGG_DETAIL,
        examples: list(&AGG_EXAMPLES),
    }
}

/// The other names of `graph`.
pub const GRAPH_ALIASES: [&'static str; 1] = [
    "plot",
];

/// The forms of `graph`.
pub const GRAPH_FORMS: [&'static str; 6] = [
    "graph hist COL              distribution of a numeric column",
    "graph bar LABEL VALUE       one bar per row (use after group-by)",
    "graph spark COL             one-line sparkline of a column",
    "graph scatter X Y[,Y2…]     points on a braille canvas",
    "graph line X Y[,Y2…]        connected points (multi-series)",
    "  flags: --bins N (hist)  --scale F (size ×F)  --title T  --svg",
];

/// What there is to know about `graph`.
pub const GRAPH_DETAIL: &'static str = "A sink: draws a chart from the columns reaching it instead of emitting CSV, so \
it must be the last command. Non-numeric/empty cells are dropped from the plot and reported. \
--scale F multiplies the default size; hist bins to Sturges' rule; bar is capped at 50 rows; \
scatter/line take multiple y-series, coloured with --color. A timestamp x is plotted on a true \
time axis; any other non-numeric x plots by row order. --svg emits an SVG document to the output \
instead of a terminal chart.";

/// Invocations that show `graph`.
pub const GRAPH_EXAMPLES: [&'static str; 4] = [
    "csvm 'select region == \"EU\" | graph hist amount' sales.csv",
    "csvm 'group region | agg sum(amount) | graph bar region amount_sum' sales.csv",
    "csvm 'graph line ts open,close --scale 1.5' prices.csv",
    "csvm 'graph hist amount --svg' data.csv -o chart.svg",
];

/// The page of `graph`.
pub open spec fn graph_page() -> CmdHelpV {
    CmdHelpV {
        name: "graph"@,
        aliases: listed(GRAPH_ALIASES@),
        summary: "draw a terminal chart (sink)"@,
        synopsis: listed(GRAPH_FORMS@),
        detail: GRAPH_DETAIL@,
        examples: listed(GRAPH_EXAMPLES@),
    }
}

fn graph_help() -> (r: CmdHelp)
    ensures
        r@ == graph_page(),
{
    CmdHelp {
        name: "graph",
        aliases: list(&GRAPH_ALIASES),
        summary: "draw a terminal chart (sink)",
        synopsis: list(&GRAPH_FORMS),
        detail: GRAPH_DETAIL,
        examples: list(&GRAPH_EXAMPLES),
    }
}

/// The other names of `fn`.
pub const FN_ALIASES: [&'static str; 0] = [];

/// The forms of `fn`.
pub const FN_FORMS: [&'static str; 2] = [
    "fn NAME(PARAM[, PARAM...]) { STAGES }   (definitions come before the first stage)",
    "  call: NAME(ARG[, ARG...]), as a stage of its own",
];

/// What there is to know about `fn`.
pub const FN_DETAIL: &'static str = "A fragment is a reusable run of stages. A call is a stage that is exactly \
NAME(args); the arguments substitute into the body by name (whole identifiers, outside \
quotes), so column names, file names, and expression operands all parameterize. Fragments \
may call other fragments. A fragment cannot be called inside an expression — compute into \
a column with add first.";

/// Invocations that show `fn`.
pub const FN_EXAMPLES: [&'static str; 1] = [
    "csvm 'fn prep(n) { rename value=n | cols -v metric }\nprep(pv) | join (prep(q)) r.csv on ts' data.csv",
];

/// The page of `fn`.
pub open spec fn fn_page() -> CmdHelpV {
    CmdHelpV {
        name: "fn"@,
        aliases: listed(FN_ALIASES@),
        summary: "define a reusable pipeline fragment"@,
        synopsis: listed(FN_FORMS@),
        detail: FN_DETAIL@,
        examples: listed(FN_EXAMPLES@),
    }
}

fn fn_help() -> (r: CmdHelp)
    ensures
        r@ == fn_page(),
{
    CmdHelp {
        name: "fn",
        aliases: list(&FN_ALIASES),
        summary: "define a reusable pipeline fragment",
        synopsis: list(&FN_FORMS),
        detail: FN_DETAIL,
        examples: list(&FN_EXAMPLES),
    }
}

/// The other names of `join`.
pub const JOIN_ALIASES: [&'static str; 0] = [];

/// The forms of `join`.
pub const JOIN_FORMS: [&'static str; 5] = [
    "join [FLAGS] ITEM[, ITEM...]      ITEM: [(SUB)] FILE [on KEYS]",
    "  FLAGS: -l/--left  -r/--right  -F/--full   (inner by default)",
    "         --lsuffix S  --rsuffix S   (suffix clashing columns)",
    "  KEYS:  name  or  lname=rname,  comma-separated for composite keys",
    "         every item has its own `on`, or one trailing `on` shared by all",
];

/// What there is to know about `join`.
pub const JOIN_DETAIL: &'static str = "Each FILE (a right side) is loaded fully and probed by the streamed left side, so \
make it the smaller one. (SUB) is an optional csvm sub-pipeline run over its FILE first. Several \
items join left to right, exactly like chaining one join per file. Quote a file path that \
contains a comma. After an `on`, a keyless entry reads as another key column — so a file \
missing its own `on` fails at resolve, with a hint. Output is the left columns \
plus each right's non-key columns; a clashing right name is suffixed _r.";

/// Invocations that show `join`.
pub const JOIN_EXAMPLES: [&'static str; 3] = [
    "csvm 'join prices.csv on sku' sales.csv",
    "csvm 'join -l (cols sku,price) prices.csv on sku=item' sales.csv",
    "csvm 'join pv.csv, batt.csv on timestamp' grid.csv",
];

/// The page of `join`.
pub open spec fn join_page() -> CmdHelpV {
    CmdHelpV {
        name: "join"@,
        aliases: listed(JOIN_ALIASES@),
        summary: "merge one or more CSVs by key"@,
        synopsis: listed(JOIN_FORMS@),
        detail: JOIN_DETAIL@,
        examples: listed(JOIN_EXAMPLES@),
    }
}

fn join_help() -> (r: CmdHelp)
    ensures
        r@ == join_page(),
{
    CmdHelp {
        name: "join",
        aliases: list(&JOIN_ALIASES),
        summary: "merge one or more CSVs by key",
        synopsis: list(&JOIN_FORMS),
        detail: JOIN_DETAIL,
        examples: list(&JOIN_EXAMPLES),
    }
}

/// The other names of `rename`.
pub const RENAME_ALIASES: [&'static str; 0] = [];

/// The forms of `rename`.
pub const RENAME_FORMS: [&'static str; 1] = [
    "rename OLD=NEW ...     rename one or more columns",
];

/// What there is to know about `rename`.
pub const RENAME_DETAIL: &'static str = "A header-only change; row data is untouched.";

/// Invocations that show `rename`.
pub const RENAME_EXAMPLES: [&'static str; 1] = [
    "csvm 'rename qty=quantity,amt=amount' data.csv",
];

/// The page of `rename`.
pub open spec fn rename_page() -> CmdHelpV {
    CmdHelpV {
        name: "rename"@,
        aliases: listed(RENAME_ALIASES@),
        summary: "rename columns (header only)"@,
        synopsis: listed(RENAME_FORMS@),
        detail: RENAME_DETAIL@,
        examples: listed(RENAME_EXAMPLES@),
    }
}

fn rename_help() -> (r: CmdHelp)
    ensures
        r@ == rename_page(),
{
    CmdHelp {
        name: "rename",
        aliases: list(&RENAME_ALIASES),
        summary: "rename columns (header only)",
        synopsis: list(&RENAME_FORMS),
        detail: RENAME_DETAIL,
        examples: list(&RENAME_EXAMPLES),
    }
}

/// The other names of `add`.
pub const ADD_ALIASES: [&'static str; 0] = [];

/// The forms of `add`.
pub const ADD_FORMS: [&'static str; 1] = [
    "add NAME EXPR   append (or, if NAME exists, replace) a column = EXPR",
];

/// What there is to know about `add`.
pub const ADD_DETAIL: &'static str = "EXPR is a value expression over the row: arithmetic (+ - * / %, parens), \
string concat with ++, the functions round/floor/ceil/abs/int/sqrt/pow/exp/log/log10/log2/\
sign/min/max/len/upper/lower/trim/coalesce/num/str, a ternary TEST ? A : B, and constants. \
prev(col) is col's value in the previous row \
(the current cell on the first row, so a delta is 0 there) and rownum() is the 1-based row \
index — both make the run single-threaded and in input order. A bare comparison yields t/f. \
Arithmetic on a non-number, or divide/modulo by zero, aborts the run. See `csvm help expr`.";

/// Invocations that show `add`.
pub const ADD_EXAMPLES: [&'static str; 2] = [
    "csvm 'add rate amount - prev(amount)' data.csv",
    "csvm 'add total price * qty | add tier total > 1000 ? \"big\" : \"small\"' data.csv",
];

/// The page of `add`.
pub open spec fn add_page() -> CmdHelpV {
    CmdHelpV {
        name: "add"@,
        aliases: listed(ADD_ALIASES@),
        summary: "append a computed column"@,
        synopsis: listed(ADD_FORMS@),
        detail: ADD_DETAIL@,
        examples: listed(ADD_EXAMPLES@),
    }
}

fn add_help() -> (r: CmdHelp)
    ensures
        r@ == add_page(),
{
    CmdHelp {
        name: "add",
        aliases: list(&ADD_ALIASES),
        summary: "append a computed column",
        synopsis: list(&ADD_FORMS),
        detail: ADD_DETAIL,
        examples: list(&ADD_EXAMPLES),
    }
}

/// The other names of `delta`.
pub const DELTA_ALIASES: [&'static str; 0] = [];

/// The forms of `delta`.
pub const DELTA_FORMS: [&'static str; 2] = [
    "delta COLS         append COL_delta = COL - prev(COL) for each column",
    "delta -s SUF COLS  use suffix SUF instead of _delta",
];

/// What there is to know about `delta`.
pub const DELTA_DETAIL: &'static str = "Shorthand for the common cross-row difference: `delta a b` is exactly \
`add a_delta a - prev(a) | add b_delta b - prev(b)`. Like any prev()-based add it runs \
single-threaded and in input order, so its output is independent of -n; the first row's \
delta is 0.";

/// Invocations that show `delta`.
pub const DELTA_EXAMPLES: [&'static str; 2] = [
    "csvm 'delta amount' data.csv",
    "csvm 'delta -s _change amount qty | fmt' data.csv",
];

/// The page of `delta`.
pub open spec fn delta_page() -> CmdHelpV {
    CmdHelpV {
        name: "delta"@,
        aliases: listed(DELTA_ALIASES@),
        summary: "append per-column step differences"@,
        synopsis: listed(DELTA_FORMS@),
        detail: DELTA_DETAIL@,
        examples: listed(DELTA_EXAMPLES@),
    }
}

fn delta_help() -> (r: CmdHelp)
    ensures
        r@ == delta_page(),
{
    CmdHelp {
        name: "delta",
        aliases: list(&DELTA_ALIASES),
        summary: "append per-column step differences",
        synopsis: list(&DELTA_FORMS),
        detail: DELTA_DETAIL,
        examples: list(&DELTA_EXAMPLES),
    }
}

/// The other names of `to-num`.
pub const TO_NUM_ALIASES: [&'static str; 0] = [];

/// The forms of `to-num`.
pub const TO_NUM_FORMS: [&'static str; 1] = [
    "to-num COLS     parse these columns as numbers (alias: to_num)",
];

/// What there is to know about `to-num`.
pub const TO_NUM_DETAIL: &'static str = "Usually unnecessary (comparisons and a bare sort auto-detect numbers); use it to \
pin a column numeric so that == / != compare numerically, a sort rejects text instead of \
sorting it last, and later stages inherit the type. A non-numeric cell aborts the run.";

/// Invocations that show `to-num`.
pub const TO_NUM_EXAMPLES: [&'static str; 1] = [
    "csvm 'to-num qty | select qty > stock' data.csv",
];

/// The page of `to-num`.
pub open spec fn to_num_page() -> CmdHelpV {
    CmdHelpV {
        name: "to-num"@,
        aliases: listed(TO_NUM_ALIASES@),
        summary: "force columns to numeric"@,
        synopsis: listed(TO_NUM_FORMS@),
        detail: TO_NUM_DETAIL@,
        examples: listed(TO_NUM_EXAMPLES@),
    }
}

fn to_num_help() -> (r: CmdHelp)
    ensures
        r@ == to_num_page(),
{
    CmdHelp {
        name: "to-num",
        aliases: list(&TO_NUM_ALIASES),
        summary: "force columns to numeric",
        synopsis: list(&TO_NUM_FORMS),
        detail: TO_NUM_DETAIL,
        examples: list(&TO_NUM_EXAMPLES),
    }
}

/// The other names of `to-str`.
pub const TO_STR_ALIASES: [&'static str; 0] = [];

/// The forms of `to-str`.
pub const TO_STR_FORMS: [&'static str; 1] = [
    "to-str COLS     treat these columns as text (alias: to_str)",
];

/// What there is to know about `to-str`.
pub const TO_STR_DETAIL: &'static str = "The counterpart to to-num; affects later column-vs-column comparisons and the \
default sort mode. Numbers always serialize correctly on output without it.";

/// Invocations that show `to-str`.
pub const TO_STR_EXAMPLES: [&'static str; 1] = [
    "csvm 'to-str zip' data.csv",
];

/// The page of `to-str`.
pub open spec fn to_str_page() -> CmdHelpV {
    CmdHelpV {
        name: "to-str"@,
        aliases: listed(TO_STR_ALIASES@),
        summary: "force columns to string"@,
        synopsis: listed(TO_STR_FORMS@),
        detail: TO_STR_DETAIL@,
        examples: listed(TO_STR_EXAMPLES@),
    }
}

fn to_str_help() -> (r: CmdHelp)
    ensures
        r@ == to_str_page(),
{
    CmdHelp {
        name: "to-str",
        aliases: list(&TO_STR_ALIASES),
        summary: "force columns to string",
        synopsis: list(&TO_STR_FORMS),
        detail: TO_STR_DETAIL,
        examples: list(&TO_STR_EXAMPLES),
    }
}

/// The other names of `hdr`.
pub const HDR_ALIASES: [&'static str; 0] = [];

/// The forms of `hdr`.
pub const HDR_FORMS: [&'static str; 1] = [
    "hdr A,B,C       supply column names (must be the first command)",
];

/// What there is to know about `hdr`.
pub const HDR_DETAIL: &'static str = "For input with no header line: the whole input is data and these names are \
prepended on output. (The CLI's --no-header instead auto-names columns c1, c2, ….)";

/// Invocations that show `hdr`.
pub const HDR_EXAMPLES: [&'static str; 1] = [
    "csvm 'hdr id,name,amount | select amount > 0' data.csv",
];

/// The page of `hdr`.
pub open spec fn hdr_page() -> CmdHelpV {
    CmdHelpV {
        name: "hdr"@,
        aliases: listed(HDR_ALIASES@),
        summary: "name columns of headerless input"@,
        synopsis: listed(HDR_FORMS@),
        detail: HDR_DETAIL@,
        examples: listed(HDR_EXAMPLES@),
    }
}

fn hdr_help() -> (r: CmdHelp)
    ensures
        r@ == hdr_page(),
{
    CmdHelp {
        name: "hdr",
        aliases: list(&HDR_ALIASES),
        summary: "name columns of headerless input",
        synopsis: list(&HDR_FORMS),
        detail: HDR_DETAIL,
        examples: list(&HDR_EXAMPLES),
    }
}

/// The other names of `color`.
pub const COLOR_ALIASES: [&'static str; 1] = [
    "colour",
];

/// The forms of `color`.
pub const COLOR_FORMS: [&'static str; 3] = [
    "color COLOUR EXPR            paint the whole row where EXPR is true",
    "color -c COL COLOUR EXPR     paint only COL's cell",
    "color -g COLS [RAMP] [LO HI] gradient each COL by value (RAMP is lo:hi)",
];

/// What there is to know about `color`.
pub const COLOR_DETAIL: &'static str = "Rules render when output is a terminal (or with --color always); most useful \
with fmt. The predicate forms take a full colour spec (bg:, attributes, + to combine). A \
gradient is narrower: RAMP is two plain colour names, it paints the foreground only, defaults \
to green:red, and its range defaults to the column's min/max. See `csvm help colors`.";

/// Invocations that show `color`.
pub const COLOR_EXAMPLES: [&'static str; 2] = [
    "csvm 'color red amount < 0 | fmt' data.csv",
    "csvm 'color -g amount green:red 0 5000 | fmt' data.csv",
];

/// The page of `color`.
pub open spec fn color_page() -> CmdHelpV {
    CmdHelpV {
        name: "color"@,
        aliases: listed(COLOR_ALIASES@),
        summary: "colourise output"@,
        synopsis: listed(COLOR_FORMS@),
        detail: COLOR_DETAIL@,
        examples: listed(COLOR_EXAMPLES@),
    }
}

fn color_help() -> (r: CmdHelp)
    ensures
        r@ == color_page(),
{
    CmdHelp {
        name: "color",
        aliases: list(&COLOR_ALIASES),
        summary: "colourise output",
        synopsis: list(&COLOR_FORMS),
        detail: COLOR_DETAIL,
        examples: list(&COLOR_EXAMPLES),
    }
}

/// The other names of `fmt`.
pub const FMT_ALIASES: [&'static str; 0] = [];

/// The forms of `fmt`.
pub const FMT_FORMS: [&'static str; 1] = [
    "fmt             align columns like `column -t` (takes no arguments)",
];

/// What there is to know about `fmt`.
pub const FMT_DETAIL: &'static str = "All-numeric columns are right-justified; text columns left-justified. Applied to \
the final output, so it composes after everything else.";

/// Invocations that show `fmt`.
pub const FMT_EXAMPLES: [&'static str; 1] = [
    "csvm 'stats | fmt' data.csv",
];

/// The page of `fmt`.
pub open spec fn fmt_page() -> CmdHelpV {
    CmdHelpV {
        name: "fmt"@,
        aliases: listed(FMT_ALIASES@),
        summary: "whitespace-align the table"@,
        synopsis: listed(FMT_FORMS@),
        detail: FMT_DETAIL@,
        examples: listed(FMT_EXAMPLES@),
    }
}

fn fmt_help() -> (r: CmdHelp)
    ensures
        r@ == fmt_page(),
{
    CmdHelp {
        name: "fmt",
        aliases: list(&FMT_ALIASES),
        summary: "whitespace-align the table",
        synopsis: list(&FMT_FORMS),
        detail: FMT_DETAIL,
        examples: list(&FMT_EXAMPLES),
    }
}

/// What the `operators` topic says.
pub const OPERATORS_BODY: &'static str = "  comparisons:  == (or =)  !=  <  >  <=  >=\n  \
substring:    ^= (begins)  *= (contains)  $= (ends)   — literal, no escaping\n  \
regex:        =~  !~        (Rust regex syntax)\n  \
logic:        &&  ||  !  ()         (&& and || short-circuit)\n  \
operands:     bare word = column; 3.14 = number; 'txt'/\"txt\" = string;\n               \
`name with spaces` = backtick-quoted column;\n               \
any value expression: arithmetic, functions, (bool) as t/f,\n               \
prev(col), rownum()   (see `csvm help expr`)\n  \
comment:      # to end of line (outside quotes)\n\n\
Compare mode: numeric with a statically numeric side (number literal, arithmetic,\n\
numeric function, to-num column); lexical with a statically string side (string\n\
literal, ++ concat, bool, to-str column). Two untyped operands: an ordering (< > <= >=)\n\
auto-detects per row (numeric if both cells are numbers, else lexical); == / != stay\n\
lexical.";

/// The page of the `operators` topic.
pub open spec fn operators_topic() -> TopicV {
    TopicV {
        name: "operators"@,
        summary: "select / color expression operators"@,
        body: OPERATORS_BODY@,
    }
}

/// What the `colors` topic says.
pub const COLORS_BODY: &'static str = "  names:       black red green yellow blue magenta cyan white gray (grey)\n  \
foreground:  NAME              e.g. red\n  \
background:  bg:NAME           e.g. bg:red\n  \
attributes:  bold  dim  underline\n  \
combine:     join parts with +  e.g. bold+red, white+bg:red, underline+bg:blue\n\n\
The combine / bg / attribute forms above are for the PREDICATE rules — \
`color COLOUR EXPR` and `color -c COL COLOUR EXPR`. A GRADIENT (`color -g COL \
lo:hi`) is narrower: lo and hi are two plain colour names (no +, bg, or \
attributes) and it colours the foreground only; the ramp defaults to green:red.\n\n\
Emission is gated by --color auto|always|never (auto = only when stdout is a TTY); \
NO_COLOR and CLICOLOR_FORCE are honoured under auto.";

/// The page of the `colors` topic.
pub open spec fn colors_topic() -> TopicV {
    TopicV {
        name: "colors"@,
        summary: "colour names and attributes for `color`"@,
        body: COLORS_BODY@,
    }
}

/// What the `expr` topic says.
pub const EXPR_BODY: &'static str = "  arithmetic:  + - * / %  and parens   (numeric; coerces operands)\n  \
unary minus: -x\n  \
concat:      a ++ b ++ c        (string; never use + for text)\n  \
ternary:     TEST ? A : B        (TEST is a select-style comparison)\n  \
boolean:     a bare comparison yields t / f\n  \
functions:   round floor ceil abs int sign   (numeric, 1 arg)\n               \
sqrt exp log log10 log2  (numeric, 1 arg; IEEE at domain edges,\n                                        \
e.g. sqrt(-1) = NaN — no abort)\n               \
pow             (numeric, 2 args)\n               \
min max         (numeric, 1+ args)\n               \
len             (length of text)\n               \
upper lower trim (text, 1 arg)\n               \
coalesce        (first non-empty, 1+ args)\n               \
num str         (casts, 1 arg: num aborts on a non-number and types the\n                                        \
result numeric; str formats a number as on output and types it text)\n  \
cross-row:   prev(col)   col in the previous row (current cell on row 1)\n               \
rownum()    1-based row index\n\n\
The same value grammar works as a comparison operand in select / ternary tests, \
so `select price * qty >= 30`, `abs(x) > 1`, and `(a >= 0) == (b >= 0)` all parse. \
prev() / rownum() make the run single-threaded and in input order (also from a select). \
Divide/modulo by zero, or arithmetic on a non-number, aborts the run. \
If NAME already exists, add replaces it in place; otherwise it is appended.";

/// The page of the `expr` topic.
pub open spec fn expr_topic() -> TopicV {
    TopicV {
        name: "expr"@,
        summary: "value expressions for `add`"@,
        body: EXPR_BODY@,
    }
}

/// What the `types` topic says.
pub const TYPES_BODY: &'static str = "Columns are text by default. A comparison (select / color predicate) is numeric if \
either side is statically numeric (a number literal, arithmetic, a numeric function, a to-num \
column); else lexical if either side is statically string (a string literal, ++ concat, a bool, \
a to-str column); else two untyped operands auto-detect per row for an ordering \
(< > <= >=) — numeric if both sides parse as numbers, else lexical (to-str forces lexical) — \
while == / != stay lexical. A numeric literal or to-num thus wins over a to-str column. A column \
added by `add` carries its expression's static type — including one inherited from a to-num/\
to-str column or from a ternary whose branches agree — so later comparisons against it behave \
the same as against the expression itself. A type is pinned by position, so to-num 2 and to-num \
qty pin the same column, and the pin survives a rename or a cols reorder. Sort follows the same \
idea per key: a bare `sort col` \
auto-detects per cell (numbers numerically and first, then text lexically; a blank reads as 0, \
as in select), =n / to-num forces numeric, =s / to-str forces lexical. Empty cells coerce to 0 in \
numeric context; a non-numeric cell in a strictly-numeric \
op aborts the run (auto falls back to lexical instead). Numbers always serialize correctly on \
output — no to-str needed just to print.";

/// The page of the `types` topic.
pub open spec fn types_topic() -> TopicV {
    TopicV {
        name: "types"@,
        summary: "numeric vs string handling (implicit to-num/to-str)"@,
        body: TYPES_BODY@,
    }
}

/// What the `sizes` topic says.
pub const SIZES_BODY: &'static str = "Size options accept a plain integer or a binary suffix: K = 1024, M = 1024², \
G = 1024³ (case-insensitive). E.g. --chunk-size 8M, --sort-buffer 1G. A non-positive value \
falls back to the default.";

/// The page of the `sizes` topic.
pub open spec fn sizes_topic() -> TopicV {
    TopicV {
        name: "sizes"@,
        summary: "K/M/G suffixes for --chunk-size and --sort-buffer"@,
        body: SIZES_BODY@,
    }
}

fn list(a: &[&'static str]) -> (r: Vec<&'static str>)
    ensures
        r@ == a@,
{
    let mut r: Vec<&'static str> = Vec::new();
    let mut i: usize = 0;
    while i < a.len()
        invariant
            i <= a.len(),
            r@ == a@.take(i as int),
        decreases a.len() - i,
    {
        r.push(a[i]);
        i += 1;
        assert(r@ =~= a@.take(i as int));
    }
    assert(a@.take(a@.len() as int) =~= a@);
    r
}

/// The page of every command, in the order in which the overview has them.
pub open spec fn command_pages() -> Seq<CmdHelpV> {
    seq![
        cols_page(),
        select_page(),
        sort_page(),
        head_page(),
        tail_page(),
        uniq_page(),
        stats_page(),
        group_page(),
        agg_page(),
        graph_page(),
        fn_page(),
        join_page(),
        rename_page(),
        add_page(),
        delta_page(),
        to_num_page(),
        to_str_page(),
        hdr_page(),
        color_page(),
        fmt_page(),
    ]
}

/// The page of every topic.
pub open spec fn topic_pages() -> Seq<TopicV> {
    seq![
        operators_topic(),
        colors_topic(),
        expr_topic(),
        types_topic(),
        sizes_topic(),
    ]
}

/// The page of every command, in the order in which the overview has them.
pub fn commands() -> (r: Vec<CmdHelp>)
    ensures
        r@.map_values(|c: CmdHelp| c@) == command_pages(),
{
    let mut r: Vec<CmdHelp> = Vec::new();
    r.push(cols_help());
    r.push(select_help());
    r.push(sort_help());
    r.push(head_help());
    r.push(tail_help());
    r.push(uniq_help());
    r.push(stats_help());
    r.push(group_help());
    r.push(agg_help());
    r.push(graph_help());
    r.push(fn_help());
    r.push(join_help());
    r.push(rename_help());
    r.push(add_help());
    r.push(delta_help());
    r.push(to_num_help());
    r.push(to_str_help());
    r.push(hdr_help());
    r.push(color_help());
    r.push(fmt_help());
    assert(r@.map_values(|c: CmdHelp| c@) =~= command_pages());
    r
}

/// The page of every topic.
pub fn topics() -> (r: Vec<Topic>)
    ensures
        r@.map_values(|t: Topic| t@) == topic_pages(),
{
    let mut r: Vec<Topic> = Vec::new();
    r.push(
        Topic {
            name: "operators",
            summary: "select / color expression operators",
            body: OPERATORS_BODY,
        },
    );
    r.push(
        Topic {
            name: "colors",
            summary: "colour names and attributes for `color`",
            body: COLORS_BODY,
        },
    );
    r.push(
        Topic {
            name: "expr",
            summary: "value expressions for `add`",
            body: EXPR_BODY,
        },
    );
    r.push(
        Topic {
            name: "types",
            summary: "numeric vs string handling (implicit to-num/to-str)",
            body: TYPES_BODY,
        },
    );
    r.push(
        Topic {
            name: "sizes",
            summary: "K/M/G suffixes for --chunk-size and --sort-buffer",
            body: SIZES_BODY,
        },
    );
    assert(r@.map_values(|t: Topic| t@) =~= topic_pages());
    r
}

/// The place among the commands of the one that a name calls, when it calls one:
/// the names are told apart by their first characters and their lengths.
spec fn owner(name: Seq<char>) -> int {
    let n = name.len();
    if name[0] == 'c' {
        if n <= 4 {
            0
        } else {
            18
        }
    } else if name[0] == 's' {
        if n == 6 {
            1
        } else if n == 4 {
            2
        } else {
            6
        }
    } else if name[0] == 'w' {
        1
    } else if name[0] == 'f' {
        if n == 6 {
            1
        } else if n == 2 {
            10
        } else {
            19
        }
    } else if name[0] == 'h' {
        if n == 4 {
            3
        } else {
            17
        }
    } else if name[0] == 't' {
        if n == 4 {
            4
        } else if name[3] == 'n' {
            15
        } else {
            16
        }
    } else if name[0] == 'u' {
        5
    } else if name[0] == 'd' {
        if name[2] == 'd' {
            5
        } else {
            14
        }
    } else if name[0] == 'g' {
        if name[2] == 'o' {
            7
        } else {
            9
        }
    } else if name[0] == 'a' {
        if name[1] == 'g' {
            8
        } else {
            13
        }
    } else if name[0] == 'p' {
        9
    } else if name[0] == 'j' {
        11
    } else {
        12
    }
}

proof fn lemma_owners()
    ensures
        owner("cols"@) == 0,
        owner("cut"@) == 0,
        owner("select"@) == 1,
        owner("where"@) == 1,
        owner("filter"@) == 1,
        owner("sort"@) == 2,
        owner("head"@) == 3,
        owner("tail"@) == 4,
        owner("uniq"@) == 5,
        owner("dedup"@) == 5,
        owner("stats"@) == 6,
        owner("group"@) == 7,
        owner("agg"@) == 8,
        owner("graph"@) == 9,
        owner("plot"@) == 9,
        owner("fn"@) == 10,
        owner("join"@) == 11,
        owner("rename"@) == 12,
        owner("add"@) == 13,
        owner("delta"@) == 14,
        owner("to-num"@) == 15,
        owner("to-str"@) == 16,
        owner("hdr"@) == 17,
        owner("color"@) == 18,
        owner("colour"@) == 18,
        owner("fmt"@) == 19,
{
    reveal_strlit("cols");
    reveal_strlit("cut");
    reveal_strlit("select");
    reveal_strlit("where");
    reveal_strlit("filter");
    reveal_strlit("sort");
    reveal_strlit("head");
    reveal_strlit("tail");
    reveal_strlit("uniq");
    reveal_strlit("dedup");
    reveal_strlit("stats");
    reveal_strlit("group");
    reveal_strlit("agg");
    reveal_strlit("graph");
    reveal_strlit("plot");
    reveal_strlit("fn");
    reveal_strlit("join");
    reveal_strlit("rename");
    reveal_strlit("add");
    reveal_strlit("delta");
    reveal_strlit("to-num");
    reveal_strlit("to-str");
    reveal_strlit("hdr");
    reveal_strlit("color");
    reveal_strlit("colour");
    reveal_strlit("fmt");
}

proof fn lemma_aliases()
    ensures
        listed(COLS_ALIASES@) == seq!["cut"@],
        listed(SELECT_ALIASES@) == seq!["where"@, "filter"@],
        listed(SORT_ALIASES@) == Seq::<Seq<char>>::empty(),
        listed(HEAD_ALIASES@) == Seq::<Seq<char>>::empty(),
        listed(TAIL_ALIASES@) == Seq::<Seq<char>>::empty(),
        listed(UNIQ_ALIASES@) == seq!["dedup"@],
        listed(STATS_ALIASES@) == Seq::<Seq<char>>::empty(),
        listed(GROUP_ALIASES@) == Seq::<Seq<char>>::empty(),
        listed(AGG_ALIASES@) == Seq::<Seq<char>>::empty(),
        listed(GRAPH_ALIASES@) == seq!["plot"@],
        listed(FN_ALIASES@) == Seq::<Seq<char>>::empty(),
        listed(JOIN_ALIASES@) == Seq::<Seq<char>>::empty(),
        listed(RENAME_ALIASES@) == Seq::<Seq<char>>::empty(),
        listed(ADD_ALIASES@) == Seq::<Seq<char>>::empty(),
        listed(DELTA_ALIASES@) == Seq::<Seq<char>>::empty(),
        listed(TO_NUM_ALIASES@) == Seq::<Seq<char>>::empty(),
        listed(TO_STR_ALIASES@) == Seq::<Seq<char>>::empty(),
        listed(HDR_ALIASES@) == Seq::<Seq<char>>::empty(),
        listed(COLOR_ALIASES@) == seq!["colour"@],
        listed(FMT_ALIASES@) == Seq::<Seq<char>>::empty(),
{
    assert(listed(COLS_ALIASES@) =~= seq!["cut"@]);
    assert(listed(SELECT_ALIASES@) =~= seq!["where"@, "filter"@]);
    assert(listed(SORT_ALIASES@) =~= Seq::<Seq<char>>::empty());
    assert(listed(HEAD_ALIASES@) =~= Seq::<Seq<char>>::empty());
    assert(listed(TAIL_ALIASES@) =~= Seq::<Seq<char>>::empty());
    assert(listed(UNIQ_ALIASES@) =~= seq!["dedup"@]);
    assert(listed(STATS_ALIASES@) =~= Seq::<Seq<char>>::empty());
    assert(listed(GROUP_ALIASES@) =~= Seq::<Seq<char>>::empty());
    assert(listed(AGG_ALIASES@) =~= Seq::<Seq<char>>::empty());
    assert(listed(GRAPH_ALIASES@) =~= seq!["plot"@]);
    assert(listed(FN_ALIASES@) =~= Seq::<Seq<char>>::empty());
    assert(listed(JOIN_ALIASES@) =~= Seq::<Seq<char>>::empty());
    assert(listed(RENAME_ALIASES@) =~= Seq::<Seq<char>>::empty());
    assert(listed(ADD_ALIASES@) =~= Seq::<Seq<char>>::empty());
    assert(listed(DELTA_ALIASES@) =~= Seq::<Seq<char>>::empty());
    assert(listed(TO_NUM_ALIASES@) =~= Seq::<Seq<char>>::empty());
    assert(listed(TO_STR_ALIASES@) =~= Seq::<Seq<char>>::empty());
    assert(listed(HDR_ALIASES@) =~= Seq::<Seq<char>>::empty());
    assert(listed(COLOR_ALIASES@) =~= seq!["colour"@]);
    assert(listed(FMT_ALIASES@) =~= Seq::<Seq<char>>::empty());
}

/// No two commands share a name or an alias: a name that calls one of them calls
/// no other.
pub proof fn law_names_tell_commands_apart(i: int, j: int, name: Seq<char>)
    requires
        0 <= i < command_pages().len(),
        0 <= j < command_pages().len(),
        is_called(command_pages()[i], name),
        is_called(command_pages()[j], name),
    ensures
        i == j,
{
    lemma_owned(i, name);
    lemma_owned(j, name);
}

proof fn lemma_owned(i: int, name: Seq<char>)
    requires
        0 <= i < command_pages().len(),
        is_called(command_pages()[i], name),
    ensures
        owner(name) == i,
{
    lemma_owners();
    lemma_aliases();
    let c = command_pages()[i];
    if c.name != name {
        let k = choose|k: int| 0 <= k < c.aliases.len() && c.aliases[k] == name;
        assert(c.aliases[k] == name);
    }
}

} // verus!
