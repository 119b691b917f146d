//! The in-row value representation.
//!
//! A [`Field`] is one CSV cell while it flows through the pipeline: the text it
//! was read as, or a number it was converted to. A number is carried as the 64
//! bits of its IEEE 754 double and the text it prints as; what a text reads as
//! comes from a table of [`Readings`], so the order of numbers and every rule
//! about them is integer arithmetic here.

use crate::text::{decimal, is_blank, show_u128, show_u64, trim, trimmed};
use vstd::hash_map::StringHashMap;
use vstd::prelude::*;

verus! {

/// A double: its IEEE 754 bits, and the text it prints as.
#[derive(Debug)]
pub struct Num {
    pub bits: u64,
    pub text: String,
}

/// What a [`Num`] is in contracts.
pub struct NumV {
    pub bits: u64,
    pub text: Seq<char>,
}

impl View for Num {
    type V = NumV;

    open spec fn view(&self) -> NumV {
        NumV { bits: self.bits, text: self.text@ }
    }
}

impl Clone for Num {
    fn clone(&self) -> (r: Self)
        ensures
            r@ == self@,
    {
        Num { bits: self.bits, text: self.text.clone() }
    }
}

/// A single CSV cell: text as read, or a value converted to a number.
#[derive(Debug)]
pub enum Field {
    Str(String),
    Num(Num),
}

/// What a [`Field`] is in contracts.
pub enum FieldV {
    Str(Seq<char>),
    Num(NumV),
}

impl View for Field {
    type V = FieldV;

    open spec fn view(&self) -> FieldV {
        match self {
            Field::Str(s) => FieldV::Str(s@),
            Field::Num(n) => FieldV::Num(n@),
        }
    }
}

impl Clone for Field {
    fn clone(&self) -> (r: Self)
        ensures
            r@ == self@,
    {
        match self {
            Field::Str(s) => Field::Str(s.clone()),
            Field::Num(n) => Field::Num(n.clone()),
        }
    }
}

/// A row of cells.
pub type Row = Vec<Field>;

/// A row in contracts.
pub open spec fn row_view(r: Seq<Field>) -> Seq<FieldV> {
    r.map_values(|f: Field| f@)
}

/// A list of rows in contracts.
pub open spec fn rows_view(rows: Seq<Row>) -> Seq<Seq<FieldV>> {
    rows.map_values(|r: Row| row_view(r@))
}

/// The texts of a row's cells.
pub open spec fn row_texts(r: Seq<FieldV>) -> Seq<Seq<char>> {
    r.map_values(|f: FieldV| f.text())
}

/// A row of plain text cells.
pub open spec fn text_row(cells: Seq<Seq<char>>) -> Seq<FieldV> {
    cells.map_values(|c: Seq<char>| FieldV::Str(c))
}

/// The cell at `p`, or an empty one where the row is too short.
pub open spec fn cell_or_empty(row: Seq<FieldV>, p: int) -> FieldV {
    if 0 <= p < row.len() {
        row[p]
    } else {
        FieldV::Str(seq![])
    }
}

/// The cells at `positions`, empty ones where the row is too short.
pub open spec fn pick(row: Seq<FieldV>, positions: Seq<usize>) -> Seq<FieldV> {
    positions.map_values(|p: usize| cell_or_empty(row, p as int))
}

/// A non-numeric value reached an operation that requires a number. Carries the
/// offending text so that it can be reported.
#[derive(Debug)]
pub struct NumError(pub String);

impl NumError {
    /// The message that reports the value.
    pub open spec fn message_spec(text: Seq<char>) -> Seq<char> {
        "non-numeric value '"@ + text + "'"@
    }

    /// The message that reports the value.
    pub fn message(&self) -> (r: String)
        ensures
            r@ == NumError::message_spec(self.0@),
    {
        crate::text::cat3("non-numeric value '", self.0.as_str(), "'")
    }
}

/// The bits of infinity, without a sign: below it lie the finite numbers,
/// above it the values that are not numbers.
pub const INFINITE: u64 = 0x7ff0_0000_0000_0000;

/// The bits of a double without its sign.
pub open spec fn magnitude(bits: u64) -> int {
    bits as int % 0x8000_0000_0000_0000
}

/// Whether the bits are those of a value that is not a number.
pub open spec fn is_nan(bits: u64) -> bool {
    magnitude(bits) > INFINITE
}

/// Whether the bits are those of a finite number.
pub open spec fn is_finite(bits: u64) -> bool {
    magnitude(bits) < INFINITE
}

/// Where the double stands among the doubles that are numbers: equal numbers
/// (the two zeros among them) stand in one place, and a smaller number before
/// a larger one.
pub open spec fn place(bits: u64) -> int {
    if bits as int >= 0x8000_0000_0000_0000 {
        -magnitude(bits)
    } else {
        magnitude(bits)
    }
}

/// How one double compares with another.
#[derive(Clone, Copy, PartialEq, Eq, Structural, Debug)]
pub enum Rank {
    Before,
    Same,
    After,
    /// One of the two is not a number.
    Apart,
}

/// How `a` compares with `b`.
pub open spec fn rank(a: u64, b: u64) -> Rank {
    if is_nan(a) || is_nan(b) {
        Rank::Apart
    } else if place(a) < place(b) {
        Rank::Before
    } else if place(a) == place(b) {
        Rank::Same
    } else {
        Rank::After
    }
}

/// How `a` compares with `b`, by their bits.
pub fn rank_bits(a: u64, b: u64) -> (r: Rank)
    ensures
        r == rank(a, b),
{
    let sign: u64 = 0x8000_0000_0000_0000;
    let x: u64 = a % sign;
    let y: u64 = b % sign;
    if x > 0x7ff0_0000_0000_0000 || y > 0x7ff0_0000_0000_0000 {
        return Rank::Apart;
    }
    let i: i128 = if a >= sign {
        -(x as i128)
    } else {
        x as i128
    };
    let j: i128 = if b >= sign {
        -(y as i128)
    } else {
        y as i128
    };
    if i < j {
        Rank::Before
    } else if i == j {
        Rank::Same
    } else {
        Rank::After
    }
}

/// Whether the bits are those of a finite number.
pub fn finite_bits(bits: u64) -> (r: bool)
    ensures
        r == is_finite(bits),
{
    bits % 0x8000_0000_0000_0000 < 0x7ff0_0000_0000_0000
}

/// What each numeric text reads as. A text that is not in the table is not a
/// number.
pub struct Readings {
    table: StringHashMap<Num>,
}

impl View for Readings {
    type V = Map<Seq<char>, NumV>;

    closed spec fn view(&self) -> Map<Seq<char>, NumV> {
        self.table@.map_values(|n: Num| n@)
    }
}

impl Readings {
    /// The table in which nothing is a number.
    pub fn new() -> (r: Self)
        ensures
            r@ == Map::<Seq<char>, NumV>::empty(),
    {
        let r = Readings { table: StringHashMap::new() };
        assert(r@ =~= Map::<Seq<char>, NumV>::empty());
        r
    }

    /// Records that `text` reads as `num`.
    pub fn learn(&mut self, text: String, num: Num)
        ensures
            final(self)@ == old(self)@.insert(text@, num@),
    {
        self.table.insert(text, num);
        assert(self@ =~= old(self)@.insert(text@, num@));
    }

    /// What `text` reads as.
    pub fn read(&self, text: &str) -> (r: Option<Num>)
        ensures
            match r {
                Some(n) => self@.contains_key(text@) && n@ == self@[text@],
                None => !self@.contains_key(text@),
            },
    {
        match self.table.get(text) {
            Some(n) => Some(n.clone()),
            None => None,
        }
    }
}

/// Zero, as a blank cell reads in numeric work.
pub open spec fn zero() -> NumV {
    NumV { bits: 0, text: "0"@ }
}

impl FieldV {
    /// The cell as text: a number shows as it prints.
    pub open spec fn text(self) -> Seq<char> {
        match self {
            FieldV::Str(s) => s,
            FieldV::Num(n) => n.text,
        }
    }

    /// The cell as a number, when it is one; an empty cell is none.
    pub open spec fn num_opt(self, readings: Map<Seq<char>, NumV>) -> Option<NumV> {
        match self {
            FieldV::Num(n) => Some(n),
            FieldV::Str(s) => if trimmed(s).len() > 0 && readings.contains_key(trimmed(s)) {
                Some(readings[trimmed(s)])
            } else {
                None
            },
        }
    }

    /// The cell as a number, a blank one as zero.
    pub open spec fn num_soft(self, readings: Map<Seq<char>, NumV>) -> Option<NumV> {
        match self {
            FieldV::Str(s) if trimmed(s).len() == 0 => Some(zero()),
            _ => self.num_opt(readings),
        }
    }
}

impl Field {
    /// View the field as text: this is what serialization and string
    /// comparisons see.
    pub fn as_str(&self) -> (r: &str)
        ensures
            r@ == self@.text(),
    {
        match self {
            Field::Str(s) => s.as_str(),
            Field::Num(n) => n.text.as_str(),
        }
    }

    /// Coerce to a number. Blank is zero; anything else that is not a number
    /// is a [`NumError`] with the cell's text.
    pub fn coerce_num(&self, readings: &Readings) -> (r: Result<Num, NumError>)
        ensures
            match r {
                Ok(n) => self@.num_soft(readings@) == Some(n@),
                Err(e) => self@.num_soft(readings@) is None && e.0@ == self@.text(),
            },
    {
        match self.num_soft(readings) {
            Some(n) => Ok(n),
            None => Err(NumError(self.as_str().to_string())),
        }
    }

    /// [`Field::coerce_num`] without the error value: blank is zero, text is
    /// `None`.
    pub fn num_soft(&self, readings: &Readings) -> (r: Option<Num>)
        ensures
            match r {
                Some(n) => self@.num_soft(readings@) == Some(n@),
                None => self@.num_soft(readings@) is None,
            },
    {
        match self {
            Field::Num(n) => Some(n.clone()),
            Field::Str(s) => {
                if is_blank(s.as_str()) {
                    Some(Num { bits: 0, text: "0".to_string() })
                } else {
                    readings.read(trim(s.as_str()).as_str())
                }
            },
        }
    }

    /// The cell as a number, or `None` when it is blank or not a number: the
    /// strict form of [`Field::coerce_num`], which reads blank as zero.
    pub fn num_opt(&self, readings: &Readings) -> (r: Option<Num>)
        ensures
            match r {
                Some(n) => self@.num_opt(readings@) == Some(n@),
                None => self@.num_opt(readings@) is None,
            },
    {
        match self {
            Field::Num(n) => Some(n.clone()),
            Field::Str(s) => {
                if is_blank(s.as_str()) {
                    None
                } else {
                    readings.read(trim(s.as_str()).as_str())
                }
            },
        }
    }
}

/// A copy of a row.
pub fn clone_row(row: &[Field]) -> (r: Row)
    ensures
        row_view(r@) == row_view(row@),
{
    let mut r: Row = Vec::new();
    let mut i: usize = 0;
    while i < row.len()
        invariant
            i <= row.len(),
            row_view(r@) == row_view(row@).take(i as int),
        decreases row.len() - i,
    {
        let ghost before = r@;
        r.push(row[i].clone());
        assert(row_view(r@) =~= row_view(before).push(row@[i as int]@));
        assert(row_view(row@).take(i + 1) =~= row_view(row@).take(i as int).push(row@[i as int]@));
        i += 1;
    }
    assert(row_view(row@).take(row@.len() as int) =~= row_view(row@));
    r
}

/// The cell at `p`, or an empty one where the row is too short.
pub fn cell_at(row: &[Field], p: usize) -> (r: Field)
    ensures
        r@ == cell_or_empty(row_view(row@), p as int),
{
    if p < row.len() {
        row[p].clone()
    } else {
        let e = Field::Str(String::new());
        assert(e@->Str_0 =~= seq![]);
        e
    }
}

/// The cells at `positions`, empty ones where the row is too short.
pub fn pick_cells(row: &[Field], positions: &[usize]) -> (r: Row)
    ensures
        row_view(r@) == pick(row_view(row@), positions@),
{
    let mut r: Row = Vec::new();
    let mut i: usize = 0;
    let ghost want = pick(row_view(row@), positions@);
    while i < positions.len()
        invariant
            i <= positions.len(),
            want == pick(row_view(row@), positions@),
            row_view(r@) == want.take(i as int),
        decreases positions.len() - i,
    {
        let ghost before = r@;
        r.push(cell_at(row, positions[i]));
        assert(row_view(r@) =~= row_view(before).push(want[i as int]));
        assert(want.take(i + 1) =~= want.take(i as int).push(want[i as int]));
        i += 1;
    }
    assert(want.take(positions@.len() as int) =~= want);
    r
}

/// The exponent of the largest power of two that is no more than `n`.
pub open spec fn top_bit(n: nat) -> nat
    decreases n,
{
    if n <= 1 {
        0
    } else {
        1 + top_bit(n / 2)
    }
}

/// The whole number nearest to `a / d`, and of two that are as near the even one.
pub open spec fn nearest(a: nat, d: nat) -> nat {
    let q = a / d;
    let r = a % d;
    if 2 * r > d || (2 * r == d && q % 2 == 1) {
        q + 1
    } else {
        q
    }
}

/// The bits of the double nearest to a whole number: the exponent, and the
/// number's leading digits behind it, the first of which is understood.
pub open spec fn whole_bits(n: nat) -> nat {
    if n == 0 {
        0
    } else {
        (1022 + top_bit(n)) * 0x10_0000_0000_0000 + nearest(
            n * 0x10_0000_0000_0000,
            vstd::arithmetic::power2::pow2(top_bit(n)),
        )
    }
}

proof fn lemma_top_bit(n: nat, e: nat)
    requires
        vstd::arithmetic::power2::pow2(e) <= n < 2 * vstd::arithmetic::power2::pow2(e),
    ensures
        top_bit(n) == e,
    decreases e,
{
    if e == 0 {
        vstd::arithmetic::power2::lemma2_to64();
    } else {
        vstd::arithmetic::power2::lemma_pow2_unfold(e);
        vstd::arithmetic::power2::lemma_pow2_pos((e - 1) as nat);
        lemma_top_bit(n / 2, (e - 1) as nat);
    }
}

/// The double nearest to a whole number, as `n as f64` has it.
pub fn whole(n: u64) -> (r: u64)
    ensures
        r == whole_bits(n as nat),
{
    if n == 0 {
        return 0;
    }
    let mut p: u128 = 1;
    let mut e: u64 = 0;
    proof {
        vstd::arithmetic::power2::lemma2_to64();
    }
    while p * 2 <= n as u128
        invariant
            p == vstd::arithmetic::power2::pow2(e as nat),
            1 <= p <= n,
            p >= e + 1,
            e <= 63,
        decreases n - p,
    {
        proof {
            vstd::arithmetic::power2::lemma_pow2_unfold((e + 1) as nat);
            assert(e < 63) by {
                if e == 63 {
                    vstd::arithmetic::power2::lemma2_to64();
                    vstd::arithmetic::power2::lemma_pow2_unfold(64);
                }
            }
        }
        p = p * 2;
        e = e + 1;
    }
    proof {
        lemma_top_bit(n as nat, e as nat);
    }
    let a: u128 = n as u128 * 0x10_0000_0000_0000;
    let q: u128 = a / p;
    let rest: u128 = a % p;
    assert(q < 0x20_0000_0000_0000) by (nonlinear_arith)
        requires
            q == a / p,
            a == n * 0x10_0000_0000_0000,
            n < 2 * p,
            p >= 1,
    ;
    let m: u128 = if 2 * rest > p || (2 * rest == p && q % 2 == 1) {
        q + 1
    } else {
        q
    };
    assert(m == nearest(a as nat, p as nat));
    ((1022 + e as u128) * 0x10_0000_0000_0000 + m) as u64
}

/// The value of the double nearest to a whole number: the number itself, as long
/// as its digits fit.
pub open spec fn whole_value(n: nat) -> nat {
    if top_bit(n) <= 52 {
        n
    } else {
        let d = vstd::arithmetic::power2::pow2((top_bit(n) - 52) as nat);
        nearest(n, d) * d
    }
}

/// A whole number as a double: a count, as it is written and ordered.
pub open spec fn whole_view(n: nat) -> NumV {
    NumV { bits: whole_bits(n) as u64, text: decimal(whole_value(n)) }
}

/// A whole number as a double.
pub fn whole_num(n: u64) -> (r: Num)
    ensures
        r@ == whole_view(n as nat),
{
    let mut d: u128 = 1;
    let ghost mut e: nat = 0;
    proof {
        vstd::arithmetic::power2::lemma2_to64();
    }
    while d * 0x20_0000_0000_0000 <= n as u128
        invariant
            d == vstd::arithmetic::power2::pow2(e),
            1 <= d <= 0x1000,
            e > 0 ==> d * 0x10_0000_0000_0000 <= n,
        decreases n - d,
    {
        proof {
            vstd::arithmetic::power2::lemma_pow2_unfold(e + 1);
            e = e + 1;
        }
        d = d * 2;
    }
    if d == 1 {
        proof {
            if n > 0 {
                lemma_top_bit_small(n as nat);
            }
            if e > 0 {
                vstd::arithmetic::power2::lemma_pow2_strictly_increases(0, e);
            }
        }
        return Num { bits: whole(n), text: show_u64(n) };
    }
    proof {
        vstd::arithmetic::power2::lemma2_to64();
        vstd::arithmetic::power2::lemma2_to64_rest();
        vstd::arithmetic::power2::lemma_pow2_adds(52, e);
        assert(e > 0);
        assert(vstd::arithmetic::power2::pow2(52 + e) == d * 0x10_0000_0000_0000) by {
            assert(0x10_0000_0000_0000 * d == d * 0x10_0000_0000_0000) by (nonlinear_arith);
        }
        lemma_top_bit(n as nat, 52 + e);
    }
    let q: u128 = n as u128 / d;
    let rest: u128 = n as u128 % d;
    let m: u128 = if 2 * rest > d || (2 * rest == d && q % 2 == 1) {
        q + 1
    } else {
        q
    };
    assert(m == nearest(n as nat, d as nat));
    assert(m * d <= 2 * n + 2) by (nonlinear_arith)
        requires
            m <= q + 1,
            q == n as u128 / d,
            d >= 1,
            d <= n,
    ;
    Num { bits: whole(n), text: show_u128(m * d) }
}

proof fn lemma_top_bit_small(n: nat)
    requires
        0 < n < 0x20_0000_0000_0000,
    ensures
        top_bit(n) <= 52,
{
    lemma_top_bit_under(n, 52);
    vstd::arithmetic::power2::lemma2_to64();
    vstd::arithmetic::power2::lemma2_to64_rest();
}

proof fn lemma_top_bit_under(n: nat, k: nat)
    ensures
        n < 2 * vstd::arithmetic::power2::pow2(k) ==> top_bit(n) <= k,
    decreases k,
{
    if k == 0 {
        vstd::arithmetic::power2::lemma2_to64();
    } else if n > 1 {
        vstd::arithmetic::power2::lemma_pow2_unfold(k);
        lemma_top_bit_under(n / 2, (k - 1) as nat);
    }
}

} // verus!
