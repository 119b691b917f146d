//! Characters and strings: the small operations the rest of the library is
//! written with, each stated over a string's sequence of characters.

use vstd::prelude::*;
use vstd::utf8::encode_utf8;

verus! {

/// `String::push`: appends one character to the end of the string.
pub assume_specification[ String::push ](s: &mut String, c: char)
    ensures
        final(s)@ == old(s)@.push(c),
;

/// The texts of a list of strings.
pub open spec fn texts(v: Seq<String>) -> Seq<Seq<char>> {
    v.map_values(|s: String| s@)
}

/// The text of an optional string.
pub open spec fn opt_text(o: Option<String>) -> Option<Seq<char>> {
    match o {
        Some(s) => Some(s@),
        None => None,
    }
}

/// A result with its error as text.
pub open spec fn outcome<T>(r: Result<T, String>) -> Result<T, Seq<char>> {
    match r {
        Ok(v) => Ok(v),
        Err(e) => Err(e@),
    }
}

/// `c`, `n` times over.
pub open spec fn repeated(c: char, n: nat) -> Seq<char> {
    Seq::new(n, |i: int| c)
}

/// The parts with `sep` between each two.
pub open spec fn joined(parts: Seq<Seq<char>>, sep: Seq<char>) -> Seq<char>
    decreases parts.len(),
{
    if parts.len() == 0 {
        seq![]
    } else if parts.len() == 1 {
        parts[0]
    } else {
        joined(parts.drop_last(), sep) + sep + parts.last()
    }
}

/// The first index at or after `i` that holds `c`, or the length when none
/// does.
pub open spec fn next_of(s: Seq<char>, c: char, i: int) -> int
    decreases s.len() - i,
{
    if i >= s.len() {
        s.len() as int
    } else if s[i] == c {
        i
    } else {
        next_of(s, c, i + 1)
    }
}

/// What `next_of` finds: nothing before it is `c`, and it is `c` unless it is
/// the end.
pub proof fn lemma_next_of(s: Seq<char>, c: char, i: int)
    requires
        0 <= i <= s.len(),
    ensures
        i <= next_of(s, c, i) <= s.len(),
        next_of(s, c, i) < s.len() ==> s[next_of(s, c, i)] == c,
        forall|k: int| i <= k < next_of(s, c, i) ==> s[k] != c,
    decreases s.len() - i,
{
    if i < s.len() && s[i] != c {
        lemma_next_of(s, c, i + 1);
    }
}

/// `next_of` is the only index with those properties.
pub proof fn lemma_next_of_is(s: Seq<char>, c: char, i: int, n: int)
    requires
        0 <= i <= n <= s.len(),
        n < s.len() ==> s[n] == c,
        forall|k: int| i <= k < n ==> s[k] != c,
    ensures
        next_of(s, c, i) == n,
    decreases n - i,
{
    if i < n {
        lemma_next_of_is(s, c, i + 1, n);
    }
}

/// How many times `c` occurs in `s`.
pub open spec fn count_of(s: Seq<char>, c: char) -> nat
    decreases s.len(),
{
    if s.len() == 0 {
        0
    } else {
        count_of(s.drop_last(), c) + if s.last() == c {
            1nat
        } else {
            0nat
        }
    }
}

/// The pieces of `s` between the separators, from `i` on.
pub open spec fn split_from(s: Seq<char>, sep: char, i: int) -> Seq<Seq<char>>
    decreases s.len() - i,
    when 0 <= i <= s.len()
{
    let n = next_of(s, sep, i);
    if i <= n < s.len() {
        seq![s.subrange(i, n)] + split_from(s, sep, n + 1)
    } else {
        seq![s.subrange(i, s.len() as int)]
    }
}

/// The pieces of `s` between the separators: one more than there are
/// separators.
pub open spec fn split(s: Seq<char>, sep: char) -> Seq<Seq<char>> {
    split_from(s, sep, 0)
}

/// Unicode's `White_Space` property.
pub open spec fn is_white(c: char) -> bool {
    ||| 0x9 <= c as u32 <= 0xd
    ||| c as u32 == 0x20
    ||| c as u32 == 0x85
    ||| c as u32 == 0xa0
    ||| c as u32 == 0x1680
    ||| 0x2000 <= c as u32 <= 0x200a
    ||| c as u32 == 0x2028
    ||| c as u32 == 0x2029
    ||| c as u32 == 0x202f
    ||| c as u32 == 0x205f
    ||| c as u32 == 0x3000
}

/// `s` without its leading white space.
pub open spec fn trimmed_start(s: Seq<char>) -> Seq<char>
    decreases s.len(),
{
    if s.len() > 0 && is_white(s[0]) {
        trimmed_start(s.drop_first())
    } else {
        s
    }
}

/// `s` without its trailing white space.
pub open spec fn trimmed_end(s: Seq<char>) -> Seq<char>
    decreases s.len(),
{
    if s.len() > 0 && is_white(s.last()) {
        trimmed_end(s.drop_last())
    } else {
        s
    }
}

/// `s` without its surrounding white space.
pub open spec fn trimmed(s: Seq<char>) -> Seq<char> {
    trimmed_end(trimmed_start(s))
}

/// Whether `s` holds nothing but white space.
pub open spec fn blank(s: Seq<char>) -> bool {
    forall|i: int| 0 <= i < s.len() ==> is_white(#[trigger] s[i])
}

/// The character of a decimal digit.
pub open spec fn digit_char(d: nat) -> char {
    (('0' as u32) + d) as char
}

/// `n` written in decimal.
pub open spec fn decimal(n: nat) -> Seq<char>
    decreases n,
{
    if n < 10 {
        seq![digit_char(n)]
    } else {
        decimal(n / 10).push(digit_char(n % 10))
    }
}

/// Whether `c` is one of the ten decimal digits.
pub open spec fn is_digit(c: char) -> bool {
    '0' <= c <= '9'
}

/// Whether `s` is one or more decimal digits.
pub open spec fn all_digits(s: Seq<char>) -> bool {
    &&& s.len() > 0
    &&& forall|i: int| 0 <= i < s.len() ==> is_digit(#[trigger] s[i])
}

/// The number a run of digits stands for.
pub open spec fn digits_value(s: Seq<char>) -> nat
    decreases s.len(),
{
    if s.len() == 0 {
        0
    } else {
        digits_value(s.drop_last()) * 10 + (s.last() as nat - '0' as nat) as nat
    }
}

/// The digits of a signed number, and whether a minus stands before them.
pub open spec fn sign_and_digits(s: Seq<char>) -> (bool, Seq<char>) {
    if s.len() > 0 && s[0] == '-' {
        (true, s.skip(1))
    } else if s.len() > 0 && s[0] == '+' {
        (false, s.skip(1))
    } else {
        (false, s)
    }
}

/// The number that a text stands for, when it is decimal digits behind at most
/// one sign and fits in 64 bits.
pub open spec fn int_value(s: Seq<char>) -> Option<i64> {
    let (neg, digits) = sign_and_digits(s);
    let n = if neg {
        -(digits_value(digits) as int)
    } else {
        digits_value(digits) as int
    };
    if all_digits(digits) && i64::MIN <= n <= i64::MAX {
        Some(n as i64)
    } else {
        None
    }
}

/// Whether `a` comes before `b` in the order of their characters.
pub open spec fn lex_lt(a: Seq<char>, b: Seq<char>) -> bool
    decreases a.len(),
{
    if b.len() == 0 {
        false
    } else if a.len() == 0 {
        true
    } else if a[0] != b[0] {
        (a[0] as u32) < (b[0] as u32)
    } else {
        lex_lt(a.drop_first(), b.drop_first())
    }
}

/// Whether `p` starts `s`.
pub open spec fn starts_with(s: Seq<char>, p: Seq<char>) -> bool {
    p.len() <= s.len() && s.take(p.len() as int) == p
}

/// Whether `p` ends `s`.
pub open spec fn ends_with(s: Seq<char>, p: Seq<char>) -> bool {
    p.len() <= s.len() && s.skip(s.len() - p.len()) == p
}

/// The characters of `s`.
pub fn chars_of(s: &str) -> (v: Vec<char>)
    ensures
        v@ == s@,
{
    let mut v: Vec<char> = Vec::new();
    for c in it: s.chars()
        invariant
            v@ == s@.take(it.index()),
            it.seq() == s@,
    {
        v.push(c);
    }
    v
}

/// The string made of the characters `v`.
pub fn string_of(v: &[char]) -> (s: String)
    ensures
        s@ == v@,
{
    let mut s = String::new();
    let mut i: usize = 0;
    while i < v.len()
        invariant
            i <= v.len(),
            s@ == v@.take(i as int),
        decreases v.len() - i,
    {
        s.push(v[i]);
        i += 1;
    }
    assert(v@.take(v@.len() as int) =~= v@);
    s
}

/// The string made of the characters of `v` from `i` up to `j`.
pub fn string_from(v: &[char], i: usize, j: usize) -> (s: String)
    requires
        i <= j <= v.len(),
    ensures
        s@ == v@.subrange(i as int, j as int),
{
    let mut s = String::new();
    let mut k: usize = i;
    while k < j
        invariant
            i <= k <= j <= v.len(),
            s@ == v@.subrange(i as int, k as int),
        decreases j - k,
    {
        s.push(v[k]);
        k += 1;
    }
    s
}

/// Whether two strings hold the same characters.
pub fn same(a: &str, b: &str) -> (r: bool)
    ensures
        r == (a@ == b@),
{
    let x = a.as_bytes();
    let y = b.as_bytes();
    proof {
        vstd::utf8::encode_utf8_decode_utf8(a@);
        vstd::utf8::encode_utf8_decode_utf8(b@);
    }
    if x.len() != y.len() {
        return false;
    }
    let mut i: usize = 0;
    while i < x.len()
        invariant
            i <= x.len(),
            x.len() == y.len(),
            x@ == encode_utf8(a@),
            y@ == encode_utf8(b@),
            forall|k: int| 0 <= k < i ==> x@[k] == y@[k],
        decreases x.len() - i,
    {
        if x[i] != y[i] {
            assert(a@ != b@);
            return false;
        }
        i += 1;
    }
    assert(x@ =~= y@);
    true
}

/// Whether two runs of characters are the same.
pub fn same_chars(a: &[char], b: &[char]) -> (r: bool)
    ensures
        r == (a@ == b@),
{
    if a.len() != b.len() {
        return false;
    }
    let mut i: usize = 0;
    while i < a.len()
        invariant
            i <= a.len(),
            a.len() == b.len(),
            forall|k: int| 0 <= k < i ==> a@[k] == b@[k],
        decreases a.len() - i,
    {
        if a[i] != b[i] {
            assert(a@[i as int] != b@[i as int]);
            return false;
        }
        i += 1;
    }
    assert(a@ =~= b@);
    true
}

/// Two pieces as one string.
pub fn cat2(a: &str, b: &str) -> (r: String)
    ensures
        r@ == a@ + b@,
{
    let mut r = a.to_string();
    r.append(b);
    r
}

/// Three pieces as one string.
pub fn cat3(a: &str, b: &str, c: &str) -> (r: String)
    ensures
        r@ == a@ + b@ + c@,
{
    let mut r = a.to_string();
    r.append(b);
    r.append(c);
    r
}

/// Four pieces as one string.
pub fn cat4(a: &str, b: &str, c: &str, d: &str) -> (r: String)
    ensures
        r@ == a@ + b@ + c@ + d@,
{
    let mut r = a.to_string();
    r.append(b);
    r.append(c);
    r.append(d);
    r
}

/// Appends `c`, `n` times over.
pub fn push_repeated(buf: &mut String, c: char, n: usize)
    ensures
        final(buf)@ == old(buf)@ + repeated(c, n as nat),
{
    let mut i: usize = 0;
    assert(buf@ =~= old(buf)@ + repeated(c, 0));
    while i < n
        invariant
            i <= n,
            buf@ == old(buf)@ + repeated(c, i as nat),
        decreases n - i,
    {
        buf.push(c);
        i += 1;
        assert(buf@ =~= old(buf)@ + repeated(c, i as nat));
    }
}

/// The parts with `sep` between each two.
pub fn join(parts: &[String], sep: &str) -> (r: String)
    ensures
        r@ == joined(texts(parts@), sep@),
{
    let mut r = String::new();
    let mut i: usize = 0;
    while i < parts.len()
        invariant
            i <= parts.len(),
            r@ == joined(texts(parts@).take(i as int), sep@),
        decreases parts.len() - i,
    {
        if i > 0 {
            r.append(sep);
        }
        r.append(parts[i].as_str());
        proof {
            let t = texts(parts@);
            assert(t.take(i + 1).drop_last() =~= t.take(i as int));
            assert(t.take(i + 1).last() == parts@[i as int]@);
            if i == 0 {
                assert(r@ =~= t[0]);
            }
        }
        i += 1;
    }
    assert(texts(parts@).take(parts@.len() as int) =~= texts(parts@));
    r
}

/// The first index at or after `i` that holds `c`, or the length when none
/// does.
pub fn find_char(v: &[char], c: char, i: usize) -> (n: usize)
    requires
        i <= v.len(),
    ensures
        n == next_of(v@, c, i as int),
        i <= n <= v.len(),
{
    let mut n: usize = i;
    while n < v.len() && v[n] != c
        invariant
            i <= n <= v.len(),
            next_of(v@, c, i as int) == next_of(v@, c, n as int),
        decreases v.len() - n,
    {
        n += 1;
    }
    n
}

/// How many times `c` occurs in `v`.
pub fn count_char(v: &[char], c: char) -> (n: usize)
    ensures
        n == count_of(v@, c),
        n <= v.len(),
{
    let mut n: usize = 0;
    let mut i: usize = 0;
    while i < v.len()
        invariant
            n <= i <= v.len(),
            n == count_of(v@.take(i as int), c),
        decreases v.len() - i,
    {
        assert(v@.take(i + 1).drop_last() =~= v@.take(i as int));
        if v[i] == c {
            n += 1;
        }
        i += 1;
    }
    assert(v@.take(v@.len() as int) =~= v@);
    n
}

/// The pieces of `s` between the separators.
pub fn split_on(s: &str, sep: char) -> (r: Vec<String>)
    ensures
        texts(r@) == split(s@, sep),
        r.len() > 0,
{
    let v = chars_of(s);
    let mut r: Vec<String> = Vec::new();
    let mut i: usize = 0;
    loop
        invariant_except_break
            texts(r@) + split_from(v@, sep, i as int) == split(v@, sep),
        invariant
            i <= v.len(),
            v@ == s@,
        ensures
            texts(r@) == split(v@, sep),
            r.len() > 0,
        decreases v.len() - i,
    {
        let n = find_char(v.as_slice(), sep, i);
        let ghost before = texts(r@);
        r.push(string_from(v.as_slice(), i, n));
        assert(texts(r@) =~= before.push(v@.subrange(i as int, n as int)));
        if n >= v.len() {
            assert(texts(r@) =~= before + seq![v@.subrange(i as int, v@.len() as int)]);
            break;
        }
        assert(texts(r@) + split_from(v@, sep, n + 1) =~= before + (seq![
            v@.subrange(i as int, n as int),
        ] + split_from(v@, sep, n + 1)));
        i = n + 1;
    }
    r
}

/// Whether `c` has Unicode's `White_Space` property.
pub fn white(c: char) -> (r: bool)
    ensures
        r == is_white(c),
{
    let u: u32 = c as u32;
    (0x9 <= u && u <= 0xd) || u == 0x20 || u == 0x85 || u == 0xa0 || u == 0x1680 || (0x2000 <= u
        && u <= 0x200a) || u == 0x2028 || u == 0x2029 || u == 0x202f || u == 0x205f || u == 0x3000
}

/// `s` without its surrounding white space.
pub fn trim(s: &str) -> (r: String)
    ensures
        r@ == trimmed(s@),
{
    let v = chars_of(s);
    let mut i: usize = 0;
    assert(v@.skip(0) =~= v@);
    while i < v.len() && white(v[i])
        invariant
            i <= v.len(),
            trimmed_start(v@) == trimmed_start(v@.skip(i as int)),
        decreases v.len() - i,
    {
        assert(v@.skip(i as int).drop_first() =~= v@.skip(i + 1));
        i += 1;
    }
    let ghost rest = v@.skip(i as int);
    assert(trimmed_start(v@) == rest);
    let mut j: usize = v.len();
    assert(v@.subrange(i as int, j as int) =~= rest);
    while j > i && white(v[j - 1])
        invariant
            i <= j <= v.len(),
            trimmed_end(rest) == trimmed_end(v@.subrange(i as int, j as int)),
        decreases j,
    {
        assert(v@.subrange(i as int, j as int).drop_last() =~= v@.subrange(i as int, j - 1));
        j -= 1;
    }
    string_from(v.as_slice(), i, j)
}

/// White space is all that trims to nothing.
pub proof fn lemma_blank_trims_to_nothing(s: Seq<char>)
    ensures
        blank(s) <==> trimmed(s).len() == 0,
{
    lemma_trimmed_start(s);
    lemma_trimmed_end(trimmed_start(s));
    let t = trimmed_start(s);
    if blank(s) {
        assert(t.len() == 0) by {
            if t.len() > 0 {
                let k = s.len() - t.len();
                assert(t[0] == s[k]);
            }
        }
    }
    if trimmed(s).len() == 0 {
        assert forall|i: int| 0 <= i < s.len() implies is_white(#[trigger] s[i]) by {
            let k = s.len() - t.len();
            if i >= k {
                assert(t[i - k] == s[i]);
            }
        }
    }
}

proof fn lemma_trimmed_start(s: Seq<char>)
    ensures
        trimmed_start(s).len() <= s.len(),
        trimmed_start(s) == s.skip(s.len() - trimmed_start(s).len()),
        trimmed_start(s).len() > 0 ==> !is_white(trimmed_start(s)[0]),
        forall|i: int| 0 <= i < s.len() - trimmed_start(s).len() ==> is_white(#[trigger] s[i]),
    decreases s.len(),
{
    if s.len() > 0 && is_white(s[0]) {
        let r = s.drop_first();
        lemma_trimmed_start(r);
        let k = r.len() - trimmed_start(r).len();
        assert(r.skip(k) =~= s.skip(k + 1));
        assert forall|i: int| 0 <= i < s.len() - trimmed_start(s).len() implies is_white(
            #[trigger] s[i],
        ) by {
            if i > 0 {
                assert(s[i] == r[i - 1]);
            }
        }
    } else {
        assert(s.skip(0) =~= s);
    }
}

proof fn lemma_trimmed_end(s: Seq<char>)
    ensures
        trimmed_end(s).len() <= s.len(),
        trimmed_end(s) == s.take(trimmed_end(s).len() as int),
        trimmed_end(s).len() > 0 ==> !is_white(trimmed_end(s).last()),
        forall|i: int| trimmed_end(s).len() <= i < s.len() ==> is_white(#[trigger] s[i]),
    decreases s.len(),
{
    if s.len() > 0 && is_white(s.last()) {
        let r = s.drop_last();
        lemma_trimmed_end(r);
        assert(r.take(trimmed_end(r).len() as int) =~= s.take(trimmed_end(r).len() as int));
        assert forall|i: int| trimmed_end(s).len() <= i < s.len() implies is_white(
            #[trigger] s[i],
        ) by {
            if i < s.len() - 1 {
                assert(s[i] == r[i]);
            }
        }
    } else {
        assert(s.take(s.len() as int) =~= s);
    }
}

/// Whether `s` holds nothing but white space.
pub fn is_blank(s: &str) -> (r: bool)
    ensures
        r == blank(s@),
        r == (trimmed(s@).len() == 0),
{
    proof {
        lemma_blank_trims_to_nothing(s@);
    }
    let v = chars_of(s);
    let mut i: usize = 0;
    while i < v.len()
        invariant
            i <= v.len(),
            v@ == s@,
            forall|k: int| 0 <= k < i ==> is_white(#[trigger] s@[k]),
            blank(s@) <==> trimmed(s@).len() == 0,
        decreases v.len() - i,
    {
        if !white(v[i]) {
            assert(!is_white(s@[i as int]));
            return false;
        }
        i += 1;
    }
    true
}

/// The character of a decimal digit.
pub fn digit_of(d: u64) -> (c: char)
    requires
        d < 10,
    ensures
        c == digit_char(d as nat),
        is_digit(c),
{
    match d {
        0 => '0',
        1 => '1',
        2 => '2',
        3 => '3',
        4 => '4',
        5 => '5',
        6 => '6',
        7 => '7',
        8 => '8',
        _ => '9',
    }
}

/// `n` written in decimal.
pub fn show_u128(n: u128) -> (s: String)
    ensures
        s@ == decimal(n as nat),
    decreases n,
{
    let mut s = if n < 10 {
        String::new()
    } else {
        show_u128(n / 10)
    };
    s.push(digit_of((n % 10) as u64));
    assert(n < 10 ==> s@ =~= decimal(n as nat));
    s
}

/// `n` written in decimal.
pub fn show_u64(n: u64) -> (s: String)
    ensures
        s@ == decimal(n as nat),
{
    show_u128(n as u128)
}

/// `n` written in decimal.
pub fn show_usize(n: usize) -> (s: String)
    ensures
        s@ == decimal(n as nat),
{
    show_u64(n as u64)
}

/// The number that `v` stands for, when it is decimal digits alone and no more
/// than `max`.
pub fn read_digits(v: &[char], max: u64) -> (r: Option<u64>)
    ensures
        r == (if all_digits(v@) && digits_value(v@) <= max {
            Some(digits_value(v@) as u64)
        } else {
            None
        }),
{
    if v.len() == 0 {
        return None;
    }
    let mut n: u64 = 0;
    let mut over = false;
    let mut i: usize = 0;
    while i < v.len()
        invariant
            i <= v.len(),
            v.len() > 0,
            forall|k: int| 0 <= k < i ==> is_digit(#[trigger] v@[k]),
            over ==> digits_value(v@.take(i as int)) > max,
            !over ==> n == digits_value(v@.take(i as int)) && n <= max,
        decreases v.len() - i,
    {
        let c = v[i];
        if !('0' <= c && c <= '9') {
            assert(!is_digit(v@[i as int]));
            return None;
        }
        let d: u64 = c as u64 - '0' as u64;
        assert(v@.take(i + 1).drop_last() =~= v@.take(i as int));
        if !over {
            let big: u128 = n as u128 * 10 + d as u128;
            if big > max as u128 {
                over = true;
            } else {
                n = big as u64;
            }
        }
        i += 1;
    }
    assert(v@.take(v@.len() as int) =~= v@);
    if over {
        None
    } else {
        Some(n)
    }
}

/// The number that `s` stands for, when it is decimal digits behind at most one
/// sign and fits in 64 bits.
pub fn read_i64(s: &str) -> (r: Option<i64>)
    ensures
        r == int_value(s@),
{
    let v = chars_of(s);
    let neg = v.len() > 0 && v[0] == '-';
    let from: usize = if neg || (v.len() > 0 && v[0] == '+') {
        1
    } else {
        0
    };
    let digits: &[char] = &v[from..v.len()];
    proof {
        assert(digits@ =~= sign_and_digits(s@).1);
    }
    match read_digits(digits, 0x8000_0000_0000_0000) {
        None => None,
        Some(n) => {
            if neg {
                Some((-(n as i128)) as i64)
            } else if n <= 0x7fff_ffff_ffff_ffff {
                Some(n as i64)
            } else {
                None
            }
        },
    }
}

/// Whether `a` comes before `b` in the order of their characters.
pub fn less(a: &str, b: &str) -> (r: bool)
    ensures
        r == lex_lt(a@, b@),
{
    let x = chars_of(a);
    let y = chars_of(b);
    let mut i: usize = 0;
    assert(x@.skip(0) =~= x@ && y@.skip(0) =~= y@);
    while i < x.len() && i < y.len()
        invariant
            i <= x.len(),
            i <= y.len(),
            x@ == a@,
            y@ == b@,
            lex_lt(a@, b@) == lex_lt(x@.skip(i as int), y@.skip(i as int)),
        decreases x.len() - i,
    {
        if x[i] != y[i] {
            return (x[i] as u32) < (y[i] as u32);
        }
        assert(x@.skip(i as int).drop_first() =~= x@.skip(i + 1));
        assert(y@.skip(i as int).drop_first() =~= y@.skip(i + 1));
        i += 1;
    }
    i < y.len()
}

/// Whether `p` starts `s`.
pub fn has_prefix(s: &str, p: &str) -> (r: bool)
    ensures
        r == starts_with(s@, p@),
{
    let v = chars_of(s);
    let w = chars_of(p);
    if w.len() > v.len() {
        return false;
    }
    assert(v@.subrange(0, w@.len() as int) =~= v@.take(w@.len() as int));
    same_chars(&v[0..w.len()], w.as_slice())
}

/// Whether `p` ends `s`.
pub fn has_suffix(s: &str, p: &str) -> (r: bool)
    ensures
        r == ends_with(s@, p@),
{
    let v = chars_of(s);
    let w = chars_of(p);
    if w.len() > v.len() {
        return false;
    }
    let k: usize = v.len() - w.len();
    assert(v@.subrange(k as int, v@.len() as int) =~= v@.skip(k as int));
    same_chars(&v[k..v.len()], w.as_slice())
}

proof fn lemma_next_of_front(a: Seq<char>, b: Seq<char>, sep: char, i: int)
    requires
        0 <= i <= a.len(),
        forall|k: int| 0 <= k < a.len() ==> #[trigger] a[k] != sep,
    ensures
        next_of(a + seq![sep] + b, sep, i) == a.len(),
{
    let s = a + seq![sep] + b;
    assert forall|k: int| i <= k < a.len() implies s[k] != sep by {
        assert(s[k] == a[k]);
    }
    lemma_next_of_is(s, sep, i, a.len() as int);
}

proof fn lemma_split_shift(a: Seq<char>, b: Seq<char>, sep: char, i: int)
    requires
        0 <= i <= b.len(),
    ensures
        split_from(a + b, sep, a.len() + i) == split_from(b, sep, i),
    decreases b.len() - i,
{
    let s = a + b;
    let n = next_of(b, sep, i);
    lemma_next_of(b, sep, i);
    assert forall|k: int| a.len() + i <= k < a.len() + n implies s[k] != sep by {
        assert(s[k] == b[k - a.len()]);
    }
    lemma_next_of_is(s, sep, a.len() + i, a.len() + n);
    if n < b.len() {
        assert(s.subrange(a.len() + i, a.len() + n) =~= b.subrange(i, n));
        lemma_split_shift(a, b, sep, n + 1);
    } else {
        assert(s.subrange(a.len() + i, s.len() as int) =~= b.subrange(i, b.len() as int));
    }
}

/// Parts joined by a separator that none of them holds split into the same
/// parts.
pub proof fn lemma_split_joined(parts: Seq<Seq<char>>, sep: char)
    requires
        parts.len() > 0,
        forall|i: int, k: int|
            #![trigger parts[i][k]]
            0 <= i < parts.len() && 0 <= k < parts[i].len() ==> parts[i][k] != sep,
    ensures
        split(joined(parts, seq![sep]), sep) == parts,
    decreases parts.len(),
{
    let s = joined(parts, seq![sep]);
    let a = parts[0];
    if parts.len() == 1 {
        lemma_next_of(a, sep, 0);
        assert forall|k: int| 0 <= k < a.len() implies a[k] != sep by {
            assert(parts[0][k] != sep);
        }
        lemma_next_of_is(a, sep, 0, a.len() as int);
        assert(a.subrange(0, a.len() as int) =~= a);
        assert(split(s, sep) =~= parts);
    } else {
        let rest = parts.drop_first();
        lemma_joined_front(parts, seq![sep]);
        let b = joined(rest, seq![sep]);
        assert(s == a + seq![sep] + b);
        assert forall|k: int| 0 <= k < a.len() implies #[trigger] a[k] != sep by {
            assert(parts[0][k] != sep);
        }
        lemma_next_of_front(a, b, sep, 0);
        assert(s.subrange(0, a.len() as int) =~= a);
        let head = a + seq![sep];
        assert(s =~= head + b);
        lemma_split_shift(head, b, sep, 0);
        assert forall|i: int, k: int|
            #![trigger rest[i][k]]
            0 <= i < rest.len() && 0 <= k < rest[i].len() implies rest[i][k] != sep by {
            assert(rest[i] == parts[i + 1]);
            assert(parts[i + 1][k] != sep);
        }
        lemma_split_joined(rest, sep);
        assert(split(s, sep) =~= parts);
    }
}

/// Joined parts begin with the first part, then the separator.
pub proof fn lemma_joined_front(parts: Seq<Seq<char>>, sep: Seq<char>)
    requires
        parts.len() >= 2,
    ensures
        joined(parts, sep) == parts[0] + sep + joined(parts.drop_first(), sep),
    decreases parts.len(),
{
    let rest = parts.drop_first();
    if parts.len() == 2 {
        assert(parts.drop_last() =~= seq![parts[0]]);
        assert(joined(parts.drop_last(), sep) == parts[0]);
        assert(joined(rest, sep) == parts[1]);
    } else {
        lemma_joined_front(parts.drop_last(), sep);
        assert(parts.drop_last().drop_first() =~= rest.drop_last());
        assert(joined(parts, sep) =~= parts[0] + sep + joined(rest, sep));
    }
}

/// A number in decimal is one or more digits, and they stand for it.
pub proof fn lemma_decimal(n: nat)
    ensures
        all_digits(decimal(n)),
        digits_value(decimal(n)) == n,
    decreases n,
{
    if n < 10 {
        let s = decimal(n);
        assert(s.drop_last() =~= seq![]);
        assert(digits_value(s.drop_last()) == 0);
        assert(s.last() == digit_char(n));
    } else {
        lemma_decimal(n / 10);
        let front = decimal(n / 10);
        let s = decimal(n);
        assert(s.drop_last() =~= front);
        assert forall|i: int| 0 <= i < s.len() implies is_digit(#[trigger] s[i]) by {
            if i < front.len() {
                assert(s[i] == front[i]);
            }
        }
    }
}

/// The first index at or after `i` that holds white space, or the length when
/// none does.
pub open spec fn word_end(s: Seq<char>, i: int) -> int
    decreases s.len() - i,
{
    if i >= s.len() {
        s.len() as int
    } else if is_white(s[i]) {
        i
    } else {
        word_end(s, i + 1)
    }
}

/// The words of `s` from `i` on.
pub open spec fn words_from(s: Seq<char>, i: int) -> Seq<Seq<char>>
    decreases s.len() - i,
    when 0 <= i <= s.len()
{
    let e = word_end(s, i);
    if i >= s.len() {
        seq![]
    } else if i < e <= s.len() {
        seq![s.subrange(i, e)] + words_from(s, e)
    } else {
        words_from(s, i + 1)
    }
}

/// The words of `s`: what stands between its white space.
pub open spec fn words(s: Seq<char>) -> Seq<Seq<char>> {
    words_from(s, 0)
}

/// The words of `s`: what stands between its white space.
pub fn split_words(s: &str) -> (r: Vec<String>)
    ensures
        texts(r@) == words(s@),
{
    let v = chars_of(s);
    let mut r: Vec<String> = Vec::new();
    let mut i: usize = 0;
    assert(texts(r@) + words_from(v@, 0) =~= words(v@));
    while i < v.len()
        invariant
            i <= v.len(),
            texts(r@) + words_from(v@, i as int) == words(v@),
        decreases v.len() - i,
    {
        let mut e: usize = i;
        while e < v.len() && !white(v[e])
            invariant
                i <= e <= v.len(),
                word_end(v@, i as int) == word_end(v@, e as int),
            decreases v.len() - e,
        {
            e += 1;
        }
        assert(word_end(v@, i as int) == e);
        if e == i {
            i += 1;
        } else {
            let ghost before = texts(r@);
            r.push(string_from(v.as_slice(), i, e));
            assert(texts(r@) =~= before.push(v@.subrange(i as int, e as int)));
            assert(texts(r@) + words_from(v@, e as int) =~= before + (seq![
                v@.subrange(i as int, e as int),
            ] + words_from(v@, e as int)));
            i = e;
        }
    }
    assert(texts(r@) + words_from(v@, v@.len() as int) =~= texts(r@));
    r
}

/// `s` without its trailing white space.
pub fn trim_end(s: &str) -> (r: String)
    ensures
        r@ == trimmed_end(s@),
{
    let v = chars_of(s);
    let mut j: usize = v.len();
    assert(v@.subrange(0, j as int) =~= v@);
    while j > 0 && white(v[j - 1])
        invariant
            j <= v.len(),
            trimmed_end(v@) == trimmed_end(v@.subrange(0, j as int)),
        decreases j,
    {
        assert(v@.subrange(0, j as int).drop_last() =~= v@.subrange(0, j - 1));
        j -= 1;
    }
    string_from(v.as_slice(), 0, j)
}

} // verus!
