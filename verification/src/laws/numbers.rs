//! How numbers are shown, read and ordered, and how days are counted.

use crate::datetime::{
    clock_and_zone, clock_parts, date_days, day_number, days_before_month, days_before_year,
    first_of, is_date, leap_year, month_length, padded, shown_time, stamp_of, zone_offset,
};
use crate::field::{Rank, is_nan, nearest, place, rank, top_bit, whole_bits, whole_view};
use crate::text::{
    all_digits, count_of, decimal, digit_char, digits_value, int_value, is_digit, is_white, joined,
    lemma_next_of, lemma_split_joined, next_of, repeated, trimmed,
};
use vstd::arithmetic::power2::{lemma2_to64, lemma_pow2_pos, lemma_pow2_unfold, pow2};
use vstd::prelude::*;

verus! {

/// A number is shown in its digits: they read as the number, and none is a zero that
/// could be left out.
pub proof fn law_a_number_is_shown_in_its_digits(n: nat)
    ensures
        all_digits(decimal(n)),
        digits_value(decimal(n)) == n,
        decimal(n).len() > 1 ==> decimal(n)[0] != '0',
        n <= i64::MAX ==> int_value(decimal(n)) == Some(n as i64),
    decreases n,
{
    lemma_digits(n);
    let d = decimal(n);
    assert(is_digit(d[0]));
}

proof fn lemma_digits(n: nat)
    ensures
        all_digits(decimal(n)),
        digits_value(decimal(n)) == n,
        decimal(n).len() > 1 ==> decimal(n)[0] != '0',
        n > 0 ==> decimal(n)[0] != '0',
    decreases n,
{
    let d = decimal(n);
    if n < 10 {
        assert(d.drop_last() =~= Seq::<char>::empty());
        assert(digits_value(d.drop_last()) == 0);
        assert(d.last() == digit_char(n));
    } else {
        let front = decimal(n / 10);
        lemma_digits(n / 10);
        assert(d =~= front.push(digit_char(n % 10)));
        assert(d.drop_last() =~= front);
        assert forall|i: int| 0 <= i < d.len() implies is_digit(#[trigger] d[i]) by {
            if i < front.len() {
                assert(d[i] == front[i]);
            }
        }
        assert(d[0] == front[0]);
    }
}

/// The opposite of a number stands as far on the other side of zero: the smaller of two
/// numbers has the larger opposite, and a number below zero comes before one above.
pub proof fn law_opposites_stand_the_other_way(a: u64, b: u64)
    requires
        a < 0x8000_0000_0000_0000,
        b < 0x8000_0000_0000_0000,
        !is_nan(a),
        !is_nan(b),
    ensures
        ({
            let sign: u64 = 0x8000_0000_0000_0000;
            let (x, y) = ((a + sign) as u64, (b + sign) as u64);
            &&& rank(a, b) == Rank::Before <==> a < b
            &&& rank(a, b) == Rank::Same <==> a == b
            &&& rank(x, y) == rank(b, a)
            &&& a > 0 || b > 0 ==> rank(x, b) == Rank::Before
            &&& rank(0, sign) == Rank::Same
        }),
{
}

/// What is not a number has no place in the order of numbers.
pub proof fn law_what_is_no_number_stands_apart(a: u64, b: u64)
    ensures
        rank(a, b) == Rank::Apart <==> (is_nan(a) || is_nan(b)),
        rank(a, b) == Rank::Before <==> rank(b, a) == Rank::After,
        rank(a, b) == Rank::Same <==> rank(b, a) == Rank::Same,
        is_nan(a) <==> a as int % 0x8000_0000_0000_0000 > 0x7ff0_0000_0000_0000,
{
}

proof fn lemma_top(n: nat)
    requires
        n > 0,
    ensures
        pow2(top_bit(n)) <= n < 2 * pow2(top_bit(n)),
    decreases n,
{
    if n <= 1 {
        lemma2_to64();
    } else {
        lemma_top(n / 2);
        lemma_pow2_unfold(top_bit(n));
    }
}

proof fn lemma_exact(n: nat, e: nat) -> (f: nat)
    requires
        n > 0,
        e == top_bit(n),
        e <= 52,
    ensures
        f == pow2((52 - e) as nat),
        nearest(n * 0x10_0000_0000_0000, pow2(e)) == n * f,
        pow2(e) * f == 0x10_0000_0000_0000,
{
    let f = pow2((52 - e) as nat);
    let p = pow2(e);
    lemma_pow2_pos(e);
    vstd::arithmetic::power2::lemma_pow2_adds(e, (52 - e) as nat);
    vstd::arithmetic::power2::lemma2_to64_rest();
    assert(p * f == 0x10_0000_0000_0000);
    assert((n * f) * p == n * 0x10_0000_0000_0000) by (nonlinear_arith)
        requires
            p * f == 0x10_0000_0000_0000,
    ;
    vstd::arithmetic::div_mod::lemma_fundamental_div_mod_converse(
        (n * 0x10_0000_0000_0000) as int,
        p as int,
        (n * f) as int,
        0,
    );
    f
}

proof fn lemma_whole_range(n: nat, e: nat, f: nat)
    requires
        n > 0,
        e == top_bit(n),
        e <= 52,
        f == pow2((52 - e) as nat),
        pow2(e) * f == 0x10_0000_0000_0000,
        nearest(n * 0x10_0000_0000_0000, pow2(e)) == n * f,
    ensures
        0x10_0000_0000_0000 <= n * f < 0x20_0000_0000_0000,
        whole_bits(n) == (1022 + e) * 0x10_0000_0000_0000 + n * f,
{
    lemma_top(n);
    lemma_pow2_pos((52 - e) as nat);
    let p = pow2(e);
    assert(p * f <= n * f < 2 * (p * f)) by (nonlinear_arith)
        requires
            p <= n < 2 * p,
            f > 0,
    ;
}

/// Whole numbers, as far as a double has all of their digits, are ordered by their value:
/// a smaller count comes before a larger one.
pub proof fn law_whole_numbers_are_ordered_by_value(a: nat, b: nat)
    requires
        a < b,
        b > 0 ==> top_bit(b) <= 52,
        a > 0 ==> top_bit(a) <= 52,
    ensures
        rank(whole_view(a).bits, whole_view(b).bits) == Rank::Before,
        whole_view(a).text == decimal(a),
{
    let (d, fb) = (top_bit(b), lemma_exact(b, top_bit(b)));
    lemma_whole_range(b, d, fb);
    assert(whole_bits(b) < 0x7ff0_0000_0000_0000);
    if a > 0 {
        let (e, fa) = (top_bit(a), lemma_exact(a, top_bit(a)));
        lemma_whole_range(a, e, fa);
        lemma_top(a);
        lemma_top(b);
        if e == d {
            lemma_pow2_pos((52 - e) as nat);
            assert(a * fa < b * fa) by (nonlinear_arith)
                requires
                    a < b,
                    fa > 0,
            ;
        } else if d < e {
            vstd::arithmetic::power2::lemma_pow2_strictly_increases(d, e);
            if d + 1 < e {
                vstd::arithmetic::power2::lemma_pow2_strictly_increases(d + 1, e);
            }
            lemma_pow2_unfold(d + 1);
        }
        assert(whole_bits(a) < whole_bits(b));
    }
}

/// The day after a date has the next number, over the ends of months and years; and the
/// first day of 1970 has the number zero.
pub proof fn law_the_next_day_has_the_next_number(y: int, m: int, d: int)
    requires
        is_date(y, m, d),
    ensures
        day_number(1970, 1, 1) == 0,
        is_date(y, m, d + 1) ==> day_number(y, m, d + 1) == day_number(y, m, d) + 1,
        !is_date(y, m, d + 1) && m < 12 ==> day_number(y, m + 1, 1) == day_number(y, m, d) + 1,
        !is_date(y, m, d + 1) && m == 12 ==> day_number(y + 1, 1, 1) == day_number(y, m, d) + 1,
{
    if m == 12 && d == 31 {
        assert(days_before_year(y + 1) - days_before_year(y) == 365 + if leap_year(y) {
            1int
        } else {
            0int
        }) by {
            let z = y - 1;
            assert((z + 1) / 4 - z / 4 == if y % 4 == 0 {
                1int
            } else {
                0int
            });
            assert((z + 1) / 100 - z / 100 == if y % 100 == 0 {
                1int
            } else {
                0int
            });
            assert((z + 1) / 400 - z / 400 == if y % 400 == 0 {
                1int
            } else {
                0int
            });
        }
    }
}

/// Months have the days they have, February one more in a leap year: one that four
/// divides, but not a hundred, or four hundred does.
pub proof fn law_months_have_their_days(y: int, m: int)
    requires
        1 <= m <= 12,
    ensures
        28 <= month_length(y, m) <= 31,
        m == 2 ==> (month_length(y, m) == 29 <==> (y % 400 == 0 || (y % 4 == 0 && y % 100 != 0))),
        m == 2 ==> (month_length(y, m) == 28 || month_length(y, m) == 29),
        m == 4 || m == 6 || m == 9 || m == 11 ==> month_length(y, m) == 30,
        m == 1 || m == 3 || m == 5 || m == 7 || m == 8 || m == 10 || m == 12 ==> month_length(y, m)
            == 31,
        m < 12 ==> days_before_month(y, m + 1) == days_before_month(y, m) + month_length(y, m),
{
}

/// A zone west of Greenwich is behind by as much as one east of it is ahead.
pub proof fn law_zones_are_ahead_or_behind(body: Seq<char>)
    ensures
        match zone_offset(seq!['+'] + body) {
            Some(s) => zone_offset(seq!['-'] + body) == Some(-s),
            None => zone_offset(seq!['-'] + body) is None,
        },
{
    assert((seq!['+'] + body).skip(1) =~= body);
    assert((seq!['-'] + body).skip(1) =~= body);
}

/// The hours and minutes of a zone may have a colon between them or not, and the minutes
/// may be left out.
pub proof fn law_zones_may_leave_out_the_colon(h: Seq<char>, m: Seq<char>, hours: i64, minutes: i64)
    requires
        h.len() == 2,
        m.len() == 2,
        all_digits(h),
        all_digits(m),
        int_value(h) == Some(hours),
        int_value(m) == Some(minutes),
    ensures
        zone_offset(seq!['+'] + h + seq![':'] + m) == Some(hours * 3600 + minutes * 60),
        zone_offset(seq!['+'] + h + m) == Some(hours * 3600 + minutes * 60),
        zone_offset(seq!['+'] + h) == Some(hours * 3600),
{
    assert(is_digit(h[0]) && is_digit(h[1]) && is_digit(m[0]) && is_digit(m[1]));
    let a = h + seq![':'] + m;
    assert((seq!['+'] + h + seq![':'] + m).skip(1) =~= a);
    lemma_next_of(a, ':', 0);
    assert(a[2] == ':');
    assert(next_of(a, ':', 0) == 2) by {
        let n = next_of(a, ':', 0);
        if n < 2 {
            assert(a[n] == h[n]);
        }
        if n > 2 {
            assert(a[2] != ':');
        }
    }
    assert(a.take(2) =~= h);
    assert(a.skip(3) =~= m);
    let b = h + m;
    assert((seq!['+'] + h + m).skip(1) =~= b);
    lemma_next_of(b, ':', 0);
    assert(next_of(b, ':', 0) == 4) by {
        let n = next_of(b, ':', 0);
        if n < 4 {
            assert(b[n] == if n < 2 {
                h[n]
            } else {
                m[n - 2]
            });
        }
    }
    assert(b.take(2) =~= h);
    assert(b.skip(2) =~= m);
    assert((seq!['+'] + h).skip(1) =~= h);
    lemma_next_of(h, ':', 0);
    assert(next_of(h, ':', 0) == 2) by {
        let n = next_of(h, ':', 0);
        if n < 2 {
            assert(h[n] == ':');
        }
    }
}

/// A number of a date or a time is filled up with zeros from the left, and keeps its
/// value.
pub proof fn law_padding_keeps_the_value(n: nat, width: nat)
    ensures
        padded(n as int, width as int).len() >= width,
        padded(n as int, width as int).len() == width || padded(n as int, width as int) == decimal(
            n,
        ),
        all_digits(padded(n as int, width as int)),
        digits_value(padded(n as int, width as int)) == n,
{
    law_a_number_is_shown_in_its_digits(n);
    let d = decimal(n);
    let fill = width - d.len();
    let k: nat = if fill > 0 {
        fill as nat
    } else {
        0
    };
    let p = padded(n as int, width as int);
    assert(p =~= repeated('0', k) + d);
    lemma_zeros(k, d);
    assert forall|i: int| 0 <= i < p.len() implies is_digit(#[trigger] p[i]) by {
        if i >= k {
            assert(p[i] == d[i - k]);
        }
    }
}

proof fn lemma_zeros(k: nat, d: Seq<char>)
    ensures
        digits_value(repeated('0', k) + d) == digits_value(d),
    decreases d.len(), k,
{
    let p = repeated('0', k) + d;
    if d.len() > 0 {
        lemma_zeros(k, d.drop_last());
        assert(p.drop_last() =~= repeated('0', k) + d.drop_last());
    } else if k > 0 {
        lemma_zeros((k - 1) as nat, d);
        assert(p.drop_last() =~= repeated('0', (k - 1) as nat) + d);
    } else {
        assert(p =~= d);
    }
}

/// Texts put together with something between them: one is itself, and each further one
/// stands behind the separator.
pub proof fn law_separators_stand_between(parts: Seq<Seq<char>>, last: Seq<char>, sep: Seq<char>)
    ensures
        joined(seq![], sep) == Seq::<char>::empty(),
        joined(seq![last], sep) == last,
        parts.len() > 0 ==> joined(parts.push(last), sep) == joined(parts, sep) + sep + last,
{
    assert(parts.push(last).drop_last() =~= parts);
}

/// The whole number nearest to a fraction is no further from it than half, and of two
/// that are as near it is the even one.
pub proof fn law_nearest_is_no_further_than_half(a: nat, d: nat)
    requires
        d > 0,
    ensures
        ({
            let n = nearest(a, d);
            let off = n * d - a;
            &&& -(d as int) <= 2 * off <= d
            &&& 2 * off == d || 2 * off == -(d as int) ==> n % 2 == 0
        }),
{
    let (q, r) = (a / d, a % d);
    assert(a == q * d + r) by (nonlinear_arith)
        requires
            q == a / d,
            r == a % d,
            d > 0,
    ;
    assert((q + 1) * d == q * d + d) by (nonlinear_arith);
}

/// A time is shown from the year to the second, each part filled up with zeros.
pub proof fn law_times_are_shown_from_year_to_second(y: int, m: int, d: int, rem: int)
    requires
        0 <= rem < 86400,
    ensures
        exists|hour: int, minute: int, second: int|
            {
                &&& 0 <= hour < 24
                &&& 0 <= minute < 60
                &&& 0 <= second < 60
                &&& hour * 3600 + minute * 60 + second == rem
                &&& shown_time(y, m, d, rem) == padded(y, 4) + seq!['-'] + padded(m, 2) + seq!['-']
                    + padded(d, 2) + seq![' '] + #[trigger] padded(hour, 2) + seq![':']
                    + #[trigger] padded(minute, 2) + seq![':'] + #[trigger] padded(second, 2)
            },
{
    let (h, mi, s) = (rem / 3600, (rem % 3600) / 60, rem % 60);
    assert(h * 3600 + mi * 60 + s == rem);
    assert(shown_time(y, m, d, rem) == padded(y, 4) + seq!['-'] + padded(m, 2) + seq!['-'] + padded(
        d,
        2,
    ) + seq![' '] + padded(h, 2) + seq![':'] + padded(mi, 2) + seq![':'] + padded(s, 2));
}

proof fn lemma_first(a: Seq<char>, c: char, b: Seq<char>)
    requires
        c == 'T' || c == ' ',
        forall|i: int| 0 <= i < a.len() ==> #[trigger] a[i] != 'T' && a[i] != ' ',
    ensures
        first_of(a + seq![c] + b, 'T', ' ') == a.len(),
{
    let s = a + seq![c] + b;
    let n = a.len() as int;
    lemma_next_of(s, 'T', 0);
    lemma_next_of(s, ' ', 0);
    let (i, j) = (next_of(s, 'T', 0), next_of(s, ' ', 0));
    assert(s[n] == c);
    if i < n {
        assert(s[i] == a[i]);
    }
    if j < n {
        assert(s[j] == a[j]);
    }
    if c == 'T' && i > n {
        assert(s[n] != 'T');
    }
    if c == ' ' && j > n {
        assert(s[n] != ' ');
    }
}

/// The date and the time of a stamp may have a `T` between them or a space.
pub proof fn law_a_stamp_may_have_a_space(date: Seq<char>, time: Seq<char>)
    requires
        date.len() > 0,
        time.len() > 0,
        !is_white(date[0]),
        !is_white(time.last()),
        forall|i: int| 0 <= i < date.len() ==> #[trigger] date[i] != 'T' && date[i] != ' ',
    ensures
        stamp_of(date + seq!['T'] + time) == stamp_of(date + seq![' '] + time),
{
    let a = date + seq!['T'] + time;
    let b = date + seq![' '] + time;
    lemma_first(date, 'T', time);
    lemma_first(date, ' ', time);
    assert(a[0] == date[0] && b[0] == date[0]);
    assert(a.last() == time.last() && b.last() == time.last());
    assert(trimmed(a) == a && trimmed(b) == b);
    let n = date.len() as int;
    assert(a.take(n) =~= date && b.take(n) =~= date);
    assert(a.skip(n + 1) =~= time && b.skip(n + 1) =~= time);
}

/// A date is its year, month and day, in that order, with dashes between them.
pub proof fn law_a_date_is_year_month_day(y: Seq<char>, m: Seq<char>, d: Seq<char>)
    requires
        all_digits(y),
        all_digits(m),
        all_digits(d),
        y.len() >= 4,
        digits_value(y) <= i64::MAX,
        1 <= digits_value(m) <= 12,
        1 <= digits_value(d) <= 31,
    ensures
        date_days(y + seq!['-'] + m + seq!['-'] + d) == Some(
            day_number(digits_value(y) as int, digits_value(m) as int, digits_value(d) as int),
        ),
{
    let parts = seq![y, m, d];
    let s = y + seq!['-'] + m + seq!['-'] + d;
    assert forall|i: int, k: int|
        #![trigger parts[i][k]]
        0 <= i < parts.len() && 0 <= k < parts[i].len() implies parts[i][k] != '-' by {
        if i == 0 {
            assert(is_digit(y[k]));
        } else if i == 1 {
            assert(is_digit(m[k]));
        } else {
            assert(is_digit(d[k]));
        }
    }
    lemma_split_joined(parts, '-');
    reveal_with_fuel(joined, 4);
    assert(parts.drop_last() =~= seq![y, m]);
    assert(parts.drop_last().drop_last() =~= seq![y]);
    assert(joined(parts, seq!['-']) =~= s);
    assert(is_digit(y[0]) && is_digit(m[0]) && is_digit(d[0]));
}

/// The clock of a time may have a zone behind it: a `Z` for none, or a sign and how far
/// it is off.
pub proof fn law_a_zone_stands_behind_the_clock(clock: Seq<char>, sign: char, body: Seq<char>)
    requires
        clock.len() > 0,
        forall|i: int| 0 <= i < clock.len() ==> #[trigger] clock[i] != '+' && clock[i] != '-',
        clock.last() != 'Z' && clock.last() != 'z',
        sign == '+' || sign == '-',
        body.len() > 0,
        body.last() != 'Z' && body.last() != 'z',
    ensures
        clock_and_zone(clock) == (clock, None::<Seq<char>>),
        clock_and_zone(clock.push('Z')) == (clock, None::<Seq<char>>),
        clock_and_zone(clock.push('z')) == (clock, None::<Seq<char>>),
        clock_and_zone(clock + seq![sign] + body) == (clock, Some(seq![sign] + body)),
{
    assert(clock.push('Z').drop_last() =~= clock);
    assert(clock.push('z').drop_last() =~= clock);
    lemma_next_of(clock, '+', 0);
    lemma_next_of(clock, '-', 0);
    let s = clock + seq![sign] + body;
    let n = clock.len() as int;
    lemma_next_of(s, '+', 0);
    lemma_next_of(s, '-', 0);
    let (i, j) = (next_of(s, '+', 0), next_of(s, '-', 0));
    assert(s[n] == sign);
    if i < n {
        assert(s[i] == clock[i]);
    }
    if j < n {
        assert(s[j] == clock[j]);
    }
    if sign == '+' && i > n {
        assert(s[n] != '+');
    }
    if sign == '-' && j > n {
        assert(s[n] != '-');
    }
    assert(s.last() == body.last());
    assert(s.take(n) =~= clock);
    assert(s.skip(n) =~= seq![sign] + body);
}

/// A clock is its hours and minutes, and seconds if it has them, with colons between.
pub proof fn law_a_clock_is_hours_minutes_seconds(h: Seq<char>, m: Seq<char>, s: Seq<char>)
    requires
        all_digits(h),
        all_digits(m),
        digits_value(h) <= 23,
        digits_value(m) <= 59,
        forall|i: int| 0 <= i < s.len() ==> #[trigger] s[i] != ':',
    ensures
        clock_parts(h + seq![':'] + m) == Some(
            (digits_value(h) as int, digits_value(m) as int, None::<Seq<char>>),
        ),
        clock_parts(h + seq![':'] + m + seq![':'] + s) == Some(
            (digits_value(h) as int, digits_value(m) as int, Some(s)),
        ),
{
    assert(is_digit(h[0]) && is_digit(m[0]));
    let two = seq![h, m];
    let three = seq![h, m, s];
    assert forall|i: int, k: int|
        #![trigger three[i][k]]
        0 <= i < three.len() && 0 <= k < three[i].len() implies three[i][k] != ':' by {
        if i == 0 {
            assert(is_digit(h[k]));
        } else if i == 1 {
            assert(is_digit(m[k]));
        } else {
            assert(s[k] != ':');
        }
    }
    assert forall|i: int, k: int|
        #![trigger two[i][k]]
        0 <= i < two.len() && 0 <= k < two[i].len() implies two[i][k] != ':' by {
        assert(three[i][k] != ':');
    }
    lemma_split_joined(two, ':');
    lemma_split_joined(three, ':');
    reveal_with_fuel(joined, 4);
    assert(two.drop_last() =~= seq![h]);
    assert(three.drop_last() =~= two);
    assert(joined(two, seq![':']) =~= h + seq![':'] + m);
    assert(joined(three, seq![':']) =~= h + seq![':'] + m + seq![':'] + s);
}

/// Characters are counted one by one.
pub proof fn law_characters_are_counted_one_by_one(s: Seq<char>, c: char)
    ensures
        count_of(s, c) == s.filter(|x: char| x == c).len(),
    decreases s.len(),
{
    reveal(Seq::filter);
    if s.len() > 0 {
        law_characters_are_counted_one_by_one(s.drop_last(), c);
    }
}

/// Of the plain characters just the space and the control characters from the tab to the
/// carriage return are white.
pub proof fn law_plain_white_space(c: char)
    requires
        (c as u32) < 0x80,
    ensures
        is_white(c) <==> c == ' ' || 9 <= c as u32 <= 13,
{
}

} // verus!
