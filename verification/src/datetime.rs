//! Timestamps for chart axes. Parses common ISO-8601 /
//! `yyyy-mm-dd[ T]HH:MM[:SS[.fff]][Z|±HH:MM]` strings to a day and a time (UTC)
//! and formats epoch seconds back to `yyyy-mm-dd HH:MM:SS`, so that charts can
//! plot a string timestamp column on a true time axis instead of by row order.

use vstd::prelude::*;

use crate::field::{rank, rank_bits, Rank, Readings};
use crate::text::{
    all_digits, chars_of, decimal, digits_value, find_char, int_value, is_digit, joined,
    lemma_decimal, lemma_next_of, lemma_next_of_is, lemma_split_joined, next_of, push_repeated,
    read_i64, repeated, show_u64, sign_and_digits, split, split_on, string_from, texts, trim,
    trimmed,
};

verus! {

/// Whether a year of the proleptic Gregorian calendar has a 29th of February.
pub open spec fn leap_year(y: int) -> bool {
    y % 4 == 0 && (y % 100 != 0 || y % 400 == 0)
}

/// The days before the first of a month, in its year.
pub open spec fn days_before_month(y: int, m: int) -> int {
    let leap = if leap_year(y) && m > 2 {
        1int
    } else {
        0int
    };
    leap + if m == 1 {
        0int
    } else if m == 2 {
        31
    } else if m == 3 {
        59
    } else if m == 4 {
        90
    } else if m == 5 {
        120
    } else if m == 6 {
        151
    } else if m == 7 {
        181
    } else if m == 8 {
        212
    } else if m == 9 {
        243
    } else if m == 10 {
        273
    } else if m == 11 {
        304
    } else {
        334
    }
}

/// The days from the first day of year one to the first day of year `y`: 365 for
/// each year between, and one more for each leap year.
pub open spec fn days_before_year(y: int) -> int {
    365 * (y - 1) + (y - 1) / 4 - (y - 1) / 100 + (y - 1) / 400
}

/// The days from 1970-01-01 to a date.
pub open spec fn day_number(y: int, m: int, d: int) -> int {
    days_before_year(y) - days_before_year(1970) + days_before_month(y, m) + d - 1
}

/// The days in a month.
pub open spec fn month_length(y: int, m: int) -> int {
    if m == 2 {
        if leap_year(y) {
            29
        } else {
            28
        }
    } else if m == 4 || m == 6 || m == 9 || m == 11 {
        30
    } else {
        31
    }
}

/// Whether there is such a date.
pub open spec fn is_date(y: int, m: int, d: int) -> bool {
    1 <= m <= 12 && 1 <= d <= month_length(y, m)
}

/// Days from the civil date to 1970-01-01 (proleptic Gregorian, no leap
/// seconds), by counting years from March in spans of 400 years.
pub fn days_from_civil(y: i64, m: i64, d: i64) -> (r: i128)
    requires
        1 <= m <= 12,
        1 <= d <= 31,
    ensures
        r == day_number(y as int, m as int, d as int),
{
    let y0: i128 = if m <= 2 {
        y as i128 - 1
    } else {
        y as i128
    };
    let era: i128 = if y0 >= 0 {
        y0 / 400
    } else {
        -((399 - y0) / 400)
    };
    let yoe: i128 = y0 - era * 400;
    assert(0 <= yoe < 400);
    let mp: i128 = if m > 2 {
        m as i128 - 3
    } else {
        m as i128 + 9
    };
    let doy: i128 = (153 * mp + 2) / 5 + d as i128 - 1;
    let doe: i128 = yoe * 365 + yoe / 4 - yoe / 100 + doy;
    proof {
        let a = y as int;
        let b = y0 as int;
        lemma_march_year(b, era as int, yoe as int);
        lemma_years(a);
    }
    era * 146097 + doe - 719468
}

proof fn lemma_step_4(y: int)
    ensures
        y / 4 - (y - 1) / 4 == (if y % 4 == 0 {
            1int
        } else {
            0
        }),
{
}

proof fn lemma_step_100(y: int)
    ensures
        y / 100 - (y - 1) / 100 == (if y % 100 == 0 {
            1int
        } else {
            0
        }),
{
}

proof fn lemma_step_400(y: int)
    ensures
        y / 400 - (y - 1) / 400 == (if y % 400 == 0 {
            1int
        } else {
            0
        }),
{
}

proof fn lemma_multiples(y: int)
    ensures
        y % 400 == 0 ==> y % 100 == 0,
        y % 100 == 0 ==> y % 4 == 0,
{
}

proof fn lemma_years(y: int)
    ensures
        y / 4 - (y - 1) / 4 == (if y % 4 == 0 {
            1int
        } else {
            0
        }),
        y / 100 - (y - 1) / 100 == (if y % 100 == 0 {
            1int
        } else {
            0
        }),
        y / 400 - (y - 1) / 400 == (if y % 400 == 0 {
            1int
        } else {
            0
        }),
        y % 400 == 0 ==> y % 100 == 0,
        y % 100 == 0 ==> y % 4 == 0,
{
    lemma_step_4(y);
    lemma_step_100(y);
    lemma_step_400(y);
    lemma_multiples(y);
}

/// The day of a 400-year span, counted in years from March: which of the 400
/// years it is in, and which day of that year.
proof fn lemma_year_of_era(doe: int, yoe: int, doy: int)
    requires
        0 <= doe < 146097,
        yoe == (doe - doe / 1460 + doe / 36524 - doe / 146096) / 365,
        doy == doe - (365 * yoe + yoe / 4 - yoe / 100),
    ensures
        0 <= yoe < 400,
        0 <= doy <= 365,
        doy == 365 ==> (yoe % 4 == 3 && (yoe % 100 != 99 || yoe == 399)),
{
    // Centuries of 36524 days, then spans of four years of 1461 days.
    let c = if doe == 146096 {
        3
    } else {
        doe / 36524
    };
    let r = doe - 36524 * c;
    assert(0 <= c <= 3);
    assert(0 <= r <= 36524);
    assert(doe / 1460 >= 25 * c);
    let q = r / 1461;
    let t = r - 1461 * q;
    assert(0 <= q <= 24);
    assert(0 <= t < 1461);
    assert(doe == 36524 * c + 1461 * q + t);
    let k = if t == 1460 {
        3
    } else {
        t / 365
    };
    assert(0 <= k <= 3);
    lemma_quotient(doe, c, q, t);
    assert(yoe == 100 * c + 4 * q + k);
    assert(yoe / 4 == 25 * c + q);
    assert(yoe / 100 == c);
}

proof fn lemma_quotient(doe: int, c: int, q: int, t: int)
    requires
        0 <= c <= 3,
        0 <= q <= 24,
        0 <= t < 1461,
        q == 24 && c < 3 ==> t < 1460,
        doe == 36524 * c + 1461 * q + t,
    ensures
        (doe - doe / 1460 + doe / 36524 - doe / 146096) / 365 == 100 * c + 4 * q + (if t == 1460 {
            3
        } else {
            t / 365
        }),
{
    let a = doe / 1460;
    let b = doe / 36524;
    let e = doe / 146096;
    assert(e == (if doe == 146096 {
        1int
    } else {
        0int
    }));
    // Each whole four-year span holds one day more than 1460.
    let x = 24 * c + q + t;
    assert(doe == 1460 * (25 * c + q) + x);
    assert(b == (if doe == 146096 {
        4int
    } else {
        c
    }));
    let n = doe - a + b - e;
    assert(a == 25 * c + q + x / 1460);
    assert(x / 1460 == 0 || x / 1460 == 1);
    assert(n == 36500 * c + 1460 * q + t - x / 1460 + (b - c) - e);
    assert(36500 * c + 1460 * q == 365 * (100 * c + 4 * q));
}

/// Where a month begins in a year counted from March.
spec fn march_start(mp: int) -> int {
    (153 * mp + 2) / 5
}

/// The longest that a month gets, in a year counted from March.
spec fn march_length(mp: int) -> int {
    if mp == 11 {
        29
    } else if mp == 1 || mp == 3 || mp == 6 || mp == 8 {
        30
    } else {
        31
    }
}

proof fn lemma_month_of_year(doy: int, mp: int, d: int)
    requires
        0 <= doy <= 365,
        mp == (5 * doy + 2) / 153,
        d == doy - (153 * mp + 2) / 5 + 1,
    ensures
        0 <= mp <= 11,
        1 <= d <= march_length(mp),
        mp == 11 ==> (d == 29 <==> doy == 365),
{
    assert(0 <= mp <= 11);
    assert(march_start(0) == 0);
    if mp == 0 {
    } else if mp == 1 {
    } else if mp == 2 {
    } else if mp == 3 {
    } else if mp == 4 {
    } else if mp == 5 {
    } else if mp == 6 {
    } else if mp == 7 {
    } else if mp == 8 {
    } else if mp == 9 {
    } else if mp == 10 {
    } else {
    }
}

proof fn lemma_march_4(b: int, era: int, yoe: int)
    requires
        b == yoe + era * 400,
    ensures
        b / 4 == 100 * era + yoe / 4,
        (b + 1) % 4 == (yoe + 1) % 4,
{
}

proof fn lemma_march_100(b: int, era: int, yoe: int)
    requires
        b == yoe + era * 400,
    ensures
        b / 100 == 4 * era + yoe / 100,
        (b + 1) % 100 == (yoe + 1) % 100,
{
}

proof fn lemma_march_400(b: int, era: int, yoe: int)
    requires
        0 <= yoe < 400,
        b == yoe + era * 400,
    ensures
        b / 400 == era,
        (b + 1) % 400 == (yoe + 1) % 400,
{
}

proof fn lemma_march_year(b: int, era: int, yoe: int)
    requires
        0 <= yoe < 400,
        b == yoe + era * 400,
    ensures
        b / 400 == era,
        b / 4 == 100 * era + yoe / 4,
        b / 100 == 4 * era + yoe / 100,
        (b + 1) % 4 == (yoe + 1) % 4,
        (b + 1) % 100 == (yoe + 1) % 100,
        (b + 1) % 400 == (yoe + 1) % 400,
{
    lemma_march_4(b, era, yoe);
    lemma_march_100(b, era, yoe);
    lemma_march_400(b, era, yoe);
}

proof fn lemma_date_of_parts(
    era: int,
    yoe: int,
    doy: int,
    mp: int,
    d: int,
    m: int,
    year: int,
)
    requires
        0 <= yoe < 400,
        0 <= doy <= 365,
        doy == 365 ==> (yoe % 4 == 3 && (yoe % 100 != 99 || yoe == 399)),
        0 <= mp <= 11,
        d == doy - march_start(mp) + 1,
        1 <= d <= march_length(mp),
        mp == 11 ==> (d == 29 <==> doy == 365),
        m == (if mp < 10 {
            mp + 3
        } else {
            mp - 9
        }),
        year == yoe + era * 400 + (if m <= 2 {
            1int
        } else {
            0int
        }),
    ensures
        is_date(year, m, d),
        day_number(year, m, d) == era * 146097 + (yoe * 365 + yoe / 4 - yoe / 100 + doy) - 719468,
{
    let b = yoe + era * 400;
    lemma_march_year(b, era, yoe);
    lemma_years(year);
    lemma_years(b);
    lemma_month_start(year, m, mp);
    assert(is_date(year, m, d)) by {
        if mp == 11 && d == 29 {
            assert(leap_year(year));
        }
    }
    assert(days_before_year(1970) == 719162) by {
        assert(1969int / 4 == 492 && 1969int / 100 == 19 && 1969int / 400 == 4);
    }
    if m <= 2 {
        assert(days_before_year(year) == 365 * b + b / 4 - b / 100 + b / 400);
    } else {
        assert(days_before_year(year) == 365 * (b - 1) + (b - 1) / 4 - (b - 1) / 100 + (b - 1)
            / 400);
    }
}

proof fn lemma_month_start(year: int, m: int, mp: int)
    requires
        0 <= mp <= 11,
        m == (if mp < 10 {
            mp + 3
        } else {
            mp - 9
        }),
    ensures
        m <= 2 ==> days_before_month(year, m) == march_start(mp) - 306,
        m > 2 ==> days_before_month(year, m) == march_start(mp) + 59 + (if leap_year(year) {
            1int
        } else {
            0int
        }),
        month_length(year, m) == (if mp == 11 && !leap_year(year) {
            28
        } else {
            march_length(mp)
        }),
{
    if mp == 0 {
    } else if mp == 1 {
    } else if mp == 2 {
    } else if mp == 3 {
    } else if mp == 4 {
    } else if mp == 5 {
    } else if mp == 6 {
    } else if mp == 7 {
    } else if mp == 8 {
    } else if mp == 9 {
    } else if mp == 10 {
    } else {
    }
}

/// Inverse of [`days_from_civil`]: civil `(y, m, d)` from days since 1970-01-01.
pub fn civil_from_days(z: i64) -> (r: (i64, i64, i64))
    ensures
        is_date(r.0 as int, r.1 as int, r.2 as int),
        day_number(r.0 as int, r.1 as int, r.2 as int) == z,
{
    let z0: i128 = z as i128 + 719468;
    let era: i128 = if z0 >= 0 {
        z0 / 146097
    } else {
        -((146096 - z0) / 146097)
    };
    let doe: i128 = z0 - era * 146097;
    assert(0 <= doe < 146097);
    let yoe: i128 = (doe - doe / 1460 + doe / 36524 - doe / 146096) / 365;
    let y: i128 = yoe + era * 400;
    let doy: i128 = doe - (365 * yoe + yoe / 4 - yoe / 100);
    proof {
        lemma_year_of_era(doe as int, yoe as int, doy as int);
    }
    let mp: i128 = (5 * doy + 2) / 153;
    let d: i128 = doy - (153 * mp + 2) / 5 + 1;
    let m: i128 = if mp < 10 {
        mp + 3
    } else {
        mp - 9
    };
    let year: i128 = if m <= 2 {
        y + 1
    } else {
        y
    };
    proof {
        lemma_month_of_year(doy as int, mp as int, d as int);
        lemma_date_of_parts(
            era as int,
            yoe as int,
            doy as int,
            mp as int,
            d as int,
            m as int,
            year as int,
        );
    }
    (year as i64, m as i64, d as i64)
}

/// A point in time: a day, a time of day, and how far the clock that showed it
/// was ahead of UTC. The seconds are the bits of a floating-point number.
pub struct Stamp {
    pub days: i128,
    pub hour: i64,
    pub minute: i64,
    pub second: u64,
    pub offset: i128,
}

/// What a timestamp says, its seconds still as they are written.
pub struct StampV {
    pub days: int,
    pub hour: int,
    pub minute: int,
    pub second: Option<Seq<char>>,
    pub offset: int,
}

/// The bits of the floating-point number 61.
pub const SIXTY_ONE: u64 = 0x404e_8000_0000_0000;

/// Where the first of two characters stands, or the length when neither does.
pub open spec fn first_of(s: Seq<char>, a: char, b: char) -> int {
    let i = next_of(s, a, 0);
    let j = next_of(s, b, 0);
    if i <= j {
        i
    } else {
        j
    }
}

/// The date at the front of a timestamp: all of it before the first `T` or
/// space.
pub open spec fn date_part(s: Seq<char>) -> Seq<char> {
    s.take(first_of(s, 'T', ' '))
}

/// The time behind the date, trimmed, or nothing.
pub open spec fn time_part(s: Seq<char>) -> Seq<char> {
    let i = first_of(s, 'T', ' ');
    if i < s.len() {
        trimmed(s.skip(i + 1))
    } else {
        seq![]
    }
}

/// The day of a `yyyy-mm-dd` date. The year has four characters or more, so that
/// a dash-separated category is not one.
pub open spec fn date_days(date: Seq<char>) -> Option<int> {
    let p = split(date, '-');
    if p.len() == 3 && p[0].len() >= 4 {
        match (int_value(p[0]), int_value(p[1]), int_value(p[2])) {
            (Some(y), Some(m), Some(d)) => if 1 <= m <= 12 && 1 <= d <= 31 {
                Some(day_number(y as int, m as int, d as int))
            } else {
                None
            },
            _ => None,
        }
    } else {
        None
    }
}

/// The clock reading and the zone of a time: a `Z` ends it, or a sign parts the
/// two, or there is no zone.
pub open spec fn clock_and_zone(rest: Seq<char>) -> (Seq<char>, Option<Seq<char>>) {
    let i = first_of(rest, '+', '-');
    if rest.last() == 'Z' || rest.last() == 'z' {
        (rest.drop_last(), None)
    } else if i < rest.len() {
        (rest.take(i), Some(rest.skip(i)))
    } else {
        (rest, None)
    }
}

/// The hours and minutes behind a zone's sign: `HH:MM`, `HHMM` or `HH`.
pub open spec fn zone_parts(body: Seq<char>) -> (Option<i64>, Option<i64>) {
    let i = next_of(body, ':', 0);
    if i < body.len() {
        (int_value(body.take(i)), int_value(body.skip(i + 1)))
    } else if body.len() == 4 {
        (int_value(body.take(2)), int_value(body.skip(2)))
    } else {
        (int_value(body), Some(0))
    }
}

/// The seconds that a zone is ahead of UTC.
pub open spec fn zone_offset(zone: Seq<char>) -> Option<int> {
    match zone_parts(zone.skip(1)) {
        (Some(h), Some(m)) => if zone[0] == '-' {
            Some(-(h * 3600 + m * 60))
        } else {
            Some(h * 3600 + m * 60)
        },
        _ => None,
    }
}

/// The hour, the minute and, where they are written, the seconds of a clock
/// reading.
pub open spec fn clock_parts(clock: Seq<char>) -> Option<(int, int, Option<Seq<char>>)> {
    let p = split(clock, ':');
    if p.len() == 2 || p.len() == 3 {
        match (int_value(p[0]), int_value(p[1])) {
            (Some(h), Some(m)) => if 0 <= h <= 23 && 0 <= m <= 59 {
                Some(
                    (
                        h as int,
                        m as int,
                        if p.len() == 3 {
                            Some(p[2])
                        } else {
                            None
                        },
                    ),
                )
            } else {
                None
            },
            _ => None,
        }
    } else {
        None
    }
}

/// What a timestamp says, when it is one.
pub open spec fn stamp_of(text: Seq<char>) -> Option<StampV> {
    let s = trimmed(text);
    let rest = time_part(s);
    match date_days(date_part(s)) {
        None => None,
        Some(days) => if rest.len() == 0 {
            Some(StampV { days, hour: 0, minute: 0, second: None, offset: 0 })
        } else {
            let (clock, zone) = clock_and_zone(rest);
            match (
                clock_parts(clock),
                match zone {
                    None => Some(0int),
                    Some(z) => zone_offset(z),
                },
            ) {
                (Some((hour, minute, second)), Some(offset)) => Some(
                    StampV { days, hour, minute, second, offset },
                ),
                _ => None,
            }
        },
    }
}

/// Whether a number is one of seconds: zero or more, and less than 61.
pub open spec fn seconds_fit(bits: u64) -> bool {
    (rank(0, bits) is Before || rank(0, bits) is Same) && rank(bits, SIXTY_ONE) is Before
}

fn first_char(v: &[char], a: char, b: char) -> (n: usize)
    ensures
        n == first_of(v@, a, b),
        n <= v.len(),
{
    let i = find_char(v, a, 0);
    let j = find_char(v, b, 0);
    if i <= j {
        i
    } else {
        j
    }
}

fn read_date(date: &str) -> (r: Option<i128>)
    ensures
        match r {
            Some(days) => date_days(date@) == Some(days as int),
            None => date_days(date@) is None,
        },
{
    let p = split_on(date, '-');
    assert(p.len() == split(date@, '-').len());
    if p.len() != 3 {
        return None;
    }
    assert(texts(p@)[0] == p@[0]@ && texts(p@)[1] == p@[1]@ && texts(p@)[2] == p@[2]@);
    if chars_of(p[0].as_str()).len() < 4 {
        return None;
    }
    match (read_i64(p[0].as_str()), read_i64(p[1].as_str()), read_i64(p[2].as_str())) {
        (Some(y), Some(m), Some(d)) => if 1 <= m && m <= 12 && 1 <= d && d <= 31 {
            Some(days_from_civil(y, m, d))
        } else {
            None
        },
        _ => None,
    }
}

fn read_zone(zone: &[char]) -> (r: Option<i128>)
    requires
        zone.len() > 0,
    ensures
        match r {
            Some(offset) => zone_offset(zone@) == Some(offset as int),
            None => zone_offset(zone@) is None,
        },
{
    let body: &[char] = &zone[1..zone.len()];
    assert(body@ =~= zone@.skip(1));
    let i = find_char(body, ':', 0);
    let (h, m): (Option<i64>, Option<i64>) = if i < body.len() {
        assert(body@.subrange(0, i as int) =~= body@.take(i as int));
        assert(body@.subrange(i + 1, body@.len() as int) =~= body@.skip(i + 1));
        (
            read_i64(string_from(body, 0, i).as_str()),
            read_i64(string_from(body, i + 1, body.len()).as_str()),
        )
    } else if body.len() == 4 {
        assert(body@.subrange(0, 2) =~= body@.take(2));
        assert(body@.subrange(2, 4) =~= body@.skip(2));
        (
            read_i64(string_from(body, 0, 2).as_str()),
            read_i64(string_from(body, 2, 4).as_str()),
        )
    } else {
        assert(body@.subrange(0, body@.len() as int) =~= body@);
        (read_i64(string_from(body, 0, body.len()).as_str()), Some(0))
    };
    assert((h, m) == zone_parts(zone@.skip(1)));
    match (h, m) {
        (Some(h), Some(m)) => {
            let ahead: i128 = h as i128 * 3600 + m as i128 * 60;
            if zone[0] == '-' {
                Some(-ahead)
            } else {
                Some(ahead)
            }
        },
        _ => None,
    }
}

fn read_clock(clock: &str) -> (r: Option<(i64, i64, Option<String>)>)
    ensures
        match r {
            Some((h, m, s)) => {
                &&& 0 <= h <= 23
                &&& 0 <= m <= 59
                &&& clock_parts(clock@) == Some((h as int, m as int, crate::text::opt_text(s)))
            },
            None => clock_parts(clock@) is None,
        },
{
    let p = split_on(clock, ':');
    assert(p.len() == split(clock@, ':').len());
    if p.len() != 2 && p.len() != 3 {
        return None;
    }
    assert(texts(p@)[0] == p@[0]@ && texts(p@)[1] == p@[1]@);
    match (read_i64(p[0].as_str()), read_i64(p[1].as_str())) {
        (Some(h), Some(m)) => if 0 <= h && h <= 23 && 0 <= m && m <= 59 {
            if p.len() == 3 {
                assert(texts(p@)[2] == p@[2]@);
                let t = p[2].as_str().to_string();
                Some((h, m, Some(t)))
            } else {
                Some((h, m, None))
            }
        } else {
            None
        },
        _ => None,
    }
}

/// What a timestamp says, with its seconds as they are written: the day, the
/// hour, the minute, the seconds and the offset from UTC.
pub fn read_stamp(s: &str) -> (r: Option<(i128, i64, i64, Option<String>, i128)>)
    ensures
        match r {
            Some((days, hour, minute, second, offset)) => stamp_of(s@) == Some(
                (StampV {
                    days: days as int,
                    hour: hour as int,
                    minute: minute as int,
                    second: crate::text::opt_text(second),
                    offset: offset as int,
                }),
            ),
            None => stamp_of(s@) is None,
        },
{
    let s = trim(s);
    let v = chars_of(s.as_str());
    let i = first_char(v.as_slice(), 'T', ' ');
    let date = string_from(v.as_slice(), 0, i);
    assert(date@ =~= date_part(v@));
    let rest = if i < v.len() {
        let behind = string_from(v.as_slice(), i + 1, v.len());
        assert(behind@ =~= v@.skip(i + 1));
        trim(behind.as_str())
    } else {
        String::new()
    };
    assert(rest@ =~= time_part(v@));
    let days: i128 = match read_date(date.as_str()) {
        None => {
            return None;
        },
        Some(days) => days,
    };
    let w = chars_of(rest.as_str());
    if w.len() == 0 {
        return Some((days, 0, 0, None, 0));
    }
    let last = w[w.len() - 1];
    let cut = first_char(w.as_slice(), '+', '-');
    let zulu = last == 'Z' || last == 'z';
    let clock = if zulu {
        string_from(w.as_slice(), 0, w.len() - 1)
    } else {
        string_from(w.as_slice(), 0, cut)
    };
    assert(clock@ =~= clock_and_zone(w@).0);
    let offset: i128 = if !zulu && cut < w.len() {
        let zone: &[char] = &w[cut..w.len()];
        assert(zone@ =~= w@.skip(cut as int));
        match read_zone(zone) {
            None => {
                return None;
            },
            Some(offset) => offset,
        }
    } else {
        0
    };
    match read_clock(clock.as_str()) {
        None => None,
        Some((hour, minute, second)) => Some((days, hour, minute, second, offset)),
    }
}

/// Parse a timestamp, or `None` if `s` isn't a recognizable date/time (so
/// non-temporal columns fall through to other handling). Accepts `yyyy-mm-dd`,
/// optionally followed by `T`/space and `HH:MM[:SS[.fff]]`, optionally followed
/// by `Z` or `±HH:MM`/`±HHMM`/`±HH`. A naive time (no zone) is treated as UTC.
/// The year must be ≥4 digits so a dash-separated category (`a-b-c`) isn't
/// mistaken for a date. The seconds read as `readings` has them.
pub fn parse_epoch(s: &str, readings: &Readings) -> (r: Option<Stamp>)
    ensures
        match stamp_of(s@) {
            None => r is None,
            Some(p) => match p.second {
                None => r == Some(
                    (Stamp {
                        days: p.days as i128,
                        hour: p.hour as i64,
                        minute: p.minute as i64,
                        second: 0,
                        offset: p.offset as i128,
                    }),
                ),
                Some(t) => if readings@.contains_key(t) && seconds_fit(readings@[t].bits) {
                    r == Some(
                        (Stamp {
                            days: p.days as i128,
                            hour: p.hour as i64,
                            minute: p.minute as i64,
                            second: readings@[t].bits,
                            offset: p.offset as i128,
                        }),
                    )
                } else {
                    r is None
                },
            },
        },
        r matches Some(st) ==> {
            &&& st.days == stamp_of(s@)->0.days
            &&& st.hour == stamp_of(s@)->0.hour
            &&& st.minute == stamp_of(s@)->0.minute
            &&& st.offset == stamp_of(s@)->0.offset
        },
{
    match read_stamp(s) {
        None => None,
        Some((days, hour, minute, second, offset)) => match second {
            None => Some(Stamp { days, hour, minute, second: 0, offset }),
            Some(t) => match readings.read(t.as_str()) {
                None => None,
                Some(n) => {
                    let low = match rank_bits(0, n.bits) {
                        Rank::Before | Rank::Same => true,
                        _ => false,
                    };
                    let high = match rank_bits(n.bits, SIXTY_ONE) {
                        Rank::Before => true,
                        _ => false,
                    };
                    if low && high {
                        Some(Stamp { days, hour, minute, second: n.bits, offset })
                    } else {
                        None
                    }
                },
            },
        },
    }
}

/// A number in decimal, with zeros before its digits to fill `width`
/// characters.
pub open spec fn padded(n: int, width: int) -> Seq<char> {
    let sign: Seq<char> = if n < 0 {
        seq!['-']
    } else {
        seq![]
    };
    let digits = decimal(if n < 0 {
        (-n) as nat
    } else {
        n as nat
    });
    let fill = width - sign.len() - digits.len();
    sign + repeated(
        '0',
        if fill > 0 {
            fill as nat
        } else {
            0
        },
    ) + digits
}

/// A date and a time of day as text.
pub open spec fn shown_time(y: int, m: int, d: int, rem: int) -> Seq<char> {
    padded(y, 4) + seq!['-'] + padded(m, 2) + seq!['-'] + padded(d, 2) + seq![' '] + padded(
        rem / 3600,
        2,
    ) + seq![':'] + padded((rem % 3600) / 60, 2) + seq![':'] + padded(rem % 60, 2)
}

fn pad(n: i64, width: usize) -> (r: String)
    ensures
        r@ == padded(n as int, width as int),
{
    let m: u64 = if n < 0 {
        (-(n as i128)) as u64
    } else {
        n as u64
    };
    let digits = show_u64(m);
    let count: usize = chars_of(digits.as_str()).len();
    let mut r = String::new();
    let used: usize = if n < 0 {
        r.push('-');
        1
    } else {
        0
    };
    let ghost sign = r@;
    if width > used && width - used > count {
        push_repeated(&mut r, '0', width - used - count);
        assert(r@ =~= sign + repeated('0', (width - used - count) as nat));
    } else {
        assert(r@ =~= sign + repeated('0', 0));
    }
    r.append(digits.as_str());
    r
}

/// Format epoch seconds (UTC) as `yyyy-mm-dd HH:MM:SS`, for chart axis labels.
pub fn format_epoch(total: i64) -> (r: String)
    ensures
        exists|y: int, m: int, d: int|
            is_date(y, m, d) && #[trigger] day_number(y, m, d) == (total as int) / 86400 && r@
                == shown_time(y, m, d, (total as int) % 86400),
{
    let days: i64 = if total >= 0 {
        total / 86400
    } else {
        -(((86399 - total as i128) / 86400) as i64)
    };
    assert(days == (total as int) / 86400);
    let rem: i64 = (total as i128 - days as i128 * 86400) as i64;
    assert(rem == (total as int) % 86400);
    let (y, m, d) = civil_from_days(days);
    let mut r = pad(y, 4);
    r.push('-');
    r.append(pad(m, 2).as_str());
    r.push('-');
    r.append(pad(d, 2).as_str());
    r.push(' ');
    r.append(pad(rem / 3600, 2).as_str());
    r.push(':');
    r.append(pad((rem % 3600) / 60, 2).as_str());
    r.push(':');
    r.append(pad(rem % 60, 2).as_str());
    proof {
        assert(r@ =~= shown_time(y as int, m as int, d as int, rem as int));
        assert(day_number(y as int, m as int, d as int) == (total as int) / 86400);
    }
    r
}

proof fn lemma_years_in_order(a: int, b: int)
    requires
        a < b,
    ensures
        days_before_year(a) + 365 + (if leap_year(a) {
            1int
        } else {
            0int
        }) <= days_before_year(b),
    decreases b - a,
{
    if b == a + 1 {
        lemma_years(a);
    } else {
        lemma_years_in_order(a, b - 1);
        lemma_years_in_order(b - 1, b);
    }
}

proof fn lemma_months_in_order(y: int, a: int, b: int)
    requires
        1 <= a < b <= 12,
    ensures
        days_before_month(y, a) + month_length(y, a) <= days_before_month(y, b),
    decreases b - a,
{
    if b > a + 1 {
        lemma_months_in_order(y, a, b - 1);
    }
}

proof fn lemma_dates_in_order(y1: int, m1: int, d1: int, y2: int, m2: int, d2: int)
    requires
        is_date(y1, m1, d1),
        is_date(y2, m2, d2),
        y1 < y2 || (y1 == y2 && m1 < m2),
    ensures
        day_number(y1, m1, d1) < day_number(y2, m2, d2),
{
    if y1 < y2 {
        lemma_years_in_order(y1, y2);
        if m1 < 12 {
            lemma_months_in_order(y1, m1, 12);
        }
        if m2 > 1 {
            lemma_months_in_order(y2, 1, m2);
        }
    } else {
        lemma_months_in_order(y1, m1, m2);
    }
}

/// Two dates with the same day number are the same date: what
/// [`civil_from_days`] gives is the one date with that number, so it undoes
/// [`days_from_civil`].
pub proof fn law_dates_are_told_apart(y1: int, m1: int, d1: int, y2: int, m2: int, d2: int)
    requires
        is_date(y1, m1, d1),
        is_date(y2, m2, d2),
        day_number(y1, m1, d1) == day_number(y2, m2, d2),
    ensures
        y1 == y2 && m1 == m2 && d1 == d2,
{
    if y1 < y2 || (y1 == y2 && m1 < m2) {
        lemma_dates_in_order(y1, m1, d1, y2, m2, d2);
    }
    if y2 < y1 || (y2 == y1 && m2 < m1) {
        lemma_dates_in_order(y2, m2, d2, y1, m1, d1);
    }
}

proof fn lemma_zeros_before(k: nat, s: Seq<char>)
    ensures
        digits_value(repeated('0', k) + s) == digits_value(s),
    decreases k + s.len(),
{
    let z = repeated('0', k) + s;
    if s.len() > 0 {
        assert(z.drop_last() =~= repeated('0', k) + s.drop_last());
        lemma_zeros_before(k, s.drop_last());
    } else if k > 0 {
        assert(z.drop_last() =~= repeated('0', (k - 1) as nat) + s);
        lemma_zeros_before((k - 1) as nat, s);
    } else {
        assert(z =~= s);
    }
}

proof fn lemma_padded(n: int, width: int)
    requires
        0 <= n <= i64::MAX,
    ensures
        all_digits(padded(n, width)),
        padded(n, width).len() >= width,
        int_value(padded(n, width)) == Some(n as i64),
{
    let s = padded(n, width);
    let digits = decimal(n as nat);
    lemma_decimal(n as nat);
    let fill: nat = if width - digits.len() > 0 {
        (width - digits.len()) as nat
    } else {
        0
    };
    assert(s =~= repeated('0', fill) + digits);
    lemma_zeros_before(fill, digits);
    assert forall|i: int| 0 <= i < s.len() implies is_digit(#[trigger] s[i]) by {
        if i >= fill {
            assert(s[i] == digits[i - fill]);
        }
    }
    assert(is_digit(s[0]));
    assert(sign_and_digits(s) == (false, s));
}

proof fn lemma_three_parts(a: Seq<char>, b: Seq<char>, c: Seq<char>, sep: char)
    requires
        all_digits(a),
        all_digits(b),
        all_digits(c),
        !is_digit(sep),
    ensures
        split(a + seq![sep] + b + seq![sep] + c, sep) == seq![a, b, c],
{
    let parts = seq![a, b, c];
    assert forall|i: int, k: int|
        #![trigger parts[i][k]]
        0 <= i < parts.len() && 0 <= k < parts[i].len() implies parts[i][k] != sep by {
        assert(is_digit(parts[i][k]));
    }
    lemma_split_joined(parts, sep);
    reveal_with_fuel(joined, 3);
    assert(parts.drop_last() =~= seq![a, b]);
    assert(parts.drop_last().drop_last() =~= seq![a]);
    assert(joined(parts, seq![sep]) =~= a + seq![sep] + b + seq![sep] + c);
}

proof fn lemma_in_three_parts(a: Seq<char>, b: Seq<char>, c: Seq<char>, sep: char, k: int)
    requires
        all_digits(a),
        all_digits(b),
        all_digits(c),
        0 <= k < (a + seq![sep] + b + seq![sep] + c).len(),
    ensures
        is_digit((a + seq![sep] + b + seq![sep] + c)[k]) || (a + seq![sep] + b + seq![sep] + c)[k]
            == sep,
{
    let s = a + seq![sep] + b + seq![sep] + c;
    let i = a.len() as int;
    let j = i + 1 + b.len();
    if k < i {
        assert(s[k] == a[k]);
    } else if i < k < j {
        assert(s[k] == b[k - i - 1]);
    } else if k > j {
        assert(s[k] == c[k - j - 1]);
    }
}

/// A date and a time that are written out read back as they were, for years that
/// are not before year zero.
#[verifier::spinoff_prover]
#[verifier::rlimit(60)]
pub proof fn law_shown_times_read_back(y: int, m: int, d: int, rem: int)
    requires
        0 <= y <= i64::MAX,
        is_date(y, m, d),
        0 <= rem < 86400,
    ensures
        stamp_of(shown_time(y, m, d, rem)) == Some(
            (StampV {
                days: day_number(y, m, d),
                hour: rem / 3600,
                minute: (rem % 3600) / 60,
                second: Some(padded(rem % 60, 2)),
                offset: 0,
            }),
        ),
{
    let (ys, ms, ds) = (padded(y, 4), padded(m, 2), padded(d, 2));
    let (hs, mis, ss) = (padded(rem / 3600, 2), padded((rem % 3600) / 60, 2), padded(rem % 60, 2));
    lemma_padded(y, 4);
    lemma_padded(m, 2);
    lemma_padded(d, 2);
    lemma_padded(rem / 3600, 2);
    lemma_padded((rem % 3600) / 60, 2);
    lemma_padded(rem % 60, 2);
    let date = ys + seq!['-'] + ms + seq!['-'] + ds;
    let clock = hs + seq![':'] + mis + seq![':'] + ss;
    let s = shown_time(y, m, d, rem);
    assert(s =~= date + seq![' '] + clock);
    lemma_three_parts(ys, ms, ds, '-');
    lemma_three_parts(hs, mis, ss, ':');
    assert(is_digit(ys[0]) && s[0] == ys[0]);
    assert(is_digit(ss.last()) && s.last() == ss.last());
    assert(trimmed(s) == s);
    assert forall|k: int| 0 <= k < s.len() && k != date.len() implies s[k] != 'T' && s[k]
        != ' ' by {
        if k < date.len() {
            lemma_in_three_parts(ys, ms, ds, '-', k);
        } else {
            lemma_in_three_parts(hs, mis, ss, ':', k - date.len() - 1);
        }
    }
    lemma_next_of_is(s, ' ', 0, date.len() as int);
    lemma_next_of(s, 'T', 0);
    assert(first_of(s, 'T', ' ') == date.len());
    assert(s.take(date.len() as int) =~= date);
    assert(s.skip(date.len() as int + 1) =~= clock);
    assert(is_digit(hs[0]) && clock[0] == hs[0]);
    assert(clock.last() == ss.last());
    assert(trimmed(clock) == clock);
    assert forall|k: int| 0 <= k < clock.len() implies clock[k] != '+' && clock[k] != '-' by {
        lemma_in_three_parts(hs, mis, ss, ':', k);
    }
    lemma_next_of_is(clock, '+', 0, clock.len() as int);
    lemma_next_of_is(clock, '-', 0, clock.len() as int);
}

} // verus!
