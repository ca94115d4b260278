//! Civil dates of the proleptic Gregorian calendar, numbered by the days since
//! 1970-01-01, and ranges of them.
use crate::number;
use crate::text;
use vstd::arithmetic::div_mod::lemma_mod_multiples_vanish;
use vstd::prelude::*;

verus! {

pub open spec fn is_leap(y: int) -> bool {
    y % 4 == 0 && (y % 100 != 0 || y % 400 == 0)
}

pub open spec fn days_in_month(y: int, m: int) -> int {
    if m == 2 {
        if is_leap(y) {
            29
        } else {
            28
        }
    } else if m == 4 || m == 6 || m == 9 || m == 11 {
        30
    } else {
        31
    }
}

/// A date that stands in the calendar.
pub open spec fn is_civil(y: int, m: int, d: int) -> bool {
    1 <= m <= 12 && 1 <= d <= days_in_month(y, m)
}

/// Division that rounds towards zero.
pub open spec fn quotient(a: int, b: int) -> int {
    if a >= 0 {
        a / b
    } else {
        -((-a) / b)
    }
}

/// The number of a date: days since 1970-01-01. The year is counted from March,
/// so that the leap day is its last; a day that its month does not have counts
/// on into the next month.
pub open spec fn day_number(y: int, m: int, d: int) -> int {
    let year = if m <= 2 {
        y - 1
    } else {
        y
    };
    let month = if m > 2 {
        m - 3
    } else {
        m + 9
    };
    365 * year + year / 4 - year / 100 + year / 400 + quotient(153 * month + 2, 5) + d - 1
        - 719468
}

/// The days of year `y` before the first of month `m`.
pub open spec fn days_before_month(y: int, m: int) -> int
    decreases m,
{
    if m <= 1 {
        0
    } else {
        days_before_month(y, m - 1) + days_in_month(y, m - 1)
    }
}

/// The date that has the given number.
pub open spec fn civil_of(z: int) -> (int, int, int) {
    choose|t: (int, int, int)| is_civil(t.0, t.1, t.2) && #[trigger] day_number(t.0, t.1, t.2) == z
}

/// The date of the day after.
pub open spec fn next_day(t: (int, int, int)) -> (int, int, int) {
    if t.2 < days_in_month(t.0, t.1) {
        (t.0, t.1, t.2 + 1)
    } else if t.1 < 12 {
        (t.0, t.1 + 1, 1)
    } else {
        (t.0 + 1, 1, 1)
    }
}

// ---------------------------------------------------------------------------
// Arithmetic

#[verifier::spinoff_prover]
proof fn lemma_era(y: int, era: int)
    requires
        era == y / 400,
    ensures
        ({
            let yoe = y - era * 400;
            &&& 0 <= yoe < 400
            &&& 365 * y + y / 4 - y / 100 + y / 400 == era * 146097 + yoe * 365 + yoe / 4 - yoe
                / 100
        }),
{
    let yoe = y - era * 400;
    assert(y / 4 == 100 * era + yoe / 4);
    assert(y / 100 == 4 * era + yoe / 100);
}

/// The year of an era from the day of the era, where the day is given by the
/// century, the cycle of four years, the year of the cycle and the day.
#[verifier::spinoff_prover]
proof fn lemma_year_of_era_forward(a: int, b: int, c: int, doy: int)
    requires
        0 <= a <= 3,
        0 <= b <= 24,
        0 <= c <= 3,
        0 <= doy <= 365,
        doy == 365 ==> c == 3 && (b < 24 || a == 3),
    ensures
        ({
            let y = 100 * a + 4 * b + c;
            let doe = 365 * y + y / 4 - y / 100 + doy;
            &&& 0 <= doe <= 146096
            &&& (doe - doe / 1460 + doe / 36524 - doe / 146096) / 365 == y
        }),
{
    let y = 100 * a + 4 * b + c;
    assert(y / 100 == a);
    assert(y / 4 == 25 * a + b);
    let doe = 36524 * a + 1461 * b + 365 * c + doy;
    assert(doe == 365 * y + y / 4 - y / 100 + doy);
    let over = 24 * a + b + 365 * c + doy;
    let e: int = if over >= 1460 {
        1
    } else {
        0
    };
    assert(doe / 1460 == 25 * a + b + e);
    if doe == 146096 {
        assert(doe / 36524 == 4);
        assert(doe / 146096 == 1);
        assert(a == 3);
    } else {
        assert(doe / 36524 == a);
        assert(doe / 146096 == 0);
    }
    assert(doe - doe / 1460 + doe / 36524 - doe / 146096 == 365 * y + doy - e);
}

#[verifier::spinoff_prover]
proof fn lemma_year_of_era(doe: int)
    requires
        0 <= doe <= 146096,
    ensures
        ({
            let yoe = (doe - doe / 1460 + doe / 36524 - doe / 146096) / 365;
            let doy = doe - (365 * yoe + yoe / 4 - yoe / 100);
            &&& 0 <= yoe < 400
            &&& 0 <= doy <= 365
            &&& doy == 365 ==> is_leap(yoe + 1)
        }),
{
    let a: int = if doe / 36524 > 3 {
        3
    } else {
        doe / 36524
    };
    let r1 = doe - 36524 * a;
    let b = r1 / 1461;
    let r2 = r1 - 1461 * b;
    let c: int = if r2 / 365 > 3 {
        3
    } else {
        r2 / 365
    };
    let doy = r2 - 365 * c;
    lemma_year_of_era_forward(a, b, c, doy);
    let y = 100 * a + 4 * b + c;
    assert(y / 100 == a);
    assert(y / 4 == 25 * a + b);
}

#[verifier::spinoff_prover]
proof fn lemma_month(doy: int)
    requires
        0 <= doy <= 365,
    ensures
        ({
            let mp = (5 * doy + 2) / 153;
            let d = doy - (153 * mp + 2) / 5 + 1;
            &&& 0 <= mp <= 11
            &&& 1 <= d
            &&& mp < 11 ==> d <= days_in_month(0, if mp < 10 {
                mp + 3
            } else {
                mp - 9
            })
            &&& mp == 11 ==> d <= 29 && (d == 29 <==> doy == 365)
        }),
{
    let mp = (5 * doy + 2) / 153;
    let s = (153 * mp + 2) / 5;
    if mp == 0 {
        assert(s == 0);
    } else if mp == 1 {
        assert(s == 31);
    } else if mp == 2 {
        assert(s == 61);
    } else if mp == 3 {
        assert(s == 92);
    } else if mp == 4 {
        assert(s == 122);
    } else if mp == 5 {
        assert(s == 153);
    } else if mp == 6 {
        assert(s == 184);
    } else if mp == 7 {
        assert(s == 214);
    } else if mp == 8 {
        assert(s == 245);
    } else if mp == 9 {
        assert(s == 275);
    } else if mp == 10 {
        assert(s == 306);
    } else {
        assert(s == 337);
    }
}

#[verifier::spinoff_prover]
proof fn lemma_leap_in_era(year: int, era: int)
    ensures
        is_leap(year + 400 * era) == is_leap(year),
{
    lemma_mod_multiples_vanish(100 * era, year, 4);
    lemma_mod_multiples_vanish(4 * era, year, 100);
    lemma_mod_multiples_vanish(era, year, 400);
}

/// The year as it is counted from January, where `y` counts from March.
spec fn january_year(y: int, m: int) -> int {
    if m <= 2 {
        y + 1
    } else {
        y
    }
}

/// The month as it is counted from January, where `mp` counts from March.
spec fn january_month(mp: int) -> int {
    if mp < 10 {
        mp + 3
    } else {
        mp - 9
    }
}

/// The date that is put together from era, year of the era and day of the year.
#[verifier::spinoff_prover]
proof fn lemma_assemble(era: int, yoe: int, doy: int, mp: int, d: int)
    requires
        0 <= yoe < 400,
        0 <= doy <= 365,
        doy == 365 ==> is_leap(yoe + 1),
        mp == (5 * doy + 2) / 153,
        d == doy - (153 * mp + 2) / 5 + 1,
    ensures
        ({
            let m = january_month(mp);
            let y = january_year(yoe + 400 * era, m);
            &&& is_civil(y, m, d)
            &&& day_number(y, m, d) == era * 146097 + (yoe * 365 + yoe / 4 - yoe / 100 + doy)
                - 719468
        }),
{
    lemma_month(doy);
    let year = yoe + 400 * era;
    let m = january_month(mp);
    assert(year / 400 == era);
    lemma_era(year, era);
    lemma_leap_in_era(yoe + 1, era);
    assert(quotient(153 * mp + 2, 5) == (153 * mp + 2) / 5);
    assert(day_number(january_year(year, m), m, d) == 365 * year + year / 4 - year / 100 + year
        / 400 + (153 * mp + 2) / 5 + d - 1 - 719468);
    if mp < 11 {
        assert(days_in_month(january_year(year, m), m) == days_in_month(0, m));
    }
}

/// The number of the date, if it fits the type.
#[verifier::spinoff_prover]
pub fn checked_days_from_civil(y: i64, m: i64, d: i64) -> (r: Option<i64>)
    ensures
        match r {
            Some(n) => n == day_number(y as int, m as int, d as int),
            None => !(i64::MIN <= day_number(y as int, m as int, d as int) <= i64::MAX),
        },
{
    let y1: i128 = if m <= 2 {
        y as i128 - 1
    } else {
        y as i128
    };
    let era: i128 = (if y1 >= 0 {
        y1
    } else {
        y1 - 399
    }) / 400;
    proof {
        assert(era == y1 as int / 400);
        lemma_era(y1 as int, era as int);
    }
    let yoe: i128 = y1 - era * 400;
    let mp: i128 = if m > 2 {
        m as i128 - 3
    } else {
        m as i128 + 9
    };
    let doy: i128 = (153 * mp + 2) / 5 + d as i128 - 1;
    let doe: i128 = yoe * 365 + yoe / 4 - yoe / 100 + doy;
    let n: i128 = era * 146097 + doe - 719468;
    if i64::MIN as i128 <= n && n <= i64::MAX as i128 {
        Some(n as i64)
    } else {
        None
    }
}

/// The number of the date: days since 1970-01-01.
pub fn days_from_civil(y: i64, m: i64, d: i64) -> (r: i64)
    requires
        i64::MIN <= day_number(y as int, m as int, d as int) <= i64::MAX,
    ensures
        r == day_number(y as int, m as int, d as int),
{
    checked_days_from_civil(y, m, d).unwrap()
}

/// The date with the given number of days since 1970-01-01.
#[verifier::spinoff_prover]
pub fn civil_from_days(z: i64) -> (r: (i64, i64, i64))
    ensures
        is_civil(r.0 as int, r.1 as int, r.2 as int),
        day_number(r.0 as int, r.1 as int, r.2 as int) == z,
{
    let z1: i128 = z as i128 + 719468;
    let era: i128 = (if z1 >= 0 {
        z1
    } else {
        z1 - 146096
    }) / 146097;
    let doe: i128 = z1 - era * 146097;
    proof {
        assert(era == z1 as int / 146097);
        lemma_year_of_era(doe as int);
    }
    let yoe: i128 = (doe - doe / 1460 + doe / 36524 - doe / 146096) / 365;
    let y: i128 = yoe + era * 400;
    let doy: i128 = doe - (365 * yoe + yoe / 4 - yoe / 100);
    let mp: i128 = (5 * doy + 2) / 153;
    let d: i128 = doy - (153 * mp + 2) / 5 + 1;
    let m: i128 = if mp < 10 {
        mp + 3
    } else {
        mp - 9
    };
    let y1: i128 = if m <= 2 {
        y + 1
    } else {
        y
    };
    proof {
        lemma_assemble(era as int, yoe as int, doy as int, mp as int, d as int);
    }
    (y1 as i64, m as i64, d as i64)
}

// ---------------------------------------------------------------------------
// Laws of the numbering

/// The multiples of 4, of 100 and of 400 up to a year, and up to the year before.
#[verifier::spinoff_prover]
proof fn lemma_multiples(y: int)
    ensures
        y / 4 == (y - 1) / 4 + if y % 4 == 0 {
            1int
        } else {
            0int
        },
        y / 100 == (y - 1) / 100 + if y % 100 == 0 {
            1int
        } else {
            0int
        },
        y / 400 == (y - 1) / 400 + if y % 400 == 0 {
            1int
        } else {
            0int
        },
{
}

#[verifier::spinoff_prover]
proof fn lemma_divisors(y: int)
    ensures
        y % 400 == 0 ==> y % 100 == 0,
        y % 100 == 0 ==> y % 4 == 0,
{
}

/// The leap days up to the end of a year, and up to the end of the year before.
proof fn lemma_leap_days(y: int)
    ensures
        ({
            let p = y - 1;
            y / 4 - y / 100 + y / 400 == p / 4 - p / 100 + p / 400 + if is_leap(y) {
                1int
            } else {
                0int
            }
        }),
{
    lemma_multiples(y);
    lemma_divisors(y);
}

/// Inside a year the number counts the days of the months before, and then the
/// day; day numbers run on over the end of a month.
#[verifier::spinoff_prover]
pub proof fn law_number_within_year(y: int, m: int, d: int)
    requires
        1 <= m <= 12,
    ensures
        day_number(y, m, d) == day_number(y, 1, 1) + days_before_month(y, m) + d - 1,
{
    reveal_with_fuel(days_before_month, 13);
    lemma_leap_days(y);
}

/// A year has 366 days if it is a leap year and 365 if not.
pub proof fn law_year_length(y: int)
    ensures
        day_number(y + 1, 1, 1) - day_number(y, 1, 1) == if is_leap(y) {
            366int
        } else {
            365int
        },
{
    lemma_leap_days(y);
}

/// The days are numbered one after the other.
#[verifier::spinoff_prover]
pub proof fn law_next_day(t: (int, int, int))
    requires
        is_civil(t.0, t.1, t.2),
    ensures
        ({
            let n = next_day(t);
            &&& is_civil(n.0, n.1, n.2)
            &&& day_number(n.0, n.1, n.2) == day_number(t.0, t.1, t.2) + 1
        }),
{
    let n = next_day(t);
    law_number_within_year(t.0, t.1, t.2);
    law_number_within_year(n.0, n.1, n.2);
    law_year_length(t.0);
    reveal_with_fuel(days_before_month, 13);
}

proof fn lemma_later_year(y1: int, y2: int)
    requires
        y1 < y2,
    ensures
        day_number(y1, 1, 1) + 365 <= day_number(y2, 1, 1),
    decreases y2 - y1,
{
    law_year_length(y2 - 1);
    if y1 < y2 - 1 {
        lemma_later_year(y1, y2 - 1);
    }
}

proof fn lemma_within_year_bounds(y: int, m: int, d: int)
    requires
        is_civil(y, m, d),
    ensures
        day_number(y, 1, 1) <= day_number(y, m, d) < day_number(y + 1, 1, 1),
{
    law_number_within_year(y, m, d);
    law_year_length(y);
    reveal_with_fuel(days_before_month, 13);
}

/// No two dates of the calendar have the same number.
#[verifier::spinoff_prover]
pub proof fn law_number_identifies_date(t: (int, int, int), u: (int, int, int))
    requires
        is_civil(t.0, t.1, t.2),
        is_civil(u.0, u.1, u.2),
        day_number(t.0, t.1, t.2) == day_number(u.0, u.1, u.2),
    ensures
        t == u,
{
    lemma_within_year_bounds(t.0, t.1, t.2);
    lemma_within_year_bounds(u.0, u.1, u.2);
    if t.0 + 1 < u.0 {
        lemma_later_year(t.0 + 1, u.0);
    }
    if u.0 + 1 < t.0 {
        lemma_later_year(u.0 + 1, t.0);
    }
    assert(t.0 == u.0);
    law_number_within_year(t.0, t.1, t.2);
    law_number_within_year(u.0, u.1, u.2);
    reveal_with_fuel(days_before_month, 13);
}

/// Every number is that of a date.
pub proof fn law_every_number_has_date(z: int)
    ensures
        is_civil(civil_of(z).0, civil_of(z).1, civil_of(z).2),
        day_number(civil_of(z).0, civil_of(z).1, civil_of(z).2) == z,
{
    let z1 = z + 719468;
    let era = z1 / 146097;
    let doe = z1 - era * 146097;
    lemma_year_of_era(doe);
    let yoe = (doe - doe / 1460 + doe / 36524 - doe / 146096) / 365;
    let y = yoe + era * 400;
    let doy = doe - (365 * yoe + yoe / 4 - yoe / 100);
    let mp = (5 * doy + 2) / 153;
    let d = doy - (153 * mp + 2) / 5 + 1;
    lemma_assemble(era, yoe, doy, mp, d);
    let m = january_month(mp);
    let t = (january_year(y, m), m, d);
    assert(is_civil(t.0, t.1, t.2) && day_number(t.0, t.1, t.2) == z);
}

/// A date is found again from its number.
pub proof fn law_date_from_its_number(y: int, m: int, d: int)
    requires
        is_civil(y, m, d),
    ensures
        civil_of(day_number(y, m, d)) == (y, m, d),
{
    let z = day_number(y, m, d);
    law_every_number_has_date(z);
    law_number_identifies_date(civil_of(z), (y, m, d));
}

/// The date of the next number is the next day.
pub proof fn law_next_number_is_next_day(z: int)
    ensures
        civil_of(z + 1) == next_day(civil_of(z)),
{
    law_every_number_has_date(z);
    law_next_day(civil_of(z));
    let n = next_day(civil_of(z));
    law_date_from_its_number(n.0, n.1, n.2);
}

// ---------------------------------------------------------------------------
// Dates as text

/// A date written as `YYYY-MM-DD`.
pub open spec fn date_text(y: int, m: int, d: int) -> Seq<char> {
    number::padded(y, 4) + seq!['-'] + number::padded(m, 2) + seq!['-'] + number::padded(d, 2)
}

/// The date with the given number, written as `YYYY-MM-DD`.
pub open spec fn day_text(z: int) -> Seq<char> {
    date_text(civil_of(z).0, civil_of(z).1, civil_of(z).2)
}

/// Reads `YYYY-MM-DD`: three integers, the month from 1 to 12, the day from 1
/// to 31.
pub open spec fn read_date(s: Seq<char>) -> Result<(int, int, int), Seq<char>> {
    let parts = text::split_on(s, '-');
    if parts.len() != 3 {
        Err("bad date: "@ + s + "; expected YYYY-MM-DD"@)
    } else {
        match (number::read_i64(parts[0]), number::read_i64(parts[1]), number::read_i64(parts[2])) {
            (Err(e), _, _) => Err("bad year in "@ + s + ": "@ + e.message()),
            (_, Err(e), _) => Err("bad month in "@ + s + ": "@ + e.message()),
            (_, _, Err(e)) => Err("bad day in "@ + s + ": "@ + e.message()),
            (Ok(y), Ok(m), Ok(d)) => if 1 <= m <= 12 && 1 <= d <= 31 {
                Ok((y, m, d))
            } else {
                Err("bad date range: "@ + s)
            },
        }
    }
}

fn blame(head: &str, s: &str, e: &number::IntError) -> (r: String)
    ensures
        r@ == head@ + s@ + ": "@ + e.message(),
{
    let mut r = head.to_owned();
    r.append(s);
    r.append(": ");
    r.append(e.text());
    r
}

/// Reads `YYYY-MM-DD`.
pub fn parse_date(s: &str) -> (r: Result<(i64, i64, i64), String>)
    ensures
        match r {
            Ok(t) => read_date(s@) == Ok::<(int, int, int), Seq<char>>(
                (t.0 as int, t.1 as int, t.2 as int),
            ),
            Err(e) => read_date(s@) == Err::<(int, int, int), Seq<char>>(e@),
        },
{
    let parts = text::split_text(s, '-');
    assert(parts@.len() == text::texts(parts@).len());
    if parts.len() != 3 {
        let mut e = "bad date: ".to_owned();
        e.append(s);
        e.append("; expected YYYY-MM-DD");
        return Err(e);
    }
    assert(text::texts(parts@)[0] == parts@[0]@);
    assert(text::texts(parts@)[1] == parts@[1]@);
    assert(text::texts(parts@)[2] == parts@[2]@);
    let y: i64 = match number::parse_i64(parts[0].as_str()) {
        Ok(n) => n,
        Err(e) => return Err(blame("bad year in ", s, &e)),
    };
    let m: i64 = match number::parse_i64(parts[1].as_str()) {
        Ok(n) => n,
        Err(e) => return Err(blame("bad month in ", s, &e)),
    };
    let d: i64 = match number::parse_i64(parts[2].as_str()) {
        Ok(n) => n,
        Err(e) => return Err(blame("bad day in ", s, &e)),
    };
    if !(1 <= m && m <= 12 && 1 <= d && d <= 31) {
        let mut e = "bad date range: ".to_owned();
        e.append(s);
        return Err(e);
    }
    Ok((y, m, d))
}

/// Writes a date as `YYYY-MM-DD`.
pub fn format_date(y: i64, m: i64, d: i64) -> (r: String)
    ensures
        r@ == date_text(y as int, m as int, d as int),
{
    let mut r = number::padded_text(y, 4);
    r.push('-');
    r.append(number::padded_text(m, 2).as_str());
    r.push('-');
    r.append(number::padded_text(d, 2).as_str());
    assert(r@ =~= date_text(y as int, m as int, d as int));
    r
}

// ---------------------------------------------------------------------------
// Ranges

/// The number of a date that has been read.
pub open spec fn number_of(t: (int, int, int)) -> int {
    day_number(t.0, t.1, t.2)
}

/// The dates from `start` to `end`, both of them among the result.
pub open spec fn dates_between(start: Seq<char>, end: Seq<char>) -> Result<
    Seq<Seq<char>>,
    Seq<char>,
> {
    match (read_date(start), read_date(end)) {
        (Err(e), _) => Err(e),
        (_, Err(e)) => Err(e),
        (Ok(s), Ok(e)) => if number_of(e) < number_of(s) {
            Err("--end must be >= --start"@)
        } else {
            Ok(
                Seq::new(
                    (number_of(e) - number_of(s) + 1) as nat,
                    |i: int| day_text(number_of(s) + i),
                ),
            )
        },
    }
}

/// The number of a date that has been read fits the type of day numbers.
pub open spec fn fits(t: (int, int, int)) -> bool {
    i64::MIN <= number_of(t) <= i64::MAX
}

/// If both texts are dates, their numbers fit the type of day numbers.
pub open spec fn numbers_fit(start: Seq<char>, end: Seq<char>) -> bool {
    match (read_date(start), read_date(end)) {
        (Ok(s), Ok(e)) => fits(s) && fits(e),
        _ => true,
    }
}

/// Whether the numbers of two dates fit the type of day numbers.
pub fn dates_fit(start: &str, end: &str) -> (r: bool)
    ensures
        r == numbers_fit(start@, end@),
{
    match (parse_date(start), parse_date(end)) {
        (Ok(s), Ok(e)) => checked_days_from_civil(s.0, s.1, s.2).is_some()
            && checked_days_from_civil(e.0, e.1, e.2).is_some(),
        _ => true,
    }
}

/// The dates from `start` to `end`, both of them among the result.
pub fn date_range(start: &str, end: &str) -> (r: Result<Vec<String>, String>)
    requires
        numbers_fit(start@, end@),
    ensures
        match r {
            Ok(v) => dates_between(start@, end@) == Ok::<Seq<Seq<char>>, Seq<char>>(
                text::texts(v@),
            ),
            Err(e) => dates_between(start@, end@) == Err::<Seq<Seq<char>>, Seq<char>>(e@),
        },
{
    let (sy, sm, sd) = match parse_date(start) {
        Ok(t) => t,
        Err(e) => return Err(e),
    };
    let (ey, em, ed) = match parse_date(end) {
        Ok(t) => t,
        Err(e) => return Err(e),
    };
    let a: i64 = days_from_civil(sy, sm, sd);
    let b: i64 = days_from_civil(ey, em, ed);
    if b < a {
        return Err("--end must be >= --start".to_owned());
    }
    let mut out: Vec<String> = Vec::new();
    let mut n: i128 = a as i128;
    while n <= b as i128
        invariant
            a <= n <= b + 1,
            out@.len() == n - a,
            forall|i: int| 0 <= i < out@.len() ==> (#[trigger] out@[i])@ == day_text(a + i),
        decreases b + 1 - n,
    {
        let (y, m, d) = civil_from_days(n as i64);
        proof {
            law_date_from_its_number(y as int, m as int, d as int);
        }
        out.push(format_date(y, m, d));
        n = n + 1;
    }
    proof {
        assert(text::texts(out@) =~= Seq::new((b - a + 1) as nat, |i: int| day_text(a + i)));
    }
    Ok(out)
}

/// A date of a year that is not negative reads back from its text.
pub proof fn law_date_text_reads_back(y: int, m: int, d: int)
    requires
        0 <= y <= i64::MAX,
        1 <= m <= 12,
        1 <= d <= 31,
    ensures
        read_date(date_text(y, m, d)) == Ok::<(int, int, int), Seq<char>>((y, m, d)),
{
    let (ys, ms, ds) = (number::padded(y, 4), number::padded(m, 2), number::padded(d, 2));
    let (lo, hi) = (i64::MIN as int, i64::MAX as int);
    number::law_padded_reads_back(y, 4, lo, hi);
    number::law_padded_reads_back(m, 2, lo, hi);
    number::law_padded_reads_back(d, 2, lo, hi);
    number::lemma_digits_lack(ys, '-');
    number::lemma_digits_lack(ms, '-');
    number::lemma_digits_lack(ds, '-');
    text::lemma_split_single(ys, '-');
    text::lemma_split_append(ys, '-', ms);
    text::lemma_split_append(ys + seq!['-'] + ms, '-', ds);
    assert(text::split_on(date_text(y, m, d), '-') =~= seq![ys, ms, ds]);
}

/// The range from a date of a year that is not negative to itself is that date
/// alone.
pub proof fn law_range_of_one_day(y: int, m: int, d: int)
    requires
        0 <= y <= i64::MAX,
        is_civil(y, m, d),
    ensures
        dates_between(date_text(y, m, d), date_text(y, m, d)) == Ok::<Seq<Seq<char>>, Seq<char>>(
            seq![date_text(y, m, d)],
        ),
{
    law_date_text_reads_back(y, m, d);
    law_date_from_its_number(y, m, d);
    let z = day_number(y, m, d);
    assert(Seq::new(1, |i: int| day_text(z + i)) =~= seq![date_text(y, m, d)]);
}

/// Each date of a range but the last is followed by that of the next day.
pub proof fn law_range_is_consecutive(start: Seq<char>, end: Seq<char>, i: int)
    requires
        dates_between(start, end) matches Ok(v) && 0 <= i < v.len() - 1,
    ensures
        ({
            let v = dates_between(start, end)->Ok_0;
            exists|t: (int, int, int)|
                #![trigger next_day(t)]
                is_civil(t.0, t.1, t.2) && v[i] == date_text(t.0, t.1, t.2) && v[i + 1]
                    == date_text(next_day(t).0, next_day(t).1, next_day(t).2)
        }),
{
    let z = number_of(read_date(start)->Ok_0) + i;
    law_every_number_has_date(z);
    law_next_number_is_next_day(z);
    let t = civil_of(z);
    assert(next_day(t) == civil_of(z + 1));
}

// ---------------------------------------------------------------------------
// Laws of dates and ranges

/// The numbering starts at 1970-01-01, goes on by one from day to day inside and
/// beyond a month, and repeats itself after 400 years.
pub proof fn law_numbering(y: int, m: int, d: int, k: int)
    ensures
        day_number(1970, 1, 1) == 0,
        day_number(y, m, d + k) == day_number(y, m, d) + k,
        day_number(y + 400, m, d) == day_number(y, m, d) + 146097,
{
    let p = if m <= 2 {
        y - 1
    } else {
        y
    };
    lemma_400_years(p);
}

#[verifier::spinoff_prover]
proof fn lemma_400_years(p: int)
    ensures
        (p + 400) / 4 == p / 4 + 100,
        (p + 400) / 100 == p / 100 + 4,
        (p + 400) / 400 == p / 400 + 1,
{
}

/// Months beyond the year go on in steps of five months and 153 days.
#[verifier::spinoff_prover]
pub proof fn law_months_beyond_the_year(y: int, m: int, d: int)
    requires
        m > 2 || -9 <= m <= -3 || m < -14,
    ensures
        day_number(y, m + 5, d) == day_number(y, m, d) + 153,
{
    let mp = if m > 2 {
        m - 3
    } else {
        m + 9
    };
    if mp >= 0 {
        assert((153 * (mp + 5) + 2) / 5 == (153 * mp + 2) / 5 + 153);
    } else {
        assert((-(153 * mp + 2)) / 5 == (-(153 * (mp + 5) + 2)) / 5 + 153);
    }
}

/// The first date comes before the second: by year, then month, then day.
pub open spec fn earlier(t: (int, int, int), u: (int, int, int)) -> bool {
    t.0 < u.0 || (t.0 == u.0 && (t.1 < u.1 || (t.1 == u.1 && t.2 < u.2)))
}

#[verifier::spinoff_prover]
proof fn lemma_earlier_in_year(t: (int, int, int), u: (int, int, int))
    requires
        is_civil(t.0, t.1, t.2),
        is_civil(u.0, u.1, u.2),
        t.0 == u.0,
        earlier(t, u),
    ensures
        number_of(t) < number_of(u),
{
    law_number_within_year(t.0, t.1, t.2);
    law_number_within_year(u.0, u.1, u.2);
    reveal_with_fuel(days_before_month, 13);
}

/// Dates of the calendar are numbered in their order.
pub proof fn law_numbers_follow_dates(t: (int, int, int), u: (int, int, int))
    requires
        is_civil(t.0, t.1, t.2),
        is_civil(u.0, u.1, u.2),
    ensures
        earlier(t, u) <==> number_of(t) < number_of(u),
{
    lemma_within_year_bounds(t.0, t.1, t.2);
    lemma_within_year_bounds(u.0, u.1, u.2);
    if t.0 == u.0 {
        if earlier(t, u) {
            lemma_earlier_in_year(t, u);
        } else if earlier(u, t) {
            lemma_earlier_in_year(u, t);
        }
    } else if t.0 < u.0 {
        if t.0 + 1 < u.0 {
            lemma_later_year(t.0 + 1, u.0);
        }
    } else {
        if u.0 + 1 < t.0 {
            lemma_later_year(u.0 + 1, t.0);
        }
    }
}

/// A date of the calendar whose year is written without a sign.
pub open spec fn is_written_date(t: (int, int, int)) -> bool {
    0 <= t.0 <= i64::MAX && is_civil(t.0, t.1, t.2)
}

pub open spec fn written(t: (int, int, int)) -> Seq<char> {
    date_text(t.0, t.1, t.2)
}

/// A range starts with its first date and ends with its last one, and holds
/// every date of the calendar in between at its place. Where the last date lies
/// before the first there is no range.
pub proof fn law_range_holds_every_day(
    s: (int, int, int),
    e: (int, int, int),
    t: (int, int, int),
)
    requires
        is_written_date(s),
        is_written_date(e),
        is_written_date(t),
    ensures
        earlier(e, s) ==> dates_between(written(s), written(e)) == Err::<Seq<Seq<char>>, Seq<char>>(
            "--end must be >= --start"@,
        ),
        !earlier(e, s) ==> {
            &&& dates_between(written(s), written(e)) matches Ok(v)
            &&& v.len() == number_of(e) - number_of(s) + 1
            &&& v[0] == written(s)
            &&& v.last() == written(e)
            &&& !earlier(t, s) && !earlier(e, t) ==> v[number_of(t) - number_of(s)] == written(t)
                && v.contains(written(t))
        },
{
    law_date_text_reads_back(s.0, s.1, s.2);
    law_date_text_reads_back(e.0, e.1, e.2);
    law_numbers_follow_dates(e, s);
    law_numbers_follow_dates(t, s);
    law_numbers_follow_dates(e, t);
    law_date_from_its_number(s.0, s.1, s.2);
    law_date_from_its_number(e.0, e.1, e.2);
    law_date_from_its_number(t.0, t.1, t.2);
    if !earlier(e, s) {
        let v = dates_between(written(s), written(e))->Ok_0;
        assert(v[0] == day_text(number_of(s)));
        assert(v[v.len() - 1] == day_text(number_of(e)));
        if !earlier(t, s) && !earlier(e, t) {
            assert(v[number_of(t) - number_of(s)] == day_text(number_of(t)));
        }
    }
}

/// The date of the calendar with the number `z` is written as `s`.
pub open spec fn is_day_text(z: int, s: Seq<char>) -> bool {
    exists|t: (int, int, int)|
        is_civil(t.0, t.1, t.2) && #[trigger] day_number(t.0, t.1, t.2) == z && s == date_text(
            t.0,
            t.1,
            t.2,
        )
}

/// Whatever the two dates are, also days that their months do not have, a range
/// holds one date for each number from the first to the last, in order, and
/// there is none exactly where the last number is smaller.
pub proof fn law_range_counts_days(start: Seq<char>, end: Seq<char>, i: int)
    requires
        read_date(start) is Ok,
        read_date(end) is Ok,
    ensures
        ({
            let (s, e) = (read_date(start)->Ok_0, read_date(end)->Ok_0);
            let (a, b) = (day_number(s.0, s.1, s.2), day_number(e.0, e.1, e.2));
            &&& b < a <==> dates_between(start, end) is Err
            &&& dates_between(start, end) matches Ok(v) ==> v.len() == b - a + 1 && (0 <= i
                < v.len() ==> is_day_text(a + i, v[i]))
        }),
{
    let s = read_date(start)->Ok_0;
    let z = number_of(s) + i;
    law_every_number_has_date(z);
    let t = civil_of(z);
    assert(day_number(t.0, t.1, t.2) == z);
    assert(is_day_text(z, day_text(z)));
}

/// What is wrong with the first date is told before what is wrong with the last.
pub proof fn law_bad_dates_are_told(start: Seq<char>, end: Seq<char>)
    ensures
        read_date(start) matches Err(e) ==> dates_between(start, end) == Err::<
            Seq<Seq<char>>,
            Seq<char>,
        >(e),
        read_date(start) is Ok ==> (read_date(end) matches Err(e) ==> dates_between(start, end)
            == Err::<Seq<Seq<char>>, Seq<char>>(e)),
{
}

/// A date is three integers with dashes between them, the second from 1 to 12
/// and the third from 1 to 31; the first part that is wrong is told.
pub proof fn law_date_is_three_numbers(a: Seq<char>, b: Seq<char>, c: Seq<char>)
    requires
        !a.contains('-'),
        !b.contains('-'),
        !c.contains('-'),
    ensures
        ({
            let s = a + seq!['-'] + b + seq!['-'] + c;
            match (number::read_i64(a), number::read_i64(b), number::read_i64(c)) {
                (Ok(y), Ok(m), Ok(d)) => {
                    &&& 1 <= m <= 12 && 1 <= d <= 31 ==> read_date(s) == Ok::<
                        (int, int, int),
                        Seq<char>,
                    >((y, m, d))
                    &&& !(1 <= m <= 12 && 1 <= d <= 31) ==> read_date(s) == Err::<
                        (int, int, int),
                        Seq<char>,
                    >("bad date range: "@ + s)
                },
                (Err(e), _, _) => read_date(s) == Err::<(int, int, int), Seq<char>>(
                    "bad year in "@ + s + ": "@ + e.message(),
                ),
                (_, Err(e), _) => read_date(s) == Err::<(int, int, int), Seq<char>>(
                    "bad month in "@ + s + ": "@ + e.message(),
                ),
                (_, _, Err(e)) => read_date(s) == Err::<(int, int, int), Seq<char>>(
                    "bad day in "@ + s + ": "@ + e.message(),
                ),
            }
        }),
{
    text::lemma_split_single(a, '-');
    text::lemma_split_append(a, '-', b);
    text::lemma_split_append(a + seq!['-'] + b, '-', c);
    let s = a + seq!['-'] + b + seq!['-'] + c;
    assert(text::split_on(s, '-') =~= seq![a, b, c]);
}

/// A text with more or fewer parts is no date.
pub proof fn law_date_has_three_parts(parts: Seq<Seq<char>>)
    requires
        parts.len() >= 1,
        parts.len() != 3,
        text::free_of(parts, '-'),
    ensures
        ({
            let s = text::joined(parts, '-');
            read_date(s) == Err::<(int, int, int), Seq<char>>(
                "bad date: "@ + s + "; expected YYYY-MM-DD"@,
            )
        }),
{
    text::law_joined_comes_apart(parts, '-');
}

/// A date is written with at least four digits for the year and two for the
/// month and the day, with dashes between them.
pub proof fn law_written_date(y: int, m: int, d: int)
    requires
        0 <= y <= 9999,
        1 <= m <= 12,
        1 <= d <= 31,
    ensures
        ({
            let s = date_text(y, m, d);
            &&& s.len() == 10
            &&& s[4] == '-' && s[7] == '-'
            &&& number::digits_value(s.subrange(0, 4)) == y
            &&& number::digits_value(s.subrange(5, 7)) == m
            &&& number::digits_value(s.subrange(8, 10)) == d
        }),
{
    lemma_fixed_width(y, 4);
    lemma_fixed_width(m, 2);
    lemma_fixed_width(d, 2);
    let s = date_text(y, m, d);
    assert(s.subrange(0, 4) =~= number::padded(y, 4));
    assert(s.subrange(5, 7) =~= number::padded(m, 2));
    assert(s.subrange(8, 10) =~= number::padded(d, 2));
}

proof fn lemma_fixed_width(v: int, width: nat)
    requires
        (width == 4 && 0 <= v <= 9999) || (width == 2 && 0 <= v <= 99),
    ensures
        number::padded(v, width).len() == width,
        number::digits_value(number::padded(v, width)) == v,
{
    let digits = number::decimal(v as nat);
    number::lemma_decimal_digits(v as nat);
    reveal_with_fuel(number::decimal, 4);
    if digits.len() < width {
        number::lemma_zeros_in_front((width - digits.len()) as nat, digits);
    }
}

/// Dates of years of up to sixteen digits have numbers that fit, and texts that
/// are no dates are no obstacle.
#[verifier::spinoff_prover]
pub proof fn law_ordinary_dates_fit(start: Seq<char>, end: Seq<char>)
    ensures
        read_date(start) is Err || read_date(end) is Err ==> numbers_fit(start, end),
        (read_date(start) matches Ok(s) && -9_999_999_999_999_999 <= s.0 <= 9_999_999_999_999_999)
            && (read_date(end) matches Ok(e) && -9_999_999_999_999_999 <= e.0
            <= 9_999_999_999_999_999) ==> numbers_fit(start, end),
        numbers_fit(start, end) && read_date(start) is Ok && (read_date(end) matches Ok(e)) ==> {
            let (s, e) = (read_date(start)->Ok_0, read_date(end)->Ok_0);
            &&& i64::MIN <= day_number(s.0, s.1, s.2) <= i64::MAX
            &&& i64::MIN <= day_number(e.0, e.1, e.2) <= i64::MAX
        },
{
}

/// Months before the year are those of the year before; those before March of
/// that year go back from there.
#[verifier::spinoff_prover]
pub proof fn law_months_before_the_year(y: int, m: int, d: int)
    ensures
        -9 <= m <= 2 ==> day_number(y, m, d) == day_number(y - 1, m + 12, d),
        day_number(y, -10, d) == day_number(y, -9, d) - 30,
        day_number(y, -11, d) == day_number(y, -9, d) - 60,
        day_number(y, -12, d) == day_number(y, -9, d) - 91,
        day_number(y, -13, d) == day_number(y, -9, d) - 122,
        day_number(y, -14, d) == day_number(y, -9, d) - 152,
{
}

/// Every date is written as its three numbers with dashes between them, padded
/// with zeros to four, two and two characters.
pub proof fn law_parts_of_written_date(y: int, m: int, d: int)
    ensures
        date_text(y, m, d) == text::joined(
            seq![number::padded(y, 4), number::padded(m, 2), number::padded(d, 2)],
            '-',
        ),
{
    text::lemma_joined_three(
        number::padded(y, 4),
        number::padded(m, 2),
        number::padded(d, 2),
        '-',
    );
}

} // verus!
