//! The time of day, in milliseconds and as a date.
use crate::calendar;
use vstd::prelude::*;

verus! {

/// `SystemTime::now`, as the time that `duration_since` finds it to be after the
/// Unix epoch: whole seconds, and nanoseconds below one second; nothing if the
/// clock stands before the epoch. Which time it is, is not stated.
#[verifier::external_body]
fn unix_time() -> (r: Option<(u64, u32)>)
    ensures
        r matches Some(t) ==> t.1 < 1_000_000_000,
{
    match std::time::SystemTime::now().duration_since(std::time::UNIX_EPOCH) {
        Ok(d) => Some((d.as_secs(), d.subsec_nanos())),
        Err(_) => None,
    }
}

/// The time that a reading of the clock stands for: that of the epoch, if the
/// clock stands before it.
pub open spec fn reading(t: Option<(u64, u32)>) -> (u64, u32) {
    match t {
        Some(x) => x,
        None => (0u64, 0u32),
    }
}

/// The time that a reading of the clock stands for.
pub fn settled(t: Option<(u64, u32)>) -> (r: (u64, u32))
    ensures
        r == reading(t),
{
    match t {
        Some(x) => x,
        None => (0u64, 0u32),
    }
}

fn read_clock() -> (r: (u64, u32))
    ensures
        r.1 < 1_000_000_000,
{
    settled(unix_time())
}

/// The milliseconds of a time.
pub open spec fn millis(secs: int, nanos: int) -> int {
    secs * 1000 + nanos / 1_000_000
}

/// The milliseconds of a time given in seconds and nanoseconds.
pub fn millis_of(secs: u64, nanos: u32) -> (r: u128)
    ensures
        r == millis(secs as int, nanos as int),
{
    secs as u128 * 1000 + (nanos / 1_000_000) as u128
}

/// The milliseconds since the Unix epoch. They are those of a reading of the
/// clock; which one it is, is not stated.
pub fn now_ms() -> (r: u128)
    ensures
        exists|secs: u64, nanos: u32|
            nanos < 1_000_000_000 && r == #[trigger] millis(secs as int, nanos as int),
{
    let (secs, nanos) = read_clock();
    let r: u128 = millis_of(secs, nanos);
    assert(r == millis(secs as int, nanos as int));
    r
}

/// Seconds as a signed number of 64 bits.
pub open spec fn signed(secs: u64) -> int {
    if secs <= i64::MAX {
        secs as int
    } else {
        secs - 0x1_0000_0000_0000_0000
    }
}

/// The date of the day before the one that a time, in seconds since the Unix
/// epoch, lies in.
pub open spec fn day_before_text(secs: u64) -> Seq<char> {
    calendar::day_text(calendar::quotient(signed(secs), 86_400) - 1)
}

/// The date of the day before the one that a time, in seconds since the Unix
/// epoch, lies in.
pub fn day_before(secs: u64) -> (r: String)
    ensures
        r@ == day_before_text(secs),
{
    let s: i128 = if secs <= i64::MAX as u64 {
        secs as i128
    } else {
        secs as i128 - 0x1_0000_0000_0000_0000
    };
    let today: i64 = (s as i64) / 86_400;
    let (y, m, d) = calendar::civil_from_days(today - 1);
    proof {
        calendar::law_date_from_its_number(y as int, m as int, d as int);
    }
    calendar::format_date(y, m, d)
}

/// The date of yesterday in UTC. It is that of the day before a reading of the
/// clock; which one it is, is not stated.
pub fn yesterday_utc_date() -> (r: String)
    ensures
        exists|secs: u64| r@ == #[trigger] day_before_text(secs),
{
    let (secs, _) = read_clock();
    day_before(secs)
}

// ---------------------------------------------------------------------------
// Laws

/// A time in milliseconds is the whole part of the time: no more than it, and
/// less than one millisecond behind it.
pub proof fn law_millis_round_down(secs: int, nanos: int)
    requires
        0 <= nanos,
    ensures
        millis(secs, nanos) * 1_000_000 <= secs * 1_000_000_000 + nanos,
        secs * 1_000_000_000 + nanos < (millis(secs, nanos) + 1) * 1_000_000,
{
}

/// The day after the one that is given is the one that the time lies in.
pub proof fn law_day_before_is_yesterday(secs: u64)
    requires
        secs <= i64::MAX,
    ensures
        exists|t: (int, int, int)|
            {
                let today = #[trigger] calendar::next_day(t);
                let n = calendar::day_number(today.0, today.1, today.2);
                &&& calendar::is_civil(t.0, t.1, t.2)
                &&& day_before_text(secs) == calendar::date_text(t.0, t.1, t.2)
                &&& n * 86_400 <= secs < (n + 1) * 86_400
            },
{
    let n = secs as int / 86_400;
    calendar::law_every_number_has_date(n - 1);
    let t = calendar::civil_of(n - 1);
    calendar::law_next_day(t);
    let today = calendar::next_day(t);
    assert(calendar::day_number(today.0, today.1, today.2) == n);
    assert(n * 86_400 <= secs < (n + 1) * 86_400);
}

/// A reading of the clock stands for itself, and no reading for the epoch.
pub proof fn law_reading(t: (u64, u32))
    ensures
        reading(Some(t)) == t,
        reading(None) == (0u64, 0u32),
{
}

/// Seconds beyond the signed range count as the negative number with the same 64
/// bits, and the day that they lie in is counted towards the epoch.
pub proof fn law_day_before_beyond_range(secs: u64)
    requires
        secs > i64::MAX,
    ensures
        ({
            let s = secs - 0x1_0000_0000_0000_0000;
            exists|t: (int, int, int)|
                {
                    let today = #[trigger] calendar::next_day(t);
                    let n = calendar::day_number(today.0, today.1, today.2);
                    &&& calendar::is_civil(t.0, t.1, t.2)
                    &&& day_before_text(secs) == calendar::date_text(t.0, t.1, t.2)
                    &&& n * 86_400 - 86_400 < s <= n * 86_400
                }
        }),
{
    let s = secs - 0x1_0000_0000_0000_0000;
    let n = -((-s) / 86_400);
    assert(calendar::quotient(signed(secs), 86_400) == n);
    calendar::law_every_number_has_date(n - 1);
    let t = calendar::civil_of(n - 1);
    calendar::law_next_day(t);
    let today = calendar::next_day(t);
    assert(calendar::day_number(today.0, today.1, today.2) == n);
    assert(n * 86_400 - 86_400 < s <= n * 86_400);
}

} // verus!
