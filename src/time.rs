use vstd::arithmetic::div_mod::{
    lemma_fundamental_div_mod, lemma_fundamental_div_mod_converse_div,
    lemma_fundamental_div_mod_converse_mod,
};
use vstd::prelude::*;

verus! {

/// Seconds in a day. Times are UTC seconds since 1970-01-01T00:00:00Z.
pub const DAY_SECONDS: i64 = 86400;

/// Times and durations stay within this many seconds of the epoch (about 278,000 years).
pub const TIME_LIMIT: i64 = 8_796_093_022_208;

/// A whole number of weeks, in days, larger than any day number within the limit.
pub const SHIFT_DAYS: i64 = 117_440_512;

pub open spec fn valid_time(t: int) -> bool {
    -TIME_LIMIT <= t <= TIME_LIMIT
}

/// The day number of a time (day 0 is 1970-01-01).
pub open spec fn day_of(t: int) -> int {
    t / (DAY_SECONDS as int)
}

/// Seconds since midnight.
pub open spec fn time_of_day(t: int) -> int {
    t % (DAY_SECONDS as int)
}

/// The weekday of a day number, counted from Monday (0) to Sunday (6); day 0 was a Thursday.
pub open spec fn weekday_of_day(d: int) -> int {
    (d + 3) % 7
}

/// The time at `tod` seconds after midnight of day `d`.
pub open spec fn at_day(d: int, tod: int) -> int {
    d * DAY_SECONDS + tod
}

/// Day numbers of valid times stay well inside the shift.
pub proof fn lemma_day_bounds(t: int)
    requires
        valid_time(t),
    ensures
        -SHIFT_DAYS + 16 <= day_of(t) <= SHIFT_DAYS - 16,
        0 <= time_of_day(t) < DAY_SECONDS,
        t == at_day(day_of(t), time_of_day(t)),
{
    lemma_fundamental_div_mod(t, DAY_SECONDS as int);
    assert(t == DAY_SECONDS * (t / (DAY_SECONDS as int)) + t % (DAY_SECONDS as int));
    assert(-SHIFT_DAYS + 16 <= day_of(t) <= SHIFT_DAYS - 16) by (nonlinear_arith)
        requires
            t == 86400 * day_of(t) + time_of_day(t),
            0 <= time_of_day(t) < 86400,
            -8_796_093_022_208 <= t <= 8_796_093_022_208,
    ;
}

/// The day number and the time of day of `t`.
pub fn split_time(t: i64) -> (r: (i64, i64))
    requires
        valid_time(t as int),
    ensures
        r.0 == day_of(t as int),
        r.1 == time_of_day(t as int),
        -SHIFT_DAYS + 16 <= r.0 <= SHIFT_DAYS - 16,
        0 <= r.1 < DAY_SECONDS,
{
    let u: u64 = (t + SHIFT_DAYS * DAY_SECONDS) as u64;
    let q: u64 = u / 86400;
    let rm: u64 = u % 86400;
    proof {
        lemma_fundamental_div_mod(u as int, 86400);
        assert(t as int == (q as int - SHIFT_DAYS) * 86400 + rm as int) by (nonlinear_arith)
            requires
                u as int == t as int + SHIFT_DAYS * DAY_SECONDS,
                u as int == 86400 * q as int + rm as int,
        ;
        lemma_fundamental_div_mod_converse_div(t as int, 86400, q as int - SHIFT_DAYS, rm as int);
        lemma_fundamental_div_mod_converse_mod(t as int, 86400, q as int - SHIFT_DAYS, rm as int);
        lemma_day_bounds(t as int);
    }
    ((q as i64) - SHIFT_DAYS, rm as i64)
}

/// The weekday of day `d`, Monday being 0.
pub fn weekday_of(d: i64) -> (w: u8)
    requires
        -SHIFT_DAYS <= d <= SHIFT_DAYS,
    ensures
        w == weekday_of_day(d as int),
        w < 7,
{
    let u: u64 = (d + 3 + SHIFT_DAYS) as u64;
    let q: u64 = u / 7;
    let rm: u64 = u % 7;
    proof {
        lemma_fundamental_div_mod(u as int, 7);
        assert(d as int + 3 == (q as int - SHIFT_DAYS / 7) * 7 + rm as int) by (nonlinear_arith)
            requires
                u as int == d as int + 3 + SHIFT_DAYS,
                u as int == 7 * q as int + rm as int,
                SHIFT_DAYS == 7 * (SHIFT_DAYS / 7),
        ;
        lemma_fundamental_div_mod_converse_mod(d as int + 3, 7, q as int - SHIFT_DAYS / 7, rm as int);
    }
    rm as u8
}

/// The time at `tod` seconds after midnight of day `d`.
pub fn time_at(d: i64, tod: i64) -> (t: i64)
    requires
        -SHIFT_DAYS <= d <= SHIFT_DAYS,
        0 <= tod < DAY_SECONDS,
    ensures
        t == at_day(d as int, tod as int),
{
    proof {
        assert(-SHIFT_DAYS * 86400 <= d * 86400 <= SHIFT_DAYS * 86400) by (nonlinear_arith)
            requires
                -SHIFT_DAYS <= d <= SHIFT_DAYS,
        ;
    }
    d * DAY_SECONDS + tod
}

/// The calendar year of a UTC time, as chrono counts it.
pub uninterp spec fn utc_year(t: int) -> int;

/// Relies on chrono's `DateTime::<Utc>::from_timestamp` and `Datelike::year`: the
/// proleptic Gregorian year of the time (0 outside chrono's range), a function of the
/// time alone.
#[verifier::external_body]
fn year_of(t: i64) -> (r: i32)
    ensures
        r == utc_year(t as int),
{
    chrono::DateTime::<chrono::Utc>::from_timestamp(t, 0).map(|d| chrono::Datelike::year(&d)).unwrap_or(0)
}

/// How much of a date to show next to its time.
#[derive(Clone, Copy, Debug, PartialEq, Eq, Structural)]
pub enum DateStyle {
    /// Only the time: the same day, or within twelve hours.
    TimeOnly,
    /// "Tomorrow" and the time.
    Tomorrow,
    /// The weekday and the time: within a week.
    Weekday,
    /// Weekday, day and month: within the year.
    DayMonth,
    /// Weekday and the full date.
    Full,
}

/// Chooses how to show `dt` to someone at `now`, given the years of both.
pub fn style_for(dt: i64, now: i64, dt_year: i32, now_year: i32) -> (r: DateStyle)
    requires
        valid_time(dt as int),
        valid_time(now as int),
    ensures
        r == style_for_spec(dt as int, now as int, dt_year == now_year),
{
    let (dt_day, _) = split_time(dt);
    let (now_day, _) = split_time(now);
    if dt_day == now_day || dt < now + 12 * 3600 {
        DateStyle::TimeOnly
    } else if dt_day - now_day == 1 {
        DateStyle::Tomorrow
    } else if dt < now + 7 * DAY_SECONDS {
        DateStyle::Weekday
    } else if dt_year == now_year {
        DateStyle::DayMonth
    } else {
        DateStyle::Full
    }
}

/// Chooses how to show `dt` to someone at `now`.
pub fn date_style(dt: i64, now: i64) -> (r: DateStyle)
    requires
        valid_time(dt as int),
        valid_time(now as int),
    ensures
        r == style_for_spec(dt as int, now as int, utc_year(dt as int) == utc_year(now as int)),
{
    style_for(dt, now, year_of(dt), year_of(now))
}

/// The style chosen for `dt` at `now`, given whether both fall in the same year.
pub open spec fn style_for_spec(dt: int, now: int, same_year: bool) -> DateStyle {
    if day_of(dt) == day_of(now) || dt < now + 12 * 3600 {
        DateStyle::TimeOnly
    } else if day_of(dt) - day_of(now) == 1 {
        DateStyle::Tomorrow
    } else if dt < now + 7 * DAY_SECONDS {
        DateStyle::Weekday
    } else if same_year {
        DateStyle::DayMonth
    } else {
        DateStyle::Full
    }
}

} // verus!
