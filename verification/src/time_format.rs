//! Times for people: how long ago a moment was, and its date and time of
//! day in UTC.

use vstd::prelude::*;

verus! {

/// The unit in which a span of time is told.
#[derive(Debug, Clone, Copy, PartialEq, Eq, Structural)]
pub enum SpanUnit {
    Seconds,
    Minutes,
    Hours,
    Days,
    Weeks,
}

/// How a moment stands to now.
#[derive(Debug, Clone, Copy, PartialEq, Eq, Structural)]
pub enum Span {
    /// The moment lies after now.
    InTheFuture,
    /// The moment lies this many whole units before now.
    Ago { count: u64, unit: SpanUnit },
}

/// The span between a moment and now, both in Unix milliseconds, in the
/// largest unit of which it holds one at least: seconds below a minute,
/// minutes below an hour, hours below a day, days below a week, else weeks.
pub open spec fn span_of(ts_ms: u64, now_ms: u64) -> Span {
    if now_ms < ts_ms {
        Span::InTheFuture
    } else {
        let seconds = (now_ms - ts_ms) / 1000;
        if seconds < 60 {
            Span::Ago { count: seconds as u64, unit: SpanUnit::Seconds }
        } else if seconds < 3600 {
            Span::Ago { count: (seconds / 60) as u64, unit: SpanUnit::Minutes }
        } else if seconds < 86400 {
            Span::Ago { count: (seconds / 3600) as u64, unit: SpanUnit::Hours }
        } else if seconds < 604800 {
            Span::Ago { count: (seconds / 86400) as u64, unit: SpanUnit::Days }
        } else {
            Span::Ago { count: (seconds / 604800) as u64, unit: SpanUnit::Weeks }
        }
    }
}

/// The span between a moment and now.
pub fn relative_span(ts_ms: u64, now_ms: u64) -> (s: Span)
    ensures
        s == span_of(ts_ms, now_ms),
{
    if now_ms < ts_ms {
        return Span::InTheFuture;
    }
    let seconds = (now_ms - ts_ms) / 1000;
    if seconds < 60 {
        Span::Ago { count: seconds, unit: SpanUnit::Seconds }
    } else if seconds < 3600 {
        Span::Ago { count: seconds / 60, unit: SpanUnit::Minutes }
    } else if seconds < 86400 {
        Span::Ago { count: seconds / 3600, unit: SpanUnit::Hours }
    } else if seconds < 604800 {
        Span::Ago { count: seconds / 86400, unit: SpanUnit::Days }
    } else {
        Span::Ago { count: seconds / 604800, unit: SpanUnit::Weeks }
    }
}

/// A date and a time of day in UTC.
#[derive(Debug, Clone, Copy, PartialEq, Eq, Structural)]
pub struct CivilTime {
    pub year: u64,
    pub month: u64,
    pub day: u64,
    pub hour: u64,
    pub minute: u64,
    pub second: u64,
}

/// Days from the first of March of the year 0 to the first of January 1970.
pub const EPOCH_SHIFT_DAYS: u64 = 719468;

/// Days in 400 years.
pub const DAYS_PER_ERA: u64 = 146097;

/// The day within its era of 400 years, counted from a first of March.
pub open spec fn day_of_era(days: int) -> int {
    (days + 719468) % 146097
}

/// The year within its era, from the day within the era.
pub open spec fn year_of_era(doe: int) -> int {
    (doe - doe / 1460 + doe / 36524 - doe / 146096) / 365
}

/// The day within its year, the year counted from a first of March.
pub open spec fn day_of_year(doe: int) -> int {
    doe - (365 * year_of_era(doe) + year_of_era(doe) / 4 - year_of_era(doe) / 100)
}

/// The month within the year counted from March: 0 for March, 11 for February.
pub open spec fn shifted_month(doy: int) -> int {
    (5 * doy + 2) / 153
}

/// The date and time of day of a moment in Unix milliseconds, in the
/// Gregorian calendar. Days are counted in eras of 400 years that start on
/// a first of March, so that the leap day is the last day of a year.
pub open spec fn civil_of(ts_ms: u64) -> CivilTime {
    let secs = ts_ms as int / 1000;
    let days = secs / 86400;
    let era = (days + 719468) / 146097;
    let doe = day_of_era(days);
    let doy = day_of_year(doe);
    let mp = shifted_month(doy);
    let month = if mp < 10 {
        mp + 3
    } else {
        mp - 9
    };
    let year = year_of_era(doe) + era * 400 + (if month <= 2 {
        1int
    } else {
        0int
    });
    CivilTime {
        year: year as u64,
        month: month as u64,
        day: (doy - (153 * mp + 2) / 5 + 1) as u64,
        hour: ((secs % 86400) / 3600) as u64,
        minute: ((secs % 3600) / 60) as u64,
        second: (secs % 60) as u64,
    }
}

/// The year is a leap year of the Gregorian calendar.
pub open spec fn is_leap_year(year: int) -> bool {
    year % 4 == 0 && (year % 100 != 0 || year % 400 == 0)
}

/// The number of leap years among the years 1 to `year - 1`.
pub open spec fn leap_years_before(year: int) -> int {
    (year - 1) / 4 - (year - 1) / 100 + (year - 1) / 400
}

/// The days of a year that lie before the first of a month.
pub open spec fn days_before_month(month: int, leap: bool) -> int {
    let extra = if leap {
        1int
    } else {
        0int
    };
    if month <= 1 {
        0
    } else if month == 2 {
        31
    } else if month == 3 {
        59 + extra
    } else if month == 4 {
        90 + extra
    } else if month == 5 {
        120 + extra
    } else if month == 6 {
        151 + extra
    } else if month == 7 {
        181 + extra
    } else if month == 8 {
        212 + extra
    } else if month == 9 {
        243 + extra
    } else if month == 10 {
        273 + extra
    } else if month == 11 {
        304 + extra
    } else {
        334 + extra
    }
}

/// The days of a month.
pub open spec fn days_in_month(year: int, month: int) -> int {
    if month == 2 {
        if is_leap_year(year) {
            29
        } else {
            28
        }
    } else if month == 4 || month == 6 || month == 9 || month == 11 {
        30
    } else {
        31
    }
}

/// The days from the first of January 1970 to a date: 365 for each whole
/// year, one more for each leap year among them, the days of the whole
/// months of the date's year, and the days before the date in its month.
pub open spec fn day_number(year: int, month: int, day: int) -> int {
    365 * (year - 1970) + (leap_years_before(year) - leap_years_before(1970)) + days_before_month(
        month,
        is_leap_year(year),
    ) + (day - 1)
}

proof fn lemma_leaps_through(e: int, k: int)
    requires
        e >= 1,
        0 <= k <= 399,
    ensures
        leap_years_before(400 * e + k) + (if is_leap_year(400 * e + k) {
            1int
        } else {
            0int
        }) == 97 * e + k / 4 - k / 100,
        leap_years_before(400 * e + k + 1) == 97 * e + k / 4 - k / 100,
        leap_years_before(1970) == 477,
{
    let y = 400 * e + k;
    assert(y / 4 == 100 * e + k / 4);
    assert(y / 100 == 4 * e + k / 100);
    assert(y / 400 == e);
    assert((y - 1) / 4 == (if y % 4 == 0 {
        y / 4 - 1
    } else {
        y / 4
    }));
    assert((y - 1) / 100 == (if y % 100 == 0 {
        y / 100 - 1
    } else {
        y / 100
    }));
    assert((y - 1) / 400 == (if y % 400 == 0 {
        y / 400 - 1
    } else {
        y / 400
    }));
    assert(y % 400 == 0 ==> y % 100 == 0);
    assert(y % 100 == 0 ==> y % 4 == 0);
}

/// The days from the first of March to the first of the month that is `mp`
/// months after March.
pub open spec fn days_after_march(mp: int) -> int {
    (153 * mp + 2) / 5
}

proof fn lemma_month_offsets(mp: int, leap: bool)
    requires
        0 <= mp <= 11,
    ensures
        mp < 10 ==> days_before_month(mp + 3, leap) == 59 + (if leap {
            1int
        } else {
            0int
        }) + days_after_march(mp),
        mp >= 10 ==> days_before_month(mp - 9, leap) == days_after_march(mp) - 306,
{
}

proof fn lemma_day_number(days: int, era: int, yoe: int, doy: int, mp: int, day: int, month: int, year: int)
    requires
        era >= 1,
        0 <= yoe <= 399,
        0 <= doy <= 365,
        days + 719468 == era * 146097 + 365 * yoe + yoe / 4 - yoe / 100 + doy,
        mp == (5 * doy + 2) / 153,
        day == doy - days_after_march(mp) + 1,
        month == (if mp < 10 {
            mp + 3
        } else {
            mp - 9
        }),
        year == yoe + era * 400 + (if month <= 2 {
            1int
        } else {
            0int
        }),
    ensures
        day_number(year, month, day) == days,
{
    lemma_leaps_through(era, yoe);
    assert(0 <= mp <= 11);
    lemma_month_offsets(mp, is_leap_year(year));
}

proof fn lemma_whole_days(ts_ms: int)
    requires
        0 <= ts_ms,
    ensures
        (ts_ms / 1000) / 86400 == ts_ms / 86_400_000,
{
    vstd::arithmetic::div_mod::lemma_div_denominator(ts_ms, 1000, 86400);
}

/// The date and time of day of a moment: the date whose day number is the
/// number of whole days since the first of January 1970, and the hour,
/// minute and second that make up the rest.
pub fn civil_time(ts_ms: u64) -> (t: CivilTime)
    ensures
        t == civil_of(ts_ms),
        day_number(t.year as int, t.month as int, t.day as int) == ts_ms / 86_400_000,
        t.hour * 3600 + t.minute * 60 + t.second == (ts_ms / 1000) % 86400,
        1 <= t.month <= 12,
        1 <= t.day <= 31,
        t.hour < 24,
        t.minute < 60,
        t.second < 60,
        t.year >= 1970,
{
    let secs = ts_ms / 1000;
    let days = secs / 86400;
    let hour = (secs % 86400) / 3600;
    let minute = (secs % 3600) / 60;
    let second = secs % 60;
    let epoch_days = days + EPOCH_SHIFT_DAYS;
    let era = epoch_days / DAYS_PER_ERA;
    let doe = epoch_days - era * DAYS_PER_ERA;
    assert(doe == day_of_era(days as int));
    let yoe = (doe - doe / 1460 + doe / 36524 - doe / 146096) / 365;
    assert(yoe <= 399);
    let y = yoe + era * 400;
    let doy = doe - (365 * yoe + yoe / 4 - yoe / 100);
    assert(doy <= 365);
    let mp = (5 * doy + 2) / 153;
    let day = doy - (153 * mp + 2) / 5 + 1;
    let month = if mp < 10 {
        mp + 3
    } else {
        mp - 9
    };
    let year = if month <= 2 {
        y + 1
    } else {
        y
    };
    let t = CivilTime { year, month, day, hour, minute, second };
    proof {
        assert(t == civil_of(ts_ms));
        lemma_civil_day_number(ts_ms);
        lemma_time_of_day(secs as int);
    }
    t
}

proof fn lemma_time_of_day(secs: int)
    requires
        0 <= secs,
    ensures
        ((secs % 86400) / 3600) * 3600 + ((secs % 3600) / 60) * 60 + secs % 60 == secs % 86400,
{
    vstd::arithmetic::div_mod::lemma_mod_mod(secs, 3600, 24);
    vstd::arithmetic::div_mod::lemma_mod_mod(secs, 60, 60);
    let r = secs % 86400;
    assert(secs % 3600 == r % 3600);
    let m = secs % 3600;
    assert(secs % 60 == m % 60);
}

/// The date of a moment has the number of whole days since the first of
/// January 1970 as its day number.
pub proof fn lemma_civil_day_number(ts_ms: u64)
    ensures
        day_number(
            civil_of(ts_ms).year as int,
            civil_of(ts_ms).month as int,
            civil_of(ts_ms).day as int,
        ) == ts_ms / 86_400_000,
{
    let secs = ts_ms as int / 1000;
    let days = secs / 86400;
    let era = (days + 719468) / 146097;
    let doe = day_of_era(days);
    let yoe = year_of_era(doe);
    let doy = day_of_year(doe);
    let mp = shifted_month(doy);
    let month = if mp < 10 {
        mp + 3
    } else {
        mp - 9
    };
    let year = yoe + era * 400 + (if month <= 2 {
        1int
    } else {
        0int
    });
    let day = doy - days_after_march(mp) + 1;
    assert(0 <= days);
    assert(0 <= doe <= 146096);
    assert(days + 719468 == era * 146097 + doe);
    assert(era >= 4);
    assert(0 <= yoe <= 399);
    assert(0 <= doy <= 365);
    assert(0 <= mp <= 11);
    assert(1 <= day <= 31);
    assert(1 <= month <= 12);
    assert(year >= 1970 - 1);
    lemma_day_number(days, era, yoe, doy, mp, day, month, year);
    lemma_whole_days(ts_ms as int);
    assert(civil_of(ts_ms).year == year as u64);
    assert(civil_of(ts_ms).month == month as u64);
    assert(civil_of(ts_ms).day == day as u64);
    assert(year <= 0x7fff_ffff_ffff_ffff && year >= 0);
}

} // verus!
