//! The text of log records: a UTC timestamp, the level, the target and the message.

use crate::config::value::LogLevel;
use crate::text;
use vstd::prelude::*;

verus! {

/// Whether a year of the Gregorian calendar has a 29th of February.
pub open spec fn leap(year: int) -> bool {
    year % 4 == 0 && (year % 100 != 0 || year % 400 == 0)
}

/// How many days a month has.
pub open spec fn days_in_month(year: int, month: int) -> int {
    if month == 2 {
        if leap(year) {
            29
        } else {
            28
        }
    } else if month == 4 || month == 6 || month == 9 || month == 11 {
        30
    } else {
        31
    }
}

/// How many days lie between the first of 1970 and the first of `year`.
pub open spec fn days_before_year(year: int) -> int
    decreases year - 1970,
{
    if year <= 1970 {
        0
    } else {
        days_before_year(year - 1) + if leap(year - 1) {
            366int
        } else {
            365
        }
    }
}

/// How many days of `year` lie before the first of `month`.
pub open spec fn days_before_month(year: int, month: int) -> int
    decreases month,
{
    if month <= 1 {
        0
    } else {
        days_before_month(year, month - 1) + days_in_month(year, month - 1)
    }
}

/// Whether a day stands in the calendar, from 1970 on.
pub open spec fn is_date(year: int, month: int, day: int) -> bool {
    1970 <= year && 1 <= month <= 12 && 1 <= day <= days_in_month(year, month)
}

/// How many days lie between the first of 1970 and a day.
pub open spec fn day_number(year: int, month: int, day: int) -> int {
    days_before_year(year) + days_before_month(year, month) + day - 1
}

/// A date and time of day in UTC.
#[derive(Debug, Clone, Copy, PartialEq, Eq, Structural)]
pub struct Utc {
    pub year: u64,
    pub month: u64,
    pub day: u64,
    pub hour: u64,
    pub minute: u64,
    pub second: u64,
}

/// Whether `utc` is the instant `secs` seconds after the beginning of 1970.
pub open spec fn is_instant(utc: Utc, secs: int) -> bool {
    &&& is_date(utc.year as int, utc.month as int, utc.day as int)
    &&& utc.hour < 24
    &&& utc.minute < 60
    &&& utc.second < 60
    &&& secs == day_number(utc.year as int, utc.month as int, utc.day as int) * 86400 + utc.hour
        * 3600 + utc.minute * 60 + utc.second
}

/// The number of days from the first of March of the year 0 to that of `year`.
spec fn march_days(year: int) -> int {
    365 * year + year / 4 - year / 100 + year / 400
}

/// The days of a leap year, or of another, before a month.
proof fn lemma_month_starts(year: int)
    ensures
        days_before_month(year, 1) == 0,
        days_before_month(year, 2) == 31,
        days_before_month(year, 3) == 59 + if leap(year) {
            1int
        } else {
            0
        },
        days_before_month(year, 4) == days_before_month(year, 3) + 31,
        days_before_month(year, 5) == days_before_month(year, 3) + 61,
        days_before_month(year, 6) == days_before_month(year, 3) + 92,
        days_before_month(year, 7) == days_before_month(year, 3) + 122,
        days_before_month(year, 8) == days_before_month(year, 3) + 153,
        days_before_month(year, 9) == days_before_month(year, 3) + 184,
        days_before_month(year, 10) == days_before_month(year, 3) + 214,
        days_before_month(year, 11) == days_before_month(year, 3) + 245,
        days_before_month(year, 12) == days_before_month(year, 3) + 275,
{
    reveal_with_fuel(days_before_month, 13);
}

spec fn leap_days(year: int) -> int {
    if leap(year) {
        1
    } else {
        0
    }
}

proof fn lemma_quarter(year: int)
    ensures
        year / 4 - (year - 1) / 4 == if year % 4 == 0 {
            1int
        } else {
            0
        },
{
}

proof fn lemma_century(year: int)
    ensures
        year / 100 - (year - 1) / 100 == if year % 100 == 0 {
            1int
        } else {
            0
        },
        year % 100 == 0 ==> year % 4 == 0,
{
}

proof fn lemma_era(year: int)
    ensures
        year / 400 - (year - 1) / 400 == if year % 400 == 0 {
            1int
        } else {
            0
        },
        year % 400 == 0 ==> year % 100 == 0,
{
}

/// From one March to the next, a year passes, and the leap day of the later year where it has one.
proof fn lemma_march_step(year: int)
    ensures
        march_days(year) == march_days(year - 1) + 365 + leap_days(year),
{
    lemma_quarter(year);
    lemma_century(year);
    lemma_era(year);
}

/// The first of March lies 59 days behind the first of a common year.
proof fn lemma_march(year: int)
    requires
        year >= 1970,
    ensures
        march_days(year) - 719468 == days_before_year(year) + 59 + leap_days(year),
    decreases year - 1970,
{
    if year > 1970 {
        lemma_march(year - 1);
        lemma_march_step(year);
    }
}

/// A day of a 400-year era split into centuries, spans of four years, years and days.
struct EraDay {
    century: int,
    span: int,
    year: int,
    day: int,
}

spec fn era_day(doe: int) -> EraDay {
    let century = if doe == 146096 {
        3
    } else {
        doe / 36524
    };
    let in_century = doe - 36524 * century;
    let span = in_century / 1461;
    let in_span = in_century - 1461 * span;
    let year = if in_span == 1460 {
        3
    } else {
        in_span / 365
    };
    EraDay { century, span, year, day: in_span - 365 * year }
}

proof fn lemma_era_day(doe: int)
    requires
        0 <= doe <= 146096,
    ensures
        ({
            let e = era_day(doe);
            &&& 0 <= e.century <= 3
            &&& 0 <= e.span <= 24
            &&& 0 <= e.year <= 3
            &&& 0 <= e.day <= 365
            &&& e.day == 365 ==> e.year == 3 && (e.span == 24 ==> e.century == 3)
            &&& doe == 36524 * e.century + 1461 * e.span + 365 * e.year + e.day
        }),
{
}

/// The year of the era by one division, after the leap days before the day are taken off.
proof fn lemma_year_of_era(doe: int)
    requires
        0 <= doe <= 146096,
    ensures
        (doe - doe / 1460 + doe / 36524 - doe / 146096) / 365 == 100 * era_day(doe).century + 4
            * era_day(doe).span + era_day(doe).year,
{
    let e = era_day(doe);
    lemma_era_day(doe);
    if doe < 146096 {
        let in_span = 365 * e.year + e.day;
        let slack = 24 * e.century + e.span + in_span;
        assert(doe == 1460 * (25 * e.century + e.span) + slack);
        assert(0 <= slack < 2920);
        let t = if slack >= 1460 {
            1int
        } else {
            0
        };
        assert(doe / 1460 == 25 * e.century + e.span + t);
        assert(doe / 36524 == e.century);
        assert(doe / 146096 == 0);
        let n = doe - doe / 1460 + doe / 36524 - doe / 146096;
        assert(n == 365 * (100 * e.century + 4 * e.span) + in_span - t);
        assert(0 <= in_span - t - 365 * e.year < 365);
    }
}

/// The month, counted from March, and the day of the month of a day of the year.
proof fn lemma_month(doy: int)
    requires
        0 <= doy <= 365,
    ensures
        ({
            let mp = (5 * doy + 2) / 153;
            let day = doy - (153 * mp + 2) / 5 + 1;
            &&& 0 <= mp <= 11
            &&& mp == 0 ==> doy == day - 1 && 1 <= day <= 31
            &&& mp == 1 ==> doy == 31 + day - 1 && 1 <= day <= 30
            &&& mp == 2 ==> doy == 61 + day - 1 && 1 <= day <= 31
            &&& mp == 3 ==> doy == 92 + day - 1 && 1 <= day <= 30
            &&& mp == 4 ==> doy == 122 + day - 1 && 1 <= day <= 31
            &&& mp == 5 ==> doy == 153 + day - 1 && 1 <= day <= 31
            &&& mp == 6 ==> doy == 184 + day - 1 && 1 <= day <= 30
            &&& mp == 7 ==> doy == 214 + day - 1 && 1 <= day <= 31
            &&& mp == 8 ==> doy == 245 + day - 1 && 1 <= day <= 30
            &&& mp == 9 ==> doy == 275 + day - 1 && 1 <= day <= 31
            &&& mp == 10 ==> doy == 306 + day - 1 && 1 <= day <= 31
            &&& mp == 11 ==> doy == 337 + day - 1 && 1 <= day <= 29
            &&& mp == 11 && day == 29 ==> doy == 365
        }),
{
}

/// The days up to a March, counted by eras.
proof fn lemma_march_by_era(era: int, e: EraDay)
    requires
        0 <= e.century <= 3,
        0 <= e.span <= 24,
        0 <= e.year <= 3,
    ensures
        march_days(400 * era + 100 * e.century + 4 * e.span + e.year) == 146097 * era + 36524
            * e.century + 1461 * e.span + 365 * e.year,
        (100 * e.century + 4 * e.span + e.year) / 4 == 25 * e.century + e.span,
        (100 * e.century + 4 * e.span + e.year) / 100 == e.century,
{
    let yoe = 100 * e.century + 4 * e.span + e.year;
    let year = 400 * era + yoe;
    assert(year / 4 == 100 * era + 25 * e.century + e.span);
    assert(year / 100 == 4 * era + e.century);
    assert(year / 400 == era);
}

/// The leap day at the end of a March-based year falls into a leap year.
proof fn lemma_leap_day(era: int, e: EraDay)
    requires
        0 <= e.century <= 3,
        0 <= e.span <= 24,
        e.year == 3,
        e.span == 24 ==> e.century == 3,
    ensures
        leap(400 * era + 100 * e.century + 4 * e.span + e.year + 1),
{
    let next = 400 * era + 100 * e.century + 4 * e.span + 4;
    assert(next % 4 == 0);
    if e.span == 24 {
        assert(next == 400 * (era + 1));
        assert(next % 400 == 0);
    } else {
        assert(next % 100 == 4 * e.span + 4);
    }
}

/// The calendar computation lands on the day it started from.
proof fn lemma_civil(days: int)
    requires
        days >= 0,
    ensures
        ({
            let z = days + 719468;
            let era = z / 146097;
            let doe = z - era * 146097;
            let yoe = (doe - doe / 1460 + doe / 36524 - doe / 146096) / 365;
            let doy = doe - (365 * yoe + yoe / 4 - yoe / 100);
            let mp = (5 * doy + 2) / 153;
            let day = doy - (153 * mp + 2) / 5 + 1;
            let month = if mp < 10 {
                mp + 3
            } else {
                mp - 9
            };
            let year = era * 400 + yoe + if month <= 2 {
                1int
            } else {
                0
            };
            &&& 0 <= doe <= 146096
            &&& 0 <= yoe <= 399
            &&& 0 <= doy <= 365
            &&& 0 <= mp <= 11
            &&& is_date(year, month, day)
            &&& day_number(year, month, day) == days
        }),
{
    let z = days + 719468;
    let era = z / 146097;
    let doe = z - era * 146097;
    let yoe = (doe - doe / 1460 + doe / 36524 - doe / 146096) / 365;
    let doy = doe - (365 * yoe + yoe / 4 - yoe / 100);
    let mp = (5 * doy + 2) / 153;
    let day = doy - (153 * mp + 2) / 5 + 1;
    let e = era_day(doe);
    assert(0 <= doe <= 146096);
    lemma_era_day(doe);
    lemma_year_of_era(doe);
    lemma_march_by_era(era, e);
    assert(doy == e.day);
    lemma_month(doy);
    let start = era * 400 + yoe;
    assert(z == march_days(start) + doy);
    assert(era >= 4);
    if era == 4 {
        assert(doe >= 135080);
        assert(e.century == 3);
        assert(e.span >= 17);
        assert(e.span == 17 ==> e.year >= 1);
        assert(e.span == 17 && e.year == 1 ==> doy >= 306);
    }
    assert(start >= 1969);
    assert(start == 1969 ==> doy >= 306);
    if mp < 10 {
        lemma_march(start);
        lemma_month_starts(start);
    } else {
        lemma_march_step(start + 1);
        lemma_march(start + 1);
        lemma_month_starts(start + 1);
        if day == 29 && mp == 11 {
            lemma_leap_day(era, e);
        }
    }
}

/// The text of a date and time, as in `2026-06-19T18:49:58Z`.
pub open spec fn iso_text(utc: Utc) -> Seq<char> {
    text::padded(utc.year as nat, 4) + "-"@ + text::padded(utc.month as nat, 2) + "-"@
        + text::padded(utc.day as nat, 2) + "T"@ + text::padded(utc.hour as nat, 2) + ":"@
        + text::padded(utc.minute as nat, 2) + ":"@ + text::padded(utc.second as nat, 2) + "Z"@
}

proof fn lemma_time_of_day(secs: u64)
    ensures
        secs == (secs / 86_400) * 86_400 + (secs % 86_400 / 3_600) * 3_600 + (secs % 3_600 / 60)
            * 60 + secs % 60,
        secs % 86_400 / 3_600 < 24,
        secs % 3_600 / 60 < 60,
{
    assert(secs % 86_400 == (secs % 86_400 / 3_600) * 3_600 + secs % 3_600);
}

/// The year, month and day `days` days after the first of 1970.
#[verifier::spinoff_prover]
fn civil_from_days(days: u64) -> (date: (u64, u64, u64))
    requires
        days <= 0xffff_ffff_ffff,
    ensures
        is_date(date.0 as int, date.1 as int, date.2 as int),
        day_number(date.0 as int, date.1 as int, date.2 as int) == days,
{
    proof {
        lemma_civil(days as int);
    }
    // Counted from the first of March of the year 0, a 400-year era ends on a leap day.
    let z: u64 = days + 719_468;
    let era: u64 = z / 146_097;
    let doe: u64 = z - era * 146_097;
    let yoe: u64 = (doe - doe / 1_460 + doe / 36_524 - doe / 146_096) / 365;
    let doy: u64 = doe - (365 * yoe + yoe / 4 - yoe / 100);
    let mp: u64 = (5 * doy + 2) / 153;
    let day: u64 = doy - (153 * mp + 2) / 5 + 1;
    let month: u64 = if mp < 10 {
        mp + 3
    } else {
        mp - 9
    };
    let year: u64 = era * 400 + yoe + if month <= 2 {
        1
    } else {
        0
    };
    (year, month, day)
}

impl Utc {
    /// The date and time `secs` seconds after the beginning of 1970.
    pub fn from_unix(secs: u64) -> (utc: Self)
        ensures
            is_instant(utc, secs as int),
    {
        let days: u64 = secs / 86_400;
        let (year, month, day) = civil_from_days(days);
        let hour: u64 = secs % 86_400 / 3_600;
        let minute: u64 = secs % 3_600 / 60;
        let second: u64 = secs % 60;
        proof {
            lemma_time_of_day(secs);
        }
        Utc { year, month, day, hour, minute, second }
    }

    /// The date and time as ISO 8601 text.
    pub fn to_text(&self) -> (out: String)
        ensures
            out@ == iso_text(*self),
    {
        let mut out = String::new();
        text::push_padded(&mut out, self.year, 4);
        text::push_text(&mut out, "-");
        text::push_padded(&mut out, self.month, 2);
        text::push_text(&mut out, "-");
        text::push_padded(&mut out, self.day, 2);
        text::push_text(&mut out, "T");
        text::push_padded(&mut out, self.hour, 2);
        text::push_text(&mut out, ":");
        text::push_padded(&mut out, self.minute, 2);
        text::push_text(&mut out, ":");
        text::push_padded(&mut out, self.second, 2);
        text::push_text(&mut out, "Z");
        out
    }
}

proof fn lemma_days_before_year_grow(a: int, b: int)
    requires
        1970 <= a < b,
    ensures
        days_before_year(a) + 365 + leap_days(a) <= days_before_year(b),
    decreases b - a,
{
    if a + 1 < b {
        lemma_days_before_year_grow(a, b - 1);
    }
}

proof fn lemma_day_of_year(year: int, month: int, day: int)
    requires
        is_date(year, month, day),
    ensures
        0 <= days_before_month(year, month) + day - 1 < 365 + leap_days(year),
{
    lemma_month_starts(year);
}

proof fn lemma_days_before_month_grow(year: int, a: int, b: int)
    requires
        1 <= a < b,
    ensures
        days_before_month(year, a) + days_in_month(year, a) <= days_before_month(year, b),
    decreases b - a,
{
    if a + 1 < b {
        lemma_days_before_month_grow(year, a, b - 1);
    }
}

/// No two days of the calendar have the same number.
pub proof fn law_day_numbers_are_distinct(
    year: int,
    month: int,
    day: int,
    other_year: int,
    other_month: int,
    other_day: int,
)
    requires
        is_date(year, month, day),
        is_date(other_year, other_month, other_day),
        day_number(year, month, day) == day_number(other_year, other_month, other_day),
    ensures
        year == other_year,
        month == other_month,
        day == other_day,
{
    lemma_day_of_year(year, month, day);
    lemma_day_of_year(other_year, other_month, other_day);
    if year < other_year {
        lemma_days_before_year_grow(year, other_year);
    } else if other_year < year {
        lemma_days_before_year_grow(other_year, year);
    } else if month < other_month {
        lemma_days_before_month_grow(year, month, other_month);
    } else if other_month < month {
        lemma_days_before_month_grow(year, other_month, month);
    }
}

/// An instant has one date and time.
pub proof fn law_an_instant_has_one_date(a: Utc, b: Utc, secs: int)
    requires
        is_instant(a, secs),
        is_instant(b, secs),
    ensures
        a == b,
{
    let day_a = day_number(a.year as int, a.month as int, a.day as int);
    let day_b = day_number(b.year as int, b.month as int, b.day as int);
    let rest_a = a.hour * 3600 + a.minute * 60 + a.second;
    let rest_b = b.hour * 3600 + b.minute * 60 + b.second;
    assert(0 <= rest_a < 86400);
    assert(0 <= rest_b < 86400);
    assert(day_a == day_b);
    assert(a.hour == b.hour);
    assert(a.minute == b.minute);
    law_day_numbers_are_distinct(
        a.year as int,
        a.month as int,
        a.day as int,
        b.year as int,
        b.month as int,
        b.day as int,
    );
}

/// A level's name set right into five columns.
pub open spec fn level_column(level: Seq<char>) -> Seq<char> {
    if level.len() < 5 {
        Seq::new((5 - level.len()) as nat, |i: int| ' ') + level
    } else {
        level
    }
}

/// One log record as a line: the time, the level, the target and the message.
pub fn record_line(now: Utc, level: &str, target: &str, message: &str) -> (line: String)
    ensures
        line@ == iso_text(now) + " "@ + level_column(level@) + " "@ + target@ + ": "@ + message@,
{
    let mut line = now.to_text();
    text::push_text(&mut line, " ");
    let width: usize = level.unicode_len();
    let ghost before = line@;
    let mut written: usize = width;
    while written < 5
        invariant
            width == level@.len(),
            width <= written,
            width < 5 ==> written <= 5,
            width >= 5 ==> written == width,
            line@ =~= before + Seq::new((written - width) as nat, |i: int| ' '),
        decreases 5 - written,
    {
        line.push(' ');
        written += 1;
    }
    text::push_text(&mut line, level);
    assert(line@ =~= before + level_column(level@));
    text::push_text(&mut line, " ");
    text::push_text(&mut line, target);
    text::push_text(&mut line, ": ");
    text::push_text(&mut line, message);
    line
}

/// The threshold of the logging facade: a record passes where its level is no less severe.
#[verifier::external_type_specification]
pub struct ExLevelFilter(log::LevelFilter);

/// The facade's threshold for a configured level.
pub open spec fn filter_for(level: LogLevel) -> log::LevelFilter {
    match level {
        LogLevel::Off => log::LevelFilter::Off,
        LogLevel::Error => log::LevelFilter::Error,
        LogLevel::Warning => log::LevelFilter::Warn,
        LogLevel::Info => log::LevelFilter::Info,
        LogLevel::Debug => log::LevelFilter::Debug,
        LogLevel::Trace => log::LevelFilter::Trace,
    }
}

impl From<LogLevel> for log::LevelFilter {
    /// The facade's threshold for a configured level.
    fn from(level: LogLevel) -> (filter: log::LevelFilter) {
        match level {
            LogLevel::Off => log::LevelFilter::Off,
            LogLevel::Error => log::LevelFilter::Error,
            LogLevel::Warning => log::LevelFilter::Warn,
            LogLevel::Info => log::LevelFilter::Info,
            LogLevel::Debug => log::LevelFilter::Debug,
            LogLevel::Trace => log::LevelFilter::Trace,
        }
    }
}

impl vstd::std_specs::convert::FromSpecImpl<LogLevel> for log::LevelFilter {
    open spec fn obeys_from_spec() -> bool {
        true
    }

    open spec fn from_spec(level: LogLevel) -> log::LevelFilter {
        filter_for(level)
    }
}

} // verus!
