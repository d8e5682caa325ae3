//! Timestamps and log levels.

use log::LevelFilter;
use reflector::config::value::LogLevel;
use reflector::logging::{record_line, Utc};

#[test]
fn epoch_renders_as_iso() {
    assert_eq!(Utc::from_unix(0).to_text(), "1970-01-01T00:00:00Z");
}

#[test]
fn last_second_before_midnight() {
    assert_eq!(Utc::from_unix(86_399).to_text(), "1970-01-01T23:59:59Z");
}

#[test]
fn billennium_is_2001() {
    // 1e9 seconds after the epoch is the well-known 2001-09-09T01:46:40Z.
    assert_eq!(
        Utc::from_unix(1_000_000_000).to_text(),
        "2001-09-09T01:46:40Z"
    );
}

#[test]
fn leap_day_2000_exists() {
    // 2000 is divisible by 400, so it is a leap year and Feb 29 is valid.
    assert_eq!(
        Utc::from_unix(951_782_400).to_text(),
        "2000-02-29T00:00:00Z"
    );
}

#[test]
fn log_levels_map_to_filters() {
    assert_eq!(LevelFilter::from(LogLevel::Off), LevelFilter::Off);
    assert_eq!(LevelFilter::from(LogLevel::Error), LevelFilter::Error);
    assert_eq!(LevelFilter::from(LogLevel::Warning), LevelFilter::Warn);
    assert_eq!(LevelFilter::from(LogLevel::Info), LevelFilter::Info);
    assert_eq!(LevelFilter::from(LogLevel::Debug), LevelFilter::Debug);
    assert_eq!(LevelFilter::from(LogLevel::Trace), LevelFilter::Trace);
}

#[test]
fn the_last_second_of_the_clock_has_a_date() {
    let last = Utc::from_unix(u64::MAX);
    assert_eq!(last.second, 15);
    assert_eq!(last.to_text(), "584554051223-11-09T07:00:15Z");
}

#[test]
fn centuries_are_common_years_but_for_every_fourth() {
    // 2100 has no leap day: the 28th of February is followed by the 1st of March.
    assert_eq!(
        Utc::from_unix(4_107_456_000).to_text(),
        "2100-02-28T00:00:00Z"
    );
    assert_eq!(
        Utc::from_unix(4_107_542_400).to_text(),
        "2100-03-01T00:00:00Z"
    );
}

#[test]
fn records_are_one_line_each() {
    let now = Utc::from_unix(0);
    assert_eq!(
        record_line(now, "INFO", "reflector", "started"),
        "1970-01-01T00:00:00Z  INFO reflector: started"
    );
    assert_eq!(
        record_line(now, "ERROR", "reflector", "stopped"),
        "1970-01-01T00:00:00Z ERROR reflector: stopped"
    );
}
