use jira_worklog::client::JiraClient;
use jira_worklog::duration::{parse_trimmed_duration, DurationError};

fn parse_time_to_seconds(s: &str) -> Result<u32, DurationError> {
    JiraClient::parse_time_to_seconds(s)
}

#[test]
fn hours_minutes_days() {
    assert_eq!(parse_time_to_seconds("2h"), Ok(7200));
    assert_eq!(parse_time_to_seconds("30m"), Ok(1800));
    assert_eq!(parse_time_to_seconds("1d"), Ok(28800));
}

#[test]
fn fractional_hours() {
    assert_eq!(parse_time_to_seconds("1.5h"), Ok(5400));
    assert_eq!(parse_time_to_seconds("0.25h"), Ok(900));
    assert_eq!(parse_time_to_seconds(".5m"), Ok(30));
    assert_eq!(parse_time_to_seconds("2.m"), Ok(120));
}

#[test]
fn fraction_is_truncated() {
    // 0.0001 h is 0.36 s
    assert_eq!(parse_time_to_seconds("0.0001h"), Ok(0));
    // 0.999 m is 59.94 s
    assert_eq!(parse_time_to_seconds("0.999m"), Ok(59));
    // 1.00000000000000000000001 h
    assert_eq!(parse_time_to_seconds("1.00000000000000000000001h"), Ok(3600));
}

#[test]
fn empty_input() {
    assert_eq!(parse_time_to_seconds(""), Err(DurationError::EmptyInput));
    assert_eq!(parse_time_to_seconds("   "), Err(DurationError::EmptyInput));
    assert_eq!(parse_trimmed_duration(""), Err(DurationError::EmptyInput));
}

#[test]
fn unknown_unit() {
    assert_eq!(parse_time_to_seconds("5x"), Err(DurationError::InvalidFormat));
    assert_eq!(parse_time_to_seconds("5"), Err(DurationError::InvalidFormat));
    assert_eq!(parse_time_to_seconds("5H"), Err(DurationError::InvalidFormat));
}

#[test]
fn malformed_number() {
    assert_eq!(parse_time_to_seconds("h"), Err(DurationError::InvalidFormat));
    assert_eq!(parse_time_to_seconds(".h"), Err(DurationError::InvalidFormat));
    assert_eq!(parse_time_to_seconds("1.2.3h"), Err(DurationError::InvalidFormat));
    assert_eq!(parse_time_to_seconds("1 h"), Err(DurationError::InvalidFormat));
    assert_eq!(parse_time_to_seconds("abch"), Err(DurationError::InvalidFormat));
    assert_eq!(parse_time_to_seconds("1.xh"), Err(DurationError::InvalidFormat));
    assert_eq!(parse_time_to_seconds("+h"), Err(DurationError::InvalidFormat));
}

#[test]
fn whitespace_is_trimmed() {
    assert_eq!(parse_time_to_seconds("  2h \n"), Ok(7200));
    assert_eq!(parse_trimmed_duration(" 2h"), Err(DurationError::InvalidFormat));
}

#[test]
fn signs() {
    assert_eq!(parse_time_to_seconds("+2h"), Ok(7200));
    assert_eq!(parse_time_to_seconds("-2h"), Err(DurationError::InvalidFormat));
    assert_eq!(parse_time_to_seconds("-0h"), Ok(0));
}

#[test]
fn largest_amounts() {
    // u32::MAX = 4294967295 = 71582788 * 60 + 15
    assert_eq!(parse_time_to_seconds("71582788m"), Ok(4294967280));
    assert_eq!(parse_time_to_seconds("71582788.25m"), Ok(4294967295));
    assert_eq!(parse_time_to_seconds("71582789m"), Err(DurationError::InvalidFormat));
    assert_eq!(parse_time_to_seconds("99999999999999999999d"), Err(DurationError::InvalidFormat));
    assert_eq!(parse_time_to_seconds("0000000000000000000001h"), Ok(3600));
}

#[test]
fn unicode_white_space_is_trimmed() {
    assert_eq!(parse_time_to_seconds("\u{3000}2h\u{a0}"), Ok(7200));
    assert_eq!(parse_time_to_seconds("\u{2028}\u{85}"), Err(DurationError::EmptyInput));
}

#[test]
fn exponent_notation() {
    assert_eq!(parse_time_to_seconds("1e1h"), Ok(36000));
    assert_eq!(parse_time_to_seconds("1e2h"), Ok(360000));
    assert_eq!(parse_time_to_seconds("1.e1h"), Ok(36000));
    assert_eq!(parse_time_to_seconds("15e-1h"), Ok(5400));
    assert_eq!(parse_time_to_seconds("1.5E+1m"), Ok(900));
    assert_eq!(parse_time_to_seconds(".5e1m"), Ok(300));
    assert_eq!(parse_time_to_seconds("25e-5h"), Ok(0));
    assert_eq!(parse_time_to_seconds("1000000e-5d"), Ok(288000));
    assert_eq!(parse_time_to_seconds("-1e-9h"), Ok(0));
}

#[test]
fn far_exponents() {
    assert_eq!(parse_time_to_seconds("0e999999999999999999999h"), Ok(0));
    assert_eq!(parse_time_to_seconds("1e-999999999999999999999h"), Ok(0));
    assert_eq!(parse_time_to_seconds("1e999999999999999999999h"), Err(DurationError::InvalidFormat));
    assert_eq!(parse_time_to_seconds("1e9h"), Err(DurationError::InvalidFormat));
    assert_eq!(parse_time_to_seconds("7158278.8e1m"), Ok(4294967280));
}

#[test]
fn malformed_exponents() {
    assert_eq!(parse_time_to_seconds("1eh"), Err(DurationError::InvalidFormat));
    assert_eq!(parse_time_to_seconds("1e+h"), Err(DurationError::InvalidFormat));
    assert_eq!(parse_time_to_seconds("e1h"), Err(DurationError::InvalidFormat));
    assert_eq!(parse_time_to_seconds(".e1h"), Err(DurationError::InvalidFormat));
    assert_eq!(parse_time_to_seconds("1e1.5h"), Err(DurationError::InvalidFormat));
    assert_eq!(parse_time_to_seconds("1e1e1h"), Err(DurationError::InvalidFormat));
}

#[test]
fn not_decimals() {
    assert_eq!(parse_time_to_seconds("infh"), Err(DurationError::InvalidFormat));
    assert_eq!(parse_time_to_seconds("nanm"), Err(DurationError::InvalidFormat));
}
