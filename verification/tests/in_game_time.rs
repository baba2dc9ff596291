//! Tests of the textual progress-sample parser.

use split_tracker::in_game_time::InGameTime;

#[test]
fn test_parse_valid_input() {
    let input = ": 117% 3:03:23";
    let result = InGameTime::parse(input).unwrap();
    assert_eq!(
        result,
        InGameTime {
            percent: 117,
            duration: 3 * 3600 + 3 * 60 + 23,
        }
    );
}

#[test]
fn test_parse_without_colon_prefix() {
    let input = "85% 0:59:01";
    let result = InGameTime::parse(input).unwrap();
    assert_eq!(
        result,
        InGameTime {
            percent: 85,
            duration: 59 * 60 + 1,
        }
    );
}

#[test]
fn test_parse_invalid_format_too_few_parts() {
    let input = "85%";
    let result = InGameTime::parse(input);
    assert!(result.is_err());
}

#[test]
fn test_parse_invalid_format_time_wrong() {
    let input = "85% 59:01";
    let result = InGameTime::parse(input);
    assert!(result.is_err());
}

#[test]
fn test_parse_large_duration_and_percent() {
    let input = ": 999% 123:45:59";
    let result = InGameTime::parse(input).unwrap();
    assert_eq!(
        result,
        InGameTime {
            percent: 999,
            duration: 123 * 3600 + 45 * 60 + 59,
        }
    );
    assert_eq!(result.format(), "999% 123:45:59");
}

#[test]
fn test_parse_extra_whitespace() {
    let input = "   :   42%    1:02:03   ";
    let result = InGameTime::parse(input).unwrap();
    assert_eq!(
        result,
        InGameTime {
            percent: 42,
            duration: 1 * 3600 + 2 * 60 + 3,
        }
    );
}

#[test]
fn test_parse_too_many_time_parts() {
    let input = ": 10% 1:02:03:04";
    let result = InGameTime::parse(input);
    assert!(result.is_err());
}

#[test]
fn test_parse_too_few_time_parts() {
    let input = ": 10% 45";
    let result = InGameTime::parse(input);
    assert!(result.is_err());
}

#[test]
fn test_parse_single_digit_seconds_should_fail() {
    let input = "42% 1:03:2"; // seconds not two-digit
    let result = InGameTime::parse(input);
    assert!(result.is_err());
}

#[test]
fn test_parse_minutes_equal_to_60_should_fail() {
    let input = "42% 1:60:00"; // minutes = 60 (invalid)
    let result = InGameTime::parse(input);
    assert!(result.is_err());
}

#[test]
fn test_parse_seconds_equal_to_60_should_fail() {
    let input = "42% 1:00:60"; // seconds = 60 (invalid)
    let result = InGameTime::parse(input);
    assert!(result.is_err());
}

#[test]
fn test_parse_minutes_above_60_should_fail() {
    let input = "42% 1:75:00"; // minutes > 60 (invalid)
    let result = InGameTime::parse(input);
    assert!(result.is_err());
}

#[test]
fn test_parse_seconds_above_60_should_fail() {
    let input = "42% 1:00:75"; // seconds > 60 (invalid)
    let result = InGameTime::parse(input);
    assert!(result.is_err());
}

#[test]
fn test_parse_minutes_and_seconds_just_below_60_should_pass() {
    let input = "42% 1:59:59"; // valid upper bound
    let result = InGameTime::parse(input);
    assert!(result.is_ok());
}

#[test]
fn parse_rejects_garbage_percent() {
    assert!(InGameTime::parse("abc% 0:10:00").is_err());
    assert!(InGameTime::parse("% 0:10:00").is_err());
}

#[test]
fn parse_error_is_malformed_sample() {
    let result = InGameTime::parse("nonsense");
    assert_eq!(result, Err(split_tracker::SplitsError::MalformedSample));
}
