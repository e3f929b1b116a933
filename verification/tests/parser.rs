use redis_replay::command::{ParseError, ReplayCommand};
use redis_replay::command::{parse_i32, trim_leading, trim_trailing, unescape_arg};

#[test]
fn sentinel_parses_to_empty() {
    // the ack line carries no command, and is never mistaken for one
    let r = ReplayCommand::parse("OK".to_string()).unwrap();
    assert!(r.is_none());
}

#[test]
fn sentinel_must_match_exactly() {
    assert!(ReplayCommand::parse("OK ".to_string()).is_err());
    assert!(ReplayCommand::parse("ok".to_string()).is_err());
}

#[test]
fn parses_example_set_line() {
    let line = "1690000000.100000 [0 127.0.0.1:1] \"SET\" \"k\" \"v\"".to_string();
    let cmd = ReplayCommand::parse(line).unwrap().unwrap();
    assert_eq!(cmd.ts().as_micros(), 1_690_000_000_100_000);
    assert_eq!(*cmd.db(), 0);
    assert_eq!(cmd.command().as_str(), "SET");
    assert_eq!(cmd.args(), &vec!["k".to_string(), "v".to_string()]);
}

#[test]
fn parses_example_get_line() {
    let line = "1690000000.600000 [0 127.0.0.1:1] \"GET\" \"k\"".to_string();
    let cmd = ReplayCommand::parse(line).unwrap().unwrap();
    assert_eq!(cmd.ts().as_micros(), 1_690_000_000_600_000);
    assert_eq!(cmd.command().as_str(), "GET");
    assert_eq!(cmd.args(), &vec!["k".to_string()]);
}

#[test]
fn command_name_is_upper_cased() {
    let cmd = ReplayCommand::parse("1.0 [2 origin] get k".to_string()).unwrap().unwrap();
    assert_eq!(cmd.command().as_str(), "GET");
    assert_eq!(*cmd.db(), 2);
}

#[test]
fn command_trailing_bracket_is_stripped() {
    let cmd = ReplayCommand::parse("1.0 [0 origin] set] k".to_string()).unwrap().unwrap();
    assert_eq!(cmd.command().as_str(), "SET");
}

#[test]
fn quoted_token_with_space_is_one_argument() {
    let cmd = ReplayCommand::parse("1.0 [0 o] SET \"a b\" v".to_string()).unwrap().unwrap();
    assert_eq!(cmd.args(), &vec!["a b".to_string(), "v".to_string()]);
}

#[test]
fn origin_token_is_discarded() {
    let cmd = ReplayCommand::parse("1.0 [3 10.0.0.7:4242] PING".to_string()).unwrap().unwrap();
    assert_eq!(*cmd.db(), 3);
    assert_eq!(cmd.command().as_str(), "PING");
    assert!(cmd.args().is_empty());
}

#[test]
fn unescape_leaves_single_backslash_alone() {
    // tokenizer output `hello\world` stays `hello\world`
    assert_eq!(unescape_arg("hello\\world"), "hello\\world");
}

#[test]
fn unescape_collapses_double_backslashes() {
    // `he\\\\llo` becomes `he\\llo`
    assert_eq!(unescape_arg("he\\\\\\\\llo"), "he\\\\llo");
}

#[test]
fn unescape_collapses_escaped_quote() {
    assert_eq!(unescape_arg("a\\\"b"), "a\"b");
}

#[test]
fn mismatched_quotes_error() {
    let r = ReplayCommand::parse("1.0 \"unclosed".to_string());
    assert_eq!(r.unwrap_err(), ParseError::MismatchedQuotes);
}

#[test]
fn missing_timestamp_error() {
    let r = ReplayCommand::parse("".to_string());
    assert_eq!(r.unwrap_err(), ParseError::MissingTimestamp);
}

#[test]
fn invalid_timestamp_error() {
    let r = ReplayCommand::parse("abc [0 o] SET".to_string());
    assert_eq!(r.unwrap_err(), ParseError::InvalidTimestamp);
}

#[test]
fn missing_db_error() {
    let r = ReplayCommand::parse("1.0".to_string());
    assert_eq!(r.unwrap_err(), ParseError::MissingDb);
}

#[test]
fn invalid_db_error() {
    let r = ReplayCommand::parse("1.0 [x o] SET".to_string());
    assert_eq!(r.unwrap_err(), ParseError::InvalidDb);
}

#[test]
fn missing_origin_error() {
    let r = ReplayCommand::parse("1.0 [0".to_string());
    assert_eq!(r.unwrap_err(), ParseError::MissingOrigin);
}

#[test]
fn missing_command_error() {
    let r = ReplayCommand::parse("1.0 [0 127.0.0.1:1".to_string());
    assert_eq!(r.unwrap_err(), ParseError::MissingCommand);
}

#[test]
fn from_tokens_builds_command() {
    let words = vec![
        "1.5".to_string(),
        "[2".to_string(),
        "origin".to_string(),
        "get]".to_string(),
        "k".to_string(),
    ];
    let cmd = ReplayCommand::from_tokens(words).unwrap();
    assert_eq!(cmd.ts().as_micros(), 1_500_000);
    assert_eq!(*cmd.db(), 2);
    assert_eq!(cmd.command().as_str(), "GET");
    assert_eq!(cmd.args(), &vec!["k".to_string()]);
}

#[test]
fn db_selector_strips_all_leading_brackets() {
    let cmd = ReplayCommand::parse("1.0 [[5 o] SET".to_string()).unwrap().unwrap();
    assert_eq!(*cmd.db(), 5);
}

#[test]
fn parse_i32_basic() {
    assert_eq!(parse_i32("0"), Some(0));
    assert_eq!(parse_i32("-42"), Some(-42));
    assert_eq!(parse_i32("+7"), Some(7));
    assert_eq!(parse_i32("0012"), Some(12));
}

#[test]
fn parse_i32_range() {
    assert_eq!(parse_i32("2147483647"), Some(2147483647));
    assert_eq!(parse_i32("-2147483648"), Some(-2147483648));
    assert_eq!(parse_i32("2147483648"), None);
    assert_eq!(parse_i32("-2147483649"), None);
    assert_eq!(parse_i32("99999999999999999999"), None);
}

#[test]
fn parse_i32_malformed() {
    assert_eq!(parse_i32(""), None);
    assert_eq!(parse_i32("-"), None);
    assert_eq!(parse_i32("12a"), None);
    assert_eq!(parse_i32("1.2"), None);
}

#[test]
fn trim_helpers() {
    assert_eq!(trim_leading("[[0", '['), "0");
    assert_eq!(trim_leading("0", '['), "0");
    assert_eq!(trim_leading("", '['), "");
    assert_eq!(trim_trailing("set]]", ']'), "set");
    assert_eq!(trim_trailing("]", ']'), "");
    assert_eq!(trim_trailing("set", ']'), "set");
}
