use ironcat::config::{
    dimension, parse_integer, seed_count, ConfigError, DEFAULT_COLUMNS, DEFAULT_ROWS,
};

#[test]
fn the_default_grid_is_23_by_38() {
    assert_eq!(DEFAULT_ROWS, 23);
    assert_eq!(DEFAULT_COLUMNS, 38);
    assert_eq!(dimension(None, DEFAULT_ROWS), Ok(23));
    assert_eq!(dimension(None, DEFAULT_COLUMNS), Ok(38));
}

#[test]
fn a_decimal_number_is_read() {
    assert_eq!(parse_integer("0"), Ok(0));
    assert_eq!(parse_integer("7"), Ok(7));
    assert_eq!(parse_integer("23"), Ok(23));
    assert_eq!(parse_integer("1234567890"), Ok(1234567890));
    assert_eq!(parse_integer("007"), Ok(7));
    assert_eq!(parse_integer("+42"), Ok(42));
}

#[test]
fn the_largest_number_is_read_and_the_next_is_not() {
    let largest = usize::MAX.to_string();
    assert_eq!(parse_integer(&largest), Ok(usize::MAX));
    assert_eq!(parse_integer(&format!("000{}", largest)), Ok(usize::MAX));
    let mut next = largest.clone().into_bytes();
    let last = next.len() - 1;
    next[last] += 1;
    let next = String::from_utf8(next).unwrap();
    assert_eq!(parse_integer(&next), Err(ConfigError::UnparsableInteger));
    assert_eq!(parse_integer(&format!("{}0", largest)), Err(ConfigError::UnparsableInteger));
    assert_eq!(
        parse_integer("99999999999999999999999999999999999999999"),
        Err(ConfigError::UnparsableInteger)
    );
}

#[test]
fn what_is_no_number_is_refused() {
    for text in ["", "+", "-", "-1", "-0", "++1", "+-1", "1+", "12a", "a12", " 12", "12 ", "1 2",
        "1_000", "0x10", "1.5", "1e3", "\u{663}", "\u{ff11}", "twelve"]
    {
        assert_eq!(parse_integer(text), Err(ConfigError::UnparsableInteger));
    }
}

#[test]
fn reading_agrees_with_the_standard_library() {
    let pieces = ["", "+", "-", "0", "1", "9", "18446744073709551615", "18446744073709551616",
        "4294967295", "4294967296", " ", "a", "/", ":", "00", "\u{e9}"];
    for first in pieces {
        for second in pieces {
            for third in pieces {
                let text = format!("{}{}{}", first, second, third);
                assert_eq!(parse_integer(&text).ok(), text.parse::<usize>().ok());
            }
        }
    }
}

#[test]
fn a_dimension_is_a_number_above_zero() {
    assert_eq!(dimension(Some("5"), 23), Ok(5));
    assert_eq!(dimension(Some("+1"), 23), Ok(1));
    assert_eq!(dimension(Some("0"), 23), Err(ConfigError::ZeroDimension));
    assert_eq!(dimension(Some("000"), 38), Err(ConfigError::ZeroDimension));
    assert_eq!(dimension(Some("five"), 23), Err(ConfigError::UnparsableInteger));
    assert_eq!(dimension(Some(""), 23), Err(ConfigError::UnparsableInteger));
    assert_eq!(dimension(Some("-3"), 23), Err(ConfigError::UnparsableInteger));
}

#[test]
fn a_seed_count_may_be_zero_or_left_out() {
    assert_eq!(seed_count(None), Ok(None));
    assert_eq!(seed_count(Some("0")), Ok(Some(0)));
    assert_eq!(seed_count(Some("437")), Ok(Some(437)));
    assert_eq!(seed_count(Some("4x")), Err(ConfigError::UnparsableInteger));
    assert_eq!(seed_count(Some("-1")), Err(ConfigError::UnparsableInteger));
}
