use guessing_game::reader::MyError;
use guessing_game::reader::prompt_parsed;

#[test]
fn parses_plain_number() {
    assert_eq!(prompt_parsed("42"), Ok(42));
}

#[test]
fn parses_signed_number() {
    assert_eq!(prompt_parsed("+42"), Ok(42));
}

#[test]
fn parses_leading_zeros() {
    assert_eq!(prompt_parsed("007"), Ok(7));
}

#[test]
fn parses_range_bounds() {
    assert_eq!(prompt_parsed("0"), Ok(0));
    assert_eq!(prompt_parsed("1"), Ok(1));
    assert_eq!(prompt_parsed("100"), Ok(100));
    assert_eq!(prompt_parsed("255"), Ok(255));
}

#[test]
fn trims_surrounding_whitespace() {
    assert_eq!(prompt_parsed(" 42 \n"), Ok(42));
    assert_eq!(prompt_parsed("\t7\r\n"), Ok(7));
}

#[test]
fn rejects_overflowing_number() {
    assert_eq!(prompt_parsed("256"), Err(MyError::ParseError("256".to_string())));
    assert_eq!(prompt_parsed("1000"), Err(MyError::ParseError("1000".to_string())));
}

#[test]
fn rejects_non_numeric_text() {
    assert_eq!(prompt_parsed("abc"), Err(MyError::ParseError("abc".to_string())));
}

#[test]
fn rejects_decimal_fraction() {
    assert_eq!(prompt_parsed("3.5"), Err(MyError::ParseError("3.5".to_string())));
}

#[test]
fn rejects_empty_line() {
    assert_eq!(prompt_parsed(""), Err(MyError::ParseError("".to_string())));
    assert_eq!(prompt_parsed("   \n"), Err(MyError::ParseError("".to_string())));
}

#[test]
fn rejects_sign_alone() {
    assert_eq!(prompt_parsed("+"), Err(MyError::ParseError("+".to_string())));
}

#[test]
fn rejects_negative_number() {
    assert_eq!(prompt_parsed("-1"), Err(MyError::ParseError("-1".to_string())));
}

#[test]
fn rejects_inner_whitespace() {
    assert_eq!(prompt_parsed("4 2"), Err(MyError::ParseError("4 2".to_string())));
}

#[test]
fn error_carries_trimmed_text() {
    assert_eq!(prompt_parsed("  abc \n"), Err(MyError::ParseError("abc".to_string())));
}
