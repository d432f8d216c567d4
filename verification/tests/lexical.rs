use calculator::lexical::{parse_i32, parse_name, skip_ws};
use calculator::ParseError;

#[test]
fn skip_ws_skips_leading_white_space_only() {
    assert_eq!(skip_ws("  \t\n x y "), "x y ");
    assert_eq!(skip_ws("x  "), "x  ");
    assert_eq!(skip_ws(""), "");
    assert_eq!(skip_ws("   "), "");
}

#[test]
fn skip_ws_knows_white_space_beyond_ascii() {
    assert_eq!(skip_ws("\u{A0}\u{2003}\u{3000}\u{85}1"), "1");
    assert_eq!(skip_ws("\u{200B}1"), "\u{200B}1");
}

#[test]
fn parse_i32_reads_what_fits() {
    assert_eq!(parse_i32("0"), Ok(("", 0)));
    assert_eq!(parse_i32("42"), Ok(("", 42)));
    assert_eq!(parse_i32("2147483647"), Ok(("", 2147483647)));
    assert_eq!(parse_i32("0000000000002147483647"), Ok(("", 2147483647)));
}

#[test]
fn parse_i32_refuses_what_does_not_fit() {
    assert_eq!(parse_i32("2147483648"), Err(ParseError::InvalidSequence("2147483648")));
    assert_eq!(parse_i32("2147483650"), Err(ParseError::InvalidSequence("2147483650")));
    assert_eq!(parse_i32("21474836470"), Err(ParseError::InvalidSequence("21474836470")));
    assert_eq!(
        parse_i32("99999999999999999999999999999999999999999999"),
        Err(ParseError::InvalidSequence("99999999999999999999999999999999999999999999"))
    );
    assert_eq!(parse_i32("0000000000002147483648"), Err(ParseError::InvalidSequence("0000000000002147483648")));
}

fn agrees_with_std(text: &str) {
    match text.parse::<i32>() {
        Ok(n) => assert_eq!(parse_i32(text), Ok(("", n)), "{}", text),
        Err(_) => assert_eq!(parse_i32(text), Err(ParseError::InvalidSequence(text)), "{}", text),
    }
}

#[test]
fn parse_i32_agrees_with_the_standard_library() {
    let mut n: i64 = 0;
    while n < 3_000_000_000 {
        agrees_with_std(&n.to_string());
        n = n * 3 + 7;
    }
    let mut m: i64 = 2147483600;
    while m < 2147483700 {
        agrees_with_std(&m.to_string());
        m += 1;
    }
}

#[test]
fn parse_i32_takes_the_whole_run_of_digits() {
    assert_eq!(parse_i32("123+4"), Ok(("+4", 123)));
    assert_eq!(parse_i32("7"), Ok(("", 7)));
    assert_eq!(parse_i32("12 "), Ok((" ", 12)));
    assert_eq!(parse_i32("007x"), Ok(("x", 7)));
    assert_eq!(parse_i32("2147483647)"), Ok((")", 2147483647)));
}

#[test]
fn parse_i32_needs_a_digit() {
    assert_eq!(parse_i32(""), Err(ParseError::Empty));
    assert_eq!(parse_i32("x1"), Err(ParseError::InvalidChar('x')));
    assert_eq!(parse_i32(" 1"), Err(ParseError::InvalidChar(' ')));
    assert_eq!(parse_i32("-1"), Err(ParseError::InvalidChar('-')));
    assert_eq!(parse_i32("٣"), Err(ParseError::InvalidChar('٣')));
}

#[test]
fn parse_i32_reports_the_digits_that_overflow() {
    assert_eq!(parse_i32("2147483648"), Err(ParseError::InvalidSequence("2147483648")));
    assert_eq!(parse_i32("99999999999+1"), Err(ParseError::InvalidSequence("99999999999")));
}

#[test]
fn parse_name_reads_a_name_and_the_space_around_it() {
    assert_eq!(parse_name("x"), Ok(("", "x".to_string())));
    assert_eq!(parse_name("  foo_1  + 2"), Ok(("+ 2", "foo_1".to_string())));
    assert_eq!(parse_name("_"), Ok(("", "_".to_string())));
    assert_eq!(parse_name("_a9Z="), Ok(("=", "_a9Z".to_string())));
    assert_eq!(parse_name("aé"), Ok(("é", "a".to_string())));
}

#[test]
fn parse_name_ends_at_white_space() {
    assert_eq!(parse_name("x y"), Ok(("y", "x".to_string())));
    assert_eq!(parse_name("a 1"), Ok(("1", "a".to_string())));
}

#[test]
fn parse_name_needs_a_letter_or_an_underscore() {
    assert_eq!(parse_name(""), Err(ParseError::Empty));
    assert_eq!(parse_name("   "), Err(ParseError::Empty));
    assert_eq!(parse_name("1a"), Err(ParseError::InvalidChar('1')));
    assert_eq!(parse_name("  (a)"), Err(ParseError::InvalidChar('(')));
    assert_eq!(parse_name("éa"), Err(ParseError::InvalidChar('é')));
}
