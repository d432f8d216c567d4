use calculator::chars::{is_digit, is_name_char, is_name_start, is_whitespace};
use calculator::text::{any_char, satisfy, take_while};
use calculator::ParseError;

#[test]
fn any_char_takes_one_character() {
    assert_eq!(any_char("abc"), Ok(("bc", 'a')));
    assert_eq!(any_char("a"), Ok(("", 'a')));
}

#[test]
fn any_char_on_nothing_is_empty() {
    assert_eq!(any_char(""), Err(ParseError::Empty));
}

#[test]
fn any_char_keeps_a_code_point_whole() {
    assert_eq!(any_char("é1"), Ok(("1", 'é')));
    assert_eq!(any_char("🦊x"), Ok(("x", '🦊')));
    assert_eq!(any_char("\u{3000}"), Ok(("", '\u{3000}')));
}

#[test]
fn satisfy_takes_what_the_predicate_accepts() {
    assert_eq!(satisfy(|c| c == '+', "+1"), Ok(("1", '+')));
    assert_eq!(satisfy(|c| c.is_alphabetic(), "é+"), Ok(("+", 'é')));
}

#[test]
fn satisfy_reports_the_character_it_turned_down() {
    assert_eq!(satisfy(|c| c == '+', "-1"), Err(ParseError::InvalidChar('-')));
    assert_eq!(satisfy(|c| c == '+', "🦊"), Err(ParseError::InvalidChar('🦊')));
}

#[test]
fn satisfy_on_nothing_is_empty() {
    assert_eq!(satisfy(|_| true, ""), Err(ParseError::Empty));
}

#[test]
fn take_while_takes_the_longest_prefix() {
    assert_eq!(take_while(|c| c == 'a', "aaab"), ("b", "aaa"));
    assert_eq!(take_while(|c| c == 'a', "aaabaa"), ("baa", "aaa"));
    assert_eq!(take_while(|c| c == 'a', "aaa"), ("", "aaa"));
}

#[test]
fn take_while_may_take_nothing() {
    assert_eq!(take_while(|c| c == 'a', "baa"), ("baa", ""));
    assert_eq!(take_while(|c| c == 'a', ""), ("", ""));
}

#[test]
fn take_while_splits_between_code_points() {
    assert_eq!(take_while(|c| !c.is_ascii(), "éü🦊abc"), ("abc", "éü🦊"));
    assert_eq!(take_while(|c| c.is_ascii(), "ab🦊c"), ("🦊c", "ab"));
}

#[test]
fn take_while_handles_a_long_input() {
    let text = "7".repeat(100_000) + "x";
    let (rest, taken) = take_while(|c| c == '7', &text);
    assert_eq!(rest, "x");
    assert_eq!(taken.len(), 100_000);
}

#[test]
fn white_space_is_the_unicode_property() {
    let mut code = 0u32;
    while code <= 0x10FFFF {
        if let Some(c) = char::from_u32(code) {
            assert_eq!(is_whitespace(c), c.is_whitespace(), "U+{:04X}", code);
        }
        code += 1;
    }
}

#[test]
fn digits_are_the_ascii_decimal_digits() {
    let mut code = 0u32;
    while code <= 0x10FFFF {
        if let Some(c) = char::from_u32(code) {
            assert_eq!(is_digit(c), c.is_digit(10), "U+{:04X}", code);
            assert_eq!(is_digit(c), c.is_ascii_digit(), "U+{:04X}", code);
        }
        code += 1;
    }
}

#[test]
fn names_are_spelled_in_ascii() {
    let mut code = 0u32;
    while code <= 0x10FFFF {
        if let Some(c) = char::from_u32(code) {
            assert_eq!(is_name_start(c), c.is_ascii_alphabetic() || c == '_', "U+{:04X}", code);
            assert_eq!(is_name_char(c), c.is_ascii_alphanumeric() || c == '_', "U+{:04X}", code);
        }
        code += 1;
    }
}
