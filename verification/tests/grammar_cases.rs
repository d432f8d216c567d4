use calculator::parser::{expect, parse_factor, parse_term};
use calculator::{parse_expr, parse_statement, Expr, ParseError, Statement};

fn num(n: i32) -> Box<Expr> {
    Box::new(Expr::Int(n))
}

fn name(text: &str) -> Box<Expr> {
    Box::new(Expr::Var(text.to_string()))
}

#[test]
fn expect_steps_over_the_character() {
    assert_eq!(expect('(', "(1"), Ok("1"));
    assert_eq!(expect('(', ")"), Err(ParseError::InvalidChar(')')));
    assert_eq!(expect('(', ""), Err(ParseError::Empty));
}

#[test]
fn factor_is_a_literal_a_name_or_a_group() {
    assert_eq!(parse_factor(" 12*3"), Ok(("*3", Expr::Int(12))));
    assert_eq!(parse_factor(" ab *3"), Ok(("*3", Expr::Var("ab".to_string()))));
    assert_eq!(
        parse_factor(" ( 1 + b ) *3"),
        Ok(("*3", Expr::Add(num(1), name("b"))))
    );
    assert_eq!(parse_factor("((7))"), Ok(("", Expr::Int(7))));
}

#[test]
fn factor_leaves_white_space_after_a_literal() {
    assert_eq!(parse_factor("12  "), Ok(("  ", Expr::Int(12))));
    assert_eq!(parse_factor("ab  "), Ok(("", Expr::Var("ab".to_string()))));
    assert_eq!(parse_factor("(1)  "), Ok(("", Expr::Int(1))));
}

#[test]
fn factor_reports_the_missing_parenthesis() {
    assert_eq!(parse_factor(""), Err(ParseError::Empty));
    assert_eq!(parse_factor("   "), Err(ParseError::Empty));
    assert_eq!(parse_factor("+1"), Err(ParseError::InvalidChar('+')));
    assert_eq!(parse_factor(")"), Err(ParseError::InvalidChar(')')));
    assert_eq!(parse_factor("(1"), Err(ParseError::Empty));
    assert_eq!(parse_factor("(1 2)"), Err(ParseError::InvalidChar('2')));
    assert_eq!(parse_factor("()"), Err(ParseError::InvalidChar(')')));
}

#[test]
fn factor_reports_an_overflowing_literal() {
    assert_eq!(parse_factor(" 4294967296"), Err(ParseError::InvalidSequence("4294967296")));
    assert_eq!(parse_factor("(4294967296)"), Err(ParseError::InvalidSequence("4294967296")));
}

#[test]
fn term_folds_to_the_left() {
    assert_eq!(
        parse_term("8/4/2"),
        Ok(("", Expr::Div(Box::new(Expr::Div(num(8), num(4))), num(2))))
    );
    assert_eq!(
        parse_term("2 * x / 3 + 1"),
        Ok((" + 1", Expr::Div(Box::new(Expr::Mul(num(2), name("x"))), num(3))))
    );
}

#[test]
fn term_stops_before_an_additive_operator() {
    assert_eq!(parse_term("1+2"), Ok(("+2", Expr::Int(1))));
    assert_eq!(parse_term("1 +2"), Ok((" +2", Expr::Int(1))));
}

#[test]
fn expression_mixes_both_levels() {
    let (rest, e) = parse_expr("2 * (3 + 4) - 10 / x").unwrap();
    assert_eq!(rest, "");
    assert_eq!(
        e,
        Expr::Sub(
            Box::new(Expr::Mul(num(2), Box::new(Expr::Add(num(3), num(4))))),
            Box::new(Expr::Div(num(10), name("x")))
        )
    );
}

#[test]
fn expression_remainder_starts_before_trailing_white_space() {
    assert_eq!(parse_expr("1 "), Ok((" ", Expr::Int(1))));
    assert_eq!(parse_expr("1 + 2  "), Ok(("  ", Expr::Add(num(1), num(2)))));
    assert_eq!(parse_expr("x "), Ok(("", Expr::Var("x".to_string()))));
    assert_eq!(parse_expr("1 ) "), Ok((" ) ", Expr::Int(1))));
}

#[test]
fn expression_fails_where_an_operand_is_missing() {
    assert_eq!(parse_expr("1 + "), Err(ParseError::Empty));
    assert_eq!(parse_expr("1 * "), Err(ParseError::Empty));
    assert_eq!(parse_expr("1 + * 2"), Err(ParseError::InvalidChar('*')));
    assert_eq!(parse_expr("(1 + 2"), Err(ParseError::Empty));
}

#[test]
fn leading_minus_is_not_a_sign() {
    assert_eq!(parse_expr("-5"), Err(ParseError::InvalidChar('-')));
    assert_eq!(parse_statement("-5"), Err(ParseError::InvalidChar('-')));
    assert_eq!(parse_expr("1 - -5"), Err(ParseError::InvalidChar('-')));
}

#[test]
fn statement_skips_white_space_after_the_expression() {
    assert_eq!(parse_statement("  1 + 2  "), Ok(("", Statement::Expr(Expr::Add(num(1), num(2))))));
    assert_eq!(
        parse_statement(" y = 2 * 3  "),
        Ok(("", Statement::Assign("y".to_string(), Expr::Mul(num(2), num(3)))))
    );
}

#[test]
fn statement_leaves_what_it_cannot_read() {
    assert_eq!(
        parse_statement("1 + 2 garbage"),
        Ok(("garbage", Statement::Expr(Expr::Add(num(1), num(2)))))
    );
    assert_eq!(parse_statement("x = 1 = 2"), Ok(("= 2", Statement::Assign("x".to_string(), Expr::Int(1)))));
    assert_eq!(parse_statement("3 = 4"), Ok(("= 4", Statement::Expr(Expr::Int(3)))));
}

#[test]
fn statement_starts_over_when_no_equals_follows_the_name() {
    assert_eq!(
        parse_statement("x * (y + 1)"),
        Ok(("", Statement::Expr(Expr::Mul(name("x"), Box::new(Expr::Add(name("y"), num(1)))))))
    );
    assert_eq!(parse_statement("x"), Ok(("", Statement::Expr(Expr::Var("x".to_string())))));
    assert_eq!(parse_statement("x y = 5"), Ok(("y = 5", Statement::Expr(Expr::Var("x".to_string())))));
}

#[test]
fn assignment_without_a_value_fails() {
    assert_eq!(parse_statement("x ="), Err(ParseError::Empty));
    assert_eq!(parse_statement("x = )"), Err(ParseError::InvalidChar(')')));
    assert_eq!(parse_statement("x = 99999999999"), Err(ParseError::InvalidSequence("99999999999")));
}

#[test]
fn deep_nesting_is_parsed() {
    let depth = 200;
    let text = "(".repeat(depth) + "1" + &")".repeat(depth);
    assert_eq!(parse_expr(&text), Ok(("", Expr::Int(1))));
}

#[test]
fn remainder_is_a_part_of_the_input() {
    let input = "  a + 1 ; rest";
    let (rest, _) = parse_statement(input).unwrap();
    assert_eq!(rest, "; rest");
    assert!(input.ends_with(rest));
    let start = input.as_ptr() as usize;
    let at = rest.as_ptr() as usize;
    assert_eq!(at - start, input.len() - rest.len());
}

#[test]
fn layout_does_not_change_the_statement() {
    let tight = parse_statement("x=(1+2)*y-3/z").unwrap();
    assert_eq!(tight.0, "");
    let spaced = parse_statement("  x\t=\n( 1\u{A0}+ 2 )\u{3000}*y -\r\n3 /  z \u{2028}").unwrap();
    assert_eq!(spaced.0, "");
    assert_eq!(spaced.1, tight.1);
    let bare = parse_statement(" ( a ) ").unwrap();
    assert_eq!(bare, ("", Statement::Expr(Expr::Var("a".to_string()))));
}
