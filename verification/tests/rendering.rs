use calculator::{parse_expr, parse_statement, Expr, Statement};

fn leaf(n: i32) -> Box<Expr> {
    Box::new(Expr::Int(n))
}

fn reparsed(input: &str) {
    let (_, first) = parse_statement(input).unwrap();
    let text = first.render();
    let (rest, second) = parse_statement(&text).unwrap();
    assert_eq!(rest, "", "{}", text);
    assert_eq!(second, first, "{}", text);
}

#[test]
fn render_writes_no_more_parentheses_than_needed() {
    assert_eq!(parse_expr("1 + 2 * 3").unwrap().1.render(), "1+2*3");
    assert_eq!(parse_expr("(1 + 2) * 3").unwrap().1.render(), "(1+2)*3");
    assert_eq!(parse_expr("1 - (2 - 3)").unwrap().1.render(), "1-(2-3)");
    assert_eq!(parse_expr("(1 - 2) - 3").unwrap().1.render(), "1-2-3");
    assert_eq!(parse_expr("8 / (4 / 2)").unwrap().1.render(), "8/(4/2)");
    assert_eq!(parse_expr("8 / (4 * 2)").unwrap().1.render(), "8/(4*2)");
    assert_eq!(parse_expr("((x))").unwrap().1.render(), "x");
    assert_eq!(parse_expr("1 * 2 + 3 * 4").unwrap().1.render(), "1*2+3*4");
}

#[test]
fn render_writes_numbers_in_decimal() {
    assert_eq!(Expr::Int(0).render(), "0");
    assert_eq!(Expr::Int(7).render(), "7");
    assert_eq!(Expr::Int(10).render(), "10");
    assert_eq!(Expr::Int(2147483647).render(), "2147483647");
    assert_eq!(Expr::Int(-5).render(), "-5");
    assert_eq!(Expr::Int(-2147483648).render(), "-2147483648");
    assert_eq!(parse_expr("007").unwrap().1.render(), "7");
}

#[test]
fn render_writes_statements() {
    assert_eq!(parse_statement(" x = 1 + y ").unwrap().1.render(), "x=1+y");
    assert_eq!(parse_statement(" x + 1 ").unwrap().1.render(), "x+1");
    assert_eq!(
        Statement::Assign("total".to_string(), Expr::Mul(leaf(2), leaf(3))).render(),
        "total=2*3"
    );
}

#[test]
fn rendered_text_parses_back_to_the_tree() {
    reparsed("1");
    reparsed("x");
    reparsed("1-2-3");
    reparsed("1-(2-3)");
    reparsed("1+2*3");
    reparsed("(1+2)*3");
    reparsed("  1  +  2  ");
    reparsed("x=5");
    reparsed("x+5");
    reparsed("_a1 = ((b)) * (c + 2147483647) / (d - (e - f)) - 0012");
    reparsed("a/(b/(c/(d/e)))");
    reparsed("a-(b+c)*(d-e*(f+g))");
    reparsed("x = y");
}

#[test]
fn rendered_tree_built_by_hand_parses_back() {
    let tree = Expr::Div(
        Box::new(Expr::Sub(leaf(1), Box::new(Expr::Add(leaf(2), leaf(3))))),
        Box::new(Expr::Mul(Box::new(Expr::Var("k".to_string())), leaf(4))),
    );
    let text = tree.render();
    assert_eq!(text, "(1-(2+3))/(k*4)");
    assert_eq!(parse_expr(&text), Ok(("", tree)));
}
