use calculator::{eval_expr, eval_statement, parse_expr, parse_statement, Expr, Statement, Variables};

fn constant(n: i32) -> Box<Expr> {
    Box::new(Expr::Int(n))
}

fn value_of(input: &str, vars: &Variables) -> Option<i32> {
    let (_, e) = parse_expr(input).unwrap();
    eval_expr(&e, vars)
}

fn run(input: &str, vars: &mut Variables) -> Option<i32> {
    let (_, st) = parse_statement(input).unwrap();
    eval_statement(st, vars)
}

#[test]
fn left_associative_difference_has_its_value() {
    assert_eq!(value_of("1-2-3", &Variables::new()), Some(-4));
}

#[test]
fn precedence_decides_the_value() {
    assert_eq!(value_of("1+2*3", &Variables::new()), Some(7));
    assert_eq!(value_of("(1+2)*3", &Variables::new()), Some(9));
}

#[test]
fn division_rounds_toward_zero() {
    let vars = Variables::new();
    assert_eq!(value_of("7/2", &vars), Some(3));
    assert_eq!(value_of("(0-7)/2", &vars), Some(-3));
    assert_eq!(value_of("7/(0-2)", &vars), Some(-3));
    assert_eq!(value_of("(0-7)/(0-2)", &vars), Some(3));
    assert_eq!(value_of("8/4/2", &vars), Some(1));
    assert_eq!(value_of("0/5", &vars), Some(0));
}

#[test]
fn division_by_zero_has_no_value() {
    let vars = Variables::new();
    assert_eq!(value_of("1/0", &vars), None);
    assert_eq!(value_of("1/(2-2)", &vars), None);
    assert_eq!(value_of("3 + 1/0", &vars), None);
}

#[test]
fn a_result_beyond_i32_has_no_value() {
    let vars = Variables::new();
    assert_eq!(value_of("2147483647+1", &vars), None);
    assert_eq!(value_of("0-2147483647-2", &vars), None);
    assert_eq!(value_of("65536*32768", &vars), None);
    assert_eq!(value_of("65536*32767", &vars), Some(2147418112));
    assert_eq!(value_of("0-2147483647-1", &vars), Some(-2147483648));
    let least_by_minus_one = Expr::Div(constant(-2147483648), constant(-1));
    assert_eq!(eval_expr(&least_by_minus_one, &vars), None);
    let least_by_one = Expr::Div(constant(-2147483648), constant(1));
    assert_eq!(eval_expr(&least_by_one, &vars), Some(-2147483648));
}

#[test]
fn a_variable_without_a_value_has_none() {
    let vars = Variables::new();
    assert_eq!(vars.get("x"), None);
    assert_eq!(value_of("x", &vars), None);
    assert_eq!(value_of("1 + x", &vars), None);
}

#[test]
fn assignment_gives_a_variable_its_value() {
    let mut vars = Variables::new();
    assert_eq!(run("x = 2 * 3", &mut vars), Some(6));
    assert_eq!(vars.get("x"), Some(6));
    assert_eq!(run("x + 1", &mut vars), Some(7));
    assert_eq!(run("y = x * x", &mut vars), Some(36));
    assert_eq!(run("x = x - 10", &mut vars), Some(-4));
    assert_eq!(vars.get("x"), Some(-4));
    assert_eq!(vars.get("y"), Some(36));
}

#[test]
fn an_expression_changes_no_variable() {
    let mut vars = Variables::new();
    vars.set("x".to_string(), 1);
    assert_eq!(run("x + 41", &mut vars), Some(42));
    assert_eq!(vars.get("x"), Some(1));
}

#[test]
fn a_failed_assignment_changes_no_variable() {
    let mut vars = Variables::new();
    vars.set("x".to_string(), 1);
    assert_eq!(run("x = 1 / 0", &mut vars), None);
    assert_eq!(vars.get("x"), Some(1));
    assert_eq!(run("z = nothing", &mut vars), None);
    assert_eq!(vars.get("z"), None);
}

#[test]
fn statement_value_is_that_of_its_expression() {
    let mut vars = Variables::new();
    let st = Statement::Assign("n".to_string(), Expr::Sub(constant(5), constant(8)));
    assert_eq!(eval_statement(st, &mut vars), Some(-3));
    assert_eq!(vars.get("n"), Some(-3));
}
