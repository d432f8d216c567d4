//! Evaluating a syntax tree against a table of variables, in 32-bit signed
//! arithmetic. Whatever has no value (a variable that was never assigned,
//! a division by zero, a result that an `i32` cannot hold) gives `None`.

use vstd::hash_map::StringHashMap;
use vstd::prelude::*;
use crate::syntax::{Expr, ExprView, Statement, StatementView};

verus! {

/// The values of the variables, by name.
pub struct Variables {
    table: StringHashMap<i32>,
}

impl View for Variables {
    type V = Map<Seq<char>, i32>;

    closed spec fn view(&self) -> Map<Seq<char>, i32> {
        self.table@
    }
}

impl Variables {
    /// A table in which no variable has a value.
    pub fn new() -> (vars: Variables)
        ensures
            vars@ == Map::<Seq<char>, i32>::empty(),
    {
        Variables { table: StringHashMap::new() }
    }

    /// The value of the variable `name`, if it has one.
    pub fn get(&self, name: &str) -> (value: Option<i32>)
        ensures
            value == lookup(self@, name@),
    {
        match self.table.get(name) {
            Some(v) => Some(*v),
            None => None,
        }
    }

    /// Gives the variable `name` the value `value`.
    pub fn set(&mut self, name: String, value: i32)
        ensures
            final(self)@ == old(self)@.insert(name@, value),
    {
        self.table.insert(name, value);
    }
}

/// The value of `name` in `vars`, if it has one.
pub open spec fn lookup(vars: Map<Seq<char>, i32>, name: Seq<char>) -> Option<i32> {
    if vars.contains_key(name) {
        Some(vars[name])
    } else {
        None
    }
}

/// `n` as an `i32`, if it is one.
pub open spec fn in_range(n: int) -> Option<i32> {
    if i32::MIN <= n <= i32::MAX {
        Some(n as i32)
    } else {
        None
    }
}

/// The size of `n` without its sign.
pub open spec fn magnitude(n: int) -> int {
    if n < 0 {
        -n
    } else {
        n
    }
}

/// The quotient of `a` by `b`, rounded toward zero: the quotient of the
/// magnitudes, negative where the signs differ.
pub open spec fn quotient(a: int, b: int) -> int
    recommends
        b != 0,
{
    if (a < 0) != (b < 0) {
        -(magnitude(a) / magnitude(b))
    } else {
        magnitude(a) / magnitude(b)
    }
}

/// What one of the four operators makes of two numbers.
pub open spec fn apply(op: char, a: int, b: int) -> Option<i32> {
    if op == '+' {
        in_range(a + b)
    } else if op == '-' {
        in_range(a - b)
    } else if op == '*' {
        in_range(a * b)
    } else if b == 0 {
        None
    } else {
        in_range(quotient(a, b))
    }
}

/// What two operands, if both have a value, give under an operator.
pub open spec fn combine(op: char, left: Option<i32>, right: Option<i32>) -> Option<i32> {
    match (left, right) {
        (Some(a), Some(b)) => apply(op, a as int, b as int),
        _ => None,
    }
}

/// The value of `e` where the variables have the values `vars`.
pub open spec fn value(e: ExprView, vars: Map<Seq<char>, i32>) -> Option<i32>
    decreases e,
{
    match e {
        ExprView::Int(n) => Some(n),
        ExprView::Var(name) => lookup(vars, name),
        ExprView::Add(l, r) => combine('+', value(*l, vars), value(*r, vars)),
        ExprView::Sub(l, r) => combine('-', value(*l, vars), value(*r, vars)),
        ExprView::Mul(l, r) => combine('*', value(*l, vars), value(*r, vars)),
        ExprView::Div(l, r) => combine('/', value(*l, vars), value(*r, vars)),
    }
}

/// The table after `st`: an assignment whose value exists gives it to the
/// variable; nothing else changes the table.
pub open spec fn table_after(st: StatementView, vars: Map<Seq<char>, i32>) -> Map<Seq<char>, i32> {
    match st {
        StatementView::Assign(name, e) => match value(e, vars) {
            Some(v) => vars.insert(name, v),
            None => vars,
        },
        StatementView::Expr(_) => vars,
    }
}

/// The value that `st` shows: that of its expression.
pub open spec fn shown(st: StatementView, vars: Map<Seq<char>, i32>) -> Option<i32> {
    match st {
        StatementView::Assign(_, e) => value(e, vars),
        StatementView::Expr(e) => value(e, vars),
    }
}

/// `n` as an `i32`, if it is one.
fn narrow(n: i64) -> (res: Option<i32>)
    ensures
        res == in_range(n as int),
{
    if -2147483648 <= n && n <= 2147483647 {
        Some(n as i32)
    } else {
        None
    }
}

/// Applies one of the four operators to two numbers.
fn apply_operator(op: char, a: i32, b: i32) -> (res: Option<i32>)
    ensures
        res == apply(op, a as int, b as int),
{
    let x: i64 = a as i64;
    let y: i64 = b as i64;
    if op == '+' {
        narrow(x + y)
    } else if op == '-' {
        narrow(x - y)
    } else if op == '*' {
        assert(-0x8000_0000 * 0x8000_0000 <= x * y <= 0x8000_0000 * 0x8000_0000)
            by (nonlinear_arith)
            requires
                -0x8000_0000 <= x < 0x8000_0000,
                -0x8000_0000 <= y < 0x8000_0000,
        ;
        narrow(x * y)
    } else if b == 0 {
        None
    } else {
        let size_x: i64 = if x < 0 { -x } else { x };
        let size_y: i64 = if y < 0 { -y } else { y };
        let size: i64 = size_x / size_y;
        assert(0 <= size <= size_x) by (nonlinear_arith)
            requires
                size == size_x / size_y,
                0 <= size_x,
                0 < size_y,
        ;
        if (x < 0) != (y < 0) {
            narrow(-size)
        } else {
            narrow(size)
        }
    }
}

/// Applies an operator to two operands, if both have a value.
fn combine_values(op: char, left: Option<i32>, right: Option<i32>) -> (res: Option<i32>)
    ensures
        res == combine(op, left, right),
{
    match (left, right) {
        (Some(a), Some(b)) => apply_operator(op, a, b),
        _ => None,
    }
}

/// Evaluates `e` where the variables have the values in `vars`.
pub fn eval_expr(e: &Expr, vars: &Variables) -> (res: Option<i32>)
    ensures
        res == value(e@, vars@),
    decreases e,
{
    match e {
        Expr::Int(n) => Some(*n),
        Expr::Var(name) => vars.get(name.as_str()),
        Expr::Add(l, r) => combine_values('+', eval_expr(l, vars), eval_expr(r, vars)),
        Expr::Sub(l, r) => combine_values('-', eval_expr(l, vars), eval_expr(r, vars)),
        Expr::Mul(l, r) => combine_values('*', eval_expr(l, vars), eval_expr(r, vars)),
        Expr::Div(l, r) => combine_values('/', eval_expr(l, vars), eval_expr(r, vars)),
    }
}

/// Evaluates a statement. An assignment whose value exists stores it under
/// the name; an expression changes nothing. Either way the result is the
/// value of the expression, if it has one.
pub fn eval_statement(st: Statement, vars: &mut Variables) -> (res: Option<i32>)
    ensures
        res == shown(st@, old(vars)@),
        final(vars)@ == table_after(st@, old(vars)@),
{
    match st {
        Statement::Assign(name, e) => {
            let res = eval_expr(&e, vars);
            if let Some(v) = res {
                vars.set(name, v);
            }
            res
        },
        Statement::Expr(e) => eval_expr(&e, vars),
    }
}

} // verus!
