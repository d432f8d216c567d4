//! The parser: expressions by precedence climbing, and statements with one
//! name of lookahead.

use vstd::prelude::*;
use crate::grammar;
use crate::grammar::{is_suffix, parsed};
use crate::lexical::{parse_i32, parse_name, skip_ws};
use crate::results;
use crate::syntax::{ErrorView, Expr, ParseError, Statement};
use crate::text::satisfy;

verus! {

/// Requires `c` as the next character of `input` and steps over it. On an
/// empty input the error is `Empty`; on another character it is
/// `InvalidChar` with that character.
pub fn expect(c: char, input: &str) -> (res: Result<&str, ParseError<'_>>)
    ensures
        match res {
            Ok(rest) => grammar::expect(c, input@) == Ok::<_, ErrorView>(rest@),
            Err(e) => grammar::expect(c, input@) == Err::<Seq<char>, _>(e@),
        },
{
    let is_c = |x: char| -> (b: bool)
        ensures
            b == (x == c),
        { x == c };
    match satisfy(is_c, input) {
        Ok((rest, _)) => Ok(rest),
        Err(e) => Err(e),
    }
}

/// Steps over an operator of the additive level, if one comes next.
fn additive_operator(input: &str) -> (res: Option<(&str, char)>)
    ensures
        match res {
            Some((rest, op)) => {
                &&& input@.len() > 0
                &&& op == input@[0]
                &&& grammar::is_additive(op)
                &&& rest@ == input@.skip(1)
            },
            None => input@.len() == 0 || !grammar::is_additive(input@[0]),
        },
{
    let is_op = |c: char| -> (b: bool)
        ensures
            b == grammar::is_additive(c),
        { c == '+' || c == '-' };
    match satisfy(is_op, input) {
        Ok(found) => Some(found),
        Err(_) => None,
    }
}

/// Steps over an operator of the multiplicative level, if one comes next.
fn multiplicative_operator(input: &str) -> (res: Option<(&str, char)>)
    ensures
        match res {
            Some((rest, op)) => {
                &&& input@.len() > 0
                &&& op == input@[0]
                &&& grammar::is_multiplicative(op)
                &&& rest@ == input@.skip(1)
            },
            None => input@.len() == 0 || !grammar::is_multiplicative(input@[0]),
        },
{
    let is_op = |c: char| -> (b: bool)
        ensures
            b == grammar::is_multiplicative(c),
        { c == '*' || c == '/' };
    match satisfy(is_op, input) {
        Ok(found) => Some(found),
        Err(_) => None,
    }
}

/// Joins two operands by one of the four operators.
fn binary(op: char, left: Expr, right: Expr) -> (e: Expr)
    requires
        grammar::is_additive(op) || grammar::is_multiplicative(op),
    ensures
        e@ == grammar::binary(op, left@, right@),
{
    if op == '+' {
        Expr::Add(Box::new(left), Box::new(right))
    } else if op == '-' {
        Expr::Sub(Box::new(left), Box::new(right))
    } else if op == '*' {
        Expr::Mul(Box::new(left), Box::new(right))
    } else {
        Expr::Div(Box::new(left), Box::new(right))
    }
}

/// Parses an expression: after white space a term, and then terms joined
/// to it from the left by `+` and `-`. The remainder starts where the last
/// term ended: white space before an operator that did not come is not
/// skipped. An error of a term is returned as it is.
pub fn parse_expr(input: &str) -> (res: Result<(&str, Expr), ParseError<'_>>)
    ensures
        parsed(res) == grammar::expr(input@),
        res matches Ok((rest, e)) ==> {
            &&& is_suffix(rest@, input@)
            &&& rest@.len() < input@.len()
            &&& e@.well_formed()
        },
    decreases input@.len(), 4nat,
{
    let start = skip_ws(input);
    proof {
        results::lemma_skip_ws(input@);
        results::lemma_levels(input@, arbitrary());
    }
    let (mut rest, mut tree) = match parse_term(start) {
        Ok(first) => first,
        Err(e) => {
            return Err(e);
        },
    };
    loop
        invariant
            grammar::expr(input@) == grammar::expr_tail(rest@, tree@),
            rest@.len() < input@.len(),
        decreases rest@.len(),
    {
        let at_operator = skip_ws(rest);
        proof {
            results::lemma_skip_ws(rest@);
            results::lemma_levels(rest@, tree@);
            results::lemma_expr_result(input@);
            if at_operator@.len() > 0 {
                results::lemma_term_result(at_operator@.skip(1));
            }
        }
        let (after, op) = match additive_operator(at_operator) {
            Some(found) => found,
            None => {
                return Ok((rest, tree));
            },
        };
        let (next, right) = match parse_term(after) {
            Ok(operand) => operand,
            Err(e) => {
                return Err(e);
            },
        };
        tree = binary(op, tree, right);
        rest = next;
    }
}

/// Parses a term: a factor, and then factors joined to it from the left by
/// `*` and `/`. The remainder starts where the last factor ended: white
/// space before an operator that did not come is not skipped. An error of a
/// factor is returned as it is.
pub fn parse_term(input: &str) -> (res: Result<(&str, Expr), ParseError<'_>>)
    ensures
        parsed(res) == grammar::term(input@),
        res matches Ok((rest, e)) ==> {
            &&& is_suffix(rest@, input@)
            &&& rest@.len() < input@.len()
            &&& e@.well_formed()
        },
    decreases input@.len(), 2nat,
{
    proof {
        results::lemma_levels(input@, arbitrary());
    }
    let (mut rest, mut tree) = match parse_factor(input) {
        Ok(first) => first,
        Err(e) => {
            return Err(e);
        },
    };
    loop
        invariant
            grammar::term(input@) == grammar::term_tail(rest@, tree@),
            rest@.len() < input@.len(),
        decreases rest@.len(),
    {
        let at_operator = skip_ws(rest);
        proof {
            results::lemma_skip_ws(rest@);
            results::lemma_levels(rest@, tree@);
            results::lemma_term_result(input@);
            if at_operator@.len() > 0 {
                results::lemma_factor_result(at_operator@.skip(1));
            }
        }
        let (after, op) = match multiplicative_operator(at_operator) {
            Some(found) => found,
            None => {
                return Ok((rest, tree));
            },
        };
        let (next, right) = match parse_factor(after) {
            Ok(operand) => operand,
            Err(e) => {
                return Err(e);
            },
        };
        tree = binary(op, tree, right);
        rest = next;
    }
}

/// Parses a factor: after white space an integer literal, else a name, else
/// an expression in parentheses. White space is skipped after a name and
/// after the closing parenthesis, not after a literal. A literal too large
/// for an `i32` fails at once with `InvalidSequence`; where nothing fits,
/// the error is that of the missing `(`.
pub fn parse_factor(input: &str) -> (res: Result<(&str, Expr), ParseError<'_>>)
    ensures
        parsed(res) == grammar::factor(input@),
        res matches Ok((rest, e)) ==> {
            &&& is_suffix(rest@, input@)
            &&& rest@.len() < input@.len()
            &&& e@.well_formed()
        },
    decreases input@.len(), 0nat,
{
    let start = skip_ws(input);
    proof {
        results::lemma_skip_ws(input@);
        results::lemma_factor_result(input@);
    }
    match parse_i32(start) {
        Ok((rest, n)) => {
            return Ok((rest, Expr::Int(n)));
        },
        Err(ParseError::InvalidSequence(digits)) => {
            return Err(ParseError::InvalidSequence(digits));
        },
        Err(_) => {},
    }
    match parse_name(start) {
        Ok((rest, name)) => {
            return Ok((rest, Expr::Var(name)));
        },
        Err(_) => {},
    }
    let rest = expect('(', start)?;
    let rest = skip_ws(rest);
    proof {
        results::lemma_skip_ws(start@.skip(1));
    }
    let (rest, inner) = parse_expr(rest)?;
    let rest = skip_ws(rest);
    let rest = expect(')', rest)?;
    let rest = skip_ws(rest);
    Ok((rest, inner))
}

/// Parses one line: an assignment where the line starts with a name and
/// `=`, and else the whole line, from its start, as an expression. White
/// space after the expression is skipped; what else follows it is returned
/// as the remainder. An error of the expression is returned as it is.
pub fn parse_statement(input: &str) -> (res: Result<(&str, Statement), ParseError<'_>>)
    ensures
        parsed(res) == grammar::statement(input@),
        res matches Ok((rest, e)) ==> {
            &&& is_suffix(rest@, input@)
            &&& rest@.len() < input@.len()
            &&& e@.well_formed()
        },
{
    let start = skip_ws(input);
    proof {
        results::lemma_statement_result(input@);
    }
    match parse_name(start) {
        Ok((rest, name)) => {
            let rest = skip_ws(rest);
            match expect('=', rest) {
                Ok(rest) => {
                    let rest = skip_ws(rest);
                    let (rest, value) = parse_expr(rest)?;
                    let rest = skip_ws(rest);
                    return Ok((rest, Statement::Assign(name, value)));
                },
                Err(_) => {},
            }
        },
        Err(_) => {},
    }
    let (rest, e) = parse_expr(start)?;
    let rest = skip_ws(rest);
    Ok((rest, Statement::Expr(e)))
}

} // verus!
