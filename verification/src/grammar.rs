//! The language as a mathematical model: for each level of the grammar, what
//! parsing a sequence of characters gives.
//!
//! ```text
//! statement := IDENT '=' expr | expr
//! expr      := term (('+'|'-') term)*
//! term      := factor (('*'|'/') factor)*
//! factor    := INT | IDENT | '(' expr ')'
//! ```
//!
//! A parse gives the characters left over together with a value, or an error.

use vstd::prelude::*;
use crate::chars::{digit_value, is_digit, is_name_char, is_name_start, is_whitespace};
use crate::syntax::{ErrorView, ExprView, ParseError, StatementView};

verus! {

/// What a parse gives: the remainder and a value, or the reason it stopped.
pub type Parsed<T> = Result<(Seq<char>, T), ErrorView>;

/// What a parser returned, as the model states it: the remainder and the
/// value by their views.
pub open spec fn parsed<'a, T: View>(res: Result<(&'a str, T), ParseError<'a>>) -> Parsed<T::V> {
    match res {
        Ok((rest, value)) => Ok((rest@, value@)),
        Err(e) => Err(e@),
    }
}

/// The length of the longest prefix of `s` whose characters all satisfy `p`.
pub open spec fn run_len(p: spec_fn(char) -> bool, s: Seq<char>) -> nat
    decreases s.len(),
{
    if s.len() > 0 && p(s[0]) {
        1 + run_len(p, s.skip(1))
    } else {
        0
    }
}

/// The class of white space, as a predicate.
pub open spec fn whitespace() -> spec_fn(char) -> bool {
    |c: char| is_whitespace(c)
}

/// The class of decimal digits, as a predicate.
pub open spec fn digit() -> spec_fn(char) -> bool {
    |c: char| is_digit(c)
}

/// The class of characters that continue a name, as a predicate.
pub open spec fn name_char() -> spec_fn(char) -> bool {
    |c: char| is_name_char(c)
}

/// `s` without its leading white space.
pub open spec fn skip_ws(s: Seq<char>) -> Seq<char> {
    s.skip(run_len(whitespace(), s) as int)
}

/// The number that a sequence of decimal digits writes, most significant
/// digit first. The empty sequence writes zero.
pub open spec fn decimal_value(digits: Seq<char>) -> nat
    decreases digits.len(),
{
    if digits.len() == 0 {
        0
    } else {
        10 * decimal_value(digits.drop_last()) + digit_value(digits.last())
    }
}

/// Requires `c` as the next character of `s`.
pub open spec fn expect(c: char, s: Seq<char>) -> Result<Seq<char>, ErrorView> {
    if s.len() == 0 {
        Err(ErrorView::Empty)
    } else if s[0] != c {
        Err(ErrorView::InvalidChar(s[0]))
    } else {
        Ok(s.skip(1))
    }
}

/// The digits that `s` starts with.
pub open spec fn leading_digits(s: Seq<char>) -> Seq<char> {
    s.take(run_len(digit(), s) as int)
}

/// An integer literal: the longest run of digits at the start of `s`, which
/// must hold at least one digit and write a number that an `i32` can hold.
pub open spec fn integer_literal(s: Seq<char>) -> Parsed<i32> {
    let digits = leading_digits(s);
    if s.len() == 0 {
        Err(ErrorView::Empty)
    } else if !is_digit(s[0]) {
        Err(ErrorView::InvalidChar(s[0]))
    } else if decimal_value(digits) > i32::MAX {
        Err(ErrorView::InvalidSequence(digits))
    } else {
        Ok((s.skip(digits.len() as int), decimal_value(digits) as i32))
    }
}

/// A name: after white space, a letter or an underscore and then the longest
/// run of letters, digits and underscores. White space after it is skipped.
pub open spec fn identifier(s: Seq<char>) -> Parsed<Seq<char>> {
    let t = skip_ws(s);
    let n = run_len(name_char(), t) as int;
    if t.len() == 0 {
        Err(ErrorView::Empty)
    } else if !is_name_start(t[0]) {
        Err(ErrorView::InvalidChar(t[0]))
    } else {
        Ok((skip_ws(t.skip(n)), t.take(n)))
    }
}

/// `c` is an operator of the additive level.
pub open spec fn is_additive(c: char) -> bool {
    c == '+' || c == '-'
}

/// `c` is an operator of the multiplicative level.
pub open spec fn is_multiplicative(c: char) -> bool {
    c == '*' || c == '/'
}

/// The tree that joins `left` and `right` by the operator `op`.
pub open spec fn binary(op: char, left: ExprView, right: ExprView) -> ExprView
    recommends
        is_additive(op) || is_multiplicative(op),
{
    if op == '+' {
        ExprView::Add(Box::new(left), Box::new(right))
    } else if op == '-' {
        ExprView::Sub(Box::new(left), Box::new(right))
    } else if op == '*' {
        ExprView::Mul(Box::new(left), Box::new(right))
    } else {
        ExprView::Div(Box::new(left), Box::new(right))
    }
}

/// A factor: after white space an integer literal, else a name, else an
/// expression in parentheses. A literal too large for an `i32` is an error
/// at once; otherwise the error is that of the missing `(`.
///
/// In `term`, `term_tail`, `expr` and `expr_tail` a test on the length of a
/// remainder guards the step to the next function. The tests serve the
/// termination argument alone: `crate::results::lemma_levels` shows each
/// level without them.
pub open spec fn factor(s: Seq<char>) -> Parsed<ExprView>
    decreases s.len(), 0nat,
    via factor_decreases
{
    let t = skip_ws(s);
    match integer_literal(t) {
        Ok((rest, n)) => Ok((rest, ExprView::Int(n))),
        Err(ErrorView::InvalidSequence(digits)) => Err(ErrorView::InvalidSequence(digits)),
        Err(_) => match identifier(t) {
            Ok((rest, name)) => Ok((rest, ExprView::Var(name))),
            Err(_) => match expect('(', t) {
                Err(e) => Err(e),
                Ok(inner) => match expr(skip_ws(inner)) {
                    Err(e) => Err(e),
                    Ok((rest, e)) => match expect(')', skip_ws(rest)) {
                        Err(e) => Err(e),
                        Ok(after) => Ok((skip_ws(after), e)),
                    },
                },
            },
        },
    }
}

#[via_fn]
proof fn factor_decreases(s: Seq<char>) {
    lemma_run_len(whitespace(), s);
    let t = skip_ws(s);
    if t.len() > 0 {
        lemma_run_len(whitespace(), t.skip(1));
    }
}

/// What follows a multiplicative operand `left`: while white space and then
/// `*` or `/` come next, one more factor, joined to the left. The remainder
/// stands before the white space at which the operators ended.
pub open spec fn term_tail(s: Seq<char>, left: ExprView) -> Parsed<ExprView>
    decreases s.len(), 1nat,
    via term_tail_decreases
{
    let t = skip_ws(s);
    if t.len() > 0 && is_multiplicative(t[0]) {
        match factor(t.skip(1)) {
            Err(e) => Err(e),
            Ok((rest, right)) => if rest.len() < s.len() {
                term_tail(rest, binary(t[0], left, right))
            } else {
                Ok((rest, binary(t[0], left, right)))
            },
        }
    } else {
        Ok((s, left))
    }
}

#[via_fn]
proof fn term_tail_decreases(s: Seq<char>, left: ExprView) {
    lemma_run_len(whitespace(), s);
}

/// A term: a factor, and then factors joined to it from the left by `*`
/// and `/`.
pub open spec fn term(s: Seq<char>) -> Parsed<ExprView>
    decreases s.len(), 2nat,
{
    match factor(s) {
        Err(e) => Err(e),
        Ok((rest, first)) => if rest.len() <= s.len() {
            term_tail(rest, first)
        } else {
            Ok((rest, first))
        },
    }
}

/// What follows an additive operand `left`: while white space and then `+`
/// or `-` come next, one more term, joined to the left. The remainder stands
/// before the white space at which the operators ended.
pub open spec fn expr_tail(s: Seq<char>, left: ExprView) -> Parsed<ExprView>
    decreases s.len(), 3nat,
    via expr_tail_decreases
{
    let t = skip_ws(s);
    if t.len() > 0 && is_additive(t[0]) {
        match term(t.skip(1)) {
            Err(e) => Err(e),
            Ok((rest, right)) => if rest.len() < s.len() {
                expr_tail(rest, binary(t[0], left, right))
            } else {
                Ok((rest, binary(t[0], left, right)))
            },
        }
    } else {
        Ok((s, left))
    }
}

#[via_fn]
proof fn expr_tail_decreases(s: Seq<char>, left: ExprView) {
    lemma_run_len(whitespace(), s);
}

/// An expression: after white space a term, and then terms joined to it
/// from the left by `+` and `-`.
pub open spec fn expr(s: Seq<char>) -> Parsed<ExprView>
    decreases s.len(), 4nat,
    via expr_decreases
{
    match term(skip_ws(s)) {
        Err(e) => Err(e),
        Ok((rest, first)) => if rest.len() <= s.len() {
            expr_tail(rest, first)
        } else {
            Ok((rest, first))
        },
    }
}

#[via_fn]
proof fn expr_decreases(s: Seq<char>) {
    lemma_run_len(whitespace(), s);
}

/// The start of an assignment: a name and, after white space, `=`. Gives
/// the name and what follows the `=`.
pub open spec fn assignment_head(s: Seq<char>) -> Option<(Seq<char>, Seq<char>)> {
    match identifier(s) {
        Err(_) => None,
        Ok((rest, name)) => match expect('=', skip_ws(rest)) {
            Err(_) => None,
            Ok(after) => Some((name, after)),
        },
    }
}

/// A statement: after white space, an assignment if the input starts with
/// a name and `=`, and else the whole input as an expression. White space
/// after the expression is skipped; anything else after it is left over.
pub open spec fn statement(s: Seq<char>) -> Parsed<StatementView> {
    let t = skip_ws(s);
    match assignment_head(t) {
        Some((name, after)) => match expr(skip_ws(after)) {
            Err(e) => Err(e),
            Ok((rest, value)) => Ok((skip_ws(rest), StatementView::Assign(name, value))),
        },
        None => match expr(t) {
            Err(e) => Err(e),
            Ok((rest, e)) => Ok((skip_ws(rest), StatementView::Expr(e))),
        },
    }
}

/// A run is no longer than the sequence, every character in it satisfies
/// `p`, and the character after it, if there is one, does not.
pub proof fn lemma_run_len(p: spec_fn(char) -> bool, s: Seq<char>)
    ensures
        run_len(p, s) <= s.len(),
        forall|i: int| 0 <= i < run_len(p, s) ==> p(#[trigger] s[i]),
        run_len(p, s) < s.len() ==> !p(s[run_len(p, s) as int]),
    decreases s.len(),
{
    if s.len() > 0 && p(s[0]) {
        lemma_run_len(p, s.skip(1));
        let n = run_len(p, s.skip(1));
        assert forall|i: int| 0 <= i < run_len(p, s) implies p(#[trigger] s[i]) by {
            if i > 0 {
                assert(s[i] == s.skip(1)[i - 1]);
            }
        }
        if run_len(p, s) < s.len() {
            assert(s[run_len(p, s) as int] == s.skip(1)[n as int]);
        }
    }
}

/// A prefix whose characters all satisfy `p`, and which ends the sequence or
/// stands before a character that does not satisfy `p`, is the run.
pub proof fn lemma_run_len_is(p: spec_fn(char) -> bool, s: Seq<char>, n: int)
    requires
        0 <= n <= s.len(),
        forall|i: int| 0 <= i < n ==> p(#[trigger] s[i]),
        n < s.len() ==> !p(s[n]),
    ensures
        run_len(p, s) == n,
    decreases s.len(),
{
    if n > 0 {
        assert(p(s[0]));
        assert forall|i: int| 0 <= i < n - 1 implies p(#[trigger] s.skip(1)[i]) by {
            assert(s.skip(1)[i] == s[i + 1]);
        }
        if n - 1 < s.skip(1).len() {
            assert(s.skip(1)[n - 1] == s[n]);
        }
        lemma_run_len_is(p, s.skip(1), n - 1);
    }
}

/// Where every character of `run` satisfies `p` and `rest` does not start
/// with one that does, the run of `p` at the start of `run + rest` is `run`.
pub proof fn lemma_run_before(p: spec_fn(char) -> bool, run: Seq<char>, rest: Seq<char>)
    requires
        forall|i: int| 0 <= i < run.len() ==> p(#[trigger] run[i]),
        rest.len() > 0 ==> !p(rest[0]),
    ensures
        run_len(p, run + rest) == run.len(),
        (run + rest).take(run.len() as int) == run,
        (run + rest).skip(run.len() as int) == rest,
{
    let s = run + rest;
    assert forall|i: int| 0 <= i < run.len() implies p(#[trigger] s[i]) by {
        assert(s[i] == run[i]);
    }
    if run.len() < s.len() {
        assert(s[run.len() as int] == rest[0]);
    }
    lemma_run_len_is(p, s, run.len() as int);
    assert(s.take(run.len() as int) =~= run);
    assert(s.skip(run.len() as int) =~= rest);
}

/// `rest` is what is left of `s` once some of its first characters are
/// taken away: no character of it is new.
pub open spec fn is_suffix(rest: Seq<char>, s: Seq<char>) -> bool {
    rest.len() <= s.len() && rest == s.skip(s.len() - rest.len())
}

} // verus!
