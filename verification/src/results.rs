//! What holds of every result of the model: the remainder is a suffix of
//! the input, the tree is well formed, and the recursive levels unfold as
//! the grammar reads.

use vstd::prelude::*;
use crate::chars::{is_digit, is_whitespace};
use crate::grammar::{
    assignment_head, binary, decimal_value, digit, expect, expr, expr_tail, factor, identifier,
    integer_literal, is_additive, is_multiplicative, is_suffix, leading_digits, lemma_run_len,
    name_char, run_len, skip_ws, statement, term, term_tail, whitespace,
};
use crate::syntax::{is_name, ErrorView, ExprView, StatementView};

verus! {

/// Skipping characters leaves a suffix.
pub proof fn lemma_skip_is_suffix(s: Seq<char>, n: int)
    requires
        0 <= n <= s.len(),
    ensures
        is_suffix(s.skip(n), s),
{
}

/// A suffix of a suffix is a suffix.
pub proof fn lemma_suffix_of_suffix(a: Seq<char>, b: Seq<char>, c: Seq<char>)
    requires
        is_suffix(a, b),
        is_suffix(b, c),
    ensures
        is_suffix(a, c),
{
    assert(c.skip(c.len() - b.len()).skip(b.len() - a.len()) =~= c.skip(c.len() - a.len()));
}

/// Skipping white space leaves a suffix, which does not start with white
/// space.
pub proof fn lemma_skip_ws(s: Seq<char>)
    ensures
        is_suffix(skip_ws(s), s),
        skip_ws(s).len() > 0 ==> !is_whitespace(skip_ws(s)[0]),
        s.len() > 0 && !is_whitespace(s[0]) ==> skip_ws(s) == s,
        s.len() == 0 ==> skip_ws(s) == s,
{
    lemma_run_len(whitespace(), s);
    if s.len() == 0 || !is_whitespace(s[0]) {
        assert(s.skip(0) =~= s);
    }
}

/// An integer literal takes at least one character and leaves a suffix;
/// its value is not negative.
pub proof fn lemma_integer_literal_result(s: Seq<char>)
    ensures
        integer_literal(s) matches Ok((rest, n)) ==> {
            &&& is_suffix(rest, s)
            &&& rest.len() < s.len()
            &&& n >= 0
        },
{
    lemma_run_len(digit(), s);
}

/// A name takes at least one character and leaves a suffix; it is spelled
/// as a name is.
pub proof fn lemma_identifier_result(s: Seq<char>)
    ensures
        identifier(s) matches Ok((rest, name)) ==> {
            &&& is_suffix(rest, s)
            &&& rest.len() < s.len()
            &&& is_name(name)
        },
{
    let t = skip_ws(s);
    lemma_skip_ws(s);
    if identifier(s) is Ok {
        lemma_run_len(name_char(), t);
        let n = run_len(name_char(), t) as int;
        assert(n >= 1);
        lemma_skip_ws(t.skip(n));
        lemma_skip_is_suffix(t, n);
        lemma_suffix_of_suffix(skip_ws(t.skip(n)), t.skip(n), t);
        lemma_suffix_of_suffix(skip_ws(t.skip(n)), t, s);
    }
}

/// A number's first digits write no more than all of its digits.
pub proof fn lemma_decimal_value_prefix(digits: Seq<char>, k: int)
    requires
        0 <= k <= digits.len(),
    ensures
        decimal_value(digits.take(k)) <= decimal_value(digits),
    decreases digits.len(),
{
    if k == digits.len() {
        assert(digits.take(k) =~= digits);
    } else {
        assert(digits.drop_last().take(k) =~= digits.take(k));
        lemma_decimal_value_prefix(digits.drop_last(), k);
    }
}

/// A factor takes at least one character and leaves a suffix; its tree is
/// well formed.
pub proof fn lemma_factor_result(s: Seq<char>)
    ensures
        factor(s) matches Ok((rest, e)) ==> {
            &&& is_suffix(rest, s)
            &&& rest.len() < s.len()
            &&& e.well_formed()
        },
    decreases s.len(), 0nat,
{
    let t = skip_ws(s);
    lemma_skip_ws(s);
    lemma_integer_literal_result(t);
    lemma_identifier_result(t);
    match integer_literal(t) {
        Ok((rest, _)) => {
            lemma_suffix_of_suffix(rest, t, s);
        },
        Err(ErrorView::InvalidSequence(_)) => {},
        Err(_) => match identifier(t) {
            Ok((rest, _)) => {
                lemma_suffix_of_suffix(rest, t, s);
            },
            Err(_) => match expect('(', t) {
                Err(_) => {},
                Ok(inner) => {
                    lemma_skip_ws(inner);
                    lemma_expr_result(skip_ws(inner));
                    match expr(skip_ws(inner)) {
                        Err(_) => {},
                        Ok((rest, _)) => {
                            lemma_skip_ws(rest);
                            match expect(')', skip_ws(rest)) {
                                Err(_) => {},
                                Ok(after) => {
                                    lemma_skip_ws(after);
                                    lemma_suffix_of_suffix(skip_ws(after), after, skip_ws(rest));
                                    lemma_suffix_of_suffix(skip_ws(after), skip_ws(rest), rest);
                                    lemma_suffix_of_suffix(skip_ws(after), rest, skip_ws(inner));
                                    lemma_suffix_of_suffix(skip_ws(after), skip_ws(inner), inner);
                                    lemma_suffix_of_suffix(skip_ws(after), inner, t);
                                    lemma_suffix_of_suffix(skip_ws(after), t, s);
                                },
                            }
                        },
                    }
                },
            },
        },
    }
}

/// The operators and factors after an operand leave a suffix, and join
/// well-formed trees to a well-formed tree.
pub proof fn lemma_term_tail_result(s: Seq<char>, left: ExprView)
    ensures
        term_tail(s, left) matches Ok((rest, e)) ==> {
            &&& is_suffix(rest, s)
            &&& left.well_formed() ==> e.well_formed()
        },
    decreases s.len(), 1nat,
{
    let t = skip_ws(s);
    lemma_skip_ws(s);
    if t.len() > 0 && is_multiplicative(t[0]) {
        lemma_factor_result(t.skip(1));
        match factor(t.skip(1)) {
            Err(_) => {},
            Ok((rest, right)) => {
                lemma_suffix_of_suffix(rest, t.skip(1), t);
                lemma_suffix_of_suffix(rest, t, s);
                lemma_term_tail_result(rest, binary(t[0], left, right));
                if let Ok((last, _)) = term_tail(rest, binary(t[0], left, right)) {
                    lemma_suffix_of_suffix(last, rest, s);
                }
            },
        }
    } else {
        assert(s.skip(0) =~= s);
    }
}

/// A term takes at least one character and leaves a suffix; its tree is
/// well formed.
pub proof fn lemma_term_result(s: Seq<char>)
    ensures
        term(s) matches Ok((rest, e)) ==> {
            &&& is_suffix(rest, s)
            &&& rest.len() < s.len()
            &&& e.well_formed()
        },
    decreases s.len(), 2nat,
{
    lemma_factor_result(s);
    if let Ok((rest, first)) = factor(s) {
        lemma_term_tail_result(rest, first);
        if let Ok((last, _)) = term_tail(rest, first) {
            lemma_suffix_of_suffix(last, rest, s);
        }
    }
}

/// The operators and terms after an operand leave a suffix, and join
/// well-formed trees to a well-formed tree.
pub proof fn lemma_expr_tail_result(s: Seq<char>, left: ExprView)
    ensures
        expr_tail(s, left) matches Ok((rest, e)) ==> {
            &&& is_suffix(rest, s)
            &&& left.well_formed() ==> e.well_formed()
        },
    decreases s.len(), 3nat,
{
    let t = skip_ws(s);
    lemma_skip_ws(s);
    if t.len() > 0 && is_additive(t[0]) {
        lemma_term_result(t.skip(1));
        match term(t.skip(1)) {
            Err(_) => {},
            Ok((rest, right)) => {
                lemma_suffix_of_suffix(rest, t.skip(1), t);
                lemma_suffix_of_suffix(rest, t, s);
                lemma_expr_tail_result(rest, binary(t[0], left, right));
                if let Ok((last, _)) = expr_tail(rest, binary(t[0], left, right)) {
                    lemma_suffix_of_suffix(last, rest, s);
                }
            },
        }
    } else {
        assert(s.skip(0) =~= s);
    }
}

/// An expression takes at least one character and leaves a suffix; its
/// tree is well formed.
pub proof fn lemma_expr_result(s: Seq<char>)
    ensures
        expr(s) matches Ok((rest, e)) ==> {
            &&& is_suffix(rest, s)
            &&& rest.len() < s.len()
            &&& e.well_formed()
        },
    decreases s.len(), 4nat,
{
    let t = skip_ws(s);
    lemma_skip_ws(s);
    lemma_term_result(t);
    if let Ok((rest, first)) = term(t) {
        lemma_suffix_of_suffix(rest, t, s);
        lemma_expr_tail_result(rest, first);
        if let Ok((last, _)) = expr_tail(rest, first) {
            lemma_suffix_of_suffix(last, rest, s);
        }
    }
}

/// A statement takes at least one character and leaves a suffix, and is
/// well formed.
pub proof fn lemma_statement_result(s: Seq<char>)
    ensures
        statement(s) matches Ok((rest, st)) ==> {
            &&& is_suffix(rest, s)
            &&& rest.len() < s.len()
            &&& st.well_formed()
        },
{
    let t = skip_ws(s);
    lemma_skip_ws(s);
    match assignment_head(t) {
        Some((name, after)) => {
            lemma_identifier_result(t);
            let mid = identifier(t)->Ok_0.0;
            lemma_skip_ws(mid);
            lemma_suffix_of_suffix(after, skip_ws(mid), mid);
            lemma_suffix_of_suffix(after, mid, t);
            lemma_skip_ws(after);
            lemma_expr_result(skip_ws(after));
            if let Ok((rest, _)) = expr(skip_ws(after)) {
                lemma_skip_ws(rest);
                lemma_suffix_of_suffix(skip_ws(rest), rest, skip_ws(after));
                lemma_suffix_of_suffix(skip_ws(rest), skip_ws(after), after);
                lemma_suffix_of_suffix(skip_ws(rest), after, t);
                lemma_suffix_of_suffix(skip_ws(rest), t, s);
            }
        },
        None => {
            lemma_expr_result(t);
            if let Ok((rest, _)) = expr(t) {
                lemma_skip_ws(rest);
                lemma_suffix_of_suffix(skip_ws(rest), rest, t);
                lemma_suffix_of_suffix(skip_ws(rest), t, s);
            }
        },
    }
}

/// The four recursive levels without the length tests of their
/// definitions: each is its first operand followed by its tail, and each
/// tail is one operator and operand followed by the tail again.
pub proof fn lemma_levels(s: Seq<char>, left: ExprView)
    ensures
        term(s) == match factor(s) {
            Err(e) => Err(e),
            Ok((rest, first)) => term_tail(rest, first),
        },
        expr(s) == match term(skip_ws(s)) {
            Err(e) => Err(e),
            Ok((rest, first)) => expr_tail(rest, first),
        },
        term_tail(s, left) == if skip_ws(s).len() > 0 && is_multiplicative(skip_ws(s)[0]) {
            match factor(skip_ws(s).skip(1)) {
                Err(e) => Err(e),
                Ok((rest, right)) => term_tail(rest, binary(skip_ws(s)[0], left, right)),
            }
        } else {
            Ok((s, left))
        },
        expr_tail(s, left) == if skip_ws(s).len() > 0 && is_additive(skip_ws(s)[0]) {
            match term(skip_ws(s).skip(1)) {
                Err(e) => Err(e),
                Ok((rest, right)) => expr_tail(rest, binary(skip_ws(s)[0], left, right)),
            }
        } else {
            Ok((s, left))
        },
{
    let t = skip_ws(s);
    lemma_skip_ws(s);
    lemma_factor_result(s);
    lemma_term_result(t);
    if t.len() > 0 {
        lemma_factor_result(t.skip(1));
        lemma_term_result(t.skip(1));
    }
}

/// A literal too large for an `i32` that stands first in the input, after
/// white space at most, makes every level fail with `InvalidSequence` and the
/// digits of the literal.
pub proof fn lemma_overflow_is_rejected(s: Seq<char>)
    requires
        skip_ws(s).len() > 0,
        is_digit(skip_ws(s)[0]),
        decimal_value(leading_digits(skip_ws(s))) > i32::MAX,
    ensures
        factor(s) == Err::<(Seq<char>, ExprView), _>(
            ErrorView::InvalidSequence(leading_digits(skip_ws(s))),
        ),
        term(s) == Err::<(Seq<char>, ExprView), _>(
            ErrorView::InvalidSequence(leading_digits(skip_ws(s))),
        ),
        expr(s) == Err::<(Seq<char>, ExprView), _>(
            ErrorView::InvalidSequence(leading_digits(skip_ws(s))),
        ),
        statement(s) == Err::<(Seq<char>, StatementView), _>(
            ErrorView::InvalidSequence(leading_digits(skip_ws(s))),
        ),
{
    let t = skip_ws(s);
    lemma_skip_ws(t);
    lemma_levels(s, arbitrary());
    lemma_levels(t, arbitrary());
}

} // verus!
