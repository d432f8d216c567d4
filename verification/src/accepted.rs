//! Whatever the parser accepts, the grammar produces: from each successful
//! parse a derivation is built that spells the text that was read and means
//! the tree that was returned.

use vstd::prelude::*;
use crate::chars::is_digit;
use crate::derivation::{is_space, lemma_leading_space, lemma_space_joins, Line, Phrase};
use crate::grammar::{
    assignment_head, digit, expr, expr_tail, factor, identifier, integer_literal, is_additive,
    is_multiplicative, leading_digits, lemma_run_len, name_char, run_len, skip_ws, statement,
    term, term_tail, whitespace,
};
use crate::results::{
    lemma_factor_result, lemma_identifier_result, lemma_levels, lemma_skip_ws, lemma_term_result,
};
use crate::syntax::{is_name, ExprView};

verus! {

/// The white space that `s` starts with.
pub open spec fn leading_space(s: Seq<char>) -> Seq<char> {
    s.take(run_len(whitespace(), s) as int)
}

/// A text is its leading white space and then the rest of it.
pub proof fn lemma_leading_space_splits(s: Seq<char>)
    ensures
        is_space(leading_space(s)),
        s == leading_space(s) + skip_ws(s),
{
    lemma_run_len(whitespace(), s);
    assert(s =~= leading_space(s) + skip_ws(s));
}

/// A phrase derived as a factor is derived as a term, and one derived as a
/// term is derived as an expression.
pub proof fn lemma_derived_below(p: Phrase, level: nat)
    requires
        p.derived_at(level),
    ensures
        forall|lower: nat| lower <= level ==> p.derived_at(lower),
{
}

/// What was read before `rest`: `s` is the text of `p`, then the white space
/// `after`, then `rest`; and `p` is derived at `level` and means `e`.
pub open spec fn was_read(
    s: Seq<char>,
    level: nat,
    p: Phrase,
    after: Seq<char>,
    rest: Seq<char>,
    e: ExprView,
) -> bool {
    &&& p.derived_at(level)
    &&& p.tree() == e
    &&& is_space(after)
    &&& s == p.text() + after + rest
}

/// A factor that was parsed is a factor of the grammar: the text before the
/// remainder is that of a derivation, followed by white space at most, and
/// the tree is that of the derivation.
pub proof fn lemma_factor_is_derived(s: Seq<char>) -> (read: (Phrase, Seq<char>))
    requires
        factor(s) is Ok,
    ensures
        was_read(s, 2, read.0, read.1, factor(s)->Ok_0.0, factor(s)->Ok_0.1),
    decreases s.len(), 0nat,
{
    let space = leading_space(s);
    let t = skip_ws(s);
    let nothing = Seq::<char>::empty();
    lemma_leading_space_splits(s);
    lemma_skip_ws(s);
    lemma_skip_ws(t);
    if let Ok((rest, n)) = integer_literal(t) {
        let digits = leading_digits(t);
        lemma_run_len(digit(), t);
        assert(t =~= digits + rest);
        assert forall|i: int| 0 <= i < digits.len() implies is_digit(#[trigger] digits[i]) by {
            assert(digits[i] == t[i]);
        }
        let p = Phrase::Literal { space, digits };
        assert(s =~= p.text() + nothing + rest);
        (p, nothing)
    } else if let Ok((rest, name)) = identifier(t) {
        let n = run_len(name_char(), t) as int;
        let mid = t.skip(n);
        let after = leading_space(mid);
        lemma_run_len(name_char(), t);
        lemma_identifier_result(t);
        lemma_leading_space_splits(mid);
        assert(t =~= name + mid);
        let p = Phrase::Name { space, name };
        assert(s =~= p.text() + after + rest);
        (p, after)
    } else {
        let inner = t.skip(1);
        assert(t =~= seq!['('] + inner);
        lemma_leading_space(inner);
        let (p, before_close) = lemma_expr_is_derived(inner);
        let r = expr(inner)->Ok_0.0;
        let close = skip_ws(r);
        let last = close.skip(1);
        let after = leading_space(last);
        lemma_leading_space_splits(r);
        lemma_leading_space_splits(last);
        lemma_space_joins(before_close, leading_space(r));
        assert(close =~= seq![')'] + last);
        let closing_space = before_close + leading_space(r);
        let group = Phrase::Group { space, inner: Box::new(p), closing_space };
        assert(s =~= group.text() + after + skip_ws(last));
        (group, after)
    }
}

/// The operators and factors that were parsed after an operand make, with
/// the operand, a term of the grammar. `left` is the derivation of the
/// operand and `before` the white space read after it.
pub proof fn lemma_term_tail_is_derived(s: Seq<char>, left: Phrase, before: Seq<char>) -> (read: (
    Phrase,
    Seq<char>,
))
    requires
        left.derived_at(1),
        is_space(before),
        term_tail(s, left.tree()) is Ok,
    ensures
        was_read(
            left.text() + before + s,
            1,
            read.0,
            read.1,
            term_tail(s, left.tree())->Ok_0.0,
            term_tail(s, left.tree())->Ok_0.1,
        ),
    decreases s.len(), 1nat,
{
    let t = skip_ws(s);
    lemma_leading_space_splits(s);
    lemma_levels(s, left.tree());
    if t.len() > 0 && is_multiplicative(t[0]) {
        let operand = t.skip(1);
        lemma_skip_ws(s);
        lemma_factor_result(operand);
        let (right, after) = lemma_factor_is_derived(operand);
        let (rest, e) = factor(operand)->Ok_0;
        let space = before + leading_space(s);
        lemma_space_joins(before, leading_space(s));
        let joined = Phrase::Binary { left: Box::new(left), space, op: t[0], right: Box::new(right) };
        assert(t =~= seq![t[0]] + operand);
        assert(left.text() + before + s =~= joined.text() + after + rest);
        lemma_term_tail_is_derived(rest, joined, after)
    } else {
        (left, before)
    }
}

/// A term that was parsed is a term of the grammar.
pub proof fn lemma_term_is_derived(s: Seq<char>) -> (read: (Phrase, Seq<char>))
    requires
        term(s) is Ok,
    ensures
        was_read(s, 1, read.0, read.1, term(s)->Ok_0.0, term(s)->Ok_0.1),
    decreases s.len(), 2nat,
{
    lemma_levels(s, arbitrary());
    lemma_factor_result(s);
    let (first, after) = lemma_factor_is_derived(s);
    let (rest, e) = factor(s)->Ok_0;
    lemma_derived_below(first, 2);
    lemma_term_tail_is_derived(rest, first, after)
}

/// The operators and terms that were parsed after an operand make, with the
/// operand, an expression of the grammar. `left` is the derivation of the
/// operand and `before` the white space read after it.
pub proof fn lemma_expr_tail_is_derived(s: Seq<char>, left: Phrase, before: Seq<char>) -> (read: (
    Phrase,
    Seq<char>,
))
    requires
        left.derived_at(0),
        is_space(before),
        expr_tail(s, left.tree()) is Ok,
    ensures
        was_read(
            left.text() + before + s,
            0,
            read.0,
            read.1,
            expr_tail(s, left.tree())->Ok_0.0,
            expr_tail(s, left.tree())->Ok_0.1,
        ),
    decreases s.len(), 3nat,
{
    let t = skip_ws(s);
    lemma_leading_space_splits(s);
    lemma_levels(s, left.tree());
    if t.len() > 0 && is_additive(t[0]) {
        let operand = t.skip(1);
        lemma_skip_ws(s);
        lemma_term_result(operand);
        let (right, after) = lemma_term_is_derived(operand);
        let (rest, e) = term(operand)->Ok_0;
        let space = before + leading_space(s);
        lemma_space_joins(before, leading_space(s));
        let joined = Phrase::Binary { left: Box::new(left), space, op: t[0], right: Box::new(right) };
        assert(t =~= seq![t[0]] + operand);
        assert(left.text() + before + s =~= joined.text() + after + rest);
        lemma_expr_tail_is_derived(rest, joined, after)
    } else {
        (left, before)
    }
}

/// An expression that was parsed is an expression of the grammar: the text
/// before the remainder is that of a derivation, followed by white space at
/// most, and the tree is that of the derivation.
pub proof fn lemma_expr_is_derived(s: Seq<char>) -> (read: (Phrase, Seq<char>))
    requires
        expr(s) is Ok,
    ensures
        was_read(s, 0, read.0, read.1, expr(s)->Ok_0.0, expr(s)->Ok_0.1),
    decreases s.len(), 4nat,
{
    lemma_levels(s, arbitrary());
    lemma_leading_space(s);
    lemma_term_result(s);
    let (first, after) = lemma_term_is_derived(s);
    let (rest, e) = term(s)->Ok_0;
    lemma_derived_below(first, 1);
    lemma_expr_tail_is_derived(rest, first, after)
}

/// The start of an assignment that was read is white space, a name, white
/// space and `=`. Gives the white space before the name and before the `=`.
pub proof fn lemma_assignment_head_is_derived(s: Seq<char>) -> (spaces: (Seq<char>, Seq<char>))
    requires
        assignment_head(s) is Some,
    ensures
        is_space(spaces.0),
        is_space(spaces.1),
        is_name(assignment_head(s)->Some_0.0),
        s == spaces.0 + assignment_head(s)->Some_0.0 + spaces.1 + seq!['='] + assignment_head(
            s,
        )->Some_0.1,
{
    let (name, source) = assignment_head(s)->Some_0;
    let t = skip_ws(s);
    let n = run_len(name_char(), t) as int;
    let mid = t.skip(n);
    let equals = skip_ws(mid);
    lemma_leading_space_splits(s);
    lemma_run_len(name_char(), t);
    lemma_identifier_result(s);
    lemma_leading_space_splits(mid);
    lemma_skip_ws(mid);
    lemma_skip_ws(equals);
    assert(t =~= name + mid);
    assert(equals =~= seq!['='] + source);
    assert(s =~= leading_space(s) + name + leading_space(mid) + seq!['='] + source);
    (leading_space(s), leading_space(mid))
}

/// A statement that was parsed is a line of the grammar: the text before
/// the remainder is that of a derivation, and the statement is what the
/// derivation means.
pub proof fn lemma_statement_is_derived(s: Seq<char>) -> (line: Line)
    requires
        statement(s) is Ok,
    ensures
        line.derived(),
        line.statement() == statement(s)->Ok_0.1,
        s == line.text() + statement(s)->Ok_0.0,
{
    assert(assignment_head(skip_ws(s)) == assignment_head(s) && expr(skip_ws(s)) == expr(s)) by {
        lemma_leading_space(s);
    }
    match assignment_head(s) {
        Some((name, source)) => {
            let (space, equals_space) = lemma_assignment_head_is_derived(s);
            assert(expr(skip_ws(source)) == expr(source)) by {
                lemma_leading_space(source);
            }
            let (value, after) = lemma_expr_is_derived(source);
            let r = expr(source)->Ok_0.0;
            lemma_leading_space_splits(r);
            lemma_space_joins(after, leading_space(r));
            let line = Line::Assignment {
                space,
                name,
                equals_space,
                value,
                trailing: after + leading_space(r),
            };
            assert(s =~= line.text() + skip_ws(r));
            line
        },
        None => {
            let (value, after) = lemma_expr_is_derived(s);
            let r = expr(s)->Ok_0.0;
            lemma_leading_space_splits(r);
            lemma_space_joins(after, leading_space(r));
            let line = Line::Expression { value, trailing: after + leading_space(r) };
            assert(s =~= line.text() + skip_ws(r));
            line
        },
    }
}

} // verus!
