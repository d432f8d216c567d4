//! The proof that what is written out parses back: the text of a
//! well-formed tree gives that tree again, and so does the text of whatever
//! tree the parser returned.

use vstd::prelude::*;
use crate::chars::{digit_value, is_digit, is_name_char, is_name_start, is_whitespace};
use crate::grammar::{
    assignment_head, binary, decimal_value, digit, expr, expr_tail, factor, identifier,
    is_additive, is_multiplicative, lemma_run_before, name_char, statement, term, term_tail,
};
use crate::render::{decimal, digit_char, level_of, render, render_at, render_statement};
use crate::results::{lemma_expr_result, lemma_levels, lemma_skip_ws, lemma_statement_result};
use crate::syntax::{is_name, ErrorView, ExprView, StatementView};

verus! {

/// `rest` cannot lengthen a token written before it, and does not start
/// with white space: it is empty or starts with a character that is neither
/// white space nor part of a name or a number.
pub open spec fn is_boundary(rest: Seq<char>) -> bool {
    rest.len() == 0 || (!is_name_char(rest[0]) && !is_whitespace(rest[0]))
}

/// `rest` cannot continue a term written before it.
pub open spec fn ends_term(rest: Seq<char>) -> bool {
    is_boundary(rest) && (rest.len() == 0 || !is_multiplicative(rest[0]))
}

/// `rest` cannot continue an expression written before it.
pub open spec fn ends_expr(rest: Seq<char>) -> bool {
    ends_term(rest) && (rest.len() == 0 || !is_additive(rest[0]))
}

/// The decimal digits of a number are digits, at least one, and write the
/// number.
pub proof fn lemma_decimal(n: nat)
    ensures
        decimal(n).len() > 0,
        forall|i: int| 0 <= i < decimal(n).len() ==> is_digit(#[trigger] decimal(n)[i]),
        decimal_value(decimal(n)) == n,
    decreases n,
{
    if n < 10 {
        assert(decimal(n).drop_last() =~= Seq::<char>::empty());
        assert(decimal_value(decimal(n).drop_last()) == 0);
        assert(digit_value(digit_char(n)) == n);
    } else {
        lemma_decimal(n / 10);
        assert(decimal(n).drop_last() =~= decimal(n / 10));
        assert(digit_value(digit_char(n % 10)) == n % 10);
    }
}

/// What is written out starts with a digit, with the first character of a
/// name, or with `(`: never with white space.
pub proof fn lemma_render_starts(e: ExprView, level: nat)
    requires
        e.well_formed(),
    ensures
        render_at(e, level).len() > 0,
        is_digit(render_at(e, level)[0]) || is_name_start(render_at(e, level)[0]) || render_at(
            e,
            level,
        )[0] == '(',
    decreases e,
{
    match e {
        ExprView::Int(n) => {
            lemma_decimal(n as nat);
        },
        ExprView::Var(name) => {},
        ExprView::Add(l, r) => {
            lemma_render_starts(*l, 0);
        },
        ExprView::Sub(l, r) => {
            lemma_render_starts(*l, 0);
        },
        ExprView::Mul(l, r) => {
            lemma_render_starts(*l, 1);
        },
        ExprView::Div(l, r) => {
            lemma_render_starts(*l, 1);
        },
    }
}

/// A literal that is not negative, written out before a boundary, parses as
/// a factor to itself and leaves what follows it.
pub proof fn lemma_literal_parses(n: i32, rest: Seq<char>)
    requires
        n >= 0,
        is_boundary(rest),
    ensures
        factor(decimal(n as nat) + rest) == Ok::<_, ErrorView>((rest, ExprView::Int(n))),
{
    let text = decimal(n as nat);
    let s = text + rest;
    lemma_decimal(n as nat);
    assert(s[0] == text[0]);
    lemma_skip_ws(s);
    assert forall|i: int| 0 <= i < text.len() implies (digit())(#[trigger] text[i]) by {}
    lemma_run_before(digit(), text, rest);
}

/// A name written out before a boundary is read as that name, and parses
/// as a factor to the variable it names; what follows it is left.
pub proof fn lemma_variable_parses(name: Seq<char>, rest: Seq<char>)
    requires
        is_name(name),
        is_boundary(rest),
    ensures
        identifier(name + rest) == Ok::<_, ErrorView>((rest, name)),
        factor(name + rest) == Ok::<_, ErrorView>((rest, ExprView::Var(name))),
{
    let s = name + rest;
    assert(s[0] == name[0]);
    lemma_skip_ws(s);
    lemma_skip_ws(rest);
    assert forall|i: int| 0 <= i < name.len() implies (name_char())(#[trigger] name[i]) by {}
    lemma_run_before(name_char(), name, rest);
}

/// `text`, written before `rest`, parses at a level of the grammar as the
/// first operand `e` of that level: what the level gives on `text + rest` is
/// what its tail gives on `rest` with `e` to the left. At level 2, which has
/// no tail, it gives `e` and leaves `rest`.
pub open spec fn parses_at(level: nat, text: Seq<char>, rest: Seq<char>, e: ExprView) -> bool {
    if level == 0 {
        expr(text + rest) == expr_tail(rest, e)
    } else if level == 1 {
        term(text + rest) == term_tail(rest, e)
    } else {
        factor(text + rest) == Ok::<_, ErrorView>((rest, e))
    }
}

/// What parses as a factor parses as the first operand of a term.
proof fn lemma_factor_as_term(text: Seq<char>, rest: Seq<char>, e: ExprView)
    requires
        parses_at(2, text, rest, e),
    ensures
        parses_at(1, text, rest, e),
{
    lemma_levels(text + rest, e);
}

/// What parses as the first operand of a term, and is followed by nothing
/// that continues a term, parses as the first operand of an expression.
proof fn lemma_term_as_expr(text: Seq<char>, rest: Seq<char>, e: ExprView)
    requires
        parses_at(1, text, rest, e),
        text.len() > 0 && !is_whitespace(text[0]),
        ends_term(rest),
    ensures
        parses_at(0, text, rest, e),
{
    let s = text + rest;
    assert(s[0] == text[0]);
    lemma_skip_ws(s);
    lemma_skip_ws(rest);
    lemma_levels(s, e);
    lemma_levels(rest, e);
}

/// What parses as an expression before `)` parses, in parentheses, as a
/// factor.
proof fn lemma_expr_as_factor(text: Seq<char>, rest: Seq<char>, e: ExprView)
    requires
        parses_at(0, text, seq![')'] + rest, e),
        text.len() > 0 && !is_whitespace(text[0]),
        is_boundary(rest),
    ensures
        parses_at(2, seq!['('] + text + seq![')'], rest, e),
{
    let closing = seq![')'] + rest;
    let inner = text + closing;
    let s = seq!['('] + text + seq![')'] + rest;
    assert(s[0] == '(');
    assert(s.skip(1) =~= inner);
    assert(inner[0] == text[0]);
    assert(closing[0] == ')');
    assert(closing.skip(1) =~= rest);
    lemma_skip_ws(s);
    lemma_skip_ws(inner);
    lemma_skip_ws(closing);
    lemma_skip_ws(rest);
    lemma_levels(closing, e);
}

/// The number of steps from a level to the level at which `e` stands
/// without parentheses, going from expression to term to factor and, in
/// parentheses, to expression again.
pub open spec fn steps_to_own_level(e: ExprView, level: nat) -> nat {
    ((level_of(e) + 3 - level) % 3) as nat
}

/// A well-formed tree, written out as an operand of a level and followed by
/// a boundary, parses at that level as the first operand, to itself.
pub proof fn lemma_render_parses(e: ExprView, level: nat, rest: Seq<char>)
    requires
        e.well_formed(),
        level <= 2,
        is_boundary(rest),
        level == 0 ==> ends_term(rest),
    ensures
        parses_at(level, render_at(e, level), rest, e),
    decreases e, 1 + steps_to_own_level(e, level),
{
    let text = render_at(e, level);
    lemma_render_starts(e, level);
    if level == level_of(e) {
        match e {
            ExprView::Int(n) => {
                lemma_literal_parses(n, rest);
            },
            ExprView::Var(name) => {
                lemma_variable_parses(name, rest);
            },
            ExprView::Add(l, r) => {
                lemma_sum_parses(e, *l, '+', *r, rest);
            },
            ExprView::Sub(l, r) => {
                lemma_sum_parses(e, *l, '-', *r, rest);
            },
            ExprView::Mul(l, r) => {
                lemma_product_parses(e, *l, '*', *r, rest);
            },
            ExprView::Div(l, r) => {
                lemma_product_parses(e, *l, '/', *r, rest);
            },
        }
    } else if level == 0 {
        lemma_render_parses(e, 1, rest);
        lemma_term_as_expr(text, rest, e);
    } else if level == 1 {
        lemma_render_parses(e, 2, rest);
        lemma_factor_as_term(text, rest, e);
    } else {
        let inner = render_at(e, 0);
        lemma_render_starts(e, 0);
        lemma_render_parses(e, 0, seq![')'] + rest);
        lemma_expr_as_factor(inner, rest, e);
    }
}

/// The step of `lemma_render_parses` for a sum or a difference.
proof fn lemma_sum_parses(e: ExprView, l: ExprView, op: char, r: ExprView, rest: Seq<char>)
    requires
        e == binary(op, l, r),
        e.well_formed(),
        is_additive(op),
        ends_term(rest),
    ensures
        parses_at(0, render_at(e, 0), rest, e),
    decreases e, 0nat,
{
    let right = render_at(r, 1) + rest;
    let tail = seq![op] + right;
    let s = render_at(l, 0) + seq![op] + render_at(r, 1) + rest;
    assert(s =~= render_at(l, 0) + tail);
    assert(tail[0] == op);
    assert(tail.skip(1) =~= right);
    lemma_render_parses(l, 0, tail);
    lemma_render_parses(r, 1, rest);
    lemma_skip_ws(tail);
    lemma_skip_ws(rest);
    lemma_levels(tail, l);
    lemma_levels(rest, r);
}

/// The step of `lemma_render_parses` for a product or a quotient.
proof fn lemma_product_parses(e: ExprView, l: ExprView, op: char, r: ExprView, rest: Seq<char>)
    requires
        e == binary(op, l, r),
        e.well_formed(),
        is_multiplicative(op),
        is_boundary(rest),
    ensures
        parses_at(1, render_at(e, 1), rest, e),
    decreases e, 0nat,
{
    let right = render_at(r, 2) + rest;
    let tail = seq![op] + right;
    let s = render_at(l, 1) + seq![op] + render_at(r, 2) + rest;
    assert(s =~= render_at(l, 1) + tail);
    assert(tail[0] == op);
    assert(tail.skip(1) =~= right);
    lemma_render_parses(l, 1, tail);
    lemma_render_parses(r, 2, rest);
    lemma_skip_ws(tail);
    lemma_levels(tail, l);
}

/// A well-formed expression, written out and followed by text that cannot
/// continue it, parses to itself and leaves that text.
pub proof fn lemma_expr_of_render(e: ExprView, rest: Seq<char>)
    requires
        e.well_formed(),
        ends_expr(rest),
    ensures
        expr(render(e) + rest) == Ok::<_, ErrorView>((rest, e)),
{
    lemma_render_parses(e, 0, rest);
    lemma_skip_ws(rest);
    lemma_levels(rest, e);
}

/// A well-formed expression, written out as an operand of any level and
/// followed by a boundary other than `=`, does not start an assignment.
pub proof fn lemma_render_assigns_nothing(e: ExprView, level: nat, rest: Seq<char>)
    requires
        e.well_formed(),
        is_boundary(rest),
        rest.len() > 0 ==> rest[0] != '=',
    ensures
        assignment_head(render_at(e, level) + rest) is None,
    decreases e,
{
    let text = render_at(e, level);
    let s = text + rest;
    lemma_render_starts(e, level);
    assert(s[0] == text[0]);
    lemma_skip_ws(s);
    if level > level_of(e) {
        assert(text[0] == '(');
    } else {
        match e {
            ExprView::Int(n) => {
                lemma_decimal(n as nat);
            },
            ExprView::Var(name) => {
                lemma_variable_parses(name, rest);
                lemma_skip_ws(rest);
            },
            ExprView::Add(l, r) => {
                let tail = seq!['+'] + render_at(*r, 1) + rest;
                assert(s =~= render_at(*l, 0) + tail);
                assert(tail[0] == '+');
                lemma_render_assigns_nothing(*l, 0, tail);
            },
            ExprView::Sub(l, r) => {
                let tail = seq!['-'] + render_at(*r, 1) + rest;
                assert(s =~= render_at(*l, 0) + tail);
                assert(tail[0] == '-');
                lemma_render_assigns_nothing(*l, 0, tail);
            },
            ExprView::Mul(l, r) => {
                let tail = seq!['*'] + render_at(*r, 2) + rest;
                assert(s =~= render_at(*l, 1) + tail);
                assert(tail[0] == '*');
                lemma_render_assigns_nothing(*l, 1, tail);
            },
            ExprView::Div(l, r) => {
                let tail = seq!['/'] + render_at(*r, 2) + rest;
                assert(s =~= render_at(*l, 1) + tail);
                assert(tail[0] == '/');
                lemma_render_assigns_nothing(*l, 1, tail);
            },
        }
    }
}

/// A well-formed statement, written out, parses to itself, and nothing is
/// left over.
pub proof fn lemma_statement_of_render(st: StatementView)
    requires
        st.well_formed(),
    ensures
        statement(render_statement(st)) == Ok::<_, ErrorView>((Seq::<char>::empty(), st)),
{
    let s = render_statement(st);
    let nothing = Seq::<char>::empty();
    lemma_skip_ws(nothing);
    match st {
        StatementView::Expr(e) => {
            assert(render(e) + nothing =~= s);
            lemma_render_starts(e, 0);
            lemma_skip_ws(s);
            lemma_render_assigns_nothing(e, 0, nothing);
            lemma_expr_of_render(e, nothing);
        },
        StatementView::Assign(name, value) => {
            let text = render(value);
            let tail = seq!['='] + text;
            assert(s =~= name + tail);
            assert(s[0] == name[0]);
            assert(tail[0] == '=');
            assert(tail.skip(1) =~= text);
            assert(text + nothing =~= text);
            lemma_skip_ws(s);
            lemma_variable_parses(name, tail);
            lemma_skip_ws(tail);
            lemma_render_starts(value, 0);
            lemma_skip_ws(text);
            lemma_expr_of_render(value, nothing);
        },
    }
}

/// Whatever expression a text parses to, writing it out and parsing again
/// gives the same expression, with nothing left over.
pub proof fn lemma_expr_round_trip(s: Seq<char>)
    ensures
        expr(s) matches Ok((_, e)) ==> expr(render(e)) == Ok::<_, ErrorView>(
            (Seq::<char>::empty(), e),
        ),
{
    lemma_expr_result(s);
    if let Ok((_, e)) = expr(s) {
        assert(render(e) + Seq::<char>::empty() =~= render(e));
        lemma_expr_of_render(e, Seq::<char>::empty());
    }
}

/// Whatever statement a text parses to, writing it out and parsing again
/// gives the same statement, with nothing left over.
pub proof fn lemma_statement_round_trip(s: Seq<char>)
    ensures
        statement(s) matches Ok((_, st)) ==> statement(render_statement(st)) == Ok::<
            _,
            ErrorView,
        >((Seq::<char>::empty(), st)),
{
    lemma_statement_result(s);
    if let Ok((_, st)) = statement(s) {
        lemma_statement_of_render(st);
    }
}

} // verus!
