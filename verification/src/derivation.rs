//! The texts that the grammar produces, and the proof that the parser reads
//! every one of them.
//!
//! A `Phrase` is a derivation of the grammar together with its layout: the
//! white space before each token. Its text is what the derivation spells;
//! its tree is what the derivation means. The grammar is taken with its
//! repetitions written as left recursion,
//!
//! ```text
//! expr   := expr ('+'|'-') term | term
//! term   := term ('*'|'/') factor | factor
//! factor := INT | IDENT | '(' expr ')'
//! ```
//!
//! which produces the same texts and groups them to the left, as the parser
//! does.

use vstd::prelude::*;
use crate::chars::{is_digit, is_name_char, is_whitespace};
use crate::grammar::{
    assignment_head, binary, decimal_value, digit, expr, expr_tail, factor, identifier,
    is_additive, is_multiplicative, lemma_run_before, lemma_run_len, lemma_run_len_is,
    name_char, run_len, skip_ws, statement, term, term_tail, whitespace, Parsed,
};
use crate::results::{lemma_levels, lemma_skip_ws};
use crate::syntax::{is_name, ErrorView, ExprView, StatementView};

verus! {

/// A derivation of the grammar with the white space before each token.
pub enum Phrase {
    /// An integer literal: white space, then digits.
    Literal { space: Seq<char>, digits: Seq<char> },
    /// A name: white space, then the name.
    Name { space: Seq<char>, name: Seq<char> },
    /// An expression in parentheses: white space, `(`, the expression,
    /// white space, `)`.
    Group { space: Seq<char>, inner: Box<Phrase>, closing_space: Seq<char> },
    /// Two operands and an operator: the left operand, white space, the
    /// operator, the right operand.
    Binary { left: Box<Phrase>, space: Seq<char>, op: char, right: Box<Phrase> },
}

/// Every character of `space` is white space.
pub open spec fn is_space(space: Seq<char>) -> bool {
    forall|i: int| 0 <= i < space.len() ==> is_whitespace(#[trigger] space[i])
}

/// `digits` is a literal that fits: at least one digit, only digits, and a
/// number that an `i32` can hold.
pub open spec fn is_literal(digits: Seq<char>) -> bool {
    &&& digits.len() > 0
    &&& forall|i: int| 0 <= i < digits.len() ==> is_digit(#[trigger] digits[i])
    &&& decimal_value(digits) <= i32::MAX
}

impl Phrase {
    /// The text that the derivation spells.
    pub open spec fn text(self) -> Seq<char>
        decreases self,
    {
        match self {
            Phrase::Literal { space, digits } => space + digits,
            Phrase::Name { space, name } => space + name,
            Phrase::Group { space, inner, closing_space } => space + seq!['('] + inner.text()
                + closing_space + seq![')'],
            Phrase::Binary { left, space, op, right } => left.text() + space + seq![op]
                + right.text(),
        }
    }

    /// The tree that the derivation means.
    pub open spec fn tree(self) -> ExprView
        decreases self,
    {
        match self {
            Phrase::Literal { space, digits } => ExprView::Int(decimal_value(digits) as i32),
            Phrase::Name { space, name } => ExprView::Var(name),
            Phrase::Group { space, inner, closing_space } => inner.tree(),
            Phrase::Binary { left, space, op, right } => binary(op, left.tree(), right.tree()),
        }
    }

    /// The highest level of the grammar that derives a phrase of this
    /// shape: 0 for a sum or a difference, 1 for a product or a quotient, 2
    /// for a literal, a name or a group.
    pub open spec fn own_level(self) -> nat {
        match self {
            Phrase::Binary { left, space, op, right } => if is_additive(op) {
                0
            } else {
                1
            },
            _ => 2,
        }
    }

    /// The grammar derives the phrase at the given level: 0 as an
    /// expression, 1 as a term, 2 as a factor.
    pub open spec fn derived_at(self, level: nat) -> bool
        decreases self,
    {
        match self {
            Phrase::Literal { space, digits } => is_space(space) && is_literal(digits),
            Phrase::Name { space, name } => is_space(space) && is_name(name),
            Phrase::Group { space, inner, closing_space } => {
                &&& is_space(space)
                &&& is_space(closing_space)
                &&& inner.derived_at(0)
            },
            Phrase::Binary { left, space, op, right } => {
                &&& is_space(space)
                &&& if is_additive(op) {
                    level == 0 && left.derived_at(0) && right.derived_at(1)
                } else {
                    is_multiplicative(op) && level <= 1 && left.derived_at(1) && right.derived_at(
                        2,
                    )
                }
            },
        }
    }
}

/// Two results are the same but for white space at the start of what they
/// leave: the same error, or the same value before remainders that differ
/// in leading white space at most.
pub open spec fn alike<T>(a: Parsed<T>, b: Parsed<T>) -> bool {
    match (a, b) {
        (Ok((rest_a, value_a)), Ok((rest_b, value_b))) => value_a == value_b && skip_ws(rest_a)
            == skip_ws(rest_b),
        (Err(e_a), Err(e_b)) => e_a == e_b,
        _ => false,
    }
}

/// `rest` cannot lengthen a token written before it: it is empty or starts
/// with a character that is no part of a name or a number.
pub open spec fn is_token_end(rest: Seq<char>) -> bool {
    rest.len() == 0 || !is_name_char(rest[0])
}

/// After white space, `rest` does not go on with `*` or `/`.
pub open spec fn ends_product(rest: Seq<char>) -> bool {
    skip_ws(rest).len() == 0 || !is_multiplicative(skip_ws(rest)[0])
}

/// After white space, `rest` does not go on with an operator.
pub open spec fn ends_sum(rest: Seq<char>) -> bool {
    ends_product(rest) && (skip_ws(rest).len() == 0 || !is_additive(skip_ws(rest)[0]))
}

/// White space after white space is white space.
pub proof fn lemma_space_joins(a: Seq<char>, b: Seq<char>)
    requires
        is_space(a),
        is_space(b),
    ensures
        is_space(a + b),
{
    assert forall|i: int| 0 <= i < (a + b).len() implies is_whitespace(#[trigger] (a + b)[i]) by {
        if i < a.len() {
            assert((a + b)[i] == a[i]);
        } else {
            assert((a + b)[i] == b[i - a.len()]);
        }
    }
}

/// White space before a text is skipped with the white space that the text
/// starts with.
pub proof fn lemma_skip_space(space: Seq<char>, rest: Seq<char>)
    requires
        is_space(space),
    ensures
        skip_ws(space + rest) == skip_ws(rest),
{
    let s = space + rest;
    let k = run_len(whitespace(), rest) as int;
    let n = space.len() + k;
    lemma_run_len(whitespace(), rest);
    assert forall|i: int| 0 <= i < n implies (whitespace())(#[trigger] s[i]) by {
        if i < space.len() {
            assert(s[i] == space[i]);
        } else {
            assert(s[i] == rest[i - space.len()]);
        }
    }
    if n < s.len() {
        assert(s[n] == rest[k]);
    }
    lemma_run_len_is(whitespace(), s, n);
    assert(s.skip(n) =~= rest.skip(k));
}

/// Each level skips the white space before it: white space skipped
/// beforehand changes nothing.
pub proof fn lemma_leading_space(s: Seq<char>)
    ensures
        skip_ws(skip_ws(s)) == skip_ws(s),
        identifier(skip_ws(s)) == identifier(s),
        assignment_head(skip_ws(s)) == assignment_head(s),
        factor(skip_ws(s)) == factor(s),
        term(skip_ws(s)) == term(s),
        expr(skip_ws(s)) == expr(s),
{
    lemma_skip_ws(s);
    lemma_skip_ws(skip_ws(s));
    lemma_levels(s, arbitrary());
    lemma_levels(skip_ws(s), arbitrary());
}

/// The tails of both levels give like results on texts that differ in
/// leading white space at most.
pub proof fn lemma_tails_alike(a: Seq<char>, b: Seq<char>, left: ExprView)
    requires
        skip_ws(a) == skip_ws(b),
    ensures
        alike(term_tail(a, left), term_tail(b, left)),
        alike(expr_tail(a, left), expr_tail(b, left)),
{
    lemma_levels(a, left);
    lemma_levels(b, left);
}

/// A literal that fits, after white space and before the end of a token,
/// parses as a factor to its number and leaves what follows it.
pub proof fn lemma_literal_phrase(space: Seq<char>, digits: Seq<char>, rest: Seq<char>)
    requires
        is_space(space),
        is_literal(digits),
        is_token_end(rest),
    ensures
        factor(space + digits + rest) == Ok::<_, ErrorView>(
            (rest, ExprView::Int(decimal_value(digits) as i32)),
        ),
{
    let s = digits + rest;
    assert(space + digits + rest =~= space + s);
    lemma_skip_space(space, s);
    assert(s[0] == digits[0]);
    lemma_skip_ws(s);
    assert forall|i: int| 0 <= i < digits.len() implies (digit())(#[trigger] digits[i]) by {}
    lemma_run_before(digit(), digits, rest);
}

/// A name, after white space and before the end of a token, is read as
/// that name, and parses as a factor to the variable it names; the white
/// space after it is skipped.
pub proof fn lemma_name_phrase(space: Seq<char>, name: Seq<char>, rest: Seq<char>)
    requires
        is_space(space),
        is_name(name),
        is_token_end(rest),
    ensures
        identifier(space + name + rest) == Ok::<_, ErrorView>((skip_ws(rest), name)),
        factor(space + name + rest) == Ok::<_, ErrorView>((skip_ws(rest), ExprView::Var(name))),
{
    let s = name + rest;
    assert(space + name + rest =~= space + s);
    lemma_skip_space(space, s);
    assert(s[0] == name[0]);
    lemma_skip_ws(s);
    assert forall|i: int| 0 <= i < name.len() implies (name_char())(#[trigger] name[i]) by {}
    lemma_run_before(name_char(), name, rest);
}

/// What the parser gives at a level on a text that starts with a phrase of
/// that level: at level 2 the tree of the phrase; at levels 1 and 0 what
/// the tail of the level gives after the phrase, with the tree of the phrase
/// to the left. The remainder is stated but for leading white space.
pub open spec fn reads(level: nat, p: Phrase, rest: Seq<char>) -> bool {
    if level == 0 {
        alike(expr(p.text() + rest), expr_tail(rest, p.tree()))
    } else if level == 1 {
        alike(term(p.text() + rest), term_tail(rest, p.tree()))
    } else {
        alike(factor(p.text() + rest), Ok::<_, ErrorView>((rest, p.tree())))
    }
}

/// The parser reads every phrase that the grammar derives: at the level at
/// which the phrase is derived, and before any text that cannot lengthen
/// its last token (nor, for an expression, continue its last term), the
/// parser gives the tree of the phrase.
pub proof fn lemma_reads(p: Phrase, level: nat, rest: Seq<char>)
    requires
        p.derived_at(level),
        level <= 2,
        is_token_end(rest),
        level == 0 ==> ends_product(rest),
    ensures
        reads(level, p, rest),
    decreases p, p.own_level() - level,
{
    let s = p.text() + rest;
    if level < p.own_level() {
        assert(p.derived_at(level + 1));
        lemma_levels(s, p.tree());
        lemma_levels(rest, p.tree());
        if level == 1 {
            lemma_reads(p, 2, rest);
            let r = factor(s)->Ok_0.0;
            lemma_tails_alike(r, rest, p.tree());
        } else {
            lemma_reads(p, 1, rest);
            lemma_leading_space(s);
            let r = term(s)->Ok_0.0;
            lemma_tails_alike(r, rest, p.tree());
        }
    } else {
        match p {
            Phrase::Literal { space, digits } => {
                lemma_literal_phrase(space, digits, rest);
            },
            Phrase::Name { space, name } => {
                lemma_name_phrase(space, name, rest);
                lemma_leading_space(rest);
            },
            Phrase::Group { space, inner, closing_space } => {
                let closing = seq![')'] + rest;
                let after = closing_space + closing;
                let inside = inner.text() + after;
                let opening = seq!['('] + inside;
                assert(s =~= space + opening);
                lemma_skip_space(space, opening);
                assert(opening[0] == '(');
                assert(opening.skip(1) =~= inside);
                lemma_skip_ws(opening);
                lemma_skip_space(closing_space, closing);
                assert(closing[0] == ')');
                assert(closing.skip(1) =~= rest);
                lemma_skip_ws(closing);
                assert(after.len() > 0 && !is_name_char(after[0])) by {
                    if closing_space.len() > 0 {
                        assert(after[0] == closing_space[0]);
                    } else {
                        assert(after[0] == closing[0]);
                    }
                }
                lemma_reads(*inner, 0, after);
                lemma_leading_space(inside);
                lemma_levels(after, inner.tree());
                lemma_leading_space(rest);
            },
            Phrase::Binary { left, space, op, right } => {
                let operand = right.text() + rest;
                let tail = seq![op] + operand;
                let after = space + tail;
                assert(s =~= left.text() + after);
                lemma_skip_space(space, tail);
                assert(tail[0] == op);
                assert(tail.skip(1) =~= operand);
                lemma_skip_ws(tail);
                assert(after.len() > 0 && !is_name_char(after[0])) by {
                    if space.len() > 0 {
                        assert(after[0] == space[0]);
                    } else {
                        assert(after[0] == tail[0]);
                    }
                }
                lemma_levels(after, left.tree());
                lemma_levels(rest, right.tree());
                if is_additive(op) {
                    lemma_reads(*left, 0, after);
                    lemma_reads(*right, 1, rest);
                    let r = term(operand)->Ok_0.0;
                    lemma_tails_alike(r, rest, p.tree());
                } else {
                    lemma_reads(*left, 1, after);
                    lemma_reads(*right, 2, rest);
                    let r = factor(operand)->Ok_0.0;
                    lemma_tails_alike(r, rest, p.tree());
                }
            },
        }
    }
}

/// An expression that the grammar derives, before text that cannot lengthen
/// its last token and does not go on with an operator, parses to the tree of
/// its derivation; the remainder is that text, with or without its leading
/// white space.
pub proof fn lemma_reads_expression(p: Phrase, rest: Seq<char>)
    requires
        p.derived_at(0),
        is_token_end(rest),
        ends_sum(rest),
    ensures
        alike(expr(p.text() + rest), Ok::<_, ErrorView>((rest, p.tree()))),
{
    lemma_reads(p, 0, rest);
    lemma_levels(rest, p.tree());
}

/// A phrase that the grammar derives, before text that cannot lengthen its
/// last token and does not go on with `=`, does not start an assignment.
pub proof fn lemma_phrase_assigns_nothing(p: Phrase, level: nat, rest: Seq<char>)
    requires
        p.derived_at(level),
        is_token_end(rest),
        skip_ws(rest).len() > 0 ==> skip_ws(rest)[0] != '=',
    ensures
        assignment_head(p.text() + rest) is None,
    decreases p,
{
    let s = p.text() + rest;
    match p {
        Phrase::Literal { space, digits } => {
            let token = digits + rest;
            assert(s =~= space + token);
            lemma_skip_space(space, token);
            assert(token[0] == digits[0]);
            lemma_skip_ws(token);
        },
        Phrase::Name { space, name } => {
            lemma_name_phrase(space, name, rest);
            lemma_leading_space(rest);
        },
        Phrase::Group { space, inner, closing_space } => {
            let opening = seq!['('] + inner.text() + closing_space + seq![')'] + rest;
            assert(s =~= space + opening);
            lemma_skip_space(space, opening);
            assert(opening[0] == '(');
            lemma_skip_ws(opening);
        },
        Phrase::Binary { left, space, op, right } => {
            let tail = seq![op] + right.text() + rest;
            let after = space + tail;
            assert(s =~= left.text() + after);
            lemma_skip_space(space, tail);
            assert(tail[0] == op);
            lemma_skip_ws(tail);
            assert(after.len() > 0 && !is_name_char(after[0])) by {
                if space.len() > 0 {
                    assert(after[0] == space[0]);
                } else {
                    assert(after[0] == tail[0]);
                }
            }
            if is_additive(op) {
                lemma_phrase_assigns_nothing(*left, 0, after);
            } else {
                lemma_phrase_assigns_nothing(*left, 1, after);
            }
        },
    }
}

/// A derivation of a statement with its layout: an assignment or an
/// expression, and the white space that ends the line.
pub enum Line {
    /// White space, a name, white space, `=`, an expression, white space.
    Assignment {
        space: Seq<char>,
        name: Seq<char>,
        equals_space: Seq<char>,
        value: Phrase,
        trailing: Seq<char>,
    },
    /// An expression, white space.
    Expression { value: Phrase, trailing: Seq<char> },
}

impl Line {
    /// The text that the derivation spells.
    pub open spec fn text(self) -> Seq<char> {
        match self {
            Line::Assignment { space, name, equals_space, value, trailing } => space + name
                + equals_space + seq!['='] + value.text() + trailing,
            Line::Expression { value, trailing } => value.text() + trailing,
        }
    }

    /// The statement that the derivation means.
    pub open spec fn statement(self) -> StatementView {
        match self {
            Line::Assignment { space, name, equals_space, value, trailing } => {
                StatementView::Assign(name, value.tree())
            },
            Line::Expression { value, trailing } => StatementView::Expr(value.tree()),
        }
    }

    /// The grammar derives the line.
    pub open spec fn derived(self) -> bool {
        match self {
            Line::Assignment { space, name, equals_space, value, trailing } => {
                &&& is_space(space)
                &&& is_name(name)
                &&& is_space(equals_space)
                &&& value.derived_at(0)
                &&& is_space(trailing)
            },
            Line::Expression { value, trailing } => value.derived_at(0) && is_space(trailing),
        }
    }
}

/// The parser reads every line that the grammar derives: it gives the
/// statement that the derivation means, and leaves nothing.
pub proof fn lemma_reads_line(line: Line)
    requires
        line.derived(),
    ensures
        statement(line.text()) == Ok::<_, ErrorView>((Seq::<char>::empty(), line.statement())),
{
    let s = line.text();
    let nothing = Seq::<char>::empty();
    lemma_skip_ws(nothing);
    lemma_leading_space(s);
    match line {
        Line::Assignment { space, name, equals_space, value, trailing } => {
            let source = value.text() + trailing;
            let equals = seq!['='] + source;
            let after = equals_space + equals;
            assert(s =~= space + name + after);
            assert(trailing + nothing =~= trailing);
            lemma_skip_space(trailing, nothing);
            lemma_skip_space(equals_space, equals);
            assert(equals[0] == '=');
            assert(equals.skip(1) =~= source);
            lemma_skip_ws(equals);
            assert(after.len() > 0 && !is_name_char(after[0])) by {
                if equals_space.len() > 0 {
                    assert(after[0] == equals_space[0]);
                } else {
                    assert(after[0] == equals[0]);
                }
            }
            lemma_name_phrase(space, name, after);
            lemma_leading_space(after);
            lemma_leading_space(source);
            lemma_reads_expression(value, trailing);
        },
        Line::Expression { value, trailing } => {
            assert(trailing + nothing =~= trailing);
            lemma_skip_space(trailing, nothing);
            lemma_phrase_assigns_nothing(value, 0, trailing);
            lemma_reads_expression(value, trailing);
        },
    }
}

impl Phrase {
    /// The same derivation with no white space in it.
    pub open spec fn without_space(self) -> Phrase
        decreases self,
    {
        let nothing = Seq::<char>::empty();
        match self {
            Phrase::Literal { space, digits } => Phrase::Literal { space: nothing, digits },
            Phrase::Name { space, name } => Phrase::Name { space: nothing, name },
            Phrase::Group { space, inner, closing_space } => Phrase::Group {
                space: nothing,
                inner: Box::new(inner.without_space()),
                closing_space: nothing,
            },
            Phrase::Binary { left, space, op, right } => Phrase::Binary {
                left: Box::new(left.without_space()),
                space: nothing,
                op,
                right: Box::new(right.without_space()),
            },
        }
    }
}

impl Line {
    /// The same derivation with no white space in it.
    pub open spec fn without_space(self) -> Line {
        let nothing = Seq::<char>::empty();
        match self {
            Line::Assignment { space, name, equals_space, value, trailing } => Line::Assignment {
                space: nothing,
                name,
                equals_space: nothing,
                value: value.without_space(),
                trailing: nothing,
            },
            Line::Expression { value, trailing } => Line::Expression {
                value: value.without_space(),
                trailing: nothing,
            },
        }
    }
}

/// Taking the white space out of a derivation leaves a derivation of the
/// same level with the same tree.
pub proof fn lemma_without_space(p: Phrase, level: nat)
    requires
        p.derived_at(level),
    ensures
        p.without_space().derived_at(level),
        p.without_space().tree() == p.tree(),
    decreases p,
{
    match p {
        Phrase::Literal { space, digits } => {},
        Phrase::Name { space, name } => {},
        Phrase::Group { space, inner, closing_space } => {
            lemma_without_space(*inner, 0);
        },
        Phrase::Binary { left, space, op, right } => {
            if is_additive(op) {
                lemma_without_space(*left, 0);
                lemma_without_space(*right, 1);
            } else {
                lemma_without_space(*left, 1);
                lemma_without_space(*right, 2);
            }
        },
    }
}

/// White space between tokens is immaterial: a line that the grammar
/// derives parses to the same statement, with nothing left, as the line
/// with all its white space taken out.
pub proof fn lemma_space_is_immaterial(line: Line)
    requires
        line.derived(),
    ensures
        statement(line.text()) == statement(line.without_space().text()),
{
    match line {
        Line::Assignment { space, name, equals_space, value, trailing } => {
            lemma_without_space(value, 0);
        },
        Line::Expression { value, trailing } => {
            lemma_without_space(value, 0);
        },
    }
    lemma_reads_line(line);
    lemma_reads_line(line.without_space());
}

/// The grammar is not ambiguous: two derivations that spell the same line
/// mean the same statement.
pub proof fn lemma_one_meaning(a: Line, b: Line)
    requires
        a.derived(),
        b.derived(),
        a.text() == b.text(),
    ensures
        a.statement() == b.statement(),
{
    lemma_reads_line(a);
    lemma_reads_line(b);
}

} // verus!
