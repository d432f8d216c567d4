//! Writing a syntax tree out as text: no white space, and parentheses only
//! where the tree needs them.

use vstd::prelude::*;
use vstd::string::StringExecFns;
use crate::syntax::{Expr, ExprView, Statement, StatementView};

verus! {

/// The digit that stands for `d`.
pub open spec fn digit_char(d: nat) -> char
    recommends
        d < 10,
{
    ('0' as u32 + d) as char
}

/// `n` in decimal digits, without leading zeros.
pub open spec fn decimal(n: nat) -> Seq<char>
    decreases n,
{
    if n < 10 {
        seq![digit_char(n)]
    } else {
        decimal(n / 10).push(digit_char(n % 10))
    }
}

/// An integer in decimal digits, with a minus sign before a negative one.
pub open spec fn number(n: int) -> Seq<char> {
    if n >= 0 {
        decimal(n as nat)
    } else {
        seq!['-'] + decimal((-n) as nat)
    }
}

/// The level of the grammar at which `e` stands without parentheses: 0 for
/// a sum or a difference, 1 for a product or a quotient, 2 for a literal or
/// a variable.
pub open spec fn level_of(e: ExprView) -> nat {
    match e {
        ExprView::Add(_, _) | ExprView::Sub(_, _) => 0,
        ExprView::Mul(_, _) | ExprView::Div(_, _) => 1,
        ExprView::Int(_) | ExprView::Var(_) => 2,
    }
}

/// `e` written out as an operand of the given level (0 an expression, 1 a
/// term, 2 a factor), without white space: in parentheses where its own
/// level is lower, and with parentheses nowhere else.
pub open spec fn render_at(e: ExprView, level: nat) -> Seq<char>
    decreases e,
{
    let text = match e {
        ExprView::Int(n) => number(n as int),
        ExprView::Var(name) => name,
        ExprView::Add(l, r) => render_at(*l, 0) + seq!['+'] + render_at(*r, 1),
        ExprView::Sub(l, r) => render_at(*l, 0) + seq!['-'] + render_at(*r, 1),
        ExprView::Mul(l, r) => render_at(*l, 1) + seq!['*'] + render_at(*r, 2),
        ExprView::Div(l, r) => render_at(*l, 1) + seq!['/'] + render_at(*r, 2),
    };
    if level > level_of(e) {
        seq!['('] + text + seq![')']
    } else {
        text
    }
}

/// `e` written out.
pub open spec fn render(e: ExprView) -> Seq<char> {
    render_at(e, 0)
}

/// `st` written out.
pub open spec fn render_statement(st: StatementView) -> Seq<char> {
    match st {
        StatementView::Assign(name, value) => name + seq!['='] + render(value),
        StatementView::Expr(e) => render(e),
    }
}

/// The digit that stands for `d`, as text.
fn digit_text(d: u32) -> (text: &'static str)
    requires
        d < 10,
    ensures
        text@ == seq![digit_char(d as nat)],
{
    proof {
        reveal_strlit("0");
        reveal_strlit("1");
        reveal_strlit("2");
        reveal_strlit("3");
        reveal_strlit("4");
        reveal_strlit("5");
        reveal_strlit("6");
        reveal_strlit("7");
        reveal_strlit("8");
        reveal_strlit("9");
    }
    let text = if d == 0 {
        "0"
    } else if d == 1 {
        "1"
    } else if d == 2 {
        "2"
    } else if d == 3 {
        "3"
    } else if d == 4 {
        "4"
    } else if d == 5 {
        "5"
    } else if d == 6 {
        "6"
    } else if d == 7 {
        "7"
    } else if d == 8 {
        "8"
    } else {
        "9"
    };
    assert(text@ =~= seq![digit_char(d as nat)]);
    text
}

/// Appends `n` in decimal digits to `out`.
fn write_decimal(n: u32, out: &mut String)
    ensures
        final(out)@ == old(out)@ + decimal(n as nat),
    decreases n,
{
    if n >= 10 {
        write_decimal(n / 10, out);
    }
    out.append(digit_text(n % 10));
    assert(final(out)@ =~= old(out)@ + decimal(n as nat));
}

/// Appends `e`, written out as an operand of the given level, to `out`.
fn write_expr(e: &Expr, level: u8, out: &mut String)
    ensures
        final(out)@ == old(out)@ + render_at(e@, level as nat),
    decreases e,
{
    proof {
        reveal_strlit("(");
        reveal_strlit(")");
        reveal_strlit("+");
        reveal_strlit("-");
        reveal_strlit("*");
        reveal_strlit("/");
    }
    let own: u8 = match e {
        Expr::Add(_, _) | Expr::Sub(_, _) => 0,
        Expr::Mul(_, _) | Expr::Div(_, _) => 1,
        Expr::Int(_) | Expr::Var(_) => 2,
    };
    if level > own {
        out.append("(");
    }
    let ghost before = out@;
    match e {
        Expr::Int(n) => {
            if *n >= 0 {
                write_decimal(*n as u32, out);
            } else {
                out.append("-");
                write_decimal((-(*n as i64)) as u32, out);
            }
        },
        Expr::Var(name) => {
            out.append(name.as_str());
        },
        Expr::Add(l, r) => {
            write_expr(l, 0, out);
            out.append("+");
            write_expr(r, 1, out);
        },
        Expr::Sub(l, r) => {
            write_expr(l, 0, out);
            out.append("-");
            write_expr(r, 1, out);
        },
        Expr::Mul(l, r) => {
            write_expr(l, 1, out);
            out.append("*");
            write_expr(r, 2, out);
        },
        Expr::Div(l, r) => {
            write_expr(l, 1, out);
            out.append("/");
            write_expr(r, 2, out);
        },
    }
    assert(out@ =~= before + render_at(e@, own as nat));
    if level > own {
        out.append(")");
    }
    assert(final(out)@ =~= old(out)@ + render_at(e@, level as nat));
}

impl Expr {
    /// Writes the expression out: no white space, and parentheses only
    /// where the tree needs them. The text of a well-formed tree parses
    /// back to the tree.
    pub fn render(&self) -> (text: String)
        ensures
            text@ == render(self@),
    {
        let mut out = String::new();
        write_expr(self, 0, &mut out);
        assert(out@ =~= render(self@));
        out
    }
}

impl Statement {
    /// Writes the statement out: an assignment as the name, `=` and the
    /// value, an expression as itself.
    pub fn render(&self) -> (text: String)
        ensures
            text@ == render_statement(self@),
    {
        let mut out = String::new();
        match self {
            Statement::Assign(name, value) => {
                proof {
                    reveal_strlit("=");
                }
                out.append(name.as_str());
                out.append("=");
                write_expr(value, 0, &mut out);
            },
            Statement::Expr(e) => {
                write_expr(e, 0, &mut out);
            },
        }
        assert(out@ =~= render_statement(self@));
        out
    }
}

} // verus!
