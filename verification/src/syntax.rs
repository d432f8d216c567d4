//! The syntax trees that parsing produces, the errors it reports, and the
//! mathematical values that contracts state them by.

use vstd::prelude::*;
use crate::chars::{is_name_char, is_name_start};

verus! {

/// `name` is spelled as a name is: a letter or an underscore first, and
/// letters, digits and underscores after it.
pub open spec fn is_name(name: Seq<char>) -> bool {
    &&& name.len() > 0
    &&& is_name_start(name[0])
    &&& forall|i: int| 0 <= i < name.len() ==> is_name_char(#[trigger] name[i])
}

/// Why a parse stopped.
#[derive(Debug, Clone, Copy, PartialEq, Eq)]
pub enum ParseError<'a> {
    /// The input ended where a character was needed.
    Empty,
    /// The next character is not one that may stand there.
    InvalidChar(char),
    /// A token was read whole and then found wanting: the text is the token.
    InvalidSequence(&'a str),
}

/// A `ParseError` as a value: the text it borrows becomes a sequence.
pub enum ErrorView {
    Empty,
    InvalidChar(char),
    InvalidSequence(Seq<char>),
}

impl<'a> View for ParseError<'a> {
    type V = ErrorView;

    open spec fn view(&self) -> ErrorView {
        match *self {
            ParseError::Empty => ErrorView::Empty,
            ParseError::InvalidChar(c) => ErrorView::InvalidChar(c),
            ParseError::InvalidSequence(s) => ErrorView::InvalidSequence(s@),
        }
    }
}

/// An arithmetic expression. Parentheses leave no trace in it.
#[derive(Debug, PartialEq, Eq)]
pub enum Expr {
    Int(i32),
    Add(Box<Expr>, Box<Expr>),
    Sub(Box<Expr>, Box<Expr>),
    Mul(Box<Expr>, Box<Expr>),
    Div(Box<Expr>, Box<Expr>),
    Var(String),
}

/// An `Expr` as a value: a name becomes a sequence of characters.
pub enum ExprView {
    Int(i32),
    Add(Box<ExprView>, Box<ExprView>),
    Sub(Box<ExprView>, Box<ExprView>),
    Mul(Box<ExprView>, Box<ExprView>),
    Div(Box<ExprView>, Box<ExprView>),
    Var(Seq<char>),
}

impl ExprView {
    /// The tree is one that the grammar can write: no literal is negative,
    /// and every variable is spelled as a name is.
    pub open spec fn well_formed(self) -> bool
        decreases self,
    {
        match self {
            ExprView::Int(n) => n >= 0,
            ExprView::Add(l, r) => l.well_formed() && r.well_formed(),
            ExprView::Sub(l, r) => l.well_formed() && r.well_formed(),
            ExprView::Mul(l, r) => l.well_formed() && r.well_formed(),
            ExprView::Div(l, r) => l.well_formed() && r.well_formed(),
            ExprView::Var(name) => is_name(name),
        }
    }
}

impl Expr {
    /// The tree as a value, node by node.
    pub open spec fn tree(&self) -> ExprView
        decreases self,
    {
        match self {
            Expr::Int(n) => ExprView::Int(*n),
            Expr::Add(l, r) => ExprView::Add(Box::new(l.tree()), Box::new(r.tree())),
            Expr::Sub(l, r) => ExprView::Sub(Box::new(l.tree()), Box::new(r.tree())),
            Expr::Mul(l, r) => ExprView::Mul(Box::new(l.tree()), Box::new(r.tree())),
            Expr::Div(l, r) => ExprView::Div(Box::new(l.tree()), Box::new(r.tree())),
            Expr::Var(name) => ExprView::Var(name@),
        }
    }
}

impl View for Expr {
    type V = ExprView;

    open spec fn view(&self) -> ExprView {
        self.tree()
    }
}

/// One line of input: an assignment to a variable, or an expression alone.
#[derive(Debug, PartialEq, Eq)]
pub enum Statement {
    Assign(String, Expr),
    Expr(Expr),
}

/// A `Statement` as a value.
pub enum StatementView {
    Assign(Seq<char>, ExprView),
    Expr(ExprView),
}

impl StatementView {
    /// The statement is one that the grammar can write.
    pub open spec fn well_formed(self) -> bool {
        match self {
            StatementView::Assign(name, value) => is_name(name) && value.well_formed(),
            StatementView::Expr(e) => e.well_formed(),
        }
    }
}

impl View for Statement {
    type V = StatementView;

    open spec fn view(&self) -> StatementView {
        match self {
            Statement::Assign(name, value) => StatementView::Assign(name@, value@),
            Statement::Expr(e) => StatementView::Expr(e@),
        }
    }
}

} // verus!
