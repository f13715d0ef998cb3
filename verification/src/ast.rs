//! The tree that the parser builds and the evaluator walks.
use crate::symbol::{Symbol, SymbolView};
use vstd::prelude::*;

verus! {

/// What ended a run of statements.
#[derive(Debug, Clone, Copy, PartialEq, Eq, Structural)]
pub enum EndMarker {
    Endfor,
    Endif,
    Else,
    EndOfFile,
}

/// An expression.
#[derive(Debug, PartialEq)]
pub enum Expr {
    /// A value as it is.
    Litteral(Symbol),
    /// The variable of that name.
    Identifier(String),
    /// A string literal: what stands between its quotes, escape sequences
    /// not yet replaced.
    Quoted(String),
    /// The text of a value, read when the expression is evaluated.
    Raw(String),
    /// The texts of the parts, joined in order.
    Concat(Vec<Expr>),
    /// The negation of a condition.
    Not(Box<Expr>),
    /// True where every operand is.
    And(Vec<Expr>),
    /// True where one operand is.
    Or(Vec<Expr>),
}

/// A statement.
#[derive(Debug, PartialEq)]
pub enum Statement {
    /// Gives the global variable of that name the value of the expression.
    Assignment(String, Expr),
    /// Runs the first body where the condition holds, else the second.
    IfStatement(Expr, Vec<Statement>, Vec<Statement>),
    /// Runs the body once for each item of the list, the variable of that
    /// name bound to the item.
    ForLoop(String, Expr, Vec<Statement>),
    /// Writes the text of the expression, and a line break after it where
    /// the flag is set.
    PrintStatement(Expr, bool),
    /// Does nothing.
    Skip,
    /// Marks the end of a run of statements while parsing; a finished tree
    /// holds none.
    End(EndMarker),
}

/// `Expr` as a mathematical value.
pub enum ExprView {
    Litteral(SymbolView),
    Identifier(Seq<char>),
    Quoted(Seq<char>),
    Raw(Seq<char>),
    Concat(Seq<ExprView>),
    Not(Box<ExprView>),
    And(Seq<ExprView>),
    Or(Seq<ExprView>),
}

/// `Statement` as a mathematical value.
pub enum StatementView {
    Assignment(Seq<char>, ExprView),
    IfStatement(ExprView, Seq<StatementView>, Seq<StatementView>),
    ForLoop(Seq<char>, ExprView, Seq<StatementView>),
    PrintStatement(ExprView, bool),
    Skip,
    End(EndMarker),
}

/// `e` as a mathematical value.
pub open spec fn expr_view(e: Expr) -> ExprView
    decreases e,
{
    match e {
        Expr::Litteral(v) => ExprView::Litteral(v@),
        Expr::Identifier(name) => ExprView::Identifier(name@),
        Expr::Quoted(raw) => ExprView::Quoted(raw@),
        Expr::Raw(text) => ExprView::Raw(text@),
        Expr::Concat(parts) => ExprView::Concat(expr_views(parts@)),
        Expr::Not(inner) => ExprView::Not(Box::new(expr_view(*inner))),
        Expr::And(operands) => ExprView::And(expr_views(operands@)),
        Expr::Or(operands) => ExprView::Or(expr_views(operands@)),
    }
}

/// The expressions of `items` as mathematical values.
pub open spec fn expr_views(items: Seq<Expr>) -> Seq<ExprView>
    decreases items,
{
    if items.len() == 0 {
        Seq::empty()
    } else {
        expr_views(items.drop_last()).push(expr_view(items.last()))
    }
}

impl View for Expr {
    type V = ExprView;

    open spec fn view(&self) -> ExprView {
        expr_view(*self)
    }
}

/// `s` as a mathematical value.
pub open spec fn statement_view(s: Statement) -> StatementView
    decreases s,
{
    match s {
        Statement::Assignment(name, value) => StatementView::Assignment(name@, value@),
        Statement::IfStatement(condition, then_body, else_body) => StatementView::IfStatement(
            condition@,
            statement_views(then_body@),
            statement_views(else_body@),
        ),
        Statement::ForLoop(variable, iterable, body) => StatementView::ForLoop(
            variable@,
            iterable@,
            statement_views(body@),
        ),
        Statement::PrintStatement(value, newline) => StatementView::PrintStatement(value@, newline),
        Statement::Skip => StatementView::Skip,
        Statement::End(marker) => StatementView::End(marker),
    }
}

/// The statements of `items` as mathematical values.
pub open spec fn statement_views(items: Seq<Statement>) -> Seq<StatementView>
    decreases items,
{
    if items.len() == 0 {
        Seq::empty()
    } else {
        statement_views(items.drop_last()).push(statement_view(items.last()))
    }
}

impl View for Statement {
    type V = StatementView;

    open spec fn view(&self) -> StatementView {
        statement_view(*self)
    }
}

/// `expr_views` keeps the length and views item by item.
pub proof fn lemma_expr_views(items: Seq<Expr>)
    ensures
        expr_views(items).len() == items.len(),
        forall|i: int| 0 <= i < items.len() ==> (#[trigger] expr_views(items)[i]) == items[i]@,
    decreases items.len(),
{
    if items.len() > 0 {
        lemma_expr_views(items.drop_last());
    }
}

/// `statement_views` keeps the length and views item by item.
pub proof fn lemma_statement_views(items: Seq<Statement>)
    ensures
        statement_views(items).len() == items.len(),
        forall|i: int|
            0 <= i < items.len() ==> (#[trigger] statement_views(items)[i]) == items[i]@,
    decreases items.len(),
{
    if items.len() > 0 {
        lemma_statement_views(items.drop_last());
    }
}

/// Appending an expression appends its view.
pub proof fn lemma_expr_views_push(items: Seq<Expr>, last: Expr)
    ensures
        expr_views(items.push(last)) == expr_views(items).push(last@),
{
    assert(items.push(last).drop_last() =~= items);
}

/// Appending a statement appends its view.
pub proof fn lemma_statement_views_push(items: Seq<Statement>, last: Statement)
    ensures
        statement_views(items.push(last)) == statement_views(items).push(last@),
{
    assert(items.push(last).drop_last() =~= items);
}

} // verus!
