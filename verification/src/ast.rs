//! The abstract syntax tree built by the parser, its mathematical model, and
//! the parse errors. An `Expr` owns its children outright: the tree is
//! strict, with no sharing and no cycles.

use vstd::prelude::*;
use crate::lexer::Span;
use crate::lexer::TokenType;

verus! {

/// One expression node. Operator nodes keep the operator's token (kind and
/// span); a literal keeps its token, whose span locates the lexeme so that
/// the value can be re-sliced from the source.
#[derive(Debug, PartialEq, Eq)]
pub enum Expr {
    /// A scalar: integer, float, string, boolean, or the stand-in assignable.
    Literal(TokenType),
    /// A prefix operator applied to one operand.
    Unary(TokenType, Box<Expr>),
    /// An infix operator applied to two operands.
    Binary(TokenType, Box<Expr>, Box<Expr>),
    /// A parenthesized sub-expression.
    Grouping(Box<Expr>),
    /// A callee applied to zero or more arguments.
    Call(Box<Expr>, Vec<Expr>),
    /// A single-step index access: collection and index expression.
    Index(Box<Expr>, Box<Expr>),
}

/// The mathematical model of an `Expr`: the same tree, with the argument
/// list of a call as a `Seq`. Contracts speak of this type.
pub enum SpecExpr {
    Literal(TokenType),
    Unary(TokenType, Box<SpecExpr>),
    Binary(TokenType, Box<SpecExpr>, Box<SpecExpr>),
    Grouping(Box<SpecExpr>),
    Call(Box<SpecExpr>, Seq<SpecExpr>),
    Index(Box<SpecExpr>, Box<SpecExpr>),
}

/// The model of an argument list, element by element.
pub open spec fn view_args(args: Seq<Expr>) -> Seq<SpecExpr>
    decreases args,
{
    if args.len() == 0 {
        Seq::empty()
    } else {
        seq![view_expr(args[0])] + view_args(args.subrange(1, args.len() as int))
    }
}

/// The model of one node, child by child.
pub open spec fn view_expr(e: Expr) -> SpecExpr
    decreases e,
{
    match e {
        Expr::Literal(t) => SpecExpr::Literal(t),
        Expr::Unary(op, operand) => SpecExpr::Unary(op, Box::new(view_expr(*operand))),
        Expr::Binary(op, left, right) => SpecExpr::Binary(
            op,
            Box::new(view_expr(*left)),
            Box::new(view_expr(*right)),
        ),
        Expr::Grouping(inner) => SpecExpr::Grouping(Box::new(view_expr(*inner))),
        Expr::Call(callee, args) => SpecExpr::Call(Box::new(view_expr(*callee)), view_args(args@)),
        Expr::Index(coll, idx) => SpecExpr::Index(
            Box::new(view_expr(*coll)),
            Box::new(view_expr(*idx)),
        ),
    }
}

/// The model of an argument list has one model per argument, in order.
pub proof fn lemma_view_args(args: Seq<Expr>)
    ensures
        view_args(args).len() == args.len(),
        forall|k: int| 0 <= k < args.len() ==> view_args(args)[k] == view_expr(args[k]),
    decreases args,
{
    if args.len() > 0 {
        lemma_view_args(args.subrange(1, args.len() as int));
    }
}

/// Appending an argument appends its model.
pub proof fn lemma_view_args_push(args: Seq<Expr>, e: Expr)
    ensures
        view_args(args.push(e)) =~= view_args(args).push(view_expr(e)),
{
    lemma_view_args(args);
    lemma_view_args(args.push(e));
}

impl View for Expr {
    type V = SpecExpr;

    open spec fn view(&self) -> SpecExpr {
        view_expr(*self)
    }
}

/// Why a parse failed. Every failure carries the place it was noticed.
#[derive(Clone, Copy, Debug, PartialEq, Eq, Structural)]
pub enum ParseError {
    /// A token stood where an expression had to start, and cannot start one.
    UnexpectedToken { found: TokenType },
    /// An opening delimiter was never closed; the span is the opener's.
    UnmatchedDelimiter { opener: Span },
    /// A token was needed past the end of the stream.
    OutOfBounds,
}

} // verus!
