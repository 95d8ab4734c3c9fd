//! Binding powers: a total map from token kind to a precedence level, used by
//! the parser to decide whether to keep consuming infix and postfix operators.

use vstd::prelude::*;
use crate::lexer::Token;

verus! {

/// The ordered precedence levels; a later variant binds tighter. Tokens with
/// no operator meaning sit at `Lowest`.
#[derive(Clone, Copy, Debug, PartialEq, Eq, Structural)]
pub enum Precedence {
    Lowest,
    Assign,
    Or,
    And,
    Equality,
    Comparison,
    Term,
    Factor,
    Unary,
    Call,
    List,
    Primary,
}

impl Precedence {
    /// The numeric rank of this level; comparisons between levels go by it.
    pub open spec fn spec_level(self) -> u8 {
        match self {
            Precedence::Lowest => 0,
            Precedence::Assign => 1,
            Precedence::Or => 2,
            Precedence::And => 3,
            Precedence::Equality => 4,
            Precedence::Comparison => 5,
            Precedence::Term => 6,
            Precedence::Factor => 7,
            Precedence::Unary => 8,
            Precedence::Call => 9,
            Precedence::List => 10,
            Precedence::Primary => 11,
        }
    }

    #[verifier::when_used_as_spec(spec_level)]
    pub fn level(self) -> (r: u8)
        ensures
            r == self.spec_level(),
    {
        match self {
            Precedence::Lowest => 0,
            Precedence::Assign => 1,
            Precedence::Or => 2,
            Precedence::And => 3,
            Precedence::Equality => 4,
            Precedence::Comparison => 5,
            Precedence::Term => 6,
            Precedence::Factor => 7,
            Precedence::Unary => 8,
            Precedence::Call => 9,
            Precedence::List => 10,
            Precedence::Primary => 11,
        }
    }
}

/// The precedence level of each token kind: a pure, total map. Tokens that
/// never act as an operator sit at `Lowest`, which the parser's climbing loop
/// never consumes.
pub open spec fn spec_precedence_of(token: Token) -> Precedence {
    match token {
        Token::Bind => Precedence::Assign,
        Token::Or => Precedence::Or,
        Token::And => Precedence::And,
        Token::BangEqual => Precedence::Equality,
        Token::EqualComparison => Precedence::Equality,
        Token::Less => Precedence::Comparison,
        Token::LessEqual => Precedence::Comparison,
        Token::Greater => Precedence::Comparison,
        Token::GreaterEqual => Precedence::Comparison,
        Token::Plus => Precedence::Term,
        Token::Minus => Precedence::Term,
        Token::Multiply => Precedence::Factor,
        Token::Divide => Precedence::Factor,
        Token::Modulus => Precedence::Factor,
        Token::Bang => Precedence::Unary,
        Token::LeftParen => Precedence::Call,
        Token::Dot => Precedence::Call,
        Token::LeftBracket => Precedence::List,
        _ => Precedence::Lowest,
    }
}

#[verifier::when_used_as_spec(spec_precedence_of)]
pub fn precedence_of(token: Token) -> (r: Precedence)
    ensures
        r == spec_precedence_of(token),
{
    match token {
        Token::Bind => Precedence::Assign,
        Token::Or => Precedence::Or,
        Token::And => Precedence::And,
        Token::BangEqual => Precedence::Equality,
        Token::EqualComparison => Precedence::Equality,
        Token::Less => Precedence::Comparison,
        Token::LessEqual => Precedence::Comparison,
        Token::Greater => Precedence::Comparison,
        Token::GreaterEqual => Precedence::Comparison,
        Token::Plus => Precedence::Term,
        Token::Minus => Precedence::Term,
        Token::Multiply => Precedence::Factor,
        Token::Divide => Precedence::Factor,
        Token::Modulus => Precedence::Factor,
        Token::Bang => Precedence::Unary,
        Token::LeftParen => Precedence::Call,
        Token::Dot => Precedence::Call,
        Token::LeftBracket => Precedence::List,
        _ => Precedence::Lowest,
    }
}

/// The numeric binding power of a token, in one step.
pub open spec fn prec_level_of(token: Token) -> u8 {
    spec_precedence_of(token).spec_level()
}

} // verus!
