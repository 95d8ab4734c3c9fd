//! Token stream cursor and the Pratt (precedence-climbing) expression
//! parser. The cursor walks an immutable token vector and only ever moves
//! forward; the parser builds one `Expr` per call, respecting operator
//! precedence and associativity, and reports structured errors.

use vstd::prelude::*;
use crate::ast::Expr;
use crate::ast::ParseError;
use crate::ast::SpecExpr;
use crate::ast::lemma_view_args_push;
use crate::ast::view_args;
use crate::lexer::Span;
use crate::lexer::Token;
use crate::lexer::TokenType;
use crate::lexer::lex;
use crate::lexer::tokenize;
use crate::precedence::Precedence;
use crate::precedence::precedence_of;
use crate::precedence::prec_level_of;

verus! {

/// A position-tracked view over a token vector: lookahead, consumption, no
/// backtracking.
pub struct Parser {
    pub tokens: Vec<TokenType>,
    current: usize,
}

impl Parser {
    /// The token stream under the cursor.
    pub closed spec fn toks(&self) -> Seq<TokenType> {
        self.tokens@
    }

    /// The cursor position.
    pub closed spec fn pos(&self) -> int {
        self.current as int
    }

    /// The cursor never leaves `[0, len]`.
    pub open spec fn wf(&self) -> bool {
        0 <= self.pos() <= self.toks().len()
    }

    pub fn new(tokens: &Vec<TokenType>) -> (r: Self)
        ensures
            r.toks() == tokens@,
            r.pos() == 0,
            r.wf(),
    {
        Self { tokens: tokens.clone(), current: 0 }
    }

    /// The current position, for inspection.
    pub fn cursor(&self) -> (r: usize)
        ensures
            r == self.pos(),
    {
        self.current
    }

    pub fn is_at_end(&self) -> (r: bool)
        ensures
            r == (self.pos() >= self.toks().len()),
    {
        self.current >= self.tokens.len()
    }

    /// Consumes one token and returns it; at the end of the stream the
    /// cursor stays put and the last token is returned again. The position
    /// never decreases.
    pub fn advance(&mut self) -> (r: TokenType)
        requires
            old(self).wf(),
            old(self).pos() < old(self).toks().len() || old(self).pos() > 0,
        ensures
            final(self).toks() == old(self).toks(),
            final(self).wf(),
            final(self).pos() == if old(self).pos() < old(self).toks().len() {
                old(self).pos() + 1
            } else {
                old(self).pos()
            },
            final(self).pos() >= old(self).pos(),
            r == old(self).toks()[final(self).pos() - 1],
    {
        if self.current < self.tokens.len() {
            self.current = self.current + 1;
        }
        self.previous()
    }

    /// The token just before the cursor.
    pub fn previous(&self) -> (r: TokenType)
        requires
            self.wf(),
            0 < self.pos(),
        ensures
            r == self.toks()[self.pos() - 1],
    {
        self.tokens[self.current - 1]
    }

    /// The token at the cursor, without advancing.
    pub fn peek(&self) -> (r: TokenType)
        requires
            self.pos() < self.toks().len(),
        ensures
            r == self.toks()[self.pos()],
    {
        self.tokens[self.current]
    }

    /// The token one past the cursor, without advancing.
    pub fn peek_next(&self) -> (r: TokenType)
        requires
            self.pos() + 1 < self.toks().len(),
        ensures
            r == self.toks()[self.pos() + 1],
    {
        // Binding the length first teaches the prover that it fits in usize,
        // so the index below cannot overflow.
        let n = self.tokens.len();
        self.tokens[self.current + 1]
    }

    /// Whether the current token has the given kind; never consumes.
    pub fn check(&self, kind: Token) -> (r: bool)
        requires
            self.wf(),
        ensures
            r == (self.pos() < self.toks().len() && self.toks()[self.pos()].tokentype == kind),
    {
        if self.is_at_end() {
            return false;
        }
        self.peek().tokentype == kind
    }

    /// Consumes the current token iff it has the given kind. The position
    /// never decreases.
    pub fn match_token(&mut self, kind: Token) -> (r: bool)
        requires
            old(self).wf(),
        ensures
            final(self).toks() == old(self).toks(),
            final(self).wf(),
            r == (old(self).pos() < old(self).toks().len() && old(self).toks()[old(
                self,
            ).pos()].tokentype == kind),
            final(self).pos() == if r {
                old(self).pos() + 1
            } else {
                old(self).pos()
            },
            final(self).pos() >= old(self).pos(),
    {
        if self.check(kind) {
            self.advance();
            return true;
        }
        false
    }
}

/// Tokens that may start a prefix expression as a leaf.
pub open spec fn is_literal_token(t: Token) -> bool {
    t == Token::Integer || t == Token::Float || t == Token::StringLit || t == Token::True || t
        == Token::False || t == Token::Identifier
}

/// Tokens the climbing loop consumes as an infix (binary) operator.
pub open spec fn is_infix_token(t: Token) -> bool {
    t == Token::Bind || t == Token::Or || t == Token::And || t == Token::BangEqual || t
        == Token::EqualComparison || t == Token::Less || t == Token::LessEqual || t
        == Token::Greater || t == Token::GreaterEqual || t == Token::Plus || t == Token::Minus || t
        == Token::Multiply || t == Token::Divide || t == Token::Modulus || t == Token::Dot
}

/// The position scanning resumes at after a sub-parse that began at `pos`
/// reported `next`. A successful sub-parse always lands in
/// `pos < next <= toks.len()` (the progress lemmas below), so this is `next`
/// wherever it matters; clamping it makes the recursion visibly bounded.
pub open spec fn step_to(toks: Seq<TokenType>, pos: int, next: int) -> int {
    if pos + 1 <= next && next <= toks.len() {
        next
    } else if pos + 1 <= toks.len() {
        pos + 1
    } else {
        toks.len() as int
    }
}

/// One prefix expression starting at `pos`: a literal leaf, a unary `!` or
/// `-` with its operand at unary precedence, or a parenthesized grouping.
pub open spec fn spec_parse_prefix(toks: Seq<TokenType>, pos: int) -> Result<
    (SpecExpr, int),
    ParseError,
>
    decreases toks.len() - pos, 0int,
{
    if !(0 <= pos < toks.len()) {
        Err(ParseError::OutOfBounds)
    } else {
        let t = toks[pos];
        if is_literal_token(t.tokentype) {
            Ok((SpecExpr::Literal(t), pos + 1))
        } else if t.tokentype == Token::Bang || t.tokentype == Token::Minus {
            match spec_parse_expr(toks, pos + 1, Precedence::Unary.spec_level()) {
                Ok(r) => Ok((SpecExpr::Unary(t, Box::new(r.0)), r.1)),
                Err(e) => Err(e),
            }
        } else if t.tokentype == Token::LeftParen {
            match spec_parse_expr(toks, pos + 1, Precedence::Lowest.spec_level()) {
                Ok(r) => if 0 <= r.1 < toks.len() && toks[r.1].tokentype == Token::RightParen {
                    Ok((SpecExpr::Grouping(Box::new(r.0)), r.1 + 1))
                } else {
                    Err(ParseError::UnmatchedDelimiter { opener: t.span })
                },
                Err(e) => Err(e),
            }
        } else {
            Err(ParseError::UnexpectedToken { found: t })
        }
    }
}

/// One full expression starting at `pos`, consuming every operator that
/// binds tighter than `min`: a prefix expression, then the climbing loop.
pub open spec fn spec_parse_expr(toks: Seq<TokenType>, pos: int, min: u8) -> Result<
    (SpecExpr, int),
    ParseError,
>
    decreases toks.len() - pos, 1int,
{
    if !(0 <= pos < toks.len()) {
        Err(ParseError::OutOfBounds)
    } else {
        match spec_parse_prefix(toks, pos) {
            Ok(r) => spec_parse_infix(toks, step_to(toks, pos, r.1), min, r.0),
            Err(e) => Err(e),
        }
    }
}

/// The comma-separated argument list of a call, the opener's `(` already
/// consumed; ends by consuming the closing `)`.
pub open spec fn spec_parse_args(
    toks: Seq<TokenType>,
    pos: int,
    opener: Span,
    acc: Seq<SpecExpr>,
) -> Result<(Seq<SpecExpr>, int), ParseError>
    decreases toks.len() - pos, 2int,
{
    if !(0 <= pos < toks.len()) {
        Err(ParseError::UnmatchedDelimiter { opener })
    } else {
        match spec_parse_expr(toks, pos, Precedence::Lowest.spec_level()) {
            Ok(r) => if 0 <= r.1 < toks.len() && toks[r.1].tokentype == Token::Comma {
                spec_parse_args(toks, step_to(toks, pos, r.1 + 1), opener, acc.push(r.0))
            } else if 0 <= r.1 < toks.len() && toks[r.1].tokentype == Token::RightParen {
                Ok((acc.push(r.0), r.1 + 1))
            } else {
                Err(ParseError::UnmatchedDelimiter { opener })
            },
            Err(e) => Err(e),
        }
    }
}

/// The climbing loop: with `lhs` parsed, keep consuming infix operators,
/// call parentheses and index brackets whose precedence exceeds `min`,
/// folding each into a new left-hand side. Right-associative assignment
/// parses its right side one level below its own precedence; every other
/// operator parses it at exactly its own, which with the strict `>` test
/// makes them left-associative.
pub open spec fn spec_parse_infix(toks: Seq<TokenType>, pos: int, min: u8, lhs: SpecExpr) -> Result<
    (SpecExpr, int),
    ParseError,
>
    decreases toks.len() - pos, 3int,
{
    if !(0 <= pos < toks.len()) {
        Ok((lhs, pos))
    } else {
        let t = toks[pos];
        let p = prec_level_of(t.tokentype);
        if !(p > min) {
            Ok((lhs, pos))
        } else if is_infix_token(t.tokentype) {
            let submin = if t.tokentype == Token::Bind {
                (p - 1) as u8
            } else {
                p
            };
            match spec_parse_expr(toks, pos + 1, submin) {
                Ok(r) => spec_parse_infix(
                    toks,
                    step_to(toks, pos, r.1),
                    min,
                    SpecExpr::Binary(t, Box::new(lhs), Box::new(r.0)),
                ),
                Err(e) => Err(e),
            }
        } else if t.tokentype == Token::LeftParen {
            if pos + 1 < toks.len() && toks[pos + 1].tokentype == Token::RightParen {
                spec_parse_infix(
                    toks,
                    step_to(toks, pos, pos + 2),
                    min,
                    SpecExpr::Call(Box::new(lhs), Seq::empty()),
                )
            } else {
                match spec_parse_args(toks, pos + 1, t.span, Seq::empty()) {
                    Ok(r) => spec_parse_infix(
                        toks,
                        step_to(toks, pos, r.1),
                        min,
                        SpecExpr::Call(Box::new(lhs), r.0),
                    ),
                    Err(e) => Err(e),
                }
            }
        } else if t.tokentype == Token::LeftBracket {
            match spec_parse_expr(toks, pos + 1, Precedence::Lowest.spec_level()) {
                Ok(r) => if 0 <= r.1 < toks.len() && toks[r.1].tokentype == Token::RightBracket {
                    spec_parse_infix(
                        toks,
                        step_to(toks, pos, r.1 + 1),
                        min,
                        SpecExpr::Index(Box::new(lhs), Box::new(r.0)),
                    )
                } else {
                    Err(ParseError::UnmatchedDelimiter { opener: t.span })
                },
                Err(e) => Err(e),
            }
        } else {
            Ok((lhs, pos))
        }
    }
}

/// Whether the climbing loop consumes this token as a binary operator.
fn infix_token(t: Token) -> (r: bool)
    ensures
        r == is_infix_token(t),
{
    match t {
        Token::Bind | Token::Or | Token::And | Token::BangEqual | Token::EqualComparison
            | Token::Less | Token::LessEqual | Token::Greater | Token::GreaterEqual | Token::Plus
            | Token::Minus | Token::Multiply | Token::Divide | Token::Modulus | Token::Dot => true,
        _ => false,
    }
}

impl Parser {
    /// Parses one prefix expression: a literal leaf, a unary `!` or `-`, or
    /// a parenthesized grouping.
    fn parse_prefix_expr(&mut self) -> (r: Result<Expr, ParseError>)
        requires
            old(self).wf(),
        ensures
            final(self).toks() == old(self).toks(),
            final(self).wf(),
            final(self).pos() >= old(self).pos(),
            match r {
                Ok(e) => spec_parse_prefix(old(self).toks(), old(self).pos()) == Ok::<
                    (SpecExpr, int),
                    ParseError,
                >((e@, final(self).pos())),
                Err(er) => spec_parse_prefix(old(self).toks(), old(self).pos()) == Err::<
                    (SpecExpr, int),
                    ParseError,
                >(er),
            },
        decreases old(self).toks().len() - old(self).pos(), 0int,
    {
        if self.is_at_end() {
            return Err(ParseError::OutOfBounds);
        }
        let t = self.peek();
        match t.tokentype {
            Token::Integer | Token::Float | Token::StringLit | Token::True | Token::False
                | Token::Identifier => {
                self.advance();
                Ok(Expr::Literal(t))
            },
            Token::Bang | Token::Minus => {
                self.advance();
                match self.parse_expression(Precedence::Unary) {
                    Ok(operand) => Ok(Expr::Unary(t, Box::new(operand))),
                    Err(e) => Err(e),
                }
            },
            Token::LeftParen => {
                self.advance();
                match self.parse_expression(Precedence::Lowest) {
                    Ok(inner) => {
                        if self.check(Token::RightParen) {
                            self.advance();
                            Ok(Expr::Grouping(Box::new(inner)))
                        } else {
                            Err(ParseError::UnmatchedDelimiter { opener: t.span })
                        }
                    },
                    Err(e) => Err(e),
                }
            },
            _ => Err(ParseError::UnexpectedToken { found: t }),
        }
    }

    /// Parses one expression, consuming every operator that binds tighter
    /// than `min`: the Pratt climbing loop around a prefix expression. The
    /// cursor only ever moves forward.
    pub fn parse_expression(&mut self, min: Precedence) -> (r: Result<Expr, ParseError>)
        requires
            old(self).wf(),
        ensures
            final(self).toks() == old(self).toks(),
            final(self).wf(),
            final(self).pos() >= old(self).pos(),
            match r {
                Ok(e) => spec_parse_expr(old(self).toks(), old(self).pos(), min.spec_level())
                    == Ok::<(SpecExpr, int), ParseError>((e@, final(self).pos())),
                Err(er) => spec_parse_expr(old(self).toks(), old(self).pos(), min.spec_level())
                    == Err::<(SpecExpr, int), ParseError>(er),
            },
        decreases old(self).toks().len() - old(self).pos(), 1int,
    {
        let ghost toks = self.toks();
        let ghost pos0 = self.pos();
        if self.is_at_end() {
            return Err(ParseError::OutOfBounds);
        }
        let mut lhs = match self.parse_prefix_expr() {
            Ok(e) => e,
            Err(e) => return Err(e),
        };
        proof {
            lemma_parse_prefix_progress(toks, pos0);
        }
        loop
            invariant
                toks == old(self).toks(),
                pos0 == old(self).pos(),
                self.wf(),
                self.toks() == toks,
                pos0 < self.pos() <= toks.len(),
                spec_parse_expr(toks, pos0, min.spec_level()) == spec_parse_infix(
                    toks,
                    self.pos(),
                    min.spec_level(),
                    lhs@,
                ),
            decreases toks.len() - self.pos(),
        {
            if self.is_at_end() {
                return Ok(lhs);
            }
            let ghost cur = self.pos();
            let t = self.peek();
            let p = precedence_of(t.tokentype).level();
            if p <= min.level() {
                return Ok(lhs);
            }
            if infix_token(t.tokentype) {
                self.advance();
                let sub = if t.tokentype == Token::Bind {
                    Precedence::Lowest
                } else {
                    precedence_of(t.tokentype)
                };
                let rhs = match self.parse_expression(sub) {
                    Ok(e) => e,
                    Err(e) => return Err(e),
                };
                proof {
                    lemma_parse_expr_progress(toks, cur + 1, sub.spec_level());
                }
                lhs = Expr::Binary(t, Box::new(lhs), Box::new(rhs));
            } else if t.tokentype == Token::LeftParen {
                self.advance();
                let no_args: Vec<Expr> = Vec::new();
                proof {
                    assert(view_args(no_args@) =~= Seq::<SpecExpr>::empty());
                }
                if self.check(Token::RightParen) {
                    self.advance();
                    lhs = Expr::Call(Box::new(lhs), no_args);
                } else {
                    let args = match self.parse_call_args(t.span, no_args) {
                        Ok(v) => v,
                        Err(e) => return Err(e),
                    };
                    proof {
                        lemma_parse_args_progress(toks, cur + 1, t.span, Seq::<SpecExpr>::empty());
                    }
                    lhs = Expr::Call(Box::new(lhs), args);
                }
            } else if t.tokentype == Token::LeftBracket {
                self.advance();
                let inner = match self.parse_expression(Precedence::Lowest) {
                    Ok(e) => e,
                    Err(e) => return Err(e),
                };
                proof {
                    lemma_parse_expr_progress(toks, cur + 1, Precedence::Lowest.spec_level());
                }
                if self.check(Token::RightBracket) {
                    self.advance();
                    lhs = Expr::Index(Box::new(lhs), Box::new(inner));
                } else {
                    return Err(ParseError::UnmatchedDelimiter { opener: t.span });
                }
            } else {
                return Ok(lhs);
            }
        }
    }

    /// Parses the comma-separated arguments of a call, the opening `(`
    /// already consumed, through the closing `)`; parsed arguments are
    /// appended to `args`.
    fn parse_call_args(&mut self, opener: Span, args: Vec<Expr>) -> (r: Result<
        Vec<Expr>,
        ParseError,
    >)
        requires
            old(self).wf(),
        ensures
            final(self).toks() == old(self).toks(),
            final(self).wf(),
            final(self).pos() >= old(self).pos(),
            match r {
                Ok(v) => spec_parse_args(
                    old(self).toks(),
                    old(self).pos(),
                    opener,
                    view_args(args@),
                ) == Ok::<(Seq<SpecExpr>, int), ParseError>((view_args(v@), final(self).pos())),
                Err(er) => spec_parse_args(
                    old(self).toks(),
                    old(self).pos(),
                    opener,
                    view_args(args@),
                ) == Err::<(Seq<SpecExpr>, int), ParseError>(er),
            },
        decreases old(self).toks().len() - old(self).pos(), 2int,
    {
        let ghost toks = self.toks();
        let ghost pos0 = self.pos();
        if self.is_at_end() {
            return Err(ParseError::UnmatchedDelimiter { opener });
        }
        let mut args = args;
        let arg = match self.parse_expression(Precedence::Lowest) {
            Ok(e) => e,
            Err(e) => return Err(e),
        };
        proof {
            lemma_parse_expr_progress(toks, pos0, Precedence::Lowest.spec_level());
            lemma_view_args_push(args@, arg);
        }
        args.push(arg);
        if self.match_token(Token::Comma) {
            self.parse_call_args(opener, args)
        } else if self.check(Token::RightParen) {
            self.advance();
            Ok(args)
        } else {
            Err(ParseError::UnmatchedDelimiter { opener })
        }
    }

    /// Parses one full expression at the lowest precedence: the top-level
    /// entry point, admitting any operator.
    pub fn parse(&mut self) -> (r: Result<Expr, ParseError>)
        requires
            old(self).wf(),
        ensures
            final(self).toks() == old(self).toks(),
            final(self).wf(),
            final(self).pos() >= old(self).pos(),
            match r {
                Ok(e) => spec_parse_expr(
                    old(self).toks(),
                    old(self).pos(),
                    Precedence::Lowest.spec_level(),
                ) == Ok::<(SpecExpr, int), ParseError>((e@, final(self).pos())),
                Err(er) => spec_parse_expr(
                    old(self).toks(),
                    old(self).pos(),
                    Precedence::Lowest.spec_level(),
                ) == Err::<(SpecExpr, int), ParseError>(er),
            },
    {
        self.parse_expression(Precedence::Lowest)
    }
}

/// What parsing a whole source buffer yields: its token stream, parsed from
/// the start at the lowest precedence.
pub open spec fn spec_parse_source(s: Seq<u8>) -> Result<SpecExpr, ParseError> {
    match spec_parse_expr(lex(s), 0, Precedence::Lowest.spec_level()) {
        Ok(r) => Ok(r.0),
        Err(e) => Err(e),
    }
}

/// Lexes one source buffer and parses one expression from the front of its
/// token stream: the whole front end in one call.
pub fn parse_source(source: &[u8]) -> (r: Result<Expr, ParseError>)
    ensures
        match r {
            Ok(e) => spec_parse_source(source@) == Ok::<SpecExpr, ParseError>(e@),
            Err(er) => spec_parse_source(source@) == Err::<SpecExpr, ParseError>(er),
        },
{
    let tokens = tokenize(source);
    let mut parser = Parser::new(&tokens);
    parser.parse()
}

/// A successful prefix parse consumes at least one token and stays in range.
pub proof fn lemma_parse_prefix_progress(toks: Seq<TokenType>, pos: int)
    ensures
        spec_parse_prefix(toks, pos) matches Ok(r) ==> pos < r.1 <= toks.len(),
    decreases toks.len() - pos, 0int,
{
    if 0 <= pos < toks.len() {
        let t = toks[pos];
        if t.tokentype == Token::Bang || t.tokentype == Token::Minus {
            lemma_parse_expr_progress(toks, pos + 1, Precedence::Unary.spec_level());
        } else if t.tokentype == Token::LeftParen {
            lemma_parse_expr_progress(toks, pos + 1, Precedence::Lowest.spec_level());
        }
    }
}

/// A successful expression parse consumes at least one token and stays in
/// range.
pub proof fn lemma_parse_expr_progress(toks: Seq<TokenType>, pos: int, min: u8)
    ensures
        spec_parse_expr(toks, pos, min) matches Ok(r) ==> pos < r.1 <= toks.len(),
    decreases toks.len() - pos, 1int,
{
    if 0 <= pos < toks.len() {
        lemma_parse_prefix_progress(toks, pos);
        match spec_parse_prefix(toks, pos) {
            Ok(r) => {
                lemma_parse_infix_progress(toks, r.1, min, r.0);
            },
            Err(_) => {},
        }
    }
}

/// A successful argument-list parse consumes at least one token and stays in
/// range.
pub proof fn lemma_parse_args_progress(toks: Seq<TokenType>, pos: int, opener: Span, acc: Seq<
    SpecExpr,
>)
    ensures
        spec_parse_args(toks, pos, opener, acc) matches Ok(r) ==> pos < r.1 <= toks.len(),
    decreases toks.len() - pos, 2int,
{
    if 0 <= pos < toks.len() {
        lemma_parse_expr_progress(toks, pos, Precedence::Lowest.spec_level());
        match spec_parse_expr(toks, pos, Precedence::Lowest.spec_level()) {
            Ok(r) => {
                if 0 <= r.1 < toks.len() && toks[r.1].tokentype == Token::Comma {
                    lemma_parse_args_progress(toks, r.1 + 1, opener, acc.push(r.0));
                }
            },
            Err(_) => {},
        }
    }
}

/// The climbing loop never moves the cursor backwards nor past the end.
pub proof fn lemma_parse_infix_progress(toks: Seq<TokenType>, pos: int, min: u8, lhs: SpecExpr)
    requires
        0 <= pos <= toks.len(),
    ensures
        spec_parse_infix(toks, pos, min, lhs) matches Ok(r) ==> pos <= r.1 <= toks.len(),
    decreases toks.len() - pos, 3int,
{
    if 0 <= pos < toks.len() {
        let t = toks[pos];
        let p = prec_level_of(t.tokentype);
        if p > min {
            if is_infix_token(t.tokentype) {
                let submin = if t.tokentype == Token::Bind {
                    (p - 1) as u8
                } else {
                    p
                };
                lemma_parse_expr_progress(toks, pos + 1, submin);
                match spec_parse_expr(toks, pos + 1, submin) {
                    Ok(r) => {
                        lemma_parse_infix_progress(
                            toks,
                            r.1,
                            min,
                            SpecExpr::Binary(t, Box::new(lhs), Box::new(r.0)),
                        );
                    },
                    Err(_) => {},
                }
            } else if t.tokentype == Token::LeftParen {
                if pos + 1 < toks.len() && toks[pos + 1].tokentype == Token::RightParen {
                    lemma_parse_infix_progress(
                        toks,
                        pos + 2,
                        min,
                        SpecExpr::Call(Box::new(lhs), Seq::empty()),
                    );
                } else {
                    lemma_parse_args_progress(toks, pos + 1, t.span, Seq::empty());
                    match spec_parse_args(toks, pos + 1, t.span, Seq::empty()) {
                        Ok(r) => {
                            lemma_parse_infix_progress(
                                toks,
                                r.1,
                                min,
                                SpecExpr::Call(Box::new(lhs), r.0),
                            );
                        },
                        Err(_) => {},
                    }
                }
            } else if t.tokentype == Token::LeftBracket {
                lemma_parse_expr_progress(toks, pos + 1, Precedence::Lowest.spec_level());
                match spec_parse_expr(toks, pos + 1, Precedence::Lowest.spec_level()) {
                    Ok(r) => {
                        if 0 <= r.1 < toks.len() && toks[r.1].tokentype == Token::RightBracket {
                            lemma_parse_infix_progress(
                                toks,
                                r.1 + 1,
                                min,
                                SpecExpr::Index(Box::new(lhs), Box::new(r.0)),
                            );
                        }
                    },
                    Err(_) => {},
                }
            }
        }
    }
}

/// Tokens the climbing loop can consume at all: an infix operator, a call
/// `(`, or an index `[`.
pub open spec fn is_postfix_start(t: Token) -> bool {
    is_infix_token(t) || t == Token::LeftParen || t == Token::LeftBracket
}

/// The binding power of a finished node, seen from outside: a binary node
/// binds like its operator; every other node is as tight as a primary.
pub open spec fn root_level(e: SpecExpr) -> u8 {
    match e {
        SpecExpr::Binary(op, _, _) => prec_level_of(op.tokentype),
        _ => Precedence::Primary.spec_level(),
    }
}

/// Every expression of the list has standard precedence shape.
pub open spec fn respects_precedence_args(args: Seq<SpecExpr>) -> bool
    decreases args,
{
    args.len() == 0 || (respects_precedence(args[0]) && respects_precedence_args(
        args.subrange(1, args.len() as int),
    ))
}

/// Standard precedence shape: under every binary node, the left operand
/// binds at least as tightly as the node's own operator, and the right
/// operand binds tighter still -- except under right-associative assignment,
/// where it may bind equally tightly. A unary operand binds tighter than the
/// unary level. So `1 + 2 * 3` can only nest the product under the sum, and
/// `1 - 2 - 3` can only nest to the left.
pub open spec fn respects_precedence(e: SpecExpr) -> bool
    decreases e,
{
    match e {
        SpecExpr::Literal(_) => true,
        SpecExpr::Unary(op, c) => {
            &&& (op.tokentype == Token::Bang || op.tokentype == Token::Minus)
            &&& respects_precedence(*c)
            &&& root_level(*c) > Precedence::Unary.spec_level()
        },
        SpecExpr::Binary(op, l, r) => {
            let p = prec_level_of(op.tokentype);
            &&& is_infix_token(op.tokentype)
            &&& respects_precedence(*l)
            &&& respects_precedence(*r)
            &&& root_level(*l) >= p
            &&& if op.tokentype == Token::Bind {
                root_level(*r) >= p
            } else {
                root_level(*r) > p
            }
        },
        SpecExpr::Grouping(c) => respects_precedence(*c),
        SpecExpr::Call(c, args) => {
            &&& respects_precedence(*c)
            &&& root_level(*c) >= Precedence::Call.spec_level()
            &&& respects_precedence_args(args)
        },
        SpecExpr::Index(c, i) => {
            &&& respects_precedence(*c)
            &&& root_level(*c) >= Precedence::List.spec_level()
            &&& respects_precedence(*i)
        },
    }
}

/// Precedence shape holds of a list iff it holds of each element.
proof fn lemma_respects_args_forall(args: Seq<SpecExpr>)
    ensures
        respects_precedence_args(args) <==> (forall|k: int|
            0 <= k < args.len() ==> respects_precedence(#[trigger] args[k])),
    decreases args,
{
    if args.len() > 0 {
        let tail = args.subrange(1, args.len() as int);
        lemma_respects_args_forall(tail);
        if respects_precedence(args[0]) && (forall|k: int|
            0 <= k < tail.len() ==> respects_precedence(#[trigger] tail[k])) {
            assert forall|k: int| 0 <= k < args.len() implies respects_precedence(
                #[trigger] args[k],
            ) by {
                if k > 0 {
                    assert(args[k] == tail[k - 1]);
                }
            }
        }
        if forall|k: int| 0 <= k < args.len() ==> respects_precedence(#[trigger] args[k]) {
            assert forall|k: int| 0 <= k < tail.len() implies respects_precedence(
                #[trigger] tail[k],
            ) by {
                assert(tail[k] == args[k + 1]);
            }
        }
    }
}

/// Appending a well-shaped expression keeps a list well-shaped.
proof fn lemma_respects_args_push(args: Seq<SpecExpr>, e: SpecExpr)
    requires
        respects_precedence_args(args),
        respects_precedence(e),
    ensures
        respects_precedence_args(args.push(e)),
{
    lemma_respects_args_forall(args);
    lemma_respects_args_forall(args.push(e));
    assert forall|k: int| 0 <= k < args.push(e).len() implies respects_precedence(
        #[trigger] args.push(e)[k],
    ) by {
        if k < args.len() {
            assert(args.push(e)[k] == args[k]);
        } else {
            assert(args.push(e)[k] == e);
        }
    }
}

/// When a parse stops short of the end at a token the climbing loop could
/// consume, that token binds no tighter than the `min` the parse ran at.
proof fn lemma_parse_expr_stop(toks: Seq<TokenType>, pos: int, min: u8)
    ensures
        match spec_parse_expr(toks, pos, min) {
            Ok(r) => 0 <= r.1 < toks.len() && is_postfix_start(toks[r.1].tokentype)
                ==> prec_level_of(toks[r.1].tokentype) <= min,
            Err(_) => true,
        },
    decreases toks.len() - pos, 1int,
{
    if 0 <= pos < toks.len() {
        lemma_parse_prefix_progress(toks, pos);
        match spec_parse_prefix(toks, pos) {
            Ok(r) => {
                lemma_parse_infix_stop(toks, r.1, min, r.0);
            },
            Err(_) => {},
        }
    }
}

/// The climbing loop only ever stops at the end, at a token it cannot
/// consume, or at one that binds no tighter than `min`.
proof fn lemma_parse_infix_stop(toks: Seq<TokenType>, pos: int, min: u8, lhs: SpecExpr)
    requires
        0 <= pos <= toks.len(),
    ensures
        match spec_parse_infix(toks, pos, min, lhs) {
            Ok(r) => 0 <= r.1 < toks.len() && is_postfix_start(toks[r.1].tokentype)
                ==> prec_level_of(toks[r.1].tokentype) <= min,
            Err(_) => true,
        },
    decreases toks.len() - pos, 3int,
{
    if 0 <= pos < toks.len() {
        let t = toks[pos];
        let p = prec_level_of(t.tokentype);
        if p > min {
            if is_infix_token(t.tokentype) {
                let submin = if t.tokentype == Token::Bind {
                    (p - 1) as u8
                } else {
                    p
                };
                lemma_parse_expr_progress(toks, pos + 1, submin);
                match spec_parse_expr(toks, pos + 1, submin) {
                    Ok(r) => {
                        lemma_parse_infix_stop(
                            toks,
                            r.1,
                            min,
                            SpecExpr::Binary(t, Box::new(lhs), Box::new(r.0)),
                        );
                    },
                    Err(_) => {},
                }
            } else if t.tokentype == Token::LeftParen {
                if pos + 1 < toks.len() && toks[pos + 1].tokentype == Token::RightParen {
                    lemma_parse_infix_stop(
                        toks,
                        pos + 2,
                        min,
                        SpecExpr::Call(Box::new(lhs), Seq::empty()),
                    );
                } else {
                    lemma_parse_args_progress(toks, pos + 1, t.span, Seq::empty());
                    match spec_parse_args(toks, pos + 1, t.span, Seq::empty()) {
                        Ok(r) => {
                            lemma_parse_infix_stop(
                                toks,
                                r.1,
                                min,
                                SpecExpr::Call(Box::new(lhs), r.0),
                            );
                        },
                        Err(_) => {},
                    }
                }
            } else if t.tokentype == Token::LeftBracket {
                lemma_parse_expr_progress(toks, pos + 1, Precedence::Lowest.spec_level());
                match spec_parse_expr(toks, pos + 1, Precedence::Lowest.spec_level()) {
                    Ok(r) => {
                        if 0 <= r.1 < toks.len() && toks[r.1].tokentype == Token::RightBracket {
                            lemma_parse_infix_stop(
                                toks,
                                r.1 + 1,
                                min,
                                SpecExpr::Index(Box::new(lhs), Box::new(r.0)),
                            );
                        }
                    },
                    Err(_) => {},
                }
            }
        }
    }
}

/// A prefix expression is well-shaped and binds like a primary.
proof fn lemma_parse_prefix_shape(toks: Seq<TokenType>, pos: int)
    ensures
        spec_parse_prefix(toks, pos) matches Ok(r) ==> respects_precedence(r.0) && root_level(r.0)
            == Precedence::Primary.spec_level(),
    decreases toks.len() - pos, 0int,
{
    if 0 <= pos < toks.len() {
        let t = toks[pos];
        if t.tokentype == Token::Bang || t.tokentype == Token::Minus {
            lemma_parse_expr_shape(toks, pos + 1, Precedence::Unary.spec_level());
        } else if t.tokentype == Token::LeftParen {
            lemma_parse_expr_shape(toks, pos + 1, Precedence::Lowest.spec_level());
        }
    }
}

/// A parsed expression is well-shaped and binds tighter than the `min` the
/// parse ran at.
proof fn lemma_parse_expr_shape(toks: Seq<TokenType>, pos: int, min: u8)
    ensures
        spec_parse_expr(toks, pos, min) matches Ok(r) ==> respects_precedence(r.0) && (root_level(
            r.0,
        ) > min || root_level(r.0) == Precedence::Primary.spec_level()),
    decreases toks.len() - pos, 1int,
{
    if 0 <= pos < toks.len() {
        lemma_parse_prefix_shape(toks, pos);
        lemma_parse_prefix_progress(toks, pos);
        match spec_parse_prefix(toks, pos) {
            Ok(r) => {
                lemma_parse_infix_shape(toks, r.1, min, r.0);
            },
            Err(_) => {},
        }
    }
}

/// Every argument a call parse accumulates is well-shaped.
proof fn lemma_parse_args_shape(toks: Seq<TokenType>, pos: int, opener: Span, acc: Seq<SpecExpr>)
    requires
        respects_precedence_args(acc),
    ensures
        spec_parse_args(toks, pos, opener, acc) matches Ok(r) ==> respects_precedence_args(r.0),
    decreases toks.len() - pos, 2int,
{
    if 0 <= pos < toks.len() {
        lemma_parse_expr_shape(toks, pos, Precedence::Lowest.spec_level());
        lemma_parse_expr_progress(toks, pos, Precedence::Lowest.spec_level());
        match spec_parse_expr(toks, pos, Precedence::Lowest.spec_level()) {
            Ok(r) => {
                lemma_respects_args_push(acc, r.0);
                if 0 <= r.1 < toks.len() && toks[r.1].tokentype == Token::Comma {
                    lemma_parse_args_shape(toks, r.1 + 1, opener, acc.push(r.0));
                }
            },
            Err(_) => {},
        }
    }
}

/// Folding the climbing loop preserves the precedence shape: with a
/// well-shaped left-hand side that binds at least as tightly as the token
/// the loop stands at, every expression the loop returns is well-shaped, and
/// binds tighter than `min` unless it is the untouched left-hand side.
proof fn lemma_parse_infix_shape(toks: Seq<TokenType>, pos: int, min: u8, lhs: SpecExpr)
    requires
        0 <= pos <= toks.len(),
        respects_precedence(lhs),
        0 <= pos < toks.len() && is_postfix_start(toks[pos].tokentype) ==> prec_level_of(
            toks[pos].tokentype,
        ) <= root_level(lhs),
    ensures
        spec_parse_infix(toks, pos, min, lhs) matches Ok(r) ==> respects_precedence(r.0) && (r.0
            == lhs || root_level(r.0) > min),
    decreases toks.len() - pos, 3int,
{
    if 0 <= pos < toks.len() {
        let t = toks[pos];
        let p = prec_level_of(t.tokentype);
        if p > min {
            if is_infix_token(t.tokentype) {
                let submin = if t.tokentype == Token::Bind {
                    (p - 1) as u8
                } else {
                    p
                };
                lemma_parse_expr_shape(toks, pos + 1, submin);
                lemma_parse_expr_progress(toks, pos + 1, submin);
                lemma_parse_expr_stop(toks, pos + 1, submin);
                match spec_parse_expr(toks, pos + 1, submin) {
                    Ok(r) => {
                        let folded = SpecExpr::Binary(t, Box::new(lhs), Box::new(r.0));
                        assert(respects_precedence(folded));
                        lemma_parse_infix_shape(toks, r.1, min, folded);
                    },
                    Err(_) => {},
                }
            } else if t.tokentype == Token::LeftParen {
                if pos + 1 < toks.len() && toks[pos + 1].tokentype == Token::RightParen {
                    let folded = SpecExpr::Call(Box::new(lhs), Seq::empty());
                    assert(is_postfix_start(t.tokentype));
                    assert(prec_level_of(t.tokentype) == Precedence::Call.spec_level());
                    assert(root_level(lhs) >= Precedence::Call.spec_level());
                    assert(respects_precedence_args(Seq::<SpecExpr>::empty()));
                    assert(respects_precedence(folded));
                    lemma_parse_infix_shape(toks, pos + 2, min, folded);
                } else {
                    lemma_parse_args_shape(toks, pos + 1, t.span, Seq::empty());
                    lemma_parse_args_progress(toks, pos + 1, t.span, Seq::empty());
                    match spec_parse_args(toks, pos + 1, t.span, Seq::empty()) {
                        Ok(r) => {
                            let folded = SpecExpr::Call(Box::new(lhs), r.0);
                            assert(respects_precedence(folded));
                            lemma_parse_infix_shape(toks, r.1, min, folded);
                        },
                        Err(_) => {},
                    }
                }
            } else if t.tokentype == Token::LeftBracket {
                lemma_parse_expr_shape(toks, pos + 1, Precedence::Lowest.spec_level());
                lemma_parse_expr_progress(toks, pos + 1, Precedence::Lowest.spec_level());
                match spec_parse_expr(toks, pos + 1, Precedence::Lowest.spec_level()) {
                    Ok(r) => {
                        if 0 <= r.1 < toks.len() && toks[r.1].tokentype == Token::RightBracket {
                            let folded = SpecExpr::Index(Box::new(lhs), Box::new(r.0));
                            assert(respects_precedence(folded));
                            lemma_parse_infix_shape(toks, r.1 + 1, min, folded);
                        }
                    },
                    Err(_) => {},
                }
            }
        }
    }
}

/// Law: every AST the parser returns has standard precedence shape. In
/// particular `1 + 2 * 3` can only come back as the product nested under the
/// sum, never the other way around.
pub proof fn lemma_parser_respects_precedence(toks: Seq<TokenType>, pos: int, min: u8)
    ensures
        spec_parse_expr(toks, pos, min) matches Ok(r) ==> respects_precedence(r.0),
{
    lemma_parse_expr_shape(toks, pos, min);
}

/// Law: parsing a whole source buffer yields an AST of standard precedence
/// shape.
pub proof fn lemma_parse_source_respects_precedence(s: Seq<u8>)
    ensures
        spec_parse_source(s) matches Ok(e) ==> respects_precedence(e),
{
    lemma_parse_expr_shape(lex(s), 0, Precedence::Lowest.spec_level());
}

} // verus!
