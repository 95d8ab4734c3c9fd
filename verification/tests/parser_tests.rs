use exprfront::ast::{Expr, ParseError};
use exprfront::lexer::{tokenize, Span, Token, TokenType};
use exprfront::parser::{parse_source, Parser};

fn tt(tokentype: Token, start: usize, end: usize) -> TokenType {
    TokenType::new(tokentype, Span { start, end })
}

fn lit(tokentype: Token, start: usize, end: usize) -> Expr {
    Expr::Literal(tt(tokentype, start, end))
}

fn ilit(start: usize, end: usize) -> Expr {
    lit(Token::Integer, start, end)
}

#[test]
fn precedence_of_multiplication_over_addition() {
    // "1 + 2 * 3" groups as 1 + (2 * 3), never as (1 + 2) * 3.
    let got = parse_source("1 + 2 * 3".as_bytes()).unwrap();
    let expected = Expr::Binary(
        tt(Token::Plus, 2, 3),
        Box::new(ilit(0, 1)),
        Box::new(Expr::Binary(
            tt(Token::Multiply, 6, 7),
            Box::new(ilit(4, 5)),
            Box::new(ilit(8, 9)),
        )),
    );
    assert_eq!(got, expected);
    let wrong = Expr::Binary(
        tt(Token::Multiply, 6, 7),
        Box::new(Expr::Binary(
            tt(Token::Plus, 2, 3),
            Box::new(ilit(0, 1)),
            Box::new(ilit(4, 5)),
        )),
        Box::new(ilit(8, 9)),
    );
    assert_ne!(got, wrong);
}

#[test]
fn subtraction_is_left_associative() {
    // "1 - 2 - 3" groups as (1 - 2) - 3.
    let got = parse_source("1 - 2 - 3".as_bytes()).unwrap();
    let expected = Expr::Binary(
        tt(Token::Minus, 6, 7),
        Box::new(Expr::Binary(
            tt(Token::Minus, 2, 3),
            Box::new(ilit(0, 1)),
            Box::new(ilit(4, 5)),
        )),
        Box::new(ilit(8, 9)),
    );
    assert_eq!(got, expected);
}

#[test]
fn assignment_is_right_associative() {
    // "a = b = 3", with the stand-in assignable token for the identifiers,
    // groups as a = (b = 3).
    let tokens = vec![
        tt(Token::Identifier, 0, 1),
        tt(Token::Bind, 2, 3),
        tt(Token::Identifier, 4, 5),
        tt(Token::Bind, 6, 7),
        tt(Token::Integer, 8, 9),
    ];
    let mut parser = Parser::new(&tokens);
    let got = parser.parse().unwrap();
    let expected = Expr::Binary(
        tt(Token::Bind, 2, 3),
        Box::new(lit(Token::Identifier, 0, 1)),
        Box::new(Expr::Binary(
            tt(Token::Bind, 6, 7),
            Box::new(lit(Token::Identifier, 4, 5)),
            Box::new(ilit(8, 9)),
        )),
    );
    assert_eq!(got, expected);
}

#[test]
fn grouping_binds_before_multiplication() {
    // "(1 + 2) * 3" keeps the parenthesized sum as one operand.
    let got = parse_source("(1 + 2) * 3".as_bytes()).unwrap();
    let expected = Expr::Binary(
        tt(Token::Multiply, 8, 9),
        Box::new(Expr::Grouping(Box::new(Expr::Binary(
            tt(Token::Plus, 3, 4),
            Box::new(ilit(1, 2)),
            Box::new(ilit(5, 6)),
        )))),
        Box::new(ilit(10, 11)),
    );
    assert_eq!(got, expected);
}

#[test]
fn unmatched_paren_is_detected() {
    let got = parse_source("(1 + 2".as_bytes());
    assert_eq!(got, Err(ParseError::UnmatchedDelimiter { opener: Span { start: 0, end: 1 } }));
}

#[test]
fn operator_without_left_operand_is_unexpected() {
    let got = parse_source("+ 2".as_bytes());
    assert_eq!(got, Err(ParseError::UnexpectedToken { found: tt(Token::Plus, 0, 1) }));
}

#[test]
fn empty_input_is_out_of_bounds() {
    assert_eq!(parse_source("".as_bytes()), Err(ParseError::OutOfBounds));
    assert_eq!(parse_source("   ".as_bytes()), Err(ParseError::OutOfBounds));
}

#[test]
fn unary_binds_tighter_than_factor() {
    // "-2 * 3" groups as (-2) * 3.
    let got = parse_source("-2 * 3".as_bytes()).unwrap();
    let expected = Expr::Binary(
        tt(Token::Multiply, 3, 4),
        Box::new(Expr::Unary(tt(Token::Minus, 0, 1), Box::new(ilit(1, 2)))),
        Box::new(ilit(5, 6)),
    );
    assert_eq!(got, expected);
}

#[test]
fn nested_unary_bang() {
    let got = parse_source("!!true".as_bytes()).unwrap();
    let expected = Expr::Unary(
        tt(Token::Bang, 0, 1),
        Box::new(Expr::Unary(
            tt(Token::Bang, 1, 2),
            Box::new(lit(Token::True, 2, 6)),
        )),
    );
    assert_eq!(got, expected);
}

#[test]
fn missing_unary_operand_is_out_of_bounds() {
    assert_eq!(parse_source("-".as_bytes()), Err(ParseError::OutOfBounds));
}

#[test]
fn and_binds_before_or() {
    let got = parse_source("true and false or true".as_bytes()).unwrap();
    let expected = Expr::Binary(
        tt(Token::Or, 15, 17),
        Box::new(Expr::Binary(
            tt(Token::And, 5, 8),
            Box::new(lit(Token::True, 0, 4)),
            Box::new(lit(Token::False, 9, 14)),
        )),
        Box::new(lit(Token::True, 18, 22)),
    );
    assert_eq!(got, expected);
}

#[test]
fn comparison_binds_before_equality() {
    let got = parse_source("1 < 2 == true".as_bytes()).unwrap();
    let expected = Expr::Binary(
        tt(Token::EqualComparison, 6, 8),
        Box::new(Expr::Binary(
            tt(Token::Less, 2, 3),
            Box::new(ilit(0, 1)),
            Box::new(ilit(4, 5)),
        )),
        Box::new(lit(Token::True, 9, 13)),
    );
    assert_eq!(got, expected);
}

#[test]
fn modulus_is_left_associative_factor() {
    let got = parse_source("7 % 2 % 3".as_bytes()).unwrap();
    let expected = Expr::Binary(
        tt(Token::Modulus, 6, 7),
        Box::new(Expr::Binary(
            tt(Token::Modulus, 2, 3),
            Box::new(ilit(0, 1)),
            Box::new(ilit(4, 5)),
        )),
        Box::new(ilit(8, 9)),
    );
    assert_eq!(got, expected);
}

#[test]
fn call_with_arguments() {
    let got = parse_source("1(2, 3)".as_bytes()).unwrap();
    let expected = Expr::Call(Box::new(ilit(0, 1)), vec![ilit(2, 3), ilit(5, 6)]);
    assert_eq!(got, expected);
}

#[test]
fn call_with_no_arguments() {
    let got = parse_source("1()".as_bytes()).unwrap();
    let expected = Expr::Call(Box::new(ilit(0, 1)), vec![]);
    assert_eq!(got, expected);
}

#[test]
fn unclosed_call_is_unmatched_delimiter() {
    let got = parse_source("1(2".as_bytes());
    assert_eq!(got, Err(ParseError::UnmatchedDelimiter { opener: Span { start: 1, end: 2 } }));
}

#[test]
fn index_access() {
    let got = parse_source("1[2]".as_bytes()).unwrap();
    let expected = Expr::Index(Box::new(ilit(0, 1)), Box::new(ilit(2, 3)));
    assert_eq!(got, expected);
}

#[test]
fn unclosed_index_is_unmatched_delimiter() {
    let got = parse_source("1[2".as_bytes());
    assert_eq!(got, Err(ParseError::UnmatchedDelimiter { opener: Span { start: 1, end: 2 } }));
}

#[test]
fn member_access_parses_as_call_level_operator() {
    let got = parse_source("1 . 2".as_bytes()).unwrap();
    let expected = Expr::Binary(
        tt(Token::Dot, 2, 3),
        Box::new(ilit(0, 1)),
        Box::new(ilit(4, 5)),
    );
    assert_eq!(got, expected);
}

#[test]
fn parse_stops_at_semicolon() {
    let source = "1 + 2 ; 3";
    let tokens = tokenize(source.as_bytes());
    let mut parser = Parser::new(&tokens);
    let got = parser.parse().unwrap();
    let expected = Expr::Binary(
        tt(Token::Plus, 2, 3),
        Box::new(ilit(0, 1)),
        Box::new(ilit(4, 5)),
    );
    assert_eq!(got, expected);
    // The semicolon is left for the caller.
    assert_eq!(parser.cursor(), 3);
    assert!(!parser.is_at_end());
}
