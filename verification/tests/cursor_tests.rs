use exprfront::lexer::{tokenize, Span, Token, TokenType};
use exprfront::parser::Parser;
use exprfront::precedence::{precedence_of, Precedence};

fn tt(tokentype: Token, start: usize, end: usize) -> TokenType {
    TokenType::new(tokentype, Span { start, end })
}

#[test]
fn cursor_starts_at_zero_and_walks_forward() {
    let tokens = tokenize("1 + 2".as_bytes());
    let mut parser = Parser::new(&tokens);
    assert_eq!(parser.cursor(), 0);
    assert!(!parser.is_at_end());
    assert_eq!(parser.peek(), tt(Token::Integer, 0, 1));
    assert_eq!(parser.peek_next(), tt(Token::Plus, 2, 3));

    assert_eq!(parser.advance(), tt(Token::Integer, 0, 1));
    assert_eq!(parser.cursor(), 1);
    assert_eq!(parser.previous(), tt(Token::Integer, 0, 1));

    assert_eq!(parser.advance(), tt(Token::Plus, 2, 3));
    assert_eq!(parser.advance(), tt(Token::Integer, 4, 5));
    assert!(parser.is_at_end());
}

#[test]
fn cursor_position_never_decreases() {
    let tokens = tokenize("1 + 2 * 3".as_bytes());
    let mut parser = Parser::new(&tokens);
    let mut last = parser.cursor();
    for _ in 0..8 {
        if !parser.is_at_end() {
            parser.advance();
        }
        let now = parser.cursor();
        assert!(now >= last);
        last = now;
    }
    assert_eq!(parser.cursor(), tokens.len());
}

#[test]
fn advance_saturates_at_end() {
    let tokens = tokenize("7".as_bytes());
    let mut parser = Parser::new(&tokens);
    assert_eq!(parser.advance(), tt(Token::Integer, 0, 1));
    assert!(parser.is_at_end());
    // Past the end the cursor stays put and the last token comes back.
    assert_eq!(parser.advance(), tt(Token::Integer, 0, 1));
    assert_eq!(parser.cursor(), 1);
}

#[test]
fn check_compares_kind_without_consuming() {
    let tokens = tokenize("1 + 2".as_bytes());
    let parser = Parser::new(&tokens);
    assert!(parser.check(Token::Integer));
    assert!(!parser.check(Token::Plus));
    assert_eq!(parser.cursor(), 0);
}

#[test]
fn match_token_consumes_only_on_match() {
    let tokens = tokenize("1 + 2".as_bytes());
    let mut parser = Parser::new(&tokens);
    assert!(!parser.match_token(Token::Plus));
    assert_eq!(parser.cursor(), 0);
    assert!(parser.match_token(Token::Integer));
    assert_eq!(parser.cursor(), 1);
    assert!(parser.match_token(Token::Plus));
    assert!(parser.match_token(Token::Integer));
    assert!(parser.is_at_end());
    assert!(!parser.match_token(Token::Integer));
}

#[test]
fn check_is_false_at_end() {
    let tokens = tokenize("".as_bytes());
    let parser = Parser::new(&tokens);
    assert!(parser.is_at_end());
    assert!(!parser.check(Token::Integer));
}

#[test]
fn precedence_levels_are_ordered() {
    let levels = vec![
        Precedence::Lowest.level(),
        Precedence::Assign.level(),
        Precedence::Or.level(),
        Precedence::And.level(),
        Precedence::Equality.level(),
        Precedence::Comparison.level(),
        Precedence::Term.level(),
        Precedence::Factor.level(),
        Precedence::Unary.level(),
        Precedence::Call.level(),
        Precedence::List.level(),
        Precedence::Primary.level(),
    ];
    for w in levels.windows(2) {
        assert!(w[0] < w[1]);
    }
}

#[test]
fn precedence_table_is_total() {
    assert_eq!(precedence_of(Token::Bind), Precedence::Assign);
    assert_eq!(precedence_of(Token::Or), Precedence::Or);
    assert_eq!(precedence_of(Token::And), Precedence::And);
    assert_eq!(precedence_of(Token::BangEqual), Precedence::Equality);
    assert_eq!(precedence_of(Token::EqualComparison), Precedence::Equality);
    assert_eq!(precedence_of(Token::Less), Precedence::Comparison);
    assert_eq!(precedence_of(Token::LessEqual), Precedence::Comparison);
    assert_eq!(precedence_of(Token::Greater), Precedence::Comparison);
    assert_eq!(precedence_of(Token::GreaterEqual), Precedence::Comparison);
    assert_eq!(precedence_of(Token::Plus), Precedence::Term);
    assert_eq!(precedence_of(Token::Minus), Precedence::Term);
    assert_eq!(precedence_of(Token::Multiply), Precedence::Factor);
    assert_eq!(precedence_of(Token::Divide), Precedence::Factor);
    assert_eq!(precedence_of(Token::Modulus), Precedence::Factor);
    assert_eq!(precedence_of(Token::Bang), Precedence::Unary);
    assert_eq!(precedence_of(Token::LeftParen), Precedence::Call);
    assert_eq!(precedence_of(Token::Dot), Precedence::Call);
    assert_eq!(precedence_of(Token::LeftBracket), Precedence::List);
    // Tokens with no operator meaning sit at the lowest level.
    assert_eq!(precedence_of(Token::Integer), Precedence::Lowest);
    assert_eq!(precedence_of(Token::Semicolon), Precedence::Lowest);
    assert_eq!(precedence_of(Token::RightParen), Precedence::Lowest);
    assert_eq!(precedence_of(Token::Error), Precedence::Lowest);
}
