use exprfront::lexer::{tokenize, Span, Token, TokenType};

fn tt(tokentype: Token, start: usize, end: usize) -> TokenType {
    TokenType::new(tokentype, Span { start, end })
}

#[test]
fn test_lexer() {
    let expression = "2 + 2";
    let tokens = tokenize(expression.as_bytes());

    assert_eq!(Token::Integer, tokens.get(0).unwrap().tokentype);
    assert_eq!(Token::Plus, tokens.get(1).unwrap().tokentype);
    assert_eq!(Token::Integer, tokens.get(2).unwrap().tokentype);
}

#[test]
fn lexer_spans_are_byte_ranges() {
    let tokens = tokenize("2 + 23".as_bytes());
    assert_eq!(tokens, vec![tt(Token::Integer, 0, 1), tt(Token::Plus, 2, 3), tt(Token::Integer, 4, 6)]);
}

#[test]
fn lexer_skips_whitespace_and_unmatched_bytes() {
    // '@' and '#' match no rule and are dropped from the stream.
    let tokens = tokenize("\t2 @\n# 3\x0c".as_bytes());
    assert_eq!(tokens, vec![tt(Token::Integer, 1, 2), tt(Token::Integer, 7, 8)]);
}

#[test]
fn lexer_empty_input() {
    assert_eq!(tokenize("".as_bytes()), vec![]);
    assert_eq!(tokenize("   ".as_bytes()), vec![]);
}

#[test]
fn lexer_longest_match_operators() {
    let tokens = tokenize("<= < >= > == = != !".as_bytes());
    let kinds: Vec<Token> = tokens.iter().map(|t| t.tokentype).collect();
    assert_eq!(
        kinds,
        vec![
            Token::LessEqual,
            Token::Less,
            Token::GreaterEqual,
            Token::Greater,
            Token::EqualComparison,
            Token::Bind,
            Token::BangEqual,
            Token::Bang,
        ]
    );
}

#[test]
fn lexer_float_needs_digit_after_dot() {
    // "34422." is an integer followed by a dot; "34423.0" is a float.
    let tokens = tokenize("34422. 34423.0".as_bytes());
    assert_eq!(
        tokens,
        vec![tt(Token::Integer, 0, 5), tt(Token::Dot, 5, 6), tt(Token::Float, 7, 14)]
    );
}

#[test]
fn lexer_string_literal() {
    let tokens = tokenize("\"hi there\" 7".as_bytes());
    assert_eq!(tokens, vec![tt(Token::StringLit, 0, 10), tt(Token::Integer, 11, 12)]);
}

#[test]
fn lexer_unterminated_string_is_skipped() {
    // The opening quote matches no rule when no closing quote follows.
    let tokens = tokenize("\"oops".as_bytes());
    assert_eq!(tokens, vec![]);
}

#[test]
fn lexer_keywords() {
    let tokens = tokenize("if else while for and or not return true false".as_bytes());
    let kinds: Vec<Token> = tokens.iter().map(|t| t.tokentype).collect();
    assert_eq!(
        kinds,
        vec![
            Token::If,
            Token::Else,
            Token::While,
            Token::For,
            Token::And,
            Token::Or,
            Token::Not,
            Token::Return,
            Token::True,
            Token::False,
        ]
    );
}

#[test]
fn lexer_structural_tokens() {
    let tokens = tokenize("()[]{}.,;%".as_bytes());
    let kinds: Vec<Token> = tokens.iter().map(|t| t.tokentype).collect();
    assert_eq!(
        kinds,
        vec![
            Token::LeftParen,
            Token::RightParen,
            Token::LeftBracket,
            Token::RightBracket,
            Token::LeftBrace,
            Token::RightBrace,
            Token::Dot,
            Token::Comma,
            Token::Semicolon,
            Token::Modulus,
        ]
    );
}

#[test]
fn relex_of_each_lexeme_reproduces_its_token() {
    // Lexing the slice under each token's span yields the same token again,
    // rebased to the start of the slice.
    let source = "1.5 + true <= \"s\" ( while 42";
    let tokens = tokenize(source.as_bytes());
    assert_eq!(tokens.len(), 8);
    for t in tokens.iter() {
        let slice = &source.as_bytes()[t.span.start..t.span.end];
        let again = tokenize(slice);
        assert_eq!(again, vec![tt(t.tokentype, 0, t.span.end - t.span.start)]);
    }
}

#[test]
fn lexer_spans_strictly_increase() {
    let tokens = tokenize("1 + 2*3 <= 44".as_bytes());
    for w in tokens.windows(2) {
        assert!(w[0].span.end <= w[1].span.start);
    }
    for t in tokens.iter() {
        assert!(t.span.start < t.span.end);
    }
}
