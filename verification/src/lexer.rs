//! Lexical scanner: classifies the bytes of a source line into tokens, each
//! carrying the half-open byte span of its lexeme. Matching is longest-match
//! first; whitespace is discarded; bytes that match no rule are skipped, so
//! the returned stream holds no `Error` token.

use vstd::prelude::*;

verus! {

/// Classification of a lexeme: the closed set of token kinds.
#[derive(Clone, Copy, Debug, PartialEq, Eq, Structural)]
pub enum Token {
    // Literals
    Integer,
    Float,
    StringLit,
    True,
    False,
    // Operators
    Plus,
    Minus,
    Multiply,
    Divide,
    Modulus,
    Bang,
    BangEqual,
    EqualComparison,
    Bind,
    Less,
    LessEqual,
    Greater,
    GreaterEqual,
    // Structural
    LeftParen,
    RightParen,
    LeftBracket,
    RightBracket,
    LeftBrace,
    RightBrace,
    Dot,
    Comma,
    Semicolon,
    // Keywords
    If,
    Else,
    While,
    For,
    And,
    Or,
    Not,
    Return,
    /// Stand-in assignable operand; never produced by the lexer itself.
    Identifier,
    /// Sentinel for unmatched input; never present in a lexed stream.
    Error,
}

/// Half-open byte range `[start, end)` locating a lexeme in the source.
#[derive(Clone, Copy, Debug, PartialEq, Eq, Structural)]
pub struct Span {
    pub start: usize,
    pub end: usize,
}

/// One element of the token stream: a token kind together with its span.
#[derive(Clone, Copy, Debug, PartialEq, Eq, Structural)]
pub struct TokenType {
    pub tokentype: Token,
    pub span: Span,
}

impl TokenType {
    pub fn new(tokentype: Token, span: Span) -> (r: Self)
        ensures
            r.tokentype == tokentype,
            r.span == span,
    {
        Self { tokentype, span }
    }
}

/// Space, tab, newline and form feed separate tokens and are discarded.
pub open spec fn is_whitespace_byte(b: u8) -> bool {
    b == 32 || b == 9 || b == 10 || b == 12
}

pub open spec fn is_digit_byte(b: u8) -> bool {
    48 <= b <= 57
}

/// First position at or after `i` that does not hold a digit.
pub open spec fn digits_end(s: Seq<u8>, i: int) -> int
    decreases s.len() - i,
{
    if 0 <= i < s.len() && is_digit_byte(s[i]) {
        digits_end(s, i + 1)
    } else {
        i
    }
}

pub proof fn lemma_digits_end(s: Seq<u8>, i: int)
    requires
        0 <= i <= s.len(),
    ensures
        i <= digits_end(s, i) <= s.len(),
        forall|k: int| i <= k < digits_end(s, i) ==> is_digit_byte(s[k]),
        digits_end(s, i) < s.len() ==> !is_digit_byte(s[digits_end(s, i)]),
    decreases s.len() - i,
{
    if i < s.len() && is_digit_byte(s[i]) {
        lemma_digits_end(s, i + 1);
    }
}

/// Position of the first `"` at or after `i`, if any.
pub open spec fn quote_end(s: Seq<u8>, i: int) -> Option<int>
    decreases s.len() - i,
{
    if 0 <= i < s.len() {
        if s[i] == 34 {
            Some(i)
        } else {
            quote_end(s, i + 1)
        }
    } else {
        None
    }
}

pub proof fn lemma_quote_end(s: Seq<u8>, i: int)
    requires
        0 <= i <= s.len(),
    ensures
        quote_end(s, i) matches Some(j) ==> i <= j < s.len() && s[j] == 34
            && forall|k: int| i <= k < j ==> s[k] != 34,
        quote_end(s, i) is None ==> forall|k: int| i <= k < s.len() ==> s[k] != 34,
    decreases s.len() - i,
{
    if i < s.len() && s[i] != 34 {
        lemma_quote_end(s, i + 1);
    }
}

/// `w` occurs in `s` starting at `i`.
pub open spec fn has_bytes(s: Seq<u8>, i: int, w: Seq<u8>) -> bool {
    0 <= i && i + w.len() <= s.len() && s.subrange(i, i + w.len()) == w
}

pub open spec fn kw_if() -> Seq<u8> {
    seq![105u8, 102u8]
}

pub open spec fn kw_or() -> Seq<u8> {
    seq![111u8, 114u8]
}

pub open spec fn kw_and() -> Seq<u8> {
    seq![97u8, 110u8, 100u8]
}

pub open spec fn kw_not() -> Seq<u8> {
    seq![110u8, 111u8, 116u8]
}

pub open spec fn kw_for() -> Seq<u8> {
    seq![102u8, 111u8, 114u8]
}

pub open spec fn kw_true() -> Seq<u8> {
    seq![116u8, 114u8, 117u8, 101u8]
}

pub open spec fn kw_else() -> Seq<u8> {
    seq![101u8, 108u8, 115u8, 101u8]
}

pub open spec fn kw_false() -> Seq<u8> {
    seq![102u8, 97u8, 108u8, 115u8, 101u8]
}

pub open spec fn kw_while() -> Seq<u8> {
    seq![119u8, 104u8, 105u8, 108u8, 101u8]
}

pub open spec fn kw_return() -> Seq<u8> {
    seq![114u8, 101u8, 116u8, 117u8, 114u8, 110u8]
}

/// The keyword, if any, that starts at `i`; longer keywords are tried first,
/// so the longest match wins.
pub open spec fn keyword_at(s: Seq<u8>, i: int) -> Option<(Token, int)> {
    if has_bytes(s, i, kw_return()) {
        Some((Token::Return, i + 6))
    } else if has_bytes(s, i, kw_false()) {
        Some((Token::False, i + 5))
    } else if has_bytes(s, i, kw_while()) {
        Some((Token::While, i + 5))
    } else if has_bytes(s, i, kw_true()) {
        Some((Token::True, i + 4))
    } else if has_bytes(s, i, kw_else()) {
        Some((Token::Else, i + 4))
    } else if has_bytes(s, i, kw_and()) {
        Some((Token::And, i + 3))
    } else if has_bytes(s, i, kw_not()) {
        Some((Token::Not, i + 3))
    } else if has_bytes(s, i, kw_for()) {
        Some((Token::For, i + 3))
    } else if has_bytes(s, i, kw_if()) {
        Some((Token::If, i + 2))
    } else if has_bytes(s, i, kw_or()) {
        Some((Token::Or, i + 2))
    } else {
        None
    }
}

/// The token whose lexeme starts at position `i`, with the position one past
/// its end: longest-match-wins over the whole rule set. `None` when no rule
/// matches at `i`. Meaningful for `0 <= i < s.len()` at a non-whitespace byte.
pub open spec fn match_at(s: Seq<u8>, i: int) -> Option<(Token, int)> {
    let b = s[i];
    if is_digit_byte(b) {
        let j = digits_end(s, i);
        if j + 1 < s.len() && s[j] == 46 && is_digit_byte(s[j + 1]) {
            Some((Token::Float, digits_end(s, j + 1)))
        } else {
            Some((Token::Integer, j))
        }
    } else if b == 34 {
        match quote_end(s, i + 1) {
            Some(j) => Some((Token::StringLit, j + 1)),
            None => None,
        }
    } else if b == 33 {
        if i + 1 < s.len() && s[i + 1] == 61 {
            Some((Token::BangEqual, i + 2))
        } else {
            Some((Token::Bang, i + 1))
        }
    } else if b == 60 {
        if i + 1 < s.len() && s[i + 1] == 61 {
            Some((Token::LessEqual, i + 2))
        } else {
            Some((Token::Less, i + 1))
        }
    } else if b == 62 {
        if i + 1 < s.len() && s[i + 1] == 61 {
            Some((Token::GreaterEqual, i + 2))
        } else {
            Some((Token::Greater, i + 1))
        }
    } else if b == 61 {
        if i + 1 < s.len() && s[i + 1] == 61 {
            Some((Token::EqualComparison, i + 2))
        } else {
            Some((Token::Bind, i + 1))
        }
    } else if b == 43 {
        Some((Token::Plus, i + 1))
    } else if b == 45 {
        Some((Token::Minus, i + 1))
    } else if b == 42 {
        Some((Token::Multiply, i + 1))
    } else if b == 47 {
        Some((Token::Divide, i + 1))
    } else if b == 37 {
        Some((Token::Modulus, i + 1))
    } else if b == 40 {
        Some((Token::LeftParen, i + 1))
    } else if b == 41 {
        Some((Token::RightParen, i + 1))
    } else if b == 91 {
        Some((Token::LeftBracket, i + 1))
    } else if b == 93 {
        Some((Token::RightBracket, i + 1))
    } else if b == 123 {
        Some((Token::LeftBrace, i + 1))
    } else if b == 125 {
        Some((Token::RightBrace, i + 1))
    } else if b == 46 {
        Some((Token::Dot, i + 1))
    } else if b == 44 {
        Some((Token::Comma, i + 1))
    } else if b == 59 {
        Some((Token::Semicolon, i + 1))
    } else {
        keyword_at(s, i)
    }
}

pub proof fn lemma_match_at_bounds(s: Seq<u8>, i: int)
    requires
        0 <= i < s.len(),
    ensures
        match_at(s, i) matches Some(r) ==> i < r.1 <= s.len(),
{
    lemma_digits_end(s, i);
    let j = digits_end(s, i);
    if is_digit_byte(s[i]) && j + 1 < s.len() && s[j] == 46 && is_digit_byte(s[j + 1]) {
        lemma_digits_end(s, j + 1);
    }
    lemma_quote_end(s, i + 1);
}

/// The token stream of `s` from position `i` on: whitespace and unmatched
/// bytes yield nothing, every other position yields the longest match there
/// and scanning resumes right after it.
pub open spec fn lex_from(s: Seq<u8>, i: int) -> Seq<TokenType>
    decreases s.len() - i,
        via lex_from_decreases
{
    if !(0 <= i < s.len()) {
        Seq::empty()
    } else if is_whitespace_byte(s[i]) {
        lex_from(s, i + 1)
    } else {
        match match_at(s, i) {
            Some(r) => seq![
                TokenType { tokentype: r.0, span: Span { start: i as usize, end: r.1 as usize } },
            ] + lex_from(s, r.1),
            None => lex_from(s, i + 1),
        }
    }
}

#[via_fn]
proof fn lex_from_decreases(s: Seq<u8>, i: int) {
    if 0 <= i < s.len() && !is_whitespace_byte(s[i]) {
        lemma_match_at_bounds(s, i);
    }
}

/// The full token stream of `s`.
pub open spec fn lex(s: Seq<u8>) -> Seq<TokenType> {
    lex_from(s, 0)
}

/// `digits_end` is pinned down by what it scans: everything before `d` is a
/// digit and `d` sits at the end or at a non-digit.
proof fn lemma_digits_end_char(s: Seq<u8>, i: int, d: int)
    requires
        0 <= i <= d <= s.len(),
        forall|k: int| i <= k < d ==> is_digit_byte(s[k]),
        d < s.len() ==> !is_digit_byte(s[d]),
    ensures
        digits_end(s, i) == d,
    decreases s.len() - i,
{
    if i < d {
        lemma_digits_end_char(s, i + 1, d);
    }
}

/// `quote_end` is pinned down likewise: `j` holds the first `"`.
proof fn lemma_quote_end_char(s: Seq<u8>, i: int, j: int)
    requires
        0 <= i <= j < s.len(),
        s[j] == 34,
        forall|k: int| i <= k < j ==> s[k] != 34,
    ensures
        quote_end(s, i) == Some(j),
    decreases s.len() - i,
{
    if i < j {
        lemma_quote_end_char(s, i + 1, j);
    }
}

/// A token that the scan of `s` produced: its span is non-empty, lies inside
/// `s`, and is exactly the longest match at its own start.
#[verifier::opaque]
pub open spec fn token_from_source(s: Seq<u8>, t: TokenType) -> bool {
    &&& t.span.start < t.span.end <= s.len()
    &&& match_at(s, t.span.start as int) == Some((t.tokentype, t.span.end as int))
}

/// The tokens `ts`, read in order, are a valid scan record of `s` from
/// position `i` on: each is the longest match at its own start, the first
/// starts at or after `i`, and each further one starts at or after the
/// previous one's end.
pub open spec fn tokens_from(s: Seq<u8>, i: int, ts: Seq<TokenType>) -> bool
    decreases ts.len(),
{
    ts.len() == 0 || {
        &&& i <= ts[0].span.start
        &&& token_from_source(s, ts[0])
        &&& tokens_from(s, ts[0].span.end as int, ts.subrange(1, ts.len() as int))
    }
}

/// A scan record from a later position is one from any earlier position.
proof fn lemma_tokens_from_weaken(s: Seq<u8>, i: int, i2: int, ts: Seq<TokenType>)
    requires
        tokens_from(s, i2, ts),
        i <= i2,
    ensures
        tokens_from(s, i, ts),
{
}

/// What the scan of `s` produces from `i` on is a valid scan record.
pub proof fn lemma_lex_from_tokens(s: Seq<u8>, i: int)
    requires
        0 <= i <= s.len(),
        s.len() <= usize::MAX,
    ensures
        tokens_from(s, i, lex_from(s, i)),
    decreases s.len() - i,
{
    if !(0 <= i < s.len()) {
    } else if is_whitespace_byte(s[i]) {
        lemma_lex_from_tokens(s, i + 1);
        lemma_tokens_from_weaken(s, i, i + 1, lex_from(s, i + 1));
    } else {
        match match_at(s, i) {
            Some(r) => {
                lemma_match_at_bounds(s, i);
                lemma_lex_from_tokens(s, r.1);
                let head = TokenType {
                    tokentype: r.0,
                    span: Span { start: i as usize, end: r.1 as usize },
                };
                let rest = lex_from(s, r.1);
                let whole = seq![head] + rest;
                assert(lex_from(s, i) == whole);
                assert(token_from_source(s, head)) by {
                    reveal(token_from_source);
                }
                assert(whole.subrange(1, whole.len() as int) =~= rest);
            },
            None => {
                lemma_lex_from_tokens(s, i + 1);
                lemma_tokens_from_weaken(s, i, i + 1, lex_from(s, i + 1));
            },
        }
    }
}

/// A recorded token has a non-empty span inside the source.
pub proof fn lemma_token_from_source_bounds(s: Seq<u8>, t: TokenType)
    requires
        token_from_source(s, t),
    ensures
        t.span.start < t.span.end <= s.len(),
{
    reveal(token_from_source);
}

/// A valid scan record, token by token: every token is the longest match at
/// its own start, and the spans are non-overlapping and increasing.
#[verifier::rlimit(60)]
pub proof fn lemma_tokens_from_index(s: Seq<u8>, i: int, ts: Seq<TokenType>)
    requires
        tokens_from(s, i, ts),
    ensures
        forall|k: int|
            0 <= k < ts.len() ==> i <= (#[trigger] ts[k]).span.start
                && token_from_source(s, ts[k]),
        forall|k: int|
            0 <= k < ts.len() - 1 ==> (#[trigger] ts[k]).span.end <= ts[k + 1].span.start,
    decreases ts.len(),
{
    if ts.len() > 0 {
        let tail = ts.subrange(1, ts.len() as int);
        lemma_tokens_from_index(s, ts[0].span.end as int, tail);
        lemma_token_from_source_bounds(s, ts[0]);
        assert forall|k: int|
            0 <= k < ts.len() implies i <= (#[trigger] ts[k]).span.start && token_from_source(
            s,
            ts[k],
        ) by {
            if k > 0 {
                assert(ts[k] == tail[k - 1]);
            }
        }
        assert forall|k: int|
            0 <= k < ts.len() - 1 implies (#[trigger] ts[k]).span.end <= ts[k + 1].span.start by {
            if k == 0 {
                assert(ts[1] == tail[0]);
            } else {
                assert(ts[k] == tail[k - 1]);
                assert(ts[k + 1] == tail[k]);
            }
        }
    }
}

/// Spans of a lexed stream are non-empty, lie inside the source, and are
/// non-overlapping and strictly increasing in `start` across the stream.
pub proof fn lemma_lex_spans_ordered(s: Seq<u8>)
    requires
        s.len() <= usize::MAX,
    ensures
        forall|k: int|
            0 <= k < lex(s).len() ==> (#[trigger] lex(s)[k]).span.start < lex(s)[k].span.end
                <= s.len(),
        forall|k: int|
            0 <= k < lex(s).len() - 1 ==> (#[trigger] lex(s)[k]).span.end <= lex(s)[k
                + 1].span.start,
{
    lemma_lex_from_tokens(s, 0);
    lemma_tokens_from_index(s, 0, lex(s));
    assert forall|k: int| 0 <= k < lex(s).len() implies (#[trigger] lex(s)[k]).span.start < lex(
        s,
    )[k].span.end <= s.len() by {
        lemma_token_from_source_bounds(s, lex(s)[k]);
    }
}

/// No rule matches at a whitespace byte.
proof fn lemma_ws_no_match(s: Seq<u8>, i: int)
    requires
        0 <= i < s.len(),
        is_whitespace_byte(s[i]),
    ensures
        match_at(s, i) is None,
{
    if has_bytes(s, i, kw_return()) {
        assert(s.subrange(i, i + 6)[0] == s[i]);
    }
    if has_bytes(s, i, kw_false()) {
        assert(s.subrange(i, i + 5)[0] == s[i]);
    }
    if has_bytes(s, i, kw_while()) {
        assert(s.subrange(i, i + 5)[0] == s[i]);
    }
    if has_bytes(s, i, kw_true()) {
        assert(s.subrange(i, i + 4)[0] == s[i]);
    }
    if has_bytes(s, i, kw_else()) {
        assert(s.subrange(i, i + 4)[0] == s[i]);
    }
    if has_bytes(s, i, kw_and()) {
        assert(s.subrange(i, i + 3)[0] == s[i]);
    }
    if has_bytes(s, i, kw_not()) {
        assert(s.subrange(i, i + 3)[0] == s[i]);
    }
    if has_bytes(s, i, kw_for()) {
        assert(s.subrange(i, i + 3)[0] == s[i]);
    }
    if has_bytes(s, i, kw_if()) {
        assert(s.subrange(i, i + 2)[0] == s[i]);
    }
    if has_bytes(s, i, kw_or()) {
        assert(s.subrange(i, i + 2)[0] == s[i]);
    }
}

/// A keyword lexeme, taken alone, is the same keyword again.
#[verifier::rlimit(80)]
proof fn lemma_keyword_at_local(s: Seq<u8>, st: int, tok: Token, en: int)
    requires
        0 <= st < en <= s.len(),
        keyword_at(s, st) == Some((tok, en)),
    ensures
        keyword_at(s.subrange(st, en), 0) == Some((tok, en - st)),
{
    let sub = s.subrange(st, en);
    if has_bytes(s, st, kw_return()) {
        assert(sub =~= kw_return());
        assert(sub.subrange(0, 6) =~= sub);
    } else if has_bytes(s, st, kw_false()) {
        assert(sub =~= kw_false());
        assert(sub.subrange(0, 5) =~= sub);
    } else if has_bytes(s, st, kw_while()) {
        assert(sub =~= kw_while());
        assert(sub.subrange(0, 5) =~= sub);
    } else if has_bytes(s, st, kw_true()) {
        assert(sub =~= kw_true());
        assert(sub.subrange(0, 4) =~= sub);
    } else if has_bytes(s, st, kw_else()) {
        assert(sub =~= kw_else());
        assert(sub.subrange(0, 4) =~= sub);
    } else if has_bytes(s, st, kw_and()) {
        assert(sub =~= kw_and());
        assert(sub.subrange(0, 3) =~= sub);
    } else if has_bytes(s, st, kw_not()) {
        assert(sub =~= kw_not());
        assert(sub.subrange(0, 3) =~= sub);
    } else if has_bytes(s, st, kw_for()) {
        assert(sub =~= kw_for());
        assert(sub.subrange(0, 3) =~= sub);
    } else if has_bytes(s, st, kw_if()) {
        assert(sub =~= kw_if());
        assert(sub.subrange(0, 2) =~= sub);
    } else if has_bytes(s, st, kw_or()) {
        assert(sub =~= kw_or());
        assert(sub.subrange(0, 2) =~= sub);
    }
}

/// A lexeme, taken alone, is the same token again: the longest match at the
/// start of `s.subrange(st, en)` is `tok`, covering all of it.
#[verifier::rlimit(100)]
pub proof fn lemma_match_at_local(s: Seq<u8>, st: int, tok: Token, en: int)
    requires
        0 <= st < en <= s.len(),
        match_at(s, st) == Some((tok, en)),
    ensures
        match_at(s.subrange(st, en), 0) == Some((tok, en - st)),
{
    let sub = s.subrange(st, en);
    let b = s[st];
    assert(sub[0] == b);
    if is_digit_byte(b) {
        let j = digits_end(s, st);
        lemma_digits_end(s, st);
        if j + 1 < s.len() && s[j] == 46 && is_digit_byte(s[j + 1]) {
            let k = digits_end(s, j + 1);
            lemma_digits_end(s, j + 1);
            lemma_digits_end_char(sub, 0, j - st);
            lemma_digits_end_char(sub, j - st + 1, en - st);
        } else {
            lemma_digits_end_char(sub, 0, en - st);
        }
    } else if b == 34 {
        lemma_quote_end(s, st + 1);
        lemma_quote_end_char(sub, 1, en - st - 1);
    } else if b == 33 || b == 60 || b == 62 || b == 61 {
        if en == st + 2 {
            assert(sub[1] == s[st + 1]);
        }
    } else if b == 43 || b == 45 || b == 42 || b == 47 || b == 37 || b == 40 || b == 41 || b == 91
        || b == 93 || b == 123 || b == 125 || b == 46 || b == 44 || b == 59 {
    } else {
        lemma_keyword_at_local(s, st, tok, en);
    }
}

/// Re-lexing one materialized lexeme reproduces its token: for each token of
/// the stream of `s`, the slice of `s` under its span lexes to exactly that
/// token, rebased to the start of the slice.
#[verifier::rlimit(100)]
pub proof fn lemma_relex_token(s: Seq<u8>, k: int)
    requires
        s.len() <= usize::MAX,
        0 <= k < lex(s).len(),
    ensures
        ({
            let t = lex(s)[k];
            lex(s.subrange(t.span.start as int, t.span.end as int)) == seq![
                TokenType {
                    tokentype: t.tokentype,
                    span: Span { start: 0, end: (t.span.end - t.span.start) as usize },
                },
            ]
        }),
{
    lemma_lex_from_tokens(s, 0);
    lemma_tokens_from_index(s, 0, lex(s));
    let t = lex(s)[k];
    lemma_token_from_source_bounds(s, t);
    let st = t.span.start as int;
    let en = t.span.end as int;
    assert(match_at(s, st) == Some((t.tokentype, en))) by {
        reveal(token_from_source);
    }
    if is_whitespace_byte(s[st]) {
        lemma_ws_no_match(s, st);
    }
    lemma_match_at_local(s, st, t.tokentype, en);
    let sub = s.subrange(st, en);
    let head = TokenType {
        tokentype: t.tokentype,
        span: Span { start: 0, end: (t.span.end - t.span.start) as usize },
    };
    assert(sub.len() == en - st);
    assert(!is_whitespace_byte(sub[0]));
    assert(match_at(sub, 0) == Some((t.tokentype, en - st)));
    assert(lex_from(sub, en - st) == Seq::<TokenType>::empty());
    assert(lex_from(sub, 0) == seq![head] + lex_from(sub, en - st));
    assert(lex(sub) =~= seq![
        TokenType {
            tokentype: t.tokentype,
            span: Span { start: 0, end: (t.span.end - t.span.start) as usize },
        },
    ]);
}

/// Scans the run of digits that starts at `i`.
fn scan_digits(source: &[u8], i: usize) -> (j: usize)
    requires
        i <= source@.len(),
    ensures
        j == digits_end(source@, i as int),
        i <= j <= source@.len(),
{
    let mut j: usize = i;
    while j < source.len() && 48 <= source[j] && source[j] <= 57
        invariant
            i <= j <= source@.len(),
            digits_end(source@, i as int) == digits_end(source@, j as int),
        decreases source@.len() - j,
    {
        j = j + 1;
    }
    j
}

/// Scans for the first `"` at or after `i`.
fn find_quote(source: &[u8], i: usize) -> (r: Option<usize>)
    requires
        i <= source@.len(),
    ensures
        match r {
            Some(j) => quote_end(source@, i as int) == Some(j as int) && i <= j
                < source@.len(),
            None => quote_end(source@, i as int) is None,
        },
{
    let mut j: usize = i;
    while j < source.len() && source[j] != 34
        invariant
            i <= j <= source@.len(),
            quote_end(source@, i as int) == quote_end(source@, j as int),
        decreases source@.len() - j,
    {
        j = j + 1;
    }
    if j < source.len() {
        Some(j)
    } else {
        None
    }
}

/// Whether the bytes of `w` occur in `source` starting at `i`.
fn bytes_at(source: &[u8], i: usize, w: &Vec<u8>) -> (r: bool)
    requires
        i <= source@.len(),
    ensures
        r == has_bytes(source@, i as int, w@),
{
    if w.len() > source.len() - i {
        return false;
    }
    let n = source.len();
    proof {
        assert(source@.len() == n);
    }
    let mut k: usize = 0;
    while k < w.len()
        invariant
            0 <= k <= w@.len(),
            i + w@.len() <= source@.len() <= usize::MAX,
            forall|m: int| 0 <= m < k ==> source@[i + m] == w@[m],
        decreases w@.len() - k,
    {
        if source[i + k] != w[k] {
            proof {
                assert(source@.subrange(i as int, i + w@.len())[k as int] == source@[i + k]);
            }
            return false;
        }
        k = k + 1;
    }
    proof {
        assert(source@.subrange(i as int, i + w@.len()) =~= w@);
    }
    true
}

/// The keyword that starts at `i`, if any, mirroring `keyword_at`.
fn keyword_token_at(source: &[u8], i: usize) -> (r: Option<(Token, usize)>)
    requires
        i < source@.len(),
    ensures
        match r {
            Some(p) => keyword_at(source@, i as int) == Some((p.0, p.1 as int)),
            None => keyword_at(source@, i as int) is None,
        },
{
    let n = source.len();
    proof {
        assert(source@.len() == n);
    }
    let w_return: Vec<u8> = vec![114, 101, 116, 117, 114, 110];
    let w_false: Vec<u8> = vec![102, 97, 108, 115, 101];
    let w_while: Vec<u8> = vec![119, 104, 105, 108, 101];
    let w_true: Vec<u8> = vec![116, 114, 117, 101];
    let w_else: Vec<u8> = vec![101, 108, 115, 101];
    let w_and: Vec<u8> = vec![97, 110, 100];
    let w_not: Vec<u8> = vec![110, 111, 116];
    let w_for: Vec<u8> = vec![102, 111, 114];
    let w_if: Vec<u8> = vec![105, 102];
    let w_or: Vec<u8> = vec![111, 114];
    proof {
        assert(w_return@ =~= kw_return());
        assert(w_false@ =~= kw_false());
        assert(w_while@ =~= kw_while());
        assert(w_true@ =~= kw_true());
        assert(w_else@ =~= kw_else());
        assert(w_and@ =~= kw_and());
        assert(w_not@ =~= kw_not());
        assert(w_for@ =~= kw_for());
        assert(w_if@ =~= kw_if());
        assert(w_or@ =~= kw_or());
    }
    if bytes_at(source, i, &w_return) {
        Some((Token::Return, i + 6))
    } else if bytes_at(source, i, &w_false) {
        Some((Token::False, i + 5))
    } else if bytes_at(source, i, &w_while) {
        Some((Token::While, i + 5))
    } else if bytes_at(source, i, &w_true) {
        Some((Token::True, i + 4))
    } else if bytes_at(source, i, &w_else) {
        Some((Token::Else, i + 4))
    } else if bytes_at(source, i, &w_and) {
        Some((Token::And, i + 3))
    } else if bytes_at(source, i, &w_not) {
        Some((Token::Not, i + 3))
    } else if bytes_at(source, i, &w_for) {
        Some((Token::For, i + 3))
    } else if bytes_at(source, i, &w_if) {
        Some((Token::If, i + 2))
    } else if bytes_at(source, i, &w_or) {
        Some((Token::Or, i + 2))
    } else {
        None
    }
}

/// The longest token match at `i`, mirroring `match_at`.
fn match_token_at(source: &[u8], i: usize) -> (r: Option<(Token, usize)>)
    requires
        i < source@.len(),
    ensures
        match r {
            Some(p) => match_at(source@, i as int) == Some((p.0, p.1 as int)),
            None => match_at(source@, i as int) is None,
        },
{
    let b = source[i];
    if 48 <= b && b <= 57 {
        let j = scan_digits(source, i);
        if j < source.len() && source[j] == 46 && j + 1 < source.len() && 48 <= source[j + 1]
            && source[j + 1] <= 57 {
            let k = scan_digits(source, j + 1);
            Some((Token::Float, k))
        } else {
            Some((Token::Integer, j))
        }
    } else if b == 34 {
        match find_quote(source, i + 1) {
            Some(j) => Some((Token::StringLit, j + 1)),
            None => None,
        }
    } else if b == 33 {
        if i + 1 < source.len() && source[i + 1] == 61 {
            Some((Token::BangEqual, i + 2))
        } else {
            Some((Token::Bang, i + 1))
        }
    } else if b == 60 {
        if i + 1 < source.len() && source[i + 1] == 61 {
            Some((Token::LessEqual, i + 2))
        } else {
            Some((Token::Less, i + 1))
        }
    } else if b == 62 {
        if i + 1 < source.len() && source[i + 1] == 61 {
            Some((Token::GreaterEqual, i + 2))
        } else {
            Some((Token::Greater, i + 1))
        }
    } else if b == 61 {
        if i + 1 < source.len() && source[i + 1] == 61 {
            Some((Token::EqualComparison, i + 2))
        } else {
            Some((Token::Bind, i + 1))
        }
    } else if b == 43 {
        Some((Token::Plus, i + 1))
    } else if b == 45 {
        Some((Token::Minus, i + 1))
    } else if b == 42 {
        Some((Token::Multiply, i + 1))
    } else if b == 47 {
        Some((Token::Divide, i + 1))
    } else if b == 37 {
        Some((Token::Modulus, i + 1))
    } else if b == 40 {
        Some((Token::LeftParen, i + 1))
    } else if b == 41 {
        Some((Token::RightParen, i + 1))
    } else if b == 91 {
        Some((Token::LeftBracket, i + 1))
    } else if b == 93 {
        Some((Token::RightBracket, i + 1))
    } else if b == 123 {
        Some((Token::LeftBrace, i + 1))
    } else if b == 125 {
        Some((Token::RightBrace, i + 1))
    } else if b == 46 {
        Some((Token::Dot, i + 1))
    } else if b == 44 {
        Some((Token::Comma, i + 1))
    } else if b == 59 {
        Some((Token::Semicolon, i + 1))
    } else {
        keyword_token_at(source, i)
    }
}

/// Lexes a whole source buffer into its token stream: longest-match-wins,
/// whitespace discarded, unmatched bytes skipped.
pub fn tokenize(source: &[u8]) -> (r: Vec<TokenType>)
    ensures
        r@ == lex(source@),
{
    let mut tokens: Vec<TokenType> = Vec::new();
    let mut i: usize = 0;
    while i < source.len()
        invariant
            i <= source@.len(),
            tokens@ + lex_from(source@, i as int) == lex(source@),
        decreases source@.len() - i,
    {
        let b = source[i];
        if b == 32 || b == 9 || b == 10 || b == 12 {
            i = i + 1;
        } else {
            match match_token_at(source, i) {
                Some((t, j)) => {
                    proof {
                        lemma_match_at_bounds(source@, i as int);
                    }
                    let tok = TokenType { tokentype: t, span: Span { start: i, end: j } };
                    proof {
                        assert((tokens@ + seq![tok]) + lex_from(source@, j as int) =~= tokens@
                            + lex_from(source@, i as int));
                    }
                    tokens.push(tok);
                    i = j;
                },
                None => {
                    i = i + 1;
                },
            }
        }
    }
    proof {
        assert(tokens@ + lex_from(source@, i as int) =~= tokens@);
    }
    tokens
}

} // verus!
