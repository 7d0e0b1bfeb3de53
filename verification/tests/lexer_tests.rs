use rox::lexer::Lexer;
use rox::lexer::tokenize_with_context;
use rox::token::Token;

fn tokenize(src: &str) -> Vec<Token> {
    tokenize_with_context(src).iter().map(|t| t.value()).collect()
}

#[test]
fn test() {
    assert_eq!(
        tokenize("()"),
        vec![Token::LeftParen, Token::RightParen, Token::Eof]
    );

    assert_eq!(
        tokenize("=(!) != ! == > < <= >=[[]]"),
        vec![
            Token::Equal,
            Token::LeftParen,
            Token::Not,
            Token::RightParen,
            Token::NotEqual,
            Token::Not,
            Token::EqualEqual,
            Token::Greater,
            Token::Less,
            Token::LessEqual,
            Token::GreaterEqual,
            Token::LeftBracket,
            Token::LeftBracket,
            Token::RightBracket,
            Token::RightBracket,
            Token::Eof,
        ]
    );

    assert_eq!(
        tokenize("fun sayhello() { print \"hello\"; }"),
        vec![
            Token::Fun,
            Token::Identifier,
            Token::LeftParen,
            Token::RightParen,
            Token::LeftBrace,
            Token::Print,
            Token::String,
            Token::Semicolon,
            Token::RightBrace,
            Token::Eof,
        ]
    );

    assert_eq!(
        tokenize("fun _count() { for (let i = 0; i < 10; i = i + 1) { print i; } }"),
        vec![
            Token::Fun,        // fun
            Token::Identifier, // count
            Token::LeftParen,  // (
            Token::RightParen, // )
            Token::LeftBrace,  // {
            Token::For,        // for
            Token::LeftParen,  // (
            Token::Let,        // let
            Token::Identifier, // i
            Token::Equal,      // =
            Token::Number,     // 0
            Token::Semicolon,  // ;
            Token::Identifier, // i
            Token::Less,       // <
            Token::Number,     // 10
            Token::Semicolon,  // ;
            Token::Identifier, // i
            Token::Equal,      // =
            Token::Identifier, // i
            Token::Plus,       // +
            Token::Number,     // 1
            Token::RightParen, // )
            Token::LeftBrace,  // {
            Token::Print,      // print
            Token::Identifier, // i
            Token::Semicolon,  // ;
            Token::RightBrace, // }
            Token::RightBrace, // }
            Token::Eof,
        ]
    )
}

/// Tokenization is total and the last token, and only the last, is `Eof`.
#[test]
fn tokenize_always_ends_with_one_eof() {
    for src in [
        "",
        " \t\r\n",
        "@#$%^&",
        "\"unterminated",
        "\"\"",
        "1.",
        "1.2.3",
        "// only a comment",
        "// a\n// b\nprint 1;",
        "let _x = nil;",
        "___",
        "and or not",
    ] {
        let tokens = tokenize(src);
        assert!(tokens.len() >= 1);
        assert_eq!(*tokens.last().unwrap(), Token::Eof);
        for t in &tokens[..tokens.len() - 1] {
            assert_ne!(*t, Token::Eof);
        }
    }
}

#[test]
fn comments_and_whitespace_alternate() {
    assert_eq!(
        tokenize("// a\n  // b\n  1 // trailing"),
        vec![Token::Number, Token::Eof]
    );
}

#[test]
fn unknown_character_yields_error_token() {
    assert_eq!(tokenize("@"), vec![Token::Error, Token::Eof]);
    assert_eq!(tokenize("1 @ 2"), vec![Token::Number, Token::Error, Token::Number, Token::Eof]);
}

#[test]
fn unterminated_string_is_a_string_token() {
    assert_eq!(tokenize("\"abc"), vec![Token::String, Token::Eof]);
}

#[test]
fn identifier_digit_split() {
    // identifier continuation characters are letters and underscores only
    assert_eq!(tokenize("a1"), vec![Token::Identifier, Token::Number, Token::Eof]);
}

#[test]
fn spans_cover_the_token_text() {
    let tokens = tokenize_with_context("let abc = 42;");
    // "abc" occupies offsets 4..=6
    assert_eq!(tokens[1].value(), Token::Identifier);
    assert_eq!(tokens[1].start_pos(), 4);
    assert_eq!(tokens[1].end_pos(), 6);
    // "42" occupies offsets 10..=11
    assert_eq!(tokens[3].value(), Token::Number);
    assert_eq!(tokens[3].start_pos(), 10);
    assert_eq!(tokens[3].end_pos(), 11);
}

#[test]
fn lexer_over_a_character_vector() {
    let mut lexer = Lexer::new(vec!['1', ' ', '+', ' ', '2']);
    let kinds: Vec<Token> = lexer
        .tokenize_with_context()
        .iter()
        .map(|t| t.value())
        .collect();
    assert_eq!(kinds, vec![Token::Number, Token::Plus, Token::Number, Token::Eof]);
}
