use inflang::lexer::{Lexer, ScanKind, SyntaxError, Token, TokenType};

fn tokens(source: &str) -> Vec<(TokenType, String)> {
    let mut lexer = Lexer::new(source.to_string());
    let mut out = Vec::new();
    loop {
        let Token { token_type, value } = lexer.next_token().expect("a token");
        let done = token_type == TokenType::EOF;
        out.push((token_type, value));
        if done {
            return out;
        }
    }
}

fn kinds(source: &str) -> Vec<TokenType> {
    tokens(source).into_iter().map(|(kind, _)| kind).collect()
}

fn first_error(source: &str) -> SyntaxError {
    let mut lexer = Lexer::new(source.to_string());
    loop {
        match lexer.next_token() {
            Ok(token) => assert_ne!(token.token_type, TokenType::EOF, "no failure in {:?}", source),
            Err(e) => return e,
        }
    }
}

#[test]
fn empty_source_is_end_of_file() {
    assert_eq!(kinds(""), vec![TokenType::EOF]);
    assert_eq!(kinds("  \n\t "), vec![TokenType::EOF]);
    let mut lexer = Lexer::new(String::new());
    assert_eq!(lexer.next_token().expect("a token").token_type, TokenType::EOF);
    assert_eq!(lexer.next_token().expect("a token").token_type, TokenType::EOF);
}

#[test]
fn punctuation_tokens() {
    assert_eq!(
        kinds("( ) ; = , { } [ ]"),
        vec![
            TokenType::LParen,
            TokenType::RParen,
            TokenType::Semicolon,
            TokenType::AssignmentOperator,
            TokenType::Comma,
            TokenType::LCurlyBrace,
            TokenType::RCurlyBrace,
            TokenType::LSquareBracket,
            TokenType::RSquareBracket,
            TokenType::EOF,
        ]
    );
}

#[test]
fn keywords_and_identifiers() {
    assert_eq!(
        tokens("let if else true false fn while lets x_1 + <"),
        vec![
            (TokenType::Let, String::new()),
            (TokenType::If, String::new()),
            (TokenType::Else, String::new()),
            (TokenType::True, String::new()),
            (TokenType::False, String::new()),
            (TokenType::Fn, String::new()),
            (TokenType::While, String::new()),
            (TokenType::Identifier, "lets".to_string()),
            (TokenType::Identifier, "x_1".to_string()),
            (TokenType::Identifier, "+".to_string()),
            (TokenType::Identifier, "<".to_string()),
            (TokenType::EOF, String::new()),
        ]
    );
}

#[test]
fn integers_and_strings() {
    assert_eq!(
        tokens("12 007 \"a b;\" \"\""),
        vec![
            (TokenType::Integer, "12".to_string()),
            (TokenType::Integer, "007".to_string()),
            (TokenType::StringLiteral, "a b;".to_string()),
            (TokenType::StringLiteral, String::new()),
            (TokenType::EOF, String::new()),
        ]
    );
}

#[test]
fn tokens_end_at_delimiters() {
    assert_eq!(
        tokens("+(x,12);"),
        vec![
            (TokenType::Identifier, "+".to_string()),
            (TokenType::LParen, String::new()),
            (TokenType::Identifier, "x".to_string()),
            (TokenType::Comma, String::new()),
            (TokenType::Integer, "12".to_string()),
            (TokenType::RParen, String::new()),
            (TokenType::Semicolon, String::new()),
            (TokenType::EOF, String::new()),
        ]
    );
}

#[test]
fn an_equals_sign_is_a_token_of_its_own_at_the_start_only() {
    assert_eq!(
        tokens("=x a=b"),
        vec![
            (TokenType::AssignmentOperator, String::new()),
            (TokenType::Identifier, "x".to_string()),
            (TokenType::Identifier, "a=b".to_string()),
            (TokenType::EOF, String::new()),
        ]
    );
}

#[test]
fn comments_run_to_the_end_of_the_line() {
    assert_eq!(
        kinds("% nothing here\nlet % nor here"),
        vec![TokenType::Let, TokenType::EOF]
    );
    assert_eq!(kinds("%"), vec![TokenType::EOF]);
    assert_eq!(kinds("%\n%\n1"), vec![TokenType::Integer, TokenType::EOF]);
}

#[test]
fn unicode_white_space_is_skipped() {
    assert_eq!(kinds("\u{a0}1\u{2003}2\u{3000}"), vec![
        TokenType::Integer,
        TokenType::Integer,
        TokenType::EOF
    ]);
    for c in ['\u{9}', '\u{b}', '\u{c}', '\u{d}', '\u{85}', '\u{1680}', '\u{2028}', '\u{205f}'] {
        assert!(c.is_whitespace());
        assert!(inflang::lexer::is_whitespace(c));
    }
    for c in ['a', '0', '\u{200b}', '\u{feff}', '\u{1c}', '\u{180e}'] {
        assert_eq!(inflang::lexer::is_whitespace(c), c.is_whitespace());
    }
}

#[test]
fn white_space_agrees_with_the_standard_library_everywhere() {
    for code in 0u32..=0x10ffff {
        if let Some(c) = char::from_u32(code) {
            assert_eq!(inflang::lexer::is_whitespace(c), c.is_whitespace(), "U+{:04X}", code);
        }
    }
}

#[test]
fn unexpected_character_in_a_word() {
    let e = first_error("ab#c");
    assert!(matches!(
        &e,
        SyntaxError::UnexpectedCharacter(scanned, '#', ScanKind::Word) if scanned == "ab"
    ));
    assert_eq!(e.message(), "`ab`: unexpected `#` while scanning identifier/keyword");
}

#[test]
fn unexpected_character_in_an_integer() {
    let e = first_error("12x");
    assert!(matches!(
        &e,
        SyntaxError::UnexpectedCharacter(scanned, 'x', ScanKind::Integer) if scanned == "12"
    ));
    assert_eq!(e.message(), "`12`: unexpected `x` while scanning integer");
}

#[test]
fn unterminated_string() {
    let e = first_error("\"abc");
    assert!(matches!(&e, SyntaxError::UnterminatedString(scanned) if scanned == "abc"));
    assert_eq!(e.message(), "`\"abc`: unterminated string literal, got EOF");
}

#[test]
fn token_display_forms() {
    let show = |token_type, value: &str| Token { token_type, value: value.to_string() }.render();
    assert_eq!(show(TokenType::StringLiteral, "hi"), "\"hi\"");
    assert_eq!(show(TokenType::Identifier, "x"), "x");
    assert_eq!(show(TokenType::Integer, "12"), "12");
    assert_eq!(show(TokenType::EOF, ""), "end of file");
    assert_eq!(show(TokenType::LCurlyBrace, ""), "{");
    assert_eq!(TokenType::StringLiteral.name(), "string literal");
    assert_eq!(TokenType::AssignmentOperator.name(), "=");
}

#[test]
fn messages_of_character_level_failures() {
    assert_eq!(SyntaxError::ExpectedCharacter('"', 'x').message(), "expected `\"`, got `x`");
    assert_eq!(
        SyntaxError::ExpectedText("let".to_string(), "le".to_string()).message(),
        "expected `let`, got `le` instead"
    );
    assert_eq!(SyntaxError::NoRemainingCharacters.message(), "no remaining characters");
}

#[test]
fn next_token_after_a_failure_goes_on_behind_it() {
    let mut lexer = Lexer::new("a#b c".to_string());
    assert!(lexer.next_token().is_err());
    let token = lexer.next_token().expect("a token");
    assert_eq!((token.token_type, token.value.as_str()), (TokenType::Identifier, "b"));
    let copy = token.clone();
    assert_eq!((copy.token_type, copy.value), (token.token_type, token.value));
}

#[test]
fn cursor_reads_characters() {
    let mut lexer = Lexer::new("ab\u{e9}d".to_string());
    assert_eq!(lexer.peek(2), vec!['a', 'b']);
    assert_eq!(lexer.peek_one(), Some('a'));
    assert_eq!(lexer.take(3), vec!['a', 'b', '\u{e9}']);
    assert_eq!(lexer.take_one(), Some('d'));
    assert_eq!(lexer.take_one(), None);
    assert_eq!(lexer.peek(5), Vec::<char>::new());
    lexer.rewind(3);
    assert_eq!(lexer.peek(10), vec!['b', '\u{e9}', 'd']);
    lexer.rewind(10);
    assert_eq!(lexer.peek_one(), Some('a'));
    lexer.consume(1);
    assert_eq!(lexer.peek_one(), Some('b'));
    lexer.consume(usize::MAX);
    assert_eq!(lexer.peek_one(), None);
}

#[test]
fn cursor_skips_white_space() {
    let mut lexer = Lexer::new(" \t\n x ".to_string());
    lexer.skip_whitespace();
    assert_eq!(lexer.peek_one(), Some('x'));
    lexer.skip_whitespace();
    assert_eq!(lexer.take_one(), Some('x'));
    lexer.skip_whitespace();
    assert_eq!(lexer.peek_one(), None);
}

#[test]
fn cursor_expects_characters_and_texts() {
    let mut lexer = Lexer::new("let x".to_string());
    assert!(lexer.expect("let".to_string()).is_ok());
    assert!(lexer.expect_ch(' ').is_ok());
    let e = lexer.expect_ch('y').expect_err("another character");
    assert!(matches!(e, SyntaxError::ExpectedCharacter('y', 'x')));
    let e = lexer.expect_ch('y').expect_err("the end");
    assert!(matches!(e, SyntaxError::NoRemainingCharacters));
    lexer.rewind(2);
    let e = lexer.expect("xy".to_string()).expect_err("another text");
    assert!(matches!(&e, SyntaxError::ExpectedText(wanted, found) if wanted == "xy" && found == " x"));
    assert_eq!(e.message(), "expected `xy`, got ` x` instead");
}
