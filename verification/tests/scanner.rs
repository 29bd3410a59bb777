use rust_lox::lex::error::TokenError;
use rust_lox::lex::{Scanner, Span, Token, TokenType};

#[test]
fn lexer_peek() {
    let input = "(";
    let scanner = Scanner::new(input);
    assert_eq!(scanner.peek().unwrap(), b'(');
}

#[test]
fn lexer_whitespace() {
    let input = "  (";
    let mut scanner = Scanner::new(input);
    scanner.skip_whitespace();
    assert_eq!(scanner.peek().unwrap(), b'(');
}

#[test]
fn lexer_read_char() {
    let input = "(";
    let mut scanner = Scanner::new(input);
    assert_eq!(scanner.read_char().unwrap(), b'(');
}

#[test]
fn lexer_paren() {
    let input = "(";
    let mut scanner = Scanner::new(input);
    let token = Token::new(TokenType::LeftParen, "(", 1, Span { begin: 0, end: 1 });
    assert_eq!(token, scanner.scan_token().unwrap());
}

#[test]
fn lexer_composite() {
    let input = "!= ! !=";
    let mut scanner = Scanner::new(input);
    let mut span = Span { begin: 0, end: 2 };
    let mut token = Token::new(TokenType::BangEqual, "!=", 1, span);
    assert_eq!(token, scanner.scan_token().unwrap());
    span = Span { begin: 3, end: 4 };
    token = Token::new(TokenType::Bang, "!", 1, span);
    assert_eq!(token, scanner.scan_token().unwrap());
    span = Span { begin: 5, end: 7 };
    token = Token::new(TokenType::BangEqual, "!=", 1, span);
    assert_eq!(token, scanner.scan_token().unwrap());
}

#[test]
fn lexer_number() {
    let input = "1234.123 123";
    let mut scanner = Scanner::new(input);
    let mut span = Span { begin: 0, end: 8 };
    let mut token = Token::new(TokenType::Number, "1234.123", 1, span);
    assert_eq!(token, scanner.scan_token().unwrap());
    span = Span { begin: 9, end: 12 };
    token = Token::new(TokenType::Number, "123", 1, span);
    assert_eq!(token, scanner.scan_token().unwrap());
}

#[test]
fn lexer_string() {
    let input = "\"test\" \"test";
    let mut scanner = Scanner::new(input);
    let span = Span { begin: 0, end: 6 };
    let token = Token::new(TokenType::String, "test", 1, span);
    assert_eq!(token, scanner.scan_token().unwrap());
    assert_eq!(None, scanner.scan_token().ok());
}

#[test]
fn lexer_ident() {
    let input = "test t123 class";
    let mut scanner = Scanner::new(input);
    let mut span = Span { begin: 0, end: 4 };
    let mut token = Token::new(TokenType::Ident, "test", 1, span);
    assert_eq!(token, scanner.scan_token().unwrap());
    span = Span { begin: 5, end: 9 };
    token = Token::new(TokenType::Ident, "t123", 1, span);
    assert_eq!(token, scanner.scan_token().unwrap());
    span = Span { begin: 10, end: 15 };
    token = Token::new(TokenType::Class, "class", 1, span);
    assert_eq!(token, scanner.scan_token().unwrap());
}

#[test]
fn mod_peek() {
    let input = "(";
    let scanner = Scanner::new(input);
    assert_eq!(scanner.peek().unwrap(), b'(');
}

#[test]
fn mod_whitespace() {
    let input = "  (";
    let mut scanner = Scanner::new(input);
    scanner.skip_whitespace();
    assert_eq!(scanner.peek().unwrap(), b'(');
}

#[test]
fn mod_read_char() {
    let input = "(";
    let mut scanner = Scanner::new(input);
    assert_eq!(scanner.read_char().unwrap(), b'(');
}

#[test]
fn mod_paren() {
    let input = "(";
    let mut scanner = Scanner::new(input);
    let token = Token::new(TokenType::LeftParen, "(", 1, Span { begin: 0, end: 1 });
    assert_eq!(token, scanner.scan_token().unwrap());
}

#[test]
fn mod_composite() {
    let input = "!= ! !=";
    let mut scanner = Scanner::new(input);
    let mut span = Span { begin: 0, end: 2 };
    let mut token = Token::new(TokenType::BangEqual, "!=", 1, span);
    assert_eq!(token, scanner.scan_token().unwrap());
    span = Span { begin: 3, end: 4 };
    token = Token::new(TokenType::Bang, "!", 1, span);
    assert_eq!(token, scanner.scan_token().unwrap());
    span = Span { begin: 5, end: 7 };
    token = Token::new(TokenType::BangEqual, "!=", 1, span);
    assert_eq!(token, scanner.scan_token().unwrap());
}

#[test]
fn mod_number() {
    let input = "1234.123 123";
    let mut scanner = Scanner::new(input);
    let mut span = Span { begin: 0, end: 8 };
    let mut token = Token::new(TokenType::Number, "1234.123", 1, span);
    assert_eq!(token, scanner.scan_token().unwrap());
    span = Span { begin: 9, end: 12 };
    token = Token::new(TokenType::Number, "123", 1, span);
    assert_eq!(token, scanner.scan_token().unwrap());
}

#[test]
fn mod_string() {
    let input = "\"test\" \"test";
    let mut scanner = Scanner::new(input);
    let span = Span { begin: 0, end: 6 };
    let token = Token::new(TokenType::String, "test", 1, span);
    assert_eq!(token, scanner.scan_token().unwrap());
    assert_eq!(
        Err(TokenError::NonTerminatedString("\"test".to_string())),
        scanner.scan_token()
    );
}

#[test]
fn mod_ident() {
    let input = "test t123 class";
    let mut scanner = Scanner::new(input);
    let mut span = Span { begin: 0, end: 4 };
    let mut token = Token::new(TokenType::Ident, "test", 1, span);
    assert_eq!(token, scanner.scan_token().unwrap());
    span = Span { begin: 5, end: 9 };
    token = Token::new(TokenType::Ident, "t123", 1, span);
    assert_eq!(token, scanner.scan_token().unwrap());
    span = Span { begin: 10, end: 15 };
    token = Token::new(TokenType::Class, "class", 1, span);
    assert_eq!(token, scanner.scan_token().unwrap());
}

#[test]
fn err() {
    let input = "💣";
    let mut scanner = Scanner::new(input);
    assert_eq!(
        Err(TokenError::UnexpectedToken("💣".to_string())),
        scanner.scan_token()
    );
}

#[test]
fn single_line_comment() {
    let mut scanner = Scanner::new("// This is a comment\nvar x");
    let span = Span { begin: 21, end: 24 };
    let token = Token::new(TokenType::Var, "var", 2, span);
    assert_eq!(token, scanner.scan_token().unwrap());
}

#[test]
fn scan() {
    let input = "1234.123 123";
    let mut scanner = Scanner::new(input);

    let tokens = scanner.scan_tokens().unwrap();
    let mut span = Span { begin: 0, end: 8 };
    let mut token = Token::new(TokenType::Number, "1234.123", 1, span);
    assert_eq!(token, tokens[0]);
    span = Span { begin: 9, end: 12 };
    token = Token::new(TokenType::Number, "123", 1, span);
    assert_eq!(token, tokens[1]);
    assert_eq!(tokens.len(), 3);
    assert_eq!(tokens[2].kind, TokenType::EOF);
}

#[test]
fn every_keyword_has_its_kind() {
    let source = "and class else false for fun if nil or print return super this true var while";
    let kinds = [
        TokenType::And,
        TokenType::Class,
        TokenType::Else,
        TokenType::False,
        TokenType::For,
        TokenType::Fun,
        TokenType::If,
        TokenType::Nil,
        TokenType::Or,
        TokenType::Print,
        TokenType::Return,
        TokenType::Super,
        TokenType::This,
        TokenType::True,
        TokenType::Var,
        TokenType::While,
        TokenType::EOF,
    ];
    let tokens = Scanner::new(source).scan_tokens().unwrap();
    let found: Vec<TokenType> = tokens.iter().map(|t| t.kind).collect();
    assert_eq!(found, kinds);
}

#[test]
fn punctuation_and_operators() {
    let source = "(){},.-+;/* ! != = == > >= < <=";
    let kinds = [
        TokenType::LeftParen,
        TokenType::RightParen,
        TokenType::LeftBrace,
        TokenType::RightBrace,
        TokenType::Comma,
        TokenType::Dot,
        TokenType::Minus,
        TokenType::Plus,
        TokenType::Semicolon,
        TokenType::Slash,
        TokenType::Star,
        TokenType::Bang,
        TokenType::BangEqual,
        TokenType::Equal,
        TokenType::EqualEqual,
        TokenType::Greater,
        TokenType::GreaterEqual,
        TokenType::Less,
        TokenType::LessEqual,
        TokenType::EOF,
    ];
    let tokens = Scanner::new(source).scan_tokens().unwrap();
    let found: Vec<TokenType> = tokens.iter().map(|t| t.kind).collect();
    assert_eq!(found, kinds);
}

#[test]
fn a_point_without_a_digit_ends_the_number() {
    let tokens = Scanner::new("12.x 3.").scan_tokens().unwrap();
    let found: Vec<(TokenType, &str)> = tokens.iter().map(|t| (t.kind, t.lexeme)).collect();
    assert_eq!(
        found,
        vec![
            (TokenType::Number, "12"),
            (TokenType::Dot, "."),
            (TokenType::Ident, "x"),
            (TokenType::Number, "3"),
            (TokenType::Dot, "."),
            (TokenType::EOF, "."),
        ]
    );
}

#[test]
fn a_string_may_span_lines() {
    let mut scanner = Scanner::new("\"a\nb\" x");
    let token = scanner.scan_token().unwrap();
    assert_eq!(token, Token::new(TokenType::String, "a\nb", 2, Span { begin: 0, end: 5 }));
    let token = scanner.scan_token().unwrap();
    assert_eq!(token, Token::new(TokenType::Ident, "x", 2, Span { begin: 6, end: 7 }));
}

#[test]
fn a_string_keeps_characters_of_several_bytes() {
    let mut scanner = Scanner::new("\"é💣\";");
    let token = scanner.scan_token().unwrap();
    assert_eq!(token, Token::new(TokenType::String, "é💣", 1, Span { begin: 0, end: 8 }));
    assert_eq!(scanner.scan_token().unwrap().kind, TokenType::Semicolon);
}

#[test]
fn an_identifier_may_begin_with_an_underscore() {
    let tokens = Scanner::new("_a1 a_b").scan_tokens().unwrap();
    assert_eq!(tokens[0], Token::new(TokenType::Ident, "_a1", 1, Span { begin: 0, end: 3 }));
    assert_eq!(tokens[1], Token::new(TokenType::Ident, "a_b", 1, Span { begin: 4, end: 7 }));
}

#[test]
fn an_empty_source_is_one_end_token() {
    let tokens = Scanner::new("").scan_tokens().unwrap();
    assert_eq!(tokens, vec![Token::new(TokenType::EOF, "", 1, Span { begin: 0, end: 0 })]);
}

#[test]
fn a_comment_at_the_end_is_skipped() {
    let tokens = Scanner::new("1 // one").scan_tokens().unwrap();
    let found: Vec<TokenType> = tokens.iter().map(|t| t.kind).collect();
    assert_eq!(found, vec![TokenType::Number, TokenType::EOF, TokenType::EOF]);
}

#[test]
fn scanning_stops_at_the_first_failure() {
    assert_eq!(
        Scanner::new("var a = #;").scan_tokens(),
        Err(TokenError::UnexpectedToken("#".to_string()))
    );
    assert_eq!(
        Scanner::new("print \"open").scan_tokens(),
        Err(TokenError::NonTerminatedString("\"open".to_string()))
    );
}

#[test]
fn scanner_errors_have_messages() {
    let mut scanner = Scanner::new("\n\n@");
    let error = scanner.scan_tokens().unwrap_err();
    assert_eq!(
        error.message(scanner.current_line()),
        "[line 3] Error: Unexpected character '@'"
    );
    assert_eq!(
        TokenError::NonTerminatedString("\"x".to_string()).message(12),
        "[line 12] Error: String `\"x` is not terminated"
    );
    assert_eq!(TokenError::UnexpectedEOF.message(1), "[line 1] Error: Unexpected end of file");
}

#[test]
fn kinds_have_names() {
    assert_eq!(TokenType::LeftParen.name(), "LeftParen");
    assert_eq!(TokenType::EOF.name(), "EOF");
}

#[test]
fn tokens_are_listed_with_kind_lexeme_and_literal() {
    let span = Span { begin: 0, end: 1 };
    assert_eq!(Token::new(TokenType::LeftParen, "(", 1, span).listing(""), "LeftParen ( null");
    assert_eq!(Token::new(TokenType::Ident, "count", 1, span).listing("7"), "Ident count null");
    assert_eq!(Token::new(TokenType::String, "two words", 1, span).listing(""), "String two words two words");
    assert_eq!(Token::new(TokenType::Number, "1.50", 1, span).listing("1.5"), "Number 1.50 1.5");
    assert_eq!(Token::new(TokenType::EOF, "", 3, span).listing(""), "EOF  null");
}

#[test]
fn tokens_do_not_overlap() {
    let source = "var answer = (40 + 2) * 1.5; // done\nprint \"so long\";";
    let tokens = Scanner::new(source).scan_tokens().unwrap();
    assert_eq!(tokens.last().unwrap().kind, TokenType::EOF);
    let words = &tokens[..tokens.len() - 1];
    for pair in words.windows(2) {
        assert!(pair[0].span.begin <= pair[0].span.end);
        assert!(pair[0].span.end <= pair[1].span.begin);
    }
    assert_eq!(words[0].span, Span { begin: 0, end: 3 });
    assert_eq!(words[1].span, Span { begin: 4, end: 10 });
}

