use lox_scanner::scanner::Scanner;
use lox_scanner::token::{Literal, Token, TokenType};

fn plain(token_type: TokenType, lexeme: &str, line: usize) -> Token {
    Token { token_type, lexeme: String::from(lexeme), literal: Literal::Nothing, line }
}

fn eof(line: usize) -> Token {
    Token { token_type: TokenType::Eof, lexeme: String::new(), literal: Literal::Nothing, line }
}

fn number(lexeme: &str, line: usize) -> Token {
    Token {
        token_type: TokenType::Number,
        lexeme: String::from(lexeme),
        literal: Literal::Num(String::from(lexeme)),
        line,
    }
}

fn string_tok(contents: &str, line: usize) -> Token {
    Token {
        token_type: TokenType::StringLit,
        lexeme: format!("\"{}\"", contents),
        literal: Literal::Text(String::from(contents)),
        line,
    }
}

#[test]
fn test_new() {
    let source_str = String::from("hello world");
    let scanner = Scanner::new(source_str);
    let (source, tokens, start, current, line, has_error) = scanner.show_self();
    assert_eq!(*source, "hello world".to_string());
    assert_eq!(*tokens, vec![]);
    assert_eq!(*start, 0);
    assert_eq!(*current, 0);
    assert_eq!(*line, 1);
    assert_eq!(*has_error, false);
}

#[test]
fn test_scan_one_char() {
    let source_str = String::from("(");
    let mut scanner = Scanner::new(source_str);
    scanner.scan_tokens();
    let (_, tokens, start, current, line, has_error) = scanner.show_self();
    let token_list = vec![plain(TokenType::LeftParen, "(", 1), eof(1)];
    assert_eq!(*tokens, token_list);
    assert_eq!(*start, 0);
    assert_eq!(*current, 1);
    assert_eq!(*line, 1);
    assert_eq!(*has_error, false);
}

#[test]
fn test_scan_two_char() {
    let source_str = String::from(" >= ");
    let mut scanner = Scanner::new(source_str);
    scanner.scan_tokens();
    let (_, tokens, start, current, line, has_error) = scanner.show_self();
    let token_list = vec![plain(TokenType::GreaterEqual, ">=", 1), eof(1)];
    assert_eq!(*tokens, token_list);
    assert_eq!(*start, 3);
    assert_eq!(*current, 4);
    assert_eq!(*line, 1);
    assert_eq!(*has_error, false);
}

#[test]
fn test_add_string() {
    let source_str = String::from(" \"hello\" ");
    let mut scanner = Scanner::new(source_str);
    scanner.scan_tokens();
    let (_, tokens, start, current, line, has_error) = scanner.show_self();
    let token_list = vec![string_tok("hello", 1), eof(1)];
    assert_eq!(*tokens, token_list);
    assert_eq!(*start, 8);
    assert_eq!(*current, 9);
    assert_eq!(*line, 1);
    assert_eq!(*has_error, false);
}

#[test]
fn test_add_string2() {
    let source_str = String::from(" \"hello\"");
    let mut scanner = Scanner::new(source_str);
    scanner.scan_tokens();
    let (_, tokens, start, current, line, has_error) = scanner.show_self();
    let token_list = vec![string_tok("hello", 1), eof(1)];
    assert_eq!(*tokens, token_list);
    assert_eq!(*start, 1);
    assert_eq!(*current, 8);
    assert_eq!(*line, 1);
    assert_eq!(*has_error, false);
}

#[test]
fn test_add_number() {
    let source_str = String::from("123.456");
    let mut scanner = Scanner::new(source_str);
    scanner.scan_tokens();
    let (_, tokens, _, _, _, _) = scanner.show_self();
    let token_list = vec![number("123.456", 1), eof(1)];
    assert_eq!(*tokens, token_list);
    match &tokens[0].literal {
        Literal::Num(text) => assert_eq!(text.parse::<f64>().unwrap(), 123.456),
        other => panic!("expected a number literal, got {:?}", other),
    }
}

#[test]
fn identifiers() {
    let mut scanner = Scanner::new(String::from(
        "andy formless fo _ _123 _abc ab123 \n abcdefghijklmnopqrstuvwxyzABCDEFGHIJKLMNOPQRSTUVWXYZ1234567890_",
    ));
    let tokens = scanner.scan_tokens();

    let expected_tokens = [
        plain(TokenType::Identifier, "andy", 1),
        plain(TokenType::Identifier, "formless", 1),
        plain(TokenType::Identifier, "fo", 1),
        plain(TokenType::Identifier, "_", 1),
        plain(TokenType::Identifier, "_123", 1),
        plain(TokenType::Identifier, "_abc", 1),
        plain(TokenType::Identifier, "ab123", 1),
        plain(
            TokenType::Identifier,
            "abcdefghijklmnopqrstuvwxyzABCDEFGHIJKLMNOPQRSTUVWXYZ1234567890_",
            2,
        ),
        eof(2),
    ];

    assert_eq!(tokens.len(), expected_tokens.len());
    for (i, token) in tokens.iter().enumerate() {
        assert_eq!(*token, expected_tokens[i]);
    }
}

#[test]
fn keywords() {
    let mut scanner = Scanner::new(String::from(
        "and class else false for fun if nil or return super this true var while",
    ));
    let tokens = scanner.scan_tokens();

    let expected_tokens = [
        plain(TokenType::And, "and", 1),
        plain(TokenType::Class, "class", 1),
        plain(TokenType::Else, "else", 1),
        plain(TokenType::False, "false", 1),
        plain(TokenType::For, "for", 1),
        plain(TokenType::Fun, "fun", 1),
        plain(TokenType::If, "if", 1),
        plain(TokenType::Nil, "nil", 1),
        plain(TokenType::Or, "or", 1),
        plain(TokenType::Return, "return", 1),
        plain(TokenType::Super, "super", 1),
        plain(TokenType::This, "this", 1),
        plain(TokenType::True, "true", 1),
        plain(TokenType::Var, "var", 1),
        plain(TokenType::While, "while", 1),
        eof(1),
    ];

    assert_eq!(tokens.len(), expected_tokens.len());
    for (i, token) in tokens.iter().enumerate() {
        assert_eq!(*token, expected_tokens[i]);
    }
}

#[test]
fn numbers() {
    let mut scanner = Scanner::new(String::from("123\n123.456\n.456\n123."));
    let tokens = scanner.scan_tokens();

    let expected_tokens = [
        number("123", 1),
        number("123.456", 2),
        plain(TokenType::Dot, ".", 3),
        number("456", 3),
        number("123", 4),
        plain(TokenType::Dot, ".", 4),
        eof(4),
    ];

    assert_eq!(tokens.len(), expected_tokens.len());
    for (i, token) in tokens.iter().enumerate() {
        assert_eq!(*token, expected_tokens[i]);
    }
}

#[test]
fn punctuators() {
    let mut scanner = Scanner::new(String::from("(){};,+-*!===<=>=!=<>/."));
    let tokens = scanner.scan_tokens();

    let expected_tokens = [
        plain(TokenType::LeftParen, "(", 1),
        plain(TokenType::RightParen, ")", 1),
        plain(TokenType::LeftBrace, "{", 1),
        plain(TokenType::RightBrace, "}", 1),
        plain(TokenType::Semicolon, ";", 1),
        plain(TokenType::Comma, ",", 1),
        plain(TokenType::Plus, "+", 1),
        plain(TokenType::Minus, "-", 1),
        plain(TokenType::Star, "*", 1),
        plain(TokenType::BangEqual, "!=", 1),
        plain(TokenType::EqualEqual, "==", 1),
        plain(TokenType::LessEqual, "<=", 1),
        plain(TokenType::GreaterEqual, ">=", 1),
        plain(TokenType::BangEqual, "!=", 1),
        plain(TokenType::Less, "<", 1),
        plain(TokenType::Greater, ">", 1),
        plain(TokenType::Slash, "/", 1),
        plain(TokenType::Dot, ".", 1),
        eof(1),
    ];

    assert_eq!(tokens.len(), expected_tokens.len());
    for (i, token) in tokens.iter().enumerate() {
        assert_eq!(*token, expected_tokens[i]);
    }
}

#[test]
fn strings() {
    let mut scanner = Scanner::new(String::from("\"\" \n \"string\""));
    let tokens = scanner.scan_tokens();

    let expected_tokens = [string_tok("", 1), string_tok("string", 2), eof(2)];

    assert_eq!(tokens.len(), expected_tokens.len());
    for (i, token) in tokens.iter().enumerate() {
        assert_eq!(*token, expected_tokens[i]);
    }
}

#[test]
fn whitespace() {
    let mut scanner = Scanner::new(String::from(
        "space    tabs\t\t\t\tnewlines\n\n\n\n\n        end",
    ));
    let tokens = scanner.scan_tokens();

    let expected_tokens = [
        plain(TokenType::Identifier, "space", 1),
        plain(TokenType::Identifier, "tabs", 1),
        plain(TokenType::Identifier, "newlines", 1),
        plain(TokenType::Identifier, "end", 6),
        eof(6),
    ];

    assert_eq!(tokens.len(), expected_tokens.len());
    for (i, token) in tokens.iter().enumerate() {
        assert_eq!(*token, expected_tokens[i]);
    }
}
