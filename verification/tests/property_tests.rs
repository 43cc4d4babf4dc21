use lox_scanner::scanner::Scanner;
use lox_scanner::token::{Literal, Token, TokenType};

fn scan(source: &str) -> (Vec<Token>, bool) {
    let mut scanner = Scanner::new(String::from(source));
    let tokens = scanner.scan_tokens().clone();
    let (_, _, _, _, _, has_error) = scanner.show_self();
    (tokens, *has_error)
}

fn kinds(tokens: &[Token]) -> Vec<TokenType> {
    tokens.iter().map(|t| t.token_type).collect()
}

#[test]
fn single_lexeme_inputs_scan_whole() {
    for source in ["(", "}", ";", "<=", "!", "!=", "123", "123.45", "_a1", "fun", "\"x y\""] {
        let (tokens, has_error) = scan(source);
        assert_eq!(tokens.len(), 2, "input {:?}", source);
        assert_eq!(tokens[0].lexeme, source, "input {:?}", source);
        assert_eq!(tokens[1].token_type, TokenType::Eof);
        assert!(!has_error, "input {:?}", source);
    }
}

#[test]
fn concatenation_of_separable_inputs() {
    let (left, _) = scan("var x");
    let (right, _) = scan("= 10;");
    let (whole, _) = scan("var x= 10;");
    let mut expected: Vec<Token> = left[..left.len() - 1].to_vec();
    expected.extend_from_slice(&right);
    assert_eq!(whole, expected);
}

#[test]
fn eof_line_counts_newlines() {
    let (tokens, has_error) = scan("\n\n\n");
    assert_eq!(tokens.len(), 1);
    assert_eq!(tokens[0].token_type, TokenType::Eof);
    assert_eq!(tokens[0].line, 4);
    assert!(!has_error);
}

#[test]
fn token_line_counts_newlines_before_its_start() {
    let (tokens, _) = scan("a\nb\n\nc");
    assert_eq!(tokens[0].line, 1);
    assert_eq!(tokens[1].line, 2);
    assert_eq!(tokens[2].line, 4);
}

#[test]
fn greater_equal_is_one_token() {
    let (tokens, has_error) = scan(">=");
    assert_eq!(kinds(&tokens), vec![TokenType::GreaterEqual, TokenType::Eof]);
    assert_eq!(tokens[0].lexeme, ">=");
    assert!(!has_error);
}

#[test]
fn trailing_dot_stays_out_of_number() {
    let (tokens, has_error) = scan("123.");
    assert_eq!(kinds(&tokens), vec![TokenType::Number, TokenType::Dot, TokenType::Eof]);
    assert_eq!(tokens[0].lexeme, "123");
    match &tokens[0].literal {
        Literal::Num(text) => assert_eq!(text.parse::<f64>().unwrap(), 123.0),
        other => panic!("expected a number literal, got {:?}", other),
    }
    assert!(!has_error);
}

#[test]
fn second_decimal_point_starts_a_new_token() {
    let (tokens, has_error) = scan("1.2.3");
    assert_eq!(
        kinds(&tokens),
        vec![TokenType::Number, TokenType::Dot, TokenType::Number, TokenType::Eof],
    );
    assert_eq!(tokens[0].lexeme, "1.2");
    assert_eq!(tokens[2].lexeme, "3");
    assert!(!has_error);
}

#[test]
fn unterminated_string_sets_error() {
    let (tokens, has_error) = scan("\"abc");
    assert!(has_error);
    assert_eq!(kinds(&tokens), vec![TokenType::StringLit, TokenType::Eof]);
    assert_eq!(tokens[0].lexeme, "\"abc");
    assert_eq!(tokens[0].literal, Literal::Text(String::from("abc")));
}

#[test]
fn end_to_end_example() {
    let (tokens, has_error) = scan("(1 + 2) == 3");
    assert_eq!(
        kinds(&tokens),
        vec![
            TokenType::LeftParen,
            TokenType::Number,
            TokenType::Plus,
            TokenType::Number,
            TokenType::RightParen,
            TokenType::EqualEqual,
            TokenType::Number,
            TokenType::Eof,
        ],
    );
    assert_eq!(tokens[1].literal, Literal::Num(String::from("1")));
    assert_eq!(tokens[3].literal, Literal::Num(String::from("2")));
    assert_eq!(tokens[6].literal, Literal::Num(String::from("3")));
    assert!(!has_error);
}

#[test]
fn keyword_matching_is_exact_not_prefix() {
    let (tokens, has_error) = scan("classroom");
    assert_eq!(kinds(&tokens), vec![TokenType::Identifier, TokenType::Eof]);
    assert_eq!(tokens[0].lexeme, "classroom");
    assert!(!has_error);
}

#[test]
fn string_spanning_lines_keeps_start_line() {
    let (tokens, has_error) = scan("\"a\nb\"");
    assert_eq!(kinds(&tokens), vec![TokenType::StringLit, TokenType::Eof]);
    assert_eq!(tokens[0].line, 1);
    assert_eq!(tokens[0].literal, Literal::Text(String::from("a\nb")));
    assert_eq!(tokens[1].line, 2);
    assert!(!has_error);
}

#[test]
fn unexpected_character_sets_error_and_scan_continues() {
    let (tokens, has_error) = scan("@+#");
    assert!(has_error);
    assert_eq!(kinds(&tokens), vec![TokenType::Plus, TokenType::Eof]);
}

#[test]
fn empty_source_gives_only_eof() {
    let (tokens, has_error) = scan("");
    assert_eq!(tokens.len(), 1);
    assert_eq!(tokens[0].token_type, TokenType::Eof);
    assert_eq!(tokens[0].lexeme, "");
    assert_eq!(tokens[0].line, 1);
    assert!(!has_error);
}

#[test]
fn error_flag_is_sticky_across_later_tokens() {
    let (tokens, has_error) = scan("@ 1 2");
    assert!(has_error);
    assert_eq!(kinds(&tokens), vec![TokenType::Number, TokenType::Number, TokenType::Eof]);
}
