use filter_parser::parser::Parser;
use filter_parser::scanner::Scanner;
use filter_parser::token_type::TokenType;

#[test]
fn tokens_record_position_of_lexeme_start() {
    let mut scanner = Scanner::new("ab  cd>=1");
    let _ = scanner.scan();
    assert!(!scanner.had_error);
    let toks = &scanner.tokens;
    assert_eq!(toks.len(), 5);
    assert_eq!(
        (toks[0].lexeme.as_str(), toks[0].line, toks[0].column),
        ("ab", 1, 1)
    );
    assert_eq!(
        (toks[1].lexeme.as_str(), toks[1].line, toks[1].column),
        ("cd", 1, 5)
    );
    assert_eq!((toks[2].lexeme.as_str(), toks[2].column), (">=", 7));
    assert_eq!((toks[3].lexeme.as_str(), toks[3].column), ("1", 9));
    assert_eq!(toks[4].variant, TokenType::EOF);
    assert_eq!(toks[4].lexeme, "");
}

#[test]
fn newline_resets_column_and_advances_line() {
    let mut scanner = Scanner::new("a\nb");
    let _ = scanner.scan();
    assert!(!scanner.had_error);
    let toks = &scanner.tokens;
    assert_eq!((toks[0].line, toks[0].column), (1, 1));
    assert_eq!((toks[1].line, toks[1].column), (2, 1));
}

#[test]
fn number_with_fraction_is_one_lexeme() {
    let mut scanner = Scanner::new("1.25");
    let _ = scanner.scan();
    assert!(!scanner.had_error);
    assert_eq!(scanner.tokens[0].variant, TokenType::Number);
    assert_eq!(scanner.tokens[0].lexeme, "1.25");
}

#[test]
fn digits_followed_by_letters_are_an_identifier() {
    let mut scanner = Scanner::new("1a;");
    let _ = scanner.scan();
    assert!(!scanner.had_error);
    assert_eq!(scanner.tokens[0].variant, TokenType::Identifier);
    assert_eq!(scanner.tokens[0].lexeme, "1a");
    assert_eq!(scanner.tokens[1].variant, TokenType::SemiColon);
}

#[test]
fn dot_not_followed_by_digit_stays_outside_the_number() {
    let mut scanner = Scanner::new("1. 2");
    let _ = scanner.scan();
    assert!(scanner.had_error);
    assert_eq!(scanner.tokens[0].variant, TokenType::Number);
    assert_eq!(scanner.tokens[0].lexeme, "1");
}

#[test]
fn scan_survives_malformed_character_and_reaches_end() {
    let mut scanner = Scanner::new("a # b");
    let _ = scanner.scan();
    assert!(scanner.had_error);
    assert_eq!(scanner.errors.len(), 1);
    let toks = &scanner.tokens;
    assert_eq!(toks.len(), 3);
    assert_eq!(toks[0].lexeme, "a");
    assert_eq!(toks[1].lexeme, "b");
    assert_eq!(toks[2].variant, TokenType::EOF);
}

#[test]
fn parser_fails_when_the_scanner_failed() {
    let mut scanner = Scanner::new("q01;a=#");
    let _ = scanner.scan();
    let had_error = scanner.had_error;
    let mut parser = Parser::new(scanner.tokens, scanner.errors, had_error);
    let result = parser.parse();
    assert!(result.is_err());
}

#[test]
fn two_character_operators_are_single_tokens() {
    let mut scanner = Scanner::new("!=<=>===!<>=");
    let _ = scanner.scan();
    assert!(!scanner.had_error);
    let kinds: Vec<TokenType> = scanner.tokens.iter().map(|t| t.variant).collect();
    assert_eq!(
        kinds,
        vec![
            TokenType::BangEqual,
            TokenType::LessEqual,
            TokenType::GreaterEqual,
            TokenType::EqualEqual,
            TokenType::Bang,
            TokenType::Less,
            TokenType::GreaterEqual,
            TokenType::EOF,
        ]
    );
}
