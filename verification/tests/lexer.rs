use noshell::parser::lexer::Flag;
use noshell::parser::lexer::Token;
use noshell::parser::lexer::Tokens;

#[test]
fn it_should_match_short_flag() {
    let mut lexer = Tokens::new(&["-f"]);

    let token = lexer.next();
    assert!(token.is_some());
    assert_eq!(token.unwrap(), Token::Flag(Flag::Short('f')));
}

#[test]
fn it_should_match_value_starting_with_dash() {
    let mut lexer = Tokens::new(&["-flag"]);

    let token = lexer.next();
    assert!(token.is_some());
    assert_eq!(token.unwrap(), Token::Value("-flag"));
}

#[test]
fn it_should_match_long_flag() {
    let mut lexer = Tokens::new(&["--flag"]);

    let token = lexer.next();
    assert!(token.is_some());
    assert_eq!(token.unwrap(), Token::Flag(Flag::Long("flag")));
}

#[test]
fn it_should_match_numbers() {
    let mut lexer = Tokens::new(&["-2", "2", "-2.", "2.", "-2.e1", "2.e1", "-2e1", "2e1"]);

    while let Some(token) = lexer.next() {
        assert!(matches!(token, Token::Value(_)));
    }
}

#[test]
fn numeric_disambiguation_matrix() {
    for input in ["-2", "2", "-2.", "2.", "-2e1", "2e1", "-2.5e1"] {
        assert!(Token::is_number(input), "{} should be numeric", input);
        assert_eq!(Token::tokenize(input), Token::Value(input));
    }
    assert_eq!(Token::tokenize("-f"), Token::Flag(Flag::Short('f')));
}

#[test]
fn lone_dashes_are_values() {
    assert_eq!(Token::tokenize("-"), Token::Value("-"));
    assert_eq!(Token::tokenize("--"), Token::Value("--"));
}

#[test]
fn malformed_numbers_are_not_numeric() {
    assert!(!Token::is_number("2e"));
    assert!(!Token::is_number("e1"));
    assert!(!Token::is_number(".5"));
    assert!(!Token::is_number("2..5"));
    assert!(!Token::is_number("2e1e1"));
    assert!(!Token::is_number("2e1.5"));
    assert!(!Token::is_number("-f"));
    assert!(Token::is_number("2.5e1"));
    assert!(Token::is_number("-2.e1"));
    // The numeric test strips a single leading sign, no more.
    assert!(Token::is_number("-2"));
    assert!(!Token::is_number("--2"));
}

#[test]
fn flag_predicates() {
    assert!(Token::is_short_flag("-f"));
    assert!(!Token::is_short_flag("-flag"));
    assert!(!Token::is_short_flag("-2"));
    assert!(!Token::is_short_flag("--"));
    assert!(!Token::is_short_flag("-"));
    assert!(!Token::is_short_flag("flag"));
    assert!(Token::is_long_flag("--flag"));
    assert!(!Token::is_long_flag("--"));
    assert!(Token::is_flag("-f"));
    assert!(Token::is_flag("--flag"));
    assert!(!Token::is_flag("-flag"));
    assert!(!Token::is_flag("42"));
}

#[test]
fn flag_predicates_agree_with_the_classifier() {
    for input in ["-f", "--flag", "-flag", "-2", "--2", "-", "--", "42", "", "-ab"] {
        let classified_as_flag = matches!(Token::tokenize(input), Token::Flag(_));
        assert_eq!(Token::is_flag(input), classified_as_flag, "{}", input);
    }
}

#[test]
fn tokens_values_cursor() {
    let lexer = Tokens::new(&["a", "b", "-f", "c"]);

    let mut values = lexer.values();
    assert_eq!(values.next(), Some("a"));
    assert_eq!(values.next(), Some("b"));
    assert_eq!(values.next(), None);

    let mut again = lexer.tokens();
    assert_eq!(again.next(), Some(Token::Value("a")));
}
