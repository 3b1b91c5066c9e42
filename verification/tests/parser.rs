//! The parser and the facade on patterns, good and bad.

use rregex::{Lexer, ParseError, Parser, RRegex, Token};

fn compile(pattern: &str) -> Result<RRegex, ParseError> {
    RRegex::new(pattern.to_string())
}

fn matches(pattern: &str, input: &str) -> bool {
    compile(pattern).unwrap().matches(input)
}

fn error_of(pattern: &str) -> ParseError {
    match compile(pattern) {
        Ok(_) => panic!("'{}' compiled", pattern),
        Err(e) => e,
    }
}

#[test]
fn test_parser() {
    let mut lexer = Lexer::new("a".to_string());
    let mut parser = Parser::new(&mut lexer);

    let nfa = parser.parse().unwrap();

    println!("{:?}", nfa);
}

#[test]
fn empty_input() {
    assert!(matches("", ""));
    assert!(!matches("a", ""));
}

#[test]
fn concrete_scenarios() {
    assert!(matches("a|b", "a"));
    assert!(!matches("a|b", "c"));
    assert!(matches("(ab)*", "ababab"));
    assert!(!matches("(ab)*", "abb"));
    assert!(matches("a*b", "b"));
    assert!(matches("a*b", "aab"));
    assert!(!matches("a*b", "aa"));
    assert!(matches("()", ""));
    assert!(matches("a|", ""));
    assert!(matches("a|", "a"));
}

#[test]
fn matching_is_anchored() {
    assert!(!matches("abc", "abcdef"));
    assert!(!matches("abc", "xabc"));
    assert!(!matches("b", "abc"));
    assert!(matches("abc", "abc"));
}

#[test]
fn an_open_parenthesis_must_be_closed() {
    assert_eq!(error_of("(a"), ParseError::MismatchedParentheses);
    assert_eq!(error_of("("), ParseError::MismatchedParentheses);
    assert_eq!(error_of("((a)"), ParseError::MismatchedParentheses);
    assert_eq!(error_of("(a|b"), ParseError::MismatchedParentheses);
    assert_eq!(error_of("a(b*"), ParseError::MismatchedParentheses);
}

#[test]
fn a_closing_parenthesis_must_close_something() {
    assert_eq!(error_of("a)"), ParseError::MismatchedParentheses);
    assert_eq!(error_of(")"), ParseError::MismatchedParentheses);
    assert_eq!(error_of("(a))"), ParseError::MismatchedParentheses);
    assert_eq!(error_of("a|)"), ParseError::MismatchedParentheses);
}

#[test]
fn an_illegal_character_is_reported() {
    assert_eq!(error_of("a$b"), ParseError::UnexpectedToken(Token::Unknown('$')));
    assert_eq!(error_of("1"), ParseError::UnexpectedToken(Token::Unknown('1')));
    assert_eq!(error_of("a b"), ParseError::UnexpectedToken(Token::Unknown(' ')));
    assert_eq!(error_of("a+"), ParseError::UnexpectedToken(Token::Unknown('+')));
}

#[test]
fn the_first_illegal_character_wins_over_the_grammar() {
    assert_eq!(error_of("(a$"), ParseError::UnexpectedToken(Token::Unknown('$')));
    assert_eq!(error_of("a)$"), ParseError::UnexpectedToken(Token::Unknown('$')));
    assert_eq!(error_of("*?!"), ParseError::UnexpectedToken(Token::Unknown('?')));
    assert_eq!(error_of("#$"), ParseError::UnexpectedToken(Token::Unknown('#')));
}

#[test]
fn a_star_needs_a_factor() {
    assert_eq!(error_of("*"), ParseError::UnexpectedToken(Token::Star));
    assert_eq!(error_of("*a"), ParseError::UnexpectedToken(Token::Star));
    assert_eq!(error_of("a**"), ParseError::UnexpectedToken(Token::Star));
    assert_eq!(error_of("a|*"), ParseError::UnexpectedToken(Token::Star));
    assert_eq!(error_of("(*)"), ParseError::UnexpectedToken(Token::Star));
}

#[test]
fn empty_alternatives_and_groups_match_the_empty_string() {
    assert!(matches("|a", ""));
    assert!(matches("|a", "a"));
    assert!(matches("a||b", ""));
    assert!(matches("a||b", "a"));
    assert!(matches("a||b", "b"));
    assert!(!matches("a||b", "ab"));
    assert!(matches("(|a)", "a"));
    assert!(matches("()()", ""));
    assert!(matches("a()b", "ab"));
    assert!(matches("()*", ""));
    assert!(!matches("()*", "a"));
    assert!(matches("|", ""));
    assert!(!matches("|", "a"));
}

#[test]
fn star_binds_to_the_factor_before_it() {
    assert!(matches("ab*", "a"));
    assert!(matches("ab*", "abbb"));
    assert!(!matches("ab*", "abab"));
    assert!(matches("(ab)*", "abab"));
    assert!(matches("a|b*", "bbb"));
    assert!(matches("a|b*", "a"));
    assert!(!matches("a|b*", "aa"));
}

#[test]
fn concatenation_keeps_the_order_of_the_pattern() {
    assert!(matches("abc", "abc"));
    assert!(!matches("abc", "cba"));
    assert!(!matches("abc", "acb"));
    assert!(matches("a*b", "aaab"));
    assert!(!matches("a*b", "baaa"));
}

#[test]
fn alternation_folds_over_many_alternatives() {
    assert!(matches("a|b|c|d", "a"));
    assert!(matches("a|b|c|d", "c"));
    assert!(matches("a|b|c|d", "d"));
    assert!(!matches("a|b|c|d", "e"));
    assert!(matches("ab|cd|ef", "cd"));
    assert!(!matches("ab|cd|ef", "ce"));
}

#[test]
fn nested_stars_terminate() {
    assert!(matches("(a*)*", "aaaaaaaa"));
    assert!(!matches("(a*)*", "aaab"));
    assert!(matches("((a*)*)*", ""));
    assert!(matches("((a|b*)*c*)*", "abbcabcc"));
    assert!(!matches("((a|b*)*c*)*", "abd"));
}

#[test]
fn letters_beyond_ascii_are_literals() {
    assert!(matches("é*", "ééé"));
    assert!(matches("京|б", "б"));
    assert!(!matches("京|б", "a"));
}

#[test]
fn compiling_twice_gives_the_same_verdicts() {
    let inputs = ["", "a", "ab", "abab", "abc", "b", "ba"];
    for pattern in ["(ab)*", "a|b", "a*b", "", "(a|b)*c"] {
        let first = compile(pattern).unwrap();
        let second = compile(pattern).unwrap();
        for input in inputs {
            assert_eq!(first.matches(input), second.matches(input));
        }
    }
}

#[test]
fn a_parser_reports_what_the_lexer_left() {
    let mut lexer = Lexer::new("ab".to_string());
    assert_eq!(lexer.next(), Some(Ok(Token::Literal('a'))));
    let mut parser = Parser::new(&mut lexer);
    assert_eq!(lexer.next(), None);
    let nfa = parser.parse().unwrap();
    let matcher = rregex::Matcher::new(nfa);
    assert!(matcher.matches("b"));
    assert!(!matcher.matches("ab"));
}

#[test]
fn a_parser_keeps_a_peeked_symbol() {
    let mut lexer = Lexer::new("ab".to_string());
    assert_eq!(lexer.peek(), Some(Ok(Token::Literal('a'))));
    let mut parser = Parser::new(&mut lexer);
    let matcher = rregex::Matcher::new(parser.parse().unwrap());
    assert!(matcher.matches("ab"));
}

#[test]
fn a_parser_defers_the_lexical_error_to_parse() {
    let mut lexer = Lexer::new("a%".to_string());
    let mut parser = Parser::new(&mut lexer);
    match parser.parse() {
        Err(e) => assert_eq!(e, ParseError::UnexpectedToken(Token::Unknown('%'))),
        Ok(_) => panic!("an illegal character was accepted"),
    }
}

#[test]
fn a_parser_is_used_up_by_parse() {
    let mut lexer = Lexer::new("ab".to_string());
    let mut parser = Parser::new(&mut lexer);
    let first = rregex::Matcher::new(parser.parse().unwrap());
    assert!(first.matches("ab"));
    let second = rregex::Matcher::new(parser.parse().unwrap());
    assert!(second.matches(""));
    assert!(!second.matches("ab"));
}

#[test]
fn a_parser_that_failed_keeps_failing() {
    let mut lexer = Lexer::new("(a".to_string());
    let mut parser = Parser::new(&mut lexer);
    assert_eq!(parser.parse().err(), Some(ParseError::MismatchedParentheses));
    assert_eq!(parser.parse().err(), Some(ParseError::MismatchedParentheses));

    let mut lexer = Lexer::new("a*b**c".to_string());
    let mut parser = Parser::new(&mut lexer);
    assert_eq!(parser.parse().err(), Some(ParseError::UnexpectedToken(Token::Star)));
    assert_eq!(parser.parse().err(), Some(ParseError::UnexpectedToken(Token::Star)));

    let mut lexer = Lexer::new("a?".to_string());
    let mut parser = Parser::new(&mut lexer);
    assert_eq!(parser.parse().err(), Some(ParseError::UnexpectedToken(Token::Unknown('?'))));
    assert_eq!(parser.parse().err(), Some(ParseError::UnexpectedToken(Token::Unknown('?'))));
}
