//! The tokenizer.

use rregex::{Lexer, ParseError, Token};

#[test]
fn characters_are_sorted_into_symbols() {
    assert_eq!(Token::from_char('a'), Token::Literal('a'));
    assert_eq!(Token::from_char('Z'), Token::Literal('Z'));
    assert_eq!(Token::from_char('ß'), Token::Literal('ß'));
    assert_eq!(Token::from_char('|'), Token::Union);
    assert_eq!(Token::from_char('*'), Token::Star);
    assert_eq!(Token::from_char('('), Token::LParen);
    assert_eq!(Token::from_char(')'), Token::RParen);
    assert_eq!(Token::from_char('$'), Token::Unknown('$'));
    assert_eq!(Token::from_char('7'), Token::Unknown('7'));
    assert_eq!(Token::from_char(' '), Token::Unknown(' '));
    assert_eq!(Token::from_char('💝'), Token::Unknown('💝'));
}

#[test]
fn classify_goes_by_the_flag_it_is_given() {
    assert_eq!(Token::classify('a', true), Token::Literal('a'));
    assert_eq!(Token::classify('a', false), Token::Unknown('a'));
    assert_eq!(Token::classify('|', true), Token::Literal('|'));
    assert_eq!(Token::classify('|', false), Token::Union);
    assert_eq!(Token::classify('*', false), Token::Star);
    assert_eq!(Token::classify('(', false), Token::LParen);
    assert_eq!(Token::classify(')', false), Token::RParen);
}

#[test]
fn next_hands_out_the_symbols_in_order() {
    let mut lexer = Lexer::new("a|(b)*".to_string());
    assert_eq!(lexer.next(), Some(Ok(Token::Literal('a'))));
    assert_eq!(lexer.next(), Some(Ok(Token::Union)));
    assert_eq!(lexer.next(), Some(Ok(Token::LParen)));
    assert_eq!(lexer.next(), Some(Ok(Token::Literal('b'))));
    assert_eq!(lexer.next(), Some(Ok(Token::RParen)));
    assert_eq!(lexer.next(), Some(Ok(Token::Star)));
    assert_eq!(lexer.next(), None);
}

#[test]
fn peek_is_stable_until_next() {
    let mut lexer = Lexer::new("ab".to_string());
    assert_eq!(lexer.peek(), Some(Ok(Token::Literal('a'))));
    assert_eq!(lexer.peek(), Some(Ok(Token::Literal('a'))));
    assert_eq!(lexer.next(), Some(Ok(Token::Literal('a'))));
    assert_eq!(lexer.peek(), Some(Ok(Token::Literal('b'))));
    assert_eq!(lexer.next(), Some(Ok(Token::Literal('b'))));
    assert_eq!(lexer.peek(), None);
}

#[test]
fn the_end_of_input_is_final() {
    let mut lexer = Lexer::new("a".to_string());
    assert_eq!(lexer.peek(), Some(Ok(Token::Literal('a'))));
    assert_eq!(lexer.next(), Some(Ok(Token::Literal('a'))));
    assert_eq!(lexer.next(), None);
    assert_eq!(lexer.peek(), None);
    assert_eq!(lexer.peek(), None);
    assert_eq!(lexer.next(), None);
    assert_eq!(lexer.next_token(), None);

    let mut empty = Lexer::new(String::new());
    assert_eq!(empty.peek(), None);
    assert_eq!(empty.next(), None);
    assert_eq!(empty.collect(), Some(Ok(vec![])));
}

#[test]
fn an_illegal_character_is_reported_once() {
    let mut lexer = Lexer::new("a$b".to_string());
    assert_eq!(lexer.next(), Some(Ok(Token::Literal('a'))));
    assert_eq!(lexer.next(), Some(Err(ParseError::UnexpectedToken(Token::Unknown('$')))));
    assert_eq!(lexer.next(), Some(Ok(Token::Literal('b'))));
    assert_eq!(lexer.next(), None);

    let mut peeking = Lexer::new("$b".to_string());
    assert_eq!(peeking.peek(), Some(Err(ParseError::UnexpectedToken(Token::Unknown('$')))));
    assert_eq!(peeking.peek(), Some(Ok(Token::Literal('b'))));
    assert_eq!(peeking.next(), Some(Ok(Token::Literal('b'))));
    assert_eq!(peeking.next(), None);
}

#[test]
fn next_token_reads_past_the_symbol_in_hand() {
    let mut lexer = Lexer::new("ab".to_string());
    assert_eq!(lexer.peek(), Some(Ok(Token::Literal('a'))));
    assert_eq!(lexer.next_token(), Some(Ok(Token::Literal('b'))));
    assert_eq!(lexer.next(), Some(Ok(Token::Literal('a'))));
    assert_eq!(lexer.next(), None);
}

#[test]
fn collect_drains_the_input() {
    let mut lexer = Lexer::new("(a|b)*".to_string());
    assert_eq!(
        lexer.collect(),
        Some(Ok(vec![
            Token::LParen,
            Token::Literal('a'),
            Token::Union,
            Token::Literal('b'),
            Token::RParen,
            Token::Star,
        ]))
    );
    assert_eq!(lexer.next(), None);
    assert_eq!(lexer.collect(), Some(Ok(vec![])));
}

#[test]
fn collect_starts_with_the_symbol_in_hand() {
    let mut lexer = Lexer::new("ab".to_string());
    assert_eq!(lexer.peek(), Some(Ok(Token::Literal('a'))));
    assert_eq!(lexer.collect(), Some(Ok(vec![Token::Literal('a'), Token::Literal('b')])));
}

#[test]
fn collect_stops_at_the_first_illegal_character() {
    let mut lexer = Lexer::new("ab#c!d".to_string());
    assert_eq!(lexer.collect(), Some(Err(ParseError::UnexpectedToken(Token::Unknown('#')))));
    assert_eq!(lexer.next(), Some(Ok(Token::Literal('c'))));
    assert_eq!(lexer.collect(), Some(Err(ParseError::UnexpectedToken(Token::Unknown('!')))));
    assert_eq!(lexer.collect(), Some(Ok(vec![Token::Literal('d')])));
}

#[test]
fn symbols_are_written_as_in_a_pattern() {
    assert_eq!(Token::Literal('a').to_string(), "a");
    assert_eq!(Token::Union.to_string(), "|");
    assert_eq!(Token::Star.to_string(), "*");
    assert_eq!(Token::LParen.to_string(), "(");
    assert_eq!(Token::RParen.to_string(), ")");
    assert_eq!(Token::Unknown('$').to_string(), "$");
    assert_eq!(Token::Literal('京').to_string(), "京");
}

#[test]
fn errors_have_messages() {
    assert_eq!(
        ParseError::UnexpectedToken(Token::Unknown('$')).to_string(),
        "Unexpected Token: $"
    );
    assert_eq!(ParseError::UnexpectedToken(Token::Star).to_string(), "Unexpected Token: *");
    assert_eq!(ParseError::MismatchedParentheses.to_string(), "Uneven number of parentheses.");
    assert_eq!(ParseError::UnexpectedEOF.to_string(), "Unexpected EOF.");
}
