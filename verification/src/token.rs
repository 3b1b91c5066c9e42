//! The symbols of a pattern and the rule that sorts characters into them.

use vstd::prelude::*;

verus! {

/// One symbol of a pattern.
#[derive(Debug, PartialEq, Eq, Clone, Copy, Structural)]
pub enum Token {
    /// A character that stands for itself.
    Literal(char),
    /// `|`
    Union,
    /// `*`
    Star,
    /// `(`
    LParen,
    /// `)`
    RParen,
    /// A character that is neither a letter nor an operator.
    Unknown(char),
}

/// Whether `c` has the Unicode property `Alphabetic`, as `char::is_alphabetic` decides it.
pub uninterp spec fn alphabetic(c: char) -> bool;

/// `char::is_alphabetic` is a function of the character alone; its answer is
/// the one that `alphabetic` names. Nothing more is claimed of it.
pub assume_specification[ char::is_alphabetic ](c: char) -> (b: bool)
    ensures
        b == alphabetic(c),
;

/// `String::push` puts the character at the end of the string and leaves the
/// rest of it as it was.
pub assume_specification[ String::push ](s: &mut String, c: char)
    ensures
        final(s)@ == old(s)@.push(c),
;

/// The symbol that a character becomes once it is known whether it is a letter.
pub open spec fn symbol_for(c: char, letter: bool) -> Token {
    if letter {
        Token::Literal(c)
    } else if c == '|' {
        Token::Union
    } else if c == '*' {
        Token::Star
    } else if c == '(' {
        Token::LParen
    } else if c == ')' {
        Token::RParen
    } else {
        Token::Unknown(c)
    }
}

/// The symbol that a character of a pattern becomes.
pub open spec fn token_of(c: char) -> Token {
    symbol_for(c, alphabetic(c))
}

impl Token {
    /// Sorts one character, given whether it is a letter: a letter is a
    /// literal, the four operator characters are their operators, and any
    /// other character is `Unknown`.
    pub fn classify(c: char, letter: bool) -> (token: Token)
        ensures
            token == symbol_for(c, letter),
    {
        if letter {
            Token::Literal(c)
        } else if c == '|' {
            Token::Union
        } else if c == '*' {
            Token::Star
        } else if c == '(' {
            Token::LParen
        } else if c == ')' {
            Token::RParen
        } else {
            Token::Unknown(c)
        }
    }

    /// Sorts one character of a pattern.
    pub fn from_char(c: char) -> (token: Token)
        ensures
            token == token_of(c),
    {
        Token::classify(c, c.is_alphabetic())
    }

    /// The symbol as it is written in a pattern.
    pub open spec fn text(self) -> Seq<char> {
        match self {
            Token::Literal(c) => seq![c],
            Token::Union => seq!['|'],
            Token::Star => seq!['*'],
            Token::LParen => seq!['('],
            Token::RParen => seq![')'],
            Token::Unknown(c) => seq![c],
        }
    }

    /// The symbol as it is written in a pattern.
    pub fn to_string(&self) -> (text: String)
        ensures
            text@ == self.text(),
    {
        let c = match self {
            Token::Literal(c) => *c,
            Token::Union => '|',
            Token::Star => '*',
            Token::LParen => '(',
            Token::RParen => ')',
            Token::Unknown(c) => *c,
        };
        let mut text = String::new();
        text.push(c);
        assert(text@ =~= seq![c]);
        text
    }
}

} // verus!
