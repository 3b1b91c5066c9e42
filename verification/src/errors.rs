//! The ways in which a pattern can fail to compile.

use vstd::prelude::*;
use vstd::string::StringExecFns;
use crate::token::Token;

verus! {

/// Why a pattern was rejected.
#[derive(Debug, PartialEq, Eq, Clone, Copy, Structural)]
pub enum ParseError {
    /// A symbol stood where the grammar has no use for it. An illegal
    /// character is reported this way, wrapped in `Token::Unknown`.
    UnexpectedToken(Token),
    /// A `(` was never closed, or a `)` closed nothing.
    MismatchedParentheses,
    /// The pattern ended where a symbol was required. The grammar reads every
    /// such place as the empty string, so no pattern is rejected with it.
    UnexpectedEOF,
}

impl ParseError {
    /// The message for the error.
    pub open spec fn message(self) -> Seq<char> {
        match self {
            ParseError::UnexpectedToken(t) => "Unexpected Token: "@ + t.text(),
            ParseError::MismatchedParentheses => "Uneven number of parentheses."@,
            ParseError::UnexpectedEOF => "Unexpected EOF."@,
        }
    }

    /// The message for the error.
    pub fn to_string(&self) -> (text: String)
        ensures
            text@ == self.message(),
    {
        match self {
            ParseError::UnexpectedToken(t) => {
                let mut text = String::from_str("Unexpected Token: ");
                let symbol = t.to_string();
                text.append(symbol.as_str());
                text
            },
            ParseError::MismatchedParentheses => String::from_str("Uneven number of parentheses."),
            ParseError::UnexpectedEOF => String::from_str("Unexpected EOF."),
        }
    }
}

} // verus!
