//! What a pattern means: its syntax tree, the language of each tree, and
//! the grammar that reads a tree off a sequence of symbols.
//!
//! ```text
//! Regex         := Alternation
//! Alternation   := Concatenation ('|' Concatenation)*
//! Concatenation := Term+
//! Term          := Factor Postfix?
//! Factor        := Literal | '(' Alternation ')' | ε
//! Postfix       := '*'
//! ```
//!
//! A factor is empty exactly where the next symbol is `|`, `)` or the end of
//! the pattern, so `a|`, `|a`, `a||b` and `()` are all legal.

use vstd::prelude::*;
use crate::errors::ParseError;
use crate::language::{lang_char, lang_concat, lang_empty_string, lang_star, lang_union};
use crate::lexer::tokenize;
use crate::token::Token;

verus! {

/// The syntax tree of a pattern.
pub ghost enum Regex {
    /// Matches the empty string.
    Empty,
    /// Matches this one character.
    Literal(char),
    /// Matches what either side matches.
    Alternation(Box<Regex>, Box<Regex>),
    /// Matches what the first matches, followed by what the second matches.
    Concatenation(Box<Regex>, Box<Regex>),
    /// Matches zero or more repetitions of what the operand matches.
    Star(Box<Regex>),
}

impl Regex {
    /// The strings that the pattern matches in full.
    pub open spec fn language(self) -> Set<Seq<char>>
        decreases self,
    {
        match self {
            Regex::Empty => lang_empty_string(),
            Regex::Literal(c) => lang_char(c),
            Regex::Alternation(a, b) => lang_union(a.language(), b.language()),
            Regex::Concatenation(a, b) => lang_concat(a.language(), b.language()),
            Regex::Star(a) => lang_star(a.language()),
        }
    }

    /// Whether the pattern matches the whole of `input`.
    pub open spec fn matches(self, input: Seq<char>) -> bool {
        self.language().contains(input)
    }
}

/// A tree and the number of symbols it was read from, or the error.
pub type Parsed = Result<(Regex, nat), ParseError>;

/// The same outcome, counted from `first` symbols earlier.
pub open spec fn after(first: nat, rest: Parsed) -> Parsed {
    match rest {
        Ok((regex, used)) => Ok((regex, first + used)),
        Err(e) => Err(e),
    }
}

/// The symbols from `pos` on: how many there are.
pub open spec fn left(tokens: Seq<Token>, pos: nat) -> nat {
    if pos < tokens.len() {
        (tokens.len() - pos) as nat
    } else {
        0
    }
}

/// At `pos` a concatenation ends: there is a `|`, a `)` or nothing.
pub open spec fn at_boundary(tokens: Seq<Token>, pos: nat) -> bool {
    pos >= tokens.len() || tokens[pos as int] == Token::Union || tokens[pos as int]
        == Token::RParen
}

/// Postfix: a `*` at `pos` turns `inner` into its star. Returns the tree and
/// the number of symbols read, none or one.
pub open spec fn spec_postfix(tokens: Seq<Token>, pos: nat, inner: Regex) -> (Regex, nat) {
    if pos < tokens.len() && tokens[pos as int] == Token::Star {
        (Regex::Star(Box::new(inner)), 1)
    } else {
        (inner, 0)
    }
}

/// A factor that starts with the symbol at `pos`. The count is of the
/// symbols after that first one.
pub open spec fn spec_opened_factor(tokens: Seq<Token>, pos: nat) -> Parsed
    decreases left(tokens, pos), 0nat,
{
    if pos >= tokens.len() {
        Err(ParseError::UnexpectedEOF)
    } else {
        match tokens[pos as int] {
            Token::Literal(c) => Ok((Regex::Literal(c), 0)),
            Token::LParen => match spec_alternation(tokens, pos + 1) {
                Err(e) => Err(e),
                Ok((inner, used)) => if pos + 1 + used < tokens.len() && tokens[(pos + 1
                    + used) as int] == Token::RParen {
                    Ok((inner, used + 1))
                } else {
                    Err(ParseError::MismatchedParentheses)
                },
            },
            t => Err(ParseError::UnexpectedToken(t)),
        }
    }
}

/// Factor: empty at a boundary, else a literal or a group in parentheses.
pub open spec fn spec_factor(tokens: Seq<Token>, pos: nat) -> Parsed
    decreases left(tokens, pos), 1nat,
{
    if at_boundary(tokens, pos) {
        Ok((Regex::Empty, 0))
    } else {
        after(1, spec_opened_factor(tokens, pos))
    }
}

/// A term that starts with the symbol at `pos`. The count is of the symbols
/// after that first one.
pub open spec fn spec_opened_term(tokens: Seq<Token>, pos: nat) -> Parsed
    decreases left(tokens, pos), 1nat,
{
    match spec_opened_factor(tokens, pos) {
        Err(e) => Err(e),
        Ok((inner, used)) => {
            let (term, star) = spec_postfix(tokens, pos + 1 + used, inner);
            Ok((term, used + star))
        },
    }
}

/// Term: a factor and, if a `*` follows it, its star.
pub open spec fn spec_term(tokens: Seq<Token>, pos: nat) -> Parsed
    decreases left(tokens, pos), 2nat,
{
    match spec_factor(tokens, pos) {
        Err(e) => Err(e),
        Ok((inner, used)) => {
            let (term, star) = spec_postfix(tokens, pos + used, inner);
            Ok((term, used + star))
        },
    }
}

/// The terms of a concatenation after those that made `acc`: each is
/// appended on the right, up to the next boundary.
pub open spec fn spec_more_terms(tokens: Seq<Token>, pos: nat, acc: Regex) -> Parsed
    decreases left(tokens, pos), 3nat,
{
    if at_boundary(tokens, pos) {
        Ok((acc, 0))
    } else {
        match spec_opened_term(tokens, pos) {
            Err(e) => Err(e),
            Ok((next, used)) => after(
                1 + used,
                spec_more_terms(
                    tokens,
                    pos + 1 + used,
                    Regex::Concatenation(Box::new(acc), Box::new(next)),
                ),
            ),
        }
    }
}

/// Concatenation: one term, and then every term up to the next boundary.
pub open spec fn spec_concatenation(tokens: Seq<Token>, pos: nat) -> Parsed
    decreases left(tokens, pos), 4nat,
{
    match spec_term(tokens, pos) {
        Err(e) => Err(e),
        Ok((first, used)) => after(used, spec_more_terms(tokens, pos + used, first)),
    }
}

/// The alternatives after those that made `acc`: each follows a `|` and is
/// joined on the right.
pub open spec fn spec_more_alternatives(tokens: Seq<Token>, pos: nat, acc: Regex) -> Parsed
    decreases left(tokens, pos), 5nat,
{
    if pos < tokens.len() && tokens[pos as int] == Token::Union {
        match spec_concatenation(tokens, pos + 1) {
            Err(e) => Err(e),
            Ok((next, used)) => after(
                1 + used,
                spec_more_alternatives(
                    tokens,
                    pos + 1 + used,
                    Regex::Alternation(Box::new(acc), Box::new(next)),
                ),
            ),
        }
    } else {
        Ok((acc, 0))
    }
}

/// Alternation: one concatenation, and then one more after every `|`.
pub open spec fn spec_alternation(tokens: Seq<Token>, pos: nat) -> Parsed
    decreases left(tokens, pos), 6nat,
{
    match spec_concatenation(tokens, pos) {
        Err(e) => Err(e),
        Ok((first, used)) => after(used, spec_more_alternatives(tokens, pos + used, first)),
    }
}

/// The tree of the symbols from `pos` on: an alternation that uses all of
/// them. A symbol that is left over is a `)` that closes nothing.
pub open spec fn spec_regex_from(tokens: Seq<Token>, pos: nat) -> Result<Regex, ParseError> {
    match spec_alternation(tokens, pos) {
        Err(e) => Err(e),
        Ok((regex, used)) => if pos + used >= tokens.len() {
            Ok(regex)
        } else {
            Err(ParseError::MismatchedParentheses)
        },
    }
}

/// The tree of a whole sequence of symbols.
pub open spec fn spec_regex(tokens: Seq<Token>) -> Result<Regex, ParseError> {
    spec_regex_from(tokens, 0)
}

/// The tree of a pattern: that of its symbols, or the error for its first
/// illegal character.
pub open spec fn spec_compile(pattern: Seq<char>) -> Result<Regex, ParseError> {
    match tokenize(pattern) {
        Err(e) => Err(e),
        Ok(tokens) => spec_regex(tokens),
    }
}

/// Away from a boundary a term starts with the symbol it stands at.
pub proof fn lemma_term_opens(tokens: Seq<Token>, pos: nat)
    requires
        !at_boundary(tokens, pos),
    ensures
        spec_term(tokens, pos) == after(1, spec_opened_term(tokens, pos)),
{
}

/// An alternation ends at the end of the symbols or in front of a `)`.
pub proof fn lemma_alternation_end(tokens: Seq<Token>, pos: nat)
    ensures
        spec_alternation(tokens, pos) matches Ok((_, used)) ==> pos + used >= tokens.len()
            || tokens[(pos + used) as int] == Token::RParen,
{
    if let Ok((first, used)) = spec_concatenation(tokens, pos) {
        lemma_concatenation_end(tokens, pos);
        lemma_more_alternatives_end(tokens, pos + used, first);
    }
}

/// A concatenation ends at a boundary.
proof fn lemma_concatenation_end(tokens: Seq<Token>, pos: nat)
    ensures
        spec_concatenation(tokens, pos) matches Ok((_, used)) ==> at_boundary(tokens, pos + used),
{
    if let Ok((first, used)) = spec_term(tokens, pos) {
        lemma_more_terms_end(tokens, pos + used, first);
    }
}

proof fn lemma_more_terms_end(tokens: Seq<Token>, pos: nat, acc: Regex)
    ensures
        spec_more_terms(tokens, pos, acc) matches Ok((_, used)) ==> at_boundary(tokens, pos + used),
    decreases left(tokens, pos),
{
    if !at_boundary(tokens, pos) {
        if let Ok((next, used)) = spec_opened_term(tokens, pos) {
            lemma_more_terms_end(
                tokens,
                pos + 1 + used,
                Regex::Concatenation(Box::new(acc), Box::new(next)),
            );
        }
    }
}

proof fn lemma_more_alternatives_end(tokens: Seq<Token>, pos: nat, acc: Regex)
    requires
        at_boundary(tokens, pos),
    ensures
        spec_more_alternatives(tokens, pos, acc) matches Ok((_, used)) ==> pos + used
            >= tokens.len() || tokens[(pos + used) as int] == Token::RParen,
    decreases left(tokens, pos),
{
    if pos < tokens.len() && tokens[pos as int] == Token::Union {
        if let Ok((next, used)) = spec_concatenation(tokens, pos + 1) {
            lemma_concatenation_end(tokens, pos + 1);
            lemma_more_alternatives_end(
                tokens,
                pos + 1 + used,
                Regex::Alternation(Box::new(acc), Box::new(next)),
            );
        }
    }
}

/// The grammar has a reading for every place where the symbols end, so
/// nothing is rejected for ending too soon.
pub proof fn lemma_never_rejected_for_ending(pattern: Seq<char>)
    ensures
        spec_compile(pattern) != Err::<Regex, ParseError>(ParseError::UnexpectedEOF),
{
    if let Ok(tokens) = tokenize(pattern) {
        lemma_alternation_never_ends_early(tokens, 0);
    }
}

proof fn lemma_alternation_never_ends_early(tokens: Seq<Token>, pos: nat)
    ensures
        spec_alternation(tokens, pos) != Err::<(Regex, nat), ParseError>(ParseError::UnexpectedEOF),
    decreases left(tokens, pos), 6nat,
{
    lemma_concatenation_never_ends_early(tokens, pos);
    if let Ok((first, used)) = spec_concatenation(tokens, pos) {
        lemma_more_alternatives_never_end_early(tokens, pos + used, first);
    }
}

proof fn lemma_more_alternatives_never_end_early(tokens: Seq<Token>, pos: nat, acc: Regex)
    ensures
        spec_more_alternatives(tokens, pos, acc) != Err::<(Regex, nat), ParseError>(
            ParseError::UnexpectedEOF,
        ),
    decreases left(tokens, pos), 5nat,
{
    if pos < tokens.len() && tokens[pos as int] == Token::Union {
        lemma_concatenation_never_ends_early(tokens, pos + 1);
        if let Ok((next, used)) = spec_concatenation(tokens, pos + 1) {
            lemma_more_alternatives_never_end_early(
                tokens,
                pos + 1 + used,
                Regex::Alternation(Box::new(acc), Box::new(next)),
            );
        }
    }
}

proof fn lemma_concatenation_never_ends_early(tokens: Seq<Token>, pos: nat)
    ensures
        spec_concatenation(tokens, pos) != Err::<(Regex, nat), ParseError>(
            ParseError::UnexpectedEOF,
        ),
    decreases left(tokens, pos), 4nat,
{
    if !at_boundary(tokens, pos) {
        lemma_opened_factor_never_ends_early(tokens, pos);
    }
    if let Ok((first, used)) = spec_term(tokens, pos) {
        lemma_more_terms_never_end_early(tokens, pos + used, first);
    }
}

proof fn lemma_more_terms_never_end_early(tokens: Seq<Token>, pos: nat, acc: Regex)
    ensures
        spec_more_terms(tokens, pos, acc) != Err::<(Regex, nat), ParseError>(
            ParseError::UnexpectedEOF,
        ),
    decreases left(tokens, pos), 3nat,
{
    if !at_boundary(tokens, pos) {
        lemma_opened_factor_never_ends_early(tokens, pos);
        if let Ok((next, used)) = spec_opened_term(tokens, pos) {
            lemma_more_terms_never_end_early(
                tokens,
                pos + 1 + used,
                Regex::Concatenation(Box::new(acc), Box::new(next)),
            );
        }
    }
}

proof fn lemma_opened_factor_never_ends_early(tokens: Seq<Token>, pos: nat)
    requires
        pos < tokens.len(),
    ensures
        spec_opened_factor(tokens, pos) != Err::<(Regex, nat), ParseError>(
            ParseError::UnexpectedEOF,
        ),
    decreases left(tokens, pos), 0nat,
{
    if tokens[pos as int] == Token::LParen {
        lemma_alternation_never_ends_early(tokens, pos + 1);
    }
}

} // verus!
