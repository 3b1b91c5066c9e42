//! A small regular-expression engine: patterns of literals, `|`, `*` and
//! parentheses are compiled to a nondeterministic automaton, which is then
//! run against whole input strings.
//!
//! ```
//! let compiled = rregex::RRegex::new("(ab)*".to_string()).unwrap();
//! assert!(compiled.matches("abab"));
//! assert!(!compiled.matches("aba"));
//! ```
//!
//! The pipeline is `Lexer` (characters to symbols), `Parser` (symbols to
//! automaton, by Thompson's construction) and `Matcher` (automaton against
//! input). What each step computes is stated against a model: the language
//! of the syntax tree of the pattern (`syntax`), and the walks through the
//! table of an automaton (`automaton`).

use vstd::prelude::*;

pub mod automaton;
pub mod errors;
pub mod language;
pub mod lexer;
pub mod matcher;
pub mod nfa;
pub mod parser;
mod search;
pub mod simulation;
pub mod syntax;
pub mod thompson;
pub mod token;

use crate::automaton::Automaton;
use crate::syntax::spec_compile;
use crate::thompson::automaton_of;

pub use crate::errors::ParseError;
pub use crate::lexer::Lexer;
pub use crate::matcher::Matcher;
pub use crate::parser::Parser;
pub use crate::token::Token;

verus! {

/// A compiled pattern.
pub struct RRegex {
    matcher: Matcher,
}

impl View for RRegex {
    type V = Automaton;

    closed spec fn view(&self) -> Automaton {
        self.matcher@
    }
}

impl RRegex {
    /// The strings that the compiled pattern matches in full.
    pub open spec fn language(&self) -> Set<Seq<char>> {
        self@.language()
    }

    /// Whether `self` is what compiling `pattern` gives: the pattern has a
    /// syntax tree, `self` holds the automaton of that tree, and it matches
    /// exactly the strings of the language of the tree.
    pub open spec fn compiled_from(&self, pattern: Seq<char>) -> bool {
        spec_compile(pattern) matches Ok(tree) && self@ == automaton_of(tree) && self.language()
            == tree.language()
    }

    /// Compiles `regex`. A pattern that the grammar rejects, or that holds an
    /// illegal character, gives the error; any other gives a matcher for
    /// exactly the strings that the pattern matches in full.
    pub fn new(regex: String) -> (compiled: Result<RRegex, ParseError>)
        ensures
            match spec_compile(regex@) {
                Err(e) => compiled == Err::<RRegex, ParseError>(e),
                Ok(tree) => compiled matches Ok(rregex) && rregex.compiled_from(regex@),
            },
    {
        let mut lexer = Lexer::new(regex);
        let mut parser = Parser::new(&mut lexer);
        match parser.parse() {
            Err(e) => Err(e),
            Ok(nfa) => {
                let matcher = Matcher::new(nfa);
                Ok(RRegex { matcher })
            },
        }
    }

    /// Whether the pattern matches the whole of `input`.
    pub fn matches(&self, input: &str) -> (matched: bool)
        ensures
            matched == self.language().contains(input@),
    {
        self.matcher.matches(input)
    }
}

/// Compiling a pattern twice gives two matchers that agree on every input.
pub proof fn lemma_compile_is_deterministic(
    pattern: Seq<char>,
    first: RRegex,
    second: RRegex,
    input: Seq<char>,
)
    requires
        first.compiled_from(pattern),
        second.compiled_from(pattern),
    ensures
        first.language().contains(input) == second.language().contains(input),
{
}

/// A compiled pattern matches an input exactly if the syntax tree of the
/// pattern does.
pub proof fn lemma_compiled_matches_tree(pattern: Seq<char>, compiled: RRegex, input: Seq<char>)
    requires
        compiled.compiled_from(pattern),
    ensures
        spec_compile(pattern) matches Ok(tree) && (compiled.language().contains(
            input,
        ) <==> tree.matches(input)),
{
}

} // verus!
