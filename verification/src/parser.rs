//! The parser: recursive descent over the symbols of a pattern, building
//! the automaton as it goes.

use vstd::prelude::*;
use crate::automaton::{Part, Table};
use crate::errors::ParseError;
use crate::lexer::Lexer;
use crate::nfa::{Fragment, NFA};
use crate::syntax::{
    after, at_boundary, left, lemma_term_opens, spec_alternation, spec_concatenation, spec_factor,
    spec_more_alternatives, spec_more_terms, spec_opened_term, spec_regex_from, spec_term, Parsed,
    Regex,
};
use crate::thompson::{assemble, automaton_of, grown_from, lemma_grown_chain, lemma_part_kept};
use crate::token::Token;

verus! {

/// What a parser works on: the symbols of the pattern, or the error that
/// reading them gave, and how many symbols have been used.
pub ghost struct Progress {
    pub source: Result<Seq<Token>, ParseError>,
    pub pos: nat,
}

/// The parser of one pattern.
#[derive(Debug)]
pub struct Parser {
    tokens: Vec<Token>,
    pos: usize,
    failure: Option<ParseError>,
}

impl View for Parser {
    type V = Progress;

    closed spec fn view(&self) -> Progress {
        Progress {
            source: match self.failure {
                Some(e) => Err(e),
                None => Ok(self.tokens@),
            },
            pos: self.pos as nat,
        }
    }
}

/// What a call that was to parse `expected` has delivered: the error, or a
/// fragment made of states added since `before` that accepts the language of
/// the tree, with the position moved past the symbols of the tree.
spec fn delivered(
    result: Result<Fragment, ParseError>,
    expected: Parsed,
    start_pos: nat,
    end_pos: nat,
    before: Table,
    now: Table,
) -> bool {
    match expected {
        Err(e) => result matches Err(err) && err == e,
        Ok((regex, used)) => result matches Ok(nfa) && end_pos == start_pos + used && made(
            nfa@,
            regex,
            before,
            now,
        ),
    }
}

/// The part and the table `now` are what assembling `regex` in `before`
/// gives; the part lives in `now`, is made of states added since `before`,
/// and accepts the language of `regex`.
spec fn made(part: Part, regex: Regex, before: Table, now: Table) -> bool {
    &&& (now, part) == assemble(regex, before)
    &&& part.inside(now)
    &&& part.within(before.len() as int, now.len() as int)
    &&& part.language(now) == regex.language()
}

impl Parser {
    /// A parser for the symbols that `lexer` still has. An illegal character
    /// does not fail here: `parse` reports it.
    pub fn new(lexer: &mut Lexer) -> (parser: Parser)
        ensures
            parser@.source == old(lexer)@.collect_result(),
            parser@.pos == 0,
            final(lexer)@ == old(lexer)@.after_collect(),
    {
        match lexer.collect().unwrap() {
            Ok(tokens) => Parser { tokens, pos: 0, failure: None },
            Err(e) => Parser { tokens: Vec::new(), pos: 0, failure: Some(e) },
        }
    }

    /// The next symbol, if there is one.
    fn peek(&self) -> (token: Option<Token>)
        ensures
            self.pos < self.tokens@.len() ==> token == Some(self.tokens@[self.pos as int]),
            self.pos >= self.tokens@.len() ==> token is None,
    {
        if self.pos < self.tokens.len() {
            Some(self.tokens[self.pos])
        } else {
            None
        }
    }

    /// Moves past the next symbol, if there is one.
    fn consume(&mut self)
        ensures
            final(self).tokens == old(self).tokens,
            final(self).failure == old(self).failure,
            old(self).pos < old(self).tokens@.len() ==> final(self).pos == old(self).pos + 1,
            old(self).pos >= old(self).tokens@.len() ==> final(self).pos == old(self).pos,
    {
        if self.pos < self.tokens.len() {
            self.pos = self.pos + 1;
        }
    }

    /// Moves past the next symbol if it is `expected`, and says whether it was.
    fn consume_if(&mut self, expected: Token) -> (taken: bool)
        ensures
            final(self).tokens == old(self).tokens,
            final(self).failure == old(self).failure,
            taken == (old(self).pos < old(self).tokens@.len() && old(self).tokens@[old(
                self,
            ).pos as int] == expected),
            final(self).pos == old(self).pos + if taken { 1int } else { 0 },
    {
        match self.peek() {
            Some(t) => {
                if t == expected {
                    self.consume();
                    true
                } else {
                    false
                }
            },
            None => false,
        }
    }

    /// Whether the next symbol is one of `tokens`.
    fn peek_multiple(&self, tokens: &[Token]) -> (found: bool)
        ensures
            found == (self.pos < self.tokens@.len() && tokens@.contains(
                self.tokens@[self.pos as int],
            )),
    {
        match self.peek() {
            Some(current) => {
                let mut i: usize = 0;
                while i < tokens.len()
                    invariant
                        i <= tokens@.len(),
                        self.pos < self.tokens@.len(),
                        current == self.tokens@[self.pos as int],
                        forall|j: int| 0 <= j < i ==> tokens@[j] != current,
                    decreases tokens@.len() - i,
                {
                    if tokens[i] == current {
                        assert(tokens@[i as int] == current);
                        return true;
                    }
                    i += 1;
                }
                false
            },
            None => false,
        }
    }

    /// The postfix operator that comes next, if one does.
    fn peek_postfix(&self) -> (postfix: Option<Token>)
        ensures
            postfix == if self.pos < self.tokens@.len() && self.tokens@[self.pos as int]
                == Token::Star {
                Some(Token::Star)
            } else {
                None
            },
    {
        match self.peek() {
            Some(Token::Star) => Some(Token::Star),
            _ => None,
        }
    }

    /// Whether a concatenation ends here.
    fn at_end_of_concatenation(&self) -> (ended: bool)
        ensures
            ended == at_boundary(self.tokens@, self.pos as nat),
    {
        let stops = [Token::Union, Token::RParen];
        proof {
            assert(stops@[0] == Token::Union);
            assert(stops@[1] == Token::RParen);
        }
        self.peek().is_none() || self.peek_multiple(stops.as_slice())
    }

    /// Factor: a group in parentheses, a literal, or, in front of `|`, `)`
    /// or the end, nothing, which stands for the empty string.
    fn parse_factor(&mut self, nfa: &mut NFA) -> (result: Result<Fragment, ParseError>)
        requires
            old(nfa)@.wf(),
        ensures
            final(self).tokens == old(self).tokens,
            final(self).failure == old(self).failure,
            old(self).pos <= final(self).pos,
            final(nfa)@.wf(),
            grown_from(old(nfa)@.edges, final(nfa)@.edges, Set::empty()),
            delivered(
                result,
                spec_factor(old(self).tokens@, old(self).pos as nat),
                old(self).pos as nat,
                final(self).pos as nat,
                old(nfa)@.edges,
                final(nfa)@.edges,
            ),
        decreases left(old(self).tokens@, old(self).pos as nat), 1nat,
    {
        match self.peek() {
            Some(Token::LParen) => {
                self.consume();
                let inner = self.parse_alternation(nfa);
                match inner {
                    Err(e) => Err(e),
                    Ok(group) => {
                        if !self.consume_if(Token::RParen) {
                            return Err(ParseError::MismatchedParentheses);
                        }
                        Ok(group)
                    },
                }
            },
            Some(Token::Literal(c)) => {
                self.consume();
                let nfa = nfa.literal(c);
                Ok(nfa)
            },
            None | Some(Token::Union) | Some(Token::RParen) => {
                let nfa = nfa.epsilon();
                Ok(nfa)
            },
            Some(t) => Err(ParseError::UnexpectedToken(t)),
        }
    }

    /// Term: a factor, made into its star if a `*` follows.
    fn parse_term(&mut self, nfa: &mut NFA) -> (result: Result<Fragment, ParseError>)
        requires
            old(nfa)@.wf(),
        ensures
            final(self).tokens == old(self).tokens,
            final(self).failure == old(self).failure,
            old(self).pos <= final(self).pos,
            final(nfa)@.wf(),
            grown_from(old(nfa)@.edges, final(nfa)@.edges, Set::empty()),
            delivered(
                result,
                spec_term(old(self).tokens@, old(self).pos as nat),
                old(self).pos as nat,
                final(self).pos as nat,
                old(nfa)@.edges,
                final(nfa)@.edges,
            ),
        decreases left(old(self).tokens@, old(self).pos as nat), 2nat,
    {
        let factor = self.parse_factor(nfa);
        match factor {
            Err(e) => Err(e),
            Ok(inner) => {
                let ghost grown = nfa@.edges;
                match self.peek_postfix() {
                    Some(_) => {
                        self.consume();
                        let starred = nfa.kleene_star(inner);
                        proof {
                            lemma_grown_chain(old(nfa)@.edges, grown, nfa@.edges, inner@.states);
                        }
                        Ok(starred)
                    },
                    None => Ok(inner),
                }
            },
        }
    }

    /// Concatenation: terms up to the next `|`, `)` or the end, each
    /// appended to those before it.
    fn parse_concatenation(&mut self, nfa: &mut NFA) -> (result: Result<Fragment, ParseError>)
        requires
            old(nfa)@.wf(),
        ensures
            final(self).tokens == old(self).tokens,
            final(self).failure == old(self).failure,
            old(self).pos <= final(self).pos,
            final(nfa)@.wf(),
            grown_from(old(nfa)@.edges, final(nfa)@.edges, Set::empty()),
            delivered(
                result,
                spec_concatenation(old(self).tokens@, old(self).pos as nat),
                old(self).pos as nat,
                final(self).pos as nat,
                old(nfa)@.edges,
                final(nfa)@.edges,
            ),
        decreases left(old(self).tokens@, old(self).pos as nat), 4nat,
    {
        let ghost tokens = self.tokens@;
        let ghost start = self.pos as nat;
        let ghost before = nfa@.edges;
        let first = self.parse_term(nfa);
        let mut all = match first {
            Err(e) => {
                return Err(e);
            },
            Ok(first) => first,
        };
        let ghost acc: Regex = spec_term(tokens, start).unwrap().0;
        loop
            invariant
                self.tokens == old(self).tokens,
                self.failure == old(self).failure,
                tokens == self.tokens@,
                start == old(self).pos,
                before == old(nfa)@.edges,
                start <= self.pos,
                nfa@.wf(),
                grown_from(before, nfa@.edges, Set::empty()),
                made(all@, acc, before, nfa@.edges),
                spec_concatenation(tokens, start) == after(
                    (self.pos - start) as nat,
                    spec_more_terms(tokens, self.pos as nat, acc),
                ),
            decreases left(tokens, self.pos as nat),
        {
            if self.at_end_of_concatenation() {
                return Ok(all);
            }
            let ghost here = self.pos as nat;
            let ghost grown = nfa@.edges;
            proof {
                lemma_term_opens(tokens, here);
            }
            let next = self.parse_term(nfa);
            match next {
                Err(e) => {
                    return Err(e);
                },
                Ok(rhs) => {
                    let ghost more = nfa@.edges;
                    let ghost next_regex: Regex = spec_opened_term(tokens, here).unwrap().0;
                    proof {
                        lemma_part_kept(grown, more, Set::empty(), all@);
                    }
                    all = nfa.concatenate(all, rhs);
                    proof {
                        acc = Regex::Concatenation(Box::new(acc), Box::new(next_regex));
                        lemma_grown_chain(before, more, nfa@.edges, all@.states);
                    }
                },
            }
        }
    }

    /// Alternation: a concatenation, joined with one more after every `|`.
    fn parse_alternation(&mut self, nfa: &mut NFA) -> (result: Result<Fragment, ParseError>)
        requires
            old(nfa)@.wf(),
        ensures
            final(self).tokens == old(self).tokens,
            final(self).failure == old(self).failure,
            old(self).pos <= final(self).pos,
            final(nfa)@.wf(),
            grown_from(old(nfa)@.edges, final(nfa)@.edges, Set::empty()),
            delivered(
                result,
                spec_alternation(old(self).tokens@, old(self).pos as nat),
                old(self).pos as nat,
                final(self).pos as nat,
                old(nfa)@.edges,
                final(nfa)@.edges,
            ),
        decreases left(old(self).tokens@, old(self).pos as nat), 6nat,
    {
        let ghost tokens = self.tokens@;
        let ghost start = self.pos as nat;
        let ghost before = nfa@.edges;
        let first = self.parse_concatenation(nfa);
        let mut all = match first {
            Err(e) => {
                return Err(e);
            },
            Ok(first) => first,
        };
        let ghost acc: Regex = spec_concatenation(tokens, start).unwrap().0;
        loop
            invariant
                self.tokens == old(self).tokens,
                self.failure == old(self).failure,
                tokens == self.tokens@,
                start == old(self).pos,
                before == old(nfa)@.edges,
                start <= self.pos,
                nfa@.wf(),
                grown_from(before, nfa@.edges, Set::empty()),
                made(all@, acc, before, nfa@.edges),
                spec_alternation(tokens, start) == after(
                    (self.pos - start) as nat,
                    spec_more_alternatives(tokens, self.pos as nat, acc),
                ),
            decreases left(tokens, self.pos as nat),
        {
            if !self.consume_if(Token::Union) {
                return Ok(all);
            }
            let ghost here = self.pos as nat;
            let ghost grown = nfa@.edges;
            let next = self.parse_concatenation(nfa);
            match next {
                Err(e) => {
                    return Err(e);
                },
                Ok(rhs) => {
                    let ghost more = nfa@.edges;
                    let ghost next_regex: Regex = spec_concatenation(tokens, here).unwrap().0;
                    proof {
                        lemma_part_kept(grown, more, Set::empty(), all@);
                    }
                    all = nfa.union(all, rhs);
                    proof {
                        acc = Regex::Alternation(Box::new(acc), Box::new(next_regex));
                        lemma_grown_chain(before, more, nfa@.edges, all@.states);
                    }
                },
            }
        }
    }

    /// Parses the symbols that are left into the automaton of their syntax
    /// tree, which accepts exactly the strings that the pattern matches. An
    /// illegal character in the pattern is reported first; a `)` that closes
    /// nothing is reported as `MismatchedParentheses`. Either way the parser
    /// is used up: no symbol is left in it, and once it has failed it keeps
    /// the error and reports it again whenever it is asked to parse.
    pub fn parse(&mut self) -> (result: Result<NFA, ParseError>)
        ensures
            match old(self)@.source {
                Err(e) => result == Err::<NFA, ParseError>(e) && final(self)@ == old(self)@,
                Ok(tokens) => final(self)@.pos == tokens.len() && match spec_regex_from(
                    tokens,
                    old(self)@.pos,
                ) {
                    Err(e) => {
                        &&& final(self)@.source == Err::<Seq<Token>, ParseError>(e)
                        &&& result == Err::<NFA, ParseError>(e)
                    },
                    Ok(regex) => {
                        &&& final(self)@.source == old(self)@.source
                        &&& result matches Ok(nfa) && nfa@ == automaton_of(regex) && nfa@.wf()
                            && nfa@.language() == regex.language()
                    },
                },
            },
    {
        match self.failure {
            Some(e) => {
                return Err(e);
            },
            None => {},
        }
        let mut nfa = NFA::new();
        let whole = self.parse_alternation(&mut nfa);
        let left_over = self.peek().is_some();
        self.pos = self.tokens.len();
        match whole {
            Err(e) => {
                self.failure = Some(e);
                Err(e)
            },
            Ok(whole) => {
                if left_over {
                    self.failure = Some(ParseError::MismatchedParentheses);
                    return Err(ParseError::MismatchedParentheses);
                }
                nfa.finish(whole);
                Ok(nfa)
            },
        }
    }
}

} // verus!
