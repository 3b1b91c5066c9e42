//! The tokenizer: it hands out the symbols of a pattern one at a time, with
//! one symbol of lookahead.

use vstd::prelude::*;
use crate::errors::ParseError;
use crate::token::{token_of, Token};

verus! {

/// What the tokenizer has in hand: a symbol that was looked at and not yet
/// taken, if any, and the characters that were not read yet.
pub ghost struct Scan {
    pub peeked: Option<Token>,
    pub rest: Seq<char>,
}

/// What reading the character `c` yields: its symbol, or an error if the
/// character is illegal.
pub open spec fn scan(c: char) -> Result<Token, ParseError> {
    if token_of(c) is Unknown {
        Err(ParseError::UnexpectedToken(token_of(c)))
    } else {
        Ok(token_of(c))
    }
}

/// How many characters at the front of `s` are legal, up to the first
/// illegal one.
pub open spec fn legal_prefix(s: Seq<char>) -> nat
    decreases s.len(),
{
    if s.len() == 0 || token_of(s[0]) is Unknown {
        0
    } else {
        1 + legal_prefix(s.drop_first())
    }
}

/// The symbols of `s`, in order, or the error for its first illegal
/// character.
pub open spec fn tokenize(s: Seq<char>) -> Result<Seq<Token>, ParseError> {
    let n = legal_prefix(s) as int;
    if n == s.len() {
        Ok(Seq::new(s.len(), |i: int| token_of(s[i])))
    } else {
        Err(ParseError::UnexpectedToken(token_of(s[n])))
    }
}

/// The characters of `s` that are left once its first illegal character has
/// been reported; none if all are legal.
pub open spec fn after_tokenize(s: Seq<char>) -> Seq<char> {
    let n = legal_prefix(s) as int;
    if n == s.len() {
        Seq::empty()
    } else {
        s.subrange(n + 1, s.len() as int)
    }
}

impl Scan {
    /// What `next_token` returns.
    pub open spec fn read_result(self) -> Option<Result<Token, ParseError>> {
        if self.rest.len() == 0 {
            None
        } else {
            Some(scan(self.rest[0]))
        }
    }

    /// What `next_token` leaves.
    pub open spec fn after_read(self) -> Scan {
        if self.rest.len() == 0 {
            self
        } else {
            Scan { peeked: self.peeked, rest: self.rest.drop_first() }
        }
    }

    /// What `peek` returns.
    pub open spec fn peek_result(self) -> Option<Result<Token, ParseError>> {
        match self.peeked {
            Some(t) => Some(Ok(t)),
            None => self.read_result(),
        }
    }

    /// What `peek` leaves: a symbol that was read is kept in hand; an
    /// illegal character is gone once it has been reported.
    pub open spec fn after_peek(self) -> Scan {
        match self.peeked {
            Some(_) => self,
            None => match self.read_result() {
                Some(Ok(t)) => Scan { peeked: Some(t), rest: self.rest.drop_first() },
                _ => self.after_read(),
            },
        }
    }

    /// What `next` returns: the symbol in hand if there is one, else what is
    /// read.
    pub open spec fn next_result(self) -> Option<Result<Token, ParseError>> {
        self.peek_result()
    }

    /// What `next` leaves.
    pub open spec fn after_next(self) -> Scan {
        match self.peeked {
            Some(_) => Scan { peeked: None, rest: self.rest },
            None => self.after_read(),
        }
    }

    /// What `collect` returns: the symbol in hand, if any, and then the
    /// symbols of the characters that were not read yet.
    pub open spec fn collect_result(self) -> Result<Seq<Token>, ParseError> {
        match tokenize(self.rest) {
            Err(e) => Err(e),
            Ok(tokens) => match self.peeked {
                Some(t) => Ok(seq![t] + tokens),
                None => Ok(tokens),
            },
        }
    }

    /// What `collect` leaves.
    pub open spec fn after_collect(self) -> Scan {
        Scan { peeked: None, rest: after_tokenize(self.rest) }
    }
}

/// A symbol that `peek` has shown is the one that `next` then takes, and
/// looking twice shows the same.
pub proof fn lemma_peek_is_stable(s: Scan)
    requires
        !(s.peek_result() matches Some(Err(_))),
    ensures
        s.after_peek().peek_result() == s.peek_result(),
        s.after_peek().next_result() == s.peek_result(),
        s.after_peek().after_next() == s.after_next(),
{
}

/// Once the input is used up, `peek` and `next` keep returning `None`.
pub proof fn lemma_end_is_final(s: Scan)
    requires
        s.next_result() is None,
    ensures
        s.after_next() == s,
        s.after_peek() == s,
        s.after_next().peek_result() is None,
        s.after_next().next_result() is None,
{
}

/// The length of the legal prefix, from what is known of each position.
pub proof fn lemma_legal_prefix(s: Seq<char>, n: int)
    requires
        0 <= n <= s.len(),
        forall|i: int| 0 <= i < n ==> !(token_of(#[trigger] s[i]) is Unknown),
        n < s.len() ==> token_of(s[n]) is Unknown,
    ensures
        legal_prefix(s) == n,
    decreases n,
{
    if n > 0 {
        let t = s.drop_first();
        assert(!(token_of(s[0]) is Unknown));
        assert forall|i: int| 0 <= i < n - 1 implies !(token_of(#[trigger] t[i]) is Unknown) by {
            assert(t[i] == s[i + 1]);
        }
        lemma_legal_prefix(t, n - 1);
    }
}

#[derive(Debug)]
enum LexerState {
    Empty,
    Peeked(Token),
}

/// The tokenizer of one pattern.
#[derive(Debug)]
pub struct Lexer {
    input: Vec<char>,
    pos: usize,
    state: LexerState,
}

impl View for Lexer {
    type V = Scan;

    closed spec fn view(&self) -> Scan {
        Scan {
            peeked: match self.state {
                LexerState::Empty => None,
                LexerState::Peeked(t) => Some(t),
            },
            rest: if self.pos <= self.input@.len() {
                self.input@.subrange(self.pos as int, self.input@.len() as int)
            } else {
                Seq::empty()
            },
        }
    }
}

impl Lexer {
    /// A tokenizer at the start of `input`.
    pub fn new(input: String) -> (lexer: Lexer)
        ensures
            lexer@ == (Scan { peeked: None, rest: input@ }),
    {
        let mut chars: Vec<char> = Vec::new();
        let text = input.as_str();
        let all = text.chars();
        for c in it: all
            invariant
                it.seq() == input@,
                chars@ == it.seq().take(it.index()),
        {
            chars.push(c);
            proof {
                assert(it.seq().take(it.index() + 1) =~= it.seq().take(it.index()).push(c));
            }
        }
        let lexer = Lexer { input: chars, pos: 0, state: LexerState::Empty };
        proof {
            assert(chars@ =~= input@);
            assert(lexer@.rest =~= input@);
        }
        lexer
    }

    /// Reads the next character, whatever is in hand: `None` at the end of
    /// the input, else the symbol of the character, or the error for it if
    /// it is illegal. The character is used up either way.
    pub fn next_token(&mut self) -> (result: Option<Result<Token, ParseError>>)
        ensures
            result == old(self)@.read_result(),
            final(self)@ == old(self)@.after_read(),
    {
        if self.pos >= self.input.len() {
            return None;
        }
        let c = self.input[self.pos];
        self.pos = self.pos + 1;
        proof {
            assert(self@.rest =~= old(self)@.rest.drop_first());
        }
        match Token::from_char(c) {
            Token::Unknown(c) => Some(Err(ParseError::UnexpectedToken(Token::Unknown(c)))),
            t => Some(Ok(t)),
        }
    }

    /// The next symbol, without taking it: looking again shows the same
    /// symbol until `next` takes it. An illegal character is reported once
    /// and then passed over.
    pub fn peek(&mut self) -> (result: Option<Result<Token, ParseError>>)
        ensures
            result == old(self)@.peek_result(),
            final(self)@ == old(self)@.after_peek(),
    {
        match self.state {
            LexerState::Empty => {
                let token = self.next_token();
                match token {
                    Some(Ok(t)) => {
                        self.state = LexerState::Peeked(t);
                        Some(Ok(t))
                    },
                    Some(Err(e)) => Some(Err(e)),
                    None => None,
                }
            },
            LexerState::Peeked(t) => Some(Ok(t)),
        }
    }

    /// Takes the next symbol: the one in hand, if `peek` left one, else the
    /// one that is read.
    pub fn next(&mut self) -> (result: Option<Result<Token, ParseError>>)
        ensures
            result == old(self)@.next_result(),
            final(self)@ == old(self)@.after_next(),
    {
        match self.state {
            LexerState::Empty => self.next_token(),
            LexerState::Peeked(t) => {
                self.state = LexerState::Empty;
                Some(Ok(t))
            },
        }
    }

    /// Takes all the symbols that are left, in order, and stops at the first
    /// illegal character, which is reported. The result is always `Some`.
    pub fn collect(&mut self) -> (result: Option<Result<Vec<Token>, ParseError>>)
        ensures
            result is Some,
            match result.unwrap() {
                Ok(tokens) => old(self)@.collect_result() == Ok::<Seq<Token>, ParseError>(tokens@),
                Err(e) => old(self)@.collect_result() == Err::<Seq<Token>, ParseError>(e),
            },
            final(self)@ == old(self)@.after_collect(),
    {
        let mut collected: Vec<Token> = Vec::new();
        let ghost start = self@;
        let ghost head: Seq<Token> = match start.peeked {
            Some(t) => seq![t],
            None => Seq::empty(),
        };
        let ghost k: int = 0;
        loop
            invariant
                0 <= k <= start.rest.len(),
                start == old(self)@,
                head == match start.peeked {
                    Some(t) => seq![t],
                    None => Seq::<Token>::empty(),
                },
                self@.rest == start.rest.subrange(k, start.rest.len() as int),
                forall|i: int| 0 <= i < k ==> !(token_of(#[trigger] start.rest[i]) is Unknown),
                self@.peeked is Some ==> self@.peeked == start.peeked && k == 0 && collected@.len()
                    == 0,
                self@.peeked is None ==> collected@ == head + Seq::new(
                    k as nat,
                    |i: int| token_of(start.rest[i]),
                ),
            decreases self@.rest.len() + (if self@.peeked is Some { 1int } else { 0 }),
        {
            let ghost before = self@;
            match self.next() {
                None => {
                    proof {
                        lemma_legal_prefix(start.rest, k);
                        assert(Seq::new(k as nat, |i: int| token_of(start.rest[i])) =~= Seq::new(
                            start.rest.len(),
                            |i: int| token_of(start.rest[i]),
                        ));
                        assert(Seq::<Token>::empty() + Seq::new(
                            k as nat,
                            |i: int| token_of(start.rest[i]),
                        ) =~= Seq::new(k as nat, |i: int| token_of(start.rest[i])));
                        assert(self@.rest =~= Seq::<char>::empty());
                    }
                    return Some(Ok(collected));
                },
                Some(Ok(token)) => {
                    collected.push(token);
                    proof {
                        if before.peeked is None {
                            assert(before.rest[0] == start.rest[k]);
                            assert(self@.rest =~= start.rest.subrange(
                                k + 1,
                                start.rest.len() as int,
                            ));
                            assert(collected@ =~= head + Seq::new(
                                (k + 1) as nat,
                                |i: int| token_of(start.rest[i]),
                            ));
                            k = k + 1;
                        } else {
                            assert(collected@ =~= head + Seq::new(
                                0nat,
                                |i: int| token_of(start.rest[i]),
                            ));
                        }
                    }
                },
                Some(Err(e)) => {
                    proof {
                        assert(before.rest[0] == start.rest[k]);
                        lemma_legal_prefix(start.rest, k);
                        assert(self@.rest =~= start.rest.subrange(k + 1, start.rest.len() as int));
                    }
                    return Some(Err(e));
                },
            }
        }
    }
}

} // verus!
