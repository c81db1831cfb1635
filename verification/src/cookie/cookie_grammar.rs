//! The cookie-string grammar and its parser.
//!
//! In terms of the tokens of the tokenizer:
//!
//! ```text
//! cookie-string := OWS cookie-pair OWS (';' OWS cookie-pair OWS)*
//! cookie-pair   := cookie-name '=' OWS cookie-value
//!                | '=' OWS cookie-value
//!                | cookie-name
//! cookie-value  := raw-value | '"' raw-value '"'
//! raw-value     := (TokenOrCookieOctets | CookieOctets | '=')*
//! cookie-name   := TokenOrCookieOctets
//! OWS           := (Space | Whitespace)*
//! ```
//!
//! Whitespace may stand on both sides of every pair, and behind the `=` of
//! a pair; it belongs to no name and to no value. Only the first `=` of a
//! pair separates its name from its value: a value may hold more of them.
//! A pair without `=` has an empty name, and its one token is its value. A
//! name, a value or both may be empty, but not a pair. The token stream
//! ends at the end of the input or at the first byte that belongs to no
//! token category, and the cookie string has to end there too.
//!
//! The grammar is stated over the bytes of the input: a run of whitespace
//! tokens is a run of spaces and tabs, and a raw value is a run of cookie
//! octets and equals signs.

use super::nonterminals::{NonTerminalSpan, Span};
use super::terminals::{Cookie, CookieSpans};
use super::{ParseError, ParseErrorKind};
use crate::cookie_lexer::lexemes::{
    in_set, lemma_maximal_run_end, lemma_run_end_grows, lemma_run_end_maximal, lemma_token_extent,
    run_end, token_at, ByteSet, DOUBLE_QUOTE, EQUALS,
};
use crate::cookie_lexer::{CookieLexer, CookieToken};
use crate::linked_list::LinkedList;
use vstd::prelude::*;

verus! {

/// The outcome of recognizing one cookie-pair: its spans and the offset
/// behind it, or the offset at which the grammar is broken.
pub type PairOutcome = Result<(CookieSpans, int), int>;

/// The outcome of recognizing a sequence of cookie-pairs: their spans in
/// the order of the input, or the offset at which the grammar is broken.
pub type PairsOutcome = Result<Seq<CookieSpans>, int>;

/// The value that follows the `=` of a pair whose name is `key`. `from` is
/// the offset behind the `=`. Whitespace before the value is skipped; the
/// value is the longest run of value octets, within double quotes or
/// without any.
pub open spec fn value_after(bytes: Seq<u8>, key: Span, from: int) -> PairOutcome {
    let at = run_end(bytes, from, ByteSet::Ows);
    if 0 <= at < bytes.len() && bytes[at] == DOUBLE_QUOTE {
        let close = run_end(bytes, at + 1, ByteSet::ValueOctet);
        if close < bytes.len() && bytes[close] == DOUBLE_QUOTE {
            Ok((CookieSpans { key, value: Span { start: at + 1, end: close } }, close + 1))
        } else {
            Err(close)
        }
    } else {
        let end = run_end(bytes, at, ByteSet::ValueOctet);
        Ok((CookieSpans { key, value: Span { start: at, end } }, end))
    }
}

/// The cookie-pair that starts at `at`.
pub open spec fn pair_at(bytes: Seq<u8>, at: int) -> PairOutcome {
    match token_at(bytes, at) {
        Some(token) => match token.kind {
            CookieToken::TokenOrCookieOctets => if token.end < bytes.len() && bytes[token.end]
                == EQUALS {
                value_after(bytes, Span { start: at, end: token.end }, token.end + 1)
            } else {
                Ok(
                    (
                        CookieSpans {
                            key: Span { start: at, end: at },
                            value: Span { start: at, end: token.end },
                        },
                        token.end,
                    ),
                )
            },
            CookieToken::Equals => value_after(bytes, Span { start: at, end: at }, at + 1),
            _ => Err(at),
        },
        None => Err(at),
    }
}

/// `first`, then the pairs of `rest`.
pub open spec fn prepend(first: CookieSpans, rest: PairsOutcome) -> PairsOutcome {
    match rest {
        Ok(pairs) => Ok(seq![first] + pairs),
        Err(offset) => Err(offset),
    }
}

/// The pairs that follow a pair which ends at `from`: each one behind a
/// semicolon, with whitespace allowed on both sides of it, up to the end of
/// the token stream.
pub open spec fn more_pairs(bytes: Seq<u8>, from: int) -> PairsOutcome
    decreases bytes.len() - from,
    via more_pairs_decreases
{
    let stop = run_end(bytes, from, ByteSet::Ows);
    match token_at(bytes, stop) {
        None => Ok(Seq::empty()),
        Some(token) => if token.kind is Semicolon {
            match pair_at(bytes, run_end(bytes, stop + 1, ByteSet::Ows)) {
                Ok((pair, next)) => prepend(pair, more_pairs(bytes, next)),
                Err(offset) => Err(offset),
            }
        } else {
            Err(stop)
        },
    }
}

#[via_fn]
proof fn more_pairs_decreases(bytes: Seq<u8>, from: int) {
    let stop = run_end(bytes, from, ByteSet::Ows);
    if token_at(bytes, stop) is Some {
        lemma_run_end_grows(bytes, from, ByteSet::Ows);
        lemma_run_end_grows(bytes, stop + 1, ByteSet::Ows);
        let at = run_end(bytes, stop + 1, ByteSet::Ows);
        if pair_at(bytes, at) is Ok {
            lemma_pair_extent(bytes, at);
        }
    }
}

/// The cookie string that the tokens from `from` on make up.
pub open spec fn cookie_string_from(bytes: Seq<u8>, from: int) -> PairsOutcome {
    match pair_at(bytes, run_end(bytes, from, ByteSet::Ows)) {
        Ok((pair, next)) => prepend(pair, more_pairs(bytes, next)),
        Err(offset) => Err(offset),
    }
}

/// The cookie string that `bytes` holds.
pub open spec fn cookie_string(bytes: Seq<u8>) -> PairsOutcome {
    cookie_string_from(bytes, 0)
}

/// The name and the value of `pair` as bytes of `bytes`.
pub open spec fn pair_content(bytes: Seq<u8>, pair: CookieSpans) -> (Seq<u8>, Seq<u8>) {
    (pair.key.content(bytes), pair.value.content(bytes))
}

/// The names and values of the pairs of `outcome` as bytes of `bytes`, or
/// nothing where the grammar is broken.
pub open spec fn contents(bytes: Seq<u8>, outcome: PairsOutcome) -> Option<
    Seq<(Seq<u8>, Seq<u8>)>,
> {
    match outcome {
        Ok(pairs) => Some(Seq::new(pairs.len(), |i: int| pair_content(bytes, pairs[i]))),
        Err(_) => None,
    }
}

/// The names and values of the cookies of the cookie string `bytes`, or
/// nothing where `bytes` is no cookie string.
pub open spec fn cookie_contents(bytes: Seq<u8>) -> Option<Seq<(Seq<u8>, Seq<u8>)>> {
    contents(bytes, cookie_string(bytes))
}

/// What is met at `offset`: the token there, or the end of the token stream.
pub open spec fn failure_at(bytes: Seq<u8>, offset: int) -> ParseErrorKind {
    match token_at(bytes, offset) {
        Some(token) => ParseErrorKind::UnrecognizedToken {
            start: token.start as usize,
            token: token.kind,
            end: token.end as usize,
        },
        None => ParseErrorKind::UnrecognizedEof { location: offset as usize },
    }
}

/// A value lies behind its `=`, within the input, and the offset behind it
/// is not before its end.
pub proof fn lemma_value_extent(bytes: Seq<u8>, key: Span, from: int)
    requires
        0 <= from <= bytes.len(),
        value_after(bytes, key, from) is Ok,
    ensures
        ({
            let (pair, next) = value_after(bytes, key, from)->Ok_0;
            &&& pair.key == key
            &&& from <= pair.value.start <= pair.value.end <= next <= bytes.len()
        }),
{
    let at = run_end(bytes, from, ByteSet::Ows);
    lemma_run_end_grows(bytes, from, ByteSet::Ows);
    lemma_run_end_grows(bytes, at, ByteSet::ValueOctet);
    lemma_run_end_grows(bytes, at + 1, ByteSet::ValueOctet);
}

/// A pair is not empty: the offset behind it is behind its start. Its name
/// does not start before the pair nor end behind the start of its value.
pub proof fn lemma_pair_extent(bytes: Seq<u8>, at: int)
    requires
        pair_at(bytes, at) is Ok,
    ensures
        ({
            let (pair, next) = pair_at(bytes, at)->Ok_0;
            &&& 0 <= at == pair.key.start <= pair.key.end <= pair.value.start
            &&& pair.value.start <= pair.value.end <= next <= bytes.len()
            &&& at < next
        }),
{
    lemma_token_extent(bytes, at);
    let token = token_at(bytes, at)->0;
    if token.kind is TokenOrCookieOctets {
        if token.end < bytes.len() && bytes[token.end] == EQUALS {
            lemma_value_extent(bytes, Span { start: at, end: token.end }, token.end + 1);
        }
    } else {
        lemma_value_extent(bytes, Span { start: at, end: at }, at + 1);
    }
}

/// A token stream with one token of lookahead.
struct TokenStream<'input> {
    lexer: CookieLexer<'input>,
    /// The offset of the token in `peeked`, or of the end of the stream.
    at: usize,
    peeked: Option<(usize, CookieToken, usize)>,
}

impl<'input> TokenStream<'input> {
    spec fn input(&self) -> Seq<u8> {
        self.lexer.input()
    }

    /// `peeked` is the token at `at`, and the tokenizer stands behind it.
    spec fn wf(&self) -> bool {
        match token_at(self.input(), self.at as int) {
            Some(token) => {
                &&& self.peeked == Some((self.at, token.kind, self.lexer.position()))
                &&& self.lexer.position() == token.end
                &&& token.start == self.at
                &&& self.at < token.end <= self.input().len()
            },
            None => self.peeked is None && self.lexer.position() == self.at,
        }
    }

    /// The stream of the tokens that `lexer` has not yet scanned.
    fn start(lexer: CookieLexer<'input>) -> (stream: TokenStream<'input>)
        ensures
            stream.wf(),
            stream.input() == lexer.input(),
            stream.at == lexer.position(),
    {
        let mut lexer = lexer;
        let at = lexer.cursor();
        let peeked = TokenStream::scan(&mut lexer);
        TokenStream { lexer: lexer, at: at, peeked: peeked }
    }

    /// The next token of `lexer`, if the stream has not ended.
    fn scan(lexer: &mut CookieLexer<'input>) -> (token: Option<(usize, CookieToken, usize)>)
        ensures
            final(lexer).input() == old(lexer).input(),
            match token_at(old(lexer).input(), old(lexer).position() as int) {
                Some(lexeme) => {
                    &&& token == Some((old(lexer).position(), lexeme.kind, final(lexer).position()))
                    &&& final(lexer).position() == lexeme.end
                    &&& lexeme.start == old(lexer).position()
                    &&& old(lexer).position() < lexeme.end <= old(lexer).input().len()
                },
                None => token is None && final(lexer).position() == old(lexer).position(),
            },
    {
        proof {
            if token_at(lexer.input(), lexer.position() as int) is Some {
                lemma_token_extent(lexer.input(), lexer.position() as int);
            }
        }
        match lexer.get_next_token() {
            Some(Ok(token)) => Some(token),
            _ => None,
        }
    }

    /// Moves to the token behind the one in `peeked`.
    fn advance(&mut self)
        requires
            old(self).wf(),
            old(self).peeked is Some,
        ensures
            final(self).wf(),
            final(self).input() == old(self).input(),
            old(self).peeked matches Some(token) && final(self).at == token.2,
    {
        if let Some((_, _, end)) = self.peeked {
            self.at = end;
            self.peeked = TokenStream::scan(&mut self.lexer);
        }
    }

    /// Moves behind the longest run of bytes of `set`, which is whitespace
    /// or value octets.
    fn skip_run(&mut self, set: ByteSet)
        requires
            old(self).wf(),
            set is Ows || set is ValueOctet,
        ensures
            final(self).wf(),
            final(self).input() == old(self).input(),
            final(self).at == run_end(old(self).input(), old(self).at as int, set),
    {
        let ghost bytes = self.input();
        let ghost from = self.at as int;
        loop
            invariant
                self.wf(),
                self.input() == bytes,
                set is Ows || set is ValueOctet,
                0 <= from <= self.at,
                self.at == from || self.at <= bytes.len(),
                forall|i: int| from <= i < self.at ==> in_set(set, #[trigger] bytes[i]),
            ensures
                self.wf(),
                self.input() == bytes,
                self.at == run_end(bytes, from, set),
            decreases bytes.len() - self.at,
        {
            let in_run = match self.peeked {
                Some((_, kind, _)) => match set {
                    ByteSet::Ows => matches!(kind, CookieToken::Space | CookieToken::Whitespace),
                    _ => matches!(
                        kind,
                        CookieToken::TokenOrCookieOctets
                            | CookieToken::CookieOctets
                            | CookieToken::Equals
                    ),
                },
                None => false,
            };
            if !in_run {
                proof {
                    if self.at <= bytes.len() {
                        lemma_run_end_maximal(bytes, self.at as int, ByteSet::CookieOctet);
                        lemma_maximal_run_end(bytes, from, self.at as int, set);
                    } else {
                        assert(from == self.at);
                    }
                }
                break ;
            }
            proof {
                lemma_run_end_maximal(bytes, self.at as int, ByteSet::Ows);
                lemma_run_end_maximal(bytes, self.at as int, ByteSet::CookieOctet);
            }
            self.advance();
        }
    }
}

/// The parser of cookie strings. It holds no state of its own: all that a
/// parse reads is the tokenizer that it is given.
pub struct CookiesParser;

impl CookiesParser {
    /// A parser.
    pub fn new() -> CookiesParser {
        CookiesParser
    }

    /// Recognizes the cookie string that the tokens of `lexer` make up. The
    /// pairs come in a list that grew at its front: the last pair of the
    /// input is its head.
    pub fn parse<'input>(&self, lexer: CookieLexer<'input>) -> (res: Result<
        LinkedList<Cookie>,
        ParseError,
    >)
        ensures
            match cookie_string_from(lexer.input(), lexer.position() as int) {
                Ok(pairs) => res matches Ok(list) && spans_of(list@) == pairs.reverse(),
                Err(offset) => res matches Err(error) && error.kind() == failure_at(
                    lexer.input(),
                    offset,
                ),
            },
    {
        let ghost bytes = lexer.input();
        let ghost origin = lexer.position() as int;
        let mut stream = TokenStream::start(lexer);
        stream.skip_run(ByteSet::Ows);
        let first = match CookiesParser::parse_pair(&mut stream) {
            Ok(pair) => pair,
            Err(error) => {
                return Err(error);
            },
        };
        let mut list = LinkedList::new(first);
        let ghost mut done: Seq<CookieSpans> = seq![first@];
        proof {
            assert(spans_of(list@) =~= done.reverse());
        }
        loop
            invariant
                bytes == lexer.input(),
                origin == lexer.position(),
                stream.wf(),
                stream.input() == bytes,
                done.len() >= 1,
                spans_of(list@) == done.reverse(),
                cookie_string_from(bytes, origin) == continued(
                    done,
                    more_pairs(bytes, stream.at as int),
                ),
            decreases bytes.len() - stream.at,
        {
            let ghost from = stream.at as int;
            stream.skip_run(ByteSet::Ows);
            match stream.peeked {
                None => {
                    proof {
                        assert(done + Seq::<CookieSpans>::empty() =~= done);
                    }
                    return Ok(list);
                },
                Some((_, CookieToken::Semicolon, _)) => {
                    let ghost stop = stream.at as int;
                    stream.advance();
                    stream.skip_run(ByteSet::Ows);
                    proof {
                        lemma_run_end_grows(bytes, from, ByteSet::Ows);
                        lemma_run_end_grows(bytes, stop + 1, ByteSet::Ows);
                        if pair_at(bytes, stream.at as int) is Ok {
                            lemma_pair_extent(bytes, stream.at as int);
                        }
                    }
                    let pair = match CookiesParser::parse_pair(&mut stream) {
                        Ok(pair) => pair,
                        Err(error) => {
                            return Err(error);
                        },
                    };
                    proof {
                        let rest = more_pairs(bytes, stream.at as int);
                        assert(continued(done, prepend(pair@, rest)) == continued(
                            done.push(pair@),
                            rest,
                        )) by {
                            if rest is Ok {
                                assert(done + (seq![pair@] + rest->Ok_0) =~= done.push(pair@)
                                    + rest->Ok_0);
                            }
                        }
                        lemma_spans_of_insert(list@, pair, done);
                        done = done.push(pair@);
                    }
                    list = list.insert(pair);
                },
                Some((start, token, end)) => {
                    return Err(ParseError::unrecognized_token(start, token, end));
                },
            }
        }
    }

    /// Recognizes the cookie-pair at the head of `stream`.
    fn parse_pair(stream: &mut TokenStream) -> (res: Result<Cookie, ParseError>)
        requires
            old(stream).wf(),
        ensures
            final(stream).wf(),
            final(stream).input() == old(stream).input(),
            match pair_at(old(stream).input(), old(stream).at as int) {
                Ok((pair, next)) => res matches Ok(found) && found@ == pair && final(stream).at
                    == next,
                Err(offset) => res matches Err(error) && error.kind() == failure_at(
                    old(stream).input(),
                    offset,
                ),
            },
    {
        match stream.peeked {
            Some((start, CookieToken::TokenOrCookieOctets, end)) => {
                stream.advance();
                match stream.peeked {
                    Some((_, CookieToken::Equals, _)) => {
                        stream.advance();
                        CookiesParser::parse_value(stream, NonTerminalSpan::new(start, end))
                    },
                    _ => Ok(
                        Cookie::new(
                            NonTerminalSpan::new(start, start),
                            NonTerminalSpan::new(start, end),
                        ),
                    ),
                }
            },
            Some((start, CookieToken::Equals, _)) => {
                stream.advance();
                CookiesParser::parse_value(stream, NonTerminalSpan::new(start, start))
            },
            Some((start, token, end)) => Err(ParseError::unrecognized_token(start, token, end)),
            None => Err(ParseError::unrecognized_eof(stream.at)),
        }
    }

    /// Recognizes the value of the pair whose name is `key`, behind its `=`.
    fn parse_value(stream: &mut TokenStream, key: NonTerminalSpan) -> (res: Result<
        Cookie,
        ParseError,
    >)
        requires
            old(stream).wf(),
        ensures
            final(stream).wf(),
            final(stream).input() == old(stream).input(),
            match value_after(old(stream).input(), key@, old(stream).at as int) {
                Ok((pair, next)) => res matches Ok(found) && found@ == pair && final(stream).at
                    == next,
                Err(offset) => res matches Err(error) && error.kind() == failure_at(
                    old(stream).input(),
                    offset,
                ),
            },
    {
        stream.skip_run(ByteSet::Ows);
        match stream.peeked {
            Some((_, CookieToken::DoubleQuote, _)) => {
                stream.advance();
                let start = stream.at;
                stream.skip_run(ByteSet::ValueOctet);
                let end = stream.at;
                match stream.peeked {
                    Some((_, CookieToken::DoubleQuote, _)) => {
                        stream.advance();
                        Ok(Cookie::new(key, NonTerminalSpan::new(start, end)))
                    },
                    Some((start, token, end)) => Err(
                        ParseError::unrecognized_token(start, token, end),
                    ),
                    None => Err(ParseError::unrecognized_eof(stream.at)),
                }
            },
            _ => {
                let start = stream.at;
                stream.skip_run(ByteSet::ValueOctet);
                Ok(Cookie::new(key, NonTerminalSpan::new(start, stream.at)))
            },
        }
    }
}

/// The spans of each pair of `pairs`.
pub open spec fn spans_of(pairs: Seq<Cookie>) -> Seq<CookieSpans> {
    pairs.map_values(|pair: Cookie| pair@)
}

/// Putting a pair in front of a list that holds `done` in reverse gives the
/// list that holds `done` and the pair in reverse.
proof fn lemma_spans_of_insert(list: Seq<Cookie>, pair: Cookie, done: Seq<CookieSpans>)
    requires
        spans_of(list) == done.reverse(),
    ensures
        spans_of(seq![pair] + list) == done.push(pair@).reverse(),
{
    let grown = spans_of(seq![pair] + list);
    let wanted = done.push(pair@).reverse();
    assert(spans_of(list).len() == done.len());
    assert forall|i: int| 0 <= i < grown.len() implies grown[i] == wanted[i] by {
        if i > 0 {
            assert(grown[i] == spans_of(list)[i - 1]);
            assert(done.reverse()[i - 1] == done[done.len() - i]);
        }
    }
    assert(grown =~= wanted);
}

/// The pairs of `done`, then those of `rest`.
spec fn continued(done: Seq<CookieSpans>, rest: PairsOutcome) -> PairsOutcome {
    match rest {
        Ok(pairs) => Ok(done + pairs),
        Err(offset) => Err(offset),
    }
}

} // verus!
