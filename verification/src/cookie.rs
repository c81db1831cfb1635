//! Cookies and the errors of parsing them.

pub mod cookie_grammar;
pub mod error_text;
pub mod laws;
pub mod nonterminals;
pub mod terminals;
pub mod whitespace;

use self::cookie_grammar::{
    cookie_contents, cookie_string, failure_at, spans_of, CookiesParser,
};
use self::laws::lemma_spans_resolve;
use self::terminals::CookieSpans;
use crate::cookie_lexer::{CookieLexer, CookieToken};
use vstd::prelude::*;
use vstd::string::*;
use vstd::utf8::*;

verus! {

/// One cookie of a `Cookie` header: a name and a value, both borrowed from
/// the header text.
#[derive(Debug)]
pub struct Cookie<'a> {
    name: &'a str,
    value: &'a str,
}

/// `cookies` are the pairs of `pairs` in the same order: as many, and each
/// name and each value is the substring of `bytes` that its span addresses.
pub open spec fn resolved(
    cookies: Seq<Cookie<'_>>,
    pairs: Seq<CookieSpans>,
    bytes: Seq<u8>,
) -> bool {
    &&& cookies.len() == pairs.len()
    &&& forall|i: int|
        0 <= i < pairs.len() ==> {
            &&& (#[trigger] pairs[i]).key.resolves_in(bytes)
            &&& pairs[i].value.resolves_in(bytes)
            &&& cookies[i].name().spec_bytes() == pairs[i].key.content(bytes)
            &&& cookies[i].value().spec_bytes() == pairs[i].value.content(bytes)
        }
}

/// The names and values of `cookies` as bytes.
pub open spec fn texts_of(cookies: Seq<Cookie<'_>>) -> Seq<(Seq<u8>, Seq<u8>)> {
    Seq::new(
        cookies.len(),
        |i: int| (cookies[i].name().spec_bytes(), cookies[i].value().spec_bytes()),
    )
}

impl<'a> Cookie<'a> {
    /// Parses a cookie string, the value of a `Cookie` header. The cookies
    /// come in the order of the input, and their names and values are
    /// substrings of it. An input that is no cookie string gives a
    /// `ParseError` that tells what was met at the first offset at which
    /// the grammar is broken; nothing else fails.
    pub fn parse(input: &'a str) -> (res: Result<Vec<Cookie<'a>>, Error>)
        ensures
            match cookie_string(input.spec_bytes()) {
                Ok(pairs) => res matches Ok(cookies) && resolved(
                    cookies@,
                    pairs,
                    input.spec_bytes(),
                ),
                Err(offset) => res matches Err(Error::ParseError(error)) && error.kind()
                    == failure_at(input.spec_bytes(), offset),
            },
            res matches Ok(cookies) ==> Some(texts_of(cookies@)) == cookie_contents(
                input.spec_bytes(),
            ),
    {
        let ghost bytes = input.spec_bytes();
        let list = match CookiesParser::new().parse(CookieLexer::new(input)) {
            Ok(list) => list,
            Err(error) => {
                return Err(error.to_error());
            },
        };
        let raw = list.clone_to_vec();
        let ghost pairs = cookie_string(bytes)->Ok_0;
        proof {
            encode_utf8_valid_utf8(input@);
            lemma_spans_resolve(bytes);
            assert(spans_of(list@).len() == pairs.reverse().len());
            let last = pairs.len() - 1;
            assert forall|k: int| 0 <= k < raw@.len() implies (#[trigger] raw@[k])@ == pairs[last
                - k] by {
                assert(cloned(list@[k], raw@[k]));
                assert(raw@[k] == list@[k]);
                assert(spans_of(list@)[k] == list@[k]@);
                assert(pairs.reverse()[k] == pairs[pairs.len() - 1 - k]);
            }
        }
        let mut cookies: Vec<Cookie<'a>> = Vec::new();
        let mut i = raw.len();
        while i > 0
            invariant
                bytes == input.spec_bytes(),
                cookie_string(bytes) == Ok::<Seq<CookieSpans>, int>(pairs),
                raw@.len() == pairs.len(),
                i <= raw@.len(),
                forall|k: int|
                    0 <= k < raw@.len() ==> (#[trigger] raw@[k])@ == pairs[pairs.len() - 1 - k],
                forall|k: int|
                    0 <= k < pairs.len() ==> {
                        &&& (#[trigger] pairs[k]).key.resolves_in(bytes)
                        &&& pairs[k].value.resolves_in(bytes)
                    },
                cookies@.len() + i == raw@.len(),
                forall|k: int|
                    0 <= k < cookies@.len() ==> {
                        &&& (#[trigger] cookies@[k]).name().spec_bytes() == pairs[k].key.content(
                            bytes,
                        )
                        &&& cookies@[k].value().spec_bytes() == pairs[k].value.content(bytes)
                    },
            decreases i,
        {
            i -= 1;
            proof {
                assert(raw@[i as int]@ == pairs[pairs.len() - 1 - i]);
                assert(pairs[pairs.len() - 1 - i].key.resolves_in(bytes));
            }
            match raw[i].with_str(input) {
                Ok(cookie) => {
                    cookies.push(cookie);
                },
                Err(error) => {
                    return Err(error);
                },
            }
        }
        proof {
            assert(texts_of(cookies@) =~= cookie_contents(bytes)->0);
        }
        Ok(cookies)
    }

    /// The name of the cookie.
    pub closed spec fn name(&self) -> &'a str {
        self.name
    }

    /// The value of the cookie.
    pub closed spec fn value(&self) -> &'a str {
        self.value
    }

    /// The cookie with the given name and value.
    pub fn new(name: &'a str, value: &'a str) -> (cookie: Cookie<'a>)
        ensures
            cookie.name() == name,
            cookie.value() == value,
    {
        Cookie { name: name, value: value }
    }

    /// Gets the name of the cookie.
    #[verifier::when_used_as_spec(name)]
    pub fn get_name(&self) -> (name: &'a str)
        ensures
            name == self.name(),
    {
        self.name
    }

    /// Gets the value of the cookie.
    #[verifier::when_used_as_spec(value)]
    pub fn get_value(&self) -> (value: &'a str)
        ensures
            value == self.value(),
    {
        self.value
    }
}

/// Why a cookie string was not parsed.
#[derive(Debug, Clone, Copy)]
pub enum Error {
    /// An invariant of the parser was broken.
    InternalError(InternalError),
    /// The input is no cookie string.
    ParseError(ParseError),
}

/// The invariants whose violation is reported.
#[derive(Debug, PartialEq, Eq, Clone, Copy, Structural)]
pub enum InternalErrorKind {
    /// A span does not address a substring of the input.
    NonTerminalIndexBeyondBoundaries,
}

/// A broken invariant of the parser.
#[derive(Debug, Clone, Copy)]
pub struct InternalError(InternalErrorKind);

impl InternalError {
    /// Which invariant was broken.
    pub closed spec fn kind(&self) -> InternalErrorKind {
        self.0
    }

    /// The error of the given kind.
    pub fn new(kind: InternalErrorKind) -> (error: InternalError)
        ensures
            error.kind() == kind,
    {
        InternalError(kind)
    }

    /// Which invariant was broken.
    pub fn get_kind(&self) -> (kind: InternalErrorKind)
        ensures
            kind == self.kind(),
    {
        self.0
    }

    /// The error as the error of a parse.
    pub fn to_error(self) -> (error: Error)
        ensures
            error == Error::InternalError(self),
    {
        Error::InternalError(self)
    }
}

/// What the parser met where the grammar allows no such thing.
#[derive(Debug, PartialEq, Eq, Clone, Copy, Structural)]
pub enum ParseErrorKind {
    /// The token stream ended at `location`, within a cookie string.
    UnrecognizedEof { location: usize },
    /// The token of category `token` at `start..end` cannot stand where it
    /// does.
    UnrecognizedToken { start: usize, token: CookieToken, end: usize },
}

/// An input that is no cookie string.
#[derive(Debug, Clone, Copy)]
pub struct ParseError {
    kind: ParseErrorKind,
}

impl ParseError {
    /// What was met, and where.
    pub closed spec fn kind(&self) -> ParseErrorKind {
        self.kind
    }

    /// The error for a token stream that ends at `location`.
    pub fn unrecognized_eof(location: usize) -> (error: ParseError)
        ensures
            error.kind() == (ParseErrorKind::UnrecognizedEof { location }),
    {
        ParseError { kind: ParseErrorKind::UnrecognizedEof { location: location } }
    }

    /// The error for a token that cannot stand where it does.
    pub fn unrecognized_token(start: usize, token: CookieToken, end: usize) -> (error: ParseError)
        ensures
            error.kind() == (ParseErrorKind::UnrecognizedToken { start, token, end }),
    {
        ParseError {
            kind: ParseErrorKind::UnrecognizedToken { start: start, token: token, end: end },
        }
    }

    /// What was met, and where.
    pub fn get_kind(&self) -> (kind: ParseErrorKind)
        ensures
            kind == self.kind(),
    {
        self.kind
    }

    /// The error as the error of a parse.
    pub fn to_error(self) -> (error: Error)
        ensures
            error == Error::ParseError(self),
    {
        Error::ParseError(self)
    }
}

} // verus!
