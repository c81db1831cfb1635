//! Cookie-pairs as the grammar recognizes them: two spans, not yet text.

use super::nonterminals::{NonTerminalSpan, Span};
use super::Cookie as FullyParsedCookie;
use super::{Error, InternalErrorKind};
use vstd::prelude::*;
use vstd::string::*;

verus! {

/// The spans of one cookie-pair, as a value of the model.
pub struct CookieSpans {
    pub key: Span,
    pub value: Span,
}

/// The spans of the name and of the value of one cookie-pair.
#[derive(Clone, Copy, Debug)]
pub struct Cookie {
    key: NonTerminalSpan,
    value: NonTerminalSpan,
}

impl View for Cookie {
    type V = CookieSpans;

    closed spec fn view(&self) -> CookieSpans {
        CookieSpans { key: self.key@, value: self.value@ }
    }
}

impl Cookie {
    /// The pair with the given spans.
    pub fn new(key: NonTerminalSpan, value: NonTerminalSpan) -> (pair: Cookie)
        ensures
            pair@ == (CookieSpans { key: key@, value: value@ }),
    {
        Cookie { key: key, value: value }
    }

    /// The span of the name.
    pub fn key(&self) -> (key: NonTerminalSpan)
        ensures
            key@ == self@.key,
    {
        self.key
    }

    /// The span of the value.
    pub fn value(&self) -> (value: NonTerminalSpan)
        ensures
            value@ == self@.value,
    {
        self.value
    }

    /// Resolves both spans against `data`. Fails where one of them does not
    /// resolve.
    pub fn with_str<'a>(&self, data: &'a str) -> (res: Result<FullyParsedCookie<'a>, Error>)
        ensures
            res is Ok <==> self@.key.resolves_in(data.spec_bytes()) && self@.value.resolves_in(
                data.spec_bytes(),
            ),
            res matches Ok(cookie) ==> {
                &&& cookie.get_name().spec_bytes() == self@.key.content(data.spec_bytes())
                &&& cookie.get_value().spec_bytes() == self@.value.content(data.spec_bytes())
            },
            res matches Err(error) ==> error matches Error::InternalError(cause) && cause.kind()
                == InternalErrorKind::NonTerminalIndexBeyondBoundaries,
    {
        let name = match self.key.as_str(data) {
            Ok(name) => name,
            Err(error) => {
                return Err(error.to_error());
            },
        };
        let value = match self.value.as_str(data) {
            Ok(value) => value,
            Err(error) => {
                return Err(error.to_error());
            },
        };
        Ok(FullyParsedCookie::new(name, value))
    }
}

} // verus!
