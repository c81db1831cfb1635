//! Spans: byte ranges of the input that are resolved to text on demand.

use super::{InternalError, InternalErrorKind};
use crate::cookie_lexer::byte_len;
use vstd::prelude::*;
use vstd::string::*;
use vstd::utf8::*;

verus! {

/// A half-open range `start..end` of byte offsets, as a value of the model.
pub struct Span {
    pub start: int,
    pub end: int,
}

impl Span {
    /// The range lies within `bytes` and both its ends stand on character
    /// boundaries.
    pub open spec fn resolves_in(self, bytes: Seq<u8>) -> bool {
        &&& 0 <= self.start <= self.end <= bytes.len()
        &&& is_char_boundary(bytes, self.start)
        &&& is_char_boundary(bytes, self.end)
    }

    /// The bytes of `bytes` that the range covers.
    pub open spec fn content(self, bytes: Seq<u8>) -> Seq<u8> {
        bytes.subrange(self.start, self.end)
    }
}

/// A half-open range of byte offsets into the input of a parse.
#[derive(Clone, Copy, Debug)]
pub struct NonTerminalSpan {
    start: usize,
    end: usize,
}

impl View for NonTerminalSpan {
    type V = Span;

    closed spec fn view(&self) -> Span {
        Span { start: self.start as int, end: self.end as int }
    }
}

/// In valid UTF-8, a character boundary of the whole is one of each prefix
/// that ends on a character boundary.
proof fn lemma_boundary_in_prefix(bytes: Seq<u8>, start: int, end: int)
    requires
        valid_utf8(bytes),
        0 <= start <= end <= bytes.len(),
        is_char_boundary(bytes, start),
        is_char_boundary(bytes, end),
    ensures
        valid_utf8(bytes.subrange(0, end)),
        is_char_boundary(bytes.subrange(0, end), start),
{
    let prefix = bytes.subrange(0, end);
    valid_utf8_split(bytes, end);
    if start < end {
        is_char_boundary_iff_not_is_continuation_byte(bytes, start);
        is_char_boundary_iff_not_is_continuation_byte(prefix, start);
    } else {
        is_char_boundary_start_end_of_seq(prefix);
    }
}

impl NonTerminalSpan {
    /// The span `start..end`.
    pub fn new(start: usize, end: usize) -> (span: NonTerminalSpan)
        ensures
            span@ == (Span { start: start as int, end: end as int }),
    {
        NonTerminalSpan { start: start, end: end }
    }

    /// The offset of the first byte of the span.
    pub fn start(&self) -> (start: usize)
        ensures
            start == self@.start,
    {
        self.start
    }

    /// The offset behind the last byte of the span.
    pub fn end(&self) -> (end: usize)
        ensures
            end == self@.end,
    {
        self.end
    }

    /// The text of `data` that the span covers. Fails where the span is
    /// reversed, reaches beyond `data`, or splits a character.
    pub fn as_str<'a>(&self, data: &'a str) -> (res: Result<&'a str, InternalError>)
        ensures
            res is Ok <==> self@.resolves_in(data.spec_bytes()),
            res matches Ok(text) ==> text.spec_bytes() == self@.content(data.spec_bytes()),
            res matches Ok(text) ==> text@ == decode_utf8(self@.content(data.spec_bytes())),
            res matches Err(error) ==> error.kind()
                == InternalErrorKind::NonTerminalIndexBeyondBoundaries,
    {
        if self.start <= self.end && self.end <= byte_len(data) && data.is_char_boundary(self.start)
            && data.is_char_boundary(self.end) {
            proof {
                encode_utf8_valid_utf8(data@);
                lemma_boundary_in_prefix(data.spec_bytes(), self.start as int, self.end as int);
            }
            let (head, _) = data.split_at(self.end);
            let (_, text) = head.split_at(self.start);
            proof {
                assert(text.spec_bytes() =~= data.spec_bytes().subrange(
                    self.start as int,
                    self.end as int,
                ));
                encode_utf8_decode_utf8(text@);
            }
            Ok(text)
        } else {
            Err(InternalError::new(InternalErrorKind::NonTerminalIndexBeyondBoundaries))
        }
    }
}

} // verus!
