//! What the tokenizer produces, stated over the bytes of the input.

use super::matching::is_ows_char;
use super::{CharTokenClass, CookieToken};
use vstd::prelude::*;

verus! {

pub const SPACE: u8 = 0x20;

pub const DOUBLE_QUOTE: u8 = 0x22;

pub const SEMICOLON: u8 = 0x3b;

pub const EQUALS: u8 = 0x3d;

/// A token as a value of the model: its category and the half-open byte
/// range `start..end` that it covers.
pub struct Lexeme {
    pub start: int,
    pub kind: CookieToken,
    pub end: int,
}

/// The partition of characters into those valid in both an HTTP token and a
/// cookie value, those valid in a cookie value only, and all others.
pub open spec fn char_class(c: char) -> CharTokenClass {
    if c == '!' || ('#' <= c <= '\'') || c == '*' || c == '+' || c == '-' || c == '.' || ('0' <= c
        <= '9') || ('A' <= c <= 'Z') || ('^' <= c <= 'z') || c == '|' || c == '~' {
        CharTokenClass::TokenOrCookieOctets
    } else if c == '(' || c == ')' || c == '/' || c == ':' || c == '<' || ('>' <= c <= '@') || c
        == '[' || c == ']' || c == '{' || c == '}' {
        CharTokenClass::CookieOctets
    } else {
        CharTokenClass::Excluded
    }
}

/// The sets of bytes of which maximal runs are taken.
pub enum ByteSet {
    /// Space and horizontal tab.
    Ows,
    /// The bytes that may stand in a cookie value.
    CookieOctet,
    /// The cookie octets and the equals sign.
    ValueOctet,
    /// The bytes that belong to a token of some category: whitespace, the
    /// semicolon, the double quote, the equals sign and the cookie octets.
    Lexable,
}

pub open spec fn in_set(set: ByteSet, b: u8) -> bool {
    match set {
        ByteSet::Ows => is_ows_char(b as char),
        ByteSet::CookieOctet => !(char_class(b as char) is Excluded),
        ByteSet::ValueOctet => !(char_class(b as char) is Excluded) || b == EQUALS,
        ByteSet::Lexable => is_ows_char(b as char) || !(char_class(b as char) is Excluded) || b
            == EQUALS || b == SEMICOLON || b == DOUBLE_QUOTE,
    }
}

/// The end of the longest run of bytes of `set` that starts at `from`.
pub open spec fn run_end(bytes: Seq<u8>, from: int, set: ByteSet) -> int
    decreases bytes.len() - from,
{
    if 0 <= from < bytes.len() && in_set(set, bytes[from]) {
        run_end(bytes, from + 1, set)
    } else {
        from
    }
}

/// Every byte of `from..to` is valid in an HTTP token.
pub open spec fn all_token_chars(bytes: Seq<u8>, from: int, to: int) -> bool {
    forall|i: int| from <= i < to ==> char_class(#[trigger] bytes[i] as char) is TokenOrCookieOctets
}

/// `from..to` is a run of bytes of `set` that cannot be extended at its end.
pub open spec fn is_maximal_run(bytes: Seq<u8>, from: int, to: int, set: ByteSet) -> bool {
    &&& 0 <= from <= to <= bytes.len()
    &&& forall|i: int| from <= i < to ==> in_set(set, #[trigger] bytes[i])
    &&& (to == bytes.len() || !in_set(set, bytes[to]))
}

/// The token that is a run of cookie octets starting at `cursor`, if that
/// run is not empty. One octet that is no token character makes the whole
/// run `CookieOctets`.
pub open spec fn pattern_token_at(bytes: Seq<u8>, cursor: int) -> Option<Lexeme> {
    let end = run_end(bytes, cursor, ByteSet::CookieOctet);
    if 0 <= cursor < end {
        Some(
            Lexeme {
                start: cursor,
                kind: if all_token_chars(bytes, cursor, end) {
                    CookieToken::TokenOrCookieOctets
                } else {
                    CookieToken::CookieOctets
                },
                end,
            },
        )
    } else {
        None
    }
}

/// The token that starts at `cursor`: the first category that applies, in
/// the order lone space, equals sign, semicolon, double quote, whitespace
/// run, octet run. A space is lone where neither a space nor a tab follows
/// it; a space before more whitespace starts a whitespace run. There is no
/// token at the end of the input or at a byte that belongs to no category.
pub open spec fn token_at(bytes: Seq<u8>, cursor: int) -> Option<Lexeme> {
    if !(0 <= cursor < bytes.len()) {
        None
    } else if bytes[cursor] == SPACE && (cursor + 1 == bytes.len() || !in_set(
        ByteSet::Ows,
        bytes[cursor + 1],
    )) {
        Some(Lexeme { start: cursor, kind: CookieToken::Space, end: cursor + 1 })
    } else if bytes[cursor] == EQUALS {
        Some(Lexeme { start: cursor, kind: CookieToken::Equals, end: cursor + 1 })
    } else if bytes[cursor] == SEMICOLON {
        Some(Lexeme { start: cursor, kind: CookieToken::Semicolon, end: cursor + 1 })
    } else if bytes[cursor] == DOUBLE_QUOTE {
        Some(Lexeme { start: cursor, kind: CookieToken::DoubleQuote, end: cursor + 1 })
    } else if in_set(ByteSet::Ows, bytes[cursor]) {
        Some(
            Lexeme {
                start: cursor,
                kind: CookieToken::Whitespace,
                end: run_end(bytes, cursor, ByteSet::Ows),
            },
        )
    } else {
        pattern_token_at(bytes, cursor)
    }
}

/// A run does not end before it starts.
pub proof fn lemma_run_end_grows(bytes: Seq<u8>, from: int, set: ByteSet)
    ensures
        from <= run_end(bytes, from, set),
        from <= bytes.len() ==> run_end(bytes, from, set) <= bytes.len(),
    decreases bytes.len() - from,
{
    if 0 <= from < bytes.len() && in_set(set, bytes[from]) {
        lemma_run_end_grows(bytes, from + 1, set);
    }
}

/// `run_end` yields a maximal run.
pub proof fn lemma_run_end_maximal(bytes: Seq<u8>, from: int, set: ByteSet)
    requires
        0 <= from <= bytes.len(),
    ensures
        is_maximal_run(bytes, from, run_end(bytes, from, set), set),
    decreases bytes.len() - from,
{
    if from < bytes.len() && in_set(set, bytes[from]) {
        lemma_run_end_maximal(bytes, from + 1, set);
    }
}

/// A maximal run ends where `run_end` says.
pub proof fn lemma_maximal_run_end(bytes: Seq<u8>, from: int, to: int, set: ByteSet)
    requires
        is_maximal_run(bytes, from, to, set),
    ensures
        run_end(bytes, from, set) == to,
    decreases to - from,
{
    if from < to {
        assert(in_set(set, bytes[from]));
        lemma_maximal_run_end(bytes, from + 1, to, set);
    }
}

/// A run that starts within a stretch of bytes of its set ends where the
/// run from the end of the stretch ends.
pub proof fn lemma_run_through(bytes: Seq<u8>, from: int, mid: int, set: ByteSet)
    requires
        0 <= from <= mid <= bytes.len(),
        forall|i: int| from <= i < mid ==> in_set(set, #[trigger] bytes[i]),
    ensures
        run_end(bytes, from, set) == run_end(bytes, mid, set),
{
    lemma_run_end_maximal(bytes, mid, set);
    lemma_maximal_run_end(bytes, from, run_end(bytes, mid, set), set);
}

/// There is a token exactly where a lexable byte stands.
pub proof fn lemma_token_where_lexable(bytes: Seq<u8>, cursor: int)
    ensures
        token_at(bytes, cursor) is Some <==> 0 <= cursor < bytes.len() && in_set(
            ByteSet::Lexable,
            bytes[cursor],
        ),
{
    if 0 <= cursor < bytes.len() {
        lemma_run_end_maximal(bytes, cursor, ByteSet::CookieOctet);
    }
}

/// A token is not empty, lies within the input, and starts at the cursor.
pub proof fn lemma_token_extent(bytes: Seq<u8>, cursor: int)
    requires
        token_at(bytes, cursor) is Some,
    ensures
        token_at(bytes, cursor)->0.start == cursor,
        0 <= cursor < token_at(bytes, cursor)->0.end <= bytes.len(),
{
    lemma_run_end_maximal(bytes, cursor, ByteSet::Ows);
    lemma_run_end_maximal(bytes, cursor, ByteSet::CookieOctet);
}

} // verus!
