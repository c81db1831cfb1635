//! What holds of every parse.

use super::cookie_grammar::{
    cookie_string, cookie_string_from, lemma_pair_extent, more_pairs, pair_at, value_after,
};
use super::nonterminals::{NonTerminalSpan, Span};
use super::terminals::CookieSpans;
use super::InternalError;
use crate::cookie_lexer::lexemes::{
    in_set, lemma_maximal_run_end, lemma_run_end_maximal, lemma_run_through, lemma_token_extent,
    lemma_token_where_lexable, run_end, token_at, ByteSet, DOUBLE_QUOTE, EQUALS, SEMICOLON,
};
use vstd::prelude::*;
use vstd::string::*;
use vstd::utf8::*;

verus! {

/// The bytes that the grammar has a place for: those that belong to a
/// token.
pub open spec fn is_grammar_byte(b: u8) -> bool {
    in_set(ByteSet::Lexable, b)
}

/// The bytes that stand between names and values: whitespace, the equals
/// sign, the semicolon and the double quote.
pub open spec fn is_separator_byte(b: u8) -> bool {
    in_set(ByteSet::Ows, b) || b == EQUALS || b == SEMICOLON || b == DOUBLE_QUOTE
}

/// The offset `at` lies in the name or in the value of `pair`.
pub open spec fn in_pair(pair: CookieSpans, at: int) -> bool {
    pair.key.start <= at < pair.key.end || pair.value.start <= at < pair.value.end
}

/// Every byte of `from..to` lies in the name or the value of one of
/// `pairs`, or is a separator.
pub open spec fn covered(bytes: Seq<u8>, pairs: Seq<CookieSpans>, from: int, to: int) -> bool {
    forall|at: int|
        from <= at < to ==> is_separator_byte(#[trigger] bytes[at]) || exists|i: int|
            0 <= i < pairs.len() && in_pair(#[trigger] pairs[i], at)
}

/// Every byte of `from..to` is one that the grammar has a place for.
pub open spec fn grammar_bytes(bytes: Seq<u8>, from: int, to: int) -> bool {
    forall|i: int| from <= i < to ==> is_grammar_byte(#[trigger] bytes[i])
}

/// A grammar byte is an ASCII character.
proof fn lemma_grammar_byte_is_ascii(b: u8)
    requires
        is_grammar_byte(b),
    ensures
        b < 0x80,
{
}

/// Behind a stretch of ASCII characters at the start of valid UTF-8, every
/// offset is a character boundary.
proof fn lemma_boundary_behind_ascii(bytes: Seq<u8>, index: int)
    requires
        valid_utf8(bytes),
        0 <= index <= bytes.len(),
        forall|i: int| 0 <= i < index ==> #[trigger] bytes[i] < 0x80,
    ensures
        is_char_boundary(bytes, index),
    decreases index,
{
    if index > 0 {
        let rest = pop_first_scalar(bytes);
        assert(is_leading_byte_width_1(bytes[0])) by {
            assert(bytes[0] < 0x80);
            utf8_byte_ranges_bitwise(bytes[0]);
        }
        assert(length_of_first_scalar(bytes) == 1);
        assert forall|i: int| 0 <= i < index - 1 implies #[trigger] rest[i] < 0x80 by {
            assert(rest[i] == bytes[i + 1]);
        }
        lemma_boundary_behind_ascii(rest, index - 1);
    }
}

/// The pair lies within `from..to`, its name before its value, and no byte
/// from `from` up to the end of its value is foreign to the grammar.
pub open spec fn pair_within(bytes: Seq<u8>, pair: CookieSpans, from: int, to: int) -> bool {
    &&& from <= pair.key.start <= pair.key.end <= pair.value.start <= pair.value.end <= to
    &&& grammar_bytes(bytes, from, pair.value.end)
}

/// A value and what stands before it, from its `=` on, hold grammar bytes
/// only.
proof fn lemma_value_bytes(bytes: Seq<u8>, key: Span, from: int)
    requires
        0 <= from <= bytes.len(),
        value_after(bytes, key, from) is Ok,
    ensures
        grammar_bytes(bytes, from, value_after(bytes, key, from)->Ok_0.1),
{
    let at = run_end(bytes, from, ByteSet::Ows);
    lemma_run_end_maximal(bytes, from, ByteSet::Ows);
    lemma_run_end_maximal(bytes, at, ByteSet::ValueOctet);
    if at < bytes.len() {
        lemma_run_end_maximal(bytes, at + 1, ByteSet::ValueOctet);
    }
}

/// A pair holds grammar bytes only.
proof fn lemma_pair_bytes(bytes: Seq<u8>, at: int)
    requires
        pair_at(bytes, at) is Ok,
    ensures
        grammar_bytes(bytes, at, pair_at(bytes, at)->Ok_0.1),
{
    lemma_token_extent(bytes, at);
    let token = token_at(bytes, at)->0;
    lemma_run_end_maximal(bytes, at, ByteSet::CookieOctet);
    if token.kind is TokenOrCookieOctets {
        if token.end < bytes.len() && bytes[token.end] == EQUALS {
            lemma_value_bytes(bytes, Span { start: at, end: token.end }, token.end + 1);
        }
    } else {
        lemma_value_bytes(bytes, Span { start: at, end: at }, at + 1);
    }
}

/// Each pair ends before the next one starts.
pub open spec fn pairs_in_order(pairs: Seq<CookieSpans>) -> bool {
    forall|i: int, j: int|
        0 <= i < j < pairs.len() ==> (#[trigger] pairs[i]).value.end < (
        #[trigger] pairs[j]).key.start
}

/// The sequence of `first` and then `rest` is in order where `rest` is, and
/// all of `rest` lies behind `limit`, which is not before the end of
/// `first`.
proof fn lemma_in_order_prepend(first: CookieSpans, rest: Seq<CookieSpans>, limit: int)
    requires
        pairs_in_order(rest),
        first.value.end <= limit,
        forall|i: int| 0 <= i < rest.len() ==> limit < (#[trigger] rest[i]).key.start,
    ensures
        pairs_in_order(seq![first] + rest),
{
    let pairs = seq![first] + rest;
    assert forall|i: int, j: int| 0 <= i < j < pairs.len() implies (#[trigger] pairs[i]).value.end < (
    #[trigger] pairs[j]).key.start by {
        assert(pairs[j] == rest[j - 1]);
        if i > 0 {
            assert(pairs[i] == rest[i - 1]);
        }
    }
}

/// The pairs that follow a pair lie behind it, within the input and in
/// order, and no byte up to the end of each is foreign to the grammar.
proof fn lemma_more_pairs_within(bytes: Seq<u8>, from: int)
    requires
        0 <= from <= bytes.len(),
        more_pairs(bytes, from) is Ok,
    ensures
        pairs_in_order(more_pairs(bytes, from)->Ok_0),
        forall|i: int|
            0 <= i < more_pairs(bytes, from)->Ok_0.len() ==> from < (#[trigger] more_pairs(
                bytes,
                from,
            )->Ok_0[i]).key.start && pair_within(
                bytes,
                more_pairs(bytes, from)->Ok_0[i],
                from,
                bytes.len() as int,
            ),
    decreases bytes.len() - from,
{
    let stop = run_end(bytes, from, ByteSet::Ows);
    lemma_run_end_maximal(bytes, from, ByteSet::Ows);
    if token_at(bytes, stop) is Some {
        let at = run_end(bytes, stop + 1, ByteSet::Ows);
        lemma_run_end_maximal(bytes, stop + 1, ByteSet::Ows);
        lemma_pair_extent(bytes, at);
        lemma_pair_bytes(bytes, at);
        let (pair, next) = pair_at(bytes, at)->Ok_0;
        lemma_more_pairs_within(bytes, next);
        let rest = more_pairs(bytes, next)->Ok_0;
        let pairs = more_pairs(bytes, from)->Ok_0;
        assert(pairs =~= seq![pair] + rest);
        lemma_in_order_prepend(pair, rest, next);
        assert forall|i: int| 0 <= i < pairs.len() implies from < (#[trigger] pairs[i]).key.start
            && pair_within(bytes, pairs[i], from, bytes.len() as int) by {
            if i > 0 {
                assert(pairs[i] == rest[i - 1]);
                assert(pair_within(bytes, rest[i - 1], next, bytes.len() as int));
            }
        }
    }
}

/// The pairs of a cookie string lie within the input and in order, and no
/// byte from the start of the string up to the end of each is foreign to
/// the grammar.
pub(crate) proof fn lemma_cookie_string_from_within(bytes: Seq<u8>, from: int)
    requires
        0 <= from <= bytes.len(),
        cookie_string_from(bytes, from) is Ok,
    ensures
        cookie_string_from(bytes, from)->Ok_0.len() >= 1,
        pairs_in_order(cookie_string_from(bytes, from)->Ok_0),
        forall|i: int|
            0 <= i < cookie_string_from(bytes, from)->Ok_0.len() ==> pair_within(
                bytes,
                #[trigger] cookie_string_from(bytes, from)->Ok_0[i],
                from,
                bytes.len() as int,
            ),
{
    let at = run_end(bytes, from, ByteSet::Ows);
    lemma_run_end_maximal(bytes, from, ByteSet::Ows);
    lemma_pair_extent(bytes, at);
    lemma_pair_bytes(bytes, at);
    let (pair, next) = pair_at(bytes, at)->Ok_0;
    lemma_more_pairs_within(bytes, next);
    let rest = more_pairs(bytes, next)->Ok_0;
    let pairs = cookie_string_from(bytes, from)->Ok_0;
    assert(pairs =~= seq![pair] + rest);
    lemma_in_order_prepend(pair, rest, next);
    assert forall|i: int| 0 <= i < pairs.len() implies pair_within(
        bytes,
        #[trigger] pairs[i],
        from,
        bytes.len() as int,
    ) by {
        if i > 0 {
            assert(pairs[i] == rest[i - 1]);
            assert(pair_within(bytes, rest[i - 1], next, bytes.len() as int));
        }
    }
}

/// In a string, the spans of every pair of its cookie string resolve: the
/// parser hands out no span that fails to address text.
pub proof fn lemma_spans_resolve(bytes: Seq<u8>)
    requires
        valid_utf8(bytes),
        cookie_string(bytes) is Ok,
    ensures
        forall|i: int|
            0 <= i < cookie_string(bytes)->Ok_0.len() ==> {
                &&& (#[trigger] cookie_string(bytes)->Ok_0[i]).key.resolves_in(bytes)
                &&& cookie_string(bytes)->Ok_0[i].value.resolves_in(bytes)
            },
{
    lemma_cookie_string_from_within(bytes, 0);
    let pairs = cookie_string(bytes)->Ok_0;
    assert forall|i: int| 0 <= i < pairs.len() implies {
        &&& (#[trigger] pairs[i]).key.resolves_in(bytes)
        &&& pairs[i].value.resolves_in(bytes)
    } by {
        let pair = pairs[i];
        assert(pair_within(bytes, pair, 0, bytes.len() as int));
        assert forall|k: int| 0 <= k < pair.value.end implies #[trigger] bytes[k] < 0x80 by {
            lemma_grammar_byte_is_ascii(bytes[k]);
        }
        lemma_boundary_behind_ascii(bytes, pair.key.start);
        lemma_boundary_behind_ascii(bytes, pair.key.end);
        lemma_boundary_behind_ascii(bytes, pair.value.start);
        lemma_boundary_behind_ascii(bytes, pair.value.end);
    }
}

/// Every byte from the `=` of a pair up to the offset behind its value is a
/// separator or lies in the value.
proof fn lemma_value_covered(bytes: Seq<u8>, key: Span, from: int)
    requires
        0 <= from <= bytes.len(),
        value_after(bytes, key, from) is Ok,
    ensures
        ({
            let (pair, next) = value_after(bytes, key, from)->Ok_0;
            forall|at: int|
                from <= at < next ==> is_separator_byte(#[trigger] bytes[at]) || pair.value.start
                    <= at < pair.value.end
        }),
{
    let at = run_end(bytes, from, ByteSet::Ows);
    lemma_run_end_maximal(bytes, from, ByteSet::Ows);
    lemma_run_end_maximal(bytes, at, ByteSet::ValueOctet);
    if at < bytes.len() {
        lemma_run_end_maximal(bytes, at + 1, ByteSet::ValueOctet);
    }
}

/// Every byte of a pair is a separator or lies in its name or its value.
proof fn lemma_pair_covered(bytes: Seq<u8>, at: int)
    requires
        pair_at(bytes, at) is Ok,
    ensures
        ({
            let (pair, next) = pair_at(bytes, at)->Ok_0;
            forall|k: int|
                at <= k < next ==> is_separator_byte(#[trigger] bytes[k]) || in_pair(pair, k)
        }),
{
    lemma_token_extent(bytes, at);
    let token = token_at(bytes, at)->0;
    if token.kind is TokenOrCookieOctets {
        if token.end < bytes.len() && bytes[token.end] == EQUALS {
            lemma_value_covered(bytes, Span { start: at, end: token.end }, token.end + 1);
        }
    } else {
        lemma_value_covered(bytes, Span { start: at, end: at }, at + 1);
    }
}

/// What `rest` covers, `first` and then `rest` cover; what `first` covers,
/// they cover as well.
proof fn lemma_covered_prepend(
    bytes: Seq<u8>,
    first: CookieSpans,
    rest: Seq<CookieSpans>,
    from: int,
    mid: int,
    to: int,
)
    requires
        forall|at: int|
            from <= at < mid ==> is_separator_byte(#[trigger] bytes[at]) || in_pair(first, at),
        covered(bytes, rest, mid, to),
    ensures
        covered(bytes, seq![first] + rest, from, to),
{
    let pairs = seq![first] + rest;
    assert forall|at: int| from <= at < to implies is_separator_byte(#[trigger] bytes[at])
        || exists|i: int| 0 <= i < pairs.len() && in_pair(#[trigger] pairs[i], at) by {
        if !is_separator_byte(bytes[at]) {
            if at < mid {
                assert(in_pair(pairs[0], at));
            } else {
                let i = choose|i: int| 0 <= i < rest.len() && in_pair(#[trigger] rest[i], at);
                assert(pairs[i + 1] == rest[i]);
                assert(in_pair(pairs[i + 1], at));
            }
        }
    }
}

/// Behind a pair, up to the end of the token stream, every byte is a
/// separator or lies in the name or the value of a pair that follows.
proof fn lemma_more_pairs_covered(bytes: Seq<u8>, from: int)
    requires
        0 <= from <= bytes.len(),
        more_pairs(bytes, from) is Ok,
    ensures
        covered(
            bytes,
            more_pairs(bytes, from)->Ok_0,
            from,
            run_end(bytes, from, ByteSet::Lexable),
        ),
    decreases bytes.len() - from,
{
    let stop = run_end(bytes, from, ByteSet::Ows);
    lemma_run_end_maximal(bytes, from, ByteSet::Ows);
    lemma_run_through(bytes, from, stop, ByteSet::Lexable);
    lemma_token_where_lexable(bytes, stop);
    if token_at(bytes, stop) is Some {
        let at = run_end(bytes, stop + 1, ByteSet::Ows);
        lemma_run_end_maximal(bytes, stop + 1, ByteSet::Ows);
        lemma_pair_extent(bytes, at);
        lemma_pair_bytes(bytes, at);
        lemma_pair_covered(bytes, at);
        let (pair, next) = pair_at(bytes, at)->Ok_0;
        lemma_run_through(bytes, stop, next, ByteSet::Lexable);
        lemma_more_pairs_covered(bytes, next);
        let rest = more_pairs(bytes, next)->Ok_0;
        assert(more_pairs(bytes, from)->Ok_0 =~= seq![pair] + rest);
        lemma_covered_prepend(
            bytes,
            pair,
            rest,
            from,
            next,
            run_end(bytes, from, ByteSet::Lexable),
        );
    } else {
        lemma_maximal_run_end(bytes, stop, stop, ByteSet::Lexable);
    }
}

/// The names and values of a cookie string do not overlap: in each pair the
/// name ends before the value starts, and each pair ends before the next
/// one starts. They leave out nothing but separators: every byte up to the
/// end of the token stream lies in a name or in a value, or is whitespace,
/// an equals sign, a semicolon or a double quote.
pub proof fn lemma_spans_partition(bytes: Seq<u8>)
    requires
        cookie_string(bytes) is Ok,
    ensures
        ({
            let pairs = cookie_string(bytes)->Ok_0;
            &&& forall|i: int|
                0 <= i < pairs.len() ==> 0 <= (#[trigger] pairs[i]).key.start <= pairs[i].key.end
                    <= pairs[i].value.start <= pairs[i].value.end <= bytes.len()
            &&& pairs_in_order(pairs)
            &&& covered(bytes, pairs, 0, run_end(bytes, 0, ByteSet::Lexable))
        }),
{
    lemma_cookie_string_from_within(bytes, 0);
    let pairs = cookie_string(bytes)->Ok_0;
    assert forall|i: int| 0 <= i < pairs.len() implies 0 <= (#[trigger] pairs[i]).key.start
        <= pairs[i].key.end <= pairs[i].value.start <= pairs[i].value.end <= bytes.len() by {
        assert(pair_within(bytes, pairs[i], 0, bytes.len() as int));
    }
    let at = run_end(bytes, 0, ByteSet::Ows);
    lemma_run_end_maximal(bytes, 0, ByteSet::Ows);
    lemma_pair_extent(bytes, at);
    lemma_pair_bytes(bytes, at);
    lemma_pair_covered(bytes, at);
    let (pair, next) = pair_at(bytes, at)->Ok_0;
    lemma_run_through(bytes, 0, next, ByteSet::Lexable);
    lemma_more_pairs_covered(bytes, next);
    let rest = more_pairs(bytes, next)->Ok_0;
    assert(pairs =~= seq![pair] + rest);
    lemma_covered_prepend(bytes, pair, rest, 0, next, run_end(bytes, 0, ByteSet::Lexable));
}

/// The number of semicolons among the bytes of `from..to`.
pub open spec fn semicolons(bytes: Seq<u8>, from: int, to: int) -> nat
    decreases to - from,
{
    if from < to {
        semicolons(bytes, from, to - 1) + if bytes[to - 1] == SEMICOLON {
            1nat
        } else {
            0nat
        }
    } else {
        0
    }
}

/// The semicolons of a range are those of its two parts.
proof fn lemma_semicolons_split(bytes: Seq<u8>, from: int, mid: int, to: int)
    requires
        from <= mid <= to,
    ensures
        semicolons(bytes, from, to) == semicolons(bytes, from, mid) + semicolons(bytes, mid, to),
    decreases to - mid,
{
    if mid < to {
        lemma_semicolons_split(bytes, from, mid, to - 1);
    }
}

/// A range without a semicolon has none.
proof fn lemma_no_semicolons(bytes: Seq<u8>, from: int, to: int)
    requires
        forall|at: int| from <= at < to ==> #[trigger] bytes[at] != SEMICOLON,
    ensures
        semicolons(bytes, from, to) == 0,
    decreases to - from,
{
    if from < to {
        lemma_no_semicolons(bytes, from, to - 1);
    }
}

/// There is no semicolon within a pair.
proof fn lemma_pair_has_no_semicolon(bytes: Seq<u8>, at: int)
    requires
        pair_at(bytes, at) is Ok,
    ensures
        semicolons(bytes, at, pair_at(bytes, at)->Ok_0.1) == 0,
{
    lemma_pair_extent(bytes, at);
    lemma_pair_covered(bytes, at);
    let (pair, next) = pair_at(bytes, at)->Ok_0;
    lemma_token_extent(bytes, at);
    let token = token_at(bytes, at)->0;
    lemma_run_end_maximal(bytes, at, ByteSet::CookieOctet);
    if token.kind is TokenOrCookieOctets && token.end < bytes.len() && bytes[token.end] == EQUALS {
        let from = token.end + 1;
        lemma_run_end_maximal(bytes, from, ByteSet::Ows);
        let start = run_end(bytes, from, ByteSet::Ows);
        lemma_run_end_maximal(bytes, start, ByteSet::ValueOctet);
        if start < bytes.len() {
            lemma_run_end_maximal(bytes, start + 1, ByteSet::ValueOctet);
        }
    } else if token.kind is Equals {
        let from = at + 1;
        lemma_run_end_maximal(bytes, from, ByteSet::Ows);
        let start = run_end(bytes, from, ByteSet::Ows);
        lemma_run_end_maximal(bytes, start, ByteSet::ValueOctet);
        if start < bytes.len() {
            lemma_run_end_maximal(bytes, start + 1, ByteSet::ValueOctet);
        }
    }
    assert forall|k: int| at <= k < next implies #[trigger] bytes[k] != SEMICOLON by {}
    lemma_no_semicolons(bytes, at, next);
}

/// Behind a pair, as many pairs follow as there are semicolons up to the
/// end of the token stream.
proof fn lemma_more_pairs_count(bytes: Seq<u8>, from: int)
    requires
        0 <= from <= bytes.len(),
        more_pairs(bytes, from) is Ok,
    ensures
        more_pairs(bytes, from)->Ok_0.len() == semicolons(
            bytes,
            from,
            run_end(bytes, from, ByteSet::Lexable),
        ),
    decreases bytes.len() - from,
{
    let end = run_end(bytes, from, ByteSet::Lexable);
    let stop = run_end(bytes, from, ByteSet::Ows);
    lemma_run_end_maximal(bytes, from, ByteSet::Ows);
    lemma_run_through(bytes, from, stop, ByteSet::Lexable);
    lemma_token_where_lexable(bytes, stop);
    lemma_no_semicolons(bytes, from, stop);
    if token_at(bytes, stop) is Some {
        let at = run_end(bytes, stop + 1, ByteSet::Ows);
        lemma_run_end_maximal(bytes, stop + 1, ByteSet::Ows);
        lemma_no_semicolons(bytes, stop + 1, at);
        lemma_pair_extent(bytes, at);
        lemma_pair_bytes(bytes, at);
        lemma_pair_has_no_semicolon(bytes, at);
        let (pair, next) = pair_at(bytes, at)->Ok_0;
        lemma_run_through(bytes, stop, next, ByteSet::Lexable);
        lemma_run_end_maximal(bytes, next, ByteSet::Lexable);
        lemma_more_pairs_count(bytes, next);
        let rest = more_pairs(bytes, next)->Ok_0;
        assert(more_pairs(bytes, from)->Ok_0 =~= seq![pair] + rest);
        lemma_semicolons_split(bytes, from, stop, end);
        lemma_semicolons_split(bytes, stop, stop + 1, end);
        lemma_semicolons_split(bytes, stop + 1, at, end);
        lemma_semicolons_split(bytes, at, next, end);
        assert(semicolons(bytes, stop, stop + 1) == 1) by {
            assert(semicolons(bytes, stop, stop) == 0);
        }
    } else {
        lemma_maximal_run_end(bytes, stop, stop, ByteSet::Lexable);
    }
}

/// The pairs of a cookie string are the pairs of the input, in the order of
/// the input: there is one pair more than there are semicolons among the
/// tokens, and each pair ends before the next one starts.
pub proof fn lemma_pairs_in_input_order(bytes: Seq<u8>)
    requires
        cookie_string(bytes) is Ok,
    ensures
        cookie_string(bytes)->Ok_0.len() == 1 + semicolons(
            bytes,
            0,
            run_end(bytes, 0, ByteSet::Lexable),
        ),
        pairs_in_order(cookie_string(bytes)->Ok_0),
{
    lemma_cookie_string_from_within(bytes, 0);
    let end = run_end(bytes, 0, ByteSet::Lexable);
    let at = run_end(bytes, 0, ByteSet::Ows);
    lemma_run_end_maximal(bytes, 0, ByteSet::Ows);
    lemma_no_semicolons(bytes, 0, at);
    lemma_pair_extent(bytes, at);
    lemma_pair_bytes(bytes, at);
    lemma_pair_has_no_semicolon(bytes, at);
    let (pair, next) = pair_at(bytes, at)->Ok_0;
    lemma_run_through(bytes, 0, next, ByteSet::Lexable);
    lemma_run_end_maximal(bytes, next, ByteSet::Lexable);
    lemma_more_pairs_count(bytes, next);
    let rest = more_pairs(bytes, next)->Ok_0;
    assert(cookie_string(bytes)->Ok_0 =~= seq![pair] + rest);
    lemma_semicolons_split(bytes, 0, at, end);
    lemma_semicolons_split(bytes, at, next, end);
}

/// Resolving a span against a text twice gives the same outcome: both
/// calls fail, or both give the same text.
pub proof fn lemma_resolution_repeats(
    span: NonTerminalSpan,
    data: &str,
    first: Result<&str, InternalError>,
    second: Result<&str, InternalError>,
)
    requires
        call_ensures(NonTerminalSpan::as_str, (&span, data), first),
        call_ensures(NonTerminalSpan::as_str, (&span, data), second),
    ensures
        first is Ok <==> second is Ok,
        first is Ok ==> first->Ok_0.spec_bytes() == second->Ok_0.spec_bytes(),
        first is Ok ==> first->Ok_0@ == second->Ok_0@,
{
    if first is Ok {
        encode_utf8_decode_utf8(first->Ok_0@);
        encode_utf8_decode_utf8(second->Ok_0@);
    }
}

} // verus!
