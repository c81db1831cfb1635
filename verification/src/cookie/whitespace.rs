//! Optional whitespace at the edges of cookie-pairs does not change what a
//! cookie string holds.

use super::cookie_grammar::{
    contents, cookie_contents, cookie_string, cookie_string_from, lemma_pair_extent, more_pairs,
    pair_at, pair_content, prepend, value_after, PairOutcome, PairsOutcome,
};
use super::laws::{lemma_cookie_string_from_within, pair_within};
use super::nonterminals::Span;
use super::terminals::CookieSpans;
use crate::cookie_lexer::lexemes::{
    all_token_chars, char_class, in_set, lemma_maximal_run_end, lemma_run_end_maximal,
    lemma_run_through, lemma_token_extent, run_end, token_at, ByteSet, Lexeme, SEMICOLON,
};
use vstd::prelude::*;

verus! {

/// Every byte is a space or a horizontal tab.
pub open spec fn is_ows(bytes: Seq<u8>) -> bool {
    forall|i: int| 0 <= i < bytes.len() ==> in_set(ByteSet::Ows, #[trigger] bytes[i])
}

/// The bytes of `b1` from `a1` on are those of `b2` from `a2` on.
spec fn same_suffix(b1: Seq<u8>, a1: int, b2: Seq<u8>, a2: int) -> bool {
    &&& 0 <= a1 <= b1.len()
    &&& 0 <= a2 <= b2.len()
    &&& b1.len() - a1 == b2.len() - a2
    &&& forall|i: int| a1 <= i < b1.len() ==> #[trigger] b1[i] == b2[i + (a2 - a1)]
}

/// `span`, moved `by` bytes.
spec fn shift_span(span: Span, by: int) -> Span {
    Span { start: span.start + by, end: span.end + by }
}

/// `pair`, moved `by` bytes.
spec fn shift_pair(pair: CookieSpans, by: int) -> CookieSpans {
    CookieSpans { key: shift_span(pair.key, by), value: shift_span(pair.value, by) }
}

/// `token`, moved `by` bytes.
spec fn shift_token(token: Option<Lexeme>, by: int) -> Option<Lexeme> {
    match token {
        Some(token) => Some(
            Lexeme { start: token.start + by, kind: token.kind, end: token.end + by },
        ),
        None => None,
    }
}

/// `outcome`, with every offset moved `by` bytes.
spec fn shift_pair_outcome(outcome: PairOutcome, by: int) -> PairOutcome {
    match outcome {
        Ok((pair, next)) => Ok((shift_pair(pair, by), next + by)),
        Err(offset) => Err(offset + by),
    }
}

/// `outcome`, with every offset moved `by` bytes.
spec fn shift_pairs_outcome(outcome: PairsOutcome, by: int) -> PairsOutcome {
    match outcome {
        Ok(pairs) => Ok(Seq::new(pairs.len(), |i: int| shift_pair(pairs[i], by))),
        Err(offset) => Err(offset + by),
    }
}

/// Runs are the same in equal suffixes.
proof fn lemma_run_end_translates(b1: Seq<u8>, a1: int, b2: Seq<u8>, a2: int, at: int, set: ByteSet)
    requires
        same_suffix(b1, a1, b2, a2),
        a1 <= at <= b1.len(),
    ensures
        run_end(b2, at + (a2 - a1), set) == run_end(b1, at, set) + (a2 - a1),
        at <= run_end(b1, at, set) <= b1.len(),
{
    let by = a2 - a1;
    let end = run_end(b1, at, set);
    lemma_run_end_maximal(b1, at, set);
    assert forall|i: int| at + by <= i < end + by implies in_set(set, #[trigger] b2[i]) by {
        assert(in_set(set, b1[i - by]));
    }
    if end < b1.len() {
        assert(b1[end] == b2[end + by]);
    }
    lemma_maximal_run_end(b2, at + by, end + by, set);
}

/// Tokens are the same in equal suffixes.
proof fn lemma_token_translates(b1: Seq<u8>, a1: int, b2: Seq<u8>, a2: int, at: int)
    requires
        same_suffix(b1, a1, b2, a2),
        a1 <= at <= b1.len(),
    ensures
        token_at(b2, at + (a2 - a1)) == shift_token(token_at(b1, at), a2 - a1),
{
    let by = a2 - a1;
    if at < b1.len() {
        assert(b1[at] == b2[at + by]);
        if at + 1 < b1.len() {
            assert(b1[at + 1] == b2[at + 1 + by]);
        }
        lemma_run_end_translates(b1, a1, b2, a2, at, ByteSet::Ows);
        lemma_run_end_translates(b1, a1, b2, a2, at, ByteSet::CookieOctet);
        let end = run_end(b1, at, ByteSet::CookieOctet);
        if all_token_chars(b1, at, end) {
            assert forall|i: int| at + by <= i < end + by implies char_class(
                #[trigger] b2[i] as char,
            ) is TokenOrCookieOctets by {
                assert(b2[i] == b1[i - by]);
            }
        }
        if all_token_chars(b2, at + by, end + by) {
            assert forall|i: int| at <= i < end implies char_class(
                #[trigger] b1[i] as char,
            ) is TokenOrCookieOctets by {
                assert(b1[i] == b2[i + by]);
            }
        }
    }
}

/// Values are the same in equal suffixes.
proof fn lemma_value_translates(
    b1: Seq<u8>,
    a1: int,
    b2: Seq<u8>,
    a2: int,
    key: Span,
    from: int,
)
    requires
        same_suffix(b1, a1, b2, a2),
        a1 <= from <= b1.len(),
    ensures
        value_after(b2, shift_span(key, a2 - a1), from + (a2 - a1)) == shift_pair_outcome(
            value_after(b1, key, from),
            a2 - a1,
        ),
{
    let by = a2 - a1;
    lemma_run_end_translates(b1, a1, b2, a2, from, ByteSet::Ows);
    let at = run_end(b1, from, ByteSet::Ows);
    lemma_run_end_translates(b1, a1, b2, a2, at, ByteSet::ValueOctet);
    if at < b1.len() {
        assert(b1[at] == b2[at + by]);
        lemma_run_end_translates(b1, a1, b2, a2, at + 1, ByteSet::ValueOctet);
        let close = run_end(b1, at + 1, ByteSet::ValueOctet);
        if close < b1.len() {
            assert(b1[close] == b2[close + by]);
        }
    }
}

/// Pairs are the same in equal suffixes.
proof fn lemma_pair_translates(b1: Seq<u8>, a1: int, b2: Seq<u8>, a2: int, at: int)
    requires
        same_suffix(b1, a1, b2, a2),
        a1 <= at <= b1.len(),
    ensures
        pair_at(b2, at + (a2 - a1)) == shift_pair_outcome(pair_at(b1, at), a2 - a1),
{
    let by = a2 - a1;
    lemma_token_translates(b1, a1, b2, a2, at);
    if token_at(b1, at) is Some {
        lemma_token_extent(b1, at);
        let token = token_at(b1, at)->0;
        if token.end < b1.len() {
            assert(b1[token.end] == b2[token.end + by]);
            lemma_value_translates(
                b1,
                a1,
                b2,
                a2,
                Span { start: at, end: token.end },
                token.end + 1,
            );
        }
        lemma_value_translates(b1, a1, b2, a2, Span { start: at, end: at }, at + 1);
    }
}

/// Shifting the pairs of `prepend(first, rest)` is prepending the shifted
/// `first` to the shifted `rest`.
proof fn lemma_shift_prepend(first: CookieSpans, rest: PairsOutcome, by: int)
    ensures
        shift_pairs_outcome(prepend(first, rest), by) == prepend(
            shift_pair(first, by),
            shift_pairs_outcome(rest, by),
        ),
{
    if rest is Ok {
        let pairs = rest->Ok_0;
        assert(shift_pairs_outcome(prepend(first, rest), by)->Ok_0 =~= seq![shift_pair(first, by)]
            + shift_pairs_outcome(rest, by)->Ok_0);
    }
}

/// The pairs that follow a pair are the same in equal suffixes.
proof fn lemma_more_pairs_translates(b1: Seq<u8>, a1: int, b2: Seq<u8>, a2: int, from: int)
    requires
        same_suffix(b1, a1, b2, a2),
        a1 <= from <= b1.len(),
    ensures
        more_pairs(b2, from + (a2 - a1)) == shift_pairs_outcome(more_pairs(b1, from), a2 - a1),
    decreases b1.len() - from,
{
    let by = a2 - a1;
    lemma_run_end_translates(b1, a1, b2, a2, from, ByteSet::Ows);
    let stop = run_end(b1, from, ByteSet::Ows);
    lemma_token_translates(b1, a1, b2, a2, stop);
    match token_at(b1, stop) {
        None => {
            assert(shift_pairs_outcome(Ok(Seq::empty()), by)->Ok_0 =~= Seq::<CookieSpans>::empty());
        },
        Some(token) => {
            if token.kind is Semicolon {
                lemma_token_extent(b1, stop);
                lemma_run_end_translates(b1, a1, b2, a2, stop + 1, ByteSet::Ows);
                let at = run_end(b1, stop + 1, ByteSet::Ows);
                lemma_pair_translates(b1, a1, b2, a2, at);
                match pair_at(b1, at) {
                    Ok((pair, next)) => {
                        lemma_pair_extent(b1, at);
                        lemma_more_pairs_translates(b1, a1, b2, a2, next);
                        lemma_shift_prepend(pair, more_pairs(b1, next), by);
                    },
                    Err(_) => {},
                }
            }
        },
    }
}

/// The cookie string is the same in equal suffixes.
proof fn lemma_cookie_string_translates(b1: Seq<u8>, a1: int, b2: Seq<u8>, a2: int, from: int)
    requires
        same_suffix(b1, a1, b2, a2),
        a1 <= from <= b1.len(),
    ensures
        cookie_string_from(b2, from + (a2 - a1)) == shift_pairs_outcome(
            cookie_string_from(b1, from),
            a2 - a1,
        ),
{
    let by = a2 - a1;
    lemma_run_end_translates(b1, a1, b2, a2, from, ByteSet::Ows);
    let at = run_end(b1, from, ByteSet::Ows);
    lemma_pair_translates(b1, a1, b2, a2, at);
    match pair_at(b1, at) {
        Ok((pair, next)) => {
            lemma_pair_extent(b1, at);
            lemma_more_pairs_translates(b1, a1, b2, a2, next);
            lemma_shift_prepend(pair, more_pairs(b1, next), by);
        },
        Err(_) => {},
    }
}

/// The contents of `prepend(first, rest)` are the content of `first`, then
/// the contents of `rest`.
proof fn lemma_contents_prepend(bytes: Seq<u8>, first: CookieSpans, rest: PairsOutcome)
    ensures
        contents(bytes, prepend(first, rest)) == match contents(bytes, rest) {
            Some(others) => Some(seq![pair_content(bytes, first)] + others),
            None => None,
        },
{
    if rest is Ok {
        assert(contents(bytes, prepend(first, rest))->0 =~= seq![pair_content(bytes, first)]
            + contents(bytes, rest)->0);
    }
}

/// A span within a suffix covers the same bytes as the shifted span does in
/// an equal suffix.
proof fn lemma_content_shift(b1: Seq<u8>, a1: int, b2: Seq<u8>, a2: int, span: Span)
    requires
        same_suffix(b1, a1, b2, a2),
        a1 <= span.start <= span.end <= b1.len(),
    ensures
        shift_span(span, a2 - a1).content(b2) == span.content(b1),
{
    let by = a2 - a1;
    let shifted = shift_span(span, by).content(b2);
    let plain = span.content(b1);
    assert forall|i: int| 0 <= i < plain.len() implies shifted[i] == plain[i] by {
        assert(b1[span.start + i] == b2[span.start + i + by]);
    }
    assert(shifted =~= plain);
}

/// Pairs within a suffix hold what the shifted pairs hold in an equal
/// suffix.
proof fn lemma_contents_shift(b1: Seq<u8>, a1: int, b2: Seq<u8>, a2: int, outcome: PairsOutcome)
    requires
        same_suffix(b1, a1, b2, a2),
        outcome matches Ok(pairs) ==> forall|i: int|
            0 <= i < pairs.len() ==> pair_within(b1, #[trigger] pairs[i], a1, b1.len() as int),
    ensures
        contents(b2, shift_pairs_outcome(outcome, a2 - a1)) == contents(b1, outcome),
{
    if outcome is Ok {
        let pairs = outcome->Ok_0;
        let shifted = contents(b2, shift_pairs_outcome(outcome, a2 - a1))->0;
        let plain = contents(b1, outcome)->0;
        assert forall|i: int| 0 <= i < pairs.len() implies shifted[i] == plain[i] by {
            assert(pair_within(b1, pairs[i], a1, b1.len() as int));
            lemma_content_shift(b1, a1, b2, a2, pairs[i].key);
            lemma_content_shift(b1, a1, b2, a2, pairs[i].value);
        }
        assert(shifted =~= plain);
    }
}

/// What a cookie string holds behind a stretch of whitespace is what the
/// equal suffix without that stretch holds.
proof fn lemma_contents_behind_ows(b1: Seq<u8>, a1: int, b2: Seq<u8>, a2: int, from2: int)
    requires
        same_suffix(b1, a1, b2, a2),
        0 <= from2 <= a2,
        forall|i: int| from2 <= i < a2 ==> in_set(ByteSet::Ows, #[trigger] b2[i]),
    ensures
        contents(b2, cookie_string_from(b2, from2)) == contents(b1, cookie_string_from(b1, a1)),
{
    lemma_run_through(b2, from2, a2, ByteSet::Ows);
    assert(cookie_string_from(b2, from2) == cookie_string_from(b2, a2));
    lemma_cookie_string_translates(b1, a1, b2, a2, a1);
    if cookie_string_from(b1, a1) is Ok {
        lemma_cookie_string_from_within(b1, a1);
    }
    lemma_contents_shift(b1, a1, b2, a2, cookie_string_from(b1, a1));
}

/// Whitespace put before a cookie string does not change the names and
/// values of its cookies, nor whether it is a cookie string.
pub proof fn lemma_leading_whitespace(ows: Seq<u8>, text: Seq<u8>)
    requires
        is_ows(ows),
    ensures
        cookie_contents(ows + text) == cookie_contents(text),
{
    let padded = ows + text;
    assert forall|i: int| 0 <= i < text.len() implies #[trigger] text[i] == padded[i
        + ows.len()] by {}
    assert forall|i: int| 0 <= i < ows.len() implies in_set(ByteSet::Ows, #[trigger] padded[i]) by {
        assert(padded[i] == ows[i]);
    }
    lemma_contents_behind_ows(text, 0, padded, ows.len() as int, 0);
}

/// `b2` is `b1` with `pad` bytes of whitespace put in at `cut`, where `b1`
/// ends or has a semicolon: the two agree before `cut`, and what stands at
/// `cut` in `b1` stands behind the whitespace in `b2`.
spec fn padded_at(b1: Seq<u8>, b2: Seq<u8>, cut: int, pad: int) -> bool {
    &&& 0 <= cut <= b1.len()
    &&& 0 <= pad
    &&& cut + pad <= b2.len()
    &&& forall|i: int| 0 <= i < cut ==> #[trigger] b1[i] == b2[i]
    &&& forall|i: int| cut <= i < cut + pad ==> in_set(ByteSet::Ows, #[trigger] b2[i])
    &&& {
        ||| cut == b1.len() && cut + pad == b2.len()
        ||| cut < b1.len() && cut + pad < b2.len() && b1[cut] == SEMICOLON && b2[cut + pad]
            == SEMICOLON
    }
}

/// Where the offset `at` of `b1` is found in `b2`.
spec fn moved(cut: int, pad: int, at: int) -> int {
    if at < cut {
        at
    } else {
        at + pad
    }
}

/// Before the cut, runs of octets are the same in both.
proof fn lemma_padded_octets(b1: Seq<u8>, b2: Seq<u8>, cut: int, pad: int, at: int, set: ByteSet)
    requires
        padded_at(b1, b2, cut, pad),
        0 <= at <= cut,
        set is CookieOctet || set is ValueOctet,
    ensures
        run_end(b2, at, set) == run_end(b1, at, set),
        at <= run_end(b1, at, set) <= cut,
{
    let end = run_end(b1, at, set);
    lemma_run_end_maximal(b1, at, set);
    if cut < end {
        assert(in_set(set, b1[cut]));
    }
    assert forall|i: int| at <= i < end implies in_set(set, #[trigger] b2[i]) by {
        assert(b1[i] == b2[i]);
    }
    if end < cut {
        assert(b1[end] == b2[end]);
    }
    lemma_maximal_run_end(b2, at, end, set);
}

/// Before the cut, a run of whitespace ends in both at the same place,
/// which in `b2` lies behind the padding if it is the cut.
proof fn lemma_padded_ows(b1: Seq<u8>, b2: Seq<u8>, cut: int, pad: int, at: int)
    requires
        padded_at(b1, b2, cut, pad),
        0 <= at <= cut,
    ensures
        run_end(b2, at, ByteSet::Ows) == moved(cut, pad, run_end(b1, at, ByteSet::Ows)),
        at <= run_end(b1, at, ByteSet::Ows) <= cut,
        run_end(b1, at, ByteSet::Ows) < cut ==> !in_set(
            ByteSet::Ows,
            b1[run_end(b1, at, ByteSet::Ows)],
        ),
{
    let set = ByteSet::Ows;
    let end = run_end(b1, at, set);
    lemma_run_end_maximal(b1, at, set);
    if cut < end {
        assert(in_set(set, b1[cut]));
    }
    let end2 = moved(cut, pad, end);
    assert forall|i: int| at <= i < end2 implies in_set(set, #[trigger] b2[i]) by {
        if i < cut {
            assert(b1[i] == b2[i]);
        }
    }
    if end < cut {
        assert(b1[end] == b2[end]);
    }
    lemma_maximal_run_end(b2, at, end2, set);
}

/// Within the padding, a run of whitespace ends behind the padding.
proof fn lemma_padded_ows_within(b1: Seq<u8>, b2: Seq<u8>, cut: int, pad: int, at: int)
    requires
        padded_at(b1, b2, cut, pad),
        cut <= at <= cut + pad,
    ensures
        run_end(b2, at, ByteSet::Ows) == cut + pad,
{
    lemma_maximal_run_end(b2, at, cut + pad, ByteSet::Ows);
}

/// Before the cut, a token that does not start with whitespace is the same
/// in both, and ends at the cut or before. At the cut there is a semicolon
/// or nothing, in both.
proof fn lemma_padded_token(b1: Seq<u8>, b2: Seq<u8>, cut: int, pad: int, at: int)
    requires
        padded_at(b1, b2, cut, pad),
        0 <= at <= cut,
        at < cut ==> !in_set(ByteSet::Ows, b1[at]),
    ensures
        token_at(b2, moved(cut, pad, at)) == shift_token(
            token_at(b1, at),
            moved(cut, pad, at) - at,
        ),
        token_at(b1, at) matches Some(token) ==> token.end <= cut || at == cut,
        at == cut ==> (token_at(b1, at) matches Some(token) ==> token.kind is Semicolon),
{
    if at < cut {
        assert(b1[at] == b2[at]);
        lemma_padded_octets(b1, b2, cut, pad, at, ByteSet::CookieOctet);
        let end = run_end(b1, at, ByteSet::CookieOctet);
        if all_token_chars(b1, at, end) {
            assert forall|i: int| at <= i < end implies char_class(
                #[trigger] b2[i] as char,
            ) is TokenOrCookieOctets by {
                assert(b2[i] == b1[i]);
            }
        }
        if all_token_chars(b2, at, end) {
            assert forall|i: int| at <= i < end implies char_class(
                #[trigger] b1[i] as char,
            ) is TokenOrCookieOctets by {
                assert(b1[i] == b2[i]);
            }
        }
    }
}

/// The outcomes of recognizing a pair in `b1` and in `b2` agree: both fail,
/// or both find a pair of the same content that ends at the cut or before,
/// at the same place in both, or at the cut in `b1` and within or behind the
/// padding in `b2`.
spec fn alike(
    b1: Seq<u8>,
    first: PairOutcome,
    b2: Seq<u8>,
    second: PairOutcome,
    cut: int,
    pad: int,
) -> bool {
    match (first, second) {
        (Ok((pair1, next1)), Ok((pair2, next2))) => {
            &&& pair_content(b1, pair1) == pair_content(b2, pair2)
            &&& 0 <= next1 <= cut
            &&& next2 == next1 || (next1 == cut && cut <= next2 <= cut + pad)
        },
        (Err(_), Err(_)) => true,
        _ => false,
    }
}

/// Before the cut, a span covers the same bytes in both.
proof fn lemma_padded_content(b1: Seq<u8>, b2: Seq<u8>, cut: int, pad: int, span: Span)
    requires
        padded_at(b1, b2, cut, pad),
        0 <= span.start <= span.end <= cut,
    ensures
        span.content(b1) == span.content(b2),
{
    let first = span.content(b1);
    let second = span.content(b2);
    assert forall|i: int| 0 <= i < first.len() implies first[i] == second[i] by {
        assert(b1[span.start + i] == b2[span.start + i]);
    }
    assert(first =~= second);
}

/// Before the cut, the values behind an `=` agree.
proof fn lemma_padded_value(
    b1: Seq<u8>,
    b2: Seq<u8>,
    cut: int,
    pad: int,
    key: Span,
    from: int,
)
    requires
        padded_at(b1, b2, cut, pad),
        0 <= key.start <= key.end <= from <= cut,
    ensures
        alike(b1, value_after(b1, key, from), b2, value_after(b2, key, from), cut, pad),
{
    lemma_padded_content(b1, b2, cut, pad, key);
    lemma_padded_ows(b1, b2, cut, pad, from);
    let at = run_end(b1, from, ByteSet::Ows);
    if at < cut {
        assert(b1[at] == b2[at]);
        lemma_padded_octets(b1, b2, cut, pad, at, ByteSet::ValueOctet);
        lemma_padded_octets(b1, b2, cut, pad, at + 1, ByteSet::ValueOctet);
        let close = run_end(b1, at + 1, ByteSet::ValueOctet);
        let end = run_end(b1, at, ByteSet::ValueOctet);
        if close < cut {
            assert(b1[close] == b2[close]);
        }
        lemma_padded_content(b1, b2, cut, pad, Span { start: at + 1, end: close });
        lemma_padded_content(b1, b2, cut, pad, Span { start: at, end: end });
    } else {
        let behind = cut + pad;
        lemma_maximal_run_end(b1, cut, cut, ByteSet::ValueOctet);
        lemma_maximal_run_end(b2, behind, behind, ByteSet::ValueOctet);
        assert(Span { start: cut, end: cut }.content(b1) =~= Span {
            start: behind,
            end: behind,
        }.content(b2));
    }
}

/// Before the cut, the pairs at an offset that holds no whitespace agree.
proof fn lemma_padded_pair(b1: Seq<u8>, b2: Seq<u8>, cut: int, pad: int, at: int)
    requires
        padded_at(b1, b2, cut, pad),
        0 <= at <= cut,
        at < cut ==> !in_set(ByteSet::Ows, b1[at]),
    ensures
        alike(b1, pair_at(b1, at), b2, pair_at(b2, moved(cut, pad, at)), cut, pad),
{
    lemma_padded_token(b1, b2, cut, pad, at);
    if at < cut && token_at(b1, at) is Some {
        lemma_token_extent(b1, at);
        let token = token_at(b1, at)->0;
        if token.kind is TokenOrCookieOctets {
            if token.end < cut {
                assert(b1[token.end] == b2[token.end]);
                lemma_padded_value(
                    b1,
                    b2,
                    cut,
                    pad,
                    Span { start: at, end: token.end },
                    token.end + 1,
                );
            }
            lemma_padded_content(b1, b2, cut, pad, Span { start: at, end: at });
            lemma_padded_content(b1, b2, cut, pad, Span { start: at, end: token.end });
        } else if token.kind is Equals {
            lemma_padded_value(b1, b2, cut, pad, Span { start: at, end: at }, at + 1);
        }
    }
}

/// `b2` is `b1` with whitespace put in on both sides of the semicolon at
/// `cut`, `pad` bytes before it and `gap` bytes behind it, or with `pad`
/// bytes of whitespace put at its end, which is `cut`.
spec fn padded_around(b1: Seq<u8>, b2: Seq<u8>, cut: int, pad: int, gap: int) -> bool {
    &&& padded_at(b1, b2, cut, pad)
    &&& 0 <= gap
    &&& cut < b1.len() ==> {
        &&& cut + pad + 1 + gap <= b2.len()
        &&& forall|i: int|
            cut + pad + 1 <= i < cut + pad + 1 + gap ==> in_set(ByteSet::Ows, #[trigger] b2[i])
        &&& same_suffix(b1, cut + 1, b2, cut + pad + 1 + gap)
    }
}

/// Where the offset `at` of `b1`, before the cut or at it, may be found in
/// `b2`.
spec fn in_step(cut: int, pad: int, at1: int, at2: int) -> bool {
    0 <= at1 <= cut && (at2 == at1 || (at1 == cut && cut <= at2 <= cut + pad))
}

/// From offsets in step, the pairs that follow a pair hold the same in both.
proof fn lemma_padded_more(
    b1: Seq<u8>,
    b2: Seq<u8>,
    cut: int,
    pad: int,
    gap: int,
    from1: int,
    from2: int,
)
    requires
        padded_around(b1, b2, cut, pad, gap),
        in_step(cut, pad, from1, from2),
    ensures
        contents(b2, more_pairs(b2, from2)) == contents(b1, more_pairs(b1, from1)),
    decreases b1.len() - from1, 0int,
{
    lemma_padded_ows(b1, b2, cut, pad, from1);
    if from1 == cut {
        lemma_padded_ows_within(b1, b2, cut, pad, from2);
    }
    let stop1 = run_end(b1, from1, ByteSet::Ows);
    let stop2 = run_end(b2, from2, ByteSet::Ows);
    assert(stop2 == moved(cut, pad, stop1));
    lemma_padded_token(b1, b2, cut, pad, stop1);
    match token_at(b1, stop1) {
        None => {
            assert(contents(b2, more_pairs(b2, from2))->0 =~= contents(
                b1,
                more_pairs(b1, from1),
            )->0);
        },
        Some(token) => {
            if token.kind is Semicolon {
                lemma_token_extent(b1, stop1);
                assert(more_pairs(b1, from1) == cookie_string_from(b1, stop1 + 1));
                assert(more_pairs(b2, from2) == cookie_string_from(b2, stop2 + 1));
                if stop1 < cut {
                    lemma_padded_from(b1, b2, cut, pad, gap, stop1 + 1);
                } else {
                    lemma_contents_behind_ows(b1, cut + 1, b2, cut + pad + 1 + gap, stop2 + 1);
                }
            }
        },
    }
}

/// From an offset before the cut or at it, the cookie string holds the same
/// in both.
proof fn lemma_padded_from(b1: Seq<u8>, b2: Seq<u8>, cut: int, pad: int, gap: int, from: int)
    requires
        padded_around(b1, b2, cut, pad, gap),
        0 <= from <= cut,
    ensures
        contents(b2, cookie_string_from(b2, from)) == contents(b1, cookie_string_from(b1, from)),
    decreases b1.len() - from, 1int,
{
    lemma_padded_ows(b1, b2, cut, pad, from);
    let at1 = run_end(b1, from, ByteSet::Ows);
    let at2 = run_end(b2, from, ByteSet::Ows);
    lemma_padded_pair(b1, b2, cut, pad, at1);
    match (pair_at(b1, at1), pair_at(b2, at2)) {
        (Ok((pair1, next1)), Ok((pair2, next2))) => {
            lemma_pair_extent(b1, at1);
            lemma_padded_more(b1, b2, cut, pad, gap, next1, next2);
            lemma_contents_prepend(b1, pair1, more_pairs(b1, next1));
            lemma_contents_prepend(b2, pair2, more_pairs(b2, next2));
        },
        _ => {},
    }
}

/// Whitespace put behind a cookie string does not change the names and
/// values of its cookies, nor whether it is a cookie string.
pub proof fn lemma_trailing_whitespace(text: Seq<u8>, ows: Seq<u8>)
    requires
        is_ows(ows),
    ensures
        cookie_contents(text + ows) == cookie_contents(text),
{
    let padded = text + ows;
    let cut = text.len() as int;
    assert forall|i: int| cut <= i < cut + ows.len() implies in_set(
        ByteSet::Ows,
        #[trigger] padded[i],
    ) by {
        assert(padded[i] == ows[i - cut]);
    }
    lemma_padded_from(text, padded, cut, ows.len() as int, 0, 0);
}

/// Whitespace put before or behind a semicolon, which is at the end of one
/// cookie-pair and at the start of the next, does not change the names and
/// values of the cookies, nor whether the input is a cookie string.
pub proof fn lemma_whitespace_around_separator(
    head: Seq<u8>,
    before: Seq<u8>,
    after: Seq<u8>,
    tail: Seq<u8>,
)
    requires
        is_ows(before),
        is_ows(after),
    ensures
        cookie_contents(head + before + seq![SEMICOLON] + after + tail) == cookie_contents(
            head + seq![SEMICOLON] + tail,
        ),
{
    let plain = head + seq![SEMICOLON] + tail;
    let padded = head + before + seq![SEMICOLON] + after + tail;
    let cut = head.len() as int;
    let pad = before.len() as int;
    let gap = after.len() as int;
    let by = pad + gap;
    assert forall|i: int| cut <= i < cut + pad implies in_set(
        ByteSet::Ows,
        #[trigger] padded[i],
    ) by {
        assert(padded[i] == before[i - cut]);
    }
    assert forall|i: int| cut + pad + 1 <= i < cut + pad + 1 + gap implies in_set(
        ByteSet::Ows,
        #[trigger] padded[i],
    ) by {
        assert(padded[i] == after[i - (cut + pad + 1)]);
    }
    assert forall|i: int| cut + 1 <= i < plain.len() implies #[trigger] plain[i] == padded[i
        + by] by {
        assert(plain[i] == tail[i - (cut + 1)]);
        assert(padded[i + by] == tail[i - (cut + 1)]);
    }
    assert(padded_around(plain, padded, cut, pad, gap));
    lemma_padded_from(plain, padded, cut, pad, gap, 0);
}

/// Whitespace alone, and so the empty input, is no cookie string: the
/// token stream ends, at the end of the input, where a cookie-pair has to
/// start.
pub proof fn lemma_whitespace_alone_fails(ows: Seq<u8>)
    requires
        is_ows(ows),
    ensures
        cookie_string(ows) == Err::<Seq<CookieSpans>, int>(ows.len() as int),
        token_at(ows, ows.len() as int) is None,
{
    lemma_maximal_run_end(ows, 0, ows.len() as int, ByteSet::Ows);
}

} // verus!
