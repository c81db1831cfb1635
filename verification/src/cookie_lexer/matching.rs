//! Elementary matching predicates used by the tokenizer.

use vstd::prelude::*;
use vstd::string::*;
use vstd::utf8::*;

verus! {

/// Whether `pattern` is a prefix of `data`, as byte strings.
pub open spec fn is_prefix_match(data: Seq<u8>, pattern: Seq<u8>) -> bool {
    pattern.len() <= data.len() && data.subrange(0, pattern.len() as int) == pattern
}

/// The optional-whitespace characters: space and horizontal tab.
pub open spec fn is_ows_char(c: char) -> bool {
    c == ' ' || c == '\t'
}

/// One text is a prefix of another exactly where its encoding is a prefix of
/// the encoding of the other.
pub proof fn lemma_prefix_of_encoding(pattern: Seq<char>, data: Seq<char>)
    ensures
        is_prefix_match(encode_utf8(data), encode_utf8(pattern)) <==> pattern.is_prefix_of(data),
    decreases pattern.len(),
{
    let encoded_pattern = encode_utf8(pattern);
    let encoded_data = encode_utf8(data);
    if pattern.len() == 0 {
        assert(encoded_data.subrange(0, 0) =~= encoded_pattern);
    } else {
        let rest_of_pattern = pattern.drop_first();
        encode_utf8_first_scalar(pattern);
        let first = encode_scalar(pattern[0] as u32);
        assert(encoded_pattern.subrange(first.len() as int, encoded_pattern.len() as int)
            =~= encode_utf8(rest_of_pattern));
        if data.len() > 0 {
            let rest_of_data = data.drop_first();
            encode_utf8_first_scalar(data);
            lemma_prefix_of_encoding(rest_of_pattern, rest_of_data);
            let encoded_rest = encode_utf8(rest_of_data);
            assert(encoded_data.subrange(
                encode_scalar(data[0] as u32).len() as int,
                encoded_data.len() as int,
            ) =~= encoded_rest);
            if pattern.is_prefix_of(data) {
                assert(pattern[0] == data.subrange(0, pattern.len() as int)[0]);
                assert(rest_of_pattern =~= rest_of_data.subrange(0, rest_of_pattern.len() as int))
                    by {
                    assert forall|i: int| 0 <= i < rest_of_pattern.len() implies rest_of_pattern[i]
                        == rest_of_data[i] by {
                        assert(pattern[i + 1] == data.subrange(0, pattern.len() as int)[i + 1]);
                    }
                }
                assert(encode_utf8(rest_of_pattern) =~= encoded_rest.subrange(
                    0,
                    encode_utf8(rest_of_pattern).len() as int,
                ));
                assert(encoded_data.subrange(0, encoded_pattern.len() as int) =~= encoded_pattern);
            }
            if is_prefix_match(encoded_data, encoded_pattern) {
                let head = encoded_data.subrange(0, encoded_pattern.len() as int);
                assert forall|i: int| 0 <= i < encoded_pattern.len() implies encoded_pattern[i]
                    == encoded_data[i] by {
                    assert(head[i] == encoded_data[i]);
                }
                assert(decode_first_scalar(encoded_pattern) == decode_first_scalar(encoded_data));
                char_u32_cast(pattern[0], pattern[0] as u32);
                char_u32_cast(data[0], data[0] as u32);
                assert(pattern[0] == data[0]);
                assert(encode_utf8(rest_of_pattern) =~= encoded_rest.subrange(
                    0,
                    encode_utf8(rest_of_pattern).len() as int,
                )) by {
                    let tail = encode_utf8(rest_of_pattern);
                    assert forall|i: int| 0 <= i < tail.len() implies tail[i] == encoded_rest[i] by {
                        assert(encoded_pattern[i + first.len()] == encoded_data[i + first.len()]);
                    }
                }
                assert(pattern =~= data.subrange(0, pattern.len() as int)) by {
                    assert forall|i: int| 0 <= i < pattern.len() implies pattern[i] == data[i] by {
                        if i > 0 {
                            assert(rest_of_pattern[i - 1] == rest_of_data.subrange(
                                0,
                                rest_of_pattern.len() as int,
                            )[i - 1]);
                        }
                    }
                }
            }
        } else {
            assert(encoded_data.len() == 0);
        }
    }
}

/// Tells whether `data` starts with `pattern`.
pub fn is_str_match(data: &str, pattern: &str) -> (matched: bool)
    ensures
        matched == pattern@.is_prefix_of(data@),
        matched == is_prefix_match(data.spec_bytes(), pattern.spec_bytes()),
{
    proof {
        lemma_prefix_of_encoding(pattern@, data@);
    }
    let data_bytes = data.as_bytes();
    let pattern_bytes = pattern.as_bytes();
    if pattern_bytes.len() > data_bytes.len() {
        return false;
    }
    let mut i: usize = 0;
    while i < pattern_bytes.len()
        invariant
            data_bytes@ == data.spec_bytes(),
            pattern_bytes@ == pattern.spec_bytes(),
            is_prefix_match(data.spec_bytes(), pattern.spec_bytes()) <==> pattern@.is_prefix_of(
                data@,
            ),
            i <= pattern_bytes.len() <= data_bytes.len(),
            forall|j: int| 0 <= j < i ==> data_bytes@[j] == pattern_bytes@[j],
        decreases pattern_bytes.len() - i,
    {
        if data_bytes[i] != pattern_bytes[i] {
            proof {
                let head = data_bytes@.subrange(0, pattern_bytes@.len() as int);
                assert(head[i as int] != pattern_bytes@[i as int]);
                assert(head != pattern_bytes@);
            }
            return false;
        }
        i += 1;
    }
    assert(data_bytes@.subrange(0, pattern_bytes@.len() as int) =~= pattern_bytes@);
    true
}

/// Tells whether `c` is an optional-whitespace character.
pub fn is_whitespace_char(c: char) -> (whitespace: bool)
    ensures
        whitespace == is_ows_char(c),
{
    match c {
        '\x09' | '\x20' => true,
        _ => false,
    }
}

} // verus!
