//! The tokenizer: splits a cookie string into typed tokens with byte ranges.

pub mod lexemes;
pub mod matching;

use self::lexemes::{
    all_token_chars, char_class, in_set, is_maximal_run, lemma_maximal_run_end,
    lemma_token_extent, pattern_token_at, token_at, ByteSet, Lexeme, SPACE,
};
use self::matching::{is_str_match, is_whitespace_char};
use vstd::prelude::*;
use vstd::string::*;
use vstd::utf8::*;

verus! {

/// The failure of the tokenizer. The tokenizer never reports one: where no
/// category applies it ends the token stream.
#[derive(Debug)]
pub struct CookieLexerError;

impl PartialEq for CookieLexerError {
    /// No two tokenizer failures are equal.
    fn eq(&self, _other: &CookieLexerError) -> (equal: bool) {
        false
    }
}

impl vstd::std_specs::cmp::PartialEqSpecImpl for CookieLexerError {
    open spec fn obeys_eq_spec() -> bool {
        true
    }

    open spec fn eq_spec(&self, _other: &CookieLexerError) -> bool {
        false
    }
}

/// The terminal categories of the cookie-string grammar.
#[derive(Debug, PartialEq, Eq, Clone, Copy, Structural)]
pub enum CookieToken {
    CookieOctets,
    TokenOrCookieOctets,
    Equals,
    Semicolon,
    Whitespace,
    Space,
    DoubleQuote,
}

/// How a single character may take part in an octet run.
#[derive(Debug, PartialEq, Eq, Clone, Copy, Structural)]
pub enum CharTokenClass {
    /// Not valid in a cookie value.
    Excluded,
    /// Valid in a cookie value, but not in an HTTP token.
    CookieOctets,
    /// Valid in both.
    TokenOrCookieOctets,
}

/// The display name of each terminal category.
pub open spec fn token_name(token: CookieToken) -> Seq<char> {
    match token {
        CookieToken::CookieOctets => "CookieToken::CookieOctets"@,
        CookieToken::TokenOrCookieOctets => "CookieToken::TokenOrCookieOctets"@,
        CookieToken::Equals => "CookieToken::Equals"@,
        CookieToken::Semicolon => "CookieToken::Semicolon"@,
        CookieToken::Whitespace => "CookieToken::Whitespace"@,
        CookieToken::Space => "CookieToken::Space"@,
        CookieToken::DoubleQuote => "CookieToken::DoubleQuote"@,
    }
}

impl CookieToken {
    /// The name under which the category is shown in diagnostics.
    pub fn as_str(&self) -> (name: &'static str)
        ensures
            name@ == token_name(*self),
    {
        match self {
            CookieToken::CookieOctets => "CookieToken::CookieOctets",
            CookieToken::TokenOrCookieOctets => "CookieToken::TokenOrCookieOctets",
            CookieToken::Equals => "CookieToken::Equals",
            CookieToken::Semicolon => "CookieToken::Semicolon",
            CookieToken::Whitespace => "CookieToken::Whitespace",
            CookieToken::Space => "CookieToken::Space",
            CookieToken::DoubleQuote => "CookieToken::DoubleQuote",
        }
    }
}

/// What one call of the tokenizer hands out: a token as its start, its
/// category and its end, or nothing at the end of the token stream.
pub open spec fn token_item(token: Option<Lexeme>) -> Option<
    Result<(usize, CookieToken, usize), CookieLexerError>,
> {
    match token {
        Some(lexeme) => Some(Ok((lexeme.start as usize, lexeme.kind, lexeme.end as usize))),
        None => None,
    }
}

/// A pattern of one ASCII character matches where the first byte is that
/// character.
proof fn lemma_single_char_match(data: Seq<u8>, pattern: &str, c: char)
    requires
        pattern@.len() == 1,
        pattern@[0] == c,
        c <= '\u{7f}',
    ensures
        matching::is_prefix_match(data, pattern.spec_bytes()) <==> data.len() > 0 && data[0]
            == c as u8,
{
    assert(is_ascii(pattern));
    is_ascii_spec_bytes(pattern);
    let encoded = pattern.spec_bytes();
    assert(encoded.len() == 1 && encoded[0] == c as u8);
    if data.len() > 0 {
        assert(data.subrange(0, 1)[0] == data[0]);
        if data[0] == c as u8 {
            assert(data.subrange(0, 1) =~= encoded);
        }
    }
}

/// The length of `text` in bytes.
pub fn byte_len(text: &str) -> (len: usize)
    ensures
        len == text.spec_bytes().len(),
{
    text.as_bytes().len()
}

/// A forward-only scan over a cookie string.
pub struct CookieLexer<'input> {
    cursor: usize,
    data: &'input str,
}

impl<'input> CookieLexer<'input> {
    /// The bytes of the string under scan.
    pub closed spec fn input(&self) -> Seq<u8> {
        self.data.spec_bytes()
    }

    /// The offset of the next byte to scan.
    pub closed spec fn position(&self) -> usize {
        self.cursor
    }

    /// A scan of `data` from its first byte.
    pub fn new(data: &'input str) -> (lexer: CookieLexer<'input>)
        ensures
            lexer.input() == data.spec_bytes(),
            lexer.position() == 0,
    {
        CookieLexer { cursor: 0, data: data }
    }

    /// The offset of the next byte to scan.
    pub fn cursor(&self) -> (cursor: usize)
        ensures
            cursor == self.position(),
    {
        self.cursor
    }

    /// The part of the input that is still to scan, if the cursor stands on
    /// a character boundary within the input.
    fn substr_at_cursor(&self) -> (rest: Option<&'input str>)
        ensures
            match rest {
                Some(rest) => {
                    &&& self.cursor <= self.data.spec_bytes().len()
                    &&& rest.spec_bytes() == self.data.spec_bytes().subrange(
                        self.cursor as int,
                        self.data.spec_bytes().len() as int,
                    )
                },
                None => self.cursor < self.data.spec_bytes().len() ==> is_continuation_byte(
                    self.data.spec_bytes()[self.cursor as int],
                ),
            },
    {
        proof {
            encode_utf8_valid_utf8(self.data@);
        }
        if self.cursor <= byte_len(self.data) && self.data.is_char_boundary(self.cursor) {
            let (_, rest) = self.data.split_at(self.cursor);
            Some(rest)
        } else {
            proof {
                if self.cursor < self.data.spec_bytes().len() {
                    is_char_boundary_iff_not_is_continuation_byte(
                        self.data.spec_bytes(),
                        self.cursor as int,
                    );
                }
            }
            None
        }
    }

    /// Scans the next token and moves the cursor to its end. At the end of
    /// the input, or at a byte that belongs to no category, there is no
    /// token and the cursor stays.
    pub fn get_next_token(&mut self) -> (item: Option<
        Result<(usize, CookieToken, usize), CookieLexerError>,
    >)
        ensures
            final(self).input() == old(self).input(),
            item == token_item(token_at(old(self).input(), old(self).position() as int)),
            final(self).position() == match token_at(
                old(self).input(),
                old(self).position() as int,
            ) {
                Some(lexeme) => lexeme.end,
                None => old(self).position() as int,
            },
            old(self).position() <= final(self).position(),
    {
        proof {
            if token_at(self.input(), self.position() as int) is Some {
                lemma_token_extent(self.input(), self.position() as int);
            }
        }
        let cursor_str = match self.substr_at_cursor() {
            Some(val) => val,
            None => return None,
        };

        if byte_len(cursor_str) == 0 {
            return None;
        }
        let bytes = self.data.as_bytes();
        let start = self.cursor;
        proof {
            reveal_strlit("=");
            reveal_strlit(";");
            reveal_strlit("\"");
            lemma_single_char_match(cursor_str.spec_bytes(), "=", '=');
            lemma_single_char_match(cursor_str.spec_bytes(), ";", ';');
            lemma_single_char_match(cursor_str.spec_bytes(), "\"", '"');
            assert(cursor_str.spec_bytes()[0] == bytes@[start as int]);
        }

        if bytes[start] == SPACE && (bytes.len() == start + 1 || !is_whitespace_char(
            bytes[start + 1] as char,
        )) {
            self.cursor = start + 1;
            return Some(Ok((start, CookieToken::Space, start + 1)));
        }
        if is_str_match(cursor_str, "=") {
            self.cursor = start + 1;
            return Some(Ok((start, CookieToken::Equals, start + 1)));
        }
        if is_str_match(cursor_str, ";") {
            self.cursor = start + 1;
            return Some(Ok((start, CookieToken::Semicolon, start + 1)));
        }
        if is_str_match(cursor_str, "\"") {
            self.cursor = start + 1;
            return Some(Ok((start, CookieToken::DoubleQuote, start + 1)));
        }
        let mut end = start;
        while end < bytes.len() && is_whitespace_char(bytes[end] as char)
            invariant
                bytes@ == self.data.spec_bytes(),
                start <= end <= bytes.len(),
                forall|i: int| start <= i < end ==> in_set(ByteSet::Ows, #[trigger] bytes@[i]),
            decreases bytes.len() - end,
        {
            end += 1;
        }
        if end > start {
            proof {
                lemma_maximal_run_end(bytes@, start as int, end as int, ByteSet::Ows);
            }
            self.cursor = end;
            return Some(Ok((start, CookieToken::Whitespace, end)));
        }
        self.get_next_pattern_token()
    }

    /// Scans the run of cookie octets at the cursor, if there is one, and
    /// moves the cursor to its end.
    fn get_next_pattern_token(&mut self) -> (item: Option<
        Result<(usize, CookieToken, usize), CookieLexerError>,
    >)
        requires
            old(self).cursor <= old(self).data.spec_bytes().len(),
        ensures
            final(self).data == old(self).data,
            item == token_item(pattern_token_at(old(self).input(), old(self).position() as int)),
            final(self).position() == match pattern_token_at(
                old(self).input(),
                old(self).position() as int,
            ) {
                Some(lexeme) => lexeme.end,
                None => old(self).position() as int,
            },
    {
        let bytes = self.data.as_bytes();
        let start = self.cursor;
        let mut can_be_token = true;
        let mut end = start;
        while end < bytes.len()
            invariant
                bytes@ == self.data.spec_bytes(),
                start <= end <= bytes.len(),
                forall|i: int|
                    start <= i < end ==> in_set(ByteSet::CookieOctet, #[trigger] bytes@[i]),
                can_be_token == all_token_chars(bytes@, start as int, end as int),
            ensures
                start <= end <= bytes.len(),
                is_maximal_run(bytes@, start as int, end as int, ByteSet::CookieOctet),
                can_be_token == all_token_chars(bytes@, start as int, end as int),
            decreases bytes.len() - end,
        {
            match CookieLexer::char_token_class(bytes[end] as char) {
                CharTokenClass::TokenOrCookieOctets => {
                    end += 1;
                },
                CharTokenClass::CookieOctets => {
                    can_be_token = false;
                    end += 1;
                },
                CharTokenClass::Excluded => {
                    break ;
                },
            }
        }
        proof {
            lemma_maximal_run_end(bytes@, start as int, end as int, ByteSet::CookieOctet);
        }
        if end > start {
            let token = if can_be_token {
                CookieToken::TokenOrCookieOctets
            } else {
                CookieToken::CookieOctets
            };
            self.cursor = end;
            Some(Ok((start, token, end)))
        } else {
            None
        }
    }

    /// Classifies one character for the scan of octet runs.
    pub fn char_token_class(c: char) -> (class: CharTokenClass)
        ensures
            class == char_class(c),
    {
        match c {
            '\x21'
            | '\x23'..='\x27'
            | '\x2a'
            | '\x2b'
            | '\x2d'
            | '\x2e'
            | '\x30'..='\x39'
            | '\x41'..='\x5a'
            | '\x5e'..='\x7a'
            | '\x7c'
            | '\x7e' => CharTokenClass::TokenOrCookieOctets,
            '\x28'
            | '\x29'
            | '\x2f'
            | '\x3a'
            | '\x3c'
            | '\x3e'..='\x40'
            | '\x5b'
            | '\x5d'
            | '\x7b'
            | '\x7d' => CharTokenClass::CookieOctets,
            _ => CharTokenClass::Excluded,
        }
    }
}

} // verus!
