use basic_cookies::cookie_lexer::matching::{is_str_match, is_whitespace_char};
use basic_cookies::cookie_lexer::{byte_len, CharTokenClass, CookieLexer, CookieToken};

fn all_tokens(input: &str) -> Vec<(usize, CookieToken, usize)> {
    let mut lexer = CookieLexer::new(input);
    let mut tokens = Vec::new();
    while let Some(item) = lexer.get_next_token() {
        tokens.push(item.unwrap());
    }
    tokens
}

#[test]
fn character_classes_follow_the_partition() {
    let token_chars = "!#$%&'*+-.0123456789ABCDEFGHIJKLMNOPQRSTUVWXYZ^_`abcdefghijklmnopqrstuvwxyz|~";
    let octet_only_chars = "()/:<>?@[]{}";
    for code in 0u32..=0x7f {
        let c = char::from_u32(code).unwrap();
        let expected = if token_chars.contains(c) {
            CharTokenClass::TokenOrCookieOctets
        } else if octet_only_chars.contains(c) {
            CharTokenClass::CookieOctets
        } else {
            CharTokenClass::Excluded
        };
        assert_eq!(expected, CookieLexer::char_token_class(c), "character {:?}", c);
    }
}

#[test]
fn separators_and_controls_are_in_no_class() {
    for c in ['=', ';', '"', ' ', '\t', ',', '\\', '\x00', '\x1f', '\x7f', '\u{80}', 'é', '€'] {
        assert_eq!(CharTokenClass::Excluded, CookieLexer::char_token_class(c));
    }
}

#[test]
fn whitespace_characters_are_space_and_tab() {
    assert!(is_whitespace_char(' '));
    assert!(is_whitespace_char('\t'));
    assert!(!is_whitespace_char('\n'));
    assert!(!is_whitespace_char('\r'));
    assert!(!is_whitespace_char('a'));
    assert!(!is_whitespace_char('\u{a0}'));
}

#[test]
fn empty_pattern_matches_everything() {
    assert!(is_str_match("abc", ""));
    assert!(is_str_match("", ""));
    assert!(!is_str_match("", "a"));
}

#[test]
fn match_compares_bytes_of_wide_characters() {
    assert!(is_str_match("héllo", "hé"));
    assert!(!is_str_match("héllo", "hè"));
}

#[test]
fn byte_len_counts_bytes() {
    assert_eq!(0, byte_len(""));
    assert_eq!(3, byte_len("abc"));
    assert_eq!(2, byte_len("é"));
}

#[test]
fn token_names() {
    assert_eq!("CookieToken::CookieOctets", CookieToken::CookieOctets.as_str());
    assert_eq!("CookieToken::TokenOrCookieOctets", CookieToken::TokenOrCookieOctets.as_str());
    assert_eq!("CookieToken::Equals", CookieToken::Equals.as_str());
    assert_eq!("CookieToken::Semicolon", CookieToken::Semicolon.as_str());
    assert_eq!("CookieToken::Whitespace", CookieToken::Whitespace.as_str());
    assert_eq!("CookieToken::Space", CookieToken::Space.as_str());
    assert_eq!("CookieToken::DoubleQuote", CookieToken::DoubleQuote.as_str());
}

#[test]
fn end_of_input_gives_no_token() {
    let mut lexer = CookieLexer::new("");
    assert_eq!(None, lexer.get_next_token());
    assert_eq!(0, lexer.cursor());
}

#[test]
fn cursor_follows_the_tokens() {
    let mut lexer = CookieLexer::new("ab=c");
    assert_eq!(0, lexer.cursor());
    lexer.get_next_token();
    assert_eq!(2, lexer.cursor());
    lexer.get_next_token();
    assert_eq!(3, lexer.cursor());
    lexer.get_next_token();
    assert_eq!(4, lexer.cursor());
    assert_eq!(None, lexer.get_next_token());
    assert_eq!(4, lexer.cursor());
}

#[test]
fn semicolon_and_double_quote() {
    assert_eq!(
        vec![
            (0, CookieToken::Semicolon, 1),
            (1, CookieToken::DoubleQuote, 2),
            (2, CookieToken::Semicolon, 3),
        ],
        all_tokens(";\";")
    );
}

#[test]
fn space_before_tab_starts_a_whitespace_run() {
    assert_eq!(vec![(0, CookieToken::Whitespace, 3)], all_tokens(" \t "));
    assert_eq!(vec![(0, CookieToken::Whitespace, 2)], all_tokens(" \t"));
    assert_eq!(
        vec![
            (0, CookieToken::TokenOrCookieOctets, 1),
            (1, CookieToken::Whitespace, 3),
            (3, CookieToken::Equals, 4),
        ],
        all_tokens("a \t=")
    );
}

#[test]
fn space_is_lone_before_anything_but_whitespace() {
    assert_eq!(
        vec![(0, CookieToken::Space, 1), (1, CookieToken::Semicolon, 2), (2, CookieToken::Space, 3)],
        all_tokens(" ; ")
    );
    assert_eq!(vec![(0, CookieToken::Space, 1)], all_tokens(" \u{e9}"));
    assert_eq!(vec![(0, CookieToken::Space, 1)], all_tokens(" ,"));
}

#[test]
fn lone_tab_is_whitespace() {
    assert_eq!(vec![(0, CookieToken::Whitespace, 1)], all_tokens("\t"));
}

#[test]
fn tab_then_space_is_one_whitespace() {
    assert_eq!(vec![(0, CookieToken::Whitespace, 2)], all_tokens("\t "));
}

#[test]
fn three_spaces_are_one_whitespace() {
    assert_eq!(vec![(0, CookieToken::Whitespace, 3)], all_tokens("   "));
}

#[test]
fn one_octet_outside_tokens_turns_the_run() {
    assert_eq!(vec![(0, CookieToken::CookieOctets, 4)], all_tokens("ab/c"));
    assert_eq!(vec![(0, CookieToken::CookieOctets, 1)], all_tokens("@"));
    assert_eq!(vec![(0, CookieToken::TokenOrCookieOctets, 3)], all_tokens("a|~"));
}

#[test]
fn equals_ends_an_octet_run() {
    assert_eq!(
        vec![
            (0, CookieToken::CookieOctets, 2),
            (2, CookieToken::Equals, 3),
            (3, CookieToken::TokenOrCookieOctets, 4),
        ],
        all_tokens("a:=b")
    );
}

#[test]
fn token_stream_ends_at_a_byte_of_no_class() {
    let mut lexer = CookieLexer::new("ab,cd");
    assert_eq!(Some(Ok((0, CookieToken::TokenOrCookieOctets, 2))), lexer.get_next_token());
    assert_eq!(None, lexer.get_next_token());
    assert_eq!(None, lexer.get_next_token());
    assert_eq!(2, lexer.cursor());
}

#[test]
fn token_stream_ends_at_a_wide_character() {
    assert_eq!(
        vec![(0, CookieToken::TokenOrCookieOctets, 1), (1, CookieToken::Space, 2)],
        all_tokens("a é=b")
    );
    assert_eq!(Vec::<(usize, CookieToken, usize)>::new(), all_tokens("é"));
}

#[test]
fn tokens_leave_no_gaps() {
    let input = " name = \"va:lue\" ;\t other=1==2  ";
    let tokens = all_tokens(input);
    let mut at = 0;
    for (start, _, end) in &tokens {
        assert_eq!(at, *start);
        assert!(start < end);
        at = *end;
    }
    assert_eq!(input.len(), at);
}
