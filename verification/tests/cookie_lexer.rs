use basic_cookies::cookie_lexer::matching::is_str_match;
use basic_cookies::cookie_lexer::{CookieLexer, CookieToken};

#[test]
fn yes_equal() {
    assert!(is_str_match("abc", "abc"));
}

#[test]
fn yes_prefix() {
    assert!(is_str_match("abcdef", "abc"));
}

#[test]
fn no_same_length() {
    assert!(!is_str_match("abc", "def"));
}

#[test]
fn no_shared_prefix() {
    assert!(!is_str_match("abcxyx", "abcijkl"));
}

#[test]
fn no_prefix_other_way_around() {
    assert!(!is_str_match("abc", "abcdef"));
}

#[test]
fn equals() {
    assert_eq!(
        Some(Ok((0, CookieToken::Equals, 1))),
        CookieLexer::new("=").get_next_token()
    );
}

#[test]
fn equals_and_token() {
    let mut lexer = CookieLexer::new("=Hello");

    assert_eq!(
        Some(Ok((0, CookieToken::Equals, 1))),
        lexer.get_next_token()
    );

    assert_eq!(
        Some(Ok((1, CookieToken::TokenOrCookieOctets, 6))),
        lexer.get_next_token()
    );
}

#[test]
fn token() {
    assert_eq!(
        Some(Ok((0, CookieToken::TokenOrCookieOctets, 5))),
        CookieLexer::new("Hello").get_next_token()
    );
}

#[test]
fn token_and_equals() {
    let mut lexer = CookieLexer::new("Hello=");

    assert_eq!(
        Some(Ok((0, CookieToken::TokenOrCookieOctets, 5))),
        lexer.get_next_token()
    );

    assert_eq!(
        Some(Ok((5, CookieToken::Equals, 6))),
        lexer.get_next_token()
    );
}

#[test]
fn cookie_octets() {
    assert_eq!(
        Some(Ok((0, CookieToken::CookieOctets, 6))),
        CookieLexer::new("(test)").get_next_token()
    );
}

#[test]
fn equals_and_cookie_octets() {
    let mut lexer = CookieLexer::new("=Hello");

    assert_eq!(
        Some(Ok((0, CookieToken::Equals, 1))),
        lexer.get_next_token()
    );

    assert_eq!(
        Some(Ok((1, CookieToken::TokenOrCookieOctets, 6))),
        lexer.get_next_token()
    );
}

#[test]
fn whitespace() {
    assert_eq!(
        Some(Ok((0, CookieToken::Whitespace, 5))),
        CookieLexer::new("  \x09  ").get_next_token()
    );
}

#[test]
fn whitespace_two_spaces() {
    assert_eq!(
        Some(Ok((0, CookieToken::Whitespace, 2))),
        CookieLexer::new("  ").get_next_token()
    );
}

#[test]
fn whitespace_and_token_or_cookie_octets() {
    let mut lexer = CookieLexer::new("  \x09  test");

    assert_eq!(
        Some(Ok((0, CookieToken::Whitespace, 5))),
        lexer.get_next_token()
    );

    assert_eq!(
        Some(Ok((5, CookieToken::TokenOrCookieOctets, 9))),
        lexer.get_next_token()
    );
}

#[test]
fn equals_and_whitespace_and_token_or_cookie_octets() {
    let mut lexer = CookieLexer::new("=  \x09  test");

    assert_eq!(
        Some(Ok((0, CookieToken::Equals, 1))),
        lexer.get_next_token()
    );

    assert_eq!(
        Some(Ok((1, CookieToken::Whitespace, 6))),
        lexer.get_next_token()
    );

    assert_eq!(
        Some(Ok((6, CookieToken::TokenOrCookieOctets, 10))),
        lexer.get_next_token()
    );
}

#[test]
fn space() {
    assert_eq!(
        Some(Ok((0, CookieToken::Space, 1))),
        CookieLexer::new(" ").get_next_token()
    );
}

#[test]
fn space_and_equals_and_space() {
    let mut lexer = CookieLexer::new(" = ");

    assert_eq!(Some(Ok((0, CookieToken::Space, 1))), lexer.get_next_token());

    assert_eq!(
        Some(Ok((1, CookieToken::Equals, 2))),
        lexer.get_next_token()
    );

    assert_eq!(Some(Ok((2, CookieToken::Space, 3))), lexer.get_next_token());
}
