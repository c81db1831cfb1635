use basic_cookies::cookie::nonterminals::NonTerminalSpan;
use basic_cookies::cookie::terminals::Cookie as RawCookie;
use basic_cookies::cookie::{InternalError, InternalErrorKind, ParseError, ParseErrorKind};
use basic_cookies::cookie_lexer::{CookieLexerError, CookieToken};
use basic_cookies::{Cookie, Error};

#[test]
fn span_resolves_to_its_text() {
    assert_eq!("ell", NonTerminalSpan::new(1, 4).as_str("hello").unwrap());
    assert_eq!("hello", NonTerminalSpan::new(0, 5).as_str("hello").unwrap());
    assert_eq!("", NonTerminalSpan::new(5, 5).as_str("hello").unwrap());
    assert_eq!("", NonTerminalSpan::new(0, 0).as_str("").unwrap());
    assert_eq!("é", NonTerminalSpan::new(1, 3).as_str("hél").unwrap());
}

#[test]
fn span_beyond_the_text_fails() {
    let error = NonTerminalSpan::new(0, 6).as_str("hello").unwrap_err();
    assert_eq!(InternalErrorKind::NonTerminalIndexBeyondBoundaries, error.get_kind());
    assert!(NonTerminalSpan::new(6, 6).as_str("hello").is_err());
    assert!(NonTerminalSpan::new(0, 1).as_str("").is_err());
}

#[test]
fn reversed_span_fails() {
    assert!(NonTerminalSpan::new(3, 2).as_str("hello").is_err());
}

#[test]
fn span_that_splits_a_character_fails() {
    assert!(NonTerminalSpan::new(0, 2).as_str("hél").is_err());
    assert!(NonTerminalSpan::new(2, 4).as_str("hél").is_err());
    assert!(NonTerminalSpan::new(2, 2).as_str("hél").is_err());
}

#[test]
fn span_keeps_its_ends() {
    let span = NonTerminalSpan::new(3, 7);
    assert_eq!(3, span.start());
    assert_eq!(7, span.end());
}

#[test]
fn resolving_twice_gives_the_same_text() {
    let span = NonTerminalSpan::new(2, 6);
    let data = "a=bcde;f";
    let first = span.as_str(data).unwrap();
    let second = span.as_str(data).unwrap();
    assert_eq!(first, second);
    assert_eq!(first.as_ptr(), second.as_ptr());
    assert!(NonTerminalSpan::new(2, 60).as_str(data).is_err());
    assert!(NonTerminalSpan::new(2, 60).as_str(data).is_err());
}

#[test]
fn raw_pair_resolves_both_spans() {
    let pair = RawCookie::new(NonTerminalSpan::new(0, 1), NonTerminalSpan::new(2, 5));
    let cookie = pair.with_str("a=bcd").unwrap();
    assert_eq!("a", cookie.get_name());
    assert_eq!("bcd", cookie.get_value());
}

#[test]
fn raw_pair_with_a_bad_span_is_an_internal_error() {
    let bad_value = RawCookie::new(NonTerminalSpan::new(0, 1), NonTerminalSpan::new(2, 9));
    match bad_value.with_str("a=bcd") {
        Err(Error::InternalError(error)) => {
            assert_eq!(InternalErrorKind::NonTerminalIndexBeyondBoundaries, error.get_kind())
        }
        _ => panic!("an internal error was expected"),
    }
    let bad_key = RawCookie::new(NonTerminalSpan::new(4, 1), NonTerminalSpan::new(2, 5));
    assert!(matches!(bad_key.with_str("a=bcd"), Err(Error::InternalError(_))));
}

#[test]
fn parse_never_gives_an_internal_error() {
    for input in ["", ";", "a=\"", "a b", "é", "a=b;", "=;=", "\"", "a=b\u{e9}\u{e9}"] {
        assert!(!matches!(Cookie::parse(input), Err(Error::InternalError(_))));
    }
}

#[test]
fn internal_error_message() {
    let error = InternalError::new(InternalErrorKind::NonTerminalIndexBeyondBoundaries);
    assert_eq!("Internal Error", error.description());
    assert_eq!("Internal Error", error.message());
    let error = error.to_error();
    assert_eq!("Cookie Parsing Error", error.description());
    assert_eq!("Cookie Parsing Error: Internal Error", error.message());
}

#[test]
fn unrecognized_eof_message() {
    let error = ParseError::unrecognized_eof(1234567890);
    assert_eq!(ParseErrorKind::UnrecognizedEof { location: 1234567890 }, error.get_kind());
    assert_eq!("Parse Error", error.description());
    assert_eq!("Parse Error: Unrecognized EOF found at 1234567890", error.message());
    assert_eq!(
        "Parse Error: Unrecognized EOF found at 0",
        ParseError::unrecognized_eof(0).message()
    );
}

#[test]
fn unrecognized_token_message() {
    let error = ParseError::unrecognized_token(10, CookieToken::Whitespace, 109);
    assert_eq!(
        "Parse Error: Unrecognized token `CookieToken::Whitespace` found at 10:109",
        error.message()
    );
    assert_eq!(
        "Cookie Parsing Error: Parse Error: Unrecognized token `CookieToken::Whitespace` found at 10:109",
        error.to_error().message()
    );
}

#[test]
fn parse_error_messages_of_a_parse() {
    assert_eq!(
        "Cookie Parsing Error: Parse Error: Unrecognized EOF found at 4",
        Cookie::parse("a=b;").unwrap_err().message()
    );
    assert_eq!(
        "Cookie Parsing Error: Parse Error: Unrecognized token `CookieToken::Semicolon` found at 0:1",
        Cookie::parse(";").unwrap_err().message()
    );
    assert_eq!(
        "Cookie Parsing Error: Parse Error: Unrecognized token `CookieToken::CookieOctets` found at 5:8",
        Cookie::parse("a=b; c/d=e=f").unwrap_err().message()
    );
}

#[test]
fn lexer_errors_are_never_equal() {
    assert!(!(CookieLexerError == CookieLexerError));
}
