use basic_cookies::cookie::cookie_grammar::CookiesParser;
use basic_cookies::cookie::ParseErrorKind;
use basic_cookies::cookie_lexer::{CookieLexer, CookieToken};
use basic_cookies::{Cookie, Error};

fn pairs(input: &str) -> Vec<(String, String)> {
    Cookie::parse(input)
        .unwrap()
        .iter()
        .map(|cookie| (cookie.get_name().to_string(), cookie.get_value().to_string()))
        .collect()
}

fn pair(name: &str, value: &str) -> (String, String) {
    (name.to_string(), value.to_string())
}

fn failure(input: &str) -> ParseErrorKind {
    match Cookie::parse(input) {
        Err(Error::ParseError(error)) => error.get_kind(),
        Err(Error::InternalError(_)) => panic!("internal error on {:?}", input),
        Ok(_) => panic!("{:?} was parsed", input),
    }
}

fn spans(input: &str) -> Vec<(usize, usize, usize, usize)> {
    let list = CookiesParser::new().parse(CookieLexer::new(input)).unwrap();
    let mut spans: Vec<(usize, usize, usize, usize)> = list
        .clone_to_vec()
        .iter()
        .map(|pair| (pair.key().start(), pair.key().end(), pair.value().start(), pair.value().end()))
        .collect();
    spans.reverse();
    spans
}

#[test]
fn scenario_two_cookies() {
    assert_eq!(
        vec![pair("cookie1", "value1"), pair("cookie2", "value2")],
        pairs("cookie1=value1; cookie2=value2")
    );
}

#[test]
fn scenario_surrounding_whitespace() {
    assert_eq!(vec![pair("ztest", "9876")], pairs(" \t ztest=9876 "));
}

#[test]
fn scenario_dangling_semicolon() {
    assert_eq!(ParseErrorKind::UnrecognizedEof { location: 4 }, failure("a=b;"));
    assert_eq!(ParseErrorKind::UnrecognizedEof { location: 6 }, failure("a=b;  "));
}

#[test]
fn scenario_unterminated_quote() {
    assert_eq!(ParseErrorKind::UnrecognizedEof { location: 11 }, failure("name=\"value"));
}

#[test]
fn empty_input_is_no_cookie_string() {
    assert_eq!(ParseErrorKind::UnrecognizedEof { location: 0 }, failure(""));
}

#[test]
fn whitespace_alone_is_no_cookie_string() {
    assert_eq!(ParseErrorKind::UnrecognizedEof { location: 1 }, failure(" "));
    assert_eq!(ParseErrorKind::UnrecognizedEof { location: 4 }, failure(" \t  "));
}

#[test]
fn leading_semicolon_is_refused() {
    assert_eq!(
        ParseErrorKind::UnrecognizedToken { start: 0, token: CookieToken::Semicolon, end: 1 },
        failure(";a=b")
    );
}

#[test]
fn consecutive_semicolons_are_refused() {
    assert_eq!(
        ParseErrorKind::UnrecognizedToken { start: 4, token: CookieToken::Semicolon, end: 5 },
        failure("a=b;;c=d")
    );
    assert_eq!(
        ParseErrorKind::UnrecognizedToken { start: 5, token: CookieToken::Semicolon, end: 6 },
        failure("a=b; ;c=d")
    );
}

#[test]
fn two_names_in_a_row_are_refused() {
    assert_eq!(
        ParseErrorKind::UnrecognizedToken {
            start: 2,
            token: CookieToken::TokenOrCookieOctets,
            end: 3,
        },
        failure("a b")
    );
}

#[test]
fn whitespace_before_equals_is_refused() {
    assert_eq!(
        ParseErrorKind::UnrecognizedToken { start: 2, token: CookieToken::Equals, end: 3 },
        failure("a =b")
    );
}

#[test]
fn name_must_be_a_token() {
    assert_eq!(
        ParseErrorKind::UnrecognizedToken { start: 0, token: CookieToken::CookieOctets, end: 3 },
        failure("a/b=c")
    );
    assert_eq!(
        ParseErrorKind::UnrecognizedToken { start: 0, token: CookieToken::CookieOctets, end: 6 },
        failure("(test)")
    );
}

#[test]
fn quote_without_equals_is_refused() {
    assert_eq!(
        ParseErrorKind::UnrecognizedToken { start: 0, token: CookieToken::DoubleQuote, end: 1 },
        failure("\"a\"")
    );
}

#[test]
fn whitespace_within_quotes_is_refused() {
    assert_eq!(
        ParseErrorKind::UnrecognizedToken { start: 4, token: CookieToken::Space, end: 5 },
        failure("a=\"b c\"")
    );
}

#[test]
fn semicolon_within_quotes_is_refused() {
    assert_eq!(
        ParseErrorKind::UnrecognizedToken { start: 4, token: CookieToken::Semicolon, end: 5 },
        failure("a=\"b;c\"")
    );
}

#[test]
fn text_behind_a_closing_quote_is_refused() {
    assert_eq!(
        ParseErrorKind::UnrecognizedToken {
            start: 5,
            token: CookieToken::TokenOrCookieOctets,
            end: 6,
        },
        failure("a=\"b\"c")
    );
}

#[test]
fn quote_within_a_value_is_refused() {
    assert_eq!(
        ParseErrorKind::UnrecognizedToken { start: 3, token: CookieToken::DoubleQuote, end: 4 },
        failure("a=b\"c")
    );
}

#[test]
fn failure_is_all_or_nothing() {
    assert!(Cookie::parse("good=1; bad one=2").is_err());
    assert!(Cookie::parse("good=1; also=2;").is_err());
}

#[test]
fn value_may_hold_cookie_octets() {
    assert_eq!(vec![pair("a", "(b)/c:d<e>?@[f]{g}")], pairs("a=(b)/c:d<e>?@[f]{g}"));
}

#[test]
fn value_may_start_with_equals() {
    assert_eq!(vec![pair("a", "=b")], pairs("a==b"));
    assert_eq!(vec![pair("", "=")], pairs("=="));
    assert_eq!(vec![pair("a", "b==")], pairs("a=b=="));
}

#[test]
fn quoted_value_may_hold_equals() {
    assert_eq!(vec![pair("a", "b=c")], pairs("a=\"b=c\""));
}

#[test]
fn empty_quoted_value() {
    assert_eq!(vec![pair("a", "")], pairs("a=\"\""));
    assert_eq!(vec![(0, 1, 3, 3)], spans("a=\"\""));
}

#[test]
fn whitespace_behind_equals_is_skipped() {
    assert_eq!(vec![pair("a", "b")], pairs("a= b"));
    assert_eq!(vec![pair("a", "b")], pairs("a= \t \"b\""));
    assert_eq!(vec![pair("", "b")], pairs("=  b"));
}

#[test]
fn whitespace_before_a_semicolon_is_skipped() {
    assert_eq!(vec![pair("a", "b"), pair("c", "d")], pairs("a=b ;c=d"));
    assert_eq!(vec![pair("a", "b"), pair("c", "d")], pairs("a=b \t ; \t c=d"));
    assert_eq!(vec![pair("a", ""), pair("c", "d")], pairs("a= ;c=d"));
    assert_eq!(vec![pair("", "a"), pair("", "c")], pairs("a ; c"));
}

#[test]
fn pairs_without_equals_among_others() {
    assert_eq!(
        vec![pair("", "a"), pair("b", "c"), pair("", "d")],
        pairs("a; b=c; d")
    );
}

#[test]
fn parse_ends_where_the_token_stream_ends() {
    assert_eq!(vec![pair("a", "b")], pairs("a=b,c=d"));
    assert_eq!(vec![pair("a", "b")], pairs("a=b\u{e9}"));
    assert_eq!(vec![pair("a", "")], pairs("a=\\"));
    assert_eq!(ParseErrorKind::UnrecognizedEof { location: 4 }, failure("a=b;\x01c=d"));
    assert_eq!(ParseErrorKind::UnrecognizedEof { location: 0 }, failure("\u{e9}=b"));
}

#[test]
fn spans_of_the_pairs() {
    assert_eq!(vec![(0, 4, 5, 9)], spans("test=1234"));
    assert_eq!(vec![(0, 0, 0, 5)], spans("nokey"));
    assert_eq!(vec![(0, 0, 1, 6)], spans("=nokey"));
    assert_eq!(vec![(1, 1, 2, 7)], spans(" =nokey"));
    assert_eq!(vec![(0, 5, 6, 6)], spans("noval="));
    assert_eq!(vec![(0, 5, 7, 7)], spans("noval= "));
    assert_eq!(vec![(0, 11, 13, 22)], spans("quoted_test=\"quotedval\""));
    assert_eq!(vec![(0, 1, 2, 3), (5, 6, 7, 8)], spans("a=b; c=d"));
}

#[test]
fn parser_starts_where_the_lexer_stands() {
    let mut lexer = CookieLexer::new("skipped=1;kept=2");
    for _ in 0..4 {
        lexer.get_next_token();
    }
    let list = CookiesParser::new().parse(lexer).unwrap();
    let found = list.clone_to_vec();
    assert_eq!(1, found.len());
    assert_eq!((10, 14), (found[0].key().start(), found[0].key().end()));
    assert_eq!((15, 16), (found[0].value().start(), found[0].value().end()));
}

#[test]
fn parser_hands_out_the_last_pair_first() {
    let list = CookiesParser::new().parse(CookieLexer::new("a=1;b=2;c=3")).unwrap();
    let found = list.clone_to_vec();
    assert_eq!(3, found.len());
    assert_eq!(8, found[0].key().start());
    assert_eq!(4, found[1].key().start());
    assert_eq!(0, found[2].key().start());
}
