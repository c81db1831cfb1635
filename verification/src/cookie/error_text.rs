//! The descriptions of the errors, for people to read.

use super::{Error, InternalError, ParseError, ParseErrorKind};
use crate::cookie_lexer::token_name;
use vstd::prelude::*;
use vstd::string::*;

verus! {

/// The character of a decimal digit.
pub open spec fn digit_char(digit: nat) -> char {
    if digit == 0 {
        '0'
    } else if digit == 1 {
        '1'
    } else if digit == 2 {
        '2'
    } else if digit == 3 {
        '3'
    } else if digit == 4 {
        '4'
    } else if digit == 5 {
        '5'
    } else if digit == 6 {
        '6'
    } else if digit == 7 {
        '7'
    } else if digit == 8 {
        '8'
    } else {
        '9'
    }
}

/// The decimal numeral of `n`, without leading zeros.
pub open spec fn decimal(n: nat) -> Seq<char>
    decreases n,
{
    if n < 10 {
        seq![digit_char(n)]
    } else {
        decimal(n / 10).push(digit_char(n % 10))
    }
}

/// What is said of a token stream that ends at `location` within a cookie
/// string.
pub open spec fn unrecognized_eof_text(location: usize) -> Seq<char> {
    "Unrecognized EOF found at "@ + decimal(location as nat)
}

/// What is said of a token named `token` at `start..end` that cannot stand
/// where it does.
pub open spec fn unrecognized_token_text(start: usize, token: Seq<char>, end: usize) -> Seq<char> {
    "Unrecognized token `"@ + token + "` found at "@ + decimal(start as nat) + ":"@ + decimal(
        end as nat,
    )
}

/// What is said of a parse error of the given kind.
pub open spec fn parse_error_text(kind: ParseErrorKind) -> Seq<char> {
    match kind {
        ParseErrorKind::UnrecognizedEof { location } => unrecognized_eof_text(location),
        ParseErrorKind::UnrecognizedToken { start, token, end } => unrecognized_token_text(
            start,
            token_name(token),
            end,
        ),
    }
}

/// What is said of an error.
pub open spec fn error_text(error: Error) -> Seq<char> {
    match error {
        Error::InternalError(_) => "Cookie Parsing Error: Internal Error"@,
        Error::ParseError(error) => "Cookie Parsing Error: Parse Error: "@ + parse_error_text(
            error.kind(),
        ),
    }
}

/// What is said of a parse error of the given kind, where `token` is the
/// name of the token that it holds, if it holds one.
pub open spec fn parse_error_text_with(kind: ParseErrorKind, token: Seq<char>) -> Seq<char> {
    match kind {
        ParseErrorKind::UnrecognizedEof { location } => unrecognized_eof_text(location),
        ParseErrorKind::UnrecognizedToken { start, end, .. } => unrecognized_token_text(
            start,
            token,
            end,
        ),
    }
}

/// `lalrpop_util::ParseError`'s `Display`, on the error of the same variant
/// as `kind`, with the same location or the same start and end, with `token`
/// as its token and with no expected tokens. For `UnrecognizedEof` it gives
/// the words "Unrecognized EOF found at " and the location; for
/// `UnrecognizedToken` the words "Unrecognized token ", the token between
/// backquotes, " found at ", the start, a colon and the end. The offsets
/// are `usize` and shown as decimal numerals.
#[verifier::external_body]
fn lalrpop_display(kind: ParseErrorKind, token: &str) -> (text: String)
    ensures
        text@ == parse_error_text_with(kind, token@),
{
    let error: lalrpop_util::ParseError<usize, &str, &str> = match kind {
        ParseErrorKind::UnrecognizedEof { location } => {
            lalrpop_util::ParseError::UnrecognizedEof { location, expected: Vec::new() }
        },
        ParseErrorKind::UnrecognizedToken { start, end, .. } => {
            lalrpop_util::ParseError::UnrecognizedToken {
                token: (start, token, end),
                expected: Vec::new(),
            }
        },
    };
    error.to_string()
}

impl InternalError {
    /// The short description of every internal error.
    pub fn description(&self) -> (text: &'static str)
        ensures
            text@ == "Internal Error"@,
    {
        "Internal Error"
    }

    /// What is said of the error.
    pub fn message(&self) -> (text: String)
        ensures
            text@ == "Internal Error"@,
    {
        String::from_str("Internal Error")
    }
}

impl ParseError {
    /// The short description of every parse error.
    pub fn description(&self) -> (text: &'static str)
        ensures
            text@ == "Parse Error"@,
    {
        "Parse Error"
    }

    /// What is said of the error: that it is a parse error, what was met
    /// and where.
    pub fn message(&self) -> (text: String)
        ensures
            text@ == "Parse Error: "@ + parse_error_text(self.kind()),
    {
        let kind = self.get_kind();
        let token = match kind {
            ParseErrorKind::UnrecognizedEof { .. } => "",
            ParseErrorKind::UnrecognizedToken { token, .. } => token.as_str(),
        };
        let cause = lalrpop_display(kind, token);
        String::from_str("Parse Error: ").concat(cause.as_str())
    }
}

impl Error {
    /// The short description of every error of parsing cookies.
    pub fn description(&self) -> (text: &'static str)
        ensures
            text@ == "Cookie Parsing Error"@,
    {
        "Cookie Parsing Error"
    }

    /// What is said of the error: that it is an error of parsing cookies,
    /// and what is said of its cause.
    pub fn message(&self) -> (text: String)
        ensures
            text@ == error_text(*self),
    {
        let cause = match self {
            Error::InternalError(error) => error.message(),
            Error::ParseError(error) => error.message(),
        };
        let text = String::from_str("Cookie Parsing Error: ").concat(cause.as_str());
        proof {
            reveal_strlit("Cookie Parsing Error: ");
            reveal_strlit("Internal Error");
            reveal_strlit("Cookie Parsing Error: Internal Error");
            reveal_strlit("Parse Error: ");
            reveal_strlit("Cookie Parsing Error: Parse Error: ");
            match self {
                Error::InternalError(_) => {
                    assert(text@ =~= "Cookie Parsing Error: Internal Error"@);
                },
                Error::ParseError(error) => {
                    assert(text@ =~= "Cookie Parsing Error: Parse Error: "@ + parse_error_text(
                        error.kind(),
                    ));
                },
            }
        }
        text
    }
}

} // verus!
