use basic_cookies::cookie::cookie_grammar::CookiesParser;
use basic_cookies::cookie_lexer::CookieLexer;
use basic_cookies::linked_list::LinkedList;
use basic_cookies::{Cookie, Error};

fn outcome(input: &str) -> Option<Vec<(String, String)>> {
    match Cookie::parse(input) {
        Ok(cookies) => Some(
            cookies
                .iter()
                .map(|cookie| (cookie.get_name().to_string(), cookie.get_value().to_string()))
                .collect(),
        ),
        Err(Error::ParseError(_)) => None,
        Err(Error::InternalError(_)) => panic!("internal error on {:?}", input),
    }
}

const SAMPLES: [&str; 16] = [
    "a=b",
    "a=b;c=d",
    "a=b; c=d; e=f",
    "=",
    "a",
    "a=",
    "=b",
    "a=\"b\";c",
    "a=\"",
    "",
    ";",
    "a=b;",
    "a b",
    "a=b,c",
    "x=1==2;y=\"\"",
    "a;b;c",
];

const PADDINGS: [&str; 5] = [" ", "\t", "  ", " \t", "\t \t "];

#[test]
fn leading_whitespace_changes_nothing() {
    for sample in SAMPLES {
        for padding in PADDINGS {
            assert_eq!(outcome(sample), outcome(&format!("{}{}", padding, sample)));
        }
    }
}

#[test]
fn trailing_whitespace_changes_nothing() {
    for sample in SAMPLES {
        for padding in PADDINGS {
            assert_eq!(outcome(sample), outcome(&format!("{}{}", sample, padding)));
        }
    }
}

#[test]
fn whitespace_around_semicolons_changes_nothing() {
    for sample in SAMPLES {
        for (at, _) in sample.match_indices(';') {
            for before in PADDINGS {
                for after in PADDINGS {
                    let padded =
                        format!("{}{};{}{}", &sample[..at], before, after, &sample[at + 1..]);
                    assert_eq!(outcome(sample), outcome(&padded), "{:?}", padded);
                    let padded = format!("{}{};{}", &sample[..at], before, &sample[at + 1..]);
                    assert_eq!(outcome(sample), outcome(&padded), "{:?}", padded);
                    let padded = format!("{};{}{}", &sample[..at], after, &sample[at + 1..]);
                    assert_eq!(outcome(sample), outcome(&padded), "{:?}", padded);
                }
            }
        }
    }
}

#[test]
fn cookies_come_in_the_order_of_the_input() {
    let input = "n0=v0; n1=v1;n2=v2 ;n3=v3 ; n4=v4";
    let cookies = Cookie::parse(input).unwrap();
    assert_eq!(5, cookies.len());
    let mut behind = 0;
    for (i, cookie) in cookies.iter().enumerate() {
        assert_eq!(format!("n{}", i), cookie.get_name());
        assert_eq!(format!("v{}", i), cookie.get_value());
        let at = input.find(cookie.get_name()).unwrap();
        assert!(behind <= at);
        behind = at + cookie.get_name().len();
    }
}

#[test]
fn as_many_cookies_as_pairs() {
    let mut input = String::from("c0=0");
    for count in 1..40 {
        assert_eq!(count, Cookie::parse(&input).unwrap().len());
        input.push_str(&format!("; c{}={}", count, count));
    }
}

#[test]
fn names_and_values_are_slices_of_the_input() {
    let input = String::from(" first=1 ; second=\"two\";third;=fourth; fifth= ");
    let range = input.as_bytes().as_ptr_range();
    let cookies = Cookie::parse(&input).unwrap();
    assert_eq!(5, cookies.len());
    for cookie in &cookies {
        for text in [cookie.get_name(), cookie.get_value()] {
            let start = text.as_ptr();
            assert!(range.start <= start && start <= range.end);
            let offset = start as usize - range.start as usize;
            assert_eq!(text, &input[offset..offset + text.len()]);
        }
    }
}

#[test]
fn spans_do_not_overlap_and_leave_out_separators_only() {
    let input = " a=1;bb = ; c=\"d=e\" ;f ; =g";
    assert!(Cookie::parse(input).is_err());
    let input = " a=1;bb= ; c=\"d=e\" ;f ; =g  ";
    let list = CookiesParser::new().parse(CookieLexer::new(input)).unwrap();
    let mut pairs = list.clone_to_vec();
    pairs.reverse();
    let mut covered = vec![false; input.len()];
    let mut behind = 0;
    for pair in &pairs {
        assert!(behind <= pair.key().start());
        assert!(pair.key().start() <= pair.key().end());
        assert!(pair.key().end() <= pair.value().start());
        assert!(pair.value().start() <= pair.value().end());
        behind = pair.value().end();
        for at in (pair.key().start()..pair.key().end()).chain(pair.value().start()..pair.value().end()) {
            assert!(!covered[at]);
            covered[at] = true;
        }
    }
    for (at, byte) in input.bytes().enumerate() {
        assert!(covered[at] || b" \t=;\"".contains(&byte), "offset {}", at);
    }
}

#[test]
fn list_grows_at_its_front() {
    let list = LinkedList::new(1).insert(2).insert(3);
    assert_eq!(vec![3, 2, 1], list.clone_to_vec());
    assert_eq!(3, *list.head());
    let rest = list.tail().unwrap();
    assert_eq!(vec![2, 1], rest.clone_to_vec());
    let last = rest.tail().unwrap();
    assert_eq!(1, *last.head());
    assert!(last.tail().is_none());
}

#[test]
fn list_of_one_item() {
    let list = LinkedList::new(String::from("only"));
    assert_eq!(vec![String::from("only")], list.clone_to_vec());
    assert_eq!("only", list.head());
    assert!(list.tail().is_none());
}
