use std::borrow::Cow;

use strtools::parse::{FromStrBack, FromStrFront, ParseBoolError};
use strtools::parse::{yield_literal_back, yield_literal_front};
use strtools::util::{Sorted, SortedError, SortedSlice};
use strtools::StrTools;

#[test]
fn split_sanitize_by_spaces() {
    let parts = r"this string\ is split by\ spaces unless they are\ escaped"
        .split_non_escaped_sanitize('\\', ' ')
        .unwrap()
        .parts();
    assert_eq!(
        parts,
        [
            "this",
            "string is",
            "split",
            "by spaces",
            "unless",
            "they",
            "are escaped"
        ]
    );
}

#[test]
fn split_sanitize_rule_replace_flags() {
    // parsing user input regex rules like `<rule>/<replace>/<flags>`: the
    // rule holds an escaped separator that must not stay escaped
    let parts = r"\.\/.*s(\d\d)e(\d\d[a-d])/S$1E$2/gu"
        .split_non_escaped_sanitize('\\', '/')
        .unwrap()
        .parts();
    assert_eq!(parts, [r"\./.*s(\d\d)e(\d\d[a-d])", "S$1E$2", "gu"]);
}

#[test]
fn split_unsanitized_keeps_escapes() {
    let parts = r"Pa\rt0:Part1:Part2\:StillPart2"
        .split_non_escaped('\\', ':')
        .unwrap()
        .parts();
    assert_eq!(parts, [r"Pa\rt0", "Part1", r"Part2\:StillPart2"]);
}

#[test]
fn split_escape_equals_delim() {
    assert!(r"a:b".split_non_escaped(':', ':').is_err());
    assert!(r"".split_non_escaped_sanitize('/', '/').is_err());
}

#[test]
fn split_multibyte_delimiter() {
    let parts = r"aöb\öc".split_non_escaped_sanitize('\\', 'ö').unwrap().parts();
    assert_eq!(parts, ["a", "böc"]);
}

#[test]
fn split_empty_input_yields_one_empty_part() {
    let parts: Vec<Cow<str>> = "".split_non_escaped_sanitize('\\', ':').unwrap().parts();
    assert_eq!(parts, [""]);
}

#[test]
fn parse_front_method() {
    let result: Result<(i8, &str), _> = "-128 Look mom, no error!".parse_front();
    assert_eq!(result, Ok((-128, " Look mom, no error!")));
}

#[test]
fn parse_back_method() {
    let result: Result<(u8, &str), _> = "Look mom, no error! 128".parse_back();
    assert_eq!(result, Ok((128, "Look mom, no error! ")));
}

#[test]
fn bool_front() {
    assert_eq!(bool::from_str_front("true;"), Ok((true, ";")));
    assert_eq!(bool::from_str_front("false"), Ok((false, "")));
    assert_eq!(bool::from_str_front("tru"), Err(ParseBoolError));
}

#[test]
fn bool_back() {
    assert_eq!(bool::from_str_back(";true"), Ok((true, ";")));
    assert_eq!(bool::from_str_back("false"), Ok((false, "")));
    assert_eq!(bool::from_str_back("rue"), Err(ParseBoolError));
}

#[test]
fn yield_front_consumes() {
    let mut input = "1-2+3-4";
    assert_eq!(u8::yield_front(&mut input), Ok(1));
    assert_eq!(i8::yield_front(&mut input), Ok(-2));
    assert_eq!(u8::yield_front(&mut input), Ok(3));
    assert_eq!(i8::yield_front(&mut input), Ok(-4));
    assert_eq!(input, "");
}

#[test]
fn yield_back_consumes() {
    let mut input = "-4+3-2+1";
    assert_eq!(u8::yield_back(&mut input), Ok(1));
    assert_eq!(i8::yield_back(&mut input), Ok(-2));
    assert_eq!(u8::yield_back(&mut input), Ok(3));
    assert_eq!(i8::yield_back(&mut input), Ok(-4));
    assert_eq!(input, "");
}

#[test]
fn literal_front() {
    let mut input = "prefix rest";
    assert!(yield_literal_front(&mut input, "prefix"));
    assert_eq!(input, " rest");
    assert!(!yield_literal_front(&mut input, "prefix"));
    assert_eq!(input, " rest");
}

#[test]
fn literal_back() {
    let mut input = "rest suffix";
    assert!(yield_literal_back(&mut input, "suffix"));
    assert_eq!(input, "rest ");
    assert!(!yield_literal_back(&mut input, "suffix"));
    assert_eq!(input, "rest ");
}

#[test]
fn sorted_rejects_unsorted() {
    assert!(matches!(
        Sorted::new(['a', 'c', 'b']),
        Err(SortedError::NotSorted)
    ));
    assert!(Sorted::new(['a', 'b', 'c']).is_ok());
    assert_eq!(
        Sorted::new(['a', 'b', 'c']).unwrap().as_array_ref(),
        &['a', 'b', 'c']
    );
}

#[test]
fn sorted_slice_rejects_unsorted() {
    assert!(matches!(
        SortedSlice::new(&['a', 'c', 'b']),
        Err(SortedError::NotSorted)
    ));
    assert_eq!(
        SortedSlice::new(&['a', 'b', 'c']).unwrap().as_slice(),
        &['a', 'b', 'c']
    );
}

#[test]
fn sorted_new_sorted() {
    let sorted: Sorted<char, 3> = Sorted::new_sorted(['a', 'c', 'b']);
    assert_eq!(sorted.as_array_ref(), &['a', 'b', 'c']);
}

#[test]
fn sorted_as_sorted_slice() {
    let sorted: Sorted<char, 3> = Sorted::new(['a', 'b', 'c']).unwrap();
    assert_eq!(sorted.as_sorted_slice().as_slice(), &['a', 'b', 'c']);
}
