use std::borrow::Cow;

use strtools::escape::charset;
use strtools::util::SortedSlice;

#[test]
fn quotes() {
    assert_eq!(
        charset("injection!'", '\\', &SortedSlice::new(&['\'']).unwrap()),
        r"injection!\'"
    );
}

#[test]
fn escape() {
    // if only the charset were escaped then this would create `... \\' ...`,
    // and whatever interprets `\\` as `\` would see the `'` unescaped again
    assert_eq!(
        charset(r"bypass escaping\'", '\\', &SortedSlice::new(&['\'']).unwrap()),
        r"bypass escaping\\\'"
    );
}

#[test]
fn charset_multiple_members() {
    let set = ['a', 'e'];
    assert_eq!(
        charset("abcdefg", '\\', &SortedSlice::new(&set).unwrap()),
        r"\abcd\efg"
    );
}

#[test]
fn charset_no_op_borrows() {
    let set = ['\''];
    let result = charset("nothing to do here", '\\', &SortedSlice::new(&set).unwrap());
    assert_eq!(result, "nothing to do here");
    assert!(matches!(result, Cow::Borrowed(_)));
}

#[test]
fn charset_match_is_owned() {
    let set = ['\''];
    let result = charset("don't", '\\', &SortedSlice::new(&set).unwrap());
    assert_eq!(result, r"don\'t");
    assert!(matches!(result, Cow::Owned(_)));
}
