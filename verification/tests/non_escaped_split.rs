use std::borrow::Cow;

use strtools::split::{non_escaped, non_escaped_sanitize, NonEscapedError};
use strtools::util::Sorted;

fn san_parts<'s, const N: usize>(input: &'s str, delims: [char; N]) -> Vec<Cow<'s, str>> {
    non_escaped_sanitize(input, '\\', Sorted::new(delims).unwrap())
        .expect("delim and escape are not the same")
        .parts()
}

fn raw_parts<'s, const N: usize>(input: &'s str, delims: [char; N]) -> Vec<&'s str> {
    non_escaped(input, '\\', Sorted::new(delims).unwrap())
        .expect("delim and escape are not the same")
        .parts()
}

#[test]
fn sanitized_empty() {
    assert!(non_escaped_sanitize("", '\\', Sorted::new([':']).unwrap()).is_ok());
}

#[test]
fn sanitized_delim_is_escape() {
    assert_eq!(
        non_escaped_sanitize("", '\\', Sorted::new(['\\']).unwrap()).unwrap_err(),
        NonEscapedError::EscapeContainsDelimiter('\\')
    );
}

#[test]
fn sanitized_no_escape() {
    assert_eq!(san_parts(r"aaaaa:bbbbb", [':']), ["aaaaa", "bbbbb"]);
}

#[test]
fn sanitized_single_escape() {
    assert_eq!(san_parts(r"aa\:aa:bbbb", [':']), ["aa:aa", "bbbb"]);
    assert_eq!(san_parts(r"\:aaaa:bbbb", [':']), [":aaaa", "bbbb"]);
    assert_eq!(san_parts(r"aaaa\::bbbb", [':']), ["aaaa:", "bbbb"]);
    assert_eq!(san_parts(r"aaaa:bb\:bb", [':']), ["aaaa", "bb:bb"]);
    assert_eq!(san_parts(r"aaaa:\:bbbb", [':']), ["aaaa", ":bbbb"]);
    assert_eq!(san_parts(r"aaaa:bbbb\:", [':']), ["aaaa", "bbbb:"]);
}

#[test]
fn sanitized_double_escapes() {
    assert_eq!(san_parts(r"aaaa\\:bbbb", [':']), [r"aaaa\", "bbbb"]);
    assert_eq!(san_parts(r"aaaa\\\:bbbb", [':']), [r"aaaa\:bbbb"]);
    assert_eq!(san_parts(r"aaaa\\\\:bbbb", [':']), [r"aaaa\\", "bbbb"]);
    assert_eq!(san_parts(r"aaaa\\\\\:bbbb", [':']), [r"aaaa\\:bbbb"]);
}

#[test]
fn sanitized_ignore_other_escapes() {
    assert_eq!(san_parts(r"aa\.aa:bbbbb", [':']), [r"aa\.aa", "bbbbb"]);
    assert_eq!(san_parts(r"\.aaaa:bbbbb", [':']), [r"\.aaaa", "bbbbb"]);
    assert_eq!(san_parts(r"aaaa\.:bbbbb", [':']), [r"aaaa\.", "bbbbb"]);
    assert_eq!(san_parts(r"aaaa:\.bbbbb", [':']), ["aaaa", r"\.bbbbb"]);
    assert_eq!(san_parts(r"aaaa:bbbbb\.", [':']), ["aaaa", r"bbbbb\."]);
}

#[test]
fn sanitized_copy_on_sanitize() {
    // only copy when sanitizing an escape
    let res = san_parts(r"a\:aa:bbb:cc\.c:ddd", [':']);

    // owned
    assert_eq!(res[0], "a:aa");
    assert!(matches!(res[0], Cow::Owned(_)));

    // borrowed
    assert_eq!(res[1], "bbb");
    assert!(matches!(res[1], Cow::Borrowed(_)));

    // owned
    assert_eq!(res[2], r"cc\.c");
    assert!(matches!(res[2], Cow::Owned(_)));

    // borrowed
    assert_eq!(res[3], "ddd");
    assert!(matches!(res[3], Cow::Borrowed(_)));
}

#[test]
fn sanitized_trailing_ignored_escape() {
    // the trailing escape must not swallow the last char
    assert_eq!(san_parts(r"test\d", ['/']), [r"test\d"]);
}

#[test]
fn sanitized_escaped() {
    // the escape must be removed before the delimiter
    assert_eq!(san_parts(r"^b\/(.*)$/d\/$1", ['/']), [r"^b/(.*)$", "d/$1"]);
}

#[test]
fn sanitized_ignored_escape_offset() {
    // multiple subsequent to-be-ignored escape sequences must not shift the
    // split or drop chars
    assert_eq!(
        san_parts(r".*s(\d\d)e(\d\d[a-d])/S$1E$2", ['/']),
        [r".*s(\d\d)e(\d\d[a-d])", "S$1E$2"]
    );
}

#[test]
fn unsanitized_empty() {
    assert!(non_escaped("", '\\', Sorted::new([':']).unwrap()).is_ok());
}

#[test]
fn unsanitized_delim_is_escape() {
    assert_eq!(
        non_escaped("", '\\', Sorted::new(['\\']).unwrap()).unwrap_err(),
        NonEscapedError::EscapeContainsDelimiter('\\')
    );
}

#[test]
fn unsanitized_no_escape() {
    assert_eq!(raw_parts(r"aaaaa:bbbbb", [':']), ["aaaaa", "bbbbb"]);
}

#[test]
fn unsanitized_single_escape() {
    assert_eq!(raw_parts(r"aa\:aa:bbbb", [':']), [r"aa\:aa", "bbbb"]);
    assert_eq!(raw_parts(r"\:aaaa:bbbb", [':']), [r"\:aaaa", "bbbb"]);
    assert_eq!(raw_parts(r"aaaa\::bbbb", [':']), [r"aaaa\:", "bbbb"]);
    assert_eq!(raw_parts(r"aaaa:bb\:bb", [':']), ["aaaa", r"bb\:bb"]);
    assert_eq!(raw_parts(r"aaaa:\:bbbb", [':']), ["aaaa", r"\:bbbb"]);
    assert_eq!(raw_parts(r"aaaa:bbbb\:", [':']), ["aaaa", r"bbbb\:"]);
}

#[test]
fn unsanitized_double_escapes() {
    assert_eq!(raw_parts(r"aaaa\\:bbbb", [':']), [r"aaaa\\", "bbbb"]);
    assert_eq!(raw_parts(r"aaaa\\\:bbbb", [':']), [r"aaaa\\\:bbbb"]);
    assert_eq!(raw_parts(r"aaaa\\\\:bbbb", [':']), [r"aaaa\\\\", "bbbb"]);
    assert_eq!(raw_parts(r"aaaa\\\\\:bbbb", [':']), [r"aaaa\\\\\:bbbb"]);
}

#[test]
fn unsanitized_ignore_other_escapes() {
    assert_eq!(raw_parts(r"aa\.aa:bbbbb", [':']), [r"aa\.aa", "bbbbb"]);
    assert_eq!(raw_parts(r"\.aaaa:bbbbb", [':']), [r"\.aaaa", "bbbbb"]);
    assert_eq!(raw_parts(r"aaaa\.:bbbbb", [':']), [r"aaaa\.", "bbbbb"]);
    assert_eq!(raw_parts(r"aaaa:\.bbbbb", [':']), ["aaaa", r"\.bbbbb"]);
    assert_eq!(raw_parts(r"aaaa:bbbbb\.", [':']), ["aaaa", r"bbbbb\."]);
}

#[test]
fn round_trip_rejoin() {
    // splitting, rejoining with the delimiter, and splitting again yields
    // the same parts: delimiters inside parts are always escaped
    let input = r"a\:b:c\\:d\.e";
    let parts = raw_parts(input, [':']);
    let joined = parts.join(":");
    let again = raw_parts(&joined, [':']);
    assert_eq!(parts, again);
}

#[test]
fn concat_equals_input_without_delims() {
    let input = r"a\:b:c\\:d\.e";
    let parts = raw_parts(input, [':']);
    let concat: String = parts.concat();
    let stripped: String = r"a\:bc\\d\.e".to_string();
    assert_eq!(concat, stripped);
}
