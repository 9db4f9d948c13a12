use std::borrow::Cow;

use strtools::split::multi;

fn parts<'s>(input: &'s str, delims: &[char]) -> Vec<Cow<'s, str>> {
    multi::non_escaped(input, '\\', delims)
        .expect("delim and escape are not the same")
        .parts()
}

#[test]
fn split_empty() {
    multi::non_escaped("", '\\', &[':']).expect("delim and escape are not the same");
}

#[test]
fn split_delim_is_escape() {
    assert!(multi::non_escaped("", '\\', &['\\']).is_err());
}

#[test]
fn split_no_escape() {
    assert_eq!(parts(r"aaaaa:bbbbb", &[':']), ["aaaaa", "bbbbb"]);
}

#[test]
fn split_multiple() {
    assert_eq!(parts(r"aaaaa/bbb:bb", &['/', ':']), ["aaaaa", "bbb", "bb"]);
    assert_eq!(parts(r"aaaaa/bbb\:bb", &['/', ':']), ["aaaaa", "bbb:bb"]);
    assert_eq!(parts(r"aaaaa\/bbb\:bb", &['/', ':']), ["aaaaa/bbb:bb"]);
}

#[test]
fn split_single_escape() {
    assert_eq!(parts(r"aa\:aa:bbbb", &[':']), ["aa:aa", "bbbb"]);
    assert_eq!(parts(r"\:aaaa:bbbb", &[':']), [":aaaa", "bbbb"]);
    assert_eq!(parts(r"aaaa\::bbbb", &[':']), ["aaaa:", "bbbb"]);
    assert_eq!(parts(r"aaaa:bb\:bb", &[':']), ["aaaa", "bb:bb"]);
    assert_eq!(parts(r"aaaa:\:bbbb", &[':']), ["aaaa", ":bbbb"]);
    assert_eq!(parts(r"aaaa:bbbb\:", &[':']), ["aaaa", "bbbb:"]);
}

#[test]
fn split_double_escapes() {
    assert_eq!(parts(r"aaaa\\:bbbb", &[':']), [r"aaaa\", "bbbb"]);
    assert_eq!(parts(r"aaaa\\\:bbbb", &[':']), [r"aaaa\:bbbb"]);
    assert_eq!(parts(r"aaaa\\\\:bbbb", &[':']), [r"aaaa\\", "bbbb"]);
    assert_eq!(parts(r"aaaa\\\\\:bbbb", &[':']), [r"aaaa\\:bbbb"]);
}

#[test]
fn split_ignore_other_escapes() {
    assert_eq!(parts(r"aa\.aa:bbbbb", &[':']), [r"aa\.aa", "bbbbb"]);
    assert_eq!(parts(r"\.aaaa:bbbbb", &[':']), [r"\.aaaa", "bbbbb"]);
    assert_eq!(parts(r"aaaa\.:bbbbb", &[':']), [r"aaaa\.", "bbbbb"]);
    assert_eq!(parts(r"aaaa:\.bbbbb", &[':']), ["aaaa", r"\.bbbbb"]);
    assert_eq!(parts(r"aaaa:bbbbb\.", &[':']), ["aaaa", r"bbbbb\."]);
}

#[test]
fn split_copy_on_sanitize() {
    // only copy when sanitizing an escape
    let res = parts(r"a\:aa:bbb:cc\.c:ddd", &[':']);

    // owned
    assert_eq!(res[0], "a:aa");
    assert!(matches!(res[0], Cow::Owned(_)));

    // borrowed
    assert_eq!(res[1], "bbb");
    assert!(matches!(res[1], Cow::Borrowed(_)));

    // owned
    assert_eq!(res[2], r"cc\.c");
    assert!(matches!(res[2], Cow::Owned(_)));

    // borrowed
    assert_eq!(res[3], "ddd");
    assert!(matches!(res[3], Cow::Borrowed(_)));
}

#[test]
fn split_trailing_ignored_escape() {
    // the trailing escape must not swallow the last char
    assert_eq!(parts(r"test\d", &['/']), [r"test\d"]);
}

#[test]
fn split_escaped() {
    // the escape must be removed before the delimiter
    assert_eq!(parts(r"^b\/(.*)$/d\/$1", &['/']), [r"^b/(.*)$", "d/$1"]);
}

#[test]
fn split_ignored_escape_offset() {
    // multiple subsequent to-be-ignored escape sequences must not shift the
    // split or drop chars
    assert_eq!(
        parts(r".*s(\d\d)e(\d\d[a-d])/S$1E$2", &['/']),
        [r".*s(\d\d)e(\d\d[a-d])", "S$1E$2"]
    );
}
