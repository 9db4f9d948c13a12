use strtools::split::{char_boundary, char_boundary_unchecked, CharBoundaryError};

#[test]
fn char_boundary_empty() {
    assert_eq!(char_boundary("", 0), Err(CharBoundaryError::InputEmpty));
}

#[test]
fn out_of_range() {
    assert_eq!(
        char_boundary("a", 1),
        Err(CharBoundaryError::IndexOutOfRange(1, 1))
    );
}

#[test]
fn non_boundary() {
    assert_eq!(
        char_boundary("ö", 1),
        Err(CharBoundaryError::NotUTF8Boundary(1))
    );
}

#[test]
fn on_boundary() {
    assert_eq!(char_boundary("ö", 0), Ok(("", 'ö', "")));
    assert_eq!(char_boundary("öb", 0), Ok(("", 'ö', "b")));
    assert_eq!(char_boundary("aö", 1), Ok(("a", 'ö', "")));
    assert_eq!(char_boundary("aöb", 1), Ok(("a", 'ö', "b")));
}

#[test]
fn on_boundary_unchecked() {
    let (before, at, after) = char_boundary_unchecked("aöböc", 3);
    assert_eq!(("aö", 'b', "öc"), (before, at, after));
}
