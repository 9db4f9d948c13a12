use strtools::parse::{FromStrPartialRadixExt, ParseIntPartialError};

#[test]
fn invalid_prefix() {
    assert_eq!(
        u8::from_str_radix_front("!!!", 10),
        Err(ParseIntPartialError::Insufficient)
    );
    assert_eq!(
        i8::from_str_radix_front("-!!!", 10),
        Err(ParseIntPartialError::Insufficient)
    );
}

#[test]
fn valid() {
    assert_eq!(u8::from_str_radix_front("255", 10), Ok((255, "")));
    assert_eq!(u8::from_str_radix_front("255!!!", 10), Ok((255, "!!!")));
    assert_eq!(i8::from_str_radix_front("-128", 10), Ok((-128, "")));
    assert_eq!(i8::from_str_radix_front("127!!!", 10), Ok((127, "!!!")));
}

#[test]
fn over_under_flow() {
    assert_eq!(
        u8::from_str_radix_front("2550", 10),
        Err(ParseIntPartialError::Overflow)
    );
    assert_eq!(
        u8::from_str_radix_front("256", 10),
        Err(ParseIntPartialError::Overflow)
    );
    assert_eq!(
        i8::from_str_radix_front("-129", 10),
        Err(ParseIntPartialError::Underflow)
    );
    assert_eq!(
        i8::from_str_radix_front("128", 10),
        Err(ParseIntPartialError::Overflow)
    );
}

#[test]
fn invalid_suffix() {
    assert_eq!(
        u8::from_str_radix_back("!!!", 10),
        Err(ParseIntPartialError::Insufficient)
    );
    assert_eq!(
        i8::from_str_radix_back("!!!-", 10),
        Err(ParseIntPartialError::Insufficient)
    );
}

#[test]
fn num_valid() {
    assert_eq!(u8::from_str_radix_back("255", 10), Ok((255, "")));
    assert_eq!(u8::from_str_radix_back("!!!255", 10), Ok((255, "!!!")));
    assert_eq!(i8::from_str_radix_back("-128", 10), Ok((-128, "")));
    assert_eq!(i8::from_str_radix_back("!!!127", 10), Ok((127, "!!!")));
}

#[test]
fn num_over_under_flow() {
    assert_eq!(
        u8::from_str_radix_back("2550", 10),
        Err(ParseIntPartialError::Overflow)
    );
    assert_eq!(
        u8::from_str_radix_back("256", 10),
        Err(ParseIntPartialError::Overflow)
    );
    assert_eq!(
        i8::from_str_radix_back("-129", 10),
        Err(ParseIntPartialError::Underflow)
    );
    assert_eq!(
        i8::from_str_radix_back("128", 10),
        Err(ParseIntPartialError::Overflow)
    );
}

#[test]
fn radix_front_hex() {
    assert_eq!(u16::from_str_radix_front("ffG", 16), Ok((255, "G")));
    assert_eq!(i16::from_str_radix_front("-FF!", 16), Ok((-255, "!")));
}

#[test]
fn radix_back_hex() {
    assert_eq!(u16::from_str_radix_back("Gff", 16), Ok((255, "G")));
    assert_eq!(i16::from_str_radix_back("!-FF", 16), Ok((-255, "!")));
}

#[test]
fn front_plus_sign() {
    assert_eq!(u8::from_str_radix_front("+17;", 10), Ok((17, ";")));
    assert_eq!(
        u8::from_str_radix_front("-17", 10),
        Err(ParseIntPartialError::Insufficient)
    );
}

#[test]
fn back_leading_zeros_overflow() {
    // enough leading zeros overflow the positional factor even though the
    // value itself is small
    assert_eq!(
        u8::from_str_radix_back("0005", 10),
        Err(ParseIntPartialError::Overflow)
    );
}
