use vstd::prelude::*;

use crate::parse::num::{
    parse_back_mag, parse_back_spec, parse_front_mag, parse_front_spec, ParseIntPartialError,
};
use crate::parse::{FromStrBack, FromStrFront};

verus! {

impl FromStrFront for u8 {
    type Error = ParseIntPartialError;

    open spec fn front_spec(s: Seq<char>) -> Result<(u8, Seq<char>), ParseIntPartialError> {
        match parse_front_spec(s, 10, false, u8::MAX as int, 0) {
            Ok((v, used)) => Ok((v as u8, s.skip(used))),
            Err(e) => Err(e),
        }
    }

    fn from_str_front(input: &str) -> (r: Result<(u8, &str), ParseIntPartialError>) {
        match parse_front_mag(input, 10, false, u8::MAX as u128, 0) {
            Ok((mag, neg, used)) => {
                let n = input.unicode_len();
                let rest = input.substring_char(used, n);
                proof {
                    assert(rest@ =~= input@.skip(used as int));
                }
                let v: u8 = mag as u8;
                Ok((v, rest))
            },
            Err(e) => Err(e),
        }
    }
}

impl FromStrBack for u8 {
    type Error = ParseIntPartialError;

    open spec fn back_spec(s: Seq<char>) -> Result<(u8, Seq<char>), ParseIntPartialError> {
        match parse_back_spec(s, 10, false, u8::MAX as int, 0) {
            Ok((v, used)) => Ok((v as u8, s.take(s.len() - used))),
            Err(e) => Err(e),
        }
    }

    fn from_str_back(input: &str) -> (r: Result<(u8, &str), ParseIntPartialError>) {
        match parse_back_mag(input, 10, false, u8::MAX as u128, 0) {
            Ok((mag, neg, used)) => {
                let n = input.unicode_len();
                let rest = input.substring_char(0, n - used);
                proof {
                    assert(rest@ =~= input@.take(n - used as int));
                }
                let v: u8 = mag as u8;
                Ok((v, rest))
            },
            Err(e) => Err(e),
        }
    }
}

impl FromStrFront for u16 {
    type Error = ParseIntPartialError;

    open spec fn front_spec(s: Seq<char>) -> Result<(u16, Seq<char>), ParseIntPartialError> {
        match parse_front_spec(s, 10, false, u16::MAX as int, 0) {
            Ok((v, used)) => Ok((v as u16, s.skip(used))),
            Err(e) => Err(e),
        }
    }

    fn from_str_front(input: &str) -> (r: Result<(u16, &str), ParseIntPartialError>) {
        match parse_front_mag(input, 10, false, u16::MAX as u128, 0) {
            Ok((mag, neg, used)) => {
                let n = input.unicode_len();
                let rest = input.substring_char(used, n);
                proof {
                    assert(rest@ =~= input@.skip(used as int));
                }
                let v: u16 = mag as u16;
                Ok((v, rest))
            },
            Err(e) => Err(e),
        }
    }
}

impl FromStrBack for u16 {
    type Error = ParseIntPartialError;

    open spec fn back_spec(s: Seq<char>) -> Result<(u16, Seq<char>), ParseIntPartialError> {
        match parse_back_spec(s, 10, false, u16::MAX as int, 0) {
            Ok((v, used)) => Ok((v as u16, s.take(s.len() - used))),
            Err(e) => Err(e),
        }
    }

    fn from_str_back(input: &str) -> (r: Result<(u16, &str), ParseIntPartialError>) {
        match parse_back_mag(input, 10, false, u16::MAX as u128, 0) {
            Ok((mag, neg, used)) => {
                let n = input.unicode_len();
                let rest = input.substring_char(0, n - used);
                proof {
                    assert(rest@ =~= input@.take(n - used as int));
                }
                let v: u16 = mag as u16;
                Ok((v, rest))
            },
            Err(e) => Err(e),
        }
    }
}

impl FromStrFront for u32 {
    type Error = ParseIntPartialError;

    open spec fn front_spec(s: Seq<char>) -> Result<(u32, Seq<char>), ParseIntPartialError> {
        match parse_front_spec(s, 10, false, u32::MAX as int, 0) {
            Ok((v, used)) => Ok((v as u32, s.skip(used))),
            Err(e) => Err(e),
        }
    }

    fn from_str_front(input: &str) -> (r: Result<(u32, &str), ParseIntPartialError>) {
        match parse_front_mag(input, 10, false, u32::MAX as u128, 0) {
            Ok((mag, neg, used)) => {
                let n = input.unicode_len();
                let rest = input.substring_char(used, n);
                proof {
                    assert(rest@ =~= input@.skip(used as int));
                }
                let v: u32 = mag as u32;
                Ok((v, rest))
            },
            Err(e) => Err(e),
        }
    }
}

impl FromStrBack for u32 {
    type Error = ParseIntPartialError;

    open spec fn back_spec(s: Seq<char>) -> Result<(u32, Seq<char>), ParseIntPartialError> {
        match parse_back_spec(s, 10, false, u32::MAX as int, 0) {
            Ok((v, used)) => Ok((v as u32, s.take(s.len() - used))),
            Err(e) => Err(e),
        }
    }

    fn from_str_back(input: &str) -> (r: Result<(u32, &str), ParseIntPartialError>) {
        match parse_back_mag(input, 10, false, u32::MAX as u128, 0) {
            Ok((mag, neg, used)) => {
                let n = input.unicode_len();
                let rest = input.substring_char(0, n - used);
                proof {
                    assert(rest@ =~= input@.take(n - used as int));
                }
                let v: u32 = mag as u32;
                Ok((v, rest))
            },
            Err(e) => Err(e),
        }
    }
}

impl FromStrFront for u64 {
    type Error = ParseIntPartialError;

    open spec fn front_spec(s: Seq<char>) -> Result<(u64, Seq<char>), ParseIntPartialError> {
        match parse_front_spec(s, 10, false, u64::MAX as int, 0) {
            Ok((v, used)) => Ok((v as u64, s.skip(used))),
            Err(e) => Err(e),
        }
    }

    fn from_str_front(input: &str) -> (r: Result<(u64, &str), ParseIntPartialError>) {
        match parse_front_mag(input, 10, false, u64::MAX as u128, 0) {
            Ok((mag, neg, used)) => {
                let n = input.unicode_len();
                let rest = input.substring_char(used, n);
                proof {
                    assert(rest@ =~= input@.skip(used as int));
                }
                let v: u64 = mag as u64;
                Ok((v, rest))
            },
            Err(e) => Err(e),
        }
    }
}

impl FromStrBack for u64 {
    type Error = ParseIntPartialError;

    open spec fn back_spec(s: Seq<char>) -> Result<(u64, Seq<char>), ParseIntPartialError> {
        match parse_back_spec(s, 10, false, u64::MAX as int, 0) {
            Ok((v, used)) => Ok((v as u64, s.take(s.len() - used))),
            Err(e) => Err(e),
        }
    }

    fn from_str_back(input: &str) -> (r: Result<(u64, &str), ParseIntPartialError>) {
        match parse_back_mag(input, 10, false, u64::MAX as u128, 0) {
            Ok((mag, neg, used)) => {
                let n = input.unicode_len();
                let rest = input.substring_char(0, n - used);
                proof {
                    assert(rest@ =~= input@.take(n - used as int));
                }
                let v: u64 = mag as u64;
                Ok((v, rest))
            },
            Err(e) => Err(e),
        }
    }
}

impl FromStrFront for u128 {
    type Error = ParseIntPartialError;

    open spec fn front_spec(s: Seq<char>) -> Result<(u128, Seq<char>), ParseIntPartialError> {
        match parse_front_spec(s, 10, false, u128::MAX as int, 0) {
            Ok((v, used)) => Ok((v as u128, s.skip(used))),
            Err(e) => Err(e),
        }
    }

    fn from_str_front(input: &str) -> (r: Result<(u128, &str), ParseIntPartialError>) {
        match parse_front_mag(input, 10, false, u128::MAX as u128, 0) {
            Ok((mag, neg, used)) => {
                let n = input.unicode_len();
                let rest = input.substring_char(used, n);
                proof {
                    assert(rest@ =~= input@.skip(used as int));
                }
                let v: u128 = mag as u128;
                Ok((v, rest))
            },
            Err(e) => Err(e),
        }
    }
}

impl FromStrBack for u128 {
    type Error = ParseIntPartialError;

    open spec fn back_spec(s: Seq<char>) -> Result<(u128, Seq<char>), ParseIntPartialError> {
        match parse_back_spec(s, 10, false, u128::MAX as int, 0) {
            Ok((v, used)) => Ok((v as u128, s.take(s.len() - used))),
            Err(e) => Err(e),
        }
    }

    fn from_str_back(input: &str) -> (r: Result<(u128, &str), ParseIntPartialError>) {
        match parse_back_mag(input, 10, false, u128::MAX as u128, 0) {
            Ok((mag, neg, used)) => {
                let n = input.unicode_len();
                let rest = input.substring_char(0, n - used);
                proof {
                    assert(rest@ =~= input@.take(n - used as int));
                }
                let v: u128 = mag as u128;
                Ok((v, rest))
            },
            Err(e) => Err(e),
        }
    }
}

impl FromStrFront for usize {
    type Error = ParseIntPartialError;

    open spec fn front_spec(s: Seq<char>) -> Result<(usize, Seq<char>), ParseIntPartialError> {
        match parse_front_spec(s, 10, false, usize::MAX as int, 0) {
            Ok((v, used)) => Ok((v as usize, s.skip(used))),
            Err(e) => Err(e),
        }
    }

    fn from_str_front(input: &str) -> (r: Result<(usize, &str), ParseIntPartialError>) {
        match parse_front_mag(input, 10, false, usize::MAX as u128, 0) {
            Ok((mag, neg, used)) => {
                let n = input.unicode_len();
                let rest = input.substring_char(used, n);
                proof {
                    assert(rest@ =~= input@.skip(used as int));
                }
                let v: usize = mag as usize;
                Ok((v, rest))
            },
            Err(e) => Err(e),
        }
    }
}

impl FromStrBack for usize {
    type Error = ParseIntPartialError;

    open spec fn back_spec(s: Seq<char>) -> Result<(usize, Seq<char>), ParseIntPartialError> {
        match parse_back_spec(s, 10, false, usize::MAX as int, 0) {
            Ok((v, used)) => Ok((v as usize, s.take(s.len() - used))),
            Err(e) => Err(e),
        }
    }

    fn from_str_back(input: &str) -> (r: Result<(usize, &str), ParseIntPartialError>) {
        match parse_back_mag(input, 10, false, usize::MAX as u128, 0) {
            Ok((mag, neg, used)) => {
                let n = input.unicode_len();
                let rest = input.substring_char(0, n - used);
                proof {
                    assert(rest@ =~= input@.take(n - used as int));
                }
                let v: usize = mag as usize;
                Ok((v, rest))
            },
            Err(e) => Err(e),
        }
    }
}

impl FromStrFront for i8 {
    type Error = ParseIntPartialError;

    open spec fn front_spec(s: Seq<char>) -> Result<(i8, Seq<char>), ParseIntPartialError> {
        match parse_front_spec(s, 10, true, i8::MAX as int, -(i8::MIN as int)) {
            Ok((v, used)) => Ok((v as i8, s.skip(used))),
            Err(e) => Err(e),
        }
    }

    fn from_str_front(input: &str) -> (r: Result<(i8, &str), ParseIntPartialError>) {
        match parse_front_mag(input, 10, true, i8::MAX as u128, (i8::MAX as u128) + 1) {
            Ok((mag, neg, used)) => {
                let n = input.unicode_len();
                let rest = input.substring_char(used, n);
                proof {
                    assert(rest@ =~= input@.skip(used as int));
                }
                let v: i8 = if neg {
                    if mag == (i8::MAX as u128) + 1 {
                        i8::MIN
                    } else {
                        -(mag as i8)
                    }
                } else {
                    mag as i8
                };
                Ok((v, rest))
            },
            Err(e) => Err(e),
        }
    }
}

impl FromStrBack for i8 {
    type Error = ParseIntPartialError;

    open spec fn back_spec(s: Seq<char>) -> Result<(i8, Seq<char>), ParseIntPartialError> {
        match parse_back_spec(s, 10, true, i8::MAX as int, -(i8::MIN as int)) {
            Ok((v, used)) => Ok((v as i8, s.take(s.len() - used))),
            Err(e) => Err(e),
        }
    }

    fn from_str_back(input: &str) -> (r: Result<(i8, &str), ParseIntPartialError>) {
        match parse_back_mag(input, 10, true, i8::MAX as u128, (i8::MAX as u128) + 1) {
            Ok((mag, neg, used)) => {
                let n = input.unicode_len();
                let rest = input.substring_char(0, n - used);
                proof {
                    assert(rest@ =~= input@.take(n - used as int));
                }
                let v: i8 = if neg {
                    if mag == (i8::MAX as u128) + 1 {
                        i8::MIN
                    } else {
                        -(mag as i8)
                    }
                } else {
                    mag as i8
                };
                Ok((v, rest))
            },
            Err(e) => Err(e),
        }
    }
}

impl FromStrFront for i16 {
    type Error = ParseIntPartialError;

    open spec fn front_spec(s: Seq<char>) -> Result<(i16, Seq<char>), ParseIntPartialError> {
        match parse_front_spec(s, 10, true, i16::MAX as int, -(i16::MIN as int)) {
            Ok((v, used)) => Ok((v as i16, s.skip(used))),
            Err(e) => Err(e),
        }
    }

    fn from_str_front(input: &str) -> (r: Result<(i16, &str), ParseIntPartialError>) {
        match parse_front_mag(input, 10, true, i16::MAX as u128, (i16::MAX as u128) + 1) {
            Ok((mag, neg, used)) => {
                let n = input.unicode_len();
                let rest = input.substring_char(used, n);
                proof {
                    assert(rest@ =~= input@.skip(used as int));
                }
                let v: i16 = if neg {
                    if mag == (i16::MAX as u128) + 1 {
                        i16::MIN
                    } else {
                        -(mag as i16)
                    }
                } else {
                    mag as i16
                };
                Ok((v, rest))
            },
            Err(e) => Err(e),
        }
    }
}

impl FromStrBack for i16 {
    type Error = ParseIntPartialError;

    open spec fn back_spec(s: Seq<char>) -> Result<(i16, Seq<char>), ParseIntPartialError> {
        match parse_back_spec(s, 10, true, i16::MAX as int, -(i16::MIN as int)) {
            Ok((v, used)) => Ok((v as i16, s.take(s.len() - used))),
            Err(e) => Err(e),
        }
    }

    fn from_str_back(input: &str) -> (r: Result<(i16, &str), ParseIntPartialError>) {
        match parse_back_mag(input, 10, true, i16::MAX as u128, (i16::MAX as u128) + 1) {
            Ok((mag, neg, used)) => {
                let n = input.unicode_len();
                let rest = input.substring_char(0, n - used);
                proof {
                    assert(rest@ =~= input@.take(n - used as int));
                }
                let v: i16 = if neg {
                    if mag == (i16::MAX as u128) + 1 {
                        i16::MIN
                    } else {
                        -(mag as i16)
                    }
                } else {
                    mag as i16
                };
                Ok((v, rest))
            },
            Err(e) => Err(e),
        }
    }
}

impl FromStrFront for i32 {
    type Error = ParseIntPartialError;

    open spec fn front_spec(s: Seq<char>) -> Result<(i32, Seq<char>), ParseIntPartialError> {
        match parse_front_spec(s, 10, true, i32::MAX as int, -(i32::MIN as int)) {
            Ok((v, used)) => Ok((v as i32, s.skip(used))),
            Err(e) => Err(e),
        }
    }

    fn from_str_front(input: &str) -> (r: Result<(i32, &str), ParseIntPartialError>) {
        match parse_front_mag(input, 10, true, i32::MAX as u128, (i32::MAX as u128) + 1) {
            Ok((mag, neg, used)) => {
                let n = input.unicode_len();
                let rest = input.substring_char(used, n);
                proof {
                    assert(rest@ =~= input@.skip(used as int));
                }
                let v: i32 = if neg {
                    if mag == (i32::MAX as u128) + 1 {
                        i32::MIN
                    } else {
                        -(mag as i32)
                    }
                } else {
                    mag as i32
                };
                Ok((v, rest))
            },
            Err(e) => Err(e),
        }
    }
}

impl FromStrBack for i32 {
    type Error = ParseIntPartialError;

    open spec fn back_spec(s: Seq<char>) -> Result<(i32, Seq<char>), ParseIntPartialError> {
        match parse_back_spec(s, 10, true, i32::MAX as int, -(i32::MIN as int)) {
            Ok((v, used)) => Ok((v as i32, s.take(s.len() - used))),
            Err(e) => Err(e),
        }
    }

    fn from_str_back(input: &str) -> (r: Result<(i32, &str), ParseIntPartialError>) {
        match parse_back_mag(input, 10, true, i32::MAX as u128, (i32::MAX as u128) + 1) {
            Ok((mag, neg, used)) => {
                let n = input.unicode_len();
                let rest = input.substring_char(0, n - used);
                proof {
                    assert(rest@ =~= input@.take(n - used as int));
                }
                let v: i32 = if neg {
                    if mag == (i32::MAX as u128) + 1 {
                        i32::MIN
                    } else {
                        -(mag as i32)
                    }
                } else {
                    mag as i32
                };
                Ok((v, rest))
            },
            Err(e) => Err(e),
        }
    }
}

impl FromStrFront for i64 {
    type Error = ParseIntPartialError;

    open spec fn front_spec(s: Seq<char>) -> Result<(i64, Seq<char>), ParseIntPartialError> {
        match parse_front_spec(s, 10, true, i64::MAX as int, -(i64::MIN as int)) {
            Ok((v, used)) => Ok((v as i64, s.skip(used))),
            Err(e) => Err(e),
        }
    }

    fn from_str_front(input: &str) -> (r: Result<(i64, &str), ParseIntPartialError>) {
        match parse_front_mag(input, 10, true, i64::MAX as u128, (i64::MAX as u128) + 1) {
            Ok((mag, neg, used)) => {
                let n = input.unicode_len();
                let rest = input.substring_char(used, n);
                proof {
                    assert(rest@ =~= input@.skip(used as int));
                }
                let v: i64 = if neg {
                    if mag == (i64::MAX as u128) + 1 {
                        i64::MIN
                    } else {
                        -(mag as i64)
                    }
                } else {
                    mag as i64
                };
                Ok((v, rest))
            },
            Err(e) => Err(e),
        }
    }
}

impl FromStrBack for i64 {
    type Error = ParseIntPartialError;

    open spec fn back_spec(s: Seq<char>) -> Result<(i64, Seq<char>), ParseIntPartialError> {
        match parse_back_spec(s, 10, true, i64::MAX as int, -(i64::MIN as int)) {
            Ok((v, used)) => Ok((v as i64, s.take(s.len() - used))),
            Err(e) => Err(e),
        }
    }

    fn from_str_back(input: &str) -> (r: Result<(i64, &str), ParseIntPartialError>) {
        match parse_back_mag(input, 10, true, i64::MAX as u128, (i64::MAX as u128) + 1) {
            Ok((mag, neg, used)) => {
                let n = input.unicode_len();
                let rest = input.substring_char(0, n - used);
                proof {
                    assert(rest@ =~= input@.take(n - used as int));
                }
                let v: i64 = if neg {
                    if mag == (i64::MAX as u128) + 1 {
                        i64::MIN
                    } else {
                        -(mag as i64)
                    }
                } else {
                    mag as i64
                };
                Ok((v, rest))
            },
            Err(e) => Err(e),
        }
    }
}

impl FromStrFront for i128 {
    type Error = ParseIntPartialError;

    open spec fn front_spec(s: Seq<char>) -> Result<(i128, Seq<char>), ParseIntPartialError> {
        match parse_front_spec(s, 10, true, i128::MAX as int, -(i128::MIN as int)) {
            Ok((v, used)) => Ok((v as i128, s.skip(used))),
            Err(e) => Err(e),
        }
    }

    fn from_str_front(input: &str) -> (r: Result<(i128, &str), ParseIntPartialError>) {
        match parse_front_mag(input, 10, true, i128::MAX as u128, (i128::MAX as u128) + 1) {
            Ok((mag, neg, used)) => {
                let n = input.unicode_len();
                let rest = input.substring_char(used, n);
                proof {
                    assert(rest@ =~= input@.skip(used as int));
                }
                let v: i128 = if neg {
                    if mag == (i128::MAX as u128) + 1 {
                        i128::MIN
                    } else {
                        -(mag as i128)
                    }
                } else {
                    mag as i128
                };
                Ok((v, rest))
            },
            Err(e) => Err(e),
        }
    }
}

impl FromStrBack for i128 {
    type Error = ParseIntPartialError;

    open spec fn back_spec(s: Seq<char>) -> Result<(i128, Seq<char>), ParseIntPartialError> {
        match parse_back_spec(s, 10, true, i128::MAX as int, -(i128::MIN as int)) {
            Ok((v, used)) => Ok((v as i128, s.take(s.len() - used))),
            Err(e) => Err(e),
        }
    }

    fn from_str_back(input: &str) -> (r: Result<(i128, &str), ParseIntPartialError>) {
        match parse_back_mag(input, 10, true, i128::MAX as u128, (i128::MAX as u128) + 1) {
            Ok((mag, neg, used)) => {
                let n = input.unicode_len();
                let rest = input.substring_char(0, n - used);
                proof {
                    assert(rest@ =~= input@.take(n - used as int));
                }
                let v: i128 = if neg {
                    if mag == (i128::MAX as u128) + 1 {
                        i128::MIN
                    } else {
                        -(mag as i128)
                    }
                } else {
                    mag as i128
                };
                Ok((v, rest))
            },
            Err(e) => Err(e),
        }
    }
}

impl FromStrFront for isize {
    type Error = ParseIntPartialError;

    open spec fn front_spec(s: Seq<char>) -> Result<(isize, Seq<char>), ParseIntPartialError> {
        match parse_front_spec(s, 10, true, isize::MAX as int, -(isize::MIN as int)) {
            Ok((v, used)) => Ok((v as isize, s.skip(used))),
            Err(e) => Err(e),
        }
    }

    fn from_str_front(input: &str) -> (r: Result<(isize, &str), ParseIntPartialError>) {
        match parse_front_mag(input, 10, true, isize::MAX as u128, (isize::MAX as u128) + 1) {
            Ok((mag, neg, used)) => {
                let n = input.unicode_len();
                let rest = input.substring_char(used, n);
                proof {
                    assert(rest@ =~= input@.skip(used as int));
                }
                let v: isize = if neg {
                    if mag == (isize::MAX as u128) + 1 {
                        isize::MIN
                    } else {
                        -(mag as isize)
                    }
                } else {
                    mag as isize
                };
                Ok((v, rest))
            },
            Err(e) => Err(e),
        }
    }
}

impl FromStrBack for isize {
    type Error = ParseIntPartialError;

    open spec fn back_spec(s: Seq<char>) -> Result<(isize, Seq<char>), ParseIntPartialError> {
        match parse_back_spec(s, 10, true, isize::MAX as int, -(isize::MIN as int)) {
            Ok((v, used)) => Ok((v as isize, s.take(s.len() - used))),
            Err(e) => Err(e),
        }
    }

    fn from_str_back(input: &str) -> (r: Result<(isize, &str), ParseIntPartialError>) {
        match parse_back_mag(input, 10, true, isize::MAX as u128, (isize::MAX as u128) + 1) {
            Ok((mag, neg, used)) => {
                let n = input.unicode_len();
                let rest = input.substring_char(0, n - used);
                proof {
                    assert(rest@ =~= input@.take(n - used as int));
                }
                let v: isize = if neg {
                    if mag == (isize::MAX as u128) + 1 {
                        isize::MIN
                    } else {
                        -(mag as isize)
                    }
                } else {
                    mag as isize
                };
                Ok((v, rest))
            },
            Err(e) => Err(e),
        }
    }
}

} // verus!
