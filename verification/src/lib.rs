//! Escape-aware text scanning: delimiter splitting that respects an escape
//! character (with and without sanitization), a longest-unique-substring
//! scan, a charset escaper, and partial parsing helpers, all specified over
//! character sequences and verified.

use vstd::prelude::*;

pub mod escape;
pub mod find;
pub mod parse;
pub mod scan;
pub mod split;
pub mod util;

use crate::parse::{FromStrBack, FromStrFront};
use crate::scan::{split_sanitized, split_unsanitized};
use crate::split::{NonEscaped, NonEscapedError, NonEscapedSanitize};
use crate::util::Sorted;

verus! {

/// Seals [`StrTools`] to the str type.
pub trait Sealed {}

impl Sealed for str {}

/// The main trait of this crate: extension methods on str for escape-aware
/// splitting and partial parsing.
pub trait StrTools: Sealed + View<V = Seq<char>> {
    /// Splits by `delim` unless it is preceded by an unescaped `esc`, and
    /// removes escapes before significant chars (the delimiter and the
    /// escape itself); a trailing escape is kept as an ordinary char.
    fn split_non_escaped_sanitize<'s>(&'s self, esc: char, delim: char) -> (r: Result<
        NonEscapedSanitize<'s, 1>,
        NonEscapedError,
    >)
        ensures
            match r {
                Ok(it) => esc != delim && it.wf() && it.segments() == split_sanitized(
                    self@,
                    esc,
                    seq![delim],
                ),
                Err(e) => esc == delim && e == NonEscapedError::EscapeContainsDelimiter(esc),
            },
    ;

    /// Splits by `delim` unless it is preceded by an unescaped `esc`; the
    /// parts are verbatim subslices, escapes included.
    fn split_non_escaped<'s>(&'s self, esc: char, delim: char) -> (r: Result<
        NonEscaped<'s, 1>,
        NonEscapedError,
    >)
        ensures
            match r {
                Ok(it) => esc != delim && it.wf() && it.segments() == split_unsanitized(
                    self@,
                    esc,
                    seq![delim],
                ),
                Err(e) => esc == delim && e == NonEscapedError::EscapeContainsDelimiter(esc),
            },
    ;

    /// Attempts to parse `T` from the beginning of the str, returning the
    /// value and the rest of the input on success.
    fn parse_front<'s, T: FromStrFront>(&'s self) -> (r: Result<(T, &'s str), T::Error>)
        ensures
            match (r, T::front_spec(self@)) {
                (Ok(p), Ok(q)) => p.0 == q.0 && p.1@ == q.1,
                (Err(e), Err(f)) => e == f,
                _ => false,
            },
    ;

    /// Attempts to parse `T` from the end of the str, returning the value
    /// and the rest of the input on success.
    fn parse_back<'s, T: FromStrBack>(&'s self) -> (r: Result<(T, &'s str), T::Error>)
        ensures
            match (r, T::back_spec(self@)) {
                (Ok(p), Ok(q)) => p.0 == q.0 && p.1@ == q.1,
                (Err(e), Err(f)) => e == f,
                _ => false,
            },
    ;
}

impl StrTools for str {
    fn split_non_escaped_sanitize<'s>(&'s self, esc: char, delim: char) -> (r: Result<
        NonEscapedSanitize<'s, 1>,
        NonEscapedError,
    >) {
        let delims = match Sorted::new([delim]) {
            Ok(d) => d,
            Err(_) => {
                proof {
                    assert(false);
                }
                return Err(NonEscapedError::EscapeContainsDelimiter(esc));
            },
        };
        proof {
            assert(delims@ =~= seq![delim]);
            assert(delims@.contains(esc) <==> esc == delim);
        }
        crate::split::non_escaped_sanitize(self, esc, delims)
    }

    fn split_non_escaped<'s>(&'s self, esc: char, delim: char) -> (r: Result<
        NonEscaped<'s, 1>,
        NonEscapedError,
    >) {
        let delims = match Sorted::new([delim]) {
            Ok(d) => d,
            Err(_) => {
                proof {
                    assert(false);
                }
                return Err(NonEscapedError::EscapeContainsDelimiter(esc));
            },
        };
        proof {
            assert(delims@ =~= seq![delim]);
            assert(delims@.contains(esc) <==> esc == delim);
        }
        crate::split::non_escaped(self, esc, delims)
    }

    fn parse_front<'s, T: FromStrFront>(&'s self) -> (r: Result<(T, &'s str), T::Error>) {
        T::from_str_front(self)
    }

    fn parse_back<'s, T: FromStrBack>(&'s self) -> (r: Result<(T, &'s str), T::Error>) {
        T::from_str_back(self)
    }
}

} // verus!
