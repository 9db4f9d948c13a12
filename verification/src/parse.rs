//! Parsing extensions: partial parsing that consumes as much of a str as it
//! can from the front or the back, instead of demanding that the whole input
//! be one value.

use vstd::prelude::*;

mod decimal;
pub mod num;
pub mod radix;

pub use num::ParseIntPartialError;
pub use radix::FromStrPartialRadixExt;

verus! {

/// Types that may try parsing from the beginning of a str, consuming the
/// longest valid prefix and handing back the rest. `front_spec` says, for
/// every input, what value and rest a successful parse yields, or which error
/// comes back.
pub trait FromStrFront: Sized {
    /// The error that is returned when parsing fails.
    type Error;

    /// What parsing the given input from the front yields.
    spec fn front_spec(s: Seq<char>) -> Result<(Self, Seq<char>), Self::Error>;

    /// Attempts to parse `Self` from the beginning of the str, returning the
    /// value and the rest of the input on success.
    fn from_str_front(input: &str) -> (r: Result<(Self, &str), Self::Error>)
        ensures
            match (r, Self::front_spec(input@)) {
                (Ok(p), Ok(q)) => p.0 == q.0 && p.1@ == q.1,
                (Err(e), Err(f)) => e == f,
                _ => false,
            },
    ;

    /// Removes the prefix of the given str in place if parsing succeeds, so
    /// that subsequent parsers do not consume the same text again.
    fn yield_front(input: &mut &str) -> (r: Result<Self, Self::Error>)
        ensures
            match Self::front_spec(old(input)@) {
                Ok(q) => r matches Ok(v) && v == q.0 && final(input)@ == q.1,
                Err(f) => (r matches Err(e) && e == f) && *final(input) == *old(input),
            },
    {
        match Self::from_str_front(*input) {
            Ok((value, rest)) => {
                *input = rest;
                Ok(value)
            },
            Err(e) => Err(e),
        }
    }
}

/// Types that may try parsing from the end of a str, consuming the longest
/// valid suffix and handing back the rest. `back_spec` says, for every input,
/// what value and rest a successful parse yields, or which error comes back.
pub trait FromStrBack: Sized {
    /// The error that is returned when parsing fails.
    type Error;

    /// What parsing the given input from the back yields.
    spec fn back_spec(s: Seq<char>) -> Result<(Self, Seq<char>), Self::Error>;

    /// Attempts to parse `Self` from the end of the str, returning the value
    /// and the rest of the input on success.
    fn from_str_back(input: &str) -> (r: Result<(Self, &str), Self::Error>)
        ensures
            match (r, Self::back_spec(input@)) {
                (Ok(p), Ok(q)) => p.0 == q.0 && p.1@ == q.1,
                (Err(e), Err(f)) => e == f,
                _ => false,
            },
    ;

    /// Removes the suffix of the given str in place if parsing succeeds, so
    /// that subsequent parsers do not consume the same text again.
    fn yield_back(input: &mut &str) -> (r: Result<Self, Self::Error>)
        ensures
            match Self::back_spec(old(input)@) {
                Ok(q) => r matches Ok(v) && v == q.0 && final(input)@ == q.1,
                Err(f) => (r matches Err(e) && e == f) && *final(input) == *old(input),
            },
    {
        match Self::from_str_back(*input) {
            Ok((value, rest)) => {
                *input = rest;
                Ok(value)
            },
            Err(e) => Err(e),
        }
    }
}

/// Whether `s` starts with `lit`, char for char.
pub(crate) fn match_prefix(s: &str, lit: &str) -> (r: bool)
    ensures
        r == (s@.len() >= lit@.len() && s@.take(lit@.len() as int) == lit@),
{
    let n = s.unicode_len();
    let m = lit.unicode_len();
    if n < m {
        return false;
    }
    let mut i: usize = 0;
    while i < m
        invariant
            0 <= i <= m,
            m <= n,
            n == s@.len(),
            m == lit@.len(),
            forall|j: int| 0 <= j < i ==> s@[j] == lit@[j],
        decreases m - i,
    {
        if s.get_char(i) != lit.get_char(i) {
            proof {
                assert(s@.take(m as int)[i as int] != lit@[i as int]);
            }
            return false;
        }
        i = i + 1;
    }
    proof {
        assert(s@.take(m as int) =~= lit@);
    }
    true
}

/// Whether `s` ends with `lit`, char for char.
pub(crate) fn match_suffix(s: &str, lit: &str) -> (r: bool)
    ensures
        r == (s@.len() >= lit@.len() && s@.skip(s@.len() - lit@.len()) == lit@),
{
    let n = s.unicode_len();
    let m = lit.unicode_len();
    if n < m {
        return false;
    }
    let mut i: usize = 0;
    while i < m
        invariant
            0 <= i <= m,
            m <= n,
            n == s@.len(),
            m == lit@.len(),
            forall|j: int| 0 <= j < i ==> s@[n - m + j] == lit@[j],
        decreases m - i,
    {
        if s.get_char(n - m + i) != lit.get_char(i) {
            proof {
                assert(s@.skip(n - m)[i as int] != lit@[i as int]);
            }
            return false;
        }
        i = i + 1;
    }
    proof {
        assert(s@.skip(n - m) =~= lit@);
    }
    true
}

/// Returns true if the given `literal` was yielded from the front of `input`,
/// which is then advanced past it.
pub fn yield_literal_front(input: &mut &str, literal: &str) -> (r: bool)
    ensures
        r == (old(input)@.len() >= literal@.len() && old(input)@.take(literal@.len() as int)
            == literal@),
        r ==> final(input)@ == old(input)@.skip(literal@.len() as int),
        !r ==> *final(input) == *old(input),
{
    let cur: &str = *input;
    if match_prefix(cur, literal) {
        let n = cur.unicode_len();
        let m = literal.unicode_len();
        *input = cur.substring_char(m, n);
        proof {
            assert(cur@.subrange(m as int, n as int) =~= cur@.skip(m as int));
        }
        true
    } else {
        false
    }
}

/// Returns true if the given `literal` was yielded from the back of `input`,
/// which is then cut short before it.
pub fn yield_literal_back(input: &mut &str, literal: &str) -> (r: bool)
    ensures
        r == (old(input)@.len() >= literal@.len() && old(input)@.skip(
            old(input)@.len() - literal@.len(),
        ) == literal@),
        r ==> final(input)@ == old(input)@.take(old(input)@.len() - literal@.len()),
        !r ==> *final(input) == *old(input),
{
    let cur: &str = *input;
    if match_suffix(cur, literal) {
        let n = cur.unicode_len();
        let m = literal.unicode_len();
        *input = cur.substring_char(0, n - m);
        proof {
            assert(cur@.subrange(0, n - m) =~= cur@.take(n - m));
        }
        true
    } else {
        false
    }
}

/// An error for [`FromStrFront`] and [`FromStrBack`] on bools.
#[derive(Debug, PartialEq, Eq, Structural)]
pub struct ParseBoolError;

impl FromStrFront for bool {
    type Error = ParseBoolError;

    open spec fn front_spec(s: Seq<char>) -> Result<(bool, Seq<char>), ParseBoolError> {
        if s.len() >= 4 && s.take(4) == seq!['t', 'r', 'u', 'e'] {
            Ok((true, s.skip(4)))
        } else if s.len() >= 5 && s.take(5) == seq!['f', 'a', 'l', 's', 'e'] {
            Ok((false, s.skip(5)))
        } else {
            Err(ParseBoolError)
        }
    }

    fn from_str_front(input: &str) -> (r: Result<(bool, &str), ParseBoolError>) {
        proof {
            reveal_strlit("true");
            reveal_strlit("false");
            assert("true"@ =~= seq!['t', 'r', 'u', 'e']);
            assert("false"@ =~= seq!['f', 'a', 'l', 's', 'e']);
        }
        let n = input.unicode_len();
        if match_prefix(input, "true") {
            let rest = input.substring_char(4, n);
            proof {
                assert(rest@ =~= input@.skip(4));
            }
            Ok((true, rest))
        } else if match_prefix(input, "false") {
            let rest = input.substring_char(5, n);
            proof {
                assert(rest@ =~= input@.skip(5));
            }
            Ok((false, rest))
        } else {
            Err(ParseBoolError)
        }
    }
}

impl FromStrBack for bool {
    type Error = ParseBoolError;

    open spec fn back_spec(s: Seq<char>) -> Result<(bool, Seq<char>), ParseBoolError> {
        if s.len() >= 4 && s.skip(s.len() - 4) == seq!['t', 'r', 'u', 'e'] {
            Ok((true, s.take(s.len() - 4)))
        } else if s.len() >= 5 && s.skip(s.len() - 5) == seq!['f', 'a', 'l', 's', 'e'] {
            Ok((false, s.take(s.len() - 5)))
        } else {
            Err(ParseBoolError)
        }
    }

    fn from_str_back(input: &str) -> (r: Result<(bool, &str), ParseBoolError>) {
        proof {
            reveal_strlit("true");
            reveal_strlit("false");
            assert("true"@ =~= seq!['t', 'r', 'u', 'e']);
            assert("false"@ =~= seq!['f', 'a', 'l', 's', 'e']);
        }
        let n = input.unicode_len();
        if match_suffix(input, "true") {
            let rest = input.substring_char(0, n - 4);
            proof {
                assert(rest@ =~= input@.take(n - 4));
            }
            Ok((true, rest))
        } else if match_suffix(input, "false") {
            let rest = input.substring_char(0, n - 5);
            proof {
                assert(rest@ =~= input@.take(n - 5));
            }
            Ok((false, rest))
        } else {
            Err(ParseBoolError)
        }
    }
}

} // verus!
