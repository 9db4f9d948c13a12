use vstd::prelude::*;

use vstd::string::StringSliceAdditionalSpecFns;
use vstd::std_specs::iter::IteratorSpec;
use vstd::utf8::{encode_utf8, is_char_boundary};

verus! {

broadcast use vstd::utf8::group_utf8_lib;

/// An error for the `char_boundary*` functions.
#[derive(Debug, PartialEq, Eq, Structural)]
pub enum CharBoundaryError {
    /// The given input was empty.
    InputEmpty,
    /// The given byte index was out of range for the input's byte length.
    IndexOutOfRange(usize, usize),
    /// The given byte index was not on a UTF-8 sequence boundary.
    NotUTF8Boundary(usize),
}

/// Splits `input` into the text before byte offset `index`, the char that
/// starts there, and the text after that char. The caller must already know
/// that `index` is in range and on a UTF-8 sequence boundary of a non-empty
/// input; [`char_boundary`] is the checked version.
pub fn char_boundary_unchecked<'a>(input: &'a str, index: usize) -> (r: (&'a str, char, &'a str))
    requires
        input@.len() > 0,
        index < input.spec_bytes().len(),
        is_char_boundary(input.spec_bytes(), index as int),
    ensures
        input@ == r.0@ + seq![r.1] + r.2@,
        r.0.spec_bytes() == input.spec_bytes().take(index as int),
{
    let ghost bytes = input.spec_bytes();
    let (before, rest) = input.split_at(index);
    proof {
        assert(bytes.subrange(0, index as int) =~= bytes.take(index as int));
        assert(encode_utf8(input@) == bytes);
        assert(vstd::utf8::decode_utf8(bytes.subrange(0, index as int)) == before@);
        assert(vstd::utf8::decode_utf8(bytes.subrange(index as int, bytes.len() as int)) == rest@);
        assert(input@ == before@ + rest@);
        assert(rest@.len() > 0) by {
            if rest@.len() == 0 {
                assert(rest.spec_bytes() =~= Seq::<u8>::empty());
            }
        }
    }
    let mut it = rest.chars();
    let c = it.next().unwrap();
    let m = rest.unicode_len();
    let after = rest.substring_char(1, m);
    proof {
        assert(c == rest@[0]);
        assert(rest@ =~= seq![c] + after@);
        assert(input@ =~= before@ + seq![c] + after@);
    }
    (before, c, after)
}

/// Splits `input` into the text before byte offset `index`, the char that
/// starts there, and the text after that char, checking that the input is
/// non-empty and that `index` is in range and on a UTF-8 sequence boundary.
pub fn char_boundary<'a>(input: &'a str, index: usize) -> (r: Result<
    (&'a str, char, &'a str),
    CharBoundaryError,
>)
    ensures
        match r {
            Ok((before, c, after)) => input@.len() > 0 && index < input.spec_bytes().len()
                && is_char_boundary(input.spec_bytes(), index as int) && input@ == before@ + seq![c]
                + after@ && before.spec_bytes() == input.spec_bytes().take(index as int),
            Err(e) => match e {
                CharBoundaryError::InputEmpty => input@.len() == 0,
                CharBoundaryError::IndexOutOfRange(i, l) => input@.len() > 0 && i == index && l
                    == input.spec_bytes().len() && index >= input.spec_bytes().len(),
                CharBoundaryError::NotUTF8Boundary(i) => input@.len() > 0 && i == index && index
                    < input.spec_bytes().len() && !is_char_boundary(
                    input.spec_bytes(),
                    index as int,
                ),
            },
        },
{
    let bytes_len = input.as_bytes().len();
    if input.is_empty() {
        proof {
            assert(input@.len() == 0);
        }
        Err(CharBoundaryError::InputEmpty)
    } else if index >= bytes_len {
        Err(CharBoundaryError::IndexOutOfRange(index, bytes_len))
    } else if !input.is_char_boundary(index) {
        Err(CharBoundaryError::NotUTF8Boundary(index))
    } else {
        proof {
            assert(input@.len() > 0) by {
                if input@.len() == 0 {
                    assert(input.spec_bytes() =~= Seq::<u8>::empty());
                }
            }
        }
        Ok(char_boundary_unchecked(input, index))
    }
}

} // verus!
