//! Splitting of strs: escape-aware delimiter splitting, a checked
//! char-boundary splitter, and fixed-count splitting at given byte indices.

use vstd::prelude::*;

mod char_boundary;
pub mod multi;
mod non_escaped;

pub use char_boundary::{char_boundary, char_boundary_unchecked, CharBoundaryError};
pub use non_escaped::{non_escaped, non_escaped_sanitize, NonEscaped, NonEscapedError, NonEscapedSanitize};

use crate::util::{OrderKey, Sorted};
use vstd::string::StringSliceAdditionalSpecFns;
use vstd::utf8::{is_char_boundary, valid_utf8};

verus! {

broadcast use vstd::utf8::group_utf8_lib;

/// Splits a string into `N + 1` pieces at the given sorted byte indices.
/// Every index must lie within the input and on a char boundary.
pub fn n_times<'s, const N: usize>(input: &'s str, indices: &Sorted<usize, N>) -> (r: (
    [&'s str; N],
    &'s str,
))
    requires
        indices.wf(),
        forall|i: int| 0 <= i < N ==> (#[trigger] indices@[i]) <= input.spec_bytes().len()
            && is_char_boundary(input.spec_bytes(), indices@[i] as int),
    ensures
        forall|i: int| 0 <= i < N ==> (#[trigger] r.0[i]).spec_bytes() == input.spec_bytes().subrange(
            if i == 0 { 0 } else { indices@[i - 1] as int },
            indices@[i] as int,
        ),
        r.1.spec_bytes() == input.spec_bytes().skip(
            if N == 0 { 0 } else { indices@[N - 1] as int },
        ),
{
    let ghost bytes = input.spec_bytes();
    let arr = indices.as_array_ref();
    let mut res: [&'s str; N] = [""; N];
    let mut rest: &'s str = input;
    let mut prev: usize = 0;
    let mut i: usize = 0;
    proof {
        assert(bytes.skip(0) =~= bytes);
        reveal_strlit("");
        assert(""@ =~= Seq::<char>::empty());
        assert(vstd::utf8::encode_utf8(Seq::<char>::empty()) =~= Seq::<u8>::empty());
    }
    while i < N
        invariant
            0 <= i <= N,
            arr@ == indices@,
            indices.wf(),
            forall|j: int| 0 <= j < N ==> (#[trigger] indices@[j]) <= bytes.len()
                && is_char_boundary(bytes, indices@[j] as int),
            bytes == input.spec_bytes(),
            prev == if i == 0 { 0usize } else { indices@[i - 1] },
            prev as int <= bytes.len(),
            is_char_boundary(bytes, prev as int),
            rest.spec_bytes() == bytes.skip(prev as int),
            forall|j: int| 0 <= j < i ==> (#[trigger] res[j]).spec_bytes() == bytes.subrange(
                if j == 0 { 0 } else { indices@[j - 1] as int },
                indices@[j] as int,
            ),
        decreases N - i,
    {
        let idx = arr[i];
        proof {
            if i > 0 {
                assert(indices@[i as int - 1].order_key() <= indices@[i as int].order_key());
            }
            assert(prev <= idx);
            assert(rest.spec_bytes().len() == bytes.len() - prev);
            assert(is_char_boundary(rest.spec_bytes(), idx - prev as int)) by {
                vstd::utf8::encode_utf8_valid_utf8(input@);
                assert(valid_utf8(bytes));
                assert(bytes.skip(prev as int) =~= bytes.subrange(prev as int, bytes.len() as int));
                vstd::utf8::valid_utf8_split(bytes, prev as int);
                assert(valid_utf8(rest.spec_bytes()));
                if (idx - prev as int) < rest.spec_bytes().len() {
                    assert(rest.spec_bytes()[idx - prev as int] == bytes[idx as int]);
                    vstd::utf8::is_char_boundary_iff_not_is_continuation_byte(bytes, idx as int);
                    vstd::utf8::is_char_boundary_iff_not_is_continuation_byte(
                        rest.spec_bytes(),
                        idx - prev as int,
                    );
                } else {
                    vstd::utf8::is_char_boundary_start_end_of_seq(rest.spec_bytes());
                }
            }
        }
        let (piece, rest2) = rest.split_at(idx - prev);
        proof {
            assert(piece.spec_bytes() =~= bytes.subrange(prev as int, idx as int));
            assert(rest2.spec_bytes() =~= bytes.skip(idx as int));
            assert(is_char_boundary(bytes, idx as int));
        }
        res[i] = piece;
        rest = rest2;
        prev = idx;
        i = i + 1;
    }
    (res, rest)
}

} // verus!
