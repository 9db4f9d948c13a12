use vstd::prelude::*;

use crate::util::{lemma_sorted_from_adjacent, sorted_by_keys, OrderKey, SortedError};

verus! {

/// A borrowed slice `&[T]` that is guaranteed to be sorted by the order of
/// [`OrderKey`], checked once at construction.
pub struct SortedSlice<'a, T: OrderKey> {
    slice: &'a [T],
}

impl<'a, T: OrderKey> View for SortedSlice<'a, T> {
    type V = Seq<T>;

    closed spec fn view(&self) -> Seq<T> {
        self.slice@
    }
}

impl<'a, T: OrderKey> SortedSlice<'a, T> {
    /// The sortedness invariant that every value of this type carries.
    pub open spec fn wf(&self) -> bool {
        sorted_by_keys(self@)
    }

    /// Creates a new [`SortedSlice`] from the given `slice` if it was sorted.
    pub fn new(slice: &'a [T]) -> (r: Result<Self, SortedError>)
        ensures
            match r {
                Ok(s) => s@ == slice@ && s.wf(),
                Err(e) => e == SortedError::NotSorted && !sorted_by_keys(slice@),
            },
    {
        let n = slice.len();
        let mut i: usize = 1;
        while i < n
            invariant
                1 <= i,
                i <= n || n == 0,
                n == slice@.len(),
                forall|k: int| 0 <= k < i - 1 ==> #[trigger] slice@[k].order_key() <= slice@[k + 1].order_key(),
            decreases n - i,
        {
            if !slice[i - 1].key_le(&slice[i]) {
                return Err(SortedError::NotSorted);
            }
            i = i + 1;
        }
        proof {
            lemma_sorted_from_adjacent(slice@);
        }
        Ok(SortedSlice { slice })
    }

    /// Borrows the underlying slice.
    pub fn as_slice(&self) -> (r: &'a [T])
        ensures
            r@ == self@,
    {
        self.slice
    }

    /// Binary-searches for a value with the same order key, returning its
    /// index on a hit and the insertion point on a miss.
    pub fn binary_search(&self, key: &T) -> (r: Result<usize, usize>)
        requires
            self.wf(),
        ensures
            match r {
                Ok(i) => i < self@.len() && self@[i as int].order_key() == key.order_key(),
                Err(i) => i <= self@.len() && forall|j: int|
                    0 <= j < self@.len() ==> self@[j].order_key() != key.order_key(),
            },
    {
        let mut lo: usize = 0;
        let mut hi: usize = self.slice.len();
        while lo < hi
            invariant
                0 <= lo <= hi <= self@.len(),
                self.wf(),
                forall|j: int| 0 <= j < lo ==> self@[j].order_key() < key.order_key(),
                forall|j: int| hi <= j < self@.len() ==> self@[j].order_key() > key.order_key(),
            decreases hi - lo,
        {
            let mid = lo + (hi - lo) / 2;
            if self.slice[mid].key_le(key) {
                if key.key_le(&self.slice[mid]) {
                    return Ok(mid);
                }
                lo = mid + 1;
            } else {
                hi = mid;
            }
        }
        Err(lo)
    }
}

} // verus!
