use vstd::prelude::*;

use crate::util::{lemma_sorted_from_adjacent, sorted_by_keys, OrderKey, SortedError, SortedSlice};

verus! {

/// An array `[T; N]` that is guaranteed to be sorted by the order of
/// [`OrderKey`]. The check happens once, at construction, so that a binary
/// search never has to re-validate it.
#[derive(Debug)]
pub struct Sorted<T: OrderKey, const N: usize> {
    array: [T; N],
}

impl<T: OrderKey, const N: usize> View for Sorted<T, N> {
    type V = Seq<T>;

    closed spec fn view(&self) -> Seq<T> {
        self.array@
    }
}

impl<T: OrderKey, const N: usize> Sorted<T, N> {
    /// The sortedness invariant that every value of this type carries.
    pub open spec fn wf(&self) -> bool {
        sorted_by_keys(self@)
    }

    /// Creates a new [`Sorted`] from the given `array` if it was sorted.
    pub fn new(array: [T; N]) -> (r: Result<Self, SortedError>)
        ensures
            match r {
                Ok(s) => s@ == array@ && s.wf(),
                Err(e) => e == SortedError::NotSorted && !sorted_by_keys(array@),
            },
    {
        let mut i: usize = 1;
        while i < N
            invariant
                1 <= i,
                i <= N || N == 0,
                forall|k: int| 0 <= k < i - 1 ==> #[trigger] array@[k].order_key() <= array@[k + 1].order_key(),
            decreases N - i,
        {
            if !array[i - 1].key_le(&array[i]) {
                return Err(SortedError::NotSorted);
            }
            i = i + 1;
        }
        proof {
            lemma_sorted_from_adjacent(array@);
        }
        Ok(Sorted { array })
    }

    /// Sorts the given array and creates a new [`Sorted`] from it; unlike
    /// [`Self::new`] this cannot fail. The result holds the same elements.
    pub fn new_sorted(array: [T; N]) -> (r: Self) where T: Copy
        ensures
            r.wf(),
            r@.to_multiset() == array@.to_multiset(),
    {
        let mut arr = array;
        let mut i: usize = 1;
        while i < N
            invariant
                1 <= i,
                i <= N || N == 0,
                arr@.len() == N,
                arr@.to_multiset() == array@.to_multiset(),
                forall|p: int, q: int|
                    0 <= p <= q < i ==> #[trigger] arr@[p].order_key() <= #[trigger] arr@[q].order_key(),
            decreases N - i,
        {
            let mut j: usize = i;
            while j > 0 && !arr[j - 1].key_le(&arr[j])
                invariant
                    0 <= j <= i < N,
                    arr@.len() == N,
                    arr@.to_multiset() == array@.to_multiset(),
                    forall|p: int, q: int|
                        0 <= p < q <= i && q != j ==> #[trigger] arr@[p].order_key()
                            <= #[trigger] arr@[q].order_key(),
                decreases j,
            {
                let ghost pre = arr@;
                let x = arr[j - 1];
                let y = arr[j];
                arr[j - 1] = y;
                arr[j] = x;
                proof {
                    broadcast use vstd::seq_lib::to_multiset_update;
                    broadcast use vstd::seq_lib::group_to_multiset_ensures;

                    assert(arr@ =~= pre.update(j - 1, y).update(j as int, x));
                    assert(pre.update(j - 1, y)[j as int] == y);
                    assert(pre.contains(x));
                    assert(pre.to_multiset().count(x) > 0);
                    assert(arr@.to_multiset() =~= pre.to_multiset());
                }
                j = j - 1;
            }
            proof {
                assert forall|p: int, q: int| 0 <= p <= q <= i implies arr@[p].order_key()
                    <= arr@[q].order_key() by {
                    if p < q && q == j {
                        assert(j > 0 ==> arr@[j - 1].order_key() <= arr@[j as int].order_key());
                        if p < j - 1 {
                            assert(arr@[p].order_key() <= arr@[j - 1].order_key());
                        }
                    }
                }
            }
            i = i + 1;
        }
        proof {
            if N == 0 || N == 1 {
                assert(sorted_by_keys(arr@));
            }
        }
        Sorted { array: arr }
    }

    /// Borrows this as a reference to the underlying array.
    pub fn as_array_ref(&self) -> (r: &[T; N])
        ensures
            r@ == self@,
    {
        &self.array
    }

    /// Binary-searches for a value with the same order key, returning its
    /// index on a hit and the insertion point on a miss.
    pub fn binary_search(&self, key: &T) -> (r: Result<usize, usize>)
        requires
            self.wf(),
        ensures
            match r {
                Ok(i) => i < self@.len() && self@[i as int].order_key() == key.order_key(),
                Err(i) => i <= self@.len() && forall|j: int|
                    0 <= j < self@.len() ==> self@[j].order_key() != key.order_key(),
            },
    {
        let mut lo: usize = 0;
        let mut hi: usize = N;
        while lo < hi
            invariant
                0 <= lo <= hi <= N,
                self@.len() == N,
                self.wf(),
                forall|j: int| 0 <= j < lo ==> self@[j].order_key() < key.order_key(),
                forall|j: int| hi <= j < N ==> self@[j].order_key() > key.order_key(),
            decreases hi - lo,
        {
            let mid = lo + (hi - lo) / 2;
            if self.array[mid].key_le(key) {
                if key.key_le(&self.array[mid]) {
                    return Ok(mid);
                }
                lo = mid + 1;
            } else {
                hi = mid;
            }
        }
        Err(lo)
    }

    /// Borrows this as a [`SortedSlice`].
    pub fn as_sorted_slice(&self) -> (r: SortedSlice<'_, T>)
        requires
            self.wf(),
        ensures
            r@ == self@,
            r.wf(),
    {
        match SortedSlice::new(self.array.as_slice()) {
            Ok(r) => r,
            Err(_) => vstd::pervasive::unreached(),
        }
    }

    /// Whether some element has the same order key as `key`.
    pub fn contains(&self, key: &T) -> (r: bool)
        requires
            self.wf(),
        ensures
            r == exists|j: int| 0 <= j < self@.len() && self@[j].order_key() == key.order_key(),
    {
        match self.binary_search(key) {
            Ok(i) => {
                proof {
                    assert(self@[i as int].order_key() == key.order_key());
                }
                true
            },
            Err(_) => false,
        }
    }
}

} // verus!
