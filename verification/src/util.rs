//! Helper types that uphold invariants statically: wrappers around arrays and
//! slices whose sortedness is checked once, at construction.

use vstd::prelude::*;

mod sorted;
mod sorted_slice;

pub use sorted::Sorted;
pub use sorted_slice::SortedSlice;

verus! {

/// An error indicating that a slice or array could not be wrapped because it
/// was not sorted.
#[derive(Debug, PartialEq, Eq, Structural)]
pub enum SortedError {
    /// The slice or array was not sorted.
    NotSorted,
}

/// Seals the parsing extension traits of this crate to the primitive types
/// they are implemented for.
pub trait Sealed {}

impl Sealed for u8 {}

impl Sealed for u16 {}

impl Sealed for u32 {}

impl Sealed for u64 {}

impl Sealed for u128 {}

impl Sealed for usize {}

impl Sealed for i8 {}

impl Sealed for i16 {}

impl Sealed for i32 {}

impl Sealed for i64 {}

impl Sealed for i128 {}

impl Sealed for isize {}

/// The total order that [`Sorted`] and [`SortedSlice`] maintain, given by an
/// integer key. Verified code cannot see through a derived `PartialOrd`, so
/// the order is stated through this trait instead.
pub trait OrderKey: Sized {
    /// The key that determines a value's place in the order.
    spec fn order_key(&self) -> int;

    /// Compares two values by their order keys.
    fn key_le(&self, other: &Self) -> (r: bool)
        ensures
            r == (self.order_key() <= other.order_key()),
    ;
}

impl OrderKey for char {
    open spec fn order_key(&self) -> int {
        *self as int
    }

    fn key_le(&self, other: &Self) -> (r: bool) {
        *self <= *other
    }
}

impl OrderKey for usize {
    open spec fn order_key(&self) -> int {
        *self as int
    }

    fn key_le(&self, other: &Self) -> (r: bool) {
        *self <= *other
    }
}

/// A sequence is sorted when its order keys never decrease.
pub open spec fn sorted_by_keys<T: OrderKey>(s: Seq<T>) -> bool {
    forall|i: int, j: int| 0 <= i <= j < s.len() ==> s[i].order_key() <= s[j].order_key()
}

/// Adjacent order implies full order.
pub proof fn lemma_sorted_from_adjacent<T: OrderKey>(s: Seq<T>)
    requires
        forall|k: int| 0 <= k < s.len() - 1 ==> #[trigger] s[k].order_key() <= s[k + 1].order_key(),
    ensures
        sorted_by_keys(s),
{
    assert forall|i: int, j: int| 0 <= i <= j < s.len() implies s[i].order_key()
        <= s[j].order_key() by {
        lemma_key_chain(s, i, j);
    }
}

proof fn lemma_key_chain<T: OrderKey>(s: Seq<T>, i: int, j: int)
    requires
        forall|k: int| 0 <= k < s.len() - 1 ==> #[trigger] s[k].order_key() <= s[k + 1].order_key(),
        0 <= i <= j < s.len(),
    ensures
        s[i].order_key() <= s[j].order_key(),
    decreases j - i,
{
    if i < j {
        lemma_key_chain(s, i, j - 1);
    }
}

} // verus!
