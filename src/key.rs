//! What the map asks of its key type.
use vstd::prelude::*;

verus! {

/// A type whose values can identify entries of a `WeightedMap`.
///
/// Two keys denote the same entry exactly when their views are equal.
pub trait Key: View + Sized {
    /// Whether `self` and `other` denote the same entry.
    fn same_key(&self, other: &Self) -> (r: bool)
        ensures
            r == (self@ == other@),
    ;

    /// A second key that denotes the same entry as `self`.
    fn copy_key(&self) -> (r: Self)
        ensures
            r@ == self@,
    ;
}

impl Key for String {
    fn same_key(&self, other: &String) -> (r: bool) {
        *self == *other
    }

    fn copy_key(&self) -> (r: String) {
        self.clone()
    }
}

} // verus!
