//! The operations that every ordered-set variant offers.
use vstd::prelude::*;

verus! {

/// An ordered set of `T`: insertion, removal, membership and size.
pub trait TreeOps<T>: Sized {
    /// The variant's own well-formedness.
    spec fn inv(&self) -> bool;

    /// The elements held.
    spec fn elements(&self) -> Set<T>;

    /// One more element fits.
    spec fn room(&self) -> bool;

    /// Adds `value`; false if it was already there.
    fn insert(&mut self, value: T) -> (r: bool)
        requires
            old(self).inv(),
            old(self).room(),
        ensures
            final(self).inv(),
            r == !old(self).elements().contains(value),
            final(self).elements() == old(self).elements().insert(value),
    ;

    /// Whether `value` is held.
    fn contains(&self, value: &T) -> (r: bool)
        requires
            self.inv(),
        ensures
            r == self.elements().contains(*value),
    ;

    /// Removes `value`; false if it was not there.
    fn remove(&mut self, value: &T) -> (r: bool)
        requires
            old(self).inv(),
        ensures
            final(self).inv(),
            r == old(self).elements().contains(*value),
            final(self).elements() == old(self).elements().remove(*value),
    ;

    /// The number of elements held.
    fn len(&self) -> (r: usize)
        requires
            self.inv(),
        ensures
            r == self.elements().len(),
    ;
}

} // verus!
