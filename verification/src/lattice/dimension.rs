//! One dimension of a lattice: a generating ratio and its bounds.

use super::dimension_bounds::LatticeDimensionBounds;
use crate::ratio::Ratio;
use crate::rational::power;
use crate::signed::SignedInt;
use vstd::prelude::*;

verus! {

/// One dimension of a lattice: the ratio by which each step along it moves,
/// and the bounds within which indices along it wrap.
pub struct LatticeDimension<T: SignedInt> {
    pub ratio: Ratio<T>,
    pub bounds: LatticeDimensionBounds,
}

impl<T: SignedInt> LatticeDimension<T> {
    /// The ratio found at `index`: the generating ratio raised to the place
    /// the index stands for.
    pub open spec fn point(self, index: int) -> (int, int) {
        power(self.ratio@, self.bounds.resolved(index))
    }

    /// `at` is defined on `index`: the index resolves and the ratio can be
    /// raised to its place.
    pub open spec fn defined_at(self, index: int) -> bool {
        self.bounds.resolvable(index) && Ratio::<T>::raisable(
            self.ratio@,
            self.bounds.resolved(index),
        )
    }

    /// The dimension generated by `ratio` within `bounds`.
    pub fn new(ratio: Ratio<T>, bounds: LatticeDimensionBounds) -> (r: Self)
        ensures
            r.ratio == ratio,
            r.bounds == bounds,
    {
        Self { ratio, bounds }
    }

    /// The ratio at `index`, or `None` where the index does not resolve or
    /// the power overflows `T`.
    pub fn checked_at(&self, index: i32) -> (r: Option<Ratio<T>>)
        ensures
            r == (if self.defined_at(index as int) {
                Some(Ratio::<T>::of_pair(self.point(index as int)))
            } else {
                None
            }),
            r matches Some(v) ==> v@ == self.point(index as int) && v.is_reduced(),
    {
        match self.bounds.checked_resolve_index(index) {
            Some(place) => self.ratio.checked_pow(place),
            None => None,
        }
    }

    /// The ratio at `index`: the index is resolved by the bounds and the
    /// generating ratio raised to the resulting place.
    pub fn at(&self, index: i32) -> (r: Ratio<T>)
        requires
            self.defined_at(index as int),
        ensures
            r@ == self.point(index as int),
            r.is_reduced(),
    {
        self.checked_at(index).unwrap()
    }
}

} // verus!
