//! The lattice itself: a sequence of dimensions queried by index vectors.

use super::dimension::LatticeDimension;
use crate::ratio::Ratio;
use crate::rational::product;
use crate::signed::SignedInt;
use vstd::prelude::*;

verus! {

/// An n-dimensional lattice of just intervals, one generating ratio to each
/// dimension.
pub struct Lattice<T: SignedInt> {
    pub dimensions: Vec<LatticeDimension<T>>,
}

/// The ratios found along the first `k` dimensions at the first `k` indices,
/// multiplied together from the unison: each is multiplied onto the product of
/// those before it.
pub open spec fn lattice_point<T: SignedInt>(
    dimensions: Seq<LatticeDimension<T>>,
    indices: Seq<i32>,
    k: nat,
) -> (int, int)
    decreases k,
{
    if k == 0 {
        (1, 1)
    } else {
        product(
            dimensions[k - 1].point(indices[k - 1] as int),
            lattice_point(dimensions, indices, (k - 1) as nat),
        )
    }
}

/// Every step of `lattice_point` over the first `k` dimensions is defined:
/// each index resolves, each power and each product fits `T`.
pub open spec fn lattice_point_defined<T: SignedInt>(
    dimensions: Seq<LatticeDimension<T>>,
    indices: Seq<i32>,
    k: nat,
) -> bool
    decreases k,
{
    k == 0 || {
        &&& lattice_point_defined(dimensions, indices, (k - 1) as nat)
        &&& dimensions[k - 1].defined_at(indices[k - 1] as int)
        &&& Ratio::<T>::multipliable(
            dimensions[k - 1].point(indices[k - 1] as int),
            lattice_point(dimensions, indices, (k - 1) as nat),
        )
    }
}

impl<T: SignedInt> Lattice<T> {
    /// How many dimensions are paired with an index: the shorter of the two
    /// lengths. Dimensions or indices beyond it play no part.
    pub open spec fn paired(self, indices: Seq<i32>) -> nat {
        if self.dimensions@.len() <= indices.len() {
            self.dimensions@.len()
        } else {
            indices.len()
        }
    }

    /// The ratio at `indices`.
    pub open spec fn point(self, indices: Seq<i32>) -> (int, int) {
        lattice_point(self.dimensions@, indices, self.paired(indices))
    }

    /// `at` is defined on `indices`.
    pub open spec fn defined_at(self, indices: Seq<i32>) -> bool {
        lattice_point_defined(self.dimensions@, indices, self.paired(indices))
    }

    /// The lattice of the given dimensions.
    pub fn new(dimensions: Vec<LatticeDimension<T>>) -> (r: Self)
        ensures
            r.dimensions == dimensions,
    {
        Self { dimensions }
    }

    /// The ratio at `indices`, or `None` where a step of the way is not
    /// defined or overflows `T`.
    pub fn checked_at(&self, indices: &[i32]) -> (r: Option<Ratio<T>>)
        ensures
            r == (if self.defined_at(indices@) {
                Some(Ratio::<T>::of_pair(self.point(indices@)))
            } else {
                None
            }),
            r matches Some(v) ==> v@ == self.point(indices@),
    {
        let n = if self.dimensions.len() <= indices.len() {
            self.dimensions.len()
        } else {
            indices.len()
        };
        let mut acc: Ratio<T> = Ratio::unison();
        let mut i: usize = 0;
        while i < n
            invariant
                i <= n,
                n == self.paired(indices@),
                lattice_point_defined(self.dimensions@, indices@, i as nat),
                acc@ == lattice_point(self.dimensions@, indices@, i as nat),
            decreases n - i,
        {
            let step = match self.dimensions[i].checked_at(indices[i]) {
                Some(step) => step,
                None => {
                    proof {
                        lemma_undefined_onward(self.dimensions@, indices@, i as nat + 1, n as nat);
                    }
                    return None;
                },
            };
            acc = match step.checked_mul(acc) {
                Some(next) => next,
                None => {
                    proof {
                        lemma_undefined_onward(self.dimensions@, indices@, i as nat + 1, n as nat);
                    }
                    return None;
                },
            };
            i = i + 1;
        }
        proof {
            acc.lemma_view();
        }
        Some(acc)
    }

    /// The ratio at `indices`: dimensions and indices are paired by position,
    /// what is left over of the longer of the two is ignored, and the ratios
    /// found along the paired dimensions are multiplied together, starting
    /// from `1/1`.
    pub fn at(&self, indices: &[i32]) -> (r: Ratio<T>)
        requires
            self.defined_at(indices@),
        ensures
            r@ == self.point(indices@),
    {
        self.checked_at(indices).unwrap()
    }
}

/// Once a step is undefined, so is every longer way.
proof fn lemma_undefined_onward<T: SignedInt>(
    dimensions: Seq<LatticeDimension<T>>,
    indices: Seq<i32>,
    k: nat,
    n: nat,
)
    requires
        !lattice_point_defined(dimensions, indices, k),
        k <= n,
    ensures
        !lattice_point_defined(dimensions, indices, n),
    decreases n - k,
{
    if k < n {
        lemma_undefined_onward(dimensions, indices, k + 1, n);
    }
}

} // verus!
