//! How an index along one dimension of a lattice wraps around.

use crate::math::{wrap, wrapped};
use vstd::arithmetic::div_mod::{
    lemma_fundamental_div_mod, lemma_fundamental_div_mod_converse, lemma_mod_add_multiples_vanish,
    lemma_mod_bound, lemma_mod_multiples_basic, lemma_small_mod,
};
use vstd::math::abs;
use vstd::prelude::*;

verus! {

/// The extent of one lattice dimension and the way indices outside it wrap.
#[derive(Clone, Copy, Debug)]
pub enum LatticeDimensionBounds {
    /// No bounds: the dimension extends without end in both directions, and
    /// an index stands for itself.
    Infinite,
    /// The dimension covers `[0, n)`: index `n` is index `0` again.
    ///
    /// A negative `n` covers `(n, 0]` instead, so that with `n == -2` the
    /// index `1` stands for `-1`.
    LengthBounded(i32),
    /// The dimension covers `[a, b]`, both ends included: index `b + 1` is
    /// index `a` again, and `a - 1` is `b`.
    ///
    /// `RangeBounded(0, 2)` has three places, `LengthBounded(2)` two.
    RangeBounded(i32, i32),
}

impl LatticeDimensionBounds {
    /// The place that `index` stands for.
    pub open spec fn resolved(self, index: int) -> int {
        match self {
            LatticeDimensionBounds::Infinite => index,
            LatticeDimensionBounds::LengthBounded(n) => wrapped(index, n as int),
            LatticeDimensionBounds::RangeBounded(a, b) => wrapped(
                index + abs(a as int),
                b - a + 1,
            ) - abs(a as int),
        }
    }

    /// `index` can be resolved: the length that indices wrap by is not zero
    /// and the place is an `i32`.
    pub open spec fn resolvable(self, index: int) -> bool {
        match self {
            LatticeDimensionBounds::Infinite => true,
            LatticeDimensionBounds::LengthBounded(n) => n != 0,
            LatticeDimensionBounds::RangeBounded(a, b) => b - a + 1 != 0 && i32::MIN
                <= self.resolved(index) <= i32::MAX,
        }
    }

    /// The place that `index` stands for, or `None` where the bounds wrap by
    /// a length of zero or the place is not an `i32`.
    pub fn checked_resolve_index(&self, index: i32) -> (r: Option<i32>)
        ensures
            r == (if self.resolvable(index as int) {
                Some(self.resolved(index as int) as i32)
            } else {
                None
            }),
            r matches Some(place) ==> place == self.resolved(index as int),
            self is Infinite ==> r == Some(index),
    {
        match self {
            LatticeDimensionBounds::Infinite => Some(index),
            LatticeDimensionBounds::LengthBounded(n) => {
                if *n == 0 {
                    None
                } else {
                    Some(wrap(index as i64, *n as i64) as i32)
                }
            },
            LatticeDimensionBounds::RangeBounded(a, b) => {
                let modulo = *b as i64 - *a as i64 + 1;
                if modulo == 0 {
                    return None;
                }
                let abs_a = if *a < 0 { -(*a as i64) } else { *a as i64 };
                let place = wrap(index as i64 + abs_a, modulo) - abs_a;
                if place < i32::MIN as i64 || place > i32::MAX as i64 {
                    None
                } else {
                    Some(place as i32)
                }
            },
        }
    }

    /// The place that `index` stands for: itself without bounds, and
    /// otherwise the index wrapped into the bounds by `sign_preserving_mod`.
    pub fn resolve_index(&self, index: i32) -> (r: i32)
        requires
            self.resolvable(index as int),
        ensures
            r == self.resolved(index as int),
            self is Infinite ==> r == index,
    {
        self.checked_resolve_index(index).unwrap()
    }

    /// A positive length `n` wraps every index into `[0, n)`: the place is
    /// the remainder of the index by `n`, so that the places cycle through
    /// `0, 1, ..., n - 1` as the index rises.
    pub proof fn lemma_length_bounded_cycles(n: i32, index: int)
        requires
            n > 0,
        ensures
            ({
                let bounds = LatticeDimensionBounds::LengthBounded(n);
                &&& bounds.resolvable(index)
                &&& bounds.resolved(index) == index % (n as int)
                &&& 0 <= bounds.resolved(index) < n
                &&& bounds.resolved(index + n) == bounds.resolved(index)
                &&& bounds.resolved(index + 1) == if bounds.resolved(index) == n - 1 {
                    0
                } else {
                    bounds.resolved(index) + 1
                }
            }),
    {
        lemma_mod_add_multiples_vanish(index, n as int);
        lemma_mod_bound(index, n as int);
        lemma_mod_bound(index + 1, n as int);
        lemma_fundamental_div_mod(index, n as int);
        let q = index / (n as int);
        let m = index % (n as int);
        if m == n - 1 {
            assert(index + 1 == (n as int) * (q + 1)) by (nonlinear_arith)
                requires
                    index == (n as int) * q + m,
                    m == n - 1,
            ;
            lemma_fundamental_div_mod_converse(index + 1, n as int, q + 1, 0);
        } else {
            lemma_fundamental_div_mod_converse(index + 1, n as int, q, m + 1);
        }
    }

    /// A negative length `n` wraps every index into `(n, 0]`, by multiples of
    /// `n`.
    pub proof fn lemma_negative_length_bounded(n: i32, index: int)
        requires
            n < 0,
        ensures
            ({
                let bounds = LatticeDimensionBounds::LengthBounded(n);
                &&& bounds.resolvable(index)
                &&& n < bounds.resolved(index) <= 0
                &&& (bounds.resolved(index) - index) % (-n as int) == 0
            }),
    {
        let m = -n as int;
        lemma_mod_bound(-index, m);
        lemma_fundamental_div_mod(-index, m);
        let q = (-index) / m;
        assert(-((-index) % m) - index == m * q) by (nonlinear_arith)
            requires
                -index == m * q + (-index) % m,
        ;
        lemma_mod_multiples_basic(q, m);
        assert(m * q == q * m) by (nonlinear_arith);
    }

    /// A range `[a, b]` that begins at zero or below wraps every index into
    /// the range, by multiples of its length `b - a + 1`, and leaves the
    /// indices of the range where they are.
    pub proof fn lemma_range_bounded_wraps(a: i32, b: i32, index: int)
        requires
            a <= 0,
            a <= b,
        ensures
            ({
                let bounds = LatticeDimensionBounds::RangeBounded(a, b);
                &&& bounds.resolvable(index)
                &&& a <= bounds.resolved(index) <= b
                &&& (bounds.resolved(index) - index) % (b - a + 1) == 0
                &&& a <= index <= b ==> bounds.resolved(index) == index
            }),
    {
        let m = b - a + 1;
        let x = index - a;
        lemma_mod_bound(x, m);
        lemma_fundamental_div_mod(x, m);
        let q = x / m;
        assert((x % m + a) - index == m * (-q)) by (nonlinear_arith)
            requires
                x == m * q + x % m,
                x == index - a,
        ;
        lemma_mod_multiples_basic(-q, m);
        assert(m * (-q) == (-q) * m) by (nonlinear_arith);
        if a <= index <= b {
            lemma_small_mod(x as nat, m as nat);
        }
    }

    /// A range `[a, b]` that begins above zero is shifted by `a` toward zero
    /// twice over: indices wrap into `[-a, b - 2 * a]`, by multiples of the
    /// length `b - a + 1`.
    pub proof fn lemma_range_bounded_above_zero(a: i32, b: i32, index: int)
        requires
            0 < a <= b,
        ensures
            ({
                let bounds = LatticeDimensionBounds::RangeBounded(a, b);
                &&& bounds.resolvable(index)
                &&& -a <= bounds.resolved(index) <= b - 2 * a
                &&& (bounds.resolved(index) - index) % (b - a + 1) == 0
            }),
    {
        let m = b - a + 1;
        let x = index + a;
        lemma_mod_bound(x, m);
        lemma_fundamental_div_mod(x, m);
        let q = x / m;
        assert((x % m - a) - index == m * (-q)) by (nonlinear_arith)
            requires
                x == m * q + x % m,
                x == index + a,
        ;
        lemma_mod_multiples_basic(-q, m);
        assert(m * (-q) == (-q) * m) by (nonlinear_arith);
    }
}

} // verus!
