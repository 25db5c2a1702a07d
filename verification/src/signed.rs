//! The fixed-width signed integers a ratio can be stored in.
//!
//! Arithmetic on ratios is carried out in `i128` and the results are narrowed
//! back into the storage type, so every width up to 64 bits is served by the
//! same verified code.

use vstd::prelude::*;

verus! {

/// A signed machine integer of at most 64 bits.
///
/// `value` is the integer a stored word stands for and `of_int` the word that
/// stands for an integer within range; the three lemmas make the two inverse
/// to each other on `[min_value(), max_value()]`.
pub trait SignedInt: Copy + Sized {
    /// The mathematical integer held by `self`.
    spec fn value(self) -> int;

    /// The word holding `i`; meaningful only where `i` is within range.
    spec fn of_int(i: int) -> Self;

    /// The least representable integer.
    spec fn min_value() -> int;

    /// The greatest representable integer.
    spec fn max_value() -> int;

    /// Every width holds at least a byte and at most 64 bits.
    proof fn lemma_bounds()
        ensures
            i64::MIN <= Self::min_value() <= -128,
            127 <= Self::max_value() <= i64::MAX,
    ;

    /// A stored word is within range and is recovered from its value.
    proof fn lemma_value(self)
        ensures
            Self::min_value() <= self.value() <= Self::max_value(),
            Self::of_int(self.value()) == self,
    ;

    /// An integer within range is recovered from its word.
    proof fn lemma_of_int(i: int)
        requires
            Self::min_value() <= i <= Self::max_value(),
        ensures
            Self::of_int(i).value() == i,
    ;

    /// Widens without loss.
    fn widen(self) -> (w: i128)
        ensures
            w == self.value(),
    ;

    /// Narrows `w`, or reports that it is out of range.
    fn narrow(w: i128) -> (r: Option<Self>)
        ensures
            r == (if Self::min_value() <= w <= Self::max_value() {
                Some(Self::of_int(w as int))
            } else {
                None
            }),
    ;
}

/// Whether `i` is representable in `T`.
pub open spec fn fits<T: SignedInt>(i: int) -> bool {
    T::min_value() <= i <= T::max_value()
}

impl SignedInt for i8 {
    open spec fn value(self) -> int {
        self as int
    }

    open spec fn of_int(i: int) -> Self {
        i as i8
    }

    open spec fn min_value() -> int {
        i8::MIN as int
    }

    open spec fn max_value() -> int {
        i8::MAX as int
    }

    proof fn lemma_bounds() {
    }

    proof fn lemma_value(self) {
    }

    proof fn lemma_of_int(i: int) {
    }

    fn widen(self) -> (w: i128) {
        self as i128
    }

    fn narrow(w: i128) -> (r: Option<Self>) {
        if w < i8::MIN as i128 || w > i8::MAX as i128 {
            None
        } else {
            Some(w as i8)
        }
    }
}

impl SignedInt for i16 {
    open spec fn value(self) -> int {
        self as int
    }

    open spec fn of_int(i: int) -> Self {
        i as i16
    }

    open spec fn min_value() -> int {
        i16::MIN as int
    }

    open spec fn max_value() -> int {
        i16::MAX as int
    }

    proof fn lemma_bounds() {
    }

    proof fn lemma_value(self) {
    }

    proof fn lemma_of_int(i: int) {
    }

    fn widen(self) -> (w: i128) {
        self as i128
    }

    fn narrow(w: i128) -> (r: Option<Self>) {
        if w < i16::MIN as i128 || w > i16::MAX as i128 {
            None
        } else {
            Some(w as i16)
        }
    }
}

impl SignedInt for i32 {
    open spec fn value(self) -> int {
        self as int
    }

    open spec fn of_int(i: int) -> Self {
        i as i32
    }

    open spec fn min_value() -> int {
        i32::MIN as int
    }

    open spec fn max_value() -> int {
        i32::MAX as int
    }

    proof fn lemma_bounds() {
    }

    proof fn lemma_value(self) {
    }

    proof fn lemma_of_int(i: int) {
    }

    fn widen(self) -> (w: i128) {
        self as i128
    }

    fn narrow(w: i128) -> (r: Option<Self>) {
        if w < i32::MIN as i128 || w > i32::MAX as i128 {
            None
        } else {
            Some(w as i32)
        }
    }
}

impl SignedInt for i64 {
    open spec fn value(self) -> int {
        self as int
    }

    open spec fn of_int(i: int) -> Self {
        i as i64
    }

    open spec fn min_value() -> int {
        i64::MIN as int
    }

    open spec fn max_value() -> int {
        i64::MAX as int
    }

    proof fn lemma_bounds() {
    }

    proof fn lemma_value(self) {
    }

    proof fn lemma_of_int(i: int) {
    }

    fn widen(self) -> (w: i128) {
        self as i128
    }

    fn narrow(w: i128) -> (r: Option<Self>) {
        if w < i64::MIN as i128 || w > i64::MAX as i128 {
            None
        } else {
            Some(w as i64)
        }
    }
}

} // verus!
