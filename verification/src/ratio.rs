//! Ratios of two integers in lowest terms: the intervals of just intonation.

use crate::math::{
    checked_power, greatest_prime_factor, largest_prime_factor, lowest_terms, normalize_pair,
    reduce,
};
use crate::rational::{
    complement_of, in_octave, lemma_lowest_terms, lemma_normalized, lemma_octave_fold, normalized,
    positive, power, product, quotient, reduced,
};
use crate::signed::{fits, SignedInt};
use crate::text::{push_signed_decimal, signed_decimal};
use std::ops::{Div, Mul, Neg};
use vstd::arithmetic::power::pow;
use vstd::math::max;
use vstd::prelude::*;
use vstd::std_specs::ops::{DivSpecImpl, MulSpecImpl, NegSpecImpl};
use vstd::string::StringExecFns;

verus! {

/// A ratio of two integers of width `T`, an interval in just intonation.
///
/// The constructors and operations hand out ratios in lowest terms; the signs
/// of the two parts are whatever reduction leaves of the signs put in.
#[derive(Debug, PartialEq)]
pub struct Ratio<T: SignedInt> {
    pub numer: T,
    pub denom: T,
}

impl<T: SignedInt> Clone for Ratio<T> {
    fn clone(&self) -> (r: Self)
        ensures
            r == *self,
    {
        *self
    }
}

impl<T: SignedInt> Copy for Ratio<T> {

}

impl<T: SignedInt> View for Ratio<T> {
    type V = (int, int);

    open spec fn view(&self) -> (int, int) {
        (self.numer.value(), self.denom.value())
    }
}

/// Whether `w` is representable in `T`.
fn in_range<T: SignedInt>(w: i128) -> (b: bool)
    ensures
        b == fits::<T>(w as int),
{
    T::narrow(w).is_some()
}

impl<T: SignedInt> Ratio<T> {
    /// Both parts are representable in `T`.
    pub open spec fn representable(r: (int, int)) -> bool {
        fits::<T>(r.0) && fits::<T>(r.1)
    }

    /// The ratio holding the two parts of `r`.
    pub open spec fn of_pair(r: (int, int)) -> Self {
        Ratio { numer: T::of_int(r.0), denom: T::of_int(r.1) }
    }

    /// The ratio is in lowest terms over a nonzero denominator.
    pub open spec fn is_reduced(self) -> bool {
        reduced(self@)
    }

    /// `normalize` is defined on `r`: the fraction is above zero and its
    /// normal form is representable.
    pub open spec fn normalizable(r: (int, int)) -> bool {
        positive(r) && Self::representable(normalized(r))
    }

    /// `a * b` is defined: both products are representable and the
    /// denominator is not zero.
    pub open spec fn multipliable(a: (int, int), b: (int, int)) -> bool {
        fits::<T>(a.0 * b.0) && fits::<T>(a.1 * b.1) && a.1 * b.1 != 0
    }

    /// `a / b` is defined: both cross products are representable and the
    /// denominator is not zero.
    pub open spec fn dividable(a: (int, int), b: (int, int)) -> bool {
        fits::<T>(a.0 * b.1) && fits::<T>(a.1 * b.0) && a.1 * b.0 != 0
    }

    /// `complement` is defined on `r`: `2/1` can be divided by it and the
    /// quotient normalized.
    pub open spec fn complementable(r: (int, int)) -> bool {
        Self::dividable((2, 1), r) && Self::normalizable(quotient((2, 1), r))
    }

    /// `pow` is defined on `r` and `e`: every power, quotient and normal form
    /// on the way is representable.
    pub open spec fn raisable(r: (int, int), e: int) -> bool
        decreases (if e < 0 { 1int } else { 0int }),
    {
        if e == 0 {
            true
        } else if e < 0 {
            Self::complementable(r) && Self::raisable(complement_of(r), -e)
        } else {
            &&& fits::<T>(pow(r.0, e as nat))
            &&& fits::<T>(pow(r.1, e as nat))
            &&& pow(r.1, e as nat) != 0
            &&& Self::normalizable(lowest_terms(pow(r.0, e as nat), pow(r.1, e as nat)))
        }
    }

    /// A representable pair is the view of the ratio that holds it.
    pub proof fn lemma_of_pair(r: (int, int))
        requires
            Self::representable(r),
        ensures
            Self::of_pair(r)@ == r,
    {
        T::lemma_of_int(r.0);
        T::lemma_of_int(r.1);
    }

    /// A ratio is the one that holds its own view, and its view is
    /// representable.
    pub proof fn lemma_view(self)
        ensures
            Self::of_pair(self@) == self,
            Self::representable(self@),
    {
        self.numer.lemma_value();
        self.denom.lemma_value();
    }

    /// The ratio of the two parts, if both are representable.
    fn pack(n: i128, d: i128) -> (r: Option<Self>)
        ensures
            r == (if Self::representable((n as int, d as int)) {
                Some(Self::of_pair((n as int, d as int)))
            } else {
                None
            }),
            r matches Some(v) ==> v@ == (n as int, d as int),
    {
        match T::narrow(n) {
            Some(numer) => match T::narrow(d) {
                Some(denom) => {
                    proof {
                        T::lemma_of_int(n as int);
                        T::lemma_of_int(d as int);
                    }
                    Some(Ratio { numer, denom })
                },
                None => None,
            },
            None => None,
        }
    }

    /// Both parts, widened.
    fn unpack(&self) -> (r: (i128, i128))
        ensures
            (r.0 as int, r.1 as int) == self@,
            i64::MIN <= r.0 <= i64::MAX,
            i64::MIN <= r.1 <= i64::MAX,
            Self::representable(self@),
    {
        proof {
            T::lemma_bounds();
            self.numer.lemma_value();
            self.denom.lemma_value();
        }
        (self.numer.widen(), self.denom.widen())
    }

    /// The unison, `1/1`.
    pub(crate) fn unison() -> (r: Self)
        ensures
            r@ == (1int, 1int),
            r == Self::of_pair((1int, 1int)),
            r.is_reduced(),
    {
        proof {
            T::lemma_bounds();
            reveal_with_fuel(crate::number_theory::greatest_common_divisor, 3);
        }
        Self::pack(1, 1).unwrap()
    }

    /// The ratio `numer / denom` in lowest terms.
    pub fn new(numer: T, denom: T) -> (r: Self)
        requires
            denom.value() != 0,
        ensures
            r@ == lowest_terms(numer.value(), denom.value()),
            r.is_reduced(),
    {
        proof {
            T::lemma_bounds();
            numer.lemma_value();
            denom.lemma_value();
            lemma_lowest_terms(numer.value(), denom.value());
        }
        let (p, q) = reduce(numer.widen(), denom.widen());
        let r = Self::pack(p, q);
        r.unwrap()
    }

    /// The ratio of a `(numerator, denominator)` pair, in lowest terms.
    pub fn from(value: (T, T)) -> (r: Self)
        requires
            value.1.value() != 0,
        ensures
            r@ == lowest_terms(value.0.value(), value.1.value()),
            r.is_reduced(),
    {
        Self::new(value.0, value.1)
    }

    /// The ratio moved by octaves into `[1, 2)`, or `None` where it is not
    /// above zero or its normal form does not fit `T`.
    pub fn checked_normalize(&self) -> (r: Option<Self>)
        ensures
            r == (if Self::normalizable(self@) {
                Some(Self::of_pair(normalized(self@)))
            } else {
                None
            }),
            r matches Some(v) ==> v@ == normalized(self@) && v.is_reduced() && in_octave(v@),
    {
        let (n, d) = self.unpack();
        if !((n > 0 && d > 0) || (n < 0 && d < 0)) {
            return None;
        }
        proof {
            lemma_octave_fold(n as int, d as int);
            lemma_normalized(self@);
        }
        let (fn_, fd) = normalize_pair(n, d);
        let (p, q) = reduce(fn_, fd);
        Self::pack(p, q)
    }

    /// The ratio moved by octaves into `[1, 2)`: the numerator is doubled
    /// while the ratio is below one, the denominator while it is two or more,
    /// and the result is reduced.
    pub fn normalize(&self) -> (r: Self)
        requires
            Self::normalizable(self@),
        ensures
            r@ == normalized(self@),
            r.is_reduced(),
            in_octave(r@),
    {
        self.checked_normalize().unwrap()
    }

    /// `self * rhs`, or `None` where a product overflows `T` or the
    /// denominator is zero.
    pub fn checked_mul(self, rhs: Self) -> (r: Option<Self>)
        ensures
            r == (if Self::multipliable(self@, rhs@) {
                Some(Self::of_pair(product(self@, rhs@)))
            } else {
                None
            }),
            r matches Some(v) ==> v@ == product(self@, rhs@) && v.is_reduced(),
    {
        let (a, b) = self.unpack();
        let (c, d) = rhs.unpack();
        Self::checked_new(a, c, b, d)
    }

    /// `self / rhs`, or `None` where a cross product overflows `T` or the
    /// denominator is zero.
    pub fn checked_div(self, rhs: Self) -> (r: Option<Self>)
        ensures
            r == (if Self::dividable(self@, rhs@) {
                Some(Self::of_pair(quotient(self@, rhs@)))
            } else {
                None
            }),
            r matches Some(v) ==> v@ == quotient(self@, rhs@) && v.is_reduced(),
    {
        let (a, b) = self.unpack();
        let (c, d) = rhs.unpack();
        Self::checked_new(a, d, b, c)
    }

    /// The ratio `(a * c) / (b * d)` in lowest terms, if both products fit
    /// `T` and the second is not zero.
    fn checked_new(a: i128, c: i128, b: i128, d: i128) -> (r: Option<Self>)
        requires
            i64::MIN <= a <= i64::MAX,
            i64::MIN <= b <= i64::MAX,
            i64::MIN <= c <= i64::MAX,
            i64::MIN <= d <= i64::MAX,
        ensures
            r == (if fits::<T>(a * c) && fits::<T>(b * d) && b * d != 0 {
                Some(Self::of_pair(lowest_terms(a * c, b * d)))
            } else {
                None
            }),
            r matches Some(v) ==> v@ == lowest_terms(a * c, b * d) && v.is_reduced(),
    {
        proof {
            T::lemma_bounds();
            lemma_product_bound(a as int, c as int);
            lemma_product_bound(b as int, d as int);
        }
        let n = a * c;
        let m = b * d;
        if m == 0 || !in_range::<T>(n) || !in_range::<T>(m) {
            return None;
        }
        proof {
            lemma_lowest_terms(n as int, m as int);
        }
        let (p, q) = reduce(n, m);
        Self::pack(p, q)
    }

    /// The ratio that, multiplied by this one, gives `2/1`, normalized; or
    /// `None` where that division or normalization is not defined.
    pub fn checked_complement(&self) -> (r: Option<Self>)
        ensures
            r == (if Self::complementable(self@) {
                Some(Self::of_pair(complement_of(self@)))
            } else {
                None
            }),
            r matches Some(v) ==> v@ == complement_of(self@) && v.is_reduced() && in_octave(v@),
    {
        let (n, d) = self.unpack();
        match Self::checked_new(2, d, 1, n) {
            Some(q) => q.checked_normalize(),
            None => None,
        }
    }

    /// The ratio that, multiplied by this one, gives `2/1`, normalized: the
    /// interval turned upside down within the octave.
    pub fn complement(&self) -> (r: Self)
        requires
            Self::complementable(self@),
        ensures
            r@ == complement_of(self@),
            r.is_reduced(),
            in_octave(r@),
    {
        self.checked_complement().unwrap()
    }

    /// Both parts raised to a positive `exp`, reduced and normalized.
    fn raise(&self, exp: u32) -> (r: Option<Self>)
        requires
            exp > 0,
        ensures
            r == (if Self::raisable(self@, exp as int) {
                Some(Self::of_pair(power(self@, exp as int)))
            } else {
                None
            }),
            r matches Some(v) ==> v@ == power(self@, exp as int) && v.is_reduced(),
    {
        let (n, d) = self.unpack();
        proof {
            T::lemma_bounds();
        }
        match checked_power(n, exp) {
            Some(a) => match checked_power(d, exp) {
                Some(b) => {
                    if b == 0 || !in_range::<T>(a) || !in_range::<T>(b) {
                        return None;
                    }
                    proof {
                        lemma_lowest_terms(a as int, b as int);
                    }
                    let (p, q) = reduce(a, b);
                    match Self::pack(p, q) {
                        Some(raised) => raised.checked_normalize(),
                        None => None,
                    }
                },
                None => None,
            },
            None => None,
        }
    }

    /// The ratio raised to `exp`, or `None` where a step of that is not
    /// defined or overflows `T`.
    pub fn checked_pow(&self, exp: i32) -> (r: Option<Self>)
        ensures
            r == (if Self::raisable(self@, exp as int) {
                Some(Self::of_pair(power(self@, exp as int)))
            } else {
                None
            }),
            r matches Some(v) ==> v@ == power(self@, exp as int) && v.is_reduced(),
            exp == 0 ==> r == Some(Self::of_pair((1int, 1int))),
    {
        if exp == 0 {
            Some(Self::unison())
        } else if exp < 0 {
            match self.checked_complement() {
                Some(c) => {
                    let e = (-(exp as i64)) as u32;
                    c.raise(e)
                },
                None => None,
            }
        } else {
            self.raise(exp as u32)
        }
    }

    /// The ratio raised to an integral power: `1/1` for a zero exponent, the
    /// normalized power for a positive one, and that power of the complement
    /// for a negative one.
    pub fn pow(&self, exp: i32) -> (r: Self)
        requires
            Self::raisable(self@, exp as int),
        ensures
            r@ == power(self@, exp as int),
            r.is_reduced(),
            exp == 0 ==> r@ == (1int, 1int),
    {
        self.checked_pow(exp).unwrap()
    }

    /// The ratio written as `numer/denom`, both parts in decimal.
    pub open spec fn text(self) -> Seq<char> {
        signed_decimal(self@.0) + seq!['/'] + signed_decimal(self@.1)
    }

    /// Appends the ratio, written as `numer/denom`, to `text`.
    pub fn write_to(&self, text: &mut String)
        ensures
            final(text)@ == old(text)@ + self.text(),
    {
        let ghost before = text@;
        let (n, d) = self.unpack();
        push_signed_decimal(text, n);
        proof {
            reveal_strlit("/");
        }
        text.append("/");
        push_signed_decimal(text, d);
        assert(text@ =~= before + self.text());
    }

    /// The ratio written as `numer/denom`, both parts in decimal.
    pub fn to_string(&self) -> (text: String)
        ensures
            text@ == self.text(),
    {
        let mut text = String::new();
        self.write_to(&mut text);
        assert(Seq::<char>::empty() + self.text() =~= self.text());
        text
    }

    /// The prime limit of the ratio: the larger of the greatest prime factors
    /// of its two parts.
    pub fn limit(&self) -> (r: T)
        ensures
            r.value() == max(largest_prime_factor(self@.0), largest_prime_factor(self@.1)),
    {
        let (n, d) = self.unpack();
        let a = greatest_prime_factor(n);
        let b = greatest_prime_factor(d);
        let m = if a >= b { a } else { b };
        proof {
            T::lemma_bounds();
            T::lemma_of_int(m as int);
        }
        T::narrow(m).unwrap()
    }
}

impl<T: SignedInt> Ratio<T> {
    /// Where `a * b` is defined, the reduced product is representable.
    pub proof fn lemma_product_representable(a: (int, int), b: (int, int))
        requires
            Self::multipliable(a, b),
        ensures
            Self::representable(product(a, b)),
            Self::of_pair(product(a, b))@ == product(a, b),
    {
        T::lemma_bounds();
        lemma_lowest_terms(a.0 * b.0, a.1 * b.1);
        Self::lemma_of_pair(product(a, b));
    }

    /// Where `a / b` is defined, the reduced quotient is representable.
    pub proof fn lemma_quotient_representable(a: (int, int), b: (int, int))
        requires
            Self::dividable(a, b),
        ensures
            Self::representable(quotient(a, b)),
            Self::of_pair(quotient(a, b))@ == quotient(a, b),
    {
        T::lemma_bounds();
        lemma_lowest_terms(a.0 * b.1, a.1 * b.0);
        Self::lemma_of_pair(quotient(a, b));
    }
}

impl<T: SignedInt> Mul<Ratio<T>> for Ratio<T> {
    type Output = Ratio<T>;

    /// Multiplies numerators and denominators, then reduces.
    fn mul(self, rhs: Ratio<T>) -> (r: Ratio<T>) {
        self.checked_mul(rhs).unwrap()
    }
}

impl<T: SignedInt> MulSpecImpl<Ratio<T>> for Ratio<T> {
    open spec fn obeys_mul_spec() -> bool {
        true
    }

    open spec fn mul_req(self, rhs: Ratio<T>) -> bool {
        Self::multipliable(self@, rhs@)
    }

    open spec fn mul_spec(self, rhs: Ratio<T>) -> Ratio<T> {
        Self::of_pair(product(self@, rhs@))
    }
}

impl<T: SignedInt> Div<Ratio<T>> for Ratio<T> {
    type Output = Ratio<T>;

    /// Cross-multiplies, then reduces.
    fn div(self, rhs: Ratio<T>) -> (r: Ratio<T>) {
        self.checked_div(rhs).unwrap()
    }
}

impl<T: SignedInt> DivSpecImpl<Ratio<T>> for Ratio<T> {
    open spec fn obeys_div_spec() -> bool {
        true
    }

    open spec fn div_req(self, rhs: Ratio<T>) -> bool {
        Self::dividable(self@, rhs@)
    }

    open spec fn div_spec(self, rhs: Ratio<T>) -> Ratio<T> {
        Self::of_pair(quotient(self@, rhs@))
    }
}

impl<T: SignedInt> Neg for Ratio<T> {
    type Output = Ratio<T>;

    /// The complement of the ratio.
    fn neg(self) -> (r: Ratio<T>) {
        self.checked_complement().unwrap()
    }
}

impl<T: SignedInt> NegSpecImpl for Ratio<T> {
    open spec fn obeys_neg_spec() -> bool {
        true
    }

    open spec fn neg_req(self) -> bool {
        Self::complementable(self@)
    }

    open spec fn neg_spec(self) -> Ratio<T> {
        Self::of_pair(complement_of(self@))
    }
}

/// The product of two 64-bit integers is well within 128 bits.
proof fn lemma_product_bound(a: int, b: int)
    requires
        i64::MIN <= a <= i64::MAX,
        i64::MIN <= b <= i64::MAX,
    ensures
        -0x4000_0000_0000_0000_0000_0000_0000_0000 <= a * b
            <= 0x4000_0000_0000_0000_0000_0000_0000_0000,
{
    assert(-0x4000_0000_0000_0000_0000_0000_0000_0000 <= a * b
        <= 0x4000_0000_0000_0000_0000_0000_0000_0000) by (nonlinear_arith)
        requires
            -0x8000_0000_0000_0000 <= a <= 0x7fff_ffff_ffff_ffff,
            -0x8000_0000_0000_0000 <= b <= 0x7fff_ffff_ffff_ffff,
    ;
}

} // verus!
