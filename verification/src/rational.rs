//! Fractions as pairs of mathematical integers `(numerator, denominator)`:
//! what the operations on a stored ratio compute, free of any width.

use crate::math::{lowest_terms, octave_fold};
use crate::number_theory::{
    coprime, greatest_common_divisor, lemma_divides_quotient, lemma_gcd_divides,
    lemma_gcd_positive, lemma_gcd_scale,
};
use vstd::arithmetic::div_mod::lemma_div_multiples_vanish;
use vstd::arithmetic::power::pow;
use vstd::math::abs;
use vstd::prelude::*;

verus! {

/// Both parts are nonzero and of one sign, so the fraction is above zero.
pub open spec fn positive(r: (int, int)) -> bool {
    (r.0 > 0 && r.1 > 0) || (r.0 < 0 && r.1 < 0)
}

/// The magnitude of the fraction lies in `[1, 2)`.
pub open spec fn in_octave(r: (int, int)) -> bool {
    abs(r.1) <= abs(r.0) < 2 * abs(r.1)
}

/// The denominator is nonzero and shares no divisor with the numerator.
pub open spec fn reduced(r: (int, int)) -> bool {
    r.1 != 0 && coprime(r.0, r.1)
}

/// The fraction folded into the octave `[1, 2)` and brought to lowest terms.
pub open spec fn normalized(r: (int, int)) -> (int, int) {
    let folded = octave_fold(r.0, r.1);
    lowest_terms(folded.0, folded.1)
}

/// Numerators and denominators multiplied, then reduced.
pub open spec fn product(a: (int, int), b: (int, int)) -> (int, int) {
    lowest_terms(a.0 * b.0, a.1 * b.1)
}

/// Cross-multiplied, then reduced.
pub open spec fn quotient(a: (int, int), b: (int, int)) -> (int, int) {
    lowest_terms(a.0 * b.1, a.1 * b.0)
}

/// What `r` has to be multiplied by to give the octave `2/1`, taken back into
/// the octave it started from.
pub open spec fn complement_of(r: (int, int)) -> (int, int) {
    normalized(quotient((2, 1), r))
}

/// `r` stacked `e` times: the unison for `e == 0`, both parts raised to `e`,
/// reduced and normalized for a positive `e`, and the same power of the
/// complement for a negative one.
pub open spec fn power(r: (int, int), e: int) -> (int, int)
    decreases (if e < 0 { 1int } else { 0int }),
{
    if e == 0 {
        (1, 1)
    } else if e < 0 {
        power(complement_of(r), -e)
    } else {
        let raised = lowest_terms(pow(r.0, e as nat), pow(r.1, e as nat));
        normalized(raised)
    }
}

/// What reducing does: both parts are the reduced parts times the common
/// divisor, the reduced parts are coprime, no larger, and of the same signs.
pub proof fn lemma_lowest_terms(n: int, d: int)
    requires
        n != 0 || d != 0,
    ensures
        greatest_common_divisor(abs(n), abs(d)) > 0,
        n == greatest_common_divisor(abs(n), abs(d)) * lowest_terms(n, d).0,
        d == greatest_common_divisor(abs(n), abs(d)) * lowest_terms(n, d).1,
        coprime(lowest_terms(n, d).0, lowest_terms(n, d).1),
        abs(lowest_terms(n, d).0) <= abs(n),
        abs(lowest_terms(n, d).1) <= abs(d),
        n > 0 <==> lowest_terms(n, d).0 > 0,
        n < 0 <==> lowest_terms(n, d).0 < 0,
        d > 0 <==> lowest_terms(n, d).1 > 0,
        d < 0 <==> lowest_terms(n, d).1 < 0,
{
    let g = greatest_common_divisor(abs(n), abs(d)) as int;
    let p = lowest_terms(n, d).0;
    let q = lowest_terms(n, d).1;
    lemma_gcd_positive(abs(n), abs(d));
    lemma_gcd_divides(abs(n), abs(d));
    lemma_signed_exact_division(n, g);
    lemma_signed_exact_division(d, g);
    assert(abs(n) == g * abs(p) && abs(p) <= abs(n)) by (nonlinear_arith)
        requires
            n == g * p,
            g > 0,
    ;
    assert(abs(d) == g * abs(q) && abs(q) <= abs(d)) by (nonlinear_arith)
        requires
            d == g * q,
            g > 0,
    ;
    assert((n > 0 <==> p > 0) && (n < 0 <==> p < 0)) by (nonlinear_arith)
        requires
            n == g * p,
            g > 0,
    ;
    assert((d > 0 <==> q > 0) && (d < 0 <==> q < 0)) by (nonlinear_arith)
        requires
            d == g * q,
            g > 0,
    ;
    lemma_gcd_scale(abs(p), abs(q), g as nat);
    assert(greatest_common_divisor(abs(p), abs(q)) == 1) by (nonlinear_arith)
        requires
            g == g * greatest_common_divisor(abs(p), abs(q)),
            g > 0,
    ;
}

/// A number whose magnitude `g` divides is `g` times its quotient by `g`.
proof fn lemma_signed_exact_division(n: int, g: int)
    requires
        g > 0,
        (abs(n) as int) % g == 0,
    ensures
        n == g * (n / g),
{
    if n >= 0 {
        lemma_divides_quotient(g, n);
    } else {
        lemma_divides_quotient(g, -n);
        let k = (-n) / g;
        assert(n == (-k) * g) by (nonlinear_arith)
            requires
                -n == g * k,
        ;
        lemma_div_multiples_vanish(-k, g);
        assert(n == g * (n / g)) by (nonlinear_arith)
            requires
                n == (-k) * g,
                n / g == -k,
        ;
    }
}

/// Reducing a second time changes nothing.
pub proof fn lemma_lowest_terms_idempotent(n: int, d: int)
    ensures
        lowest_terms(lowest_terms(n, d).0, lowest_terms(n, d).1) == lowest_terms(n, d),
{
    if n != 0 || d != 0 {
        lemma_lowest_terms(n, d);
    }
}

/// Reducing a common positive multiple of both parts gives what reducing the
/// parts gives: `k * n / k * d` and `n / d` are the same ratio.
pub proof fn lemma_lowest_terms_of_multiple(n: int, d: int, k: int)
    requires
        k > 0,
    ensures
        lowest_terms(k * n, k * d) == lowest_terms(n, d),
{
    if n == 0 && d == 0 {
        assert(k * n == 0 && k * d == 0) by (nonlinear_arith)
            requires
                n == 0,
                d == 0,
        ;
    } else {
        lemma_lowest_terms(n, d);
        let g = greatest_common_divisor(abs(n), abs(d)) as int;
        let t = lowest_terms(n, d);
        lemma_gcd_scale(abs(n), abs(d), k as nat);
        assert(abs(k * n) == k * abs(n) && abs(k * d) == k * abs(d)) by (nonlinear_arith)
            requires
                k > 0,
        ;
        assert(k * g > 0 && k * n == (k * g) * t.0 && k * d == (k * g) * t.1) by (nonlinear_arith)
            requires
                k > 0,
                g > 0,
                n == g * t.0,
                d == g * t.1,
        ;
        lemma_div_multiples_vanish(t.0, k * g);
        lemma_div_multiples_vanish(t.1, k * g);
    }
}

/// Under a common negative multiple both reduced parts change sign.
pub proof fn lemma_lowest_terms_of_negative_multiple(n: int, d: int, k: int)
    requires
        k < 0,
    ensures
        lowest_terms(k * n, k * d) == (-lowest_terms(n, d).0, -lowest_terms(n, d).1),
{
    lemma_lowest_terms_of_multiple(-n, -d, -k);
    assert((-k) * (-n) == k * n && (-k) * (-d) == k * d) by (nonlinear_arith);
    if n != 0 || d != 0 {
        lemma_lowest_terms(n, d);
        lemma_lowest_terms(-n, -d);
        let g = greatest_common_divisor(abs(n), abs(d)) as int;
        let t = lowest_terms(n, d);
        let u = lowest_terms(-n, -d);
        assert(u.0 == -t.0 && u.1 == -t.1) by (nonlinear_arith)
            requires
                g > 0,
                n == g * t.0,
                d == g * t.1,
                -n == g * u.0,
                -d == g * u.1,
        ;
    }
}

/// Multiplication does not depend on the order of its factors.
pub proof fn lemma_product_commutative(a: (int, int), b: (int, int))
    ensures
        product(a, b) == product(b, a),
{
    assert(a.0 * b.0 == b.0 * a.0 && a.1 * b.1 == b.1 * a.1) by (nonlinear_arith);
}

/// A positive number over itself is the unison, reduced and normalized.
pub proof fn lemma_unison(x: int)
    requires
        x > 0,
    ensures
        lowest_terms(x, x) == (1int, 1int),
        normalized(lowest_terms(x, x)) == (1int, 1int),
{
    lemma_lowest_terms_of_multiple(1, 1, x);
    assert(x * 1 == x) by (nonlinear_arith);
    reveal_with_fuel(greatest_common_divisor, 2);
    assert(greatest_common_divisor(1, 1) == 1);
    assert(lowest_terms(1, 1) == (1int, 1int));
    assert(octave_fold(1, 1) == (1int, 1int));
}

/// What folding does to nonzero parts: the result lies in the octave, the
/// signs stay, and only the smaller-valued side was doubled.
pub proof fn lemma_octave_fold(n: int, d: int)
    requires
        n != 0,
        d != 0,
    ensures
        in_octave(octave_fold(n, d)),
        n > 0 <==> octave_fold(n, d).0 > 0,
        d > 0 <==> octave_fold(n, d).1 > 0,
        abs(n) < abs(d) ==> octave_fold(n, d).1 == d,
        abs(n) >= abs(d) ==> octave_fold(n, d).0 == n,
    decreases
        (if abs(n) < abs(d) { 1int } else { 0int }),
        (if abs(n) < abs(d) { abs(d) - abs(n) } else { abs(n) - abs(d) }),
{
    if abs(n) < abs(d) {
        lemma_octave_fold(2 * n, d);
    } else if abs(n) >= 2 * abs(d) {
        lemma_octave_fold(n, 2 * d);
    }
}

/// A normalized positive fraction is reduced, lies in the octave and keeps
/// the signs of what it came from.
pub proof fn lemma_normalized(r: (int, int))
    requires
        r.0 != 0,
        r.1 != 0,
    ensures
        reduced(normalized(r)),
        in_octave(normalized(r)),
        r.0 > 0 <==> normalized(r).0 > 0,
        r.1 > 0 <==> normalized(r).1 > 0,
        abs(normalized(r).0) <= abs(octave_fold(r.0, r.1).0),
        abs(normalized(r).1) <= abs(octave_fold(r.0, r.1).1),
{
    lemma_octave_fold(r.0, r.1);
    let f = octave_fold(r.0, r.1);
    lemma_lowest_terms(f.0, f.1);
    let g = greatest_common_divisor(abs(f.0), abs(f.1)) as int;
    let p = normalized(r).0;
    let q = normalized(r).1;
    assert(abs(q) <= abs(p) < 2 * abs(q)) by (nonlinear_arith)
        requires
            f.0 == g * p,
            f.1 == g * q,
            g > 0,
            abs(f.1) <= abs(f.0) < 2 * abs(f.1),
    ;
}

} // verus!
