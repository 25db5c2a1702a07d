//! Integer helpers shared by the ratio and lattice code: reduction to lowest
//! terms, a remainder that keeps the sign of its modulus, the greatest prime
//! factor and the folding of a fraction into one octave.
//!
//! Everything here works on `i128`, the type ratios of every width are
//! widened to.

use crate::number_theory::{
    divides, greatest_common_divisor, is_prime, lemma_coprime_divides_product,
    lemma_divides_bound, lemma_divides_multiple, lemma_divides_quotient, lemma_divides_transitive,
    lemma_gcd_divides, lemma_gcd_positive, lemma_prime_coprime_below,
};
use vstd::arithmetic::div_mod::{
    lemma_div_multiples_vanish, lemma_fundamental_div_mod, lemma_mod_add_multiples_vanish,
    lemma_mod_multiples_vanish, lemma_mod_self_0, lemma_mod_twice, lemma_small_mod,
};
use vstd::arithmetic::power::pow;
use vstd::math::abs;
use vstd::prelude::*;

verus! {

/// The pair `(n, d)` with the greatest common divisor of the magnitudes taken
/// out of both, so that each part keeps its sign; `(0, 0)` is left as it is.
pub open spec fn lowest_terms(n: int, d: int) -> (int, int) {
    let g = greatest_common_divisor(abs(n), abs(d)) as int;
    if g == 0 {
        (n, d)
    } else {
        (n / g, d / g)
    }
}

/// `a` brought into the half-open range between zero and `b`: `[0, b)` for a
/// positive `b`, `(b, 0]` for a negative one, moving by multiples of `b`.
pub open spec fn wrapped(a: int, b: int) -> int {
    if b > 0 {
        a % b
    } else {
        -((-a) % (-b))
    }
}

/// The fraction `n / d` moved by octaves, doubling `n` while the magnitude of
/// the fraction is below one and `d` while it is two or more, until it lies in
/// `[1, 2)`. The signs of both parts stay; a zero part ends the folding.
pub open spec fn octave_fold(n: int, d: int) -> (int, int)
    decreases
        (if abs(n) < abs(d) { 1int } else { 0int }),
        (if abs(n) < abs(d) { abs(d) - abs(n) } else { abs(n) - abs(d) }),
{
    if n == 0 || d == 0 {
        (n, d)
    } else if abs(n) < abs(d) {
        octave_fold(2 * n, d)
    } else if abs(n) >= 2 * abs(d) {
        octave_fold(n, 2 * d)
    } else {
        (n, d)
    }
}

/// Folding never shrinks the numerator, and leaves it its sign.
pub proof fn lemma_octave_fold_numerator(n: int, d: int)
    ensures
        abs(octave_fold(n, d).0) >= abs(n),
        n > 0 <==> octave_fold(n, d).0 > 0,
    decreases
        (if abs(n) < abs(d) { 1int } else { 0int }),
        (if abs(n) < abs(d) { abs(d) - abs(n) } else { abs(n) - abs(d) }),
{
    if n == 0 || d == 0 {
    } else if abs(n) < abs(d) {
        lemma_octave_fold_numerator(2 * n, d);
    } else if abs(n) >= 2 * abs(d) {
        lemma_octave_fold_numerator(n, 2 * d);
    }
}

/// Exact division commutes with negation.
proof fn lemma_exact_division_of_negative(a: int, g: int)
    requires
        divides(g, a),
    ensures
        (-a) / g == -(a / g),
        divides(g, -a),
{
    lemma_divides_quotient(g, a);
    let q = a / g;
    assert(-a == (-q) * g) by (nonlinear_arith)
        requires
            a == g * q,
    ;
    lemma_div_multiples_vanish(-q, g);
    lemma_divides_multiple(g, -q);
}

/// A remainder does not depend on the sign of the modulus.
proof fn lemma_negative_modulus(x: int, b: int)
    requires
        b != 0,
    ensures
        x % b == x % (abs(b) as int),
{
    if b < 0 {
        assert(x % b == x % (-b)) by (nonlinear_arith)
            requires
                b < 0,
        ;
    }
}

/// The magnitude of `x`.
fn magnitude(x: i128) -> (m: u128)
    ensures
        m == abs(x as int),
{
    if x == i128::MIN {
        0x8000_0000_0000_0000_0000_0000_0000_0000
    } else if x < 0 {
        (-x) as u128
    } else {
        x as u128
    }
}

/// Euclid's algorithm on the magnitudes of `a` and `b`.
fn gcd_of_magnitudes(a: i128, b: i128) -> (g: u128)
    ensures
        g == greatest_common_divisor(abs(a as int), abs(b as int)),
{
    let mut x = magnitude(a);
    let mut y = magnitude(b);
    while y != 0
        invariant
            greatest_common_divisor(x as nat, y as nat) == greatest_common_divisor(
                abs(a as int),
                abs(b as int),
            ),
        decreases y,
    {
        let t = x % y;
        x = y;
        y = t;
    }
    x
}

/// The greatest common divisor of the magnitudes of `a` and `b`, by Euclid's
/// algorithm. The one divisor that is no `i128`, that of `i128::MIN` with
/// itself or with zero, is left out.
pub fn gcd(a: i128, b: i128) -> (g: i128)
    requires
        greatest_common_divisor(abs(a as int), abs(b as int)) <= i128::MAX,
    ensures
        g == greatest_common_divisor(abs(a as int), abs(b as int)),
{
    gcd_of_magnitudes(a, b) as i128
}

/// Divides both `a` and `b` by the greatest common divisor of their
/// magnitudes. Each part keeps its sign.
pub fn reduce(a: i128, b: i128) -> (r: (i128, i128))
    requires
        b != 0,
    ensures
        (r.0 as int, r.1 as int) == lowest_terms(a as int, b as int),
{
    let g = gcd_of_magnitudes(a, b);
    proof {
        lemma_gcd_positive(abs(a as int), abs(b as int));
        lemma_gcd_divides(abs(a as int), abs(b as int));
        lemma_divides_bound(g as int, abs(b as int) as int);
        if a != 0 {
            lemma_divides_bound(g as int, abs(a as int) as int);
        }
        if a < 0 {
            lemma_exact_division_of_negative(-a as int, g as int);
        }
        if b < 0 {
            lemma_exact_division_of_negative(-b as int, g as int);
        }
    }
    if g > i128::MAX as u128 {
        // Only `i128::MIN` has so large a divisor.
        proof {
            vstd::arithmetic::div_mod::lemma_div_by_self(g as int);
        }
        (if a == 0 { 0 } else { -1 }, -1)
    } else {
        let g = g as i128;
        (a / g, b / g)
    }
}

/// `((a % b) + b) % b` in `i64`, where the sum cannot overflow.
pub(crate) fn wrap(a: i64, b: i64) -> (r: i64)
    requires
        b != 0,
        -0x4000_0000_0000_0000 <= a <= 0x4000_0000_0000_0000,
        -0x4000_0000_0000_0000 <= b <= 0x4000_0000_0000_0000,
    ensures
        r == wrapped(a as int, b as int),
        b > 0 ==> 0 <= r < b,
        b < 0 ==> b < r <= 0,
{
    let t = a % b;
    let r = (t + b) % b;
    proof {
        let m = abs(b as int) as int;
        let ai = a as int;
        let bi = b as int;
        let ti = t as int;
        lemma_negative_modulus(ai, bi);
        lemma_negative_modulus(-ai, bi);
        lemma_negative_modulus(ti + bi, bi);
        lemma_negative_modulus(-(ti + bi), bi);
        // `t` is congruent to `a` modulo `m`, in both directions.
        if ai >= 0 {
            assert(ti == ai % m);
            lemma_mod_twice(ai, m);
            lemma_fundamental_div_mod(ai, m);
            lemma_mod_multiples_vanish(-(ai / m), -ti, m);
            assert(m * -(ai / m) + -ti == -ai) by (nonlinear_arith)
                requires
                    ai == m * (ai / m) + ti,
            ;
            assert((-ti) % m == (-ai) % m);
        } else {
            assert(ti == -((-ai) % m));
            lemma_mod_twice(-ai, m);
            lemma_fundamental_div_mod(-ai, m);
            lemma_mod_multiples_vanish(-((-ai) / m), ti, m);
            assert(m * -((-ai) / m) + ti == ai) by (nonlinear_arith)
                requires
                    -ai == m * ((-ai) / m) + -ti,
            ;
            assert(ti % m == ai % m);
        }
        assert(ti % m == ai % m);
        assert((-ti) % m == (-ai) % m);
        if bi > 0 {
            lemma_mod_add_multiples_vanish(ti, m);
        } else {
            lemma_mod_add_multiples_vanish(-ti, m);
        }
    }
    r
}

/// A remainder that takes the sign of the modulus: `((a % b) + b) % b` with
/// Rust's truncating `%`. For a positive `b` the result lies in `[0, b)`
/// whatever the sign of `a`; for a negative `b` it lies in `(b, 0]`.
pub fn sign_preserving_mod(a: i32, b: i32) -> (r: i32)
    requires
        b != 0,
    ensures
        r == wrapped(a as int, b as int),
        b > 0 ==> 0 <= r < b,
        b < 0 ==> b < r <= 0,
{
    wrap(a as i64, b as i64) as i32
}

/// `p` is a prime factor of `a` that no prime factor of `a` exceeds.
pub open spec fn is_largest_prime_factor(p: int, a: int) -> bool {
    &&& is_prime(p)
    &&& divides(p, a)
    &&& forall|q: int| is_prime(q) && #[trigger] divides(q, a) ==> q <= p
}

/// The largest prime factor of `a`; for `a` below two, which has none, it is
/// two.
pub open spec fn largest_prime_factor(a: int) -> int {
    if a <= 1 {
        2
    } else {
        choose|p: int| is_largest_prime_factor(p, a)
    }
}

/// The largest prime that divides `a`, found by trial division from two
/// upward. Numbers below two have no prime factor; for them the first trial
/// divisor, two, comes back.
pub fn greatest_prime_factor(a: i128) -> (p: i128)
    ensures
        p == largest_prime_factor(a as int),
        a <= 1 ==> p == 2,
        a > 1 ==> is_largest_prime_factor(p as int, a as int),
        2 <= p,
        a > 1 ==> p <= a,
{
    let mut rest = a;
    let mut p: i128 = 2;
    while rest > 1
        invariant
            2 <= p,
            a <= 1 ==> rest == a && p == 2,
            a > 1 ==> 1 <= rest <= a && divides(rest as int, a as int),
            rest > 1 ==> p <= rest,
            forall|k: int| 2 <= k < p ==> !#[trigger] divides(k, rest as int),
            forall|q: int|
                is_prime(q) && #[trigger] divides(q, a as int) ==> divides(q, rest as int) || q
                    <= p,
            rest == 1 && a > 1 ==> is_prime(p as int) && divides(p as int, a as int),
        decreases rest, rest - p,
    {
        if rest % p == 0 {
            let ghost before = rest as int;
            rest = rest / p;
            proof {
                let pi = p as int;
                let after = rest as int;
                assert(divides(pi, before));
                lemma_divides_quotient(pi, before);
                assert(before == pi * after);
                assert(after >= 1 && after < before) by (nonlinear_arith)
                    requires
                        before == pi * after,
                        pi >= 2,
                        before > 1,
                ;
                lemma_divides_multiple(after, pi);
                assert(divides(after, before)) by {
                    assert(after * pi == pi * after) by (nonlinear_arith);
                }
                lemma_divides_transitive(after, before, a as int);
                lemma_divides_transitive(pi, before, a as int);
                assert forall|k: int| 2 <= k < pi implies !#[trigger] divides(k, after) by {
                    if divides(k, after) {
                        lemma_divides_transitive(k, after, before);
                    }
                }
                assert(is_prime(pi)) by {
                    assert forall|k: int| 2 <= k < pi implies !#[trigger] divides(k, pi) by {
                        if divides(k, pi) {
                            lemma_divides_transitive(k, pi, before);
                        }
                    }
                }
                assert forall|q: int| is_prime(q) && #[trigger] divides(q, a as int) implies (
                divides(q, after) || q <= pi) by {
                    if q > pi {
                        assert(divides(q, before));
                        lemma_prime_coprime_below(q as nat, pi as nat);
                        lemma_coprime_divides_product(q as nat, pi as nat, after);
                    }
                }
                if after > 1 && pi > after {
                    lemma_mod_self_0(after);
                    assert(divides(after, after));
                }
            }
        } else {
            proof {
                if p == rest {
                    lemma_mod_self_0(rest as int);
                }
            }
            p = p + 1;
        }
    }
    proof {
        if a > 1 {
            assert forall|q: int| is_prime(q) && #[trigger] divides(q, a as int) implies q
                <= p by {
                if divides(q, rest as int) {
                    lemma_small_mod(1, q as nat);
                }
            }
            assert(is_largest_prime_factor(p as int, a as int));
            let c = largest_prime_factor(a as int);
            assert(is_largest_prime_factor(c, a as int));
            lemma_divides_bound(p as int, a as int);
        }
    }
    p
}

/// Wraps `num::traits::checked_pow` at `i128`: `base` raised to `exp` by
/// repeated squaring with checked multiplication. The claim is that `None`
/// comes back exactly when the power itself is out of range: every square
/// and partial product the routine forms is, in magnitude, no larger than
/// the final power.
#[verifier::external_body]
pub(crate) fn checked_power(base: i128, exp: u32) -> (r: Option<i128>)
    ensures
        r == (if i128::MIN <= pow(base as int, exp as nat) <= i128::MAX {
            Some(pow(base as int, exp as nat) as i128)
        } else {
            None
        }),
{
    num::traits::checked_pow(base, exp as usize)
}

/// Folds the positive fraction `a / b` into the octave `[1, 2)`, doubling the
/// numerator while the fraction is below one and the denominator while it is
/// two or more. Nothing is reduced.
pub fn normalize_pair(a: i128, b: i128) -> (r: (i128, i128))
    requires
        (a > 0 && b > 0) || (a < 0 && b < 0),
        i128::MIN <= octave_fold(a as int, b as int).0 <= i128::MAX,
    ensures
        (r.0 as int, r.1 as int) == octave_fold(a as int, b as int),
{
    let mut n = a;
    let mut d = b;
    while magnitude(n) < magnitude(d)
        invariant
            (n > 0 && d > 0) || (n < 0 && d < 0),
            octave_fold(n as int, d as int) == octave_fold(a as int, b as int),
            i128::MIN <= octave_fold(a as int, b as int).0 <= i128::MAX,
        decreases
            (if abs(n as int) < abs(d as int) {
                abs(d as int) - abs(n as int)
            } else {
                0
            }),
    {
        proof {
            lemma_octave_fold_numerator(2 * n, d as int);
        }
        n = 2 * n;
    }
    while magnitude(n) / 2 >= magnitude(d)
        invariant
            (n > 0 && d > 0) || (n < 0 && d < 0),
            abs(n as int) >= abs(d as int),
            octave_fold(n as int, d as int) == octave_fold(a as int, b as int),
        decreases abs(n as int) - abs(d as int),
    {
        d = 2 * d;
    }
    (n, d)
}

} // verus!
