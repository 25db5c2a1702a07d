//! Divisibility, greatest common divisors and primes over the mathematical
//! integers, with the lemmas the arithmetic of ratios rests on.

use vstd::prelude::*;
use vstd::arithmetic::div_mod::{
    lemma_fundamental_div_mod, lemma_mod_multiples_basic, lemma_mod_self_0, lemma_small_mod,
    lemma_truncate_middle,
};
use vstd::math::abs;

verus! {

/// `d` is a positive divisor of `n`.
pub open spec fn divides(d: int, n: int) -> bool {
    d > 0 && n % d == 0
}

/// `p` is at least two and has no divisor strictly between one and itself.
pub open spec fn is_prime(p: int) -> bool {
    p >= 2 && forall|k: int| 2 <= k < p ==> !#[trigger] divides(k, p)
}

/// Euclid's recursion for the greatest common divisor of two naturals;
/// `greatest_common_divisor(0, 0)` is `0`.
pub open spec fn greatest_common_divisor(a: nat, b: nat) -> nat
    decreases b,
{
    if b == 0 {
        a
    } else {
        greatest_common_divisor(b, a % b)
    }
}

/// The two magnitudes share no divisor but one.
pub open spec fn coprime(a: int, b: int) -> bool {
    greatest_common_divisor(abs(a), abs(b)) == 1
}

/// Coefficients `(x, y)` with `x * a + y * b` equal to the greatest common
/// divisor of `a` and `b`.
pub open spec fn bezout(a: nat, b: nat) -> (int, int)
    decreases b,
{
    if b == 0 {
        (1, 0)
    } else {
        let (x, y) = bezout(b, a % b);
        (y, x - y * (a as int / b as int))
    }
}

/// Every multiple of a positive `d` is divisible by `d`.
pub proof fn lemma_divides_multiple(d: int, k: int)
    requires
        d > 0,
    ensures
        divides(d, d * k),
        divides(d, k * d),
{
    lemma_mod_multiples_basic(k, d);
    assert(d * k == k * d) by (nonlinear_arith);
}

/// A number is its divisor times the quotient.
pub proof fn lemma_divides_quotient(d: int, n: int)
    requires
        divides(d, n),
    ensures
        n == d * (n / d),
{
    lemma_fundamental_div_mod(n, d);
}

/// A common divisor of `a` and `b` divides each of their integer combinations.
pub proof fn lemma_divides_combination(d: int, a: int, b: int, x: int, y: int)
    requires
        divides(d, a),
        divides(d, b),
    ensures
        divides(d, x * a + y * b),
{
    lemma_divides_quotient(d, a);
    lemma_divides_quotient(d, b);
    let qa = a / d;
    let qb = b / d;
    assert(x * a + y * b == d * (x * qa + y * qb)) by (nonlinear_arith)
        requires
            a == d * qa,
            b == d * qb,
    ;
    lemma_divides_multiple(d, x * qa + y * qb);
}

/// Divisibility is transitive.
pub proof fn lemma_divides_transitive(a: int, b: int, c: int)
    requires
        divides(a, b),
        divides(b, c),
    ensures
        divides(a, c),
{
    lemma_divides_quotient(a, b);
    lemma_divides_quotient(b, c);
    let q = b / a;
    let r = c / b;
    assert(c == a * (q * r)) by (nonlinear_arith)
        requires
            b == a * q,
            c == b * r,
    ;
    lemma_divides_multiple(a, q * r);
}

/// A divisor of a positive number is no greater than it.
pub proof fn lemma_divides_bound(d: int, n: int)
    requires
        divides(d, n),
        n > 0,
    ensures
        d <= n,
{
    lemma_divides_quotient(d, n);
    let q = n / d;
    assert(d <= n) by (nonlinear_arith)
        requires
            n == d * q,
            n > 0,
            d > 0,
    ;
}

/// The greatest common divisor is positive unless both arguments are zero.
pub proof fn lemma_gcd_positive(a: nat, b: nat)
    requires
        a > 0 || b > 0,
    ensures
        greatest_common_divisor(a, b) > 0,
    decreases b,
{
    if b != 0 {
        lemma_gcd_positive(b, a % b);
    }
}

/// The greatest common divisor is the combination that `bezout` names.
pub proof fn lemma_bezout(a: nat, b: nat)
    ensures
        greatest_common_divisor(a, b) == bezout(a, b).0 * a + bezout(a, b).1 * b,
    decreases b,
{
    if b != 0 {
        lemma_bezout(b, a % b);
        lemma_fundamental_div_mod(a as int, b as int);
        let (x, y) = bezout(b, a % b);
        let q = a as int / b as int;
        let r = a as int % b as int;
        assert(x * b + y * r == y * a + (x - y * q) * b) by (nonlinear_arith)
            requires
                a == b * q + r,
        ;
    }
}

/// The greatest common divisor divides both arguments.
pub proof fn lemma_gcd_divides(a: nat, b: nat)
    requires
        a > 0 || b > 0,
    ensures
        divides(greatest_common_divisor(a, b) as int, a as int),
        divides(greatest_common_divisor(a, b) as int, b as int),
    decreases b,
{
    let g = greatest_common_divisor(a, b) as int;
    if b == 0 {
        lemma_mod_self_0(a as int);
        lemma_small_mod(0, a);
    } else {
        let r = a % b;
        lemma_gcd_divides(b, r);
        lemma_fundamental_div_mod(a as int, b as int);
        let q = a as int / b as int;
        lemma_divides_combination(g, b as int, r as int, q, 1);
        assert(q * b + 1 * r == a) by (nonlinear_arith)
            requires
                a == b * q + r,
        ;
    }
}

/// Whatever divides both arguments divides their greatest common divisor.
pub proof fn lemma_gcd_greatest(a: nat, b: nat, c: int)
    requires
        divides(c, a as int),
        divides(c, b as int),
    ensures
        divides(c, greatest_common_divisor(a, b) as int),
{
    lemma_bezout(a, b);
    lemma_divides_combination(c, a as int, b as int, bezout(a, b).0, bezout(a, b).1);
}

/// A common positive factor comes out of the greatest common divisor.
pub proof fn lemma_gcd_scale(a: nat, b: nat, k: nat)
    requires
        k > 0,
    ensures
        greatest_common_divisor(k * a, k * b) == k * greatest_common_divisor(a, b),
    decreases b,
{
    if b == 0 {
        assert(k * b == 0) by (nonlinear_arith)
            requires
                b == 0,
        ;
    } else {
        assert(k * b > 0) by (nonlinear_arith)
            requires
                k > 0,
                b > 0,
        ;
        lemma_truncate_middle(a as int, k as int, b as int);
        assert((k * a) % (k * b) == k * (a % b));
        lemma_gcd_scale(b, a % b, k);
    }
}

/// Gauss's lemma: a number coprime to one factor of a product it divides
/// divides the other factor.
pub proof fn lemma_coprime_divides_product(a: nat, b: nat, c: int)
    requires
        greatest_common_divisor(a, b) == 1,
        divides(a as int, b * c),
    ensures
        divides(a as int, c),
{
    lemma_bezout(a, b);
    let (x, y) = bezout(a, b);
    lemma_mod_self_0(a as int);
    lemma_divides_combination(a as int, a as int, b * c, x * c, y);
    assert((x * c) * a + y * (b * c) == c) by (nonlinear_arith)
        requires
            1 == x * a + y * b,
    ;
}

/// Two fractions of positive coprime parts with equal cross products are the
/// same fraction.
pub proof fn lemma_coprime_cross_equal(a: nat, b: nat, c: nat, d: nat)
    requires
        a > 0,
        b > 0,
        c > 0,
        d > 0,
        greatest_common_divisor(a, b) == 1,
        greatest_common_divisor(c, d) == 1,
        a * d == c * b,
    ensures
        a == c,
        b == d,
{
    // a divides b * c and is coprime to b, so it divides c; likewise c divides a.
    lemma_divides_multiple(a as int, d as int);
    assert(b * c == a * d) by (nonlinear_arith)
        requires
            a * d == c * b,
    ;
    lemma_coprime_divides_product(a, b, c as int);
    lemma_divides_multiple(c as int, b as int);
    assert(d * a == c * b) by (nonlinear_arith)
        requires
            a * d == c * b,
    ;
    lemma_coprime_divides_product(c, d, a as int);
    lemma_divides_bound(a as int, c as int);
    lemma_divides_bound(c as int, a as int);
    assert(b == d) by (nonlinear_arith)
        requires
            a * d == c * b,
            a == c,
            a > 0,
    ;
}

/// Coprime numbers share no divisor but one.
pub proof fn lemma_coprime_no_common_divisor(a: int, b: int, c: int)
    requires
        coprime(a, b),
        divides(c, a),
        divides(c, b),
    ensures
        c == 1,
{
    lemma_divides_magnitude(c, a);
    lemma_divides_magnitude(c, b);
    lemma_gcd_greatest(abs(a), abs(b), c);
    lemma_divides_bound(c, 1);
}

/// What divides a number divides its magnitude.
pub proof fn lemma_divides_magnitude(c: int, a: int)
    requires
        divides(c, a),
    ensures
        divides(c, abs(a) as int),
{
    if a < 0 {
        lemma_divides_quotient(c, a);
        let q = a / c;
        assert(-a == c * (-q)) by (nonlinear_arith)
            requires
                a == c * q,
        ;
        lemma_divides_multiple(c, -q);
    }
}

/// A prime is coprime to every positive number below it.
pub proof fn lemma_prime_coprime_below(q: nat, p: nat)
    requires
        is_prime(q as int),
        0 < p < q,
    ensures
        greatest_common_divisor(q, p) == 1,
{
    let g = greatest_common_divisor(q, p) as int;
    lemma_gcd_positive(q, p);
    lemma_gcd_divides(q, p);
    lemma_divides_bound(g, p as int);
    if g >= 2 {
        assert(divides(g, q as int));
        assert(false);
    }
}

} // verus!
