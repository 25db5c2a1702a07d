//! Octave equivalence: fractions that differ by a power of two have the same
//! normal form. On this rest the identities that normalization, complements
//! and powers of ratios obey.

use crate::math::{lowest_terms, octave_fold};
use crate::number_theory::{greatest_common_divisor, lemma_coprime_cross_equal};
use crate::rational::{
    complement_of, in_octave, lemma_lowest_terms, lemma_lowest_terms_idempotent,
    lemma_lowest_terms_of_multiple, lemma_normalized, lemma_octave_fold, normalized, positive,
    power, product, quotient, reduced,
};
use vstd::arithmetic::mul::lemma_mul_equality_converse;
use vstd::arithmetic::power::{
    lemma1_pow, lemma_pow0, lemma_pow1, lemma_pow_adds, lemma_pow_distributes,
    lemma_pow_multiplies, lemma_pow_positive, pow,
};
use vstd::math::abs;
use vstd::prelude::*;

verus! {

/// The fraction turned upside down.
pub open spec fn inverse(r: (int, int)) -> (int, int) {
    (r.1, r.0)
}

/// Both parts of the fraction raised to `e`.
pub open spec fn raised(r: (int, int), e: nat) -> (int, int) {
    (pow(r.0, e), pow(r.1, e))
}

/// The corresponding parts of the two fractions have the same sign.
pub open spec fn same_signs(r: (int, int), s: (int, int)) -> bool {
    &&& r.0 > 0 <==> s.0 > 0
    &&& r.0 < 0 <==> s.0 < 0
    &&& r.1 > 0 <==> s.1 > 0
    &&& r.1 < 0 <==> s.1 < 0
}

/// `r` taken `up` octaves up is `s` taken `down` octaves up: as fractions,
/// `r * 2^up == s * 2^down`, written without division.
pub open spec fn octaves_apart(r: (int, int), s: (int, int), up: nat, down: nat) -> bool {
    r.0 * s.1 * pow(2, up) == s.0 * r.1 * pow(2, down)
}

/// How often `octave_fold` doubles the numerator.
pub open spec fn fold_up(n: int, d: int) -> nat
    decreases
        (if abs(n) < abs(d) { 1int } else { 0int }),
        (if abs(n) < abs(d) { abs(d) - abs(n) } else { abs(n) - abs(d) }),
{
    if n == 0 || d == 0 {
        0
    } else if abs(n) < abs(d) {
        fold_up(2 * n, d) + 1
    } else {
        0
    }
}

/// How often `octave_fold` doubles the denominator.
pub open spec fn fold_down(n: int, d: int) -> nat
    decreases
        (if abs(n) < abs(d) { 1int } else { 0int }),
        (if abs(n) < abs(d) { abs(d) - abs(n) } else { abs(n) - abs(d) }),
{
    if n == 0 || d == 0 {
        0
    } else if abs(n) < abs(d) {
        0
    } else if abs(n) >= 2 * abs(d) {
        fold_down(n, 2 * d) + 1
    } else {
        0
    }
}

/// Being octaves apart carries over a fraction in the middle.
pub proof fn lemma_octaves_apart_transitive(
    r: (int, int),
    s: (int, int),
    t: (int, int),
    a: nat,
    b: nat,
    x: nat,
    y: nat,
)
    requires
        octaves_apart(r, s, a, b),
        octaves_apart(s, t, x, y),
        s.0 != 0,
        s.1 != 0,
    ensures
        octaves_apart(r, t, a + x, b + y),
{
    lemma_pow_adds(2, a, x);
    lemma_pow_adds(2, b, y);
    let pa = pow(2, a);
    let pb = pow(2, b);
    let px = pow(2, x);
    let py = pow(2, y);
    let p = r.0 * pa;
    let q = r.1 * pb;
    let u = t.1 * px;
    let v = t.0 * py;
    assert(p * s.1 == r.0 * s.1 * pa) by (nonlinear_arith)
        requires
            p == r.0 * pa,
    ;
    assert(s.0 * q == s.0 * r.1 * pb) by (nonlinear_arith)
        requires
            q == r.1 * pb,
    ;
    assert(s.0 * u == s.0 * t.1 * px) by (nonlinear_arith)
        requires
            u == t.1 * px,
    ;
    assert(s.1 * v == t.0 * s.1 * py) by (nonlinear_arith)
        requires
            v == t.0 * py,
    ;
    lemma_cross_chain(p, q, u, v, s.0, s.1);
    assert(r.0 * t.1 * (pa * px) == p * u) by (nonlinear_arith)
        requires
            p == r.0 * pa,
            u == t.1 * px,
    ;
    assert(t.0 * r.1 * (pb * py) == q * v) by (nonlinear_arith)
        requires
            q == r.1 * pb,
            v == t.0 * py,
    ;
}

/// From `p / q == s0 / s1` and `s0 / s1 == v / u`, written as cross
/// products, follows `p / q == v / u`.
proof fn lemma_cross_chain(p: int, q: int, u: int, v: int, s0: int, s1: int)
    requires
        p * s1 == s0 * q,
        s0 * u == s1 * v,
        s1 != 0,
    ensures
        p * u == q * v,
{
    assert(s1 * (p * u) == (p * s1) * u) by (nonlinear_arith);
    assert((s0 * q) * u == q * (s0 * u)) by (nonlinear_arith);
    assert(q * (s1 * v) == s1 * (q * v)) by (nonlinear_arith);
    lemma_mul_equality_converse(s1, p * u, q * v);
}

/// Being octaves apart reads both ways.
pub proof fn lemma_octaves_apart_symmetric(r: (int, int), s: (int, int), a: nat, b: nat)
    requires
        octaves_apart(r, s, a, b),
    ensures
        octaves_apart(s, r, b, a),
{
}

/// Fractions octaves apart have inverses octaves apart, the other way round.
pub proof fn lemma_octaves_apart_inverse(r: (int, int), s: (int, int), a: nat, b: nat)
    requires
        octaves_apart(r, s, a, b),
    ensures
        octaves_apart(inverse(r), inverse(s), b, a),
{
    let pa = pow(2, a);
    let pb = pow(2, b);
    assert(r.1 * s.0 * pb == s.1 * r.0 * pa) by (nonlinear_arith)
        requires
            r.0 * s.1 * pa == s.0 * r.1 * pb,
    ;
}

/// Reducing does not move a fraction.
pub proof fn lemma_octaves_apart_lowest_terms(r: (int, int))
    ensures
        octaves_apart(r, lowest_terms(r.0, r.1), 0, 0),
        octaves_apart(lowest_terms(r.0, r.1), r, 0, 0),
{
    let t = lowest_terms(r.0, r.1);
    if r.0 != 0 || r.1 != 0 {
        lemma_lowest_terms(r.0, r.1);
        let g = greatest_common_divisor(abs(r.0), abs(r.1)) as int;
        assert(r.0 * t.1 == t.0 * r.1) by (nonlinear_arith)
            requires
                r.0 == g * t.0,
                r.1 == g * t.1,
        ;
    }
    lemma_pow0(2);
    assert(r.0 * t.1 * 1 == t.0 * r.1 * 1) by (nonlinear_arith)
        requires
            r.0 * t.1 == t.0 * r.1,
    ;
}

/// Folding moves a fraction by as many octaves as it doubles.
pub proof fn lemma_octaves_apart_fold(n: int, d: int)
    ensures
        octave_fold(n, d).0 == n * pow(2, fold_up(n, d)),
        octave_fold(n, d).1 == d * pow(2, fold_down(n, d)),
        octaves_apart((n, d), octave_fold(n, d), fold_up(n, d), fold_down(n, d)),
    decreases
        (if abs(n) < abs(d) { 1int } else { 0int }),
        (if abs(n) < abs(d) { abs(d) - abs(n) } else { abs(n) - abs(d) }),
{
    lemma_pow0(2);
    lemma_pow1(2);
    let f = octave_fold(n, d);
    if n == 0 || d == 0 {
    } else if abs(n) < abs(d) {
        lemma_octaves_apart_fold(2 * n, d);
        lemma_octave_fold(2 * n, d);
        let u = fold_up(2 * n, d);
        lemma_pow_adds(2, u, 1);
        assert(fold_down(2 * n, d) == 0);
        assert(n * (pow(2, u) * 2) == (2 * n) * pow(2, u)) by (nonlinear_arith);
    } else if abs(n) >= 2 * abs(d) {
        lemma_octaves_apart_fold(n, 2 * d);
        let v = fold_down(n, 2 * d);
        lemma_pow_adds(2, v, 1);
        assert(fold_up(n, 2 * d) == 0);
        assert(d * (pow(2, v) * 2) == (2 * d) * pow(2, v)) by (nonlinear_arith);
    }
    let pu = pow(2, fold_up(n, d));
    let pv = pow(2, fold_down(n, d));
    assert(n * f.1 * pu == f.0 * d * pv) by (nonlinear_arith)
        requires
            f.0 == n * pu,
            f.1 == d * pv,
    ;
}

/// Normalizing moves a fraction by whole octaves only.
pub proof fn lemma_octaves_apart_normalized(r: (int, int))
    requires
        r.0 != 0,
        r.1 != 0,
    ensures
        octaves_apart(r, normalized(r), fold_up(r.0, r.1), fold_down(r.0, r.1)),
{
    let f = octave_fold(r.0, r.1);
    lemma_octaves_apart_fold(r.0, r.1);
    lemma_octave_fold(r.0, r.1);
    lemma_octaves_apart_lowest_terms(f);
    lemma_octaves_apart_transitive(
        r,
        f,
        normalized(r),
        fold_up(r.0, r.1),
        fold_down(r.0, r.1),
        0,
        0,
    );
}

/// Two values within one octave that are whole octaves apart are equal.
proof fn lemma_octave_value_unique(n1: int, d1: int, n2: int, d2: int, a: nat, b: nat)
    requires
        0 < d1 <= n1 < 2 * d1,
        0 < d2 <= n2 < 2 * d2,
        n1 * d2 * pow(2, a) == n2 * d1 * pow(2, b),
    ensures
        n1 * d2 == n2 * d1,
{
    let x = n1 * d2;
    let y = n2 * d1;
    let z = d1 * d2;
    assert(z <= x < 2 * z && z <= y < 2 * z && z > 0) by (nonlinear_arith)
        requires
            x == n1 * d2,
            y == n2 * d1,
            z == d1 * d2,
            0 < d1 <= n1 < 2 * d1,
            0 < d2 <= n2 < 2 * d2,
    ;
    if a > b {
        lemma_octave_gap(x, y, z, (a - b) as nat, b);
    } else if a < b {
        lemma_octave_gap(y, x, z, (b - a) as nat, a);
    } else {
        lemma_pow_positive(2, a);
        assert(pow(2, a) * x == x * pow(2, a) && pow(2, a) * y == y * pow(2, a))
            by (nonlinear_arith);
        lemma_mul_equality_converse(pow(2, a), x, y);
    }
}

/// Two values between `z` and `2 * z` are not a positive number of octaves
/// apart.
proof fn lemma_octave_gap(x: int, y: int, z: int, k: nat, b: nat)
    requires
        0 < z <= x < 2 * z,
        z <= y < 2 * z,
        k > 0,
    ensures
        x * pow(2, k + b) != y * pow(2, b),
{
    lemma_pow_adds(2, k, b);
    lemma_pow_adds(2, 1, (k - 1) as nat);
    lemma_pow1(2);
    lemma_pow_positive(2, (k - 1) as nat);
    lemma_pow_positive(2, b);
    let pk = pow(2, k);
    let pb = pow(2, b);
    assert(pk >= 2);
    assert(pb * (x * pk) == x * (pk * pb) && pb * y == y * pb) by (nonlinear_arith);
    if x * (pk * pb) == y * pb {
        lemma_mul_equality_converse(pb, x * pk, y);
    }
    assert(x * pk >= 2 * x) by (nonlinear_arith)
        requires
            pk >= 2,
            x > 0,
    ;
}

/// The normal form is the one reduced fraction within the octave that lies
/// whole octaves from `r` and has its signs.
pub proof fn lemma_normal_form_unique(r: (int, int), s: (int, int), a: nat, b: nat)
    requires
        positive(r),
        positive(s),
        same_signs(r, s),
        in_octave(s),
        reduced(s),
        octaves_apart(r, s, a, b),
    ensures
        normalized(r) == s,
{
    let t = normalized(r);
    let u = fold_up(r.0, r.1);
    let v = fold_down(r.0, r.1);
    lemma_normalized(r);
    lemma_octaves_apart_normalized(r);
    lemma_octaves_apart_symmetric(r, t, u, v);
    lemma_octaves_apart_transitive(t, r, s, v, u, a, b);
    let t0 = abs(t.0) as int;
    let t1 = abs(t.1) as int;
    let s0 = abs(s.0) as int;
    let s1 = abs(s.1) as int;
    assert(t.0 * s.1 == t0 * s1 && s.0 * t.1 == s0 * t1) by (nonlinear_arith)
        requires
            (t.0 == t0 && t.1 == t1 && s.0 == s0 && s.1 == s1) || (t.0 == -t0 && t.1 == -t1 && s.0
                == -s0 && s.1 == -s1),
    ;
    lemma_octave_value_unique(t0, t1, s0, s1, v + a, u + b);
    lemma_coprime_cross_equal(t0 as nat, t1 as nat, s0 as nat, s1 as nat);
}

/// Positive fractions whole octaves apart, of the same signs, have the same
/// normal form.
pub proof fn lemma_normalized_equal(r: (int, int), s: (int, int), a: nat, b: nat)
    requires
        positive(r),
        positive(s),
        same_signs(r, s),
        octaves_apart(r, s, a, b),
    ensures
        normalized(r) == normalized(s),
{
    let t = normalized(s);
    lemma_normalized(s);
    lemma_octaves_apart_normalized(s);
    lemma_octaves_apart_transitive(r, s, t, a, b, fold_up(s.0, s.1), fold_down(s.0, s.1));
    lemma_normal_form_unique(r, t, a + fold_up(s.0, s.1), b + fold_down(s.0, s.1));
}

/// Normalizing is idempotent: a normal form is its own normal form.
pub proof fn lemma_normalized_idempotent(r: (int, int))
    ensures
        normalized(normalized(r)) == normalized(r),
{
    let t = normalized(r);
    if r.0 == 0 || r.1 == 0 {
        assert(t == lowest_terms(r.0, r.1));
        lemma_lowest_terms_idempotent(r.0, r.1);
        if r.0 != 0 || r.1 != 0 {
            lemma_lowest_terms(r.0, r.1);
        }
        assert(t.0 == 0 || t.1 == 0);
        assert(octave_fold(t.0, t.1) == t);
    } else {
        lemma_normalized(r);
        assert(octave_fold(t.0, t.1) == t);
        assert(lowest_terms(t.0, t.1) == t);
    }
}

/// Two positive fractions of the same signs that lie whole octaves apart: the
/// same pitch in different octaves.
pub open spec fn same_pitch_class(r: (int, int), s: (int, int)) -> bool {
    &&& positive(r)
    &&& positive(s)
    &&& same_signs(r, s)
    &&& exists|a: nat, b: nat| #[trigger] octaves_apart(r, s, a, b)
}

/// Pitch classes read both ways.
pub proof fn lemma_pitch_class_symmetric(r: (int, int), s: (int, int))
    requires
        same_pitch_class(r, s),
    ensures
        same_pitch_class(s, r),
{
    let (a, b) = choose|a: nat, b: nat| #[trigger] octaves_apart(r, s, a, b);
    assert(octaves_apart(s, r, b, a));
}

/// Pitch classes carry over a fraction in the middle.
pub proof fn lemma_pitch_class_transitive(r: (int, int), s: (int, int), t: (int, int))
    requires
        same_pitch_class(r, s),
        same_pitch_class(s, t),
    ensures
        same_pitch_class(r, t),
{
    let (a, b) = choose|a: nat, b: nat| #[trigger] octaves_apart(r, s, a, b);
    let (x, y) = choose|x: nat, y: nat| #[trigger] octaves_apart(s, t, x, y);
    lemma_octaves_apart_transitive(r, s, t, a, b, x, y);
}

/// Fractions of one pitch class have inverses of one pitch class.
pub proof fn lemma_pitch_class_inverse(r: (int, int), s: (int, int))
    requires
        same_pitch_class(r, s),
    ensures
        same_pitch_class(inverse(r), inverse(s)),
{
    let (a, b) = choose|a: nat, b: nat| #[trigger] octaves_apart(r, s, a, b);
    lemma_octaves_apart_inverse(r, s, a, b);
}

/// Doubling the numerator keeps the pitch class.
pub proof fn lemma_pitch_class_octave_up(r: (int, int))
    requires
        positive(r),
    ensures
        same_pitch_class((2 * r.0, r.1), r),
{
    lemma_pow0(2);
    lemma_pow1(2);
    assert((2 * r.0) * r.1 * 1 == r.0 * r.1 * 2) by (nonlinear_arith);
    assert(octaves_apart((2 * r.0, r.1), r, 0, 1));
}

/// Reducing keeps the pitch class.
pub proof fn lemma_pitch_class_lowest_terms(r: (int, int))
    requires
        positive(r),
    ensures
        same_pitch_class(lowest_terms(r.0, r.1), r),
{
    lemma_lowest_terms(r.0, r.1);
    lemma_octaves_apart_lowest_terms(r);
}

/// Normalizing keeps the pitch class.
pub proof fn lemma_pitch_class_normalized(r: (int, int))
    requires
        positive(r),
    ensures
        same_pitch_class(normalized(r), r),
{
    lemma_normalized(r);
    lemma_octaves_apart_normalized(r);
    lemma_octaves_apart_symmetric(r, normalized(r), fold_up(r.0, r.1), fold_down(r.0, r.1));
}

/// Fractions of one pitch class have the same normal form.
pub proof fn lemma_pitch_class_normal_form(r: (int, int), s: (int, int))
    requires
        same_pitch_class(r, s),
    ensures
        normalized(r) == normalized(s),
{
    let (a, b) = choose|a: nat, b: nat| #[trigger] octaves_apart(r, s, a, b);
    lemma_normalized_equal(r, s, a, b);
}

/// The complement is in the pitch class of the inverse.
pub proof fn lemma_pitch_class_complement(r: (int, int))
    requires
        positive(r),
    ensures
        same_pitch_class(complement_of(r), inverse(r)),
        reduced(complement_of(r)),
        in_octave(complement_of(r)),
{
    let doubled = (2 * r.1, 1 * r.0);
    let q = quotient((2, 1), r);
    lemma_pitch_class_octave_up(inverse(r));
    lemma_pitch_class_lowest_terms(doubled);
    lemma_pitch_class_transitive(q, doubled, inverse(r));
    lemma_pitch_class_normalized(q);
    lemma_pitch_class_transitive(complement_of(r), q, inverse(r));
    lemma_normalized(q);
}

/// The complement is an involution up to normalization: the complement of
/// the complement of a positive ratio has the normal form of the ratio.
pub proof fn lemma_complement_involution(r: (int, int))
    requires
        positive(r),
    ensures
        normalized(complement_of(complement_of(r))) == normalized(r),
        complement_of(complement_of(r)) == normalized(r),
{
    let c = complement_of(r);
    let cc = complement_of(c);
    lemma_pitch_class_complement(r);
    lemma_pitch_class_complement(c);
    lemma_pitch_class_inverse(c, inverse(r));
    lemma_pitch_class_transitive(cc, inverse(c), r);
    lemma_pitch_class_normal_form(cc, r);
    lemma_normalized_idempotent(quotient((2, 1), c));
}

/// A reduced fraction within the octave is the normal form of everything in
/// its pitch class.
pub proof fn lemma_pitch_class_normal_form_is(r: (int, int), s: (int, int))
    requires
        same_pitch_class(r, s),
        in_octave(s),
        reduced(s),
    ensures
        normalized(r) == s,
{
    let (a, b) = choose|a: nat, b: nat| #[trigger] octaves_apart(r, s, a, b);
    lemma_normal_form_unique(r, s, a, b);
}

/// A normalized ratio times its complement is the octave `2/1`, unless the
/// ratio normalizes to the unison, whose complement is the unison again.
pub proof fn lemma_normalized_times_complement(r: (int, int))
    requires
        positive(r),
        normalized(r).0 != normalized(r).1,
    ensures
        product(normalized(r), complement_of(r)) == (2int, 1int),
{
    let t = normalized(r);
    let doubled = (2 * t.1, t.0);
    let u = lowest_terms(doubled.0, doubled.1);
    lemma_normalized(r);
    // `u` is the complement: it is reduced, lies within the octave, and is in
    // the pitch class of the inverse of `r`.
    lemma_pitch_class_normalized(r);
    lemma_pitch_class_inverse(t, r);
    lemma_pitch_class_octave_up(inverse(t));
    lemma_pitch_class_transitive(doubled, inverse(t), inverse(r));
    lemma_pitch_class_lowest_terms(doubled);
    lemma_pitch_class_transitive(u, doubled, inverse(r));
    lemma_lowest_terms(doubled.0, doubled.1);
    let g = greatest_common_divisor(abs(doubled.0), abs(doubled.1)) as int;
    assert(in_octave(u)) by (nonlinear_arith)
        requires
            doubled.0 == g * u.0,
            doubled.1 == g * u.1,
            g > 0,
            abs(doubled.1) <= abs(doubled.0) < 2 * abs(doubled.1),
    ;
    let q = quotient((2, 1), r);
    lemma_pitch_class_complement(r);
    lemma_pitch_class_symmetric(u, inverse(r));
    lemma_pitch_class_lowest_terms((2 * r.1, 1 * r.0));
    lemma_pitch_class_octave_up(inverse(r));
    lemma_pitch_class_transitive(q, (2 * r.1, 1 * r.0), inverse(r));
    lemma_pitch_class_transitive(q, inverse(r), u);
    lemma_pitch_class_normal_form_is(q, u);
    assert(complement_of(r) == u);
    // The product is `2 * m` over `m` for a positive `m`.
    let m = t.1 * u.1;
    assert(t.0 * u.0 == m * 2 && t.1 * u.1 == m * 1 && m > 0) by (nonlinear_arith)
        requires
            2 * t.1 == g * u.0,
            t.0 == g * u.1,
            g > 0,
            m == t.1 * u.1,
            (t.1 > 0 && u.1 > 0) || (t.1 < 0 && u.1 < 0),
    ;
    lemma_lowest_terms_of_multiple(2, 1, m);
    lemma_small_fractions();
}

/// The unison and the octave in lowest terms, folded and normalized.
proof fn lemma_small_fractions()
    ensures
        lowest_terms(1, 1) == (1int, 1int),
        lowest_terms(2, 1) == (2int, 1int),
        lowest_terms(2, 2) == (1int, 1int),
        octave_fold(1, 1) == (1int, 1int),
        octave_fold(2, 1) == (2int, 2int),
{
    reveal_with_fuel(crate::number_theory::greatest_common_divisor, 3);
    reveal_with_fuel(octave_fold, 2);
    assert(abs(1) == 1 && abs(2) == 2);
    assert(greatest_common_divisor(1, 0) == 1);
    assert(greatest_common_divisor(1, 1) == 1);
    assert(greatest_common_divisor(2, 1) == 1);
    assert(greatest_common_divisor(2, 2) == 2);
}

/// Powers of two nonzero numbers of one sign are nonzero and of one sign.
proof fn lemma_pow_same_sign(x: int, y: int, e: nat)
    requires
        (x > 0 && y > 0) || (x < 0 && y < 0),
    ensures
        (pow(x, e) > 0 && pow(y, e) > 0) || (pow(x, e) < 0 && pow(y, e) < 0),
    decreases e,
{
    reveal(pow);
    if e > 0 {
        lemma_pow_same_sign(x, y, (e - 1) as nat);
        let px = pow(x, (e - 1) as nat);
        let py = pow(y, (e - 1) as nat);
        assert((x * px > 0 && y * py > 0) || (x * px < 0 && y * py < 0)) by (nonlinear_arith)
            requires
                (x > 0 && y > 0) || (x < 0 && y < 0),
                (px > 0 && py > 0) || (px < 0 && py < 0),
        ;
    }
}

/// Raising both parts keeps the pitch class: fractions of one class have
/// powers of one class.
pub proof fn lemma_pitch_class_raised(r: (int, int), s: (int, int), e: nat)
    requires
        same_pitch_class(r, s),
    ensures
        same_pitch_class(raised(r, e), raised(s, e)),
{
    let (a, b) = choose|a: nat, b: nat| #[trigger] octaves_apart(r, s, a, b);
    lemma_pow_same_sign(r.0, r.1, e);
    lemma_pow_same_sign(s.0, s.1, e);
    lemma_pow_same_sign(r.0, s.0, e);
    lemma_pow_same_sign(r.1, s.1, e);
    lemma_pow_distributes(r.0 * s.1, pow(2, a), e);
    lemma_pow_distributes(r.0, s.1, e);
    lemma_pow_distributes(s.0 * r.1, pow(2, b), e);
    lemma_pow_distributes(s.0, r.1, e);
    lemma_pow_multiplies(2, a, e);
    lemma_pow_multiplies(2, b, e);
    assert(octaves_apart(raised(r, e), raised(s, e), a * e, b * e));
}

/// A power of a power is the power by the product of the exponents.
pub proof fn lemma_raised_twice(r: (int, int), a: nat, b: nat)
    ensures
        raised(raised(r, a), b) == raised(r, a * b),
{
    lemma_pow_multiplies(r.0, a, b);
    lemma_pow_multiplies(r.1, a, b);
}

/// A power of a positive ratio is in the pitch class of both parts raised:
/// those of the ratio for a positive exponent, those of its inverse for a
/// negative one. It is a normal form.
pub proof fn lemma_pitch_class_power(r: (int, int), e: int)
    requires
        positive(r),
        e != 0,
    ensures
        e > 0 ==> same_pitch_class(power(r, e), raised(r, e as nat)),
        e < 0 ==> same_pitch_class(power(r, e), raised(inverse(r), (-e) as nat)),
        normalized(power(r, e)) == power(r, e),
    decreases (if e < 0 { 1int } else { 0int }),
{
    reveal_with_fuel(power, 2);
    if e > 0 {
        let up = raised(r, e as nat);
        lemma_pow_same_sign(r.0, r.1, e as nat);
        lemma_pitch_class_lowest_terms(up);
        let low = lowest_terms(up.0, up.1);
        lemma_pitch_class_normalized(low);
        lemma_pitch_class_transitive(power(r, e), low, up);
        lemma_normalized_idempotent(low);
    } else {
        let c = complement_of(r);
        lemma_pitch_class_complement(r);
        lemma_pitch_class_power(c, -e);
        lemma_pitch_class_raised(c, inverse(r), (-e) as nat);
        lemma_pitch_class_transitive(power(r, e), raised(c, (-e) as nat), raised(inverse(r), (-e) as nat));
    }
}

/// Every power of the unison is the unison.
pub proof fn lemma_power_of_unison(e: int)
    ensures
        power((1, 1), e) == (1int, 1int),
{
    reveal_with_fuel(power, 2);
    lemma_small_fractions();
    lemma1_pow(if e < 0 { (-e) as nat } else { e as nat });
    assert(normalized((1, 1)) == (1int, 1int));
    assert(complement_of((1, 1)) == (1int, 1int));
}

/// A power of a power is the power by the product of the exponents: for a
/// positive ratio, `pow(a)` followed by `pow(b)` is `pow(a * b)`.
pub proof fn lemma_power_of_power(r: (int, int), a: int, b: int)
    requires
        positive(r),
    ensures
        power(power(r, a), b) == power(r, a * b),
{
    let t = power(r, a);
    if a == 0 || b == 0 {
        assert(a * b == 0) by (nonlinear_arith)
            requires
                a == 0 || b == 0,
        ;
        lemma_power_of_unison(b);
    } else {
        let ab = a * b;
        lemma_pitch_class_power(r, a);
        // The base the first power is raised from, and the one the second is.
        let first = if a > 0 { r } else { inverse(r) };
        let na = (if a > 0 { a } else { -a }) as nat;
        let nb = (if b > 0 { b } else { -b }) as nat;
        assert(same_pitch_class(t, raised(first, na)));
        lemma_pitch_class_power(t, b);
        let second = if b > 0 { t } else { inverse(t) };
        assert(same_pitch_class(power(t, b), raised(second, nb)));
        // `second` is in the class of a power of `r` or of its inverse.
        let base = if (a > 0) == (b > 0) { r } else { inverse(r) };
        if b > 0 {
            assert(same_pitch_class(second, raised(base, na)));
        } else {
            lemma_pitch_class_inverse(t, raised(first, na));
            assert(inverse(raised(first, na)) == raised(base, na));
        }
        lemma_pitch_class_raised(second, raised(base, na), nb);
        lemma_raised_twice(base, na, nb);
        lemma_pitch_class_transitive(power(t, b), raised(second, nb), raised(base, na * nb));
        // The power by the product is raised from the same base.
        assert(ab != 0 && (ab > 0 <==> (a > 0) == (b > 0)) && na * nb == (if ab > 0 { ab } else {
            -ab
        })) by (nonlinear_arith)
            requires
                ab == a * b,
                a != 0,
                b != 0,
                na == (if a > 0 { a } else { -a }),
                nb == (if b > 0 { b } else { -b }),
        ;
        lemma_pitch_class_power(r, ab);
        assert(same_pitch_class(power(r, ab), raised(base, na * nb)));
        lemma_pitch_class_symmetric(power(r, ab), raised(base, na * nb));
        lemma_pitch_class_transitive(power(t, b), raised(base, na * nb), power(r, ab));
        lemma_pitch_class_normal_form(power(t, b), power(r, ab));
    }
}

} // verus!
