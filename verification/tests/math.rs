use rust_intonation::math::{
    gcd, greatest_prime_factor, normalize_pair, reduce, sign_preserving_mod,
};

#[test]
fn test_greatest_prime_factor() {
    assert_eq!(greatest_prime_factor(5), 5);
    assert_eq!(greatest_prime_factor(15), 5);
    assert_eq!(greatest_prime_factor(14), 7);
}

#[test]
fn greatest_prime_factor_below_two_is_two() {
    assert_eq!(greatest_prime_factor(1), 2);
    assert_eq!(greatest_prime_factor(0), 2);
    assert_eq!(greatest_prime_factor(-15), 2);
}

#[test]
fn greatest_prime_factor_of_powers_and_primes() {
    assert_eq!(greatest_prime_factor(2), 2);
    assert_eq!(greatest_prime_factor(1024), 2);
    assert_eq!(greatest_prime_factor(97), 97);
    assert_eq!(greatest_prime_factor(2 * 3 * 3 * 5 * 7 * 7), 7);
    assert_eq!(greatest_prime_factor(1_000_003 * 4), 1_000_003);
}

#[test]
fn gcd_works_on_magnitudes() {
    assert_eq!(gcd(12, 18), 6);
    assert_eq!(gcd(-12, 18), 6);
    assert_eq!(gcd(12, -18), 6);
    assert_eq!(gcd(-12, -18), 6);
    assert_eq!(gcd(17, 5), 1);
    assert_eq!(gcd(0, 9), 9);
    assert_eq!(gcd(9, 0), 9);
    assert_eq!(gcd(0, 0), 0);
}

#[test]
fn reduce_divides_both_parts_by_their_gcd() {
    assert_eq!(reduce(6, 4), (3, 2));
    assert_eq!(reduce(-6, 4), (-3, 2));
    assert_eq!(reduce(6, -4), (3, -2));
    assert_eq!(reduce(0, 5), (0, 1));
    assert_eq!(reduce(7, 7), (1, 1));
    assert_eq!(reduce(i128::MAX, i128::MAX), (1, 1));
}

#[test]
fn sign_preserving_mod_wraps_into_the_modulus() {
    assert_eq!(sign_preserving_mod(5, 3), 2);
    assert_eq!(sign_preserving_mod(-1, 3), 2);
    assert_eq!(sign_preserving_mod(-3, 3), 0);
    assert_eq!(sign_preserving_mod(-42, 2), 0);
    assert_eq!(sign_preserving_mod(103, 2), 1);
    assert_eq!(sign_preserving_mod(0, 7), 0);
}

#[test]
fn sign_preserving_mod_of_a_negative_modulus_is_not_above_zero() {
    assert_eq!(sign_preserving_mod(1, -2), -1);
    assert_eq!(sign_preserving_mod(2, -2), 0);
    assert_eq!(sign_preserving_mod(-1, -2), -1);
    assert_eq!(sign_preserving_mod(-2, -2), 0);
    assert_eq!(sign_preserving_mod(5, -3), -1);
    assert_eq!(sign_preserving_mod(-5, -3), -2);
}

#[test]
fn sign_preserving_mod_at_the_ends_of_the_range() {
    assert_eq!(sign_preserving_mod(i32::MAX - 1, i32::MAX), i32::MAX - 1);
    assert_eq!(sign_preserving_mod(i32::MIN, i32::MAX), i32::MAX - 1);
    assert_eq!(sign_preserving_mod(i32::MIN, -1), 0);
    assert_eq!(sign_preserving_mod(i32::MAX, i32::MIN), -1);
    assert_eq!(sign_preserving_mod(i32::MIN, i32::MIN), 0);
}

#[test]
fn normalize_pair_doubles_without_reducing() {
    assert_eq!(normalize_pair(1, 2), (2, 2));
    assert_eq!(normalize_pair(9, 4), (9, 8));
    assert_eq!(normalize_pair(3, 2), (3, 2));
    assert_eq!(normalize_pair(2, 1), (2, 2));
    assert_eq!(normalize_pair(1, 12), (16, 12));
    assert_eq!(normalize_pair(-5, -1), (-5, -4));
}

#[test]
fn gcd_and_reduce_reach_the_least_integer() {
    assert_eq!(gcd(i128::MIN, 6), 2);
    assert_eq!(gcd(3, i128::MIN), 1);
    assert_eq!(gcd(i128::MIN, i128::MAX), 1);
    assert_eq!(reduce(i128::MIN, i128::MIN), (-1, -1));
    assert_eq!(reduce(0, i128::MIN), (0, -1));
    assert_eq!(reduce(i128::MIN, 3), (i128::MIN, 3));
    assert_eq!(reduce(i128::MIN, -4), (i128::MIN / 4, -1));
    assert_eq!(reduce(6, i128::MIN), (3, i128::MIN / 2));
}

#[test]
fn normalize_pair_reaches_the_least_integer() {
    let quarter = 1i128 << 126;
    assert_eq!(normalize_pair(-quarter, -quarter - 1), (i128::MIN, -quarter - 1));
    assert_eq!(normalize_pair(i128::MIN, -1), (i128::MIN, i128::MIN));
    assert_eq!(normalize_pair(i128::MIN + 1, -1), (i128::MIN + 1, -quarter));
    assert_eq!(normalize_pair(-1, i128::MIN), (i128::MIN, i128::MIN));
    assert_eq!(normalize_pair(i128::MAX, 1), (i128::MAX, quarter));
    assert_eq!(normalize_pair(quarter - 1, i128::MAX - 1), (i128::MAX - 1, i128::MAX - 1));
}
