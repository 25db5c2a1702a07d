use rust_intonation::ratio::Ratio;

#[test]
fn new_simple_ratio() {
    let r = Ratio::new(3, 2);

    assert_eq!(r.numer, 3);
    assert_eq!(r.denom, 2);
}

#[test]
fn reduces_ratio() {
    let r = Ratio::new(6, 4);

    assert_eq!(r.numer, 3);
    assert_eq!(r.denom, 2);
}

#[test]
fn normalize() {
    let r1 = Ratio::new(1, 2);
    let r2 = Ratio::new(9, 4);

    assert_eq!(r1.normalize(), Ratio::new(1, 1));
    assert_eq!(r2.normalize(), Ratio::new(9, 8));
}

#[test]
fn mul() {
    let r1 = Ratio::new(3, 2);
    let r2 = Ratio::new(9, 8);

    assert_eq!(r1 * r2, Ratio::new(27, 16));
    assert_eq!(r2 * r1, Ratio::new(27, 16));
}

#[test]
fn div() {
    let r1 = Ratio::new(3, 2);
    let r2 = Ratio::new(9, 8);

    assert_eq!(r1 / r2, Ratio::new(4, 3));
    assert_eq!(r2 / r1, Ratio::new(3, 4));
}

#[test]
fn complement() {
    let r1 = Ratio::new(3, 2);
    let r2 = Ratio::new(9, 8);

    assert_eq!(r1.complement(), Ratio::new(4, 3));
    assert_eq!(r2.complement(), Ratio::new(16, 9));
}

#[test]
fn complement_operator() {
    let r1 = Ratio::new(3, 2);
    let r2 = Ratio::new(9, 8);

    assert_eq!(-r1, Ratio::new(4, 3));
    assert_eq!(-r2, Ratio::new(16, 9));
}

#[test]
fn pow() {
    let r1 = Ratio::new(3, 2);

    assert_eq!(r1.pow(0), Ratio::new(1, 1));
    assert_eq!(r1.pow(1), Ratio::new(3, 2));
    assert_eq!(r1.pow(2), Ratio::new(9, 8));
    assert_eq!(r1.pow(-2), Ratio::new(16, 9));
}

#[test]
fn from_tuple() {
    let t = (3, 2);
    assert_eq!(Ratio::from(t), Ratio::new(3, 2));
}

#[test]
fn limit() {
    assert_eq!(Ratio::new(3, 2).limit(), 3);
    assert_eq!(Ratio::new(5, 4).limit(), 5);
    assert_eq!(Ratio::new(8, 5).limit(), 5);
}

#[test]
#[should_panic]
fn i32_can_overflow() {
    let r = Ratio::new(2147483647, 2147483646);
    let _r2 = r * r;
}

#[test]
fn can_construct_i64_ratio() {
    let r: Ratio<i64> = Ratio::new(2147483647, 2147483646);
    let r2 = r * r;
    assert_eq!(r2, Ratio::new(4611686014132420609, 4611686009837453316));
}

#[test]
fn new_keeps_the_signs_of_its_parts() {
    assert_eq!(Ratio::new(-6, 4), Ratio { numer: -3, denom: 2 });
    assert_eq!(Ratio::new(6, -4), Ratio { numer: 3, denom: -2 });
    assert_eq!(Ratio::new(-6, -4), Ratio { numer: -3, denom: -2 });
    assert_eq!(Ratio::new(0, -4), Ratio { numer: 0, denom: -1 });
    assert_eq!(Ratio::new(0, 7), Ratio { numer: 0, denom: 1 });
}

#[test]
fn new_reduces_the_extremes_of_a_width() {
    assert_eq!(Ratio::new(i32::MIN, i32::MIN), Ratio { numer: -1, denom: -1 });
    assert_eq!(Ratio::new(i32::MIN, 2), Ratio { numer: -1073741824, denom: 1 });
    assert_eq!(Ratio::new(i8::MIN, 96i8), Ratio { numer: -4i8, denom: 3i8 });
    assert_eq!(Ratio::new(i64::MAX, i64::MAX), Ratio { numer: 1i64, denom: 1i64 });
}

#[test]
fn new_of_a_common_multiple_is_the_same_ratio() {
    for k in 1..50 {
        assert_eq!(Ratio::new(k * 3, k * 2), Ratio::new(3, 2));
        assert_eq!(Ratio::new(k * -10, k * 4), Ratio::new(-10, 4));
        assert_eq!(Ratio::new(-k * 3, -k * 2), Ratio { numer: -3, denom: -2 });
    }
}

#[test]
fn normalize_is_idempotent_and_lands_in_the_octave() {
    for n in 1..40 {
        for d in 1..40 {
            let once = Ratio::new(n, d).normalize();
            assert_eq!(once.normalize(), once);
            assert!(once.denom <= once.numer && once.numer < 2 * once.denom);
        }
    }
}

#[test]
fn normalize_keeps_negative_parts_negative() {
    assert_eq!(Ratio::new(-3, -8).normalize(), Ratio { numer: -3, denom: -2 });
    assert_eq!(Ratio::new(-9, -2).normalize(), Ratio { numer: -9, denom: -8 });
}

#[test]
fn normalize_folds_across_many_octaves() {
    assert_eq!(Ratio::new(1, 1 << 30).normalize(), Ratio::new(1, 1));
    assert_eq!(Ratio::new(1 << 30, 1).normalize(), Ratio::new(1, 1));
    assert_eq!(Ratio::new(3, 1 << 30).normalize(), Ratio::new(3, 2));
    assert_eq!(Ratio::new(3i64 << 40, 5).normalize(), Ratio::new(6i64, 5));
    assert_eq!(Ratio::new(1073741825, 2147483646).normalize(), Ratio::new(1073741825, 1073741823));
}

#[test]
fn checked_normalize_refuses_what_is_not_above_zero_or_does_not_fit() {
    assert_eq!(Ratio::new(-3, 2).checked_normalize(), None);
    assert_eq!(Ratio::new(3, -2).checked_normalize(), None);
    assert_eq!(Ratio::new(0, 5).checked_normalize(), None);
    assert_eq!(Ratio { numer: 3, denom: 0 }.checked_normalize(), None);
    assert_eq!(Ratio::new(1073741825, 2147483647).checked_normalize(), None);
    assert_eq!(Ratio::new(100i8, 127i8).checked_normalize(), None);
    assert_eq!(Ratio::new(9, 4).checked_normalize(), Some(Ratio::new(9, 8)));
}

#[test]
fn checked_mul_and_div_report_overflow_and_zero_denominators() {
    let big = Ratio::new(2147483647, 2147483646);
    assert_eq!(big.checked_mul(big), None);
    assert_eq!(big.checked_div(Ratio::new(2147483646, 2147483647)), None);
    let wide: Ratio<i64> = Ratio::new(2147483647, 2147483646);
    assert_eq!(
        wide.checked_mul(wide),
        Some(Ratio::new(4611686014132420609, 4611686009837453316))
    );
    assert_eq!(Ratio::new(3, 2).checked_div(Ratio::new(0, 1)), None);
    assert_eq!(Ratio::new(3, 2).checked_mul(Ratio { numer: 1, denom: 0 }), None);
    assert_eq!(Ratio::new(3, 2).checked_mul(Ratio::new(-2, 3)), Some(Ratio::new(-1, 1)));
    assert_eq!(Ratio::new(3, 2).checked_div(Ratio::new(-9, 8)), Some(Ratio { numer: 4, denom: -3 }));
    assert_eq!(
        Ratio::new(65536, 59049).checked_mul(Ratio::new(59049, 65536)),
        None
    );
}

#[test]
fn complement_is_an_involution_up_to_normalization() {
    for n in 1..30 {
        for d in 1..30 {
            let r = Ratio::new(n, d);
            assert_eq!(r.complement().complement().normalize(), r.normalize());
        }
    }
}

#[test]
fn normalized_ratio_times_its_complement_is_the_octave() {
    for n in 1..30 {
        for d in 1..30 {
            let r = Ratio::new(n, d);
            let unison = r.normalize() == Ratio::new(1, 1);
            let expected = if unison { Ratio::new(1, 1) } else { Ratio::new(2, 1) };
            assert_eq!(r.normalize() * r.complement(), expected);
        }
    }
}

#[test]
fn checked_complement_needs_a_nonzero_numerator_and_room_to_double() {
    assert_eq!(Ratio::new(0, 1).checked_complement(), None);
    assert_eq!(Ratio::new(-3, 2).checked_complement(), None);
    assert_eq!(Ratio::new(3, 1073741824).checked_complement(), None);
    assert_eq!(Ratio::new(3, 1073741823).checked_complement(), Some(Ratio::new(357913941, 268435456)));
    assert_eq!(Ratio::new(1, 1).checked_complement(), Some(Ratio::new(1, 1)));
}

#[test]
fn pow_of_zero_is_the_unison_for_any_ratio() {
    assert_eq!(Ratio::new(7, 4).pow(0), Ratio::new(1, 1));
    assert_eq!(Ratio::new(-7, 4).pow(0), Ratio::new(1, 1));
    assert_eq!(Ratio::new(0, 4).pow(0), Ratio::new(1, 1));
    assert_eq!(Ratio { numer: 5, denom: 0 }.pow(0), Ratio::new(1, 1));
    assert_eq!(Ratio::new(i32::MAX, i32::MIN).pow(0), Ratio::new(1, 1));
}

#[test]
fn pow_of_a_pow_is_the_pow_of_the_product() {
    let ratios = [Ratio::new(3i64, 2), Ratio::new(5, 4), Ratio::new(7, 4), Ratio::new(4, 3)];
    for r in ratios {
        for a in -3..=3 {
            for b in -3..=3 {
                assert_eq!(r.pow(a).pow(b), r.pow(a * b));
            }
        }
    }
}

#[test]
fn pow_raises_both_parts_before_normalizing() {
    assert_eq!(Ratio::new(3, 2).pow(3), Ratio::new(27, 16));
    assert_eq!(Ratio::new(3, 2).pow(4), Ratio::new(81, 64));
    assert_eq!(Ratio::new(3, 2).pow(-1), Ratio::new(4, 3));
    assert_eq!(Ratio::new(3, 2).pow(-3), Ratio::new(32, 27));
    assert_eq!(Ratio::new(2, 1).pow(5), Ratio::new(1, 1));
    assert_eq!(Ratio::new(-3, -2).pow(2), Ratio::new(9, 8));
    assert_eq!(Ratio::new(-3, -2).pow(3), Ratio { numer: -27, denom: -16 });
    assert_eq!(Ratio::new(3i64, 2).pow(12), Ratio::new(531441i64, 524288));
}

#[test]
fn checked_pow_reports_overflow() {
    assert_eq!(Ratio::new(3, 2).checked_pow(19), Some(Ratio::new(1162261467, 1073741824)));
    assert_eq!(Ratio::new(3, 2).checked_pow(20), None);
    assert_eq!(Ratio::new(3i64, 2).checked_pow(20), Some(Ratio::new(3486784401i64, 2147483648)));
    assert_eq!(Ratio::new(4, 1).checked_pow(16), None);
    assert_eq!(Ratio::new(3i8, 2i8).checked_pow(5), None);
    assert_eq!(Ratio::new(3i16, 2i16).checked_pow(5), Some(Ratio::new(243i16, 128i16)));
    assert_eq!(Ratio::new(-3, 2).checked_pow(1), None);
    assert_eq!(Ratio::new(-3, 2).checked_pow(2), Some(Ratio::new(9, 8)));
    assert_eq!(Ratio::new(0, 1).checked_pow(-1), None);
    assert_eq!(Ratio::new(1, 1).checked_pow(i32::MIN), Some(Ratio::new(1, 1)));
    assert_eq!(Ratio::new(1, 1).checked_pow(i32::MAX), Some(Ratio::new(1, 1)));
    assert_eq!(Ratio::new(3, 2).checked_pow(i32::MIN), None);
}

#[test]
fn limit_of_parts_without_prime_factors_is_two() {
    assert_eq!(Ratio::new(1, 1).limit(), 2);
    assert_eq!(Ratio::new(0, 1).limit(), 2);
    assert_eq!(Ratio::new(-5, 1).limit(), 2);
    assert_eq!(Ratio::new(81, 80).limit(), 5);
    assert_eq!(Ratio::new(1, 7).limit(), 7);
    assert_eq!(Ratio::new(121i8, 64i8).limit(), 11i8);
}

#[test]
fn to_string_writes_numerator_over_denominator() {
    assert_eq!(Ratio::new(3, 2).to_string(), "3/2");
    assert_eq!(Ratio::new(27, 16).to_string(), "27/16");
    assert_eq!(Ratio::new(-3, 2).to_string(), "-3/2");
    assert_eq!(Ratio::new(3, -2).to_string(), "3/-2");
    assert_eq!(Ratio::new(0, 5).to_string(), "0/1");
    assert_eq!(Ratio { numer: 10, denom: 100 }.to_string(), "10/100");
    assert_eq!(Ratio::new(i8::MIN, 3i8).to_string(), "-128/3");
    assert_eq!(
        Ratio::new(i64::MIN, i64::MAX).to_string(),
        "-9223372036854775808/9223372036854775807"
    );
}

#[test]
fn write_to_appends_to_what_is_there() {
    let mut text = String::from("fifth: ");
    Ratio::new(6, 4).write_to(&mut text);
    assert_eq!(text, "fifth: 3/2");
}
