use rust_intonation::lattice::dimension::LatticeDimension;
use rust_intonation::lattice::dimension_bounds::LatticeDimensionBounds::{
    Infinite, LengthBounded, RangeBounded,
};
use rust_intonation::lattice::Lattice;
use rust_intonation::ratio::Ratio;

#[test]
fn at_for_unbounded_dimension() {
    let dim = LatticeDimension::new(Ratio::new(3, 2), Infinite);

    assert_eq!(dim.at(0), Ratio::new(1, 1));
    assert_eq!(dim.at(1), Ratio::new(3, 2));
    assert_eq!(dim.at(2), Ratio::new(9, 8));
    assert_eq!(dim.at(-1), Ratio::new(4, 3));
}

#[test]
fn at_for_length_bounded_dimension() {
    let dim = LatticeDimension::new(Ratio::new(3, 2), LengthBounded(2));

    assert_eq!(dim.at(0), Ratio::new(1, 1));
    assert_eq!(dim.at(1), Ratio::new(3, 2));
    assert_eq!(dim.at(2), Ratio::new(1, 1));
    assert_eq!(dim.at(-1), Ratio::new(3, 2));
}

#[test]
fn at_for_negative_length_bounded_dimension() {
    let dim = LatticeDimension::new(Ratio::new(3, 2), LengthBounded(-2));

    assert_eq!(dim.at(0), Ratio::new(1, 1));
    assert_eq!(dim.at(1), Ratio::new(4, 3));
    assert_eq!(dim.at(2), Ratio::new(1, 1));
    assert_eq!(dim.at(-1), Ratio::new(4, 3));
    assert_eq!(dim.at(-2), Ratio::new(1, 1));
}

#[test]
fn at_for_range_bounded_dimension() {
    let dim = LatticeDimension::new(Ratio::new(3, 2), RangeBounded(-2, 3));

    assert_eq!(dim.at(0), Ratio::new(1, 1));
    assert_eq!(dim.at(1), Ratio::new(3, 2));
    assert_eq!(dim.at(2), Ratio::new(9, 8));
    assert_eq!(dim.at(3), Ratio::new(27, 16));
    assert_eq!(dim.at(4), Ratio::new(16, 9));
    assert_eq!(dim.at(-1), Ratio::new(4, 3));
    assert_eq!(dim.at(-2), Ratio::new(16, 9));
    assert_eq!(dim.at(-3), Ratio::new(27, 16));
}

#[test]
fn resolve_index_for_infinite_bounds() {
    let bounds = Infinite;

    assert_eq!(bounds.resolve_index(0), 0);
    assert_eq!(bounds.resolve_index(1), 1);
    assert_eq!(bounds.resolve_index(-42), -42);
    assert_eq!(bounds.resolve_index(103), 103);
}

#[test]
fn resolve_index_for_length_bounded() {
    let bounds = LengthBounded(2);

    assert_eq!(bounds.resolve_index(0), 0);
    assert_eq!(bounds.resolve_index(1), 1);
    assert_eq!(bounds.resolve_index(2), 0);
    assert_eq!(bounds.resolve_index(-42), 0);
    assert_eq!(bounds.resolve_index(103), 1);
}

#[test]
fn resolve_index_for_range_bounded() {
    let bounds = RangeBounded(-2, 3);

    assert_eq!(bounds.resolve_index(0), 0);
    assert_eq!(bounds.resolve_index(1), 1);
    assert_eq!(bounds.resolve_index(2), 2);
    assert_eq!(bounds.resolve_index(4), -2);
    assert_eq!(bounds.resolve_index(-3), 3);
}

#[test]
fn one_dimensional_unbounded_lattice() {
    let l = Lattice::new(vec![LatticeDimension::new(Ratio::new(3, 2), Infinite)]);

    assert_eq!(l.at(&[0]), Ratio::new(1, 1));
    assert_eq!(l.at(&[1]), Ratio::new(3, 2));
}

#[test]
fn two_dimensional_unbounded_lattice() {
    let l = Lattice::new(vec![
        LatticeDimension::new(Ratio::new(3, 2), Infinite),
        LatticeDimension::new(Ratio::new(5, 4), Infinite),
    ]);

    assert_eq!(l.at(&[0]), Ratio::new(1, 1));
    assert_eq!(l.at(&[1]), Ratio::new(3, 2));
    assert_eq!(l.at(&[1, 0]), Ratio::new(3, 2));
    assert_eq!(l.at(&[1, 1]), Ratio::new(15, 8));
}

#[test]
#[should_panic]
fn default_i32_lattice_panics() {
    let l = Lattice::new(vec![
        LatticeDimension::new(Ratio::new(3, 2), Infinite),
        LatticeDimension::new(Ratio::new(5, 4), Infinite),
        LatticeDimension::new(Ratio::new(7, 4), Infinite),
    ]);

    l.at(&[7, 7, 7]);
}

#[test]
fn can_create_an_i64_lattice() {
    let l: Lattice<i64> = Lattice::new(vec![
        LatticeDimension::new(Ratio::new(3, 2), Infinite),
        LatticeDimension::new(Ratio::new(5, 4), Infinite),
        LatticeDimension::new(Ratio::new(7, 4), Infinite),
    ]);

    let r = l.at(&[7, 7, 7]);
    assert_eq!(r, Ratio::new(140710042265625, 70368744177664));
}

#[test]
fn length_bounded_by_two_cycles_through_zero_and_one() {
    let bounds = LengthBounded(2);
    for i in -20..20 {
        let expected = if i % 2 == 0 { 0 } else { 1 };
        assert_eq!(bounds.resolve_index(i), expected);
        assert_eq!(bounds.resolve_index(i + 2), bounds.resolve_index(i));
    }
}

#[test]
fn negative_length_runs_the_other_way() {
    let bounds = LengthBounded(-3);
    assert_eq!(bounds.resolve_index(0), 0);
    assert_eq!(bounds.resolve_index(1), -2);
    assert_eq!(bounds.resolve_index(2), -1);
    assert_eq!(bounds.resolve_index(3), 0);
    assert_eq!(bounds.resolve_index(-1), -1);
    assert_eq!(bounds.resolve_index(-2), -2);
    assert_eq!(bounds.resolve_index(-3), 0);
}

#[test]
fn range_bounded_keeps_indices_within_a_range_around_zero() {
    let bounds = RangeBounded(-2, 3);
    for i in -2..=3 {
        assert_eq!(bounds.resolve_index(i), i);
    }
    for i in -30..30 {
        let place = bounds.resolve_index(i);
        assert!(-2 <= place && place <= 3);
        assert_eq!((place - i).rem_euclid(6), 0);
    }
}

#[test]
fn range_bounded_shifts_by_the_magnitude_of_its_lower_end() {
    let bounds = RangeBounded(2, 5);
    assert_eq!(bounds.resolve_index(0), 0);
    assert_eq!(bounds.resolve_index(1), 1);
    assert_eq!(bounds.resolve_index(2), -2);
    assert_eq!(bounds.resolve_index(3), -1);
    assert_eq!(bounds.resolve_index(-1), -1);
    assert_eq!(bounds.resolve_index(-3), 1);
}

#[test]
fn checked_resolve_index_refuses_a_length_of_zero() {
    assert_eq!(LengthBounded(0).checked_resolve_index(3), None);
    assert_eq!(RangeBounded(3, 2).checked_resolve_index(3), None);
    assert_eq!(RangeBounded(0, -1).checked_resolve_index(0), None);
    assert_eq!(RangeBounded(3, 3).checked_resolve_index(17), Some(-3));
    assert_eq!(Infinite.checked_resolve_index(i32::MIN), Some(i32::MIN));
}

#[test]
fn checked_resolve_index_covers_the_whole_range_of_indices() {
    let all = RangeBounded(i32::MIN, i32::MAX);
    assert_eq!(all.checked_resolve_index(0), Some(0));
    assert_eq!(all.checked_resolve_index(i32::MAX), Some(i32::MAX));
    assert_eq!(all.checked_resolve_index(i32::MIN), Some(i32::MIN));
    let backwards = RangeBounded(i32::MAX, i32::MIN);
    assert_eq!(backwards.checked_resolve_index(0), None);
    assert_eq!(backwards.checked_resolve_index(i32::MIN), Some(i32::MIN));
    assert_eq!(backwards.checked_resolve_index(-2), None);
    assert_eq!(LengthBounded(i32::MIN).checked_resolve_index(i32::MAX), Some(-1));
    assert_eq!(LengthBounded(i32::MAX).checked_resolve_index(i32::MIN), Some(i32::MAX - 1));
}

#[test]
fn lattice_ignores_what_has_no_partner() {
    let l = Lattice::new(vec![
        LatticeDimension::new(Ratio::new(3, 2), Infinite),
        LatticeDimension::new(Ratio::new(5, 4), Infinite),
    ]);

    assert_eq!(l.at(&[]), Ratio::new(1, 1));
    assert_eq!(l.at(&[2, 1, 5, 9]), l.at(&[2, 1]));
    assert_eq!(l.at(&[2, 1]), Ratio::new(45, 32));
    let none: Lattice<i32> = Lattice::new(vec![]);
    assert_eq!(none.at(&[4, 4]), Ratio::new(1, 1));
}

#[test]
fn lattice_multiplies_without_normalizing_the_product() {
    let l = Lattice::new(vec![
        LatticeDimension::new(Ratio::new(3, 2), Infinite),
        LatticeDimension::new(Ratio::new(3, 2), Infinite),
    ]);

    assert_eq!(l.at(&[1, 1]), Ratio::new(9, 4));
    assert_eq!(l.at(&[-1, -1]), Ratio::new(16, 9));
}

#[test]
fn checked_at_reports_what_does_not_fit() {
    let l = Lattice::new(vec![
        LatticeDimension::new(Ratio::new(3, 2), Infinite),
        LatticeDimension::new(Ratio::new(5, 4), LengthBounded(0)),
        LatticeDimension::new(Ratio::new(7, 4), Infinite),
    ]);

    assert_eq!(l.checked_at(&[7, 7, 7]), None);
    assert_eq!(l.checked_at(&[7]), Some(Ratio::new(2187, 2048)));
    assert_eq!(l.checked_at(&[20]), None);
    assert_eq!(l.checked_at(&[1, 1]), None);
    let wide: Lattice<i32> = Lattice::new(vec![
        LatticeDimension::new(Ratio::new(3, 2), Infinite),
        LatticeDimension::new(Ratio::new(5, 4), Infinite),
        LatticeDimension::new(Ratio::new(7, 4), Infinite),
    ]);
    assert_eq!(wide.checked_at(&[7, 7, 7]), None);
    assert_eq!(wide.checked_at(&[1, 1, 1]), Some(Ratio::new(105, 32)));
    let dim = LatticeDimension::new(Ratio::new(3, 2), RangeBounded(0, 30));
    assert_eq!(dim.checked_at(19), Some(Ratio::new(1162261467, 1073741824)));
    assert_eq!(dim.checked_at(20), None);
    assert_eq!(dim.checked_at(31), Some(Ratio::new(1, 1)));
}
