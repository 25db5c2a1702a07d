use rust_intonation::interval::{Cents, TwelveEDOInterval};
use rust_intonation::temperaments::edo::{Edo, EdoInterval};

#[test]
fn interval() {
    let twelve = Edo::new(12);

    let fifth = twelve.interval(7);

    assert_eq!(fifth.steps, 7);
    assert_eq!(fifth.edo, twelve);
    let cents = fifth.cents();
    assert_eq!(cents.numer as f32 / cents.denom as f32, 700.);

    let sixth = twelve.interval(9);
    assert_eq!(sixth.steps, 9);
    assert_eq!(sixth.edo, twelve);
    let cents = sixth.cents();
    assert_eq!(cents.numer as f32 / cents.denom as f32, 900.);
}

#[test]
fn non_12_edo() {
    let fifty_three = Edo::new(53);

    let fifth = fifty_three.interval(31);

    assert_eq!(fifth.steps, 31);
    assert_eq!(fifth.edo, fifty_three);
    let cents = fifth.cents();
    assert_eq!(cents.numer as f32 / cents.denom as f32, 701.8868);
}

#[test]
fn closest_12_edo() {
    let twelve = Edo::new(12);
    let fifty_three = Edo::new(53);

    let fifth = twelve.interval(7);
    let fifth53 = fifty_three.interval(31);

    let approx = fifth.to_approximate_12_edo_interval();

    assert_eq!(approx.0, TwelveEDOInterval::PerfectFifth);
    assert_eq!(approx.1.numer as f64 / approx.1.denom as f64, 0.);

    let approx53 = fifth53.to_approximate_12_edo_interval();

    assert_eq!(approx53.0, TwelveEDOInterval::PerfectFifth);
    assert!((approx53.1.numer as f64 / approx53.1.denom as f64 - 1.8868).abs() < 0.0001);
}

#[test]
fn cents_are_an_exact_fraction() {
    assert_eq!(Edo::new(53).interval(31).cents(), Cents { numer: 37200, denom: 53 });
    assert_eq!(Edo::new(0).interval(3).cents(), Cents { numer: 3600, denom: 0 });
    assert_eq!(
        Edo::new(u32::MAX).interval(u32::MAX).cents(),
        Cents { numer: 5153960754000, denom: 4294967295 }
    );
    assert_eq!(EdoInterval::new(&Edo::new(19), 11), Edo::new(19).interval(11));
}

#[test]
fn approximation_gives_the_exact_difference() {
    let (name, off) = Edo::new(53).interval(31).to_approximate_12_edo_interval();
    assert_eq!(name, TwelveEDOInterval::PerfectFifth);
    assert_eq!(off, Cents { numer: 100, denom: 53 });

    let (name, off) = Edo::new(19).interval(6).to_approximate_12_edo_interval();
    assert_eq!(name, TwelveEDOInterval::MajorThird);
    assert_eq!(off, Cents { numer: -400, denom: 19 });
}

#[test]
fn approximation_rounds_halves_upward() {
    let (name, off) = Edo::new(24).interval(1).to_approximate_12_edo_interval();
    assert_eq!(name, TwelveEDOInterval::MinorSecond);
    assert_eq!(off, Cents { numer: -1200, denom: 24 });

    let (name, off) = Edo::new(24).interval(23).to_approximate_12_edo_interval();
    assert_eq!(name, TwelveEDOInterval::PerfectUnison);
    assert_eq!(off, Cents { numer: -1200, denom: 24 });
}

#[test]
fn approximation_drops_whole_octaves() {
    let (name, off) = Edo::new(12).interval(19).to_approximate_12_edo_interval();
    assert_eq!(name, TwelveEDOInterval::PerfectFifth);
    assert_eq!(off, Cents { numer: 0, denom: 12 });

    let (name, off) = Edo::new(1).interval(u32::MAX).to_approximate_12_edo_interval();
    assert_eq!(name, TwelveEDOInterval::PerfectUnison);
    assert_eq!(off, Cents { numer: 0, denom: 1 });

    let (name, off) = Edo::new(u32::MAX).interval(u32::MAX).to_approximate_12_edo_interval();
    assert_eq!(name, TwelveEDOInterval::PerfectUnison);
    assert_eq!(off, Cents { numer: 0, denom: u32::MAX });
}
