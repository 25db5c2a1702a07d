//! The twelve intervals of the equal-tempered chromatic scale, and distances
//! in cents between an interval and its equal-tempered neighbour.

use vstd::prelude::*;
use vstd::std_specs::convert::FromSpecImpl;

verus! {

/// The unison, `1/1`.
pub const UNISON: (i32, i32) = (1, 1);

/// The just major second, `9/8`.
pub const MAJOR_SECOND: (i32, i32) = (9, 8);

/// The just major third, `5/4`.
pub const MAJOR_THIRD: (i32, i32) = (5, 4);

/// The perfect fourth, `4/3`.
pub const PERFECT_FOURTH: (i32, i32) = (4, 3);

/// The perfect fifth, `3/2`.
pub const PERFECT_FIFTH: (i32, i32) = (3, 2);

/// The just major sixth, `5/3`.
pub const MAJOR_SIXTH: (i32, i32) = (5, 3);

/// The just major seventh, `15/8`.
pub const MAJOR_SEVEN: (i32, i32) = (15, 8);

/// The octave, `2/1`.
pub const OCTAVE: (i32, i32) = (2, 1);

/// The syntonic comma, `81/80`.
pub const SYNTONIC_COMMA: (i32, i32) = (81, 80);

/// The intervals of twelve-tone equal temperament within one octave, in
/// rising order: each is one semitone, 100 cents, above the one before.
#[derive(Clone, Copy, Debug, PartialEq, Eq)]
pub enum TwelveEDOInterval {
    PerfectUnison,
    MinorSecond,
    MajorSecond,
    MinorThird,
    MajorThird,
    PerfectFourth,
    AugmentedFourth,
    PerfectFifth,
    MinorSixth,
    MajorSixth,
    MinorSeventh,
    MajorSeventh,
}

/// A distance in cents held as the exact fraction `numer / denom`.
#[derive(Clone, Copy, Debug, PartialEq, Eq)]
pub struct Cents {
    pub numer: i64,
    pub denom: u32,
}

/// An equal-tempered interval with the distance from it, in cents, of the
/// interval it stands for.
pub type Approximate12EDOInterval = (TwelveEDOInterval, Cents);

/// The interval that lies `step` semitones above the unison, for the twelve
/// steps of one octave.
pub open spec fn interval_at(step: int) -> Option<TwelveEDOInterval> {
    if step == 0 {
        Some(TwelveEDOInterval::PerfectUnison)
    } else if step == 1 {
        Some(TwelveEDOInterval::MinorSecond)
    } else if step == 2 {
        Some(TwelveEDOInterval::MajorSecond)
    } else if step == 3 {
        Some(TwelveEDOInterval::MinorThird)
    } else if step == 4 {
        Some(TwelveEDOInterval::MajorThird)
    } else if step == 5 {
        Some(TwelveEDOInterval::PerfectFourth)
    } else if step == 6 {
        Some(TwelveEDOInterval::AugmentedFourth)
    } else if step == 7 {
        Some(TwelveEDOInterval::PerfectFifth)
    } else if step == 8 {
        Some(TwelveEDOInterval::MinorSixth)
    } else if step == 9 {
        Some(TwelveEDOInterval::MajorSixth)
    } else if step == 10 {
        Some(TwelveEDOInterval::MinorSeventh)
    } else if step == 11 {
        Some(TwelveEDOInterval::MajorSeventh)
    } else {
        None
    }
}

/// The interval named by a whole number of cents: a multiple of 100 that is
/// not negative names the interval that many semitones up, octaves dropped.
pub open spec fn interval_named(cents: int) -> Option<TwelveEDOInterval> {
    if cents >= 0 && cents % 100 == 0 {
        interval_at((cents / 100) % 12)
    } else {
        None
    }
}

impl TwelveEDOInterval {
    /// The number of semitones from the unison up to the interval.
    pub open spec fn step(self) -> int {
        match self {
            TwelveEDOInterval::PerfectUnison => 0,
            TwelveEDOInterval::MinorSecond => 1,
            TwelveEDOInterval::MajorSecond => 2,
            TwelveEDOInterval::MinorThird => 3,
            TwelveEDOInterval::MajorThird => 4,
            TwelveEDOInterval::PerfectFourth => 5,
            TwelveEDOInterval::AugmentedFourth => 6,
            TwelveEDOInterval::PerfectFifth => 7,
            TwelveEDOInterval::MinorSixth => 8,
            TwelveEDOInterval::MajorSixth => 9,
            TwelveEDOInterval::MinorSeventh => 10,
            TwelveEDOInterval::MajorSeventh => 11,
        }
    }

    /// The number of semitones from the unison up to the interval.
    pub fn semitones(&self) -> (s: usize)
        ensures
            s == self.step(),
            s < 12,
            interval_at(s as int) == Some(*self),
    {
        match self {
            TwelveEDOInterval::PerfectUnison => 0,
            TwelveEDOInterval::MinorSecond => 1,
            TwelveEDOInterval::MajorSecond => 2,
            TwelveEDOInterval::MinorThird => 3,
            TwelveEDOInterval::MajorThird => 4,
            TwelveEDOInterval::PerfectFourth => 5,
            TwelveEDOInterval::AugmentedFourth => 6,
            TwelveEDOInterval::PerfectFifth => 7,
            TwelveEDOInterval::MinorSixth => 8,
            TwelveEDOInterval::MajorSixth => 9,
            TwelveEDOInterval::MinorSeventh => 10,
            TwelveEDOInterval::MajorSeventh => 11,
        }
    }

    /// The interval `step` semitones above the unison, or `None` for a step
    /// outside the twelve of one octave.
    pub fn from_semitones(step: u64) -> (r: Option<Self>)
        ensures
            r == interval_at(step as int),
            r is Some <==> step < 12,
            r matches Some(i) ==> i.step() == step,
    {
        match step {
            0 => Some(TwelveEDOInterval::PerfectUnison),
            1 => Some(TwelveEDOInterval::MinorSecond),
            2 => Some(TwelveEDOInterval::MajorSecond),
            3 => Some(TwelveEDOInterval::MinorThird),
            4 => Some(TwelveEDOInterval::MajorThird),
            5 => Some(TwelveEDOInterval::PerfectFourth),
            6 => Some(TwelveEDOInterval::AugmentedFourth),
            7 => Some(TwelveEDOInterval::PerfectFifth),
            8 => Some(TwelveEDOInterval::MinorSixth),
            9 => Some(TwelveEDOInterval::MajorSixth),
            10 => Some(TwelveEDOInterval::MinorSeventh),
            11 => Some(TwelveEDOInterval::MajorSeventh),
            _ => None,
        }
    }

    /// The interval named by `cents`, a value already rounded to whole
    /// semitones: `cents / 100` is taken modulo twelve and matched against the
    /// twelve steps. Anything that is not a multiple of 100 from zero upward
    /// names no interval.
    pub fn from_cents(cents: i64) -> (r: Option<Self>)
        ensures
            r == interval_named(cents as int),
            r is Some <==> cents >= 0 && cents % 100 == 0,
    {
        if cents < 0 || cents % 100 != 0 {
            None
        } else {
            Self::from_semitones(((cents / 100) % 12) as u64)
        }
    }
}

impl From<&TwelveEDOInterval> for usize {
    /// The number of semitones from the unison up to the interval.
    fn from(value: &TwelveEDOInterval) -> (s: usize) {
        value.semitones()
    }
}

impl FromSpecImpl<&TwelveEDOInterval> for usize {
    open spec fn obeys_from_spec() -> bool {
        true
    }

    open spec fn from_spec(value: &TwelveEDOInterval) -> usize {
        value.step() as usize
    }
}

} // verus!
