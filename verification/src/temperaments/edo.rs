//! Temperaments made by dividing the octave into equal steps (EDO).

use crate::interval::{interval_at, Approximate12EDOInterval, Cents, TwelveEDOInterval};
use vstd::arithmetic::div_mod::{
    lemma_fundamental_div_mod, lemma_fundamental_div_mod_converse, lemma_mod_bound,
};
use vstd::prelude::*;

verus! {

/// A temperament that divides the octave into `divisions` equal steps.
#[derive(Clone, Copy, Debug, PartialEq)]
pub struct Edo {
    pub divisions: u32,
}

/// An interval of `steps` steps of the temperament `edo`.
#[derive(Clone, Copy, Debug, PartialEq)]
pub struct EdoInterval {
    pub edo: Edo,
    pub steps: u32,
}

/// The number of twelve-tone semitones nearest to `steps` steps out of
/// `divisions` to the octave: `12 * steps / divisions` rounded to the nearest
/// integer, halves upward.
pub open spec fn nearest_semitone(steps: int, divisions: int) -> int {
    (24 * steps + divisions) / (2 * divisions)
}

/// In twelve divisions every step is a semitone: the nearest semitone to
/// `steps` steps is `steps` itself, with nothing left over.
pub proof fn lemma_twelve_divisions_are_semitones(steps: int)
    requires
        steps >= 0,
    ensures
        nearest_semitone(steps, 12) == steps,
        1200 * steps - 100 * nearest_semitone(steps, 12) * 12 == 0,
{
    lemma_fundamental_div_mod_converse(24 * steps + 12, 24, steps, 12);
}

impl Edo {
    /// The temperament of `divisions` equal steps to the octave.
    pub fn new(divisions: u32) -> (r: Self)
        ensures
            r.divisions == divisions,
    {
        Self { divisions }
    }

    /// The interval of `steps` steps in this temperament.
    pub fn interval(&self, steps: u32) -> (r: EdoInterval)
        ensures
            r.edo == *self,
            r.steps == steps,
    {
        EdoInterval::new(self, steps)
    }
}

impl EdoInterval {
    /// The size of the interval in cents, `1200 * steps / divisions`, as an
    /// exact fraction.
    pub open spec fn size(self) -> (int, int) {
        (1200 * self.steps, self.edo.divisions as int)
    }

    /// The interval of `steps` steps in the temperament `edo`.
    pub fn new(edo: &Edo, steps: u32) -> (r: Self)
        ensures
            r.edo == *edo,
            r.steps == steps,
    {
        Self { edo: *edo, steps }
    }

    /// The size of the interval in cents: `1200 * steps` over `divisions`. A
    /// temperament of no divisions gives a fraction over zero.
    pub fn cents(&self) -> (r: Cents)
        ensures
            (r.numer as int, r.denom as int) == self.size(),
    {
        Cents { numer: 1200 * (self.steps as i64), denom: self.edo.divisions }
    }

    /// The nearest interval of twelve-tone equal temperament, octaves
    /// dropped, and the cents by which this interval lies above it: the size
    /// is rounded to the nearest multiple of 100 cents, halves upward, and
    /// the difference is what is left, from 50 cents below to just under 50
    /// cents above.
    pub fn to_approximate_12_edo_interval(&self) -> (r: Approximate12EDOInterval)
        requires
            self.edo.divisions != 0,
        ensures
            interval_at(nearest_semitone(self.steps as int, self.edo.divisions as int) % 12)
                == Some(r.0),
            r.1.denom == self.edo.divisions,
            r.1.numer == 1200 * self.steps - 100 * nearest_semitone(
                self.steps as int,
                self.edo.divisions as int,
            ) * self.edo.divisions,
            -50 * r.1.denom <= r.1.numer < 50 * r.1.denom,
    {
        let s = self.steps as u64;
        let d = self.edo.divisions as u64;
        let k = (24 * s + d) / (2 * d);
        proof {
            let x = 24 * s as int + d as int;
            let m = 2 * d as int;
            lemma_fundamental_div_mod(x, m);
            lemma_mod_bound(x, m);
            assert(m * (x / m) == 2 * (k * d) && (100 * k) * d == 100 * (k * d)) by (nonlinear_arith)
                requires
                    k == x / m,
                    m == 2 * d,
            ;
        }
        let whole = k * d;
        let name = TwelveEDOInterval::from_semitones(k % 12);
        let numer = 1200 * (s as i64) - 100 * (whole as i64);
        (name.unwrap(), Cents { numer, denom: self.edo.divisions })
    }
}

} // verus!
