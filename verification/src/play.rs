//! Playing intervals back as sound.

use vstd::prelude::*;

verus! {

/// Something that can be played back as sound.
pub trait Play {
    /// Plays the value and returns when the sound has ended.
    fn play(&self);
}

} // verus!
