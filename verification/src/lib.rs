//! Exact rational arithmetic over musical intervals in just intonation.
//!
//! * [`ratio`] holds [`Ratio`], a fraction in lowest terms over a signed
//!   integer width of the caller's choice, with normalization into the octave,
//!   complements, powers and the prime limit.
//! * [`lattice`] indexes n-dimensional lattices of ratios, each dimension with
//!   its own rule for wrapping indices around.
//! * [`diamond`] generates tonality diamonds and lays them out as text.
//! * [`interval`] and [`temperaments`] name the nearest interval of twelve-tone
//!   equal temperament and measure the distance to it in cents.
//! * [`parse`] reads ratios and index lists from text.
//! * [`math`], [`number_theory`], [`rational`] and [`octave`] hold the integer
//!   arithmetic underneath, and the identities it obeys.
//!
//! Every operation that can leave the chosen width comes in two forms: one
//! that asks its caller to rule the overflow out, and a `checked_` one that
//! reports it as `None`.

pub mod diamond;
pub mod interval;
pub mod lattice;
pub mod math;
pub mod number_theory;
pub mod octave;
pub mod parse;
pub mod play;
pub mod ratio;
pub mod rational;
pub mod signed;
pub mod temperaments;
pub mod text;

pub use lattice::{Lattice, LatticeDimension, LatticeDimensionBounds};
pub use ratio::Ratio;
pub use temperaments::Edo;
