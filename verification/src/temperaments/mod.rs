//! Temperaments: tunings that approximate just intervals.

pub mod edo;

pub use edo::Edo;
