//! Lattices of just intervals in any number of dimensions.

pub mod dimension;
pub mod dimension_bounds;
pub mod grid;

pub use dimension::LatticeDimension;
pub use dimension_bounds::LatticeDimensionBounds;
pub use grid::Lattice;
