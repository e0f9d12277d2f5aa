//! Generation and validation of "Hashi" (bridges) puzzles.
//!
//! A puzzle is a rectangular grid of islands, each carrying the number of
//! bridge ends it must receive. Bridges are straight, axis-aligned, single or
//! double, never cross one another and never pass over a third island.

pub mod connectivity;
pub mod display;
pub mod error;
pub mod generator;
pub mod geometry;
pub mod grid;
pub mod ordered_map;
mod random;
pub mod rules;

pub use display::Cell;
pub use error::HashiError;
pub use geometry::{BridgeDirection, BridgeLine, Position};
pub use grid::{BridgeType, HashiGrid, Island};
pub use ordered_map::OrderedMap;
