use crate::geometry::{BridgeLine, Position};
use vstd::prelude::*;

verus! {

/// Every way in which building a grid, placing an island or placing a
/// bridge can be refused.
#[derive(Debug, Clone, Copy, PartialEq, Eq, Structural)]
pub enum HashiError {
    /// A grid with a zero width or height.
    Size,
    /// An island outside the grid.
    OutOfBounds { position: Position },
    /// A cell that is already taken, by an island, a bridge or a full island.
    Overwrite { position: Position },
    /// A bridge whose ends share neither a column nor a row.
    DiagonalBridge,
    /// A bridge whose two ends are the same cell.
    BridgeLengthZero,
    /// A bridge with an end on which no island stands.
    UnconnectedBridge { line: BridgeLine, position: Position },
}

} // verus!
