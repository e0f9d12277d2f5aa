//! What each cell of a grid shows when the grid is drawn.
use crate::geometry::{on_line, BridgeDirection, BridgeLine, Position};
use crate::grid::{BridgeType, HashiGrid};
use crate::ordered_map::lookup;
use vstd::prelude::*;

verus! {

/// The content of one cell: open water, an island with its requirement, or
/// a bridge passing through.
#[derive(Debug, Clone, Copy, PartialEq, Eq, Structural)]
pub enum Cell {
    Water,
    Island { required_bridges: u8 },
    Bridge { direction: BridgeDirection, kind: BridgeType },
}

/// The first bridge, in line order, that passes over `p`.
pub open spec fn first_bridge_over(s: Seq<(BridgeLine, BridgeType)>, p: Position) -> Option<
    (BridgeLine, BridgeType),
>
    decreases s.len(),
{
    if s.len() == 0 {
        None
    } else if on_line(s[0].0, p) {
        Some(s[0])
    } else {
        first_bridge_over(s.drop_first(), p)
    }
}

impl HashiGrid {
    /// What the cell at `p` shows: its island if there is one, else the
    /// first bridge over it, else water.
    pub open spec fn cell_content(self, p: Position) -> Cell {
        match lookup(self.islands@, p) {
            Some(island) => Cell::Island { required_bridges: island.required_bridges },
            None => match first_bridge_over(self.bridges@, p) {
                Some(e) => Cell::Bridge { direction: e.0.direction, kind: e.1 },
                None => Cell::Water,
            },
        }
    }

    /// The content of the cell at `position`.
    pub fn cell_at(&self, position: Position) -> (c: Cell)
        ensures
            c == self.cell_content(position),
    {
        match self.islands.get(&position) {
            Some(island) => {
                return Cell::Island { required_bridges: island.required_bridges };
            },
            None => {},
        }
        let ghost br = self.bridges@;
        let n = self.bridges.len();
        assert(br.subrange(0, n as int) =~= br);
        let mut i: usize = 0;
        while i < n
            invariant
                n == br.len(),
                br == self.bridges@,
                i <= n,
                lookup(self.islands@, position) is None,
                first_bridge_over(br, position) == first_bridge_over(
                    br.subrange(i as int, n as int),
                    position,
                ),
            decreases n - i,
        {
            let (line, kind) = self.bridges.entry(i);
            assert(br.subrange(i as int, n as int).drop_first() =~= br.subrange(i + 1, n as int));
            if line.crosses(position) {
                return Cell::Bridge { direction: line.direction, kind };
            }
            i = i + 1;
        }
        assert(br.subrange(n as int, n as int) =~= Seq::<(BridgeLine, BridgeType)>::empty());
        Cell::Water
    }
}

} // verus!
