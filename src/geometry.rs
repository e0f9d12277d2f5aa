use crate::error::HashiError;
use crate::ordered_map::Ranked;
use vstd::prelude::*;

verus! {

/// A cell of the grid: `x` is the column, `y` the row.
#[derive(Debug, Clone, Copy, PartialEq, Eq, Structural, Hash, PartialOrd, Ord)]
pub struct Position {
    pub x: u8,
    pub y: u8,
}

/// The orientation of a bridge: `Down` along a column, `Right` along a row.
#[derive(Debug, Clone, Copy, PartialEq, Eq, Structural, Hash, PartialOrd, Ord)]
pub enum BridgeDirection {
    Down,
    Right,
}

/// An axis-aligned segment between two cells, stored with its smaller end first.
#[derive(Debug, Clone, Copy, PartialEq, Eq, Structural, Hash, PartialOrd, Ord)]
pub struct BridgeLine {
    pub start: Position,
    pub end: Position,
    pub direction: BridgeDirection,
}

/// The line between `a` and `b`, ends ordered along the shared axis, or the
/// reason why there is none.
pub open spec fn line_between(a: Position, b: Position) -> Result<BridgeLine, HashiError> {
    if a.x != b.x && a.y != b.y {
        Err(HashiError::DiagonalBridge)
    } else if a == b {
        Err(HashiError::BridgeLengthZero)
    } else if a.x == b.x {
        let (lo, hi) = if a.y < b.y { (a, b) } else { (b, a) };
        Ok(BridgeLine { start: lo, end: hi, direction: BridgeDirection::Down })
    } else {
        let (lo, hi) = if a.x < b.x { (a, b) } else { (b, a) };
        Ok(BridgeLine { start: lo, end: hi, direction: BridgeDirection::Right })
    }
}

/// A line as `BridgeLine::new` builds it: its ends in one column or one row,
/// the smaller first, and a direction that matches.
pub open spec fn normalized(l: BridgeLine) -> bool {
    match l.direction {
        BridgeDirection::Down => l.start.x == l.end.x && l.start.y < l.end.y,
        BridgeDirection::Right => l.start.y == l.end.y && l.start.x < l.end.x,
    }
}

pub open spec fn min_u8(a: u8, b: u8) -> u8 {
    if a <= b { a } else { b }
}

pub open spec fn max_u8(a: u8, b: u8) -> u8 {
    if a <= b { b } else { a }
}

/// Whether `p` lies on the segment of `l`, its ends included.
pub open spec fn on_line(l: BridgeLine, p: Position) -> bool {
    ||| (l.start.x == l.end.x && p.x == l.start.x && min_u8(l.start.y, l.end.y) <= p.y
        <= max_u8(l.start.y, l.end.y))
    ||| (l.start.y == l.end.y && p.y == l.start.y && min_u8(l.start.x, l.end.x) <= p.x
        <= max_u8(l.start.x, l.end.x))
}

/// Whether two lines meet end to end, at a shared island.
pub open spec fn share_an_end(a: BridgeLine, b: BridgeLine) -> bool {
    a.start == b.start || a.start == b.end || a.end == b.start || a.end == b.end
}

/// Where a vertical and a horizontal line cross away from their ends.
pub open spec fn crossing_of(vert: BridgeLine, horiz: BridgeLine) -> Option<Position> {
    if share_an_end(vert, horiz) {
        None
    } else if vert.start.y <= horiz.start.y <= vert.end.y && horiz.start.x <= vert.start.x
        <= horiz.end.x {
        Some(Position { x: vert.start.x, y: horiz.start.y })
    } else {
        None
    }
}

/// Where two lines of different directions cross; lines of one direction never do.
pub open spec fn intersection(a: BridgeLine, b: BridgeLine) -> Option<Position> {
    if a.direction == b.direction {
        None
    } else if a.direction == BridgeDirection::Down {
        crossing_of(a, b)
    } else {
        crossing_of(b, a)
    }
}

impl BridgeLine {
    /// The line between two cells, whichever is given first.
    pub fn new(start: Position, end: Position) -> (r: Result<BridgeLine, HashiError>)
        ensures
            r == line_between(start, end),
            r is Ok ==> normalized(r->Ok_0),
    {
        if start.x != end.x && start.y != end.y {
            return Err(HashiError::DiagonalBridge);
        }
        if start == end {
            return Err(HashiError::BridgeLengthZero);
        }
        if start.x == end.x {
            if start.y > end.y {
                Ok(BridgeLine { start: end, end: start, direction: BridgeDirection::Down })
            } else {
                Ok(BridgeLine { start, end, direction: BridgeDirection::Down })
            }
        } else {
            if start.x > end.x {
                Ok(BridgeLine { start: end, end: start, direction: BridgeDirection::Right })
            } else {
                Ok(BridgeLine { start, end, direction: BridgeDirection::Right })
            }
        }
    }

    /// The point where `self` and `other` cross, if they do away from their ends.
    pub fn intersects(&self, other: &BridgeLine) -> (r: Option<Position>)
        ensures
            r == intersection(*self, *other),
    {
        if self.direction == other.direction {
            return None;
        }
        let (vert, horiz) = if self.direction == BridgeDirection::Down {
            (self, other)
        } else {
            (other, self)
        };
        if horiz.start == vert.start || horiz.start == vert.end || horiz.end == vert.start
            || horiz.end == vert.end {
            return None;
        }
        if horiz.start.y >= vert.start.y && horiz.start.y <= vert.end.y {
            if vert.start.x >= horiz.start.x && vert.start.x <= horiz.end.x {
                return Some(Position { x: vert.start.x, y: horiz.start.y });
            }
        }
        None
    }

    /// Whether `position` lies on this line, its ends included.
    pub fn crosses(&self, position: Position) -> (r: bool)
        ensures
            r == on_line(*self, position),
    {
        if self.start.x == self.end.x && position.x == self.start.x {
            let miny = if self.start.y <= self.end.y { self.start.y } else { self.end.y };
            let maxy = if self.start.y <= self.end.y { self.end.y } else { self.start.y };
            if position.y >= miny && position.y <= maxy {
                return true;
            }
        }
        if self.start.y == self.end.y && position.y == self.start.y {
            let minx = if self.start.x <= self.end.x { self.start.x } else { self.end.x };
            let maxx = if self.start.x <= self.end.x { self.end.x } else { self.start.x };
            if position.x >= minx && position.x <= maxx {
                return true;
            }
        }
        false
    }
}

/// Positions are ranked column first, then row.
impl Ranked for Position {
    open spec fn rank(&self) -> int {
        self.x * 256 + self.y
    }

    fn rank_of(&self) -> (r: u64) {
        self.x as u64 * 256 + self.y as u64
    }

    proof fn lemma_rank_injective(a: Self, b: Self) {
    }
}

pub open spec fn direction_rank(d: BridgeDirection) -> int {
    match d {
        BridgeDirection::Down => 0,
        BridgeDirection::Right => 1,
    }
}

/// Lines are ranked by start, then end, then direction.
impl Ranked for BridgeLine {
    open spec fn rank(&self) -> int {
        (self.start.rank() * 65536 + self.end.rank()) * 2 + direction_rank(self.direction)
    }

    fn rank_of(&self) -> (r: u64) {
        let d: u64 = match self.direction {
            BridgeDirection::Down => 0,
            BridgeDirection::Right => 1,
        };
        (self.start.rank_of() * 65536 + self.end.rank_of()) * 2 + d
    }

    proof fn lemma_rank_injective(a: Self, b: Self) {
        if a.rank() == b.rank() {
            assert(direction_rank(a.direction) == direction_rank(b.direction));
            assert(a.start.rank() * 65536 + a.end.rank() == b.start.rank() * 65536 + b.end.rank());
            assert(a.end.rank() == b.end.rank());
            Position::lemma_rank_injective(a.start, b.start);
            Position::lemma_rank_injective(a.end, b.end);
        }
    }
}

/// Crossing is symmetric.
pub proof fn lemma_intersection_symmetric(a: BridgeLine, b: BridgeLine)
    ensures
        intersection(a, b) == intersection(b, a),
{
}

/// A line is the same whichever end it is built from.
pub proof fn lemma_line_symmetric(a: Position, b: Position)
    requires
        a.x == b.x || a.y == b.y,
        a != b,
    ensures
        line_between(a, b) == line_between(b, a),
{
}

} // verus!
