use crate::connectivity::{
    bridged, keeps_bridged, lemma_bridged_after_insert, lemma_bridged_after_update,
};
use crate::error::HashiError;
use crate::geometry::{normalized, BridgeLine, Position};
use crate::ordered_map::{lemma_lookup_at, lookup, OrderedMap};
use crate::rules::{
    first_blocking, first_crossing, incident_weight, lemma_first_blocking_step,
    lemma_first_crossing_step, lemma_weight_bound, lemma_wf_after_island,
    lemma_wf_after_new_bridge, lemma_wf_after_removal, lemma_wf_after_requirement,
    lemma_wf_after_upgrade, touches,
};
use vstd::prelude::*;

verus! {

/// An island: the number of bridge ends it must receive. Zero means that the
/// requirement is not set yet; no limit applies then.
#[derive(Debug, Clone, Copy, PartialEq, Eq, Structural)]
pub struct Island {
    pub required_bridges: u8,
}

/// A bridge of one span or of two.
#[derive(Debug, Clone, Copy, PartialEq, Eq, Structural)]
pub enum BridgeType {
    Single,
    Double,
}

/// A puzzle grid: its size, its islands by position and its bridges by line.
#[derive(Debug, Clone, PartialEq, Eq)]
pub struct HashiGrid {
    pub width: u8,
    pub height: u8,
    pub islands: OrderedMap<Position, Island>,
    pub bridges: OrderedMap<BridgeLine, BridgeType>,
}

impl HashiGrid {
    /// An empty grid of no size, to stand in before a puzzle exists.
    pub fn placeholder() -> (g: Self)
        ensures
            g.width == 0,
            g.height == 0,
            g.islands@.len() == 0,
            g.bridges@.len() == 0,
            g.wf(),
    {
        HashiGrid { width: 0, height: 0, islands: OrderedMap::new(), bridges: OrderedMap::new() }
    }

    /// An empty grid; both sides must be at least one cell.
    pub fn new(width: u8, height: u8) -> (r: Result<Self, HashiError>)
        ensures
            (width == 0 || height == 0) <==> r == Err::<HashiGrid, HashiError>(HashiError::Size),
            r is Ok <==> (width > 0 && height > 0),
            r is Ok ==> ({
                let g = r->Ok_0;
                &&& g.width == width
                &&& g.height == height
                &&& g.islands@.len() == 0
                &&& g.bridges@.len() == 0
                &&& g.wf()
            }),
    {
        if width == 0 || height == 0 {
            return Err(HashiError::Size);
        }
        Ok(HashiGrid { width, height, islands: OrderedMap::new(), bridges: OrderedMap::new() })
    }

    /// Whether an island could be placed at `position`, and if not, why.
    pub fn can_add_island(&self, position: Position) -> (r: Result<(), HashiError>)
        ensures
            r == self.placement(position),
    {
        if position.x >= self.width || position.y >= self.height {
            return Err(HashiError::OutOfBounds { position });
        }
        if self.islands.contains_key(&position) {
            return Err(HashiError::Overwrite { position });
        }
        let n = self.bridges.len();
        let mut i: usize = 0;
        while i < n
            invariant
                n == self.bridges@.len(),
                i <= n,
                position.x < self.width && position.y < self.height,
                !self.has_island(position),
                forall|j: int| 0 <= j < i ==> !crate::geometry::on_line(#[trigger] self.bridges@[j].0, position),
            decreases n - i,
        {
            let (line, _) = self.bridges.entry(i);
            if line.crosses(position) {
                assert(crate::geometry::on_line(self.bridges@[i as int].0, position));
                return Err(HashiError::Overwrite { position });
            }
            i = i + 1;
        }
        Ok(())
    }

    /// Places an island with no requirement yet at `position`.
    pub fn add_island(&mut self, position: Position) -> (r: Result<(), HashiError>)
        ensures
            r == old(self).placement(position),
            r is Err ==> *final(self) == *old(self),
            r is Ok ==> {
                &&& final(self).width == old(self).width
                &&& final(self).height == old(self).height
                &&& final(self).bridges == old(self).bridges
                &&& exists|i: int|
                    0 <= i <= old(self).islands@.len() && final(self).islands@ == old(
                        self,
                    ).islands@.insert(i, (position, Island { required_bridges: 0 }))
            },
            old(self).wf() ==> final(self).wf(),
    {
        match self.can_add_island(position) {
            Err(e) => Err(e),
            Ok(()) => {
                let ghost g0 = *self;
                self.islands.insert_new(position, Island { required_bridges: 0 });
                proof {
                    let i = choose|i: int|
                        0 <= i <= g0.islands@.len() && self.islands@ == g0.islands@.insert(
                            i,
                            (position, Island { required_bridges: 0 }),
                        );
                    lemma_wf_after_island(g0, *self, position, i);
                }
                Ok(())
            },
        }
    }

    /// The bridge ends that `position` receives.
    pub(crate) fn count_bridges_ending_at(&self, position: Position) -> (r: u128)
        ensures
            r == self.weight_at(position),
            r <= 2 * (usize::MAX as nat),
    {
        let n = self.bridges.len();
        let mut count: u128 = 0;
        let mut i: usize = 0;
        while i < n
            invariant
                n == self.bridges@.len(),
                i <= n,
                count == incident_weight(self.bridges@.subrange(0, i as int), position),
            decreases n - i,
        {
            let (line, kind) = self.bridges.entry(i);
            proof {
                let s = self.bridges@.subrange(0, i + 1);
                assert(s.drop_last() =~= self.bridges@.subrange(0, i as int));
                lemma_weight_bound(self.bridges@.subrange(0, i as int), position);
            }
            if line.start == position || line.end == position {
                match kind {
                    BridgeType::Single => count = count + 1,
                    BridgeType::Double => count = count + 2,
                }
            }
            i = i + 1;
        }
        assert(self.bridges@.subrange(0, n as int) =~= self.bridges@);
        proof {
            lemma_weight_bound(self.bridges@, position);
        }
        count
    }

    /// The bridges with an end at `position`, in line order.
    pub fn bridges_ending_at(&self, position: Position) -> (r: Vec<(BridgeLine, BridgeType)>)
        ensures
            r@ == self.bridges@.filter(|e: (BridgeLine, BridgeType)| touches(e.0, position)),
    {
        let ghost pred = |e: (BridgeLine, BridgeType)| touches(e.0, position);
        let n = self.bridges.len();
        let mut r: Vec<(BridgeLine, BridgeType)> = Vec::new();
        let mut i: usize = 0;
        while i < n
            invariant
                n == self.bridges@.len(),
                i <= n,
                pred == (|e: (BridgeLine, BridgeType)| touches(e.0, position)),
                r@ == self.bridges@.subrange(0, i as int).filter(pred),
            decreases n - i,
        {
            let (line, kind) = self.bridges.entry(i);
            proof {
                let s = self.bridges@.subrange(0, i + 1);
                assert(s.drop_last() =~= self.bridges@.subrange(0, i as int));
                assert(s.last() == (line, kind));
                reveal(Seq::filter);
            }
            if line.start == position || line.end == position {
                r.push((line, kind));
            }
            i = i + 1;
        }
        assert(self.bridges@.subrange(0, n as int) =~= self.bridges@);
        r
    }

    /// Whether one more bridge end at `position` would exceed its requirement.
    fn island_is_full(&self, position: Position) -> (r: bool)
        ensures
            r == self.is_full(position),
    {
        match self.islands.get(&position) {
            None => false,
            Some(island) => {
                let required = island.required_bridges;
                if required == 0 {
                    false
                } else {
                    let existing = self.count_bridges_ending_at(position);
                    existing + 1 > required as u128
                }
            },
        }
    }

    /// What one more bridge along `bridge` would become, or why it is refused.
    pub fn can_bridge(&self, bridge: BridgeLine) -> (r: Result<BridgeType, HashiError>)
        ensures
            r == self.bridging(bridge),
    {
        match self.bridges.get(&bridge) {
            Some(kind) => {
                match *kind {
                    BridgeType::Double => {
                        return Err(HashiError::Overwrite { position: bridge.start });
                    },
                    BridgeType::Single => {
                        if self.island_is_full(bridge.start) {
                            return Err(HashiError::Overwrite { position: bridge.start });
                        }
                        if self.island_is_full(bridge.end) {
                            return Err(HashiError::Overwrite { position: bridge.end });
                        }
                        return Ok(BridgeType::Double);
                    },
                }
            },
            None => {},
        }
        if !self.islands.contains_key(&bridge.start) {
            return Err(HashiError::UnconnectedBridge { line: bridge, position: bridge.start });
        }
        if !self.islands.contains_key(&bridge.end) {
            return Err(HashiError::UnconnectedBridge { line: bridge, position: bridge.end });
        }
        if self.island_is_full(bridge.start) {
            return Err(HashiError::Overwrite { position: bridge.start });
        }
        if self.island_is_full(bridge.end) {
            return Err(HashiError::Overwrite { position: bridge.end });
        }
        let ghost isl = self.islands@;
        let n = self.islands.len();
        assert(isl.subrange(0, n as int) =~= isl);
        let mut i: usize = 0;
        while i < n
            invariant
                n == isl.len(),
                isl == self.islands@,
                i <= n,
                lookup(self.bridges@, bridge) is None,
                self.has_island(bridge.start),
                self.has_island(bridge.end),
                !self.is_full(bridge.start),
                !self.is_full(bridge.end),
                first_blocking(isl, bridge) == first_blocking(isl.subrange(i as int, n as int), bridge),
            decreases n - i,
        {
            let (q, _) = self.islands.entry(i);
            proof {
                lemma_first_blocking_step(isl, i as int, bridge);
            }
            if q != bridge.start && q != bridge.end && bridge.crosses(q) {
                return Err(HashiError::Overwrite { position: q });
            }
            i = i + 1;
        }
        assert(isl.subrange(n as int, n as int) =~= Seq::<(Position, Island)>::empty());
        let ghost br = self.bridges@;
        let m = self.bridges.len();
        assert(br.subrange(0, m as int) =~= br);
        let mut j: usize = 0;
        while j < m
            invariant
                m == br.len(),
                br == self.bridges@,
                j <= m,
                lookup(self.bridges@, bridge) is None,
                self.has_island(bridge.start),
                self.has_island(bridge.end),
                !self.is_full(bridge.start),
                !self.is_full(bridge.end),
                isl == self.islands@,
                first_blocking(isl, bridge) is None,
                first_crossing(br, bridge) == first_crossing(br.subrange(j as int, m as int), bridge),
            decreases m - j,
        {
            let (other, _) = self.bridges.entry(j);
            proof {
                lemma_first_crossing_step(br, j as int, bridge);
            }
            match bridge.intersects(&other) {
                Some(collision) => {
                    return Err(HashiError::Overwrite { position: collision });
                },
                None => {},
            }
            j = j + 1;
        }
        assert(br.subrange(m as int, m as int) =~= Seq::<(BridgeLine, BridgeType)>::empty());
        Ok(BridgeType::Single)
    }

    /// Places one more bridge along `bridge`: a new single bridge, or a
    /// single one made double. A refused bridge leaves the grid unchanged.
    pub fn add_bridge(&mut self, bridge: BridgeLine) -> (r: Result<BridgeType, HashiError>)
        ensures
            r == old(self).bridging(bridge),
            r is Err ==> *final(self) == *old(self),
            r is Ok ==> {
                &&& final(self).width == old(self).width
                &&& final(self).height == old(self).height
                &&& final(self).islands == old(self).islands
            },
            r == Ok::<BridgeType, HashiError>(BridgeType::Single) ==> exists|i: int|
                0 <= i <= old(self).bridges@.len() && final(self).bridges@ == old(
                    self,
                ).bridges@.insert(i, (bridge, BridgeType::Single)),
            r == Ok::<BridgeType, HashiError>(BridgeType::Double) ==> exists|i: int|
                0 <= i < old(self).bridges@.len() && old(self).bridges@[i] == (
                    bridge,
                    BridgeType::Single,
                ) && final(self).bridges@ == old(self).bridges@.update(
                    i,
                    (bridge, BridgeType::Double),
                ),
            keeps_bridged(old(self).bridges@, final(self).bridges@),
            r is Ok ==> bridged(final(self).bridges@, bridge.start, bridge.end),
            old(self).within_capacity() ==> final(self).within_capacity(),
            old(self).wf() && normalized(bridge) ==> final(self).wf(),
    {
        let kind = match self.can_bridge(bridge) {
            Err(e) => {
                return Err(e);
            },
            Ok(kind) => kind,
        };
        let ghost g0 = *self;
        // `len` states that the entries are in rank order.
        let _ = self.islands.len();
        match self.bridges.find(&bridge) {
            Some(i) => {
                // `len` states that the entries are in rank order.
                let _ = self.bridges.len();
                proof {
                    lemma_lookup_at(g0.bridges@, i as int);
                }
                self.bridges.set_at(i, BridgeType::Double);
                proof {
                    lemma_wf_after_upgrade(g0, *self, bridge, i as int);
                    lemma_bridged_after_update(g0.bridges@, i as int, BridgeType::Double);
                }
            },
            None => {
                self.bridges.insert_new(bridge, BridgeType::Single);
                proof {
                    let i = choose|i: int|
                        0 <= i <= g0.bridges@.len() && self.bridges@ == g0.bridges@.insert(
                            i,
                            (bridge, BridgeType::Single),
                        );
                    lemma_wf_after_new_bridge(g0, *self, bridge, i);
                    lemma_bridged_after_insert(g0.bridges@, i, (bridge, BridgeType::Single));
                }
            },
        }
        Ok(kind)
    }

    /// Takes one span away from the bridge along `line`: a double bridge
    /// becomes single and a single one goes. Returns what was there before.
    pub fn remove_bridge(&mut self, line: BridgeLine) -> (r: Option<BridgeType>)
        ensures
            r == lookup(old(self).bridges@, line),
            final(self).width == old(self).width,
            final(self).height == old(self).height,
            final(self).islands == old(self).islands,
            r is None ==> final(self).bridges == old(self).bridges,
            r == Some(BridgeType::Double) ==> exists|i: int|
                0 <= i < old(self).bridges@.len() && old(self).bridges@[i].0 == line
                    && final(self).bridges@ == old(self).bridges@.update(
                    i,
                    (line, BridgeType::Single),
                ),
            r == Some(BridgeType::Single) ==> exists|i: int|
                0 <= i < old(self).bridges@.len() && old(self).bridges@[i].0 == line
                    && final(self).bridges@ == old(self).bridges@.remove(i),
            old(self).wf() ==> final(self).wf(),
    {
        let ghost g0 = *self;
        // `len` states that the entries are in rank order.
        let _ = self.islands.len();
        let _ = self.bridges.len();
        match self.bridges.find(&line) {
            None => {
                assert(lookup(g0.bridges@, line) is None);
                None
            },
            Some(i) => {
                let (_, kind) = self.bridges.entry(i);
                proof {
                    lemma_lookup_at(g0.bridges@, i as int);
                }
                match kind {
                    BridgeType::Double => {
                        self.bridges.set_at(i, BridgeType::Single);
                    },
                    BridgeType::Single => {
                        self.bridges.remove_at(i);
                    },
                }
                proof {
                    lemma_wf_after_removal(g0, *self, i as int);
                }
                Some(kind)
            },
        }
    }

    /// Sets the requirement of the island at `position`, unless there is no
    /// island there or it already receives more bridge ends than `required`.
    pub fn set_required_bridges(&mut self, position: Position, required: u8) -> (r: bool)
        ensures
            r == (old(self).has_island(position) && (required == 0 || old(self).weight_at(
                position,
            ) <= required)),
            final(self).width == old(self).width,
            final(self).height == old(self).height,
            final(self).bridges == old(self).bridges,
            !r ==> final(self).islands == old(self).islands,
            r ==> exists|i: int|
                0 <= i < old(self).islands@.len() && old(self).islands@[i].0 == position
                    && final(self).islands@ == old(self).islands@.update(
                    i,
                    (position, Island { required_bridges: required }),
                ),
            old(self).wf() ==> final(self).wf(),
    {
        let ghost g0 = *self;
        // `len` states that the entries are in rank order.
        let _ = self.islands.len();
        match self.islands.find(&position) {
            None => false,
            Some(i) => {
                if required != 0 {
                    let existing = self.count_bridges_ending_at(position);
                    if existing > required as u128 {
                        return false;
                    }
                }
                self.islands.set_at(i, Island { required_bridges: required });
                proof {
                    lemma_wf_after_requirement(g0, *self, i as int);
                }
                true
            },
        }
    }

    /// The same grid with every bridge taken away: the blank puzzle.
    pub fn wipe_bridges(self) -> (g: Self)
        ensures
            g.width == self.width,
            g.height == self.height,
            g.islands == self.islands,
            g.bridges@.len() == 0,
            self.wf() ==> g.wf(),
    {
        let mut g = self;
        g.bridges.clear();
        g
    }
}

} // verus!
