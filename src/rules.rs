//! What the grid's operations decide, stated over its entry lists.
use crate::error::HashiError;
use crate::geometry::{
    intersection, lemma_intersection_symmetric, normalized, on_line, BridgeDirection, BridgeLine,
    Position,
};
use crate::grid::{BridgeType, HashiGrid, Island};
use crate::ordered_map::{has_key, lemma_lookup_at, lookup, rank_sorted, Ranked};
use vstd::prelude::*;

verus! {

/// How many bridge ends a bridge of type `t` gives each of its islands.
pub open spec fn weight(t: BridgeType) -> nat {
    match t {
        BridgeType::Single => 1,
        BridgeType::Double => 2,
    }
}

/// Whether `p` is one of the two ends of `l`.
pub open spec fn touches(l: BridgeLine, p: Position) -> bool {
    l.start == p || l.end == p
}

/// The number of bridge ends that the bridges in `s` bring to `p`.
pub open spec fn incident_weight(s: Seq<(BridgeLine, BridgeType)>, p: Position) -> nat
    decreases s.len(),
{
    if s.len() == 0 {
        0
    } else {
        incident_weight(s.drop_last(), p) + if touches(s.last().0, p) {
            weight(s.last().1)
        } else {
            0
        }
    }
}

/// Whether `q` lies on `line` strictly between its ends.
pub open spec fn blocks(line: BridgeLine, q: Position) -> bool {
    q != line.start && q != line.end && on_line(line, q)
}

/// The first island, in position order, that stands in the way of `line`.
pub open spec fn first_blocking(s: Seq<(Position, Island)>, line: BridgeLine) -> Option<Position>
    decreases s.len(),
{
    if s.len() == 0 {
        None
    } else if blocks(line, s[0].0) {
        Some(s[0].0)
    } else {
        first_blocking(s.drop_first(), line)
    }
}

/// The point where `line` crosses the first bridge, in line order, that it crosses.
pub open spec fn first_crossing(s: Seq<(BridgeLine, BridgeType)>, line: BridgeLine) -> Option<
    Position,
>
    decreases s.len(),
{
    if s.len() == 0 {
        None
    } else if intersection(line, s[0].0) is Some {
        intersection(line, s[0].0)
    } else {
        first_crossing(s.drop_first(), line)
    }
}

/// Whether some bridge in `s` passes over `p`, its ends included.
pub open spec fn on_some_bridge(s: Seq<(BridgeLine, BridgeType)>, p: Position) -> bool {
    exists|i: int| 0 <= i < s.len() && on_line(s[i].0, p)
}

impl HashiGrid {
    pub open spec fn has_island(self, p: Position) -> bool {
        has_key(self.islands@, p)
    }

    /// The bridge ends that `p` receives from the grid's bridges.
    pub open spec fn weight_at(self, p: Position) -> nat {
        incident_weight(self.bridges@, p)
    }

    /// Whether `p` is an island whose requirement is set and would be
    /// exceeded by one more bridge end.
    pub open spec fn is_full(self, p: Position) -> bool {
        match lookup(self.islands@, p) {
            Some(island) => island.required_bridges != 0 && self.weight_at(p) + 1
                > island.required_bridges,
            None => false,
        }
    }

    /// What placing an island at `p` gives.
    pub open spec fn placement(self, p: Position) -> Result<(), HashiError> {
        if p.x >= self.width || p.y >= self.height {
            Err(HashiError::OutOfBounds { position: p })
        } else if self.has_island(p) || on_some_bridge(self.bridges@, p) {
            Err(HashiError::Overwrite { position: p })
        } else {
            Ok(())
        }
    }

    /// What placing one more bridge along `line` gives: the type the bridge
    /// then has, or the first rule that refuses it.
    pub open spec fn bridging(self, line: BridgeLine) -> Result<BridgeType, HashiError> {
        match lookup(self.bridges@, line) {
            Some(BridgeType::Double) => Err(HashiError::Overwrite { position: line.start }),
            Some(BridgeType::Single) => if self.is_full(line.start) {
                Err(HashiError::Overwrite { position: line.start })
            } else if self.is_full(line.end) {
                Err(HashiError::Overwrite { position: line.end })
            } else {
                Ok(BridgeType::Double)
            },
            None => if !self.has_island(line.start) {
                Err(HashiError::UnconnectedBridge { line, position: line.start })
            } else if !self.has_island(line.end) {
                Err(HashiError::UnconnectedBridge { line, position: line.end })
            } else if self.is_full(line.start) {
                Err(HashiError::Overwrite { position: line.start })
            } else if self.is_full(line.end) {
                Err(HashiError::Overwrite { position: line.end })
            } else if first_blocking(self.islands@, line) is Some {
                Err(HashiError::Overwrite { position: first_blocking(self.islands@, line)->Some_0 })
            } else if first_crossing(self.bridges@, line) is Some {
                Err(HashiError::Overwrite { position: first_crossing(self.bridges@, line)->Some_0 })
            } else {
                Ok(BridgeType::Single)
            },
        }
    }

    /// Every island lies inside the grid.
    pub open spec fn islands_in_bounds(self) -> bool {
        forall|i: int|
            #![trigger self.islands@[i]]
            0 <= i < self.islands@.len() ==> self.islands@[i].0.x < self.width
                && self.islands@[i].0.y < self.height
    }

    /// Every bridge is normalized and joins two islands.
    pub open spec fn bridges_anchored(self) -> bool {
        forall|i: int|
            #![trigger self.bridges@[i]]
            0 <= i < self.bridges@.len() ==> normalized(self.bridges@[i].0) && self.has_island(
                self.bridges@[i].0.start,
            ) && self.has_island(self.bridges@[i].0.end)
    }

    /// No bridge passes over an island other than its two ends, and no two
    /// bridges cross.
    pub open spec fn bridges_clear(self) -> bool {
        let isl = self.islands@;
        let br = self.bridges@;
        &&& forall|i: int, j: int|
            0 <= i < br.len() && 0 <= j < isl.len() ==> !blocks(#[trigger] br[i].0, #[trigger] isl[j].0)
        &&& forall|i: int, j: int|
            0 <= i < br.len() && 0 <= j < br.len() ==> intersection(
                #[trigger] br[i].0,
                #[trigger] br[j].0,
            ) is None
    }

    /// No island with a set requirement receives more bridge ends than it asks for.
    pub open spec fn within_capacity(self) -> bool {
        forall|i: int|
            #![trigger self.islands@[i]]
            0 <= i < self.islands@.len() && self.islands@[i].1.required_bridges != 0
                ==> self.weight_at(self.islands@[i].0) <= self.islands@[i].1.required_bridges
    }

    /// The rules that every grid built through this library keeps.
    pub open spec fn wf(self) -> bool {
        &&& self.islands_in_bounds()
        &&& self.bridges_anchored()
        &&& self.bridges_clear()
        &&& self.within_capacity()
    }
}

/// The weight of two lists put end to end is the sum of their weights.
pub proof fn lemma_weight_concat(
    a: Seq<(BridgeLine, BridgeType)>,
    b: Seq<(BridgeLine, BridgeType)>,
    p: Position,
)
    ensures
        incident_weight(a + b, p) == incident_weight(a, p) + incident_weight(b, p),
    decreases b.len(),
{
    if b.len() == 0 {
        assert(a + b =~= a);
    } else {
        lemma_weight_concat(a, b.drop_last(), p);
        assert((a + b).drop_last() =~= a + b.drop_last());
    }
}

/// The weight of a single entry.
pub proof fn lemma_weight_one(e: (BridgeLine, BridgeType), p: Position)
    ensures
        incident_weight(seq![e], p) == if touches(e.0, p) {
            weight(e.1)
        } else {
            0
        },
{
    assert(seq![e].drop_last() =~= Seq::<(BridgeLine, BridgeType)>::empty());
    assert(incident_weight(Seq::<(BridgeLine, BridgeType)>::empty(), p) == 0);
}

/// Adding an entry adds its weight.
pub proof fn lemma_weight_insert(
    s: Seq<(BridgeLine, BridgeType)>,
    i: int,
    e: (BridgeLine, BridgeType),
    p: Position,
)
    requires
        0 <= i <= s.len(),
    ensures
        incident_weight(s.insert(i, e), p) == incident_weight(s, p) + if touches(e.0, p) {
            weight(e.1)
        } else {
            0
        },
{
    let pre = s.subrange(0, i);
    let post = s.subrange(i, s.len() as int);
    assert(s =~= pre + post);
    assert(s.insert(i, e) =~= pre + (seq![e] + post));
    lemma_weight_concat(pre, post, p);
    lemma_weight_concat(pre, seq![e] + post, p);
    lemma_weight_concat(seq![e], post, p);
    lemma_weight_one(e, p);
}

/// Removing an entry takes its weight away.
pub proof fn lemma_weight_remove(s: Seq<(BridgeLine, BridgeType)>, i: int, p: Position)
    requires
        0 <= i < s.len(),
    ensures
        incident_weight(s, p) == incident_weight(s.remove(i), p) + if touches(s[i].0, p) {
            weight(s[i].1)
        } else {
            0
        },
{
    assert(s.remove(i).insert(i, s[i]) =~= s);
    lemma_weight_insert(s.remove(i), i, s[i], p);
}

/// Changing the type of an entry changes the weight by the difference.
pub proof fn lemma_weight_update(
    s: Seq<(BridgeLine, BridgeType)>,
    i: int,
    t: BridgeType,
    p: Position,
)
    requires
        0 <= i < s.len(),
    ensures
        incident_weight(s.update(i, (s[i].0, t)), p) + (if touches(s[i].0, p) {
            weight(s[i].1)
        } else {
            0
        }) == incident_weight(s, p) + if touches(s[i].0, p) {
            weight(t)
        } else {
            0
        },
{
    lemma_weight_remove(s, i, p);
    lemma_weight_remove(s.update(i, (s[i].0, t)), i, p);
    assert(s.update(i, (s[i].0, t)).remove(i) =~= s.remove(i));
}

/// The weight never exceeds two per entry.
pub proof fn lemma_weight_bound(s: Seq<(BridgeLine, BridgeType)>, p: Position)
    ensures
        incident_weight(s, p) <= 2 * s.len(),
    decreases s.len(),
{
    if s.len() > 0 {
        lemma_weight_bound(s.drop_last(), p);
    }
}

/// Walking a suffix: the first blocking island of `s[i..]` is `s[i]` or that of `s[i+1..]`.
pub proof fn lemma_first_blocking_step(s: Seq<(Position, Island)>, i: int, line: BridgeLine)
    requires
        0 <= i < s.len(),
    ensures
        first_blocking(s.subrange(i, s.len() as int), line) == if blocks(line, s[i].0) {
            Some(s[i].0)
        } else {
            first_blocking(s.subrange(i + 1, s.len() as int), line)
        },
{
    assert(s.subrange(i, s.len() as int).drop_first() =~= s.subrange(i + 1, s.len() as int));
}

/// Walking a suffix: the first crossing of `s[i..]` is with `s[i]` or within `s[i+1..]`.
pub proof fn lemma_first_crossing_step(
    s: Seq<(BridgeLine, BridgeType)>,
    i: int,
    line: BridgeLine,
)
    requires
        0 <= i < s.len(),
    ensures
        first_crossing(s.subrange(i, s.len() as int), line) == if intersection(
            line,
            s[i].0,
        ) is Some {
            intersection(line, s[i].0)
        } else {
            first_crossing(s.subrange(i + 1, s.len() as int), line)
        },
{
    assert(s.subrange(i, s.len() as int).drop_first() =~= s.subrange(i + 1, s.len() as int));
}

/// No first blocking island means that no island blocks.
pub proof fn lemma_no_blocking(s: Seq<(Position, Island)>, line: BridgeLine)
    requires
        first_blocking(s, line) is None,
    ensures
        forall|j: int| 0 <= j < s.len() ==> !blocks(line, #[trigger] s[j].0),
    decreases s.len(),
{
    if s.len() > 0 {
        lemma_no_blocking(s.drop_first(), line);
        assert forall|j: int| 0 <= j < s.len() implies !blocks(line, #[trigger] s[j].0) by {
            if j > 0 {
                assert(s[j] == s.drop_first()[j - 1]);
            }
        }
    }
}

/// No first crossing means that no bridge is crossed.
pub proof fn lemma_no_crossing(s: Seq<(BridgeLine, BridgeType)>, line: BridgeLine)
    requires
        first_crossing(s, line) is None,
    ensures
        forall|j: int| 0 <= j < s.len() ==> intersection(line, #[trigger] s[j].0) is None,
    decreases s.len(),
{
    if s.len() > 0 {
        lemma_no_crossing(s.drop_first(), line);
        assert forall|j: int| 0 <= j < s.len() implies intersection(
            line,
            #[trigger] s[j].0,
        ) is None by {
            if j > 0 {
                assert(s[j] == s.drop_first()[j - 1]);
            }
        }
    }
}

/// Placing an island where `placement` allows keeps the grid's rules.
pub proof fn lemma_wf_after_island(g0: HashiGrid, g: HashiGrid, p: Position, i: int)
    requires
        g0.placement(p) is Ok,
        g.width == g0.width,
        g.height == g0.height,
        g.bridges == g0.bridges,
        0 <= i <= g0.islands@.len(),
        g.islands@ == g0.islands@.insert(i, (p, Island { required_bridges: 0 })),
    ensures
        g0.wf() ==> g.wf(),
{
    if g0.wf() {
        let isl0 = g0.islands@;
        let isl = g.islands@;
        let br = g.bridges@;
        assert forall|q: Position| g0.has_island(q) implies g.has_island(q) by {
            let k = choose|k: int| 0 <= k < isl0.len() && isl0[k].0 == q;
            if k < i {
                assert(isl[k] == isl0[k]);
            } else {
                assert(isl[k + 1] == isl0[k]);
            }
        }
        assert forall|k: int| 0 <= k < isl.len() implies #[trigger] isl[k] == (if k < i {
            isl0[k]
        } else if k == i {
            (p, Island { required_bridges: 0 })
        } else {
            isl0[k - 1]
        }) by {}
        assert forall|a: int, k: int|
            0 <= a < br.len() && 0 <= k < isl.len() implies !blocks(
            #[trigger] br[a].0,
            #[trigger] isl[k].0,
        ) by {
            if k == i {
                assert(!on_line(br[a].0, p));
            } else if k < i {
                assert(!blocks(br[a].0, isl0[k].0));
            } else {
                assert(!blocks(br[a].0, isl0[k - 1].0));
            }
        }
        assert forall|k: int|
            #![trigger isl[k]]
            0 <= k < isl.len() && isl[k].1.required_bridges != 0 implies g.weight_at(isl[k].0)
            <= isl[k].1.required_bridges by {
            if k < i {
                assert(isl0[k] == isl[k]);
            } else if k > i {
                assert(isl0[k - 1] == isl[k]);
            }
        }
    }
}

/// A new single bridge that `bridging` accepts keeps the grid's rules.
pub proof fn lemma_wf_after_new_bridge(g0: HashiGrid, g: HashiGrid, line: BridgeLine, i: int)
    requires
        g0.bridging(line) == Ok::<BridgeType, HashiError>(BridgeType::Single),
        g.width == g0.width,
        g.height == g0.height,
        g.islands == g0.islands,
        rank_sorted(g0.islands@),
        0 <= i <= g0.bridges@.len(),
        g.bridges@ == g0.bridges@.insert(i, (line, BridgeType::Single)),
    ensures
        g0.within_capacity() ==> g.within_capacity(),
        g0.wf() && normalized(line) ==> g.wf(),
{
    if g0.within_capacity() {
        let isl = g.islands@;
        let br0 = g0.bridges@;
        assert(lookup(br0, line) is None);
        assert forall|k: int|
            #![trigger isl[k]]
            0 <= k < isl.len() && isl[k].1.required_bridges != 0 implies g.weight_at(isl[k].0)
            <= isl[k].1.required_bridges by {
            let q = isl[k].0;
            lemma_weight_insert(br0, i, (line, BridgeType::Single), q);
            lemma_lookup_at(isl, k);
        }
    }
    if g0.wf() && normalized(line) {
        let isl = g.islands@;
        let br0 = g0.bridges@;
        let br = g.bridges@;
        assert(lookup(br0, line) is None);
        lemma_no_blocking(isl, line);
        lemma_no_crossing(br0, line);
        assert forall|a: int| 0 <= a < br.len() implies #[trigger] br[a] == (if a < i {
            br0[a]
        } else if a == i {
            (line, BridgeType::Single)
        } else {
            br0[a - 1]
        }) by {}
        assert forall|a: int, k: int|
            0 <= a < br.len() && 0 <= k < isl.len() implies !blocks(
            #[trigger] br[a].0,
            #[trigger] isl[k].0,
        ) by {
            if a < i {
                assert(!blocks(br0[a].0, isl[k].0));
            } else if a > i {
                assert(!blocks(br0[a - 1].0, isl[k].0));
            }
        }
        assert forall|a: int, b: int|
            0 <= a < br.len() && 0 <= b < br.len() implies intersection(
            #[trigger] br[a].0,
            #[trigger] br[b].0,
        ) is None by {
            let la = br[a].0;
            let lb = br[b].0;
            if a != i && b != i {
                let a0 = if a < i { a } else { a - 1 };
                let b0 = if b < i { b } else { b - 1 };
                assert(intersection(br0[a0].0, br0[b0].0) is None);
            } else if a == i && b != i {
                let b0 = if b < i { b } else { b - 1 };
                assert(intersection(line, br0[b0].0) is None);
            } else if a != i && b == i {
                let a0 = if a < i { a } else { a - 1 };
                assert(intersection(line, br0[a0].0) is None);
                lemma_intersection_symmetric(line, br0[a0].0);
            }
        }
    }
}

/// Making a single bridge double, where `bridging` accepts it, keeps the grid's rules.
pub proof fn lemma_wf_after_upgrade(g0: HashiGrid, g: HashiGrid, line: BridgeLine, i: int)
    requires
        g0.bridging(line) is Ok,
        g.width == g0.width,
        g.height == g0.height,
        g.islands == g0.islands,
        rank_sorted(g0.islands@),
        0 <= i < g0.bridges@.len(),
        g0.bridges@[i].0 == line,
        lookup(g0.bridges@, line) == Some(g0.bridges@[i].1),
        g.bridges@ == g0.bridges@.update(i, (line, BridgeType::Double)),
    ensures
        g0.bridges@[i].1 == BridgeType::Single,
        g0.within_capacity() ==> g.within_capacity(),
        g0.wf() ==> g.wf(),
{
    let isl = g.islands@;
    let br0 = g0.bridges@;
    let br = g.bridges@;
    if g0.within_capacity() {
        assert forall|k: int|
            #![trigger isl[k]]
            0 <= k < isl.len() && isl[k].1.required_bridges != 0 implies g.weight_at(isl[k].0)
            <= isl[k].1.required_bridges by {
            let q = isl[k].0;
            lemma_weight_update(br0, i, BridgeType::Double, q);
            lemma_lookup_at(isl, k);
        }
    }
    if g0.wf() {
        assert forall|a: int| 0 <= a < br.len() implies (#[trigger] br[a]).0 == br0[a].0 by {}
        assert forall|a: int, k: int|
            0 <= a < br.len() && 0 <= k < isl.len() implies !blocks(
            #[trigger] br[a].0,
            #[trigger] isl[k].0,
        ) by {
            assert(!blocks(br0[a].0, isl[k].0));
        }
        assert forall|a: int, b: int|
            0 <= a < br.len() && 0 <= b < br.len() implies intersection(
            #[trigger] br[a].0,
            #[trigger] br[b].0,
        ) is None by {
            assert(intersection(br0[a].0, br0[b].0) is None);
        }
    }
}

/// Taking a span off the bridge at index `i` keeps the grid's rules.
pub proof fn lemma_wf_after_removal(g0: HashiGrid, g: HashiGrid, i: int)
    requires
        g.width == g0.width,
        g.height == g0.height,
        g.islands == g0.islands,
        0 <= i < g0.bridges@.len(),
        g.bridges@ == if g0.bridges@[i].1 == BridgeType::Double {
            g0.bridges@.update(i, (g0.bridges@[i].0, BridgeType::Single))
        } else {
            g0.bridges@.remove(i)
        },
    ensures
        g0.wf() ==> g.wf(),
{
    let isl = g.islands@;
    let br0 = g0.bridges@;
    let br = g.bridges@;
    if g0.wf() {
        if br0[i].1 == BridgeType::Double {
            assert forall|a: int| 0 <= a < br.len() implies (#[trigger] br[a]).0 == br0[a].0 by {}
            assert forall|a: int, k: int|
                0 <= a < br.len() && 0 <= k < isl.len() implies !blocks(
                #[trigger] br[a].0,
                #[trigger] isl[k].0,
            ) by {
                assert(!blocks(br0[a].0, isl[k].0));
            }
            assert forall|a: int, b: int|
                0 <= a < br.len() && 0 <= b < br.len() implies intersection(
                #[trigger] br[a].0,
                #[trigger] br[b].0,
            ) is None by {
                assert(intersection(br0[a].0, br0[b].0) is None);
            }
            assert forall|k: int|
                #![trigger isl[k]]
                0 <= k < isl.len() && isl[k].1.required_bridges != 0 implies g.weight_at(
                isl[k].0,
            ) <= isl[k].1.required_bridges by {
                lemma_weight_update(br0, i, BridgeType::Single, isl[k].0);
            }
        } else {
            assert forall|a: int| 0 <= a < br.len() implies #[trigger] br[a] == (if a < i {
                br0[a]
            } else {
                br0[a + 1]
            }) by {}
            assert forall|a: int, k: int|
                0 <= a < br.len() && 0 <= k < isl.len() implies !blocks(
                #[trigger] br[a].0,
                #[trigger] isl[k].0,
            ) by {
                let a0 = if a < i { a } else { a + 1 };
                assert(!blocks(br0[a0].0, isl[k].0));
            }
            assert forall|a: int, b: int|
                0 <= a < br.len() && 0 <= b < br.len() implies intersection(
                #[trigger] br[a].0,
                #[trigger] br[b].0,
            ) is None by {
                let a0 = if a < i { a } else { a + 1 };
                let b0 = if b < i { b } else { b + 1 };
                assert(intersection(br0[a0].0, br0[b0].0) is None);
            }
            assert forall|k: int|
                #![trigger isl[k]]
                0 <= k < isl.len() && isl[k].1.required_bridges != 0 implies g.weight_at(
                isl[k].0,
            ) <= isl[k].1.required_bridges by {
                lemma_weight_remove(br0, i, isl[k].0);
            }
        }
    }
}

/// Setting a requirement that the island's bridges do not already exceed
/// keeps the grid's rules.
pub proof fn lemma_wf_after_requirement(g0: HashiGrid, g: HashiGrid, i: int)
    requires
        g.width == g0.width,
        g.height == g0.height,
        g.bridges == g0.bridges,
        0 <= i < g0.islands@.len(),
        g.islands@ == g0.islands@.update(i, (g0.islands@[i].0, g.islands@[i].1)),
        g.islands@[i].1.required_bridges == 0 || g0.weight_at(g0.islands@[i].0)
            <= g.islands@[i].1.required_bridges,
    ensures
        g0.wf() ==> g.wf(),
{
    let isl0 = g0.islands@;
    let isl = g.islands@;
    if g0.wf() {
        assert forall|k: int| 0 <= k < isl.len() implies (#[trigger] isl[k]).0 == isl0[k].0 by {}
        assert forall|q: Position| g0.has_island(q) implies g.has_island(q) by {
            let k = choose|k: int| 0 <= k < isl0.len() && isl0[k].0 == q;
            assert(isl[k].0 == q);
        }
        assert forall|k: int|
            #![trigger isl[k]]
            0 <= k < isl.len() && isl[k].1.required_bridges != 0 implies g.weight_at(isl[k].0)
            <= isl[k].1.required_bridges by {
            if k != i {
                assert(isl[k] == isl0[k]);
            }
        }
        let br = g.bridges@;
        assert forall|a: int, k: int|
            0 <= a < br.len() && 0 <= k < isl.len() implies !blocks(
            #[trigger] br[a].0,
            #[trigger] isl[k].0,
        ) by {
            assert(!blocks(br[a].0, isl0[k].0));
        }
    }
}

/// Which of the four ways out of `p` the line `l` takes: along its column
/// from its start or from its end, or along its row from its start or from
/// its end. A line that does not touch `p` has no way out of it.
pub open spec fn way_out(l: BridgeLine, p: Position) -> int {
    if l.start == p && l.direction == BridgeDirection::Down {
        0
    } else if l.end == p && l.direction == BridgeDirection::Down {
        1
    } else if l.start == p {
        2
    } else if l.end == p {
        3
    } else {
        4
    }
}

/// The bridge ends that `p` receives from the bridges in `s` that leave it by way `w`.
pub open spec fn way_weight(s: Seq<(BridgeLine, BridgeType)>, p: Position, w: int) -> nat
    decreases s.len(),
{
    if s.len() == 0 {
        0
    } else {
        way_weight(s.drop_last(), p, w) + if way_out(s.last().0, p) == w {
            weight(s.last().1)
        } else {
            0
        }
    }
}

proof fn lemma_weight_by_ways(s: Seq<(BridgeLine, BridgeType)>, p: Position)
    ensures
        incident_weight(s, p) == way_weight(s, p, 0) + way_weight(s, p, 1) + way_weight(s, p, 2)
            + way_weight(s, p, 3),
    decreases s.len(),
{
    if s.len() > 0 {
        lemma_weight_by_ways(s.drop_last(), p);
    }
}

proof fn lemma_way_unused(s: Seq<(BridgeLine, BridgeType)>, p: Position, w: int)
    requires
        forall|i: int| 0 <= i < s.len() ==> way_out(#[trigger] s[i].0, p) != w,
    ensures
        way_weight(s, p, w) == 0,
    decreases s.len(),
{
    if s.len() > 0 {
        let t = s.drop_last();
        assert forall|i: int| 0 <= i < t.len() implies way_out(#[trigger] t[i].0, p) != w by {
            assert(t[i] == s[i]);
        }
        lemma_way_unused(t, p, w);
    }
}

/// In a grid that keeps its rules, two bridges never leave an island the same way.
proof fn lemma_one_bridge_per_way(g: HashiGrid, p: Position, a: int, b: int)
    requires
        g.wf(),
        rank_sorted(g.bridges@),
        0 <= a < b < g.bridges@.len(),
        way_out(g.bridges@[a].0, p) < 4,
    ensures
        way_out(g.bridges@[a].0, p) != way_out(g.bridges@[b].0, p),
{
    let br = g.bridges@;
    let isl = g.islands@;
    let la = br[a].0;
    let lb = br[b].0;
    if way_out(la, p) == way_out(lb, p) {
        assert(la.rank() < lb.rank());
        assert(la != lb);
        assert(normalized(la) && normalized(lb));
        assert(g.has_island(la.start) && g.has_island(la.end));
        assert(g.has_island(lb.start) && g.has_island(lb.end));
        let ia = choose|k: int| 0 <= k < isl.len() && isl[k].0 == la.start;
        let ja = choose|k: int| 0 <= k < isl.len() && isl[k].0 == la.end;
        let ib = choose|k: int| 0 <= k < isl.len() && isl[k].0 == lb.start;
        let jb = choose|k: int| 0 <= k < isl.len() && isl[k].0 == lb.end;
        assert(!blocks(la, isl[ib].0));
        assert(!blocks(la, isl[jb].0));
        assert(!blocks(lb, isl[ia].0));
        assert(!blocks(lb, isl[ja].0));
    }
}

proof fn lemma_way_weight_bound(g: HashiGrid, p: Position, w: int, n: int)
    requires
        g.wf(),
        rank_sorted(g.bridges@),
        0 <= w < 4,
        0 <= n <= g.bridges@.len(),
    ensures
        way_weight(g.bridges@.subrange(0, n), p, w) <= 2,
    decreases n,
{
    let br = g.bridges@;
    if n > 0 {
        let s = br.subrange(0, n);
        let t = br.subrange(0, n - 1);
        assert(s.drop_last() =~= t);
        if way_out(br[n - 1].0, p) == w {
            assert forall|i: int| 0 <= i < t.len() implies way_out(#[trigger] t[i].0, p) != w by {
                assert(t[i] == br[i]);
                if way_out(br[i].0, p) == w {
                    lemma_one_bridge_per_way(g, p, i, n - 1);
                }
            }
            lemma_way_unused(t, p, w);
        } else {
            lemma_way_weight_bound(g, p, w, n - 1);
        }
    }
}

/// In a grid that keeps its rules, no cell receives more than eight bridge
/// ends: at most one bridge leaves it each way, and a bridge is at most double.
pub proof fn lemma_degree_at_most_eight(g: HashiGrid, p: Position)
    requires
        g.wf(),
        rank_sorted(g.bridges@),
    ensures
        g.weight_at(p) <= 8,
{
    let br = g.bridges@;
    assert(br.subrange(0, br.len() as int) =~= br);
    lemma_weight_by_ways(br, p);
    lemma_way_weight_bound(g, p, 0, br.len() as int);
    lemma_way_weight_bound(g, p, 1, br.len() as int);
    lemma_way_weight_bound(g, p, 2, br.len() as int);
    lemma_way_weight_bound(g, p, 3, br.len() as int);
}

/// Capacity is enforced: a bridge that is accepted has room at both of its
/// ends, and a bridge with a full island at an end is refused. The refusal
/// names that island, unless the line is already double, an end is not an
/// island, or its start is checked first and is full too.
pub proof fn lemma_capacity_enforced(g: HashiGrid, line: BridgeLine, p: Position)
    requires
        touches(line, p),
    ensures
        g.bridging(line) is Ok ==> !g.is_full(p),
        g.is_full(p) ==> g.bridging(line) is Err,
        g.is_full(p) && lookup(g.bridges@, line) != Some(BridgeType::Double) && g.has_island(
            line.start,
        ) && g.has_island(line.end) && (p == line.start || !g.is_full(line.start)) ==> g.bridging(
            line,
        ) == Err::<BridgeType, HashiError>(HashiError::Overwrite { position: p }),
{
}

} // verus!
