//! Whether the bridges join all islands into one network, and whether a
//! puzzle is solved.
use crate::geometry::{BridgeLine, Position};
use crate::grid::{BridgeType, HashiGrid};
use crate::ordered_map::{rank_sorted, Ranked};
use vstd::prelude::*;
use vstd::set_lib::set_int_range;

verus! {

/// Whether some bridge in `s` joins `a` and `b`.
pub open spec fn bridged(s: Seq<(BridgeLine, BridgeType)>, a: Position, b: Position) -> bool {
    exists|i: int|
        0 <= i < s.len() && ((s[i].0.start == a && s[i].0.end == b) || (s[i].0.start == b
            && s[i].0.end == a))
}

/// Whether `path` goes from island to island, each step along a bridge.
pub open spec fn is_walk(g: HashiGrid, path: Seq<Position>) -> bool {
    &&& path.len() >= 1
    &&& forall|k: int| 0 <= k < path.len() ==> g.has_island(#[trigger] path[k])
    &&& forall|k: int|
        0 <= k < path.len() - 1 ==> bridged(g.bridges@, #[trigger] path[k], path[k + 1])
}

/// Whether a walk along bridges leads from island `a` to island `b`.
pub open spec fn linked(g: HashiGrid, a: Position, b: Position) -> bool {
    exists|path: Seq<Position>| is_walk(g, path) && path[0] == a && path.last() == b
}

impl HashiGrid {
    /// Whether every island can be reached from every other along bridges.
    pub open spec fn is_connected(self) -> bool {
        forall|a: Position, b: Position|
            self.has_island(a) && self.has_island(b) ==> #[trigger] linked(self, a, b)
    }

    /// Whether the puzzle is solved: every requirement is set and met
    /// exactly, and the bridges join all islands into one network.
    pub open spec fn is_solved(self) -> bool {
        &&& forall|i: int|
            #![trigger self.islands@[i]]
            0 <= i < self.islands@.len() ==> self.islands@[i].1.required_bridges != 0
        &&& forall|i: int|
            #![trigger self.islands@[i]]
            0 <= i < self.islands@.len() ==> self.weight_at(self.islands@[i].0)
                == self.islands@[i].1.required_bridges
        &&& self.is_connected()
    }
}

/// The end of `l` that is not `p`.
pub open spec fn other_end(l: BridgeLine, p: Position) -> Position {
    if l.start == p {
        l.end
    } else {
        l.start
    }
}

/// Every bridge from island `j` leads to an island that is marked, if it leads to one.
pub open spec fn closed_at(g: HashiGrid, visited: Seq<bool>, j: int) -> bool {
    forall|b: int, m: int|
        0 <= b < g.bridges@.len() && 0 <= m < g.islands@.len() && (g.bridges@[b].0.start
            == g.islands@[j].0 || g.bridges@[b].0.end == g.islands@[j].0) && #[trigger] g.islands@[m].0
            == other_end(#[trigger] g.bridges@[b].0, g.islands@[j].0) ==> visited[m]
}

/// A walk read backwards is a walk.
pub proof fn lemma_walk_reversed(g: HashiGrid, path: Seq<Position>)
    requires
        is_walk(g, path),
    ensures
        is_walk(g, path.reverse()),
{
    let r = path.reverse();
    assert forall|k: int| 0 <= k < r.len() implies g.has_island(#[trigger] r[k]) by {
        assert(r[k] == path[path.len() - 1 - k]);
    }
    assert forall|k: int| 0 <= k < r.len() - 1 implies bridged(g.bridges@, #[trigger] r[k], r[k + 1]) by {
        let j = path.len() - 2 - k;
        assert(r[k] == path[j + 1]);
        assert(r[k + 1] == path[j]);
        assert(bridged(g.bridges@, path[j], path[j + 1]));
        let i = choose|i: int|
            0 <= i < g.bridges@.len() && ((g.bridges@[i].0.start == path[j] && g.bridges@[i].0.end
                == path[j + 1]) || (g.bridges@[i].0.start == path[j + 1] && g.bridges@[i].0.end
                == path[j]));
        assert(0 <= i < g.bridges@.len());
    }
}

/// Two walks that meet end to start make one walk.
pub proof fn lemma_walk_joined(g: HashiGrid, p: Seq<Position>, q: Seq<Position>)
    requires
        is_walk(g, p),
        is_walk(g, q),
        p.last() == q[0],
    ensures
        is_walk(g, p + q.drop_first()),
        (p + q.drop_first())[0] == p[0],
        (p + q.drop_first()).last() == q.last(),
{
    let w = p + q.drop_first();
    assert forall|k: int| 0 <= k < w.len() implies g.has_island(#[trigger] w[k]) by {
        if k >= p.len() {
            assert(w[k] == q[k - p.len() + 1]);
        }
    }
    assert forall|k: int| 0 <= k < w.len() - 1 implies bridged(g.bridges@, #[trigger] w[k], w[k + 1]) by {
        if k < p.len() - 1 {
            assert(w[k] == p[k] && w[k + 1] == p[k + 1]);
        } else if k == p.len() - 1 {
            assert(w[k] == q[0] && w[k + 1] == q[1]);
        } else {
            assert(w[k] == q[k - p.len() + 1] && w[k + 1] == q[k - p.len() + 2]);
        }
    }
    if q.len() == 1 {
        assert(w.last() == p.last());
    }
}

/// Linking is symmetric and transitive.
pub proof fn lemma_linked_through(g: HashiGrid, s: Position, a: Position, b: Position)
    requires
        linked(g, s, a),
        linked(g, s, b),
    ensures
        linked(g, a, b),
{
    let pa = choose|path: Seq<Position>| is_walk(g, path) && path[0] == s && path.last() == a;
    let pb = choose|path: Seq<Position>| is_walk(g, path) && path[0] == s && path.last() == b;
    lemma_walk_reversed(g, pa);
    let ra = pa.reverse();
    assert(ra[0] == a);
    assert(ra.last() == s);
    lemma_walk_joined(g, ra, pb);
}

/// A walk followed by one more bridge is a walk.
proof fn lemma_walk_extended(g: HashiGrid, path: Seq<Position>, q: Position)
    requires
        is_walk(g, path),
        g.has_island(q),
        bridged(g.bridges@, path.last(), q),
    ensures
        is_walk(g, path.push(q)),
        path.push(q)[0] == path[0],
        path.push(q).last() == q,
{
    let w = path.push(q);
    assert forall|k: int| 0 <= k < w.len() implies g.has_island(#[trigger] w[k]) by {
        if k < path.len() {
            assert(w[k] == path[k]);
        }
    }
    assert forall|k: int| 0 <= k < w.len() - 1 implies bridged(g.bridges@, #[trigger] w[k], w[k + 1]) by {
        if k < path.len() - 1 {
            assert(w[k] == path[k] && w[k + 1] == path[k + 1]);
        } else {
            assert(w[k] == path.last() && w[k + 1] == q);
        }
    }
}

/// Marking more islands keeps an island closed.
proof fn lemma_closed_at_grows(g: HashiGrid, v1: Seq<bool>, v2: Seq<bool>, j: int)
    requires
        closed_at(g, v1, j),
        v1.len() == v2.len(),
        forall|m: int| 0 <= m < v1.len() && v1[m] ==> v2[m],
        v1.len() == g.islands@.len(),
    ensures
        closed_at(g, v2, j),
{
}

/// Every pair of cells that `s` joins by a bridge, `t` joins too.
pub open spec fn keeps_bridged(s: Seq<(BridgeLine, BridgeType)>, t: Seq<(BridgeLine, BridgeType)>) -> bool {
    forall|a: Position, b: Position| #[trigger] bridged(s, a, b) ==> bridged(t, a, b)
}

/// Adding an entry keeps every bridged pair and joins the new line's ends.
pub proof fn lemma_bridged_after_insert(
    s: Seq<(BridgeLine, BridgeType)>,
    i: int,
    e: (BridgeLine, BridgeType),
)
    requires
        0 <= i <= s.len(),
    ensures
        keeps_bridged(s, s.insert(i, e)),
        bridged(s.insert(i, e), e.0.start, e.0.end),
{
    let t = s.insert(i, e);
    assert forall|a: Position, b: Position| #[trigger] bridged(s, a, b) implies bridged(t, a, b) by {
        let k = choose|k: int|
            0 <= k < s.len() && ((s[k].0.start == a && s[k].0.end == b) || (s[k].0.start == b
                && s[k].0.end == a));
        if k < i {
            assert(t[k] == s[k]);
        } else {
            assert(t[k + 1] == s[k]);
        }
    }
    assert(t[i] == e);
}

/// Changing the type of an entry keeps every bridged pair.
pub proof fn lemma_bridged_after_update(s: Seq<(BridgeLine, BridgeType)>, i: int, kind: BridgeType)
    requires
        0 <= i < s.len(),
    ensures
        keeps_bridged(s, s.update(i, (s[i].0, kind))),
        bridged(s.update(i, (s[i].0, kind)), s[i].0.start, s[i].0.end),
{
    let t = s.update(i, (s[i].0, kind));
    assert forall|a: Position, b: Position| #[trigger] bridged(s, a, b) implies bridged(t, a, b) by {
        let k = choose|k: int|
            0 <= k < s.len() && ((s[k].0.start == a && s[k].0.end == b) || (s[k].0.start == b
                && s[k].0.end == a));
        assert(t[k].0 == s[k].0);
    }
    assert(t[i].0 == s[i].0);
}

/// A walk stays a walk when islands and bridges are only added.
pub proof fn lemma_walk_transfer(g: HashiGrid, g2: HashiGrid, path: Seq<Position>)
    requires
        is_walk(g, path),
        forall|q: Position| g.has_island(q) ==> #[trigger] g2.has_island(q),
        keeps_bridged(g.bridges@, g2.bridges@),
    ensures
        is_walk(g2, path),
{
    assert forall|k: int| 0 <= k < path.len() implies g2.has_island(#[trigger] path[k]) by {
        assert(g.has_island(path[k]));
    }
    assert forall|k: int| 0 <= k < path.len() - 1 implies bridged(g2.bridges@, #[trigger] path[k], path[k + 1]) by {
        assert(bridged(g.bridges@, path[k], path[k + 1]));
    }
}

/// A connected network stays connected when only bridges are added.
pub proof fn lemma_connected_transfer(g: HashiGrid, g2: HashiGrid)
    requires
        g.is_connected(),
        forall|q: Position| #[trigger] g2.has_island(q) <==> g.has_island(q),
        keeps_bridged(g.bridges@, g2.bridges@),
    ensures
        g2.is_connected(),
{
    assert forall|a: Position, b: Position|
        g2.has_island(a) && g2.has_island(b) implies #[trigger] linked(g2, a, b) by {
        assert(linked(g, a, b));
        let path = choose|path: Seq<Position>| is_walk(g, path) && path[0] == a && path.last() == b;
        lemma_walk_transfer(g, g2, path);
    }
}

/// A connected network stays connected when a new island arrives with a
/// bridge to one of its islands.
pub proof fn lemma_connected_after_growth(g: HashiGrid, g2: HashiGrid, from: Position, p: Position)
    requires
        g.is_connected(),
        g.has_island(from),
        forall|q: Position| #[trigger] g2.has_island(q) <==> (g.has_island(q) || q == p),
        keeps_bridged(g.bridges@, g2.bridges@),
        bridged(g2.bridges@, from, p),
    ensures
        g2.is_connected(),
{
    assert forall|x: Position| g2.has_island(x) implies linked(g2, from, x) by {
        if x == p {
            let w = seq![from, p];
            assert(w[0] == from && w[1] == p);
            assert(g2.has_island(from));
            assert(is_walk(g2, w));
            assert(w.last() == p);
        } else {
            assert(linked(g, from, x));
            let path = choose|path: Seq<Position>| is_walk(g, path) && path[0] == from && path.last() == x;
            lemma_walk_transfer(g, g2, path);
        }
    }
    assert forall|a: Position, b: Position|
        g2.has_island(a) && g2.has_island(b) implies #[trigger] linked(g2, a, b) by {
        lemma_linked_through(g2, from, a, b);
    }
}

/// A single island is a connected network.
pub proof fn lemma_single_island_connected(g: HashiGrid)
    requires
        g.islands@.len() == 1,
    ensures
        g.is_connected(),
{
    assert forall|a: Position, b: Position|
        g.has_island(a) && g.has_island(b) implies #[trigger] linked(g, a, b) by {
        assert(a == g.islands@[0].0 && b == g.islands@[0].0);
        let w = seq![a];
        assert(w[0] == a && w.last() == b);
        assert(is_walk(g, w));
    }
}

/// Marking island `m` and pushing it keeps every marked island other than
/// `u` either waiting or closed.
proof fn lemma_mark_keeps_closure(
    g: HashiGrid,
    old_visited: Seq<bool>,
    old_stack: Seq<usize>,
    visited: Seq<bool>,
    stack: Seq<usize>,
    u: int,
    m: int,
)
    requires
        old_visited.len() == g.islands@.len(),
        0 <= m < old_visited.len(),
        visited == old_visited.update(m, true),
        stack == old_stack.push(m as usize),
        forall|j: int|
            0 <= j < old_visited.len() && j != u && #[trigger] old_visited[j] ==> old_stack.contains(
                j as usize,
            ) || closed_at(g, old_visited, j),
    ensures
        forall|j: int|
            0 <= j < visited.len() && j != u && #[trigger] visited[j] ==> stack.contains(j as usize)
                || closed_at(g, visited, j),
{
    assert forall|j: int|
        0 <= j < visited.len() && j != u && #[trigger] visited[j] implies stack.contains(j as usize)
            || closed_at(g, visited, j) by {
        if j == m {
            assert(stack[stack.len() - 1] == j as usize);
        } else {
            assert(old_visited[j]);
            if old_stack.contains(j as usize) {
                let k = choose|k: int| 0 <= k < old_stack.len() && old_stack[k] == j as usize;
                assert(stack[k] == j as usize);
            } else {
                lemma_closed_at_grows(g, old_visited, visited, j);
            }
        }
    }
}

/// From a marked island, a walk never leaves the marked islands once every
/// marked island is closed.
proof fn lemma_walk_stays_marked(g: HashiGrid, visited: Seq<bool>, path: Seq<Position>, j0: int)
    requires
        rank_sorted(g.islands@),
        visited.len() == g.islands@.len(),
        forall|j: int| 0 <= j < visited.len() && #[trigger] visited[j] ==> closed_at(g, visited, j),
        is_walk(g, path),
        0 <= j0 < visited.len(),
        visited[j0],
        path[0] == g.islands@[j0].0,
    ensures
        exists|m: int| 0 <= m < visited.len() && g.islands@[m].0 == path.last() && visited[m],
    decreases path.len(),
{
    let isl = g.islands@;
    if path.len() > 1 {
        let prefix = path.drop_last();
        assert forall|k: int| 0 <= k < prefix.len() implies g.has_island(#[trigger] prefix[k]) by {
            assert(prefix[k] == path[k]);
        }
        assert forall|k: int| 0 <= k < prefix.len() - 1 implies bridged(
            g.bridges@,
            #[trigger] prefix[k],
            prefix[k + 1],
        ) by {
            assert(prefix[k] == path[k] && prefix[k + 1] == path[k + 1]);
        }
        lemma_walk_stays_marked(g, visited, prefix, j0);
        let m = choose|m: int| 0 <= m < visited.len() && isl[m].0 == prefix.last() && visited[m];
        let k = path.len() - 2;
        assert(prefix.last() == path[k]);
        assert(bridged(g.bridges@, path[k], path[k + 1]));
        let b = choose|i: int|
            0 <= i < g.bridges@.len() && ((g.bridges@[i].0.start == path[k] && g.bridges@[i].0.end
                == path[k + 1]) || (g.bridges@[i].0.start == path[k + 1] && g.bridges@[i].0.end
                == path[k]));
        assert(g.has_island(path[k + 1]));
        let m2 = choose|m2: int| 0 <= m2 < isl.len() && isl[m2].0 == path[k + 1];
        assert(closed_at(g, visited, m));
        assert(isl[m2].0 == other_end(g.bridges@[b].0, isl[m].0));
        assert(visited[m2]);
    }
}

impl HashiGrid {
    /// Marks, by index, the islands that walks along bridges reach from the first island.
    fn reached_from_first(&self) -> (visited: Vec<bool>)
        requires
            self.islands@.len() > 0,
        ensures
            visited@.len() == self.islands@.len(),
            forall|j: int|
                0 <= j < visited@.len() ==> (visited@[j] <==> linked(
                    *self,
                    self.islands@[0].0,
                    #[trigger] self.islands@[j].0,
                )),
    {
        let n = self.islands.len();
        let ghost isl = self.islands@;
        let ghost br = self.bridges@;
        let ghost s0 = isl[0].0;
        let mut visited: Vec<bool> = Vec::new();
        let mut i: usize = 0;
        while i < n
            invariant
                i <= n,
                visited@.len() == i,
                forall|j: int| 0 <= j < i ==> !visited@[j],
            decreases n - i,
        {
            visited.push(false);
            i = i + 1;
        }
        visited.set(0, true);
        let ghost mut seen: Set<int> = set![0];
        let mut stack: Vec<usize> = Vec::new();
        stack.push(0);
        proof {
            let p0 = seq![s0];
            assert(self.has_island(s0)) by {
                assert(isl[0].0 == s0);
            }
            assert(is_walk(*self, p0));
            assert(p0[0] == s0 && p0.last() == s0);
            assert(linked(*self, s0, s0));
            assert(stack@[0] == 0usize);
        }
        while stack.len() > 0
            invariant
                n == isl.len(),
                isl == self.islands@,
                br == self.bridges@,
                n > 0,
                s0 == isl[0].0,
                rank_sorted(isl),
                visited@.len() == n,
                visited@[0],
                seen.finite(),
                forall|j: int| 0 <= j < n ==> (visited@[j] <==> seen.contains(j)),
                forall|j: int| seen.contains(j) ==> 0 <= j < n,
                forall|j: int| 0 <= j < n && visited@[j] ==> linked(*self, s0, #[trigger] isl[j].0),
                forall|k: int| 0 <= k < stack@.len() ==> #[trigger] stack@[k] < n && visited@[stack@[k] as int],
                forall|j: int|
                    0 <= j < n && #[trigger] visited@[j] ==> stack@.contains(j as usize)
                        || closed_at(*self, visited@, j),
            decreases n - seen.len(), stack.len(),
        {
            proof {
                vstd::set_lib::lemma_int_range(0, n as int);
                vstd::set_lib::lemma_len_subset(seen, set_int_range(0, n as int));
            }
            let ghost stack_before_pop = stack@;
            let u = stack.pop().unwrap();
            let (pu, _) = self.islands.entry(u);
            let ghost stack_after_pop = stack@;
            let ghost seen_at_pop = seen;
            proof {
                assert(stack_before_pop == stack_after_pop.push(u));
                assert forall|j: int|
                    0 <= j < n && j != u && #[trigger] visited@[j] implies stack@.contains(j as usize)
                        || closed_at(*self, visited@, j) by {
                    if stack_before_pop.contains(j as usize) {
                        let k = choose|k: int| 0 <= k < stack_before_pop.len() && stack_before_pop[k] == j as usize;
                        if k < stack_after_pop.len() {
                            assert(stack_after_pop[k] == j as usize);
                        }
                    }
                }
            }
            let m_len = self.bridges.len();
            let mut b: usize = 0;
            while b < m_len
                invariant
                    n == isl.len(),
                    isl == self.islands@,
                    br == self.bridges@,
                    m_len == br.len(),
                    n > 0,
                    visited@[0],
                    s0 == isl[0].0,
                    rank_sorted(isl),
                    u < n,
                    pu == isl[u as int].0,
                    visited@[u as int],
                    b <= m_len,
                    visited@.len() == n,
                    seen.finite(),
                    seen_at_pop.finite(),
                    seen.len() > seen_at_pop.len() || stack@ == stack_after_pop,
                    seen.len() >= seen_at_pop.len(),
                    forall|j: int| 0 <= j < n ==> (visited@[j] <==> seen.contains(j)),
                    forall|j: int| seen.contains(j) ==> 0 <= j < n,
                    forall|j: int| 0 <= j < n && visited@[j] ==> linked(*self, s0, #[trigger] isl[j].0),
                    forall|k: int| 0 <= k < stack@.len() ==> #[trigger] stack@[k] < n && visited@[stack@[k] as int],
                    forall|j: int|
                        0 <= j < n && j != u && #[trigger] visited@[j] ==> stack@.contains(j as usize)
                            || closed_at(*self, visited@, j),
                    forall|c: int, m: int|
                        0 <= c < b && 0 <= m < n && (br[c].0.start == pu || br[c].0.end == pu)
                            && #[trigger] isl[m].0 == other_end(#[trigger] br[c].0, pu) ==> visited@[m],
                decreases m_len - b,
            {
                let (line, _) = self.bridges.entry(b);
                if line.start == pu || line.end == pu {
                    let q = if line.start == pu { line.end } else { line.start };
                    match self.islands.find(&q) {
                        None => {},
                        Some(m) => {
                            if !visited[m] {
                                proof {
                                    let pw = choose|path: Seq<Position>|
                                        is_walk(*self, path) && path[0] == s0 && path.last() == pu;
                                    assert(bridged(br, pu, q)) by {
                                        assert(0 <= b < br.len());
                                    }
                                    assert(self.has_island(q)) by {
                                        assert(isl[m as int].0 == q);
                                    }
                                    lemma_walk_extended(*self, pw, q);
                                    assert(linked(*self, s0, isl[m as int].0));
                                }
                                let ghost old_visited = visited@;
                                let ghost old_stack = stack@;
                                visited.set(m, true);
                                stack.push(m);
                                proof {
                                    seen = seen.insert(m as int);
                                    lemma_mark_keeps_closure(
                                        *self,
                                        old_visited,
                                        old_stack,
                                        visited@,
                                        stack@,
                                        u as int,
                                        m as int,
                                    );
                                }
                            }
                        },
                    }
                }
                b = b + 1;
            }
            proof {
                vstd::set_lib::lemma_int_range(0, n as int);
                vstd::set_lib::lemma_len_subset(seen, set_int_range(0, n as int));
                assert(closed_at(*self, visited@, u as int));
            }
        }
        proof {
            assert forall|j: int|
                0 <= j < n implies (visited@[j] <==> linked(*self, s0, #[trigger] isl[j].0)) by {
                if linked(*self, s0, isl[j].0) {
                    let path = choose|path: Seq<Position>|
                        is_walk(*self, path) && path[0] == s0 && path.last() == isl[j].0;
                    assert forall|j2: int| 0 <= j2 < visited@.len() && #[trigger] visited@[j2] implies closed_at(*self, visited@, j2) by {
                        assert(!stack@.contains(j2 as usize));
                    }
                    lemma_walk_stays_marked(*self, visited@, path, 0);
                    let m = choose|m: int| 0 <= m < visited@.len() && isl[m].0 == path.last() && visited@[m];
                    if m != j {
                        assert(isl[m].0.rank() != isl[j].0.rank());
                    }
                }
            }
        }
        visited
    }
}

impl HashiGrid {
    /// Whether the puzzle is solved: every island has its requirement set
    /// and met exactly, and the bridges join all islands into one network.
    pub fn is_complete(&self) -> (r: bool)
        ensures
            r == self.is_solved(),
    {
        let n = self.islands.len();
        let ghost isl = self.islands@;
        let mut i: usize = 0;
        while i < n
            invariant
                n == isl.len(),
                isl == self.islands@,
                i <= n,
                forall|j: int| 0 <= j < i ==> (#[trigger] isl[j]).1.required_bridges != 0,
            decreases n - i,
        {
            let (_, island) = self.islands.entry(i);
            if island.required_bridges == 0 {
                return false;
            }
            i = i + 1;
        }
        let mut i: usize = 0;
        while i < n
            invariant
                n == isl.len(),
                isl == self.islands@,
                i <= n,
                forall|j: int| 0 <= j < n ==> (#[trigger] isl[j]).1.required_bridges != 0,
                forall|j: int|
                    0 <= j < i ==> self.weight_at((#[trigger] isl[j]).0) == isl[j].1.required_bridges,
            decreases n - i,
        {
            let (position, island) = self.islands.entry(i);
            let count = self.count_bridges_ending_at(position);
            if count != island.required_bridges as u128 {
                return false;
            }
            i = i + 1;
        }
        if n == 0 {
            return true;
        }
        let visited = self.reached_from_first();
        let mut j: usize = 0;
        while j < n
            invariant
                n == isl.len(),
                isl == self.islands@,
                visited@.len() == n,
                n > 0,
                j <= n,
                forall|k: int| 0 <= k < j ==> visited@[k],
                forall|k: int|
                    0 <= k < n ==> (visited@[k] <==> linked(*self, isl[0].0, #[trigger] isl[k].0)),
                forall|k: int| 0 <= k < n ==> (#[trigger] isl[k]).1.required_bridges != 0,
                forall|k: int|
                    0 <= k < n ==> self.weight_at((#[trigger] isl[k]).0) == isl[k].1.required_bridges,
            decreases n - j,
        {
            if !visited[j] {
                proof {
                    assert(self.has_island(isl[0].0));
                    assert(self.has_island(isl[j as int].0));
                    assert(!linked(*self, isl[0].0, isl[j as int].0));
                }
                return false;
            }
            j = j + 1;
        }
        proof {
            assert forall|a: Position, b: Position|
                self.has_island(a) && self.has_island(b) implies #[trigger] linked(*self, a, b) by {
                let ia = choose|k: int| 0 <= k < isl.len() && isl[k].0 == a;
                let ib = choose|k: int| 0 <= k < isl.len() && isl[k].0 == b;
                assert(visited@[ia] && visited@[ib]);
                lemma_linked_through(*self, isl[0].0, a, b);
            }
        }
        true
    }
}

} // verus!
