//! Seeded construction of a solvable puzzle.
use crate::connectivity::{
    bridged, is_walk, lemma_connected_after_growth, lemma_connected_transfer,
    lemma_single_island_connected, linked,
};
use crate::error::HashiError;
use crate::geometry::{BridgeLine, Position};
use crate::grid::{BridgeType, HashiGrid, Island};
use crate::ordered_map::{lemma_has_key_after_insert, rank_sorted, Ranked};
use crate::random::{entropy_rng, random_below, random_ratio, seeded_rng};
use crate::rules::{
    lemma_degree_at_most_eight, lemma_weight_remove, lemma_wf_after_requirement, touches,
};
use rand::rngs::StdRng;
use vstd::prelude::*;

verus! {

/// The fewest islands a puzzle is grown towards.
pub const MIN_ISLANDS: usize = 8;

/// Cells of the grid per island grown towards.
pub const CELLS_PER_ISLAND: usize = 5;

/// Attempts at growing the island tree, per island grown towards.
const ATTEMPTS_PER_ISLAND: usize = 100;

/// A bridge between neighbouring islands is tried with this chance, out of `LOOP_OUT_OF`.
const LOOP_CHANCE: u32 = 3;

const LOOP_OUT_OF: u32 = 5;

/// A single bridge is tried as double with this chance, out of `DOUBLE_OUT_OF`.
const DOUBLE_CHANCE: u32 = 3;

const DOUBLE_OUT_OF: u32 = 10;

/// The four ways out of an island.
enum Direction {
    Up,
    Down,
    Left,
    Right,
}

/// Whether `q` lies beyond `from`, in `direction`, on the same column or row.
spec fn ahead(from: Position, direction: Direction, q: Position) -> bool {
    match direction {
        Direction::Up => q.x == from.x && q.y < from.y,
        Direction::Down => q.x == from.x && q.y > from.y,
        Direction::Left => q.y == from.y && q.x < from.x,
        Direction::Right => q.y == from.y && q.x > from.x,
    }
}

/// The number of islands that generation grows towards: one per
/// `CELLS_PER_ISLAND` cells, and at least `MIN_ISLANDS`.
pub open spec fn island_target(width: u8, height: u8) -> int {
    let share = (width * height) as int / CELLS_PER_ISLAND as int;
    if share > MIN_ISLANDS as int {
        share
    } else {
        MIN_ISLANDS as int
    }
}

/// Every island has its requirement set to the bridge ends it receives.
pub open spec fn finalized(g: HashiGrid) -> bool {
    forall|i: int|
        #![trigger g.islands@[i]]
        0 <= i < g.islands@.len() ==> g.islands@[i].1.required_bridges == g.weight_at(
            g.islands@[i].0,
        )
}

/// A connected network of two or more islands, with every requirement set
/// to the bridge ends received, is a solved puzzle: each island receives at
/// least the bridge of its first step towards another island.
pub proof fn lemma_finalized_network_is_solved(g: HashiGrid)
    requires
        g.is_connected(),
        finalized(g),
        rank_sorted(g.islands@),
        g.islands@.len() >= 2,
    ensures
        g.is_solved(),
{
    let isl = g.islands@;
    assert forall|k: int|
        #![trigger isl[k]]
        0 <= k < isl.len() implies isl[k].1.required_bridges != 0 by {
        let k2: int = if k == 0 { 1 } else { 0 };
        let a = isl[k].0;
        let b = isl[k2].0;
        assert(a.rank() != b.rank());
        assert(g.has_island(a) && g.has_island(b));
        assert(linked(g, a, b));
        let path = choose|path: Seq<Position>| is_walk(g, path) && path[0] == a && path.last() == b;
        assert(path.len() >= 2);
        assert(bridged(g.bridges@, path[0], path[1]));
        let i = choose|i: int|
            0 <= i < g.bridges@.len() && ((g.bridges@[i].0.start == path[0] && g.bridges@[i].0.end
                == path[1]) || (g.bridges@[i].0.start == path[1] && g.bridges@[i].0.end == path[0]));
        assert(touches(g.bridges@[i].0, a));
        lemma_weight_remove(g.bridges@, i, a);
    }
}

/// The nearest island beyond `from` in `direction`, if any.
fn nearest_island(grid: &HashiGrid, from: Position, direction: &Direction) -> (r: Option<Position>)
    ensures
        r matches Some(t) ==> {
            &&& ahead(from, *direction, t)
            &&& grid.has_island(t)
            &&& forall|q: Position|
                ahead(from, *direction, q) && ahead(q, *direction, t) ==> !#[trigger] grid.has_island(q)
        },
        r is None ==> forall|q: Position|
            ahead(from, *direction, q) && q.x < grid.width && q.y < grid.height ==> !#[trigger] grid.has_island(q),
{
    match direction {
        Direction::Up => {
            let mut y = from.y;
            while y > 0
                invariant
                    y <= from.y,
                    *direction is Up,
                    forall|q: Position|
                        q.x == from.x && y <= q.y < from.y ==> !#[trigger] grid.has_island(q),
                decreases y,
            {
                y = y - 1;
                let pos = Position { x: from.x, y };
                if grid.islands.contains_key(&pos) {
                    return Some(pos);
                }
            }
        },
        Direction::Down => {
            let mut y = from.y;
            while (y as u32) + 1 < grid.height as u32
                invariant
                    y >= from.y,
                    *direction is Down,
                    forall|q: Position|
                        q.x == from.x && from.y < q.y <= y ==> !#[trigger] grid.has_island(q),
                decreases grid.height - y,
            {
                y = y + 1;
                let pos = Position { x: from.x, y };
                if grid.islands.contains_key(&pos) {
                    return Some(pos);
                }
            }
        },
        Direction::Left => {
            let mut x = from.x;
            while x > 0
                invariant
                    x <= from.x,
                    *direction is Left,
                    forall|q: Position|
                        q.y == from.y && x <= q.x < from.x ==> !#[trigger] grid.has_island(q),
                decreases x,
            {
                x = x - 1;
                let pos = Position { x, y: from.y };
                if grid.islands.contains_key(&pos) {
                    return Some(pos);
                }
            }
        },
        Direction::Right => {
            let mut x = from.x;
            while (x as u32) + 1 < grid.width as u32
                invariant
                    x >= from.x,
                    *direction is Right,
                    forall|q: Position|
                        q.y == from.y && from.x < q.x <= x ==> !#[trigger] grid.has_island(q),
                decreases grid.width - x,
            {
                x = x + 1;
                let pos = Position { x, y: from.y };
                if grid.islands.contains_key(&pos) {
                    return Some(pos);
                }
            }
        },
    }
    None
}

/// With the loop chance, tries a bridge from `from` to the nearest island in
/// `direction`; a refused bridge is passed over.
fn try_loop_bridge(grid: &mut HashiGrid, rng: &mut StdRng, from: Position, direction: Direction)
    requires
        old(grid).wf(),
    ensures
        final(grid).wf(),
        final(grid).width == old(grid).width,
        final(grid).height == old(grid).height,
        final(grid).islands == old(grid).islands,
        old(grid).is_connected() ==> final(grid).is_connected(),
{
    let ghost g0 = *grid;
    match nearest_island(grid, from, &direction) {
        Some(target) => {
            if random_ratio(rng, LOOP_CHANCE, LOOP_OUT_OF) {
                match BridgeLine::new(from, target) {
                    Ok(line) => {
                        let _ = grid.add_bridge(line);
                    },
                    Err(_) => {},
                }
            }
        },
        None => {},
    }
    proof {
        if g0.is_connected() {
            lemma_connected_transfer(g0, *grid);
        }
    }
}

/// A position beyond `from` in a random direction, drawn uniformly among
/// the cells up to the grid's edge, or nothing when that edge is reached.
fn propose_position(rng: &mut StdRng, from: Position, width: u8, height: u8) -> (r: Option<
    Position,
>)
    requires
        from.x < width,
        from.y < height,
    ensures
        r matches Some(p) ==> p != from && (p.x == from.x || p.y == from.y) && p.x < width && p.y
            < height,
{
    let direction = random_below(rng, 0, 4);
    if direction == 0 {
        if from.y == 0 {
            None
        } else {
            Some(Position { x: from.x, y: random_below(rng, 0, from.y as u32) as u8 })
        }
    } else if direction == 1 {
        if from.y as u32 + 1 >= height as u32 {
            None
        } else {
            Some(Position { x: from.x, y: random_below(rng, from.y as u32 + 1, height as u32) as u8 })
        }
    } else if direction == 2 {
        if from.x == 0 {
            None
        } else {
            Some(Position { x: random_below(rng, 0, from.x as u32) as u8, y: from.y })
        }
    } else {
        if from.x as u32 + 1 >= width as u32 {
            None
        } else {
            Some(Position { x: random_below(rng, from.x as u32 + 1, width as u32) as u8, y: from.y })
        }
    }
}

/// Grids with the same size, islands and bridges keep the same rules and
/// the same connections.
proof fn lemma_same_content(g1: HashiGrid, g2: HashiGrid)
    requires
        g1.width == g2.width,
        g1.height == g2.height,
        g1.islands@ == g2.islands@,
        g1.bridges@ == g2.bridges@,
    ensures
        g1.wf() == g2.wf(),
        g1.is_connected() == g2.is_connected(),
{
    if g1.is_connected() {
        lemma_connected_transfer(g1, g2);
    }
    if g2.is_connected() {
        lemma_connected_transfer(g2, g1);
    }
}

/// Places an island at `position` with a bridge to the island at `existing`;
/// when the island or its bridge is refused, the grid is left as it was.
fn place_joined(grid: &mut HashiGrid, existing: Position, position: Position)
    requires
        old(grid).wf(),
        old(grid).is_connected(),
        old(grid).has_island(existing),
        position != existing,
        position.x == existing.x || position.y == existing.y,
    ensures
        final(grid).wf(),
        final(grid).is_connected(),
        final(grid).width == old(grid).width,
        final(grid).height == old(grid).height,
        final(grid).islands@.len() >= old(grid).islands@.len(),
        final(grid).islands@.len() <= old(grid).islands@.len() + 1,
{
    let line = match BridgeLine::new(existing, position) {
        Err(_) => {
            return ;
        },
        Ok(line) => line,
    };
    let ghost before = *grid;
    match grid.add_island(position) {
        Err(_) => {},
        Ok(()) => {
            let ghost placed = *grid;
            let ghost i0 = choose|i0: int|
                0 <= i0 <= before.islands@.len() && placed.islands@ == before.islands@.insert(
                    i0,
                    (position, Island { required_bridges: 0 }),
                );
            match grid.add_bridge(line) {
                Ok(_) => {
                    proof {
                        assert forall|q: Position|
                            #[trigger] grid.has_island(q) <==> (before.has_island(q) || q
                                == position) by {
                            lemma_has_key_after_insert(
                                before.islands@,
                                i0,
                                (position, Island { required_bridges: 0 }),
                                q,
                            );
                        }
                        lemma_connected_after_growth(before, *grid, existing, position);
                    }
                },
                Err(_) => {
                    // `len` states that the entries are in rank order.
                    let _ = grid.islands.len();
                    match grid.islands.find(&position) {
                        None => {
                            assert(grid.islands@[i0].0 == position);
                        },
                        Some(i) => {
                            proof {
                                assert(placed.islands@[i0].0 == position);
                                assert(i == i0);
                            }
                            grid.islands.remove_at(i);
                            proof {
                                assert(grid.islands@ =~= before.islands@);
                                lemma_same_content(before, *grid);
                            }
                        },
                    }
                },
            }
        },
    }
}

impl HashiGrid {
    /// A puzzle of the given size from a freshly seeded random stream.
    pub fn generate(width: u8, height: u8) -> (r: Result<Self, HashiError>)
        ensures
            (width == 0 || height == 0) <==> r == Err::<HashiGrid, HashiError>(HashiError::Size),
            r is Ok <==> (width > 0 && height > 0),
            r is Ok ==> ({
                let g = r->Ok_0;
                &&& g.width == width
                &&& g.height == height
                &&& g.wf()
                &&& 1 <= g.islands@.len() <= island_target(width, height)
                &&& finalized(g)
                &&& g.is_connected()
                &&& g.islands@.len() >= 2 ==> g.is_solved()
            }),
    {
        let rng = entropy_rng();
        Self::generate_from(width, height, rng)
    }

    /// The puzzle of the given size that `seed` determines.
    pub fn generate_with_seed(width: u8, height: u8, seed: u64) -> (r: Result<Self, HashiError>)
        ensures
            (width == 0 || height == 0) <==> r == Err::<HashiGrid, HashiError>(HashiError::Size),
            r is Ok <==> (width > 0 && height > 0),
            r is Ok ==> ({
                let g = r->Ok_0;
                &&& g.width == width
                &&& g.height == height
                &&& g.wf()
                &&& 1 <= g.islands@.len() <= island_target(width, height)
                &&& finalized(g)
                &&& g.is_connected()
                &&& g.islands@.len() >= 2 ==> g.is_solved()
            }),
    {
        let rng = seeded_rng(seed);
        Self::generate_from(width, height, rng)
    }

    /// Grows a tree of bridged islands from one random island, adds bridges
    /// between neighbours, doubles some bridges, and then sets each island's
    /// requirement to the bridge ends it has.
    fn generate_from(width: u8, height: u8, rng: StdRng) -> (r: Result<Self, HashiError>)
        ensures
            (width == 0 || height == 0) <==> r == Err::<HashiGrid, HashiError>(HashiError::Size),
            r is Ok <==> (width > 0 && height > 0),
            r is Ok ==> ({
                let g = r->Ok_0;
                &&& g.width == width
                &&& g.height == height
                &&& g.wf()
                &&& 1 <= g.islands@.len() <= island_target(width, height)
                &&& finalized(g)
                &&& g.is_connected()
                &&& g.islands@.len() >= 2 ==> g.is_solved()
            }),
    {
        let mut rng = rng;
        let mut grid = match HashiGrid::new(width, height) {
            Err(e) => {
                return Err(e);
            },
            Ok(g) => g,
        };
        assert((width as nat) * (height as nat) <= 255 * 255) by (nonlinear_arith)
            requires
                width <= 255,
                height <= 255,
        ;
        let area: usize = width as usize * height as usize;
        let num_islands: usize = if area / CELLS_PER_ISLAND > MIN_ISLANDS {
            area / CELLS_PER_ISLAND
        } else {
            MIN_ISLANDS
        };
        let x = random_below(&mut rng, 0, width as u32) as u8;
        let y = random_below(&mut rng, 0, height as u32) as u8;
        let first = grid.add_island(Position { x, y });
        assert(first is Ok);
        proof {
            lemma_single_island_connected(grid);
        }

        let mut attempts_left: usize = num_islands * ATTEMPTS_PER_ISLAND;
        while grid.islands.len() < num_islands && attempts_left > 0
            invariant
                grid.wf(),
                grid.width == width,
                grid.height == height,
                width > 0,
                height > 0,
                grid.islands@.len() >= 1,
                grid.islands@.len() <= num_islands,
                num_islands == island_target(width, height),
                grid.is_connected(),
                num_islands <= 13005,
            decreases attempts_left,
        {
            attempts_left = attempts_left - 1;
            let count = grid.islands.len();
            let index = random_below(&mut rng, 0, count as u32) as usize;
            let (existing, _) = grid.islands.entry(index);
            match propose_position(&mut rng, existing, width, height) {
                None => {},
                Some(position) => {
                    proof {
                        assert(grid.has_island(existing)) by {
                            assert(grid.islands@[index as int].0 == existing);
                        }
                    }
                    place_joined(&mut grid, existing, position);
                },
            }
        }

        let ghost grown = grid.islands@.len();
        let positions = grid.islands.keys();
        let mut k: usize = 0;
        while k < positions.len()
            invariant
                grid.wf(),
                grid.width == width,
                grid.height == height,
                grid.islands@.len() == grown,
                1 <= grown <= island_target(width, height),
                grid.is_connected(),
            decreases positions.len() - k,
        {
            let from = positions[k];
            try_loop_bridge(&mut grid, &mut rng, from, Direction::Up);
            try_loop_bridge(&mut grid, &mut rng, from, Direction::Down);
            try_loop_bridge(&mut grid, &mut rng, from, Direction::Left);
            try_loop_bridge(&mut grid, &mut rng, from, Direction::Right);
            k = k + 1;
        }

        let mut to_double: Vec<BridgeLine> = Vec::new();
        let n = grid.bridges.len();
        let mut i: usize = 0;
        while i < n
            invariant
                n == grid.bridges@.len(),
                i <= n,
                grid.wf(),
                grid.is_connected(),
                grid.islands@.len() == grown,
                forall|j: int|
                    0 <= j < to_double@.len() ==> crate::geometry::normalized(
                        #[trigger] to_double@[j],
                    ),
            decreases n - i,
        {
            let (line, kind) = grid.bridges.entry(i);
            if kind == BridgeType::Single && random_ratio(&mut rng, DOUBLE_CHANCE, DOUBLE_OUT_OF) {
                to_double.push(line);
            }
            i = i + 1;
        }
        let mut j: usize = 0;
        while j < to_double.len()
            invariant
                grid.wf(),
                grid.width == width,
                grid.height == height,
                grid.islands@.len() == grown,
                1 <= grown <= island_target(width, height),
                grid.is_connected(),
                forall|a: int|
                    0 <= a < to_double@.len() ==> crate::geometry::normalized(
                        #[trigger] to_double@[a],
                    ),
            decreases to_double.len() - j,
        {
            let ghost g0 = grid;
            let _ = grid.add_bridge(to_double[j]);
            proof {
                lemma_connected_transfer(g0, grid);
            }
            j = j + 1;
        }

        let ghost settled = grid;
        let m = grid.islands.len();
        let mut k: usize = 0;
        while k < m
            invariant
                m == grid.islands@.len(),
                k <= m,
                grid.wf(),
                grid.width == width,
                grid.height == height,
                1 <= m <= island_target(width, height),
                grid.bridges == settled.bridges,
                settled.islands@.len() == m,
                forall|a: int| 0 <= a < m ==> (#[trigger] grid.islands@[a]).0 == settled.islands@[a].0,
                forall|a: int|
                    #![trigger grid.islands@[a]]
                    0 <= a < k ==> grid.islands@[a].1.required_bridges == grid.weight_at(
                        grid.islands@[a].0,
                    ),
            decreases m - k,
        {
            let (position, _) = grid.islands.entry(k);
            // `len` states that the entries are in rank order.
            let _ = grid.bridges.len();
            proof {
                lemma_degree_at_most_eight(grid, position);
            }
            let count = grid.count_bridges_ending_at(position);
            let ghost g0 = grid;
            grid.islands.set_at(k, Island { required_bridges: count as u8 });
            proof {
                lemma_wf_after_requirement(g0, grid, k as int);
                assert forall|a: int|
                    #![trigger grid.islands@[a]]
                    0 <= a < k + 1 implies grid.islands@[a].1.required_bridges == grid.weight_at(
                        grid.islands@[a].0,
                    ) by {
                    if a < k {
                        assert(grid.islands@[a] == g0.islands@[a]);
                    }
                }
            }
            k = k + 1;
        }
        proof {
            assert forall|q: Position| #[trigger] grid.has_island(q) <==> settled.has_island(q) by {
                if grid.has_island(q) {
                    let a = choose|a: int| 0 <= a < m && grid.islands@[a].0 == q;
                    assert(settled.islands@[a].0 == q);
                }
                if settled.has_island(q) {
                    let a = choose|a: int| 0 <= a < m && settled.islands@[a].0 == q;
                    assert(grid.islands@[a].0 == q);
                }
            }
            lemma_connected_transfer(settled, grid);
        }
        // `len` states that the entries are in rank order.
        let _ = grid.islands.len();
        proof {
            if m >= 2 {
                lemma_finalized_network_is_solved(grid);
            }
        }
        Ok(grid)
    }
}

} // verus!
