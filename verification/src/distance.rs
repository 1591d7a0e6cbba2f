use crate::board::spec_clamp;
use crate::building::Building;
use crate::geometry::{Pos, MAX_BOARD_SIZE};
use crate::grid::{lemma_distinct_bounded, lemma_slots_differ, neighbour, neighbour_of, on_grid, slot_at, spec_slot};
use crate::region::cell_open;
use crate::scene::Sim;
use vstd::prelude::*;

verus! {

/// For each cell of a board, the number of steps to a target, or nothing
/// where the target cannot be reached.
#[derive(Clone, Debug, PartialEq, Eq)]
pub struct DistanceMap {
    pub width: i8,
    pub height: i8,
    pub cells: Vec<Option<u16>>,
}

impl DistanceMap {
    /// The dimensions are within limits and there is one entry per cell.
    pub open spec fn wf(self) -> bool {
        &&& 0 <= self.width <= MAX_BOARD_SIZE
        &&& 0 <= self.height <= MAX_BOARD_SIZE
        &&& self.cells@.len() == self.width * self.height
    }

    /// The entry of the cell at `p`.
    pub open spec fn at(self, p: Pos) -> Option<u16> {
        self.cells@[spec_slot(self.width, p)]
    }

    /// The entry of the cell at `p`, or nothing off the grid.
    pub open spec fn reach(self, p: Pos) -> Option<u16> {
        if on_grid(self.width, self.height, p) {
            self.at(p)
        } else {
            None
        }
    }

    /// A map without entries, of `width` by `height` cells, each side
    /// brought into `0..=MAX_BOARD_SIZE`.
    pub fn new(width: i8, height: i8) -> (m: DistanceMap)
        ensures
            m.wf(),
            m.width == spec_clamp(width),
            m.height == spec_clamp(height),
            forall|p: Pos| on_grid(m.width, m.height, p) ==> (#[trigger] m.at(p)) is None,
    {
        let width: i8 = if width < 0 {
            0
        } else if width > MAX_BOARD_SIZE {
            MAX_BOARD_SIZE
        } else {
            width
        };
        let height: i8 = if height < 0 {
            0
        } else if height > MAX_BOARD_SIZE {
            MAX_BOARD_SIZE
        } else {
            height
        };
        assert(width as int * height as int <= 10000) by (nonlinear_arith)
            requires
                0 <= width <= 100,
                0 <= height <= 100,
        ;
        let n: usize = width as usize * height as usize;
        let mut cells: Vec<Option<u16>> = Vec::new();
        let mut i: usize = 0;
        while i < n
            invariant
                i <= n,
                cells@.len() == i,
                forall|j: int| 0 <= j < i ==> cells@[j] is None,
            decreases n - i,
        {
            cells.push(None);
            i += 1;
        }
        let m = DistanceMap { width, height, cells };
        assert forall|p: Pos| on_grid(m.width, m.height, p) implies m.at(p) is None by {
            crate::board::lemma_index_in_range(
                m.width as int,
                m.height as int,
                p.x as int,
                p.y as int,
            );
        }
        m
    }

    /// The entry of the cell at `pos`, or `None` if `pos` is off the grid.
    pub fn get(&self, pos: Pos) -> (d: Option<Option<u16>>)
        requires
            self.wf(),
        ensures
            d == if on_grid(self.width, self.height, pos) {
                Some(self.at(pos))
            } else {
                None
            },
    {
        if pos.x < 0 || pos.x >= self.width {
            return None;
        }
        if pos.y < 0 || pos.y >= self.height {
            return None;
        }
        Some(self.cells[slot_at(self.width, self.height, pos)])
    }

    /// The number of steps from `pos`, or `None` off the grid or where the
    /// target cannot be reached.
    pub fn steps(&self, pos: Pos) -> (d: Option<u16>)
        requires
            self.wf(),
        ensures
            d == self.reach(pos),
    {
        match self.get(pos) {
            Some(d) => d,
            None => None,
        }
    }

    /// Overwrites the entry of the cell at `pos`, which is on the grid.
    pub fn set(&mut self, pos: Pos, d: Option<u16>)
        requires
            old(self).wf(),
            on_grid(old(self).width, old(self).height, pos),
        ensures
            final(self).wf(),
            final(self).width == old(self).width,
            final(self).height == old(self).height,
            final(self).at(pos) == d,
            forall|q: Pos|
                on_grid(old(self).width, old(self).height, q) && q != pos
                    ==> #[trigger] final(self).at(q) == old(self).at(q),
    {
        let i = slot_at(self.width, self.height, pos);
        self.cells[i] = d;
        proof {
            assert forall|q: Pos|
                on_grid(old(self).width, old(self).height, q) && q != pos implies self.at(q)
                == old(self).at(q) by {
                lemma_slots_differ(self.width, self.height, q, pos);
            }
        }
    }
}

/// `p` lies beside the rectangle of `w` by `h` cells at `anchor`: outside
/// it, next to one of its edges.
pub open spec fn on_rim(anchor: Pos, w: int, h: int, p: Pos) -> bool {
    ||| (p.y == anchor.y - 1 || p.y == anchor.y + h) && anchor.x <= p.x < anchor.x + w
    ||| (p.x == anchor.x - 1 || p.x == anchor.x + w) && anchor.y <= p.y < anchor.y + h
}

/// The cell at `p` has an entry above zero and a neighbour one step
/// nearer.
pub open spec fn has_parent(map: DistanceMap, p: Pos) -> bool {
    exists|n: int|
        0 <= n < 4 && on_grid(map.width, map.height, neighbour(p, n)) && #[trigger] map.at(
            neighbour(p, n),
        ) == Some((map.at(p)->0 - 1) as u16)
}

/// Neighbour `n` of `p`, if it is an empty cell, has an entry at most one
/// step above that of `p`.
pub open spec fn relaxed(sim: Sim, map: DistanceMap, p: Pos, n: int) -> bool {
    let q = neighbour(p, n);
    cell_open(sim, q) ==> map.at(q) is Some && map.at(q)->0 <= map.at(p)->0 + 1
}

/// `map` holds, for each empty cell of the board of `sim`, the length of
/// the shortest way over empty cells to a cell beside the rectangle.
///
/// Only empty cells have an entry. The entry is 0 on the empty cells beside
/// the rectangle and nowhere else. A cell with an entry above 0 has a
/// neighbour with an entry one less. And every empty neighbour of a cell
/// with an entry has an entry at most one more.
pub open spec fn is_distance_map(sim: Sim, anchor: Pos, w: int, h: int, map: DistanceMap) -> bool {
    &&& map.wf()
    &&& map.width == sim.board.width
    &&& map.height == sim.board.height
    &&& forall|p: Pos| sim.board.in_bounds(p) && (#[trigger] map.at(p)) is Some ==> cell_open(sim, p)
    &&& forall|p: Pos|
        sim.board.in_bounds(p) ==> ((#[trigger] map.at(p)) == Some(0u16) <==> cell_open(sim, p)
            && on_rim(anchor, w, h, p))
    &&& forall|p: Pos|
        sim.board.in_bounds(p) && map.at(p) is Some && map.at(p)->0 > 0 ==> #[trigger] has_parent(
            map,
            p,
        )
    &&& forall|p: Pos, n: int|
        sim.board.in_bounds(p) && map.at(p) is Some && 0 <= n < 4 ==> #[trigger] relaxed(
            sim,
            map,
            p,
            n,
        )
}

/// What holds while the entries spread from the rim: the cells with an
/// entry are those listed in `queue`, in order of their entries, and the
/// neighbours of the cells before `head` have theirs.
pub open spec fn spreading(
    sim: Sim,
    anchor: Pos,
    w: int,
    h: int,
    map: DistanceMap,
    queue: Seq<Pos>,
    head: int,
) -> bool {
    &&& sim.board.wf()
    &&& map.wf()
    &&& map.width == sim.board.width
    &&& map.height == sim.board.height
    &&& 0 <= head <= queue.len()
    &&& queue.no_duplicates()
    &&& forall|k: int|
        0 <= k < queue.len() ==> cell_open(sim, #[trigger] queue[k]) && map.at(queue[k]) is Some
            && map.at(queue[k])->0 <= k
    &&& forall|p: Pos|
        sim.board.in_bounds(p) && (#[trigger] map.at(p)) is Some ==> queue.contains(p)
    &&& forall|j: int, k: int|
        0 <= j <= k < queue.len() ==> map.at(#[trigger] queue[j])->0 <= map.at(
            #[trigger] queue[k],
        )->0
    &&& forall|k: int|
        0 <= k < queue.len() && head < queue.len() ==> map.at(#[trigger] queue[k])->0 <= map.at(
            queue[head],
        )->0 + 1
    &&& forall|p: Pos|
        sim.board.in_bounds(p) ==> ((#[trigger] map.at(p)) == Some(0u16) <==> cell_open(sim, p)
            && on_rim(anchor, w, h, p))
    &&& forall|p: Pos|
        sim.board.in_bounds(p) && map.at(p) is Some && map.at(p)->0 > 0 ==> #[trigger] has_parent(
            map,
            p,
        )
    &&& forall|k: int, n: int|
        0 <= k < head && 0 <= n < 4 ==> #[trigger] relaxed(sim, map, queue[k], n)
}

/// Whether `p` lies beside the rectangle.
fn beside(anchor: Pos, width: u8, height: u8, p: Pos) -> (b: bool)
    ensures
        b == on_rim(anchor, width as int, height as int, p),
{
    let ax = anchor.x as i16;
    let ay = anchor.y as i16;
    let w = width as i16;
    let h = height as i16;
    let x = p.x as i16;
    let y = p.y as i16;
    ((y == ay - 1 || y == ay + h) && ax <= x && x < ax + w) || ((x == ax - 1 || x == ax + w)
        && ay <= y && y < ay + h)
}

/// An entry once made stays, and so does what rests on it.
proof fn lemma_entries_stay(sim: Sim, a: DistanceMap, b: DistanceMap, q: Pos)
    requires
        a.wf(),
        b.wf(),
        a.width == b.width,
        a.height == b.height,
        on_grid(a.width, a.height, q),
        a.at(q) is None,
        forall|p: Pos| on_grid(a.width, a.height, p) && p != q ==> #[trigger] b.at(p) == a.at(p),
    ensures
        forall|p: Pos|
            on_grid(a.width, a.height, p) && a.at(p) is Some && a.at(p)->0 > 0 && has_parent(a, p)
                ==> has_parent(b, p),
{
    assert forall|p: Pos|
        on_grid(a.width, a.height, p) && a.at(p) is Some && a.at(p)->0 > 0 && has_parent(
            a,
            p,
        ) implies has_parent(b, p) by {
        let n = choose|n: int|
            0 <= n < 4 && on_grid(a.width, a.height, neighbour(p, n)) && #[trigger] a.at(
                neighbour(p, n),
            ) == Some((a.at(p)->0 - 1) as u16);
        assert(b.at(neighbour(p, n)) == a.at(neighbour(p, n)));
    }
}

/// Gives neighbour `n` of the cell at `head` its entry, if it is an empty
/// cell without one.
fn relax(
    sim: &Sim,
    map: &mut DistanceMap,
    queue: &mut Vec<Pos>,
    head: usize,
    n: usize,
    Ghost(anchor): Ghost<Pos>,
    Ghost(w): Ghost<int>,
    Ghost(h): Ghost<int>,
)
    requires
        spreading(*sim, anchor, w, h, *old(map), old(queue)@, head as int),
        head < old(queue)@.len(),
        n < 4,
        forall|m: int|
            0 <= m < n ==> #[trigger] relaxed(*sim, *old(map), old(queue)@[head as int], m),
    ensures
        spreading(*sim, anchor, w, h, *final(map), final(queue)@, head as int),
        final(queue)@.len() >= old(queue)@.len(),
        final(queue)@[head as int] == old(queue)@[head as int],
        forall|m: int|
            0 <= m < n + 1 ==> #[trigger] relaxed(*sim, *final(map), final(queue)@[head as int], m),
{
    let ghost map0 = *map;
    let ghost queue0 = queue@;
    let p = queue[head];
    proof {
        assert(cell_open(*sim, queue@[head as int]));
        lemma_distinct_bounded(sim.board.width, sim.board.height, queue@);
        assert(sim.board.width * sim.board.height <= 10000) by (nonlinear_arith)
            requires
                0 <= sim.board.width <= 100,
                0 <= sim.board.height <= 100,
        ;
    }
    let d = map.steps(p).unwrap();
    let q = neighbour_of(p, n);
    if let Some(None) = sim.board.get(q) {
        if map.steps(q).is_none() {
            map.set(q, Some(d + 1));
            queue.push(q);
            proof {
                let last = queue@.len() - 1;
                assert(queue@[last] == q);
                assert forall|k: int| 0 <= k < last implies queue@[k] == queue0[k] && queue@[k]
                    != q by {
                    if queue0[k] == q {
                        assert(map0.at(queue0[k]) is Some);
                    }
                }
                assert forall|a: int, b: int|
                    0 <= a < queue@.len() && 0 <= b < queue@.len() && a != b implies queue@[a]
                    != queue@[b] by {}
                assert forall|x: Pos| sim.board.in_bounds(x) && map.at(x) is Some implies queue@.contains(
                    x,
                ) by {
                    if x != q {
                        let k = choose|k: int| 0 <= k < queue0.len() && queue0[k] == x;
                        assert(queue@[k] == x);
                    }
                }
                lemma_entries_stay(*sim, map0, *map, q);
                assert(has_parent(*map, q)) by {
                    crate::grid::lemma_neighbours(p, q);
                    crate::grid::lemma_neighbours(q, p);
                    let m = choose|m: int| 0 <= m < 4 && neighbour(q, m) == p;
                    assert(map.at(neighbour(q, m)) == Some(d));
                }
                assert forall|x: Pos|
                    sim.board.in_bounds(x) && map.at(x) is Some && map.at(x)->0
                        > 0 implies #[trigger] has_parent(*map, x) by {
                    if x != q {
                        assert(has_parent(map0, x));
                    }
                }
                assert forall|k: int, m: int| 0 <= k < head && 0 <= m < 4 implies #[trigger] relaxed(
                    *sim,
                    *map,
                    queue@[k],
                    m,
                ) by {
                    assert(relaxed(*sim, map0, queue0[k], m));
                    assert(queue@[k] == queue0[k]);
                    if neighbour(queue0[k], m) == q {
                        assert(cell_open(*sim, q));
                        assert(false);
                    }
                }
            }
        }
    }
    proof {
        assert forall|m: int| 0 <= m < n + 1 implies #[trigger] relaxed(
            *sim,
            *map,
            queue@[head as int],
            m,
        ) by {
            if m < n {
                assert(relaxed(*sim, map0, queue0[head as int], m));
                let x = neighbour(p, m);
                if cell_open(*sim, x) {
                    assert(map0.at(x) is Some);
                    assert(map.at(x) == map0.at(x));
                }
            } else {
                if cell_open(*sim, q) {
                    assert(map.at(q) is Some);
                    assert(queue@.contains(q));
                    let k = choose|k: int| 0 <= k < queue@.len() && queue@[k] == q;
                    assert(map.at(queue@[k])->0 <= map.at(queue@[head as int])->0 + 1);
                }
            }
        }
    }
}

/// Maps, for each empty cell of the board, the length of the shortest way
/// over empty cells to a cell beside the rectangle of `width` by `height`
/// cells at `pos`. Occupied cells bar the way and have no entry, nor have
/// empty cells from which no way leads there.
pub fn map_distances(sim: &Sim, pos: Pos, width: u8, height: u8) -> (map: DistanceMap)
    requires
        sim.board.wf(),
    ensures
        is_distance_map(*sim, pos, width as int, height as int, map),
{
    let ghost w = width as int;
    let ghost h = height as int;
    let mut map = DistanceMap::new(sim.board.width, sim.board.height);
    let mut queue: Vec<Pos> = Vec::new();
    let mut y: i8 = 0;
    while y < sim.board.height
        invariant
            0 <= y <= sim.board.height,
            w == width as int,
            h == height as int,
            seeding(*sim, pos, w, h, map, queue@, 0, y as int),
        decreases sim.board.height - y,
    {
        let mut x: i8 = 0;
        while x < sim.board.width
            invariant
                0 <= x <= sim.board.width,
                0 <= y < sim.board.height,
                w == width as int,
                h == height as int,
                seeding(*sim, pos, w, h, map, queue@, x as int, y as int),
            decreases sim.board.width - x,
        {
            let p = Pos { x, y };
            let ghost map0 = map;
            if sim.board.cell(p).is_none() && beside(pos, width, height, p) {
                let ghost queue0 = queue@;
                map.set(p, Some(0));
                queue.push(p);
                proof {
                    assert(queue@[queue@.len() - 1] == p);
                    assert forall|k: int| 0 <= k < queue0.len() implies queue@[k] == queue0[k]
                        && queue0[k] != p by {}
                    assert forall|a: int, b: int|
                        0 <= a < queue@.len() && 0 <= b < queue@.len() && a != b implies queue@[a]
                        != queue@[b] by {}
                    assert forall|k: int| 0 <= k < queue@.len() implies cell_open(
                        *sim,
                        #[trigger] queue@[k],
                    ) && map.at(queue@[k]) == Some(0u16) by {
                        if k < queue0.len() {
                            assert(queue@[k] == queue0[k]);
                        }
                    }
                    assert forall|q: Pos| sim.board.in_bounds(q) implies ((#[trigger] map.at(q))
                        == Some(0u16) <==> cell_open(*sim, q) && on_rim(pos, w, h, q) && (q.y < y
                        || (q.y == y && q.x < x + 1))) by {
                        if q != p {
                            assert(map.at(q) == map0.at(q));
                        }
                    }
                    assert forall|q: Pos| sim.board.in_bounds(q) && map.at(q) is Some implies queue@.contains(
                        q,
                    ) by {
                        if q != p {
                            let k = choose|k: int| 0 <= k < queue0.len() && queue0[k] == q;
                            assert(queue@[k] == q);
                        }
                    }
                }
            } else {
                proof {
                    assert forall|q: Pos| sim.board.in_bounds(q) implies ((#[trigger] map.at(q))
                        == Some(0u16) <==> cell_open(*sim, q) && on_rim(pos, w, h, q) && (q.y < y
                        || (q.y == y && q.x < x + 1))) by {
                        if q == p {
                            assert(!(cell_open(*sim, p) && on_rim(pos, w, h, p)));
                        }
                    }
                }
            }
            x += 1;
        }
        y += 1;
    }
    let mut head: usize = 0;
    proof {
        assert(spreading(*sim, pos, w, h, map, queue@, 0));
    }
    while head < queue.len()
        invariant
            spreading(*sim, pos, w, h, map, queue@, head as int),
        decreases sim.board.width * sim.board.height - head,
    {
        proof {
            lemma_distinct_bounded(sim.board.width, sim.board.height, queue@);
        }
        let ghost p = queue@[head as int];
        let mut n: usize = 0;
        while n < 4
            invariant
                n <= 4,
                head < queue@.len(),
                queue@[head as int] == p,
                spreading(*sim, pos, w, h, map, queue@, head as int),
                forall|m: int| 0 <= m < n ==> #[trigger] relaxed(*sim, map, p, m),
            decreases 4 - n,
        {
            relax(sim, &mut map, &mut queue, head, n, Ghost(pos), Ghost(w), Ghost(h));
            n += 1;
        }
        head += 1;
    }
    proof {
        assert forall|p: Pos, n: int|
            sim.board.in_bounds(p) && map.at(p) is Some && 0 <= n < 4 implies #[trigger] relaxed(
            *sim,
            map,
            p,
            n,
        ) by {
            let k = choose|k: int| 0 <= k < queue@.len() && queue@[k] == p;
            assert(relaxed(*sim, map, queue@[k], n));
        }
    }
    map
}

/// What holds while the rim is looked for: the cells with an entry are the
/// empty cells beside the rectangle that a row by row scan meets before
/// `(x, y)`; their entry is 0 and `queue` lists them.
pub open spec fn seeding(
    sim: Sim,
    anchor: Pos,
    w: int,
    h: int,
    map: DistanceMap,
    queue: Seq<Pos>,
    x: int,
    y: int,
) -> bool {
    &&& sim.board.wf()
    &&& map.wf()
    &&& map.width == sim.board.width
    &&& map.height == sim.board.height
    &&& queue.no_duplicates()
    &&& forall|k: int|
        0 <= k < queue.len() ==> cell_open(sim, #[trigger] queue[k]) && map.at(queue[k]) == Some(
            0u16,
        )
    &&& forall|p: Pos|
        sim.board.in_bounds(p) && (#[trigger] map.at(p)) is Some ==> queue.contains(p)
    &&& forall|p: Pos|
        sim.board.in_bounds(p) ==> ((#[trigger] map.at(p)) == Some(0u16) <==> cell_open(sim, p)
            && on_rim(anchor, w, h, p) && (p.y < y || (p.y == y && p.x < x)))
}

/// The map of distances to each deposit of the scene, under the deposit's
/// identifier; the other slots hold nothing.
pub fn map_deposit_distances(sim: &Sim) -> (maps: Vec<Option<DistanceMap>>)
    requires
        sim.board.wf(),
    ensures
        maps@.len() == sim.buildings.values@.len(),
        forall|i: int|
            0 <= i < maps@.len() ==> match sim.buildings.values@[i] {
                Some(Building::Deposit(d)) => (#[trigger] maps@[i]) is Some && is_distance_map(
                    *sim,
                    d.pos,
                    d.width as int,
                    d.height as int,
                    maps@[i]->0,
                ),
                _ => maps@[i] is None,
            },
{
    let mut maps: Vec<Option<DistanceMap>> = Vec::new();
    let mut i: usize = 0;
    while i < sim.buildings.values.len()
        invariant
            i <= sim.buildings.values@.len(),
            sim.board.wf(),
            maps@.len() == i,
            forall|j: int|
                0 <= j < i ==> match sim.buildings.values@[j] {
                    Some(Building::Deposit(d)) => (#[trigger] maps@[j]) is Some && is_distance_map(
                        *sim,
                        d.pos,
                        d.width as int,
                        d.height as int,
                        maps@[j]->0,
                    ),
                    _ => maps@[j] is None,
                },
        decreases sim.buildings.values@.len() - i,
    {
        let entry = match sim.buildings.values[i] {
            Some(Building::Deposit(d)) => Some(map_distances(sim, d.pos, d.width, d.height)),
            _ => None,
        };
        maps.push(entry);
        i += 1;
    }
    maps
}

/// Wherever one distance map has an entry, another map of the same board
/// and rectangle has one that is no larger.
pub proof fn lemma_entry_bounded(
    sim: Sim,
    anchor: Pos,
    w: int,
    h: int,
    a: DistanceMap,
    b: DistanceMap,
    p: Pos,
    d: int,
)
    requires
        is_distance_map(sim, anchor, w, h, a),
        is_distance_map(sim, anchor, w, h, b),
        sim.board.in_bounds(p),
        a.at(p) is Some,
        a.at(p)->0 == d,
    ensures
        b.at(p) is Some,
        b.at(p)->0 <= d,
    decreases d,
{
    if d > 0 {
        assert(has_parent(a, p));
        let n = choose|n: int|
            0 <= n < 4 && on_grid(a.width, a.height, neighbour(p, n)) && #[trigger] a.at(
                neighbour(p, n),
            ) == Some((a.at(p)->0 - 1) as u16);
        let q = neighbour(p, n);
        lemma_entry_bounded(sim, anchor, w, h, a, b, q, d - 1);
        crate::grid::lemma_neighbours(p, q);
        crate::grid::lemma_neighbours(q, p);
        let m = choose|m: int| 0 <= m < 4 && neighbour(q, m) == p;
        assert(relaxed(sim, b, q, m));
    }
}

/// The distance map is determined: two maps that are distance maps of one
/// board and one rectangle hold the same entries.
pub proof fn lemma_distance_map_unique(
    sim: Sim,
    anchor: Pos,
    w: int,
    h: int,
    a: DistanceMap,
    b: DistanceMap,
)
    requires
        is_distance_map(sim, anchor, w, h, a),
        is_distance_map(sim, anchor, w, h, b),
    ensures
        forall|p: Pos| sim.board.in_bounds(p) ==> a.at(p) == b.at(p),
{
    assert forall|p: Pos| sim.board.in_bounds(p) implies a.at(p) == b.at(p) by {
        if a.at(p) is Some {
            lemma_entry_bounded(sim, anchor, w, h, a, b, p, a.at(p)->0 as int);
            lemma_entry_bounded(sim, anchor, w, h, b, a, p, b.at(p)->0 as int);
        } else if b.at(p) is Some {
            lemma_entry_bounded(sim, anchor, w, h, b, a, p, b.at(p)->0 as int);
        }
    }
}

} // verus!
