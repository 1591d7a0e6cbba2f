use crate::board::spec_clamp;
use crate::building::Building;
use crate::geometry::{Id, Pos, MAX_BOARD_SIZE};
use crate::grid::{lemma_distinct_bounded, lemma_slots_differ, neighbour, neighbour_of, on_grid, slot_at, spec_slot};
use crate::scene::Sim;
use vstd::prelude::*;

verus! {

/// One flag per cell of a board.
#[derive(Clone, Debug, PartialEq, Eq)]
pub struct Visited {
    pub width: i8,
    pub height: i8,
    pub cells: Vec<bool>,
}

impl Visited {
    /// The dimensions are within limits and there is one flag per cell.
    pub open spec fn wf(self) -> bool {
        &&& 0 <= self.width <= MAX_BOARD_SIZE
        &&& 0 <= self.height <= MAX_BOARD_SIZE
        &&& self.cells@.len() == self.width * self.height
    }

    /// The flag of the cell at `p`.
    pub open spec fn at(self, p: Pos) -> bool {
        self.cells@[spec_slot(self.width, p)]
    }

    /// No flag set, on a grid of `width` by `height` cells, each side brought
    /// into `0..=MAX_BOARD_SIZE`.
    pub fn new(width: i8, height: i8) -> (v: Visited)
        ensures
            v.wf(),
            v.width == spec_clamp(width),
            v.height == spec_clamp(height),
            forall|p: Pos| on_grid(v.width, v.height, p) ==> !v.at(p),
    {
        let width: i8 = if width < 0 {
            0
        } else if width > MAX_BOARD_SIZE {
            MAX_BOARD_SIZE
        } else {
            width
        };
        let height: i8 = if height < 0 {
            0
        } else if height > MAX_BOARD_SIZE {
            MAX_BOARD_SIZE
        } else {
            height
        };
        assert(width as int * height as int <= 10000) by (nonlinear_arith)
            requires
                0 <= width <= 100,
                0 <= height <= 100,
        ;
        let n: usize = width as usize * height as usize;
        let mut cells: Vec<bool> = Vec::new();
        let mut i: usize = 0;
        while i < n
            invariant
                i <= n,
                cells@.len() == i,
                forall|j: int| 0 <= j < i ==> !cells@[j],
            decreases n - i,
        {
            cells.push(false);
            i += 1;
        }
        let v = Visited { width, height, cells };
        assert forall|p: Pos| on_grid(v.width, v.height, p) implies !v.at(p) by {
            crate::board::lemma_index_in_range(
                v.width as int,
                v.height as int,
                p.x as int,
                p.y as int,
            );
        }
        v
    }

    /// The flag of the cell at `pos`.
    pub fn get(&self, pos: Pos) -> (b: bool)
        requires
            self.wf(),
            on_grid(self.width, self.height, pos),
        ensures
            b == self.at(pos),
    {
        self.cells[slot_at(self.width, self.height, pos)]
    }

    /// Sets the flag of the cell at `pos`.
    pub fn set(&mut self, pos: Pos, flag: bool)
        requires
            old(self).wf(),
            on_grid(old(self).width, old(self).height, pos),
        ensures
            final(self).wf(),
            final(self).width == old(self).width,
            final(self).height == old(self).height,
            final(self).at(pos) == flag,
            forall|q: Pos|
                on_grid(old(self).width, old(self).height, q) && q != pos ==> final(self).at(q)
                    == old(self).at(q),
    {
        let i = slot_at(self.width, self.height, pos);
        self.cells[i] = flag;
        proof {
            assert forall|q: Pos|
                on_grid(old(self).width, old(self).height, q) && q != pos implies self.at(q)
                == old(self).at(q) by {
                lemma_slots_differ(self.width, self.height, q, pos);
            }
        }
    }
}

/// One region: its deposits and its cells.
#[derive(Clone, Debug, Default, PartialEq, Eq)]
pub struct Region {
    pub deposits: Vec<Id>,
    pub cells: Vec<Pos>,
}

/// The regions of a board, stored flat: region `r` holds the deposits and
/// the cells from the two offsets `indices[r]` up to those of the next
/// region, the last region up to the end.
#[derive(Clone, Debug, Default, PartialEq, Eq)]
pub struct Regions {
    pub deposits: Vec<Id>,
    pub cells: Vec<Pos>,
    pub indices: Vec<(usize, usize)>,
}

impl Regions {
    /// Where the deposits of region `r` start.
    pub open spec fn deposits_start(self, r: int) -> int {
        self.indices@[r].0 as int
    }

    /// Where the deposits of region `r` end.
    pub open spec fn deposits_end(self, r: int) -> int {
        if r + 1 < self.indices@.len() {
            self.indices@[r + 1].0 as int
        } else {
            self.deposits@.len() as int
        }
    }

    /// Where the cells of region `r` start.
    pub open spec fn cells_start(self, r: int) -> int {
        self.indices@[r].1 as int
    }

    /// Where the cells of region `r` end.
    pub open spec fn cells_end(self, r: int) -> int {
        if r + 1 < self.indices@.len() {
            self.indices@[r + 1].1 as int
        } else {
            self.cells@.len() as int
        }
    }

    /// The offsets of every region lie within the lists and do not pass
    /// those of the next region.
    pub open spec fn wf(self) -> bool {
        forall|r: int|
            0 <= r < self.indices@.len() ==> {
                &&& 0 <= #[trigger] self.deposits_start(r) <= self.deposits_end(r)
                    <= self.deposits@.len()
                &&& 0 <= self.cells_start(r) <= self.cells_end(r) <= self.cells@.len()
            }
    }

    /// The first cell listed of region `r`.
    pub open spec fn first_cell(self, r: int) -> Pos {
        self.cells@[self.cells_start(r)]
    }

    /// `p` is a cell of region `r`.
    pub open spec fn has_cell(self, r: int, p: Pos) -> bool {
        exists|k: int| self.cells_start(r) <= k < self.cells_end(r) && self.cells@[k] == p
    }

    /// `id` is a deposit of region `r`.
    pub open spec fn has_deposit(self, r: int, id: Id) -> bool {
        exists|d: int| self.deposits_start(r) <= d < self.deposits_end(r) && self.deposits@[d] == id
    }

    /// No regions.
    pub fn new() -> (g: Regions)
        ensures
            g.deposits@.len() == 0,
            g.cells@.len() == 0,
            g.indices@.len() == 0,
            g.wf(),
    {
        Regions { deposits: Vec::new(), cells: Vec::new(), indices: Vec::new() }
    }

    /// Starts a region at the end of the lists.
    pub fn new_region(&mut self)
        ensures
            final(self).deposits == old(self).deposits,
            final(self).cells == old(self).cells,
            final(self).indices@ == old(self).indices@.push(
                (old(self).deposits@.len() as usize, old(self).cells@.len() as usize),
            ),
            final(self).deposits_start(old(self).indices@.len() as int) == old(self).deposits@.len(),
            final(self).cells_start(old(self).indices@.len() as int) == old(self).cells@.len(),
    {
        self.indices.push((self.deposits.len(), self.cells.len()));
    }

    /// The number of regions.
    pub fn len(&self) -> (n: usize)
        ensures
            n == self.indices@.len(),
    {
        self.indices.len()
    }

    /// Region `idx`.
    pub fn get(&self, idx: usize) -> (region: Region)
        requires
            self.wf(),
            idx < self.indices@.len(),
        ensures
            region.deposits@ == self.deposits@.subrange(
                self.deposits_start(idx as int),
                self.deposits_end(idx as int),
            ),
            region.cells@ == self.cells@.subrange(
                self.cells_start(idx as int),
                self.cells_end(idx as int),
            ),
    {
        let (b, c) = self.indices[idx];
        let n = self.indices.len();
        let (nb, nc) = if idx + 1 < n {
            self.indices[idx + 1]
        } else {
            (self.deposits.len(), self.cells.len())
        };
        proof {
            assert(0 <= self.deposits_start(idx as int) <= self.deposits_end(idx as int));
        }
        let mut deposits: Vec<Id> = Vec::new();
        let mut i: usize = b;
        while i < nb
            invariant
                b <= i <= nb <= self.deposits@.len(),
                deposits@ == self.deposits@.subrange(b as int, i as int),
            decreases nb - i,
        {
            deposits.push(self.deposits[i]);
            proof {
                assert(deposits@ =~= self.deposits@.subrange(b as int, i as int + 1));
            }
            i += 1;
        }
        let mut cells: Vec<Pos> = Vec::new();
        let mut i: usize = c;
        while i < nc
            invariant
                c <= i <= nc <= self.cells@.len(),
                cells@ == self.cells@.subrange(c as int, i as int),
            decreases nc - i,
        {
            cells.push(self.cells[i]);
            proof {
                assert(cells@ =~= self.cells@.subrange(c as int, i as int + 1));
            }
            i += 1;
        }
        Region { deposits, cells }
    }

    /// All regions in order.
    pub fn iter(&self) -> (v: Vec<Region>)
        requires
            self.wf(),
        ensures
            v@.len() == self.indices@.len(),
            forall|r: int|
                0 <= r < v@.len() ==> (#[trigger] v@[r]).cells@ == self.cells@.subrange(
                    self.cells_start(r),
                    self.cells_end(r),
                ) && v@[r].deposits@ == self.deposits@.subrange(
                    self.deposits_start(r),
                    self.deposits_end(r),
                ),
    {
        let mut v: Vec<Region> = Vec::new();
        let mut i: usize = 0;
        while i < self.indices.len()
            invariant
                i <= self.indices@.len(),
                self.wf(),
                v@.len() == i,
                forall|r: int|
                    0 <= r < i ==> (#[trigger] v@[r]).cells@ == self.cells@.subrange(
                        self.cells_start(r),
                        self.cells_end(r),
                    ) && v@[r].deposits@ == self.deposits@.subrange(
                        self.deposits_start(r),
                        self.deposits_end(r),
                    ),
            decreases self.indices@.len() - i,
        {
            v.push(self.get(i));
            i += 1;
        }
        v
    }
}

/// The cell at `q` is on the board and empty.
pub open spec fn cell_open(sim: Sim, q: Pos) -> bool {
    sim.board.in_bounds(q) && sim.board.at(q) is None
}

/// The deposit that owns the cell at `q`, if one does.
pub open spec fn deposit_at(sim: Sim, q: Pos) -> Option<Id> {
    if sim.board.in_bounds(q) && sim.board.at(q) is Some && sim.buildings.spec_get(
        sim.board.at(q)->0.id,
    ) is Deposit {
        Some(sim.board.at(q)->0.id)
    } else {
        None
    }
}

/// Neighbour `n` of cell `k` is accounted for in region `r`: if it is an
/// empty cell it belongs to the region, and if a deposit owns it the
/// deposit does.
pub open spec fn settled(sim: Sim, g: Regions, r: int, k: int, n: int) -> bool {
    let q = neighbour(g.cells@[k], n);
    &&& cell_open(sim, q) ==> g.has_cell(r, q)
    &&& deposit_at(sim, q) matches Some(id) ==> g.has_deposit(r, id)
}

/// Cell `k` of region `r` is a neighbour of a cell listed before it in the
/// region.
pub open spec fn rooted(g: Regions, r: int, k: int) -> bool {
    exists|j: int, n: int|
        g.cells_start(r) <= j < k && 0 <= n < 4 && neighbour(g.cells@[j], n) == g.cells@[k]
}

/// Deposit `d` of region `r` owns a neighbour of a cell of the region.
pub open spec fn touching(sim: Sim, g: Regions, r: int, d: int) -> bool {
    exists|k: int, n: int|
        g.cells_start(r) <= k < g.cells_end(r) && 0 <= n < 4 && deposit_at(
            sim,
            neighbour(g.cells@[k], n),
        ) == Some(g.deposits@[d])
}

/// Region `r` is sound, and complete around its cells before `head`.
///
/// It has a cell. Every cell but the first is a neighbour of a cell before
/// it, so the region is connected. Every deposit listed owns a neighbour of
/// one of its cells and is listed once. And every neighbour of a cell
/// before `head` is accounted for.
pub open spec fn region_upto(sim: Sim, g: Regions, r: int, head: int) -> bool {
    &&& g.cells_start(r) < g.cells_end(r)
    &&& forall|k: int| g.cells_start(r) < k < g.cells_end(r) ==> #[trigger] rooted(g, r, k)
    &&& forall|d: int|
        g.deposits_start(r) <= d < g.deposits_end(r) ==> #[trigger] touching(sim, g, r, d)
    &&& forall|d: int, e: int|
        g.deposits_start(r) <= d < e < g.deposits_end(r) ==> g.deposits@[d] != g.deposits@[e]
    &&& forall|k: int, n: int|
        g.cells_start(r) <= k < head && 0 <= n < 4 ==> #[trigger] settled(sim, g, r, k, n)
}

/// Region `r` is a connected component of the empty cells with the
/// deposits around it.
pub open spec fn region_ok(sim: Sim, g: Regions, r: int) -> bool {
    region_upto(sim, g, r, g.cells_end(r))
}

/// The cells listed are empty cells of the board, none twice.
pub open spec fn cells_sound(sim: Sim, g: Regions) -> bool {
    &&& g.cells@.no_duplicates()
    &&& forall|k: int| 0 <= k < g.cells@.len() ==> cell_open(sim, #[trigger] g.cells@[k])
}

/// A row by row scan of the board meets `p` before `q`.
pub open spec fn scan_before(p: Pos, q: Pos) -> bool {
    p.y < q.y || (p.y == q.y && p.x < q.x)
}

/// A row by row scan of the board meets `p` before it comes to column `x`
/// of row `y`.
pub open spec fn scan_passed(p: Pos, x: int, y: int) -> bool {
    p.y < y || (p.y == y && p.x < x)
}

/// The regions take up the lists from their start: the first region
/// starts at offset 0 of both, and without a region the lists are empty.
/// With the offsets in order, every cell and every deposit listed then
/// lies in a region.
pub open spec fn covering(g: Regions) -> bool {
    if g.indices@.len() == 0 {
        g.cells@.len() == 0 && g.deposits@.len() == 0
    } else {
        g.cells_start(0) == 0 && g.deposits_start(0) == 0
    }
}

/// Cell `k` of region `r` comes after the first cell of the region in a
/// row by row scan.
pub open spec fn led(g: Regions, r: int, k: int) -> bool {
    scan_before(g.first_cell(r), g.cells@[k])
}

/// The regions come in the order in which a row by row scan of the board
/// meets them: the first cell listed of a region is the first of its cells
/// that the scan meets, and the scan meets it after the first cells of the
/// regions before.
pub open spec fn in_scan_order(g: Regions) -> bool {
    &&& forall|r: int, k: int|
        0 <= r < g.indices@.len() && g.cells_start(r) < k < g.cells_end(r) ==> #[trigger] led(
            g,
            r,
            k,
        )
    &&& forall|r: int, s: int|
        0 <= r < s < g.indices@.len() ==> scan_before(
            #[trigger] g.first_cell(r),
            #[trigger] g.first_cell(s),
        )
}

/// `g` holds the regions of the board of `sim`: every empty cell lies in
/// exactly one region, and each region is a connected component of the
/// empty cells, with the deposits that touch it. The regions take up the
/// lists from their start and come in the order of a row by row scan.
pub open spec fn is_regions_of(sim: Sim, g: Regions) -> bool {
    &&& g.wf()
    &&& cells_sound(sim, g)
    &&& forall|p: Pos| cell_open(sim, p) ==> g.cells@.contains(p)
    &&& forall|r: int| 0 <= r < g.indices@.len() ==> #[trigger] region_ok(sim, g, r)
    &&& covering(g)
    &&& in_scan_order(g)
}

/// Every empty cell that a row by row scan meets before the first cell of
/// the last region is listed.
pub open spec fn earlier_listed(sim: Sim, g: Regions) -> bool {
    forall|p: Pos|
        cell_open(sim, p) && scan_before(p, g.first_cell(g.indices@.len() - 1))
            ==> #[trigger] g.cells@.contains(p)
}

/// What holds while the last region grows: the cells listed are the cells
/// flagged, the regions before the last are done, and the last is
/// complete around its cells before `head`.
pub open spec fn growing(sim: Sim, visited: Visited, g: Regions, head: int) -> bool {
    let last = g.indices@.len() - 1;
    &&& sim.wf()
    &&& g.wf()
    &&& visited.wf()
    &&& visited.width == sim.board.width
    &&& visited.height == sim.board.height
    &&& cells_sound(sim, g)
    &&& forall|p: Pos| sim.board.in_bounds(p) ==> (visited.at(p) <==> g.cells@.contains(p))
    &&& last >= 0
    &&& g.cells_start(0) == 0
    &&& g.deposits_start(0) == 0
    &&& forall|r: int| 0 <= r < last ==> #[trigger] region_ok(sim, g, r)
    &&& g.cells_start(last) <= head <= g.cells@.len()
    &&& region_upto(sim, g, last, head)
    &&& in_scan_order(g)
    &&& earlier_listed(sim, g)
}

/// Whether `id` occurs in `v` from `start` on.
fn listed(v: &Vec<Id>, start: usize, id: Id) -> (b: bool)
    requires
        start <= v@.len(),
    ensures
        b == exists|d: int| start <= d < v@.len() && v@[d] == id,
{
    let mut i: usize = start;
    while i < v.len()
        invariant
            start <= i <= v@.len(),
            forall|d: int| start <= d < i ==> v@[d] != id,
        decreases v@.len() - i,
    {
        if v[i] == id {
            return true;
        }
        i += 1;
    }
    false
}

/// The regions before the last stay as they are when the lists grow.
proof fn lemma_earlier_regions_stay(sim: Sim, a: Regions, b: Regions)
    requires
        a.wf(),
        a.indices@ == b.indices@,
        a.indices@.len() > 0,
        a.cells@.len() <= b.cells@.len(),
        a.deposits@.len() <= b.deposits@.len(),
        a.cells@ == b.cells@.subrange(0, a.cells@.len() as int),
        a.deposits@ == b.deposits@.subrange(0, a.deposits@.len() as int),
        forall|r: int| 0 <= r < a.indices@.len() - 1 ==> #[trigger] region_ok(sim, a, r),
    ensures
        b.wf(),
        forall|r: int| 0 <= r < b.indices@.len() - 1 ==> #[trigger] region_ok(sim, b, r),
{
    assert forall|r: int| 0 <= r < b.indices@.len() implies {
        &&& 0 <= #[trigger] b.deposits_start(r) <= b.deposits_end(r) <= b.deposits@.len()
        &&& 0 <= b.cells_start(r) <= b.cells_end(r) <= b.cells@.len()
    } by {
        assert(0 <= a.deposits_start(r) <= a.deposits_end(r));
    }
    assert forall|r: int| 0 <= r < b.indices@.len() - 1 implies #[trigger] region_ok(sim, b, r) by {
        assert(region_ok(sim, a, r));
        assert(0 <= a.deposits_start(r) <= a.deposits_end(r) <= a.deposits@.len());
        assert(a.cells_end(r) == b.cells_end(r));
        assert(a.deposits_end(r) == b.deposits_end(r));
        assert forall|k: int| a.cells_start(r) <= k < a.cells_end(r) implies a.cells@[k]
            == b.cells@[k] by {}
        assert forall|d: int| a.deposits_start(r) <= d < a.deposits_end(r) implies a.deposits@[d]
            == b.deposits@[d] by {}
        assert forall|k: int| b.cells_start(r) < k < b.cells_end(r) implies #[trigger] rooted(
            b,
            r,
            k,
        ) by {
            assert(rooted(a, r, k));
            let (j, n) = choose|j: int, n: int|
                a.cells_start(r) <= j < k && 0 <= n < 4 && neighbour(a.cells@[j], n)
                    == a.cells@[k];
            assert(neighbour(b.cells@[j], n) == b.cells@[k]);
        }
        assert forall|d: int| b.deposits_start(r) <= d < b.deposits_end(r) implies #[trigger] touching(
            sim,
            b,
            r,
            d,
        ) by {
            assert(touching(sim, a, r, d));
            let (k, n) = choose|k: int, n: int|
                a.cells_start(r) <= k < a.cells_end(r) && 0 <= n < 4 && deposit_at(
                    sim,
                    neighbour(a.cells@[k], n),
                ) == Some(a.deposits@[d]);
            assert(deposit_at(sim, neighbour(b.cells@[k], n)) == Some(b.deposits@[d]));
        }
        assert forall|k: int, n: int|
            b.cells_start(r) <= k < b.cells_end(r) && 0 <= n < 4 implies #[trigger] settled(
            sim,
            b,
            r,
            k,
            n,
        ) by {
            assert(settled(sim, a, r, k, n));
            let q = neighbour(a.cells@[k], n);
            if cell_open(sim, q) {
                let j = choose|j: int|
                    a.cells_start(r) <= j < a.cells_end(r) && a.cells@[j] == q;
                assert(b.cells@[j] == q);
            }
            if deposit_at(sim, q) is Some {
                let id = deposit_at(sim, q)->0;
                let d = choose|d: int|
                    a.deposits_start(r) <= d < a.deposits_end(r) && a.deposits@[d] == id;
                assert(b.deposits@[d] == id);
            }
        }
    }
}

/// Accounts for neighbour `n` of the cell at `head`: an empty cell not yet
/// listed joins the last region, and a deposit not yet listed in the last
/// region joins its deposits.
fn visit(sim: &Sim, visited: &mut Visited, g: &mut Regions, head: usize, n: usize)
    requires
        growing(*sim, *old(visited), *old(g), head as int),
        head < old(g).cells@.len(),
        n < 4,
        forall|m: int|
            0 <= m < n ==> #[trigger] settled(
                *sim,
                *old(g),
                old(g).indices@.len() - 1,
                head as int,
                m,
            ),
    ensures
        growing(*sim, *final(visited), *final(g), head as int),
        final(g).indices@ == old(g).indices@,
        final(g).cells@.len() >= old(g).cells@.len(),
        final(g).cells@.subrange(0, old(g).cells@.len() as int) == old(g).cells@,
        forall|m: int|
            0 <= m < n + 1 ==> #[trigger] settled(
                *sim,
                *final(g),
                final(g).indices@.len() - 1,
                head as int,
                m,
            ),
{
    let ghost g0 = *g;
    let ghost last = g.indices@.len() - 1;
    let p = g.cells[head];
    proof {
        assert(cell_open(*sim, g.cells@[head as int]));
    }
    let q = neighbour_of(p, n);
    match sim.board.get(q) {
        None => {},
        Some(None) => {
            if !visited.get(q) {
                visited.set(q, true);
                g.cells.push(q);
                proof {
                    assert(g.cells@[g.cells@.len() - 1] == q);
                    assert(g.cells@.subrange(0, g0.cells@.len() as int) =~= g0.cells@);
                    assert(g.deposits@.subrange(0, g0.deposits@.len() as int) =~= g0.deposits@);
                    lemma_earlier_regions_stay(*sim, g0, *g);
                    assert forall|a: int, b: int|
                        0 <= a < g.cells@.len() && 0 <= b < g.cells@.len() && a
                            != b implies g.cells@[a] != g.cells@[b] by {
                        if a == g.cells@.len() - 1 {
                            assert(g0.cells@[b] == g.cells@[b]);
                        } else if b == g.cells@.len() - 1 {
                            assert(g0.cells@[a] == g.cells@[a]);
                        } else {
                            assert(g0.cells@[a] == g.cells@[a] && g0.cells@[b] == g.cells@[b]);
                        }
                    }
                    assert forall|k: int| 0 <= k < g.cells@.len() implies cell_open(
                        *sim,
                        #[trigger] g.cells@[k],
                    ) by {
                        if k < g0.cells@.len() {
                            assert(g0.cells@[k] == g.cells@[k]);
                        }
                    }
                    assert forall|x: Pos| sim.board.in_bounds(x) implies (visited.at(x)
                        <==> g.cells@.contains(x)) by {
                        if x != q {
                            if g0.cells@.contains(x) {
                                let k = choose|k: int| 0 <= k < g0.cells@.len() && g0.cells@[k] == x;
                                assert(g.cells@[k] == x);
                            }
                            if g.cells@.contains(x) {
                                let k = choose|k: int| 0 <= k < g.cells@.len() && g.cells@[k] == x;
                                assert(g0.cells@[k] == x);
                            }
                        }
                    }
                    lemma_last_region_stays(*sim, g0, *g, head as int);
                    lemma_order_grows(*sim, g0, *g, head as int, q);
                    assert(rooted(*g, last, g.cells@.len() - 1)) by {
                        assert(neighbour(g.cells@[head as int], n as int) == g.cells@[g.cells@.len()
                            - 1]);
                    }
                }
            } else {
                proof {
                    // a listed neighbour of a cell of the last region lies in that region
                    let k = choose|k: int| 0 <= k < g.cells@.len() && g.cells@[k] == q;
                    if k < g.cells_start(last) {
                        lemma_region_of(*g, k);
                        let r = choose|r: int|
                            0 <= r < last && #[trigger] g.cells_start(r) <= k < g.cells_end(r);
                        assert(region_ok(*sim, *g, r));
                        crate::grid::lemma_neighbours(q, p);
                        let m = choose|m: int| 0 <= m < 4 && neighbour(q, m) == p;
                        assert(settled(*sim, *g, r, k, m));
                        assert(g.has_cell(r, p));
                        let j = choose|j: int|
                            g.cells_start(r) <= j < g.cells_end(r) && g.cells@[j] == p;
                        assert(0 <= g.deposits_start(r) <= g.deposits_end(r));
                        assert(0 <= g.deposits_start(last) <= g.deposits_end(last));
                        lemma_ordered(*g, r, last);
                        assert(0 <= j < head);
                        assert(false);
                    }
                }
            }
        },
        Some(Some(c)) => {
            if let Building::Deposit(_) = sim.buildings.get(c.id) {
                let start = g.indices[g.indices.len() - 1].0;
                proof {
                    assert(0 <= g.deposits_start(last) <= g.deposits_end(last));
                }
                if !listed(&g.deposits, start, c.id) {
                    g.deposits.push(c.id);
                    proof {
                            assert(g.cells@.subrange(0, g0.cells@.len() as int) =~= g0.cells@);
                        assert(g.deposits@.subrange(0, g0.deposits@.len() as int) =~= g0.deposits@);
                        lemma_earlier_regions_stay(*sim, g0, *g);
                        lemma_last_region_stays(*sim, g0, *g, head as int);
                        lemma_order_same(*sim, g0, *g);
                        assert(touching(*sim, *g, last, g.deposits@.len() - 1)) by {
                            assert(deposit_at(*sim, neighbour(g.cells@[head as int], n as int))
                                == Some(g.deposits@[g.deposits@.len() - 1]));
                        }
                        assert(g.deposits@[g.deposits@.len() - 1] == c.id);
                    }
                }
            }
        },
    }
    proof {
        assert(g.cells@.subrange(0, g0.cells@.len() as int) =~= g0.cells@);
        assert(g.deposits@.subrange(0, g0.deposits@.len() as int) =~= g0.deposits@);
        assert forall|m: int| 0 <= m < n + 1 implies #[trigger] settled(
            *sim,
            *g,
            last,
            head as int,
            m,
        ) by {
            if m < n {
                assert(settled(*sim, g0, last, head as int, m));
                lemma_settled_stays(*sim, g0, *g, last, head as int, m);
            } else {
                let qq = neighbour(g.cells@[head as int], m);
                assert(qq == q);
                if cell_open(*sim, q) {
                    assert(g.cells@.contains(q));
                    let k = choose|k: int| 0 <= k < g.cells@.len() && g.cells@[k] == q;
                    assert(g.cells_start(last) <= k);
                }
            }
        }
    }
}

/// The order of the regions stays when an empty cell that is not listed
/// joins the last region.
proof fn lemma_order_grows(sim: Sim, a: Regions, b: Regions, head: int, q: Pos)
    requires
        a.wf(),
        a.indices@.len() > 0,
        a.indices@ == b.indices@,
        b.cells@ == a.cells@.push(q),
        forall|r: int| 0 <= r < a.indices@.len() - 1 ==> #[trigger] region_ok(sim, a, r),
        region_upto(sim, a, a.indices@.len() - 1, head),
        in_scan_order(a),
        earlier_listed(sim, a),
        cell_open(sim, q),
        !a.cells@.contains(q),
    ensures
        in_scan_order(b),
        earlier_listed(sim, b),
{
    let last = a.indices@.len() - 1;
    assert forall|r: int| 0 <= r < a.indices@.len() implies #[trigger] b.first_cell(r)
        == a.first_cell(r) && a.cells_start(r) < a.cells_end(r) <= a.cells@.len() by {
        if r < last {
            assert(region_ok(sim, a, r));
        }
        assert(0 <= a.deposits_start(r) <= a.deposits_end(r));
    }
    assert forall|r: int, k: int|
        0 <= r < b.indices@.len() && b.cells_start(r) < k < b.cells_end(r) implies #[trigger] led(
        b,
        r,
        k,
    ) by {
        assert(b.first_cell(r) == a.first_cell(r));
        assert(a.cells_start(r) < a.cells_end(r) <= a.cells@.len());
        if k < a.cells@.len() {
            assert(led(a, r, k));
            assert(b.cells@[k] == a.cells@[k]);
        } else {
            assert(r == last);
            assert(b.cells@[k] == q);
            assert(a.cells@.contains(a.first_cell(r)));
            if scan_before(q, a.first_cell(r)) {
                assert(a.cells@.contains(q));
            }
        }
    }
    assert forall|r: int, s: int| 0 <= r < s < b.indices@.len() implies scan_before(
        #[trigger] b.first_cell(r),
        #[trigger] b.first_cell(s),
    ) by {
        assert(b.first_cell(r) == a.first_cell(r) && b.first_cell(s) == a.first_cell(s));
    }
    assert forall|p: Pos|
        cell_open(sim, p) && scan_before(
            p,
            b.first_cell(b.indices@.len() - 1),
        ) implies #[trigger] b.cells@.contains(p) by {
        assert(b.first_cell(last) == a.first_cell(last));
        assert(a.cells@.contains(p));
        let k = choose|k: int| 0 <= k < a.cells@.len() && a.cells@[k] == p;
        assert(b.cells@[k] == p);
    }
}

/// The order of the regions depends on the offsets and the cells alone.
proof fn lemma_order_same(sim: Sim, a: Regions, b: Regions)
    requires
        a.indices@ == b.indices@,
        a.cells@ == b.cells@,
        in_scan_order(a),
        earlier_listed(sim, a),
    ensures
        in_scan_order(b),
        earlier_listed(sim, b),
{
    assert forall|r: int, k: int|
        0 <= r < b.indices@.len() && b.cells_start(r) < k < b.cells_end(r) implies #[trigger] led(
        b,
        r,
        k,
    ) by {
        assert(led(a, r, k));
    }
    assert forall|r: int, s: int| 0 <= r < s < b.indices@.len() implies scan_before(
        #[trigger] b.first_cell(r),
        #[trigger] b.first_cell(s),
    ) by {
        assert(b.first_cell(r) == a.first_cell(r) && b.first_cell(s) == a.first_cell(s));
    }
    assert(b.first_cell(b.indices@.len() - 1) == a.first_cell(a.indices@.len() - 1));
}

/// The order of the regions stays when a new region starts with the cell
/// at which the scan stands.
proof fn lemma_order_starts(sim: Sim, a: Regions, b: Regions, p: Pos)
    requires
        a.wf(),
        b.indices@.len() == a.indices@.len() + 1,
        forall|r: int| 0 <= r < a.indices@.len() ==> b.indices@[r] == a.indices@[r],
        b.deposits_start(a.indices@.len() as int) == a.deposits@.len(),
        b.cells_start(a.indices@.len() as int) == a.cells@.len(),
        b.cells@ == a.cells@.push(p),
        b.deposits@ == a.deposits@,
        forall|r: int| 0 <= r < a.indices@.len() ==> #[trigger] region_ok(sim, a, r),
        covering(a),
        in_scan_order(a),
        forall|r: int|
            0 <= r < a.indices@.len() ==> scan_passed(
                #[trigger] a.first_cell(r),
                p.x as int,
                p.y as int,
            ),
        forall|q: Pos|
            cell_open(sim, q) && scan_passed(q, p.x as int, p.y as int) ==> a.cells@.contains(q),
    ensures
        covering(b),
        in_scan_order(b),
        earlier_listed(sim, b),
        forall|r: int|
            0 <= r < b.indices@.len() ==> scan_passed(
                #[trigger] b.first_cell(r),
                p.x + 1,
                p.y as int,
            ),
{
    let last = a.indices@.len() as int;
    assert(b.first_cell(last) == p);
    assert forall|r: int| 0 <= r < last implies #[trigger] b.first_cell(r) == a.first_cell(r)
        && a.cells_start(r) < a.cells_end(r) <= a.cells@.len() && b.cells_start(r)
        == a.cells_start(r) && b.cells_end(r) == a.cells_end(r) by {
        assert(region_ok(sim, a, r));
        assert(0 <= a.deposits_start(r) <= a.deposits_end(r));
        assert(b.indices@[r] == a.indices@[r]);
        if r + 1 < last {
            assert(b.indices@[r + 1] == a.indices@[r + 1]);
        }
    }
    assert(covering(b)) by {
        if last > 0 {
            assert(b.indices@[0] == a.indices@[0]);
        }
    }
    assert forall|r: int, k: int|
        0 <= r < b.indices@.len() && b.cells_start(r) < k < b.cells_end(r) implies #[trigger] led(
        b,
        r,
        k,
    ) by {
        if r < last {
            assert(b.first_cell(r) == a.first_cell(r));
            assert(led(a, r, k));
            assert(b.cells@[k] == a.cells@[k]);
        }
    }
    assert forall|r: int, s: int| 0 <= r < s < b.indices@.len() implies scan_before(
        #[trigger] b.first_cell(r),
        #[trigger] b.first_cell(s),
    ) by {
        assert(b.first_cell(r) == a.first_cell(r));
        if s < last {
            assert(b.first_cell(s) == a.first_cell(s));
        } else {
            assert(scan_passed(a.first_cell(r), p.x as int, p.y as int));
        }
    }
    assert forall|q: Pos|
        cell_open(sim, q) && scan_before(
            q,
            b.first_cell(b.indices@.len() - 1),
        ) implies #[trigger] b.cells@.contains(q) by {
        assert(scan_passed(q, p.x as int, p.y as int));
        assert(a.cells@.contains(q));
        let k = choose|k: int| 0 <= k < a.cells@.len() && a.cells@[k] == q;
        assert(b.cells@[k] == q);
    }
    assert forall|r: int| 0 <= r < b.indices@.len() implies scan_passed(
        #[trigger] b.first_cell(r),
        p.x + 1,
        p.y as int,
    ) by {
        if r < last {
            assert(b.first_cell(r) == a.first_cell(r));
            assert(scan_passed(a.first_cell(r), p.x as int, p.y as int));
        }
    }
}

/// The first cells of the regions stay where they are when the last
/// region grows.
proof fn lemma_first_cells_stay(sim: Sim, a: Regions, b: Regions, x: int, y: int)
    requires
        a.wf(),
        a.indices@.len() > 0,
        a.indices@ == b.indices@,
        a.cells@.len() <= b.cells@.len(),
        a.cells@ == b.cells@.subrange(0, a.cells@.len() as int),
        a.cells_start(a.indices@.len() - 1) < a.cells@.len(),
        forall|r: int| 0 <= r < a.indices@.len() ==> scan_passed(#[trigger] a.first_cell(r), x, y),
    ensures
        forall|r: int| 0 <= r < b.indices@.len() ==> scan_passed(#[trigger] b.first_cell(r), x, y),
{
    let last = a.indices@.len() - 1;
    assert forall|r: int| 0 <= r < b.indices@.len() implies scan_passed(
        #[trigger] b.first_cell(r),
        x,
        y,
    ) by {
        if r < last {
            lemma_ordered(a, r, last);
        }
        assert(0 <= a.deposits_start(r) <= a.deposits_end(r));
        assert(a.cells_start(r) < a.cells@.len());
        assert(b.cells@[a.cells_start(r)] == a.cells@[a.cells_start(r)]);
        assert(scan_passed(a.first_cell(r), x, y));
    }
}

/// A region ends before a later one starts.
proof fn lemma_ordered(g: Regions, r: int, top: int)
    requires
        g.wf(),
        0 <= r < top < g.indices@.len(),
    ensures
        g.cells_end(r) <= g.cells_start(top),
    decreases top - r,
{
    if r + 1 < top {
        lemma_ordered(g, r + 1, top);
        assert(0 <= g.deposits_start(r + 1) <= g.deposits_end(r + 1));
    }
}

/// Every cell listed lies in a region.
pub proof fn lemma_listed_in_region(g: Regions, k: int)
    requires
        g.wf(),
        covering(g),
        0 <= k < g.cells@.len(),
    ensures
        exists|r: int| 0 <= r < g.indices@.len() && #[trigger] g.cells_start(r) <= k < g.cells_end(r),
{
    let last = g.indices@.len() - 1;
    if k < g.cells_start(last) {
        lemma_region_below(g, k, last);
        let r = choose|r: int| 0 <= r < last && #[trigger] g.cells_start(r) <= k < g.cells_end(r);
        assert(0 <= r < g.indices@.len() && g.cells_start(r) <= k < g.cells_end(r));
    } else {
        assert(g.cells_start(last) <= k < g.cells_end(last));
    }
}

/// Every empty cell of the board lies in a region, and in one only.
pub proof fn lemma_cell_in_one_region(sim: Sim, g: Regions, p: Pos)
    requires
        is_regions_of(sim, g),
        cell_open(sim, p),
    ensures
        exists|r: int| 0 <= r < g.indices@.len() && #[trigger] g.has_cell(r, p),
        forall|r: int, s: int|
            0 <= r < g.indices@.len() && 0 <= s < g.indices@.len() && g.has_cell(r, p)
                && g.has_cell(s, p) ==> r == s,
{
    let k = choose|k: int| 0 <= k < g.cells@.len() && g.cells@[k] == p;
    lemma_listed_in_region(g, k);
    let r = choose|r: int|
        0 <= r < g.indices@.len() && #[trigger] g.cells_start(r) <= k < g.cells_end(r);
    assert(g.has_cell(r, p));
    assert forall|r: int, s: int|
        0 <= r < g.indices@.len() && 0 <= s < g.indices@.len() && g.has_cell(r, p) && g.has_cell(
            s,
            p,
        ) implies r == s by {
        let i = choose|i: int| g.cells_start(r) <= i < g.cells_end(r) && g.cells@[i] == p;
        let j = choose|j: int| g.cells_start(s) <= j < g.cells_end(s) && g.cells@[j] == p;
        assert(0 <= g.deposits_start(r) <= g.deposits_end(r));
        assert(0 <= g.deposits_start(s) <= g.deposits_end(s));
        assert(i == j);
        if r < s {
            lemma_ordered(g, r, s);
        } else if s < r {
            lemma_ordered(g, s, r);
        }
    }
}

/// Every cell before the last region lies in one of the regions before it.
proof fn lemma_region_of(g: Regions, k: int)
    requires
        g.wf(),
        g.indices@.len() > 0,
        0 <= k < g.cells_start(g.indices@.len() - 1),
        g.cells_start(0) == 0,
    ensures
        exists|r: int|
            0 <= r < g.indices@.len() - 1 && #[trigger] g.cells_start(r) <= k < g.cells_end(r),
{
    lemma_region_below(g, k, g.indices@.len() - 1);
}

proof fn lemma_region_below(g: Regions, k: int, top: int)
    requires
        g.wf(),
        0 <= top < g.indices@.len(),
        0 <= k < g.cells_start(top),
        g.cells_start(0) == 0,
    ensures
        exists|r: int| 0 <= r < top && #[trigger] g.cells_start(r) <= k < g.cells_end(r),
    decreases top,
{
    if top == 0 {
    } else if g.cells_start(top - 1) <= k {
        assert(g.cells_end(top - 1) == g.cells_start(top));
    } else {
        lemma_region_below(g, k, top - 1);
        let r = choose|r: int|
            0 <= r < top - 1 && #[trigger] g.cells_start(r) <= k < g.cells_end(r);
        assert(0 <= r < top && g.cells_start(r) <= k < g.cells_end(r));
    }
}

/// What was accounted for in the last region stays so when the lists grow.
proof fn lemma_settled_stays(sim: Sim, a: Regions, b: Regions, r: int, k: int, n: int)
    requires
        a.wf(),
        r == a.indices@.len() - 1,
        r >= 0,
        a.indices@ == b.indices@,
        a.cells@.len() <= b.cells@.len(),
        a.deposits@.len() <= b.deposits@.len(),
        a.cells@ == b.cells@.subrange(0, a.cells@.len() as int),
        a.deposits@ == b.deposits@.subrange(0, a.deposits@.len() as int),
        0 <= k < a.cells@.len(),
        settled(sim, a, r, k, n),
    ensures
        settled(sim, b, r, k, n),
{
    let q = neighbour(a.cells@[k], n);
    assert(a.cells@[k] == b.cells@[k]);
    if cell_open(sim, q) {
        let j = choose|j: int| a.cells_start(r) <= j < a.cells_end(r) && a.cells@[j] == q;
        assert(b.cells@[j] == q);
    }
    if deposit_at(sim, q) is Some {
        let id = deposit_at(sim, q)->0;
        let d = choose|d: int|
            a.deposits_start(r) <= d < a.deposits_end(r) && a.deposits@[d] == id;
        assert(b.deposits@[d] == id);
    }
}

/// What held of the cells and deposits of the last region before the lists
/// grew holds of them afterwards.
proof fn lemma_last_region_stays(sim: Sim, a: Regions, b: Regions, head: int)
    requires
        a.wf(),
        a.indices@.len() > 0,
        a.indices@ == b.indices@,
        a.cells@.len() <= b.cells@.len(),
        a.deposits@.len() <= b.deposits@.len(),
        a.cells@ == b.cells@.subrange(0, a.cells@.len() as int),
        a.deposits@ == b.deposits@.subrange(0, a.deposits@.len() as int),
        head <= a.cells@.len(),
        region_upto(sim, a, a.indices@.len() - 1, head),
    ensures
        forall|k: int|
            a.cells_start(a.indices@.len() - 1) < k < a.cells@.len() ==> #[trigger] rooted(
                b,
                a.indices@.len() - 1,
                k,
            ),
        forall|d: int|
            a.deposits_start(a.indices@.len() - 1) <= d < a.deposits@.len() ==> #[trigger] touching(
                sim,
                b,
                a.indices@.len() - 1,
                d,
            ),
        forall|d: int, e: int|
            a.deposits_start(a.indices@.len() - 1) <= d < e < a.deposits@.len() ==> b.deposits@[d]
                != b.deposits@[e],
        forall|k: int, n: int|
            a.cells_start(a.indices@.len() - 1) <= k < head && 0 <= n < 4 ==> #[trigger] settled(
                sim,
                b,
                a.indices@.len() - 1,
                k,
                n,
            ),
{
    let r = a.indices@.len() - 1;
    assert(0 <= a.cells_start(r) <= a.cells_end(r));
    assert forall|k: int| a.cells_start(r) < k < a.cells@.len() implies #[trigger] rooted(
        b,
        r,
        k,
    ) by {
        assert(rooted(a, r, k));
        let (j, n) = choose|j: int, n: int|
            a.cells_start(r) <= j < k && 0 <= n < 4 && neighbour(a.cells@[j], n) == a.cells@[k];
        assert(a.cells@[j] == b.cells@[j] && a.cells@[k] == b.cells@[k]);
    }
    assert forall|d: int| a.deposits_start(r) <= d < a.deposits@.len() implies #[trigger] touching(
        sim,
        b,
        r,
        d,
    ) by {
        assert(touching(sim, a, r, d));
        let (k, n) = choose|k: int, n: int|
            a.cells_start(r) <= k < a.cells_end(r) && 0 <= n < 4 && deposit_at(
                sim,
                neighbour(a.cells@[k], n),
            ) == Some(a.deposits@[d]);
        assert(a.cells@[k] == b.cells@[k] && a.deposits@[d] == b.deposits@[d]);
    }
    assert forall|d: int, e: int|
        a.deposits_start(r) <= d < e < a.deposits@.len() implies b.deposits@[d]
        != b.deposits@[e] by {
        assert(a.deposits@[d] == b.deposits@[d] && a.deposits@[e] == b.deposits@[e]);
    }
    assert forall|k: int, n: int|
        a.cells_start(r) <= k < head && 0 <= n < 4 implies #[trigger] settled(sim, b, r, k, n) by {
        assert(settled(sim, a, r, k, n));
        lemma_settled_stays(sim, a, b, r, k, n);
    }
}

/// Grows the last region from the cell at its start until every neighbour
/// of every cell of it is accounted for.
fn grow_region(sim: &Sim, visited: &mut Visited, g: &mut Regions)
    requires
        growing(*sim, *old(visited), *old(g), old(g).cells_start(old(g).indices@.len() - 1)),
    ensures
        growing(*sim, *final(visited), *final(g), final(g).cells@.len() as int),
        final(g).indices@ == old(g).indices@,
        final(g).cells@.len() >= old(g).cells@.len(),
        final(g).cells@.subrange(0, old(g).cells@.len() as int) == old(g).cells@,
{
    let mut head: usize = g.indices[g.indices.len() - 1].1;
    while head < g.cells.len()
        invariant
            growing(*sim, *visited, *g, head as int),
            g.indices@ == old(g).indices@,
            g.cells@.len() >= old(g).cells@.len(),
            g.cells@.subrange(0, old(g).cells@.len() as int) == old(g).cells@,
        decreases sim.board.width * sim.board.height - head,
    {
        proof {
            lemma_distinct_bounded(sim.board.width, sim.board.height, g.cells@);
        }
        let mut n: usize = 0;
        while n < 4
            invariant
                n <= 4,
                head < g.cells@.len(),
                growing(*sim, *visited, *g, head as int),
                g.indices@ == old(g).indices@,
                g.cells@.len() >= old(g).cells@.len(),
                g.cells@.subrange(0, old(g).cells@.len() as int) == old(g).cells@,
                forall|m: int|
                    0 <= m < n ==> #[trigger] settled(
                        *sim,
                        *g,
                        g.indices@.len() - 1,
                        head as int,
                        m,
                    ),
            decreases 4 - n,
        {
            let ghost before = g.cells@;
            visit(sim, visited, g, head, n);
            proof {
                assert(g.cells@.subrange(0, old(g).cells@.len() as int) =~= before.subrange(
                    0,
                    old(g).cells@.len() as int,
                ));
            }
            n += 1;
        }
        head += 1;
    }
}

/// Partitions the empty cells of the board into regions: two cells lie in
/// one region where a chain of neighbouring empty cells joins them. Each
/// region lists the deposits that touch it. The regions come in the order
/// in which a row by row scan meets their first cell.
pub fn find_regions(sim: &Sim) -> (g: Regions)
    requires
        sim.wf(),
    ensures
        is_regions_of(*sim, g),
{
    let mut visited = Visited::new(sim.board.width, sim.board.height);
    let mut g = Regions::new();
    let mut y: i8 = 0;
    while y < sim.board.height
        invariant
            0 <= y <= sim.board.height,
            scanned(*sim, visited, g, 0, y as int),
        decreases sim.board.height - y,
    {
        let mut x: i8 = 0;
        while x < sim.board.width
            invariant
                0 <= x <= sim.board.width,
                0 <= y < sim.board.height,
                scanned(*sim, visited, g, x as int, y as int),
            decreases sim.board.width - x,
        {
            let p = Pos { x, y };
            if sim.board.cell(p).is_none() && !visited.get(p) {
                let ghost g0 = g;
                g.new_region();
                visited.set(p, true);
                g.cells.push(p);
                proof {
                    let last = g.indices@.len() - 1;
                    assert(g.cells@.subrange(0, g0.cells@.len() as int) =~= g0.cells@);
                    assert(g.deposits@.subrange(0, g0.deposits@.len() as int) =~= g0.deposits@);
                    lemma_closed_regions_stay(*sim, g0, g);
                    lemma_order_starts(*sim, g0, g, p);
                    assert forall|a: int, b: int|
                        0 <= a < g.cells@.len() && 0 <= b < g.cells@.len() && a
                            != b implies g.cells@[a] != g.cells@[b] by {
                        if a == g.cells@.len() - 1 {
                            assert(g0.cells@[b] == g.cells@[b]);
                        } else if b == g.cells@.len() - 1 {
                            assert(g0.cells@[a] == g.cells@[a]);
                        } else {
                            assert(g0.cells@[a] == g.cells@[a] && g0.cells@[b] == g.cells@[b]);
                        }
                    }
                    assert forall|k: int| 0 <= k < g.cells@.len() implies cell_open(
                        *sim,
                        #[trigger] g.cells@[k],
                    ) by {
                        if k < g0.cells@.len() {
                            assert(g0.cells@[k] == g.cells@[k]);
                        }
                    }
                    assert forall|q: Pos| sim.board.in_bounds(q) implies (visited.at(q)
                        <==> g.cells@.contains(q)) by {
                        if q != p {
                            if g0.cells@.contains(q) {
                                let k = choose|k: int| 0 <= k < g0.cells@.len() && g0.cells@[k] == q;
                                assert(g.cells@[k] == q);
                            }
                            if g.cells@.contains(q) {
                                let k = choose|k: int| 0 <= k < g.cells@.len() && g.cells@[k] == q;
                                assert(g0.cells@[k] == q);
                            }
                        } else {
                            assert(g.cells@[g.cells@.len() - 1] == p);
                        }
                    }
                    assert(growing(*sim, visited, g, g.cells_start(last)));
                }
                let ghost g1 = g;
                grow_region(sim, &mut visited, &mut g);
                proof {
                    assert forall|q: Pos| g1.cells@.contains(q) implies g.cells@.contains(q) by {
                        let k = choose|k: int| 0 <= k < g1.cells@.len() && g1.cells@[k] == q;
                        assert(g.cells@.subrange(0, g1.cells@.len() as int)[k] == q);
                    }
                    assert(region_ok(*sim, g, g.indices@.len() - 1));
                    lemma_first_cells_stay(*sim, g1, g, x + 1, y as int);
                }
            }
            x += 1;
        }
        y += 1;
    }
    proof {
        assert forall|p: Pos| cell_open(*sim, p) implies g.cells@.contains(p) by {
            assert(sim.board.in_bounds(p));
        }
    }
    g
}

/// What holds between two regions: every region is done, and every empty
/// cell that a row by row scan meets before `(x, y)` is listed.
pub open spec fn scanned(sim: Sim, visited: Visited, g: Regions, x: int, y: int) -> bool {
    &&& sim.wf()
    &&& g.wf()
    &&& visited.wf()
    &&& visited.width == sim.board.width
    &&& visited.height == sim.board.height
    &&& cells_sound(sim, g)
    &&& forall|p: Pos| sim.board.in_bounds(p) ==> (visited.at(p) <==> g.cells@.contains(p))
    &&& forall|r: int| 0 <= r < g.indices@.len() ==> #[trigger] region_ok(sim, g, r)
    &&& covering(g)
    &&& in_scan_order(g)
    &&& forall|r: int| 0 <= r < g.indices@.len() ==> scan_passed(#[trigger] g.first_cell(r), x, y)
    &&& forall|p: Pos| cell_open(sim, p) && scan_passed(p, x, y) ==> g.cells@.contains(p)
}

/// The regions stay as they are when a new one is started after them.
proof fn lemma_closed_regions_stay(sim: Sim, a: Regions, b: Regions)
    requires
        a.wf(),
        b.indices@.len() == a.indices@.len() + 1,
        forall|r: int| 0 <= r < a.indices@.len() ==> b.indices@[r] == a.indices@[r],
        b.deposits_start(a.indices@.len() as int) == a.deposits@.len(),
        b.cells_start(a.indices@.len() as int) == a.cells@.len(),
        b.cells@.len() == a.cells@.len() + 1,
        b.deposits@ == a.deposits@,
        a.cells@ == b.cells@.subrange(0, a.cells@.len() as int),
        forall|r: int| 0 <= r < a.indices@.len() ==> #[trigger] region_ok(sim, a, r),
    ensures
        b.wf(),
        forall|r: int| 0 <= r < b.indices@.len() - 1 ==> #[trigger] region_ok(sim, b, r),
        region_upto(sim, b, b.indices@.len() - 1, b.cells_start(b.indices@.len() - 1)),
{
    let last = a.indices@.len() as int;
    assert forall|r: int| 0 <= r < b.indices@.len() implies {
        &&& 0 <= #[trigger] b.deposits_start(r) <= b.deposits_end(r) <= b.deposits@.len()
        &&& 0 <= b.cells_start(r) <= b.cells_end(r) <= b.cells@.len()
    } by {
        if r < last {
            assert(b.indices@[r] == a.indices@[r]);
            assert(0 <= a.deposits_start(r) <= a.deposits_end(r));
            if r + 1 < last {
                assert(b.indices@[r + 1] == a.indices@[r + 1]);
            }
        }
    }
    assert forall|r: int| 0 <= r < b.indices@.len() - 1 implies #[trigger] region_ok(sim, b, r) by {
        assert(region_ok(sim, a, r));
        assert(b.indices@[r] == a.indices@[r]);
        if r + 1 < last {
            assert(b.indices@[r + 1] == a.indices@[r + 1]);
        }
        assert(0 <= a.deposits_start(r) <= a.deposits_end(r) <= a.deposits@.len());
        assert(a.cells_end(r) == b.cells_end(r));
        assert(a.deposits_end(r) == b.deposits_end(r));
        assert(a.cells_start(r) == b.cells_start(r));
        assert forall|k: int| b.cells_start(r) < k < b.cells_end(r) implies #[trigger] rooted(
            b,
            r,
            k,
        ) by {
            assert(rooted(a, r, k));
            let (j, n) = choose|j: int, n: int|
                a.cells_start(r) <= j < k && 0 <= n < 4 && neighbour(a.cells@[j], n)
                    == a.cells@[k];
            assert(neighbour(b.cells@[j], n) == b.cells@[k]);
        }
        assert forall|d: int| b.deposits_start(r) <= d < b.deposits_end(r) implies #[trigger] touching(
            sim,
            b,
            r,
            d,
        ) by {
            assert(touching(sim, a, r, d));
            let (k, n) = choose|k: int, n: int|
                a.cells_start(r) <= k < a.cells_end(r) && 0 <= n < 4 && deposit_at(
                    sim,
                    neighbour(a.cells@[k], n),
                ) == Some(a.deposits@[d]);
            assert(deposit_at(sim, neighbour(b.cells@[k], n)) == Some(b.deposits@[d]));
        }
        assert forall|k: int, n: int|
            b.cells_start(r) <= k < b.cells_end(r) && 0 <= n < 4 implies #[trigger] settled(
            sim,
            b,
            r,
            k,
            n,
        ) by {
            assert(settled(sim, a, r, k, n));
            let q = neighbour(a.cells@[k], n);
            assert(a.cells@[k] == b.cells@[k]);
            if cell_open(sim, q) {
                let j = choose|j: int|
                    a.cells_start(r) <= j < a.cells_end(r) && a.cells@[j] == q;
                assert(b.cells@[j] == q);
            }
            if deposit_at(sim, q) is Some {
                let id = deposit_at(sim, q)->0;
                let d = choose|d: int|
                    a.deposits_start(r) <= d < a.deposits_end(r) && a.deposits@[d] == id;
                assert(b.deposits@[d] == id);
            }
        }
    }
}

} // verus!
