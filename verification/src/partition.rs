use crate::geometry::{Id, Pos};
use crate::grid::neighbour;
use crate::region::{
    cell_open, deposit_at, is_regions_of, led, lemma_cell_in_one_region, region_ok, rooted,
    scan_before, settled, touching, Regions,
};
use crate::scene::Sim;
use vstd::prelude::*;

verus! {

/// The cells of region `r`, in the order in which they are listed.
pub open spec fn cells_of(g: Regions, r: int) -> Seq<Pos> {
    g.cells@.subrange(g.cells_start(r), g.cells_end(r))
}

/// The deposits of region `r`, in the order in which they are listed.
pub open spec fn deposits_of(g: Regions, r: int) -> Seq<Id> {
    g.deposits@.subrange(g.deposits_start(r), g.deposits_end(r))
}

/// Two tables hold the same cells and the same deposits in region `r`,
/// whatever the order within the region.
pub open spec fn same_region(g: Regions, h: Regions, r: int) -> bool {
    &&& g.first_cell(r) == h.first_cell(r)
    &&& forall|p: Pos| g.has_cell(r, p) <==> h.has_cell(r, p)
    &&& forall|id: Id| g.has_deposit(r, id) <==> h.has_deposit(r, id)
}

/// A region of one table lies within the region of another table that
/// holds its first cell: a chain of neighbouring empty cells leads from the
/// first cell to every cell of the region, and a region holds every empty
/// neighbour of its cells.
pub proof fn lemma_region_inside(sim: Sim, g: Regions, h: Regions, r: int, s: int, k: int)
    requires
        is_regions_of(sim, g),
        is_regions_of(sim, h),
        0 <= r < g.indices@.len(),
        0 <= s < h.indices@.len(),
        h.has_cell(s, g.first_cell(r)),
        g.cells_start(r) <= k < g.cells_end(r),
    ensures
        h.has_cell(s, g.cells@[k]),
    decreases k,
{
    assert(0 <= g.deposits_start(r) <= g.deposits_end(r));
    if k > g.cells_start(r) {
        assert(region_ok(sim, g, r));
        assert(rooted(g, r, k));
        let (j, n) = choose|j: int, n: int|
            g.cells_start(r) <= j < k && 0 <= n < 4 && neighbour(g.cells@[j], n) == g.cells@[k];
        lemma_region_inside(sim, g, h, r, s, j);
        let i = choose|i: int| h.cells_start(s) <= i < h.cells_end(s) && h.cells@[i] == g.cells@[j];
        assert(region_ok(sim, h, s));
        assert(settled(sim, h, s, i, n));
        assert(cell_open(sim, g.cells@[k]));
    }
}

/// The deposits of a region are those that own a neighbour of one of its
/// cells.
pub proof fn lemma_deposits_touch(sim: Sim, g: Regions, r: int, id: Id)
    requires
        is_regions_of(sim, g),
        0 <= r < g.indices@.len(),
    ensures
        g.has_deposit(r, id) <==> exists|p: Pos, n: int|
            g.has_cell(r, p) && 0 <= n < 4 && #[trigger] deposit_at(sim, neighbour(p, n)) == Some(
                id,
            ),
{
    assert(region_ok(sim, g, r));
    assert(0 <= g.deposits_start(r) <= g.deposits_end(r));
    if g.has_deposit(r, id) {
        let d = choose|d: int|
            g.deposits_start(r) <= d < g.deposits_end(r) && g.deposits@[d] == id;
        assert(touching(sim, g, r, d));
        let (k, n) = choose|k: int, n: int|
            g.cells_start(r) <= k < g.cells_end(r) && 0 <= n < 4 && deposit_at(
                sim,
                neighbour(g.cells@[k], n),
            ) == Some(g.deposits@[d]);
        assert(g.has_cell(r, g.cells@[k]));
        assert(deposit_at(sim, neighbour(g.cells@[k], n)) == Some(id));
    }
    if exists|p: Pos, n: int|
        g.has_cell(r, p) && 0 <= n < 4 && #[trigger] deposit_at(sim, neighbour(p, n)) == Some(id) {
        let (p, n) = choose|p: Pos, n: int|
            g.has_cell(r, p) && 0 <= n < 4 && #[trigger] deposit_at(sim, neighbour(p, n)) == Some(
                id,
            );
        let k = choose|k: int| g.cells_start(r) <= k < g.cells_end(r) && g.cells@[k] == p;
        assert(settled(sim, g, r, k, n));
    }
}

/// The first cell of a region is the first of its cells that a row by row
/// scan meets, and it comes no later than the first cell of any region
/// after it.
pub proof fn lemma_first_is_first(sim: Sim, g: Regions, r: int, s: int, p: Pos)
    requires
        is_regions_of(sim, g),
        0 <= r <= s < g.indices@.len(),
        g.has_cell(s, p),
    ensures
        !scan_before(p, g.first_cell(r)),
{
    let k = choose|k: int| g.cells_start(s) <= k < g.cells_end(s) && g.cells@[k] == p;
    if k > g.cells_start(s) {
        assert(led(g, s, k));
    }
    if r < s {
        assert(scan_before(g.first_cell(r), g.first_cell(s)));
    }
}

/// Two tables of the regions of one board agree on region `r` and on
/// every region before it.
pub proof fn lemma_same_region(sim: Sim, g: Regions, h: Regions, r: int)
    requires
        is_regions_of(sim, g),
        is_regions_of(sim, h),
        0 <= r < g.indices@.len(),
    ensures
        r < h.indices@.len(),
        forall|j: int| 0 <= j <= r ==> #[trigger] same_region(g, h, j),
    decreases r,
{
    if r > 0 {
        lemma_same_region(sim, g, h, r - 1);
    }
    assert(region_ok(sim, g, r));
    assert(0 <= g.deposits_start(r) <= g.deposits_end(r));
    let p = g.first_cell(r);
    assert(g.has_cell(r, p));
    assert(cell_open(sim, p));
    lemma_cell_in_one_region(sim, h, p);
    lemma_cell_in_one_region(sim, g, p);
    let s = choose|s: int| 0 <= s < h.indices@.len() && #[trigger] h.has_cell(s, p);
    if s < r {
        assert(same_region(g, h, s));
        assert(g.has_cell(s, p));
        assert(false);
    }
    assert(region_ok(sim, h, r));
    assert(0 <= h.deposits_start(r) <= h.deposits_end(r));
    let q = h.first_cell(r);
    assert(h.has_cell(r, q));
    assert(cell_open(sim, q));
    lemma_cell_in_one_region(sim, g, q);
    lemma_cell_in_one_region(sim, h, q);
    let t = choose|t: int| 0 <= t < g.indices@.len() && #[trigger] g.has_cell(t, q);
    if t < r {
        assert(same_region(g, h, t));
        assert(h.has_cell(t, q));
        assert(false);
    }
    lemma_first_is_first(sim, g, r, t, q);
    lemma_first_is_first(sim, h, r, s, p);
    assert(p == q);
    assert(s == r);
    assert(t == r);
    assert forall|c: Pos| g.has_cell(r, c) <==> h.has_cell(r, c) by {
        if g.has_cell(r, c) {
            let k = choose|k: int| g.cells_start(r) <= k < g.cells_end(r) && g.cells@[k] == c;
            lemma_region_inside(sim, g, h, r, r, k);
        }
        if h.has_cell(r, c) {
            let k = choose|k: int| h.cells_start(r) <= k < h.cells_end(r) && h.cells@[k] == c;
            lemma_region_inside(sim, h, g, r, r, k);
        }
    }
    assert forall|id: Id| g.has_deposit(r, id) <==> h.has_deposit(r, id) by {
        lemma_deposits_touch(sim, g, r, id);
        lemma_deposits_touch(sim, h, r, id);
    }
    assert(same_region(g, h, r));
}

/// Two tables of the regions of one board list as many and the same cells
/// and deposits in region `r`.
pub proof fn lemma_same_size(sim: Sim, g: Regions, h: Regions, r: int)
    requires
        is_regions_of(sim, g),
        is_regions_of(sim, h),
        0 <= r < g.indices@.len(),
        0 <= r < h.indices@.len(),
        same_region(g, h, r),
    ensures
        cells_of(g, r).len() == cells_of(h, r).len(),
        deposits_of(g, r).len() == deposits_of(h, r).len(),
        cells_of(g, r).to_set() == cells_of(h, r).to_set(),
        deposits_of(g, r).to_set() == deposits_of(h, r).to_set(),
{
    lemma_listed_once(sim, g, r);
    lemma_listed_once(sim, h, r);
    assert(cells_of(g, r).to_set() =~= cells_of(h, r).to_set()) by {
        assert forall|p: Pos| cells_of(g, r).to_set().contains(p) <==> cells_of(
            h,
            r,
        ).to_set().contains(p) by {
            assert(g.has_cell(r, p) <==> h.has_cell(r, p));
        }
    }
    assert(deposits_of(g, r).to_set() =~= deposits_of(h, r).to_set()) by {
        assert forall|id: Id| deposits_of(g, r).to_set().contains(id) <==> deposits_of(
            h,
            r,
        ).to_set().contains(id) by {
            assert(g.has_deposit(r, id) <==> h.has_deposit(r, id));
        }
    }
    cells_of(g, r).unique_seq_to_set();
    cells_of(h, r).unique_seq_to_set();
    deposits_of(g, r).unique_seq_to_set();
    deposits_of(h, r).unique_seq_to_set();
}

/// A region lists each of its cells and each of its deposits once.
pub proof fn lemma_listed_once(sim: Sim, g: Regions, r: int)
    requires
        is_regions_of(sim, g),
        0 <= r < g.indices@.len(),
    ensures
        cells_of(g, r).no_duplicates(),
        deposits_of(g, r).no_duplicates(),
        cells_of(g, r).len() == g.cells_end(r) - g.cells_start(r),
        deposits_of(g, r).len() == g.deposits_end(r) - g.deposits_start(r),
        forall|p: Pos| cells_of(g, r).to_set().contains(p) <==> g.has_cell(r, p),
        forall|id: Id| deposits_of(g, r).to_set().contains(id) <==> g.has_deposit(r, id),
{
    assert(region_ok(sim, g, r));
    assert(0 <= g.deposits_start(r) <= g.deposits_end(r));
    let cs = g.cells_start(r);
    let ds = g.deposits_start(r);
    assert forall|i: int, j: int|
        0 <= i < cells_of(g, r).len() && 0 <= j < cells_of(g, r).len() && i != j implies cells_of(
        g,
        r,
    )[i] != cells_of(g, r)[j] by {
        assert(g.cells@[cs + i] != g.cells@[cs + j]);
    }
    assert forall|i: int, j: int|
        0 <= i < deposits_of(g, r).len() && 0 <= j < deposits_of(g, r).len() && i
            != j implies deposits_of(g, r)[i] != deposits_of(g, r)[j] by {
        if i < j {
            assert(g.deposits@[ds + i] != g.deposits@[ds + j]);
        } else {
            assert(g.deposits@[ds + j] != g.deposits@[ds + i]);
        }
    }
    assert forall|p: Pos| cells_of(g, r).to_set().contains(p) <==> g.has_cell(r, p) by {
        if cells_of(g, r).contains(p) {
            let i = choose|i: int| 0 <= i < cells_of(g, r).len() && cells_of(g, r)[i] == p;
            assert(g.cells@[cs + i] == p);
        }
        if g.has_cell(r, p) {
            let k = choose|k: int| g.cells_start(r) <= k < g.cells_end(r) && g.cells@[k] == p;
            assert(cells_of(g, r)[k - cs] == p);
        }
    }
    assert forall|id: Id| deposits_of(g, r).to_set().contains(id) <==> g.has_deposit(r, id) by {
        if deposits_of(g, r).contains(id) {
            let i = choose|i: int| 0 <= i < deposits_of(g, r).len() && deposits_of(g, r)[i] == id;
            assert(g.deposits@[ds + i] == id);
        }
        if g.has_deposit(r, id) {
            let d = choose|d: int|
                g.deposits_start(r) <= d < g.deposits_end(r) && g.deposits@[d] == id;
            assert(deposits_of(g, r)[d - ds] == id);
        }
    }
}

/// Two tables of the regions of one board start region `r` at the same
/// offsets.
pub proof fn lemma_same_start(sim: Sim, g: Regions, h: Regions, r: int)
    requires
        is_regions_of(sim, g),
        is_regions_of(sim, h),
        0 <= r < g.indices@.len(),
        0 <= r < h.indices@.len(),
    ensures
        g.cells_start(r) == h.cells_start(r),
        g.deposits_start(r) == h.deposits_start(r),
    decreases r,
{
    if r > 0 {
        lemma_same_start(sim, g, h, r - 1);
        lemma_same_region(sim, g, h, r - 1);
        assert(same_region(g, h, r - 1));
        lemma_same_size(sim, g, h, r - 1);
        lemma_listed_once(sim, g, r - 1);
        lemma_listed_once(sim, h, r - 1);
    }
}

/// The regions of a board are determined: two tables that hold the regions
/// of one board have as many regions, at the same offsets, and hold the
/// same cells and the same deposits in each. Only the order within a
/// region is left open.
pub proof fn lemma_regions_determined(sim: Sim, g: Regions, h: Regions)
    requires
        is_regions_of(sim, g),
        is_regions_of(sim, h),
    ensures
        g.indices@ == h.indices@,
        g.cells@.len() == h.cells@.len(),
        g.deposits@.len() == h.deposits@.len(),
        forall|r: int| 0 <= r < g.indices@.len() ==> #[trigger] same_region(g, h, r),
{
    let n = g.indices@.len() as int;
    let m = h.indices@.len() as int;
    if n > 0 {
        lemma_same_region(sim, g, h, n - 1);
    }
    if m > 0 {
        lemma_same_region(sim, h, g, m - 1);
    }
    assert(n == m);
    assert forall|r: int| 0 <= r < n implies g.indices@[r] == h.indices@[r] by {
        lemma_same_start(sim, g, h, r);
    }
    assert(g.indices@ =~= h.indices@);
    if n > 0 {
        lemma_same_start(sim, g, h, n - 1);
        assert(same_region(g, h, n - 1));
        lemma_same_size(sim, g, h, n - 1);
        lemma_listed_once(sim, g, n - 1);
        lemma_listed_once(sim, h, n - 1);
    }
}

} // verus!
