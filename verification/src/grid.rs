use crate::board::{lemma_index_in_range, lemma_index_injective};
use crate::geometry::Pos;
use vstd::prelude::*;

verus! {

/// `p` lies on a grid of `width` by `height` cells.
pub open spec fn on_grid(width: i8, height: i8, p: Pos) -> bool {
    0 <= p.x < width && 0 <= p.y < height
}

/// Where a grid stored row by row keeps the cell at `p`.
pub open spec fn spec_slot(width: i8, p: Pos) -> int {
    p.y * width + p.x
}

/// The four neighbours of `p`, where the coordinates allow them.
pub open spec fn neighbour(p: Pos, k: int) -> Pos {
    if k == 0 {
        p.shifted(0, -1)
    } else if k == 1 {
        p.shifted(-1, 0)
    } else if k == 2 {
        p.shifted(0, 1)
    } else {
        p.shifted(1, 0)
    }
}

/// Index of the cell at `p` in a grid stored row by row.
pub fn slot_at(width: i8, height: i8, p: Pos) -> (i: usize)
    requires
        0 <= width <= 100,
        0 <= height <= 100,
        on_grid(width, height, p),
    ensures
        i == spec_slot(width, p),
        i < width * height,
{
    proof {
        lemma_index_in_range(width as int, height as int, p.x as int, p.y as int);
        assert(p.y as int * width as int <= 10000) by (nonlinear_arith)
            requires
                0 <= p.y < 100,
                0 <= width <= 100,
        ;
    }
    p.y as usize * width as usize + p.x as usize
}

/// Two cells of a grid are stored apart.
pub proof fn lemma_slots_differ(width: i8, height: i8, p: Pos, q: Pos)
    requires
        on_grid(width, height, p),
        on_grid(width, height, q),
        p != q,
    ensures
        spec_slot(width, p) != spec_slot(width, q),
        0 <= spec_slot(width, p) < width * height,
{
    lemma_index_in_range(width as int, height as int, p.x as int, p.y as int);
    if spec_slot(width, p) == spec_slot(width, q) {
        lemma_index_injective(width as int, p.x as int, p.y as int, q.x as int, q.y as int);
    }
}

/// A list of cells of a grid in which none occurs twice is no longer than
/// the grid has cells.
pub proof fn lemma_distinct_bounded(width: i8, height: i8, s: Seq<Pos>)
    requires
        0 <= width,
        0 <= height,
        s.no_duplicates(),
        forall|k: int| 0 <= k < s.len() ==> on_grid(width, height, #[trigger] s[k]),
    ensures
        s.len() <= width * height,
{
    let t = Seq::new(s.len(), |k: int| spec_slot(width, s[k]));
    assert forall|a: int, b: int| 0 <= a < t.len() && 0 <= b < t.len() && a != b implies t[a]
        != t[b] by {
        lemma_slots_differ(width, height, s[a], s[b]);
    }
    t.unique_seq_to_set();
    assert(width * height >= 0) by (nonlinear_arith)
        requires
            0 <= width,
            0 <= height,
    ;
    let all = vstd::set_lib::set_int_range(0, width * height);
    vstd::set_lib::lemma_int_range(0, width * height);
    assert forall|v: int| t.to_set().contains(v) implies all.contains(v) by {
        let k = choose|k: int| 0 <= k < t.len() && t[k] == v;
        lemma_index_in_range(width as int, height as int, s[k].x as int, s[k].y as int);
    }
    vstd::set_lib::lemma_len_subset(t.to_set(), all);
}

/// The neighbours of a cell are the cells 4-adjacent to it.
pub proof fn lemma_neighbours(p: Pos, q: Pos)
    requires
        -1 <= p.x <= 100,
        -1 <= p.y <= 100,
    ensures
        crate::geometry::adjacent(p, q) <==> exists|k: int| 0 <= k < 4 && neighbour(p, k) == q,
{
    if crate::geometry::adjacent(p, q) {
        if q.y == p.y - 1 {
            assert(neighbour(p, 0) == q);
        } else if q.x == p.x - 1 {
            assert(neighbour(p, 1) == q);
        } else if q.y == p.y + 1 {
            assert(neighbour(p, 2) == q);
        } else {
            assert(neighbour(p, 3) == q);
        }
    }
}

/// The neighbour `k` of the grid cell `p`.
pub fn neighbour_of(p: Pos, k: usize) -> (q: Pos)
    requires
        -1 <= p.x <= 100,
        -1 <= p.y <= 100,
        k < 4,
    ensures
        q == neighbour(p, k as int),
        crate::geometry::adjacent(p, q),
{
    if k == 0 {
        Pos { x: p.x, y: p.y - 1 }
    } else if k == 1 {
        Pos { x: p.x - 1, y: p.y }
    } else if k == 2 {
        Pos { x: p.x, y: p.y + 1 }
    } else {
        Pos { x: p.x + 1, y: p.y }
    }
}

} // verus!
