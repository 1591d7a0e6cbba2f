use crate::building::{Building, Combiner, Conveyor, Deposit, Mine};
use crate::connect::{
    cannot_place, placed_at, spec_find_around, spec_rim_cell, CONNECTOR_PLACEMENTS, DOCKS,
    MAX_CHILDREN_LEN, MINE_PLACEMENTS,
};
use crate::distance::DistanceMap;
use crate::geometry::{Id, Pos, Rotation};
use crate::path_stats::PathStats;
use crate::placement::{removed_at, untouched};
use crate::scene::Sim;
use crate::tree::{
    better_of, ChildrenId, ConnectionBuilding, ConnectionTree, ConnectionTreeNode, NodeId, State,
};
use vstd::prelude::*;

verus! {

/// Where a search stands: the scene, the tree, the number of children
/// written to the run of slots at hand, and the best found so far.
pub struct Search {
    pub sim: Sim,
    pub tree: ConnectionTree,
    pub len: u16,
    pub best: Option<(NodeId, PathStats)>,
}

/// Marks the state of a search between two steps.
pub open spec fn is_search(s: Search) -> bool {
    true
}

/// Marks what one step of a search has found.
pub open spec fn is_found(
    with: Sim,
    found: Search,
    state: State,
    stats: Option<(NodeId, PathStats)>,
    id: Id,
) -> bool {
    true
}

/// Marks the result of trying one node.
pub open spec fn is_result(r: Option<(NodeId, PathStats)>) -> bool {
    true
}

/// The scene and the tree hold what they held, and as many children are
/// written.
pub open spec fn unchanged(
    sim0: Sim,
    tree0: ConnectionTree,
    len0: u16,
    sim1: Sim,
    tree1: ConnectionTree,
    len1: u16,
) -> bool {
    sim1.same_as(sim0) && tree1.nodes@ == tree0.nodes@ && len1 == len0
}

/// The stats `stats` under the name of the node `node_id`.
pub open spec fn renamed(stats: Option<(NodeId, PathStats)>, node_id: NodeId) -> Option<
    (NodeId, PathStats),
> {
    match stats {
        Some((_, s)) => Some((node_id, s)),
        None => None,
    }
}

/// The scene `after` is `before` with the building `id` removed; see
/// `remove_building`.
#[verifier::opaque]
pub open spec fn removed_from(before: Sim, id: Id, after: Sim) -> bool {
    &&& after.buildings.values@ == before.buildings.values@.update(id.0 as int, None)
    &&& after.connections@ == before.connections@.filter(untouched(id))
    &&& after.board.width == before.board.width
    &&& after.board.height == before.board.height
    &&& forall|p: Pos| before.board.in_bounds(p) ==> after.board.at(p) == removed_at(before, id, p)
    &&& after.products == before.products
    &&& after.turns == before.turns
    &&& after.time == before.time
}

/// The connector of placement `j`, with an input on `dock`.
pub open spec fn connector_at(dock: Pos, j: int) -> ConnectionBuilding {
    let e = CONNECTOR_PLACEMENTS[j];
    let anchor = dock.shifted(e.2 as int, e.3 as int);
    let rotation = rotation_of(e.1 as int);
    if e.0 == 0 {
        ConnectionBuilding::Conveyor(Conveyor { pos: anchor, rotation, big: false })
    } else if e.0 == 1 {
        ConnectionBuilding::Conveyor(Conveyor { pos: anchor, rotation, big: true })
    } else {
        ConnectionBuilding::Combiner(Combiner { pos: anchor, rotation })
    }
}

/// The rotation that selects row `row` of the footprint tables.
pub open spec fn rotation_of(row: int) -> Rotation {
    if row == 0 {
        Rotation::Up
    } else if row == 1 {
        Rotation::Right
    } else if row == 2 {
        Rotation::Down
    } else {
        Rotation::Left
    }
}

/// What `place_node` makes of the scene, the tree and the number of
/// children, and what it returns.
///
/// Nothing happens, and nothing is found, if no way leads from `end_pos`
/// to the factory, or if the building cannot be placed. Otherwise the
/// building is placed and the search goes on from its output with one
/// level less; see `children_searched`. Then the building is removed, the
/// node is written to the next slot with the state that the search gave,
/// and the result is what the search found, under the name of the node.
#[verifier::opaque]
pub open spec fn node_tried(
    sim0: Sim,
    tree0: ConnectionTree,
    len0: u16,
    map: DistanceMap,
    factory_id: Id,
    children_id: ChildrenId,
    depth: u8,
    building: ConnectionBuilding,
    start_pos: Pos,
    end_pos: Pos,
    sim1: Sim,
    tree1: ConnectionTree,
    len1: u16,
    r: Option<(NodeId, PathStats)>,
) -> bool
    decreases depth, 0int, 0int,
{
    let node_id = NodeId((children_id.0 + len0) as u32);
    if depth == 0 {
        false
    } else if map.reach(end_pos) is None {
        r is None && unchanged(sim0, tree0, len0, sim1, tree1, len1)
    } else {
        ||| {
            &&& cannot_place(sim0, building.spec_to_building())
            &&& r is None
            &&& unchanged(sim0, tree0, len0, sim1, tree1, len1)
        }
        ||| exists|
            with: Sim,
            found: Search,
            state: State,
            stats: Option<(NodeId, PathStats)>,
            id: Id,
        |
            {
                &&& #[trigger] is_found(with, found, state, stats, id)
                &&& placed_at(sim0, building.spec_to_building(), id, with)
                &&& children_searched(
                    with,
                    tree0,
                    map,
                    factory_id,
                    id,
                    node_id,
                    end_pos,
                    map.reach(end_pos)->0,
                    (depth - 1) as u8,
                    found.sim,
                    found.tree,
                    state,
                    stats,
                )
                &&& removed_from(found.sim, id, sim1)
                &&& tree1.nodes@ == found.tree.nodes@.update(
                    node_id.0 as int,
                    ConnectionTreeNode { building, start_pos, end_pos, state },
                )
                &&& len1 == len0 + 1
                &&& r == renamed(stats, node_id)
            }
    }
}

/// What `place_children_connectors` makes of the scene and the tree, and
/// what it returns.
///
/// The path is connected if no step is left to the factory. It is merged
/// if the output feeds a path to the factory; see `spec_find_around`. It
/// is stopped if the depth is used up or the arena is full. In these cases
/// nothing changes and the stats name the parent. Otherwise a run of
/// slots is reserved at the end of the arena and a connector is tried at
/// each of the four docks; see `docks_tried`. The state names the run and
/// the number of children written, and the stats are the best found.
#[verifier::opaque]
pub open spec fn children_searched(
    sim0: Sim,
    tree0: ConnectionTree,
    map: DistanceMap,
    factory_id: Id,
    connector_id: Id,
    parent_id: NodeId,
    start_pos: Pos,
    start_dist: u16,
    depth: u8,
    sim1: Sim,
    tree1: ConnectionTree,
    state: State,
    stats: Option<(NodeId, PathStats)>,
) -> bool
    decreases depth, 3int, 0int,
{
    let found = spec_find_around(
        sim0,
        map,
        factory_id,
        parent_id,
        connector_id,
        start_pos,
        depth,
    );
    if start_dist == 0 {
        &&& state == State::Connected
        &&& stats == Some((parent_id, PathStats { dist: 0, depth }))
        &&& unchanged(sim0, tree0, 0, sim1, tree1, 0)
    } else if found is Some {
        &&& Some((state, stats)) == found
        &&& unchanged(sim0, tree0, 0, sim1, tree1, 0)
    } else if depth == 0 || !tree0.can_reserve(MAX_CHILDREN_LEN) {
        &&& state == State::Stopped
        &&& stats == Some((parent_id, PathStats { dist: start_dist, depth }))
        &&& unchanged(sim0, tree0, 0, sim1, tree1, 0)
    } else {
        exists|first: Search, last: Search|
            #![trigger is_search(first), is_search(last)]
            {
                &&& is_search(first)
                &&& is_search(last)
                &&& first.sim == sim0
                &&& first.tree.nodes@ == tree0.nodes@ + Seq::new(
                    MAX_CHILDREN_LEN as nat,
                    |i: int| ConnectionTreeNode::spec_uninitialized(),
                )
                &&& first.len == 0
                &&& first.best is None
                &&& docks_tried(
                    first,
                    map,
                    factory_id,
                    start_pos,
                    ChildrenId(tree0.nodes@.len() as u32),
                    depth,
                    4,
                    last,
                )
                &&& sim1 == last.sim
                &&& tree1.nodes@ == last.tree.nodes@
                &&& state == State::Children {
                    start: ChildrenId(tree0.nodes@.len() as u32),
                    len: last.len,
                }
                &&& stats == last.best
            }
    }
}

/// What trying connectors at the first `k` docks beside `start_pos` makes
/// of a search: left, right, below and above, in this order. At a dock
/// whose coordinates cannot be held nothing is tried.
#[verifier::opaque]
pub open spec fn docks_tried(
    a: Search,
    map: DistanceMap,
    factory_id: Id,
    start_pos: Pos,
    children_id: ChildrenId,
    depth: u8,
    k: int,
    b: Search,
) -> bool
    decreases depth, 2int, k,
{
    if k <= 0 {
        b == a
    } else if k > 4 {
        false
    } else {
        exists|mid: Search|
            {
                &&& #[trigger] is_search(mid)
                &&& docks_tried(a, map, factory_id, start_pos, children_id, depth, k - 1, mid)
                &&& if start_pos.can_shift(DOCKS[k - 1].0 as int, DOCKS[k - 1].1 as int) {
                    connectors_tried(
                        mid,
                        map,
                        factory_id,
                        start_pos.shifted(DOCKS[k - 1].0 as int, DOCKS[k - 1].1 as int),
                        children_id,
                        depth,
                        20,
                        b,
                    )
                } else {
                    b == mid
                }
            }
    }
}

/// What trying the first `k` placements of a connector with an input on
/// `dock` makes of a search. A placement whose coordinates cannot be held
/// is passed over. The others are tried in order, see `node_tried`, and
/// the best is the better of the best so far and what was found.
#[verifier::opaque]
pub open spec fn connectors_tried(
    a: Search,
    map: DistanceMap,
    factory_id: Id,
    dock: Pos,
    children_id: ChildrenId,
    depth: u8,
    k: int,
    b: Search,
) -> bool
    decreases depth, 1int, k,
{
    if k <= 0 {
        b == a
    } else if k > 20 {
        false
    } else {
        exists|mid: Search, r: Option<(NodeId, PathStats)>|
            #![trigger is_search(mid), is_result(r)]
            {
                &&& is_search(mid)
                &&& is_result(r)
                &&& connectors_tried(a, map, factory_id, dock, children_id, depth, k - 1, mid)
                &&& if dock.can_shift(
                    CONNECTOR_PLACEMENTS[k - 1].2 as int,
                    CONNECTOR_PLACEMENTS[k - 1].3 as int,
                ) && dock.can_shift(
                    CONNECTOR_PLACEMENTS[k - 1].4 as int,
                    CONNECTOR_PLACEMENTS[k - 1].5 as int,
                ) {
                    &&& node_tried(
                        mid.sim,
                        mid.tree,
                        mid.len,
                        map,
                        factory_id,
                        children_id,
                        depth,
                        connector_at(dock, k - 1),
                        dock,
                        dock.shifted(
                            CONNECTOR_PLACEMENTS[k - 1].4 as int,
                            CONNECTOR_PLACEMENTS[k - 1].5 as int,
                        ),
                        b.sim,
                        b.tree,
                        b.len,
                        r,
                    )
                    &&& b.best == better_of(mid.best, r)
                } else {
                    b == mid
                }
            }
    }
}

/// What trying the first `k` placements of a mine with its input on `rim`
/// makes of a search; see `connectors_tried`.
#[verifier::opaque]
pub open spec fn mines_tried(
    a: Search,
    map: DistanceMap,
    factory_id: Id,
    rim: Pos,
    children_id: ChildrenId,
    depth: u8,
    k: int,
    b: Search,
) -> bool
    decreases k,
{
    if k <= 0 {
        b == a
    } else if k > 4 {
        false
    } else {
        exists|mid: Search, r: Option<(NodeId, PathStats)>|
            #![trigger is_search(mid), is_result(r)]
            {
                &&& is_search(mid)
                &&& is_result(r)
                &&& mines_tried(a, map, factory_id, rim, children_id, depth, k - 1, mid)
                &&& if rim.can_shift(MINE_PLACEMENTS[k - 1].0 as int, MINE_PLACEMENTS[k - 1].1 as int)
                    && rim.can_shift(
                    MINE_PLACEMENTS[k - 1].2 as int,
                    MINE_PLACEMENTS[k - 1].3 as int,
                ) {
                    &&& node_tried(
                        mid.sim,
                        mid.tree,
                        mid.len,
                        map,
                        factory_id,
                        children_id,
                        depth,
                        ConnectionBuilding::Mine(
                            Mine {
                                pos: rim.shifted(
                                    MINE_PLACEMENTS[k - 1].0 as int,
                                    MINE_PLACEMENTS[k - 1].1 as int,
                                ),
                                rotation: rotation_of(k - 1),
                            },
                        ),
                        rim,
                        rim.shifted(
                            MINE_PLACEMENTS[k - 1].2 as int,
                            MINE_PLACEMENTS[k - 1].3 as int,
                        ),
                        b.sim,
                        b.tree,
                        b.len,
                        r,
                    )
                    &&& b.best == better_of(mid.best, r)
                } else {
                    b == mid
                }
            }
    }
}

/// Before any placement is tried the search is where it was.
pub proof fn lemma_connectors_none(
    a: Search,
    map: DistanceMap,
    factory_id: Id,
    dock: Pos,
    children_id: ChildrenId,
    depth: u8,
)
    ensures
        connectors_tried(a, map, factory_id, dock, children_id, depth, 0, a),
        mines_tried(a, map, factory_id, dock, children_id, depth, 0, a),
        docks_tried(a, map, factory_id, dock, children_id, depth, 0, a),
{
    reveal(connectors_tried);
    reveal(mines_tried);
    reveal(docks_tried);
}

/// One more placement of a connector that is tried.
pub proof fn lemma_connectors_more(
    a: Search,
    map: DistanceMap,
    factory_id: Id,
    dock: Pos,
    children_id: ChildrenId,
    depth: u8,
    k: int,
    mid: Search,
    r: Option<(NodeId, PathStats)>,
    b: Search,
)
    requires
        1 <= k <= 20,
        connectors_tried(a, map, factory_id, dock, children_id, depth, k - 1, mid),
        dock.can_shift(CONNECTOR_PLACEMENTS[k - 1].2 as int, CONNECTOR_PLACEMENTS[k - 1].3 as int),
        dock.can_shift(CONNECTOR_PLACEMENTS[k - 1].4 as int, CONNECTOR_PLACEMENTS[k - 1].5 as int),
        node_tried(
            mid.sim,
            mid.tree,
            mid.len,
            map,
            factory_id,
            children_id,
            depth,
            connector_at(dock, k - 1),
            dock,
            dock.shifted(
                CONNECTOR_PLACEMENTS[k - 1].4 as int,
                CONNECTOR_PLACEMENTS[k - 1].5 as int,
            ),
            b.sim,
            b.tree,
            b.len,
            r,
        ),
        b.best == better_of(mid.best, r),
    ensures
        connectors_tried(a, map, factory_id, dock, children_id, depth, k, b),
{
    reveal(connectors_tried);
    reveal(node_tried);
    assert(is_search(mid));
    assert(is_result(r));
}

/// One more placement of a connector that is passed over.
pub proof fn lemma_connectors_skip(
    a: Search,
    map: DistanceMap,
    factory_id: Id,
    dock: Pos,
    children_id: ChildrenId,
    depth: u8,
    k: int,
    mid: Search,
)
    requires
        1 <= k <= 20,
        connectors_tried(a, map, factory_id, dock, children_id, depth, k - 1, mid),
        !(dock.can_shift(CONNECTOR_PLACEMENTS[k - 1].2 as int, CONNECTOR_PLACEMENTS[k - 1].3 as int)
            && dock.can_shift(
            CONNECTOR_PLACEMENTS[k - 1].4 as int,
            CONNECTOR_PLACEMENTS[k - 1].5 as int,
        )),
    ensures
        connectors_tried(a, map, factory_id, dock, children_id, depth, k, mid),
{
    reveal(connectors_tried);
    assert(is_search(mid));
    assert(is_result(None));
}

/// One more placement of a mine that is tried.
pub proof fn lemma_mines_more(
    a: Search,
    map: DistanceMap,
    factory_id: Id,
    rim: Pos,
    children_id: ChildrenId,
    depth: u8,
    k: int,
    mid: Search,
    r: Option<(NodeId, PathStats)>,
    b: Search,
)
    requires
        1 <= k <= 4,
        mines_tried(a, map, factory_id, rim, children_id, depth, k - 1, mid),
        rim.can_shift(MINE_PLACEMENTS[k - 1].0 as int, MINE_PLACEMENTS[k - 1].1 as int),
        rim.can_shift(MINE_PLACEMENTS[k - 1].2 as int, MINE_PLACEMENTS[k - 1].3 as int),
        node_tried(
            mid.sim,
            mid.tree,
            mid.len,
            map,
            factory_id,
            children_id,
            depth,
            ConnectionBuilding::Mine(
                Mine {
                    pos: rim.shifted(
                        MINE_PLACEMENTS[k - 1].0 as int,
                        MINE_PLACEMENTS[k - 1].1 as int,
                    ),
                    rotation: rotation_of(k - 1),
                },
            ),
            rim,
            rim.shifted(MINE_PLACEMENTS[k - 1].2 as int, MINE_PLACEMENTS[k - 1].3 as int),
            b.sim,
            b.tree,
            b.len,
            r,
        ),
        b.best == better_of(mid.best, r),
    ensures
        mines_tried(a, map, factory_id, rim, children_id, depth, k, b),
{
    reveal(mines_tried);
    reveal(node_tried);
    assert(is_search(mid));
    assert(is_result(r));
}

/// One more placement of a mine that is passed over.
pub proof fn lemma_mines_skip(
    a: Search,
    map: DistanceMap,
    factory_id: Id,
    rim: Pos,
    children_id: ChildrenId,
    depth: u8,
    k: int,
    mid: Search,
)
    requires
        1 <= k <= 4,
        mines_tried(a, map, factory_id, rim, children_id, depth, k - 1, mid),
        !(rim.can_shift(MINE_PLACEMENTS[k - 1].0 as int, MINE_PLACEMENTS[k - 1].1 as int)
            && rim.can_shift(MINE_PLACEMENTS[k - 1].2 as int, MINE_PLACEMENTS[k - 1].3 as int)),
    ensures
        mines_tried(a, map, factory_id, rim, children_id, depth, k, mid),
{
    reveal(mines_tried);
    assert(is_search(mid));
    assert(is_result(None));
}

/// One more dock at which connectors are tried.
pub proof fn lemma_docks_more(
    a: Search,
    map: DistanceMap,
    factory_id: Id,
    start_pos: Pos,
    children_id: ChildrenId,
    depth: u8,
    k: int,
    mid: Search,
    b: Search,
)
    requires
        1 <= k <= 4,
        docks_tried(a, map, factory_id, start_pos, children_id, depth, k - 1, mid),
        if start_pos.can_shift(DOCKS[k - 1].0 as int, DOCKS[k - 1].1 as int) {
            connectors_tried(
                mid,
                map,
                factory_id,
                start_pos.shifted(DOCKS[k - 1].0 as int, DOCKS[k - 1].1 as int),
                children_id,
                depth,
                20,
                b,
            )
        } else {
            b == mid
        },
    ensures
        docks_tried(a, map, factory_id, start_pos, children_id, depth, k, b),
{
    reveal(docks_tried);
    reveal(connectors_tried);
    assert(is_search(mid));
}

/// A node that is not tried, or whose building cannot be placed.
pub proof fn lemma_node_none(
    sim0: Sim,
    tree0: ConnectionTree,
    len0: u16,
    map: DistanceMap,
    factory_id: Id,
    children_id: ChildrenId,
    depth: u8,
    building: ConnectionBuilding,
    start_pos: Pos,
    end_pos: Pos,
    sim1: Sim,
    tree1: ConnectionTree,
    len1: u16,
)
    requires
        depth > 0,
        map.reach(end_pos) is None || cannot_place(sim0, building.spec_to_building()),
        unchanged(sim0, tree0, len0, sim1, tree1, len1),
    ensures
        node_tried(
            sim0,
            tree0,
            len0,
            map,
            factory_id,
            children_id,
            depth,
            building,
            start_pos,
            end_pos,
            sim1,
            tree1,
            len1,
            None,
        ),
{
    reveal(node_tried);
}

/// A node whose building was placed, searched from and removed again.
pub proof fn lemma_node_some(
    sim0: Sim,
    tree0: ConnectionTree,
    len0: u16,
    map: DistanceMap,
    factory_id: Id,
    children_id: ChildrenId,
    depth: u8,
    building: ConnectionBuilding,
    start_pos: Pos,
    end_pos: Pos,
    with: Sim,
    found: Search,
    state: State,
    stats: Option<(NodeId, PathStats)>,
    id: Id,
    sim1: Sim,
    tree1: ConnectionTree,
    len1: u16,
)
    requires
        depth > 0,
        map.reach(end_pos) is Some,
        placed_at(sim0, building.spec_to_building(), id, with),
        children_searched(
            with,
            tree0,
            map,
            factory_id,
            id,
            NodeId((children_id.0 + len0) as u32),
            end_pos,
            map.reach(end_pos)->0,
            (depth - 1) as u8,
            found.sim,
            found.tree,
            state,
            stats,
        ),
        removed_from(found.sim, id, sim1),
        tree1.nodes@ == found.tree.nodes@.update(
            (children_id.0 + len0) as u32 as int,
            ConnectionTreeNode { building, start_pos, end_pos, state },
        ),
        len1 == len0 + 1,
    ensures
        node_tried(
            sim0,
            tree0,
            len0,
            map,
            factory_id,
            children_id,
            depth,
            building,
            start_pos,
            end_pos,
            sim1,
            tree1,
            len1,
            renamed(stats, NodeId((children_id.0 + len0) as u32)),
        ),
{
    reveal(node_tried);
    reveal(children_searched);
    assert(is_found(with, found, state, stats, id));
}

/// A search that ends where it starts: connected, merged or stopped.
pub proof fn lemma_children_plain(
    sim0: Sim,
    tree0: ConnectionTree,
    map: DistanceMap,
    factory_id: Id,
    connector_id: Id,
    parent_id: NodeId,
    start_pos: Pos,
    start_dist: u16,
    depth: u8,
    state: State,
    stats: Option<(NodeId, PathStats)>,
)
    requires
        ({
            let found = spec_find_around(
                sim0,
                map,
                factory_id,
                parent_id,
                connector_id,
                start_pos,
                depth,
            );
            if start_dist == 0 {
                state == State::Connected && stats == Some(
                    (parent_id, PathStats { dist: 0, depth }),
                )
            } else if found is Some {
                Some((state, stats)) == found
            } else {
                (depth == 0 || !tree0.can_reserve(MAX_CHILDREN_LEN)) && state == State::Stopped
                    && stats == Some((parent_id, PathStats { dist: start_dist, depth }))
            }
        }),
    ensures
        children_searched(
            sim0,
            tree0,
            map,
            factory_id,
            connector_id,
            parent_id,
            start_pos,
            start_dist,
            depth,
            sim0,
            tree0,
            state,
            stats,
        ),
{
    reveal(children_searched);
}

/// A search that has tried connectors at the four docks.
pub proof fn lemma_children_some(
    sim0: Sim,
    tree0: ConnectionTree,
    map: DistanceMap,
    factory_id: Id,
    connector_id: Id,
    parent_id: NodeId,
    start_pos: Pos,
    start_dist: u16,
    depth: u8,
    first: Search,
    last: Search,
)
    requires
        start_dist != 0,
        spec_find_around(sim0, map, factory_id, parent_id, connector_id, start_pos, depth) is None,
        depth > 0,
        tree0.can_reserve(MAX_CHILDREN_LEN),
        first.sim == sim0,
        first.tree.nodes@ == tree0.nodes@ + Seq::new(
            MAX_CHILDREN_LEN as nat,
            |i: int| ConnectionTreeNode::spec_uninitialized(),
        ),
        first.len == 0,
        first.best is None,
        docks_tried(
            first,
            map,
            factory_id,
            start_pos,
            ChildrenId(tree0.nodes@.len() as u32),
            depth,
            4,
            last,
        ),
    ensures
        children_searched(
            sim0,
            tree0,
            map,
            factory_id,
            connector_id,
            parent_id,
            start_pos,
            start_dist,
            depth,
            last.sim,
            last.tree,
            State::Children { start: ChildrenId(tree0.nodes@.len() as u32), len: last.len },
            last.best,
        ),
{
    reveal(children_searched);
    reveal(docks_tried);
    assert(is_search(first));
    assert(is_search(last));
}

/// Marks the number of children looked at.
pub open spec fn is_count(n: int) -> bool {
    true
}

/// Marks a scene with a building placed on it under an identifier.
pub open spec fn is_placed(with: Sim, id: Id) -> bool {
    true
}

/// The stats of a find, if there is one.
pub open spec fn merge_stats(found: Option<(State, Option<(NodeId, PathStats)>)>) -> Option<
    (NodeId, PathStats),
> {
    match found {
        Some((_, stats)) => stats,
        None => None,
    }
}

/// Child `i` of the run of slots from `children_id` on.
pub open spec fn child_id(children_id: ChildrenId, i: int) -> NodeId {
    NodeId((children_id.0 + i) as u32)
}

/// What `continue_subtree` makes of the scene and the tree, and what it
/// returns.
///
/// The children are looked at in order; see `children_seen`. If all of
/// them are looked at, the result is the best that was found. The search
/// ends before that at a child that is connected, with that child as the
/// result, and at a child whose building cannot be placed, with nothing;
/// see `child_ends`.
#[verifier::opaque]
pub open spec fn subtree_searched(
    sim0: Sim,
    tree0: ConnectionTree,
    map: DistanceMap,
    factory_id: Id,
    children_id: ChildrenId,
    len: u16,
    depth: u8,
    sim1: Sim,
    tree1: ConnectionTree,
    r: Option<(NodeId, PathStats)>,
) -> bool
    decreases depth, 2int, 0int,
{
    exists|n: int, at: Search|
        #![trigger is_count(n), is_search(at)]
        {
            &&& is_count(n)
            &&& is_search(at)
            &&& 0 <= n <= len
            &&& children_seen(sim0, tree0, map, factory_id, children_id, depth, n, at)
            &&& if n == len {
                sim1 == at.sim && tree1.nodes@ == at.tree.nodes@ && r == at.best
            } else {
                child_ends(at, map, children_id, depth, n, sim1, tree1, r)
            }
        }
}

/// The first `n` children were looked at, one after the other, and the
/// search stands at `at`.
#[verifier::opaque]
pub open spec fn children_seen(
    sim0: Sim,
    tree0: ConnectionTree,
    map: DistanceMap,
    factory_id: Id,
    children_id: ChildrenId,
    depth: u8,
    n: int,
    at: Search,
) -> bool
    decreases depth, 1int, n,
{
    if n <= 0 {
        at.sim == sim0 && at.tree.nodes@ == tree0.nodes@ && at.best is None
    } else {
        exists|mid: Search|
            {
                &&& #[trigger] is_search(mid)
                &&& children_seen(sim0, tree0, map, factory_id, children_id, depth, n - 1, mid)
                &&& child_seen(mid, map, factory_id, children_id, depth, n - 1, at)
            }
    }
}

/// What looking at child `i` makes of a search that goes on after it.
///
/// The building of a merged child is placed, the connections around its
/// output are followed again, and the building is removed. The building of
/// a stopped child is placed, the search goes on from its output with one
/// level less, the building is removed and the child gets the state that
/// the search gave. The building of an expanded child is placed, its
/// children are looked at in the same way with one level less, and the
/// building is removed. In each case the best is the better of the best so
/// far and what was found, under the name of the child. A stopped or
/// expanded child is passed over if no depth is left, and a stopped child
/// also if no way leads from its output to the factory.
#[verifier::opaque]
pub open spec fn child_seen(
    a: Search,
    map: DistanceMap,
    factory_id: Id,
    children_id: ChildrenId,
    depth: u8,
    i: int,
    b: Search,
) -> bool
    decreases depth, 0int, 0int,
{
    let node_id = child_id(children_id, i);
    let node = a.tree.nodes@[node_id.0 as int];
    let building = node.building.spec_to_building();
    match node.state {
        State::Connected => false,
        State::Merged => exists|with: Sim, id: Id|
            {
                &&& #[trigger] is_placed(with, id)
                &&& placed_at(a.sim, building, id, with)
                &&& removed_from(with, id, b.sim)
                &&& b.tree.nodes@ == a.tree.nodes@
                &&& b.best == better_of(
                    a.best,
                    merge_stats(
                        spec_find_around(with, map, factory_id, node_id, id, node.end_pos, depth),
                    ),
                )
            },
        State::Stopped => if depth > 0 && map.reach(node.end_pos) is Some {
            exists|
                with: Sim,
                found: Search,
                state: State,
                stats: Option<(NodeId, PathStats)>,
                id: Id,
            |
                {
                    &&& #[trigger] is_found(with, found, state, stats, id)
                    &&& placed_at(a.sim, building, id, with)
                    &&& children_searched(
                        with,
                        a.tree,
                        map,
                        factory_id,
                        id,
                        node_id,
                        node.end_pos,
                        map.reach(node.end_pos)->0,
                        (depth - 1) as u8,
                        found.sim,
                        found.tree,
                        state,
                        stats,
                    )
                    &&& removed_from(found.sim, id, b.sim)
                    &&& b.tree.nodes@ == found.tree.nodes@.update(
                        node_id.0 as int,
                        ConnectionTreeNode {
                            building: node.building,
                            start_pos: node.start_pos,
                            end_pos: node.end_pos,
                            state,
                        },
                    )
                    &&& b.best == better_of(a.best, renamed(stats, node_id))
                }
        } else {
            b.sim == a.sim && b.tree.nodes@ == a.tree.nodes@ && b.best == a.best
        },
        State::Children { start, len: below } => if depth > 0 {
            exists|
                with: Sim,
                found: Search,
                state: State,
                stats: Option<(NodeId, PathStats)>,
                id: Id,
            |
                {
                    &&& #[trigger] is_found(with, found, state, stats, id)
                    &&& placed_at(a.sim, building, id, with)
                    &&& subtree_searched(
                        with,
                        a.tree,
                        map,
                        factory_id,
                        start,
                        below,
                        (depth - 1) as u8,
                        found.sim,
                        found.tree,
                        stats,
                    )
                    &&& removed_from(found.sim, id, b.sim)
                    &&& b.tree.nodes@ == found.tree.nodes@
                    &&& b.best == better_of(a.best, renamed(stats, node_id))
                }
        } else {
            b.sim == a.sim && b.tree.nodes@ == a.tree.nodes@ && b.best == a.best
        },
    }
}

/// The search ends at child `i`: the child is connected and is the
/// result, or its building cannot be placed and the result is nothing.
/// Nothing changes.
#[verifier::opaque]
pub open spec fn child_ends(
    a: Search,
    map: DistanceMap,
    children_id: ChildrenId,
    depth: u8,
    i: int,
    sim1: Sim,
    tree1: ConnectionTree,
    r: Option<(NodeId, PathStats)>,
) -> bool {
    let node_id = child_id(children_id, i);
    let node = a.tree.nodes@[node_id.0 as int];
    let building = node.building.spec_to_building();
    &&& sim1.same_as(a.sim)
    &&& tree1.nodes@ == a.tree.nodes@
    &&& match node.state {
        State::Connected => r == Some((node_id, PathStats { dist: 0, depth })),
        State::Merged => cannot_place(a.sim, building) && r is None,
        State::Stopped => depth > 0 && map.reach(node.end_pos) is Some && cannot_place(
            a.sim,
            building,
        ) && r is None,
        State::Children { start, len } => depth > 0 && cannot_place(a.sim, building) && r is None,
    }
}

/// Before any child is looked at the search is where it was.
pub proof fn lemma_seen_none(
    sim0: Sim,
    tree0: ConnectionTree,
    map: DistanceMap,
    factory_id: Id,
    children_id: ChildrenId,
    depth: u8,
    at: Search,
)
    requires
        at.sim == sim0,
        at.tree.nodes@ == tree0.nodes@,
        at.best is None,
    ensures
        children_seen(sim0, tree0, map, factory_id, children_id, depth, 0, at),
{
    reveal(children_seen);
}

/// One more child that was looked at.
pub proof fn lemma_seen_more(
    sim0: Sim,
    tree0: ConnectionTree,
    map: DistanceMap,
    factory_id: Id,
    children_id: ChildrenId,
    depth: u8,
    n: int,
    mid: Search,
    at: Search,
)
    requires
        n >= 1,
        children_seen(sim0, tree0, map, factory_id, children_id, depth, n - 1, mid),
        child_seen(mid, map, factory_id, children_id, depth, n - 1, at),
    ensures
        children_seen(sim0, tree0, map, factory_id, children_id, depth, n, at),
{
    reveal(children_seen);
    reveal(child_seen);
    assert(is_search(mid));
}

/// A search of a subtree that has looked at `n` children and ends there,
/// or has looked at all.
pub proof fn lemma_subtree(
    sim0: Sim,
    tree0: ConnectionTree,
    map: DistanceMap,
    factory_id: Id,
    children_id: ChildrenId,
    len: u16,
    depth: u8,
    n: int,
    at: Search,
    sim1: Sim,
    tree1: ConnectionTree,
    r: Option<(NodeId, PathStats)>,
)
    requires
        0 <= n <= len,
        children_seen(sim0, tree0, map, factory_id, children_id, depth, n, at),
        if n == len {
            sim1 == at.sim && tree1.nodes@ == at.tree.nodes@ && r == at.best
        } else {
            child_ends(at, map, children_id, depth, n, sim1, tree1, r)
        },
    ensures
        subtree_searched(
            sim0,
            tree0,
            map,
            factory_id,
            children_id,
            len,
            depth,
            sim1,
            tree1,
            r,
        ),
{
    reveal(subtree_searched);
    reveal(children_seen);
    assert(is_count(n));
    assert(is_search(at));
}

/// A child that is passed over.
pub proof fn lemma_child_passed(
    a: Search,
    map: DistanceMap,
    factory_id: Id,
    children_id: ChildrenId,
    depth: u8,
    i: int,
    b: Search,
)
    requires
        ({
            let node = a.tree.nodes@[child_id(children_id, i).0 as int];
            match node.state {
                State::Stopped => !(depth > 0 && map.reach(node.end_pos) is Some),
                State::Children { start, len } => depth == 0,
                _ => false,
            }
        }),
        b.sim == a.sim,
        b.tree.nodes@ == a.tree.nodes@,
        b.best == a.best,
    ensures
        child_seen(a, map, factory_id, children_id, depth, i, b),
{
    reveal(child_seen);
}

/// A merged child that was looked at again.
pub proof fn lemma_child_merged(
    a: Search,
    map: DistanceMap,
    factory_id: Id,
    children_id: ChildrenId,
    depth: u8,
    i: int,
    with: Sim,
    id: Id,
    b: Search,
)
    requires
        a.tree.nodes@[child_id(children_id, i).0 as int].state == State::Merged,
        placed_at(
            a.sim,
            a.tree.nodes@[child_id(children_id, i).0 as int].building.spec_to_building(),
            id,
            with,
        ),
        removed_from(with, id, b.sim),
        b.tree.nodes@ == a.tree.nodes@,
        b.best == better_of(
            a.best,
            merge_stats(
                spec_find_around(
                    with,
                    map,
                    factory_id,
                    child_id(children_id, i),
                    id,
                    a.tree.nodes@[child_id(children_id, i).0 as int].end_pos,
                    depth,
                ),
            ),
        ),
    ensures
        child_seen(a, map, factory_id, children_id, depth, i, b),
{
    reveal(child_seen);
    assert(is_placed(with, id));
}

/// A stopped child that was expanded.
pub proof fn lemma_child_stopped(
    a: Search,
    map: DistanceMap,
    factory_id: Id,
    children_id: ChildrenId,
    depth: u8,
    i: int,
    with: Sim,
    found: Search,
    state: State,
    stats: Option<(NodeId, PathStats)>,
    id: Id,
    b: Search,
)
    requires
        ({
            let node_id = child_id(children_id, i);
            let node = a.tree.nodes@[node_id.0 as int];
            &&& node.state == State::Stopped
            &&& depth > 0
            &&& map.reach(node.end_pos) is Some
            &&& placed_at(a.sim, node.building.spec_to_building(), id, with)
            &&& children_searched(
                with,
                a.tree,
                map,
                factory_id,
                id,
                node_id,
                node.end_pos,
                map.reach(node.end_pos)->0,
                (depth - 1) as u8,
                found.sim,
                found.tree,
                state,
                stats,
            )
            &&& removed_from(found.sim, id, b.sim)
            &&& b.tree.nodes@ == found.tree.nodes@.update(
                node_id.0 as int,
                ConnectionTreeNode {
                    building: node.building,
                    start_pos: node.start_pos,
                    end_pos: node.end_pos,
                    state,
                },
            )
            &&& b.best == better_of(a.best, renamed(stats, node_id))
        }),
    ensures
        child_seen(a, map, factory_id, children_id, depth, i, b),
{
    reveal(child_seen);
    reveal(children_searched);
    assert(is_found(with, found, state, stats, id));
}

/// An expanded child whose children were looked at.
pub proof fn lemma_child_expanded(
    a: Search,
    map: DistanceMap,
    factory_id: Id,
    children_id: ChildrenId,
    depth: u8,
    i: int,
    with: Sim,
    found: Search,
    stats: Option<(NodeId, PathStats)>,
    id: Id,
    b: Search,
)
    requires
        ({
            let node_id = child_id(children_id, i);
            let node = a.tree.nodes@[node_id.0 as int];
            &&& node.state matches State::Children { start, len: below }
            &&& depth > 0
            &&& placed_at(a.sim, node.building.spec_to_building(), id, with)
            &&& subtree_searched(
                with,
                a.tree,
                map,
                factory_id,
                node.state->start,
                node.state->len,
                (depth - 1) as u8,
                found.sim,
                found.tree,
                stats,
            )
            &&& removed_from(found.sim, id, b.sim)
            &&& b.tree.nodes@ == found.tree.nodes@
            &&& b.best == better_of(a.best, renamed(stats, node_id))
        }),
    ensures
        child_seen(a, map, factory_id, children_id, depth, i, b),
{
    reveal(child_seen);
    reveal(subtree_searched);
    assert(is_found(with, found, State::Stopped, stats, id));
}

/// A child at which the search ends.
pub proof fn lemma_child_ends(
    a: Search,
    map: DistanceMap,
    children_id: ChildrenId,
    depth: u8,
    i: int,
    sim1: Sim,
    tree1: ConnectionTree,
    r: Option<(NodeId, PathStats)>,
)
    requires
        sim1.same_as(a.sim),
        tree1.nodes@ == a.tree.nodes@,
        ({
            let node_id = child_id(children_id, i);
            let node = a.tree.nodes@[node_id.0 as int];
            let building = node.building.spec_to_building();
            match node.state {
                State::Connected => r == Some((node_id, PathStats { dist: 0, depth })),
                State::Merged => cannot_place(a.sim, building) && r is None,
                State::Stopped => depth > 0 && map.reach(node.end_pos) is Some && cannot_place(
                    a.sim,
                    building,
                ) && r is None,
                State::Children { start, len } => depth > 0 && cannot_place(a.sim, building)
                    && r is None,
            }
        }),
    ensures
        child_ends(a, map, children_id, depth, i, sim1, tree1, r),
{
    reveal(child_ends);
}

/// The number of cells beside a deposit.
pub open spec fn rim_len(deposit: Deposit) -> int {
    2 * deposit.width + 2 * deposit.height
}

/// What trying mines on the first `j` cells beside `deposit` makes of a
/// search.
///
/// The cells are taken in the order of `spec_rim_cell`. On a cell from
/// which a way leads to the factory the four placements of a mine are
/// tried; see `mines_tried`. The best is the better of the best so far and
/// what the mines on the cell found. Other cells are passed over.
#[verifier::opaque]
pub open spec fn rim_tried(
    a: Search,
    map: DistanceMap,
    factory_id: Id,
    deposit: Deposit,
    children_id: ChildrenId,
    depth: u8,
    j: int,
    b: Search,
) -> bool
    decreases j,
{
    if j <= 0 {
        b == a
    } else {
        exists|mid: Search, r: Option<(NodeId, PathStats)>|
            #![trigger is_search(mid), is_result(r)]
            {
                &&& is_search(mid)
                &&& is_result(r)
                &&& rim_tried(a, map, factory_id, deposit, children_id, depth, j - 1, mid)
                &&& rim_step(mid, map, factory_id, deposit, children_id, depth, j - 1, r, b)
            }
    }
}

/// What trying mines on cell `j` beside `deposit` makes of a search, where
/// `r` is what the mines found.
pub open spec fn rim_step(
    mid: Search,
    map: DistanceMap,
    factory_id: Id,
    deposit: Deposit,
    children_id: ChildrenId,
    depth: u8,
    j: int,
    r: Option<(NodeId, PathStats)>,
    b: Search,
) -> bool {
    let cell = spec_rim_cell(deposit.pos, deposit.width as int, deposit.height as int, j);
    if cell is Some && map.reach(cell->0) is Some {
        &&& mines_tried(
            Search { sim: mid.sim, tree: mid.tree, len: mid.len, best: None },
            map,
            factory_id,
            cell->0,
            children_id,
            depth,
            4,
            Search { sim: b.sim, tree: b.tree, len: b.len, best: r },
        )
        &&& b.best == better_of(mid.best, r)
    } else {
        b == mid
    }
}

/// The name of the node that a search holds as its best.
pub open spec fn best_id(a: Search) -> NodeId {
    match a.best {
        Some((id, _)) => id,
        None => NodeId(0),
    }
}

/// The node that a search holds as its best, as it stands in the tree.
pub open spec fn best_node(a: Search) -> ConnectionTreeNode {
    a.tree.nodes@[best_id(a).0 as int]
}

/// What committing the best node makes of a search that goes on after it.
///
/// The building of the node is placed and stays. From a stopped node the
/// search goes on from its output; see `children_searched`. The node gets
/// the state that the search gave, which is neither connected nor merged,
/// and the best is what the search found. The children of an expanded node
/// are looked at again; see `subtree_searched`.
#[verifier::opaque]
pub open spec fn committed(
    a: Search,
    map: DistanceMap,
    factory_id: Id,
    depth: u8,
    b: Search,
) -> bool {
    let node_id = best_id(a);
    let node = best_node(a);
    &&& a.best is Some
    &&& exists|with: Sim, found: Search, state: State, stats: Option<(NodeId, PathStats)>, id: Id|
        {
            &&& #[trigger] is_found(with, found, state, stats, id)
            &&& placed_at(a.sim, node.building.spec_to_building(), id, with)
            &&& match node.state {
                State::Connected => false,
                State::Merged => false,
                State::Stopped => {
                    &&& map.reach(node.end_pos) is Some
                    &&& children_searched(
                        with,
                        a.tree,
                        map,
                        factory_id,
                        id,
                        node_id,
                        node.end_pos,
                        map.reach(node.end_pos)->0,
                        depth,
                        found.sim,
                        found.tree,
                        state,
                        stats,
                    )
                    &&& !(state is Connected)
                    &&& !(state is Merged)
                    &&& b.sim == found.sim
                    &&& b.tree.nodes@ == found.tree.nodes@.update(
                        node_id.0 as int,
                        ConnectionTreeNode {
                            building: node.building,
                            start_pos: node.start_pos,
                            end_pos: node.end_pos,
                            state,
                        },
                    )
                    &&& b.best == stats
                },
                State::Children { start, len } => subtree_searched(
                    with,
                    a.tree,
                    map,
                    factory_id,
                    start,
                    len,
                    depth,
                    b.sim,
                    b.tree,
                    b.best,
                ),
            }
        }
}

/// After `n` commits, each of which lets the search go on, the search that
/// began at `first` stands at `at`.
#[verifier::opaque]
pub open spec fn commits(
    first: Search,
    map: DistanceMap,
    factory_id: Id,
    depth: u8,
    n: int,
    at: Search,
) -> bool
    decreases n,
{
    if n <= 0 {
        at.sim == first.sim && at.tree.nodes@ == first.tree.nodes@ && at.best == first.best
    } else {
        exists|mid: Search|
            {
                &&& #[trigger] is_search(mid)
                &&& commits(first, map, factory_id, depth, n - 1, mid)
                &&& committed(mid, map, factory_id, depth, at)
            }
    }
}

/// The search for a route ends at `a`.
///
/// It fails if nothing is left to commit, if the building of the best node
/// cannot be placed, or if no way leads from the output of a stopped node
/// to the factory. It succeeds if the node that is committed is connected
/// or merged, or is a stopped node from whose output the search finds that
/// it is connected or merged; that node gets the state that was found.
#[verifier::opaque]
pub open spec fn route_ends(
    a: Search,
    map: DistanceMap,
    factory_id: Id,
    depth: u8,
    sim1: Sim,
    tree1: ConnectionTree,
    ok: bool,
) -> bool {
    let node_id = best_id(a);
    let node = best_node(a);
    if a.best is None {
        !ok && sim1 == a.sim && tree1.nodes@ == a.tree.nodes@
    } else {
        ||| {
            &&& cannot_place(a.sim, node.building.spec_to_building())
            &&& !ok
            &&& sim1.same_as(a.sim)
            &&& tree1.nodes@ == a.tree.nodes@
        }
        ||| exists|
            with: Sim,
            found: Search,
            state: State,
            stats: Option<(NodeId, PathStats)>,
            id: Id,
        |
            {
                &&& #[trigger] is_found(with, found, state, stats, id)
                &&& placed_at(a.sim, node.building.spec_to_building(), id, with)
                &&& match node.state {
                    State::Connected => ok && sim1 == with && tree1.nodes@ == a.tree.nodes@,
                    State::Merged => ok && sim1 == with && tree1.nodes@ == a.tree.nodes@,
                    State::Stopped => if map.reach(node.end_pos) is None {
                        !ok && sim1 == with && tree1.nodes@ == a.tree.nodes@
                    } else {
                        &&& children_searched(
                            with,
                            a.tree,
                            map,
                            factory_id,
                            id,
                            node_id,
                            node.end_pos,
                            map.reach(node.end_pos)->0,
                            depth,
                            found.sim,
                            found.tree,
                            state,
                            stats,
                        )
                        &&& (state is Connected || state is Merged)
                        &&& ok
                        &&& sim1 == found.sim
                        &&& tree1.nodes@ == found.tree.nodes@.update(
                            node_id.0 as int,
                            ConnectionTreeNode {
                                building: node.building,
                                start_pos: node.start_pos,
                                end_pos: node.end_pos,
                                state,
                            },
                        )
                    },
                    State::Children { start, len } => false,
                }
            }
    }
}

/// Where the search for a route from `deposit` starts on the scene
/// `sim0`: with a tree of four empty slots for each cell beside the
/// deposit, none of them written, and nothing found.
pub open spec fn route_starts(sim0: Sim, deposit: Deposit, start: Search) -> bool {
    &&& start.sim == sim0
    &&& start.tree.nodes@.len() == 4 * rim_len(deposit)
    &&& forall|i: int|
        0 <= i < start.tree.nodes@.len() ==> #[trigger] start.tree.nodes@[i]
            == ConnectionTreeNode::spec_uninitialized()
    &&& start.len == 0
    &&& start.best is None
}

/// Marks the stations of a search for a route.
pub open spec fn is_route(start: Search, first: Search, n: int, at: Search) -> bool {
    true
}

/// What `route_deposit` makes of the scene and the tree, and whether it
/// succeeds.
///
/// The tree is started afresh with four slots for each cell beside the
/// deposit, and mines are tried on these cells; see `rim_tried`. Then the
/// best node is committed, again and again; see `commits`. The search
/// fails after as many commits as the board has cells; before that it ends
/// as `route_ends` says.
pub open spec fn routed(
    sim0: Sim,
    map: DistanceMap,
    factory_id: Id,
    deposit: Deposit,
    depth: u8,
    sim1: Sim,
    tree1: ConnectionTree,
    ok: bool,
) -> bool {
    exists|start: Search, first: Search, n: int, at: Search|
        {
            &&& #[trigger] is_route(start, first, n, at)
            &&& route_starts(sim0, deposit, start)
            &&& rim_tried(
                start,
                map,
                factory_id,
                deposit,
                ChildrenId(0),
                depth,
                rim_len(deposit),
                first,
            )
            &&& 0 <= n <= sim0.board.width * sim0.board.height
            &&& commits(first, map, factory_id, depth, n, at)
            &&& if n == sim0.board.width * sim0.board.height {
                !ok && sim1 == at.sim && tree1.nodes@ == at.tree.nodes@
            } else {
                route_ends(at, map, factory_id, depth, sim1, tree1, ok)
            }
        }
}

/// Mines tried on one more cell beside the deposit.
pub proof fn lemma_rim_more(
    a: Search,
    map: DistanceMap,
    factory_id: Id,
    deposit: Deposit,
    children_id: ChildrenId,
    depth: u8,
    j: int,
    mid: Search,
    r: Option<(NodeId, PathStats)>,
    b: Search,
)
    requires
        j >= 1,
        rim_tried(a, map, factory_id, deposit, children_id, depth, j - 1, mid),
        rim_step(mid, map, factory_id, deposit, children_id, depth, j - 1, r, b),
    ensures
        rim_tried(a, map, factory_id, deposit, children_id, depth, j, b),
{
    reveal(rim_tried);
    assert(is_search(mid) && is_result(r));
}

/// Before any cell beside the deposit is tried the search is where it was.
pub proof fn lemma_rim_none(
    a: Search,
    map: DistanceMap,
    factory_id: Id,
    deposit: Deposit,
    children_id: ChildrenId,
    depth: u8,
)
    ensures
        rim_tried(a, map, factory_id, deposit, children_id, depth, 0, a),
{
    reveal(rim_tried);
}

/// Before any commit the search is where it was.
pub proof fn lemma_commits_none(
    first: Search,
    map: DistanceMap,
    factory_id: Id,
    depth: u8,
    at: Search,
)
    requires
        at.sim == first.sim,
        at.tree.nodes@ == first.tree.nodes@,
        at.best == first.best,
    ensures
        commits(first, map, factory_id, depth, 0, at),
{
    reveal(commits);
}

/// One more commit.
pub proof fn lemma_commits_more(
    first: Search,
    map: DistanceMap,
    factory_id: Id,
    depth: u8,
    n: int,
    mid: Search,
    at: Search,
)
    requires
        n >= 1,
        commits(first, map, factory_id, depth, n - 1, mid),
        committed(mid, map, factory_id, depth, at),
    ensures
        commits(first, map, factory_id, depth, n, at),
{
    reveal(commits);
    assert(is_search(mid));
}

/// A stopped node that was committed, after which the search goes on.
pub proof fn lemma_committed_stopped(
    a: Search,
    map: DistanceMap,
    factory_id: Id,
    depth: u8,
    with: Sim,
    found: Search,
    state: State,
    stats: Option<(NodeId, PathStats)>,
    id: Id,
    b: Search,
)
    requires
        a.best is Some,
        best_node(a).state == State::Stopped,
        placed_at(a.sim, best_node(a).building.spec_to_building(), id, with),
        map.reach(best_node(a).end_pos) is Some,
        children_searched(
            with,
            a.tree,
            map,
            factory_id,
            id,
            best_id(a),
            best_node(a).end_pos,
            map.reach(best_node(a).end_pos)->0,
            depth,
            found.sim,
            found.tree,
            state,
            stats,
        ),
        !(state is Connected),
        !(state is Merged),
        b.sim == found.sim,
        b.tree.nodes@ == found.tree.nodes@.update(
            best_id(a).0 as int,
            ConnectionTreeNode {
                building: best_node(a).building,
                start_pos: best_node(a).start_pos,
                end_pos: best_node(a).end_pos,
                state,
            },
        ),
        b.best == stats,
    ensures
        committed(a, map, factory_id, depth, b),
{
    reveal(committed);
    assert(is_found(with, found, state, stats, id));
}

/// An expanded node that was committed.
pub proof fn lemma_committed_expanded(
    a: Search,
    map: DistanceMap,
    factory_id: Id,
    depth: u8,
    with: Sim,
    id: Id,
    b: Search,
)
    requires
        a.best is Some,
        best_node(a).state is Children,
        placed_at(a.sim, best_node(a).building.spec_to_building(), id, with),
        subtree_searched(
            with,
            a.tree,
            map,
            factory_id,
            best_node(a).state->start,
            best_node(a).state->len,
            depth,
            b.sim,
            b.tree,
            b.best,
        ),
    ensures
        committed(a, map, factory_id, depth, b),
{
    reveal(committed);
    assert(is_found(with, b, State::Stopped, None, id));
}

/// A search for a route that ends with nothing placed.
pub proof fn lemma_ends_unplaced(
    a: Search,
    map: DistanceMap,
    factory_id: Id,
    depth: u8,
    sim1: Sim,
    tree1: ConnectionTree,
)
    requires
        tree1.nodes@ == a.tree.nodes@,
        if a.best is None {
            sim1 == a.sim
        } else {
            cannot_place(a.sim, best_node(a).building.spec_to_building()) && sim1.same_as(a.sim)
        },
    ensures
        route_ends(a, map, factory_id, depth, sim1, tree1, false),
{
    reveal(route_ends);
}

/// A search for a route that ends with the best node placed.
pub proof fn lemma_ends_placed(
    a: Search,
    map: DistanceMap,
    factory_id: Id,
    depth: u8,
    with: Sim,
    id: Id,
    tree1: ConnectionTree,
    ok: bool,
)
    requires
        a.best is Some,
        placed_at(a.sim, best_node(a).building.spec_to_building(), id, with),
        tree1.nodes@ == a.tree.nodes@,
        match best_node(a).state {
            State::Connected => ok,
            State::Merged => ok,
            State::Stopped => !ok && map.reach(best_node(a).end_pos) is None,
            State::Children { start, len } => false,
        },
    ensures
        route_ends(a, map, factory_id, depth, with, tree1, ok),
{
    reveal(route_ends);
    assert(is_found(with, a, State::Stopped, None, id));
}

/// A search for a route that ends below a stopped node.
pub proof fn lemma_ends_found(
    a: Search,
    map: DistanceMap,
    factory_id: Id,
    depth: u8,
    with: Sim,
    found: Search,
    state: State,
    stats: Option<(NodeId, PathStats)>,
    id: Id,
    tree1: ConnectionTree,
)
    requires
        a.best is Some,
        best_node(a).state == State::Stopped,
        placed_at(a.sim, best_node(a).building.spec_to_building(), id, with),
        map.reach(best_node(a).end_pos) is Some,
        children_searched(
            with,
            a.tree,
            map,
            factory_id,
            id,
            best_id(a),
            best_node(a).end_pos,
            map.reach(best_node(a).end_pos)->0,
            depth,
            found.sim,
            found.tree,
            state,
            stats,
        ),
        state is Connected || state is Merged,
        tree1.nodes@ == found.tree.nodes@.update(
            best_id(a).0 as int,
            ConnectionTreeNode {
                building: best_node(a).building,
                start_pos: best_node(a).start_pos,
                end_pos: best_node(a).end_pos,
                state,
            },
        ),
    ensures
        route_ends(a, map, factory_id, depth, found.sim, tree1, true),
{
    reveal(route_ends);
    assert(is_found(with, found, state, stats, id));
}

/// A search for a route, from its stations.
pub proof fn lemma_routed(
    sim0: Sim,
    map: DistanceMap,
    factory_id: Id,
    deposit: Deposit,
    depth: u8,
    start: Search,
    first: Search,
    n: int,
    at: Search,
    sim1: Sim,
    tree1: ConnectionTree,
    ok: bool,
)
    requires
        route_starts(sim0, deposit, start),
        rim_tried(start, map, factory_id, deposit, ChildrenId(0), depth, rim_len(deposit), first),
        0 <= n <= sim0.board.width * sim0.board.height,
        commits(first, map, factory_id, depth, n, at),
        if n == sim0.board.width * sim0.board.height {
            !ok && sim1 == at.sim && tree1.nodes@ == at.tree.nodes@
        } else {
            route_ends(at, map, factory_id, depth, sim1, tree1, ok)
        },
    ensures
        routed(sim0, map, factory_id, deposit, depth, sim1, tree1, ok),
{
    assert(is_route(start, first, n, at));
}

} // verus!
