use crate::building::{Building, Combiner, Conveyor, Deposit, Factory, Mine};
use crate::distance::{map_distances, DistanceMap};
use crate::flow::{try_run, run_model, SimRun};
use crate::geometry::{CellKind, Id, Pos, Rotation};
use crate::path_stats::PathStats;
use crate::placement::{place_building, placed, remove_building};
use crate::scene::Sim;
use crate::solver_error::Error;
use crate::stats::{FactoryStats, ProductStats};
use crate::tree::{
    increment_id, keep_better, path_contains, path_ids, path_new, path_push, ChildrenId,
    ConnectionBuilding, ConnectionTree, ConnectionTreeNode, NodeId, State,
};
use crate::search::{
    children_searched, connector_at, connectors_tried, docks_tried, lemma_children_plain,
    lemma_children_some, lemma_connectors_more, lemma_connectors_none, lemma_connectors_skip,
    lemma_docks_more, lemma_mines_more, lemma_mines_skip, lemma_node_none, lemma_node_some,
    mines_tried, node_tried, removed_from, rotation_of, Search,
};
use crate::tour::{
    connected, factory_of, lemma_attempt_made, lemma_attempt_none, lemma_connected,
    lemma_round_more, lemma_round_none, lemma_rounds_more, lemma_rounds_none, lemma_toured,
    lemma_tried_on, lemma_tried_out, reset, round_tried, rounds_made, Tour,
};
use crate::search::{
    best_id, best_node, commits, lemma_commits_more, lemma_commits_none, lemma_committed_expanded,
    lemma_committed_stopped, lemma_ends_found, lemma_ends_placed, lemma_ends_unplaced,
    lemma_rim_more, lemma_rim_none, lemma_routed, rim_len, rim_tried, route_starts, routed,
};
use crate::search::{
    child_id, children_seen, lemma_child_ends, lemma_child_expanded, lemma_child_merged,
    lemma_child_passed, lemma_child_stopped, lemma_seen_more, lemma_seen_none, lemma_subtree,
    subtree_searched,
};
use vstd::prelude::*;

verus! {

/// The four ways to put a mine with its input on a given cell: the offset
/// of the anchor from that cell, then the offset of the output. One entry
/// per row of the mine's footprint table.
pub const MINE_PLACEMENTS: [(i8, i8, i8, i8); 4] = [
    (1, -1, 3, 0),
    (0, 1, 0, 3),
    (-2, 0, -3, 0),
    (-1, -2, 0, -3),
];

/// The ways to put a connector with an input on a given cell: the kind (0 a
/// short conveyor, 1 a long conveyor, 2 a combiner), the row of its
/// footprint table, the offset of the anchor from that cell and the offset
/// of the output. A combiner has three inputs and so three entries per row.
pub const CONNECTOR_PLACEMENTS: [(u8, u8, i8, i8, i8, i8); 20] = [
    (0, 0, 1, 0, 2, 0),
    (0, 1, 0, 1, 0, 2),
    (0, 2, -1, 0, -2, 0),
    (0, 3, 0, -1, 0, -2),
    (1, 0, 1, 0, 3, 0),
    (1, 1, 0, 1, 0, 3),
    (1, 2, -2, 0, -3, 0),
    (1, 3, 0, -2, 0, -3),
    (2, 0, 1, 1, 2, 1),
    (2, 0, 1, 0, 2, 0),
    (2, 0, 1, -1, 2, -1),
    (2, 1, 1, 1, 1, 2),
    (2, 1, 0, 1, 0, 2),
    (2, 1, -1, 1, -1, 2),
    (2, 2, -1, 1, -2, 1),
    (2, 2, -1, 0, -2, 0),
    (2, 2, -1, -1, -2, -1),
    (2, 3, 1, -1, 1, -2),
    (2, 3, 0, -1, 0, -2),
    (2, 3, -1, -1, -1, -2),
];

/// The four cells beside an output, where the next connector can dock.
pub const DOCKS: [(i8, i8); 4] = [(-1, 0), (1, 0), (0, 1), (0, -1)];

/// Slots reserved for the children of a connector: four docks with twenty
/// placements each.
pub const MAX_CHILDREN_LEN: u16 = 80;

/// Tries in a row that may fail to improve the outcome.
pub const MAX_NON_IMPROVEMENTS: u32 = 12;

/// What the search works on: a consistent scene, a tree whose runs of
/// children lie within its arena, and a distance map of the scene's size.
pub open spec fn searching(sim: Sim, tree: ConnectionTree, map: DistanceMap) -> bool {
    &&& sim.wf()
    &&& tree.wf()
    &&& map.wf()
    &&& map.width == sim.board.width
    &&& map.height == sim.board.height
}

/// The scene `new` has the products, budgets and board size of `old`.
pub open spec fn carried(old: Sim, new: Sim) -> bool {
    &&& new.products == old.products
    &&& new.turns == old.turns
    &&& new.time == old.time
    &&& new.board.width == old.board.width
    &&& new.board.height == old.board.height
}

/// Every building of `old` is stored in `new` under the same identifier.
pub open spec fn kept(old: crate::building::Buildings, new: crate::building::Buildings) -> bool {
    forall|id: Id| old.live(id) ==> new.live(id) && new.spec_get(id) == old.spec_get(id)
}

/// What is kept twice over is kept.
pub proof fn lemma_kept_twice(
    a: crate::building::Buildings,
    b: crate::building::Buildings,
    c: crate::building::Buildings,
)
    requires
        kept(a, b),
        kept(b, c),
    ensures
        kept(a, c),
{
    assert forall|id: Id| a.live(id) implies c.live(id) && c.spec_get(id) == a.spec_get(id) by {
        assert(b.live(id) && b.spec_get(id) == a.spec_get(id));
    }
}

/// The arena `new` is `old` grown; the slots of `old` may hold other nodes.
pub open spec fn grown(old: ConnectionTree, new: ConnectionTree) -> bool {
    old.nodes@.len() <= new.nodes@.len()
}

/// The node that `stats` names, if any, lies in the arena.
pub open spec fn names_node(stats: Option<(NodeId, PathStats)>, tree: ConnectionTree) -> bool {
    stats matches Some((id, _)) ==> id.0 < tree.nodes@.len()
}

/// A find is a merge: it names `parent_id`, with no more depth left over
/// than there was.
pub open spec fn is_merge(
    r: Option<(State, Option<(NodeId, PathStats)>)>,
    parent_id: NodeId,
    search_depth: u8,
) -> bool {
    match r {
        Some((state, Some((id, s)))) => state == State::Merged && id == parent_id && s.depth
            <= search_depth,
        Some((_, None)) => false,
        None => true,
    }
}

/// The position `(dx, dy)` away from `p`, if its coordinates can be held.
pub fn offset(p: Pos, dx: i8, dy: i8) -> (q: Option<Pos>)
    ensures
        q == if p.can_shift(dx as int, dy as int) {
            Some(p.shifted(dx as int, dy as int))
        } else {
            None
        },
{
    let x = p.x as i16 + dx as i16;
    let y = p.y as i16 + dy as i16;
    if -128 <= x && x <= 127 && -128 <= y && y <= 127 {
        Some(Pos { x: x as i8, y: y as i8 })
    } else {
        None
    }
}

/// `building` cannot be placed on `sim`: the coordinates of its footprint
/// cannot be held, no identifier is free, or the placement fails.
#[verifier::opaque]
pub open spec fn cannot_place(sim: Sim, building: Building) -> bool {
    ||| !building.spec_representable()
    ||| !sim.buildings.has_room()
    ||| exists|e: crate::error::Error, after: Sim| #[trigger]
        placed(sim, building, Err::<Id, crate::error::Error>(e), after)
}

/// The scene `after` is `before` with `building` placed on it.
#[verifier::opaque]
pub open spec fn placed_on(before: Sim, building: Building, after: Sim) -> bool {
    &&& building.spec_representable()
    &&& before.buildings.has_room()
    &&& exists|id: Id| #[trigger] placed(before, building, Ok::<Id, crate::error::Error>(id), after)
}

/// The scene `after` is `before` with `building` placed on it under the
/// identifier `id`.
#[verifier::opaque]
pub open spec fn placed_at(before: Sim, building: Building, id: Id, after: Sim) -> bool {
    &&& building.spec_representable()
    &&& before.buildings.has_room()
    &&& placed(before, building, Ok::<Id, crate::error::Error>(id), after)
}

/// Places `building` if that can be done; otherwise the scene stays as it
/// was. It cannot be done if the coordinates of the footprint cannot be
/// held, if no identifier is free, or if the placement fails.
pub fn try_place(sim: &mut Sim, building: Building) -> (r: Option<Id>)
    requires
        old(sim).wf(),
    ensures
        final(sim).wf(),
        carried(*old(sim), *final(sim)),
        match r {
            Some(id) => {
                &&& building.spec_representable()
                &&& old(sim).buildings.has_room()
                &&& placed(*old(sim), building, Ok::<Id, crate::error::Error>(id), *final(sim))
                &&& !old(sim).buildings.live(id)
                &&& final(sim).buildings.live(id)
                &&& final(sim).buildings.spec_get(id) == building
                &&& final(sim).buildings.values@ == crate::placement::stored(
                    old(sim).buildings.values@,
                    id,
                    building,
                )
                &&& placed_on(*old(sim), building, *final(sim))
                &&& placed_at(*old(sim), building, id, *final(sim))
            },
            None => final(sim).same_as(*old(sim)) && cannot_place(*old(sim), building),
        },
{
    proof {
        reveal(cannot_place);
        reveal(placed_on);
        reveal(placed_at);
    }
    if !building.representable() {
        return None;
    }
    if sim.buildings.next_slot() >= 0x1_0000 {
        return None;
    }
    match place_building(sim, building) {
        Ok(id) => Some(id),
        Err(_) => None,
    }
}

/// The first cell of the footprint of `building` from cell `from` on that
/// is an output.
pub open spec fn first_output(building: Building, from: int) -> Option<Pos>
    decreases building.spec_cell_count() - from,
{
    if from < 0 || from >= building.spec_cell_count() {
        None
    } else if building.spec_cell_kind(from) == CellKind::Output {
        Some(building.spec_cell_pos(from))
    } else {
        first_output(building, from + 1)
    }
}

/// The cell on which the output of a mine, a conveyor or a combiner
/// stands, if its coordinates can be held.
pub open spec fn spec_output_cell(building: Building) -> Option<Pos> {
    if building.has_shape() && building.spec_representable() {
        first_output(building, 0)
    } else {
        None
    }
}

/// The cell on which the output of a mine, a conveyor or a combiner
/// stands.
pub fn output_cell(building: &Building) -> (r: Option<Pos>)
    ensures
        r == spec_output_cell(*building),
{
    match building {
        Building::Mine(_) | Building::Conveyor(_) | Building::Combiner(_) => {},
        _ => {
            return None;
        },
    }
    if !building.representable() {
        return None;
    }
    let n = building.cell_count();
    let mut i: usize = 0;
    while i < n
        invariant
            i <= n,
            n == building.spec_cell_count(),
            building.spec_representable(),
            building.has_shape(),
            first_output(*building, 0) == first_output(*building, i as int),
        decreases n - i,
    {
        let (p, kind) = building.cell(i);
        if kind == CellKind::Output {
            return Some(p);
        }
        i += 1;
    }
    None
}

/// The building that the first connection from place `from` on that leaves
/// `id` feeds.
pub open spec fn spec_next_hop(conns: Seq<crate::scene::Connection>, id: Id, from: int) -> Option<
    Id,
>
    decreases conns.len() - from,
{
    if from < 0 || from >= conns.len() {
        None
    } else if conns[from].output_id == id {
        Some(conns[from].input_id)
    } else {
        spec_next_hop(conns, id, from + 1)
    }
}

/// The building that `spec_next_hop` finds in a consistent scene is stored.
pub proof fn lemma_next_hop_live(sim: Sim, id: Id, from: int)
    requires
        sim.wf(),
        0 <= from,
        spec_next_hop(sim.connections@, id, from) is Some,
    ensures
        sim.buildings.live(spec_next_hop(sim.connections@, id, from)->0),
    decreases sim.connections@.len() - from,
{
    if sim.connections@[from].output_id == id {
        assert(sim.link_ok(sim.connections@[from]));
    } else {
        lemma_next_hop_live(sim, id, from + 1);
    }
}

/// The building that the first connection leaving `id` feeds.
pub fn next_hop(sim: &Sim, id: Id) -> (r: Option<Id>)
    ensures
        r == spec_next_hop(sim.connections@, id, 0),
{
    let mut i: usize = 0;
    while i < sim.connections.len()
        invariant
            i <= sim.connections@.len(),
            spec_next_hop(sim.connections@, id, 0) == spec_next_hop(sim.connections@, id, i as int),
        decreases sim.connections@.len() - i,
    {
        let c = sim.connections[i];
        if c.output_id == id {
            return Some(c.input_id);
        }
        i += 1;
    }
    None
}

/// A list of numbers below `n` in which none occurs twice is no longer
/// than `n`.
pub proof fn lemma_ids_bounded(s: Seq<u16>, n: int)
    requires
        0 <= n,
        s.no_duplicates(),
        forall|k: int| 0 <= k < s.len() ==> (#[trigger] s[k]) < n,
    ensures
        s.len() <= n,
{
    let t = Seq::new(s.len(), |k: int| s[k] as int);
    assert forall|a: int, b: int| 0 <= a < t.len() && 0 <= b < t.len() && a != b implies t[a]
        != t[b] by {
        assert(s[a] != s[b]);
    }
    t.unique_seq_to_set();
    let all = vstd::set_lib::set_int_range(0, n);
    vstd::set_lib::lemma_int_range(0, n);
    assert forall|v: int| t.to_set().contains(v) implies all.contains(v) by {
        let k = choose|k: int| 0 <= k < t.len() && t[k] == v;
        assert(s[k] < n);
    }
    vstd::set_lib::lemma_len_subset(t.to_set(), all);
}

/// The steps left to the factory from the output of the building `last`,
/// where a walk within the search depth has ended.
pub open spec fn spec_merge_dist(sim: Sim, map: DistanceMap, last: Id) -> Option<u16> {
    match sim.buildings.spec_get(last) {
        Building::Factory(_) => Some(0u16),
        b => match spec_output_cell(b) {
            Some(pos) => map.reach(pos),
            None => None,
        },
    }
}

/// What a walk along the connections finds. At `current` the walk has met
/// the buildings of `met` before; `last` is the last building it met while
/// depth was left, and `depth` is what is left of it. From each building
/// the walk follows the first connection that leaves it.
///
/// The walk finds nothing where no connection leaves a building, where
/// it comes to a building it has met, where no steps are known from `last`,
/// and when `fuel` runs out. Where it comes to the factory, it finds a
/// merge for `parent_id`.
pub open spec fn spec_walk(
    sim: Sim,
    map: DistanceMap,
    factory_id: Id,
    parent_id: NodeId,
    last: Id,
    current: Id,
    depth: u8,
    met: Seq<u16>,
    fuel: nat,
) -> Option<(State, Option<(NodeId, PathStats)>)>
    decreases fuel,
{
    if fuel == 0 {
        None
    } else {
        let met_now = met.push(current.0);
        let last_now = if depth > 0 {
            current
        } else {
            last
        };
        let depth_now = if depth > 0 {
            (depth - 1) as u8
        } else {
            depth
        };
        match spec_next_hop(sim.connections@, current, 0) {
            None => None,
            Some(next) => if met_now.contains(next.0) {
                None
            } else if next == factory_id {
                match spec_merge_dist(sim, map, last_now) {
                    Some(dist) => Some(
                        (State::Merged, Some((parent_id, PathStats { dist, depth: depth_now }))),
                    ),
                    None => None,
                }
            } else {
                spec_walk(
                    sim,
                    map,
                    factory_id,
                    parent_id,
                    last_now,
                    next,
                    depth_now,
                    met_now,
                    (fuel - 1) as nat,
                )
            },
        }
    }
}

/// Follows the connections from `current_id` on. If they lead to the
/// factory, the path that ends at `connector_id` is merged: the result
/// names `parent_id`, the steps left from the last building within the
/// search depth, and the depth left over. `None` if the connections end
/// elsewhere or come back to a building already met; see `spec_walk`.
pub fn find_connection(
    sim: &Sim,
    map: &DistanceMap,
    factory_id: Id,
    parent_id: NodeId,
    connector_id: Id,
    current_id: Id,
    search_depth: u8,
) -> (r: Option<(State, Option<(NodeId, PathStats)>)>)
    requires
        sim.wf(),
        map.wf(),
        sim.buildings.live(connector_id),
        sim.buildings.live(current_id),
    ensures
        r == spec_walk(
            *sim,
            *map,
            factory_id,
            parent_id,
            connector_id,
            current_id,
            search_depth,
            Seq::empty(),
            (sim.buildings.values@.len() + 1) as nat,
        ),
        is_merge(r, parent_id, search_depth),
{
    let mut path = path_new();
    let mut last_search_node = connector_id;
    let mut current = current_id;
    let mut depth = search_depth;
    loop
        invariant
            sim.wf(),
            map.wf(),
            sim.buildings.live(last_search_node),
            sim.buildings.live(current),
            depth <= search_depth,
            path_ids(path).no_duplicates(),
            forall|k: int|
                0 <= k < path_ids(path).len() ==> (#[trigger] path_ids(path)[k])
                    < sim.buildings.values@.len(),
            !path_ids(path).contains(current.0),
            spec_walk(
                *sim,
                *map,
                factory_id,
                parent_id,
                connector_id,
                current_id,
                search_depth,
                Seq::empty(),
                (sim.buildings.values@.len() + 1) as nat,
            ) == spec_walk(
                *sim,
                *map,
                factory_id,
                parent_id,
                last_search_node,
                current,
                depth,
                path_ids(path),
                (sim.buildings.values@.len() + 1 - path_ids(path).len()) as nat,
            ),
        decreases sim.buildings.values@.len() - path_ids(path).len(),
    {
        let ghost met = path_ids(path);
        let ghost fuel = (sim.buildings.values@.len() + 1 - met.len()) as nat;
        let ghost here = current;
        let ghost whole = spec_walk(
            *sim,
            *map,
            factory_id,
            parent_id,
            last_search_node,
            current,
            depth,
            met,
            fuel,
        );
        proof {
            let grown = path_ids(path).push(current.0);
            assert forall|a: int, b: int|
                0 <= a < grown.len() && 0 <= b < grown.len() && a != b implies grown[a]
                != grown[b] by {
                if a == grown.len() - 1 {
                    assert(path_ids(path)[b] != current.0);
                } else if b == grown.len() - 1 {
                    assert(path_ids(path)[a] != current.0);
                }
            }
            lemma_ids_bounded(grown, sim.buildings.values@.len() as int);
            assert(fuel > 0);
        }
        path_push(&mut path, current.0);
        if depth > 0 {
            last_search_node = current;
            depth -= 1;
        }
        let next = match next_hop(sim, current) {
            Some(next) => next,
            None => {
                proof {
                    assert(whole is None);
                }
                return None;
            },
        };
        proof {
            lemma_next_hop_live(*sim, here, 0);
        }
        if path_contains(&path, next.0) {
            proof {
                assert(whole is None);
            }
            return None;
        }
        proof {
            if next != factory_id {
                assert(whole == spec_walk(
                    *sim,
                    *map,
                    factory_id,
                    parent_id,
                    last_search_node,
                    next,
                    depth,
                    path_ids(path),
                    (fuel - 1) as nat,
                ));
            } else {
                assert(whole == match spec_merge_dist(*sim, *map, last_search_node) {
                    Some(dist) => Some(
                        (State::Merged, Some((parent_id, PathStats { dist, depth }))),
                    ),
                    None => None,
                });
            }
        }
        current = next;
        if current == factory_id {
            let last_building = sim.buildings.get(last_search_node);
            let dist = match last_building {
                Building::Factory(_) => 0,
                _ => {
                    let pos = match output_cell(&last_building) {
                        Some(pos) => pos,
                        None => {
                            return None;
                        },
                    };
                    match map.steps(pos) {
                        Some(d) => d,
                        None => {
                            return None;
                        },
                    }
                },
            };
            return Some((State::Merged, Some((parent_id, PathStats::new(dist, depth)))));
        }
    }
}

/// What `find_connection_at` finds at `pos`.
pub open spec fn spec_find_at(
    sim: Sim,
    map: DistanceMap,
    factory_id: Id,
    parent_id: NodeId,
    connector_id: Id,
    pos: Pos,
    search_depth: u8,
) -> Option<(State, Option<(NodeId, PathStats)>)> {
    if sim.board.in_bounds(pos) && sim.board.at(pos) is Some && sim.board.at(pos)->0.id
        != connector_id && sim.board.at(pos)->0.kind == CellKind::Input {
        spec_walk(
            sim,
            map,
            factory_id,
            parent_id,
            connector_id,
            sim.board.at(pos)->0.id,
            search_depth,
            Seq::empty(),
            (sim.buildings.values@.len() + 1) as nat,
        )
    } else {
        None
    }
}

/// The cell `(dx, dy)` away from `start_pos`, and what is found there.
pub open spec fn spec_find_beside(
    sim: Sim,
    map: DistanceMap,
    factory_id: Id,
    parent_id: NodeId,
    connector_id: Id,
    start_pos: Pos,
    search_depth: u8,
    dx: int,
    dy: int,
) -> Option<(State, Option<(NodeId, PathStats)>)> {
    if start_pos.can_shift(dx, dy) {
        spec_find_at(
            sim,
            map,
            factory_id,
            parent_id,
            connector_id,
            start_pos.shifted(dx, dy),
            search_depth,
        )
    } else {
        None
    }
}

/// What `find_connection_around` finds: the first find at the cell to the
/// left, to the right, above or below.
pub open spec fn spec_find_around(
    sim: Sim,
    map: DistanceMap,
    factory_id: Id,
    parent_id: NodeId,
    connector_id: Id,
    start_pos: Pos,
    search_depth: u8,
) -> Option<(State, Option<(NodeId, PathStats)>)> {
    let left = spec_find_beside(sim, map, factory_id, parent_id, connector_id, start_pos, search_depth, -1, 0);
    let right = spec_find_beside(sim, map, factory_id, parent_id, connector_id, start_pos, search_depth, 1, 0);
    let above = spec_find_beside(sim, map, factory_id, parent_id, connector_id, start_pos, search_depth, 0, -1);
    let below = spec_find_beside(sim, map, factory_id, parent_id, connector_id, start_pos, search_depth, 0, 1);
    if left is Some {
        left
    } else if right is Some {
        right
    } else if above is Some {
        above
    } else {
        below
    }
}

/// Looks at the cell at `pos`: if it is an input of a building other than
/// `connector_id`, follows the connections from that building; see
/// `find_connection`.
pub fn find_connection_at(
    sim: &Sim,
    map: &DistanceMap,
    factory_id: Id,
    parent_id: NodeId,
    connector_id: Id,
    pos: Pos,
    search_depth: u8,
) -> (r: Option<(State, Option<(NodeId, PathStats)>)>)
    requires
        sim.wf(),
        map.wf(),
        sim.buildings.live(connector_id),
    ensures
        r == spec_find_at(*sim, *map, factory_id, parent_id, connector_id, pos, search_depth),
        is_merge(r, parent_id, search_depth),
{
    if let Some(Some(cell)) = sim.board.get(pos) {
        if cell.id != connector_id && cell.kind == CellKind::Input {
            return find_connection(
                sim,
                map,
                factory_id,
                parent_id,
                connector_id,
                cell.id,
                search_depth,
            );
        }
    }
    None
}

/// Looks at the four cells around the output at `start_pos` for an input
/// from which the connections lead to the factory: left, right, above and
/// below, in this order; see `find_connection_at`.
pub fn find_connection_around(
    sim: &Sim,
    map: &DistanceMap,
    factory_id: Id,
    parent_id: NodeId,
    connector_id: Id,
    start_pos: Pos,
    search_depth: u8,
) -> (r: Option<(State, Option<(NodeId, PathStats)>)>)
    requires
        sim.wf(),
        map.wf(),
        sim.buildings.live(connector_id),
    ensures
        r == spec_find_around(
            *sim,
            *map,
            factory_id,
            parent_id,
            connector_id,
            start_pos,
            search_depth,
        ),
        is_merge(r, parent_id, search_depth),
{
    let left = find_beside(sim, map, factory_id, parent_id, connector_id, start_pos, search_depth, -1, 0);
    if left.is_some() {
        return left;
    }
    let right = find_beside(sim, map, factory_id, parent_id, connector_id, start_pos, search_depth, 1, 0);
    if right.is_some() {
        return right;
    }
    let above = find_beside(sim, map, factory_id, parent_id, connector_id, start_pos, search_depth, 0, -1);
    if above.is_some() {
        return above;
    }
    find_beside(sim, map, factory_id, parent_id, connector_id, start_pos, search_depth, 0, 1)
}

/// Looks at the cell `(dx, dy)` away from `start_pos`; see
/// `find_connection_at`.
fn find_beside(
    sim: &Sim,
    map: &DistanceMap,
    factory_id: Id,
    parent_id: NodeId,
    connector_id: Id,
    start_pos: Pos,
    search_depth: u8,
    dx: i8,
    dy: i8,
) -> (r: Option<(State, Option<(NodeId, PathStats)>)>)
    requires
        sim.wf(),
        map.wf(),
        sim.buildings.live(connector_id),
    ensures
        r == spec_find_beside(
            *sim,
            *map,
            factory_id,
            parent_id,
            connector_id,
            start_pos,
            search_depth,
            dx as int,
            dy as int,
        ),
        is_merge(r, parent_id, search_depth),
{
    match offset(start_pos, dx, dy) {
        Some(pos) => find_connection_at(
            sim,
            map,
            factory_id,
            parent_id,
            connector_id,
            pos,
            search_depth,
        ),
        None => None,
    }
}

/// What a search step leaves behind: the invariants hold, the scene holds
/// the buildings it held, the arena has grown at most, and the node named
/// lies in it.
pub open spec fn stepped(
    sim0: Sim,
    tree0: ConnectionTree,
    sim: Sim,
    tree: ConnectionTree,
    map: DistanceMap,
    stats: Option<(NodeId, PathStats)>,
) -> bool {
    &&& searching(sim, tree, map)
    &&& carried(sim0, sim)
    &&& sim.buildings.same_as(sim0.buildings)
    &&& grown(tree0, tree)
    &&& names_node(stats, tree)
}

/// A building that is placed and, after a search that leaves the store as
/// it was, removed again leaves the store as it was before.
pub proof fn lemma_balanced(
    before: crate::building::Buildings,
    with: crate::building::Buildings,
    searched: crate::building::Buildings,
    after: crate::building::Buildings,
    id: Id,
    b: Building,
)
    requires
        !before.live(id),
        with.live(id),
        with.values@ == crate::placement::stored(before.values@, id, b),
        searched.same_as(with),
        after.values@ == searched.values@.update(id.0 as int, None),
    ensures
        after.same_as(before),
{
    assert forall|x: Id|
        after.live(x) == before.live(x) && (after.live(x) ==> after.spec_get(x) == before.spec_get(
            x,
        )) by {
        assert(searched.live(x) == with.live(x));
        if x != id && with.live(x) {
            assert(searched.spec_get(x) == with.spec_get(x));
        }
    }
}

/// The store holds the same after two steps that each leave it as it was.
pub proof fn lemma_same_twice(
    a: crate::building::Buildings,
    b: crate::building::Buildings,
    c: crate::building::Buildings,
)
    requires
        b.same_as(a),
        c.same_as(b),
    ensures
        c.same_as(a),
{
    assert forall|x: Id|
        c.live(x) == a.live(x) && (c.live(x) ==> c.spec_get(x) == a.spec_get(x)) by {
        assert(b.live(x) == a.live(x));
        assert(c.live(x) == b.live(x));
    }
}

/// Searches on from the output of the connector `connector_id`, the node
/// `parent_id`, which stands at `start_pos`, `start_dist` steps from the
/// factory.
///
/// The path is connected if the output lies beside the factory, and merged
/// if it feeds a path to the factory. If the depth is used up the search
/// stops. Otherwise a connector is tried at every dock in every placement,
/// and each that can be placed becomes a child; the scene is left as it
/// was.
pub fn place_children_connectors(
    sim: &mut Sim,
    tree: &mut ConnectionTree,
    map: &DistanceMap,
    factory_id: Id,
    connector_id: Id,
    parent_id: NodeId,
    start_pos: Pos,
    start_dist: u16,
    search_depth: u8,
) -> (r: (State, Option<(NodeId, PathStats)>))
    requires
        searching(*old(sim), *old(tree), *map),
        old(sim).buildings.live(connector_id),
        parent_id.0 < old(tree).nodes@.len(),
    ensures
        stepped(*old(sim), *old(tree), *final(sim), *final(tree), *map, r.1),
        r.0 matches State::Children { start, len } ==> start.0 + len <= final(tree).nodes@.len(),
        start_dist == 0 ==> r.0 == State::Connected,
        children_searched(
            *old(sim),
            *old(tree),
            *map,
            factory_id,
            connector_id,
            parent_id,
            start_pos,
            start_dist,
            search_depth,
            *final(sim),
            *final(tree),
            r.0,
            r.1,
        ),
    decreases search_depth, 2int,
{
    if start_dist == 0 {
        proof {
            lemma_children_plain(
                *sim,
                *tree,
                *map,
                factory_id,
                connector_id,
                parent_id,
                start_pos,
                start_dist,
                search_depth,
                State::Connected,
                Some((parent_id, PathStats { dist: 0, depth: search_depth })),
            );
        }
        return (State::Connected, Some((parent_id, PathStats::new(0, search_depth))));
    }
    if let Some(s) = find_connection_around(
        sim,
        map,
        factory_id,
        parent_id,
        connector_id,
        start_pos,
        search_depth,
    ) {
        proof {
            lemma_children_plain(
                *sim,
                *tree,
                *map,
                factory_id,
                connector_id,
                parent_id,
                start_pos,
                start_dist,
                search_depth,
                s.0,
                s.1,
            );
        }
        return s;
    }
    if search_depth == 0 || !tree.has_room(MAX_CHILDREN_LEN) {
        proof {
            lemma_children_plain(
                *sim,
                *tree,
                *map,
                factory_id,
                connector_id,
                parent_id,
                start_pos,
                start_dist,
                search_depth,
                State::Stopped,
                Some((parent_id, PathStats { dist: start_dist, depth: search_depth })),
            );
        }
        return (State::Stopped, Some((parent_id, PathStats::new(start_dist, search_depth))));
    }
    let children_id = tree.reserve(MAX_CHILDREN_LEN);
    let mut len: u16 = 0;
    let mut best: Option<(NodeId, PathStats)> = None;
    let ghost first = Search { sim: *sim, tree: *tree, len: 0, best: None };
    proof {
        assert(first.tree.nodes@ =~= old(tree).nodes@ + Seq::new(
            MAX_CHILDREN_LEN as nat,
            |i: int| ConnectionTreeNode::spec_uninitialized(),
        ));
        lemma_connectors_none(first, *map, factory_id, start_pos, children_id, search_depth);
    }
    let mut k: usize = 0;
    while k < 4
        invariant
            k <= 4,
            search_depth > 0,
            len <= 20 * k,
            children_id.0 + MAX_CHILDREN_LEN <= tree.nodes@.len(),
            stepped(*old(sim), *old(tree), *sim, *tree, *map, best),
            docks_tried(
                first,
                *map,
                factory_id,
                start_pos,
                children_id,
                search_depth,
                k as int,
                (Search { sim: *sim, tree: *tree, len, best }),
            ),
        decreases 4 - k,
    {
        let ghost mid = Search { sim: *sim, tree: *tree, len, best };
        let (dx, dy) = DOCKS[k];
        if let Some(dock) = offset(start_pos, dx, dy) {
            place_connectors(
                sim,
                tree,
                map,
                factory_id,
                dock,
                children_id,
                &mut len,
                &mut best,
                search_depth,
                Ghost(20 * k + 20),
            );
        }
        proof {
            lemma_docks_more(
                first,
                *map,
                factory_id,
                start_pos,
                children_id,
                search_depth,
                k as int + 1,
                mid,
                Search { sim: *sim, tree: *tree, len, best },
            );
        }
        k += 1;
    }
    proof {
        lemma_children_some(
            *old(sim),
            *old(tree),
            *map,
            factory_id,
            connector_id,
            parent_id,
            start_pos,
            start_dist,
            search_depth,
            first,
            Search { sim: *sim, tree: *tree, len, best },
        );
    }
    (State::Children { start: children_id, len }, best)
}

/// Tries every placement of a conveyor or a combiner with an input on
/// `start_pos`; see `place_node`. `best` keeps the best of what was found.
fn place_connectors(
    sim: &mut Sim,
    tree: &mut ConnectionTree,
    map: &DistanceMap,
    factory_id: Id,
    start_pos: Pos,
    children_id: ChildrenId,
    len: &mut u16,
    best: &mut Option<(NodeId, PathStats)>,
    search_depth: u8,
    Ghost(cap): Ghost<int>,
)
    requires
        searching(*old(sim), *old(tree), *map),
        search_depth > 0,
        *old(len) + 20 <= cap <= MAX_CHILDREN_LEN,
        children_id.0 + cap <= old(tree).nodes@.len(),
        names_node(*old(best), *old(tree)),
    ensures
        stepped(*old(sim), *old(tree), *final(sim), *final(tree), *map, *final(best)),
        *old(len) <= *final(len) <= cap,
        connectors_tried(
            (Search { sim: *old(sim), tree: *old(tree), len: *old(len), best: *old(best) }),
            *map,
            factory_id,
            start_pos,
            children_id,
            search_depth,
            20,
            (Search { sim: *final(sim), tree: *final(tree), len: *final(len), best: *final(best) }),
        ),
    decreases search_depth, 1int,
{
    let ghost first = Search { sim: *sim, tree: *tree, len: *len, best: *best };
    proof {
        lemma_connectors_none(first, *map, factory_id, start_pos, children_id, search_depth);
    }
    let mut k: usize = 0;
    while k < 20
        invariant
            k <= 20,
            search_depth > 0,
            *old(len) <= *len <= *old(len) + k,
            *old(len) + 20 <= cap <= MAX_CHILDREN_LEN,
            children_id.0 + cap <= tree.nodes@.len(),
            stepped(*old(sim), *old(tree), *sim, *tree, *map, *best),
            first == (Search { sim: *old(sim), tree: *old(tree), len: *old(len), best: *old(best) }),
            connectors_tried(
                first,
                *map,
                factory_id,
                start_pos,
                children_id,
                search_depth,
                k as int,
                (Search { sim: *sim, tree: *tree, len: *len, best: *best }),
            ),
        decreases 20 - k,
    {
        let ghost mid = Search { sim: *sim, tree: *tree, len: *len, best: *best };
        let (kind, row, ax, ay, ex, ey) = CONNECTOR_PLACEMENTS[k];
        proof {
            if !(start_pos.can_shift(ax as int, ay as int) && start_pos.can_shift(
                ex as int,
                ey as int,
            )) {
                lemma_connectors_skip(
                    first,
                    *map,
                    factory_id,
                    start_pos,
                    children_id,
                    search_depth,
                    k as int + 1,
                    mid,
                );
            }
        }
        if let (Some(anchor), Some(end_pos)) = (offset(start_pos, ax, ay), offset(start_pos, ex, ey)) {
            let rotation = Rotation::from_index(row as usize);
            let building = if kind == 0 {
                ConnectionBuilding::Conveyor(Conveyor::new(anchor, rotation, false))
            } else if kind == 1 {
                ConnectionBuilding::Conveyor(Conveyor::new(anchor, rotation, true))
            } else {
                ConnectionBuilding::Combiner(Combiner::new(anchor, rotation))
            };
            let stats = place_node(
                sim,
                tree,
                map,
                factory_id,
                children_id,
                len,
                search_depth,
                building,
                start_pos,
                end_pos,
            );
            keep_better(best, stats);
            proof {
                assert(building == connector_at(start_pos, k as int));
                lemma_connectors_more(
                    first,
                    *map,
                    factory_id,
                    start_pos,
                    children_id,
                    search_depth,
                    k as int + 1,
                    mid,
                    stats,
                    Search { sim: *sim, tree: *tree, len: *len, best: *best },
                );
            }
        }
        k += 1;
    }
}

/// Tries `building`, whose input stands on `start_pos` and whose output on
/// `end_pos`. If the output stands on a cell from which the factory can be
/// reached and the building can be placed, it becomes the next child, the
/// search goes on from its output with one level less, and the building is
/// removed again. The result names the child and the best that was found
/// below it.
pub fn place_node(
    sim: &mut Sim,
    tree: &mut ConnectionTree,
    map: &DistanceMap,
    factory_id: Id,
    children_id: ChildrenId,
    len: &mut u16,
    search_depth: u8,
    building: ConnectionBuilding,
    start_pos: Pos,
    end_pos: Pos,
) -> (r: Option<(NodeId, PathStats)>)
    requires
        searching(*old(sim), *old(tree), *map),
        search_depth > 0,
        *old(len) < u16::MAX,
        children_id.0 + *old(len) < old(tree).nodes@.len(),
    ensures
        stepped(*old(sim), *old(tree), *final(sim), *final(tree), *map, r),
        *old(len) <= *final(len) <= *old(len) + 1,
        node_tried(
            *old(sim),
            *old(tree),
            *old(len),
            *map,
            factory_id,
            children_id,
            search_depth,
            building,
            start_pos,
            end_pos,
            *final(sim),
            *final(tree),
            *final(len),
            r,
        ),
    decreases search_depth, 0int,
{
    let end_dist = match map.steps(end_pos) {
        Some(d) => d,
        None => {
            proof {
                lemma_node_none(
                    *old(sim),
                    *old(tree),
                    *old(len),
                    *map,
                    factory_id,
                    children_id,
                    search_depth,
                    building,
                    start_pos,
                    end_pos,
                    *sim,
                    *tree,
                    *len,
                );
            }
            return None;
        },
    };
    let ghost before = *sim;
    let building_id = match try_place(sim, building.to_building()) {
        Some(id) => id,
        None => {
            proof {
                lemma_node_none(
                    *old(sim),
                    *old(tree),
                    *old(len),
                    *map,
                    factory_id,
                    children_id,
                    search_depth,
                    building,
                    start_pos,
                    end_pos,
                    *sim,
                    *tree,
                    *len,
                );
            }
            return None;
        },
    };
    let node_id = increment_id(children_id, len);
    let ghost with = *sim;
    let (state, stats) = place_children_connectors(
        sim,
        tree,
        map,
        factory_id,
        building_id,
        node_id,
        end_pos,
        end_dist,
        search_depth - 1,
    );
    let ghost searched = *sim;
    remove_building(sim, building_id);
    let ghost tree1 = *tree;
    tree.set(node_id, ConnectionTreeNode::new(building, start_pos, end_pos, state));
    proof {
        assert forall|i: int| 0 <= i < tree.nodes@.len() implies ((
        #[trigger] tree.nodes@[i]).state matches State::Children { start, len } ==> start.0 + len
            <= tree.nodes@.len()) by {
            if i != node_id.0 {
                assert(tree.nodes@[i] == tree1.nodes@[i]);
            }
        }
        lemma_balanced(
            before.buildings,
            with.buildings,
            searched.buildings,
            sim.buildings,
            building_id,
            building.spec_to_building(),
        );
        assert(removed_from(searched, building_id, *sim)) by {
            reveal(removed_from);
        }
        lemma_node_some(
            *old(sim),
            *old(tree),
            *old(len),
            *map,
            factory_id,
            children_id,
            search_depth,
            building,
            start_pos,
            end_pos,
            with,
            Search { sim: searched, tree: tree1, len: 0, best: None },
            state,
            stats,
            building_id,
            *sim,
            *tree,
            *len,
        );
    }
    match stats {
        Some((_, s)) => Some((node_id, s)),
        None => None,
    }
}

/// Tries a mine in each of its four rotations with its input on
/// `start_pos`, a cell beside the deposit; see `place_node`.
fn place_mines(
    sim: &mut Sim,
    tree: &mut ConnectionTree,
    map: &DistanceMap,
    factory_id: Id,
    start_pos: Pos,
    children_id: ChildrenId,
    len: &mut u16,
    search_depth: u8,
    Ghost(cap): Ghost<int>,
) -> (r: Option<(NodeId, PathStats)>)
    requires
        searching(*old(sim), *old(tree), *map),
        search_depth > 0,
        *old(len) + 4 <= cap <= 0x7FFF,
        children_id.0 + cap <= old(tree).nodes@.len(),
    ensures
        stepped(*old(sim), *old(tree), *final(sim), *final(tree), *map, r),
        *old(len) <= *final(len) <= *old(len) + 4,
        mines_tried(
            (Search { sim: *old(sim), tree: *old(tree), len: *old(len), best: None }),
            *map,
            factory_id,
            start_pos,
            children_id,
            search_depth,
            4,
            (Search { sim: *final(sim), tree: *final(tree), len: *final(len), best: r }),
        ),
{
    let mut best: Option<(NodeId, PathStats)> = None;
    let ghost first = Search { sim: *sim, tree: *tree, len: *len, best: None };
    proof {
        lemma_connectors_none(first, *map, factory_id, start_pos, children_id, search_depth);
    }
    let mut k: usize = 0;
    while k < 4
        invariant
            k <= 4,
            search_depth > 0,
            *old(len) <= *len <= *old(len) + k,
            *old(len) + 4 <= cap <= 0x7FFF,
            children_id.0 + cap <= tree.nodes@.len(),
            stepped(*old(sim), *old(tree), *sim, *tree, *map, best),
            first == (Search { sim: *old(sim), tree: *old(tree), len: *old(len), best: None }),
            mines_tried(
                first,
                *map,
                factory_id,
                start_pos,
                children_id,
                search_depth,
                k as int,
                (Search { sim: *sim, tree: *tree, len: *len, best }),
            ),
        decreases 4 - k,
    {
        let ghost mid = Search { sim: *sim, tree: *tree, len: *len, best };
        let (ax, ay, ex, ey) = MINE_PLACEMENTS[k];
        proof {
            if !(start_pos.can_shift(ax as int, ay as int) && start_pos.can_shift(
                ex as int,
                ey as int,
            )) {
                lemma_mines_skip(
                    first,
                    *map,
                    factory_id,
                    start_pos,
                    children_id,
                    search_depth,
                    k as int + 1,
                    mid,
                );
            }
        }
        if let (Some(anchor), Some(end_pos)) = (offset(start_pos, ax, ay), offset(start_pos, ex, ey)) {
            let rotation = Rotation::from_index(k);
            let mine = ConnectionBuilding::Mine(Mine::new(anchor, rotation));
            let stats = place_node(
                sim,
                tree,
                map,
                factory_id,
                children_id,
                len,
                search_depth,
                mine,
                start_pos,
                end_pos,
            );
            keep_better(&mut best, stats);
            proof {
                assert(rotation == rotation_of(k as int));
                lemma_mines_more(
                    first,
                    *map,
                    factory_id,
                    start_pos,
                    children_id,
                    search_depth,
                    k as int + 1,
                    mid,
                    stats,
                    Search { sim: *sim, tree: *tree, len: *len, best },
                );
            }
        }
        k += 1;
    }
    best
}

/// Takes the search up again below a building that was just committed:
/// looks at each of the `len` children from `children_id` on and returns
/// the best, named by the child under which it lies.
///
/// A connected child is the best there is. A merged child is looked at
/// again, since the scene has changed. A stopped child is expanded, and the
/// children of an expanded child are looked at in the same way, both with
/// one level less. The scene is left as it was.
pub fn continue_subtree(
    sim: &mut Sim,
    tree: &mut ConnectionTree,
    map: &DistanceMap,
    factory_id: Id,
    children_id: ChildrenId,
    len: u16,
    search_depth: u8,
) -> (r: Option<(NodeId, PathStats)>)
    requires
        searching(*old(sim), *old(tree), *map),
        children_id.0 + len <= old(tree).nodes@.len(),
    ensures
        stepped(*old(sim), *old(tree), *final(sim), *final(tree), *map, r),
        subtree_searched(
            *old(sim),
            *old(tree),
            *map,
            factory_id,
            children_id,
            len,
            search_depth,
            *final(sim),
            *final(tree),
            r,
        ),
    decreases search_depth,
{
    let mut best: Option<(NodeId, PathStats)> = None;
    let mut i: u16 = 0;
    proof {
        lemma_seen_none(
            *old(sim),
            *old(tree),
            *map,
            factory_id,
            children_id,
            search_depth,
            Search { sim: *sim, tree: *tree, len: 0, best },
        );
    }
    while i < len
        invariant
            i <= len,
            children_id.0 + len <= tree.nodes@.len(),
            stepped(*old(sim), *old(tree), *sim, *tree, *map, best),
            children_seen(
                *old(sim),
                *old(tree),
                *map,
                factory_id,
                children_id,
                search_depth,
                i as int,
                (Search { sim: *sim, tree: *tree, len: 0, best }),
            ),
        decreases len - i,
    {
        let node_id = NodeId(children_id.0 + i as u32);
        let node = tree.get(node_id);
        let ghost before = *sim;
        let ghost a = Search { sim: *sim, tree: *tree, len: 0, best };
        assert(node_id == child_id(children_id, i as int));
        assert(node == a.tree.nodes@[child_id(children_id, i as int).0 as int]);
        match node.state {
            State::Connected => {
                let found = Some((node_id, PathStats::new(0, search_depth)));
                proof {
                    lemma_child_ends(
                        a,
                        *map,
                        children_id,
                        search_depth,
                        i as int,
                        *sim,
                        *tree,
                        found,
                    );
                    lemma_subtree(
                        *old(sim),
                        *old(tree),
                        *map,
                        factory_id,
                        children_id,
                        len,
                        search_depth,
                        i as int,
                        a,
                        *sim,
                        *tree,
                        found,
                    );
                }
                return found;
            },
            State::Merged => {
                let building_id = match try_place(sim, node.building.to_building()) {
                    Some(id) => id,
                    None => {
                        proof {
                            lemma_child_ends(
                                a,
                                *map,
                                children_id,
                                search_depth,
                                i as int,
                                *sim,
                                *tree,
                                None,
                            );
                            lemma_subtree(
                                *old(sim),
                                *old(tree),
                                *map,
                                factory_id,
                                children_id,
                                len,
                                search_depth,
                                i as int,
                                a,
                                *sim,
                                *tree,
                                None,
                            );
                        }
                        return None;
                    },
                };
                if let Some((_, stats)) = find_connection_around(
                    sim,
                    map,
                    factory_id,
                    node_id,
                    building_id,
                    node.end_pos,
                    search_depth,
                ) {
                    keep_better(&mut best, stats);
                }
                let ghost with = *sim;
                remove_building(sim, building_id);
                proof {
                    assert(removed_from(with, building_id, *sim)) by {
                        reveal(removed_from);
                    }
                    lemma_child_merged(
                        a,
                        *map,
                        factory_id,
                        children_id,
                        search_depth,
                        i as int,
                        with,
                        building_id,
                        Search { sim: *sim, tree: *tree, len: 0, best },
                    );
                    lemma_seen_more(
                        *old(sim),
                        *old(tree),
                        *map,
                        factory_id,
                        children_id,
                        search_depth,
                        i as int + 1,
                        a,
                        Search { sim: *sim, tree: *tree, len: 0, best },
                    );
                    lemma_balanced(
                        before.buildings,
                        with.buildings,
                        with.buildings,
                        sim.buildings,
                        building_id,
                        node.building.spec_to_building(),
                    );
                    lemma_same_twice(old(sim).buildings, before.buildings, sim.buildings);
                }
            },
            State::Stopped => {
                let reach = if search_depth > 0 {
                    map.steps(node.end_pos)
                } else {
                    None
                };
                if reach.is_none() {
                    proof {
                        lemma_child_passed(
                            a,
                            *map,
                            factory_id,
                            children_id,
                            search_depth,
                            i as int,
                            Search { sim: *sim, tree: *tree, len: 0, best },
                        );
                        lemma_seen_more(
                            *old(sim),
                            *old(tree),
                            *map,
                            factory_id,
                            children_id,
                            search_depth,
                            i as int + 1,
                            a,
                            Search { sim: *sim, tree: *tree, len: 0, best },
                        );
                    }
                }
                if search_depth > 0 {
                    if let Some(end_dist) = reach {
                        let building_id = match try_place(sim, node.building.to_building()) {
                            Some(id) => id,
                            None => {
                                proof {
                                    lemma_child_ends(
                                        a,
                                        *map,
                                        children_id,
                                        search_depth,
                                        i as int,
                                        *sim,
                                        *tree,
                                        None,
                                    );
                                    lemma_subtree(
                                        *old(sim),
                                        *old(tree),
                                        *map,
                                        factory_id,
                                        children_id,
                                        len,
                                        search_depth,
                                        i as int,
                                        a,
                                        *sim,
                                        *tree,
                                        None,
                                    );
                                }
                                return None;
                            },
                        };
                        let ghost with = *sim;
                        let (state, stats) = place_children_connectors(
                            sim,
                            tree,
                            map,
                            factory_id,
                            building_id,
                            node_id,
                            node.end_pos,
                            end_dist,
                            search_depth - 1,
                        );
                        keep_better(
                            &mut best,
                            match stats {
                                Some((_, s)) => Some((node_id, s)),
                                None => None,
                            },
                        );
                        let ghost searched = *sim;
                        remove_building(sim, building_id);
                        proof {
                            lemma_balanced(
                                before.buildings,
                                with.buildings,
                                searched.buildings,
                                sim.buildings,
                                building_id,
                                node.building.spec_to_building(),
                            );
                            lemma_same_twice(old(sim).buildings, before.buildings, sim.buildings);
                        }
                        let ghost tree1 = *tree;
                        tree.set(
                            node_id,
                            ConnectionTreeNode::new(
                                node.building,
                                node.start_pos,
                                node.end_pos,
                                state,
                            ),
                        );
                        proof {
                            assert(removed_from(searched, building_id, *sim)) by {
                                reveal(removed_from);
                            }
                            lemma_child_stopped(
                                a,
                                *map,
                                factory_id,
                                children_id,
                                search_depth,
                                i as int,
                                with,
                                Search { sim: searched, tree: tree1, len: 0, best: None },
                                state,
                                stats,
                                building_id,
                                Search { sim: *sim, tree: *tree, len: 0, best },
                            );
                            lemma_seen_more(
                                *old(sim),
                                *old(tree),
                                *map,
                                factory_id,
                                children_id,
                                search_depth,
                                i as int + 1,
                                a,
                                Search { sim: *sim, tree: *tree, len: 0, best },
                            );
                        }
                        proof {
                            assert forall|j: int| 0 <= j < tree.nodes@.len() implies ((
                            #[trigger] tree.nodes@[j]).state matches State::Children { start, len }
                                ==> start.0 + len <= tree.nodes@.len()) by {
                                if j != node_id.0 {
                                    assert(tree.nodes@[j] == tree1.nodes@[j]);
                                }
                            }
                        }
                    }
                }
            },
            State::Children { start, len: below } => {
                if search_depth == 0 {
                    proof {
                        lemma_child_passed(
                            a,
                            *map,
                            factory_id,
                            children_id,
                            search_depth,
                            i as int,
                            Search { sim: *sim, tree: *tree, len: 0, best },
                        );
                        lemma_seen_more(
                            *old(sim),
                            *old(tree),
                            *map,
                            factory_id,
                            children_id,
                            search_depth,
                            i as int + 1,
                            a,
                            Search { sim: *sim, tree: *tree, len: 0, best },
                        );
                    }
                }
                if search_depth > 0 {
                    let building_id = match try_place(sim, node.building.to_building()) {
                        Some(id) => id,
                        None => {
                            proof {
                                lemma_child_ends(
                                    a,
                                    *map,
                                    children_id,
                                    search_depth,
                                    i as int,
                                    *sim,
                                    *tree,
                                    None,
                                );
                                lemma_subtree(
                                    *old(sim),
                                    *old(tree),
                                    *map,
                                    factory_id,
                                    children_id,
                                    len,
                                    search_depth,
                                    i as int,
                                    a,
                                    *sim,
                                    *tree,
                                    None,
                                );
                            }
                            return None;
                        },
                    };
                    let ghost with = *sim;
                    let stats = continue_subtree(
                        sim,
                        tree,
                        map,
                        factory_id,
                        start,
                        below,
                        search_depth - 1,
                    );
                    keep_better(
                        &mut best,
                        match stats {
                            Some((_, s)) => Some((node_id, s)),
                            None => None,
                        },
                    );
                    let ghost searched = *sim;
                    remove_building(sim, building_id);
                    proof {
                        lemma_balanced(
                            before.buildings,
                            with.buildings,
                            searched.buildings,
                            sim.buildings,
                            building_id,
                            node.building.spec_to_building(),
                        );
                        lemma_same_twice(old(sim).buildings, before.buildings, sim.buildings);
                        assert(removed_from(searched, building_id, *sim)) by {
                            reveal(removed_from);
                        }
                        lemma_child_expanded(
                            a,
                            *map,
                            factory_id,
                            children_id,
                            search_depth,
                            i as int,
                            with,
                            Search { sim: searched, tree: *tree, len: 0, best: None },
                            stats,
                            building_id,
                            Search { sim: *sim, tree: *tree, len: 0, best },
                        );
                        lemma_seen_more(
                            *old(sim),
                            *old(tree),
                            *map,
                            factory_id,
                            children_id,
                            search_depth,
                            i as int + 1,
                            a,
                            Search { sim: *sim, tree: *tree, len: 0, best },
                        );
                    }
                }
            },
        }
        i += 1;
    }
    proof {
        lemma_subtree(
            *old(sim),
            *old(tree),
            *map,
            factory_id,
            children_id,
            len,
            search_depth,
            len as int,
            Search { sim: *sim, tree: *tree, len: 0, best },
            *sim,
            *tree,
            best,
        );
    }
    best
}

/// Cell `j` beside a rectangle of `w` by `h` cells at `pos`, if its
/// coordinates can be held: the neighbour of adjacency check `j` of the
/// rectangle.
pub open spec fn spec_rim_cell(pos: Pos, w: int, h: int, j: int) -> Option<Pos> {
    let d = crate::building::rect_probe(w, h, j);
    if pos.can_shift(d.0, d.1) {
        Some(pos.shifted(d.0, d.1))
    } else {
        None
    }
}

/// Cell `j` beside a rectangle of `w` by `h` cells at `pos`, if its
/// coordinates can be held: first the cells above, then those left and
/// right of each row, then those below.
fn rim_cell(pos: Pos, w: u8, h: u8, j: usize) -> (r: Option<Pos>)
    requires
        j < 2 * w + 2 * h,
    ensures
        r == spec_rim_cell(pos, w as int, h as int, j as int),
{
    let w16 = w as i16;
    let h16 = h as i16;
    let (dx, dy): (i16, i16) = if j < w as usize {
        (j as i16, -1)
    } else if j < w as usize + 2 * (h as usize) {
        let k = j - w as usize;
        if k % 2 == 0 {
            (-1, (k / 2) as i16)
        } else {
            (w16, (k / 2) as i16)
        }
    } else {
        ((j - w as usize - 2 * (h as usize)) as i16, h16)
    };
    let x = pos.x as i16 + dx;
    let y = pos.y as i16 + dy;
    if -128 <= x && x <= 127 && -128 <= y && y <= 127 {
        Some(Pos { x: x as i8, y: y as i8 })
    } else {
        None
    }
}

/// Connects one deposit to the factory, or to a path that leads there.
///
/// Mines are tried on every cell beside the deposit from which the factory
/// can be reached. Then the best node found is committed to the scene,
/// again and again: a connected or merged node ends the search with
/// success, a stopped node is expanded and the children of an expanded node
/// are searched further. The search fails with `NoPath` when nothing is
/// left to commit, when a node cannot be placed, or after as many commits
/// as the board has cells. The tree is started afresh.
pub fn route_deposit(
    sim: &mut Sim,
    tree: &mut ConnectionTree,
    map: &DistanceMap,
    factory_id: Id,
    deposit_id: Id,
    deposit: Deposit,
    factory_pos: Pos,
    search_depth: u8,
) -> (r: Result<(), Error>)
    requires
        old(sim).wf(),
        map.wf(),
        map.width == old(sim).board.width,
        map.height == old(sim).board.height,
        search_depth > 0,
    ensures
        searching(*final(sim), *final(tree), *map),
        carried(*old(sim), *final(sim)),
        kept(old(sim).buildings, final(sim).buildings),
        r is Err ==> r == Err::<(), Error>(Error::NoPath(deposit_id, deposit.pos, factory_pos)),
        routed(
            *old(sim),
            *map,
            factory_id,
            deposit,
            search_depth,
            *final(sim),
            *final(tree),
            r is Ok,
        ),
{
    let failed = Err(Error::NoPath(deposit_id, deposit.pos, factory_pos));
    *tree = ConnectionTree::new();
    let cells: usize = 2 * (deposit.width as usize) + 2 * (deposit.height as usize);
    let children_id = tree.reserve((4 * cells) as u16);
    let mut children_len: u16 = 0;
    let mut best: Option<(NodeId, PathStats)> = None;
    let ghost start = Search { sim: *sim, tree: *tree, len: 0, best: None };
    proof {
        lemma_rim_none(start, *map, factory_id, deposit, children_id, search_depth);
    }
    let mut j: usize = 0;
    while j < cells
        invariant
            j <= cells,
            children_id == ChildrenId(0),
            route_starts(*old(sim), deposit, start),
            rim_tried(
                start,
                *map,
                factory_id,
                deposit,
                children_id,
                search_depth,
                j as int,
                (Search { sim: *sim, tree: *tree, len: children_len, best }),
            ),
            cells == 2 * deposit.width + 2 * deposit.height,
            failed == Err::<(), Error>(Error::NoPath(deposit_id, deposit.pos, factory_pos)),
            search_depth > 0,
            children_len <= 4 * j,
            children_id.0 + 4 * cells <= tree.nodes@.len(),
            searching(*sim, *tree, *map),
            carried(*old(sim), *sim),
            kept(old(sim).buildings, sim.buildings),
            names_node(best, *tree),
        decreases cells - j,
    {
        let ghost mid = Search { sim: *sim, tree: *tree, len: children_len, best };
        let ghost mut tried: Option<(NodeId, PathStats)> = None;
        if let Some(pos) = rim_cell(deposit.pos, deposit.width, deposit.height, j) {
            if map.steps(pos).is_some() {
                let ghost before = *sim;
                let ghost tree0 = *tree;
                let stats = place_mines(
                    sim,
                    tree,
                    map,
                    factory_id,
                    pos,
                    children_id,
                    &mut children_len,
                    search_depth,
                    Ghost(4 * cells as int),
                );
                keep_better(&mut best, stats);
                proof {
                    lemma_kept_twice(old(sim).buildings, before.buildings, sim.buildings);
                    tried = stats;
                }
            }
        }
        proof {
            lemma_rim_more(
                start,
                *map,
                factory_id,
                deposit,
                children_id,
                search_depth,
                j as int + 1,
                mid,
                tried,
                Search { sim: *sim, tree: *tree, len: children_len, best },
            );
        }
        j += 1;
    }
    let ghost first = Search { sim: *sim, tree: *tree, len: children_len, best };
    proof {
        lemma_commits_none(
            first,
            *map,
            factory_id,
            search_depth,
            Search { sim: *sim, tree: *tree, len: 0, best },
        );
    }
    proof {
        assert(sim.board.width as int * sim.board.height as int <= 10000) by (nonlinear_arith)
            requires
                0 <= sim.board.width <= 100,
                0 <= sim.board.height <= 100,
        ;
    }
    let total: usize = sim.board.width as usize * sim.board.height as usize;
    let mut fuel: usize = total;
    while fuel > 0
        invariant
            search_depth > 0,
            fuel <= total,
            total == old(sim).board.width * old(sim).board.height,
            route_starts(*old(sim), deposit, start),
            rim_tried(
                start,
                *map,
                factory_id,
                deposit,
                ChildrenId(0),
                search_depth,
                rim_len(deposit),
                first,
            ),
            commits(
                first,
                *map,
                factory_id,
                search_depth,
                total - fuel,
                (Search { sim: *sim, tree: *tree, len: 0, best }),
            ),
            failed == Err::<(), Error>(Error::NoPath(deposit_id, deposit.pos, factory_pos)),
            searching(*sim, *tree, *map),
            carried(*old(sim), *sim),
            kept(old(sim).buildings, sim.buildings),
            names_node(best, *tree),
        decreases fuel,
    {
        let ghost a = Search { sim: *sim, tree: *tree, len: 0, best };
        let ghost n = total - fuel;
        fuel -= 1;
        let node_id = match best {
            Some((node_id, _)) => node_id,
            None => {
                proof {
                    lemma_ends_unplaced(a, *map, factory_id, search_depth, *sim, *tree);
                    lemma_routed(
                        *old(sim),
                        *map,
                        factory_id,
                        deposit,
                        search_depth,
                        start,
                        first,
                        n,
                        a,
                        *sim,
                        *tree,
                        false,
                    );
                }
                return failed;
            },
        };
        let node = tree.get(node_id);
        assert(node_id == best_id(a) && node == best_node(a));
        let ghost uncommitted = *sim;
        let connector_id = match try_place(sim, node.building.to_building()) {
            Some(id) => id,
            None => {
                proof {
                    lemma_ends_unplaced(a, *map, factory_id, search_depth, *sim, *tree);
                    lemma_routed(
                        *old(sim),
                        *map,
                        factory_id,
                        deposit,
                        search_depth,
                        start,
                        first,
                        n,
                        a,
                        *sim,
                        *tree,
                        false,
                    );
                }
                return failed;
            },
        };
        let ghost committed = *sim;
        proof {
            assert(kept(uncommitted.buildings, committed.buildings));
            lemma_kept_twice(old(sim).buildings, uncommitted.buildings, committed.buildings);
        }
        match node.state {
            State::Connected | State::Merged => {
                proof {
                    lemma_ends_placed(
                        a,
                        *map,
                        factory_id,
                        search_depth,
                        committed,
                        connector_id,
                        *tree,
                        true,
                    );
                    lemma_routed(
                        *old(sim),
                        *map,
                        factory_id,
                        deposit,
                        search_depth,
                        start,
                        first,
                        n,
                        a,
                        *sim,
                        *tree,
                        true,
                    );
                }
                return Ok(());
            },
            State::Stopped => {
                let end_dist = match map.steps(node.end_pos) {
                    Some(d) => d,
                    None => {
                        proof {
                            lemma_ends_placed(
                                a,
                                *map,
                                factory_id,
                                search_depth,
                                committed,
                                connector_id,
                                *tree,
                                false,
                            );
                            lemma_routed(
                                *old(sim),
                                *map,
                                factory_id,
                                deposit,
                                search_depth,
                                start,
                                first,
                                n,
                                a,
                                *sim,
                                *tree,
                                false,
                            );
                        }
                        return failed;
                    },
                };
                let ghost before = *sim;
                let (state, stats) = place_children_connectors(
                    sim,
                    tree,
                    map,
                    factory_id,
                    connector_id,
                    node_id,
                    node.end_pos,
                    end_dist,
                    search_depth,
                );
                let ghost tree1 = *tree;
                tree.set(
                    node_id,
                    ConnectionTreeNode::new(node.building, node.start_pos, node.end_pos, state),
                );
                proof {
                    lemma_kept_twice(old(sim).buildings, committed.buildings, sim.buildings);
                    assert forall|i: int| 0 <= i < tree.nodes@.len() implies ((
                    #[trigger] tree.nodes@[i]).state matches State::Children { start, len }
                        ==> start.0 + len <= tree.nodes@.len()) by {
                        if i != node_id.0 {
                            assert(tree.nodes@[i] == tree1.nodes@[i]);
                        }
                    }
                }
                match state {
                    State::Connected | State::Merged => {
                        proof {
                            lemma_ends_found(
                                a,
                                *map,
                                factory_id,
                                search_depth,
                                committed,
                                Search { sim: *sim, tree: tree1, len: 0, best: None },
                                state,
                                stats,
                                connector_id,
                                *tree,
                            );
                            lemma_routed(
                                *old(sim),
                                *map,
                                factory_id,
                                deposit,
                                search_depth,
                                start,
                                first,
                                n,
                                a,
                                *sim,
                                *tree,
                                true,
                            );
                        }
                        return Ok(());
                    },
                    _ => {},
                }
                best = stats;
                proof {
                    lemma_committed_stopped(
                        a,
                        *map,
                        factory_id,
                        search_depth,
                        committed,
                        Search { sim: *sim, tree: tree1, len: 0, best: None },
                        state,
                        stats,
                        connector_id,
                        Search { sim: *sim, tree: *tree, len: 0, best },
                    );
                }
            },
            State::Children { start: below, len } => {
                best = continue_subtree(sim, tree, map, factory_id, below, len, search_depth);
                proof {
                    lemma_kept_twice(old(sim).buildings, committed.buildings, sim.buildings);
                    lemma_committed_expanded(
                        a,
                        *map,
                        factory_id,
                        search_depth,
                        committed,
                        connector_id,
                        Search { sim: *sim, tree: *tree, len: 0, best },
                    );
                }
            },
        }
        proof {
            lemma_commits_more(
                first,
                *map,
                factory_id,
                search_depth,
                n + 1,
                a,
                Search { sim: *sim, tree: *tree, len: 0, best },
            );
        }
    }
    proof {
        let a = Search { sim: *sim, tree: *tree, len: 0, best };
        lemma_routed(
            *old(sim),
            *map,
            factory_id,
            deposit,
            search_depth,
            start,
            first,
            total as int,
            a,
            *sim,
            *tree,
            false,
        );
    }
    failed
}

/// The factory of `product_stats` at the position of `factory_stats` could
/// not be placed on `sim`, for the reason `e`.
pub open spec fn factory_fails(
    sim: Sim,
    product_stats: ProductStats,
    factory_stats: FactoryStats,
    e: crate::error::Error,
) -> bool {
    let factory = Building::Factory(
        Factory { pos: factory_stats.pos, product_type: product_stats.product_type },
    );
    if !factory.spec_representable() {
        e == crate::error::Error::OutOfBounds(factory_stats.pos)
    } else {
        exists|on: Sim, after: Sim|
            on.same_as(sim) && #[trigger] placed(
                on,
                factory,
                Err::<Id, crate::error::Error>(e),
                after,
            )
    }
}

/// The scene `scene` holds every building of `sim`, and the factory.
pub open spec fn extends(
    sim: Sim,
    product_stats: ProductStats,
    factory_stats: FactoryStats,
    scene: Sim,
) -> bool {
    kept(sim.buildings, scene.buildings) && has_factory(sim, product_stats, factory_stats, scene)
}

/// The scene `scene` holds the factory of `product_stats` at the position
/// of `factory_stats`, under the first identifier that was free in `sim`.
pub open spec fn has_factory(
    sim: Sim,
    product_stats: ProductStats,
    factory_stats: FactoryStats,
    scene: Sim,
) -> bool {
    let id = Id(crate::building::first_free(sim.buildings.values@) as u16);
    scene.buildings.live(id) && scene.buildings.spec_get(id) == Building::Factory(
        Factory { pos: factory_stats.pos, product_type: product_stats.product_type },
    )
}

/// A scene that keeps the buildings of one that extends `sim` extends it
/// too.
pub proof fn lemma_extends(
    sim: Sim,
    product_stats: ProductStats,
    factory_stats: FactoryStats,
    a: Sim,
    b: Sim,
)
    requires
        extends(sim, product_stats, factory_stats, a),
        kept(a.buildings, b.buildings),
    ensures
        extends(sim, product_stats, factory_stats, b),
{
    lemma_kept_twice(sim.buildings, a.buildings, b.buildings);
}

/// A copy of a scene that extends `sim` extends it too.
pub proof fn lemma_extends_same(
    sim: Sim,
    product_stats: ProductStats,
    factory_stats: FactoryStats,
    a: Sim,
    b: Sim,
)
    requires
        extends(sim, product_stats, factory_stats, a),
        b.same_as(a),
    ensures
        extends(sim, product_stats, factory_stats, b),
{
    assert(kept(a.buildings, b.buildings));
    lemma_extends(sim, product_stats, factory_stats, a, b);
}

/// Builds a scene in which a factory at the position of `factory_stats`
/// makes the product of `product_stats`, and runs it.
///
/// The factory is placed on a copy of `sim`. Then the deposits in reach are
/// connected to it in turn, again and again; see `route_deposit`. After
/// each deposit that was connected the scene is run. The search ends when
/// a whole round over the deposits connects none, when twelve scenes in a
/// row have not improved on the one before, or after as many tries as the
/// board has cells for each deposit. The result is the last scene that was
/// run, with its outcome.
///
/// Fails with the placement error if the factory cannot be placed, and with
/// `NoSolution` if no deposit could be connected.
pub fn connect_deposits_and_factory(
    sim: &Sim,
    tree: &mut ConnectionTree,
    product_stats: &ProductStats,
    factory_stats: &FactoryStats,
    search_depth: u8,
) -> (res: Result<(Sim, SimRun), Error>)
    requires
        sim.wf(),
        sim.buildings.has_room(),
        search_depth > 0,
    ensures
        final(tree).wf(),
        match res {
            Ok((scene, run)) => {
                &&& scene.wf()
                &&& carried(*sim, scene)
                &&& run_model(scene) == Some(run)
                &&& kept(sim.buildings, scene.buildings)
                &&& has_factory(*sim, *product_stats, *factory_stats, scene)
            },
            Err(Error::Sim(e)) => factory_fails(*sim, *product_stats, *factory_stats, e),
            Err(Error::NoSolution) => true,
            Err(Error::NoPath(_, _, _)) => false,
        },
        connected(*sim, *product_stats, *factory_stats, search_depth, res),
{
    *tree = ConnectionTree::new();
    let mut work = sim.duplicate();
    let factory = Building::Factory(Factory::new(factory_stats.pos, product_stats.product_type));
    if !factory.representable() {
        return Err(Error::Sim(crate::error::Error::OutOfBounds(factory_stats.pos)));
    }
    let ghost start = work;
    let factory_id = match place_building(&mut work, factory) {
        Ok(id) => id,
        Err(e) => {
            proof {
                lemma_connected(
                    *sim,
                    *product_stats,
                    *factory_stats,
                    search_depth,
                    start,
                    work,
                    Err(e),
                    arbitrary(),
                    Err(Error::Sim(e)),
                );
            }
            return Err(Error::Sim(e));
        },
    };
    let map = map_distances(&work, factory_stats.pos, 5, 5);
    let ghost with = work;
    let deposits = factory_stats.deposits_in_reach.len();
    if deposits == 0 {
        proof {
            lemma_connected(
                *sim,
                *product_stats,
                *factory_stats,
                search_depth,
                start,
                with,
                Ok(factory_id),
                map,
                Err(Error::NoSolution),
            );
        }
        return Err(Error::NoSolution);
    }
    proof {
        assert(work.board.width as int * work.board.height as int <= 10000) by (nonlinear_arith)
            requires
                0 <= work.board.width <= 100,
                0 <= work.board.height <= 100,
        ;
    }
    let rounds: usize = work.board.width as usize * work.board.height as usize + 1;
    let mut last: Option<(Sim, SimRun)> = None;
    let mut non_improvements: u32 = 0;
    let mut round: usize = 0;
    let ghost first = Tour { work, last: None, stale: 0, errors: 0 };
    let ghost mut at = first;
    proof {
        lemma_rounds_none(
            first,
            map,
            factory_id,
            *product_stats,
            *factory_stats,
            search_depth,
        );
    }
    while round < rounds
        invariant
            round <= rounds,
            rounds == with.board.width * with.board.height + 1,
            factory_of(*product_stats, *factory_stats).spec_representable(),
            start.same_as(*sim),
            placed(
                start,
                factory_of(*product_stats, *factory_stats),
                Ok::<Id, crate::error::Error>(factory_id),
                with,
            ),
            crate::distance::is_distance_map(with, factory_stats.pos, 5, 5, map),
            first == (Tour { work: with, last: None, stale: 0, errors: 0 }),
            rounds_made(
                first,
                map,
                factory_id,
                *product_stats,
                *factory_stats,
                search_depth,
                round as int,
                at,
            ),
            at.work == work,
            at.last == last,
            at.stale == non_improvements,
            deposits == factory_stats.deposits_in_reach@.len(),
            deposits > 0,
            search_depth > 0,
            sim.wf(),
            searching(work, *tree, map),
            carried(*sim, work),
            extends(*sim, *product_stats, *factory_stats, work),
            non_improvements < MAX_NON_IMPROVEMENTS,
            last matches Some((scene, run)) ==> scene.wf() && carried(*sim, scene) && run_model(
                scene,
            ) == Some(run) && extends(*sim, *product_stats, *factory_stats, scene),
        decreases rounds - round,
    {
        let mut errors: usize = 0;
        let mut i: usize = 0;
        let ghost begin = reset(at);
        proof {
            lemma_round_none(
                begin,
                map,
                factory_id,
                *product_stats,
                *factory_stats,
                search_depth,
            );
        }
        while i < deposits
            invariant
                i <= deposits,
                rounds == with.board.width * with.board.height + 1,
                factory_of(*product_stats, *factory_stats).spec_representable(),
                start.same_as(*sim),
                placed(
                    start,
                    factory_of(*product_stats, *factory_stats),
                    Ok::<Id, crate::error::Error>(factory_id),
                    with,
                ),
                crate::distance::is_distance_map(with, factory_stats.pos, 5, 5, map),
                first == (Tour { work: with, last: None, stale: 0, errors: 0 }),
                rounds_made(
                    first,
                    map,
                    factory_id,
                    *product_stats,
                    *factory_stats,
                    search_depth,
                    round as int,
                    at,
                ),
                round < rounds,
                begin == reset(at),
                round_tried(
                    begin,
                    map,
                    factory_id,
                    *product_stats,
                    *factory_stats,
                    search_depth,
                    i as int,
                    (Tour { work, last, stale: non_improvements, errors: errors as int }),
                ),
                errors <= i,
                deposits == factory_stats.deposits_in_reach@.len(),
                search_depth > 0,
                sim.wf(),
                searching(work, *tree, map),
                carried(*sim, work),
                extends(*sim, *product_stats, *factory_stats, work),
                non_improvements < MAX_NON_IMPROVEMENTS,
                last matches Some((scene, run)) ==> scene.wf() && carried(*sim, scene)
                    && run_model(scene) == Some(run) && extends(
                    *sim,
                    *product_stats,
                    *factory_stats,
                    scene,
                ),
            decreases deposits - i,
        {
            let ghost a = Tour { work, last, stale: non_improvements, errors: errors as int };
            let ghost mut tried = false;
            let idx = factory_stats.deposits_in_reach[i].idx;
            let mut outcome: Option<(Sim, SimRun)> = None;
            if idx < product_stats.deposit_stats.len() {
                let deposit_id = product_stats.deposit_stats[idx].id;
                if work.buildings.contains(deposit_id) {
                    if let Building::Deposit(deposit) = work.buildings.get(deposit_id) {
                        let ghost unrouted = work;
                        let route = route_deposit(
                            &mut work,
                            tree,
                            &map,
                            factory_id,
                            deposit_id,
                            deposit,
                            factory_stats.pos,
                            search_depth,
                        );
                        proof {
                            lemma_extends(*sim, *product_stats, *factory_stats, unrouted, work);
                        }
                        let ghost mut copy = work;
                        if route.is_ok() {
                            let scene = work.duplicate();
                            proof {
                                lemma_extends_same(
                                    *sim,
                                    *product_stats,
                                    *factory_stats,
                                    work,
                                    scene,
                                );
                                copy = scene;
                            }
                            if let Some(run) = try_run(&scene) {
                                outcome = Some((scene, run));
                            }
                        }
                        proof {
                            lemma_attempt_made(
                                unrouted,
                                map,
                                factory_id,
                                *product_stats,
                                *factory_stats,
                                search_depth,
                                i as int,
                                work,
                                *tree,
                                route is Ok,
                                copy,
                                outcome,
                            );
                            tried = true;
                        }
                    }
                }
            }
            let ghost after = work;
            let ghost result = outcome;
            proof {
                if !tried {
                    lemma_attempt_none(
                        a.work,
                        map,
                        factory_id,
                        *product_stats,
                        *factory_stats,
                        search_depth,
                        i as int,
                    );
                }
            }
            match outcome {
                Some((scene, new)) => {
                    let improved = match &last {
                        Some((_, before)) => new.better_than(before),
                        None => true,
                    };
                    if improved {
                        non_improvements = 0;
                    } else {
                        non_improvements += 1;
                        if non_improvements == MAX_NON_IMPROVEMENTS {
                            let found = match last {
                                Some(found) => Ok(found),
                                None => Err(Error::NoSolution),
                            };
                            proof {
                                lemma_tried_out(
                                    a,
                                    map,
                                    factory_id,
                                    *product_stats,
                                    *factory_stats,
                                    search_depth,
                                    i as int,
                                    after,
                                    result,
                                );
                                lemma_toured(
                                    with,
                                    map,
                                    factory_id,
                                    *product_stats,
                                    *factory_stats,
                                    search_depth,
                                    round as int,
                                    at,
                                    i as int,
                                    a,
                                    found,
                                );
                                lemma_connected(
                                    *sim,
                                    *product_stats,
                                    *factory_stats,
                                    search_depth,
                                    start,
                                    with,
                                    Ok(factory_id),
                                    map,
                                    found,
                                );
                            }
                            return found;
                        }
                    }
                    last = Some((scene, new));
                },
                None => {
                    errors += 1;
                    if let Some((scene, _)) = &last {
                        work = scene.duplicate();
                        proof {
                            lemma_extends_same(
                                *sim,
                                *product_stats,
                                *factory_stats,
                                *scene,
                                work,
                            );
                        }
                    }
                },
            }
            proof {
                let b = Tour { work, last, stale: non_improvements, errors: errors as int };
                lemma_tried_on(
                    a,
                    map,
                    factory_id,
                    *product_stats,
                    *factory_stats,
                    search_depth,
                    i as int,
                    after,
                    result,
                    b,
                );
                lemma_round_more(
                    begin,
                    map,
                    factory_id,
                    *product_stats,
                    *factory_stats,
                    search_depth,
                    i as int + 1,
                    a,
                    b,
                );
            }
            i += 1;
        }
        let ghost done = Tour { work, last, stale: non_improvements, errors: errors as int };
        if errors == deposits {
            let found = match last {
                Some(found) => Ok(found),
                None => Err(Error::NoSolution),
            };
            proof {
                lemma_toured(
                    with,
                    map,
                    factory_id,
                    *product_stats,
                    *factory_stats,
                    search_depth,
                    round as int,
                    at,
                    deposits as int,
                    done,
                    found,
                );
                lemma_connected(
                    *sim,
                    *product_stats,
                    *factory_stats,
                    search_depth,
                    start,
                    with,
                    Ok(factory_id),
                    map,
                    found,
                );
            }
            return found;
        }
        proof {
            lemma_rounds_more(
                first,
                map,
                factory_id,
                *product_stats,
                *factory_stats,
                search_depth,
                round as int + 1,
                at,
                done,
            );
            at = done;
        }
        round += 1;
    }
    let found = match last {
        Some(found) => Ok(found),
        None => Err(Error::NoSolution),
    };
    proof {
        lemma_toured(
            with,
            map,
            factory_id,
            *product_stats,
            *factory_stats,
            search_depth,
            round as int,
            at,
            0,
            at,
            found,
        );
        lemma_connected(
            *sim,
            *product_stats,
            *factory_stats,
            search_depth,
            start,
            with,
            Ok(factory_id),
            map,
            found,
        );
    }
    found
}

} // verus!
