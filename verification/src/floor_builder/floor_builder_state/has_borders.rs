//! The stage of a builder that knows the borders of its caves.

use crate::border::{Border, BorderId};
use crate::floor_builder::floor_builder_state::has_connections::HasConnections;
use crate::floor_builder::floor_builder_state::random_filled::lemma_index_of_grid_point;
use crate::floor_builder::floor_builder_state::FloorBuilderState;
use crate::floor_builder::graph::{
    component_count, connected, edge_key, graph_add_edge, is_chain, is_smallest_of_component, graph_add_node, graph_component_count,
    graph_contains_edge, graph_edges, graph_neighbors, graph_new, graph_nodes,
    graph_spanning_forest,
};
use crate::floor_builder::{in_grid, on_largest_floor, out_of_bounds, FloorBuilder};
use crate::point::Point;
use crate::point_index::{
    grid_index, grid_point, lemma_grid_index_bounds, lemma_grid_point_of_index, PointIndex,
};
use crate::{squared_distance, squared_distance_between, Connection};
use petgraph::graphmap::GraphMap;
use petgraph::Undirected;
use std::collections::hash_map::RandomState;
use vstd::prelude::*;

verus! {

/// A builder in this stage holds the borders of the caves of its floor.
#[derive(Debug)]
pub struct HasBorders {
    /// The borders, each with an id of its own.
    pub borders: Vec<Border>,
}

impl FloorBuilderState for HasBorders {

}

/// How long the search for connections between the caves goes on.
#[derive(Debug, Clone, Copy)]
pub enum BuildConnectionIterations {
    /// Until the caves are all joined. Where the borders run out before,
    /// the search starts over with the first of them.
    FullyConnect,
    /// Until the border with this number has been dealt with, or the
    /// borders run out.
    Finite(u8),
    /// Until at most this many groups of joined caves are left. Where the
    /// borders run out before, the search starts over with the first of
    /// them.
    Until(u8),
}

impl HasBorders {
    /// Every border lists its points once, holds at least one, and all of
    /// them lie inside the rim of the floor; and no two borders share an id.
    pub open spec fn wf(self, w: int, h: int) -> bool {
        &&& forall|i: int|
            0 <= i < self.borders@.len() ==> {
                &&& (#[trigger] self.borders@[i]).wf()
                &&& self.borders@[i].points@.len() > 0
                &&& forall|k: int|
                    0 <= k < self.borders@[i].points@.len() ==> !out_of_bounds(
                        #[trigger] self.borders@[i].points@[k],
                        w,
                        h,
                    )
            }
        &&& forall|i: int, j: int|
            0 <= i < j < self.borders@.len() ==> (#[trigger] self.borders@[i]).id
                != (#[trigger] self.borders@[j]).id
    }
}

/// The border to which `point` is counted: the last of the borders that
/// holds it, or none.
pub open spec fn owner_of(borders: Seq<Border>, point: Point) -> Option<BorderId>
    decreases borders.len(),
{
    if borders.len() == 0 {
        None
    } else if borders.last().points@.contains(point) {
        Some(borders.last().id)
    } else {
        owner_of(borders.drop_last(), point)
    }
}

/// A point that is counted to a border lies on one of the borders.
pub proof fn lemma_owner_is_border(borders: Seq<Border>, point: Point)
    requires
        owner_of(borders, point) is Some,
    ensures
        exists|b: int|
            0 <= b < borders.len() && (#[trigger] borders[b]).points@.contains(point)
                && borders[b].id == owner_of(borders, point)->Some_0,
    decreases borders.len(),
{
    if borders.last().points@.contains(point) {
        assert(borders[borders.len() - 1].points@.contains(point));
    } else {
        lemma_owner_is_border(borders.drop_last(), point);
        let b = choose|b: int|
            0 <= b < borders.drop_last().len() && (#[trigger] borders.drop_last()[b]).points@.contains(
                point,
            ) && borders.drop_last()[b].id == owner_of(borders.drop_last(), point)->Some_0;
        assert(borders[b] == borders.drop_last()[b]);
    }
}

/// Whether `c` could join the border `current` to another: it leads from a
/// point of `current` to a point that is counted to another border, one
/// that `current` is not joined to yet, and it knows the square of its
/// length.
pub open spec fn is_candidate(
    c: Connection,
    current: Border,
    owners: Seq<Option<BorderId>>,
    already_connected: Seq<usize>,
    w: int,
    h: int,
) -> bool {
    &&& c.from.1 == current.id
    &&& current.points@.contains(c.from.0)
    &&& in_grid(c.to.0, w, h)
    &&& on_largest_floor(c.to.0)
    &&& owners[grid_index(c.to.0, w)] == Some(c.to.1)
    &&& c.to.1 != current.id
    &&& !already_connected.contains(c.to.1.value())
    &&& c.distance == squared_distance(c.to.0, c.from.0)
}

/// Whether the search for connections ends after the border with the
/// number `acc`, when `components` groups of joined caves are left.
pub open spec fn stops(iterations: BuildConnectionIterations, acc: int, components: int) -> bool {
    match iterations {
        BuildConnectionIterations::FullyConnect => components == 1,
        BuildConnectionIterations::Finite(amount) => acc == amount,
        BuildConnectionIterations::Until(until) => components <= until,
    }
}

/// Whether the search starts over with the first border where the borders
/// run out before it ends.
pub open spec fn repeats(iterations: BuildConnectionIterations) -> bool {
    !(iterations is Finite)
}

/// Whether the search starts over with the first border where the borders
/// run out before it ends.
pub fn starts_over(iterations: BuildConnectionIterations) -> (r: bool)
    ensures
        r == repeats(iterations),
{
    match iterations {
        BuildConnectionIterations::FullyConnect => true,
        BuildConnectionIterations::Finite(_) => false,
        BuildConnectionIterations::Until(_) => true,
    }
}

/// Whether `groups` is a number of groups of joined caves that the search
/// may leave: a search that is to go on until at most so many groups are
/// left, one or more, leaves no more.
pub open spec fn few_enough(iterations: BuildConnectionIterations, groups: int) -> bool {
    match iterations {
        BuildConnectionIterations::Until(until) => until >= 1 ==> groups <= until,
        _ => true,
    }
}

/// Whether the search for connections ends after the border with the
/// number `acc`, when `components` groups of joined caves are left.
pub fn should_stop(iterations: BuildConnectionIterations, acc: usize, components: usize) -> (r:
    bool)
    ensures
        r == stops(iterations, acc as int, components as int),
{
    match iterations {
        BuildConnectionIterations::FullyConnect => components == 1,
        BuildConnectionIterations::Finite(amount) => acc == amount as usize,
        BuildConnectionIterations::Until(until) => components <= until as usize,
    }
}

/// The edge that a connection adds to the graph of the borders: the pair
/// of the numbers of the two borders that it joins.
pub open spec fn edge_of(connection: Connection) -> (usize, usize) {
    edge_key(connection.from.1.value(), connection.to.1.value())
}

/// The edges that the connections add to the graph of the borders.
pub open spec fn edges_of(made: Seq<Connection>) -> Set<(usize, usize)> {
    Set::new(|e: (usize, usize)| exists|i: int| 0 <= i < made.len() && edge_of(#[trigger] made[i]) == e)
}

/// The numbers of the borders: the nodes of their graph.
pub open spec fn border_ids(borders: Seq<Border>) -> Set<usize> {
    Set::new(
        |n: usize| exists|i: int| 0 <= i < borders.len() && (#[trigger] borders[i]).id.value() == n,
    )
}

/// Whether `connection` runs along an edge of the graph with the given
/// edges.
pub open spec fn runs_along(edges: Set<(usize, usize)>, connection: Connection) -> bool {
    edges.contains(edge_of(connection))
}

/// The connections that run along an edge of `forest`, in their order.
pub open spec fn pruned_by(made: Seq<Connection>, forest: Set<(usize, usize)>) -> Seq<Connection> {
    made.filter(|c: Connection| runs_along(forest, c))
}

/// Whether `forest` is a spanning forest of the graph with the given
/// nodes and edges: it takes its edges from the graph, connects what the
/// graph connects, and holds no edge that it could do without, that is, no
/// edge whose two ends the other edges of the forest connect. It then has
/// as many edges as the graph has nodes, less one for each connected
/// component.
pub open spec fn is_spanning_forest(
    forest: Set<(usize, usize)>,
    nodes: Set<usize>,
    edges: Set<(usize, usize)>,
) -> bool {
    &&& forest.subset_of(edges)
    &&& forall|a: usize, b: usize| #[trigger]
        connected(forest, a, b) <==> connected(edges, a, b)
    &&& forall|e: (usize, usize)| #[trigger]
        forest.contains(e) ==> !connected(forest.remove(e), e.0, e.1)
    &&& nodes.finite()
    &&& forest.finite()
    &&& forest.len() + component_count(nodes, edges) == nodes.len()
}

/// Whether `c` could join the border `current` to another, when the graph
/// of the borders has the given edges: it leads from a point of `current`
/// to a point that is counted to another border, one that no edge joins to
/// `current` yet, and it knows the square of its length.
pub open spec fn may_join(
    c: Connection,
    current: Border,
    borders: Seq<Border>,
    edges: Set<(usize, usize)>,
    w: int,
    h: int,
) -> bool {
    &&& c.from.1 == current.id
    &&& current.points@.contains(c.from.0)
    &&& in_grid(c.to.0, w, h)
    &&& on_largest_floor(c.to.0)
    &&& owner_of(borders, c.to.0) == Some(c.to.1)
    &&& c.to.1 != current.id
    &&& !edges.contains(edge_of(c))
    &&& c.distance == squared_distance(c.to.0, c.from.0)
}

/// Whether `c` is as short as any connection that could join `current` to
/// another border.
pub open spec fn is_closest(
    c: Connection,
    current: Border,
    borders: Seq<Border>,
    edges: Set<(usize, usize)>,
    w: int,
    h: int,
) -> bool {
    may_join(c, current, borders, edges, w, h) && forall|o: Connection| #[trigger]
        may_join(o, current, borders, edges, w, h) ==> c.distance <= o.distance
}

/// Whether the search ends with its `n`th step, when the connections
/// `made` have been found.
pub open spec fn stopped(
    borders: Seq<Border>,
    iterations: BuildConnectionIterations,
    made: Seq<Connection>,
    n: nat,
) -> bool {
    n > 0 && stops(
        iterations,
        n - 1,
        component_count(border_ids(borders), edges_of(made)) as int,
    )
}

/// The border that the search deals with in its `n`th step: one border
/// after the other, and the first again after the last.
pub open spec fn turn_of(borders: Seq<Border>, n: nat) -> Border {
    borders[(n - 1) % (borders.len() as int)]
}

/// Whether `made` can be what the search has found in `n` steps, none of
/// which but the last ended it. Each step deals with one border and adds,
/// at the end, a connection that is as short as any that could join the
/// border to one it shares no edge with; a border that nothing can be
/// joined to adds nothing.
pub open spec fn searched(
    borders: Seq<Border>,
    iterations: BuildConnectionIterations,
    w: int,
    h: int,
    made: Seq<Connection>,
    n: nat,
) -> bool
    decreases n,
{
    if n == 0 {
        made.len() == 0
    } else {
        let current = turn_of(borders, n);
        ||| {
            &&& made.len() > 0
            &&& is_closest(made.last(), current, borders, edges_of(made.drop_last()), w, h)
            &&& searched(borders, iterations, w, h, made.drop_last(), (n - 1) as nat)
            &&& !stopped(borders, iterations, made.drop_last(), (n - 1) as nat)
        }
        ||| {
            &&& forall|o: Connection| !#[trigger] may_join(o, current, borders, edges_of(made), w, h)
            &&& searched(borders, iterations, w, h, made, (n - 1) as nat)
            &&& !stopped(borders, iterations, made, (n - 1) as nat)
        }
    }
}

/// Whether none of the first `upto` borders has a connection to a border
/// that it shares no edge with.
pub open spec fn rests(
    borders: Seq<Border>,
    made: Seq<Connection>,
    w: int,
    h: int,
    upto: int,
) -> bool {
    forall|i: int, o: Connection|
        0 <= i < upto ==> !#[trigger] may_join(o, borders[i], borders, edges_of(made), w, h)
}

/// Whether nothing more can be joined: no border has a connection to a
/// border that it shares no edge with.
pub open spec fn at_rest(borders: Seq<Border>, made: Seq<Connection>, w: int, h: int) -> bool {
    rests(borders, made, w, h, borders.len() as int)
}

/// Whether `result` is `made` without the connections that some spanning
/// forest of the graph of the borders can do without.
pub open spec fn is_pruning_of(
    borders: Seq<Border>,
    made: Seq<Connection>,
    result: Seq<Connection>,
) -> bool {
    exists|forest: Set<(usize, usize)>| #[trigger]
        is_spanning_forest(forest, border_ids(borders), edges_of(made)) && result == pruned_by(
            made,
            forest,
        )
}

/// Whether `result` can be what the search for connections between the
/// borders hands out. The search deals with one border after the other
/// until it ends, and what it has found is then pruned. Where the borders
/// run out before it ends, a search that starts over goes on until nothing
/// more can be joined, and any other is over; what was found is then
/// handed out as it is.
pub open spec fn builds(
    borders: Seq<Border>,
    iterations: BuildConnectionIterations,
    w: int,
    h: int,
    result: Seq<Connection>,
) -> bool {
    exists|made: Seq<Connection>, n: nat|
        {
            &&& #[trigger] searched(borders, iterations, w, h, made, n)
            &&& repeats(iterations) || n <= borders.len()
            &&& if stopped(borders, iterations, made, n) {
                is_pruning_of(borders, made, result)
            } else {
                &&& result == made
                &&& if repeats(iterations) {
                    at_rest(borders, made, w, h)
                } else {
                    n == borders.len()
                }
            }
        }
}

/// Pruning keeps connected what was connected: the borders that the
/// connections found join, in however many steps, are joined by the
/// connections that are left.
pub proof fn lemma_pruning_keeps_connected(
    made: Seq<Connection>,
    nodes: Set<usize>,
    forest: Set<(usize, usize)>,
)
    requires
        is_spanning_forest(forest, nodes, edges_of(made)),
    ensures
        edges_of(pruned_by(made, forest)) == forest,
        forall|a: usize, b: usize| #[trigger]
            connected(edges_of(pruned_by(made, forest)), a, b) <==> connected(
                edges_of(made),
                a,
                b,
            ),
{
    let keep = |c: Connection| runs_along(forest, c);
    let kept = pruned_by(made, forest);
    assert forall|e: (usize, usize)| edges_of(kept).contains(e) == forest.contains(e) by {
        if edges_of(kept).contains(e) {
            let i = choose|i: int| 0 <= i < kept.len() && edge_of(#[trigger] kept[i]) == e;
            made.lemma_filter_contains_rev(keep, kept[i]);
        }
        if forest.contains(e) {
            assert(edges_of(made).contains(e));
            let i = choose|i: int| 0 <= i < made.len() && edge_of(#[trigger] made[i]) == e;
            made.lemma_filter_contains(keep, i);
            let j = choose|j: int| 0 <= j < kept.len() && kept[j] == made[i];
            assert(edge_of(kept[j]) == e);
        }
    }
    assert(edges_of(kept) =~= forest);
}

/// Graphs that connect the same nodes have as many components.
pub proof fn lemma_same_components(
    nodes: Set<usize>,
    first: Set<(usize, usize)>,
    second: Set<(usize, usize)>,
)
    requires
        forall|a: usize, b: usize| #[trigger]
            connected(first, a, b) <==> connected(second, a, b),
    ensures
        component_count(nodes, first) == component_count(nodes, second),
{
    assert forall|n: usize| #[trigger]
        is_smallest_of_component(nodes, first, n) == is_smallest_of_component(nodes, second, n) by {
        if is_smallest_of_component(nodes, first, n) {
            assert forall|m: usize| nodes.contains(m) && #[trigger] connected(second, m, n) implies n
                <= m by {
                assert(connected(first, m, n));
            }
        }
        if is_smallest_of_component(nodes, second, n) {
            assert forall|m: usize| nodes.contains(m) && #[trigger] connected(first, m, n) implies n
                <= m by {
                assert(connected(second, m, n));
            }
        }
    }
    assert(nodes.filter(|n: usize| is_smallest_of_component(nodes, first, n)) =~= nodes.filter(
        |n: usize| is_smallest_of_component(nodes, second, n),
    ));
}

/// Whether no two of the connections join the same two borders.
pub open spec fn joins_differ(made: Seq<Connection>) -> bool {
    forall|i: int, j: int|
        0 <= i < j < made.len() ==> edge_of(#[trigger] made[i]) != edge_of(#[trigger] made[j])
}

/// The search never joins two borders twice: every connection that it
/// makes joins two borders that no connection before it joins.
pub proof fn lemma_searched_joins_differ(
    borders: Seq<Border>,
    iterations: BuildConnectionIterations,
    w: int,
    h: int,
    made: Seq<Connection>,
    n: nat,
)
    requires
        searched(borders, iterations, w, h, made, n),
    ensures
        joins_differ(made),
    decreases n,
{
    if n > 0 {
        let current = turn_of(borders, n);
        if made.len() > 0 && is_closest(
            made.last(),
            current,
            borders,
            edges_of(made.drop_last()),
            w,
            h,
        ) && searched(borders, iterations, w, h, made.drop_last(), (n - 1) as nat) {
            let shorter = made.drop_last();
            lemma_searched_joins_differ(borders, iterations, w, h, shorter, (n - 1) as nat);
            assert forall|i: int, j: int| 0 <= i < j < made.len() implies edge_of(
                #[trigger] made[i],
            ) != edge_of(#[trigger] made[j]) by {
                if j < shorter.len() {
                    assert(shorter[i] == made[i]);
                    assert(shorter[j] == made[j]);
                } else {
                    assert(shorter[i] == made[i]);
                    assert(edges_of(shorter).contains(edge_of(shorter[i])));
                }
            }
        } else {
            lemma_searched_joins_differ(borders, iterations, w, h, made, (n - 1) as nat);
        }
    }
}

/// Connections of which no two join the same two borders add as many
/// edges to the graph of the borders as they are.
pub proof fn lemma_joins_count(made: Seq<Connection>)
    requires
        joins_differ(made),
    ensures
        edges_of(made).finite(),
        edges_of(made).len() == made.len(),
    decreases made.len(),
{
    if made.len() == 0 {
        assert(edges_of(made) =~= Set::<(usize, usize)>::empty());
    } else {
        let shorter = made.drop_last();
        assert forall|i: int, j: int| 0 <= i < j < shorter.len() implies edge_of(
            #[trigger] shorter[i],
        ) != edge_of(#[trigger] shorter[j]) by {
            assert(shorter[i] == made[i]);
            assert(shorter[j] == made[j]);
        }
        lemma_joins_count(shorter);
        lemma_edges_of_push(shorter, made.last());
        assert(shorter.push(made.last()) =~= made);
        if edges_of(shorter).contains(edge_of(made.last())) {
            let i = choose|i: int| 0 <= i < shorter.len() && edge_of(#[trigger] shorter[i]) == edge_of(
                made.last(),
            );
            assert(shorter[i] == made[i]);
            assert(edge_of(made[i]) != edge_of(made[made.len() - 1]));
        }
    }
}

/// Borders of which no two share an id have as many ids as they are.
pub proof fn lemma_border_ids_count(borders: Seq<Border>)
    requires
        forall|i: int, j: int|
            0 <= i < j < borders.len() ==> (#[trigger] borders[i]).id != (#[trigger] borders[j]).id,
    ensures
        border_ids(borders).finite(),
        border_ids(borders).len() == borders.len(),
    decreases borders.len(),
{
    if borders.len() == 0 {
        assert(border_ids(borders) =~= Set::<usize>::empty());
    } else {
        let n = borders.len() - 1;
        let shorter = borders.subrange(0, n);
        assert forall|i: int, j: int| 0 <= i < j < shorter.len() implies (#[trigger] shorter[i]).id
            != (#[trigger] shorter[j]).id by {
            assert(shorter[i] == borders[i]);
            assert(shorter[j] == borders[j]);
        }
        lemma_border_ids_count(shorter);
        lemma_border_ids_push(borders, n);
        assert(borders.subrange(0, n + 1) =~= borders);
        if border_ids(shorter).contains(borders[n].id.value()) {
            let i = choose|i: int|
                0 <= i < shorter.len() && (#[trigger] shorter[i]).id.value() == borders[n].id.value();
            assert(shorter[i] == borders[i]);
            borders[i].id.lemma_value_injective(borders[n].id);
        }
    }
}

/// A search for full connection that ends by being pruned leaves the
/// borders joined as a tree: the connections that are handed out join
/// every border to every other, the two borders of each of them are joined
/// by no run of the others, and there is one connection fewer than there
/// are borders.
pub proof fn lemma_fully_connected_when_pruned(
    borders: Seq<Border>,
    w: int,
    h: int,
    made: Seq<Connection>,
    n: nat,
    result: Seq<Connection>,
)
    requires
        forall|i: int, j: int|
            0 <= i < j < borders.len() ==> (#[trigger] borders[i]).id != (#[trigger] borders[j]).id,
        searched(borders, BuildConnectionIterations::FullyConnect, w, h, made, n),
        stopped(borders, BuildConnectionIterations::FullyConnect, made, n),
        is_pruning_of(borders, made, result),
    ensures
        component_count(border_ids(borders), edges_of(result)) == 1,
        forall|i: int|
            0 <= i < result.len() ==> !connected(
                edges_of(result).remove(edge_of(#[trigger] result[i])),
                edge_of(result[i]).0,
                edge_of(result[i]).1,
            ),
        result.len() + 1 == borders.len(),
{
    let forest = choose|forest: Set<(usize, usize)>| #[trigger]
        is_spanning_forest(forest, border_ids(borders), edges_of(made)) && result == pruned_by(
            made,
            forest,
        );
    lemma_pruning_keeps_connected(made, border_ids(borders), forest);
    lemma_same_components(border_ids(borders), edges_of(result), edges_of(made));
    assert forall|i: int| 0 <= i < result.len() implies !connected(
        edges_of(result).remove(edge_of(#[trigger] result[i])),
        edge_of(result[i]).0,
        edge_of(result[i]).1,
    ) by {
        assert(edges_of(result).contains(edge_of(result[i])));
        assert(forest.contains(edge_of(result[i])));
    }
    lemma_searched_joins_differ(
        borders,
        BuildConnectionIterations::FullyConnect,
        w,
        h,
        made,
        n,
    );
    lemma_pruned_joins_differ(made, forest);
    lemma_joins_count(result);
    lemma_border_ids_count(borders);
}

/// Pruning leaves connections of which no two join the same two borders
/// such connections.
pub proof fn lemma_pruned_joins_differ(made: Seq<Connection>, forest: Set<(usize, usize)>)
    requires
        joins_differ(made),
    ensures
        joins_differ(pruned_by(made, forest)),
    decreases made.len(),
{
    let keep = |c: Connection| runs_along(forest, c);
    if made.len() == 0 {
        assert(made.filter(keep) =~= Seq::<Connection>::empty()) by {
            reveal(Seq::filter);
        }
    } else {
        let shorter = made.drop_last();
        assert forall|i: int, j: int| 0 <= i < j < shorter.len() implies edge_of(
            #[trigger] shorter[i],
        ) != edge_of(#[trigger] shorter[j]) by {
            assert(shorter[i] == made[i]);
            assert(shorter[j] == made[j]);
        }
        lemma_pruned_joins_differ(shorter, forest);
        assert(shorter.push(made.last()) =~= made);
        crate::floor_builder::search::lemma_filter_push(shorter, made.last(), keep);
        let kept = made.filter(keep);
        let before = shorter.filter(keep);
        assert forall|i: int, j: int| 0 <= i < j < kept.len() implies edge_of(#[trigger] kept[i])
            != edge_of(#[trigger] kept[j]) by {
            if j < before.len() {
                assert(kept[i] == before[i]);
                assert(kept[j] == before[j]);
            } else {
                assert(kept[i] == before[i]);
                shorter.lemma_filter_contains_rev(keep, before[i]);
                let m = choose|m: int| 0 <= m < shorter.len() && shorter[m] == before[i];
                assert(made[m] == shorter[m]);
                assert(kept[j] == made[made.len() - 1]);
            }
        }
    }
}

/// Keeps the connections that run along an edge of `forest`, in their
/// order.
pub fn prune_connections(
    connections: Vec<Connection>,
    forest: &GraphMap<usize, (), Undirected, RandomState>,
) -> (r: Vec<Connection>)
    ensures
        r@ == pruned_by(connections@, graph_edges(*forest)),
{
    let ghost keep = |c: Connection| runs_along(graph_edges(*forest), c);
    let mut out: Vec<Connection> = Vec::new();
    let mut i: usize = 0;
    assert(connections@.subrange(0, 0) =~= Seq::<Connection>::empty());
    assert(Seq::<Connection>::empty().filter(keep) =~= Seq::<Connection>::empty());
    while i < connections.len()
        invariant
            0 <= i <= connections.len(),
            keep == |c: Connection| runs_along(graph_edges(*forest), c),
            out@ == connections@.subrange(0, i as int).filter(keep),
        decreases connections.len() - i,
    {
        let c = connections[i];
        proof {
            let before = connections@.subrange(0, i as int);
            assert(connections@.subrange(0, i + 1) == before.push(c));
            crate::floor_builder::search::lemma_filter_push(before, c, keep);
        }
        if graph_contains_edge(forest, c.from.1.index(), c.to.1.index()) {
            out.push(c);
        }
        i += 1;
    }
    assert(connections@.subrange(0, i as int) == connections@);
    out
}

/// Whether the list holds `x`.
pub fn contains_number(list: &Vec<usize>, x: usize) -> (r: bool)
    ensures
        r == list@.contains(x),
{
    let mut i: usize = 0;
    while i < list.len()
        invariant
            0 <= i <= list.len(),
            forall|j: int| 0 <= j < i ==> list@[j] != x,
        decreases list.len() - i,
    {
        if list[i] == x {
            return true;
        }
        i += 1;
    }
    false
}

/// Whether `c` joins two borders where they are closest: it leads from a
/// point of one border to a point that is counted to another, and no point
/// of the first border lies closer to a point counted to the second.
pub open spec fn joins_closest(c: Connection, borders: Seq<Border>, w: int, h: int) -> bool {
    exists|b: int|
        {
            &&& 0 <= b < borders.len()
            &&& (#[trigger] borders[b]).id == c.from.1
            &&& borders[b].points@.contains(c.from.0)
            &&& in_grid(c.to.0, w, h)
            &&& owner_of(borders, c.to.0) == Some(c.to.1)
            &&& c.to.1 != c.from.1
            &&& c.distance == squared_distance(c.to.0, c.from.0)
            &&& forall|from: Point, to: Point|
                borders[b].points@.contains(from) && in_grid(to, w, h) && on_largest_floor(to)
                    && #[trigger] owner_of(borders, to) == Some(c.to.1) ==> c.distance
                    <= #[trigger] squared_distance(to, from)
        }
}

impl<S: FloorBuilderState> FloorBuilder<S> {
    /// For each tile, the border to which it is counted: the last of the
    /// borders that holds it.
    pub fn border_owners(&self, borders: &Vec<Border>) -> (r: Vec<Option<BorderId>>)
        requires
            self.wf(),
            forall|i: int, k: int|
                0 <= i < borders@.len() && 0 <= k < borders@[i].points@.len() ==> in_grid(
                    #[trigger] borders@[i].points@[k],
                    self.w(),
                    self.h(),
                ),
        ensures
            r@.len() == self.w() * self.h(),
            forall|i: int|
                0 <= i < r@.len() ==> #[trigger] r@[i] == owner_of(borders@, grid_point(i, self.w())),
    {
        let ghost w = self.w();
        let ghost h = self.h();
        let size: usize = self.map.len();
        let mut owners: Vec<Option<BorderId>> = Vec::new();
        let mut filled: usize = 0;
        while filled < size
            invariant
                0 <= filled <= size,
                owners@.len() == filled,
                forall|i: int| 0 <= i < filled ==> #[trigger] owners@[i] == None::<BorderId>,
            decreases size - filled,
        {
            owners.push(None);
            filled += 1;
        }
        let mut n: usize = 0;
        assert(borders@.subrange(0, 0) =~= Seq::<Border>::empty());
        while n < borders.len()
            invariant
                0 <= n <= borders.len(),
                self.wf(),
                w == self.w(),
                h == self.h(),
                owners@.len() == w * h,
                forall|i: int, k: int|
                    0 <= i < borders@.len() && 0 <= k < borders@[i].points@.len() ==> in_grid(
                        #[trigger] borders@[i].points@[k],
                        w,
                        h,
                    ),
                forall|i: int|
                    0 <= i < owners@.len() ==> #[trigger] owners@[i] == owner_of(
                        borders@.subrange(0, n as int),
                        grid_point(i, w),
                    ),
            decreases borders.len() - n,
        {
            let border = &borders[n];
            let ghost before = borders@.subrange(0, n as int);
            let ghost after = borders@.subrange(0, n + 1);
            proof {
                assert(after.drop_last() == before);
                assert(after.last() == borders@[n as int]);
            }
            let mut m: usize = 0;
            while m < border.points.len()
                invariant
                    0 <= m <= border.points.len(),
                    self.wf(),
                    w == self.w(),
                    h == self.h(),
                    owners@.len() == w * h,
                    n < borders@.len(),
                    *border == borders@[n as int],
                    forall|k: int|
                        0 <= k < border.points@.len() ==> in_grid(#[trigger] border.points@[k], w, h),
                    forall|i: int|
                        0 <= i < owners@.len() ==> #[trigger] owners@[i] == if border.points@.subrange(
                            0,
                            m as int,
                        ).contains(grid_point(i, w)) {
                            Some(border.id)
                        } else {
                            owner_of(before, grid_point(i, w))
                        },
                decreases border.points.len() - m,
            {
                let point = border.points[m];
                let ghost shorter = border.points@.subrange(0, m as int);
                let ghost longer = border.points@.subrange(0, m + 1);
                proof {
                    assert(longer == shorter.push(point));
                    lemma_grid_index_bounds(point, w, h);
                    lemma_grid_point_of_index(point, w);
                }
                let width = self.width;
                *owners.at_mut(point, width) = Some(border.id);
                proof {
                    assert forall|i: int| 0 <= i < owners@.len() implies #[trigger] owners@[i]
                        == if longer.contains(grid_point(i, w)) {
                        Some(border.id)
                    } else {
                        owner_of(before, grid_point(i, w))
                    } by {
                        let target = grid_point(i, w);
                        lemma_index_of_grid_point(i, w, h);
                        if shorter.contains(target) {
                            let j = choose|j: int| 0 <= j < shorter.len() && shorter[j] == target;
                            assert(longer[j] == target);
                        }
                        if i == grid_index(point, w) {
                            assert(longer[m as int] == point);
                        }
                        if longer.contains(target) && !shorter.contains(target) {
                            let j = choose|j: int| 0 <= j < longer.len() && longer[j] == target;
                            if j < m {
                                assert(shorter[j] == target);
                            }
                        }
                    }
                }
                m += 1;
            }
            assert(border.points@.subrange(0, m as int) == border.points@);
            n += 1;
        }
        assert(borders@.subrange(0, n as int) == borders@);
        owners
    }

    /// The connection of the fewest tiles that could join `current` to
    /// another border, or `None` where nothing can be joined to it.
    pub fn closest_connection(
        &self,
        current: &Border,
        owners: &Vec<Option<BorderId>>,
        already_connected: &Vec<usize>,
    ) -> (r: Option<Connection>)
        requires
            self.wf(),
            owners@.len() == self.w() * self.h(),
        ensures
            r matches Some(c) ==> is_candidate(
                c,
                *current,
                owners@,
                already_connected@,
                self.w(),
                self.h(),
            ) && forall|o: Connection| #[trigger]
                is_candidate(o, *current, owners@, already_connected@, self.w(), self.h())
                    ==> c.distance <= o.distance,
            r is None ==> forall|o: Connection|
                !#[trigger] is_candidate(o, *current, owners@, already_connected@, self.w(), self.h()),
    {
        let w: i32 = self.width.as_unbounded();
        let h: i32 = self.height.as_unbounded();
        let mut best: Option<Connection> = None;
        let mut row: i32 = 0;
        while row < h
            invariant
                0 <= row <= h,
                self.wf(),
                w == self.w(),
                h == self.h(),
                owners@.len() == w * h,
                best matches Some(c) ==> is_candidate(
                    c,
                    *current,
                    owners@,
                    already_connected@,
                    w as int,
                    h as int,
                ),
                forall|o: Connection| #[trigger]
                    is_candidate(o, *current, owners@, already_connected@, w as int, h as int)
                        && o.to.0.r() < row ==> best is Some && best->Some_0.distance <= o.distance,
            decreases h - row,
        {
            let mut column: i32 = 0;
            while column < w
                invariant
                    0 <= row < h,
                    0 <= column <= w,
                    self.wf(),
                    w == self.w(),
                    h == self.h(),
                    owners@.len() == w * h,
                    best matches Some(c) ==> is_candidate(
                        c,
                        *current,
                        owners@,
                        already_connected@,
                        w as int,
                        h as int,
                    ),
                    forall|o: Connection| #[trigger]
                        is_candidate(o, *current, owners@, already_connected@, w as int, h as int)
                            && (o.to.0.r() < row || (o.to.0.r() == row && o.to.0.c() < column))
                            ==> best is Some && best->Some_0.distance <= o.distance,
                decreases w - column,
            {
                let point = Point::at_coordinates(row, column);
                proof {
                    lemma_grid_index_bounds(point, w as int, h as int);
                }
                let width = self.width;
                let owner = *owners.at(point, width);
                let id = match owner {
                    Some(id) => id,
                    None => BorderId::new(0),
                };
                if owner.is_some() && id != current.id && !contains_number(
                    already_connected,
                    id.index(),
                ) {
                    let mut m: usize = 0;
                    while m < current.points.len()
                        invariant
                            0 <= m <= current.points.len(),
                            0 <= row < h,
                            0 <= column < w,
                            self.wf(),
                            w == self.w(),
                            h == self.h(),
                            owners@.len() == w * h,
                            point == Point::of(row as int, column as int),
                            point.r() == row,
                            point.c() == column,
                            owners@[grid_index(point, w as int)] == Some(id),
                            id != current.id,
                            !already_connected@.contains(id.value()),
                            best matches Some(c) ==> is_candidate(
                                c,
                                *current,
                                owners@,
                                already_connected@,
                                w as int,
                                h as int,
                            ),
                            forall|o: Connection| #[trigger]
                                is_candidate(
                                    o,
                                    *current,
                                    owners@,
                                    already_connected@,
                                    w as int,
                                    h as int,
                                ) && (o.to.0.r() < row || (o.to.0.r() == row && o.to.0.c() < column)
                                    || (o.to.0 == point && current.points@.subrange(
                                    0,
                                    m as int,
                                ).contains(o.from.0))) ==> best is Some && best->Some_0.distance
                                    <= o.distance,
                        decreases current.points.len() - m,
                    {
                        let from = current.points[m];
                        let distance = squared_distance_between(point, from);
                        let ghost shorter = current.points@.subrange(0, m as int);
                        let ghost longer = current.points@.subrange(0, m + 1);
                        let ghost earlier = best;
                        let replace = match best {
                            Some(found) => !(found.distance < distance),
                            None => true,
                        };
                        if replace {
                            best = Some(
                                Connection { distance, from: (from, current.id), to: (point, id) },
                            );
                        }
                        proof {
                            assert(longer == shorter.push(from));
                            assert(current.points@.contains(from));
                            assert forall|o: Connection| #[trigger]
                                is_candidate(
                                    o,
                                    *current,
                                    owners@,
                                    already_connected@,
                                    w as int,
                                    h as int,
                                ) && (o.to.0.r() < row || (o.to.0.r() == row && o.to.0.c() < column)
                                    || (o.to.0 == point && longer.contains(
                                    o.from.0,
                                ))) implies best is Some && best->Some_0.distance <= o.distance by {
                                if o.to.0 == point && longer.contains(o.from.0) && !shorter.contains(
                                    o.from.0,
                                ) {
                                    let j = choose|j: int|
                                        0 <= j < longer.len() && longer[j] == o.from.0;
                                    if j < m {
                                        assert(shorter[j] == o.from.0);
                                    }
                                    assert(o.from.0 == from);
                                }
                            }
                        }
                        m += 1;
                    }
                    assert(current.points@.subrange(0, m as int) == current.points@);
                }
                proof {
                    assert forall|o: Connection| #[trigger]
                        is_candidate(o, *current, owners@, already_connected@, w as int, h as int)
                            && (o.to.0.r() < row || (o.to.0.r() == row && o.to.0.c() < column + 1))
                            implies best is Some && best->Some_0.distance <= o.distance by {
                        if o.to.0.r() == row && o.to.0.c() == column {
                            o.to.0.lemma_of_coordinates();
                            assert(o.to.0 == point);
                        }
                    }
                }
                column += 1;
            }
            row += 1;
        }
        best
    }
}

impl FloorBuilder<HasBorders> {
    /// The borders of the caves of the floor.
    pub fn borders(&self) -> (r: &Vec<Border>)
        ensures
            *r == self.extra.borders,
    {
        &self.extra.borders
    }

    /// Finds the connections that join the caves: for one border after
    /// another, the closest pair of a point of the border and a point of a
    /// border that it is not joined to yet. The search goes on as
    /// `iterations` says, and the connections that a spanning forest of
    /// the joined borders can do without are then dropped. A search for
    /// full connection always ends so, and leaves the borders joined as a
    /// tree.
    pub fn build_connections(self, iterations: BuildConnectionIterations) -> (r: FloorBuilder<
        HasConnections,
    >)
        requires
            self.wf(),
            self.extra.wf(self.w(), self.h()),
        ensures
            r.wf(),
            r.extra.wf(r.w(), r.h()),
            r.width == self.width,
            r.height == self.height,
            r.map == self.map,
            r.noise_map == self.noise_map,
            r.frames == self.frames,
            r.id == self.id,
            self.extra.borders@.len() == 1 ==> r.extra.connections@.len() == 0
                && r.extra.borders@.len() == 0,
            self.extra.borders@.len() != 1 ==> r.extra.borders == self.extra.borders && builds(
                self.extra.borders@,
                iterations,
                self.w(),
                self.h(),
                r.extra.connections@,
            ),
            forall|i: int|
                0 <= i < r.extra.connections@.len() ==> joins_closest(
                    #[trigger] r.extra.connections@[i],
                    self.extra.borders@,
                    self.w(),
                    self.h(),
                ),
            iterations is FullyConnect && self.extra.borders@.len() >= 1 ==> joins_as_tree(
                self.extra.borders@,
                r.extra.connections@,
            ),
            iterations is FullyConnect && self.extra.borders@.len() >= 1 ==> component_count(
                border_ids(self.extra.borders@),
                edges_of(r.extra.connections@),
            ) == 1 && r.extra.connections@.len() == self.extra.borders@.len() - 1,
            few_enough(
                iterations,
                component_count(border_ids(self.extra.borders@), edges_of(r.extra.connections@)) as int,
            ),
    {
        let ghost w = self.w();
        let ghost h = self.h();
        let ghost borders = self.extra.borders@;
        let count: usize = self.extra.borders.len();
        if count == 1 {
            let alone = self.into_state(HasConnections::default());
            proof {
                reveal(joins_as_tree);
                lemma_star_is_joined(borders, edges_of(alone.extra.connections@), 0);
            }
            return alone;
        }
        proof {
            assert forall|i: int, k: int| 0 <= i < borders.len() && 0 <= k < borders[i].points@.len() implies in_grid(
                #[trigger] borders[i].points@[k],
                w,
                h,
            ) by {
                assert(borders[i].wf());
            }
        }
        let owners = self.border_owners(&self.extra.borders);
        let mut connections: Vec<Connection> = Vec::new();
        let mut graph = graph_new();
        let mut n: usize = 0;
        assert(border_ids(borders.subrange(0, 0)) =~= Set::<usize>::empty());
        while n < count
            invariant
                0 <= n <= count,
                count == borders.len(),
                borders == self.extra.borders@,
                graph_nodes(graph) == border_ids(borders.subrange(0, n as int)),
                graph_edges(graph) == Set::<(usize, usize)>::empty(),
            decreases count - n,
        {
            graph_add_node(&mut graph, self.extra.borders[n].id.index());
            proof {
                lemma_border_ids_push(borders, n as int);
            }
            n += 1;
        }
        assert(borders.subrange(0, n as int) == borders);
        assert(edges_of(connections@) =~= Set::<(usize, usize)>::empty());
        let mut acc: usize = 0;
        let mut progressed: bool = false;
        let mut done: bool = count == 0;
        let ghost mut steps: nat = 0;
        let ghost mut passes: nat = 0;
        let ghost mut bound: nat = apart_in(borders, edges_of(connections@), count as int);
        proof {
            reveal(search_state);
            if count == 0 {
                assert(searched(borders, iterations, w, h, connections@, 0));
                assert(builds(borders, iterations, w, h, connections@));
                lemma_no_borders_no_groups(borders, edges_of(connections@));
            }
        }
        while !done
            invariant
                count == borders.len(),
                count != 1,
                !done ==> acc < count,
                self.wf(),
                self.extra.wf(w, h),
                w == self.w(),
                h == self.h(),
                borders == self.extra.borders@,
                owners@.len() == w * h,
                forall|i: int, k: int|
                    0 <= i < borders.len() && 0 <= k < borders[i].points@.len() ==> in_grid(
                        #[trigger] borders[i].points@[k],
                        w,
                        h,
                    ),
                forall|i: int|
                    0 <= i < owners@.len() ==> #[trigger] owners@[i] == owner_of(
                        borders,
                        grid_point(i, w),
                    ),
                forall|i: int|
                    0 <= i < connections@.len() ==> joins_closest(
                        #[trigger] connections@[i],
                        borders,
                        w,
                        h,
                    ),
                !done ==> steps == passes * count + acc,
                !done && !repeats(iterations) ==> passes == 0,
                !done ==> search_state(
                    borders,
                    iterations,
                    w,
                    h,
                    connections@,
                    steps,
                    graph_nodes(graph),
                    graph_edges(graph),
                ),
                !done ==> apart_in(borders, edges_of(connections@), count as int) <= bound,
                !done && progressed ==> apart_in(borders, edges_of(connections@), count as int)
                    < bound,
                !done && !progressed ==> rests(borders, connections@, w, h, acc as int),
                done ==> builds(borders, iterations, w, h, connections@),
                done && iterations is FullyConnect && count >= 1 ==> joins_as_tree(
                    borders,
                    connections@,
                ),
                done ==> few_enough(
                    iterations,
                    component_count(border_ids(borders), edges_of(connections@)) as int,
                ),
            decreases
                bound,
                count - acc + if done {
                    0int
                } else {
                    1int
                },
        {
            let current = &self.extra.borders[acc];
            let already_connected = graph_neighbors(&graph, current.id.index());
            let found = self.closest_connection(current, &owners, &already_connected);
            let ghost before = connections@;
            let ghost nodes = graph_nodes(graph);
            let ghost edges = graph_edges(graph);
            proof {
                lemma_candidates_may_join(
                    borders,
                    acc as int,
                    owners@,
                    already_connected@,
                    edges,
                    w,
                    h,
                );
                lemma_turn(borders, passes, acc as int);
            }
            if let Some(c) = found {
                proof {
                    lemma_candidate_joins_closest(c, borders, acc as int, owners@, already_connected@, w, h);
                }
                connections.push(c);
                proof {
                    lemma_step_found(
                        borders,
                        iterations,
                        w,
                        h,
                        before,
                        c,
                        steps,
                        acc as int,
                        nodes,
                        edges,
                    );
                    assert forall|i: int| 0 <= i < connections@.len() implies joins_closest(
                        #[trigger] connections@[i],
                        borders,
                        w,
                        h,
                    ) by {
                        if i < before.len() {
                            assert(connections@[i] == before[i]);
                        }
                    }
                }
                graph_add_edge(&mut graph, c.from.1.index(), c.to.1.index());
                progressed = true;
            } else {
                proof {
                    lemma_step_none(
                        borders,
                        iterations,
                        w,
                        h,
                        before,
                        steps,
                        acc as int,
                        nodes,
                        edges,
                    );
                    if !progressed {
                        lemma_rests_on(borders, before, w, h, acc as int);
                    }
                }
            }
            let components = graph_component_count(&graph);
            let ghost made = connections@;
            proof {
                steps = steps + 1;
                assert(stopped(borders, iterations, made, steps) == stops(
                    iterations,
                    acc as int,
                    components as int,
                ));
            }
            if should_stop(iterations, acc, components) {
                let forest = graph_spanning_forest(&graph);
                connections = prune_connections(connections, &forest);
                proof {
                    let keep = |c: Connection| runs_along(graph_edges(forest), c);
                    assert forall|i: int| 0 <= i < connections@.len() implies joins_closest(
                        #[trigger] connections@[i],
                        borders,
                        w,
                        h,
                    ) by {
                        made.lemma_filter_contains_rev(keep, connections@[i]);
                        let j = choose|j: int| 0 <= j < made.len() && made[j] == connections@[i];
                        assert(joins_closest(made[j], borders, w, h));
                    }
                    assert(is_spanning_forest(
                        graph_edges(forest),
                        border_ids(borders),
                        edges_of(made),
                    ));
                    assert(is_pruning_of(borders, made, connections@));
                    assert(builds(borders, iterations, w, h, connections@));
                    lemma_pruning_keeps_connected(made, border_ids(borders), graph_edges(forest));
                    lemma_same_components(
                        border_ids(borders),
                        edges_of(connections@),
                        edges_of(made),
                    );
                    if iterations is FullyConnect {
                        reveal(joins_as_tree);
                        lemma_fully_connected_when_pruned(borders, w, h, made, steps, connections@);
                    }
                }
                done = true;
            } else if acc + 1 < count {
                proof {
                    reveal(search_state);
                }
                acc += 1;
            } else if starts_over(iterations) && progressed {
                proof {
                    reveal(search_state);
                    assert((passes + 1) * count == passes * count + count) by (nonlinear_arith);
                    passes = passes + 1;
                    bound = apart_in(borders, edges_of(made), count as int);
                }
                acc = 0;
                progressed = false;
            } else {
                proof {
                    if repeats(iterations) {
                        assert(at_rest(borders, made, w, h));
                        lemma_rest_is_joined(borders, w, h, made);
                    }
                    assert(builds(borders, iterations, w, h, made));
                }
                done = true;
            }
        }
        proof {
            reveal(joins_as_tree);
            assert forall|i: int| 0 <= i < connections@.len() implies !out_of_bounds(
                (#[trigger] connections@[i]).from.0,
                w,
                h,
            ) && !out_of_bounds(connections@[i].to.0, w, h) by {
                let c = connections@[i];
                assert(joins_closest(c, borders, w, h));
                let b = choose|b: int|
                    0 <= b < borders.len() && (#[trigger] borders[b]).id == c.from.1
                        && borders[b].points@.contains(c.from.0) && owner_of(borders, c.to.0)
                        == Some(c.to.1);
                let k = choose|k: int|
                    0 <= k < borders[b].points@.len() && borders[b].points@[k] == c.from.0;
                assert(!out_of_bounds(borders[b].points@[k], w, h));
                lemma_owner_is_border(borders, c.to.0);
                let o = choose|o: int|
                    0 <= o < borders.len() && (#[trigger] borders[o]).points@.contains(c.to.0);
                let m = choose|m: int|
                    0 <= m < borders[o].points@.len() && borders[o].points@[m] == c.to.0;
                assert(!out_of_bounds(borders[o].points@[m], w, h));
            }
        }
        let FloorBuilder { width, height, map, noise_map, extra, frames, id } = self;
        FloorBuilder {
            width,
            height,
            map,
            noise_map,
            extra: HasConnections { connections, borders: extra.borders },
            frames,
            id,
        }
    }
}

/// Whether the connections join the borders as a tree: they join every
/// border to every other, the two borders of each connection are joined
/// by no run of the others, and there is one connection fewer than there
/// are borders.
#[verifier::opaque]
pub open spec fn joins_as_tree(borders: Seq<Border>, result: Seq<Connection>) -> bool {
    &&& component_count(border_ids(borders), edges_of(result)) == 1
    &&& result.len() + 1 == borders.len()
    &&& forall|i: int|
        0 <= i < result.len() ==> !connected(
            edges_of(result).remove(edge_of(#[trigger] result[i])),
            edge_of(result[i]).0,
            edge_of(result[i]).1,
        )
}

/// Where the first `upto` borders have nothing to be joined to, and the
/// next has nothing either, that holds of one border more.
pub proof fn lemma_rests_on(
    borders: Seq<Border>,
    made: Seq<Connection>,
    w: int,
    h: int,
    upto: int,
)
    requires
        rests(borders, made, w, h, upto),
        forall|o: Connection| !#[trigger] may_join(o, borders[upto], borders, edges_of(made), w, h),
    ensures
        rests(borders, made, w, h, upto + 1),
{
}

/// What holds of the search for connections after `n` steps none of which
/// ended it: the graph holds the borders as its nodes and the connections
/// made as its edges.
#[verifier::opaque]
pub open spec fn search_state(
    borders: Seq<Border>,
    iterations: BuildConnectionIterations,
    w: int,
    h: int,
    made: Seq<Connection>,
    n: nat,
    nodes: Set<usize>,
    edges: Set<(usize, usize)>,
) -> bool {
    &&& nodes == border_ids(borders)
    &&& edges == edges_of(made)
    &&& searched(borders, iterations, w, h, made, n)
    &&& !stopped(borders, iterations, made, n)
}

/// After `passes` rounds over all the borders and `at` more steps, the
/// next step deals with the border at `at`.
pub proof fn lemma_turn(borders: Seq<Border>, passes: nat, at: int)
    requires
        0 <= at < borders.len(),
    ensures
        turn_of(borders, (passes * borders.len() + at + 1) as nat) == borders[at],
{
    vstd::arithmetic::div_mod::lemma_fundamental_div_mod_converse(
        passes * borders.len() + at,
        borders.len() as int,
        passes as int,
        at,
    );
}

/// Whether no edge joins the borders at `a` and `b`.
pub open spec fn apart(borders: Seq<Border>, edges: Set<(usize, usize)>, a: int, b: int) -> bool {
    !edges.contains(edge_key(borders[a].id.value(), borders[b].id.value()))
}

/// How many of the first `upto` borders no edge joins to the border at
/// `a`.
pub open spec fn apart_from(
    borders: Seq<Border>,
    edges: Set<(usize, usize)>,
    a: int,
    upto: int,
) -> nat
    decreases upto,
{
    if upto <= 0 {
        0
    } else {
        apart_from(borders, edges, a, upto - 1) + if apart(borders, edges, a, upto - 1) {
            1nat
        } else {
            0nat
        }
    }
}

/// How many pairs of one of the first `upto` borders and any border no
/// edge joins.
pub open spec fn apart_in(borders: Seq<Border>, edges: Set<(usize, usize)>, upto: int) -> nat
    decreases upto,
{
    if upto <= 0 {
        0
    } else {
        apart_in(borders, edges, upto - 1) + apart_from(
            borders,
            edges,
            upto - 1,
            borders.len() as int,
        )
    }
}

/// One more edge leaves no more borders apart from the border at `a`.
pub proof fn lemma_apart_from_shrinks(
    borders: Seq<Border>,
    edges: Set<(usize, usize)>,
    e: (usize, usize),
    a: int,
    upto: int,
)
    ensures
        apart_from(borders, edges.insert(e), a, upto) <= apart_from(borders, edges, a, upto),
    decreases upto,
{
    if upto > 0 {
        lemma_apart_from_shrinks(borders, edges, e, a, upto - 1);
    }
}

/// An edge between two borders that were apart leaves fewer borders apart
/// from the first of the two.
pub proof fn lemma_apart_from_drops(
    borders: Seq<Border>,
    edges: Set<(usize, usize)>,
    a: int,
    b: int,
    upto: int,
)
    requires
        0 <= b < upto,
        apart(borders, edges, a, b),
    ensures
        apart_from(
            borders,
            edges.insert(edge_key(borders[a].id.value(), borders[b].id.value())),
            a,
            upto,
        ) < apart_from(borders, edges, a, upto),
    decreases upto,
{
    let e = edge_key(borders[a].id.value(), borders[b].id.value());
    if upto - 1 == b {
        lemma_apart_from_shrinks(borders, edges, e, a, upto - 1);
    } else {
        lemma_apart_from_drops(borders, edges, a, b, upto - 1);
    }
}

/// One more edge leaves no more pairs of borders apart.
pub proof fn lemma_apart_in_shrinks(
    borders: Seq<Border>,
    edges: Set<(usize, usize)>,
    e: (usize, usize),
    upto: int,
)
    ensures
        apart_in(borders, edges.insert(e), upto) <= apart_in(borders, edges, upto),
    decreases upto,
{
    if upto > 0 {
        lemma_apart_in_shrinks(borders, edges, e, upto - 1);
        lemma_apart_from_shrinks(borders, edges, e, upto - 1, borders.len() as int);
    }
}

/// An edge between two borders that were apart leaves fewer pairs of
/// borders apart.
pub proof fn lemma_apart_in_drops(
    borders: Seq<Border>,
    edges: Set<(usize, usize)>,
    a: int,
    b: int,
    upto: int,
)
    requires
        0 <= a < upto,
        0 <= b < borders.len(),
        apart(borders, edges, a, b),
    ensures
        apart_in(
            borders,
            edges.insert(edge_key(borders[a].id.value(), borders[b].id.value())),
            upto,
        ) < apart_in(borders, edges, upto),
    decreases upto,
{
    let e = edge_key(borders[a].id.value(), borders[b].id.value());
    if upto - 1 == a {
        lemma_apart_in_shrinks(borders, edges, e, upto - 1);
        lemma_apart_from_drops(borders, edges, a, b, borders.len() as int);
    } else {
        lemma_apart_in_drops(borders, edges, a, b, upto - 1);
        lemma_apart_from_shrinks(borders, edges, e, upto - 1, borders.len() as int);
    }
}

/// What the search has found once the border at `at` has been joined to
/// another by a connection that is as short as any: one connection more,
/// and fewer pairs of borders that are apart.
pub proof fn lemma_step_found(
    borders: Seq<Border>,
    iterations: BuildConnectionIterations,
    w: int,
    h: int,
    before: Seq<Connection>,
    c: Connection,
    n: nat,
    at: int,
    nodes: Set<usize>,
    edges: Set<(usize, usize)>,
)
    requires
        0 <= at < borders.len(),
        turn_of(borders, n + 1) == borders[at],
        search_state(borders, iterations, w, h, before, n, nodes, edges),
        is_closest(c, borders[at], borders, edges, w, h),
    ensures
        searched(borders, iterations, w, h, before.push(c), n + 1),
        nodes.insert(c.from.1.value()).insert(c.to.1.value()) == border_ids(borders),
        edges.insert(edge_key(c.from.1.value(), c.to.1.value())) == edges_of(before.push(c)),
        apart_in(borders, edges_of(before.push(c)), borders.len() as int) < apart_in(
            borders,
            edges_of(before),
            borders.len() as int,
        ),
{
    reveal(search_state);
    let after = before.push(c);
    assert(after.drop_last() == before);
    assert(after.last() == c);
    lemma_edges_of_push(before, c);
    lemma_owner_is_border(borders, c.to.0);
    let o = choose|o: int|
        0 <= o < borders.len() && (#[trigger] borders[o]).points@.contains(c.to.0) && borders[o].id
            == c.to.1;
    assert(border_ids(borders).contains(borders[o].id.value()));
    assert(border_ids(borders).contains(borders[at].id.value()));
    assert(border_ids(borders).insert(c.from.1.value()).insert(c.to.1.value()) =~= border_ids(
        borders,
    ));
    assert(apart(borders, edges, at, o));
    lemma_apart_in_drops(borders, edges, at, o, borders.len() as int);
}

/// What the search has found once the border at `at` has turned out to
/// have nothing that it could be joined to.
pub proof fn lemma_step_none(
    borders: Seq<Border>,
    iterations: BuildConnectionIterations,
    w: int,
    h: int,
    made: Seq<Connection>,
    n: nat,
    at: int,
    nodes: Set<usize>,
    edges: Set<(usize, usize)>,
)
    requires
        0 <= at < borders.len(),
        turn_of(borders, n + 1) == borders[at],
        search_state(borders, iterations, w, h, made, n, nodes, edges),
        forall|o: Connection| !#[trigger] may_join(o, borders[at], borders, edges, w, h),
    ensures
        searched(borders, iterations, w, h, made, n + 1),
        nodes == border_ids(borders),
        edges == edges_of(made),
{
    reveal(search_state);
}

/// Where there is no border there is no group of joined borders.
pub proof fn lemma_no_borders_no_groups(borders: Seq<Border>, edges: Set<(usize, usize)>)
    requires
        borders.len() == 0,
    ensures
        component_count(border_ids(borders), edges) == 0,
{
    let nodes = border_ids(borders);
    assert(nodes =~= Set::<usize>::empty());
    assert(nodes.filter(|n: usize| is_smallest_of_component(nodes, edges, n)) =~= Set::<
        usize,
    >::empty());
}

/// The index of a border whose id is the smallest.
pub proof fn lemma_smallest_id(borders: Seq<Border>) -> (m: int)
    requires
        borders.len() > 0,
    ensures
        0 <= m < borders.len(),
        forall|i: int|
            0 <= i < borders.len() ==> borders[m].id.value() <= (#[trigger] borders[i]).id.value(),
    decreases borders.len(),
{
    if borders.len() == 1 {
        0
    } else {
        let shorter = borders.drop_last();
        let found = lemma_smallest_id(shorter);
        let m = if borders.last().id.value() < shorter[found].id.value() {
            borders.len() - 1
        } else {
            found
        };
        assert forall|i: int| 0 <= i < borders.len() implies borders[m].id.value() <= (
        #[trigger] borders[i]).id.value() by {
            if i < shorter.len() {
                assert(shorter[i] == borders[i]);
            }
        }
        m
    }
}

/// Borders that all share an edge with one of them form one group.
pub proof fn lemma_star_is_joined(borders: Seq<Border>, edges: Set<(usize, usize)>, hub: int)
    requires
        0 <= hub < borders.len(),
        forall|i: int|
            0 <= i < borders.len() && i != hub ==> edges.contains(
                edge_key((#[trigger] borders[i]).id.value(), borders[hub].id.value()),
            ),
    ensures
        component_count(border_ids(borders), edges) == 1,
{
    let nodes = border_ids(borders);
    let m = lemma_smallest_id(borders);
    let least = borders[m].id.value();
    let center = borders[hub].id.value();
    let smallest = nodes.filter(|n: usize| is_smallest_of_component(nodes, edges, n));
    assert(nodes.contains(least));
    assert(is_smallest_of_component(nodes, edges, least)) by {
        assert forall|x: usize| nodes.contains(x) implies least <= x by {
            let i = choose|i: int| 0 <= i < borders.len() && (#[trigger] borders[i]).id.value() == x;
            assert(borders[m].id.value() <= borders[i].id.value());
        }
    }
    assert forall|x: usize| smallest.contains(x) implies x == least by {
        if x != least {
            let i = choose|i: int| 0 <= i < borders.len() && (#[trigger] borders[i]).id.value() == x;
            let chain = if least == center || x == center {
                seq![least, x]
            } else {
                seq![least, center, x]
            };
            if x != center {
                assert(i != hub);
                assert(edges.contains(edge_key(borders[i].id.value(), center)));
                assert(edge_key(x, center) == edge_key(center, x));
            }
            if least != center {
                assert(m != hub);
                assert(edges.contains(edge_key(borders[m].id.value(), center)));
            }
            assert(is_chain(edges, chain));
            assert(chain[0] == least && chain.last() == x);
            assert(connected(edges, least, x));
            assert(x <= least);
            assert(borders[m].id.value() <= borders[i].id.value());
        }
    }
    assert(smallest =~= set![least]);
}

/// Where nothing more can be joined, the borders form one group: each of
/// them shares an edge with the last, to which the points of the last
/// border are counted.
pub proof fn lemma_rest_is_joined(borders: Seq<Border>, w: int, h: int, made: Seq<Connection>)
    requires
        borders.len() > 0,
        0 < w <= crate::floor_builder::MAX_FLOOR_SIZE,
        0 < h <= crate::floor_builder::MAX_FLOOR_SIZE,
        forall|i: int|
            0 <= i < borders.len() ==> (#[trigger] borders[i]).points@.len() > 0 && forall|k: int|
                0 <= k < borders[i].points@.len() ==> !out_of_bounds(
                    #[trigger] borders[i].points@[k],
                    w,
                    h,
                ),
        forall|i: int, j: int|
            0 <= i < j < borders.len() ==> (#[trigger] borders[i]).id != (#[trigger] borders[j]).id,
        at_rest(borders, made, w, h),
    ensures
        component_count(border_ids(borders), edges_of(made)) == 1,
{
    let hub = borders.len() - 1;
    let edges = edges_of(made);
    let to = borders[hub].points@[0];
    assert(borders[hub].points@.contains(to));
    assert(!out_of_bounds(borders[hub].points@[0], w, h));
    assert(owner_of(borders, to) == Some(borders[hub].id));
    assert forall|i: int| 0 <= i < borders.len() && i != hub implies edges.contains(
        edge_key((#[trigger] borders[i]).id.value(), borders[hub].id.value()),
    ) by {
        let from = borders[i].points@[0];
        assert(borders[i].points@.contains(from));
        assert(!out_of_bounds(borders[i].points@[0], w, h));
        let length = squared_distance(to, from);
        assert(0 <= length <= 80000) by (nonlinear_arith)
            requires
                length == (to.r() - from.r()) * (to.r() - from.r()) + (to.c() - from.c()) * (to.c()
                    - from.c()),
                -200 <= to.r() - from.r() <= 200,
                -200 <= to.c() - from.c() <= 200,
        ;
        let c = Connection {
            distance: length as u32,
            from: (from, borders[i].id),
            to: (to, borders[hub].id),
        };
        assert(borders[i].id != borders[hub].id);
        if !edges.contains(edge_of(c)) {
            assert(may_join(c, borders[i], borders, edges, w, h));
        }
    }
    lemma_star_is_joined(borders, edges, hub);
}

/// The numbers of the first `n + 1` borders are those of the first `n`
/// and that of the next.
pub proof fn lemma_border_ids_push(borders: Seq<Border>, n: int)
    requires
        0 <= n < borders.len(),
    ensures
        border_ids(borders.subrange(0, n + 1)) == border_ids(borders.subrange(0, n)).insert(
            borders[n].id.value(),
        ),
{
    let shorter = borders.subrange(0, n);
    let longer = borders.subrange(0, n + 1);
    assert forall|x: usize|
        border_ids(longer).contains(x) == border_ids(shorter).insert(
            borders[n].id.value(),
        ).contains(x) by {
        if border_ids(longer).contains(x) {
            let i = choose|i: int| 0 <= i < longer.len() && (#[trigger] longer[i]).id.value() == x;
            if i < n {
                assert(shorter[i].id.value() == x);
            }
        }
        if border_ids(shorter).contains(x) {
            let i = choose|i: int| 0 <= i < shorter.len() && (#[trigger] shorter[i]).id.value() == x;
            assert(longer[i].id.value() == x);
        }
        if x == borders[n].id.value() {
            assert(longer[n].id.value() == x);
        }
    }
    assert(border_ids(longer) =~= border_ids(shorter).insert(borders[n].id.value()));
}

/// One more connection adds its edge to the edges of the others.
pub proof fn lemma_edges_of_push(made: Seq<Connection>, c: Connection)
    ensures
        edges_of(made.push(c)) == edges_of(made).insert(edge_of(c)),
{
    let longer = made.push(c);
    assert forall|e: (usize, usize)|
        edges_of(longer).contains(e) == edges_of(made).insert(edge_of(c)).contains(e) by {
        if edges_of(longer).contains(e) {
            let i = choose|i: int| 0 <= i < longer.len() && edge_of(#[trigger] longer[i]) == e;
            if i < made.len() {
                assert(edge_of(made[i]) == e);
            }
        }
        if edges_of(made).contains(e) {
            let i = choose|i: int| 0 <= i < made.len() && edge_of(#[trigger] made[i]) == e;
            assert(edge_of(longer[i]) == e);
        }
        if e == edge_of(c) {
            assert(edge_of(longer[made.len() as int]) == e);
        }
    }
    assert(edges_of(longer) =~= edges_of(made).insert(edge_of(c)));
}

/// What the search looks at for a border is what could join it to
/// another: the list of the owners says to which border a point is
/// counted, and the neighbours in the graph say which borders it shares an
/// edge with.
pub proof fn lemma_candidates_may_join(
    borders: Seq<Border>,
    b: int,
    owners: Seq<Option<BorderId>>,
    already_connected: Seq<usize>,
    edges: Set<(usize, usize)>,
    w: int,
    h: int,
)
    requires
        0 <= b < borders.len(),
        0 < w <= crate::floor_builder::MAX_FLOOR_SIZE,
        0 < h <= crate::floor_builder::MAX_FLOOR_SIZE,
        owners.len() == w * h,
        forall|i: int|
            0 <= i < owners.len() ==> #[trigger] owners[i] == owner_of(borders, grid_point(i, w)),
        forall|x: usize| #[trigger]
            already_connected.contains(x) <==> edges.contains(
                edge_key(borders[b].id.value(), x),
            ),
    ensures
        forall|c: Connection|
            #![trigger is_candidate(c, borders[b], owners, already_connected, w, h)]
            #![trigger may_join(c, borders[b], borders, edges, w, h)]
            is_candidate(c, borders[b], owners, already_connected, w, h) <==> may_join(
                c,
                borders[b],
                borders,
                edges,
                w,
                h,
            ),
{
    assert forall|c: Connection|
        #![trigger is_candidate(c, borders[b], owners, already_connected, w, h)]
        #![trigger may_join(c, borders[b], borders, edges, w, h)]
        is_candidate(c, borders[b], owners, already_connected, w, h) <==> may_join(
            c,
            borders[b],
            borders,
            edges,
            w,
            h,
        ) by {
        if in_grid(c.to.0, w, h) {
            lemma_grid_index_bounds(c.to.0, w, h);
            lemma_grid_point_of_index(c.to.0, w);
        }
        if c.from.1 == borders[b].id {
            assert(already_connected.contains(c.to.1.value()) <==> edges.contains(
                edge_key(borders[b].id.value(), c.to.1.value()),
            ));
        }
    }
}

/// A candidate that is as short as any other joins its two borders where
/// they are closest.
pub proof fn lemma_candidate_joins_closest(
    c: Connection,
    borders: Seq<Border>,
    b: int,
    owners: Seq<Option<BorderId>>,
    already_connected: Seq<usize>,
    w: int,
    h: int,
)
    requires
        0 <= b < borders.len(),
        0 < w <= crate::floor_builder::MAX_FLOOR_SIZE,
        0 < h <= crate::floor_builder::MAX_FLOOR_SIZE,
        owners.len() == w * h,
        forall|i: int|
            0 <= i < owners.len() ==> #[trigger] owners[i] == owner_of(borders, grid_point(i, w)),
        is_candidate(c, borders[b], owners, already_connected, w, h),
        forall|o: Connection| #[trigger]
            is_candidate(o, borders[b], owners, already_connected, w, h) ==> c.distance
                <= o.distance,
        forall|k: int|
            0 <= k < borders[b].points@.len() ==> in_grid(#[trigger] borders[b].points@[k], w, h),
    ensures
        joins_closest(c, borders, w, h),
{
    lemma_grid_index_bounds(c.to.0, w, h);
    lemma_grid_point_of_index(c.to.0, w);
    assert forall|from: Point, to: Point|
        borders[b].points@.contains(from) && in_grid(to, w, h) && on_largest_floor(to)
            && #[trigger] owner_of(borders, to) == Some(c.to.1) implies c.distance
        <= #[trigger] squared_distance(to, from) by {
        let k = choose|k: int| 0 <= k < borders[b].points@.len() && borders[b].points@[k] == from;
        assert(in_grid(borders[b].points@[k], w, h));
        lemma_grid_index_bounds(to, w, h);
        lemma_grid_point_of_index(to, w);
        let length = squared_distance(to, from);
        assert(0 <= length <= 80000) by (nonlinear_arith)
            requires
                length == (to.r() - from.r()) * (to.r() - from.r()) + (to.c() - from.c()) * (to.c()
                    - from.c()),
                -200 <= to.r() - from.r() <= 200,
                -200 <= to.c() - from.c() <= 200,
        ;
        let o = Connection { distance: length as u32, from: (from, borders[b].id), to: (to, c.to.1) };
        assert(is_candidate(o, borders[b], owners, already_connected, w, h));
    }
}

} // verus!
