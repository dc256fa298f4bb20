//! The search for the route that carried a label.

use super::{
    are_witnesses, arrives, edge_views, end_of, first_arrival, is_route, lemma_precedes_transitive,
    lemma_route_links, lemma_told_all, precedes, seeded_at, told, told_all, told_edges, usable,
    witness_views, FlowView, Graph, GraphView, SeedView, Witness, WitnessEdge, WitnessView,
};
use crate::ordering::Ordered;
use std::collections::{BTreeMap, BTreeSet};
use vstd::prelude::*;

verus! {

/// Where a node stands in a list of nodes.
spec fn places(nodes: Seq<u64>, node: u64) -> Seq<usize>
    decreases nodes.len(),
{
    if nodes.len() == 0 {
        Seq::empty()
    } else {
        let before = places(nodes.drop_last(), node);
        if nodes.last() == node {
            before.push((nodes.len() - 1) as usize)
        } else {
            before
        }
    }
}

/// The places of a node ascend, and are where the node stands.
proof fn lemma_places(nodes: Seq<u64>, node: u64)
    requires
        nodes.len() <= usize::MAX,
    ensures
        forall|k: int|
            0 <= k < places(nodes, node).len() ==> (#[trigger] places(nodes, node)[k]) < nodes.len()
                && nodes[places(nodes, node)[k] as int] == node,
        forall|j: int, k: int|
            0 <= j < k < places(nodes, node).len() ==> places(nodes, node)[j] < places(
                nodes,
                node,
            )[k],
        forall|i: int|
            0 <= i < nodes.len() && nodes[i] == node ==> #[trigger] places(nodes, node).contains(
                i as usize,
            ),
    decreases nodes.len(),
{
    if nodes.len() > 0 {
        let before = places(nodes.drop_last(), node);
        lemma_places(nodes.drop_last(), node);
        let after = places(nodes, node);
        assert forall|i: int| 0 <= i < nodes.len() && nodes[i] == node implies #[trigger]
            after.contains(i as usize) by {
            if i < nodes.len() - 1 {
                assert(nodes.drop_last()[i] == node);
                assert(before.contains(i as usize));
                let k = choose|k: int| 0 <= k < before.len() && before[k] == i as usize;
                assert(after[k] == i as usize);
            } else {
                assert(after[after.len() - 1] == i as usize);
            }
        }
        assert forall|k: int| 0 <= k < after.len() implies (#[trigger] after[k]) < nodes.len()
            && nodes[after[k] as int] == node by {
            if k < before.len() {
                assert(after[k] == before[k]);
                assert(nodes.drop_last()[before[k] as int] == node);
            }
        }
    }
}

/// Whether an index lists, for each node, the places where it stands.
spec fn indexes_nodes(index: Map<u64, Vec<usize>>, nodes: Seq<u64>) -> bool {
    forall|node: u64|
        #![trigger index.contains_key(node)]
        if index.contains_key(node) {
            index[node]@ == places(nodes, node)
        } else {
            places(nodes, node).len() == 0
        }
}

/// Lists one more place in an index.
fn index_one(index: &mut BTreeMap<u64, Vec<usize>>, node: u64, place: usize, nodes: Ghost<Seq<u64>>)
    requires
        place < nodes@.len(),
        nodes@[place as int] == node,
        indexes_nodes(old(index)@, nodes@.take(place as int)),
    ensures
        indexes_nodes(final(index)@, nodes@.take(place + 1)),
{
    broadcast use vstd::std_specs::btree::group_btree_axioms;

    let ghost before = index@;
    assert(before.contains_key(node) || !before.contains_key(node));
    let mut list: Vec<usize> = match index.remove(&node) {
        Some(list) => list,
        None => Vec::new(),
    };
    proof {
        assert(list@ =~= places(nodes@.take(place as int), node));
        assert(nodes@.take(place + 1).drop_last() =~= nodes@.take(place as int));
        assert(nodes@.take(place + 1).last() == node);
    }
    list.push(place);
    index.insert(node, list);
    proof {
        assert forall|other: u64| #![trigger index@.contains_key(other)]
            if index@.contains_key(other) {
                index@[other]@ == places(nodes@.take(place + 1), other)
            } else {
                places(nodes@.take(place + 1), other).len() == 0
            } by {
            if other != node {
                assert(index@.contains_key(other) == before.contains_key(other));
            }
        }
    }
}

/// Where edges lead.
spec fn ends(flows: Seq<FlowView>) -> Seq<u64> {
    Seq::new(flows.len(), |i: int| flows[i].into)
}

/// Where seeds stand.
spec fn seats(seeds: Seq<SeedView>) -> Seq<u64> {
    Seq::new(seeds.len(), |i: int| seeds[i].node)
}

/// An indexed view of a graph, for repeated witness searches.
pub struct Trace<'a> {
    graph: &'a Graph,
    outgoing: BTreeMap<u64, Vec<usize>>,
    seeded: BTreeMap<u64, Vec<usize>>,
}

impl<'a> View for Trace<'a> {
    type V = GraphView;

    closed spec fn view(&self) -> GraphView {
        self.graph@
    }
}

/// A route found so far, and where it ends.
struct Reached {
    node: u64,
    route: Vec<usize>,
}

/// The routes found so far.
spec fn routes_of(found: Seq<Reached>) -> Seq<Seq<usize>> {
    Seq::new(found.len(), |k: int| found[k].route@)
}

/// The routes that a route and one more edge make.
spec fn extensions(graph: GraphView, route: Seq<usize>, edges: Seq<usize>) -> Seq<Seq<usize>>
    decreases edges.len(),
{
    if edges.len() == 0 {
        Seq::empty()
    } else {
        let before = extensions(graph, route, edges.drop_last());
        if usable(graph, edges.last() as int) {
            before.push(route.push(edges.last()))
        } else {
            before
        }
    }
}

/// What holds of a breadth-first search: the routes found so far, how many of
/// them were looked at, and the first route to each node that was.
spec fn searching(
    graph: GraphView,
    start: u64,
    label: u8,
    routes: Seq<Seq<usize>>,
    looked: int,
    best: Map<u64, Seq<usize>>,
) -> bool {
    &&& 0 <= looked <= routes.len()
    &&& forall|k: int| 0 <= k < routes.len() ==> is_route(graph, start, #[trigger] routes[k])
    &&& forall|j: int, k: int|
        0 <= j < k < routes.len() ==> precedes(#[trigger] routes[j], #[trigger] routes[k])
    &&& forall|k: int|
        0 <= k < routes.len() && (#[trigger] routes[k]).len() > 0 ==> came_from(
            routes,
            looked,
            routes[k].drop_last(),
        )
    &&& looked == 0 ==> routes.len() == 1 && routes[0].len() == 0
    &&& looked > 0 ==> best.contains_key(start)
    &&& forall|node: u64| #[trigger]
        best.contains_key(node) ==> is_best(graph, start, node, best[node]) && !seeded_at(
            graph,
            node,
            label,
        )
    &&& forall|node: u64, i: usize|
        #![trigger best.contains_key(node), graph.flows[i as int]]
        best.contains_key(node) && usable(graph, i as int) && graph.flows[i as int].into == node
            ==> best.contains_key(graph.flows[i as int].from) || is_pending(
            routes,
            looked,
            best[node].push(i),
        )
}

/// Whether a route is one of those that were looked at.
spec fn came_from(routes: Seq<Seq<usize>>, looked: int, route: Seq<usize>) -> bool {
    exists|j: int| 0 <= j < looked && #[trigger] routes[j] == route
}

/// Whether a route is one of those still to be looked at.
spec fn is_pending(routes: Seq<Seq<usize>>, looked: int, route: Seq<usize>) -> bool {
    exists|k: int| looked <= k < routes.len() && #[trigger] routes[k] == route
}

/// Whether a route is the first of all that lead to a node.
spec fn is_best(graph: GraphView, start: u64, node: u64, route: Seq<usize>) -> bool {
    &&& is_route(graph, start, route)
    &&& end_of(graph, start, route) == node
    &&& forall|other: Seq<usize>| #[trigger]
        is_route(graph, start, other) && end_of(graph, start, other) == node ==> other == route
            || precedes(route, other)
}

/// Whatever route leads to a node not looked at yet, one still to be looked at
/// comes no later.
proof fn lemma_frontier(
    graph: GraphView,
    start: u64,
    label: u8,
    routes: Seq<Seq<usize>>,
    looked: int,
    best: Map<u64, Seq<usize>>,
    route: Seq<usize>,
) -> (k: int)
    requires
        searching(graph, start, label, routes, looked, best),
        is_route(graph, start, route),
        !best.contains_key(end_of(graph, start, route)),
    ensures
        looked <= k < routes.len(),
        routes[k] == route || precedes(routes[k], route),
    decreases route.len(),
{
    if route.len() == 0 {
        assert(looked == 0);
        assert(routes[0] =~= route);
        0
    } else {
        let before = route.drop_last();
        let node = end_of(graph, start, before);
        let i = route.last();
        if best.contains_key(node) {
            assert(usable(graph, i as int) && graph.flows[i as int].into == node);
            let found = best[node].push(i);
            assert(is_pending(routes, looked, found));
            let k = choose|k: int| looked <= k < routes.len() && #[trigger] routes[k] == found;
            assert(is_best(graph, start, node, best[node]));
            assert(found.drop_last() =~= best[node]);
            assert(before.push(i) =~= route);
            k
        } else {
            let k = lemma_frontier(graph, start, label, routes, looked, best, before);
            if routes[k] != before {
                lemma_precedes_transitive(routes[k], before, route);
            }
            k
        }
    }
}

/// The next route to look at comes no later than any route to a node not looked
/// at yet.
proof fn lemma_next_is_first(
    graph: GraphView,
    start: u64,
    label: u8,
    routes: Seq<Seq<usize>>,
    looked: int,
    best: Map<u64, Seq<usize>>,
    route: Seq<usize>,
)
    requires
        searching(graph, start, label, routes, looked, best),
        looked < routes.len(),
        is_route(graph, start, route),
        !best.contains_key(end_of(graph, start, route)),
    ensures
        routes[looked] == route || precedes(routes[looked], route),
{
    let k = lemma_frontier(graph, start, label, routes, looked, best, route);
    if k > looked && routes[k] != route {
        lemma_precedes_transitive(routes[looked], routes[k], route);
    }
}

/// Looking at a route to a node looked at before changes nothing.
proof fn lemma_skipped(
    graph: GraphView,
    start: u64,
    label: u8,
    routes: Seq<Seq<usize>>,
    looked: int,
    best: Map<u64, Seq<usize>>,
)
    requires
        searching(graph, start, label, routes, looked, best),
        looked < routes.len(),
        best.contains_key(end_of(graph, start, routes[looked])),
    ensures
        searching(graph, start, label, routes, looked + 1, best),
{
    assert forall|k: int| 0 <= k < routes.len() && (#[trigger] routes[k]).len() > 0 implies came_from(
        routes,
        looked + 1,
        routes[k].drop_last(),
    ) by {
        assert(came_from(routes, looked, routes[k].drop_last()));
        let j = choose|j: int| 0 <= j < looked && #[trigger] routes[j] == routes[k].drop_last();
        assert(routes[j] == routes[k].drop_last());
    }
    if looked == 0 {
        assert(end_of(graph, start, routes[0]) == start);
    }
    assert forall|node: u64, i: usize|
        #![trigger best.contains_key(node), graph.flows[i as int]]
        best.contains_key(node) && usable(graph, i as int) && graph.flows[i as int].into
            == node implies best.contains_key(graph.flows[i as int].from) || is_pending(
        routes,
        looked + 1,
        best[node].push(i),
    ) by {
        let found = best[node].push(i);
        if !best.contains_key(graph.flows[i as int].from) {
            assert(is_pending(routes, looked, found));
            let k = choose|k: int| looked <= k < routes.len() && #[trigger] routes[k] == found;
            assert(end_of(graph, start, found) == graph.flows[i as int].from);
            assert(k != looked);
            assert(routes[k] == found);
        }
    }
}

/// What the extensions of a route by edges in order are.
proof fn lemma_extensions(graph: GraphView, route: Seq<usize>, edges: Seq<usize>)
    requires
        forall|j: int, k: int| 0 <= j < k < edges.len() ==> edges[j] < edges[k],
    ensures
        forall|k: int|
            0 <= k < extensions(graph, route, edges).len() ==> is_extension(
                graph,
                route,
                edges,
                #[trigger] extensions(graph, route, edges)[k],
            ),
        forall|j: int, k: int|
            0 <= j < k < extensions(graph, route, edges).len() ==> precedes(
                #[trigger] extensions(graph, route, edges)[j],
                #[trigger] extensions(graph, route, edges)[k],
            ),
        forall|e: int|
            #![trigger edges[e]]
            0 <= e < edges.len() && usable(graph, edges[e] as int) ==> extensions(
                graph,
                route,
                edges,
            ).contains(route.push(edges[e])),
        extensions(graph, route, edges).len() <= edges.len(),
    decreases edges.len(),
{
    if edges.len() > 0 {
        let fewer = edges.drop_last();
        let before = extensions(graph, route, fewer);
        lemma_extensions(graph, route, fewer);
        let after = extensions(graph, route, edges);
        assert forall|k: int| 0 <= k < after.len() implies is_extension(
            graph,
            route,
            edges,
            #[trigger] after[k],
        ) by {
            if k < before.len() {
                assert(after[k] == before[k]);
                let e = choose|e: int|
                    #![trigger fewer[e]]
                    0 <= e < fewer.len() && usable(graph, fewer[e] as int) && before[k]
                        == route.push(fewer[e]);
                assert(edges[e] == fewer[e]);
            } else {
                assert(after[k] == route.push(edges[edges.len() - 1]));
            }
        }
        assert forall|j: int, k: int| 0 <= j < k < after.len() implies precedes(
            #[trigger] after[j],
            #[trigger] after[k],
        ) by {
            assert(after[j] == before[j]);
            if k < before.len() {
                assert(after[k] == before[k]);
            } else {
                let e = choose|e: int|
                    #![trigger fewer[e]]
                    0 <= e < fewer.len() && usable(graph, fewer[e] as int) && before[j]
                        == route.push(fewer[e]);
                assert(edges[e] == fewer[e]);
                assert(after[j].drop_last() =~= route);
                assert(after[k].drop_last() =~= route);
                assert(edges[e] < edges[edges.len() - 1]);
            }
        }
        assert forall|e: int|
            #![trigger edges[e]]
            0 <= e < edges.len() && usable(graph, edges[e] as int) implies after.contains(
            route.push(edges[e]),
        ) by {
            if e < fewer.len() {
                assert(fewer[e] == edges[e]);
                assert(before.contains(route.push(fewer[e])));
                let k = choose|k: int|
                    0 <= k < before.len() && before[k] == route.push(fewer[e]);
                assert(after[k] == route.push(edges[e]));
            } else {
                assert(after[after.len() - 1] == route.push(edges[e]));
            }
        }
    }
}

/// Whether a route is another and one usable edge more.
spec fn is_extension(
    graph: GraphView,
    route: Seq<usize>,
    edges: Seq<usize>,
    longer: Seq<usize>,
) -> bool {
    exists|e: int|
        #![trigger edges[e]]
        0 <= e < edges.len() && usable(graph, edges[e] as int) && longer == route.push(edges[e])
}

/// Looking at the first route to a node adds its extensions.
proof fn lemma_looked(
    graph: GraphView,
    start: u64,
    label: u8,
    routes: Seq<Seq<usize>>,
    looked: int,
    best: Map<u64, Seq<usize>>,
)
    requires
        searching(graph, start, label, routes, looked, best),
        looked < routes.len(),
        graph.flows.len() <= usize::MAX,
        !best.contains_key(end_of(graph, start, routes[looked])),
        !seeded_at(graph, end_of(graph, start, routes[looked]), label),
    ensures
        ({
            let node = end_of(graph, start, routes[looked]);
            searching(
                graph,
                start,
                label,
                routes + extensions(graph, routes[looked], places(ends(graph.flows), node)),
                looked + 1,
                best.insert(node, routes[looked]),
            )
        }),
{
    let route = routes[looked];
    let node = end_of(graph, start, route);
    let edges = places(ends(graph.flows), node);
    lemma_places(ends(graph.flows), node);
    lemma_extensions(graph, route, edges);
    let more = extensions(graph, route, edges);
    let after = routes + more;
    let better = best.insert(node, route);
    assert forall|k: int| 0 <= k < after.len() implies is_route(graph, start, #[trigger] after[k]) by {
        if k < routes.len() {
            assert(after[k] == routes[k]);
        } else {
            assert(after[k] == more[k - routes.len()]);
            let e = choose|e: int|
                #![trigger edges[e]]
                0 <= e < edges.len() && usable(graph, edges[e] as int) && after[k] == route.push(
                    edges[e],
                );
            assert(after[k].drop_last() =~= route);
            assert(ends(graph.flows)[edges[e] as int] == node);
        }
    }
    assert forall|k: int| 0 <= k < after.len() && (#[trigger] after[k]).len() > 0 implies came_from(
        after,
        looked + 1,
        after[k].drop_last(),
    ) by {
        if k < routes.len() {
            assert(after[k] == routes[k]);
            assert(came_from(routes, looked, routes[k].drop_last()));
            let j = choose|j: int| 0 <= j < looked && #[trigger] routes[j] == routes[k].drop_last();
            assert(after[j] == after[k].drop_last());
        } else {
            assert(after[k] == more[k - routes.len()]);
            assert(after[k].drop_last() =~= route);
            assert(after[looked] == after[k].drop_last());
        }
    }
    assert forall|j: int, k: int| 0 <= j < k < after.len() implies precedes(
        #[trigger] after[j],
        #[trigger] after[k],
    ) by {
        if k < routes.len() {
            assert(after[j] == routes[j] && after[k] == routes[k]);
        } else if j >= routes.len() {
            assert(after[j] == more[j - routes.len()] && after[k] == more[k - routes.len()]);
        } else {
            assert(after[j] == routes[j]);
            assert(after[k] == more[k - routes.len()]);
            assert(after[k].drop_last() =~= route);
            if after[j].len() > 0 {
                assert(came_from(routes, looked, routes[j].drop_last()));
                let p = choose|p: int|
                    0 <= p < looked && #[trigger] routes[p] == routes[j].drop_last();
                assert(precedes(routes[p], route));
            }
        }
    }
    assert(is_best(graph, start, node, route)) by {
        assert forall|other: Seq<usize>| #[trigger]
            is_route(graph, start, other) && end_of(graph, start, other) == node implies other
            == route || precedes(route, other) by {
            lemma_next_is_first(graph, start, label, routes, looked, best, other);
        }
    }
    assert(better.contains_key(start)) by {
        if looked == 0 {
            assert(end_of(graph, start, routes[0]) == start);
        }
    }
    assert forall|other: u64| #[trigger] better.contains_key(other) implies is_best(
        graph,
        start,
        other,
        better[other],
    ) && !seeded_at(graph, other, label) by {
        if other != node {
            assert(best.contains_key(other));
        }
    }
    assert forall|other: u64, i: usize|
        #![trigger better.contains_key(other), graph.flows[i as int]]
        better.contains_key(other) && usable(graph, i as int) && graph.flows[i as int].into
            == other implies better.contains_key(graph.flows[i as int].from) || is_pending(
        after,
        looked + 1,
        better[other].push(i),
    ) by {
        let found = better[other].push(i);
        if other == node {
            assert(ends(graph.flows)[i as int] == node);
            assert(edges.contains(i as int as usize));
            let e = choose|e: int| 0 <= e < edges.len() && edges[e] == i;
            assert(more.contains(route.push(edges[e])));
            let k = choose|k: int| 0 <= k < more.len() && more[k] == found;
            assert(after[routes.len() + k] == found);
        } else {
            assert(best.contains_key(other));
            if !better.contains_key(graph.flows[i as int].from) {
                assert(is_pending(routes, looked, found));
                let k = choose|k: int| looked <= k < routes.len() && #[trigger] routes[k] == found;
                assert(end_of(graph, start, found) == graph.flows[i as int].from);
                assert(k != looked);
                assert(after[k] == found);
            }
        }
    }
}

/// How many edges lead out of nodes not looked at yet.
spec fn unexplored(flows: Seq<FlowView>, seen: Set<u64>) -> nat
    decreases flows.len(),
{
    if flows.len() == 0 {
        0
    } else {
        unexplored(flows.drop_last(), seen) + if seen.contains(flows.last().into) {
            0nat
        } else {
            1
        }
    }
}

/// Looking at a node explores the edges out of it.
proof fn lemma_explored(flows: Seq<FlowView>, seen: Set<u64>, node: u64)
    requires
        !seen.contains(node),
    ensures
        unexplored(flows, seen) == unexplored(flows, seen.insert(node)) + places(
            ends(flows),
            node,
        ).len(),
    decreases flows.len(),
{
    if flows.len() > 0 {
        lemma_explored(flows.drop_last(), seen, node);
        assert(ends(flows).drop_last() =~= ends(flows.drop_last()));
        assert(ends(flows).last() == flows.last().into);
    }
}

impl Graph {
    /// A reusable view for asking many witness questions of one graph.
    ///
    /// Indexing the edges and seeds costs a pass over the graph, so build this
    /// once outside a loop.
    pub fn trace(&self) -> (trace: Trace<'_>)
        ensures
            trace@ == self@,
    {
        let mut outgoing: BTreeMap<u64, Vec<usize>> = BTreeMap::new();
        let mut i: usize = 0;
        let ghost nodes = ends(self@.flows);
        assert(indexes_nodes(outgoing@, nodes.take(0)));
        while i < self.flows.len()
            invariant
                i <= self.flows@.len(),
                nodes == ends(self@.flows),
                indexes_nodes(outgoing@, nodes.take(i as int)),
            decreases self.flows@.len() - i,
        {
            assert(self@.flows[i as int] == self.flows@[i as int].key());
            index_one(&mut outgoing, self.flows[i].into, i, Ghost(nodes));
            i += 1;
        }
        assert(nodes.take(i as int) =~= nodes);
        let mut seeded: BTreeMap<u64, Vec<usize>> = BTreeMap::new();
        let mut j: usize = 0;
        let ghost nodes = seats(self@.seeds);
        assert(indexes_nodes(seeded@, nodes.take(0)));
        while j < self.seeds.len()
            invariant
                j <= self.seeds@.len(),
                nodes == seats(self@.seeds),
                indexes_nodes(seeded@, nodes.take(j as int)),
            decreases self.seeds@.len() - j,
        {
            assert(self@.seeds[j as int] == self.seeds@[j as int].key());
            index_one(&mut seeded, self.seeds[j].node, j, Ghost(nodes));
            j += 1;
        }
        assert(nodes.take(j as int) =~= nodes);
        Trace { graph: self, outgoing, seeded }
    }

    /// Every place a label is reached from a node.
    ///
    /// Convenience for a one-off question. This indexes the whole graph per
    /// call, so a caller in a loop wants [`Graph::trace`] instead.
    pub fn witnesses(&self, start: u64, label: u8) -> (witnesses: Vec<Witness>)
        ensures
            are_witnesses(self@, start, label, witness_views(witnesses@)),
    {
        self.trace().witnesses(start, label)
    }

    /// The first witness, when a caller wants one reason rather than all of
    /// them.
    pub fn witness(&self, start: u64, label: u8) -> (witness: Option<Witness>)
        ensures
            exists|all: Seq<WitnessView>| #[trigger]
                are_witnesses(self@, start, label, all) && match witness {
                    Some(witness) => all.len() > 0 && all[0] == witness@,
                    None => all.len() == 0,
                },
    {
        self.trace().witness(start, label)
    }

    /// The name of a node.
    fn name_of(&self, node: u64) -> (name: Option<&String>)
        ensures
            match name {
                Some(name) => self@.names.contains_key(node) && self@.names[node] == name@,
                None => !self@.names.contains_key(node),
            },
    {
        broadcast use vstd::std_specs::btree::group_btree_axioms;

        self.names.get(&node)
    }
}

impl<'a> Trace<'a> {
    #[verifier::type_invariant]
    spec fn indexed(self) -> bool {
        &&& indexes_nodes(self.outgoing@, ends(self.graph@.flows))
        &&& indexes_nodes(self.seeded@, seats(self.graph@.seeds))
    }

    /// The edges that lead into a node.
    fn edges_into(&self, node: u64) -> (edges: Vec<usize>)
        ensures
            edges@ == places(ends(self@.flows), node),
    {
        broadcast use vstd::std_specs::btree::group_btree_axioms;

        proof {
            use_type_invariant(self);
        }
        assert(self.outgoing@.contains_key(node) || !self.outgoing@.contains_key(node));
        match self.outgoing.get(&node) {
            Some(edges) => edges.clone(),
            None => {
                let none: Vec<usize> = Vec::new();
                assert(none@ =~= places(ends(self@.flows), node));
                none
            },
        }
    }

    /// The seeds at a node.
    fn seeds_at(&self, node: u64) -> (seeds: Vec<usize>)
        ensures
            seeds@ == places(seats(self@.seeds), node),
    {
        broadcast use vstd::std_specs::btree::group_btree_axioms;

        proof {
            use_type_invariant(self);
        }
        assert(self.seeded@.contains_key(node) || !self.seeded@.contains_key(node));
        match self.seeded.get(&node) {
            Some(seeds) => seeds.clone(),
            None => {
                let none: Vec<usize> = Vec::new();
                assert(none@ =~= places(seats(self@.seeds), node));
                none
            },
        }
    }

    /// The steps of a witness along a route.
    fn told_path(&self, route: &Vec<usize>, start: Ghost<u64>) -> (path: Vec<WitnessEdge>)
        requires
            is_route(self@, start@, route@),
        ensures
            edge_views(path@) == told_edges(self@, route@),
    {
        let mut path: Vec<WitnessEdge> = Vec::new();
        let mut k: usize = 0;
        proof {
            lemma_route_links(self@, start@, route@);
        }
        while k < route.len()
            invariant
                k <= route@.len(),
                edge_views(path@) == told_edges(self@, route@).take(k as int),
                forall|j: int| 0 <= j < route@.len() ==> usable(self@, #[trigger] route@[j] as int),
            decreases route@.len() - k,
        {
            assert(usable(self@, route@[k as int] as int));
            let flow = &self.graph.flows[route[k]];
            assert(self@.flows[route@[k as int] as int] == flow@);
            let subject = self.graph.name_of(flow.into);
            let source = self.graph.name_of(flow.from);
            if let Some(subject) = subject {
                if let Some(source) = source {
                    let edge = WitnessEdge {
                        subject: subject.clone(),
                        source: source.clone(),
                        span: flow.span.clone(),
                    };
                    let ghost before = path@;
                    path.push(edge);
                    proof {
                        assert(edge@ == told_edges(self@, route@)[k as int]);
                        assert(edge_views(path@) =~= edge_views(before).push(edge@));
                        assert(told_edges(self@, route@).take(k + 1) =~= told_edges(
                            self@,
                            route@,
                        ).take(k as int).push(told_edges(self@, route@)[k as int]));
                    }
                }
            }
            k += 1;
        }
        assert(told_edges(self@, route@).take(k as int) =~= told_edges(self@, route@));
        path
    }

    /// The witnesses that a route makes.
    fn told_witnesses(
        &self,
        node: u64,
        label: u8,
        route: &Vec<usize>,
        start: Ghost<u64>,
    ) -> (witnesses: Option<Vec<Witness>>)
        requires
            is_route(self@, start@, route@),
        ensures
            match witnesses {
                Some(witnesses) => seeded_at(self@, node, label) && witness_views(witnesses@)
                    == told_all(self@, node, label, route@, self@.seeds),
                None => !seeded_at(self@, node, label),
            },
    {
        let subject = match self.graph.name_of(node) {
            Some(subject) => subject,
            None => {
                return None;
            },
        };
        let seeds = self.seeds_at(node);
        let ghost graph = self@;
        let ghost nodes = seats(graph.seeds);
        let mut witnesses: Vec<Witness> = Vec::new();
        let mut k: usize = 0;
        proof {
            assert(graph.seeds.len() == self.graph.seeds.len());
            lemma_places(nodes, node);
            assert(graph.seeds.take(0) =~= Seq::<SeedView>::empty());
            assert(witness_views(witnesses@) =~= Seq::<WitnessView>::empty());
            assert forall|i: int|
                0 <= i < if seeds@.len() == 0 {
                    graph.seeds.len() as int
                } else {
                    seeds@[0] as int
                } implies (#[trigger] graph.seeds[i]).node != node by {
                assert(nodes[i] == graph.seeds[i].node);
                lemma_between(nodes, node, -1, i);
            }
            lemma_told_none(graph, node, label, route@, 0, if seeds@.len() == 0 {
                graph.seeds.len() as int
            } else {
                seeds@[0] as int
            });
        }
        while k < seeds.len()
            invariant
                graph == self@,
                nodes == seats(graph.seeds),
                nodes.len() <= usize::MAX,
                seeds@ == places(nodes, node),
                k <= seeds@.len(),
                is_route(graph, start@, route@),
                graph.names.contains_key(node),
                graph.names[node] == subject@,
                witness_views(witnesses@) == told_all(
                    graph,
                    node,
                    label,
                    route@,
                    graph.seeds.take(
                        if k == seeds@.len() {
                            graph.seeds.len() as int
                        } else {
                            seeds@[k as int] as int
                        },
                    ),
                ),
            decreases seeds@.len() - k,
        {
            proof {
                lemma_places(nodes, node);
            }
            let place: usize = seeds[k];
            assert(nodes[place as int] == graph.seeds[place as int].node);
            assert(graph.seeds[place as int] == self.graph.seeds@[place as int].key());
            let seed = &self.graph.seeds[place];
            let ghost before = witnesses@;
            if seed.label == label {
                let mut path = self.told_path(route, start);
                let ghost steps = path@;
                let last = WitnessEdge {
                    subject: subject.clone(),
                    source: seed.origin.clone(),
                    span: seed.span.clone(),
                };
                path.push(last);
                let witness = Witness { label, origin: seed.origin.clone(), path };
                proof {
                    assert(edge_views(path@) =~= edge_views(steps).push(last@));
                    assert(witness@ == told(graph, node, label, route@, seed@));
                }
                witnesses.push(witness);
                assert(witness_views(witnesses@) =~= witness_views(before).push(witness@));
            }
            proof {
                assert(graph.seeds.take(place + 1).drop_last() =~= graph.seeds.take(place as int));
                assert(graph.seeds.take(place + 1).last() == seed@);
                let next = if k + 1 == seeds@.len() {
                    graph.seeds.len() as int
                } else {
                    seeds@[k + 1] as int
                };
                assert forall|i: int| place < i < next implies (#[trigger] graph.seeds[i]).node
                    != node by {
                    lemma_between(nodes, node, k as int, i);
                }
                lemma_told_none(graph, node, label, route@, place + 1, next);
            }
            k += 1;
        }
        proof {
            assert(graph.seeds.take(graph.seeds.len() as int) =~= graph.seeds);
            lemma_told_all(graph, node, label, route@, graph.seeds);
        }
        if witnesses.len() == 0 {
            None
        } else {
            Some(witnesses)
        }
    }

    /// Adds the routes that go one edge further than one that was found.
    fn extend_found(
        &self,
        found: &mut Vec<Reached>,
        looked: usize,
        edges: &Vec<usize>,
        Ghost(start): Ghost<u64>,
    )
        requires
            looked < old(found)@.len(),
            forall|k: int|
                0 <= k < edges@.len() ==> (#[trigger] edges@[k]) < self@.flows.len()
                    && self@.flows[edges@[k] as int].into == old(found)@[looked as int].node,
            forall|k: int|
                0 <= k < old(found)@.len() ==> (#[trigger] old(found)@[k]).node == end_of(
                    self@,
                    start,
                    old(found)@[k].route@,
                ),
        ensures
            routes_of(final(found)@) == routes_of(old(found)@) + extensions(
                self@,
                old(found)@[looked as int].route@,
                edges@,
            ),
            forall|k: int|
                0 <= k < final(found)@.len() ==> (#[trigger] final(found)@[k]).node == end_of(
                    self@,
                    start,
                    final(found)@[k].route@,
                ),
    {
        let ghost graph = self@;
        let ghost given = found@;
        let ghost routes = routes_of(given);
        let ghost extended = given[looked as int].route@;
        let mut e: usize = 0;
        assert(routes =~= routes + extensions(graph, extended, edges@.take(0)));
        while e < edges.len()
            invariant
                graph == self@,
                looked < given.len() <= found@.len(),
                found@[looked as int] == given[looked as int],
                extended == given[looked as int].route@,
                routes == routes_of(given),
                forall|k: int|
                    0 <= k < edges@.len() ==> (#[trigger] edges@[k]) < graph.flows.len()
                        && graph.flows[edges@[k] as int].into == given[looked as int].node,
                e <= edges@.len(),
                routes_of(found@) == routes + extensions(graph, extended, edges@.take(e as int)),
                forall|k: int|
                    0 <= k < found@.len() ==> (#[trigger] found@[k]).node == end_of(
                        graph,
                        start,
                        found@[k].route@,
                    ),
            decreases edges@.len() - e,
        {
            let edge: usize = edges[e];
            let ghost earlier = found@;
            assert(edges@[e as int] < graph.flows.len());
            let flow = &self.graph.flows[edge];
            assert(graph.flows[edge as int] == flow@);
            assert(edges@.take(e + 1).drop_last() =~= edges@.take(e as int));
            assert(edges@.take(e + 1).last() == edge);
            if self.graph.name_of(flow.into).is_some() && self.graph.name_of(flow.from).is_some() {
                let mut route = found[looked].route.clone();
                route.push(edge);
                let reached = Reached { node: flow.from, route };
                found.push(reached);
                proof {
                    assert(routes_of(found@) =~= routes_of(earlier).push(extended.push(edge)));
                    assert(routes_of(found@) =~= routes + extensions(
                        graph,
                        extended,
                        edges@.take(e + 1),
                    ));
                }
            }
            e += 1;
        }
        assert(edges@.take(e as int) =~= edges@);
    }

    /// Every place a label is reached from a node, not just the first.
    ///
    /// A node that does the thing twelve times has twelve reasons, and
    /// reporting one of them surfaces the rest a re-run at a time. This returns
    /// one witness per seed at the first node that carries any. It deliberately
    /// does not enumerate every route through the graph: the number of paths
    /// between two nodes is exponential.
    #[verifier::rlimit(40)]
    #[verifier::spinoff_prover]
    pub fn witnesses(&self, start: u64, label: u8) -> (witnesses: Vec<Witness>)
        ensures
            are_witnesses(self@, start, label, witness_views(witnesses@)),
    {
        broadcast use vstd::std_specs::btree::group_btree_axioms;

        let ghost graph = self@;
        let first = Reached { node: start, route: Vec::new() };
        let mut found: Vec<Reached> = Vec::new();
        found.push(first);
        let mut seen: BTreeSet<u64> = BTreeSet::new();
        let ghost mut best: Map<u64, Seq<usize>> = Map::empty();
        let mut looked: usize = 0;
        assert(graph.flows.len() == self.graph.flows.len());
        while looked < found.len()
            invariant
                graph == self@,
                graph.flows.len() <= usize::MAX,
                looked <= found@.len(),
                seen@ == best.dom(),
                searching(graph, start, label, routes_of(found@), looked as int, best),
                forall|k: int|
                    0 <= k < found@.len() ==> (#[trigger] found@[k]).node == end_of(
                        graph,
                        start,
                        found@[k].route@,
                    ),
            decreases unexplored(graph.flows, seen@) + found@.len() - looked,
        {
            let current: u64 = found[looked].node;
            let ghost routes = routes_of(found@);
            let ghost before = seen@;
            assert(routes[looked as int] == found@[looked as int].route@);
            if !seen.insert(current) {
                proof {
                    assert(before.contains(current));
                    assert(seen@ =~= before);
                    lemma_skipped(graph, start, label, routes, looked as int, best);
                }
                looked += 1;
                continue;
            }
            assert(!before.contains(current));
            if let Some(witnesses) = self.told_witnesses(
                current,
                label,
                &found[looked].route,
                Ghost(start),
            ) {
                proof {
                    let route = routes[looked as int];
                    assert forall|other: Seq<usize>| #[trigger]
                        arrives(graph, start, label, other) implies other == route || precedes(
                        route,
                        other,
                    ) by {
                        assert(!best.contains_key(end_of(graph, start, other)));
                        lemma_next_is_first(
                            graph,
                            start,
                            label,
                            routes,
                            looked as int,
                            best,
                            other,
                        );
                    }
                    assert(first_arrival(graph, start, label, route));
                }
                return witnesses;
            }
            let edges = self.edges_into(current);
            proof {
                lemma_places(ends(graph.flows), current);
                lemma_looked(graph, start, label, routes, looked as int, best);
                lemma_explored(graph.flows, before, current);
                lemma_extensions(graph, routes[looked as int], edges@);
                best = best.insert(current, routes[looked as int]);
                assert(seen@ =~= best.dom());
            }
            self.extend_found(&mut found, looked, &edges, Ghost(start));
            looked += 1;
        }
        proof {
            assert forall|route: Seq<usize>| !(#[trigger] arrives(graph, start, label, route)) by {
                if arrives(graph, start, label, route) {
                    assert(!best.contains_key(end_of(graph, start, route)));
                    let k = lemma_frontier(
                        graph,
                        start,
                        label,
                        routes_of(found@),
                        looked as int,
                        best,
                        route,
                    );
                }
            }
        }
        Vec::new()
    }

    /// The first witness.
    pub fn witness(&self, start: u64, label: u8) -> (witness: Option<Witness>)
        ensures
            exists|all: Seq<WitnessView>| #[trigger]
                are_witnesses(self@, start, label, all) && match witness {
                    Some(witness) => all.len() > 0 && all[0] == witness@,
                    None => all.len() == 0,
                },
    {
        let mut all = self.witnesses(start, label);
        let ghost views = witness_views(all@);
        assert(are_witnesses(self@, start, label, views));
        if all.len() == 0 {
            None
        } else {
            assert(views[0] == all@[0]@);
            Some(all.swap_remove(0))
        }
    }
}

/// Between two neighbouring places of a node, or before the first and after the
/// last, it does not stand.
proof fn lemma_between(nodes: Seq<u64>, node: u64, k: int, i: int)
    requires
        nodes.len() <= usize::MAX,
        -1 <= k < places(nodes, node).len(),
        0 <= i < nodes.len(),
        k >= 0 ==> places(nodes, node)[k] < i,
        k + 1 < places(nodes, node).len() ==> i < places(nodes, node)[k + 1],
    ensures
        nodes[i] != node,
{
    lemma_places(nodes, node);
    let all = places(nodes, node);
    if nodes[i] == node {
        assert(all.contains(i as usize));
        let m = choose|m: int| 0 <= m < all.len() && all[m] == i as usize;
        if m < k {
            assert(all[m] < all[k]);
        } else if m > k + 1 {
            assert(all[k + 1] < all[m]);
        }
    }
}

/// Seeds at other nodes make no witness.
proof fn lemma_told_none(
    graph: GraphView,
    node: u64,
    label: u8,
    route: Seq<usize>,
    from: int,
    to: int,
)
    requires
        0 <= from <= to <= graph.seeds.len(),
        forall|i: int| from <= i < to ==> (#[trigger] graph.seeds[i]).node != node,
    ensures
        told_all(graph, node, label, route, graph.seeds.take(to)) == told_all(
            graph,
            node,
            label,
            route,
            graph.seeds.take(from),
        ),
    decreases to - from,
{
    if from < to {
        lemma_told_none(graph, node, label, route, from, to - 1);
        assert(graph.seeds.take(to).drop_last() =~= graph.seeds.take(to - 1));
        assert(graph.seeds.take(to).last() == graph.seeds[to - 1]);
    }
}

} // verus!
