//! Label propagation over a graph, with the path that carried each label.
//!
//! Two analyses ask the same question of different graphs. Effects ask which
//! callables reach an allocator, over a graph of calls. Ownership asks where a
//! field's value came from, over a graph of assignments. Both seed some nodes,
//! close the seeds over the edges, and then have to say *why*, because a
//! propagated label with no route back to its origin is a claim a reader cannot
//! check.
//!
//! Nodes are opaque identifiers, labels are opaque bytes, and each analysis owns
//! the meaning of both. A label at `from` flows `into` another node; the witness
//! search walks `into -> from` until it reaches a seed, which is the direction a
//! reader traces the argument anyway.

pub mod trace;

use crate::facts::{
    lemma_span_order, long_compared, settled, span_order, SourceSpan, SpanView,
};
use crate::ordering::{
    ascends, keys, law_settling_ignores_order, put, settled_list, settles_into, Ordered,
};
use crate::text::{number_order, settled_by, text_compared, text_order, Comparison};
use std::collections::{BTreeMap, BTreeSet};
use vstd::prelude::*;

verus! {

/// An edge along which labels travel: a label at `from` flows `into` a node.
/// The span is where the edge is written in the source.
#[derive(Debug, PartialEq, Eq, Hash)]
pub struct Flow {
    pub into: u64,
    pub from: u64,
    pub span: SourceSpan,
}

/// The content of a [`Flow`].
pub struct FlowView {
    pub into: u64,
    pub from: u64,
    pub span: SpanView,
}

impl View for Flow {
    type V = FlowView;

    open spec fn view(&self) -> FlowView {
        FlowView { into: self.into, from: self.from, span: self.span@ }
    }
}

impl Clone for Flow {
    fn clone(&self) -> (copy: Self)
        ensures
            copy == *self,
    {
        Flow { into: self.into, from: self.from, span: self.span.clone() }
    }
}

/// A label a node carries directly, and where that was established. The origin
/// names the thing outside the graph that justifies the label.
#[derive(Debug, PartialEq, Eq, Hash)]
pub struct Seed {
    pub node: u64,
    pub label: u8,
    pub origin: String,
    pub span: SourceSpan,
}

/// The content of a [`Seed`].
pub struct SeedView {
    pub node: u64,
    pub label: u8,
    pub origin: Seq<char>,
    pub span: SpanView,
}

impl View for Seed {
    type V = SeedView;

    open spec fn view(&self) -> SeedView {
        SeedView { node: self.node, label: self.label, origin: self.origin@, span: self.span@ }
    }
}

impl Clone for Seed {
    fn clone(&self) -> (copy: Self)
        ensures
            copy == *self,
    {
        Seed {
            node: self.node,
            label: self.label,
            origin: self.origin.clone(),
            span: self.span.clone(),
        }
    }
}

/// One step of a witness: a node, what it drew the label from, and where.
#[derive(Debug, PartialEq, Eq, Hash)]
pub struct WitnessEdge {
    pub subject: String,
    pub source: String,
    pub span: SourceSpan,
}

/// The content of a [`WitnessEdge`].
pub struct EdgeView {
    pub subject: Seq<char>,
    pub source: Seq<char>,
    pub span: SpanView,
}

impl View for WitnessEdge {
    type V = EdgeView;

    open spec fn view(&self) -> EdgeView {
        EdgeView { subject: self.subject@, source: self.source@, span: self.span@ }
    }
}

impl Clone for WitnessEdge {
    fn clone(&self) -> (copy: Self)
        ensures
            copy == *self,
    {
        WitnessEdge {
            subject: self.subject.clone(),
            source: self.source.clone(),
            span: self.span.clone(),
        }
    }
}

/// Why a node carries a label: the route from the claim back to its origin.
#[derive(Debug, Clone, PartialEq, Eq, Hash)]
pub struct Witness {
    pub label: u8,
    pub origin: String,
    pub path: Vec<WitnessEdge>,
}

/// The content of a [`Witness`].
pub struct WitnessView {
    pub label: u8,
    pub origin: Seq<char>,
    pub path: Seq<EdgeView>,
}

/// The contents of the steps of a witness.
pub open spec fn edge_views(edges: Seq<WitnessEdge>) -> Seq<EdgeView> {
    Seq::new(edges.len(), |i: int| edges[i]@)
}

impl View for Witness {
    type V = WitnessView;

    open spec fn view(&self) -> WitnessView {
        WitnessView { label: self.label, origin: self.origin@, path: edge_views(self.path@) }
    }
}

/// The contents of several witnesses.
pub open spec fn witness_views(witnesses: Seq<Witness>) -> Seq<WitnessView> {
    Seq::new(witnesses.len(), |i: int| witnesses[i]@)
}

/// A node and a label it carries, whether seeded or inherited.
#[derive(Debug, Clone, Copy, PartialEq, Eq, PartialOrd, Ord, Hash, Structural)]
pub struct Labelled {
    pub node: u64,
    pub label: u8,
}

impl Default for Labelled {
    fn default() -> (labelled: Self)
        ensures
            labelled == (Labelled { node: 0, label: 0 }),
    {
        Labelled { node: 0, label: 0 }
    }
}

/// How two edges compare: by where they lead, by where they come from, and by
/// where they are written.
pub open spec fn flow_order(left: FlowView, right: FlowView) -> Comparison {
    settled_by(
        number_order(left.into as int, right.into as int),
        settled_by(
            number_order(left.from as int, right.from as int),
            span_order(left.span, right.span),
        ),
    )
}

impl Ordered for Flow {
    type Key = FlowView;

    open spec fn key(&self) -> FlowView {
        self@
    }

    open spec fn order(left: FlowView, right: FlowView) -> Comparison {
        flow_order(left, right)
    }

    proof fn order_is_total(first: FlowView, second: FlowView, third: FlowView) {
        lemma_span_order(first.span, second.span, third.span);
        lemma_span_order(second.span, first.span, third.span);
    }

    fn ordered(&self, other: &Self) -> (order: Comparison) {
        settled(
            long_compared(self.into, other.into),
            settled(long_compared(self.from, other.from), self.span.compared(&other.span)),
        )
    }
}

/// How two seeds compare: by node, label, origin and where they are written.
pub open spec fn seed_order(left: SeedView, right: SeedView) -> Comparison {
    settled_by(
        number_order(left.node as int, right.node as int),
        settled_by(
            number_order(left.label as int, right.label as int),
            settled_by(
                text_order(left.origin, right.origin),
                span_order(left.span, right.span),
            ),
        ),
    )
}

impl Ordered for Seed {
    type Key = SeedView;

    open spec fn key(&self) -> SeedView {
        self@
    }

    open spec fn order(left: SeedView, right: SeedView) -> Comparison {
        seed_order(left, right)
    }

    proof fn order_is_total(first: SeedView, second: SeedView, third: SeedView) {
        lemma_span_order(first.span, second.span, third.span);
        crate::text::lemma_text_order_total(first.origin, second.origin, third.origin);
    }

    fn ordered(&self, other: &Self) -> (order: Comparison) {
        settled(
            long_compared(self.node, other.node),
            settled(
                long_compared(self.label as u64, other.label as u64),
                settled(
                    text_compared(self.origin.as_str(), other.origin.as_str()),
                    self.span.compared(&other.span),
                ),
            ),
        )
    }
}

impl Ordered for Labelled {
    type Key = Labelled;

    open spec fn key(&self) -> Labelled {
        *self
    }

    open spec fn order(left: Labelled, right: Labelled) -> Comparison {
        settled_by(
            number_order(left.node as int, right.node as int),
            number_order(left.label as int, right.label as int),
        )
    }

    proof fn order_is_total(first: Labelled, second: Labelled, third: Labelled) {
    }

    fn ordered(&self, other: &Self) -> (order: Comparison) {
        settled(
            long_compared(self.node, other.node),
            long_compared(self.label as u64, other.label as u64),
        )
    }
}

/// A graph, its seeds, and a name for each node. A node identifier is an index;
/// a reader of a witness needs the callable path or the field it stands for.
pub struct Graph {
    flows: Vec<Flow>,
    seeds: Vec<Seed>,
    names: BTreeMap<u64, String>,
}

/// The content of a [`Graph`].
#[verifier::ext_equal]
pub struct GraphView {
    pub flows: Seq<FlowView>,
    pub seeds: Seq<SeedView>,
    pub names: Map<u64, Seq<char>>,
}

impl View for Graph {
    type V = GraphView;

    closed spec fn view(&self) -> GraphView {
        GraphView {
            flows: keys(self.flows@),
            seeds: keys(self.seeds@),
            names: self.names@.map_values(|name: String| name@),
        }
    }
}

/// Whether a node carries a label that travelled at most so many edges.
pub open spec fn carries_within(graph: GraphView, node: u64, label: u8, steps: nat) -> bool
    decreases steps,
{
    ||| exists|i: int|
        0 <= i < graph.seeds.len() && (#[trigger] graph.seeds[i]).node == node
            && graph.seeds[i].label == label
    ||| steps > 0 && exists|i: int|
        0 <= i < graph.flows.len() && (#[trigger] graph.flows[i]).into == node && carries_within(
            graph,
            graph.flows[i].from,
            label,
            (steps - 1) as nat,
        )
}

/// Whether a node carries a label: it is seeded there, or flows into it from a
/// node that carries it.
pub open spec fn carries(graph: GraphView, node: u64, label: u8) -> bool {
    exists|steps: nat| carries_within(graph, node, label, steps)
}

/// A label that travelled few edges has travelled at most many.
proof fn lemma_carries_more(graph: GraphView, node: u64, label: u8, few: nat, many: nat)
    requires
        few <= many,
        carries_within(graph, node, label, few),
    ensures
        carries_within(graph, node, label, many),
    decreases few,
{
    if !(exists|i: int|
        0 <= i < graph.seeds.len() && (#[trigger] graph.seeds[i]).node == node
            && graph.seeds[i].label == label) {
        let i = choose|i: int|
            0 <= i < graph.flows.len() && (#[trigger] graph.flows[i]).into == node
                && carries_within(graph, graph.flows[i].from, label, (few - 1) as nat);
        lemma_carries_more(
            graph,
            graph.flows[i].from,
            label,
            (few - 1) as nat,
            (many - 1) as nat,
        );
    }
}

/// A node carries a label exactly when it is seeded there or an edge leads into
/// it from a node that carries it.
pub proof fn law_labels_follow_edges(graph: GraphView, node: u64, label: u8)
    ensures
        carries(graph, node, label) <==> {
            ||| exists|i: int|
                0 <= i < graph.seeds.len() && (#[trigger] graph.seeds[i]).node == node
                    && graph.seeds[i].label == label
            ||| exists|i: int|
                0 <= i < graph.flows.len() && (#[trigger] graph.flows[i]).into == node && carries(
                    graph,
                    graph.flows[i].from,
                    label,
                )
        },
{
    if carries(graph, node, label) {
        let steps = choose|steps: nat| carries_within(graph, node, label, steps);
        if steps > 0 && exists|i: int|
            0 <= i < graph.flows.len() && (#[trigger] graph.flows[i]).into == node
                && carries_within(graph, graph.flows[i].from, label, (steps - 1) as nat) {
            let i = choose|i: int|
                0 <= i < graph.flows.len() && (#[trigger] graph.flows[i]).into == node
                    && carries_within(graph, graph.flows[i].from, label, (steps - 1) as nat);
            assert(carries(graph, graph.flows[i].from, label));
        }
    }
    if exists|i: int|
        0 <= i < graph.seeds.len() && (#[trigger] graph.seeds[i]).node == node
            && graph.seeds[i].label == label {
        assert(carries_within(graph, node, label, 0));
    }
    if exists|i: int|
        0 <= i < graph.flows.len() && (#[trigger] graph.flows[i]).into == node && carries(
            graph,
            graph.flows[i].from,
            label,
        ) {
        let i = choose|i: int|
            0 <= i < graph.flows.len() && (#[trigger] graph.flows[i]).into == node && carries(
                graph,
                graph.flows[i].from,
                label,
            );
        let steps = choose|steps: nat|
            carries_within(graph, graph.flows[i].from, label, steps);
        assert(carries_within(graph, node, label, steps + 1));
    }
}

/// Whether some labelled nodes hold every seed and everything an edge leads to
/// from one of them.
pub open spec fn closed_under(graph: GraphView, carried: Set<Labelled>) -> bool {
    &&& forall|i: int|
        #![trigger graph.seeds[i]]
        0 <= i < graph.seeds.len() ==> carried.contains(
            Labelled { node: graph.seeds[i].node, label: graph.seeds[i].label },
        )
    &&& forall|i: int, label: u8|
        #![trigger carried.contains(Labelled { node: graph.flows[i].from, label })]
        0 <= i < graph.flows.len() && carried.contains(
            Labelled { node: graph.flows[i].from, label },
        ) ==> carried.contains(Labelled { node: graph.flows[i].into, label })
}

/// The labels a graph carries are the fewest that hold every seed and follow
/// every edge: whatever else does so holds them too.
pub proof fn law_carried_labels_are_fewest(
    graph: GraphView,
    carried: Set<Labelled>,
    node: u64,
    label: u8,
)
    requires
        closed_under(graph, carried),
        carries(graph, node, label),
    ensures
        carried.contains(Labelled { node, label }),
{
    let steps = choose|steps: nat| carries_within(graph, node, label, steps);
    lemma_closed_holds(graph, carried, node, label, steps);
}

/// Labelled nodes that hold every seed and follow every edge hold what
/// travelled any number of edges.
proof fn lemma_closed_holds(
    graph: GraphView,
    carried: Set<Labelled>,
    node: u64,
    label: u8,
    steps: nat,
)
    requires
        closed_under(graph, carried),
        carries_within(graph, node, label, steps),
    ensures
        carried.contains(Labelled { node, label }),
    decreases steps,
{
    if exists|i: int|
        0 <= i < graph.seeds.len() && (#[trigger] graph.seeds[i]).node == node
            && graph.seeds[i].label == label {
    } else {
        let i = choose|i: int|
            0 <= i < graph.flows.len() && (#[trigger] graph.flows[i]).into == node
                && carries_within(graph, graph.flows[i].from, label, (steps - 1) as nat);
        lemma_closed_holds(graph, carried, graph.flows[i].from, label, (steps - 1) as nat);
    }
}

/// A graph with nothing in it.
pub open spec fn empty_graph() -> GraphView {
    GraphView { flows: Seq::empty(), seeds: Seq::empty(), names: Map::empty() }
}

/// Every node and label that a seed or an edge could bring together.
spec fn candidates(graph: GraphView) -> Set<Labelled> {
    candidate_list(graph, graph.flows.len(), graph.seeds.len()).to_set()
}

/// The pairs of the first so many edges and seeds.
spec fn candidate_list(graph: GraphView, flows: nat, seeds: nat) -> Seq<Labelled>
    decreases seeds,
{
    if seeds == 0 {
        Seq::empty()
    } else {
        let label = graph.seeds[seeds - 1].label;
        candidate_list(graph, flows, (seeds - 1) as nat).push(
            Labelled { node: graph.seeds[seeds - 1].node, label },
        ) + Seq::new(flows, |i: int| Labelled { node: graph.flows[i].into, label })
    }
}

/// The pairs hold each seed, and the end of each edge with each seeded label.
proof fn lemma_candidates(graph: GraphView, seeds: nat, j: int)
    requires
        0 <= j < seeds <= graph.seeds.len(),
    ensures
        candidate_list(graph, graph.flows.len(), seeds).contains(
            Labelled { node: graph.seeds[j].node, label: graph.seeds[j].label },
        ),
        forall|i: int|
            #![trigger graph.flows[i]]
            0 <= i < graph.flows.len() ==> candidate_list(
                graph,
                graph.flows.len(),
                seeds,
            ).contains(Labelled { node: graph.flows[i].into, label: graph.seeds[j].label }),
    decreases seeds,
{
    let flows = graph.flows.len();
    let all = candidate_list(graph, flows, seeds);
    let before = candidate_list(graph, flows, (seeds - 1) as nat);
    let label = graph.seeds[seeds - 1].label;
    let own = Labelled { node: graph.seeds[seeds - 1].node, label };
    let ends = Seq::new(flows, |i: int| Labelled { node: graph.flows[i].into, label });
    assert(all == before.push(own) + ends);
    if j == seeds - 1 {
        assert(all[before.len() as int] == own);
        assert forall|i: int|
            #![trigger graph.flows[i]]
            0 <= i < graph.flows.len() implies all.contains(
            Labelled { node: graph.flows[i].into, label },
        ) by {
            assert(all[before.len() + 1 + i] == ends[i]);
        }
    } else {
        lemma_candidates(graph, (seeds - 1) as nat, j);
        assert forall|pair: Labelled| before.contains(pair) implies all.contains(pair) by {
            let k = choose|k: int| 0 <= k < before.len() && before[k] == pair;
            assert(all[k] == pair);
        }
    }
}

/// Whether a label is one that some seed brings in.
spec fn seeded_label(graph: GraphView, label: u8) -> bool {
    exists|j: int| 0 <= j < graph.seeds.len() && (#[trigger] graph.seeds[j]).label == label
}

/// Distinct candidates are no more than all of them.
proof fn lemma_carried_bounded(graph: GraphView, carried: Seq<Labelled>)
    requires
        carried.no_duplicates(),
        forall|k: int|
            0 <= k < carried.len() ==> candidates(graph).contains(#[trigger] carried[k]),
    ensures
        carried.len() <= candidates(graph).len(),
{
    carried.unique_seq_to_set();
    let list = candidate_list(graph, graph.flows.len(), graph.seeds.len());
    vstd::seq_lib::seq_to_set_is_finite(list);
    assert(carried.to_set().subset_of(candidates(graph)));
    vstd::set_lib::lemma_len_subset(carried.to_set(), candidates(graph));
}

impl Default for Graph {
    fn default() -> (graph: Self)
        ensures
            graph@ == empty_graph(),
    {
        Graph::new()
    }
}

impl Graph {
    /// A graph with nothing in it.
    pub fn new() -> (graph: Self)
        ensures
            graph@ == empty_graph(),
    {
        let graph = Graph { flows: Vec::new(), seeds: Vec::new(), names: BTreeMap::new() };
        assert(graph@ =~= empty_graph());
        graph
    }

    /// Names a node, so witnesses through it can be read.
    ///
    /// A node with no name is not an error: the search declines to route a
    /// witness through it rather than inventing a label for it.
    pub fn name(&mut self, node: u64, name: String) -> (graph: &mut Self)
        ensures
            graph@ == (GraphView { names: old(self)@.names.insert(node, name@), ..old(self)@ }),
            *final(self) == *final(graph),
    {
        broadcast use vstd::std_specs::btree::group_btree_axioms;

        let ghost before = self@;
        self.names.insert(node, name);
        assert(self@ =~= GraphView { names: before.names.insert(node, name@), ..before });
        self
    }

    /// Adds an edge.
    pub fn flow(&mut self, flow: Flow) -> (graph: &mut Self)
        ensures
            graph@ == (GraphView { flows: old(self)@.flows.push(flow@), ..old(self)@ }),
            *final(self) == *final(graph),
    {
        let ghost before = self@;
        self.flows.push(flow);
        assert(self@ =~= GraphView { flows: before.flows.push(flow@), ..before });
        self
    }

    /// Adds a seed.
    pub fn seed(&mut self, seed: Seed) -> (graph: &mut Self)
        ensures
            graph@ == (GraphView { seeds: old(self)@.seeds.push(seed@), ..old(self)@ }),
            *final(self) == *final(graph),
    {
        let ghost before = self@;
        self.seeds.push(seed);
        assert(self@ =~= GraphView { seeds: before.seeds.push(seed@), ..before });
        self
    }

    /// Adds several edges.
    pub fn extend_flows(&mut self, flows: Vec<Flow>) -> (graph: &mut Self)
        ensures
            graph@ == (GraphView { flows: old(self)@.flows + keys(flows@), ..old(self)@ }),
            *final(self) == *final(graph),
    {
        let ghost before = self@;
        let ghost added = flows@;
        let mut flows = flows;
        self.flows.append(&mut flows);
        assert(self@ =~= GraphView { flows: before.flows + keys(added), ..before });
        self
    }

    /// Adds several seeds.
    pub fn extend_seeds(&mut self, seeds: Vec<Seed>) -> (graph: &mut Self)
        ensures
            graph@ == (GraphView { seeds: old(self)@.seeds + keys(seeds@), ..old(self)@ }),
            *final(self) == *final(graph),
    {
        let ghost before = self@;
        let ghost added = seeds@;
        let mut seeds = seeds;
        self.seeds.append(&mut seeds);
        assert(self@ =~= GraphView { seeds: before.seeds + keys(added), ..before });
        self
    }

    /// Sorts and removes what is repeated, so a run is reproducible whatever
    /// order the graph was discovered in.
    pub fn settle(&mut self) -> (graph: &mut Self)
        ensures
            settles_into::<Flow>(old(self)@.flows, graph@.flows),
            settles_into::<Seed>(old(self)@.seeds, graph@.seeds),
            graph@.names == old(self)@.names,
            *final(self) == *final(graph),
    {
        let mut flows: Vec<Flow> = Vec::new();
        std::mem::swap(&mut flows, &mut self.flows);
        self.flows = settled_list(flows);
        let mut seeds: Vec<Seed> = Vec::new();
        std::mem::swap(&mut seeds, &mut self.seeds);
        self.seeds = settled_list(seeds);
        self
    }

    /// The edges.
    pub fn flows(&self) -> (flows: &[Flow])
        ensures
            keys(flows@) == self@.flows,
    {
        self.flows.as_slice()
    }

    /// The seeds.
    pub fn seeds(&self) -> (seeds: &[Seed])
        ensures
            keys(seeds@) == self@.seeds,
    {
        self.seeds.as_slice()
    }

    /// Every label each node carries, following edges transitively, in order
    /// and without repetition.
    pub fn propagate(&self) -> (carried: Vec<Labelled>)
        ensures
            ascends::<Labelled>(carried@),
            forall|node: u64, label: u8|
                carried@.contains(Labelled { node, label }) <==> carries(self@, node, label),
    {
        let ghost graph = self@;
        let mut carried: Vec<Labelled> = Vec::new();
        let mut pending: Vec<Labelled> = Vec::new();
        let mut i: usize = 0;
        assert(keys(carried@) =~= carried@);
        while i < self.seeds.len()
            invariant
                graph == self@,
                i <= self.seeds@.len(),
                keys(carried@) == carried@,
                ascends::<Labelled>(carried@),
                pending@.no_duplicates(),
                forall|pair: Labelled| carried@.contains(pair) <==> pending@.contains(pair),
                forall|j: int|
                    #![trigger graph.seeds[j]]
                    0 <= j < i ==> carried@.contains(
                        Labelled { node: graph.seeds[j].node, label: graph.seeds[j].label },
                    ),
                forall|k: int|
                    #![trigger pending@[k]]
                    0 <= k < pending@.len() ==> known(graph, pending@[k]),
            decreases self.seeds@.len() - i,
        {
            let seed = &self.seeds[i];
            let pair = Labelled { node: seed.node, label: seed.label };
            let ghost was_carried = carried@;
            let ghost was_pending = pending@;
            let fresh = put(&mut carried, pair);
            proof {
                assert(keys(carried@) =~= carried@);
                assert(graph.seeds[i as int] == self.seeds@[i as int]@);
                assert(carries_within(graph, pair.node, pair.label, 0));
                assert(known(graph, pair)) by {
                    lemma_candidates(graph, graph.seeds.len(), i as int);
                }
                assert forall|key: Labelled| #[trigger] carried@.contains(key) <==> key == pair
                    || was_carried.contains(key) by {
                    assert(keys(carried@).contains(key) <==> key == pair.key() || keys(
                        was_carried,
                    ).contains(key));
                }
            }
            if fresh {
                pending.push(pair);
            }
            proof {
                assert forall|key: Labelled| carried@.contains(key) <==> pending@.contains(
                    key,
                ) by {
                    assert(carried@.contains(key) <==> key == pair || was_carried.contains(key));
                    if fresh {
                        lemma_push_contains(was_pending, pair, key);
                    }
                }
            }
            i += 1;
        }
        let mut next: usize = 0;
        while next < pending.len()
            invariant
                graph == self@,
                next <= pending@.len(),
                keys(carried@) == carried@,
                ascends::<Labelled>(carried@),
                pending@.no_duplicates(),
                forall|pair: Labelled| carried@.contains(pair) <==> pending@.contains(pair),
                forall|j: int|
                    #![trigger graph.seeds[j]]
                    0 <= j < graph.seeds.len() ==> carried@.contains(
                        Labelled { node: graph.seeds[j].node, label: graph.seeds[j].label },
                    ),
                forall|k: int|
                    #![trigger pending@[k]]
                    0 <= k < pending@.len() ==> known(graph, pending@[k]),
                forall|k: int, f: int|
                    #![trigger pending@[k], graph.flows[f]]
                    0 <= k < next && 0 <= f < graph.flows.len() && graph.flows[f].from
                        == pending@[k].node ==> carried@.contains(
                        Labelled { node: graph.flows[f].into, label: pending@[k].label },
                    ),
            decreases candidates(graph).len() - next,
        {
            let from = pending[next];
            proof {
                lemma_carried_bounded(graph, pending@);
            }
            let mut f: usize = 0;
            while f < self.flows.len()
                invariant
                    graph == self@,
                    next < pending@.len(),
                    from == pending@[next as int],
                    f <= self.flows@.len(),
                    keys(carried@) == carried@,
                    ascends::<Labelled>(carried@),
                    pending@.no_duplicates(),
                    forall|pair: Labelled| carried@.contains(pair) <==> pending@.contains(pair),
                    forall|j: int|
                        #![trigger graph.seeds[j]]
                        0 <= j < graph.seeds.len() ==> carried@.contains(
                            Labelled { node: graph.seeds[j].node, label: graph.seeds[j].label },
                        ),
                    forall|k: int|
                        #![trigger pending@[k]]
                        0 <= k < pending@.len() ==> known(graph, pending@[k]),
                    forall|k: int, g: int|
                        #![trigger pending@[k], graph.flows[g]]
                        0 <= g < graph.flows.len() && graph.flows[g].from == pending@[k].node && (0
                            <= k < next || (k == next && g < f)) ==> carried@.contains(
                            Labelled { node: graph.flows[g].into, label: pending@[k].label },
                        ),
                decreases self.flows@.len() - f,
            {
                assert(graph.flows[f as int] == self.flows@[f as int]@);
                if self.flows[f].from == from.node {
                    let pair = Labelled { node: self.flows[f].into, label: from.label };
                    let ghost was_carried = carried@;
                    let ghost was_pending = pending@;
                    let fresh = put(&mut carried, pair);
                    proof {
                        assert(keys(carried@) =~= carried@);
                        assert(known(graph, was_pending[next as int]));
                        lemma_known_follows(graph, from, f as int);
                        assert forall|key: Labelled| #[trigger]
                            carried@.contains(key) <==> key == pair || was_carried.contains(
                            key,
                        ) by {
                            assert(keys(carried@).contains(key) <==> key == pair.key() || keys(
                                was_carried,
                            ).contains(key));
                        }
                    }
                    if fresh {
                        pending.push(pair);
                    }
                    proof {
                        assert forall|key: Labelled|
                            carried@.contains(key) <==> pending@.contains(key) by {
                            assert(carried@.contains(key) <==> key == pair
                                || was_carried.contains(key));
                            if fresh {
                                lemma_push_contains(was_pending, pair, key);
                            }
                        }
                        assert forall|k: int, g: int|
                            #![trigger pending@[k], graph.flows[g]]
                            0 <= g < graph.flows.len() && graph.flows[g].from
                                == pending@[k].node && (0 <= k < next || (k == next && g < f
                                + 1)) implies carried@.contains(
                            Labelled { node: graph.flows[g].into, label: pending@[k].label },
                        ) by {
                            assert(pending@[k] == was_pending[k]);
                        }
                    }
                }
                f += 1;
            }
            next += 1;
        }
        proof {
            lemma_propagated(graph, carried@, pending@);
        }
        carried
    }
}

/// Whether a pair is one the graph carries and one of the candidates.
spec fn known(graph: GraphView, pair: Labelled) -> bool {
    &&& carries(graph, pair.node, pair.label)
    &&& seeded_label(graph, pair.label)
    &&& candidates(graph).contains(pair)
}

/// What an edge leads to from a known pair is known too.
proof fn lemma_known_follows(graph: GraphView, from: Labelled, f: int)
    requires
        known(graph, from),
        0 <= f < graph.flows.len(),
        graph.flows[f].from == from.node,
    ensures
        known(graph, Labelled { node: graph.flows[f].into, label: from.label }),
{
    law_labels_follow_edges(graph, graph.flows[f].into, from.label);
    let j = choose|j: int|
        0 <= j < graph.seeds.len() && (#[trigger] graph.seeds[j]).label == from.label;
    lemma_candidates(graph, graph.seeds.len(), j);
}

/// What a list holds after a push.
proof fn lemma_push_contains(list: Seq<Labelled>, pair: Labelled, key: Labelled)
    ensures
        list.push(pair).contains(key) <==> key == pair || list.contains(key),
{
    let after = list.push(pair);
    if after.contains(key) {
        let k = choose|k: int| 0 <= k < after.len() && after[k] == key;
        if k < list.len() {
            assert(list[k] == key);
        }
    }
    if list.contains(key) {
        let k = choose|k: int| 0 <= k < list.len() && list[k] == key;
        assert(after[k] == key);
    }
    assert(after[list.len() as int] == pair);
}

/// Once nothing is pending, what is carried is exactly what the graph carries.
proof fn lemma_propagated(graph: GraphView, carried: Seq<Labelled>, pending: Seq<Labelled>)
    requires
        forall|pair: Labelled| carried.contains(pair) <==> pending.contains(pair),
        forall|j: int|
            #![trigger graph.seeds[j]]
            0 <= j < graph.seeds.len() ==> carried.contains(
                Labelled { node: graph.seeds[j].node, label: graph.seeds[j].label },
            ),
        forall|k: int|
            #![trigger pending[k]]
            0 <= k < pending.len() ==> known(graph, pending[k]),
        forall|k: int, f: int|
            #![trigger pending[k], graph.flows[f]]
            0 <= k < pending.len() && 0 <= f < graph.flows.len() && graph.flows[f].from
                == pending[k].node ==> carried.contains(
                Labelled { node: graph.flows[f].into, label: pending[k].label },
            ),
    ensures
        forall|node: u64, label: u8|
            carried.contains(Labelled { node, label }) <==> carries(graph, node, label),
{
    let held = carried.to_set();
    assert(closed_under(graph, held)) by {
        assert forall|i: int, label: u8|
            #![trigger held.contains(Labelled { node: graph.flows[i].from, label })]
            0 <= i < graph.flows.len() && held.contains(
                Labelled { node: graph.flows[i].from, label },
            ) implies held.contains(Labelled { node: graph.flows[i].into, label }) by {
            let pair = Labelled { node: graph.flows[i].from, label };
            assert(carried.contains(pair));
            assert(pending.contains(pair));
            let k = choose|k: int| 0 <= k < pending.len() && pending[k] == pair;
            assert(pending[k] == pair);
        }
    }
    assert forall|node: u64, label: u8|
        carried.contains(Labelled { node, label }) <==> carries(graph, node, label) by {
        let pair = Labelled { node, label };
        if carried.contains(pair) {
            assert(pending.contains(pair));
            let k = choose|k: int| 0 <= k < pending.len() && pending[k] == pair;
            assert(known(graph, pending[k]));
        }
        if carries(graph, node, label) {
            law_carried_labels_are_fewest(graph, held, node, label);
        }
    }
}

/// Whether a witness may be routed along an edge: both its ends have a name.
pub open spec fn usable(graph: GraphView, i: int) -> bool {
    &&& 0 <= i < graph.flows.len()
    &&& graph.names.contains_key(graph.flows[i].into)
    &&& graph.names.contains_key(graph.flows[i].from)
}

/// Where a route from a node ends.
pub open spec fn end_of(graph: GraphView, start: u64, route: Seq<usize>) -> u64 {
    if route.len() == 0 {
        start
    } else {
        graph.flows[route.last() as int].from
    }
}

/// Whether edges, each starting where the one before it ends, lead away from a
/// node against the direction labels flow.
pub open spec fn is_route(graph: GraphView, start: u64, route: Seq<usize>) -> bool
    decreases route.len(),
{
    route.len() == 0 || {
        &&& is_route(graph, start, route.drop_last())
        &&& usable(graph, route.last() as int)
        &&& graph.flows[route.last() as int].into == end_of(graph, start, route.drop_last())
    }
}

/// Whether a label is seeded at a node that has a name.
pub open spec fn seeded_at(graph: GraphView, node: u64, label: u8) -> bool {
    &&& graph.names.contains_key(node)
    &&& exists|i: int|
        0 <= i < graph.seeds.len() && (#[trigger] graph.seeds[i]).node == node
            && graph.seeds[i].label == label
}

/// Whether a route leads from a node to where a label is seeded.
pub open spec fn arrives(graph: GraphView, start: u64, label: u8, route: Seq<usize>) -> bool {
    &&& is_route(graph, start, route)
    &&& seeded_at(graph, end_of(graph, start, route), label)
}

/// Whether one route comes before another of the same length: at the first
/// place they differ it takes the edge listed first.
pub open spec fn turns_first(left: Seq<usize>, right: Seq<usize>) -> bool
    decreases left.len(),
{
    left.len() > 0 && right.len() > 0 && (turns_first(left.drop_last(), right.drop_last()) || (
    left.drop_last() == right.drop_last() && left.last() < right.last()))
}

/// Whether one route comes before another: shorter ones first, and of the same
/// length those that take edges listed first.
pub open spec fn precedes(left: Seq<usize>, right: Seq<usize>) -> bool {
    left.len() < right.len() || (left.len() == right.len() && turns_first(left, right))
}

/// Whether a route is the first of all that arrive.
pub open spec fn first_arrival(
    graph: GraphView,
    start: u64,
    label: u8,
    route: Seq<usize>,
) -> bool {
    &&& arrives(graph, start, label, route)
    &&& forall|other: Seq<usize>|
        #[trigger] arrives(graph, start, label, other) ==> other == route || precedes(route, other)
}

/// What comes before something that comes before a third comes before it too.
proof fn lemma_precedes_transitive(first: Seq<usize>, second: Seq<usize>, third: Seq<usize>)
    requires
        precedes(first, second),
        precedes(second, third),
    ensures
        precedes(first, third),
{
    if first.len() == second.len() && second.len() == third.len() {
        lemma_turns_transitive(first, second, third);
    }
}

proof fn lemma_turns_transitive(first: Seq<usize>, second: Seq<usize>, third: Seq<usize>)
    requires
        turns_first(first, second),
        turns_first(second, third),
    ensures
        turns_first(first, third),
    decreases first.len(),
{
    if turns_first(first.drop_last(), second.drop_last()) && turns_first(
        second.drop_last(),
        third.drop_last(),
    ) {
        lemma_turns_transitive(first.drop_last(), second.drop_last(), third.drop_last());
    }
}

/// No route comes before itself.
proof fn lemma_precedes_irreflexive(route: Seq<usize>)
    ensures
        !precedes(route, route),
    decreases route.len(),
{
    if route.len() > 0 {
        lemma_precedes_irreflexive(route.drop_last());
    }
}

/// At most one route is the first to arrive.
pub proof fn law_first_arrival_is_unique(
    graph: GraphView,
    start: u64,
    label: u8,
    left: Seq<usize>,
    right: Seq<usize>,
)
    requires
        first_arrival(graph, start, label, left),
        first_arrival(graph, start, label, right),
    ensures
        left == right,
{
    if left != right {
        assert(arrives(graph, start, label, left));
        assert(arrives(graph, start, label, right));
        lemma_precedes_transitive(left, right, left);
        lemma_precedes_irreflexive(left);
    }
}

/// A node that a named route leads from to a seed carries the label seeded
/// there.
pub proof fn law_routes_carry_labels(graph: GraphView, start: u64, label: u8, route: Seq<usize>)
    requires
        arrives(graph, start, label, route),
    ensures
        carries(graph, start, label),
{
    law_labels_follow_edges(graph, end_of(graph, start, route), label);
    lemma_route_carries(graph, start, label, route);
}

/// A node carries what the end of a route from it carries.
proof fn lemma_route_carries(graph: GraphView, start: u64, label: u8, route: Seq<usize>)
    requires
        is_route(graph, start, route),
        carries(graph, end_of(graph, start, route), label),
    ensures
        carries(graph, start, label),
    decreases route.len(),
{
    if route.len() > 0 {
        let i = route.last() as int;
        law_labels_follow_edges(graph, graph.flows[i].into, label);
        lemma_route_carries(graph, start, label, route.drop_last());
    }
}

/// Whether every node that an edge or a seed speaks of has a name.
pub open spec fn all_named(graph: GraphView) -> bool {
    &&& forall|i: int|
        0 <= i < graph.flows.len() ==> graph.names.contains_key(
            (#[trigger] graph.flows[i]).into,
        ) && graph.names.contains_key(graph.flows[i].from)
    &&& forall|i: int|
        0 <= i < graph.seeds.len() ==> graph.names.contains_key((#[trigger] graph.seeds[i]).node)
}

/// Where every node has a name, a node that carries a label has a route to
/// where it is seeded.
pub proof fn law_carried_labels_have_routes(graph: GraphView, start: u64, label: u8) -> (route:
    Seq<usize>)
    requires
        carries(graph, start, label),
        graph.flows.len() <= usize::MAX,
        all_named(graph),
    ensures
        arrives(graph, start, label, route),
{
    let steps = choose|steps: nat| carries_within(graph, start, label, steps);
    lemma_steps_have_routes(graph, start, label, steps)
}

/// A label that travelled so many edges has a route.
proof fn lemma_steps_have_routes(graph: GraphView, start: u64, label: u8, steps: nat) -> (route:
    Seq<usize>)
    requires
        carries_within(graph, start, label, steps),
        graph.flows.len() <= usize::MAX,
        all_named(graph),
    ensures
        arrives(graph, start, label, route),
    decreases steps,
{
    if exists|i: int|
        0 <= i < graph.seeds.len() && (#[trigger] graph.seeds[i]).node == start
            && graph.seeds[i].label == label {
        assert(graph.names.contains_key(start));
        Seq::empty()
    } else {
        let i = choose|i: int|
            0 <= i < graph.flows.len() && (#[trigger] graph.flows[i]).into == start
                && carries_within(graph, graph.flows[i].from, label, (steps - 1) as nat);
        let rest = lemma_steps_have_routes(
            graph,
            graph.flows[i].from,
            label,
            (steps - 1) as nat,
        );
        assert(usable(graph, i));
        lemma_route_prepended(graph, start, i as usize, rest);
        seq![i as usize] + rest
    }
}

/// An edge in front of a route from where it comes from.
proof fn lemma_route_prepended(graph: GraphView, start: u64, i: usize, rest: Seq<usize>)
    requires
        usable(graph, i as int),
        graph.flows[i as int].into == start,
        is_route(graph, graph.flows[i as int].from, rest),
    ensures
        is_route(graph, start, seq![i] + rest),
        end_of(graph, start, seq![i] + rest) == end_of(graph, graph.flows[i as int].from, rest),
    decreases rest.len(),
{
    let whole = seq![i] + rest;
    if rest.len() == 0 {
        assert(whole =~= seq![i]);
        assert(whole.drop_last() =~= Seq::<usize>::empty());
        assert(is_route(graph, start, whole.drop_last()));
    } else {
        lemma_route_prepended(graph, start, i, rest.drop_last());
        assert(whole.drop_last() =~= seq![i] + rest.drop_last());
        assert(whole.last() == rest.last());
    }
}

/// The steps of a witness along a route.
pub open spec fn told_edges(graph: GraphView, route: Seq<usize>) -> Seq<EdgeView> {
    Seq::new(
        route.len(),
        |k: int|
            {
                let flow = graph.flows[route[k] as int];
                EdgeView {
                    subject: graph.names[flow.into],
                    source: graph.names[flow.from],
                    span: flow.span,
                }
            },
    )
}

/// The witness that a route and a seed where it ends make.
pub open spec fn told(
    graph: GraphView,
    node: u64,
    label: u8,
    route: Seq<usize>,
    seed: SeedView,
) -> WitnessView {
    WitnessView {
        label,
        origin: seed.origin,
        path: told_edges(graph, route).push(
            EdgeView { subject: graph.names[node], source: seed.origin, span: seed.span },
        ),
    }
}

/// The witnesses that a route makes, one for each of the seeds where it ends.
pub open spec fn told_all(
    graph: GraphView,
    node: u64,
    label: u8,
    route: Seq<usize>,
    seeds: Seq<SeedView>,
) -> Seq<WitnessView>
    decreases seeds.len(),
{
    if seeds.len() == 0 {
        Seq::empty()
    } else {
        let before = told_all(graph, node, label, route, seeds.drop_last());
        if seeds.last().node == node && seeds.last().label == label {
            before.push(told(graph, node, label, route, seeds.last()))
        } else {
            before
        }
    }
}

/// Where a seed is listed there is a witness, and only there.
proof fn lemma_told_all(
    graph: GraphView,
    node: u64,
    label: u8,
    route: Seq<usize>,
    seeds: Seq<SeedView>,
)
    ensures
        told_all(graph, node, label, route, seeds).len() > 0 <==> exists|i: int|
            0 <= i < seeds.len() && (#[trigger] seeds[i]).node == node && seeds[i].label == label,
    decreases seeds.len(),
{
    if seeds.len() > 0 {
        lemma_told_all(graph, node, label, route, seeds.drop_last());
        if exists|i: int|
            0 <= i < seeds.len() && (#[trigger] seeds[i]).node == node && seeds[i].label
                == label {
            let i = choose|i: int|
                0 <= i < seeds.len() && (#[trigger] seeds[i]).node == node && seeds[i].label
                    == label;
            if i < seeds.len() - 1 {
                assert(seeds.drop_last()[i] == seeds[i]);
            }
        }
        if told_all(graph, node, label, route, seeds.drop_last()).len() > 0 {
            let i = choose|i: int|
                0 <= i < seeds.len() - 1 && (#[trigger] seeds.drop_last()[i]).node == node
                    && seeds.drop_last()[i].label == label;
            assert(seeds[i] == seeds.drop_last()[i]);
        }
    }
}

/// What the witnesses of a label at a node are: those that the first route to
/// arrive makes, and none where no route arrives.
pub open spec fn are_witnesses(
    graph: GraphView,
    start: u64,
    label: u8,
    witnesses: Seq<WitnessView>,
) -> bool {
    ||| witnesses.len() == 0 && forall|route: Seq<usize>|
        !(#[trigger] arrives(graph, start, label, route))
    ||| exists|route: Seq<usize>| #[trigger]
        first_arrival(graph, start, label, route) && witnesses == told_all(
            graph,
            end_of(graph, start, route),
            label,
            route,
            graph.seeds,
        )
}

/// A node and a label have one list of witnesses.
pub proof fn law_witnesses_are_unique(
    graph: GraphView,
    start: u64,
    label: u8,
    left: Seq<WitnessView>,
    right: Seq<WitnessView>,
)
    requires
        are_witnesses(graph, start, label, left),
        are_witnesses(graph, start, label, right),
    ensures
        left == right,
{
    if exists|route: Seq<usize>| #[trigger] first_arrival(graph, start, label, route) {
        let route = choose|route: Seq<usize>| #[trigger]
            first_arrival(graph, start, label, route);
        assert(arrives(graph, start, label, route));
        let l = choose|l: Seq<usize>| #[trigger]
            first_arrival(graph, start, label, l) && left == told_all(
                graph,
                end_of(graph, start, l),
                label,
                l,
                graph.seeds,
            );
        let r = choose|r: Seq<usize>| #[trigger]
            first_arrival(graph, start, label, r) && right == told_all(
                graph,
                end_of(graph, start, r),
                label,
                r,
                graph.seeds,
            );
        law_first_arrival_is_unique(graph, start, label, l, r);
    } else {
        assert(left =~= right);
    }
}

/// A label has a witness exactly where some route arrives.
pub proof fn law_a_witness_for_every_arrival(
    graph: GraphView,
    start: u64,
    label: u8,
    witnesses: Seq<WitnessView>,
)
    requires
        are_witnesses(graph, start, label, witnesses),
    ensures
        witnesses.len() > 0 <==> exists|route: Seq<usize>| #[trigger]
            arrives(graph, start, label, route),
{
    if exists|route: Seq<usize>| #[trigger] first_arrival(graph, start, label, route)
        && witnesses == told_all(
        graph,
        end_of(graph, start, route),
        label,
        route,
        graph.seeds,
    ) {
        let route = choose|route: Seq<usize>| #[trigger]
            first_arrival(graph, start, label, route) && witnesses == told_all(
                graph,
                end_of(graph, start, route),
                label,
                route,
                graph.seeds,
            );
        assert(arrives(graph, start, label, route));
        lemma_told_all(graph, end_of(graph, start, route), label, route, graph.seeds);
    }
}

/// A witness starts at the claim, each of its steps draws from the next, and the
/// last draws from the origin.
pub proof fn law_a_witness_runs_from_claim_to_origin(
    graph: GraphView,
    start: u64,
    label: u8,
    route: Seq<usize>,
    seed: SeedView,
)
    requires
        arrives(graph, start, label, route),
        seed.node == end_of(graph, start, route),
        seed.label == label,
    ensures
        ({
            let witness = told(graph, end_of(graph, start, route), label, route, seed);
            &&& witness.label == label
            &&& witness.origin == seed.origin
            &&& witness.path.len() == route.len() + 1
            &&& witness.path[0].subject == graph.names[start]
            &&& witness.path.last().source == seed.origin
            &&& forall|k: int|
                0 <= k < route.len() ==> (#[trigger] witness.path[k]).source
                    == witness.path[k + 1].subject
        }),
{
    lemma_route_links(graph, start, route);
}

/// Each edge of a route leads into where the one before it comes from.
proof fn lemma_route_links(graph: GraphView, start: u64, route: Seq<usize>)
    requires
        is_route(graph, start, route),
    ensures
        route.len() > 0 ==> graph.flows[route[0] as int].into == start,
        forall|k: int|
            0 <= k < route.len() - 1 ==> graph.flows[#[trigger] route[k] as int].from
                == graph.flows[route[k + 1] as int].into,
        forall|k: int| 0 <= k < route.len() ==> usable(graph, #[trigger] route[k] as int),
    decreases route.len(),
{
    if route.len() > 0 {
        let before = route.drop_last();
        lemma_route_links(graph, start, before);
        assert forall|k: int| 0 <= k < route.len() - 1 implies graph.flows[#[trigger] route[k]
            as int].from == graph.flows[route[k + 1] as int].into by {
            assert(before[k] == route[k]);
            if k < before.len() - 1 {
                assert(before[k + 1] == route[k + 1]);
            }
        }
        assert forall|k: int| 0 <= k < route.len() implies usable(
            graph,
            #[trigger] route[k] as int,
        ) by {
            if k < before.len() {
                assert(before[k] == route[k]);
            }
        }
        if before.len() > 0 {
            assert(before[0] == route[0]);
        }
    }
}

/// Two graphs that hold the same edges and seeds are the same once settled,
/// whatever order they were discovered in and however often each was found.
pub proof fn law_settling_ignores_discovery_order(
    first: GraphView,
    second: GraphView,
    first_settled: GraphView,
    second_settled: GraphView,
)
    requires
        forall|flow: FlowView| first.flows.contains(flow) <==> second.flows.contains(flow),
        forall|seed: SeedView| first.seeds.contains(seed) <==> second.seeds.contains(seed),
        settles_into::<Flow>(first.flows, first_settled.flows),
        settles_into::<Seed>(first.seeds, first_settled.seeds),
        settles_into::<Flow>(second.flows, second_settled.flows),
        settles_into::<Seed>(second.seeds, second_settled.seeds),
    ensures
        first_settled.flows == second_settled.flows,
        first_settled.seeds == second_settled.seeds,
{
    law_settling_ignores_order::<Flow>(
        first.flows,
        second.flows,
        first_settled.flows,
        second_settled.flows,
    );
    law_settling_ignores_order::<Seed>(
        first.seeds,
        second.seeds,
        first_settled.seeds,
        second_settled.seeds,
    );
}

/// Settling a graph changes nothing about which labels its nodes carry.
pub proof fn law_settling_keeps_labels(graph: GraphView, settled: GraphView, node: u64, label: u8)
    requires
        settles_into::<Flow>(graph.flows, settled.flows),
        settles_into::<Seed>(graph.seeds, settled.seeds),
    ensures
        carries(graph, node, label) <==> carries(settled, node, label),
{
    assert forall|flow: FlowView| graph.flows.contains(flow) implies settled.flows.contains(
        flow,
    ) by {
        assert(settled.flows.contains(flow) <==> graph.flows.contains(flow));
    }
    assert forall|seed: SeedView| graph.seeds.contains(seed) implies settled.seeds.contains(
        seed,
    ) by {
        assert(settled.seeds.contains(seed) <==> graph.seeds.contains(seed));
    }
    if carries(graph, node, label) {
        let steps = choose|steps: nat| carries_within(graph, node, label, steps);
        lemma_larger_carries(graph, settled, node, label, steps);
    }
    if carries(settled, node, label) {
        let steps = choose|steps: nat| carries_within(settled, node, label, steps);
        lemma_larger_carries(settled, graph, node, label, steps);
    }
}

/// A graph that holds all that another holds carries all that it carries.
proof fn lemma_larger_carries(
    small: GraphView,
    large: GraphView,
    node: u64,
    label: u8,
    steps: nat,
)
    requires
        forall|flow: FlowView| small.flows.contains(flow) ==> large.flows.contains(flow),
        forall|seed: SeedView| small.seeds.contains(seed) ==> large.seeds.contains(seed),
        carries_within(small, node, label, steps),
    ensures
        carries_within(large, node, label, steps),
    decreases steps,
{
    if exists|i: int|
        0 <= i < small.seeds.len() && (#[trigger] small.seeds[i]).node == node
            && small.seeds[i].label == label {
        let i = choose|i: int|
            0 <= i < small.seeds.len() && (#[trigger] small.seeds[i]).node == node
                && small.seeds[i].label == label;
        assert(small.seeds.contains(small.seeds[i]));
        let j = choose|j: int| 0 <= j < large.seeds.len() && large.seeds[j] == small.seeds[i];
        assert(large.seeds[j].node == node);
    } else {
        let i = choose|i: int|
            0 <= i < small.flows.len() && (#[trigger] small.flows[i]).into == node
                && carries_within(small, small.flows[i].from, label, (steps - 1) as nat);
        assert(small.flows.contains(small.flows[i]));
        let j = choose|j: int| 0 <= j < large.flows.len() && large.flows[j] == small.flows[i];
        lemma_larger_carries(small, large, small.flows[i].from, label, (steps - 1) as nat);
        assert(large.flows[j].into == node);
    }
}

/// What happened to every construct a graph builder walked past.
///
/// A builder that classifies each construct into exactly one bucket can assert
/// [`Accounting::balances`], and then syntax it does not handle is loud rather
/// than silently absent.
#[derive(Debug, Clone, Copy, PartialEq, Eq, Structural)]
pub struct Accounting {
    /// Every construct considered.
    pub total: usize,
    /// Linked to another node in this graph.
    pub linked: usize,
    /// Seeded from knowledge outside the graph.
    pub seeded: usize,
    /// Recognized, and deliberately carries nothing.
    pub ignored: usize,
    /// Names something outside the corpus being analyzed.
    pub external: usize,
    /// Could refer to more than one thing, and syntax cannot choose.
    pub ambiguous: usize,
    /// Not placed at all.
    pub unknown: usize,
}

impl Default for Accounting {
    fn default() -> (accounting: Self)
        ensures
            accounting == (Accounting {
                total: 0,
                linked: 0,
                seeded: 0,
                ignored: 0,
                external: 0,
                ambiguous: 0,
                unknown: 0,
            }),
    {
        Accounting {
            total: 0,
            linked: 0,
            seeded: 0,
            ignored: 0,
            external: 0,
            ambiguous: 0,
            unknown: 0,
        }
    }
}

impl Accounting {
    /// How many constructs landed in a bucket.
    pub open spec fn placed(self) -> nat {
        (self.linked + self.seeded + self.ignored + self.external + self.ambiguous
            + self.unknown) as nat
    }

    /// How many constructs landed in a bucket.
    pub fn accounted(&self) -> (placed: usize)
        requires
            self.placed() <= usize::MAX,
        ensures
            placed == self.placed(),
    {
        self.linked + self.seeded + self.ignored + self.external + self.ambiguous + self.unknown
    }

    /// Whether every construct landed in exactly one bucket.
    pub fn balances(&self) -> (balanced: bool)
        requires
            self.placed() <= usize::MAX,
        ensures
            balanced == (self.total == self.placed()),
    {
        self.total == self.accounted()
    }

    /// Constructs that reached no node in the graph.
    pub fn unlinked(&self) -> (unlinked: usize)
        ensures
            unlinked == if self.total >= self.linked {
                self.total - self.linked
            } else {
                0
            },
    {
        self.total.saturating_sub(self.linked)
    }
}

} // verus!
