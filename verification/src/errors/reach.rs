//! How far up the call graph a discarded failure could have travelled.

use super::graph::{
    are_steps, edge, is_distance, is_shortest_walk, is_step, is_walk, leads_to,
    lemma_distance_unique, lemma_reaches_further, lemma_reaches_itself, lists_of, node_numbers, reaches, shortest_steps, walk_back, Step,
};
use crate::facts::{
    CallEdgeEvidence, Certainty, Containment, DiscardForm, ErrorDiscard, Reach, SourceSpan,
    SpanView,
};
use crate::text::same_text;
use vstd::prelude::*;

verus! {

/// One call, by the name it calls and where it is written.
#[derive(Debug)]
pub struct Callsite {
    pub callee: String,
    pub span: SourceSpan,
}

/// The content of a [`Callsite`].
pub struct CallView {
    pub callee: Seq<char>,
    pub span: SpanView,
}

/// A callable, its signature's verdict, and the calls written inside it.
#[derive(Debug)]
pub struct CallableNode {
    pub path: String,
    pub name: String,
    pub containment: Containment,
    pub calls: Vec<Callsite>,
}

/// The content of a [`CallableNode`].
pub struct NodeView {
    pub path: Seq<char>,
    pub name: Seq<char>,
    pub containment: Containment,
    pub calls: Seq<CallView>,
}

/// The contents of calls.
pub open spec fn call_views(calls: Seq<Callsite>) -> Seq<CallView> {
    Seq::new(calls.len(), |i: int| CallView { callee: calls[i].callee@, span: calls[i].span@ })
}

impl View for CallableNode {
    type V = NodeView;

    open spec fn view(&self) -> NodeView {
        NodeView {
            path: self.path@,
            name: self.name@,
            containment: self.containment,
            calls: call_views(self.calls@),
        }
    }
}

/// The contents of callables.
pub open spec fn node_views(nodes: Seq<CallableNode>) -> Seq<NodeView> {
    Seq::new(nodes.len(), |i: int| nodes[i]@)
}

/// The content of one step of a chain of calls.
pub struct CallEdgeView {
    pub caller: Seq<char>,
    pub callee: Seq<char>,
    pub call: SpanView,
}

/// The contents of a chain of calls.
pub open spec fn call_edge_views(edges: Seq<CallEdgeEvidence>) -> Seq<CallEdgeView> {
    Seq::new(
        edges.len(),
        |i: int|
            CallEdgeView {
                caller: edges[i].caller@,
                callee: edges[i].callee@,
                call: edges[i].call@,
            },
    )
}

/// Whether a callable and no other has a name.
pub open spec fn is_sole_name(nodes: Seq<NodeView>, i: int, name: Seq<char>) -> bool {
    &&& 0 <= i < nodes.len()
    &&& nodes[i].name == name
    &&& forall|j: int| 0 <= j < nodes.len() && (#[trigger] nodes[j]).name == name ==> j == i
}

/// Whether a call leads to a callable: its name resolves to that callable alone,
/// and it is not a call of itself.
pub open spec fn calls(nodes: Seq<NodeView>, caller: int, k: int, callee: int) -> bool {
    &&& 0 <= caller < nodes.len()
    &&& 0 <= k < nodes[caller].calls.len()
    &&& is_sole_name(nodes, callee, nodes[caller].calls[k].callee)
    &&& callee != caller
}

/// Whether one callable calls another.
pub open spec fn is_caller(nodes: Seq<NodeView>, callee: int, caller: int) -> bool {
    exists|k: int| #[trigger] calls(nodes, caller, k, callee)
}

/// Whether a graph leads from each callable to its callers.
pub open spec fn is_call_graph(nodes: Seq<NodeView>, graph: Seq<Seq<usize>>) -> bool {
    &&& graph.len() == nodes.len()
    &&& forall|callee: int, caller: int| #[trigger]
        edge(graph, callee, caller) <==> is_caller(nodes, callee, caller)
}

/// The first call of one callable that leads to another.
pub open spec fn first_call(nodes: Seq<NodeView>, caller: int, callee: int, k: int) -> Option<int>
    decreases nodes[caller].calls.len() - k,
{
    if k < 0 || k >= nodes[caller].calls.len() {
        None
    } else if calls(nodes, caller, k, callee) {
        Some(k)
    } else {
        first_call(nodes, caller, callee, k + 1)
    }
}

/// One step of a chain of calls.
pub open spec fn told_call(nodes: Seq<NodeView>, callee: int, caller: int) -> CallEdgeView {
    CallEdgeView {
        caller: nodes[caller].path,
        callee: nodes[callee].path,
        call: nodes[caller].calls[first_call(nodes, caller, callee, 0)->0].span,
    }
}

/// The calls along a walk from the discard up, outermost call first.
pub open spec fn told_chain(nodes: Seq<NodeView>, walk: Seq<int>) -> Seq<CallEdgeView> {
    Seq::new(
        (walk.len() - 1) as nat,
        |i: int| told_call(nodes, walk[walk.len() - 2 - i], walk[walk.len() - 1 - i]),
    )
}

/// Whether a callable is somewhere above another.
pub open spec fn is_above(graph: Seq<Seq<usize>>, start: int, node: int) -> bool {
    node != start && exists|steps: nat| reaches(graph, start, node, steps)
}

/// Whether a callable is the nearest above another that could report a failure;
/// of those as near, the first listed.
pub open spec fn is_nearest_fallible(
    nodes: Seq<NodeView>,
    graph: Seq<Seq<usize>>,
    start: int,
    node: int,
    distance: nat,
) -> bool {
    &&& is_above(graph, start, node)
    &&& nodes[node].containment == Containment::Fallible
    &&& is_distance(graph, start, node, distance)
    &&& forall|other: int, further: nat|
        is_above(graph, start, other) && nodes[other].containment == Containment::Fallible
            && #[trigger] is_distance(graph, start, other, further) ==> distance < further || (
        distance == further && node <= other)
}

/// Whether a callable is the furthest above another; of those as far, the first
/// listed.
pub open spec fn is_furthest(
    graph: Seq<Seq<usize>>,
    start: int,
    node: int,
    distance: nat,
) -> bool {
    &&& is_above(graph, start, node)
    &&& is_distance(graph, start, node, distance)
    &&& forall|other: int, nearer: nat|
        is_above(graph, start, other) && #[trigger] is_distance(graph, start, other, nearer)
            ==> distance > nearer || (distance == nearer && node <= other)
}

/// What a verdict on a callable says: unknown where nothing resolvable calls it;
/// else the nearest callable above that could report the failure, with a
/// shortest chain of calls down from it; else that none can, with a shortest
/// chain down from the furthest.
pub open spec fn is_verdict(
    nodes: Seq<NodeView>,
    graph: Seq<Seq<usize>>,
    start: int,
    reach: Reach,
    path: Seq<CallEdgeView>,
) -> bool {
    match reach {
        Reach::Unknown => path.len() == 0 && forall|caller: int|
            !(#[trigger] is_caller(nodes, start, caller)),
        Reach::Ancestor => exists|walk: Seq<int>|
            {
                &&& is_nearest_fallible(
                    nodes,
                    graph,
                    start,
                    walk.last(),
                    (walk.len() - 1) as nat,
                )
                &&& #[trigger] is_shortest_walk(graph, start, walk.last(), walk)
                &&& path == told_chain(nodes, walk)
            },
        Reach::Sealed => {
            &&& forall|node: int| #[trigger]
                is_above(graph, start, node) ==> nodes[node].containment != Containment::Fallible
            &&& exists|walk: Seq<int>|
                {
                    &&& is_furthest(graph, start, walk.last(), (walk.len() - 1) as nat)
                    &&& #[trigger] is_shortest_walk(graph, start, walk.last(), walk)
                    &&& path == told_chain(nodes, walk)
                }
        },
        Reach::Local => false,
    }
}

/// The only callable of a name.
fn sole_name(nodes: &Vec<CallableNode>, name: &str) -> (only: Option<usize>)
    ensures
        match only {
            Some(only) => is_sole_name(node_views(nodes@), only as int, name@),
            None => forall|i: int| !is_sole_name(node_views(nodes@), i, name@),
        },
{
    let ghost views = node_views(nodes@);
    let mut found: Option<usize> = None;
    let mut i: usize = 0;
    while i < nodes.len()
        invariant
            i <= nodes@.len(),
            views == node_views(nodes@),
            found is Some ==> found->0 < i && views[found->0 as int].name == name@,
            forall|j: int|
                0 <= j < i && (#[trigger] views[j]).name == name@ ==> found == Some(j as usize),
        decreases nodes@.len() - i,
    {
        assert(views[i as int] == nodes@[i as int]@);
        if same_text(nodes[i].name.as_str(), name) {
            if let Some(other) = found {
                proof {
                    assert forall|k: int| !is_sole_name(views, k, name@) by {
                        if is_sole_name(views, k, name@) {
                            assert(views[other as int].name == name@);
                            assert(views[i as int].name == name@);
                        }
                    }
                }
                return None;
            }
            found = Some(i);
        }
        i += 1;
    }
    proof {
        if found is Some {
            assert(is_sole_name(views, found->0 as int, name@));
        }
    }
    found
}

/// A graph with no edges.
fn no_edges(count: usize) -> (graph: Vec<Vec<usize>>)
    ensures
        graph@.len() == count,
        forall|i: int| 0 <= i < count ==> (#[trigger] graph@[i])@.len() == 0,
{
    let mut graph: Vec<Vec<usize>> = Vec::new();
    let mut i: usize = 0;
    while i < count
        invariant
            i <= count,
            graph@.len() == i,
            forall|k: int| 0 <= k < i ==> (#[trigger] graph@[k])@.len() == 0,
        decreases count - i,
    {
        graph.push(Vec::new());
        i += 1;
    }
    graph
}

/// Whether some call before a place leads to a callable: a call of an earlier
/// caller, or an earlier call of the same.
spec fn called_before(
    nodes: Seq<NodeView>,
    callee: int,
    caller: int,
    limit: int,
    n: int,
) -> bool {
    exists|k: int| #[trigger]
        calls(nodes, caller, k, callee) && (caller < limit || (caller == limit && k < n))
}

/// Whether a graph holds the calls before a place.
spec fn graph_before(nodes: Seq<NodeView>, graph: Seq<Seq<usize>>, limit: int, n: int) -> bool {
    &&& graph.len() == nodes.len()
    &&& forall|callee: int, caller: int| #[trigger]
        edge(graph, callee, caller) <==> called_before(nodes, callee, caller, limit, n)
}

/// Adding an edge adds that edge.
proof fn lemma_edge_added(
    before: Seq<Vec<usize>>,
    after: Seq<Vec<usize>>,
    callee: int,
    caller: usize,
)
    requires
        0 <= callee < before.len() == after.len(),
        after[callee]@ == before[callee]@.push(caller),
        forall|i: int| 0 <= i < before.len() && i != callee ==> after[i] == before[i],
    ensures
        forall|from: int, to: int| #[trigger]
            edge(lists_of(after), from, to) <==> edge(lists_of(before), from, to) || (from == callee
                && to == caller),
{
    let old_lists = lists_of(before);
    let new_lists = lists_of(after);
    assert forall|from: int, to: int| #[trigger] edge(new_lists, from, to) <==> edge(
        old_lists,
        from,
        to,
    ) || (from == callee && to == caller) by {
        if 0 <= from < before.len() {
            if from == callee {
                assert(new_lists[from] == old_lists[from].push(caller));
                if edge(new_lists, from, to) {
                    let i = choose|i: int|
                        0 <= i < new_lists[from].len() && #[trigger] new_lists[from][i] == to;
                    if i < old_lists[from].len() {
                        assert(old_lists[from][i] == to);
                    }
                }
                if edge(old_lists, from, to) {
                    let i = choose|i: int|
                        0 <= i < old_lists[from].len() && #[trigger] old_lists[from][i] == to;
                    assert(new_lists[from][i] == to);
                }
                assert(new_lists[from][old_lists[from].len() as int] == caller);
            } else {
                assert(new_lists[from] == old_lists[from]);
            }
        }
    }
}

/// The callers of each callable.
fn call_graph(nodes: &Vec<CallableNode>) -> (graph: Vec<Vec<usize>>)
    ensures
        is_call_graph(node_views(nodes@), lists_of(graph@)),
{
    let ghost views = node_views(nodes@);
    let mut graph = no_edges(nodes.len());
    let mut caller: usize = 0;
    proof {
        assert forall|callee: int, from: int| #[trigger]
            edge(lists_of(graph@), callee, from) <==> called_before(views, callee, from, 0, 0) by {
            if edge(lists_of(graph@), callee, from) {
                assert(graph@[callee]@.len() == 0);
            }
        }
    }
    while caller < nodes.len()
        invariant
            caller <= nodes@.len(),
            views == node_views(nodes@),
            graph_before(views, lists_of(graph@), caller as int, 0),
        decreases nodes@.len() - caller,
    {
        let node = &nodes[caller];
        assert(views[caller as int] == node@);
        let mut k: usize = 0;
        while k < node.calls.len()
            invariant
                caller < nodes@.len(),
                views == node_views(nodes@),
                node == nodes@[caller as int],
                views[caller as int] == node@,
                k <= node.calls@.len(),
                graph_before(views, lists_of(graph@), caller as int, k as int),
            decreases node.calls@.len() - k,
        {
            let ghost before = graph@;
            let ghost lists = lists_of(graph@);
            assert(views[caller as int].calls[k as int].callee == node.calls@[k as int].callee@);
            let target = sole_name(nodes, node.calls[k].callee.as_str());
            let mut linked: Option<usize> = None;
            if let Some(callee) = target {
                if callee != caller {
                    graph[callee].push(caller);
                    linked = Some(callee);
                    proof {
                        lemma_edge_added(before, graph@, callee as int, caller);
                        assert(calls(views, caller as int, k as int, callee as int));
                    }
                }
            }
            proof {
                assert forall|callee: int, from: int| #[trigger]
                    edge(lists_of(graph@), callee, from) <==> called_before(
                    views,
                    callee,
                    from,
                    caller as int,
                    k + 1,
                ) by {
                    assert(edge(lists, callee, from) <==> called_before(
                        views,
                        callee,
                        from,
                        caller as int,
                        k as int,
                    ));
                    if called_before(views, callee, from, caller as int, k + 1) {
                        let m = choose|m: int| #[trigger]
                            calls(views, from, m, callee) && (from < caller || (from == caller && m
                                < k + 1));
                        assert(calls(views, from, m, callee));
                        if from == caller && m == k {
                            assert(is_sole_name(
                                views,
                                callee,
                                node.calls@[k as int].callee@,
                            ));
                            if let Some(other) = target {
                                assert(views[other as int].name
                                    == node.calls@[k as int].callee@);
                            }
                            assert(target == Some(callee as usize));
                        } else {
                            assert(called_before(
                                views,
                                callee,
                                from,
                                caller as int,
                                k as int,
                            ));
                        }
                    }
                    if called_before(views, callee, from, caller as int, k as int) {
                        let m = choose|m: int| #[trigger]
                            calls(views, from, m, callee) && (from < caller || (from == caller && m
                                < k));
                        assert(calls(views, from, m, callee));
                    }
                }
            }
            k += 1;
        }
        proof {
            assert forall|callee: int, from: int| #[trigger]
                edge(lists_of(graph@), callee, from) <==> called_before(
                views,
                callee,
                from,
                caller + 1,
                0,
            ) by {
                assert(edge(lists_of(graph@), callee, from) <==> called_before(
                    views,
                    callee,
                    from,
                    caller as int,
                    k as int,
                ));
                if called_before(views, callee, from, caller + 1, 0) {
                    let m = choose|m: int| #[trigger]
                        calls(views, from, m, callee) && (from < caller + 1 || (from == caller + 1
                            && m < 0));
                    assert(calls(views, from, m, callee));
                }
                if called_before(views, callee, from, caller as int, k as int) {
                    let m = choose|m: int| #[trigger]
                        calls(views, from, m, callee) && (from < caller || (from == caller && m
                            < k));
                    assert(calls(views, from, m, callee));
                }
            }
        }
        caller += 1;
    }
    proof {
        assert forall|callee: int, from: int| #[trigger]
            edge(lists_of(graph@), callee, from) <==> is_caller(views, callee, from) by {
            assert(edge(lists_of(graph@), callee, from) <==> called_before(
                views,
                callee,
                from,
                caller as int,
                0,
            ));
            if is_caller(views, callee, from) {
                let m = choose|m: int| #[trigger] calls(views, from, m, callee);
                assert(calls(views, from, m, callee) && from < caller);
            }
        }
    }
    graph
}

/// The calls up to a caller include a first one.
proof fn lemma_first_call(nodes: Seq<NodeView>, caller: int, callee: int, k: int, some: int)
    requires
        0 <= k <= some,
        calls(nodes, caller, some, callee),
    ensures
        first_call(nodes, caller, callee, k) matches Some(first) && k <= first
            < nodes[caller].calls.len() && calls(nodes, caller, first, callee),
    decreases some - k,
{
    if !calls(nodes, caller, k, callee) {
        lemma_first_call(nodes, caller, callee, k + 1, some);
    }
}

/// One step of a chain of calls.
fn call_between(nodes: &Vec<CallableNode>, callee: usize, caller: usize) -> (edge: CallEdgeEvidence)
    requires
        callee < nodes@.len(),
        is_caller(node_views(nodes@), callee as int, caller as int),
    ensures
        (CallEdgeView { caller: edge.caller@, callee: edge.callee@, call: edge.call@ })
            == told_call(node_views(nodes@), callee as int, caller as int),
{
    let ghost views = node_views(nodes@);
    let ghost some = choose|k: int| #[trigger] calls(views, caller as int, k, callee as int);
    proof {
        lemma_first_call(views, caller as int, callee as int, 0, some);
    }
    let node = &nodes[caller];
    assert(views[caller as int] == node@);
    assert(views[callee as int] == nodes@[callee as int]@);
    let count: usize = node.calls.len();
    let mut k: usize = 0;
    let mut found = false;
    while !found
        invariant
            count == node.calls@.len(),
            views == node_views(nodes@),
            caller < nodes@.len(),
            callee < nodes@.len(),
            node == nodes@[caller as int],
            views[caller as int] == node@,
            k <= node.calls@.len(),
            first_call(views, caller as int, callee as int, 0) == if found {
                Some(k as int)
            } else {
                first_call(views, caller as int, callee as int, k as int)
            },
            first_call(views, caller as int, callee as int, 0) is Some,
            found ==> k < node.calls@.len(),
        decreases node.calls@.len() - k,
            if found {
                0int
            } else {
                1
            },
    {
        assert(k < node.calls@.len());
        assert(views[caller as int].calls[k as int].callee == node.calls@[k as int].callee@);
        let hit = match sole_name(nodes, node.calls[k].callee.as_str()) {
            Some(only) => {
                proof {
                    assert(views[only as int].name == node.calls@[k as int].callee@);
                }
                only == callee && callee != caller
            },
            None => false,
        };
        assert(hit == calls(views, caller as int, k as int, callee as int));
        if hit {
            found = true;
        } else {
            k += 1;
        }
    }
    CallEdgeEvidence {
        caller: node.path.clone(),
        callee: nodes[callee].path.clone(),
        call: node.calls[k].span.clone(),
    }
}

/// The calls from a callable down to the discard, outermost call first.
fn chain_to(
    nodes: &Vec<CallableNode>,
    steps: &Vec<Step>,
    place: usize,
    graph: Ghost<Seq<Seq<usize>>>,
    start: Ghost<int>,
) -> (told: (Vec<CallEdgeEvidence>, Ghost<Seq<int>>))
    requires
        is_call_graph(node_views(nodes@), graph@),
        are_steps(graph@, start@, steps@),
        place < steps@.len(),
        0 <= start@ < nodes@.len(),
    ensures
        is_shortest_walk(graph@, start@, steps@[place as int].node as int, told.1@),
        told.1@.len() == steps@[place as int].distance + 1,
        call_edge_views(told.0@) == told_chain(node_views(nodes@), told.1@),
{
    let ghost views = node_views(nodes@);
    let back = walk_back(steps, place, graph, start);
    let ghost walk = node_numbers(back@).reverse();
    let mut path: Vec<CallEdgeEvidence> = Vec::new();
    let last: usize = back.len() - 1;
    let mut i: usize = 0;
    assert(call_edge_views(path@) =~= told_chain(views, walk).take(0));
    while i < last
        invariant
            last == back@.len() - 1,
            i <= last,
            views == node_views(nodes@),
            walk == node_numbers(back@).reverse(),
            is_call_graph(views, graph@),
            is_walk(graph@, walk),
            call_edge_views(path@) == told_chain(views, walk).take(i as int),
        decreases back@.len() - i,
    {
        proof {
            let k = walk.len() - 2 - i;
            assert(walk[k] == back@[i + 1] as int);
            assert(walk[k + 1] == back@[i as int] as int);
            assert(edge(graph@, walk[k], walk[k + 1]));
            assert(is_caller(views, back@[i + 1] as int, back@[i as int] as int));
        }
        let edge = call_between(nodes, back[i + 1], back[i]);
        let ghost before = path@;
        path.push(edge);
        proof {
            let view = CallEdgeView {
                caller: edge.caller@,
                callee: edge.callee@,
                call: edge.call@,
            };
            assert(call_edge_views(path@) =~= call_edge_views(before).push(view));
            assert(told_chain(views, walk)[i as int] == view);
            assert(told_chain(views, walk).take(i + 1) =~= told_chain(views, walk).take(
                i as int,
            ).push(told_chain(views, walk)[i as int]));
        }
        i += 1;
    }
    assert(told_chain(views, walk).take(i as int) =~= told_chain(views, walk));
    (path, Ghost(walk))
}

/// Every node above has one step, at its distance.
proof fn lemma_step_for(graph: Seq<Seq<usize>>, start: int, steps: Seq<Step>, node: int) -> (i: int)
    requires
        are_steps(graph, start, steps),
        is_above(graph, start, node),
    ensures
        0 <= i < steps.len(),
        steps[i].node == node,
        is_step(graph, start, steps[i]),
        forall|distance: nat| #[trigger]
            is_distance(graph, start, node, distance) ==> distance == steps[i].distance,
{
    let count = choose|count: nat| reaches(graph, start, node, count);
    assert(leads_to(steps, node));
    let i = choose|i: int| 0 <= i < steps.len() && (#[trigger] steps[i]).node == node;
    assert(is_step(graph, start, steps[i]));
    assert forall|distance: nat| #[trigger]
        is_distance(graph, start, node, distance) implies distance == steps[i].distance by {
        lemma_distance_unique(graph, start, node, distance, steps[i].distance as nat);
    }
    i
}

/// Whether a step comes before another: it is nearer, or as near and its node is
/// listed first.
fn is_nearer(step: Step, other: Step) -> (nearer: bool)
    ensures
        nearer == (step.distance < other.distance || (step.distance == other.distance && step.node
            < other.node)),
{
    step.distance < other.distance || (step.distance == other.distance && step.node < other.node)
}

/// Whether a step comes after another: it is further, or as far and its node is
/// listed first.
fn is_further(step: Step, other: Step) -> (further: bool)
    ensures
        further == (step.distance > other.distance || (step.distance == other.distance && step.node
            < other.node)),
{
    step.distance > other.distance || (step.distance == other.distance && step.node < other.node)
}

/// The nodes that steps lead to are callables.
proof fn lemma_step_in_range(nodes: Seq<NodeView>, graph: Seq<Seq<usize>>, start: int, step: Step)
    requires
        is_call_graph(nodes, graph),
        is_step(graph, start, step),
    ensures
        step.node < nodes.len(),
        is_above(graph, start, step.node as int),
{
    assert(is_caller(nodes, step.parent as int, step.node as int));
    let k = choose|k: int| #[trigger] calls(nodes, step.node as int, k, step.parent as int);
    assert(reaches(graph, start, step.node as int, step.distance as nat));
}

/// The nearest step to a callable that could report a failure.
fn nearest_fallible(
    nodes: &Vec<CallableNode>,
    steps: &Vec<Step>,
    graph: Ghost<Seq<Seq<usize>>>,
    start: Ghost<int>,
) -> (place: Option<usize>)
    requires
        is_call_graph(node_views(nodes@), graph@),
        are_steps(graph@, start@, steps@),
    ensures
        match place {
            Some(place) => place < steps@.len() && is_nearest_fallible(
                node_views(nodes@),
                graph@,
                start@,
                steps@[place as int].node as int,
                steps@[place as int].distance as nat,
            ),
            None => forall|node: int| #[trigger]
                is_above(graph@, start@, node) ==> node_views(nodes@)[node].containment
                    != Containment::Fallible,
        },
{
    let ghost views = node_views(nodes@);
    let mut best: Option<usize> = None;
    let mut i: usize = 0;
    while i < steps.len()
        invariant
            i <= steps@.len(),
            views == node_views(nodes@),
            is_call_graph(views, graph@),
            are_steps(graph@, start@, steps@),
            match best {
                Some(place) => {
                    &&& place < i
                    &&& views[steps@[place as int].node as int].containment
                        == Containment::Fallible
                    &&& forall|k: int|
                        0 <= k < i && views[(#[trigger] steps@[k]).node as int].containment
                            == Containment::Fallible ==> steps@[place as int].distance
                            < steps@[k].distance || (steps@[place as int].distance
                            == steps@[k].distance && steps@[place as int].node <= steps@[k].node)
                },
                None => forall|k: int|
                    0 <= k < i ==> views[(#[trigger] steps@[k]).node as int].containment
                        != Containment::Fallible,
            },
        decreases steps@.len() - i,
    {
        let step: Step = steps[i];
        proof {
            assert(is_step(graph@, start@, steps@[i as int]));
            lemma_step_in_range(views, graph@, start@, step);
            assert(views[step.node as int] == nodes@[step.node as int]@);
        }
        if nodes[step.node].containment == Containment::Fallible {
            let better = match best {
                Some(place) => is_nearer(step, steps[place]),
                None => true,
            };
            if better {
                best = Some(i);
            }
        }
        i += 1;
    }
    proof {
        match best {
            Some(place) => {
                let step = steps@[place as int];
                assert(is_step(graph@, start@, step));
                lemma_step_in_range(views, graph@, start@, step);
                assert forall|other: int, further: nat|
                    is_above(graph@, start@, other) && views[other].containment
                        == Containment::Fallible && #[trigger] is_distance(
                        graph@,
                        start@,
                        other,
                        further,
                    ) implies step.distance < further || (step.distance == further && step.node
                    <= other) by {
                    let k = lemma_step_for(graph@, start@, steps@, other);
                    assert(steps@[k].node == other);
                }
            },
            None => {
                assert forall|node: int| #[trigger] is_above(
                    graph@,
                    start@,
                    node,
                ) implies views[node].containment != Containment::Fallible by {
                    let k = lemma_step_for(graph@, start@, steps@, node);
                    assert(steps@[k].node == node);
                }
            },
        }
    }
    best
}

/// The furthest step.
fn furthest(
    nodes: Ghost<Seq<NodeView>>,
    steps: &Vec<Step>,
    graph: Ghost<Seq<Seq<usize>>>,
    start: Ghost<int>,
) -> (place: usize)
    requires
        is_call_graph(nodes@, graph@),
        are_steps(graph@, start@, steps@),
        steps@.len() > 0,
    ensures
        place < steps@.len(),
        is_furthest(
            graph@,
            start@,
            steps@[place as int].node as int,
            steps@[place as int].distance as nat,
        ),
{
    let mut best: usize = 0;
    let mut i: usize = 1;
    while i < steps.len()
        invariant
            best < i <= steps@.len(),
            forall|k: int|
                0 <= k < i ==> steps@[best as int].distance > (#[trigger] steps@[k]).distance || (
                steps@[best as int].distance == steps@[k].distance && steps@[best as int].node
                    <= steps@[k].node),
        decreases steps@.len() - i,
    {
        if is_further(steps[i], steps[best]) {
            best = i;
        }
        i += 1;
    }
    proof {
        let step = steps@[best as int];
        assert(is_step(graph@, start@, step));
        lemma_step_in_range(nodes@, graph@, start@, step);
        assert forall|other: int, nearer: nat|
            is_above(graph@, start@, other) && #[trigger] is_distance(
                graph@,
                start@,
                other,
                nearer,
            ) implies step.distance > nearer || (step.distance == nearer && step.node
            <= other) by {
            let k = lemma_step_for(graph@, start@, steps@, other);
            assert(steps@[k].node == other);
        }
    }
    best
}

/// How far a failure could have travelled, and the calls it would take.
fn search_upward(
    start: usize,
    nodes: &Vec<CallableNode>,
    graph: &Vec<Vec<usize>>,
) -> (verdict: (Reach, Vec<CallEdgeEvidence>))
    requires
        start < nodes@.len(),
        is_call_graph(node_views(nodes@), lists_of(graph@)),
    ensures
        is_verdict(
            node_views(nodes@),
            lists_of(graph@),
            start as int,
            verdict.0,
            call_edge_views(verdict.1@),
        ),
{
    let ghost views = node_views(nodes@);
    let ghost lists = lists_of(graph@);
    assert(lists[start as int] == graph@[start as int]@);
    if graph[start].len() == 0 {
        let none: Vec<CallEdgeEvidence> = Vec::new();
        proof {
            assert forall|caller: int| !(#[trigger] is_caller(views, start as int, caller)) by {
                assert(!edge(lists, start as int, caller));
            }
        }
        return (Reach::Unknown, none);
    }
    let steps = shortest_steps(graph, start);
    if let Some(place) = nearest_fallible(nodes, &steps, Ghost(lists), Ghost(start as int)) {
        let (path, walk) = chain_to(nodes, &steps, place, Ghost(lists), Ghost(start as int));
        assert(is_shortest_walk(lists, start as int, walk@.last(), walk@));
        return (Reach::Ancestor, path);
    }
    proof {
        let caller = lists[start as int][0] as int;
        assert(edge(lists, start as int, caller));
        assert(is_caller(views, start as int, caller));
        let k = choose|k: int| #[trigger] calls(views, caller, k, start as int);
        lemma_reaches_itself(lists, start as int);
        lemma_reaches_further(lists, start as int, start as int, caller, 0);
        assert(leads_to(steps@, caller));
    }
    let place = furthest(Ghost(views), &steps, Ghost(lists), Ghost(start as int));
    let (path, walk) = chain_to(nodes, &steps, place, Ghost(lists), Ghost(start as int));
    assert(is_shortest_walk(lists, start as int, walk@.last(), walk@));
    (Reach::Sealed, path)
}

/// The content of a discard.
pub struct DiscardView {
    pub callable: Seq<char>,
    pub callable_span: SpanView,
    pub form: DiscardForm,
    pub containment: Containment,
    pub certainty: Certainty,
    pub expression: Seq<char>,
    pub span: SpanView,
    pub in_test: bool,
    pub reach: Reach,
    pub path: Seq<CallEdgeView>,
}

impl View for ErrorDiscard {
    type V = DiscardView;

    open spec fn view(&self) -> DiscardView {
        DiscardView {
            callable: self.callable@,
            callable_span: self.callable_span@,
            form: self.form,
            containment: self.containment,
            certainty: self.certainty,
            expression: self.expression@,
            span: self.span@,
            in_test: self.in_test,
            reach: self.reach,
            path: call_edge_views(self.path@),
        }
    }
}

/// The contents of discards.
pub open spec fn discard_views(discards: Seq<ErrorDiscard>) -> Seq<DiscardView> {
    Seq::new(discards.len(), |i: int| discards[i]@)
}

/// The last callable of a path among the first so many.
pub open spec fn last_of_path(nodes: Seq<NodeView>, path: Seq<char>, n: int) -> Option<int>
    decreases n,
{
    if n <= 0 || n > nodes.len() {
        None
    } else if nodes[n - 1].path == path {
        Some(n - 1)
    } else {
        last_of_path(nodes, path, n - 1)
    }
}

/// What resolving a discard leaves: where its callable could have reported the
/// failure itself, that; where the callable is known, the verdict on it; else
/// what it was.
pub open spec fn is_resolved(
    nodes: Seq<NodeView>,
    graph: Seq<Seq<usize>>,
    before: DiscardView,
    after: DiscardView,
) -> bool {
    if before.containment == Containment::Fallible {
        after == (DiscardView { reach: Reach::Local, ..before })
    } else {
        match last_of_path(nodes, before.callable, nodes.len() as int) {
            Some(start) => {
                &&& after == (DiscardView { reach: after.reach, path: after.path, ..before })
                &&& is_verdict(nodes, graph, start, after.reach, after.path)
            },
            None => after == before,
        }
    }
}

/// The last callable of a path.
fn node_of_path(nodes: &Vec<CallableNode>, path: &str) -> (place: Option<usize>)
    ensures
        match place {
            Some(place) => last_of_path(node_views(nodes@), path@, nodes@.len() as int) == Some(
                place as int,
            ) && place < nodes@.len(),
            None => last_of_path(node_views(nodes@), path@, nodes@.len() as int) is None,
        },
{
    let ghost views = node_views(nodes@);
    let mut n: usize = nodes.len();
    while n > 0
        invariant
            n <= nodes@.len(),
            views == node_views(nodes@),
            last_of_path(views, path@, nodes@.len() as int) == last_of_path(
                views,
                path@,
                n as int,
            ),
        decreases n,
    {
        n -= 1;
        assert(views[n as int] == nodes@[n as int]@);
        if same_text(nodes[n].path.as_str(), path) {
            return Some(n);
        }
    }
    None
}

/// Answers, for each discard, how far up the failure could have travelled.
///
/// `Containment` reads one signature. This reads the callers too, because a
/// discard inside an infallible callable that only infallible callables ever
/// call cannot be reported anywhere. Calls are resolved by name, and only when
/// exactly one callable answers to it; an ambiguous or unresolvable name yields
/// no edge, which is why the absence of callers is reported as unknown.
pub fn resolve_reach(discards: &mut Vec<ErrorDiscard>, nodes: &Vec<CallableNode>)
    ensures
        final(discards)@.len() == old(discards)@.len(),
        exists|graph: Seq<Seq<usize>>|
            {
                &&& #[trigger] is_call_graph(node_views(nodes@), graph)
                &&& forall|i: int|
                    0 <= i < old(discards)@.len() ==> is_resolved(
                        node_views(nodes@),
                        graph,
                        (#[trigger] old(discards)@[i])@,
                        final(discards)@[i]@,
                    )
            },
{
    let ghost views = node_views(nodes@);
    let graph = call_graph(nodes);
    let ghost lists = lists_of(graph@);
    let ghost given = discards@;
    let count: usize = discards.len();
    let mut i: usize = 0;
    while i < count
        invariant
            i <= count == discards@.len() == given.len(),
            given == old(discards)@,
            views == node_views(nodes@),
            lists == lists_of(graph@),
            is_call_graph(views, lists),
            forall|k: int| i <= k < given.len() ==> discards@[k] == given[k],
            forall|k: int|
                0 <= k < i ==> is_resolved(
                    views,
                    lists,
                    (#[trigger] given[k])@,
                    discards@[k]@,
                ),
        decreases count - i,
    {
        let ghost before = discards@;
        if discards[i].containment == Containment::Fallible {
            discards[i].reach = Reach::Local;
            assert(discards@[i as int]@ == DiscardView {
                reach: Reach::Local,
                ..given[i as int]@
            });
        } else if let Some(start) = node_of_path(nodes, discards[i].callable.as_str()) {
            let (reach, path) = search_upward(start, nodes, &graph);
            discards[i].reach = reach;
            discards[i].path = path;
        }
        proof {
            assert(is_resolved(views, lists, given[i as int]@, discards@[i as int]@));
            assert forall|k: int| 0 <= k < i + 1 implies is_resolved(
                views,
                lists,
                (#[trigger] given[k])@,
                discards@[k]@,
            ) by {
                if k < i {
                    assert(discards@[k] == before[k]);
                }
            }
        }
        i += 1;
    }
}

/// A verdict names a chain that begins at the callable it names, ends at the
/// discarding one, and each of whose calls is made by what the one before it
/// calls.
pub proof fn law_chains_lead_down_to_the_discard(
    nodes: Seq<NodeView>,
    graph: Seq<Seq<usize>>,
    start: int,
    reach: Reach,
    path: Seq<CallEdgeView>,
)
    requires
        is_call_graph(nodes, graph),
        0 <= start < nodes.len(),
        is_verdict(nodes, graph, start, reach, path),
        reach != Reach::Unknown,
    ensures
        path.len() > 0,
        path.last().callee == nodes[start].path,
        forall|i: int|
            0 <= i < path.len() - 1 ==> (#[trigger] path[i]).callee == path[i + 1].caller,
{
    let walk = choose|walk: Seq<int>|
        #[trigger] is_shortest_walk(graph, start, walk.last(), walk) && is_above(
            graph,
            start,
            walk.last(),
        ) && path == told_chain(nodes, walk);
    assert(is_shortest_walk(graph, start, walk.last(), walk));
    assert(walk.len() > 1) by {
        if walk.len() == 1 {
            assert(walk.last() == walk[0]);
        }
    }
    assert forall|i: int| 0 <= i < path.len() - 1 implies (#[trigger] path[i]).callee == path[i
        + 1].caller by {
        assert(path[i] == told_call(nodes, walk[walk.len() - 2 - i], walk[walk.len() - 1 - i]));
        assert(path[i + 1] == told_call(
            nodes,
            walk[walk.len() - 3 - i],
            walk[walk.len() - 2 - i],
        ));
    }
}

/// Whatever is above a callable is reached through something that calls it.
proof fn lemma_has_a_caller(graph: Seq<Seq<usize>>, start: int, node: int, steps: nat) -> (caller:
    int)
    requires
        reaches(graph, start, node, steps),
        node != start,
    ensures
        edge(graph, start, caller),
    decreases steps,
{
    reveal_with_fuel(reaches, 2);
    let via = choose|via: int|
        reaches(graph, start, via, (steps - 1) as nat) && #[trigger] edge(graph, via, node);
    if via == start {
        node
    } else {
        lemma_has_a_caller(graph, start, via, (steps - 1) as nat)
    }
}

/// Two verdicts on one callable say the same of how far the failure could have
/// gone.
pub proof fn law_verdicts_agree(
    nodes: Seq<NodeView>,
    graph: Seq<Seq<usize>>,
    start: int,
    first: Reach,
    first_path: Seq<CallEdgeView>,
    second: Reach,
    second_path: Seq<CallEdgeView>,
)
    requires
        is_call_graph(nodes, graph),
        is_verdict(nodes, graph, start, first, first_path),
        is_verdict(nodes, graph, start, second, second_path),
    ensures
        first == second,
        first_path.len() == second_path.len(),
{
    if first != Reach::Unknown {
        lemma_told_verdict(nodes, graph, start, first, first_path);
    }
    if second != Reach::Unknown {
        lemma_told_verdict(nodes, graph, start, second, second_path);
    }
}

/// A verdict other than unknown has a caller to name, and a chain as long as the
/// callable it names is far.
proof fn lemma_told_verdict(
    nodes: Seq<NodeView>,
    graph: Seq<Seq<usize>>,
    start: int,
    reach: Reach,
    path: Seq<CallEdgeView>,
)
    requires
        is_call_graph(nodes, graph),
        is_verdict(nodes, graph, start, reach, path),
        reach != Reach::Unknown,
    ensures
        exists|caller: int| #[trigger] is_caller(nodes, start, caller),
        reach == Reach::Ancestor ==> exists|node: int|
            is_nearest_fallible(nodes, graph, start, node, #[trigger] path_length(path, node)),
        reach == Reach::Sealed ==> exists|node: int|
            is_furthest(graph, start, node, #[trigger] path_length(path, node)),
{
    let walk = choose|walk: Seq<int>|
        #[trigger] is_shortest_walk(graph, start, walk.last(), walk) && is_above(
            graph,
            start,
            walk.last(),
        ) && path == told_chain(nodes, walk) && (reach == Reach::Ancestor ==> is_nearest_fallible(
            nodes,
            graph,
            start,
            walk.last(),
            (walk.len() - 1) as nat,
        )) && (reach == Reach::Sealed ==> is_furthest(
            graph,
            start,
            walk.last(),
            (walk.len() - 1) as nat,
        ));
    let steps = choose|steps: nat| reaches(graph, start, walk.last(), steps);
    let caller = lemma_has_a_caller(graph, start, walk.last(), steps);
    assert(is_caller(nodes, start, caller));
    assert(path_length(path, walk.last()) == (walk.len() - 1) as nat);
}

/// How long a chain to a callable is.
spec fn path_length(path: Seq<CallEdgeView>, node: int) -> nat {
    path.len()
}

} // verus!
