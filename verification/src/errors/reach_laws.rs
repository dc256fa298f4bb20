//! What a verdict on a discarded failure says of the callers above it.

use crate::errors::graph::is_shortest_walk;
use crate::errors::reach::{
    calls, is_above, is_call_graph, is_caller, is_resolved, is_verdict, last_of_path, told_chain,
    CallEdgeView, DiscardView, NodeView,
};
use crate::facts::Reach;
use vstd::prelude::*;

verus! {

/// A verdict names an ancestor exactly where some callable above could report the
/// failure, says that the failure is sealed where there are callers and none above
/// could, and is unknown where nothing resolvable calls.
pub proof fn law_verdicts_say_who_could_report(
    nodes: Seq<NodeView>,
    graph: Seq<Seq<usize>>,
    start: int,
    reach: Reach,
    path: Seq<CallEdgeView>,
)
    requires
        is_verdict(nodes, graph, start, reach, path),
        is_call_graph(nodes, graph),
        0 <= start < nodes.len(),
    ensures
        !(reach is Local),
        reach is Ancestor ==> exists|node: int| #[trigger]
            is_above(graph, start, node) && nodes[node].containment is Fallible,
        reach is Sealed ==> forall|node: int| #[trigger]
            is_above(graph, start, node) ==> !(nodes[node].containment is Fallible),
        reach is Unknown ==> path.len() == 0 && forall|caller: int, k: int|
            0 <= caller < nodes.len() && 0 <= k < nodes[caller].calls.len() ==> !#[trigger] calls(
                nodes,
                caller,
                k,
                start,
            ),
{
    if reach is Unknown {
        assert forall|caller: int, k: int|
            0 <= caller < nodes.len() && 0 <= k < nodes[caller].calls.len() implies !#[trigger] calls(
            nodes,
            caller,
            k,
            start,
        ) by {
            if calls(nodes, caller, k, start) {
                assert(is_caller(nodes, start, caller));
            }
        }
    }
    if reach is Ancestor {
        let walk = choose|walk: Seq<int>|
            {
                &&& crate::errors::reach::is_nearest_fallible(
                    nodes,
                    graph,
                    start,
                    walk.last(),
                    (walk.len() - 1) as nat,
                )
                &&& #[trigger] is_shortest_walk(graph, start, walk.last(), walk)
                &&& path == told_chain(nodes, walk)
            };
        assert(is_above(graph, start, walk.last()));
    }
}

/// Resolving changes nothing of a discard but how far the failure could have been
/// reported and by which calls. Where the callable could have reported it itself, it
/// says so; where the callable is not known, nothing changes.
pub proof fn law_resolving_keeps_the_discard(
    nodes: Seq<NodeView>,
    graph: Seq<Seq<usize>>,
    before: DiscardView,
    after: DiscardView,
)
    requires
        is_resolved(nodes, graph, before, after),
    ensures
        after.callable == before.callable,
        after.callable_span == before.callable_span,
        after.form == before.form,
        after.containment == before.containment,
        after.certainty == before.certainty,
        after.expression == before.expression,
        after.span == before.span,
        after.in_test == before.in_test,
        before.containment is Fallible ==> after.reach is Local && after.path == before.path,
        !(before.containment is Fallible) && (forall|i: int|
            0 <= i < nodes.len() ==> (#[trigger] nodes[i]).path != before.callable) ==> after
            == before,
{
    lemma_last_of_path(nodes, before.callable, nodes.len() as int);
}

proof fn lemma_last_of_path(nodes: Seq<NodeView>, path: Seq<char>, n: int)
    requires
        0 <= n <= nodes.len(),
    ensures
        match last_of_path(nodes, path, n) {
            Some(i) => 0 <= i < n && nodes[i].path == path && forall|j: int|
                i < j < n ==> (#[trigger] nodes[j]).path != path,
            None => forall|j: int| 0 <= j < n ==> (#[trigger] nodes[j]).path != path,
        },
    decreases n,
{
    if n > 0 {
        lemma_last_of_path(nodes, path, n - 1);
    }
}

/// A call leads to a callable exactly where that is the only one of the name called,
/// and is not the caller itself.
pub proof fn law_calls_lead_to_the_only_callable_of_a_name(
    nodes: Seq<NodeView>,
    caller: int,
    k: int,
    callee: int,
)
    requires
        0 <= caller < nodes.len(),
        0 <= k < nodes[caller].calls.len(),
    ensures
        calls(nodes, caller, k, callee) <==> {
            &&& 0 <= callee < nodes.len()
            &&& callee != caller
            &&& nodes[callee].name == nodes[caller].calls[k].callee
            &&& forall|other: int|
                0 <= other < nodes.len() && other != callee ==> (#[trigger] nodes[other]).name
                    != nodes[caller].calls[k].callee
        },
{
}

/// A chain of calls is told from the outermost down: each call's caller is the one
/// above, its callee the one below, and the last leads to the callable it is about.
pub proof fn law_chains_are_told_from_the_top(nodes: Seq<NodeView>, walk: Seq<int>, i: int)
    requires
        walk.len() > 1,
        0 <= i < walk.len() - 1,
    ensures
        told_chain(nodes, walk).len() == walk.len() - 1,
        told_chain(nodes, walk)[i].caller == nodes[walk[walk.len() - 1 - i]].path,
        told_chain(nodes, walk)[i].callee == nodes[walk[walk.len() - 2 - i]].path,
        i + 1 < walk.len() - 1 ==> told_chain(nodes, walk)[i].callee == told_chain(
            nodes,
            walk,
        )[i + 1].caller,
        told_chain(nodes, walk).last().callee == nodes[walk[0]].path,
        told_chain(nodes, walk)[0].caller == nodes[walk.last()].path,
{
}

} // verus!
