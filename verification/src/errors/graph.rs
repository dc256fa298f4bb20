//! Shortest walks in a graph of numbered nodes.

use pathfinding::directed::dijkstra::dijkstra_all;
use vstd::prelude::*;

verus! {

/// Whether an edge leads from one node to another.
pub open spec fn edge(graph: Seq<Seq<usize>>, from: int, to: int) -> bool {
    0 <= from < graph.len() && exists|i: int| 0 <= i < graph[from].len() && #[trigger] graph[from][i]
        == to
}

/// Whether so many edges lead from one node to another.
#[verifier::opaque]
pub open spec fn reaches(graph: Seq<Seq<usize>>, from: int, to: int, steps: nat) -> bool
    decreases steps,
{
    if steps == 0 {
        from == to
    } else {
        exists|via: int|
            reaches(graph, from, via, (steps - 1) as nat) && #[trigger] edge(graph, via, to)
    }
}

/// One edge more leads one edge further.
pub proof fn lemma_reaches_further(
    graph: Seq<Seq<usize>>,
    from: int,
    via: int,
    to: int,
    steps: nat,
)
    requires
        reaches(graph, from, via, steps),
        edge(graph, via, to),
    ensures
        reaches(graph, from, to, steps + 1),
{
    reveal_with_fuel(reaches, 1);
    assert(reaches(graph, from, via, (steps + 1 - 1) as nat));
}

/// No edge leads nowhere else.
pub proof fn lemma_reaches_itself(graph: Seq<Seq<usize>>, node: int)
    ensures
        reaches(graph, node, node, 0),
{
    reveal_with_fuel(reaches, 1);
}

/// Whether so many edges, and no fewer, lead from one node to another.
pub open spec fn is_distance(graph: Seq<Seq<usize>>, from: int, to: int, steps: nat) -> bool {
    &&& reaches(graph, from, to, steps)
    &&& forall|fewer: nat| fewer < steps ==> !reaches(graph, from, to, fewer)
}

/// A node that can be reached, the node before it on a shortest walk, and how
/// many edges that walk takes.
#[derive(Debug, Clone, Copy, PartialEq, Eq, Structural)]
pub struct Step {
    pub node: usize,
    pub parent: usize,
    pub distance: usize,
}

/// Whether a step is on a shortest walk from a node.
pub open spec fn is_step(graph: Seq<Seq<usize>>, start: int, step: Step) -> bool {
    &&& step.node != start
    &&& step.distance > 0
    &&& is_distance(graph, start, step.node as int, step.distance as nat)
    &&& is_distance(graph, start, step.parent as int, (step.distance - 1) as nat)
    &&& edge(graph, step.parent as int, step.node as int)
}

/// Whether steps lead to every node that can be reached, each once.
pub open spec fn are_steps(graph: Seq<Seq<usize>>, start: int, steps: Seq<Step>) -> bool {
    &&& forall|i: int| 0 <= i < steps.len() ==> is_step(graph, start, #[trigger] steps[i])
    &&& forall|i: int, j: int|
        0 <= i < j < steps.len() ==> (#[trigger] steps[i]).node != (#[trigger] steps[j]).node
    &&& forall|node: int, count: nat|
        node != start && #[trigger] reaches(graph, start, node, count) ==> leads_to(steps, node)
}

/// Whether some step leads to a node.
pub open spec fn leads_to(steps: Seq<Step>, node: int) -> bool {
    exists|i: int| 0 <= i < steps.len() && (#[trigger] steps[i]).node == node
}

/// The lists of a graph.
pub open spec fn lists_of(graph: Seq<Vec<usize>>) -> Seq<Seq<usize>> {
    Seq::new(graph.len(), |i: int| graph[i]@)
}

/// Where the edges out of a node lead, each at a cost of one.
pub(crate) fn successors(graph: &Vec<Vec<usize>>, node: usize) -> (next: Vec<(usize, usize)>)
    ensures
        node < graph@.len() ==> next@.len() == graph@[node as int]@.len(),
        node >= graph@.len() ==> next@.len() == 0,
        forall|i: int|
            0 <= i < next@.len() ==> #[trigger] next@[i] == (graph@[node as int]@[i], 1usize),
{
    let mut next: Vec<(usize, usize)> = Vec::new();
    if node < graph.len() {
        let mut i: usize = 0;
        while i < graph[node].len()
            invariant
                node < graph@.len(),
                i <= graph@[node as int]@.len(),
                next@.len() == i,
                forall|k: int|
                    0 <= k < i ==> #[trigger] next@[k] == (graph@[node as int]@[k], 1usize),
            decreases graph@[node as int]@.len() - i,
        {
            next.push((graph[node][i], 1));
            i += 1;
        }
    }
    next
}

/// `pathfinding::directed::dijkstra::dijkstra_all` associates every node that
/// can be reached from the start, the start itself left out, with an optimal
/// parent and the least cost. With a cost of one an edge, the cost is the number
/// of edges, and an optimal parent is one edge nearer. Which of several optimal
/// parents it names, and in what order the nodes come, is left open.
#[verifier::external_body]
pub(crate) fn shortest_steps(graph: &Vec<Vec<usize>>, start: usize) -> (steps: Vec<Step>)
    ensures
        are_steps(lists_of(graph@), start as int, steps@),
{
    dijkstra_all(&start, |node: &usize| successors(graph, *node))
        .into_iter()
        .map(|(node, (parent, distance))| Step { node, parent, distance })
        .collect()
}

/// Whether nodes make a walk: each leads to the next.
pub open spec fn is_walk(graph: Seq<Seq<usize>>, walk: Seq<int>) -> bool {
    forall|i: int| 0 <= i < walk.len() - 1 ==> edge(graph, #[trigger] walk[i], walk[i + 1])
}

/// Whether nodes make a shortest walk from one node to another.
pub open spec fn is_shortest_walk(
    graph: Seq<Seq<usize>>,
    from: int,
    to: int,
    walk: Seq<int>,
) -> bool {
    &&& walk.len() > 0
    &&& walk[0] == from
    &&& walk.last() == to
    &&& is_walk(graph, walk)
    &&& is_distance(graph, from, to, (walk.len() - 1) as nat)
}

/// The numbers of nodes.
pub open spec fn node_numbers(nodes: Seq<usize>) -> Seq<int> {
    Seq::new(nodes.len(), |i: int| nodes[i] as int)
}

/// No two counts of edges are both the distance.
pub proof fn lemma_distance_unique(
    graph: Seq<Seq<usize>>,
    from: int,
    to: int,
    first: nat,
    second: nat,
)
    requires
        is_distance(graph, from, to, first),
        is_distance(graph, from, to, second),
    ensures
        first == second,
{
}

/// The place of the step that leads to a node.
fn step_to(steps: &Vec<Step>, node: usize) -> (place: Option<usize>)
    ensures
        match place {
            Some(place) => place < steps@.len() && steps@[place as int].node == node,
            None => !leads_to(steps@, node as int),
        },
{
    let mut i: usize = 0;
    while i < steps.len()
        invariant
            i <= steps@.len(),
            forall|k: int| 0 <= k < i ==> (#[trigger] steps@[k]).node != node,
        decreases steps@.len() - i,
    {
        if steps[i].node == node {
            return Some(i);
        }
        i += 1;
    }
    None
}

/// The nodes of a shortest walk, the target first, then each parent in turn.
pub(crate) fn walk_back(
    steps: &Vec<Step>,
    place: usize,
    graph: Ghost<Seq<Seq<usize>>>,
    start: Ghost<int>,
) -> (nodes: Vec<usize>)
    requires
        are_steps(graph@, start@, steps@),
        place < steps@.len(),
    ensures
        is_shortest_walk(
            graph@,
            start@,
            steps@[place as int].node as int,
            node_numbers(nodes@).reverse(),
        ),
        nodes@.len() == steps@[place as int].distance + 1,
{
    let ghost target = steps@[place as int];
    let mut nodes: Vec<usize> = Vec::new();
    let mut current: Step = steps[place];
    nodes.push(current.node);
    assert(is_step(graph@, start@, current));
    let mut at_start = false;
    while !at_start
        invariant
            are_steps(graph@, start@, steps@),
            nodes@.len() > 0,
            nodes@[0] == target.node,
            target.distance == nodes@.len() - 1 + if at_start {
                0
            } else {
                current.distance as int
            },
            at_start ==> nodes@.last() == start@,
            !at_start ==> nodes@.last() == current.node && is_step(graph@, start@, current),
            forall|i: int|
                0 <= i < nodes@.len() - 1 ==> edge(
                    graph@,
                    nodes@[i + 1] as int,
                    #[trigger] nodes@[i] as int,
                ),
        decreases if at_start {
            0
        } else {
            current.distance as int
        },
    {
        let parent: usize = current.parent;
        let ghost before = nodes@;
        nodes.push(parent);
        proof {
            assert forall|i: int| 0 <= i < nodes@.len() - 1 implies edge(
                graph@,
                nodes@[i + 1] as int,
                #[trigger] nodes@[i] as int,
            ) by {
                if i < before.len() - 1 {
                    assert(before[i] == nodes@[i]);
                    assert(before[i + 1] == nodes@[i + 1]);
                }
            }
        }
        match step_to(steps, parent) {
            Some(next) => {
                proof {
                    assert(is_step(graph@, start@, steps@[next as int]));
                    lemma_distance_unique(
                        graph@,
                        start@,
                        parent as int,
                        steps@[next as int].distance as nat,
                        (current.distance - 1) as nat,
                    );
                }
                current = steps[next];
            },
            None => {
                proof {
                    assert(reaches(
                        graph@,
                        start@,
                        parent as int,
                        (current.distance - 1) as nat,
                    ));
                    assert(parent == start@);
                    if current.distance - 1 > 0 {
                        reveal_with_fuel(reaches, 1);
                        assert(reaches(graph@, start@, start@, 0));
                    }
                }
                at_start = true;
            },
        }
    }
    proof {
        let walk = node_numbers(nodes@).reverse();
        assert(walk.len() == nodes@.len());
        assert forall|i: int| 0 <= i < walk.len() - 1 implies edge(
            graph@,
            #[trigger] walk[i],
            walk[i + 1],
        ) by {
            let k = nodes@.len() - 2 - i;
            assert(walk[i] == nodes@[k + 1] as int);
            assert(walk[i + 1] == nodes@[k] as int);
        }
        assert(is_step(graph@, start@, target));
    }
    nodes
}

} // verus!
