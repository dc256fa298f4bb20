use infact::facts::SourceSpan;
use infact::flow::{Accounting, Flow, Graph, Labelled, Seed};

fn span(line: u32) -> SourceSpan {
    SourceSpan {
        path: "t.zig".into(),
        start_byte: Some(u64::from(line)),
        end_byte: Some(u64::from(line) + 1),
        start_line: line,
        end_line: line,
        start_column: None,
        end_column: None,
    }
}

fn chain() -> Graph {
    let mut graph = Graph::new();
    graph
        .name(0, "handler".to_owned())
        .name(1, "service".to_owned())
        .name(2, "adapter".to_owned())
        .flow(Flow {
            into: 0,
            from: 1,
            span: span(1),
        })
        .flow(Flow {
            into: 1,
            from: 2,
            span: span(2),
        })
        .seed(Seed {
            node: 2,
            label: 7,
            origin: "std::fs::read".to_owned(),
            span: span(3),
        });
    graph
}

#[test]
fn a_label_reaches_everything_that_flows_from_it() {
    let carried = chain().propagate();
    for node in [0, 1, 2] {
        assert!(carried.contains(&Labelled { node, label: 7 }), "{node}");
    }
}

#[test]
fn a_label_does_not_travel_the_wrong_way() {
    let mut graph = Graph::new();
    graph
        .name(0, "caller".to_owned())
        .name(1, "callee".to_owned())
        .flow(Flow {
            into: 0,
            from: 1,
            span: span(1),
        })
        .seed(Seed {
            node: 0,
            label: 1,
            origin: "seeded at the far end".to_owned(),
            span: span(1),
        });
    let carried = graph.propagate();
    assert!(carried.contains(&Labelled { node: 0, label: 1 }));
    assert!(
        !carried.contains(&Labelled { node: 1, label: 1 }),
        "a label flowed backwards along an edge"
    );
}

#[test]
fn a_witness_runs_from_the_claim_back_to_the_origin() {
    let witness = chain().witness(0, 7).expect("a witness");
    assert_eq!(witness.origin, "std::fs::read");
    let steps: Vec<(&str, &str)> = witness
        .path
        .iter()
        .map(|edge| (edge.subject.as_str(), edge.source.as_str()))
        .collect();
    assert_eq!(
        steps,
        vec![
            ("handler", "service"),
            ("service", "adapter"),
            ("adapter", "std::fs::read"),
        ]
    );
}

#[test]
fn a_node_that_does_the_thing_twice_has_two_witnesses() {
    let mut graph = chain();
    graph.seed(Seed {
        node: 2,
        label: 7,
        origin: "std::fs::write".to_owned(),
        span: span(4),
    });
    let origins: Vec<String> = graph
        .witnesses(0, 7)
        .into_iter()
        .map(|witness| witness.origin)
        .collect();
    assert_eq!(origins, vec!["std::fs::read", "std::fs::write"]);
}

#[test]
fn a_cycle_does_not_hang_the_search() {
    let mut graph = Graph::new();
    graph
        .name(0, "a".to_owned())
        .name(1, "b".to_owned())
        .flow(Flow {
            into: 0,
            from: 1,
            span: span(1),
        })
        .flow(Flow {
            into: 1,
            from: 0,
            span: span(2),
        });
    assert!(graph.witness(0, 3).is_none());
    assert!(graph.propagate().is_empty());
}

#[test]
fn a_label_nothing_seeds_is_carried_by_nobody() {
    assert!(chain().witness(0, 9).is_none());
}

#[test]
fn settling_makes_a_graph_independent_of_discovery_order() {
    let mut forward = Graph::new();
    forward
        .flow(Flow {
            into: 0,
            from: 1,
            span: span(1),
        })
        .flow(Flow {
            into: 1,
            from: 2,
            span: span(2),
        })
        .flow(Flow {
            into: 0,
            from: 1,
            span: span(1),
        })
        .settle();
    let mut backward = Graph::new();
    backward
        .flow(Flow {
            into: 1,
            from: 2,
            span: span(2),
        })
        .flow(Flow {
            into: 0,
            from: 1,
            span: span(1),
        })
        .settle();
    assert_eq!(forward.flows(), backward.flows());
}

#[test]
fn accounting_balances_only_when_everything_is_placed() {
    let mut accounting = Accounting {
        total: 3,
        linked: 1,
        seeded: 1,
        ..Accounting::default()
    };
    assert!(!accounting.balances());
    accounting.unknown += 1;
    assert!(accounting.balances());
    assert_eq!(accounting.unlinked(), 2);
}
