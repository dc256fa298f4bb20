use infact::normalize::form::{Coverage, Direction, Form, Pattern};
use infact::normalize::roles::Roles;

fn traverse() -> Form {
    Form::Traverse {
        sequence: Box::new(Form::Free(0)),
        item: Box::new(Pattern::Binding(1)),
        body: Box::new(Form::Method {
            name: "push".to_owned(),
            receiver: Box::new(Form::Local(0)),
            arguments: vec![Form::Local(1)],
        }),
        direction: Direction::Forward,
    }
}

fn pairwise(coverage: Coverage) -> Form {
    Form::Pairwise {
        sequence: Box::new(Form::Free(0)),
        left: Box::new(Pattern::Binding(0)),
        right: Box::new(Pattern::Binding(1)),
        body: Box::new(Form::Binary {
            operator: "==".to_owned(),
            left: Box::new(Form::Local(0)),
            right: Box::new(Form::Local(1)),
        }),
        coverage,
    }
}

#[test]
fn a_walk_over_pairs_matches_itself() {
    assert!(pairwise(Coverage::Once).contains(&pairwise(Coverage::Once)));
    assert!(
        Form::Sequence(vec![Form::Literal, pairwise(Coverage::Once)])
            .contains(&pairwise(Coverage::Once))
    );
}

#[test]
fn the_two_coverages_do_not_match_each_other() {
    assert!(!pairwise(Coverage::Once).contains(&pairwise(Coverage::BothWays)));
    assert!(!pairwise(Coverage::BothWays).contains(&pairwise(Coverage::Once)));
}

#[test]
fn every_occurrence_is_located_not_only_the_first() {
    let body = Form::Sequence(vec![traverse(), Form::Literal, traverse()]);
    assert_eq!(
        body.locate_all(&traverse()),
        vec![0..1, 2..3],
        "both traversals are the behavior, and the statement between them is not"
    );
    assert_eq!(
        body.locate(&traverse()),
        Some(0..1),
        "locate stays first-only"
    );
}

#[test]
fn located_occurrences_do_not_overlap() {
    let pair = Form::Sequence(vec![traverse(), traverse()]);
    let pattern = Form::Sequence(vec![traverse(), traverse()]);
    assert_eq!(pair.locate_all(&pattern), vec![0..2]);
}

#[test]
fn size_counts_every_node() {
    // traverse + sequence + method + receiver + argument
    assert_eq!(traverse().size(), 5);
    assert_eq!(Form::Literal.size(), 1);
}

#[test]
fn a_behavior_is_found_inside_a_larger_body() {
    let body = Form::Sequence(vec![
        Form::Let {
            pattern: Box::new(Pattern::Binding(0)),
            value: Box::new(Form::Construct("Vec".to_owned())),
        },
        traverse(),
        Form::Local(0),
    ]);
    assert!(body.contains(&traverse()));
    assert_eq!(body.occurrences(&traverse()).len(), 1);
    assert!(!traverse().contains(&body));
}

#[test]
fn locals_are_numbered_by_binding_order_and_free_names_by_appearance() {
    let mut roles = Roles::new();
    assert_eq!(roles.resolve("values"), Form::Free(0));
    assert_eq!(roles.bind("counts"), Form::Local(0));
    assert_eq!(roles.bind("value"), Form::Local(1));
    assert_eq!(roles.resolve("counts"), Form::Local(0));
    assert_eq!(roles.resolve("other"), Form::Free(1));
    // rebinding a name shadows the earlier role
    assert_eq!(roles.bind("value"), Form::Local(2));
    assert_eq!(roles.resolve("value"), Form::Local(2));
}

#[test]
fn trivial_forms_are_recognized() {
    assert!(Form::Free(0).is_trivial());
    assert!(Form::Literal.is_trivial());
    assert!(!traverse().is_trivial());
}
