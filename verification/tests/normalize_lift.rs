use infact::normalize::form::{Arm, Direction, Form, Pattern};

fn none() -> Form {
    Form::Variant {
        name: "None".to_owned(),
        payload: vec![],
    }
}

fn some(payload: Form) -> Form {
    Form::Variant {
        name: "Some".to_owned(),
        payload: vec![payload],
    }
}

fn search(body: Form) -> Form {
    Form::Sequence(vec![
        Form::Traverse {
            sequence: Box::new(Form::Free(0)),
            item: Box::new(Pattern::Binding(1)),
            body: Box::new(body),
            direction: Direction::Forward,
        },
        none(),
    ])
}

fn produced() -> Form {
    Form::select(
        Form::Call {
            callee: Box::new(Form::Free(1)),
            arguments: vec![Form::Local(1)],
        },
        vec![
            Arm {
                pattern: Pattern::Variant {
                    name: "None".to_owned(),
                    parts: vec![],
                },
                body: Form::Literal,
            },
            Arm {
                pattern: Pattern::Variant {
                    name: "Some".to_owned(),
                    parts: vec![Pattern::Binding(2)],
                },
                body: Form::Return(Box::new(some(Form::Local(2)))),
            },
        ],
    )
}

#[test]
fn a_search_that_produces_values_lifts_to_a_sift() {
    let lifted = search(produced()).lifted_from_one_step();
    assert_eq!(
        lifted,
        Some(Form::Sift {
            sequence: Box::new(Form::Free(0)),
            item: Box::new(Pattern::Binding(1)),
            body: Box::new(Form::Call {
                callee: Box::new(Form::Free(1)),
                arguments: vec![Form::Local(1)],
            }),
        }),
        "FilterMap::next delegates to find_map, so one step of it is the sift"
    );
}

#[test]
fn a_search_that_keeps_elements_lifts_to_a_retain() {
    let kept = Form::Branch {
        condition: Box::new(Form::Call {
            callee: Box::new(Form::Free(1)),
            arguments: vec![Form::Local(1)],
        }),
        consequence: Box::new(Form::Return(Box::new(some(Form::Local(1))))),
        alternative: None,
    };
    let lifted = search(kept).lifted_from_one_step();
    assert!(
        matches!(lifted, Some(Form::Retain { .. })),
        "a step that hands back the element it was given is a filter: {lifted:?}"
    );
}

#[test]
fn anything_that_is_not_one_step_is_declined() {
    assert_eq!(Form::Free(0).lifted_from_one_step(), None);
    // a traversal that does not end by reporting exhaustion
    assert_eq!(
        Form::Sequence(vec![
            Form::Traverse {
                sequence: Box::new(Form::Free(0)),
                item: Box::new(Pattern::Binding(1)),
                body: Box::new(produced()),
                direction: Direction::Forward,
            },
            Form::Literal,
        ])
        .lifted_from_one_step(),
        None
    );
}

#[test]
fn the_lifted_form_names_nothing() {
    let lifted = search(produced())
        .lifted_from_one_step()
        .expect("the sift shape lifts");
    assert_eq!(lifted.anchors(), 0, "a bare sift over holes names nothing");
    assert!(
        lifted.anchors() < lifted.holes(),
        "more open than named: {} anchors, {} holes",
        lifted.anchors(),
        lifted.holes()
    );
}

#[test]
fn a_stateful_step_is_refused() {
    let remembers = Form::Sequence(vec![
        Form::Assign {
            operator: "=".to_owned(),
            target: Box::new(Form::Field {
                value: Box::new(Form::Free(0)),
                name: "index".to_owned(),
            }),
            value: Box::new(Form::Number("0".to_owned())),
        },
        produced(),
    ]);
    assert_eq!(search(remembers).lifted_from_one_step(), None);

    let two_sequences = Form::Sequence(vec![
        Form::Traverse {
            sequence: Box::new(Form::Free(0)),
            item: Box::new(Pattern::Binding(1)),
            body: Box::new(Form::Traverse {
                sequence: Box::new(Form::Free(2)),
                item: Box::new(Pattern::Binding(3)),
                body: Box::new(produced()),
                direction: Direction::Forward,
            }),
            direction: Direction::Forward,
        },
        none(),
    ]);
    assert_eq!(two_sequences.lifted_from_one_step(), None);
}

#[test]
fn a_search_that_hands_back_something_else_is_declined() {
    let handing = |value: Form| Form::Branch {
        condition: Box::new(Form::Call {
            callee: Box::new(Form::Free(1)),
            arguments: vec![Form::Local(1)],
        }),
        consequence: Box::new(Form::Return(Box::new(some(value)))),
        alternative: None,
    };
    assert!(search(handing(Form::Local(1))).lifted_from_one_step().is_some());
    assert_eq!(
        search(handing(Form::Number("0".to_owned()))).lifted_from_one_step(),
        None
    );
    assert_eq!(search(handing(Form::Local(2))).lifted_from_one_step(), None);
}

#[test]
fn a_binding_that_is_not_mentioned_counts() {
    let lambda = Form::Lambda {
        parameters: vec![Pattern::Binding(5)],
        body: Box::new(Form::Literal),
    };
    assert_eq!(lambda.highest_binding(), Some(5));
    assert_eq!(Form::Local(3).highest_binding(), Some(3));
    assert_eq!(Form::Free(3).highest_binding(), None);
}
