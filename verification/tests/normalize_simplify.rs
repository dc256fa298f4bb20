use infact::normalize::form::{Direction, Form, Pattern};
use infact::text::Comparison;

fn lambda(parameter: u32, body: Form) -> Form {
    Form::Lambda {
        parameters: vec![Pattern::Binding(parameter)],
        body: Box::new(body),
    }
}

#[test]
fn a_fold_with_nothing_to_accumulate_is_a_traversal() {
    let fold = Form::Method {
        name: "try_fold".to_owned(),
        receiver: Box::new(Form::Free(0)),
        arguments: vec![
            Form::Literal,
            Form::Lambda {
                parameters: vec![Pattern::Ignored, Pattern::Binding(1)],
                body: Box::new(Form::Local(1)),
            },
        ],
    };
    assert_eq!(
        fold.simplify().display(),
        "(traverse f0 v1 v1)",
        "a unit accumulator carries nothing"
    );
}

#[test]
fn a_name_bound_to_a_body_is_that_body() {
    let sequence = Form::Sequence(vec![
        Form::Let {
            pattern: Box::new(Pattern::Binding(0)),
            value: Box::new(lambda(1, Form::Local(1))),
        },
        Form::Call {
            callee: Box::new(Form::Local(0)),
            arguments: vec![Form::Free(9)],
        },
    ]);
    // the call becomes the body with the argument in place, and the binding
    // nothing refers to any more disappears
    assert_eq!(sequence.simplify().display(), "f9");
}

#[test]
fn a_name_bound_to_a_body_that_calls_itself_is_left_alone() {
    let recursive = Form::Sequence(vec![
        Form::Let {
            pattern: Box::new(Pattern::Binding(0)),
            value: Box::new(lambda(
                1,
                Form::Call {
                    callee: Box::new(Form::Local(0)),
                    arguments: vec![Form::Local(1)],
                },
            )),
        },
        Form::Call {
            callee: Box::new(Form::Local(0)),
            arguments: vec![Form::Free(9)],
        },
    ]);
    assert_eq!(
        recursive.simplify(),
        recursive.simplify(),
        "it terminates, which is the whole assertion"
    );
    assert!(
        recursive.simplify().display().contains("let"),
        "the binding survives: {}",
        recursive.simplify().display()
    );
}

#[test]
fn names_bound_to_bodies_that_call_each_other_are_left_alone() {
    let mutual = Form::Sequence(vec![
        Form::Let {
            pattern: Box::new(Pattern::Binding(0)),
            value: Box::new(lambda(
                2,
                Form::Call {
                    callee: Box::new(Form::Local(1)),
                    arguments: vec![Form::Local(2)],
                },
            )),
        },
        Form::Let {
            pattern: Box::new(Pattern::Binding(1)),
            value: Box::new(lambda(
                3,
                Form::Call {
                    callee: Box::new(Form::Local(0)),
                    arguments: vec![Form::Local(3)],
                },
            )),
        },
        Form::Call {
            callee: Box::new(Form::Local(0)),
            arguments: vec![Form::Free(9)],
        },
    ]);
    assert!(mutual.simplify().display().contains("let"));
}

#[test]
fn a_chain_of_bindings_that_does_not_cycle_still_unfolds() {
    let chained = Form::Sequence(vec![
        Form::Let {
            pattern: Box::new(Pattern::Binding(0)),
            value: Box::new(lambda(1, Form::Local(1))),
        },
        Form::Let {
            pattern: Box::new(Pattern::Binding(2)),
            value: Box::new(lambda(
                3,
                Form::Call {
                    callee: Box::new(Form::Local(0)),
                    arguments: vec![Form::Local(3)],
                },
            )),
        },
        Form::Call {
            callee: Box::new(Form::Local(2)),
            arguments: vec![Form::Free(9)],
        },
    ]);
    assert_eq!(chained.simplify().display(), "f9");
}

#[test]
fn recovering_a_break_value_yields_some_or_none() {
    let traversal = Form::Method {
        name: "break_value".to_owned(),
        receiver: Box::new(Form::Traverse {
            direction: Direction::Forward,
            sequence: Box::new(Form::Free(0)),
            item: Box::new(Pattern::Binding(1)),
            body: Box::new(Form::Return(Box::new(Form::Local(1)))),
        }),
        arguments: Vec::new(),
    };
    assert_eq!(
        traversal.simplify().display(),
        "(do (traverse f0 v1 (return (variant Some v1))) (variant None))"
    );
}

#[test]
fn breaking_out_of_a_fold_is_returning_from_a_loop() {
    let escape = Form::Branch {
        condition: Box::new(Form::Free(0)),
        consequence: Box::new(Form::Variant {
            name: "ControlFlow::Break".to_owned(),
            payload: vec![Form::Local(1)],
        }),
        alternative: Some(Box::new(Form::Variant {
            name: "ControlFlow::Continue".to_owned(),
            payload: vec![Form::Literal],
        })),
    };
    // the break becomes a return, and continuing becomes nothing at all;
    // nothing here binds the item, so it generalizes too
    assert_eq!(escape.simplify().display(), "(branch f0 (return f1))");
}

#[test]
fn generalizing_does_not_collide_with_an_existing_hole() {
    let form = Form::Method {
        name: "apply".to_owned(),
        receiver: Box::new(Form::Free(0)),
        arguments: vec![Form::Local(0)],
    };
    // the receiver is already `f0`, so the promoted name cannot be
    assert_eq!(form.simplify().display(), "(method apply f0 f1)");
}

#[test]
fn a_name_nothing_binds_becomes_a_hole() {
    let sequence = Form::Sequence(vec![
        Form::Let {
            pattern: Box::new(Pattern::Binding(0)),
            value: Box::new(lambda(1, Form::Local(1))),
        },
        Form::Call {
            callee: Box::new(Form::Local(0)),
            arguments: vec![Form::Local(7)],
        },
    ]);
    // `v7` is bound by nothing here, so it stands for whatever a caller
    // passes — under a number no existing hole has claimed
    assert_eq!(sequence.simplify().display(), "f0");
}

#[test]
fn mapping_what_was_filtered_is_one_pass() {
    let chained = Form::Transform {
        sequence: Box::new(Form::Retain {
            sequence: Box::new(Form::Free(0)),
            item: Box::new(Pattern::Binding(1)),
            body: Box::new(Form::Method {
                name: "is_ready".to_owned(),
                receiver: Box::new(Form::Local(1)),
                arguments: Vec::new(),
            }),
        }),
        item: Box::new(Pattern::Binding(2)),
        body: Box::new(Form::Method {
            name: "into_owned".to_owned(),
            receiver: Box::new(Form::Local(2)),
            arguments: Vec::new(),
        }),
    };
    // the two closures named the element separately; fusing makes the
    // second speak about the first's binding
    assert_eq!(
        chained.simplify().display(),
        "(sift f0 v1 (branch (method is_ready v1) \
         (variant Some (method into_owned v1)) (variant None)))"
    );
}

#[test]
fn taking_the_first_of_what_was_retained_is_a_search() {
    let first_of_filtered = Form::Method {
        name: "first".to_owned(),
        receiver: Box::new(Form::Retain {
            sequence: Box::new(Form::Free(0)),
            item: Box::new(Pattern::Binding(1)),
            body: Box::new(Form::Method {
                name: "is_ready".to_owned(),
                receiver: Box::new(Form::Local(1)),
                arguments: Vec::new(),
            }),
        }),
        arguments: Vec::new(),
    };
    assert_eq!(
        first_of_filtered.simplify().display(),
        "(do (traverse f0 v1 (branch (method is_ready v1) \
         (return (variant Some v1)))) (variant None))",
        "a search that yields the element or nothing yields an optional, \
         which is the shape a language with an option type writes directly"
    );
}

#[test]
fn taking_the_last_of_what_was_retained_is_left_alone() {
    let end_of_filtered = |end: &str| Form::Method {
        name: end.to_owned(),
        receiver: Box::new(Form::Retain {
            sequence: Box::new(Form::Free(0)),
            item: Box::new(Pattern::Binding(1)),
            body: Box::new(Form::Local(1)),
        }),
        arguments: Vec::new(),
    };
    let last = end_of_filtered("last").simplify();
    assert_ne!(
        last,
        end_of_filtered("first").simplify(),
        "a backwards search must not reduce to a forwards one"
    );
    assert!(
        last.display().contains("traverse-back"),
        "a backwards search walks the other way: {}",
        last.display()
    );
}

#[test]
fn a_form_with_no_applicable_law_is_unchanged() {
    let plain = Form::Traverse {
        direction: Direction::Forward,
        sequence: Box::new(Form::Free(0)),
        item: Box::new(Pattern::Binding(0)),
        body: Box::new(Form::Method {
            name: "push".to_owned(),
            receiver: Box::new(Form::Free(1)),
            arguments: vec![Form::Local(0)],
        }),
    };
    assert_eq!(plain.simplify(), plain);
}

#[test]
fn simplifying_is_idempotent() {
    let fold = Form::Method {
        name: "fold".to_owned(),
        receiver: Box::new(Form::Free(0)),
        arguments: vec![Form::Literal, lambda(1, Form::Local(1))],
    };
    let once = fold.simplify();
    assert_eq!(once.simplify(), once);
}

#[test]
fn operands_written_either_way_round_are_one_form() {
    let operands = [
        Form::Free(0),
        Form::Literal,
        Form::Number("3".to_owned()),
        Form::Field {
            value: Box::new(Form::Free(1)),
            name: "size".to_owned(),
        },
    ];
    for operator in ["+", "*", "==", "!=", "&", "|", "^", "&&", "||"] {
        for left in &operands {
            for right in &operands {
                let one = Form::Binary {
                    operator: operator.to_owned(),
                    left: Box::new(left.clone()),
                    right: Box::new(right.clone()),
                };
                let other = Form::Binary {
                    operator: operator.to_owned(),
                    left: Box::new(right.clone()),
                    right: Box::new(left.clone()),
                };
                assert_eq!(one.simplify().display(), other.simplify().display());
            }
        }
    }
    let difference = |left: Form, right: Form| Form::Binary {
        operator: "-".to_owned(),
        left: Box::new(left),
        right: Box::new(right),
    };
    assert_ne!(
        difference(Form::Free(0), Form::Free(1)).simplify().display(),
        difference(Form::Free(1), Form::Free(0)).simplify().display(),
    );
}

#[test]
fn forms_are_in_a_total_order() {
    let forms = [
        Form::Local(1),
        Form::Free(0),
        Form::Free(2),
        Form::Literal,
        Form::Number("1".to_owned()),
        Form::Sequence(vec![]),
        Form::Sequence(vec![Form::Free(0)]),
        Form::Sequence(vec![Form::Free(0), Form::Local(0)]),
        Form::Sequence(vec![Form::Free(1)]),
    ];
    for (i, left) in forms.iter().enumerate() {
        for (j, right) in forms.iter().enumerate() {
            let expected = if i < j {
                Comparison::Less
            } else if i == j {
                Comparison::Equal
            } else {
                Comparison::Greater
            };
            assert_eq!(left.compared(right), expected);
        }
    }
}

#[test]
fn two_subtractions_are_one_form_in_either_order() {
    let difference = |left: Form, right: Form| Form::Binary {
        operator: "-".to_owned(),
        left: Box::new(left),
        right: Box::new(right),
    };
    let length = || Form::Method {
        name: "len".to_owned(),
        receiver: Box::new(Form::Free(0)),
        arguments: vec![],
    };
    let one = || Form::Number("1".to_owned());
    let number_first = difference(difference(length(), one()), Form::Free(1));
    let name_first = difference(difference(length(), Form::Free(1)), one());
    assert_ne!(number_first.display(), name_first.display());
    assert_eq!(
        number_first.simplify().display(),
        name_first.simplify().display()
    );
    // a start that is a number folds with the other number, and so keeps them apart
    let ten = || Form::Number("10".to_owned());
    let folded = difference(difference(ten(), one()), Form::Free(1));
    let kept = difference(difference(ten(), Form::Free(1)), one());
    assert_ne!(folded.simplify().display(), kept.simplify().display());
}
