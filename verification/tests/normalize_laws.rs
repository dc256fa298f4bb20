use infact::normalize::form::{Arm, Coverage, Direction, Form, Pattern};
use infact::normalize::roles::Roles;

fn boxed(form: Form) -> Box<Form> {
    Box::new(form)
}

fn item(index: u32) -> Box<Pattern> {
    Box::new(Pattern::Binding(index))
}

/// One form of every shape.
fn every_shape() -> Vec<Form> {
    let walk = |body: Form| Form::Traverse {
        sequence: boxed(Form::Free(0)),
        item: item(1),
        body: boxed(body),
        direction: Direction::Backward,
    };
    vec![
        Form::Local(3),
        Form::Free(2),
        Form::Literal,
        Form::Constant("\"a\"".to_owned()),
        Form::Number("7".to_owned()),
        Form::Construct("Vec".to_owned()),
        Form::Variant { name: "Some".to_owned(), payload: vec![Form::Free(0)] },
        Form::Path("std::mem::take".to_owned()),
        Form::Field { value: boxed(Form::Free(0)), name: "len".to_owned() },
        Form::Method {
            name: "push".to_owned(),
            receiver: boxed(Form::Free(0)),
            arguments: vec![Form::Local(1), Form::Free(0)],
        },
        Form::Call { callee: boxed(Form::Free(1)), arguments: vec![Form::Local(1)] },
        walk(Form::Local(1)),
        Form::Pairwise {
            sequence: boxed(Form::Free(0)),
            left: item(1),
            right: item(2),
            body: boxed(Form::Local(2)),
            coverage: Coverage::Adjacent,
        },
        Form::Repeat { condition: boxed(Form::Free(0)), body: boxed(Form::Literal) },
        Form::Swap {
            sequence: boxed(Form::Free(0)),
            left: boxed(Form::Free(1)),
            right: boxed(Form::Free(2)),
        },
        Form::Transform {
            sequence: boxed(Form::Free(0)),
            item: item(1),
            body: boxed(Form::Local(1)),
        },
        Form::Sift {
            sequence: boxed(Form::Free(0)),
            item: item(1),
            body: boxed(Form::Local(1)),
        },
        Form::Retain {
            sequence: boxed(Form::Free(0)),
            item: item(1),
            body: boxed(Form::Local(1)),
        },
        Form::Accumulate {
            sequence: boxed(Form::Free(0)),
            initial: boxed(Form::Number("0".to_owned())),
            accumulator: item(1),
            item: item(2),
            body: boxed(Form::Local(1)),
        },
        Form::Collect { sequence: boxed(Form::Free(0)), container: None },
        Form::Assign {
            operator: "+=".to_owned(),
            target: boxed(Form::Local(0)),
            value: boxed(Form::Free(0)),
        },
        Form::Binary {
            operator: "<".to_owned(),
            left: boxed(Form::Free(0)),
            right: boxed(Form::Free(1)),
        },
        Form::Unary { operator: "!".to_owned(), value: boxed(Form::Free(0)) },
        Form::Index { sequence: boxed(Form::Free(0)), position: boxed(Form::Free(1)) },
        Form::Span {
            start: boxed(Form::Free(0)),
            end: boxed(Form::Free(1)),
            inclusive: true,
        },
        Form::Lambda {
            parameters: vec![Pattern::Ignored, Pattern::Binding(4)],
            body: boxed(Form::Local(4)),
        },
        Form::Let { pattern: item(0), value: boxed(Form::Free(0)) },
        Form::Branch {
            condition: boxed(Form::Free(0)),
            consequence: boxed(Form::Literal),
            alternative: Some(boxed(Form::Free(1))),
        },
        Form::select(
            Form::Free(0),
            vec![
                Arm {
                    pattern: Pattern::Variant {
                        name: "Some".to_owned(),
                        parts: vec![Pattern::Binding(1)],
                    },
                    body: Form::Return(boxed(Form::Local(1))),
                },
                Arm { pattern: Pattern::Ignored, body: Form::Literal },
            ],
        ),
        Form::Return(boxed(Form::Free(0))),
        Form::Sequence(vec![walk(Form::Local(1)), Form::Literal]),
        Form::Sequence(Vec::new()),
        Form::Opaque { kind: "goto".to_owned(), parts: vec![Form::Free(0)] },
    ]
}

#[test]
fn every_form_matches_itself() {
    for form in every_shape() {
        assert!(form.contains(&form), "{}", form.display());
    }
}

#[test]
fn no_two_locals_stand_for_one() {
    let method = |first: u32, second: u32| Form::Method {
        name: "push".to_owned(),
        receiver: boxed(Form::Local(first)),
        arguments: vec![Form::Local(second)],
    };
    assert!(method(4, 5).contains(&method(0, 1)));
    assert!(!method(4, 4).contains(&method(0, 1)));
    assert!(!method(4, 5).contains(&method(0, 0)));
}

#[test]
fn a_hole_stands_for_one_thing() {
    let sum = |left: Form, right: Form| Form::Binary {
        operator: "+".to_owned(),
        left: boxed(left),
        right: boxed(right),
    };
    let twice = sum(Form::Free(0), Form::Free(0));
    let number = |text: &str| Form::Number(text.to_owned());
    assert!(sum(number("1"), number("1")).contains(&twice));
    assert!(!sum(number("1"), number("2")).contains(&twice));
}

#[test]
fn canonical_forms_decide_renaming() {
    let walk = |sequence: u32, name: u32| Form::Traverse {
        sequence: boxed(Form::Free(sequence)),
        item: item(name),
        body: boxed(Form::Local(name)),
        direction: Direction::Forward,
    };
    assert_eq!(walk(3, 9).canonical(), walk(0, 2).canonical());
    assert_eq!(walk(3, 9).canonical().canonical(), walk(3, 9).canonical());
    let other = Form::Traverse {
        sequence: boxed(Form::Free(0)),
        item: item(1),
        body: boxed(Form::Local(2)),
        direction: Direction::Forward,
    };
    assert_ne!(other.canonical(), walk(0, 2).canonical());
}

#[test]
fn simplified_forms_are_left_alone() {
    for form in every_shape() {
        let once = form.simplify();
        assert_eq!(once.simplify(), once, "{}", form.display());
    }
}

#[test]
fn a_form_is_written_as_text() {
    let form = Form::Traverse {
        sequence: boxed(Form::Free(0)),
        item: item(1),
        body: boxed(Form::Method {
            name: "push".to_owned(),
            receiver: boxed(Form::Local(0)),
            arguments: vec![Form::Local(1)],
        }),
        direction: Direction::Forward,
    };
    assert_eq!(form.display(), "(traverse f0 v1 (method push v0 v1))");
}

#[test]
fn arithmetic_is_folded() {
    let form = Form::Binary {
        operator: "+".to_owned(),
        left: boxed(Form::Number("2".to_owned())),
        right: boxed(Form::Number("3".to_owned())),
    };
    assert_eq!(form.simplify(), Form::Number("5".to_owned()));
}

#[test]
fn resolving_a_name_twice_gives_one_role() {
    let mut roles = Roles::new();
    let first = roles.resolve("value");
    let _ = roles.bind("other");
    assert_eq!(roles.resolve("value"), first);
}

#[test]
fn renumbering_keeps_what_is_measured() {
    let form = Form::Sequence(vec![
        Form::Let {
            pattern: item(7),
            value: boxed(Form::Free(9)),
        },
        Form::Method {
            name: "push".to_owned(),
            receiver: boxed(Form::Free(4)),
            arguments: vec![Form::Local(7), Form::Free(9)],
        },
    ]);
    let canonical = form.canonical();
    assert_eq!(canonical.size(), form.size());
    assert_eq!(canonical.depth(), form.depth());
    assert_eq!(canonical.anchors(), form.anchors());
    assert_eq!(canonical.holes(), 2);
    assert_eq!(form.holes(), 2);
    assert_eq!(canonical.display(), "(do (let v0 f0) (method push f1 v0 f0))");
}

#[test]
fn an_unnamed_binding_is_nobodys() {
    let mut roles = Roles::new();
    assert_eq!(roles.bind("a"), Form::Local(0));
    assert_eq!(roles.bind_anonymous(), Form::Local(1));
    assert_eq!(roles.ledger().len(), 1);
    assert_eq!(roles.bind("b"), Form::Local(2));
    assert_eq!(roles.resolve("a"), Form::Local(0));
    assert_eq!(roles.resolve("c"), Form::Free(0));
}
