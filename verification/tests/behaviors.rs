use infact::behaviors::{
    container_name, leaf_name, Declaration, Library, LibraryCallable, Refusal, SourceId,
};
use infact::normalize::form::{Direction, Form, Pattern};

fn declaration(name: &str, source: SourceId) -> Declaration {
    Declaration { name: name.to_owned(), source }
}

fn callable(
    name: &str,
    container: Option<&str>,
    source: SourceId,
    form: Option<Form>,
) -> LibraryCallable {
    LibraryCallable {
        name: name.to_owned(),
        container: container.map(str::to_owned),
        source,
        form,
    }
}

fn work() -> Form {
    Form::Traverse {
        sequence: Box::new(Form::Free(0)),
        item: Box::new(Pattern::Binding(0)),
        body: Box::new(Form::Method {
            receiver: Box::new(Form::Local(0)),
            name: "push".to_owned(),
            arguments: Vec::new(),
        }),
        direction: Direction::Forward,
    }
}

fn calls(name: &str) -> Form {
    Form::Method {
        receiver: Box::new(Form::Free(0)),
        name: name.to_owned(),
        arguments: Vec::new(),
    }
}

#[test]
fn a_wrapper_is_followed_to_the_helper_that_does_the_work() {
    let callables = vec![
        callable("counts", None, 0, Some(calls("counts_with_hasher"))),
        callable("counts_with_hasher", None, 0, Some(work())),
    ];
    let library = Library::new(&callables, Vec::new(), vec!["next".to_owned()]);
    let derived = library.derive("counts", None).unwrap();
    assert_eq!(derived.chain, vec![0, 1]);
    assert_eq!(derived.form, work());
}

#[test]
fn a_delegation_does_not_resolve_to_the_caller() {
    let callables = vec![
        callable("find", Some("Iterator"), 0, Some(calls("find"))),
        callable("find", None, 0, Some(work())),
    ];
    let library = Library::new(&callables, Vec::new(), vec!["next".to_owned()]);
    let derived = library.derive("find", Some("Iterator")).unwrap();
    assert_eq!(derived.chain, vec![0, 1]);
}

#[test]
fn an_ambiguous_name_resolves_to_nothing() {
    let callables = vec![
        callable("next", Some("Keys"), 0, Some(work())),
        callable("next", Some("Values"), 1, Some(work())),
    ];
    let library = Library::new(&callables, Vec::new(), vec!["next".to_owned()]);
    assert_eq!(library.derive("next", None), Err(Refusal::NoImplementation));
}

#[test]
fn a_name_two_types_answer_to_is_not_followed_across_files() {
    let callables = vec![
        callable("iter", None, 0, Some(Form::Construct("Cursor".to_owned()))),
        callable("next", Some("Cursor"), 1, Some(work())),
    ];
    let ambiguous = vec![declaration("Cursor", 1), declaration("Cursor", 2)];
    let library = Library::new(&callables, ambiguous, vec!["next".to_owned()]);
    assert_eq!(library.derive("iter", None), Err(Refusal::NotComparable));

    let declared_once = vec![declaration("Cursor", 1)];
    let library = Library::new(&callables, declared_once, vec!["next".to_owned()]);
    assert_eq!(library.derive("iter", None).unwrap().chain, vec![0, 1]);
}

#[test]
fn a_construction_is_followed_within_one_file() {
    let callables = vec![
        callable("iter", None, 0, Some(Form::Construct("Cursor".to_owned()))),
        callable("next", Some("Cursor"), 0, Some(work())),
        callable("next", Some("Cursor"), 1, Some(work())),
    ];
    let library = Library::new(&callables, Vec::new(), vec!["next".to_owned()]);
    assert_eq!(library.derive("iter", None).unwrap().chain, vec![0, 1]);
}

#[test]
fn a_type_with_no_contract_method_is_not_followed_into() {
    let callables = vec![
        callable("from_raw", None, 0, Some(Form::Construct("Arc".to_owned()))),
        callable("clone_from_slice", Some("Arc"), 0, Some(work())),
    ];
    let library = Library::new(&callables, Vec::new(), vec!["next".to_owned()]);
    assert_eq!(
        library.derive("from_raw", None),
        Err(Refusal::NotComparable)
    );
}

#[test]
fn a_declaration_with_no_body_is_told_apart_from_a_missing_one() {
    let callables = vec![callable("find", None, 0, None)];
    let library = Library::new(&callables, Vec::new(), vec!["next".to_owned()]);
    assert_eq!(library.derive("find", None), Err(Refusal::NoBody));
    assert_eq!(
        library.derive("absent", None),
        Err(Refusal::NoImplementation)
    );
}

#[test]
fn a_container_is_only_read_off_a_path_that_names_a_type() {
    assert_eq!(
        container_name("itertools::Itertools::counts"),
        Some("Itertools".to_owned())
    );
    assert_eq!(container_name("itertools::counts"), None);
    assert_eq!(container_name("counts"), None);
    assert_eq!(leaf_name("itertools::Itertools::counts"), "counts");
}

#[test]
fn a_body_that_nests_too_far_is_refused() {
    let mut form = work();
    for _ in 0..40 {
        form = Form::Return(Box::new(form));
    }
    let callables = vec![callable("deep", None, 0, Some(form))];
    let library = Library::new(&callables, Vec::new(), vec!["next".to_owned()]);
    assert!(matches!(library.derive("deep", None), Err(Refusal::TooDeep(depth)) if depth > 32));
}
