use infact::builder::{Error, ExternalFactPackBuilder, FactPackBuildRequest};
use infact::command::{
    exact_config, exact_line, near_config, near_line, place_line, ranked_reasons, ExactSettings,
    NearSettings, SkippedReason,
};
use infact::duplication::{ExactConfig, NearConfig};
use infact::facts::{ExactTokenClone, NearTokenClone, SourceSpan};

fn span(path: &str, first: u32, last: u32) -> SourceSpan {
    SourceSpan {
        path: path.to_owned(),
        start_byte: None,
        end_byte: None,
        start_line: first,
        end_line: last,
        start_column: None,
        end_column: None,
    }
}

#[test]
fn an_argument_comes_before_the_configuration() {
    let configured = ExactSettings { min_tokens: Some(7), min_lines: Some(3) };
    assert_eq!(
        exact_config(Some(9), None, &configured),
        ExactConfig { min_tokens: 9, min_lines: 3 }
    );
    let nothing = ExactSettings { min_tokens: None, min_lines: None };
    assert_eq!(exact_config(None, None, &nothing), ExactConfig::default());
    let nothing = NearSettings {
        min_tokens: None,
        min_lines: None,
        normalize_identifiers: None,
        normalize_literals: Some(false),
        max_changed_percent: None,
    };
    assert_eq!(
        near_config(None, None, Some(5), &nothing),
        NearConfig { max_changed_percent: 5, normalize_literals: false, ..NearConfig::default() }
    );
}

#[test]
fn findings_are_written_one_to_a_line() {
    assert_eq!(place_line(&span("a.rs", 3, 12)), "a.rs:3-12");
    let exact = ExactTokenClone {
        left: span("a.rs", 1, 2),
        right: span("b.rs", 3, 4),
        tokens: 60,
        token_sha256: String::new(),
    };
    assert_eq!(exact_line(&exact), "a.rs:1-2 = b.rs:3-4  60 tokens");
    let near = NearTokenClone {
        left: span("a.rs", 1, 2),
        right: span("b.rs", 3, 4),
        tokens: 60,
        changed_tokens: 4,
        normalized_token_sha256: String::new(),
        normalizations: Vec::new(),
    };
    assert_eq!(near_line(&near), "a.rs:1-2 ~ b.rs:3-4  60 tokens, 4 changed");
}

#[test]
fn the_commonest_reason_comes_first() {
    let reason = |name: &str, count: usize| SkippedReason { reason: name.to_owned(), count };
    let ranked = ranked_reasons(vec![reason("b", 1), reason("c", 4), reason("a", 1)]);
    let names: Vec<&str> = ranked.iter().map(|one| one.reason.as_str()).collect();
    assert_eq!(names, ["c", "a", "b"]);
}

#[test]
fn a_builder_runs_its_command_with_the_request() {
    assert!(matches!(
        ExternalFactPackBuilder::new(Vec::new()),
        Err(Error::EmptyCommand)
    ));
    let builder =
        ExternalFactPackBuilder::new(vec!["build".to_owned(), "--fast".to_owned()]).unwrap();
    assert_eq!(builder.command_text(), "build --fast");
    let request = FactPackBuildRequest {
        ecosystem: "cargo",
        package: "itertools",
        version: "0.15.0",
        repository: ".",
    };
    let line = builder.command_line(&request, "out");
    assert_eq!(line[..2], ["build".to_owned(), "--fast".to_owned()]);
    assert!(line.contains(&"itertools".to_owned()));
    assert!(line.contains(&"out".to_owned()));
    assert!(builder.outcome(true, Some(0), "").is_ok());
    assert!(matches!(
        builder.outcome(false, Some(3), " broken \n"),
        Err(Error::Failed { status: Some(3), stderr, .. }) if stderr == "broken"
    ));
}
