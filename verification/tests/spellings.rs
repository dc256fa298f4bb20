use infact::facts::{Certainty, Condition, Containment, DiscardForm, Effect, Reach, SourceSpan};
use infact::facts::unknown_reach;

#[test]
fn discard_form_spellings() {
    for (value, spelling) in [
        (DiscardForm::LetUnderscore, "let-underscore"),
        (DiscardForm::OkDiscard, "ok-discard"),
        (DiscardForm::UnwrapOr, "unwrap-or"),
        (DiscardForm::ErrArm, "err-arm"),
        (DiscardForm::OkBinding, "ok-binding"),
        (DiscardForm::IteratorDrop, "iterator-drop"),
        (DiscardForm::CauseErased, "cause-erased"),
        (DiscardForm::Panic, "panic"),
    ] {
        assert_eq!(value.as_str(), spelling);
    }
}

#[test]
fn containment_spellings() {
    for (value, spelling) in [
        (Containment::Fallible, "fallible"),
        (Containment::Optional, "optional"),
        (Containment::Infallible, "infallible"),
    ] {
        assert_eq!(value.as_str(), spelling);
    }
}

#[test]
fn effect_spellings() {
    for (value, spelling) in [
        (Effect::Allocate, "allocate"),
        (Effect::Block, "block"),
        (Effect::EnvironmentRead, "environment-read"),
        (Effect::EnvironmentWrite, "environment-write"),
        (Effect::FileRead, "file-read"),
        (Effect::FileWrite, "file-write"),
        (Effect::Network, "network"),
        (Effect::Process, "process"),
        (Effect::Random, "random"),
        (Effect::Time, "time"),
        (Effect::Unsafe, "unsafe"),
    ] {
        assert_eq!(value.as_str(), spelling);
    }
}

fn span(start: Option<u64>, end: Option<u64>, first: u32, last: u32) -> SourceSpan {
    SourceSpan {
        path: "a.rs".to_owned(),
        start_byte: start,
        end_byte: end,
        start_line: first,
        end_line: last,
        start_column: None,
        end_column: None,
    }
}

#[test]
fn a_byte_range_needs_both_ends() {
    assert_eq!(span(Some(3), Some(9), 1, 1).byte_range(), Some((3, 9)));
    assert_eq!(span(Some(3), None, 1, 1).byte_range(), None);
    assert_eq!(span(None, Some(9), 1, 1).byte_range(), None);
}

#[test]
fn lines_are_counted_inclusively() {
    assert_eq!(span(None, None, 4, 4).line_count(), 1);
    assert_eq!(span(None, None, 4, 7).line_count(), 4);
}

#[test]
fn reach_is_unknown_until_it_is_told() {
    assert_eq!(unknown_reach(), Reach::Unknown);
    assert_ne!(Certainty::Certain, Certainty::Possible);
}

#[test]
fn conditions_read_as_sentences() {
    let bound = Condition::ElementBound {
        requires_bound: "Ord".to_owned(),
        code_requires: "PartialOrd".to_owned(),
    };
    assert_eq!(
        bound.display(),
        "the element type must be Ord; the code needs only PartialOrd"
    );
    assert_eq!(Condition::Allocates.display(), "the API allocates and the code does not");
}
