//! What the report of discarded errors is for: nothing that drops an error is left
//! out, and nothing is reported that does not.

use super::are_reported;
use super::all_resolved;
use super::captures::{captured, captured_from, captured_text, region_covers, tree_at, CaptureView};
use super::collect::{
    answers_query, file_discards, file_scaffold, form_capture, has_form, matched_form,
    reported_discard, reported_form, span_at, FileView,
};
use super::naming::{leading, shortened, squeezed, unspaced};
use super::reach::{DiscardView, NodeView};
use super::scaffold::{containment, HandlingView, Propagation};
use crate::facts::{discard_spelling, Certainty, Containment, DiscardForm, ErrorDiscard, Reach};
use crate::ordering::{lemma_settles, settled_of};
use crate::syntax::Tree;
use crate::text::{holds_text, is_blank, stands_at};
use vstd::prelude::*;
use vstd::string::*;

verus! {

/// The ways of dropping an error, as they are tried.
pub open spec fn tried_forms() -> Seq<DiscardForm> {
    seq![
        DiscardForm::LetUnderscore,
        DiscardForm::OkBinding,
        DiscardForm::ErrArm,
        DiscardForm::OkDiscard,
        DiscardForm::UnwrapOr,
        DiscardForm::CauseErased,
        DiscardForm::Panic,
        DiscardForm::IteratorDrop,
    ]
}

/// Each way of dropping an error is captured under its own spelling.
pub proof fn law_forms_are_captured_by_their_spelling(form: DiscardForm)
    ensures
        form_capture(form) == "discard."@ + discard_spelling(form),
{
    reveal_strlit("discard.");
    reveal_strlit("let-underscore");
    reveal_strlit("ok-discard");
    reveal_strlit("unwrap-or");
    reveal_strlit("err-arm");
    reveal_strlit("ok-binding");
    reveal_strlit("iterator-drop");
    reveal_strlit("cause-erased");
    reveal_strlit("panic");
    reveal_strlit("discard.let-underscore");
    reveal_strlit("discard.ok-discard");
    reveal_strlit("discard.unwrap-or");
    reveal_strlit("discard.err-arm");
    reveal_strlit("discard.ok-binding");
    reveal_strlit("discard.iterator-drop");
    reveal_strlit("discard.cause-erased");
    reveal_strlit("discard.panic");
    assert(form_capture(form) =~= "discard."@ + discard_spelling(form));
}

/// No two ways of dropping an error are spelled alike.
pub proof fn law_forms_are_spelled_apart(left: DiscardForm, right: DiscardForm)
    requires
        left != right,
    ensures
        discard_spelling(left) != discard_spelling(right),
{
    reveal_strlit("let-underscore");
    reveal_strlit("ok-discard");
    reveal_strlit("unwrap-or");
    reveal_strlit("err-arm");
    reveal_strlit("ok-binding");
    reveal_strlit("iterator-drop");
    reveal_strlit("cause-erased");
    reveal_strlit("panic");
    assert("ok-discard"@[3] == 'd' && "ok-binding"@[3] == 'b');
    assert("let-underscore"@[0] == 'l' && "ok-discard"@[0] == 'o' && "ok-binding"@[0] == 'o'
        && "unwrap-or"@[0] == 'u' && "err-arm"@[0] == 'e' && "iterator-drop"@[0] == 'i'
        && "cause-erased"@[0] == 'c' && "panic"@[0] == 'p');
}

proof fn lemma_captured(tree: Tree, captures: Seq<CaptureView>, name: Seq<char>, i: int)
    requires
        0 <= i,
    ensures
        match captured_from(tree, captures, name, i) {
            Some(k) => {
                &&& i <= k < captures.len()
                &&& captures[k].name == name
                &&& tree_at(tree, captures[k].path) is Some
                &&& forall|j: int|
                    i <= j < k && (#[trigger] captures[j]).name == name ==> tree_at(
                        tree,
                        captures[j].path,
                    ) is None
            },
            None => forall|j: int|
                i <= j < captures.len() && (#[trigger] captures[j]).name == name ==> tree_at(
                    tree,
                    captures[j].path,
                ) is None,
        },
    decreases captures.len() - i,
{
    if i < captures.len() {
        lemma_captured(tree, captures, name, i + 1);
    }
}

/// What is captured under a name is the first node that was named so and stands in
/// the tree; nothing is captured only where there is none.
pub proof fn law_the_first_node_of_a_name_is_captured(
    tree: Tree,
    captures: Seq<CaptureView>,
    name: Seq<char>,
)
    ensures
        match captured(tree, captures, name) {
            Some(node) => exists|k: int|
                0 <= k < captures.len() && (#[trigger] captures[k]).name == name && tree_at(
                    tree,
                    captures[k].path,
                ) == Some(node),
            None => forall|k: int|
                0 <= k < captures.len() && (#[trigger] captures[k]).name == name ==> tree_at(
                    tree,
                    captures[k].path,
                ) is None,
        },
{
    lemma_captured(tree, captures, name, 0);
}

/// A match that captures a node as a way of dropping an error is found to drop one,
/// in a way that it captures a node as: the first of those, as they are tried. One
/// that captures none is found to drop none.
pub proof fn law_every_captured_form_is_found(tree: Tree, captures: Seq<CaptureView>)
    ensures
        matched_form(tree, captures) is None <==> forall|form: DiscardForm|
            captured(tree, captures, "discard."@ + #[trigger] discard_spelling(form)) is None,
        matched_form(tree, captures) matches Some(form) ==> captured(
            tree,
            captures,
            "discard."@ + discard_spelling(form),
        ) is Some && exists|i: int|
            0 <= i < 8 && #[trigger] tried_forms()[i] == form && forall|j: int|
                0 <= j < i ==> captured(
                    tree,
                    captures,
                    "discard."@ + discard_spelling(#[trigger] tried_forms()[j]),
                ) is None,
{
    assert forall|form: DiscardForm|
        has_form(tree, captures, form) == (captured(
            tree,
            captures,
            "discard."@ + #[trigger] discard_spelling(form),
        ) is Some) by {
        law_forms_are_captured_by_their_spelling(form);
    }
    let forms = tried_forms();
    let found = matched_form(tree, captures);
    if let Some(form) = found {
        let i: int = match form {
            DiscardForm::LetUnderscore => 0,
            DiscardForm::OkBinding => 1,
            DiscardForm::ErrArm => 2,
            DiscardForm::OkDiscard => 3,
            DiscardForm::UnwrapOr => 4,
            DiscardForm::CauseErased => 5,
            DiscardForm::Panic => 6,
            DiscardForm::IteratorDrop => 7,
        };
        assert(forms[i] == form);
        assert forall|j: int| 0 <= j < i implies captured(
            tree,
            captures,
            "discard."@ + discard_spelling(#[trigger] forms[j]),
        ) is None by {
            assert(!has_form(tree, captures, forms[j]));
        }
        assert(captured(tree, captures, "discard."@ + discard_spelling(form)) is Some);
    } else {
        assert forall|form: DiscardForm|
            captured(tree, captures, "discard."@ + #[trigger] discard_spelling(form)) is None by {
            assert(!has_form(tree, captures, form));
        }
    }
}

/// Whether a discard tells of a node that drops an error: where it stands, how it
/// drops it, what it drops, and whether it is in a test.
pub open spec fn tells_of(
    discard: DiscardView,
    file: FileView,
    captures: Seq<CaptureView>,
    form: DiscardForm,
    site: Tree,
) -> bool {
    let name = "discard."@ + discard_spelling(form);
    &&& discard.form == form
    &&& discard.span == span_at(file.path, site.extent)
    &&& discard.expression == shortened(
        match captured_text(file.tree, captures, name + ".expression"@) {
            Some(text) => text,
            None => Seq::empty(),
        },
    )
    &&& discard.certainty == Certainty::Possible <==> file.types.ambiguous_forms.contains(
        discard_spelling(form),
    )
    &&& discard.in_test <==> exists|i: int|
        0 <= i < file_scaffold(file).tests.len() && region_covers(
            #[trigger] file_scaffold(file).tests[i],
            site.extent.start_byte as int,
        )
}

/// The discard that a match reports tells of the node it captured.
proof fn lemma_told(file: FileView, captures: Seq<CaptureView>, form: DiscardForm, site: Tree)
    requires
        captured(file.tree, captures, form_capture(form)) == Some(site),
    ensures
        tells_of(reported_discard(file, captures, form), file, captures, form, site),
{
    law_forms_are_captured_by_their_spelling(form);
}

proof fn lemma_discards(file: FileView, n: int, i: int)
    requires
        0 <= i < n <= file.discards.len(),
        reported_form(file, file.discards[i]) is Some,
    ensures
        file_discards(file, n).contains(
            reported_discard(
                file,
                file.discards[i],
                reported_form(file, file.discards[i])->0,
            ),
        ),
    decreases n,
{
    let told = reported_discard(
        file,
        file.discards[i],
        reported_form(file, file.discards[i])->0,
    );
    let before = file_discards(file, n - 1);
    let all = file_discards(file, n);
    if i < n - 1 {
        lemma_discards(file, n - 1, i);
        let k = choose|k: int| 0 <= k < before.len() && before[k] == told;
        assert(all[k] == told);
    } else {
        assert(all[before.len() as int] == told);
    }
}

proof fn lemma_discards_only(file: FileView, n: int, k: int)
    requires
        0 <= n <= file.discards.len(),
        0 <= k < file_discards(file, n).len(),
    ensures
        exists|i: int|
            0 <= i < n && (reported_form(file, #[trigger] file.discards[i]) matches Some(form)
                && file_discards(file, n)[k] == reported_discard(file, file.discards[i], form)),
    decreases n,
{
    if n > 0 {
        let before = file_discards(file, n - 1);
        if k < before.len() {
            lemma_discards_only(file, n - 1, k);
        } else {
            assert(reported_form(file, file.discards[n - 1]) is Some);
        }
    }
}

/// Every match that drops an error is collected: where it captures a node as a way of
/// dropping one, and not one tried before, where it does not show the cause to be
/// read, and where it does not answer a query, there is a discard that tells of the
/// node.
pub proof fn law_every_dropped_error_is_collected(
    file: FileView,
    i: int,
    place: int,
)
    requires
        0 <= i < file.discards.len(),
        0 <= place < 8,
        captured(
            file.tree,
            file.discards[i],
            "discard."@ + discard_spelling(tried_forms()[place]),
        ) is Some,
        forall|j: int|
            0 <= j < place ==> captured(
                file.tree,
                file.discards[i],
                "discard."@ + discard_spelling(#[trigger] tried_forms()[j]),
            ) is None,
        captured(
            file.tree,
            file.discards[i],
            "discard."@ + discard_spelling(tried_forms()[place]) + ".bind"@,
        ) is None,
        !answers_query(file, file.discards[i], tried_forms()[place]),
    ensures
        exists|k: int|
            0 <= k < file_discards(file, file.discards.len() as int).len() && tells_of(
                #[trigger] file_discards(file, file.discards.len() as int)[k],
                file,
                file.discards[i],
                tried_forms()[place],
                captured(
                    file.tree,
                    file.discards[i],
                    "discard."@ + discard_spelling(tried_forms()[place]),
                )->0,
            ),
{
    let captures = file.discards[i];
    let form = tried_forms()[place];
    let all = file_discards(file, file.discards.len() as int);
    assert forall|other: DiscardForm|
        has_form(file.tree, captures, other) == (captured(
            file.tree,
            captures,
            "discard."@ + #[trigger] discard_spelling(other),
        ) is Some) by {
        law_forms_are_captured_by_their_spelling(other);
    }
    law_every_captured_form_is_found(file.tree, captures);
    law_forms_are_captured_by_their_spelling(form);
    assert(matched_form(file.tree, captures) == Some(form)) by {
        let found = matched_form(file.tree, captures)->0;
        let at = choose|at: int|
            0 <= at < 8 && #[trigger] tried_forms()[at] == found && forall|j: int|
                0 <= j < at ==> captured(
                    file.tree,
                    captures,
                    "discard."@ + discard_spelling(#[trigger] tried_forms()[j]),
                ) is None;
        if at < place {
            assert(captured(
                file.tree,
                captures,
                "discard."@ + discard_spelling(tried_forms()[at]),
            ) is None);
        }
        if place < at {
            assert(captured(
                file.tree,
                captures,
                "discard."@ + discard_spelling(tried_forms()[place]),
            ) is None);
        }
    }
    assert(reported_form(file, captures) == Some(form));
    lemma_discards(file, file.discards.len() as int, i);
    let told = reported_discard(file, captures, form);
    let k = choose|k: int| 0 <= k < all.len() && all[k] == told;
    let site = captured(file.tree, captures, form_capture(form))->0;
    lemma_told(file, captures, form, site);
    assert(tells_of(all[k], file, captures, form, site));
}

/// Nothing else is collected: every discard tells of a node that some match captured
/// as its way of dropping an error, which does not show the cause to be read and does
/// not answer a query.
pub proof fn law_only_dropped_errors_are_collected(file: FileView, k: int)
    requires
        0 <= k < file_discards(file, file.discards.len() as int).len(),
    ensures
        ({
            let discard = file_discards(file, file.discards.len() as int)[k];
            exists|i: int|
                0 <= i < file.discards.len() && (captured(
                    file.tree,
                    #[trigger] file.discards[i],
                    "discard."@ + discard_spelling(discard.form),
                ) matches Some(site) && tells_of(
                    discard,
                    file,
                    file.discards[i],
                    discard.form,
                    site,
                )) && captured(
                    file.tree,
                    file.discards[i],
                    "discard."@ + discard_spelling(discard.form) + ".bind"@,
                ) is None && !answers_query(file, file.discards[i], discard.form)
        }),
{
    let n = file.discards.len() as int;
    let discard = file_discards(file, n)[k];
    lemma_discards_only(file, n, k);
    let i = choose|i: int|
        0 <= i < n && (reported_form(file, #[trigger] file.discards[i]) matches Some(form)
            && file_discards(file, n)[k] == reported_discard(file, file.discards[i], form));
    let captures = file.discards[i];
    let form = reported_form(file, captures)->0;
    law_forms_are_captured_by_their_spelling(form);
    law_every_captured_form_is_found(file.tree, captures);
    let site = captured(file.tree, captures, form_capture(form))->0;
    lemma_told(file, captures, form, site);
    assert(discard.form == form);
}

/// Whether two discards are the same, but for how far the failure could have been
/// reported.
pub open spec fn same_discard(left: DiscardView, right: DiscardView) -> bool {
    left == (DiscardView { reach: left.reach, path: left.path, ..right })
}

/// Whether a report holds a discard.
pub open spec fn is_told_in(reported: Seq<DiscardView>, discard: DiscardView) -> bool {
    exists|k: int| 0 <= k < reported.len() && same_discard(#[trigger] reported[k], discard)
}

/// The report holds every discard that was collected, and no other; what it adds is
/// how far each failure could have been reported, and that is no further than where
/// it was dropped exactly where the callable there could have reported it.
pub proof fn law_every_collected_discard_is_reported(
    nodes: Seq<NodeView>,
    collected: Seq<DiscardView>,
    reported: Seq<DiscardView>,
)
    requires
        are_reported(nodes, collected, reported),
        forall|i: int| 0 <= i < collected.len() ==> (#[trigger] collected[i]).reach == Reach::Unknown,
    ensures
        forall|i: int|
            0 <= i < collected.len() ==> is_told_in(reported, #[trigger] collected[i]),
        forall|k: int|
            0 <= k < reported.len() ==> ((#[trigger] reported[k]).reach == Reach::Local
                <==> reported[k].containment == Containment::Fallible) && exists|i: int|
                0 <= i < collected.len() && same_discard(reported[k], #[trigger] collected[i]),
{
    let resolved = choose|resolved: Seq<DiscardView>| #[trigger]
        all_resolved(nodes, collected, resolved) && reported == settled_of::<ErrorDiscard>(
            resolved,
        );
    lemma_settles::<ErrorDiscard>(resolved);
    assert forall|i: int| 0 <= i < collected.len() implies same_discard(
        resolved[i],
        #[trigger] collected[i],
    ) && (resolved[i].reach == Reach::Local <==> resolved[i].containment
        == Containment::Fallible) by {
        assert(collected[i].reach == Reach::Unknown);
    }
    assert forall|i: int| 0 <= i < collected.len() implies is_told_in(
        reported,
        #[trigger] collected[i],
    ) by {
        assert(resolved.contains(resolved[i]));
        assert(reported.contains(resolved[i]));
        let k = choose|k: int| 0 <= k < reported.len() && reported[k] == resolved[i];
        assert(same_discard(reported[k], collected[i]));
    }
    assert forall|k: int| 0 <= k < reported.len() implies ((#[trigger] reported[k]).reach
        == Reach::Local <==> reported[k].containment == Containment::Fallible) && exists|i: int|
        0 <= i < collected.len() && same_discard(reported[k], #[trigger] collected[i]) by {
        assert(reported.contains(reported[k]));
        assert(resolved.contains(reported[k]));
        let i = choose|i: int| 0 <= i < resolved.len() && resolved[i] == reported[k];
        assert(same_discard(resolved[i], collected[i]));
    }
}

/// Whether a name stands in a text before any of its type arguments.
pub open spec fn is_named_first(text: Seq<char>, name: Seq<char>) -> bool {
    exists|i: int|
        0 <= i && #[trigger] stands_at(text, name, i) && forall|j: int|
            0 <= j < i + name.len() ==> #[trigger] text[j] != '<'
}

proof fn lemma_leading(text: Seq<char>)
    ensures
        leading(text).len() <= text.len(),
        leading(text) == text.take(leading(text).len() as int),
        forall|j: int| 0 <= j < leading(text).len() ==> #[trigger] text[j] != '<',
        leading(text).len() < text.len() ==> text[leading(text).len() as int] == '<',
{
    lemma_bracket(text, 0);
}

proof fn lemma_bracket(text: Seq<char>, i: int)
    requires
        0 <= i <= text.len(),
    ensures
        ({
            let place = super::naming::first_place(text, '<', i);
            &&& i <= place <= text.len()
            &&& forall|j: int| i <= j < place ==> #[trigger] text[j] != '<'
            &&& place < text.len() ==> text[place] == '<'
        }),
    decreases text.len() - i,
{
    if i < text.len() && text[i] != '<' {
        lemma_bracket(text, i + 1);
    }
}

proof fn lemma_named_first(text: Seq<char>, name: Seq<char>)
    ensures
        holds_text(leading(text), name) <==> is_named_first(text, name),
{
    lemma_leading(text);
    let front = leading(text);
    if holds_text(front, name) {
        let i = choose|i: int| 0 <= i && #[trigger] stands_at(front, name, i);
        assert(text.subrange(i, i + name.len()) =~= front.subrange(i, i + name.len()));
        assert(stands_at(text, name, i));
    }
    if is_named_first(text, name) {
        let i = choose|i: int|
            0 <= i && #[trigger] stands_at(text, name, i) && forall|j: int|
                0 <= j < i + name.len() ==> #[trigger] text[j] != '<';
        if front.len() < i + name.len() {
            assert(text[front.len() as int] != '<');
        }
        assert(text.subrange(i, i + name.len()) =~= front.subrange(i, i + name.len()));
        assert(stands_at(front, name, i));
    }
}

/// A callable can report a failure where its return type, arguments aside, names a
/// type that is one; it has room for an absence where it names none of those but one
/// that is optional. Any other return type, or none, says that it cannot where
/// failures are declared, and nothing where they are not.
pub proof fn law_return_types_say_what_can_be_reported(
    declared: Option<Seq<char>>,
    types: HandlingView,
)
    ensures
        ({
            let fallible = declared matches Some(text) && exists|i: int|
                0 <= i < types.fallible_types.len() && is_named_first(
                    text,
                    #[trigger] types.fallible_types[i],
                );
            let optional = declared matches Some(text) && exists|i: int|
                0 <= i < types.optional_types.len() && is_named_first(
                    text,
                    #[trigger] types.optional_types[i],
                );
            let verdict = containment(declared, types);
            &&& fallible ==> verdict == Containment::Fallible
            &&& optional && !fallible ==> verdict == Containment::Optional
            &&& !fallible && !optional && types.propagation == Propagation::Declared ==> verdict
                == Containment::Infallible
            &&& !fallible && !optional && types.propagation == Propagation::Unchecked ==> verdict
                == Containment::Fallible
        }),
{
    if let Some(text) = declared {
        assert forall|i: int| 0 <= i < types.fallible_types.len() implies holds_text(
            leading(text),
            #[trigger] types.fallible_types[i],
        ) == is_named_first(text, types.fallible_types[i]) by {
            lemma_named_first(text, types.fallible_types[i]);
        }
        assert forall|i: int| 0 <= i < types.optional_types.len() implies holds_text(
            leading(text),
            #[trigger] types.optional_types[i],
        ) == is_named_first(text, types.optional_types[i]) by {
            lemma_named_first(text, types.optional_types[i]);
        }
    }
}

/// A text with its words one space apart keeps its words: what is not white space
/// stays, in order, and no white space stands first, last or twice in a row but the
/// space between two words.
pub proof fn law_squeezing_keeps_words(text: Seq<char>)
    ensures
        unspaced(squeezed(text)) == unspaced(text),
        squeezed(text).len() > 0 ==> !is_blank(squeezed(text)[0]) && !is_blank(
            squeezed(text).last(),
        ),
        forall|i: int|
            0 < i < squeezed(text).len() && is_blank(#[trigger] squeezed(text)[i])
                ==> squeezed(text)[i] == ' ' && !is_blank(squeezed(text)[i - 1]),
    decreases text.len(),
{
    if text.len() > 0 {
        let shorter = text.drop_last();
        law_squeezing_keeps_words(shorter);
        let before = squeezed(shorter);
        let c = text.last();
        let all = squeezed(text);
        if !is_blank(c) {
            if before.len() > 0 && is_blank(text[text.len() - 2]) {
                let spaced = before.push(' ');
                assert(spaced.drop_last() =~= before);
                assert(spaced.push(c).drop_last() =~= spaced);
                assert(unspaced(spaced) == unspaced(before));
                assert forall|i: int| 0 < i < all.len() && is_blank(#[trigger] all[i]) implies all[i]
                    == ' ' && !is_blank(all[i - 1]) by {
                    if i < before.len() {
                        assert(all[i] == before[i]);
                    }
                }
            } else {
                assert(before.push(c).drop_last() =~= before);
                assert forall|i: int| 0 < i < all.len() && is_blank(#[trigger] all[i]) implies all[i]
                    == ' ' && !is_blank(all[i - 1]) by {
                    assert(all[i] == before[i]);
                }
            }
        }
    }
}

/// What is told of an expression fits on a line: it is the expression with its words
/// one space apart, cut off after 77 characters where it has more than 80.
pub proof fn law_told_expressions_are_short(text: Seq<char>)
    ensures
        shortened(text).len() <= 80,
        squeezed(text).len() <= 80 ==> shortened(text) == squeezed(text),
        squeezed(text).len() > 80 ==> shortened(text).len() == 80 && shortened(text).take(77)
            == squeezed(text).take(77) && shortened(text).skip(77) == "..."@,
{
    reveal_strlit("...");
    if squeezed(text).len() > 80 {
        assert(shortened(text).take(77) =~= squeezed(text).take(77));
        assert(shortened(text).skip(77) =~= "..."@);
    }
}

} // verus!
