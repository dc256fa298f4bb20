//! What matching keeps: bindings only grow, roles stay one to one, and a form
//! is an instance of itself.

use crate::normalize::form::{lemma_part_smaller, Form, PatternKind, PatternTerm, Shape, Term};
use crate::normalize::matching::{
    any_matched, arm_fitted, arm_matched, arm_tried, arms_matched, body_matched,
    fused_matched, headed, hole_bound, hole_of, is_applied_hole, is_taken, local_bound, local_of,
    matched, matched_between, pattern_matched, patterns_matched, structural, trail, Binding,
};
use crate::normalize::names::leaf;
use crate::normalize::search::{performances, performs, unbound};
use crate::normalize::shaped::{all_shaped, is_shaped, lemma_form_shaped};
use vstd::prelude::*;

verus! {

/// Whether each role stands for one thing: a hole for one term, and a local of
/// the pattern for one local of the subject that no other stands for.
pub open spec fn is_one_to_one(binding: Binding) -> bool {
    &&& forall|i: int, j: int|
        0 <= i < j < binding.locals.len() ==> (#[trigger] binding.locals[i]).0
            != (#[trigger] binding.locals[j]).0 && binding.locals[i].1 != binding.locals[j].1
    &&& forall|i: int, j: int|
        0 <= i < j < binding.holes.len() ==> (#[trigger] binding.holes[i]).0
            != (#[trigger] binding.holes[j]).0
}

/// Whether bindings hold all that others hold, in the same order, and perhaps
/// more.
pub open spec fn extends(binding: Binding, next: Binding) -> bool {
    &&& next.fused == binding.fused
    &&& binding.locals.len() <= next.locals.len()
    &&& forall|i: int|
        0 <= i < binding.locals.len() ==> #[trigger] next.locals[i] == binding.locals[i]
    &&& binding.holes.len() <= next.holes.len()
    &&& forall|i: int|
        0 <= i < binding.holes.len() ==> #[trigger] next.holes[i] == binding.holes[i]
}

/// Whether bindings extend others and keep their roles one to one.
#[verifier::opaque]
pub open spec fn keeps(binding: Binding, next: Binding) -> bool {
    extends(binding, next) && (is_one_to_one(binding) ==> is_one_to_one(next))
}

pub(crate) proof fn lemma_keeps_itself(binding: Binding)
    ensures
        keeps(binding, binding),
{
    reveal(keeps);
}

pub(crate) proof fn lemma_keeps_on(first: Binding, second: Binding, third: Binding)
    requires
        keeps(first, second),
        keeps(second, third),
    ensures
        keeps(first, third),
{
    reveal(keeps);
    assert forall|i: int| 0 <= i < first.locals.len() implies #[trigger] third.locals[i]
        == first.locals[i] by {
        assert(second.locals[i] == first.locals[i]);
    }
    assert forall|i: int| 0 <= i < first.holes.len() implies #[trigger] third.holes[i]
        == first.holes[i] by {
        assert(second.holes[i] == first.holes[i]);
    }
}

/// A hole that is found stands in the list; one that is not, does not.
pub(crate) proof fn lemma_hole_of(holes: Seq<(u32, Term)>, index: u32, i: int)
    requires
        0 <= i,
    ensures
        match hole_of(holes, index, i) {
            Some(term) => exists|j: int|
                i <= j < holes.len() && (#[trigger] holes[j]) == (index, term),
            None => forall|j: int| i <= j < holes.len() ==> (#[trigger] holes[j]).0 != index,
        },
    decreases holes.len() - i,
{
    if i < holes.len() && holes[i].0 != index {
        lemma_hole_of(holes, index, i + 1);
    } else if i < holes.len() {
        assert(holes[i] == (index, holes[i].1));
    }
}

/// A local that is found stands in the list; one that is not, does not.
pub(crate) proof fn lemma_local_of(locals: Seq<(u32, u32)>, pattern: u32, i: int)
    requires
        0 <= i,
    ensures
        match local_of(locals, pattern, i) {
            Some(subject) => exists|j: int|
                i <= j < locals.len() && (#[trigger] locals[j]) == (pattern, subject),
            None => forall|j: int| i <= j < locals.len() ==> (#[trigger] locals[j]).0 != pattern,
        },
    decreases locals.len() - i,
{
    if i < locals.len() && locals[i].0 != pattern {
        lemma_local_of(locals, pattern, i + 1);
    } else if i < locals.len() {
        assert(locals[i] == (pattern, locals[i].1));
    }
}

pub(crate) proof fn lemma_hole_kept(binding: Binding, index: u32, subject: Term)
    ensures
        keeps(binding, hole_bound(binding, index, subject).1),
{
    reveal(keeps);
    lemma_hole_of(binding.holes, index, 0);
}

pub(crate) proof fn lemma_local_kept(binding: Binding, pattern: u32, subject: u32)
    ensures
        keeps(binding, local_bound(binding, pattern, subject).1),
{
    reveal(keeps);
    lemma_local_of(binding.locals, pattern, 0);
}

pub(crate) proof fn lemma_pattern_kept(binding: Binding, subject: PatternTerm, pattern: PatternTerm)
    ensures
        keeps(binding, pattern_matched(binding, subject, pattern).1),
    decreases pattern, 0nat,
{
    lemma_keeps_itself(binding);
    match (subject.kind, pattern.kind) {
        (PatternKind::Binding(subject), PatternKind::Binding(pattern)) => {
            lemma_local_kept(binding, pattern, subject);
        },
        _ => {
            assert(decreases_to!(pattern => pattern.parts));
            lemma_patterns_kept(binding, subject.parts, pattern.parts, 0);
        },
    }
}

pub(crate) proof fn lemma_patterns_kept(
    binding: Binding,
    subjects: Seq<PatternTerm>,
    patterns: Seq<PatternTerm>,
    i: int,
)
    ensures
        keeps(binding, patterns_matched(binding, subjects, patterns, i).1),
    decreases patterns, patterns.len() - i,
{
    lemma_keeps_itself(binding);
    if 0 <= i < patterns.len() {
        assert(decreases_to!(patterns => patterns[i]));
        let (fits, next) = pattern_matched(binding, subjects[i], patterns[i]);
        lemma_pattern_kept(binding, subjects[i], patterns[i]);
        if fits {
            lemma_patterns_kept(next, subjects, patterns, i + 1);
            lemma_keeps_on(
                binding,
                next,
                patterns_matched(next, subjects, patterns, i + 1).1,
            );
        }
    }
}

pub(crate) proof fn lemma_arm_kept(binding: Binding, subject: PatternTerm, pattern: PatternTerm)
    ensures
        keeps(binding, arm_matched(binding, subject, pattern).1),
{
    lemma_keeps_itself(binding);
    lemma_pattern_kept(binding, subject, pattern);
}

pub(crate) proof fn lemma_matched_kept(binding: Binding, subject: Term, pattern: Term)
    ensures
        keeps(binding, matched(binding, subject, pattern).1),
    decreases pattern, 3nat, 0nat, 0nat,
{
    lemma_keeps_itself(binding);
    match pattern.shape {
        Shape::Free(index) => {
            lemma_hole_kept(binding, index, subject);
        },
        _ => {
            lemma_structural_kept(binding, subject, pattern);
            if is_applied_hole(pattern) {
                if let Shape::Free(hole) = pattern.parts[0].shape {
                    lemma_hole_kept(binding, hole, subject);
                }
            }
        },
    }
}

pub(crate) proof fn lemma_headed_kept(
    binding: Binding,
    subjects: Seq<Term>,
    patterns: Seq<Term>,
    head: nat,
)
    ensures
        keeps(binding, headed(binding, subjects, patterns, head).1),
    decreases patterns, 1nat, 0nat, 0nat,
{
    lemma_keeps_itself(binding);
    if subjects.len() >= head && patterns.len() >= head {
        let next = matched_between(binding, subjects, patterns, 0, head as int).1;
        lemma_between_kept(binding, subjects, patterns, 0, head as int);
        lemma_between_kept(next, subjects, patterns, head as int, patterns.len() as int);
        lemma_keeps_on(
            binding,
            next,
            matched_between(next, subjects, patterns, head as int, patterns.len() as int).1,
        );
    }
}

pub(crate) proof fn lemma_between_kept(
    binding: Binding,
    subjects: Seq<Term>,
    patterns: Seq<Term>,
    i: int,
    end: int,
)
    ensures
        keeps(binding, matched_between(binding, subjects, patterns, i, end).1),
    decreases patterns, 0nat, end - i, 0nat,
{
    lemma_keeps_itself(binding);
    if 0 <= i < end && i < patterns.len() {
        assert(decreases_to!(patterns => patterns[i]));
        let (fits, next) = matched(binding, subjects[i], patterns[i]);
        lemma_matched_kept(binding, subjects[i], patterns[i]);
        if fits {
            lemma_between_kept(next, subjects, patterns, i + 1, end);
            lemma_keeps_on(
                binding,
                next,
                matched_between(next, subjects, patterns, i + 1, end).1,
            );
        }
    }
}

pub(crate) proof fn lemma_body_kept(binding: Binding, subject: Term, pattern: Term)
    ensures
        keeps(binding, body_matched(binding, subject, pattern).1),
    decreases pattern, 6nat, 0nat, 0nat,
{
    let (fits, next) = matched(binding, subject, pattern);
    lemma_matched_kept(binding, subject, pattern);
    if !fits {
        lemma_fused_kept(next, subject, pattern);
        lemma_keeps_on(binding, next, fused_matched(next, subject, pattern).1);
    }
}

pub(crate) proof fn lemma_fused_kept(binding: Binding, subject: Term, pattern: Term)
    ensures
        keeps(binding, fused_matched(binding, subject, pattern).1),
    decreases pattern, 5nat, 0nat, 0nat,
{
    lemma_keeps_itself(binding);
    lemma_any_kept(binding, subject.parts, pattern, 0);
}

pub(crate) proof fn lemma_any_kept(binding: Binding, steps: Seq<Term>, pattern: Term, i: int)
    ensures
        keeps(binding, any_matched(binding, steps, pattern, i).1),
    decreases pattern, 4nat, steps.len() - i, 0nat,
{
    lemma_keeps_itself(binding);
    if 0 <= i < steps.len() {
        let (fits, next) = matched(binding, steps[i], pattern);
        lemma_matched_kept(binding, steps[i], pattern);
        if !fits {
            lemma_any_kept(next, steps, pattern, i + 1);
            lemma_keeps_on(binding, next, any_matched(next, steps, pattern, i + 1).1);
        }
    }
}

pub(crate) proof fn lemma_arms_kept(
    binding: Binding,
    subject: Term,
    subject_patterns: Seq<PatternTerm>,
    pattern: Term,
    patterns: Seq<PatternTerm>,
    k: int,
    taken: Seq<int>,
)
    ensures
        keeps(
            binding,
            arms_matched(binding, subject, subject_patterns, pattern, patterns, k, taken).1,
        ),
    decreases pattern, 1nat, patterns.len() - k, 2 * subject_patterns.len() + 2,
{
    lemma_keeps_itself(binding);
    if 0 <= k < patterns.len() && k + 1 < pattern.parts.len() {
        lemma_tried_kept(binding, subject, subject_patterns, pattern, patterns, k, taken, 0);
    }
}

pub(crate) proof fn lemma_tried_kept(
    binding: Binding,
    subject: Term,
    subject_patterns: Seq<PatternTerm>,
    pattern: Term,
    patterns: Seq<PatternTerm>,
    k: int,
    taken: Seq<int>,
    i: int,
)
    ensures
        keeps(
            binding,
            arm_tried(binding, subject, subject_patterns, pattern, patterns, k, taken, i).1,
        ),
    decreases pattern, 1nat, patterns.len() - k, 2 * (subject_patterns.len() - i) + 1,
{
    lemma_keeps_itself(binding);
    if 0 <= i < subject_patterns.len() {
        lemma_fitted_kept(binding, subject, subject_patterns, pattern, patterns, k, taken, i);
        lemma_tried_kept(binding, subject, subject_patterns, pattern, patterns, k, taken, i + 1);
    }
}

proof fn lemma_fitted_kept(
    binding: Binding,
    subject: Term,
    subject_patterns: Seq<PatternTerm>,
    pattern: Term,
    patterns: Seq<PatternTerm>,
    k: int,
    taken: Seq<int>,
    i: int,
)
    ensures
        arm_fitted(binding, subject, subject_patterns, pattern, patterns, k, taken, i) matches Some(
            next,
        ) ==> keeps(binding, next),
    decreases pattern, 1nat, patterns.len() - k, 2 * (subject_patterns.len() - i),
{
    if 0 <= i < subject_patterns.len() && i + 1 < subject.parts.len() && 0 <= k < patterns.len() && k
        + 1 < pattern.parts.len() {
        lemma_part_smaller(pattern, k + 1);
        let body = subject.parts[i + 1];
        let wanted = pattern.parts[k + 1];
        let first = arm_matched(binding, subject_patterns[i], patterns[k]).1;
        let second = matched(first, body, wanted).1;
        let third = arms_matched(
            second,
            subject,
            subject_patterns,
            pattern,
            patterns,
            k + 1,
            taken.push(i),
        ).1;
        lemma_arm_kept(binding, subject_patterns[i], patterns[k]);
        lemma_matched_kept(first, body, wanted);
        lemma_arms_kept(
            second,
            subject,
            subject_patterns,
            pattern,
            patterns,
            k + 1,
            taken.push(i),
        );
        lemma_keeps_on(binding, first, second);
        lemma_keeps_on(binding, second, third);
    }
}

/// What the walked sequence, the names and the body of a walk bind, in turn.
proof fn lemma_walk_kept(
    binding: Binding,
    subject: Term,
    pattern: Term,
    subject_items: Seq<PatternTerm>,
    pattern_items: Seq<PatternTerm>,
)
    requires
        subject.parts.len() == 2,
        pattern.parts.len() == 2,
    ensures
        ({
            let first = matched(binding, subject.parts[0], pattern.parts[0]).1;
            let second = patterns_matched(first, subject_items, pattern_items, 0).1;
            &&& keeps(binding, first)
            &&& keeps(binding, second)
            &&& keeps(binding, body_matched(second, subject.parts[1], pattern.parts[1]).1)
        }),
    decreases pattern, 1nat, 0nat, 0nat,
{
    lemma_part_smaller(pattern, 0);
    lemma_part_smaller(pattern, 1);
    let first = matched(binding, subject.parts[0], pattern.parts[0]).1;
    let second = patterns_matched(first, subject_items, pattern_items, 0).1;
    lemma_matched_kept(binding, subject.parts[0], pattern.parts[0]);
    lemma_patterns_kept(first, subject_items, pattern_items, 0);
    lemma_body_kept(second, subject.parts[1], pattern.parts[1]);
    lemma_keeps_on(binding, first, second);
    lemma_keeps_on(
        binding,
        second,
        body_matched(second, subject.parts[1], pattern.parts[1]).1,
    );
}

/// One pattern alone is matched as a list of one.
pub(crate) proof fn lemma_one_pattern(binding: Binding, subject: PatternTerm, pattern: PatternTerm)
    ensures
        patterns_matched(binding, seq![subject], seq![pattern], 0) == pattern_matched(
            binding,
            subject,
            pattern,
        ),
{
    reveal_with_fuel(patterns_matched, 2);
    assert(seq![subject][0] == subject);
    assert(seq![pattern][0] == pattern);
}

#[verifier::rlimit(40)]
#[verifier::spinoff_prover]
proof fn lemma_structural_kept(binding: Binding, subject: Term, pattern: Term)
    ensures
        keeps(binding, structural(binding, subject, pattern).1),
    decreases pattern, 2nat, 0nat, 0nat,
{
    lemma_keeps_itself(binding);
    assert(decreases_to!(pattern => pattern.parts));
    match (subject.shape, pattern.shape) {
        (Shape::Local(subject), Shape::Local(pattern)) => {
            lemma_local_kept(binding, pattern, subject);
        },
        (Shape::Traverse(subject_item, _), Shape::Traverse(pattern_item, _))
        | (Shape::Transform(subject_item), Shape::Transform(pattern_item))
        | (Shape::Sift(subject_item), Shape::Sift(pattern_item))
        | (Shape::Retain(subject_item), Shape::Retain(pattern_item)) => {
            if subject.parts.len() == 2 && pattern.parts.len() == 2 {
                let first = matched(binding, subject.parts[0], pattern.parts[0]).1;
                lemma_one_pattern(first, subject_item, pattern_item);
                lemma_walk_kept(
                    binding,
                    subject,
                    pattern,
                    seq![subject_item],
                    seq![pattern_item],
                );
            }
        },
        (
            Shape::Pairwise(subject_left, subject_right, _),
            Shape::Pairwise(pattern_left, pattern_right, _),
        ) => {
            if subject.parts.len() == 2 && pattern.parts.len() == 2 {
                lemma_walk_kept(
                    binding,
                    subject,
                    pattern,
                    seq![subject_left, subject_right],
                    seq![pattern_left, pattern_right],
                );
            }
        },
        (
            Shape::Accumulate(subject_accumulator, subject_item),
            Shape::Accumulate(pattern_accumulator, pattern_item),
        ) => {
            if subject.parts.len() == 3 && pattern.parts.len() == 3 {
                lemma_part_smaller(pattern, 2);
                let first = matched_between(binding, subject.parts, pattern.parts, 0, 2).1;
                let second = patterns_matched(
                    first,
                    seq![subject_accumulator, subject_item],
                    seq![pattern_accumulator, pattern_item],
                    0,
                ).1;
                lemma_between_kept(binding, subject.parts, pattern.parts, 0, 2);
                lemma_patterns_kept(
                    first,
                    seq![subject_accumulator, subject_item],
                    seq![pattern_accumulator, pattern_item],
                    0,
                );
                lemma_matched_kept(second, subject.parts[2], pattern.parts[2]);
                lemma_keeps_on(binding, first, second);
                lemma_keeps_on(
                    binding,
                    second,
                    matched(second, subject.parts[2], pattern.parts[2]).1,
                );
            }
        },
        (Shape::Lambda(subject_parameters), Shape::Lambda(pattern_parameters)) => {
            let first = patterns_matched(binding, subject_parameters, pattern_parameters, 0).1;
            let end = pattern.parts.len() as int;
            lemma_patterns_kept(binding, subject_parameters, pattern_parameters, 0);
            lemma_between_kept(first, subject.parts, pattern.parts, 0, end);
            lemma_keeps_on(
                binding,
                first,
                matched_between(first, subject.parts, pattern.parts, 0, end).1,
            );
        },
        (Shape::Let(subject_binding), Shape::Let(pattern_binding)) => {
            let end = pattern.parts.len() as int;
            let first = matched_between(binding, subject.parts, pattern.parts, 0, end).1;
            lemma_between_kept(binding, subject.parts, pattern.parts, 0, end);
            lemma_pattern_kept(first, subject_binding, pattern_binding);
            lemma_keeps_on(
                binding,
                first,
                pattern_matched(first, subject_binding, pattern_binding).1,
            );
        },
        (Shape::Branch, Shape::Branch) => {
            lemma_headed_kept(binding, subject.parts, pattern.parts, 2);
        },
        (Shape::Method(_), Shape::Method(_)) => {
            lemma_headed_kept(binding, subject.parts, pattern.parts, 1);
        },
        (Shape::Call, Shape::Call) => {
            lemma_headed_kept(binding, subject.parts, pattern.parts, 1);
        },
        (Shape::Select(subject_patterns), Shape::Select(patterns)) => {
            if subject.parts.len() > 0 && pattern.parts.len() > 0 {
                lemma_part_smaller(pattern, 0);
                let first = matched(binding, subject.parts[0], pattern.parts[0]).1;
                lemma_matched_kept(binding, subject.parts[0], pattern.parts[0]);
                lemma_arms_kept(
                    first,
                    subject,
                    subject_patterns,
                    pattern,
                    patterns,
                    0,
                    Seq::empty(),
                );
                lemma_keeps_on(
                    binding,
                    first,
                    arms_matched(
                        first,
                        subject,
                        subject_patterns,
                        pattern,
                        patterns,
                        0,
                        Seq::empty(),
                    ).1,
                );
            }
        },
        _ => {
            lemma_between_kept(
                binding,
                subject.parts,
                pattern.parts,
                0,
                pattern.parts.len() as int,
            );
        },
    }
}

/// Matching only adds to what is bound, and keeps roles one to one: a role used
/// twice means the same thing twice, and no two locals stand for one.
pub proof fn law_matching_keeps_roles_one_to_one(binding: Binding, subject: Term, pattern: Term)
    requires
        is_one_to_one(binding),
    ensures
        extends(binding, matched(binding, subject, pattern).1),
        is_one_to_one(matched(binding, subject, pattern).1),
{
    lemma_matched_kept(binding, subject, pattern);
    reveal(keeps);
}

/// Whether bindings take every role to itself.
pub open spec fn is_identity(binding: Binding) -> bool {
    &&& forall|i: int|
        0 <= i < binding.locals.len() ==> (#[trigger] binding.locals[i]).0 == binding.locals[i].1
    &&& forall|i: int|
        0 <= i < binding.holes.len() ==> (#[trigger] binding.holes[i]).1 == leaf(
            Shape::Free(binding.holes[i].0),
        )
}

/// What a name matched with itself leaves bound.
proof fn lemma_local_itself(binding: Binding, name: u32)
    requires
        is_identity(binding),
    ensures
        local_bound(binding, name, name).0,
        is_identity(local_bound(binding, name, name).1),
{
    lemma_local_of(binding.locals, name, 0);
    if local_of(binding.locals, name, 0) is None && is_taken(binding.locals, name) {
        let i = choose|i: int|
            0 <= i < binding.locals.len() && (#[trigger] binding.locals[i]).1 == name;
        assert(binding.locals[i].0 == name);
    }
}

/// What a hole matched with itself leaves bound.
proof fn lemma_hole_itself(binding: Binding, index: u32)
    requires
        is_identity(binding),
    ensures
        hole_bound(binding, index, leaf(Shape::Free(index))).0,
        is_identity(hole_bound(binding, index, leaf(Shape::Free(index))).1),
{
    lemma_hole_of(binding.holes, index, 0);
}

proof fn lemma_pattern_itself(binding: Binding, pattern: PatternTerm)
    requires
        is_identity(binding),
    ensures
        pattern_matched(binding, pattern, pattern).0,
        is_identity(pattern_matched(binding, pattern, pattern).1),
    decreases pattern, 0nat,
{
    match pattern.kind {
        PatternKind::Binding(name) => {
            lemma_local_itself(binding, name);
        },
        _ => {
            assert(decreases_to!(pattern => pattern.parts));
            lemma_patterns_themselves(binding, pattern.parts, 0);
        },
    }
}

proof fn lemma_patterns_themselves(binding: Binding, patterns: Seq<PatternTerm>, i: int)
    requires
        is_identity(binding),
    ensures
        patterns_matched(binding, patterns, patterns, i).0,
        is_identity(patterns_matched(binding, patterns, patterns, i).1),
    decreases patterns, patterns.len() - i,
{
    if 0 <= i < patterns.len() {
        assert(decreases_to!(patterns => patterns[i]));
        lemma_pattern_itself(binding, patterns[i]);
        lemma_patterns_themselves(
            pattern_matched(binding, patterns[i], patterns[i]).1,
            patterns,
            i + 1,
        );
    }
}

/// A term matched with itself fits, and takes every role to itself.
proof fn lemma_matches_itself(binding: Binding, term: Term)
    requires
        is_identity(binding),
        is_shaped(term),
    ensures
        matched(binding, term, term).0,
        is_identity(matched(binding, term, term).1),
    decreases term, 3nat, 0nat, 0nat,
{
    match term.shape {
        Shape::Free(index) => {
            assert(term == leaf(Shape::Free(index)));
            lemma_hole_itself(binding, index);
        },
        _ => {
            lemma_structural_itself(binding, term);
        },
    }
}

proof fn lemma_between_themselves(binding: Binding, terms: Seq<Term>, i: int, end: int)
    requires
        is_identity(binding),
        all_shaped(terms),
    ensures
        matched_between(binding, terms, terms, i, end).0,
        is_identity(matched_between(binding, terms, terms, i, end).1),
    decreases terms, 0nat, end - i, 0nat,
{
    if 0 <= i < end && i < terms.len() {
        assert(decreases_to!(terms => terms[i]));
        lemma_matches_itself(binding, terms[i]);
        lemma_between_themselves(matched(binding, terms[i], terms[i]).1, terms, i + 1, end);
    }
}

proof fn lemma_headed_itself(binding: Binding, terms: Seq<Term>, head: nat)
    requires
        is_identity(binding),
        all_shaped(terms),
        head <= terms.len(),
    ensures
        headed(binding, terms, terms, head).0,
        is_identity(headed(binding, terms, terms, head).1),
    decreases terms, 1nat, 0nat, 0nat,
{
    let next = matched_between(binding, terms, terms, 0, head as int).1;
    lemma_between_themselves(binding, terms, 0, head as int);
    lemma_between_themselves(next, terms, head as int, terms.len() as int);
}

/// The walked sequence, the names and the body of a walk match themselves, in
/// turn.
proof fn lemma_walk_itself(binding: Binding, term: Term, items: Seq<PatternTerm>)
    requires
        is_identity(binding),
        is_shaped(term),
        term.parts.len() == 2,
    ensures
        ({
            let (walked, first) = matched(binding, term.parts[0], term.parts[0]);
            let (named, second) = patterns_matched(first, items, items, 0);
            let (fits, third) = body_matched(second, term.parts[1], term.parts[1]);
            walked && named && fits && is_identity(third)
        }),
    decreases term, 1nat, 0nat, 0nat,
{
    lemma_part_smaller(term, 0);
    lemma_part_smaller(term, 1);
    let first = matched(binding, term.parts[0], term.parts[0]).1;
    let second = patterns_matched(first, items, items, 0).1;
    lemma_matches_itself(binding, term.parts[0]);
    lemma_patterns_themselves(first, items, 0);
    lemma_matches_itself(second, term.parts[1]);
}

/// The places before one.
spec fn before(k: int) -> Seq<int> {
    Seq::new(k as nat, |i: int| i)
}

proof fn lemma_arms_themselves(
    binding: Binding,
    term: Term,
    patterns: Seq<PatternTerm>,
    k: int,
)
    requires
        is_identity(binding),
        is_shaped(term),
        term.parts.len() == patterns.len() + 1,
        0 <= k,
    ensures
        arms_matched(binding, term, patterns, term, patterns, k, before(k)).0,
        is_identity(arms_matched(binding, term, patterns, term, patterns, k, before(k)).1),
    decreases term, 1nat, patterns.len() - k, patterns.len() + 2,
{
    if k < patterns.len() {
        lemma_tried_itself(binding, term, patterns, k, 0);
    }
}

proof fn lemma_tried_itself(
    binding: Binding,
    term: Term,
    patterns: Seq<PatternTerm>,
    k: int,
    i: int,
)
    requires
        is_identity(binding),
        is_shaped(term),
        term.parts.len() == patterns.len() + 1,
        0 <= i <= k < patterns.len(),
    ensures
        arm_tried(binding, term, patterns, term, patterns, k, before(k), i).0,
        is_identity(arm_tried(binding, term, patterns, term, patterns, k, before(k), i).1),
    decreases term, 1nat, patterns.len() - k, patterns.len() + 1 - i,
{
    if i < k {
        assert(before(k)[i] == i);
        assert(arm_fitted(binding, term, patterns, term, patterns, k, before(k), i) is None);
        lemma_tried_itself(binding, term, patterns, k, i + 1);
    } else {
        lemma_part_smaller(term, k + 1);
        let body = term.parts[k + 1];
        assert(is_shaped(body));
        let first = arm_matched(binding, patterns[k], patterns[k]).1;
        lemma_pattern_itself(binding, patterns[k]);
        let second = matched(first, body, body).1;
        lemma_matches_itself(first, body);
        lemma_arms_themselves(second, term, patterns, k + 1);
        assert(before(k).push(k) =~= before(k + 1));
        assert(!before(k).contains(k));
        assert(arm_fitted(binding, term, patterns, term, patterns, k, before(k), k) is Some);
    }
}

#[verifier::rlimit(40)]
#[verifier::spinoff_prover]
proof fn lemma_structural_itself(binding: Binding, term: Term)
    requires
        is_identity(binding),
        is_shaped(term),
        term.shape !is Free,
    ensures
        structural(binding, term, term).0,
        is_identity(structural(binding, term, term).1),
    decreases term, 2nat, 0nat, 0nat,
{
    assert(decreases_to!(term => term.parts));
    let end = term.parts.len() as int;
    match term.shape {
        Shape::Local(name) => {
            lemma_local_itself(binding, name);
        },
        Shape::Traverse(item, _)
        | Shape::Transform(item)
        | Shape::Sift(item)
        | Shape::Retain(item) => {
            lemma_one_pattern(matched(binding, term.parts[0], term.parts[0]).1, item, item);
            lemma_walk_itself(binding, term, seq![item]);
        },
        Shape::Pairwise(left, right, _) => {
            lemma_walk_itself(binding, term, seq![left, right]);
        },
        Shape::Accumulate(accumulator, item) => {
            lemma_part_smaller(term, 2);
            assert(is_shaped(term.parts[2]));
            let first = matched_between(binding, term.parts, term.parts, 0, 2).1;
            let names = seq![accumulator, item];
            lemma_between_themselves(binding, term.parts, 0, 2);
            lemma_patterns_themselves(first, names, 0);
            lemma_matches_itself(patterns_matched(first, names, names, 0).1, term.parts[2]);
        },
        Shape::Lambda(parameters) => {
            lemma_patterns_themselves(binding, parameters, 0);
            lemma_between_themselves(
                patterns_matched(binding, parameters, parameters, 0).1,
                term.parts,
                0,
                end,
            );
        },
        Shape::Let(pattern) => {
            lemma_between_themselves(binding, term.parts, 0, end);
            lemma_pattern_itself(
                matched_between(binding, term.parts, term.parts, 0, end).1,
                pattern,
            );
        },
        Shape::Branch => {
            lemma_headed_itself(binding, term.parts, 2);
        },
        Shape::Method(_) => {
            lemma_headed_itself(binding, term.parts, 1);
        },
        Shape::Call => {
            lemma_headed_itself(binding, term.parts, 1);
        },
        Shape::Select(patterns) => {
            lemma_part_smaller(term, 0);
            assert(is_shaped(term.parts[0]));
            lemma_matches_itself(binding, term.parts[0]);
            assert(before(0) =~= Seq::empty());
            lemma_arms_themselves(
                matched(binding, term.parts[0], term.parts[0]).1,
                term,
                patterns,
                0,
            );
        },
        _ => {
            lemma_between_themselves(binding, term.parts, 0, end);
        },
    }
}

/// The steps of a block are found among themselves, each at its own place.
proof fn lemma_trail_itself(binding: Binding, steps: Seq<Term>, k: int)
    requires
        is_identity(binding),
        all_shaped(steps),
        0 <= k,
    ensures
        trail(binding, steps, steps, k, k, k) is Some,
    decreases steps.len() - k,
{
    if k < steps.len() {
        lemma_matches_itself(binding, steps[k]);
        lemma_trail_itself(matched(binding, steps[k], steps[k]).1, steps, k + 1);
    }
}

/// Every form is an instance of itself and performs itself, whatever its shape.
pub proof fn law_a_form_matches_itself(form: Form, fused: bool)
    ensures
        matched(
            Binding { holes: Seq::empty(), locals: Seq::empty(), fused },
            form@,
            form@,
        ).0,
        performs(form@, form@),
        performances(form@, form@).len() > 0,
{
    lemma_form_shaped(form);
    lemma_matches_itself(
        Binding { holes: Seq::empty(), locals: Seq::empty(), fused },
        form@,
    );
    lemma_matches_itself(unbound(), form@);
    lemma_trail_itself(unbound(), form@.parts, 0);
}

} // verus!
