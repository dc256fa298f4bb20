//! What it is to be an instance of a pattern, said without matching: each hole
//! stands for one term throughout and each local for one local of the subject.
//! Matching finds such a reading, and only where there is one.

use crate::lists::joined;
use crate::normalize::form::{
    lemma_part_smaller, Direction, Form, PatternKind, PatternTerm, Shape, Term,
};
use crate::normalize::matching::{
    any_matched, arm_fitted, arm_matched, arm_tried, arms_matched, body_matched, headed,
    hole_bound, hole_of, interrupts, is_applied_hole, is_taken, local_bound, local_of, matched,
    matched_between, pattern_matched, patterns_matched, structural, trail, Binding,
};
use crate::normalize::measure::mentions_local;
use crate::normalize::search::{
    each_performances, lemma_trail_places, performances, performs, unbound,
};
use crate::normalize::shaped::{all_shaped, is_shaped, lemma_form_shaped};
use crate::normalize::unifying::{
    is_one_to_one, keeps, law_matching_keeps_roles_one_to_one, lemma_arm_kept, lemma_arms_kept,
    lemma_between_kept, lemma_body_kept, lemma_hole_of, lemma_keeps_itself, lemma_keeps_on,
    lemma_local_of, lemma_matched_kept, lemma_one_pattern, lemma_pattern_kept,
    lemma_patterns_kept,
};
use vstd::prelude::*;

verus! {

/// What the roles of a pattern stand for in a subject.
pub struct Roleplay {
    pub holes: Map<u32, Term>,
    pub locals: Map<u32, u32>,
}

/// Whether no two locals of the pattern stand for one local of the subject.
pub open spec fn is_faithful(play: Roleplay) -> bool {
    forall|i: u32, j: u32|
        #![trigger play.locals[i], play.locals[j]]
        play.locals.contains_key(i) && play.locals.contains_key(j) && play.locals[i]
            == play.locals[j] ==> i == j
}

/// Whether a local of the pattern stands for a local of the subject.
pub open spec fn plays(play: Roleplay, pattern: u32, subject: u32) -> bool {
    play.locals.contains_key(pattern) && play.locals[pattern] == subject
}

/// Whether a pattern introduces in the subject what another introduces: the same
/// alternatives taken apart the same way, with the names that stand for its own.
pub open spec fn introduces(subject: PatternTerm, pattern: PatternTerm, play: Roleplay) -> bool
    decreases pattern,
{
    match pattern.kind {
        PatternKind::Binding(name) => subject.kind matches PatternKind::Binding(other) && plays(
            play,
            name,
            other,
        ),
        PatternKind::Ignored => subject.kind is Ignored,
        PatternKind::Tuple => subject.kind is Tuple && all_introduce(
            subject.parts,
            pattern.parts,
            play,
        ),
        PatternKind::Variant(name) => subject.kind == PatternKind::Variant(name) && all_introduce(
            subject.parts,
            pattern.parts,
            play,
        ),
    }
}

/// Whether as many patterns introduce in the subject what others introduce.
pub open spec fn all_introduce(
    subjects: Seq<PatternTerm>,
    patterns: Seq<PatternTerm>,
    play: Roleplay,
) -> bool
    decreases patterns,
{
    &&& subjects.len() == patterns.len()
    &&& forall|i: int|
        0 <= i < patterns.len() ==> introduces(#[trigger] subjects[i], patterns[i], play)
}

/// Whether the shape of a subject is that of a pattern, with its own names: the same
/// operator, method, number, direction and coverage.
pub open spec fn looks_like(subject: Shape, pattern: Shape, play: Roleplay) -> bool {
    match pattern {
        Shape::Local(name) => subject matches Shape::Local(other) && plays(play, name, other),
        Shape::Traverse(item, Direction::Forward) => subject matches Shape::Traverse(
            other,
            Direction::Forward,
        ) && introduces(other, item, play),
        Shape::Traverse(item, Direction::Backward) => subject matches Shape::Traverse(
            other,
            Direction::Backward,
        ) && introduces(other, item, play),
        Shape::Transform(item) => subject matches Shape::Transform(other) && introduces(
            other,
            item,
            play,
        ),
        Shape::Sift(item) => subject matches Shape::Sift(other) && introduces(other, item, play),
        Shape::Retain(item) => subject matches Shape::Retain(other) && introduces(
            other,
            item,
            play,
        ),
        Shape::Pairwise(left, right, coverage) => subject matches Shape::Pairwise(
            other_left,
            other_right,
            other,
        ) && other == coverage && introduces(other_left, left, play) && introduces(
            other_right,
            right,
            play,
        ),
        Shape::Accumulate(accumulator, item) => subject matches Shape::Accumulate(
            other_accumulator,
            other_item,
        ) && introduces(other_accumulator, accumulator, play) && introduces(
            other_item,
            item,
            play,
        ),
        Shape::Collect(container) => subject matches Shape::Collect(other) && (container is None
            || other is None || other == container),
        Shape::Lambda(parameters) => subject matches Shape::Lambda(others) && all_introduce(
            others,
            parameters,
            play,
        ),
        Shape::Let(name) => subject matches Shape::Let(other) && introduces(other, name, play),
        Shape::Select(_) => subject is Select,
        _ => subject == pattern,
    }
}

/// Whether an arm of the subject decides the case that an arm of the pattern names:
/// it introduces the same, or it is what is left for every case not named.
pub open spec fn decides(subject: PatternTerm, pattern: PatternTerm, play: Roleplay) -> bool {
    introduces(subject, pattern, play) || (subject.kind is Ignored && pattern.kind is Variant)
}

/// Whether a subject is what a hole applied to names describes: an expression over
/// those names that is not itself a name and goes on with the iteration.
pub open spec fn describes(subject: Term, pattern: Term, play: Roleplay) -> bool {
    &&& is_applied_hole(pattern)
    &&& pattern.parts[0].shape matches Shape::Free(hole) && play.holes.contains_key(hole)
        && play.holes[hole] == subject
    &&& !(subject.shape is Local) && !(subject.shape is Free) && !interrupts(subject)
    &&& forall|i: int|
        1 <= i < pattern.parts.len() ==> ((#[trigger] pattern.parts[i]).shape matches Shape::Local(
            name,
        ) && play.locals.contains_key(name) && mentions_local(subject, play.locals[name]))
}

/// Whether a subject is an instance of a pattern, with what its roles stand for.
/// Where it may be fused, the body of a walk may take other steps as well.
pub open spec fn is_instance(subject: Term, pattern: Term, play: Roleplay, fused: bool) -> bool
    decreases pattern, 1nat,
{
    match pattern.shape {
        Shape::Free(hole) => play.holes.contains_key(hole) && play.holes[hole] == subject,
        Shape::Local(_) => looks_like(subject.shape, pattern.shape, play),
        Shape::Traverse(..)
        | Shape::Transform(_)
        | Shape::Sift(_)
        | Shape::Retain(_)
        | Shape::Pairwise(..) => {
            &&& looks_like(subject.shape, pattern.shape, play)
            &&& subject.parts.len() == 2 && pattern.parts.len() == 2
            &&& is_instance(subject.parts[0], pattern.parts[0], play, fused)
            &&& {
                ||| is_instance(subject.parts[1], pattern.parts[1], play, fused)
                ||| fused && takes_step(subject.parts[1], pattern.parts[1], play, fused)
            }
        },
        Shape::Select(patterns) => {
            &&& subject.shape is Select
            &&& subject.parts.len() > 0 && pattern.parts.len() > 0
            &&& is_instance(subject.parts[0], pattern.parts[0], play, fused)
            &&& exists|places: Seq<int>| #[trigger]
                places_each(places, patterns) && decides_all(
                    subject,
                    pattern,
                    patterns,
                    0,
                    places,
                    play,
                    fused,
                )
        },
        _ => describes(subject, pattern, play) || (looks_like(subject.shape, pattern.shape, play)
            && all_instances(subject.parts, pattern.parts, play, fused)),
    }
}

/// Whether as many terms are instances of patterns, one by one.
pub open spec fn all_instances(
    subjects: Seq<Term>,
    patterns: Seq<Term>,
    play: Roleplay,
    fused: bool,
) -> bool
    decreases patterns, 0nat,
{
    &&& subjects.len() == patterns.len()
    &&& forall|i: int|
        0 <= i < patterns.len() ==> is_instance(#[trigger] subjects[i], patterns[i], play, fused)
}

/// Whether a block of steps, none of which leaves the walk, takes one that is an
/// instance of a pattern.
pub open spec fn takes_step(subject: Term, pattern: Term, play: Roleplay, fused: bool) -> bool
    decreases pattern, 2nat,
{
    &&& subject.shape is Sequence
    &&& forall|i: int| 0 <= i < subject.parts.len() ==> !interrupts(#[trigger] subject.parts[i])
    &&& exists|i: int|
        0 <= i < subject.parts.len() && is_instance(
            #[trigger] subject.parts[i],
            pattern,
            play,
            fused,
        )
}

/// Whether there is a place for each arm of a decision.
pub open spec fn places_each(places: Seq<int>, patterns: Seq<PatternTerm>) -> bool {
    places.len() >= patterns.len()
}

/// Whether each arm of a decision, from one on, is decided by an arm of the subject
/// of its own, which comes to an instance of what it comes to and leaves the walk
/// where it does.
pub open spec fn decides_all(
    subject: Term,
    pattern: Term,
    patterns: Seq<PatternTerm>,
    k: int,
    places: Seq<int>,
    play: Roleplay,
    fused: bool,
) -> bool
    decreases pattern, 0nat,
{
    &&& subject.shape matches Shape::Select(arms) && forall|j: int|
        0 <= j && k <= j < patterns.len() && j + 1 < pattern.parts.len() ==> {
            &&& 0 <= #[trigger] places[j] < arms.len() && places[j] + 1 < subject.parts.len()
            &&& decides(arms[places[j]], patterns[j], play)
            &&& is_instance(
                subject.parts[places[j] + 1],
                pattern.parts[j + 1],
                play,
                fused,
            )
            &&& interrupts(subject.parts[places[j] + 1]) == interrupts(pattern.parts[j + 1])
        }
    &&& places_each(places, patterns)
    &&& forall|i: int, j: int|
        0 <= i < j < patterns.len() && j + 1 < pattern.parts.len() && j >= k ==> #[trigger] places[i]
            != #[trigger] places[j]
}

/// Whether what is bound agrees with what roles stand for.
pub open spec fn accounts(binding: Binding, play: Roleplay) -> bool {
    &&& forall|i: int|
        0 <= i < binding.holes.len() ==> play.holes.contains_key((#[trigger] binding.holes[i]).0)
            && play.holes[binding.holes[i].0] == binding.holes[i].1
    &&& forall|i: int|
        0 <= i < binding.locals.len() ==> play.locals.contains_key(
            (#[trigger] binding.locals[i]).0,
        ) && play.locals[binding.locals[i].0] == binding.locals[i].1
}

/// What agrees with more agrees with less.
proof fn lemma_accounts(first: Binding, second: Binding, play: Roleplay)
    requires
        keeps(first, second),
        accounts(second, play),
    ensures
        accounts(first, play),
{
    reveal(keeps);
    assert forall|i: int| 0 <= i < first.holes.len() implies play.holes.contains_key(
        (#[trigger] first.holes[i]).0,
    ) && play.holes[first.holes[i].0] == first.holes[i].1 by {
        assert(second.holes[i] == first.holes[i]);
    }
    assert forall|i: int| 0 <= i < first.locals.len() implies play.locals.contains_key(
        (#[trigger] first.locals[i]).0,
    ) && play.locals[first.locals[i].0] == first.locals[i].1 by {
        assert(second.locals[i] == first.locals[i]);
    }
}

proof fn lemma_hole_sound(binding: Binding, index: u32, subject: Term, play: Roleplay)
    requires
        hole_bound(binding, index, subject).0,
        accounts(hole_bound(binding, index, subject).1, play),
    ensures
        play.holes.contains_key(index) && play.holes[index] == subject,
{
    let next = hole_bound(binding, index, subject).1;
    lemma_hole_of(binding.holes, index, 0);
    match hole_of(binding.holes, index, 0) {
        Some(existing) => {
            let j = choose|j: int|
                0 <= j < binding.holes.len() && (#[trigger] binding.holes[j]) == (index, existing);
            assert(next.holes[j] == (index, subject));
        },
        None => {
            assert(next.holes[binding.holes.len() as int] == (index, subject));
        },
    }
}

proof fn lemma_local_sound(binding: Binding, pattern: u32, subject: u32, play: Roleplay)
    requires
        local_bound(binding, pattern, subject).0,
        accounts(local_bound(binding, pattern, subject).1, play),
    ensures
        plays(play, pattern, subject),
{
    let next = local_bound(binding, pattern, subject).1;
    lemma_local_of(binding.locals, pattern, 0);
    match local_of(binding.locals, pattern, 0) {
        Some(existing) => {
            let j = choose|j: int|
                0 <= j < binding.locals.len() && (#[trigger] binding.locals[j]) == (
                    pattern,
                    existing,
                );
            assert(next.locals[j] == (pattern, subject));
        },
        None => {
            assert(next.locals[binding.locals.len() as int] == (pattern, subject));
        },
    }
}

proof fn lemma_pattern_sound(
    binding: Binding,
    subject: PatternTerm,
    pattern: PatternTerm,
    play: Roleplay,
)
    requires
        pattern_matched(binding, subject, pattern).0,
        accounts(pattern_matched(binding, subject, pattern).1, play),
    ensures
        introduces(subject, pattern, play),
    decreases pattern, 0nat,
{
    match (subject.kind, pattern.kind) {
        (PatternKind::Binding(other), PatternKind::Binding(name)) => {
            lemma_local_sound(binding, name, other, play);
        },
        (PatternKind::Ignored, PatternKind::Ignored) => {},
        _ => {
            assert(decreases_to!(pattern => pattern.parts));
            lemma_patterns_sound(binding, subject.parts, pattern.parts, 0, play);
        },
    }
}

proof fn lemma_patterns_sound(
    binding: Binding,
    subjects: Seq<PatternTerm>,
    patterns: Seq<PatternTerm>,
    i: int,
    play: Roleplay,
)
    requires
        0 <= i,
        patterns_matched(binding, subjects, patterns, i).0,
        accounts(patterns_matched(binding, subjects, patterns, i).1, play),
    ensures
        forall|j: int|
            i <= j < patterns.len() ==> introduces(#[trigger] subjects[j], patterns[j], play),
    decreases patterns, patterns.len() - i,
{
    if i < patterns.len() {
        assert(decreases_to!(patterns => patterns[i]));
        let next = pattern_matched(binding, subjects[i], patterns[i]).1;
        lemma_patterns_sound(next, subjects, patterns, i + 1, play);
        lemma_patterns_kept(next, subjects, patterns, i + 1);
        lemma_accounts(next, patterns_matched(next, subjects, patterns, i + 1).1, play);
        lemma_pattern_sound(binding, subjects[i], patterns[i], play);
    }
}

proof fn lemma_matched_sound(binding: Binding, subject: Term, pattern: Term, play: Roleplay)
    requires
        matched(binding, subject, pattern).0,
        accounts(matched(binding, subject, pattern).1, play),
    ensures
        is_instance(subject, pattern, play, binding.fused),
    decreases pattern, 3nat, 0nat, 0nat,
{
    match pattern.shape {
        Shape::Free(index) => {
            lemma_hole_sound(binding, index, subject, play);
        },
        _ => {
            if structural(binding, subject, pattern).0 {
                lemma_structural_sound(binding, subject, pattern, play);
            } else {
                let hole = pattern.parts[0].shape->Free_0;
                lemma_hole_sound(binding, hole, subject, play);
                lemma_matched_kept(binding, subject, pattern);
                lemma_accounts(binding, matched(binding, subject, pattern).1, play);
                assert forall|i: int| 1 <= i < pattern.parts.len() implies ((
                #[trigger] pattern.parts[i]).shape matches Shape::Local(name)
                    && play.locals.contains_key(name) && mentions_local(
                    subject,
                    play.locals[name],
                )) by {
                    let name = pattern.parts[i].shape->Local_0;
                    lemma_local_of(binding.locals, name, 0);
                }
            }
        },
    }
}

proof fn lemma_between_sound(
    binding: Binding,
    subjects: Seq<Term>,
    patterns: Seq<Term>,
    i: int,
    end: int,
    play: Roleplay,
)
    requires
        0 <= i,
        end <= patterns.len(),
        matched_between(binding, subjects, patterns, i, end).0,
        accounts(matched_between(binding, subjects, patterns, i, end).1, play),
    ensures
        forall|j: int|
            i <= j < end ==> is_instance(
                #[trigger] subjects[j],
                patterns[j],
                play,
                binding.fused,
            ),
    decreases patterns, 0nat, end - i, 0nat,
{
    if i < end {
        assert(decreases_to!(patterns => patterns[i]));
        let next = matched(binding, subjects[i], patterns[i]).1;
        lemma_matched_kept(binding, subjects[i], patterns[i]);
        assert(next.fused == binding.fused) by {
            reveal(keeps);
        }
        lemma_between_sound(next, subjects, patterns, i + 1, end, play);
        lemma_between_kept(next, subjects, patterns, i + 1, end);
        lemma_accounts(next, matched_between(next, subjects, patterns, i + 1, end).1, play);
        lemma_matched_sound(binding, subjects[i], patterns[i], play);
    }
}

proof fn lemma_headed_sound(
    binding: Binding,
    subjects: Seq<Term>,
    patterns: Seq<Term>,
    head: nat,
    play: Roleplay,
)
    requires
        headed(binding, subjects, patterns, head).0,
        accounts(headed(binding, subjects, patterns, head).1, play),
    ensures
        all_instances(subjects, patterns, play, binding.fused),
    decreases patterns, 1nat, 0nat, 0nat,
{
    let end = patterns.len() as int;
    let next = matched_between(binding, subjects, patterns, 0, head as int).1;
    lemma_between_kept(binding, subjects, patterns, 0, head as int);
    assert(next.fused == binding.fused) by {
        reveal(keeps);
    }
    lemma_between_sound(next, subjects, patterns, head as int, end, play);
    lemma_between_kept(next, subjects, patterns, head as int, end);
    lemma_accounts(next, matched_between(next, subjects, patterns, head as int, end).1, play);
    lemma_between_sound(binding, subjects, patterns, 0, head as int, play);
}

proof fn lemma_body_sound(binding: Binding, subject: Term, pattern: Term, play: Roleplay)
    requires
        body_matched(binding, subject, pattern).0,
        accounts(body_matched(binding, subject, pattern).1, play),
    ensures
        is_instance(subject, pattern, play, binding.fused) || (binding.fused && takes_step(
            subject,
            pattern,
            play,
            binding.fused,
        )),
    decreases pattern, 6nat, 0nat, 0nat,
{
    let (fits, next) = matched(binding, subject, pattern);
    if fits {
        lemma_matched_sound(binding, subject, pattern, play);
    } else {
        lemma_matched_kept(binding, subject, pattern);
        assert(next.fused == binding.fused) by {
            reveal(keeps);
        }
        lemma_any_sound(next, subject.parts, pattern, 0, play);
    }
}

proof fn lemma_any_sound(
    binding: Binding,
    steps: Seq<Term>,
    pattern: Term,
    i: int,
    play: Roleplay,
)
    requires
        0 <= i,
        any_matched(binding, steps, pattern, i).0,
        accounts(any_matched(binding, steps, pattern, i).1, play),
    ensures
        exists|j: int|
            0 <= j < steps.len() && is_instance(
                #[trigger] steps[j],
                pattern,
                play,
                binding.fused,
            ),
    decreases pattern, 4nat, steps.len() - i, 0nat,
{
    if i < steps.len() {
        let (fits, next) = matched(binding, steps[i], pattern);
        lemma_matched_kept(binding, steps[i], pattern);
        assert(next.fused == binding.fused) by {
            reveal(keeps);
        }
        if fits {
            lemma_matched_sound(binding, steps[i], pattern, play);
        } else {
            lemma_any_sound(next, steps, pattern, i + 1, play);
        }
    }
}

proof fn lemma_arms_sound(
    binding: Binding,
    subject: Term,
    arms: Seq<PatternTerm>,
    pattern: Term,
    patterns: Seq<PatternTerm>,
    k: int,
    taken: Seq<int>,
    play: Roleplay,
) -> (places: Seq<int>)
    requires
        0 <= k,
        taken.len() == k,
        subject.shape == Shape::Select(arms),
        arms_matched(binding, subject, arms, pattern, patterns, k, taken).0,
        accounts(arms_matched(binding, subject, arms, pattern, patterns, k, taken).1, play),
    ensures
        forall|i: int| 0 <= i < k ==> #[trigger] places[i] == taken[i],
        decides_all(subject, pattern, patterns, k, places, play, binding.fused),
    decreases pattern, 1nat, patterns.len() - k, 2 * arms.len() + 2,
{
    if k >= patterns.len() || k + 1 >= pattern.parts.len() {
        let more = if patterns.len() > k {
            Seq::new((patterns.len() - k) as nat, |i: int| 0int)
        } else {
            Seq::empty()
        };
        taken + more
    } else {
        lemma_tried_sound(binding, subject, arms, pattern, patterns, k, taken, 0, play)
    }
}

proof fn lemma_tried_sound(
    binding: Binding,
    subject: Term,
    arms: Seq<PatternTerm>,
    pattern: Term,
    patterns: Seq<PatternTerm>,
    k: int,
    taken: Seq<int>,
    i: int,
    play: Roleplay,
) -> (places: Seq<int>)
    requires
        0 <= k < patterns.len(),
        k + 1 < pattern.parts.len(),
        0 <= i,
        taken.len() == k,
        subject.shape == Shape::Select(arms),
        arm_tried(binding, subject, arms, pattern, patterns, k, taken, i).0,
        accounts(arm_tried(binding, subject, arms, pattern, patterns, k, taken, i).1, play),
    ensures
        forall|j: int| 0 <= j < k ==> #[trigger] places[j] == taken[j],
        decides_all(subject, pattern, patterns, k, places, play, binding.fused),
    decreases pattern, 1nat, patterns.len() - k, 2 * (arms.len() - i) + 1,
{
    if arm_fitted(binding, subject, arms, pattern, patterns, k, taken, i) is None {
        lemma_tried_sound(binding, subject, arms, pattern, patterns, k, taken, i + 1, play)
    } else {
        lemma_part_smaller(pattern, k + 1);
        let body = subject.parts[i + 1];
        let wanted = pattern.parts[k + 1];
        let first = arm_matched(binding, arms[i], patterns[k]).1;
        let second = matched(first, body, wanted).1;
        let third = arms_matched(
            second,
            subject,
            arms,
            pattern,
            patterns,
            k + 1,
            taken.push(i),
        ).1;
        lemma_arm_kept(binding, arms[i], patterns[k]);
        lemma_matched_kept(first, body, wanted);
        lemma_arms_kept(second, subject, arms, pattern, patterns, k + 1, taken.push(i));
        assert(first.fused == binding.fused && second.fused == binding.fused) by {
            reveal(keeps);
        }
        let places = lemma_arms_sound(
            second,
            subject,
            arms,
            pattern,
            patterns,
            k + 1,
            taken.push(i),
            play,
        );
        lemma_accounts(second, third, play);
        lemma_matched_sound(first, body, wanted, play);
        lemma_accounts(first, second, play);
        if !(arms[i].kind is Ignored && patterns[k].kind is Variant) {
            lemma_pattern_sound(binding, arms[i], patterns[k], play);
        }
        assert(places[k] == taken.push(i)[k]);
        assert forall|j: int| 0 <= j < k implies #[trigger] places[j] == taken[j] by {
            assert(places[j] == taken.push(i)[j]);
        }
        assert forall|a: int, j: int|
            0 <= a < j < patterns.len() && j + 1 < pattern.parts.len() && j
                >= k implies #[trigger] places[a] != #[trigger] places[j] by {
            if j == k {
                assert(taken[a] == places[a]);
                assert(taken.contains(taken[a]));
            }
        }
        places
    }
}

#[verifier::rlimit(60)]
#[verifier::spinoff_prover]
proof fn lemma_structural_sound(binding: Binding, subject: Term, pattern: Term, play: Roleplay)
    requires
        structural(binding, subject, pattern).0,
        accounts(structural(binding, subject, pattern).1, play),
        pattern.shape !is Free,
    ensures
        is_instance(subject, pattern, play, binding.fused),
    decreases pattern, 2nat, 0nat, 0nat,
{
    assert(decreases_to!(pattern => pattern.parts));
    let end = pattern.parts.len() as int;
    match (subject.shape, pattern.shape) {
        (Shape::Local(other), Shape::Local(name)) => {
            lemma_local_sound(binding, name, other, play);
        },
        (Shape::Traverse(other, _), Shape::Traverse(item, _))
        | (Shape::Transform(other), Shape::Transform(item))
        | (Shape::Sift(other), Shape::Sift(item))
        | (Shape::Retain(other), Shape::Retain(item)) => {
            let first = matched(binding, subject.parts[0], pattern.parts[0]).1;
            lemma_one_pattern(first, other, item);
            lemma_walk_sound(binding, subject, pattern, seq![other], seq![item], play);
            assert(introduces(seq![other][0], seq![item][0], play));
            assert(looks_like(subject.shape, pattern.shape, play));
            assert(is_instance(subject, pattern, play, binding.fused));
        },
        (Shape::Pairwise(left, right, _), Shape::Pairwise(wanted_left, wanted_right, _)) => {
            lemma_walk_sound(
                binding,
                subject,
                pattern,
                seq![left, right],
                seq![wanted_left, wanted_right],
                play,
            );
            assert(introduces(seq![left, right][0], seq![wanted_left, wanted_right][0], play));
            assert(introduces(seq![left, right][1], seq![wanted_left, wanted_right][1], play));
            assert(looks_like(subject.shape, pattern.shape, play));
            assert(is_instance(subject, pattern, play, binding.fused));
        },
        (Shape::Accumulate(one, other), Shape::Accumulate(accumulator, item)) => {
            lemma_part_smaller(pattern, 2);
            let subjects = seq![one, other];
            let patterns = seq![accumulator, item];
            let first = matched_between(binding, subject.parts, pattern.parts, 0, 2).1;
            let second = patterns_matched(first, subjects, patterns, 0).1;
            let third = matched(second, subject.parts[2], pattern.parts[2]).1;
            lemma_between_kept(binding, subject.parts, pattern.parts, 0, 2);
            lemma_patterns_kept(first, subjects, patterns, 0);
            lemma_matched_kept(second, subject.parts[2], pattern.parts[2]);
            assert(first.fused == binding.fused && second.fused == binding.fused) by {
                reveal(keeps);
            }
            lemma_matched_sound(second, subject.parts[2], pattern.parts[2], play);
            lemma_accounts(second, third, play);
            lemma_patterns_sound(first, subjects, patterns, 0, play);
            lemma_accounts(first, second, play);
            lemma_between_sound(binding, subject.parts, pattern.parts, 0, 2, play);
            assert(introduces(subjects[0], patterns[0], play));
            assert(introduces(subjects[1], patterns[1], play));
            assert(all_instances(subject.parts, pattern.parts, play, binding.fused));
        },
        (Shape::Lambda(others), Shape::Lambda(parameters)) => {
            let first = patterns_matched(binding, others, parameters, 0).1;
            let last = matched_between(first, subject.parts, pattern.parts, 0, end).1;
            lemma_patterns_kept(binding, others, parameters, 0);
            lemma_between_kept(first, subject.parts, pattern.parts, 0, end);
            assert(first.fused == binding.fused) by {
                reveal(keeps);
            }
            lemma_between_sound(first, subject.parts, pattern.parts, 0, end, play);
            lemma_accounts(first, last, play);
            lemma_patterns_sound(binding, others, parameters, 0, play);
            assert(all_instances(subject.parts, pattern.parts, play, binding.fused));
        },
        (Shape::Let(other), Shape::Let(name)) => {
            let first = matched_between(binding, subject.parts, pattern.parts, 0, end).1;
            lemma_between_kept(binding, subject.parts, pattern.parts, 0, end);
            lemma_pattern_kept(first, other, name);
            lemma_pattern_sound(first, other, name, play);
            lemma_accounts(first, pattern_matched(first, other, name).1, play);
            lemma_between_sound(binding, subject.parts, pattern.parts, 0, end, play);
            assert(all_instances(subject.parts, pattern.parts, play, binding.fused));
        },
        (Shape::Branch, Shape::Branch) => {
            lemma_headed_sound(binding, subject.parts, pattern.parts, 2, play);
        },
        (Shape::Method(_), Shape::Method(_)) => {
            lemma_headed_sound(binding, subject.parts, pattern.parts, 1, play);
        },
        (Shape::Call, Shape::Call) => {
            lemma_headed_sound(binding, subject.parts, pattern.parts, 1, play);
        },
        (Shape::Select(arms), Shape::Select(patterns)) => {
            lemma_part_smaller(pattern, 0);
            let first = matched(binding, subject.parts[0], pattern.parts[0]).1;
            lemma_matched_kept(binding, subject.parts[0], pattern.parts[0]);
            lemma_arms_kept(first, subject, arms, pattern, patterns, 0, Seq::empty());
            assert(first.fused == binding.fused) by {
                reveal(keeps);
            }
            let places = lemma_arms_sound(
                first,
                subject,
                arms,
                pattern,
                patterns,
                0,
                Seq::empty(),
                play,
            );
            assert(places_each(places, patterns));
            lemma_accounts(
                first,
                arms_matched(first, subject, arms, pattern, patterns, 0, Seq::empty()).1,
                play,
            );
            lemma_matched_sound(binding, subject.parts[0], pattern.parts[0], play);
            assert(is_instance(subject, pattern, play, binding.fused));
        },
        _ => {
            lemma_between_sound(binding, subject.parts, pattern.parts, 0, end, play);
            assert(all_instances(subject.parts, pattern.parts, play, binding.fused));
            assert(looks_like(subject.shape, pattern.shape, play));
        },
    }
}

/// The walked sequence, the names and the body of a walk are those of the pattern.
proof fn lemma_walk_sound(
    binding: Binding,
    subject: Term,
    pattern: Term,
    subjects: Seq<PatternTerm>,
    patterns: Seq<PatternTerm>,
    play: Roleplay,
)
    requires
        subject.parts.len() == 2,
        pattern.parts.len() == 2,
        ({
            let (walked, first) = matched(binding, subject.parts[0], pattern.parts[0]);
            let (named, second) = patterns_matched(first, subjects, patterns, 0);
            let (fits, third) = body_matched(second, subject.parts[1], pattern.parts[1]);
            walked && named && fits && accounts(third, play)
        }),
    ensures
        is_instance(subject.parts[0], pattern.parts[0], play, binding.fused),
        forall|j: int|
            0 <= j < patterns.len() ==> introduces(#[trigger] subjects[j], patterns[j], play),
        is_instance(subject.parts[1], pattern.parts[1], play, binding.fused) || (binding.fused
            && takes_step(subject.parts[1], pattern.parts[1], play, binding.fused)),
    decreases pattern, 1nat, 0nat, 0nat,
{
    lemma_part_smaller(pattern, 0);
    lemma_part_smaller(pattern, 1);
    let first = matched(binding, subject.parts[0], pattern.parts[0]).1;
    let second = patterns_matched(first, subjects, patterns, 0).1;
    let third = body_matched(second, subject.parts[1], pattern.parts[1]).1;
    lemma_matched_kept(binding, subject.parts[0], pattern.parts[0]);
    lemma_patterns_kept(first, subjects, patterns, 0);
    lemma_body_kept(second, subject.parts[1], pattern.parts[1]);
    assert(first.fused == binding.fused && second.fused == binding.fused) by {
        reveal(keeps);
    }
    lemma_body_sound(second, subject.parts[1], pattern.parts[1], play);
    lemma_accounts(second, third, play);
    lemma_patterns_sound(first, subjects, patterns, 0, play);
    lemma_accounts(first, second, play);
    lemma_matched_sound(binding, subject.parts[0], pattern.parts[0], play);
}

/// What the roles of a pattern stand for, as they were bound.
pub open spec fn roleplay_of(binding: Binding) -> Roleplay {
    Roleplay {
        holes: Map::new(
            |i: u32| hole_of(binding.holes, i, 0) is Some,
            |i: u32| hole_of(binding.holes, i, 0)->0,
        ),
        locals: Map::new(
            |i: u32| local_of(binding.locals, i, 0) is Some,
            |i: u32| local_of(binding.locals, i, 0)->0,
        ),
    }
}

proof fn lemma_roleplay_of(binding: Binding)
    requires
        is_one_to_one(binding),
    ensures
        accounts(binding, roleplay_of(binding)),
        is_faithful(roleplay_of(binding)),
{
    let play = roleplay_of(binding);
    assert forall|i: int| 0 <= i < binding.holes.len() implies play.holes.contains_key(
        (#[trigger] binding.holes[i]).0,
    ) && play.holes[binding.holes[i].0] == binding.holes[i].1 by {
        lemma_hole_of(binding.holes, binding.holes[i].0, 0);
    }
    assert forall|i: int| 0 <= i < binding.locals.len() implies play.locals.contains_key(
        (#[trigger] binding.locals[i]).0,
    ) && play.locals[binding.locals[i].0] == binding.locals[i].1 by {
        lemma_local_of(binding.locals, binding.locals[i].0, 0);
    }
    assert forall|i: u32, j: u32|
        #![trigger play.locals[i], play.locals[j]]
        play.locals.contains_key(i) && play.locals.contains_key(j) && play.locals[i]
            == play.locals[j] implies i == j by {
        lemma_local_of(binding.locals, i, 0);
        lemma_local_of(binding.locals, j, 0);
    }
}

/// What matches is an instance: each hole of the pattern stands for one term of the
/// subject wherever it occurs, each local for one local that no other stands for,
/// and all else is the same. In particular a walk runs the way the pattern's does.
pub proof fn law_a_match_is_an_instance(subject: Term, pattern: Term, fused: bool)
    requires
        matched(
            Binding { holes: Seq::empty(), locals: Seq::empty(), fused },
            subject,
            pattern,
        ).0,
    ensures
        exists|play: Roleplay| #[trigger]
            is_faithful(play) && is_instance(subject, pattern, play, fused),
{
    let start = Binding { holes: Seq::empty(), locals: Seq::empty(), fused };
    let next = matched(start, subject, pattern).1;
    law_matching_keeps_roles_one_to_one(start, subject, pattern);
    lemma_roleplay_of(next);
    lemma_matched_sound(start, subject, pattern, roleplay_of(next));
}

/// Whether a pattern decides among no alternatives and applies no hole, so that its
/// instances are read one way only.
pub open spec fn is_plain(pattern: Term) -> bool
    decreases pattern,
{
    !(pattern.shape is Select) && !is_applied_hole(pattern) && all_plain(pattern.parts)
}

/// Whether several patterns are all plain.
pub open spec fn all_plain(patterns: Seq<Term>) -> bool
    decreases patterns,
{
    forall|i: int| 0 <= i < patterns.len() ==> is_plain(#[trigger] patterns[i])
}

proof fn lemma_local_complete(binding: Binding, pattern: u32, subject: u32, play: Roleplay)
    requires
        accounts(binding, play),
        is_faithful(play),
        plays(play, pattern, subject),
    ensures
        local_bound(binding, pattern, subject).0,
        accounts(local_bound(binding, pattern, subject).1, play),
{
    lemma_local_of(binding.locals, pattern, 0);
    if local_of(binding.locals, pattern, 0) is None && is_taken(binding.locals, subject) {
        let i = choose|i: int|
            0 <= i < binding.locals.len() && (#[trigger] binding.locals[i]).1 == subject;
        assert(play.locals[binding.locals[i].0] == play.locals[pattern]);
    }
}

proof fn lemma_hole_complete(binding: Binding, index: u32, subject: Term, play: Roleplay)
    requires
        accounts(binding, play),
        play.holes.contains_key(index) && play.holes[index] == subject,
    ensures
        hole_bound(binding, index, subject).0,
        accounts(hole_bound(binding, index, subject).1, play),
{
    lemma_hole_of(binding.holes, index, 0);
}

proof fn lemma_pattern_complete(
    binding: Binding,
    subject: PatternTerm,
    pattern: PatternTerm,
    play: Roleplay,
)
    requires
        accounts(binding, play),
        is_faithful(play),
        introduces(subject, pattern, play),
    ensures
        pattern_matched(binding, subject, pattern).0,
        accounts(pattern_matched(binding, subject, pattern).1, play),
    decreases pattern, 0nat,
{
    match pattern.kind {
        PatternKind::Binding(name) => {
            lemma_local_complete(binding, name, subject.kind->Binding_0, play);
        },
        PatternKind::Ignored => {},
        _ => {
            assert(decreases_to!(pattern => pattern.parts));
            lemma_patterns_complete(binding, subject.parts, pattern.parts, 0, play);
        },
    }
}

proof fn lemma_patterns_complete(
    binding: Binding,
    subjects: Seq<PatternTerm>,
    patterns: Seq<PatternTerm>,
    i: int,
    play: Roleplay,
)
    requires
        0 <= i,
        accounts(binding, play),
        is_faithful(play),
        all_introduce(subjects, patterns, play),
    ensures
        patterns_matched(binding, subjects, patterns, i).0,
        accounts(patterns_matched(binding, subjects, patterns, i).1, play),
    decreases patterns, patterns.len() - i,
{
    if i < patterns.len() {
        assert(decreases_to!(patterns => patterns[i]));
        assert(introduces(subjects[i], patterns[i], play));
        lemma_pattern_complete(binding, subjects[i], patterns[i], play);
        lemma_patterns_complete(
            pattern_matched(binding, subjects[i], patterns[i]).1,
            subjects,
            patterns,
            i + 1,
            play,
        );
    }
}

proof fn lemma_matched_complete(binding: Binding, subject: Term, pattern: Term, play: Roleplay)
    requires
        accounts(binding, play),
        is_faithful(play),
        is_plain(pattern),
        is_shaped(pattern),
        is_instance(subject, pattern, play, false),
    ensures
        matched(binding, subject, pattern).0,
        accounts(matched(binding, subject, pattern).1, play),
    decreases pattern, 3nat, 0nat, 0nat,
{
    match pattern.shape {
        Shape::Free(index) => {
            lemma_hole_complete(binding, index, subject, play);
        },
        _ => {
            lemma_structural_complete(binding, subject, pattern, play);
        },
    }
}

proof fn lemma_between_complete(
    binding: Binding,
    subjects: Seq<Term>,
    patterns: Seq<Term>,
    i: int,
    end: int,
    play: Roleplay,
)
    requires
        0 <= i,
        accounts(binding, play),
        is_faithful(play),
        all_plain(patterns),
        all_shaped(patterns),
        all_instances(subjects, patterns, play, false),
    ensures
        matched_between(binding, subjects, patterns, i, end).0,
        accounts(matched_between(binding, subjects, patterns, i, end).1, play),
    decreases patterns, 0nat, end - i, 0nat,
{
    if i < end && i < patterns.len() {
        assert(decreases_to!(patterns => patterns[i]));
        assert(is_instance(subjects[i], patterns[i], play, false));
        assert(is_plain(patterns[i]) && is_shaped(patterns[i]));
        lemma_matched_complete(binding, subjects[i], patterns[i], play);
        lemma_between_complete(
            matched(binding, subjects[i], patterns[i]).1,
            subjects,
            patterns,
            i + 1,
            end,
            play,
        );
    }
}

proof fn lemma_headed_complete(
    binding: Binding,
    subjects: Seq<Term>,
    patterns: Seq<Term>,
    head: nat,
    play: Roleplay,
)
    requires
        accounts(binding, play),
        is_faithful(play),
        all_plain(patterns),
        all_shaped(patterns),
        all_instances(subjects, patterns, play, false),
        head <= patterns.len(),
    ensures
        headed(binding, subjects, patterns, head).0,
        accounts(headed(binding, subjects, patterns, head).1, play),
    decreases patterns, 1nat, 0nat, 0nat,
{
    let next = matched_between(binding, subjects, patterns, 0, head as int).1;
    lemma_between_complete(binding, subjects, patterns, 0, head as int, play);
    lemma_between_complete(next, subjects, patterns, head as int, patterns.len() as int, play);
}

proof fn lemma_walk_complete(
    binding: Binding,
    subject: Term,
    pattern: Term,
    subjects: Seq<PatternTerm>,
    patterns: Seq<PatternTerm>,
    play: Roleplay,
)
    requires
        accounts(binding, play),
        is_faithful(play),
        is_plain(pattern),
        is_shaped(pattern),
        subject.parts.len() == 2,
        pattern.parts.len() == 2,
        is_instance(subject.parts[0], pattern.parts[0], play, false),
        is_instance(subject.parts[1], pattern.parts[1], play, false),
        all_introduce(subjects, patterns, play),
    ensures
        ({
            let (walked, first) = matched(binding, subject.parts[0], pattern.parts[0]);
            let (named, second) = patterns_matched(first, subjects, patterns, 0);
            let (fits, third) = body_matched(second, subject.parts[1], pattern.parts[1]);
            walked && named && fits && accounts(third, play)
        }),
    decreases pattern, 1nat, 0nat, 0nat,
{
    lemma_part_smaller(pattern, 0);
    lemma_part_smaller(pattern, 1);
    assert(is_plain(pattern.parts[0]) && is_plain(pattern.parts[1]));
    assert(is_shaped(pattern.parts[0]) && is_shaped(pattern.parts[1]));
    let first = matched(binding, subject.parts[0], pattern.parts[0]).1;
    let second = patterns_matched(first, subjects, patterns, 0).1;
    lemma_matched_complete(binding, subject.parts[0], pattern.parts[0], play);
    lemma_patterns_complete(first, subjects, patterns, 0, play);
    lemma_matched_complete(second, subject.parts[1], pattern.parts[1], play);
}

#[verifier::rlimit(60)]
#[verifier::spinoff_prover]
proof fn lemma_structural_complete(binding: Binding, subject: Term, pattern: Term, play: Roleplay)
    requires
        accounts(binding, play),
        is_faithful(play),
        is_plain(pattern),
        is_shaped(pattern),
        pattern.shape !is Free,
        is_instance(subject, pattern, play, false),
    ensures
        structural(binding, subject, pattern).0,
        accounts(structural(binding, subject, pattern).1, play),
    decreases pattern, 2nat, 0nat, 0nat,
{
    assert(decreases_to!(pattern => pattern.parts));
    let end = pattern.parts.len() as int;
    match (subject.shape, pattern.shape) {
        (Shape::Local(other), Shape::Local(name)) => {
            lemma_local_complete(binding, name, other, play);
        },
        (Shape::Traverse(other, _), Shape::Traverse(item, _))
        | (Shape::Transform(other), Shape::Transform(item))
        | (Shape::Sift(other), Shape::Sift(item))
        | (Shape::Retain(other), Shape::Retain(item)) => {
            let first = matched(binding, subject.parts[0], pattern.parts[0]).1;
            lemma_one_pattern(first, other, item);
            assert(looks_like(subject.shape, pattern.shape, play));
            lemma_walk_complete(binding, subject, pattern, seq![other], seq![item], play);
            assert(structural(binding, subject, pattern).0);
        },
        (Shape::Pairwise(left, right, _), Shape::Pairwise(wanted_left, wanted_right, _)) => {
            lemma_walk_complete(
                binding,
                subject,
                pattern,
                seq![left, right],
                seq![wanted_left, wanted_right],
                play,
            );
        },
        (Shape::Accumulate(one, other), Shape::Accumulate(accumulator, item)) => {
            lemma_part_smaller(pattern, 2);
            assert(is_plain(pattern.parts[2]) && is_shaped(pattern.parts[2]));
            assert(all_instances(subject.parts, pattern.parts, play, false));
            assert(is_instance(subject.parts[2], pattern.parts[2], play, false));
            let subjects = seq![one, other];
            let patterns = seq![accumulator, item];
            let first = matched_between(binding, subject.parts, pattern.parts, 0, 2).1;
            let second = patterns_matched(first, subjects, patterns, 0).1;
            lemma_between_complete(binding, subject.parts, pattern.parts, 0, 2, play);
            lemma_patterns_complete(first, subjects, patterns, 0, play);
            lemma_matched_complete(second, subject.parts[2], pattern.parts[2], play);
        },
        (Shape::Lambda(others), Shape::Lambda(parameters)) => {
            let first = patterns_matched(binding, others, parameters, 0).1;
            assert(all_instances(subject.parts, pattern.parts, play, false));
            lemma_patterns_complete(binding, others, parameters, 0, play);
            lemma_between_complete(first, subject.parts, pattern.parts, 0, end, play);
        },
        (Shape::Let(other), Shape::Let(name)) => {
            let first = matched_between(binding, subject.parts, pattern.parts, 0, end).1;
            lemma_between_complete(binding, subject.parts, pattern.parts, 0, end, play);
            lemma_pattern_complete(first, other, name, play);
        },
        (Shape::Branch, Shape::Branch) => {
            lemma_headed_complete(binding, subject.parts, pattern.parts, 2, play);
        },
        (Shape::Method(_), Shape::Method(_)) => {
            lemma_headed_complete(binding, subject.parts, pattern.parts, 1, play);
        },
        (Shape::Call, Shape::Call) => {
            lemma_headed_complete(binding, subject.parts, pattern.parts, 1, play);
        },
        _ => {
            assert(looks_like(subject.shape, pattern.shape, play));
            assert(all_instances(subject.parts, pattern.parts, play, false));
            lemma_between_complete(binding, subject.parts, pattern.parts, 0, end, play);
        },
    }
}

/// A pattern that decides among no alternatives and applies no hole matches its
/// instances, all of them and nothing else.
pub proof fn law_matching_finds_the_instances(subject: Term, pattern: Form)
    requires
        is_plain(pattern@),
    ensures
        matched(unbound(), subject, pattern@).0 <==> exists|play: Roleplay| #[trigger]
            is_faithful(play) && is_instance(subject, pattern@, play, false),
{
    lemma_form_shaped(pattern);
    if matched(unbound(), subject, pattern@).0 {
        law_a_match_is_an_instance(subject, pattern@, false);
    }
    if exists|play: Roleplay| #[trigger]
        is_faithful(play) && is_instance(subject, pattern@, play, false) {
        let play = choose|play: Roleplay| #[trigger]
            is_faithful(play) && is_instance(subject, pattern@, play, false);
        lemma_matched_complete(unbound(), subject, pattern@, play);
    }
}

/// A walk is matched by a walk of its kind that runs the same way, and by nothing
/// else: looking for the first is never taken for looking for the last. So it is
/// for pairs and how often they are reached.
pub proof fn law_walks_are_told_apart(binding: Binding, subject: Term, pattern: Term)
    requires
        matched(binding, subject, pattern).0,
    ensures
        pattern.shape matches Shape::Traverse(_, Direction::Forward) ==> (
        subject.shape matches Shape::Traverse(_, Direction::Forward)),
        pattern.shape matches Shape::Traverse(_, Direction::Backward) ==> (
        subject.shape matches Shape::Traverse(_, Direction::Backward)),
        pattern.shape is Transform ==> subject.shape is Transform,
        pattern.shape is Sift ==> subject.shape is Sift,
        pattern.shape is Retain ==> subject.shape is Retain,
        pattern.shape matches Shape::Pairwise(_, _, wanted) ==> (
        subject.shape matches Shape::Pairwise(_, _, coverage) && coverage == wanted),
{
}

/// Whether a term is another or stands within it.
pub open spec fn is_within(part: Term, whole: Term) -> bool
    decreases whole,
{
    part == whole || exists|i: int|
        0 <= i < whole.parts.len() && is_within(part, #[trigger] whole.parts[i])
}

proof fn lemma_performances(term: Term, pattern: Term, part: Term)
    ensures
        performances(term, pattern).contains(part) <==> is_within(part, term) && performs(
            part,
            pattern,
        ),
    decreases term,
{
    let own = if performs(term, pattern) {
        seq![term]
    } else {
        Seq::empty()
    };
    let each = each_performances(term.parts, pattern);
    let all = performances(term, pattern);
    assert(all == own + joined(each));
    assert forall|i: int| 0 <= i < term.parts.len() implies (each[i].contains(part)
        <==> is_within(part, #[trigger] term.parts[i]) && performs(part, pattern)) by {
        lemma_part_smaller(term, i);
        lemma_performances(term.parts[i], pattern, part);
    }
    lemma_joined_contains(each, part);
    if all.contains(part) {
        let k = choose|k: int| 0 <= k < all.len() && all[k] == part;
        if k < own.len() {
            assert(own[k] == part);
        } else {
            assert(joined(each)[k - own.len()] == part);
            assert(joined(each).contains(part));
            let i = choose|i: int| 0 <= i < each.len() && (#[trigger] each[i]).contains(part);
            assert(is_within(part, term.parts[i]));
        }
    }
    if is_within(part, term) && performs(part, pattern) {
        if part == term {
            assert(own[0] == part);
            assert(all[0] == part);
        } else {
            let i = choose|i: int|
                0 <= i < term.parts.len() && is_within(part, #[trigger] term.parts[i]);
            assert(each[i].contains(part));
            assert(joined(each).contains(part));
            let k = choose|k: int| 0 <= k < joined(each).len() && joined(each)[k] == part;
            assert(all[own.len() + k] == part);
        }
    }
}

/// What several lists hold together is what one of them holds.
proof fn lemma_joined_contains(lists: Seq<Seq<Term>>, part: Term)
    ensures
        joined(lists).contains(part) <==> exists|i: int|
            0 <= i < lists.len() && (#[trigger] lists[i]).contains(part),
    decreases lists.len(),
{
    if lists.len() > 0 {
        let before = joined(lists.drop_last());
        let last = lists.last();
        lemma_joined_contains(lists.drop_last(), part);
        assert(joined(lists) == before + last);
        if joined(lists).contains(part) {
            let k = choose|k: int| 0 <= k < joined(lists).len() && joined(lists)[k] == part;
            if k < before.len() {
                assert(before[k] == part);
                let i = choose|i: int|
                    0 <= i < lists.drop_last().len() && (
                    #[trigger] lists.drop_last()[i]).contains(part);
                assert(lists[i].contains(part));
            } else {
                assert(last[k - before.len()] == part);
                assert(lists[lists.len() - 1].contains(part));
            }
        }
        if exists|i: int| 0 <= i < lists.len() && (#[trigger] lists[i]).contains(part) {
            let i = choose|i: int| 0 <= i < lists.len() && (#[trigger] lists[i]).contains(part);
            if i < lists.len() - 1 {
                assert(lists.drop_last()[i].contains(part));
                let k = choose|k: int| 0 <= k < before.len() && before[k] == part;
                assert(joined(lists)[k] == part);
            } else {
                let k = choose|k: int| 0 <= k < last.len() && last[k] == part;
                assert(joined(lists)[before.len() + k] == part);
            }
        }
    }
}

/// The occurrences of a behavior are the terms within a body that perform it, all of
/// them; a body contains the behavior where there is one.
pub proof fn law_occurrences_are_all_performances(body: Term, pattern: Term)
    ensures
        forall|part: Term|
            performances(body, pattern).contains(part) <==> #[trigger] is_within(part, body)
                && performs(part, pattern),
        performances(body, pattern).len() > 0 <==> exists|part: Term| #[trigger]
            is_within(part, body) && performs(part, pattern),
{
    assert forall|part: Term|
        performances(body, pattern).contains(part) <==> #[trigger] is_within(part, body)
            && performs(part, pattern) by {
        lemma_performances(body, pattern, part);
    }
    if performances(body, pattern).len() > 0 {
        let part = performances(body, pattern)[0];
        assert(performances(body, pattern).contains(part));
        assert(is_within(part, body));
    }
}

/// A body that contains a pattern, other than a block, holds an instance of it.
pub proof fn law_what_is_contained_is_an_instance(body: Term, pattern: Term)
    requires
        performances(body, pattern).len() > 0,
        pattern.shape !is Sequence,
    ensures
        exists|part: Term, play: Roleplay| #[trigger]
            is_within(part, body) && #[trigger] is_faithful(play) && is_instance(
                part,
                pattern,
                play,
                false,
            ),
{
    law_occurrences_are_all_performances(body, pattern);
    let part = choose|part: Term| #[trigger] is_within(part, body) && performs(part, pattern);
    law_a_match_is_an_instance(part, pattern, false);
    let play = choose|play: Roleplay| #[trigger]
        is_faithful(play) && is_instance(part, pattern, play, false);
    assert(is_within(part, body) && is_faithful(play));
}

/// Whether steps of a body, at places that run upward, are instances of the steps
/// of a behavior, one for each.
pub open spec fn takes_steps(
    haystack: Seq<Term>,
    steps: Seq<Term>,
    k: int,
    places: Seq<int>,
    play: Roleplay,
    fused: bool,
) -> bool {
    &&& places.len() == steps.len() - k
    &&& forall|i: int|
        0 <= i < places.len() ==> 0 <= #[trigger] places[i] < haystack.len() && is_instance(
            haystack[places[i]],
            steps[k + i],
            play,
            fused,
        )
    &&& forall|i: int, j: int|
        0 <= i < j < places.len() ==> #[trigger] places[i] < #[trigger] places[j]
}

proof fn lemma_trail_kept(
    binding: Binding,
    haystack: Seq<Term>,
    steps: Seq<Term>,
    k: int,
    start: int,
    i: int,
)
    ensures
        trail(binding, haystack, steps, k, start, i) matches Some((last, _)) ==> keeps(
            binding,
            last,
        ),
    decreases steps.len() - k, haystack.len() - i,
{
    lemma_keeps_itself(binding);
    if 0 <= k < steps.len() && 0 <= i < haystack.len() {
        let next = matched(binding, haystack[i], steps[k]).1;
        lemma_matched_kept(binding, haystack[i], steps[k]);
        lemma_trail_kept(next, haystack, steps, k + 1, i + 1, i + 1);
        lemma_trail_kept(binding, haystack, steps, k, start, i + 1);
        if let Some((last, _)) = trail(next, haystack, steps, k + 1, i + 1, i + 1) {
            lemma_keeps_on(binding, next, last);
        }
    }
}

proof fn lemma_trail_sound(
    binding: Binding,
    haystack: Seq<Term>,
    steps: Seq<Term>,
    k: int,
    start: int,
    i: int,
    play: Roleplay,
)
    requires
        0 <= k <= steps.len(),
        0 <= i,
        trail(binding, haystack, steps, k, start, i) matches Some((last, _)) && accounts(
            last,
            play,
        ),
    ensures
        takes_steps(
            haystack,
            steps,
            k,
            (trail(binding, haystack, steps, k, start, i)->0).1,
            play,
            binding.fused,
        ),
    decreases steps.len() - k, haystack.len() - i,
{
    lemma_trail_places(binding, haystack, steps, k, start, i);
    if k < steps.len() {
        let (fits, next) = matched(binding, haystack[i], steps[k]);
        let later = trail(next, haystack, steps, k + 1, i + 1, i + 1);
        lemma_matched_kept(binding, haystack[i], steps[k]);
        assert(next.fused == binding.fused) by {
            reveal(keeps);
        }
        if fits && later is Some {
            let (last, rest) = later->0;
            lemma_trail_sound(next, haystack, steps, k + 1, i + 1, i + 1, play);
            lemma_trail_kept(next, haystack, steps, k + 1, i + 1, i + 1);
            lemma_accounts(next, last, play);
            lemma_matched_sound(binding, haystack[i], steps[k], play);
            let places = seq![i] + rest;
            assert forall|a: int| 0 <= a < places.len() implies 0 <= #[trigger] places[a]
                < haystack.len() && is_instance(
                haystack[places[a]],
                steps[k + a],
                play,
                binding.fused,
            ) by {
                if a > 0 {
                    assert(places[a] == rest[a - 1]);
                    assert(steps[k + a] == steps[k + 1 + (a - 1)]);
                }
            }
        } else {
            lemma_trail_sound(binding, haystack, steps, k, start, i + 1, play);
        }
    }
}

/// A block performs another where some of its steps, in order, are instances of the
/// steps of the other, all under one reading of its roles.
pub proof fn law_a_performed_block_is_taken_step_by_step(body: Term, pattern: Term)
    requires
        body.shape is Sequence,
        pattern.shape is Sequence,
        performs(body, pattern),
    ensures
        exists|places: Seq<int>, play: Roleplay| #[trigger]
            is_faithful(play) && #[trigger] takes_steps(
                body.parts,
                pattern.parts,
                0,
                places,
                play,
                false,
            ),
{
    let (last, places) = trail(unbound(), body.parts, pattern.parts, 0, 0, 0)->0;
    lemma_trail_kept(unbound(), body.parts, pattern.parts, 0, 0, 0);
    assert(is_one_to_one(last)) by {
        reveal(keeps);
    }
    lemma_roleplay_of(last);
    lemma_trail_sound(unbound(), body.parts, pattern.parts, 0, 0, 0, roleplay_of(last));
    assert(takes_steps(body.parts, pattern.parts, 0, places, roleplay_of(last), false));
}

/// Whether a term leaves a walk somewhere within it: by returning, or by syntax that
/// breaks off, goes on early, hands a failure up or does not come back.
pub open spec fn leaves_somewhere(term: Term) -> bool
    decreases term,
{
    ||| term.shape is Return
    ||| term.shape == Shape::Opaque("break_expression"@)
    ||| term.shape == Shape::Opaque("continue_expression"@)
    ||| term.shape == Shape::Opaque("try_expression"@)
    ||| term.shape == Shape::Opaque("macro:panic"@)
    ||| !(term.shape is Opaque) && exists|i: int|
        0 <= i < term.parts.len() && leaves_somewhere(#[trigger] term.parts[i])
}

/// A term that leaves a walk somewhere within it stops or diverts the iteration, and
/// so is never taken for one step among others nor for what a hole applied to names
/// describes.
pub proof fn law_leaving_interrupts(term: Term)
    requires
        leaves_somewhere(term),
    ensures
        interrupts(term),
    decreases term,
{
    if !(term.shape is Opaque) && !(term.shape is Return) {
        let i = choose|i: int|
            0 <= i < term.parts.len() && leaves_somewhere(#[trigger] term.parts[i]);
        lemma_part_smaller(term, i);
        law_leaving_interrupts(term.parts[i]);
    }
}

} // verus!
