//! Deciding whether one form is an instance of another.
//!
//! A derived behavior is a pattern, not a literal: what a library takes as a
//! parameter is a hole, and any expression a caller writes there is an instance
//! of it. Matching is therefore unification rather than comparison, and it is
//! kept apart from the form definition because it is the part with state.

use crate::normalize::form::{
    arm_bodies, arm_patterns, borrowed_terms, form_terms, lemma_part_smaller, pattern_terms,
    same_optional_text, Arm, Form, Pattern, PatternKind, PatternTerm, Shape, Term,
};
use crate::normalize::measure::mentions_local;
use crate::text::same_text;
use vstd::prelude::*;

verus! {

/// What a match has bound so far.
#[verifier::ext_equal]
pub struct Binding {
    /// What each hole of the pattern stands for.
    pub holes: Seq<(u32, Term)>,
    /// Which local of the subject each local of the pattern stands for.
    pub locals: Seq<(u32, u32)>,
    /// Whether a traversal may do more than the pattern describes.
    pub fused: bool,
}

/// What a hole stands for.
pub open spec fn hole_of(holes: Seq<(u32, Term)>, index: u32, i: int) -> Option<Term>
    decreases holes.len() - i,
{
    if i < 0 || i >= holes.len() {
        None
    } else if holes[i].0 == index {
        Some(holes[i].1)
    } else {
        hole_of(holes, index, i + 1)
    }
}

/// Which local of the subject a local of the pattern stands for.
pub open spec fn local_of(locals: Seq<(u32, u32)>, pattern: u32, i: int) -> Option<u32>
    decreases locals.len() - i,
{
    if i < 0 || i >= locals.len() {
        None
    } else if locals[i].0 == pattern {
        Some(locals[i].1)
    } else {
        local_of(locals, pattern, i + 1)
    }
}

/// Whether a local of the subject is spoken for.
pub open spec fn is_taken(locals: Seq<(u32, u32)>, subject: u32) -> bool {
    exists|i: int| 0 <= i < locals.len() && (#[trigger] locals[i]).1 == subject
}

/// Binding a hole: a hole accepts any term, as long as it accepts the same one
/// every time it appears.
pub open spec fn hole_bound(binding: Binding, index: u32, subject: Term) -> (bool, Binding) {
    match hole_of(binding.holes, index, 0) {
        Some(existing) => (existing == subject, binding),
        None => (true, Binding { holes: binding.holes.push((index, subject)), ..binding }),
    }
}

/// Binding a local: locals correspond one to one.
pub open spec fn local_bound(binding: Binding, pattern: u32, subject: u32) -> (bool, Binding) {
    match local_of(binding.locals, pattern, 0) {
        Some(bound) => (bound == subject, binding),
        None => if is_taken(binding.locals, subject) {
            (false, binding)
        } else {
            (true, Binding { locals: binding.locals.push((pattern, subject)), ..binding })
        },
    }
}

/// Whether a subject's pattern introduces what the pattern's introduces.
pub open spec fn pattern_matched(
    binding: Binding,
    subject: PatternTerm,
    pattern: PatternTerm,
) -> (bool, Binding)
    decreases pattern, 0nat,
{
    match (subject.kind, pattern.kind) {
        (PatternKind::Binding(subject), PatternKind::Binding(pattern)) => local_bound(
            binding,
            pattern,
            subject,
        ),
        (PatternKind::Ignored, PatternKind::Ignored) => (true, binding),
        (PatternKind::Variant(subject_name), PatternKind::Variant(pattern_name)) => if subject_name
            == pattern_name && subject.parts.len() == pattern.parts.len() {
            patterns_matched(binding, subject.parts, pattern.parts, 0)
        } else {
            (false, binding)
        },
        (PatternKind::Tuple, PatternKind::Tuple) => if subject.parts.len() == pattern.parts.len() {
            patterns_matched(binding, subject.parts, pattern.parts, 0)
        } else {
            (false, binding)
        },
        _ => (false, binding),
    }
}

/// Whether several patterns introduce the same, from a place on, one by one.
pub open spec fn patterns_matched(
    binding: Binding,
    subjects: Seq<PatternTerm>,
    patterns: Seq<PatternTerm>,
    i: int,
) -> (bool, Binding)
    decreases patterns, patterns.len() - i,
{
    if i < 0 || i >= patterns.len() {
        (true, binding)
    } else {
        let (matched, next) = pattern_matched(binding, subjects[i], patterns[i]);
        if matched {
            patterns_matched(next, subjects, patterns, i + 1)
        } else {
            (false, next)
        }
    }
}

/// Whether a subject arm decides the case the pattern arm names. A catch-all
/// covers every alternative not named beside it.
pub open spec fn arm_matched(
    binding: Binding,
    subject: PatternTerm,
    pattern: PatternTerm,
) -> (bool, Binding) {
    if subject.kind is Ignored && pattern.kind is Variant {
        (true, binding)
    } else {
        pattern_matched(binding, subject, pattern)
    }
}

/// Kinds of syntax after which an iteration does not go on: what leaves the
/// loop, and the macros that never return.
pub open spec fn is_interrupting(kind: Seq<char>) -> bool {
    ||| kind == "break_expression"@
    ||| kind == "continue_expression"@
    ||| kind == "try_expression"@
    ||| kind == "macro:panic"@
    ||| kind == "macro:unreachable"@
    ||| kind == "macro:todo"@
    ||| kind == "macro:unimplemented"@
    ||| kind == "macro:abort"@
    ||| kind == "macro:assert"@
    ||| kind == "macro:assert_eq"@
    ||| kind == "macro:assert_ne"@
}

/// Whether a term stops or diverts iteration.
pub open spec fn interrupts(term: Term) -> bool
    decreases term,
{
    match term.shape {
        Shape::Opaque(kind) => is_interrupting(kind),
        Shape::Return => true,
        _ => any_interrupts(term.parts),
    }
}

/// Whether any of several terms stops or diverts iteration.
pub open spec fn any_interrupts(terms: Seq<Term>) -> bool
    decreases terms,
{
    exists|i: int| 0 <= i < terms.len() && interrupts(#[trigger] terms[i])
}

/// Whether a pattern is a hole applied to names, rather than a call to one.
pub open spec fn is_applied_hole(pattern: Term) -> bool {
    pattern.shape is Call && pattern.parts.len() > 1 && pattern.parts[0].shape is Free
}

/// Whether an argument of an applied hole is a name that the subject mentions.
pub open spec fn argument_mentioned(binding: Binding, subject: Term, argument: Term) -> bool {
    argument.shape matches Shape::Local(index) && (local_of(binding.locals, index, 0)
        matches Some(bound) && mentions_local(subject, bound))
}

/// Whether a hole applied to bound names describes a subject: any expression
/// over those names that neither is a name itself nor leaves the loop.
pub open spec fn abstracted(binding: Binding, subject: Term, pattern: Term) -> (bool, Binding) {
    if subject.shape is Local || subject.shape is Free || interrupts(subject) || exists|i: int|
        1 <= i < pattern.parts.len() && !argument_mentioned(
            binding,
            subject,
            #[trigger] pattern.parts[i],
        ) {
        (false, binding)
    } else {
        match pattern.parts[0].shape {
            Shape::Free(hole) => hole_bound(binding, hole, subject),
            _ => (false, binding),
        }
    }
}

/// The pattern that names the elements of a walk.
pub open spec fn walk_item(shape: Shape) -> Option<PatternTerm> {
    match shape {
        Shape::Traverse(item, _)
        | Shape::Transform(item)
        | Shape::Sift(item)
        | Shape::Retain(item) => Some(item),
        _ => None,
    }
}

/// Whether two walks are of one kind and run the same way.
pub open spec fn same_walk(subject: Shape, pattern: Shape) -> bool {
    match (subject, pattern) {
        (Shape::Traverse(_, subject), Shape::Traverse(_, pattern)) => subject == pattern,
        (Shape::Transform(_), Shape::Transform(_)) => true,
        (Shape::Sift(_), Shape::Sift(_)) => true,
        (Shape::Retain(_), Shape::Retain(_)) => true,
        _ => false,
    }
}

/// Whether two collections gather into the same container, where both say
/// which: an inferred container matches a named one.
pub open spec fn same_container(subject: Option<Seq<char>>, pattern: Option<Seq<char>>) -> bool {
    subject == pattern || subject is None || pattern is None
}

/// Whether a subject is an instance of a pattern, given what is bound already,
/// and what is bound afterwards.
pub open spec fn matched(binding: Binding, subject: Term, pattern: Term) -> (bool, Binding)
    decreases pattern, 3nat, 0nat, 0nat,
{
    match pattern.shape {
        Shape::Free(index) => hole_bound(binding, index, subject),
        _ => {
            let (fits, next) = structural(binding, subject, pattern);
            if fits || !is_applied_hole(pattern) {
                (fits, next)
            } else {
                abstracted(binding, subject, pattern)
            }
        },
    }
}

/// Whether the first few terms are instances of the first few patterns, and the
/// rest as well where there are equally many.
pub open spec fn headed(
    binding: Binding,
    subjects: Seq<Term>,
    patterns: Seq<Term>,
    head: nat,
) -> (bool, Binding)
    decreases patterns, 1nat, 0nat, 0nat,
{
    if subjects.len() < head || patterns.len() < head {
        (false, binding)
    } else {
        let (fits, next) = matched_between(binding, subjects, patterns, 0, head as int);
        if fits && subjects.len() == patterns.len() {
            matched_between(next, subjects, patterns, head as int, patterns.len() as int)
        } else {
            (false, next)
        }
    }
}

/// Whether terms are instances of patterns between two places, one by one.
pub open spec fn matched_between(
    binding: Binding,
    subjects: Seq<Term>,
    patterns: Seq<Term>,
    i: int,
    end: int,
) -> (bool, Binding)
    decreases patterns, 0nat, end - i, 0nat,
{
    if i < 0 || i >= end || i >= patterns.len() {
        (true, binding)
    } else {
        let (fits, next) = matched(binding, subjects[i], patterns[i]);
        if fits {
            matched_between(next, subjects, patterns, i + 1, end)
        } else {
            (false, next)
        }
    }
}

/// Whether a walk's body is an instance of the pattern's, or performs it among
/// other steps.
pub open spec fn body_matched(binding: Binding, subject: Term, pattern: Term) -> (bool, Binding)
    decreases pattern, 6nat, 0nat, 0nat,
{
    let (fits, next) = matched(binding, subject, pattern);
    if fits {
        (true, next)
    } else {
        fused_matched(next, subject, pattern)
    }
}

/// Whether a traversal body performs the pattern's body among other steps.
pub open spec fn fused_matched(binding: Binding, subject: Term, pattern: Term) -> (bool, Binding)
    decreases pattern, 5nat, 0nat, 0nat,
{
    if !binding.fused || subject.shape !is Sequence || any_interrupts(subject.parts) {
        (false, binding)
    } else {
        any_matched(binding, subject.parts, pattern, 0)
    }
}

/// Whether one of several steps is an instance of a pattern.
pub open spec fn any_matched(
    binding: Binding,
    steps: Seq<Term>,
    pattern: Term,
    i: int,
) -> (bool, Binding)
    decreases pattern, 4nat, steps.len() - i, 0nat,
{
    if i < 0 || i >= steps.len() {
        (false, binding)
    } else {
        let (fits, next) = matched(binding, steps[i], pattern);
        if fits {
            (true, next)
        } else {
            any_matched(next, steps, pattern, i + 1)
        }
    }
}

/// Whether each of a decision's arms, from one on, is matched by a distinct arm
/// of the subject that is not taken.
pub open spec fn arms_matched(
    binding: Binding,
    subject: Term,
    subject_patterns: Seq<PatternTerm>,
    pattern: Term,
    patterns: Seq<PatternTerm>,
    k: int,
    taken: Seq<int>,
) -> (bool, Binding)
    decreases pattern, 1nat, patterns.len() - k, 2 * subject_patterns.len() + 2,
{
    if k < 0 || k >= patterns.len() || k + 1 >= pattern.parts.len() {
        (true, binding)
    } else {
        arm_tried(binding, subject, subject_patterns, pattern, patterns, k, taken, 0)
    }
}

/// Whether an arm is matched by an arm of the subject from one on, with the
/// arms after it matched as well.
pub open spec fn arm_tried(
    binding: Binding,
    subject: Term,
    subject_patterns: Seq<PatternTerm>,
    pattern: Term,
    patterns: Seq<PatternTerm>,
    k: int,
    taken: Seq<int>,
    i: int,
) -> (bool, Binding)
    decreases pattern, 1nat, patterns.len() - k, 2 * (subject_patterns.len() - i) + 1,
{
    if i < 0 || i >= subject_patterns.len() {
        (false, binding)
    } else {
        match arm_fitted(
            binding,
            subject,
            subject_patterns,
            pattern,
            patterns,
            k,
            taken,
            i,
        ) {
            Some(next) => (true, next),
            None => arm_tried(
                binding,
                subject,
                subject_patterns,
                pattern,
                patterns,
                k,
                taken,
                i + 1,
            ),
        }
    }
}

/// What is bound once an arm is matched by one arm of the subject, and the arms
/// after it are matched as well.
pub open spec fn arm_fitted(
    binding: Binding,
    subject: Term,
    subject_patterns: Seq<PatternTerm>,
    pattern: Term,
    patterns: Seq<PatternTerm>,
    k: int,
    taken: Seq<int>,
    i: int,
) -> Option<Binding>
    decreases pattern, 1nat, patterns.len() - k, 2 * (subject_patterns.len() - i),
{
    if i < 0 || i >= subject_patterns.len() || i + 1 >= subject.parts.len() || k < 0 || k
        >= patterns.len() || k + 1 >= pattern.parts.len() {
        None
    } else {
        let body = subject.parts[i + 1];
        let wanted = pattern.parts[k + 1];
        let (named, first) = arm_matched(binding, subject_patterns[i], patterns[k]);
        let (fits, second) = matched(first, body, wanted);
        let (rest, third) = arms_matched(
            second,
            subject,
            subject_patterns,
            pattern,
            patterns,
            k + 1,
            taken.push(i),
        );
        if !taken.contains(i) && interrupts(body) == interrupts(wanted) && named && fits && rest {
            Some(third)
        } else {
            None
        }
    }
}

/// Whether a subject has the pattern's shape, and its parts are instances of
/// the pattern's parts.
pub open spec fn structural(binding: Binding, subject: Term, pattern: Term) -> (bool, Binding)
    decreases pattern, 2nat, 0nat, 0nat,
{
    match (subject.shape, pattern.shape) {
        (Shape::Local(subject), Shape::Local(pattern)) => local_bound(binding, pattern, subject),
        (Shape::Traverse(subject_item, _), Shape::Traverse(pattern_item, _))
        | (Shape::Transform(subject_item), Shape::Transform(pattern_item))
        | (Shape::Sift(subject_item), Shape::Sift(pattern_item))
        | (Shape::Retain(subject_item), Shape::Retain(pattern_item)) => if same_walk(
            subject.shape,
            pattern.shape,
        ) && subject.parts.len() == 2 && pattern.parts.len() == 2 {
            let (walked, first) = matched(binding, subject.parts[0], pattern.parts[0]);
            let (named, second) = pattern_matched(first, subject_item, pattern_item);
            if !walked {
                (false, first)
            } else if !named {
                (false, second)
            } else {
                body_matched(second, subject.parts[1], pattern.parts[1])
            }
        } else {
            (false, binding)
        },
        (
            Shape::Pairwise(subject_left, subject_right, subject_coverage),
            Shape::Pairwise(pattern_left, pattern_right, pattern_coverage),
        ) => if subject_coverage == pattern_coverage && subject.parts.len() == 2
            && pattern.parts.len() == 2 {
            let (walked, first) = matched(binding, subject.parts[0], pattern.parts[0]);
            let (named, second) = patterns_matched(
                first,
                seq![subject_left, subject_right],
                seq![pattern_left, pattern_right],
                0,
            );
            if !walked {
                (false, first)
            } else if !named {
                (false, second)
            } else {
                body_matched(second, subject.parts[1], pattern.parts[1])
            }
        } else {
            (false, binding)
        },
        (
            Shape::Accumulate(subject_accumulator, subject_item),
            Shape::Accumulate(pattern_accumulator, pattern_item),
        ) => if subject.parts.len() == 3 && pattern.parts.len() == 3 {
            let (started, first) = matched_between(binding, subject.parts, pattern.parts, 0, 2);
            let (named, second) = patterns_matched(
                first,
                seq![subject_accumulator, subject_item],
                seq![pattern_accumulator, pattern_item],
                0,
            );
            if !started {
                (false, first)
            } else if !named {
                (false, second)
            } else {
                matched(second, subject.parts[2], pattern.parts[2])
            }
        } else {
            (false, binding)
        },
        (Shape::Collect(subject_container), Shape::Collect(pattern_container)) => if same_container(
            subject_container,
            pattern_container,
        ) && subject.parts.len() == pattern.parts.len() {
            matched_between(
                binding,
                subject.parts,
                pattern.parts,
                0,
                pattern.parts.len() as int,
            )
        } else {
            (false, binding)
        },
        (Shape::Lambda(subject_parameters), Shape::Lambda(pattern_parameters)) =>
            if subject_parameters.len() == pattern_parameters.len() && subject.parts.len()
                == pattern.parts.len() {
                let (named, first) = patterns_matched(
                    binding,
                    subject_parameters,
                    pattern_parameters,
                    0,
                );
                if named {
                    matched_between(
                first,
                subject.parts,
                pattern.parts,
                0,
                pattern.parts.len() as int,
            )
                } else {
                    (false, first)
                }
            } else {
                (false, binding)
            },
        (Shape::Let(subject_binding), Shape::Let(pattern_binding)) => if subject.parts.len()
            == pattern.parts.len() {
            let (fits, first) = matched_between(
                binding,
                subject.parts,
                pattern.parts,
                0,
                pattern.parts.len() as int,
            );
            if fits {
                pattern_matched(first, subject_binding, pattern_binding)
            } else {
                (false, first)
            }
        } else {
            (false, binding)
        },
        (Shape::Branch, Shape::Branch) => headed(binding, subject.parts, pattern.parts, 2),
        (Shape::Method(subject_name), Shape::Method(pattern_name)) => if subject_name
            == pattern_name {
            headed(binding, subject.parts, pattern.parts, 1)
        } else {
            (false, binding)
        },
        (Shape::Call, Shape::Call) => headed(binding, subject.parts, pattern.parts, 1),
        (Shape::Select(subject_patterns), Shape::Select(patterns)) => if subject_patterns.len()
            >= patterns.len() && subject.parts.len() > 0 && pattern.parts.len() > 0 {
            let (fits, first) = matched(binding, subject.parts[0], pattern.parts[0]);
            if fits {
                arms_matched(
                    first,
                    subject,
                    subject_patterns,
                    pattern,
                    patterns,
                    0,
                    Seq::empty(),
                )
            } else {
                (false, first)
            }
        } else {
            (false, binding)
        },
        _ => if subject.shape == pattern.shape && subject.parts.len() == pattern.parts.len() {
            matched_between(
                binding,
                subject.parts,
                pattern.parts,
                0,
                pattern.parts.len() as int,
            )
        } else {
            (false, binding)
        },
    }
}

/// What holes stand for, as terms.
pub open spec fn hole_terms(holes: Seq<(u32, Form)>) -> Seq<(u32, Term)> {
    Seq::new(holes.len(), |i: int| (holes[i].0, holes[i].1@))
}

/// Resolves a pattern against a subject, remembering what each role stands for.
///
/// A pattern's free variables are holes that match any subterm; its locals must
/// line up with the subject's locals one-for-one. Both are recorded so that a
/// role used twice has to mean the same thing twice.
pub struct Bindings {
    holes: Vec<(u32, Form)>,
    locals: Vec<(u32, u32)>,
    fused: bool,
}

impl View for Bindings {
    type V = Binding;

    closed spec fn view(&self) -> Binding {
        Binding { holes: hole_terms(self.holes@), locals: self.locals@, fused: self.fused }
    }
}

/// Whether a kind of syntax stops or diverts iteration.
fn kind_interrupts(kind: &str) -> (interrupts: bool)
    ensures
        interrupts == is_interrupting(kind@),
{
    same_text(kind, "break_expression") || same_text(kind, "continue_expression") || same_text(
        kind,
        "try_expression",
    ) || same_text(kind, "macro:panic") || same_text(kind, "macro:unreachable") || same_text(
        kind,
        "macro:todo",
    ) || same_text(kind, "macro:unimplemented") || same_text(kind, "macro:abort") || same_text(
        kind,
        "macro:assert",
    ) || same_text(kind, "macro:assert_eq") || same_text(kind, "macro:assert_ne")
}

impl Form {
    /// Whether a form stops or diverts iteration.
    ///
    /// A traversal containing one of these does not visit every element, so it
    /// cannot stand in for a library operation that does.
    fn interrupts_iteration(&self) -> (interrupting: bool)
        ensures
            interrupting == interrupts(self@),
        decreases self@,
    {
        match self {
            Form::Opaque { kind, .. } => {
                return kind_interrupts(kind.as_str());
            },
            Form::Return(_) => {
                return true;
            },
            _ => {},
        }
        let children = self.children();
        for i in 0..children.len()
            invariant
                self@.shape !is Opaque,
                self@.shape !is Return,
                children@.len() == self@.parts.len(),
                forall|i: int|
                    0 <= i < children@.len() ==> (#[trigger] children@[i])@ == self@.parts[i],
                forall|j: int| 0 <= j < i ==> !interrupts(#[trigger] self@.parts[j]),
        {
            proof {
                lemma_part_smaller(self@, i as int);
            }
            if children[i].interrupts_iteration() {
                assert(interrupts(self@.parts[i as int]));
                return true;
            }
        }
        false
    }
}

/// Whether a pattern is a hole applied to names, rather than a call to one.
fn applied_hole(pattern: &Form) -> (applied: bool)
    ensures
        applied == is_applied_hole(pattern@),
{
    match pattern {
        Form::Call { callee, arguments } => {
            assert(pattern@.parts[0] == callee@);
            assert(form_terms(arguments@).len() == arguments@.len());
            match &**callee {
                Form::Free(_) => arguments.len() > 0,
                _ => false,
            }
        },
        _ => false,
    }
}

/// The sequence, element pattern and body of a walk.
fn walk_of(form: &Form) -> (walk: Option<(&Form, &Pattern, &Form)>)
    ensures
        match walk {
            Some((sequence, item, body)) => walk_item(form@.shape) == Some(item@) && form@.parts
                == seq![sequence@, body@],
            None => walk_item(form@.shape) is None,
        },
{
    match form {
        Form::Traverse { sequence, item, body, .. }
        | Form::Transform { sequence, item, body }
        | Form::Sift { sequence, item, body }
        | Form::Retain { sequence, item, body } => Some((&**sequence, &**item, &**body)),
        _ => None,
    }
}

/// Whether two walks are of one kind and run the same way.
fn walks_alike(subject: &Form, pattern: &Form) -> (alike: bool)
    ensures
        alike == same_walk(subject@.shape, pattern@.shape),
{
    match (subject, pattern) {
        (Form::Traverse { direction: subject, .. }, Form::Traverse { direction: pattern, .. }) =>
            *subject == *pattern,
        (Form::Transform { .. }, Form::Transform { .. }) => true,
        (Form::Sift { .. }, Form::Sift { .. }) => true,
        (Form::Retain { .. }, Form::Retain { .. }) => true,
        _ => false,
    }
}

impl Bindings {
    /// A fresh set of bindings, told whether to accept work done alongside the
    /// pattern rather than only the pattern itself.
    pub fn with_fusion(fused: bool) -> (bindings: Bindings)
        ensures
            bindings@ == (Binding { holes: Seq::empty(), locals: Seq::empty(), fused }),
    {
        let bindings = Bindings { holes: Vec::new(), locals: Vec::new(), fused };
        assert(hole_terms(bindings.holes@) =~= Seq::empty());
        bindings
    }

    /// The same bindings again.
    fn copied(&self) -> (copy: Bindings)
        ensures
            copy@ == self@,
    {
        let mut holes: Vec<(u32, Form)> = Vec::new();
        for i in 0..self.holes.len()
            invariant
                hole_terms(holes@) == hole_terms(self.holes@).take(i as int),
        {
            let ghost before = holes@;
            holes.push((self.holes[i].0, self.holes[i].1.clone()));
            assert(hole_terms(holes@) =~= hole_terms(before).push(
                hole_terms(self.holes@)[i as int],
            ));
            assert(hole_terms(self.holes@).take(i + 1) =~= hole_terms(self.holes@).take(
                i as int,
            ).push(hole_terms(self.holes@)[i as int]));
        }
        let mut locals: Vec<(u32, u32)> = Vec::new();
        for i in 0..self.locals.len()
            invariant
                locals@ == self.locals@.take(i as int),
        {
            locals.push(self.locals[i]);
            assert(self.locals@.take(i + 1) =~= self.locals@.take(i as int).push(
                self.locals@[i as int],
            ));
        }
        assert(hole_terms(self.holes@).take(self.holes@.len() as int) =~= hole_terms(self.holes@));
        assert(self.locals@.take(self.locals@.len() as int) =~= self.locals@);
        Bindings { holes, locals, fused: self.fused }
    }

    /// Records what a hole stands for, or tells whether it stands for this.
    fn bind_hole(&mut self, index: u32, subject: &Form) -> (fits: bool)
        ensures
            (fits, final(self)@) == hole_bound(old(self)@, index, subject@),
    {
        let ghost before = self@;
        for i in 0..self.holes.len()
            invariant
                self@ == before,
                before.holes == hole_terms(self.holes@),
                hole_of(before.holes, index, 0) == hole_of(before.holes, index, i as int),
        {
            if self.holes[i].0 == index {
                return self.holes[i].1 == *subject;
            }
        }
        let ghost list = self.holes@;
        self.holes.push((index, subject.clone()));
        assert(hole_terms(self.holes@) =~= hole_terms(list).push((index, subject@)));
        true
    }

    /// Which local of the subject a local of the pattern stands for.
    fn bound_local(&self, pattern: u32) -> (bound: Option<u32>)
        ensures
            bound == local_of(self@.locals, pattern, 0),
    {
        for i in 0..self.locals.len()
            invariant
                local_of(self.locals@, pattern, 0) == local_of(self.locals@, pattern, i as int),
        {
            if self.locals[i].0 == pattern {
                return Some(self.locals[i].1);
            }
        }
        None
    }

    /// Records which local of the subject a local of the pattern stands for.
    fn bind_local(&mut self, pattern: u32, subject: u32) -> (fits: bool)
        ensures
            (fits, final(self)@) == local_bound(old(self)@, pattern, subject),
    {
        if let Some(bound) = self.bound_local(pattern) {
            return bound == subject;
        }
        // a local is a one-to-one correspondence, so a subject local that is
        // already spoken for cannot stand for a second pattern local
        for i in 0..self.locals.len()
            invariant
                self@ == old(self)@,
                local_of(self@.locals, pattern, 0) is None,
                forall|j: int| 0 <= j < i ==> (#[trigger] self.locals@[j]).1 != subject,
        {
            if self.locals[i].1 == subject {
                assert(is_taken(self@.locals, subject)) by {
                    assert(self@.locals[i as int].1 == subject);
                }
                return false;
            }
        }
        self.locals.push((pattern, subject));
        true
    }

    /// Whether a subject's pattern introduces what the pattern's introduces.
    fn pattern(&mut self, subject: &Pattern, pattern: &Pattern) -> (fits: bool)
        ensures
            (fits, final(self)@) == pattern_matched(old(self)@, subject@, pattern@),
        decreases pattern@, 0nat,
    {
        proof {
            assert(decreases_to!(pattern@ => pattern@.parts));
        }
        match (subject, pattern) {
            (Pattern::Binding(subject), Pattern::Binding(pattern)) => self.bind_local(
                *pattern,
                *subject,
            ),
            (Pattern::Ignored, Pattern::Ignored) => true,
            (
                Pattern::Variant { name: subject_name, parts: subject_parts },
                Pattern::Variant { name: pattern_name, parts: pattern_parts },
            ) => {
                assert(pattern_terms(subject_parts@).len() == subject_parts@.len());
                assert(pattern_terms(pattern_parts@).len() == pattern_parts@.len());
                same_text(subject_name.as_str(), pattern_name.as_str()) && subject_parts.len()
                    == pattern_parts.len() && self.patterns(subject_parts, pattern_parts)
            },
            (Pattern::Tuple(subject_parts), Pattern::Tuple(pattern_parts)) => {
                assert(pattern_terms(subject_parts@).len() == subject_parts@.len());
                assert(pattern_terms(pattern_parts@).len() == pattern_parts@.len());
                subject_parts.len() == pattern_parts.len() && self.patterns(
                    subject_parts,
                    pattern_parts,
                )
            },
            _ => false,
        }
    }

    /// Whether several patterns introduce the same, one by one.
    fn patterns(&mut self, subjects: &Vec<Pattern>, patterns: &Vec<Pattern>) -> (fits: bool)
        requires
            subjects@.len() == patterns@.len(),
        ensures
            (fits, final(self)@) == patterns_matched(
                old(self)@,
                pattern_terms(subjects@),
                pattern_terms(patterns@),
                0,
            ),
        decreases pattern_terms(patterns@), patterns@.len(),
    {
        let ghost before = self@;
        let ghost subject_terms = pattern_terms(subjects@);
        let ghost terms = pattern_terms(patterns@);
        for i in 0..patterns.len()
            invariant
                before == old(self)@,
                subjects@.len() == patterns@.len(),
                subject_terms == pattern_terms(subjects@),
                terms == pattern_terms(patterns@),
                patterns_matched(before, subject_terms, terms, 0) == patterns_matched(
                    self@,
                    subject_terms,
                    terms,
                    i as int,
                ),
        {
            proof {
                assert(decreases_to!(terms => terms[i as int]));
                assert(terms[i as int] == patterns@[i as int]@);
                assert(subject_terms[i as int] == subjects@[i as int]@);
            }
            if !self.pattern(&subjects[i], &patterns[i]) {
                return false;
            }
        }
        true
    }

    /// Whether two pairs of patterns introduce the same, one by one.
    fn both_patterns(
        &mut self,
        subject_first: &Pattern,
        subject_second: &Pattern,
        first: &Pattern,
        second: &Pattern,
    ) -> (fits: bool)
        ensures
            (fits, final(self)@) == patterns_matched(
                old(self)@,
                seq![subject_first@, subject_second@],
                seq![first@, second@],
                0,
            ),
    {
        proof {
            reveal_with_fuel(patterns_matched, 4);
        }
        self.pattern(subject_first, first) && self.pattern(subject_second, second)
    }

    /// Whether a subject arm decides the case the pattern arm names.
    fn arm_pattern(&mut self, subject: &Pattern, pattern: &Pattern) -> (fits: bool)
        ensures
            (fits, final(self)@) == arm_matched(old(self)@, subject@, pattern@),
    {
        if let (Pattern::Ignored, Pattern::Variant { .. }) = (subject, pattern) {
            return true;
        }
        self.pattern(subject, pattern)
    }

    /// Whether a hole applied to bound names describes this subject.
    ///
    /// `f(item)` in a derived behavior does not name a call: it names whatever
    /// a caller does with the item, and any expression over that item is an
    /// instance of it.
    fn abstraction(&mut self, subject: &Form, pattern: &Form) -> (fits: bool)
        requires
            is_applied_hole(pattern@),
        ensures
            (fits, final(self)@) == abstracted(old(self)@, subject@, pattern@),
    {
        let (callee, arguments) = match pattern {
            Form::Call { callee, arguments } => (callee, arguments),
            _ => {
                return false;
            },
        };
        assert(pattern@.parts[0] == callee@);
        assert(form_terms(arguments@).len() == arguments@.len());
        let hole: u32 = match &**callee {
            Form::Free(hole) => *hole,
            _ => {
                return false;
            },
        };
        match subject {
            // an argument standing for the whole expression says nothing
            Form::Local(_) | Form::Free(_) => {
                return false;
            },
            _ => {},
        }
        if subject.interrupts_iteration() {
            return false;
        }
        for i in 0..arguments.len()
            invariant
                self@ == old(self)@,
                pattern@.parts == seq![callee@] + form_terms(arguments@),
                form_terms(arguments@).len() == arguments@.len(),
                forall|j: int|
                    1 <= j < i + 1 ==> argument_mentioned(
                        self@,
                        subject@,
                        #[trigger] pattern@.parts[j],
                    ),
        {
            assert(form_terms(arguments@)[i as int] == arguments@[i as int]@);
            assert(pattern@.parts[i + 1] == arguments@[i as int]@);
            let mentioned = match &arguments[i] {
                Form::Local(index) => match self.bound_local(*index) {
                    Some(bound) => subject.references_local(bound),
                    None => false,
                },
                _ => false,
            };
            if !mentioned {
                assert(!argument_mentioned(self@, subject@, pattern@.parts[i + 1]));
                return false;
            }
        }
        self.bind_hole(hole, subject)
    }

    /// Whether a subject is an instance of a pattern.
    ///
    /// The structural reading of an applied hole is the more precise one, so it
    /// goes first.
    pub fn form(&mut self, subject: &Form, pattern: &Form) -> (fits: bool)
        ensures
            (fits, final(self)@) == matched(old(self)@, subject@, pattern@),
        decreases pattern@, 3nat, 0nat, 0nat,
    {
        if let Form::Free(index) = pattern {
            return self.bind_hole(*index, subject);
        }
        if applied_hole(pattern) {
            let mut trial = self.copied();
            if trial.structural(subject, pattern) {
                *self = trial;
                return true;
            }
            return self.abstraction(subject, pattern);
        }
        self.structural(subject, pattern)
    }

    /// Whether forms are instances of patterns between two places, one by one.
    fn between(
        &mut self,
        subjects: &Vec<&Form>,
        patterns: &Vec<&Form>,
        start: usize,
        end: usize,
    ) -> (fits: bool)
        requires
            start <= end <= patterns@.len(),
            end <= subjects@.len(),
        ensures
            (fits, final(self)@) == matched_between(
                old(self)@,
                borrowed_terms(subjects@),
                borrowed_terms(patterns@),
                start as int,
                end as int,
            ),
        decreases borrowed_terms(patterns@), 0nat, end - start, 0nat,
    {
        let ghost before = self@;
        let ghost subject_terms = borrowed_terms(subjects@);
        let ghost terms = borrowed_terms(patterns@);
        for i in start..end
            invariant
                start <= end <= patterns@.len(),
                end <= subjects@.len(),
                before == old(self)@,
                subject_terms == borrowed_terms(subjects@),
                terms == borrowed_terms(patterns@),
                matched_between(before, subject_terms, terms, start as int, end as int)
                    == matched_between(self@, subject_terms, terms, i as int, end as int),
        {
            proof {
                assert(decreases_to!(terms => terms[i as int]));
                assert(terms[i as int] == patterns@[i as int]@);
                assert(subject_terms[i as int] == subjects@[i as int]@);
            }
            if !self.form(subjects[i], patterns[i]) {
                return false;
            }
        }
        true
    }

    /// Whether the first few child forms match, and the rest as well where
    /// there are equally many.
    fn headed(
        &mut self,
        subjects: &Vec<&Form>,
        patterns: &Vec<&Form>,
        head: usize,
    ) -> (fits: bool)
        ensures
            (fits, final(self)@) == headed(
                old(self)@,
                borrowed_terms(subjects@),
                borrowed_terms(patterns@),
                head as nat,
            ),
        decreases borrowed_terms(patterns@), 1nat, 0nat, 0nat,
    {
        if subjects.len() < head || patterns.len() < head {
            return false;
        }
        self.between(subjects, patterns, 0, head) && subjects.len() == patterns.len()
            && self.between(subjects, patterns, head, patterns.len())
    }

    /// Whether a walk's body matches the pattern's, or performs it among other
    /// steps.
    fn body(&mut self, subject: &Form, pattern: &Form) -> (fits: bool)
        ensures
            (fits, final(self)@) == body_matched(old(self)@, subject@, pattern@),
        decreases pattern@, 6nat, 0nat, 0nat,
    {
        self.form(subject, pattern) || self.fused_body(subject, pattern)
    }

    /// Whether a traversal body performs the pattern's body among other steps.
    fn fused_body(&mut self, subject: &Form, pattern: &Form) -> (fits: bool)
        ensures
            (fits, final(self)@) == fused_matched(old(self)@, subject@, pattern@),
        decreases pattern@, 5nat, 0nat, 0nat,
    {
        if !self.fused {
            return false;
        }
        let steps = match subject {
            Form::Sequence(steps) => steps,
            _ => {
                return false;
            },
        };
        let ghost terms = form_terms(steps@);
        assert(subject@.parts == terms && terms.len() == steps@.len());
        for i in 0..steps.len()
            invariant
                self@ == old(self)@,
                subject@.parts == terms,
                subject@.shape is Sequence,
                terms == form_terms(steps@),
                forall|j: int| 0 <= j < i ==> !interrupts(#[trigger] terms[j]),
        {
            assert(terms[i as int] == steps@[i as int]@);
            if steps[i].interrupts_iteration() {
                assert(interrupts(terms[i as int]));
                assert(any_interrupts(subject@.parts));
                return false;
            }
        }
        assert(!any_interrupts(subject@.parts));
        for i in 0..steps.len()
            invariant
                subject@.parts == terms,
                terms == form_terms(steps@),
                subject@.shape is Sequence,
                old(self)@.fused,
                !any_interrupts(subject@.parts),
                any_matched(old(self)@, terms, pattern@, 0) == any_matched(
                    self@,
                    terms,
                    pattern@,
                    i as int,
                ),
        {
            assert(terms[i as int] == steps@[i as int]@);
            if self.form(&steps[i], pattern) {
                return true;
            }
        }
        false
    }

    /// Match each of the pattern's arms to a distinct arm of the subject.
    ///
    /// Both sides are sorted, but they do not line up: a library that names
    /// `None` and code that writes `_` in the same position sort differently,
    /// so this pairs arms rather than walking them in step.
    fn arms_from(
        &mut self,
        subject: &Vec<Arm>,
        pattern: &Vec<Arm>,
        k: usize,
        taken: &Vec<usize>,
        subject_form: Ghost<Term>,
        pattern_form: Ghost<Term>,
    ) -> (fits: bool)
        requires
            k <= pattern@.len(),
            subject_form@.parts.len() == subject@.len() + 1,
            subject_form@.parts.drop_first() == arm_bodies(subject@),
            pattern_form@.parts.len() == pattern@.len() + 1,
            pattern_form@.parts.drop_first() == arm_bodies(pattern@),
        ensures
            (fits, final(self)@) == arms_matched(
                old(self)@,
                subject_form@,
                arm_patterns(subject@),
                pattern_form@,
                arm_patterns(pattern@),
                k as int,
                places(taken@),
            ),
        decreases pattern_form@, 1nat, pattern@.len() - k, 2 * subject@.len() + 2,
    {
        if k == pattern.len() {
            return true;
        }
        let ghost subject_patterns = arm_patterns(subject@);
        let ghost patterns = arm_patterns(pattern@);
        for i in 0..subject.len()
            invariant
                self@ == old(self)@,
                k < pattern@.len(),
                subject_patterns == arm_patterns(subject@),
                patterns == arm_patterns(pattern@),
                subject_form@.parts.len() == subject@.len() + 1,
                subject_form@.parts.drop_first() == arm_bodies(subject@),
                pattern_form@.parts.len() == pattern@.len() + 1,
                pattern_form@.parts.drop_first() == arm_bodies(pattern@),
                arms_matched(
                    old(self)@,
                    subject_form@,
                    subject_patterns,
                    pattern_form@,
                    patterns,
                    k as int,
                    places(taken@),
                ) == arm_tried(
                    old(self)@,
                    subject_form@,
                    subject_patterns,
                    pattern_form@,
                    patterns,
                    k as int,
                    places(taken@),
                    i as int,
                ),
        {
            if let Some(trial) = self.arm_at(
                subject,
                pattern,
                k,
                i,
                taken,
                subject_form,
                pattern_form,
            ) {
                *self = trial;
                return true;
            }
        }
        false
    }

    /// What is bound once one arm of the subject stands for an arm of the
    /// pattern, and the pattern's arms after it are matched as well.
    fn arm_at(
        &self,
        subject: &Vec<Arm>,
        pattern: &Vec<Arm>,
        k: usize,
        i: usize,
        taken: &Vec<usize>,
        subject_form: Ghost<Term>,
        pattern_form: Ghost<Term>,
    ) -> (trial: Option<Bindings>)
        requires
            k < pattern@.len(),
            i < subject@.len(),
            subject_form@.parts.len() == subject@.len() + 1,
            subject_form@.parts.drop_first() == arm_bodies(subject@),
            pattern_form@.parts.len() == pattern@.len() + 1,
            pattern_form@.parts.drop_first() == arm_bodies(pattern@),
        ensures
            bound_view(trial) == arm_fitted(
                self@,
                subject_form@,
                arm_patterns(subject@),
                pattern_form@,
                arm_patterns(pattern@),
                k as int,
                places(taken@),
                i as int,
            ),
        decreases pattern_form@, 1nat, pattern@.len() - k, 2 * (subject@.len() - i),
    {
        let candidate = &subject[i];
        let wanted = &pattern[k];
        proof {
            lemma_part_smaller(pattern_form@, k + 1);
            assert(pattern_form@.parts.drop_first()[k as int] == pattern_form@.parts[k + 1]);
            assert(arm_bodies(pattern@)[k as int] == wanted.body@);
            assert(arm_patterns(pattern@)[k as int] == wanted.pattern@);
            assert(subject_form@.parts.drop_first()[i as int] == subject_form@.parts[i + 1]);
            assert(arm_bodies(subject@)[i as int] == candidate.body@);
            assert(arm_patterns(subject@)[i as int] == candidate.pattern@);
        }
        // An arm that leaves the function is not an arm that produces a value,
        // so it must not stand for one that does.
        if holds_place(taken, i) || candidate.body.interrupts_iteration()
            != wanted.body.interrupts_iteration() {
            return None;
        }
        let mut trial = self.copied();
        if !trial.arm_pattern(&candidate.pattern, &wanted.pattern) {
            return None;
        }
        if !trial.form(&candidate.body, &wanted.body) {
            return None;
        }
        let now_taken = with_place(taken, i);
        let count: usize = pattern.len();
        assert(k < count);
        if !trial.arms_from(subject, pattern, k + 1, &now_taken, subject_form, pattern_form) {
            return None;
        }
        Some(trial)
    }

    /// Whether a subject has the pattern's shape, and its parts match the
    /// pattern's parts.
    fn structural(&mut self, subject: &Form, pattern: &Form) -> (fits: bool)
        ensures
            (fits, final(self)@) == structural(old(self)@, subject@, pattern@),
        decreases pattern@, 2nat, 0nat, 0nat,
    {
        match pattern {
            Form::Local(pattern) => match subject {
                Form::Local(subject) => self.bind_local(*pattern, *subject),
                _ => false,
            },
            Form::Traverse { .. }
            | Form::Transform { .. }
            | Form::Sift { .. }
            | Form::Retain { .. } => self.walk(subject, pattern),
            Form::Pairwise { .. } => self.pairs(subject, pattern),
            Form::Accumulate { .. } => self.reduction(subject, pattern),
            Form::Collect { .. } => self.collection(subject, pattern),
            Form::Lambda { .. } => self.lambda(subject, pattern),
            Form::Let { .. } => self.naming(subject, pattern),
            Form::Branch { .. } => self.branch(subject, pattern),
            Form::Method { .. } => self.method(subject, pattern),
            Form::Call { .. } => self.call(subject, pattern),
            Form::Select { .. } => self.selection(subject, pattern),
            _ => self.plain(subject, pattern),
        }
    }

    /// Whether two walks over pairs match.
    fn pairs(&mut self, subject: &Form, pattern: &Form) -> (fits: bool)
        requires
            pattern@.shape is Pairwise,
        ensures
            (fits, final(self)@) == structural(old(self)@, subject@, pattern@),
        decreases pattern@, 1nat, 0nat, 0nat,
    {
        let subject_parts = subject.children();
        let pattern_parts = pattern.children();
        proof {
            assert(decreases_to!(pattern@ => pattern@.parts));
            lemma_part_smaller(pattern@, 0);
            lemma_part_smaller(pattern@, 1);
        }
        match (subject, pattern) {
            (
                Form::Pairwise {
                    left: subject_left,
                    right: subject_right,
                    coverage: subject_coverage,
                    ..
                },
                Form::Pairwise { left, right, coverage, .. },
            ) => {
                *subject_coverage == *coverage && self.form(subject_parts[0], pattern_parts[0])
                    && self.both_patterns(subject_left, subject_right, left, right) && self.body(
                    subject_parts[1],
                    pattern_parts[1],
                )
            },
            _ => false,
        }
    }

    /// Whether two reductions match.
    fn reduction(&mut self, subject: &Form, pattern: &Form) -> (fits: bool)
        requires
            pattern@.shape is Accumulate,
        ensures
            (fits, final(self)@) == structural(old(self)@, subject@, pattern@),
        decreases pattern@, 1nat, 0nat, 0nat,
    {
        let subject_parts = subject.children();
        let pattern_parts = pattern.children();
        proof {
            assert(decreases_to!(pattern@ => pattern@.parts));
            lemma_part_smaller(pattern@, 2);
        }
        match (subject, pattern) {
            (
                Form::Accumulate { accumulator: subject_accumulator, item: subject_item, .. },
                Form::Accumulate { accumulator, item, .. },
            ) => {
                self.between(&subject_parts, &pattern_parts, 0, 2) && self.both_patterns(
                    subject_accumulator,
                    subject_item,
                    accumulator,
                    item,
                ) && self.form(subject_parts[2], pattern_parts[2])
            },
            _ => false,
        }
    }

    /// Whether two collections match. An inferred container matches a named one:
    /// the language, not the author, decided whether the type had to be written.
    fn collection(&mut self, subject: &Form, pattern: &Form) -> (fits: bool)
        requires
            pattern@.shape is Collect,
        ensures
            (fits, final(self)@) == structural(old(self)@, subject@, pattern@),
        decreases pattern@, 1nat, 0nat, 0nat,
    {
        let subject_parts = subject.children();
        let pattern_parts = pattern.children();
        proof {
            assert(decreases_to!(pattern@ => pattern@.parts));
        }
        match (subject, pattern) {
            (Form::Collect { container: subject, .. }, Form::Collect { container, .. }) => {
                (same_optional_text(subject, container) || subject.is_none()
                    || container.is_none()) && self.between(
                    &subject_parts,
                    &pattern_parts,
                    0,
                    pattern_parts.len(),
                )
            },
            _ => false,
        }
    }

    /// Whether two lambdas match.
    fn lambda(&mut self, subject: &Form, pattern: &Form) -> (fits: bool)
        requires
            pattern@.shape is Lambda,
        ensures
            (fits, final(self)@) == structural(old(self)@, subject@, pattern@),
        decreases pattern@, 1nat, 0nat, 0nat,
    {
        let subject_parts = subject.children();
        let pattern_parts = pattern.children();
        proof {
            assert(decreases_to!(pattern@ => pattern@.parts));
        }
        match (subject, pattern) {
            (Form::Lambda { parameters: subject, .. }, Form::Lambda { parameters, .. }) => {
                assert(pattern_terms(subject@).len() == subject@.len());
                assert(pattern_terms(parameters@).len() == parameters@.len());
                subject.len() == parameters.len() && self.patterns(subject, parameters)
                    && self.between(&subject_parts, &pattern_parts, 0, pattern_parts.len())
            },
            _ => false,
        }
    }

    /// Whether two bindings match: the value before the name.
    fn naming(&mut self, subject: &Form, pattern: &Form) -> (fits: bool)
        requires
            pattern@.shape is Let,
        ensures
            (fits, final(self)@) == structural(old(self)@, subject@, pattern@),
        decreases pattern@, 1nat, 0nat, 0nat,
    {
        let subject_parts = subject.children();
        let pattern_parts = pattern.children();
        proof {
            assert(decreases_to!(pattern@ => pattern@.parts));
        }
        match (subject, pattern) {
            (Form::Let { pattern: subject, .. }, Form::Let { pattern, .. }) => {
                self.between(&subject_parts, &pattern_parts, 0, pattern_parts.len())
                    && self.pattern(subject, pattern)
            },
            _ => false,
        }
    }

    /// Whether two branches match, with an alternative on both sides or neither.
    fn branch(&mut self, subject: &Form, pattern: &Form) -> (fits: bool)
        requires
            pattern@.shape is Branch,
        ensures
            (fits, final(self)@) == structural(old(self)@, subject@, pattern@),
        decreases pattern@, 1nat, 0nat, 0nat,
    {
        let subject_parts = subject.children();
        let pattern_parts = pattern.children();
        proof {
            assert(decreases_to!(pattern@ => pattern@.parts));
        }
        match (subject, pattern) {
            (Form::Branch { .. }, Form::Branch { .. }) => {
                self.headed(&subject_parts, &pattern_parts, 2)
            },
            _ => false,
        }
    }

    /// Whether two method calls match.
    fn method(&mut self, subject: &Form, pattern: &Form) -> (fits: bool)
        requires
            pattern@.shape is Method,
        ensures
            (fits, final(self)@) == structural(old(self)@, subject@, pattern@),
        decreases pattern@, 1nat, 0nat, 0nat,
    {
        let subject_parts = subject.children();
        let pattern_parts = pattern.children();
        proof {
            assert(decreases_to!(pattern@ => pattern@.parts));
        }
        match (subject, pattern) {
            (Form::Method { name: subject, .. }, Form::Method { name, .. }) => {
                same_text(subject.as_str(), name.as_str()) && self.headed(
                    &subject_parts,
                    &pattern_parts,
                    1,
                )
            },
            _ => false,
        }
    }

    /// Whether two calls match.
    fn call(&mut self, subject: &Form, pattern: &Form) -> (fits: bool)
        requires
            pattern@.shape is Call,
        ensures
            (fits, final(self)@) == structural(old(self)@, subject@, pattern@),
        decreases pattern@, 1nat, 0nat, 0nat,
    {
        let subject_parts = subject.children();
        let pattern_parts = pattern.children();
        proof {
            assert(decreases_to!(pattern@ => pattern@.parts));
        }
        match (subject, pattern) {
            (Form::Call { .. }, Form::Call { .. }) => {
                self.headed(&subject_parts, &pattern_parts, 1)
            },
            _ => false,
        }
    }

    /// Whether two decisions match.
    fn selection(&mut self, subject: &Form, pattern: &Form) -> (fits: bool)
        requires
            pattern@.shape is Select,
        ensures
            (fits, final(self)@) == structural(old(self)@, subject@, pattern@),
        decreases pattern@, 1nat, pattern@.parts.len() + 1, 0nat,
    {
        match (subject, pattern) {
            (Form::Select { arms: subject_arms, .. }, Form::Select { arms, .. }) => {
                proof {
                    assert(arm_bodies(subject_arms@).len() == subject_arms@.len());
                    assert(arm_bodies(arms@).len() == arms@.len());
                    assert(subject@.parts.drop_first() =~= arm_bodies(subject_arms@));
                    assert(pattern@.parts.drop_first() =~= arm_bodies(arms@));
                }
                self.decision(subject, pattern, subject_arms, arms)
            },
            _ => false,
        }
    }

    /// Whether a subject has the very shape of a pattern, and its parts match
    /// the pattern's parts.
    fn plain(&mut self, subject: &Form, pattern: &Form) -> (fits: bool)
        requires
            is_plainly_matched(pattern@.shape),
        ensures
            (fits, final(self)@) == structural(old(self)@, subject@, pattern@),
        decreases pattern@, 1nat, 0nat, 0nat,
    {
        let subject_parts = subject.children();
        let pattern_parts = pattern.children();
        proof {
            assert(decreases_to!(pattern@ => pattern@.parts));
        }
        if !subject.same_shape(pattern) || subject_parts.len() != pattern_parts.len() {
            return false;
        }
        self.between(&subject_parts, &pattern_parts, 0, pattern_parts.len())
    }

    /// Whether two walks of one kind match.
    fn walk(&mut self, subject: &Form, pattern: &Form) -> (fits: bool)
        requires
            walk_item(pattern@.shape) is Some,
        ensures
            (fits, final(self)@) == structural(old(self)@, subject@, pattern@),
        decreases pattern@, 1nat, 0nat, 0nat,
    {
        match (walk_of(subject), walk_of(pattern)) {
            (
                Some((subject_sequence, subject_item, subject_body)),
                Some((sequence, item, body)),
            ) => {
                proof {
                    lemma_part_smaller(pattern@, 0);
                    lemma_part_smaller(pattern@, 1);
                    assert(pattern@.parts[0] == sequence@ && pattern@.parts[1] == body@);
                    assert(subject@.parts[0] == subject_sequence@);
                    assert(subject@.parts[1] == subject_body@);
                }
                walks_alike(subject, pattern) && self.form(subject_sequence, sequence)
                    && self.pattern(subject_item, item) && self.body(subject_body, body)
            },
            _ => false,
        }
    }

    /// Whether two decisions match.
    ///
    /// A subject may decide more cases than the pattern does, so the pattern's
    /// arms must be found among the subject's rather than exhaust them.
    fn decision(
        &mut self,
        subject: &Form,
        pattern: &Form,
        subject_arms: &Vec<Arm>,
        arms: &Vec<Arm>,
    ) -> (fits: bool)
        requires
            subject@.shape == Shape::Select(arm_patterns(subject_arms@)),
            pattern@.shape == Shape::Select(arm_patterns(arms@)),
            subject@.parts.len() == subject_arms@.len() + 1,
            subject@.parts.drop_first() == arm_bodies(subject_arms@),
            pattern@.parts.len() == arms@.len() + 1,
            pattern@.parts.drop_first() == arm_bodies(arms@),
        ensures
            (fits, final(self)@) == structural(old(self)@, subject@, pattern@),
        decreases pattern@, 1nat, arms@.len() + 1, 0nat,
    {
        let subject_parts = subject.children();
        let pattern_parts = pattern.children();
        proof {
            lemma_part_smaller(pattern@, 0);
            assert(arm_patterns(subject_arms@).len() == subject_arms@.len());
            assert(arm_patterns(arms@).len() == arms@.len());
        }
        let none: Vec<usize> = Vec::new();
        assert(places(none@) =~= Seq::empty());
        subject_arms.len() >= arms.len() && self.form(subject_parts[0], pattern_parts[0])
            && self.arms_from(subject_arms, arms, 0, &none, Ghost(subject@), Ghost(pattern@))
    }
}

/// What a trial has bound, where it succeeded.
pub open spec fn bound_view(trial: Option<Bindings>) -> Option<Binding> {
    match trial {
        Some(trial) => Some(trial@),
        None => None,
    }
}

/// Whether a shape is matched by having the same shape and matching parts.
spec fn is_plainly_matched(shape: Shape) -> bool {
    match shape {
        Shape::Local(_)
        | Shape::Pairwise(_, _, _)
        | Shape::Accumulate(_, _)
        | Shape::Collect(_)
        | Shape::Lambda(_)
        | Shape::Let(_)
        | Shape::Branch
        | Shape::Method(_)
        | Shape::Call
        | Shape::Select(_) => false,
        _ => walk_item(shape) is None,
    }
}

/// Places in a list, as numbers.
pub open spec fn places(list: Seq<usize>) -> Seq<int> {
    Seq::new(list.len(), |i: int| list[i] as int)
}

/// Whether a place is in a list.
fn holds_place(list: &Vec<usize>, place: usize) -> (held: bool)
    ensures
        held == places(list@).contains(place as int),
{
    let ghost all = places(list@);
    for i in 0..list.len()
        invariant
            all == places(list@),
            forall|j: int| 0 <= j < i ==> all[j] != place,
    {
        if list[i] == place {
            assert(all[i as int] == place);
            return true;
        }
    }
    false
}

/// A list with one more place.
fn with_place(list: &Vec<usize>, place: usize) -> (longer: Vec<usize>)
    ensures
        places(longer@) == places(list@).push(place as int),
{
    let mut longer: Vec<usize> = Vec::new();
    for i in 0..list.len()
        invariant
            longer@ == list@.take(i as int),
    {
        longer.push(list[i]);
        assert(list@.take(i + 1) =~= list@.take(i as int).push(list@[i as int]));
    }
    longer.push(place);
    assert(list@.take(list@.len() as int) =~= list@);
    assert(places(longer@) =~= places(list@).push(place as int));
    longer
}

/// Whether a term mentions anything a match has bound.
pub open spec fn is_touched(binding: Binding, term: Term) -> bool {
    exists|i: int|
        0 <= i < binding.locals.len() && mentions_local(term, (#[trigger] binding.locals[i]).1)
}

/// Whether any of the steps between two places mentions what is bound.
pub open spec fn any_touched(binding: Binding, steps: Seq<Term>, start: int, end: int) -> bool {
    exists|i: int| start <= i < end && is_touched(binding, #[trigger] steps[i])
}

/// Where the steps of a behavior are found among the steps of a body, from a
/// place on, and what is bound then.
///
/// Statements that leave the behavior alone are stepped over. Once something
/// touches what is already bound, the behavior is entangled with it and no
/// later position can undo that.
pub open spec fn trail(
    binding: Binding,
    haystack: Seq<Term>,
    steps: Seq<Term>,
    k: int,
    start: int,
    i: int,
) -> Option<(Binding, Seq<int>)>
    decreases steps.len() - k, haystack.len() - i,
{
    if k < 0 || k >= steps.len() {
        Some((binding, Seq::empty()))
    } else if i < 0 || i >= haystack.len() || any_touched(binding, haystack, start, i) {
        None
    } else {
        let (fits, next) = matched(binding, haystack[i], steps[k]);
        match trail(next, haystack, steps, k + 1, i + 1, i + 1) {
            Some((last, rest)) if fits => Some((last, seq![i] + rest)),
            _ => trail(binding, haystack, steps, k, start, i + 1),
        }
    }
}

impl Bindings {
    /// Whether a form mentions anything this match has bound.
    fn touches(&self, form: &Form) -> (touched: bool)
        ensures
            touched == is_touched(self@, form@),
    {
        for i in 0..self.locals.len()
            invariant
                forall|j: int|
                    0 <= j < i ==> !mentions_local(form@, (#[trigger] self@.locals[j]).1),
        {
            assert(self@.locals[i as int] == self.locals@[i as int]);
            if form.references_local(self.locals[i].1) {
                return true;
            }
        }
        false
    }

    /// Match the remaining steps, stepping over statements that leave the
    /// behavior alone.
    pub fn follow(&mut self, haystack: &Vec<Form>, steps: &Vec<Form>) -> (found: bool)
        ensures
            match trail(old(self)@, form_terms(haystack@), form_terms(steps@), 0, 0, 0) {
                Some((last, _)) => found && final(self)@ == last,
                None => !found && final(self)@ == old(self)@,
            },
    {
        let mut passed: Vec<usize> = Vec::new();
        self.follow_recording(haystack, steps, 0, 0, &mut passed)
    }

    /// The same walk from a step and a place on, recording which positions were
    /// matched.
    #[verifier::rlimit(40)]
    #[verifier::spinoff_prover]
    pub fn follow_recording(
        &mut self,
        haystack: &Vec<Form>,
        steps: &Vec<Form>,
        k: usize,
        start: usize,
        recorded: &mut Vec<usize>,
    ) -> (found: bool)
        requires
            k <= steps@.len(),
            start <= haystack@.len(),
        ensures
            match trail(
                old(self)@,
                form_terms(haystack@),
                form_terms(steps@),
                k as int,
                start as int,
                start as int,
            ) {
                Some((last, found_at)) => found && final(self)@ == last && places(final(recorded)@)
                    == places(old(recorded)@) + found_at,
                None => !found && final(self)@ == old(self)@ && final(recorded)@ == old(
                    recorded,
                )@,
            },
        decreases steps@.len() - k,
    {
        let ghost hay = form_terms(haystack@);
        let ghost wanted = form_terms(steps@);
        if k == steps.len() {
            assert(places(recorded@) + Seq::<int>::empty() =~= places(recorded@));
            return true;
        }
        assert(wanted[k as int] == steps@[k as int]@);
        for i in start..haystack.len()
            invariant
                self@ == old(self)@,
                recorded@ == old(recorded)@,
                start <= haystack@.len(),
                k < steps@.len(),
                hay == form_terms(haystack@),
                wanted == form_terms(steps@),
                wanted[k as int] == steps@[k as int]@,
                !any_touched(old(self)@, hay, start as int, i as int),
                trail(old(self)@, hay, wanted, k as int, start as int, start as int) == trail(
                    old(self)@,
                    hay,
                    wanted,
                    k as int,
                    start as int,
                    i as int,
                ),
        {
            assert(hay[i as int] == haystack@[i as int]@);
            let mut trial = self.copied();
            let mut longer = with_place(recorded, i);
            let count: usize = steps.len();
            assert(k < count);
            if trial.form(&haystack[i], &steps[k]) && trial.follow_recording(
                haystack,
                steps,
                k + 1,
                i + 1,
                &mut longer,
            ) {
                *self = trial;
                proof {
                    let rest = trail(
                        old(self)@,
                        hay,
                        wanted,
                        k as int,
                        start as int,
                        i as int,
                    )->0;
                    let rest = rest.1;
                    assert(places(longer@) =~= places(recorded@) + rest);
                }
                *recorded = longer;
                return true;
            }
            if self.touches(&haystack[i]) {
                assert(any_touched(old(self)@, hay, start as int, i + 1)) by {
                    assert(is_touched(old(self)@, hay[i as int]));
                }
                return false;
            }
            assert(!any_touched(old(self)@, hay, start as int, i + 1));
        }
        false
    }
}

} // verus!
