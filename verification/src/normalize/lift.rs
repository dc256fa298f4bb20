//! The lazy operation a terminal search stands for.
//!
//! Lifting is not a law: a search stops at the first hit and a lazy adaptor does
//! not. It holds only where the caller already knows it is looking at one step
//! of a lazy adaptor.

use crate::lists::{lemma_total_step, total};
use crate::normalize::form::{
    arm_bodies, arm_patterns, form_terms, lemma_part_smaller, pattern_terms, Arm, Direction, Form,
    Pattern, PatternKind, PatternTerm, Shape, Term,
};
use crate::normalize::laws::{binding_of, plain_binding, rewritten_term};
use crate::normalize::indexing::found_term;
use crate::normalize::names::leaf;
use crate::text::{ends_in_segment, last_segment_is};
use vstd::prelude::*;

verus! {

/// Whether a term is `None`, however it is spelled.
pub open spec fn is_nothing(term: Term) -> bool {
    term.parts.len() == 0 && (term.shape matches Shape::Variant(name) && last_segment_is(
        name,
        "None"@,
    ))
}

/// Whether anything in a term writes through a field.
pub open spec fn assigns_field(term: Term) -> bool
    decreases term,
{
    ||| term.shape is Assign && term.parts.len() == 2 && term.parts[0].shape is Field
    ||| any_assigns_field(term.parts)
}

/// Whether any of several terms writes through a field.
pub open spec fn any_assigns_field(terms: Seq<Term>) -> bool
    decreases terms,
{
    exists|i: int| 0 <= i < terms.len() && assigns_field(#[trigger] terms[i])
}

/// Whether a shape walks a sequence.
pub open spec fn is_walk(shape: Shape) -> bool {
    shape is Traverse || shape is Transform || shape is Sift || shape is Retain
}

/// How many sequences a term walks.
pub open spec fn walks(term: Term) -> nat
    decreases term,
{
    (if is_walk(term.shape) {
        1nat
    } else {
        0nat
    }) + total(each_walks(term.parts))
}

/// How many sequences several terms walk, term by term.
pub open spec fn each_walks(terms: Seq<Term>) -> Seq<nat>
    decreases terms,
{
    Seq::new(
        terms.len(),
        |i: int|
            if 0 <= i < terms.len() {
                walks(terms[i])
            } else {
                0
            },
    )
}

/// Whether a step carries state across calls, rather than reading one element
/// and answering.
pub open spec fn is_stateful(term: Term) -> bool {
    assigns_field(term) || walks(term) > 1
}

/// What a term hands back, where it hands back `Some` value.
pub open spec fn yielded(term: Term) -> Option<Term> {
    let inner = if term.shape is Return {
        term.parts[0]
    } else {
        term
    };
    if inner.parts.len() == 1 && (inner.shape matches Shape::Variant(name) && last_segment_is(
        name,
        "Some"@,
    )) {
        Some(inner.parts[0])
    } else {
        None
    }
}

/// Whether a pattern takes apart the alternative of a given name.
pub open spec fn takes(pattern: PatternTerm, name: Seq<char>) -> bool {
    pattern.kind matches PatternKind::Variant(variant) && last_segment_is(variant, name)
}

/// Whether an arm hands back exactly what it just unwrapped.
pub open spec fn hands_back(pattern: PatternTerm, body: Term) -> bool {
    &&& takes(pattern, "Some"@)
    &&& pattern.parts.len() == 1
    &&& binding_of(pattern.parts[0]) is Some
    &&& yielded(body) matches Some(value) && value.shape == Shape::Local(
        binding_of(pattern.parts[0])->0,
    )
}

/// Whether two arms drop an element when it produces nothing and hand back what
/// it produces otherwise.
pub open spec fn sifts(
    empty: PatternTerm,
    empty_body: Term,
    carried: PatternTerm,
    carried_body: Term,
) -> bool {
    &&& takes(empty, "None"@)
    &&& empty_body.shape is Literal
    &&& hands_back(carried, carried_body)
}

/// What one step of a traversal computes when it hands back what a computation
/// produced, as `filter_map` does.
pub open spec fn sifted(body: Term) -> Option<Term> {
    match body.shape {
        Shape::Select(patterns) => if patterns.len() == 2 && body.parts.len() == 3 && (if takes(
            patterns[0],
            "None"@,
        ) {
            sifts(patterns[0], body.parts[1], patterns[1], body.parts[2])
        } else {
            sifts(patterns[1], body.parts[2], patterns[0], body.parts[1])
        }) {
            Some(body.parts[0])
        } else {
            None
        },
        _ => None,
    }
}

/// Whether a step hands back the very element it was given.
pub open spec fn hands_back_item(item: PatternTerm, step: Term) -> bool {
    binding_of(item) matches Some(name) && yielded(step) == Some(leaf(Shape::Local(name)))
}

/// What one step of a traversal tests when it keeps the element it was given,
/// as `filter` does.
pub open spec fn retained(item: PatternTerm, body: Term) -> Option<Term> {
    if body.shape is Branch && body.parts.len() >= 2 && (body.parts.len() == 3
        ==> body.parts[2].shape is Literal) && hands_back_item(item, body.parts[1]) {
        Some(body.parts[0])
    } else {
        None
    }
}

/// The lazy operation a terminal search stands for: the search with the stop
/// removed.
pub open spec fn lifted(term: Term) -> Option<Term> {
    match term.parts[0].shape {
        Shape::Traverse(item, Direction::Forward) if term.shape is Sequence && term.parts.len() == 2
            && term.parts[0].parts.len() == 2 && is_nothing(term.parts[1]) && !is_stateful(term) => {
            let sequence = term.parts[0].parts[0];
            let body = term.parts[0].parts[1];
            match (sifted(body), retained(item, body)) {
                (Some(scrutinee), _) => Some(
                    Term { shape: Shape::Sift(item), parts: seq![sequence, scrutinee] },
                ),
                (_, Some(condition)) => Some(
                    Term { shape: Shape::Retain(item), parts: seq![sequence, condition] },
                ),
                _ => None,
            }
        },
        _ => None,
    }
}

/// Whether a form is `None`, however it is spelled.
fn is_none_variant(form: &Form) -> (none: bool)
    ensures
        none == is_nothing(form@),
{
    match form {
        Form::Variant { name, payload } => {
            assert(form_terms(payload@).len() == payload@.len());
            payload.len() == 0 && ends_in_segment(name.as_str(), "None")
        },
        _ => false,
    }
}

/// `Some(value)`, however the return is spelled, yielding what it carries.
fn yielded_value(form: &Form) -> (value: Option<&Form>)
    ensures
        found_term(value) == yielded(form@),
{
    let inner = match form {
        Form::Return(inner) => {
            assert(form@.parts[0] == inner@);
            &**inner
        },
        other => other,
    };
    match inner {
        Form::Variant { name, payload } => {
            assert(form_terms(payload@).len() == payload@.len());
            if payload.len() == 1 && ends_in_segment(name.as_str(), "Some") {
                assert(form_terms(payload@)[0] == payload@[0]@);
                Some(&payload[0])
            } else {
                None
            }
        },
        _ => None,
    }
}

/// Whether a pattern takes apart the alternative of a given name.
fn takes_apart(pattern: &Pattern, name: &str) -> (taken: bool)
    ensures
        taken == takes(pattern@, name@),
{
    match pattern {
        Pattern::Variant { name: variant, .. } => ends_in_segment(variant.as_str(), name),
        _ => false,
    }
}

/// Whether an arm hands back exactly what it just unwrapped.
fn arm_hands_back(arm: &Arm) -> (hands: bool)
    ensures
        hands == hands_back(arm.pattern@, arm.body@),
{
    match &arm.pattern {
        Pattern::Variant { name, parts } => {
            assert(pattern_terms(parts@).len() == parts@.len());
            if !ends_in_segment(name.as_str(), "Some") || parts.len() != 1 {
                return false;
            }
            assert(pattern_terms(parts@)[0] == parts@[0]@);
            match (plain_binding(&parts[0]), yielded_value(&arm.body)) {
                (Some(bound), Some(Form::Local(local))) => *local == bound,
                _ => false,
            }
        },
        _ => false,
    }
}

/// What one step of a traversal computes when it hands back what a computation
/// produced.
fn sifted_by(body: &Form) -> (scrutinee: Option<&Form>)
    ensures
        found_term(scrutinee) == sifted(body@),
{
    match body {
        Form::Select { scrutinee, arms } => {
            let ghost patterns = arm_patterns(arms@);
            let ghost bodies = arm_bodies(arms@);
            assert(patterns.len() == arms@.len() && bodies.len() == arms@.len());
            assert(body@.parts.len() == 1 + arms@.len());
            if arms.len() != 2 {
                return None;
            }
            proof {
                assert(patterns[0] == arms@[0].pattern@ && patterns[1] == arms@[1].pattern@);
                assert(bodies[0] == arms@[0].body@ && bodies[1] == arms@[1].body@);
                assert(body@.parts[0] == scrutinee@);
                assert(body@.parts[1] == bodies[0] && body@.parts[2] == bodies[1]);
            }
            let (empty, carried) = if takes_apart(&arms[0].pattern, "None") {
                (&arms[0], &arms[1])
            } else {
                (&arms[1], &arms[0])
            };
            let dropped = match &empty.body {
                Form::Literal => true,
                _ => false,
            };
            if takes_apart(&empty.pattern, "None") && dropped && arm_hands_back(carried) {
                Some(&**scrutinee)
            } else {
                None
            }
        },
        _ => None,
    }
}

/// What one step of a traversal tests when it keeps the element it was given.
fn retained_by<'a>(item: &Pattern, body: &'a Form) -> (condition: Option<&'a Form>)
    ensures
        found_term(condition) == retained(item@, body@),
{
    match body {
        Form::Branch { condition, consequence, alternative } => {
            assert(body@.parts[0] == condition@ && body@.parts[1] == consequence@);
            if let Some(alternative) = alternative {
                assert(body@.parts[2] == alternative@);
                match &**alternative {
                    Form::Literal => {},
                    _ => {
                        return None;
                    },
                }
            }
            match (plain_binding(item), yielded_value(consequence)) {
                (Some(name), Some(Form::Local(local))) => if *local == name {
                    Some(&**condition)
                } else {
                    None
                },
                _ => None,
            }
        },
        _ => None,
    }
}

/// The sum of two counts, or the largest count there is.
fn capped_sum(left: usize, right: usize) -> (sum: usize)
    ensures
        sum == if left + right <= usize::MAX {
            left + right
        } else {
            usize::MAX as int
        },
{
    if left <= usize::MAX - right {
        left + right
    } else {
        usize::MAX
    }
}

impl Form {
    /// Whether anything here writes through a field, which is how an adaptor
    /// remembers where it was.
    fn assigns_to_a_field(&self) -> (assigns: bool)
        ensures
            assigns == assigns_field(self@),
        decreases self@,
    {
        if let Form::Assign { target, .. } = self {
            assert(self@.parts[0] == target@);
            if let Form::Field { .. } = &**target {
                return true;
            }
        }
        let children = self.children();
        for i in 0..children.len()
            invariant
                children@.len() == self@.parts.len(),
                forall|i: int|
                    0 <= i < children@.len() ==> (#[trigger] children@[i])@ == self@.parts[i],
                forall|j: int| 0 <= j < i ==> !assigns_field(#[trigger] self@.parts[j]),
        {
            proof {
                lemma_part_smaller(self@, i as int);
            }
            if children[i].assigns_to_a_field() {
                assert(assigns_field(self@.parts[i as int]));
                return true;
            }
        }
        false
    }

    /// How many sequences this walks, up to the largest count there is.
    fn sequences_traversed(&self) -> (count: usize)
        ensures
            count == if walks(self@) <= usize::MAX {
                walks(self@)
            } else {
                usize::MAX as nat
            },
        decreases self@,
    {
        let ghost each = each_walks(self@.parts);
        let ghost own: nat = if is_walk(self@.shape) {
            1
        } else {
            0
        };
        let mut count: usize = match self {
            Form::Traverse { .. }
            | Form::Transform { .. }
            | Form::Sift { .. }
            | Form::Retain { .. } => 1,
            _ => 0,
        };
        let children = self.children();
        for i in 0..children.len()
            invariant
                each == each_walks(self@.parts),
                children@.len() == self@.parts.len(),
                forall|i: int|
                    0 <= i < children@.len() ==> (#[trigger] children@[i])@ == self@.parts[i],
                count == if own + total(each.take(i as int)) <= usize::MAX {
                    own + total(each.take(i as int))
                } else {
                    usize::MAX as nat
                },
        {
            proof {
                lemma_part_smaller(self@, i as int);
                lemma_total_step(each, i as int);
            }
            count = capped_sum(count, children[i].sequences_traversed());
        }
        assert(each.take(children@.len() as int) =~= each);
        count
    }

    /// Whether a `next` carries state across calls, rather than reading one
    /// element and answering.
    fn is_stateful_step(&self) -> (stateful: bool)
        ensures
            stateful == is_stateful(self@),
    {
        self.assigns_to_a_field() || self.sequences_traversed() > 1
    }

    /// The lazy operation a terminal search stands for, if it is one.
    ///
    /// A stateful adaptor's `next` is not one step of anything expressible here,
    /// and a backwards search is not one step of a lazy adaptor, so both decline.
    /// So does a search that hands back anything but the element it was given or
    /// what it just unwrapped.
    pub fn lifted_from_one_step(&self) -> (lifted_form: Option<Form>)
        ensures
            rewritten_term(lifted_form) == lifted(self@),
    {
        let parts = match self {
            Form::Sequence(parts) => parts,
            _ => {
                return None;
            },
        };
        let ghost terms = form_terms(parts@);
        assert(self@.parts == terms && terms.len() == parts@.len());
        if parts.len() != 2 {
            return None;
        }
        assert(terms[0] == parts@[0]@ && terms[1] == parts@[1]@);
        let (sequence, item, body, direction) = match &parts[0] {
            Form::Traverse { sequence, item, body, direction } => (sequence, item, body, direction),
            _ => {
                return None;
            },
        };
        assert(terms[0].parts[0] == sequence@ && terms[0].parts[1] == body@);
        if !is_none_variant(&parts[1]) || !direction.is_forward() || self.is_stateful_step() {
            return None;
        }
        if let Some(scrutinee) = sifted_by(body) {
            let sift = Form::Sift {
                sequence: Box::new((**sequence).clone()),
                item: Box::new((**item).clone()),
                body: Box::new(scrutinee.clone()),
            };
            assert(sift@.parts =~= seq![sequence@, scrutinee@]);
            return Some(sift);
        }
        if let Some(condition) = retained_by(item, body) {
            let retain = Form::Retain {
                sequence: Box::new((**sequence).clone()),
                item: Box::new((**item).clone()),
                body: Box::new(condition.clone()),
            };
            assert(retain@.parts =~= seq![sequence@, condition@]);
            return Some(retain);
        }
        None
    }
}

} // verus!
