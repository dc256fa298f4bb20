//! How many parts a term has for its shape, as the term of every form does.

use crate::normalize::form::{arm_bodies, form_terms, Arm, Form, Shape, Term};
use vstd::prelude::*;

verus! {

/// Whether a term has as many parts as its shape asks for.
pub open spec fn has_its_parts(term: Term) -> bool {
    match term.shape {
        Shape::Local(_) | Shape::Free(_) => term.parts == Seq::<Term>::empty(),
        Shape::Traverse(..)
        | Shape::Transform(_)
        | Shape::Sift(_)
        | Shape::Retain(_)
        | Shape::Pairwise(..) => term.parts.len() == 2,
        Shape::Accumulate(..) => term.parts.len() == 3,
        Shape::Branch => term.parts.len() >= 2,
        Shape::Method(_) | Shape::Call => term.parts.len() >= 1,
        Shape::Select(patterns) => term.parts.len() == patterns.len() + 1,
        _ => true,
    }
}

/// Whether every subterm has as many parts as its shape asks for, as in the
/// term of a form.
pub open spec fn is_shaped(term: Term) -> bool
    decreases term,
{
    has_its_parts(term) && all_shaped(term.parts)
}

/// Whether every subterm of several terms has the parts its shape asks for.
pub open spec fn all_shaped(terms: Seq<Term>) -> bool
    decreases terms,
{
    forall|i: int| 0 <= i < terms.len() ==> is_shaped(#[trigger] terms[i])
}

proof fn lemma_one_shaped(only: Term)
    requires
        is_shaped(only),
    ensures
        all_shaped(seq![only]),
{
}

proof fn lemma_two_shaped(first: Term, second: Term)
    requires
        is_shaped(first),
        is_shaped(second),
    ensures
        all_shaped(seq![first, second]),
{
}

proof fn lemma_three_shaped(first: Term, second: Term, third: Term)
    requires
        is_shaped(first),
        is_shaped(second),
        is_shaped(third),
    ensures
        all_shaped(seq![first, second, third]),
{
}

proof fn lemma_head_shaped(first: Term, rest: Seq<Term>)
    requires
        is_shaped(first),
        all_shaped(rest),
    ensures
        all_shaped(seq![first] + rest),
{
    let all = seq![first] + rest;
    assert forall|i: int| 0 <= i < all.len() implies is_shaped(#[trigger] all[i]) by {
        if i > 0 {
            assert(all[i] == rest[i - 1]);
        }
    }
}

proof fn lemma_forms_shaped(forms: Seq<Form>)
    ensures
        all_shaped(form_terms(forms)),
    decreases forms,
{
    assert forall|i: int| 0 <= i < forms.len() implies is_shaped(
        #[trigger] form_terms(forms)[i],
    ) by {
        assert(decreases_to!(forms => forms[i]));
        lemma_form_shaped(forms[i]);
    }
}

proof fn lemma_arms_shaped(arms: Seq<Arm>)
    ensures
        all_shaped(arm_bodies(arms)),
    decreases arms,
{
    assert forall|i: int| 0 <= i < arms.len() implies is_shaped(#[trigger] arm_bodies(arms)[i]) by {
        assert(decreases_to!(arms => arms[i]));
        assert(decreases_to!(arms[i] => arms[i].body));
        lemma_form_shaped(arms[i].body);
    }
}

/// Every subterm of a form has the parts its shape asks for.
#[verifier::rlimit(60)]
#[verifier::spinoff_prover]
pub proof fn lemma_form_shaped(form: Form)
    ensures
        is_shaped(form@),
    decreases form,
{
    match form {
        Form::Variant { payload, .. } => {
            lemma_forms_shaped(payload@);
        },
        Form::Field { value, .. } => {
            lemma_form_shaped(*value);
            lemma_one_shaped(value@);
        },
        Form::Method { receiver, arguments, .. } => {
            lemma_form_shaped(*receiver);
            lemma_forms_shaped(arguments@);
            lemma_head_shaped(receiver@, form_terms(arguments@));
        },
        Form::Call { callee, arguments } => {
            lemma_form_shaped(*callee);
            lemma_forms_shaped(arguments@);
            lemma_head_shaped(callee@, form_terms(arguments@));
        },
        Form::Traverse { sequence, body, .. } => {
            lemma_form_shaped(*sequence);
            lemma_form_shaped(*body);
            lemma_two_shaped(sequence@, body@);
        },
        Form::Pairwise { sequence, body, .. } => {
            lemma_form_shaped(*sequence);
            lemma_form_shaped(*body);
            lemma_two_shaped(sequence@, body@);
        },
        Form::Repeat { condition, body } => {
            lemma_form_shaped(*condition);
            lemma_form_shaped(*body);
            lemma_two_shaped(condition@, body@);
        },
        Form::Swap { sequence, left, right } => {
            lemma_form_shaped(*sequence);
            lemma_form_shaped(*left);
            lemma_form_shaped(*right);
            lemma_three_shaped(sequence@, left@, right@);
        },
        Form::Transform { sequence, body, .. } => {
            lemma_form_shaped(*sequence);
            lemma_form_shaped(*body);
            lemma_two_shaped(sequence@, body@);
        },
        Form::Sift { sequence, body, .. } => {
            lemma_form_shaped(*sequence);
            lemma_form_shaped(*body);
            lemma_two_shaped(sequence@, body@);
        },
        Form::Retain { sequence, body, .. } => {
            lemma_form_shaped(*sequence);
            lemma_form_shaped(*body);
            lemma_two_shaped(sequence@, body@);
        },
        Form::Accumulate { sequence, initial, body, .. } => {
            lemma_form_shaped(*sequence);
            lemma_form_shaped(*initial);
            lemma_form_shaped(*body);
            lemma_three_shaped(sequence@, initial@, body@);
        },
        Form::Collect { sequence, .. } => {
            lemma_form_shaped(*sequence);
            lemma_one_shaped(sequence@);
        },
        Form::Assign { target, value, .. } => {
            lemma_form_shaped(*target);
            lemma_form_shaped(*value);
            lemma_two_shaped(target@, value@);
        },
        Form::Binary { left, right, .. } => {
            lemma_form_shaped(*left);
            lemma_form_shaped(*right);
            lemma_two_shaped(left@, right@);
        },
        Form::Unary { value, .. } => {
            lemma_form_shaped(*value);
            lemma_one_shaped(value@);
        },
        Form::Index { sequence, position } => {
            lemma_form_shaped(*sequence);
            lemma_form_shaped(*position);
            lemma_two_shaped(sequence@, position@);
        },
        Form::Span { start, end, .. } => {
            lemma_form_shaped(*start);
            lemma_form_shaped(*end);
            lemma_two_shaped(start@, end@);
        },
        Form::Lambda { body, .. } => {
            lemma_form_shaped(*body);
            lemma_one_shaped(body@);
        },
        Form::Let { value, .. } => {
            lemma_form_shaped(*value);
            lemma_one_shaped(value@);
        },
        Form::Branch { condition, consequence, alternative } => {
            lemma_form_shaped(*condition);
            lemma_form_shaped(*consequence);
            if let Some(alternative) = alternative {
                lemma_form_shaped(*alternative);
                lemma_three_shaped(condition@, consequence@, alternative@);
            } else {
                lemma_two_shaped(condition@, consequence@);
            }
        },
        Form::Select { scrutinee, arms } => {
            lemma_form_shaped(*scrutinee);
            lemma_arms_shaped(arms@);
            lemma_head_shaped(scrutinee@, arm_bodies(arms@));
        },
        Form::Return(value) => {
            lemma_form_shaped(*value);
            lemma_one_shaped(value@);
        },
        Form::Sequence(parts) => {
            lemma_forms_shaped(parts@);
        },
        Form::Opaque { parts, .. } => {
            lemma_forms_shaped(parts@);
        },
        _ => {},
    }
}

} // verus!
