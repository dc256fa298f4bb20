//! Rewriting a form brings in no number that the form did not hold.
//!
//! Every name and every hole of a simplified form comes from the form it was
//! simplified from, so the names that become holes always have numbers to spare
//! where the form's own numbers leave room for them.

use crate::lists::{joined, lemma_distinct_below, lemma_extended};
use crate::normalize::form::{lemma_part_smaller, PatternKind, PatternTerm, Shape, Term};
use crate::normalize::indexing::{each_with_elements, reads_at, with_elements};
use crate::normalize::laws::{
    arithmetic, binding_of, each_substituted, each_wrapped, element_traversal, enumerated_pairs,
    escaped, fused, indexed_pairs, none_term, only_step, optional_search, pairwise, recovered,
    return_term, returned_sequence, searched, some_term, substituted, traversed, whole_span,
    wrapped,
};
use crate::normalize::measure::{each_free_names, free_names};
use crate::normalize::names::{
    bound_names, each_bound_names, each_local_names, each_pattern_names, each_unbound_names,
    highest, leaf, lemma_highest_bounds, local_names, pattern_names, shape_binders, unbound_names,
};
use crate::normalize::simplify::{
    applied, called, each_applied, each_swept, filled, fresh_names, has_room, hole_limit,
    lambda_bindings, lambda_binding, lookup, paired, reduced, rewritten, safe_after, safe_bindings,
    first_ready, surviving, survives, swept, unfolded,
};
use vstd::prelude::*;

verus! {

/// Whether every name a pattern introduces is below a limit.
pub open spec fn pattern_within(pattern: PatternTerm, names: nat) -> bool
    decreases pattern,
{
    (pattern.kind matches PatternKind::Binding(index) ==> index < names) && patterns_within(
        pattern.parts,
        names,
    )
}

/// Whether every name several patterns introduce is below a limit.
pub open spec fn patterns_within(patterns: Seq<PatternTerm>, names: nat) -> bool
    decreases patterns,
{
    forall|i: int| 0 <= i < patterns.len() ==> pattern_within(#[trigger] patterns[i], names)
}

/// Whether the numbers a shape holds are below their limits.
pub open spec fn shape_within(shape: Shape, holes: nat, names: nat) -> bool {
    match shape {
        Shape::Local(index) => index < names,
        Shape::Free(index) => index < holes,
        _ => patterns_within(shape_binders(shape), names),
    }
}

/// Whether every hole and every name of a term is below its limit.
pub open spec fn term_within(term: Term, holes: nat, names: nat) -> bool
    decreases term,
{
    shape_within(term.shape, holes, names) && terms_within(term.parts, holes, names)
}

/// Whether every hole and every name of several terms is below its limit.
pub open spec fn terms_within(terms: Seq<Term>, holes: nat, names: nat) -> bool
    decreases terms,
{
    forall|i: int| 0 <= i < terms.len() ==> term_within(#[trigger] terms[i], holes, names)
}

/// The first number that no name of a term uses.
pub open spec fn name_limit(term: Term) -> nat {
    match highest(local_names(term) + bound_names(term)) {
        Some(index) => index as nat + 1,
        None => 0,
    }
}

proof fn lemma_substituted_within(term: Term, index: u32, value: Term, holes: nat, names: nat)
    requires
        term_within(term, holes, names),
        term_within(value, holes, names),
    ensures
        term_within(substituted(term, index, value), holes, names),
    decreases term,
{
    if term.shape != Shape::Local(index) {
        let parts = each_substituted(term.parts, index, value);
        assert forall|i: int| 0 <= i < parts.len() implies term_within(
            #[trigger] parts[i],
            holes,
            names,
        ) by {
            lemma_part_smaller(term, i);
            assert(term_within(term.parts[i], holes, names));
            lemma_substituted_within(term.parts[i], index, value, holes, names);
        }
    }
}

proof fn lemma_wrapped_within(term: Term, holes: nat, names: nat)
    requires
        term_within(term, holes, names),
    ensures
        term_within(wrapped(term), holes, names),
    decreases term,
{
    if term.shape is Return && term.parts.len() == 1 {
        assert(term_within(term.parts[0], holes, names));
        lemma_one_within(Shape::Variant("Some"@), term.parts[0], holes, names);
        lemma_one_within(Shape::Return, some_term(term.parts[0]), holes, names);
    } else {
        let parts = each_wrapped(term.parts);
        assert forall|i: int| 0 <= i < parts.len() implies term_within(
            #[trigger] parts[i],
            holes,
            names,
        ) by {
            lemma_part_smaller(term, i);
            assert(term_within(term.parts[i], holes, names));
            lemma_wrapped_within(term.parts[i], holes, names);
        }
    }
}

proof fn lemma_elements_within(
    term: Term,
    sequence: Term,
    positions: Seq<u32>,
    holes: nat,
    names: nat,
)
    requires
        term_within(term, holes, names),
    ensures
        term_within(with_elements(term, sequence, positions), holes, names),
    decreases term,
{
    if reads_at(term, sequence, positions) {
        assert(term_within(term.parts[1], holes, names));
    } else {
        let parts = each_with_elements(term.parts, sequence, positions);
        assert forall|i: int| 0 <= i < parts.len() implies term_within(
            #[trigger] parts[i],
            holes,
            names,
        ) by {
            lemma_part_smaller(term, i);
            assert(term_within(term.parts[i], holes, names));
            lemma_elements_within(term.parts[i], sequence, positions, holes, names);
        }
    }
}

proof fn lemma_one_within(shape: Shape, part: Term, holes: nat, names: nat)
    requires
        shape_within(shape, holes, names),
        term_within(part, holes, names),
    ensures
        term_within(Term { shape, parts: seq![part] }, holes, names),
{
    let term = Term { shape, parts: seq![part] };
    assert forall|i: int| 0 <= i < term.parts.len() implies term_within(
        #[trigger] term.parts[i],
        holes,
        names,
    ) by {
        assert(term.parts[i] == part);
    }
}

proof fn lemma_two_within(shape: Shape, first: Term, second: Term, holes: nat, names: nat)
    requires
        shape_within(shape, holes, names),
        term_within(first, holes, names),
        term_within(second, holes, names),
    ensures
        term_within(Term { shape, parts: seq![first, second] }, holes, names),
{
    let term = Term { shape, parts: seq![first, second] };
    assert forall|i: int| 0 <= i < term.parts.len() implies term_within(
        #[trigger] term.parts[i],
        holes,
        names,
    ) by {
        assert(term.parts[i] == if i == 0 {
            first
        } else {
            second
        });
    }
}

proof fn lemma_three_within(
    shape: Shape,
    first: Term,
    second: Term,
    third: Term,
    holes: nat,
    names: nat,
)
    requires
        shape_within(shape, holes, names),
        term_within(first, holes, names),
        term_within(second, holes, names),
        term_within(third, holes, names),
    ensures
        term_within(Term { shape, parts: seq![first, second, third] }, holes, names),
{
    let term = Term { shape, parts: seq![first, second, third] };
    assert forall|i: int| 0 <= i < term.parts.len() implies term_within(
        #[trigger] term.parts[i],
        holes,
        names,
    ) by {
        assert(term.parts[i] == if i == 0 {
            first
        } else if i == 1 {
            second
        } else {
            third
        });
    }
}

/// What a shape introduces names with is within limits where its term is.
proof fn lemma_binder_within(term: Term, i: int, holes: nat, names: nat)
    requires
        term_within(term, holes, names),
        0 <= i < shape_binders(term.shape).len(),
    ensures
        pattern_within(shape_binders(term.shape)[i], names),
{
    assert(patterns_within(shape_binders(term.shape), names));
}

proof fn lemma_part_within(term: Term, i: int, holes: nat, names: nat)
    requires
        term_within(term, holes, names),
        0 <= i < term.parts.len(),
    ensures
        term_within(term.parts[i], holes, names),
{
}

proof fn lemma_walk_within(pattern: PatternTerm, names: nat)
    requires
        pattern_within(pattern, names),
    ensures
        patterns_within(seq![pattern], names),
        binding_of(pattern) matches Some(index) ==> index < names,
{
    let patterns = seq![pattern];
    assert forall|i: int| 0 <= i < patterns.len() implies pattern_within(
        #[trigger] patterns[i],
        names,
    ) by {
        assert(patterns[i] == pattern);
    }
}

proof fn lemma_pair_within(first: PatternTerm, second: PatternTerm, names: nat)
    requires
        pattern_within(first, names),
        pattern_within(second, names),
    ensures
        patterns_within(seq![first, second], names),
{
    let patterns = seq![first, second];
    assert forall|i: int| 0 <= i < patterns.len() implies pattern_within(
        #[trigger] patterns[i],
        names,
    ) by {
        assert(patterns[i] == if i == 0 {
            first
        } else {
            second
        });
    }
}

proof fn lemma_fused_within(term: Term, holes: nat, names: nat)
    requires
        term_within(term, holes, names),
        fused(term) is Some,
    ensures
        term_within(fused(term)->0, holes, names),
{
    let retain = term.parts[0];
    lemma_part_within(term, 0, holes, names);
    lemma_part_within(term, 1, holes, names);
    lemma_part_within(retain, 0, holes, names);
    lemma_part_within(retain, 1, holes, names);
    lemma_binder_within(retain, 0, holes, names);
    let tested = shape_binders(retain.shape)[0];
    let mapped = shape_binders(term.shape)[0];
    lemma_walk_within(tested, names);
    let local = leaf(Shape::Local(binding_of(tested)->0));
    lemma_substituted_within(term.parts[1], binding_of(mapped)->0, local, holes, names);
    let produced = substituted(term.parts[1], binding_of(mapped)->0, local);
    lemma_one_within(Shape::Variant("Some"@), produced, holes, names);
    lemma_three_within(
        Shape::Branch,
        retain.parts[1],
        some_term(produced),
        none_term(),
        holes,
        names,
    );
    lemma_two_within(
        Shape::Sift(tested),
        retain.parts[0],
        Term {
            shape: Shape::Branch,
            parts: seq![retain.parts[1], some_term(produced), none_term()],
        },
        holes,
        names,
    );
}

proof fn lemma_searched_within(term: Term, holes: nat, names: nat)
    requires
        term_within(term, holes, names),
        searched(term) is Some,
    ensures
        term_within(searched(term)->0, holes, names),
{
    let retain = term.parts[0];
    lemma_part_within(term, 0, holes, names);
    lemma_part_within(retain, 0, holes, names);
    lemma_part_within(retain, 1, holes, names);
    lemma_binder_within(retain, 0, holes, names);
    let item = shape_binders(retain.shape)[0];
    lemma_walk_within(item, names);
    let local = leaf(Shape::Local(binding_of(item)->0));
    lemma_one_within(Shape::Return, local, holes, names);
    lemma_two_within(Shape::Branch, retain.parts[1], return_term(local), holes, names);
    let walk = (searched(term)->0).parts[0];
    lemma_two_within(walk.shape, retain.parts[0], walk.parts[1], holes, names);
    lemma_two_within(Shape::Sequence, walk, none_term(), holes, names);
}

proof fn lemma_returned_within(term: Term, holes: nat, names: nat)
    requires
        term_within(term, holes, names),
        returned_sequence(term) is Some,
    ensures
        term_within(returned_sequence(term)->0, holes, names),
{
    lemma_part_within(term, 0, holes, names);
    let steps = term.parts[0].parts;
    let moved = returned_sequence(term)->0;
    lemma_part_within(term.parts[0], steps.len() - 1, holes, names);
    lemma_one_within(Shape::Return, steps.last(), holes, names);
    assert forall|i: int| 0 <= i < moved.parts.len() implies term_within(
        #[trigger] moved.parts[i],
        holes,
        names,
    ) by {
        if i < steps.len() - 1 {
            lemma_part_within(term.parts[0], i, holes, names);
            assert(moved.parts[i] == steps[i]);
        } else {
            assert(moved.parts[i] == return_term(steps.last()));
        }
    }
}

proof fn lemma_optional_within(term: Term, holes: nat, names: nat)
    requires
        term_within(term, holes, names),
        optional_search(term) is Some,
    ensures
        term_within(optional_search(term)->0, holes, names),
{
    let walk = term.parts[0];
    lemma_part_within(term, 0, holes, names);
    lemma_part_within(walk, 0, holes, names);
    lemma_part_within(walk, 1, holes, names);
    lemma_wrapped_within(walk.parts[1], holes, names);
    lemma_two_within(walk.shape, walk.parts[0], wrapped(walk.parts[1]), holes, names);
    lemma_two_within(
        Shape::Sequence,
        Term { shape: walk.shape, parts: seq![walk.parts[0], wrapped(walk.parts[1])] },
        none_term(),
        holes,
        names,
    );
}

proof fn lemma_escaped_within(term: Term, holes: nat, names: nat)
    requires
        term_within(term, holes, names),
        escaped(term) is Some,
    ensures
        term_within(escaped(term)->0, holes, names),
{
    if term.shape is Branch {
        lemma_part_within(term, 0, holes, names);
        lemma_part_within(term, 1, holes, names);
        lemma_two_within(Shape::Branch, term.parts[0], term.parts[1], holes, names);
    } else if term.parts.len() > 0 {
        lemma_part_within(term, 0, holes, names);
        lemma_one_within(Shape::Return, term.parts[0], holes, names);
    } else {
        lemma_one_within(Shape::Return, leaf(Shape::Literal), holes, names);
    }
}

proof fn lemma_traversed_within(term: Term, holes: nat, names: nat)
    requires
        term_within(term, holes, names),
        traversed(term) is Some,
    ensures
        term_within(traversed(term)->0, holes, names),
{
    let lambda = term.parts[2];
    lemma_part_within(term, 0, holes, names);
    lemma_part_within(term, 2, holes, names);
    lemma_part_within(lambda, 0, holes, names);
    let parameters = shape_binders(lambda.shape);
    lemma_binder_within(lambda, parameters.len() - 1, holes, names);
    lemma_walk_within(parameters.last(), names);
    lemma_two_within((traversed(term)->0).shape, term.parts[0], lambda.parts[0], holes, names);
}

proof fn lemma_arithmetic_within(term: Term, holes: nat, names: nat)
    requires
        term_within(term, holes, names),
        arithmetic(term) is Some,
    ensures
        term_within(arithmetic(term)->0, holes, names),
{
    let left = term.parts[0];
    let right = term.parts[1];
    lemma_part_within(term, 0, holes, names);
    lemma_part_within(term, 1, holes, names);
    if term.shape == Shape::Binary("-"@) && left.shape == Shape::Binary("-"@) && left.parts.len()
        == 2 {
        lemma_part_within(left, 0, holes, names);
        lemma_part_within(left, 1, holes, names);
        lemma_two_within(Shape::Binary("+"@), left.parts[1], right, holes, names);
        lemma_two_within(
            Shape::Binary("-"@),
            left.parts[0],
            Term { shape: Shape::Binary("+"@), parts: seq![left.parts[1], right] },
            holes,
            names,
        );
    } else {
        lemma_two_within(term.shape, right, left, holes, names);
    }
}

proof fn lemma_whole_span_within(term: Term, holes: nat, names: nat)
    requires
        term_within(term, holes, names),
        whole_span(term) is Some,
    ensures
        term_within(whole_span(term)->0, holes, names),
{
    lemma_part_within(term, 1, holes, names);
    lemma_part_within(term.parts[1], 0, holes, names);
}

proof fn lemma_element_traversal_within(term: Term, holes: nat, names: nat)
    requires
        term_within(term, holes, names),
        element_traversal(term) is Some,
    ensures
        term_within(element_traversal(term)->0, holes, names),
{
    lemma_part_within(term, 0, holes, names);
    lemma_part_within(term, 1, holes, names);
    lemma_whole_span_within(term.parts[0], holes, names);
    let source = whole_span(term.parts[0])->0;
    let index = binding_of(shape_binders(term.shape)[0])->0;
    lemma_elements_within(term.parts[1], source, seq![index], holes, names);
    lemma_two_within(
        term.shape,
        source,
        with_elements(term.parts[1], source, seq![index]),
        holes,
        names,
    );
}

proof fn lemma_pairwise_within(term: Term, holes: nat, names: nat)
    requires
        term_within(term, holes, names),
        pairwise(term) is Some,
    ensures
        term_within(pairwise(term)->0, holes, names),
{
    lemma_part_within(term, 0, holes, names);
    lemma_part_within(term, 1, holes, names);
    let step = only_step(term.parts[1])->0;
    if term.parts[1].shape is Sequence {
        lemma_part_within(term.parts[1], 0, holes, names);
    }
    lemma_part_within(step, 0, holes, names);
    lemma_part_within(step, 1, holes, names);
    lemma_binder_within(term, 0, holes, names);
    lemma_binder_within(step, 0, holes, names);
    let first = shape_binders(term.shape)[0];
    let second = shape_binders(step.shape)[0];
    let outer = term.parts[0];
    let inner = step.parts[0];
    let body = step.parts[1];
    let pairs = pairwise(term)->0;
    if indexed_pairs(outer, first, inner, second, body) is Some {
        lemma_whole_span_within(outer, holes, names);
        let source = whole_span(outer)->0;
        let positions = seq![binding_of(first)->0, binding_of(second)->0];
        lemma_elements_within(body, source, positions, holes, names);
        lemma_pair_within(first, second, names);
        lemma_two_within(
            pairs.shape,
            source,
            with_elements(body, source, positions),
            holes,
            names,
        );
    } else {
        assert(enumerated_pairs(outer, first, inner, second, body) is Some);
        lemma_part_within(outer, 0, holes, names);
        let element = first.parts[1];
        assert(pattern_within(element, names));
        lemma_pair_within(element, second, names);
        lemma_two_within(pairs.shape, outer.parts[0], body, holes, names);
    }
}

proof fn lemma_recovered_within(term: Term, holes: nat, names: nat)
    requires
        term_within(term, holes, names),
        recovered(term) is Some,
    ensures
        term_within(recovered(term)->0, holes, names),
{
    lemma_part_within(term, 0, holes, names);
    lemma_wrapped_within(term.parts[0], holes, names);
    lemma_two_within(Shape::Sequence, wrapped(term.parts[0]), none_term(), holes, names);
}

/// Whether everything some names are bound to is within limits.
spec fn bindings_within(bindings: Seq<(u32, Term)>, holes: nat, names: nat) -> bool {
    forall|i: int| 0 <= i < bindings.len() ==> term_within((#[trigger] bindings[i]).1, holes, names)
}

proof fn lemma_lookup_within(bindings: Seq<(u32, Term)>, index: u32, holes: nat, names: nat)
    requires
        bindings_within(bindings, holes, names),
        lookup(bindings, index) is Some,
    ensures
        term_within(lookup(bindings, index)->0, holes, names),
    decreases bindings.len(),
{
    if bindings[0].0 != index {
        assert forall|i: int| 0 <= i < bindings.drop_first().len() implies term_within(
            (#[trigger] bindings.drop_first()[i]).1,
            holes,
            names,
        ) by {
            assert(bindings.drop_first()[i] == bindings[i + 1]);
        }
        lemma_lookup_within(bindings.drop_first(), index, holes, names);
    } else {
        assert(term_within(bindings[0].1, holes, names));
    }
}

proof fn lemma_filled_within(
    body: Term,
    parameters: Seq<PatternTerm>,
    arguments: Seq<Term>,
    count: nat,
    holes: nat,
    names: nat,
)
    requires
        term_within(body, holes, names),
        terms_within(arguments, holes, names),
        count <= arguments.len(),
    ensures
        term_within(filled(body, parameters, arguments, count), holes, names),
    decreases count,
{
    if count > 0 {
        lemma_filled_within(body, parameters, arguments, (count - 1) as nat, holes, names);
        if let Some(bound) = binding_of(parameters[count - 1]) {
            assert(term_within(arguments[count - 1], holes, names));
            lemma_substituted_within(
                filled(body, parameters, arguments, (count - 1) as nat),
                bound,
                arguments[count - 1],
                holes,
                names,
            );
        }
    }
}

proof fn lemma_applied_within(
    term: Term,
    bindings: Seq<(u32, Term)>,
    fuel: nat,
    holes: nat,
    names: nat,
)
    requires
        term_within(term, holes, names),
        bindings_within(bindings, holes, names),
    ensures
        term_within(applied(term, bindings, fuel).0, holes, names),
    decreases fuel, term,
{
    if called(term, bindings) is Some && fuel > 0 {
        let (parameters, body) = called(term, bindings)->0;
        let arguments = term.parts.drop_first();
        if let Shape::Local(index) = term.parts[0].shape {
            lemma_lookup_within(bindings, index, holes, names);
            lemma_part_within(lookup(bindings, index)->0, 0, holes, names);
        }
        assert forall|i: int| 0 <= i < arguments.len() implies term_within(
            #[trigger] arguments[i],
            holes,
            names,
        ) by {
            assert(arguments[i] == term.parts[i + 1]);
        }
        let count = paired(parameters, arguments);
        lemma_filled_within(body, parameters, arguments, count, holes, names);
        lemma_applied_within(
            filled(body, parameters, arguments, count),
            bindings,
            (fuel - 1) as nat,
            holes,
            names,
        );
    } else {
        assert(decreases_to!(term => term.parts));
        lemma_each_applied_within(term.parts, bindings, fuel, holes, names);
    }
}

proof fn lemma_each_applied_within(
    terms: Seq<Term>,
    bindings: Seq<(u32, Term)>,
    fuel: nat,
    holes: nat,
    names: nat,
)
    requires
        terms_within(terms, holes, names),
        bindings_within(bindings, holes, names),
    ensures
        terms_within(each_applied(terms, bindings, fuel).0, holes, names),
    decreases fuel, terms,
{
    if terms.len() > 0 {
        lemma_prefix_within(terms, holes, names);
        lemma_each_applied_within(terms.drop_last(), bindings, fuel, holes, names);
        let (before, left) = each_applied(terms.drop_last(), bindings, fuel);
        if left <= fuel {
            assert(term_within(terms[terms.len() - 1], holes, names));
            lemma_applied_within(terms.last(), bindings, left, holes, names);
        }
    }
}

proof fn lemma_prefix_within(terms: Seq<Term>, holes: nat, names: nat)
    requires
        terms_within(terms, holes, names),
        terms.len() > 0,
    ensures
        terms_within(terms.drop_last(), holes, names),
{
    assert forall|i: int| 0 <= i < terms.drop_last().len() implies term_within(
        #[trigger] terms.drop_last()[i],
        holes,
        names,
    ) by {
        assert(terms.drop_last()[i] == terms[i]);
    }
}

proof fn lemma_lambda_bindings_within(steps: Seq<Term>, holes: nat, names: nat)
    requires
        terms_within(steps, holes, names),
    ensures
        bindings_within(lambda_bindings(steps), holes, names),
    decreases steps.len(),
{
    if steps.len() > 0 {
        lemma_prefix_within(steps, holes, names);
        lemma_lambda_bindings_within(steps.drop_last(), holes, names);
        assert(term_within(steps[steps.len() - 1], holes, names));
        if lambda_binding(steps.last()) is Some {
            lemma_part_within(steps.last(), 0, holes, names);
        }
    }
}

proof fn lemma_safe_within(bindings: Seq<(u32, Term)>, rounds: nat, holes: nat, names: nat)
    requires
        bindings_within(bindings, holes, names),
    ensures
        bindings_within(safe_after(bindings, rounds), holes, names),
    decreases rounds,
{
    if rounds > 0 {
        let safe = safe_after(bindings, (rounds - 1) as nat);
        lemma_safe_within(bindings, (rounds - 1) as nat, holes, names);
        lemma_first_ready_range(bindings, safe, 0);
    }
}

proof fn lemma_first_ready_range(bindings: Seq<(u32, Term)>, safe: Seq<(u32, Term)>, i: int)
    requires
        0 <= i,
    ensures
        first_ready(bindings, safe, i) matches Some(found) ==> i <= found < bindings.len(),
    decreases bindings.len() - i,
{
    if i < bindings.len() {
        lemma_first_ready_range(bindings, safe, i + 1);
    }
}

proof fn lemma_filter_within(
    terms: Seq<Term>,
    keeps: spec_fn(Term) -> bool,
    holes: nat,
    names: nat,
)
    requires
        terms_within(terms, holes, names),
    ensures
        terms_within(terms.filter(keeps), holes, names),
    decreases terms.len(),
{
    reveal(Seq::filter);
    if terms.len() > 0 {
        lemma_prefix_within(terms, holes, names);
        lemma_filter_within(terms.drop_last(), keeps, holes, names);
        assert(term_within(terms[terms.len() - 1], holes, names));
    }
}

proof fn lemma_unfolded_within(term: Term, fuel: nat, holes: nat, names: nat)
    requires
        term_within(term, holes, names),
    ensures
        unfolded(term, fuel).0 matches Some(block) ==> term_within(block, holes, names),
{
    let bindings = lambda_bindings(term.parts);
    let safe = safe_bindings(bindings);
    if term.shape is Sequence && safe.len() > 0 {
        lemma_lambda_bindings_within(term.parts, holes, names);
        lemma_safe_within(bindings, bindings.len(), holes, names);
        lemma_each_applied_within(term.parts, safe, fuel, holes, names);
        let steps = each_applied(term.parts, safe, fuel).0;
        lemma_filter_within(steps, |step: Term| survives(step, safe, steps), holes, names);
        let kept = surviving(steps, safe);
        if kept.len() == 1 {
            assert(term_within(kept[0], holes, names));
        }
    }
}

proof fn lemma_rewritten_within(term: Term, fuel: nat, holes: nat, names: nat)
    requires
        term_within(term, holes, names),
    ensures
        term_within(rewritten(term, fuel).0, holes, names),
{
    if fused(term) is Some {
        lemma_fused_within(term, holes, names);
    } else if searched(term) is Some {
        lemma_searched_within(term, holes, names);
    } else if returned_sequence(term) is Some {
        lemma_returned_within(term, holes, names);
    } else if optional_search(term) is Some {
        lemma_optional_within(term, holes, names);
    } else if escaped(term) is Some {
        lemma_escaped_within(term, holes, names);
    } else if traversed(term) is Some {
        lemma_traversed_within(term, holes, names);
    } else if arithmetic(term) is Some {
        lemma_arithmetic_within(term, holes, names);
    } else if element_traversal(term) is Some {
        lemma_element_traversal_within(term, holes, names);
    } else if pairwise(term) is Some {
        lemma_pairwise_within(term, holes, names);
    } else if recovered(term) is Some {
        lemma_recovered_within(term, holes, names);
    } else {
        lemma_unfolded_within(term, fuel, holes, names);
    }
}

proof fn lemma_swept_within(term: Term, fuel: nat, holes: nat, names: nat)
    requires
        term_within(term, holes, names),
    ensures
        term_within(swept(term, fuel).0, holes, names),
    decreases term,
{
    assert(decreases_to!(term => term.parts));
    lemma_each_swept_within(term.parts, fuel, holes, names);
    let (parts, left) = each_swept(term.parts, fuel);
    lemma_rewritten_within(Term { shape: term.shape, parts }, left, holes, names);
}

proof fn lemma_each_swept_within(terms: Seq<Term>, fuel: nat, holes: nat, names: nat)
    requires
        terms_within(terms, holes, names),
    ensures
        terms_within(each_swept(terms, fuel).0, holes, names),
    decreases terms,
{
    if terms.len() > 0 {
        lemma_prefix_within(terms, holes, names);
        lemma_each_swept_within(terms.drop_last(), fuel, holes, names);
        let (before, left) = each_swept(terms.drop_last(), fuel);
        assert(term_within(terms[terms.len() - 1], holes, names));
        lemma_swept_within(terms.last(), left, holes, names);
    }
}

/// Rewriting a form brings in no hole and no name above those it had.
pub proof fn law_reducing_brings_no_new_names(
    term: Term,
    fuel: nat,
    sweeps: nat,
    holes: nat,
    names: nat,
)
    requires
        term_within(term, holes, names),
    ensures
        term_within(reduced(term, fuel, sweeps), holes, names),
    decreases sweeps,
{
    if sweeps > 0 {
        let (next, left) = swept(term, fuel);
        lemma_swept_within(term, fuel, holes, names);
        if next != term {
            law_reducing_brings_no_new_names(next, left, (sweeps - 1) as nat, holes, names);
        }
    }
}

/// Whether every number of a list is below a limit.
spec fn all_below(numbers: Seq<u32>, limit: nat) -> bool {
    forall|i: int| 0 <= i < numbers.len() ==> #[trigger] numbers[i] < limit
}

proof fn lemma_joined_below(lists: Seq<Seq<u32>>, limit: nat)
    requires
        forall|i: int| 0 <= i < lists.len() ==> all_below(#[trigger] lists[i], limit),
    ensures
        all_below(joined(lists), limit),
    decreases lists.len(),
{
    if lists.len() > 0 {
        let before = lists.drop_last();
        assert forall|i: int| 0 <= i < before.len() implies all_below(
            #[trigger] before[i],
            limit,
        ) by {
            assert(before[i] == lists[i]);
        }
        lemma_joined_below(before, limit);
        assert(all_below(lists[lists.len() - 1], limit));
    }
}

proof fn lemma_joined_below_each(lists: Seq<Seq<u32>>, i: int, limit: nat)
    requires
        all_below(joined(lists), limit),
        0 <= i < lists.len(),
    ensures
        all_below(lists[i], limit),
    decreases lists.len(),
{
    let before = joined(lists.drop_last());
    if i == lists.len() - 1 {
        assert forall|j: int| 0 <= j < lists[i].len() implies #[trigger] lists[i][j] < limit by {
            assert(joined(lists)[before.len() + j] == lists[i][j]);
        }
    } else {
        assert forall|j: int| 0 <= j < before.len() implies #[trigger] before[j] < limit by {
            assert(joined(lists)[j] == before[j]);
        }
        lemma_joined_below_each(lists.drop_last(), i, limit);
    }
}

proof fn lemma_free_names_within(term: Term, holes: nat, names: nat)
    requires
        term_within(term, holes, names),
    ensures
        all_below(free_names(term), holes),
    decreases term,
{
    let each = each_free_names(term.parts);
    assert forall|i: int| 0 <= i < each.len() implies all_below(#[trigger] each[i], holes) by {
        lemma_part_smaller(term, i);
        lemma_part_within(term, i, holes, names);
        lemma_free_names_within(term.parts[i], holes, names);
    }
    lemma_joined_below(each, holes);
}

proof fn lemma_unbound_names_within(term: Term, bound: Seq<u32>, holes: nat, names: nat)
    requires
        term_within(term, holes, names),
    ensures
        all_below(unbound_names(term, bound), names),
    decreases term,
{
    let each = each_unbound_names(term.parts, bound);
    assert forall|i: int| 0 <= i < each.len() implies all_below(#[trigger] each[i], names) by {
        lemma_part_smaller(term, i);
        lemma_part_within(term, i, holes, names);
        lemma_unbound_names_within(term.parts[i], bound, holes, names);
    }
    lemma_joined_below(each, names);
}

proof fn lemma_pattern_limit(pattern: PatternTerm, names: nat)
    requires
        all_below(pattern_names(pattern), names),
    ensures
        pattern_within(pattern, names),
    decreases pattern,
{
    let own = match pattern.kind {
        PatternKind::Binding(index) => seq![index],
        _ => Seq::empty(),
    };
    let rest = joined(each_pattern_names(pattern.parts));
    assert(pattern_names(pattern) == own + rest);
    if pattern.kind is Binding {
        assert((own + rest)[0] == own[0]);
    }
    assert forall|j: int| 0 <= j < rest.len() implies #[trigger] rest[j] < names by {
        assert((own + rest)[own.len() + j] == rest[j]);
    }
    assert(decreases_to!(pattern => pattern.parts));
    lemma_patterns_limit(pattern.parts, names);
}

proof fn lemma_patterns_limit(patterns: Seq<PatternTerm>, names: nat)
    requires
        all_below(joined(each_pattern_names(patterns)), names),
    ensures
        patterns_within(patterns, names),
    decreases patterns,
{
    assert forall|i: int| 0 <= i < patterns.len() implies pattern_within(
        #[trigger] patterns[i],
        names,
    ) by {
        lemma_joined_below_each(each_pattern_names(patterns), i, names);
        assert(each_pattern_names(patterns)[i] == pattern_names(patterns[i]));
        assert(decreases_to!(patterns => patterns[i]));
        lemma_pattern_limit(patterns[i], names);
    }
}

proof fn lemma_term_limit(term: Term, holes: nat, names: nat)
    requires
        all_below(free_names(term), holes),
        all_below(local_names(term), names),
        all_below(bound_names(term), names),
    ensures
        term_within(term, holes, names),
    decreases term,
{
    let frees = each_free_names(term.parts);
    let locals = each_local_names(term.parts);
    let bounds = each_bound_names(term.parts);
    let own_free = match term.shape {
        Shape::Free(index) => seq![index],
        _ => Seq::empty(),
    };
    let own_local = match term.shape {
        Shape::Local(index) => seq![index],
        _ => Seq::empty(),
    };
    let own_bound = joined(each_pattern_names(shape_binders(term.shape)));
    assert(free_names(term) == own_free + joined(frees));
    assert(local_names(term) == own_local + joined(locals));
    assert(bound_names(term) == own_bound + joined(bounds));
    if term.shape is Free {
        assert((own_free + joined(frees))[0] == own_free[0]);
    }
    if term.shape is Local {
        assert((own_local + joined(locals))[0] == own_local[0]);
    }
    assert forall|j: int| 0 <= j < own_bound.len() implies #[trigger] own_bound[j] < names by {
        assert((own_bound + joined(bounds))[j] == own_bound[j]);
    }
    lemma_patterns_limit(shape_binders(term.shape), names);
    assert(all_below(joined(frees), holes)) by {
        assert forall|j: int| 0 <= j < joined(frees).len() implies #[trigger] joined(frees)[j]
            < holes by {
            assert((own_free + joined(frees))[own_free.len() + j] == joined(frees)[j]);
        }
    }
    assert(all_below(joined(locals), names)) by {
        assert forall|j: int| 0 <= j < joined(locals).len() implies #[trigger] joined(locals)[j]
            < names by {
            assert((own_local + joined(locals))[own_local.len() + j] == joined(locals)[j]);
        }
    }
    assert(all_below(joined(bounds), names)) by {
        assert forall|j: int| 0 <= j < joined(bounds).len() implies #[trigger] joined(bounds)[j]
            < names by {
            assert((own_bound + joined(bounds))[own_bound.len() + j] == joined(bounds)[j]);
        }
    }
    assert forall|i: int| 0 <= i < term.parts.len() implies term_within(
        #[trigger] term.parts[i],
        holes,
        names,
    ) by {
        lemma_joined_below_each(frees, i, holes);
        lemma_joined_below_each(locals, i, names);
        lemma_joined_below_each(bounds, i, names);
        lemma_part_smaller(term, i);
        lemma_term_limit(term.parts[i], holes, names);
    }
}

/// Every term is within its own limits.
pub proof fn lemma_within_own_limits(term: Term)
    ensures
        term_within(term, hole_limit(term), name_limit(term)),
{
    let all = local_names(term) + bound_names(term);
    assert forall|i: int| 0 <= i < free_names(term).len() implies #[trigger] free_names(term)[i]
        < hole_limit(term) by {
        lemma_highest_bounds(free_names(term), i);
    }
    assert forall|i: int| 0 <= i < local_names(term).len() implies #[trigger] local_names(term)[i]
        < name_limit(term) by {
        lemma_highest_bounds(all, i);
        assert(all[i] == local_names(term)[i]);
    }
    assert forall|i: int| 0 <= i < bound_names(term).len() implies #[trigger] bound_names(term)[i]
        < name_limit(term) by {
        lemma_highest_bounds(all, local_names(term).len() + i);
        assert(all[local_names(term).len() + i] == bound_names(term)[i]);
    }
    lemma_term_limit(term, hole_limit(term), name_limit(term));
}

proof fn lemma_highest_below(numbers: Seq<u32>, limit: nat)
    requires
        all_below(numbers, limit),
    ensures
        highest(numbers) matches Some(index) ==> index < limit,
    decreases numbers.len(),
{
    if numbers.len() > 0 {
        assert(all_below(numbers.drop_last(), limit)) by {
            assert forall|i: int| 0 <= i < numbers.drop_last().len() implies #[trigger]
                numbers.drop_last()[i] < limit by {
                assert(numbers.drop_last()[i] == numbers[i]);
            }
        }
        lemma_highest_below(numbers.drop_last(), limit);
        assert(numbers[numbers.len() - 1] < limit);
    }
}

/// Where a form's own numbers leave room, the names that become holes once it
/// is rewritten have numbers to spare.
pub proof fn law_small_numbers_leave_room(term: Term, fuel: nat, sweeps: nat)
    requires
        hole_limit(term) + name_limit(term) <= u32::MAX,
    ensures
        has_room(reduced(term, fuel, sweeps)),
{
    let holes = hole_limit(term);
    let names = name_limit(term);
    let result = reduced(term, fuel, sweeps);
    lemma_within_own_limits(term);
    law_reducing_brings_no_new_names(term, fuel, sweeps, holes, names);
    lemma_free_names_within(result, holes, names);
    lemma_highest_below(free_names(result), holes);
    let bound = bound_names(result);
    let unbound = unbound_names(result, bound);
    lemma_unbound_names_within(result, bound, holes, names);
    lemma_extended(Seq::<u32>::empty(), unbound);
    let fresh = fresh_names(result);
    assert forall|i: int| 0 <= i < fresh.len() implies #[trigger] fresh[i] < names by {
        assert(fresh.contains(fresh[i]));
        let j = choose|j: int| 0 <= j < unbound.len() && unbound[j] == fresh[i];
        assert(unbound[j] < names);
    }
    lemma_distinct_below(fresh, names);
}

} // verus!
