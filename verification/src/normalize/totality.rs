//! The order on forms is total, and so the operands of a commutative operator
//! settle in one order whichever way round they are written.

use crate::normalize::form::{Form, PatternKind, PatternTerm, Shape, Term};
use crate::normalize::laws::{arithmetic, folded_operands, is_commutative};
use crate::normalize::order::{
    arms_order, before_patterns, leading_order, pattern_kind_order, pattern_order, patterns_order,
    shape_rank, term_order, terms_order, trailing_order, walk_order,
};
use crate::normalize::shaped::{all_shaped, is_shaped, lemma_form_shaped};
use crate::normalize::simplify::{each_swept, reduced, rewritten, swept};
use crate::text::{
    carries_over, lemma_text_order_total, parsed_integer, turns_round, Comparison,
};
use vstd::prelude::*;

verus! {

/// The text that a kind of pattern holds.
spec fn kind_text(kind: PatternKind) -> Seq<char> {
    match kind {
        PatternKind::Variant(name) => name,
        _ => Seq::empty(),
    }
}

/// Kinds of pattern are put in a total order.
proof fn lemma_kind_order(first: PatternKind, second: PatternKind, third: PatternKind)
    ensures
        pattern_kind_order(first, second) == Comparison::Equal <==> first == second,
        turns_round(pattern_kind_order(first, second), pattern_kind_order(second, first)),
        carries_over(
            pattern_kind_order(first, second),
            pattern_kind_order(second, third),
            pattern_kind_order(first, third),
        ),
{
    lemma_text_order_total(kind_text(first), kind_text(second), kind_text(third));
    lemma_text_order_total(kind_text(second), kind_text(third), kind_text(first));
    lemma_text_order_total(kind_text(first), kind_text(third), kind_text(second));
}

/// Patterns are put in a total order.
proof fn lemma_pattern_order(first: PatternTerm, second: PatternTerm, third: PatternTerm)
    ensures
        pattern_order(first, second) == Comparison::Equal <==> first == second,
        turns_round(pattern_order(first, second), pattern_order(second, first)),
        carries_over(
            pattern_order(first, second),
            pattern_order(second, third),
            pattern_order(first, third),
        ),
    decreases first,
{
    lemma_kind_order(first.kind, second.kind, third.kind);
    lemma_patterns_order(first.parts, second.parts, third.parts);
}

/// Lists of patterns are put in a total order.
proof fn lemma_patterns_order(
    first: Seq<PatternTerm>,
    second: Seq<PatternTerm>,
    third: Seq<PatternTerm>,
)
    ensures
        patterns_order(first, second) == Comparison::Equal <==> first == second,
        turns_round(patterns_order(first, second), patterns_order(second, first)),
        carries_over(
            patterns_order(first, second),
            patterns_order(second, third),
            patterns_order(first, third),
        ),
    decreases first,
{
    if first.len() > 0 && second.len() > 0 {
        let last = if third.len() > 0 {
            third[0]
        } else {
            first[0]
        };
        lemma_pattern_order(first[0], second[0], last);
        lemma_patterns_order(first.drop_first(), second.drop_first(), third.drop_first());
        if first[0] == second[0] && first.drop_first() == second.drop_first() {
            assert(first =~= seq![first[0]] + first.drop_first());
            assert(second =~= seq![second[0]] + second.drop_first());
        }
    } else if first.len() == second.len() {
        assert(first =~= second);
    }
}

/// The text that a shape holds.
spec fn shape_text(shape: Shape) -> Seq<char> {
    match shape {
        Shape::Constant(text)
        | Shape::Number(text)
        | Shape::Construct(text)
        | Shape::Variant(text)
        | Shape::Path(text)
        | Shape::Field(text)
        | Shape::Method(text)
        | Shape::Collect(Some(text))
        | Shape::Assign(text)
        | Shape::Binary(text)
        | Shape::Unary(text)
        | Shape::Opaque(text) => text,
        _ => Seq::empty(),
    }
}

/// The pattern that a shape holds, the first where it holds two.
spec fn shape_pattern(shape: Shape) -> PatternTerm {
    match shape {
        Shape::Traverse(pattern, _)
        | Shape::Pairwise(pattern, _, _)
        | Shape::Transform(pattern)
        | Shape::Sift(pattern)
        | Shape::Retain(pattern)
        | Shape::Accumulate(pattern, _)
        | Shape::Let(pattern) => pattern,
        _ => PatternTerm { kind: PatternKind::Ignored, parts: Seq::empty() },
    }
}

/// The second pattern that a shape holds.
spec fn shape_second(shape: Shape) -> PatternTerm {
    match shape {
        Shape::Pairwise(_, pattern, _) | Shape::Accumulate(_, pattern) => pattern,
        _ => PatternTerm { kind: PatternKind::Ignored, parts: Seq::empty() },
    }
}

/// The list of patterns that a lambda's shape holds.
spec fn shape_patterns(shape: Shape) -> Seq<PatternTerm> {
    match shape {
        Shape::Lambda(patterns) => patterns,
        _ => Seq::empty(),
    }
}

/// What shapes of one kind hold is put in a total order.
#[verifier::rlimit(60)]
#[verifier::spinoff_prover]
proof fn lemma_shape_pair(first: Shape, second: Shape)
    requires
        shape_rank(first) == shape_rank(second),
        !(first is Select),
    ensures
        leading_order(first, second) == Comparison::Equal && walk_order(first, second)
            == Comparison::Equal && trailing_order(first, second) == Comparison::Equal <==> first
            == second,
        turns_round(leading_order(first, second), leading_order(second, first)),
        turns_round(walk_order(first, second), walk_order(second, first)),
        turns_round(trailing_order(first, second), trailing_order(second, first)),
        before_patterns(first) > 0 ==> leading_order(first, second) == Comparison::Equal,
        before_patterns(first) == 0 ==> walk_order(first, second) == Comparison::Equal,
        before_patterns(first) == before_patterns(second),
{
    lemma_text_order_total(shape_text(first), shape_text(second), shape_text(first));
    lemma_pattern_order(shape_pattern(first), shape_pattern(second), shape_pattern(first));
    lemma_pattern_order(shape_second(first), shape_second(second), shape_second(first));
    lemma_patterns_order(shape_patterns(first), shape_patterns(second), shape_patterns(first));
}

/// What shapes of one kind hold is compared alike over one step and two.
#[verifier::rlimit(60)]
#[verifier::spinoff_prover]
proof fn lemma_shape_steps(first: Shape, second: Shape, third: Shape)
    requires
        shape_rank(first) == shape_rank(second),
        shape_rank(second) == shape_rank(third),
    ensures
        carries_over(
            leading_order(first, second),
            leading_order(second, third),
            leading_order(first, third),
        ),
        carries_over(
            walk_order(first, second),
            walk_order(second, third),
            walk_order(first, third),
        ),
        carries_over(
            trailing_order(first, second),
            trailing_order(second, third),
            trailing_order(first, third),
        ),
{
    lemma_text_order_total(shape_text(first), shape_text(second), shape_text(third));
    lemma_text_order_total(shape_text(second), shape_text(third), shape_text(first));
    lemma_text_order_total(shape_text(first), shape_text(third), shape_text(second));
    lemma_pattern_order(shape_pattern(first), shape_pattern(second), shape_pattern(third));
    lemma_pattern_order(shape_second(first), shape_second(second), shape_second(third));
    lemma_patterns_order(shape_patterns(first), shape_patterns(second), shape_patterns(third));
}

/// The terms of a list but the first are shaped where all are.
proof fn lemma_rest_shaped(terms: Seq<Term>)
    requires
        all_shaped(terms),
        terms.len() > 0,
    ensures
        is_shaped(terms[0]),
        all_shaped(terms.drop_first()),
{
    let rest = terms.drop_first();
    assert forall|i: int| 0 <= i < rest.len() implies is_shaped(#[trigger] rest[i]) by {
        assert(rest[i] == terms[i + 1]);
    }
}

/// The terms of a part of a list are shaped where all are.
proof fn lemma_part_shaped(terms: Seq<Term>, start: int, end: int)
    requires
        all_shaped(terms),
        0 <= start <= end <= terms.len(),
    ensures
        all_shaped(terms.subrange(start, end)),
{
    let part = terms.subrange(start, end);
    assert forall|i: int| 0 <= i < part.len() implies is_shaped(#[trigger] part[i]) by {
        assert(part[i] == terms[start + i]);
    }
}

/// Terms of one kind are put in a total order.
#[verifier::rlimit(60)]
#[verifier::spinoff_prover]
proof fn lemma_kindred_order(first: Term, second: Term, third: Term)
    requires
        is_shaped(first),
        is_shaped(second),
        is_shaped(third),
        shape_rank(first.shape) == shape_rank(second.shape),
        shape_rank(second.shape) == shape_rank(third.shape),
    ensures
        term_order(first, second) == Comparison::Equal <==> first == second,
        turns_round(term_order(first, second), term_order(second, first)),
        carries_over(
            term_order(first, second),
            term_order(second, third),
            term_order(first, third),
        ),
    decreases first, 0nat,
{
    assert(decreases_to!(first => first.parts));
    let cut = before_patterns(first.shape) as int;
    if let Shape::Select(patterns) = first.shape {
        lemma_rest_shaped(first.parts);
        lemma_rest_shaped(second.parts);
        lemma_rest_shaped(third.parts);
        assert(decreases_to!(first.parts => first.parts[0]));
        assert(decreases_to!(first.parts => first.parts.drop_first()));
        lemma_term_order(first.parts[0], second.parts[0], third.parts[0]);
        lemma_arms_order(
            patterns,
            first.parts.drop_first(),
            second.shape->Select_0,
            second.parts.drop_first(),
            third.shape->Select_0,
            third.parts.drop_first(),
        );
        if first.parts[0] == second.parts[0] && first.parts.drop_first()
            == second.parts.drop_first() {
            assert(first.parts =~= seq![first.parts[0]] + first.parts.drop_first());
            assert(second.parts =~= seq![second.parts[0]] + second.parts.drop_first());
        }
    } else {
        lemma_shape_pair(first.shape, second.shape);
        lemma_shape_pair(second.shape, third.shape);
        lemma_shape_steps(first.shape, second.shape, third.shape);
        if cut > 0 {
            assert(decreases_to!(first.parts => first.parts.subrange(0, cut)));
            assert(decreases_to!(first.parts => first.parts.skip(cut)));
            lemma_part_shaped(first.parts, 0, cut);
            lemma_part_shaped(second.parts, 0, cut);
            lemma_part_shaped(third.parts, 0, cut);
            lemma_part_shaped(first.parts, cut, first.parts.len() as int);
            lemma_part_shaped(second.parts, cut, second.parts.len() as int);
            lemma_part_shaped(third.parts, cut, third.parts.len() as int);
            lemma_terms_order(
                first.parts.subrange(0, cut),
                second.parts.subrange(0, cut),
                third.parts.subrange(0, cut),
            );
            lemma_terms_order(
                first.parts.skip(cut),
                second.parts.skip(cut),
                third.parts.skip(cut),
            );
            if first.parts.subrange(0, cut) == second.parts.subrange(0, cut)
                && first.parts.skip(cut) == second.parts.skip(cut) {
                assert(first.parts =~= first.parts.subrange(0, cut) + first.parts.skip(cut));
                assert(second.parts =~= second.parts.subrange(0, cut) + second.parts.skip(cut));
            }
        } else {
            lemma_terms_order(first.parts, second.parts, third.parts);
        }
    }
}

/// Terms are put in a total order.
proof fn lemma_term_order(first: Term, second: Term, third: Term)
    requires
        is_shaped(first),
        is_shaped(second),
        is_shaped(third),
    ensures
        term_order(first, second) == Comparison::Equal <==> first == second,
        turns_round(term_order(first, second), term_order(second, first)),
        carries_over(
            term_order(first, second),
            term_order(second, third),
            term_order(first, third),
        ),
    decreases first, 1nat,
{
    if shape_rank(first.shape) == shape_rank(second.shape) {
        let last = if shape_rank(second.shape) == shape_rank(third.shape) {
            third
        } else {
            first
        };
        lemma_kindred_order(first, second, last);
    }
}

/// Lists of terms are put in a total order.
proof fn lemma_terms_order(first: Seq<Term>, second: Seq<Term>, third: Seq<Term>)
    requires
        all_shaped(first),
        all_shaped(second),
        all_shaped(third),
    ensures
        terms_order(first, second) == Comparison::Equal <==> first == second,
        turns_round(terms_order(first, second), terms_order(second, first)),
        carries_over(
            terms_order(first, second),
            terms_order(second, third),
            terms_order(first, third),
        ),
    decreases first, 0nat,
{
    if first.len() > 0 && second.len() > 0 {
        let last = if third.len() > 0 {
            third
        } else {
            first
        };
        lemma_rest_shaped(first);
        lemma_rest_shaped(second);
        lemma_rest_shaped(last);
        assert(decreases_to!(first => first[0]));
        assert(decreases_to!(first => first.drop_first()));
        lemma_term_order(first[0], second[0], last[0]);
        lemma_terms_order(first.drop_first(), second.drop_first(), last.drop_first());
        if first[0] == second[0] && first.drop_first() == second.drop_first() {
            assert(first =~= seq![first[0]] + first.drop_first());
            assert(second =~= seq![second[0]] + second.drop_first());
        }
    } else if first.len() == second.len() {
        assert(first =~= second);
    }
}

/// The arms of decisions are put in a total order.
#[verifier::rlimit(30)]
#[verifier::spinoff_prover]
proof fn lemma_arms_order(
    first_patterns: Seq<PatternTerm>,
    first: Seq<Term>,
    second_patterns: Seq<PatternTerm>,
    second: Seq<Term>,
    third_patterns: Seq<PatternTerm>,
    third: Seq<Term>,
)
    requires
        all_shaped(first),
        all_shaped(second),
        all_shaped(third),
        first_patterns.len() == first.len(),
        second_patterns.len() == second.len(),
        third_patterns.len() == third.len(),
    ensures
        arms_order(first_patterns, first, second_patterns, second) == Comparison::Equal <==> (
        first_patterns == second_patterns && first == second),
        turns_round(
            arms_order(first_patterns, first, second_patterns, second),
            arms_order(second_patterns, second, first_patterns, first),
        ),
        carries_over(
            arms_order(first_patterns, first, second_patterns, second),
            arms_order(second_patterns, second, third_patterns, third),
            arms_order(first_patterns, first, third_patterns, third),
        ),
    decreases first, 0nat,
{
    if first.len() > 0 && second.len() > 0 {
        let (last_patterns, last) = if third.len() > 0 {
            (third_patterns, third)
        } else {
            (first_patterns, first)
        };
        lemma_rest_shaped(first);
        lemma_rest_shaped(second);
        lemma_rest_shaped(last);
        assert(decreases_to!(first => first[0]));
        assert(decreases_to!(first => first.drop_first()));
        lemma_pattern_order(first_patterns[0], second_patterns[0], last_patterns[0]);
        lemma_term_order(first[0], second[0], last[0]);
        lemma_arms_order(
            first_patterns.drop_first(),
            first.drop_first(),
            second_patterns.drop_first(),
            second.drop_first(),
            last_patterns.drop_first(),
            last.drop_first(),
        );
        if first[0] == second[0] && first.drop_first() == second.drop_first() {
            assert(first =~= seq![first[0]] + first.drop_first());
            assert(second =~= seq![second[0]] + second.drop_first());
        }
        if first_patterns[0] == second_patterns[0] && first_patterns.drop_first()
            == second_patterns.drop_first() {
            assert(first_patterns =~= seq![first_patterns[0]] + first_patterns.drop_first());
            assert(second_patterns =~= seq![second_patterns[0]] + second_patterns.drop_first());
        }
    } else if first.len() == second.len() {
        assert(first =~= second);
        assert(first_patterns =~= second_patterns);
    }
}

/// Forms are put in a total order: only a form itself compares equal to it,
/// swapping two forms turns their comparison round, and a comparison carries
/// over from one step to two.
pub proof fn law_forms_are_in_a_total_order(first: Form, second: Form, third: Form)
    ensures
        term_order(first@, second@) == Comparison::Equal <==> first@ == second@,
        turns_round(term_order(first@, second@), term_order(second@, first@)),
        carries_over(
            term_order(first@, second@),
            term_order(second@, third@),
            term_order(first@, third@),
        ),
{
    lemma_form_shaped(first);
    lemma_form_shaped(second);
    lemma_form_shaped(third);
    lemma_term_order(first@, second@, third@);
}

/// An operator between two operands.
pub open spec fn binary_term(operator: Seq<char>, left: Term, right: Term) -> Term {
    Term { shape: Shape::Binary(operator), parts: seq![left, right] }
}

/// An operator between two operands after the law of arithmetic.
pub open spec fn settled_arithmetic(operator: Seq<char>, left: Term, right: Term) -> Term {
    match arithmetic(binary_term(operator, left, right)) {
        Some(term) => term,
        None => binary_term(operator, left, right),
    }
}

/// A commutative operator is not subtraction.
pub(crate) proof fn lemma_commutative_is_no_subtraction(operator: Seq<char>)
    requires
        is_commutative(operator),
    ensures
        operator != "-"@,
{
    reveal_strlit("-");
    reveal_strlit("+");
    reveal_strlit("*");
    reveal_strlit("==");
    reveal_strlit("!=");
    reveal_strlit("&");
    reveal_strlit("|");
    reveal_strlit("^");
    reveal_strlit("&&");
    reveal_strlit("||");
    assert("-"@[0] == '-');
    assert(operator[0] != '-');
}

/// Literals under a commutative operator fold alike either way round.
proof fn lemma_folding_commutes(operator: Seq<char>, left: Term, right: Term)
    requires
        is_commutative(operator),
    ensures
        folded_operands(operator, left, right) == folded_operands(operator, right, left),
{
    lemma_commutative_is_no_subtraction(operator);
    if let (Shape::Number(first), Shape::Number(second)) = (left.shape, right.shape) {
        if let (Some(one), Some(other)) = (parsed_integer(first), parsed_integer(second)) {
            assert(one * other == other * one) by (nonlinear_arith);
        }
    }
}

/// Only the law of arithmetic applies to an operator between two operands.
proof fn lemma_arithmetic_alone(operator: Seq<char>, left: Term, right: Term, fuel: nat)
    ensures
        rewritten(binary_term(operator, left, right), fuel) == (
            settled_arithmetic(operator, left, right),
            fuel,
        ),
{
}

/// The operands of a commutative operator are put in one order, whichever way
/// round they are written.
#[verifier::rlimit(40)]
#[verifier::spinoff_prover]
pub proof fn law_operands_commute(operator: Seq<char>, left: Form, right: Form, fuel: nat)
    requires
        is_commutative(operator),
    ensures
        rewritten(binary_term(operator, left@, right@), fuel) == rewritten(
            binary_term(operator, right@, left@),
            fuel,
        ),
{
    law_forms_are_in_a_total_order(left, right, left);
    lemma_commutative_is_no_subtraction(operator);
    lemma_folding_commutes(operator, left@, right@);
    lemma_arithmetic_alone(operator, left@, right@, fuel);
    lemma_arithmetic_alone(operator, right@, left@, fuel);
}

/// Operands that were swapped are not swapped back.
#[verifier::rlimit(40)]
#[verifier::spinoff_prover]
pub proof fn law_a_swap_is_not_undone(operator: Seq<char>, left: Form, right: Form)
    requires
        is_commutative(operator),
        arithmetic(binary_term(operator, left@, right@)) == Some(
            binary_term(operator, right@, left@),
        ),
    ensures
        arithmetic(binary_term(operator, right@, left@)) is None,
{
    law_forms_are_in_a_total_order(left, right, left);
    lemma_commutative_is_no_subtraction(operator);
    lemma_folding_commutes(operator, left@, right@);
}

/// One pass over an operator between operands that unfold nothing.
proof fn lemma_swept_operands(operator: Seq<char>, left: Term, right: Term, fuel: nat)
    requires
        swept(left, fuel).1 == fuel,
        swept(right, fuel).1 == fuel,
    ensures
        swept(binary_term(operator, left, right), fuel) == rewritten(
            binary_term(operator, swept(left, fuel).0, swept(right, fuel).0),
            fuel,
        ),
{
    let parts = seq![left, right];
    assert(parts.drop_last() =~= seq![left]);
    assert(parts.drop_last().drop_last() =~= Seq::<Term>::empty());
    reveal_with_fuel(each_swept, 3);
    assert(each_swept(parts, fuel).0 =~= seq![swept(left, fuel).0, swept(right, fuel).0]);
}

/// A commutative operator between simplified operands is reduced to one form,
/// whichever way round they are written.
pub proof fn law_operands_reduce_alike(
    operator: Seq<char>,
    left: Form,
    right: Form,
    fuel: nat,
    sweeps: nat,
)
    requires
        is_commutative(operator),
        swept(left@, fuel) == (left@, fuel),
        swept(right@, fuel) == (right@, fuel),
        sweeps > 0,
    ensures
        reduced(binary_term(operator, left@, right@), fuel, sweeps) == reduced(
            binary_term(operator, right@, left@),
            fuel,
            sweeps,
        ),
{
    law_operands_commute(operator, left, right, fuel);
    lemma_swept_operands(operator, left@, right@, fuel);
    lemma_swept_operands(operator, right@, left@, fuel);
    lemma_arithmetic_alone(operator, left@, right@, fuel);
    lemma_arithmetic_alone(operator, right@, left@, fuel);
    reveal_with_fuel(reduced, 3);
}

/// One pass over an operator between operands that unfold nothing: the law of
/// arithmetic, on the operands it leaves.
proof fn lemma_swept_operator(operator: Seq<char>, left: Term, right: Term, fuel: nat)
    requires
        swept(left, fuel).1 == fuel,
        swept(right, fuel).1 == fuel,
    ensures
        swept(binary_term(operator, left, right), fuel) == (
            settled_arithmetic(operator, swept(left, fuel).0, swept(right, fuel).0),
            fuel,
        ),
{
    lemma_swept_operands(operator, left, right, fuel);
    lemma_arithmetic_alone(operator, swept(left, fuel).0, swept(right, fuel).0, fuel);
}

/// A difference taken from is its start, less the sum.
proof fn lemma_difference_settles(start: Term, first: Term, second: Term)
    requires
        arithmetic(binary_term("-"@, start, first)) is None,
    ensures
        settled_arithmetic("-"@, start, first) == binary_term("-"@, start, first),
        settled_arithmetic("-"@, binary_term("-"@, start, first), second) == binary_term(
            "-"@,
            start,
            binary_term("+"@, first, second),
        ),
        binary_term("-"@, start, binary_term("+"@, first, second)) != binary_term(
            "-"@,
            binary_term("-"@, start, first),
            second,
        ),
{
    let inner = binary_term("-"@, start, first);
    let whole = binary_term("-"@, inner, second);
    let sum = binary_term("-"@, start, binary_term("+"@, first, second));
    assert(inner.parts[0] == start && inner.parts[1] == first);
    assert(whole.parts[0] == inner && whole.parts[1] == second);
    assert(sum.parts[0] == start);
    assert(inner.parts.len() == 2);
}

/// One pass over two subtractions takes away the sum.
#[verifier::rlimit(60)]
#[verifier::spinoff_prover]
proof fn lemma_taken_away_at_once(start: Term, first: Term, second: Term, fuel: nat)
    requires
        swept(start, fuel) == (start, fuel),
        swept(first, fuel) == (first, fuel),
        swept(second, fuel) == (second, fuel),
        arithmetic(binary_term("-"@, start, first)) is None,
    ensures
        swept(binary_term("-"@, binary_term("-"@, start, first), second), fuel) == (
            binary_term("-"@, start, binary_term("+"@, first, second)),
            fuel,
        ),
{
    lemma_difference_settles(start, first, second);
    lemma_swept_operator("-"@, start, first, fuel);
    lemma_swept_operator("-"@, binary_term("-"@, start, first), second, fuel);
}

/// A term that a pass changes is reduced to what that pass leaves is reduced to.
#[verifier::rlimit(60)]
#[verifier::spinoff_prover]
proof fn lemma_reduced_step(term: Term, next: Term, fuel: nat, sweeps: nat)
    requires
        swept(term, fuel) == (next, fuel),
        next != term,
        sweeps > 0,
    ensures
        reduced(term, fuel, sweeps) == reduced(next, fuel, (sweeps - 1) as nat),
{
}

/// Terms that a pass makes one are reduced to one form.
#[verifier::rlimit(60)]
#[verifier::spinoff_prover]
proof fn lemma_reduced_alike(one: Term, other: Term, fuel: nat, sweeps: nat)
    requires
        swept(one, fuel) == swept(other, fuel),
        swept(one, fuel).1 == fuel,
        sweeps > 0,
    ensures
        reduced(one, fuel, sweeps) == reduced(other, fuel, sweeps),
{
    reveal_with_fuel(reduced, 3);
}

/// Taking two things away one after the other is reduced to one form, whichever
/// is taken away first. A start that is itself a difference, or a number that one
/// of them folds into, keeps the two apart.
#[verifier::rlimit(60)]
#[verifier::spinoff_prover]
pub proof fn law_subtractions_reduce_alike(
    start: Form,
    first: Form,
    second: Form,
    fuel: nat,
    sweeps: nat,
)
    requires
        swept(start@, fuel) == (start@, fuel),
        swept(first@, fuel) == (first@, fuel),
        swept(second@, fuel) == (second@, fuel),
        arithmetic(binary_term("-"@, start@, first@)) is None,
        arithmetic(binary_term("-"@, start@, second@)) is None,
        sweeps > 1,
    ensures
        reduced(
            binary_term("-"@, binary_term("-"@, start@, first@), second@),
            fuel,
            sweeps,
        ) == reduced(
            binary_term("-"@, binary_term("-"@, start@, second@), first@),
            fuel,
            sweeps,
        ),
{
    let one = binary_term("+"@, first@, second@);
    let other = binary_term("+"@, second@, first@);
    let less = (sweeps - 1) as nat;
    lemma_difference_settles(start@, first@, second@);
    lemma_difference_settles(start@, second@, first@);
    lemma_taken_away_at_once(start@, first@, second@, fuel);
    lemma_taken_away_at_once(start@, second@, first@, fuel);
    lemma_reduced_step(
        binary_term("-"@, binary_term("-"@, start@, first@), second@),
        binary_term("-"@, start@, one),
        fuel,
        sweeps,
    );
    lemma_reduced_step(
        binary_term("-"@, binary_term("-"@, start@, second@), first@),
        binary_term("-"@, start@, other),
        fuel,
        sweeps,
    );
    lemma_sums_settle_alike(first, second);
    lemma_swept_operator("+"@, first@, second@, fuel);
    lemma_swept_operator("+"@, second@, first@, fuel);
    lemma_swept_operator("-"@, start@, one, fuel);
    lemma_swept_operator("-"@, start@, other, fuel);
    lemma_reduced_alike(
        binary_term("-"@, start@, one),
        binary_term("-"@, start@, other),
        fuel,
        less,
    );
}

/// Two sums of the same operands settle alike.
proof fn lemma_sums_settle_alike(first: Form, second: Form)
    ensures
        settled_arithmetic("+"@, first@, second@) == settled_arithmetic("+"@, second@, first@),
{
    law_operands_commute("+"@, first, second, 0);
    lemma_arithmetic_alone("+"@, first@, second@, 0);
    lemma_arithmetic_alone("+"@, second@, first@, 0);
}

} // verus!
