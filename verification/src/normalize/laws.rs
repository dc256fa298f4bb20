//! An algebra of iteration.
//!
//! A library and its caller write the same behavior differently, and the gap is
//! not stylistic. Each law here is an equivalence that holds in the language
//! rather than in any library, so one set of them serves every library there is:
//!
//! - **traversal**: a fold whose accumulator is unused is a traversal
//! - **escape**: breaking out of a fold is returning from a loop
//! - **recovery**: asking a fold for the value it broke with is that return
//! - **fusion**: mapping what was filtered is one pass, not two
//!
//! Each is stated as a function on terms that answers with what a term rewrites
//! to, and with nothing where the law does not apply.

use crate::lists::{joined, lemma_joined_step};
use crate::normalize::form::{
    borrowed_terms, form_terms, lemma_part_smaller, pattern_terms, push_part, Coverage, Direction, Form, Pattern, PatternKind,
    PatternTerm, Shape, Term,
};
use crate::normalize::indexing::{
    found_term, next_position, only_indexed, with_elements, writes_into,
};
use crate::normalize::measure::mentions_local;
use crate::normalize::names::leaf;
use crate::normalize::order::term_order;
use crate::text::{
    ends_in_segment, last_segment_is, parse_integer, parsed_integer, same_text, signed_decimal,
    signed_decimal_text, Comparison,
};
use vstd::prelude::*;

verus! {

/// What a rewrite produced, as a term.
pub open spec fn rewritten_term(form: Option<Form>) -> Option<Term> {
    match form {
        Some(form) => Some(form@),
        None => None,
    }
}

/// The number a pattern binds, where it is a plain binding.
pub open spec fn binding_of(pattern: PatternTerm) -> Option<u32> {
    match pattern.kind {
        PatternKind::Binding(index) => Some(index),
        _ => None,
    }
}

/// `Some(value)`.
pub open spec fn some_term(value: Term) -> Term {
    Term { shape: Shape::Variant("Some"@), parts: seq![value] }
}

/// `None`.
pub open spec fn none_term() -> Term {
    leaf(Shape::Variant("None"@))
}

/// Leaving with a value.
pub open spec fn return_term(value: Term) -> Term {
    Term { shape: Shape::Return, parts: seq![value] }
}

/// Two steps, one after the other.
pub open spec fn steps_term(first: Term, second: Term) -> Term {
    Term { shape: Shape::Sequence, parts: seq![first, second] }
}

/// A term with a bound name replaced by a value throughout.
pub open spec fn substituted(term: Term, index: u32, value: Term) -> Term
    decreases term,
{
    if term.shape == Shape::Local(index) {
        value
    } else {
        Term { shape: term.shape, parts: each_substituted(term.parts, index, value) }
    }
}

/// Several terms with a bound name replaced by a value throughout.
pub open spec fn each_substituted(terms: Seq<Term>, index: u32, value: Term) -> Seq<Term>
    decreases terms,
{
    Seq::new(
        terms.len(),
        |i: int|
            if 0 <= i < terms.len() {
                substituted(terms[i], index, value)
            } else {
                arbitrary()
            },
    )
}

/// Mapping what was filtered is one pass that decides and produces.
pub open spec fn fused(term: Term) -> Option<Term> {
    match (term.shape, term.parts[0].shape) {
        (Shape::Transform(mapped), Shape::Retain(tested)) => match (
            binding_of(tested),
            binding_of(mapped),
        ) {
            (Some(tested_index), Some(mapped_index)) if term.parts.len() == 2
                && term.parts[0].parts.len() == 2 => {
                let produced = substituted(
                    term.parts[1],
                    mapped_index,
                    leaf(Shape::Local(tested_index)),
                );
                Some(
                    Term {
                        shape: Shape::Sift(tested),
                        parts: seq![
                            term.parts[0].parts[0],
                            Term {
                                shape: Shape::Branch,
                                parts: seq![
                                    term.parts[0].parts[1],
                                    some_term(produced),
                                    none_term(),
                                ],
                            },
                        ],
                    },
                )
            },
            _ => None,
        },
        _ => None,
    }
}

/// Which way the first or the last survivor is searched for.
pub open spec fn search_direction(name: Seq<char>) -> Option<Direction> {
    if name == "first"@ {
        Some(Direction::Forward)
    } else if name == "last"@ {
        Some(Direction::Backward)
    } else {
        None
    }
}

/// The first of what was retained is a search.
pub open spec fn searched(term: Term) -> Option<Term> {
    match (term.shape, term.parts[0].shape) {
        (Shape::Method(name), Shape::Retain(item)) => match (
            search_direction(name),
            binding_of(item),
        ) {
            (Some(direction), Some(index)) => if term.parts.len() == 1
                && term.parts[0].parts.len() == 2 {
                Some(
                    steps_term(
                        Term {
                            shape: Shape::Traverse(item, direction),
                            parts: seq![
                                term.parts[0].parts[0],
                                Term {
                                    shape: Shape::Branch,
                                    parts: seq![
                                        term.parts[0].parts[1],
                                        return_term(leaf(Shape::Local(index))),
                                    ],
                                },
                            ],
                        },
                        none_term(),
                    ),
                )
            } else {
                None
            },
            _ => None,
        },
        _ => None,
    }
}

/// Returning what a sequence of steps produces is doing them and returning.
pub open spec fn returned_sequence(term: Term) -> Option<Term> {
    let steps = term.parts[0].parts;
    if term.shape is Return && term.parts.len() == 1 && term.parts[0].shape is Sequence
        && steps.len() >= 2 {
        Some(
            Term {
                shape: Shape::Sequence,
                parts: steps.drop_last().push(return_term(steps.last())),
            },
        )
    } else {
        None
    }
}

/// Every value a term escapes with, however deeply nested.
pub open spec fn escapes(term: Term) -> Seq<Term>
    decreases term,
{
    (if term.shape is Return {
        seq![term.parts[0]]
    } else {
        Seq::empty()
    }) + joined(each_escapes(term.parts))
}

/// Every value several terms escape with, term by term.
pub open spec fn each_escapes(terms: Seq<Term>) -> Seq<Seq<Term>>
    decreases terms,
{
    Seq::new(
        terms.len(),
        |i: int|
            if 0 <= i < terms.len() {
                escapes(terms[i])
            } else {
                Seq::empty()
            },
    )
}

/// A term whose escapes carry `Some`.
pub open spec fn wrapped(term: Term) -> Term
    decreases term,
{
    if term.shape is Return && term.parts.len() == 1 {
        return_term(some_term(term.parts[0]))
    } else {
        Term { shape: term.shape, parts: each_wrapped(term.parts) }
    }
}

/// Several terms whose escapes carry `Some`.
pub open spec fn each_wrapped(terms: Seq<Term>) -> Seq<Term>
    decreases terms,
{
    Seq::new(
        terms.len(),
        |i: int|
            if 0 <= i < terms.len() {
                wrapped(terms[i])
            } else {
                arbitrary()
            },
    )
}

/// A walk that escapes with a value and otherwise yields nothing is a search
/// for an optional. Only a walk whose escapes are all bare is wrapped.
pub open spec fn optional_search(term: Term) -> Option<Term> {
    match term.parts[0].shape {
        Shape::Traverse(item, direction) => {
            let body = term.parts[0].parts[1];
            if term.shape is Sequence && term.parts.len() == 2 && term.parts[0].parts.len() == 2
                && term.parts[1] == none_term()
                && escapes(body).len() > 0 && forall|i: int|
                0 <= i < escapes(body).len() ==> (#[trigger] escapes(body)[i]).shape
                    != Shape::Variant("Some"@) {
                Some(
                    steps_term(
                        Term {
                            shape: Shape::Traverse(item, direction),
                            parts: seq![term.parts[0].parts[0], wrapped(body)],
                        },
                        none_term(),
                    ),
                )
            } else {
                None
            }
        },
        _ => None,
    }
}

/// Breaking out of a fold is returning from a loop, continuing is doing
/// nothing, and an alternative that does nothing is not an alternative.
pub open spec fn escaped(term: Term) -> Option<Term> {
    match term.shape {
        Shape::Variant(name) => if last_segment_is(name, "Break"@) {
            Some(
                return_term(
                    if term.parts.len() > 0 {
                        term.parts[0]
                    } else {
                        leaf(Shape::Literal)
                    },
                ),
            )
        } else if last_segment_is(name, "Continue"@) {
            Some(leaf(Shape::Literal))
        } else {
            None
        },
        Shape::Branch => if term.parts.len() == 3 && term.parts[2].shape is Literal {
            Some(Term { shape: Shape::Branch, parts: seq![term.parts[0], term.parts[1]] })
        } else {
            None
        },
        _ => None,
    }
}

/// A fold whose accumulator is never used is a traversal.
pub open spec fn traversed(term: Term) -> Option<Term> {
    match (term.shape, term.parts[2].shape) {
        (Shape::Method(name), Shape::Lambda(parameters)) => if (name == "try_fold"@ || name
            == "try_for_each"@ || name == "fold"@) && term.parts.len() == 3
            && term.parts[2].parts.len() == 1
            && term.parts[1].shape is Literal && 1 <= parameters.len() <= 2 {
            Some(
                Term {
                    shape: Shape::Traverse(parameters.last(), Direction::Forward),
                    parts: seq![term.parts[0], term.parts[2].parts[0]],
                },
            )
        } else {
            None
        },
        _ => None,
    }
}

/// Operators whose operands may be written either way round.
pub open spec fn is_commutative(operator: Seq<char>) -> bool {
    ||| operator == "+"@
    ||| operator == "*"@
    ||| operator == "=="@
    ||| operator == "!="@
    ||| operator == "&"@
    ||| operator == "|"@
    ||| operator == "^"@
    ||| operator == "&&"@
    ||| operator == "||"@
}

/// Two integers combined, when the operator has an integer answer.
pub open spec fn combined(operator: Seq<char>, left: int, right: int) -> Option<int> {
    if operator == "+"@ {
        Some(left + right)
    } else if operator == "-"@ {
        Some(left - right)
    } else if operator == "*"@ {
        Some(left * right)
    } else {
        None
    }
}

/// Two integer literals combined, when the answer is an integer in range.
pub open spec fn folded(
    operator: Seq<char>,
    left: Seq<char>,
    right: Seq<char>,
) -> Option<Seq<char>> {
    match (parsed_integer(left), parsed_integer(right)) {
        (Some(left), Some(right)) => match combined(operator, left, right) {
            Some(value) => if i128::MIN <= value <= i128::MAX {
                Some(signed_decimal(value))
            } else {
                None
            },
            None => None,
        },
        _ => None,
    }
}

/// What folding two literal operands gives.
pub open spec fn folded_operands(operator: Seq<char>, left: Term, right: Term) -> Option<
    Seq<char>,
> {
    match (left.shape, right.shape) {
        (Shape::Number(first), Shape::Number(second)) => folded(operator, first, second),
        _ => None,
    }
}

/// Arithmetic that means one thing written several ways: a subtraction chain
/// re-associates onto one subtrahend, constant operands fold, and the operands
/// of a commutative operator take a deterministic order.
pub open spec fn arithmetic(term: Term) -> Option<Term> {
    match term.shape {
        Shape::Binary(operator) if term.parts.len() == 2 => {
            let left = term.parts[0];
            let right = term.parts[1];
            if operator == "-"@ && left.shape == Shape::Binary("-"@) && left.parts.len()
                == 2 {
                Some(
                    Term {
                        shape: Shape::Binary("-"@),
                        parts: seq![
                            left.parts[0],
                            Term {
                                shape: Shape::Binary("+"@),
                                parts: seq![left.parts[1], right],
                            },
                        ],
                    },
                )
            } else if folded_operands(operator, left, right) is Some {
                Some(leaf(Shape::Number(folded_operands(operator, left, right)->0)))
            } else if is_commutative(operator) && term_order(right, left) == Comparison::Less {
                Some(Term { shape: term.shape, parts: seq![right, left] })
            } else {
                None
            }
        },
        _ => None,
    }
}

/// The sequence whose whole index range a span walks: `0..v.len()`.
pub open spec fn whole_span(term: Term) -> Option<Term> {
    if term.shape == Shape::Span(false) && term.parts.len() == 2 && term.parts[0] == leaf(Shape::Number("0"@)) {
        length_of(term.parts[1])
    } else {
        None
    }
}

/// The sequence whose length a term asks for.
pub open spec fn length_of(term: Term) -> Option<Term> {
    if term.shape == Shape::Method("len"@) && term.parts.len() == 1 {
        Some(term.parts[0])
    } else {
        None
    }
}

/// An index loop that only ever indexes is a walk over the elements.
pub open spec fn element_traversal(term: Term) -> Option<Term> {
    match term.shape {
        Shape::Traverse(item, direction) if term.parts.len() == 2 => match (
            binding_of(item),
            whole_span(term.parts[0]),
        ) {
            (Some(index), Some(source)) => {
                let body = term.parts[1];
                if only_indexed(body, source, seq![index]) && !writes_into(body, source) {
                    Some(
                        Term {
                            shape: term.shape,
                            parts: seq![source, with_elements(body, source, seq![index])],
                        },
                    )
                } else {
                    None
                }
            },
            _ => None,
        },
        _ => None,
    }
}

/// Whether an inner span visits each pair of a sequence exactly once: every
/// position after the outer one, or every position before it.
pub open spec fn covers_pairs(span: Term, outer: u32, sequence: Term) -> bool {
    &&& span.shape == Shape::Span(false)
    &&& {
        ||| next_position(span.parts[0], outer) && length_of(span.parts[1]) == Some(sequence)
        ||| span.parts[0] == leaf(Shape::Number("0"@)) && span.parts[1] == leaf(
            Shape::Local(outer),
        )
    }
}

/// The receiver of a method call with a given name and argument count.
pub open spec fn receiver(term: Term, method: Seq<char>, arity: nat) -> Option<Term> {
    if term.shape == Shape::Method(method) && term.parts.len() == arity + 1 {
        Some(term.parts[0])
    } else {
        None
    }
}

/// A walk over each pair of a sequence, once.
pub open spec fn pairs_term(
    sequence: Term,
    left: PatternTerm,
    right: PatternTerm,
    body: Term,
) -> Term {
    Term {
        shape: Shape::Pairwise(left, right, Coverage::Once),
        parts: seq![sequence, body],
    }
}

/// The index spelling of a walk over pairs: two spans over one sequence's
/// positions.
pub open spec fn indexed_pairs(
    outer: Term,
    first: PatternTerm,
    inner: Term,
    second: PatternTerm,
    body: Term,
) -> Option<Term> {
    match (whole_span(outer), binding_of(first), binding_of(second)) {
        (Some(source), Some(left), Some(right)) => if covers_pairs(inner, left, source)
            && only_indexed(body, source, seq![left, right]) && !writes_into(body, source) {
            Some(
                pairs_term(
                    source,
                    first,
                    second,
                    with_elements(body, source, seq![left, right]),
                ),
            )
        } else {
            None
        },
        _ => None,
    }
}

/// The iterator spelling of a walk over pairs: `enumerate` outside,
/// `skip(i + 1)` inside, and a body that does not read the position.
pub open spec fn enumerated_pairs(
    outer: Term,
    first: PatternTerm,
    inner: Term,
    second: PatternTerm,
    body: Term,
) -> Option<Term> {
    match (
        receiver(outer, "enumerate"@, 0),
        receiver(inner, "skip"@, 1),
        binding_of(first.parts[0]),
    ) {
        (Some(source), Some(skipped), Some(position)) => if first.kind is Tuple
            && first.parts.len() == 2 && skipped == source && next_position(
            inner.parts[1],
            position,
        ) && !mentions_local(body, position) {
            Some(pairs_term(source, first.parts[1], second, body))
        } else {
            None
        },
        _ => None,
    }
}

/// The one step of a body: the body itself, or the only step of a block.
pub open spec fn only_step(body: Term) -> Option<Term> {
    if body.shape is Sequence {
        if body.parts.len() == 1 {
            Some(body.parts[0])
        } else {
            None
        }
    } else {
        Some(body)
    }
}

/// Two nested loops that reach each pair of one sequence once.
pub open spec fn pairwise(term: Term) -> Option<Term> {
    match (term.shape, only_step(term.parts[1])) {
        (Shape::Traverse(first, Direction::Forward), Some(step)) if term.parts.len() == 2
            && step.parts.len() == 2 => match step.shape {
            Shape::Traverse(second, Direction::Forward) => {
                let outer = term.parts[0];
                let inner = step.parts[0];
                let body = step.parts[1];
                match indexed_pairs(outer, first, inner, second, body) {
                    Some(pairs) => Some(pairs),
                    None => enumerated_pairs(outer, first, inner, second, body),
                }
            },
            _ => None,
        },
        _ => None,
    }
}

/// Asking a traversal for the value it broke with is returning that value.
pub open spec fn recovered(term: Term) -> Option<Term> {
    if term.shape == Shape::Method("break_value"@) && term.parts.len() == 1
        && term.parts[0].shape is Traverse {
        Some(steps_term(wrapped(term.parts[0]), none_term()))
    } else {
        None
    }
}

/// A list of one form.
fn one(form: Form) -> (list: Vec<Form>)
    ensures
        form_terms(list@) == seq![form@],
{
    let mut list: Vec<Form> = Vec::new();
    list.push(form);
    assert(form_terms(list@) =~= seq![form@]);
    list
}

/// A list of two forms.
fn two(first: Form, second: Form) -> (list: Vec<Form>)
    ensures
        form_terms(list@) == seq![first@, second@],
{
    let mut list: Vec<Form> = Vec::new();
    list.push(first);
    list.push(second);
    assert(form_terms(list@) =~= seq![first@, second@]);
    list
}

/// `Some(value)`.
fn some_form(value: Form) -> (form: Form)
    ensures
        form@ == some_term(value@),
{
    Form::Variant { name: "Some".to_owned(), payload: one(value) }
}

/// `None`.
fn none_form() -> (form: Form)
    ensures
        form@ == none_term(),
{
    let payload: Vec<Form> = Vec::new();
    assert(form_terms(payload@) =~= Seq::empty());
    Form::Variant { name: "None".to_owned(), payload }
}

/// Leaving with a value.
fn return_form(value: Form) -> (form: Form)
    ensures
        form@ == return_term(value@),
{
    Form::Return(Box::new(value))
}

/// The number a pattern binds, where it is a plain binding.
pub(crate) fn plain_binding(pattern: &Pattern) -> (index: Option<u32>)
    ensures
        index == binding_of(pattern@),
{
    match pattern {
        Pattern::Binding(index) => Some(*index),
        _ => None,
    }
}

/// Whether a form is nothing at all.
pub(crate) fn is_none(form: &Form) -> (none: bool)
    ensures
        none == (form@ == none_term()),
{
    match form {
        Form::Variant { name, payload } => {
            assert(payload@.len() == 0 ==> form_terms(payload@) =~= Seq::empty());
            assert(form_terms(payload@).len() == payload@.len());
            same_text(name.as_str(), "None") && payload.len() == 0
        },
        _ => false,
    }
}

impl Form {
    /// Replace a bound name with a value throughout.
    pub(crate) fn substitute(&self, index: u32, value: &Form) -> (rewritten: Form)
        ensures
            rewritten@ == substituted(self@, index, value@),
        decreases self@,
    {
        if let Form::Local(bound) = self {
            if *bound == index {
                return value.clone();
            }
        }
        let ghost each = each_substituted(self@.parts, index, value@);
        let children = self.children();
        let mut parts: Vec<Form> = Vec::new();
        assert(form_terms(parts@) =~= each.take(0));
        for i in 0..children.len()
            invariant
                each == each_substituted(self@.parts, index, value@),
                each.len() == self@.parts.len(),
                children@.len() == self@.parts.len(),
                forall|i: int|
                    0 <= i < children@.len() ==> (#[trigger] children@[i])@ == self@.parts[i],
                form_terms(parts@) == each.take(i as int),
        {
            proof {
                lemma_part_smaller(self@, i as int);
            }
            let part = children[i].substitute(index, value);
            push_part(&mut parts, part, Ghost(each), Ghost(i as int));
        }
        assert(each.take(children@.len() as int) =~= each);
        assert(form_terms(parts@).len() == parts@.len());
        self.with_children(parts)
    }

    /// Rewrite a traversal's escapes to carry `Some`, as `break_value` does.
    pub(crate) fn escapes_wrapped(&self) -> (rewritten: Form)
        ensures
            rewritten@ == wrapped(self@),
        decreases self@,
    {
        if let Form::Return(value) = self {
            assert(self@.parts[0] == value@);
            return return_form(some_form((**value).clone()));
        }
        let ghost each = each_wrapped(self@.parts);
        let children = self.children();
        let mut parts: Vec<Form> = Vec::new();
        assert(form_terms(parts@) =~= each.take(0));
        for i in 0..children.len()
            invariant
                each == each_wrapped(self@.parts),
                each.len() == self@.parts.len(),
                children@.len() == self@.parts.len(),
                forall|i: int|
                    0 <= i < children@.len() ==> (#[trigger] children@[i])@ == self@.parts[i],
                form_terms(parts@) == each.take(i as int),
        {
            proof {
                lemma_part_smaller(self@, i as int);
            }
            let part = children[i].escapes_wrapped();
            push_part(&mut parts, part, Ghost(each), Ghost(i as int));
        }
        assert(each.take(children@.len() as int) =~= each);
        assert(form_terms(parts@).len() == parts@.len());
        self.with_children(parts)
    }

    /// Adds every value this form escapes with to a list.
    fn escape_values<'a>(&'a self, into: &mut Vec<&'a Form>)
        ensures
            borrowed_terms(final(into)@) == borrowed_terms(old(into)@) + escapes(self@),
        decreases self@,
    {
        let ghost before = borrowed_terms(into@);
        let ghost own = if self@.shape is Return {
            seq![self@.parts[0]]
        } else {
            Seq::empty()
        };
        let ghost each = each_escapes(self@.parts);
        if let Form::Return(value) = self {
            let ghost list = into@;
            into.push(&**value);
            assert(self@.parts[0] == value@);
            assert(borrowed_terms(into@) =~= borrowed_terms(list).push(value@));
        }
        assert(borrowed_terms(into@) =~= before + own + joined(each.take(0)));
        let children = self.children();
        for i in 0..children.len()
            invariant
                each == each_escapes(self@.parts),
                children@.len() == self@.parts.len(),
                forall|i: int|
                    0 <= i < children@.len() ==> (#[trigger] children@[i])@ == self@.parts[i],
                borrowed_terms(into@) == before + own + joined(each.take(i as int)),
        {
            proof {
                lemma_part_smaller(self@, i as int);
                lemma_joined_step(each, i as int);
            }
            children[i].escape_values(into);
            assert(borrowed_terms(into@) =~= before + own + joined(each.take(i + 1)));
        }
        assert(each.take(children@.len() as int) =~= each);
        assert(borrowed_terms(into@) =~= before + escapes(self@));
    }

    /// Mapping what was filtered is one pass that decides and produces.
    #[verifier::rlimit(40)]
    #[verifier::spinoff_prover]
    pub(crate) fn as_fused(&self) -> (rewritten: Option<Form>)
        ensures
            rewritten_term(rewritten) == fused(self@),
    {
        let (sequence, mapped, produce) = match self {
            Form::Transform { sequence, item, body } => (sequence, item, body),
            _ => {
                return None;
            },
        };
        assert(self@.parts[0] == sequence@ && self@.parts[1] == produce@);
        let (source, tested, test) = match &**sequence {
            Form::Retain { sequence, item, body } => (sequence, item, body),
            _ => {
                return None;
            },
        };
        assert(sequence@.parts[0] == source@ && sequence@.parts[1] == test@);
        match (plain_binding(tested), plain_binding(mapped)) {
            (Some(tested_index), Some(mapped_index)) => {
                let produced = produce.substitute(mapped_index, &Form::Local(tested_index));
                let body = Form::Branch {
                    condition: Box::new((**test).clone()),
                    consequence: Box::new(some_form(produced)),
                    alternative: Some(Box::new(none_form())),
                };
                let sifted = Form::Sift {
                    sequence: Box::new((**source).clone()),
                    item: Box::new((**tested).clone()),
                    body: Box::new(body),
                };
                assert(body@.parts =~= seq![test@, some_term(produced@), none_term()]);
                assert(sifted@.parts =~= seq![source@, body@]);
                Some(sifted)
            },
            _ => None,
        }
    }

    /// The first of what was retained is a search.
    ///
    /// Taking the last survivor is the same search run the other way. The
    /// direction lives inside the traversal precisely so that the two do not
    /// collapse.
    pub(crate) fn as_searched(&self) -> (rewritten: Option<Form>)
        ensures
            rewritten_term(rewritten) == searched(self@),
    {
        let (name, receiver, arguments) = match self {
            Form::Method { name, receiver, arguments } => (name, receiver, arguments),
            _ => {
                return None;
            },
        };
        proof {
            assert(self@.parts[0] == receiver@);
            assert(form_terms(arguments@).len() == arguments@.len());
            assert(self@.parts.len() == 1 + arguments@.len());
        }
        if arguments.len() > 0 {
            return None;
        }
        let direction = if same_text(name.as_str(), "first") {
            Direction::Forward
        } else if same_text(name.as_str(), "last") {
            Direction::Backward
        } else {
            return None;
        };
        let (sequence, item, body) = match &**receiver {
            Form::Retain { sequence, item, body } => (sequence, item, body),
            _ => {
                return None;
            },
        };
        assert(receiver@.parts[0] == sequence@ && receiver@.parts[1] == body@);
        match plain_binding(item) {
            Some(index) => {
                let test = Form::Branch {
                    condition: Box::new((**body).clone()),
                    consequence: Box::new(return_form(Form::Local(index))),
                    alternative: None,
                };
                let walk = Form::Traverse {
                    sequence: Box::new((**sequence).clone()),
                    item: Box::new((**item).clone()),
                    body: Box::new(test),
                    direction,
                };
                assert(test@.parts =~= seq![body@, return_term(leaf(Shape::Local(index)))]);
                assert(walk@.parts =~= seq![sequence@, test@]);
                Some(Form::Sequence(two(walk, none_form())))
            },
            None => None,
        }
    }

    /// Returning what a sequence of steps produces is doing them and returning.
    pub(crate) fn as_returned_sequence(&self) -> (rewritten: Option<Form>)
        ensures
            rewritten_term(rewritten) == returned_sequence(self@),
    {
        let value = match self {
            Form::Return(value) => value,
            _ => {
                return None;
            },
        };
        assert(self@.parts[0] == value@);
        let steps = match &**value {
            Form::Sequence(steps) => steps,
            _ => {
                return None;
            },
        };
        let ghost terms = form_terms(steps@);
        assert(value@.parts == terms);
        assert(terms.len() == steps@.len());
        // a block with one step is that step, and moving a return into it would
        // only shuffle the same form back and forth
        if steps.len() < 2 {
            return None;
        }
        let ghost whole = terms.drop_last().push(return_term(terms.last()));
        let last: usize = steps.len() - 1;
        let mut moved: Vec<Form> = Vec::new();
        assert(form_terms(moved@) =~= whole.take(0));
        for i in 0..last
            invariant
                last == steps@.len() - 1,
                terms == form_terms(steps@),
                terms.len() == steps@.len(),
                whole == terms.drop_last().push(return_term(terms.last())),
                form_terms(moved@) == whole.take(i as int),
        {
            assert(terms[i as int] == steps@[i as int]@);
            push_part(&mut moved, steps[i].clone(), Ghost(whole), Ghost(i as int));
        }
        assert(terms[last as int] == steps@[last as int]@);
        push_part(&mut moved, return_form(steps[last].clone()), Ghost(whole), Ghost(last as int));
        assert(whole.take(last + 1) =~= whole);
        Some(Form::Sequence(moved))
    }

    /// A walk that escapes with a value and otherwise yields nothing is a
    /// search for an optional.
    pub(crate) fn as_optional_search(&self) -> (rewritten: Option<Form>)
        ensures
            rewritten_term(rewritten) == optional_search(self@),
    {
        let steps = match self {
            Form::Sequence(steps) => steps,
            _ => {
                return None;
            },
        };
        let ghost terms = form_terms(steps@);
        assert(self@.parts == terms);
        assert(terms.len() == steps@.len());
        if steps.len() != 2 {
            return None;
        }
        assert(terms[0] == steps@[0]@ && terms[1] == steps@[1]@);
        let (sequence, item, body, direction) = match &steps[0] {
            Form::Traverse { sequence, item, body, direction } => (sequence, item, body, direction),
            _ => {
                return None;
            },
        };
        assert(terms[0].parts[0] == sequence@ && terms[0].parts[1] == body@);
        if !is_none(&steps[1]) {
            return None;
        }
        let mut values: Vec<&Form> = Vec::new();
        body.escape_values(&mut values);
        let ghost escaping = escapes(body@);
        assert(borrowed_terms(values@) =~= escaping);
        assert(borrowed_terms(values@).len() == values@.len());
        // nothing escapes: this walks for effect and yields nothing, which is a
        // traversal rather than a search
        if values.len() == 0 {
            return None;
        }
        for i in 0..values.len()
            invariant
                escaping == escapes(self@.parts[0].parts[1]),
                borrowed_terms(values@) == escaping,
                self@.parts[0].shape is Traverse,
                forall|j: int|
                    0 <= j < i ==> (#[trigger] escaping[j]).shape != Shape::Variant("Some"@),
        {
            assert(escaping[i as int] == values@[i as int]@);
            if let Form::Variant { name, .. } = values[i] {
                if same_text(name.as_str(), "Some") {
                    assert(escaping[i as int].shape == Shape::Variant("Some"@));
                    return None;
                }
            }
        }
        let walk = Form::Traverse {
            sequence: Box::new((**sequence).clone()),
            item: Box::new((**item).clone()),
            body: Box::new(body.escapes_wrapped()),
            direction: *direction,
        };
        assert(walk@.parts =~= seq![sequence@, wrapped(body@)]);
        Some(Form::Sequence(two(walk, none_form())))
    }

    /// Breaking out of a fold is returning from a loop, and continuing is doing
    /// nothing.
    pub(crate) fn as_escape(&self) -> (rewritten: Option<Form>)
        ensures
            rewritten_term(rewritten) == escaped(self@),
    {
        match self {
            Form::Variant { name, payload } => {
                assert(self@.parts == form_terms(payload@));
                Self::escaped_variant(name, payload)
            },
            Form::Branch { condition, consequence, alternative } => match alternative {
                Some(alternative) => {
                    assert(self@.parts == seq![condition@, consequence@, alternative@]);
                    match &**alternative {
                        Form::Literal => Some(
                            Form::Branch {
                                condition: Box::new((**condition).clone()),
                                consequence: Box::new((**consequence).clone()),
                                alternative: None,
                            },
                        ),
                        _ => None,
                    }
                },
                None => None,
            },
            _ => None,
        }
    }

    /// What the escape of a fold amounts to, where a variant is one.
    fn escaped_variant(name: &String, payload: &Vec<Form>) -> (rewritten: Option<Form>)
        ensures
            rewritten_term(rewritten) == escaped(
                Term { shape: Shape::Variant(name@), parts: form_terms(payload@) },
            ),
    {
        assert(form_terms(payload@).len() == payload@.len());
        if ends_in_segment(name.as_str(), "Break") {
            if payload.len() > 0 {
                assert(form_terms(payload@)[0] == payload@[0]@);
                Some(return_form(payload[0].clone()))
            } else {
                Some(return_form(Form::Literal))
            }
        } else if ends_in_segment(name.as_str(), "Continue") {
            Some(Form::Literal)
        } else {
            None
        }
    }

    /// A fold whose accumulator is never used is a traversal.
    pub(crate) fn as_traversal(&self) -> (rewritten: Option<Form>)
        ensures
            rewritten_term(rewritten) == traversed(self@),
    {
        let (name, receiver, arguments) = match self {
            Form::Method { name, receiver, arguments } => (name, receiver, arguments),
            _ => {
                return None;
            },
        };
        let ghost terms = form_terms(arguments@);
        proof {
            assert(terms.len() == arguments@.len());
            assert(self@.parts == seq![receiver@] + terms);
            assert(self@.parts.len() == 1 + arguments@.len());
        }
        if !(same_text(name.as_str(), "try_fold") || same_text(name.as_str(), "try_for_each")
            || same_text(name.as_str(), "fold")) {
            return None;
        }
        if arguments.len() != 2 {
            return None;
        }
        proof {
            assert(self@.parts[0] == receiver@);
            assert(self@.parts[1] == terms[0] && terms[0] == arguments@[0]@);
            assert(self@.parts[2] == terms[1] && terms[1] == arguments@[1]@);
        }
        let (parameters, body) = match &arguments[1] {
            Form::Lambda { parameters, body } => (parameters, body),
            _ => {
                return None;
            },
        };
        assert(self@.parts[2].parts[0] == body@);
        assert(pattern_terms(parameters@).len() == parameters@.len());
        // an accumulator that carries something is a reduction, not a traversal
        match &arguments[0] {
            Form::Literal => {},
            _ => {
                return None;
            },
        }
        if parameters.len() != 1 && parameters.len() != 2 {
            return None;
        }
        let last: usize = parameters.len() - 1;
        assert(pattern_terms(parameters@)[last as int] == parameters@[last as int]@);
        let walk = Form::Traverse {
            sequence: Box::new((**receiver).clone()),
            item: Box::new(parameters[last].clone()),
            body: Box::new((**body).clone()),
            direction: Direction::Forward,
        };
        assert(walk@.parts =~= seq![receiver@, body@]);
        Some(walk)
    }

    /// Asking a traversal for the value it broke with is returning that value.
    pub(crate) fn as_recovered_escape(&self) -> (rewritten: Option<Form>)
        ensures
            rewritten_term(rewritten) == recovered(self@),
    {
        match self {
            Form::Method { name, receiver, arguments } => {
                assert(self@.parts[0] == receiver@);
                assert(form_terms(arguments@).len() == arguments@.len());
                assert(self@.parts.len() == 1 + arguments@.len());
                if !same_text(name.as_str(), "break_value") || arguments.len() > 0 {
                    return None;
                }
                match &**receiver {
                    Form::Traverse { .. } => Some(
                        Form::Sequence(two(receiver.escapes_wrapped(), none_form())),
                    ),
                    _ => None,
                }
            },
            _ => None,
        }
    }

    /// Arithmetic that means one thing written several ways.
    ///
    /// Reordering assumes the operands can be evaluated in either order. The
    /// order is the forms' own, and swapping only ever moves toward it.
    #[verifier::rlimit(40)]
    #[verifier::spinoff_prover]
    pub(crate) fn as_canonical_arithmetic(&self) -> (rewritten: Option<Form>)
        ensures
            rewritten_term(rewritten) == arithmetic(self@),
    {
        let (operator, left, right) = match self {
            Form::Binary { operator, left, right } => (operator, left, right),
            _ => {
                return None;
            },
        };
        assert(self@.parts[0] == left@ && self@.parts[1] == right@);
        // `(a - b) - c` is `a - (b + c)`, which is what lets the two spellings
        // of a descending loop bound meet
        if same_text(operator.as_str(), "-") {
            if let Form::Binary { operator: inner, left: first, right: second } = &**left {
                assert(left@.parts[0] == first@ && left@.parts[1] == second@);
                if same_text(inner.as_str(), "-") {
                    let sum = Form::Binary {
                        operator: "+".to_owned(),
                        left: Box::new((**second).clone()),
                        right: Box::new((**right).clone()),
                    };
                    let difference = Form::Binary {
                        operator: "-".to_owned(),
                        left: Box::new((**first).clone()),
                        right: Box::new(sum),
                    };
                    assert(sum@.parts =~= seq![second@, right@]);
                    assert(difference@.parts =~= seq![first@, sum@]);
                    return Some(difference);
                }
            }
        }
        if let (Form::Number(first), Form::Number(second)) = (&**left, &**right) {
            if let Some(value) = fold(operator.as_str(), first.as_str(), second.as_str()) {
                return Some(Form::Number(value));
            }
        }
        if commutes(operator.as_str()) && right.compared(left) == Comparison::Less {
            let swapped = Form::Binary {
                operator: operator.clone(),
                left: Box::new((**right).clone()),
                right: Box::new((**left).clone()),
            };
            assert(swapped@.parts =~= seq![right@, left@]);
            return Some(swapped);
        }
        None
    }

    /// An index loop that only ever indexes is a walk over the elements.
    ///
    /// The condition is narrow on purpose: the position must be used for
    /// nothing but reading the sequence, the sequence must be reached no other
    /// way, and nothing may write through the index.
    pub(crate) fn as_element_traversal(&self) -> (rewritten: Option<Form>)
        ensures
            rewritten_term(rewritten) == element_traversal(self@),
    {
        let (sequence, item, body, direction) = match self {
            Form::Traverse { sequence, item, body, direction } => (sequence, item, body, direction),
            _ => {
                return None;
            },
        };
        assert(self@.parts[0] == sequence@ && self@.parts[1] == body@);
        let index: u32 = match plain_binding(item) {
            Some(index) => index,
            None => {
                return None;
            },
        };
        let source = match whole_index_span(sequence) {
            Some(source) => source,
            None => {
                return None;
            },
        };
        let mut positions: Vec<u32> = Vec::new();
        positions.push(index);
        assert(positions@ =~= seq![index]);
        if !body.indexed_only(source, &positions) || body.writes_indexed(source) {
            return None;
        }
        let walk = Form::Traverse {
            sequence: Box::new(source.clone()),
            item: Box::new((**item).clone()),
            body: Box::new(body.with_indexed_elements(source, &positions)),
            direction: *direction,
        };
        assert(walk@.parts =~= seq![source@, with_elements(body@, source@, seq![index])]);
        Some(walk)
    }

    /// Two nested loops that reach each pair of one sequence once.
    #[verifier::rlimit(30)]
    #[verifier::spinoff_prover]
    pub(crate) fn as_pairwise(&self) -> (rewritten: Option<Form>)
        ensures
            rewritten_term(rewritten) == pairwise(self@),
    {
        let (outer, first, body) = match self {
            Form::Traverse { sequence, item, body, direction } => match direction {
                Direction::Forward => (sequence, item, body),
                Direction::Backward => {
                    return None;
                },
            },
            _ => {
                return None;
            },
        };
        assert(self@.parts[0] == outer@ && self@.parts[1] == body@);
        let step = match &**body {
            Form::Sequence(steps) => {
                assert(form_terms(steps@).len() == steps@.len());
                if steps.len() != 1 {
                    return None;
                }
                assert(form_terms(steps@)[0] == steps@[0]@);
                &steps[0]
            },
            other => other,
        };
        assert(only_step(body@) == Some(step@));
        let (inner, second, inner_body) = match step {
            Form::Traverse { sequence, item, body, direction } => match direction {
                Direction::Forward => (sequence, item, body),
                Direction::Backward => {
                    return None;
                },
            },
            _ => {
                return None;
            },
        };
        assert(step@.parts[0] == inner@ && step@.parts[1] == inner_body@);
        match Self::as_indexed_pairwise(outer, first, inner, second, inner_body) {
            Some(pairs) => Some(pairs),
            None => Self::as_enumerated_pairwise(outer, first, inner, second, inner_body),
        }
    }

    /// The index spelling: two spans over one sequence's positions.
    fn as_indexed_pairwise(
        outer: &Form,
        first: &Pattern,
        inner: &Form,
        second: &Pattern,
        body: &Form,
    ) -> (rewritten: Option<Form>)
        ensures
            rewritten_term(rewritten) == indexed_pairs(outer@, first@, inner@, second@, body@),
    {
        match (whole_index_span(outer), plain_binding(first), plain_binding(second)) {
            (Some(source), Some(left), Some(right)) => {
                let mut positions: Vec<u32> = Vec::new();
                positions.push(left);
                positions.push(right);
                assert(positions@ =~= seq![left, right]);
                if !covers_each_pair_once(inner, left, source) || !body.indexed_only(
                    source,
                    &positions,
                ) || body.writes_indexed(source) {
                    return None;
                }
                Some(
                    pairs_form(
                        source.clone(),
                        first,
                        second,
                        body.with_indexed_elements(source, &positions),
                    ),
                )
            },
            _ => None,
        }
    }

    /// The iterator spelling: `enumerate` outside, `skip(i + 1)` inside.
    fn as_enumerated_pairwise(
        outer: &Form,
        first: &Pattern,
        inner: &Form,
        second: &Pattern,
        body: &Form,
    ) -> (rewritten: Option<Form>)
        ensures
            rewritten_term(rewritten) == enumerated_pairs(outer@, first@, inner@, second@, body@),
    {
        let source = match receiver_of(outer, "enumerate", 0) {
            Some(source) => source,
            None => {
                return None;
            },
        };
        let parts = match first {
            Pattern::Tuple(parts) => parts,
            _ => {
                return None;
            },
        };
        let ghost terms = pattern_terms(parts@);
        assert(first@.parts == terms && terms.len() == parts@.len());
        if parts.len() != 2 {
            return None;
        }
        assert(terms[0] == parts@[0]@ && terms[1] == parts@[1]@);
        let position: u32 = match plain_binding(&parts[0]) {
            Some(position) => position,
            None => {
                return None;
            },
        };
        let skipped = match receiver_of(inner, "skip", 1) {
            Some(skipped) => skipped,
            None => {
                return None;
            },
        };
        if *skipped != *source || !skips_past(inner, position) || body.references_local(position) {
            return None;
        }
        Some(pairs_form(source.clone(), &parts[1], second, body.clone()))
    }
}

/// A walk over each pair of a sequence, once.
fn pairs_form(sequence: Form, left: &Pattern, right: &Pattern, body: Form) -> (form: Form)
    ensures
        form@ == pairs_term(sequence@, left@, right@, body@),
{
    let form = Form::Pairwise {
        sequence: Box::new(sequence),
        left: Box::new(left.clone()),
        right: Box::new(right.clone()),
        body: Box::new(body),
        coverage: Coverage::Once,
    };
    assert(form@.parts =~= seq![sequence@, body@]);
    form
}

/// The sequence whose whole index range a span walks.
///
/// `0..v.len()` reaches every position of `v` and nothing else. An inclusive
/// bound reaches one position past the end, which is a different walk.
fn whole_index_span(form: &Form) -> (source: Option<&Form>)
    ensures
        found_term(source) == whole_span(form@),
{
    match form {
        Form::Span { start, end, inclusive } => {
            assert(form@.parts[0] == start@ && form@.parts[1] == end@);
            if *inclusive || !start.is_number("0") {
                return None;
            }
            receiver_of(end, "len", 0)
        },
        _ => None,
    }
}

/// Whether an inner span visits each pair of a sequence exactly once.
fn covers_each_pair_once(span: &Form, outer: u32, sequence: &Form) -> (covers: bool)
    ensures
        covers == covers_pairs(span@, outer, sequence@),
{
    match span {
        Form::Span { start, end, inclusive } => {
            assert(span@.parts[0] == start@ && span@.parts[1] == end@);
            if *inclusive {
                return false;
            }
            let above = start.is_next_position(outer) && match receiver_of(end, "len", 0) {
                Some(walked) => *walked == *sequence,
                None => false,
            };
            let below = start.is_number("0") && end.is_local(outer);
            above || below
        },
        _ => false,
    }
}

/// The receiver of a method call with a given name and argument count.
fn receiver_of<'a>(form: &'a Form, method: &str, arity: usize) -> (found: Option<&'a Form>)
    requires
        arity < usize::MAX,
    ensures
        found_term(found) == receiver(form@, method@, arity as nat),
{
    match form {
        Form::Method { name, receiver, arguments } => {
            assert(form@.parts[0] == receiver@);
            assert(form_terms(arguments@).len() == arguments@.len());
            assert(form@.parts.len() == 1 + arguments@.len());
            if same_text(name.as_str(), method) && arguments.len() == arity {
                Some(&**receiver)
            } else {
                None
            }
        },
        _ => None,
    }
}

/// Whether a `skip` starts one past a named position.
fn skips_past(form: &Form, local: u32) -> (skips: bool)
    ensures
        skips == (form@.shape is Method && form@.parts.len() == 2 && next_position(
            form@.parts[1],
            local,
        )),
{
    match form {
        Form::Method { arguments, .. } => {
            assert(form_terms(arguments@).len() == arguments@.len());
            if arguments.len() != 1 {
                return false;
            }
            assert(form_terms(arguments@)[0] == arguments@[0]@);
            assert(form@.parts[1] == arguments@[0]@);
            arguments[0].is_next_position(local)
        },
        _ => false,
    }
}

/// Whether an operator's operands may be written either way round.
///
/// Comparison for equality is here and ordering comparison is not: `a < b` and
/// `b < a` are opposite questions.
fn commutes(operator: &str) -> (commutes: bool)
    ensures
        commutes == is_commutative(operator@),
{
    same_text(operator, "+") || same_text(operator, "*") || same_text(operator, "==") || same_text(
        operator,
        "!=",
    ) || same_text(operator, "&") || same_text(operator, "|") || same_text(operator, "^")
        || same_text(operator, "&&") || same_text(operator, "||")
}

/// Two integer literals combined, when the operator has an integer answer.
///
/// Only integers fold. A float literal is held as written because its value
/// does not survive the round trip, and division is left alone because it
/// truncates in some languages and not others.
fn fold(operator: &str, left: &str, right: &str) -> (value: Option<String>)
    ensures
        match value {
            Some(value) => folded(operator@, left@, right@) == Some(value@),
            None => folded(operator@, left@, right@) is None,
        },
{
    let left: i128 = match parse_integer(left) {
        Some(left) => left,
        None => {
            return None;
        },
    };
    let right: i128 = match parse_integer(right) {
        Some(right) => right,
        None => {
            return None;
        },
    };
    let value: Option<i128> = if same_text(operator, "+") {
        left.checked_add(right)
    } else if same_text(operator, "-") {
        left.checked_sub(right)
    } else if same_text(operator, "*") {
        left.checked_mul(right)
    } else {
        None
    };
    match value {
        Some(value) => Some(signed_decimal_text(value)),
        None => None,
    }
}

} // verus!
