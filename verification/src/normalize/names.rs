//! The names a form mentions and the names it binds.

use crate::lists::{
    extended, holds, joined, lemma_extended_join, lemma_extended_one, lemma_joined_step,
};
use crate::normalize::form::{
    arm_patterns, lemma_part_smaller, pattern_terms, Arm, Form, Pattern, PatternKind, PatternTerm,
    Shape, Term,
};
use crate::normalize::measure::{each_free_names, free_names};
use vstd::prelude::*;

verus! {

/// A term without children.
pub open spec fn leaf(shape: Shape) -> Term {
    Term { shape, parts: Seq::empty() }
}

/// The largest of some numbers.
pub open spec fn highest(numbers: Seq<u32>) -> Option<u32>
    decreases numbers.len(),
{
    if numbers.len() == 0 {
        None
    } else {
        higher(highest(numbers.drop_last()), Some(numbers.last()))
    }
}

/// The larger of two numbers that may be missing.
pub open spec fn higher(left: Option<u32>, right: Option<u32>) -> Option<u32> {
    match (left, right) {
        (None, right) => right,
        (left, None) => left,
        (Some(left), Some(right)) => if left < right {
            Some(right)
        } else {
            Some(left)
        },
    }
}

/// The largest of two runs of numbers is the larger of their largest.
pub proof fn lemma_highest_join(first: Seq<u32>, second: Seq<u32>)
    ensures
        highest(first + second) == higher(highest(first), highest(second)),
    decreases second.len(),
{
    if second.len() == 0 {
        assert(first + second =~= first);
    } else {
        assert((first + second).drop_last() =~= first + second.drop_last());
        lemma_highest_join(first, second.drop_last());
    }
}

/// No number exceeds the largest.
pub proof fn lemma_highest_bounds(numbers: Seq<u32>, i: int)
    requires
        0 <= i < numbers.len(),
    ensures
        highest(numbers) is Some,
        numbers[i] <= highest(numbers)->0,
    decreases numbers.len(),
{
    if i < numbers.len() - 1 {
        lemma_highest_bounds(numbers.drop_last(), i);
    }
}

/// The locals a term mentions, in order of appearance and as often as they
/// appear.
pub open spec fn local_names(term: Term) -> Seq<u32>
    decreases term,
{
    (match term.shape {
        Shape::Local(index) => seq![index],
        _ => Seq::empty(),
    }) + joined(each_local_names(term.parts))
}

/// The locals several terms mention, term by term.
pub open spec fn each_local_names(terms: Seq<Term>) -> Seq<Seq<u32>>
    decreases terms,
{
    Seq::new(
        terms.len(),
        |i: int|
            if 0 <= i < terms.len() {
                local_names(terms[i])
            } else {
                Seq::empty()
            },
    )
}

/// The names a pattern introduces, in the order they are written.
pub open spec fn pattern_names(pattern: PatternTerm) -> Seq<u32>
    decreases pattern,
{
    (match pattern.kind {
        PatternKind::Binding(index) => seq![index],
        _ => Seq::empty(),
    }) + joined(each_pattern_names(pattern.parts))
}

/// The names several patterns introduce, pattern by pattern.
pub open spec fn each_pattern_names(patterns: Seq<PatternTerm>) -> Seq<Seq<u32>>
    decreases patterns,
{
    Seq::new(
        patterns.len(),
        |i: int|
            if 0 <= i < patterns.len() {
                pattern_names(patterns[i])
            } else {
                Seq::empty()
            },
    )
}

/// The patterns a shape introduces names with.
pub open spec fn shape_binders(shape: Shape) -> Seq<PatternTerm> {
    match shape {
        Shape::Traverse(item, _)
        | Shape::Transform(item)
        | Shape::Retain(item)
        | Shape::Sift(item)
        | Shape::Let(item) => seq![item],
        Shape::Pairwise(left, right, _) => seq![left, right],
        Shape::Accumulate(accumulator, item) => seq![accumulator, item],
        Shape::Lambda(parameters) => parameters,
        Shape::Select(patterns) => patterns,
        _ => Seq::empty(),
    }
}

/// The names a term binds anywhere, in the order they are written.
pub open spec fn bound_names(term: Term) -> Seq<u32>
    decreases term,
{
    joined(each_pattern_names(shape_binders(term.shape))) + joined(each_bound_names(term.parts))
}

/// The names several terms bind, term by term.
pub open spec fn each_bound_names(terms: Seq<Term>) -> Seq<Seq<u32>>
    decreases terms,
{
    Seq::new(
        terms.len(),
        |i: int|
            if 0 <= i < terms.len() {
                bound_names(terms[i])
            } else {
                Seq::empty()
            },
    )
}

/// The locals a term mentions that are not among `bound`, in order of
/// appearance and as often as they appear.
pub open spec fn unbound_names(term: Term, bound: Seq<u32>) -> Seq<u32>
    decreases term,
{
    (match term.shape {
        Shape::Local(index) => if bound.contains(index) {
            Seq::empty()
        } else {
            seq![index]
        },
        _ => Seq::empty(),
    }) + joined(each_unbound_names(term.parts, bound))
}

/// The unbound locals several terms mention, term by term.
pub open spec fn each_unbound_names(terms: Seq<Term>, bound: Seq<u32>) -> Seq<Seq<u32>>
    decreases terms,
{
    Seq::new(
        terms.len(),
        |i: int|
            if 0 <= i < terms.len() {
                unbound_names(terms[i], bound)
            } else {
                Seq::empty()
            },
    )
}

/// The largest of several numbers.
fn highest_of(numbers: &Vec<u32>) -> (found: Option<u32>)
    ensures
        found == highest(numbers@),
{
    let mut found: Option<u32> = None;
    assert(numbers@.take(0) =~= Seq::empty());
    for i in 0..numbers.len()
        invariant
            found == highest(numbers@.take(i as int)),
    {
        assert(numbers@.take(i + 1).drop_last() =~= numbers@.take(i as int));
        found = larger(found, Some(numbers[i]));
    }
    assert(numbers@.take(numbers@.len() as int) =~= numbers@);
    found
}

/// The larger of two numbers that may be missing.
fn larger(left: Option<u32>, right: Option<u32>) -> (larger: Option<u32>)
    ensures
        larger == higher(left, right),
{
    match (left, right) {
        (None, right) => right,
        (left, None) => left,
        (Some(left), Some(right)) => if left < right {
            Some(right)
        } else {
            Some(left)
        },
    }
}

impl Pattern {
    /// Adds the names this pattern introduces to a list.
    pub(crate) fn collect_names(&self, bound: &mut Vec<u32>)
        ensures
            final(bound)@ == old(bound)@ + pattern_names(self@),
        decreases self@,
    {
        let ghost before = bound@;
        proof {
            assert(decreases_to!(self@ => self@.parts));
            assert(joined(each_pattern_names(Seq::empty())) =~= Seq::empty());
        }
        match self {
            Pattern::Binding(index) => {
                bound.push(*index);
            },
            Pattern::Ignored => {},
            Pattern::Tuple(parts) => {
                Self::collect_each(parts, bound);
            },
            Pattern::Variant { parts, .. } => {
                Self::collect_each(parts, bound);
            },
        }
        assert(bound@ =~= before + pattern_names(self@));
    }

    /// Adds the names several patterns introduce to a list.
    pub(crate) fn collect_each(parts: &Vec<Pattern>, bound: &mut Vec<u32>)
        ensures
            final(bound)@ == old(bound)@ + joined(each_pattern_names(pattern_terms(parts@))),
        decreases pattern_terms(parts@),
    {
        let ghost before = bound@;
        let ghost terms = pattern_terms(parts@);
        let ghost each = each_pattern_names(terms);
        assert(bound@ =~= before + joined(each.take(0)));
        for i in 0..parts.len()
            invariant
                terms == pattern_terms(parts@),
                each == each_pattern_names(terms),
                bound@ == before + joined(each.take(i as int)),
        {
            proof {
                assert(decreases_to!(terms => terms[i as int]));
                assert(terms[i as int] == parts@[i as int]@);
                lemma_joined_step(each, i as int);
            }
            parts[i].collect_names(bound);
            assert(bound@ =~= before + joined(each.take(i + 1)));
        }
        assert(each.take(parts@.len() as int) =~= each);
    }
}

/// Adds the names a decision's arms introduce to a list.
fn collect_arms(arms: &Vec<Arm>, bound: &mut Vec<u32>)
    ensures
        final(bound)@ == old(bound)@ + joined(each_pattern_names(arm_patterns(arms@))),
{
    let ghost before = bound@;
    let ghost each = each_pattern_names(arm_patterns(arms@));
    assert(bound@ =~= before + joined(each.take(0)));
    for i in 0..arms.len()
        invariant
            each == each_pattern_names(arm_patterns(arms@)),
            bound@ == before + joined(each.take(i as int)),
    {
        proof {
            assert(arm_patterns(arms@)[i as int] == arms@[i as int].pattern@);
            lemma_joined_step(each, i as int);
        }
        arms[i].pattern.collect_names(bound);
        assert(bound@ =~= before + joined(each.take(i + 1)));
    }
    assert(each.take(arms@.len() as int) =~= each);
}

/// The names of one pattern, and of two.
pub proof fn lemma_few_pattern_names(first: PatternTerm, second: PatternTerm)
    ensures
        joined(each_pattern_names(seq![first])) == pattern_names(first),
        joined(each_pattern_names(seq![first, second])) == pattern_names(first) + pattern_names(
            second,
        ),
        joined(each_pattern_names(Seq::<PatternTerm>::empty())) == Seq::<u32>::empty(),
{
    let one = each_pattern_names(seq![first]);
    let two = each_pattern_names(seq![first, second]);
    reveal_with_fuel(joined, 3);
    assert(one.drop_last() =~= Seq::empty());
    assert(two.drop_last().drop_last() =~= Seq::empty());
    assert(joined(one) =~= pattern_names(first));
    assert(two.drop_last().last() == pattern_names(first));
    assert(joined(two) =~= pattern_names(first) + pattern_names(second));
}

impl Form {
    /// Adds the names this form's own patterns introduce to a list.
    fn collect_own_bindings(&self, bound: &mut Vec<u32>)
        ensures
            final(bound)@ == old(bound)@ + joined(each_pattern_names(shape_binders(self@.shape))),
    {
        let ghost before = bound@;
        match self {
            Form::Traverse { item, .. }
            | Form::Transform { item, .. }
            | Form::Retain { item, .. }
            | Form::Sift { item, .. }
            | Form::Let { pattern: item, .. } => {
                proof {
                    lemma_few_pattern_names(item@, item@);
                }
                item.collect_names(bound);
            },
            Form::Pairwise { left, right, .. } => {
                proof {
                    lemma_few_pattern_names(left@, right@);
                }
                left.collect_names(bound);
                right.collect_names(bound);
                assert(bound@ =~= before + joined(
                    each_pattern_names(shape_binders(self@.shape)),
                ));
            },
            Form::Accumulate { accumulator, item, .. } => {
                proof {
                    lemma_few_pattern_names(accumulator@, item@);
                }
                accumulator.collect_names(bound);
                item.collect_names(bound);
                assert(bound@ =~= before + joined(
                    each_pattern_names(shape_binders(self@.shape)),
                ));
            },
            Form::Lambda { parameters, .. } => {
                Pattern::collect_each(parameters, bound);
            },
            Form::Select { arms, .. } => {
                collect_arms(arms, bound);
            },
            _ => {
                assert(joined(each_pattern_names(Seq::<PatternTerm>::empty())) =~= Seq::empty());
                assert(bound@ =~= before + joined(
                    each_pattern_names(shape_binders(self@.shape)),
                ));
            },
        }
    }

    /// Adds the names this form binds anywhere to a list.
    pub(crate) fn collect_bindings(&self, bound: &mut Vec<u32>)
        ensures
            final(bound)@ == old(bound)@ + bound_names(self@),
        decreases self@,
    {
        let ghost before = bound@;
        let ghost own = joined(each_pattern_names(shape_binders(self@.shape)));
        let ghost each = each_bound_names(self@.parts);
        self.collect_own_bindings(bound);
        assert(bound@ =~= before + own + joined(each.take(0)));
        let children = self.children();
        for i in 0..children.len()
            invariant
                each == each_bound_names(self@.parts),
                children@.len() == self@.parts.len(),
                forall|i: int|
                    0 <= i < children@.len() ==> (#[trigger] children@[i])@ == self@.parts[i],
                bound@ == before + own + joined(each.take(i as int)),
        {
            proof {
                lemma_part_smaller(self@, i as int);
                lemma_joined_step(each, i as int);
            }
            children[i].collect_bindings(bound);
            assert(bound@ =~= before + own + joined(each.take(i + 1)));
        }
        assert(each.take(children@.len() as int) =~= each);
        assert(bound@ =~= before + bound_names(self@));
    }

    /// Adds the names this form mentions but `bound` does not hold to those
    /// already found, in order of appearance.
    pub(crate) fn collect_unbound(&self, bound: &Vec<u32>, found: &mut Vec<u32>)
        ensures
            final(found)@ == extended(old(found)@, unbound_names(self@, bound@)),
        decreases self@,
    {
        let ghost before = found@;
        let ghost own = match self@.shape {
            Shape::Local(index) => if bound@.contains(index) {
                Seq::empty()
            } else {
                seq![index]
            },
            _ => Seq::empty(),
        };
        let ghost each = each_unbound_names(self@.parts, bound@);
        if let Form::Local(index) = self {
            proof {
                lemma_extended_one(before, *index);
            }
            if !holds(bound, *index) && !holds(found, *index) {
                found.push(*index);
            }
        }
        assert(own + joined(each.take(0)) =~= own);
        let children = self.children();
        for i in 0..children.len()
            invariant
                each == each_unbound_names(self@.parts, bound@),
                children@.len() == self@.parts.len(),
                forall|i: int|
                    0 <= i < children@.len() ==> (#[trigger] children@[i])@ == self@.parts[i],
                found@ == extended(before, own + joined(each.take(i as int))),
        {
            proof {
                lemma_part_smaller(self@, i as int);
                lemma_joined_step(each, i as int);
                lemma_extended_join(before, own + joined(each.take(i as int)), each[i as int]);
                assert(own + joined(each.take(i as int)) + each[i as int] =~= own + joined(
                    each.take(i + 1),
                ));
            }
            children[i].collect_unbound(bound, found);
        }
        assert(each.take(children@.len() as int) =~= each);
    }

    /// The largest number of any hole here.
    pub(crate) fn highest_hole(&self) -> (found: Option<u32>)
        ensures
            found == highest(free_names(self@)),
        decreases self@,
    {
        let mut found: Option<u32> = match self {
            Form::Free(index) => Some(*index),
            _ => None,
        };
        let ghost own = match self@.shape {
            Shape::Free(index) => seq![index],
            _ => Seq::empty(),
        };
        let ghost each = each_free_names(self@.parts);
        proof {
            reveal_with_fuel(highest, 2);
            assert(own.len() == 1 ==> own.drop_last() =~= Seq::empty());
            assert(own + joined(each.take(0)) =~= own);
        }
        let children = self.children();
        for i in 0..children.len()
            invariant
                each == each_free_names(self@.parts),
                children@.len() == self@.parts.len(),
                forall|i: int|
                    0 <= i < children@.len() ==> (#[trigger] children@[i])@ == self@.parts[i],
                found == highest(own + joined(each.take(i as int))),
        {
            proof {
                lemma_part_smaller(self@, i as int);
                lemma_joined_step(each, i as int);
                lemma_highest_join(own + joined(each.take(i as int)), each[i as int]);
                assert(own + joined(each.take(i as int)) + each[i as int] =~= own + joined(
                    each.take(i + 1),
                ));
            }
            found = larger(found, children[i].highest_hole());
        }
        assert(each.take(children@.len() as int) =~= each);
        found
    }

    /// The largest number of any name this form introduces or mentions.
    ///
    /// A rewrite that turns one name into two needs a number for the second,
    /// and reusing one already in play would silently identify two different
    /// values.
    pub fn highest_binding(&self) -> (found: Option<u32>)
        ensures
            found == highest(local_names(self@) + bound_names(self@)),
    {
        let mut bound: Vec<u32> = Vec::new();
        self.collect_bindings(&mut bound);
        assert(bound@ =~= bound_names(self@));
        proof {
            lemma_highest_join(local_names(self@), bound_names(self@));
        }
        larger(self.highest_mention(), highest_of(&bound))
    }

    /// The largest number of any local this form mentions.
    fn highest_mention(&self) -> (found: Option<u32>)
        ensures
            found == highest(local_names(self@)),
        decreases self@,
    {
        let mut found: Option<u32> = match self {
            Form::Local(index) => Some(*index),
            _ => None,
        };
        let ghost own = match self@.shape {
            Shape::Local(index) => seq![index],
            _ => Seq::empty(),
        };
        let ghost each = each_local_names(self@.parts);
        proof {
            reveal_with_fuel(highest, 2);
            assert(own.len() == 1 ==> own.drop_last() =~= Seq::empty());
            assert(own + joined(each.take(0)) =~= own);
        }
        let children = self.children();
        for i in 0..children.len()
            invariant
                each == each_local_names(self@.parts),
                children@.len() == self@.parts.len(),
                forall|i: int|
                    0 <= i < children@.len() ==> (#[trigger] children@[i])@ == self@.parts[i],
                found == highest(own + joined(each.take(i as int))),
        {
            proof {
                lemma_part_smaller(self@, i as int);
                lemma_joined_step(each, i as int);
                lemma_highest_join(own + joined(each.take(i as int)), each[i as int]);
                assert(own + joined(each.take(i as int)) + each[i as int] =~= own + joined(
                    each.take(i + 1),
                ));
            }
            found = larger(found, children[i].highest_mention());
        }
        assert(each.take(children@.len() as int) =~= each);
        found
    }
}

} // verus!
