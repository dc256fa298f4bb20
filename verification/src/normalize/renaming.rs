//! Renumbering roles so that alpha-equivalent forms compare equal.
//!
//! Which identifier an author chose is not behavior, so two forms that differ
//! only in the order names were introduced must reduce to the same thing.

use crate::lists::{
    extended, joined, lemma_extended, lemma_extended_join, lemma_extended_one,
    lemma_extended_position, lemma_joined_step, position_of,
};
use crate::normalize::form::{
    arm_bodies, arm_patterns, borrowed_terms, form_terms, lemma_part_smaller, pattern_terms, Arm,
    Form, Pattern, PatternKind, PatternTerm, Shape, Term,
};
use crate::normalize::measure::{each_free_names, free_names};
use crate::normalize::names::{
    each_pattern_names, lemma_few_pattern_names, pattern_names, shape_binders,
};
use vstd::prelude::*;

verus! {

/// A pattern with its names put through a function.
pub open spec fn relabeled_pattern(
    pattern: PatternTerm,
    locals: spec_fn(u32) -> u32,
) -> PatternTerm
    decreases pattern,
{
    PatternTerm {
        kind: match pattern.kind {
            PatternKind::Binding(index) => PatternKind::Binding(locals(index)),
            kind => kind,
        },
        parts: relabeled_patterns(pattern.parts, locals),
    }
}

/// Several patterns with their names put through a function.
pub open spec fn relabeled_patterns(
    patterns: Seq<PatternTerm>,
    locals: spec_fn(u32) -> u32,
) -> Seq<PatternTerm>
    decreases patterns,
{
    Seq::new(
        patterns.len(),
        |i: int|
            if 0 <= i < patterns.len() {
                relabeled_pattern(patterns[i], locals)
            } else {
                arbitrary()
            },
    )
}

/// A shape with its names and holes put through functions.
pub open spec fn relabeled_shape(
    shape: Shape,
    locals: spec_fn(u32) -> u32,
    frees: spec_fn(u32) -> u32,
) -> Shape {
    match shape {
        Shape::Local(index) => Shape::Local(locals(index)),
        Shape::Free(index) => Shape::Free(frees(index)),
        Shape::Traverse(item, direction) => Shape::Traverse(
            relabeled_pattern(item, locals),
            direction,
        ),
        Shape::Pairwise(left, right, coverage) => Shape::Pairwise(
            relabeled_pattern(left, locals),
            relabeled_pattern(right, locals),
            coverage,
        ),
        Shape::Transform(item) => Shape::Transform(relabeled_pattern(item, locals)),
        Shape::Sift(item) => Shape::Sift(relabeled_pattern(item, locals)),
        Shape::Retain(item) => Shape::Retain(relabeled_pattern(item, locals)),
        Shape::Accumulate(accumulator, item) => Shape::Accumulate(
            relabeled_pattern(accumulator, locals),
            relabeled_pattern(item, locals),
        ),
        Shape::Lambda(parameters) => Shape::Lambda(relabeled_patterns(parameters, locals)),
        Shape::Let(pattern) => Shape::Let(relabeled_pattern(pattern, locals)),
        Shape::Select(patterns) => Shape::Select(relabeled_patterns(patterns, locals)),
        shape => shape,
    }
}

/// A term with its names and holes put through functions.
pub open spec fn relabeled(
    term: Term,
    locals: spec_fn(u32) -> u32,
    frees: spec_fn(u32) -> u32,
) -> Term
    decreases term,
{
    Term {
        shape: relabeled_shape(term.shape, locals, frees),
        parts: each_relabeled(term.parts, locals, frees),
    }
}

/// Several terms with their names and holes put through functions.
pub open spec fn each_relabeled(
    terms: Seq<Term>,
    locals: spec_fn(u32) -> u32,
    frees: spec_fn(u32) -> u32,
) -> Seq<Term>
    decreases terms,
{
    Seq::new(
        terms.len(),
        |i: int|
            if 0 <= i < terms.len() {
                relabeled(terms[i], locals, frees)
            } else {
                arbitrary()
            },
    )
}

/// The names a term mentions or introduces, in the order they are written. A
/// value is written before the name it is bound to.
pub open spec fn written_names(term: Term) -> Seq<u32>
    decreases term,
{
    let each = each_written_names(term.parts);
    match term.shape {
        Shape::Local(index) => seq![index] + joined(each),
        Shape::Select(patterns) => if each.len() == 0 {
            Seq::empty()
        } else {
            each[0] + arm_names(patterns, each.drop_first())
        },
        _ => {
            let cut = binders_after(term.shape, each.len()) as int;
            joined(each.take(cut)) + joined(each_pattern_names(shape_binders(term.shape))) + joined(
                each.skip(cut),
            )
        },
    }
}

/// How many of a shape's child forms are written before its patterns.
pub open spec fn binders_after(shape: Shape, count: nat) -> nat {
    let cut: nat = match shape {
        Shape::Lambda(_) => 0,
        Shape::Traverse(_, _)
        | Shape::Pairwise(_, _, _)
        | Shape::Transform(_)
        | Shape::Sift(_)
        | Shape::Retain(_)
        | Shape::Let(_) => 1,
        Shape::Accumulate(_, _) => 2,
        _ => count,
    };
    if cut <= count {
        cut
    } else {
        count
    }
}

/// A shape around other patterns.
pub open spec fn with_binders(shape: Shape, patterns: Seq<PatternTerm>) -> Shape {
    match shape {
        Shape::Traverse(_, direction) => Shape::Traverse(patterns[0], direction),
        Shape::Pairwise(_, _, coverage) => Shape::Pairwise(patterns[0], patterns[1], coverage),
        Shape::Transform(_) => Shape::Transform(patterns[0]),
        Shape::Sift(_) => Shape::Sift(patterns[0]),
        Shape::Retain(_) => Shape::Retain(patterns[0]),
        Shape::Accumulate(_, _) => Shape::Accumulate(patterns[0], patterns[1]),
        Shape::Lambda(_) => Shape::Lambda(patterns),
        Shape::Let(_) => Shape::Let(patterns[0]),
        Shape::Select(_) => Shape::Select(patterns),
        shape => shape,
    }
}

/// The names several terms mention or introduce, term by term.
pub open spec fn each_written_names(terms: Seq<Term>) -> Seq<Seq<u32>>
    decreases terms,
{
    Seq::new(
        terms.len(),
        |i: int|
            if 0 <= i < terms.len() {
                written_names(terms[i])
            } else {
                Seq::empty()
            },
    )
}

/// The names a decision's arms introduce and mention, arm by arm.
pub open spec fn arm_names(patterns: Seq<PatternTerm>, bodies: Seq<Seq<u32>>) -> Seq<u32>
    decreases bodies.len(),
{
    if bodies.len() == 0 || patterns.len() == 0 {
        Seq::empty()
    } else {
        arm_names(patterns.drop_last(), bodies.drop_last()) + pattern_names(patterns.last())
            + bodies.last()
    }
}

/// The number of a name in a list of names: where it stands in it.
pub open spec fn number(list: Seq<u32>, name: u32) -> u32 {
    if position_of(list, name) <= u32::MAX {
        position_of(list, name) as u32
    } else {
        u32::MAX
    }
}

/// Numbering by a list of names.
pub open spec fn numbering(list: Seq<u32>) -> spec_fn(u32) -> u32 {
    |name: u32| number(list, name)
}

/// A term with its names and holes numbered by where they stand in two lists.
pub open spec fn renumbered(term: Term, locals: Seq<u32>, frees: Seq<u32>) -> Term {
    relabeled(term, numbering(locals), numbering(frees))
}

/// A term with every role renumbered by its first appearance.
pub open spec fn canonical_term(term: Term) -> Term {
    renumbered(
        term,
        extended(Seq::empty(), written_names(term)),
        extended(Seq::empty(), free_names(term)),
    )
}

/// Whether every name a pattern introduces is in a list.
pub open spec fn pattern_known(pattern: PatternTerm, locals: Seq<u32>) -> bool
    decreases pattern,
{
    (pattern.kind matches PatternKind::Binding(index) ==> locals.contains(index))
        && patterns_known(pattern.parts, locals)
}

/// Whether every name several patterns introduce is in a list.
pub open spec fn patterns_known(patterns: Seq<PatternTerm>, locals: Seq<u32>) -> bool
    decreases patterns,
{
    forall|i: int| 0 <= i < patterns.len() ==> pattern_known(#[trigger] patterns[i], locals)
}

/// Whether every name and hole of a term is in its list.
pub open spec fn term_known(term: Term, locals: Seq<u32>, frees: Seq<u32>) -> bool
    decreases term,
{
    &&& term.shape matches Shape::Local(index) ==> locals.contains(index)
    &&& term.shape matches Shape::Free(index) ==> frees.contains(index)
    &&& patterns_known(shape_binders(term.shape), locals)
    &&& terms_known(term.parts, locals, frees)
}

/// Whether every name and hole of several terms is in its list.
pub open spec fn terms_known(terms: Seq<Term>, locals: Seq<u32>, frees: Seq<u32>) -> bool
    decreases terms,
{
    forall|i: int| 0 <= i < terms.len() ==> term_known(#[trigger] terms[i], locals, frees)
}

/// Two functions give one pattern the same names where they agree on them.
proof fn lemma_pattern_agree(
    pattern: PatternTerm,
    known: Seq<u32>,
    first: spec_fn(u32) -> u32,
    second: spec_fn(u32) -> u32,
)
    requires
        pattern_known(pattern, known),
        forall|name: u32| known.contains(name) ==> #[trigger] first(name) == second(name),
    ensures
        relabeled_pattern(pattern, first) == relabeled_pattern(pattern, second),
    decreases pattern,
{
    assert(decreases_to!(pattern => pattern.parts));
    lemma_patterns_agree(pattern.parts, known, first, second);
}

proof fn lemma_patterns_agree(
    patterns: Seq<PatternTerm>,
    known: Seq<u32>,
    first: spec_fn(u32) -> u32,
    second: spec_fn(u32) -> u32,
)
    requires
        patterns_known(patterns, known),
        forall|name: u32| known.contains(name) ==> #[trigger] first(name) == second(name),
    ensures
        relabeled_patterns(patterns, first) == relabeled_patterns(patterns, second),
    decreases patterns,
{
    let left = relabeled_patterns(patterns, first);
    let right = relabeled_patterns(patterns, second);
    assert forall|i: int| 0 <= i < patterns.len() implies #[trigger] left[i] == right[i] by {
        assert(decreases_to!(patterns => patterns[i]));
        lemma_pattern_agree(patterns[i], known, first, second);
    }
    assert(left =~= right);
}

/// Two pairs of functions relabel one shape alike where they agree on its names.
proof fn lemma_shape_agree(
    shape: Shape,
    locals: Seq<u32>,
    frees: Seq<u32>,
    first: spec_fn(u32) -> u32,
    second: spec_fn(u32) -> u32,
    first_free: spec_fn(u32) -> u32,
    second_free: spec_fn(u32) -> u32,
)
    requires
        shape matches Shape::Local(index) ==> locals.contains(index),
        shape matches Shape::Free(index) ==> frees.contains(index),
        patterns_known(shape_binders(shape), locals),
        forall|name: u32| locals.contains(name) ==> #[trigger] first(name) == second(name),
        forall|name: u32| frees.contains(name) ==> #[trigger] first_free(name) == second_free(name),
    ensures
        relabeled_shape(shape, first, first_free) == relabeled_shape(shape, second, second_free),
{
    let binders = shape_binders(shape);
    lemma_patterns_agree(binders, locals, first, second);
    if binders.len() > 0 {
        assert(relabeled_patterns(binders, first)[0] == relabeled_pattern(binders[0], first));
        assert(relabeled_patterns(binders, second)[0] == relabeled_pattern(binders[0], second));
    }
    if binders.len() > 1 {
        assert(relabeled_patterns(binders, first)[1] == relabeled_pattern(binders[1], first));
        assert(relabeled_patterns(binders, second)[1] == relabeled_pattern(binders[1], second));
    }
}

/// Two pairs of functions relabel one term alike where they agree on its names.
pub proof fn lemma_term_agree(
    term: Term,
    locals: Seq<u32>,
    frees: Seq<u32>,
    first: spec_fn(u32) -> u32,
    second: spec_fn(u32) -> u32,
    first_free: spec_fn(u32) -> u32,
    second_free: spec_fn(u32) -> u32,
)
    requires
        term_known(term, locals, frees),
        forall|name: u32| locals.contains(name) ==> #[trigger] first(name) == second(name),
        forall|name: u32| frees.contains(name) ==> #[trigger] first_free(name) == second_free(name),
    ensures
        relabeled(term, first, first_free) == relabeled(term, second, second_free),
    decreases term,
{
    lemma_shape_agree(term.shape, locals, frees, first, second, first_free, second_free);
    let left = each_relabeled(term.parts, first, first_free);
    let right = each_relabeled(term.parts, second, second_free);
    assert forall|i: int| 0 <= i < term.parts.len() implies #[trigger] left[i] == right[i] by {
        lemma_part_smaller(term, i);
        assert(term_known(term.parts[i], locals, frees));
        lemma_term_agree(
            term.parts[i],
            locals,
            frees,
            first,
            second,
            first_free,
            second_free,
        );
    }
    assert(left =~= right);
}

/// Knowing more names never makes a pattern unknown.
proof fn lemma_pattern_known_more(pattern: PatternTerm, few: Seq<u32>, many: Seq<u32>)
    requires
        pattern_known(pattern, few),
        forall|name: u32| few.contains(name) ==> #[trigger] many.contains(name),
    ensures
        pattern_known(pattern, many),
    decreases pattern,
{
    assert(decreases_to!(pattern => pattern.parts));
    lemma_patterns_known_more(pattern.parts, few, many);
}

proof fn lemma_patterns_known_more(patterns: Seq<PatternTerm>, few: Seq<u32>, many: Seq<u32>)
    requires
        patterns_known(patterns, few),
        forall|name: u32| few.contains(name) ==> #[trigger] many.contains(name),
    ensures
        patterns_known(patterns, many),
    decreases patterns,
{
    assert forall|i: int| 0 <= i < patterns.len() implies pattern_known(
        #[trigger] patterns[i],
        many,
    ) by {
        assert(decreases_to!(patterns => patterns[i]));
        lemma_pattern_known_more(patterns[i], few, many);
    }
}

/// Knowing more names never makes a term unknown.
proof fn lemma_term_known_more(
    term: Term,
    few: Seq<u32>,
    many: Seq<u32>,
    few_free: Seq<u32>,
    many_free: Seq<u32>,
)
    requires
        term_known(term, few, few_free),
        forall|name: u32| few.contains(name) ==> #[trigger] many.contains(name),
        forall|name: u32| few_free.contains(name) ==> #[trigger] many_free.contains(name),
    ensures
        term_known(term, many, many_free),
    decreases term,
{
    lemma_patterns_known_more(shape_binders(term.shape), few, many);
    assert forall|i: int| 0 <= i < term.parts.len() implies term_known(
        #[trigger] term.parts[i],
        many,
        many_free,
    ) by {
        lemma_part_smaller(term, i);
        assert(term_known(term.parts[i], few, few_free));
        lemma_term_known_more(term.parts[i], few, many, few_free, many_free);
    }
}

/// Extending a list changes no number that is already in it.
proof fn lemma_number_stable(list: Seq<u32>, more: Seq<u32>)
    requires
        list.no_duplicates(),
    ensures
        extended(list, more).no_duplicates(),
        forall|name: u32| list.contains(name) ==> #[trigger] extended(list, more).contains(name),
        forall|name: u32|
            list.contains(name) ==> #[trigger] numbering(list)(name) == numbering(
                extended(list, more),
            )(name),
{
    lemma_extended(list, more);
    assert forall|name: u32| list.contains(name) implies #[trigger] numbering(list)(name)
        == numbering(extended(list, more))(name) by {
        lemma_extended_position(list, more, name);
    }
}

/// A pattern whose names are known is renumbered alike by any longer list.
proof fn lemma_pattern_stable(pattern: PatternTerm, list: Seq<u32>, more: Seq<u32>)
    requires
        list.no_duplicates(),
        pattern_known(pattern, list),
    ensures
        pattern_known(pattern, extended(list, more)),
        relabeled_pattern(pattern, numbering(list)) == relabeled_pattern(
            pattern,
            numbering(extended(list, more)),
        ),
{
    lemma_number_stable(list, more);
    lemma_pattern_known_more(pattern, list, extended(list, more));
    lemma_pattern_agree(pattern, list, numbering(list), numbering(extended(list, more)));
}

/// A term whose names are known is renumbered alike by any longer lists.
proof fn lemma_term_stable(
    term: Term,
    locals: Seq<u32>,
    frees: Seq<u32>,
    more: Seq<u32>,
    more_free: Seq<u32>,
)
    requires
        locals.no_duplicates(),
        frees.no_duplicates(),
        term_known(term, locals, frees),
    ensures
        term_known(term, extended(locals, more), extended(frees, more_free)),
        renumbered(term, locals, frees) == renumbered(
            term,
            extended(locals, more),
            extended(frees, more_free),
        ),
{
    lemma_number_stable(locals, more);
    lemma_number_stable(frees, more_free);
    lemma_term_known_more(
        term,
        locals,
        extended(locals, more),
        frees,
        extended(frees, more_free),
    );
    lemma_term_agree(
        term,
        locals,
        frees,
        numbering(locals),
        numbering(extended(locals, more)),
        numbering(frees),
        numbering(extended(frees, more_free)),
    );
}

/// Patterns whose names are known are renumbered alike by any longer list.
proof fn lemma_patterns_stable(patterns: Seq<PatternTerm>, list: Seq<u32>, more: Seq<u32>)
    requires
        list.no_duplicates(),
        patterns_known(patterns, list),
    ensures
        patterns_known(patterns, extended(list, more)),
        relabeled_patterns(patterns, numbering(list)) == relabeled_patterns(
            patterns,
            numbering(extended(list, more)),
        ),
{
    lemma_number_stable(list, more);
    lemma_patterns_known_more(patterns, list, extended(list, more));
    lemma_patterns_agree(patterns, list, numbering(list), numbering(extended(list, more)));
}

/// Terms whose names are known are renumbered alike by any longer lists.
proof fn lemma_terms_stable(
    terms: Seq<Term>,
    locals: Seq<u32>,
    frees: Seq<u32>,
    more: Seq<u32>,
    more_free: Seq<u32>,
)
    requires
        locals.no_duplicates(),
        frees.no_duplicates(),
        terms_known(terms, locals, frees),
    ensures
        terms_known(terms, extended(locals, more), extended(frees, more_free)),
        each_relabeled(terms, numbering(locals), numbering(frees)) == each_relabeled(
            terms,
            numbering(extended(locals, more)),
            numbering(extended(frees, more_free)),
        ),
{
    let left = each_relabeled(terms, numbering(locals), numbering(frees));
    let right = each_relabeled(
        terms,
        numbering(extended(locals, more)),
        numbering(extended(frees, more_free)),
    );
    assert forall|i: int| 0 <= i < terms.len() implies term_known(
        #[trigger] terms[i],
        extended(locals, more),
        extended(frees, more_free),
    ) && left[i] == right[i] by {
        lemma_term_stable(terms[i], locals, frees, more, more_free);
    }
    assert(left =~= right);
}

/// Renumbers roles by first appearance. Locals and free variables are numbered
/// independently, and a pattern binding shares the numbering of the local it
/// introduces.
pub struct Renaming {
    locals: Vec<u32>,
    frees: Vec<u32>,
}

impl Renaming {
    /// Whether the names met so far are told apart.
    pub closed spec fn well_formed(&self) -> bool {
        self.locals@.no_duplicates() && self.frees@.no_duplicates()
    }

    /// The locals met so far, in order of appearance.
    pub closed spec fn met_locals(&self) -> Seq<u32> {
        self.locals@
    }

    /// The holes met so far, in order of appearance.
    pub closed spec fn met_frees(&self) -> Seq<u32> {
        self.frees@
    }

    /// A renaming that has met nothing.
    fn new() -> (renaming: Renaming)
        ensures
            renaming.well_formed(),
            renaming.met_locals() == Seq::<u32>::empty(),
            renaming.met_frees() == Seq::<u32>::empty(),
    {
        Renaming { locals: Vec::new(), frees: Vec::new() }
    }

    /// The number of a name, which is added where it was not met before.
    fn index(sequence: &mut Vec<u32>, original: u32) -> (index: u32)
        requires
            old(sequence)@.no_duplicates(),
        ensures
            final(sequence)@.no_duplicates(),
            final(sequence)@ == extended(old(sequence)@, seq![original]),
            final(sequence)@.contains(original),
            index == number(final(sequence)@, original),
    {
        let ghost before = sequence@;
        proof {
            lemma_extended_one(before, original);
            lemma_extended(before, seq![original]);
            assert(seq![original][0] == original);
            assert(seq![original].contains(original));
        }
        let mut position: usize = 0;
        while position < sequence.len() && sequence[position] != original
            invariant
                sequence@ == before,
                position <= before.len(),
                forall|j: int| 0 <= j < position ==> before[j] != original,
            decreases before.len() - position,
        {
            position += 1;
        }
        if position == sequence.len() {
            assert(!before.contains(original));
            sequence.push(original);
        } else {
            assert(before[position as int] == original);
        }
        assert(sequence@[position as int] == original);
        assert(position_of(sequence@, original) == position as int);
        if position <= u32::MAX as usize {
            position as u32
        } else {
            u32::MAX
        }
    }

    /// A pattern with its names renumbered.
    fn pattern(&mut self, pattern: &Pattern) -> (renamed: Pattern)
        requires
            old(self).well_formed(),
        ensures
            final(self).well_formed(),
            final(self).met_frees() == old(self).met_frees(),
            final(self).met_locals() == extended(old(self).met_locals(), pattern_names(pattern@)),
            pattern_known(pattern@, final(self).met_locals()),
            renamed@ == relabeled_pattern(pattern@, numbering(final(self).met_locals())),
        decreases pattern@,
    {
        let ghost before = self.locals@;
        proof {
            assert(decreases_to!(pattern@ => pattern@.parts));
            assert(joined(each_pattern_names(Seq::<PatternTerm>::empty())) =~= Seq::empty());
            assert(extended(before, Seq::<u32>::empty()) == before);
        }
        match pattern {
            Pattern::Binding(index) => {
                assert(pattern_names(pattern@) =~= seq![*index]);
                let index: u32 = Self::index(&mut self.locals, *index);
                let renamed = Pattern::Binding(index);
                assert(renamed@.parts =~= relabeled_pattern(
                    pattern@,
                    numbering(self.locals@),
                ).parts);
                renamed
            },
            Pattern::Ignored => {
                assert(pattern_names(pattern@) =~= Seq::empty());
                let renamed = Pattern::Ignored;
                assert(renamed@.parts =~= relabeled_pattern(
                    pattern@,
                    numbering(self.locals@),
                ).parts);
                renamed
            },
            Pattern::Tuple(parts) => {
                assert(pattern_names(pattern@) =~= joined(each_pattern_names(pattern@.parts)));
                Pattern::Tuple(self.patterns(parts))
            },
            Pattern::Variant { name, parts } => {
                assert(pattern_names(pattern@) =~= joined(each_pattern_names(pattern@.parts)));
                let parts = self.patterns(parts);
                Pattern::Variant { name: name.clone(), parts }
            },
        }
    }

    /// Several patterns with their names renumbered, one after the other.
    fn patterns(&mut self, patterns: &Vec<Pattern>) -> (renamed: Vec<Pattern>)
        requires
            old(self).well_formed(),
        ensures
            final(self).well_formed(),
            final(self).met_frees() == old(self).met_frees(),
            final(self).met_locals() == extended(
                old(self).met_locals(),
                joined(each_pattern_names(pattern_terms(patterns@))),
            ),
            patterns_known(pattern_terms(patterns@), final(self).met_locals()),
            pattern_terms(renamed@) == relabeled_patterns(
                pattern_terms(patterns@),
                numbering(final(self).met_locals()),
            ),
        decreases pattern_terms(patterns@),
    {
        let ghost before = self.locals@;
        let ghost frees = self.frees@;
        let ghost terms = pattern_terms(patterns@);
        let ghost each = each_pattern_names(terms);
        let mut renamed: Vec<Pattern> = Vec::new();
        proof {
            assert(joined(each.take(0)) =~= Seq::empty());
            assert(extended(before, Seq::<u32>::empty()) == before);
            assert(pattern_terms(renamed@) =~= relabeled_patterns(
                terms.take(0),
                numbering(self.locals@),
            ));
        }
        for i in 0..patterns.len()
            invariant
                self.well_formed(),
                self.frees@ == frees,
                terms == pattern_terms(patterns@),
                each == each_pattern_names(terms),
                self.locals@ == extended(before, joined(each.take(i as int))),
                patterns_known(terms.take(i as int), self.locals@),
                pattern_terms(renamed@) == relabeled_patterns(
                    terms.take(i as int),
                    numbering(self.locals@),
                ),
        {
            let ghost so_far = self.locals@;
            let ghost list = renamed@;
            proof {
                assert(decreases_to!(terms => terms[i as int]));
                assert(terms[i as int] == patterns@[i as int]@);
                lemma_joined_step(each, i as int);
                lemma_extended_join(before, joined(each.take(i as int)), each[i as int]);
                lemma_patterns_stable(terms.take(i as int), so_far, each[i as int]);
            }
            let pattern = self.pattern(&patterns[i]);
            renamed.push(pattern);
            proof {
                let next = terms.take(i + 1);
                assert forall|j: int| 0 <= j < next.len() implies pattern_known(
                    #[trigger] next[j],
                    self.locals@,
                ) by {
                    if j < i {
                        assert(terms.take(i as int)[j] == next[j]);
                    }
                }
                let all = relabeled_patterns(next, numbering(self.locals@));
                let few = relabeled_patterns(terms.take(i as int), numbering(self.locals@));
                assert(all =~= few.push(pattern@)) by {
                    assert forall|j: int| 0 <= j < all.len() implies #[trigger] all[j]
                        == few.push(pattern@)[j] by {
                        if j < i {
                            assert(few[j] == relabeled_pattern(
                                terms.take(i as int)[j],
                                numbering(self.locals@),
                            ));
                        }
                    }
                }
                assert(pattern_terms(renamed@) =~= pattern_terms(list).push(pattern@));
            }
        }
        assert(each.take(patterns@.len() as int) =~= each);
        assert(terms.take(patterns@.len() as int) =~= terms);
        renamed
    }

    /// The patterns a form introduces names with, renumbered one after the
    /// other. The arms of a decision are not among them.
    fn binders(&mut self, form: &Form) -> (renamed: Vec<Pattern>)
        requires
            old(self).well_formed(),
            form@.shape !is Select,
        ensures
            final(self).well_formed(),
            final(self).met_frees() == old(self).met_frees(),
            final(self).met_locals() == extended(
                old(self).met_locals(),
                joined(each_pattern_names(shape_binders(form@.shape))),
            ),
            patterns_known(shape_binders(form@.shape), final(self).met_locals()),
            pattern_terms(renamed@) == relabeled_patterns(
                shape_binders(form@.shape),
                numbering(final(self).met_locals()),
            ),
    {
        let ghost before = self.locals@;
        let mut renamed: Vec<Pattern> = Vec::new();
        match form {
            Form::Traverse { item, .. }
            | Form::Transform { item, .. }
            | Form::Sift { item, .. }
            | Form::Retain { item, .. }
            | Form::Let { pattern: item, .. } => {
                proof {
                    lemma_few_pattern_names(item@, item@);
                }
                let first = self.pattern(item);
                renamed.push(first);
                assert(pattern_terms(renamed@) =~= relabeled_patterns(
                    seq![item@],
                    numbering(self.locals@),
                ));
            },
            Form::Pairwise { left, right, .. } => {
                return self.both(left, right);
            },
            Form::Accumulate { accumulator, item, .. } => {
                return self.both(accumulator, item);
            },
            Form::Lambda { parameters, .. } => {
                return self.patterns(parameters);
            },
            _ => {
                assert(joined(each_pattern_names(Seq::<PatternTerm>::empty())) =~= Seq::empty());
                assert(extended(before, Seq::<u32>::empty()) == before);
                assert(pattern_terms(renamed@) =~= relabeled_patterns(
                    shape_binders(form@.shape),
                    numbering(self.locals@),
                ));
            },
        }
        renamed
    }

    /// Two patterns with their names renumbered, one after the other.
    fn both(&mut self, left: &Pattern, right: &Pattern) -> (renamed: Vec<Pattern>)
        requires
            old(self).well_formed(),
        ensures
            final(self).well_formed(),
            final(self).met_frees() == old(self).met_frees(),
            final(self).met_locals() == extended(
                old(self).met_locals(),
                joined(each_pattern_names(seq![left@, right@])),
            ),
            patterns_known(seq![left@, right@], final(self).met_locals()),
            pattern_terms(renamed@) == relabeled_patterns(
                seq![left@, right@],
                numbering(final(self).met_locals()),
            ),
    {
        let ghost before = self.locals@;
        proof {
            lemma_few_pattern_names(left@, right@);
            lemma_extended_join(before, pattern_names(left@), pattern_names(right@));
        }
        let first = self.pattern(left);
        proof {
            lemma_pattern_stable(left@, self.locals@, pattern_names(right@));
        }
        let second = self.pattern(right);
        let mut renamed: Vec<Pattern> = Vec::new();
        renamed.push(first);
        renamed.push(second);
        proof {
            let both = seq![left@, right@];
            assert forall|i: int| 0 <= i < both.len() implies pattern_known(
                #[trigger] both[i],
                self.locals@,
            ) by {
                assert(both[i] == if i == 0 {
                    left@
                } else {
                    right@
                });
            }
            assert(pattern_terms(renamed@) =~= relabeled_patterns(both, numbering(self.locals@)));
        }
        renamed
    }

    /// A run of child forms renumbered, one after the other.
    fn run(
        &mut self,
        children: &Vec<&Form>,
        start: usize,
        end: usize,
        parent: Ghost<Term>,
    ) -> (renamed: Vec<Form>)
        requires
            old(self).well_formed(),
            borrowed_terms(children@) == parent@.parts,
            start <= end <= children@.len(),
        ensures
            final(self).well_formed(),
            final(self).met_locals() == extended(
                old(self).met_locals(),
                joined(each_written_names(parent@.parts.subrange(start as int, end as int))),
            ),
            final(self).met_frees() == extended(
                old(self).met_frees(),
                joined(each_free_names(parent@.parts.subrange(start as int, end as int))),
            ),
            terms_known(
                parent@.parts.subrange(start as int, end as int),
                final(self).met_locals(),
                final(self).met_frees(),
            ),
            form_terms(renamed@) == each_relabeled(
                parent@.parts.subrange(start as int, end as int),
                numbering(final(self).met_locals()),
                numbering(final(self).met_frees()),
            ),
        decreases parent@, 0nat,
    {
        let ghost before = self.locals@;
        let ghost before_free = self.frees@;
        let ghost terms = parent@.parts.subrange(start as int, end as int);
        let ghost each = each_written_names(terms);
        let ghost each_free = each_free_names(terms);
        let mut renamed: Vec<Form> = Vec::new();
        proof {
            assert(joined(each.take(0)) =~= Seq::empty());
            assert(joined(each_free.take(0)) =~= Seq::empty());
            assert(extended(before, Seq::<u32>::empty()) == before);
            assert(extended(before_free, Seq::<u32>::empty()) == before_free);
            assert(form_terms(renamed@) =~= each_relabeled(
                terms.take(0),
                numbering(self.locals@),
                numbering(self.frees@),
            ));
        }
        for i in start..end
            invariant
                self.well_formed(),
                start <= end <= children@.len(),
                borrowed_terms(children@) == parent@.parts,
                terms == parent@.parts.subrange(start as int, end as int),
                each == each_written_names(terms),
                each_free == each_free_names(terms),
                self.locals@ == extended(before, joined(each.take(i - start))),
                self.frees@ == extended(before_free, joined(each_free.take(i - start))),
                terms_known(terms.take(i - start), self.locals@, self.frees@),
                form_terms(renamed@) == each_relabeled(
                    terms.take(i - start),
                    numbering(self.locals@),
                    numbering(self.frees@),
                ),
        {
            let ghost k = i - start;
            let ghost so_far = self.locals@;
            let ghost so_far_free = self.frees@;
            let ghost list = renamed@;
            proof {
                lemma_part_smaller(parent@, i as int);
                assert(borrowed_terms(children@)[i as int] == children@[i as int]@);
                assert(terms[k] == children@[i as int]@);
                lemma_joined_step(each, k);
                lemma_joined_step(each_free, k);
                lemma_extended_join(before, joined(each.take(k)), each[k]);
                lemma_extended_join(before_free, joined(each_free.take(k)), each_free[k]);
                lemma_terms_stable(
                    terms.take(k),
                    so_far,
                    so_far_free,
                    each[k],
                    each_free[k],
                );
            }
            let form = self.form(children[i]);
            renamed.push(form);
            proof {
                let next = terms.take(k + 1);
                assert forall|j: int| 0 <= j < next.len() implies term_known(
                    #[trigger] next[j],
                    self.locals@,
                    self.frees@,
                ) by {
                    if j < k {
                        assert(terms.take(k)[j] == next[j]);
                    }
                }
                let all = each_relabeled(next, numbering(self.locals@), numbering(self.frees@));
                let few = each_relabeled(
                    terms.take(k),
                    numbering(self.locals@),
                    numbering(self.frees@),
                );
                assert(all =~= few.push(form@)) by {
                    assert forall|j: int| 0 <= j < all.len() implies #[trigger] all[j]
                        == few.push(form@)[j] by {
                        if j < k {
                            assert(few[j] == relabeled(
                                terms.take(k)[j],
                                numbering(self.locals@),
                                numbering(self.frees@),
                            ));
                        }
                    }
                }
                assert(form_terms(renamed@) =~= form_terms(list).push(form@));
            }
        }
        assert(each.take(end - start) =~= each);
        assert(each_free.take(end - start) =~= each_free);
        assert(terms.take(end - start) =~= terms);
        renamed
    }

    /// How many child forms of a form are written before its patterns.
    fn binders_place(form: &Form, count: usize) -> (cut: usize)
        ensures
            cut == binders_after(form@.shape, count as nat),
    {
        let cut: usize = match form {
            Form::Lambda { .. } => 0,
            Form::Traverse { .. }
            | Form::Pairwise { .. }
            | Form::Transform { .. }
            | Form::Sift { .. }
            | Form::Retain { .. }
            | Form::Let { .. } => 1,
            Form::Accumulate { .. } => 2,
            _ => count,
        };
        if cut <= count {
            cut
        } else {
            count
        }
    }

    /// Rewrite a form, visiting names in the order they are written so the
    /// numbering is deterministic.
    fn form(&mut self, form: &Form) -> (renamed: Form)
        requires
            old(self).well_formed(),
        ensures
            final(self).well_formed(),
            final(self).met_locals() == extended(old(self).met_locals(), written_names(form@)),
            final(self).met_frees() == extended(old(self).met_frees(), free_names(form@)),
            term_known(form@, final(self).met_locals(), final(self).met_frees()),
            renamed@ == renumbered(form@, final(self).met_locals(), final(self).met_frees()),
        decreases form@, 2nat,
    {
        let ghost before = self.locals@;
        let ghost before_free = self.frees@;
        match form {
            Form::Local(index) => {
                proof {
                    assert(each_written_names(form@.parts) =~= Seq::empty());
                    assert(each_free_names(form@.parts) =~= Seq::empty());
                    assert(written_names(form@) =~= seq![*index]);
                    assert(free_names(form@) =~= Seq::empty());
                    assert(extended(before_free, Seq::<u32>::empty()) == before_free);
                }
                let index: u32 = Self::index(&mut self.locals, *index);
                let renamed = Form::Local(index);
                assert(renamed@.parts =~= renumbered(form@, self.locals@, self.frees@).parts);
                renamed
            },
            Form::Free(index) => {
                proof {
                    assert(each_written_names(form@.parts) =~= Seq::empty());
                    assert(each_free_names(form@.parts) =~= Seq::empty());
                    assert(joined(each_pattern_names(Seq::<PatternTerm>::empty()))
                        =~= Seq::empty());
                    assert(written_names(form@) =~= Seq::empty());
                    assert(free_names(form@) =~= seq![*index]);
                    assert(extended(before, Seq::<u32>::empty()) == before);
                }
                let index: u32 = Self::index(&mut self.frees, *index);
                let renamed = Form::Free(index);
                assert(renamed@.parts =~= renumbered(form@, self.locals@, self.frees@).parts);
                renamed
            },
            Form::Select { scrutinee, arms } => {
                self.decision(form, scrutinee, arms)
            },
            _ => self.around_binders(form),
        }
    }

    /// Rewrite a form that is no name and no decision: the child forms written
    /// before its patterns, the patterns, and the child forms after them.
    fn around_binders(&mut self, form: &Form) -> (renamed: Form)
        requires
            old(self).well_formed(),
            form@.shape !is Local,
            form@.shape !is Free,
            form@.shape !is Select,
        ensures
            final(self).well_formed(),
            final(self).met_locals() == extended(old(self).met_locals(), written_names(form@)),
            final(self).met_frees() == extended(old(self).met_frees(), free_names(form@)),
            term_known(form@, final(self).met_locals(), final(self).met_frees()),
            renamed@ == renumbered(form@, final(self).met_locals(), final(self).met_frees()),
        decreases form@, 1nat,
    {
        let ghost before = self.locals@;
        let ghost before_free = self.frees@;
        let children = form.children();
        let ghost parts = form@.parts;
        let count: usize = children.len();
        let cut: usize = Self::binders_place(form, count);
        let ghost binders = shape_binders(form@.shape);
        let ghost binder_names = joined(each_pattern_names(binders));
        let ghost first = parts.subrange(0, cut as int);
        let ghost last = parts.subrange(cut as int, count as int);
        let ghost last_names = joined(each_written_names(last));
        let ghost last_frees = joined(each_free_names(last));
        let mut renamed = self.run(&children, 0, cut, Ghost(form@));
        let ghost after_first = self.locals@;
        let ghost after_first_free = self.frees@;
        let patterns = self.binders(form);
        let ghost after_binders = self.locals@;
        let mut rest = self.run(&children, cut, count, Ghost(form@));
        proof {
            lemma_extended_join(after_first, binder_names, last_names);
            lemma_terms_stable(
                first,
                after_first,
                after_first_free,
                binder_names + last_names,
                last_frees,
            );
            lemma_patterns_stable(binders, after_binders, last_names);
            let first_names = joined(each_written_names(first));
            let first_frees = joined(each_free_names(first));
            assert(each_written_names(first) =~= each_written_names(parts).take(cut as int));
            assert(each_written_names(last) =~= each_written_names(parts).skip(cut as int));
            assert(written_names(form@) =~= first_names + (binder_names + last_names));
            lemma_extended_join(before, first_names, binder_names + last_names);
            lemma_extended_join(before_free, first_frees, last_frees);
            lemma_joined_split(each_free_names(parts), cut as int);
            assert(each_free_names(first) =~= each_free_names(parts).take(cut as int));
            assert(each_free_names(last) =~= each_free_names(parts).skip(cut as int));
            assert(free_names(form@) =~= first_frees + last_frees);
            assert forall|i: int| 0 <= i < parts.len() implies term_known(
                #[trigger] parts[i],
                self.locals@,
                self.frees@,
            ) by {
                if i < cut {
                    assert(first[i] == parts[i]);
                } else {
                    assert(last[i - cut] == parts[i]);
                }
            }
        }
        let ghost made_first = form_terms(renamed@);
        let ghost made_last = form_terms(rest@);
        let ghost first_forms = renamed@;
        let ghost last_forms = rest@;
        renamed.append(&mut rest);
        proof {
            assert(renamed@ =~= first_forms + last_forms);
            assert(form_terms(renamed@) =~= made_first + made_last);
            let all = each_relabeled(parts, numbering(self.locals@), numbering(self.frees@));
            assert(all =~= made_first + made_last) by {
                assert forall|i: int| 0 <= i < all.len() implies #[trigger] all[i] == (made_first
                    + made_last)[i] by {
                    if i < cut {
                        assert(first[i] == parts[i]);
                        assert(made_first[i] == relabeled(
                            first[i],
                            numbering(self.locals@),
                            numbering(self.frees@),
                        ));
                    } else {
                        assert(last[i - cut] == parts[i]);
                        assert(made_last[i - cut] == relabeled(
                            last[i - cut],
                            numbering(self.locals@),
                            numbering(self.frees@),
                        ));
                    }
                }
            }
            assert(form_terms(renamed@).len() == renamed@.len());
            lemma_relabeled_binders(form@.shape, numbering(self.locals@), numbering(self.frees@));
        }
        form.with_children(renamed).with_patterns(patterns)
    }

    /// Rewrite an arm, its pattern before its body.
    fn arm(&mut self, arm: &Arm, parent: Ghost<Term>) -> (renamed: Arm)
        requires
            old(self).well_formed(),
            decreases_to!(parent@ => arm.body@),
        ensures
            final(self).well_formed(),
            final(self).met_locals() == extended(
                old(self).met_locals(),
                pattern_names(arm.pattern@) + written_names(arm.body@),
            ),
            final(self).met_frees() == extended(old(self).met_frees(), free_names(arm.body@)),
            pattern_known(arm.pattern@, final(self).met_locals()),
            term_known(arm.body@, final(self).met_locals(), final(self).met_frees()),
            renamed.pattern@ == relabeled_pattern(
                arm.pattern@,
                numbering(final(self).met_locals()),
            ),
            renamed.body@ == renumbered(
                arm.body@,
                final(self).met_locals(),
                final(self).met_frees(),
            ),
        decreases parent@, 0nat,
    {
        proof {
            lemma_extended_join(
                self.locals@,
                pattern_names(arm.pattern@),
                written_names(arm.body@),
            );
        }
        let pattern = self.pattern(&arm.pattern);
        proof {
            lemma_pattern_stable(arm.pattern@, self.locals@, written_names(arm.body@));
        }
        let body = self.form(&arm.body);
        Arm { pattern, body }
    }

    /// Rewrite a decision: what it decides on, and then each arm's pattern
    /// before its body.
    #[verifier::rlimit(40)]
    fn decision(&mut self, form: &Form, scrutinee: &Form, arms: &Vec<Arm>) -> (renamed: Form)
        requires
            old(self).well_formed(),
            form@.shape == Shape::Select(arm_patterns(arms@)),
            form@.parts == seq![scrutinee@] + arm_bodies(arms@),
        ensures
            final(self).well_formed(),
            final(self).met_locals() == extended(old(self).met_locals(), written_names(form@)),
            final(self).met_frees() == extended(old(self).met_frees(), free_names(form@)),
            term_known(form@, final(self).met_locals(), final(self).met_frees()),
            renamed@ == renumbered(form@, final(self).met_locals(), final(self).met_frees()),
        decreases form@, 1nat,
    {
        let ghost before = self.locals@;
        let ghost before_free = self.frees@;
        let ghost patterns = arm_patterns(arms@);
        let ghost bodies = arm_bodies(arms@);
        let ghost body_names = each_written_names(bodies);
        let ghost body_frees = each_free_names(bodies);
        let ghost head_names = written_names(scrutinee@);
        let ghost head_frees = free_names(scrutinee@);
        proof {
            lemma_part_smaller(form@, 0);
            assert(form@.parts[0] == scrutinee@);
        }
        let renamed_scrutinee = self.form(scrutinee);
        let mut renamed: Vec<Arm> = Vec::new();
        proof {
            assert(patterns.take(0) =~= Seq::empty());
            assert(arm_names(patterns.take(0), body_names.take(0)) =~= Seq::empty());
            assert(head_names + arm_names(patterns.take(0), body_names.take(0)) =~= head_names);
            assert(joined(body_frees.take(0)) =~= Seq::empty());
            assert(head_frees + joined(body_frees.take(0)) =~= head_frees);
            assert(arm_patterns(renamed@) =~= relabeled_patterns(
                patterns.take(0),
                numbering(self.locals@),
            ));
            assert(arm_bodies(renamed@) =~= each_relabeled(
                bodies.take(0),
                numbering(self.locals@),
                numbering(self.frees@),
            ));
        }
        for i in 0..arms.len()
            invariant
                self.well_formed(),
                form@.parts == seq![scrutinee@] + bodies,
                patterns == arm_patterns(arms@),
                bodies == arm_bodies(arms@),
                body_names == each_written_names(bodies),
                body_frees == each_free_names(bodies),
                self.locals@ == extended(
                    before,
                    head_names + arm_names(patterns.take(i as int), body_names.take(i as int)),
                ),
                self.frees@ == extended(
                    before_free,
                    head_frees + joined(body_frees.take(i as int)),
                ),
                term_known(scrutinee@, self.locals@, self.frees@),
                patterns_known(patterns.take(i as int), self.locals@),
                terms_known(bodies.take(i as int), self.locals@, self.frees@),
                renamed_scrutinee@ == renumbered(scrutinee@, self.locals@, self.frees@),
                arm_patterns(renamed@) == relabeled_patterns(
                    patterns.take(i as int),
                    numbering(self.locals@),
                ),
                arm_bodies(renamed@) == each_relabeled(
                    bodies.take(i as int),
                    numbering(self.locals@),
                    numbering(self.frees@),
                ),
        {
            let ghost so_far = self.locals@;
            let ghost so_far_free = self.frees@;
            let ghost list = renamed@;
            let ghost names_before = head_names + arm_names(
                patterns.take(i as int),
                body_names.take(i as int),
            );
            let ghost frees_before = head_frees + joined(body_frees.take(i as int));
            let ghost own_names = pattern_names(patterns[i as int]) + body_names[i as int];
            proof {
                lemma_part_smaller(form@, i + 1);
                assert(form@.parts[i + 1] == bodies[i as int]);
                assert(bodies[i as int] == arms@[i as int].body@);
                assert(patterns[i as int] == arms@[i as int].pattern@);
                assert(patterns.take(i + 1).drop_last() =~= patterns.take(i as int));
                assert(body_names.take(i + 1).drop_last() =~= body_names.take(i as int));
                assert(head_names + arm_names(patterns.take(i + 1), body_names.take(i + 1))
                    =~= names_before + own_names);
                lemma_joined_step(body_frees, i as int);
                assert(head_frees + joined(body_frees.take(i + 1)) =~= frees_before
                    + body_frees[i as int]);
                lemma_extended_join(before, names_before, own_names);
                lemma_extended_join(before_free, frees_before, body_frees[i as int]);
                lemma_term_stable(
                    scrutinee@,
                    so_far,
                    so_far_free,
                    own_names,
                    body_frees[i as int],
                );
                lemma_patterns_stable(patterns.take(i as int), so_far, own_names);
                lemma_terms_stable(
                    bodies.take(i as int),
                    so_far,
                    so_far_free,
                    own_names,
                    body_frees[i as int],
                );
            }
            let arm = self.arm(&arms[i], Ghost(form@));
            let ghost pattern = arm.pattern;
            let ghost body = arm.body;
            renamed.push(arm);
            proof {
                let locals = numbering(self.locals@);
                let frees = numbering(self.frees@);
                lemma_push_relabeled_pattern(patterns, i as int, locals);
                lemma_push_relabeled(bodies, i as int, locals, frees);
                assert(arm_patterns(renamed@) =~= arm_patterns(list).push(pattern@));
                assert(arm_bodies(renamed@) =~= arm_bodies(list).push(body@));
                assert forall|j: int| 0 <= j < i + 1 implies pattern_known(
                    #[trigger] patterns.take(i + 1)[j],
                    self.locals@,
                ) by {
                    if j < i {
                        assert(patterns.take(i as int)[j] == patterns[j]);
                    }
                }
                assert forall|j: int| 0 <= j < i + 1 implies term_known(
                    #[trigger] bodies.take(i + 1)[j],
                    self.locals@,
                    self.frees@,
                ) by {
                    if j < i {
                        assert(bodies.take(i as int)[j] == bodies[j]);
                    }
                }
            }
        }
        let result = Form::Select { scrutinee: Box::new(renamed_scrutinee), arms: renamed };
        proof {
            let n = arms@.len() as int;
            assert(patterns.take(n) =~= patterns);
            assert(bodies.take(n) =~= bodies);
            assert(body_names.take(n) =~= body_names);
            assert(body_frees.take(n) =~= body_frees);
            let each = each_written_names(form@.parts);
            assert(each[0] == head_names);
            assert(each.drop_first() =~= body_names);
            assert(written_names(form@) == head_names + arm_names(patterns, body_names));
            let frees = each_free_names(form@.parts);
            lemma_joined_split(frees, 1);
            assert(frees.take(1) =~= seq![head_frees]);
            assert(joined(seq![head_frees]) =~= head_frees) by {
                assert(seq![head_frees].drop_last() =~= Seq::empty());
                reveal_with_fuel(joined, 2);
            }
            assert(frees.skip(1) =~= body_frees);
            assert(free_names(form@) =~= head_frees + joined(body_frees));
            assert forall|i: int| 0 <= i < form@.parts.len() implies term_known(
                #[trigger] form@.parts[i],
                self.locals@,
                self.frees@,
            ) by {
                if i > 0 {
                    assert(form@.parts[i] == bodies[i - 1]);
                }
            }
            let all = each_relabeled(
                form@.parts,
                numbering(self.locals@),
                numbering(self.frees@),
            );
            let made = each_relabeled(bodies, numbering(self.locals@), numbering(self.frees@));
            assert(all =~= seq![renamed_scrutinee@] + made) by {
                assert forall|i: int| 0 <= i < all.len() implies #[trigger] all[i] == (seq![
                    renamed_scrutinee@,
                ] + made)[i] by {
                    if i > 0 {
                        assert(form@.parts[i] == bodies[i - 1]);
                        assert(made[i - 1] == relabeled(
                            bodies[i - 1],
                            numbering(self.locals@),
                            numbering(self.frees@),
                        ));
                    }
                }
            }
            assert(result@.parts == seq![renamed_scrutinee@] + arm_bodies(renamed@));
        }
        result
    }
}

/// Joining lists is joining the first few and then the rest.
proof fn lemma_joined_split(lists: Seq<Seq<u32>>, cut: int)
    requires
        0 <= cut <= lists.len(),
    ensures
        joined(lists) == joined(lists.take(cut)) + joined(lists.skip(cut)),
    decreases lists.len() - cut,
{
    if cut == lists.len() {
        assert(lists.take(cut) =~= lists);
        assert(lists.skip(cut) =~= Seq::empty());
        assert(joined(lists) =~= joined(lists) + joined(Seq::<Seq<u32>>::empty()));
    } else {
        lemma_joined_split(lists, cut + 1);
        lemma_joined_step(lists, cut);
        lemma_joined_first(lists.skip(cut));
        assert(lists.skip(cut).drop_first() =~= lists.skip(cut + 1));
        assert(joined(lists) =~= joined(lists.take(cut)) + joined(lists.skip(cut)));
    }
}

proof fn lemma_joined_first(lists: Seq<Seq<u32>>)
    requires
        lists.len() > 0,
    ensures
        joined(lists) == lists[0] + joined(lists.drop_first()),
    decreases lists.len(),
{
    if lists.len() == 1 {
        assert(lists.drop_last() =~= Seq::empty());
        assert(lists.drop_first() =~= Seq::empty());
        reveal_with_fuel(joined, 2);
        assert(joined(lists) =~= lists[0] + joined(lists.drop_first()));
    } else {
        lemma_joined_first(lists.drop_last());
        assert(lists.drop_last().drop_first() =~= lists.drop_first().drop_last());
        assert(joined(lists) =~= lists[0] + joined(lists.drop_first()));
    }
}

proof fn lemma_push_relabeled_pattern(
    patterns: Seq<PatternTerm>,
    i: int,
    locals: spec_fn(u32) -> u32,
)
    requires
        0 <= i < patterns.len(),
    ensures
        relabeled_patterns(patterns.take(i + 1), locals) == relabeled_patterns(
            patterns.take(i),
            locals,
        ).push(relabeled_pattern(patterns[i], locals)),
{
    let all = relabeled_patterns(patterns.take(i + 1), locals);
    let few = relabeled_patterns(patterns.take(i), locals);
    assert forall|j: int| 0 <= j < all.len() implies #[trigger] all[j] == few.push(
        relabeled_pattern(patterns[i], locals),
    )[j] by {
        if j < i {
            assert(few[j] == relabeled_pattern(patterns.take(i)[j], locals));
        }
    }
    assert(all =~= few.push(relabeled_pattern(patterns[i], locals)));
}

proof fn lemma_push_relabeled(
    terms: Seq<Term>,
    i: int,
    locals: spec_fn(u32) -> u32,
    frees: spec_fn(u32) -> u32,
)
    requires
        0 <= i < terms.len(),
    ensures
        each_relabeled(terms.take(i + 1), locals, frees) == each_relabeled(
            terms.take(i),
            locals,
            frees,
        ).push(relabeled(terms[i], locals, frees)),
{
    let all = each_relabeled(terms.take(i + 1), locals, frees);
    let few = each_relabeled(terms.take(i), locals, frees);
    assert forall|j: int| 0 <= j < all.len() implies #[trigger] all[j] == few.push(
        relabeled(terms[i], locals, frees),
    )[j] by {
        if j < i {
            assert(few[j] == relabeled(terms.take(i)[j], locals, frees));
        }
    }
    assert(all =~= few.push(relabeled(terms[i], locals, frees)));
}

/// Relabeling a shape that is no name relabels its patterns.
proof fn lemma_relabeled_binders(
    shape: Shape,
    locals: spec_fn(u32) -> u32,
    frees: spec_fn(u32) -> u32,
)
    requires
        shape !is Local,
        shape !is Free,
    ensures
        relabeled_shape(shape, locals, frees) == with_binders(
            shape,
            relabeled_patterns(shape_binders(shape), locals),
        ),
        relabeled_patterns(shape_binders(shape), locals).len() == shape_binders(shape).len(),
{
    let binders = shape_binders(shape);
    if binders.len() > 0 {
        assert(relabeled_patterns(binders, locals)[0] == relabeled_pattern(binders[0], locals));
    }
    if binders.len() > 1 {
        assert(relabeled_patterns(binders, locals)[1] == relabeled_pattern(binders[1], locals));
    }
}

/// The first pattern of a list.
fn first_pattern(patterns: Vec<Pattern>) -> (first: Pattern)
    requires
        patterns@.len() > 0,
    ensures
        first@ == pattern_terms(patterns@)[0],
{
    let ghost before = patterns@;
    let mut patterns = patterns;
    let first = patterns.remove(0);
    assert(pattern_terms(before)[0] == before[0]@);
    first
}

/// The first two patterns of a list.
fn first_two_patterns(patterns: Vec<Pattern>) -> (both: (Pattern, Pattern))
    requires
        patterns@.len() > 1,
    ensures
        both.0@ == pattern_terms(patterns@)[0],
        both.1@ == pattern_terms(patterns@)[1],
{
    let ghost before = patterns@;
    let mut patterns = patterns;
    let second = patterns.remove(1);
    let first = patterns.remove(0);
    assert(pattern_terms(before)[0] == before[0]@);
    assert(pattern_terms(before)[1] == before[1]@);
    (first, second)
}

impl Form {
    /// This form around other patterns.
    fn with_patterns(self, patterns: Vec<Pattern>) -> (rebuilt: Form)
        requires
            self@.shape !is Select,
            pattern_terms(patterns@).len() == shape_binders(self@.shape).len(),
        ensures
            rebuilt@ == (Term {
                shape: with_binders(self@.shape, pattern_terms(patterns@)),
                parts: self@.parts,
            }),
    {
        match self {
            Form::Traverse { sequence, item: _, body, direction } => Form::Traverse {
                sequence,
                item: Box::new(first_pattern(patterns)),
                body,
                direction,
            },
            Form::Transform { sequence, item: _, body } => Form::Transform {
                sequence,
                item: Box::new(first_pattern(patterns)),
                body,
            },
            Form::Sift { sequence, item: _, body } => Form::Sift {
                sequence,
                item: Box::new(first_pattern(patterns)),
                body,
            },
            Form::Retain { sequence, item: _, body } => Form::Retain {
                sequence,
                item: Box::new(first_pattern(patterns)),
                body,
            },
            Form::Let { pattern: _, value } => Form::Let {
                pattern: Box::new(first_pattern(patterns)),
                value,
            },
            Form::Pairwise { sequence, left: _, right: _, body, coverage } => {
                let (left, right) = first_two_patterns(patterns);
                Form::Pairwise {
                    sequence,
                    left: Box::new(left),
                    right: Box::new(right),
                    body,
                    coverage,
                }
            },
            Form::Accumulate { sequence, initial, accumulator: _, item: _, body } => {
                let (accumulator, item) = first_two_patterns(patterns);
                Form::Accumulate {
                    sequence,
                    initial,
                    accumulator: Box::new(accumulator),
                    item: Box::new(item),
                    body,
                }
            },
            Form::Lambda { parameters: _, body } => Form::Lambda { parameters: patterns, body },
            other => other,
        }
    }

    /// Renumber every role by its first appearance within this form.
    ///
    /// Role numbers are assigned while walking a whole function, so the same
    /// behavior carries different numbers depending on what surrounds it.
    /// Comparing behavior means comparing forms up to consistent renaming, and
    /// this puts any form into the representative shape that makes equality
    /// mean that.
    pub fn canonical(&self) -> (canonical: Form)
        ensures
            canonical@ == canonical_term(self@),
    {
        let mut renaming = Renaming::new();
        renaming.form(self)
    }
}

} // verus!
