//! What a form amounts to: how large it is, what it names and what it leaves
//! open.

use crate::lists::{
    extended, greatest, holds, joined, lemma_extended, lemma_extended_join, lemma_extended_one,
    lemma_greatest_member, lemma_greatest_step, lemma_joined_step, lemma_total_monotone, lemma_total_prefix,
    lemma_total_step, total,
};
use crate::normalize::form::{
    arm_patterns, lemma_part_smaller, pattern_terms, form_terms, Arm, Form, Pattern, PatternKind,
    PatternTerm, Shape, Term, MINIMUM_ANCHORS, MINIMUM_REPORTABLE_SIZE,
};
use crate::text::same_text;
use vstd::prelude::*;

verus! {

/// Whether a pattern introduces a particular binding.
pub open spec fn pattern_binds(pattern: PatternTerm, index: u32) -> bool
    decreases pattern,
{
    pattern.kind == PatternKind::Binding(index) || any_pattern_binds(pattern.parts, index)
}

/// Whether any of several patterns introduces a particular binding.
pub open spec fn any_pattern_binds(patterns: Seq<PatternTerm>, index: u32) -> bool
    decreases patterns,
{
    exists|i: int| 0 <= i < patterns.len() && pattern_binds(#[trigger] patterns[i], index)
}

/// How many patterns a pattern is made of, itself included.
pub open spec fn pattern_size(pattern: PatternTerm) -> nat
    decreases pattern,
{
    1 + total(each_pattern_size(pattern.parts))
}

/// The sizes of several patterns, one by one.
pub open spec fn each_pattern_size(patterns: Seq<PatternTerm>) -> Seq<nat>
    decreases patterns,
{
    Seq::new(
        patterns.len(),
        |i: int|
            if 0 <= i < patterns.len() {
                pattern_size(patterns[i])
            } else {
                0
            },
    )
}

/// How many alternatives a pattern names.
pub open spec fn pattern_anchors(pattern: PatternTerm) -> nat
    decreases pattern,
{
    (if pattern.kind is Variant {
        1nat
    } else {
        0nat
    }) + total(each_pattern_anchors(pattern.parts))
}

/// The anchors of several patterns, one by one.
pub open spec fn each_pattern_anchors(patterns: Seq<PatternTerm>) -> Seq<nat>
    decreases patterns,
{
    Seq::new(
        patterns.len(),
        |i: int|
            if 0 <= i < patterns.len() {
                pattern_anchors(patterns[i])
            } else {
                0
            },
    )
}

/// A pattern names no more than it is made of.
pub proof fn lemma_pattern_anchors_within_size(pattern: PatternTerm)
    ensures
        pattern_anchors(pattern) <= pattern_size(pattern),
        total(each_pattern_anchors(pattern.parts)) <= total(each_pattern_size(pattern.parts)),
    decreases pattern,
{
    assert(decreases_to!(pattern => pattern.parts));
    lemma_pattern_anchor_count_within_sizes(pattern.parts);
}

/// Several patterns name no more than they are made of.
pub proof fn lemma_pattern_anchor_count_within_sizes(patterns: Seq<PatternTerm>)
    ensures
        total(each_pattern_anchors(patterns)) <= total(each_pattern_size(patterns)),
    decreases patterns,
{
    assert forall|i: int| 0 <= i < patterns.len() implies #[trigger] each_pattern_anchors(
        patterns,
    )[i] <= each_pattern_size(patterns)[i] by {
        assert(decreases_to!(patterns => patterns[i]));
        lemma_pattern_anchors_within_size(patterns[i]);
    }
    lemma_total_monotone(each_pattern_anchors(patterns), each_pattern_size(patterns));
}

impl Pattern {
    /// Whether this pattern introduces a particular binding.
    pub fn binds(&self, index: u32) -> (bound: bool)
        ensures
            bound == pattern_binds(self@, index),
        decreases self@,
    {
        proof {
            assert(decreases_to!(self@ => self@.parts));
        }
        match self {
            Pattern::Binding(bound) => *bound == index,
            Pattern::Ignored => false,
            Pattern::Tuple(parts) => Self::any_binds(parts, index),
            Pattern::Variant { parts, .. } => Self::any_binds(parts, index),
        }
    }

    /// Whether any of several patterns introduces a particular binding.
    fn any_binds(parts: &Vec<Pattern>, index: u32) -> (bound: bool)
        ensures
            bound == any_pattern_binds(pattern_terms(parts@), index),
        decreases pattern_terms(parts@),
    {
        for i in 0..parts.len()
            invariant
                forall|j: int|
                    0 <= j < i ==> !pattern_binds(#[trigger] pattern_terms(parts@)[j], index),
        {
            proof {
                assert(decreases_to!(pattern_terms(parts@) => pattern_terms(parts@)[i as int]));
                assert(pattern_terms(parts@)[i as int] == parts@[i as int]@);
            }
            if parts[i].binds(index) {
                return true;
            }
        }
        false
    }

    /// How much of a decision this pattern accounts for.
    pub fn size(&self) -> (size: u32)
        requires
            pattern_size(self@) <= u32::MAX,
        ensures
            size == pattern_size(self@),
        decreases self@,
    {
        proof {
            assert(decreases_to!(self@ => self@.parts));
        }
        match self {
            Pattern::Binding(_) | Pattern::Ignored => {
                assert(total(each_pattern_size(self@.parts)) == 0);
                1
            },
            Pattern::Tuple(parts) => 1 + Self::sizes(parts),
            Pattern::Variant { parts, .. } => 1 + Self::sizes(parts),
        }
    }

    /// How much of a decision several patterns account for.
    fn sizes(parts: &Vec<Pattern>) -> (size: u32)
        requires
            total(each_pattern_size(pattern_terms(parts@))) <= u32::MAX,
        ensures
            size == total(each_pattern_size(pattern_terms(parts@))),
        decreases pattern_terms(parts@),
    {
        let ghost terms = pattern_terms(parts@);
        let ghost each = each_pattern_size(terms);
        let mut size: u32 = 0;
        for i in 0..parts.len()
            invariant
                terms == pattern_terms(parts@),
                each == each_pattern_size(terms),
                each.len() == parts@.len(),
                total(each) <= u32::MAX,
                size == total(each.take(i as int)),
        {
            proof {
                assert(decreases_to!(terms => terms[i as int]));
                assert(terms[i as int] == parts@[i as int]@);
                lemma_total_step(each, i as int);
            }
            size = size + parts[i].size();
        }
        assert(each.take(parts@.len() as int) =~= each);
        size
    }

    /// How much concrete named content this pattern carries.
    pub fn anchors(&self) -> (anchors: u32)
        requires
            pattern_anchors(self@) <= u32::MAX,
        ensures
            anchors == pattern_anchors(self@),
        decreases self@,
    {
        proof {
            assert(decreases_to!(self@ => self@.parts));
        }
        match self {
            Pattern::Binding(_) | Pattern::Ignored => {
                assert(total(each_pattern_anchors(self@.parts)) == 0);
                0
            },
            Pattern::Tuple(parts) => Self::anchor_count(parts),
            Pattern::Variant { parts, .. } => 1 + Self::anchor_count(parts),
        }
    }

    /// How much concrete named content several patterns carry.
    fn anchor_count(parts: &Vec<Pattern>) -> (anchors: u32)
        requires
            total(each_pattern_anchors(pattern_terms(parts@))) <= u32::MAX,
        ensures
            anchors == total(each_pattern_anchors(pattern_terms(parts@))),
        decreases pattern_terms(parts@),
    {
        let ghost terms = pattern_terms(parts@);
        let ghost each = each_pattern_anchors(terms);
        let mut anchors: u32 = 0;
        for i in 0..parts.len()
            invariant
                terms == pattern_terms(parts@),
                each == each_pattern_anchors(terms),
                each.len() == parts@.len(),
                total(each) <= u32::MAX,
                anchors == total(each.take(i as int)),
        {
            proof {
                assert(decreases_to!(terms => terms[i as int]));
                assert(terms[i as int] == parts@[i as int]@);
                lemma_total_step(each, i as int);
            }
            anchors = anchors + parts[i].anchors();
        }
        assert(each.take(parts@.len() as int) =~= each);
        anchors
    }
}

/// How many patterns a shape's alternatives are made of.
pub open spec fn named_size(shape: Shape) -> nat {
    match shape {
        Shape::Select(patterns) => total(each_pattern_size(patterns)),
        _ => 0,
    }
}

/// How much behavior a term describes: its nodes, and the patterns its
/// decisions name.
pub open spec fn term_size(term: Term) -> nat
    decreases term,
{
    1 + named_size(term.shape) + total(each_size(term.parts))
}

/// The sizes of several terms, one by one.
pub open spec fn each_size(terms: Seq<Term>) -> Seq<nat>
    decreases terms,
{
    Seq::new(
        terms.len(),
        |i: int|
            if 0 <= i < terms.len() {
                term_size(terms[i])
            } else {
                0
            },
    )
}

/// How much a shape names of itself.
pub open spec fn shape_anchors(shape: Shape) -> nat {
    match shape {
        Shape::Construct(_)
        | Shape::Path(_)
        | Shape::Number(_)
        | Shape::Constant(_)
        | Shape::Variant(_)
        | Shape::Method(_)
        | Shape::Field(_)
        | Shape::Index
        | Shape::Swap => 1,
        Shape::Assign(operator) | Shape::Binary(operator) | Shape::Unary(operator) => if operator.len()
            > 0 {
            1
        } else {
            0
        },
        Shape::Collect(container) => if container is Some {
            1
        } else {
            0
        },
        Shape::Select(patterns) => total(each_pattern_anchors(patterns)),
        _ => 0,
    }
}

/// How much of a term is specific rather than structural.
pub open spec fn term_anchors(term: Term) -> nat
    decreases term,
{
    shape_anchors(term.shape) + total(each_anchors(term.parts))
}

/// The anchors of several terms, one by one.
pub open spec fn each_anchors(terms: Seq<Term>) -> Seq<nat>
    decreases terms,
{
    Seq::new(
        terms.len(),
        |i: int|
            if 0 <= i < terms.len() {
                term_anchors(terms[i])
            } else {
                0
            },
    )
}

/// How deeply a term nests.
pub open spec fn term_depth(term: Term) -> nat
    decreases term,
{
    1 + greatest(each_depth(term.parts))
}

/// The depths of several terms, one by one.
pub open spec fn each_depth(terms: Seq<Term>) -> Seq<nat>
    decreases terms,
{
    Seq::new(
        terms.len(),
        |i: int|
            if 0 <= i < terms.len() {
                term_depth(terms[i])
            } else {
                0
            },
    )
}

/// The holes a term mentions, in order of appearance and as often as they
/// appear.
pub open spec fn free_names(term: Term) -> Seq<u32>
    decreases term,
{
    (match term.shape {
        Shape::Free(index) => seq![index],
        _ => Seq::empty(),
    }) + joined(each_free_names(term.parts))
}

/// The holes several terms mention, term by term.
pub open spec fn each_free_names(terms: Seq<Term>) -> Seq<Seq<u32>>
    decreases terms,
{
    Seq::new(
        terms.len(),
        |i: int|
            if 0 <= i < terms.len() {
                free_names(terms[i])
            } else {
                Seq::empty()
            },
    )
}

/// How many distinct things a term leaves open.
pub open spec fn term_holes(term: Term) -> nat {
    extended(Seq::empty(), free_names(term)).len()
}

/// Whether a shape is a name, or introduces it.
pub open spec fn shape_mentions(shape: Shape, index: u32) -> bool {
    match shape {
        Shape::Local(bound) => bound == index,
        Shape::Let(pattern)
        | Shape::Traverse(pattern, _)
        | Shape::Sift(pattern)
        | Shape::Transform(pattern)
        | Shape::Retain(pattern) => pattern_binds(pattern, index),
        Shape::Pairwise(left, right, _) => pattern_binds(left, index) || pattern_binds(
            right,
            index,
        ),
        _ => false,
    }
}

/// Whether a term mentions a particular local.
pub open spec fn mentions_local(term: Term, index: u32) -> bool
    decreases term,
{
    shape_mentions(term.shape, index) || any_mentions_local(term.parts, index)
}

/// Whether any of several terms mentions a particular local.
pub open spec fn any_mentions_local(terms: Seq<Term>, index: u32) -> bool
    decreases terms,
{
    exists|i: int| 0 <= i < terms.len() && mentions_local(#[trigger] terms[i], index)
}

/// Whether a shape is one of the operations over a sequence.
pub open spec fn is_work(shape: Shape) -> bool {
    match shape {
        Shape::Traverse(_, _)
        | Shape::Sift(_)
        | Shape::Transform(_)
        | Shape::Retain(_)
        | Shape::Accumulate(_, _)
        | Shape::Pairwise(_, _, _)
        | Shape::Repeat
        | Shape::Swap
        | Shape::Collect(_) => true,
        _ => false,
    }
}

/// Whether a term describes work rather than plumbing.
pub open spec fn term_works(term: Term) -> bool
    decreases term,
{
    is_work(term.shape) || any_works(term.parts)
}

/// Whether any of several terms describes work.
pub open spec fn any_works(terms: Seq<Term>) -> bool
    decreases terms,
{
    exists|i: int| 0 <= i < terms.len() && term_works(#[trigger] terms[i])
}

/// Whether two of a decision's arms name different alternatives.
pub open spec fn names_two(patterns: Seq<PatternTerm>) -> bool {
    exists|i: int, j: int|
        0 <= i < patterns.len() && 0 <= j < patterns.len() && (#[trigger] patterns[i]).kind is Variant
            && (#[trigger] patterns[j]).kind is Variant && patterns[i].kind != patterns[j].kind
}

/// Whether a term chooses among alternatives it names.
pub open spec fn term_decides(term: Term) -> bool
    decreases term,
{
    (term.shape matches Shape::Select(patterns) && names_two(patterns)) || any_decides(term.parts)
}

/// Whether any of several terms chooses among alternatives it names.
pub open spec fn any_decides(terms: Seq<Term>) -> bool
    decreases terms,
{
    exists|i: int| 0 <= i < terms.len() && term_decides(#[trigger] terms[i])
}

/// Whether a term describes something that can be compared across libraries.
pub open spec fn term_comparable(term: Term) -> bool {
    term_works(term) || term_decides(term)
}

/// Whether a term is specific enough to report when matched.
pub open spec fn term_reportable(term: Term) -> bool {
    &&& term_size(term) >= MINIMUM_REPORTABLE_SIZE
    &&& term_anchors(term) >= MINIMUM_ANCHORS
    &&& term_anchors(term) >= term_holes(term)
    &&& term_comparable(term)
}

/// Whether a shape describes no behavior worth comparing.
pub open spec fn is_plain(shape: Shape) -> bool {
    match shape {
        Shape::Local(_) | Shape::Free(_) | Shape::Literal | Shape::Number(_) | Shape::Path(_) => true,
        _ => false,
    }
}

/// A term names no more than it is made of, and nests no deeper.
pub proof fn lemma_within_size(term: Term)
    ensures
        term_anchors(term) <= term_size(term),
        term_depth(term) <= term_size(term),
    decreases term,
{
    if let Shape::Select(patterns) = term.shape {
        lemma_pattern_anchor_count_within_sizes(patterns);
    }
    assert forall|i: int| 0 <= i < term.parts.len() implies #[trigger] each_anchors(term.parts)[i]
        <= each_size(term.parts)[i] by {
        lemma_part_smaller(term, i);
        lemma_within_size(term.parts[i]);
    }
    assert forall|i: int| 0 <= i < term.parts.len() implies #[trigger] each_depth(term.parts)[i]
        <= each_size(term.parts)[i] by {
        lemma_part_smaller(term, i);
        lemma_within_size(term.parts[i]);
    }
    lemma_total_monotone(each_anchors(term.parts), each_size(term.parts));
    lemma_greatest_within_total(each_depth(term.parts), each_size(term.parts));
}

proof fn lemma_greatest_within_total(small: Seq<nat>, large: Seq<nat>)
    requires
        small.len() == large.len(),
        forall|i: int| 0 <= i < small.len() ==> #[trigger] small[i] <= large[i],
    ensures
        greatest(small) <= total(large),
    decreases small.len(),
{
    if small.len() > 0 {
        lemma_greatest_within_total(small.drop_last(), large.drop_last());
        assert(small.last() == small[small.len() - 1]);
    }
}

/// Whether a transformation can turn a form of one term into a form of another.
pub open spec fn made_by<F: Fn(&Form) -> Form>(transform: F, part: Term, made: Term) -> bool {
    exists|child: &Form, form: Form|
        child@ == part && form@ == made && #[trigger] transform.ensures((child,), form)
}

/// A term mentions no more holes than it has nodes.
pub proof fn lemma_holes_within_size(term: Term)
    ensures
        free_names(term).len() <= term_size(term),
        term_holes(term) <= term_size(term),
    decreases term,
{
    assert forall|i: int| 0 <= i < term.parts.len() implies (#[trigger] each_free_names(
        term.parts,
    )[i]).len() <= each_size(term.parts)[i] by {
        lemma_part_smaller(term, i);
        lemma_holes_within_size(term.parts[i]);
    }
    lemma_joined_within_total(each_free_names(term.parts), each_size(term.parts));
    lemma_extended(Seq::<u32>::empty(), free_names(term));
}

proof fn lemma_joined_within_total(lists: Seq<Seq<u32>>, numbers: Seq<nat>)
    requires
        lists.len() == numbers.len(),
        forall|i: int| 0 <= i < lists.len() ==> (#[trigger] lists[i]).len() <= numbers[i],
    ensures
        joined(lists).len() <= total(numbers),
    decreases lists.len(),
{
    if lists.len() > 0 {
        assert forall|i: int| 0 <= i < lists.len() - 1 implies (#[trigger] lists.drop_last()[i]).len()
            <= numbers.drop_last()[i] by {
            assert(lists[i].len() <= numbers[i]);
        }
        lemma_joined_within_total(lists.drop_last(), numbers.drop_last());
        assert(lists[lists.len() - 1].len() <= numbers[lists.len() - 1]);
    }
}

/// How much of a decision the arms name.
fn arm_sizes(arms: &Vec<Arm>) -> (size: u32)
    requires
        total(each_pattern_size(arm_patterns(arms@))) <= u32::MAX,
    ensures
        size == total(each_pattern_size(arm_patterns(arms@))),
{
    let ghost each = each_pattern_size(arm_patterns(arms@));
    let mut size: u32 = 0;
    for i in 0..arms.len()
        invariant
            each == each_pattern_size(arm_patterns(arms@)),
            each.len() == arms@.len(),
            total(each) <= u32::MAX,
            size == total(each.take(i as int)),
    {
        proof {
            assert(arm_patterns(arms@)[i as int] == arms@[i as int].pattern@);
            lemma_total_step(each, i as int);
        }
        size = size + arms[i].pattern.size();
    }
    assert(each.take(arms@.len() as int) =~= each);
    size
}

/// How much concrete named content the arms carry.
fn arm_anchors(arms: &Vec<Arm>) -> (anchors: u32)
    requires
        total(each_pattern_anchors(arm_patterns(arms@))) <= u32::MAX,
    ensures
        anchors == total(each_pattern_anchors(arm_patterns(arms@))),
{
    let ghost each = each_pattern_anchors(arm_patterns(arms@));
    let mut anchors: u32 = 0;
    for i in 0..arms.len()
        invariant
            each == each_pattern_anchors(arm_patterns(arms@)),
            each.len() == arms@.len(),
            total(each) <= u32::MAX,
            anchors == total(each.take(i as int)),
    {
        proof {
            assert(arm_patterns(arms@)[i as int] == arms@[i as int].pattern@);
            lemma_total_step(each, i as int);
        }
        anchors = anchors + arms[i].pattern.anchors();
    }
    assert(each.take(arms@.len() as int) =~= each);
    anchors
}

/// Whether two arms name different alternatives.
fn arms_name_two(arms: &Vec<Arm>) -> (two: bool)
    ensures
        two == names_two(arm_patterns(arms@)),
{
    let ghost patterns = arm_patterns(arms@);
    for i in 0..arms.len()
        invariant
            patterns == arm_patterns(arms@),
            patterns.len() == arms@.len(),
            forall|k: int, j: int|
                0 <= k < i && 0 <= j < patterns.len() && (#[trigger] patterns[k]).kind is Variant && (
                #[trigger] patterns[j]).kind is Variant ==> patterns[k].kind == patterns[j].kind,
    {
        assert(patterns[i as int] == arms@[i as int].pattern@);
        if let Pattern::Variant { name: first, .. } = &arms[i].pattern {
            for j in 0..arms.len()
                invariant
                    patterns == arm_patterns(arms@),
                    patterns.len() == arms@.len(),
                    0 <= i < patterns.len(),
                    patterns[i as int].kind == PatternKind::Variant(first@),
                    forall|k: int|
                        0 <= k < j && (#[trigger] patterns[k]).kind is Variant ==> patterns[k].kind
                            == patterns[i as int].kind,
            {
                assert(patterns[j as int] == arms@[j as int].pattern@);
                if let Pattern::Variant { name: second, .. } = &arms[j].pattern {
                    if !same_text(first.as_str(), second.as_str()) {
                        assert(patterns[i as int].kind != patterns[j as int].kind);
                        return true;
                    }
                }
            }
        }
    }
    false
}

impl Form {
    /// How much behavior this form describes.
    pub fn size(&self) -> (size: u32)
        requires
            term_size(self@) <= u32::MAX,
        ensures
            size == term_size(self@),
        decreases self@,
    {
        let ghost each = each_size(self@.parts);
        let ghost own = (term_size(self@) - total(each)) as nat;
        let mut size: u32 = 1;
        if let Form::Select { arms, .. } = self {
            size = 1 + arm_sizes(arms);
        }
        let children = self.children();
        for i in 0..children.len()
            invariant
                each == each_size(self@.parts),
                children@.len() == self@.parts.len(),
                forall|i: int|
                    0 <= i < children@.len() ==> (#[trigger] children@[i])@ == self@.parts[i],
                own + total(each) <= u32::MAX,
                size == own + total(each.take(i as int)),
        {
            proof {
                lemma_part_smaller(self@, i as int);
                lemma_total_step(each, i as int);
                assert(each[i as int] == term_size(children@[i as int]@));
                lemma_total_prefix(each, i as int);
            }
            size = size + children[i].size();
        }
        assert(each.take(children@.len() as int) =~= each);
        size
    }

    /// How much of this form is specific rather than structural.
    pub fn anchors(&self) -> (anchors: u32)
        requires
            term_anchors(self@) <= u32::MAX,
        ensures
            anchors == term_anchors(self@),
        decreases self@,
    {
        let ghost each = each_anchors(self@.parts);
        let ghost own = (term_anchors(self@) - total(each)) as nat;
        let mut anchors: u32 = match self {
            Form::Construct(_)
            | Form::Path(_)
            | Form::Number(_)
            | Form::Constant(_)
            | Form::Variant { .. }
            | Form::Method { .. }
            | Form::Field { .. }
            | Form::Index { .. }
            | Form::Swap { .. } => 1,
            Form::Assign { operator, .. }
            | Form::Binary { operator, .. }
            | Form::Unary { operator, .. } => if operator.as_str().is_empty() {
                0
            } else {
                1
            },
            Form::Collect { container, .. } => if container.is_some() {
                1
            } else {
                0
            },
            Form::Select { arms, .. } => arm_anchors(arms),
            _ => 0,
        };
        let children = self.children();
        for i in 0..children.len()
            invariant
                each == each_anchors(self@.parts),
                children@.len() == self@.parts.len(),
                forall|i: int|
                    0 <= i < children@.len() ==> (#[trigger] children@[i])@ == self@.parts[i],
                own + total(each) <= u32::MAX,
                anchors == own + total(each.take(i as int)),
        {
            proof {
                lemma_part_smaller(self@, i as int);
                lemma_total_step(each, i as int);
                assert(each[i as int] == term_anchors(children@[i as int]@));
                lemma_total_prefix(each, i as int);
            }
            anchors = anchors + children[i].anchors();
        }
        assert(each.take(children@.len() as int) =~= each);
        anchors
    }

    /// How deeply this form nests.
    pub fn depth(&self) -> (depth: u32)
        requires
            term_depth(self@) <= u32::MAX,
        ensures
            depth == term_depth(self@),
        decreases self@,
    {
        let ghost each = each_depth(self@.parts);
        let mut deepest: u32 = 0;
        let children = self.children();
        for i in 0..children.len()
            invariant
                each == each_depth(self@.parts),
                children@.len() == self@.parts.len(),
                forall|i: int|
                    0 <= i < children@.len() ==> (#[trigger] children@[i])@ == self@.parts[i],
                1 + greatest(each) <= u32::MAX,
                deepest == greatest(each.take(i as int)),
        {
            proof {
                lemma_part_smaller(self@, i as int);
                lemma_greatest_step(each, i as int);
                lemma_greatest_member(each, i as int);
                assert(each[i as int] == term_depth(children@[i as int]@));
            }
            let depth: u32 = children[i].depth();
            if deepest < depth {
                deepest = depth;
            }
        }
        assert(each.take(children@.len() as int) =~= each);
        1 + deepest
    }

    /// How many distinct things this form leaves open.
    pub fn holes(&self) -> (holes: u32)
        ensures
            holes == if term_holes(self@) <= u32::MAX {
                term_holes(self@)
            } else {
                u32::MAX as nat
            },
    {
        let mut found: Vec<u32> = Vec::new();
        self.collect_holes(&mut found);
        if found.len() <= u32::MAX as usize {
            found.len() as u32
        } else {
            u32::MAX
        }
    }

    /// Adds the holes this form mentions to those already found.
    fn collect_holes(&self, found: &mut Vec<u32>)
        ensures
            final(found)@ == extended(old(found)@, free_names(self@)),
        decreases self@,
    {
        let ghost before = found@;
        let ghost own = match self@.shape {
            Shape::Free(index) => seq![index],
            _ => Seq::empty(),
        };
        let ghost each = each_free_names(self@.parts);
        if let Form::Free(index) = self {
            proof {
                lemma_extended_one(before, *index);
            }
            if !holds(found, *index) {
                found.push(*index);
            }
        }
        proof {
            assert(joined(each.take(0)) =~= Seq::empty());
            assert(own + joined(each.take(0)) =~= own);
        }
        let children = self.children();
        for i in 0..children.len()
            invariant
                each == each_free_names(self@.parts),
                children@.len() == self@.parts.len(),
                forall|i: int|
                    0 <= i < children@.len() ==> (#[trigger] children@[i])@ == self@.parts[i],
                found@ == extended(before, own + joined(each.take(i as int))),
        {
            proof {
                lemma_part_smaller(self@, i as int);
                lemma_joined_step(each, i as int);
                assert(each[i as int] == free_names(children@[i as int]@));
                lemma_extended_join(before, own + joined(each.take(i as int)), each[i as int]);
                assert(own + joined(each.take(i as int)) + each[i as int] =~= own + joined(
                    each.take(i + 1),
                ));
            }
            children[i].collect_holes(found);
        }
        assert(each.take(children@.len() as int) =~= each);
    }

    /// Whether this form mentions a particular local.
    pub fn references_local(&self, index: u32) -> (mentioned: bool)
        ensures
            mentioned == mentions_local(self@, index),
        decreases self@,
    {
        match self {
            Form::Local(bound) => {
                if *bound == index {
                    return true;
                }
            },
            Form::Let { pattern: item, .. }
            | Form::Traverse { item, .. }
            | Form::Sift { item, .. }
            | Form::Transform { item, .. }
            | Form::Retain { item, .. } => {
                if item.binds(index) {
                    return true;
                }
            },
            Form::Pairwise { left, right, .. } => {
                if left.binds(index) || right.binds(index) {
                    return true;
                }
            },
            _ => {},
        }
        let children = self.children();
        for i in 0..children.len()
            invariant
                children@.len() == self@.parts.len(),
                forall|i: int|
                    0 <= i < children@.len() ==> (#[trigger] children@[i])@ == self@.parts[i],
                forall|j: int| 0 <= j < i ==> !mentions_local(#[trigger] self@.parts[j], index),
        {
            proof {
                lemma_part_smaller(self@, i as int);
            }
            if children[i].references_local(index) {
                assert(mentions_local(self@.parts[i as int], index));
                return true;
            }
        }
        false
    }

    /// Whether a form describes work rather than plumbing.
    pub fn describes_work(&self) -> (works: bool)
        ensures
            works == term_works(self@),
        decreases self@,
    {
        match self {
            Form::Traverse { .. }
            | Form::Sift { .. }
            | Form::Transform { .. }
            | Form::Retain { .. }
            | Form::Accumulate { .. }
            | Form::Pairwise { .. }
            | Form::Repeat { .. }
            | Form::Swap { .. }
            | Form::Collect { .. } => {
                return true;
            },
            _ => {},
        }
        let children = self.children();
        for i in 0..children.len()
            invariant
                children@.len() == self@.parts.len(),
                forall|i: int|
                    0 <= i < children@.len() ==> (#[trigger] children@[i])@ == self@.parts[i],
                forall|j: int| 0 <= j < i ==> !term_works(#[trigger] self@.parts[j]),
        {
            proof {
                lemma_part_smaller(self@, i as int);
            }
            if children[i].describes_work() {
                assert(term_works(self@.parts[i as int]));
                return true;
            }
        }
        false
    }

    /// Whether a form chooses among alternatives it names.
    pub fn describes_decision(&self) -> (decides: bool)
        ensures
            decides == term_decides(self@),
        decreases self@,
    {
        if let Form::Select { arms, .. } = self {
            if arms_name_two(arms) {
                return true;
            }
        }
        let children = self.children();
        for i in 0..children.len()
            invariant
                children@.len() == self@.parts.len(),
                forall|i: int|
                    0 <= i < children@.len() ==> (#[trigger] children@[i])@ == self@.parts[i],
                forall|j: int| 0 <= j < i ==> !term_decides(#[trigger] self@.parts[j]),
        {
            proof {
                lemma_part_smaller(self@, i as int);
            }
            if children[i].describes_decision() {
                assert(term_decides(self@.parts[i as int]));
                return true;
            }
        }
        false
    }

    /// Whether a form describes something that can be compared across
    /// libraries.
    pub fn is_comparable(&self) -> (comparable: bool)
        ensures
            comparable == term_comparable(self@),
    {
        self.describes_work() || self.describes_decision()
    }

    /// Whether a derived behavior is specific enough to report when matched.
    ///
    /// A behavior must name at least as much as it leaves open: a form with
    /// more holes than anchors matches more situations than it distinguishes.
    pub fn is_reportable(&self) -> (reportable: bool)
        requires
            term_size(self@) <= u32::MAX,
        ensures
            reportable == term_reportable(self@),
    {
        proof {
            lemma_within_size(self@);
            lemma_holes_within_size(self@);
        }
        let anchors: u32 = self.anchors();
        self.size() >= MINIMUM_REPORTABLE_SIZE && anchors >= MINIMUM_ANCHORS && anchors
            >= self.holes() && self.is_comparable()
    }

    /// Whether this form describes no behavior worth comparing.
    pub fn is_trivial(&self) -> (trivial: bool)
        ensures
            trivial == is_plain(self@.shape),
    {
        match self {
            Form::Local(_)
            | Form::Free(_)
            | Form::Literal
            | Form::Number(_)
            | Form::Path(_) => true,
            _ => false,
        }
    }

    /// Rebuild this form with every child passed through `transform`.
    pub fn map_children<F: Fn(&Form) -> Form>(&self, transform: F) -> (rebuilt: Form)
        requires
            forall|child: &Form|
                self@.parts.contains(child@) ==> #[trigger] transform.requires((child,)),
        ensures
            rebuilt@.shape == self@.shape,
            rebuilt@.parts.len() == self@.parts.len(),
            forall|i: int|
                0 <= i < self@.parts.len() ==> made_by(
                    transform,
                    self@.parts[i],
                    #[trigger] rebuilt@.parts[i],
                ),
    {
        let children = self.children();
        let mut made: Vec<Form> = Vec::new();
        for i in 0..children.len()
            invariant
                children@.len() == self@.parts.len(),
                forall|i: int|
                    0 <= i < children@.len() ==> (#[trigger] children@[i])@ == self@.parts[i],
                forall|child: &Form|
                    self@.parts.contains(child@) ==> #[trigger] transform.requires((child,)),
                made@.len() == i,
                forall|j: int|
                    0 <= j < i ==> transform.ensures((children@[j],), #[trigger] made@[j]),
        {
            assert(self@.parts[i as int] == children@[i as int]@);
            made.push(transform(children[i]));
        }
        let rebuilt = self.with_children(made);
        assert forall|i: int| 0 <= i < self@.parts.len() implies made_by(
            transform,
            self@.parts[i],
            #[trigger] rebuilt@.parts[i],
        ) by {
            assert(form_terms(made@)[i] == made@[i]@);
            assert(transform.ensures((children@[i],), made@[i]));
        }
        rebuilt
    }
}

} // verus!
