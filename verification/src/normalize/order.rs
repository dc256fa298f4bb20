//! A total order on forms.
//!
//! Operands of a commutative operator have no order of their own, so they are
//! put in this one. It is arbitrary but total: forms compare by which kind they
//! are, and then by what they hold, in the order it is written.

use crate::normalize::form::{
    arm_bodies, arm_patterns, borrowed_terms, lemma_part_smaller, optional_text, pattern_terms, Arm, Coverage,
    Direction, Form, Pattern, PatternKind, PatternTerm, Shape, Term,
};
use crate::text::{
    compared, number_order, settled_by, text_compared, text_order, Comparison,
};
use vstd::prelude::*;

verus! {

/// Where a kind of pattern stands among the others.
pub open spec fn pattern_rank(kind: PatternKind) -> int {
    match kind {
        PatternKind::Binding(_) => 0,
        PatternKind::Tuple => 1,
        PatternKind::Variant(_) => 2,
        PatternKind::Ignored => 3,
    }
}

/// How two kinds of pattern compare.
pub open spec fn pattern_kind_order(left: PatternKind, right: PatternKind) -> Comparison {
    settled_by(
        number_order(pattern_rank(left), pattern_rank(right)),
        match (left, right) {
            (PatternKind::Binding(left), PatternKind::Binding(right)) => number_order(
                left as int,
                right as int,
            ),
            (PatternKind::Variant(left), PatternKind::Variant(right)) => text_order(left, right),
            _ => Comparison::Equal,
        },
    )
}

/// How two patterns compare.
pub open spec fn pattern_order(left: PatternTerm, right: PatternTerm) -> Comparison
    decreases left,
{
    settled_by(
        pattern_kind_order(left.kind, right.kind),
        patterns_order(left.parts, right.parts),
    )
}

/// How two lists of patterns compare, pattern by pattern.
pub open spec fn patterns_order(left: Seq<PatternTerm>, right: Seq<PatternTerm>) -> Comparison
    decreases left,
{
    if left.len() == 0 || right.len() == 0 {
        number_order(left.len() as int, right.len() as int)
    } else {
        settled_by(
            pattern_order(left[0], right[0]),
            patterns_order(left.drop_first(), right.drop_first()),
        )
    }
}

/// Where a kind of form stands among the others.
pub open spec fn shape_rank(shape: Shape) -> int {
    match shape {
        Shape::Local(..) => 0,
        Shape::Free(..) => 1,
        Shape::Literal => 2,
        Shape::Constant(..) => 3,
        Shape::Number(..) => 4,
        Shape::Construct(..) => 5,
        Shape::Variant(..) => 6,
        Shape::Path(..) => 7,
        Shape::Field(..) => 8,
        Shape::Method(..) => 9,
        Shape::Call => 10,
        Shape::Traverse(..) => 11,
        Shape::Pairwise(..) => 12,
        Shape::Repeat => 13,
        Shape::Swap => 14,
        Shape::Transform(..) => 15,
        Shape::Sift(..) => 16,
        Shape::Retain(..) => 17,
        Shape::Accumulate(..) => 18,
        Shape::Collect(..) => 19,
        Shape::Assign(..) => 20,
        Shape::Binary(..) => 21,
        Shape::Unary(..) => 22,
        Shape::Index => 23,
        Shape::Span(..) => 24,
        Shape::Lambda(..) => 25,
        Shape::Let(..) => 26,
        Shape::Branch => 27,
        Shape::Select(..) => 28,
        Shape::Return => 29,
        Shape::Sequence => 30,
        Shape::Opaque(..) => 31,
    }
}

/// How two optional texts compare: nothing comes first.
pub open spec fn optional_text_order(
    left: Option<Seq<char>>,
    right: Option<Seq<char>>,
) -> Comparison {
    match (left, right) {
        (None, None) => Comparison::Equal,
        (None, Some(_)) => Comparison::Less,
        (Some(_), None) => Comparison::Greater,
        (Some(left), Some(right)) => text_order(left, right),
    }
}

/// Where a direction stands among the others.
pub open spec fn direction_rank(direction: Direction) -> int {
    match direction {
        Direction::Forward => 0,
        Direction::Backward => 1,
    }
}

/// Where a coverage stands among the others.
pub open spec fn coverage_rank(coverage: Coverage) -> int {
    match coverage {
        Coverage::Once => 0,
        Coverage::BothWays => 1,
        Coverage::Adjacent => 2,
    }
}

/// How the texts, numbers and patterns of two shapes of one kind compare, where
/// they are written before the child forms.
pub open spec fn leading_order(left: Shape, right: Shape) -> Comparison {
    match (left, right) {
        (Shape::Local(left), Shape::Local(right)) | (Shape::Free(left), Shape::Free(right)) =>
            number_order(left as int, right as int),
        (Shape::Constant(left), Shape::Constant(right))
        | (Shape::Number(left), Shape::Number(right))
        | (Shape::Construct(left), Shape::Construct(right))
        | (Shape::Variant(left), Shape::Variant(right))
        | (Shape::Path(left), Shape::Path(right))
        | (Shape::Method(left), Shape::Method(right))
        | (Shape::Assign(left), Shape::Assign(right))
        | (Shape::Binary(left), Shape::Binary(right))
        | (Shape::Unary(left), Shape::Unary(right))
        | (Shape::Opaque(left), Shape::Opaque(right)) => text_order(left, right),
        (Shape::Lambda(left), Shape::Lambda(right)) => patterns_order(left, right),
        (Shape::Let(left), Shape::Let(right)) => pattern_order(left, right),
        _ => Comparison::Equal,
    }
}

/// How the patterns of two walks of one kind compare.
pub open spec fn walk_order(left: Shape, right: Shape) -> Comparison {
    match (left, right) {
        (Shape::Traverse(left, _), Shape::Traverse(right, _))
        | (Shape::Transform(left), Shape::Transform(right))
        | (Shape::Sift(left), Shape::Sift(right))
        | (Shape::Retain(left), Shape::Retain(right)) => pattern_order(left, right),
        (Shape::Pairwise(left, left_second, _), Shape::Pairwise(right, right_second, _))
        | (Shape::Accumulate(left, left_second), Shape::Accumulate(right, right_second)) =>
            settled_by(pattern_order(left, right), pattern_order(left_second, right_second)),
        _ => Comparison::Equal,
    }
}

/// How what two shapes of one kind hold after their child forms compares.
pub open spec fn trailing_order(left: Shape, right: Shape) -> Comparison {
    match (left, right) {
        (Shape::Field(left), Shape::Field(right)) => text_order(left, right),
        (Shape::Collect(left), Shape::Collect(right)) => optional_text_order(left, right),
        (Shape::Span(left), Shape::Span(right)) => number_order(
            if left { 1 } else { 0 },
            if right { 1 } else { 0 },
        ),
        (Shape::Traverse(_, left), Shape::Traverse(_, right)) => number_order(
            direction_rank(left),
            direction_rank(right),
        ),
        (Shape::Pairwise(_, _, left), Shape::Pairwise(_, _, right)) => number_order(
            coverage_rank(left),
            coverage_rank(right),
        ),
        _ => Comparison::Equal,
    }
}

/// How many child forms of a walk are written before its patterns.
pub open spec fn before_patterns(shape: Shape) -> nat {
    match shape {
        Shape::Traverse(_, _)
        | Shape::Transform(_)
        | Shape::Sift(_)
        | Shape::Retain(_)
        | Shape::Pairwise(_, _, _) => 1,
        Shape::Accumulate(_, _) => 2,
        _ => 0,
    }
}

/// How two terms compare.
pub open spec fn term_order(left: Term, right: Term) -> Comparison
    decreases left,
{
    let cut = before_patterns(left.shape) as int;
    if shape_rank(left.shape) != shape_rank(right.shape) {
        number_order(shape_rank(left.shape), shape_rank(right.shape))
    } else if let (Shape::Select(left_patterns), Shape::Select(right_patterns)) = (
        left.shape,
        right.shape,
    ) {
        if left.parts.len() == 0 || right.parts.len() == 0 {
            number_order(left.parts.len() as int, right.parts.len() as int)
        } else {
            settled_by(
                term_order(left.parts[0], right.parts[0]),
                arms_order(
                    left_patterns,
                    left.parts.drop_first(),
                    right_patterns,
                    right.parts.drop_first(),
                ),
            )
        }
    } else if 0 < cut < left.parts.len() && cut < right.parts.len() {
        settled_by(
            terms_order(left.parts.subrange(0, cut), right.parts.subrange(0, cut)),
            settled_by(
                walk_order(left.shape, right.shape),
                settled_by(
                    terms_order(left.parts.skip(cut), right.parts.skip(cut)),
                    trailing_order(left.shape, right.shape),
                ),
            ),
        )
    } else {
        settled_by(
            leading_order(left.shape, right.shape),
            settled_by(
                terms_order(left.parts, right.parts),
                trailing_order(left.shape, right.shape),
            ),
        )
    }
}

/// How two lists of terms compare, term by term.
pub open spec fn terms_order(left: Seq<Term>, right: Seq<Term>) -> Comparison
    decreases left,
{
    if left.len() == 0 || right.len() == 0 {
        number_order(left.len() as int, right.len() as int)
    } else {
        settled_by(
            term_order(left[0], right[0]),
            terms_order(left.drop_first(), right.drop_first()),
        )
    }
}

/// How the arms of two decisions compare, arm by arm.
pub open spec fn arms_order(
    left_patterns: Seq<PatternTerm>,
    left: Seq<Term>,
    right_patterns: Seq<PatternTerm>,
    right: Seq<Term>,
) -> Comparison
    decreases left,
{
    if left.len() == 0 || right.len() == 0 {
        number_order(left.len() as int, right.len() as int)
    } else {
        settled_by(
            pattern_order(left_patterns[0], right_patterns[0]),
            settled_by(
                term_order(left[0], right[0]),
                arms_order(
                    left_patterns.drop_first(),
                    left.drop_first(),
                    right_patterns.drop_first(),
                    right.drop_first(),
                ),
            ),
        )
    }
}

/// A comparison, settled by a second one where the first finds no difference.
fn settled(first: Comparison, second: Comparison) -> (order: Comparison)
    ensures
        order == settled_by(first, second),
{
    match first {
        Comparison::Equal => second,
        _ => first,
    }
}

impl Pattern {
    /// How two patterns compare.
    fn compared(&self, other: &Pattern) -> (order: Comparison)
        ensures
            order == pattern_order(self@, other@),
        decreases self@,
    {
        proof {
            assert(decreases_to!(self@ => self@.parts));
        }
        match (self, other) {
            (Pattern::Binding(left), Pattern::Binding(right)) => compared(*left, *right),
            (Pattern::Tuple(left), Pattern::Tuple(right)) => Self::all_compared(left, right),
            (
                Pattern::Variant { name: left_name, parts: left },
                Pattern::Variant { name: right_name, parts: right },
            ) => settled(
                text_compared(left_name.as_str(), right_name.as_str()),
                Self::all_compared(left, right),
            ),
            (Pattern::Ignored, Pattern::Ignored) => Comparison::Equal,
            _ => compared(self.rank(), other.rank()),
        }
    }

    /// Where this kind of pattern stands among the others.
    fn rank(&self) -> (rank: u32)
        ensures
            rank == pattern_rank(self@.kind),
    {
        match self {
            Pattern::Binding(_) => 0,
            Pattern::Tuple(_) => 1,
            Pattern::Variant { .. } => 2,
            Pattern::Ignored => 3,
        }
    }

    /// How two lists of patterns compare, pattern by pattern.
    #[verifier::loop_isolation(false)]
    fn all_compared(left: &Vec<Pattern>, right: &Vec<Pattern>) -> (order: Comparison)
        ensures
            order == patterns_order(pattern_terms(left@), pattern_terms(right@)),
        decreases pattern_terms(left@),
    {
        let ghost left_terms = pattern_terms(left@);
        let ghost right_terms = pattern_terms(right@);
        proof {
            assert(left_terms.skip(0) =~= left_terms);
            assert(right_terms.skip(0) =~= right_terms);
        }
        let mut i: usize = 0;
        while i < left.len() && i < right.len()
            invariant
                i <= left@.len(),
                i <= right@.len(),
                patterns_order(left_terms, right_terms) == patterns_order(
                    left_terms.skip(i as int),
                    right_terms.skip(i as int),
                ),
            decreases left@.len() - i,
        {
            proof {
                assert(decreases_to!(left_terms => left_terms[i as int]));
                assert(left_terms[i as int] == left@[i as int]@);
                assert(right_terms[i as int] == right@[i as int]@);
                assert(left_terms.skip(i as int).drop_first() =~= left_terms.skip(i + 1));
                assert(right_terms.skip(i as int).drop_first() =~= right_terms.skip(i + 1));
            }
            let order = left[i].compared(&right[i]);
            if order != Comparison::Equal {
                return order;
            }
            i += 1;
        }
        if i < left.len() {
            Comparison::Greater
        } else if i < right.len() {
            Comparison::Less
        } else {
            Comparison::Equal
        }
    }
}

/// Where a direction stands among the others.
fn direction_place(direction: Direction) -> (rank: u32)
    ensures
        rank == direction_rank(direction),
{
    match direction {
        Direction::Forward => 0,
        Direction::Backward => 1,
    }
}

/// Where a coverage stands among the others.
fn coverage_place(coverage: Coverage) -> (rank: u32)
    ensures
        rank == coverage_rank(coverage),
{
    match coverage {
        Coverage::Once => 0,
        Coverage::BothWays => 1,
        Coverage::Adjacent => 2,
    }
}

/// How two optional texts compare: nothing comes first.
pub(crate) fn optional_text_compared(left: &Option<String>, right: &Option<String>) -> (order: Comparison)
    ensures
        order == optional_text_order(optional_text(*left), optional_text(*right)),
{
    match (left, right) {
        (None, None) => Comparison::Equal,
        (None, Some(_)) => Comparison::Less,
        (Some(_), None) => Comparison::Greater,
        (Some(left), Some(right)) => text_compared(left.as_str(), right.as_str()),
    }
}

impl Form {
    /// Where this kind of form stands among the others.
    fn rank(&self) -> (rank: u32)
        ensures
            rank == shape_rank(self@.shape),
    {
        match self {
            Form::Local(..) => 0,
            Form::Free(..) => 1,
            Form::Literal => 2,
            Form::Constant(..) => 3,
            Form::Number(..) => 4,
            Form::Construct(..) => 5,
            Form::Variant { .. } => 6,
            Form::Path(..) => 7,
            Form::Field { .. } => 8,
            Form::Method { .. } => 9,
            Form::Call { .. } => 10,
            Form::Traverse { .. } => 11,
            Form::Pairwise { .. } => 12,
            Form::Repeat { .. } => 13,
            Form::Swap { .. } => 14,
            Form::Transform { .. } => 15,
            Form::Sift { .. } => 16,
            Form::Retain { .. } => 17,
            Form::Accumulate { .. } => 18,
            Form::Collect { .. } => 19,
            Form::Assign { .. } => 20,
            Form::Binary { .. } => 21,
            Form::Unary { .. } => 22,
            Form::Index { .. } => 23,
            Form::Span { .. } => 24,
            Form::Lambda { .. } => 25,
            Form::Let { .. } => 26,
            Form::Branch { .. } => 27,
            Form::Select { .. } => 28,
            Form::Return(..) => 29,
            Form::Sequence(..) => 30,
            Form::Opaque { .. } => 31,
        }
    }

    /// How the texts, numbers and patterns of two forms of one kind compare,
    /// where they are written before the child forms.
    fn leading_compared(&self, other: &Form) -> (order: Comparison)
        requires
            shape_rank(self@.shape) == shape_rank(other@.shape),
        ensures
            order == leading_order(self@.shape, other@.shape),
    {
        match (self, other) {
            (Form::Local(left), Form::Local(right)) | (Form::Free(left), Form::Free(right)) =>
                compared(*left, *right),
            (Form::Constant(left), Form::Constant(right))
            | (Form::Number(left), Form::Number(right))
            | (Form::Construct(left), Form::Construct(right))
            | (Form::Variant { name: left, .. }, Form::Variant { name: right, .. })
            | (Form::Path(left), Form::Path(right))
            | (Form::Method { name: left, .. }, Form::Method { name: right, .. })
            | (Form::Assign { operator: left, .. }, Form::Assign { operator: right, .. })
            | (Form::Binary { operator: left, .. }, Form::Binary { operator: right, .. })
            | (Form::Unary { operator: left, .. }, Form::Unary { operator: right, .. })
            | (Form::Opaque { kind: left, .. }, Form::Opaque { kind: right, .. }) =>
                text_compared(left.as_str(), right.as_str()),
            (Form::Lambda { parameters: left, .. }, Form::Lambda { parameters: right, .. }) =>
                Pattern::all_compared(left, right),
            (Form::Let { pattern: left, .. }, Form::Let { pattern: right, .. }) => left.compared(
                right,
            ),
            _ => Comparison::Equal,
        }
    }

    /// How the patterns of two walks of one kind compare.
    fn walk_compared(&self, other: &Form) -> (order: Comparison)
        ensures
            order == walk_order(self@.shape, other@.shape),
    {
        match (self, other) {
            (Form::Traverse { item: left, .. }, Form::Traverse { item: right, .. })
            | (Form::Transform { item: left, .. }, Form::Transform { item: right, .. })
            | (Form::Sift { item: left, .. }, Form::Sift { item: right, .. })
            | (Form::Retain { item: left, .. }, Form::Retain { item: right, .. }) => left.compared(
                right,
            ),
            (
                Form::Pairwise { left, right: left_second, .. },
                Form::Pairwise { left: right, right: right_second, .. },
            ) => settled(left.compared(right), left_second.compared(right_second)),
            (
                Form::Accumulate { accumulator: left, item: left_second, .. },
                Form::Accumulate { accumulator: right, item: right_second, .. },
            ) => settled(left.compared(right), left_second.compared(right_second)),
            _ => Comparison::Equal,
        }
    }

    /// How what two forms of one kind hold after their child forms compares.
    fn trailing_compared(&self, other: &Form) -> (order: Comparison)
        ensures
            order == trailing_order(self@.shape, other@.shape),
    {
        match (self, other) {
            (Form::Field { name: left, .. }, Form::Field { name: right, .. }) => text_compared(
                left.as_str(),
                right.as_str(),
            ),
            (Form::Collect { container: left, .. }, Form::Collect { container: right, .. }) =>
                optional_text_compared(left, right),
            (Form::Span { inclusive: left, .. }, Form::Span { inclusive: right, .. }) => compared(
                if *left {
                    1
                } else {
                    0
                },
                if *right {
                    1
                } else {
                    0
                },
            ),
            (Form::Traverse { direction: left, .. }, Form::Traverse { direction: right, .. }) =>
                compared(direction_place(*left), direction_place(*right)),
            (Form::Pairwise { coverage: left, .. }, Form::Pairwise { coverage: right, .. }) =>
                compared(coverage_place(*left), coverage_place(*right)),
            _ => Comparison::Equal,
        }
    }

    /// How many child forms of a walk are written before its patterns.
    fn patterns_after(&self) -> (count: usize)
        ensures
            count == before_patterns(self@.shape),
    {
        match self {
            Form::Traverse { .. }
            | Form::Transform { .. }
            | Form::Sift { .. }
            | Form::Retain { .. }
            | Form::Pairwise { .. } => 1,
            Form::Accumulate { .. } => 2,
            _ => 0,
        }
    }

    /// How two runs of child forms compare, form by form.
    #[verifier::loop_isolation(false)]
    fn runs_compared(
        left: &Vec<&Form>,
        right: &Vec<&Form>,
        start: usize,
        left_end: usize,
        right_end: usize,
        parent: Ghost<Term>,
    ) -> (order: Comparison)
        requires
            borrowed_terms(left@) == parent@.parts,
            start <= left_end <= left@.len(),
            start <= right_end <= right@.len(),
        ensures
            order == terms_order(
                borrowed_terms(left@).subrange(start as int, left_end as int),
                borrowed_terms(right@).subrange(start as int, right_end as int),
            ),
        decreases parent@, 0nat,
    {
        let ghost left_terms = borrowed_terms(left@).subrange(start as int, left_end as int);
        let ghost right_terms = borrowed_terms(right@).subrange(start as int, right_end as int);
        proof {
            assert(left_terms.skip(0) =~= left_terms);
            assert(right_terms.skip(0) =~= right_terms);
        }
        let mut i: usize = start;
        while i < left_end && i < right_end
            invariant
                start <= i <= left_end,
                i <= right_end,
                terms_order(left_terms, right_terms) == terms_order(
                    left_terms.skip(i - start),
                    right_terms.skip(i - start),
                ),
            decreases left_end - i,
        {
            proof {
                lemma_part_smaller(parent@, i as int);
                assert(parent@.parts[i as int] == left@[i as int]@);
                assert(left_terms.skip(i - start)[0] == left@[i as int]@);
                assert(right_terms.skip(i - start)[0] == right@[i as int]@);
                assert(left_terms.skip(i - start).drop_first() =~= left_terms.skip(i - start + 1));
                assert(right_terms.skip(i - start).drop_first() =~= right_terms.skip(
                    i - start + 1,
                ));
            }
            let order = left[i].compared(right[i]);
            if order != Comparison::Equal {
                return order;
            }
            i += 1;
        }
        if i < left_end {
            Comparison::Greater
        } else if i < right_end {
            Comparison::Less
        } else {
            Comparison::Equal
        }
    }

    /// How the arms of two decisions compare, arm by arm.
    #[verifier::loop_isolation(false)]
    fn arms_compared(left: &Vec<Arm>, right: &Vec<Arm>, parent: Ghost<Term>) -> (order: Comparison)
        requires
            parent@.parts.len() > 0,
            arm_bodies(left@) == parent@.parts.drop_first(),
        ensures
            order == arms_order(
                arm_patterns(left@),
                arm_bodies(left@),
                arm_patterns(right@),
                arm_bodies(right@),
            ),
        decreases parent@, 0nat,
    {
        let ghost left_patterns = arm_patterns(left@);
        let ghost right_patterns = arm_patterns(right@);
        let ghost left_terms = arm_bodies(left@);
        let ghost right_terms = arm_bodies(right@);
        proof {
            assert(left_terms.skip(0) =~= left_terms);
            assert(right_terms.skip(0) =~= right_terms);
            assert(left_patterns.skip(0) =~= left_patterns);
            assert(right_patterns.skip(0) =~= right_patterns);
        }
        let mut i: usize = 0;
        while i < left.len() && i < right.len()
            invariant
                i <= left@.len(),
                i <= right@.len(),
                arms_order(left_patterns, left_terms, right_patterns, right_terms) == arms_order(
                    left_patterns.skip(i as int),
                    left_terms.skip(i as int),
                    right_patterns.skip(i as int),
                    right_terms.skip(i as int),
                ),
            decreases left@.len() - i,
        {
            proof {
                lemma_part_smaller(parent@, i + 1);
                assert(parent@.parts[i + 1] == left_terms[i as int]);
                assert(left_terms[i as int] == left@[i as int].body@);
                assert(right_terms[i as int] == right@[i as int].body@);
                assert(left_patterns[i as int] == left@[i as int].pattern@);
                assert(right_patterns[i as int] == right@[i as int].pattern@);
                assert(left_terms.skip(i as int).drop_first() =~= left_terms.skip(i + 1));
                assert(right_terms.skip(i as int).drop_first() =~= right_terms.skip(i + 1));
                assert(left_patterns.skip(i as int).drop_first() =~= left_patterns.skip(i + 1));
                assert(right_patterns.skip(i as int).drop_first() =~= right_patterns.skip(i + 1));
            }
            let order = settled(
                left[i].pattern.compared(&right[i].pattern),
                left[i].body.compared(&right[i].body),
            );
            if order != Comparison::Equal {
                return order;
            }
            i += 1;
        }
        if i < left.len() {
            Comparison::Greater
        } else if i < right.len() {
            Comparison::Less
        } else {
            Comparison::Equal
        }
    }

    /// How two forms compare.
    pub fn compared(&self, other: &Form) -> (order: Comparison)
        ensures
            order == term_order(self@, other@),
        decreases self@, 1nat,
    {
        let left_rank: u32 = self.rank();
        let right_rank: u32 = other.rank();
        if left_rank != right_rank {
            return compared(left_rank, right_rank);
        }
        if let (
            Form::Select { scrutinee: left, arms: left_arms },
            Form::Select { scrutinee: right, arms: right_arms },
        ) = (self, other) {
            proof {
                lemma_part_smaller(self@, 0);
                assert(self@.parts.drop_first() =~= arm_bodies(left_arms@));
                assert(other@.parts.drop_first() =~= arm_bodies(right_arms@));
            }
            return settled(
                left.compared(right),
                Self::arms_compared(left_arms, right_arms, Ghost(self@)),
            );
        }
        let left = self.children();
        let right = other.children();
        let cut: usize = self.patterns_after();
        if 0 < cut && cut < left.len() && cut < right.len() {
            proof {
                assert(self@.parts.skip(cut as int) =~= self@.parts.subrange(
                    cut as int,
                    left@.len() as int,
                ));
                assert(other@.parts.skip(cut as int) =~= other@.parts.subrange(
                    cut as int,
                    right@.len() as int,
                ));
            }
            settled(
                Self::runs_compared(&left, &right, 0, cut, cut, Ghost(self@)),
                settled(
                    self.walk_compared(other),
                    settled(
                        Self::runs_compared(
                            &left,
                            &right,
                            cut,
                            left.len(),
                            right.len(),
                            Ghost(self@),
                        ),
                        self.trailing_compared(other),
                    ),
                ),
            )
        } else {
            proof {
                assert(self@.parts.subrange(0, left@.len() as int) =~= self@.parts);
                assert(other@.parts.subrange(0, right@.len() as int) =~= other@.parts);
            }
            settled(
                self.leading_compared(other),
                settled(
                    Self::runs_compared(&left, &right, 0, left.len(), right.len(), Ghost(self@)),
                    self.trailing_compared(other),
                ),
            )
        }
    }
}

} // verus!
