//! The normalized form, its patterns, and the term each stands for.

use crate::text::same_text;
use vstd::prelude::*;

verus! {

/// The version of the form's shape.
pub const NORMALIZED_FORM_SCHEMA: u32 = 2;

/// The deepest a form may nest and still describe an operation.
pub const MAXIMUM_FORM_DEPTH: u32 = 32;

/// The smallest form worth reporting as a match.
pub const MINIMUM_REPORTABLE_SIZE: u32 = 6;

/// The least a behavior must name to identify an API rather than a shape.
pub const MINIMUM_ANCHORS: u32 = 2;

/// A name introduced by the code being normalized.
///
/// Only binding order survives normalization. Which identifier the author chose
/// is not behavior.
#[derive(Debug, Eq, PartialOrd, Ord, Hash)]
pub enum Pattern {
    /// A binding, numbered by the order it was introduced.
    Binding(u32),
    /// A destructured tuple, such as a `(key, value)` loop pattern.
    Tuple(Vec<Pattern>),
    /// A named alternative being taken apart, such as `Ok(value)`.
    Variant { name: String, parts: Vec<Pattern> },
    /// A binding the code discards.
    Ignored,
}

/// How often a pairwise walk reaches each pair.
#[derive(Debug, Clone, Copy, PartialEq, Eq, PartialOrd, Ord, Hash, Structural)]
pub enum Coverage {
    /// Each unordered pair once.
    Once,
    /// Each unordered pair both ways round, and no element with itself.
    BothWays,
    /// Each element with the one after it.
    Adjacent,
}

impl Default for Coverage {
    fn default() -> (coverage: Self)
        ensures
            coverage == Coverage::Once,
    {
        Coverage::Once
    }
}

/// Which way a walk runs.
#[derive(Debug, Clone, Copy, PartialEq, Eq, PartialOrd, Ord, Hash, Structural)]
pub enum Direction {
    /// From the first element toward the last.
    Forward,
    /// From the last element toward the first.
    Backward,
}

impl Default for Direction {
    fn default() -> (direction: Self)
        ensures
            direction == Direction::Forward,
    {
        Direction::Forward
    }
}

impl Direction {
    /// Whether this is the direction a walk runs unless it says otherwise.
    pub fn is_forward(&self) -> (forward: bool)
        ensures
            forward == (*self == Direction::Forward),
    {
        match self {
            Direction::Forward => true,
            Direction::Backward => false,
        }
    }
}

/// Normalized program behavior.
#[derive(Debug, Eq, PartialOrd, Ord, Hash)]
#[allow(inconsistent_fields)]
pub enum Form {
    /// A name bound by this code, by binding order.
    Local(u32),
    /// A name this code did not bind: a parameter, a field, a receiver.
    Free(u32),
    /// The unit value, and what an expression yielding nothing reduces to.
    Literal,
    /// A literal that is not a number.
    Constant(String),
    /// A numeric literal, keeping its value.
    Number(String),
    /// Construction of a named type.
    Construct(String),
    /// A named variant carrying a payload.
    Variant { name: String, payload: Vec<Form> },
    /// A resolved path used as a value.
    Path(String),
    /// Reading a named field.
    Field { value: Box<Form>, name: String },
    /// Calling a named method.
    Method { name: String, receiver: Box<Form>, arguments: Vec<Form> },
    /// Calling a value.
    Call { callee: Box<Form>, arguments: Vec<Form> },
    /// Visiting each element of a sequence.
    Traverse { sequence: Box<Form>, item: Box<Pattern>, body: Box<Form>, direction: Direction },
    /// Visiting pairs of a sequence's elements.
    Pairwise {
        sequence: Box<Form>,
        left: Box<Pattern>,
        right: Box<Pattern>,
        body: Box<Form>,
        coverage: Coverage,
    },
    /// Repeating a body for as long as a condition holds.
    Repeat { condition: Box<Form>, body: Box<Form> },
    /// Exchanging two of a sequence's elements.
    Swap { sequence: Box<Form>, left: Box<Form>, right: Box<Form> },
    /// Producing a new sequence by transforming each element.
    Transform { sequence: Box<Form>, item: Box<Pattern>, body: Box<Form> },
    /// Producing a new sequence from the elements that yield a value.
    Sift { sequence: Box<Form>, item: Box<Pattern>, body: Box<Form> },
    /// Producing a new sequence containing the elements that satisfy a test.
    Retain { sequence: Box<Form>, item: Box<Pattern>, body: Box<Form> },
    /// Reducing a sequence to a single accumulated value.
    Accumulate {
        sequence: Box<Form>,
        initial: Box<Form>,
        accumulator: Box<Pattern>,
        item: Box<Pattern>,
        body: Box<Form>,
    },
    /// Gathering a sequence into a named container type.
    Collect { sequence: Box<Form>, container: Option<String> },
    /// Writing a value to a place.
    Assign { operator: String, target: Box<Form>, value: Box<Form> },
    /// An operator applied to two values.
    Binary { operator: String, left: Box<Form>, right: Box<Form> },
    /// An operator applied to one value.
    Unary { operator: String, value: Box<Form> },
    /// Reading a sequence at a position.
    Index { sequence: Box<Form>, position: Box<Form> },
    /// A span of integers, as a loop over indices walks.
    Span { start: Box<Form>, end: Box<Form>, inclusive: bool },
    /// A function written where it is used.
    Lambda { parameters: Vec<Pattern>, body: Box<Form> },
    /// Naming a value.
    Let { pattern: Box<Pattern>, value: Box<Form> },
    /// Choosing by a condition.
    Branch { condition: Box<Form>, consequence: Box<Form>, alternative: Option<Box<Form>> },
    /// Choosing among named alternatives.
    Select { scrutinee: Box<Form>, arms: Vec<Arm> },
    /// Leaving with a value.
    Return(Box<Form>),
    /// An ordered group of steps.
    Sequence(Vec<Form>),
    /// Syntax the normalizer has no canonical shape for yet.
    Opaque { kind: String, parts: Vec<Form> },
}

/// One alternative of a `Select`, and what it evaluates to.
#[derive(Debug, Eq, PartialOrd, Ord, Hash)]
pub struct Arm {
    pub pattern: Pattern,
    pub body: Form,
}

/// What a pattern is, apart from its parts.
pub enum PatternKind {
    Binding(u32),
    Tuple,
    Variant(Seq<char>),
    Ignored,
}

/// The mathematical content of a [`Pattern`].
pub struct PatternTerm {
    pub kind: PatternKind,
    pub parts: Seq<PatternTerm>,
}

/// What a form is, apart from its child forms.
pub enum Shape {
    Local(u32),
    Free(u32),
    Literal,
    Constant(Seq<char>),
    Number(Seq<char>),
    Construct(Seq<char>),
    Variant(Seq<char>),
    Path(Seq<char>),
    Field(Seq<char>),
    Method(Seq<char>),
    Call,
    Traverse(PatternTerm, Direction),
    Pairwise(PatternTerm, PatternTerm, Coverage),
    Repeat,
    Swap,
    Transform(PatternTerm),
    Sift(PatternTerm),
    Retain(PatternTerm),
    Accumulate(PatternTerm, PatternTerm),
    Collect(Option<Seq<char>>),
    Assign(Seq<char>),
    Binary(Seq<char>),
    Unary(Seq<char>),
    Index,
    Span(bool),
    Lambda(Seq<PatternTerm>),
    Let(PatternTerm),
    Branch,
    Select(Seq<PatternTerm>),
    Return,
    Sequence,
    Opaque(Seq<char>),
}

/// The mathematical content of a [`Form`]: its shape, and its child terms in
/// evaluation order.
pub struct Term {
    pub shape: Shape,
    pub parts: Seq<Term>,
}

/// The term of a pattern.
pub open spec fn pattern_term(pattern: Pattern) -> PatternTerm
    decreases pattern,
{
    match pattern {
        Pattern::Binding(index) => PatternTerm {
            kind: PatternKind::Binding(index),
            parts: Seq::empty(),
        },
        Pattern::Tuple(parts) => PatternTerm {
            kind: PatternKind::Tuple,
            parts: pattern_terms(parts@),
        },
        Pattern::Variant { name, parts } => PatternTerm {
            kind: PatternKind::Variant(name@),
            parts: pattern_terms(parts@),
        },
        Pattern::Ignored => PatternTerm { kind: PatternKind::Ignored, parts: Seq::empty() },
    }
}

/// The terms of several patterns.
pub open spec fn pattern_terms(patterns: Seq<Pattern>) -> Seq<PatternTerm>
    decreases patterns,
{
    Seq::new(
        patterns.len(),
        |i: int|
            if 0 <= i < patterns.len() {
                pattern_term(patterns[i])
            } else {
                arbitrary()
            },
    )
}

/// The text of an optional name.
pub open spec fn optional_text(text: Option<String>) -> Option<Seq<char>> {
    match text {
        Some(text) => Some(text@),
        None => None,
    }
}

/// The term of a form.
pub open spec fn form_term(form: Form) -> Term
    decreases form,
{
    match form {
        Form::Local(index) => Term { shape: Shape::Local(index), parts: Seq::empty() },
        Form::Free(index) => Term { shape: Shape::Free(index), parts: Seq::empty() },
        Form::Literal => Term { shape: Shape::Literal, parts: Seq::empty() },
        Form::Constant(value) => Term { shape: Shape::Constant(value@), parts: Seq::empty() },
        Form::Number(value) => Term { shape: Shape::Number(value@), parts: Seq::empty() },
        Form::Construct(name) => Term { shape: Shape::Construct(name@), parts: Seq::empty() },
        Form::Variant { name, payload } => Term {
            shape: Shape::Variant(name@),
            parts: form_terms(payload@),
        },
        Form::Path(path) => Term { shape: Shape::Path(path@), parts: Seq::empty() },
        Form::Field { value, name } => Term {
            shape: Shape::Field(name@),
            parts: seq![form_term(*value)],
        },
        Form::Method { name, receiver, arguments } => Term {
            shape: Shape::Method(name@),
            parts: seq![form_term(*receiver)] + form_terms(arguments@),
        },
        Form::Call { callee, arguments } => Term {
            shape: Shape::Call,
            parts: seq![form_term(*callee)] + form_terms(arguments@),
        },
        Form::Traverse { sequence, item, body, direction } => Term {
            shape: Shape::Traverse(pattern_term(*item), direction),
            parts: seq![form_term(*sequence), form_term(*body)],
        },
        Form::Pairwise { sequence, left, right, body, coverage } => Term {
            shape: Shape::Pairwise(pattern_term(*left), pattern_term(*right), coverage),
            parts: seq![form_term(*sequence), form_term(*body)],
        },
        Form::Repeat { condition, body } => Term {
            shape: Shape::Repeat,
            parts: seq![form_term(*condition), form_term(*body)],
        },
        Form::Swap { sequence, left, right } => Term {
            shape: Shape::Swap,
            parts: seq![form_term(*sequence), form_term(*left), form_term(*right)],
        },
        Form::Transform { sequence, item, body } => Term {
            shape: Shape::Transform(pattern_term(*item)),
            parts: seq![form_term(*sequence), form_term(*body)],
        },
        Form::Sift { sequence, item, body } => Term {
            shape: Shape::Sift(pattern_term(*item)),
            parts: seq![form_term(*sequence), form_term(*body)],
        },
        Form::Retain { sequence, item, body } => Term {
            shape: Shape::Retain(pattern_term(*item)),
            parts: seq![form_term(*sequence), form_term(*body)],
        },
        Form::Accumulate { sequence, initial, accumulator, item, body } => Term {
            shape: Shape::Accumulate(pattern_term(*accumulator), pattern_term(*item)),
            parts: seq![form_term(*sequence), form_term(*initial), form_term(*body)],
        },
        Form::Collect { sequence, container } => Term {
            shape: Shape::Collect(optional_text(container)),
            parts: seq![form_term(*sequence)],
        },
        Form::Assign { operator, target, value } => Term {
            shape: Shape::Assign(operator@),
            parts: seq![form_term(*target), form_term(*value)],
        },
        Form::Binary { operator, left, right } => Term {
            shape: Shape::Binary(operator@),
            parts: seq![form_term(*left), form_term(*right)],
        },
        Form::Unary { operator, value } => Term {
            shape: Shape::Unary(operator@),
            parts: seq![form_term(*value)],
        },
        Form::Index { sequence, position } => Term {
            shape: Shape::Index,
            parts: seq![form_term(*sequence), form_term(*position)],
        },
        Form::Span { start, end, inclusive } => Term {
            shape: Shape::Span(inclusive),
            parts: seq![form_term(*start), form_term(*end)],
        },
        Form::Lambda { parameters, body } => Term {
            shape: Shape::Lambda(pattern_terms(parameters@)),
            parts: seq![form_term(*body)],
        },
        Form::Let { pattern, value } => Term {
            shape: Shape::Let(pattern_term(*pattern)),
            parts: seq![form_term(*value)],
        },
        Form::Branch { condition, consequence, alternative } => Term {
            shape: Shape::Branch,
            parts: match alternative {
                Some(alternative) => seq![
                    form_term(*condition),
                    form_term(*consequence),
                    form_term(*alternative),
                ],
                None => seq![form_term(*condition), form_term(*consequence)],
            },
        },
        Form::Select { scrutinee, arms } => Term {
            shape: Shape::Select(arm_patterns(arms@)),
            parts: seq![form_term(*scrutinee)] + arm_bodies(arms@),
        },
        Form::Return(value) => Term { shape: Shape::Return, parts: seq![form_term(*value)] },
        Form::Sequence(parts) => Term { shape: Shape::Sequence, parts: form_terms(parts@) },
        Form::Opaque { kind, parts } => Term {
            shape: Shape::Opaque(kind@),
            parts: form_terms(parts@),
        },
    }
}

/// The terms of several forms.
pub open spec fn form_terms(forms: Seq<Form>) -> Seq<Term>
    decreases forms,
{
    Seq::new(
        forms.len(),
        |i: int|
            if 0 <= i < forms.len() {
                form_term(forms[i])
            } else {
                arbitrary()
            },
    )
}

/// What the arms of a decision evaluate to.
pub open spec fn arm_bodies(arms: Seq<Arm>) -> Seq<Term>
    decreases arms,
{
    Seq::new(
        arms.len(),
        |i: int|
            if 0 <= i < arms.len() {
                form_term(arms[i].body)
            } else {
                arbitrary()
            },
    )
}

/// What the arms of a decision name.
pub open spec fn arm_patterns(arms: Seq<Arm>) -> Seq<PatternTerm> {
    Seq::new(arms.len(), |i: int| pattern_term(arms[i].pattern))
}

impl View for Pattern {
    type V = PatternTerm;

    open spec fn view(&self) -> PatternTerm {
        pattern_term(*self)
    }
}

impl View for Form {
    type V = Term;

    open spec fn view(&self) -> Term {
        form_term(*self)
    }
}

/// A term's children are smaller than the term.
pub proof fn lemma_part_smaller(term: Term, i: int)
    requires
        0 <= i < term.parts.len(),
    ensures
        decreases_to!(term => term.parts[i]),
{
    assert(decreases_to!(term => term.parts));
    assert(decreases_to!(term.parts => term.parts[i]));
}

/// The terms of borrowed forms.
pub open spec fn borrowed_terms(forms: Seq<&Form>) -> Seq<Term> {
    Seq::new(forms.len(), |i: int| form_term(*forms[i]))
}

/// Adds a borrow of each form to a list.
fn borrow_each<'a>(borrowed: &mut Vec<&'a Form>, forms: &'a Vec<Form>)
    ensures
        borrowed_terms(final(borrowed)@) == borrowed_terms(old(borrowed)@) + form_terms(forms@),
{
    let ghost before = borrowed@;
    for i in 0..forms.len()
        invariant
            borrowed@.len() == before.len() + i,
            borrowed_terms(borrowed@) =~= borrowed_terms(before) + form_terms(forms@).take(i as int),
    {
        let ghost so_far = borrowed@;
        borrowed.push(&forms[i]);
        assert(borrowed_terms(borrowed@) =~= borrowed_terms(so_far).push(
            form_terms(forms@)[i as int],
        ));
        assert(form_terms(forms@).take(i + 1) =~= form_terms(forms@).take(i as int).push(
            form_terms(forms@)[i as int],
        ));
    }
    assert(form_terms(forms@).take(forms@.len() as int) =~= form_terms(forms@));
}

impl Pattern {
    /// Whether two patterns are the same pattern.
    fn same(&self, other: &Pattern) -> (same: bool)
        ensures
            same == (self@ == other@),
        decreases self@,
    {
        match self {
            Pattern::Binding(left) => match other {
                Pattern::Binding(right) => *left == *right,
                _ => false,
            },
            Pattern::Ignored => match other {
                Pattern::Ignored => true,
                _ => false,
            },
            Pattern::Tuple(left) => match other {
                Pattern::Tuple(right) => {
                    proof {
                        assert(decreases_to!(self@ => self@.parts));
                    }
                    Self::all_same(left, right)
                },
                _ => false,
            },
            Pattern::Variant { name: left_name, parts: left } => match other {
                Pattern::Variant { name: right_name, parts: right } => {
                    proof {
                        assert(decreases_to!(self@ => self@.parts));
                    }
                    same_text(left_name.as_str(), right_name.as_str()) && Self::all_same(
                        left,
                        right,
                    )
                },
                _ => false,
            },
        }
    }

    /// Whether two lists of patterns are the same, one for one.
    fn all_same(left: &Vec<Pattern>, right: &Vec<Pattern>) -> (same: bool)
        ensures
            same == (pattern_terms(left@) == pattern_terms(right@)),
        decreases pattern_terms(left@),
    {
        if left.len() != right.len() {
            assert(pattern_terms(left@).len() != pattern_terms(right@).len());
            return false;
        }
        for i in 0..left.len()
            invariant
                left@.len() == right@.len(),
                forall|j: int|
                    0 <= j < i ==> #[trigger] pattern_terms(left@)[j] == pattern_terms(right@)[j],
        {
            proof {
                assert(decreases_to!(pattern_terms(left@) => pattern_terms(left@)[i as int]));
                assert(pattern_terms(left@)[i as int] == left@[i as int]@);
                assert(pattern_terms(right@)[i as int] == right@[i as int]@);
            }
            if !left[i].same(&right[i]) {
                return false;
            }
        }
        assert(pattern_terms(left@) =~= pattern_terms(right@));
        true
    }

    /// The same patterns again.
    pub(crate) fn copied(patterns: &Vec<Pattern>) -> (copies: Vec<Pattern>)
        ensures
            pattern_terms(copies@) == pattern_terms(patterns@),
        decreases pattern_terms(patterns@),
    {
        let mut copies: Vec<Pattern> = Vec::new();
        for i in 0..patterns.len()
            invariant
                copies@.len() == i,
                forall|j: int|
                    0 <= j < i ==> #[trigger] pattern_terms(copies@)[j] == pattern_terms(
                        patterns@,
                    )[j],
        {
            proof {
                assert(decreases_to!(
                    pattern_terms(patterns@) => pattern_terms(patterns@)[i as int]));
                assert(pattern_terms(patterns@)[i as int] == patterns@[i as int]@);
            }
            let ghost before = copies@;
            let copy = patterns[i].duplicate();
            copies.push(copy);
            assert(forall|j: int| 0 <= j < i ==> #[trigger] pattern_terms(copies@)[j] == pattern_terms(before)[j]);
        }
        assert(pattern_terms(copies@) =~= pattern_terms(patterns@));
        copies
    }

    /// The same pattern again.
    fn duplicate(&self) -> (copy: Pattern)
        ensures
            copy@ == self@,
        decreases self@,
    {
        proof {
            assert(decreases_to!(self@ => self@.parts));
        }
        match self {
            Pattern::Binding(index) => Pattern::Binding(*index),
            Pattern::Ignored => Pattern::Ignored,
            Pattern::Tuple(parts) => Pattern::Tuple(Self::copied(parts)),
            Pattern::Variant { name, parts } => Pattern::Variant {
                name: name.clone(),
                parts: Self::copied(parts),
            },
        }
    }
}

impl Clone for Pattern {
    fn clone(&self) -> (copy: Self)
        ensures
            copy@ == self@,
    {
        self.duplicate()
    }
}

impl PartialEq for Pattern {
    fn eq(&self, other: &Self) -> (same: bool) {
        self.same(other)
    }
}

impl vstd::std_specs::cmp::PartialEqSpecImpl for Pattern {
    open spec fn obeys_eq_spec() -> bool {
        true
    }

    open spec fn eq_spec(&self, other: &Self) -> bool {
        self@ == other@
    }
}

/// Adds the next of a list of parts to those already made.
pub(crate) fn push_part(made: &mut Vec<Form>, part: Form, whole: Ghost<Seq<Term>>, i: Ghost<int>)
    requires
        0 <= i@ < whole@.len(),
        form_terms(old(made)@) == whole@.take(i@),
        part@ == whole@[i@],
    ensures
        form_terms(final(made)@) == whole@.take(i@ + 1),
        final(made)@.len() == i@ + 1,
{
    let ghost before = made@;
    assert(form_terms(before).len() == before.len());
    made.push(part);
    assert(form_terms(made@) =~= form_terms(before).push(part@));
    assert(whole@.take(i@ + 1) =~= whole@.take(i@).push(whole@[i@]));
}

/// Adds a borrow of each arm's body to a list.
fn borrow_bodies<'a>(borrowed: &mut Vec<&'a Form>, arms: &'a Vec<Arm>)
    ensures
        borrowed_terms(final(borrowed)@) == borrowed_terms(old(borrowed)@) + arm_bodies(arms@),
{
    let ghost before = borrowed@;
    for i in 0..arms.len()
        invariant
            borrowed@.len() == before.len() + i,
            borrowed_terms(borrowed@) =~= borrowed_terms(before) + arm_bodies(arms@).take(i as int),
    {
        let ghost so_far = borrowed@;
        borrowed.push(&arms[i].body);
        assert(borrowed_terms(borrowed@) =~= borrowed_terms(so_far).push(
            arm_bodies(arms@)[i as int],
        ));
        assert(arm_bodies(arms@).take(i + 1) =~= arm_bodies(arms@).take(i as int).push(
            arm_bodies(arms@)[i as int],
        ));
    }
    assert(arm_bodies(arms@).take(arms@.len() as int) =~= arm_bodies(arms@));
}

/// The form of a list of one.
fn only_of(forms: Vec<Form>) -> (only: Form)
    requires
        forms@.len() == 1,
    ensures
        form_terms(forms@) == seq![only@],
{
    let ghost before = forms@;
    let mut forms = forms;
    let only = forms.remove(0);
    assert(form_terms(before) =~= seq![only@]);
    only
}

/// The forms of a list of two.
fn two_of(forms: Vec<Form>) -> (both: (Form, Form))
    requires
        forms@.len() == 2,
    ensures
        form_terms(forms@) == seq![both.0@, both.1@],
{
    let ghost before = forms@;
    let mut forms = forms;
    let second = forms.remove(1);
    let first = forms.remove(0);
    assert(form_terms(before) =~= seq![first@, second@]);
    (first, second)
}

/// The forms of a list of three.
fn three_of(forms: Vec<Form>) -> (all: (Form, Form, Form))
    requires
        forms@.len() == 3,
    ensures
        form_terms(forms@) == seq![all.0@, all.1@, all.2@],
{
    let ghost before = forms@;
    let mut forms = forms;
    let third = forms.remove(2);
    let second = forms.remove(1);
    let first = forms.remove(0);
    assert(form_terms(before) =~= seq![first@, second@, third@]);
    (first, second, third)
}

/// The first form of a list, and those after it.
fn first_and_rest(forms: Vec<Form>) -> (split: (Form, Vec<Form>))
    requires
        forms@.len() > 0,
    ensures
        form_terms(forms@) == seq![split.0@] + form_terms(split.1@),
        split.1@.len() == forms@.len() - 1,
{
    let ghost before = forms@;
    let mut forms = forms;
    let rest = forms.split_off(1);
    let first = only_of(forms);
    assert(form_terms(before) =~= seq![first@] + form_terms(rest@)) by {
        assert(form_terms(forms@)[0] == form_term(before[0]));
    }
    (first, rest)
}

/// The same arms around other bodies.
fn rebuilt_arms(arms: &Vec<Arm>, bodies: Vec<Form>) -> (rebuilt: Vec<Arm>)
    requires
        arms@.len() == bodies@.len(),
    ensures
        arm_patterns(rebuilt@) == arm_patterns(arms@),
        arm_bodies(rebuilt@) == form_terms(bodies@),
{
    let ghost terms = form_terms(bodies@);
    let mut bodies = bodies;
    let mut rebuilt: Vec<Arm> = Vec::new();
    let count: usize = arms.len();
    for i in 0..count
        invariant
            count == arms@.len(),
            terms.len() == count,
            rebuilt@.len() == i,
            bodies@.len() == count - i,
            form_terms(bodies@) == terms.skip(i as int),
            arm_patterns(rebuilt@) == arm_patterns(arms@).take(i as int),
            arm_bodies(rebuilt@) == terms.take(i as int),
    {
        let ghost before = bodies@;
        let ghost made = rebuilt@;
        let body = bodies.remove(0);
        assert(form_terms(before)[0] == body@);
        assert(form_terms(bodies@) =~= form_terms(before).skip(1));
        assert(terms.skip(i as int).skip(1) =~= terms.skip(i + 1));
        rebuilt.push(Arm { pattern: arms[i].pattern.clone(), body });
        assert(arm_patterns(rebuilt@) =~= arm_patterns(made).push(arm_patterns(arms@)[i as int]));
        assert(arm_bodies(rebuilt@) =~= arm_bodies(made).push(terms[i as int]));
        assert(arm_patterns(arms@).take(i + 1) =~= arm_patterns(arms@).take(i as int).push(
            arm_patterns(arms@)[i as int],
        ));
        assert(terms.take(i + 1) =~= terms.take(i as int).push(terms[i as int]));
    }
    assert(arm_patterns(arms@).take(count as int) =~= arm_patterns(arms@));
    assert(terms.take(count as int) =~= terms);
    rebuilt
}

/// The same optional text again.
fn copied_text(text: &Option<String>) -> (copy: Option<String>)
    ensures
        optional_text(copy) == optional_text(*text),
{
    match text {
        Some(text) => Some(text.clone()),
        None => None,
    }
}

/// Whether two optional texts are the same.
pub(crate) fn same_optional_text(left: &Option<String>, right: &Option<String>) -> (same: bool)
    ensures
        same == (optional_text(*left) == optional_text(*right)),
{
    match (left, right) {
        (Some(left), Some(right)) => same_text(left.as_str(), right.as_str()),
        (None, None) => true,
        _ => false,
    }
}

/// Whether two decisions name the same alternatives, arm for arm.
fn same_arm_patterns(left: &Vec<Arm>, right: &Vec<Arm>) -> (same: bool)
    ensures
        same == (arm_patterns(left@) == arm_patterns(right@)),
{
    if left.len() != right.len() {
        assert(arm_patterns(left@).len() != arm_patterns(right@).len());
        return false;
    }
    for i in 0..left.len()
        invariant
            left@.len() == right@.len(),
            forall|j: int|
                0 <= j < i ==> #[trigger] arm_patterns(left@)[j] == arm_patterns(right@)[j],
    {
        if !left[i].pattern.same(&right[i].pattern) {
            assert(arm_patterns(left@)[i as int] != arm_patterns(right@)[i as int]);
            return false;
        }
    }
    assert(arm_patterns(left@) =~= arm_patterns(right@));
    true
}

impl Form {
    /// Child forms, in evaluation order.
    pub fn children(&self) -> (children: Vec<&Form>)
        ensures
            borrowed_terms(children@) == self@.parts,
            children@.len() == self@.parts.len(),
            forall|i: int|
                0 <= i < children@.len() ==> (#[trigger] children@[i])@ == self@.parts[i],
    {
        let mut children: Vec<&Form> = Vec::new();
        match self {
            Form::Local(_)
            | Form::Free(_)
            | Form::Literal
            | Form::Constant(_)
            | Form::Number(_)
            | Form::Construct(_)
            | Form::Path(_) => {},
            Form::Variant { payload, .. } => {
                borrow_each(&mut children, payload);
            },
            Form::Field { value, .. } => {
                children.push(value);
            },
            Form::Method { receiver, arguments, .. } => {
                children.push(receiver);
                borrow_each(&mut children, arguments);
            },
            Form::Call { callee, arguments } => {
                children.push(callee);
                borrow_each(&mut children, arguments);
            },
            Form::Traverse { sequence, body, .. } => {
                children.push(sequence);
                children.push(body);
            },
            Form::Pairwise { sequence, body, .. } => {
                children.push(sequence);
                children.push(body);
            },
            Form::Repeat { condition, body } => {
                children.push(condition);
                children.push(body);
            },
            Form::Swap { sequence, left, right } => {
                children.push(sequence);
                children.push(left);
                children.push(right);
            },
            Form::Transform { sequence, body, .. } => {
                children.push(sequence);
                children.push(body);
            },
            Form::Sift { sequence, body, .. } => {
                children.push(sequence);
                children.push(body);
            },
            Form::Retain { sequence, body, .. } => {
                children.push(sequence);
                children.push(body);
            },
            Form::Accumulate { sequence, initial, body, .. } => {
                children.push(sequence);
                children.push(initial);
                children.push(body);
            },
            Form::Collect { sequence, .. } => {
                children.push(sequence);
            },
            Form::Assign { target, value, .. } => {
                children.push(target);
                children.push(value);
            },
            Form::Binary { left, right, .. } => {
                children.push(left);
                children.push(right);
            },
            Form::Unary { value, .. } => {
                children.push(value);
            },
            Form::Index { sequence, position } => {
                children.push(sequence);
                children.push(position);
            },
            Form::Span { start, end, .. } => {
                children.push(start);
                children.push(end);
            },
            Form::Lambda { body, .. } => {
                children.push(body);
            },
            Form::Let { value, .. } => {
                children.push(value);
            },
            Form::Branch { condition, consequence, alternative } => {
                children.push(condition);
                children.push(consequence);
                if let Some(alternative) = alternative {
                    children.push(alternative);
                }
            },
            Form::Select { scrutinee, arms } => {
                children.push(scrutinee);
                borrow_bodies(&mut children, arms);
            },
            Form::Return(value) => {
                children.push(value);
            },
            Form::Sequence(parts) => {
                borrow_each(&mut children, parts);
            },
            Form::Opaque { parts, .. } => {
                borrow_each(&mut children, parts);
            },
        }
        assert(borrowed_terms(children@) =~= self@.parts);
        assert(borrowed_terms(children@).len() == children@.len());
        assert forall|i: int| 0 <= i < children@.len() implies (#[trigger] children@[i])@
            == self@.parts[i] by {
            assert(borrowed_terms(children@)[i] == children@[i]@);
        }
        children
    }

    /// This form's shape around other children.
    pub(crate) fn with_children(&self, children: Vec<Form>) -> (rebuilt: Form)
        requires
            children@.len() == self@.parts.len(),
        ensures
            rebuilt@ == (Term { shape: self@.shape, parts: form_terms(children@) }),
    {
        assert(form_terms(children@).len() == children@.len());
        match self {
            Form::Local(index) => {
                assert(form_terms(children@) =~= Seq::empty());
                Form::Local(*index)
            },
            Form::Free(index) => {
                assert(form_terms(children@) =~= Seq::empty());
                Form::Free(*index)
            },
            Form::Literal => {
                assert(form_terms(children@) =~= Seq::empty());
                Form::Literal
            },
            Form::Constant(value) => {
                assert(form_terms(children@) =~= Seq::empty());
                Form::Constant(value.clone())
            },
            Form::Number(value) => {
                assert(form_terms(children@) =~= Seq::empty());
                Form::Number(value.clone())
            },
            Form::Construct(name) => {
                assert(form_terms(children@) =~= Seq::empty());
                Form::Construct(name.clone())
            },
            Form::Variant { name, .. } => {
                let payload = children;
                Form::Variant { name: name.clone(), payload }
            },
            Form::Path(path) => {
                assert(form_terms(children@) =~= Seq::empty());
                Form::Path(path.clone())
            },
            Form::Field { name, .. } => {
                let value = Box::new(only_of(children));
                Form::Field { value, name: name.clone() }
            },
            Form::Method { name, .. } => {
                let (first, arguments) = first_and_rest(children);
                let receiver = Box::new(first);
                Form::Method { name: name.clone(), receiver, arguments }
            },
            Form::Call { .. } => {
                let (first, arguments) = first_and_rest(children);
                let callee = Box::new(first);
                Form::Call { callee, arguments }
            },
            Form::Traverse { item, direction, .. } => {
                let (first, second) = two_of(children);
                let sequence = Box::new(first);
                let body = Box::new(second);
                Form::Traverse { sequence, item: Box::new((**item).clone()), body, direction: *direction }
            },
            Form::Pairwise { left, right, coverage, .. } => {
                let (first, second) = two_of(children);
                let sequence = Box::new(first);
                let body = Box::new(second);
                Form::Pairwise { sequence, left: Box::new((**left).clone()), right: Box::new((**right).clone()), body, coverage: *coverage }
            },
            Form::Repeat { .. } => {
                let (first, second) = two_of(children);
                let condition = Box::new(first);
                let body = Box::new(second);
                Form::Repeat { condition, body }
            },
            Form::Swap { .. } => {
                let (first, second, third) = three_of(children);
                let sequence = Box::new(first);
                let left = Box::new(second);
                let right = Box::new(third);
                Form::Swap { sequence, left, right }
            },
            Form::Transform { item, .. } => {
                let (first, second) = two_of(children);
                let sequence = Box::new(first);
                let body = Box::new(second);
                Form::Transform { sequence, item: Box::new((**item).clone()), body }
            },
            Form::Sift { item, .. } => {
                let (first, second) = two_of(children);
                let sequence = Box::new(first);
                let body = Box::new(second);
                Form::Sift { sequence, item: Box::new((**item).clone()), body }
            },
            Form::Retain { item, .. } => {
                let (first, second) = two_of(children);
                let sequence = Box::new(first);
                let body = Box::new(second);
                Form::Retain { sequence, item: Box::new((**item).clone()), body }
            },
            Form::Accumulate { accumulator, item, .. } => {
                let (first, second, third) = three_of(children);
                let sequence = Box::new(first);
                let initial = Box::new(second);
                let body = Box::new(third);
                Form::Accumulate { sequence, initial, accumulator: Box::new((**accumulator).clone()), item: Box::new((**item).clone()), body }
            },
            Form::Collect { container, .. } => {
                let sequence = Box::new(only_of(children));
                Form::Collect { sequence, container: copied_text(container) }
            },
            Form::Assign { operator, .. } => {
                let (first, second) = two_of(children);
                let target = Box::new(first);
                let value = Box::new(second);
                Form::Assign { operator: operator.clone(), target, value }
            },
            Form::Binary { operator, .. } => {
                let (first, second) = two_of(children);
                let left = Box::new(first);
                let right = Box::new(second);
                Form::Binary { operator: operator.clone(), left, right }
            },
            Form::Unary { operator, .. } => {
                let value = Box::new(only_of(children));
                Form::Unary { operator: operator.clone(), value }
            },
            Form::Index { .. } => {
                let (first, second) = two_of(children);
                let sequence = Box::new(first);
                let position = Box::new(second);
                Form::Index { sequence, position }
            },
            Form::Span { inclusive, .. } => {
                let (first, second) = two_of(children);
                let start = Box::new(first);
                let end = Box::new(second);
                Form::Span { start, end, inclusive: *inclusive }
            },
            Form::Lambda { parameters, .. } => {
                let body = Box::new(only_of(children));
                Form::Lambda { parameters: Pattern::copied(parameters), body }
            },
            Form::Let { pattern, .. } => {
                let value = Box::new(only_of(children));
                Form::Let { pattern: Box::new((**pattern).clone()), value }
            },
            Form::Branch { alternative, .. } => {
                return match alternative {
                    Some(_) => {
                        let (first, second, third) = three_of(children);
                        Form::Branch {
                            condition: Box::new(first),
                            consequence: Box::new(second),
                            alternative: Some(Box::new(third)),
                        }
                    },
                    None => {
                        let (first, second) = two_of(children);
                        Form::Branch {
                            condition: Box::new(first),
                            consequence: Box::new(second),
                            alternative: None,
                        }
                    },
                };
            },
            Form::Select { arms, .. } => {
                let (first, bodies) = first_and_rest(children);
                let scrutinee = Box::new(first);
                assert(arm_bodies(arms@).len() == arms@.len());
                let arms = rebuilt_arms(arms, bodies);
                Form::Select { scrutinee, arms }
            },
            Form::Return(_) => {
                let value = Box::new(only_of(children));
                Form::Return(value)
            },
            Form::Sequence(_) => {
                let parts = children;
                Form::Sequence(parts)
            },
            Form::Opaque { kind, .. } => {
                let parts = children;
                Form::Opaque { kind: kind.clone(), parts }
            },
        }
    }

    /// Whether two forms agree apart from their children.
    pub(crate) fn same_shape(&self, other: &Form) -> (same: bool)
        ensures
            same == (self@.shape == other@.shape),
    {
        match self {
            Form::Local(left_index) => match other {
                Form::Local(right_index) => *left_index == *right_index,
                _ => false,
            },
            Form::Free(left_index) => match other {
                Form::Free(right_index) => *left_index == *right_index,
                _ => false,
            },
            Form::Literal => match other {
                Form::Literal => true,
                _ => false,
            },
            Form::Constant(left_value) => match other {
                Form::Constant(right_value) => same_text(left_value.as_str(), right_value.as_str()),
                _ => false,
            },
            Form::Number(left_value) => match other {
                Form::Number(right_value) => same_text(left_value.as_str(), right_value.as_str()),
                _ => false,
            },
            Form::Construct(left_name) => match other {
                Form::Construct(right_name) => same_text(left_name.as_str(), right_name.as_str()),
                _ => false,
            },
            Form::Variant { name: left_name, .. } => match other {
                Form::Variant { name: right_name, .. } => same_text(left_name.as_str(), right_name.as_str()),
                _ => false,
            },
            Form::Path(left_path) => match other {
                Form::Path(right_path) => same_text(left_path.as_str(), right_path.as_str()),
                _ => false,
            },
            Form::Field { name: left_name, .. } => match other {
                Form::Field { name: right_name, .. } => same_text(left_name.as_str(), right_name.as_str()),
                _ => false,
            },
            Form::Method { name: left_name, .. } => match other {
                Form::Method { name: right_name, .. } => same_text(left_name.as_str(), right_name.as_str()),
                _ => false,
            },
            Form::Call { .. } => match other {
                Form::Call { .. } => true,
                _ => false,
            },
            Form::Traverse { item: left_item, direction: left_direction, .. } => match other {
                Form::Traverse { item: right_item, direction: right_direction, .. } => left_item.same(right_item) && *left_direction == *right_direction,
                _ => false,
            },
            Form::Pairwise { left: left_left, right: left_right, coverage: left_coverage, .. } => match other {
                Form::Pairwise { left: right_left, right: right_right, coverage: right_coverage, .. } => left_left.same(right_left) && left_right.same(right_right) && *left_coverage == *right_coverage,
                _ => false,
            },
            Form::Repeat { .. } => match other {
                Form::Repeat { .. } => true,
                _ => false,
            },
            Form::Swap { .. } => match other {
                Form::Swap { .. } => true,
                _ => false,
            },
            Form::Transform { item: left_item, .. } => match other {
                Form::Transform { item: right_item, .. } => left_item.same(right_item),
                _ => false,
            },
            Form::Sift { item: left_item, .. } => match other {
                Form::Sift { item: right_item, .. } => left_item.same(right_item),
                _ => false,
            },
            Form::Retain { item: left_item, .. } => match other {
                Form::Retain { item: right_item, .. } => left_item.same(right_item),
                _ => false,
            },
            Form::Accumulate { accumulator: left_accumulator, item: left_item, .. } => match other {
                Form::Accumulate { accumulator: right_accumulator, item: right_item, .. } => left_accumulator.same(right_accumulator) && left_item.same(right_item),
                _ => false,
            },
            Form::Collect { container: left_container, .. } => match other {
                Form::Collect { container: right_container, .. } => same_optional_text(left_container, right_container),
                _ => false,
            },
            Form::Assign { operator: left_operator, .. } => match other {
                Form::Assign { operator: right_operator, .. } => same_text(left_operator.as_str(), right_operator.as_str()),
                _ => false,
            },
            Form::Binary { operator: left_operator, .. } => match other {
                Form::Binary { operator: right_operator, .. } => same_text(left_operator.as_str(), right_operator.as_str()),
                _ => false,
            },
            Form::Unary { operator: left_operator, .. } => match other {
                Form::Unary { operator: right_operator, .. } => same_text(left_operator.as_str(), right_operator.as_str()),
                _ => false,
            },
            Form::Index { .. } => match other {
                Form::Index { .. } => true,
                _ => false,
            },
            Form::Span { inclusive: left_inclusive, .. } => match other {
                Form::Span { inclusive: right_inclusive, .. } => *left_inclusive == *right_inclusive,
                _ => false,
            },
            Form::Lambda { parameters: left_parameters, .. } => match other {
                Form::Lambda { parameters: right_parameters, .. } => Pattern::all_same(left_parameters, right_parameters),
                _ => false,
            },
            Form::Let { pattern: left_pattern, .. } => match other {
                Form::Let { pattern: right_pattern, .. } => left_pattern.same(right_pattern),
                _ => false,
            },
            Form::Branch { .. } => match other {
                Form::Branch { .. } => true,
                _ => false,
            },
            Form::Select { arms: left_arms, .. } => match other {
                Form::Select { arms: right_arms, .. } => same_arm_patterns(left_arms, right_arms),
                _ => false,
            },
            Form::Return(_) => match other {
                Form::Return(_) => true,
                _ => false,
            },
            Form::Sequence(_) => match other {
                Form::Sequence(_) => true,
                _ => false,
            },
            Form::Opaque { kind: left_kind, .. } => match other {
                Form::Opaque { kind: right_kind, .. } => same_text(left_kind.as_str(), right_kind.as_str()),
                _ => false,
            },
        }
    }

    /// Whether two forms are the same form.
    fn same(&self, other: &Form) -> (same: bool)
        ensures
            same == (self@ == other@),
        decreases self@,
    {
        if !self.same_shape(other) {
            return false;
        }
        let left = self.children();
        let right = other.children();
        assert(left@.len() == self@.parts.len() && right@.len() == other@.parts.len()) by {
            assert(borrowed_terms(left@).len() == left@.len());
            assert(borrowed_terms(right@).len() == right@.len());
        }
        if left.len() != right.len() {
            return false;
        }
        for i in 0..left.len()
            invariant
                left@.len() == right@.len(),
                borrowed_terms(left@) == self@.parts,
                borrowed_terms(right@) == other@.parts,
                forall|j: int| 0 <= j < i ==> #[trigger] self@.parts[j] == other@.parts[j],
        {
            proof {
                assert(self@.parts[i as int] == left@[i as int]@);
                assert(other@.parts[i as int] == right@[i as int]@);
                lemma_part_smaller(self@, i as int);
            }
            if !left[i].same(right[i]) {
                return false;
            }
        }
        assert(self@.parts =~= other@.parts);
        true
    }

    /// The same form again.
    fn duplicate(&self) -> (copy: Form)
        ensures
            copy@ == self@,
        decreases self@,
    {
        let children = self.children();
        assert(borrowed_terms(children@).len() == children@.len());
        let mut copies: Vec<Form> = Vec::new();
        for i in 0..children.len()
            invariant
                children@.len() == self@.parts.len(),
                borrowed_terms(children@) == self@.parts,
                form_terms(copies@) == self@.parts.take(i as int),
        {
            proof {
                assert(self@.parts[i as int] == children@[i as int]@);
                lemma_part_smaller(self@, i as int);
            }
            let copy = children[i].duplicate();
            push_part(&mut copies, copy, Ghost(self@.parts), Ghost(i as int));
        }
        assert(self@.parts.take(self@.parts.len() as int) =~= self@.parts);
        self.with_children(copies)
    }
}

impl Clone for Form {
    fn clone(&self) -> (copy: Self)
        ensures
            copy@ == self@,
    {
        self.duplicate()
    }
}

impl PartialEq for Form {
    fn eq(&self, other: &Self) -> (same: bool) {
        self.same(other)
    }
}

impl vstd::std_specs::cmp::PartialEqSpecImpl for Form {
    open spec fn obeys_eq_spec() -> bool {
        true
    }

    open spec fn eq_spec(&self, other: &Self) -> bool {
        self@ == other@
    }
}

impl Clone for Arm {
    fn clone(&self) -> (copy: Self)
        ensures
            copy.pattern@ == self.pattern@,
            copy.body@ == self.body@,
    {
        Arm { pattern: self.pattern.clone(), body: self.body.clone() }
    }
}

impl PartialEq for Arm {
    fn eq(&self, other: &Self) -> (same: bool) {
        self.pattern.same(&other.pattern) && self.body.same(&other.body)
    }
}

impl vstd::std_specs::cmp::PartialEqSpecImpl for Arm {
    open spec fn obeys_eq_spec() -> bool {
        true
    }

    open spec fn eq_spec(&self, other: &Self) -> bool {
        self.pattern@ == other.pattern@ && self.body@ == other.body@
    }
}

} // verus!
