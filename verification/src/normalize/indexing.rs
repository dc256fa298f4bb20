//! Reading and rewriting the positions a body indexes.
//!
//! Recognizing a counted loop as a walk means proving the body indexes exactly
//! one sequence at the loop's positions, then rewriting those reads as the
//! element itself.

use crate::lists::{
    extended, holds, joined, lemma_extended_join, lemma_extended_one, lemma_joined_step,
};
use crate::normalize::form::{form_terms, lemma_part_smaller, push_part, Form, Shape, Term};
use crate::normalize::names::leaf;
use crate::text::same_text;
use vstd::prelude::*;

verus! {

/// The position a term reads of a sequence, where that is a name.
pub open spec fn indexed_local(term: Term) -> Option<(Term, u32)> {
    if term.shape is Index && term.parts.len() == 2 {
        match term.parts[1].shape {
            Shape::Local(index) => Some((term.parts[0], index)),
            _ => None,
        }
    } else {
        None
    }
}

/// Whether a term reads a sequence at one of the named positions.
pub open spec fn reads_at(term: Term, sequence: Term, positions: Seq<u32>) -> bool {
    indexed_local(term) matches Some((read, index)) && read == sequence && positions.contains(index)
}

/// Whether a position is one past a named one, written either way round.
pub open spec fn next_position(term: Term, index: u32) -> bool {
    let one = leaf(Shape::Number(seq!['1']));
    let name = leaf(Shape::Local(index));
    term.shape == Shape::Binary(seq!['+']) && (term.parts == seq![name, one] || term.parts == seq![
        one,
        name,
    ])
}

/// Whether a term reads a sequence at any position.
pub open spec fn reads(term: Term, sequence: Term) -> bool {
    term.shape is Index && term.parts.len() == 2 && term.parts[0] == sequence
}

/// Whether a term reads a sequence only by indexing it at named positions.
pub open spec fn only_indexed(term: Term, sequence: Term, positions: Seq<u32>) -> bool
    decreases term,
{
    ||| reads_at(term, sequence, positions)
    ||| {
        &&& term != sequence
        &&& !(term.shape matches Shape::Local(index) && positions.contains(index))
        &&& all_only_indexed(term.parts, sequence, positions)
    }
}

/// Whether several terms read a sequence only by indexing it at named positions.
pub open spec fn all_only_indexed(terms: Seq<Term>, sequence: Term, positions: Seq<u32>) -> bool
    decreases terms,
{
    forall|i: int| 0 <= i < terms.len() ==> only_indexed(#[trigger] terms[i], sequence, positions)
}

/// Whether a term indexes into a sequence anywhere.
pub open spec fn indexes_into(term: Term, sequence: Term) -> bool
    decreases term,
{
    reads(term, sequence) || any_indexes_into(term.parts, sequence)
}

/// Whether any of several terms indexes into a sequence.
pub open spec fn any_indexes_into(terms: Seq<Term>, sequence: Term) -> bool
    decreases terms,
{
    exists|i: int| 0 <= i < terms.len() && indexes_into(#[trigger] terms[i], sequence)
}

/// Whether a term writes through an index into a sequence.
pub open spec fn writes_into(term: Term, sequence: Term) -> bool
    decreases term,
{
    ||| term.shape is Assign && term.parts.len() == 2 && indexes_into(term.parts[0], sequence)
    ||| any_writes_into(term.parts, sequence)
}

/// Whether any of several terms writes through an index into a sequence.
pub open spec fn any_writes_into(terms: Seq<Term>, sequence: Term) -> bool
    decreases terms,
{
    exists|i: int| 0 <= i < terms.len() && writes_into(#[trigger] terms[i], sequence)
}

/// A term with each licensed indexing replaced by the element.
pub open spec fn with_elements(term: Term, sequence: Term, positions: Seq<u32>) -> Term
    decreases term,
{
    if reads_at(term, sequence, positions) {
        leaf(Shape::Local((indexed_local(term)->0).1))
    } else {
        Term { shape: term.shape, parts: each_with_elements(term.parts, sequence, positions) }
    }
}

/// Several terms with each licensed indexing replaced by the element.
pub open spec fn each_with_elements(terms: Seq<Term>, sequence: Term, positions: Seq<u32>) -> Seq<Term>
    decreases terms,
{
    Seq::new(
        terms.len(),
        |i: int|
            if 0 <= i < terms.len() {
                with_elements(terms[i], sequence, positions)
            } else {
                arbitrary()
            },
    )
}

/// Whether a term reads a sequence only by indexing it at a position and its
/// successor.
pub open spec fn only_adjacent(term: Term, sequence: Term, index: u32) -> bool
    decreases term,
{
    ||| reads(term, sequence) && (term.parts[1] == leaf(Shape::Local(index)) || next_position(
        term.parts[1],
        index,
    ))
    ||| {
        &&& term != sequence
        &&& term != leaf(Shape::Local(index))
        &&& all_only_adjacent(term.parts, sequence, index)
    }
}

/// Whether several terms read a sequence only at a position and its successor.
pub open spec fn all_only_adjacent(terms: Seq<Term>, sequence: Term, index: u32) -> bool
    decreases terms,
{
    forall|i: int| 0 <= i < terms.len() ==> only_adjacent(#[trigger] terms[i], sequence, index)
}

/// A term with each neighbour reading replaced by its element.
pub open spec fn with_neighbours(term: Term, sequence: Term, index: u32, successor: u32) -> Term
    decreases term,
{
    if reads(term, sequence) && term.parts[1] == leaf(Shape::Local(index)) {
        leaf(Shape::Local(index))
    } else     if reads(term, sequence) && next_position(term.parts[1], index) {
        leaf(Shape::Local(successor))
    } else {
        Term { shape: term.shape, parts: each_with_neighbours(term.parts, sequence, index, successor) }
    }
}

/// Several terms with each neighbour reading replaced by its element.
pub open spec fn each_with_neighbours(terms: Seq<Term>, sequence: Term, index: u32, successor: u32) -> Seq<Term>
    decreases terms,
{
    Seq::new(
        terms.len(),
        |i: int|
            if 0 <= i < terms.len() {
                with_neighbours(terms[i], sequence, index, successor)
            } else {
                arbitrary()
            },
    )
}

/// What a term reads at the named positions, in order of appearance.
pub open spec fn readings(term: Term, positions: Seq<u32>) -> Seq<(Term, u32)>
    decreases term,
{
    own_reading(term, positions) + joined(each_readings(term.parts, positions))
}

/// What a term itself reads, where it reads at a named position.
pub open spec fn own_reading(term: Term, positions: Seq<u32>) -> Seq<(Term, u32)> {
    match indexed_local(term) {
        Some(reading) => if positions.contains(reading.1) {
            seq![reading]
        } else {
            Seq::empty()
        },
        None => Seq::empty(),
    }
}

/// What several terms read at the named positions, term by term.
pub open spec fn each_readings(terms: Seq<Term>, positions: Seq<u32>) -> Seq<Seq<(Term, u32)>>
    decreases terms,
{
    Seq::new(
        terms.len(),
        |i: int|
            if 0 <= i < terms.len() {
                readings(terms[i], positions)
            } else {
                Seq::empty()
            },
    )
}

/// The positions that were read.
pub open spec fn positions_read(readings: Seq<(Term, u32)>) -> Seq<u32> {
    Seq::new(readings.len(), |i: int| readings[i].1)
}

/// The one sequence that was read, given the one read before; nothing when
/// they disagree.
pub open spec fn agreed(before: Option<Term>, readings: Seq<(Term, u32)>) -> Option<Option<Term>>
    decreases readings.len(),
{
    if readings.len() == 0 {
        Some(before)
    } else {
        match agreed(before, readings.drop_last()) {
            None => None,
            Some(None) => Some(Some(readings.last().0)),
            Some(Some(sequence)) => if sequence == readings.last().0 {
                Some(Some(sequence))
            } else {
                None
            },
        }
    }
}

/// The one sequence a term indexes at every named position.
pub open spec fn sole_sequence(term: Term, positions: Seq<u32>) -> Option<Term> {
    let read = readings(term, positions);
    let every = forall|i: int|
        0 <= i < positions.len() ==> positions_read(read).contains(#[trigger] positions[i]);
    match agreed(None, read) {
        Some(Some(sequence)) => if every {
            Some(sequence)
        } else {
            None
        },
        _ => None,
    }
}

proof fn lemma_agreed_join(
    before: Option<Term>,
    first: Seq<(Term, u32)>,
    second: Seq<(Term, u32)>,
)
    ensures
        agreed(before, first + second) == match agreed(before, first) {
            None => None,
            Some(between) => agreed(between, second),
        },
    decreases second.len(),
{
    if second.len() == 0 {
        assert(first + second =~= first);
    } else {
        assert((first + second).drop_last() =~= first + second.drop_last());
        lemma_agreed_join(before, first, second.drop_last());
    }
}

/// What the sequence found so far is.
pub open spec fn found_term(found: Option<&Form>) -> Option<Term> {
    match found {
        Some(form) => Some(form@),
        None => None,
    }
}

impl Form {
    /// Whether a position is one past a named one, written either way round.
    pub fn is_next_position(&self, index: u32) -> (next: bool)
        ensures
            next == next_position(self@, index),
    {
        proof {
            reveal_strlit("+");
            reveal_strlit("1");
            assert("+"@ =~= seq!['+']);
            assert("1"@ =~= seq!['1']);
        }
        if let Form::Binary { operator, left, right } = self {
            let ghost name = leaf(Shape::Local(index));
            let ghost one = leaf(Shape::Number(seq!['1']));
            proof {
                assert(self@.parts[0] == left@ && self@.parts[1] == right@);
                assert(self@.parts == seq![name, one] <==> left@ == name && right@ == one) by {
                    assert(seq![name, one][0] == name && seq![name, one][1] == one);
                    if left@ == name && right@ == one {
                        assert(self@.parts =~= seq![name, one]);
                    }
                }
                assert(self@.parts == seq![one, name] <==> left@ == one && right@ == name) by {
                    assert(seq![one, name][0] == one && seq![one, name][1] == name);
                    if left@ == one && right@ == name {
                        assert(self@.parts =~= seq![one, name]);
                    }
                }
            }
            same_text(operator.as_str(), "+") && ((left.is_local(index) && right.is_number("1"))
                || (right.is_local(index) && left.is_number("1")))
        } else {
            false
        }
    }

    /// Whether this form is a particular local.
    pub(crate) fn is_local(&self, index: u32) -> (is: bool)
        ensures
            is == (self@ == leaf(Shape::Local(index))),
    {
        match self {
            Form::Local(local) => *local == index,
            _ => false,
        }
    }

    /// Whether this form is a particular number.
    pub(crate) fn is_number(&self, number: &str) -> (is: bool)
        ensures
            is == (self@ == leaf(Shape::Number(number@))),
    {
        match self {
            Form::Number(value) => same_text(value.as_str(), number),
            _ => false,
        }
    }

    /// The sequence this form reads at one of the named positions, and the
    /// position.
    fn reading_at(&self, positions: &Vec<u32>) -> (read: Option<(&Form, u32)>)
        ensures
            match read {
                Some((sequence, index)) => indexed_local(self@) == Some((sequence@, index))
                    && positions@.contains(index),
                None => indexed_local(self@) matches Some((_, index)) ==> !positions@.contains(
                    index,
                ),
            },
    {
        if let Form::Index { sequence, position } = self {
            assert(self@.parts[0] == sequence@ && self@.parts[1] == position@);
            if let Form::Local(index) = &**position {
                if holds(positions, *index) {
                    return Some((&**sequence, *index));
                }
            }
        }
        None
    }

    /// The one sequence a body indexes at every named position.
    ///
    /// A loop bound is often a variable rather than the sequence's own length,
    /// so the span does not always say what is being walked. The body does:
    /// whatever it reads at those positions is the sequence, and it has to be
    /// exactly one of them.
    pub fn sole_indexed_sequence(&self, positions: &Vec<u32>) -> (sequence: Option<&Form>)
        ensures
            found_term(sequence) == sole_sequence(self@, positions@),
    {
        let mut seen: Vec<u32> = Vec::new();
        let mut sequence: Option<&Form> = None;
        if !self.collect_indexed(positions, &mut sequence, &mut seen) {
            return None;
        }
        let ghost read = positions_read(readings(self@, positions@));
        proof {
            crate::lists::lemma_extended(Seq::<u32>::empty(), read);
        }
        for i in 0..positions.len()
            invariant
                read == positions_read(readings(self@, positions@)),
                forall|name: u32| #[trigger] seen@.contains(name) <==> read.contains(name),
                forall|j: int| 0 <= j < i ==> read.contains(#[trigger] positions@[j]),
        {
            if !holds(&seen, positions[i]) {
                assert(!read.contains(positions@[i as int]));
                return None;
            }
        }
        sequence
    }

    /// Gather the sequence indexed at each position, failing on disagreement.
    fn collect_indexed<'a>(
        &'a self,
        positions: &Vec<u32>,
        sequence: &mut Option<&'a Form>,
        seen: &mut Vec<u32>,
    ) -> (agrees: bool)
        ensures
            agrees == agreed(found_term(*old(sequence)), readings(self@, positions@)) is Some,
            agrees ==> agreed(found_term(*old(sequence)), readings(self@, positions@)) == Some(
                found_term(*final(sequence)),
            ),
            agrees ==> final(seen)@ == extended(
                old(seen)@,
                positions_read(readings(self@, positions@)),
            ),
        decreases self@,
    {
        let ghost before = found_term(*sequence);
        let ghost seen_before = seen@;
        let ghost own = own_reading(self@, positions@);
        let ghost each = each_readings(self@.parts, positions@);
        proof {
            reveal_with_fuel(agreed, 2);
            assert(own.len() == 1 ==> own.drop_last() =~= Seq::empty());
            assert(own + joined(each.take(0)) =~= own);
            if own.len() == 1 {
                lemma_extended_one(seen_before, own[0].1);
                assert(positions_read(own) =~= seq![own[0].1]);
            } else {
                assert(positions_read(own) =~= Seq::empty());
            }
            lemma_agreed_join(before, own, joined(each));
        }
        if let Some((read, index)) = self.reading_at(positions) {
            if let Some(found) = *sequence {
                if *found != *read {
                    return false;
                }
            }
            *sequence = Some(read);
            if !holds(seen, index) {
                seen.push(index);
            }
        }
        let children = self.children();
        for i in 0..children.len()
            invariant
                each == each_readings(self@.parts, positions@),
                own == own_reading(self@, positions@),
                children@.len() == self@.parts.len(),
                forall|i: int|
                    0 <= i < children@.len() ==> (#[trigger] children@[i])@ == self@.parts[i],
                before == found_term(*old(sequence)),
                agreed(before, own + joined(each.take(i as int))) == Some(found_term(*sequence)),
                seen@ == extended(
                    seen_before,
                    positions_read(own + joined(each.take(i as int))),
                ),
        {
            let ghost so_far = own + joined(each.take(i as int));
            proof {
                lemma_part_smaller(self@, i as int);
                lemma_joined_step(each, i as int);
                assert(own + joined(each.take(i + 1)) =~= so_far + each[i as int]);
                lemma_agreed_join(before, so_far, each[i as int]);
                assert(positions_read(so_far + each[i as int]) =~= positions_read(so_far)
                    + positions_read(each[i as int]));
                lemma_extended_join(
                    seen_before,
                    positions_read(so_far),
                    positions_read(each[i as int]),
                );
            }
            if !children[i].collect_indexed(positions, sequence, seen) {
                proof {
                    lemma_agreed_prefix(before, own, each, i + 1);
                }
                return false;
            }
        }
        assert(each.take(children@.len() as int) =~= each);
        true
    }

    /// Whether a body reads a sequence only by indexing it at named positions.
    ///
    /// This is the licence to forget the index: `v[i + 1]` looks at a different
    /// element, `w[i]` at a different sequence, and `v.swap(i, j)` at the
    /// sequence itself.
    #[verifier::loop_isolation(false)]
    pub fn indexed_only(&self, sequence: &Form, positions: &Vec<u32>) -> (licensed: bool)
        ensures
            licensed == only_indexed(self@, sequence@, positions@),
        decreases self@,
    {
        if let Some((read, _)) = self.reading_at(positions) {
            if *read == *sequence {
                return true;
            }
        }
        if *self == *sequence {
            return false;
        }
        if let Form::Local(index) = self {
            if holds(positions, *index) {
                return false;
            }
        }
        let children = self.children();
        for i in 0..children.len()
            invariant
                children@.len() == self@.parts.len(),
                forall|i: int|
                    0 <= i < children@.len() ==> (#[trigger] children@[i])@ == self@.parts[i],
                forall|j: int| 0 <= j < i ==> only_indexed(#[trigger] self@.parts[j], sequence@, positions@),
        {
            proof {
                lemma_part_smaller(self@, i as int);
            }
            if !children[i].indexed_only(sequence, positions) {
                assert(!only_indexed(self@.parts[i as int], sequence@, positions@));
                return false;
            }
        }
        true
    }

    /// Whether anything here writes through an index into a sequence.
    pub fn writes_indexed(&self, sequence: &Form) -> (writes: bool)
        ensures
            writes == writes_into(self@, sequence@),
        decreases self@,
    {
        if let Form::Assign { target, .. } = self {
            assert(self@.parts[0] == target@);
            if target.indexes(sequence) {
                return true;
            }
        }
        let children = self.children();
        for i in 0..children.len()
            invariant
                children@.len() == self@.parts.len(),
                forall|i: int|
                    0 <= i < children@.len() ==> (#[trigger] children@[i])@ == self@.parts[i],
                forall|j: int| 0 <= j < i ==> !writes_into(#[trigger] self@.parts[j], sequence@),
        {
            proof {
                lemma_part_smaller(self@, i as int);
            }
            if children[i].writes_indexed(sequence) {
                assert(writes_into(self@.parts[i as int], sequence@));
                return true;
            }
        }
        false
    }

    /// Whether this form indexes into a sequence anywhere.
    fn indexes(&self, sequence: &Form) -> (indexes: bool)
        ensures
            indexes == indexes_into(self@, sequence@),
        decreases self@,
    {
        if let Form::Index { sequence: indexed, .. } = self {
            assert(self@.parts[0] == indexed@);
            if **indexed == *sequence {
                return true;
            }
        }
        let children = self.children();
        for i in 0..children.len()
            invariant
                children@.len() == self@.parts.len(),
                forall|i: int|
                    0 <= i < children@.len() ==> (#[trigger] children@[i])@ == self@.parts[i],
                forall|j: int| 0 <= j < i ==> !indexes_into(#[trigger] self@.parts[j], sequence@),
        {
            proof {
                lemma_part_smaller(self@, i as int);
            }
            if children[i].indexes(sequence) {
                assert(indexes_into(self@.parts[i as int], sequence@));
                return true;
            }
        }
        false
    }

    /// The same body with each licensed indexing replaced by the element.
    pub fn with_indexed_elements(&self, sequence: &Form, positions: &Vec<u32>) -> (rewritten: Form)
        ensures
            rewritten@ == with_elements(self@, sequence@, positions@),
        decreases self@,
    {
        if let Some((read, index)) = self.reading_at(positions) {
            if *read == *sequence {
                return Form::Local(index);
            }
        }
        let ghost each = each_with_elements(self@.parts, sequence@, positions@);
        let children = self.children();
        let mut parts: Vec<Form> = Vec::new();
        assert(form_terms(parts@) =~= each.take(0));
        for i in 0..children.len()
            invariant
                each == each_with_elements(self@.parts, sequence@, positions@),
                each.len() == self@.parts.len(),
                children@.len() == self@.parts.len(),
                forall|i: int|
                    0 <= i < children@.len() ==> (#[trigger] children@[i])@ == self@.parts[i],
                form_terms(parts@) == each.take(i as int),
        {
            proof {
                lemma_part_smaller(self@, i as int);
            }
            let part = children[i].with_indexed_elements(sequence, positions);
            push_part(&mut parts, part, Ghost(each), Ghost(i as int));
        }
        assert(each.take(children@.len() as int) =~= each);
        assert(form_terms(parts@).len() == parts@.len());
        self.with_children(parts)
    }

    /// Whether a body reads a sequence only by indexing it at a position and its
    /// successor.
    #[verifier::loop_isolation(false)]
    pub fn adjacent_only(&self, sequence: &Form, index: u32) -> (licensed: bool)
        ensures
            licensed == only_adjacent(self@, sequence@, index),
        decreases self@,
    {
        if let Form::Index { sequence: indexed, position } = self {
            assert(self@.parts[0] == indexed@ && self@.parts[1] == position@);
            if **indexed == *sequence && (position.is_local(index) || position.is_next_position(
                index,
            )) {
                return true;
            }
        }
        if *self == *sequence || self.is_local(index) {
            return false;
        }
        let children = self.children();
        for i in 0..children.len()
            invariant
                children@.len() == self@.parts.len(),
                forall|i: int|
                    0 <= i < children@.len() ==> (#[trigger] children@[i])@ == self@.parts[i],
                forall|j: int| 0 <= j < i ==> only_adjacent(#[trigger] self@.parts[j], sequence@, index),
        {
            proof {
                lemma_part_smaller(self@, i as int);
            }
            if !children[i].adjacent_only(sequence, index) {
                assert(!only_adjacent(self@.parts[i as int], sequence@, index));
                return false;
            }
        }
        true
    }

    /// The same body with each neighbour reading replaced by its element.
    pub fn with_adjacent_elements(&self, sequence: &Form, index: u32, successor: u32) -> (rewritten: Form)
        ensures
            rewritten@ == with_neighbours(self@, sequence@, index, successor),
        decreases self@,
    {
        if let Form::Index { sequence: indexed, position } = self {
            assert(self@.parts[0] == indexed@ && self@.parts[1] == position@);
            if **indexed == *sequence {
                if position.is_local(index) {
                    return Form::Local(index);
                }
                if position.is_next_position(index) {
                    return Form::Local(successor);
                }
            }
        }
        let ghost each = each_with_neighbours(self@.parts, sequence@, index, successor);
        let children = self.children();
        let mut parts: Vec<Form> = Vec::new();
        assert(form_terms(parts@) =~= each.take(0));
        for i in 0..children.len()
            invariant
                each == each_with_neighbours(self@.parts, sequence@, index, successor),
                each.len() == self@.parts.len(),
                children@.len() == self@.parts.len(),
                forall|i: int|
                    0 <= i < children@.len() ==> (#[trigger] children@[i])@ == self@.parts[i],
                form_terms(parts@) == each.take(i as int),
        {
            proof {
                lemma_part_smaller(self@, i as int);
            }
            let part = children[i].with_adjacent_elements(sequence, index, successor);
            push_part(&mut parts, part, Ghost(each), Ghost(i as int));
        }
        assert(each.take(children@.len() as int) =~= each);
        assert(form_terms(parts@).len() == parts@.len());
        self.with_children(parts)
    }
}

/// Once readings disagree, reading more never brings them to agree.
proof fn lemma_agreed_prefix(
    before: Option<Term>,
    own: Seq<(Term, u32)>,
    each: Seq<Seq<(Term, u32)>>,
    i: int,
)
    requires
        0 <= i <= each.len(),
        agreed(before, own + joined(each.take(i))) is None,
    ensures
        agreed(before, own + joined(each)) is None,
    decreases each.len() - i,
{
    if i == each.len() {
        assert(each.take(i) =~= each);
    } else {
        lemma_joined_step(each, i);
        assert(own + joined(each.take(i + 1)) =~= own + joined(each.take(i)) + each[i]);
        lemma_agreed_join(before, own + joined(each.take(i)), each[i]);
        lemma_agreed_prefix(before, own, each, i + 1);
    }
}

} // verus!
