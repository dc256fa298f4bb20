//! What reading neighbours means, and which sequence is read.

use crate::lists::joined;
use crate::normalize::form::{lemma_part_smaller, Shape, Term};
use crate::normalize::indexing::{
    agreed, each_readings, each_with_neighbours, next_position, only_adjacent, own_reading,
    positions_read, reads, readings, sole_sequence, with_neighbours,
};
use crate::normalize::instance::is_within;
use crate::normalize::meaning::{
    holding, is_free_of, lemma_free_of, meaning, meanings, Names, World,
};
use crate::normalize::names::leaf;
use vstd::prelude::*;

verus! {

/// Whether names have no parts anywhere in a form.
pub open spec fn names_are_bare(term: Term) -> bool
    decreases term,
{
    (term.shape is Local ==> term.parts.len() == 0) && forall|i: int|
        0 <= i < term.parts.len() ==> names_are_bare(#[trigger] term.parts[i])
}

/// Whether a position and one is the next position, either way round, and reading a
/// sequence at both gives the elements there.
pub open spec fn reads_neighbours(sequence: int, k: int, world: World) -> bool {
    let one = (world.apply)(Shape::Number(seq!['1']), Seq::empty());
    let here = (world.position)(k);
    let next = (world.position)(k + 1);
    &&& (world.apply)(Shape::Binary(seq!['+']), seq![here, one]) == next
    &&& (world.apply)(Shape::Binary(seq!['+']), seq![one, here]) == next
    &&& (world.apply)(Shape::Index, seq![sequence, here]) == (world.elements)(sequence)[k]
    &&& (world.apply)(Shape::Index, seq![sequence, next]) == (world.elements)(sequence)[k + 1]
}

/// A body that only ever reads a sequence at a position and at the next one comes to
/// the same once it names the two elements instead.
pub proof fn law_neighbours_stand_for_their_positions(
    body: Term,
    source: Term,
    index: u32,
    successor: u32,
    k: int,
    names: Names,
    world: World,
)
    requires
        index != successor,
        names_are_bare(body),
        only_adjacent(body, source, index),
        is_free_of(body, successor),
        is_free_of(source, index),
        is_free_of(source, successor),
        reads_neighbours(meaning(source, names, world), k, world),
    ensures
        ({
            let elements = (world.elements)(meaning(source, names, world));
            meaning(
                with_neighbours(body, source, index, successor),
                holding(holding(names, index, elements[k]), successor, elements[k + 1]),
                world,
            ) == meaning(body, holding(names, index, (world.position)(k)), world)
        }),
    decreases body,
{
    let sequence = meaning(source, names, world);
    let elements = (world.elements)(sequence);
    let here = (world.position)(k);
    let at = holding(names, index, here);
    let with = holding(holding(names, index, elements[k]), successor, elements[k + 1]);
    let name = leaf(Shape::Local(index));
    let one = leaf(Shape::Number(seq!['1']));
    lemma_free_of(source, index, here, names, world);
    if reads(body, source) && body.parts[1] == name {
        assert(meanings(body.parts, at, world) =~= seq![sequence, here]);
    } else if reads(body, source) && next_position(body.parts[1], index) {
        let next = body.parts[1];
        assert(meanings(one.parts, at, world) =~= Seq::<int>::empty());
        let unit = (world.apply)(Shape::Number(seq!['1']), Seq::empty());
        assert(meaning(one, at, world) == unit);
        assert(meaning(name, at, world) == here);
        if next.parts == seq![name, one] {
            assert(next.parts[0] == name && next.parts[1] == one);
            assert(meanings(next.parts, at, world) =~= seq![here, unit]);
        } else {
            assert(next.parts[0] == one && next.parts[1] == name);
            assert(meanings(next.parts, at, world) =~= seq![unit, here]);
        }
        assert(meaning(next, at, world) == (world.position)(k + 1));
        assert(meanings(body.parts, at, world) =~= seq![sequence, (world.position)(k + 1)]);
    } else {
        if body.shape == Shape::Local(index) {
            assert(body.parts =~= Seq::<Term>::empty());
            assert(body == name);
        }
        let parts = each_with_neighbours(body.parts, source, index, successor);
        assert forall|i: int| 0 <= i < body.parts.len() implies meaning(
            #[trigger] parts[i],
            with,
            world,
        ) == meaning(body.parts[i], at, world) by {
            lemma_part_smaller(body, i);
            assert(only_adjacent(body.parts[i], source, index));
            assert(is_free_of(body.parts[i], successor));
            assert(names_are_bare(body.parts[i]));
            law_neighbours_stand_for_their_positions(
                body.parts[i],
                source,
                index,
                successor,
                k,
                names,
                world,
            );
            assert(parts[i] == with_neighbours(body.parts[i], source, index, successor));
        }
        assert(meanings(parts, with, world) =~= meanings(body.parts, at, world));
    }
}

proof fn lemma_joined_holds<A>(lists: Seq<Seq<A>>, value: A)
    ensures
        joined(lists).contains(value) <==> exists|i: int|
            0 <= i < lists.len() && (#[trigger] lists[i]).contains(value),
    decreases lists.len(),
{
    if lists.len() > 0 {
        let before = joined(lists.drop_last());
        let all = joined(lists);
        let last = lists[lists.len() - 1];
        lemma_joined_holds(lists.drop_last(), value);
        if all.contains(value) {
            let k = choose|k: int| 0 <= k < all.len() && all[k] == value;
            if k < before.len() {
                assert(before[k] == value);
                let i = choose|i: int|
                    0 <= i < lists.drop_last().len() && (#[trigger] lists.drop_last()[i]).contains(
                        value,
                    );
                assert(lists[i].contains(value));
            } else {
                assert(last[k - before.len()] == value);
                assert(lists[lists.len() - 1].contains(value));
            }
        }
        if exists|i: int| 0 <= i < lists.len() && (#[trigger] lists[i]).contains(value) {
            let i = choose|i: int| 0 <= i < lists.len() && (#[trigger] lists[i]).contains(value);
            if i == lists.len() - 1 {
                let k = choose|k: int| 0 <= k < last.len() && last[k] == value;
                assert(all[before.len() + k] == value);
            } else {
                assert(lists.drop_last()[i].contains(value));
                let k = choose|k: int| 0 <= k < before.len() && before[k] == value;
                assert(all[k] == value);
            }
        }
    }
}

/// Whether a form reads a sequence at a named position.
pub open spec fn is_reading(part: Term, sequence: Term, position: u32) -> bool {
    part.shape is Index && part.parts.len() == 2 && part.parts[0] == sequence
        && part.parts[1].shape == Shape::Local(position)
}

proof fn lemma_readings(term: Term, positions: Seq<u32>, sequence: Term, position: u32)
    ensures
        readings(term, positions).contains((sequence, position)) <==> positions.contains(position)
            && exists|part: Term| #[trigger]
            is_within(part, term) && is_reading(part, sequence, position),
    decreases term,
{
    let value = (sequence, position);
    let own = own_reading(term, positions);
    let inner = each_readings(term.parts, positions);
    let all = readings(term, positions);
    lemma_joined_holds(inner, value);
    assert forall|i: int| 0 <= i < term.parts.len() implies ((#[trigger] inner[i]).contains(value)
        <==> positions.contains(position) && exists|part: Term| #[trigger]
        is_within(part, term.parts[i]) && is_reading(part, sequence, position)) by {
        lemma_part_smaller(term, i);
        lemma_readings(term.parts[i], positions, sequence, position);
    }
    if all.contains(value) {
        let k = choose|k: int| 0 <= k < all.len() && all[k] == value;
        if k < own.len() {
            assert(own[k] == value);
            assert(is_within(term, term));
            assert(is_reading(term, sequence, position));
        } else {
            assert(joined(inner)[k - own.len()] == value);
            let i = choose|i: int| 0 <= i < inner.len() && (#[trigger] inner[i]).contains(value);
            assert(inner[i].contains(value));
            let part = choose|part: Term| #[trigger]
                is_within(part, term.parts[i]) && is_reading(part, sequence, position);
            assert(is_within(part, term));
        }
    }
    if positions.contains(position) && exists|part: Term| #[trigger]
        is_within(part, term) && is_reading(part, sequence, position) {
        let part = choose|part: Term| #[trigger]
            is_within(part, term) && is_reading(part, sequence, position);
        if part == term {
            assert(own =~= seq![value]);
            assert(all[0] == value);
        } else {
            let i = choose|i: int|
                0 <= i < term.parts.len() && is_within(part, #[trigger] term.parts[i]);
            assert(inner[i].contains(value));
            let rest = joined(inner);
            let k = choose|k: int| 0 <= k < rest.len() && rest[k] == value;
            assert(all[own.len() + k] == value);
        }
    }
}

proof fn lemma_agreed(list: Seq<(Term, u32)>)
    ensures
        match agreed(None, list) {
            Some(Some(sequence)) => list.len() > 0 && forall|i: int|
                0 <= i < list.len() ==> (#[trigger] list[i]).0 == sequence,
            Some(None) => list.len() == 0,
            None => exists|i: int, j: int|
                0 <= i < list.len() && 0 <= j < list.len() && (#[trigger] list[i]).0 != (
                #[trigger] list[j]).0,
        },
    decreases list.len(),
{
    if list.len() > 0 {
        let before = list.drop_last();
        lemma_agreed(before);
        match agreed(None, before) {
            None => {
                let (i, j) = choose|i: int, j: int|
                    0 <= i < before.len() && 0 <= j < before.len() && (#[trigger] before[i]).0 != (
                    #[trigger] before[j]).0;
                assert(list[i].0 != list[j].0);
            },
            Some(None) => {},
            Some(Some(sequence)) => {
                assert(before[0] == list[0]);
                assert(before[0].0 == sequence);
                if sequence != list.last().0 {
                    assert(list[0].0 != list[list.len() - 1].0);
                } else {
                    assert forall|i: int| 0 <= i < list.len() implies (#[trigger] list[i]).0
                        == sequence by {
                        if i < before.len() {
                            assert(before[i].0 == sequence);
                        }
                    }
                }
            },
        }
    }
}

/// The sequence a body is found to read is the only one it reads at the named
/// positions, and it reads it at each of them.
pub proof fn law_the_sole_sequence_is_the_only_one_read(
    term: Term,
    positions: Seq<u32>,
    sequence: Term,
    part: Term,
    other: Term,
    position: u32,
)
    requires
        sole_sequence(term, positions) == Some(sequence),
        positions.contains(position),
    ensures
        is_within(part, term) && is_reading(part, other, position) ==> other == sequence,
        exists|found: Term| #[trigger]
            is_within(found, term) && is_reading(found, sequence, position),
{
    let read = readings(term, positions);
    lemma_agreed(read);
    lemma_readings(term, positions, other, position);
    if is_within(part, term) && is_reading(part, other, position) {
        let k = choose|k: int| 0 <= k < read.len() && read[k] == (other, position);
        assert(read[k].0 == sequence);
    }
    let j = choose|j: int| 0 <= j < positions.len() && positions[j] == position;
    assert(positions_read(read).contains(positions[j]));
    let k = choose|k: int| 0 <= k < read.len() && positions_read(read)[k] == position;
    assert(read[k].0 == sequence);
    assert(read[k] == (sequence, position));
    assert(read.contains((sequence, position)));
    lemma_readings(term, positions, sequence, position);
}

} // verus!
