//! What walks come to, and that the laws of iteration leave it as it is.

use crate::normalize::form::{lemma_part_smaller, Coverage, Direction, PatternTerm, Shape, Term};
use crate::lists::{joined, lemma_joined_step};
use crate::normalize::indexing::{
    each_with_elements, indexed_local, indexes_into, next_position, only_indexed, reads_at,
    with_elements, writes_into,
};
use crate::normalize::instance::is_within;
use crate::normalize::measure::mentions_local;
use crate::normalize::laws::{
    covers_pairs, each_escapes, each_substituted, each_wrapped, element_traversal, escaped,
    escapes, fused, length_of, optional_search, pairwise, recovered, returned_sequence, searched,
    substituted, traversed, whole_span, wrapped,
};
use crate::normalize::names::leaf;
use crate::normalize::values::{value_of, Holding};
use vstd::prelude::*;
use vstd::string::*;

verus! {

/// What the operations of a form do to values, which are known by numbers: what an
/// operation gives for the values of its parts, the elements of a value, whether it
/// holds, and the value that is a position.
pub struct World {
    pub apply: spec_fn(Shape, Seq<int>) -> int,
    pub elements: spec_fn(int) -> Seq<int>,
    pub holds: spec_fn(int) -> bool,
    pub position: spec_fn(int) -> int,
}

/// What names hold.
pub type Names = spec_fn(u32) -> int;

/// Names, one of which holds a value.
pub open spec fn holding(names: Names, index: u32, value: int) -> Names {
    |i: u32|
        if i == index {
            value
        } else {
            names(i)
        }
}

/// What a form comes to.
pub open spec fn meaning(term: Term, names: Names, world: World) -> int
    decreases term,
{
    match term.shape {
        Shape::Local(index) => names(index),
        _ => (world.apply)(term.shape, meanings(term.parts, names, world)),
    }
}

/// What several forms come to.
pub open spec fn meanings(terms: Seq<Term>, names: Names, world: World) -> Seq<int>
    decreases terms,
{
    Seq::new(
        terms.len(),
        |i: int|
            if 0 <= i < terms.len() {
                meaning(terms[i], names, world)
            } else {
                0
            },
    )
}

/// Whether a form does not name a local anywhere.
pub open spec fn is_free_of(term: Term, index: u32) -> bool
    decreases term,
{
    term.shape != Shape::Local(index) && forall|i: int|
        0 <= i < term.parts.len() ==> is_free_of(#[trigger] term.parts[i], index)
}

/// What a form comes to does not depend on what it does not name.
pub(crate) proof fn lemma_free_of(term: Term, index: u32, value: int, names: Names, world: World)
    requires
        is_free_of(term, index),
    ensures
        meaning(term, holding(names, index, value), world) == meaning(term, names, world),
    decreases term,
{
    let other = holding(names, index, value);
    assert forall|i: int| 0 <= i < term.parts.len() implies meaning(
        #[trigger] term.parts[i],
        other,
        world,
    ) == meaning(term.parts[i], names, world) by {
        lemma_part_smaller(term, i);
        lemma_free_of(term.parts[i], index, value, names, world);
    }
    assert(meanings(term.parts, other, world) =~= meanings(term.parts, names, world));
}

/// Replacing a name by a form gives what the name gives that holds what the form
/// comes to.
pub proof fn law_substituting_is_holding(
    term: Term,
    index: u32,
    value: Term,
    names: Names,
    world: World,
)
    ensures
        meaning(substituted(term, index, value), names, world) == meaning(
            term,
            holding(names, index, meaning(value, names, world)),
            world,
        ),
    decreases term,
{
    let held = holding(names, index, meaning(value, names, world));
    if term.shape != Shape::Local(index) {
        let parts = each_substituted(term.parts, index, value);
        assert forall|i: int| 0 <= i < term.parts.len() implies meaning(
            #[trigger] parts[i],
            names,
            world,
        ) == meaning(term.parts[i], held, world) by {
            lemma_part_smaller(term, i);
            law_substituting_is_holding(term.parts[i], index, value, names, world);
            assert(parts[i] == substituted(term.parts[i], index, value));
        }
        assert(meanings(parts, names, world) =~= meanings(term.parts, held, world));
    }
}

/// The one name a pattern gives.
pub open spec fn sole_name(pattern: PatternTerm) -> u32 {
    pattern.kind->Binding_0
}

/// What a form hands out where it hands out something or nothing: `Some` of a value,
/// `None`, or a choice between such.
pub open spec fn handed(term: Term, names: Names, world: World) -> Option<int>
    decreases term,
{
    if term.shape is Branch && term.parts.len() == 3 {
        if (world.holds)(meaning(term.parts[0], names, world)) {
            handed(term.parts[1], names, world)
        } else {
            handed(term.parts[2], names, world)
        }
    } else if term.shape == Shape::Variant("Some"@) && term.parts.len() == 1 {
        Some(meaning(term.parts[0], names, world))
    } else {
        None
    }
}

/// Those of several values for which something is handed out, as what is.
pub open spec fn all_handed(
    items: Seq<int>,
    index: u32,
    body: Term,
    names: Names,
    world: World,
) -> Seq<int>
    decreases items.len(),
{
    if items.len() == 0 {
        Seq::empty()
    } else {
        let before = all_handed(items.drop_last(), index, body, names, world);
        match handed(body, holding(names, index, items.last()), world) {
            Some(value) => before.push(value),
            None => before,
        }
    }
}

/// Those of several values that pass a test.
pub open spec fn all_passing(
    items: Seq<int>,
    index: u32,
    test: Term,
    names: Names,
    world: World,
) -> Seq<int>
    decreases items.len(),
{
    if items.len() == 0 {
        Seq::empty()
    } else {
        let before = all_passing(items.drop_last(), index, test, names, world);
        if (world.holds)(meaning(test, holding(names, index, items.last()), world)) {
            before.push(items.last())
        } else {
            before
        }
    }
}

/// The elements of a form: those that pass the test of what was filtered, what each
/// becomes in what was mapped, what is handed out for each in what was sifted, and
/// the elements of what it comes to otherwise.
pub open spec fn elements_of(term: Term, names: Names, world: World) -> Seq<int>
    decreases term,
{
    match term.shape {
        Shape::Retain(item) if item.kind is Binding && term.parts.len() == 2 => all_passing(
            elements_of(term.parts[0], names, world),
            sole_name(item),
            term.parts[1],
            names,
            world,
        ),
        Shape::Transform(item) if item.kind is Binding && term.parts.len() == 2 => {
            let items = elements_of(term.parts[0], names, world);
            Seq::new(
                items.len(),
                |i: int|
                    meaning(term.parts[1], holding(names, sole_name(item), items[i]), world),
            )
        },
        Shape::Sift(item) if item.kind is Binding && term.parts.len() == 2 => all_handed(
            elements_of(term.parts[0], names, world),
            sole_name(item),
            term.parts[1],
            names,
            world,
        ),
        _ => (world.elements)(meaning(term, names, world)),
    }
}

/// Mapping what was filtered has the elements it had, once it is one pass.
pub proof fn law_fusing_keeps_the_elements(term: Term, names: Names, world: World)
    requires
        fused(term) is Some,
        ({
            let mapped = sole_name(term.shape->Transform_0);
            let tested = sole_name(term.parts[0].shape->Retain_0);
            mapped == tested || is_free_of(term.parts[1], tested)
        }),
    ensures
        elements_of(fused(term)->0, names, world) == elements_of(term, names, world),
{
    let mapped = sole_name(term.shape->Transform_0);
    let tested = sole_name(term.parts[0].shape->Retain_0);
    let source = term.parts[0].parts[0];
    let test = term.parts[0].parts[1];
    let produce = term.parts[1];
    let after = fused(term)->0;
    let items = elements_of(source, names, world);
    let body = after.parts[1];
    assert(after.parts[0] == source);
    assert(body.parts[0] == test);
    lemma_fused_items(items, mapped, tested, test, produce, body, names, world);
    assert(elements_of(term.parts[0], names, world) == all_passing(
        items,
        tested,
        test,
        names,
        world,
    ));
}

proof fn lemma_fused_items(
    items: Seq<int>,
    mapped: u32,
    tested: u32,
    test: Term,
    produce: Term,
    body: Term,
    names: Names,
    world: World,
)
    requires
        mapped == tested || is_free_of(produce, tested),
        body.shape is Branch,
        body.parts.len() == 3,
        body.parts[0] == test,
        body.parts[1].shape == Shape::Variant("Some"@),
        body.parts[1].parts == seq![substituted(produce, mapped, leaf(Shape::Local(tested)))],
        body.parts[2].shape == Shape::Variant("None"@),
        body.parts[2].parts.len() == 0,
    ensures
        ({
            let kept = all_passing(items, tested, test, names, world);
            all_handed(items, tested, body, names, world) =~= Seq::new(
                kept.len(),
                |i: int| meaning(produce, holding(names, mapped, kept[i]), world),
            )
        }),
    decreases items.len(),
{
    if items.len() > 0 {
        lemma_fused_items(
            items.drop_last(),
            mapped,
            tested,
            test,
            produce,
            body,
            names,
            world,
        );
        let x = items.last();
        let inner = holding(names, tested, x);
        let value = substituted(produce, mapped, leaf(Shape::Local(tested)));
        law_substituting_is_holding(
            produce,
            mapped,
            leaf(Shape::Local(tested)),
            inner,
            world,
        );
        assert(meaning(leaf(Shape::Local(tested)), inner, world) == x);
        if mapped != tested {
            lemma_free_of(produce, tested, x, holding(names, mapped, x), world);
            assert(holding(holding(names, mapped, x), tested, x) =~= holding(inner, mapped, x));
        } else {
            assert(holding(inner, mapped, x) =~= holding(names, mapped, x));
        }
        assert(meaning(value, inner, world) == meaning(
            produce,
            holding(names, mapped, x),
            world,
        ));
        reveal_strlit("Some");
        reveal_strlit("None");
        assert("Some"@[0] == 'S' && "None"@[0] == 'N');
        reveal_with_fuel(handed, 2);
        assert(handed(body.parts[1], inner, world) == Some(meaning(value, inner, world)));
        assert(handed(body.parts[2], inner, world) is None);
    }
}

/// The elements of a walk in the order it reaches them.
pub open spec fn reached(items: Seq<int>, direction: Direction) -> Seq<int> {
    match direction {
        Direction::Forward => items,
        Direction::Backward => items.reverse(),
    }
}

/// What a body leaves a walk with, where it leaves it.
pub open spec fn leaves_with(body: Term, names: Names, world: World) -> Option<int>
    decreases body,
{
    if body.shape is Return && body.parts.len() == 1 {
        Some(meaning(body.parts[0], names, world))
    } else if body.shape is Branch && 2 <= body.parts.len() <= 3 {
        if (world.holds)(meaning(body.parts[0], names, world)) {
            leaves_with(body.parts[1], names, world)
        } else if body.parts.len() == 3 {
            leaves_with(body.parts[2], names, world)
        } else {
            None
        }
    } else {
        None
    }
}

/// What a walk over several values is left with: by the first of them, from a place
/// on, that it is left by.
pub open spec fn left_with(
    items: Seq<int>,
    i: int,
    index: u32,
    body: Term,
    names: Names,
    world: World,
) -> Option<int>
    decreases items.len() - i,
{
    if i < 0 || i >= items.len() {
        None
    } else {
        match leaves_with(body, holding(names, index, items[i]), world) {
            Some(value) => Some(value),
            None => left_with(items, i + 1, index, body, names, world),
        }
    }
}

/// What a walk finds: what it is left with.
pub open spec fn found(walk: Term, names: Names, world: World) -> Option<int> {
    match walk.shape {
        Shape::Traverse(item, direction) if item.kind is Binding && walk.parts.len() == 2 =>
            left_with(
                reached(elements_of(walk.parts[0], names, world), direction),
                0,
                sole_name(item),
                walk.parts[1],
                names,
                world,
            ),
        _ => None,
    }
}

/// The first element that passes is the first of those that do.
proof fn lemma_first_passing(
    items: Seq<int>,
    i: int,
    index: u32,
    test: Term,
    body: Term,
    names: Names,
    world: World,
)
    requires
        0 <= i <= items.len(),
        body.shape is Branch,
        body.parts.len() == 2,
        body.parts[0] == test,
        body.parts[1].shape is Return,
        body.parts[1].parts == seq![leaf(Shape::Local(index))],
        forall|j: int|
            0 <= j < i ==> !(world.holds)(
                meaning(test, holding(names, index, #[trigger] items[j]), world),
            ),
    ensures
        match left_with(items, i, index, body, names, world) {
            Some(value) => exists|k: int|
                i <= k < items.len() && #[trigger] items[k] == value && (world.holds)(
                    meaning(test, holding(names, index, items[k]), world),
                ) && forall|j: int|
                    0 <= j < k ==> !(world.holds)(
                        meaning(test, holding(names, index, #[trigger] items[j]), world),
                    ),
            None => forall|j: int|
                0 <= j < items.len() ==> !(world.holds)(
                    meaning(test, holding(names, index, #[trigger] items[j]), world),
                ),
        },
    decreases items.len() - i,
{
    if i < items.len() {
        let inner = holding(names, index, items[i]);
        reveal_with_fuel(leaves_with, 2);
        assert(meaning(leaf(Shape::Local(index)), inner, world) == items[i]);
        if (world.holds)(meaning(test, inner, world)) {
            assert(leaves_with(body, inner, world) == Some(items[i]));
            assert(items[i] == items[i]);
        } else {
            assert(leaves_with(body, inner, world) is None);
            lemma_first_passing(items, i + 1, index, test, body, names, world);
        }
    }
}

/// Whether a value is the first of several that passes a test.
pub open spec fn is_first_passing(
    items: Seq<int>,
    value: int,
    index: u32,
    test: Term,
    names: Names,
    world: World,
) -> bool {
    exists|k: int|
        0 <= k < items.len() && #[trigger] items[k] == value && (world.holds)(
            meaning(test, holding(names, index, items[k]), world),
        ) && forall|j: int|
            0 <= j < k ==> !(world.holds)(
                meaning(test, holding(names, index, #[trigger] items[j]), world),
            )
}

/// Whether a value is the last of several that passes a test.
pub open spec fn is_last_passing(
    items: Seq<int>,
    value: int,
    index: u32,
    test: Term,
    names: Names,
    world: World,
) -> bool {
    exists|k: int|
        0 <= k < items.len() && #[trigger] items[k] == value && (world.holds)(
            meaning(test, holding(names, index, items[k]), world),
        ) && forall|j: int|
            k < j < items.len() ==> !(world.holds)(
                meaning(test, holding(names, index, #[trigger] items[j]), world),
            )
}

/// Asking for the first of what was filtered is a search that finds the first
/// element that passes; asking for the last is one that finds the last. Where none
/// passes, the search finds nothing and goes on to `None`.
pub proof fn law_a_search_finds_the_first_or_the_last(term: Term, names: Names, world: World)
    requires
        searched(term) is Some,
    ensures
        ({
            let after = searched(term)->0;
            let item = term.parts[0].shape->Retain_0;
            let index = sole_name(item);
            let items = elements_of(term.parts[0].parts[0], names, world);
            let test = term.parts[0].parts[1];
            let result = found(after.parts[0], names, world);
            &&& after.shape is Sequence
            &&& after.parts.len() == 2
            &&& after.parts[1].shape == Shape::Variant("None"@) && after.parts[1].parts.len() == 0
            &&& term.shape == Shape::Method("first"@) || term.shape == Shape::Method("last"@)
            &&& term.shape == Shape::Method("first"@) ==> (result matches Some(value)
                ==> is_first_passing(items, value, index, test, names, world))
            &&& term.shape == Shape::Method("last"@) ==> (result matches Some(value)
                ==> is_last_passing(items, value, index, test, names, world))
            &&& result is None ==> forall|j: int|
                0 <= j < items.len() ==> !(world.holds)(
                    meaning(test, holding(names, index, #[trigger] items[j]), world),
                )
        }),
{
    let after = searched(term)->0;
    let item = term.parts[0].shape->Retain_0;
    let index = sole_name(item);
    let items = elements_of(term.parts[0].parts[0], names, world);
    let test = term.parts[0].parts[1];
    let walk = after.parts[0];
    let body = walk.parts[1];
    let direction = walk.shape->Traverse_1;
    let order = reached(items, direction);
    reveal_strlit("first");
    reveal_strlit("last");
    assert("first"@.len() == 5 && "last"@.len() == 4);
    assert(walk.parts[0] == term.parts[0].parts[0]);
    assert(body.parts[0] == test);
    lemma_first_passing(order, 0, index, test, body, names, world);
    let result = left_with(order, 0, index, body, names, world);
    if term.shape == Shape::Method("last"@) {
        assert(direction == Direction::Backward);
        let n = items.len() as int;
        if let Some(value) = result {
            let k = choose|k: int|
                0 <= k < order.len() && #[trigger] order[k] == value && (world.holds)(
                    meaning(test, holding(names, index, order[k]), world),
                ) && forall|j: int|
                    0 <= j < k ==> !(world.holds)(
                        meaning(test, holding(names, index, #[trigger] order[j]), world),
                    );
            assert(items[n - 1 - k] == value);
            assert forall|j: int| n - 1 - k < j < n implies !(world.holds)(
                meaning(test, holding(names, index, #[trigger] items[j]), world),
            ) by {
                assert(order[n - 1 - j] == items[j]);
            }
        } else {
            assert forall|j: int| 0 <= j < n implies !(world.holds)(
                meaning(test, holding(names, index, #[trigger] items[j]), world),
            ) by {
                assert(order[n - 1 - j] == items[j]);
            }
        }
    } else {
        assert(direction == Direction::Forward);
    }
}

/// Whether a form returns nowhere.
pub open spec fn returns_nowhere(term: Term) -> bool
    decreases term,
{
    !(term.shape is Return) && forall|i: int|
        0 <= i < term.parts.len() ==> returns_nowhere(#[trigger] term.parts[i])
}

/// Whether a form only decides whether to leave, and with what: choices between
/// returning and going on, whose conditions and values return nowhere themselves.
pub open spec fn only_leaves(body: Term) -> bool
    decreases body,
{
    if body.shape is Return {
        body.parts.len() == 1 && returns_nowhere(body.parts[0])
    } else if body.shape is Branch && 2 <= body.parts.len() <= 3 {
        returns_nowhere(body.parts[0]) && only_leaves(body.parts[1]) && (body.parts.len() == 3
            ==> only_leaves(body.parts[2]))
    } else {
        returns_nowhere(body)
    }
}

proof fn lemma_not_wrapped(term: Term)
    requires
        returns_nowhere(term),
    ensures
        wrapped(term) == term,
    decreases term,
{
    let parts = each_wrapped(term.parts);
    assert forall|i: int| 0 <= i < term.parts.len() implies #[trigger] parts[i] == term.parts[i] by {
        lemma_part_smaller(term, i);
        lemma_not_wrapped(term.parts[i]);
    }
    assert(parts =~= term.parts);
}

/// A body whose escapes carry `Some` leaves where it left, with `Some` of what it
/// left with.
proof fn lemma_wrapped_leaves(body: Term, names: Names, world: World)
    requires
        only_leaves(body),
    ensures
        leaves_with(wrapped(body), names, world) == match leaves_with(body, names, world) {
            Some(value) => Some((world.apply)(Shape::Variant("Some"@), seq![value])),
            None => None,
        },
    decreases body,
{
    if body.shape is Return {
        let value = body.parts[0];
        let some = wrapped(body).parts[0];
        assert(some.parts == seq![value]);
        assert(meanings(some.parts, names, world) =~= seq![meaning(value, names, world)]);
    } else if body.shape is Branch && 2 <= body.parts.len() <= 3 {
        let parts = each_wrapped(body.parts);
        lemma_not_wrapped(body.parts[0]);
        lemma_part_smaller(body, 1);
        lemma_wrapped_leaves(body.parts[1], names, world);
        assert(parts[0] == body.parts[0]);
        assert(parts[1] == wrapped(body.parts[1]));
        if body.parts.len() == 3 {
            lemma_part_smaller(body, 2);
            lemma_wrapped_leaves(body.parts[2], names, world);
            assert(parts[2] == wrapped(body.parts[2]));
        }
    } else {
        lemma_not_wrapped(body);
    }
}

proof fn lemma_wrapped_walk(
    items: Seq<int>,
    i: int,
    index: u32,
    body: Term,
    names: Names,
    world: World,
)
    requires
        0 <= i,
        only_leaves(body),
    ensures
        left_with(items, i, index, wrapped(body), names, world) == match left_with(
            items,
            i,
            index,
            body,
            names,
            world,
        ) {
            Some(value) => Some((world.apply)(Shape::Variant("Some"@), seq![value])),
            None => None,
        },
    decreases items.len() - i,
{
    if i < items.len() {
        lemma_wrapped_leaves(body, holding(names, index, items[i]), world);
        lemma_wrapped_walk(items, i + 1, index, body, names, world);
    }
}

/// A search for an optional finds what the walk found, as `Some` of it, and `None`
/// follows it as before.
pub proof fn law_an_optional_search_finds_the_same(term: Term, names: Names, world: World)
    requires
        optional_search(term) is Some,
        only_leaves(term.parts[0].parts[1]),
    ensures
        ({
            let after = optional_search(term)->0;
            &&& found(after.parts[0], names, world) == match found(term.parts[0], names, world) {
                Some(value) => Some((world.apply)(Shape::Variant("Some"@), seq![value])),
                None => None,
            }
            &&& after.shape is Sequence && after.parts.len() == 2 && after.parts[1]
                == term.parts[1]
        }),
{
    let after = optional_search(term)->0;
    let walk = term.parts[0];
    let item = walk.shape->Traverse_0;
    let direction = walk.shape->Traverse_1;
    assert(after.parts[0].parts[0] == walk.parts[0]);
    assert(after.parts[0].parts[1] == wrapped(walk.parts[1]));
    if item.kind is Binding {
        lemma_wrapped_walk(
            reached(elements_of(walk.parts[0], names, world), direction),
            0,
            sole_name(item),
            walk.parts[1],
            names,
            world,
        );
    }
}

/// Whether positions read elements: reading a sequence at a position gives the
/// element there.
pub open spec fn positions_read(world: World) -> bool {
    forall|sequence: int, k: int|
        0 <= k < (world.elements)(sequence).len() ==> (world.apply)(
            Shape::Index,
            seq![sequence, (world.position)(k)],
        ) == #[trigger] (world.elements)(sequence)[k]
}

/// A body that only ever reads a sequence at a position comes to the same once it
/// names the element instead.
pub proof fn law_elements_stand_for_their_positions(
    body: Term,
    source: Term,
    index: u32,
    k: int,
    names: Names,
    world: World,
)
    requires
        positions_read(world),
        only_indexed(body, source, seq![index]),
        is_free_of(source, index),
        0 <= k < (world.elements)(meaning(source, names, world)).len(),
    ensures
        meaning(
            with_elements(body, source, seq![index]),
            holding(names, index, (world.elements)(meaning(source, names, world))[k]),
            world,
        ) == meaning(body, holding(names, index, (world.position)(k)), world),
    decreases body,
{
    let element = (world.elements)(meaning(source, names, world))[k];
    let at = holding(names, index, (world.position)(k));
    let with = holding(names, index, element);
    let positions = seq![index];
    assert(positions[0] == index);
    if reads_at(body, source, positions) {
        lemma_free_of(source, index, (world.position)(k), names, world);
        let found = (indexed_local(body)->0).1;
        assert(found == index) by {
            let j = choose|j: int| 0 <= j < positions.len() && positions[j] == found;
        }
        assert(meanings(body.parts, at, world) =~= seq![
            meaning(source, names, world),
            (world.position)(k),
        ]);
    } else {
        assert(body.shape != Shape::Local(index)) by {
            if body.shape == Shape::Local(index) {
                assert(positions.contains(index));
            }
        }
        let parts = each_with_elements(body.parts, source, positions);
        assert forall|i: int| 0 <= i < body.parts.len() implies meaning(
            #[trigger] parts[i],
            with,
            world,
        ) == meaning(body.parts[i], at, world) by {
            lemma_part_smaller(body, i);
            assert(only_indexed(body.parts[i], source, positions));
            law_elements_stand_for_their_positions(
                body.parts[i],
                source,
                index,
                k,
                names,
                world,
            );
            assert(parts[i] == with_elements(body.parts[i], source, positions));
        }
        assert(meanings(parts, with, world) =~= meanings(body.parts, at, world));
    }
}

/// A loop over all positions of a sequence that only ever reads it there is a walk
/// over its elements, the same way.
pub proof fn law_an_index_loop_walks_the_elements(term: Term)
    requires
        element_traversal(term) is Some,
    ensures
        ({
            let after = element_traversal(term)->0;
            let span = term.parts[0];
            let source = span.parts[1].parts[0];
            &&& after.shape == term.shape
            &&& span.shape == Shape::Span(false)
            &&& span.parts.len() == 2
            &&& span.parts[0] == leaf(Shape::Number("0"@))
            &&& span.parts[1].shape == Shape::Method("len"@) && span.parts[1].parts.len() == 1
            &&& after.parts.len() == 2
            &&& after.parts[0] == source
            &&& (term.shape matches Shape::Traverse(item, _) && item.kind is Binding
                && after.parts[1] == with_elements(term.parts[1], source, seq![sole_name(item)])
                && only_indexed(term.parts[1], source, seq![sole_name(item)]))
        }),
{
}

/// Whether nested loops reach a pair of positions.
pub open spec fn reaches_pair(
    span: Term,
    outer: u32,
    sequence: Term,
    length: int,
    first: int,
    second: int,
) -> bool {
    let held = Holding {
        locals: |i: u32|
            if i == outer {
                first
            } else {
                0
            },
        holes: |i: u32| 0,
    };
    let start = value_of(span.parts[0], held);
    let end = if length_of(span.parts[1]) == Some(sequence) {
        Some(length)
    } else {
        value_of(span.parts[1], held)
    };
    0 <= first < length && start is Some && end is Some && start->0 <= second < end->0
}

/// Nested loops that are read as a walk over pairs reach each two positions of the
/// sequence exactly once, and no position with itself.
pub proof fn law_each_pair_is_reached_once(
    span: Term,
    outer: u32,
    sequence: Term,
    length: int,
    left: int,
    right: int,
)
    requires
        covers_pairs(span, outer, sequence),
        0 <= left < right < length,
    ensures
        reaches_pair(span, outer, sequence, length, left, right) != reaches_pair(
            span,
            outer,
            sequence,
            length,
            right,
            left,
        ),
        !reaches_pair(span, outer, sequence, length, left, left),
        !reaches_pair(span, outer, sequence, length, right, right),
{
    lemma_small_numbers();
    let name = leaf(Shape::Local(outer));
    let one = leaf(Shape::Number(seq!['1']));
    assert forall|at: int|
        0 <= at < length implies #[trigger] reaches_pair(
            span,
            outer,
            sequence,
            length,
            at,
            at,
        ) == false by {
        lemma_pair_bounds(span, outer, sequence, length, at);
    }
    lemma_pair_bounds(span, outer, sequence, length, left);
    lemma_pair_bounds(span, outer, sequence, length, right);
}

proof fn lemma_small_numbers()
    ensures
        crate::text::parsed_integer(seq!['1']) == Some(1int),
        crate::text::parsed_integer("0"@) == Some(0int),
        "+"@ == seq!['+'],
{
    reveal_strlit("0");
    reveal_strlit("+");
    assert("+"@ =~= seq!['+']);
    reveal_with_fuel(crate::text::digits_value, 2);
    assert(seq!['1'].drop_last() =~= Seq::<char>::empty());
    assert("0"@ =~= seq!['0']);
    assert(seq!['0'].drop_last() =~= Seq::<char>::empty());
}

/// Where the inner of two loops over pairs starts and ends.
proof fn lemma_pair_bounds(span: Term, outer: u32, sequence: Term, length: int, at: int)
    requires
        covers_pairs(span, outer, sequence),
        0 <= at < length,
    ensures
        (forall|second: int| #[trigger]
            reaches_pair(span, outer, sequence, length, at, second) == (at < second < length)) || (
        forall|second: int| #[trigger]
            reaches_pair(span, outer, sequence, length, at, second) == (0 <= second < at)),
        next_position(span.parts[0], outer) && length_of(span.parts[1]) == Some(sequence) ==> (
        forall|second: int| #[trigger]
            reaches_pair(span, outer, sequence, length, at, second) == (at < second < length)),
        !(next_position(span.parts[0], outer) && length_of(span.parts[1]) == Some(sequence)) ==> (
        forall|second: int| #[trigger]
            reaches_pair(span, outer, sequence, length, at, second) == (0 <= second < at)),
{
    lemma_small_numbers();
    let held = Holding {
        locals: |i: u32|
            if i == outer {
                at
            } else {
                0
            },
        holes: |i: u32| 0,
    };
    let name = leaf(Shape::Local(outer));
    let one = leaf(Shape::Number(seq!['1']));
    reveal_with_fuel(value_of, 2);
    assert(value_of(name, held) == Some(at));
    assert(value_of(one, held) == Some(1int));
    if next_position(span.parts[0], outer) && length_of(span.parts[1]) == Some(sequence) {
        let start = span.parts[0];
        if start.parts == seq![name, one] {
            assert(start.parts[0] == name && start.parts[1] == one);
        } else {
            assert(start.parts[0] == one && start.parts[1] == name);
        }
        assert(value_of(start, held) == Some(at + 1));
    } else {
        assert(value_of(span.parts[0], held) == Some(0int));
        assert(value_of(span.parts[1], held) == Some(at));
    }
}

/// What is read as a walk over pairs is a forward loop, and walks each pair once.
pub proof fn law_pairs_are_walked_once(term: Term)
    requires
        pairwise(term) is Some,
    ensures
        ({
            let pairs = pairwise(term)->0;
            &&& pairs.shape matches Shape::Pairwise(_, _, Coverage::Once)
            &&& pairs.parts.len() == 2
            &&& term.shape matches Shape::Traverse(_, Direction::Forward)
        }),
{
}

/// A form with a shape and parts.
pub open spec fn made(shape: Shape, parts: Seq<Term>) -> Term {
    Term { shape, parts }
}

/// Breaking out of a fold leaves with what it carries, going on does nothing, and an
/// alternative that does nothing is none.
pub proof fn law_breaking_is_leaving(parts: Seq<Term>, value: Term)
    ensures
        escaped(made(Shape::Variant("Break"@), seq![value])) == Some(
            made(Shape::Return, seq![value]),
        ),
        escaped(made(Shape::Variant("ControlFlow::Break"@), seq![value])) == Some(
            made(Shape::Return, seq![value]),
        ),
        escaped(made(Shape::Variant("Break"@), Seq::empty())) == Some(
            made(Shape::Return, seq![leaf(Shape::Literal)]),
        ),
        escaped(made(Shape::Variant("Continue"@), parts)) == Some(leaf(Shape::Literal)),
        escaped(made(Shape::Variant("Some"@), parts)) is None,
        escaped(made(Shape::Variant("None"@), parts)) is None,
        parts.len() == 3 ==> escaped(made(Shape::Branch, parts)) == if parts[2].shape is Literal {
            Some(made(Shape::Branch, seq![parts[0], parts[1]]))
        } else {
            None
        },
{
    reveal_strlit("Break");
    reveal_strlit("ControlFlow::Break");
    reveal_strlit("Continue");
    reveal_strlit("Some");
    reveal_strlit("None");
    reveal_strlit("::");
    let scoped = "ControlFlow::Break"@;
    assert(scoped.skip(13) =~= "Break"@);
    assert(scoped.take(13).skip(11) =~= "::"@);
    assert(scoped.skip(11) =~= "::"@ + "Break"@);
}

/// A fold that uses no accumulator visits each element, from the first to the last,
/// under the name of its last parameter.
pub proof fn law_a_fold_without_accumulator_is_a_walk(
    name: Seq<char>,
    source: Term,
    accumulator: PatternTerm,
    item: PatternTerm,
    body: Term,
)
    requires
        name == "fold"@ || name == "try_fold"@ || name == "try_for_each"@,
    ensures
        traversed(
            made(
                Shape::Method(name),
                seq![
                    source,
                    leaf(Shape::Literal),
                    made(Shape::Lambda(seq![accumulator, item]), seq![body]),
                ],
            ),
        ) == Some(made(Shape::Traverse(item, Direction::Forward), seq![source, body])),
{
    let lambda = made(Shape::Lambda(seq![accumulator, item]), seq![body]);
    let term = made(Shape::Method(name), seq![source, leaf(Shape::Literal), lambda]);
    assert(term.parts[0] == source && term.parts[1] == leaf(Shape::Literal) && term.parts[2]
        == lambda);
    assert(lambda.parts[0] == body);
    assert(seq![accumulator, item].last() == item);
}

/// Returning what steps produce is taking them and returning what the last produces.
pub proof fn law_returning_steps_returns_the_last(steps: Seq<Term>)
    requires
        steps.len() >= 2,
    ensures
        ({
            let after = returned_sequence(
                made(Shape::Return, seq![made(Shape::Sequence, steps)]),
            );
            after matches Some(after) && after.shape is Sequence && after.parts.len()
                == steps.len() && (forall|i: int|
                0 <= i < steps.len() - 1 ==> #[trigger] after.parts[i] == steps[i])
                && after.parts.last() == made(Shape::Return, seq![steps.last()])
        }),
{
    let block = made(Shape::Sequence, steps);
    assert(seq![block][0] == block);
}

/// Asking a walk for the value it broke with is leaving it with `Some` of that value,
/// and `None` where it was not left.
pub proof fn law_recovering_is_leaving_with_some(walk: Term, names: Names, world: World)
    requires
        walk.shape matches Shape::Traverse(item, _) && item.kind is Binding,
        walk.parts.len() == 2,
        returns_nowhere(walk.parts[0]),
        only_leaves(walk.parts[1]),
    ensures
        ({
            let after = recovered(made(Shape::Method("break_value"@), seq![walk]));
            after matches Some(after) && after.shape is Sequence && after.parts.len() == 2
                && after.parts[1].shape == Shape::Variant("None"@) && after.parts[1].parts.len()
                == 0 && found(after.parts[0], names, world) == match found(walk, names, world) {
                Some(value) => Some((world.apply)(Shape::Variant("Some"@), seq![value])),
                None => None,
            }
        }),
{
    let term = made(Shape::Method("break_value"@), seq![walk]);
    assert(term.parts[0] == walk);
    let after = recovered(term)->0;
    let next = after.parts[0];
    lemma_not_wrapped(walk.parts[0]);
    assert(next.parts[0] == walk.parts[0]);
    assert(next.parts[1] == wrapped(walk.parts[1]));
    let item = walk.shape->Traverse_0;
    let direction = walk.shape->Traverse_1;
    lemma_wrapped_walk(
        reached(elements_of(walk.parts[0], names, world), direction),
        0,
        sole_name(item),
        walk.parts[1],
        names,
        world,
    );
}

/// What was filtered and then mapped is always one pass, and what is asked for its
/// first or last survivor always a search.
pub proof fn law_passes_over_survivors_are_found(
    tested: PatternTerm,
    mapped: PatternTerm,
    source: Term,
    test: Term,
    produce: Term,
)
    requires
        tested.kind is Binding,
        mapped.kind is Binding,
    ensures
        ({
            let kept = made(Shape::Retain(tested), seq![source, test]);
            &&& fused(made(Shape::Transform(mapped), seq![kept, produce])) is Some
            &&& searched(made(Shape::Method("first"@), seq![kept])) is Some
            &&& searched(made(Shape::Method("last"@), seq![kept])) is Some
        }),
{
    let kept = made(Shape::Retain(tested), seq![source, test]);
    assert(made(Shape::Transform(mapped), seq![kept, produce]).parts[0] == kept);
    assert(made(Shape::Method("first"@), seq![kept]).parts[0] == kept);
    assert(made(Shape::Method("last"@), seq![kept]).parts[0] == kept);
}

proof fn lemma_nothing_joined<A>(lists: Seq<Seq<A>>)
    requires
        forall|i: int| 0 <= i < lists.len() ==> (#[trigger] lists[i]).len() == 0,
    ensures
        joined(lists).len() == 0,
    decreases lists.len(),
{
    if lists.len() > 0 {
        lemma_nothing_joined(lists.drop_last());
        assert(lists[lists.len() - 1].len() == 0);
    }
}

proof fn lemma_no_escapes(term: Term)
    requires
        returns_nowhere(term),
    ensures
        escapes(term).len() == 0,
    decreases term,
{
    let inner = each_escapes(term.parts);
    assert forall|i: int| 0 <= i < inner.len() implies (#[trigger] inner[i]).len() == 0 by {
        lemma_part_smaller(term, i);
        assert(returns_nowhere(term.parts[i]));
        lemma_no_escapes(term.parts[i]);
    }
    lemma_nothing_joined(inner);
}

/// A walk that leaves with a value where a test passes, and goes on to `None`
/// otherwise, searches for an optional. It is left as it is where the value it leaves
/// with is optional already.
pub proof fn law_an_optional_search_is_found_once(
    item: PatternTerm,
    direction: Direction,
    source: Term,
    test: Term,
    value: Term,
)
    requires
        returns_nowhere(test),
        returns_nowhere(value),
    ensures
        ({
            let leaving = made(Shape::Branch, seq![test, made(Shape::Return, seq![value])]);
            let walk = made(Shape::Traverse(item, direction), seq![source, leaving]);
            let none = made(Shape::Variant("None"@), Seq::empty());
            optional_search(made(Shape::Sequence, seq![walk, none])) is Some <==> value.shape
                != Shape::Variant("Some"@)
        }),
{
    let back = made(Shape::Return, seq![value]);
    let leaving = made(Shape::Branch, seq![test, back]);
    let walk = made(Shape::Traverse(item, direction), seq![source, leaving]);
    let none = made(Shape::Variant("None"@), Seq::empty());
    let term = made(Shape::Sequence, seq![walk, none]);
    assert(term.parts[0] == walk && term.parts[1] == none);
    assert(walk.parts[1] == leaving);
    lemma_no_escapes(test);
    lemma_no_escapes(value);
    assert(back.parts[0] == value);
    let deeper = each_escapes(back.parts);
    assert(deeper.len() == 1 && deeper[0].len() == 0);
    lemma_nothing_joined(deeper);
    assert(escapes(back) =~= seq![value]);
    let inner = each_escapes(leaving.parts);
    assert(inner.len() == 2);
    assert(leaving.parts[0] == test && leaving.parts[1] == back);
    assert(inner[0] =~= Seq::<Term>::empty());
    assert(inner[1] == seq![value]);
    lemma_joined_step(inner, 0);
    lemma_joined_step(inner, 1);
    assert(inner.take(2) =~= inner);
    assert(inner.take(0) =~= Seq::<Seq<Term>>::empty());
    assert(joined(inner) =~= seq![value]);
    assert(escapes(leaving) =~= seq![value]);
    assert(escapes(leaving)[0] == value);
}

/// Reading into what contains a part that reads reads too.
proof fn lemma_reads_within(part: Term, whole: Term, sequence: Term)
    requires
        is_within(part, whole),
        part.shape is Index,
        part.parts.len() == 2,
        part.parts[0] == sequence,
    ensures
        indexes_into(whole, sequence),
    decreases whole,
{
    if part != whole {
        let i = choose|i: int|
            0 <= i < whole.parts.len() && is_within(part, #[trigger] whole.parts[i]);
        lemma_part_smaller(whole, i);
        lemma_reads_within(part, whole.parts[i], sequence);
    }
}

proof fn lemma_writes_within(part: Term, whole: Term, read: Term, sequence: Term)
    requires
        is_within(part, whole),
        part.shape is Assign,
        part.parts.len() == 2,
        is_within(read, part.parts[0]),
        read.shape is Index,
        read.parts.len() == 2,
        read.parts[0] == sequence,
    ensures
        writes_into(whole, sequence),
    decreases whole,
{
    if part == whole {
        lemma_reads_within(read, part.parts[0], sequence);
    } else {
        let i = choose|i: int|
            0 <= i < whole.parts.len() && is_within(part, #[trigger] whole.parts[i]);
        lemma_part_smaller(whole, i);
        lemma_writes_within(part, whole.parts[i], read, sequence);
    }
}

/// A loop over the positions of a sequence whose body writes into it anywhere is no
/// walk over its elements.
pub proof fn law_a_loop_that_writes_is_no_walk(
    item: PatternTerm,
    direction: Direction,
    sequence: Term,
    body: Term,
    write: Term,
    read: Term,
)
    requires
        is_within(write, body),
        write.shape is Assign,
        write.parts.len() == 2,
        is_within(read, write.parts[0]),
        read.shape is Index,
        read.parts.len() == 2,
        read.parts[0] == sequence,
    ensures
        element_traversal(
            made(Shape::Traverse(item, direction), seq![positions_of(sequence), body]),
        ) is None,
{
    let span = positions_of(sequence);
    let term = made(Shape::Traverse(item, direction), seq![span, body]);
    assert(term.parts[0] == span && term.parts[1] == body);
    assert(span.parts[1].parts[0] == sequence);
    lemma_writes_within(write, body, read, sequence);
}

/// All positions of a sequence: from zero to its length.
pub open spec fn positions_of(sequence: Term) -> Term {
    made(
        Shape::Span(false),
        seq![
            made(Shape::Number("0"@), Seq::empty()),
            made(Shape::Method("len"@), seq![sequence]),
        ],
    )
}

/// A named form.
pub open spec fn named(index: u32) -> Term {
    made(Shape::Local(index), Seq::empty())
}

/// A sequence read at a position.
pub open spec fn read_at(sequence: Term, position: Term) -> Term {
    made(Shape::Index, seq![sequence, position])
}

/// A loop over all positions of a sequence that reads the element there, and does
/// one thing with it, is a walk over the elements that does it with each.
pub proof fn law_a_loop_that_reads_is_a_walk(
    item: PatternTerm,
    direction: Direction,
    sequence: u32,
    shape: Shape,
)
    requires
        item.kind is Binding,
        sequence != sole_name(item),
        !(shape is Local),
    ensures
        ({
            let read = read_at(named(sequence), named(sole_name(item)));
            element_traversal(
                made(
                    Shape::Traverse(item, direction),
                    seq![positions_of(named(sequence)), made(shape, seq![read])],
                ),
            ) == Some(
                made(
                    Shape::Traverse(item, direction),
                    seq![named(sequence), made(shape, seq![named(sole_name(item))])],
                ),
            )
        }),
{
    let source = named(sequence);
    let index = sole_name(item);
    let name = named(index);
    let read = read_at(source, name);
    let body = made(shape, seq![read]);
    let span = positions_of(source);
    let term = made(Shape::Traverse(item, direction), seq![span, body]);
    let at = seq![index];
    assert(at[0] == index);
    assert(term.parts[0] == span && term.parts[1] == body);
    assert(span.parts[1].parts[0] == source);
    assert(body.parts[0] == read);
    assert(read.parts[0] == source && read.parts[1] == name);
    assert(reads_at(read, source, at));
    assert(only_indexed(read, source, at));
    assert(!reads_at(body, source, at));
    assert(only_indexed(body, source, at));
    assert(!writes_into(source, source));
    assert(!writes_into(name, source));
    assert(!writes_into(read, source)) by {
        assert forall|i: int| 0 <= i < read.parts.len() implies !writes_into(
            #[trigger] read.parts[i],
            source,
        ) by {}
    }
    assert(!writes_into(body, source)) by {
        assert forall|i: int| 0 <= i < body.parts.len() implies !writes_into(
            #[trigger] body.parts[i],
            source,
        ) by {}
    }
    assert(with_elements(read, source, at) == name);
    assert(each_with_elements(body.parts, source, at) =~= seq![name]);
}

/// Loops over all positions of a sequence and, inside, over those after the outer one
/// or those before it, that do one thing with both elements, walk over its pairs.
pub proof fn law_nested_loops_walk_pairs(
    first: PatternTerm,
    second: PatternTerm,
    sequence: u32,
    shape: Shape,
)
    requires
        first.kind is Binding,
        second.kind is Binding,
        sequence != sole_name(first),
        sequence != sole_name(second),
        !(shape is Local),
        !(shape is Assign),
        !(shape is Index),
    ensures
        ({
            let left = named(sole_name(first));
            let right = named(sole_name(second));
            let source = named(sequence);
            let body = made(shape, seq![read_at(source, left), read_at(source, right)]);
            let one = made(Shape::Number(seq!['1']), Seq::empty());
            let zero = made(Shape::Number("0"@), Seq::empty());
            let after = made(
                Shape::Span(false),
                seq![
                    made(Shape::Binary(seq!['+']), seq![left, one]),
                    made(Shape::Method("len"@), seq![source]),
                ],
            );
            let before = made(Shape::Span(false), seq![zero, left]);
            let pairs = made(
                Shape::Pairwise(first, second, Coverage::Once),
                seq![source, made(shape, seq![left, right])],
            );
            &&& pairwise(nested(positions_of(source), first, after, second, body)) == Some(pairs)
            &&& pairwise(nested(positions_of(source), first, before, second, body)) == Some(pairs)
        }),
{
    let left = named(sole_name(first));
    let right = named(sole_name(second));
    let source = named(sequence);
    let body = made(shape, seq![read_at(source, left), read_at(source, right)]);
    let one = made(Shape::Number(seq!['1']), Seq::empty());
    let zero = made(Shape::Number("0"@), Seq::empty());
    let next = made(Shape::Binary(seq!['+']), seq![left, one]);
    let length = made(Shape::Method("len"@), seq![source]);
    let after = made(Shape::Span(false), seq![next, length]);
    let before = made(Shape::Span(false), seq![zero, left]);
    let at = seq![sole_name(first), sole_name(second)];
    let span = positions_of(source);
    assert(at[0] == sole_name(first) && at[1] == sole_name(second));
    assert(span.parts[1] == length && length.parts[0] == source);
    assert(whole_span(span) == Some(source));
    assert(covers_pairs(after, sole_name(first), source));
    assert(covers_pairs(before, sole_name(first), source));
    let reads = body.parts;
    assert(reads[0] == read_at(source, left) && reads[1] == read_at(source, right));
    assert(read_at(source, left).parts[0] == source && read_at(source, left).parts[1] == left);
    assert(read_at(source, right).parts[0] == source && read_at(source, right).parts[1] == right);
    assert(reads_at(reads[0], source, at));
    assert(reads_at(reads[1], source, at));
    assert(only_indexed(reads[0], source, at) && only_indexed(reads[1], source, at));
    assert(only_indexed(body, source, at));
    assert(!writes_into(source, source) && !writes_into(left, source) && !writes_into(
        right,
        source,
    ));
    assert forall|i: int| 0 <= i < reads.len() implies !writes_into(#[trigger] reads[i], source) by {
        let read = reads[i];
        assert forall|j: int| 0 <= j < read.parts.len() implies !writes_into(
            #[trigger] read.parts[j],
            source,
        ) by {}
    }
    assert(!writes_into(body, source));
    assert(with_elements(reads[0], source, at) == left);
    assert(with_elements(reads[1], source, at) == right);
    assert(each_with_elements(reads, source, at) =~= seq![left, right]);
    assert(!reads_at(body, source, at));
    let outer = nested(span, first, after, second, body);
    assert(outer.parts[0] == span);
    assert(outer.parts[1].parts[0] == after && outer.parts[1].parts[1] == body);
    let other = nested(span, first, before, second, body);
    assert(other.parts[0] == span);
    assert(other.parts[1].parts[0] == before && other.parts[1].parts[1] == body);
}

/// A forward loop whose body is a forward loop.
pub open spec fn nested(
    outer: Term,
    first: PatternTerm,
    inner: Term,
    second: PatternTerm,
    body: Term,
) -> Term {
    made(
        Shape::Traverse(first, Direction::Forward),
        seq![outer, made(Shape::Traverse(second, Direction::Forward), seq![inner, body])],
    )
}

/// Enumerated elements, and inside those that follow the position, are walked in
/// pairs where the body does not name the position; where it does they are not.
pub proof fn law_enumerated_loops_walk_pairs(
    first: PatternTerm,
    second: PatternTerm,
    source: Term,
    body: Term,
)
    requires
        first.kind is Tuple,
        first.parts.len() == 2,
        first.parts[0].kind is Binding,
        introduces_nothing(body),
    ensures
        ({
            let position = sole_name(first.parts[0]);
            let one = made(Shape::Number(seq!['1']), Seq::empty());
            let next = made(Shape::Binary(seq!['+']), seq![named(position), one]);
            let outer = made(Shape::Method("enumerate"@), seq![source]);
            let inner = made(Shape::Method("skip"@), seq![source, next]);
            let loops = nested(outer, first, inner, second, body);
            &&& is_free_of(body, position) ==> pairwise(loops) == Some(
                made(
                    Shape::Pairwise(first.parts[1], second, Coverage::Once),
                    seq![source, body],
                ),
            )
            &&& is_within(named(position), body) ==> pairwise(loops) is None
        }),
{
    let position = sole_name(first.parts[0]);
    let one = made(Shape::Number(seq!['1']), Seq::empty());
    let next = made(Shape::Binary(seq!['+']), seq![named(position), one]);
    let outer = made(Shape::Method("enumerate"@), seq![source]);
    let inner = made(Shape::Method("skip"@), seq![source, next]);
    let loops = nested(outer, first, inner, second, body);
    assert(loops.parts[0] == outer);
    assert(loops.parts[1].parts[0] == inner && loops.parts[1].parts[1] == body);
    assert(outer.parts[0] == source);
    assert(inner.parts[0] == source && inner.parts[1] == next);
    assert(next_position(next, position));
    if is_free_of(body, position) {
        lemma_free_is_unmentioned(body, position);
    }
    if is_within(named(position), body) {
        lemma_within_is_mentioned(body, position);
    }
}

/// Whether a form introduces no name anywhere.
pub open spec fn introduces_nothing(term: Term) -> bool
    decreases term,
{
    !(term.shape is Let) && !(term.shape is Traverse) && !(term.shape is Sift) && !(
    term.shape is Transform) && !(term.shape is Retain) && !(term.shape is Pairwise) && forall|
        i: int,
    |
        0 <= i < term.parts.len() ==> introduces_nothing(#[trigger] term.parts[i])
}

proof fn lemma_free_is_unmentioned(term: Term, index: u32)
    requires
        is_free_of(term, index),
        introduces_nothing(term),
    ensures
        !mentions_local(term, index),
    decreases term,
{
    assert forall|i: int| 0 <= i < term.parts.len() implies !mentions_local(
        #[trigger] term.parts[i],
        index,
    ) by {
        lemma_part_smaller(term, i);
        lemma_free_is_unmentioned(term.parts[i], index);
    }
}

proof fn lemma_within_is_mentioned(term: Term, index: u32)
    requires
        is_within(named(index), term),
    ensures
        mentions_local(term, index),
    decreases term,
{
    if term != named(index) {
        let i = choose|i: int|
            0 <= i < term.parts.len() && is_within(named(index), #[trigger] term.parts[i]);
        lemma_part_smaller(term, i);
        lemma_within_is_mentioned(term.parts[i], index);
    }
}

} // verus!
