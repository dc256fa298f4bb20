//! What a lifted search keeps, and what a form's measures count.

use crate::lists::{lemma_greatest_member, lemma_total_member, total};
use crate::normalize::form::{
    lemma_part_smaller, Direction, PatternKind, PatternTerm, Shape, Term,
};
use crate::normalize::instance::is_within;
use crate::normalize::lift::{
    assigns_field, each_walks, hands_back, is_stateful, lifted, retained, sifted, walks, yielded,
};
use crate::normalize::meaning::{made, named, sole_name};
use crate::normalize::measure::{each_depth, each_size, is_work, shape_anchors, term_anchors, term_depth, term_size};
use crate::text::last_segment_is;
use vstd::prelude::*;
use vstd::string::*;

verus! {

/// Whether a form walks nothing and writes through no field, anywhere in it.
pub open spec fn is_quiet(term: Term) -> bool
    decreases term,
{
    !(term.shape is Traverse) && !(term.shape is Transform) && !(term.shape is Sift) && !(
    term.shape is Retain) && !(term.shape is Assign && term.parts.len() == 2
        && term.parts[0].shape is Field) && forall|i: int|
        0 <= i < term.parts.len() ==> is_quiet(#[trigger] term.parts[i])
}

proof fn lemma_quiet(term: Term)
    requires
        is_quiet(term),
    ensures
        !assigns_field(term),
        walks(term) == 0,
    decreases term,
{
    let inner = each_walks(term.parts);
    assert forall|i: int| 0 <= i < term.parts.len() implies !assigns_field(#[trigger] term.parts[i])
        && inner[i] == 0 by {
        lemma_part_smaller(term, i);
        assert(is_quiet(term.parts[i]));
        lemma_quiet(term.parts[i]);
    }
    lemma_none_of(inner);
}

proof fn lemma_none_of(numbers: Seq<nat>)
    requires
        forall|i: int| 0 <= i < numbers.len() ==> #[trigger] numbers[i] == 0,
    ensures
        total(numbers) == 0,
    decreases numbers.len(),
{
    if numbers.len() > 0 {
        lemma_none_of(numbers.drop_last());
        assert(numbers[numbers.len() - 1] == 0);
    }
}

proof fn lemma_two(first: nat, second: nat)
    ensures
        total(seq![first, second]) == first + second,
{
    let both = seq![first, second];
    assert(both.drop_last() =~= seq![first]);
    assert(seq![first].drop_last() =~= Seq::<nat>::empty());
    reveal_with_fuel(total, 3);
}

/// `None`.
pub open spec fn nothing() -> Term {
    made(Shape::Variant("None"@), Seq::empty())
}

/// Leaving with `Some` of a value.
pub open spec fn leaving_with(value: Term) -> Term {
    made(Shape::Return, seq![made(Shape::Variant("Some"@), seq![value])])
}

/// A walk followed by what is handed back where it is not left.
pub open spec fn search(
    item: PatternTerm,
    direction: Direction,
    source: Term,
    body: Term,
    otherwise: Term,
) -> Term {
    made(
        Shape::Sequence,
        seq![made(Shape::Traverse(item, direction), seq![source, body]), otherwise],
    )
}

proof fn lemma_one_walk(item: PatternTerm, direction: Direction, source: Term, body: Term)
    requires
        is_quiet(source),
        is_quiet(body),
    ensures
        !is_stateful(search(item, direction, source, body, nothing())),
{
    let walk = made(Shape::Traverse(item, direction), seq![source, body]);
    let term = search(item, direction, source, body, nothing());
    lemma_quiet(source);
    lemma_quiet(body);
    assert(is_quiet(nothing()));
    lemma_quiet(nothing());
    assert(walk.parts[0] == source && walk.parts[1] == body);
    assert(term.parts[0] == walk && term.parts[1] == nothing());
    assert(each_walks(walk.parts) =~= seq![0nat, 0nat]);
    lemma_two(0, 0);
    assert(walks(walk) == 1);
    assert(each_walks(term.parts) =~= seq![1nat, 0nat]);
    lemma_two(1, 0);
    assert(walks(term) == 1);
    assert(!assigns_field(walk)) by {
        assert forall|i: int| 0 <= i < walk.parts.len() implies !assigns_field(
            #[trigger] walk.parts[i],
        ) by {}
    }
    assert(!assigns_field(term)) by {
        assert forall|i: int| 0 <= i < term.parts.len() implies !assigns_field(
            #[trigger] term.parts[i],
        ) by {}
    }
}

proof fn lemma_names_as_they_are()
    ensures
        last_segment_is("None"@, "None"@),
        last_segment_is("Some"@, "Some"@),
        !last_segment_is("Some"@, "None"@),
        !last_segment_is("None"@, "Some"@),
{
    reveal_strlit("None");
    reveal_strlit("Some");
    reveal_strlit("::");
    assert("None"@[0] == 'N' && "Some"@[0] == 'S');
    assert("None"@.skip(0) =~= "None"@);
    assert("Some"@.skip(0) =~= "Some"@);
    assert("Some"@.len() == 4 && "None"@.len() == 4);
}

/// A forward search for the first element that passes a test stands for keeping those
/// that pass it.
pub proof fn law_a_search_lifts_to_a_filter(item: PatternTerm, source: Term, test: Term)
    requires
        item.kind is Binding,
        is_quiet(source),
        is_quiet(test),
    ensures
        ({
            let body = made(Shape::Branch, seq![test, leaving_with(named(sole_name(item)))]);
            &&& lifted(search(item, Direction::Forward, source, body, nothing())) == Some(
                made(Shape::Retain(item), seq![source, test]),
            )
            &&& lifted(search(item, Direction::Backward, source, body, nothing())) is None
        }),
{
    let name = named(sole_name(item));
    let some = made(Shape::Variant("Some"@), seq![name]);
    let leaving = leaving_with(name);
    let body = made(Shape::Branch, seq![test, leaving]);
    let term = search(item, Direction::Forward, source, body, nothing());
    assert(leaving.parts[0] == some && some.parts[0] == name);
    assert(body.parts[0] == test && body.parts[1] == leaving);
    assert(is_quiet(name));
    assert(is_quiet(some)) by {
        assert forall|i: int| 0 <= i < some.parts.len() implies is_quiet(
            #[trigger] some.parts[i],
        ) by {}
    }
    assert(is_quiet(leaving)) by {
        assert forall|i: int| 0 <= i < leaving.parts.len() implies is_quiet(
            #[trigger] leaving.parts[i],
        ) by {}
    }
    assert(is_quiet(body)) by {
        assert forall|i: int| 0 <= i < body.parts.len() implies is_quiet(
            #[trigger] body.parts[i],
        ) by {}
    }
    lemma_one_walk(item, Direction::Forward, source, body);
    lemma_names_as_they_are();
    assert(term.parts[0].parts[0] == source && term.parts[0].parts[1] == body);
    assert(term.parts[1] == nothing());
    assert(yielded(leaving) == Some(name));
    assert(retained(item, body) == Some(test));
    assert(sifted(body) is None);
    let other = search(item, Direction::Backward, source, body, nothing());
    assert(other.parts[0].shape == Shape::Traverse(item, Direction::Backward));
}

/// The pattern of an alternative that carries one name.
pub open spec fn carrying(index: u32) -> PatternTerm {
    PatternTerm {
        kind: PatternKind::Variant("Some"@),
        parts: seq![PatternTerm { kind: PatternKind::Binding(index), parts: Seq::empty() }],
    }
}

/// The pattern of the empty alternative.
pub open spec fn empty() -> PatternTerm {
    PatternTerm { kind: PatternKind::Variant("None"@), parts: Seq::empty() }
}

/// A forward search for the first element that produces something stands for keeping
/// what each element produces, whichever alternative is told first.
pub proof fn law_a_search_lifts_to_a_sift(
    item: PatternTerm,
    source: Term,
    produced: Term,
    carried: u32,
)
    requires
        is_quiet(source),
        is_quiet(produced),
    ensures
        ({
            let skip = made(Shape::Literal, Seq::empty());
            let hand = leaving_with(named(carried));
            let first = made(
                Shape::Select(seq![empty(), carrying(carried)]),
                seq![produced, skip, hand],
            );
            let second = made(
                Shape::Select(seq![carrying(carried), empty()]),
                seq![produced, hand, skip],
            );
            let kept = made(Shape::Sift(item), seq![source, produced]);
            &&& lifted(search(item, Direction::Forward, source, first, nothing())) == Some(kept)
            &&& lifted(search(item, Direction::Forward, source, second, nothing())) == Some(kept)
        }),
{
    let skip = made(Shape::Literal, Seq::empty());
    let name = named(carried);
    let some = made(Shape::Variant("Some"@), seq![name]);
    let hand = leaving_with(name);
    let first = made(Shape::Select(seq![empty(), carrying(carried)]), seq![produced, skip, hand]);
    let second = made(Shape::Select(seq![carrying(carried), empty()]), seq![produced, hand, skip]);
    assert(hand.parts[0] == some && some.parts[0] == name);
    assert(is_quiet(name) && is_quiet(skip));
    assert(is_quiet(some)) by {
        assert forall|i: int| 0 <= i < some.parts.len() implies is_quiet(
            #[trigger] some.parts[i],
        ) by {}
    }
    assert(is_quiet(hand)) by {
        assert forall|i: int| 0 <= i < hand.parts.len() implies is_quiet(
            #[trigger] hand.parts[i],
        ) by {}
    }
    assert(is_quiet(first)) by {
        assert forall|i: int| 0 <= i < first.parts.len() implies is_quiet(
            #[trigger] first.parts[i],
        ) by {}
    }
    assert(is_quiet(second)) by {
        assert forall|i: int| 0 <= i < second.parts.len() implies is_quiet(
            #[trigger] second.parts[i],
        ) by {}
    }
    lemma_one_walk(item, Direction::Forward, source, first);
    lemma_one_walk(item, Direction::Forward, source, second);
    lemma_names_as_they_are();
    assert(yielded(hand) == Some(name));
    assert(carrying(carried).parts[0].kind == PatternKind::Binding(carried));
    assert(hands_back(carrying(carried), hand));
    let one = seq![empty(), carrying(carried)];
    let two = seq![carrying(carried), empty()];
    assert(one[0] == empty() && one[1] == carrying(carried));
    assert(two[0] == carrying(carried) && two[1] == empty());
    assert(sifted(first) == Some(produced));
    assert(sifted(second) == Some(produced));
    let left = search(item, Direction::Forward, source, first, nothing());
    let right = search(item, Direction::Forward, source, second, nothing());
    assert(left.parts[0].parts[0] == source && left.parts[0].parts[1] == first);
    assert(right.parts[0].parts[0] == source && right.parts[0].parts[1] == second);
    assert(left.parts[1] == nothing() && right.parts[1] == nothing());
}

proof fn lemma_walks_within(part: Term, whole: Term)
    requires
        is_within(part, whole),
    ensures
        walks(whole) >= walks(part),
        assigns_field(part) ==> assigns_field(whole),
    decreases whole,
{
    if part != whole {
        let i = choose|i: int|
            0 <= i < whole.parts.len() && is_within(part, #[trigger] whole.parts[i]);
        lemma_part_smaller(whole, i);
        lemma_walks_within(part, whole.parts[i]);
        lemma_total_member(each_walks(whole.parts), i);
    }
}

/// A search that writes through a field, or walks a second sequence, anywhere in what
/// it walks or does is never lifted.
pub proof fn law_what_carries_state_is_not_lifted(
    item: PatternTerm,
    source: Term,
    body: Term,
    otherwise: Term,
    part: Term,
)
    requires
        is_within(part, body) || is_within(part, source),
        (part.shape is Assign && part.parts.len() == 2 && part.parts[0].shape is Field)
            || part.shape is Traverse || part.shape is Transform || part.shape is Sift
            || part.shape is Retain,
    ensures
        lifted(search(item, Direction::Forward, source, body, otherwise)) is None,
{
    let walk = made(Shape::Traverse(item, Direction::Forward), seq![source, body]);
    let term = search(item, Direction::Forward, source, body, otherwise);
    assert(walk.parts[0] == source && walk.parts[1] == body);
    assert(term.parts[0] == walk);
    let inner = if is_within(part, body) {
        body
    } else {
        source
    };
    lemma_walks_within(part, inner);
    let i: int = if is_within(part, body) {
        1
    } else {
        0
    };
    assert(walk.parts[i] == inner);
    lemma_total_member(each_walks(walk.parts), i);
    lemma_total_member(each_walks(term.parts), 0);
    if assigns_field(part) {
        assert(assigns_field(walk)) by {
            assert(assigns_field(walk.parts[i]));
        }
        assert(assigns_field(term)) by {
            assert(assigns_field(term.parts[0]));
        }
    } else {
        assert(walks(part) >= 1);
        assert(walks(walk) >= 2);
        assert(walks(term) >= 2);
    }
}

/// A search that ends in what is no alternative, carries something or is `Some` is
/// not lifted.
pub proof fn law_what_ends_in_something_is_not_lifted(
    item: PatternTerm,
    source: Term,
    body: Term,
    otherwise: Term,
)
    requires
        !(otherwise.shape is Variant) || otherwise.parts.len() > 0 || otherwise.shape
            == Shape::Variant("Some"@),
    ensures
        lifted(search(item, Direction::Forward, source, body, otherwise)) is None,
{
    lemma_names_as_they_are();
    let term = search(item, Direction::Forward, source, body, otherwise);
    assert(term.parts[1] == otherwise);
}

/// What contains a form is larger and deeper than it.
pub proof fn law_a_form_outgrows_its_parts(part: Term, whole: Term)
    requires
        is_within(part, whole),
        part != whole,
    ensures
        term_size(part) < term_size(whole),
        term_depth(part) < term_depth(whole),
    decreases whole,
{
    let i = choose|i: int|
        0 <= i < whole.parts.len() && is_within(part, #[trigger] whole.parts[i]);
    lemma_part_smaller(whole, i);
    if part != whole.parts[i] {
        law_a_form_outgrows_its_parts(part, whole.parts[i]);
    }
    lemma_total_member(each_size(whole.parts), i);
    lemma_greatest_member(each_depth(whole.parts), i);
}

/// A name alone is one node deep and large and anchors nothing; an operation on two
/// forms is one node larger than both.
pub proof fn law_sizes_add_up(index: u32, shape: Shape, left: Term, right: Term)
    requires
        !(shape is Select),
    ensures
        term_size(named(index)) == 1,
        term_depth(named(index)) == 1,
        term_anchors(named(index)) == 0,
        term_size(made(shape, seq![left, right])) == 1 + term_size(left) + term_size(right),
        term_depth(made(shape, seq![left, right])) == 1 + if term_depth(left) >= term_depth(right) {
            term_depth(left)
        } else {
            term_depth(right)
        },
{
    let name = named(index);
    assert(each_size(name.parts) =~= Seq::<nat>::empty());
    assert(each_depth(name.parts) =~= Seq::<nat>::empty());
    assert(crate::normalize::measure::each_anchors(name.parts) =~= Seq::<nat>::empty());
    let both = made(shape, seq![left, right]);
    assert(both.parts[0] == left && both.parts[1] == right);
    let sizes = each_size(both.parts);
    let depths = each_depth(both.parts);
    assert(sizes =~= seq![term_size(left), term_size(right)]);
    lemma_two(term_size(left), term_size(right));
    assert(depths =~= seq![term_depth(left), term_depth(right)]);
    assert(depths.drop_last() =~= seq![term_depth(left)]);
    assert(seq![term_depth(left)].drop_last() =~= Seq::<nat>::empty());
    reveal_with_fuel(crate::lists::greatest, 3);
}

/// What walks a sequence does work, whichever way it is spelled; what names, reads or
/// builds a value does not.
pub proof fn law_walks_do_work(
    item: PatternTerm,
    direction: Direction,
    index: u32,
    name: Seq<char>,
)
    ensures
        is_work(Shape::Traverse(item, direction)),
        is_work(Shape::Sift(item)),
        is_work(Shape::Transform(item)),
        is_work(Shape::Retain(item)),
        is_work(Shape::Repeat),
        is_work(Shape::Swap),
        !is_work(Shape::Local(index)),
        !is_work(Shape::Free(index)),
        !is_work(Shape::Literal),
        !is_work(Shape::Number(name)),
        !is_work(Shape::Variant(name)),
        !is_work(Shape::Method(name)),
        !is_work(Shape::Field(name)),
        !is_work(Shape::Binary(name)),
        !is_work(Shape::Branch),
        !is_work(Shape::Sequence),
        !is_work(Shape::Return),
        !is_work(Shape::Index),
{
}

/// What names something of the outside, or says where it reads or writes, anchors a
/// form: once each, in whatever it stands. Names, blocks, choices and walks do not.
pub proof fn law_names_of_the_outside_anchor(
    text: Seq<char>,
    index: u32,
    item: PatternTerm,
    direction: Direction,
)
    requires
        text.len() > 0,
    ensures
        shape_anchors(Shape::Construct(text)) == 1,
        shape_anchors(Shape::Path(text)) == 1,
        shape_anchors(Shape::Number(text)) == 1,
        shape_anchors(Shape::Constant(text)) == 1,
        shape_anchors(Shape::Variant(text)) == 1,
        shape_anchors(Shape::Method(text)) == 1,
        shape_anchors(Shape::Field(text)) == 1,
        shape_anchors(Shape::Index) == 1,
        shape_anchors(Shape::Swap) == 1,
        shape_anchors(Shape::Assign(text)) == 1,
        shape_anchors(Shape::Binary(text)) == 1,
        shape_anchors(Shape::Unary(text)) == 1,
        shape_anchors(Shape::Assign(Seq::empty())) == 0,
        shape_anchors(Shape::Collect(Some(text))) == 1,
        shape_anchors(Shape::Collect(None)) == 0,
        shape_anchors(Shape::Local(index)) == 0,
        shape_anchors(Shape::Free(index)) == 0,
        shape_anchors(Shape::Literal) == 0,
        shape_anchors(Shape::Traverse(item, direction)) == 0,
        shape_anchors(Shape::Transform(item)) == 0,
        shape_anchors(Shape::Branch) == 0,
        shape_anchors(Shape::Return) == 0,
        shape_anchors(Shape::Sequence) == 0,
        shape_anchors(Shape::Call) == 0,
        shape_anchors(Shape::Let(item)) == 0,
        shape_anchors(Shape::Opaque(text)) == 0,
{
}

/// An operation on two forms anchors what it and both of them do.
pub proof fn law_anchors_add_up(shape: Shape, left: Term, right: Term)
    ensures
        term_anchors(made(shape, seq![left, right])) == shape_anchors(shape) + term_anchors(left)
            + term_anchors(right),
{
    let both = made(shape, seq![left, right]);
    assert(both.parts[0] == left && both.parts[1] == right);
    assert(crate::normalize::measure::each_anchors(both.parts) =~= seq![
        term_anchors(left),
        term_anchors(right),
    ]);
    lemma_two(term_anchors(left), term_anchors(right));
}

} // verus!
