//! What comes first in the orders things are told in.

use crate::analysis::order::effect_rank;
use crate::errors::order::{certainty_rank, containment_rank, form_rank, reach_rank};
use crate::facts::{span_order, Certainty, Containment, DiscardForm, Effect, Reach, SpanView};
use crate::normalize::form::{Coverage, Direction, PatternKind, PatternTerm, Shape, Term};
use crate::normalize::measure::{
    term_anchors, term_comparable, term_holes, term_reportable, term_size,
};
use crate::normalize::order::{coverage_rank, pattern_rank, shape_rank};
use crate::paths::{part_order, path_order};
use crate::text::{number_order, text_order, Comparison};
use vstd::prelude::*;

verus! {

/// Of two texts the first place where they differ decides, by the code of the
/// character there; one that goes on comes after one that ends.
pub proof fn law_texts_are_ordered_by_their_first_difference(
    front: Seq<char>,
    first: char,
    second: char,
    rest: Seq<char>,
    other: Seq<char>,
)
    requires
        (first as u32) < (second as u32),
    ensures
        text_order(front + seq![first] + rest, front + seq![second] + other) == Comparison::Less,
        text_order(front + seq![second] + other, front + seq![first] + rest)
            == Comparison::Greater,
        text_order(front, front + seq![first] + rest) == Comparison::Less,
        text_order(front, front) == Comparison::Equal,
    decreases front.len(),
{
    let left = front + seq![first] + rest;
    let right = front + seq![second] + other;
    if front.len() > 0 {
        let inner = front.drop_first();
        law_texts_are_ordered_by_their_first_difference(inner, first, second, rest, other);
        assert(left.drop_first() =~= inner + seq![first] + rest);
        assert(right.drop_first() =~= inner + seq![second] + other);
        assert(left[0] == front[0] && right[0] == front[0]);
    } else {
        assert(left[0] == first && right[0] == second);
    }
}

/// Of two paths the first part in which they differ decides, and one that goes on
/// comes after one that ends.
pub proof fn law_paths_are_ordered_by_their_first_difference(
    front: Seq<Seq<char>>,
    first: Seq<char>,
    second: Seq<char>,
    rest: Seq<Seq<char>>,
    other: Seq<Seq<char>>,
)
    requires
        part_order(first, second) == Comparison::Less,
        forall|i: int|
            0 <= i < front.len() ==> part_order(#[trigger] front[i], front[i]) == Comparison::Equal,
    ensures
        path_order(front + seq![first] + rest, front + seq![second] + other) == Comparison::Less,
        path_order(front, front + seq![first] + rest) == Comparison::Less,
    decreases front.len(),
{
    let left = front + seq![first] + rest;
    let right = front + seq![second] + other;
    if front.len() > 0 {
        let inner = front.drop_first();
        assert forall|i: int| 0 <= i < inner.len() implies part_order(#[trigger] inner[i], inner[i])
            == Comparison::Equal by {
            assert(inner[i] == front[i + 1]);
        }
        law_paths_are_ordered_by_their_first_difference(inner, first, second, rest, other);
        assert(left.drop_first() =~= inner + seq![first] + rest);
        assert(right.drop_first() =~= inner + seq![second] + other);
        assert(left[0] == front[0] && right[0] == front[0]);
        assert(part_order(front[0], front[0]) == Comparison::Equal);
    } else {
        assert(left[0] == first && right[0] == second);
    }
}

/// Places are told by path, then by where they start, then by where they end: of two
/// in one file the one that starts first comes first, and of two that start together
/// the one that ends first.
pub proof fn law_places_are_told_in_document_order(left: SpanView, right: SpanView)
    ensures
        path_order(left.path, right.path) == Comparison::Less ==> span_order(left, right)
            == Comparison::Less,
        path_order(left.path, right.path) == Comparison::Equal && left.start_byte is Some
            && right.start_byte is Some && left.start_byte->0 < right.start_byte->0 ==> span_order(
            left,
            right,
        ) == Comparison::Less,
        path_order(left.path, right.path) == Comparison::Equal && left.start_byte
            == right.start_byte && left.end_byte is Some && right.end_byte is Some
            && left.end_byte->0 < right.end_byte->0 ==> span_order(left, right)
            == Comparison::Less,
        path_order(left.path, right.path) == Comparison::Equal && left.start_byte
            == right.start_byte && left.end_byte == right.end_byte && left.start_line
            < right.start_line ==> span_order(left, right) == Comparison::Less,
        path_order(left.path, right.path) == Comparison::Equal && left.start_byte is None
            && right.start_byte is Some ==> span_order(left, right) == Comparison::Less,
{
}

/// Numbers are ordered as numbers are.
pub proof fn law_numbers_are_ordered_as_numbers(left: int, right: int)
    ensures
        number_order(left, right) == Comparison::Less <==> left < right,
        number_order(left, right) == Comparison::Greater <==> right < left,
        number_order(left, right) == Comparison::Equal <==> left == right,
{
}

/// Discards of one place are told in a fixed order of their ways, their containment,
/// their certainty and their reach.
pub proof fn law_discards_have_a_fixed_order()
    ensures
        form_rank(DiscardForm::LetUnderscore) < form_rank(DiscardForm::OkDiscard),
        form_rank(DiscardForm::OkDiscard) < form_rank(DiscardForm::UnwrapOr),
        form_rank(DiscardForm::UnwrapOr) < form_rank(DiscardForm::ErrArm),
        form_rank(DiscardForm::ErrArm) < form_rank(DiscardForm::OkBinding),
        form_rank(DiscardForm::OkBinding) < form_rank(DiscardForm::IteratorDrop),
        form_rank(DiscardForm::IteratorDrop) < form_rank(DiscardForm::CauseErased),
        form_rank(DiscardForm::CauseErased) < form_rank(DiscardForm::Panic),
        containment_rank(Containment::Fallible) < containment_rank(Containment::Optional),
        containment_rank(Containment::Optional) < containment_rank(Containment::Infallible),
        certainty_rank(Certainty::Certain) < certainty_rank(Certainty::Possible),
        reach_rank(Reach::Local) < reach_rank(Reach::Ancestor),
        reach_rank(Reach::Ancestor) < reach_rank(Reach::Sealed),
        reach_rank(Reach::Sealed) < reach_rank(Reach::Unknown),
{
}

/// A form is told of when matched where it has at least six nodes and two anchors,
/// names at least as much as it leaves open, and can be compared.
pub proof fn law_what_is_told_is_specific(term: Term)
    ensures
        term_reportable(term) <==> term_size(term) >= 6 && term_anchors(term) >= 2 && term_holes(
            term,
        ) <= term_anchors(term) && term_comparable(term),
{
}

/// Forms are ordered by what they are first: names, then what is written down, then
/// uses, walks, operations and control, in a fixed order.
pub proof fn law_kinds_of_forms_have_a_fixed_order(
    index: u32,
    text: Seq<char>,
    item: PatternTerm,
    direction: Direction,
    coverage: Coverage,
)
    ensures
        shape_rank(Shape::Local(index)) < shape_rank(Shape::Free(index)),
        shape_rank(Shape::Free(index)) < shape_rank(Shape::Literal),
        shape_rank(Shape::Literal) < shape_rank(Shape::Constant(text)),
        shape_rank(Shape::Constant(text)) < shape_rank(Shape::Number(text)),
        shape_rank(Shape::Number(text)) < shape_rank(Shape::Construct(text)),
        shape_rank(Shape::Construct(text)) < shape_rank(Shape::Variant(text)),
        shape_rank(Shape::Variant(text)) < shape_rank(Shape::Path(text)),
        shape_rank(Shape::Path(text)) < shape_rank(Shape::Field(text)),
        shape_rank(Shape::Field(text)) < shape_rank(Shape::Method(text)),
        shape_rank(Shape::Method(text)) < shape_rank(Shape::Call),
        shape_rank(Shape::Call) < shape_rank(Shape::Traverse(item, direction)),
        shape_rank(Shape::Traverse(item, direction)) < shape_rank(
            Shape::Pairwise(item, item, coverage),
        ),
        shape_rank(Shape::Pairwise(item, item, coverage)) < shape_rank(Shape::Repeat),
        shape_rank(Shape::Repeat) < shape_rank(Shape::Swap),
        shape_rank(Shape::Swap) < shape_rank(Shape::Transform(item)),
        shape_rank(Shape::Transform(item)) < shape_rank(Shape::Sift(item)),
        shape_rank(Shape::Sift(item)) < shape_rank(Shape::Retain(item)),
        shape_rank(Shape::Retain(item)) < shape_rank(Shape::Accumulate(item, item)),
        shape_rank(Shape::Accumulate(item, item)) < shape_rank(Shape::Collect(Some(text))),
        shape_rank(Shape::Collect(Some(text))) < shape_rank(Shape::Assign(text)),
        shape_rank(Shape::Assign(text)) < shape_rank(Shape::Binary(text)),
        shape_rank(Shape::Binary(text)) < shape_rank(Shape::Unary(text)),
        shape_rank(Shape::Unary(text)) < shape_rank(Shape::Index),
        shape_rank(Shape::Index) < shape_rank(Shape::Span(true)),
        shape_rank(Shape::Span(true)) < shape_rank(Shape::Lambda(Seq::empty())),
        shape_rank(Shape::Lambda(Seq::empty())) < shape_rank(Shape::Let(item)),
        shape_rank(Shape::Let(item)) < shape_rank(Shape::Branch),
        shape_rank(Shape::Branch) < shape_rank(Shape::Select(Seq::empty())),
        shape_rank(Shape::Select(Seq::empty())) < shape_rank(Shape::Return),
        shape_rank(Shape::Return) < shape_rank(Shape::Sequence),
        shape_rank(Shape::Sequence) < shape_rank(Shape::Opaque(text)),
        coverage_rank(Coverage::Once) < coverage_rank(Coverage::BothWays),
        coverage_rank(Coverage::BothWays) < coverage_rank(Coverage::Adjacent),
        pattern_rank(PatternKind::Binding(index)) < pattern_rank(PatternKind::Tuple),
        pattern_rank(PatternKind::Tuple) < pattern_rank(PatternKind::Variant(text)),
        pattern_rank(PatternKind::Variant(text)) < pattern_rank(PatternKind::Ignored),
{
}

/// Effects are told in a fixed order.
pub proof fn law_effects_have_a_fixed_order()
    ensures
        effect_rank(Effect::Allocate) < effect_rank(Effect::Block),
        effect_rank(Effect::Block) < effect_rank(Effect::EnvironmentRead),
        effect_rank(Effect::EnvironmentRead) < effect_rank(Effect::EnvironmentWrite),
        effect_rank(Effect::EnvironmentWrite) < effect_rank(Effect::FileRead),
        effect_rank(Effect::FileRead) < effect_rank(Effect::FileWrite),
        effect_rank(Effect::FileWrite) < effect_rank(Effect::Network),
        effect_rank(Effect::Network) < effect_rank(Effect::Process),
        effect_rank(Effect::Process) < effect_rank(Effect::Random),
        effect_rank(Effect::Random) < effect_rank(Effect::Time),
        effect_rank(Effect::Time) < effect_rank(Effect::Unsafe),
{
}

} // verus!
