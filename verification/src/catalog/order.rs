//! The order that callables are listed in.

use crate::external::{
    bound_views, parameter_views, requirement_views, type_terms, BoundView, CallableContainer,
    CallableParameter, CallableSignature, CallableView, ContainerView, ExternalBound,
    ExternalCallable, ExternalType, ParameterView, RequirementView, SignatureView, TypeRequirement,
    TypeShape, TypeTerm,
};
use crate::facts::settled;
use crate::normalize::order::{optional_text_compared, optional_text_order};
use crate::ordering::Ordered;
use crate::text::{
    carries_over, compared, lemma_text_order_total, number_order, settled_by, text_compared,
    text_order, turns_round, Comparison,
};
use vstd::prelude::*;

verus! {

/// What holds of the comparisons of three things in a total order.
pub open spec fn is_total_on<A>(
    order: spec_fn(A, A) -> Comparison,
    first: A,
    second: A,
    third: A,
) -> bool {
    &&& order(first, second) == Comparison::Equal <==> first == second
    &&& order(first, second) == Comparison::Less <==> order(second, first) == Comparison::Greater
    &&& order(first, second) == Comparison::Greater <==> order(second, first) == Comparison::Less
    &&& order(first, second) != Comparison::Greater && order(second, third) != Comparison::Greater
        ==> order(first, third) != Comparison::Greater
    &&& order(first, second) != Comparison::Greater && order(second, third) != Comparison::Greater
        && order(first, third) == Comparison::Equal ==> first == second && second == third
}

/// Whether an order is total.
pub open spec fn is_total<A>(order: spec_fn(A, A) -> Comparison) -> bool {
    forall|first: A, second: A, third: A| #[trigger] is_total_on(order, first, second, third)
}

/// How two lists compare: item by item, and then the shorter first.
pub open spec fn list_order<A>(
    order: spec_fn(A, A) -> Comparison,
    left: Seq<A>,
    right: Seq<A>,
) -> Comparison
    decreases left.len(),
{
    if left.len() == 0 || right.len() == 0 {
        number_order(left.len() as int, right.len() as int)
    } else {
        settled_by(
            order(left[0], right[0]),
            list_order(order, left.drop_first(), right.drop_first()),
        )
    }
}

/// A total order on items is one on lists.
proof fn lemma_list_order<A>(
    order: spec_fn(A, A) -> Comparison,
    first: Seq<A>,
    second: Seq<A>,
    third: Seq<A>,
)
    requires
        is_total(order),
    ensures
        is_total_on(|a: Seq<A>, b: Seq<A>| list_order(order, a, b), first, second, third),
    decreases first.len(),
{
    lemma_list_pair(order, first, second);
    lemma_list_pair(order, second, first);
    lemma_list_pair(order, second, third);
    lemma_list_pair(order, first, third);
    if first.len() > 0 && second.len() > 0 && third.len() > 0 {
        assert(is_total_on(order, first[0], second[0], third[0]));
        assert(is_total_on(order, second[0], third[0], first[0]));
        assert(is_total_on(order, first[0], third[0], second[0]));
        lemma_list_order(order, first.drop_first(), second.drop_first(), third.drop_first());
        let lists = |a: Seq<A>, b: Seq<A>| list_order(order, a, b);
        assert(is_total_on(lists, first.drop_first(), second.drop_first(), third.drop_first()));
        assert(lists(first.drop_first(), second.drop_first()) == list_order(
            order,
            first.drop_first(),
            second.drop_first(),
        ));
        if first[0] == second[0] && first.drop_first() == second.drop_first() {
            assert(first =~= seq![first[0]] + first.drop_first());
            assert(second =~= seq![second[0]] + second.drop_first());
        }
    }
}

/// Two lists compare equal where they are equal, and swapping them turns their
/// comparison round.
proof fn lemma_list_pair<A>(order: spec_fn(A, A) -> Comparison, left: Seq<A>, right: Seq<A>)
    requires
        is_total(order),
    ensures
        list_order(order, left, right) == Comparison::Equal <==> left == right,
        list_order(order, left, right) == Comparison::Less <==> list_order(order, right, left)
            == Comparison::Greater,
        list_order(order, left, right) == Comparison::Greater <==> list_order(order, right, left)
            == Comparison::Less,
    decreases left.len(),
{
    if left.len() > 0 && right.len() > 0 {
        assert(is_total_on(order, left[0], right[0], left[0]));
        lemma_list_pair(order, left.drop_first(), right.drop_first());
        if left[0] == right[0] && left.drop_first() == right.drop_first() {
            assert(left =~= seq![left[0]] + left.drop_first());
            assert(right =~= seq![right[0]] + right.drop_first());
        }
    } else if left.len() == right.len() {
        assert(left =~= right);
    }
}

/// Where a kind of type stands among all.
pub open spec fn type_rank(shape: TypeShape) -> u32 {
    match shape {
        TypeShape::Generic(..) => 0,
        TypeShape::Primitive(..) => 1,
        TypeShape::Path(..) => 2,
        TypeShape::Reference(..) => 3,
        TypeShape::Associated(..) => 4,
        TypeShape::Tuple => 5,
        TypeShape::Slice => 6,
        TypeShape::Array(..) => 7,
        TypeShape::Infer => 8,
        TypeShape::Never => 9,
        TypeShape::Unsupported(..) => 10,
    }
}

/// How what two types of one kind say before the types they are made of
/// compares.
pub open spec fn front_order(left: TypeShape, right: TypeShape) -> Comparison {
    settled_by(
        number_order(type_rank(left) as int, type_rank(right) as int),
        match (left, right) {
            (TypeShape::Generic(left), TypeShape::Generic(right)) => text_order(left, right),
            (TypeShape::Primitive(left), TypeShape::Primitive(right)) => text_order(left, right),
            (TypeShape::Path(left), TypeShape::Path(right)) => text_order(left, right),
            (TypeShape::Unsupported(left), TypeShape::Unsupported(right)) => text_order(
                left,
                right,
            ),
            (TypeShape::Associated(left, _), TypeShape::Associated(right, _)) => text_order(
                left,
                right,
            ),
            (TypeShape::Reference(left), TypeShape::Reference(right)) => number_order(
                if left {
                    1
                } else {
                    0
                },
                if right {
                    1
                } else {
                    0
                },
            ),
            _ => Comparison::Equal,
        },
    )
}

/// How what two types of one kind say after the types they are made of compares.
pub open spec fn back_order(left: TypeShape, right: TypeShape) -> Comparison {
    match (left, right) {
        (TypeShape::Associated(_, left), TypeShape::Associated(_, right)) => optional_text_order(
            left,
            right,
        ),
        (TypeShape::Array(left), TypeShape::Array(right)) => text_order(left, right),
        _ => Comparison::Equal,
    }
}

/// How two types compare.
pub open spec fn type_order(left: TypeTerm, right: TypeTerm) -> Comparison
    decreases left,
{
    settled_by(
        front_order(left.shape, right.shape),
        settled_by(types_order(left.parts, right.parts), back_order(left.shape, right.shape)),
    )
}

/// How two lists of types compare: type by type, and then the shorter first.
pub open spec fn types_order(left: Seq<TypeTerm>, right: Seq<TypeTerm>) -> Comparison
    decreases left,
{
    if left.len() == 0 || right.len() == 0 {
        number_order(left.len() as int, right.len() as int)
    } else {
        settled_by(
            type_order(left[0], right[0]),
            types_order(left.drop_first(), right.drop_first()),
        )
    }
}

/// What comes first and last of types compares as in a total order.
proof fn lemma_shape_order(first: TypeShape, second: TypeShape, third: TypeShape)
    ensures
        front_order(first, second) == Comparison::Equal && back_order(first, second)
            == Comparison::Equal <==> first == second,
        front_order(first, second) == Comparison::Less <==> front_order(second, first)
            == Comparison::Greater,
        front_order(first, second) == Comparison::Greater <==> front_order(second, first)
            == Comparison::Less,
        front_order(first, second) != Comparison::Greater && front_order(second, third)
            != Comparison::Greater ==> front_order(first, third) != Comparison::Greater,
        front_order(first, second) != Comparison::Greater && front_order(second, third)
            != Comparison::Greater && front_order(first, third) == Comparison::Equal
            ==> front_order(first, second) == Comparison::Equal && front_order(second, third)
            == Comparison::Equal,
        front_order(first, second) == Comparison::Equal && front_order(second, third)
            == Comparison::Equal ==> front_order(first, third) == Comparison::Equal,
        front_order(first, second) == Comparison::Equal ==> {
            &&& back_order(first, second) == Comparison::Less <==> back_order(second, first)
                == Comparison::Greater
            &&& back_order(first, second) == Comparison::Greater <==> back_order(second, first)
                == Comparison::Less
        },
        front_order(first, second) == Comparison::Equal && front_order(second, third)
            == Comparison::Equal ==> {
            &&& back_order(first, second) != Comparison::Greater && back_order(second, third)
                != Comparison::Greater ==> back_order(first, third) != Comparison::Greater
            &&& back_order(first, second) != Comparison::Greater && back_order(second, third)
                != Comparison::Greater && back_order(first, third) == Comparison::Equal
                ==> back_order(first, second) == Comparison::Equal && back_order(second, third)
                == Comparison::Equal
        },
{
    lemma_text_order_total(front_text(first), front_text(second), front_text(third));
    lemma_text_order_total(front_text(second), front_text(third), front_text(first));
    lemma_text_order_total(front_text(first), front_text(third), front_text(second));
    lemma_text_order_total(back_text(first), back_text(second), back_text(third));
    lemma_text_order_total(back_text(second), back_text(third), back_text(first));
    lemma_text_order_total(back_text(first), back_text(third), back_text(second));
}

/// The text that a type says before the types it is made of.
spec fn front_text(shape: TypeShape) -> Seq<char> {
    match shape {
        TypeShape::Generic(text) => text,
        TypeShape::Primitive(text) => text,
        TypeShape::Path(text) => text,
        TypeShape::Unsupported(text) => text,
        TypeShape::Associated(text, _) => text,
        _ => Seq::empty(),
    }
}

/// The text that a type says after the types it is made of.
spec fn back_text(shape: TypeShape) -> Seq<char> {
    match shape {
        TypeShape::Associated(_, Some(text)) => text,
        TypeShape::Array(text) => text,
        _ => Seq::empty(),
    }
}

/// Types are put in a total order.
proof fn lemma_type_order(first: TypeTerm, second: TypeTerm, third: TypeTerm)
    ensures
        type_order(first, second) == Comparison::Equal <==> first == second,
        type_order(first, second) == Comparison::Less <==> type_order(second, first)
            == Comparison::Greater,
        type_order(first, second) == Comparison::Greater <==> type_order(second, first)
            == Comparison::Less,
        type_order(first, second) != Comparison::Greater && type_order(second, third)
            != Comparison::Greater ==> type_order(first, third) != Comparison::Greater,
        type_order(first, second) != Comparison::Greater && type_order(second, third)
            != Comparison::Greater && type_order(first, third) == Comparison::Equal ==> first
            == second && second == third,
    decreases first,
{
    lemma_shape_order(first.shape, second.shape, third.shape);
    lemma_shape_order(second.shape, third.shape, first.shape);
    lemma_shape_order(first.shape, third.shape, second.shape);
    lemma_types_order(first.parts, second.parts, third.parts);
}

/// Lists of types are put in a total order.
proof fn lemma_types_order(first: Seq<TypeTerm>, second: Seq<TypeTerm>, third: Seq<TypeTerm>)
    ensures
        types_order(first, second) == Comparison::Equal <==> first == second,
        types_order(first, second) == Comparison::Less <==> types_order(second, first)
            == Comparison::Greater,
        types_order(first, second) == Comparison::Greater <==> types_order(second, first)
            == Comparison::Less,
        types_order(first, second) != Comparison::Greater && types_order(second, third)
            != Comparison::Greater ==> types_order(first, third) != Comparison::Greater,
        types_order(first, second) != Comparison::Greater && types_order(second, third)
            != Comparison::Greater && types_order(first, third) == Comparison::Equal ==> first
            == second && second == third,
    decreases first,
{
    if first.len() > 0 && second.len() > 0 {
        let last = if third.len() > 0 {
            third[0]
        } else {
            first[0]
        };
        lemma_type_order(first[0], second[0], last);
        lemma_types_order(first.drop_first(), second.drop_first(), third.drop_first());
        if first[0] == second[0] && first.drop_first() == second.drop_first() {
            assert(first =~= seq![first[0]] + first.drop_first());
            assert(second =~= seq![second[0]] + second.drop_first());
        }
        if third.len() > 0 && second[0] == third[0] && second.drop_first() == third.drop_first() {
            assert(second =~= seq![second[0]] + second.drop_first());
            assert(third =~= seq![third[0]] + third.drop_first());
        }
    } else if first.len() == second.len() {
        assert(first =~= second);
        if second.len() == third.len() {
            assert(second =~= third);
        }
    } else if third.len() == 0 && first.len() == 0 {
        assert(first =~= third);
    }
}

/// How two bounds compare.
pub open spec fn bound_order(left: BoundView, right: BoundView) -> Comparison {
    match (left, right) {
        (BoundView::Trait(left), BoundView::Trait(right)) => text_order(left, right),
        (BoundView::Trait(_), BoundView::Lifetime(_)) => Comparison::Less,
        (BoundView::Lifetime(_), BoundView::Trait(_)) => Comparison::Greater,
        (BoundView::Lifetime(left), BoundView::Lifetime(right)) => text_order(left, right),
    }
}

/// How two lists of bounds compare.
pub open spec fn bounds_order(left: Seq<BoundView>, right: Seq<BoundView>) -> Comparison {
    list_order(|a: BoundView, b: BoundView| bound_order(a, b), left, right)
}

/// How two requirements compare.
pub open spec fn requirement_order(left: RequirementView, right: RequirementView) -> Comparison {
    settled_by(type_order(left.subject, right.subject), bounds_order(left.bounds, right.bounds))
}

/// How two parameters compare.
pub open spec fn parameter_order(left: ParameterView, right: ParameterView) -> Comparison {
    settled_by(text_order(left.name, right.name), type_order(left.ty, right.ty))
}

/// How two outputs compare: nothing comes first.
pub open spec fn output_order(left: Option<TypeTerm>, right: Option<TypeTerm>) -> Comparison {
    match (left, right) {
        (None, None) => Comparison::Equal,
        (None, Some(_)) => Comparison::Less,
        (Some(_), None) => Comparison::Greater,
        (Some(left), Some(right)) => type_order(left, right),
    }
}

/// How two signatures compare.
pub open spec fn signature_order(left: SignatureView, right: SignatureView) -> Comparison {
    settled_by(
        list_order(
            |a: ParameterView, b: ParameterView| parameter_order(a, b),
            left.inputs,
            right.inputs,
        ),
        settled_by(
            output_order(left.output, right.output),
            list_order(
                |a: RequirementView, b: RequirementView| requirement_order(a, b),
                left.requirements,
                right.requirements,
            ),
        ),
    )
}

/// How two containers compare.
pub open spec fn container_order(left: ContainerView, right: ContainerView) -> Comparison {
    match (left, right) {
        (ContainerView::Trait(left), ContainerView::Trait(right)) => text_order(left, right),
        (ContainerView::Trait(_), ContainerView::Module(_)) => Comparison::Less,
        (ContainerView::Module(_), ContainerView::Trait(_)) => Comparison::Greater,
        (ContainerView::Module(left), ContainerView::Module(right)) => text_order(left, right),
    }
}

/// How two optional signatures compare: nothing comes first.
pub open spec fn optional_signature_order(
    left: Option<SignatureView>,
    right: Option<SignatureView>,
) -> Comparison {
    match (left, right) {
        (None, None) => Comparison::Equal,
        (None, Some(_)) => Comparison::Less,
        (Some(_), None) => Comparison::Greater,
        (Some(left), Some(right)) => signature_order(left, right),
    }
}

/// How two callables compare: by path, then container, then signature.
pub open spec fn callable_order(left: CallableView, right: CallableView) -> Comparison {
    settled_by(
        text_order(left.path, right.path),
        settled_by(
            container_order(left.container, right.container),
            optional_signature_order(left.signature, right.signature),
        ),
    )
}

/// Bounds are put in a total order.
proof fn lemma_bound_total()
    ensures
        is_total(|a: BoundView, b: BoundView| bound_order(a, b)),
{
    let order = |a: BoundView, b: BoundView| bound_order(a, b);
    assert forall|first: BoundView, second: BoundView, third: BoundView| #[trigger]
        is_total_on(order, first, second, third) by {
        let text = |bound: BoundView|
            match bound {
                BoundView::Trait(text) => text,
                BoundView::Lifetime(text) => text,
            };
        lemma_text_order_total(text(first), text(second), text(third));
    }
}

/// Requirements are put in a total order.
proof fn lemma_requirement_total()
    ensures
        is_total(|a: RequirementView, b: RequirementView| requirement_order(a, b)),
{
    let order = |a: RequirementView, b: RequirementView| requirement_order(a, b);
    let bounds = |a: BoundView, b: BoundView| bound_order(a, b);
    let lists = |a: Seq<BoundView>, b: Seq<BoundView>| list_order(bounds, a, b);
    lemma_bound_total();
    assert forall|first: RequirementView, second: RequirementView, third: RequirementView| #[trigger]
        is_total_on(order, first, second, third) by {
        lemma_type_order(first.subject, second.subject, third.subject);
        lemma_list_order(bounds, first.bounds, second.bounds, third.bounds);
        assert(is_total_on(lists, first.bounds, second.bounds, third.bounds));
    }
}

/// Parameters are put in a total order.
proof fn lemma_parameter_total()
    ensures
        is_total(|a: ParameterView, b: ParameterView| parameter_order(a, b)),
{
    let order = |a: ParameterView, b: ParameterView| parameter_order(a, b);
    assert forall|first: ParameterView, second: ParameterView, third: ParameterView| #[trigger]
        is_total_on(order, first, second, third) by {
        lemma_text_order_total(first.name, second.name, third.name);
        lemma_type_order(first.ty, second.ty, third.ty);
    }
}

/// Outputs are put in a total order.
proof fn lemma_output_total()
    ensures
        is_total(|a: Option<TypeTerm>, b: Option<TypeTerm>| output_order(a, b)),
{
    let order = |a: Option<TypeTerm>, b: Option<TypeTerm>| output_order(a, b);
    assert forall|first: Option<TypeTerm>, second: Option<TypeTerm>, third: Option<TypeTerm>| #[trigger]
        is_total_on(order, first, second, third) by {
        if first is Some && second is Some {
            let last = if third is Some {
                third->0
            } else {
                first->0
            };
            lemma_type_order(first->0, second->0, last);
        }
    }
}

/// Signatures are put in a total order.
proof fn lemma_signature_total()
    ensures
        is_total(|a: SignatureView, b: SignatureView| signature_order(a, b)),
{
    let order = |a: SignatureView, b: SignatureView| signature_order(a, b);
    let parameters = |a: ParameterView, b: ParameterView| parameter_order(a, b);
    let requirements = |a: RequirementView, b: RequirementView| requirement_order(a, b);
    let outputs = |a: Option<TypeTerm>, b: Option<TypeTerm>| output_order(a, b);
    let inputs = |a: Seq<ParameterView>, b: Seq<ParameterView>| list_order(parameters, a, b);
    let wheres = |a: Seq<RequirementView>, b: Seq<RequirementView>|
        list_order(requirements, a, b);
    lemma_parameter_total();
    lemma_requirement_total();
    lemma_output_total();
    assert forall|first: SignatureView, second: SignatureView, third: SignatureView| #[trigger]
        is_total_on(order, first, second, third) by {
        lemma_list_order(parameters, first.inputs, second.inputs, third.inputs);
        lemma_list_order(requirements, first.requirements, second.requirements, third.requirements);
        assert(is_total_on(inputs, first.inputs, second.inputs, third.inputs));
        assert(is_total_on(wheres, first.requirements, second.requirements, third.requirements));
        assert(is_total_on(outputs, first.output, second.output, third.output));
    }
}

/// Signatures that may be missing are put in a total order.
#[verifier::spinoff_prover]
proof fn lemma_optional_signature_order(
    first: Option<SignatureView>,
    second: Option<SignatureView>,
    third: Option<SignatureView>,
)
    ensures
        optional_signature_order(first, second) == Comparison::Equal <==> first == second,
        turns_round(
            optional_signature_order(first, second),
            optional_signature_order(second, first),
        ),
        carries_over(
            optional_signature_order(first, second),
            optional_signature_order(second, third),
            optional_signature_order(first, third),
        ),
{
    let order = |a: SignatureView, b: SignatureView| signature_order(a, b);
    lemma_signature_total();
    if first is Some && second is Some {
        let last = if third is Some {
            third->0
        } else {
            first->0
        };
        assert(is_total_on(order, first->0, second->0, last));
        assert(is_total_on(order, second->0, last, first->0));
        assert(order(first->0, second->0) == signature_order(first->0, second->0));
        assert(order(second->0, first->0) == signature_order(second->0, first->0));
        assert(order(second->0, last) == signature_order(second->0, last));
        assert(order(first->0, last) == signature_order(first->0, last));
    }
}

/// The text that a container holds.
spec fn container_text(container: ContainerView) -> Seq<char> {
    match container {
        ContainerView::Trait(text) => text,
        ContainerView::Module(text) => text,
    }
}

/// Containers are put in a total order.
proof fn lemma_container_order(
    first: ContainerView,
    second: ContainerView,
    third: ContainerView,
)
    ensures
        container_order(first, second) == Comparison::Equal <==> first == second,
        turns_round(container_order(first, second), container_order(second, first)),
        carries_over(
            container_order(first, second),
            container_order(second, third),
            container_order(first, third),
        ),
{
    lemma_text_order_total(container_text(first), container_text(second), container_text(third));
    lemma_text_order_total(container_text(second), container_text(third), container_text(first));
}

/// How two types compare.
fn type_compared(left: &ExternalType, right: &ExternalType) -> (order: Comparison)
    ensures
        order == type_order(left@, right@),
    decreases *left, 1int,
{
    let rank = compared(type_number(left), type_number(right));
    match rank {
        Comparison::Equal => {},
        _ => {
            return rank;
        },
    }
    match (left, right) {
        (ExternalType::Generic { name: left }, ExternalType::Generic { name: right }) =>
            text_compared(left.as_str(), right.as_str()),
        (ExternalType::Primitive { name: left }, ExternalType::Primitive { name: right }) =>
            text_compared(left.as_str(), right.as_str()),
        (ExternalType::Unsupported { kind: left }, ExternalType::Unsupported { kind: right }) =>
            text_compared(left.as_str(), right.as_str()),
        (
            ExternalType::Path { path: left, arguments: left_arguments },
            ExternalType::Path { path: right, arguments: right_arguments },
        ) => settled(
            text_compared(left.as_str(), right.as_str()),
            types_compared(left_arguments, right_arguments),
        ),
        (
            ExternalType::Reference { mutable: left, inner: left_inner },
            ExternalType::Reference { mutable: right, inner: right_inner },
        ) => {
            proof {
                lemma_single(left_inner@, right_inner@);
            }
            settled(
                compared(bool_number(*left), bool_number(*right)),
                type_compared(left_inner, right_inner),
            )
        },
        (
            ExternalType::Associated { name: left, self_type: left_self, trait_path: left_trait },
            ExternalType::Associated {
                name: right,
                self_type: right_self,
                trait_path: right_trait,
            },
        ) => {
            proof {
                lemma_single(left_self@, right_self@);
            }
            settled(
                text_compared(left.as_str(), right.as_str()),
                settled(
                    type_compared(left_self, right_self),
                    optional_text_compared(left_trait, right_trait),
                ),
            )
        },
        (ExternalType::Tuple { elements: left }, ExternalType::Tuple { elements: right }) =>
            types_compared(left, right),
        (ExternalType::Slice { element: left }, ExternalType::Slice { element: right }) => {
            proof {
                lemma_single(left@, right@);
            }
            type_compared(left, right)
        },
        (
            ExternalType::Array { element: left, length: left_length },
            ExternalType::Array { element: right, length: right_length },
        ) => {
            proof {
                lemma_single(left@, right@);
            }
            settled(
                type_compared(left, right),
                text_compared(left_length.as_str(), right_length.as_str()),
            )
        },
        _ => Comparison::Equal,
    }
}

/// Lists of one type each compare as the types.
proof fn lemma_single(left: TypeTerm, right: TypeTerm)
    ensures
        types_order(seq![left], seq![right]) == type_order(left, right),
{
    let one = seq![left];
    let two = seq![right];
    assert(one.drop_first().len() == 0);
    assert(two.drop_first().len() == 0);
    assert(types_order(one.drop_first(), two.drop_first()) == Comparison::Equal);
}

/// How two lists of types compare.
#[verifier::loop_isolation(false)]
fn types_compared(left: &Vec<ExternalType>, right: &Vec<ExternalType>) -> (order: Comparison)
    ensures
        order == types_order(type_terms(left@), type_terms(right@)),
    decreases *left, 0int,
{
    let ghost one = type_terms(left@);
    let ghost two = type_terms(right@);
    let mut i: usize = 0;
    assert(one.skip(0) =~= one);
    assert(two.skip(0) =~= two);
    while i < left.len() && i < right.len()
        invariant
            i <= left@.len(),
            i <= right@.len(),
            types_order(one, two) == types_order(one.skip(i as int), two.skip(i as int)),
        decreases left@.len() - i,
    {
        assert(one.skip(i as int).drop_first() =~= one.skip(i + 1));
        assert(two.skip(i as int).drop_first() =~= two.skip(i + 1));
        assert(one.skip(i as int)[0] == left@[i as int]@);
        assert(two.skip(i as int)[0] == right@[i as int]@);
        let order = type_compared(&left[i], &right[i]);
        match order {
            Comparison::Equal => {},
            _ => {
                return order;
            },
        }
        i += 1;
    }
    if i < left.len() {
        Comparison::Greater
    } else if i < right.len() {
        Comparison::Less
    } else {
        Comparison::Equal
    }
}

/// Where a yes or no stands: no comes first.
fn bool_number(value: bool) -> (rank: u32)
    ensures
        rank == (if value {
            1u32
        } else {
            0u32
        }),
{
    if value {
        1
    } else {
        0
    }
}

/// Where a kind of type stands among all.
fn type_number(ty: &ExternalType) -> (rank: u32)
    ensures
        rank == type_rank(ty@.shape),
{
    match ty {
        ExternalType::Generic { .. } => 0,
        ExternalType::Primitive { .. } => 1,
        ExternalType::Path { .. } => 2,
        ExternalType::Reference { .. } => 3,
        ExternalType::Associated { .. } => 4,
        ExternalType::Tuple { .. } => 5,
        ExternalType::Slice { .. } => 6,
        ExternalType::Array { .. } => 7,
        ExternalType::Infer => 8,
        ExternalType::Never => 9,
        ExternalType::Unsupported { .. } => 10,
    }
}

/// How two bounds compare.
fn bound_compared(left: &ExternalBound, right: &ExternalBound) -> (order: Comparison)
    ensures
        order == bound_order(left@, right@),
{
    match (left, right) {
        (ExternalBound::Trait { path: left }, ExternalBound::Trait { path: right }) =>
            text_compared(left.as_str(), right.as_str()),
        (ExternalBound::Trait { .. }, ExternalBound::Lifetime { .. }) => Comparison::Less,
        (ExternalBound::Lifetime { .. }, ExternalBound::Trait { .. }) => Comparison::Greater,
        (ExternalBound::Lifetime { name: left }, ExternalBound::Lifetime { name: right }) =>
            text_compared(left.as_str(), right.as_str()),
    }
}

/// How two lists of bounds compare.
#[verifier::loop_isolation(false)]
fn bounds_compared(left: &Vec<ExternalBound>, right: &Vec<ExternalBound>) -> (order: Comparison)
    ensures
        order == bounds_order(bound_views(left@), bound_views(right@)),
{
    let ghost each = |a: BoundView, b: BoundView| bound_order(a, b);
    let ghost one = bound_views(left@);
    let ghost two = bound_views(right@);
    let mut i: usize = 0;
    assert(one.skip(0) =~= one);
    assert(two.skip(0) =~= two);
    while i < left.len() && i < right.len()
        invariant
            i <= left@.len(),
            i <= right@.len(),
            list_order(each, one, two) == list_order(each, one.skip(i as int), two.skip(i as int)),
        decreases left@.len() - i,
    {
        assert(one.skip(i as int).drop_first() =~= one.skip(i + 1));
        assert(two.skip(i as int).drop_first() =~= two.skip(i + 1));
        assert(one.skip(i as int)[0] == left@[i as int]@);
        assert(two.skip(i as int)[0] == right@[i as int]@);
        let order = bound_compared(&left[i], &right[i]);
        match order {
            Comparison::Equal => {},
            _ => {
                return order;
            },
        }
        i += 1;
    }
    if i < left.len() {
        Comparison::Greater
    } else if i < right.len() {
        Comparison::Less
    } else {
        Comparison::Equal
    }
}

/// How two lists of requirements compare.
#[verifier::loop_isolation(false)]
fn requirements_compared(left: &Vec<TypeRequirement>, right: &Vec<TypeRequirement>) -> (order:
    Comparison)
    ensures
        order == list_order(
            |a: RequirementView, b: RequirementView| requirement_order(a, b),
            requirement_views(left@),
            requirement_views(right@),
        ),
{
    let ghost each = |a: RequirementView, b: RequirementView| requirement_order(a, b);
    let ghost one = requirement_views(left@);
    let ghost two = requirement_views(right@);
    let mut i: usize = 0;
    assert(one.skip(0) =~= one);
    assert(two.skip(0) =~= two);
    while i < left.len() && i < right.len()
        invariant
            i <= left@.len(),
            i <= right@.len(),
            list_order(each, one, two) == list_order(each, one.skip(i as int), two.skip(i as int)),
        decreases left@.len() - i,
    {
        assert(one.skip(i as int).drop_first() =~= one.skip(i + 1));
        assert(two.skip(i as int).drop_first() =~= two.skip(i + 1));
        assert(one.skip(i as int)[0] == left@[i as int]@);
        assert(two.skip(i as int)[0] == right@[i as int]@);
        let order = settled(
            type_compared(&left[i].subject, &right[i].subject),
            bounds_compared(&left[i].bounds, &right[i].bounds),
        );
        match order {
            Comparison::Equal => {},
            _ => {
                return order;
            },
        }
        i += 1;
    }
    if i < left.len() {
        Comparison::Greater
    } else if i < right.len() {
        Comparison::Less
    } else {
        Comparison::Equal
    }
}

/// How two lists of parameters compare.
#[verifier::loop_isolation(false)]
fn parameters_compared(left: &Vec<CallableParameter>, right: &Vec<CallableParameter>) -> (order:
    Comparison)
    ensures
        order == list_order(
            |a: ParameterView, b: ParameterView| parameter_order(a, b),
            parameter_views(left@),
            parameter_views(right@),
        ),
{
    let ghost each = |a: ParameterView, b: ParameterView| parameter_order(a, b);
    let ghost one = parameter_views(left@);
    let ghost two = parameter_views(right@);
    let mut i: usize = 0;
    assert(one.skip(0) =~= one);
    assert(two.skip(0) =~= two);
    while i < left.len() && i < right.len()
        invariant
            i <= left@.len(),
            i <= right@.len(),
            list_order(each, one, two) == list_order(each, one.skip(i as int), two.skip(i as int)),
        decreases left@.len() - i,
    {
        assert(one.skip(i as int).drop_first() =~= one.skip(i + 1));
        assert(two.skip(i as int).drop_first() =~= two.skip(i + 1));
        assert(one.skip(i as int)[0] == left@[i as int]@);
        assert(two.skip(i as int)[0] == right@[i as int]@);
        let order = settled(
            text_compared(left[i].name.as_str(), right[i].name.as_str()),
            type_compared(&left[i].ty, &right[i].ty),
        );
        match order {
            Comparison::Equal => {},
            _ => {
                return order;
            },
        }
        i += 1;
    }
    if i < left.len() {
        Comparison::Greater
    } else if i < right.len() {
        Comparison::Less
    } else {
        Comparison::Equal
    }
}

/// How two signatures compare.
fn signature_compared(left: &CallableSignature, right: &CallableSignature) -> (order: Comparison)
    ensures
        order == signature_order(left@, right@),
{
    let output = match (&left.output, &right.output) {
        (None, None) => Comparison::Equal,
        (None, Some(_)) => Comparison::Less,
        (Some(_), None) => Comparison::Greater,
        (Some(left), Some(right)) => type_compared(left, right),
    };
    settled(
        parameters_compared(&left.inputs, &right.inputs),
        settled(output, requirements_compared(&left.requirements, &right.requirements)),
    )
}

/// How two containers compare.
fn container_compared(left: &CallableContainer, right: &CallableContainer) -> (order: Comparison)
    ensures
        order == container_order(left@, right@),
{
    match (left, right) {
        (CallableContainer::Trait { path: left }, CallableContainer::Trait { path: right }) =>
            text_compared(left.as_str(), right.as_str()),
        (CallableContainer::Trait { .. }, CallableContainer::Module { .. }) => Comparison::Less,
        (CallableContainer::Module { .. }, CallableContainer::Trait { .. }) => Comparison::Greater,
        (CallableContainer::Module { path: left }, CallableContainer::Module { path: right }) =>
            text_compared(left.as_str(), right.as_str()),
    }
}

impl Ordered for ExternalCallable {
    type Key = CallableView;

    open spec fn key(&self) -> CallableView {
        self@
    }

    open spec fn order(left: CallableView, right: CallableView) -> Comparison {
        callable_order(left, right)
    }

    proof fn order_is_total(first: CallableView, second: CallableView, third: CallableView) {
        assert(Self::order(first, second) == callable_order(first, second));
        assert(Self::order(second, first) == callable_order(second, first));
        assert(Self::order(second, third) == callable_order(second, third));
        assert(Self::order(first, third) == callable_order(first, third));
        lemma_text_order_total(first.path, second.path, third.path);
        lemma_container_order(first.container, second.container, third.container);
        lemma_optional_signature_order(first.signature, second.signature, third.signature);
    }

    fn ordered(&self, other: &ExternalCallable) -> (order: Comparison) {
        let signature = match (&self.signature, &other.signature) {
            (None, None) => Comparison::Equal,
            (None, Some(_)) => Comparison::Less,
            (Some(_), None) => Comparison::Greater,
            (Some(left), Some(right)) => signature_compared(left, right),
        };
        assert(signature == optional_signature_order(self@.signature, other@.signature));
        let container = container_compared(&self.container, &other.container);
        let path = text_compared(self.path.as_str(), other.path.as_str());
        let order = settled(path, settled(container, signature));
        assert(order == callable_order(self@, other@));
        assert(Self::order(self@, other@) == callable_order(self@, other@));
        assert(self.key() == self@ && other.key() == other@);
        assert(order == Self::order(self.key(), other.key()));
        order
    }
}

} // verus!
