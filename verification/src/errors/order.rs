//! The order in which discards are reported.

use super::reach::{call_edge_views, CallEdgeView, DiscardView};
use crate::facts::{
    lemma_span_order, settled, span_order, CallEdgeEvidence, Certainty, Containment, DiscardForm,
    ErrorDiscard, Reach,
};
use crate::ordering::Ordered;
use crate::text::{
    compared, lemma_text_order_total, number_order, settled_by, text_compared, text_order,
    Comparison,
};
use vstd::prelude::*;

verus! {

/// Where a way of dropping an error stands among all.
pub open spec fn form_rank(form: DiscardForm) -> u32 {
    match form {
        DiscardForm::LetUnderscore => 0,
        DiscardForm::OkDiscard => 1,
        DiscardForm::UnwrapOr => 2,
        DiscardForm::ErrArm => 3,
        DiscardForm::OkBinding => 4,
        DiscardForm::IteratorDrop => 5,
        DiscardForm::CauseErased => 6,
        DiscardForm::Panic => 7,
    }
}

/// Where a way of dropping an error stands among all.
fn form_number(form: DiscardForm) -> (rank: u32)
    ensures
        rank == form_rank(form),
{
    match form {
        DiscardForm::LetUnderscore => 0,
        DiscardForm::OkDiscard => 1,
        DiscardForm::UnwrapOr => 2,
        DiscardForm::ErrArm => 3,
        DiscardForm::OkBinding => 4,
        DiscardForm::IteratorDrop => 5,
        DiscardForm::CauseErased => 6,
        DiscardForm::Panic => 7,
    }
}

/// Where a containment stands among all.
pub open spec fn containment_rank(containment: Containment) -> u32 {
    match containment {
        Containment::Fallible => 0,
        Containment::Optional => 1,
        Containment::Infallible => 2,
    }
}

/// Where a containment stands among all.
fn containment_number(containment: Containment) -> (rank: u32)
    ensures
        rank == containment_rank(containment),
{
    match containment {
        Containment::Fallible => 0,
        Containment::Optional => 1,
        Containment::Infallible => 2,
    }
}

/// Where a certainty stands among all.
pub open spec fn certainty_rank(certainty: Certainty) -> u32 {
    match certainty {
        Certainty::Certain => 0,
        Certainty::Possible => 1,
    }
}

/// Where a certainty stands among all.
fn certainty_number(certainty: Certainty) -> (rank: u32)
    ensures
        rank == certainty_rank(certainty),
{
    match certainty {
        Certainty::Certain => 0,
        Certainty::Possible => 1,
    }
}

/// Where a reach stands among all.
pub open spec fn reach_rank(reach: Reach) -> u32 {
    match reach {
        Reach::Local => 0,
        Reach::Ancestor => 1,
        Reach::Sealed => 2,
        Reach::Unknown => 3,
    }
}

/// Where a reach stands among all.
fn reach_number(reach: Reach) -> (rank: u32)
    ensures
        rank == reach_rank(reach),
{
    match reach {
        Reach::Local => 0,
        Reach::Ancestor => 1,
        Reach::Sealed => 2,
        Reach::Unknown => 3,
    }
}

/// Where a yes or no stands: no comes first.
pub open spec fn bool_rank(value: bool) -> u32 {
    if value {
        1
    } else {
        0
    }
}

/// Where a yes or no stands.
fn bool_number(value: bool) -> (rank: u32)
    ensures
        rank == bool_rank(value),
{
    if value {
        1
    } else {
        0
    }
}

/// How two calls compare.
pub open spec fn edge_order(left: CallEdgeView, right: CallEdgeView) -> Comparison {
    settled_by(
        text_order(left.caller, right.caller),
        settled_by(text_order(left.callee, right.callee), span_order(left.call, right.call)),
    )
}

/// How two chains of calls compare: call by call, and then the shorter first.
pub open spec fn chain_order(left: Seq<CallEdgeView>, right: Seq<CallEdgeView>) -> Comparison
    decreases left.len(),
{
    if left.len() == 0 || right.len() == 0 {
        number_order(left.len() as int, right.len() as int)
    } else {
        settled_by(
            edge_order(left[0], right[0]),
            chain_order(left.drop_first(), right.drop_first()),
        )
    }
}

/// How two discards compare: by each part in turn.
pub open spec fn discard_order(left: DiscardView, right: DiscardView) -> Comparison {
    settled_by(
        settled_by(
            text_order(left.callable, right.callable),
            settled_by(
                span_order(left.callable_span, right.callable_span),
                settled_by(
                    number_order(form_rank(left.form) as int, form_rank(right.form) as int),
                    settled_by(
                        number_order(
                            containment_rank(left.containment) as int,
                            containment_rank(right.containment) as int,
                        ),
                        number_order(
                            certainty_rank(left.certainty) as int,
                            certainty_rank(right.certainty) as int,
                        ),
                    ),
                ),
            ),
        ),
        settled_by(
            text_order(left.expression, right.expression),
            settled_by(
                span_order(left.span, right.span),
                settled_by(
                    number_order(bool_rank(left.in_test) as int, bool_rank(right.in_test) as int),
                    settled_by(
                        number_order(reach_rank(left.reach) as int, reach_rank(right.reach) as int),
                        chain_order(left.path, right.path),
                    ),
                ),
            ),
        ),
    )
}

/// Calls are put in a total order.
proof fn lemma_edge_order(first: CallEdgeView, second: CallEdgeView, third: CallEdgeView)
    ensures
        edge_order(first, second) == Comparison::Equal <==> first == second,
        edge_order(first, second) == Comparison::Less <==> edge_order(second, first)
            == Comparison::Greater,
        edge_order(first, second) == Comparison::Greater <==> edge_order(second, first)
            == Comparison::Less,
        edge_order(first, second) != Comparison::Greater && edge_order(second, third)
            != Comparison::Greater ==> edge_order(first, third) != Comparison::Greater,
        edge_order(first, second) != Comparison::Greater && edge_order(second, third)
            != Comparison::Greater && edge_order(first, third) == Comparison::Equal ==> first
            == second && second == third,
{
    lemma_text_order_total(first.caller, second.caller, third.caller);
    lemma_text_order_total(first.callee, second.callee, third.callee);
    lemma_text_order_total(first.caller, third.caller, second.caller);
    lemma_text_order_total(first.callee, third.callee, second.callee);
    lemma_text_order_total(second.caller, third.caller, first.caller);
    lemma_text_order_total(second.callee, third.callee, first.callee);
    lemma_span_order(first.call, second.call, third.call);
    lemma_span_order(first.call, third.call, second.call);
    lemma_span_order(second.call, third.call, first.call);
}

/// Chains of calls are put in a total order.
proof fn lemma_chain_order(
    first: Seq<CallEdgeView>,
    second: Seq<CallEdgeView>,
    third: Seq<CallEdgeView>,
)
    ensures
        chain_order(first, second) == Comparison::Equal <==> first == second,
        chain_order(first, second) == Comparison::Less <==> chain_order(second, first)
            == Comparison::Greater,
        chain_order(first, second) == Comparison::Greater <==> chain_order(second, first)
            == Comparison::Less,
        chain_order(first, second) != Comparison::Greater && chain_order(second, third)
            != Comparison::Greater ==> chain_order(first, third) != Comparison::Greater,
        chain_order(first, second) != Comparison::Greater && chain_order(second, third)
            != Comparison::Greater && chain_order(first, third) == Comparison::Equal ==> first
            == second && second == third,
    decreases first.len() + second.len() + third.len(),
{
    lemma_chain_equal(first, second);
    lemma_chain_equal(second, first);
    lemma_chain_equal(second, third);
    lemma_chain_equal(first, third);
    lemma_chain_equal(third, first);
    if first.len() > 0 && second.len() > 0 && third.len() > 0 {
        lemma_edge_order(first[0], second[0], third[0]);
        lemma_edge_order(second[0], third[0], first[0]);
        lemma_edge_order(first[0], third[0], second[0]);
        lemma_chain_order(first.drop_first(), second.drop_first(), third.drop_first());
    }
}

/// A chain of calls compares equal to itself alone, and swapping two turns their
/// comparison round.
proof fn lemma_chain_equal(left: Seq<CallEdgeView>, right: Seq<CallEdgeView>)
    ensures
        chain_order(left, right) == Comparison::Equal <==> left == right,
        chain_order(left, right) == Comparison::Less <==> chain_order(right, left)
            == Comparison::Greater,
        chain_order(left, right) == Comparison::Greater <==> chain_order(right, left)
            == Comparison::Less,
    decreases left.len(),
{
    if left.len() > 0 && right.len() > 0 {
        lemma_edge_order(left[0], right[0], left[0]);
        lemma_chain_equal(left.drop_first(), right.drop_first());
        if left[0] == right[0] && left.drop_first() == right.drop_first() {
            assert(left =~= seq![left[0]] + left.drop_first());
            assert(right =~= seq![right[0]] + right.drop_first());
        }
    } else if left.len() == right.len() {
        assert(left =~= right);
    }
}

/// How two calls compare.
fn edge_compared(left: &CallEdgeEvidence, right: &CallEdgeEvidence) -> (order: Comparison)
    ensures
        order == edge_order(
            CallEdgeView { caller: left.caller@, callee: left.callee@, call: left.call@ },
            CallEdgeView { caller: right.caller@, callee: right.callee@, call: right.call@ },
        ),
{
    settled(
        text_compared(left.caller.as_str(), right.caller.as_str()),
        settled(
            text_compared(left.callee.as_str(), right.callee.as_str()),
            left.call.compared(&right.call),
        ),
    )
}

/// How two chains of calls compare.
#[verifier::loop_isolation(false)]
fn chain_compared(left: &Vec<CallEdgeEvidence>, right: &Vec<CallEdgeEvidence>) -> (order:
    Comparison)
    ensures
        order == chain_order(call_edge_views(left@), call_edge_views(right@)),
{
    let ghost one = call_edge_views(left@);
    let ghost two = call_edge_views(right@);
    let mut i: usize = 0;
    assert(one.skip(0) =~= one);
    assert(two.skip(0) =~= two);
    while i < left.len() && i < right.len()
        invariant
            i <= left@.len(),
            i <= right@.len(),
            chain_order(one, two) == chain_order(one.skip(i as int), two.skip(i as int)),
        decreases left@.len() - i,
    {
        assert(one.skip(i as int).drop_first() =~= one.skip(i + 1));
        assert(two.skip(i as int).drop_first() =~= two.skip(i + 1));
        assert(one.skip(i as int)[0] == one[i as int]);
        assert(two.skip(i as int)[0] == two[i as int]);
        let order = edge_compared(&left[i], &right[i]);
        match order {
            Comparison::Equal => {},
            _ => {
                return order;
            },
        }
        i += 1;
    }
    if i < left.len() {
        Comparison::Greater
    } else if i < right.len() {
        Comparison::Less
    } else {
        Comparison::Equal
    }
}

impl Ordered for ErrorDiscard {
    type Key = DiscardView;

    open spec fn key(&self) -> DiscardView {
        self@
    }

    open spec fn order(left: DiscardView, right: DiscardView) -> Comparison {
        discard_order(left, right)
    }

    #[verifier::rlimit(30)]
    #[verifier::spinoff_prover]
    proof fn order_is_total(first: DiscardView, second: DiscardView, third: DiscardView) {
        lemma_text_order_total(first.callable, second.callable, third.callable);
        lemma_text_order_total(first.expression, second.expression, third.expression);
        lemma_span_order(first.callable_span, second.callable_span, third.callable_span);
        lemma_span_order(first.span, second.span, third.span);
        lemma_chain_order(first.path, second.path, third.path);
    }

    fn ordered(&self, other: &ErrorDiscard) -> (order: Comparison) {
        let front = settled(
            text_compared(self.callable.as_str(), other.callable.as_str()),
            settled(
                self.callable_span.compared(&other.callable_span),
                settled(
                    compared(form_number(self.form), form_number(other.form)),
                    settled(
                        compared(
                            containment_number(self.containment),
                            containment_number(other.containment),
                        ),
                        compared(
                            certainty_number(self.certainty),
                            certainty_number(other.certainty),
                        ),
                    ),
                ),
            ),
        );
        let back = settled(
            text_compared(self.expression.as_str(), other.expression.as_str()),
            settled(
                self.span.compared(&other.span),
                settled(
                    compared(bool_number(self.in_test), bool_number(other.in_test)),
                    settled(
                        compared(reach_number(self.reach), reach_number(other.reach)),
                        chain_compared(&self.path, &other.path),
                    ),
                ),
            ),
        );
        settled(front, back)
    }
}

} // verus!
