//! Holding the arms of a decision in a canonical order.
//!
//! `Some` before `None` and `None` before `Some` are the same decision written
//! two ways, so arms are sorted by what they name.

use crate::normalize::form::{
    arm_bodies, arm_patterns, Arm, Form, Pattern, PatternKind, PatternTerm, Shape, Term,
};
use crate::text::{
    lemma_text_order_equal, lemma_text_order_swap, lemma_text_order_transitive, text_compared,
    text_order, Comparison,
};
use vstd::prelude::*;

verus! {

/// An arm: what it names, and what it evaluates to.
pub type ArmTerm = (PatternTerm, Term);

/// The arms of a decision, as terms.
pub open spec fn arm_terms(arms: Seq<Arm>) -> Seq<ArmTerm> {
    Seq::new(arms.len(), |i: int| (arms[i].pattern@, arms[i].body@))
}

/// The name an arm sorts by. An arm that binds or discards names nothing.
pub open spec fn arm_name(pattern: PatternTerm) -> Option<Seq<char>> {
    match pattern.kind {
        PatternKind::Variant(name) => Some(name),
        _ => None,
    }
}

/// How two arms compare: by name, with whatever matches anything last.
pub open spec fn arm_order(left: PatternTerm, right: PatternTerm) -> Comparison {
    match (arm_name(left), arm_name(right)) {
        (Some(left), Some(right)) => text_order(left, right),
        (Some(_), None) => Comparison::Less,
        (None, Some(_)) => Comparison::Greater,
        (None, None) => Comparison::Equal,
    }
}

/// Arms in order, with one more put after every arm it does not precede.
pub open spec fn placed(arms: Seq<ArmTerm>, arm: ArmTerm) -> Seq<ArmTerm>
    decreases arms.len(),
{
    if arms.len() == 0 || arm_order(arms.last().0, arm.0) != Comparison::Greater {
        arms.push(arm)
    } else {
        placed(arms.drop_last(), arm).push(arms.last())
    }
}

/// Arms in canonical order. Arms that name the same thing keep the order they
/// were written in.
pub open spec fn in_order(arms: Seq<ArmTerm>) -> Seq<ArmTerm>
    decreases arms.len(),
{
    if arms.len() == 0 {
        arms
    } else {
        placed(in_order(arms.drop_last()), arms.last())
    }
}

/// The term that decides among arms.
pub open spec fn select_term(scrutinee: Term, arms: Seq<ArmTerm>) -> Term {
    Term {
        shape: Shape::Select(Seq::new(arms.len(), |i: int| arms[i].0)),
        parts: seq![scrutinee] + Seq::new(arms.len(), |i: int| arms[i].1),
    }
}

/// Whether arms are in canonical order.
pub open spec fn is_ordered(arms: Seq<ArmTerm>) -> bool {
    forall|i: int, j: int|
        0 <= i <= j < arms.len() ==> arm_order(
            (#[trigger] arms[i]).0,
            (#[trigger] arms[j]).0,
        ) != Comparison::Greater
}

/// The arms that name one thing, in the order they stand.
pub open spec fn naming(arms: Seq<ArmTerm>, name: Option<Seq<char>>) -> Seq<ArmTerm> {
    arms.filter(|arm: ArmTerm| arm_name(arm.0) == name)
}

proof fn lemma_arm_order(first: PatternTerm, second: PatternTerm, third: PatternTerm)
    ensures
        arm_order(first, second) == Comparison::Less <==> arm_order(second, first)
            == Comparison::Greater,
        arm_order(first, second) != Comparison::Greater && arm_order(second, third)
            != Comparison::Greater ==> arm_order(first, third) != Comparison::Greater,
        arm_order(first, first) == Comparison::Equal,
        arm_order(first, second) == Comparison::Equal <==> arm_name(first) == arm_name(second),
{
    if let (Some(a), Some(b)) = (arm_name(first), arm_name(second)) {
        lemma_text_order_swap(a, b);
        lemma_text_order_equal(a, b);
        if let Some(c) = arm_name(third) {
            if text_order(a, b) != Comparison::Greater && text_order(b, c) != Comparison::Greater {
                lemma_text_order_transitive(a, b, c);
            }
        }
    }
    if let Some(a) = arm_name(first) {
        lemma_text_order_equal(a, a);
    }
}

#[verifier::rlimit(30)]
#[verifier::spinoff_prover]
proof fn lemma_placed(arms: Seq<ArmTerm>, arm: ArmTerm)
    requires
        is_ordered(arms),
    ensures
        is_ordered(placed(arms, arm)),
        placed(arms, arm).len() == arms.len() + 1,
        placed(arms, arm).to_multiset() == arms.to_multiset().insert(arm),
        forall|name: Option<Seq<char>>| #[trigger]
            naming(placed(arms, arm), name) == naming(arms.push(arm), name),
        forall|i: int|
            0 <= i < placed(arms, arm).len() ==> (#[trigger] placed(arms, arm)[i] == arm || (arms.len()
                > 0 && exists|j: int| 0 <= j < arms.len() && placed(arms, arm)[i] == arms[j])),
    decreases arms.len(),
{
    broadcast use vstd::seq_lib::group_to_multiset_ensures;

    if arms.len() == 0 || arm_order(arms.last().0, arm.0) != Comparison::Greater {
        let all = arms.push(arm);
        assert forall|i: int, j: int| 0 <= i <= j < all.len() implies arm_order(
            (#[trigger] all[i]).0,
            (#[trigger] all[j]).0,
        ) != Comparison::Greater by {
            if j == arms.len() {
                if i < j {
                    assert(arms[i] == all[i]);
                    assert(arm_order(arms[i].0, arms[arms.len() - 1].0) != Comparison::Greater);
                    lemma_arm_order(arms[i].0, arms.last().0, arm.0);
                } else {
                    lemma_arm_order(arm.0, arm.0, arm.0);
                }
            } else {
                assert(arms[i] == all[i] && arms[j] == all[j]);
            }
        }
        assert forall|i: int| 0 <= i < all.len() implies (#[trigger] all[i] == arm || (arms.len()
            > 0 && exists|j: int| 0 <= j < arms.len() && all[i] == arms[j])) by {
            if i < arms.len() {
                assert(all[i] == arms[i]);
            }
        }
    } else {
        let rest = arms.drop_last();
        let last = arms.last();
        assert(is_ordered(rest)) by {
            assert forall|i: int, j: int| 0 <= i <= j < rest.len() implies arm_order(
                (#[trigger] rest[i]).0,
                (#[trigger] rest[j]).0,
            ) != Comparison::Greater by {
                assert(rest[i] == arms[i] && rest[j] == arms[j]);
            }
        }
        lemma_placed(rest, arm);
        let before = placed(rest, arm);
        let all = before.push(last);
        assert(placed(arms, arm) == all);
        lemma_arm_order(arm.0, last.0, last.0);
        assert forall|i: int, j: int| 0 <= i <= j < all.len() implies arm_order(
            (#[trigger] all[i]).0,
            (#[trigger] all[j]).0,
        ) != Comparison::Greater by {
            if j == before.len() {
                if i < j {
                    assert(all[i] == before[i]);
                    if before[i] != arm {
                        let k = choose|k: int| 0 <= k < rest.len() && before[i] == rest[k];
                        assert(rest[k] == arms[k]);
                        assert(arm_order(arms[k].0, arms[arms.len() - 1].0)
                            != Comparison::Greater);
                    }
                } else {
                    lemma_arm_order(last.0, last.0, last.0);
                }
            } else {
                assert(all[i] == before[i] && all[j] == before[j]);
            }
        }
        assert(rest.push(last) =~= arms);
        assert(all.to_multiset() =~= arms.to_multiset().insert(arm));
        assert forall|name: Option<Seq<char>>| #[trigger]
            naming(all, name) == naming(arms.push(arm), name) by {
            let keeps = |arm: ArmTerm| arm_name(arm.0) == name;
            assert(naming(before, name) == naming(rest.push(arm), name));
            assert(all.drop_last() =~= before);
            assert(rest.push(arm).drop_last() =~= rest);
            assert(arms.push(arm).drop_last() =~= arms);
            reveal_with_fuel(Seq::filter, 3);
            assert(naming(all, name) == if keeps(last) {
                naming(before, name).push(last)
            } else {
                naming(before, name)
            });
            assert(naming(rest.push(arm), name) == if keeps(arm) {
                naming(rest, name).push(arm)
            } else {
                naming(rest, name)
            });
            assert(naming(arms, name) == if keeps(last) {
                naming(rest, name).push(last)
            } else {
                naming(rest, name)
            });
            assert(naming(arms.push(arm), name) == if keeps(arm) {
                naming(arms, name).push(arm)
            } else {
                naming(arms, name)
            });
            lemma_arm_order(last.0, arm.0, arm.0);
        }
        assert forall|i: int| 0 <= i < all.len() implies (#[trigger] all[i] == arm || (arms.len()
            > 0 && exists|j: int| 0 <= j < arms.len() && all[i] == arms[j])) by {
            if i < before.len() {
                assert(all[i] == before[i]);
                if before[i] != arm {
                    let k = choose|k: int| 0 <= k < rest.len() && before[i] == rest[k];
                    assert(all[i] == arms[k]);
                }
            } else {
                assert(all[i] == arms[arms.len() - 1]);
            }
        }
    }
}

/// Putting arms in canonical order sorts them, adds and drops none, and never
/// moves an arm past another that names the same thing.
pub proof fn law_select_sorts_stably(arms: Seq<ArmTerm>)
    ensures
        is_ordered(in_order(arms)),
        in_order(arms).len() == arms.len(),
        in_order(arms).to_multiset() == arms.to_multiset(),
        forall|name: Option<Seq<char>>| #[trigger]
            naming(in_order(arms), name) == naming(arms, name),
    decreases arms.len(),
{
    broadcast use vstd::seq_lib::group_to_multiset_ensures;

    if arms.len() > 0 {
        law_select_sorts_stably(arms.drop_last());
        let sorted = in_order(arms.drop_last());
        lemma_placed(sorted, arms.last());
        assert(arms.drop_last().push(arms.last()) =~= arms);
        assert forall|name: Option<Seq<char>>| #[trigger]
            naming(in_order(arms), name) == naming(arms, name) by {
            assert(naming(sorted, name) == naming(arms.drop_last(), name));
            assert(sorted.push(arms.last()).drop_last() =~= sorted);
            reveal_with_fuel(Seq::filter, 2);
        }
    }
}

impl Arm {
    /// How two arms compare: by name, with whatever matches anything last.
    fn order(&self, other: &Arm) -> (order: Comparison)
        ensures
            order == arm_order(self.pattern@, other.pattern@),
    {
        match (&self.pattern, &other.pattern) {
            (Pattern::Variant { name: left, .. }, Pattern::Variant { name: right, .. }) =>
                text_compared(left.as_str(), right.as_str()),
            (Pattern::Variant { .. }, _) => Comparison::Less,
            (_, Pattern::Variant { .. }) => Comparison::Greater,
            _ => Comparison::Equal,
        }
    }
}

/// Puts one more arm among arms in order.
fn place(arms: &mut Vec<Arm>, arm: Arm)
    ensures
        arm_terms(final(arms)@) == placed(arm_terms(old(arms)@), (arm.pattern@, arm.body@)),
{
    let ghost before = arms@;
    let ghost terms = arm_terms(before);
    let ghost new = (arm.pattern@, arm.body@);
    let mut at: usize = arms.len();
    proof {
        assert(terms.take(at as int) =~= terms);
        assert(placed(terms, new) =~= placed(terms.take(at as int), new) + terms.skip(at as int));
    }
    while at > 0 && arms[at - 1].order(&arm) == Comparison::Greater
        invariant
            at <= arms@.len(),
            arms@ == before,
            terms == arm_terms(before),
            new == (arm.pattern@, arm.body@),
            placed(terms, new) == placed(terms.take(at as int), new) + terms.skip(at as int),
        decreases at,
    {
        proof {
            assert(terms.take(at as int).drop_last() =~= terms.take(at - 1));
            assert(terms.take(at as int).last() == terms[at - 1]);
            assert(placed(terms.take(at - 1), new).push(terms[at - 1]) + terms.skip(at as int)
                =~= placed(terms.take(at - 1), new) + terms.skip(at - 1));
        }
        at -= 1;
    }
    proof {
        if at > 0 {
            assert(terms.take(at as int).last() == terms[at - 1]);
        }
        assert(placed(terms.take(at as int), new) == terms.take(at as int).push(new));
    }
    arms.insert(at, arm);
    assert(arm_terms(arms@) =~= terms.take(at as int).push(new) + terms.skip(at as int));
}

impl Form {
    /// A `Select` with its arms in canonical order.
    ///
    /// Sorting is stable, so arms that name the same thing keep the order they
    /// were written in and nothing is silently reordered past a duplicate.
    pub fn select(scrutinee: Form, arms: Vec<Arm>) -> (selected: Form)
        ensures
            selected@ == select_term(scrutinee@, in_order(arm_terms(arms@))),
    {
        let ghost terms = arm_terms(arms@);
        let mut arms = arms;
        let mut sorted: Vec<Arm> = Vec::new();
        let count: usize = arms.len();
        assert(arm_terms(sorted@) =~= in_order(terms.take(0)));
        for i in 0..count
            invariant
                count == terms.len(),
                arms@.len() == count - i,
                arm_terms(arms@) == terms.skip(i as int),
                arm_terms(sorted@) == in_order(terms.take(i as int)),
        {
            let ghost before = arms@;
            let arm = arms.remove(0);
            proof {
                assert(arm_terms(before)[0] == (arm.pattern@, arm.body@));
                assert(terms.skip(i as int)[0] == terms[i as int]);
                assert(terms.take(i + 1).drop_last() =~= terms.take(i as int));
                assert(arm_terms(arms@) =~= arm_terms(before).skip(1));
                assert(terms.skip(i as int).skip(1) =~= terms.skip(i + 1));
            }
            place(&mut sorted, arm);
        }
        assert(terms.take(count as int) =~= terms);
        let ghost ordered = in_order(terms);
        assert(arm_patterns(sorted@) =~= Seq::new(ordered.len(), |i: int| ordered[i].0));
        assert(arm_bodies(sorted@) =~= Seq::new(ordered.len(), |i: int| ordered[i].1));
        Form::Select { scrutinee: Box::new(scrutinee), arms: sorted }
    }
}

} // verus!
