//! What simplifying settles: names that nothing binds become holes of their
//! own, a form that no law changes is left alone, and no binding is unfolded
//! into itself.

use crate::lists::{joined, position_of};
use crate::normalize::form::{Form, Term};
use crate::normalize::measure::{free_names, mentions_local};
use crate::normalize::names::{
    bound_names, each_bound_names, each_unbound_names, lemma_highest_bounds, unbound_names,
};
use crate::normalize::shaped::{is_shaped, lemma_form_shaped};
use crate::normalize::simplify::{
    assigned, each_opened, first_ready, fresh_names, generalized_term, has_room, hole_limit,
    is_known, is_ready, names_only_known, opened, reduced, safe_after, safe_bindings, swept,
    MAX_SWEEPS, MAX_UNFOLDS,
};
use vstd::prelude::*;

verus! {

/// Lists joined are empty where each is.
proof fn lemma_joined_nothing(lists: Seq<Seq<u32>>)
    ensures
        joined(lists).len() == 0 <==> forall|i: int|
            0 <= i < lists.len() ==> (#[trigger] lists[i]).len() == 0,
    decreases lists.len(),
{
    if lists.len() > 0 {
        lemma_joined_nothing(lists.drop_last());
        if joined(lists).len() == 0 {
            assert forall|i: int| 0 <= i < lists.len() implies (#[trigger] lists[i]).len() == 0 by {
                if i < lists.len() - 1 {
                    assert(lists.drop_last()[i] == lists[i]);
                }
            }
        }
        if forall|i: int| 0 <= i < lists.len() ==> (#[trigger] lists[i]).len() == 0 {
            assert forall|i: int| 0 <= i < lists.drop_last().len() implies (
            #[trigger] lists.drop_last()[i]).len() == 0 by {
                assert(lists[i].len() == 0);
            }
            assert(lists.last() == lists[lists.len() - 1]);
        }
    }
}

/// A term that leaves no name unbound is opened to itself.
proof fn lemma_opened_closed(term: Term, bound: Seq<u32>, fresh: Seq<u32>, next: nat)
    requires
        unbound_names(term, bound).len() == 0,
    ensures
        opened(term, bound, fresh, next) == term,
    decreases term,
{
    assert(decreases_to!(term => term.parts));
    lemma_joined_nothing(each_unbound_names(term.parts, bound));
    assert forall|i: int| 0 <= i < term.parts.len() implies #[trigger] each_opened(
        term.parts,
        bound,
        fresh,
        next,
    )[i] == term.parts[i] by {
        assert(each_unbound_names(term.parts, bound)[i].len() == 0);
        lemma_opened_closed(term.parts[i], bound, fresh, next);
    }
    assert(each_opened(term.parts, bound, fresh, next) =~= term.parts);
}

/// Opening a term leaves no name unbound.
proof fn lemma_opened_binds_all(term: Term, bound: Seq<u32>, fresh: Seq<u32>, next: nat)
    ensures
        unbound_names(opened(term, bound, fresh, next), bound).len() == 0,
    decreases term,
{
    assert(decreases_to!(term => term.parts));
    let after = opened(term, bound, fresh, next);
    let each = each_unbound_names(after.parts, bound);
    assert forall|i: int| 0 <= i < each.len() implies (#[trigger] each[i]).len() == 0 by {
        lemma_opened_binds_all(term.parts[i], bound, fresh, next);
    }
    lemma_joined_nothing(each);
}

/// Opening a term keeps the names it binds.
proof fn lemma_opened_bound_names(term: Term, bound: Seq<u32>, fresh: Seq<u32>, next: nat)
    requires
        is_shaped(term),
    ensures
        bound_names(opened(term, bound, fresh, next)) == bound_names(term),
    decreases term,
{
    assert(decreases_to!(term => term.parts));
    let after = opened(term, bound, fresh, next);
    if term.shape is Local && after.shape is Free {
        assert(term.parts.len() == 0);
        assert(each_bound_names(after.parts) =~= each_bound_names(term.parts));
    } else {
        assert forall|i: int| 0 <= i < term.parts.len() implies #[trigger] each_bound_names(
            after.parts,
        )[i] == each_bound_names(term.parts)[i] by {
            assert(is_shaped(term.parts[i]));
            lemma_opened_bound_names(term.parts[i], bound, fresh, next);
        }
        assert(each_bound_names(after.parts) =~= each_bound_names(term.parts));
    }
}

/// Generalizing leaves no name that nothing binds, and binds the same names as
/// before.
pub proof fn law_generalizing_leaves_no_name_unbound(form: Form)
    ensures
        bound_names(generalized_term(form@)) == bound_names(form@),
        unbound_names(
            generalized_term(form@),
            bound_names(generalized_term(form@)),
        ).len() == 0,
{
    let term = form@;
    lemma_form_shaped(form);
    lemma_opened_bound_names(term, bound_names(term), fresh_names(term), hole_limit(term));
    lemma_opened_binds_all(term, bound_names(term), fresh_names(term), hole_limit(term));
}

/// A name that becomes a hole becomes one that the term did not have, and two
/// names become two holes.
pub proof fn law_new_holes_do_not_collide(term: Term, name: u32, other: u32)
    requires
        has_room(term),
        fresh_names(term).contains(name),
        fresh_names(term).contains(other),
    ensures
        ({
            let hole = assigned(fresh_names(term), hole_limit(term), name);
            &&& !free_names(term).contains(hole)
            &&& hole == assigned(fresh_names(term), hole_limit(term), other) ==> name == other
        }),
{
    let fresh = fresh_names(term);
    let next = hole_limit(term);
    let hole = assigned(fresh, next, name);
    let i = position_of(fresh, name);
    let j = position_of(fresh, other);
    assert(0 <= i < fresh.len() && fresh[i] == name);
    assert(0 <= j < fresh.len() && fresh[j] == other);
    if free_names(term).contains(hole) {
        let k = choose|k: int| 0 <= k < free_names(term).len() && free_names(term)[k] == hole;
        lemma_highest_bounds(free_names(term), k);
    }
}

/// A form that a sweep does not change, and that binds every name it mentions,
/// is simplified to itself.
pub proof fn law_a_settled_form_is_left_alone(form: Form)
    requires
        swept(form@, MAX_UNFOLDS as nat).0 == form@,
        unbound_names(form@, bound_names(form@)).len() == 0,
    ensures
        generalized_term(reduced(form@, MAX_UNFOLDS as nat, MAX_SWEEPS as nat)) == form@,
{
    lemma_opened_closed(form@, bound_names(form@), fresh_names(form@), hole_limit(form@));
}

/// What was simplified and what a further sweep does not change is simplified to
/// itself. A form that reaches the bound on sweeps or on unfolding may still
/// change.
pub proof fn law_simplifying_again_changes_nothing(reached: Form, simplified: Form)
    requires
        simplified@ == generalized_term(reached@),
        swept(simplified@, MAX_UNFOLDS as nat).0 == simplified@,
    ensures
        generalized_term(reduced(simplified@, MAX_UNFOLDS as nat, MAX_SWEEPS as nat))
            == simplified@,
{
    law_generalizing_leaves_no_name_unbound(reached);
    law_a_settled_form_is_left_alone(simplified);
}

/// The first binding that is ready is one of them, and is ready.
proof fn lemma_first_ready(bindings: Seq<(u32, Term)>, safe: Seq<(u32, Term)>, i: int)
    requires
        0 <= i,
    ensures
        match first_ready(bindings, safe, i) {
            Some(found) => i <= found < bindings.len() && is_ready(bindings, safe, found),
            None => forall|j: int|
                i <= j < bindings.len() ==> !#[trigger] is_ready(bindings, safe, j),
        },
    decreases bindings.len() - i,
{
    if i < bindings.len() && !is_ready(bindings, safe, i) {
        lemma_first_ready(bindings, safe, i + 1);
    }
}

/// Whether each of some bindings is one of a group, and names of that group only
/// those before it.
pub open spec fn names_only_earlier(
    safe: Seq<(u32, Term)>,
    bindings: Seq<(u32, Term)>,
) -> bool {
    forall|i: int|
        0 <= i < safe.len() ==> bindings.contains(#[trigger] safe[i]) && names_only_known(
            safe[i].1,
            bindings,
            safe.take(i),
        )
}

proof fn lemma_safe_after(bindings: Seq<(u32, Term)>, rounds: nat)
    ensures
        names_only_earlier(safe_after(bindings, rounds), bindings),
    decreases rounds,
{
    if rounds > 0 {
        let before = safe_after(bindings, (rounds - 1) as nat);
        lemma_safe_after(bindings, (rounds - 1) as nat);
        lemma_first_ready(bindings, before, 0);
        if let Some(found) = first_ready(bindings, before, 0) {
            let after = before.push(bindings[found]);
            assert forall|i: int| 0 <= i < after.len() implies bindings.contains(
                #[trigger] after[i],
            ) && names_only_known(after[i].1, bindings, after.take(i)) by {
                if i < before.len() {
                    assert(after[i] == before[i]);
                    assert(after.take(i) =~= before.take(i));
                } else {
                    assert(after.take(i) =~= before);
                }
            }
        }
    }
}

/// What is unfolded names only what is found before it: a body that calls
/// itself, or one that calls it, is never unfolded.
pub proof fn law_unfolded_bindings_do_not_cycle(bindings: Seq<(u32, Term)>)
    ensures
        names_only_earlier(safe_bindings(bindings), bindings),
{
    lemma_safe_after(bindings, bindings.len());
}

/// A name whose bodies all mention it is not among what is unfolded.
pub proof fn law_a_body_that_names_itself_is_not_unfolded(
    bindings: Seq<(u32, Term)>,
    name: u32,
)
    requires
        forall|i: int|
            0 <= i < bindings.len() && (#[trigger] bindings[i]).0 == name ==> mentions_local(
                bindings[i].1,
                name,
            ),
    ensures
        !is_known(safe_bindings(bindings), name),
{
    let safe = safe_bindings(bindings);
    law_unfolded_bindings_do_not_cycle(bindings);
    lemma_not_before(safe, bindings, name, safe.len() as int);
    assert(safe.take(safe.len() as int) =~= safe);
}

/// No binding of the name stands before a place.
proof fn lemma_not_before(
    safe: Seq<(u32, Term)>,
    bindings: Seq<(u32, Term)>,
    name: u32,
    i: int,
)
    requires
        names_only_earlier(safe, bindings),
        forall|j: int|
            0 <= j < bindings.len() && (#[trigger] bindings[j]).0 == name ==> mentions_local(
                bindings[j].1,
                name,
            ),
        0 <= i <= safe.len(),
    ensures
        !is_known(safe.take(i), name),
    decreases i,
{
    if is_known(safe.take(i), name) {
        let k = choose|k: int|
            0 <= k < safe.take(i).len() && (#[trigger] safe.take(i)[k]).0 == name;
        assert(safe[k] == safe.take(i)[k]);
        lemma_not_before(safe, bindings, name, k);
        let j = choose|j: int| 0 <= j < bindings.len() && bindings[j] == safe[k];
        assert(bindings[j].0 == name);
        assert(is_known(safe.take(k), bindings[j].0));
    }
}

} // verus!
