//! Stable sorting.

use crate::text::{carries_over, number_order, settled_by, turns_round, Comparison, Triangle};
use vstd::prelude::*;
use vstd::seq_lib::*;

verus! {

/// A type whose values can be compared to be sorted.
pub trait Sortable: Sized {
    /// How two values compare.
    spec fn sort_order(&self, other: &Self) -> Comparison;

    /// Values are compared alike either way round, and over one step and two.
    proof fn sorts_consistently(first: Self, second: Self, third: Self)
        ensures
            turns_round(first.sort_order(&second), second.sort_order(&first)),
            carries_over(
                first.sort_order(&second),
                second.sort_order(&third),
                first.sort_order(&third),
            ),
    ;

    /// How two values compare.
    fn compared_to(&self, other: &Self) -> (order: Comparison)
        ensures
            order == self.sort_order(other),
    ;
}

/// Where a value goes among the first so many of a sorted list: behind the last
/// that does not come after it.
pub open spec fn place_behind<T: Sortable>(sorted: Seq<T>, item: T, n: int) -> int
    decreases n,
{
    if n <= 0 || n > sorted.len() || sorted[n - 1].sort_order(&item) != Comparison::Greater {
        n
    } else {
        place_behind(sorted, item, n - 1)
    }
}

/// A sorted list with one more value.
pub open spec fn inserted<T: Sortable>(sorted: Seq<T>, item: T) -> Seq<T> {
    sorted.insert(place_behind(sorted, item, sorted.len() as int), item)
}

/// A list sorted: each value in turn put behind those that do not come after it.
pub open spec fn sorted_of<T: Sortable>(items: Seq<T>) -> Seq<T>
    decreases items.len(),
{
    if items.len() == 0 {
        Seq::empty()
    } else {
        inserted(sorted_of(items.drop_last()), items.last())
    }
}

/// A place is within the list.
pub(crate) proof fn lemma_place_behind<T: Sortable>(sorted: Seq<T>, item: T, n: int)
    requires
        0 <= n <= sorted.len(),
    ensures
        0 <= place_behind(sorted, item, n) <= n,
        forall|i: int|
            place_behind(sorted, item, n) <= i < n ==> (#[trigger] sorted[i]).sort_order(&item)
                == Comparison::Greater,
        place_behind(sorted, item, n) > 0 ==> sorted[place_behind(sorted, item, n) - 1].sort_order(
            &item,
        ) != Comparison::Greater,
    decreases n,
{
    if n > 0 && sorted[n - 1].sort_order(&item) == Comparison::Greater {
        lemma_place_behind(sorted, item, n - 1);
    }
}

/// A list with a value put into it holds that value besides what it held.
proof fn lemma_inserted_multiset<T>(list: Seq<T>, place: int, item: T)
    requires
        0 <= place <= list.len(),
    ensures
        list.insert(place, item).to_multiset() == list.to_multiset().insert(item),
{
    let front = list.take(place);
    let back = list.skip(place);
    assert(list =~= front + back);
    assert(list.insert(place, item) =~= front.push(item) + back);
    lemma_multiset_commutative(front, back);
    lemma_multiset_commutative(front.push(item), back);
    front.to_multiset_ensures();
    assert((front.push(item) + back).to_multiset() =~= list.to_multiset().insert(item));
}

/// Sorting a list loses and adds nothing.
pub proof fn law_sorting_permutes<T: Sortable>(items: Seq<T>)
    ensures
        sorted_of(items).len() == items.len(),
        sorted_of(items).to_multiset() == items.to_multiset(),
    decreases items.len(),
{
    if items.len() > 0 {
        let before = sorted_of(items.drop_last());
        law_sorting_permutes(items.drop_last());
        lemma_place_behind(before, items.last(), before.len() as int);
        let place = place_behind(before, items.last(), before.len() as int);
        before.to_multiset_ensures();
        items.drop_last().to_multiset_ensures();
        lemma_inserted_multiset(before, place, items.last());
        assert(items.drop_last().push(items.last()) =~= items);
        assert(items.to_multiset() =~= items.drop_last().to_multiset().insert(items.last()));
    } else {
        assert(items =~= Seq::empty());
    }
}

/// Whether no value of a list comes after a later one.
pub open spec fn is_sorted<T: Sortable>(list: Seq<T>) -> bool {
    forall|i: int, j: int|
        0 <= i < j < list.len() ==> (#[trigger] list[i]).sort_order(#[trigger] &list[j])
            != Comparison::Greater
}

/// A sorted list is in order.
pub proof fn law_sorting_orders<T: Sortable>(items: Seq<T>)
    ensures
        is_sorted(sorted_of(items)),
    decreases items.len(),
{
    if items.len() > 0 {
        let before = sorted_of(items.drop_last());
        let item = items.last();
        law_sorting_orders(items.drop_last());
        lemma_place_behind(before, item, before.len() as int);
        let place = place_behind(before, item, before.len() as int);
        let after = before.insert(place, item);
        assert forall|i: int, j: int| 0 <= i < j < after.len() implies (
        #[trigger] after[i]).sort_order(#[trigger] &after[j]) != Comparison::Greater by {
            let a = if i < place {
                i
            } else {
                i - 1
            };
            let b = if j < place {
                j
            } else {
                j - 1
            };
            if i == place {
                assert(after[j] == before[b]);
                assert(before[b].sort_order(&item) == Comparison::Greater);
                T::sorts_consistently(before[b], item, before[b]);
            } else if j == place {
                assert(after[i] == before[a]);
                let last = place - 1;
                if a < last {
                    assert(before[a].sort_order(&before[last]) != Comparison::Greater);
                }
                assert(before[last].sort_order(&item) != Comparison::Greater);
                T::sorts_consistently(before[a], before[last], item);
            } else {
                assert(after[i] == before[a] && after[j] == before[b]);
            }
        }
    }
}

/// A list sorted, values that compare equal kept in the order they had.
pub fn sorted_list<T: Sortable>(items: Vec<T>) -> (sorted: Vec<T>)
    ensures
        sorted@ == sorted_of(items@),
{
    let ghost all = items@;
    let mut rest = crate::lists::reversed(items);
    let ghost backward = rest@;
    let count: usize = rest.len();
    let mut sorted: Vec<T> = Vec::new();
    let mut i: usize = 0;
    assert(all.take(0) =~= Seq::empty());
    while i < count
        invariant
            i <= count == all.len() == backward.len(),
            rest@ == backward.take(count - i),
            forall|k: int| 0 <= k < count ==> #[trigger] backward[k] == all[count - 1 - k],
            sorted@ == sorted_of(all.take(i as int)),
        decreases count - i,
    {
        if let Some(item) = rest.pop() {
            proof {
                assert(item == backward[count - 1 - i]);
                assert(rest@ =~= backward.take(count - i - 1));
                assert(all.take(i + 1).drop_last() =~= all.take(i as int));
                assert(all.take(i + 1).last() == item);
            }
            put_behind(&mut sorted, item);
        }
        i += 1;
    }
    assert(all.take(i as int) =~= all);
    sorted
}

/// Puts a value into a sorted list.
fn put_behind<T: Sortable>(sorted: &mut Vec<T>, item: T)
    ensures
        final(sorted)@ == inserted(old(sorted)@, item),
{
    let ghost before = sorted@;
    let mut n: usize = sorted.len();
    while n > 0
        invariant
            n <= sorted@.len(),
            sorted@ == before,
            before == old(sorted)@,
            place_behind(before, item, before.len() as int) == place_behind(
                before,
                item,
                n as int,
            ),
        decreases n,
    {
        match sorted[n - 1].compared_to(&item) {
            Comparison::Greater => {},
            _ => {
                sorted.insert(n, item);
                return;
            },
        }
        n -= 1;
    }
    sorted.insert(0, item);
}

/// How two lists compare: item by item, and then the shorter first.
pub open spec fn list_order<T: Sortable>(left: Seq<T>, right: Seq<T>) -> Comparison
    decreases left.len(),
{
    if left.len() == 0 || right.len() == 0 {
        number_order(left.len() as int, right.len() as int)
    } else {
        settled_by(
            left[0].sort_order(&right[0]),
            list_order(left.drop_first(), right.drop_first()),
        )
    }
}

/// The comparisons of three lists.
pub open spec fn list_triangle<T: Sortable>(first: Seq<T>, second: Seq<T>, third: Seq<T>) -> Triangle {
    Triangle {
        there: list_order(first, second),
        back: list_order(second, first),
        next: list_order(second, third),
        across: list_order(first, third),
    }
}

/// Lists are compared alike either way round, and over one step and two.
pub proof fn lemma_list_order_consistent<T: Sortable>(
    first: Seq<T>,
    second: Seq<T>,
    third: Seq<T>,
)
    ensures
        turns_round(list_order(first, second), list_order(second, first)),
        carries_over(
            list_order(first, second),
            list_order(second, third),
            list_order(first, third),
        ),
    decreases first.len(),
{
    if first.len() > 0 && second.len() > 0 {
        let last = if third.len() > 0 {
            third
        } else {
            first
        };
        T::sorts_consistently(first[0], second[0], last[0]);
        lemma_list_order_consistent(first.drop_first(), second.drop_first(), last.drop_first());
    }
}

/// How two lists compare.
#[verifier::loop_isolation(false)]
pub fn list_compared<T: Sortable>(left: &Vec<T>, right: &Vec<T>) -> (order: Comparison)
    ensures
        order == list_order(left@, right@),
{
    let mut i: usize = 0;
    assert(left@.skip(0) =~= left@);
    assert(right@.skip(0) =~= right@);
    while i < left.len() && i < right.len()
        invariant
            i <= left@.len(),
            i <= right@.len(),
            list_order(left@, right@) == list_order(left@.skip(i as int), right@.skip(i as int)),
        decreases left@.len() - i,
    {
        assert(left@.skip(i as int).drop_first() =~= left@.skip(i + 1));
        assert(right@.skip(i as int).drop_first() =~= right@.skip(i + 1));
        assert(left@.skip(i as int)[0] == left@[i as int]);
        assert(right@.skip(i as int)[0] == right@[i as int]);
        let order = left[i].compared_to(&right[i]);
        match order {
            Comparison::Equal => {},
            _ => {
                return order;
            },
        }
        i += 1;
    }
    if i < left.len() {
        Comparison::Greater
    } else if i < right.len() {
        Comparison::Less
    } else {
        Comparison::Equal
    }
}

} // verus!
