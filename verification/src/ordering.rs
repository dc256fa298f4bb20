//! Lists kept in a total order without repetition.

use crate::text::{lemma_text_order_total, text_compared, text_order, Comparison};
use vstd::prelude::*;

verus! {

/// A type whose values are put in a total order by their content.
pub trait Ordered: Sized {
    type Key;

    /// The content that a value is ordered and told apart by.
    spec fn key(&self) -> Self::Key;

    /// How two contents compare.
    spec fn order(left: Self::Key, right: Self::Key) -> Comparison;

    /// The order is total: only equal contents compare equal, swapping turns a
    /// comparison round, and it carries over from one step to two.
    proof fn order_is_total(first: Self::Key, second: Self::Key, third: Self::Key)
        ensures
            Self::order(first, second) == Comparison::Equal <==> first == second,
            Self::order(first, second) == Comparison::Less <==> Self::order(second, first)
                == Comparison::Greater,
            Self::order(first, second) != Comparison::Greater && Self::order(second, third)
                != Comparison::Greater ==> Self::order(first, third) != Comparison::Greater,
    ;

    /// How two values compare.
    fn ordered(&self, other: &Self) -> (order: Comparison)
        ensures
            order == Self::order(self.key(), other.key()),
    ;
}

/// The contents of a list.
pub open spec fn keys<T: Ordered>(items: Seq<T>) -> Seq<T::Key> {
    Seq::new(items.len(), |i: int| items[i].key())
}

/// Whether a list of contents ascends without repetition.
pub open spec fn ascends<T: Ordered>(list: Seq<T::Key>) -> bool {
    forall|i: int, j: int|
        0 <= i < j < list.len() ==> T::order(#[trigger] list[i], #[trigger] list[j])
            == Comparison::Less
}

/// Whether a list holds exactly what another holds, in order and without
/// repetition.
pub open spec fn settles_into<T: Ordered>(items: Seq<T::Key>, list: Seq<T::Key>) -> bool {
    &&& ascends::<T>(list)
    &&& forall|key: T::Key| #[trigger] list.contains(key) <==> items.contains(key)
}

/// What comes before something that comes before a third comes before it too.
pub proof fn lemma_before<T: Ordered>(first: T::Key, second: T::Key, third: T::Key)
    requires
        T::order(first, second) == Comparison::Less,
        T::order(second, third) == Comparison::Less,
    ensures
        T::order(first, third) == Comparison::Less,
{
    T::order_is_total(first, second, third);
    T::order_is_total(second, third, first);
    T::order_is_total(third, first, second);
    T::order_is_total(first, third, second);
}

/// Two ascending lists that hold the same things are the same list.
pub proof fn lemma_ascending_unique<T: Ordered>(left: Seq<T::Key>, right: Seq<T::Key>)
    requires
        ascends::<T>(left),
        ascends::<T>(right),
        forall|key: T::Key| left.contains(key) <==> right.contains(key),
    ensures
        left == right,
    decreases left.len(),
{
    if left.len() == 0 {
        if right.len() > 0 {
            assert(right.contains(right[0]));
        }
        assert(left =~= right);
    } else {
        assert(left.contains(left[0]));
        let r = choose|r: int| 0 <= r < right.len() && right[r] == left[0];
        assert(right.contains(right[0]));
        let l = choose|l: int| 0 <= l < left.len() && left[l] == right[0];
        T::order_is_total(left[0], left[l], left[0]);
        T::order_is_total(right[0], right[r], right[0]);
        T::order_is_total(left[0], left[0], left[0]);
        T::order_is_total(right[0], right[0], right[0]);
        assert(l == 0 && r == 0);
        let left_rest = left.drop_first();
        let right_rest = right.drop_first();
        assert forall|key: T::Key| left_rest.contains(key) <==> right_rest.contains(key) by {
            if left_rest.contains(key) {
                let k = choose|k: int| 0 <= k < left_rest.len() && left_rest[k] == key;
                assert(left[k + 1] == key);
                assert(left.contains(key));
                let m = choose|m: int| 0 <= m < right.len() && right[m] == key;
                T::order_is_total(left[0], left[k + 1], key);
                assert(m != 0);
                assert(right_rest[m - 1] == key);
            }
            if right_rest.contains(key) {
                let k = choose|k: int| 0 <= k < right_rest.len() && right_rest[k] == key;
                assert(right[k + 1] == key);
                assert(right.contains(key));
                let m = choose|m: int| 0 <= m < left.len() && left[m] == key;
                T::order_is_total(right[0], right[k + 1], key);
                assert(m != 0);
                assert(left_rest[m - 1] == key);
            }
        }
        assert(ascends::<T>(left_rest)) by {
            assert forall|i: int, j: int| 0 <= i < j < left_rest.len() implies T::order(
                #[trigger] left_rest[i],
                #[trigger] left_rest[j],
            ) == Comparison::Less by {
                assert(left_rest[i] == left[i + 1] && left_rest[j] == left[j + 1]);
            }
        }
        assert(ascends::<T>(right_rest)) by {
            assert forall|i: int, j: int| 0 <= i < j < right_rest.len() implies T::order(
                #[trigger] right_rest[i],
                #[trigger] right_rest[j],
            ) == Comparison::Less by {
                assert(right_rest[i] == right[i + 1] && right_rest[j] == right[j + 1]);
            }
        }
        lemma_ascending_unique::<T>(left_rest, right_rest);
        assert(left =~= seq![left[0]] + left_rest);
        assert(right =~= seq![right[0]] + right_rest);
    }
}

/// What a list settles into does not depend on the order it was written in, nor
/// on how often each thing was written.
pub proof fn law_settling_ignores_order<T: Ordered>(
    first: Seq<T::Key>,
    second: Seq<T::Key>,
    first_list: Seq<T::Key>,
    second_list: Seq<T::Key>,
)
    requires
        forall|key: T::Key| first.contains(key) <==> second.contains(key),
        settles_into::<T>(first, first_list),
        settles_into::<T>(second, second_list),
    ensures
        first_list == second_list,
{
    assert forall|key: T::Key| first_list.contains(key) <==> second_list.contains(key) by {
        assert(first_list.contains(key) <==> first.contains(key));
        assert(second_list.contains(key) <==> second.contains(key));
    }
    lemma_ascending_unique::<T>(first_list, second_list);
}

/// Where a value stands in an ascending list, or where it would be put.
pub fn place_of<T: Ordered>(list: &Vec<T>, item: &T) -> (place: (usize, bool))
    requires
        ascends::<T>(keys(list@)),
    ensures
        place.0 <= list@.len(),
        place.1 == keys(list@).contains(item.key()),
        place.1 ==> place.0 < list@.len() && list@[place.0 as int].key() == item.key(),
        forall|i: int|
            0 <= i < place.0 ==> T::order((#[trigger] list@[i]).key(), item.key())
                == Comparison::Less,
        !place.1 ==> forall|i: int|
            place.0 <= i < list@.len() ==> T::order(item.key(), (#[trigger] list@[i]).key())
                == Comparison::Less,
{
    let mut low: usize = 0;
    let mut high: usize = list.len();
    let ghost all = keys(list@);
    while low < high
        invariant
            ascends::<T>(all),
            all == keys(list@),
            low <= high <= list@.len(),
            forall|i: int|
                0 <= i < low ==> T::order((#[trigger] list@[i]).key(), item.key())
                    == Comparison::Less,
            forall|i: int|
                high <= i < list@.len() ==> T::order(item.key(), (#[trigger] list@[i]).key())
                    == Comparison::Less,
        decreases high - low,
    {
        let middle: usize = low + (high - low) / 2;
        assert(all[middle as int] == list@[middle as int].key());
        match list[middle].ordered(item) {
            Comparison::Less => {
                proof {
                    assert forall|i: int| 0 <= i < middle + 1 implies T::order(
                        (#[trigger] list@[i]).key(),
                        item.key(),
                    ) == Comparison::Less by {
                        assert(all[i] == list@[i].key());
                        if i < middle {
                            lemma_before::<T>(all[i], all[middle as int], item.key());
                        }
                    }
                }
                low = middle + 1;
            },
            Comparison::Greater => {
                proof {
                    T::order_is_total(item.key(), all[middle as int], item.key());
                    assert forall|i: int| middle <= i < list@.len() implies T::order(
                        item.key(),
                        (#[trigger] list@[i]).key(),
                    ) == Comparison::Less by {
                        assert(all[i] == list@[i].key());
                        if i > middle {
                            lemma_before::<T>(item.key(), all[middle as int], all[i]);
                        }
                    }
                }
                high = middle;
            },
            Comparison::Equal => {
                proof {
                    T::order_is_total(all[middle as int], item.key(), item.key());
                    assert forall|i: int| 0 <= i < middle implies T::order(
                        (#[trigger] list@[i]).key(),
                        item.key(),
                    ) == Comparison::Less by {
                        assert(all[i] == list@[i].key());
                    }
                }
                return (middle, true);
            },
        }
    }
    proof {
        if all.contains(item.key()) {
            let k = choose|k: int| 0 <= k < all.len() && all[k] == item.key();
            assert(all[k] == list@[k].key());
            T::order_is_total(all[k], item.key(), item.key());
        }
    }
    (low, false)
}

/// Puts a value in its place in an ascending list, unless it is there already;
/// tells whether it was put there.
pub fn put<T: Ordered>(list: &mut Vec<T>, item: T) -> (fresh: bool)
    requires
        ascends::<T>(keys(old(list)@)),
    ensures
        ascends::<T>(keys(final(list)@)),
        fresh == !keys(old(list)@).contains(item.key()),
        final(list)@.len() == old(list)@.len() + if fresh {
            1int
        } else {
            0
        },
        forall|key: T::Key| #[trigger]
            keys(final(list)@).contains(key) <==> key == item.key() || keys(old(list)@).contains(
                key,
            ),
{
    let (place, held) = place_of(list, &item);
    let ghost before = list@;
    if held {
        return false;
    }
    list.insert(place, item);
    proof {
        let after = list@;
        let old_keys = keys(before);
        let new_keys = keys(after);
        assert forall|i: int, j: int| 0 <= i < j < new_keys.len() implies T::order(
            #[trigger] new_keys[i],
            #[trigger] new_keys[j],
        ) == Comparison::Less by {
            let a = if i < place {
                i
            } else {
                i - 1
            };
            let b = if j < place {
                j
            } else {
                j - 1
            };
            if i != place {
                assert(after[i] == before[a] && old_keys[a] == before[a].key());
            }
            if j != place {
                assert(after[j] == before[b] && old_keys[b] == before[b].key());
            }
        }
        assert forall|key: T::Key| #[trigger] new_keys.contains(key) <==> key == item.key()
            || old_keys.contains(key) by {
            if new_keys.contains(key) {
                let k = choose|k: int| 0 <= k < new_keys.len() && new_keys[k] == key;
                if k < place {
                    assert(old_keys[k] == key);
                } else if k > place {
                    assert(old_keys[k - 1] == key);
                }
            }
            if old_keys.contains(key) {
                let k = choose|k: int| 0 <= k < old_keys.len() && old_keys[k] == key;
                if k < place {
                    assert(new_keys[k] == key);
                } else {
                    assert(new_keys[k + 1] == key);
                }
            }
            if key == item.key() {
                assert(new_keys[place as int] == key);
            }
        }
    }
    true
}

/// What a list settles into.
pub open spec fn settled_of<T: Ordered>(items: Seq<T::Key>) -> Seq<T::Key> {
    choose|list: Seq<T::Key>| settles_into::<T>(items, list)
}

/// A list settles into one list only.
pub proof fn lemma_settled_of<T: Ordered>(items: Seq<T::Key>, list: Seq<T::Key>)
    requires
        settles_into::<T>(items, list),
    ensures
        settled_of::<T>(items) == list,
{
    law_settling_ignores_order::<T>(items, items, settled_of::<T>(items), list);
}

/// The other way round.
fn reversed<T: Ordered>(items: Vec<T>) -> (list: Vec<T>)
    ensures
        list@ == items@.reverse(),
{
    let mut items = items;
    let mut list: Vec<T> = Vec::new();
    let ghost all = items@;
    while items.len() > 0
        invariant
            items@.len() <= all.len(),
            items@ == all.take(items@.len() as int),
            list@ == all.skip(items@.len() as int).reverse(),
        decreases items@.len(),
    {
        let ghost remaining = items@.len() as int;
        let ghost before = list@;
        match items.pop() {
            Some(item) => {
                list.push(item);
                proof {
                    assert(items@ =~= all.take(remaining - 1));
                    assert(all.skip(remaining - 1) =~= seq![item] + all.skip(remaining));
                    assert(list@ =~= all.skip(remaining - 1).reverse());
                }
            },
            None => {},
        }
    }
    assert(all.skip(0) =~= all);
    list
}

/// Whether every key of one list comes before every key of another.
spec fn all_before<T: Ordered>(left: Seq<T::Key>, right: Seq<T::Key>) -> bool {
    forall|i: int, j: int|
        0 <= i < left.len() && 0 <= j < right.len() ==> T::order(
            #[trigger] left[i],
            #[trigger] right[j],
        ) == Comparison::Less
}

/// What a list of keys holds after a push.
proof fn lemma_pushed<K>(list: Seq<K>, item: K, key: K)
    ensures
        list.push(item).contains(key) <==> key == item || list.contains(key),
{
    let after = list.push(item);
    if after.contains(key) {
        let k = choose|k: int| 0 <= k < after.len() && after[k] == key;
        if k < list.len() {
            assert(list[k] == key);
        }
    }
    if list.contains(key) {
        let k = choose|k: int| 0 <= k < list.len() && list[k] == key;
        assert(after[k] == key);
    }
    assert(after[list.len() as int] == item);
}

/// Moving the last of one list behind another loses nothing and adds nothing.
proof fn lemma_moved<K>(source: Seq<K>, made: Seq<K>, key: K)
    requires
        source.len() > 0,
    ensures
        (source.drop_last().contains(key) || made.push(source.last()).contains(key)) == (
        source.contains(key) || made.contains(key)),
        (source.drop_last().contains(key) || key == source.last()) == source.contains(key),
{
    lemma_pushed(made, source.last(), key);
    lemma_pushed(source.drop_last(), source.last(), key);
    assert(source.drop_last().push(source.last()) =~= source);
}

/// Whether lists hold between them what two others hold.
spec fn shares_all<K>(
    all_left: Seq<K>,
    all_right: Seq<K>,
    left: Seq<K>,
    right: Seq<K>,
    output: Seq<K>,
) -> bool {
    forall|key: K|
        (#[trigger] all_left.contains(key) || all_right.contains(key)) == (left.contains(key)
            || right.contains(key) || output.contains(key))
}

/// Takes the last of an ascending list, which comes after the others, and puts
/// it behind a descending one.
fn take_last<T: Ordered>(
    source: &mut Vec<T>,
    other: Ghost<Seq<T::Key>>,
    output: &mut Vec<T>,
)
    requires
        old(source)@.len() > 0,
        ascends::<T>(keys(old(source)@)),
        ascends::<T>(keys(old(output)@).reverse()),
        all_before::<T>(keys(old(source)@), keys(old(output)@)),
        all_before::<T>(other@, keys(old(output)@)),
        forall|i: int|
            0 <= i < other@.len() ==> T::order(
                #[trigger] other@[i],
                keys(old(source)@).last(),
            ) == Comparison::Less,
    ensures
        final(source)@ == old(source)@.drop_last(),
        keys(final(source)@) == keys(old(source)@).drop_last(),
        ascends::<T>(keys(final(source)@)),
        ascends::<T>(keys(final(output)@).reverse()),
        all_before::<T>(keys(final(source)@), keys(final(output)@)),
        all_before::<T>(other@, keys(final(output)@)),
        keys(final(output)@) == keys(old(output)@).push(keys(old(source)@).last()),
{
    let ghost had = keys(source@);
    let ghost made = keys(output@);
    match source.pop() {
        Some(item) => {
            assert(item.key() == had.last());
            output.push(item);
            proof {
                assert(keys(source@) =~= had.drop_last());
                assert(keys(output@) =~= made.push(had.last()));
                let flipped = keys(output@).reverse();
                assert(flipped =~= seq![had.last()] + made.reverse());
                assert forall|i: int, j: int| 0 <= i < j < flipped.len() implies T::order(
                    #[trigger] flipped[i],
                    #[trigger] flipped[j],
                ) == Comparison::Less by {
                    let kept = made.reverse();
                    assert(flipped[j] == kept[j - 1]);
                    if i == 0 {
                        assert(flipped[0] == had[had.len() - 1]);
                        assert(kept[j - 1] == made[made.len() - j]);
                    } else {
                        assert(flipped[i] == kept[i - 1]);
                    }
                }
                assert forall|i: int, j: int|
                    0 <= i < keys(source@).len() && 0 <= j < keys(
                        output@,
                    ).len() implies T::order(
                    #[trigger] keys(source@)[i],
                    #[trigger] keys(output@)[j],
                ) == Comparison::Less by {
                    assert(keys(source@)[i] == had[i]);
                    if j < made.len() {
                        assert(keys(output@)[j] == made[j]);
                    } else {
                        assert(keys(output@)[j] == had[had.len() - 1]);
                    }
                }
                assert forall|i: int, j: int|
                    0 <= i < other@.len() && 0 <= j < keys(output@).len() implies T::order(
                    #[trigger] other@[i],
                    #[trigger] keys(output@)[j],
                ) == Comparison::Less by {
                    if j < made.len() {
                        assert(keys(output@)[j] == made[j]);
                    }
                }
            }
        },
        None => {},
    }
}

/// Two ascending lists as one, without what both hold.
fn merged<T: Ordered>(left: Vec<T>, right: Vec<T>) -> (list: Vec<T>)
    requires
        ascends::<T>(keys(left@)),
        ascends::<T>(keys(right@)),
    ensures
        ascends::<T>(keys(list@)),
        forall|key: T::Key| #[trigger]
            keys(list@).contains(key) <==> keys(left@).contains(key) || keys(right@).contains(key),
{
    let mut left = left;
    let mut right = right;
    let mut output: Vec<T> = Vec::new();
    let ghost all_left = keys(left@);
    let ghost all_right = keys(right@);
    assert(keys(output@).reverse() =~= Seq::empty());
    while left.len() > 0 || right.len() > 0
        invariant
            ascends::<T>(keys(left@)),
            ascends::<T>(keys(right@)),
            ascends::<T>(keys(output@).reverse()),
            all_before::<T>(keys(left@), keys(output@)),
            all_before::<T>(keys(right@), keys(output@)),
            shares_all(all_left, all_right, keys(left@), keys(right@), keys(output@)),
        decreases left@.len() + right@.len(),
    {
        let ghost l = keys(left@);
        let ghost r = keys(right@);
        let ghost made = keys(output@);
        let side = if left.len() == 0 {
            Comparison::Greater
        } else if right.len() == 0 {
            Comparison::Less
        } else {
            assert(l.last() == left@[left@.len() - 1].key());
            assert(r.last() == right@[right@.len() - 1].key());
            let last_left: usize = left.len() - 1;
            let last_right: usize = right.len() - 1;
            right[last_right].ordered(&left[last_left])
        };
        match side {
            Comparison::Less => {
                proof {
                    assert forall|i: int| 0 <= i < r.len() implies T::order(
                        #[trigger] r[i],
                        l.last(),
                    ) == Comparison::Less by {
                        if i < r.len() - 1 {
                            lemma_before::<T>(r[i], r[r.len() - 1], l.last());
                        }
                    }
                }
                take_last(&mut left, Ghost(r), &mut output);
                proof {
                    assert forall|key: T::Key|
                        (#[trigger] all_left.contains(key) || all_right.contains(key)) == (keys(
                            left@,
                        ).contains(key) || r.contains(key) || keys(output@).contains(key)) by {
                        lemma_moved(l, made, key);
                    }
                }
            },
            Comparison::Greater => {
                proof {
                    if left@.len() > 0 {
                        T::order_is_total(l.last(), r.last(), l.last());
                    }
                    assert forall|i: int| 0 <= i < l.len() implies T::order(
                        #[trigger] l[i],
                        r.last(),
                    ) == Comparison::Less by {
                        if i < l.len() - 1 {
                            lemma_before::<T>(l[i], l[l.len() - 1], r.last());
                        }
                    }
                }
                take_last(&mut right, Ghost(l), &mut output);
                proof {
                    assert forall|key: T::Key|
                        (#[trigger] all_left.contains(key) || all_right.contains(key)) == (
                        l.contains(key) || keys(right@).contains(key) || keys(output@).contains(
                            key,
                        )) by {
                        lemma_moved(r, made, key);
                    }
                }
            },
            Comparison::Equal => {
                proof {
                    T::order_is_total(r.last(), l.last(), l.last());
                }
                right.pop();
                proof {
                    assert(keys(right@) =~= r.drop_last());
                    assert forall|key: T::Key|
                        (#[trigger] all_left.contains(key) || all_right.contains(key)) == (
                        l.contains(key) || keys(right@).contains(key) || made.contains(key)) by {
                        lemma_moved(r, made, key);
                        if key == r.last() {
                            assert(l[l.len() - 1] == key);
                        }
                    }
                }
            },
        }
    }
    let ghost made = keys(output@);
    let list = reversed(output);
    proof {
        assert(keys(list@) =~= made.reverse());
        assert forall|key: T::Key| #[trigger]
            keys(list@).contains(key) <==> all_left.contains(key) || all_right.contains(key) by {
            assert((all_left.contains(key) || all_right.contains(key)) == made.contains(key));
            if made.contains(key) {
                let k = choose|k: int| 0 <= k < made.len() && made[k] == key;
                assert(made.reverse()[made.len() - 1 - k] == key);
            }
            if made.reverse().contains(key) {
                let k = choose|k: int|
                    0 <= k < made.reverse().len() && made.reverse()[k] == key;
                assert(made[made.len() - 1 - k] == key);
            }
        }
    }
    list
}

/// A list put in order, without what it repeats.
pub fn settled_list<T: Ordered>(items: Vec<T>) -> (list: Vec<T>)
    ensures
        settles_into::<T>(keys(items@), keys(list@)),
        keys(list@) == settled_of::<T>(keys(items@)),
    decreases items@.len(),
{
    let ghost all = keys(items@);
    if items.len() <= 1 {
        proof {
            lemma_settled_of::<T>(all, all);
        }
        return items;
    }
    let mut first = items;
    let half: usize = first.len() / 2;
    let second = first.split_off(half);
    let ghost front = keys(first@);
    let ghost back = keys(second@);
    assert(all =~= front + back);
    let left = settled_list(first);
    let right = settled_list(second);
    let list = merged(left, right);
    proof {
        assert forall|key: T::Key| #[trigger]
            keys(list@).contains(key) <==> all.contains(key) by {
            assert(keys(left@).contains(key) <==> front.contains(key));
            assert(keys(right@).contains(key) <==> back.contains(key));
            if front.contains(key) {
                let k = choose|k: int| 0 <= k < front.len() && front[k] == key;
                assert(all[k] == key);
            }
            if back.contains(key) {
                let k = choose|k: int| 0 <= k < back.len() && back[k] == key;
                assert(all[front.len() + k] == key);
            }
            if all.contains(key) {
                let k = choose|k: int| 0 <= k < all.len() && all[k] == key;
                if k < front.len() {
                    assert(front[k] == key);
                } else {
                    assert(back[k - front.len()] == key);
                }
            }
        }
        lemma_settled_of::<T>(all, keys(list@));
    }
    list
}

/// Every list settles into one.
pub proof fn lemma_settles<T: Ordered>(items: Seq<T::Key>)
    ensures
        settles_into::<T>(items, settled_of::<T>(items)),
    decreases items.len(),
{
    if items.len() == 0 {
        assert(settles_into::<T>(items, items));
        lemma_settled_of::<T>(items, items);
    } else {
        let before = items.drop_last();
        lemma_settles::<T>(before);
        let list = settled_of::<T>(before);
        let after = if list.contains(items.last()) {
            list
        } else {
            lemma_placed::<T>(list, items.last())
        };
        assert forall|key: T::Key| #[trigger] after.contains(key) <==> items.contains(key) by {
            lemma_pushed(before, items.last(), key);
            assert(before.push(items.last()) =~= items);
            assert(list.contains(key) <==> before.contains(key));
        }
        lemma_settled_of::<T>(items, after);
    }
}

/// An ascending list has room for one key more.
proof fn lemma_placed<T: Ordered>(list: Seq<T::Key>, item: T::Key) -> (after: Seq<T::Key>)
    requires
        ascends::<T>(list),
        !list.contains(item),
    ensures
        ascends::<T>(after),
        forall|key: T::Key| #[trigger] after.contains(key) <==> key == item || list.contains(key),
    decreases list.len(),
{
    if list.len() == 0 {
        let after = list.push(item);
        assert forall|key: T::Key| #[trigger] after.contains(key) <==> key == item
            || list.contains(key) by {
            lemma_pushed(list, item, key);
        }
        after
    } else {
        let last = list[list.len() - 1];
        assert(list.contains(last));
        T::order_is_total(last, item, last);
        T::order_is_total(item, last, item);
        if T::order(last, item) == Comparison::Less {
            let after = list.push(item);
            assert forall|i: int, j: int| 0 <= i < j < after.len() implies T::order(
                #[trigger] after[i],
                #[trigger] after[j],
            ) == Comparison::Less by {
                if j == list.len() && i < list.len() - 1 {
                    lemma_before::<T>(list[i], last, item);
                }
            }
            assert forall|key: T::Key| #[trigger] after.contains(key) <==> key == item
                || list.contains(key) by {
                lemma_pushed(list, item, key);
            }
            after
        } else {
            let before = list.drop_last();
            assert(list =~= before.push(last));
            assert forall|key: T::Key| list.contains(key) <==> key == last || before.contains(
                key,
            ) by {
                lemma_pushed(before, last, key);
            }
            let less = lemma_placed::<T>(before, item);
            let after = less.push(last);
            assert forall|i: int, j: int| 0 <= i < j < after.len() implies T::order(
                #[trigger] after[i],
                #[trigger] after[j],
            ) == Comparison::Less by {
                if j == less.len() {
                    assert(less.contains(less[i]));
                    if less[i] != item {
                        assert(before.contains(less[i]));
                        let k = choose|k: int| 0 <= k < before.len() && before[k] == less[i];
                        assert(T::order(list[k], list[list.len() - 1]) == Comparison::Less);
                    }
                }
            }
            assert forall|key: T::Key| #[trigger] after.contains(key) <==> key == item
                || list.contains(key) by {
                lemma_pushed(less, last, key);
                lemma_pushed(before, last, key);
                assert(less.contains(key) <==> key == item || before.contains(key));
            }
            after
        }
    }
}

/// An ascending list repeats nothing.
pub proof fn lemma_ascending_distinct<T: Ordered>(list: Seq<T::Key>)
    requires
        ascends::<T>(list),
    ensures
        list.no_duplicates(),
{
    assert forall|i: int, j: int| 0 <= i < list.len() && 0 <= j < list.len() && i != j implies list[i]
        != list[j] by {
        T::order_is_total(list[i], list[j], list[i]);
        if i < j {
            assert(T::order(list[i], list[j]) == Comparison::Less);
        } else {
            assert(T::order(list[j], list[i]) == Comparison::Less);
            T::order_is_total(list[j], list[i], list[j]);
        }
    }
}

impl Ordered for String {
    type Key = Seq<char>;

    open spec fn key(&self) -> Seq<char> {
        self@
    }

    open spec fn order(left: Seq<char>, right: Seq<char>) -> Comparison {
        text_order(left, right)
    }

    proof fn order_is_total(first: Seq<char>, second: Seq<char>, third: Seq<char>) {
        lemma_text_order_total(first, second, third);
    }

    fn ordered(&self, other: &String) -> (order: Comparison) {
        text_compared(self.as_str(), other.as_str())
    }
}

} // verus!
