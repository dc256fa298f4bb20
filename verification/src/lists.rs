//! Arithmetic and bookkeeping over sequences.

use vstd::prelude::*;

verus! {

/// The sum of a sequence of numbers.
pub open spec fn total(numbers: Seq<nat>) -> nat
    decreases numbers.len(),
{
    if numbers.len() == 0 {
        0
    } else {
        total(numbers.drop_last()) + numbers.last()
    }
}

/// The largest of a sequence of numbers, and nothing at all when there is none.
pub open spec fn greatest(numbers: Seq<nat>) -> nat
    decreases numbers.len(),
{
    if numbers.len() == 0 {
        0
    } else if greatest(numbers.drop_last()) < numbers.last() {
        numbers.last()
    } else {
        greatest(numbers.drop_last())
    }
}

/// Several sequences run together.
pub open spec fn joined<A>(lists: Seq<Seq<A>>) -> Seq<A>
    decreases lists.len(),
{
    if lists.len() == 0 {
        Seq::empty()
    } else {
        joined(lists.drop_last()) + lists.last()
    }
}

/// A list of distinct values, extended by those of `names` it does not hold
/// yet, in the order they first appear.
pub open spec fn extended<A>(found: Seq<A>, names: Seq<A>) -> Seq<A>
    decreases names.len(),
{
    if names.len() == 0 {
        found
    } else {
        let before = extended(found, names.drop_last());
        if before.contains(names.last()) {
            before
        } else {
            before.push(names.last())
        }
    }
}

/// Taking one more number adds it.
pub proof fn lemma_total_step(numbers: Seq<nat>, i: int)
    requires
        0 <= i < numbers.len(),
    ensures
        total(numbers.take(i + 1)) == total(numbers.take(i)) + numbers[i],
        total(numbers.take(i + 1)) <= total(numbers),
{
    assert(numbers.take(i + 1).drop_last() =~= numbers.take(i));
    lemma_total_prefix(numbers, i + 1);
}

/// No prefix sums to more than the whole.
pub proof fn lemma_total_prefix(numbers: Seq<nat>, i: int)
    requires
        0 <= i <= numbers.len(),
    ensures
        total(numbers.take(i)) <= total(numbers),
    decreases numbers.len(),
{
    if i == numbers.len() {
        assert(numbers.take(i) =~= numbers);
    } else {
        lemma_total_prefix(numbers.drop_last(), i);
        assert(numbers.drop_last().take(i) =~= numbers.take(i));
    }
}

/// Each number is at most the sum.
pub proof fn lemma_total_member(numbers: Seq<nat>, i: int)
    requires
        0 <= i < numbers.len(),
    ensures
        numbers[i] <= total(numbers),
{
    lemma_total_step(numbers, i);
}

/// Pointwise larger numbers have a larger sum.
pub proof fn lemma_total_monotone(small: Seq<nat>, large: Seq<nat>)
    requires
        small.len() == large.len(),
        forall|i: int| 0 <= i < small.len() ==> #[trigger] small[i] <= large[i],
    ensures
        total(small) <= total(large),
    decreases small.len(),
{
    if small.len() > 0 {
        lemma_total_monotone(small.drop_last(), large.drop_last());
        assert(small.last() == small[small.len() - 1]);
    }
}

/// Taking one more number compares it with the largest so far.
pub proof fn lemma_greatest_step(numbers: Seq<nat>, i: int)
    requires
        0 <= i < numbers.len(),
    ensures
        greatest(numbers.take(i + 1)) == if greatest(numbers.take(i)) < numbers[i] {
            numbers[i]
        } else {
            greatest(numbers.take(i))
        },
{
    assert(numbers.take(i + 1).drop_last() =~= numbers.take(i));
}

/// Each number is at most the largest.
pub proof fn lemma_greatest_member(numbers: Seq<nat>, i: int)
    requires
        0 <= i < numbers.len(),
    ensures
        numbers[i] <= greatest(numbers),
    decreases numbers.len(),
{
    if i < numbers.len() - 1 {
        lemma_greatest_member(numbers.drop_last(), i);
    }
}

/// Taking one more list appends it.
pub proof fn lemma_joined_step<A>(lists: Seq<Seq<A>>, i: int)
    requires
        0 <= i < lists.len(),
    ensures
        joined(lists.take(i + 1)) == joined(lists.take(i)) + lists[i],
{
    assert(lists.take(i + 1).drop_last() =~= lists.take(i));
}

/// Extending by two lists is extending by one and then the other.
pub proof fn lemma_extended_join<A>(found: Seq<A>, first: Seq<A>, second: Seq<A>)
    ensures
        extended(found, first + second) == extended(extended(found, first), second),
    decreases second.len(),
{
    if second.len() == 0 {
        assert(first + second =~= first);
    } else {
        assert((first + second).drop_last() =~= first + second.drop_last());
        lemma_extended_join(found, first, second.drop_last());
    }
}

/// Extending by one name.
pub proof fn lemma_extended_one<A>(found: Seq<A>, name: A)
    ensures
        extended(found, seq![name]) == if found.contains(name) {
            found
        } else {
            found.push(name)
        },
{
    assert(seq![name].drop_last() =~= Seq::<A>::empty());
    assert(extended(found, Seq::<A>::empty()) == found);
}

/// Extending keeps what was there in place, keeps the values distinct, and
/// leaves exactly the old values and the new.
pub proof fn lemma_extended<A>(found: Seq<A>, names: Seq<A>)
    ensures
        found.len() <= extended(found, names).len() <= found.len() + names.len(),
        extended(found, names).take(found.len() as int) == found,
        found.no_duplicates() ==> extended(found, names).no_duplicates(),
        forall|name: A|
            #[trigger] extended(found, names).contains(name) <==> found.contains(name)
                || names.contains(name),
    decreases names.len(),
{
    if names.len() == 0 {
        assert(found.take(found.len() as int) =~= found);
    } else {
        lemma_extended(found, names.drop_last());
        let before = extended(found, names.drop_last());
        let after = extended(found, names);
        assert(names.drop_last().push(names.last()) =~= names);
        assert(after.take(found.len() as int) =~= before.take(found.len() as int));
        assert forall|name: A| #[trigger] after.contains(name) <==> found.contains(name)
            || names.contains(name) by {
            assert(names.contains(name) <==> names.drop_last().contains(name) || name
                == names.last()) by {
                if names.contains(name) {
                    let k = choose|k: int| 0 <= k < names.len() && names[k] == name;
                    if k < names.len() - 1 {
                        assert(names.drop_last()[k] == name);
                    }
                }
                if names.drop_last().contains(name) {
                    let k = choose|k: int|
                        0 <= k < names.drop_last().len() && names.drop_last()[k] == name;
                    assert(names[k] == name);
                }
                if name == names.last() {
                    assert(names[names.len() - 1] == name);
                }
            }
            if before.contains(name) {
                let k = choose|k: int| 0 <= k < before.len() && before[k] == name;
                assert(after[k] == name);
            }
            if name == names.last() && !before.contains(name) {
                assert(after[after.len() - 1] == name);
            }
            if after.contains(name) {
                let k = choose|k: int| 0 <= k < after.len() && after[k] == name;
                if k < before.len() {
                    assert(before[k] == name);
                }
            }
        }
    }
}

/// Where a value stands in a list of distinct values.
pub open spec fn position_of<A>(list: Seq<A>, value: A) -> int {
    choose|i: int| 0 <= i < list.len() && list[i] == value
}

/// Extending a list moves nothing that was already in it.
pub proof fn lemma_extended_position<A>(found: Seq<A>, names: Seq<A>, value: A)
    requires
        found.no_duplicates(),
        found.contains(value),
    ensures
        position_of(extended(found, names), value) == position_of(found, value),
{
    lemma_extended(found, names);
    let after = extended(found, names);
    let i = position_of(found, value);
    assert(after[i] == after.take(found.len() as int)[i]);
    assert(0 <= i < after.len() && after[i] == value);
}

/// Distinct numbers below a limit are no more than the limit.
pub proof fn lemma_distinct_below(numbers: Seq<u32>, limit: nat)
    requires
        numbers.no_duplicates(),
        forall|i: int| 0 <= i < numbers.len() ==> #[trigger] numbers[i] < limit,
    ensures
        numbers.len() <= limit,
    decreases limit,
{
    if limit == 0 {
        if numbers.len() > 0 {
            assert(numbers[0] < limit);
        }
    } else if exists|k: int| 0 <= k < numbers.len() && numbers[k] == limit - 1 {
        let k = choose|k: int| 0 <= k < numbers.len() && numbers[k] == limit - 1;
        let rest = numbers.remove(k);
        assert forall|i: int| 0 <= i < rest.len() implies #[trigger] rest[i] < limit - 1 by {
            let j = if i < k {
                i
            } else {
                i + 1
            };
            assert(rest[i] == numbers[j]);
            assert(numbers[j] != numbers[k]);
        }
        assert(rest.no_duplicates()) by {
            assert forall|i: int, j: int|
                0 <= i < rest.len() && 0 <= j < rest.len() && i != j implies rest[i]
                != rest[j] by {
                let a = if i < k {
                    i
                } else {
                    i + 1
                };
                let b = if j < k {
                    j
                } else {
                    j + 1
                };
                assert(rest[i] == numbers[a] && rest[j] == numbers[b]);
            }
        }
        lemma_distinct_below(rest, (limit - 1) as nat);
    } else {
        assert forall|i: int| 0 <= i < numbers.len() implies #[trigger] numbers[i] < limit - 1 by {
            assert(numbers[i] < limit);
        }
        lemma_distinct_below(numbers, (limit - 1) as nat);
    }
}

/// Whether a list of numbers holds one.
pub fn holds(list: &Vec<u32>, value: u32) -> (held: bool)
    ensures
        held == list@.contains(value),
{
    for i in 0..list.len()
        invariant
            forall|j: int| 0 <= j < i ==> list@[j] != value,
    {
        if list[i] == value {
            assert(list@[i as int] == value);
            return true;
        }
    }
    false
}

/// A list turned round.
pub fn reversed<A>(list: Vec<A>) -> (turned: Vec<A>)
    ensures
        turned@.len() == list@.len(),
        forall|i: int| 0 <= i < list@.len() ==> #[trigger] turned@[i] == list@[list@.len() - 1 - i],
{
    let ghost all = list@;
    let mut rest = list;
    let mut turned: Vec<A> = Vec::new();
    while rest.len() > 0
        invariant
            rest@ == all.take(rest@.len() as int),
            rest@.len() + turned@.len() == all.len(),
            forall|i: int| 0 <= i < turned@.len() ==> #[trigger] turned@[i] == all[all.len() - 1 - i],
        decreases rest@.len(),
    {
        let ghost before = rest@;
        if let Some(last) = rest.pop() {
            assert(last == all[before.len() - 1]);
            turned.push(last);
            assert(rest@ =~= all.take(rest@.len() as int));
        }
    }
    turned
}

/// The contents of texts.
pub open spec fn text_list(texts: Seq<String>) -> Seq<Seq<char>> {
    Seq::new(texts.len(), |i: int| texts[i]@)
}

} // verus!
