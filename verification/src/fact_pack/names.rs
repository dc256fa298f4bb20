//! Sets of names, held in order.

use crate::ordering::{ascends, keys, place_of, put, settled_list, settled_of, settles_into};
use crate::text::same_text;
use vstd::prelude::*;

verus! {

/// A set of names.
#[derive(Debug)]
pub struct NameSet {
    names: Vec<String>,
}

/// The contents of names.
pub open spec fn texts(names: Seq<String>) -> Seq<Seq<char>> {
    keys(names)
}

impl View for NameSet {
    type V = Seq<Seq<char>>;

    closed spec fn view(&self) -> Seq<Seq<char>> {
        texts(self.names@)
    }
}

/// Whether every name of one set is in another.
pub open spec fn is_subset_of(names: Seq<Seq<char>>, others: Seq<Seq<char>>) -> bool {
    forall|i: int| 0 <= i < names.len() ==> others.contains(#[trigger] names[i])
}

impl NameSet {
    #[verifier::type_invariant]
    spec fn well_formed(self) -> bool {
        ascends::<String>(keys(self.names@))
    }

    /// The set of no names.
    pub fn new() -> (set: Self)
        ensures
            set@ == Seq::<Seq<char>>::empty(),
    {
        let set = NameSet { names: Vec::new() };
        assert(set@ =~= Seq::empty());
        set
    }

    /// The set of the names of a list.
    pub fn from_names(names: Vec<String>) -> (set: Self)
        ensures
            set@ == settled_of::<String>(texts(names@)),
            settles_into::<String>(texts(names@), set@),
    {
        let names = settled_list(names);
        NameSet { names }
    }

    /// Adds a name; tells whether it was not there.
    pub fn insert(&mut self, name: String) -> (fresh: bool)
        ensures
            fresh == !old(self)@.contains(name@),
            ascends::<String>(final(self)@),
            forall|other: Seq<char>| #[trigger]
                final(self)@.contains(other) <==> other == name@ || old(self)@.contains(other),
    {
        proof {
            use_type_invariant(&*self);
        }
        let mut names: Vec<String> = Vec::new();
        std::mem::swap(&mut names, &mut self.names);
        let fresh = put(&mut names, name);
        self.names = names;
        fresh
    }

    /// Whether a name is in the set.
    pub fn contains(&self, name: &String) -> (held: bool)
        ensures
            held == self@.contains(name@),
    {
        proof {
            use_type_invariant(self);
        }
        let (_, held) = place_of(&self.names, name);
        held
    }

    /// Whether every name of this set is in another.
    pub fn is_subset(&self, other: &NameSet) -> (held: bool)
        ensures
            held == is_subset_of(self@, other@),
    {
        let ghost all = self@;
        let mut i: usize = 0;
        while i < self.names.len()
            invariant
                i <= self.names@.len(),
                all == self@,
                all == texts(self.names@),
                forall|k: int| 0 <= k < i ==> other@.contains(#[trigger] all[k]),
            decreases self.names@.len() - i,
        {
            assert(all[i as int] == self.names@[i as int]@);
            if !other.contains(&self.names[i]) {
                return false;
            }
            i += 1;
        }
        true
    }

    /// Whether two sets hold the same names.
    pub fn same(&self, other: &NameSet) -> (same: bool)
        ensures
            same == (self@ == other@),
    {
        let ghost one = self@;
        let ghost two = other@;
        assert(one.len() == self.names@.len() && two.len() == other.names@.len());
        if self.names.len() != other.names.len() {
            return false;
        }
        let mut i: usize = 0;
        while i < self.names.len()
            invariant
                i <= self.names@.len(),
                self.names@.len() == other.names@.len(),
                one == texts(self.names@),
                two == texts(other.names@),
                one == self@,
                two == other@,
                forall|k: int| 0 <= k < i ==> #[trigger] one[k] == two[k],
            decreases self.names@.len() - i,
        {
            assert(one[i as int] == self.names@[i as int]@);
            assert(two[i as int] == other.names@[i as int]@);
            if !same_text(self.names[i].as_str(), other.names[i].as_str()) {
                return false;
            }
            i += 1;
        }
        assert(one =~= two);
        true
    }

    /// The names, in order.
    pub fn names(&self) -> (names: &Vec<String>)
        ensures
            texts(names@) == self@,
            ascends::<String>(self@),
    {
        proof {
            use_type_invariant(self);
        }
        &self.names
    }

    /// Whether the set holds no name.
    pub fn is_empty(&self) -> (empty: bool)
        ensures
            empty == (self@.len() == 0),
    {
        self.names.len() == 0
    }

    /// The names of this set and of another.
    pub fn extend(&mut self, other: &NameSet)
        ensures
            ascends::<String>(final(self)@),
            forall|name: Seq<char>| #[trigger]
                final(self)@.contains(name) <==> old(self)@.contains(name) || other@.contains(name),
    {
        proof {
            use_type_invariant(&*self);
        }
        let ghost before = self@;
        let ghost added = other@;
        let mut names: Vec<String> = Vec::new();
        std::mem::swap(&mut names, &mut self.names);
        let mut i: usize = 0;
        while i < other.names.len()
            invariant
                i <= other.names@.len(),
                added == texts(other.names@),
                ascends::<String>(keys(names@)),
                forall|name: Seq<char>| #[trigger]
                    keys(names@).contains(name) <==> before.contains(name) || added.take(
                        i as int,
                    ).contains(name),
            decreases other.names@.len() - i,
        {
            let ghost held = keys(names@);
            let ghost next = added[i as int];
            assert(next == other.names@[i as int]@);
            put(&mut names, other.names[i].clone());
            proof {
                let some = added.take(i as int);
                assert(added.take(i + 1) =~= some.push(next));
                assert forall|name: Seq<char>| #[trigger]
                    keys(names@).contains(name) <==> before.contains(name) || added.take(
                        i + 1,
                    ).contains(name) by {
                    assert(held.contains(name) <==> before.contains(name) || some.contains(name));
                    let more = some.push(next);
                    assert(more[some.len() as int] == next);
                    if some.contains(name) {
                        let k = choose|k: int| 0 <= k < some.len() && some[k] == name;
                        assert(more[k] == name);
                    }
                    if more.contains(name) {
                        let k = choose|k: int| 0 <= k < more.len() && more[k] == name;
                        if k < some.len() {
                            assert(some[k] == name);
                        }
                    }
                }
            }
            i += 1;
        }
        assert(added.take(i as int) =~= added);
        self.names = names;
    }
}

impl Clone for NameSet {
    fn clone(&self) -> (copy: Self)
        ensures
            copy@ == self@,
    {
        proof {
            use_type_invariant(self);
        }
        let ghost all = keys(self.names@);
        let mut names: Vec<String> = Vec::new();
        let mut i: usize = 0;
        while i < self.names.len()
            invariant
                i <= self.names@.len(),
                all == keys(self.names@),
                keys(names@) =~= all.take(i as int),
            decreases self.names@.len() - i,
        {
            let ghost before = names@;
            let copied = self.names[i].clone();
            names.push(copied);
            assert(keys(names@) =~= keys(before).push(all[i as int]));
            i += 1;
        }
        assert(keys(names@) =~= all);
        NameSet { names }
    }
}

impl Default for NameSet {
    fn default() -> (set: Self)
        ensures
            set@ == Seq::<Seq<char>>::empty(),
    {
        NameSet::new()
    }
}

} // verus!
