//! Resolving what a repository requires against its lock.

use super::cache::{
    cached_views, CacheError, CacheFault, CachedContent, CachedFactPack, PackView,
};
use super::lock::{
    lock_fault, locked_views, FactPackLock, FactPackLockError, LockFault, LockView, LockedFactPack,
    LockedView,
};
use super::requirement::{satisfies, FactPackRequirement, RequirementView};
use crate::syntax::{lists_name, name_list};
use vstd::prelude::*;
use vstd::string::*;

verus! {

impl Clone for CachedFactPack {
    fn clone(&self) -> (copy: Self)
        ensures
            copy@ == self@,
    {
        let ghost all = cached_views(self.contents@);
        let mut contents: Vec<CachedContent> = Vec::new();
        let mut i: usize = 0;
        while i < self.contents.len()
            invariant
                i <= self.contents@.len(),
                all == cached_views(self.contents@),
                cached_views(contents@) =~= all.take(i as int),
            decreases self.contents@.len() - i,
        {
            let one = &self.contents[i];
            let ghost before = contents@;
            contents.push(
                CachedContent {
                    path: one.path.clone(),
                    kind: one.kind.clone(),
                    media_type: one.media_type.clone(),
                    digest: one.digest.clone(),
                    size: one.size,
                    blob_path: one.blob_path.clone(),
                },
            );
            assert(contents@.last()@ == all[i as int]);
            assert(cached_views(contents@) =~= cached_views(before).push(all[i as int]));
            i += 1;
        }
        assert(cached_views(contents@) =~= all);
        CachedFactPack {
            manifest: self.manifest.clone(),
            manifest_digest: self.manifest_digest.clone(),
            config_digest: self.config_digest.clone(),
            contents,
        }
    }
}

/// A pack that was loaded, or why it was not.
pub open spec fn loaded_view(loaded: Result<CachedFactPack, CacheError>) -> Result<
    PackView,
    CacheFault,
> {
    match loaded {
        Ok(pack) => Ok(pack@),
        Err(error) => Err(error@),
    }
}

/// What was loaded for each entry of a lock.
pub open spec fn loaded_views(loaded: Seq<Result<CachedFactPack, CacheError>>) -> Seq<
    Result<PackView, CacheFault>,
> {
    Seq::new(loaded.len(), |i: int| loaded_view(loaded[i]))
}

/// What is wrong with the pack that was loaded for an entry.
pub open spec fn load_fault(entry: LockedView, loaded: Result<PackView, CacheFault>) -> Option<
    LockFault,
> {
    match loaded {
        Ok(pack) => if pack.manifest != entry.manifest {
            Some(LockFault::Drift(entry.manifest_digest))
        } else {
            None
        },
        Err(fault) => Some(LockFault::Cache(fault)),
    }
}

/// The pack that was loaded for an entry, held to the entry's manifest.
fn load_locked(entry: &LockedFactPack, loaded: &Result<CachedFactPack, CacheError>) -> (result:
    Result<CachedFactPack, FactPackLockError>)
    ensures
        match result {
            Ok(pack) => {
                &&& load_fault(entry@, loaded_view(*loaded)) is None
                &&& loaded_view(*loaded) == Ok::<PackView, CacheFault>(pack@)
            },
            Err(error) => load_fault(entry@, loaded_view(*loaded)) == Some(error@),
        },
{
    match loaded {
        Ok(pack) => {
            if !pack.manifest.same(&entry.manifest) {
                return Err(FactPackLockError::Drift { digest: entry.manifest_digest.clone() });
            }
            Ok(pack.clone())
        },
        Err(error) => Err(FactPackLockError::Cache(error.clone())),
    }
}

/// What is wrong with the first entry, from a place on, whose pack is not as
/// pinned.
pub open spec fn loads_fault(
    packs: Seq<LockedView>,
    loaded: Seq<Result<PackView, CacheFault>>,
    i: int,
) -> Option<LockFault>
    decreases packs.len() - i,
{
    if i < 0 || i >= packs.len() {
        None
    } else if load_fault(packs[i], loaded[i]) is Some {
        load_fault(packs[i], loaded[i])
    } else {
        loads_fault(packs, loaded, i + 1)
    }
}

/// Whether an entry satisfies a requirement.
pub open spec fn entry_satisfies(
    packs: Seq<LockedView>,
    requirement: RequirementView,
    i: int,
) -> bool {
    0 <= i < packs.len() && satisfies(requirement, packs[i].manifest)
}

/// Whether an entry and no other satisfies a requirement.
pub open spec fn is_sole_entry(
    packs: Seq<LockedView>,
    requirement: RequirementView,
    i: int,
) -> bool {
    &&& entry_satisfies(packs, requirement, i)
    &&& forall|j: int| #[trigger] entry_satisfies(packs, requirement, j) ==> j == i
}

/// The entry that a requirement picks, given the digests of those picked before.
pub open spec fn picked(
    packs: Seq<LockedView>,
    loaded: Seq<Result<PackView, CacheFault>>,
    requirement: RequirementView,
    used: Seq<Seq<char>>,
) -> Result<int, LockFault> {
    if exists|i: int| is_sole_entry(packs, requirement, i) {
        let i = choose|i: int| is_sole_entry(packs, requirement, i);
        if used.contains(packs[i].manifest_digest) {
            Err(LockFault::Ambiguous(requirement.name))
        } else if load_fault(packs[i], loaded[i]) is Some {
            Err(load_fault(packs[i], loaded[i])->0)
        } else {
            Ok(i)
        }
    } else if exists|i: int| entry_satisfies(packs, requirement, i) {
        Err(LockFault::Ambiguous(requirement.name))
    } else {
        Err(LockFault::Missing(requirement.name))
    }
}

/// The digests of entries.
pub open spec fn digests_at(packs: Seq<LockedView>, places: Seq<int>) -> Seq<Seq<char>> {
    Seq::new(places.len(), |k: int| packs[places[k]].manifest_digest)
}

/// The entries that the first so many requirements pick.
pub open spec fn all_picked(
    packs: Seq<LockedView>,
    loaded: Seq<Result<PackView, CacheFault>>,
    requirements: Seq<RequirementView>,
    n: int,
) -> Result<Seq<int>, LockFault>
    decreases n,
{
    if n <= 0 || n > requirements.len() {
        Ok(Seq::empty())
    } else {
        match all_picked(packs, loaded, requirements, n - 1) {
            Ok(before) => match picked(
                packs,
                loaded,
                requirements[n - 1],
                digests_at(packs, before),
            ) {
                Ok(i) => Ok(before.push(i)),
                Err(fault) => Err(fault),
            },
            Err(fault) => Err(fault),
        }
    }
}

/// The names of the entries, of the first so many, that were not picked.
pub open spec fn extra_names(packs: Seq<LockedView>, used: Seq<Seq<char>>, n: int) -> Seq<Seq<char>>
    decreases n,
{
    if n <= 0 || n > packs.len() {
        Seq::empty()
    } else if used.contains(packs[n - 1].manifest_digest) {
        extra_names(packs, used, n - 1)
    } else {
        extra_names(packs, used, n - 1).push(packs[n - 1].manifest.name)
    }
}

/// Names with commas between.
pub open spec fn listed_names(names: Seq<Seq<char>>) -> Seq<char>
    decreases names.len(),
{
    if names.len() == 0 {
        Seq::empty()
    } else if names.len() == 1 {
        names[0]
    } else {
        listed_names(names.drop_last()) + ", "@ + names.last()
    }
}

/// What resolving requirements against a lock gives: each its own entry, and no
/// entry without one.
pub open spec fn lock_resolution(
    lock: LockView,
    loaded: Seq<Result<PackView, CacheFault>>,
    requirements: Seq<RequirementView>,
) -> Result<Seq<int>, LockFault> {
    if lock_fault(lock) is Some {
        Err(lock_fault(lock)->0)
    } else {
        match all_picked(lock.packs, loaded, requirements, requirements.len() as int) {
            Ok(places) => if places.len() != lock.packs.len() {
                Err(
                    LockFault::Extra(
                        listed_names(
                            extra_names(
                                lock.packs,
                                digests_at(lock.packs, places),
                                lock.packs.len() as int,
                            ),
                        ),
                    ),
                )
            } else {
                Ok(places)
            },
            Err(fault) => Err(fault),
        }
    }
}

/// The contents of requirements.
pub open spec fn requirement_views(requirements: Seq<FactPackRequirement>) -> Seq<RequirementView> {
    Seq::new(requirements.len(), |i: int| requirements[i]@)
}

/// Which entry satisfies a requirement, or whether several or none do.
enum Found {
    Nothing,
    One(usize),
    Several,
}

/// Which entry satisfies a requirement.
fn sole_entry(packs: &Vec<LockedFactPack>, requirement: &FactPackRequirement) -> (found: Found)
    ensures
        match found {
            Found::Nothing => forall|i: int|
                !(#[trigger] entry_satisfies(locked_views(packs@), requirement@, i)),
            Found::One(i) => i < packs@.len() && is_sole_entry(
                locked_views(packs@),
                requirement@,
                i as int,
            ),
            Found::Several => {
                &&& exists|i: int| entry_satisfies(locked_views(packs@), requirement@, i)
                &&& forall|i: int|
                    !(#[trigger] is_sole_entry(locked_views(packs@), requirement@, i))
            },
        },
{
    let ghost all = locked_views(packs@);
    let ghost wanted = requirement@;
    let mut held: Option<usize> = None;
    let mut i: usize = 0;
    while i < packs.len()
        invariant
            i <= packs@.len(),
            all == locked_views(packs@),
            wanted == requirement@,
            held is Some ==> held->0 < i && entry_satisfies(all, wanted, held->0 as int),
            forall|j: int|
                j < i && #[trigger] entry_satisfies(all, wanted, j) ==> held == Some(j as usize),
        decreases packs@.len() - i,
    {
        assert(all[i as int] == packs@[i as int]@);
        if requirement.matches(&packs[i].manifest) {
            assert(entry_satisfies(all, wanted, i as int));
            if let Some(other) = held {
                proof {
                    assert forall|k: int| !(#[trigger] is_sole_entry(all, wanted, k)) by {
                        if is_sole_entry(all, wanted, k) {
                            assert(entry_satisfies(all, wanted, other as int));
                            assert(entry_satisfies(all, wanted, i as int));
                        }
                    }
                }
                return Found::Several;
            }
            held = Some(i);
        }
        i += 1;
    }
    match held {
        Some(place) => {
            assert(is_sole_entry(all, wanted, place as int));
            Found::One(place)
        },
        None => Found::Nothing,
    }
}

/// What is wrong with the first requirements is wrong with more of them.
proof fn lemma_picked_fault(
    packs: Seq<LockedView>,
    loaded: Seq<Result<PackView, CacheFault>>,
    requirements: Seq<RequirementView>,
    n: int,
    m: int,
)
    requires
        0 <= n <= m <= requirements.len(),
        all_picked(packs, loaded, requirements, n) is Err,
    ensures
        all_picked(packs, loaded, requirements, m) == all_picked(packs, loaded, requirements, n),
    decreases m - n,
{
    if n < m {
        lemma_picked_fault(packs, loaded, requirements, n, m - 1);
    }
}

/// The names of the entries that were not picked, with commas between.
#[verifier::loop_isolation(false)]
fn unpicked_names(packs: &Vec<LockedFactPack>, used: &Vec<String>) -> (names: String)
    ensures
        names@ == listed_names(
            extra_names(locked_views(packs@), name_list(used@), packs@.len() as int),
        ),
{
    let ghost all = locked_views(packs@);
    let mut text = String::new();
    let mut first = true;
    let mut i: usize = 0;
    while i < packs.len()
        invariant
            i <= packs@.len(),
            text@ == listed_names(extra_names(all, name_list(used@), i as int)),
            first == (extra_names(all, name_list(used@), i as int).len() == 0),
        decreases packs@.len() - i,
    {
        assert(all[i as int] == packs@[i as int]@);
        if !lists_name(used, packs[i].manifest_digest.as_str()) {
            let ghost before = extra_names(all, name_list(used@), i as int);
            let ghost said = text@;
            if !first {
                text.append(", ");
            }
            text.append(packs[i].manifest.name.as_str());
            proof {
                let name = packs@[i as int].manifest.name@;
                assert(before.push(name).drop_last() =~= before);
                if first {
                    assert(before =~= Seq::empty());
                    assert(text@ =~= name);
                } else {
                    assert(text@ =~= said + ", "@ + name);
                }
            }
            first = false;
        }
        i += 1;
    }
    text
}

impl FactPackLock {
    /// The packs of a lock, each held to its manifest.
    #[verifier::loop_isolation(false)]
    pub fn verify(&self, loaded: &Vec<Result<CachedFactPack, CacheError>>) -> (result: Result<
        Vec<CachedFactPack>,
        FactPackLockError,
    >)
        requires
            loaded@.len() == self.packs@.len(),
        ensures
            match result {
                Ok(packs) => {
                    &&& lock_fault(self@) is None
                    &&& loads_fault(self@.packs, loaded_views(loaded@), 0) is None
                    &&& packs@.len() == loaded@.len()
                    &&& forall|i: int|
                        0 <= i < packs@.len() ==> loaded_views(loaded@)[i] == Ok::<
                            PackView,
                            CacheFault,
                        >((#[trigger] packs@[i])@)
                },
                Err(error) => Some(error@) == match lock_fault(self@) {
                    Some(fault) => Some(fault),
                    None => loads_fault(self@.packs, loaded_views(loaded@), 0),
                },
            },
    {
        match self.validate() {
            Ok(()) => {},
            Err(error) => {
                return Err(error);
            },
        }
        let ghost all = self@.packs;
        let ghost given = loaded_views(loaded@);
        let mut packs: Vec<CachedFactPack> = Vec::new();
        let mut i: usize = 0;
        while i < self.packs.len()
            invariant
                i <= self.packs@.len(),
                packs@.len() == i,
                loads_fault(all, given, 0) == loads_fault(all, given, i as int),
                forall|k: int|
                    0 <= k < i ==> given[k] == Ok::<PackView, CacheFault>((#[trigger] packs@[k])@),
            decreases self.packs@.len() - i,
        {
            assert(all[i as int] == self.packs@[i as int]@);
            match load_locked(&self.packs[i], &loaded[i]) {
                Ok(pack) => {
                    packs.push(pack);
                },
                Err(error) => {
                    return Err(error);
                },
            }
            i += 1;
        }
        Ok(packs)
    }

    /// The packs that requirements pick, each its own, so that none is left over.
    #[verifier::loop_isolation(false)]
    pub fn resolve(
        &self,
        loaded: &Vec<Result<CachedFactPack, CacheError>>,
        requirements: &Vec<FactPackRequirement>,
    ) -> (result: Result<Vec<CachedFactPack>, FactPackLockError>)
        requires
            loaded@.len() == self.packs@.len(),
        ensures
            match result {
                Ok(packs) => {
                    &&& lock_resolution(
                        self@,
                        loaded_views(loaded@),
                        requirement_views(requirements@),
                    ) matches Ok(places)
                    &&& packs@.len() == places.len()
                    &&& forall|k: int|
                        0 <= k < packs@.len() ==> loaded_views(loaded@)[places[k]] == Ok::<
                            PackView,
                            CacheFault,
                        >((#[trigger] packs@[k])@)
                },
                Err(error) => lock_resolution(
                    self@,
                    loaded_views(loaded@),
                    requirement_views(requirements@),
                ) == Err::<Seq<int>, LockFault>(error@),
            },
    {
        match self.validate() {
            Ok(()) => {},
            Err(error) => {
                return Err(error);
            },
        }
        let ghost all = self@.packs;
        let ghost given = loaded_views(loaded@);
        let ghost wanted = requirement_views(requirements@);
        let ghost mut places: Seq<int> = Seq::empty();
        let mut used: Vec<String> = Vec::new();
        let mut packs: Vec<CachedFactPack> = Vec::new();
        let mut n: usize = 0;
        assert(name_list(used@) =~= digests_at(all, places));
        while n < requirements.len()
            invariant
                n <= requirements@.len(),
                packs@.len() == n,
                used@.len() == n,
                places.len() == n,
                all_picked(all, given, wanted, n as int) == Ok::<Seq<int>, LockFault>(places),
                name_list(used@) == digests_at(all, places),
                forall|k: int|
                    0 <= k < packs@.len() ==> given[places[k]] == Ok::<PackView, CacheFault>(
                        (#[trigger] packs@[k])@,
                    ),
            decreases requirements@.len() - n,
        {
            let requirement = &requirements[n];
            assert(wanted[n as int] == requirement@);
            let found = sole_entry(&self.packs, requirement);
            let place = match found {
                Found::Nothing => {
                    proof {
                        lemma_picked_fault(all, given, wanted, n + 1, wanted.len() as int);
                    }
                    return Err(FactPackLockError::Missing { name: requirement.name.clone() });
                },
                Found::Several => {
                    proof {
                        lemma_picked_fault(all, given, wanted, n + 1, wanted.len() as int);
                    }
                    return Err(FactPackLockError::Ambiguous { name: requirement.name.clone() });
                },
                Found::One(place) => place,
            };
            proof {
                let chosen = choose|i: int| is_sole_entry(all, requirement@, i);
                assert(is_sole_entry(all, requirement@, place as int));
                assert(entry_satisfies(all, requirement@, chosen));
            }
            let entry = &self.packs[place];
            assert(all[place as int] == entry@);
            if lists_name(&used, entry.manifest_digest.as_str()) {
                proof {
                    lemma_picked_fault(all, given, wanted, n + 1, wanted.len() as int);
                }
                return Err(FactPackLockError::Ambiguous { name: requirement.name.clone() });
            }
            match load_locked(entry, &loaded[place]) {
                Ok(pack) => {
                    let ghost before = used@;
                    packs.push(pack);
                    used.push(entry.manifest_digest.clone());
                    proof {
                        let so_far = places;
                        places = places.push(place as int);
                        assert(name_list(used@) =~= name_list(before).push(
                            all[place as int].manifest_digest,
                        ));
                        assert(digests_at(all, places) =~= digests_at(all, so_far).push(
                            all[place as int].manifest_digest,
                        ));
                    }
                },
                Err(error) => {
                    proof {
                        lemma_picked_fault(all, given, wanted, n + 1, wanted.len() as int);
                    }
                    return Err(error);
                },
            }
            n += 1;
        }
        if used.len() != self.packs.len() {
            return Err(
                FactPackLockError::Extra { names: unpicked_names(&self.packs, &used) },
            );
        }
        Ok(packs)
    }
}

} // verus!
