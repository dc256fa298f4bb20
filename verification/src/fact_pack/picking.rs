//! Which entries of a lock requirements pick.

use crate::fact_pack::cache::{CacheFault, PackView};
use crate::fact_pack::lock::{LockFault, LockView, LockedView};
use crate::fact_pack::requirement::{satisfies, RequirementView};
use crate::fact_pack::resolve::{
    all_picked, digests_at, entry_satisfies, extra_names, is_sole_entry, load_fault,
    lock_resolution, picked,
};
use vstd::prelude::*;

verus! {

/// A requirement picks the one entry that satisfies it, where that was not picked
/// before and its pack was loaded as it is pinned. It is missing where none does, and
/// ambiguous where several do.
pub proof fn law_a_requirement_picks_the_one_entry(
    packs: Seq<LockedView>,
    loaded: Seq<Result<PackView, CacheFault>>,
    requirement: RequirementView,
    used: Seq<Seq<char>>,
    i: int,
    j: int,
)
    ensures
        0 <= i < packs.len() && satisfies(requirement, packs[i].manifest) && (forall|k: int|
            0 <= k < packs.len() && k != i ==> !satisfies(
                requirement,
                (#[trigger] packs[k]).manifest,
            )) && !used.contains(packs[i].manifest_digest) && (loaded[i] matches Ok(pack)
            && pack.manifest == packs[i].manifest) ==> picked(packs, loaded, requirement, used)
            == Ok::<int, LockFault>(i),
        (forall|k: int|
            0 <= k < packs.len() ==> !satisfies(requirement, (#[trigger] packs[k]).manifest))
            ==> picked(packs, loaded, requirement, used) == Err::<int, LockFault>(
            LockFault::Missing(requirement.name),
        ),
        0 <= i < j < packs.len() && satisfies(requirement, packs[i].manifest) && satisfies(
            requirement,
            packs[j].manifest,
        ) ==> picked(packs, loaded, requirement, used) == Err::<int, LockFault>(
            LockFault::Ambiguous(requirement.name),
        ),
{
    if 0 <= i < packs.len() && satisfies(requirement, packs[i].manifest) {
        assert(entry_satisfies(packs, requirement, i));
        if forall|k: int|
            0 <= k < packs.len() && k != i ==> !satisfies(
                requirement,
                (#[trigger] packs[k]).manifest,
            ) {
            assert(is_sole_entry(packs, requirement, i));
            let k = choose|k: int| is_sole_entry(packs, requirement, k);
            assert(entry_satisfies(packs, requirement, k));
            assert(k == i);
        }
    }
    if 0 <= i < j < packs.len() && satisfies(requirement, packs[i].manifest) && satisfies(
        requirement,
        packs[j].manifest,
    ) {
        assert(entry_satisfies(packs, requirement, j));
        if exists|k: int| is_sole_entry(packs, requirement, k) {
            let k = choose|k: int| is_sole_entry(packs, requirement, k);
            assert(k == i && k == j);
        }
    }
    if forall|k: int|
        0 <= k < packs.len() ==> !satisfies(requirement, (#[trigger] packs[k]).manifest) {
        assert forall|k: int| !is_sole_entry(packs, requirement, k) by {
            if is_sole_entry(packs, requirement, k) {
                assert(satisfies(requirement, packs[k].manifest));
            }
        }
        assert forall|k: int| !entry_satisfies(packs, requirement, k) by {
            if entry_satisfies(packs, requirement, k) {
                assert(satisfies(requirement, packs[k].manifest));
            }
        }
    }
}

/// A pack that was loaded with another manifest than it is pinned with has drifted.
pub proof fn law_packs_are_loaded_as_pinned(
    entry: LockedView,
    loaded: Result<PackView, CacheFault>,
)
    ensures
        load_fault(entry, loaded) is None <==> (loaded matches Ok(pack) && pack.manifest
            == entry.manifest),
        loaded matches Ok(pack) && pack.manifest != entry.manifest ==> load_fault(entry, loaded)
            == Some(LockFault::Drift(entry.manifest_digest)),
{
}

/// An entry is told as extra exactly where its digest was not picked.
pub proof fn law_extra_entries_are_those_not_picked(
    packs: Seq<LockedView>,
    used: Seq<Seq<char>>,
    n: int,
    name: Seq<char>,
)
    requires
        0 <= n <= packs.len(),
    ensures
        extra_names(packs, used, n).contains(name) <==> exists|i: int|
            0 <= i < n && (#[trigger] packs[i]).manifest.name == name && !used.contains(
                packs[i].manifest_digest,
            ),
    decreases n,
{
    if n > 0 {
        law_extra_entries_are_those_not_picked(packs, used, n - 1, name);
        let all = extra_names(packs, used, n);
        let before = extra_names(packs, used, n - 1);
        if before.contains(name) {
            let k = choose|k: int| 0 <= k < before.len() && before[k] == name;
            assert(all[k] == name);
        }
        if !used.contains(packs[n - 1].manifest_digest) {
            assert(all.last() == packs[n - 1].manifest.name);
        }
        if all.contains(name) && !before.contains(name) {
            let k = choose|k: int| 0 <= k < all.len() && all[k] == name;
            if k < before.len() {
                assert(before[k] == name);
            }
            assert(packs[n - 1].manifest.name == name);
        }
    }
}

proof fn lemma_all_picked(
    packs: Seq<LockedView>,
    loaded: Seq<Result<PackView, CacheFault>>,
    requirements: Seq<RequirementView>,
    n: int,
)
    requires
        0 <= n <= requirements.len(),
        all_picked(packs, loaded, requirements, n) is Ok,
    ensures
        ({
            let places = all_picked(packs, loaded, requirements, n)->Ok_0;
            &&& places.len() == n
            &&& forall|k: int|
                0 <= k < n ==> serves(packs, loaded, requirements[k], #[trigger] places[k])
            &&& forall|k: int, l: int|
                0 <= k < l < n ==> packs[#[trigger] places[k]].manifest_digest
                    != packs[#[trigger] places[l]].manifest_digest
        }),
    decreases n,
{
    if n > 0 {
        lemma_all_picked(packs, loaded, requirements, n - 1);
        let before = all_picked(packs, loaded, requirements, n - 1)->Ok_0;
        let places = all_picked(packs, loaded, requirements, n)->Ok_0;
        let requirement = requirements[n - 1];
        let i = places[n - 1];
        assert(is_sole_entry(packs, requirement, i));
        assert(serves(packs, loaded, requirement, i));
        assert forall|k: int| 0 <= k < n implies serves(
            packs,
            loaded,
            requirements[k],
            #[trigger] places[k],
        ) by {
            if k < n - 1 {
                assert(places[k] == before[k]);
            }
        }
        let used = digests_at(packs, before);
        assert forall|k: int, l: int| 0 <= k < l < n implies packs[#[trigger] places[k]].manifest_digest
            != packs[#[trigger] places[l]].manifest_digest by {
            assert(places[k] == before[k]);
            if l == n - 1 {
                assert(used[k] == packs[before[k]].manifest_digest);
                if packs[places[k]].manifest_digest == packs[i].manifest_digest {
                    assert(used.contains(packs[i].manifest_digest));
                }
            } else {
                assert(places[l] == before[l]);
            }
        }
    }
}

/// Whether an entry serves a requirement: it satisfies it, and its pack was loaded as
/// it is pinned.
pub open spec fn serves(
    packs: Seq<LockedView>,
    loaded: Seq<Result<PackView, CacheFault>>,
    requirement: RequirementView,
    i: int,
) -> bool {
    &&& 0 <= i < packs.len()
    &&& satisfies(requirement, packs[i].manifest)
    &&& loaded[i] matches Ok(pack) && pack.manifest == packs[i].manifest
}

/// Where requirements are resolved against a lock, each has an entry that serves it,
/// no two share one, and there are no more entries than requirements.
pub proof fn law_a_resolved_lock_serves_each_requirement(
    lock: LockView,
    loaded: Seq<Result<PackView, CacheFault>>,
    requirements: Seq<RequirementView>,
)
    requires
        lock_resolution(lock, loaded, requirements) is Ok,
    ensures
        ({
            let places = lock_resolution(lock, loaded, requirements)->Ok_0;
            &&& places.len() == requirements.len()
            &&& places.len() == lock.packs.len()
            &&& forall|k: int|
                0 <= k < places.len() ==> serves(
                    lock.packs,
                    loaded,
                    requirements[k],
                    #[trigger] places[k],
                )
            &&& forall|k: int, l: int|
                0 <= k < l < places.len() ==> #[trigger] places[k] != #[trigger] places[l]
        }),
{
    let n = requirements.len() as int;
    lemma_all_picked(lock.packs, loaded, requirements, n);
    let places = lock_resolution(lock, loaded, requirements)->Ok_0;
    assert forall|k: int, l: int| 0 <= k < l < places.len() implies #[trigger] places[k]
        != #[trigger] places[l] by {
        assert(lock.packs[places[k]].manifest_digest != lock.packs[places[l]].manifest_digest);
    }
}

} // verus!
