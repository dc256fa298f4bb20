//! Which capabilities are missing from what packs demand, and which notes are told.

use crate::analysis::{
    missing_capability, missing_from, without_repeats, AnalysisDiagnostic, NoteView,
};
use crate::fact_pack::manifest::FactPackManifest;
use vstd::prelude::*;

verus! {

proof fn lemma_missing(required: Seq<Seq<char>>, available: spec_fn(Seq<char>) -> bool, i: int)
    requires
        0 <= i <= required.len(),
    ensures
        match missing_from(required, available, i) {
            Some(k) => i <= k < required.len() && !available(required[k]) && forall|j: int|
                i <= j < k ==> available(#[trigger] required[j]),
            None => forall|j: int| i <= j < required.len() ==> available(#[trigger] required[j]),
        },
    decreases required.len() - i,
{
    if i < required.len() && available(required[i]) {
        lemma_missing(required, available, i + 1);
    }
}

/// What is found missing is required by a manifest and not available, and no manifest
/// before it requires what is not; nothing is found missing exactly where everything
/// that any manifest requires is available.
pub proof fn law_the_first_missing_capability_is_found(
    manifests: Seq<FactPackManifest>,
    available: spec_fn(Seq<char>) -> bool,
    i: int,
)
    requires
        0 <= i <= manifests.len(),
    ensures
        match missing_capability(manifests, available, i) {
            Some((m, k)) => {
                &&& i <= m < manifests.len()
                &&& 0 <= k < manifests[m]@.requires.len()
                &&& !available(manifests[m]@.requires[k])
                &&& forall|j: int|
                    i <= j < m ==> has_all(#[trigger] manifests[j], available)
            },
            None => forall|j: int|
                i <= j < manifests.len() ==> has_all(#[trigger] manifests[j], available),
        },
    decreases manifests.len() - i,
{
    if i < manifests.len() {
        lemma_missing(manifests[i]@.requires, available, 0);
        law_the_first_missing_capability_is_found(manifests, available, i + 1);
        if missing_from(manifests[i]@.requires, available, 0) is None {
            assert(has_all(manifests[i], available));
        }
    }
}

/// Whether everything that a manifest requires is available.
pub open spec fn has_all(manifest: FactPackManifest, available: spec_fn(Seq<char>) -> bool) -> bool {
    forall|k: int|
        0 <= k < manifest@.requires.len() ==> available(#[trigger] manifest@.requires[k])
}

/// Leaving out repeats keeps every note, and keeps none twice in a row: what is kept
/// is of the list, all of the list is told, and each kept note tells another than the
/// one kept before it.
pub proof fn law_notes_are_told_once_in_a_row(list: Seq<AnalysisDiagnostic>)
    ensures
        forall|i: int|
            0 <= i < without_repeats(list).len() ==> list.contains(
                #[trigger] without_repeats(list)[i],
            ),
        forall|i: int| 0 <= i < list.len() ==> is_told(without_repeats(list), #[trigger] list[i]@),
        list.len() > 0 ==> without_repeats(list).len() > 0 && without_repeats(list).last()@
            == list.last()@,
        forall|i: int|
            0 < i < without_repeats(list).len() ==> tells_another(without_repeats(list), i),
    decreases list.len(),
{
    if list.len() > 0 {
        let shorter = list.drop_last();
        law_notes_are_told_once_in_a_row(shorter);
        let before = without_repeats(shorter);
        let all = without_repeats(list);
        assert forall|i: int| 0 <= i < all.len() implies list.contains(#[trigger] all[i]) by {
            if i < before.len() {
                assert(shorter.contains(before[i]));
                let k = choose|k: int| 0 <= k < shorter.len() && shorter[k] == before[i];
                assert(list[k] == all[i]);
            } else {
                assert(list[list.len() - 1] == all[i]);
            }
        }
        assert forall|i: int| 0 <= i < list.len() implies is_told(all, #[trigger] list[i]@) by {
            if i < shorter.len() {
                assert(shorter[i] == list[i]);
                assert(is_told(before, shorter[i]@));
                let k = choose|k: int| 0 <= k < before.len() && (#[trigger] before[k])@ == list[i]@;
                assert(all[k]@ == list[i]@);
            } else {
                assert(all[all.len() - 1]@ == list[i]@);
            }
        }
        assert forall|i: int| 0 < i < all.len() implies tells_another(all, i) by {
            if i < before.len() {
                assert(tells_another(before, i));
            } else {
                assert(shorter.last() == list[list.len() - 2]);
            }
        }
    }
}

/// Whether a note is told somewhere in a list.
pub open spec fn is_told(list: Seq<AnalysisDiagnostic>, note: NoteView) -> bool {
    exists|k: int| 0 <= k < list.len() && (#[trigger] list[k])@ == note
}

/// Whether a note of a list tells another thing than the one before it.
pub open spec fn tells_another(list: Seq<AnalysisDiagnostic>, i: int) -> bool {
    list[i - 1]@ != list[i]@
}

} // verus!
