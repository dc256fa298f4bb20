//! Which artifacts are downloaded, and what of them.

use crate::fact_pack::manifest::FACT_PACK_ARTIFACT_MEDIA_TYPE;
use crate::registry::{
    at_places, distinct_places, download_of, listed_before, manifest_fault, sizes_fault,
    total_size, RegistryLimits, RemoteView,
};
use vstd::prelude::*;

verus! {

proof fn lemma_places(descriptors: Seq<RemoteView>, n: int, i: int)
    requires
        0 <= n <= descriptors.len(),
        0 <= i < n,
    ensures
        exists|k: int|
            0 <= k < distinct_places(descriptors, n).len() && descriptors[#[trigger] distinct_places(
                descriptors,
                n,
            )[k]].0 == descriptors[i].0,
    decreases n,
{
    let all = distinct_places(descriptors, n);
    let before = distinct_places(descriptors, n - 1);
    if i == n - 1 {
        if listed_before(descriptors, n - 1) {
            let j = choose|j: int|
                0 <= j < n - 1 && #[trigger] descriptors[j].0 == descriptors[n - 1].0;
            lemma_places(descriptors, n - 1, j);
            let k = choose|k: int|
                0 <= k < before.len() && descriptors[#[trigger] before[k]].0 == descriptors[j].0;
            assert(descriptors[all[k]].0 == descriptors[i].0);
        } else {
            assert(all[all.len() - 1] == i);
        }
    } else {
        lemma_places(descriptors, n - 1, i);
        let k = choose|k: int|
            0 <= k < before.len() && descriptors[#[trigger] before[k]].0 == descriptors[i].0;
        assert(all[k] == before[k]);
    }
}

proof fn lemma_apart(descriptors: Seq<RemoteView>, n: int)
    requires
        0 <= n <= descriptors.len(),
    ensures
        forall|k: int|
            0 <= k < distinct_places(descriptors, n).len() ==> 0 <= #[trigger] distinct_places(
                descriptors,
                n,
            )[k] < n,
        forall|k: int, l: int|
            0 <= k < l < distinct_places(descriptors, n).len() ==> #[trigger] distinct_places(
                descriptors,
                n,
            )[k] < #[trigger] distinct_places(descriptors, n)[l] && descriptors[distinct_places(
                descriptors,
                n,
            )[k]].0 != descriptors[distinct_places(descriptors, n)[l]].0,
    decreases n,
{
    if n > 0 {
        lemma_apart(descriptors, n - 1);
        let all = distinct_places(descriptors, n);
        let before = distinct_places(descriptors, n - 1);
        if !listed_before(descriptors, n - 1) {
            assert forall|k: int, l: int| 0 <= k < l < all.len() implies #[trigger] all[k]
                < #[trigger] all[l] && descriptors[all[k]].0 != descriptors[all[l]].0 by {
                if l == all.len() - 1 {
                    assert(all[k] == before[k]);
                    assert(descriptors[before[k]].0 != descriptors[n - 1].0);
                } else {
                    assert(all[k] == before[k] && all[l] == before[l]);
                }
            }
        }
    }
}

/// Every digest that a manifest lists is downloaded, and each once.
pub proof fn law_every_digest_is_downloaded_once(
    limits: RegistryLimits,
    length: usize,
    kind: Option<Seq<char>>,
    descriptors: Seq<RemoteView>,
    i: int,
)
    requires
        download_of(limits, length, Ok((kind, descriptors))) is Ok,
    ensures
        ({
            let blobs = download_of(limits, length, Ok((kind, descriptors)))->Ok_0;
            &&& 0 <= i < descriptors.len() ==> exists|k: int|
                0 <= k < blobs.len() && (#[trigger] blobs[k]).0 == descriptors[i].0
            &&& forall|k: int, l: int|
                0 <= k < l < blobs.len() ==> (#[trigger] blobs[k]).0 != (#[trigger] blobs[l]).0
            &&& forall|k: int|
                0 <= k < blobs.len() ==> descriptors.contains(#[trigger] blobs[k])
        }),
{
    let n = descriptors.len() as int;
    let places = distinct_places(descriptors, n);
    let blobs = download_of(limits, length, Ok((kind, descriptors)))->Ok_0;
    assert(blobs == at_places(descriptors, places));
    lemma_apart(descriptors, n);
    if 0 <= i < n {
        lemma_places(descriptors, n, i);
        let k = choose|k: int|
            0 <= k < places.len() && descriptors[#[trigger] places[k]].0 == descriptors[i].0;
        assert(blobs[k].0 == descriptors[i].0);
    }
    assert forall|k: int, l: int| 0 <= k < l < blobs.len() implies (#[trigger] blobs[k]).0 != (
    #[trigger] blobs[l]).0 by {
        assert(places[k] < places[l]);
    }
    assert forall|k: int| 0 <= k < blobs.len() implies descriptors.contains(#[trigger] blobs[k]) by {
        assert(descriptors[places[k]] == blobs[k]);
    }
}

proof fn lemma_sizes(limits: RegistryLimits, descriptors: Seq<RemoteView>, total: int, i: int)
    requires
        0 <= i <= descriptors.len(),
        0 <= total,
        forall|k: int|
            i <= k < descriptors.len() ==> 0 <= (#[trigger] descriptors[k]).1 <= usize::MAX
                && descriptors[k].1 <= limits.max_blob_bytes,
        total + total_size(descriptors, i) <= limits.max_total_bytes,
    ensures
        sizes_fault(limits, descriptors, total, i) is None,
    decreases descriptors.len() - i,
{
    if i < descriptors.len() {
        lemma_rest(descriptors, i + 1);
        assert(0 <= descriptors[i].1);
        lemma_sizes(limits, descriptors, total + descriptors[i].1, i + 1);
    }
}

proof fn lemma_rest(descriptors: Seq<RemoteView>, i: int)
    requires
        0 <= i <= descriptors.len(),
        forall|k: int| i <= k < descriptors.len() ==> 0 <= (#[trigger] descriptors[k]).1,
    ensures
        total_size(descriptors, i) >= 0,
    decreases descriptors.len() - i,
{
    if i < descriptors.len() {
        lemma_rest(descriptors, i + 1);
        assert(0 <= descriptors[i].1);
    }
}

/// A fact pack whose blobs, each and all together with the manifest, stay within the
/// limits is downloaded; what is no fact pack is not.
pub proof fn law_what_fits_is_downloaded(
    limits: RegistryLimits,
    length: usize,
    kind: Option<Seq<char>>,
    descriptors: Seq<RemoteView>,
)
    ensures
        kind == Some(FACT_PACK_ARTIFACT_MEDIA_TYPE@) && (forall|k: int|
            0 <= k < descriptors.len() ==> 0 <= (#[trigger] descriptors[k]).1 <= usize::MAX
                && descriptors[k].1 <= limits.max_blob_bytes) && length + total_size(
            descriptors,
            0,
        ) <= limits.max_total_bytes ==> download_of(limits, length, Ok((kind, descriptors))) is Ok,
        kind != Some(FACT_PACK_ARTIFACT_MEDIA_TYPE@) ==> (download_of(
            limits,
            length,
            Ok((kind, descriptors)),
        ) matches Err(fault) && fault is ArtifactType),
{
    if kind == Some(FACT_PACK_ARTIFACT_MEDIA_TYPE@) && (forall|k: int|
        0 <= k < descriptors.len() ==> 0 <= (#[trigger] descriptors[k]).1 <= usize::MAX
            && descriptors[k].1 <= limits.max_blob_bytes) && length + total_size(descriptors, 0)
        <= limits.max_total_bytes {
        lemma_sizes(limits, descriptors, length as int, 0);
    }
}

/// A manifest is taken where it is no longer than allowed and has the digest asked
/// for, where one is.
pub proof fn law_manifests_have_the_digest_asked_for(
    limits: RegistryLimits,
    length: usize,
    digest: Seq<char>,
    expected: Option<Seq<char>>,
)
    ensures
        manifest_fault(limits, length, digest, expected) is None <==> length
            <= limits.max_manifest_bytes && (expected is None || expected == Some(digest)),
{
}

} // verus!
