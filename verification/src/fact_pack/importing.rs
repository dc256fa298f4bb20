//! How a pack comes into the cache: what is done one after the other, what the
//! cache holds after it, and what a refusal leaves.

use super::cache::{
    bytes_fault, bytes_from, bytes_of, config_fault, contents_fault, decoded_pack,
    descriptor_fault, digest_fault, hex_part, index_fault, layers_fault, path_of_blob, BlobView,
    CacheFault, CachedContentView, PackView,
};
use super::keeping::{
    law_an_entry_names_its_pack, layout_blob_path, layout_files_of, store_result, written, StoreStep,
};
use super::laws::{
    all_kept, holds_bytes, law_a_built_index_is_accepted, law_a_built_pack_is_read_back,
    law_digests_are_well_written,
};
use super::layout::{
    artifact_of, first_altered, index_of, ArtifactView, DescriptorView, IndexView,
};
use super::manifest::{digest_of, ContentView, ManifestView};
use super::store::{entries_fault, entry_digest, entry_digests, entry_fault};
use crate::digest::sha256_of;
use crate::ordering::{lemma_settles, settled_of, Ordered};
use crate::text::Comparison;
use vstd::prelude::*;
use vstd::string::*;
use vstd::utf8::*;

verus! {

/// What a cache holds: the bytes under each digest, and which packs have an entry.
#[verifier::ext_equal]
pub struct CacheState {
    pub blobs: Map<Seq<char>, Seq<u8>>,
    pub entries: Set<Seq<char>>,
}

/// What a cache holds under a digest.
pub open spec fn held(state: CacheState, digest: Seq<char>) -> Option<
    Result<Seq<u8>, CacheFault>,
> {
    if state.blobs.contains_key(digest) {
        Some(Ok(state.blobs[digest]))
    } else {
        None
    }
}

/// A cache after a blob was kept.
pub open spec fn blob_stored(state: CacheState, digest: Seq<char>, bytes: Seq<u8>) -> Result<
    CacheState,
    CacheFault,
> {
    match store_result(digest, bytes, held(state, digest)) {
        Ok(StoreStep::Keep) => Ok(state),
        Ok(StoreStep::Write) => Ok(
            CacheState { blobs: state.blobs.insert(digest, bytes), ..state },
        ),
        Err(fault) => Err(fault),
    }
}

/// A cache after the first so many of several blobs were kept.
pub open spec fn blobs_stored(
    state: CacheState,
    blobs: Seq<(Seq<char>, Seq<u8>)>,
    n: int,
) -> Result<CacheState, CacheFault>
    decreases n,
{
    if n <= 0 || n > blobs.len() {
        Ok(state)
    } else {
        match blobs_stored(state, blobs, n - 1) {
            Ok(before) => blob_stored(before, blobs[n - 1].0, blobs[n - 1].1),
            Err(fault) => Err(fault),
        }
    }
}

/// What keeping some blobs does: nothing that was kept changes, what is new has
/// its digest, and entries are left alone.
proof fn lemma_stored(state: CacheState, blobs: Seq<(Seq<char>, Seq<u8>)>, n: int)
    requires
        0 <= n <= blobs.len(),
        blobs_stored(state, blobs, n) is Ok,
    ensures
        ({
            let after = blobs_stored(state, blobs, n)->Ok_0;
            &&& after.entries == state.entries
            &&& forall|digest: Seq<char>| #[trigger]
                state.blobs.contains_key(digest) ==> after.blobs.contains_key(digest)
                    && after.blobs[digest] == state.blobs[digest]
            &&& forall|i: int|
                0 <= i < n ==> after.blobs.contains_key((#[trigger] blobs[i]).0) && bytes_fault(
                    blobs[i].0,
                    blobs[i].1,
                ) is None && bytes_fault(blobs[i].0, after.blobs[blobs[i].0]) is None
        }),
    decreases n,
{
    if n > 0 {
        lemma_stored(state, blobs, n - 1);
        let before = blobs_stored(state, blobs, n - 1)->Ok_0;
        let after = blobs_stored(state, blobs, n)->Ok_0;
        assert forall|i: int| 0 <= i < n implies after.blobs.contains_key((#[trigger] blobs[i]).0)
            && bytes_fault(blobs[i].0, blobs[i].1) is None && bytes_fault(
            blobs[i].0,
            after.blobs[blobs[i].0],
        ) is None by {
            if i < n - 1 {
                assert(before.blobs.contains_key(blobs[i].0));
            }
        }
    }
}

/// Blobs that are all kept already are kept again without a change.
proof fn lemma_stored_again(state: CacheState, blobs: Seq<(Seq<char>, Seq<u8>)>, n: int)
    requires
        0 <= n <= blobs.len(),
        forall|i: int|
            0 <= i < blobs.len() ==> state.blobs.contains_key((#[trigger] blobs[i]).0)
                && bytes_fault(blobs[i].0, blobs[i].1) is None && bytes_fault(
                blobs[i].0,
                state.blobs[blobs[i].0],
            ) is None,
    ensures
        blobs_stored(state, blobs, n) == Ok::<CacheState, CacheFault>(state),
    decreases n,
{
    if n > 0 {
        lemma_stored_again(state, blobs, n - 1);
        assert(state.blobs.contains_key(blobs[n - 1].0));
    }
}

/// Whether a cache holds, under the digests of some blobs, nothing but their
/// bytes; and no two of them share a digest that are not the same.
pub open spec fn has_no_others(state: CacheState, blobs: Seq<(Seq<char>, Seq<u8>)>) -> bool {
    &&& forall|i: int|
        0 <= i < blobs.len() && state.blobs.contains_key((#[trigger] blobs[i]).0)
            ==> state.blobs[blobs[i].0] == blobs[i].1
    &&& forall|i: int, j: int|
        0 <= i < blobs.len() && 0 <= j < blobs.len() && (#[trigger] blobs[i]).0 == (
        #[trigger] blobs[j]).0 ==> blobs[i].1 == blobs[j].1
}

/// Where a cache holds no other bytes under their digests, blobs are kept as they
/// are.
proof fn lemma_kept_as_they_are(state: CacheState, blobs: Seq<(Seq<char>, Seq<u8>)>, n: int)
    requires
        0 <= n <= blobs.len(),
        has_no_others(state, blobs),
        blobs_stored(state, blobs, n) is Ok,
    ensures
        has_no_others(blobs_stored(state, blobs, n)->Ok_0, blobs),
    decreases n,
{
    if n > 0 {
        lemma_kept_as_they_are(state, blobs, n - 1);
        let before = blobs_stored(state, blobs, n - 1)->Ok_0;
        let after = blobs_stored(state, blobs, n)->Ok_0;
        assert forall|i: int|
            0 <= i < blobs.len() && after.blobs.contains_key(
                (#[trigger] blobs[i]).0,
            ) implies after.blobs[blobs[i].0] == blobs[i].1 by {
            if blobs[i].0 == blobs[n - 1].0 {
                assert(blobs[i].1 == blobs[n - 1].1);
            }
            if before.blobs.contains_key(blobs[i].0) {
                assert(before.blobs[blobs[i].0] == blobs[i].1);
            }
        }
    }
}

/// Blobs that have their digests are all kept, as they are, where a cache holds no
/// other bytes under these.
proof fn lemma_all_stored(state: CacheState, blobs: Seq<(Seq<char>, Seq<u8>)>, n: int)
    requires
        0 <= n <= blobs.len(),
        has_no_others(state, blobs),
        forall|i: int| 0 <= i < blobs.len() ==> bytes_fault((#[trigger] blobs[i]).0, blobs[i].1) is None,
    ensures
        blobs_stored(state, blobs, n) is Ok,
    decreases n,
{
    if n > 0 {
        lemma_all_stored(state, blobs, n - 1);
        lemma_kept_as_they_are(state, blobs, n - 1);
        let before = blobs_stored(state, blobs, n - 1)->Ok_0;
        assert(bytes_fault(blobs[n - 1].0, blobs[n - 1].1) is None);
        if before.blobs.contains_key(blobs[n - 1].0) {
            assert(before.blobs[blobs[n - 1].0] == blobs[n - 1].1);
        }
    }
}

/// Keeping the first of several blobs does not depend on those after them.
proof fn lemma_prefix_stored(
    state: CacheState,
    blobs: Seq<(Seq<char>, Seq<u8>)>,
    last: (Seq<char>, Seq<u8>),
    n: int,
)
    requires
        0 <= n <= blobs.len(),
    ensures
        blobs_stored(state, blobs.push(last), n) == blobs_stored(state, blobs, n),
    decreases n,
{
    if n > 0 {
        lemma_prefix_stored(state, blobs, last, n - 1);
    }
}

/// What reads a pack besides this library: an artifact manifest from its bytes, or
/// why they are not one; a pack from its configuration, with how it is written in
/// full; and why a file that is not there cannot be read.
pub struct Reading {
    pub artifact: spec_fn(Seq<u8>) -> Result<ArtifactView, Seq<char>>,
    pub pack: spec_fn(Seq<char>) -> Result<(ManifestView, Seq<char>), CacheFault>,
    pub missing: spec_fn(Seq<char>) -> Seq<char>,
}

/// What a directory of blobs gives for a digest.
pub open spec fn read_blob(
    blobs: Map<Seq<char>, Seq<u8>>,
    reading: Reading,
    root: Seq<char>,
    digest: Seq<char>,
) -> Result<Seq<u8>, CacheFault> {
    if blobs.contains_key(digest) {
        Ok(blobs[digest])
    } else {
        let path = path_of_blob(root, digest);
        Err(CacheFault::Io("reading OCI blob"@, path, (reading.missing)(path)))
    }
}

/// What a directory of blobs gives for some digests.
pub open spec fn read_back(
    blobs: Map<Seq<char>, Seq<u8>>,
    reading: Reading,
    root: Seq<char>,
    digests: Seq<Seq<char>>,
) -> Seq<BlobView> {
    Seq::new(digests.len(), |i: int| (digests[i], read_blob(blobs, reading, root, digests[i])))
}

/// The bytes of a digest that is asked for are those that are there.
proof fn lemma_read_back(
    blobs: Map<Seq<char>, Seq<u8>>,
    reading: Reading,
    root: Seq<char>,
    digests: Seq<Seq<char>>,
    digest: Seq<char>,
    i: int,
)
    requires
        0 <= i <= digests.len(),
        exists|k: int| i <= k < digests.len() && digests[k] == digest,
    ensures
        bytes_from(read_back(blobs, reading, root, digests), digest, i) == read_blob(
            blobs,
            reading,
            root,
            digest,
        ),
    decreases digests.len() - i,
{
    if digests[i] != digest {
        lemma_read_back(blobs, reading, root, digests, digest, i + 1);
    }
}

/// The digests that an artifact names: that of its configuration, and those of its
/// layers.
pub open spec fn named_digests(artifact: ArtifactView) -> Seq<Seq<char>> {
    seq![artifact.config.digest] + Seq::new(
        artifact.layers.len(),
        |i: int| artifact.layers[i].digest,
    )
}

/// The pack that a directory of blobs holds, given the bytes of its artifact.
pub open spec fn pack_in(
    blobs: Map<Seq<char>, Seq<u8>>,
    reading: Reading,
    root: Seq<char>,
    digest: Seq<char>,
    bytes: Seq<u8>,
) -> Result<PackView, CacheFault> {
    match (reading.artifact)(bytes) {
        Err(message) => Err(CacheFault::OciJson(path_of_blob(root, digest), message)),
        Ok(artifact) => {
            let read = read_back(blobs, reading, root, named_digests(artifact));
            match config_fault(artifact, read) {
                Some(fault) => Err(fault),
                None => {
                    let config = decode_utf8(bytes_of(read, artifact.config.digest)->Ok_0);
                    match (reading.pack)(config) {
                        Err(fault) => Err(fault),
                        Ok((pack, canonical)) => match contents_fault(
                            artifact,
                            config,
                            pack,
                            canonical,
                            read,
                        ) {
                            Some(fault) => Err(fault),
                            None => Ok(decoded_pack(artifact, digest, pack, root)),
                        },
                    }
                },
            }
        },
    }
}

/// The pack that a cache holds the blobs of.
pub open spec fn kept_pack(
    state: CacheState,
    reading: Reading,
    root: Seq<char>,
    digest: Seq<char>,
) -> Result<PackView, CacheFault> {
    if !state.blobs.contains_key(digest) {
        let path = path_of_blob(root, digest);
        Err(CacheFault::Io("reading cached OCI manifest"@, path, (reading.missing)(path)))
    } else {
        match bytes_fault(digest, state.blobs[digest]) {
            Some(fault) => Err(fault),
            None => pack_in(state.blobs, reading, root, digest, state.blobs[digest]),
        }
    }
}

/// The pack that a cache has an entry for.
pub open spec fn loaded(
    state: CacheState,
    reading: Reading,
    root: Seq<char>,
    digest: Seq<char>,
) -> Result<PackView, CacheFault> {
    match digest_fault(digest) {
        Some(fault) => Err(fault),
        None => if state.entries.contains(digest) {
            kept_pack(state, reading, root, digest)
        } else {
            Err(CacheFault::NotInstalled(digest))
        },
    }
}

/// A cache after a pack was given its entry. One that has it already has to be
/// loaded.
pub open spec fn entered(
    state: CacheState,
    reading: Reading,
    root: Seq<char>,
    digest: Seq<char>,
) -> Result<CacheState, CacheFault> {
    if state.entries.contains(digest) {
        match loaded(state, reading, root, digest) {
            Ok(_) => Ok(state),
            Err(fault) => Err(fault),
        }
    } else {
        Ok(CacheState { entries: state.entries.insert(digest), ..state })
    }
}

/// One step of an import.
#[derive(Debug, Clone, Copy, PartialEq, Eq, Structural)]
pub enum ImportStep {
    /// The bytes of the artifact manifest are held to its digest.
    Check,
    /// A blob is kept.
    Keep(usize),
    /// The artifact manifest is kept.
    KeepManifest,
    /// The pack is decoded from the blobs that are kept.
    Decode,
    /// The pack is given its entry.
    Enter,
    /// The pack is loaded.
    Load,
}

/// The steps that keep some blobs.
pub open spec fn keep_steps(blobs: nat) -> Seq<ImportStep> {
    Seq::new(blobs, |i: int| ImportStep::Keep(i as usize))
}

/// The steps that import an artifact that was downloaded, with some blobs.
pub open spec fn artifact_steps(blobs: nat) -> Seq<ImportStep> {
    seq![ImportStep::Check] + keep_steps(blobs) + seq![
        ImportStep::KeepManifest,
        ImportStep::Decode,
        ImportStep::Enter,
        ImportStep::Load,
    ]
}

/// The steps that import a layout once it was decoded, with some blobs.
pub open spec fn layout_steps(blobs: nat) -> Seq<ImportStep> {
    keep_steps(blobs) + seq![ImportStep::Enter, ImportStep::Load]
}

/// Adds the steps that keep some blobs.
fn push_keeps(plan: &mut Vec<ImportStep>, blobs: usize)
    ensures
        final(plan)@ == old(plan)@ + keep_steps(blobs as nat),
{
    let ghost before = plan@;
    let mut i: usize = 0;
    assert(before =~= before + keep_steps(blobs as nat).take(0));
    while i < blobs
        invariant
            i <= blobs,
            plan@ == before + keep_steps(blobs as nat).take(i as int),
        decreases blobs - i,
    {
        plan.push(ImportStep::Keep(i));
        assert(plan@ =~= before + keep_steps(blobs as nat).take(i + 1));
        i += 1;
    }
    assert(keep_steps(blobs as nat).take(i as int) =~= keep_steps(blobs as nat));
}

/// What is done, one after the other, to import an artifact that was downloaded.
/// Its entry is made when all of it is kept and was decoded.
pub fn artifact_plan(blobs: usize) -> (plan: Vec<ImportStep>)
    ensures
        plan@ == artifact_steps(blobs as nat),
{
    let mut plan: Vec<ImportStep> = Vec::new();
    plan.push(ImportStep::Check);
    push_keeps(&mut plan, blobs);
    plan.push(ImportStep::KeepManifest);
    plan.push(ImportStep::Decode);
    plan.push(ImportStep::Enter);
    plan.push(ImportStep::Load);
    assert(plan@ =~= artifact_steps(blobs as nat));
    plan
}

/// What is done, one after the other, to import a layout that was decoded. Its
/// entry is made when all of it is kept.
pub fn layout_plan(blobs: usize) -> (plan: Vec<ImportStep>)
    ensures
        plan@ == layout_steps(blobs as nat),
{
    let mut plan: Vec<ImportStep> = Vec::new();
    push_keeps(&mut plan, blobs);
    plan.push(ImportStep::Enter);
    plan.push(ImportStep::Load);
    assert(plan@ =~= layout_steps(blobs as nat));
    plan
}

/// What is imported: the digest and the bytes of the artifact manifest, and the
/// blobs to keep.
pub struct Import {
    pub digest: Seq<char>,
    pub bytes: Seq<u8>,
    pub blobs: Seq<(Seq<char>, Seq<u8>)>,
}

/// A cache after one step of an import.
pub open spec fn stepped(
    state: CacheState,
    reading: Reading,
    root: Seq<char>,
    import: Import,
    step: ImportStep,
) -> Result<CacheState, CacheFault> {
    match step {
        ImportStep::Check => match bytes_fault(import.digest, import.bytes) {
            Some(fault) => Err(fault),
            None => Ok(state),
        },
        ImportStep::Keep(i) => blob_stored(
            state,
            import.blobs[i as int].0,
            import.blobs[i as int].1,
        ),
        ImportStep::KeepManifest => blob_stored(state, import.digest, import.bytes),
        ImportStep::Decode => match kept_pack(state, reading, root, import.digest) {
            Ok(_) => Ok(state),
            Err(fault) => Err(fault),
        },
        ImportStep::Enter => entered(state, reading, root, import.digest),
        ImportStep::Load => match loaded(state, reading, root, import.digest) {
            Ok(_) => Ok(state),
            Err(fault) => Err(fault),
        },
    }
}

/// A cache after the first so many steps of an import, up to the first that fails,
/// and why that one failed.
pub open spec fn after_steps(
    state: CacheState,
    reading: Reading,
    root: Seq<char>,
    import: Import,
    steps: Seq<ImportStep>,
    n: int,
) -> (CacheState, Option<CacheFault>)
    decreases n,
{
    if n <= 0 || n > steps.len() {
        (state, None)
    } else {
        let (before, fault) = after_steps(state, reading, root, import, steps, n - 1);
        if fault is Some {
            (before, fault)
        } else {
            match stepped(before, reading, root, import, steps[n - 1]) {
                Ok(after) => (after, None),
                Err(fault) => (before, Some(fault)),
            }
        }
    }
}

/// A cache after an artifact that was downloaded was imported, and why it was
/// refused.
pub open spec fn artifact_imported(
    state: CacheState,
    reading: Reading,
    root: Seq<char>,
    import: Import,
) -> (CacheState, Option<CacheFault>) {
    let steps = artifact_steps(import.blobs.len());
    after_steps(state, reading, root, import, steps, steps.len() as int)
}

/// A layout: the version its marker tells, its index, and its blobs.
pub struct LayoutState {
    pub version: Seq<char>,
    pub index: IndexView,
    pub blobs: Map<Seq<char>, Seq<u8>>,
}

/// The pack that a layout holds.
pub open spec fn layout_pack(
    layout: LayoutState,
    reading: Reading,
    root: Seq<char>,
) -> Result<PackView, CacheFault> {
    match index_fault(layout.version, layout.index) {
        Some(fault) => Err(fault),
        None => {
            let descriptor = layout.index.manifests[0];
            let read = read_back(layout.blobs, reading, root, seq![descriptor.digest]);
            match descriptor_fault(descriptor, read) {
                Some(fault) => Err(fault),
                None => pack_in(
                    layout.blobs,
                    reading,
                    root,
                    descriptor.digest,
                    layout.blobs[descriptor.digest],
                ),
            }
        },
    }
}

/// What is imported from a layout: its artifact manifest, with blobs that hold
/// this and all that it names, as the layout gives them.
pub open spec fn takes_layout(import: Import, layout: LayoutState, reading: Reading) -> bool {
    let digest = layout.index.manifests[0].digest;
    &&& import.digest == digest
    &&& import.bytes == layout.blobs[digest]
    &&& (reading.artifact)(import.bytes) matches Ok(artifact) && {
        let names = named_digests(artifact).push(digest);
        &&& forall|i: int|
            0 <= i < import.blobs.len() ==> names.contains((#[trigger] import.blobs[i]).0)
                && import.blobs[i].1 == layout.blobs[import.blobs[i].0]
        &&& forall|name: Seq<char>| #[trigger]
            names.contains(name) ==> has_blob(import.blobs, name)
    }
}

/// Whether one of several blobs has a digest.
pub open spec fn has_blob(blobs: Seq<(Seq<char>, Seq<u8>)>, digest: Seq<char>) -> bool {
    exists|i: int| 0 <= i < blobs.len() && (#[trigger] blobs[i]).0 == digest
}

/// A cache after a layout was imported, and why it was refused: the layout is
/// decoded before anything is kept.
pub open spec fn layout_imported(
    state: CacheState,
    reading: Reading,
    root: Seq<char>,
    layout: LayoutState,
    layout_root: Seq<char>,
    import: Import,
) -> (CacheState, Option<CacheFault>) {
    match layout_pack(layout, reading, layout_root) {
        Err(fault) => (state, Some(fault)),
        Ok(_) => {
            let steps = layout_steps(import.blobs.len());
            after_steps(state, reading, root, import, steps, steps.len() as int)
        },
    }
}

/// Once a step has failed, those after it are not taken.
proof fn lemma_failed(
    state: CacheState,
    reading: Reading,
    root: Seq<char>,
    import: Import,
    steps: Seq<ImportStep>,
    m: int,
    n: int,
)
    requires
        0 <= m <= n <= steps.len(),
        after_steps(state, reading, root, import, steps, m).1 is Some,
    ensures
        after_steps(state, reading, root, import, steps, n) == after_steps(
            state,
            reading,
            root,
            import,
            steps,
            m,
        ),
    decreases n - m,
{
    if m < n {
        lemma_failed(state, reading, root, import, steps, m, n - 1);
    }
}

/// Only one step touches the entries.
proof fn lemma_entries(
    state: CacheState,
    reading: Reading,
    root: Seq<char>,
    import: Import,
    steps: Seq<ImportStep>,
    n: int,
)
    requires
        0 <= n <= steps.len(),
        forall|k: int| 0 <= k < n ==> #[trigger] steps[k] != ImportStep::Enter,
    ensures
        after_steps(state, reading, root, import, steps, n).0.entries == state.entries,
    decreases n,
{
    if n > 0 {
        lemma_entries(state, reading, root, import, steps, n - 1);
        assert(steps[n - 1] != ImportStep::Enter);
    }
}

/// The steps that keep blobs keep them, or fail as that does.
proof fn lemma_keeps(
    state: CacheState,
    reading: Reading,
    root: Seq<char>,
    import: Import,
    steps: Seq<ImportStep>,
    start: int,
    n: int,
)
    requires
        0 <= start,
        0 <= n <= import.blobs.len(),
        start + n <= steps.len(),
        forall|k: int| 0 <= k < n ==> #[trigger] steps[start + k] == ImportStep::Keep(k as usize),
        import.blobs.len() <= usize::MAX,
        after_steps(state, reading, root, import, steps, start) == (state, None::<CacheFault>),
    ensures
        match blobs_stored(state, import.blobs, n) {
            Ok(stored) => after_steps(state, reading, root, import, steps, start + n) == (
                stored,
                None::<CacheFault>,
            ),
            Err(fault) => after_steps(state, reading, root, import, steps, start + n).1 == Some(
                fault,
            ),
        },
    decreases n,
{
    if n > 0 {
        lemma_keeps(state, reading, root, import, steps, start, n - 1);
        assert(steps[start + (n - 1)] == ImportStep::Keep((n - 1) as usize));
    }
}

/// Whether a pack can be decoded depends on the blobs of a cache, not on its
/// entries.
proof fn lemma_entered_is_loaded(
    state: CacheState,
    reading: Reading,
    root: Seq<char>,
    digest: Seq<char>,
)
    requires
        kept_pack(state, reading, root, digest) is Ok,
    ensures
        ({
            let after = CacheState { entries: state.entries.insert(digest), ..state };
            &&& entered(state, reading, root, digest) == Ok::<CacheState, CacheFault>(after)
            &&& loaded(after, reading, root, digest) == kept_pack(state, reading, root, digest)
            &&& entered(after, reading, root, digest) == Ok::<CacheState, CacheFault>(after)
        }),
{
    let after = CacheState { entries: state.entries.insert(digest), ..state };
    if state.entries.contains(digest) {
        assert(after.entries =~= state.entries);
        assert(after == state);
    }
}

/// The entry of a downloaded artifact becomes visible only after all of it was
/// found right. Where the manifest or a blob does not have its digest, or the
/// configuration or the contents have a fault, the import is refused with that
/// fault and the entries are what they were. Otherwise the pack has its entry and
/// is loaded, and importing it again changes nothing.
pub proof fn law_an_entry_follows_a_whole_artifact(
    state: CacheState,
    reading: Reading,
    root: Seq<char>,
    import: Import,
)
    requires
        import.blobs.len() <= usize::MAX,
    ensures
        ({
            let (after, fault) = artifact_imported(state, reading, root, import);
            let all = import.blobs.push((import.digest, import.bytes));
            &&& fault is Some ==> after.entries == state.entries
            &&& fault is None ==> after.entries == state.entries.insert(import.digest)
                && artifact_imported(after, reading, root, import) == (after, None::<CacheFault>)
            &&& match bytes_fault(import.digest, import.bytes) {
                Some(found) => fault == Some(found),
                None => match blobs_stored(state, all, all.len() as int) {
                    Err(found) => fault == Some(found),
                    Ok(stored) => match kept_pack(stored, reading, root, import.digest) {
                        Err(found) => fault == Some(found) && after == stored,
                        Ok(pack) => fault is None && loaded(after, reading, root, import.digest)
                            == Ok::<PackView, CacheFault>(pack),
                    },
                },
            }
            &&& forall|i: int|
                0 <= i < import.blobs.len() && bytes_fault(
                    (#[trigger] import.blobs[i]).0,
                    import.blobs[i].1,
                ) is Some ==> fault is Some
        }),
{
    let count = import.blobs.len() as int;
    let steps = artifact_steps(import.blobs.len());
    let all = import.blobs.push((import.digest, import.bytes));
    let (after, fault) = artifact_imported(state, reading, root, import);
    lemma_artifact_run(state, reading, root, import);
    lemma_prefix_stored(state, import.blobs, (import.digest, import.bytes), count);
    if fault is None {
        let stored = blobs_stored(state, all, count + 1)->Ok_0;
        lemma_stored(state, all, count + 1);
        assert forall|i: int| 0 <= i < all.len() implies after.blobs.contains_key(
            (#[trigger] all[i]).0,
        ) && bytes_fault(all[i].0, all[i].1) is None && bytes_fault(
            all[i].0,
            after.blobs[all[i].0],
        ) is None by {}
        lemma_stored_again(after, all, count + 1);
        lemma_artifact_run(after, reading, root, import);
        assert(after.entries.insert(import.digest) =~= after.entries);
        assert forall|i: int| 0 <= i < import.blobs.len() implies bytes_fault(
            (#[trigger] import.blobs[i]).0,
            import.blobs[i].1,
        ) is None by {
            assert(all[i] == import.blobs[i]);
        }
    }
}

/// What the steps that import a downloaded artifact come to.
proof fn lemma_artifact_run(
    state: CacheState,
    reading: Reading,
    root: Seq<char>,
    import: Import,
)
    requires
        import.blobs.len() <= usize::MAX,
    ensures
        ({
            let (after, fault) = artifact_imported(state, reading, root, import);
            let all = import.blobs.push((import.digest, import.bytes));
            &&& fault is Some ==> after.entries == state.entries
            &&& match bytes_fault(import.digest, import.bytes) {
                Some(found) => fault == Some(found),
                None => match blobs_stored(state, all, all.len() as int) {
                    Err(found) => fault == Some(found),
                    Ok(stored) => match kept_pack(stored, reading, root, import.digest) {
                        Err(found) => fault == Some(found) && after == stored,
                        Ok(pack) => fault is None && after == (CacheState {
                            entries: stored.entries.insert(import.digest),
                            ..stored
                        }) && stored.entries == state.entries && loaded(
                            after,
                            reading,
                            root,
                            import.digest,
                        ) == Ok::<PackView, CacheFault>(pack),
                    },
                },
            }
        }),
{
    let count = import.blobs.len() as int;
    let steps = artifact_steps(import.blobs.len());
    let all = import.blobs.push((import.digest, import.bytes));
    let total = count + 5;
    assert(steps.len() == total);
    assert(steps[0] == ImportStep::Check);
    assert forall|k: int| 0 <= k < count implies #[trigger] steps[1 + k] == ImportStep::Keep(
        k as usize,
    ) by {}
    assert(steps[count + 1] == ImportStep::KeepManifest);
    assert(steps[count + 2] == ImportStep::Decode);
    assert(steps[count + 3] == ImportStep::Enter);
    assert(steps[count + 4] == ImportStep::Load);
    assert forall|k: int| 0 <= k < count + 3 implies #[trigger] steps[k] != ImportStep::Enter by {
        if 1 <= k < count + 1 {
            assert(steps[1 + (k - 1)] == ImportStep::Keep((k - 1) as usize));
        }
    }
    lemma_entries(state, reading, root, import, steps, count + 3);
    assert(after_steps(state, reading, root, import, steps, 0) == (state, None::<CacheFault>));
    let checked = after_steps(state, reading, root, import, steps, 1);
    if bytes_fault(import.digest, import.bytes) is Some {
        lemma_failed(state, reading, root, import, steps, 1, count + 3);
        lemma_failed(state, reading, root, import, steps, 1, total);
    } else {
        lemma_keeps(state, reading, root, import, steps, 1, count);
        lemma_prefix_stored(state, import.blobs, (import.digest, import.bytes), count);
        assert(all[count] == (import.digest, import.bytes));
        if blobs_stored(state, all, count) is Err {
            lemma_failed(state, reading, root, import, steps, count + 1, count + 3);
            lemma_failed(state, reading, root, import, steps, count + 1, total);
        } else if blobs_stored(state, all, count + 1) is Err {
            lemma_failed(state, reading, root, import, steps, count + 2, count + 3);
            lemma_failed(state, reading, root, import, steps, count + 2, total);
        } else {
            let stored = blobs_stored(state, all, count + 1)->Ok_0;
            lemma_stored(state, all, count + 1);
            assert(after_steps(state, reading, root, import, steps, count + 2) == (
                stored,
                None::<CacheFault>,
            ));
            if kept_pack(stored, reading, root, import.digest) is Err {
                lemma_failed(state, reading, root, import, steps, count + 3, total);
            } else {
                lemma_entered_is_loaded(stored, reading, root, import.digest);
                assert(after_steps(state, reading, root, import, steps, count + 3) == (
                    stored,
                    None::<CacheFault>,
                ));
                let after = CacheState {
                    entries: stored.entries.insert(import.digest),
                    ..stored
                };
                assert(after_steps(state, reading, root, import, steps, count + 4) == (
                    after,
                    None::<CacheFault>,
                ));
            }
        }
    }
}

/// Nothing is wrong with any of the layers behind a place where nothing is wrong
/// with all of them.
proof fn lemma_layers(
    contents: Seq<ContentView>,
    layers: Seq<DescriptorView>,
    blobs: Seq<BlobView>,
    i: int,
    k: int,
)
    requires
        0 <= i <= k < contents.len(),
        contents.len() == layers.len(),
        layers_fault(contents, layers, blobs, i) is None,
    ensures
        descriptor_fault(layers[k], blobs) is None,
    decreases k - i,
{
    if i < k {
        lemma_layers(contents, layers, blobs, i + 1, k);
    }
}

/// A blob that a descriptor names, and with which nothing is wrong, is there and
/// has its digest.
proof fn lemma_named_blob(
    descriptor: DescriptorView,
    blobs: Map<Seq<char>, Seq<u8>>,
    reading: Reading,
    root: Seq<char>,
    digests: Seq<Seq<char>>,
)
    requires
        digests.contains(descriptor.digest),
        descriptor_fault(descriptor, read_back(blobs, reading, root, digests)) is None,
    ensures
        blobs.contains_key(descriptor.digest),
        bytes_fault(descriptor.digest, blobs[descriptor.digest]) is None,
{
    let k = choose|k: int| 0 <= k < digests.len() && digests[k] == descriptor.digest;
    lemma_read_back(blobs, reading, root, digests, descriptor.digest, 0);
}

/// All that the artifact of a decoded pack names is there, and has its digest.
proof fn lemma_named_blobs(
    blobs: Map<Seq<char>, Seq<u8>>,
    reading: Reading,
    root: Seq<char>,
    digest: Seq<char>,
    bytes: Seq<u8>,
    name: Seq<char>,
)
    requires
        pack_in(blobs, reading, root, digest, bytes) is Ok,
        named_digests((reading.artifact)(bytes)->Ok_0).contains(name),
    ensures
        blobs.contains_key(name),
        bytes_fault(name, blobs[name]) is None,
{
    let artifact = (reading.artifact)(bytes)->Ok_0;
    let names = named_digests(artifact);
    let read = read_back(blobs, reading, root, names);
    let k = choose|k: int| 0 <= k < names.len() && names[k] == name;
    if k == 0 {
        assert(names.contains(artifact.config.digest));
        lemma_named_blob(artifact.config, blobs, reading, root, names);
    } else {
        let config = decode_utf8(bytes_of(read, artifact.config.digest)->Ok_0);
        let pack = (reading.pack)(config)->Ok_0.0;
        lemma_layers(pack.contents, artifact.layers, read, 0, k - 1);
        assert(names[k] == artifact.layers[k - 1].digest);
        assert(names.contains(artifact.layers[k - 1].digest));
        lemma_named_blob(artifact.layers[k - 1], blobs, reading, root, names);
    }
}

/// A pack, with its blobs where a directory keeps them.
pub open spec fn rooted(pack: PackView, root: Seq<char>) -> PackView {
    PackView {
        contents: Seq::new(
            pack.contents.len(),
            |i: int|
                CachedContentView {
                    blob_path: path_of_blob(root, pack.contents[i].digest),
                    ..pack.contents[i]
                },
        ),
        ..pack
    }
}

/// Where the same blobs are there, the same pack is.
proof fn lemma_same_pack(
    blobs: Map<Seq<char>, Seq<u8>>,
    others: Map<Seq<char>, Seq<u8>>,
    reading: Reading,
    root: Seq<char>,
    other_root: Seq<char>,
    digest: Seq<char>,
    bytes: Seq<u8>,
)
    requires
        pack_in(blobs, reading, root, digest, bytes) is Ok,
        forall|name: Seq<char>| #[trigger]
            named_digests((reading.artifact)(bytes)->Ok_0).contains(name)
                ==> others.contains_key(name) && others[name] == blobs[name],
    ensures
        pack_in(others, reading, other_root, digest, bytes) == Ok::<PackView, CacheFault>(
            rooted(pack_in(blobs, reading, root, digest, bytes)->Ok_0, other_root),
        ),
{
    let artifact = (reading.artifact)(bytes)->Ok_0;
    let names = named_digests(artifact);
    let read = read_back(blobs, reading, root, names);
    assert forall|i: int| 0 <= i < names.len() implies read_blob(
        blobs,
        reading,
        root,
        #[trigger] names[i],
    ) == read_blob(others, reading, other_root, names[i]) by {
        assert(names.contains(names[i]));
        lemma_named_blobs(blobs, reading, root, digest, bytes, names[i]);
    }
    assert(read =~= read_back(others, reading, other_root, names));
    let config = decode_utf8(bytes_of(read, artifact.config.digest)->Ok_0);
    let pack = (reading.pack)(config)->Ok_0.0;
    assert(decoded_pack(artifact, digest, pack, other_root).contents =~= rooted(
        decoded_pack(artifact, digest, pack, root),
        other_root,
    ).contents);
}

/// What the steps that import a layout come to, where the cache holds no other
/// bytes under the digests of its blobs.
proof fn lemma_layout_run(
    state: CacheState,
    reading: Reading,
    root: Seq<char>,
    layout: LayoutState,
    layout_root: Seq<char>,
    import: Import,
)
    requires
        import.blobs.len() <= usize::MAX,
        layout_pack(layout, reading, layout_root) is Ok,
        takes_layout(import, layout, reading),
        has_no_others(state, import.blobs),
    ensures
        ({
            let stored = blobs_stored(state, import.blobs, import.blobs.len() as int);
            let pack = layout_pack(layout, reading, layout_root)->Ok_0;
            &&& stored matches Ok(stored)
            &&& stored.entries == state.entries
            &&& has_no_others(stored, import.blobs)
            &&& forall|i: int|
                0 <= i < import.blobs.len() ==> stored.blobs.contains_key(
                    (#[trigger] import.blobs[i]).0,
                ) && bytes_fault(import.blobs[i].0, import.blobs[i].1) is None && bytes_fault(
                    import.blobs[i].0,
                    stored.blobs[import.blobs[i].0],
                ) is None
            &&& ({
                let after = CacheState {
                    entries: stored.entries.insert(import.digest),
                    ..stored
                };
                &&& layout_imported(state, reading, root, layout, layout_root, import) == (
                    after,
                    None::<CacheFault>,
                )
                &&& loaded(after, reading, root, import.digest) == Ok::<PackView, CacheFault>(
                    rooted(pack, root),
                )
            })
        }),
{
    let count = import.blobs.len() as int;
    let steps = layout_steps(import.blobs.len());
    let descriptor = layout.index.manifests[0];
    let digest = descriptor.digest;
    let artifact = (reading.artifact)(import.bytes)->Ok_0;
    let names = named_digests(artifact).push(digest);
    assert(seq![digest].contains(digest)) by {
        assert(seq![digest][0] == digest);
    }
    lemma_named_blob(descriptor, layout.blobs, reading, layout_root, seq![digest]);
    assert forall|name: Seq<char>| #[trigger] names.contains(name) implies layout.blobs.contains_key(
        name,
    ) && bytes_fault(name, layout.blobs[name]) is None by {
        let k = choose|k: int| 0 <= k < names.len() && names[k] == name;
        if k < named_digests(artifact).len() {
            assert(named_digests(artifact)[k] == name);
            assert(named_digests(artifact).contains(name));
            lemma_named_blobs(layout.blobs, reading, layout_root, digest, import.bytes, name);
        }
    }
    assert forall|i: int| 0 <= i < import.blobs.len() implies bytes_fault(
        (#[trigger] import.blobs[i]).0,
        import.blobs[i].1,
    ) is None by {
        assert(names.contains(import.blobs[i].0));
    }
    lemma_all_stored(state, import.blobs, count);
    lemma_stored(state, import.blobs, count);
    lemma_kept_as_they_are(state, import.blobs, count);
    let stored = blobs_stored(state, import.blobs, count)->Ok_0;
    assert forall|name: Seq<char>| #[trigger] names.contains(name) implies stored.blobs.contains_key(
        name,
    ) && stored.blobs[name] == layout.blobs[name] by {
        assert(has_blob(import.blobs, name));
        let i = choose|i: int|
            0 <= i < import.blobs.len() && (#[trigger] import.blobs[i]).0 == name;
        assert(stored.blobs.contains_key(import.blobs[i].0));
    }
    assert forall|name: Seq<char>| #[trigger]
        named_digests(artifact).contains(name) implies stored.blobs.contains_key(name)
        && stored.blobs[name] == layout.blobs[name] by {
        let k = choose|k: int|
            0 <= k < named_digests(artifact).len() && named_digests(artifact)[k] == name;
        assert(names[k] == name);
        assert(names.contains(name));
    }
    assert(names[names.len() - 1] == digest);
    assert(names.contains(digest));
    lemma_same_pack(
        layout.blobs,
        stored.blobs,
        reading,
        layout_root,
        root,
        digest,
        import.bytes,
    );
    lemma_entered_is_loaded(stored, reading, root, digest);
    let after = CacheState { entries: stored.entries.insert(digest), ..stored };
    assert(steps.len() == count + 2);
    assert forall|k: int| 0 <= k < count implies #[trigger] steps[0 + k] == ImportStep::Keep(
        k as usize,
    ) by {}
    assert(steps[count] == ImportStep::Enter);
    assert(steps[count + 1] == ImportStep::Load);
    lemma_keeps(state, reading, root, import, steps, 0, count);
    assert(after_steps(state, reading, root, import, steps, count + 1) == (
        after,
        None::<CacheFault>,
    ));
}

/// Importing a layout, from its marker and index to its entry. One with a fault in
/// its marker, its index, its artifact, its configuration or its contents is
/// refused with the first of them, and the cache is left as it is. Where a blob
/// cannot be kept, the entries are what they were. Otherwise, where the cache holds
/// no other bytes under the digests of its blobs, the pack the layout holds has
/// its entry and is loaded, nothing that was kept changes, and importing the
/// layout again changes nothing.
pub proof fn law_an_imported_layout_is_loaded(
    state: CacheState,
    reading: Reading,
    root: Seq<char>,
    layout: LayoutState,
    layout_root: Seq<char>,
    import: Import,
)
    requires
        import.blobs.len() <= usize::MAX,
        layout_pack(layout, reading, layout_root) is Ok ==> takes_layout(import, layout, reading),
    ensures
        ({
            let (after, fault) = layout_imported(
                state,
                reading,
                root,
                layout,
                layout_root,
                import,
            );
            match layout_pack(layout, reading, layout_root) {
                Err(found) => fault == Some(found) && after == state,
                Ok(pack) => {
                    &&& blobs_stored(state, import.blobs, import.blobs.len() as int) matches Err(
                        found,
                    ) ==> fault == Some(found) && after.entries == state.entries
                    &&& has_no_others(state, import.blobs) ==> {
                        &&& fault is None
                        &&& after.entries == state.entries.insert(pack.manifest_digest)
                        &&& forall|kept: Seq<char>| #[trigger]
                            state.blobs.contains_key(kept) ==> after.blobs.contains_key(kept)
                                && after.blobs[kept] == state.blobs[kept]
                        &&& loaded(after, reading, root, pack.manifest_digest) == Ok::<
                            PackView,
                            CacheFault,
                        >(rooted(pack, root))
                        &&& layout_imported(after, reading, root, layout, layout_root, import)
                            == (after, None::<CacheFault>)
                    }
                },
            }
        }),
{
    let count = import.blobs.len() as int;
    if layout_pack(layout, reading, layout_root) is Ok {
        let steps = layout_steps(import.blobs.len());
        assert forall|k: int| 0 <= k < count implies #[trigger] steps[0 + k] == ImportStep::Keep(
            k as usize,
        ) by {}
        assert forall|k: int| 0 <= k < count implies #[trigger] steps[k] != ImportStep::Enter by {
            assert(steps[0 + k] == ImportStep::Keep(k as usize));
        }
        lemma_keeps(state, reading, root, import, steps, 0, count);
        lemma_entries(state, reading, root, import, steps, count);
        if blobs_stored(state, import.blobs, count) is Err {
            lemma_failed(state, reading, root, import, steps, count, steps.len() as int);
        }
        if has_no_others(state, import.blobs) {
            lemma_layout_run(state, reading, root, layout, layout_root, import);
            lemma_stored(state, import.blobs, count);
            let stored = blobs_stored(state, import.blobs, count)->Ok_0;
            let after = CacheState {
                entries: stored.entries.insert(import.digest),
                ..stored
            };
            assert(has_no_others(after, import.blobs));
            lemma_stored_again(after, import.blobs, count);
            lemma_layout_run(after, reading, root, layout, layout_root, import);
            assert(after.entries.insert(import.digest) =~= after.entries);
        }
    }
}

/// Whether a layout is the one that was written for a pack: its marker and index,
/// and each blob under its digest.
pub open spec fn is_built_layout(
    layout: LayoutState,
    manifest: ManifestView,
    config: Seq<u8>,
    contents: Seq<Seq<u8>>,
    artifact: Seq<u8>,
) -> bool {
    &&& layout.version == "1.0.0"@
    &&& layout.index == index_of(manifest, artifact)
    &&& gives(layout.blobs, artifact)
    &&& gives(layout.blobs, config)
    &&& forall|i: int| 0 <= i < contents.len() ==> gives(layout.blobs, #[trigger] contents[i])
}

/// Whether bytes are given for their digest. They can be measured, and their
/// digest has the length of one.
pub open spec fn gives(blobs: Map<Seq<char>, Seq<u8>>, bytes: Seq<u8>) -> bool {
    &&& blobs.contains_key(digest_of(bytes))
    &&& blobs[digest_of(bytes)] == bytes
    &&& bytes.len() <= usize::MAX
    &&& sha256_of(bytes).len() == 32
}

/// The blobs of the layout in a directory, by their digests.
pub open spec fn blobs_in(directory: Map<Seq<char>, Seq<u8>>) -> Map<Seq<char>, Seq<u8>> {
    Map::new(
        |digest: Seq<char>| directory.contains_key("blobs/sha256/"@ + hex_part(digest)),
        |digest: Seq<char>| directory["blobs/sha256/"@ + hex_part(digest)],
    )
}

/// A file that was written is there, where no other was written in its place.
proof fn lemma_written(files: Seq<(Seq<char>, Seq<u8>)>, n: int, i: int)
    requires
        0 <= i < n <= files.len(),
        forall|k: int|
            0 <= k < files.len() && (#[trigger] files[k]).0 == files[i].0 ==> files[k].1
                == files[i].1,
    ensures
        written(Map::empty(), files.take(n)).contains_key(files[i].0),
        written(Map::empty(), files.take(n))[files[i].0] == files[i].1,
    decreases n,
{
    assert(files.take(n).drop_last() =~= files.take(n - 1));
    assert(files.take(n).last() == files[n - 1]);
    if i < n - 1 {
        lemma_written(files, n - 1, i);
    }
}

/// Digests that are kept in one place are the same.
proof fn lemma_one_place(left: Seq<u8>, right: Seq<u8>)
    requires
        layout_blob_path(left) == layout_blob_path(right),
    ensures
        digest_of(left) == digest_of(right),
{
    let start = "blobs/sha256/"@;
    let (a, b) = (hex_part(digest_of(left)), hex_part(digest_of(right)));
    assert(layout_blob_path(left).skip(start.len() as int) =~= a);
    assert(layout_blob_path(right).skip(start.len() as int) =~= b);
    assert("sha256:"@ + a =~= digest_of(left));
    assert("sha256:"@ + b =~= digest_of(right));
}

/// Blobs are kept elsewhere than the marker and the index of a layout.
proof fn lemma_other_place(bytes: Seq<u8>)
    ensures
        layout_blob_path(bytes) != "oci-layout"@,
        layout_blob_path(bytes) != "index.json"@,
        "oci-layout"@ != "index.json"@,
{
    reveal_strlit("blobs/sha256/");
    reveal_strlit("oci-layout");
    reveal_strlit("index.json");
    assert(layout_blob_path(bytes)[0] == 'b');
    assert("oci-layout"@[0] == 'o');
    assert("index.json"@[0] == 'i');
}

/// What a build writes is what a layout is read from: its marker, its index and
/// each blob under its digest, where no two blobs share a digest that are not the
/// same.
pub proof fn law_a_written_layout_is_read(
    blobs: Seq<Seq<u8>>,
    marker: Seq<u8>,
    index: Seq<u8>,
    i: int,
)
    requires
        0 <= i < blobs.len(),
        forall|j: int, k: int|
            0 <= j < blobs.len() && 0 <= k < blobs.len() && digest_of(#[trigger] blobs[j])
                == digest_of(#[trigger] blobs[k]) ==> blobs[j] == blobs[k],
    ensures
        ({
            let directory = written(Map::empty(), layout_files_of(blobs, marker, index));
            &&& directory.contains_key("oci-layout"@) && directory["oci-layout"@] == marker
            &&& directory.contains_key("index.json"@) && directory["index.json"@] == index
            &&& blobs_in(directory).contains_key(digest_of(blobs[i]))
            &&& blobs_in(directory)[digest_of(blobs[i])] == blobs[i]
        }),
{
    let files = layout_files_of(blobs, marker, index);
    let n = blobs.len() as int;
    assert(files[n] == ("oci-layout"@, marker));
    assert(files[n + 1] == ("index.json"@, index));
    assert forall|k: int| 0 <= k < n implies #[trigger] files[k] == (
        layout_blob_path(blobs[k]),
        blobs[k],
    ) by {}
    assert forall|j: int, k: int|
        0 <= j < files.len() && 0 <= k < files.len() && (#[trigger] files[j]).0 == (
        #[trigger] files[k]).0 implies files[j].1 == files[k].1 by {
        if j < n {
            lemma_other_place(blobs[j]);
        }
        if k < n {
            lemma_other_place(blobs[k]);
        }
        if j < n && k < n {
            lemma_one_place(blobs[j], blobs[k]);
        }
        lemma_other_place(Seq::empty());
    }
    assert(files.take(n + 2) =~= files);
    lemma_written(files, n + 2, n);
    lemma_written(files, n + 2, n + 1);
    lemma_written(files, n + 2, i);
}

/// The layout in a directory, as its marker and index are read.
pub open spec fn layout_in(
    directory: Map<Seq<char>, Seq<u8>>,
    version: Seq<char>,
    index: IndexView,
) -> LayoutState {
    LayoutState { version, index, blobs: blobs_in(directory) }
}

/// What a build writes is the layout of the pack: with its contents, its
/// configuration and its artifact manifest, where no two of them share a digest that
/// are not the same.
pub proof fn law_a_build_writes_a_layout(
    manifest: ManifestView,
    config: Seq<u8>,
    contents: Seq<Seq<u8>>,
    artifact: Seq<u8>,
    marker: Seq<u8>,
    index: Seq<u8>,
)
    requires
        ({
            let blobs = contents.push(config).push(artifact);
            &&& forall|j: int, k: int|
                0 <= j < blobs.len() && 0 <= k < blobs.len() && digest_of(#[trigger] blobs[j])
                    == digest_of(#[trigger] blobs[k]) ==> blobs[j] == blobs[k]
            &&& forall|j: int|
                0 <= j < blobs.len() ==> sha256_of(#[trigger] blobs[j]).len() == 32
                    && blobs[j].len() <= usize::MAX
        }),
    ensures
        ({
            let blobs = contents.push(config).push(artifact);
            let directory = written(Map::empty(), layout_files_of(blobs, marker, index));
            is_built_layout(
                layout_in(directory, "1.0.0"@, index_of(manifest, artifact)),
                manifest,
                config,
                contents,
                artifact,
            )
        }),
{
    let blobs = contents.push(config).push(artifact);
    let n = contents.len() as int;
    let directory = written(Map::empty(), layout_files_of(blobs, marker, index));
    assert(blobs[n] == config);
    assert(blobs[n + 1] == artifact);
    law_a_written_layout_is_read(blobs, marker, index, n);
    law_a_written_layout_is_read(blobs, marker, index, n + 1);
    assert forall|i: int| 0 <= i < contents.len() implies gives(
        blobs_in(directory),
        #[trigger] contents[i],
    ) by {
        assert(blobs[i] == contents[i]);
        law_a_written_layout_is_read(blobs, marker, index, i);
    }
}

/// What was built is imported. A layout that was written for a pack, and whose
/// artifact and configuration are read as they were written, has the pack: its
/// manifest is the one it was built from, and its digest that of the artifact. Where
/// the cache holds no other bytes under the digests of its blobs, importing it
/// gives the pack its entry, the pack is then loaded, and importing it again
/// changes nothing.
pub proof fn law_what_was_built_is_imported(
    state: CacheState,
    reading: Reading,
    root: Seq<char>,
    layout: LayoutState,
    layout_root: Seq<char>,
    import: Import,
    manifest: ManifestView,
    config: Seq<char>,
    contents: Seq<Seq<u8>>,
    artifact_bytes: Seq<u8>,
)
    requires
        import.blobs.len() <= usize::MAX,
        contents.len() == manifest.contents.len(),
        first_altered(manifest.contents, contents, 0) is None,
        is_built_layout(layout, manifest, encode_utf8(config), contents, artifact_bytes),
        (reading.artifact)(artifact_bytes) == Ok::<ArtifactView, Seq<char>>(
            artifact_of(manifest, encode_utf8(config), contents),
        ),
        (reading.pack)(config) == Ok::<(ManifestView, Seq<char>), CacheFault>((manifest, config)),
        takes_layout(import, layout, reading),
        has_no_others(state, import.blobs),
    ensures
        ({
            let digest = digest_of(artifact_bytes);
            let artifact = artifact_of(manifest, encode_utf8(config), contents);
            let pack = decoded_pack(artifact, digest, manifest, root);
            let (after, fault) = layout_imported(
                state,
                reading,
                root,
                layout,
                layout_root,
                import,
            );
            &&& fault is None
            &&& pack.manifest == manifest
            &&& pack.manifest_digest == digest
            &&& loaded(after, reading, root, digest) == Ok::<PackView, CacheFault>(pack)
            &&& after.entries == state.entries.insert(digest)
            &&& layout_imported(after, reading, root, layout, layout_root, import) == (
                after,
                None::<CacheFault>,
            )
        }),
{
    let digest = digest_of(artifact_bytes);
    let artifact = artifact_of(manifest, encode_utf8(config), contents);
    let names = named_digests(artifact);
    let read = read_back(layout.blobs, reading, layout_root, names);
    law_a_built_index_is_accepted(manifest, artifact_bytes);
    law_digests_are_well_written(artifact_bytes);
    assert(seq![digest][0] == digest);
    lemma_read_back(layout.blobs, reading, layout_root, seq![digest], digest, 0);
    assert(names[0] == digest_of(encode_utf8(config)));
    lemma_read_back(layout.blobs, reading, layout_root, names, names[0], 0);
    assert forall|i: int| 0 <= i < contents.len() implies sha256_of(#[trigger] contents[i]).len()
        == 32 && contents[i].len() <= usize::MAX && holds_bytes(read, contents[i]) by {
        assert(gives(layout.blobs, contents[i]));
        assert(artifact.layers[i].digest == digest_of(contents[i]));
        assert(names[i + 1] == digest_of(contents[i]));
        lemma_read_back(layout.blobs, reading, layout_root, names, names[i + 1], 0);
    }
    assert(all_kept(contents, read));
    law_a_built_pack_is_read_back(manifest, config, contents, digest, layout_root, read);
    let pack = decoded_pack(artifact, digest, manifest, layout_root);
    assert(layout_pack(layout, reading, layout_root) == Ok::<PackView, CacheFault>(pack));
    law_an_imported_layout_is_loaded(state, reading, root, layout, layout_root, import);
    assert(rooted(pack, root).contents =~= decoded_pack(artifact, digest, manifest, root).contents);
}

/// The name of the entry of a pack.
pub open spec fn entry_name(digest: Seq<char>) -> Seq<char> {
    hex_part(digest) + ".toml"@
}

/// Whether names are those of the entries of a cache, whatever their order.
pub open spec fn names_entries(
    names: Seq<Option<Seq<char>>>,
    entries: Set<Seq<char>>,
) -> bool {
    &&& forall|i: int| 0 <= i < names.len() ==> is_entry_name(#[trigger] names[i], entries)
    &&& forall|digest: Seq<char>| #[trigger]
        entries.contains(digest) ==> names.contains(Some(entry_name(digest)))
}

/// Whether a name is that of one of the entries of a cache.
pub open spec fn is_entry_name(name: Option<Seq<char>>, entries: Set<Seq<char>>) -> bool {
    exists|digest: Seq<char>| #[trigger]
        entries.contains(digest) && name == Some(entry_name(digest))
}

/// The name of an entry is in order, and gives the digest back.
proof fn lemma_entry_named(directory: Seq<char>, digest: Seq<char>)
    requires
        digest_fault(digest) is None,
    ensures
        entry_digest(entry_name(digest)) == digest,
        entry_fault(directory, Some(entry_name(digest))) is None,
{
    let name = entry_name(digest);
    law_an_entry_names_its_pack(digest);
    assert(name.skip(name.len() - ".toml"@.len()) =~= ".toml"@);
}

/// Nothing is wrong with names with each of which nothing is wrong.
proof fn lemma_names_fine(directory: Seq<char>, names: Seq<Option<Seq<char>>>, i: int)
    requires
        0 <= i <= names.len(),
        forall|k: int|
            0 <= k < names.len() ==> entry_fault(directory, #[trigger] names[k]) is None,
    ensures
        entries_fault(directory, names, i) is None,
    decreases names.len() - i,
{
    if i < names.len() {
        lemma_names_fine(directory, names, i + 1);
    }
}

/// Listing a cache gives each pack that has an entry, and each once.
#[verifier::rlimit(30)]
#[verifier::spinoff_prover]
pub proof fn law_each_entry_is_listed_once(
    directory: Seq<char>,
    names: Seq<Option<Seq<char>>>,
    entries: Set<Seq<char>>,
)
    requires
        names_entries(names, entries),
        forall|digest: Seq<char>| #[trigger] entries.contains(digest) ==> digest_fault(digest) is None,
    ensures
        entries_fault(directory, names, 0) is None,
        settled_of::<String>(entry_digests(names)).no_duplicates(),
        forall|digest: Seq<char>|
            settled_of::<String>(entry_digests(names)).contains(digest) <==> #[trigger]
            entries.contains(digest),
{
    let digests = entry_digests(names);
    let listed = settled_of::<String>(digests);
    lemma_settles::<String>(digests);
    assert forall|i: int| 0 <= i < names.len() implies entry_fault(
        directory,
        #[trigger] names[i],
    ) is None && entries.contains(digests[i]) by {
        assert(is_entry_name(names[i], entries));
        let digest = choose|digest: Seq<char>| #[trigger]
            entries.contains(digest) && names[i] == Some(entry_name(digest));
        lemma_entry_named(directory, digest);
    }
    lemma_names_fine(directory, names, 0);
    assert forall|digest: Seq<char>| listed.contains(digest) <==> #[trigger] entries.contains(
        digest,
    ) by {
        if entries.contains(digest) {
            lemma_entry_named(directory, digest);
            assert(names.contains(Some(entry_name(digest))));
            let i = choose|i: int| 0 <= i < names.len() && names[i] == Some(entry_name(digest));
            assert(digests[i] == digest);
            assert(digests.contains(digest));
        }
        if listed.contains(digest) {
            assert(digests.contains(digest));
            let i = choose|i: int| 0 <= i < digests.len() && digests[i] == digest;
            assert(entries.contains(digests[i]));
        }
    }
    assert forall|i: int, j: int| 0 <= i < listed.len() && 0 <= j < listed.len() && i
        != j implies listed[i] != listed[j] by {
        if i < j {
            assert(String::order(listed[i], listed[j]) == Comparison::Less);
        } else {
            assert(String::order(listed[j], listed[i]) == Comparison::Less);
        }
        String::order_is_total(listed[i], listed[j], listed[i]);
    }
}

} // verus!
