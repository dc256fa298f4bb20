//! How blobs and layouts are kept: what is written, what is left as it is, and
//! what keeping twice changes.

use super::cache::{bytes_fault, digest_hex, hex_part, verify_digest, CacheError, CacheFault};
use super::layout::byte_lists;
use super::manifest::{digest_of, sha256, ManifestError};
use super::rules::begins_with;
use super::store::entry_digest;
use crate::lists::reversed;
use vstd::prelude::*;
use vstd::string::*;

verus! {

/// What is done to keep a blob.
#[derive(Debug, Clone, Copy, PartialEq, Eq, Structural)]
pub enum StoreStep {
    /// Its bytes are written.
    Write,
    /// It is kept already.
    Keep,
}

/// The bytes that are kept already, or why they cannot be read.
pub open spec fn existing_view(existing: Option<Result<Vec<u8>, CacheError>>) -> Option<
    Result<Seq<u8>, CacheFault>,
> {
    match existing {
        Some(Ok(bytes)) => Some(Ok(bytes@)),
        Some(Err(error)) => Some(Err(error@)),
        None => None,
    }
}

/// What is done to keep bytes under a digest, given what is kept there: both are
/// held to the digest.
pub open spec fn store_result(
    digest: Seq<char>,
    bytes: Seq<u8>,
    existing: Option<Result<Seq<u8>, CacheFault>>,
) -> Result<StoreStep, CacheFault> {
    match (bytes_fault(digest, bytes), existing) {
        (Some(fault), _) => Err(fault),
        (None, None) => Ok(StoreStep::Write),
        (None, Some(Err(fault))) => Err(fault),
        (None, Some(Ok(kept))) => match bytes_fault(digest, kept) {
            Some(fault) => Err(fault),
            None => Ok(StoreStep::Keep),
        },
    }
}

/// Decides how bytes are kept under a digest.
pub fn store_step(
    digest: &str,
    bytes: &Vec<u8>,
    existing: &Option<Result<Vec<u8>, CacheError>>,
) -> (result: Result<StoreStep, CacheError>)
    ensures
        store_result(digest@, bytes@, existing_view(*existing)) == match result {
            Ok(step) => Ok::<StoreStep, CacheFault>(step),
            Err(error) => Err::<StoreStep, CacheFault>(error@),
        },
{
    if let Err(error) = verify_digest(digest, bytes) {
        return Err(error);
    }
    match existing {
        None => Ok(StoreStep::Write),
        Some(Err(error)) => Err(error.clone()),
        Some(Ok(kept)) => match verify_digest(digest, kept) {
            Ok(()) => Ok(StoreStep::Keep),
            Err(error) => Err(error),
        },
    }
}

/// An entry is named after the digest of its pack, so that listing gives the
/// digest back.
pub proof fn law_an_entry_names_its_pack(digest: Seq<char>)
    requires
        begins_with(digest, "sha256:"@),
    ensures
        entry_digest(hex_part(digest) + ".toml"@) == digest,
{
    let name = hex_part(digest) + ".toml"@;
    assert(name.take(name.len() - ".toml"@.len()) =~= hex_part(digest));
    assert("sha256:"@ + hex_part(digest) =~= digest);
}

/// What stands where a layout is to be written.
#[derive(Debug, Clone, Copy, PartialEq, Eq, Structural)]
pub enum OutputState {
    /// Nothing.
    Missing,
    /// An empty directory.
    Empty,
    /// A directory with something in it.
    Occupied,
}

/// Decides whether a layout can be written to a directory, and whether the
/// directory has to be made. One with something in it is refused.
pub fn prepare_output(output: &str, state: OutputState) -> (result: Result<bool, ManifestError>)
    ensures
        match result {
            Ok(create) => state != OutputState::Occupied && create == (state
                == OutputState::Missing),
            Err(error) => state == OutputState::Occupied && (
            error matches ManifestError::OutputNotEmpty { path } && path@ == output@),
        },
{
    match state {
        OutputState::Missing => Ok(true),
        OutputState::Empty => Ok(false),
        OutputState::Occupied => Err(ManifestError::OutputNotEmpty { path: output.to_owned() }),
    }
}

/// A file of a layout.
#[derive(Debug, Clone, PartialEq, Eq)]
pub struct LayoutFile {
    pub path: String,
    pub bytes: Vec<u8>,
}

/// The paths and bytes of files.
pub open spec fn layout_views(files: Seq<LayoutFile>) -> Seq<(Seq<char>, Seq<u8>)> {
    Seq::new(files.len(), |i: int| (files[i].path@, files[i].bytes@))
}

/// Where a layout holds a blob.
pub open spec fn layout_blob_path(bytes: Seq<u8>) -> Seq<char> {
    "blobs/sha256/"@ + hex_part(digest_of(bytes))
}

/// The files that blobs are held in.
pub open spec fn blob_files(blobs: Seq<Seq<u8>>) -> Seq<(Seq<char>, Seq<u8>)> {
    Seq::new(blobs.len(), |i: int| (layout_blob_path(blobs[i]), blobs[i]))
}

/// The files of a layout: its blobs under their digests, its marker and its index.
pub open spec fn layout_files_of(
    blobs: Seq<Seq<u8>>,
    marker: Seq<u8>,
    index: Seq<u8>,
) -> Seq<(Seq<char>, Seq<u8>)> {
    blob_files(blobs) + seq![("oci-layout"@, marker), ("index.json"@, index)]
}

/// The files of a layout.
pub fn layout_files(blobs: Vec<Vec<u8>>, marker: Vec<u8>, index: Vec<u8>) -> (files: Vec<
    LayoutFile,
>)
    ensures
        layout_views(files@) == layout_files_of(byte_lists(blobs@), marker@, index@),
{
    let ghost all = byte_lists(blobs@);
    let mut rest = reversed(blobs);
    let ghost backward = rest@;
    let count: usize = rest.len();
    let mut files: Vec<LayoutFile> = Vec::new();
    let mut i: usize = 0;
    assert(layout_views(files@) =~= blob_files(all).take(0));
    while i < count
        invariant
            i <= count == all.len() == backward.len(),
            rest@ == backward.take(count - i),
            forall|k: int| 0 <= k < count ==> (#[trigger] backward[k])@ == all[count - 1 - k],
            layout_views(files@) == blob_files(all).take(i as int),
        decreases count - i,
    {
        if let Some(bytes) = rest.pop() {
            proof {
                assert(bytes == backward[count - 1 - i]);
                assert(rest@ =~= backward.take(count - i - 1));
                assert("sha256:"@.len() <= digest_of(bytes@).len());
                assert(digest_of(bytes@).take("sha256:"@.len() as int) =~= "sha256:"@);
            }
            let mut path = "blobs/sha256/".to_owned();
            let hex = digest_hex(sha256(&bytes).as_str());
            path.append(hex.as_str());
            let ghost before = files@;
            let ghost one = (path@, bytes@);
            files.push(LayoutFile { path, bytes });
            proof {
                assert(one == blob_files(all)[i as int]);
                assert(layout_views(files@) =~= layout_views(before).push(one));
                assert(blob_files(all).take(i + 1) =~= blob_files(all).take(i as int).push(one));
            }
        }
        i += 1;
    }
    assert(blob_files(all).take(i as int) =~= blob_files(all));
    files.push(LayoutFile { path: "oci-layout".to_owned(), bytes: marker });
    files.push(LayoutFile { path: "index.json".to_owned(), bytes: index });
    assert(layout_views(files@) =~= layout_files_of(all, marker@, index@));
    files
}

/// What a directory holds after files were written to it, one after the other.
pub open spec fn written(
    directory: Map<Seq<char>, Seq<u8>>,
    files: Seq<(Seq<char>, Seq<u8>)>,
) -> Map<Seq<char>, Seq<u8>>
    decreases files.len(),
{
    if files.len() == 0 {
        directory
    } else {
        written(directory, files.drop_last()).insert(files.last().0, files.last().1)
    }
}

/// What stands in a directory that may be missing.
pub open spec fn output_state(directory: Option<Map<Seq<char>, Seq<u8>>>) -> OutputState {
    match directory {
        None => OutputState::Missing,
        Some(files) => if files == Map::<Seq<char>, Seq<u8>>::empty() {
            OutputState::Empty
        } else {
            OutputState::Occupied
        },
    }
}

/// A directory after a layout was built there. One with something in it is left
/// as it is.
pub open spec fn built_in(
    directory: Option<Map<Seq<char>, Seq<u8>>>,
    files: Seq<(Seq<char>, Seq<u8>)>,
) -> Option<Map<Seq<char>, Seq<u8>>> {
    if output_state(directory) == OutputState::Occupied {
        directory
    } else {
        Some(written(Map::empty(), files))
    }
}

/// Building a layout is deterministic, and does not overwrite: two directories
/// that are missing or empty come to hold the same files, and building into one
/// of them again is refused and leaves it as it is.
pub proof fn law_building_is_deterministic(
    first: Option<Map<Seq<char>, Seq<u8>>>,
    second: Option<Map<Seq<char>, Seq<u8>>>,
    blobs: Seq<Seq<u8>>,
    marker: Seq<u8>,
    index: Seq<u8>,
)
    requires
        output_state(first) != OutputState::Occupied,
        output_state(second) != OutputState::Occupied,
    ensures
        ({
            let files = layout_files_of(blobs, marker, index);
            &&& built_in(first, files) == built_in(second, files)
            &&& output_state(built_in(first, files)) == OutputState::Occupied
            &&& built_in(built_in(first, files), files) == built_in(first, files)
        }),
{
    let files = layout_files_of(blobs, marker, index);
    assert(files.last().0 == "index.json"@);
    let made = written(Map::empty(), files);
    assert(made.contains_key("index.json"@));
    assert(made != Map::<Seq<char>, Seq<u8>>::empty());
}

} // verus!
