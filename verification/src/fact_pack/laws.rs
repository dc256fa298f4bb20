//! What holds between building a pack's layout and reading it back.

use super::cache::{
    bytes_of, config_fault, contents_fault, decoded_pack, descriptor_fault, index_fault,
    layers_fault, BlobView, CacheFault,
};
use super::layout::{
    annotation_from, artifact_of, described, first_altered, index_of, layers_of, DescriptorView,
    TITLE_ANNOTATION,
};
use super::manifest::{digest_of, ContentView, ManifestView};
use super::rules::{is_digest, is_hex_digit};
use crate::digest::{hex_digit, hex_of, sha256_of, sha256_text};
use vstd::prelude::*;
use vstd::string::*;
use vstd::utf8::*;

verus! {

/// Whether a store of blobs gives back, for a digest, bytes that have it.
pub open spec fn holds_bytes(blobs: Seq<BlobView>, bytes: Seq<u8>) -> bool {
    bytes_of(blobs, digest_of(bytes)) == Ok::<Seq<u8>, CacheFault>(bytes)
}

/// Bytes in hexadecimal are digits, two for each byte.
proof fn lemma_hex_digits(bytes: Seq<u8>)
    ensures
        hex_of(bytes).len() == 2 * bytes.len(),
        forall|i: int| 0 <= i < hex_of(bytes).len() ==> is_hex_digit(#[trigger] hex_of(bytes)[i]),
    decreases bytes.len(),
{
    if bytes.len() > 0 {
        lemma_hex_digits(bytes.drop_last());
        let last = bytes.last();
        lemma_hex_digit((last / 16) as nat);
        lemma_hex_digit((last % 16) as nat);
    }
}

/// A number below sixteen is written as a hexadecimal digit.
proof fn lemma_hex_digit(number: nat)
    requires
        number < 16,
    ensures
        is_hex_digit(hex_digit(number)),
{
}

/// The digest of bytes is written as a digest, where it is 32 bytes long.
pub proof fn law_digests_are_well_written(bytes: Seq<u8>)
    requires
        sha256_of(bytes).len() == 32,
    ensures
        is_digest(digest_of(bytes)),
{
    let text = digest_of(bytes);
    let start = "sha256:"@;
    lemma_hex_digits(sha256_of(bytes));
    assert(text.take(start.len() as int) =~= start);
    assert(text.skip(start.len() as int) =~= sha256_text(bytes));
}

/// Nothing is wrong with a blob that is kept under its digest.
proof fn lemma_kept_blob(
    media_type: Seq<char>,
    bytes: Seq<u8>,
    annotations: Seq<(Seq<char>, Seq<char>)>,
    blobs: Seq<BlobView>,
)
    requires
        sha256_of(bytes).len() == 32,
        bytes.len() <= usize::MAX,
        holds_bytes(blobs, bytes),
    ensures
        descriptor_fault(described(media_type, bytes, annotations), blobs) is None,
{
    law_digests_are_well_written(bytes);
}

/// Whether the bytes of blobs can be kept and given back.
pub open spec fn all_kept(
    contents: Seq<Seq<u8>>,
    blobs: Seq<BlobView>,
) -> bool {
    forall|i: int|
        0 <= i < contents.len() ==> sha256_of(#[trigger] contents[i]).len() == 32
            && contents[i].len() <= usize::MAX && holds_bytes(blobs, contents[i])
}

/// In a list that was not altered, every blob has the digest it is declared with.
proof fn lemma_unaltered(contents: Seq<ContentView>, blobs: Seq<Seq<u8>>, i: int, k: int)
    requires
        0 <= i <= k < contents.len(),
        contents.len() == blobs.len(),
        first_altered(contents, blobs, i) is None,
    ensures
        digest_of(blobs[k]) == contents[k].sha256,
    decreases contents.len() - i,
{
    if i < k {
        lemma_unaltered(contents, blobs, i + 1, k);
    }
}

/// Nothing is wrong with the layers that a pack is distributed in.
proof fn lemma_layers_fine(
    contents: Seq<ContentView>,
    bytes: Seq<Seq<u8>>,
    blobs: Seq<BlobView>,
    i: int,
)
    requires
        0 <= i <= contents.len(),
        contents.len() == bytes.len(),
        first_altered(contents, bytes, 0) is None,
        all_kept(bytes, blobs),
    ensures
        layers_fault(contents, layers_of(contents, bytes), blobs, i) is None,
    decreases contents.len() - i,
{
    if i < contents.len() {
        lemma_layers_fine(contents, bytes, blobs, i + 1);
        lemma_unaltered(contents, bytes, 0, i);
        let notes = seq![(TITLE_ANNOTATION@, contents[i].path)];
        let layer = layers_of(contents, bytes)[i];
        assert(layer == described(contents[i].media_type, bytes[i], notes));
        assert(annotation_from(notes, TITLE_ANNOTATION@, 0) == Some(contents[i].path)) by {
            assert(notes[0] == (TITLE_ANNOTATION@, contents[i].path));
        }
        lemma_kept_blob(contents[i].media_type, bytes[i], notes, blobs);
    }
}

/// A pack that was built, and whose configuration and blobs are kept, is read
/// back: with the manifest it was built from, its blobs under the digests they
/// were declared with.
pub proof fn law_a_built_pack_is_read_back(
    manifest: ManifestView,
    config: Seq<char>,
    bytes: Seq<Seq<u8>>,
    artifact_digest: Seq<char>,
    blob_root: Seq<char>,
    blobs: Seq<BlobView>,
)
    requires
        bytes.len() == manifest.contents.len(),
        first_altered(manifest.contents, bytes, 0) is None,
        all_kept(bytes, blobs),
        sha256_of(encode_utf8(config)).len() == 32,
        encode_utf8(config).len() <= usize::MAX,
        holds_bytes(blobs, encode_utf8(config)),
    ensures
        ({
            let artifact = artifact_of(manifest, encode_utf8(config), bytes);
            let pack = decoded_pack(artifact, artifact_digest, manifest, blob_root);
            &&& config_fault(artifact, blobs) is None
            &&& contents_fault(artifact, config, manifest, config, blobs) is None
            &&& bytes_of(blobs, artifact.config.digest) == Ok::<Seq<u8>, CacheFault>(
                encode_utf8(config),
            )
            &&& decode_utf8(encode_utf8(config)) == config
            &&& pack.manifest == manifest
            &&& forall|i: int|
                0 <= i < pack.contents.len() ==> (#[trigger] pack.contents[i]).digest
                    == manifest.contents[i].sha256 && pack.contents[i].path
                    == manifest.contents[i].path && pack.contents[i].size == bytes[i].len()
        }),
{
    let artifact = artifact_of(manifest, encode_utf8(config), bytes);
    let pack = decoded_pack(artifact, artifact_digest, manifest, blob_root);
    lemma_kept_blob(artifact.config.media_type, encode_utf8(config), Seq::empty(), blobs);
    encode_utf8_valid_utf8(config);
    encode_utf8_decode_utf8(config);
    lemma_layers_fine(manifest.contents, bytes, blobs, 0);
    assert forall|i: int| 0 <= i < pack.contents.len() implies (#[trigger] pack.contents[i]).digest
        == manifest.contents[i].sha256 && pack.contents[i].path == manifest.contents[i].path
        && pack.contents[i].size == bytes[i].len() by {
        lemma_unaltered(manifest.contents, bytes, 0, i);
        assert(artifact.layers[i] == layers_of(manifest.contents, bytes)[i]);
    }
}

/// The index of a layout that was built is accepted, and names the artifact.
pub proof fn law_a_built_index_is_accepted(manifest: ManifestView, artifact: Seq<u8>)
    ensures
        index_fault("1.0.0"@, index_of(manifest, artifact)) is None,
        index_of(manifest, artifact).manifests[0].digest == digest_of(artifact),
{
}

/// A pack is not read back where a blob has been altered: bytes kept under a
/// digest that is not theirs are refused.
pub proof fn law_altered_blobs_are_refused(
    descriptor: DescriptorView,
    bytes: Seq<u8>,
    blobs: Seq<BlobView>,
)
    requires
        bytes_of(blobs, descriptor.digest) == Ok::<Seq<u8>, CacheFault>(bytes),
        digest_of(bytes) != descriptor.digest,
    ensures
        descriptor_fault(descriptor, blobs) is Some,
{
}

} // verus!
