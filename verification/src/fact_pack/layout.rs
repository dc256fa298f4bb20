//! The image layout that a fact pack is distributed in.

use super::manifest::{
    digest_of, is_valid, joined_messages, manifest_faults, sha256, Content, ContentView,
    FactPackManifest, ManifestError, ManifestView, FACT_PACK_ARTIFACT_MEDIA_TYPE,
    FACT_PACK_CONFIG_MEDIA_TYPE,
};
use crate::digest::text_bytes;
use crate::text::{append_decimal, decimal, same_text};
use vstd::prelude::*;
use vstd::string::*;
use vstd::utf8::*;

verus! {

pub const OCI_IMAGE_MANIFEST_MEDIA_TYPE: &'static str =
    "application/vnd.oci.image.manifest.v1+json";

pub const OCI_IMAGE_INDEX_MEDIA_TYPE: &'static str = "application/vnd.oci.image.index.v1+json";

/// The annotation that names the file a layer is.
pub const TITLE_ANNOTATION: &'static str = "org.opencontainers.image.title";

/// The annotation that names the revision an artifact is.
pub const REFERENCE_ANNOTATION: &'static str = "org.opencontainers.image.ref.name";

/// A note on a blob.
#[derive(Debug, Clone, PartialEq, Eq)]
pub struct Annotation {
    pub key: String,
    pub value: String,
}

/// What is said of a blob: its type, its digest and its size.
#[derive(Debug)]
pub struct OciDescriptor {
    pub media_type: String,
    pub digest: String,
    pub size: usize,
    pub annotations: Vec<Annotation>,
}

/// The manifest of an artifact: its configuration and its layers.
#[derive(Debug)]
pub struct OciManifest {
    pub schema_version: u32,
    pub media_type: String,
    pub artifact_type: String,
    pub config: OciDescriptor,
    pub layers: Vec<OciDescriptor>,
}

/// The artifacts of a layout.
#[derive(Debug)]
pub struct OciIndex {
    pub schema_version: u32,
    pub media_type: String,
    pub manifests: Vec<OciDescriptor>,
}

/// The marker of a layout.
#[derive(Debug)]
pub struct OciLayout {
    pub image_layout_version: String,
}

/// What a layout that was built is known by.
#[derive(Debug)]
pub struct BuiltLayout {
    pub manifest_digest: String,
    pub config_digest: String,
}

/// The content of an [`OciDescriptor`].
pub struct DescriptorView {
    pub media_type: Seq<char>,
    pub digest: Seq<char>,
    pub size: usize,
    pub annotations: Seq<(Seq<char>, Seq<char>)>,
}

/// The contents of annotations.
pub open spec fn annotation_views(annotations: Seq<Annotation>) -> Seq<(Seq<char>, Seq<char>)> {
    Seq::new(annotations.len(), |i: int| (annotations[i].key@, annotations[i].value@))
}

impl View for OciDescriptor {
    type V = DescriptorView;

    open spec fn view(&self) -> DescriptorView {
        DescriptorView {
            media_type: self.media_type@,
            digest: self.digest@,
            size: self.size,
            annotations: annotation_views(self.annotations@),
        }
    }
}

/// The contents of descriptors.
pub open spec fn descriptor_views(descriptors: Seq<OciDescriptor>) -> Seq<DescriptorView> {
    Seq::new(descriptors.len(), |i: int| descriptors[i]@)
}

/// The content of an [`OciManifest`].
pub struct ArtifactView {
    pub schema_version: u32,
    pub media_type: Seq<char>,
    pub artifact_type: Seq<char>,
    pub config: DescriptorView,
    pub layers: Seq<DescriptorView>,
}

impl View for OciManifest {
    type V = ArtifactView;

    open spec fn view(&self) -> ArtifactView {
        ArtifactView {
            schema_version: self.schema_version,
            media_type: self.media_type@,
            artifact_type: self.artifact_type@,
            config: self.config@,
            layers: descriptor_views(self.layers@),
        }
    }
}

/// The content of an [`OciIndex`].
pub struct IndexView {
    pub schema_version: u32,
    pub media_type: Seq<char>,
    pub manifests: Seq<DescriptorView>,
}

impl View for OciIndex {
    type V = IndexView;

    open spec fn view(&self) -> IndexView {
        IndexView {
            schema_version: self.schema_version,
            media_type: self.media_type@,
            manifests: descriptor_views(self.manifests@),
        }
    }
}

/// The value of an annotation, from a place on.
pub open spec fn annotation_from(
    annotations: Seq<(Seq<char>, Seq<char>)>,
    key: Seq<char>,
    i: int,
) -> Option<Seq<char>>
    decreases annotations.len() - i,
{
    if i < 0 || i >= annotations.len() {
        None
    } else if annotations[i].0 == key {
        Some(annotations[i].1)
    } else {
        annotation_from(annotations, key, i + 1)
    }
}

impl OciDescriptor {
    /// Whether an annotation has a value.
    pub fn has_annotation(&self, key: &str, value: &str) -> (has: bool)
        ensures
            has == (annotation_from(self@.annotations, key@, 0) == Some(value@)),
    {
        let ghost all = self@.annotations;
        let mut i: usize = 0;
        while i < self.annotations.len()
            invariant
                i <= self.annotations@.len(),
                all == annotation_views(self.annotations@),
                annotation_from(all, key@, 0) == annotation_from(all, key@, i as int),
                all == self@.annotations,
            decreases self.annotations@.len() - i,
        {
            assert(all[i as int] == (self.annotations@[i as int].key@, self.annotations@[i as int].value@));
            if same_text(self.annotations[i].key.as_str(), key) {
                return same_text(self.annotations[i].value.as_str(), value);
            }
            i += 1;
        }
        false
    }
}

/// What is said of a blob that has some bytes.
pub open spec fn described(
    media_type: Seq<char>,
    bytes: Seq<u8>,
    annotations: Seq<(Seq<char>, Seq<char>)>,
) -> DescriptorView {
    DescriptorView { media_type, digest: digest_of(bytes), size: bytes.len() as usize, annotations }
}

/// What is said of a blob that has some bytes.
fn describe(media_type: &str, bytes: &Vec<u8>, annotations: Vec<Annotation>) -> (descriptor:
    OciDescriptor)
    ensures
        descriptor@ == described(media_type@, bytes@, annotation_views(annotations@)),
{
    OciDescriptor {
        media_type: media_type.to_owned(),
        digest: sha256(bytes),
        size: bytes.len(),
        annotations,
    }
}

/// The one note on a blob.
fn one_annotation(key: &str, value: &str) -> (annotations: Vec<Annotation>)
    ensures
        annotation_views(annotations@) == seq![(key@, value@)],
{
    let mut annotations: Vec<Annotation> = Vec::new();
    annotations.push(Annotation { key: key.to_owned(), value: value.to_owned() });
    assert(annotation_views(annotations@) =~= seq![(key@, value@)]);
    annotations
}

/// The bytes of several blobs.
pub open spec fn byte_lists(blobs: Seq<Vec<u8>>) -> Seq<Seq<u8>> {
    Seq::new(blobs.len(), |i: int| blobs[i]@)
}

/// The first blob from a place on whose bytes are not what is declared.
pub open spec fn first_altered(
    contents: Seq<ContentView>,
    blobs: Seq<Seq<u8>>,
    i: int,
) -> Option<int>
    decreases contents.len() - i,
{
    if i < 0 || i >= contents.len() || i >= blobs.len() {
        None
    } else if digest_of(blobs[i]) != contents[i].sha256 {
        Some(i)
    } else {
        first_altered(contents, blobs, i + 1)
    }
}

impl Content {
    /// Whether bytes are those that were declared.
    pub fn check(&self, bytes: &Vec<u8>) -> (result: Result<(), ManifestError>)
        ensures
            match result {
                Ok(()) => digest_of(bytes@) == self@.sha256,
                Err(ManifestError::ContentDigest { path, expected, actual }) => {
                    &&& digest_of(bytes@) != self@.sha256
                    &&& path@ == self@.path
                    &&& expected@ == self@.sha256
                    &&& actual@ == digest_of(bytes@)
                },
                Err(_) => false,
            },
    {
        let actual = sha256(bytes);
        if same_text(actual.as_str(), self.sha256.as_str()) {
            Ok(())
        } else {
            Err(
                ManifestError::ContentDigest {
                    path: self.path.clone(),
                    expected: self.sha256.clone(),
                    actual,
                },
            )
        }
    }
}

/// What verifying what a pack holds gives: an error where the manifest is not
/// valid, or else for the first blob that is not what it declares.
pub open spec fn verifies(
    manifest: ManifestView,
    blobs: Seq<Seq<u8>>,
    result: Result<(), ManifestError>,
) -> bool {
    if !is_valid(manifest) {
        result matches Err(ManifestError::Invalid(message)) && message@ == joined_messages(
            manifest_faults(manifest),
        )
    } else {
        match first_altered(manifest.contents, blobs, 0) {
            Some(i) => {
                &&& result matches Err(ManifestError::ContentDigest { path, expected, actual })
                &&& path@ == manifest.contents[i].path
                &&& expected@ == manifest.contents[i].sha256
                &&& actual@ == digest_of(blobs[i])
            },
            None => result is Ok,
        }
    }
}

impl FactPackManifest {
    /// The digest of a valid manifest, as its canonical text is stored.
    pub fn manifest_sha256(&self, canonical: &str) -> (result: Result<String, ManifestError>)
        ensures
            match result {
                Ok(digest) => is_valid(self@) && digest@ == digest_of(encode_utf8(canonical@)),
                Err(ManifestError::Invalid(message)) => !is_valid(self@) && message@
                    == joined_messages(manifest_faults(self@)),
                Err(_) => false,
            },
    {
        match self.validate() {
            Ok(()) => {},
            Err(error) => {
                return Err(error);
            },
        }
        let bytes = text_bytes(canonical);
        Ok(sha256(&bytes))
    }

    /// Whether the bytes of the blobs a pack holds are those it declares.
    #[verifier::loop_isolation(false)]
    pub fn verify_contents(&self, blobs: &Vec<Vec<u8>>) -> (result: Result<(), ManifestError>)
        requires
            blobs@.len() == self.contents@.len(),
        ensures
            verifies(self@, byte_lists(blobs@), result),
    {
        let ghost view = self@;
        let ghost bytes = byte_lists(blobs@);
        match self.validate() {
            Ok(()) => {},
            Err(error) => {
                return Err(error);
            },
        }
        let mut i: usize = 0;
        while i < self.contents.len()
            invariant
                i <= self.contents@.len(),
                first_altered(view.contents, bytes, 0) == first_altered(
                    view.contents,
                    bytes,
                    i as int,
                ),
            decreases self.contents@.len() - i,
        {
            assert(view.contents[i as int] == self.contents@[i as int]@);
            assert(bytes[i as int] == blobs@[i as int]@);
            match self.contents[i].check(&blobs[i]) {
                Ok(()) => {},
                Err(error) => {
                    return Err(error);
                },
            }
            i += 1;
        }
        Ok(())
    }
}

/// The layers that a pack is distributed in: each blob, with its path.
pub open spec fn layers_of(contents: Seq<ContentView>, blobs: Seq<Seq<u8>>) -> Seq<
    DescriptorView,
> {
    Seq::new(
        contents.len(),
        |i: int|
            described(
                contents[i].media_type,
                blobs[i],
                seq![(TITLE_ANNOTATION@, contents[i].path)],
            ),
    )
}

/// The artifact that a pack is distributed as.
pub open spec fn artifact_of(
    manifest: ManifestView,
    config: Seq<u8>,
    blobs: Seq<Seq<u8>>,
) -> ArtifactView {
    ArtifactView {
        schema_version: 2,
        media_type: OCI_IMAGE_MANIFEST_MEDIA_TYPE@,
        artifact_type: FACT_PACK_ARTIFACT_MEDIA_TYPE@,
        config: described(FACT_PACK_CONFIG_MEDIA_TYPE@, config, Seq::empty()),
        layers: layers_of(manifest.contents, blobs),
    }
}

/// The artifact that a pack is distributed as, given its configuration and the
/// bytes of its blobs.
#[verifier::loop_isolation(false)]
pub fn build_oci_layout(
    manifest: &FactPackManifest,
    config: &Vec<u8>,
    blobs: &Vec<Vec<u8>>,
) -> (result: Result<OciManifest, ManifestError>)
    requires
        blobs@.len() == manifest.contents@.len(),
    ensures
        match result {
            Ok(artifact) => {
                &&& verifies(manifest@, byte_lists(blobs@), Ok(()))
                &&& artifact@ == artifact_of(manifest@, config@, byte_lists(blobs@))
            },
            Err(error) => verifies(manifest@, byte_lists(blobs@), Err(error)),
        },
{
    let ghost view = manifest@;
    let ghost bytes = byte_lists(blobs@);
    match manifest.verify_contents(blobs) {
        Ok(()) => {},
        Err(error) => {
            return Err(error);
        },
    }
    let none: Vec<Annotation> = Vec::new();
    assert(annotation_views(none@) =~= Seq::empty());
    let config_descriptor = describe(FACT_PACK_CONFIG_MEDIA_TYPE, config, none);
    let mut layers: Vec<OciDescriptor> = Vec::new();
    let mut i: usize = 0;
    while i < manifest.contents.len()
        invariant
            i <= manifest.contents@.len(),
            descriptor_views(layers@) =~= layers_of(view.contents, bytes).take(i as int),
        decreases manifest.contents@.len() - i,
    {
        let content = &manifest.contents[i];
        assert(view.contents[i as int] == content@);
        assert(bytes[i as int] == blobs@[i as int]@);
        let title = one_annotation(TITLE_ANNOTATION, content.path.as_str());
        let layer = describe(content.media_type.as_str(), &blobs[i], title);
        let ghost before = layers@;
        layers.push(layer);
        assert(descriptor_views(layers@) =~= descriptor_views(before).push(
            layers_of(view.contents, bytes)[i as int],
        ));
        i += 1;
    }
    assert(descriptor_views(layers@) =~= layers_of(view.contents, bytes));
    Ok(
        OciManifest {
            schema_version: 2,
            media_type: OCI_IMAGE_MANIFEST_MEDIA_TYPE.to_owned(),
            artifact_type: FACT_PACK_ARTIFACT_MEDIA_TYPE.to_owned(),
            config: config_descriptor,
            layers,
        },
    )
}

/// The name of a revision of a pack.
pub open spec fn reference_name(manifest: ManifestView) -> Seq<char> {
    manifest.subject.version + "-r"@ + decimal(manifest.revision as nat)
}

/// The index of a layout that holds one artifact.
pub open spec fn index_of(manifest: ManifestView, artifact: Seq<u8>) -> IndexView {
    IndexView {
        schema_version: 2,
        media_type: OCI_IMAGE_INDEX_MEDIA_TYPE@,
        manifests: seq![
            described(
                OCI_IMAGE_MANIFEST_MEDIA_TYPE@,
                artifact,
                seq![(REFERENCE_ANNOTATION@, reference_name(manifest))],
            ),
        ],
    }
}

/// The index of a layout, given the bytes of its artifact, and what the layout is
/// known by.
pub fn layout_index(
    manifest: &FactPackManifest,
    artifact: &OciManifest,
    artifact_bytes: &Vec<u8>,
) -> (made: (OciIndex, BuiltLayout))
    ensures
        made.0@ == index_of(manifest@, artifact_bytes@),
        made.1.manifest_digest@ == digest_of(artifact_bytes@),
        made.1.config_digest@ == artifact@.config.digest,
{
    let mut reference = manifest.subject.version.clone();
    reference.append("-r");
    append_decimal(&mut reference, manifest.revision as u128);
    let note = one_annotation(REFERENCE_ANNOTATION, reference.as_str());
    let descriptor = describe(OCI_IMAGE_MANIFEST_MEDIA_TYPE, artifact_bytes, note);
    let manifest_digest = descriptor.digest.clone();
    let mut manifests: Vec<OciDescriptor> = Vec::new();
    manifests.push(descriptor);
    assert(descriptor_views(manifests@) =~= index_of(manifest@, artifact_bytes@).manifests);
    (
        OciIndex {
            schema_version: 2,
            media_type: OCI_IMAGE_INDEX_MEDIA_TYPE.to_owned(),
            manifests,
        },
        BuiltLayout { manifest_digest, config_digest: artifact.config.digest.clone() },
    )
}

/// The marker of a layout.
pub fn layout_marker() -> (marker: OciLayout)
    ensures
        marker.image_layout_version@ == "1.0.0"@,
{
    OciLayout { image_layout_version: "1.0.0".to_owned() }
}

} // verus!
