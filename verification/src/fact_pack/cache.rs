//! Reading packs back: every blob is held to its digest and every layer to what
//! the manifest declares, before a pack is used.

use super::layout::{
    annotation_from, OciDescriptor, OciIndex, OciLayout, OciManifest, ArtifactView, DescriptorView,
    IndexView, OCI_IMAGE_INDEX_MEDIA_TYPE, OCI_IMAGE_MANIFEST_MEDIA_TYPE, TITLE_ANNOTATION,
};
use super::manifest::{
    digest_of, manifest_error_text, sha256, ContentView, FactPackManifest, ManifestError,
    ManifestView, FACT_PACK_ARTIFACT_MEDIA_TYPE, FACT_PACK_CONFIG_MEDIA_TYPE,
};
use super::rules::{begins_with, digest_hex_after, is_digest, starts_with_text};
use crate::syntax::decoded;
use crate::text::{append_decimal, chars_of, decimal, same_text, text_of};
use vstd::prelude::*;
use vstd::string::*;
use vstd::utf8::*;

verus! {

/// The schema of the cache and of its entries.
pub const CACHE_SCHEMA: u32 = 1;

/// The file that marks a directory as a cache.
pub const CACHE_MARKER: &'static str = "cache.toml";

/// Why a pack could not be kept or read back.
#[derive(Debug)]
pub enum CacheError {
    Manifest(ManifestError),
    Io { operation: &'static str, path: String, message: String },
    OciJson { path: String, message: String },
    CacheToml { path: String, message: String },
    SerializeCache(String),
    InvalidLayout(String),
    InvalidCache(String),
    BlobSize { digest: String, expected: usize, actual: usize },
    BlobDigest { expected: String, actual: String },
    NotInstalled { digest: String },
    Ambiguous { name: String, revision: u32 },
}

/// The content of a [`CacheError`].
pub enum CacheFault {
    Manifest(Seq<char>),
    Io(Seq<char>, Seq<char>, Seq<char>),
    OciJson(Seq<char>, Seq<char>),
    CacheToml(Seq<char>, Seq<char>),
    SerializeCache(Seq<char>),
    InvalidLayout(Seq<char>),
    InvalidCache(Seq<char>),
    BlobSize(Seq<char>, usize, usize),
    BlobDigest(Seq<char>, Seq<char>),
    NotInstalled(Seq<char>),
    Ambiguous(Seq<char>, u32),
}

impl View for CacheError {
    type V = CacheFault;

    open spec fn view(&self) -> CacheFault {
        match self {
            CacheError::Manifest(error) => CacheFault::Manifest(manifest_error_text(*error)),
            CacheError::Io { operation, path, message } => CacheFault::Io(
                operation@,
                path@,
                message@,
            ),
            CacheError::OciJson { path, message } => CacheFault::OciJson(path@, message@),
            CacheError::CacheToml { path, message } => CacheFault::CacheToml(path@, message@),
            CacheError::SerializeCache(message) => CacheFault::SerializeCache(message@),
            CacheError::InvalidLayout(message) => CacheFault::InvalidLayout(message@),
            CacheError::InvalidCache(message) => CacheFault::InvalidCache(message@),
            CacheError::BlobSize { digest, expected, actual } => CacheFault::BlobSize(
                digest@,
                *expected,
                *actual,
            ),
            CacheError::BlobDigest { expected, actual } => CacheFault::BlobDigest(
                expected@,
                actual@,
            ),
            CacheError::NotInstalled { digest } => CacheFault::NotInstalled(digest@),
            CacheError::Ambiguous { name, revision } => CacheFault::Ambiguous(name@, *revision),
        }
    }
}

impl Clone for CacheError {
    fn clone(&self) -> (copy: Self)
        ensures
            copy@ == self@,
    {
        match self {
            CacheError::Manifest(error) => CacheError::Manifest(error.clone()),
            CacheError::Io { operation, path, message } => CacheError::Io {
                operation: *operation,
                path: path.clone(),
                message: message.clone(),
            },
            CacheError::OciJson { path, message } => CacheError::OciJson {
                path: path.clone(),
                message: message.clone(),
            },
            CacheError::CacheToml { path, message } => CacheError::CacheToml {
                path: path.clone(),
                message: message.clone(),
            },
            CacheError::SerializeCache(message) => CacheError::SerializeCache(message.clone()),
            CacheError::InvalidLayout(message) => CacheError::InvalidLayout(message.clone()),
            CacheError::InvalidCache(message) => CacheError::InvalidCache(message.clone()),
            CacheError::BlobSize { digest, expected, actual } => CacheError::BlobSize {
                digest: digest.clone(),
                expected: *expected,
                actual: *actual,
            },
            CacheError::BlobDigest { expected, actual } => CacheError::BlobDigest {
                expected: expected.clone(),
                actual: actual.clone(),
            },
            CacheError::NotInstalled { digest } => CacheError::NotInstalled {
                digest: digest.clone(),
            },
            CacheError::Ambiguous { name, revision } => CacheError::Ambiguous {
                name: name.clone(),
                revision: *revision,
            },
        }
    }
}

/// What an error says.
pub open spec fn cache_fault_text(fault: CacheFault) -> Seq<char> {
    match fault {
        CacheFault::Manifest(text) => text,
        CacheFault::Io(operation, path, message) => operation + " "@ + path + ": "@ + message,
        CacheFault::OciJson(path, message) => "parsing OCI JSON "@ + path + ": "@ + message,
        CacheFault::CacheToml(path, message) => "parsing fact-pack cache metadata "@ + path
            + ": "@ + message,
        CacheFault::SerializeCache(message) => "serializing fact-pack cache metadata: "@ + message,
        CacheFault::InvalidLayout(message) => "invalid OCI fact-pack layout: "@ + message,
        CacheFault::InvalidCache(message) => "invalid fact-pack cache: "@ + message,
        CacheFault::BlobSize(digest, expected, actual) => "fact-pack blob "@ + digest
            + " has size "@ + decimal(actual as nat) + ", expected "@ + decimal(expected as nat),
        CacheFault::BlobDigest(expected, actual) => "fact-pack blob has digest "@ + actual
            + ", expected "@ + expected,
        CacheFault::NotInstalled(digest) => "fact-pack "@ + digest
            + " is not installed in the local cache"@,
        CacheFault::Ambiguous(name, revision) => "multiple revision "@ + decimal(revision as nat)
            + " packs satisfy "@ + name,
    }
}

impl CacheError {
    /// What the error says.
    pub fn display(&self) -> (text: String)
        ensures
            text@ == cache_fault_text(self@),
    {
        match self {
            CacheError::Manifest(error) => error.display(),
            CacheError::Io { operation, path, message } => {
                let mut text = (*operation).to_owned();
                text.append(" ");
                text.append(path.as_str());
                text.append(": ");
                text.append(message.as_str());
                text
            },
            CacheError::OciJson { path, message } => {
                let mut text = "parsing OCI JSON ".to_owned();
                text.append(path.as_str());
                text.append(": ");
                text.append(message.as_str());
                text
            },
            CacheError::CacheToml { path, message } => {
                let mut text = "parsing fact-pack cache metadata ".to_owned();
                text.append(path.as_str());
                text.append(": ");
                text.append(message.as_str());
                text
            },
            CacheError::SerializeCache(message) => {
                let mut text = "serializing fact-pack cache metadata: ".to_owned();
                text.append(message.as_str());
                text
            },
            CacheError::InvalidLayout(message) => {
                let mut text = "invalid OCI fact-pack layout: ".to_owned();
                text.append(message.as_str());
                text
            },
            CacheError::InvalidCache(message) => {
                let mut text = "invalid fact-pack cache: ".to_owned();
                text.append(message.as_str());
                text
            },
            CacheError::BlobSize { digest, expected, actual } => {
                let mut text = "fact-pack blob ".to_owned();
                text.append(digest.as_str());
                text.append(" has size ");
                append_decimal(&mut text, *actual as u128);
                text.append(", expected ");
                append_decimal(&mut text, *expected as u128);
                text
            },
            CacheError::BlobDigest { expected, actual } => {
                let mut text = "fact-pack blob has digest ".to_owned();
                text.append(actual.as_str());
                text.append(", expected ");
                text.append(expected.as_str());
                text
            },
            CacheError::NotInstalled { digest } => {
                let mut text = "fact-pack ".to_owned();
                text.append(digest.as_str());
                text.append(" is not installed in the local cache");
                text
            },
            CacheError::Ambiguous { name, revision } => {
                let mut text = "multiple revision ".to_owned();
                append_decimal(&mut text, *revision as u128);
                text.append(" packs satisfy ");
                text.append(name.as_str());
                text
            },
        }
    }
}

/// What is wrong, where something is.
pub open spec fn fault_of(result: Result<(), CacheError>) -> Option<CacheFault> {
    match result {
        Ok(()) => None,
        Err(error) => Some(error@),
    }
}

/// What is wrong with a digest.
pub open spec fn digest_fault(digest: Seq<char>) -> Option<CacheFault> {
    if !begins_with(digest, "sha256:"@) {
        Some(CacheFault::InvalidLayout("digest "@ + digest + " does not use SHA-256"@))
    } else if !is_digest(digest) {
        Some(CacheFault::InvalidLayout("digest "@ + digest + " is not lowercase SHA-256"@))
    } else {
        None
    }
}

/// Checks how a digest is written.
pub fn validate_digest(digest: &str) -> (result: Result<(), CacheError>)
    ensures
        fault_of(result) == digest_fault(digest@),
{
    if !starts_with_text(digest, "sha256:") {
        let mut message = "digest ".to_owned();
        message.append(digest);
        message.append(" does not use SHA-256");
        return Err(CacheError::InvalidLayout(message));
    }
    if !digest_hex_after(digest, "sha256:") {
        let mut message = "digest ".to_owned();
        message.append(digest);
        message.append(" is not lowercase SHA-256");
        return Err(CacheError::InvalidLayout(message));
    }
    Ok(())
}

/// What is wrong with bytes that are to have a digest.
pub open spec fn bytes_fault(expected: Seq<char>, bytes: Seq<u8>) -> Option<CacheFault> {
    if digest_fault(expected) is Some {
        digest_fault(expected)
    } else if digest_of(bytes) != expected {
        Some(CacheFault::BlobDigest(expected, digest_of(bytes)))
    } else {
        None
    }
}

/// Checks that bytes have a digest.
pub fn verify_digest(expected: &str, bytes: &Vec<u8>) -> (result: Result<(), CacheError>)
    ensures
        fault_of(result) == bytes_fault(expected@, bytes@),
{
    match validate_digest(expected) {
        Ok(()) => {},
        Err(error) => {
            return Err(error);
        },
    }
    let actual = sha256(bytes);
    if same_text(actual.as_str(), expected) {
        Ok(())
    } else {
        Err(CacheError::BlobDigest { expected: expected.to_owned(), actual })
    }
}

/// The hexadecimal part of a digest.
pub open spec fn hex_part(digest: Seq<char>) -> Seq<char> {
    digest.skip("sha256:"@.len() as int)
}

/// The hexadecimal part of a digest.
pub fn digest_hex(digest: &str) -> (hex: String)
    requires
        begins_with(digest@, "sha256:"@),
    ensures
        hex@ == hex_part(digest@),
{
    let chars = chars_of(digest);
    let from: usize = chars_of("sha256:").len();
    let count: usize = chars.len();
    assert(chars@.subrange(from as int, count as int) =~= chars@.skip(from as int));
    text_of(&chars, from, count)
}

/// A blob that was read, or that could not be.
#[derive(Debug)]
pub struct Blob {
    pub digest: String,
    pub bytes: Result<Vec<u8>, CacheError>,
}

/// The content of a [`Blob`]: its digest, and its bytes or why they were not read.
pub type BlobView = (Seq<char>, Result<Seq<u8>, CacheFault>);

/// The digests and bytes of blobs.
pub open spec fn blob_views(blobs: Seq<Blob>) -> Seq<BlobView> {
    Seq::new(
        blobs.len(),
        |i: int|
            (
                blobs[i].digest@,
                match blobs[i].bytes {
                    Ok(bytes) => Ok(bytes@),
                    Err(error) => Err(error@),
                },
            ),
    )
}

/// The bytes of the first blob of a digest, from a place on. One that is not
/// there is not installed.
pub open spec fn bytes_from(blobs: Seq<BlobView>, digest: Seq<char>, i: int) -> Result<
    Seq<u8>,
    CacheFault,
>
    decreases blobs.len() - i,
{
    if i < 0 || i >= blobs.len() {
        Err(CacheFault::NotInstalled(digest))
    } else if blobs[i].0 == digest {
        blobs[i].1
    } else {
        bytes_from(blobs, digest, i + 1)
    }
}

/// The bytes of a blob.
pub open spec fn bytes_of(blobs: Seq<BlobView>, digest: Seq<char>) -> Result<
    Seq<u8>,
    CacheFault,
> {
    bytes_from(blobs, digest, 0)
}

/// The bytes of a blob.
fn blob_bytes<'a>(blobs: &'a Vec<Blob>, digest: &str) -> (bytes: Result<&'a Vec<u8>, CacheError>)
    ensures
        bytes_of(blob_views(blobs@), digest@) == match bytes {
            Ok(bytes) => Ok::<Seq<u8>, CacheFault>(bytes@),
            Err(error) => Err::<Seq<u8>, CacheFault>(error@),
        },
{
    let ghost all = blob_views(blobs@);
    let mut i: usize = 0;
    while i < blobs.len()
        invariant
            i <= blobs@.len(),
            all == blob_views(blobs@),
            bytes_from(all, digest@, 0) == bytes_from(all, digest@, i as int),
        decreases blobs@.len() - i,
    {
        assert(all[i as int].0 == blobs@[i as int].digest@);
        if same_text(blobs[i].digest.as_str(), digest) {
            return match &blobs[i].bytes {
                Ok(bytes) => Ok(bytes),
                Err(error) => Err(error.clone()),
            };
        }
        i += 1;
    }
    Err(CacheError::NotInstalled { digest: digest.to_owned() })
}

/// What is wrong with the bytes that a descriptor is to describe.
pub open spec fn described_fault(descriptor: DescriptorView, bytes: Seq<u8>) -> Option<
    CacheFault,
> {
    if digest_fault(descriptor.digest) is Some {
        digest_fault(descriptor.digest)
    } else if bytes.len() != descriptor.size {
        Some(CacheFault::BlobSize(descriptor.digest, descriptor.size, bytes.len() as usize))
    } else {
        bytes_fault(descriptor.digest, bytes)
    }
}

/// Holds bytes to the size and digest of the descriptor they came for.
pub fn check_described(descriptor: &OciDescriptor, bytes: &Vec<u8>) -> (result: Result<
    (),
    CacheError,
>)
    ensures
        match result {
            Ok(()) => described_fault(descriptor@, bytes@) is None,
            Err(error) => described_fault(descriptor@, bytes@) == Some(error@),
        },
{
    if let Err(error) = validate_digest(descriptor.digest.as_str()) {
        return Err(error);
    }
    if bytes.len() != descriptor.size {
        return Err(
            CacheError::BlobSize {
                digest: descriptor.digest.clone(),
                expected: descriptor.size,
                actual: bytes.len(),
            },
        );
    }
    verify_digest(descriptor.digest.as_str(), bytes)
}

/// What is wrong with the blob that a descriptor names.
pub open spec fn descriptor_fault(
    descriptor: DescriptorView,
    blobs: Seq<BlobView>,
) -> Option<CacheFault> {
    if digest_fault(descriptor.digest) is Some {
        digest_fault(descriptor.digest)
    } else {
        match bytes_of(blobs, descriptor.digest) {
            Ok(bytes) => described_fault(descriptor, bytes),
            Err(fault) => Some(fault),
        }
    }
}

/// The blob that a descriptor names, held to its size and digest.
fn read_descriptor<'a>(descriptor: &OciDescriptor, blobs: &'a Vec<Blob>) -> (result: Result<
    &'a Vec<u8>,
    CacheError,
>)
    ensures
        match result {
            Ok(bytes) => {
                &&& descriptor_fault(descriptor@, blob_views(blobs@)) is None
                &&& bytes_of(blob_views(blobs@), descriptor@.digest) == Ok::<Seq<u8>, CacheFault>(
                    bytes@,
                )
            },
            Err(error) => descriptor_fault(descriptor@, blob_views(blobs@)) == Some(error@),
        },
{
    if let Err(error) = validate_digest(descriptor.digest.as_str()) {
        return Err(error);
    }
    match blob_bytes(blobs, descriptor.digest.as_str()) {
        Ok(bytes) => match check_described(descriptor, bytes) {
            Ok(()) => Ok(bytes),
            Err(error) => Err(error),
        },
        Err(error) => Err(error),
    }
}

/// What is wrong with the marker of a layout.
pub open spec fn marker_fault(version: Seq<char>) -> Option<CacheFault> {
    if version != "1.0.0"@ {
        Some(CacheFault::InvalidLayout("image layout version is "@ + version))
    } else {
        None
    }
}

/// Checks the marker of a layout.
pub fn check_marker(marker: &OciLayout) -> (result: Result<(), CacheError>)
    ensures
        fault_of(result) == marker_fault(marker.image_layout_version@),
{
    if !same_text(marker.image_layout_version.as_str(), "1.0.0") {
        let mut message = "image layout version is ".to_owned();
        message.append(marker.image_layout_version.as_str());
        return Err(CacheError::InvalidLayout(message));
    }
    Ok(())
}

/// What is wrong with the marker and the index of a layout.
pub open spec fn index_fault(version: Seq<char>, index: IndexView) -> Option<CacheFault> {
    if marker_fault(version) is Some {
        marker_fault(version)
    } else if index.schema_version != 2 || index.media_type != OCI_IMAGE_INDEX_MEDIA_TYPE@ {
        Some(CacheFault::InvalidLayout("index is not an OCI image index v1"@))
    } else if index.manifests.len() != 1 {
        Some(
            CacheFault::InvalidLayout("index must contain exactly one fact-pack manifest"@),
        )
    } else if index.manifests[0].media_type != OCI_IMAGE_MANIFEST_MEDIA_TYPE@ {
        Some(
            CacheFault::InvalidLayout(
                "index manifest has media type "@ + index.manifests[0].media_type,
            ),
        )
    } else {
        None
    }
}

/// The one artifact that a layout holds.
pub fn decode_layout<'a>(marker: &OciLayout, index: &'a OciIndex) -> (result: Result<
    &'a OciDescriptor,
    CacheError,
>)
    ensures
        match result {
            Ok(descriptor) => index_fault(marker.image_layout_version@, index@) is None
                && descriptor@ == index@.manifests[0],
            Err(error) => index_fault(marker.image_layout_version@, index@) == Some(error@),
        },
{
    if let Err(error) = check_marker(marker) {
        return Err(error);
    }
    if index.schema_version != 2 || !same_text(
        index.media_type.as_str(),
        OCI_IMAGE_INDEX_MEDIA_TYPE,
    ) {
        return Err(CacheError::InvalidLayout("index is not an OCI image index v1".to_owned()));
    }
    if index.manifests.len() != 1 {
        return Err(
            CacheError::InvalidLayout(
                "index must contain exactly one fact-pack manifest".to_owned(),
            ),
        );
    }
    assert(index@.manifests[0] == index.manifests@[0]@);
    let descriptor = &index.manifests[0];
    if !same_text(descriptor.media_type.as_str(), OCI_IMAGE_MANIFEST_MEDIA_TYPE) {
        let mut message = "index manifest has media type ".to_owned();
        message.append(descriptor.media_type.as_str());
        return Err(CacheError::InvalidLayout(message));
    }
    Ok(descriptor)
}

/// What is wrong with an artifact, up to its configuration.
pub open spec fn config_fault(
    artifact: ArtifactView,
    blobs: Seq<BlobView>,
) -> Option<CacheFault> {
    if artifact.schema_version != 2 || artifact.media_type != OCI_IMAGE_MANIFEST_MEDIA_TYPE@
        || artifact.artifact_type != FACT_PACK_ARTIFACT_MEDIA_TYPE@ {
        Some(CacheFault::InvalidLayout("artifact manifest is not an Infact fact pack"@))
    } else if artifact.config.media_type != FACT_PACK_CONFIG_MEDIA_TYPE@ {
        Some(
            CacheFault::InvalidLayout("config has media type "@ + artifact.config.media_type),
        )
    } else if descriptor_fault(artifact.config, blobs) is Some {
        descriptor_fault(artifact.config, blobs)
    } else if !valid_utf8(bytes_of(blobs, artifact.config.digest)->Ok_0) {
        Some(CacheFault::InvalidLayout("fact-pack config is not UTF-8 TOML"@))
    } else {
        None
    }
}

/// A copy of bytes.
fn copied_bytes(bytes: &Vec<u8>) -> (copy: Vec<u8>)
    ensures
        copy@ == bytes@,
{
    let count: usize = bytes.len();
    let copy = crate::syntax::bytes_between(bytes, 0, count);
    assert(bytes@.subrange(0, count as int) =~= bytes@);
    copy
}

/// The configuration of an artifact, as text.
pub fn decode_config(artifact: &OciManifest, blobs: &Vec<Blob>) -> (result: Result<
    String,
    CacheError,
>)
    ensures
        match result {
            Ok(text) => {
                &&& config_fault(artifact@, blob_views(blobs@)) is None
                &&& bytes_of(blob_views(blobs@), artifact@.config.digest) matches Ok(bytes)
                &&& valid_utf8(bytes)
                &&& text@ == decode_utf8(bytes)
            },
            Err(error) => config_fault(artifact@, blob_views(blobs@)) == Some(error@),
        },
{
    if artifact.schema_version != 2 || !same_text(
        artifact.media_type.as_str(),
        OCI_IMAGE_MANIFEST_MEDIA_TYPE,
    ) || !same_text(artifact.artifact_type.as_str(), FACT_PACK_ARTIFACT_MEDIA_TYPE) {
        return Err(
            CacheError::InvalidLayout("artifact manifest is not an Infact fact pack".to_owned()),
        );
    }
    if !same_text(artifact.config.media_type.as_str(), FACT_PACK_CONFIG_MEDIA_TYPE) {
        let mut message = "config has media type ".to_owned();
        message.append(artifact.config.media_type.as_str());
        return Err(CacheError::InvalidLayout(message));
    }
    let bytes = match read_descriptor(&artifact.config, blobs) {
        Ok(bytes) => bytes,
        Err(error) => {
            return Err(error);
        },
    };
    match decoded(copied_bytes(bytes)) {
        Some(text) => Ok(text),
        None => Err(
            CacheError::InvalidLayout("fact-pack config is not UTF-8 TOML".to_owned()),
        ),
    }
}

/// What is wrong with a layer that is to hold a declared blob.
pub open spec fn layer_fault(
    content: ContentView,
    layer: DescriptorView,
    blobs: Seq<BlobView>,
) -> Option<CacheFault> {
    if annotation_from(layer.annotations, TITLE_ANNOTATION@, 0) != Some(content.path)
        || layer.media_type != content.media_type || layer.digest != content.sha256 {
        Some(
            CacheFault::InvalidLayout(
                "OCI layer does not match declared content "@ + content.path,
            ),
        )
    } else {
        descriptor_fault(layer, blobs)
    }
}

/// What is wrong with the first of several layers, from a place on, with which
/// something is wrong.
pub open spec fn layers_fault(
    contents: Seq<ContentView>,
    layers: Seq<DescriptorView>,
    blobs: Seq<BlobView>,
    i: int,
) -> Option<CacheFault>
    decreases contents.len() - i,
{
    if i < 0 || i >= contents.len() || i >= layers.len() {
        None
    } else if layer_fault(contents[i], layers[i], blobs) is Some {
        layer_fault(contents[i], layers[i], blobs)
    } else {
        layers_fault(contents, layers, blobs, i + 1)
    }
}

/// What is wrong with what an artifact holds, given the pack its configuration
/// declares and how that pack is written.
pub open spec fn contents_fault(
    artifact: ArtifactView,
    config: Seq<char>,
    pack: ManifestView,
    canonical: Seq<char>,
    blobs: Seq<BlobView>,
) -> Option<CacheFault> {
    if canonical != config {
        Some(CacheFault::InvalidLayout("fact-pack config is not canonical TOML"@))
    } else if pack.contents.len() != artifact.layers.len() {
        Some(
            CacheFault::InvalidLayout(
                "manifest has "@ + decimal(artifact.layers.len())
                    + " layers but pack.toml declares "@ + decimal(pack.contents.len())
                    + " contents"@,
            ),
        )
    } else {
        layers_fault(pack.contents, artifact.layers, blobs, 0)
    }
}

/// A blob of a pack in the cache.
#[derive(Debug, Clone, PartialEq, Eq)]
pub struct CachedContent {
    pub path: String,
    pub kind: String,
    pub media_type: String,
    pub digest: String,
    pub size: usize,
    pub blob_path: String,
}

/// The content of a [`CachedContent`].
pub struct CachedContentView {
    pub path: Seq<char>,
    pub kind: Seq<char>,
    pub media_type: Seq<char>,
    pub digest: Seq<char>,
    pub size: usize,
    pub blob_path: Seq<char>,
}

impl View for CachedContent {
    type V = CachedContentView;

    open spec fn view(&self) -> CachedContentView {
        CachedContentView {
            path: self.path@,
            kind: self.kind@,
            media_type: self.media_type@,
            digest: self.digest@,
            size: self.size,
            blob_path: self.blob_path@,
        }
    }
}

/// The contents of cached blobs.
pub open spec fn cached_views(contents: Seq<CachedContent>) -> Seq<CachedContentView> {
    Seq::new(contents.len(), |i: int| contents[i]@)
}

/// A pack in the cache.
#[derive(Debug)]
pub struct CachedFactPack {
    pub manifest: FactPackManifest,
    pub manifest_digest: String,
    pub config_digest: String,
    pub contents: Vec<CachedContent>,
}

/// The content of a [`CachedFactPack`].
pub struct PackView {
    pub manifest: ManifestView,
    pub manifest_digest: Seq<char>,
    pub config_digest: Seq<char>,
    pub contents: Seq<CachedContentView>,
}

impl View for CachedFactPack {
    type V = PackView;

    open spec fn view(&self) -> PackView {
        PackView {
            manifest: self.manifest@,
            manifest_digest: self.manifest_digest@,
            config_digest: self.config_digest@,
            contents: cached_views(self.contents@),
        }
    }
}

/// The contents of packs.
pub open spec fn pack_views(packs: Seq<CachedFactPack>) -> Seq<PackView> {
    Seq::new(packs.len(), |i: int| packs[i]@)
}

/// Where a blob is kept.
pub open spec fn path_of_blob(blob_root: Seq<char>, digest: Seq<char>) -> Seq<char> {
    blob_root + "/"@ + hex_part(digest)
}

/// Where a blob is kept.
pub fn blob_path(blob_root: &str, digest: &str) -> (path: String)
    requires
        begins_with(digest@, "sha256:"@),
    ensures
        path@ == path_of_blob(blob_root@, digest@),
{
    let mut path = blob_root.to_owned();
    path.append("/");
    let hex = digest_hex(digest);
    path.append(hex.as_str());
    path
}

/// The blobs of a pack as they are kept.
pub open spec fn kept_contents(
    contents: Seq<ContentView>,
    layers: Seq<DescriptorView>,
    blob_root: Seq<char>,
) -> Seq<CachedContentView> {
    Seq::new(
        contents.len(),
        |i: int|
            CachedContentView {
                path: contents[i].path,
                kind: contents[i].kind,
                media_type: layers[i].media_type,
                digest: layers[i].digest,
                size: layers[i].size,
                blob_path: path_of_blob(blob_root, layers[i].digest),
            },
    )
}

/// The pack that an artifact holds.
pub open spec fn decoded_pack(
    artifact: ArtifactView,
    manifest_digest: Seq<char>,
    pack: ManifestView,
    blob_root: Seq<char>,
) -> PackView {
    PackView {
        manifest: pack,
        manifest_digest,
        config_digest: artifact.config.digest,
        contents: kept_contents(pack.contents, artifact.layers, blob_root),
    }
}

/// The pack that an artifact holds, given the pack its configuration declares and
/// how that pack is written.
#[verifier::loop_isolation(false)]
pub fn decode_manifest(
    artifact: &OciManifest,
    manifest_digest: &str,
    config: &str,
    pack: FactPackManifest,
    canonical: &str,
    blob_root: &str,
    blobs: &Vec<Blob>,
) -> (result: Result<CachedFactPack, CacheError>)
    ensures
        match result {
            Ok(made) => {
                &&& contents_fault(
                    artifact@,
                    config@,
                    pack@,
                    canonical@,
                    blob_views(blobs@),
                ) is None
                &&& made@ == decoded_pack(artifact@, manifest_digest@, pack@, blob_root@)
            },
            Err(error) => contents_fault(
                artifact@,
                config@,
                pack@,
                canonical@,
                blob_views(blobs@),
            ) == Some(error@),
        },
{
    let ghost view = artifact@;
    let ghost declared = pack@;
    let ghost all = blob_views(blobs@);
    if !same_text(canonical, config) {
        return Err(CacheError::InvalidLayout("fact-pack config is not canonical TOML".to_owned()));
    }
    if pack.contents.len() != artifact.layers.len() {
        let mut message = "manifest has ".to_owned();
        append_decimal(&mut message, artifact.layers.len() as u128);
        message.append(" layers but pack.toml declares ");
        append_decimal(&mut message, pack.contents.len() as u128);
        message.append(" contents");
        return Err(CacheError::InvalidLayout(message));
    }
    let ghost kept = kept_contents(declared.contents, view.layers, blob_root@);
    let mut contents: Vec<CachedContent> = Vec::new();
    let mut i: usize = 0;
    while i < pack.contents.len()
        invariant
            i <= pack.contents@.len(),
            cached_views(contents@) =~= kept.take(i as int),
            layers_fault(declared.contents, view.layers, all, 0) == layers_fault(
                declared.contents,
                view.layers,
                all,
                i as int,
            ),
        decreases pack.contents@.len() - i,
    {
        let content = &pack.contents[i];
        let layer = &artifact.layers[i];
        assert(declared.contents[i as int] == content@);
        assert(view.layers[i as int] == layer@);
        if !layer.has_annotation(TITLE_ANNOTATION, content.path.as_str()) || !same_text(
            layer.media_type.as_str(),
            content.media_type.as_str(),
        ) || !same_text(layer.digest.as_str(), content.sha256.as_str()) {
            let mut message = "OCI layer does not match declared content ".to_owned();
            message.append(content.path.as_str());
            return Err(CacheError::InvalidLayout(message));
        }
        match read_descriptor(layer, blobs) {
            Ok(_) => {},
            Err(error) => {
                return Err(error);
            },
        }
        let ghost before = contents@;
        contents.push(
            CachedContent {
                path: content.path.clone(),
                kind: content.kind.clone(),
                media_type: layer.media_type.clone(),
                digest: layer.digest.clone(),
                size: layer.size,
                blob_path: blob_path(blob_root, layer.digest.as_str()),
            },
        );
        assert(contents@.last()@ == kept[i as int]);
        assert(cached_views(contents@) =~= cached_views(before).push(kept[i as int]));
        i += 1;
    }
    assert(kept.take(i as int) =~= kept);
    Ok(
        CachedFactPack {
            manifest: pack,
            manifest_digest: manifest_digest.to_owned(),
            config_digest: artifact.config.digest.clone(),
            contents,
        },
    )
}

} // verus!
