//! What is decided when a fact pack is pulled from a registry: how much is
//! downloaded, and whether what came is what was asked for.

use crate::fact_pack::cache::{cache_fault_text, CacheError, CacheFault};
use crate::lists::text_list;
use crate::fact_pack::manifest::FACT_PACK_ARTIFACT_MEDIA_TYPE;
use crate::ordering::{keys, settled_list, settled_of};
use crate::text::{
    append_decimal, decimal, same_text, signed_decimal, signed_decimal_text,
};
use oci_client::manifest::{OciDescriptor, OciImageManifest};
use oci_client::{ParseError, Reference};
use vstd::prelude::*;
use vstd::string::*;

verus! {

/// How much a pull may download.
#[derive(Debug, Clone, Copy, PartialEq, Eq, Structural)]
pub struct RegistryLimits {
    pub max_manifest_bytes: usize,
    pub max_blob_bytes: usize,
    pub max_total_bytes: usize,
}

impl Default for RegistryLimits {
    fn default() -> (limits: Self)
        ensures
            limits.max_manifest_bytes == 4 * 1024 * 1024,
            limits.max_blob_bytes == 256 * 1024 * 1024,
            limits.max_total_bytes == 1024 * 1024 * 1024,
    {
        RegistryLimits {
            max_manifest_bytes: 4 * 1024 * 1024,
            max_blob_bytes: 256 * 1024 * 1024,
            max_total_bytes: 1024 * 1024 * 1024,
        }
    }
}

/// How a registry is told who asks.
#[derive(Debug)]
pub enum FactPackRegistryAuth {
    Anonymous,
    Basic { username: String, password: String },
    Bearer(String),
}

/// Why a pack could not be pulled.
#[derive(Debug)]
pub enum RegistryError {
    Reference { reference: String, message: String },
    Pull { reference: String, message: String },
    ManifestJson(String),
    DigestMismatch { expected: String, actual: String },
    ArtifactType(String),
    InvalidSize { digest: String, size: i64 },
    Limit { kind: &'static str, limit: usize },
    Cache(CacheError),
}

/// The content of a [`RegistryError`].
pub enum RegistryFault {
    Reference(Seq<char>, Seq<char>),
    Pull(Seq<char>, Seq<char>),
    ManifestJson(Seq<char>),
    DigestMismatch(Seq<char>, Seq<char>),
    ArtifactType(Seq<char>),
    InvalidSize(Seq<char>, i64),
    Limit(Seq<char>, usize),
    Cache(CacheFault),
}

impl View for RegistryError {
    type V = RegistryFault;

    open spec fn view(&self) -> RegistryFault {
        match self {
            RegistryError::Reference { reference, message } => RegistryFault::Reference(
                reference@,
                message@,
            ),
            RegistryError::Pull { reference, message } => RegistryFault::Pull(reference@, message@),
            RegistryError::ManifestJson(message) => RegistryFault::ManifestJson(message@),
            RegistryError::DigestMismatch { expected, actual } => RegistryFault::DigestMismatch(
                expected@,
                actual@,
            ),
            RegistryError::ArtifactType(kind) => RegistryFault::ArtifactType(kind@),
            RegistryError::InvalidSize { digest, size } => RegistryFault::InvalidSize(
                digest@,
                *size,
            ),
            RegistryError::Limit { kind, limit } => RegistryFault::Limit(kind@, *limit),
            RegistryError::Cache(error) => RegistryFault::Cache(error@),
        }
    }
}

/// What an error says.
pub open spec fn registry_fault_text(fault: RegistryFault) -> Seq<char> {
    match fault {
        RegistryFault::Reference(reference, message) => "invalid OCI reference "@ + reference
            + ": "@ + message,
        RegistryFault::Pull(reference, message) => "pulling fact pack "@ + reference + ": "@
            + message,
        RegistryFault::ManifestJson(message) => "parsing fact-pack OCI manifest: "@ + message,
        RegistryFault::DigestMismatch(expected, actual) => "OCI artifact is "@ + actual
            + ", expected "@ + expected,
        RegistryFault::ArtifactType(kind) => "OCI artifact type is "@ + kind
            + ", expected an Infact fact pack"@,
        RegistryFault::InvalidSize(digest, size) => "OCI descriptor "@ + digest
            + " has invalid size "@ + signed_decimal(size as int),
        RegistryFault::Limit(kind, limit) => "OCI "@ + kind + " exceeds the configured "@
            + decimal(limit as nat) + "-byte limit"@,
        RegistryFault::Cache(fault) => cache_fault_text(fault),
    }
}

impl RegistryError {
    /// What the error says.
    pub fn display(&self) -> (text: String)
        ensures
            text@ == registry_fault_text(self@),
    {
        match self {
            RegistryError::Reference { reference, message } => {
                let mut text = "invalid OCI reference ".to_owned();
                text.append(reference.as_str());
                text.append(": ");
                text.append(message.as_str());
                text
            },
            RegistryError::Pull { reference, message } => {
                let mut text = "pulling fact pack ".to_owned();
                text.append(reference.as_str());
                text.append(": ");
                text.append(message.as_str());
                text
            },
            RegistryError::ManifestJson(message) => {
                let mut text = "parsing fact-pack OCI manifest: ".to_owned();
                text.append(message.as_str());
                text
            },
            RegistryError::DigestMismatch { expected, actual } => {
                let mut text = "OCI artifact is ".to_owned();
                text.append(actual.as_str());
                text.append(", expected ");
                text.append(expected.as_str());
                text
            },
            RegistryError::ArtifactType(kind) => {
                let mut text = "OCI artifact type is ".to_owned();
                text.append(kind.as_str());
                text.append(", expected an Infact fact pack");
                text
            },
            RegistryError::InvalidSize { digest, size } => {
                let mut text = "OCI descriptor ".to_owned();
                text.append(digest.as_str());
                text.append(" has invalid size ");
                let number = signed_decimal_text(*size as i128);
                text.append(number.as_str());
                text
            },
            RegistryError::Limit { kind, limit } => {
                let mut text = "OCI ".to_owned();
                text.append(kind);
                text.append(" exceeds the configured ");
                append_decimal(&mut text, *limit as u128);
                text.append("-byte limit");
                text
            },
            RegistryError::Cache(error) => error.display(),
        }
    }
}

/// What a manifest says of a blob it refers to.
#[derive(Debug)]
pub struct RemoteDescriptor {
    pub digest: String,
    pub size: i64,
    /// Where else the blob can be downloaded from.
    pub urls: Option<Vec<String>>,
}

/// What a manifest says of an artifact.
#[derive(Debug)]
pub struct RemoteManifest {
    pub artifact_type: Option<String>,
    pub config: RemoteDescriptor,
    pub layers: Vec<RemoteDescriptor>,
}

/// The content of a [`RemoteDescriptor`]: its digest, its size, and where else it
/// is.
pub type RemoteView = (Seq<char>, i64, Option<Seq<Seq<char>>>);

impl View for RemoteDescriptor {
    type V = RemoteView;

    open spec fn view(&self) -> RemoteView {
        (
            self.digest@,
            self.size,
            match self.urls {
                Some(urls) => Some(text_list(urls@)),
                None => None,
            },
        )
    }
}

/// The contents of several descriptors.
pub open spec fn remote_views(descriptors: Seq<RemoteDescriptor>) -> Seq<RemoteView> {
    Seq::new(descriptors.len(), |i: int| descriptors[i]@)
}

/// A text that may be missing.
pub open spec fn maybe_text(text: Option<String>) -> Option<Seq<char>> {
    match text {
        Some(text) => Some(text@),
        None => None,
    }
}

impl View for RemoteManifest {
    type V = (Option<Seq<char>>, Seq<RemoteView>);

    open spec fn view(&self) -> (Option<Seq<char>>, Seq<RemoteView>) {
        (maybe_text(self.artifact_type), seq![self.config@] + remote_views(self.layers@))
    }
}

/// What the bytes of a manifest say of an artifact: its type, and its
/// configuration and then its layers; or what is wrong with them.
pub uninterp spec fn remote_manifest_of(bytes: Seq<u8>) -> Result<
    (Option<Seq<char>>, Seq<(Seq<char>, i64, Option<Seq<Seq<char>>>)>),
    Seq<char>,
>;

/// `serde_json::from_slice` reads an `oci_client::manifest::OciImageManifest`:
/// what it says, or the message of the error, is a function of the bytes. Its
/// fields are moved one for one.
#[verifier::external_body]
fn read_remote_manifest(bytes: &Vec<u8>) -> (result: Result<RemoteManifest, String>)
    ensures
        match result {
            Ok(manifest) => remote_manifest_of(bytes@) == Ok::<
                (Option<Seq<char>>, Seq<RemoteView>),
                Seq<char>,
            >(manifest@),
            Err(message) => remote_manifest_of(bytes@) == Err::<
                (Option<Seq<char>>, Seq<RemoteView>),
                Seq<char>,
            >(message@),
        },
{
    let manifest: OciImageManifest = serde_json::from_slice(bytes).map_err(
        |error| error.to_string(),
    )?;
    let plain = |blob: OciDescriptor| RemoteDescriptor {
        digest: blob.digest,
        size: blob.size,
        urls: blob.urls,
    };
    Ok(
        RemoteManifest {
            artifact_type: manifest.artifact_type,
            config: plain(manifest.config),
            layers: manifest.layers.into_iter().map(plain).collect(),
        },
    )
}

/// Where an artifact is: a repository of a registry, and which of its artifacts.
#[derive(Debug, PartialEq, Eq)]
pub struct RemoteReference {
    pub registry: String,
    pub repository: String,
    pub tag: Option<String>,
    pub digest: Option<String>,
}

impl View for RemoteReference {
    type V = (Seq<char>, Seq<char>, Option<Seq<char>>, Option<Seq<char>>);

    open spec fn view(&self) -> (Seq<char>, Seq<char>, Option<Seq<char>>, Option<Seq<char>>) {
        (self.registry@, self.repository@, maybe_text(self.tag), maybe_text(self.digest))
    }
}

/// The registry, repository, tag and digest that a reference names, or what is
/// wrong with it.
pub uninterp spec fn reference_of(text: Seq<char>) -> Result<
    (Seq<char>, Seq<char>, Option<Seq<char>>, Option<Seq<char>>),
    Seq<char>,
>;

/// `str::parse` of an `oci_client::Reference`: what it names, or the message of
/// the error, is a function of the text.
#[verifier::external_body]
fn parsed_reference(text: &str) -> (result: Result<RemoteReference, String>)
    ensures
        match result {
            Ok(reference) => reference_of(text@) == Ok::<
                (Seq<char>, Seq<char>, Option<Seq<char>>, Option<Seq<char>>),
                Seq<char>,
            >(reference@),
            Err(message) => reference_of(text@) == Err::<
                (Seq<char>, Seq<char>, Option<Seq<char>>, Option<Seq<char>>),
                Seq<char>,
            >(message@),
        },
{
    let parsed: Reference = text.parse().map_err(|error: ParseError| error.to_string())?;
    Ok(
        RemoteReference {
            registry: parsed.registry().to_owned(),
            repository: parsed.repository().to_owned(),
            tag: parsed.tag().map(str::to_owned),
            digest: parsed.digest().map(str::to_owned),
        },
    )
}

/// What is wrong with a manifest that came, before it is read.
pub open spec fn manifest_fault(
    limits: RegistryLimits,
    length: usize,
    digest: Seq<char>,
    expected: Option<Seq<char>>,
) -> Option<RegistryFault> {
    if length > limits.max_manifest_bytes {
        Some(RegistryFault::Limit("manifest"@, limits.max_manifest_bytes))
    } else {
        match expected {
            Some(expected) => if digest != expected {
                Some(RegistryFault::DigestMismatch(expected, digest))
            } else {
                None
            },
            None => None,
        }
    }
}

/// What is wrong with the blobs a manifest refers to, from a place on, given how
/// much comes before them.
pub open spec fn sizes_fault(
    limits: RegistryLimits,
    descriptors: Seq<RemoteView>,
    total: int,
    i: int,
) -> Option<RegistryFault>
    decreases descriptors.len() - i,
{
    if i < 0 || i >= descriptors.len() {
        None
    } else {
        let (digest, size, _) = descriptors[i];
        if size < 0 || size > usize::MAX {
            Some(RegistryFault::InvalidSize(digest, size))
        } else if size > limits.max_blob_bytes {
            Some(RegistryFault::Limit("blob"@, limits.max_blob_bytes))
        } else if total + size > limits.max_total_bytes {
            Some(RegistryFault::Limit("artifact"@, limits.max_total_bytes))
        } else {
            sizes_fault(limits, descriptors, total + size, i + 1)
        }
    }
}

/// What an artifact says it is.
pub open spec fn kind_text(artifact_type: Option<Seq<char>>) -> Seq<char> {
    match artifact_type {
        Some(kind) => kind,
        None => "<missing>"@,
    }
}

/// What is wrong with an artifact, before its blobs are downloaded.
pub open spec fn artifact_fault(
    limits: RegistryLimits,
    length: usize,
    artifact_type: Option<Seq<char>>,
    descriptors: Seq<RemoteView>,
) -> Option<RegistryFault> {
    if artifact_type != Some(FACT_PACK_ARTIFACT_MEDIA_TYPE@) {
        Some(RegistryFault::ArtifactType(kind_text(artifact_type)))
    } else {
        sizes_fault(limits, descriptors, length as int, 0)
    }
}

/// Whether a digest was listed before a place.
pub open spec fn listed_before(descriptors: Seq<RemoteView>, i: int) -> bool {
    exists|j: int| 0 <= j < i && #[trigger] descriptors[j].0 == descriptors[i].0
}

/// The places, of the first so many, of blobs that were not listed before.
pub open spec fn distinct_places(descriptors: Seq<RemoteView>, n: int) -> Seq<int>
    decreases n,
{
    if n <= 0 {
        Seq::empty()
    } else if listed_before(descriptors, n - 1) {
        distinct_places(descriptors, n - 1)
    } else {
        distinct_places(descriptors, n - 1).push(n - 1)
    }
}

/// Numbers, of whatever width.
pub open spec fn wide_places(places: Seq<usize>) -> Seq<int> {
    Seq::new(places.len(), |i: int| places[i] as int)
}

/// Those of several blobs that stand at some places.
pub open spec fn at_places(descriptors: Seq<RemoteView>, places: Seq<int>) -> Seq<RemoteView> {
    Seq::new(places.len(), |i: int| descriptors[places[i]])
}

/// What is downloaded for an artifact, given what its manifest was read as: each
/// digest once, in the order they are listed; or why nothing is.
pub open spec fn download_of(
    limits: RegistryLimits,
    length: usize,
    read: Result<(Option<Seq<char>>, Seq<RemoteView>), Seq<char>>,
) -> Result<Seq<RemoteView>, RegistryFault> {
    match read {
        Err(message) => Err(RegistryFault::ManifestJson(message)),
        Ok((artifact_type, descriptors)) => match artifact_fault(
            limits,
            length,
            artifact_type,
            descriptors,
        ) {
            Some(fault) => Err(fault),
            None => Ok(
                at_places(descriptors, distinct_places(descriptors, descriptors.len() as int)),
            ),
        },
    }
}

/// What is downloaded once the bytes of a manifest came under a digest; or why
/// nothing is.
pub open spec fn pull_of(
    limits: RegistryLimits,
    bytes: Seq<u8>,
    digest: Seq<char>,
    expected: Option<Seq<char>>,
) -> Result<Seq<RemoteView>, RegistryFault> {
    match manifest_fault(limits, bytes.len() as usize, digest, expected) {
        Some(fault) => Err(fault),
        None => download_of(limits, bytes.len() as usize, remote_manifest_of(bytes)),
    }
}

/// How much several blobs are together, from a place on.
pub open spec fn total_size(descriptors: Seq<RemoteView>, i: int) -> int
    decreases descriptors.len() - i,
{
    if i < 0 || i >= descriptors.len() {
        0
    } else {
        descriptors[i].1 + total_size(descriptors, i + 1)
    }
}

/// What is downloaded for an artifact stays within the limits: each blob, and all
/// of it together with the manifest.
pub proof fn law_a_pull_stays_within_limits(
    limits: RegistryLimits,
    descriptors: Seq<RemoteView>,
    total: int,
    i: int,
)
    requires
        0 <= i <= descriptors.len(),
        0 <= total,
        sizes_fault(limits, descriptors, total, i) is None,
    ensures
        forall|k: int|
            i <= k < descriptors.len() ==> 0 <= (#[trigger] descriptors[k]).1
                <= limits.max_blob_bytes,
        i < descriptors.len() ==> total + total_size(descriptors, i) <= limits.max_total_bytes,
    decreases descriptors.len() - i,
{
    if i < descriptors.len() {
        assert(i + 1 == descriptors.len() ==> total_size(descriptors, i + 1) == 0);
        law_a_pull_stays_within_limits(
            limits,
            descriptors,
            total + descriptors[i].1,
            i + 1,
        );
    }
}

/// The decisions of a client of a registry.
#[derive(Debug, Clone, Copy)]
pub struct FactPackRegistry {
    pub limits: RegistryLimits,
}

impl Default for FactPackRegistry {
    fn default() -> (registry: Self)
        ensures
            registry.limits.max_manifest_bytes == 4 * 1024 * 1024,
            registry.limits.max_blob_bytes == 256 * 1024 * 1024,
            registry.limits.max_total_bytes == 1024 * 1024 * 1024,
    {
        FactPackRegistry::new(RegistryLimits::default())
    }
}

impl FactPackRegistry {
    /// A client with limits.
    pub fn new(limits: RegistryLimits) -> (registry: Self)
        ensures
            registry.limits == limits,
    {
        FactPackRegistry { limits }
    }

    /// Where a pack is pulled from. A reference that names nothing is refused
    /// before anything is asked of a registry.
    pub fn reference(&self, text: &str) -> (result: Result<RemoteReference, RegistryError>)
        ensures
            match result {
                Ok(reference) => reference_of(text@) == Ok::<
                    (Seq<char>, Seq<char>, Option<Seq<char>>, Option<Seq<char>>),
                    Seq<char>,
                >(reference@),
                Err(error) => reference_of(text@) matches Err(message) && error@
                    == RegistryFault::Reference(text@, message),
            },
    {
        match parsed_reference(text) {
            Ok(reference) => Ok(reference),
            Err(message) => Err(RegistryError::Reference { reference: text.to_owned(), message }),
        }
    }

    /// What is downloaded once a manifest came: its bytes are checked, read, and
    /// checked for what they refer to.
    pub fn plan_bytes(&self, bytes: &Vec<u8>, digest: &str, expected: Option<&str>) -> (result:
        Result<Vec<RemoteDescriptor>, RegistryError>)
        ensures
            pulled_views(result) == pull_of(
                self.limits,
                bytes@,
                digest@,
                match expected {
                    Some(expected) => Some(expected@),
                    None => None,
                },
            ),
    {
        if let Err(error) = self.check_manifest(bytes.len(), digest, expected) {
            return Err(error);
        }
        match read_remote_manifest(bytes) {
            Ok(manifest) => self.plan_manifest(bytes.len(), manifest),
            Err(message) => Err(RegistryError::ManifestJson(message)),
        }
    }

    /// What is downloaded for a manifest of some length.
    pub fn plan_manifest(&self, length: usize, manifest: RemoteManifest) -> (result: Result<
        Vec<RemoteDescriptor>,
        RegistryError,
    >)
        ensures
            pulled_views(result) == download_of(
                self.limits,
                length,
                Ok::<(Option<Seq<char>>, Seq<RemoteView>), Seq<char>>(manifest@),
            ),
    {
        let ghost all = manifest@.1;
        let RemoteManifest { artifact_type, config, layers } = manifest;
        let descriptors = behind_first(config, layers);
        assert(remote_views(descriptors@) =~= all);
        let kind = match &artifact_type {
            Some(kind) => Some(kind.as_str()),
            None => None,
        };
        match self.plan_pull(length, kind, &descriptors) {
            Ok(places) => {
                proof {
                    lemma_places_within(all, all.len() as int);
                    assert forall|i: int| 0 <= i < places@.len() implies (#[trigger] places@[i])
                        < descriptors@.len() by {
                        assert(wide_places(places@)[i] == places@[i]);
                    }
                }
                let chosen = picked_blobs(&descriptors, &places);
                assert(remote_views(chosen@) =~= at_places(all, wide_places(places@)));
                Ok(chosen)
            },
            Err(error) => Err(error),
        }
    }

    /// Checks a manifest that came, before it is read.
    pub fn check_manifest(&self, length: usize, digest: &str, expected: Option<&str>) -> (result:
        Result<(), RegistryError>)
        ensures
            match result {
                Ok(()) => manifest_fault(
                    self.limits,
                    length,
                    digest@,
                    match expected {
                        Some(expected) => Some(expected@),
                        None => None,
                    },
                ) is None,
                Err(error) => manifest_fault(
                    self.limits,
                    length,
                    digest@,
                    match expected {
                        Some(expected) => Some(expected@),
                        None => None,
                    },
                ) == Some(error@),
            },
    {
        if length > self.limits.max_manifest_bytes {
            return Err(
                RegistryError::Limit { kind: "manifest", limit: self.limits.max_manifest_bytes },
            );
        }
        if let Some(expected) = expected {
            if !same_text(digest, expected) {
                return Err(
                    RegistryError::DigestMismatch {
                        expected: expected.to_owned(),
                        actual: digest.to_owned(),
                    },
                );
            }
        }
        Ok(())
    }

    /// Which of the blobs that a manifest refers to are downloaded: each digest
    /// once, in the order they are listed, where all of them stay within the
    /// limits.
    #[verifier::loop_isolation(false)]
    pub fn plan_pull(
        &self,
        length: usize,
        artifact_type: Option<&str>,
        descriptors: &Vec<RemoteDescriptor>,
    ) -> (result: Result<Vec<usize>, RegistryError>)
        ensures
            match result {
                Ok(places) => {
                    &&& artifact_fault(
                        self.limits,
                        length,
                        match artifact_type {
                            Some(kind) => Some(kind@),
                            None => None,
                        },
                        remote_views(descriptors@),
                    ) is None
                    &&& wide_places(places@) == distinct_places(
                        remote_views(descriptors@),
                        descriptors@.len() as int,
                    )
                },
                Err(error) => artifact_fault(
                    self.limits,
                    length,
                    match artifact_type {
                        Some(kind) => Some(kind@),
                        None => None,
                    },
                    remote_views(descriptors@),
                ) == Some(error@),
            },
    {
        let ghost all = remote_views(descriptors@);
        match artifact_type {
            Some(kind) => {
                if !same_text(kind, FACT_PACK_ARTIFACT_MEDIA_TYPE) {
                    return Err(RegistryError::ArtifactType(kind.to_owned()));
                }
            },
            None => {
                return Err(RegistryError::ArtifactType("<missing>".to_owned()));
            },
        }
        let mut total: usize = length;
        let mut i: usize = 0;
        while i < descriptors.len()
            invariant
                i <= descriptors@.len(),
                sizes_fault(self.limits, all, length as int, 0) == sizes_fault(
                    self.limits,
                    all,
                    total as int,
                    i as int,
                ),
            decreases descriptors@.len() - i,
        {
            let size: i64 = descriptors[i].size;
            assert(all[i as int] == descriptors@[i as int]@);
            if size < 0 || size as u64 > usize::MAX as u64 {
                return Err(
                    RegistryError::InvalidSize { digest: descriptors[i].digest.clone(), size },
                );
            }
            let size: usize = size as usize;
            if size > self.limits.max_blob_bytes {
                return Err(
                    RegistryError::Limit { kind: "blob", limit: self.limits.max_blob_bytes },
                );
            }
            match total.checked_add(size) {
                Some(sum) => {
                    if sum > self.limits.max_total_bytes {
                        return Err(
                            RegistryError::Limit {
                                kind: "artifact",
                                limit: self.limits.max_total_bytes,
                            },
                        );
                    }
                    total = sum;
                },
                None => {
                    return Err(
                        RegistryError::Limit {
                            kind: "artifact",
                            limit: self.limits.max_total_bytes,
                        },
                    );
                },
            }
            i += 1;
        }
        Ok(distinct_blobs(descriptors))
    }
}

/// What a pull downloads, or why it fails.
pub open spec fn pulled_views(result: Result<Vec<RemoteDescriptor>, RegistryError>) -> Result<
    Seq<RemoteView>,
    RegistryFault,
> {
    match result {
        Ok(blobs) => Ok(remote_views(blobs@)),
        Err(error) => Err(error@),
    }
}

/// The places of distinct blobs are places of blobs.
proof fn lemma_places_within(descriptors: Seq<RemoteView>, n: int)
    ensures
        forall|i: int|
            0 <= i < distinct_places(descriptors, n).len() ==> 0 <= #[trigger] distinct_places(
                descriptors,
                n,
            )[i] < n,
    decreases n,
{
    if n > 0 {
        let before = distinct_places(descriptors, n - 1);
        lemma_places_within(descriptors, n - 1);
        assert forall|i: int| 0 <= i < distinct_places(descriptors, n).len() implies 0
            <= #[trigger] distinct_places(descriptors, n)[i] < n by {
            if i < before.len() {
                assert(distinct_places(descriptors, n)[i] == before[i]);
            }
        }
    }
}

/// One descriptor and those behind it.
fn behind_first(first: RemoteDescriptor, rest: Vec<RemoteDescriptor>) -> (all: Vec<
    RemoteDescriptor,
>)
    ensures
        all@ == seq![first] + rest@,
{
    let ghost before = rest@;
    let mut all = rest;
    all.insert(0, first);
    assert(all@ =~= seq![first] + before);
    all
}

/// Texts copied.
fn copied_texts(texts: &Vec<String>) -> (copied: Vec<String>)
    ensures
        text_list(copied@) == text_list(texts@),
{
    let mut copied: Vec<String> = Vec::new();
    for k in 0..texts.len()
        invariant
            copied@.len() == k,
            forall|i: int| 0 <= i < k ==> (#[trigger] copied@[i])@ == texts@[i]@,
    {
        copied.push(texts[k].clone());
    }
    assert(text_list(copied@) =~= text_list(texts@));
    copied
}

/// A descriptor copied.
fn copied_blob(blob: &RemoteDescriptor) -> (copy: RemoteDescriptor)
    ensures
        copy@ == blob@,
{
    let urls = match &blob.urls {
        Some(urls) => Some(copied_texts(urls)),
        None => None,
    };
    RemoteDescriptor { digest: blob.digest.clone(), size: blob.size, urls }
}

/// The descriptors at some places.
fn picked_blobs(descriptors: &Vec<RemoteDescriptor>, places: &Vec<usize>) -> (picked: Vec<
    RemoteDescriptor,
>)
    requires
        forall|i: int| 0 <= i < places@.len() ==> (#[trigger] places@[i]) < descriptors@.len(),
    ensures
        remote_views(picked@) == at_places(remote_views(descriptors@), wide_places(places@)),
{
    let mut picked: Vec<RemoteDescriptor> = Vec::new();
    for k in 0..places.len()
        invariant
            forall|i: int| 0 <= i < places@.len() ==> (#[trigger] places@[i]) < descriptors@.len(),
            picked@.len() == k,
            forall|i: int|
                0 <= i < k ==> (#[trigger] picked@[i])@ == descriptors@[places@[i] as int]@,
    {
        picked.push(copied_blob(&descriptors[places[k]]));
    }
    assert(remote_views(picked@) =~= at_places(remote_views(descriptors@), wide_places(places@)));
    picked
}

/// The places of blobs that were not listed before.
#[verifier::loop_isolation(false)]
fn distinct_blobs(descriptors: &Vec<RemoteDescriptor>) -> (places: Vec<usize>)
    ensures
        wide_places(places@) == distinct_places(
            remote_views(descriptors@),
            descriptors@.len() as int,
        ),
{
    let ghost all = remote_views(descriptors@);
    let mut places: Vec<usize> = Vec::new();
    let mut i: usize = 0;
    assert(wide_places(places@) =~= Seq::empty());
    while i < descriptors.len()
        invariant
            i <= descriptors@.len(),
            wide_places(places@) == distinct_places(all, i as int),
        decreases descriptors@.len() - i,
    {
        assert(all[i as int] == descriptors@[i as int]@);
        let mut j: usize = 0;
        let mut listed = false;
        while j < i && !listed
            invariant
                j <= i,
                listed ==> listed_before(all, i as int),
                !listed ==> forall|k: int| 0 <= k < j ==> #[trigger] all[k].0 != all[i as int].0,
            decreases i - j + if listed {
                0int
            } else {
                1
            },
        {
            assert(all[j as int] == descriptors@[j as int]@);
            if same_text(descriptors[j].digest.as_str(), descriptors[i].digest.as_str()) {
                assert(all[j as int].0 == all[i as int].0);
                listed = true;
            } else {
                j += 1;
            }
        }
        if !listed {
            assert(!listed_before(all, i as int));
            let ghost before = places@;
            places.push(i);
            assert(wide_places(places@) =~= wide_places(before).push(i as int));
        }
        i += 1;
    }
    places
}

/// Tags in order, each once.
pub fn listed_tags(tags: Vec<String>) -> (listed: Vec<String>)
    ensures
        keys(listed@) == settled_of::<String>(keys(tags@)),
{
    settled_list(tags)
}

} // verus!
