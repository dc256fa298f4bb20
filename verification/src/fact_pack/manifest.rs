//! The manifest of a fact pack, independent of storage and transport.

use super::names::NameSet;
use super::rules::{
    capability_faults, is_media_type, is_safe_path, media_type, sha256_faults, slug_faults,
    text_faults, unless,
};
use crate::digest::{sha256_hex, sha256_text};
use crate::normalize::form::optional_text;
use crate::text::{decimal, number_order, settled_by, text_order, Comparison};
use vstd::prelude::*;
use vstd::string::*;

verus! {

pub const FACT_PACK_SCHEMA: u32 = 1;

pub const FACT_PACK_ARTIFACT_MEDIA_TYPE: &'static str = "application/vnd.infact.fact-pack.v1";

pub const FACT_PACK_CONFIG_MEDIA_TYPE: &'static str = "application/vnd.infact.fact-pack.v1+toml";

/// What a pack holds, what it was derived from, and what it can be used with.
#[derive(Debug)]
pub struct FactPackManifest {
    pub schema: u32,
    pub name: String,
    pub revision: u32,
    pub subject: Subject,
    pub sources: Vec<SourceInput>,
    pub derivation: Derivation,
    pub compatibility: Compatibility,
    pub provides: NameSet,
    pub requires: NameSet,
    pub contents: Vec<Content>,
}

/// What a pack is about.
#[derive(Debug)]
pub struct Subject {
    pub kind: SubjectKind,
    pub language: String,
    pub ecosystem: Option<String>,
    pub name: String,
    pub version: String,
}

/// Something a pack was derived from.
#[derive(Debug)]
pub struct SourceInput {
    pub kind: SourceKind,
    pub name: String,
    pub version: String,
    pub sha256: String,
}

/// What kind of thing a pack was derived from.
#[derive(Debug, Clone, Copy, PartialEq, Eq, PartialOrd, Ord, Structural)]
pub enum SourceKind {
    Package,
    Repository,
    Toolchain,
}

/// What kind of thing a pack is about.
#[derive(Debug, Clone, Copy, PartialEq, Eq, Structural)]
pub enum SubjectKind {
    Language,
    Library,
}

/// What a pack was derived by.
#[derive(Debug)]
pub struct Derivation {
    pub generator: String,
    pub generator_version: String,
    pub analyzer_sha256: String,
}

/// What a pack can be used with.
#[derive(Debug)]
pub struct Compatibility {
    pub compiler: Option<Compiler>,
    pub target: Option<Target>,
    pub package_features: NameSet,
}

/// A compiler.
#[derive(Debug)]
pub struct Compiler {
    pub name: String,
    pub version: String,
    pub commit: Option<String>,
}

/// A compilation target.
#[derive(Debug)]
pub struct Target {
    pub triple: String,
    pub cpu: Option<String>,
    pub features: NameSet,
    pub cfg: NameSet,
}

/// One blob that a pack holds.
#[derive(Debug)]
pub struct Content {
    pub path: String,
    pub kind: String,
    pub media_type: String,
    pub sha256: String,
}

/// The content of a [`Subject`].
pub struct SubjectView {
    pub kind: SubjectKind,
    pub language: Seq<char>,
    pub ecosystem: Option<Seq<char>>,
    pub name: Seq<char>,
    pub version: Seq<char>,
}

/// The content of a [`SourceInput`].
pub struct SourceView {
    pub kind: SourceKind,
    pub name: Seq<char>,
    pub version: Seq<char>,
    pub sha256: Seq<char>,
}

/// The content of a [`Derivation`].
pub struct DerivationView {
    pub generator: Seq<char>,
    pub generator_version: Seq<char>,
    pub analyzer_sha256: Seq<char>,
}

/// The content of a [`Compiler`].
pub struct CompilerView {
    pub name: Seq<char>,
    pub version: Seq<char>,
    pub commit: Option<Seq<char>>,
}

/// The content of a [`Target`].
pub struct TargetView {
    pub triple: Seq<char>,
    pub cpu: Option<Seq<char>>,
    pub features: Seq<Seq<char>>,
    pub cfg: Seq<Seq<char>>,
}

/// The content of a [`Compatibility`].
pub struct CompatibilityView {
    pub compiler: Option<CompilerView>,
    pub target: Option<TargetView>,
    pub package_features: Seq<Seq<char>>,
}

/// The content of a [`Content`].
pub struct ContentView {
    pub path: Seq<char>,
    pub kind: Seq<char>,
    pub media_type: Seq<char>,
    pub sha256: Seq<char>,
}

/// The content of a [`FactPackManifest`].
pub struct ManifestView {
    pub schema: u32,
    pub name: Seq<char>,
    pub revision: u32,
    pub subject: SubjectView,
    pub sources: Seq<SourceView>,
    pub derivation: DerivationView,
    pub compatibility: CompatibilityView,
    pub provides: Seq<Seq<char>>,
    pub requires: Seq<Seq<char>>,
    pub contents: Seq<ContentView>,
}

impl View for Subject {
    type V = SubjectView;

    open spec fn view(&self) -> SubjectView {
        SubjectView {
            kind: self.kind,
            language: self.language@,
            ecosystem: optional_text(self.ecosystem),
            name: self.name@,
            version: self.version@,
        }
    }
}

impl View for SourceInput {
    type V = SourceView;

    open spec fn view(&self) -> SourceView {
        SourceView {
            kind: self.kind,
            name: self.name@,
            version: self.version@,
            sha256: self.sha256@,
        }
    }
}

/// The contents of sources.
pub open spec fn source_views(sources: Seq<SourceInput>) -> Seq<SourceView> {
    Seq::new(sources.len(), |i: int| sources[i]@)
}

impl View for Derivation {
    type V = DerivationView;

    open spec fn view(&self) -> DerivationView {
        DerivationView {
            generator: self.generator@,
            generator_version: self.generator_version@,
            analyzer_sha256: self.analyzer_sha256@,
        }
    }
}

impl View for Compiler {
    type V = CompilerView;

    open spec fn view(&self) -> CompilerView {
        CompilerView {
            name: self.name@,
            version: self.version@,
            commit: optional_text(self.commit),
        }
    }
}

impl View for Target {
    type V = TargetView;

    open spec fn view(&self) -> TargetView {
        TargetView {
            triple: self.triple@,
            cpu: optional_text(self.cpu),
            features: self.features@,
            cfg: self.cfg@,
        }
    }
}

impl View for Compatibility {
    type V = CompatibilityView;

    open spec fn view(&self) -> CompatibilityView {
        CompatibilityView {
            compiler: match self.compiler {
                Some(compiler) => Some(compiler@),
                None => None,
            },
            target: match self.target {
                Some(target) => Some(target@),
                None => None,
            },
            package_features: self.package_features@,
        }
    }
}

impl View for Content {
    type V = ContentView;

    open spec fn view(&self) -> ContentView {
        ContentView {
            path: self.path@,
            kind: self.kind@,
            media_type: self.media_type@,
            sha256: self.sha256@,
        }
    }
}

/// The contents of blobs.
pub open spec fn content_views(contents: Seq<Content>) -> Seq<ContentView> {
    Seq::new(contents.len(), |i: int| contents[i]@)
}

impl View for FactPackManifest {
    type V = ManifestView;

    open spec fn view(&self) -> ManifestView {
        ManifestView {
            schema: self.schema,
            name: self.name@,
            revision: self.revision,
            subject: self.subject@,
            sources: source_views(self.sources@),
            derivation: self.derivation@,
            compatibility: self.compatibility@,
            provides: self.provides@,
            requires: self.requires@,
            contents: content_views(self.contents@),
        }
    }
}

/// Why a manifest or what it declares cannot be used.
#[derive(Debug)]
pub enum ManifestError {
    Parse(String),
    Serialize(String),
    Invalid(String),
    ReadContent { path: String, message: String },
    ContentEscapesRoot { path: String },
    ContentDigest { path: String, expected: String, actual: String },
    OciJson(String),
    OutputNotEmpty { path: String },
    Io { operation: &'static str, path: String, message: String },
    UnsupportedTreeEntry { path: String, reason: &'static str },
}

impl Clone for ManifestError {
    fn clone(&self) -> (copy: Self)
        ensures
            manifest_error_text(copy) == manifest_error_text(*self),
    {
        match self {
            ManifestError::Parse(message) => ManifestError::Parse(message.clone()),
            ManifestError::Serialize(message) => ManifestError::Serialize(message.clone()),
            ManifestError::Invalid(message) => ManifestError::Invalid(message.clone()),
            ManifestError::ReadContent { path, message } => ManifestError::ReadContent {
                path: path.clone(),
                message: message.clone(),
            },
            ManifestError::ContentEscapesRoot { path } => ManifestError::ContentEscapesRoot {
                path: path.clone(),
            },
            ManifestError::ContentDigest { path, expected, actual } => {
                ManifestError::ContentDigest {
                    path: path.clone(),
                    expected: expected.clone(),
                    actual: actual.clone(),
                }
            },
            ManifestError::OciJson(message) => ManifestError::OciJson(message.clone()),
            ManifestError::OutputNotEmpty { path } => ManifestError::OutputNotEmpty {
                path: path.clone(),
            },
            ManifestError::Io { operation, path, message } => ManifestError::Io {
                operation: *operation,
                path: path.clone(),
                message: message.clone(),
            },
            ManifestError::UnsupportedTreeEntry { path, reason } => {
                ManifestError::UnsupportedTreeEntry { path: path.clone(), reason: *reason }
            },
        }
    }
}

/// What an error says.
pub open spec fn manifest_error_text(error: ManifestError) -> Seq<char> {
    match error {
        ManifestError::Parse(message) => "parsing fact-pack TOML: "@ + message@,
        ManifestError::Serialize(message) => "serializing fact-pack TOML: "@ + message@,
        ManifestError::Invalid(message) => "invalid fact-pack manifest: "@ + message@,
        ManifestError::ReadContent { path, message } => "reading fact-pack content "@ + path@
            + ": "@ + message@,
        ManifestError::ContentEscapesRoot { path } => "fact-pack content "@ + path@
            + " escapes the pack root"@,
        ManifestError::ContentDigest { path, expected, actual } => "fact-pack content "@ + path@
            + " has digest "@ + actual@ + ", expected "@ + expected@,
        ManifestError::OciJson(message) => "serializing OCI metadata: "@ + message@,
        ManifestError::OutputNotEmpty { path } => "OCI output directory "@ + path@
            + " is not empty"@,
        ManifestError::Io { operation, path, message } => operation@ + " "@ + path@ + ": "@
            + message@,
        ManifestError::UnsupportedTreeEntry { path, reason } =>
            "fact-pack source tree contains unsupported entry "@ + path@ + ": "@ + reason@,
    }
}

impl ManifestError {
    /// What the error says.
    pub fn display(&self) -> (text: String)
        ensures
            text@ == manifest_error_text(*self),
    {
        match self {
            ManifestError::Parse(message) => {
                let mut text = "parsing fact-pack TOML: ".to_owned();
                text.append(message.as_str());
                text
            },
            ManifestError::Serialize(message) => {
                let mut text = "serializing fact-pack TOML: ".to_owned();
                text.append(message.as_str());
                text
            },
            ManifestError::Invalid(message) => {
                let mut text = "invalid fact-pack manifest: ".to_owned();
                text.append(message.as_str());
                text
            },
            ManifestError::ReadContent { path, message } => {
                let mut text = "reading fact-pack content ".to_owned();
                text.append(path.as_str());
                text.append(": ");
                text.append(message.as_str());
                text
            },
            ManifestError::ContentEscapesRoot { path } => {
                let mut text = "fact-pack content ".to_owned();
                text.append(path.as_str());
                text.append(" escapes the pack root");
                text
            },
            ManifestError::ContentDigest { path, expected, actual } => {
                let mut text = "fact-pack content ".to_owned();
                text.append(path.as_str());
                text.append(" has digest ");
                text.append(actual.as_str());
                text.append(", expected ");
                text.append(expected.as_str());
                text
            },
            ManifestError::OciJson(message) => {
                let mut text = "serializing OCI metadata: ".to_owned();
                text.append(message.as_str());
                text
            },
            ManifestError::OutputNotEmpty { path } => {
                let mut text = "OCI output directory ".to_owned();
                text.append(path.as_str());
                text.append(" is not empty");
                text
            },
            ManifestError::Io { operation, path, message } => {
                let mut text = (*operation).to_owned();
                text.append(" ");
                text.append(path.as_str());
                text.append(": ");
                text.append(message.as_str());
                text
            },
            ManifestError::UnsupportedTreeEntry { path, reason } => {
                let mut text = "fact-pack source tree contains unsupported entry ".to_owned();
                text.append(path.as_str());
                text.append(": ");
                text.append(reason);
                text
            },
        }
    }
}

/// A digest as it is written: the algorithm, and the digest in hexadecimal.
pub open spec fn digest_of(bytes: Seq<u8>) -> Seq<char> {
    "sha256:"@ + sha256_text(bytes)
}

/// The digest of bytes, as it is written.
pub fn sha256(bytes: &Vec<u8>) -> (digest: String)
    ensures
        digest@ == digest_of(bytes@),
{
    let mut digest = "sha256:".to_owned();
    let hex = sha256_hex(bytes);
    digest.append(hex.as_str());
    digest
}

/// What is wrong with a subject.
pub open spec fn subject_faults(subject: SubjectView) -> Seq<Seq<char>> {
    slug_faults("subject.language"@, subject.language) + match subject.ecosystem {
        Some(ecosystem) => slug_faults("subject.ecosystem"@, ecosystem),
        None => unless(
            subject.kind != SubjectKind::Library,
            "subject.ecosystem is required for a library"@,
        ),
    } + slug_faults("subject.name"@, subject.name) + text_faults(
        "subject.version"@,
        subject.version,
    )
}

/// What is wrong with a source.
pub open spec fn source_faults(source: SourceView) -> Seq<Seq<char>> {
    text_faults("sources.name"@, source.name) + text_faults("sources.version"@, source.version)
        + sha256_faults("sources.sha256"@, source.sha256)
}

/// What is wrong with a derivation.
pub open spec fn derivation_faults(derivation: DerivationView) -> Seq<Seq<char>> {
    slug_faults("derivation.generator"@, derivation.generator) + text_faults(
        "derivation.generator-version"@,
        derivation.generator_version,
    ) + sha256_faults("derivation.analyzer-sha256"@, derivation.analyzer_sha256)
}

/// What is wrong with the first so many of several texts.
pub open spec fn each_text_faults(field: Seq<char>, values: Seq<Seq<char>>, n: int) -> Seq<
    Seq<char>,
>
    decreases n,
{
    if n <= 0 {
        Seq::empty()
    } else {
        each_text_faults(field, values, n - 1) + text_faults(field, values[n - 1])
    }
}

/// What is wrong with the first so many of several capabilities.
pub open spec fn each_capability_faults(field: Seq<char>, values: Seq<Seq<char>>, n: int) -> Seq<
    Seq<char>,
>
    decreases n,
{
    if n <= 0 {
        Seq::empty()
    } else {
        each_capability_faults(field, values, n - 1) + capability_faults(field, values[n - 1])
    }
}

/// What is wrong with an optional text.
pub open spec fn optional_text_faults(field: Seq<char>, value: Option<Seq<char>>) -> Seq<
    Seq<char>,
> {
    match value {
        Some(value) => text_faults(field, value),
        None => Seq::empty(),
    }
}

/// What is wrong with a compiler.
pub open spec fn compiler_faults(compiler: CompilerView) -> Seq<Seq<char>> {
    slug_faults("compatibility.compiler.name"@, compiler.name) + text_faults(
        "compatibility.compiler.version"@,
        compiler.version,
    ) + optional_text_faults("compatibility.compiler.commit"@, compiler.commit)
}

/// What is wrong with a target.
pub open spec fn target_faults(target: TargetView) -> Seq<Seq<char>> {
    text_faults("compatibility.target.triple"@, target.triple) + optional_text_faults(
        "compatibility.target.cpu"@,
        target.cpu,
    ) + each_text_faults(
        "compatibility.target.features"@,
        target.features,
        target.features.len() as int,
    ) + each_text_faults("compatibility.target.cfg"@, target.cfg, target.cfg.len() as int)
}

/// What is wrong with a compatibility.
pub open spec fn compatibility_faults(compatibility: CompatibilityView) -> Seq<Seq<char>> {
    (match compatibility.compiler {
        Some(compiler) => compiler_faults(compiler),
        None => Seq::empty(),
    }) + (match compatibility.target {
        Some(target) => target_faults(target),
        None => Seq::empty(),
    }) + each_text_faults(
        "compatibility.package-features"@,
        compatibility.package_features,
        compatibility.package_features.len() as int,
    )
}

/// What is wrong with a declared blob.
pub open spec fn content_faults(content: ContentView) -> Seq<Seq<char>> {
    unless(
        is_safe_path(content.path),
        "contents.path `"@ + content.path + "` must be a normalized relative path"@,
    ) + slug_faults("contents.kind"@, content.kind) + unless(
        is_media_type(content.media_type),
        "contents.media-type `"@ + content.media_type + "` is not a media type"@,
    ) + sha256_faults("contents.sha256"@, content.sha256)
}

/// Where a kind of source stands among all.
pub open spec fn source_rank(kind: SourceKind) -> u32 {
    match kind {
        SourceKind::Package => 0,
        SourceKind::Repository => 1,
        SourceKind::Toolchain => 2,
    }
}

/// How two sources compare: by kind, name and version.
pub open spec fn source_order(left: SourceView, right: SourceView) -> Comparison {
    settled_by(
        number_order(source_rank(left.kind) as int, source_rank(right.kind) as int),
        settled_by(text_order(left.name, right.name), text_order(left.version, right.version)),
    )
}

/// What is wrong with sources from a place on. The first that does not come
/// after the one before it ends the list of faults.
pub open spec fn sources_faults(sources: Seq<SourceView>, i: int) -> Seq<Seq<char>>
    decreases sources.len() - i,
{
    if i < 0 || i >= sources.len() {
        Seq::empty()
    } else if i > 0 && source_order(sources[i - 1], sources[i]) != Comparison::Less {
        source_faults(sources[i]) + seq![
            "sources must be sorted by unique kind, name, and version"@,
        ]
    } else {
        source_faults(sources[i]) + sources_faults(sources, i + 1)
    }
}

/// What is wrong with declared blobs from a place on. The first that does not
/// come after the one before it ends the list of faults.
pub open spec fn contents_faults(contents: Seq<ContentView>, i: int) -> Seq<Seq<char>>
    decreases contents.len() - i,
{
    if i < 0 || i >= contents.len() {
        Seq::empty()
    } else if i > 0 && text_order(contents[i - 1].path, contents[i].path) != Comparison::Less {
        content_faults(contents[i]) + seq!["contents must be sorted by unique path"@]
    } else {
        content_faults(contents[i]) + contents_faults(contents, i + 1)
    }
}

/// What is wrong with the schema of a manifest.
pub open spec fn schema_faults(schema: u32) -> Seq<Seq<char>> {
    unless(
        schema == FACT_PACK_SCHEMA,
        "schema is "@ + decimal(schema as nat) + ", supported schema is "@ + decimal(
            FACT_PACK_SCHEMA as nat,
        ),
    )
}

/// What is wrong with a manifest, in the order it is said.
pub open spec fn manifest_faults(manifest: ManifestView) -> Seq<Seq<char>> {
    schema_faults(manifest.schema) + slug_faults("name"@, manifest.name) + unless(
        manifest.revision != 0,
        "revision must be at least 1"@,
    ) + subject_faults(manifest.subject) + unless(
        manifest.sources.len() > 0,
        "sources must contain at least one derivation input"@,
    ) + sources_faults(manifest.sources, 0) + derivation_faults(manifest.derivation)
        + compatibility_faults(manifest.compatibility) + unless(
        manifest.provides.len() > 0,
        "provides must contain at least one fact capability"@,
    ) + each_capability_faults(
        "provides"@,
        manifest.provides,
        manifest.provides.len() as int,
    ) + each_capability_faults(
        "requires"@,
        manifest.requires,
        manifest.requires.len() as int,
    ) + unless(
        manifest.contents.len() > 0,
        "contents must contain at least one blob"@,
    ) + contents_faults(manifest.contents, 0)
}

/// Whether nothing is wrong with a manifest.
pub open spec fn is_valid(manifest: ManifestView) -> bool {
    manifest_faults(manifest).len() == 0
}

/// Messages with semicolons between.
pub open spec fn joined_messages(list: Seq<Seq<char>>) -> Seq<char>
    decreases list.len(),
{
    if list.len() == 0 {
        Seq::empty()
    } else if list.len() == 1 {
        list[0]
    } else {
        joined_messages(list.drop_last()) + "; "@ + list.last()
    }
}

} // verus!
