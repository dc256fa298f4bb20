//! Copying manifests and telling whether two are the same.

use super::manifest::{
    content_views, source_views, Compatibility, Compiler, Content, Derivation, FactPackManifest,
    SourceInput, Subject, Target,
};
use super::names::NameSet;
use crate::normalize::form::optional_text;
use crate::text::same_text;
use vstd::prelude::*;

verus! {

/// A copy of an optional text.
fn copied_text(text: &Option<String>) -> (copy: Option<String>)
    ensures
        optional_text(copy) == optional_text(*text),
{
    match text {
        Some(text) => Some(text.clone()),
        None => None,
    }
}

/// Whether two optional texts are the same.
fn same_optional(left: &Option<String>, right: &Option<String>) -> (same: bool)
    ensures
        same == (optional_text(*left) == optional_text(*right)),
{
    match (left, right) {
        (Some(left), Some(right)) => same_text(left.as_str(), right.as_str()),
        (None, None) => true,
        _ => false,
    }
}

impl Clone for Subject {
    fn clone(&self) -> (copy: Self)
        ensures
            copy@ == self@,
    {
        Subject {
            kind: self.kind,
            language: self.language.clone(),
            ecosystem: copied_text(&self.ecosystem),
            name: self.name.clone(),
            version: self.version.clone(),
        }
    }
}

impl Subject {
    /// Whether two subjects are the same.
    pub fn same(&self, other: &Subject) -> (same: bool)
        ensures
            same == (self@ == other@),
    {
        self.kind == other.kind && same_text(self.language.as_str(), other.language.as_str())
            && same_optional(&self.ecosystem, &other.ecosystem) && same_text(
            self.name.as_str(),
            other.name.as_str(),
        ) && same_text(self.version.as_str(), other.version.as_str())
    }
}

impl Clone for SourceInput {
    fn clone(&self) -> (copy: Self)
        ensures
            copy@ == self@,
    {
        SourceInput {
            kind: self.kind,
            name: self.name.clone(),
            version: self.version.clone(),
            sha256: self.sha256.clone(),
        }
    }
}

impl SourceInput {
    /// Whether two sources are the same.
    pub fn same(&self, other: &SourceInput) -> (same: bool)
        ensures
            same == (self@ == other@),
    {
        self.kind == other.kind && same_text(self.name.as_str(), other.name.as_str()) && same_text(
            self.version.as_str(),
            other.version.as_str(),
        ) && same_text(self.sha256.as_str(), other.sha256.as_str())
    }
}

/// A copy of sources.
pub(crate) fn copied_sources(sources: &Vec<SourceInput>) -> (copy: Vec<SourceInput>)
    ensures
        source_views(copy@) == source_views(sources@),
{
    let ghost all = source_views(sources@);
    let mut copy: Vec<SourceInput> = Vec::new();
    let mut i: usize = 0;
    while i < sources.len()
        invariant
            i <= sources@.len(),
            all == source_views(sources@),
            source_views(copy@) =~= all.take(i as int),
        decreases sources@.len() - i,
    {
        let ghost before = copy@;
        let one = sources[i].clone();
        copy.push(one);
        assert(source_views(copy@) =~= source_views(before).push(all[i as int]));
        i += 1;
    }
    assert(all.take(i as int) =~= all);
    copy
}

/// Whether two lists of sources are the same.
pub(crate) fn same_sources(left: &Vec<SourceInput>, right: &Vec<SourceInput>) -> (same: bool)
    ensures
        same == (source_views(left@) == source_views(right@)),
{
    let ghost one = source_views(left@);
    let ghost two = source_views(right@);
    if left.len() != right.len() {
        assert(one.len() != two.len());
        return false;
    }
    let mut i: usize = 0;
    while i < left.len()
        invariant
            i <= left@.len() == right@.len(),
            one == source_views(left@),
            two == source_views(right@),
            forall|k: int| 0 <= k < i ==> #[trigger] one[k] == two[k],
        decreases left@.len() - i,
    {
        assert(one[i as int] == left@[i as int]@ && two[i as int] == right@[i as int]@);
        if !left[i].same(&right[i]) {
            return false;
        }
        i += 1;
    }
    assert(one =~= two);
    true
}

impl Clone for Derivation {
    fn clone(&self) -> (copy: Self)
        ensures
            copy@ == self@,
    {
        Derivation {
            generator: self.generator.clone(),
            generator_version: self.generator_version.clone(),
            analyzer_sha256: self.analyzer_sha256.clone(),
        }
    }
}

impl Derivation {
    /// Whether two derivations are the same.
    pub fn same(&self, other: &Derivation) -> (same: bool)
        ensures
            same == (self@ == other@),
    {
        same_text(self.generator.as_str(), other.generator.as_str()) && same_text(
            self.generator_version.as_str(),
            other.generator_version.as_str(),
        ) && same_text(self.analyzer_sha256.as_str(), other.analyzer_sha256.as_str())
    }
}

impl Clone for Compiler {
    fn clone(&self) -> (copy: Self)
        ensures
            copy@ == self@,
    {
        Compiler {
            name: self.name.clone(),
            version: self.version.clone(),
            commit: copied_text(&self.commit),
        }
    }
}

impl Compiler {
    /// Whether two compilers are the same.
    pub fn same(&self, other: &Compiler) -> (same: bool)
        ensures
            same == (self@ == other@),
    {
        same_text(self.name.as_str(), other.name.as_str()) && same_text(
            self.version.as_str(),
            other.version.as_str(),
        ) && same_optional(&self.commit, &other.commit)
    }
}

impl Clone for Target {
    fn clone(&self) -> (copy: Self)
        ensures
            copy@ == self@,
    {
        Target {
            triple: self.triple.clone(),
            cpu: copied_text(&self.cpu),
            features: self.features.clone(),
            cfg: self.cfg.clone(),
        }
    }
}

impl Target {
    /// Whether two targets are the same.
    pub fn same(&self, other: &Target) -> (same: bool)
        ensures
            same == (self@ == other@),
    {
        same_text(self.triple.as_str(), other.triple.as_str()) && same_optional(
            &self.cpu,
            &other.cpu,
        ) && self.features.same(&other.features) && self.cfg.same(&other.cfg)
    }
}

impl Clone for Compatibility {
    fn clone(&self) -> (copy: Self)
        ensures
            copy@ == self@,
    {
        Compatibility {
            compiler: match &self.compiler {
                Some(compiler) => Some(compiler.clone()),
                None => None,
            },
            target: match &self.target {
                Some(target) => Some(target.clone()),
                None => None,
            },
            package_features: self.package_features.clone(),
        }
    }
}

impl Default for Compatibility {
    fn default() -> (made: Self)
        ensures
            made.compiler is None,
            made.target is None,
            made.package_features@ == Seq::<Seq<char>>::empty(),
    {
        Compatibility { compiler: None, target: None, package_features: NameSet::new() }
    }
}

impl Compatibility {
    /// Whether two compatibilities are the same.
    pub fn same(&self, other: &Compatibility) -> (same: bool)
        ensures
            same == (self@ == other@),
    {
        let compiler = match (&self.compiler, &other.compiler) {
            (Some(left), Some(right)) => left.same(right),
            (None, None) => true,
            _ => false,
        };
        let target = match (&self.target, &other.target) {
            (Some(left), Some(right)) => left.same(right),
            (None, None) => true,
            _ => false,
        };
        compiler && target && self.package_features.same(&other.package_features)
    }
}

impl Clone for Content {
    fn clone(&self) -> (copy: Self)
        ensures
            copy@ == self@,
    {
        Content {
            path: self.path.clone(),
            kind: self.kind.clone(),
            media_type: self.media_type.clone(),
            sha256: self.sha256.clone(),
        }
    }
}

impl Content {
    /// Whether two declared blobs are the same.
    pub fn same(&self, other: &Content) -> (same: bool)
        ensures
            same == (self@ == other@),
    {
        same_text(self.path.as_str(), other.path.as_str()) && same_text(
            self.kind.as_str(),
            other.kind.as_str(),
        ) && same_text(self.media_type.as_str(), other.media_type.as_str()) && same_text(
            self.sha256.as_str(),
            other.sha256.as_str(),
        )
    }
}

/// A copy of declared blobs.
fn copied_contents(contents: &Vec<Content>) -> (copy: Vec<Content>)
    ensures
        content_views(copy@) == content_views(contents@),
{
    let ghost all = content_views(contents@);
    let mut copy: Vec<Content> = Vec::new();
    let mut i: usize = 0;
    while i < contents.len()
        invariant
            i <= contents@.len(),
            all == content_views(contents@),
            content_views(copy@) =~= all.take(i as int),
        decreases contents@.len() - i,
    {
        let ghost before = copy@;
        let one = contents[i].clone();
        copy.push(one);
        assert(content_views(copy@) =~= content_views(before).push(all[i as int]));
        i += 1;
    }
    assert(all.take(i as int) =~= all);
    copy
}

/// Whether two lists of declared blobs are the same.
fn same_contents(left: &Vec<Content>, right: &Vec<Content>) -> (same: bool)
    ensures
        same == (content_views(left@) == content_views(right@)),
{
    let ghost one = content_views(left@);
    let ghost two = content_views(right@);
    if left.len() != right.len() {
        assert(one.len() != two.len());
        return false;
    }
    let mut i: usize = 0;
    while i < left.len()
        invariant
            i <= left@.len() == right@.len(),
            one == content_views(left@),
            two == content_views(right@),
            forall|k: int| 0 <= k < i ==> #[trigger] one[k] == two[k],
        decreases left@.len() - i,
    {
        assert(one[i as int] == left@[i as int]@ && two[i as int] == right@[i as int]@);
        if !left[i].same(&right[i]) {
            return false;
        }
        i += 1;
    }
    assert(one =~= two);
    true
}

impl Clone for FactPackManifest {
    fn clone(&self) -> (copy: Self)
        ensures
            copy@ == self@,
    {
        FactPackManifest {
            schema: self.schema,
            name: self.name.clone(),
            revision: self.revision,
            subject: self.subject.clone(),
            sources: copied_sources(&self.sources),
            derivation: self.derivation.clone(),
            compatibility: self.compatibility.clone(),
            provides: self.provides.clone(),
            requires: self.requires.clone(),
            contents: copied_contents(&self.contents),
        }
    }
}

impl FactPackManifest {
    /// Whether two manifests are the same.
    pub fn same(&self, other: &FactPackManifest) -> (same: bool)
        ensures
            same == (self@ == other@),
    {
        self.schema == other.schema && same_text(self.name.as_str(), other.name.as_str())
            && self.revision == other.revision && self.subject.same(&other.subject)
            && same_sources(&self.sources, &other.sources) && self.derivation.same(
            &other.derivation,
        ) && self.compatibility.same(&other.compatibility) && self.provides.same(&other.provides)
            && self.requires.same(&other.requires) && same_contents(
            &self.contents,
            &other.contents,
        )
    }

    /// Whether the pack can be used in a context: where that is exactly the one
    /// it was made for.
    pub fn is_compatible_with(&self, context: &Compatibility) -> (compatible: bool)
        ensures
            compatible == (self@.compatibility == context@),
    {
        self.compatibility.same(context)
    }
}

} // verus!
