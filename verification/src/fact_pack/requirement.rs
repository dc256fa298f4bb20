//! What a repository requires of a pack.

use super::copies::{copied_sources, same_sources};
use super::manifest::{
    source_views, Compatibility, CompatibilityView, Derivation, DerivationView, FactPackManifest,
    ManifestView, SourceInput, SourceView, Subject, SubjectView,
};
use super::names::{is_subset_of, NameSet};
use crate::text::same_text;
use vstd::prelude::*;

verus! {

/// What a repository requires of a pack.
#[derive(Debug)]
pub struct FactPackRequirement {
    pub name: String,
    pub subject: Subject,
    pub sources: Vec<SourceInput>,
    pub derivation: Derivation,
    pub compatibility: Compatibility,
    pub capabilities: NameSet,
}

/// The content of a [`FactPackRequirement`].
pub struct RequirementView {
    pub name: Seq<char>,
    pub subject: SubjectView,
    pub sources: Seq<SourceView>,
    pub derivation: DerivationView,
    pub compatibility: CompatibilityView,
    pub capabilities: Seq<Seq<char>>,
}

impl View for FactPackRequirement {
    type V = RequirementView;

    open spec fn view(&self) -> RequirementView {
        RequirementView {
            name: self.name@,
            subject: self.subject@,
            sources: source_views(self.sources@),
            derivation: self.derivation@,
            compatibility: self.compatibility@,
            capabilities: self.capabilities@,
        }
    }
}

/// What a pack satisfies exactly.
pub open spec fn requirement_of(manifest: ManifestView) -> RequirementView {
    RequirementView {
        name: manifest.name,
        subject: manifest.subject,
        sources: manifest.sources,
        derivation: manifest.derivation,
        compatibility: manifest.compatibility,
        capabilities: manifest.provides,
    }
}

/// Whether a pack satisfies a requirement: it is the same in all but what it
/// provides, and provides at least what is required.
pub open spec fn satisfies(requirement: RequirementView, manifest: ManifestView) -> bool {
    &&& requirement.name == manifest.name
    &&& requirement.subject == manifest.subject
    &&& requirement.sources == manifest.sources
    &&& requirement.derivation == manifest.derivation
    &&& requirement.compatibility == manifest.compatibility
    &&& is_subset_of(requirement.capabilities, manifest.provides)
}

impl FactPackRequirement {
    /// What a pack satisfies exactly.
    pub fn from_manifest(manifest: &FactPackManifest) -> (requirement: Self)
        ensures
            requirement@ == requirement_of(manifest@),
    {
        FactPackRequirement {
            name: manifest.name.clone(),
            subject: manifest.subject.clone(),
            sources: copied_sources(&manifest.sources),
            derivation: manifest.derivation.clone(),
            compatibility: manifest.compatibility.clone(),
            capabilities: manifest.provides.clone(),
        }
    }

    /// Whether a pack satisfies the requirement.
    pub fn matches(&self, manifest: &FactPackManifest) -> (satisfied: bool)
        ensures
            satisfied == satisfies(self@, manifest@),
    {
        same_text(self.name.as_str(), manifest.name.as_str()) && self.subject.same(
            &manifest.subject,
        ) && same_sources(&self.sources, &manifest.sources) && self.derivation.same(
            &manifest.derivation,
        ) && manifest.is_compatible_with(&self.compatibility) && self.capabilities.is_subset(
            &manifest.provides,
        )
    }
}

/// A pack satisfies the requirement made from its own manifest.
pub proof fn law_a_pack_satisfies_its_own_requirement(manifest: ManifestView)
    ensures
        satisfies(requirement_of(manifest), manifest),
{
    assert forall|i: int| 0 <= i < manifest.provides.len() implies manifest.provides.contains(
        #[trigger] manifest.provides[i],
    ) by {}
}

/// A requirement with more capabilities is satisfied by no pack that does not
/// satisfy it with fewer.
pub proof fn law_fewer_capabilities_are_easier(
    fewer: RequirementView,
    more: RequirementView,
    manifest: ManifestView,
)
    requires
        fewer == (RequirementView { capabilities: fewer.capabilities, ..more }),
        is_subset_of(fewer.capabilities, more.capabilities),
        satisfies(more, manifest),
    ensures
        satisfies(fewer, manifest),
{
    assert forall|i: int| 0 <= i < fewer.capabilities.len() implies manifest.provides.contains(
        #[trigger] fewer.capabilities[i],
    ) by {
        let name = fewer.capabilities[i];
        assert(more.capabilities.contains(name));
        let k = choose|k: int| 0 <= k < more.capabilities.len() && more.capabilities[k] == name;
        assert(manifest.provides.contains(more.capabilities[k]));
    }
}

} // verus!
