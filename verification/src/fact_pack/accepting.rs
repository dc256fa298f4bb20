//! Which manifests, requirements and locks are accepted.

use crate::fact_pack::cache::digest_fault;
use crate::fact_pack::lock::{
    comes_before, entries_above, entries_below, entries_fault, entry_fault, lock_fault,
    requirement_key, with_entry, LockView, LockedView,
};
use crate::fact_pack::manifest::{
    compatibility_faults, compiler_faults, content_faults, contents_faults, derivation_faults,
    each_capability_faults, each_text_faults, is_valid, manifest_faults, schema_faults,
    source_faults, source_order, sources_faults, subject_faults, target_faults, CompatibilityView,
    ContentView, ManifestView, SourceView, SubjectView,
};
use crate::fact_pack::requirement::{satisfies, RequirementView};
use crate::fact_pack::rules::{
    is_capability, is_digest, is_media_type, is_plain_text, is_safe_path, is_slug, slug_faults,
    unless,
};
use crate::text::{text_order, Comparison};
use vstd::prelude::*;

verus! {

/// Whether all texts of a list are plain.
pub open spec fn all_plain(texts: Seq<Seq<char>>) -> bool {
    forall|i: int| 0 <= i < texts.len() ==> is_plain_text(#[trigger] texts[i])
}

/// Whether all names of a list are capabilities.
pub open spec fn all_capabilities(names: Seq<Seq<char>>) -> bool {
    forall|i: int| 0 <= i < names.len() ==> is_capability(#[trigger] names[i])
}

proof fn lemma_each_text(field: Seq<char>, texts: Seq<Seq<char>>, n: int)
    requires
        0 <= n <= texts.len(),
    ensures
        each_text_faults(field, texts, n).len() == 0 <==> forall|i: int|
            0 <= i < n ==> is_plain_text(#[trigger] texts[i]),
    decreases n,
{
    if n > 0 {
        lemma_each_text(field, texts, n - 1);
        if each_text_faults(field, texts, n).len() == 0 {
            assert(is_plain_text(texts[n - 1]));
        }
    }
}

proof fn lemma_each_capability(field: Seq<char>, names: Seq<Seq<char>>, n: int)
    requires
        0 <= n <= names.len(),
    ensures
        each_capability_faults(field, names, n).len() == 0 <==> forall|i: int|
            0 <= i < n ==> is_capability(#[trigger] names[i]),
    decreases n,
{
    if n > 0 {
        lemma_each_capability(field, names, n - 1);
        if each_capability_faults(field, names, n).len() == 0 {
            assert(is_capability(names[n - 1]));
        }
    }
}

/// Whether a subject is well told: a library names its ecosystem.
pub open spec fn is_good_subject(subject: SubjectView) -> bool {
    &&& is_slug(subject.language)
    &&& is_slug(subject.name)
    &&& is_plain_text(subject.version)
    &&& match subject.ecosystem {
        Some(ecosystem) => is_slug(ecosystem),
        None => !(subject.kind is Library),
    }
}

/// Whether a source comes after the one before it.
pub open spec fn source_follows(sources: Seq<SourceView>, i: int) -> bool {
    source_order(sources[i - 1], sources[i]) == Comparison::Less
}

/// Whether a blob's path comes after that of the one before it.
pub open spec fn content_follows(contents: Seq<ContentView>, i: int) -> bool {
    text_order(contents[i - 1].path, contents[i].path) == Comparison::Less
}

/// Whether an entry's key comes after that of the one before it.
pub open spec fn entry_follows(packs: Seq<LockedView>, i: int) -> bool {
    comes_before(requirement_key(packs[i - 1].requirement), requirement_key(packs[i].requirement))
}

/// Whether sources are well told, and each comes after the one before it.
pub open spec fn are_good_sources(sources: Seq<SourceView>, from: int) -> bool {
    &&& forall|i: int|
        from <= i < sources.len() ==> is_plain_text((#[trigger] sources[i]).name) && is_plain_text(
            sources[i].version,
        ) && is_digest(sources[i].sha256)
    &&& forall|i: int|
        from <= i < sources.len() && 0 < i ==> #[trigger] source_follows(sources, i)
}

proof fn lemma_sources(sources: Seq<SourceView>, from: int)
    requires
        0 <= from <= sources.len(),
    ensures
        sources_faults(sources, from).len() == 0 <==> are_good_sources(sources, from),
    decreases sources.len() - from,
{
    if from < sources.len() {
        lemma_sources(sources, from + 1);
        let source = sources[from];
        assert(source_faults(source).len() == 0 <==> is_plain_text(source.name) && is_plain_text(
            source.version,
        ) && is_digest(source.sha256));
        if from > 0 {
            assert(source_follows(sources, from) <==> source_order(sources[from - 1], source)
                == Comparison::Less);
        }
        if are_good_sources(sources, from) {
            assert(is_plain_text(sources[from].name));
        }
    }
}

/// Whether declared blobs are well told, and each path comes after the one before it.
pub open spec fn are_good_contents(contents: Seq<ContentView>, from: int) -> bool {
    &&& forall|i: int|
        from <= i < contents.len() ==> is_safe_path((#[trigger] contents[i]).path) && is_slug(
            contents[i].kind,
        ) && is_media_type(contents[i].media_type) && is_digest(contents[i].sha256)
    &&& forall|i: int|
        from <= i < contents.len() && 0 < i ==> #[trigger] content_follows(contents, i)
}

proof fn lemma_contents(contents: Seq<ContentView>, from: int)
    requires
        0 <= from <= contents.len(),
    ensures
        contents_faults(contents, from).len() == 0 <==> are_good_contents(contents, from),
    decreases contents.len() - from,
{
    if from < contents.len() {
        lemma_contents(contents, from + 1);
        let content = contents[from];
        assert(content_faults(content).len() == 0 <==> is_safe_path(content.path) && is_slug(
            content.kind,
        ) && is_media_type(content.media_type) && is_digest(content.sha256));
        if from > 0 {
            assert(content_follows(contents, from) <==> text_order(
                contents[from - 1].path,
                content.path,
            ) == Comparison::Less);
        }
        if are_good_contents(contents, from) {
            assert(is_slug(contents[from].kind));
        }
    }
}

/// Whether what a pack is compatible with is well told.
pub open spec fn is_good_compatibility(compatibility: CompatibilityView) -> bool {
    &&& match compatibility.compiler {
        Some(compiler) => is_slug(compiler.name) && is_plain_text(compiler.version) && (
        compiler.commit matches Some(commit) ==> is_plain_text(commit)),
        None => true,
    }
    &&& match compatibility.target {
        Some(target) => is_plain_text(target.triple) && (target.cpu matches Some(cpu)
            ==> is_plain_text(cpu)) && all_plain(target.features) && all_plain(target.cfg),
        None => true,
    }
    &&& all_plain(compatibility.package_features)
}

/// Whether a manifest tells everything well: it has a source, provides something, and
/// holds a blob.
pub open spec fn is_good(manifest: ManifestView) -> bool {
    &&& manifest.schema == 1
    &&& is_slug(manifest.name)
    &&& manifest.revision >= 1
    &&& is_good_subject(manifest.subject)
    &&& manifest.sources.len() > 0
    &&& are_good_sources(manifest.sources, 0)
    &&& is_slug(manifest.derivation.generator)
    &&& is_plain_text(manifest.derivation.generator_version)
    &&& is_digest(manifest.derivation.analyzer_sha256)
    &&& is_good_compatibility(manifest.compatibility)
    &&& manifest.provides.len() > 0
    &&& all_capabilities(manifest.provides)
    &&& all_capabilities(manifest.requires)
    &&& manifest.contents.len() > 0
    &&& are_good_contents(manifest.contents, 0)
}

/// A manifest is accepted exactly where it tells everything well.
#[verifier::rlimit(40)]
#[verifier::spinoff_prover]
pub proof fn law_good_manifests_are_accepted(manifest: ManifestView)
    ensures
        is_valid(manifest) <==> is_good(manifest),
{
    let compatibility = manifest.compatibility;
    lemma_sources(manifest.sources, 0);
    lemma_contents(manifest.contents, 0);
    lemma_each_capability("provides"@, manifest.provides, manifest.provides.len() as int);
    lemma_each_capability("requires"@, manifest.requires, manifest.requires.len() as int);
    lemma_each_text(
        "compatibility.package-features"@,
        compatibility.package_features,
        compatibility.package_features.len() as int,
    );
    if let Some(target) = compatibility.target {
        lemma_each_text(
            "compatibility.target.features"@,
            target.features,
            target.features.len() as int,
        );
        lemma_each_text("compatibility.target.cfg"@, target.cfg, target.cfg.len() as int);
        assert(target_faults(target).len() == 0 <==> is_plain_text(target.triple) && (
        target.cpu matches Some(cpu) ==> is_plain_text(cpu)) && all_plain(target.features)
            && all_plain(target.cfg));
    }
    if let Some(compiler) = compatibility.compiler {
        assert(compiler_faults(compiler).len() == 0 <==> is_slug(compiler.name) && is_plain_text(
            compiler.version,
        ) && (compiler.commit matches Some(commit) ==> is_plain_text(commit)));
    }
    assert(compatibility_faults(compatibility).len() == 0 <==> is_good_compatibility(
        compatibility,
    ));
    assert(subject_faults(manifest.subject).len() == 0 <==> is_good_subject(manifest.subject));
    assert(derivation_faults(manifest.derivation).len() == 0 <==> is_slug(
        manifest.derivation.generator,
    ) && is_plain_text(manifest.derivation.generator_version) && is_digest(
        manifest.derivation.analyzer_sha256,
    ));
    assert(manifest_faults(manifest).len() == schema_faults(manifest.schema).len() + slug_faults(
        "name"@,
        manifest.name,
    ).len() + unless(manifest.revision != 0, "revision must be at least 1"@).len()
        + subject_faults(manifest.subject).len() + unless(
        manifest.sources.len() > 0,
        "sources must contain at least one derivation input"@,
    ).len() + sources_faults(manifest.sources, 0).len() + derivation_faults(
        manifest.derivation,
    ).len() + compatibility_faults(compatibility).len() + unless(
        manifest.provides.len() > 0,
        "provides must contain at least one fact capability"@,
    ).len() + each_capability_faults(
        "provides"@,
        manifest.provides,
        manifest.provides.len() as int,
    ).len() + each_capability_faults(
        "requires"@,
        manifest.requires,
        manifest.requires.len() as int,
    ).len() + unless(
        manifest.contents.len() > 0,
        "contents must contain at least one blob"@,
    ).len() + contents_faults(manifest.contents, 0).len());
}

/// A media type has a slash and no blank: what holds a space, a tab or a line break
/// anywhere is none, and two side by side are one.
pub proof fn law_media_types_have_a_slash_and_no_blank(
    first: Seq<char>,
    second: Seq<char>,
    c: char,
)
    requires
        c == ' ' || c == '\t' || c == '\n' || c == '\r',
    ensures
        !is_media_type(first + seq![c] + second),
        !first.contains('/') ==> !is_media_type(first),
        is_media_type(first) && is_media_type(second) ==> is_media_type(first + second),
{
    assert((first + seq![c] + second)[first.len() as int] == c);
    if is_media_type(first) && is_media_type(second) {
        let both = first + second;
        let i = choose|i: int| 0 <= i < first.len() && first[i] == '/';
        assert(both[i] == '/');
        assert forall|k: int| 0 <= k < both.len() implies !crate::fact_pack::rules::is_ascii_blank(
            #[trigger] both[k],
        ) by {
            if k < first.len() {
                assert(both[k] == first[k]);
            } else {
                assert(both[k] == second[k - first.len()]);
            }
        }
    }
}

/// A pack satisfies a requirement exactly where it is what the requirement names and
/// provides every capability that it asks for.
pub proof fn law_what_satisfies_a_requirement(
    requirement: RequirementView,
    manifest: ManifestView,
)
    ensures
        satisfies(requirement, manifest) <==> {
            &&& manifest.name == requirement.name
            &&& manifest.subject == requirement.subject
            &&& manifest.sources == requirement.sources
            &&& manifest.derivation == requirement.derivation
            &&& manifest.compatibility == requirement.compatibility
            &&& forall|i: int|
                0 <= i < requirement.capabilities.len() ==> manifest.provides.contains(
                    #[trigger] requirement.capabilities[i],
                )
        },
{
}

/// Whether an entry of a lock is well told.
pub open spec fn is_good_entry(entry: LockedView) -> bool {
    &&& digest_fault(entry.manifest_digest) is None
    &&& is_valid(entry.manifest)
    &&& entry.origin matches Some(origin) ==> origin.len() > 0
}

proof fn lemma_entries(packs: Seq<LockedView>, from: int)
    requires
        0 <= from <= packs.len(),
    ensures
        entries_fault(packs, from) is None <==> (forall|i: int|
            from <= i < packs.len() ==> is_good_entry(#[trigger] packs[i])) && (forall|i: int|
            from <= i < packs.len() && 0 < i ==> #[trigger] entry_follows(packs, i)),
    decreases packs.len() - from,
{
    reveal(entry_fault);
    if from < packs.len() {
        lemma_entries(packs, from + 1);
        assert(entry_fault(packs[from]) is None <==> is_good_entry(packs[from]));
        if from > 0 {
            assert(entry_follows(packs, from) <==> comes_before(
                requirement_key(packs[from - 1].requirement),
                requirement_key(packs[from].requirement),
            ));
        }
    }
}

/// A lock is accepted exactly where its schema is the first, every entry is well
/// told, and each comes after the one before it.
pub proof fn law_good_locks_are_accepted(lock: LockView)
    ensures
        lock_fault(lock) is None <==> lock.schema == 1 && (forall|i: int|
            0 <= i < lock.packs.len() ==> is_good_entry(#[trigger] lock.packs[i])) && (forall|
            i: int,
        |
            0 < i < lock.packs.len() ==> #[trigger] entry_follows(lock.packs, i)),
{
    lemma_entries(lock.packs, 0);
}

proof fn lemma_below(packs: Seq<LockedView>, key: Seq<char>, n: int, entry: LockedView)
    requires
        0 <= n <= packs.len(),
    ensures
        entries_below(packs, key, n).contains(entry) <==> (exists|i: int|
            0 <= i < n && #[trigger] packs[i] == entry) && comes_before(
            requirement_key(entry.requirement),
            key,
        ),
        entries_above(packs, key, n).contains(entry) <==> (exists|i: int|
            0 <= i < n && #[trigger] packs[i] == entry) && comes_before(
            key,
            requirement_key(entry.requirement),
        ),
    decreases n,
{
    if n > 0 {
        lemma_below(packs, key, n - 1, entry);
        let last = packs[n - 1];
        let before = entries_below(packs, key, n - 1);
        let below = entries_below(packs, key, n);
        let after = entries_above(packs, key, n - 1);
        let above = entries_above(packs, key, n);
        if comes_before(requirement_key(last.requirement), key) {
            assert(below.last() == last);
            if before.contains(entry) {
                let k = choose|k: int| 0 <= k < before.len() && before[k] == entry;
                assert(below[k] == entry);
            }
        }
        if comes_before(key, requirement_key(last.requirement)) {
            assert(above.last() == last);
            if after.contains(entry) {
                let k = choose|k: int| 0 <= k < after.len() && after[k] == entry;
                assert(above[k] == entry);
            }
        }
        if below.contains(entry) && !before.contains(entry) {
            let k = choose|k: int| 0 <= k < below.len() && below[k] == entry;
            if k < before.len() {
                assert(before[k] == entry);
            }
            assert(packs[n - 1] == entry);
        }
        if above.contains(entry) && !after.contains(entry) {
            let k = choose|k: int| 0 <= k < above.len() && above[k] == entry;
            if k < after.len() {
                assert(after[k] == entry);
            }
            assert(packs[n - 1] == entry);
        }
    }
}

/// Pinning a pack puts it in the lock, keeps every entry with another key, and drops
/// those with the same.
pub proof fn law_pinning_replaces_the_same_requirement(
    packs: Seq<LockedView>,
    pinned: LockedView,
    entry: LockedView,
)
    ensures
        with_entry(packs, pinned).contains(pinned),
        entry != pinned ==> (with_entry(packs, pinned).contains(entry) <==> packs.contains(entry)
            && requirement_key(entry.requirement) != requirement_key(pinned.requirement)),
{
    let key = requirement_key(pinned.requirement);
    let n = packs.len() as int;
    let below = entries_below(packs, key, n);
    let above = entries_above(packs, key, n);
    let all = with_entry(packs, pinned);
    assert(all == below.push(pinned) + above);
    assert(all[below.len() as int] == pinned);
    lemma_below(packs, key, n, entry);
    crate::fact_pack::lock::lemma_comes_before(requirement_key(entry.requirement), key, key);
    if entry != pinned {
        if below.contains(entry) {
            let k = choose|k: int| 0 <= k < below.len() && below[k] == entry;
            assert(all[k] == entry);
        }
        if above.contains(entry) {
            let k = choose|k: int| 0 <= k < above.len() && above[k] == entry;
            assert(all[below.len() + 1 + k] == entry);
        }
        if all.contains(entry) {
            let k = choose|k: int| 0 <= k < all.len() && all[k] == entry;
            if k < below.len() {
                assert(below[k] == entry);
            } else {
                assert(k > below.len());
                assert(above[k - below.len() - 1] == entry);
            }
        }
        assert((exists|i: int| 0 <= i < n && #[trigger] packs[i] == entry) <==> packs.contains(
            entry,
        ));
    }
}

} // verus!
