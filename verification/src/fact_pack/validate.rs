//! Checking a manifest.

use super::manifest::{
    compatibility_faults, compiler_faults, content_faults, content_views,
    contents_faults, derivation_faults, each_capability_faults, each_text_faults, is_valid,
    joined_messages, manifest_faults, optional_text_faults, schema_faults, source_faults,
    source_order, source_rank, source_views, sources_faults, subject_faults, target_faults,
    Compatibility, Compiler, Content, Derivation, FactPackManifest, ManifestError, SourceInput,
    SourceKind, Subject, SubjectKind, Target, FACT_PACK_SCHEMA,
};
use super::names::{texts, NameSet};
use super::rules::{
    is_safe_relative_path, lemma_message, media_type, messages, text_faults, unless,
    validate_capability, validate_sha256, validate_slug, validate_text,
};
use crate::facts::settled;
use crate::text::{append_decimal, compared, text_compared, Comparison};
use vstd::prelude::*;
use vstd::string::*;

verus! {

/// Adds a message unless something holds.
fn push_unless(fine: bool, message: &str, errors: &mut Vec<String>)
    ensures
        messages(final(errors)@) == messages(old(errors)@) + unless(fine, message@),
{
    if !fine {
        let text = message.to_owned();
        proof {
            lemma_message(errors@, text);
        }
        errors.push(text);
    }
    assert(messages(errors@) =~= messages(old(errors)@) + unless(fine, message@));
}

/// Adds what is wrong with each of several texts.
fn validate_texts(field: &str, values: &NameSet, errors: &mut Vec<String>)
    ensures
        messages(final(errors)@) == messages(old(errors)@) + each_text_faults(
            field@,
            values@,
            values@.len() as int,
        ),
{
    let ghost before = messages(errors@);
    let names = values.names();
    let mut i: usize = 0;
    assert(before + Seq::empty() =~= before);
    while i < names.len()
        invariant
            i <= names@.len(),
            texts(names@) == values@,
            messages(errors@) == before + each_text_faults(field@, values@, i as int),
        decreases names@.len() - i,
    {
        assert(values@[i as int] == names@[i as int]@);
        let ghost so_far = each_text_faults(field@, values@, i as int);
        validate_text(field, names[i].as_str(), errors);
        assert(before + so_far + text_faults(field@, values@[i as int]) =~= before + (so_far
            + text_faults(field@, values@[i as int])));
        i += 1;
    }
}

/// Adds what is wrong with each of several capabilities.
fn validate_capabilities(field: &str, values: &NameSet, errors: &mut Vec<String>)
    ensures
        messages(final(errors)@) == messages(old(errors)@) + each_capability_faults(
            field@,
            values@,
            values@.len() as int,
        ),
{
    let ghost before = messages(errors@);
    let names = values.names();
    let mut i: usize = 0;
    assert(before + Seq::empty() =~= before);
    while i < names.len()
        invariant
            i <= names@.len(),
            texts(names@) == values@,
            messages(errors@) == before + each_capability_faults(field@, values@, i as int),
        decreases names@.len() - i,
    {
        assert(values@[i as int] == names@[i as int]@);
        let ghost so_far = each_capability_faults(field@, values@, i as int);
        let ghost next = super::rules::capability_faults(field@, values@[i as int]);
        validate_capability(field, names[i].as_str(), errors);
        assert(before + so_far + next =~= before + (so_far + next));
        i += 1;
    }
}

/// Adds what is wrong with an optional text.
fn validate_optional(field: &str, value: &Option<String>, errors: &mut Vec<String>)
    ensures
        messages(final(errors)@) == messages(old(errors)@) + optional_text_faults(
            field@,
            crate::normalize::form::optional_text(*value),
        ),
{
    match value {
        Some(value) => validate_text(field, value.as_str(), errors),
        None => {
            assert(messages(errors@) =~= messages(errors@) + Seq::empty());
        },
    }
}

impl Subject {
    /// Adds what is wrong with a subject.
    fn validate(&self, errors: &mut Vec<String>)
        ensures
            messages(final(errors)@) == messages(old(errors)@) + subject_faults(self@),
    {
        validate_slug("subject.language", self.language.as_str(), errors);
        match &self.ecosystem {
            Some(ecosystem) => validate_slug("subject.ecosystem", ecosystem.as_str(), errors),
            None => push_unless(
                !matches!(self.kind, SubjectKind::Library),
                "subject.ecosystem is required for a library",
                errors,
            ),
        }
        validate_slug("subject.name", self.name.as_str(), errors);
        validate_text("subject.version", self.version.as_str(), errors);
        assert(messages(errors@) =~= messages(old(errors)@) + subject_faults(self@));
    }
}

impl SourceInput {
    /// Adds what is wrong with a source.
    fn validate(&self, errors: &mut Vec<String>)
        ensures
            messages(final(errors)@) == messages(old(errors)@) + source_faults(self@),
    {
        validate_text("sources.name", self.name.as_str(), errors);
        validate_text("sources.version", self.version.as_str(), errors);
        validate_sha256("sources.sha256", self.sha256.as_str(), errors);
        assert(messages(errors@) =~= messages(old(errors)@) + source_faults(self@));
    }

    /// Whether a source comes before another.
    fn before(&self, other: &SourceInput) -> (before: bool)
        ensures
            before == (source_order(self@, other@) == Comparison::Less),
    {
        let order = settled(
            compared(source_number(self.kind), source_number(other.kind)),
            settled(
                text_compared(self.name.as_str(), other.name.as_str()),
                text_compared(self.version.as_str(), other.version.as_str()),
            ),
        );
        matches!(order, Comparison::Less)
    }
}

/// Where a kind of source stands among all.
fn source_number(kind: SourceKind) -> (rank: u32)
    ensures
        rank == source_rank(kind),
{
    match kind {
        SourceKind::Package => 0,
        SourceKind::Repository => 1,
        SourceKind::Toolchain => 2,
    }
}

impl Derivation {
    /// Adds what is wrong with a derivation.
    fn validate(&self, errors: &mut Vec<String>)
        ensures
            messages(final(errors)@) == messages(old(errors)@) + derivation_faults(self@),
    {
        validate_slug("derivation.generator", self.generator.as_str(), errors);
        validate_text("derivation.generator-version", self.generator_version.as_str(), errors);
        validate_sha256("derivation.analyzer-sha256", self.analyzer_sha256.as_str(), errors);
        assert(messages(errors@) =~= messages(old(errors)@) + derivation_faults(self@));
    }
}

impl Compiler {
    /// Adds what is wrong with a compiler.
    fn validate(&self, errors: &mut Vec<String>)
        ensures
            messages(final(errors)@) == messages(old(errors)@) + compiler_faults(self@),
    {
        validate_slug("compatibility.compiler.name", self.name.as_str(), errors);
        validate_text("compatibility.compiler.version", self.version.as_str(), errors);
        validate_optional("compatibility.compiler.commit", &self.commit, errors);
        assert(messages(errors@) =~= messages(old(errors)@) + compiler_faults(self@));
    }
}

impl Target {
    /// Adds what is wrong with a target.
    fn validate(&self, errors: &mut Vec<String>)
        ensures
            messages(final(errors)@) == messages(old(errors)@) + target_faults(self@),
    {
        validate_text("compatibility.target.triple", self.triple.as_str(), errors);
        validate_optional("compatibility.target.cpu", &self.cpu, errors);
        validate_texts("compatibility.target.features", &self.features, errors);
        validate_texts("compatibility.target.cfg", &self.cfg, errors);
        assert(messages(errors@) =~= messages(old(errors)@) + target_faults(self@));
    }
}

impl Compatibility {
    /// Adds what is wrong with a compatibility.
    fn validate(&self, errors: &mut Vec<String>)
        ensures
            messages(final(errors)@) == messages(old(errors)@) + compatibility_faults(self@),
    {
        let ghost start = messages(errors@);
        if let Some(compiler) = &self.compiler {
            compiler.validate(errors);
        }
        let ghost first = match self@.compiler {
            Some(compiler) => compiler_faults(compiler),
            None => Seq::empty(),
        };
        assert(messages(errors@) =~= start + first);
        if let Some(target) = &self.target {
            target.validate(errors);
        }
        let ghost second = match self@.target {
            Some(target) => target_faults(target),
            None => Seq::empty(),
        };
        assert(messages(errors@) =~= start + first + second);
        validate_texts("compatibility.package-features", &self.package_features, errors);
        assert(messages(errors@) =~= start + compatibility_faults(self@));
    }
}

impl Content {
    /// Adds what is wrong with a declared blob.
    fn validate(&self, errors: &mut Vec<String>)
        ensures
            messages(final(errors)@) == messages(old(errors)@) + content_faults(self@),
    {
        let mut path_message = "contents.path `".to_owned();
        path_message.append(self.path.as_str());
        path_message.append("` must be a normalized relative path");
        push_unless(
            is_safe_relative_path(self.path.as_str()),
            path_message.as_str(),
            errors,
        );
        validate_slug("contents.kind", self.kind.as_str(), errors);
        let mut type_message = "contents.media-type `".to_owned();
        type_message.append(self.media_type.as_str());
        type_message.append("` is not a media type");
        push_unless(media_type(self.media_type.as_str()), type_message.as_str(), errors);
        validate_sha256("contents.sha256", self.sha256.as_str(), errors);
        assert(messages(errors@) =~= messages(old(errors)@) + content_faults(self@));
    }
}

/// Adds what is wrong with sources.
#[verifier::loop_isolation(false)]
fn validate_sources(sources: &Vec<SourceInput>, errors: &mut Vec<String>)
    ensures
        messages(final(errors)@) == messages(old(errors)@) + sources_faults(
            source_views(sources@),
            0,
        ),
{
    let ghost start = messages(errors@);
    let ghost all = source_views(sources@);
    let ghost mut said: Seq<Seq<char>> = Seq::empty();
    let mut i: usize = 0;
    assert(messages(errors@) =~= start + said);
    assert(said + sources_faults(all, 0) =~= sources_faults(all, 0));
    while i < sources.len()
        invariant
            i <= sources@.len(),
            messages(errors@) == start + said,
            said + sources_faults(all, i as int) == sources_faults(all, 0),
        decreases sources@.len() - i,
    {
        assert(all[i as int] == sources@[i as int]@);
        let ghost faults = source_faults(all[i as int]);
        sources[i].validate(errors);
        assert(messages(errors@) =~= start + (said + faults));
        if i > 0 {
            assert(all[i - 1] == sources@[i - 1]@);
            if !sources[i - 1].before(&sources[i]) {
                push_unless(
                    false,
                    "sources must be sorted by unique kind, name, and version",
                    errors,
                );
                assert(messages(errors@) =~= start + sources_faults(all, 0));
                return;
            }
        }
        proof {
            assert(said + (faults + sources_faults(all, i + 1)) =~= (said + faults)
                + sources_faults(all, i + 1));
            said = said + faults;
        }
        i += 1;
    }
    assert(said + Seq::empty() =~= said);
}

/// Adds what is wrong with declared blobs.
#[verifier::loop_isolation(false)]
fn validate_contents(contents: &Vec<Content>, errors: &mut Vec<String>)
    ensures
        messages(final(errors)@) == messages(old(errors)@) + contents_faults(
            content_views(contents@),
            0,
        ),
{
    let ghost start = messages(errors@);
    let ghost all = content_views(contents@);
    let ghost mut said: Seq<Seq<char>> = Seq::empty();
    let mut i: usize = 0;
    assert(messages(errors@) =~= start + said);
    assert(said + contents_faults(all, 0) =~= contents_faults(all, 0));
    while i < contents.len()
        invariant
            i <= contents@.len(),
            messages(errors@) == start + said,
            said + contents_faults(all, i as int) == contents_faults(all, 0),
        decreases contents@.len() - i,
    {
        assert(all[i as int] == contents@[i as int]@);
        let ghost faults = content_faults(all[i as int]);
        contents[i].validate(errors);
        assert(messages(errors@) =~= start + (said + faults));
        if i > 0 {
            assert(all[i - 1] == contents@[i - 1]@);
            let order = text_compared(contents[i - 1].path.as_str(), contents[i].path.as_str());
            if !matches!(order, Comparison::Less) {
                push_unless(false, "contents must be sorted by unique path", errors);
                assert(messages(errors@) =~= start + contents_faults(all, 0));
                return;
            }
        }
        proof {
            assert(said + (faults + contents_faults(all, i + 1)) =~= (said + faults)
                + contents_faults(all, i + 1));
            said = said + faults;
        }
        i += 1;
    }
    assert(said + Seq::empty() =~= said);
}

/// Messages with semicolons between.
fn join_messages(list: &Vec<String>) -> (text: String)
    ensures
        text@ == joined_messages(messages(list@)),
{
    let ghost all = messages(list@);
    let mut text = String::new();
    let mut i: usize = 0;
    assert(all.take(0) =~= Seq::empty());
    while i < list.len()
        invariant
            i <= list@.len(),
            all == messages(list@),
            text@ == joined_messages(all.take(i as int)),
        decreases list@.len() - i,
    {
        proof {
            assert(all.take(i + 1).drop_last() =~= all.take(i as int));
            assert(all.take(i + 1).last() == list@[i as int]@);
        }
        if i > 0 {
            text.append("; ");
        }
        text.append(list[i].as_str());
        proof {
            if i == 0 {
                assert(text@ =~= list@[0]@);
                assert(all.take(1)[0] == list@[0]@);
            } else {
                assert(text@ =~= joined_messages(all.take(i as int)) + "; "@ + list@[i as int]@);
            }
        }
        i += 1;
    }
    assert(all.take(i as int) =~= all);
    text
}

impl FactPackManifest {
    /// Checks the manifest; an error tells everything that is wrong.
    pub fn validate(&self) -> (result: Result<(), ManifestError>)
        ensures
            match result {
                Ok(()) => is_valid(self@),
                Err(ManifestError::Invalid(message)) => !is_valid(self@) && message@
                    == joined_messages(manifest_faults(self@)),
                Err(_) => false,
            },
    {
        let mut errors: Vec<String> = Vec::new();
        let ghost view = self@;
        assert(messages(errors@) =~= Seq::empty());
        let mut schema_message = "schema is ".to_owned();
        append_decimal(&mut schema_message, self.schema as u128);
        schema_message.append(", supported schema is ");
        append_decimal(&mut schema_message, FACT_PACK_SCHEMA as u128);
        push_unless(self.schema == FACT_PACK_SCHEMA, schema_message.as_str(), &mut errors);
        assert(messages(errors@) =~= schema_faults(view.schema));
        validate_slug("name", self.name.as_str(), &mut errors);
        push_unless(self.revision != 0, "revision must be at least 1", &mut errors);
        self.subject.validate(&mut errors);
        push_unless(
            self.sources.len() > 0,
            "sources must contain at least one derivation input",
            &mut errors,
        );
        validate_sources(&self.sources, &mut errors);
        self.derivation.validate(&mut errors);
        self.compatibility.validate(&mut errors);
        push_unless(
            !self.provides.is_empty(),
            "provides must contain at least one fact capability",
            &mut errors,
        );
        validate_capabilities("provides", &self.provides, &mut errors);
        validate_capabilities("requires", &self.requires, &mut errors);
        push_unless(
            self.contents.len() > 0,
            "contents must contain at least one blob",
            &mut errors,
        );
        validate_contents(&self.contents, &mut errors);
        assert(messages(errors@) == manifest_faults(view));
        if errors.len() == 0 {
            Ok(())
        } else {
            Err(ManifestError::Invalid(join_messages(&errors)))
        }
    }
}

} // verus!
