//! What fact packs offer to an analysis, and what an analysis finds.

pub mod demands;
pub mod order;

use crate::paths::{components, same_path};
use crate::duplication::{
    analyze_parsed, analyze_parsed_near, is_exact_report, is_near_report, well_placed,
    AnalysisReport, ExactConfig, NearConfig,
};
use crate::external::ExternalCatalog;
use crate::fact_pack::cache::CachedFactPack;
use crate::fact_pack::manifest::FactPackManifest;
use crate::fact_pack::names::NameSet;
use crate::facts::{
    CallEffectCatalog, DerivedLibraryBehavior, DerivedMacroBehavior, EffectTrace, ExactTokenClone,
    Fact, LibraryBehaviorMatch, NearTokenClone,
};
use crate::sorting::{sorted_list, sorted_of};
use crate::syntax::ParsedFile;
use crate::text::same_text;
use vstd::prelude::*;
use vstd::string::*;

verus! {

/// Something that could not be analyzed, and why.
#[derive(Debug, Clone, PartialEq, Eq)]
pub struct AnalysisDiagnostic {
    pub analyzer: String,
    pub path: String,
    pub line: u32,
    pub message: String,
}

/// Which analyses are run.
#[derive(Debug)]
pub struct AnalysisSelection {
    pub exact_clones: Option<ExactConfig>,
    pub near_clones: Option<NearConfig>,
    pub library_behaviors: bool,
    pub call_effects: bool,
}

impl Default for AnalysisSelection {
    fn default() -> (selection: Self)
        ensures
            selection.exact_clones is None,
            selection.near_clones is None,
            !selection.library_behaviors,
            !selection.call_effects,
    {
        AnalysisSelection {
            exact_clones: None,
            near_clones: None,
            library_behaviors: false,
            call_effects: false,
        }
    }
}

/// Why an analysis could not be run.
#[derive(Debug)]
pub enum Error {
    ReadContent { path: String, message: String },
    DecodeContent { kind: String, path: String, message: String },
    MissingCapability { pack: String, capability: String },
    Duplication(crate::duplication::Error),
    RustBehaviors(String),
    RustEffects(String),
}

/// What the blob of a pack holds, by the kind it is declared with.
#[derive(Debug, Clone, Copy, PartialEq, Eq, Structural)]
pub enum ContentKind {
    CallableSignatures,
    LibraryBehavior,
    MacroBehavior,
    CallEffects,
    Other,
}

/// What the blob of a pack holds.
pub fn content_kind(kind: &str) -> (content: ContentKind)
    ensures
        content == if kind@ == "callable-signatures"@ {
            ContentKind::CallableSignatures
        } else if kind@ == "library-behavior"@ {
            ContentKind::LibraryBehavior
        } else if kind@ == "macro-behavior"@ {
            ContentKind::MacroBehavior
        } else if kind@ == "call-effects"@ {
            ContentKind::CallEffects
        } else {
            ContentKind::Other
        },
{
    if same_text(kind, "callable-signatures") {
        ContentKind::CallableSignatures
    } else if same_text(kind, "library-behavior") {
        ContentKind::LibraryBehavior
    } else if same_text(kind, "macro-behavior") {
        ContentKind::MacroBehavior
    } else if same_text(kind, "call-effects") {
        ContentKind::CallEffects
    } else {
        ContentKind::Other
    }
}

/// The contents of packs, as they were read.
#[derive(Debug)]
pub struct PackContents {
    pub catalogs: Vec<ExternalCatalog>,
    pub behaviors: Vec<DerivedLibraryBehavior>,
    pub macro_behaviors: Vec<DerivedMacroBehavior>,
    pub call_effects: Vec<CallEffectCatalog>,
}

/// What several packs offer together.
#[derive(Debug)]
pub struct FactPackSet {
    manifests: Vec<FactPackManifest>,
    contents: PackContents,
    capabilities: NameSet,
}

/// Whether one of the first so many packs provides a capability.
pub open spec fn is_provided(packs: Seq<CachedFactPack>, name: Seq<char>, n: int) -> bool {
    exists|i: int| 0 <= i < n && (#[trigger] packs[i]).manifest@.provides.contains(name)
}

/// Whether a list holds a copy of the manifest of each pack, in the order of the
/// packs.
pub open spec fn copies_manifests(
    packs: Seq<CachedFactPack>,
    manifests: Seq<FactPackManifest>,
) -> bool {
    &&& manifests.len() == packs.len()
    &&& forall|i: int| 0 <= i < packs.len() ==> (#[trigger] manifests[i])@ == packs[i].manifest@
}

/// The first capability, of the first so many, that is required and not
/// available.
pub open spec fn missing_from(
    required: Seq<Seq<char>>,
    available: spec_fn(Seq<char>) -> bool,
    i: int,
) -> Option<int>
    decreases required.len() - i,
{
    if i < 0 || i >= required.len() {
        None
    } else if !available(required[i]) {
        Some(i)
    } else {
        missing_from(required, available, i + 1)
    }
}

/// The first manifest from a place on, and its first capability, that requires
/// what is not available.
pub open spec fn missing_capability(
    manifests: Seq<FactPackManifest>,
    available: spec_fn(Seq<char>) -> bool,
    i: int,
) -> Option<(int, int)>
    decreases manifests.len() - i,
{
    if i < 0 || i >= manifests.len() {
        None
    } else {
        match missing_from(manifests[i]@.requires, available, 0) {
            Some(k) => Some((i, k)),
            None => missing_capability(manifests, available, i + 1),
        }
    }
}

/// Whether a capability is that of having the syntax trees of a language.
pub open spec fn is_syntax_of(languages: Seq<String>, name: Seq<char>) -> bool {
    exists|i: int| 0 <= i < languages.len() && name == (#[trigger] languages[i])@ + ".syntax-tree"@
}

impl FactPackSet {
    /// The manifests, in order.
    pub closed spec fn manifest_list(&self) -> Seq<FactPackManifest> {
        self.manifests@
    }

    /// What is offered.
    pub closed spec fn offered(&self) -> PackContents {
        self.contents
    }

    /// The capabilities that are provided.
    pub closed spec fn capability_list(&self) -> Seq<Seq<char>> {
        self.capabilities@
    }

    /// What packs offer together, given their contents as they were read.
    pub fn load(packs: &Vec<CachedFactPack>, contents: PackContents) -> (set: Self)
        ensures
            exists|manifests: Seq<FactPackManifest>| #[trigger]
                copies_manifests(packs@, manifests) && set.manifest_list() == sorted_of(manifests),
            set.offered().catalogs@ == sorted_of(contents.catalogs@),
            set.offered().behaviors@ == sorted_of(contents.behaviors@),
            set.offered().macro_behaviors@ == sorted_of(contents.macro_behaviors@),
            set.offered().call_effects@ == sorted_of(contents.call_effects@),
            forall|name: Seq<char>| #[trigger]
                set.capability_list().contains(name) <==> is_provided(
                    packs@,
                    name,
                    packs@.len() as int,
                ),
    {
        let mut capabilities = NameSet::new();
        let mut manifests: Vec<FactPackManifest> = Vec::new();
        let mut i: usize = 0;
        while i < packs.len()
            invariant
                i <= packs@.len(),
                manifests@.len() == i,
                forall|k: int| 0 <= k < i ==> (#[trigger] manifests@[k])@ == packs@[k].manifest@,
                forall|name: Seq<char>| #[trigger]
                    capabilities@.contains(name) <==> is_provided(packs@, name, i as int),
            decreases packs@.len() - i,
        {
            let ghost before = capabilities@;
            let manifest = &packs[i].manifest;
            capabilities.extend(&manifest.provides);
            manifests.push(manifest.clone());
            proof {
                assert forall|name: Seq<char>| #[trigger]
                    capabilities@.contains(name) <==> is_provided(packs@, name, i + 1) by {
                    assert(before.contains(name) <==> is_provided(packs@, name, i as int));
                    assert(packs@[i as int].manifest@.provides == manifest.provides@);
                    if is_provided(packs@, name, i + 1) {
                        let k = choose|k: int|
                            0 <= k < i + 1 && (
                            #[trigger] packs@[k]).manifest@.provides.contains(name);
                        if k < i {
                            assert(is_provided(packs@, name, i as int));
                        }
                    }
                    if is_provided(packs@, name, i as int) {
                        let k = choose|k: int|
                            0 <= k < i && (#[trigger] packs@[k]).manifest@.provides.contains(name);
                        assert(packs@[k].manifest@.provides.contains(name));
                    }
                }
            }
            i += 1;
        }
        let ghost copied = manifests@;
        assert(copies_manifests(packs@, copied));
        let PackContents { catalogs, behaviors, macro_behaviors, call_effects } = contents;
        FactPackSet {
            manifests: sorted_list(manifests),
            contents: PackContents {
                catalogs: sorted_list(catalogs),
                behaviors: sorted_list(behaviors),
                macro_behaviors: sorted_list(macro_behaviors),
                call_effects: sorted_list(call_effects),
            },
            capabilities,
        }
    }

    /// The manifests, in order.
    pub fn manifests(&self) -> (manifests: &Vec<FactPackManifest>)
        ensures
            manifests@ == self.manifest_list(),
    {
        &self.manifests
    }

    /// The capabilities that are provided.
    pub fn capabilities(&self) -> (capabilities: &NameSet)
        ensures
            capabilities@ == self.capability_list(),
    {
        &self.capabilities
    }

    /// What is offered.
    pub fn contents(&self) -> (contents: &PackContents)
        ensures
            *contents == self.offered(),
    {
        &self.contents
    }

    /// What calls do besides computing.
    pub fn call_effects(&self) -> (effects: &Vec<CallEffectCatalog>)
        ensures
            effects@ == self.offered().call_effects@,
    {
        &self.contents.call_effects
    }

    /// Checks that what the packs require is available: from the packs
    /// themselves, or from having a parser of a language.
    #[verifier::loop_isolation(false)]
    pub fn validate_runtime(&self, languages: &Vec<String>) -> (result: Result<(), Error>)
        ensures
            ({
                let available = |name: Seq<char>|
                    self.capability_list().contains(name) || is_syntax_of(languages@, name);
                match missing_capability(self.manifest_list(), available, 0) {
                    Some((i, k)) => {
                        &&& result matches Err(Error::MissingCapability { pack, capability })
                        &&& pack@ == self.manifest_list()[i]@.name
                        &&& capability@ == self.manifest_list()[i]@.requires[k]
                    },
                    None => result is Ok,
                }
            }),
    {
        let ghost available = |name: Seq<char>|
            self.capability_list().contains(name) || is_syntax_of(languages@, name);
        let ghost all = self.manifest_list();
        let mut i: usize = 0;
        while i < self.manifests.len()
            invariant
                i <= self.manifests@.len(),
                missing_capability(all, available, 0) == missing_capability(
                    all,
                    available,
                    i as int,
                ),
            decreases self.manifests@.len() - i,
        {
            let manifest = &self.manifests[i];
            let required = manifest.requires.names();
            let ghost wanted = manifest@.requires;
            let mut k: usize = 0;
            while k < required.len()
                invariant
                    k <= required@.len(),
                    missing_from(wanted, available, 0) == missing_from(wanted, available, k as int),
                decreases required@.len() - k,
            {
                assert(wanted[k as int] == required@[k as int]@);
                if !self.capabilities.contains(&required[k]) && !names_syntax(
                    languages,
                    required[k].as_str(),
                ) {
                    return Err(
                        Error::MissingCapability {
                            pack: manifest.name.clone(),
                            capability: required[k].clone(),
                        },
                    );
                }
                k += 1;
            }
            i += 1;
        }
        Ok(())
    }
}

/// Whether a capability is that of having the syntax trees of a language.
fn names_syntax(languages: &Vec<String>, name: &str) -> (names: bool)
    ensures
        names == is_syntax_of(languages@, name@),
{
    let mut i: usize = 0;
    while i < languages.len()
        invariant
            i <= languages@.len(),
            forall|k: int|
                0 <= k < i ==> name@ != (#[trigger] languages@[k])@ + ".syntax-tree"@,
        decreases languages@.len() - i,
    {
        let mut capability = languages[i].clone();
        capability.append(".syntax-tree");
        if same_text(capability.as_str(), name) {
            return true;
        }
        i += 1;
    }
    false
}

/// What an analysis found.
#[derive(Debug)]
pub struct FactBatch {
    pub exact_clones: Vec<Fact<ExactTokenClone>>,
    pub near_clones: Vec<Fact<NearTokenClone>>,
    pub library_behaviors: Vec<Fact<LibraryBehaviorMatch>>,
    pub call_effects: Vec<CallEffectCatalog>,
    pub effect_traces: Vec<Fact<EffectTrace>>,
    pub diagnostics: Vec<AnalysisDiagnostic>,
}

/// A place the analyzer of effects could not read.
#[derive(Debug)]
pub struct FileDiagnostic {
    pub path: String,
    pub line: u32,
    pub message: String,
}

/// What the analyzer of effects found, and what it could not read.
#[derive(Debug)]
pub struct EffectsReport {
    pub traces: Vec<Fact<EffectTrace>>,
    pub diagnostics: Vec<FileDiagnostic>,
}

/// Which library behaviors were found, and which files could not be read.
#[derive(Debug)]
pub struct BehaviorsReport {
    pub matches: Vec<Fact<LibraryBehaviorMatch>>,
    pub diagnostics: Vec<crate::duplication::AnalysisDiagnostic>,
}

/// The files of a repository that were parsed, and those that could not be.
#[derive(Debug)]
pub struct ParsedRepository {
    pub files: Vec<ParsedFile>,
    pub diagnostics: Vec<crate::duplication::AnalysisDiagnostic>,
}

/// What is known of a repository before its analysis: what its parsers gave to
/// each analysis of tokens, and what the analyzers of effects and behaviors found.
#[derive(Debug)]
pub struct Observations {
    pub effects: Result<EffectsReport, Error>,
    pub exact_clones: Result<ParsedRepository, crate::duplication::Error>,
    pub near_clones: Result<ParsedRepository, crate::duplication::Error>,
    pub library_behaviors: Result<BehaviorsReport, Error>,
}

/// What the analyzers found, of those that were run.
#[derive(Debug)]
pub struct Reports {
    pub effects: Option<EffectsReport>,
    pub exact_clones: Option<AnalysisReport<ExactTokenClone>>,
    pub near_clones: Option<AnalysisReport<NearTokenClone>>,
    pub library_behaviors: Option<BehaviorsReport>,
}

/// The content of a diagnostic.
pub struct NoteView {
    pub analyzer: Seq<char>,
    pub path: Seq<Seq<char>>,
    pub line: u32,
    pub message: Seq<char>,
}

impl View for AnalysisDiagnostic {
    type V = NoteView;

    open spec fn view(&self) -> NoteView {
        NoteView {
            analyzer: self.analyzer@,
            path: components(self.path@),
            line: self.line,
            message: self.message@,
        }
    }
}

/// The contents of diagnostics.
pub open spec fn note_views(notes: Seq<AnalysisDiagnostic>) -> Seq<NoteView> {
    Seq::new(notes.len(), |i: int| notes[i]@)
}

/// What the analyzer of effects could not read, where it could not.
pub open spec fn placed_notes(given: Seq<FileDiagnostic>) -> Seq<NoteView> {
    Seq::new(
        given.len(),
        |i: int|
            NoteView {
                analyzer: "effects"@,
                path: components(given[i].path@),
                line: given[i].line,
                message: given[i].message@,
            },
    )
}

/// The files an analyzer could not read, under its name and at their first line.
pub open spec fn file_notes(
    analyzer: Seq<char>,
    given: Seq<crate::duplication::AnalysisDiagnostic>,
) -> Seq<NoteView> {
    Seq::new(
        given.len(),
        |i: int|
            NoteView {
                analyzer,
                path: components(given[i].path@),
                line: 1,
                message: given[i].message@,
            },
    )
}

/// A list without what repeats the one before it.
pub open spec fn without_repeats(list: Seq<AnalysisDiagnostic>) -> Seq<AnalysisDiagnostic>
    decreases list.len(),
{
    if list.len() == 0 {
        Seq::empty()
    } else {
        let before = without_repeats(list.drop_last());
        if list.len() > 1 && list[list.len() - 2]@ == list.last()@ {
            before
        } else {
            before.push(list.last())
        }
    }
}

/// What the analyzer of effects could not read, where it could not.
fn placed_diagnostics(given: &Vec<FileDiagnostic>) -> (notes: Vec<AnalysisDiagnostic>)
    ensures
        note_views(notes@) == placed_notes(given@),
{
    let mut notes: Vec<AnalysisDiagnostic> = Vec::new();
    let mut i: usize = 0;
    while i < given.len()
        invariant
            i <= given@.len(),
            notes@.len() == i,
            forall|k: int| 0 <= k < i ==> (#[trigger] notes@[k])@ == placed_notes(given@)[k],
        decreases given@.len() - i,
    {
        notes.push(
            AnalysisDiagnostic {
                analyzer: "effects".to_owned(),
                path: given[i].path.clone(),
                line: given[i].line,
                message: given[i].message.clone(),
            },
        );
        i += 1;
    }
    assert(note_views(notes@) =~= placed_notes(given@));
    notes
}

/// The files an analyzer could not read, under its name and at their first line.
pub fn named_diagnostics(
    analyzer: &str,
    given: &Vec<crate::duplication::AnalysisDiagnostic>,
) -> (notes: Vec<AnalysisDiagnostic>)
    ensures
        note_views(notes@) == file_notes(analyzer@, given@),
{
    let mut notes: Vec<AnalysisDiagnostic> = Vec::new();
    let mut i: usize = 0;
    while i < given.len()
        invariant
            i <= given@.len(),
            notes@.len() == i,
            forall|k: int|
                0 <= k < i ==> (#[trigger] notes@[k])@ == file_notes(analyzer@, given@)[k],
        decreases given@.len() - i,
    {
        notes.push(
            AnalysisDiagnostic {
                analyzer: analyzer.to_owned(),
                path: given[i].path.clone(),
                line: 1,
                message: given[i].message.clone(),
            },
        );
        i += 1;
    }
    assert(note_views(notes@) =~= file_notes(analyzer@, given@));
    notes
}

/// Whether two diagnostics say the same.
fn same_note(left: &AnalysisDiagnostic, right: &AnalysisDiagnostic) -> (same: bool)
    ensures
        same == (left@ == right@),
{
    same_text(left.analyzer.as_str(), right.analyzer.as_str()) && same_path(
        left.path.as_str(),
        right.path.as_str(),
    ) && left.line == right.line && same_text(left.message.as_str(), right.message.as_str())
}

/// Diagnostics in order, without what repeats the one before it.
pub fn settled_diagnostics(notes: Vec<AnalysisDiagnostic>) -> (settled: Vec<AnalysisDiagnostic>)
    ensures
        settled@ == without_repeats(sorted_of(notes@)),
{
    let sorted = sorted_list(notes);
    let ghost all = sorted@;
    let count: usize = sorted.len();
    let mut repeats: Vec<bool> = Vec::new();
    let mut i: usize = 0;
    while i < count
        invariant
            i <= count == sorted@.len(),
            all == sorted@,
            repeats@.len() == i,
            forall|k: int|
                0 <= k < i ==> #[trigger] repeats@[k] == (k > 0 && all[k - 1]@ == all[k]@),
        decreases count - i,
    {
        let repeat = i > 0 && same_note(&sorted[i - 1], &sorted[i]);
        repeats.push(repeat);
        i += 1;
    }
    let mut rest = crate::lists::reversed(sorted);
    let ghost backward = rest@;
    let mut settled: Vec<AnalysisDiagnostic> = Vec::new();
    let mut k: usize = 0;
    assert(all.take(0) =~= Seq::empty());
    while k < count
        invariant
            k <= count == all.len() == backward.len() == repeats@.len(),
            rest@ == backward.take(count - k),
            forall|j: int| 0 <= j < count ==> #[trigger] backward[j] == all[count - 1 - j],
            forall|j: int|
                0 <= j < count ==> #[trigger] repeats@[j] == (j > 0 && all[j - 1]@ == all[j]@),
            settled@ == without_repeats(all.take(k as int)),
        decreases count - k,
    {
        if let Some(note) = rest.pop() {
            proof {
                assert(note == backward[count - 1 - k]);
                assert(rest@ =~= backward.take(count - k - 1));
                assert(all.take(k + 1).drop_last() =~= all.take(k as int));
                assert(all.take(k + 1).last() == note);
            }
            if !repeats[k] {
                settled.push(note);
            }
        }
        k += 1;
    }
    assert(all.take(k as int) =~= all);
    settled
}

/// What the analyzers that were run could not read, one analyzer after the other.
pub open spec fn all_notes(reports: Reports) -> Seq<NoteView> {
    let effects = match reports.effects {
        Some(report) => placed_notes(report.diagnostics@),
        None => Seq::empty(),
    };
    let exact = match reports.exact_clones {
        Some(report) => file_notes("exact-clones"@, report.diagnostics@),
        None => Seq::empty(),
    };
    let near = match reports.near_clones {
        Some(report) => file_notes("near-clones"@, report.diagnostics@),
        None => Seq::empty(),
    };
    let behaviors = match reports.library_behaviors {
        Some(report) => file_notes("library-behaviors"@, report.diagnostics@),
        None => Seq::empty(),
    };
    effects + exact + near + behaviors
}

/// Whether a list holds a copy of each catalog of another, in order.
pub open spec fn copies_catalogs(
    copies: Seq<CallEffectCatalog>,
    catalogs: Seq<CallEffectCatalog>,
) -> bool {
    &&& copies.len() == catalogs.len()
    &&& forall|i: int| 0 <= i < copies.len() ==> (#[trigger] copies[i])@ == catalogs[i]@
}

/// Whether a batch holds what the analyzers that were run found: their facts, with
/// the effects that the packs know of where effects were looked for, and what they
/// could not read, in order and without repeats.
pub open spec fn gathers(packs: FactPackSet, reports: Reports, batch: FactBatch) -> bool {
    &&& match reports.effects {
        Some(report) => copies_catalogs(batch.call_effects@, packs.offered().call_effects@)
            && batch.effect_traces@ == report.traces@,
        None => batch.call_effects@.len() == 0 && batch.effect_traces@.len() == 0,
    }
    &&& batch.exact_clones@ == match reports.exact_clones {
        Some(report) => report.clones@,
        None => Seq::empty(),
    }
    &&& batch.near_clones@ == match reports.near_clones {
        Some(report) => report.clones@,
        None => Seq::empty(),
    }
    &&& batch.library_behaviors@ == match reports.library_behaviors {
        Some(report) => report.matches@,
        None => Seq::empty(),
    }
    &&& exists|notes: Seq<AnalysisDiagnostic>| #[trigger]
        note_views(notes) == all_notes(reports) && batch.diagnostics@ == without_repeats(
            sorted_of(notes),
        )
}

/// A copy of what packs know of the effects of calls.
fn copied_catalogs(catalogs: &Vec<CallEffectCatalog>) -> (copies: Vec<CallEffectCatalog>)
    ensures
        copies_catalogs(copies@, catalogs@),
{
    let mut copies: Vec<CallEffectCatalog> = Vec::new();
    let mut i: usize = 0;
    while i < catalogs.len()
        invariant
            i <= catalogs@.len(),
            copies@.len() == i,
            forall|k: int| 0 <= k < i ==> (#[trigger] copies@[k])@ == catalogs@[k]@,
        decreases catalogs@.len() - i,
    {
        copies.push(catalogs[i].clone());
        i += 1;
    }
    copies
}

/// What the analyzers that were run found, as one batch.
pub fn gathered(packs: &FactPackSet, reports: Reports) -> (batch: FactBatch)
    ensures
        gathers(*packs, reports, batch),
{
    let ghost given = reports;
    let Reports { effects, exact_clones, near_clones, library_behaviors } = reports;
    let (call_effects, effect_traces, mut notes) = match effects {
        Some(report) => {
            let told = placed_diagnostics(&report.diagnostics);
            (copied_catalogs(packs.call_effects()), report.traces, told)
        },
        None => (Vec::new(), Vec::new(), Vec::new()),
    };
    let (exact_facts, mut exact_notes) = match exact_clones {
        Some(report) => {
            let told = named_diagnostics("exact-clones", &report.diagnostics);
            (report.clones, told)
        },
        None => (Vec::new(), Vec::new()),
    };
    let (near_facts, mut near_notes) = match near_clones {
        Some(report) => {
            let told = named_diagnostics("near-clones", &report.diagnostics);
            (report.clones, told)
        },
        None => (Vec::new(), Vec::new()),
    };
    let (behavior_facts, mut behavior_notes) = match library_behaviors {
        Some(report) => {
            let told = named_diagnostics("library-behaviors", &report.diagnostics);
            (report.matches, told)
        },
        None => (Vec::new(), Vec::new()),
    };
    let ghost one = notes@;
    let ghost two = exact_notes@;
    let ghost three = near_notes@;
    let ghost four = behavior_notes@;
    notes.append(&mut exact_notes);
    notes.append(&mut near_notes);
    notes.append(&mut behavior_notes);
    let ghost all = notes@;
    proof {
        assert(note_views(one + two) =~= note_views(one) + note_views(two));
        assert(note_views(one + two + three) =~= note_views(one + two) + note_views(three));
        assert(note_views(one + two + three + four) =~= note_views(one + two + three)
            + note_views(four));
        assert(all =~= one + two + three + four);
        assert(note_views(all) =~= all_notes(given));
    }
    FactBatch {
        exact_clones: exact_facts,
        near_clones: near_facts,
        library_behaviors: behavior_facts,
        call_effects,
        effect_traces,
        diagnostics: settled_diagnostics(notes),
    }
}

/// What came of an analysis that is made where it is selected.
pub open spec fn selected<T>(wanted: bool, found: Result<T, Error>) -> Result<Option<T>, Error> {
    if wanted {
        match found {
            Ok(report) => Ok(Some(report)),
            Err(error) => Err(error),
        }
    } else {
        Ok(None)
    }
}

/// Whether the analysis for exact clones, made where a configuration selects it
/// and with that configuration, ends so.
pub open spec fn selects_exact(
    config: Option<ExactConfig>,
    parsed: Result<ParsedRepository, crate::duplication::Error>,
    outcome: Result<Option<AnalysisReport<ExactTokenClone>>, Error>,
) -> bool {
    match (config, parsed) {
        (None, _) => outcome == Ok::<Option<AnalysisReport<ExactTokenClone>>, Error>(None),
        (Some(_), Err(error)) => outcome == Err::<
            Option<AnalysisReport<ExactTokenClone>>,
            Error,
        >(Error::Duplication(error)),
        (Some(config), Ok(parsed)) => match outcome {
            Ok(Some(report)) => is_exact_report(
                parsed.files@,
                parsed.diagnostics,
                config,
                Ok(report),
            ),
            Ok(None) => false,
            Err(error) => error matches Error::Duplication(error) && is_exact_report(
                parsed.files@,
                parsed.diagnostics,
                config,
                Err(error),
            ),
        },
    }
}

/// Whether the analysis for near clones, made where a configuration selects it
/// and with that configuration, ends so.
pub open spec fn selects_near(
    config: Option<NearConfig>,
    parsed: Result<ParsedRepository, crate::duplication::Error>,
    outcome: Result<Option<AnalysisReport<NearTokenClone>>, Error>,
) -> bool {
    match (config, parsed) {
        (None, _) => outcome == Ok::<Option<AnalysisReport<NearTokenClone>>, Error>(None),
        (Some(_), Err(error)) => outcome == Err::<
            Option<AnalysisReport<NearTokenClone>>,
            Error,
        >(Error::Duplication(error)),
        (Some(config), Ok(parsed)) => match outcome {
            Ok(Some(report)) => is_near_report(
                parsed.files@,
                parsed.diagnostics,
                config,
                Ok(report),
            ),
            Ok(None) => false,
            Err(error) => error matches Error::Duplication(error) && is_near_report(
                parsed.files@,
                parsed.diagnostics,
                config,
                Err(error),
            ),
        },
    }
}

/// Whether the selected analyses end so: made one after the other, effects, exact
/// clones, near clones and library behaviors, up to the first that fails.
pub open spec fn selects(
    selection: AnalysisSelection,
    observed: Observations,
    result: Result<Reports, Error>,
) -> bool {
    match selected(selection.call_effects, observed.effects) {
        Err(error) => result == Err::<Reports, Error>(error),
        Ok(effects) => exists|exact: Result<Option<AnalysisReport<ExactTokenClone>>, Error>| #[trigger]
            selects_exact(selection.exact_clones, observed.exact_clones, exact) && match exact {
                Err(error) => result == Err::<Reports, Error>(error),
                Ok(exact_clones) => selects_rest(
                    selection,
                    observed,
                    effects,
                    exact_clones,
                    result,
                ),
            },
    }
}

/// Whether the selected analyses end so, once effects and exact clones were looked
/// for.
pub open spec fn selects_rest(
    selection: AnalysisSelection,
    observed: Observations,
    effects: Option<EffectsReport>,
    exact_clones: Option<AnalysisReport<ExactTokenClone>>,
    result: Result<Reports, Error>,
) -> bool {
    exists|near: Result<Option<AnalysisReport<NearTokenClone>>, Error>| #[trigger]
        selects_near(selection.near_clones, observed.near_clones, near) && match near {
            Err(error) => result == Err::<Reports, Error>(error),
            Ok(near_clones) => match selected(
                selection.library_behaviors,
                observed.library_behaviors,
            ) {
                Err(error) => result == Err::<Reports, Error>(error),
                Ok(library_behaviors) => result == Ok::<Reports, Error>(
                    Reports { effects, exact_clones, near_clones, library_behaviors },
                ),
            },
        }
}

/// Whether every file of a parsed repository is well placed in its source.
pub open spec fn all_well_placed(
    parsed: Result<ParsedRepository, crate::duplication::Error>,
) -> bool {
    parsed matches Ok(parsed) ==> forall|i: int|
        0 <= i < parsed.files@.len() ==> well_placed(#[trigger] parsed.files@[i])
}

/// The analysis for exact clones, made where a configuration selects it.
fn exact_selected(
    config: Option<ExactConfig>,
    parsed: Result<ParsedRepository, crate::duplication::Error>,
) -> (outcome: Result<Option<AnalysisReport<ExactTokenClone>>, Error>)
    requires
        all_well_placed(parsed),
    ensures
        selects_exact(config, parsed, outcome),
{
    match config {
        None => Ok(None),
        Some(config) => match parsed {
            Err(error) => Err(Error::Duplication(error)),
            Ok(parsed) => match analyze_parsed(parsed.files, parsed.diagnostics, config) {
                Ok(report) => Ok(Some(report)),
                Err(error) => Err(Error::Duplication(error)),
            },
        },
    }
}

/// The analysis for near clones, made where a configuration selects it.
fn near_selected(
    config: Option<NearConfig>,
    parsed: Result<ParsedRepository, crate::duplication::Error>,
) -> (outcome: Result<Option<AnalysisReport<NearTokenClone>>, Error>)
    requires
        all_well_placed(parsed),
    ensures
        selects_near(config, parsed, outcome),
{
    match config {
        None => Ok(None),
        Some(config) => match parsed {
            Err(error) => Err(Error::Duplication(error)),
            Ok(parsed) => match analyze_parsed_near(parsed.files, parsed.diagnostics, config) {
                Ok(report) => Ok(Some(report)),
                Err(error) => Err(Error::Duplication(error)),
            },
        },
    }
}

/// What came of an analysis, where it is selected.
fn where_selected<T>(wanted: bool, found: Result<T, Error>) -> (outcome: Result<Option<T>, Error>)
    ensures
        outcome == selected(wanted, found),
{
    if wanted {
        match found {
            Ok(report) => Ok(Some(report)),
            Err(error) => Err(error),
        }
    } else {
        Ok(None)
    }
}

/// The selected analyses, one after the other, up to the first that fails.
pub fn run_selected(selection: &AnalysisSelection, observed: Observations) -> (result: Result<
    Reports,
    Error,
>)
    requires
        all_well_placed(observed.exact_clones),
        all_well_placed(observed.near_clones),
    ensures
        selects(*selection, observed, result),
{
    let effects = match where_selected(selection.call_effects, observed.effects) {
        Ok(effects) => effects,
        Err(error) => {
            return Err(error);
        },
    };
    let outcome = exact_selected(selection.exact_clones, observed.exact_clones);
    let ghost exact = outcome;
    assert(selects_exact(selection.exact_clones, observed.exact_clones, exact));
    let exact_clones = match outcome {
        Ok(exact_clones) => exact_clones,
        Err(error) => {
            return Err(error);
        },
    };
    let outcome = near_selected(selection.near_clones, observed.near_clones);
    let ghost near = outcome;
    assert(selects_near(selection.near_clones, observed.near_clones, near));
    let near_clones = match outcome {
        Ok(near_clones) => near_clones,
        Err(error) => {
            return Err(error);
        },
    };
    match where_selected(selection.library_behaviors, observed.library_behaviors) {
        Ok(library_behaviors) => Ok(
            Reports { effects, exact_clones, near_clones, library_behaviors },
        ),
        Err(error) => Err(error),
    }
}

/// The analysis of a repository: where what the packs require is available, the
/// facts of the selected analyses, and what they could not read in order.
pub fn analyze_repository(
    packs: &FactPackSet,
    languages: &Vec<String>,
    selection: &AnalysisSelection,
    observed: Observations,
) -> (result: Result<FactBatch, Error>)
    requires
        all_well_placed(observed.exact_clones),
        all_well_placed(observed.near_clones),
    ensures
        ({
            let available = |name: Seq<char>|
                packs.capability_list().contains(name) || is_syntax_of(languages@, name);
            match missing_capability(packs.manifest_list(), available, 0) {
                Some((i, k)) => {
                    &&& result matches Err(Error::MissingCapability { pack, capability })
                    &&& pack@ == packs.manifest_list()[i]@.name
                    &&& capability@ == packs.manifest_list()[i]@.requires[k]
                },
                None => exists|reports: Result<Reports, Error>| #[trigger]
                    selects(*selection, observed, reports) && match reports {
                        Err(error) => result == Err::<FactBatch, Error>(error),
                        Ok(reports) => result matches Ok(batch) && gathers(
                            *packs,
                            reports,
                            batch,
                        ),
                    },
            }
        }),
{
    match packs.validate_runtime(languages) {
        Ok(()) => {},
        Err(error) => {
            return Err(error);
        },
    }
    let outcome = run_selected(selection, observed);
    let ghost found = outcome;
    assert(selects(*selection, observed, found));
    match outcome {
        Ok(reports) => Ok(gathered(packs, reports)),
        Err(error) => Err(error),
    }
}

} // verus!
