//! Derived facts about exact and similar syntax-token duplication.

pub mod clone_laws;
pub mod engine;
pub mod matches;
pub mod patterns;
pub mod token;
pub mod token_laws;

use crate::facts::{
    evidence_views, Derivation, ExactTokenClone, Fact, InputEvidence, NearTokenClone,
    TokenNormalization, ANALYZER_VERSION,
};
use crate::ordering::keys;
use crate::paths::components;
use crate::syntax::{tree_of, ParsedFile};
use engine::{
    file_views, is_clone, lines_from_one, refused_limits, reported_matches, with_file, EngineView,
    ExactEngine, FileView, MatchMode,
};
use matches::{CloneMatch, MatchView};
use token::{
    can_tokenize, evidence_of, lemma_token_lines, numbered, tokenize, tokens_in, units_in, within_source,
    Normalization, TokenizedFile,
};
use vstd::prelude::*;
use vstd::string::*;

verus! {

/// Why duplication could not be derived.
#[derive(Debug, Clone, PartialEq, Eq)]
pub enum Error {
    ParserCatalog(String),
    InvalidConfig(String),
    SourceTooLarge { path: String },
}

/// How an error reads.
pub open spec fn error_text(error: Error) -> Seq<char> {
    match error {
        Error::ParserCatalog(reason) => "could not discover parser packs: "@ + reason@,
        Error::InvalidConfig(reason) => "invalid exact-duplication configuration: "@ + reason@,
        Error::SourceTooLarge { path } => "source file "@ + path@
            + " is too large for token coordinates"@,
    }
}

impl Error {
    /// How this error reads.
    pub fn display(&self) -> (text: String)
        ensures
            text@ == error_text(*self),
    {
        match self {
            Error::ParserCatalog(reason) => {
                let mut text = "could not discover parser packs: ".to_owned();
                text.append(reason.as_str());
                text
            },
            Error::InvalidConfig(reason) => {
                let mut text = "invalid exact-duplication configuration: ".to_owned();
                text.append(reason.as_str());
                text
            },
            Error::SourceTooLarge { path } => {
                let mut text = "source file ".to_owned();
                text.append(path.as_str());
                text.append(" is too large for token coordinates");
                text
            },
        }
    }
}

/// What an exact clone has to reach to be reported.
#[derive(Debug, Clone, Copy, PartialEq, Eq, Structural)]
pub struct ExactConfig {
    pub min_tokens: u32,
    pub min_lines: u32,
}

impl Default for ExactConfig {
    fn default() -> (config: Self)
        ensures
            config == (ExactConfig { min_tokens: 50, min_lines: 5 }),
    {
        ExactConfig { min_tokens: 50, min_lines: 5 }
    }
}

/// What a near clone has to reach to be reported, and how far it may differ.
#[derive(Debug, Clone, Copy, PartialEq, Eq, Structural)]
pub struct NearConfig {
    pub min_tokens: u32,
    pub min_lines: u32,
    pub normalize_identifiers: bool,
    pub normalize_literals: bool,
    pub max_changed_percent: u8,
}

impl Default for NearConfig {
    fn default() -> (config: Self)
        ensures
            config == (NearConfig {
                min_tokens: 80,
                min_lines: 8,
                normalize_identifiers: true,
                normalize_literals: true,
                max_changed_percent: 30,
            }),
    {
        NearConfig {
            min_tokens: 80,
            min_lines: 8,
            normalize_identifiers: true,
            normalize_literals: true,
            max_changed_percent: 30,
        }
    }
}

/// Something that went wrong with one file.
#[derive(Debug, Clone, PartialEq, Eq)]
pub struct AnalysisDiagnostic {
    pub path: String,
    pub message: String,
}

/// What an analysis found.
#[derive(Debug, Clone, PartialEq, Eq)]
pub struct AnalysisReport<T> {
    pub files_parsed: usize,
    pub clones: Vec<Fact<T>>,
    pub diagnostics: Vec<AnalysisDiagnostic>,
}

/// Whether a derivation is the one of a match.
pub open spec fn derives(derivation: Derivation, analyzer: Seq<char>, matched: MatchView) -> bool {
    &&& derivation.analyzer@ == analyzer
    &&& derivation.analyzer_version@ == ANALYZER_VERSION@
    &&& evidence_views(derivation.inputs@) == seq![matched.first_input, matched.second_input]
}

/// Whether a fact states an exact match.
pub open spec fn states_exact(fact: Fact<ExactTokenClone>, matched: MatchView) -> bool {
    &&& fact.value.left@ == matched.left
    &&& fact.value.right@ == matched.right
    &&& fact.value.tokens == matched.tokens
    &&& fact.value.token_sha256@ == matched.signature_sha256
    &&& derives(fact.derivation, "duplication.exact-token"@, matched)
}

/// Whether a fact states a near match.
pub open spec fn states_near(
    fact: Fact<NearTokenClone>,
    matched: MatchView,
    normalizations: Seq<TokenNormalization>,
) -> bool {
    &&& fact.value.left@ == matched.left
    &&& fact.value.right@ == matched.right
    &&& fact.value.tokens == matched.tokens
    &&& fact.value.changed_tokens == matched.changed_tokens
    &&& fact.value.normalized_token_sha256@ == matched.signature_sha256
    &&& fact.value.normalizations@ == normalizations
    &&& derives(fact.derivation, "duplication.near-token"@, matched)
}

/// Whether a near clone has some changed token, and so is no exact clone, but no
/// more than a share of all.
pub open spec fn is_changed_within(clone: NearTokenClone, percent: u8) -> bool {
    0 < clone.changed_tokens && clone.changed_tokens * 100 <= clone.tokens * percent
}

/// How a match was derived.
fn derivation_of(analyzer: &str, matched: &CloneMatch) -> (derivation: Derivation)
    ensures
        derives(derivation, analyzer@, matched@),
{
    let mut inputs: Vec<InputEvidence> = Vec::new();
    inputs.push(matched.first_input.clone());
    inputs.push(matched.second_input.clone());
    assert(evidence_views(inputs@) =~= seq![matched.first_input@, matched.second_input@]);
    Derivation {
        analyzer: analyzer.to_owned(),
        analyzer_version: ANALYZER_VERSION.to_owned(),
        inputs,
    }
}

impl ExactEngine {
    /// An engine for exact clones.
    pub fn new(config: ExactConfig) -> (engine: Result<Self, Error>)
        ensures
            match engine {
                Ok(engine) => refused_limits(config.min_tokens, config.min_lines) is None && engine@
                    == exact_start(config),
                Err(error) => (error matches Error::InvalidConfig(reason) && refused_limits(
                    config.min_tokens,
                    config.min_lines,
                ) == Some(reason@)),
            },
    {
        ExactEngine::with_mode(config.min_tokens, config.min_lines, MatchMode::Exact)
    }

    /// The exact clones, as facts.
    pub fn facts(&self) -> (facts: Vec<Fact<ExactTokenClone>>)
        ensures
            facts@.len() == reported_matches(self@).len(),
            forall|i: int|
                0 <= i < facts@.len() ==> states_exact(
                    #[trigger] facts@[i],
                    reported_matches(self@)[i],
                ) && is_clone(self@, reported_matches(self@)[i]),
    {
        let matches = self.matches();
        let ghost views = reported_matches(self@);
        assert forall|k: int| 0 <= k < matches@.len() implies is_clone(
            self@,
            #[trigger] views[k],
        ) by {
            assert(views[k] == matches@[k]@);
        }
        let mut facts: Vec<Fact<ExactTokenClone>> = Vec::new();
        let mut i: usize = 0;
        while i < matches.len()
            invariant
                i <= matches@.len(),
                views == keys(matches@),
                facts@.len() == i,
                forall|k: int| 0 <= k < matches@.len() ==> is_clone(self@, #[trigger] views[k]),
                forall|k: int| 0 <= k < i ==> states_exact(#[trigger] facts@[k], views[k]),
            decreases matches@.len() - i,
        {
            let matched = &matches[i];
            assert(views[i as int] == matched@);
            let value = ExactTokenClone {
                left: matched.left.clone(),
                right: matched.right.clone(),
                tokens: matched.tokens,
                token_sha256: matched.signature_sha256.clone(),
            };
            facts.push(
                Fact { value, derivation: derivation_of("duplication.exact-token", matched) },
            );
            i += 1;
        }
        facts
    }
}

/// The engine that finds near clones.
pub struct NearEngine {
    inner: ExactEngine,
    normalizations: Vec<TokenNormalization>,
}

/// The content of a [`NearEngine`].
pub struct NearView {
    pub engine: EngineView,
    pub normalizations: Seq<TokenNormalization>,
}

impl View for NearEngine {
    type V = NearView;

    closed spec fn view(&self) -> NearView {
        NearView { engine: self.inner@, normalizations: self.normalizations@ }
    }
}

/// An engine for exact clones with no files.
pub open spec fn exact_start(config: ExactConfig) -> EngineView {
    EngineView {
        min_tokens: config.min_tokens,
        min_lines: config.min_lines,
        mode: MatchMode::Exact,
        files: Seq::empty(),
    }
}

/// An engine for near clones with no files.
pub open spec fn near_start(config: NearConfig) -> NearView {
    NearView {
        engine: EngineView {
            min_tokens: config.min_tokens,
            min_lines: config.min_lines,
            mode: MatchMode::Near {
                normalization: Normalization {
                    identifiers: config.normalize_identifiers,
                    literals: config.normalize_literals,
                },
                max_changed_percent: config.max_changed_percent,
            },
            files: Seq::empty(),
        },
        normalizations: (if config.normalize_identifiers {
            seq![TokenNormalization::Identifiers]
        } else {
            Seq::empty()
        }) + (if config.normalize_literals {
            seq![TokenNormalization::Literals]
        } else {
            Seq::empty()
        }),
    }
}

/// Why a configuration for near clones is refused.
pub open spec fn refused_near(config: NearConfig) -> Option<Seq<char>> {
    if !config.normalize_identifiers && !config.normalize_literals {
        Some("near clones must normalize identifiers, literals, or both"@)
    } else if config.max_changed_percent == 0 || config.max_changed_percent > 100 {
        Some("max-changed-percent must be between 1 and 100"@)
    } else {
        refused_limits(config.min_tokens, config.min_lines)
    }
}

impl NearEngine {
    /// An engine for near clones.
    pub fn new(config: NearConfig) -> (engine: Result<Self, Error>)
        ensures
            match engine {
                Ok(engine) => refused_near(config) is None && engine@ == near_start(config),
                Err(error) => (error matches Error::InvalidConfig(reason) && refused_near(config)
                    == Some(reason@)),
            },
    {
        if !config.normalize_identifiers && !config.normalize_literals {
            return Err(
                Error::InvalidConfig(
                    "near clones must normalize identifiers, literals, or both".to_owned(),
                ),
            );
        }
        if config.max_changed_percent == 0 || config.max_changed_percent > 100 {
            return Err(
                Error::InvalidConfig("max-changed-percent must be between 1 and 100".to_owned()),
            );
        }
        let normalization = Normalization {
            identifiers: config.normalize_identifiers,
            literals: config.normalize_literals,
        };
        let mut normalizations: Vec<TokenNormalization> = Vec::new();
        if normalization.identifiers {
            normalizations.push(TokenNormalization::Identifiers);
        }
        if normalization.literals {
            normalizations.push(TokenNormalization::Literals);
        }
        assert(normalizations@ =~= near_start(config).normalizations);
        let mode = MatchMode::Near {
            normalization,
            max_changed_percent: config.max_changed_percent,
        };
        match ExactEngine::with_mode(config.min_tokens, config.min_lines, mode) {
            Ok(inner) => Ok(NearEngine { inner, normalizations }),
            Err(error) => Err(error),
        }
    }

    /// Puts a file in place of the one of its path, or adds it.
    pub fn replace(&mut self, file: TokenizedFile)
        requires
            lines_from_one(file@),
            numbered(file.tokens@),
        ensures
            final(self)@ == (NearView {
                engine: EngineView {
                    files: with_file(old(self)@.engine.files, file@),
                    ..old(self)@.engine
                },
                ..old(self)@
            }),
    {
        self.inner.replace(file);
    }

    /// The near clones, as facts.
    pub fn facts(&self) -> (facts: Vec<Fact<NearTokenClone>>)
        ensures
            facts@.len() == reported_matches(self@.engine).len(),
            forall|i: int|
                0 <= i < facts@.len() ==> states_near(
                    #[trigger] facts@[i],
                    reported_matches(self@.engine)[i],
                    self@.normalizations,
                ) && is_clone(self@.engine, reported_matches(self@.engine)[i]),
    {
        let matches = self.inner.matches();
        let ghost views = reported_matches(self@.engine);
        assert forall|k: int| 0 <= k < matches@.len() implies is_clone(
            self@.engine,
            #[trigger] views[k],
        ) by {
            assert(views[k] == matches@[k]@);
        }
        let mut facts: Vec<Fact<NearTokenClone>> = Vec::new();
        let mut i: usize = 0;
        while i < matches.len()
            invariant
                i <= matches@.len(),
                views == keys(matches@),
                facts@.len() == i,
                forall|k: int|
                    0 <= k < matches@.len() ==> is_clone(self@.engine, #[trigger] views[k]),
                forall|k: int|
                    0 <= k < i ==> states_near(
                        #[trigger] facts@[k],
                        views[k],
                        self@.normalizations,
                    ),
            decreases matches@.len() - i,
        {
            let matched = &matches[i];
            assert(views[i as int] == matched@);
            let value = NearTokenClone {
                left: matched.left.clone(),
                right: matched.right.clone(),
                tokens: matched.tokens,
                changed_tokens: matched.changed_tokens,
                normalized_token_sha256: matched.signature_sha256.clone(),
                normalizations: copied_normalizations(&self.normalizations),
            };
            facts.push(
                Fact { value, derivation: derivation_of("duplication.near-token", matched) },
            );
            i += 1;
        }
        facts
    }
}

/// A list of normalizations, copied.
fn copied_normalizations(list: &Vec<TokenNormalization>) -> (copy: Vec<TokenNormalization>)
    ensures
        copy@ == list@,
{
    let mut copy: Vec<TokenNormalization> = Vec::new();
    let mut i: usize = 0;
    while i < list.len()
        invariant
            i <= list@.len(),
            copy@ == list@.take(i as int),
        decreases list@.len() - i,
    {
        copy.push(list[i]);
        assert(list@.take(i + 1) =~= list@.take(i as int).push(list@[i as int]));
        i += 1;
    }
    assert(list@.take(i as int) =~= list@);
    copy
}

/// A parsed file as a list of tokens.
pub open spec fn tokenized(parsed: ParsedFile) -> FileView {
    let tree = tree_of(parsed.root, parsed.source@);
    FileView {
        path: components(parsed.path@),
        domain: parsed.comparison_domain@,
        evidence: evidence_of(parsed),
        tokens: tokens_in(tree, parsed.tokenization@, parsed.source@),
        units: units_in(tree, parsed.tokenization@),
    }
}

/// Whether a parsed file's nodes lie within its source.
pub open spec fn well_placed(parsed: ParsedFile) -> bool {
    within_source(tree_of(parsed.root, parsed.source@), parsed.source@.len())
}

/// The first of the first so many files that cannot be tokenized.
pub open spec fn first_too_large(files: Seq<ParsedFile>, n: int) -> Option<int>
    decreases n,
{
    if n <= 0 || n > files.len() {
        None
    } else {
        match first_too_large(files, n - 1) {
            Some(i) => Some(i),
            None => if can_tokenize(files[n - 1]) {
                None
            } else {
                Some(n - 1)
            },
        }
    }
}

/// What an engine holds after the first so many files.
pub open spec fn held_upto(files: Seq<ParsedFile>, n: int) -> Seq<FileView>
    decreases n,
{
    if n <= 0 || n > files.len() {
        Seq::empty()
    } else {
        with_file(held_upto(files, n - 1), tokenized(files[n - 1]))
    }
}

/// Once a file cannot be tokenized, no later one comes first.
proof fn lemma_first_too_large(files: Seq<ParsedFile>, few: int, many: int)
    requires
        0 <= few <= many <= files.len(),
        first_too_large(files, few) is Some,
    ensures
        first_too_large(files, many) == first_too_large(files, few),
    decreases many,
{
    if few < many {
        lemma_first_too_large(files, few, many - 1);
    }
}

/// Tokenizes every file.
fn tokenize_all(files: Vec<ParsedFile>) -> (result: Result<Vec<TokenizedFile>, Error>)
    requires
        forall|i: int| 0 <= i < files@.len() ==> well_placed(#[trigger] files@[i]),
    ensures
        match result {
            Ok(list) => {
                &&& first_too_large(files@, files@.len() as int) is None
                &&& list@.len() == files@.len()
                &&& forall|i: int|
                    0 <= i < list@.len() ==> (#[trigger] list@[i])@ == tokenized(files@[i])
                        && lines_from_one(list@[i]@) && numbered(list@[i].tokens@)
            },
            Err(error) => first_too_large(files@, files@.len() as int) is Some && (
            error matches Error::SourceTooLarge { path } && path@ == files@[first_too_large(
                files@,
                files@.len() as int,
            )->0].path@),
        },
{
    let ghost all = files@;
    let count: usize = files.len();
    let mut pending = files;
    let mut list: Vec<TokenizedFile> = Vec::new();
    let mut i: usize = 0;
    while i < count
        invariant
            i <= count == all.len(),
            all == files@,
            pending@ == all.skip(i as int),
            list@.len() == i,
            first_too_large(all, i as int) is None,
            forall|k: int| 0 <= k < all.len() ==> well_placed(#[trigger] all[k]),
            forall|k: int|
                0 <= k < i ==> (#[trigger] list@[k])@ == tokenized(all[k]) && lines_from_one(
                    list@[k]@,
                ) && numbered(list@[k].tokens@),
        decreases count - i,
    {
        assert(pending@[0] == all[i as int]);
        let parsed = pending.remove(0);
        assert(pending@ =~= all.skip(i + 1));
        assert(well_placed(all[i as int]));
        match tokenize(parsed) {
            Ok(file) => {
                proof {
                    lemma_token_lines(
                        tree_of(parsed.root, parsed.source@),
                        parsed.tokenization@,
                        parsed.source@,
                    );
                }
                list.push(file);
            },
            Err(error) => {
                proof {
                    lemma_first_too_large(all, i + 1, all.len() as int);
                }
                return Err(error);
            },
        }
        i += 1;
    }
    Ok(list)
}

/// Whether the analysis of parsed files for exact clones ends so: the first file
/// that cannot be tokenized is refused, and then limits that are zero; what is
/// found otherwise is what an engine that holds the files reports.
pub open spec fn is_exact_report(
    files: Seq<ParsedFile>,
    diagnostics: Vec<AnalysisDiagnostic>,
    config: ExactConfig,
    result: Result<AnalysisReport<ExactTokenClone>, Error>,
) -> bool {
    match result {
        Ok(report) => {
            let engine = EngineView {
                files: held_upto(files, files.len() as int),
                ..exact_start(config)
            };
            &&& first_too_large(files, files.len() as int) is None
            &&& refused_limits(config.min_tokens, config.min_lines) is None
            &&& report.files_parsed == files.len()
            &&& report.diagnostics == diagnostics
            &&& report.clones@.len() == reported_matches(engine).len()
            &&& forall|i: int|
                0 <= i < report.clones@.len() ==> states_exact(
                    #[trigger] report.clones@[i],
                    reported_matches(engine)[i],
                ) && is_clone(engine, reported_matches(engine)[i])
        },
        Err(error) => match first_too_large(files, files.len() as int) {
            Some(i) => (error matches Error::SourceTooLarge { path } && path@
                == files[i].path@),
            None => (error matches Error::InvalidConfig(reason) && refused_limits(
                config.min_tokens,
                config.min_lines,
            ) == Some(reason@)),
        },
    }
}

/// Whether the analysis of parsed files for near clones ends so: the first file
/// that cannot be tokenized is refused, and then a configuration that says
/// nothing; what is found otherwise is what an engine that holds the files reports.
pub open spec fn is_near_report(
    files: Seq<ParsedFile>,
    diagnostics: Vec<AnalysisDiagnostic>,
    config: NearConfig,
    result: Result<AnalysisReport<NearTokenClone>, Error>,
) -> bool {
    match result {
        Ok(report) => {
            let engine = EngineView {
                files: held_upto(files, files.len() as int),
                ..near_start(config).engine
            };
            &&& first_too_large(files, files.len() as int) is None
            &&& refused_near(config) is None
            &&& report.files_parsed == files.len()
            &&& report.diagnostics == diagnostics
            &&& report.clones@.len() == reported_matches(engine).len()
            &&& forall|i: int|
                0 <= i < report.clones@.len() ==> states_near(
                    #[trigger] report.clones@[i],
                    reported_matches(engine)[i],
                    near_start(config).normalizations,
                ) && is_clone(engine, reported_matches(engine)[i]) && is_changed_within(
                    report.clones@[i].value,
                    config.max_changed_percent,
                )
        },
        Err(error) => match first_too_large(files, files.len() as int) {
            Some(i) => (error matches Error::SourceTooLarge { path } && path@
                == files[i].path@),
            None => (error matches Error::InvalidConfig(reason) && refused_near(config) == Some(
                reason@,
            )),
        },
    }
}

/// The exact clones in parsed files: those of the files an engine then holds.
/// The first file that cannot be tokenized is refused, and then limits that are
/// zero.
pub fn analyze_parsed(
    files: Vec<ParsedFile>,
    diagnostics: Vec<AnalysisDiagnostic>,
    config: ExactConfig,
) -> (result: Result<AnalysisReport<ExactTokenClone>, Error>)
    requires
        forall|i: int| 0 <= i < files@.len() ==> well_placed(#[trigger] files@[i]),
    ensures
        is_exact_report(files@, diagnostics, config, result),
{
    let ghost all = files@;
    let files_parsed: usize = files.len();
    let list = match tokenize_all(files) {
        Ok(list) => list,
        Err(error) => {
            return Err(error);
        },
    };
    let mut engine = match ExactEngine::new(config) {
        Ok(engine) => engine,
        Err(error) => {
            return Err(error);
        },
    };
    let ghost given = list@;
    let mut pending = list;
    let mut i: usize = 0;
    while i < files_parsed
        invariant
            i <= files_parsed == all.len(),
            given.len() == all.len(),
            pending@ == given.skip(i as int),
            forall|k: int|
                0 <= k < given.len() ==> (#[trigger] given[k])@ == tokenized(all[k])
                    && lines_from_one(given[k]@) && numbered(given[k].tokens@),
            engine@ == (EngineView { files: held_upto(all, i as int), ..exact_start(config) }),
        decreases files_parsed - i,
    {
        assert(pending@[0] == given[i as int]);
        let file = pending.remove(0);
        assert(pending@ =~= given.skip(i + 1));
        engine.replace(file);
        i += 1;
    }
    Ok(AnalysisReport { files_parsed, clones: engine.facts(), diagnostics })
}

/// The near clones in parsed files: those of the files an engine then holds. The
/// first file that cannot be tokenized is refused, and then a configuration that
/// says nothing.
pub fn analyze_parsed_near(
    files: Vec<ParsedFile>,
    diagnostics: Vec<AnalysisDiagnostic>,
    config: NearConfig,
) -> (result: Result<AnalysisReport<NearTokenClone>, Error>)
    requires
        forall|i: int| 0 <= i < files@.len() ==> well_placed(#[trigger] files@[i]),
    ensures
        is_near_report(files@, diagnostics, config, result),
{
    let ghost all = files@;
    let files_parsed: usize = files.len();
    let list = match tokenize_all(files) {
        Ok(list) => list,
        Err(error) => {
            return Err(error);
        },
    };
    let mut engine = match NearEngine::new(config) {
        Ok(engine) => engine,
        Err(error) => {
            return Err(error);
        },
    };
    let ghost given = list@;
    let ghost start = near_start(config);
    let mut pending = list;
    let mut i: usize = 0;
    while i < files_parsed
        invariant
            i <= files_parsed == all.len(),
            given.len() == all.len(),
            pending@ == given.skip(i as int),
            forall|k: int|
                0 <= k < given.len() ==> (#[trigger] given[k])@ == tokenized(all[k])
                    && lines_from_one(given[k]@) && numbered(given[k].tokens@),
            start == near_start(config),
            engine@ == (NearView {
                engine: EngineView { files: held_upto(all, i as int), ..start.engine },
                ..start
            }),
        decreases files_parsed - i,
    {
        assert(pending@[0] == given[i as int]);
        let file = pending.remove(0);
        assert(pending@ =~= given.skip(i + 1));
        engine.replace(file);
        i += 1;
    }
    Ok(AnalysisReport { files_parsed, clones: engine.facts(), diagnostics })
}

} // verus!
