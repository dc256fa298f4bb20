//! Where fallible expressions drop their errors, and how far up each failure
//! could have travelled.

pub mod captures;
pub mod collect;
pub mod graph;
pub mod laws;
pub mod naming;
pub mod naming_laws;
pub mod order;
pub mod placing;
pub mod reach;
pub mod reach_laws;
pub mod scaffold;
pub mod scaffold_laws;

use crate::facts::{
    evidence_views, settled, Derivation,
    ErrorDiscard, EvidenceView, Fact, InputEvidence, ANALYZER_VERSION,
};
use crate::lists::reversed;
use crate::ordering::{keys, settled_list, settled_of, Ordered};
use crate::syntax::{lists_name, name_list, ParsedFile};
use crate::paths::{
    components, lemma_path_order_total, path_compared, path_order, same_path,
};
use crate::text::{
    compared, lemma_text_order_total, number_order, settled_by, text_compared, text_order,
    Comparison,
};
use collect::{
    collect_file, file_discards, file_fits, file_nodes, file_view, DiscardQueries,
    FileFacts, FileView,
};
use reach::{
    discard_views, is_call_graph, is_resolved, node_views, resolve_reach, CallableNode,
    DiscardView, NodeView,
};
use vstd::prelude::*;

verus! {

/// Why an analysis of discarded errors failed.
#[derive(Debug)]
pub enum Error {
    /// A file has more lines than source coordinates can tell.
    SourceTooLarge { path: String },
    /// No parser is loaded for a pack whose queries the analysis needs.
    MissingParser { pack: String },
}

/// What an error says.
pub open spec fn error_text(error: Error) -> Seq<char> {
    match error {
        Error::SourceTooLarge { path } => "source file "@ + path@
            + " is too large for source coordinates"@,
        Error::MissingParser { pack } => "no loaded parser for pack "@ + pack@
            + ", whose queries the analysis needs"@,
    }
}

impl Error {
    /// What the error says.
    pub fn display(&self) -> (text: String)
        ensures
            text@ == error_text(*self),
    {
        match self {
            Error::SourceTooLarge { path } => {
                let mut text = "source file ".to_owned();
                text.append(path.as_str());
                text.append(" is too large for source coordinates");
                text
            },
            Error::MissingParser { pack } => {
                let mut text = "no loaded parser for pack ".to_owned();
                text.append(pack.as_str());
                text.append(", whose queries the analysis needs");
                text
            },
        }
    }
}

/// Whether each discard of a list resolves into that of another.
pub open spec fn all_resolved(
    nodes: Seq<NodeView>,
    before: Seq<DiscardView>,
    after: Seq<DiscardView>,
) -> bool {
    &&& after.len() == before.len()
    &&& exists|graph: Seq<Seq<usize>>|
        {
            &&& #[trigger] is_call_graph(nodes, graph)
            &&& forall|i: int|
                0 <= i < before.len() ==> is_resolved(nodes, graph, #[trigger] before[i], after[i])
        }
}

/// Whether a list holds discards as they are reported: each resolved, in order,
/// and none twice.
pub open spec fn are_reported(
    nodes: Seq<NodeView>,
    collected: Seq<DiscardView>,
    reported: Seq<DiscardView>,
) -> bool {
    exists|resolved: Seq<DiscardView>| #[trigger]
        all_resolved(nodes, collected, resolved) && reported == settled_of::<ErrorDiscard>(resolved)
}

/// Resolves discards, and puts them in order without repetition.
fn resolved_and_settled(discards: Vec<ErrorDiscard>, callables: &Vec<CallableNode>) -> (reported:
    Vec<ErrorDiscard>)
    ensures
        are_reported(node_views(callables@), discard_views(discards@), discard_views(reported@)),
{
    let ghost given = discard_views(discards@);
    let ghost before = discards@;
    let mut resolved = discards;
    resolve_reach(&mut resolved, callables);
    let ghost after = discard_views(resolved@);
    proof {
        let nodes = node_views(callables@);
        let graph = choose|graph: Seq<Seq<usize>>|
            {
                &&& #[trigger] is_call_graph(nodes, graph)
                &&& forall|i: int|
                    0 <= i < before.len() ==> is_resolved(
                        nodes,
                        graph,
                        (#[trigger] before[i])@,
                        resolved@[i]@,
                    )
            };
        assert forall|i: int| 0 <= i < given.len() implies is_resolved(
            nodes,
            graph,
            #[trigger] given[i],
            after[i],
        ) by {
            assert(given[i] == before[i]@);
        }
        assert(all_resolved(nodes, given, after));
        assert(keys(resolved@) =~= after);
    }
    let reported = settled_list(resolved);
    assert(keys(reported@) =~= discard_views(reported@));
    reported
}

/// The discarded-error sites of a single parsed file.
///
/// Reach is resolved against this file alone, so a caller in another file is not
/// seen. Repository analysis resolves it across every file.
pub fn analyze_file(file: &ParsedFile, queries: &DiscardQueries) -> (found: Result<
    Vec<ErrorDiscard>,
    Error,
>)
    ensures
        match found {
            Ok(discards) => {
                let view = file_view(*file, *queries);
                &&& file_fits(view)
                &&& are_reported(
                    file_nodes(view),
                    file_discards(view, view.discards.len() as int),
                    discard_views(discards@),
                )
            },
            Err(Error::SourceTooLarge { path }) => path@ == file.path@ && !file_fits(
                file_view(*file, *queries),
            ),
            Err(_) => false,
        },
{
    match collect_file(file, queries) {
        Ok(facts) => Ok(resolved_and_settled(facts.discards, &facts.callables)),
        Err(error) => Err(error),
    }
}

/// Whether a language's queries say anything about discarded errors at all.
pub open spec fn describes(names: Seq<Seq<char>>) -> bool {
    names.contains("callables"@) && names.contains("discards"@)
}

/// Whether a language's queries say anything about discarded errors at all.
pub fn describes_discards(query_names: &Vec<String>) -> (described: bool)
    ensures
        described == describes(name_list(query_names@)),
{
    lists_name(query_names, "callables") && lists_name(query_names, "discards")
}

/// A file of a repository, with what the queries of its language found in it.
#[derive(Debug)]
pub struct QueriedFile {
    pub file: ParsedFile,
    /// The queries that the language ships.
    pub query_names: Vec<String>,
    pub queries: DiscardQueries,
}

/// What could not be analyzed, and why.
#[derive(Debug, Clone, PartialEq, Eq)]
pub struct ErrorDiagnostic {
    pub path: String,
    pub line: u32,
    pub message: String,
}

/// The content of an [`ErrorDiagnostic`].
pub struct DiagnosticView {
    pub path: Seq<Seq<char>>,
    pub line: u32,
    pub message: Seq<char>,
}

impl View for ErrorDiagnostic {
    type V = DiagnosticView;

    open spec fn view(&self) -> DiagnosticView {
        DiagnosticView { path: components(self.path@), line: self.line, message: self.message@ }
    }
}

/// The contents of diagnostics.
pub open spec fn diagnostic_views(diagnostics: Seq<ErrorDiagnostic>) -> Seq<DiagnosticView> {
    Seq::new(diagnostics.len(), |i: int| diagnostics[i]@)
}

impl Ordered for ErrorDiagnostic {
    type Key = DiagnosticView;

    open spec fn key(&self) -> DiagnosticView {
        self@
    }

    open spec fn order(left: DiagnosticView, right: DiagnosticView) -> Comparison {
        settled_by(
            path_order(left.path, right.path),
            settled_by(
                number_order(left.line as int, right.line as int),
                text_order(left.message, right.message),
            ),
        )
    }

    proof fn order_is_total(first: DiagnosticView, second: DiagnosticView, third: DiagnosticView) {
        lemma_path_order_total(first.path, second.path, third.path);
        lemma_text_order_total(first.message, second.message, third.message);
    }

    fn ordered(&self, other: &ErrorDiagnostic) -> (order: Comparison) {
        settled(
            path_compared(self.path.as_str(), other.path.as_str()),
            settled(
                compared(self.line, other.line),
                text_compared(self.message.as_str(), other.message.as_str()),
            ),
        )
    }
}

/// What an analysis of a repository found.
#[derive(Debug)]
pub struct RepositoryErrorReport {
    pub discards: Vec<Fact<ErrorDiscard>>,
    pub diagnostics: Vec<ErrorDiagnostic>,
}

/// A file that a parser could not read, and why.
#[derive(Debug)]
pub struct ParseDiagnostic {
    pub path: String,
    pub message: String,
}

/// The diagnostics that a parser's become: each at the first line.
pub open spec fn told_diagnostics(given: Seq<ParseDiagnostic>) -> Seq<DiagnosticView> {
    Seq::new(
        given.len(),
        |i: int|
            DiagnosticView {
                path: components(given[i].path@),
                line: 1,
                message: given[i].message@,
            },
    )
}

/// Whether a file's language says anything about discarded errors.
pub open spec fn is_described(file: QueriedFile) -> bool {
    describes(name_list(file.query_names@))
}

/// What a file was read from.
pub open spec fn evidence_of(file: ParsedFile) -> EvidenceView {
    EvidenceView {
        path: components(file.path@),
        content_sha256: file.provenance.source_sha256@,
        parser_id: file.provenance.parser_id@,
        parser_version: file.provenance.parser_version@,
        grammar_sha256: file.provenance.grammar_sha256@,
        queries_sha256: file.provenance.queries_sha256@,
    }
}

/// The callables of the first so many files.
pub open spec fn all_nodes(files: Seq<QueriedFile>, n: int) -> Seq<NodeView>
    decreases n,
{
    if n <= 0 {
        Seq::empty()
    } else if is_described(files[n - 1]) {
        all_nodes(files, n - 1) + file_nodes(file_view(files[n - 1].file, files[n - 1].queries))
    } else {
        all_nodes(files, n - 1)
    }
}

/// The discards of one file.
pub open spec fn discards_in(file: QueriedFile) -> Seq<DiscardView> {
    let view = file_view(file.file, file.queries);
    file_discards(view, view.discards.len() as int)
}

/// The discards of the first so many files.
pub open spec fn all_discards(files: Seq<QueriedFile>, n: int) -> Seq<DiscardView>
    decreases n,
{
    if n <= 0 {
        Seq::empty()
    } else if is_described(files[n - 1]) {
        all_discards(files, n - 1) + discards_in(files[n - 1])
    } else {
        all_discards(files, n - 1)
    }
}

/// Whether a file is described but has more lines than can be told.
pub open spec fn is_too_large(file: QueriedFile) -> bool {
    is_described(file) && !file_fits(file_view(file.file, file.queries))
}

/// The last described file of a path, of the first so many.
pub open spec fn file_of_path(files: Seq<QueriedFile>, path: Seq<Seq<char>>, n: int) -> Option<int>
    decreases n,
{
    if n <= 0 || n > files.len() {
        None
    } else if is_described(files[n - 1]) && components(files[n - 1].file.path@) == path {
        Some(n - 1)
    } else {
        file_of_path(files, path, n - 1)
    }
}

/// The inputs that a discard was derived from: the file it stands in.
pub open spec fn discard_inputs(files: Seq<QueriedFile>, discard: DiscardView) -> Seq<
    EvidenceView,
> {
    match file_of_path(files, discard.span.path, files.len() as int) {
        Some(i) => seq![evidence_of(files[i].file)],
        None => Seq::empty(),
    }
}

/// Whether a fact tells how its discard was derived.
pub open spec fn tells_derivation(files: Seq<QueriedFile>, fact: Fact<ErrorDiscard>) -> bool {
    &&& fact.derivation.analyzer@ == "infact-errors"@
    &&& fact.derivation.analyzer_version@ == ANALYZER_VERSION@
    &&& evidence_views(fact.derivation.inputs@) == discard_inputs(files, fact.value@)
}

/// The discards that facts state.
pub open spec fn fact_views(facts: Seq<Fact<ErrorDiscard>>) -> Seq<DiscardView> {
    Seq::new(facts.len(), |i: int| facts[i].value@)
}

/// What a file was read from.
pub fn input_evidence(file: &ParsedFile) -> (evidence: InputEvidence)
    ensures
        evidence@ == evidence_of(*file),
        evidence.path@ == file.path@,
{
    InputEvidence {
        path: file.path.clone(),
        content_sha256: file.provenance.source_sha256.clone(),
        parser_id: file.provenance.parser_id.clone(),
        parser_version: file.provenance.parser_version.clone(),
        grammar_sha256: file.provenance.grammar_sha256.clone(),
        queries_sha256: file.provenance.queries_sha256.clone(),
    }
}

/// How a discard was derived.
#[verifier::loop_isolation(false)]
fn discard_derivation(discard: &ErrorDiscard, files: &Vec<QueriedFile>) -> (derivation: Derivation)
    ensures
        derivation.analyzer@ == "infact-errors"@,
        derivation.analyzer_version@ == ANALYZER_VERSION@,
        evidence_views(derivation.inputs@) == discard_inputs(files@, discard@),
{
    let mut inputs: Vec<InputEvidence> = Vec::new();
    let ghost path = discard@.span.path;
    assert(evidence_views(inputs@) =~= Seq::empty());
    let mut n: usize = files.len();
    while n > 0 && inputs.len() == 0
        invariant
            n <= files@.len(),
            inputs@.len() == 0 ==> file_of_path(files@, path, files@.len() as int) == file_of_path(
                files@,
                path,
                n as int,
            ),
            inputs@.len() != 0 ==> evidence_views(inputs@) == discard_inputs(files@, discard@),
        decreases n,
    {
        n -= 1;
        let file = &files[n];
        if describes_discards(&file.query_names) && same_path(
            file.file.path.as_str(),
            discard.span.path.as_str(),
        ) {
            inputs.push(input_evidence(&file.file));
            assert(evidence_views(inputs@) =~= seq![evidence_of(file.file)]);
        }
    }
    if inputs.len() == 0 {
        assert(evidence_views(inputs@) =~= Seq::empty());
    }
    Derivation {
        analyzer: "infact-errors".to_owned(),
        analyzer_version: ANALYZER_VERSION.to_owned(),
        inputs,
    }
}

/// The callables and discards of every described file.
#[verifier::loop_isolation(false)]
fn collect_files(files: &Vec<QueriedFile>) -> (found: Result<
    (Vec<ErrorDiscard>, Vec<CallableNode>),
    Error,
>)
    ensures
        match found {
            Ok((discards, callables)) => {
                &&& forall|i: int| 0 <= i < files@.len() ==> !is_too_large(#[trigger] files@[i])
                &&& discard_views(discards@) == all_discards(files@, files@.len() as int)
                &&& node_views(callables@) == all_nodes(files@, files@.len() as int)
            },
            Err(Error::SourceTooLarge { path }) => exists|i: int|
                {
                    &&& 0 <= i < files@.len()
                    &&& is_too_large(#[trigger] files@[i])
                    &&& path@ == files@[i].file.path@
                    &&& forall|j: int| 0 <= j < i ==> !is_too_large(#[trigger] files@[j])
                },
            Err(_) => false,
        },
{
    let mut discards: Vec<ErrorDiscard> = Vec::new();
    let mut callables: Vec<CallableNode> = Vec::new();
    let mut i: usize = 0;
    assert(discard_views(discards@) =~= Seq::empty());
    assert(node_views(callables@) =~= Seq::empty());
    while i < files.len()
        invariant
            i <= files@.len(),
            discard_views(discards@) == all_discards(files@, i as int),
            node_views(callables@) == all_nodes(files@, i as int),
            forall|j: int| 0 <= j < i ==> !is_too_large(#[trigger] files@[j]),
        decreases files@.len() - i,
    {
        let file = &files[i];
        if describes_discards(&file.query_names) {
            match collect_file(&file.file, &file.queries) {
                Ok(facts) => {
                    let FileFacts { discards: mut found, callables: mut nodes } = facts;
                    let ghost one = discards@;
                    let ghost two = found@;
                    let ghost three = callables@;
                    let ghost four = nodes@;
                    discards.append(&mut found);
                    callables.append(&mut nodes);
                    assert(discard_views(discards@) =~= discard_views(one) + discard_views(two));
                    assert(node_views(callables@) =~= node_views(three) + node_views(four));
                },
                Err(error) => {
                    assert(is_too_large(files@[i as int]));
                    return Err(error);
                },
            }
        }
        i += 1;
    }
    Ok((discards, callables))
}

/// Every discarded-error site in the parsed files of a repository.
///
/// A file is analyzed when its language ships the queries this needs. One that
/// ships neither describes no discard forms, which is a different thing from
/// having none, so it is skipped in silence rather than reported as clean.
#[verifier::loop_isolation(false)]
pub fn analyze_repository_errors(
    files: &Vec<QueriedFile>,
    diagnostics: Vec<ParseDiagnostic>,
) -> (found: Result<RepositoryErrorReport, Error>)
    ensures
        match found {
            Ok(report) => {
                &&& forall|i: int| 0 <= i < files@.len() ==> !is_too_large(#[trigger] files@[i])
                &&& are_reported(
                    all_nodes(files@, files@.len() as int),
                    all_discards(files@, files@.len() as int),
                    fact_views(report.discards@),
                )
                &&& forall|i: int|
                    0 <= i < report.discards@.len() ==> tells_derivation(
                        files@,
                        #[trigger] report.discards@[i],
                    )
                &&& diagnostic_views(report.diagnostics@) == settled_of::<ErrorDiagnostic>(
                    told_diagnostics(diagnostics@),
                )
            },
            Err(Error::SourceTooLarge { path }) => exists|i: int|
                {
                    &&& 0 <= i < files@.len()
                    &&& is_too_large(#[trigger] files@[i])
                    &&& path@ == files@[i].file.path@
                    &&& forall|j: int| 0 <= j < i ==> !is_too_large(#[trigger] files@[j])
                },
            Err(_) => false,
        },
{
    let (discards, callables) = match collect_files(files) {
        Ok(collected) => collected,
        Err(error) => {
            return Err(error);
        },
    };
    // The call graph spans files, so reach is resolved once over the whole
    // repository rather than per file.
    let values = resolved_and_settled(discards, &callables);
    let ghost reported = discard_views(values@);
    let mut facts: Vec<Fact<ErrorDiscard>> = Vec::new();
    let count: usize = values.len();
    let mut i: usize = 0;
    let mut rest = reversed(values);
    let ghost backward = rest@;
    assert(forall|k: int|
        0 <= k < count ==> (#[trigger] backward[k])@ == reported[count - 1 - k]);
    while i < count
        invariant
            i <= count,
            rest@ == backward.take(count - i),
            facts@.len() == i,
            forall|k: int| 0 <= k < i ==> (#[trigger] facts@[k]).value@ == reported[k],
            forall|k: int| 0 <= k < i ==> tells_derivation(files@, #[trigger] facts@[k]),
        decreases count - i,
    {
        match rest.pop() {
            Some(value) => {
                assert(value == backward[count - 1 - i]);
                let derivation = discard_derivation(&value, files);
                facts.push(Fact { value, derivation });
                assert(rest@ =~= backward.take(count - i - 1));
            },
            None => {
                assert(false);
            },
        }
        i += 1;
    }
    assert(fact_views(facts@) =~= reported);
    let mut told: Vec<ErrorDiagnostic> = Vec::new();
    let mut k: usize = 0;
    while k < diagnostics.len()
        invariant
            k <= diagnostics@.len(),
            diagnostic_views(told@) =~= told_diagnostics(diagnostics@).take(k as int),
        decreases diagnostics@.len() - k,
    {
        let ghost before = told@;
        told.push(
            ErrorDiagnostic {
                path: diagnostics[k].path.clone(),
                line: 1,
                message: diagnostics[k].message.clone(),
            },
        );
        assert(diagnostic_views(told@) =~= diagnostic_views(before).push(told@.last()@));
        k += 1;
    }
    assert(diagnostic_views(told@) =~= told_diagnostics(diagnostics@));
    assert(keys(told@) =~= diagnostic_views(told@));
    let settled_diagnostics = settled_list(told);
    assert(keys(settled_diagnostics@) =~= diagnostic_views(settled_diagnostics@));
    Ok(RepositoryErrorReport { discards: facts, diagnostics: settled_diagnostics })
}

} // verus!
