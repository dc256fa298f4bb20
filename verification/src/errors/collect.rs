//! What one file contributes: its discards, and its slice of the call graph.

use super::captures::{
    captured, captured_text, covers, innermost, innermost_of, match_views, region_covers,
    CaptureView, QueryMatch, Region,
};
use super::naming::{module_of, repository_module, shortened, truncate};
use super::reach::{
    call_views, discard_views, node_views, CallView, CallableNode, Callsite, DiscardView, NodeView,
};
use super::scaffold::{
    block_regions, body_regions, implementation_views, item_view, scaffold, scaffold_of,
    scaffold_view, ErrorHandlingManifest, HandlingView, ItemView, MarkersView, Scaffold,
    ScaffoldView, TestMarkers,
};
use super::Error;
use crate::paths::components;
use crate::facts::{
    discard_spelling, Certainty, Containment, DiscardForm, ErrorDiscard, Reach, SourceSpan,
    SpanView,
};
use crate::normalize::form::optional_text;
use crate::syntax::{lists_name, part_in, tree_of, Extent, ParsedFile, SyntaxNode, Tree};
use vstd::prelude::*;
use vstd::string::*;

verus! {

/// What a language's queries found in a file, and what its description says.
#[derive(Debug)]
pub struct DiscardQueries {
    pub callables: Vec<QueryMatch>,
    pub discards: Vec<QueryMatch>,
    pub error_handling: ErrorHandlingManifest,
    pub tests: TestMarkers,
}

/// The content of a file and of what the queries found in it.
pub struct FileView {
    pub path: Seq<char>,
    pub tree: Tree,
    pub callables: Seq<Seq<CaptureView>>,
    pub discards: Seq<Seq<CaptureView>>,
    pub types: HandlingView,
    pub markers: MarkersView,
}

/// The content of a file and of what the queries found in it.
pub open spec fn file_view(file: ParsedFile, queries: DiscardQueries) -> FileView {
    FileView {
        path: file.path@,
        tree: tree_of(file.root, file.source@),
        callables: match_views(queries.callables@),
        discards: match_views(queries.discards@),
        types: queries.error_handling@,
        markers: queries.tests@,
    }
}

/// The scaffolding of a file.
pub open spec fn file_scaffold(file: FileView) -> ScaffoldView {
    scaffold_of(file.tree, file.callables, file.types, file.markers)
}

/// Whether the rows of a node can be told as line numbers.
pub open spec fn span_fits(extent: Extent) -> bool {
    extent.start_row < u32::MAX && extent.end_row < u32::MAX
}

/// A column counted from one, where it can be told.
pub open spec fn told_column(column: usize) -> Option<u32> {
    if column < u32::MAX {
        Some((column + 1) as u32)
    } else {
        None
    }
}

/// Where a node stands, lines and columns counted from one.
pub open spec fn span_at(path: Seq<char>, extent: Extent) -> SpanView {
    SpanView {
        path: components(path),
        start_byte: Some(extent.start_byte as u64),
        end_byte: Some(extent.end_byte as u64),
        start_line: (extent.start_row + 1) as u32,
        end_line: (extent.end_row + 1) as u32,
        start_column: told_column(extent.start_column),
        end_column: told_column(extent.end_column),
    }
}

/// A column counted from one, where it can be told.
fn column_number(column: usize) -> (number: Option<u32>)
    ensures
        number == told_column(column),
{
    if column < u32::MAX as usize {
        Some((column + 1) as u32)
    } else {
        None
    }
}

/// Where a node stands, lines and columns counted from one.
///
/// A row past what a line number can hold is an error; a column is left out.
pub fn source_span(path: &String, node: &SyntaxNode) -> (span: Result<SourceSpan, Error>)
    ensures
        match span {
            Ok(span) => span.path@ == path@ && forall|source: Seq<u8>|
                {
                    &&& span_fits((#[trigger] tree_of(*node, source)).extent)
                    &&& span@ == span_at(path@, tree_of(*node, source).extent)
                },
            Err(Error::SourceTooLarge { path: too_large }) => too_large@ == path@ && forall|
                source: Seq<u8>,
            |
                !span_fits((#[trigger] tree_of(*node, source)).extent),
            Err(_) => false,
        },
{
    if node.start_row >= u32::MAX as usize || node.end_row >= u32::MAX as usize {
        return Err(Error::SourceTooLarge { path: path.clone() });
    }
    Ok(
        SourceSpan {
            path: path.clone(),
            start_byte: Some(node.start_byte as u64),
            end_byte: Some(node.end_byte as u64),
            start_line: (node.start_row + 1) as u32,
            end_line: (node.end_row + 1) as u32,
            start_column: column_number(node.start_column),
            end_column: column_number(node.end_column),
        },
    )
}

/// The path of a callable: its module, the type it is implemented for where it
/// stands in an implementation, and its name.
pub open spec fn callable_path(
    module: Seq<char>,
    blocks: Seq<(Seq<char>, Region)>,
    item: ItemView,
) -> Seq<char> {
    match innermost_of(block_regions(blocks), item.item.start as int) {
        Some(i) => module + "::"@ + blocks[i].0 + "::"@ + item.name,
        None => module + "::"@ + item.name,
    }
}

/// The calls, of the first so many, whose innermost callable is one.
pub open spec fn calls_within(
    path: Seq<char>,
    scaffold: ScaffoldView,
    callable: int,
    n: int,
) -> Seq<CallView>
    decreases n,
{
    if n <= 0 {
        Seq::empty()
    } else {
        let before = calls_within(path, scaffold, callable, n - 1);
        let (callee, site) = scaffold.calls[n - 1];
        if innermost_of(body_regions(scaffold.callables), site.extent.start_byte as int) == Some(
            callable,
        ) {
            before.push(CallView { callee, span: span_at(path, site.extent) })
        } else {
            before
        }
    }
}

/// The callables of a file, each with the calls written in it.
pub open spec fn file_nodes(file: FileView) -> Seq<NodeView> {
    let scaffold = file_scaffold(file);
    Seq::new(
        scaffold.callables.len(),
        |i: int|
            NodeView {
                path: callable_path(
                    module_of(file.path),
                    scaffold.implementations,
                    scaffold.callables[i],
                ),
                name: scaffold.callables[i].name,
                containment: scaffold.callables[i].containment,
                calls: calls_within(file.path, scaffold, i, scaffold.calls.len() as int),
            },
    )
}

/// The capture that names a way of dropping an error.
pub open spec fn form_capture(form: DiscardForm) -> Seq<char> {
    match form {
        DiscardForm::LetUnderscore => "discard.let-underscore"@,
        DiscardForm::OkBinding => "discard.ok-binding"@,
        DiscardForm::ErrArm => "discard.err-arm"@,
        DiscardForm::OkDiscard => "discard.ok-discard"@,
        DiscardForm::UnwrapOr => "discard.unwrap-or"@,
        DiscardForm::CauseErased => "discard.cause-erased"@,
        DiscardForm::Panic => "discard.panic"@,
        DiscardForm::IteratorDrop => "discard.iterator-drop"@,
    }
}

/// The capture that names a way of dropping an error.
fn capture_of(form: DiscardForm) -> (name: &'static str)
    ensures
        name@ == form_capture(form),
{
    match form {
        DiscardForm::LetUnderscore => "discard.let-underscore",
        DiscardForm::OkBinding => "discard.ok-binding",
        DiscardForm::ErrArm => "discard.err-arm",
        DiscardForm::OkDiscard => "discard.ok-discard",
        DiscardForm::UnwrapOr => "discard.unwrap-or",
        DiscardForm::CauseErased => "discard.cause-erased",
        DiscardForm::Panic => "discard.panic",
        DiscardForm::IteratorDrop => "discard.iterator-drop",
    }
}

/// Whether a match captured something as a way of dropping an error.
pub open spec fn has_form(tree: Tree, captures: Seq<CaptureView>, form: DiscardForm) -> bool {
    captured(tree, captures, form_capture(form)) is Some
}

/// The way of dropping an error that a match found, in the order they are tried.
pub open spec fn matched_form(tree: Tree, captures: Seq<CaptureView>) -> Option<DiscardForm> {
    if has_form(tree, captures, DiscardForm::LetUnderscore) {
        Some(DiscardForm::LetUnderscore)
    } else if has_form(tree, captures, DiscardForm::OkBinding) {
        Some(DiscardForm::OkBinding)
    } else if has_form(tree, captures, DiscardForm::ErrArm) {
        Some(DiscardForm::ErrArm)
    } else if has_form(tree, captures, DiscardForm::OkDiscard) {
        Some(DiscardForm::OkDiscard)
    } else if has_form(tree, captures, DiscardForm::UnwrapOr) {
        Some(DiscardForm::UnwrapOr)
    } else if has_form(tree, captures, DiscardForm::CauseErased) {
        Some(DiscardForm::CauseErased)
    } else if has_form(tree, captures, DiscardForm::Panic) {
        Some(DiscardForm::Panic)
    } else if has_form(tree, captures, DiscardForm::IteratorDrop) {
        Some(DiscardForm::IteratorDrop)
    } else {
        None
    }
}

/// Whether a match captured something as a way of dropping an error.
fn captures_form(
    matched: &QueryMatch,
    root: &SyntaxNode,
    form: DiscardForm,
    source: Ghost<Seq<u8>>,
) -> (has: bool)
    ensures
        has == has_form(tree_of(*root, source@), matched@, form),
{
    matched.capture(root, capture_of(form), source).is_some()
}

/// The way of dropping an error that a match found.
fn form_of(matched: &QueryMatch, root: &SyntaxNode, source: Ghost<Seq<u8>>) -> (form: Option<
    DiscardForm,
>)
    ensures
        form == matched_form(tree_of(*root, source@), matched@),
{
    if captures_form(matched, root, DiscardForm::LetUnderscore, source) {
        Some(DiscardForm::LetUnderscore)
    } else if captures_form(matched, root, DiscardForm::OkBinding, source) {
        Some(DiscardForm::OkBinding)
    } else if captures_form(matched, root, DiscardForm::ErrArm, source) {
        Some(DiscardForm::ErrArm)
    } else if captures_form(matched, root, DiscardForm::OkDiscard, source) {
        Some(DiscardForm::OkDiscard)
    } else if captures_form(matched, root, DiscardForm::UnwrapOr, source) {
        Some(DiscardForm::UnwrapOr)
    } else if captures_form(matched, root, DiscardForm::CauseErased, source) {
        Some(DiscardForm::CauseErased)
    } else if captures_form(matched, root, DiscardForm::Panic, source) {
        Some(DiscardForm::Panic)
    } else if captures_form(matched, root, DiscardForm::IteratorDrop, source) {
        Some(DiscardForm::IteratorDrop)
    } else {
        None
    }
}

/// The method a receiver expression itself calls, when it calls one.
pub open spec fn called_method(tree: Tree) -> Option<Seq<char>> {
    match part_in(tree, "function"@) {
        Some(function) => match part_in(function, "field"@) {
            Some(field) => field.text,
            None => None,
        },
        None => None,
    }
}

/// The method a receiver expression itself calls, when it calls one.
pub fn receiver_method(node: &SyntaxNode, source: &Vec<u8>) -> (method: Option<String>)
    ensures
        optional_text(method) == called_method(tree_of(*node, source@)),
{
    match node.child_by_field("function", Ghost(source@)) {
        Some(function) => match function.child_by_field("field", Ghost(source@)) {
            Some(field) => field.text(source),
            None => None,
        },
        None => None,
    }
}

/// Whether a match answers a query rather than drops a failure: its form is one
/// where the failure's type says so, and the receiver calls a method whose
/// failure means an absence.
pub open spec fn answers_query(
    file: FileView,
    captures: Seq<CaptureView>,
    form: DiscardForm,
) -> bool {
    file.types.non_failure_results_forms.contains(discard_spelling(form)) && match captured(
        file.tree,
        captures,
        form_capture(form) + ".expression"@,
    ) {
        Some(node) => match called_method(node) {
            Some(method) => file.types.non_failure_results.contains(method),
            None => false,
        },
        None => false,
    }
}

/// The way of dropping an error that a match reports: not one whose cause the
/// match shows to be read, nor one that answers a query.
pub open spec fn reported_form(file: FileView, captures: Seq<CaptureView>) -> Option<DiscardForm> {
    match matched_form(file.tree, captures) {
        Some(form) => if captured(file.tree, captures, form_capture(form) + ".bind"@) is Some
            || answers_query(file, captures, form) {
            None
        } else {
            Some(form)
        },
        None => None,
    }
}

/// The innermost callable around a node.
pub open spec fn enclosing(scaffold: ScaffoldView, site: Tree) -> Option<int> {
    innermost_of(body_regions(scaffold.callables), site.extent.start_byte as int)
}

/// Whether a node stands in a test.
pub open spec fn in_a_test(tests: Seq<Region>, point: int) -> bool {
    exists|i: int| 0 <= i < tests.len() && region_covers(#[trigger] tests[i], point)
}

/// The discard that a match reports.
pub open spec fn reported_discard(
    file: FileView,
    captures: Seq<CaptureView>,
    form: DiscardForm,
) -> DiscardView {
    let scaffold = file_scaffold(file);
    let site = captured(file.tree, captures, form_capture(form))->0;
    let text = captured_text(file.tree, captures, form_capture(form) + ".expression"@);
    let (callable, node, containment) = match enclosing(scaffold, site) {
        Some(i) => (
            callable_path(
                module_of(file.path),
                scaffold.implementations,
                scaffold.callables[i],
            ),
            scaffold.callables[i].node,
            scaffold.callables[i].containment,
        ),
        None => (module_of(file.path), file.tree, Containment::Infallible),
    };
    DiscardView {
        callable,
        callable_span: span_at(file.path, node.extent),
        form,
        containment,
        certainty: if file.types.ambiguous_forms.contains(discard_spelling(form)) {
            Certainty::Possible
        } else {
            Certainty::Certain
        },
        expression: shortened(
            match text {
                Some(text) => text,
                None => Seq::empty(),
            },
        ),
        span: span_at(file.path, site.extent),
        in_test: in_a_test(scaffold.tests, site.extent.start_byte as int),
        reach: Reach::Unknown,
        path: Seq::empty(),
    }
}

/// The discards that the first so many matches report.
pub open spec fn file_discards(file: FileView, n: int) -> Seq<DiscardView>
    decreases n,
{
    if n <= 0 {
        Seq::empty()
    } else {
        let before = file_discards(file, n - 1);
        match reported_form(file, file.discards[n - 1]) {
            Some(form) => before.push(reported_discard(file, file.discards[n - 1], form)),
            None => before,
        }
    }
}

/// Whether the nodes that a match reports have rows that can be told.
pub open spec fn match_fits(file: FileView, captures: Seq<CaptureView>) -> bool {
    match reported_form(file, captures) {
        Some(form) => {
            let scaffold = file_scaffold(file);
            let site = captured(file.tree, captures, form_capture(form))->0;
            &&& span_fits(site.extent)
            &&& match enclosing(scaffold, site) {
                Some(i) => span_fits(scaffold.callables[i].node.extent),
                None => span_fits(file.tree.extent),
            }
        },
        None => true,
    }
}

/// Whether a call that stands in a callable has rows that can be told.
pub open spec fn call_fits(scaffold: ScaffoldView, k: int) -> bool {
    enclosing(scaffold, scaffold.calls[k].1) is Some ==> span_fits(scaffold.calls[k].1.extent)
}

/// Whether everything a file contributes has rows that can be told.
pub open spec fn file_fits(file: FileView) -> bool {
    let scaffold = file_scaffold(file);
    &&& forall|k: int| 0 <= k < scaffold.calls.len() ==> #[trigger] call_fits(scaffold, k)
    &&& forall|i: int|
        0 <= i < file.discards.len() ==> match_fits(file, #[trigger] file.discards[i])
}

/// What one file contributes.
pub struct FileFacts {
    pub discards: Vec<ErrorDiscard>,
    pub callables: Vec<CallableNode>,
}

/// The regions of the bodies of callables.
#[verifier::loop_isolation(false)]
fn bodies_of(scaffold: &Scaffold<'_>, source: Ghost<Seq<u8>>) -> (regions: Vec<Region>)
    ensures
        regions@ == body_regions(scaffold_view(*scaffold, source@).callables),
{
    let ghost items = scaffold_view(*scaffold, source@).callables;
    let mut regions: Vec<Region> = Vec::new();
    let mut i: usize = 0;
    while i < scaffold.callables.len()
        invariant
            i <= scaffold.callables@.len(),
            regions@ == body_regions(items).take(i as int),
        decreases scaffold.callables@.len() - i,
    {
        assert(items[i as int] == item_view(scaffold.callables@[i as int], source@));
        assert(body_regions(items).take(i + 1) =~= body_regions(items).take(i as int).push(
            scaffold.callables@[i as int].body,
        ));
        regions.push(scaffold.callables[i].body);
        i += 1;
    }
    assert(regions@ =~= body_regions(items));
    regions
}

/// The regions of the blocks that implement types.
#[verifier::loop_isolation(false)]
fn blocks_of(scaffold: &Scaffold<'_>) -> (regions: Vec<Region>)
    ensures
        regions@ == block_regions(implementation_views(scaffold.implementations@)),
{
    let ghost blocks = implementation_views(scaffold.implementations@);
    let mut regions: Vec<Region> = Vec::new();
    let mut i: usize = 0;
    while i < scaffold.implementations.len()
        invariant
            i <= scaffold.implementations@.len(),
            regions@ == block_regions(blocks).take(i as int),
        decreases scaffold.implementations@.len() - i,
    {
        assert(blocks[i as int].1 == scaffold.implementations@[i as int].region);
        assert(block_regions(blocks).take(i + 1) =~= block_regions(blocks).take(i as int).push(
            scaffold.implementations@[i as int].region,
        ));
        regions.push(scaffold.implementations[i].region);
        i += 1;
    }
    assert(regions@ =~= block_regions(blocks));
    regions
}

/// The path of a callable.
fn path_of(module: &String, scaffold: &Scaffold<'_>, blocks: &Vec<Region>, place: usize, source: Ghost<Seq<u8>>) -> (path: String)
    requires
        place < scaffold.callables@.len(),
        blocks@ == block_regions(implementation_views(scaffold.implementations@)),
    ensures
        path@ == callable_path(
            module@,
            scaffold_view(*scaffold, source@).implementations,
            scaffold_view(*scaffold, source@).callables[place as int],
        ),
{
    let item = &scaffold.callables[place];
    assert(scaffold_view(*scaffold, source@).callables[place as int] == item_view(*item, source@));
    let mut path = module.clone();
    path.append("::");
    if let Some(i) = innermost(blocks, item.item.start) {
        assert(implementation_views(scaffold.implementations@)[i as int].0
            == scaffold.implementations@[i as int].name@);
        path.append(scaffold.implementations[i].name.as_str());
        path.append("::");
    }
    path.append(item.name.as_str());
    path
}

/// The calls whose innermost callable is one.
///
/// A call belongs to the callable whose body encloses it. One written outside
/// every callable belongs to nothing, because a module cannot be called.
#[verifier::loop_isolation(false)]
fn calls_of_callable(
    path: &String,
    scaffold: &Scaffold<'_>,
    owners: &Vec<Option<usize>>,
    callable: usize,
    source: Ghost<Seq<u8>>,
) -> (found: Result<Vec<Callsite>, Error>)
    requires
        owners@.len() == scaffold.calls@.len(),
        forall|k: int|
            0 <= k < owners@.len() ==> owner_matches(
                #[trigger] owners@[k],
                enclosing(
                    scaffold_view(*scaffold, source@),
                    scaffold_view(*scaffold, source@).calls[k].1,
                ),
            ),
    ensures
        match found {
            Ok(calls) => {
                &&& call_views(calls@) == calls_within(
                    path@,
                    scaffold_view(*scaffold, source@),
                    callable as int,
                    scaffold.calls@.len() as int,
                )
                &&& forall|k: int|
                    0 <= k < scaffold.calls@.len() && enclosing(
                        scaffold_view(*scaffold, source@),
                        (#[trigger] scaffold_view(*scaffold, source@).calls[k]).1,
                    ) == Some(callable as int) ==> span_fits(
                        scaffold_view(*scaffold, source@).calls[k].1.extent,
                    )
            },
            Err(Error::SourceTooLarge { path: too_large }) => {
                &&& too_large@ == path@
                &&& exists|k: int|
                    0 <= k < scaffold.calls@.len() && !#[trigger] call_fits(
                        scaffold_view(*scaffold, source@),
                        k,
                    )
            },
            Err(_) => false,
        },
{
    let ghost view = scaffold_view(*scaffold, source@);
    let mut calls: Vec<Callsite> = Vec::new();
    let mut k: usize = 0;
    assert(call_views(calls@) =~= Seq::empty());
    while k < scaffold.calls.len()
        invariant
            k <= scaffold.calls@.len(),
            call_views(calls@) == calls_within(path@, view, callable as int, k as int),
            forall|j: int|
                0 <= j < k && enclosing(view, (#[trigger] view.calls[j]).1) == Some(callable as int)
                    ==> span_fits(view.calls[j].1.extent),
        decreases scaffold.calls@.len() - k,
    {
        let call = &scaffold.calls[k];
        assert(view.calls[k as int] == (call.callee@, tree_of(*call.site, source@)));
        assert(owner_matches(owners@[k as int], enclosing(view, view.calls[k as int].1)));
        if let Some(owner) = owners[k] {
            if owner == callable {
                match source_span(path, call.site) {
                    Ok(span) => {
                        let ghost before = calls@;
                        calls.push(Callsite { callee: call.callee.clone(), span });
                        assert(call_views(calls@) =~= call_views(before).push(
                            CallView { callee: call.callee@, span: span@ },
                        ));
                        assert(span_fits(tree_of(*call.site, source@).extent));
                    },
                    Err(error) => {
                        assert(!span_fits(tree_of(*call.site, source@).extent));
                        assert(!call_fits(view, k as int));
                        return Err(error);
                    },
                }
            }
        }
        k += 1;
    }
    Ok(calls)
}

/// Whether a place is the one meant.
spec fn owner_matches(owner: Option<usize>, meant: Option<int>) -> bool {
    match owner {
        Some(owner) => meant == Some(owner as int),
        None => meant is None,
    }
}

/// The innermost callable around each call.
#[verifier::loop_isolation(false)]
fn owners_of(
    scaffold: &Scaffold<'_>,
    bodies: &Vec<Region>,
    source: Ghost<Seq<u8>>,
) -> (owners: Vec<Option<usize>>)
    requires
        bodies@ == body_regions(scaffold_view(*scaffold, source@).callables),
    ensures
        owners@.len() == scaffold.calls@.len(),
        forall|k: int|
            0 <= k < owners@.len() ==> owner_matches(
                #[trigger] owners@[k],
                enclosing(
                    scaffold_view(*scaffold, source@),
                    scaffold_view(*scaffold, source@).calls[k].1,
                ),
            ),
{
    let ghost view = scaffold_view(*scaffold, source@);
    let mut owners: Vec<Option<usize>> = Vec::new();
    let mut k: usize = 0;
    while k < scaffold.calls.len()
        invariant
            k <= scaffold.calls@.len(),
            owners@.len() == k,
            forall|j: int|
                0 <= j < k ==> owner_matches(
                    #[trigger] owners@[j],
                    enclosing(view, view.calls[j].1),
                ),
        decreases scaffold.calls@.len() - k,
    {
        let call = &scaffold.calls[k];
        assert(view.calls[k as int] == (call.callee@, tree_of(*call.site, source@)));
        let owner = innermost(bodies, call.site.start_byte);
        assert(owner_matches(owner, enclosing(view, view.calls[k as int].1)));
        owners.push(owner);
        k += 1;
    }
    owners
}

/// The callables of a file, each with the calls written in it.
#[verifier::loop_isolation(false)]
fn collect_callables(
    file: &ParsedFile,
    module: &String,
    scaffold: &Scaffold<'_>,
    bodies: &Vec<Region>,
    blocks: &Vec<Region>,
    view: Ghost<FileView>,
) -> (found: Result<Vec<CallableNode>, Error>)
    requires
        view@.path == file.path@,
        view@.tree == tree_of(file.root, file.source@),
        module@ == module_of(file.path@),
        scaffold_view(*scaffold, file.source@) == file_scaffold(view@),
        bodies@ == body_regions(file_scaffold(view@).callables),
        blocks@ == block_regions(implementation_views(scaffold.implementations@)),
    ensures
        match found {
            Ok(nodes) => {
                &&& node_views(nodes@) == file_nodes(view@)
                &&& forall|k: int|
                    0 <= k < file_scaffold(view@).calls.len() ==> #[trigger] call_fits(
                        file_scaffold(view@),
                        k,
                    )
            },
            Err(Error::SourceTooLarge { path }) => path@ == file.path@ && !file_fits(view@),
            Err(_) => false,
        },
{
    let ghost parts = file_scaffold(view@);
    let ghost all = file_nodes(view@);
    let source: Ghost<Seq<u8>> = Ghost(file.source@);
    let owners = owners_of(scaffold, bodies, source);
    let mut nodes: Vec<CallableNode> = Vec::new();
    let mut i: usize = 0;
    while i < scaffold.callables.len()
        invariant
            i <= scaffold.callables@.len(),
            node_views(nodes@) =~= all.take(i as int),
            forall|k: int|
                0 <= k < parts.calls.len() && (enclosing(
                    parts,
                    (#[trigger] parts.calls[k]).1,
                ) matches Some(owner) && 0 <= owner < i) ==> span_fits(parts.calls[k].1.extent),
        decreases scaffold.callables@.len() - i,
    {
        assert(parts.callables[i as int] == item_view(scaffold.callables@[i as int], source@));
        let calls = match calls_of_callable(&file.path, scaffold, &owners, i, source) {
            Ok(calls) => calls,
            Err(error) => {
                return Err(error);
            },
        };
        let path = path_of(module, scaffold, blocks, i, source);
        let ghost before = nodes@;
        nodes.push(
            CallableNode {
                path,
                name: scaffold.callables[i].name.clone(),
                containment: scaffold.callables[i].containment,
                calls,
            },
        );
        assert(nodes@.last()@ == all[i as int]);
        assert(node_views(nodes@) =~= node_views(before).push(all[i as int]));
        i += 1;
    }
    assert(all.take(i as int) =~= all);
    proof {
        assert forall|k: int| 0 <= k < parts.calls.len() implies #[trigger] call_fits(parts, k) by {
            let point = parts.calls[k].1.extent.start_byte as int;
            super::captures::law_innermost_is_shortest(body_regions(parts.callables), point);
        }
    }
    Ok(nodes)
}

/// Whether a byte stands in a test.
fn is_in_test(tests: &Vec<Region>, point: usize) -> (inside: bool)
    ensures
        inside == in_a_test(tests@, point as int),
{
    let mut i: usize = 0;
    while i < tests.len()
        invariant
            i <= tests@.len(),
            forall|j: int| 0 <= j < i ==> !region_covers(#[trigger] tests@[j], point as int),
        decreases tests@.len() - i,
    {
        if covers(tests[i], point) {
            return true;
        }
        i += 1;
    }
    false
}

/// The name of a form's capture with a suffix.
fn capture_with(form: DiscardForm, suffix: &str) -> (name: String)
    ensures
        name@ == form_capture(form) + suffix@,
{
    let mut name = capture_of(form).to_owned();
    name.append(suffix);
    name
}

/// The way of dropping an error that a match reports.
fn reportable_form(
    file: &ParsedFile,
    queries: &DiscardQueries,
    matched: &QueryMatch,
) -> (form: Option<DiscardForm>)
    ensures
        form == reported_form(file_view(*file, *queries), matched@),
{
    let declared = &queries.error_handling;
    let form = match form_of(matched, &file.root, Ghost(file.source@)) {
        Some(form) => form,
        None => {
            return None;
        },
    };
    // A capture marked as a binding means the cause was read, so nothing was
    // discarded. Queries have no negation; absence is the claim.
    let bind = capture_with(form, ".bind");
    if matched.capture(&file.root, bind.as_str(), Ghost(file.source@)).is_some() {
        return None;
    }
    if lists_name(&declared.non_failure_results_forms, form.as_str()) {
        let expression = capture_with(form, ".expression");
        if let Some(node) = matched.capture(
            &file.root,
            expression.as_str(),
            Ghost(file.source@),
        ) {
            if let Some(method) = receiver_method(node, &file.source) {
                if lists_name(&declared.non_failure_results, method.as_str()) {
                    return None;
                }
            }
        }
    }
    Some(form)
}

/// The discard that a match reports.
fn collect_discard(
    file: &ParsedFile,
    queries: &DiscardQueries,
    module: &String,
    scaffold: &Scaffold<'_>,
    bodies: &Vec<Region>,
    blocks: &Vec<Region>,
    matched: &QueryMatch,
    form: DiscardForm,
) -> (found: Result<ErrorDiscard, Error>)
    requires
        module@ == module_of(file.path@),
        scaffold_view(*scaffold, file.source@) == file_scaffold(file_view(*file, *queries)),
        bodies@ == body_regions(file_scaffold(file_view(*file, *queries)).callables),
        blocks@ == block_regions(implementation_views(scaffold.implementations@)),
        reported_form(file_view(*file, *queries), matched@) == Some(form),
    ensures
        match found {
            Ok(discard) => discard@ == reported_discard(file_view(*file, *queries), matched@, form)
                && match_fits(file_view(*file, *queries), matched@),
            Err(Error::SourceTooLarge { path }) => path@ == file.path@ && !match_fits(
                file_view(*file, *queries),
                matched@,
            ),
            Err(_) => false,
        },
{
    let ghost view = file_view(*file, *queries);
    let ghost parts = file_scaffold(view);
    let source: Ghost<Seq<u8>> = Ghost(file.source@);
    let site = match matched.capture(&file.root, capture_of(form), source) {
        Some(site) => site,
        None => {
            assert(false);
            return Err(Error::SourceTooLarge { path: file.path.clone() });
        },
    };
    let ghost site_tree = tree_of(*site, source@);
    assert(captured(view.tree, matched@, form_capture(form)) == Some(site_tree));
    let expression_name = capture_with(form, ".expression");
    let expression = match matched.capture_text(
        &file.root,
        expression_name.as_str(),
        &file.source,
    ) {
        Some(text) => text,
        None => String::new(),
    };
    let certainty = if lists_name(&queries.error_handling.ambiguous_forms, form.as_str()) {
        Certainty::Possible
    } else {
        Certainty::Certain
    };
    let enclosed = innermost(bodies, site.start_byte);
    assert(owner_matches(enclosed, enclosing(parts, site_tree)));
    let (callable, node, containment) = match enclosed {
        Some(place) => {
            assert(parts.callables[place as int] == item_view(
                scaffold.callables@[place as int],
                source@,
            ));
            (
                path_of(module, scaffold, blocks, place, source),
                scaffold.callables[place].node,
                scaffold.callables[place].containment,
            )
        },
        // Outside every callable the failure has no signature to escape through,
        // and the file's module is the honest attribution.
        None => (module.clone(), &file.root, Containment::Infallible),
    };
    let ghost node_tree = tree_of(*node, source@);
    let callable_span = match source_span(&file.path, node) {
        Ok(span) => span,
        Err(error) => {
            assert(!span_fits(node_tree.extent));
            return Err(error);
        },
    };
    assert(span_fits(node_tree.extent));
    let span = match source_span(&file.path, site) {
        Ok(span) => span,
        Err(error) => {
            assert(!span_fits(site_tree.extent));
            return Err(error);
        },
    };
    assert(span_fits(site_tree.extent));
    let discard = ErrorDiscard {
        callable,
        callable_span,
        form,
        containment,
        certainty,
        expression: truncate(expression.as_str()),
        span,
        in_test: is_in_test(&scaffold.tests, site.start_byte),
        reach: Reach::Unknown,
        path: Vec::new(),
    };
    assert(discard@.path =~= Seq::empty());
    Ok(discard)
}

/// What one file contributes: its discards, each of unknown reach, and its
/// callables with the calls written in them.
#[verifier::loop_isolation(false)]
pub fn collect_file(file: &ParsedFile, queries: &DiscardQueries) -> (found: Result<
    FileFacts,
    Error,
>)
    ensures
        match found {
            Ok(facts) => {
                let view = file_view(*file, *queries);
                &&& file_fits(view)
                &&& node_views(facts.callables@) == file_nodes(view)
                &&& discard_views(facts.discards@) == file_discards(view, view.discards.len() as int)
            },
            Err(Error::SourceTooLarge { path }) => path@ == file.path@ && !file_fits(
                file_view(*file, *queries),
            ),
            Err(_) => false,
        },
{
    let ghost view = file_view(*file, *queries);
    let module = repository_module(file.path.as_str());
    let parts = scaffold(
        &file.root,
        &file.source,
        &queries.callables,
        &queries.error_handling,
        &queries.tests,
    );
    let bodies = bodies_of(&parts, Ghost(file.source@));
    let blocks = blocks_of(&parts);
    let callables = match collect_callables(
        file,
        &module,
        &parts,
        &bodies,
        &blocks,
        Ghost(view),
    ) {
        Ok(callables) => callables,
        Err(error) => {
            return Err(error);
        },
    };
    let mut discards: Vec<ErrorDiscard> = Vec::new();
    let mut i: usize = 0;
    assert(discard_views(discards@) =~= Seq::empty());
    while i < queries.discards.len()
        invariant
            i <= queries.discards@.len(),
            discard_views(discards@) == file_discards(view, i as int),
            forall|j: int| 0 <= j < i ==> match_fits(view, #[trigger] view.discards[j]),
        decreases queries.discards@.len() - i,
    {
        let matched = &queries.discards[i];
        assert(view.discards[i as int] == matched@);
        if let Some(form) = reportable_form(file, queries, matched) {
            match collect_discard(
                file,
                queries,
                &module,
                &parts,
                &bodies,
                &blocks,
                matched,
                form,
            ) {
                Ok(discard) => {
                    let ghost before = discards@;
                    discards.push(discard);
                    assert(discard_views(discards@) =~= discard_views(before).push(discard@));
                },
                Err(error) => {
                    return Err(error);
                },
            }
        }
        i += 1;
    }
    Ok(FileFacts { discards, callables })
}

} // verus!
