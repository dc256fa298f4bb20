//! The structure a file gives to what is found in it: its callables, the blocks
//! that implement types, what its test markers cover, and its calls.
//!
//! A callable is whatever the language's query captured as one, and which
//! callable holds something is decided by byte ranges, a property of trees
//! rather than of any language.

use super::captures::{
    attributed, attributed_region, captured, captured_from, captured_text, document_order,
    document_places, match_views, region_of, CaptureView, QueryMatch, Region,
};
use super::naming::{leading, leading_text, simple_name, simple_type_name, unspaced, without_spaces};
use crate::facts::Containment;
use crate::normalize::form::optional_text;
use crate::syntax::{name_list, tree_of, SyntaxNode, Tree};
use crate::text::{contains_text, holds_text};
use vstd::prelude::*;

verus! {

/// How a language lets a failure leave a callable.
#[derive(Debug, Clone, Copy, PartialEq, Eq, Structural)]
pub enum Propagation {
    /// A signature says so.
    Declared,
    /// Any callable can let one through.
    Unchecked,
}

/// What a language's description says about errors.
#[derive(Debug)]
pub struct ErrorHandlingManifest {
    pub propagation: Propagation,
    pub fallible_types: Vec<String>,
    pub optional_types: Vec<String>,
    pub ambiguous_forms: Vec<String>,
    pub non_failure_results_forms: Vec<String>,
    pub non_failure_results: Vec<String>,
}

/// The content of an [`ErrorHandlingManifest`].
pub struct HandlingView {
    pub propagation: Propagation,
    pub fallible_types: Seq<Seq<char>>,
    pub optional_types: Seq<Seq<char>>,
    pub ambiguous_forms: Seq<Seq<char>>,
    pub non_failure_results_forms: Seq<Seq<char>>,
    pub non_failure_results: Seq<Seq<char>>,
}

impl View for ErrorHandlingManifest {
    type V = HandlingView;

    open spec fn view(&self) -> HandlingView {
        HandlingView {
            propagation: self.propagation,
            fallible_types: name_list(self.fallible_types@),
            optional_types: name_list(self.optional_types@),
            ambiguous_forms: name_list(self.ambiguous_forms@),
            non_failure_results_forms: name_list(self.non_failure_results_forms@),
            non_failure_results: name_list(self.non_failure_results@),
        }
    }
}

/// What marks a test in a language.
#[derive(Debug)]
pub struct TestMarkers {
    pub markers: Vec<String>,
    pub module_markers: Vec<String>,
}

/// The content of [`TestMarkers`].
pub struct MarkersView {
    pub markers: Seq<Seq<char>>,
    pub module_markers: Seq<Seq<char>>,
}

impl View for TestMarkers {
    type V = MarkersView;

    open spec fn view(&self) -> MarkersView {
        MarkersView {
            markers: name_list(self.markers@),
            module_markers: name_list(self.module_markers@),
        }
    }
}

/// Whether a text holds one of several names.
pub open spec fn holds_any(text: Seq<char>, names: Seq<Seq<char>>) -> bool {
    exists|i: int| 0 <= i < names.len() && holds_text(text, #[trigger] names[i])
}

/// Whether a text holds one of several names.
fn mentions_any(text: &str, names: &Vec<String>) -> (held: bool)
    ensures
        held == holds_any(text@, name_list(names@)),
{
    let ghost all = name_list(names@);
    let mut i: usize = 0;
    while i < names.len()
        invariant
            i <= names@.len(),
            all == name_list(names@),
            forall|j: int| 0 <= j < i ==> !holds_text(text@, #[trigger] all[j]),
        decreases names@.len() - i,
    {
        assert(all[i as int] == names@[i as int]@);
        if contains_text(text, names[i].as_str()) {
            return true;
        }
        i += 1;
    }
    false
}

/// Whether a callable can report a failure, given the return type it declares.
///
/// A return type that is not recognized means different things in different
/// languages. Where failure is declared, the failure has nowhere to go. Where it
/// is unchecked, the signature had nothing to say and the callable could still
/// have left the failure alone.
pub open spec fn containment(declared: Option<Seq<char>>, types: HandlingView) -> Containment {
    let unrecognized = match types.propagation {
        Propagation::Declared => Containment::Infallible,
        Propagation::Unchecked => Containment::Fallible,
    };
    match declared {
        Some(declared) => if holds_any(leading(declared), types.fallible_types) {
            Containment::Fallible
        } else if holds_any(leading(declared), types.optional_types) {
            Containment::Optional
        } else {
            unrecognized
        },
        None => unrecognized,
    }
}

/// Whether a callable can report a failure, given the return type it declares.
pub fn containment_of(declared: Option<&str>, types: &ErrorHandlingManifest) -> (verdict:
    Containment)
    ensures
        verdict == containment(
            match declared {
                Some(text) => Some(text@),
                None => None,
            },
            types@,
        ),
{
    let unrecognized = match types.propagation {
        Propagation::Declared => Containment::Infallible,
        Propagation::Unchecked => Containment::Fallible,
    };
    match declared {
        Some(declared) => {
            let front = leading_text(declared);
            if mentions_any(front.as_str(), &types.fallible_types) {
                Containment::Fallible
            } else if mentions_any(front.as_str(), &types.optional_types) {
                Containment::Optional
            } else {
                unrecognized
            }
        },
        None => unrecognized,
    }
}

/// The return type that the last of the first so many matches gives the callable
/// at a region.
pub open spec fn declared_return(
    tree: Tree,
    matches: Seq<Seq<CaptureView>>,
    region: Region,
    n: int,
) -> Option<Seq<char>>
    decreases n,
{
    if n <= 0 || n > matches.len() {
        None
    } else {
        let item = captured(tree, matches[n - 1], "callable.with-return"@);
        let text = captured_text(tree, matches[n - 1], "callable.return"@);
        if item is Some && region_of(item->0) == region && text is Some {
            text
        } else {
            declared_return(tree, matches, region, n - 1)
        }
    }
}

/// The return type that the last match gives the callable at a region.
fn return_text(
    root: &SyntaxNode,
    source: &Vec<u8>,
    matches: &Vec<QueryMatch>,
    region: Region,
) -> (text: Option<String>)
    ensures
        optional_text(text) == declared_return(
            tree_of(*root, source@),
            match_views(matches@),
            region,
            matches@.len() as int,
        ),
{
    let ghost tree = tree_of(*root, source@);
    let ghost all = match_views(matches@);
    let mut n: usize = matches.len();
    while n > 0
        invariant
            n <= matches@.len(),
            tree == tree_of(*root, source@),
            all == match_views(matches@),
            declared_return(tree, all, region, all.len() as int) == declared_return(
                tree,
                all,
                region,
                n as int,
            ),
        decreases n,
    {
        n -= 1;
        assert(all[n as int] == matches@[n as int]@);
        if let Some(item) = matches[n].capture(root, "callable.with-return", Ghost(source@)) {
            let found = item.region();
            assert(found == region_of(tree_of(*item, source@)));
            if found == region {
                if let Some(text) = matches[n].capture_text(root, "callable.return", source) {
                    return Some(text);
                }
            }
        }
    }
    None
}

/// A callable of a file.
pub struct ScaffoldCallable<'a> {
    pub name: String,
    pub item: Region,
    pub body: Region,
    pub containment: Containment,
    pub node: &'a SyntaxNode,
}

/// The content of a callable.
pub struct ItemView {
    pub name: Seq<char>,
    pub item: Region,
    pub body: Region,
    pub containment: Containment,
    pub node: Tree,
}

/// The content of a callable.
pub open spec fn item_view(item: ScaffoldCallable<'_>, source: Seq<u8>) -> ItemView {
    ItemView {
        name: item.name@,
        item: item.item,
        body: item.body,
        containment: item.containment,
        node: tree_of(*item.node, source),
    }
}

/// The contents of callables.
pub open spec fn item_views(items: Seq<ScaffoldCallable<'_>>, source: Seq<u8>) -> Seq<ItemView> {
    Seq::new(items.len(), |i: int| item_view(items[i], source))
}

/// The callable that a match found.
pub open spec fn matched_item(
    tree: Tree,
    matches: Seq<Seq<CaptureView>>,
    types: HandlingView,
    i: int,
) -> Option<ItemView> {
    let item = captured(tree, matches[i], "callable.item"@);
    let name = captured_text(tree, matches[i], "callable.name"@);
    let body = captured(tree, matches[i], "callable.body"@);
    if item is Some && name is Some && body is Some {
        Some(
            ItemView {
                name: name->0,
                item: region_of(item->0),
                body: region_of(body->0),
                containment: containment(
                    declared_return(tree, matches, region_of(item->0), matches.len() as int),
                    types,
                ),
                node: item->0,
            },
        )
    } else {
        None
    }
}

/// The callables that the first so many matches found.
pub open spec fn matched_items(
    tree: Tree,
    matches: Seq<Seq<CaptureView>>,
    types: HandlingView,
    n: int,
) -> Seq<ItemView>
    decreases n,
{
    if n <= 0 {
        Seq::empty()
    } else {
        let before = matched_items(tree, matches, types, n - 1);
        match matched_item(tree, matches, types, n - 1) {
            Some(item) => before.push(item),
            None => before,
        }
    }
}

/// A list taken at places.
pub open spec fn taken<A>(list: Seq<A>, places: Seq<int>) -> Seq<A> {
    Seq::new(places.len(), |k: int| list[places[k]])
}

/// The regions of callables.
pub open spec fn item_regions(items: Seq<ItemView>) -> Seq<Region> {
    Seq::new(items.len(), |i: int| items[i].item)
}

/// The regions of the bodies of callables.
pub open spec fn body_regions(items: Seq<ItemView>) -> Seq<Region> {
    Seq::new(items.len(), |i: int| items[i].body)
}

/// The callables of a file, in document order, the first found at each place.
pub open spec fn callables_of(
    tree: Tree,
    matches: Seq<Seq<CaptureView>>,
    types: HandlingView,
) -> Seq<ItemView> {
    let items = matched_items(tree, matches, types, matches.len() as int);
    taken(items, document_places(item_regions(items)))
}

/// The callables that matches found, in match order.
#[verifier::loop_isolation(false)]
fn found_callables<'a>(
    root: &'a SyntaxNode,
    source: &Vec<u8>,
    matches: &Vec<QueryMatch>,
    types: &ErrorHandlingManifest,
) -> (items: Vec<ScaffoldCallable<'a>>)
    ensures
        item_views(items@, source@) == matched_items(
            tree_of(*root, source@),
            match_views(matches@),
            types@,
            matches@.len() as int,
        ),
{
    let ghost tree = tree_of(*root, source@);
    let ghost all = match_views(matches@);
    let mut items: Vec<ScaffoldCallable<'a>> = Vec::new();
    let mut i: usize = 0;
    assert(item_views(items@, source@) =~= Seq::empty());
    while i < matches.len()
        invariant
            i <= matches@.len(),
            item_views(items@, source@) == matched_items(tree, all, types@, i as int),
        decreases matches@.len() - i,
    {
        assert(all[i as int] == matches@[i as int]@);
        let matched = &matches[i];
        let item = matched.capture(root, "callable.item", Ghost(source@));
        let name = matched.capture_text(root, "callable.name", source);
        let body = matched.capture(root, "callable.body", Ghost(source@));
        match (item, name, body) {
            (Some(item), Some(name), Some(body)) => {
                let region = item.region();
                let within = body.region();
                assert(region == region_of(tree_of(*item, source@)));
                assert(within == region_of(tree_of(*body, source@)));
                let text = return_text(root, source, matches, region);
                let containment = match &text {
                    Some(text) => containment_of(Some(text.as_str()), types),
                    None => containment_of(None, types),
                };
                let ghost before = items@;
                items.push(
                    ScaffoldCallable {
                        name,
                        item: region,
                        body: within,
                        containment,
                        node: item,
                    },
                );
                assert(item_views(items@, source@) =~= item_views(before, source@).push(
                    item_view(items@.last(), source@),
                ));
                assert(Some(item_view(items@.last(), source@)) == matched_item(
                    tree,
                    all,
                    types@,
                    i as int,
                ));
            },
            _ => {
                assert(matched_item(tree, all, types@, i as int) is None);
            },
        }
        i += 1;
    }
    items
}

/// The callables of a file, in document order, the first found at each place.
#[verifier::loop_isolation(false)]
pub(crate) fn scaffold_callables<'a>(
    root: &'a SyntaxNode,
    source: &Vec<u8>,
    matches: &Vec<QueryMatch>,
    types: &ErrorHandlingManifest,
) -> (callables: Vec<ScaffoldCallable<'a>>)
    ensures
        item_views(callables@, source@) == callables_of(
            tree_of(*root, source@),
            match_views(matches@),
            types@,
        ),
{
    let items = found_callables(root, source, matches, types);
    let ghost found = item_views(items@, source@);
    let mut regions: Vec<Region> = Vec::new();
    let mut i: usize = 0;
    while i < items.len()
        invariant
            i <= items@.len(),
            regions@ == item_regions(found).take(i as int),
        decreases items@.len() - i,
    {
        assert(found[i as int].item == items@[i as int].item);
        assert(item_regions(found).take(i + 1) =~= item_regions(found).take(i as int).push(
            items@[i as int].item,
        ));
        regions.push(items[i].item);
        i += 1;
    }
    assert(regions@ =~= item_regions(found));
    let places = document_order(&regions);
    let ghost order = document_places(regions@);
    let mut callables: Vec<ScaffoldCallable<'a>> = Vec::new();
    let mut k: usize = 0;
    while k < places.len()
        invariant
            k <= places@.len(),
            item_views(callables@, source@) =~= taken(found, order).take(k as int),
        decreases places@.len() - k,
    {
        let item = &items[places[k]];
        assert(places@[k as int] == order[k as int]);
        assert(found[places@[k as int] as int] == item_view(*item, source@));
        let ghost before = callables@;
        callables.push(
            ScaffoldCallable {
                name: item.name.clone(),
                item: item.item,
                body: item.body,
                containment: item.containment,
                node: item.node,
            },
        );
        assert(item_view(callables@.last(), source@) == item_view(*item, source@));
        assert(item_views(callables@, source@) =~= item_views(before, source@).push(
            item_view(*item, source@),
        ));
        k += 1;
    }
    assert(taken(found, order).take(k as int) =~= taken(found, order));
    callables
}

/// A block that implements a type.
#[derive(Debug)]
pub struct Implementation {
    pub name: String,
    pub region: Region,
}

/// The names and regions of blocks.
pub open spec fn implementation_views(items: Seq<Implementation>) -> Seq<
    (Seq<char>, Region),
> {
    Seq::new(items.len(), |i: int| (items[i].name@, items[i].region))
}

/// The block that a match found: the bare name of its type, and where it stands.
pub open spec fn matched_block(tree: Tree, captures: Seq<CaptureView>) -> Option<
    (Seq<char>, Region),
> {
    let item = captured(tree, captures, "impl.item"@);
    let text = captured_text(tree, captures, "impl.type"@);
    if item is Some && text is Some {
        Some((simple_name(text->0), region_of(item->0)))
    } else {
        None
    }
}

/// The blocks that the first so many matches found.
pub open spec fn matched_blocks(tree: Tree, matches: Seq<Seq<CaptureView>>, n: int) -> Seq<
    (Seq<char>, Region),
>
    decreases n,
{
    if n <= 0 {
        Seq::empty()
    } else {
        let before = matched_blocks(tree, matches, n - 1);
        match matched_block(tree, matches[n - 1]) {
            Some(block) => before.push(block),
            None => before,
        }
    }
}

/// The regions of blocks.
pub open spec fn block_regions(blocks: Seq<(Seq<char>, Region)>) -> Seq<Region> {
    Seq::new(blocks.len(), |i: int| blocks[i].1)
}

/// The blocks of a file that implement types, in document order, the first found
/// at each place.
pub open spec fn implementations_of(tree: Tree, matches: Seq<Seq<CaptureView>>) -> Seq<
    (Seq<char>, Region),
> {
    let blocks = matched_blocks(tree, matches, matches.len() as int);
    taken(blocks, document_places(block_regions(blocks)))
}

/// The blocks that matches found, in match order.
#[verifier::loop_isolation(false)]
fn found_blocks(root: &SyntaxNode, source: &Vec<u8>, matches: &Vec<QueryMatch>) -> (blocks: Vec<
    Implementation,
>)
    ensures
        implementation_views(blocks@) == matched_blocks(
            tree_of(*root, source@),
            match_views(matches@),
            matches@.len() as int,
        ),
{
    let ghost tree = tree_of(*root, source@);
    let ghost all = match_views(matches@);
    let mut blocks: Vec<Implementation> = Vec::new();
    let mut i: usize = 0;
    assert(implementation_views(blocks@) =~= Seq::empty());
    while i < matches.len()
        invariant
            i <= matches@.len(),
            implementation_views(blocks@) == matched_blocks(tree, all, i as int),
        decreases matches@.len() - i,
    {
        assert(all[i as int] == matches@[i as int]@);
        let matched = &matches[i];
        let item = matched.capture(root, "impl.item", Ghost(source@));
        let text = matched.capture_text(root, "impl.type", source);
        match (item, text) {
            (Some(item), Some(text)) => {
                let region = item.region();
                assert(region == region_of(tree_of(*item, source@)));
                let name = simple_type_name(text.as_str());
                let ghost before = blocks@;
                blocks.push(Implementation { name, region });
                assert(implementation_views(blocks@) =~= implementation_views(before).push(
                    (name@, region),
                ));
            },
            _ => {},
        }
        i += 1;
    }
    blocks
}

/// The blocks of a file that implement types, in document order, the first found
/// at each place.
#[verifier::loop_isolation(false)]
pub(crate) fn scaffold_implementations(
    root: &SyntaxNode,
    source: &Vec<u8>,
    matches: &Vec<QueryMatch>,
) -> (blocks: Vec<Implementation>)
    ensures
        implementation_views(blocks@) == implementations_of(
            tree_of(*root, source@),
            match_views(matches@),
        ),
{
    let items = found_blocks(root, source, matches);
    let ghost found = implementation_views(items@);
    let mut regions: Vec<Region> = Vec::new();
    let mut i: usize = 0;
    while i < items.len()
        invariant
            i <= items@.len(),
            regions@ == block_regions(found).take(i as int),
        decreases items@.len() - i,
    {
        assert(found[i as int].1 == items@[i as int].region);
        assert(block_regions(found).take(i + 1) =~= block_regions(found).take(i as int).push(
            items@[i as int].region,
        ));
        regions.push(items[i].region);
        i += 1;
    }
    assert(regions@ =~= block_regions(found));
    let places = document_order(&regions);
    let ghost order = document_places(regions@);
    let mut blocks: Vec<Implementation> = Vec::new();
    let mut k: usize = 0;
    while k < places.len()
        invariant
            k <= places@.len(),
            implementation_views(blocks@) =~= taken(found, order).take(k as int),
        decreases places@.len() - k,
    {
        let item = &items[places[k]];
        assert(places@[k as int] == order[k as int]);
        assert(found[places@[k as int] as int] == (item.name@, item.region));
        let ghost before = blocks@;
        blocks.push(Implementation { name: item.name.clone(), region: item.region });
        assert(implementation_views(blocks@) =~= implementation_views(before).push(
            (item.name@, item.region),
        ));
        k += 1;
    }
    assert(taken(found, order).take(k as int) =~= taken(found, order));
    blocks
}

/// Texts without white space.
pub open spec fn all_unspaced(texts: Seq<Seq<char>>) -> Seq<Seq<char>> {
    Seq::new(texts.len(), |i: int| unspaced(texts[i]))
}

/// Whether an annotation marks a test: white space aside, it holds a marker.
pub open spec fn marks_test(text: Seq<char>, markers: MarkersView) -> bool {
    holds_any(unspaced(text), all_unspaced(markers.markers)) || holds_any(
        unspaced(text),
        all_unspaced(markers.module_markers),
    )
}

/// Whether a text without white space holds one of several markers.
fn holds_marker(text: &str, markers: &Vec<String>) -> (held: bool)
    ensures
        held == holds_any(text@, all_unspaced(name_list(markers@))),
{
    let ghost all = all_unspaced(name_list(markers@));
    let mut i: usize = 0;
    while i < markers.len()
        invariant
            i <= markers@.len(),
            all == all_unspaced(name_list(markers@)),
            forall|j: int| 0 <= j < i ==> !holds_text(text@, #[trigger] all[j]),
        decreases markers@.len() - i,
    {
        assert(all[i as int] == unspaced(markers@[i as int]@));
        let marker = without_spaces(markers[i].as_str());
        if contains_text(text, marker.as_str()) {
            return true;
        }
        i += 1;
    }
    false
}

/// What a match marks as a test.
pub open spec fn matched_test(
    tree: Tree,
    captures: Seq<CaptureView>,
    markers: MarkersView,
) -> Option<Region> {
    let item = captured_from(tree, captures, "attribute.item"@, 0);
    let text = captured_text(tree, captures, "attribute.text"@);
    if item is Some && text is Some && marks_test(text->0, markers) {
        attributed(tree, captures[item->0].path)
    } else {
        None
    }
}

/// What the first so many matches mark as tests.
pub open spec fn tests_of(
    tree: Tree,
    matches: Seq<Seq<CaptureView>>,
    markers: MarkersView,
    n: int,
) -> Seq<Region>
    decreases n,
{
    if n <= 0 {
        Seq::empty()
    } else {
        let before = tests_of(tree, matches, markers, n - 1);
        match matched_test(tree, matches[n - 1], markers) {
            Some(region) => before.push(region),
            None => before,
        }
    }
}

/// What a file's test markers cover.
#[verifier::loop_isolation(false)]
pub(crate) fn scaffold_tests(
    root: &SyntaxNode,
    source: &Vec<u8>,
    matches: &Vec<QueryMatch>,
    markers: &TestMarkers,
) -> (tests: Vec<Region>)
    ensures
        tests@ == tests_of(
            tree_of(*root, source@),
            match_views(matches@),
            markers@,
            matches@.len() as int,
        ),
{
    let ghost tree = tree_of(*root, source@);
    let ghost all = match_views(matches@);
    let mut tests: Vec<Region> = Vec::new();
    let mut i: usize = 0;
    while i < matches.len()
        invariant
            i <= matches@.len(),
            tests@ == tests_of(tree, all, markers@, i as int),
        decreases matches@.len() - i,
    {
        assert(all[i as int] == matches@[i as int]@);
        let matched = &matches[i];
        let item = matched.find(root, "attribute.item", Ghost(source@));
        let text = matched.capture_text(root, "attribute.text", source);
        match (item, text) {
            (Some((place, node)), Some(text)) => {
                let flat = without_spaces(text.as_str());
                let marks = holds_marker(flat.as_str(), &markers.markers) || holds_marker(
                    flat.as_str(),
                    &markers.module_markers,
                );
                assert(matched@[place as int].path == matched.captures@[place as int].path@);
                if marks {
                    let region = attributed_region(
                        root,
                        &matched.captures[place].path,
                        Ghost(source@),
                    );
                    if let Some(region) = region {
                        tests.push(region);
                    }
                }
            },
            _ => {},
        }
        i += 1;
    }
    tests
}

/// A call of a file: the name it calls, and the node it is.
pub struct ScaffoldCall<'a> {
    pub callee: String,
    pub site: &'a SyntaxNode,
}

/// The names and nodes of calls.
pub open spec fn site_views(calls: Seq<ScaffoldCall<'_>>, source: Seq<u8>) -> Seq<
    (Seq<char>, Tree),
> {
    Seq::new(calls.len(), |i: int| (calls[i].callee@, tree_of(*calls[i].site, source)))
}

/// The call that a match found.
pub open spec fn matched_call(tree: Tree, captures: Seq<CaptureView>) -> Option<
    (Seq<char>, Tree),
> {
    let site = captured(tree, captures, "call.site"@);
    let callee = captured_text(tree, captures, "call.callee"@);
    if site is Some && callee is Some {
        Some((callee->0, site->0))
    } else {
        None
    }
}

/// The calls that the first so many matches found.
pub open spec fn matched_calls(tree: Tree, matches: Seq<Seq<CaptureView>>, n: int) -> Seq<
    (Seq<char>, Tree),
>
    decreases n,
{
    if n <= 0 {
        Seq::empty()
    } else {
        let before = matched_calls(tree, matches, n - 1);
        match matched_call(tree, matches[n - 1]) {
            Some(call) => before.push(call),
            None => before,
        }
    }
}

/// The regions of calls.
pub open spec fn site_regions(calls: Seq<(Seq<char>, Tree)>) -> Seq<Region> {
    Seq::new(calls.len(), |i: int| region_of(calls[i].1))
}

/// The calls of a file, in document order, the first found at each place.
pub open spec fn calls_of(tree: Tree, matches: Seq<Seq<CaptureView>>) -> Seq<(Seq<char>, Tree)> {
    let calls = matched_calls(tree, matches, matches.len() as int);
    taken(calls, document_places(site_regions(calls)))
}

/// The calls that matches found, in match order.
#[verifier::loop_isolation(false)]
fn found_calls<'a>(root: &'a SyntaxNode, source: &Vec<u8>, matches: &Vec<QueryMatch>) -> (calls:
    Vec<ScaffoldCall<'a>>)
    ensures
        site_views(calls@, source@) == matched_calls(
            tree_of(*root, source@),
            match_views(matches@),
            matches@.len() as int,
        ),
{
    let ghost tree = tree_of(*root, source@);
    let ghost all = match_views(matches@);
    let mut calls: Vec<ScaffoldCall<'a>> = Vec::new();
    let mut i: usize = 0;
    assert(site_views(calls@, source@) =~= Seq::empty());
    while i < matches.len()
        invariant
            i <= matches@.len(),
            site_views(calls@, source@) == matched_calls(tree, all, i as int),
        decreases matches@.len() - i,
    {
        assert(all[i as int] == matches@[i as int]@);
        let matched = &matches[i];
        let site = matched.capture(root, "call.site", Ghost(source@));
        let callee = matched.capture_text(root, "call.callee", source);
        match (site, callee) {
            (Some(site), Some(callee)) => {
                let ghost before = calls@;
                calls.push(ScaffoldCall { callee, site });
                assert(site_views(calls@, source@) =~= site_views(before, source@).push(
                    (callee@, tree_of(*site, source@)),
                ));
            },
            _ => {},
        }
        i += 1;
    }
    calls
}

/// The calls of a file, in document order, the first found at each place.
#[verifier::loop_isolation(false)]
pub(crate) fn scaffold_calls<'a>(
    root: &'a SyntaxNode,
    source: &Vec<u8>,
    matches: &Vec<QueryMatch>,
) -> (calls: Vec<ScaffoldCall<'a>>)
    ensures
        site_views(calls@, source@) == calls_of(tree_of(*root, source@), match_views(matches@)),
{
    let items = found_calls(root, source, matches);
    let ghost found = site_views(items@, source@);
    let mut regions: Vec<Region> = Vec::new();
    let mut i: usize = 0;
    while i < items.len()
        invariant
            i <= items@.len(),
            regions@ == site_regions(found).take(i as int),
        decreases items@.len() - i,
    {
        let region = items[i].site.region();
        assert(region == region_of(tree_of(*items@[i as int].site, source@)));
        assert(site_regions(found).take(i + 1) =~= site_regions(found).take(i as int).push(region));
        regions.push(region);
        i += 1;
    }
    assert(regions@ =~= site_regions(found));
    let places = document_order(&regions);
    let ghost order = document_places(regions@);
    let mut calls: Vec<ScaffoldCall<'a>> = Vec::new();
    let mut k: usize = 0;
    while k < places.len()
        invariant
            k <= places@.len(),
            site_views(calls@, source@) =~= taken(found, order).take(k as int),
        decreases places@.len() - k,
    {
        let item = &items[places[k]];
        assert(places@[k as int] == order[k as int]);
        assert(found[places@[k as int] as int] == (item.callee@, tree_of(*item.site, source@)));
        let ghost before = calls@;
        calls.push(ScaffoldCall { callee: item.callee.clone(), site: item.site });
        assert(site_views(calls@, source@) =~= site_views(before, source@).push(
            (item.callee@, tree_of(*item.site, source@)),
        ));
        k += 1;
    }
    assert(taken(found, order).take(k as int) =~= taken(found, order));
    calls
}

/// The structural scaffolding a file provides.
pub struct Scaffold<'a> {
    /// Callables in document order, so an index is stable across runs.
    pub callables: Vec<ScaffoldCallable<'a>>,
    /// Implementation blocks, for the path of a callable.
    pub implementations: Vec<Implementation>,
    /// Regions the test markers cover.
    pub tests: Vec<Region>,
    /// Call sites.
    pub calls: Vec<ScaffoldCall<'a>>,
}

/// The content of a [`Scaffold`].
pub struct ScaffoldView {
    pub callables: Seq<ItemView>,
    pub implementations: Seq<(Seq<char>, Region)>,
    pub tests: Seq<Region>,
    pub calls: Seq<(Seq<char>, Tree)>,
}

/// The content of a scaffolding.
pub open spec fn scaffold_view(scaffold: Scaffold<'_>, source: Seq<u8>) -> ScaffoldView {
    ScaffoldView {
        callables: item_views(scaffold.callables@, source),
        implementations: implementation_views(scaffold.implementations@),
        tests: scaffold.tests@,
        calls: site_views(scaffold.calls@, source),
    }
}

/// The scaffolding that a tree and the matches in it provide.
pub open spec fn scaffold_of(
    tree: Tree,
    matches: Seq<Seq<CaptureView>>,
    types: HandlingView,
    markers: MarkersView,
) -> ScaffoldView {
    ScaffoldView {
        callables: callables_of(tree, matches, types),
        implementations: implementations_of(tree, matches),
        tests: tests_of(tree, matches, markers, matches.len() as int),
        calls: calls_of(tree, matches),
    }
}

/// The structural scaffolding a file provides.
pub fn scaffold<'a>(
    root: &'a SyntaxNode,
    source: &Vec<u8>,
    matches: &Vec<QueryMatch>,
    types: &ErrorHandlingManifest,
    markers: &TestMarkers,
) -> (made: Scaffold<'a>)
    ensures
        scaffold_view(made, source@) == scaffold_of(
            tree_of(*root, source@),
            match_views(matches@),
            types@,
            markers@,
        ),
{
    Scaffold {
        callables: scaffold_callables(root, source, matches, types),
        implementations: scaffold_implementations(root, source, matches),
        tests: scaffold_tests(root, source, matches, markers),
        calls: scaffold_calls(root, source, matches),
    }
}

} // verus!
