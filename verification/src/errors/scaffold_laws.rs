//! What the scaffolding of a file holds of what was matched in it.

use crate::errors::captures::{
    attributed, captured, captured_from, captured_text, document_places, innermost_of,
    lemma_document_places, lemma_first_region, region_of, CaptureView, Region,
};
use crate::errors::collect::{
    calls_within, file_nodes, file_scaffold, span_at, span_fits, FileView,
};
use crate::errors::naming::simple_name;
use crate::errors::reach::CallView;
use crate::errors::scaffold::{
    block_regions, body_regions, callables_of, calls_of, declared_return, implementations_of,
    item_regions, marks_test, matched_block, matched_blocks, matched_call, matched_calls,
    matched_item, matched_items, site_regions, tests_of, HandlingView, MarkersView,
};
use crate::ordering::settled_of;
use crate::syntax::{Extent, Tree};
use vstd::prelude::*;

verus! {

/// Whether a region has a place in document order.
spec fn has_place(regions: Seq<Region>, region: Region) -> bool {
    exists|k: int|
        0 <= k < document_places(regions).len() && regions[#[trigger] document_places(regions)[k]]
            == region
}

/// Every region of a list has its place in document order, and each place one region.
proof fn lemma_places(regions: Seq<Region>)
    ensures
        forall|i: int| 0 <= i < regions.len() ==> has_place(regions, #[trigger] regions[i]),
        forall|k: int|
            0 <= k < document_places(regions).len() ==> 0 <= #[trigger] document_places(
                regions,
            )[k] < regions.len(),
        forall|k: int, l: int|
            0 <= k < l < document_places(regions).len() ==> regions[#[trigger] document_places(
                regions,
            )[k]] != regions[#[trigger] document_places(regions)[l]],
{
    crate::ordering::lemma_settles::<Region>(regions);
    lemma_document_places(regions);
    let sorted = settled_of::<Region>(regions);
    let places = document_places(regions);
    assert forall|k: int| 0 <= k < places.len() implies regions[#[trigger] places[k]]
        == sorted[k] by {
        assert(sorted.contains(sorted[k]));
        assert(regions.contains(sorted[k]));
        let j = choose|j: int| 0 <= j < regions.len() && regions[j] == sorted[k];
        lemma_first_region(regions, sorted[k], 0);
    }
    assert forall|i: int| 0 <= i < regions.len() implies has_place(
        regions,
        #[trigger] regions[i],
    ) by {
        assert(regions.contains(regions[i]));
        assert(sorted.contains(regions[i]));
        let k = choose|k: int| 0 <= k < sorted.len() && sorted[k] == regions[i];
        assert(regions[places[k]] == regions[i]);
    }
    assert forall|k: int, l: int| 0 <= k < l < places.len() implies regions[#[trigger] places[k]]
        != regions[#[trigger] places[l]] by {
        assert(sorted[k] != sorted[l]);
    }
}

proof fn lemma_item_kept(
    tree: Tree,
    matches: Seq<Seq<CaptureView>>,
    types: HandlingView,
    n: int,
    i: int,
)
    requires
        0 <= i < n <= matches.len(),
        matched_item(tree, matches, types, i) is Some,
    ensures
        matched_items(tree, matches, types, n).contains(
            matched_item(tree, matches, types, i)->0,
        ),
    decreases n,
{
    let item = matched_item(tree, matches, types, i)->0;
    let all = matched_items(tree, matches, types, n);
    if i == n - 1 {
        assert(all.last() == item);
    } else {
        lemma_item_kept(tree, matches, types, n - 1, i);
        let before = matched_items(tree, matches, types, n - 1);
        let k = choose|k: int| 0 <= k < before.len() && before[k] == item;
        assert(all[k] == item);
    }
}

proof fn lemma_item_from(
    tree: Tree,
    matches: Seq<Seq<CaptureView>>,
    types: HandlingView,
    n: int,
    k: int,
)
    requires
        0 <= n <= matches.len(),
        0 <= k < matched_items(tree, matches, types, n).len(),
    ensures
        exists|i: int|
            0 <= i < n && #[trigger] matched_item(tree, matches, types, i) == Some(
                matched_items(tree, matches, types, n)[k],
            ),
    decreases n,
{
    if n > 0 {
        let before = matched_items(tree, matches, types, n - 1);
        if k < before.len() {
            lemma_item_from(tree, matches, types, n - 1, k);
            let i = choose|i: int|
                0 <= i < n - 1 && #[trigger] matched_item(tree, matches, types, i) == Some(
                    before[k],
                );
            assert(matched_item(tree, matches, types, i) == Some(before[k]));
        } else {
            assert(matched_item(tree, matches, types, n - 1) is Some);
        }
    }
}

/// Every match that captured a callable, its name and its body puts a callable at
/// that place in the list.
pub proof fn law_every_matched_callable_is_listed(
    tree: Tree,
    matches: Seq<Seq<CaptureView>>,
    types: HandlingView,
    i: int,
)
    requires
        0 <= i < matches.len(),
        captured(tree, matches[i], "callable.item"@) is Some,
        captured_text(tree, matches[i], "callable.name"@) is Some,
        captured(tree, matches[i], "callable.body"@) is Some,
    ensures
        exists|k: int|
            0 <= k < callables_of(tree, matches, types).len() && (#[trigger] callables_of(
                tree,
                matches,
                types,
            )[k]).item == region_of(captured(tree, matches[i], "callable.item"@)->0),
{
    let n = matches.len() as int;
    let items = matched_items(tree, matches, types, n);
    let regions = item_regions(items);
    let item = matched_item(tree, matches, types, i)->0;
    lemma_item_kept(tree, matches, types, n, i);
    let j = choose|j: int| 0 <= j < items.len() && items[j] == item;
    assert(regions[j] == item.item);
    lemma_places(regions);
    assert(has_place(regions, regions[j]));
    let k = choose|k: int|
        0 <= k < document_places(regions).len() && regions[#[trigger] document_places(regions)[k]]
            == regions[j];
    assert(callables_of(tree, matches, types)[k] == items[document_places(regions)[k]]);
}

/// Every listed callable was matched: its place, its body and its name are what a
/// match captured. No two are listed at one place.
pub proof fn law_only_matched_callables_are_listed(
    tree: Tree,
    matches: Seq<Seq<CaptureView>>,
    types: HandlingView,
    k: int,
)
    requires
        0 <= k < callables_of(tree, matches, types).len(),
    ensures
        ({
            let callable = callables_of(tree, matches, types)[k];
            exists|i: int|
                0 <= i < matches.len() && captured(
                    tree,
                    #[trigger] matches[i],
                    "callable.item"@,
                ) == Some(callable.node) && callable.item == region_of(callable.node)
                    && captured_text(tree, matches[i], "callable.name"@) == Some(callable.name) && (
                captured(tree, matches[i], "callable.body"@) matches Some(body) && region_of(body)
                    == callable.body)
        }),
        forall|l: int|
            0 <= l < callables_of(tree, matches, types).len() && l != k ==> (
            #[trigger] callables_of(tree, matches, types)[l]).item != callables_of(
                tree,
                matches,
                types,
            )[k].item,
{
    let n = matches.len() as int;
    let items = matched_items(tree, matches, types, n);
    let regions = item_regions(items);
    let places = document_places(regions);
    lemma_places(regions);
    let all = callables_of(tree, matches, types);
    assert(all[k] == items[places[k]]);
    lemma_item_from(tree, matches, types, n, places[k]);
    let i = choose|i: int|
        0 <= i < n && #[trigger] matched_item(tree, matches, types, i) == Some(items[places[k]]);
    assert(matches[i] == matches[i]);
    assert forall|l: int| 0 <= l < all.len() && l != k implies (#[trigger] all[l]).item
        != all[k].item by {
        assert(all[l].item == regions[places[l]]);
        assert(all[k].item == regions[places[k]]);
        if l < k {
            assert(regions[places[l]] != regions[places[k]]);
        } else {
            assert(regions[places[k]] != regions[places[l]]);
        }
    }
}

/// A callable declares the return type that the last match at its place captured,
/// and none where no match did.
pub proof fn law_the_last_declared_return_counts(
    tree: Tree,
    matches: Seq<Seq<CaptureView>>,
    region: Region,
    n: int,
)
    requires
        0 <= n <= matches.len(),
    ensures
        match declared_return(tree, matches, region, n) {
            Some(text) => exists|i: int|
                0 <= i < n && declares(tree, #[trigger] matches[i], region) == Some(text)
                    && forall|j: int|
                    i < j < n ==> declares(tree, #[trigger] matches[j], region) is None,
            None => forall|j: int|
                0 <= j < n ==> declares(tree, #[trigger] matches[j], region) is None,
        },
    decreases n,
{
    if n > 0 {
        law_the_last_declared_return_counts(tree, matches, region, n - 1);
        if declares(tree, matches[n - 1], region) is Some {
            assert(declares(tree, matches[n - 1], region) is Some);
        }
    }
}

/// The return type a match captured for the callable at a place.
pub open spec fn declares(tree: Tree, captures: Seq<CaptureView>, region: Region) -> Option<
    Seq<char>,
> {
    match captured(tree, captures, "callable.with-return"@) {
        Some(item) => if region_of(item) == region {
            captured_text(tree, captures, "callable.return"@)
        } else {
            None
        },
        None => None,
    }
}

proof fn lemma_block_kept(tree: Tree, matches: Seq<Seq<CaptureView>>, n: int, i: int)
    requires
        0 <= i < n <= matches.len(),
        matched_block(tree, matches[i]) is Some,
    ensures
        matched_blocks(tree, matches, n).contains(matched_block(tree, matches[i])->0),
    decreases n,
{
    let block = matched_block(tree, matches[i])->0;
    let all = matched_blocks(tree, matches, n);
    if i == n - 1 {
        assert(all.last() == block);
    } else {
        lemma_block_kept(tree, matches, n - 1, i);
        let before = matched_blocks(tree, matches, n - 1);
        let k = choose|k: int| 0 <= k < before.len() && before[k] == block;
        assert(all[k] == block);
    }
}

proof fn lemma_block_from(tree: Tree, matches: Seq<Seq<CaptureView>>, n: int, k: int)
    requires
        0 <= n <= matches.len(),
        0 <= k < matched_blocks(tree, matches, n).len(),
    ensures
        exists|i: int|
            0 <= i < n && matched_block(tree, #[trigger] matches[i]) == Some(
                matched_blocks(tree, matches, n)[k],
            ),
    decreases n,
{
    if n > 0 {
        let before = matched_blocks(tree, matches, n - 1);
        if k < before.len() {
            lemma_block_from(tree, matches, n - 1, k);
            let i = choose|i: int|
                0 <= i < n - 1 && matched_block(tree, #[trigger] matches[i]) == Some(before[k]);
            assert(matched_block(tree, matches[i]) == Some(before[k]));
        } else {
            assert(matched_block(tree, matches[n - 1]) is Some);
        }
    }
}

/// Every match that captured a block and the type it implements puts a block at that
/// place in the list, and every listed block is told by the bare name of the type
/// that a match captured there.
pub proof fn law_blocks_are_those_matched(
    tree: Tree,
    matches: Seq<Seq<CaptureView>>,
    i: int,
    k: int,
)
    ensures
        0 <= i < matches.len() && captured(tree, matches[i], "impl.item"@) is Some
            && captured_text(tree, matches[i], "impl.type"@) is Some ==> exists|l: int|
            0 <= l < implementations_of(tree, matches).len() && (#[trigger] implementations_of(
                tree,
                matches,
            )[l]).1 == region_of(captured(tree, matches[i], "impl.item"@)->0),
        0 <= k < implementations_of(tree, matches).len() ==> exists|j: int|
            0 <= j < matches.len() && (captured(tree, #[trigger] matches[j], "impl.item"@) matches Some(
                item,
            ) && region_of(item) == implementations_of(tree, matches)[k].1) && (captured_text(
                tree,
                matches[j],
                "impl.type"@,
            ) matches Some(text) && simple_name(text) == implementations_of(tree, matches)[k].0),
{
    let n = matches.len() as int;
    let blocks = matched_blocks(tree, matches, n);
    let regions = block_regions(blocks);
    let places = document_places(regions);
    let all = implementations_of(tree, matches);
    lemma_places(regions);
    if 0 <= i < n && captured(tree, matches[i], "impl.item"@) is Some && captured_text(
        tree,
        matches[i],
        "impl.type"@,
    ) is Some {
        lemma_block_kept(tree, matches, n, i);
        let block = matched_block(tree, matches[i])->0;
        let j = choose|j: int| 0 <= j < blocks.len() && blocks[j] == block;
        assert(regions[j] == block.1);
        assert(has_place(regions, regions[j]));
        let l = choose|l: int|
            0 <= l < places.len() && regions[#[trigger] places[l]] == regions[j];
        assert(all[l] == blocks[places[l]]);
    }
    if 0 <= k < all.len() {
        assert(all[k] == blocks[places[k]]);
        lemma_block_from(tree, matches, n, places[k]);
        let j = choose|j: int|
            0 <= j < n && matched_block(tree, #[trigger] matches[j]) == Some(blocks[places[k]]);
        assert(matches[j] == matches[j]);
    }
}

proof fn lemma_call_kept(tree: Tree, matches: Seq<Seq<CaptureView>>, n: int, i: int)
    requires
        0 <= i < n <= matches.len(),
        matched_call(tree, matches[i]) is Some,
    ensures
        matched_calls(tree, matches, n).contains(matched_call(tree, matches[i])->0),
    decreases n,
{
    let call = matched_call(tree, matches[i])->0;
    let all = matched_calls(tree, matches, n);
    if i == n - 1 {
        assert(all.last() == call);
    } else {
        lemma_call_kept(tree, matches, n - 1, i);
        let before = matched_calls(tree, matches, n - 1);
        let k = choose|k: int| 0 <= k < before.len() && before[k] == call;
        assert(all[k] == call);
    }
}

proof fn lemma_call_from(tree: Tree, matches: Seq<Seq<CaptureView>>, n: int, k: int)
    requires
        0 <= n <= matches.len(),
        0 <= k < matched_calls(tree, matches, n).len(),
    ensures
        exists|i: int|
            0 <= i < n && matched_call(tree, #[trigger] matches[i]) == Some(
                matched_calls(tree, matches, n)[k],
            ),
    decreases n,
{
    if n > 0 {
        let before = matched_calls(tree, matches, n - 1);
        if k < before.len() {
            lemma_call_from(tree, matches, n - 1, k);
            let i = choose|i: int|
                0 <= i < n - 1 && matched_call(tree, #[trigger] matches[i]) == Some(before[k]);
            assert(matched_call(tree, matches[i]) == Some(before[k]));
        } else {
            assert(matched_call(tree, matches[n - 1]) is Some);
        }
    }
}

/// Every match that captured a call and its callee puts a call at that place in the
/// list, and every listed call names the callee that a match captured there.
pub proof fn law_calls_are_those_matched(
    tree: Tree,
    matches: Seq<Seq<CaptureView>>,
    i: int,
    k: int,
)
    ensures
        0 <= i < matches.len() && captured(tree, matches[i], "call.site"@) is Some
            && captured_text(tree, matches[i], "call.callee"@) is Some ==> exists|l: int|
            0 <= l < calls_of(tree, matches).len() && region_of(
                (#[trigger] calls_of(tree, matches)[l]).1,
            ) == region_of(captured(tree, matches[i], "call.site"@)->0),
        0 <= k < calls_of(tree, matches).len() ==> exists|j: int|
            0 <= j < matches.len() && captured(tree, #[trigger] matches[j], "call.site"@) == Some(
                calls_of(tree, matches)[k].1,
            ) && captured_text(tree, matches[j], "call.callee"@) == Some(
                calls_of(tree, matches)[k].0,
            ),
{
    let n = matches.len() as int;
    let calls = matched_calls(tree, matches, n);
    let regions = site_regions(calls);
    let places = document_places(regions);
    let all = calls_of(tree, matches);
    lemma_places(regions);
    if 0 <= i < n && captured(tree, matches[i], "call.site"@) is Some && captured_text(
        tree,
        matches[i],
        "call.callee"@,
    ) is Some {
        lemma_call_kept(tree, matches, n, i);
        let call = matched_call(tree, matches[i])->0;
        let j = choose|j: int| 0 <= j < calls.len() && calls[j] == call;
        assert(regions[j] == region_of(call.1));
        assert(has_place(regions, regions[j]));
        let l = choose|l: int|
            0 <= l < places.len() && regions[#[trigger] places[l]] == regions[j];
        assert(all[l] == calls[places[l]]);
    }
    if 0 <= k < all.len() {
        assert(all[k] == calls[places[k]]);
        lemma_call_from(tree, matches, n, places[k]);
        let j = choose|j: int|
            0 <= j < n && matched_call(tree, #[trigger] matches[j]) == Some(calls[places[k]]);
        assert(matches[j] == matches[j]);
    }
}

/// What a marker covers is a test, wherever its match stands, and nothing else is.
pub proof fn law_tests_are_those_marked(
    tree: Tree,
    matches: Seq<Seq<CaptureView>>,
    markers: MarkersView,
    region: Region,
    n: int,
)
    requires
        0 <= n <= matches.len(),
    ensures
        tests_of(tree, matches, markers, n).contains(region) <==> exists|i: int|
            0 <= i < n && is_marked(tree, #[trigger] matches[i], markers, region),
    decreases n,
{
    let all = tests_of(tree, matches, markers, n);
    if n > 0 {
        let before = tests_of(tree, matches, markers, n - 1);
        law_tests_are_those_marked(tree, matches, markers, region, n - 1);
        if before.contains(region) {
            let k = choose|k: int| 0 <= k < before.len() && before[k] == region;
            assert(all[k] == region);
        }
        if is_marked(tree, matches[n - 1], markers, region) {
            assert(all.last() == region);
        }
        if all.contains(region) && !before.contains(region) {
            let k = choose|k: int| 0 <= k < all.len() && all[k] == region;
            if k < before.len() {
                assert(before[k] == region);
            }
            assert(is_marked(tree, matches[n - 1], markers, region));
        }
    }
}

/// Whether a match captured an annotation that marks a test and covers a region.
pub open spec fn is_marked(
    tree: Tree,
    captures: Seq<CaptureView>,
    markers: MarkersView,
    region: Region,
) -> bool {
    &&& captured_from(tree, captures, "attribute.item"@, 0) matches Some(place) && attributed(
        tree,
        captures[place].path,
    ) == Some(region)
    &&& captured_text(tree, captures, "attribute.text"@) matches Some(text) && marks_test(
        text,
        markers,
    )
}

proof fn lemma_call_told(file: FileView, callable: int, n: int, at: int)
    requires
        0 <= at < n <= file_scaffold(file).calls.len(),
        innermost_of(
            body_regions(file_scaffold(file).callables),
            file_scaffold(file).calls[at].1.extent.start_byte as int,
        ) == Some(callable),
    ensures
        calls_within(file.path, file_scaffold(file), callable, n).contains(
            (CallView {
                callee: file_scaffold(file).calls[at].0,
                span: span_at(file.path, file_scaffold(file).calls[at].1.extent),
            }),
        ),
    decreases n,
{
    let scaffold = file_scaffold(file);
    let call = CallView {
        callee: scaffold.calls[at].0,
        span: span_at(file.path, scaffold.calls[at].1.extent),
    };
    let all = calls_within(file.path, scaffold, callable, n);
    if at == n - 1 {
        assert(all.last() == call);
    } else {
        lemma_call_told(file, callable, n - 1, at);
        let before = calls_within(file.path, scaffold, callable, n - 1);
        let k = choose|k: int| 0 <= k < before.len() && before[k] == call;
        assert(all[k] == call);
    }
}

/// Every call of a file is told by the innermost callable that it is written in, with
/// its callee and where it stands.
pub proof fn law_calls_are_told_by_the_innermost_callable(file: FileView, callable: int, at: int)
    requires
        0 <= callable < file_scaffold(file).callables.len(),
        0 <= at < file_scaffold(file).calls.len(),
        innermost_of(
            body_regions(file_scaffold(file).callables),
            file_scaffold(file).calls[at].1.extent.start_byte as int,
        ) == Some(callable),
    ensures
        file_nodes(file)[callable].name == file_scaffold(file).callables[callable].name,
        file_nodes(file)[callable].containment == file_scaffold(
            file,
        ).callables[callable].containment,
        exists|k: int|
            0 <= k < file_nodes(file)[callable].calls.len() && (#[trigger] file_nodes(
                file,
            )[callable].calls[k]).callee == file_scaffold(file).calls[at].0 && file_nodes(
                file,
            )[callable].calls[k].span == span_at(
                file.path,
                file_scaffold(file).calls[at].1.extent,
            ),
{
    let scaffold = file_scaffold(file);
    lemma_call_told(file, callable, scaffold.calls.len() as int, at);
    let calls = file_nodes(file)[callable].calls;
    assert(calls == calls_within(
        file.path,
        scaffold,
        callable,
        scaffold.calls.len() as int,
    ));
    let k = choose|k: int|
        0 <= k < calls.len() && calls[k] == (CallView {
            callee: scaffold.calls[at].0,
            span: span_at(file.path, scaffold.calls[at].1.extent),
        });
    assert(calls[k].callee == scaffold.calls[at].0);
}

/// Lines and columns are told counted from one, and bytes as they are.
pub proof fn law_places_are_told_from_one(path: Seq<char>, extent: Extent)
    requires
        span_fits(extent),
        extent.start_column < u32::MAX,
        extent.end_column < u32::MAX,
    ensures
        span_at(path, extent).start_line == extent.start_row + 1,
        span_at(path, extent).end_line == extent.end_row + 1,
        span_at(path, extent).start_column matches Some(column) && column == extent.start_column
            + 1,
        span_at(path, extent).end_column matches Some(column) && column == extent.end_column + 1,
        span_at(path, extent).start_byte matches Some(byte) && byte == extent.start_byte,
        span_at(path, extent).end_byte matches Some(byte) && byte == extent.end_byte,
        span_at(path, extent).path == crate::paths::components(path),
{
}

} // verus!
