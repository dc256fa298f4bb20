//! Where a discard is placed, and what it is held against.

use crate::errors::captures::{
    attributed, captured, innermost_of, law_innermost_is_shortest, region_covers, tree_at,
    CaptureView, Region,
};
use crate::errors::collect::{
    answers_query, callable_path, file_scaffold, reported_discard, span_at, FileView,
};
use crate::errors::laws::law_forms_are_captured_by_their_spelling;
use crate::errors::naming::module_of;
use crate::errors::scaffold::{block_regions, body_regions, ItemView};
use crate::facts::{discard_spelling, DiscardForm};
use crate::syntax::{part_in, Tree};
use vstd::prelude::*;
use vstd::string::*;

verus! {

/// A region covers the bytes from its start up to, and without, its end.
pub proof fn law_a_region_covers_what_lies_in_it(start: usize, end: usize, point: int)
    ensures
        region_covers(Region { start, end }, point) <==> start <= point < end,
{
}

/// A callable is told by its module, the type that the innermost block around it
/// implements, and its name, with double colons between.
pub proof fn law_callables_are_told_by_module_type_and_name(
    module: Seq<char>,
    blocks: Seq<(Seq<char>, Region)>,
    item: ItemView,
    i: int,
)
    ensures
        innermost_of(block_regions(blocks), item.item.start as int) == Some(i) ==> callable_path(
            module,
            blocks,
            item,
        ) == module + seq![':', ':'] + blocks[i].0 + seq![':', ':'] + item.name,
        (forall|j: int|
            0 <= j < blocks.len() ==> !region_covers(
                (#[trigger] blocks[j]).1,
                item.item.start as int,
            )) ==> callable_path(module, blocks, item) == module + seq![':', ':'] + item.name,
{
    reveal_strlit("::");
    assert("::"@ =~= seq![':', ':']);
    law_innermost_is_shortest(block_regions(blocks), item.item.start as int);
    if forall|j: int|
        0 <= j < blocks.len() ==> !region_covers(
            (#[trigger] blocks[j]).1,
            item.item.start as int,
        ) {
        let regions = block_regions(blocks);
        if let Some(k) = innermost_of(regions, item.item.start as int) {
            assert(regions[k] == blocks[k].1);
        }
    }
}

/// A discard is held against the innermost callable it is written in: its path, where
/// it stands, and whether it could have reported the failure. One outside every
/// callable is held against the module, which can report nothing.
pub proof fn law_discards_are_held_against_the_innermost_callable(
    file: FileView,
    captures: Seq<CaptureView>,
    form: DiscardForm,
    site: Tree,
    i: int,
)
    requires
        captured(file.tree, captures, "discard."@ + discard_spelling(form)) == Some(site),
    ensures
        ({
            let scaffold = file_scaffold(file);
            let discard = reported_discard(file, captures, form);
            &&& innermost_of(
                body_regions(scaffold.callables),
                site.extent.start_byte as int,
            ) == Some(i) ==> {
                &&& discard.callable == callable_path(
                    module_of(file.path),
                    scaffold.implementations,
                    scaffold.callables[i],
                )
                &&& discard.callable_span == span_at(
                    file.path,
                    scaffold.callables[i].node.extent,
                )
                &&& discard.containment == scaffold.callables[i].containment
            }
            &&& (forall|j: int|
                0 <= j < scaffold.callables.len() ==> !region_covers(
                    (#[trigger] scaffold.callables[j]).body,
                    site.extent.start_byte as int,
                )) ==> {
                &&& discard.callable == module_of(file.path)
                &&& discard.callable_span == span_at(file.path, file.tree.extent)
                &&& discard.containment is Infallible
            }
            &&& discard.reach is Unknown
            &&& discard.path.len() == 0
        }),
{
    law_forms_are_captured_by_their_spelling(form);
    let scaffold = file_scaffold(file);
    let regions = body_regions(scaffold.callables);
    law_innermost_is_shortest(regions, site.extent.start_byte as int);
    if forall|j: int|
        0 <= j < scaffold.callables.len() ==> !region_covers(
            (#[trigger] scaffold.callables[j]).body,
            site.extent.start_byte as int,
        ) {
        if let Some(k) = innermost_of(regions, site.extent.start_byte as int) {
            assert(regions[k] == scaffold.callables[k].body);
        }
    }
}

/// A match answers a query, rather than drops a failure, exactly where its way is one
/// for which the language says so and its expression calls a method whose failure
/// means an absence.
pub proof fn law_what_answers_a_query(
    file: FileView,
    captures: Seq<CaptureView>,
    form: DiscardForm,
)
    ensures
        answers_query(file, captures, form) <==> file.types.non_failure_results_forms.contains(
            discard_spelling(form),
        ) && (captured(
            file.tree,
            captures,
            "discard."@ + discard_spelling(form) + ".expression"@,
        ) matches Some(expression) && (part_in(expression, "function"@) matches Some(function) && (
        part_in(function, "field"@) matches Some(field) && (field.text matches Some(method)
            && file.types.non_failure_results.contains(method))))),
{
    law_forms_are_captured_by_their_spelling(form);
}

/// An annotation covers the item it is written above, from its own start to the
/// item's end. Where another annotation or nothing follows it, it covers all that it
/// stands in.
pub proof fn law_annotations_cover_what_follows(
    tree: Tree,
    path: Seq<usize>,
    parent: Tree,
    place: int,
)
    requires
        path.len() > 0,
        tree_at(tree, path.drop_last()) == Some(parent),
        path.last() == place,
        0 <= place < parent.parts.len(),
    ensures
        place + 1 < parent.parts.len() && parent.parts[place + 1].named && parent.parts[place
            + 1].kind != parent.parts[place].kind ==> attributed(tree, path) == Some(
            Region {
                start: parent.parts[place].extent.start_byte,
                end: parent.parts[place + 1].extent.end_byte,
            },
        ),
        place + 1 < parent.parts.len() && parent.parts[place + 1].named && parent.parts[place
            + 1].kind == parent.parts[place].kind ==> attributed(tree, path) == Some(
            Region { start: parent.extent.start_byte, end: parent.extent.end_byte },
        ),
        place + 1 == parent.parts.len() ==> attributed(tree, path) == Some(
            Region { start: parent.extent.start_byte, end: parent.extent.end_byte },
        ),
        attributed(tree, Seq::empty()) is None,
{
}

} // verus!
