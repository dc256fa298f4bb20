//! What renaming keeps of a form: how large it is, how deep, how much it names
//! and how much it leaves open.

use crate::lists::{extended, lemma_extended};
use crate::normalize::alpha::{
    distinct_holes, distinct_names, lemma_extended_mapped, lemma_free_names_relabeled,
    lemma_number_of, lemma_numbering_tells_apart, lemma_own_names_known,
    lemma_written_names_relabeled, mapped, tells_apart,
};
use crate::normalize::form::{lemma_part_smaller, Form, PatternTerm, Shape, Term};
use crate::normalize::measure::{
    each_anchors, each_depth, each_pattern_anchors, each_pattern_size, each_size, free_names,
    pattern_anchors, pattern_size, term_anchors, term_depth, term_holes, term_size,
};
use crate::normalize::renaming::{
    canonical_term, numbering, relabeled, relabeled_pattern, relabeled_patterns, written_names,
};
use crate::normalize::shaped::lemma_form_shaped;
use vstd::prelude::*;
use vstd::seq_lib::*;

verus! {

/// Renaming keeps how large a pattern is and how much it names.
proof fn lemma_pattern_kept(pattern: PatternTerm, locals: spec_fn(u32) -> u32)
    ensures
        pattern_size(relabeled_pattern(pattern, locals)) == pattern_size(pattern),
        pattern_anchors(relabeled_pattern(pattern, locals)) == pattern_anchors(pattern),
    decreases pattern,
{
    assert(decreases_to!(pattern => pattern.parts));
    lemma_patterns_kept(pattern.parts, locals);
}

/// Renaming keeps how large patterns are and how much they name.
proof fn lemma_patterns_kept(patterns: Seq<PatternTerm>, locals: spec_fn(u32) -> u32)
    ensures
        each_pattern_size(relabeled_patterns(patterns, locals)) == each_pattern_size(patterns),
        each_pattern_anchors(relabeled_patterns(patterns, locals)) == each_pattern_anchors(
            patterns,
        ),
    decreases patterns,
{
    let renamed = relabeled_patterns(patterns, locals);
    assert forall|i: int| 0 <= i < patterns.len() implies #[trigger] each_pattern_size(renamed)[i]
        == each_pattern_size(patterns)[i] && each_pattern_anchors(renamed)[i]
        == each_pattern_anchors(patterns)[i] by {
        assert(decreases_to!(patterns => patterns[i]));
        lemma_pattern_kept(patterns[i], locals);
        assert(renamed[i] == relabeled_pattern(patterns[i], locals));
    }
    assert(each_pattern_size(renamed) =~= each_pattern_size(patterns));
    assert forall|i: int| 0 <= i < patterns.len() implies #[trigger] each_pattern_anchors(
        renamed,
    )[i] == each_pattern_anchors(patterns)[i] by {
        assert(each_pattern_size(renamed)[i] == each_pattern_size(patterns)[i]);
    }
    assert(each_pattern_anchors(renamed) =~= each_pattern_anchors(patterns));
}

/// Renaming keeps how large a term is, how deep, and how much it names.
proof fn lemma_measures_kept(
    term: Term,
    locals: spec_fn(u32) -> u32,
    frees: spec_fn(u32) -> u32,
)
    ensures
        term_size(relabeled(term, locals, frees)) == term_size(term),
        term_depth(relabeled(term, locals, frees)) == term_depth(term),
        term_anchors(relabeled(term, locals, frees)) == term_anchors(term),
    decreases term,
{
    let renamed = relabeled(term, locals, frees);
    if let Shape::Select(patterns) = term.shape {
        lemma_patterns_kept(patterns, locals);
    }
    assert forall|i: int| 0 <= i < term.parts.len() implies #[trigger] each_size(renamed.parts)[i]
        == each_size(term.parts)[i] && each_depth(renamed.parts)[i] == each_depth(term.parts)[i]
        && each_anchors(renamed.parts)[i] == each_anchors(term.parts)[i] by {
        lemma_part_smaller(term, i);
        lemma_measures_kept(term.parts[i], locals, frees);
        assert(renamed.parts[i] == relabeled(term.parts[i], locals, frees));
    }
    assert(each_size(renamed.parts) =~= each_size(term.parts));
    assert forall|i: int| 0 <= i < term.parts.len() implies #[trigger] each_depth(renamed.parts)[i]
        == each_depth(term.parts)[i] by {
        assert(each_size(renamed.parts)[i] == each_size(term.parts)[i]);
    }
    assert(each_depth(renamed.parts) =~= each_depth(term.parts));
    assert forall|i: int| 0 <= i < term.parts.len() implies #[trigger] each_anchors(
        renamed.parts,
    )[i] == each_anchors(term.parts)[i] by {
        assert(each_size(renamed.parts)[i] == each_size(term.parts)[i]);
    }
    assert(each_anchors(renamed.parts) =~= each_anchors(term.parts));
}

/// The holes of a form are counted once each, however often they appear.
pub proof fn law_holes_are_counted_once(form: Form)
    ensures
        term_holes(form@) == free_names(form@).to_set().len(),
{
    let names = free_names(form@);
    let found = extended(Seq::empty(), names);
    lemma_extended(Seq::<u32>::empty(), names);
    assert forall|name: u32| found.to_set().contains(name) <==> names.to_set().contains(name) by {
        assert(found.contains(name) <==> names.contains(name));
    }
    assert(found.to_set() =~= names.to_set());
    found.unique_seq_to_set();
}

/// Renaming the holes of a form, no two alike, keeps how many there are.
pub proof fn law_renaming_keeps_the_number_of_holes(form: Form, frees: spec_fn(u32) -> u32)
    requires
        tells_apart(frees, free_names(form@)),
    ensures
        term_holes(relabeled(form@, |name: u32| name, frees)) == term_holes(form@),
{
    let locals = |name: u32| name;
    lemma_free_names_relabeled(form@, locals, frees);
    lemma_extended_mapped(free_names(form@), frees);
}

/// Renumbering a form keeps how large it is, how deep, how much it names and how
/// much it leaves open.
pub proof fn law_canonical_keeps_measures(form: Form)
    ensures
        term_size(canonical_term(form@)) == term_size(form@),
        term_depth(canonical_term(form@)) == term_depth(form@),
        term_anchors(canonical_term(form@)) == term_anchors(form@),
        term_holes(canonical_term(form@)) == term_holes(form@),
{
    let term = form@;
    let names = distinct_names(term);
    let holes = distinct_holes(term);
    lemma_form_shaped(form);
    lemma_own_names_known(term);
    lemma_measures_kept(term, numbering(names), numbering(holes));
    lemma_numbering_tells_apart(holes);
    assert(tells_apart(numbering(holes), free_names(term)));
    lemma_free_names_relabeled(term, numbering(names), numbering(holes));
    lemma_extended_mapped(free_names(term), numbering(holes));
}

/// A list of distinct numbers, each put to its place, counts from zero.
proof fn lemma_numbered_in_order(list: Seq<u32>)
    requires
        list.no_duplicates(),
    ensures
        mapped(list, numbering(list)) == Seq::new(list.len(), |i: int| i as u32),
{
    assert forall|i: int| 0 <= i < list.len() implies #[trigger] mapped(list, numbering(list))[i]
        == i as u32 by {
        lemma_number_of(list, i);
    }
    assert(mapped(list, numbering(list)) =~= Seq::new(list.len(), |i: int| i as u32));
}

/// A renumbered form numbers its names and its holes from zero, each by where it
/// first appears: a value before the name it is bound to, and any other binder
/// before its body. So its holes are exactly the numbers below their count.
pub proof fn law_canonical_numbers_by_first_appearance(form: Form)
    ensures
        distinct_names(canonical_term(form@)) == Seq::new(
            distinct_names(form@).len(),
            |i: int| i as u32,
        ),
        distinct_holes(canonical_term(form@)) == Seq::new(
            distinct_holes(form@).len(),
            |i: int| i as u32,
        ),
        forall|name: u32| #[trigger]
            free_names(canonical_term(form@)).contains(name) <==> name < term_holes(form@),
{
    let term = form@;
    let names = distinct_names(term);
    let holes = distinct_holes(term);
    let made = canonical_term(term);
    lemma_form_shaped(form);
    lemma_own_names_known(term);
    lemma_numbering_tells_apart(names);
    lemma_numbering_tells_apart(holes);
    assert(tells_apart(numbering(names), written_names(term)));
    assert(tells_apart(numbering(holes), free_names(term)));
    lemma_written_names_relabeled(term, numbering(names), numbering(holes));
    lemma_free_names_relabeled(term, numbering(names), numbering(holes));
    lemma_extended_mapped(written_names(term), numbering(names));
    lemma_extended_mapped(free_names(term), numbering(holes));
    lemma_numbered_in_order(names);
    lemma_numbered_in_order(holes);
    lemma_extended(Seq::<u32>::empty(), free_names(made));
    assert forall|name: u32| #[trigger] free_names(made).contains(name) <==> name < term_holes(
        term,
    ) by {
        let order = distinct_holes(made);
        assert(order.contains(name) <==> free_names(made).contains(name));
        if name < holes.len() {
            assert(order[name as int] == name);
        }
        if order.contains(name) {
            let k = choose|k: int| 0 <= k < order.len() && order[k] == name;
            lemma_number_of(holes, k);
        }
    }
}

} // verus!
