//! Renumbering decides equality up to consistent renaming.

use crate::lists::{extended, joined, lemma_distinct_below, lemma_extended, position_of};
use crate::normalize::form::{lemma_part_smaller, Form, PatternKind, PatternTerm, Shape, Term};
use crate::normalize::measure::{each_free_names, free_names};
use crate::normalize::names::{each_pattern_names, pattern_names, shape_binders};
use crate::normalize::renaming::{
    arm_names, binders_after, canonical_term, each_relabeled, each_written_names, lemma_term_agree,
    number, numbering, pattern_known, relabeled, relabeled_pattern, relabeled_patterns,
    relabeled_shape, term_known, written_names,
};
use crate::normalize::shaped::{is_shaped, lemma_form_shaped};
use vstd::prelude::*;

verus! {

/// Whether a function tells the values of a list apart.
pub open spec fn tells_apart(function: spec_fn(u32) -> u32, list: Seq<u32>) -> bool {
    forall|a: u32, b: u32|
        list.contains(a) && list.contains(b) && #[trigger] function(a) == #[trigger] function(b)
            ==> a == b
}

/// Whether one term is another with its names and holes consistently renamed.
pub open spec fn is_renaming_of(renamed: Term, original: Term) -> bool {
    exists|locals: spec_fn(u32) -> u32, frees: spec_fn(u32) -> u32|
        tells_apart(locals, written_names(original)) && tells_apart(frees, free_names(original))
            && renamed == #[trigger] relabeled(original, locals, frees)
}

/// A list put through a function.
pub open spec fn mapped(list: Seq<u32>, function: spec_fn(u32) -> u32) -> Seq<u32> {
    Seq::new(list.len(), |i: int| function(list[i]))
}

/// Lists put through a function.
spec fn each_mapped(lists: Seq<Seq<u32>>, function: spec_fn(u32) -> u32) -> Seq<Seq<u32>> {
    Seq::new(lists.len(), |i: int| mapped(lists[i], function))
}

proof fn lemma_mapped_join(first: Seq<u32>, second: Seq<u32>, function: spec_fn(u32) -> u32)
    ensures
        mapped(first + second, function) == mapped(first, function) + mapped(second, function),
{
    assert(mapped(first + second, function) =~= mapped(first, function) + mapped(
        second,
        function,
    ));
}

proof fn lemma_mapped_joined(lists: Seq<Seq<u32>>, function: spec_fn(u32) -> u32)
    ensures
        mapped(joined(lists), function) == joined(each_mapped(lists, function)),
    decreases lists.len(),
{
    if lists.len() == 0 {
        assert(mapped(joined(lists), function) =~= Seq::empty());
    } else {
        lemma_mapped_joined(lists.drop_last(), function);
        lemma_mapped_join(joined(lists.drop_last()), lists.last(), function);
        assert(each_mapped(lists, function).drop_last() =~= each_mapped(
            lists.drop_last(),
            function,
        ));
    }
}

proof fn lemma_pattern_names_relabeled(pattern: PatternTerm, locals: spec_fn(u32) -> u32)
    ensures
        pattern_names(relabeled_pattern(pattern, locals)) == mapped(pattern_names(pattern), locals),
    decreases pattern,
{
    assert(decreases_to!(pattern => pattern.parts));
    lemma_patterns_names_relabeled(pattern.parts, locals);
    lemma_mapped_joined(each_pattern_names(pattern.parts), locals);
    let own = match pattern.kind {
        PatternKind::Binding(index) => seq![index],
        _ => Seq::empty(),
    };
    lemma_mapped_join(own, joined(each_pattern_names(pattern.parts)), locals);
    let renamed = match relabeled_pattern(pattern, locals).kind {
        PatternKind::Binding(index) => seq![index],
        _ => Seq::empty(),
    };
    assert(mapped(own, locals) =~= renamed);
}

proof fn lemma_patterns_names_relabeled(
    patterns: Seq<PatternTerm>,
    locals: spec_fn(u32) -> u32,
)
    ensures
        each_pattern_names(relabeled_patterns(patterns, locals)) == each_mapped(
            each_pattern_names(patterns),
            locals,
        ),
    decreases patterns,
{
    let left = each_pattern_names(relabeled_patterns(patterns, locals));
    let right = each_mapped(each_pattern_names(patterns), locals);
    assert forall|i: int| 0 <= i < patterns.len() implies #[trigger] left[i] == right[i] by {
        assert(decreases_to!(patterns => patterns[i]));
        lemma_pattern_names_relabeled(patterns[i], locals);
        assert(relabeled_patterns(patterns, locals)[i] == relabeled_pattern(patterns[i], locals));
    }
    assert(left =~= right);
}

proof fn lemma_binders_relabeled(
    shape: Shape,
    locals: spec_fn(u32) -> u32,
    frees: spec_fn(u32) -> u32,
)
    ensures
        shape_binders(relabeled_shape(shape, locals, frees)) == relabeled_patterns(
            shape_binders(shape),
            locals,
        ),
{
    let left = shape_binders(relabeled_shape(shape, locals, frees));
    let right = relabeled_patterns(shape_binders(shape), locals);
    assert(left.len() == right.len());
    assert forall|i: int| 0 <= i < left.len() implies #[trigger] left[i] == right[i] by {
        assert(right[i] == relabeled_pattern(shape_binders(shape)[i], locals));
    }
    assert(left =~= right);
}

proof fn lemma_arm_names_relabeled(
    patterns: Seq<PatternTerm>,
    bodies: Seq<Seq<u32>>,
    locals: spec_fn(u32) -> u32,
)
    ensures
        arm_names(relabeled_patterns(patterns, locals), each_mapped(bodies, locals)) == mapped(
            arm_names(patterns, bodies),
            locals,
        ),
    decreases bodies.len(),
{
    if bodies.len() == 0 || patterns.len() == 0 {
        assert(mapped(arm_names(patterns, bodies), locals) =~= Seq::empty());
    } else {
        let renamed = relabeled_patterns(patterns, locals);
        lemma_arm_names_relabeled(patterns.drop_last(), bodies.drop_last(), locals);
        lemma_pattern_names_relabeled(patterns.last(), locals);
        assert(renamed.drop_last() =~= relabeled_patterns(patterns.drop_last(), locals)) by {
            let few = relabeled_patterns(patterns.drop_last(), locals);
            assert forall|i: int| 0 <= i < few.len() implies #[trigger] few[i]
                == renamed.drop_last()[i] by {
                assert(few[i] == relabeled_pattern(patterns.drop_last()[i], locals));
            }
        }
        assert(renamed.last() == relabeled_pattern(patterns.last(), locals));
        assert(each_mapped(bodies, locals).drop_last() =~= each_mapped(
            bodies.drop_last(),
            locals,
        ));
        let before = arm_names(patterns.drop_last(), bodies.drop_last());
        lemma_mapped_join(before, pattern_names(patterns.last()), locals);
        lemma_mapped_join(
            before + pattern_names(patterns.last()),
            bodies.last(),
            locals,
        );
    }
}

/// Relabeling a term puts the names it mentions through the same function, in
/// the same order.
pub(crate) proof fn lemma_written_names_relabeled(
    term: Term,
    locals: spec_fn(u32) -> u32,
    frees: spec_fn(u32) -> u32,
)
    ensures
        written_names(relabeled(term, locals, frees)) == mapped(written_names(term), locals),
    decreases term,
{
    let renamed = relabeled(term, locals, frees);
    let each = each_written_names(term.parts);
    let each_renamed = each_written_names(renamed.parts);
    assert forall|i: int| 0 <= i < term.parts.len() implies #[trigger] each_renamed[i]
        == each_mapped(each, locals)[i] by {
        lemma_part_smaller(term, i);
        lemma_written_names_relabeled(term.parts[i], locals, frees);
        assert(renamed.parts[i] == relabeled(term.parts[i], locals, frees));
    }
    assert(each_renamed =~= each_mapped(each, locals));
    match term.shape {
        Shape::Local(index) => {
            lemma_mapped_joined(each, locals);
            lemma_mapped_join(seq![index], joined(each), locals);
            assert(mapped(seq![index], locals) =~= seq![locals(index)]);
        },
        Shape::Select(patterns) => {
            if each.len() == 0 {
                assert(mapped(written_names(term), locals) =~= Seq::empty());
            } else {
                lemma_arm_names_relabeled(patterns, each.drop_first(), locals);
                lemma_mapped_join(each[0], arm_names(patterns, each.drop_first()), locals);
                assert(each_renamed.drop_first() =~= each_mapped(each.drop_first(), locals));
            }
        },
        _ => {
            let cut = binders_after(term.shape, each.len()) as int;
            let binders = shape_binders(term.shape);
            lemma_binders_relabeled(term.shape, locals, frees);
            lemma_patterns_names_relabeled(binders, locals);
            lemma_mapped_joined(each.take(cut), locals);
            lemma_mapped_joined(each_pattern_names(binders), locals);
            lemma_mapped_joined(each.skip(cut), locals);
            lemma_mapped_join(joined(each.take(cut)), joined(each_pattern_names(binders)), locals);
            lemma_mapped_join(
                joined(each.take(cut)) + joined(each_pattern_names(binders)),
                joined(each.skip(cut)),
                locals,
            );
            assert(each_renamed.take(cut) =~= each_mapped(each.take(cut), locals));
            assert(each_renamed.skip(cut) =~= each_mapped(each.skip(cut), locals));
        },
    }
}

/// Relabeling a term puts the holes it mentions through the same function, in
/// the same order.
pub(crate) proof fn lemma_free_names_relabeled(
    term: Term,
    locals: spec_fn(u32) -> u32,
    frees: spec_fn(u32) -> u32,
)
    ensures
        free_names(relabeled(term, locals, frees)) == mapped(free_names(term), frees),
    decreases term,
{
    let renamed = relabeled(term, locals, frees);
    let each = each_free_names(term.parts);
    let each_renamed = each_free_names(renamed.parts);
    assert forall|i: int| 0 <= i < term.parts.len() implies #[trigger] each_renamed[i]
        == each_mapped(each, frees)[i] by {
        lemma_part_smaller(term, i);
        lemma_free_names_relabeled(term.parts[i], locals, frees);
        assert(renamed.parts[i] == relabeled(term.parts[i], locals, frees));
    }
    assert(each_renamed =~= each_mapped(each, frees));
    lemma_mapped_joined(each, frees);
    let own = match term.shape {
        Shape::Free(index) => seq![index],
        _ => Seq::empty(),
    };
    let own_renamed = match renamed.shape {
        Shape::Free(index) => seq![index],
        _ => Seq::empty(),
    };
    lemma_mapped_join(own, joined(each), frees);
    assert(mapped(own, frees) =~= own_renamed);
}

/// Collecting distinct values and putting them through a function that tells
/// them apart can be done in either order.
pub(crate) proof fn lemma_extended_mapped(names: Seq<u32>, function: spec_fn(u32) -> u32)
    requires
        tells_apart(function, names),
    ensures
        extended(Seq::empty(), mapped(names, function)) == mapped(
            extended(Seq::empty(), names),
            function,
        ),
    decreases names.len(),
{
    let none = Seq::<u32>::empty();
    if names.len() == 0 {
        assert(mapped(names, function) =~= none);
        assert(mapped(extended(none, names), function) =~= none);
    } else {
        let few = names.drop_last();
        let last = names.last();
        assert(tells_apart(function, few)) by {
            assert forall|a: u32, b: u32|
                few.contains(a) && few.contains(b) && #[trigger] function(a)
                    == #[trigger] function(b) implies a == b by {
                lemma_prefix_contains(names, a);
                lemma_prefix_contains(names, b);
            }
        }
        lemma_extended_mapped(few, function);
        assert(mapped(names, function).drop_last() =~= mapped(few, function));
        assert(mapped(names, function).last() == function(last));
        let found = extended(none, few);
        lemma_extended(none, few);
        assert(names.contains(last)) by {
            assert(names[names.len() - 1] == last);
        }
        assert(mapped(found, function).contains(function(last)) <==> found.contains(last)) by {
            if found.contains(last) {
                let k = choose|k: int| 0 <= k < found.len() && found[k] == last;
                assert(mapped(found, function)[k] == function(last));
            }
            if mapped(found, function).contains(function(last)) {
                let k = choose|k: int|
                    0 <= k < mapped(found, function).len() && mapped(found, function)[k]
                        == function(last);
                assert(found.contains(found[k]));
                assert(few.contains(found[k]));
                lemma_prefix_contains(names, found[k]);
                assert(function(found[k]) == function(last));
            }
        }
        if !found.contains(last) {
            assert(mapped(found.push(last), function) =~= mapped(found, function).push(
                function(last),
            ));
        }
    }
}

proof fn lemma_prefix_contains(names: Seq<u32>, name: u32)
    requires
        names.len() > 0,
    ensures
        names.drop_last().contains(name) ==> names.contains(name),
{
    if names.drop_last().contains(name) {
        let k = choose|k: int| 0 <= k < names.drop_last().len() && names.drop_last()[k] == name;
        assert(names[k] == name);
    }
}

/// A list of distinct names numbers each by where it stands, and no two alike.
pub(crate) proof fn lemma_number_of(list: Seq<u32>, i: int)
    requires
        list.no_duplicates(),
        0 <= i < list.len(),
    ensures
        i <= u32::MAX,
        number(list, list[i]) == i,
{
    lemma_distinct_below(list, 0x1_0000_0000);
    assert(position_of(list, list[i]) == i);
}

pub(crate) proof fn lemma_numbering_tells_apart(list: Seq<u32>)
    requires
        list.no_duplicates(),
    ensures
        tells_apart(numbering(list), list),
{
    assert forall|a: u32, b: u32|
        list.contains(a) && list.contains(b) && #[trigger] numbering(list)(a)
            == #[trigger] numbering(list)(b) implies a == b by {
        let i = choose|i: int| 0 <= i < list.len() && list[i] == a;
        let j = choose|j: int| 0 <= j < list.len() && list[j] == b;
        lemma_number_of(list, i);
        lemma_number_of(list, j);
    }
}

/// Numbering a list that was put through a function that tells its values apart
/// numbers them alike.
proof fn lemma_numbering_mapped(list: Seq<u32>, function: spec_fn(u32) -> u32)
    requires
        list.no_duplicates(),
        tells_apart(function, list),
    ensures
        mapped(list, function).no_duplicates(),
        forall|name: u32|
            list.contains(name) ==> #[trigger] numbering(list)(name) == numbering(
                mapped(list, function),
            )(function(name)),
{
    let image = mapped(list, function);
    assert forall|i: int, j: int|
        0 <= i < image.len() && 0 <= j < image.len() && i != j implies image[i] != image[j] by {
        assert(list.contains(list[i]) && list.contains(list[j]));
        assert(image[i] == function(list[i]) && image[j] == function(list[j]));
    }
    assert forall|name: u32| list.contains(name) implies #[trigger] numbering(list)(name)
        == numbering(image)(function(name)) by {
        let i = choose|i: int| 0 <= i < list.len() && list[i] == name;
        lemma_number_of(list, i);
        lemma_number_of(image, i);
        assert(image[i] == function(name));
    }
}

/// Relabeling twice is relabeling once by both functions.
proof fn lemma_pattern_twice(
    pattern: PatternTerm,
    first: spec_fn(u32) -> u32,
    second: spec_fn(u32) -> u32,
)
    ensures
        relabeled_pattern(relabeled_pattern(pattern, first), second) == relabeled_pattern(
            pattern,
            |name: u32| second(first(name)),
        ),
    decreases pattern,
{
    assert(decreases_to!(pattern => pattern.parts));
    lemma_patterns_twice(pattern.parts, first, second);
}

proof fn lemma_patterns_twice(
    patterns: Seq<PatternTerm>,
    first: spec_fn(u32) -> u32,
    second: spec_fn(u32) -> u32,
)
    ensures
        relabeled_patterns(relabeled_patterns(patterns, first), second) == relabeled_patterns(
            patterns,
            |name: u32| second(first(name)),
        ),
    decreases patterns,
{
    let both = |name: u32| second(first(name));
    let left = relabeled_patterns(relabeled_patterns(patterns, first), second);
    let right = relabeled_patterns(patterns, both);
    assert forall|i: int| 0 <= i < patterns.len() implies #[trigger] left[i] == right[i] by {
        assert(decreases_to!(patterns => patterns[i]));
        lemma_pattern_twice(patterns[i], first, second);
        assert(relabeled_patterns(patterns, first)[i] == relabeled_pattern(patterns[i], first));
    }
    assert(left =~= right);
}

proof fn lemma_relabeled_twice(
    term: Term,
    first: spec_fn(u32) -> u32,
    first_free: spec_fn(u32) -> u32,
    second: spec_fn(u32) -> u32,
    second_free: spec_fn(u32) -> u32,
)
    ensures
        relabeled(relabeled(term, first, first_free), second, second_free) == relabeled(
            term,
            |name: u32| second(first(name)),
            |name: u32| second_free(first_free(name)),
        ),
    decreases term,
{
    let both = |name: u32| second(first(name));
    let both_free = |name: u32| second_free(first_free(name));
    let once = relabeled(term, first, first_free);
    let left = each_relabeled(once.parts, second, second_free);
    let right = each_relabeled(term.parts, both, both_free);
    assert forall|i: int| 0 <= i < term.parts.len() implies #[trigger] left[i] == right[i] by {
        lemma_part_smaller(term, i);
        lemma_relabeled_twice(term.parts[i], first, first_free, second, second_free);
        assert(once.parts[i] == relabeled(term.parts[i], first, first_free));
    }
    assert(left =~= right);
    let binders = shape_binders(term.shape);
    lemma_patterns_twice(binders, first, second);
    if binders.len() > 0 {
        lemma_pattern_twice(binders[0], first, second);
    }
    if binders.len() > 1 {
        lemma_pattern_twice(binders[1], first, second);
    }
    assert(relabeled_shape(once.shape, second, second_free) == relabeled_shape(
        term.shape,
        both,
        both_free,
    ));
}

/// Relabeling by a function that changes nothing changes nothing.
proof fn lemma_pattern_same(pattern: PatternTerm, same: spec_fn(u32) -> u32)
    requires
        forall|name: u32| #[trigger] same(name) == name,
    ensures
        relabeled_pattern(pattern, same) == pattern,
    decreases pattern,
{
    assert(decreases_to!(pattern => pattern.parts));
    lemma_patterns_same(pattern.parts, same);
}

proof fn lemma_patterns_same(patterns: Seq<PatternTerm>, same: spec_fn(u32) -> u32)
    requires
        forall|name: u32| #[trigger] same(name) == name,
    ensures
        relabeled_patterns(patterns, same) == patterns,
    decreases patterns,
{
    let left = relabeled_patterns(patterns, same);
    assert forall|i: int| 0 <= i < patterns.len() implies #[trigger] left[i] == patterns[i] by {
        assert(decreases_to!(patterns => patterns[i]));
        lemma_pattern_same(patterns[i], same);
    }
    assert(left =~= patterns);
}

proof fn lemma_relabeled_same(term: Term, same: spec_fn(u32) -> u32)
    requires
        forall|name: u32| #[trigger] same(name) == name,
    ensures
        relabeled(term, same, same) == term,
    decreases term,
{
    let left = each_relabeled(term.parts, same, same);
    assert forall|i: int| 0 <= i < term.parts.len() implies #[trigger] left[i]
        == term.parts[i] by {
        lemma_part_smaller(term, i);
        lemma_relabeled_same(term.parts[i], same);
    }
    assert(left =~= term.parts);
    let binders = shape_binders(term.shape);
    lemma_patterns_same(binders, same);
    if binders.len() > 0 {
        lemma_pattern_same(binders[0], same);
    }
    if binders.len() > 1 {
        lemma_pattern_same(binders[1], same);
    }
}

proof fn lemma_joined_contains(lists: Seq<Seq<u32>>, i: int, name: u32)
    requires
        0 <= i < lists.len(),
        lists[i].contains(name),
    ensures
        joined(lists).contains(name),
    decreases lists.len(),
{
    let before = joined(lists.drop_last());
    if i == lists.len() - 1 {
        let k = choose|k: int| 0 <= k < lists[i].len() && lists[i][k] == name;
        assert(joined(lists)[before.len() + k] == name);
    } else {
        lemma_joined_contains(lists.drop_last(), i, name);
        let k = choose|k: int| 0 <= k < before.len() && before[k] == name;
        assert(joined(lists)[k] == name);
    }
}

proof fn lemma_sum_contains(first: Seq<u32>, second: Seq<u32>, name: u32)
    ensures
        first.contains(name) ==> (first + second).contains(name),
        second.contains(name) ==> (first + second).contains(name),
{
    if first.contains(name) {
        let k = choose|k: int| 0 <= k < first.len() && first[k] == name;
        assert((first + second)[k] == name);
    }
    if second.contains(name) {
        let k = choose|k: int| 0 <= k < second.len() && second[k] == name;
        assert((first + second)[first.len() + k] == name);
    }
}

proof fn lemma_arm_names_contain(
    patterns: Seq<PatternTerm>,
    bodies: Seq<Seq<u32>>,
    i: int,
    name: u32,
)
    requires
        patterns.len() == bodies.len(),
        0 <= i < bodies.len(),
        pattern_names(patterns[i]).contains(name) || bodies[i].contains(name),
    ensures
        arm_names(patterns, bodies).contains(name),
    decreases bodies.len(),
{
    let before = arm_names(patterns.drop_last(), bodies.drop_last());
    let last = pattern_names(patterns.last());
    if i < bodies.len() - 1 {
        lemma_arm_names_contain(patterns.drop_last(), bodies.drop_last(), i, name);
    }
    lemma_sum_contains(before, last, name);
    lemma_sum_contains(before + last, bodies.last(), name);
}

proof fn lemma_pattern_known_in(pattern: PatternTerm, names: Seq<u32>)
    requires
        forall|name: u32|
            pattern_names(pattern).contains(name) ==> #[trigger] names.contains(name),
    ensures
        pattern_known(pattern, names),
    decreases pattern,
{
    let own = match pattern.kind {
        PatternKind::Binding(index) => seq![index],
        _ => Seq::empty(),
    };
    let each = each_pattern_names(pattern.parts);
    if let PatternKind::Binding(index) = pattern.kind {
        assert(own[0] == index);
        assert(own.contains(index));
        lemma_sum_contains(own, joined(each), index);
    }
    assert forall|i: int| 0 <= i < pattern.parts.len() implies pattern_known(
        #[trigger] pattern.parts[i],
        names,
    ) by {
        assert(decreases_to!(pattern => pattern.parts));
        assert(decreases_to!(pattern.parts => pattern.parts[i]));
        assert forall|name: u32|
            pattern_names(pattern.parts[i]).contains(name) implies #[trigger] names.contains(
            name,
        ) by {
            assert(each[i] == pattern_names(pattern.parts[i]));
            lemma_joined_contains(each, i, name);
            lemma_sum_contains(own, joined(each), name);
        }
        lemma_pattern_known_in(pattern.parts[i], names);
    }
}

/// Every name and hole of a term is among those it mentions.
proof fn lemma_term_known_in(term: Term, locals: Seq<u32>, frees: Seq<u32>)
    requires
        is_shaped(term),
        forall|name: u32| written_names(term).contains(name) ==> #[trigger] locals.contains(name),
        forall|name: u32| free_names(term).contains(name) ==> #[trigger] frees.contains(name),
    ensures
        term_known(term, locals, frees),
    decreases term,
{
    let each = each_written_names(term.parts);
    let each_free = each_free_names(term.parts);
    let binders = shape_binders(term.shape);
    let cut = binders_after(term.shape, each.len()) as int;
    let own_free = match term.shape {
        Shape::Free(index) => seq![index],
        _ => Seq::empty(),
    };
    if let Shape::Local(index) = term.shape {
        assert(seq![index][0] == index);
        assert(seq![index].contains(index));
        lemma_sum_contains(seq![index], joined(each), index);
    }
    if let Shape::Free(index) = term.shape {
        assert(own_free[0] == index);
        assert(own_free.contains(index));
        lemma_sum_contains(own_free, joined(each_free), index);
    }
    assert forall|i: int| 0 <= i < binders.len() implies pattern_known(
        #[trigger] binders[i],
        locals,
    ) by {
        assert forall|name: u32| pattern_names(binders[i]).contains(name) implies #[trigger]
            locals.contains(name) by {
            if let Shape::Select(patterns) = term.shape {
                lemma_arm_names_contain(patterns, each.drop_first(), i, name);
                lemma_sum_contains(each[0], arm_names(patterns, each.drop_first()), name);
            } else {
                assert(each_pattern_names(binders)[i] == pattern_names(binders[i]));
                lemma_joined_contains(each_pattern_names(binders), i, name);
                let first = joined(each.take(cut));
                let middle = joined(each_pattern_names(binders));
                lemma_sum_contains(first, middle, name);
                lemma_sum_contains(first + middle, joined(each.skip(cut)), name);
            }
        }
        lemma_pattern_known_in(binders[i], locals);
    }
    assert forall|i: int| 0 <= i < term.parts.len() implies term_known(
        #[trigger] term.parts[i],
        locals,
        frees,
    ) by {
        lemma_part_smaller(term, i);
        assert forall|name: u32| written_names(term.parts[i]).contains(name) implies #[trigger]
            locals.contains(name) by {
            assert(each[i] == written_names(term.parts[i]));
            match term.shape {
                Shape::Local(index) => {
                    lemma_joined_contains(each, i, name);
                    lemma_sum_contains(seq![index], joined(each), name);
                },
                Shape::Select(patterns) => {
                    if i > 0 {
                        assert(each.drop_first()[i - 1] == each[i]);
                        lemma_arm_names_contain(patterns, each.drop_first(), i - 1, name);
                    }
                    lemma_sum_contains(each[0], arm_names(patterns, each.drop_first()), name);
                },
                _ => {
                    let first = joined(each.take(cut));
                    let middle = joined(each_pattern_names(binders));
                    if i < cut {
                        assert(each.take(cut)[i] == each[i]);
                        lemma_joined_contains(each.take(cut), i, name);
                    } else {
                        assert(each.skip(cut)[i - cut] == each[i]);
                        lemma_joined_contains(each.skip(cut), i - cut, name);
                    }
                    lemma_sum_contains(first, middle, name);
                    lemma_sum_contains(first + middle, joined(each.skip(cut)), name);
                },
            }
        }
        assert forall|name: u32| free_names(term.parts[i]).contains(name) implies #[trigger]
            frees.contains(name) by {
            assert(each_free[i] == free_names(term.parts[i]));
            lemma_joined_contains(each_free, i, name);
            lemma_sum_contains(own_free, joined(each_free), name);
        }
        lemma_term_known_in(term.parts[i], locals, frees);
    }
}

/// The names of a term in the order they first appear.
pub open spec fn distinct_names(term: Term) -> Seq<u32> {
    extended(Seq::empty(), written_names(term))
}

/// The holes of a term in the order they first appear.
pub open spec fn distinct_holes(term: Term) -> Seq<u32> {
    extended(Seq::empty(), free_names(term))
}

pub(crate) proof fn lemma_own_names_known(term: Term)
    requires
        is_shaped(term),
    ensures
        term_known(term, distinct_names(term), distinct_holes(term)),
        distinct_names(term).no_duplicates(),
        distinct_holes(term).no_duplicates(),
        forall|name: u32| #[trigger]
            distinct_names(term).contains(name) <==> written_names(term).contains(name),
        forall|name: u32| #[trigger]
            distinct_holes(term).contains(name) <==> free_names(term).contains(name),
{
    lemma_extended(Seq::<u32>::empty(), written_names(term));
    lemma_extended(Seq::<u32>::empty(), free_names(term));
    lemma_term_known_in(term, distinct_names(term), distinct_holes(term));
}

/// Consistently renaming a term does not change its canonical form.
proof fn lemma_canonical_relabeled(
    term: Term,
    locals: spec_fn(u32) -> u32,
    frees: spec_fn(u32) -> u32,
)
    requires
        is_shaped(term),
        tells_apart(locals, written_names(term)),
        tells_apart(frees, free_names(term)),
    ensures
        canonical_term(relabeled(term, locals, frees)) == canonical_term(term),
{
    let names = distinct_names(term);
    let holes = distinct_holes(term);
    lemma_own_names_known(term);
    lemma_written_names_relabeled(term, locals, frees);
    lemma_free_names_relabeled(term, locals, frees);
    lemma_extended_mapped(written_names(term), locals);
    lemma_extended_mapped(free_names(term), frees);
    assert(tells_apart(locals, names));
    assert(tells_apart(frees, holes));
    lemma_numbering_mapped(names, locals);
    lemma_numbering_mapped(holes, frees);
    let names_renamed = mapped(names, locals);
    let holes_renamed = mapped(holes, frees);
    lemma_relabeled_twice(
        term,
        locals,
        frees,
        numbering(names_renamed),
        numbering(holes_renamed),
    );
    lemma_term_agree(
        term,
        names,
        holes,
        numbering(names),
        |name: u32| numbering(names_renamed)(locals(name)),
        numbering(holes),
        |name: u32| numbering(holes_renamed)(frees(name)),
    );
}

/// The value a list holds at a place.
spec fn placed_at(list: Seq<u32>) -> spec_fn(u32) -> u32 {
    |place: u32| list[place as int]
}

/// Putting each number back to the name it stands for undoes the renumbering.
proof fn lemma_undo_canonical(term: Term)
    requires
        is_shaped(term),
    ensures
        relabeled(
            canonical_term(term),
            placed_at(distinct_names(term)),
            placed_at(distinct_holes(term)),
        ) == term,
{
    let names = distinct_names(term);
    let holes = distinct_holes(term);
    let same = |name: u32| name;
    lemma_own_names_known(term);
    lemma_relabeled_twice(
        term,
        numbering(names),
        numbering(holes),
        placed_at(names),
        placed_at(holes),
    );
    let back = |name: u32| placed_at(names)(numbering(names)(name));
    let back_free = |name: u32| placed_at(holes)(numbering(holes)(name));
    assert forall|name: u32| names.contains(name) implies #[trigger] back(name) == same(name) by {
        let i = choose|i: int| 0 <= i < names.len() && names[i] == name;
        lemma_number_of(names, i);
    }
    assert forall|name: u32| holes.contains(name) implies #[trigger] back_free(name) == same(
        name,
    ) by {
        let i = choose|i: int| 0 <= i < holes.len() && holes[i] == name;
        lemma_number_of(holes, i);
    }
    lemma_term_agree(term, names, holes, back, same, back_free, same);
    lemma_relabeled_same(term, same);
}

/// Renumbering what is already renumbered in order changes nothing, so two
/// terms with one canonical form have equally many names.
proof fn lemma_canonical_names(term: Term)
    requires
        is_shaped(term),
    ensures
        distinct_names(canonical_term(term)).len() == distinct_names(term).len(),
        distinct_holes(canonical_term(term)).len() == distinct_holes(term).len(),
{
    let names = distinct_names(term);
    let holes = distinct_holes(term);
    lemma_own_names_known(term);
    lemma_numbering_tells_apart(names);
    lemma_numbering_tells_apart(holes);
    assert(tells_apart(numbering(names), written_names(term)));
    assert(tells_apart(numbering(holes), free_names(term)));
    lemma_written_names_relabeled(term, numbering(names), numbering(holes));
    lemma_free_names_relabeled(term, numbering(names), numbering(holes));
    lemma_extended_mapped(written_names(term), numbering(names));
    lemma_extended_mapped(free_names(term), numbering(holes));
}

/// Two forms have one canonical form exactly when the one is the other with
/// its names and holes consistently renamed.
pub proof fn law_canonical_decides_renaming(left: Form, right: Form)
    ensures
        canonical_term(left@) == canonical_term(right@) <==> is_renaming_of(right@, left@),
{
    let a = left@;
    let b = right@;
    lemma_form_shaped(left);
    lemma_form_shaped(right);
    if is_renaming_of(b, a) {
        let (locals, frees) = choose|locals: spec_fn(u32) -> u32, frees: spec_fn(u32) -> u32|
            tells_apart(locals, written_names(a)) && tells_apart(frees, free_names(a)) && b
                == #[trigger] relabeled(a, locals, frees);
        lemma_canonical_relabeled(a, locals, frees);
    }
    if canonical_term(a) == canonical_term(b) {
        let names = distinct_names(a);
        let holes = distinct_holes(a);
        let names_b = distinct_names(b);
        let holes_b = distinct_holes(b);
        lemma_own_names_known(a);
        lemma_own_names_known(b);
        lemma_canonical_names(a);
        lemma_canonical_names(b);
        lemma_undo_canonical(b);
        lemma_relabeled_twice(
            a,
            numbering(names),
            numbering(holes),
            placed_at(names_b),
            placed_at(holes_b),
        );
        let locals = |name: u32| placed_at(names_b)(numbering(names)(name));
        let frees = |name: u32| placed_at(holes_b)(numbering(holes)(name));
        assert forall|x: u32, y: u32|
            written_names(a).contains(x) && written_names(a).contains(y) && #[trigger] locals(x)
                == #[trigger] locals(y) implies x == y by {
            assert(names.contains(x) && names.contains(y));
            let i = choose|i: int| 0 <= i < names.len() && names[i] == x;
            let j = choose|j: int| 0 <= j < names.len() && names[j] == y;
            lemma_number_of(names, i);
            lemma_number_of(names, j);
            assert(names_b[i] == names_b[j]);
        }
        assert forall|x: u32, y: u32|
            free_names(a).contains(x) && free_names(a).contains(y) && #[trigger] frees(x)
                == #[trigger] frees(y) implies x == y by {
            assert(holes.contains(x) && holes.contains(y));
            let i = choose|i: int| 0 <= i < holes.len() && holes[i] == x;
            let j = choose|j: int| 0 <= j < holes.len() && holes[j] == y;
            lemma_number_of(holes, i);
            lemma_number_of(holes, j);
            assert(holes_b[i] == holes_b[j]);
        }
        assert(b == relabeled(a, locals, frees));
    }
}

/// Renumbering a form that is renumbered already changes nothing.
pub proof fn law_canonical_is_idempotent(form: Form)
    ensures
        canonical_term(canonical_term(form@)) == canonical_term(form@),
{
    let term = form@;
    lemma_form_shaped(form);
    lemma_own_names_known(term);
    lemma_numbering_tells_apart(distinct_names(term));
    lemma_numbering_tells_apart(distinct_holes(term));
    assert(tells_apart(numbering(distinct_names(term)), written_names(term)));
    assert(tells_apart(numbering(distinct_holes(term)), free_names(term)));
    lemma_canonical_relabeled(
        term,
        numbering(distinct_names(term)),
        numbering(distinct_holes(term)),
    );
}

} // verus!
