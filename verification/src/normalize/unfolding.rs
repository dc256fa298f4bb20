//! What an unfolded call means, and which bindings an unfolded block keeps.

use crate::normalize::form::{PatternTerm, Shape, Term};
use crate::normalize::meaning::{
    holding, is_free_of, law_substituting_is_holding, lemma_free_of, made, meaning, named,
    sole_name, Names, World,
};
use crate::normalize::measure::mentions_local;
use crate::normalize::simplify::{
    called, filled, is_known, is_used, lookup, surviving, survives,
};
use vstd::prelude::*;

verus! {

/// Names, of which the first so many parameters hold values.
pub open spec fn holding_each(
    names: Names,
    parameters: Seq<PatternTerm>,
    values: Seq<int>,
    count: nat,
) -> Names
    decreases count,
{
    if count == 0 {
        names
    } else {
        holding(
            holding_each(names, parameters, values, (count - 1) as nat),
            sole_name(parameters[count - 1]),
            values[count - 1],
        )
    }
}

/// Whether the first so many parameters are names, and each another.
pub open spec fn are_names_apart(parameters: Seq<PatternTerm>, count: nat) -> bool {
    &&& forall|i: int| 0 <= i < count ==> (#[trigger] parameters[i]).kind is Binding
    &&& forall|i: int, j: int|
        0 <= i < j < count ==> sole_name(#[trigger] parameters[i]) != sole_name(
            #[trigger] parameters[j],
        )
}

/// Whether none of the first so many arguments names a parameter.
pub open spec fn are_free_of_each(
    arguments: Seq<Term>,
    parameters: Seq<PatternTerm>,
    count: nat,
) -> bool {
    forall|i: int, j: int|
        #![trigger arguments[i], parameters[j]]
        0 <= i < count && 0 <= j < count ==> is_free_of(arguments[i], sole_name(parameters[j]))
}

proof fn lemma_held_first(
    names: Names,
    parameters: Seq<PatternTerm>,
    values: Seq<int>,
    count: nat,
    index: u32,
    value: int,
)
    requires
        forall|i: int| 0 <= i < count ==> sole_name(#[trigger] parameters[i]) != index,
    ensures
        holding_each(holding(names, index, value), parameters, values, count) == holding(
            holding_each(names, parameters, values, count),
            index,
            value,
        ),
    decreases count,
{
    if count > 0 {
        lemma_held_first(names, parameters, values, (count - 1) as nat, index, value);
        let inner = holding_each(names, parameters, values, (count - 1) as nat);
        let name = sole_name(parameters[count - 1]);
        assert(holding(holding(inner, index, value), name, values[count - 1]) =~= holding(
            holding(inner, name, values[count - 1]),
            index,
            value,
        ));
    }
}

proof fn lemma_filled(
    body: Term,
    parameters: Seq<PatternTerm>,
    arguments: Seq<Term>,
    values: Seq<int>,
    count: nat,
    names: Names,
    world: World,
)
    requires
        count <= parameters.len(),
        count <= arguments.len(),
        values.len() == arguments.len(),
        are_names_apart(parameters, count),
        are_free_of_each(arguments, parameters, count),
        forall|i: int|
            0 <= i < count ==> meaning(#[trigger] arguments[i], names, world) == values[i],
    ensures
        meaning(filled(body, parameters, arguments, count), names, world) == meaning(
            body,
            holding_each(names, parameters, values, count),
            world,
        ),
    decreases count,
{
    if count > 0 {
        let last = count - 1;
        let name = sole_name(parameters[last]);
        let argument = arguments[last];
        let before = filled(body, parameters, arguments, last as nat);
        let held = holding(names, name, values[last]);
        assert(parameters[last].kind is Binding);
        law_substituting_is_holding(before, name, argument, names, world);
        assert forall|i: int| 0 <= i < last implies meaning(#[trigger] arguments[i], held, world)
            == values[i] by {
            assert(is_free_of(arguments[i], sole_name(parameters[last])));
            lemma_free_of(arguments[i], name, values[last], names, world);
        }
        lemma_filled(body, parameters, arguments, values, last as nat, held, world);
        assert forall|i: int| 0 <= i < last implies sole_name(#[trigger] parameters[i]) != name by {
            assert(parameters[last] == parameters[last]);
        }
        lemma_held_first(names, parameters, values, last as nat, name, values[last]);
    }
}

/// A call of a name that is bound to a lambda calls it, and its body with the
/// arguments filled in means what the body means where each parameter holds what its
/// argument means.
pub proof fn law_an_unfolded_call_means_its_body(
    function: u32,
    parameters: Seq<PatternTerm>,
    body: Term,
    arguments: Seq<Term>,
    values: Seq<int>,
    bindings: Seq<(u32, Term)>,
    names: Names,
    world: World,
)
    requires
        parameters.len() == arguments.len(),
        values.len() == arguments.len(),
        are_names_apart(parameters, parameters.len()),
        are_free_of_each(arguments, parameters, parameters.len()),
        forall|i: int|
            0 <= i < arguments.len() ==> meaning(#[trigger] arguments[i], names, world)
                == values[i],
    ensures
        called(
            made(Shape::Call, seq![named(function)] + arguments),
            seq![(function, made(Shape::Lambda(parameters), seq![body]))] + bindings,
        ) == Some((parameters, body)),
        meaning(filled(body, parameters, arguments, parameters.len()), names, world) == meaning(
            body,
            holding_each(names, parameters, values, parameters.len()),
            world,
        ),
{
    lemma_filled(body, parameters, arguments, values, parameters.len(), names, world);
    let term = made(Shape::Call, seq![named(function)] + arguments);
    let lambda = made(Shape::Lambda(parameters), seq![body]);
    let all = seq![(function, lambda)] + bindings;
    assert(term.parts[0] == named(function));
    assert(all[0] == (function, lambda));
    assert(lookup(all, function) == Some(lambda));
    assert(lambda.parts[0] == body);
}

/// What a parameter holds is what its own argument means, whatever the others hold.
pub proof fn law_each_parameter_holds_its_argument(
    names: Names,
    parameters: Seq<PatternTerm>,
    values: Seq<int>,
    count: nat,
    i: int,
    other: u32,
)
    requires
        0 <= i < count <= parameters.len(),
        values.len() == parameters.len(),
        are_names_apart(parameters, count),
    ensures
        holding_each(names, parameters, values, count)(sole_name(parameters[i])) == values[i],
        (forall|j: int| 0 <= j < count ==> sole_name(#[trigger] parameters[j]) != other)
            ==> holding_each(names, parameters, values, count)(other) == names(other),
    decreases count,
{
    let last = count - 1;
    if i < last {
        law_each_parameter_holds_its_argument(names, parameters, values, last as nat, i, other);
        assert(sole_name(parameters[i]) != sole_name(parameters[last]));
    } else if last > 0 {
        law_each_parameter_holds_its_argument(names, parameters, values, last as nat, 0, other);
    }
}

/// Unfolding drops no step but a binding that was unfolded and that nothing else
/// names any more.
pub proof fn law_only_unused_bindings_are_dropped(
    steps: Seq<Term>,
    safe: Seq<(u32, Term)>,
    i: int,
    j: int,
)
    requires
        0 <= i < steps.len(),
    ensures
        !(steps[i].shape is Let) ==> surviving(steps, safe).contains(steps[i]),
        steps[i].shape is Let && steps[i].shape->Let_0.kind is Binding && 0 <= j < steps.len()
            && !(steps[j].shape is Let) && mentions_local(
            steps[j],
            sole_name(steps[i].shape->Let_0),
        ) ==> surviving(steps, safe).contains(steps[i]),
        steps[i].shape is Let && steps[i].shape->Let_0.kind is Binding && (forall|k: int|
            0 <= k < safe.len() ==> (#[trigger] safe[k]).0 != sole_name(steps[i].shape->Let_0))
            ==> surviving(steps, safe).contains(steps[i]),
        steps[i].shape is Let && steps[i].shape->Let_0.kind is Binding && 0 <= j < safe.len()
            && safe[j].0 == sole_name(steps[i].shape->Let_0) && (forall|k: int|
            0 <= k < steps.len() ==> !mentions_otherwise(
                #[trigger] steps[k],
                sole_name(steps[i].shape->Let_0),
            )) ==> !surviving(steps, safe).contains(steps[i]),
{
    let keeps = |step: Term| survives(step, safe, steps);
    let kept = surviving(steps, safe);
    assert(kept == steps.filter(keeps));
    if survives(steps[i], safe, steps) {
        assert(keeps(steps[i]));
        steps.lemma_filter_contains(keeps, i);
    } else {
        assert(!keeps(steps[i]));
        if kept.contains(steps[i]) {
            let k = choose|k: int| 0 <= k < kept.len() && kept[k] == steps[i];
            steps.lemma_filter_pred(keeps, k);
        }
    }
    if steps[i].shape is Let && steps[i].shape->Let_0.kind is Binding {
        let index = sole_name(steps[i].shape->Let_0);
        if 0 <= j < steps.len() && !(steps[j].shape is Let) && mentions_local(steps[j], index) {
            assert(is_used(steps, index));
        }
        if forall|k: int| 0 <= k < steps.len() ==> !mentions_otherwise(#[trigger] steps[k], index) {
            assert(!is_used(steps, index));
        }
        if 0 <= j < safe.len() && safe[j].0 == index {
            assert(is_known(safe, index));
        }
    }
}

/// Whether a step names something without being the binding of it.
pub open spec fn mentions_otherwise(step: Term, index: u32) -> bool {
    mentions_local(step, index) && !(step.shape is Let && step.shape->Let_0.kind is Binding
        && sole_name(step.shape->Let_0) == index)
}

} // verus!
