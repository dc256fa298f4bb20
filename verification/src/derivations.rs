//! Which behaviors a library's names lead to.

use crate::behaviors::{
    answers, belongs, built_into, construction, container_of, delegated_to, delegation, derived, eligible, first_construction,
    is_principal, is_sole_answer, law_the_leaf_is_what_follows_the_separator, looked_in, outranks, resolved, separates_last,
    sole_answer, standing, walked, CallableView, LibraryView, Refusal, Walk,
};
use crate::normalize::form::{lemma_part_smaller, Shape, Term, MAXIMUM_FORM_DEPTH};
use crate::normalize::instance::is_within;
use crate::normalize::meaning::made;
use crate::normalize::measure::{
    is_work, names_two, term_comparable, term_decides, term_depth, term_size,
    term_works,
};
use vstd::prelude::*;

verus! {

/// The container of a path is the name before the last, where that names a type: it
/// begins with an upper-case letter.
pub proof fn law_a_container_is_a_type(outer: Seq<char>, middle: Seq<char>, name: Seq<char>)
    requires
        !name.contains(':'),
        !middle.contains(':'),
        middle.len() > 0,
    ensures
        container_of(outer + seq![':', ':'] + middle + seq![':', ':'] + name) == if 'A'
            <= middle[0] <= 'Z' {
            Some(middle)
        } else {
            None
        },
        container_of(middle + seq![':', ':'] + name) == if 'A' <= middle[0] <= 'Z' {
            Some(middle)
        } else {
            None
        },
        container_of(name) is None,
{
    lemma_last_separator(outer + seq![':', ':'] + middle, name);
    lemma_last_separator(middle, name);
    law_the_leaf_is_what_follows_the_separator(outer, middle);
    assert forall|i: int| !separates_last(name, i) by {
        if separates_last(name, i) {
            assert(name[i] == ':');
            assert(name.contains(':'));
        }
    }
}

proof fn lemma_last_separator(prefix: Seq<char>, name: Seq<char>)
    requires
        !name.contains(':'),
    ensures
        ({
            let path = prefix + seq![':', ':'] + name;
            &&& exists|i: int| separates_last(path, i)
            &&& path.take(choose|i: int| separates_last(path, i)) == prefix
        }),
{
    let path = prefix + seq![':', ':'] + name;
    let at = prefix.len() as int;
    assert(path[at] == ':' && path[at + 1] == ':');
    assert forall|j: int| at < j < path.len() - 1 implies !(#[trigger] path[j] == ':' && path[j + 1]
        == ':') by {
        assert(path[j + 1] == name[j + 1 - at - 2]);
        if path[j + 1] == ':' {
            assert(name.contains(':'));
        }
    }
    assert(separates_last(path, at));
    let i = choose|i: int| separates_last(path, i);
    if i < at {
        assert(path[at] == ':' && path[at + 1] == ':');
    }
    if i > at {
        assert(path[i] == ':' && path[i + 1] == ':');
    }
    assert(path.take(at) =~= prefix);
}

/// A call hands on to what it names, through any number of returns and blocks of one
/// step. A decision, a walk and a name alone hand on to nothing.
pub proof fn law_wrappers_are_seen_through(
    name: Seq<char>,
    path: Seq<char>,
    arguments: Seq<Term>,
    inner: Term,
    index: u32,
)
    requires
        !name.contains(':'),
    ensures
        delegation(made(Shape::Method(name), arguments)) == Some(name),
        delegation(
            made(
                Shape::Call,
                seq![made(Shape::Path(path + seq![':', ':'] + name), Seq::empty())] + arguments,
            ),
        ) == Some(name),
        delegation(
            made(Shape::Call, seq![made(Shape::Path(name), Seq::empty())] + arguments),
        ) == Some(name),
        delegation(made(Shape::Return, seq![inner])) == delegation(inner),
        delegation(made(Shape::Sequence, seq![inner])) == delegation(inner),
        delegation(made(Shape::Branch, arguments)) is None,
        delegation(made(Shape::Local(index), arguments)) is None,
        arguments.len() >= 2 ==> delegation(made(Shape::Sequence, arguments)) is None,
{
    law_the_leaf_is_what_follows_the_separator(path, name);
    let far = made(Shape::Path(path + seq![':', ':'] + name), Seq::empty());
    let near = made(Shape::Path(name), Seq::empty());
    assert((seq![far] + arguments)[0] == far);
    assert((seq![near] + arguments)[0] == near);
    assert(seq![inner][0] == inner);
    reveal_with_fuel(delegation, 2);
}

/// What is constructed is found through any block of one step, and the first of
/// several constructions counts.
pub proof fn law_the_first_construction_is_found(
    name: Seq<char>,
    parts: Seq<Term>,
    inner: Term,
    first: Term,
    second: Term,
    method: Seq<char>,
)
    ensures
        construction(made(Shape::Construct(name), parts)) == Some(name),
        construction(made(Shape::Sequence, seq![inner])) == construction(inner),
        construction(made(Shape::Method(method), seq![first, second])) == if construction(
            first,
        ) is Some {
            construction(first)
        } else {
            construction(second)
        },
        construction(made(Shape::Literal, Seq::empty())) is None,
{
    assert(seq![inner][0] == inner);
    let both = seq![first, second];
    assert(both.drop_last() =~= seq![first]);
    assert(seq![first].drop_last() =~= Seq::<Term>::empty());
    assert(first_construction(Seq::<Term>::empty()) is None);
    assert(first_construction(seq![first]) == construction(first));
    assert(first_construction(both) == if construction(first) is Some {
        construction(first)
    } else {
        construction(second)
    });
}

/// Whether a callable has a name, and is not the one left out.
pub open spec fn has_name(
    callables: Seq<CallableView>,
    i: int,
    name: Seq<char>,
    exclude: Option<int>,
) -> bool {
    0 <= i < callables.len() && callables[i].name == name && exclude != Some(i)
}

/// A name leads to the one callable of that name in the container. Where the
/// container has none, or several, it leads to the one callable of that name at all,
/// and to nothing where there is none or several.
pub proof fn law_names_lead_to_the_one_callable(
    callables: Seq<CallableView>,
    name: Seq<char>,
    container: Option<Seq<char>>,
    exclude: Option<int>,
    i: int,
)
    ensures
        container is Some && has_name(callables, i, name, exclude) && callables[i].container
            == container && (forall|j: int| #[trigger]
            has_name(callables, j, name, exclude) && callables[j].container == container ==> j
                == i) ==> resolved(callables, name, container, exclude) == Some(i),
        has_name(callables, i, name, exclude) && (forall|j: int| #[trigger]
            has_name(callables, j, name, exclude) ==> j == i) ==> resolved(
            callables,
            name,
            container,
            exclude,
        ) == Some(i),
        (forall|j: int| !#[trigger] has_name(callables, j, name, exclude)) ==> resolved(
            callables,
            name,
            container,
            exclude,
        ) is None,
        resolved(callables, name, container, exclude) matches Some(k) ==> has_name(
            callables,
            k,
            name,
            exclude,
        ),
{
    assert forall|j: int, within: Option<Seq<char>>| #[trigger]
        answers(callables, j, name, within, exclude) implies has_name(
        callables,
        j,
        name,
        exclude,
    ) by {}
    if has_name(callables, i, name, exclude) {
        if container is Some && callables[i].container == container && (forall|j: int| #[trigger]
            has_name(callables, j, name, exclude) && callables[j].container == container ==> j
                == i) {
            assert(is_sole_answer(callables, i, name, container, exclude)) by {
                assert forall|j: int| #[trigger]
                    answers(callables, j, name, container, exclude) implies j == i by {
                    assert(has_name(callables, j, name, exclude));
                }
            }
            lemma_the_one(callables, i, name, container, exclude);
        }
        if forall|j: int| #[trigger] has_name(callables, j, name, exclude) ==> j == i {
            assert(is_sole_answer(callables, i, name, None, exclude)) by {
                assert forall|j: int| #[trigger]
                    answers(callables, j, name, None, exclude) implies j == i by {
                    assert(has_name(callables, j, name, exclude));
                }
            }
            lemma_the_one(callables, i, name, None, exclude);
            if sole_answer(callables, name, container, exclude) is Some {
                let k = choose|k: int| is_sole_answer(callables, k, name, container, exclude);
                assert(answers(callables, k, name, container, exclude));
                assert(has_name(callables, k, name, exclude));
            }
        }
    }
    assert forall|within: Option<Seq<char>>| #[trigger]
        sole_answer(callables, name, within, exclude) is Some implies has_name(
        callables,
        sole_answer(callables, name, within, exclude)->0,
        name,
        exclude,
    ) by {
        let k = choose|k: int| is_sole_answer(callables, k, name, within, exclude);
        assert(is_sole_answer(callables, k, name, within, exclude));
        assert(answers(callables, k, name, within, exclude));
    }
}

proof fn lemma_the_one(
    callables: Seq<CallableView>,
    i: int,
    name: Seq<char>,
    container: Option<Seq<char>>,
    exclude: Option<int>,
)
    requires
        is_sole_answer(callables, i, name, container, exclude),
    ensures
        sole_answer(callables, name, container, exclude) == Some(i),
{
    let k = choose|k: int| is_sole_answer(callables, k, name, container, exclude);
    assert(is_sole_answer(callables, k, name, container, exclude));
    assert(answers(callables, k, name, container, exclude));
}

/// A method stands among those required exactly where it is listed, and the earlier
/// it is listed the higher.
pub proof fn law_earlier_methods_stand_higher(
    methods: Seq<Seq<char>>,
    name: Seq<char>,
    other: Seq<char>,
)
    ensures
        standing(methods, name) > 0 <==> methods.contains(name),
        standing(seq![name] + methods, name) > standing(seq![name] + methods, other) || other
            == name,
        standing(methods, name) <= methods.len(),
    decreases methods.len(),
{
    let more = seq![name] + methods;
    assert(more.drop_first() =~= methods);
    assert(more[0] == name);
    assert(other != name ==> standing(more, other) == standing(methods, other));
    if methods.len() > 0 {
        law_earlier_methods_stand_higher(methods.drop_first(), name, other);
        law_earlier_methods_stand_higher(methods.drop_first(), other, name);
        if methods[0] == name {
            assert(methods.contains(name));
        } else {
            if methods.drop_first().contains(name) {
                let k = choose|k: int|
                    0 <= k < methods.drop_first().len() && methods.drop_first()[k] == name;
                assert(methods[k + 1] == name);
            }
            if methods.contains(name) {
                let k = choose|k: int| 0 <= k < methods.len() && methods[k] == name;
                assert(methods.drop_first()[k - 1] == name);
            }
        }
    }
    assert(standing(methods, other) <= methods.len());
}

/// A form describes work exactly where something in it does.
pub proof fn law_work_is_found_anywhere(term: Term, part: Term)
    ensures
        is_within(part, term) && is_work(part.shape) ==> term_works(term),
        term_works(term) ==> exists|found: Term| #[trigger]
            is_within(found, term) && is_work(found.shape),
    decreases term,
{
    if is_within(part, term) && is_work(part.shape) && part != term {
        let i = choose|i: int|
            0 <= i < term.parts.len() && is_within(part, #[trigger] term.parts[i]);
        lemma_part_smaller(term, i);
        law_work_is_found_anywhere(term.parts[i], part);
    }
    if term_works(term) {
        if is_work(term.shape) {
            assert(is_within(term, term));
        } else {
            let i = choose|i: int|
                0 <= i < term.parts.len() && term_works(#[trigger] term.parts[i]);
            lemma_part_smaller(term, i);
            law_work_is_found_anywhere(term.parts[i], part);
            let found = choose|found: Term| #[trigger]
                is_within(found, term.parts[i]) && is_work(found.shape);
            assert(is_within(found, term));
        }
    }
}

/// A form decides exactly where something in it chooses between two alternatives that
/// it names differently, and it can be compared where it works or decides.
pub proof fn law_decisions_are_found_anywhere(term: Term, part: Term, i: int, j: int)
    ensures
        is_within(part, term) && part.shape is Select && 0 <= i < part.shape->Select_0.len() && 0
            <= j < part.shape->Select_0.len() && part.shape->Select_0[i].kind is Variant
            && part.shape->Select_0[j].kind is Variant && part.shape->Select_0[i].kind
            != part.shape->Select_0[j].kind ==> term_decides(term) && term_comparable(term),
        term_comparable(term) && !term_works(term) ==> exists|found: Term| #[trigger]
            is_within(found, term) && found.shape is Select && names_two(found.shape->Select_0),
    decreases term,
{
    if is_within(part, term) && part.shape is Select && part != term {
        let k = choose|k: int|
            0 <= k < term.parts.len() && is_within(part, #[trigger] term.parts[k]);
        lemma_part_smaller(term, k);
        law_decisions_are_found_anywhere(term.parts[k], part, i, j);
    }
    if term_decides(term) {
        if term.shape is Select && names_two(term.shape->Select_0) {
            assert(is_within(term, term));
        } else {
            let k = choose|k: int|
                0 <= k < term.parts.len() && term_decides(#[trigger] term.parts[k]);
            lemma_part_smaller(term, k);
            if term_works(term.parts[k]) {
                assert(term_works(term));
            }
            law_decisions_are_found_anywhere(term.parts[k], part, i, j);
            if !term_works(term) {
                let found = choose|found: Term| #[trigger]
                    is_within(found, term.parts[k]) && found.shape is Select && names_two(
                        found.shape->Select_0,
                    );
                assert(is_within(found, term));
            }
        }
    }
}

/// A name that leads to a callable whose body does work has that body for its
/// behavior, where it can be compared and does not nest too deeply.
pub proof fn law_work_is_its_own_behavior(
    library: LibraryView,
    name: Seq<char>,
    container: Option<Seq<char>>,
    first: int,
    form: Term,
)
    requires
        resolved(library.callables, name, container, None) == Some(first),
        library.callables[first].form == Some(form),
        term_works(form),
        term_comparable(form),
    ensures
        term_depth(form) > MAXIMUM_FORM_DEPTH ==> derived(library, name, container) == Err::<
            (Term, Seq<int>),
            Refusal,
        >(Refusal::TooDeep(term_depth(form) as u32)),
        term_depth(form) <= MAXIMUM_FORM_DEPTH ==> derived(library, name, container) == Ok::<
            (Term, Seq<int>),
            Refusal,
        >((form, seq![first])),
{
}

/// A name that leads to a wrapper has the behavior of what it hands on to, and the
/// chain names both.
pub proof fn law_a_wrapper_has_the_behavior_it_hands_on_to(
    library: LibraryView,
    name: Seq<char>,
    container: Option<Seq<char>>,
    first: int,
    second: int,
    wrapper: Term,
    form: Term,
)
    requires
        resolved(library.callables, name, container, None) == Some(first),
        library.callables[first].form == Some(wrapper),
        !term_works(wrapper),
        delegation(wrapper) is Some,
        resolved(
            library.callables,
            delegation(wrapper)->0,
            library.callables[first].container,
            Some(first),
        ) == Some(second),
        first != second,
        library.callables[second].form == Some(form),
        term_works(form),
        term_comparable(form),
        term_depth(form) <= MAXIMUM_FORM_DEPTH,
    ensures
        derived(library, name, container) == Ok::<(Term, Seq<int>), Refusal>(
            (form, seq![first, second]),
        ),
{
    let start = Walk {
        current: first,
        chain: seq![first],
        form: wrapper,
        inside_one_step: false,
    };
    assert(!seq![first].contains(second)) by {
        assert(seq![first][0] == first);
    }
    assert(delegated_to(library, first, wrapper) == Some(second));
    reveal_with_fuel(walked, 3);
    assert(seq![first].push(second) =~= seq![first, second]);
}

/// A name that no callable has leads to nothing, and one that leads to a declaration
/// has no body.
pub proof fn law_what_leads_nowhere_is_refused(
    library: LibraryView,
    name: Seq<char>,
    container: Option<Seq<char>>,
    first: int,
)
    ensures
        (forall|j: int| !#[trigger] has_name(library.callables, j, name, None)) ==> derived(
            library,
            name,
            container,
        ) == Err::<(Term, Seq<int>), Refusal>(Refusal::NoImplementation),
        resolved(library.callables, name, container, None) == Some(first)
            && library.callables[first].form is None ==> derived(library, name, container) == Err::<
            (Term, Seq<int>),
            Refusal,
        >(Refusal::NoBody),
{
    law_names_lead_to_the_one_callable(library.callables, name, container, None, first);
}

/// Of two callables that could carry a type's behavior, the one whose method is
/// required earlier outranks the other; of one method, the one that does work; and of
/// those, the larger.
pub proof fn law_required_methods_then_work_then_size_decide(
    library: LibraryView,
    i: int,
    j: int,
    left: Term,
    right: Term,
)
    requires
        library.callables[i].form == Some(left),
        library.callables[j].form == Some(right),
    ensures
        ({
            let high = standing(library.contract_methods, library.callables[i].name);
            let low = standing(library.contract_methods, library.callables[j].name);
            &&& high > low ==> outranks(library, i, j) && !outranks(library, j, i)
            &&& high == low && term_works(left) && !term_works(right) ==> outranks(library, i, j)
                && !outranks(library, j, i)
            &&& high == low && term_works(left) == term_works(right) && term_size(left) > term_size(
                right,
            ) ==> outranks(library, i, j) && !outranks(library, j, i)
            &&& high == low && term_works(left) == term_works(right) && term_size(left)
                == term_size(right) ==> !outranks(library, i, j) && !outranks(library, j, i)
        }),
{
}

/// What constructs a type leads into the method that carries the type's behavior, as
/// no method written in the type outranks it. `Self` is the type it stands in.
pub proof fn law_a_construction_leads_into_its_type(
    library: LibraryView,
    current: int,
    form: Term,
    built: Seq<char>,
    other: int,
)
    requires
        construction(form) == Some(built),
        built_into(library, current, form) is Some,
    ensures
        ({
            let into = built_into(library, current, form)->0;
            let named_type = if built == "Self"@ {
                library.callables[current].container
            } else {
                Some(built)
            };
            &&& 0 <= into < library.callables.len()
            &&& library.callables[into].container == named_type
            &&& library.callables[into].form is Some
            &&& library.contract_methods.contains(library.callables[into].name)
            &&& 0 <= other < library.callables.len() && library.callables[other].container
                == named_type && library.callables[other].form is Some
                && library.callables[other].source == library.callables[current].source
                && library.contract_methods.contains(library.callables[other].name) ==> !outranks(
                library,
                other,
                into,
            )
        }),
{
    let named_type = if built == "Self"@ {
        library.callables[current].container->0
    } else {
        built
    };
    let within = library.callables[current].source;
    let into = built_into(library, current, form)->0;
    let source = looked_in(library, named_type, within)->0;
    assert(is_principal(library, into, named_type, source));
    law_earlier_methods_stand_higher(
        library.contract_methods,
        library.callables[into].name,
        library.callables[into].name,
    );
    assert(eligible(library, into, named_type, source));
    law_earlier_methods_stand_higher(
        library.contract_methods,
        library.callables[other].name,
        library.callables[other].name,
    );
    if 0 <= other < library.callables.len() && library.callables[other].container == Some(
        named_type,
    ) && library.callables[other].form is Some && library.callables[other].source == within
        && library.contract_methods.contains(library.callables[other].name) {
        assert(belongs(library.callables, other, named_type, Some(within)));
        assert(eligible(library, other, named_type, source));
    }
}

} // verus!
