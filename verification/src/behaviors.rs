//! Following a library callable to the code that describes what it does.
//!
//! A public API is rarely where the work is. `Iterator::find` is a `try_fold`,
//! `itertools::counts` is a call to `counts_with_hasher`, and `filter_map` only
//! builds a `FilterMap` whose `next` runs later. Deriving a behavior therefore
//! means walking from the name a caller writes to the body that does the thing:
//! follow a delegation, follow a construction into the constructed type's
//! contract method, stop when the form describes work.
//!
//! A frontend supplies each callable already normalized, and gets back the form
//! plus the chain that was followed.

use crate::lists::{
    greatest, lemma_greatest_member, lemma_total_member, total,
};
use crate::normalize::form::{
    form_terms, lemma_part_smaller, optional_text, Form, Shape, Term, MAXIMUM_FORM_DEPTH,
};
use crate::normalize::laws::rewritten_term;
use crate::normalize::lift::lifted;
use crate::normalize::measure::{
    each_depth, each_size, term_comparable, term_depth, term_size, term_works,
};
use crate::text::{chars_of, same_text, text_of};
use vstd::prelude::*;
use vstd::string::*;

verus! {

/// How many delegating wrappers to follow before giving up.
pub const MAX_DELEGATION_DEPTH: usize = 4;

/// Which source a callable was written in: an opaque index, because the walk
/// only ever asks whether two callables were written in the same place.
pub type SourceId = usize;

/// One function in a library, as far as derivation cares.
pub struct LibraryCallable {
    /// The name the language gives it.
    pub name: String,
    /// The type or trait it is written inside, when there is one.
    pub container: Option<String>,
    /// Where it was written.
    pub source: SourceId,
    /// Its normalized body, or `None` when it has none.
    pub form: Option<Form>,
}

/// The content of a [`LibraryCallable`].
pub struct CallableView {
    pub name: Seq<char>,
    pub container: Option<Seq<char>>,
    pub source: SourceId,
    pub form: Option<Term>,
}

impl View for LibraryCallable {
    type V = CallableView;

    open spec fn view(&self) -> CallableView {
        CallableView {
            name: self.name@,
            container: optional_text(self.container),
            source: self.source,
            form: rewritten_term(self.form),
        }
    }
}

/// One source declares a type of this name.
#[derive(Debug, Clone, PartialEq, Eq)]
pub struct Declaration {
    pub name: String,
    pub source: SourceId,
}

/// Why a callable yielded no behavior.
///
/// Most callables in a library describe nothing comparable, so refusing is the
/// normal outcome and each reason is worth counting separately.
#[derive(Debug, Clone, Copy, PartialEq, Eq, Structural)]
pub enum Refusal {
    /// The name resolved to nothing, or to more than one thing.
    NoImplementation,
    /// The implementation is a declaration with no body.
    NoBody,
    /// The implementation describes neither a traversal nor a decision.
    NotComparable,
    /// The implementation nests far enough to be a subsystem.
    TooDeep(u32),
}

/// What a walk arrived at.
#[derive(Debug, PartialEq)]
pub struct Derived {
    /// The form of the body that actually does the work.
    pub form: Form,
    /// Every callable the walk passed through, starting with the one asked for
    /// and ending where the behavior is written.
    pub chain: Vec<usize>,
}

/// A library's callables, and what else the walk asks about.
pub struct Library<'a> {
    callables: &'a Vec<LibraryCallable>,
    /// Which sources declare each named type. A bare type name only identifies
    /// a type when the library gives it to one.
    declarations: Vec<Declaration>,
    /// The methods this language requires of the types it can follow into;
    /// earlier entries outrank later ones.
    contract_methods: Vec<String>,
}

/// The content of a [`Library`].
pub struct LibraryView {
    pub callables: Seq<CallableView>,
    pub declarations: Seq<(Seq<char>, SourceId)>,
    pub contract_methods: Seq<Seq<char>>,
}

/// The contents of callables.
pub open spec fn callable_views(callables: Seq<LibraryCallable>) -> Seq<CallableView> {
    Seq::new(callables.len(), |i: int| callables[i]@)
}

/// The contents of declarations.
pub open spec fn declaration_views(declarations: Seq<Declaration>) -> Seq<(Seq<char>, SourceId)> {
    Seq::new(declarations.len(), |i: int| (declarations[i].name@, declarations[i].source))
}

/// The contents of names.
pub open spec fn name_views(names: Seq<String>) -> Seq<Seq<char>> {
    Seq::new(names.len(), |i: int| names[i]@)
}

impl<'a> View for Library<'a> {
    type V = LibraryView;

    closed spec fn view(&self) -> LibraryView {
        LibraryView {
            callables: callable_views(self.callables@),
            declarations: declaration_views(self.declarations@),
            contract_methods: name_views(self.contract_methods@),
        }
    }
}

/// Where the last `::` of a path begins.
pub open spec fn separates_last(path: Seq<char>, i: int) -> bool {
    &&& 0 <= i < path.len() - 1
    &&& path[i] == ':' && path[i + 1] == ':'
    &&& forall|j: int| i < j < path.len() - 1 ==> !(#[trigger] path[j] == ':' && path[j + 1] == ':')
}

/// The name a `::`-separated path ends in.
pub open spec fn leaf_of(path: Seq<char>) -> Seq<char> {
    if exists|i: int| separates_last(path, i) {
        path.skip((choose|i: int| separates_last(path, i)) + 2)
    } else {
        path
    }
}

/// The segment before the name a `::`-separated path ends in, where it begins
/// with an upper-case letter and so names a type.
pub open spec fn container_of(path: Seq<char>) -> Option<Seq<char>> {
    if exists|i: int| separates_last(path, i) {
        let segment = leaf_of(path.take(choose|i: int| separates_last(path, i)));
        if segment.len() > 0 && 'A' <= segment[0] <= 'Z' {
            Some(segment)
        } else {
            None
        }
    } else {
        None
    }
}

/// Where the last `::` of a path begins, if there is one.
pub(crate) fn last_separator(path: &Vec<char>) -> (place: Option<usize>)
    ensures
        match place {
            Some(place) => separates_last(path@, place as int),
            None => forall|i: int| !separates_last(path@, i),
        },
{
    let mut i: usize = path.len();
    while i > 1
        invariant
            i <= path@.len(),
            forall|j: int|
                i <= j + 1 && 0 <= j < path@.len() - 1 ==> !(#[trigger] path@[j] == ':' && path@[j
                    + 1] == ':'),
        decreases i,
    {
        if path[i - 2] == ':' && path[i - 1] == ':' {
            assert(separates_last(path@, i - 2));
            return Some(i - 2);
        }
        i -= 1;
    }
    None
}

/// At most one place is where the last `::` of a path begins.
pub proof fn lemma_separates_last(path: Seq<char>, i: int, j: int)
    requires
        separates_last(path, i),
        separates_last(path, j),
    ensures
        i == j,
{
    if i < j {
        assert(path[j] == ':' && path[j + 1] == ':');
    } else if j < i {
        assert(path[i] == ':' && path[i + 1] == ':');
    }
}

/// The name a qualified path ends in.
pub fn leaf_name(callable_path: &str) -> (leaf: String)
    ensures
        leaf@ == leaf_of(callable_path@),
{
    let path = chars_of(callable_path);
    match last_separator(&path) {
        Some(place) => {
            proof {
                lemma_separates_last(
                    path@,
                    place as int,
                    choose|i: int| separates_last(path@, i),
                );
                assert(path@.subrange(place + 2, path@.len() as int) =~= path@.skip(place + 2));
            }
            let end: usize = path.len();
            text_of(&path, place + 2, end)
        },
        None => callable_path.to_owned(),
    }
}

/// The trait or type a callable path is qualified by, when it has one.
///
/// A leading-uppercase segment is a type name in every language that has this
/// convention, and a lowercase one is a module. Getting this wrong only widens
/// a candidate set, which the resolver then refuses as ambiguous.
pub fn container_name(callable_path: &str) -> (container: Option<String>)
    ensures
        optional_text(container) == container_of(callable_path@),
{
    let path = chars_of(callable_path);
    match last_separator(&path) {
        Some(place) => {
            let before = text_of(&path, 0, place);
            proof {
                lemma_separates_last(
                    path@,
                    place as int,
                    choose|i: int| separates_last(path@, i),
                );
                assert(path@.subrange(0, place as int) =~= path@.take(place as int));
            }
            let segment = leaf_name(before.as_str());
            let chars = chars_of(segment.as_str());
            if chars.len() > 0 && 'A' <= chars[0] && chars[0] <= 'Z' {
                Some(segment)
            } else {
                None
            }
        },
        None => None,
    }
}

/// The name a term does nothing but call.
pub open spec fn delegation(term: Term) -> Option<Seq<char>>
    decreases term,
{
    match term.shape {
        Shape::Method(name) => Some(name),
        Shape::Call => if term.parts.len() > 0 {
            match term.parts[0].shape {
                Shape::Path(path) => Some(leaf_of(path)),
                _ => None,
            }
        } else {
            None
        },
        Shape::Return => if term.parts.len() == 1 {
            delegation(term.parts[0])
        } else {
            None
        },
        Shape::Sequence => if term.parts.len() == 1 {
            delegation(term.parts[0])
        } else {
            None
        },
        _ => None,
    }
}

/// Whether a form is nothing but a call to somewhere else, and to where.
///
/// A public API is frequently a one-line wrapper: `counts` exists to call
/// `counts_with_hasher` with a default. The wrapper describes no behavior of
/// its own, so derivation follows it. This is a shape test, not a list of known
/// wrappers.
pub fn delegation_target(form: &Form) -> (target: Option<String>)
    ensures
        optional_text(target) == delegation(form@),
    decreases form@,
{
    match form {
        Form::Method { name, .. } => Some(name.clone()),
        Form::Call { callee, .. } => {
            assert(form@.parts[0] == callee@);
            match &**callee {
                Form::Path(path) => Some(leaf_name(path.as_str())),
                _ => None,
            }
        },
        Form::Return(inner) => {
            proof {
                assert(form@.parts[0] == inner@);
                lemma_part_smaller(form@, 0);
            }
            delegation_target(&**inner)
        },
        Form::Sequence(parts) => {
            assert(form_terms(parts@).len() == parts@.len());
            if parts.len() == 1 {
                proof {
                    assert(form@.parts[0] == parts@[0]@);
                    lemma_part_smaller(form@, 0);
                }
                delegation_target(&parts[0])
            } else {
                None
            }
        },
        _ => None,
    }
}

/// The type a term does nothing but construct.
pub open spec fn construction(term: Term) -> Option<Seq<char>>
    decreases term,
{
    match term.shape {
        Shape::Construct(name) => Some(name),
        Shape::Sequence => if term.parts.len() == 1 {
            construction(term.parts[0])
        } else {
            None
        },
        _ => first_construction(term.parts),
    }
}

/// The first type that any of several terms constructs.
pub open spec fn first_construction(terms: Seq<Term>) -> Option<Seq<char>>
    decreases terms,
{
    if terms.len() == 0 {
        None
    } else {
        match first_construction(terms.drop_last()) {
            Some(name) => Some(name),
            None => construction(terms[terms.len() - 1]),
        }
    }
}

/// The type a form does nothing but construct.
///
/// A struct literal and the like reach here as opaque syntax; the constructed
/// type is whatever the parts construct.
pub fn constructed_type(form: &Form) -> (name: Option<&str>)
    ensures
        (match name {
            Some(name) => Some(name@),
            None => None,
        }) == construction(form@),
    decreases form@,
{
    match form {
        Form::Construct(name) => Some(name.as_str()),
        Form::Sequence(parts) => {
            assert(form_terms(parts@).len() == parts@.len());
            if parts.len() == 1 {
                proof {
                    assert(form@.parts[0] == parts@[0]@);
                    lemma_part_smaller(form@, 0);
                }
                constructed_type(&parts[0])
            } else {
                None
            }
        },
        _ => {
            let children = form.children();
            let mut i: usize = 0;
            while i < children.len()
                invariant
                    i <= children@.len(),
                    children@.len() == form@.parts.len(),
                    forall|i: int|
                        0 <= i < children@.len() ==> (#[trigger] children@[i])@ == form@.parts[i],
                    first_construction(form@.parts.take(i as int)) is None,
                    construction(form@) == first_construction(form@.parts),
                decreases children@.len() - i,
            {
                proof {
                    lemma_part_smaller(form@, i as int);
                    assert(form@.parts.take(i + 1).drop_last() =~= form@.parts.take(i as int));
                    assert(form@.parts.take(i + 1).last() == form@.parts[i as int]);
                }
                let found = constructed_type(children[i]);
                if found.is_some() {
                    proof {
                        lemma_first_construction(form@.parts, i + 1);
                    }
                    return found;
                }
                i += 1;
            }
            assert(form@.parts.take(i as int) =~= form@.parts);
            None
        },
    }
}

/// What the first terms construct, all of them do.
proof fn lemma_first_construction(terms: Seq<Term>, i: int)
    requires
        0 <= i <= terms.len(),
        first_construction(terms.take(i)) is Some,
    ensures
        first_construction(terms) == first_construction(terms.take(i)),
    decreases terms.len() - i,
{
    if i == terms.len() {
        assert(terms.take(i) =~= terms);
    } else {
        assert(terms.take(i + 1).drop_last() =~= terms.take(i));
        lemma_first_construction(terms, i + 1);
    }
}

/// The type a name refers to inside a container.
pub open spec fn self_resolved(name: Seq<char>, container: Option<Seq<char>>) -> Option<Seq<char>> {
    if name == "Self"@ {
        container
    } else {
        Some(name)
    }
}

/// The text of an optional slice.
pub open spec fn slice_text(text: Option<&str>) -> Option<Seq<char>> {
    match text {
        Some(text) => Some(text@),
        None => None,
    }
}

/// The type a name refers to, with a self-reference read as the type it stands
/// for.
///
/// `Self` is not a type name: it means whichever type the surrounding
/// implementation is for. Where the enclosing type is unknown there is no
/// answer, and none is better than an arbitrary one.
pub fn resolve_self<'a>(name: &'a str, container: Option<&'a str>) -> (resolved: Option<&'a str>)
    ensures
        slice_text(resolved) == self_resolved(name@, slice_text(container)),
{
    if same_text(name, "Self") {
        return container;
    }
    Some(name)
}

/// Whether a callable answers to a name, inside a container where one is given,
/// and is not the one left out.
pub open spec fn answers(
    callables: Seq<CallableView>,
    i: int,
    name: Seq<char>,
    container: Option<Seq<char>>,
    exclude: Option<int>,
) -> bool {
    &&& 0 <= i < callables.len()
    &&& callables[i].name == name
    &&& exclude != Some(i)
    &&& container is Some ==> callables[i].container == container
}

/// The only callable that answers to a name.
pub open spec fn sole_answer(
    callables: Seq<CallableView>,
    name: Seq<char>,
    container: Option<Seq<char>>,
    exclude: Option<int>,
) -> Option<int> {
    if exists|i: int| is_sole_answer(callables, i, name, container, exclude) {
        Some(choose|i: int| is_sole_answer(callables, i, name, container, exclude))
    } else {
        None
    }
}

/// Whether a callable and no other answers to a name.
pub open spec fn is_sole_answer(
    callables: Seq<CallableView>,
    i: int,
    name: Seq<char>,
    container: Option<Seq<char>>,
    exclude: Option<int>,
) -> bool {
    &&& answers(callables, i, name, container, exclude)
    &&& forall|j: int| #[trigger] answers(callables, j, name, container, exclude) ==> j == i
}

/// The one implementation a name resolves to: the only one inside the
/// container, or else the only one at all.
pub open spec fn resolved(
    callables: Seq<CallableView>,
    name: Seq<char>,
    container: Option<Seq<char>>,
    exclude: Option<int>,
) -> Option<int> {
    if container is Some && sole_answer(callables, name, container, exclude) is Some {
        sole_answer(callables, name, container, exclude)
    } else {
        sole_answer(callables, name, None, exclude)
    }
}

/// Whether a callable is written inside a type, and in a source where one is
/// given.
pub open spec fn belongs(
    callables: Seq<CallableView>,
    i: int,
    named_type: Seq<char>,
    source: Option<SourceId>,
) -> bool {
    &&& 0 <= i < callables.len()
    &&& callables[i].container == Some(named_type)
    &&& source is Some ==> callables[i].source == source->0
}

/// Whether one source and no other declares a type of this name.
pub open spec fn declared_once(
    declarations: Seq<(Seq<char>, SourceId)>,
    named_type: Seq<char>,
) -> bool {
    exists|i: int|
        {
            &&& 0 <= i < declarations.len()
            &&& (#[trigger] declarations[i]).0 == named_type
            &&& forall|j: int|
                0 <= j < declarations.len() && (#[trigger] declarations[j]).0 == named_type
                    ==> declarations[j].1 == declarations[i].1
        }
}

/// The source a type's methods are looked for in: the one it is constructed in
/// where it has methods there, and else any, but only where the library declares
/// the type once.
pub open spec fn looked_in(
    library: LibraryView,
    named_type: Seq<char>,
    within: SourceId,
) -> Option<Option<SourceId>> {
    if exists|i: int| belongs(library.callables, i, named_type, Some(within)) {
        Some(Some(within))
    } else if declared_once(library.declarations, named_type) {
        Some(None)
    } else {
        None
    }
}

/// How highly a name stands among the methods the language requires: the first
/// of them highest, and a name that is none of them not at all.
pub open spec fn standing(contract_methods: Seq<Seq<char>>, name: Seq<char>) -> nat
    decreases contract_methods.len(),
{
    if contract_methods.len() == 0 {
        0
    } else if contract_methods[0] == name {
        contract_methods.len()
    } else {
        standing(contract_methods.drop_first(), name)
    }
}

/// Whether a callable can stand for a type's behavior: it is written inside the
/// type, has a body, and is a method the language requires.
pub open spec fn eligible(
    library: LibraryView,
    i: int,
    named_type: Seq<char>,
    source: Option<SourceId>,
) -> bool {
    &&& belongs(library.callables, i, named_type, source)
    &&& library.callables[i].form is Some
    &&& standing(library.contract_methods, library.callables[i].name) > 0
}

/// Whether one callable outranks another: by how it stands among the required
/// methods, then by whether it describes work, then by how much.
pub open spec fn outranks(library: LibraryView, i: int, j: int) -> bool {
    let left = library.callables[i];
    let right = library.callables[j];
    let high = standing(library.contract_methods, left.name);
    let low = standing(library.contract_methods, right.name);
    let left_works = term_works(left.form->0);
    let right_works = term_works(right.form->0);
    high > low || (high == low && ((left_works && !right_works) || (left_works == right_works
        && term_size(left.form->0) > term_size(right.form->0))))
}

/// Whether a callable is the one that carries a type's behavior: none that could
/// outranks it, and none listed after it ranks the same.
pub open spec fn is_principal(
    library: LibraryView,
    i: int,
    named_type: Seq<char>,
    source: Option<SourceId>,
) -> bool {
    &&& eligible(library, i, named_type, source)
    &&& forall|j: int| #[trigger]
        eligible(library, j, named_type, source) ==> !outranks(library, j, i) && (j > i ==> outranks(
            library,
            i,
            j,
        ))
}

/// The callable that carries a type's behavior.
pub open spec fn principal(library: LibraryView, named_type: Seq<char>, within: SourceId) -> Option<
    int,
> {
    match looked_in(library, named_type, within) {
        Some(source) => if exists|i: int| is_principal(library, i, named_type, source) {
            Some(choose|i: int| is_principal(library, i, named_type, source))
        } else {
            None
        },
        None => None,
    }
}

/// Where a walk stands: the callable it is at, those it passed, what that
/// callable does, and whether it stepped into a constructed type on the way.
pub struct Walk {
    pub current: int,
    pub chain: Seq<int>,
    pub form: Term,
    pub inside_one_step: bool,
}

/// The callable that a construction leads into.
pub open spec fn built_into(library: LibraryView, current: int, form: Term) -> Option<int> {
    match construction(form) {
        Some(built) => match self_resolved(built, library.callables[current].container) {
            Some(built) => principal(library, built, library.callables[current].source),
            None => None,
        },
        None => None,
    }
}

/// The callable that a delegation leads to.
pub open spec fn delegated_to(library: LibraryView, current: int, form: Term) -> Option<int> {
    match delegation(form) {
        Some(target) => resolved(
            library.callables,
            target,
            library.callables[current].container,
            Some(current),
        ),
        None => None,
    }
}

/// Where a walk arrives within so many steps: it follows a delegation, or else a
/// construction, until what it is at describes work, leads nowhere, or leads
/// back.
pub open spec fn walked(library: LibraryView, walk: Walk, steps: nat) -> Result<Walk, Refusal>
    decreases steps,
{
    if steps == 0 || term_works(walk.form) {
        Ok(walk)
    } else {
        let delegated = delegated_to(library, walk.current, walk.form);
        let built = built_into(library, walk.current, walk.form);
        let inside = walk.inside_one_step || (delegated is None && built is Some);
        let here = Walk { inside_one_step: inside, ..walk };
        match if delegated is Some {
            delegated
        } else {
            built
        } {
            Some(next) => if walk.chain.contains(next) {
                Ok(here)
            } else {
                match library.callables[next].form {
                    Some(form) => walked(
                        library,
                        Walk {
                            current: next,
                            chain: walk.chain.push(next),
                            form,
                            inside_one_step: inside,
                        },
                        (steps - 1) as nat,
                    ),
                    None => Err(Refusal::NoBody),
                }
            },
            None => Ok(here),
        }
    }
}

/// Where a walk ends once it has stepped into what it constructs: a combinator
/// does not do its work where it is called.
pub open spec fn entered(library: LibraryView, walk: Walk) -> Walk {
    if term_works(walk.form) {
        walk
    } else {
        match built_into(library, walk.current, walk.form) {
            Some(implementing) => Walk {
                current: walk.current,
                chain: walk.chain.push(implementing),
                form: library.callables[implementing].form->0,
                inside_one_step: true,
            },
            None => walk,
        }
    }
}

/// What a walk found: one step of a lazy adaptor stands for the whole operation,
/// but only where the walk went through a construction.
pub open spec fn read_off(walk: Walk) -> Term {
    if walk.inside_one_step && lifted(walk.form) is Some {
        lifted(walk.form)->0
    } else {
        walk.form
    }
}

/// The behavior a name leads to, and the callables passed on the way.
pub open spec fn derived(
    library: LibraryView,
    name: Seq<char>,
    container: Option<Seq<char>>,
) -> Result<(Term, Seq<int>), Refusal> {
    match resolved(library.callables, name, container, None) {
        None => Err(Refusal::NoImplementation),
        Some(first) => match library.callables[first].form {
            None => Err(Refusal::NoBody),
            Some(form) => match walked(
                library,
                Walk { current: first, chain: seq![first], form, inside_one_step: false },
                MAX_DELEGATION_DEPTH as nat,
            ) {
                Err(refusal) => Err(refusal),
                Ok(walk) => {
                    let end = entered(library, walk);
                    let form = read_off(end);
                    if !term_comparable(form) {
                        Err(Refusal::NotComparable)
                    } else if term_depth(form) > MAXIMUM_FORM_DEPTH {
                        Err(Refusal::TooDeep(term_depth(form) as u32))
                    } else {
                        Ok((form, end.chain))
                    }
                },
            },
        },
    }
}

/// The numbers of callables.
pub open spec fn numbers(chain: Seq<usize>) -> Seq<int> {
    Seq::new(chain.len(), |i: int| chain[i] as int)
}

/// Whether every body is small enough to be counted.
pub open spec fn countable(library: LibraryView) -> bool {
    forall|i: int|
        0 <= i < library.callables.len() && (#[trigger] library.callables[i]).form is Some
            ==> term_size(library.callables[i].form->0) <= u32::MAX
}

/// A term nests no deeper than it is large.
pub proof fn lemma_depth_within_size(term: Term)
    ensures
        term_depth(term) <= term_size(term),
    decreases term,
{
    let depths = each_depth(term.parts);
    let sizes = each_size(term.parts);
    assert forall|i: int| 0 <= i < depths.len() implies #[trigger] depths[i] <= total(sizes) by {
        lemma_part_smaller(term, i);
        lemma_depth_within_size(term.parts[i]);
        assert(sizes[i] == term_size(term.parts[i]));
        lemma_total_member(sizes, i);
    }
    lemma_greatest_bounded(depths, total(sizes));
}

/// The largest of some numbers is within a bound of all of them.
proof fn lemma_greatest_bounded(numbers: Seq<nat>, bound: nat)
    requires
        forall|i: int| 0 <= i < numbers.len() ==> #[trigger] numbers[i] <= bound,
    ensures
        greatest(numbers) <= bound,
    decreases numbers.len(),
{
    if numbers.len() > 0 {
        lemma_greatest_bounded(numbers.drop_last(), bound);
        assert(numbers[numbers.len() - 1] <= bound);
    }
}

/// A part nests less deeply than the whole.
proof fn lemma_part_depth(term: Term, i: int)
    requires
        0 <= i < term.parts.len(),
    ensures
        term_depth(term.parts[i]) < term_depth(term),
{
    lemma_greatest_member(each_depth(term.parts), i);
    assert(each_depth(term.parts)[i] == term_depth(term.parts[i]));
}

/// Lifting makes no term nest more deeply.
pub proof fn law_lifting_is_no_deeper(term: Term)
    ensures
        lifted(term) is Some ==> term_depth(lifted(term)->0) <= term_depth(term),
{
    if lifted(term) is Some {
        let made = lifted(term)->0;
        let walk = term.parts[0];
        lemma_part_depth(term, 0);
        lemma_part_depth(walk, 0);
        lemma_part_depth(walk, 1);
        lemma_part_depth(walk.parts[1], 0);
        let depths = each_depth(made.parts);
        assert(depths.len() == 2);
        assert forall|i: int| 0 <= i < depths.len() implies #[trigger] depths[i] <= term_depth(
            walk,
        ) - 1 by {
            assert(depths[i] == term_depth(made.parts[i]));
        }
        lemma_greatest_bounded(depths, (term_depth(walk) - 1) as nat);
    }
}

/// At most one callable is the only one that answers.
proof fn lemma_sole_answer(
    callables: Seq<CallableView>,
    i: int,
    name: Seq<char>,
    container: Option<Seq<char>>,
    exclude: Option<int>,
)
    requires
        is_sole_answer(callables, i, name, container, exclude),
    ensures
        sole_answer(callables, name, container, exclude) == Some(i),
{
    let j = choose|j: int| is_sole_answer(callables, j, name, container, exclude);
    assert(answers(callables, j, name, container, exclude));
}

/// At most one callable carries a type's behavior.
proof fn lemma_principal(
    library: LibraryView,
    i: int,
    named_type: Seq<char>,
    source: Option<SourceId>,
)
    requires
        is_principal(library, i, named_type, source),
    ensures
        (choose|j: int| is_principal(library, j, named_type, source)) == i,
{
    let j = choose|j: int| is_principal(library, j, named_type, source);
    assert(eligible(library, i, named_type, source));
    assert(eligible(library, j, named_type, source));
}

/// How highly a name stands, once the first so many required methods are none
/// of it.
proof fn lemma_standing_skip(methods: Seq<Seq<char>>, name: Seq<char>, i: int)
    requires
        0 <= i <= methods.len(),
        forall|j: int| 0 <= j < i ==> #[trigger] methods[j] != name,
    ensures
        standing(methods, name) == standing(methods.skip(i), name),
    decreases i,
{
    if i == 0 {
        assert(methods.skip(0) =~= methods);
    } else {
        assert(methods[0] != name);
        assert(methods.drop_first().skip(i - 1) =~= methods.skip(i));
        assert forall|j: int| 0 <= j < i - 1 implies #[trigger] methods.drop_first()[j]
            != name by {
            assert(methods[j + 1] != name);
        }
        lemma_standing_skip(methods.drop_first(), name, i - 1);
    }
}

/// The text of an optional name.
fn optional_slice(text: &Option<String>) -> (slice: Option<&str>)
    ensures
        slice_text(slice) == optional_text(*text),
{
    match text {
        Some(text) => Some(text.as_str()),
        None => None,
    }
}

/// Whether a name is the one given, where one is given.
fn is_inside(container: &Option<String>, wanted: Option<&str>) -> (inside: bool)
    ensures
        inside == (wanted is Some ==> optional_text(*container) == slice_text(wanted)),
{
    match (container, wanted) {
        (_, None) => true,
        (Some(container), Some(wanted)) => same_text(container.as_str(), wanted),
        (None, Some(_)) => false,
    }
}

/// An optional number.
pub open spec fn optional_number(number: Option<usize>) -> Option<int> {
    match number {
        Some(number) => Some(number as int),
        None => None,
    }
}

impl<'a> Library<'a> {
    /// A library of callables.
    pub fn new(
        callables: &'a Vec<LibraryCallable>,
        declarations: Vec<Declaration>,
        contract_methods: Vec<String>,
    ) -> (library: Self)
        ensures
            library@ == (LibraryView {
                callables: callable_views(callables@),
                declarations: declaration_views(declarations@),
                contract_methods: name_views(contract_methods@),
            }),
    {
        Library { callables, declarations, contract_methods }
    }

    /// The only callable that answers to a name.
    fn sole(&self, name: &str, container: Option<&str>, exclude: Option<usize>) -> (only: Option<
        usize,
    >)
        ensures
            optional_number(only) == sole_answer(
                self@.callables,
                name@,
                slice_text(container),
                optional_number(exclude),
            ),
            only is Some ==> only->0 < self@.callables.len(),
    {
        let ghost callables = self@.callables;
        let ghost within = slice_text(container);
        let ghost left_out = optional_number(exclude);
        let mut found: Option<usize> = None;
        let mut i: usize = 0;
        while i < self.callables.len()
            invariant
                i <= self.callables@.len(),
                callables == callable_views(self.callables@),
                callables == self@.callables,
                within == slice_text(container),
                left_out == optional_number(exclude),
                found is Some ==> found->0 < i && answers(
                    callables,
                    found->0 as int,
                    name@,
                    within,
                    left_out,
                ),
                forall|j: int|
                    0 <= j < i && #[trigger] answers(callables, j, name@, within, left_out)
                        ==> found == Some(j as usize),
            decreases self.callables@.len() - i,
        {
            let callable = &self.callables[i];
            assert(callables[i as int] == callable@);
            let excluded = match exclude {
                Some(exclude) => exclude == i,
                None => false,
            };
            if !excluded && same_text(callable.name.as_str(), name) && is_inside(
                &callable.container,
                container,
            ) {
                assert(answers(callables, i as int, name@, within, left_out));
                if let Some(other) = found {
                    assert(answers(callables, other as int, name@, within, left_out));
                    return None;
                }
                found = Some(i);
            }
            i += 1;
        }
        proof {
            if let Some(only) = found {
                assert(is_sole_answer(callables, only as int, name@, within, left_out));
                lemma_sole_answer(callables, only as int, name@, within, left_out);
            }
        }
        found
    }

    /// Resolves a name to one implementation.
    ///
    /// Preferring the container narrows an ambiguous name; without one, only a
    /// name the library uses exactly once can be resolved by syntax alone.
    /// `exclude` drops the function doing the delegating: a wrapper and the
    /// helper it forwards to routinely share a name across a trait and a
    /// module, and a wrapper is never its own implementation.
    pub fn resolve(
        &self,
        name: &str,
        container: Option<&str>,
        exclude: Option<usize>,
    ) -> (implementation: Option<usize>)
        ensures
            optional_number(implementation) == resolved(
                self@.callables,
                name@,
                slice_text(container),
                optional_number(exclude),
            ),
            implementation is Some ==> implementation->0 < self@.callables.len(),
    {
        if container.is_some() {
            let qualified = self.sole(name, container, exclude);
            if qualified.is_some() {
                return qualified;
            }
        }
        self.sole(name, None, exclude)
    }

    /// How highly a name stands among the methods the language requires.
    fn standing_of(&self, name: &str) -> (rank: usize)
        ensures
            rank == standing(self@.contract_methods, name@),
    {
        let ghost methods = self@.contract_methods;
        let mut i: usize = 0;
        while i < self.contract_methods.len()
            invariant
                i <= self.contract_methods@.len(),
                methods == name_views(self.contract_methods@),
                methods == self@.contract_methods,
                forall|j: int| 0 <= j < i ==> #[trigger] methods[j] != name@,
            decreases self.contract_methods@.len() - i,
        {
            assert(methods[i as int] == self.contract_methods@[i as int]@);
            if same_text(self.contract_methods[i].as_str(), name) {
                proof {
                    lemma_standing_skip(methods, name@, i as int);
                    assert(methods.skip(i as int)[0] == name@);
                }
                return self.contract_methods.len() - i;
            }
            i += 1;
        }
        proof {
            lemma_standing_skip(methods, name@, i as int);
            assert(methods.skip(i as int).len() == 0);
        }
        0
    }

    /// Whether some callable is written inside a type, in a source.
    fn has_methods(&self, named_type: &str, within: SourceId) -> (has: bool)
        ensures
            has == exists|i: int| belongs(self@.callables, i, named_type@, Some(within)),
    {
        let mut i: usize = 0;
        while i < self.callables.len()
            invariant
                i <= self.callables@.len(),
                self@.callables == callable_views(self.callables@),
                forall|j: int| 0 <= j < i ==> !belongs(
                    self@.callables,
                    j,
                    named_type@,
                    Some(within),
                ),
            decreases self.callables@.len() - i,
        {
            let callable = &self.callables[i];
            assert(self@.callables[i as int] == callable@);
            if callable.source == within && is_inside(&callable.container, Some(named_type)) {
                assert(belongs(self@.callables, i as int, named_type@, Some(within)));
                return true;
            }
            i += 1;
        }
        false
    }

    /// Whether one source and no other declares a type of this name.
    fn is_declared_once(&self, named_type: &str) -> (once: bool)
        ensures
            once == declared_once(self@.declarations, named_type@),
    {
        let ghost all = self@.declarations;
        let mut found: Option<SourceId> = None;
        let ghost mut place: int = 0;
        let mut i: usize = 0;
        while i < self.declarations.len()
            invariant
                i <= self.declarations@.len(),
                all == declaration_views(self.declarations@),
                all == self@.declarations,
                found is Some ==> 0 <= place < i && all[place] == (named_type@, found->0),
                forall|j: int|
                    0 <= j < i && (#[trigger] all[j]).0 == named_type@ ==> found == Some(all[j].1),
            decreases self.declarations@.len() - i,
        {
            let declaration = &self.declarations[i];
            assert(all[i as int] == (declaration.name@, declaration.source));
            if same_text(declaration.name.as_str(), named_type) {
                if let Some(source) = found {
                    if source != declaration.source {
                        assert(all[place].0 == named_type@ && all[i as int].0 == named_type@);
                        return false;
                    }
                }
                proof {
                    place = i as int;
                }
                found = Some(declaration.source);
            }
            i += 1;
        }
        proof {
            if found is Some {
                assert(all[place].0 == named_type@);
            }
        }
        found.is_some()
    }

    /// The method that carries a type's behavior.
    ///
    /// A type's work is spread across its implementations and most of those
    /// methods are bookkeeping. Only a method the language requires can stand
    /// for it; the one it ranks first wins even when its body is a single call,
    /// because that call is followed afterwards.
    ///
    /// `within` is the source the construction was written in: a bare name
    /// alone pools every type in the library that answers to it.
    pub fn principal_method(&self, named_type: &str, within: SourceId) -> (method: Option<usize>)
        requires
            countable(self@),
        ensures
            optional_number(method) == principal(self@, named_type@, within),
            method is Some ==> method->0 < self@.callables.len()
                && self@.callables[method->0 as int].form is Some,
    {
        let source: Option<SourceId> = if self.has_methods(named_type, within) {
            Some(within)
        } else if self.is_declared_once(named_type) {
            None
        } else {
            return None;
        };
        let ghost library = self@;
        let mut best: Option<(usize, usize, bool, u32)> = None;
        let mut i: usize = 0;
        while i < self.callables.len()
            invariant
                i <= self.callables@.len(),
                countable(library),
                library == self@,
                library.callables == callable_views(self.callables@),
                match best {
                    Some((index, rank, works, size)) => {
                        &&& index < i
                        &&& eligible(library, index as int, named_type@, source)
                        &&& rank == standing(
                            library.contract_methods,
                            library.callables[index as int].name,
                        )
                        &&& works == term_works(library.callables[index as int].form->0)
                        &&& size == term_size(library.callables[index as int].form->0)
                        &&& forall|j: int|
                            j < i && #[trigger] eligible(library, j, named_type@, source)
                                ==> !outranks(library, j, index as int) && (j > index ==> outranks(
                                library,
                                index as int,
                                j,
                            ))
                    },
                    None => forall|j: int|
                        j < i ==> !#[trigger] eligible(library, j, named_type@, source),
                },
            decreases self.callables@.len() - i,
        {
            let callable = &self.callables[i];
            assert(library.callables[i as int] == callable@);
            let here = match source {
                Some(source) => callable.source == source,
                None => true,
            };
            if here && is_inside(&callable.container, Some(named_type)) {
                if let Some(form) = &callable.form {
                    let rank = self.standing_of(callable.name.as_str());
                    if rank > 0 {
                        assert(eligible(library, i as int, named_type@, source));
                        let works = form.describes_work();
                        let size = form.size();
                        let better = match best {
                            Some((_, best_rank, best_works, best_size)) => rank > best_rank || (rank
                                == best_rank && ((works && !best_works) || (works == best_works
                                && size >= best_size))),
                            None => true,
                        };
                        if better {
                            best = Some((i, rank, works, size));
                        }
                    }
                }
            }
            i += 1;
        }
        match best {
            Some((index, _, _, _)) => {
                proof {
                    assert(is_principal(library, index as int, named_type@, source));
                    lemma_principal(library, index as int, named_type@, source);
                }
                Some(index)
            },
            None => {
                proof {
                    assert forall|j: int| !is_principal(library, j, named_type@, source) by {
                        assert(!eligible(library, j, named_type@, source));
                    }
                }
                None
            },
        }
    }

    /// What a callable does.
    fn form(&self, index: usize) -> (form: Result<Form, Refusal>)
        requires
            index < self@.callables.len(),
        ensures
            match form {
                Ok(form) => self@.callables[index as int].form == Some(form@),
                Err(refusal) => self@.callables[index as int].form is None && refusal
                    == Refusal::NoBody,
            },
    {
        assert(self@.callables[index as int] == self.callables@[index as int]@);
        match &self.callables[index].form {
            Some(form) => Ok(form.clone()),
            None => Err(Refusal::NoBody),
        }
    }

    /// The callable that a construction leads into.
    fn follow_construction(&self, current: usize, form: &Form) -> (next: Option<usize>)
        requires
            countable(self@),
            current < self@.callables.len(),
        ensures
            optional_number(next) == built_into(self@, current as int, form@),
            next is Some ==> next->0 < self@.callables.len()
                && self@.callables[next->0 as int].form is Some,
    {
        let callable = &self.callables[current];
        assert(self@.callables[current as int] == callable@);
        match constructed_type(form) {
            Some(built) => match resolve_self(built, optional_slice(&callable.container)) {
                Some(built) => self.principal_method(built, callable.source),
                None => None,
            },
            None => None,
        }
    }

    /// The callable that a delegation leads to.
    fn follow_delegation(&self, current: usize, form: &Form) -> (next: Option<usize>)
        requires
            current < self@.callables.len(),
        ensures
            optional_number(next) == delegated_to(self@, current as int, form@),
            next is Some ==> next->0 < self@.callables.len(),
    {
        let callable = &self.callables[current];
        assert(self@.callables[current as int] == callable@);
        match delegation_target(form) {
            Some(target) => self.resolve(
                target.as_str(),
                optional_slice(&callable.container),
                Some(current),
            ),
            None => None,
        }
    }

    /// Walks from a named callable to the body that describes what it does.
    ///
    /// `container` is what the caller's path qualified the name with, when it
    /// had one; it narrows an ambiguous name and is not required.
    pub fn derive(&self, name: &str, container: Option<&str>) -> (found: Result<Derived, Refusal>)
        requires
            countable(self@),
        ensures
            match found {
                Ok(found) => derived(self@, name@, slice_text(container)) == Ok::<
                    (Term, Seq<int>),
                    Refusal,
                >((found.form@, numbers(found.chain@))),
                Err(refusal) => derived(self@, name@, slice_text(container)) == Err::<
                    (Term, Seq<int>),
                    Refusal,
                >(refusal),
            },
    {
        let ghost library = self@;
        let mut current = match self.resolve(name, container, None) {
            Some(first) => first,
            None => {
                return Err(Refusal::NoImplementation);
            },
        };
        let mut chain: Vec<usize> = Vec::new();
        chain.push(current);
        let mut form = match self.form(current) {
            Ok(form) => form,
            Err(refusal) => {
                return Err(refusal);
            },
        };
        let mut inside_one_step = false;
        let ghost beginning = Walk {
            current: current as int,
            chain: seq![current as int],
            form: form@,
            inside_one_step: false,
        };
        assert(numbers(chain@) =~= seq![current as int]);
        let mut steps: usize = 0;
        let mut arrived = false;
        while steps < MAX_DELEGATION_DEPTH && !arrived
            invariant
                library == self@,
                countable(library),
                steps <= MAX_DELEGATION_DEPTH,
                current < library.callables.len(),
                term_size(form@) <= u32::MAX,
                walked(library, beginning, MAX_DELEGATION_DEPTH as nat) == walked(
                    library,
                    Walk {
                        current: current as int,
                        chain: numbers(chain@),
                        form: form@,
                        inside_one_step,
                    },
                    if arrived {
                        0
                    } else {
                        (MAX_DELEGATION_DEPTH - steps) as nat
                    },
                ),
                derived(library, name@, slice_text(container)) == (match walked(
                    library,
                    beginning,
                    MAX_DELEGATION_DEPTH as nat,
                ) {
                    Err(refusal) => Err::<(Term, Seq<int>), Refusal>(refusal),
                    Ok(walk) => {
                        let end = entered(library, walk);
                        let form = read_off(end);
                        if !term_comparable(form) {
                            Err(Refusal::NotComparable)
                        } else if term_depth(form) > MAXIMUM_FORM_DEPTH {
                            Err(Refusal::TooDeep(term_depth(form) as u32))
                        } else {
                            Ok((form, end.chain))
                        }
                    },
                }),
            decreases MAX_DELEGATION_DEPTH - steps,
        {
            if form.describes_work() {
                arrived = true;
            } else {
                let delegated = self.follow_delegation(current, &form);
                let next = if delegated.is_some() {
                    delegated
                } else {
                    let built = self.follow_construction(current, &form);
                    if built.is_some() {
                        inside_one_step = true;
                    }
                    built
                };
                match next {
                    Some(next) => {
                        let mut passed = false;
                        let mut k: usize = 0;
                        while k < chain.len()
                            invariant
                                k <= chain@.len(),
                                passed == exists|j: int|
                                    0 <= j < k && numbers(chain@)[j] == next as int,
                            decreases chain@.len() - k,
                        {
                            if chain[k] == next {
                                assert(numbers(chain@)[k as int] == next as int);
                                passed = true;
                            }
                            k += 1;
                        }
                        assert(passed == numbers(chain@).contains(next as int));
                        if passed {
                            arrived = true;
                        } else {
                            let ghost before = chain@;
                            chain.push(next);
                            assert(numbers(chain@) =~= numbers(before).push(next as int));
                            current = next;
                            match self.form(current) {
                                Ok(next_form) => {
                                    form = next_form;
                                },
                                Err(refusal) => {
                                    return Err(refusal);
                                },
                            }
                        }
                    },
                    None => {
                        arrived = true;
                    },
                }
            }
            steps += 1;
        }
        if !form.describes_work() {
            if let Some(implementing) = self.follow_construction(current, &form) {
                match self.form(implementing) {
                    Ok(next_form) => {
                        form = next_form;
                    },
                    Err(refusal) => {
                        return Err(refusal);
                    },
                }
                inside_one_step = true;
                let ghost before = chain@;
                chain.push(implementing);
                assert(numbers(chain@) =~= numbers(before).push(implementing as int));
            }
        }
        proof {
            law_lifting_is_no_deeper(form@);
            lemma_depth_within_size(form@);
        }
        if inside_one_step {
            if let Some(lifted_form) = form.lifted_from_one_step() {
                form = lifted_form;
            }
        }
        if !form.is_comparable() {
            return Err(Refusal::NotComparable);
        }
        let depth = form.depth();
        if depth > MAXIMUM_FORM_DEPTH {
            return Err(Refusal::TooDeep(depth));
        }
        Ok(Derived { form, chain })
    }
}

/// A wrapper is never its own implementation.
pub proof fn law_a_wrapper_is_not_its_own_implementation(
    library: LibraryView,
    current: int,
    form: Term,
)
    ensures
        delegated_to(library, current, form) != Some(current),
{
    if delegated_to(library, current, form) == Some(current) {
        let name = delegation(form)->0;
        let container = library.callables[current].container;
        let callables = library.callables;
        let within = if container is Some && sole_answer(
            callables,
            name,
            container,
            Some(current),
        ) is Some {
            container
        } else {
            None
        };
        assert(sole_answer(callables, name, within, Some(current)) == Some(current));
        assert(is_sole_answer(callables, current, name, within, Some(current)));
        assert(answers(callables, current, name, within, Some(current)));
    }
}

/// A name that two callables answer to resolves to nothing without a container.
pub proof fn law_an_ambiguous_name_resolves_to_nothing(
    library: LibraryView,
    name: Seq<char>,
    i: int,
    j: int,
)
    requires
        i != j,
        answers(library.callables, i, name, None, None),
        answers(library.callables, j, name, None, None),
    ensures
        derived(library, name, None) == Err::<(Term, Seq<int>), Refusal>(Refusal::NoImplementation),
{
    if sole_answer(library.callables, name, None, None) is Some {
        let k = choose|k: int| is_sole_answer(library.callables, k, name, None, None);
        assert(is_sole_answer(library.callables, k, name, None, None));
    }
}

/// A derived behavior is comparable and nests within bounds, and the chain that
/// led to it starts with the callable asked for.
pub proof fn law_derived_behaviors_are_comparable(
    library: LibraryView,
    name: Seq<char>,
    container: Option<Seq<char>>,
)
    requires
        derived(library, name, container) is Ok,
    ensures
        ({
            let (form, chain) = derived(library, name, container)->Ok_0;
            &&& term_comparable(form)
            &&& term_depth(form) <= MAXIMUM_FORM_DEPTH
            &&& chain.len() > 0
            &&& Some(chain[0]) == resolved(library.callables, name, container, None)
            &&& chain.len() <= MAX_DELEGATION_DEPTH + 2
        }),
{
    let first = resolved(library.callables, name, container, None)->0;
    let form = library.callables[first].form->0;
    let beginning = Walk { current: first, chain: seq![first], form, inside_one_step: false };
    lemma_walk_extends(library, beginning, MAX_DELEGATION_DEPTH as nat);
}

/// A walk only ever adds to its chain, one callable a step.
proof fn lemma_walk_extends(library: LibraryView, walk: Walk, steps: nat)
    requires
        walked(library, walk, steps) is Ok,
        walk.chain.len() > 0,
    ensures
        ({
            let end = walked(library, walk, steps)->Ok_0;
            &&& walk.chain.len() <= end.chain.len() <= walk.chain.len() + steps
            &&& end.chain[0] == walk.chain[0]
            &&& walk.chain.no_duplicates() ==> end.chain.no_duplicates()
        }),
    decreases steps,
{
    if steps > 0 && !term_works(walk.form) {
        let delegated = delegated_to(library, walk.current, walk.form);
        let built = built_into(library, walk.current, walk.form);
        let inside = walk.inside_one_step || (delegated is None && built is Some);
        let next = if delegated is Some {
            delegated
        } else {
            built
        };
        if next is Some && !walk.chain.contains(next->0) {
            lemma_walk_extends(
                library,
                Walk {
                    current: next->0,
                    chain: walk.chain.push(next->0),
                    form: library.callables[next->0].form->0,
                    inside_one_step: inside,
                },
                (steps - 1) as nat,
            );
        }
    }
}

/// A walk passes no callable twice.
pub proof fn law_a_walk_passes_nothing_twice(library: LibraryView, first: int, form: Term, steps: nat)
    requires
        walked(
            library,
            Walk { current: first, chain: seq![first], form, inside_one_step: false },
            steps,
        ) is Ok,
    ensures
        walked(
            library,
            Walk { current: first, chain: seq![first], form, inside_one_step: false },
            steps,
        )->Ok_0.chain.no_duplicates(),
{
    lemma_walk_extends(
        library,
        Walk { current: first, chain: seq![first], form, inside_one_step: false },
        steps,
    );
}

/// A name written behind `::` is the leaf of the path, where it holds no
/// separator itself.
pub proof fn law_the_leaf_is_what_follows_the_separator(prefix: Seq<char>, name: Seq<char>)
    requires
        !name.contains(':'),
    ensures
        leaf_of(prefix + seq![':', ':'] + name) == name,
        leaf_of(name) == name,
{
    let path = prefix + seq![':', ':'] + name;
    let i = prefix.len() as int;
    assert(separates_last(path, i)) by {
        assert forall|j: int| i < j < path.len() - 1 implies !(#[trigger] path[j] == ':' && path[j
            + 1] == ':') by {
            assert(path[j + 1] == name[j + 1 - i - 2]);
            assert(name.contains(name[j - 1 - i]));
        }
    }
    lemma_separates_last(path, i, choose|k: int| separates_last(path, k));
    assert(path.skip(i + 2) =~= name);
    assert forall|k: int| !separates_last(name, k) by {
        if separates_last(name, k) {
            assert(name.contains(name[k]));
        }
    }
}

} // verus!
