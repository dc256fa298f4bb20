//! Rewriting a form until no law applies.
//!
//! Applied to a fixpoint, the laws carry a library and its caller toward the
//! same shape. Besides them, two rewrites work on names:
//!
//! - **unfolding**: a name bound to a body is that body
//! - **generalization**: a name nothing in the form binds is a hole

use crate::lists::{extended, holds, lemma_extended, position_of};
use crate::normalize::form::{
    form_terms, lemma_part_smaller, pattern_terms, push_part, Form, Pattern, PatternTerm, Shape,
    Term,
};
use crate::normalize::laws::{
    arithmetic, binding_of, element_traversal, escaped, fused, optional_search, pairwise,
    plain_binding, recovered, returned_sequence, rewritten_term, searched, substituted, traversed,
};
use crate::normalize::measure::{free_names, mentions_local};
use crate::normalize::names::{bound_names, highest, leaf, unbound_names};
use vstd::prelude::*;

verus! {

/// How many times to sweep before giving up.
///
/// A fixpoint is normally reached in a few passes. The bound exists because
/// unfolding can in principle keep finding work.
pub const MAX_SWEEPS: u32 = 8;

/// How many calls one `simplify` may replace with the body they name.
///
/// A bound is necessary because unfolding can be made to run forever by code
/// that applies a function to itself.
pub const MAX_UNFOLDS: u32 = 64;

/// The lambda a step binds a name to.
pub open spec fn lambda_binding(step: Term) -> Option<(u32, Term)> {
    match step.shape {
        Shape::Let(pattern) => match binding_of(pattern) {
            Some(index) => if step.parts.len() == 1 && step.parts[0].shape is Lambda {
                Some((index, step.parts[0]))
            } else {
                None
            },
            None => None,
        },
        _ => None,
    }
}

/// The lambdas a block binds names to, in order.
pub open spec fn lambda_bindings(steps: Seq<Term>) -> Seq<(u32, Term)>
    decreases steps.len(),
{
    if steps.len() == 0 {
        Seq::empty()
    } else {
        let before = lambda_bindings(steps.drop_last());
        match lambda_binding(steps.last()) {
            Some(binding) => before.push(binding),
            None => before,
        }
    }
}

/// Whether a name is among some bindings.
pub open spec fn is_known(bindings: Seq<(u32, Term)>, index: u32) -> bool {
    exists|i: int| 0 <= i < bindings.len() && (#[trigger] bindings[i]).0 == index
}

/// Whether everything of a group that a body names is known to be safe.
pub open spec fn names_only_known(
    body: Term,
    bindings: Seq<(u32, Term)>,
    safe: Seq<(u32, Term)>,
) -> bool {
    forall|j: int|
        0 <= j < bindings.len() && mentions_local(body, (#[trigger] bindings[j]).0) ==> is_known(
            safe,
            bindings[j].0,
        )
}

/// Whether a binding is not known to be safe yet, and everything it names is.
pub open spec fn is_ready(
    bindings: Seq<(u32, Term)>,
    safe: Seq<(u32, Term)>,
    i: int,
) -> bool {
    !is_known(safe, bindings[i].0) && names_only_known(bindings[i].1, bindings, safe)
}

/// The first binding that is ready.
pub open spec fn first_ready(bindings: Seq<(u32, Term)>, safe: Seq<(u32, Term)>, i: int) -> Option<
    int,
>
    decreases bindings.len() - i,
{
    if i < 0 || i >= bindings.len() {
        None
    } else if is_ready(bindings, safe, i) {
        Some(i)
    } else {
        first_ready(bindings, safe, i + 1)
    }
}

/// The bindings found safe after some rounds, one more in each.
pub open spec fn safe_after(bindings: Seq<(u32, Term)>, rounds: nat) -> Seq<(u32, Term)>
    decreases rounds,
{
    if rounds == 0 {
        Seq::empty()
    } else {
        let safe = safe_after(bindings, (rounds - 1) as nat);
        match first_ready(bindings, safe, 0) {
            Some(i) => safe.push(bindings[i]),
            None => safe,
        }
    }
}

/// The bindings that can be unfolded without the unfolding going on forever.
///
/// A binding is safe when every group member its body names is itself safe,
/// which is a least fixed point over an acyclic subgraph.
pub open spec fn safe_bindings(bindings: Seq<(u32, Term)>) -> Seq<(u32, Term)> {
    safe_after(bindings, bindings.len())
}

/// What a name is bound to.
pub open spec fn lookup(bindings: Seq<(u32, Term)>, index: u32) -> Option<Term>
    decreases bindings.len(),
{
    if bindings.len() == 0 {
        None
    } else if bindings[0].0 == index {
        Some(bindings[0].1)
    } else {
        lookup(bindings.drop_first(), index)
    }
}

/// The parameters and the body of the lambda a term calls by name.
pub open spec fn called(term: Term, bindings: Seq<(u32, Term)>) -> Option<
    (Seq<PatternTerm>, Term),
> {
    match term.parts[0].shape {
        Shape::Local(index) => match lookup(bindings, index) {
            Some(lambda) => match lambda.shape {
                Shape::Lambda(parameters) => if term.shape is Call && term.parts.len() > 0
                    && lambda.parts.len() == 1 {
                    Some((parameters, lambda.parts[0]))
                } else {
                    None
                },
                _ => None,
            },
            None => None,
        },
        _ => None,
    }
}

/// A body with the first parameters replaced by their arguments, in turn.
pub open spec fn filled(
    body: Term,
    parameters: Seq<PatternTerm>,
    arguments: Seq<Term>,
    count: nat,
) -> Term
    decreases count,
{
    if count == 0 {
        body
    } else {
        let before = filled(body, parameters, arguments, (count - 1) as nat);
        match binding_of(parameters[count - 1]) {
            Some(bound) => substituted(before, bound, arguments[count - 1]),
            None => before,
        }
    }
}

/// How many parameters have an argument.
pub open spec fn paired(parameters: Seq<PatternTerm>, arguments: Seq<Term>) -> nat {
    if parameters.len() < arguments.len() {
        parameters.len()
    } else {
        arguments.len()
    }
}

/// A term with calls to bound lambdas replaced by their bodies, and the fuel
/// that is left. Each replacement burns one unit.
pub open spec fn applied(term: Term, bindings: Seq<(u32, Term)>, fuel: nat) -> (Term, nat)
    decreases fuel, term,
{
    if called(term, bindings) is Some && fuel > 0 {
        let (parameters, body) = called(term, bindings)->0;
        let arguments = term.parts.drop_first();
        applied(
            filled(body, parameters, arguments, paired(parameters, arguments)),
            bindings,
            (fuel - 1) as nat,
        )
    } else {
        let (parts, left) = each_applied(term.parts, bindings, fuel);
        (Term { shape: term.shape, parts }, left)
    }
}

/// Several terms with calls to bound lambdas replaced, one after the other.
pub open spec fn each_applied(terms: Seq<Term>, bindings: Seq<(u32, Term)>, fuel: nat) -> (
    Seq<Term>,
    nat,
)
    decreases fuel, terms,
{
    if terms.len() == 0 {
        (Seq::empty(), fuel)
    } else {
        let (before, left) = each_applied(terms.drop_last(), bindings, fuel);
        if left <= fuel {
            let (last, rest) = applied(terms.last(), bindings, left);
            (before.push(last), rest)
        } else {
            (before, left)
        }
    }
}

/// Whether anything but its own binding still refers to a name.
pub open spec fn is_used(steps: Seq<Term>, index: u32) -> bool {
    exists|i: int|
        0 <= i < steps.len() && !binds_plainly(#[trigger] steps[i], index) && mentions_local(
            steps[i],
            index,
        )
}

/// Whether a step is the binding of a name.
pub open spec fn binds_plainly(step: Term, index: u32) -> bool {
    step.shape matches Shape::Let(pattern) && binding_of(pattern) == Some(index)
}

/// Whether a step survives unfolding: a binding nothing refers to any more is
/// noise.
pub open spec fn survives(step: Term, safe: Seq<(u32, Term)>, steps: Seq<Term>) -> bool {
    match step.shape {
        Shape::Let(pattern) => match binding_of(pattern) {
            Some(index) => !is_known(safe, index) || is_used(steps, index),
            None => true,
        },
        _ => true,
    }
}

/// The steps that survive unfolding.
pub open spec fn surviving(steps: Seq<Term>, safe: Seq<(u32, Term)>) -> Seq<Term> {
    steps.filter(|step: Term| survives(step, safe, steps))
}

/// Steps as one term: the only step, or the block of them.
pub open spec fn block_term(steps: Seq<Term>) -> Term {
    if steps.len() == 1 {
        steps[0]
    } else {
        Term { shape: Shape::Sequence, parts: steps }
    }
}

/// A block whose calls to names bound to lambdas are replaced, where that
/// changes it, and the fuel that is left.
pub open spec fn unfolded(term: Term, fuel: nat) -> (Option<Term>, nat) {
    let safe = safe_bindings(lambda_bindings(term.parts));
    if term.shape is Sequence && safe.len() > 0 {
        let (steps, left) = each_applied(term.parts, safe, fuel);
        let block = block_term(surviving(steps, safe));
        (
            if block == term {
                None
            } else {
                Some(block)
            },
            left,
        )
    } else {
        (None, fuel)
    }
}

/// A term after the first law that applies to it, and the fuel that is left.
pub open spec fn rewritten(term: Term, fuel: nat) -> (Term, nat) {
    if fused(term) is Some {
        (fused(term)->0, fuel)
    } else if searched(term) is Some {
        (searched(term)->0, fuel)
    } else if returned_sequence(term) is Some {
        (returned_sequence(term)->0, fuel)
    } else if optional_search(term) is Some {
        (optional_search(term)->0, fuel)
    } else if escaped(term) is Some {
        (escaped(term)->0, fuel)
    } else if traversed(term) is Some {
        (traversed(term)->0, fuel)
    } else if arithmetic(term) is Some {
        (arithmetic(term)->0, fuel)
    } else if element_traversal(term) is Some {
        (element_traversal(term)->0, fuel)
    } else if pairwise(term) is Some {
        (pairwise(term)->0, fuel)
    } else if recovered(term) is Some {
        (recovered(term)->0, fuel)
    } else {
        let (block, left) = unfolded(term, fuel);
        match block {
            Some(block) => (block, left),
            None => (term, left),
        }
    }
}

/// One pass: the children rewritten, then the term itself.
pub open spec fn swept(term: Term, fuel: nat) -> (Term, nat)
    decreases term,
{
    let (parts, left) = each_swept(term.parts, fuel);
    rewritten(Term { shape: term.shape, parts }, left)
}

/// One pass over several terms, one after the other.
pub open spec fn each_swept(terms: Seq<Term>, fuel: nat) -> (Seq<Term>, nat)
    decreases terms,
{
    if terms.len() == 0 {
        (Seq::empty(), fuel)
    } else {
        let (before, left) = each_swept(terms.drop_last(), fuel);
        let (last, rest) = swept(terms.last(), left);
        (before.push(last), rest)
    }
}

/// A term swept until it no longer changes, a bounded number of times.
pub open spec fn reduced(term: Term, fuel: nat, sweeps: nat) -> Term
    decreases sweeps,
{
    if sweeps == 0 {
        term
    } else {
        let (next, left) = swept(term, fuel);
        if next == term {
            term
        } else {
            reduced(next, left, (sweeps - 1) as nat)
        }
    }
}

/// The first number no hole of a term uses.
pub open spec fn hole_limit(term: Term) -> nat {
    match highest(free_names(term)) {
        Some(index) => index as nat + 1,
        None => 0,
    }
}

/// The hole a name becomes: its place among the names that become holes, after
/// the holes already there.
pub open spec fn assigned(fresh: Seq<u32>, next: nat, index: u32) -> u32 {
    if fresh.contains(index) {
        (next + position_of(fresh, index)) as u32
    } else {
        index
    }
}

/// A term whose names not among `bound` are holes.
pub open spec fn opened(term: Term, bound: Seq<u32>, fresh: Seq<u32>, next: nat) -> Term
    decreases term,
{
    if term.shape matches Shape::Local(index) && !bound.contains(index) {
        leaf(Shape::Free(assigned(fresh, next, term.shape->Local_0)))
    } else {
        Term { shape: term.shape, parts: each_opened(term.parts, bound, fresh, next) }
    }
}

/// Several terms whose names not among `bound` are holes.
pub open spec fn each_opened(terms: Seq<Term>, bound: Seq<u32>, fresh: Seq<u32>, next: nat) -> Seq<Term>
    decreases terms,
{
    Seq::new(
        terms.len(),
        |i: int|
            if 0 <= i < terms.len() {
                opened(terms[i], bound, fresh, next)
            } else {
                arbitrary()
            },
    )
}

/// The names of a term that nothing in it binds, in order of appearance.
pub open spec fn fresh_names(term: Term) -> Seq<u32> {
    extended(Seq::empty(), unbound_names(term, bound_names(term)))
}

/// A term in which a name with no binder left stands for anything.
pub open spec fn generalized_term(term: Term) -> Term {
    opened(term, bound_names(term), fresh_names(term), hole_limit(term))
}

/// Whether the names a term leaves unbound have room among its holes.
pub open spec fn has_room(term: Term) -> bool {
    hole_limit(term) + fresh_names(term).len() <= u32::MAX
}

/// The bindings of an executable list, as terms.
pub open spec fn binding_terms(bindings: Seq<(u32, Form)>) -> Seq<(u32, Term)> {
    Seq::new(bindings.len(), |i: int| (bindings[i].0, bindings[i].1@))
}

/// Unfolding never makes fuel.
pub proof fn lemma_applied_fuel(term: Term, bindings: Seq<(u32, Term)>, fuel: nat)
    ensures
        applied(term, bindings, fuel).1 <= fuel,
    decreases fuel, term,
{
    if called(term, bindings) is Some && fuel > 0 {
        let (parameters, body) = called(term, bindings)->0;
        let arguments = term.parts.drop_first();
        lemma_applied_fuel(
            filled(body, parameters, arguments, paired(parameters, arguments)),
            bindings,
            (fuel - 1) as nat,
        );
    } else {
        assert(decreases_to!(term => term.parts));
        lemma_each_applied_fuel(term.parts, bindings, fuel);
    }
}

/// Unfolding several terms never makes fuel, and keeps how many there are.
pub proof fn lemma_each_applied_fuel(terms: Seq<Term>, bindings: Seq<(u32, Term)>, fuel: nat)
    ensures
        each_applied(terms, bindings, fuel).1 <= fuel,
        each_applied(terms, bindings, fuel).0.len() == terms.len(),
    decreases fuel, terms,
{
    if terms.len() > 0 {
        lemma_each_applied_fuel(terms.drop_last(), bindings, fuel);
        let (before, left) = each_applied(terms.drop_last(), bindings, fuel);
        lemma_applied_fuel(terms.last(), bindings, left);
    }
}

/// Whether a name is among some bindings.
fn known(bindings: &Vec<(u32, Form)>, index: u32) -> (known: bool)
    ensures
        known == is_known(binding_terms(bindings@), index),
{
    let ghost terms = binding_terms(bindings@);
    for i in 0..bindings.len()
        invariant
            terms == binding_terms(bindings@),
            forall|j: int| 0 <= j < i ==> (#[trigger] terms[j]).0 != index,
    {
        if bindings[i].0 == index {
            assert(terms[i as int].0 == index);
            return true;
        }
    }
    false
}

/// Whether everything of a group that a body names is known to be safe.
fn names_only(
    body: &Form,
    bindings: &Vec<(u32, Form)>,
    safe: &Vec<(u32, Form)>,
) -> (only: bool)
    ensures
        only == names_only_known(body@, binding_terms(bindings@), binding_terms(safe@)),
{
    let ghost terms = binding_terms(bindings@);
    for j in 0..bindings.len()
        invariant
            terms == binding_terms(bindings@),
            forall|k: int|
                0 <= k < j && mentions_local(body@, (#[trigger] terms[k]).0) ==> is_known(
                    binding_terms(safe@),
                    terms[k].0,
                ),
    {
        assert(terms[j as int].0 == bindings@[j as int].0);
        if body.references_local(bindings[j].0) && !known(safe, bindings[j].0) {
            return false;
        }
    }
    true
}

/// The bindings that can be unfolded without the unfolding going on forever.
///
/// Replacing a call with the body it calls does not terminate when the body
/// calls back. A binding that names itself is never safe, because it is never
/// in the set being tested against.
fn unfoldable(bindings: &Vec<(u32, Form)>) -> (safe: Vec<(u32, Form)>)
    ensures
        binding_terms(safe@) == safe_bindings(binding_terms(bindings@)),
{
    let ghost terms = binding_terms(bindings@);
    let mut safe: Vec<(u32, Form)> = Vec::new();
    assert(binding_terms(safe@) =~= safe_after(terms, 0));
    for round in 0..bindings.len()
        invariant
            terms == binding_terms(bindings@),
            binding_terms(safe@) == safe_after(terms, round as nat),
    {
        let ghost before = binding_terms(safe@);
        let mut i: usize = 0;
        while i < bindings.len() && (known(&safe, bindings[i].0) || !names_only(
            &bindings[i].1,
            bindings,
            &safe,
        ))
            invariant
                i <= bindings@.len(),
                terms == binding_terms(bindings@),
                before == binding_terms(safe@),
                first_ready(terms, before, 0) == first_ready(terms, before, i as int),
            decreases bindings@.len() - i,
        {
            assert(terms[i as int] == (bindings@[i as int].0, bindings@[i as int].1@));
            i += 1;
        }
        if i < bindings.len() {
            let ghost list = safe@;
            assert(terms[i as int] == (bindings@[i as int].0, bindings@[i as int].1@));
            safe.push((bindings[i].0, bindings[i].1.clone()));
            assert(binding_terms(safe@) =~= before.push(terms[i as int]));
        }
    }
    safe
}

impl Form {
    /// The same form with the names `bound` does not hold made holes.
    fn with_free(&self, bound: &Vec<u32>, fresh: &Vec<u32>, next: u32) -> (rewritten: Form)
        requires
            fresh@.no_duplicates(),
            next + fresh@.len() <= u32::MAX,
        ensures
            rewritten@ == opened(self@, bound@, fresh@, next as nat),
        decreases self@,
    {
        if let Form::Local(index) = self {
            if !holds(bound, *index) {
                return Form::Free(assigned_hole(fresh, next, *index));
            }
        }
        let ghost each = each_opened(self@.parts, bound@, fresh@, next as nat);
        let children = self.children();
        let mut parts: Vec<Form> = Vec::new();
        assert(form_terms(parts@) =~= each.take(0));
        for i in 0..children.len()
            invariant
                each == each_opened(self@.parts, bound@, fresh@, next as nat),
                fresh@.no_duplicates(),
                next + fresh@.len() <= u32::MAX,
                each.len() == self@.parts.len(),
                children@.len() == self@.parts.len(),
                forall|i: int|
                    0 <= i < children@.len() ==> (#[trigger] children@[i])@ == self@.parts[i],
                form_terms(parts@) == each.take(i as int),
        {
            proof {
                lemma_part_smaller(self@, i as int);
            }
            let part = children[i].with_free(bound, fresh, next);
            push_part(&mut parts, part, Ghost(each), Ghost(i as int));
        }
        assert(each.take(children@.len() as int) =~= each);
        assert(form_terms(parts@).len() == parts@.len());
        self.with_children(parts)
    }

    /// A name with no binder left in the form stands for anything.
    ///
    /// Unfolding consumes binders. What remains is not a variable of this form
    /// but a parameter of it, which is what a hole is.
    fn generalized(&self) -> (general: Form)
        requires
            has_room(self@),
        ensures
            general@ == generalized_term(self@),
    {
        let mut bound: Vec<u32> = Vec::new();
        self.collect_bindings(&mut bound);
        assert(bound@ =~= bound_names(self@));
        let mut fresh: Vec<u32> = Vec::new();
        self.collect_unbound(&bound, &mut fresh);
        proof {
            lemma_extended(Seq::<u32>::empty(), unbound_names(self@, bound@));
        }
        // holes and names are numbered separately, so a name promoted to a hole
        // needs a number no hole is already using
        let next: u32 = match self.highest_hole() {
            Some(highest) => highest + 1,
            None => 0,
        };
        self.with_free(&bound, &fresh, next)
    }

    /// Replace calls to bound lambdas with their bodies, as far as the fuel
    /// lasts.
    fn apply_bindings(&self, bindings: &Vec<(u32, Form)>, fuel: &mut u32) -> (rewritten: Form)
        ensures
            (rewritten@, *final(fuel) as nat) == applied(
                self@,
                binding_terms(bindings@),
                *old(fuel) as nat,
            ),
        decreases *old(fuel), self@,
    {
        let ghost terms = binding_terms(bindings@);
        let ghost before = *fuel as nat;
        proof {
            lemma_applied_fuel(self@, terms, before);
        }
        if let Form::Call { callee, arguments } = self {
            assert(self@.parts[0] == callee@);
            assert(self@.parts.drop_first() =~= form_terms(arguments@));
            if let Form::Local(index) = &**callee {
                if let Some((parameters, body)) = bound_lambda(bindings, *index) {
                    if *fuel > 0 {
                        *fuel = *fuel - 1;
                        let filled = fill(body, parameters, arguments);
                        return filled.apply_bindings(bindings, fuel);
                    }
                }
            }
        }
        let children = self.children();
        let mut parts: Vec<Form> = Vec::new();
        assert(form_terms(parts@) =~= Seq::empty());
        assert(self@.parts.take(0) =~= Seq::empty());
        for i in 0..children.len()
            invariant
                terms == binding_terms(bindings@),
                before == *old(fuel) as nat,
                *fuel <= *old(fuel),
                children@.len() == self@.parts.len(),
                forall|i: int|
                    0 <= i < children@.len() ==> (#[trigger] children@[i])@ == self@.parts[i],
                (form_terms(parts@), *fuel as nat) == each_applied(
                    self@.parts.take(i as int),
                    terms,
                    before,
                ),
        {
            let ghost list = parts@;
            let ghost left = *fuel as nat;
            proof {
                lemma_part_smaller(self@, i as int);
                lemma_applied_fuel(self@.parts[i as int], terms, left);
                assert(self@.parts.take(i + 1).drop_last() =~= self@.parts.take(i as int));
                assert(self@.parts.take(i + 1).last() == self@.parts[i as int]);
            }
            let part = children[i].apply_bindings(bindings, fuel);
            parts.push(part);
            assert(form_terms(parts@) =~= form_terms(list).push(part@));
        }
        proof {
            assert(self@.parts.take(children@.len() as int) =~= self@.parts);
            lemma_each_applied_fuel(self@.parts, terms, before);
            assert(form_terms(parts@).len() == parts@.len());
        }
        self.with_children(parts)
    }
}

/// The parameters and body of the lambda a name is bound to.
fn bound_lambda<'a>(bindings: &'a Vec<(u32, Form)>, index: u32) -> (found: Option<
    (&'a Vec<Pattern>, &'a Form),
>)
    ensures
        match found {
            Some((parameters, body)) => match lookup(binding_terms(bindings@), index) {
                Some(lambda) => lambda.shape == Shape::Lambda(pattern_terms(parameters@))
                    && lambda.parts == seq![body@],
                None => false,
            },
            None => match lookup(binding_terms(bindings@), index) {
                Some(lambda) => lambda.shape !is Lambda,
                None => true,
            },
        },
{
    let ghost terms = binding_terms(bindings@);
    assert(terms.skip(0) =~= terms);
    for i in 0..bindings.len()
        invariant
            terms == binding_terms(bindings@),
            lookup(terms, index) == lookup(terms.skip(i as int), index),
    {
        proof {
            assert(terms.skip(i as int).drop_first() =~= terms.skip(i + 1));
            assert(terms.skip(i as int)[0] == (bindings@[i as int].0, bindings@[i as int].1@));
        }
        if bindings[i].0 == index {
            return match &bindings[i].1 {
                Form::Lambda { parameters, body } => Some((parameters, &**body)),
                _ => None,
            };
        }
    }
    None
}

/// A body with its parameters replaced by their arguments, in turn.
fn fill(body: &Form, parameters: &Vec<Pattern>, arguments: &Vec<Form>) -> (filled_body: Form)
    ensures
        filled_body@ == filled(
            body@,
            pattern_terms(parameters@),
            form_terms(arguments@),
            paired(pattern_terms(parameters@), form_terms(arguments@)),
        ),
{
    let ghost patterns = pattern_terms(parameters@);
    let ghost values = form_terms(arguments@);
    let count: usize = if parameters.len() < arguments.len() {
        parameters.len()
    } else {
        arguments.len()
    };
    let mut result = body.clone();
    for i in 0..count
        invariant
            count <= parameters@.len(),
            count <= arguments@.len(),
            patterns == pattern_terms(parameters@),
            values == form_terms(arguments@),
            result@ == filled(body@, patterns, values, i as nat),
    {
        proof {
            assert(patterns[i as int] == parameters@[i as int]@);
            assert(values[i as int] == arguments@[i as int]@);
        }
        if let Some(bound) = plain_binding(&parameters[i]) {
            result = result.substitute(bound, &arguments[i]);
        }
    }
    result
}

/// The hole a name becomes.
fn assigned_hole(fresh: &Vec<u32>, next: u32, index: u32) -> (hole: u32)
    requires
        fresh@.no_duplicates(),
        next + fresh@.len() <= u32::MAX,
    ensures
        hole == assigned(fresh@, next as nat, index),
{
    for i in 0..fresh.len()
        invariant
            fresh@.no_duplicates(),
            next + fresh@.len() <= u32::MAX,
            forall|j: int| 0 <= j < i ==> fresh@[j] != index,
    {
        if fresh[i] == index {
            assert(fresh@[i as int] == index);
            assert(position_of(fresh@, index) == i as int);
            return next + i as u32;
        }
    }
    index
}

/// Whether anything but its own binding still refers to a name.
fn used(steps: &Vec<Form>, index: u32) -> (used: bool)
    ensures
        used == is_used(form_terms(steps@), index),
{
    let ghost terms = form_terms(steps@);
    for i in 0..steps.len()
        invariant
            terms == form_terms(steps@),
            forall|j: int|
                0 <= j < i ==> binds_plainly(#[trigger] terms[j], index) || !mentions_local(
                    terms[j],
                    index,
                ),
    {
        assert(terms[i as int] == steps@[i as int]@);
        let own = match &steps[i] {
            Form::Let { pattern, .. } => match plain_binding(pattern) {
                Some(bound) => bound == index,
                None => false,
            },
            _ => false,
        };
        if !own && steps[i].references_local(index) {
            return true;
        }
    }
    false
}

/// The steps that survive unfolding.
fn survivors(steps: &Vec<Form>, safe: &Vec<(u32, Form)>) -> (kept: Vec<Form>)
    ensures
        form_terms(kept@) == surviving(form_terms(steps@), binding_terms(safe@)),
{
    let ghost terms = form_terms(steps@);
    let ghost keeps = |step: Term| survives(step, binding_terms(safe@), terms);
    let mut kept: Vec<Form> = Vec::new();
    assert(form_terms(kept@) =~= terms.take(0).filter(keeps)) by {
        reveal(Seq::filter);
    }
    for i in 0..steps.len()
        invariant
            terms == form_terms(steps@),
            keeps == (|step: Term| survives(step, binding_terms(safe@), terms)),
            form_terms(kept@) == terms.take(i as int).filter(keeps),
    {
        let ghost list = kept@;
        proof {
            assert(terms[i as int] == steps@[i as int]@);
            reveal(Seq::filter);
            assert(terms.take(i + 1).drop_last() =~= terms.take(i as int));
            assert(terms.take(i + 1).last() == terms[i as int]);
        }
        let keep = match &steps[i] {
            Form::Let { pattern, .. } => match plain_binding(pattern) {
                Some(index) => !known(safe, index) || used(steps, index),
                None => true,
            },
            _ => true,
        };
        if keep {
            let step = steps[i].clone();
            kept.push(step);
            assert(form_terms(kept@) =~= form_terms(list).push(step@));
        }
    }
    assert(terms.take(steps@.len() as int) =~= terms);
    kept
}

impl Form {
    /// A call to a name bound to a lambda is that lambda's body.
    fn as_unfolded(&self, fuel: &mut u32) -> (rewritten: Option<Form>)
        ensures
            (rewritten_term(rewritten), *final(fuel) as nat) == unfolded(
                self@,
                *old(fuel) as nat,
            ),
    {
        let ghost before = *fuel as nat;
        let steps = match self {
            Form::Sequence(steps) => steps,
            _ => {
                return None;
            },
        };
        let ghost terms = form_terms(steps@);
        assert(self@.parts == terms);
        let mut bindings: Vec<(u32, Form)> = Vec::new();
        assert(binding_terms(bindings@) =~= lambda_bindings(terms.take(0)));
        for i in 0..steps.len()
            invariant
                terms == form_terms(steps@),
                binding_terms(bindings@) == lambda_bindings(terms.take(i as int)),
        {
            let ghost list = bindings@;
            proof {
                assert(terms[i as int] == steps@[i as int]@);
                assert(terms.take(i + 1).drop_last() =~= terms.take(i as int));
                assert(terms.take(i + 1).last() == terms[i as int]);
            }
            if let Form::Let { pattern, value } = &steps[i] {
                assert(terms[i as int].parts[0] == value@);
                if let Some(index) = plain_binding(pattern) {
                    if let Form::Lambda { .. } = &**value {
                        let lambda = (**value).clone();
                        bindings.push((index, lambda));
                        assert(binding_terms(bindings@) =~= binding_terms(list).push(
                            (index, value@),
                        ));
                    }
                }
            }
        }
        assert(terms.take(steps@.len() as int) =~= terms);
        let safe = unfoldable(&bindings);
        assert(binding_terms(safe@).len() == safe@.len());
        if safe.len() == 0 {
            return None;
        }
        let mut rewritten: Vec<Form> = Vec::new();
        assert(form_terms(rewritten@) =~= Seq::empty());
        assert(terms.take(0) =~= Seq::empty());
        for i in 0..steps.len()
            invariant
                terms == form_terms(steps@),
                *fuel as nat <= before,
                (form_terms(rewritten@), *fuel as nat) == each_applied(
                    terms.take(i as int),
                    binding_terms(safe@),
                    before,
                ),
        {
            let ghost list = rewritten@;
            proof {
                lemma_applied_fuel(terms[i as int], binding_terms(safe@), *fuel as nat);
                assert(terms[i as int] == steps@[i as int]@);
                assert(terms.take(i + 1).drop_last() =~= terms.take(i as int));
                assert(terms.take(i + 1).last() == terms[i as int]);
            }
            let step = steps[i].apply_bindings(&safe, fuel);
            rewritten.push(step);
            assert(form_terms(rewritten@) =~= form_terms(list).push(step@));
        }
        let kept = survivors(&rewritten, &safe);
        let ghost kept_terms = form_terms(kept@);
        assert(kept_terms.len() == kept@.len());
        let block = if kept.len() == 1 {
            assert(kept_terms[0] == kept@[0]@);
            kept[0].clone()
        } else {
            Form::Sequence(kept)
        };
        assert(block@ == block_term(kept_terms));
        if block == *self {
            None
        } else {
            Some(block)
        }
    }

    /// This form after the first law that applies to it.
    fn rewritten(self, fuel: &mut u32) -> (result: Form)
        ensures
            (result@, *final(fuel) as nat) == rewritten(self@, *old(fuel) as nat),
    {
        if let Some(form) = self.as_fused() {
            return form;
        }
        if let Some(form) = self.as_searched() {
            return form;
        }
        if let Some(form) = self.as_returned_sequence() {
            return form;
        }
        if let Some(form) = self.as_optional_search() {
            return form;
        }
        if let Some(form) = self.as_escape() {
            return form;
        }
        if let Some(form) = self.as_traversal() {
            return form;
        }
        if let Some(form) = self.as_canonical_arithmetic() {
            return form;
        }
        if let Some(form) = self.as_element_traversal() {
            return form;
        }
        if let Some(form) = self.as_pairwise() {
            return form;
        }
        if let Some(form) = self.as_recovered_escape() {
            return form;
        }
        match self.as_unfolded(fuel) {
            Some(form) => form,
            None => self,
        }
    }

    /// One pass: rewrite the children, then this node.
    fn sweep(&self, fuel: &mut u32) -> (result: Form)
        ensures
            (result@, *final(fuel) as nat) == swept(self@, *old(fuel) as nat),
        decreases self@,
    {
        let ghost before = *fuel as nat;
        let children = self.children();
        let mut parts: Vec<Form> = Vec::new();
        assert(form_terms(parts@) =~= Seq::empty());
        assert(self@.parts.take(0) =~= Seq::empty());
        for i in 0..children.len()
            invariant
                children@.len() == self@.parts.len(),
                forall|i: int|
                    0 <= i < children@.len() ==> (#[trigger] children@[i])@ == self@.parts[i],
                parts@.len() == i,
                (form_terms(parts@), *fuel as nat) == each_swept(
                    self@.parts.take(i as int),
                    before,
                ),
        {
            let ghost list = parts@;
            proof {
                lemma_part_smaller(self@, i as int);
                assert(self@.parts.take(i + 1).drop_last() =~= self@.parts.take(i as int));
                assert(self@.parts.take(i + 1).last() == self@.parts[i as int]);
            }
            let part = children[i].sweep(fuel);
            parts.push(part);
            assert(form_terms(parts@) =~= form_terms(list).push(part@));
        }
        assert(self@.parts.take(children@.len() as int) =~= self@.parts);
        self.with_children(parts).rewritten(fuel)
    }

    /// Rewrite until no law applies.
    pub fn simplify(&self) -> (simplified: Form)
        requires
            has_room(reduced(self@, MAX_UNFOLDS as nat, MAX_SWEEPS as nat)),
        ensures
            simplified@ == generalized_term(
                reduced(self@, MAX_UNFOLDS as nat, MAX_SWEEPS as nat),
            ),
    {
        // The fuel spans the whole call rather than one pass, so that a form
        // that applies itself cannot unfold deeper with every sweep.
        let mut fuel: u32 = MAX_UNFOLDS;
        let mut current = self.clone();
        let mut sweeps: u32 = MAX_SWEEPS;
        while sweeps > 0
            invariant
                sweeps <= MAX_SWEEPS,
                has_room(reduced(self@, MAX_UNFOLDS as nat, MAX_SWEEPS as nat)),
                reduced(self@, MAX_UNFOLDS as nat, MAX_SWEEPS as nat) == reduced(
                    current@,
                    fuel as nat,
                    sweeps as nat,
                ),
            decreases sweeps,
        {
            let next = current.sweep(&mut fuel);
            if next == current {
                return current.generalized();
            }
            current = next;
            sweeps -= 1;
        }
        current.generalized()
    }
}

} // verus!
