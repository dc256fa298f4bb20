//! Assigning roles to names as a language normalizer walks a body.

use crate::normalize::form::{Form, Shape, Term};
use crate::normalize::names::leaf;
use crate::text::same_text;
use vstd::prelude::*;

verus! {

/// Assigns normalized roles to names as a language normalizer walks a body.
///
/// A name bound by the code becomes a local, numbered by binding order.
/// Anything else is free, numbered by first appearance.
#[derive(Debug)]
pub struct Roles {
    roles: Vec<(String, Form)>,
    /// Names that hold values supplied from outside the body.
    values: Vec<String>,
    /// Every role assigned, with the identifier it was assigned to.
    ///
    /// Nothing in matching may consult this: which identifier an author chose
    /// is not behavior. Shadowing appends rather than replaces, because a role
    /// that was displaced still names what it named.
    ledger: Vec<(Form, String)>,
    locals: u32,
    frees: u32,
}

/// The roles assigned so far.
#[verifier::ext_equal]
pub struct Assigned {
    /// What each name in scope stands for.
    pub roles: Seq<(Seq<char>, Term)>,
    /// The names that hold values supplied from outside the body.
    pub values: Seq<Seq<char>>,
    /// Every role ever assigned, with the name it was assigned to.
    pub ledger: Seq<(Term, Seq<char>)>,
    /// How many locals were numbered.
    pub locals: nat,
    /// How many free names were numbered.
    pub frees: nat,
}

/// Roles by name, as terms.
pub open spec fn role_terms(roles: Seq<(String, Form)>) -> Seq<(Seq<char>, Term)> {
    Seq::new(roles.len(), |i: int| (roles[i].0@, roles[i].1@))
}

/// A ledger, as terms.
pub open spec fn ledger_terms(ledger: Seq<(Form, String)>) -> Seq<(Term, Seq<char>)> {
    Seq::new(ledger.len(), |i: int| (ledger[i].0@, ledger[i].1@))
}

/// Names, as texts.
pub open spec fn name_texts(names: Seq<String>) -> Seq<Seq<char>> {
    Seq::new(names.len(), |i: int| names[i]@)
}

/// What a name stands for.
pub open spec fn role_of(roles: Seq<(Seq<char>, Term)>, name: Seq<char>) -> Option<Term>
    decreases roles.len(),
{
    if roles.len() == 0 {
        None
    } else if roles.last().0 == name {
        Some(roles.last().1)
    } else {
        role_of(roles.drop_last(), name)
    }
}

/// Roles without those of a name.
pub open spec fn without(roles: Seq<(Seq<char>, Term)>, name: Seq<char>) -> Seq<(Seq<char>, Term)> {
    roles.filter(|role: (Seq<char>, Term)| role.0 != name)
}

/// Whether a role is a local numbered already, or a hole numbered already.
pub open spec fn is_numbered(term: Term, locals: nat, frees: nat) -> bool {
    match term.shape {
        Shape::Local(index) => term == leaf(Shape::Local(index)) && index < locals,
        Shape::Free(index) => term == leaf(Shape::Free(index)) && index < frees,
        _ => false,
    }
}

impl Assigned {
    /// Whether every name in scope has one role, every role was numbered, and
    /// the ledger numbers no two names alike.
    pub open spec fn is_consistent(self) -> bool {
        &&& forall|i: int, j: int|
            0 <= i < j < self.roles.len() ==> (#[trigger] self.roles[i]).0 != (
            #[trigger] self.roles[j]).0
        &&& forall|i: int|
            0 <= i < self.roles.len() ==> is_numbered(
                (#[trigger] self.roles[i]).1,
                self.locals,
                self.frees,
            )
        &&& forall|i: int|
            0 <= i < self.ledger.len() ==> is_numbered(
                (#[trigger] self.ledger[i]).0,
                self.locals,
                self.frees,
            )
        &&& forall|i: int, j: int|
            0 <= i < j < self.ledger.len() ==> (#[trigger] self.ledger[i]).0 != (
            #[trigger] self.ledger[j]).0
    }

    /// The roles after a name was bound.
    pub open spec fn bound(self, name: Seq<char>) -> Assigned {
        let local = leaf(Shape::Local(self.locals as u32));
        Assigned {
            roles: without(self.roles, name).push((name, local)),
            ledger: self.ledger.push((local, name)),
            locals: self.locals + 1,
            ..self
        }
    }

    /// The roles after a name was resolved.
    pub open spec fn resolved(self, name: Seq<char>) -> Assigned {
        let free = leaf(Shape::Free(self.frees as u32));
        if role_of(self.roles, name) is Some {
            self
        } else {
            Assigned {
                roles: self.roles.push((name, free)),
                ledger: self.ledger.push((free, name)),
                frees: self.frees + 1,
                ..self
            }
        }
    }

    /// The roles after a binding that the source did not name.
    pub open spec fn anonymous(self) -> Assigned {
        Assigned { locals: self.locals + 1, ..self }
    }

    /// Whether a local was numbered, and no name ever stood for it.
    pub open spec fn is_nobodys(self, number: u32) -> bool {
        &&& number < self.locals
        &&& forall|i: int|
            0 <= i < self.roles.len() ==> (#[trigger] self.roles[i]).1 != leaf(
                Shape::Local(number),
            )
        &&& forall|i: int|
            0 <= i < self.ledger.len() ==> (#[trigger] self.ledger[i]).0 != leaf(
                Shape::Local(number),
            )
    }

    /// Whether a name holds a value here.
    pub open spec fn holds_value(self, name: Seq<char>) -> bool {
        self.values.contains(name) || exists|i: int|
            0 <= i < self.roles.len() && (#[trigger] self.roles[i]).0 == name
                && self.roles[i].1.shape is Local
    }
}

impl View for Roles {
    type V = Assigned;

    closed spec fn view(&self) -> Assigned {
        Assigned {
            roles: role_terms(self.roles@),
            values: name_texts(self.values@),
            ledger: ledger_terms(self.ledger@),
            locals: self.locals as nat,
            frees: self.frees as nat,
        }
    }
}

/// Filtering keeps nothing that was not there, in the order it stood.
proof fn lemma_without(roles: Seq<(Seq<char>, Term)>, name: Seq<char>)
    ensures
        forall|i: int|
            0 <= i < without(roles, name).len() ==> (#[trigger] without(roles, name)[i]).0 != name
                && exists|j: int| 0 <= j < roles.len() && roles[j] == without(roles, name)[i],
        (forall|i: int, j: int|
            0 <= i < j < roles.len() ==> (#[trigger] roles[i]).0 != (#[trigger] roles[j]).0) ==> (
        forall|i: int, j: int|
            0 <= i < j < without(roles, name).len() ==> (#[trigger] without(roles, name)[i]).0 != (
            #[trigger] without(roles, name)[j]).0),
    decreases roles.len(),
{
    reveal(Seq::filter);
    if roles.len() > 0 {
        let few = roles.drop_last();
        lemma_without(few, name);
        let kept = without(few, name);
        let all = without(roles, name);
        assert(all == if roles.last().0 != name {
            kept.push(roles.last())
        } else {
            kept
        });
        assert forall|i: int| 0 <= i < all.len() implies (#[trigger] all[i]).0 != name && exists|
            j: int,
        | 0 <= j < roles.len() && roles[j] == all[i] by {
            if i < kept.len() {
                assert(kept[i] == all[i]);
                let j = choose|j: int| 0 <= j < few.len() && few[j] == kept[i];
                assert(roles[j] == all[i]);
            } else {
                assert(roles[roles.len() - 1] == all[i]);
            }
        }
        if forall|i: int, j: int|
            0 <= i < j < roles.len() ==> (#[trigger] roles[i]).0 != (#[trigger] roles[j]).0 {
            assert forall|i: int, j: int| 0 <= i < j < few.len() implies (#[trigger] few[i]).0 != (
            #[trigger] few[j]).0 by {
                assert(roles[i] == few[i] && roles[j] == few[j]);
            }
            assert forall|i: int, j: int| 0 <= i < j < all.len() implies (#[trigger] all[i]).0 != (
            #[trigger] all[j]).0 by {
                assert(kept[i] == all[i]);
                if j < kept.len() {
                    assert(kept[j] == all[j]);
                } else {
                    let k = choose|k: int| 0 <= k < few.len() && few[k] == kept[i];
                    assert(roles[k] == all[i]);
                    assert(roles[roles.len() - 1] == all[j]);
                }
            }
        }
    }
}

/// A name has a role exactly when it is among those with one.
proof fn lemma_role_of(roles: Seq<(Seq<char>, Term)>, name: Seq<char>)
    ensures
        match role_of(roles, name) {
            Some(term) => exists|i: int| 0 <= i < roles.len() && roles[i] == (name, term),
            None => forall|i: int| 0 <= i < roles.len() ==> (#[trigger] roles[i]).0 != name,
        },
    decreases roles.len(),
{
    if roles.len() > 0 {
        if roles.last().0 == name {
            assert(roles[roles.len() - 1] == (name, roles.last().1));
        } else {
            lemma_role_of(roles.drop_last(), name);
            match role_of(roles.drop_last(), name) {
                Some(term) => {
                    let i = choose|i: int|
                        0 <= i < roles.drop_last().len() && roles.drop_last()[i] == (name, term);
                    assert(roles[i] == (name, term));
                },
                None => {
                    assert forall|i: int| 0 <= i < roles.len() implies (#[trigger] roles[i]).0
                        != name by {
                        if i < roles.len() - 1 {
                            assert(roles.drop_last()[i] == roles[i]);
                        }
                    }
                },
            }
        }
    }
}

/// Binding a name keeps roles consistent, and from then on the name stands for
/// a local that no name stood for before.
pub proof fn law_binding_numbers_afresh(assigned: Assigned, name: Seq<char>)
    requires
        assigned.is_consistent(),
        assigned.locals <= u32::MAX,
    ensures
        assigned.bound(name).is_consistent(),
        role_of(assigned.bound(name).roles, name) == Some(
            leaf(Shape::Local(assigned.locals as u32)),
        ),
        forall|i: int|
            0 <= i < assigned.ledger.len() ==> (#[trigger] assigned.ledger[i]).0 != leaf(
                Shape::Local(assigned.locals as u32),
            ),
{
    lemma_without(assigned.roles, name);
    let after = assigned.bound(name);
    let kept = without(assigned.roles, name);
    assert(after.roles.drop_last() =~= kept);
    assert forall|i: int, j: int| 0 <= i < j < after.roles.len() implies (#[trigger]
    after.roles[i]).0 != (#[trigger] after.roles[j]).0 by {
        assert(after.roles[i] == kept[i]);
        if j < kept.len() {
            assert(after.roles[j] == kept[j]);
        }
    }
    assert forall|i: int| 0 <= i < after.roles.len() implies is_numbered(
        (#[trigger] after.roles[i]).1,
        after.locals,
        after.frees,
    ) by {
        if i < kept.len() {
            assert(after.roles[i] == kept[i]);
            let j = choose|j: int| 0 <= j < assigned.roles.len() && assigned.roles[j] == kept[i];
            assert(is_numbered(assigned.roles[j].1, assigned.locals, assigned.frees));
        }
    }
    assert forall|i: int| 0 <= i < after.ledger.len() implies is_numbered(
        (#[trigger] after.ledger[i]).0,
        after.locals,
        after.frees,
    ) by {
        if i < assigned.ledger.len() {
            assert(after.ledger[i] == assigned.ledger[i]);
        }
    }
    assert forall|i: int| 0 <= i < assigned.ledger.len() implies (#[trigger] assigned.ledger[i]).0
        != leaf(Shape::Local(assigned.locals as u32)) by {
        assert(is_numbered(assigned.ledger[i].0, assigned.locals, assigned.frees));
    }
    assert forall|i: int, j: int| 0 <= i < j < after.ledger.len() implies (#[trigger]
    after.ledger[i]).0 != (#[trigger] after.ledger[j]).0 by {
        assert(after.ledger[i] == assigned.ledger[i]);
        if j < assigned.ledger.len() {
            assert(after.ledger[j] == assigned.ledger[j]);
        }
    }
}

/// Resolving a name keeps roles consistent, gives the name a role, and leaves
/// the role of every name that had one.
pub proof fn law_resolving_is_stable(assigned: Assigned, name: Seq<char>, other: Seq<char>)
    requires
        assigned.is_consistent(),
        assigned.frees <= u32::MAX,
    ensures
        assigned.resolved(name).is_consistent(),
        role_of(assigned.resolved(name).roles, name) is Some,
        role_of(assigned.roles, other) is Some ==> role_of(
            assigned.resolved(name).roles,
            other,
        ) == role_of(assigned.roles, other),
        assigned.resolved(name).resolved(name) == assigned.resolved(name),
{
    lemma_role_of(assigned.roles, name);
    let after = assigned.resolved(name);
    if role_of(assigned.roles, name) is None {
        assert(after.roles.drop_last() =~= assigned.roles);
        assert forall|i: int, j: int| 0 <= i < j < after.roles.len() implies (#[trigger]
        after.roles[i]).0 != (#[trigger] after.roles[j]).0 by {
            assert(after.roles[i] == assigned.roles[i]);
            if j < assigned.roles.len() {
                assert(after.roles[j] == assigned.roles[j]);
            }
        }
        assert forall|i: int| 0 <= i < after.roles.len() implies is_numbered(
            (#[trigger] after.roles[i]).1,
            after.locals,
            after.frees,
        ) by {
            if i < assigned.roles.len() {
                assert(after.roles[i] == assigned.roles[i]);
            }
        }
        assert forall|i: int| 0 <= i < after.ledger.len() implies is_numbered(
            (#[trigger] after.ledger[i]).0,
            after.locals,
            after.frees,
        ) by {
            if i < assigned.ledger.len() {
                assert(after.ledger[i] == assigned.ledger[i]);
            }
        }
        assert forall|i: int, j: int| 0 <= i < j < after.ledger.len() implies (#[trigger]
        after.ledger[i]).0 != (#[trigger] after.ledger[j]).0 by {
            assert(after.ledger[i] == assigned.ledger[i]);
            assert(is_numbered(assigned.ledger[i].0, assigned.locals, assigned.frees));
            if j < assigned.ledger.len() {
                assert(after.ledger[j] == assigned.ledger[j]);
            }
        }
    }
}

/// A binding that the source did not name takes a number of its own: roles stay
/// consistent, the ledger is unchanged, no name stands for the number, and the
/// next name bound takes the one after it.
pub proof fn law_an_anonymous_binding_is_nobodys(assigned: Assigned, name: Seq<char>)
    requires
        assigned.is_consistent(),
        assigned.locals < u32::MAX,
    ensures
        assigned.anonymous().is_consistent(),
        assigned.anonymous().ledger == assigned.ledger,
        assigned.anonymous().is_nobodys(assigned.locals as u32),
        role_of(assigned.anonymous().roles, name) != Some(
            leaf(Shape::Local(assigned.locals as u32)),
        ),
        role_of(assigned.anonymous().bound(name).roles, name) == Some(
            leaf(Shape::Local((assigned.locals + 1) as u32)),
        ),
{
    let after = assigned.anonymous();
    let number = leaf(Shape::Local(assigned.locals as u32));
    lemma_role_of(assigned.roles, name);
    assert forall|i: int| 0 <= i < after.roles.len() implies is_numbered(
        (#[trigger] after.roles[i]).1,
        after.locals,
        after.frees,
    ) && after.roles[i].1 != number by {
        assert(is_numbered(assigned.roles[i].1, assigned.locals, assigned.frees));
    }
    assert forall|i: int| 0 <= i < after.ledger.len() implies is_numbered(
        (#[trigger] after.ledger[i]).0,
        after.locals,
        after.frees,
    ) && after.ledger[i].0 != number by {
        assert(is_numbered(assigned.ledger[i].0, assigned.locals, assigned.frees));
    }
    law_binding_numbers_afresh(after, name);
}

/// A number that no name ever stood for stays so, whatever is bound or resolved
/// later.
pub proof fn law_a_number_of_nobodys_stays_so(
    assigned: Assigned,
    number: u32,
    name: Seq<char>,
    other: Seq<char>,
)
    requires
        assigned.is_nobodys(number),
        assigned.locals <= u32::MAX,
    ensures
        assigned.bound(name).is_nobodys(number),
        assigned.resolved(name).is_nobodys(number),
        assigned.anonymous().is_nobodys(number),
        role_of(assigned.bound(name).roles, other) != Some(leaf(Shape::Local(number))),
        role_of(assigned.resolved(name).roles, other) != Some(leaf(Shape::Local(number))),
{
    lemma_without(assigned.roles, name);
    let bound = assigned.bound(name);
    let kept = without(assigned.roles, name);
    assert forall|i: int| 0 <= i < bound.roles.len() implies (#[trigger] bound.roles[i]).1 != leaf(
        Shape::Local(number),
    ) by {
        if i < kept.len() {
            assert(bound.roles[i] == kept[i]);
            let j = choose|j: int| 0 <= j < assigned.roles.len() && assigned.roles[j] == kept[i];
            assert(assigned.roles[j].1 != leaf(Shape::Local(number)));
        }
    }
    assert forall|i: int| 0 <= i < bound.ledger.len() implies (#[trigger] bound.ledger[i]).0
        != leaf(Shape::Local(number)) by {
        if i < assigned.ledger.len() {
            assert(bound.ledger[i] == assigned.ledger[i]);
        }
    }
    let resolved = assigned.resolved(name);
    assert forall|i: int| 0 <= i < resolved.roles.len() implies (#[trigger] resolved.roles[i]).1
        != leaf(Shape::Local(number)) by {
        if i < assigned.roles.len() {
            assert(resolved.roles[i] == assigned.roles[i]);
        }
    }
    assert forall|i: int| 0 <= i < resolved.ledger.len() implies (#[trigger] resolved.ledger[i]).0
        != leaf(Shape::Local(number)) by {
        if i < assigned.ledger.len() {
            assert(resolved.ledger[i] == assigned.ledger[i]);
        }
    }
    lemma_role_of(bound.roles, other);
    lemma_role_of(resolved.roles, other);
}

/// Whether roles are consistent does not depend on which names hold values.
proof fn lemma_values_are_apart(before: Assigned, after: Assigned)
    requires
        before.is_consistent(),
        after == (Assigned { values: after.values, ..before }),
    ensures
        after.is_consistent(),
{
    assert(after.roles == before.roles && after.ledger == before.ledger);
}

/// Adds a role to those in scope and to the ledger.
fn add_role(
    roles: &mut Vec<(String, Form)>,
    ledger: &mut Vec<(Form, String)>,
    name: &str,
    form: &Form,
)
    ensures
        role_terms(final(roles)@) == role_terms(old(roles)@).push((name@, form@)),
        ledger_terms(final(ledger)@) == ledger_terms(old(ledger)@).push((form@, name@)),
{
    let ghost before = roles@;
    let ghost written = ledger@;
    roles.push((name.to_owned(), form.clone()));
    ledger.push((form.clone(), name.to_owned()));
    assert(role_terms(roles@) =~= role_terms(before).push((name@, form@)));
    assert(ledger_terms(ledger@) =~= ledger_terms(written).push((form@, name@)));
}

/// The roles of all names but one.
fn other_roles(roles: &Vec<(String, Form)>, name: &str) -> (kept: Vec<(String, Form)>)
    ensures
        role_terms(kept@) == without(role_terms(roles@), name@),
{
    let ghost terms = role_terms(roles@);
    let ghost keeps = |role: (Seq<char>, Term)| role.0 != name@;
    let mut kept: Vec<(String, Form)> = Vec::new();
    assert(role_terms(kept@) =~= terms.take(0).filter(keeps)) by {
        reveal(Seq::filter);
    }
    for i in 0..roles.len()
        invariant
            terms == role_terms(roles@),
            keeps == (|role: (Seq<char>, Term)| role.0 != name@),
            role_terms(kept@) == terms.take(i as int).filter(keeps),
    {
        let ghost list = kept@;
        proof {
            reveal(Seq::filter);
            assert(terms.take(i + 1).drop_last() =~= terms.take(i as int));
            assert(terms.take(i + 1).last() == terms[i as int]);
        }
        if !same_text(roles[i].0.as_str(), name) {
            kept.push((roles[i].0.clone(), roles[i].1.clone()));
            assert(role_terms(kept@) =~= role_terms(list).push(terms[i as int]));
        }
    }
    assert(terms.take(terms.len() as int) =~= terms);
    kept
}

impl Default for Roles {
    fn default() -> (roles: Self)
        ensures
            roles@ == (Assigned {
                roles: Seq::empty(),
                values: Seq::empty(),
                ledger: Seq::empty(),
                locals: 0,
                frees: 0,
            }),
    {
        Roles::new()
    }
}

impl Roles {
    /// No roles at all.
    pub fn new() -> (roles: Roles)
        ensures
            roles@ == (Assigned {
                roles: Seq::empty(),
                values: Seq::empty(),
                ledger: Seq::empty(),
                locals: 0,
                frees: 0,
            }),
    {
        let roles = Roles {
            roles: Vec::new(),
            values: Vec::new(),
            ledger: Vec::new(),
            locals: 0,
            frees: 0,
        };
        assert(role_terms(roles.roles@) =~= Seq::empty());
        assert(name_texts(roles.values@) =~= Seq::empty());
        assert(ledger_terms(roles.ledger@) =~= Seq::empty());
        roles
    }

    /// Roles are always consistent.
    #[verifier::type_invariant]
    closed spec fn is_well_formed(self) -> bool {
        self@.is_consistent()
    }

    /// Bind a name introduced by the code, shadowing any earlier role.
    pub fn bind(&mut self, name: &str) -> (form: Form)
        requires
            old(self)@.locals < u32::MAX,
        ensures
            form@ == leaf(Shape::Local(old(self)@.locals as u32)),
            final(self)@ == old(self)@.bound(name@),
            old(self)@.is_consistent(),
            final(self)@.is_consistent(),
    {
        proof {
            use_type_invariant(&*self);
            law_binding_numbers_afresh(self@, name@);
        }
        let ghost after = self@.bound(name@);
        let form = Form::Local(self.locals);
        let mut roles = other_roles(&self.roles, name);
        let mut ledger: Vec<(Form, String)> = Vec::new();
        std::mem::swap(&mut ledger, &mut self.ledger);
        let mut values: Vec<String> = Vec::new();
        std::mem::swap(&mut values, &mut self.values);
        add_role(&mut roles, &mut ledger, name, &form);
        assert(role_terms(roles@) == after.roles && ledger_terms(ledger@) == after.ledger);
        *self = Roles { roles, values, ledger, locals: self.locals + 1, frees: self.frees };
        form
    }

    /// What each role was called in the source it was lifted from.
    pub fn ledger(&self) -> (ledger: &Vec<(Form, String)>)
        ensures
            ledger_terms(ledger@) == self@.ledger,
            self@.is_consistent(),
    {
        proof {
            use_type_invariant(self);
        }
        &self.ledger
    }

    /// Introduce a binding the source did not name.
    ///
    /// Some spellings leave a value implicit: passing a function to `map`
    /// describes the same traversal as passing a closure, but only the closure
    /// gives the item a name. Normalizing the two alike means supplying one.
    pub fn bind_anonymous(&mut self) -> (form: Form)
        requires
            old(self)@.locals < u32::MAX,
        ensures
            form@ == leaf(Shape::Local(old(self)@.locals as u32)),
            final(self)@ == old(self)@.anonymous(),
            old(self)@.is_consistent(),
            final(self)@.is_consistent(),
    {
        proof {
            use_type_invariant(&*self);
            law_an_anonymous_binding_is_nobodys(self@, Seq::empty());
        }
        let form = Form::Local(self.locals);
        self.locals = self.locals + 1;
        form
    }

    /// Whether a name is among those declared.
    fn is_declared(&self, name: &str) -> (declared: bool)
        ensures
            declared == self@.values.contains(name@),
    {
        let ghost names = name_texts(self.values@);
        for i in 0..self.values.len()
            invariant
                names == name_texts(self.values@),
                forall|j: int| 0 <= j < i ==> names[j] != name@,
        {
            if same_text(self.values[i].as_str(), name) {
                assert(names[i as int] == name@);
                return true;
            }
        }
        false
    }

    /// Record a name that holds a value supplied from outside the body: a
    /// parameter, or a receiver.
    ///
    /// It still resolves as a hole, because a caller may supply anything.
    /// Declaring it records only that the name is data rather than the name of
    /// a function.
    pub fn declare(&mut self, name: &str)
        ensures
            final(self)@ == (Assigned {
                values: if old(self)@.values.contains(name@) {
                    old(self)@.values
                } else {
                    old(self)@.values.push(name@)
                },
                ..old(self)@
            }),
            final(self)@.is_consistent(),
    {
        proof {
            use_type_invariant(&*self);
        }
        if !self.is_declared(name) {
            let ghost before = self@;
            let ghost after = Assigned { values: before.values.push(name@), ..before };
            proof {
                lemma_values_are_apart(before, after);
            }
            let mut roles: Vec<(String, Form)> = Vec::new();
            std::mem::swap(&mut roles, &mut self.roles);
            let mut ledger: Vec<(Form, String)> = Vec::new();
            std::mem::swap(&mut ledger, &mut self.ledger);
            let mut values: Vec<String> = Vec::new();
            std::mem::swap(&mut values, &mut self.values);
            values.push(name.to_owned());
            assert(name_texts(values@) =~= after.values);
            assert(role_terms(roles@) == after.roles && ledger_terms(ledger@) == after.ledger);
            *self = Roles { roles, values, ledger, locals: self.locals, frees: self.frees };
        }
    }

    /// Whether a name holds a value here, rather than naming a function defined
    /// outside this body.
    pub fn is_value(&self, name: &str) -> (value: bool)
        ensures
            value == self@.holds_value(name@),
    {
        if self.is_declared(name) {
            return true;
        }
        let ghost terms = role_terms(self.roles@);
        for i in 0..self.roles.len()
            invariant
                !self@.values.contains(name@),
                terms == self@.roles,
                terms == role_terms(self.roles@),
                forall|j: int|
                    0 <= j < i ==> (#[trigger] terms[j]).0 != name@ || terms[j].1.shape !is Local,
        {
            assert(terms[i as int] == (self.roles@[i as int].0@, self.roles@[i as int].1@));
            if same_text(self.roles[i].0.as_str(), name) {
                if let Form::Local(_) = &self.roles[i].1 {
                    return true;
                }
            }
        }
        false
    }

    /// Resolve a name, treating anything not bound here as free.
    pub fn resolve(&mut self, name: &str) -> (form: Form)
        requires
            role_of(old(self)@.roles, name@) is Some || old(self)@.frees < u32::MAX,
        ensures
            final(self)@ == old(self)@.resolved(name@),
            role_of(final(self)@.roles, name@) == Some(form@),
            final(self)@.is_consistent(),
    {
        proof {
            use_type_invariant(&*self);
        }
        let ghost terms = role_terms(self.roles@);
        let mut i: usize = self.roles.len();
        assert(terms.take(i as int) =~= terms);
        while i > 0
            invariant
                i <= self.roles@.len(),
                self@ == old(self)@,
                self@.is_consistent(),
                role_of(terms, name@) is Some || self@.frees < u32::MAX,
                terms == self@.roles,
                terms == role_terms(self.roles@),
                role_of(terms, name@) == role_of(terms.take(i as int), name@),
            decreases i,
        {
            i -= 1;
            proof {
                assert(terms.take(i + 1).last() == terms[i as int]);
                assert(terms.take(i + 1).drop_last() =~= terms.take(i as int));
            }
            if same_text(self.roles[i].0.as_str(), name) {
                return self.roles[i].1.clone();
            }
        }
        proof {
            law_resolving_is_stable(self@, name@, name@);
        }
        let ghost after = self@.resolved(name@);
        let form = Form::Free(self.frees);
        let mut roles: Vec<(String, Form)> = Vec::new();
        std::mem::swap(&mut roles, &mut self.roles);
        let mut ledger: Vec<(Form, String)> = Vec::new();
        std::mem::swap(&mut ledger, &mut self.ledger);
        let mut values: Vec<String> = Vec::new();
        std::mem::swap(&mut values, &mut self.values);
        add_role(&mut roles, &mut ledger, name, &form);
        assert(role_terms(roles@) == after.roles && ledger_terms(ledger@) == after.ledger);
        *self = Roles { roles, values, ledger, locals: self.locals, frees: self.frees + 1 };
        form
    }
}

} // verus!
