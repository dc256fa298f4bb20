//! The signatures that rustdoc JSON describes.

use super::json::{
    get_in, is_list, is_object, items_of, json_terms, list_in, member, member_of, object_in,
    only_object, string_in, string_of, Json, JsonTerm,
};
use super::types::{described_type, external_type};
use super::{Error, Fault};
use crate::external::{
    bound_views, parameter_views, requirement_views, BoundView, CallableParameter,
    CallableSignature, ExternalBound, ParameterView, RequirementView, SignatureView,
    TypeRequirement, TypeTerm,
};
use vstd::prelude::*;
use vstd::string::*;

verus! {

/// The bound that a value describes, where it describes one.
pub open spec fn described_bound(json: JsonTerm) -> Option<BoundView> {
    match member(json, "trait_bound"@) {
        Some(bound) => if bound.shape is Object {
            match string_of(member_of(member(bound, "trait"@), "path"@)) {
                Some(path) => Some(BoundView::Trait(path)),
                None => None,
            }
        } else {
            match string_of(member(json, "outlives"@)) {
                Some(name) => Some(BoundView::Lifetime(name)),
                None => None,
            }
        },
        None => None,
    }
}

/// The bound that a value describes, where it describes one.
fn external_bound(value: &Json) -> (bound: Option<ExternalBound>)
    ensures
        match bound {
            Some(bound) => described_bound(value@) == Some(bound@),
            None => described_bound(value@) is None,
        },
{
    match value.get("trait_bound") {
        Some(bound) => if bound.is_object() {
            match string_in(get_in(bound.get("trait"), "path")) {
                Some(path) => Some(ExternalBound::Trait { path: path.to_owned() }),
                None => None,
            }
        } else {
            match string_in(value.get("outlives")) {
                Some(name) => Some(ExternalBound::Lifetime { name: name.to_owned() }),
                None => None,
            }
        },
        None => None,
    }
}

/// The bounds that the first so many values describe.
pub open spec fn described_bounds(items: Seq<JsonTerm>, n: int) -> Seq<BoundView>
    decreases n,
{
    if n <= 0 || n > items.len() {
        Seq::empty()
    } else {
        let before = described_bounds(items, n - 1);
        match described_bound(items[n - 1]) {
            Some(bound) => before.push(bound),
            None => before,
        }
    }
}

/// The requirement that a bound predicate states.
pub open spec fn described_requirement(json: JsonTerm) -> Result<RequirementView, Fault> {
    if !(json.shape is Object) {
        Err(Fault::Invalid("bound predicate"@))
    } else {
        match member(json, "type"@) {
            Some(subject) => match described_type(subject) {
                Ok(subject) => {
                    let items = items_of(member(json, "bounds"@));
                    Ok(
                        RequirementView {
                            subject,
                            bounds: described_bounds(items, items.len() as int),
                        },
                    )
                },
                Err(fault) => Err(fault),
            },
            None => Err(Fault::Missing("bound subject"@)),
        }
    }
}

/// What reading a requirement gives.
pub open spec fn requirement_view(result: Result<TypeRequirement, Error>) -> Result<
    RequirementView,
    Fault,
> {
    match result {
        Ok(requirement) => Ok(requirement@),
        Err(error) => Err(error@),
    }
}

/// The requirement that a bound predicate states.
#[verifier::loop_isolation(false)]
pub fn requirement(value: &Json) -> (result: Result<TypeRequirement, Error>)
    ensures
        requirement_view(result) == described_requirement(value@),
{
    if !value.is_object() {
        return Err(Error::Invalid("bound predicate"));
    }
    let subject = match value.get("type") {
        Some(subject) => match external_type(subject) {
            Ok(subject) => subject,
            Err(error) => {
                return Err(error);
            },
        },
        None => {
            return Err(Error::Missing("bound subject"));
        },
    };
    let ghost terms = items_of(member(value@, "bounds"@));
    let mut bounds: Vec<ExternalBound> = Vec::new();
    assert(bound_views(bounds@) =~= Seq::empty());
    if let Some(items) = list_in(value.get("bounds")) {
        let mut i: usize = 0;
        while i < items.len()
            invariant
                i <= items@.len(),
                bound_views(bounds@) == described_bounds(terms, i as int),
            decreases items@.len() - i,
        {
            assert(terms[i as int] == items@[i as int]@);
            if let Some(bound) = external_bound(&items[i]) {
                let ghost before = bounds@;
                bounds.push(bound);
                assert(bound_views(bounds@) =~= bound_views(before).push(bound@));
            }
            i += 1;
        }
    }
    Ok(TypeRequirement { subject, bounds })
}

/// The parameter that one input of a function describes: a name and a type.
pub open spec fn described_parameter(json: JsonTerm) -> Result<ParameterView, Fault> {
    if !(json.shape is List) || json.parts.len() != 2 {
        Err(Fault::Invalid("function input"@))
    } else {
        match string_of(Some(json.parts[0])) {
            Some(name) => match described_type(json.parts[1]) {
                Ok(ty) => Ok(ParameterView { name, ty }),
                Err(fault) => Err(fault),
            },
            None => Err(Fault::Invalid("parameter name"@)),
        }
    }
}

/// The parameters that the first so many inputs describe.
pub open spec fn described_parameters(items: Seq<JsonTerm>, n: int) -> Result<
    Seq<ParameterView>,
    Fault,
>
    decreases n,
{
    if n <= 0 || n > items.len() {
        Ok(Seq::empty())
    } else {
        match described_parameters(items, n - 1) {
            Ok(before) => match described_parameter(items[n - 1]) {
                Ok(parameter) => Ok(before.push(parameter)),
                Err(fault) => Err(fault),
            },
            Err(fault) => Err(fault),
        }
    }
}

/// What is wrong with the first inputs is wrong with more of them.
proof fn lemma_parameter_fault(items: Seq<JsonTerm>, n: int, m: int)
    requires
        0 <= n <= m <= items.len(),
        described_parameters(items, n) is Err,
    ensures
        described_parameters(items, m) == described_parameters(items, n),
    decreases m - n,
{
    if n < m {
        lemma_parameter_fault(items, n, m - 1);
    }
}

/// The parameter that one input of a function describes.
fn parameter(value: &Json) -> (result: Result<CallableParameter, Error>)
    ensures
        match result {
            Ok(parameter) => described_parameter(value@) == Ok::<ParameterView, Fault>(parameter@),
            Err(error) => described_parameter(value@) == Err::<ParameterView, Fault>(error@),
        },
{
    match value.as_list() {
        Some(items) => {
            if items.len() != 2 {
                return Err(Error::Invalid("function input"));
            }
            assert(value@.parts[0] == items@[0]@);
            assert(value@.parts[1] == items@[1]@);
            match items[0].as_str() {
                Some(name) => match external_type(&items[1]) {
                    Ok(ty) => Ok(CallableParameter { name: name.to_owned(), ty }),
                    Err(error) => Err(error),
                },
                None => Err(Error::Invalid("parameter name")),
            }
        },
        None => Err(Error::Invalid("function input")),
    }
}

/// The parameters that inputs describe.
#[verifier::loop_isolation(false)]
fn parameters(items: &Vec<Json>) -> (result: Result<Vec<CallableParameter>, Error>)
    ensures
        match result {
            Ok(parameters) => described_parameters(json_terms(items@), items@.len() as int) == Ok::<
                Seq<ParameterView>,
                Fault,
            >(parameter_views(parameters@)),
            Err(error) => described_parameters(json_terms(items@), items@.len() as int) == Err::<
                Seq<ParameterView>,
                Fault,
            >(error@),
        },
{
    let ghost terms = json_terms(items@);
    let mut made: Vec<CallableParameter> = Vec::new();
    let mut i: usize = 0;
    assert(parameter_views(made@) =~= Seq::empty());
    while i < items.len()
        invariant
            i <= items@.len(),
            described_parameters(terms, i as int) == Ok::<Seq<ParameterView>, Fault>(
                parameter_views(made@),
            ),
        decreases items@.len() - i,
    {
        assert(terms[i as int] == items@[i as int]@);
        match parameter(&items[i]) {
            Ok(one) => {
                let ghost before = made@;
                made.push(one);
                assert(parameter_views(made@) =~= parameter_views(before).push(one@));
            },
            Err(error) => {
                proof {
                    lemma_parameter_fault(terms, i + 1, terms.len() as int);
                }
                return Err(error);
            },
        }
        i += 1;
    }
    Ok(made)
}

/// The requirements that the first so many predicates state, those that bound.
pub open spec fn described_requirements(items: Seq<JsonTerm>, n: int) -> Result<
    Seq<RequirementView>,
    Fault,
>
    decreases n,
{
    if n <= 0 || n > items.len() {
        Ok(Seq::empty())
    } else {
        match described_requirements(items, n - 1) {
            Ok(before) => match member(items[n - 1], "bound_predicate"@) {
                Some(predicate) => match described_requirement(predicate) {
                    Ok(requirement) => Ok(before.push(requirement)),
                    Err(fault) => Err(fault),
                },
                None => Ok(before),
            },
            Err(fault) => Err(fault),
        }
    }
}

/// What is wrong with the first predicates is wrong with more of them.
proof fn lemma_requirement_fault(items: Seq<JsonTerm>, n: int, m: int)
    requires
        0 <= n <= m <= items.len(),
        described_requirements(items, n) is Err,
    ensures
        described_requirements(items, m) == described_requirements(items, n),
    decreases m - n,
{
    if n < m {
        lemma_requirement_fault(items, n, m - 1);
    }
}

/// The predicates of a function.
pub open spec fn predicates_of(function: JsonTerm) -> Seq<JsonTerm> {
    items_of(member_of(member(function, "generics"@), "where_predicates"@))
}

/// The requirements that the predicates of a function state.
#[verifier::loop_isolation(false)]
fn requirements(function: &Json) -> (result: Result<Vec<TypeRequirement>, Error>)
    ensures
        match result {
            Ok(requirements) => described_requirements(
                predicates_of(function@),
                predicates_of(function@).len() as int,
            ) == Ok::<Seq<RequirementView>, Fault>(requirement_views(requirements@)),
            Err(error) => described_requirements(
                predicates_of(function@),
                predicates_of(function@).len() as int,
            ) == Err::<Seq<RequirementView>, Fault>(error@),
        },
{
    let ghost terms = predicates_of(function@);
    let mut made: Vec<TypeRequirement> = Vec::new();
    assert(requirement_views(made@) =~= Seq::empty());
    if let Some(items) = list_in(get_in(function.get("generics"), "where_predicates")) {
        let mut i: usize = 0;
        while i < items.len()
            invariant
                i <= items@.len(),
                described_requirements(terms, i as int) == Ok::<Seq<RequirementView>, Fault>(
                    requirement_views(made@),
                ),
            decreases items@.len() - i,
        {
            assert(terms[i as int] == items@[i as int]@);
            if let Some(predicate) = items[i].get("bound_predicate") {
                match requirement(predicate) {
                    Ok(one) => {
                        let ghost before = made@;
                        made.push(one);
                        assert(requirement_views(made@) =~= requirement_views(before).push(one@));
                    },
                    Err(error) => {
                        proof {
                            lemma_requirement_fault(terms, i + 1, terms.len() as int);
                        }
                        return Err(error);
                    },
                }
            }
            i += 1;
        }
    }
    Ok(made)
}

/// The output that a signature describes: none where it says nothing or null.
pub open spec fn described_output(sig: JsonTerm) -> Result<Option<TypeTerm>, Fault> {
    match member(sig, "output"@) {
        Some(output) => if output.shape is Null {
            Ok(None)
        } else {
            match described_type(output) {
                Ok(ty) => Ok(Some(ty)),
                Err(fault) => Err(fault),
            }
        },
        None => Ok(None),
    }
}

/// The signature that a function describes.
pub open spec fn described_signature(function: JsonTerm) -> Result<SignatureView, Fault> {
    match only_object(member(function, "sig"@)) {
        Some(sig) => if !is_list(member(sig, "inputs"@)) {
            Err(Fault::Missing("function inputs"@))
        } else {
            let items = items_of(member(sig, "inputs"@));
            let predicates = predicates_of(function);
            match (
                described_parameters(items, items.len() as int),
                described_output(sig),
                described_requirements(predicates, predicates.len() as int),
            ) {
                (Err(fault), _, _) => Err(fault),
                (_, Err(fault), _) => Err(fault),
                (_, _, Err(fault)) => Err(fault),
                (Ok(inputs), Ok(output), Ok(requirements)) => Ok(
                    SignatureView { inputs, output, requirements },
                ),
            }
        },
        None => Err(Fault::Missing("function signature"@)),
    }
}

/// What reading a signature gives.
pub open spec fn signature_view(result: Result<CallableSignature, Error>) -> Result<
    SignatureView,
    Fault,
> {
    match result {
        Ok(signature) => Ok(signature@),
        Err(error) => Err(error@),
    }
}

/// The signature that a function describes.
pub fn signature(function: &Json) -> (result: Result<CallableSignature, Error>)
    ensures
        signature_view(result) == described_signature(function@),
{
    let sig = match object_in(function.get("sig")) {
        Some(sig) => sig,
        None => {
            return Err(Error::Missing("function signature"));
        },
    };
    let inputs = match list_in(sig.get("inputs")) {
        Some(items) => match parameters(items) {
            Ok(inputs) => inputs,
            Err(error) => {
                return Err(error);
            },
        },
        None => {
            return Err(Error::Missing("function inputs"));
        },
    };
    let output = match sig.get("output") {
        Some(Json::Null) => None,
        Some(output) => match external_type(output) {
            Ok(ty) => Some(ty),
            Err(error) => {
                return Err(error);
            },
        },
        None => None,
    };
    let requirements = match requirements(function) {
        Ok(requirements) => requirements,
        Err(error) => {
            return Err(error);
        },
    };
    Ok(CallableSignature { inputs, output, requirements })
}

} // verus!
