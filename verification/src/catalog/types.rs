//! The types that rustdoc JSON describes.

use super::json::{
    compact, get_in, is_list, is_object, json_height, json_terms, lemma_json_part, lemma_member,
    member, member_of, member_place, object_in, string_in, string_of, Json, JsonShape, JsonTerm,
};
use super::{Error, Fault};
use crate::external::{type_terms, ExternalType, TypeShape, TypeTerm};
use crate::normalize::form::optional_text;
use vstd::prelude::*;
use vstd::string::*;

verus! {

/// What reading a type gives.
pub open spec fn type_view(result: Result<ExternalType, Error>) -> Result<TypeTerm, Fault> {
    match result {
        Ok(ty) => Ok(ty@),
        Err(error) => Err(error@),
    }
}

/// What reading several types gives.
pub open spec fn types_view(result: Result<Vec<ExternalType>, Error>) -> Result<
    Seq<TypeTerm>,
    Fault,
> {
    match result {
        Ok(types) => Ok(type_terms(types@)),
        Err(error) => Err(error@),
    }
}

/// A type made of one other.
pub open spec fn around(shape: TypeShape, inner: Result<TypeTerm, Fault>) -> Result<
    TypeTerm,
    Fault,
> {
    match inner {
        Ok(inner) => Ok(TypeTerm { shape, parts: seq![inner] }),
        Err(fault) => Err(fault),
    }
}

/// A type made of others.
pub open spec fn made_of(shape: TypeShape, parts: Result<Seq<TypeTerm>, Fault>) -> Result<
    TypeTerm,
    Fault,
> {
    match parts {
        Ok(parts) => Ok(TypeTerm { shape, parts }),
        Err(fault) => Err(fault),
    }
}

/// A type made of no other.
pub open spec fn bare(shape: TypeShape) -> TypeTerm {
    TypeTerm { shape, parts: Seq::empty() }
}

/// The type that a member describes, which has to be there.
pub open spec fn member_type(json: JsonTerm, key: Seq<char>, missing: Seq<char>) -> Result<
    TypeTerm,
    Fault,
>
    decreases json_height(json), 1int, 0int,
{
    match member_place(json, key) {
        Some(i) => {
            proof {
                lemma_member(json, key);
            }
            described_type(json.parts[i])
        },
        None => Err(Fault::Missing(missing)),
    }
}

/// The types that the first so many items of a list describe.
pub open spec fn item_types(json: JsonTerm, n: int) -> Result<Seq<TypeTerm>, Fault>
    decreases json_height(json), 0int, n,
{
    if n <= 0 || n > json.parts.len() {
        Ok(Seq::empty())
    } else {
        proof {
            lemma_json_part(json, n - 1);
        }
        match item_types(json, n - 1) {
            Ok(before) => match described_type(json.parts[n - 1]) {
                Ok(ty) => Ok(before.push(ty)),
                Err(fault) => Err(fault),
            },
            Err(fault) => Err(fault),
        }
    }
}

/// The types that the first so many arguments name, those that are types.
pub open spec fn argument_types(json: JsonTerm, n: int) -> Result<Seq<TypeTerm>, Fault>
    decreases json_height(json), 0int, n,
{
    if n <= 0 || n > json.parts.len() {
        Ok(Seq::empty())
    } else {
        proof {
            lemma_json_part(json, n - 1);
            lemma_member(json.parts[n - 1], "type"@);
        }
        match argument_types(json, n - 1) {
            Ok(before) => match member_place(json.parts[n - 1], "type"@) {
                Some(i) => match described_type(json.parts[n - 1].parts[i]) {
                    Ok(ty) => Ok(before.push(ty)),
                    Err(fault) => Err(fault),
                },
                None => Ok(before),
            },
            Err(fault) => Err(fault),
        }
    }
}

/// The list of arguments in the arguments of a path.
pub open spec fn argument_list(path: JsonTerm) -> Option<JsonTerm> {
    member_of(member_of(member(path, "args"@), "angle_bracketed"@), "args"@)
}

/// A list of arguments has fewer levels than the path.
pub proof fn lemma_argument_list(path: JsonTerm)
    ensures
        argument_list(path) matches Some(list) ==> json_height(list) < json_height(path),
{
    lemma_member(path, "args"@);
    if let Some(args) = member(path, "args"@) {
        lemma_member(args, "angle_bracketed"@);
        if let Some(angle) = member(args, "angle_bracketed"@) {
            lemma_member(angle, "args"@);
        }
    }
}

/// The types that a path is applied to.
pub open spec fn path_arguments(path: JsonTerm) -> Result<Seq<TypeTerm>, Fault>
    decreases json_height(path), 1int, 0int,
{
    proof {
        lemma_argument_list(path);
    }
    match argument_list(path) {
        Some(list) => if list.shape is List {
            argument_types(list, list.parts.len() as int)
        } else {
            Ok(Seq::empty())
        },
        None => Ok(Seq::empty()),
    }
}

/// The path of the trait of a qualified path, where it says one.
pub open spec fn qualified_trait(qualified: JsonTerm) -> Option<Seq<char>> {
    match string_of(member_of(member(qualified, "trait"@), "path"@)) {
        Some(path) => if path.len() == 0 {
            None
        } else {
            Some(path)
        },
        None => None,
    }
}

/// Whether a member says yes.
pub open spec fn is_set(json: JsonTerm, key: Seq<char>) -> bool {
    member(json, key) matches Some(value) && value.shape == JsonShape::Bool(true)
}

/// How the length of an array is written.
pub open spec fn array_length(array: JsonTerm) -> Seq<char> {
    match member(array, "len"@) {
        Some(length) => compact(length),
        None => Seq::empty(),
    }
}

/// The type that a value describes, by the first of the kinds of type that it
/// can be read as.
pub open spec fn described_type(json: JsonTerm) -> Result<TypeTerm, Fault>
    decreases json_height(json), 2int, 0int,
{
    proof {
        lemma_member(json, "resolved_path"@);
        lemma_member(json, "borrowed_ref"@);
        lemma_member(json, "qualified_path"@);
        lemma_member(json, "tuple"@);
        lemma_member(json, "slice"@);
        lemma_member(json, "array"@);
    }
    if !(json.shape is Object) {
        Err(Fault::Invalid("type"@))
    } else if string_of(member(json, "generic"@)) is Some {
        Ok(bare(TypeShape::Generic(string_of(member(json, "generic"@))->0)))
    } else if string_of(member(json, "primitive"@)) is Some {
        Ok(bare(TypeShape::Primitive(string_of(member(json, "primitive"@))->0)))
    } else if is_object(member(json, "resolved_path"@)) {
        let path = member(json, "resolved_path"@)->0;
        match string_of(member(path, "path"@)) {
            Some(name) => made_of(TypeShape::Path(name), path_arguments(path)),
            None => Err(Fault::Missing("resolved type path"@)),
        }
    } else if is_object(member(json, "borrowed_ref"@)) {
        let reference = member(json, "borrowed_ref"@)->0;
        around(
            TypeShape::Reference(is_set(reference, "is_mutable"@)),
            member_type(reference, "type"@, "referenced type"@),
        )
    } else if is_object(member(json, "qualified_path"@)) {
        let qualified = member(json, "qualified_path"@)->0;
        match string_of(member(qualified, "name"@)) {
            Some(name) => around(
                TypeShape::Associated(name, qualified_trait(qualified)),
                member_type(qualified, "self_type"@, "associated self type"@),
            ),
            None => Err(Fault::Missing("associated type name"@)),
        }
    } else if is_list(member(json, "tuple"@)) {
        let tuple = member(json, "tuple"@)->0;
        made_of(TypeShape::Tuple, item_types(tuple, tuple.parts.len() as int))
    } else if member(json, "slice"@) is Some {
        around(TypeShape::Slice, described_type(member(json, "slice"@)->0))
    } else if is_object(member(json, "array"@)) {
        let array = member(json, "array"@)->0;
        around(
            TypeShape::Array(array_length(array)),
            member_type(array, "type"@, "array type"@),
        )
    } else if member(json, "infer"@) is Some {
        Ok(bare(TypeShape::Infer))
    } else if member(json, "never"@) is Some {
        Ok(bare(TypeShape::Never))
    } else {
        Ok(
            bare(
                TypeShape::Unsupported(
                    match json.shape {
                        JsonShape::Object(keys) => if keys.len() > 0 {
                            keys[0]
                        } else {
                            Seq::empty()
                        },
                        _ => Seq::empty(),
                    },
                ),
            ),
        )
    }
}

/// The type that a member describes, which has to be there.
fn type_of_member(value: &Json, key: &str, missing: &'static str) -> (result: Result<
    ExternalType,
    Error,
>)
    ensures
        type_view(result) == member_type(value@, key@, missing@),
    decreases json_height(value@), 1int,
{
    proof {
        lemma_member(value@, key@);
    }
    match value.get(key) {
        Some(inner) => external_type(inner),
        None => Err(Error::Missing(missing)),
    }
}

/// The types that the items of a list describe.
#[verifier::loop_isolation(false)]
fn types_of_items(value: &Json, items: &Vec<Json>) -> (result: Result<Vec<ExternalType>, Error>)
    requires
        value@.shape is List,
        value@.parts == json_terms(items@),
    ensures
        types_view(result) == item_types(value@, value@.parts.len() as int),
    decreases json_height(value@), 0int,
{
    let ghost json = value@;
    let mut types: Vec<ExternalType> = Vec::new();
    let mut i: usize = 0;
    assert(type_terms(types@) =~= Seq::empty());
    while i < items.len()
        invariant
            i <= items@.len(),
            item_types(json, i as int) == Ok::<Seq<TypeTerm>, Fault>(type_terms(types@)),
        decreases items@.len() - i,
    {
        proof {
            assert(json.parts[i as int] == items@[i as int]@);
            lemma_json_part(json, i as int);
        }
        match external_type(&items[i]) {
            Ok(ty) => {
                let ghost before = types@;
                types.push(ty);
                assert(type_terms(types@) =~= type_terms(before).push(ty@));
            },
            Err(error) => {
                proof {
                    lemma_item_fault(json, i + 1, json.parts.len() as int);
                }
                return Err(error);
            },
        }
        i += 1;
    }
    Ok(types)
}

/// What is wrong with the first items is wrong with more of them.
proof fn lemma_item_fault(json: JsonTerm, n: int, m: int)
    requires
        0 <= n <= m <= json.parts.len(),
        item_types(json, n) is Err,
    ensures
        item_types(json, m) == item_types(json, n),
    decreases m - n,
{
    if n < m {
        lemma_item_fault(json, n, m - 1);
    }
}

/// What is wrong with the first arguments is wrong with more of them.
proof fn lemma_argument_fault(json: JsonTerm, n: int, m: int)
    requires
        0 <= n <= m <= json.parts.len(),
        argument_types(json, n) is Err,
    ensures
        argument_types(json, m) == argument_types(json, n),
    decreases m - n,
{
    if n < m {
        lemma_argument_fault(json, n, m - 1);
    }
}

/// The types that arguments name, those that are types.
#[verifier::loop_isolation(false)]
fn types_of_arguments(value: &Json, items: &Vec<Json>) -> (result: Result<
    Vec<ExternalType>,
    Error,
>)
    requires
        value@.shape is List,
        value@.parts == json_terms(items@),
    ensures
        types_view(result) == argument_types(value@, value@.parts.len() as int),
    decreases json_height(value@), 0int,
{
    let ghost json = value@;
    let mut types: Vec<ExternalType> = Vec::new();
    let mut i: usize = 0;
    assert(type_terms(types@) =~= Seq::empty());
    while i < items.len()
        invariant
            i <= items@.len(),
            argument_types(json, i as int) == Ok::<Seq<TypeTerm>, Fault>(type_terms(types@)),
        decreases items@.len() - i,
    {
        proof {
            assert(json.parts[i as int] == items@[i as int]@);
            lemma_json_part(json, i as int);
            lemma_member(json.parts[i as int], "type"@);
        }
        if let Some(inner) = items[i].get("type") {
            match external_type(inner) {
                Ok(ty) => {
                    let ghost before = types@;
                    types.push(ty);
                    assert(type_terms(types@) =~= type_terms(before).push(ty@));
                },
                Err(error) => {
                    proof {
                        lemma_argument_fault(json, i + 1, json.parts.len() as int);
                    }
                    return Err(error);
                },
            }
        }
        i += 1;
    }
    Ok(types)
}

/// The types that a path is applied to.
fn type_arguments(path: &Json) -> (result: Result<Vec<ExternalType>, Error>)
    ensures
        types_view(result) == path_arguments(path@),
    decreases json_height(path@), 1int,
{
    proof {
        lemma_argument_list(path@);
    }
    let list = get_in(get_in(path.get("args"), "angle_bracketed"), "args");
    if let Some(list) = list {
        if let Some(items) = list.as_list() {
            return types_of_arguments(list, items);
        }
    }
    let none: Vec<ExternalType> = Vec::new();
    assert(type_terms(none@) =~= Seq::empty());
    Ok(none)
}

/// The path of the trait of a qualified path, where it says one.
fn trait_of_qualified(qualified: &Json) -> (path: Option<String>)
    ensures
        optional_text(path) == qualified_trait(qualified@),
{
    match string_in(get_in(qualified.get("trait"), "path")) {
        Some(path) => if path.is_empty() {
            None
        } else {
            Some(path.to_owned())
        },
        None => None,
    }
}

/// Whether a member says yes.
fn says_yes(json: &Json, key: &str) -> (yes: bool)
    ensures
        yes == is_set(json@, key@),
{
    match json.get(key) {
        Some(Json::Bool(value)) => *value,
        _ => false,
    }
}

/// The type that a value describes.
pub fn external_type(value: &Json) -> (result: Result<ExternalType, Error>)
    ensures
        type_view(result) == described_type(value@),
    decreases json_height(value@), 2int,
{
    proof {
        lemma_member(value@, "resolved_path"@);
        lemma_member(value@, "borrowed_ref"@);
        lemma_member(value@, "qualified_path"@);
        lemma_member(value@, "tuple"@);
        lemma_member(value@, "slice"@);
        lemma_member(value@, "array"@);
    }
    if !value.is_object() {
        return Err(Error::Invalid("type"));
    }
    if let Some(name) = string_in(value.get("generic")) {
        return Ok(ExternalType::Generic { name: name.to_owned() });
    }
    if let Some(name) = string_in(value.get("primitive")) {
        return Ok(ExternalType::Primitive { name: name.to_owned() });
    }
    if let Some(path) = object_in(value.get("resolved_path")) {
        return path_type(path);
    }
    if let Some(reference) = object_in(value.get("borrowed_ref")) {
        return match type_of_member(reference, "type", "referenced type") {
            Ok(inner) => {
                let mutable = says_yes(reference, "is_mutable");
                let made = ExternalType::Reference { mutable, inner: Box::new(inner) };
                assert(made@.parts =~= seq![inner@]);
                Ok(made)
            },
            Err(error) => Err(error),
        };
    }
    if let Some(qualified) = object_in(value.get("qualified_path")) {
        return associated_type(qualified);
    }
    if let Some(tuple) = value.get("tuple") {
        if let Some(items) = tuple.as_list() {
            return match types_of_items(tuple, items) {
                Ok(elements) => Ok(ExternalType::Tuple { elements }),
                Err(error) => Err(error),
            };
        }
    }
    if let Some(element) = value.get("slice") {
        return match external_type(element) {
            Ok(inner) => {
                let made = ExternalType::Slice { element: Box::new(inner) };
                assert(made@.parts =~= seq![inner@]);
                Ok(made)
            },
            Err(error) => Err(error),
        };
    }
    if let Some(array) = object_in(value.get("array")) {
        return match type_of_member(array, "type", "array type") {
            Ok(inner) => {
                let length = match array.get("len") {
                    Some(length) => length.compact(),
                    None => String::new(),
                };
                let made = ExternalType::Array { element: Box::new(inner), length };
                assert(made@.parts =~= seq![inner@]);
                Ok(made)
            },
            Err(error) => Err(error),
        };
    }
    Ok(unnamed_type(value))
}

/// The type that a path describes.
fn path_type(path: &Json) -> (result: Result<ExternalType, Error>)
    ensures
        type_view(result) == match string_of(member(path@, "path"@)) {
            Some(name) => made_of(TypeShape::Path(name), path_arguments(path@)),
            None => Err(Fault::Missing("resolved type path"@)),
        },
    decreases json_height(path@), 2int,
{
    match string_in(path.get("path")) {
        Some(name) => match type_arguments(path) {
            Ok(arguments) => Ok(ExternalType::Path { path: name.to_owned(), arguments }),
            Err(error) => Err(error),
        },
        None => Err(Error::Missing("resolved type path")),
    }
}

/// The type that a qualified path describes.
fn associated_type(qualified: &Json) -> (result: Result<ExternalType, Error>)
    ensures
        type_view(result) == match string_of(member(qualified@, "name"@)) {
            Some(name) => around(
                TypeShape::Associated(name, qualified_trait(qualified@)),
                member_type(qualified@, "self_type"@, "associated self type"@),
            ),
            None => Err(Fault::Missing("associated type name"@)),
        },
    decreases json_height(qualified@), 2int,
{
    match string_in(qualified.get("name")) {
        Some(name) => match type_of_member(qualified, "self_type", "associated self type") {
            Ok(inner) => {
                let made = ExternalType::Associated {
                    name: name.to_owned(),
                    self_type: Box::new(inner),
                    trait_path: trait_of_qualified(qualified),
                };
                assert(made@.parts =~= seq![inner@]);
                Ok(made)
            },
            Err(error) => Err(error),
        },
        None => Err(Error::Missing("associated type name")),
    }
}

/// The type that an object describes that names no other.
fn unnamed_type(value: &Json) -> (ty: ExternalType)
    requires
        value@.shape is Object,
    ensures
        ty@ == (if member(value@, "infer"@) is Some {
            bare(TypeShape::Infer)
        } else if member(value@, "never"@) is Some {
            bare(TypeShape::Never)
        } else {
            bare(
                TypeShape::Unsupported(
                    match value@.shape {
                        JsonShape::Object(keys) => if keys.len() > 0 {
                            keys[0]
                        } else {
                            Seq::empty()
                        },
                        _ => Seq::empty(),
                    },
                ),
            )
        }),
{
    if value.get("infer").is_some() {
        return ExternalType::Infer;
    }
    if value.get("never").is_some() {
        return ExternalType::Never;
    }
    let kind = match value {
        Json::Object(members) => if members.len() > 0 {
            members[0].key.clone()
        } else {
            String::new()
        },
        _ => String::new(),
    };
    ExternalType::Unsupported { kind }
}

} // verus!
