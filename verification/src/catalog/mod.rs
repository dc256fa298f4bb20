//! Compact external API catalogs, built from the JSON that rustdoc writes.

pub mod json;
pub mod listing;
pub mod order;
pub mod signatures;
pub mod types;
pub mod writing;

use crate::behaviors::{last_separator, lemma_separates_last, separates_last};
use crate::digest::{sha256_hex, sha256_text};
use crate::errors::naming::{scoped, scoped_name};
use crate::lists::text_list;
use crate::external::{
    callable_views, CallableContainer, CallableView, ContainerView, ExternalCallable,
    ExternalCatalog, EXTERNAL_CATALOG_SCHEMA,
};
use crate::normalize::form::optional_text;
use crate::ordering::{keys, settled_list, settled_of};
use crate::syntax::lists_name;
use crate::text::{chars_of, decimal, decimal_text, same_text, stands_at, text_of};
use json::{
    get_in, is_list, is_object, items_of, json_term, json_terms, key_from, lemma_member, list_in, member, member_keys,
    member_of, member_place, member_terms, natural_of, object_in, only_object, optional_json,
    parse_json, parsed_json, string_in, string_of, Json, JsonMember, JsonShape, JsonTerm,
};
use signatures::{described_signature, signature, signature_view};
use vstd::prelude::*;
use vstd::string::*;

verus! {

/// Why a catalog could not be built.
#[derive(Debug)]
pub enum Error {
    /// The document is not JSON; holds what is wrong with it.
    Json(String),
    /// Something that has to be there is not.
    Missing(&'static str),
    /// Something is there that cannot be read.
    Invalid(&'static str),
}

/// The content of an [`Error`].
pub enum Fault {
    Json(Seq<char>),
    Missing(Seq<char>),
    Invalid(Seq<char>),
}

impl View for Error {
    type V = Fault;

    open spec fn view(&self) -> Fault {
        match self {
            Error::Json(message) => Fault::Json(message@),
            Error::Missing(name) => Fault::Missing(name@),
            Error::Invalid(name) => Fault::Invalid(name@),
        }
    }
}

/// What an error says.
pub open spec fn fault_text(fault: Fault) -> Seq<char> {
    match fault {
        Fault::Json(message) => "invalid rustdoc JSON: "@ + message,
        Fault::Missing(name) => "rustdoc JSON is missing "@ + name,
        Fault::Invalid(name) => "rustdoc JSON contains an invalid "@ + name,
    }
}

impl Error {
    /// What the error says.
    pub fn display(&self) -> (text: String)
        ensures
            text@ == fault_text(self@),
    {
        match self {
            Error::Json(message) => {
                let mut text = "invalid rustdoc JSON: ".to_owned();
                text.append(message.as_str());
                text
            },
            Error::Missing(name) => {
                let mut text = "rustdoc JSON is missing ".to_owned();
                text.append(name);
                text
            },
            Error::Invalid(name) => {
                let mut text = "rustdoc JSON contains an invalid ".to_owned();
                text.append(name);
                text
            },
        }
    }
}

/// The package to catalog, and what rustdoc wrote of it.
#[derive(Debug)]
pub struct CatalogRequest<'a> {
    pub package: &'a str,
    pub version: &'a str,
    pub rustdoc_json: &'a Vec<u8>,
}

/// Whether all values are texts.
pub open spec fn all_strings(items: Seq<JsonTerm>) -> bool {
    forall|i: int| 0 <= i < items.len() ==> string_of(Some(#[trigger] items[i])) is Some
}

/// The texts that values are.
pub open spec fn strings_of(items: Seq<JsonTerm>) -> Seq<Seq<char>> {
    Seq::new(items.len(), |i: int| string_of(Some(items[i]))->0)
}

/// The public path of an item.
pub open spec fn path_of_id(paths: JsonTerm, id: Seq<char>) -> Option<Seq<char>> {
    let list = member_of(member(paths, id), "path"@);
    if is_list(list) && all_strings(items_of(list)) {
        Some(scoped(strings_of(items_of(list))))
    } else {
        None
    }
}

/// The public path of an item.
#[verifier::loop_isolation(false)]
fn public_path(paths: &Json, id: &str) -> (path: Option<String>)
    ensures
        optional_text(path) == path_of_id(paths@, id@),
{
    let ghost list = member_of(member(paths@, id@), "path"@);
    let ghost terms = items_of(list);
    match list_in(get_in(paths.get(id), "path")) {
        Some(items) => {
            let mut parts: Vec<String> = Vec::new();
            let mut i: usize = 0;
            while i < items.len()
                invariant
                    i <= items@.len(),
                    parts@.len() == i,
                    forall|k: int| 0 <= k < i ==> string_of(Some(#[trigger] terms[k])) is Some,
                    text_list(parts@) =~= strings_of(terms).take(i as int),
                decreases items@.len() - i,
            {
                assert(terms[i as int] == items@[i as int]@);
                match items[i].as_str() {
                    Some(part) => {
                        let ghost before = parts@;
                        parts.push(part.to_owned());
                        assert(text_list(parts@) =~= text_list(before).push(part@));
                    },
                    None => {
                        return None;
                    },
                }
                i += 1;
            }
            let count: usize = parts.len();
            assert(text_list(parts@).take(count as int) =~= strings_of(terms));
            Some(scoped_name(&parts, count))
        },
        None => None,
    }
}

/// The function that an item is.
pub open spec fn function_in(item: JsonTerm) -> Option<JsonTerm> {
    only_object(member_of(member(item, "inner"@), "function"@))
}

/// The function that an item is.
fn function_of<'a>(item: &'a Json) -> (function: Option<&'a Json>)
    ensures
        optional_json(function) == function_in(item@),
{
    object_in(get_in(item.get("inner"), "function"))
}

/// The callable that a method of a trait is, where it is one.
pub open spec fn method_callable(index: JsonTerm, trait_path: Seq<char>, id: JsonTerm) -> Result<
    Option<CallableView>,
    Fault,
> {
    match natural_of(Some(id)) {
        Some(number) => {
            let method = only_object(member(index, decimal(number as nat)));
            match method {
                Some(method) => match (function_in(method), string_of(member(method, "name"@))) {
                    (Some(function), Some(name)) => match described_signature(function) {
                        Ok(signature) => Ok(
                            Some(
                                CallableView {
                                    path: trait_path + "::"@ + name,
                                    container: ContainerView::Trait(trait_path),
                                    signature: Some(signature),
                                },
                            ),
                        ),
                        Err(fault) => Err(fault),
                    },
                    _ => Ok(None),
                },
                None => Ok(None),
            }
        },
        None => Err(Fault::Invalid("trait method ID"@)),
    }
}

/// The callables that the first so many methods of a trait are.
pub open spec fn method_callables(
    index: JsonTerm,
    trait_path: Seq<char>,
    ids: Seq<JsonTerm>,
    n: int,
) -> Result<Seq<CallableView>, Fault>
    decreases n,
{
    if n <= 0 || n > ids.len() {
        Ok(Seq::empty())
    } else {
        match method_callables(index, trait_path, ids, n - 1) {
            Ok(before) => match method_callable(index, trait_path, ids[n - 1]) {
                Ok(Some(callable)) => Ok(before.push(callable)),
                Ok(None) => Ok(before),
                Err(fault) => Err(fault),
            },
            Err(fault) => Err(fault),
        }
    }
}

/// What is wrong with the first methods is wrong with more of them.
proof fn lemma_method_fault(
    index: JsonTerm,
    trait_path: Seq<char>,
    ids: Seq<JsonTerm>,
    n: int,
    m: int,
)
    requires
        0 <= n <= m <= ids.len(),
        method_callables(index, trait_path, ids, n) is Err,
    ensures
        method_callables(index, trait_path, ids, m) == method_callables(index, trait_path, ids, n),
    decreases m - n,
{
    if n < m {
        lemma_method_fault(index, trait_path, ids, n, m - 1);
    }
}

/// The path of a trait: its public one, or else its name in the package.
pub open spec fn path_of_trait(
    paths: JsonTerm,
    package: Seq<char>,
    id: Seq<char>,
    item: JsonTerm,
) -> Seq<char> {
    match path_of_id(paths, id) {
        Some(path) => path,
        None => package + "::"@ + match string_of(member(item, "name"@)) {
            Some(name) => name,
            None => "<unnamed>"@,
        },
    }
}

/// The callables that an item offers as a trait.
pub open spec fn trait_item_callables(
    index: JsonTerm,
    paths: JsonTerm,
    package: Seq<char>,
    id: Seq<char>,
    item: JsonTerm,
) -> Result<Seq<CallableView>, Fault> {
    if !(item.shape is Object) {
        Err(Fault::Invalid("item"@))
    } else {
        match member_of(member(item, "inner"@), "trait"@) {
            Some(value) => if !(value.shape is Object) {
                Err(Fault::Invalid("trait"@))
            } else {
                let ids = items_of(member(value, "items"@));
                method_callables(
                    index,
                    path_of_trait(paths, package, id, item),
                    ids,
                    ids.len() as int,
                )
            },
            None => Ok(Seq::empty()),
        }
    }
}

/// The ids of an index.
pub open spec fn ids_of(index: JsonTerm) -> Seq<Seq<char>> {
    match index.shape {
        JsonShape::Object(keys) => keys,
        _ => Seq::empty(),
    }
}

/// The callables that the first so many items of an index offer as traits.
pub open spec fn trait_callables(
    index: JsonTerm,
    paths: JsonTerm,
    package: Seq<char>,
    n: int,
) -> Result<Seq<CallableView>, Fault>
    decreases n,
{
    if n <= 0 || n > index.parts.len() {
        Ok(Seq::empty())
    } else {
        match trait_callables(index, paths, package, n - 1) {
            Ok(before) => match trait_item_callables(
                index,
                paths,
                package,
                ids_of(index)[n - 1],
                index.parts[n - 1],
            ) {
                Ok(callables) => Ok(before + callables),
                Err(fault) => Err(fault),
            },
            Err(fault) => Err(fault),
        }
    }
}

/// What is wrong with the first items is wrong with more of them.
proof fn lemma_trait_fault(
    index: JsonTerm,
    paths: JsonTerm,
    package: Seq<char>,
    n: int,
    m: int,
)
    requires
        0 <= n <= m <= index.parts.len(),
        trait_callables(index, paths, package, n) is Err,
    ensures
        trait_callables(index, paths, package, m) == trait_callables(index, paths, package, n),
    decreases m - n,
{
    if n < m {
        lemma_trait_fault(index, paths, package, n, m - 1);
    }
}

/// Whether a list of numbers holds the one that an id writes.
pub open spec fn lists_id(items: Seq<JsonTerm>, id: Seq<char>) -> bool {
    exists|k: int|
        0 <= k < items.len() && (natural_of(Some(#[trigger] items[k])) matches Some(number)
            && decimal(number as nat) == id)
}

/// Whether an item is listed by a trait or an implementation.
pub open spec fn is_associated(index: JsonTerm, id: Seq<char>) -> bool {
    exists|i: int|
        0 <= i < index.parts.len() && {
            let inner = member(#[trigger] index.parts[i], "inner"@);
            ||| lists_id(items_of(member_of(member_of(inner, "trait"@), "items"@)), id)
            ||| lists_id(items_of(member_of(member_of(inner, "impl"@), "items"@)), id)
        }
}

/// The path that a function's path is in, or else the package.
pub open spec fn module_of_path(path: Seq<char>, package: Seq<char>) -> Seq<char> {
    if exists|i: int| separates_last(path, i) {
        path.take(choose|i: int| separates_last(path, i))
    } else {
        package
    }
}

/// The callable that an item of an index is as a free function of the package.
pub open spec fn free_callable(
    index: JsonTerm,
    paths: JsonTerm,
    package: Seq<char>,
    id: Seq<char>,
    item: JsonTerm,
) -> Result<Option<CallableView>, Fault> {
    if is_associated(index, id) {
        Ok(None)
    } else if !(item.shape is Object) {
        Err(Fault::Invalid("item"@))
    } else {
        match (function_in(item), path_of_id(paths, id)) {
            (Some(function), Some(path)) => if stands_at(path, package + "::"@, 0) {
                match described_signature(function) {
                    Ok(signature) => Ok(
                        Some(
                            CallableView {
                                path,
                                container: ContainerView::Module(module_of_path(path, package)),
                                signature: Some(signature),
                            },
                        ),
                    ),
                    Err(fault) => Err(fault),
                }
            } else {
                Ok(None)
            },
            _ => Ok(None),
        }
    }
}

/// The callables that the first so many items of an index are as free functions.
pub open spec fn free_callables(
    index: JsonTerm,
    paths: JsonTerm,
    package: Seq<char>,
    n: int,
) -> Result<Seq<CallableView>, Fault>
    decreases n,
{
    if n <= 0 || n > index.parts.len() {
        Ok(Seq::empty())
    } else {
        match free_callables(index, paths, package, n - 1) {
            Ok(before) => match free_callable(
                index,
                paths,
                package,
                ids_of(index)[n - 1],
                index.parts[n - 1],
            ) {
                Ok(Some(callable)) => Ok(before.push(callable)),
                Ok(None) => Ok(before),
                Err(fault) => Err(fault),
            },
            Err(fault) => Err(fault),
        }
    }
}

/// What is wrong with the first items is wrong with more of them.
proof fn lemma_free_fault(
    index: JsonTerm,
    paths: JsonTerm,
    package: Seq<char>,
    n: int,
    m: int,
)
    requires
        0 <= n <= m <= index.parts.len(),
        free_callables(index, paths, package, n) is Err,
    ensures
        free_callables(index, paths, package, m) == free_callables(index, paths, package, n),
    decreases m - n,
{
    if n < m {
        lemma_free_fault(index, paths, package, n, m - 1);
    }
}

/// The format version of a document.
pub open spec fn format_of(document: JsonTerm) -> Option<u32> {
    match natural_of(member(document, "format_version"@)) {
        Some(number) => if number <= u32::MAX {
            Some(number as u32)
        } else {
            None
        },
        None => None,
    }
}

/// What a document says: its format version, and the callables of its package.
pub open spec fn document_callables(document: JsonTerm, package: Seq<char>) -> Result<
    (u32, Seq<CallableView>),
    Fault,
> {
    if !(document.shape is Object) {
        Err(Fault::Invalid("document"@))
    } else if format_of(document) is None {
        Err(Fault::Invalid("format_version"@))
    } else {
        match (
            only_object(member(document, "index"@)),
            only_object(member(document, "paths"@)),
        ) {
            (None, _) => Err(Fault::Missing("index"@)),
            (_, None) => Err(Fault::Missing("paths"@)),
            (Some(index), Some(paths)) => match (
                trait_callables(index, paths, package, index.parts.len() as int),
                free_callables(index, paths, package, index.parts.len() as int),
            ) {
                (Err(fault), _) => Err(fault),
                (_, Err(fault)) => Err(fault),
                (Ok(methods), Ok(functions)) => Ok(
                    (
                        format_of(document)->0,
                        settled_of::<ExternalCallable>(methods + functions),
                    ),
                ),
            },
        }
    }
}

/// The callable that a method of a trait is, where it is one.
fn trait_method(index: &Json, trait_path: &String, id: &Json) -> (result: Result<
    Option<ExternalCallable>,
    Error,
>)
    ensures
        match result {
            Ok(Some(callable)) => method_callable(index@, trait_path@, id@) == Ok::<
                Option<CallableView>,
                Fault,
            >(Some(callable@)),
            Ok(None) => method_callable(index@, trait_path@, id@) == Ok::<
                Option<CallableView>,
                Fault,
            >(None),
            Err(error) => method_callable(index@, trait_path@, id@) == Err::<
                Option<CallableView>,
                Fault,
            >(error@),
        },
{
    let number: u64 = match id.natural() {
        Some(number) => number,
        None => {
            return Err(Error::Invalid("trait method ID"));
        },
    };
    let key = decimal_text(number as u128);
    let method = match object_in(index.get(key.as_str())) {
        Some(method) => method,
        None => {
            return Ok(None);
        },
    };
    let function = match function_of(method) {
        Some(function) => function,
        None => {
            return Ok(None);
        },
    };
    let name = match string_in(method.get("name")) {
        Some(name) => name,
        None => {
            return Ok(None);
        },
    };
    match signature(function) {
        Ok(described) => {
            let mut path = trait_path.clone();
            path.append("::");
            path.append(name);
            Ok(
                Some(
                    ExternalCallable {
                        path,
                        container: CallableContainer::Trait { path: trait_path.clone() },
                        signature: Some(described),
                    },
                ),
            )
        },
        Err(error) => Err(error),
    }
}

/// The path of a trait: its public one, or else its name in the package.
fn trait_path(paths: &Json, package: &str, id: &str, item: &Json) -> (path: String)
    ensures
        path@ == path_of_trait(paths@, package@, id@, item@),
{
    match public_path(paths, id) {
        Some(path) => path,
        None => {
            let mut path = package.to_owned();
            path.append("::");
            match string_in(item.get("name")) {
                Some(name) => {
                    path.append(name);
                },
                None => {
                    path.append("<unnamed>");
                },
            }
            path
        },
    }
}

/// What reading several callables gives.
pub open spec fn callables_view(result: Result<Vec<ExternalCallable>, Error>) -> Result<
    Seq<CallableView>,
    Fault,
> {
    match result {
        Ok(callables) => Ok(callable_views(callables@)),
        Err(error) => Err(error@),
    }
}

/// The callables that an item offers as a trait.
#[verifier::loop_isolation(false)]
fn callables_of_trait(index: &Json, paths: &Json, package: &str, id: &str, item: &Json) -> (result:
    Result<Vec<ExternalCallable>, Error>)
    ensures
        callables_view(result) == trait_item_callables(index@, paths@, package@, id@, item@),
{
    let mut callables: Vec<ExternalCallable> = Vec::new();
    assert(callable_views(callables@) =~= Seq::empty());
    if !item.is_object() {
        return Err(Error::Invalid("item"));
    }
    let value = match get_in(item.get("inner"), "trait") {
        Some(value) => value,
        None => {
            return Ok(callables);
        },
    };
    if !value.is_object() {
        return Err(Error::Invalid("trait"));
    }
    let ghost terms = items_of(member(value@, "items"@));
    let path = trait_path(paths, package, id, item);
    if let Some(ids) = list_in(value.get("items")) {
        let mut i: usize = 0;
        while i < ids.len()
            invariant
                i <= ids@.len(),
                method_callables(index@, path@, terms, i as int) == Ok::<Seq<CallableView>, Fault>(
                    callable_views(callables@),
                ),
            decreases ids@.len() - i,
        {
            assert(terms[i as int] == ids@[i as int]@);
            match trait_method(index, &path, &ids[i]) {
                Ok(Some(callable)) => {
                    let ghost before = callables@;
                    callables.push(callable);
                    assert(callable_views(callables@) =~= callable_views(before).push(callable@));
                },
                Ok(None) => {},
                Err(error) => {
                    proof {
                        lemma_method_fault(index@, path@, terms, i + 1, terms.len() as int);
                    }
                    return Err(error);
                },
            }
            i += 1;
        }
    }
    Ok(callables)
}

/// The callables that the items of an index offer as traits.
#[verifier::loop_isolation(false)]
fn collect_traits(index: &Json, members: &Vec<JsonMember>, paths: &Json, package: &str) -> (result:
    Result<Vec<ExternalCallable>, Error>)
    requires
        index@.shape == JsonShape::Object(member_keys(members@)),
        index@.parts == member_terms(members@),
    ensures
        callables_view(result) == trait_callables(
            index@,
            paths@,
            package@,
            index@.parts.len() as int,
        ),
{
    let mut callables: Vec<ExternalCallable> = Vec::new();
    let mut i: usize = 0;
    assert(callable_views(callables@) =~= Seq::empty());
    while i < members.len()
        invariant
            i <= members@.len(),
            trait_callables(index@, paths@, package@, i as int) == Ok::<Seq<CallableView>, Fault>(
                callable_views(callables@),
            ),
        decreases members@.len() - i,
    {
        assert(index@.parts[i as int] == members@[i as int].value@);
        assert(ids_of(index@)[i as int] == members@[i as int].key@);
        match callables_of_trait(
            index,
            paths,
            package,
            members[i].key.as_str(),
            &members[i].value,
        ) {
            Ok(found) => {
                let mut more = found;
                let ghost before = callables@;
                let ghost after = more@;
                callables.append(&mut more);
                assert(callable_views(callables@) =~= callable_views(before) + callable_views(
                    after,
                ));
            },
            Err(error) => {
                proof {
                    lemma_trait_fault(
                        index@,
                        paths@,
                        package@,
                        i + 1,
                        index@.parts.len() as int,
                    );
                }
                return Err(error);
            },
        }
        i += 1;
    }
    Ok(callables)
}

/// Adds the ids that a list holds to those found.
#[verifier::loop_isolation(false)]
fn add_ids(found: &mut Vec<String>, items: Option<&Json>)
    ensures
        forall|id: Seq<char>| #[trigger]
            text_list(final(found)@).contains(id) <==> text_list(old(found)@).contains(id)
                || lists_id(items_of(optional_json(items)), id),
{
    let ghost terms = items_of(optional_json(items));
    let ghost before = text_list(found@);
    if let Some(list) = list_in(items) {
        let mut i: usize = 0;
        while i < list.len()
            invariant
                i <= list@.len(),
                terms == json_terms(list@),
                forall|id: Seq<char>| #[trigger]
                    text_list(found@).contains(id) <==> before.contains(id) || lists_id(
                        terms.take(i as int),
                        id,
                    ),
            decreases list@.len() - i,
        {
            let ghost held = text_list(found@);
            let ghost listed = terms.take(i as int);
            assert(terms[i as int] == list@[i as int]@);
            assert(terms.take(i + 1) =~= listed.push(terms[i as int]));
            match list[i].natural() {
                Some(number) => {
                    let text = decimal_text(number as u128);
                    found.push(text);
                    proof {
                        assert(text_list(found@) =~= held.push(text@));
                        assert forall|id: Seq<char>| #[trigger]
                            text_list(found@).contains(id) <==> before.contains(id) || lists_id(
                                terms.take(i + 1),
                                id,
                            ) by {
                            lemma_listed(listed, terms[i as int], id);
                            lemma_pushed(held, text@, id);
                            assert(held.contains(id) <==> before.contains(id) || lists_id(listed, id));
                        }
                    }
                },
                None => {
                    proof {
                        assert forall|id: Seq<char>| #[trigger]
                            text_list(found@).contains(id) <==> before.contains(id) || lists_id(
                                terms.take(i + 1),
                                id,
                            ) by {
                            lemma_listed(listed, terms[i as int], id);
                            assert(held.contains(id) <==> before.contains(id) || lists_id(listed, id));
                        }
                    }
                },
            }
            i += 1;
        }
        assert(terms.take(i as int) =~= terms);
    } else {
        assert(terms.len() == 0);
    }
}

/// A list with one more value holds an id where it did or the value writes it.
proof fn lemma_listed(items: Seq<JsonTerm>, item: JsonTerm, id: Seq<char>)
    ensures
        lists_id(items.push(item), id) <==> lists_id(items, id) || (natural_of(
            Some(item),
        ) matches Some(number) && decimal(number as nat) == id),
{
    let all = items.push(item);
    if lists_id(items, id) {
        let k = choose|k: int|
            0 <= k < items.len() && (natural_of(Some(#[trigger] items[k])) matches Some(number)
                && decimal(number as nat) == id);
        assert(all[k] == items[k]);
    }
    assert(all[items.len() as int] == item);
    if lists_id(all, id) {
        let k = choose|k: int|
            0 <= k < all.len() && (natural_of(Some(#[trigger] all[k])) matches Some(number)
                && decimal(number as nat) == id);
        if k < items.len() {
            assert(items[k] == all[k]);
        }
    }
}

/// A list with one more text holds what it held and the text.
proof fn lemma_pushed(list: Seq<Seq<char>>, text: Seq<char>, id: Seq<char>)
    ensures
        list.push(text).contains(id) <==> list.contains(id) || id == text,
{
    let all = list.push(text);
    assert(all[list.len() as int] == text);
    if list.contains(id) {
        let k = choose|k: int| 0 <= k < list.len() && list[k] == id;
        assert(all[k] == id);
    }
    if all.contains(id) {
        let k = choose|k: int| 0 <= k < all.len() && all[k] == id;
        if k < list.len() {
            assert(list[k] == id);
        }
    }
}

/// Whether one of the first so many items of an index lists an id.
spec fn associated_before(index: JsonTerm, id: Seq<char>, n: int) -> bool {
    exists|i: int|
        0 <= i < n && {
            let inner = member(#[trigger] index.parts[i], "inner"@);
            ||| lists_id(items_of(member_of(member_of(inner, "trait"@), "items"@)), id)
            ||| lists_id(items_of(member_of(member_of(inner, "impl"@), "items"@)), id)
        }
}

/// The ids of the items that traits and implementations list.
#[verifier::loop_isolation(false)]
fn associated_item_ids(index: &Json, members: &Vec<JsonMember>) -> (ids: Vec<String>)
    requires
        index@.parts == member_terms(members@),
    ensures
        forall|id: Seq<char>| #[trigger]
            text_list(ids@).contains(id) <==> is_associated(index@, id),
{
    let mut ids: Vec<String> = Vec::new();
    let mut i: usize = 0;
    while i < members.len()
        invariant
            i <= members@.len(),
            forall|id: Seq<char>| #[trigger]
                text_list(ids@).contains(id) <==> associated_before(index@, id, i as int),
        decreases members@.len() - i,
    {
        let ghost before = text_list(ids@);
        let item = &members[i].value;
        assert(index@.parts[i as int] == item@);
        let inner = item.get("inner");
        add_ids(&mut ids, get_in(get_in(inner, "trait"), "items"));
        let ghost middle = text_list(ids@);
        add_ids(&mut ids, get_in(get_in(inner, "impl"), "items"));
        proof {
            let inner_term = member(index@.parts[i as int], "inner"@);
            assert forall|id: Seq<char>| #[trigger]
                text_list(ids@).contains(id) <==> associated_before(index@, id, i + 1) by {
                let here = lists_id(
                    items_of(member_of(member_of(inner_term, "trait"@), "items"@)),
                    id,
                ) || lists_id(items_of(member_of(member_of(inner_term, "impl"@), "items"@)), id);
                assert(middle.contains(id) <==> before.contains(id) || lists_id(
                    items_of(member_of(member_of(inner_term, "trait"@), "items"@)),
                    id,
                ));
                assert(before.contains(id) <==> associated_before(index@, id, i as int));
                if associated_before(index@, id, i + 1) && !here {
                    let k = choose|k: int|
                        0 <= k < i + 1 && {
                            let inner = member(#[trigger] index@.parts[k], "inner"@);
                            ||| lists_id(
                                items_of(member_of(member_of(inner, "trait"@), "items"@)),
                                id,
                            )
                            ||| lists_id(
                                items_of(member_of(member_of(inner, "impl"@), "items"@)),
                                id,
                            )
                        };
                    assert(k < i);
                }
            }
        }
        i += 1;
    }
    proof {
        assert forall|id: Seq<char>| #[trigger]
            text_list(ids@).contains(id) <==> is_associated(index@, id) by {
            assert(associated_before(index@, id, index@.parts.len() as int) <==> is_associated(
                index@,
                id,
            ));
        }
    }
    ids
}

/// Whether a path lies in a package.
fn is_in_package(path: &str, package: &str) -> (inside: bool)
    ensures
        inside == stands_at(path@, package@ + "::"@, 0),
{
    let chars = chars_of(path);
    let mut prefix = package.to_owned();
    prefix.append("::");
    let wanted = chars_of(prefix.as_str());
    let count: usize = wanted.len();
    if chars.len() < count {
        return false;
    }
    let start = text_of(&chars, 0, count);
    same_text(start.as_str(), prefix.as_str())
}

/// The path that a function's path is in, or else the package.
fn enclosing_path(path: &str, package: &str) -> (module: String)
    ensures
        module@ == module_of_path(path@, package@),
{
    let chars = chars_of(path);
    match last_separator(&chars) {
        Some(place) => {
            proof {
                lemma_separates_last(
                    chars@,
                    place as int,
                    choose|i: int| separates_last(chars@, i),
                );
                assert(chars@.subrange(0, place as int) =~= chars@.take(place as int));
            }
            text_of(&chars, 0, place)
        },
        None => package.to_owned(),
    }
}

/// The callables that the items of an index are as free functions.
#[verifier::loop_isolation(false)]
fn collect_functions(
    index: &Json,
    members: &Vec<JsonMember>,
    paths: &Json,
    package: &str,
) -> (result: Result<Vec<ExternalCallable>, Error>)
    requires
        index@.shape == JsonShape::Object(member_keys(members@)),
        index@.parts == member_terms(members@),
    ensures
        callables_view(result) == free_callables(
            index@,
            paths@,
            package@,
            index@.parts.len() as int,
        ),
{
    let associated = associated_item_ids(index, members);
    let mut callables: Vec<ExternalCallable> = Vec::new();
    let mut i: usize = 0;
    assert(callable_views(callables@) =~= Seq::empty());
    while i < members.len()
        invariant
            i <= members@.len(),
            free_callables(index@, paths@, package@, i as int) == Ok::<Seq<CallableView>, Fault>(
                callable_views(callables@),
            ),
        decreases members@.len() - i,
    {
        assert(index@.parts[i as int] == members@[i as int].value@);
        assert(ids_of(index@)[i as int] == members@[i as int].key@);
        match free_function(
            index,
            &associated,
            paths,
            package,
            members[i].key.as_str(),
            &members[i].value,
        ) {
            Ok(Some(callable)) => {
                let ghost before = callables@;
                callables.push(callable);
                assert(callable_views(callables@) =~= callable_views(before).push(callable@));
            },
            Ok(None) => {},
            Err(error) => {
                proof {
                    lemma_free_fault(index@, paths@, package@, i + 1, index@.parts.len() as int);
                }
                return Err(error);
            },
        }
        i += 1;
    }
    Ok(callables)
}

/// The callable that an item of an index is as a free function of the package.
fn free_function(
    index: &Json,
    associated: &Vec<String>,
    paths: &Json,
    package: &str,
    id: &str,
    item: &Json,
) -> (result: Result<Option<ExternalCallable>, Error>)
    requires
        forall|id: Seq<char>| #[trigger]
            text_list(associated@).contains(id) <==> is_associated(index@, id),
    ensures
        match result {
            Ok(Some(callable)) => free_callable(index@, paths@, package@, id@, item@) == Ok::<
                Option<CallableView>,
                Fault,
            >(Some(callable@)),
            Ok(None) => free_callable(index@, paths@, package@, id@, item@) == Ok::<
                Option<CallableView>,
                Fault,
            >(None),
            Err(error) => free_callable(index@, paths@, package@, id@, item@) == Err::<
                Option<CallableView>,
                Fault,
            >(error@),
        },
{
    proof {
        assert(crate::syntax::name_list(associated@) =~= text_list(associated@));
    }
    if lists_name(associated, id) {
        assert(text_list(associated@).contains(id@));
        return Ok(None);
    }
    assert(!text_list(associated@).contains(id@));
    if !item.is_object() {
        return Err(Error::Invalid("item"));
    }
    let function = match function_of(item) {
        Some(function) => function,
        None => {
            return Ok(None);
        },
    };
    let path = match public_path(paths, id) {
        Some(path) => path,
        None => {
            return Ok(None);
        },
    };
    if !is_in_package(path.as_str(), package) {
        return Ok(None);
    }
    match signature(function) {
        Ok(described) => {
            let module = enclosing_path(path.as_str(), package);
            Ok(
                Some(
                    ExternalCallable {
                        path,
                        container: CallableContainer::Module { path: module },
                        signature: Some(described),
                    },
                ),
            )
        },
        Err(error) => Err(error),
    }
}

/// What a document says: its format version, and the callables of its package in
/// order and without repetition.
pub fn catalog_document(document: &Json, package: &str) -> (result: Result<
    (u32, Vec<ExternalCallable>),
    Error,
>)
    ensures
        match result {
            Ok((format, callables)) => document_callables(document@, package@) == Ok::<
                (u32, Seq<CallableView>),
                Fault,
            >((format, callable_views(callables@))),
            Err(error) => document_callables(document@, package@) == Err::<
                (u32, Seq<CallableView>),
                Fault,
            >(error@),
        },
{
    if !document.is_object() {
        return Err(Error::Invalid("document"));
    }
    let format: u32 = match document.get("format_version") {
        Some(value) => match value.natural() {
            Some(number) => {
                if number > u32::MAX as u64 {
                    return Err(Error::Invalid("format_version"));
                }
                number as u32
            },
            None => {
                return Err(Error::Invalid("format_version"));
            },
        },
        None => {
            return Err(Error::Invalid("format_version"));
        },
    };
    let index = match document.get("index") {
        Some(index) => index,
        None => {
            return Err(Error::Missing("index"));
        },
    };
    let members = match index {
        Json::Object(members) => members,
        _ => {
            return Err(Error::Missing("index"));
        },
    };
    let paths = match object_in(document.get("paths")) {
        Some(paths) => paths,
        None => {
            return Err(Error::Missing("paths"));
        },
    };
    let mut callables = match collect_traits(index, members, paths, package) {
        Ok(callables) => callables,
        Err(error) => {
            return Err(error);
        },
    };
    let mut functions = match collect_functions(index, members, paths, package) {
        Ok(functions) => functions,
        Err(error) => {
            return Err(error);
        },
    };
    let ghost one = callables@;
    let ghost two = functions@;
    callables.append(&mut functions);
    assert(keys(callables@) =~= callable_views(one) + callable_views(two));
    let settled = settled_list(callables);
    assert(keys(settled@) =~= callable_views(settled@));
    Ok((format, settled))
}

/// The catalog of what a package offers, from what rustdoc wrote of it.
pub fn build_catalog(request: CatalogRequest<'_>) -> (result: Result<ExternalCatalog, Error>)
    ensures
        match result {
            Ok(catalog) => {
                &&& parsed_json(request.rustdoc_json@) matches Ok(document)
                &&& document_callables(document, request.package@) == Ok::<
                    (u32, Seq<CallableView>),
                    Fault,
                >((catalog.rustdoc_format, callable_views(catalog.callables@)))
                &&& catalog.schema == EXTERNAL_CATALOG_SCHEMA
                &&& catalog.package@ == request.package@
                &&& catalog.version@ == request.version@
                &&& catalog.source_sha256@ == sha256_text(request.rustdoc_json@)
            },
            Err(error) => match parsed_json(request.rustdoc_json@) {
                Ok(document) => document_callables(document, request.package@) == Err::<
                    (u32, Seq<CallableView>),
                    Fault,
                >(error@),
                Err(message) => error@ == Fault::Json(message),
            },
        },
{
    let document = match parse_json(request.rustdoc_json) {
        Ok(document) => document,
        Err(message) => {
            return Err(Error::Json(message));
        },
    };
    match catalog_document(&document, request.package) {
        Ok((rustdoc_format, callables)) => Ok(
            ExternalCatalog {
                schema: EXTERNAL_CATALOG_SCHEMA,
                package: request.package.to_owned(),
                version: request.version.to_owned(),
                rustdoc_format,
                source_sha256: sha256_hex(request.rustdoc_json),
                callables,
            },
        ),
        Err(error) => Err(error),
    }
}

} // verus!
