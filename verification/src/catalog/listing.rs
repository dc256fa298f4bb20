//! What a catalog lists of the document it was read from.

use crate::behaviors::separates_last;
use crate::catalog::json::{
    items_of, member, member_of, natural_of, only_object, string_of, JsonShape, JsonTerm,
};
use crate::catalog::signatures::described_signature;
use crate::catalog::{
    document_callables, free_callable, free_callables, ids_of, is_associated, lists_id,
    method_callable, method_callables, module_of_path, path_of_id, trait_callables,
    trait_item_callables, Fault,
};
use crate::errors::naming::scoped;
use crate::external::{CallableView, ContainerView, ExternalCallable};
use crate::ordering::{lemma_settles, settled_of};
use crate::text::{decimal, stands_at};
use vstd::prelude::*;
use vstd::string::*;

verus! {

/// What a function's module is: everything before the last double colon of its path.
pub proof fn law_a_function_is_in_the_module_before_its_name(
    module: Seq<char>,
    name: Seq<char>,
    package: Seq<char>,
)
    requires
        !name.contains(':'),
    ensures
        module_of_path(module + seq![':', ':'] + name, package) == module,
        module_of_path(name, package) == package,
{
    let path = module + seq![':', ':'] + name;
    let at = module.len() as int;
    assert(path[at] == ':' && path[at + 1] == ':');
    assert forall|j: int| at < j < path.len() - 1 implies !(#[trigger] path[j] == ':' && path[j + 1]
        == ':') by {
        assert(path[j + 1] == name[j + 1 - at - 2]);
        if path[j + 1] == ':' {
            assert(name.contains(':'));
        }
    }
    assert(separates_last(path, at));
    let i = choose|i: int| separates_last(path, i);
    if i < at {
        assert(path[at] == ':' && path[at + 1] == ':');
    }
    if i > at {
        assert(path[i] == ':' && path[i + 1] == ':');
    }
    assert(i == at);
    assert(path.take(at) =~= module);
    assert forall|i: int| !separates_last(name, i) by {
        if separates_last(name, i) {
            assert(name[i] == ':');
            assert(name.contains(':'));
        }
    }
}

/// A public path is told as its parts with double colons between them.
pub proof fn law_public_paths_are_told_in_full(
    paths: JsonTerm,
    id: Seq<char>,
    entry: JsonTerm,
    list: JsonTerm,
    parts: Seq<Seq<char>>,
)
    requires
        member(paths, id) == Some(entry),
        member(entry, "path"@) == Some(list),
        list.shape is List,
        list.parts.len() == parts.len(),
        forall|i: int|
            0 <= i < parts.len() ==> (#[trigger] list.parts[i]).shape == JsonShape::Text(parts[i]),
    ensures
        path_of_id(paths, id) == Some(scoped(parts)),
{
    assert(crate::catalog::strings_of(list.parts) =~= parts);
}

proof fn lemma_function_kept(
    index: JsonTerm,
    paths: JsonTerm,
    package: Seq<char>,
    n: int,
    i: int,
)
    requires
        0 <= i < n <= index.parts.len(),
        free_callables(index, paths, package, n) is Ok,
    ensures
        free_callable(index, paths, package, ids_of(index)[i], index.parts[i]) matches Ok(
            found,
        ) && (found matches Some(callable) ==> free_callables(
            index,
            paths,
            package,
            n,
        )->Ok_0.contains(callable)),
    decreases n,
{
    let all = free_callables(index, paths, package, n)->Ok_0;
    let found = free_callable(index, paths, package, ids_of(index)[i], index.parts[i]);
    if i == n - 1 {
        if let Ok(Some(callable)) = found {
            assert(all.last() == callable);
        }
    } else {
        lemma_function_kept(index, paths, package, n - 1, i);
        let before = free_callables(index, paths, package, n - 1)->Ok_0;
        if let Ok(Some(callable)) = found {
            let k = choose|k: int| 0 <= k < before.len() && before[k] == callable;
            assert(all[k] == callable);
        }
    }
}

/// Every public function of the package that no trait and no implementation lists is
/// in the catalog, under its path, in its module and with its signature.
pub proof fn law_every_public_function_is_listed(
    document: JsonTerm,
    package: Seq<char>,
    index: JsonTerm,
    paths: JsonTerm,
    i: int,
    function: JsonTerm,
    path: Seq<char>,
)
    requires
        document_callables(document, package) is Ok,
        member(document, "index"@) == Some(index),
        member(document, "paths"@) == Some(paths),
        index.shape is Object,
        paths.shape is Object,
        0 <= i < index.parts.len(),
        index.parts[i].shape is Object,
        function.shape is Object,
        member_of(member(index.parts[i], "inner"@), "function"@) == Some(function),
        path_of_id(paths, ids_of(index)[i]) == Some(package + "::"@ + path),
        !is_associated(index, ids_of(index)[i]),
    ensures
        described_signature(function) matches Ok(signature) && document_callables(
            document,
            package,
        )->Ok_0.1.contains(
            (CallableView {
                path: package + "::"@ + path,
                container: ContainerView::Module(
                    module_of_path(package + "::"@ + path, package),
                ),
                signature: Some(signature),
            }),
        ),
{
    let n = index.parts.len() as int;
    let methods = trait_callables(index, paths, package, n)->Ok_0;
    let functions = free_callables(index, paths, package, n)->Ok_0;
    lemma_function_kept(index, paths, package, n, i);
    let whole = package + "::"@ + path;
    assert(stands_at(whole, package + "::"@, 0)) by {
        assert(whole.subrange(0, (package + "::"@).len() as int) =~= package + "::"@);
    }
    let callable = free_callable(
        index,
        paths,
        package,
        ids_of(index)[i],
        index.parts[i],
    )->Ok_0->0;
    lemma_settles::<ExternalCallable>(methods + functions);
    let k = choose|k: int| 0 <= k < functions.len() && functions[k] == callable;
    assert((methods + functions)[methods.len() + k] == callable);
    assert((methods + functions).contains(callable));
    assert(settled_of::<ExternalCallable>(methods + functions).contains(callable));
}

proof fn lemma_method_kept(
    index: JsonTerm,
    path: Seq<char>,
    ids: Seq<JsonTerm>,
    n: int,
    i: int,
)
    requires
        0 <= i < n <= ids.len(),
        method_callables(index, path, ids, n) is Ok,
    ensures
        method_callable(index, path, ids[i]) matches Ok(found) && (found matches Some(callable)
            ==> method_callables(index, path, ids, n)->Ok_0.contains(callable)),
    decreases n,
{
    let all = method_callables(index, path, ids, n)->Ok_0;
    let found = method_callable(index, path, ids[i]);
    if i == n - 1 {
        if let Ok(Some(callable)) = found {
            assert(all.last() == callable);
        }
    } else {
        lemma_method_kept(index, path, ids, n - 1, i);
        let before = method_callables(index, path, ids, n - 1)->Ok_0;
        if let Ok(Some(callable)) = found {
            let k = choose|k: int| 0 <= k < before.len() && before[k] == callable;
            assert(all[k] == callable);
        }
    }
}

proof fn lemma_trait_kept(
    index: JsonTerm,
    paths: JsonTerm,
    package: Seq<char>,
    n: int,
    i: int,
    callable: CallableView,
)
    requires
        0 <= i < n <= index.parts.len(),
        trait_callables(index, paths, package, n) is Ok,
    ensures
        trait_item_callables(
            index,
            paths,
            package,
            ids_of(index)[i],
            index.parts[i],
        ) matches Ok(found) && (found.contains(callable) ==> trait_callables(
            index,
            paths,
            package,
            n,
        )->Ok_0.contains(callable)),
    decreases n,
{
    let all = trait_callables(index, paths, package, n)->Ok_0;
    let before = trait_callables(index, paths, package, n - 1)->Ok_0;
    let found = trait_item_callables(index, paths, package, ids_of(index)[i], index.parts[i]);
    if i == n - 1 {
        if found->Ok_0.contains(callable) {
            let k = choose|k: int| 0 <= k < found->Ok_0.len() && found->Ok_0[k] == callable;
            assert(all[before.len() + k] == callable);
        }
    } else {
        lemma_trait_kept(index, paths, package, n - 1, i, callable);
        if found->Ok_0.contains(callable) {
            let k = choose|k: int| 0 <= k < before.len() && before[k] == callable;
            assert(all[k] == callable);
        }
    }
}

/// Every method of every trait of the document is in the catalog, under the path of
/// the trait and its own name, with its signature.
pub proof fn law_every_trait_method_is_listed(
    document: JsonTerm,
    package: Seq<char>,
    index: JsonTerm,
    paths: JsonTerm,
    i: int,
    value: JsonTerm,
    trait_path: Seq<char>,
    j: int,
    number: u64,
    method: JsonTerm,
    function: JsonTerm,
    name: Seq<char>,
)
    requires
        document_callables(document, package) is Ok,
        member(document, "index"@) == Some(index),
        member(document, "paths"@) == Some(paths),
        index.shape is Object,
        paths.shape is Object,
        0 <= i < index.parts.len(),
        index.parts[i].shape is Object,
        member_of(member(index.parts[i], "inner"@), "trait"@) == Some(value),
        value.shape is Object,
        path_of_id(paths, ids_of(index)[i]) == Some(trait_path),
        0 <= j < items_of(member(value, "items"@)).len(),
        natural_of(Some(items_of(member(value, "items"@))[j])) == Some(number),
        member(index, decimal(number as nat)) == Some(method),
        method.shape is Object,
        member_of(member(method, "inner"@), "function"@) == Some(function),
        function.shape is Object,
        string_of(member(method, "name"@)) == Some(name),
    ensures
        described_signature(function) matches Ok(signature) && document_callables(
            document,
            package,
        )->Ok_0.1.contains(
            (CallableView {
                path: trait_path + "::"@ + name,
                container: ContainerView::Trait(trait_path),
                signature: Some(signature),
            }),
        ),
{
    let n = index.parts.len() as int;
    let ids = items_of(member(value, "items"@));
    let methods = trait_callables(index, paths, package, n)->Ok_0;
    let functions = free_callables(index, paths, package, n)->Ok_0;
    let callable = CallableView {
        path: trait_path + "::"@ + name,
        container: ContainerView::Trait(trait_path),
        signature: Some(described_signature(function)->Ok_0),
    };
    lemma_trait_kept(index, paths, package, n, i, callable);
    lemma_method_kept(index, trait_path, ids, ids.len() as int, j);
    lemma_settles::<ExternalCallable>(methods + functions);
    let k = choose|k: int| 0 <= k < methods.len() && methods[k] == callable;
    assert((methods + functions)[k] == callable);
    assert((methods + functions).contains(callable));
    assert(settled_of::<ExternalCallable>(methods + functions).contains(callable));
}

proof fn lemma_function_from(
    index: JsonTerm,
    paths: JsonTerm,
    package: Seq<char>,
    n: int,
    k: int,
)
    requires
        0 <= n <= index.parts.len(),
        free_callables(index, paths, package, n) is Ok,
        0 <= k < free_callables(index, paths, package, n)->Ok_0.len(),
    ensures
        exists|i: int|
            0 <= i < n && free_callable(
                index,
                paths,
                package,
                ids_of(index)[i],
                #[trigger] index.parts[i],
            ) == Ok::<Option<CallableView>, Fault>(
                Some(free_callables(index, paths, package, n)->Ok_0[k]),
            ),
    decreases n,
{
    if n > 0 {
        let before = free_callables(index, paths, package, n - 1)->Ok_0;
        if k < before.len() {
            lemma_function_from(index, paths, package, n - 1, k);
            let i = choose|i: int|
                0 <= i < n - 1 && free_callable(
                    index,
                    paths,
                    package,
                    ids_of(index)[i],
                    #[trigger] index.parts[i],
                ) == Ok::<Option<CallableView>, Fault>(Some(before[k]));
            assert(index.parts[i] == index.parts[i]);
        } else {
            assert(index.parts[n - 1] == index.parts[n - 1]);
        }
    }
}

/// What the catalog lists outside a trait is a function of an item that no trait and
/// no implementation lists, under its public path, which is one of the package.
pub proof fn law_only_public_functions_are_listed(
    index: JsonTerm,
    paths: JsonTerm,
    package: Seq<char>,
    k: int,
)
    requires
        free_callables(index, paths, package, index.parts.len() as int) is Ok,
        0 <= k < free_callables(index, paths, package, index.parts.len() as int)->Ok_0.len(),
    ensures
        ({
            let callable = free_callables(
                index,
                paths,
                package,
                index.parts.len() as int,
            )->Ok_0[k];
            exists|i: int|
                0 <= i < index.parts.len() && path_of_id(paths, ids_of(index)[i]) == Some(
                    callable.path,
                ) && !is_associated(index, ids_of(index)[i]) && (member_of(
                    member(#[trigger] index.parts[i], "inner"@),
                    "function"@,
                ) matches Some(function) && function.shape is Object && (callable.signature matches Some(
                    signature,
                ) && described_signature(function) == Ok::<_, Fault>(signature)))
                    && callable.path.len() >= package.len() + 2 && callable.path.take(
                    package.len() as int,
                ) == package && callable.path[package.len() as int] == ':'
                    && callable.path[package.len() as int + 1] == ':'
        }),
{
    let n = index.parts.len() as int;
    lemma_function_from(index, paths, package, n, k);
    let callable = free_callables(index, paths, package, n)->Ok_0[k];
    let i = choose|i: int|
        0 <= i < n && free_callable(
            index,
            paths,
            package,
            ids_of(index)[i],
            #[trigger] index.parts[i],
        ) == Ok::<Option<CallableView>, Fault>(Some(callable));
    reveal_strlit("::");
    let prefix = package + "::"@;
    assert(stands_at(callable.path, prefix, 0));
    assert(callable.path.take(package.len() as int) =~= package) by {
        assert(callable.path.subrange(0, prefix.len() as int) == prefix);
        assert forall|m: int| 0 <= m < package.len() implies callable.path[m] == package[m] by {
            assert(callable.path.subrange(0, prefix.len() as int)[m] == prefix[m]);
        }
    }
    assert(callable.path.subrange(0, prefix.len() as int)[package.len() as int]
        == prefix[package.len() as int]);
    assert(callable.path.subrange(0, prefix.len() as int)[package.len() as int + 1]
        == prefix[package.len() as int + 1]);
}

/// Whether an id is listed by what an item is under a name.
pub open spec fn lists_under(item: JsonTerm, name: Seq<char>, id: Seq<char>) -> bool {
    exists|k: int|
        0 <= k < items_of(member_of(member_of(member(item, "inner"@), name), "items"@)).len() && (
        natural_of(
            Some(
                #[trigger] items_of(
                    member_of(member_of(member(item, "inner"@), name), "items"@),
                )[k],
            ),
        ) matches Some(number) && decimal(number as nat) == id)
}

/// An item belongs to a trait or an implementation where one lists its number, and
/// nowhere else.
pub proof fn law_listed_items_are_associated(index: JsonTerm, id: Seq<char>)
    ensures
        is_associated(index, id) <==> exists|i: int|
            0 <= i < index.parts.len() && (lists_under(#[trigger] index.parts[i], "trait"@, id)
                || lists_under(index.parts[i], "impl"@, id)),
{
    if is_associated(index, id) {
        let i = choose|i: int|
            0 <= i < index.parts.len() && {
                let inner = member(#[trigger] index.parts[i], "inner"@);
                ||| lists_id(items_of(member_of(member_of(inner, "trait"@), "items"@)), id)
                ||| lists_id(items_of(member_of(member_of(inner, "impl"@), "items"@)), id)
            };
        assert(lists_under(index.parts[i], "trait"@, id) || lists_under(
            index.parts[i],
            "impl"@,
            id,
        ));
    }
}

/// What a document must have, and what is said where it lacks it: it is an object
/// with a format version that fits, an index and paths.
pub proof fn law_faulty_documents_are_refused(document: JsonTerm, package: Seq<char>)
    ensures
        !(document.shape is Object) ==> document_callables(document, package) == Err::<
            (u32, Seq<CallableView>),
            Fault,
        >(Fault::Invalid("document"@)),
        document.shape is Object && natural_of(member(document, "format_version"@)) is None
            ==> document_callables(document, package) == Err::<(u32, Seq<CallableView>), Fault>(
            Fault::Invalid("format_version"@),
        ),
        document.shape is Object && natural_of(member(document, "format_version"@)) is Some
            && natural_of(member(document, "format_version"@))->0 <= u32::MAX && only_object(
            member(document, "index"@),
        ) is None ==> document_callables(document, package) == Err::<
            (u32, Seq<CallableView>),
            Fault,
        >(Fault::Missing("index"@)),
        document_callables(document, package) matches Ok((version, _)) ==> natural_of(
            member(document, "format_version"@),
        ) == Some(version as u64),
{
}

} // verus!
