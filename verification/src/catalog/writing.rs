//! How types and signatures are written in rustdoc JSON, and that reading them gives
//! them back.

use super::json::{compact, key_from, member, member_place, string_of, JsonShape, JsonTerm};
use super::signatures::{
    described_bound, described_bounds, described_output, described_parameters,
    described_requirement, described_requirements, described_signature, predicates_of,
};
use super::types::{
    argument_list, argument_types, described_type, item_types, member_type, path_arguments,
    qualified_trait,
};
use super::Fault;
use crate::external::{
    BoundView, ParameterView, RequirementView, SignatureView, TypeShape, TypeTerm,
};
use vstd::prelude::*;
use vstd::string::*;

verus! {

/// An object with some members.
pub open spec fn object(members: Seq<(Seq<char>, JsonTerm)>) -> JsonTerm {
    JsonTerm {
        shape: JsonShape::Object(Seq::new(members.len(), |i: int| members[i].0)),
        parts: Seq::new(members.len(), |i: int| members[i].1),
    }
}

/// A list of values.
pub open spec fn list(parts: Seq<JsonTerm>) -> JsonTerm {
    JsonTerm { shape: JsonShape::List, parts }
}

/// A text.
pub open spec fn text(value: Seq<char>) -> JsonTerm {
    JsonTerm { shape: JsonShape::Text(value), parts: Seq::empty() }
}

/// Yes or no.
pub open spec fn truth(value: bool) -> JsonTerm {
    JsonTerm { shape: JsonShape::Bool(value), parts: Seq::empty() }
}

/// Nothing.
pub open spec fn nothing() -> JsonTerm {
    JsonTerm { shape: JsonShape::Null, parts: Seq::empty() }
}

/// How the trait of an associated type is written.
pub open spec fn written_trait(path: Option<Seq<char>>) -> JsonTerm {
    match path {
        Some(path) => object(seq![("path"@, text(path))]),
        None => nothing(),
    }
}

/// How a type is written.
pub open spec fn written_type(ty: TypeTerm) -> JsonTerm
    decreases ty, 1nat,
{
    match ty.shape {
        TypeShape::Generic(name) => object(seq![("generic"@, text(name))]),
        TypeShape::Primitive(name) => object(seq![("primitive"@, text(name))]),
        TypeShape::Path(name) => object(
            seq![
                (
                    "resolved_path"@,
                    object(
                        seq![
                            ("path"@, text(name)),
                            (
                                "args"@,
                                object(
                                    seq![
                                        (
                                            "angle_bracketed"@,
                                            object(
                                                seq![
                                                    (
                                                        "args"@,
                                                        list(written_arguments(ty.parts)),
                                                    ),
                                                ],
                                            ),
                                        ),
                                    ],
                                ),
                            ),
                        ],
                    ),
                ),
            ],
        ),
        TypeShape::Reference(mutable) => object(
            seq![
                (
                    "borrowed_ref"@,
                    object(
                        seq![
                            ("lifetime"@, nothing()),
                            ("is_mutable"@, truth(mutable)),
                            ("type"@, written_only(ty.parts)),
                        ],
                    ),
                ),
            ],
        ),
        TypeShape::Associated(name, path) => object(
            seq![
                (
                    "qualified_path"@,
                    object(
                        seq![
                            ("name"@, text(name)),
                            ("self_type"@, written_only(ty.parts)),
                            ("trait"@, written_trait(path)),
                        ],
                    ),
                ),
            ],
        ),
        TypeShape::Tuple => object(seq![("tuple"@, list(written_types(ty.parts)))]),
        TypeShape::Slice => object(seq![("slice"@, written_only(ty.parts))]),
        TypeShape::Array(length) => object(
            seq![
                (
                    "array"@,
                    object(
                        seq![
                            ("type"@, written_only(ty.parts)),
                            ("len"@, text(choose|n: Seq<char>| compact(text(n)) == length)),
                        ],
                    ),
                ),
            ],
        ),
        TypeShape::Infer => object(seq![("infer"@, nothing())]),
        TypeShape::Never => object(seq![("never"@, nothing())]),
        TypeShape::Unsupported(kind) => object(seq![(kind, nothing())]),
    }
}

/// How the one type another is made of is written.
pub open spec fn written_only(types: Seq<TypeTerm>) -> JsonTerm
    decreases types, 0nat,
{
    if types.len() > 0 {
        written_type(types[0])
    } else {
        nothing()
    }
}

/// How several types are written.
pub open spec fn written_types(types: Seq<TypeTerm>) -> Seq<JsonTerm>
    decreases types, 0nat,
{
    Seq::new(
        types.len(),
        |i: int|
            if 0 <= i < types.len() {
                written_type(types[i])
            } else {
                arbitrary()
            },
    )
}

/// How several types are written as the arguments of a path.
pub open spec fn written_arguments(types: Seq<TypeTerm>) -> Seq<JsonTerm>
    decreases types, 0nat,
{
    Seq::new(
        types.len(),
        |i: int|
            if 0 <= i < types.len() {
                object(seq![("type"@, written_type(types[i]))])
            } else {
                arbitrary()
            },
    )
}

/// Whether a kind of type is one that is read as what it is.
pub open spec fn is_supported(kind: Seq<char>) -> bool {
    ||| kind == "generic"@
    ||| kind == "primitive"@
    ||| kind == "resolved_path"@
    ||| kind == "borrowed_ref"@
    ||| kind == "qualified_path"@
    ||| kind == "tuple"@
    ||| kind == "slice"@
    ||| kind == "array"@
    ||| kind == "infer"@
    ||| kind == "never"@
}

/// Whether a type can be written: it is made of as many types as it takes, all of
/// which can be; the trait it names has a path; the length of an array is that of a
/// text; and what is not supported has a name of its own.
pub open spec fn is_writable(ty: TypeTerm) -> bool
    decreases ty,
{
    &&& match ty.shape {
        TypeShape::Generic(_)
        | TypeShape::Primitive(_)
        | TypeShape::Infer
        | TypeShape::Never => ty.parts.len() == 0,
        TypeShape::Path(_) | TypeShape::Tuple => true,
        TypeShape::Reference(_) | TypeShape::Slice => ty.parts.len() == 1,
        TypeShape::Associated(_, path) => ty.parts.len() == 1 && (path matches Some(path)
            ==> path.len() > 0),
        TypeShape::Array(length) => ty.parts.len() == 1 && exists|n: Seq<char>| #[trigger]
            compact(text(n)) == length,
        TypeShape::Unsupported(kind) => ty.parts.len() == 0 && !is_supported(kind),
    }
    &&& all_writable(ty.parts)
}

/// Whether several types can all be written.
pub open spec fn all_writable(types: Seq<TypeTerm>) -> bool
    decreases types,
{
    forall|i: int| 0 <= i < types.len() ==> is_writable(#[trigger] types[i])
}

proof fn lemma_key_at(keys: Seq<Seq<char>>, key: Seq<char>, i: int, k: int)
    requires
        0 <= i <= k < keys.len(),
        keys[k] == key,
        forall|j: int| i <= j < k ==> #[trigger] keys[j] != key,
    ensures
        key_from(keys, key, i) == Some(k),
    decreases k - i,
{
    if i < k {
        lemma_key_at(keys, key, i + 1, k);
    }
}

proof fn lemma_no_key(keys: Seq<Seq<char>>, key: Seq<char>, i: int)
    requires
        0 <= i,
        forall|j: int| i <= j < keys.len() ==> #[trigger] keys[j] != key,
    ensures
        key_from(keys, key, i) is None,
    decreases keys.len() - i,
{
    if i < keys.len() {
        lemma_no_key(keys, key, i + 1);
    }
}

/// The member of a key is the one written under it first.
pub proof fn law_a_member_is_found(members: Seq<(Seq<char>, JsonTerm)>, k: int)
    requires
        0 <= k < members.len(),
        forall|j: int| 0 <= j < k ==> (#[trigger] members[j]).0 != members[k].0,
    ensures
        member(object(members), members[k].0) == Some(members[k].1),
        member_place(object(members), members[k].0) == Some(k),
{
    let keys = Seq::new(members.len(), |i: int| members[i].0);
    assert forall|j: int| 0 <= j < k implies #[trigger] keys[j] != members[k].0 by {
        assert(members[j].0 != members[k].0);
    }
    lemma_key_at(keys, members[k].0, 0, k);
}

/// A key that nothing is written under has no member.
pub proof fn law_an_absent_member_is_not_found(
    members: Seq<(Seq<char>, JsonTerm)>,
    key: Seq<char>,
)
    requires
        forall|j: int| 0 <= j < members.len() ==> (#[trigger] members[j]).0 != key,
    ensures
        member(object(members), key) is None,
        member_place(object(members), key) is None,
{
    let keys = Seq::new(members.len(), |i: int| members[i].0);
    assert forall|j: int| 0 <= j < keys.len() implies #[trigger] keys[j] != key by {
        assert(members[j].0 != key);
    }
    lemma_no_key(keys, key, 0);
}

/// The one member of an object, and no other.
proof fn lemma_single(key: Seq<char>, value: JsonTerm)
    ensures
        forall|other: Seq<char>| #[trigger]
            member(object(seq![(key, value)]), other) == if other == key {
                Some(value)
            } else {
                None
            },
        member_place(object(seq![(key, value)]), key) == Some(0int),
        object(seq![(key, value)]).parts[0] == value,
{
    let members = seq![(key, value)];
    assert(members[0] == (key, value));
    law_a_member_is_found(members, 0);
    assert forall|other: Seq<char>| #[trigger] member(object(members), other) == if other == key {
        Some(value)
    } else {
        None
    } by {
        if other != key {
            law_an_absent_member_is_not_found(members, other);
        }
    }
}

/// The kinds of type are all different.
proof fn lemma_kinds_differ()
    ensures
        "generic"@.len() > 0 && "generic"@[0] == 'g',
        "primitive"@.len() > 0 && "primitive"@[0] == 'p',
        "resolved_path"@.len() > 0 && "resolved_path"@[0] == 'r',
        "borrowed_ref"@.len() > 0 && "borrowed_ref"@[0] == 'b',
        "qualified_path"@.len() > 0 && "qualified_path"@[0] == 'q',
        "tuple"@.len() > 0 && "tuple"@[0] == 't',
        "slice"@.len() > 0 && "slice"@[0] == 's',
        "array"@.len() > 0 && "array"@[0] == 'a',
        "infer"@.len() > 0 && "infer"@[0] == 'i',
        "never"@.len() > 0 && "never"@[0] == 'n',
{
    reveal_strlit("generic");
    reveal_strlit("primitive");
    reveal_strlit("resolved_path");
    reveal_strlit("borrowed_ref");
    reveal_strlit("qualified_path");
    reveal_strlit("tuple");
    reveal_strlit("slice");
    reveal_strlit("array");
    reveal_strlit("infer");
    reveal_strlit("never");
}

/// The keys under which the parts of types are written, where they stand together,
/// are all different.
proof fn lemma_keys_differ()
    ensures
        "path"@.len() > 0 && "path"@[0] == 'p',
        "args"@.len() > 0 && "args"@[0] == 'a',
        "lifetime"@.len() > 0 && "lifetime"@[0] == 'l',
        "is_mutable"@.len() > 0 && "is_mutable"@[0] == 'i',
        "type"@.len() > 0 && "type"@[0] == 't',
        "name"@.len() > 0 && "name"@[0] == 'n',
        "self_type"@.len() > 0 && "self_type"@[0] == 's',
        "trait"@.len() > 0 && "trait"@[0] == 't',
        "len"@.len() > 0 && "len"@[0] == 'l',
{
    reveal_strlit("path");
    reveal_strlit("args");
    reveal_strlit("lifetime");
    reveal_strlit("is_mutable");
    reveal_strlit("type");
    reveal_strlit("name");
    reveal_strlit("self_type");
    reveal_strlit("trait");
    reveal_strlit("len");
}

proof fn lemma_items_read(types: Seq<TypeTerm>, n: int)
    requires
        0 <= n <= types.len(),
        all_writable(types),
    ensures
        item_types(list(written_types(types)), n) == Ok::<Seq<TypeTerm>, Fault>(types.take(n)),
    decreases types, n,
{
    if n > 0 {
        lemma_items_read(types, n - 1);
        assert(is_writable(types[n - 1]));
        assert(decreases_to!(types => types[n - 1]));
        law_types_are_read_back(types[n - 1]);
        assert(written_types(types)[n - 1] == written_type(types[n - 1]));
        assert(types.take(n) =~= types.take(n - 1).push(types[n - 1]));
    } else {
        assert(types.take(0) =~= Seq::empty());
    }
}

proof fn lemma_arguments_read(types: Seq<TypeTerm>, n: int)
    requires
        0 <= n <= types.len(),
        all_writable(types),
    ensures
        argument_types(list(written_arguments(types)), n) == Ok::<Seq<TypeTerm>, Fault>(
            types.take(n),
        ),
    decreases types, n,
{
    if n > 0 {
        lemma_arguments_read(types, n - 1);
        assert(is_writable(types[n - 1]));
        assert(decreases_to!(types => types[n - 1]));
        law_types_are_read_back(types[n - 1]);
        let argument = written_arguments(types)[n - 1];
        assert(argument == object(seq![("type"@, written_type(types[n - 1]))]));
        lemma_single("type"@, written_type(types[n - 1]));
        assert(types.take(n) =~= types.take(n - 1).push(types[n - 1]));
    } else {
        assert(types.take(0) =~= Seq::empty());
    }
}

/// Reading a type gives back the type that was written.
#[verifier::rlimit(60)]
#[verifier::spinoff_prover]
pub proof fn law_types_are_read_back(ty: TypeTerm)
    requires
        is_writable(ty),
    ensures
        described_type(written_type(ty)) == Ok::<TypeTerm, Fault>(ty),
    decreases ty, 0int,
{
    let json = written_type(ty);
    let parts = ty.parts;
    lemma_kinds_differ();
    lemma_keys_differ();
    assert(decreases_to!(ty => ty.parts));
    if parts.len() == 1 {
        assert(is_writable(parts[0]));
        assert(decreases_to!(ty.parts => ty.parts[0]));
        law_types_are_read_back(parts[0]);
        assert(parts =~= seq![parts[0]]);
        assert(written_only(parts) == written_type(parts[0]));
    }
    if parts.len() == 0 {
        assert(parts =~= Seq::empty());
    }
    match ty.shape {
        TypeShape::Generic(name) => {
            lemma_single("generic"@, text(name));
        },
        TypeShape::Primitive(name) => {
            lemma_single("primitive"@, text(name));
        },
        TypeShape::Path(name) => {
            lemma_path_read(name, parts);
        },
        TypeShape::Reference(mutable) => {
            let members = seq![
                ("lifetime"@, nothing()),
                ("is_mutable"@, truth(mutable)),
                ("type"@, written_only(parts)),
            ];
            lemma_single("borrowed_ref"@, object(members));
            assert(members[0].0 == "lifetime"@ && members[1].0 == "is_mutable"@ && members[2].0
                == "type"@);
            law_a_member_is_found(members, 1);
            law_a_member_is_found(members, 2);
            assert(member_type(object(members), "type"@, "referenced type"@) == described_type(
                written_only(parts),
            ));
            assert(described_type(json) == Ok::<TypeTerm, Fault>(ty));
        },
        TypeShape::Associated(name, path) => {
            lemma_associated_read(name, path, parts);
        },
        TypeShape::Tuple => {
            let items = list(written_types(parts));
            lemma_single("tuple"@, items);
            lemma_items_read(parts, parts.len() as int);
            assert(parts.take(parts.len() as int) =~= parts);
            assert(described_type(json) == Ok::<TypeTerm, Fault>(ty));
        },
        TypeShape::Slice => {
            lemma_single("slice"@, written_only(parts));
            assert(described_type(json) == Ok::<TypeTerm, Fault>(ty));
        },
        TypeShape::Array(length) => {
            let n = choose|n: Seq<char>| compact(text(n)) == length;
            let members = seq![("type"@, written_only(parts)), ("len"@, text(n))];
            lemma_single("array"@, object(members));
            assert(members[0].0 == "type"@ && members[1].0 == "len"@);
            law_a_member_is_found(members, 0);
            law_a_member_is_found(members, 1);
            assert(member_type(object(members), "type"@, "array type"@) == described_type(
                written_only(parts),
            ));
            assert(described_type(json) == Ok::<TypeTerm, Fault>(ty));
        },
        TypeShape::Infer => {
            lemma_single("infer"@, nothing());
        },
        TypeShape::Never => {
            lemma_single("never"@, nothing());
        },
        TypeShape::Unsupported(kind) => {
            lemma_single(kind, nothing());
            assert(json.shape == JsonShape::Object(seq![kind])) by {
                assert(Seq::new(1, |i: int| seq![(kind, nothing())][i].0) =~= seq![kind]);
            }
        },
    }
}

proof fn lemma_path_read(name: Seq<char>, parts: Seq<TypeTerm>)
    requires
        all_writable(parts),
    ensures
        described_type(written_type(TypeTerm { shape: TypeShape::Path(name), parts })) == Ok::<
            TypeTerm,
            Fault,
        >(TypeTerm { shape: TypeShape::Path(name), parts }),
    decreases parts, parts.len() + 1,
{
    lemma_kinds_differ();
    lemma_keys_differ();
    let items = list(written_arguments(parts));
    let angle = object(seq![("args"@, items)]);
    let args = object(seq![("angle_bracketed"@, angle)]);
    let members = seq![("path"@, text(name)), ("args"@, args)];
    let path = object(members);
    lemma_single("args"@, items);
    lemma_single("angle_bracketed"@, angle);
    lemma_single("resolved_path"@, path);
    assert(members[0].0 == "path"@ && members[1].0 == "args"@);
    law_a_member_is_found(members, 0);
    law_a_member_is_found(members, 1);
    assert(argument_list(path) == Some(items));
    lemma_arguments_read(parts, parts.len() as int);
    assert(parts.take(parts.len() as int) =~= parts);
    assert(path_arguments(path) == Ok::<Seq<TypeTerm>, Fault>(parts));
}

proof fn lemma_associated_read(name: Seq<char>, path: Option<Seq<char>>, parts: Seq<TypeTerm>)
    requires
        parts.len() == 1,
        path matches Some(path) ==> path.len() > 0,
        described_type(written_only(parts)) == Ok::<TypeTerm, Fault>(parts[0]),
    ensures
        described_type(
            written_type(TypeTerm { shape: TypeShape::Associated(name, path), parts }),
        ) == Ok::<TypeTerm, Fault>(TypeTerm { shape: TypeShape::Associated(name, path), parts }),
{
    lemma_kinds_differ();
    lemma_keys_differ();
    let owner = written_trait(path);
    let members = seq![
        ("name"@, text(name)),
        ("self_type"@, written_only(parts)),
        ("trait"@, owner),
    ];
    let qualified = object(members);
    lemma_single("qualified_path"@, qualified);
    assert(members[0].0 == "name"@ && members[1].0 == "self_type"@ && members[2].0 == "trait"@);
    law_a_member_is_found(members, 0);
    law_a_member_is_found(members, 1);
    law_a_member_is_found(members, 2);
    if let Some(path) = path {
        lemma_single("path"@, text(path));
    }
    assert(qualified_trait(qualified) == path);
    assert(member_type(qualified, "self_type"@, "associated self type"@) == described_type(
        written_only(parts),
    ));
    assert(parts =~= seq![parts[0]]);
    let ty = TypeTerm { shape: TypeShape::Associated(name, path), parts };
    let json = written_type(ty);
    assert(json == object(seq![("qualified_path"@, qualified)]));
    assert(member(json, "qualified_path"@) == Some(qualified));
    assert(string_of(member(qualified, "name"@)) == Some(name));
    assert(described_type(json) == Ok::<TypeTerm, Fault>(ty));
}

/// A reference is mutable exactly where it says so, and refers to the type its `type`
/// describes, whatever else it says.
pub proof fn law_a_reference_says_whether_it_is_mutable(reference: JsonTerm)
    requires
        reference.shape is Object,
    ensures
        ({
            let json = object(seq![("borrowed_ref"@, reference)]);
            match member(reference, "type"@) {
                Some(inner) => match described_type(inner) {
                    Ok(inner) => described_type(json) == Ok::<TypeTerm, Fault>(
                        TypeTerm {
                            shape: TypeShape::Reference(
                                member(reference, "is_mutable"@) matches Some(said) && said.shape
                                    == JsonShape::Bool(true),
                            ),
                            parts: seq![inner],
                        },
                    ),
                    Err(fault) => described_type(json) == Err::<TypeTerm, Fault>(fault),
                },
                None => described_type(json) is Err,
            }
        }),
{
    lemma_kinds_differ();
    lemma_single("borrowed_ref"@, reference);
    let inner = member_type(reference, "type"@, "referenced type"@);
    if let Some(i) = member_place(reference, "type"@) {
        assert(inner == described_type(reference.parts[i]));
    }
}

/// How a bound is written. A lifetime stands beside a bound that names no trait.
pub open spec fn written_bound(bound: BoundView) -> JsonTerm {
    match bound {
        BoundView::Trait(path) => object(
            seq![("trait_bound"@, object(seq![("trait"@, object(seq![("path"@, text(path))]))]))],
        ),
        BoundView::Lifetime(name) => object(
            seq![("trait_bound"@, nothing()), ("outlives"@, text(name))],
        ),
    }
}

/// How a requirement is written.
pub open spec fn written_requirement(requirement: RequirementView) -> JsonTerm {
    object(
        seq![
            ("type"@, written_type(requirement.subject)),
            (
                "bounds"@,
                list(
                    Seq::new(
                        requirement.bounds.len(),
                        |i: int| written_bound(requirement.bounds[i]),
                    ),
                ),
            ),
        ],
    )
}

/// How a parameter is written.
pub open spec fn written_parameter(parameter: ParameterView) -> JsonTerm {
    list(seq![text(parameter.name), written_type(parameter.ty)])
}

/// How an output is written.
pub open spec fn written_output(output: Option<TypeTerm>) -> JsonTerm {
    match output {
        Some(ty) => written_type(ty),
        None => nothing(),
    }
}

/// How parameters are written.
pub open spec fn written_parameters(inputs: Seq<ParameterView>) -> Seq<JsonTerm> {
    Seq::new(inputs.len(), |i: int| written_parameter(inputs[i]))
}

/// How requirements are written, each as a predicate.
pub open spec fn written_requirements(requirements: Seq<RequirementView>) -> Seq<JsonTerm> {
    Seq::new(
        requirements.len(),
        |i: int| object(seq![("bound_predicate"@, written_requirement(requirements[i]))]),
    )
}

/// How the function with a signature is written.
pub open spec fn written_function(signature: SignatureView) -> JsonTerm {
    object(
        seq![
            (
                "sig"@,
                object(
                    seq![
                        ("inputs"@, list(written_parameters(signature.inputs))),
                        ("output"@, written_output(signature.output)),
                    ],
                ),
            ),
            (
                "generics"@,
                object(
                    seq![
                        (
                            "where_predicates"@,
                            list(written_requirements(signature.requirements)),
                        ),
                    ],
                ),
            ),
        ],
    )
}

/// Whether the types of a signature can all be written.
pub open spec fn is_writable_signature(signature: SignatureView) -> bool {
    &&& forall|i: int|
        0 <= i < signature.inputs.len() ==> is_writable((#[trigger] signature.inputs[i]).ty)
    &&& signature.output matches Some(ty) ==> is_writable(ty)
    &&& forall|i: int|
        0 <= i < signature.requirements.len() ==> is_writable(
            (#[trigger] signature.requirements[i]).subject,
        )
}

/// The keys of signatures are all different where they stand together.
proof fn lemma_signature_keys_differ()
    ensures
        "trait_bound"@.len() > 0 && "trait_bound"@[0] == 't',
        "outlives"@.len() > 0 && "outlives"@[0] == 'o',
        "bounds"@.len() > 0 && "bounds"@[0] == 'b',
        "type"@.len() > 0 && "type"@[0] == 't',
        "inputs"@.len() > 0 && "inputs"@[0] == 'i',
        "output"@.len() > 0 && "output"@[0] == 'o',
        "sig"@.len() > 0 && "sig"@[0] == 's',
        "generics"@.len() > 0 && "generics"@[0] == 'g',
{
    reveal_strlit("trait_bound");
    reveal_strlit("outlives");
    reveal_strlit("bounds");
    reveal_strlit("type");
    reveal_strlit("inputs");
    reveal_strlit("output");
    reveal_strlit("sig");
    reveal_strlit("generics");
}

/// Reading a bound gives back the bound that was written.
pub proof fn law_bounds_are_read_back(bound: BoundView)
    ensures
        described_bound(written_bound(bound)) == Some(bound),
{
    lemma_signature_keys_differ();
    match bound {
        BoundView::Trait(path) => {
            let named = object(seq![("path"@, text(path))]);
            lemma_single("path"@, text(path));
            lemma_single("trait"@, named);
            lemma_single("trait_bound"@, object(seq![("trait"@, named)]));
        },
        BoundView::Lifetime(name) => {
            let members = seq![("trait_bound"@, nothing()), ("outlives"@, text(name))];
            assert(members[0].0 == "trait_bound"@ && members[1].0 == "outlives"@);
            law_a_member_is_found(members, 0);
            law_a_member_is_found(members, 1);
        },
    }
}

proof fn lemma_bounds_read(bounds: Seq<BoundView>, n: int)
    requires
        0 <= n <= bounds.len(),
    ensures
        described_bounds(Seq::new(bounds.len(), |i: int| written_bound(bounds[i])), n)
            == bounds.take(n),
    decreases n,
{
    if n > 0 {
        lemma_bounds_read(bounds, n - 1);
        law_bounds_are_read_back(bounds[n - 1]);
        assert(bounds.take(n) =~= bounds.take(n - 1).push(bounds[n - 1]));
    } else {
        assert(bounds.take(0) =~= Seq::empty());
    }
}

/// Reading a requirement gives back the requirement that was written.
pub proof fn law_requirements_are_read_back(requirement: RequirementView)
    requires
        is_writable(requirement.subject),
    ensures
        described_requirement(written_requirement(requirement)) == Ok::<RequirementView, Fault>(
            requirement,
        ),
{
    lemma_signature_keys_differ();
    let bounds = Seq::new(
        requirement.bounds.len(),
        |i: int| written_bound(requirement.bounds[i]),
    );
    let members = seq![
        ("type"@, written_type(requirement.subject)),
        ("bounds"@, list(bounds)),
    ];
    assert(members[0].0 == "type"@ && members[1].0 == "bounds"@);
    law_a_member_is_found(members, 0);
    law_a_member_is_found(members, 1);
    law_types_are_read_back(requirement.subject);
    lemma_bounds_read(requirement.bounds, bounds.len() as int);
    assert(requirement.bounds.take(bounds.len() as int) =~= requirement.bounds);
}

proof fn lemma_requirements_read(requirements: Seq<RequirementView>, n: int)
    requires
        0 <= n <= requirements.len(),
        forall|i: int|
            0 <= i < requirements.len() ==> is_writable((#[trigger] requirements[i]).subject),
    ensures
        described_requirements(written_requirements(requirements), n) == Ok::<
            Seq<RequirementView>,
            Fault,
        >(requirements.take(n)),
    decreases n,
{
    if n > 0 {
        lemma_requirements_read(requirements, n - 1);
        law_requirements_are_read_back(requirements[n - 1]);
        lemma_single("bound_predicate"@, written_requirement(requirements[n - 1]));
        assert(requirements.take(n) =~= requirements.take(n - 1).push(requirements[n - 1]));
    } else {
        assert(requirements.take(0) =~= Seq::empty());
    }
}

proof fn lemma_parameters_read(inputs: Seq<ParameterView>, n: int)
    requires
        0 <= n <= inputs.len(),
        forall|i: int| 0 <= i < inputs.len() ==> is_writable((#[trigger] inputs[i]).ty),
    ensures
        described_parameters(written_parameters(inputs), n) == Ok::<Seq<ParameterView>, Fault>(
            inputs.take(n),
        ),
    decreases n,
{
    if n > 0 {
        lemma_parameters_read(inputs, n - 1);
        law_types_are_read_back(inputs[n - 1].ty);
        let json = written_parameters(inputs)[n - 1];
        assert(json.parts[0] == text(inputs[n - 1].name));
        assert(json.parts[1] == written_type(inputs[n - 1].ty));
        assert(inputs.take(n) =~= inputs.take(n - 1).push(inputs[n - 1]));
    } else {
        assert(inputs.take(0) =~= Seq::empty());
    }
}

/// Reading the signature of a function gives back the signature that was written:
/// its parameters in order with their names and types, its output, and what it
/// requires of types.
pub proof fn law_signatures_are_read_back(signature: SignatureView)
    requires
        is_writable_signature(signature),
    ensures
        described_signature(written_function(signature)) == Ok::<SignatureView, Fault>(signature),
{
    lemma_signature_keys_differ();
    let inputs = list(written_parameters(signature.inputs));
    let output = written_output(signature.output);
    let sig_members = seq![("inputs"@, inputs), ("output"@, output)];
    let sig = object(sig_members);
    let predicates = list(written_requirements(signature.requirements));
    let generics = object(seq![("where_predicates"@, predicates)]);
    let members = seq![("sig"@, sig), ("generics"@, generics)];
    let function = object(members);
    assert(function == written_function(signature));
    assert(members[0].0 == "sig"@ && members[1].0 == "generics"@);
    law_a_member_is_found(members, 0);
    law_a_member_is_found(members, 1);
    assert(sig_members[0].0 == "inputs"@ && sig_members[1].0 == "output"@);
    law_a_member_is_found(sig_members, 0);
    law_a_member_is_found(sig_members, 1);
    lemma_single("where_predicates"@, predicates);
    assert(predicates_of(function) == predicates.parts);
    lemma_parameters_read(signature.inputs, signature.inputs.len() as int);
    assert(signature.inputs.take(signature.inputs.len() as int) =~= signature.inputs);
    lemma_requirements_read(signature.requirements, signature.requirements.len() as int);
    assert(signature.requirements.take(signature.requirements.len() as int)
        =~= signature.requirements);
    if let Some(ty) = signature.output {
        law_types_are_read_back(ty);
        assert(output.shape is Object);
    }
    assert(described_output(sig) == Ok::<Option<TypeTerm>, Fault>(signature.output));
}

} // verus!
