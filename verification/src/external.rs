//! What an external package offers, as a catalog of callables and types.

use crate::normalize::form::optional_text;
use vstd::prelude::*;

verus! {

pub const EXTERNAL_CATALOG_SCHEMA: u32 = 1;

/// The callables a package offers.
#[derive(Debug)]
pub struct ExternalCatalog {
    pub schema: u32,
    pub package: String,
    pub version: String,
    pub rustdoc_format: u32,
    pub source_sha256: String,
    pub callables: Vec<ExternalCallable>,
}

/// One callable a package offers.
#[derive(Debug)]
pub struct ExternalCallable {
    pub path: String,
    pub container: CallableContainer,
    /// The declared signature, when the catalog was built from something that
    /// knows types. A catalog derived from source alone has none.
    pub signature: Option<CallableSignature>,
}

/// What a callable is written inside.
#[derive(Debug, PartialEq, Eq, Hash)]
pub enum CallableContainer {
    Trait { path: String },
    Module { path: String },
}

/// What a callable takes and returns.
#[derive(Debug)]
pub struct CallableSignature {
    pub inputs: Vec<CallableParameter>,
    pub output: Option<ExternalType>,
    pub requirements: Vec<TypeRequirement>,
}

/// One thing a callable takes.
#[derive(Debug)]
pub struct CallableParameter {
    pub name: String,
    pub ty: ExternalType,
}

/// What is required of a type.
#[derive(Debug)]
pub struct TypeRequirement {
    pub subject: ExternalType,
    pub bounds: Vec<ExternalBound>,
}

/// One thing required of a type.
#[derive(Debug, PartialEq, Eq, Hash)]
pub enum ExternalBound {
    Trait { path: String },
    Lifetime { name: String },
}

/// A type a signature mentions.
#[derive(Debug)]
pub enum ExternalType {
    Generic { name: String },
    Primitive { name: String },
    Path { path: String, arguments: Vec<ExternalType> },
    Reference { mutable: bool, inner: Box<ExternalType> },
    Associated { name: String, self_type: Box<ExternalType>, trait_path: Option<String> },
    Tuple { elements: Vec<ExternalType> },
    Slice { element: Box<ExternalType> },
    Array { element: Box<ExternalType>, length: String },
    Infer,
    Never,
    Unsupported { kind: String },
}

/// What a type says itself, apart from the types it is made of.
pub enum TypeShape {
    Generic(Seq<char>),
    Primitive(Seq<char>),
    Path(Seq<char>),
    Reference(bool),
    Associated(Seq<char>, Option<Seq<char>>),
    Tuple,
    Slice,
    Array(Seq<char>),
    Infer,
    Never,
    Unsupported(Seq<char>),
}

/// The content of an [`ExternalType`]: what it says itself, and the types it is
/// made of in the order they are written.
pub struct TypeTerm {
    pub shape: TypeShape,
    pub parts: Seq<TypeTerm>,
}

/// The content of a type.
pub open spec fn type_term(ty: ExternalType) -> TypeTerm
    decreases ty,
{
    match ty {
        ExternalType::Generic { name } => TypeTerm {
            shape: TypeShape::Generic(name@),
            parts: Seq::empty(),
        },
        ExternalType::Primitive { name } => TypeTerm {
            shape: TypeShape::Primitive(name@),
            parts: Seq::empty(),
        },
        ExternalType::Path { path, arguments } => TypeTerm {
            shape: TypeShape::Path(path@),
            parts: type_terms(arguments@),
        },
        ExternalType::Reference { mutable, inner } => TypeTerm {
            shape: TypeShape::Reference(mutable),
            parts: seq![type_term(*inner)],
        },
        ExternalType::Associated { name, self_type, trait_path } => TypeTerm {
            shape: TypeShape::Associated(name@, optional_text(trait_path)),
            parts: seq![type_term(*self_type)],
        },
        ExternalType::Tuple { elements } => TypeTerm {
            shape: TypeShape::Tuple,
            parts: type_terms(elements@),
        },
        ExternalType::Slice { element } => TypeTerm {
            shape: TypeShape::Slice,
            parts: seq![type_term(*element)],
        },
        ExternalType::Array { element, length } => TypeTerm {
            shape: TypeShape::Array(length@),
            parts: seq![type_term(*element)],
        },
        ExternalType::Infer => TypeTerm { shape: TypeShape::Infer, parts: Seq::empty() },
        ExternalType::Never => TypeTerm { shape: TypeShape::Never, parts: Seq::empty() },
        ExternalType::Unsupported { kind } => TypeTerm {
            shape: TypeShape::Unsupported(kind@),
            parts: Seq::empty(),
        },
    }
}

/// The contents of a list of types.
pub open spec fn type_terms(types: Seq<ExternalType>) -> Seq<TypeTerm>
    decreases types,
{
    Seq::new(
        types.len(),
        |i: int|
            if 0 <= i < types.len() {
                type_term(types[i])
            } else {
                arbitrary()
            },
    )
}

impl View for ExternalType {
    type V = TypeTerm;

    open spec fn view(&self) -> TypeTerm {
        type_term(*self)
    }
}

/// The content of a [`CallableContainer`].
pub enum ContainerView {
    Trait(Seq<char>),
    Module(Seq<char>),
}

impl View for CallableContainer {
    type V = ContainerView;

    open spec fn view(&self) -> ContainerView {
        match self {
            CallableContainer::Trait { path } => ContainerView::Trait(path@),
            CallableContainer::Module { path } => ContainerView::Module(path@),
        }
    }
}

/// The content of an [`ExternalBound`].
pub enum BoundView {
    Trait(Seq<char>),
    Lifetime(Seq<char>),
}

impl View for ExternalBound {
    type V = BoundView;

    open spec fn view(&self) -> BoundView {
        match self {
            ExternalBound::Trait { path } => BoundView::Trait(path@),
            ExternalBound::Lifetime { name } => BoundView::Lifetime(name@),
        }
    }
}

/// The contents of bounds.
pub open spec fn bound_views(bounds: Seq<ExternalBound>) -> Seq<BoundView> {
    Seq::new(bounds.len(), |i: int| bounds[i]@)
}

/// The content of a [`CallableParameter`].
pub struct ParameterView {
    pub name: Seq<char>,
    pub ty: TypeTerm,
}

impl View for CallableParameter {
    type V = ParameterView;

    open spec fn view(&self) -> ParameterView {
        ParameterView { name: self.name@, ty: self.ty@ }
    }
}

/// The contents of parameters.
pub open spec fn parameter_views(inputs: Seq<CallableParameter>) -> Seq<ParameterView> {
    Seq::new(inputs.len(), |i: int| inputs[i]@)
}

/// The content of a [`TypeRequirement`].
pub struct RequirementView {
    pub subject: TypeTerm,
    pub bounds: Seq<BoundView>,
}

impl View for TypeRequirement {
    type V = RequirementView;

    open spec fn view(&self) -> RequirementView {
        RequirementView { subject: self.subject@, bounds: bound_views(self.bounds@) }
    }
}

/// The contents of requirements.
pub open spec fn requirement_views(requirements: Seq<TypeRequirement>) -> Seq<RequirementView> {
    Seq::new(requirements.len(), |i: int| requirements[i]@)
}

/// The content of a [`CallableSignature`].
pub struct SignatureView {
    pub inputs: Seq<ParameterView>,
    pub output: Option<TypeTerm>,
    pub requirements: Seq<RequirementView>,
}

impl View for CallableSignature {
    type V = SignatureView;

    open spec fn view(&self) -> SignatureView {
        SignatureView {
            inputs: parameter_views(self.inputs@),
            output: match self.output {
                Some(output) => Some(output@),
                None => None,
            },
            requirements: requirement_views(self.requirements@),
        }
    }
}

/// The content of an [`ExternalCallable`].
pub struct CallableView {
    pub path: Seq<char>,
    pub container: ContainerView,
    pub signature: Option<SignatureView>,
}

impl View for ExternalCallable {
    type V = CallableView;

    open spec fn view(&self) -> CallableView {
        CallableView {
            path: self.path@,
            container: self.container@,
            signature: match self.signature {
                Some(signature) => Some(signature@),
                None => None,
            },
        }
    }
}

/// The contents of callables.
pub open spec fn callable_views(callables: Seq<ExternalCallable>) -> Seq<CallableView> {
    Seq::new(callables.len(), |i: int| callables[i]@)
}

} // verus!
