//! Normalizes C syntax into the behavior form.
//!
//! This module knows C and nothing else: no library, no project, no macro
//! dialect. It reads a syntax tree and reduces it to the same [`Form`] every
//! other language reduces to.
//!
//! The canonicalizations, in order of how much they matter:
//!
//! 1. **Iteration form.** The canonical C loop is an index walk,
//!    `for (i = 0; i < n; i++) { .. a[i] .. }`, and it describes the same
//!    traversal as Rust's `for x in a` and JavaScript's `for (const x of a)`.
//! 2. **Pointer ceremony.** `*p`, `&x`, and casts are how C passes things
//!    around, not what the code does. All three reduce to what they wrap.
//! 3. **Blocks and statement expressions.** A block wrapping one statement is
//!    that statement; a comma expression is a sequence.
//!
//! What stays [`Form::Opaque`], deliberately: `goto`, `do`/`while`, and
//! pointer-chasing loops.

pub mod gathering;
pub mod lookup;
pub mod reading;
pub mod writing;

use crate::normalize::form::{optional_text, Form, Term};
use crate::syntax::{
    lemma_part_height, part_in, tree_height, tree_of, SyntaxNode, Tree,
};
use lookup::{innermost_identifier, innermost_name, parameter_names, parameters, texts_of};
use reading::{
    blank_reading, declared, fits, or_literal, read_body, read_statement, Reader, Reading,
};
use vstd::prelude::*;

verus! {

/// A named function found in a parsed file, with the body normalized.
#[derive(Debug, Clone)]
pub struct NormalizedFunction {
    pub name: String,
    pub form: Form,
    /// 1-based line where the function starts, for reporting.
    pub line: usize,
}

/// The content of a [`NormalizedFunction`].
pub struct FunctionView {
    pub name: Seq<char>,
    pub form: Term,
    pub line: int,
}

impl View for NormalizedFunction {
    type V = FunctionView;

    open spec fn view(&self) -> FunctionView {
        FunctionView { name: self.name@, form: self.form@, line: self.line as int }
    }
}

/// The contents of several functions.
pub open spec fn function_views(functions: Seq<NormalizedFunction>) -> Seq<FunctionView> {
    Seq::new(functions.len(), |i: int| functions[i]@)
}

/// Names recorded, in order, as ones that hold a value.
pub open spec fn declared_all(names: Seq<Seq<char>>, state: Reading) -> Reading
    decreases names.len(),
{
    if names.len() == 0 {
        state
    } else {
        declared(names.last(), declared_all(names.drop_last(), state))
    }
}

/// What is known where a function's body begins: its parameters hold values.
pub open spec fn function_start(tree: Tree) -> Reading {
    match part_in(tree, "declarator"@) {
        Some(declarator) => declared_all(parameters(declarator), blank_reading()),
        None => blank_reading(),
    }
}

/// What a function does.
pub open spec fn function_term(tree: Tree) -> Term {
    or_literal(read_body(tree, "body"@, function_start(tree)).0)
}

/// Whether the names in a function can be numbered.
pub open spec fn function_fits(tree: Tree) -> bool {
    fits(read_body(tree, "body"@, function_start(tree)).1)
}

/// The name a function definition declares.
pub open spec fn function_name_of(tree: Tree) -> Option<Seq<char>> {
    match part_in(tree, "declarator"@) {
        Some(declarator) => innermost_name(declarator),
        None => None,
    }
}

/// Whether functions hide inside a kind of block.
pub open spec fn hides_functions(kind: Seq<char>) -> bool {
    kind == "preproc_if"@ || kind == "preproc_ifdef"@ || kind == "preproc_else"@ || kind
        == "preproc_elif"@ || kind == "linkage_specification"@ || kind == "declaration_list"@
}

/// The functions defined in the parts before a place.
pub open spec fn functions_in(tree: Tree, n: int) -> Seq<FunctionView>
    decreases tree_height(tree), n,
{
    if n <= 0 || n > tree.parts.len() {
        Seq::empty()
    } else {
        proof {
            lemma_part_height(tree, n - 1);
        }
        let before = functions_in(tree, n - 1);
        let part = tree.parts[n - 1];
        if part.kind == "function_definition"@ {
            match function_name_of(part) {
                Some(name) => before.push(
                    FunctionView {
                        name,
                        form: function_term(part),
                        line: part.extent.start_row + 1,
                    },
                ),
                None => before,
            }
        } else if hides_functions(part.kind) {
            before + functions_in(part, part.parts.len() as int)
        } else {
            before
        }
    }
}

/// Whether the names in every function defined in the parts before a place can
/// be numbered, and its line counted.
pub open spec fn functions_fit(tree: Tree, n: int) -> bool
    decreases tree_height(tree), n,
{
    if n <= 0 || n > tree.parts.len() {
        true
    } else {
        proof {
            lemma_part_height(tree, n - 1);
        }
        let part = tree.parts[n - 1];
        &&& functions_fit(tree, n - 1)
        &&& part.kind == "function_definition"@ && function_name_of(part) is Some ==> function_fits(
            part,
        ) && part.extent.start_row < usize::MAX
        &&& part.kind != "function_definition"@ && hides_functions(part.kind) ==> functions_fit(
            part,
            part.parts.len() as int,
        )
    }
}

/// Where all functions fit, those before any place do.
proof fn lemma_functions_fit(tree: Tree, few: int, many: int)
    requires
        0 <= few <= many <= tree.parts.len(),
        functions_fit(tree, many),
    ensures
        functions_fit(tree, few),
    decreases many,
{
    if few < many {
        lemma_functions_fit(tree, few, many - 1);
    }
}

/// Normalizes one function definition's body.
pub fn normalize_function(function: &SyntaxNode, source: &Vec<u8>) -> (form: Form)
    requires
        function_fits(tree_of(*function, source@)),
    ensures
        form@ == function_term(tree_of(*function, source@)),
{
    let ghost tree = tree_of(*function, source@);
    let mut reader = Reader::new();
    // Parameters are the free variables of the behavior, in order.
    if let Some(declarator) = function.child_by_field("declarator", Ghost(source@)) {
        let names = parameter_names(declarator, source);
        let ghost all = texts_of(names@);
        let mut i: usize = 0;
        while i < names.len()
            invariant
                i <= names@.len(),
                all == texts_of(names@),
                reader@ == declared_all(all.take(i as int), blank_reading()),
            decreases names@.len() - i,
        {
            proof {
                assert(all.take(i + 1).drop_last() =~= all.take(i as int));
                assert(all.take(i + 1).last() == names@[i as int]@);
            }
            reader.declare(names[i].as_str());
            i += 1;
        }
        assert(all.take(i as int) =~= all);
    }
    assert(reader@ == function_start(tree));
    match function.child_by_field("body", Ghost(source@)) {
        Some(body) => match reader.statement(body, source) {
            Some(form) => form,
            None => Form::Literal,
        },
        None => Form::Literal,
    }
}

/// Normalizes a bare statement or block, with no surrounding function.
pub fn normalize_body(body: &SyntaxNode, source: &Vec<u8>) -> (form: Form)
    requires
        fits(read_statement(tree_of(*body, source@), blank_reading()).1),
    ensures
        form@ == or_literal(read_statement(tree_of(*body, source@), blank_reading()).0),
{
    let mut reader = Reader::new();
    match reader.statement(body, source) {
        Some(form) => form,
        None => Form::Literal,
    }
}

/// The name a function definition declares.
fn function_name(function: &SyntaxNode, source: &Vec<u8>) -> (name: Option<String>)
    ensures
        optional_text(name) == function_name_of(tree_of(*function, source@)),
{
    match function.child_by_field("declarator", Ghost(source@)) {
        Some(declarator) => innermost_identifier(declarator, source),
        None => None,
    }
}

/// Gathers the functions defined under a node.
fn collect_functions(node: &SyntaxNode, source: &Vec<u8>, found: &mut Vec<NormalizedFunction>)
    requires
        functions_fit(
            tree_of(*node, source@),
            tree_of(*node, source@).parts.len() as int,
        ),
    ensures
        function_views(final(found)@) == function_views(old(found)@) + functions_in(
            tree_of(*node, source@),
            tree_of(*node, source@).parts.len() as int,
        ),
    decreases tree_height(tree_of(*node, source@)),
{
    let ghost tree = tree_of(*node, source@);
    let ghost start = function_views(found@);
    let mut i: usize = 0;
    assert(tree.parts.len() == node.children@.len());
    assert(start =~= start + functions_in(tree, 0));
    while i < node.children.len()
        invariant
            tree == tree_of(*node, source@),
            tree.parts.len() == node.children@.len(),
            i <= node.children@.len(),
            functions_fit(tree, tree.parts.len() as int),
            start == function_views(old(found)@),
            function_views(found@) == start + functions_in(tree, i as int),
        decreases node.children@.len() - i,
    {
        let child = &node.children[i];
        proof {
            assert(tree.parts[i as int] == tree_of(*child, source@));
            lemma_part_height(tree, i as int);
            lemma_functions_fit(tree, i + 1, tree.parts.len() as int);
        }
        let ghost before = found@;
        if child.is_a("function_definition") {
            if let Some(name) = function_name(child, source) {
                let form = normalize_function(child, source);
                let function = NormalizedFunction { name, form, line: child.start_row + 1 };
                found.push(function);
                proof {
                    assert(function_views(found@) =~= function_views(before).push(function@));
                    assert(function_views(found@) =~= start + functions_in(tree, i + 1));
                }
            }
        } else if child.is_a("preproc_if") || child.is_a("preproc_ifdef") || child.is_a(
            "preproc_else",
        ) || child.is_a("preproc_elif") || child.is_a("linkage_specification") || child.is_a(
            "declaration_list",
        ) {
            collect_functions(child, source, found);
            assert(function_views(found@) =~= start + functions_in(tree, i + 1));
        }
        i += 1;
    }
}

/// Normalizes every function definition in a parsed C file.
pub fn normalize_file(root: &SyntaxNode, source: &Vec<u8>) -> (functions: Vec<NormalizedFunction>)
    requires
        functions_fit(
            tree_of(*root, source@),
            tree_of(*root, source@).parts.len() as int,
        ),
    ensures
        function_views(functions@) == functions_in(
            tree_of(*root, source@),
            tree_of(*root, source@).parts.len() as int,
        ),
{
    let mut functions: Vec<NormalizedFunction> = Vec::new();
    collect_functions(root, source, &mut functions);
    assert(function_views(Seq::<NormalizedFunction>::empty()) =~= Seq::empty());
    assert(function_views(functions@) =~= functions_in(
        tree_of(*root, source@),
        tree_of(*root, source@).parts.len() as int,
    ));
    functions
}

} // verus!
