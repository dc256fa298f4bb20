//! What C syntax names: declared identifiers, parameters, loop counters, and
//! the element a loop body reads by its counter.

use crate::normalize::form::{optional_text, Direction};
use crate::syntax::{
    field_part, lemma_field_part, lemma_part_height, part_in, text_in, tree_height, tree_of,
    SyntaxNode, Tree,
};
use crate::text::{contains_text, holds_text, same_text, trim, trimmed};
use vstd::prelude::*;
use vstd::string::*;

verus! {

/// The first descendant of a kind, depth-first, the tree itself among them.
pub open spec fn descendant(tree: Tree, kind: Seq<char>) -> Option<Tree>
    decreases tree_height(tree), 1nat, 0nat,
{
    if tree.kind == kind {
        Some(tree)
    } else {
        descendant_from(tree, kind, 0)
    }
}

/// The first descendant of a kind among the parts from a place on.
pub open spec fn descendant_from(tree: Tree, kind: Seq<char>, i: int) -> Option<Tree>
    decreases tree_height(tree), 0nat, tree.parts.len() - i,
{
    if i < 0 || i >= tree.parts.len() {
        None
    } else {
        proof {
            lemma_part_height(tree, i);
        }
        match descendant(tree.parts[i], kind) {
            Some(found) => Some(found),
            None => descendant_from(tree, kind, i + 1),
        }
    }
}

/// A descendant has no more levels than the tree.
pub proof fn lemma_descendant(tree: Tree, kind: Seq<char>)
    ensures
        descendant(tree, kind) matches Some(found) ==> tree_height(found) <= tree_height(tree)
            && found.kind == kind,
    decreases tree_height(tree), 1nat, 0nat,
{
    if tree.kind != kind {
        lemma_descendant_from(tree, kind, 0);
    }
}

proof fn lemma_descendant_from(tree: Tree, kind: Seq<char>, i: int)
    ensures
        descendant_from(tree, kind, i) matches Some(found) ==> tree_height(found) <= tree_height(
            tree,
        ) && found.kind == kind,
    decreases tree_height(tree), 0nat, tree.parts.len() - i,
{
    if 0 <= i < tree.parts.len() {
        lemma_part_height(tree, i);
        lemma_descendant(tree.parts[i], kind);
        lemma_descendant_from(tree, kind, i + 1);
    }
}

/// Whether a kind is a declarator that wraps another.
pub open spec fn wraps_declarator(kind: Seq<char>) -> bool {
    kind == "pointer_declarator"@ || kind == "array_declarator"@ || kind == "function_declarator"@
        || kind == "parenthesized_declarator"@ || kind == "init_declarator"@
}

/// The name that pointer, array, function and parenthesized declarators wrap.
pub open spec fn innermost_name(tree: Tree) -> Option<Seq<char>>
    decreases tree_height(tree), 1nat, 0nat,
{
    if tree.kind == "identifier"@ || tree.kind == "type_identifier"@ {
        Some(text_in(tree))
    } else if wraps_declarator(tree.kind) {
        match field_part(tree, "declarator"@) {
            Some(i) => {
                proof {
                    lemma_field_part(tree, "declarator"@, 0);
                }
                innermost_name(tree.parts[i])
            },
            None => innermost_from(tree, 0),
        }
    } else {
        None
    }
}

/// The first name that the parts from a place on wrap.
pub open spec fn innermost_from(tree: Tree, i: int) -> Option<Seq<char>>
    decreases tree_height(tree), 0nat, tree.parts.len() - i,
{
    if i < 0 || i >= tree.parts.len() {
        None
    } else {
        proof {
            lemma_part_height(tree, i);
        }
        match innermost_name(tree.parts[i]) {
            Some(name) => Some(name),
            None => innermost_from(tree, i + 1),
        }
    }
}

/// The name a parameter declares.
pub open spec fn parameter_name(tree: Tree) -> Option<Seq<char>> {
    if tree.named && tree.kind == "parameter_declaration"@ {
        match part_in(tree, "declarator"@) {
            Some(inner) => innermost_name(inner),
            None => None,
        }
    } else {
        None
    }
}

/// The names the first so many parts of a parameter list declare.
pub open spec fn parameters_upto(list: Tree, n: int) -> Seq<Seq<char>>
    decreases n,
{
    if n <= 0 || n > list.parts.len() {
        Seq::empty()
    } else {
        let before = parameters_upto(list, n - 1);
        match parameter_name(list.parts[n - 1]) {
            Some(name) => before.push(name),
            None => before,
        }
    }
}

/// The parameter names of a function declarator, in order.
pub open spec fn parameters(declarator: Tree) -> Seq<Seq<char>> {
    match descendant(declarator, "parameter_list"@) {
        Some(list) => parameters_upto(list, list.parts.len() as int),
        None => Seq::empty(),
    }
}

/// What a `for` header sets before the first turn, and to what.
pub open spec fn counted(initializer: Tree) -> Option<(Tree, Tree)> {
    if initializer.kind == "declaration"@ {
        match descendant(initializer, "init_declarator"@) {
            Some(declarator) => match (
                part_in(declarator, "declarator"@),
                part_in(declarator, "value"@),
            ) {
                (Some(name), Some(value)) => Some((name, value)),
                _ => None,
            },
            None => None,
        }
    } else if initializer.kind == "assignment_expression"@ {
        match (part_in(initializer, "left"@), part_in(initializer, "right"@)) {
            (Some(name), Some(value)) => Some((name, value)),
            _ => None,
        }
    } else {
        None
    }
}

/// Which way a counter runs, given how it is compared, whether it starts at
/// zero, and how it is updated.
pub open spec fn direction_of(comparison: Seq<char>, starts_at_zero: bool, update: Seq<char>) -> Option<
    Direction,
> {
    if (comparison == "<"@ || comparison == "<="@) && starts_at_zero && !holds_text(
        update,
        "--"@,
    ) {
        Some(Direction::Forward)
    } else if (comparison == ">"@ || comparison == ">="@) && holds_text(update, "--"@) {
        Some(Direction::Backward)
    } else {
        None
    }
}

/// The name a `for` header counts with, and which way it runs.
pub open spec fn counter_of(tree: Tree) -> Option<(Seq<char>, Direction)> {
    match part_in(tree, "initializer"@) {
        Some(initializer) => match counted(initializer) {
            Some((name, value)) => match (part_in(tree, "condition"@), part_in(tree, "update"@)) {
                (Some(condition), Some(update)) => {
                    let counter = text_in(name);
                    let bounded = match part_in(condition, "left"@) {
                        Some(left) => text_in(left) == counter,
                        None => false,
                    };
                    let comparison = match part_in(condition, "operator"@) {
                        Some(operator) => text_in(operator),
                        None => Seq::empty(),
                    };
                    if !bounded || !holds_text(text_in(update), counter) {
                        None
                    } else {
                        match direction_of(
                            comparison,
                            trimmed(text_in(value)) == "0"@,
                            text_in(update),
                        ) {
                            Some(direction) => Some((counter, direction)),
                            None => None,
                        }
                    }
                },
                _ => None,
            },
            None => None,
        },
        None => None,
    }
}

/// What a loop body indexes with the counter.
pub struct IndexedView {
    pub sequence: Tree,
    /// The name a leading declaration gave the element, if one did.
    pub binding: Option<Seq<char>>,
    /// Where that declaration stands.
    pub declaration: Option<int>,
}

/// What a subscript by the counter reads from.
pub open spec fn indexed_by(tree: Tree, counter: Seq<char>) -> Option<Tree> {
    if tree.kind == "subscript_expression"@ {
        match part_in(tree, "index"@) {
            Some(index) => if text_in(index) == counter {
                part_in(tree, "argument"@)
            } else {
                None
            },
            None => None,
        }
    } else {
        None
    }
}

/// What a declaration that names the element reads from, and the name.
pub open spec fn element_named(tree: Tree, counter: Seq<char>) -> Option<(Tree, Seq<char>)> {
    match descendant(tree, "init_declarator"@) {
        Some(declarator) => match part_in(declarator, "value"@) {
            Some(value) => match (indexed_by(value, counter), part_in(declarator, "declarator"@)) {
                (Some(sequence), Some(named)) => match innermost_name(named) {
                    Some(name) => Some((sequence, name)),
                    None => None,
                },
                _ => None,
            },
            None => None,
        },
        None => None,
    }
}

/// The declaration, among the leading ones from a place on, that names the
/// element.
pub open spec fn leading_element(body: Tree, counter: Seq<char>, i: int) -> Option<IndexedView>
    decreases body.parts.len() - i,
{
    if i < 0 || i >= body.parts.len() {
        None
    } else if !body.parts[i].named {
        leading_element(body, counter, i + 1)
    } else if body.parts[i].kind != "declaration"@ {
        None
    } else {
        match element_named(body.parts[i], counter) {
            Some((sequence, name)) => Some(
                IndexedView { sequence, binding: Some(name), declaration: Some(i) },
            ),
            None => leading_element(body, counter, i + 1),
        }
    }
}

/// What is read by the counter anywhere in a tree: the tree itself first, and
/// then its parts from the last to the first.
pub open spec fn read_anywhere(tree: Tree, counter: Seq<char>) -> Option<Tree>
    decreases tree_height(tree), 1nat, 0nat,
{
    match indexed_by(tree, counter) {
        Some(sequence) => Some(sequence),
        None => read_before(tree, counter, tree.parts.len() as int),
    }
}

/// What is read by the counter anywhere in the parts before a place, the last of
/// them first.
pub open spec fn read_before(tree: Tree, counter: Seq<char>, n: int) -> Option<Tree>
    decreases tree_height(tree), 0nat, n,
{
    if n <= 0 || n > tree.parts.len() {
        None
    } else {
        proof {
            lemma_part_height(tree, n - 1);
        }
        match read_anywhere(tree.parts[n - 1], counter) {
            Some(sequence) => Some(sequence),
            None => read_before(tree, counter, n - 1),
        }
    }
}

/// An element a body reads by the counter, and the declaration that names it where
/// the body opens with one. Where none does, and the body reads several, it is the
/// one a search meets first that goes through the parts of each tree from the last
/// to the first: of two statements that read one each, that of the later.
pub open spec fn indexed_in(body: Tree, counter: Seq<char>) -> Option<IndexedView> {
    let leading = if body.kind == "compound_statement"@ {
        leading_element(body, counter, 0)
    } else {
        None
    };
    match leading {
        Some(indexed) => Some(indexed),
        None => match read_anywhere(body, counter) {
            Some(sequence) => Some(
                IndexedView { sequence, binding: None, declaration: None },
            ),
            None => None,
        },
    }
}

/// What a subscript reads from has fewer levels than the subscript.
proof fn lemma_indexed_by(tree: Tree, counter: Seq<char>)
    ensures
        indexed_by(tree, counter) matches Some(sequence) ==> tree_height(sequence) < tree_height(
            tree,
        ),
{
    lemma_field_part(tree, "argument"@, 0);
}

proof fn lemma_element_named(tree: Tree, counter: Seq<char>)
    ensures
        element_named(tree, counter) matches Some((sequence, _)) ==> tree_height(sequence)
            < tree_height(tree),
{
    lemma_descendant(tree, "init_declarator"@);
    if let Some(declarator) = descendant(tree, "init_declarator"@) {
        lemma_field_part(declarator, "value"@, 0);
        if let Some(value) = part_in(declarator, "value"@) {
            lemma_indexed_by(value, counter);
        }
    }
}

proof fn lemma_leading_element(body: Tree, counter: Seq<char>, i: int)
    requires
        0 <= i,
    ensures
        leading_element(body, counter, i) matches Some(indexed) ==> tree_height(indexed.sequence)
            < tree_height(body),
    decreases body.parts.len() - i,
{
    if i < body.parts.len() {
        lemma_part_height(body, i);
        lemma_element_named(body.parts[i], counter);
        lemma_leading_element(body, counter, i + 1);
    }
}

proof fn lemma_read_anywhere(tree: Tree, counter: Seq<char>)
    ensures
        read_anywhere(tree, counter) matches Some(sequence) ==> tree_height(sequence) < tree_height(
            tree,
        ),
    decreases tree_height(tree), 1nat, 0nat,
{
    lemma_indexed_by(tree, counter);
    if indexed_by(tree, counter) is None {
        lemma_read_before(tree, counter, tree.parts.len() as int);
    }
}

proof fn lemma_read_before(tree: Tree, counter: Seq<char>, n: int)
    ensures
        read_before(tree, counter, n) matches Some(sequence) ==> tree_height(sequence)
            < tree_height(tree),
    decreases tree_height(tree), 0nat, n,
{
    if 0 < n <= tree.parts.len() {
        lemma_part_height(tree, n - 1);
        lemma_read_anywhere(tree.parts[n - 1], counter);
        lemma_read_before(tree, counter, n - 1);
    }
}

/// What a body reads by the counter has fewer levels than the body.
pub proof fn lemma_indexed_in(body: Tree, counter: Seq<char>)
    ensures
        indexed_in(body, counter) matches Some(indexed) ==> tree_height(indexed.sequence)
            < tree_height(body),
{
    lemma_leading_element(body, counter, 0);
    lemma_read_anywhere(body, counter);
}

/// The content of an optional node.
pub open spec fn optional_tree(node: Option<&SyntaxNode>, source: Seq<u8>) -> Option<Tree> {
    match node {
        Some(node) => Some(tree_of(*node, source)),
        None => None,
    }
}

/// The first descendant of a kind, depth-first.
pub(crate) fn first_descendant<'a>(
    node: &'a SyntaxNode,
    kind: &str,
    source: Ghost<Seq<u8>>,
) -> (found: Option<&'a SyntaxNode>)
    ensures
        optional_tree(found, source@) == descendant(tree_of(*node, source@), kind@),
    decreases tree_height(tree_of(*node, source@)),
{
    if node.is_a(kind) {
        return Some(node);
    }
    let ghost tree = tree_of(*node, source@);
    let mut i: usize = 0;
    assert(tree.parts.len() == node.children@.len());
    while i < node.children.len()
        invariant
            tree == tree_of(*node, source@),
            tree.parts.len() == node.children@.len(),
            i <= node.children@.len(),
            descendant(tree, kind@) == descendant_from(tree, kind@, i as int),
        decreases node.children@.len() - i,
    {
        proof {
            assert(tree.parts[i as int] == tree_of(node.children@[i as int], source@));
            lemma_part_height(tree, i as int);
        }
        let found = first_descendant(&node.children[i], kind, source);
        if found.is_some() {
            return found;
        }
        i += 1;
    }
    None
}

/// Descends through pointer, array, function and parenthesized declarators to
/// the name.
pub(crate) fn innermost_identifier(node: &SyntaxNode, source: &Vec<u8>) -> (name: Option<String>)
    ensures
        optional_text(name) == innermost_name(tree_of(*node, source@)),
    decreases tree_height(tree_of(*node, source@)),
{
    let ghost tree = tree_of(*node, source@);
    if node.is_a("identifier") || node.is_a("type_identifier") {
        return Some(node.text_or_empty(source));
    }
    if !(node.is_a("pointer_declarator") || node.is_a("array_declarator") || node.is_a(
        "function_declarator",
    ) || node.is_a("parenthesized_declarator") || node.is_a("init_declarator")) {
        return None;
    }
    if let Some(inner) = node.child_by_field("declarator", Ghost(source@)) {
        return innermost_identifier(inner, source);
    }
    let mut i: usize = 0;
    assert(tree.parts.len() == node.children@.len());
    while i < node.children.len()
        invariant
            tree == tree_of(*node, source@),
            tree.parts.len() == node.children@.len(),
            i <= node.children@.len(),
            innermost_name(tree) == innermost_from(tree, i as int),
        decreases node.children@.len() - i,
    {
        proof {
            assert(tree.parts[i as int] == tree_of(node.children@[i as int], source@));
            lemma_part_height(tree, i as int);
        }
        let found = innermost_identifier(&node.children[i], source);
        if found.is_some() {
            return found;
        }
        i += 1;
    }
    None
}

/// The contents of names.
pub open spec fn texts_of(names: Seq<String>) -> Seq<Seq<char>> {
    Seq::new(names.len(), |i: int| names[i]@)
}

/// Parameter names, in order, from a function declarator.
pub(crate) fn parameter_names(declarator: &SyntaxNode, source: &Vec<u8>) -> (names: Vec<String>)
    ensures
        texts_of(names@) == parameters(tree_of(*declarator, source@)),
{
    let mut names: Vec<String> = Vec::new();
    assert(texts_of(names@) =~= Seq::empty());
    let list = match first_descendant(declarator, "parameter_list", Ghost(source@)) {
        Some(list) => list,
        None => {
            return names;
        },
    };
    let ghost tree = tree_of(*list, source@);
    let mut i: usize = 0;
    assert(tree.parts.len() == list.children@.len());
    while i < list.children.len()
        invariant
            tree == tree_of(*list, source@),
            tree.parts.len() == list.children@.len(),
            i <= list.children@.len(),
            texts_of(names@) == parameters_upto(tree, i as int),
        decreases list.children@.len() - i,
    {
        let parameter = &list.children[i];
        assert(tree.parts[i as int] == tree_of(*parameter, source@));
        let ghost before = names@;
        if parameter.named && parameter.is_a("parameter_declaration") {
            if let Some(inner) = parameter.child_by_field("declarator", Ghost(source@)) {
                if let Some(name) = innermost_identifier(inner, source) {
                    names.push(name);
                    assert(texts_of(names@) =~= texts_of(before).push(name@));
                }
            }
        }
        i += 1;
    }
    names
}

/// What a `for` header sets before the first turn, and to what.
fn counted_nodes<'a>(initializer: &'a SyntaxNode, source: Ghost<Seq<u8>>) -> (pair: Option<
    (&'a SyntaxNode, &'a SyntaxNode),
>)
    ensures
        match pair {
            Some((name, value)) => counted(tree_of(*initializer, source@)) == Some(
                (tree_of(*name, source@), tree_of(*value, source@)),
            ),
            None => counted(tree_of(*initializer, source@)) is None,
        },
{
    if initializer.is_a("declaration") {
        match first_descendant(initializer, "init_declarator", source) {
            Some(declarator) => match (
                declarator.child_by_field("declarator", source),
                declarator.child_by_field("value", source),
            ) {
                (Some(name), Some(value)) => Some((name, value)),
                _ => None,
            },
            None => None,
        }
    } else if initializer.is_a("assignment_expression") {
        match (
            initializer.child_by_field("left", source),
            initializer.child_by_field("right", source),
        ) {
            (Some(name), Some(value)) => Some((name, value)),
            _ => None,
        }
    } else {
        None
    }
}

/// The name a `for` header counts with, and which way it runs.
pub(crate) fn loop_counter(node: &SyntaxNode, source: &Vec<u8>) -> (counter: Option<
    (String, Direction),
>)
    ensures
        match counter {
            Some((name, direction)) => counter_of(tree_of(*node, source@)) == Some(
                (name@, direction),
            ),
            None => counter_of(tree_of(*node, source@)) is None,
        },
{
    let initializer = match node.child_by_field("initializer", Ghost(source@)) {
        Some(initializer) => initializer,
        None => {
            return None;
        },
    };
    let (name, value) = match counted_nodes(initializer, Ghost(source@)) {
        Some(pair) => pair,
        None => {
            return None;
        },
    };
    let condition = match node.child_by_field("condition", Ghost(source@)) {
        Some(condition) => condition,
        None => {
            return None;
        },
    };
    let update = match node.child_by_field("update", Ghost(source@)) {
        Some(update) => update.text_or_empty(source),
        None => {
            return None;
        },
    };
    let counter = name.text_or_empty(source);
    let starts_at_zero = same_text(trim(value.text_or_empty(source).as_str()).as_str(), "0");
    let bounded = match condition.child_by_field("left", Ghost(source@)) {
        Some(left) => same_text(left.text_or_empty(source).as_str(), counter.as_str()),
        None => false,
    };
    let comparison = match condition.child_by_field("operator", Ghost(source@)) {
        Some(operator) => operator.text_or_empty(source),
        None => String::new(),
    };
    if !bounded || !contains_text(update.as_str(), counter.as_str()) {
        return None;
    }
    let falls = contains_text(update.as_str(), "--");
    if (same_text(comparison.as_str(), "<") || same_text(comparison.as_str(), "<="))
        && starts_at_zero && !falls {
        Some((counter, Direction::Forward))
    } else if (same_text(comparison.as_str(), ">") || same_text(comparison.as_str(), ">="))
        && falls {
        Some((counter, Direction::Backward))
    } else {
        None
    }
}

/// What a subscript by the counter reads from.
fn indexed_node<'a>(node: &'a SyntaxNode, counter: &str, source: &Vec<u8>) -> (sequence: Option<
    &'a SyntaxNode,
>)
    ensures
        optional_tree(sequence, source@) == indexed_by(tree_of(*node, source@), counter@),
{
    if !node.is_a("subscript_expression") {
        return None;
    }
    match node.child_by_field("index", Ghost(source@)) {
        Some(index) => if same_text(index.text_or_empty(source).as_str(), counter) {
            node.child_by_field("argument", Ghost(source@))
        } else {
            None
        },
        None => None,
    }
}

/// What is read by the counter anywhere in a tree.
fn read_node<'a>(node: &'a SyntaxNode, counter: &str, source: &Vec<u8>) -> (sequence: Option<
    &'a SyntaxNode,
>)
    ensures
        optional_tree(sequence, source@) == read_anywhere(tree_of(*node, source@), counter@),
    decreases tree_height(tree_of(*node, source@)),
{
    let own = indexed_node(node, counter, source);
    if own.is_some() {
        return own;
    }
    let ghost tree = tree_of(*node, source@);
    let mut n: usize = node.children.len();
    assert(tree.parts.len() == node.children@.len());
    while n > 0
        invariant
            tree == tree_of(*node, source@),
            tree.parts.len() == node.children@.len(),
            n <= node.children@.len(),
            read_anywhere(tree, counter@) == read_before(tree, counter@, n as int),
        decreases n,
    {
        proof {
            assert(tree.parts[n - 1] == tree_of(node.children@[n - 1], source@));
            lemma_part_height(tree, n - 1);
        }
        let found = read_node(&node.children[n - 1], counter, source);
        if found.is_some() {
            return found;
        }
        n -= 1;
    }
    None
}

/// What a loop body indexes with the counter.
pub(crate) struct Indexed<'a> {
    pub sequence: &'a SyntaxNode,
    pub binding: Option<String>,
    pub declaration: Option<usize>,
}

/// The content of what a loop body indexes.
pub(crate) open spec fn indexed_view(indexed: Option<Indexed>, source: Seq<u8>) -> Option<
    IndexedView,
> {
    match indexed {
        Some(indexed) => Some(
            IndexedView {
                sequence: tree_of(*indexed.sequence, source),
                binding: optional_text(indexed.binding),
                declaration: match indexed.declaration {
                    Some(place) => Some(place as int),
                    None => None,
                },
            },
        ),
        None => None,
    }
}

/// What a declaration that names the element reads from, and the name.
fn element_node<'a>(node: &'a SyntaxNode, counter: &str, source: &Vec<u8>) -> (element: Option<
    (&'a SyntaxNode, String),
>)
    ensures
        match element {
            Some((sequence, name)) => element_named(tree_of(*node, source@), counter@) == Some(
                (tree_of(*sequence, source@), name@),
            ),
            None => element_named(tree_of(*node, source@), counter@) is None,
        },
{
    let declarator = match first_descendant(node, "init_declarator", Ghost(source@)) {
        Some(declarator) => declarator,
        None => {
            return None;
        },
    };
    let value = match declarator.child_by_field("value", Ghost(source@)) {
        Some(value) => value,
        None => {
            return None;
        },
    };
    match (
        indexed_node(value, counter, source),
        declarator.child_by_field("declarator", Ghost(source@)),
    ) {
        (Some(sequence), Some(named)) => match innermost_identifier(named, source) {
            Some(name) => Some((sequence, name)),
            None => None,
        },
        _ => None,
    }
}

/// An `a[counter]` in the body, and the declaration binding it if the body opens
/// with `T v = a[counter];`. Of several that no declaration binds, the one a search
/// from the last part to the first meets first.
pub(crate) fn find_indexed<'a>(
    body: &'a SyntaxNode,
    counter: &str,
    source: &Vec<u8>,
) -> (indexed: Option<Indexed<'a>>)
    ensures
        indexed_view(indexed, source@) == indexed_in(tree_of(*body, source@), counter@),
        indexed is Some ==> tree_height(tree_of(*indexed->0.sequence, source@)) < tree_height(
            tree_of(*body, source@),
        ),
{
    let ghost tree = tree_of(*body, source@);
    proof {
        lemma_indexed_in(tree, counter@);
    }
    if body.is_a("compound_statement") {
        let mut i: usize = 0;
        let mut leading = true;
        assert(tree.parts.len() == body.children@.len());
        while i < body.children.len() && leading
            invariant
                tree == tree_of(*body, source@),
                tree.parts.len() == body.children@.len(),
                tree.kind == "compound_statement"@,
                i <= body.children@.len(),
                leading_element(tree, counter@, 0) == if leading {
                    leading_element(tree, counter@, i as int)
                } else {
                    None
                },
                indexed_in(tree, counter@) matches Some(indexed) ==> tree_height(indexed.sequence)
                    < tree_height(tree),
            decreases body.children@.len() - i,
        {
            let child = &body.children[i];
            assert(tree.parts[i as int] == tree_of(*child, source@));
            if child.named {
                if !child.is_a("declaration") {
                    leading = false;
                } else if let Some((sequence, name)) = element_node(child, counter, source) {
                    return Some(Indexed { sequence, binding: Some(name), declaration: Some(i) });
                }
            }
            i += 1;
        }
    }
    match read_node(body, counter, source) {
        Some(sequence) => Some(Indexed { sequence, binding: None, declaration: None }),
        None => None,
    }
}

} // verus!
