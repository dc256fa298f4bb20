//! A syntax tree as plain values: what a parser reports of each node, and the
//! bytes it was read from.

use crate::lists::{greatest, lemma_greatest_member};
use crate::normalize::form::optional_text;
use crate::text::same_text;
use vstd::prelude::*;
use vstd::string::*;
use vstd::utf8::*;

verus! {

/// A node of a syntax tree. Rows and columns count from zero.
#[derive(Debug)]
pub struct SyntaxNode {
    /// What the grammar calls this node.
    pub kind: String,
    /// The field of its parent that it fills, when it fills one.
    pub field: Option<String>,
    /// Whether the grammar names this node, rather than quoting it.
    pub named: bool,
    /// Whether the parser supplied it to recover from an error.
    pub missing: bool,
    pub start_byte: usize,
    pub end_byte: usize,
    pub start_row: usize,
    pub start_column: usize,
    pub end_row: usize,
    pub end_column: usize,
    pub children: Vec<SyntaxNode>,
}

/// Where a node stands in its source.
pub struct Extent {
    pub start_byte: usize,
    pub end_byte: usize,
    pub start_row: usize,
    pub start_column: usize,
    pub end_row: usize,
    pub end_column: usize,
}

/// The content of a [`SyntaxNode`], with the text it covers.
pub struct Tree {
    pub kind: Seq<char>,
    pub field: Option<Seq<char>>,
    pub named: bool,
    pub missing: bool,
    pub extent: Extent,
    pub text: Option<Seq<char>>,
    pub parts: Seq<Tree>,
}

/// The text of a range of bytes, where the range lies within them and they
/// encode text.
pub open spec fn text_at(source: Seq<u8>, start: int, end: int) -> Option<Seq<char>> {
    if 0 <= start <= end <= source.len() && valid_utf8(source.subrange(start, end)) {
        Some(decode_utf8(source.subrange(start, end)))
    } else {
        None
    }
}

/// The content of a node.
pub open spec fn tree_of(node: SyntaxNode, source: Seq<u8>) -> Tree
    decreases node,
{
    Tree {
        kind: node.kind@,
        field: optional_text(node.field),
        named: node.named,
        missing: node.missing,
        extent: Extent {
            start_byte: node.start_byte,
            end_byte: node.end_byte,
            start_row: node.start_row,
            start_column: node.start_column,
            end_row: node.end_row,
            end_column: node.end_column,
        },
        text: text_at(source, node.start_byte as int, node.end_byte as int),
        parts: trees_of(node.children@, source),
    }
}

/// The contents of several nodes.
pub open spec fn trees_of(nodes: Seq<SyntaxNode>, source: Seq<u8>) -> Seq<Tree>
    decreases nodes,
{
    Seq::new(
        nodes.len(),
        |i: int|
            if 0 <= i < nodes.len() {
                tree_of(nodes[i], source)
            } else {
                arbitrary()
            },
    )
}

/// How many levels a tree has.
pub open spec fn tree_height(tree: Tree) -> nat
    decreases tree,
{
    1 + greatest(each_height(tree.parts))
}

/// How many levels each of several trees has.
pub open spec fn each_height(trees: Seq<Tree>) -> Seq<nat>
    decreases trees,
{
    Seq::new(
        trees.len(),
        |i: int|
            if 0 <= i < trees.len() {
                tree_height(trees[i])
            } else {
                0
            },
    )
}

/// A part has fewer levels than the whole.
pub proof fn lemma_part_height(tree: Tree, i: int)
    requires
        0 <= i < tree.parts.len(),
    ensures
        tree_height(tree.parts[i]) < tree_height(tree),
{
    assert(each_height(tree.parts)[i] == tree_height(tree.parts[i]));
    lemma_greatest_member(each_height(tree.parts), i);
}

/// The first part from a place on that fills a field.
pub open spec fn field_from(tree: Tree, field: Seq<char>, i: int) -> Option<int>
    decreases tree.parts.len() - i,
{
    if i < 0 || i >= tree.parts.len() {
        None
    } else if tree.parts[i].field == Some(field) {
        Some(i)
    } else {
        field_from(tree, field, i + 1)
    }
}

/// The first part that fills a field.
pub open spec fn field_part(tree: Tree, field: Seq<char>) -> Option<int> {
    field_from(tree, field, 0)
}

/// The first part that fills a field, itself.
pub open spec fn part_in(tree: Tree, field: Seq<char>) -> Option<Tree> {
    match field_part(tree, field) {
        Some(i) => Some(tree.parts[i]),
        None => None,
    }
}

/// The text a tree covers, or nothing where it covers no text.
pub open spec fn text_in(tree: Tree) -> Seq<char> {
    match tree.text {
        Some(text) => text,
        None => Seq::empty(),
    }
}

/// The first named part from a place on.
pub open spec fn named_from(tree: Tree, i: int) -> Option<int>
    decreases tree.parts.len() - i,
{
    if i < 0 || i >= tree.parts.len() {
        None
    } else if tree.parts[i].named {
        Some(i)
    } else {
        named_from(tree, i + 1)
    }
}

/// The first named part.
pub open spec fn first_named(tree: Tree) -> Option<int> {
    named_from(tree, 0)
}

/// A part found by field is one of the parts, and fills the field.
pub proof fn lemma_field_part(tree: Tree, field: Seq<char>, i: int)
    requires
        0 <= i,
    ensures
        field_from(tree, field, i) matches Some(found) ==> i <= found < tree.parts.len()
            && tree.parts[found].field == Some(field) && tree_height(tree.parts[found])
            < tree_height(tree),
    decreases tree.parts.len() - i,
{
    if i < tree.parts.len() {
        if tree.parts[i].field == Some(field) {
            lemma_part_height(tree, i);
        } else {
            lemma_field_part(tree, field, i + 1);
        }
    }
}

/// A part found by being named is one of the parts.
pub proof fn lemma_first_named(tree: Tree, i: int)
    requires
        0 <= i,
    ensures
        named_from(tree, i) matches Some(found) ==> i <= found < tree.parts.len()
            && tree.parts[found].named && tree_height(tree.parts[found]) < tree_height(tree),
    decreases tree.parts.len() - i,
{
    if i < tree.parts.len() {
        if tree.parts[i].named {
            lemma_part_height(tree, i);
        } else {
            lemma_first_named(tree, i + 1);
        }
    }
}

/// `String::from_utf8` turns bytes into the text they encode, and fails exactly
/// where they are not valid UTF-8.
#[verifier::external_body]
pub(crate) fn decoded(bytes: Vec<u8>) -> (text: Option<String>)
    ensures
        match text {
            Some(text) => valid_utf8(bytes@) && text@ == decode_utf8(bytes@),
            None => !valid_utf8(bytes@),
        },
{
    String::from_utf8(bytes).ok()
}

/// A range of bytes.
pub(crate) fn bytes_between(source: &Vec<u8>, start: usize, end: usize) -> (bytes: Vec<u8>)
    requires
        start <= end <= source@.len(),
    ensures
        bytes@ == source@.subrange(start as int, end as int),
{
    let mut bytes: Vec<u8> = Vec::new();
    let mut i: usize = start;
    assert(source@.subrange(start as int, start as int) =~= Seq::<u8>::empty());
    while i < end
        invariant
            start <= i <= end <= source@.len(),
            bytes@ == source@.subrange(start as int, i as int),
        decreases end - i,
    {
        bytes.push(source[i]);
        assert(source@.subrange(start as int, i + 1) =~= source@.subrange(
            start as int,
            i as int,
        ).push(source@[i as int]));
        i += 1;
    }
    bytes
}

impl SyntaxNode {
    /// The text a node covers.
    pub fn text(&self, source: &Vec<u8>) -> (text: Option<String>)
        ensures
            optional_text(text) == tree_of(*self, source@).text,
    {
        if self.start_byte <= self.end_byte && self.end_byte <= source.len() {
            decoded(bytes_between(source, self.start_byte, self.end_byte))
        } else {
            None
        }
    }

    /// The text a node covers, or nothing where it covers no text.
    pub fn text_or_empty(&self, source: &Vec<u8>) -> (text: String)
        ensures
            text@ == text_in(tree_of(*self, source@)),
    {
        match self.text(source) {
            Some(text) => text,
            None => String::new(),
        }
    }

    /// The first child that fills a field.
    pub(crate) fn child_by_field(&self, field: &str, source: Ghost<Seq<u8>>) -> (child: Option<
        &SyntaxNode,
    >)
        ensures
            match child {
                Some(child) => field_part(tree_of(*self, source@), field@) is Some && tree_of(
                    *child,
                    source@,
                ) == tree_of(*self, source@).parts[field_part(
                    tree_of(*self, source@),
                    field@,
                )->0] && tree_height(tree_of(*child, source@)) < tree_height(
                    tree_of(*self, source@),
                ),
                None => field_part(tree_of(*self, source@), field@) is None,
            },
    {
        match self.place_of_field(field, source) {
            Some(place) => {
                proof {
                    lemma_field_part(tree_of(*self, source@), field@, 0);
                    assert(tree_of(*self, source@).parts[place as int] == tree_of(
                        self.children@[place as int],
                        source@,
                    ));
                }
                Some(&self.children[place])
            },
            None => None,
        }
    }

    /// Where the first child that fills a field stands.
    pub(crate) fn place_of_field(&self, field: &str, source: Ghost<Seq<u8>>) -> (place: Option<usize>)
        ensures
            match place {
                Some(place) => field_part(tree_of(*self, source@), field@) == Some(place as int)
                    && place < self.children@.len(),
                None => field_part(tree_of(*self, source@), field@) is None,
            },
    {
        let ghost tree = tree_of(*self, source@);
        assert(tree.parts.len() == self.children@.len());
        let mut i: usize = 0;
        while i < self.children.len()
            invariant
                tree == tree_of(*self, source@),
                tree.parts.len() == self.children@.len(),
                i <= self.children@.len(),
                field_part(tree, field@) == field_from(tree, field@, i as int),
            decreases self.children@.len() - i,
        {
            assert(tree.parts[i as int] == tree_of(self.children@[i as int], source@));
            if let Some(own) = &self.children[i].field {
                if same_text(own.as_str(), field) {
                    return Some(i);
                }
            }
            i += 1;
        }
        None
    }

    /// The first named child.
    pub(crate) fn first_named_child(&self, source: Ghost<Seq<u8>>) -> (child: Option<&SyntaxNode>)
        ensures
            match child {
                Some(child) => first_named(tree_of(*self, source@)) is Some && tree_of(
                    *child,
                    source@,
                ) == tree_of(*self, source@).parts[first_named(tree_of(*self, source@))->0]
                    && tree_height(tree_of(*child, source@)) < tree_height(
                    tree_of(*self, source@),
                ),
                None => first_named(tree_of(*self, source@)) is None,
            },
    {
        let ghost tree = tree_of(*self, source@);
        assert(tree.parts.len() == self.children@.len());
        let mut i: usize = 0;
        while i < self.children.len()
            invariant
                tree == tree_of(*self, source@),
                tree.parts.len() == self.children@.len(),
                i <= self.children@.len(),
                first_named(tree) == named_from(tree, i as int),
            decreases self.children@.len() - i,
        {
            assert(tree.parts[i as int] == tree_of(self.children@[i as int], source@));
            if self.children[i].named {
                proof {
                    lemma_part_height(tree, i as int);
                }
                return Some(&self.children[i]);
            }
            i += 1;
        }
        None
    }

    /// Whether a node is of a kind.
    pub fn is_a(&self, kind: &str) -> (same: bool)
        ensures
            same == (self.kind@ == kind@),
    {
        same_text(self.kind.as_str(), kind)
    }
}

/// Which kinds of node a language's tokens are made of.
#[derive(Debug, Clone)]
pub struct Tokenization {
    pub ignored_node_kinds: Vec<String>,
    pub identifier_node_kinds: Vec<String>,
    pub literal_node_kinds: Vec<String>,
    pub unit_node_kinds: Vec<String>,
}

/// What a file was parsed with.
#[derive(Debug, Clone)]
pub struct Provenance {
    pub source_sha256: String,
    pub parser_id: String,
    pub parser_version: String,
    pub grammar_sha256: String,
    pub queries_sha256: String,
}

/// A parsed file.
#[derive(Debug)]
pub struct ParsedFile {
    pub path: String,
    pub source: Vec<u8>,
    pub root: SyntaxNode,
    /// The language whose tokens can be compared with one another.
    pub comparison_domain: String,
    pub tokenization: Tokenization,
    pub provenance: Provenance,
}

/// The contents of names.
pub open spec fn name_list(names: Seq<String>) -> Seq<Seq<char>> {
    Seq::new(names.len(), |i: int| names[i]@)
}

/// Whether a list of names holds one.
pub fn lists_name(names: &Vec<String>, name: &str) -> (listed: bool)
    ensures
        listed == name_list(names@).contains(name@),
{
    let ghost all = name_list(names@);
    let mut i: usize = 0;
    while i < names.len()
        invariant
            i <= names@.len(),
            all == name_list(names@),
            forall|j: int| 0 <= j < i ==> #[trigger] all[j] != name@,
        decreases names@.len() - i,
    {
        assert(all[i as int] == names@[i as int]@);
        if same_text(names[i].as_str(), name) {
            return true;
        }
        i += 1;
    }
    false
}

} // verus!
