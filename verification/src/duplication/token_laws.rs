//! What the tokens and units of a file hold of its tree.

use crate::duplication::token::{
    is_token, is_unit, token_at, tokens_in, tokens_upto, unit_at, units_in, units_upto, TokenRules,
    TokenView, UnitView,
};
use crate::syntax::{lemma_part_height, tree_height, Tree};
use vstd::prelude::*;

verus! {

/// Whether a node of a tree is reached without passing through one that is missing or
/// of an ignored kind, and is neither itself.
pub open spec fn is_seen(part: Tree, tree: Tree, ignored: Seq<Seq<char>>) -> bool
    decreases tree_height(tree),
{
    !tree.missing && !ignored.contains(tree.kind) && (part == tree || exists|i: int|
        #![trigger tree.parts[i]]
        0 <= i < tree.parts.len() && {
            proof {
                lemma_part_height(tree, i);
            }
            is_seen(part, tree.parts[i], ignored)
        })
}

/// Whether a token tells of a leaf: its kind, what is written there, and where.
pub open spec fn tells(token: TokenView, leaf: Tree, source: Seq<u8>) -> bool {
    &&& token.kind == leaf.kind
    &&& token.lexeme == source.subrange(leaf.extent.start_byte as int, leaf.extent.end_byte as int)
    &&& token.start_byte == leaf.extent.start_byte as u64
    &&& token.end_byte == leaf.extent.end_byte as u64
    &&& token.start_line == (leaf.extent.start_row + 1) as u32
    &&& token.end_line == (leaf.extent.end_row + 1) as u32
}

proof fn lemma_upto_holds(tree: Tree, rules: TokenRules, source: Seq<u8>, i: int, n: int)
    requires
        0 <= i < n <= tree.parts.len(),
    ensures
        forall|token: TokenView|
            tokens_in(tree.parts[i], rules, source).contains(token) ==> #[trigger] tokens_upto(
                tree,
                rules,
                source,
                n,
            ).contains(token),
        forall|unit: UnitView|
            units_in(tree.parts[i], rules).contains(unit) ==> #[trigger] units_upto(
                tree,
                rules,
                n,
            ).contains(unit),
    decreases n,
{
    let all = tokens_upto(tree, rules, source, n);
    let before = tokens_upto(tree, rules, source, n - 1);
    let last = tokens_in(tree.parts[n - 1], rules, source);
    let units = units_upto(tree, rules, n);
    let earlier = units_upto(tree, rules, n - 1);
    let later = units_in(tree.parts[n - 1], rules);
    if i < n - 1 {
        lemma_upto_holds(tree, rules, source, i, n - 1);
    }
    assert forall|token: TokenView|
        tokens_in(tree.parts[i], rules, source).contains(token) implies #[trigger] all.contains(
        token,
    ) by {
        if i == n - 1 {
            let k = choose|k: int| 0 <= k < last.len() && last[k] == token;
            assert(all[before.len() + k] == token);
        } else {
            assert(before.contains(token));
            let k = choose|k: int| 0 <= k < before.len() && before[k] == token;
            assert(all[k] == token);
        }
    }
    assert forall|unit: UnitView|
        units_in(tree.parts[i], rules).contains(unit) implies #[trigger] units.contains(unit) by {
        if i == n - 1 {
            let k = choose|k: int| 0 <= k < later.len() && later[k] == unit;
            assert(units[earlier.len() + k] == unit);
        } else {
            assert(earlier.contains(unit));
            let k = choose|k: int| 0 <= k < earlier.len() && earlier[k] == unit;
            assert(units[k] == unit);
        }
    }
}

/// Every leaf of a file that covers something and is neither missing nor inside what
/// is ignored is a token. It is told apart as an identifier or a literal where its
/// kind is listed as one.
pub proof fn law_every_leaf_is_a_token(
    leaf: Tree,
    tree: Tree,
    rules: TokenRules,
    source: Seq<u8>,
)
    requires
        is_seen(leaf, tree, rules.ignored),
        leaf.parts.len() == 0,
        leaf.extent.start_byte != leaf.extent.end_byte,
    ensures
        exists|k: int|
            0 <= k < tokens_in(tree, rules, source).len() && tells(
                #[trigger] tokens_in(tree, rules, source)[k],
                leaf,
                source,
            ) && (tokens_in(tree, rules, source)[k].class is Identifier
                <==> rules.identifiers.contains(leaf.kind)) && (tokens_in(
                tree,
                rules,
                source,
            )[k].class is Literal <==> rules.literals.contains(leaf.kind)
                && !rules.identifiers.contains(leaf.kind)),
{
    lemma_leaf_listed(leaf, tree, rules, source);
    let all = tokens_in(tree, rules, source);
    let k = choose|k: int| 0 <= k < all.len() && all[k] == token_at(leaf, rules, source);
    assert(tells(all[k], leaf, source));
}

proof fn lemma_leaf_listed(leaf: Tree, tree: Tree, rules: TokenRules, source: Seq<u8>)
    requires
        is_seen(leaf, tree, rules.ignored),
        leaf.parts.len() == 0,
        leaf.extent.start_byte != leaf.extent.end_byte,
    ensures
        tokens_in(tree, rules, source).contains(token_at(leaf, rules, source)),
    decreases tree_height(tree),
{
    let all = tokens_in(tree, rules, source);
    if leaf == tree {
        assert(all[0] == token_at(leaf, rules, source));
    } else {
        let i = choose|i: int|
            #![trigger tree.parts[i]]
            0 <= i < tree.parts.len() && is_seen(leaf, tree.parts[i], rules.ignored);
        lemma_part_height(tree, i);
        lemma_leaf_listed(leaf, tree.parts[i], rules, source);
        lemma_upto_holds(tree, rules, source, i, tree.parts.len() as int);
        assert(all == tokens_upto(tree, rules, source, tree.parts.len() as int));
    }
}

/// Every token is a leaf of the file that covers something and is neither missing nor
/// inside what is ignored.
pub proof fn law_every_token_is_a_leaf(
    tree: Tree,
    rules: TokenRules,
    source: Seq<u8>,
    token: TokenView,
)
    requires
        tokens_in(tree, rules, source).contains(token),
    ensures
        exists|leaf: Tree| #[trigger]
            is_seen(leaf, tree, rules.ignored) && leaf.parts.len() == 0 && leaf.extent.start_byte
                != leaf.extent.end_byte && tells(token, leaf, source),
    decreases tree_height(tree),
{
    let all = tokens_in(tree, rules, source);
    if is_token(tree) {
        assert(is_seen(tree, tree, rules.ignored));
        assert(all =~= seq![token_at(tree, rules, source)]);
    } else {
        lemma_upto_from(tree, rules, source, tree.parts.len() as int, token);
        let i = choose|i: int|
            #![trigger tree.parts[i]]
            0 <= i < tree.parts.len() && tokens_in(tree.parts[i], rules, source).contains(token);
        lemma_part_height(tree, i);
        law_every_token_is_a_leaf(tree.parts[i], rules, source, token);
        let leaf = choose|leaf: Tree| #[trigger]
            is_seen(leaf, tree.parts[i], rules.ignored) && leaf.parts.len() == 0
                && leaf.extent.start_byte != leaf.extent.end_byte && tells(token, leaf, source);
        assert(is_seen(leaf, tree, rules.ignored));
    }
}

proof fn lemma_upto_from(
    tree: Tree,
    rules: TokenRules,
    source: Seq<u8>,
    n: int,
    token: TokenView,
)
    requires
        0 <= n <= tree.parts.len(),
        tokens_upto(tree, rules, source, n).contains(token),
    ensures
        exists|i: int|
            #![trigger tree.parts[i]]
            0 <= i < n && tokens_in(tree.parts[i], rules, source).contains(token),
    decreases n,
{
    if n > 0 {
        let before = tokens_upto(tree, rules, source, n - 1);
        let last = tokens_in(tree.parts[n - 1], rules, source);
        let all = tokens_upto(tree, rules, source, n);
        let k = choose|k: int| 0 <= k < all.len() && all[k] == token;
        if k < before.len() {
            assert(before[k] == token);
            lemma_upto_from(tree, rules, source, n - 1, token);
            let i = choose|i: int|
                #![trigger tree.parts[i]]
                0 <= i < n - 1 && tokens_in(tree.parts[i], rules, source).contains(token);
            assert(tokens_in(tree.parts[i], rules, source).contains(token));
        } else {
            assert(last[k - before.len()] == token);
            assert(tokens_in(tree.parts[n - 1], rules, source).contains(token));
        }
    }
}

/// Every construct of a listed kind that covers something is a unit, however deeply it
/// is nested, unless it is missing or inside what is ignored.
pub proof fn law_every_construct_is_a_unit(part: Tree, tree: Tree, rules: TokenRules)
    requires
        is_seen(part, tree, rules.ignored),
        rules.units.contains(part.kind),
        part.extent.start_byte < part.extent.end_byte,
    ensures
        units_in(tree, rules).contains(
            (UnitView {
                kind: part.kind,
                start_byte: part.extent.start_byte as u64,
                end_byte: part.extent.end_byte as u64,
                start_line: (part.extent.start_row + 1) as u32,
                end_line: (part.extent.end_row + 1) as u32,
            }),
        ),
    decreases tree_height(tree),
{
    let all = units_in(tree, rules);
    let n = tree.parts.len() as int;
    let inner = units_upto(tree, rules, n);
    if part == tree {
        assert(all[0] == unit_at(part));
    } else {
        let i = choose|i: int|
            #![trigger tree.parts[i]]
            0 <= i < tree.parts.len() && is_seen(part, tree.parts[i], rules.ignored);
        lemma_part_height(tree, i);
        law_every_construct_is_a_unit(part, tree.parts[i], rules);
        lemma_upto_holds(tree, rules, Seq::empty(), i, n);
        assert(inner.contains(unit_at(part)));
        let k = choose|k: int| 0 <= k < inner.len() && inner[k] == unit_at(part);
        if is_unit(tree, rules) {
            assert(all[1 + k] == unit_at(part));
        } else {
            assert(all[k] == unit_at(part));
        }
    }
}

} // verus!
