//! Source as a list of tokens, and what makes two lists the same.

use super::Error;
use crate::paths::components;
use crate::digest::{
    little_endian, sha256_hex, sha256_text, write_bytes, write_little_endian, text_bytes};
use crate::facts::{EvidenceView, InputEvidence};
use crate::lists::{extended, lemma_extended_one, position_of};
use crate::syntax::{
    bytes_between, lemma_part_height, lists_name, name_list, tree_height, tree_of, ParsedFile,
    SyntaxNode, Tokenization, Tree,
};
use crate::text::same_text;
use vstd::prelude::*;
use vstd::string::*;
use vstd::utf8::*;

verus! {

/// What a token is compared by.
#[derive(Debug, Clone, Copy, PartialEq, Eq, Structural)]
pub enum TokenClass {
    Other,
    Identifier,
    Literal,
}

/// What of a token is compared only up to consistent renaming.
#[derive(Debug, Clone, Copy, PartialEq, Eq, Structural)]
pub struct Normalization {
    pub identifiers: bool,
    pub literals: bool,
}

/// One token of a file.
#[derive(Debug, Clone, PartialEq, Eq)]
pub struct SyntaxToken {
    pub ordinal: u32,
    pub kind: String,
    pub lexeme: Vec<u8>,
    pub class: TokenClass,
    pub start_byte: u64,
    pub end_byte: u64,
    pub start_line: u32,
    pub end_line: u32,
}

/// The content of a [`SyntaxToken`], apart from its number.
pub struct TokenView {
    pub kind: Seq<char>,
    pub lexeme: Seq<u8>,
    pub class: TokenClass,
    pub start_byte: u64,
    pub end_byte: u64,
    pub start_line: u32,
    pub end_line: u32,
}

impl View for SyntaxToken {
    type V = TokenView;

    open spec fn view(&self) -> TokenView {
        TokenView {
            kind: self.kind@,
            lexeme: self.lexeme@,
            class: self.class,
            start_byte: self.start_byte,
            end_byte: self.end_byte,
            start_line: self.start_line,
            end_line: self.end_line,
        }
    }
}

/// The contents of tokens.
pub open spec fn token_views(tokens: Seq<SyntaxToken>) -> Seq<TokenView> {
    Seq::new(tokens.len(), |i: int| tokens[i]@)
}

/// A construct that clones are attributed to.
#[derive(Debug, Clone, PartialEq, Eq)]
pub struct SyntaxUnit {
    pub kind: String,
    pub start_byte: u64,
    pub end_byte: u64,
    pub start_line: u32,
    pub end_line: u32,
}

/// The content of a [`SyntaxUnit`].
pub struct UnitView {
    pub kind: Seq<char>,
    pub start_byte: u64,
    pub end_byte: u64,
    pub start_line: u32,
    pub end_line: u32,
}

impl View for SyntaxUnit {
    type V = UnitView;

    open spec fn view(&self) -> UnitView {
        UnitView {
            kind: self.kind@,
            start_byte: self.start_byte,
            end_byte: self.end_byte,
            start_line: self.start_line,
            end_line: self.end_line,
        }
    }
}

/// The contents of units.
pub open spec fn unit_views(units: Seq<SyntaxUnit>) -> Seq<UnitView> {
    Seq::new(units.len(), |i: int| units[i]@)
}

/// A file as a list of tokens.
#[derive(Debug, Clone)]
pub struct TokenizedFile {
    pub path: String,
    pub comparison_domain: String,
    pub evidence: InputEvidence,
    pub tokens: Vec<SyntaxToken>,
    pub units: Vec<SyntaxUnit>,
}

/// Whether each token carries its place in the list.
pub open spec fn numbered(tokens: Seq<SyntaxToken>) -> bool {
    forall|i: int| 0 <= i < tokens.len() ==> (#[trigger] tokens[i]).ordinal == i
}

/// The kinds of node that a language's tokens are made of.
pub struct TokenRules {
    pub ignored: Seq<Seq<char>>,
    pub identifiers: Seq<Seq<char>>,
    pub literals: Seq<Seq<char>>,
    pub units: Seq<Seq<char>>,
}

impl View for Tokenization {
    type V = TokenRules;

    open spec fn view(&self) -> TokenRules {
        TokenRules {
            ignored: name_list(self.ignored_node_kinds@),
            identifiers: name_list(self.identifier_node_kinds@),
            literals: name_list(self.literal_node_kinds@),
            units: name_list(self.unit_node_kinds@),
        }
    }
}

/// Whether a tree is passed over.
pub open spec fn is_skipped(tree: Tree, rules: TokenRules) -> bool {
    rules.ignored.contains(tree.kind) || tree.missing
}

/// Whether a tree is a token: it has no parts, and covers something.
pub open spec fn is_token(tree: Tree) -> bool {
    tree.parts.len() == 0 && tree.extent.start_byte != tree.extent.end_byte
}

/// Whether a tree is a unit.
pub open spec fn is_unit(tree: Tree, rules: TokenRules) -> bool {
    rules.units.contains(tree.kind) && tree.extent.start_byte < tree.extent.end_byte
}

/// What a token of a kind is compared by.
pub open spec fn class_of(kind: Seq<char>, rules: TokenRules) -> TokenClass {
    if rules.identifiers.contains(kind) {
        TokenClass::Identifier
    } else if rules.literals.contains(kind) {
        TokenClass::Literal
    } else {
        TokenClass::Other
    }
}

/// The token a tree is.
pub open spec fn token_at(tree: Tree, rules: TokenRules, source: Seq<u8>) -> TokenView {
    TokenView {
        kind: tree.kind,
        lexeme: source.subrange(
            tree.extent.start_byte as int,
            tree.extent.end_byte as int,
        ),
        class: class_of(tree.kind, rules),
        start_byte: tree.extent.start_byte as u64,
        end_byte: tree.extent.end_byte as u64,
        start_line: (tree.extent.start_row + 1) as u32,
        end_line: (tree.extent.end_row + 1) as u32,
    }
}

/// The unit a tree is.
pub open spec fn unit_at(tree: Tree) -> UnitView {
    UnitView {
        kind: tree.kind,
        start_byte: tree.extent.start_byte as u64,
        end_byte: tree.extent.end_byte as u64,
        start_line: (tree.extent.start_row + 1) as u32,
        end_line: (tree.extent.end_row + 1) as u32,
    }
}

/// The tokens of a tree, in order.
pub open spec fn tokens_in(tree: Tree, rules: TokenRules, source: Seq<u8>) -> Seq<TokenView>
    decreases tree_height(tree), 1nat, 0int,
{
    if is_skipped(tree, rules) {
        Seq::empty()
    } else if is_token(tree) {
        seq![token_at(tree, rules, source)]
    } else {
        tokens_upto(tree, rules, source, tree.parts.len() as int)
    }
}

/// The tokens of the parts before a place.
pub open spec fn tokens_upto(tree: Tree, rules: TokenRules, source: Seq<u8>, n: int) -> Seq<
    TokenView,
>
    decreases tree_height(tree), 0nat, n,
{
    if n <= 0 || n > tree.parts.len() {
        Seq::empty()
    } else {
        proof {
            lemma_part_height(tree, n - 1);
        }
        tokens_upto(tree, rules, source, n - 1) + tokens_in(tree.parts[n - 1], rules, source)
    }
}

/// The units of a tree, each before those inside it.
pub open spec fn units_in(tree: Tree, rules: TokenRules) -> Seq<UnitView>
    decreases tree_height(tree), 1nat, 0int,
{
    if is_skipped(tree, rules) {
        Seq::empty()
    } else if is_unit(tree, rules) {
        seq![unit_at(tree)] + units_upto(tree, rules, tree.parts.len() as int)
    } else {
        units_upto(tree, rules, tree.parts.len() as int)
    }
}

/// The units of the parts before a place.
pub open spec fn units_upto(tree: Tree, rules: TokenRules, n: int) -> Seq<UnitView>
    decreases tree_height(tree), 0nat, n,
{
    if n <= 0 || n > tree.parts.len() {
        Seq::empty()
    } else {
        proof {
            lemma_part_height(tree, n - 1);
        }
        units_upto(tree, rules, n - 1) + units_in(tree.parts[n - 1], rules)
    }
}

/// Whether the lines of a tree can be counted.
pub open spec fn rows_fit(tree: Tree) -> bool {
    tree.extent.start_row < u32::MAX && tree.extent.end_row < u32::MAX
}

/// Whether the lines of every token and unit of a tree can be counted.
pub open spec fn lines_fit(tree: Tree, rules: TokenRules) -> bool
    decreases tree_height(tree), 1nat, 0int,
{
    is_skipped(tree, rules) || {
        &&& is_unit(tree, rules) || is_token(tree) ==> rows_fit(tree)
        &&& lines_fit_upto(tree, rules, tree.parts.len() as int)
    }
}

/// Whether the lines of every token and unit of the parts before a place can be
/// counted.
pub open spec fn lines_fit_upto(tree: Tree, rules: TokenRules, n: int) -> bool
    decreases tree_height(tree), 0nat, n,
{
    if n <= 0 || n > tree.parts.len() {
        true
    } else {
        proof {
            lemma_part_height(tree, n - 1);
        }
        lines_fit_upto(tree, rules, n - 1) && lines_fit(tree.parts[n - 1], rules)
    }
}

/// Whether every node of a tree lies within the source.
pub open spec fn within_source(tree: Tree, length: nat) -> bool
    decreases tree_height(tree),
{
    &&& tree.extent.start_byte <= tree.extent.end_byte <= length
    &&& forall|i: int|
        #![trigger tree.parts[i]]
        0 <= i < tree.parts.len() ==> {
            proof {
                lemma_part_height(tree, i);
            }
            within_source(tree.parts[i], length)
        }
}

/// Where all lines fit, those before any place do.
proof fn lemma_lines_fit_upto(tree: Tree, rules: TokenRules, few: int, many: int)
    requires
        0 <= few <= many <= tree.parts.len(),
        lines_fit_upto(tree, rules, many),
    ensures
        lines_fit_upto(tree, rules, few),
    decreases many,
{
    if few < many {
        lemma_lines_fit_upto(tree, rules, few, many - 1);
    }
}

/// Gathers the tokens and units of a tree.
fn collect(
    node: &SyntaxNode,
    rules: &Tokenization,
    source: &Vec<u8>,
    tokens: &mut Vec<SyntaxToken>,
    units: &mut Vec<SyntaxUnit>,
) -> (fits: bool)
    requires
        within_source(tree_of(*node, source@), source@.len()),
    ensures
        fits == lines_fit(tree_of(*node, source@), rules@),
        fits ==> token_views(final(tokens)@) == token_views(old(tokens)@) + tokens_in(
            tree_of(*node, source@),
            rules@,
            source@,
        ),
        fits ==> unit_views(final(units)@) == unit_views(old(units)@) + units_in(
            tree_of(*node, source@),
            rules@,
        ),
    decreases tree_height(tree_of(*node, source@)),
{
    let ghost tree = tree_of(*node, source@);
    let ghost first_tokens = token_views(tokens@);
    let ghost first_units = unit_views(units@);
    assert(tree.parts.len() == node.children@.len());
    if lists_name(&rules.ignored_node_kinds, node.kind.as_str()) || node.missing {
        proof {
            assert(first_tokens =~= first_tokens + Seq::<TokenView>::empty());
            assert(first_units =~= first_units + Seq::<UnitView>::empty());
        }
        return true;
    }
    let unit = lists_name(&rules.unit_node_kinds, node.kind.as_str()) && node.start_byte
        < node.end_byte;
    let token = node.children.len() == 0 && node.start_byte != node.end_byte;
    if unit || token {
        if node.start_row as u64 >= 0xffff_ffff || node.end_row as u64 >= 0xffff_ffff {
            return false;
        }
    }
    let ghost own_units: Seq<UnitView> = if unit {
        seq![unit_at(tree)]
    } else {
        Seq::empty()
    };
    if unit {
        let ghost before = units@;
        let made = SyntaxUnit {
            kind: node.kind.clone(),
            start_byte: node.start_byte as u64,
            end_byte: node.end_byte as u64,
            start_line: (node.start_row + 1) as u32,
            end_line: (node.end_row + 1) as u32,
        };
        units.push(made);
        assert(unit_views(units@) =~= unit_views(before).push(made@));
    }
    assert(unit_views(units@) =~= first_units + own_units);
    if token {
        let ghost before = tokens@;
        let class = if lists_name(&rules.identifier_node_kinds, node.kind.as_str()) {
            TokenClass::Identifier
        } else if lists_name(&rules.literal_node_kinds, node.kind.as_str()) {
            TokenClass::Literal
        } else {
            TokenClass::Other
        };
        let made = SyntaxToken {
            ordinal: 0,
            kind: node.kind.clone(),
            lexeme: bytes_between(source, node.start_byte, node.end_byte),
            class,
            start_byte: node.start_byte as u64,
            end_byte: node.end_byte as u64,
            start_line: (node.start_row + 1) as u32,
            end_line: (node.end_row + 1) as u32,
        };
        tokens.push(made);
        proof {
            assert(token_views(tokens@) =~= token_views(before).push(made@));
            assert(made@ == token_at(tree, rules@, source@));
            assert(token_views(tokens@) =~= first_tokens + tokens_in(tree, rules@, source@));
            assert(own_units + units_upto(tree, rules@, 0) =~= own_units);
            assert(unit_views(units@) =~= first_units + units_in(tree, rules@));
        }
        return true;
    }
    let mut i: usize = 0;
    proof {
        assert(first_tokens =~= first_tokens + tokens_upto(tree, rules@, source@, 0));
        assert(unit_views(units@) =~= first_units + (own_units + units_upto(tree, rules@, 0)));
    }
    while i < node.children.len()
        invariant
            tree == tree_of(*node, source@),
            tree.parts.len() == node.children@.len(),
            i <= node.children@.len(),
            within_source(tree, source@.len()),
            !is_skipped(tree, rules@),
            !is_token(tree),
            is_unit(tree, rules@) ==> rows_fit(tree),
            lines_fit_upto(tree, rules@, i as int),
            token_views(tokens@) == first_tokens + tokens_upto(tree, rules@, source@, i as int),
            unit_views(units@) == first_units + (own_units + units_upto(tree, rules@, i as int)),
        decreases node.children@.len() - i,
    {
        proof {
            assert(tree.parts[i as int] == tree_of(node.children@[i as int], source@));
            lemma_part_height(tree, i as int);
        }
        if !collect(&node.children[i], rules, source, tokens, units) {
            proof {
                if lines_fit(tree, rules@) {
                    lemma_lines_fit_upto(tree, rules@, i + 1, tree.parts.len() as int);
                }
            }
            return false;
        }
        proof {
            assert(token_views(tokens@) =~= first_tokens + tokens_upto(
                tree,
                rules@,
                source@,
                i + 1,
            ));
            assert(unit_views(units@) =~= first_units + (own_units + units_upto(
                tree,
                rules@,
                i + 1,
            )));
        }
        i += 1;
    }
    assert(unit_views(units@) =~= first_units + units_in(tree, rules@));
    true
}

/// What is known of where a file came from.
pub open spec fn evidence_of(parsed: ParsedFile) -> EvidenceView {
    EvidenceView {
        path: components(parsed.path@),
        content_sha256: parsed.provenance.source_sha256@,
        parser_id: parsed.provenance.parser_id@,
        parser_version: parsed.provenance.parser_version@,
        grammar_sha256: parsed.provenance.grammar_sha256@,
        queries_sha256: parsed.provenance.queries_sha256@,
    }
}

/// Whether a parsed file can be tokenized: its lines and its tokens can be
/// counted.
pub open spec fn can_tokenize(parsed: ParsedFile) -> bool {
    let tree = tree_of(parsed.root, parsed.source@);
    &&& lines_fit(tree, parsed.tokenization@)
    &&& tokens_in(tree, parsed.tokenization@, parsed.source@).len() <= u32::MAX + 1
}

/// A parsed file as a list of tokens.
pub fn tokenize(parsed: ParsedFile) -> (result: Result<TokenizedFile, Error>)
    requires
        within_source(tree_of(parsed.root, parsed.source@), parsed.source@.len()),
    ensures
        match result {
            Ok(file) => {
                &&& can_tokenize(parsed)
                &&& file.path@ == parsed.path@
                &&& file.comparison_domain@ == parsed.comparison_domain@
                &&& file.evidence@ == evidence_of(parsed)
                &&& token_views(file.tokens@) == tokens_in(
                    tree_of(parsed.root, parsed.source@),
                    parsed.tokenization@,
                    parsed.source@,
                )
                &&& numbered(file.tokens@)
                &&& unit_views(file.units@) == units_in(
                    tree_of(parsed.root, parsed.source@),
                    parsed.tokenization@,
                )
            },
            Err(error) => !can_tokenize(parsed) && (error matches Error::SourceTooLarge { path }
                && path@ == parsed.path@),
        },
{
    let mut tokens: Vec<SyntaxToken> = Vec::new();
    let mut units: Vec<SyntaxUnit> = Vec::new();
    if !collect(&parsed.root, &parsed.tokenization, &parsed.source, &mut tokens, &mut units) {
        return Err(Error::SourceTooLarge { path: parsed.path });
    }
    proof {
        assert(token_views(Seq::<SyntaxToken>::empty()) =~= Seq::empty());
        assert(unit_views(Seq::<SyntaxUnit>::empty()) =~= Seq::empty());
        assert(token_views(tokens@) =~= tokens_in(
            tree_of(parsed.root, parsed.source@),
            parsed.tokenization@,
            parsed.source@,
        ));
        assert(unit_views(units@) =~= units_in(
            tree_of(parsed.root, parsed.source@),
            parsed.tokenization@,
        ));
    }
    if tokens.len() as u64 > 0x1_0000_0000 {
        return Err(Error::SourceTooLarge { path: parsed.path });
    }
    let ghost views = token_views(tokens@);
    let mut i: usize = 0;
    let count: usize = tokens.len();
    while i < count
        invariant
            i <= count == tokens@.len(),
            count <= 0x1_0000_0000,
            token_views(tokens@) == views,
            forall|j: int| 0 <= j < i ==> (#[trigger] tokens@[j]).ordinal == j,
        decreases count - i,
    {
        let ghost before = tokens@;
        tokens[i].ordinal = i as u32;
        proof {
            assert forall|j: int| 0 <= j < views.len() implies token_views(tokens@)[j]
                == views[j] by {
                assert(views[j] == before[j]@);
                if j != i {
                    assert(tokens@[j] == before[j]);
                }
            }
            assert(token_views(tokens@) =~= views);
        }
        i += 1;
    }
    let evidence = InputEvidence {
        path: parsed.path.clone(),
        content_sha256: parsed.provenance.source_sha256,
        parser_id: parsed.provenance.parser_id,
        parser_version: parsed.provenance.parser_version,
        grammar_sha256: parsed.provenance.grammar_sha256,
        queries_sha256: parsed.provenance.queries_sha256,
    };
    Ok(
        TokenizedFile {
            path: parsed.path,
            comparison_domain: parsed.comparison_domain,
            evidence,
            tokens,
            units,
        },
    )
}

/// What a token is told apart by when it is renamed consistently.
pub open spec fn token_key(token: TokenView) -> (Seq<char>, Seq<u8>) {
    (token.kind, token.lexeme)
}

/// The keys of the tokens of a class, in order.
pub open spec fn class_keys(tokens: Seq<TokenView>, class: TokenClass) -> Seq<
    (Seq<char>, Seq<u8>),
>
    decreases tokens.len(),
{
    if tokens.len() == 0 {
        Seq::empty()
    } else {
        let before = class_keys(tokens.drop_last(), class);
        if tokens.last().class == class {
            before.push(token_key(tokens.last()))
        } else {
            before
        }
    }
}

/// The distinct keys of the tokens of a class, in order of first appearance.
pub open spec fn known_keys(tokens: Seq<TokenView>, class: TokenClass) -> Seq<
    (Seq<char>, Seq<u8>),
> {
    extended(Seq::empty(), class_keys(tokens, class))
}

/// The number of a key among those known: a new one comes after all of them.
pub open spec fn key_number(known: Seq<(Seq<char>, Seq<u8>)>, key: (Seq<char>, Seq<u8>)) -> nat {
    let number = if known.contains(key) {
        position_of(known, key)
    } else {
        known.len() as int
    };
    if number <= u32::MAX {
        number as nat
    } else {
        u32::MAX as nat
    }
}

/// Bytes behind their length.
pub open spec fn framed(bytes: Seq<u8>) -> Seq<u8> {
    little_endian(bytes.len(), 8) + bytes
}

/// Whether a class of token is compared only up to renaming.
pub open spec fn is_renamed(class: TokenClass, normalization: Option<Normalization>) -> bool {
    match normalization {
        Some(normalization) => match class {
            TokenClass::Identifier => normalization.identifiers,
            TokenClass::Literal => normalization.literals,
            TokenClass::Other => false,
        },
        None => false,
    }
}

/// The byte that says how a token is compared.
pub open spec fn token_tag(class: TokenClass, normalization: Option<Normalization>) -> u8 {
    if !is_renamed(class, normalization) {
        101
    } else if class == TokenClass::Identifier {
        105
    } else {
        108
    }
}

/// The bytes that stand for a token after others.
pub open spec fn token_bytes(
    before: Seq<TokenView>,
    token: TokenView,
    normalization: Option<Normalization>,
) -> Seq<u8> {
    framed(encode_utf8(token.kind)) + seq![token_tag(token.class, normalization)] + if is_renamed(
        token.class,
        normalization,
    ) {
        little_endian(key_number(known_keys(before, token.class), token_key(token)), 4)
    } else {
        framed(token.lexeme)
    }
}

/// The bytes that stand for a list of tokens.
pub open spec fn identity(tokens: Seq<TokenView>, normalization: Option<Normalization>) -> Seq<u8>
    decreases tokens.len(),
{
    if tokens.len() == 0 {
        Seq::empty()
    } else {
        identity(tokens.drop_last(), normalization) + token_bytes(
            tokens.drop_last(),
            tokens.last(),
            normalization,
        )
    }
}

/// Whether two byte strings are the same.
pub fn same_bytes(left: &Vec<u8>, right: &Vec<u8>) -> (same: bool)
    ensures
        same == (left@ == right@),
{
    if left.len() != right.len() {
        return false;
    }
    let mut i: usize = 0;
    while i < left.len()
        invariant
            left@.len() == right@.len(),
            i <= left@.len(),
            forall|j: int| 0 <= j < i ==> left@[j] == right@[j],
        decreases left@.len() - i,
    {
        if left[i] != right[i] {
            return false;
        }
        i += 1;
    }
    assert(left@ =~= right@);
    true
}

/// Writes bytes behind their length.
fn write_part(output: &mut Vec<u8>, value: &Vec<u8>)
    ensures
        final(output)@ == old(output)@ + framed(value@),
{
    let ghost before = output@;
    write_little_endian(output, value.len() as u64, 8);
    write_bytes(output, value);
    assert(output@ =~= before + framed(value@));
}

/// Writes the encoding of a text behind its length.
fn write_text_part(output: &mut Vec<u8>, value: &str)
    ensures
        final(output)@ == old(output)@ + framed(encode_utf8(value@)),
{
    let copy = text_bytes(value);
    write_part(output, &copy);
}

/// The keys of the tokens at some places.
spec fn keys_at(tokens: Seq<SyntaxToken>, places: Seq<usize>) -> Seq<(Seq<char>, Seq<u8>)> {
    Seq::new(places.len(), |i: int| token_key(tokens[places[i] as int]@))
}

/// The number of a token among the known ones of its class, which a new one
/// joins.
fn canonical_number(tokens: &Vec<SyntaxToken>, place: usize, known: &mut Vec<usize>) -> (number:
    u32)
    requires
        place < tokens@.len(),
        forall|k: int|
            0 <= k < old(known)@.len() ==> (#[trigger] old(known)@[k]) < tokens@.len(),
        keys_at(tokens@, old(known)@).no_duplicates(),
    ensures
        number == key_number(keys_at(tokens@, old(known)@), token_key(tokens@[place as int]@)),
        forall|k: int|
            0 <= k < final(known)@.len() ==> (#[trigger] final(known)@[k]) < tokens@.len(),
        keys_at(tokens@, final(known)@) == extended(
            keys_at(tokens@, old(known)@),
            seq![token_key(tokens@[place as int]@)],
        ),
        keys_at(tokens@, final(known)@).no_duplicates(),
{
    let ghost list = keys_at(tokens@, known@);
    let ghost key = token_key(tokens@[place as int]@);
    proof {
        lemma_extended_one(list, key);
    }
    let mut i: usize = 0;
    while i < known.len()
        invariant
            i <= known@.len(),
            known@ == old(known)@,
            place < tokens@.len(),
            list == keys_at(tokens@, known@),
            list.no_duplicates(),
            key == token_key(tokens@[place as int]@),
            extended(list, seq![key]) == if list.contains(key) {
                list
            } else {
                list.push(key)
            },
            forall|k: int| 0 <= k < known@.len() ==> (#[trigger] known@[k]) < tokens@.len(),
            forall|k: int| 0 <= k < i ==> list[k] != key,
        decreases known@.len() - i,
    {
        assert(known@[i as int] < tokens@.len());
        let other = &tokens[known[i]];
        assert(list[i as int] == token_key(other@));
        if same_text(other.kind.as_str(), tokens[place].kind.as_str()) && same_bytes(
            &other.lexeme,
            &tokens[place].lexeme,
        ) {
            assert(list[i as int] == key);
            assert(position_of(list, key) == i);
            return if i as u64 <= 0xffff_ffff {
                i as u32
            } else {
                0xffff_ffff
            };
        }
        i += 1;
    }
    assert(!list.contains(key));
    let number: u32 = if known.len() as u64 <= 0xffff_ffff {
        known.len() as u32
    } else {
        0xffff_ffff
    };
    known.push(place);
    assert(keys_at(tokens@, known@) =~= list.push(key));
    number
}

/// Knowing the keys of one token more.
proof fn lemma_known_step(tokens: Seq<TokenView>, i: int, class: TokenClass)
    requires
        0 <= i < tokens.len(),
    ensures
        known_keys(tokens.take(i + 1), class) == if tokens[i].class == class {
            extended(known_keys(tokens.take(i), class), seq![token_key(tokens[i])])
        } else {
            known_keys(tokens.take(i), class)
        },
{
    assert(tokens.take(i + 1).drop_last() =~= tokens.take(i));
    assert(tokens.take(i + 1).last() == tokens[i]);
    let before = class_keys(tokens.take(i), class);
    let key = token_key(tokens[i]);
    lemma_extended_one(known_keys(tokens.take(i), class), key);
    assert(before.push(key).drop_last() =~= before);
}

/// The bytes that stand for a list of tokens.
fn token_identity(tokens: &Vec<SyntaxToken>, normalization: Option<Normalization>) -> (output: Vec<
    u8,
>)
    ensures
        output@ == identity(token_views(tokens@), normalization),
{
    let ghost views = token_views(tokens@);
    let mut identifiers: Vec<usize> = Vec::new();
    let mut literals: Vec<usize> = Vec::new();
    let mut output: Vec<u8> = Vec::new();
    let mut i: usize = 0;
    proof {
        assert(keys_at(tokens@, identifiers@) =~= Seq::empty());
        assert(views.take(0) =~= Seq::empty());
    }
    while i < tokens.len()
        invariant
            i <= tokens@.len(),
            views == token_views(tokens@),
            output@ == identity(views.take(i as int), normalization),
            forall|k: int| 0 <= k < identifiers@.len() ==> (#[trigger] identifiers@[k])
                < tokens@.len(),
            forall|k: int| 0 <= k < literals@.len() ==> (#[trigger] literals@[k]) < tokens@.len(),
            keys_at(tokens@, identifiers@).no_duplicates(),
            keys_at(tokens@, literals@).no_duplicates(),
            is_renamed(TokenClass::Identifier, normalization) ==> keys_at(tokens@, identifiers@)
                == known_keys(views.take(i as int), TokenClass::Identifier),
            is_renamed(TokenClass::Literal, normalization) ==> keys_at(tokens@, literals@)
                == known_keys(views.take(i as int), TokenClass::Literal),
        decreases tokens@.len() - i,
    {
        let token = &tokens[i];
        let ghost before = output@;
        proof {
            assert(views[i as int] == token@);
            assert(views.take(i + 1).drop_last() =~= views.take(i as int));
            assert(views.take(i + 1).last() == token@);
            lemma_known_step(views, i as int, TokenClass::Identifier);
            lemma_known_step(views, i as int, TokenClass::Literal);
        }
        write_text_part(&mut output, token.kind.as_str());
        let renamed = match (token.class, normalization) {
            (TokenClass::Identifier, Some(normalization)) => normalization.identifiers,
            (TokenClass::Literal, Some(normalization)) => normalization.literals,
            _ => false,
        };
        if !renamed {
            output.push(101);
            write_part(&mut output, &token.lexeme);
        } else if token.class == TokenClass::Identifier {
            output.push(105);
            let number = canonical_number(tokens, i, &mut identifiers);
            write_little_endian(&mut output, number as u64, 4);
        } else {
            output.push(108);
            let number = canonical_number(tokens, i, &mut literals);
            write_little_endian(&mut output, number as u64, 4);
        }
        assert(output@ =~= before + token_bytes(views.take(i as int), token@, normalization));
        i += 1;
    }
    assert(views.take(i as int) =~= views);
    output
}

/// The digest of a list of tokens, as they are written.
pub fn token_digest(tokens: &Vec<SyntaxToken>) -> (digest: String)
    ensures
        digest@ == sha256_text(identity(token_views(tokens@), None)),
{
    sha256_hex(&token_identity(tokens, None))
}

/// The bytes that stand for a list of tokens up to consistent renaming.
pub fn normalized_token_identity(tokens: &Vec<SyntaxToken>, normalization: Normalization) -> (
    output: Vec<u8>)
    ensures
        output@ == identity(token_views(tokens@), Some(normalization)),
{
    token_identity(tokens, Some(normalization))
}

/// The digest of a list of tokens up to consistent renaming.
pub fn normalized_token_digest(tokens: &Vec<SyntaxToken>, normalization: Normalization) -> (digest:
    String)
    ensures
        digest@ == sha256_text(identity(token_views(tokens@), Some(normalization))),
{
    sha256_hex(&token_identity(tokens, Some(normalization)))
}

/// Whether two tokens are written differently.
pub open spec fn differs(left: TokenView, right: TokenView) -> bool {
    left.kind != right.kind || left.lexeme != right.lexeme
}

/// How many of the first so many tokens are written differently.
pub open spec fn changed_upto(left: Seq<TokenView>, right: Seq<TokenView>, n: int) -> nat
    decreases n,
{
    if n <= 0 {
        0
    } else {
        changed_upto(left, right, n - 1) + if differs(left[n - 1], right[n - 1]) {
            1nat
        } else {
            0
        }
    }
}

/// How many tokens of two lists, matched in order, are written differently.
pub open spec fn changed_tokens(left: Seq<TokenView>, right: Seq<TokenView>) -> nat {
    changed_upto(
        left,
        right,
        if left.len() < right.len() {
            left.len() as int
        } else {
            right.len() as int
        },
    )
}

/// Whether two tokens are written alike.
fn same_token(left: &SyntaxToken, right: &SyntaxToken) -> (same: bool)
    ensures
        same == !differs(left@, right@),
{
    same_text(left.kind.as_str(), right.kind.as_str()) && same_bytes(&left.lexeme, &right.lexeme)
}

/// How many tokens of two lists, matched in order, are written differently.
pub fn changed_token_count(left: &Vec<SyntaxToken>, right: &Vec<SyntaxToken>) -> (count: u32)
    ensures
        count == if changed_tokens(token_views(left@), token_views(right@)) <= u32::MAX {
            changed_tokens(token_views(left@), token_views(right@))
        } else {
            u32::MAX as nat
        },
{
    let ghost left_views = token_views(left@);
    let ghost right_views = token_views(right@);
    let shorter: usize = if left.len() < right.len() {
        left.len()
    } else {
        right.len()
    };
    let mut count: usize = 0;
    let mut i: usize = 0;
    while i < shorter
        invariant
            i <= shorter,
            shorter <= left@.len(),
            shorter <= right@.len(),
            left_views == token_views(left@),
            right_views == token_views(right@),
            count <= i,
            count == changed_upto(left_views, right_views, i as int),
        decreases shorter - i,
    {
        assert(left_views[i as int] == left@[i as int]@);
        assert(right_views[i as int] == right@[i as int]@);
        if !same_token(&left[i], &right[i]) {
            count += 1;
        }
        i += 1;
    }
    if count as u64 <= 0xffff_ffff {
        count as u32
    } else {
        0xffff_ffff
    }
}

/// Whether two lists of the same length are written alike.
pub fn same_tokens(left: &Vec<SyntaxToken>, right: &Vec<SyntaxToken>) -> (same: bool)
    requires
        left@.len() == right@.len(),
    ensures
        same == (changed_tokens(token_views(left@), token_views(right@)) == 0),
{
    changed_token_count(left, right) == 0
}

/// Where the lines of a tree can be counted, those of its tokens count from one.
pub proof fn lemma_token_lines(tree: Tree, rules: TokenRules, source: Seq<u8>)
    requires
        lines_fit(tree, rules),
    ensures
        forall|i: int|
            0 <= i < tokens_in(tree, rules, source).len() ==> (#[trigger] tokens_in(
                tree,
                rules,
                source,
            )[i]).start_line > 0,
    decreases tree_height(tree), 1nat, 0int,
{
    if !is_skipped(tree, rules) && !is_token(tree) {
        lemma_token_lines_upto(tree, rules, source, tree.parts.len() as int);
    }
}

proof fn lemma_token_lines_upto(tree: Tree, rules: TokenRules, source: Seq<u8>, n: int)
    requires
        lines_fit_upto(tree, rules, n),
        0 <= n <= tree.parts.len(),
    ensures
        forall|i: int|
            0 <= i < tokens_upto(tree, rules, source, n).len() ==> (#[trigger] tokens_upto(
                tree,
                rules,
                source,
                n,
            )[i]).start_line > 0,
    decreases tree_height(tree), 0nat, n,
{
    if n > 0 {
        lemma_part_height(tree, n - 1);
        lemma_token_lines_upto(tree, rules, source, n - 1);
        lemma_token_lines(tree.parts[n - 1], rules, source);
        let before = tokens_upto(tree, rules, source, n - 1);
        let more = tokens_in(tree.parts[n - 1], rules, source);
        assert forall|i: int| 0 <= i < (before + more).len() implies (#[trigger] (before
            + more)[i]).start_line > 0 by {
            if i < before.len() {
                assert((before + more)[i] == before[i]);
            } else {
                assert((before + more)[i] == more[i - before.len()]);
            }
        }
    }
}

} // verus!
