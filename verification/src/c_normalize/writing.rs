//! How forms are written in C, and that reading them gives them back.

use super::lookup::{counter_of, direction_of, indexed_in};
use super::reading::{
    binding_term, let_term, read_alternative, read_body, read_call, read_callee, read_conditional,
    read_expression, read_field, read_for, read_if, read_let, read_list, read_statement,
    read_steps, read_subscript, read_two, Reading,
};
use crate::normalize::form::{Direction, Shape, Term};
use crate::normalize::names::leaf;
use crate::normalize::roles::role_of;
use crate::syntax::{field_from, field_part, first_named, named_from, text_in, Extent, Tree};
use crate::text::holds_text;
use vstd::prelude::*;
use vstd::string::*;

verus! {

/// A node.
pub open spec fn node(
    kind: Seq<char>,
    field: Option<Seq<char>>,
    text: Seq<char>,
    parts: Seq<Tree>,
) -> Tree {
    Tree {
        kind,
        field,
        named: true,
        missing: false,
        extent: Extent {
            start_byte: 0,
            end_byte: 0,
            start_row: 0,
            start_column: 0,
            end_row: 0,
            end_column: 0,
        },
        text: Some(text),
        parts,
    }
}

/// A token that is not named, such as an operator.
pub open spec fn token(field: Seq<char>, text: Seq<char>) -> Tree {
    Tree { named: false, ..node(text, Some(field), text, Seq::empty()) }
}

/// What the names of a form are called.
pub type Naming = spec_fn(Term) -> Seq<char>;

/// Whether an expression calls what a name stands for, rather than a function.
pub open spec fn is_name(term: Term) -> bool {
    term.shape is Local || term.shape is Free
}

/// How an expression is written.
pub open spec fn written(term: Term, field: Option<Seq<char>>, naming: Naming) -> Tree
    decreases term, 1nat,
{
    match term.shape {
        Shape::Local(_) | Shape::Free(_) => node(
            "identifier"@,
            field,
            naming(term),
            Seq::empty(),
        ),
        Shape::Number(text) => node("number_literal"@, field, text, Seq::empty()),
        Shape::Constant(text) => if text == "NULL"@ {
            node("null"@, field, "NULL"@, Seq::empty())
        } else {
            node("string_literal"@, field, text, Seq::empty())
        },
        Shape::Path(name) => node("identifier"@, field, name, Seq::empty()),
        Shape::Call => node(
            "call_expression"@,
            field,
            Seq::empty(),
            seq![
                written_at(term.parts, 0, "function"@, naming),
                node(
                    "argument_list"@,
                    Some("arguments"@),
                    Seq::empty(),
                    written_each(term.parts, 1, naming),
                ),
            ],
        ),
        Shape::Field(name) => node(
            "field_expression"@,
            field,
            Seq::empty(),
            seq![
                written_at(term.parts, 0, "argument"@, naming),
                node("field_identifier"@, Some("field"@), name, Seq::empty()),
            ],
        ),
        Shape::Method(_) => node(
            "subscript_expression"@,
            field,
            Seq::empty(),
            seq![
                written_at(term.parts, 0, "argument"@, naming),
                written_at(term.parts, 1, "index"@, naming),
            ],
        ),
        Shape::Assign(operator) => node(
            "assignment_expression"@,
            field,
            Seq::empty(),
            seq![
                written_at(term.parts, 0, "left"@, naming),
                token("operator"@, operator),
                written_at(term.parts, 1, "right"@, naming),
            ],
        ),
        Shape::Binary(operator) => node(
            "binary_expression"@,
            field,
            Seq::empty(),
            seq![
                written_at(term.parts, 0, "left"@, naming),
                token("operator"@, operator),
                written_at(term.parts, 1, "right"@, naming),
            ],
        ),
        Shape::Branch => node(
            "conditional_expression"@,
            field,
            Seq::empty(),
            seq![
                written_at(term.parts, 0, "condition"@, naming),
                written_at(term.parts, 1, "consequence"@, naming),
                written_at(term.parts, 2, "alternative"@, naming),
            ],
        ),
        Shape::Sequence => node(
            "comma_expression"@,
            field,
            Seq::empty(),
            written_each(term.parts, 0, naming),
        ),
        Shape::Opaque(operator) => if term.parts.len() == 0 {
            node("sizeof_expression"@, field, Seq::empty(), Seq::empty())
        } else {
            node(
                "unary_expression"@,
                field,
                Seq::empty(),
                seq![
                    token("operator"@, operator),
                    written_at(term.parts, 0, "argument"@, naming),
                ],
            )
        },
        _ => node("ERROR"@, field, Seq::empty(), Seq::empty()),
    }
}

/// How one of several expressions is written, in a field.
pub open spec fn written_at(
    terms: Seq<Term>,
    i: int,
    field: Seq<char>,
    naming: Naming,
) -> Tree
    decreases terms, 0nat,
{
    if 0 <= i < terms.len() {
        written(terms[i], Some(field), naming)
    } else {
        node("ERROR"@, Some(field), Seq::empty(), Seq::empty())
    }
}

/// How several expressions are written, from one on, in a list.
pub open spec fn written_each(terms: Seq<Term>, start: int, naming: Naming) -> Seq<Tree>
    decreases terms, 0nat,
{
    if 0 <= start <= terms.len() {
        Seq::new(
            (terms.len() - start) as nat,
            |i: int|
                if 0 <= i < terms.len() - start {
                    written(terms[start + i], None, naming)
                } else {
                    arbitrary()
                },
        )
    } else {
        Seq::empty()
    }
}

/// Whether an expression can be written where some names are known: every name of it
/// is called something that stands for it there, and every part of it can be.
pub open spec fn is_writable(term: Term, state: Reading, naming: Naming) -> bool
    decreases term,
{
    &&& match term.shape {
        Shape::Local(_) | Shape::Free(_) => term.parts.len() == 0 && naming(term) != "NULL"@
            && role_of(state.roles.roles, naming(term)) == Some(term),
        Shape::Number(_) | Shape::Constant(_) => term.parts.len() == 0,
        Shape::Call => term.parts.len() > 0 && !is_name(term.parts[0]),
        Shape::Field(_) => term.parts.len() == 1,
        Shape::Method(name) => name == "at"@ && term.parts.len() == 2,
        Shape::Assign(_) | Shape::Binary(_) => term.parts.len() == 2,
        Shape::Branch => term.parts.len() == 3,
        Shape::Sequence => true,
        Shape::Opaque(operator) => term.parts.len() == 1 || (term.parts.len() == 0 && operator
            == "sizeof"@),
        _ => false,
    }
    &&& forall|i: int|
        0 <= i < term.parts.len() ==> (is_writable(#[trigger] term.parts[i], state, naming) || (
        term.shape is Call && i == 0 && term.parts[0].shape is Path && term.parts[0].parts.len()
            == 0))
}

proof fn lemma_field_at(tree: Tree, field: Seq<char>, i: int, k: int)
    requires
        0 <= i <= k < tree.parts.len(),
        tree.parts[k].field == Some(field),
        forall|j: int| i <= j < k ==> (#[trigger] tree.parts[j]).field != Some(field),
    ensures
        field_from(tree, field, i) == Some(k),
    decreases k - i,
{
    if i < k {
        lemma_field_at(tree, field, i + 1, k);
    }
}

proof fn lemma_no_field(tree: Tree, field: Seq<char>, i: int)
    requires
        0 <= i,
        forall|j: int| i <= j < tree.parts.len() ==> (#[trigger] tree.parts[j]).field != Some(field),
    ensures
        field_from(tree, field, i) is None,
    decreases tree.parts.len() - i,
{
    if i < tree.parts.len() {
        lemma_no_field(tree, field, i + 1);
    }
}

/// The kinds of expression are all different.
proof fn lemma_kinds()
    ensures
        "identifier"@.len() == 10,
        "number_literal"@.len() == 14 && "number_literal"@[0] == 'n',
        "string_literal"@.len() == 14 && "string_literal"@[0] == 's',
        "char_literal"@.len() == 12,
        "concatenated_string"@.len() == 19,
        "true"@.len() == 4 && "true"@[0] == 't',
        "false"@.len() == 5,
        "null"@.len() == 4 && "null"@[0] == 'n',
        "call_expression"@.len() == 15 && "call_expression"@[2] == 'l',
        "field_expression"@.len() == 16 && "field_expression"@[0] == 'f',
        "subscript_expression"@.len() == 20,
        "assignment_expression"@.len() == 21,
        "binary_expression"@.len() == 17 && "binary_expression"@[0] == 'b',
        "update_expression"@.len() == 17 && "update_expression"@[0] == 'u',
        "conditional_expression"@.len() == 22,
        "pointer_expression"@.len() == 18,
        "parenthesized_expression"@.len() == 24,
        "cast_expression"@.len() == 15 && "cast_expression"@[2] == 's',
        "unary_expression"@.len() == 16 && "unary_expression"@[0] == 'u',
        "comma_expression"@.len() == 16 && "comma_expression"@[0] == 'c',
        "sizeof_expression"@.len() == 17 && "sizeof_expression"@[0] == 's',
        "comment"@.len() == 7,
        "ERROR"@.len() == 5 && "ERROR"@[0] == 'E',
        "false"@[0] == 'f',
{
    reveal_strlit("identifier");
    reveal_strlit("number_literal");
    reveal_strlit("string_literal");
    reveal_strlit("char_literal");
    reveal_strlit("concatenated_string");
    reveal_strlit("true");
    reveal_strlit("false");
    reveal_strlit("null");
    reveal_strlit("call_expression");
    reveal_strlit("field_expression");
    reveal_strlit("subscript_expression");
    reveal_strlit("assignment_expression");
    reveal_strlit("binary_expression");
    reveal_strlit("update_expression");
    reveal_strlit("conditional_expression");
    reveal_strlit("pointer_expression");
    reveal_strlit("parenthesized_expression");
    reveal_strlit("cast_expression");
    reveal_strlit("unary_expression");
    reveal_strlit("comma_expression");
    reveal_strlit("sizeof_expression");
    reveal_strlit("comment");
    reveal_strlit("ERROR");
}

/// The fields of expressions are all different where they stand together.
proof fn lemma_fields()
    ensures
        "function"@.len() == 8 && "function"@[0] == 'f',
        "arguments"@.len() == 9,
        "argument"@.len() == 8 && "argument"@[0] == 'a',
        "field"@.len() == 5 && "field"@[0] == 'f',
        "index"@.len() == 5 && "index"@[0] == 'i',
        "left"@.len() == 4,
        "operator"@.len() == 8 && "operator"@[0] == 'o',
        "right"@.len() == 5 && "right"@[0] == 'r',
        "condition"@.len() == 9 && "condition"@[0] == 'c',
        "consequence"@.len() == 11 && "consequence"@[0] == 'c',
        "alternative"@.len() == 11 && "alternative"@[0] == 'a',
        "body"@.len() == 4,
        "value"@.len() == 5 && "value"@[0] == 'v',
        "declarator"@.len() == 10,
{
    reveal_strlit("function");
    reveal_strlit("arguments");
    reveal_strlit("argument");
    reveal_strlit("field");
    reveal_strlit("index");
    reveal_strlit("left");
    reveal_strlit("operator");
    reveal_strlit("right");
    reveal_strlit("condition");
    reveal_strlit("consequence");
    reveal_strlit("alternative");
    reveal_strlit("body");
    reveal_strlit("value");
    reveal_strlit("declarator");
}

/// What is written stands in its field, is named, and is no comment.
proof fn lemma_written(term: Term, field: Option<Seq<char>>, naming: Naming)
    ensures
        written(term, field, naming).field == field,
        written(term, field, naming).named,
        written(term, field, naming).kind != "comment"@,
{
    lemma_kinds();
}

proof fn lemma_written_at(terms: Seq<Term>, i: int, field: Seq<char>, naming: Naming)
    requires
        0 <= i < terms.len(),
    ensures
        written_at(terms, i, field, naming) == written(terms[i], Some(field), naming),
        written_at(terms, i, field, naming).field == Some(field),
{
    lemma_written(terms[i], Some(field), naming);
}

/// The expressions of a list are read back.
proof fn lemma_each_read(
    terms: Seq<Term>,
    start: int,
    list: Tree,
    n: int,
    skip: bool,
    state: Reading,
    naming: Naming,
)
    requires
        0 <= start <= terms.len(),
        0 <= n <= terms.len() - start,
        list.parts == written_each(terms, start, naming),
        state.walks.len() == 0,
        forall|i: int| start <= i < terms.len() ==> is_writable(#[trigger] terms[i], state, naming),
    ensures
        read_list(list, n, skip, state) == (terms.subrange(start, start + n), state),
    decreases terms, 0nat, n,
{
    if n > 0 {
        lemma_each_read(terms, start, list, n - 1, skip, state, naming);
        let term = terms[start + n - 1];
        assert(is_writable(term, state, naming));
        assert(decreases_to!(terms => term));
        lemma_written(term, None, naming);
        law_expressions_are_read_back(term, None, state, naming);
        assert(list.parts[n - 1] == written(term, None, naming));
        assert(terms.subrange(start, start + n) =~= terms.subrange(start, start + n - 1).push(
            term,
        ));
    } else {
        assert(terms.subrange(start, start) =~= Seq::empty());
    }
}

/// Reading a field of what was written gives back what was written there.
proof fn lemma_field_read(
    tree: Tree,
    field: Seq<char>,
    k: int,
    term: Term,
    state: Reading,
    naming: Naming,
)
    requires
        0 <= k < tree.parts.len(),
        tree.parts[k] == written(term, Some(field), naming),
        forall|j: int| 0 <= j < k ==> (#[trigger] tree.parts[j]).field != Some(field),
        read_expression(written(term, Some(field), naming), state) == (term, state),
    ensures
        read_field(tree, field, state) == (term, state),
        field_part(tree, field) == Some(k),
{
    lemma_written(term, Some(field), naming);
    lemma_field_at(tree, field, 0, k);
}

/// Reading an expression gives back the expression that was written: the same
/// operators, methods, fields, functions and literals, applied to the same operands
/// in the same order, and what its names stand for.
#[verifier::rlimit(80)]
#[verifier::spinoff_prover]
pub proof fn law_expressions_are_read_back(
    term: Term,
    field: Option<Seq<char>>,
    state: Reading,
    naming: Naming,
)
    requires
        is_writable(term, state, naming),
        state.walks.len() == 0,
    ensures
        read_expression(written(term, field, naming), state) == (term, state),
    decreases term, 1nat, 0int,
{
    let tree = written(term, field, naming);
    let parts = term.parts;
    lemma_kinds();
    lemma_fields();
    assert(decreases_to!(term => term.parts));
    if parts.len() > 0 && !(term.shape is Call) {
        lemma_part_read(term, 0, state, naming);
    }
    if parts.len() > 1 {
        lemma_part_read(term, 1, state, naming);
    }
    if parts.len() > 2 {
        lemma_part_read(term, 2, state, naming);
    }
    match term.shape {
        Shape::Local(_) | Shape::Free(_) => {
            assert(state.roles.resolved(naming(term)) == state.roles);
            assert(read_expression(tree, state) == (term, state));
        },
        Shape::Number(_) | Shape::Constant(_) => {
            assert(parts =~= Seq::empty());
            assert(read_expression(tree, state) == (term, state));
        },
        Shape::Call => {
            lemma_call_read(term, field, state, naming);
        },
        Shape::Field(name) => {
            lemma_written_at(parts, 0, "argument"@, naming);
            lemma_field_read(tree, "argument"@, 0, parts[0], state, naming);
            lemma_field_at(tree, "field"@, 0, 1);
            assert(parts =~= seq![parts[0]]);
            assert(read_expression(tree, state) == (term, state));
        },
        Shape::Method(_) => {
            lemma_written_at(parts, 0, "argument"@, naming);
            lemma_written_at(parts, 1, "index"@, naming);
            lemma_field_read(tree, "argument"@, 0, parts[0], state, naming);
            lemma_field_read(tree, "index"@, 1, parts[1], state, naming);
            assert(parts =~= seq![parts[0], parts[1]]);
            assert(read_two(tree, "argument"@, "index"@, state) == (parts, state));
            assert(read_subscript(tree, state) == (term, state));
            assert(read_expression(tree, state) == (term, state));
        },
        Shape::Assign(_) | Shape::Binary(_) => {
            lemma_written_at(parts, 0, "left"@, naming);
            lemma_written_at(parts, 1, "right"@, naming);
            lemma_field_read(tree, "left"@, 0, parts[0], state, naming);
            lemma_field_read(tree, "right"@, 2, parts[1], state, naming);
            lemma_field_at(tree, "operator"@, 0, 1);
            assert(parts =~= seq![parts[0], parts[1]]);
            assert(read_two(tree, "left"@, "right"@, state) == (parts, state));
            assert(read_expression(tree, state) == (term, state));
        },
        Shape::Branch => {
            lemma_written_at(parts, 0, "condition"@, naming);
            lemma_written_at(parts, 1, "consequence"@, naming);
            lemma_written_at(parts, 2, "alternative"@, naming);
            lemma_field_read(tree, "condition"@, 0, parts[0], state, naming);
            lemma_field_read(tree, "consequence"@, 1, parts[1], state, naming);
            lemma_field_read(tree, "alternative"@, 2, parts[2], state, naming);
            assert(parts =~= seq![parts[0], parts[1]].push(parts[2]));
            assert(read_conditional(tree, state) == (term, state));
            assert(read_expression(tree, state) == (term, state));
        },
        Shape::Sequence => {
            assert forall|i: int| 0 <= i < parts.len() implies is_writable(
                #[trigger] parts[i],
                state,
                naming,
            ) by {}
            lemma_each_read(parts, 0, tree, parts.len() as int, false, state, naming);
            assert(parts.subrange(0, parts.len() as int) =~= parts);
            assert(tree.parts.len() == parts.len());
            assert(read_expression(tree, state) == (term, state));
        },
        Shape::Opaque(_) => {
            if parts.len() == 0 {
                assert(parts =~= Seq::empty());
            } else {
                lemma_written_at(parts, 0, "argument"@, naming);
                lemma_field_read(tree, "argument"@, 1, parts[0], state, naming);
                lemma_field_at(tree, "operator"@, 0, 0);
                assert(parts =~= seq![parts[0]]);
            }
            assert(read_expression(tree, state) == (term, state));
        },
        _ => {},
    }
}

/// Each part of an expression is read back, in whatever field it stands.
proof fn lemma_part_read(term: Term, i: int, state: Reading, naming: Naming)
    requires
        is_writable(term, state, naming),
        0 <= i < term.parts.len(),
        !(term.shape is Call && i == 0),
        state.walks.len() == 0,
    ensures
        forall|field: Option<Seq<char>>|
            read_expression(#[trigger] written(term.parts[i], field, naming), state) == (
                term.parts[i],
                state,
            ),
    decreases term, 0nat, 0int,
{
    assert(is_writable(term.parts[i], state, naming));
    assert(decreases_to!(term => term.parts));
    assert(decreases_to!(term.parts => term.parts[i]));
    assert forall|field: Option<Seq<char>>|
        read_expression(#[trigger] written(term.parts[i], field, naming), state) == (
            term.parts[i],
            state,
        ) by {
        law_expressions_are_read_back(term.parts[i], field, state, naming);
    }
}

/// A call is read back.
#[verifier::rlimit(40)]
#[verifier::spinoff_prover]
proof fn lemma_call_read(
    term: Term,
    field: Option<Seq<char>>,
    state: Reading,
    naming: Naming,
)
    requires
        term.shape is Call,
        is_writable(term, state, naming),
        state.walks.len() == 0,
    ensures
        read_expression(written(term, field, naming), state) == (term, state),
    decreases term, 0nat, 1int,
{
    let tree = written(term, field, naming);
    let parts = term.parts;
    lemma_kinds();
    lemma_fields();
    assert(decreases_to!(term => term.parts));
    assert(decreases_to!(term.parts => term.parts[0]));
    lemma_written_at(parts, 0, "function"@, naming);
    let function = tree.parts[0];
    let list = tree.parts[1];
    lemma_field_at(tree, "function"@, 0, 0);
    lemma_field_at(tree, "arguments"@, 0, 1);
    if parts[0].shape is Path && parts[0].parts.len() == 0 {
        assert(function.kind == "identifier"@);
        assert(parts[0].parts =~= Seq::empty());
        assert(read_callee(tree, state) == (parts[0], state));
    } else {
        assert(is_writable(parts[0], state, naming));
        law_expressions_are_read_back(parts[0], Some("function"@), state, naming);
        assert(function.kind != "identifier"@);
        assert(read_field(tree, "function"@, state) == (parts[0], state));
        assert(read_callee(tree, state) == (parts[0], state));
    }
    assert forall|i: int| 1 <= i < parts.len() implies is_writable(
        #[trigger] parts[i],
        state,
        naming,
    ) by {}
    lemma_each_read(parts, 1, list, parts.len() - 1, true, state, naming);
    assert(list.parts.len() == parts.len() - 1);
    assert(seq![parts[0]] + parts.subrange(1, parts.len() as int) =~= parts);
    assert(read_call(tree, state) == (term, state));
}

/// What is done over and over, or leaves, in a way with no canonical shape.
pub open spec fn is_control(kind: Seq<char>) -> bool {
    kind == "while"@ || kind == "do"@ || kind == "break"@ || kind == "continue"@ || kind
        == "goto"@
}

/// How a statement is written.
pub open spec fn written_statement(term: Term, field: Option<Seq<char>>, naming: Naming) -> Tree
    decreases term, 1nat,
{
    match term.shape {
        Shape::Sequence => node(
            "compound_statement"@,
            field,
            Seq::empty(),
            written_steps(term.parts, naming),
        ),
        Shape::Branch => node(
            "if_statement"@,
            field,
            Seq::empty(),
            seq![
                written_at(term.parts, 0, "condition"@, naming),
                written_step(term.parts, 1, Some("consequence"@), naming),
            ] + if term.parts.len() > 2 {
                seq![
                    node(
                        "else_clause"@,
                        Some("alternative"@),
                        Seq::empty(),
                        seq![written_step(term.parts, 2, None, naming)],
                    ),
                ]
            } else {
                Seq::empty()
            },
        ),
        Shape::Return => node(
            "return_statement"@,
            field,
            Seq::empty(),
            seq![written_at(term.parts, 0, "value"@, naming)],
        ),
        Shape::Opaque(kind) => if kind == "while"@ {
            node(
                "while_statement"@,
                field,
                Seq::empty(),
                seq![written_step(term.parts, 0, Some("body"@), naming)],
            )
        } else if kind == "do"@ {
            node(
                "do_statement"@,
                field,
                Seq::empty(),
                seq![written_step(term.parts, 0, Some("body"@), naming)],
            )
        } else if kind == "break"@ {
            node("break_statement"@, field, Seq::empty(), Seq::empty())
        } else if kind == "continue"@ {
            node("continue_statement"@, field, Seq::empty(), Seq::empty())
        } else if kind == "goto"@ {
            node("goto_statement"@, field, Seq::empty(), Seq::empty())
        } else {
            node(
                "expression_statement"@,
                field,
                Seq::empty(),
                seq![written(term, None, naming)],
            )
        },
        _ => node(
            "expression_statement"@,
            field,
            Seq::empty(),
            seq![written(term, None, naming)],
        ),
    }
}

/// How one of several statements is written.
pub open spec fn written_step(
    terms: Seq<Term>,
    i: int,
    field: Option<Seq<char>>,
    naming: Naming,
) -> Tree
    decreases terms, 0nat,
{
    if 0 <= i < terms.len() {
        written_statement(terms[i], field, naming)
    } else {
        node("ERROR"@, field, Seq::empty(), Seq::empty())
    }
}

/// How several statements are written, one after the other.
pub open spec fn written_steps(terms: Seq<Term>, naming: Naming) -> Seq<Tree>
    decreases terms, 0nat,
{
    Seq::new(
        terms.len(),
        |i: int|
            if 0 <= i < terms.len() {
                written_statement(terms[i], None, naming)
            } else {
                arbitrary()
            },
    )
}

/// Whether a statement can be written where some names are known. A block has at
/// least two steps: one step is written as itself.
pub open spec fn is_statement(term: Term, state: Reading, naming: Naming) -> bool
    decreases term,
{
    match term.shape {
        Shape::Sequence => term.parts.len() >= 2 && forall|i: int|
            0 <= i < term.parts.len() ==> is_statement(#[trigger] term.parts[i], state, naming),
        Shape::Branch => 2 <= term.parts.len() <= 3 && is_writable(term.parts[0], state, naming)
            && forall|i: int|
            1 <= i < term.parts.len() ==> is_statement(#[trigger] term.parts[i], state, naming),
        Shape::Return => term.parts.len() == 1 && is_writable(term.parts[0], state, naming),
        Shape::Opaque(kind) => if kind == "while"@ || kind == "do"@ {
            term.parts.len() == 1 && is_statement(term.parts[0], state, naming)
        } else if is_control(kind) {
            term.parts.len() == 0
        } else {
            is_writable(term, state, naming)
        },
        _ => is_writable(term, state, naming),
    }
}

/// The kinds of statement are all different.
proof fn lemma_statement_kinds()
    ensures
        "compound_statement"@.len() == 18 && "compound_statement"@[3] == 'p',
        "declaration"@.len() == 11,
        "expression_statement"@.len() == 20,
        "if_statement"@.len() == 12 && "if_statement"@[0] == 'i',
        "switch_statement"@.len() == 16 && "switch_statement"@[0] == 's',
        "for_statement"@.len() == 13,
        "while_statement"@.len() == 15 && "while_statement"@[0] == 'w',
        "return_statement"@.len() == 16 && "return_statement"@[0] == 'r',
        "break_statement"@.len() == 15 && "break_statement"@[0] == 'b',
        "continue_statement"@.len() == 18 && "continue_statement"@[3] == 't',
        "labeled_statement"@.len() == 17,
        "goto_statement"@.len() == 14,
        "do_statement"@.len() == 12 && "do_statement"@[0] == 'd',
        "comment"@.len() == 7,
        "ERROR"@.len() == 5,
        "while"@.len() == 5,
        "do"@.len() == 2,
        "break"@.len() == 5 && "break"@[0] == 'b' && "while"@[0] == 'w',
        "continue"@.len() == 8,
        "goto"@.len() == 4,
        "sizeof"@.len() == 6,
{
    reveal_strlit("compound_statement");
    reveal_strlit("declaration");
    reveal_strlit("expression_statement");
    reveal_strlit("if_statement");
    reveal_strlit("switch_statement");
    reveal_strlit("for_statement");
    reveal_strlit("while_statement");
    reveal_strlit("return_statement");
    reveal_strlit("break_statement");
    reveal_strlit("continue_statement");
    reveal_strlit("labeled_statement");
    reveal_strlit("goto_statement");
    reveal_strlit("do_statement");
    reveal_strlit("comment");
    reveal_strlit("ERROR");
    reveal_strlit("while");
    reveal_strlit("do");
    reveal_strlit("break");
    reveal_strlit("continue");
    reveal_strlit("goto");
    reveal_strlit("sizeof");
}

proof fn lemma_written_statement(term: Term, field: Option<Seq<char>>, naming: Naming)
    ensures
        written_statement(term, field, naming).field == field,
        written_statement(term, field, naming).named,
        written_statement(term, field, naming).kind != "comment"@,
{
    lemma_statement_kinds();
}

proof fn lemma_steps_read(terms: Seq<Term>, tree: Tree, n: int, state: Reading, naming: Naming)
    requires
        0 <= n <= terms.len(),
        tree.parts == written_steps(terms, naming),
        state.walks.len() == 0,
        forall|i: int| 0 <= i < terms.len() ==> is_statement(#[trigger] terms[i], state, naming),
    ensures
        read_steps(tree, n, None, state) == (terms.take(n), state),
    decreases terms, 0nat, n,
{
    if n > 0 {
        lemma_steps_read(terms, tree, n - 1, state, naming);
        let term = terms[n - 1];
        assert(is_statement(term, state, naming));
        assert(decreases_to!(terms => term));
        lemma_written_statement(term, None, naming);
        law_statements_are_read_back(term, None, state, naming);
        assert(tree.parts[n - 1] == written_statement(term, None, naming));
        assert(terms.take(n) =~= terms.take(n - 1) + seq![term]);
    } else {
        assert(terms.take(0) =~= Seq::empty());
    }
}

/// The only named part of a node is its first.
proof fn lemma_sole(tree: Tree)
    requires
        tree.parts.len() == 1,
        tree.parts[0].named,
    ensures
        first_named(tree) == Some(0int),
{
}

/// Reading a statement gives back the statement that was written: blocks with their
/// steps in order, choices with their condition and both outcomes, what is returned,
/// what repeats and what leaves.
#[verifier::rlimit(80)]
#[verifier::spinoff_prover]
pub proof fn law_statements_are_read_back(
    term: Term,
    field: Option<Seq<char>>,
    state: Reading,
    naming: Naming,
)
    requires
        is_statement(term, state, naming),
        state.walks.len() == 0,
    ensures
        read_statement(written_statement(term, field, naming), state) == (Some(term), state),
    decreases term, 1nat, 0int,
{
    let tree = written_statement(term, field, naming);
    let parts = term.parts;
    lemma_statement_kinds();
    lemma_fields();
    assert(decreases_to!(term => term.parts));
    match term.shape {
        Shape::Sequence => {
            lemma_steps_read(parts, tree, parts.len() as int, state, naming);
            assert(parts.take(parts.len() as int) =~= parts);
            assert(tree.parts.len() == parts.len());
            assert(read_statement(tree, state) == (Some(term), state));
        },
        Shape::Branch => {
            lemma_if_read(term, field, state, naming);
        },
        Shape::Return => {
            law_expressions_are_read_back(parts[0], Some("value"@), state, naming);
            lemma_written_at(parts, 0, "value"@, naming);
            lemma_written(parts[0], Some("value"@), naming);
            lemma_sole(tree);
            assert(parts =~= seq![parts[0]]);
            assert(read_statement(tree, state) == (Some(term), state));
        },
        Shape::Opaque(kind) => {
            if kind == "while"@ || kind == "do"@ {
                assert(decreases_to!(term.parts => term.parts[0]));
                law_statements_are_read_back(parts[0], Some("body"@), state, naming);
                lemma_written_statement(parts[0], Some("body"@), naming);
                assert(tree.parts[0] == written_statement(parts[0], Some("body"@), naming));
                lemma_field_at(tree, "body"@, 0, 0);
                assert(parts =~= seq![parts[0]]);
                assert(read_body(tree, "body"@, state) == (Some(parts[0]), state));
                assert(read_statement(tree, state) == (Some(term), state));
            } else if is_control(kind) {
                assert(parts =~= Seq::empty());
                assert(read_statement(tree, state) == (Some(term), state));
            } else {
                lemma_expression_statement(term, field, state, naming);
            }
        },
        _ => {
            lemma_expression_statement(term, field, state, naming);
        },
    }
}

proof fn lemma_expression_statement(
    term: Term,
    field: Option<Seq<char>>,
    state: Reading,
    naming: Naming,
)
    requires
        is_writable(term, state, naming),
        state.walks.len() == 0,
        written_statement(term, field, naming) == node(
            "expression_statement"@,
            field,
            Seq::empty(),
            seq![written(term, None, naming)],
        ),
    ensures
        read_statement(written_statement(term, field, naming), state) == (Some(term), state),
{
    let tree = written_statement(term, field, naming);
    lemma_statement_kinds();
    lemma_written(term, None, naming);
    lemma_sole(tree);
    law_expressions_are_read_back(term, None, state, naming);
}

#[verifier::rlimit(60)]
#[verifier::spinoff_prover]
proof fn lemma_if_read(
    term: Term,
    field: Option<Seq<char>>,
    state: Reading,
    naming: Naming,
)
    requires
        term.shape is Branch,
        is_statement(term, state, naming),
        state.walks.len() == 0,
    ensures
        read_statement(written_statement(term, field, naming), state) == (Some(term), state),
    decreases term, 0nat, 0int,
{
    let tree = written_statement(term, field, naming);
    let parts = term.parts;
    lemma_statement_kinds();
    lemma_fields();
    assert(decreases_to!(term => term.parts));
    assert(decreases_to!(term.parts => term.parts[1]));
    assert(is_statement(parts[1], state, naming));
    law_expressions_are_read_back(parts[0], Some("condition"@), state, naming);
    law_statements_are_read_back(parts[1], Some("consequence"@), state, naming);
    lemma_written_at(parts, 0, "condition"@, naming);
    lemma_written_statement(parts[1], Some("consequence"@), naming);
    assert(tree.parts[0] == written(parts[0], Some("condition"@), naming));
    assert(tree.parts[1] == written_statement(parts[1], Some("consequence"@), naming));
    lemma_field_read(tree, "condition"@, 0, parts[0], state, naming);
    lemma_field_at(tree, "consequence"@, 0, 1);
    assert(read_body(tree, "consequence"@, state) == (Some(parts[1]), state));
    if parts.len() == 3 {
        assert(decreases_to!(term.parts => term.parts[2]));
        assert(is_statement(parts[2], state, naming));
        law_statements_are_read_back(parts[2], None, state, naming);
        lemma_written_statement(parts[2], None, naming);
        let clause = tree.parts[2];
        assert(clause.parts[0] == written_statement(parts[2], None, naming));
        lemma_sole(clause);
        lemma_field_at(tree, "alternative"@, 0, 2);
        assert(read_alternative(tree, state) == (Some(parts[2]), state));
        assert(seq![parts[0], parts[1]] + seq![parts[2]] =~= parts);
    } else {
        assert(tree.parts.len() == 2);
        lemma_no_field(tree, "alternative"@, 0);
        assert(read_alternative(tree, state) == (None::<Term>, state));
        assert(seq![parts[0], parts[1]] + Seq::empty() =~= parts);
    }
    assert(read_if(tree, state) == (Some(term), state));
}

/// Whether a part is the one that fills a field: the first that does.
pub open spec fn fills(tree: Tree, field: Seq<char>, k: int) -> bool {
    &&& 0 <= k < tree.parts.len()
    &&& tree.parts[k].field == Some(field)
    &&& forall|j: int| 0 <= j < k ==> (#[trigger] tree.parts[j]).field != Some(field)
}

/// Counting up or down is adding or taking away one: `x--` and `--x` take one away
/// from what `x` is, and any other update adds one. The two are never one form.
pub proof fn law_updates_add_or_take_one(tree: Tree, k: int, state: Reading)
    requires
        tree.kind == "update_expression"@,
        fills(tree, "argument"@, k),
    ensures
        ({
            let (argument, after) = read_expression(tree.parts[k], state);
            let (update, last) = read_expression(tree, state);
            &&& last == after
            &&& update.parts == seq![argument, leaf(Shape::Number("1"@))]
            &&& holds_text(text_in(tree), "--"@) ==> update.shape == Shape::Assign("-="@)
            &&& !holds_text(text_in(tree), "--"@) ==> update.shape == Shape::Assign("+="@)
        }),
        "-="@ != "+="@,
{
    lemma_kinds();
    lemma_field_at(tree, "argument"@, 0, k);
    assert(read_field(tree, "argument"@, state) == read_expression(tree.parts[k], state));
    reveal_strlit("-=");
    reveal_strlit("+=");
    assert("-="@[0] == '-' && "+="@[0] == '+');
}

/// Pointers, parentheses and casts are how C passes things around: what they wrap is
/// read as if they were not there.
pub proof fn law_ceremony_is_left_out(tree: Tree, k: int, state: Reading)
    requires
        ({
            ||| (tree.kind == "pointer_expression"@ || tree.kind == "parenthesized_expression"@)
                && 0 <= k < tree.parts.len() && tree.parts[k].named && forall|j: int|
                0 <= j < k ==> !(#[trigger] tree.parts[j]).named
            ||| tree.kind == "cast_expression"@ && fills(tree, "value"@, k)
        }),
    ensures
        read_expression(tree, state) == read_expression(tree.parts[k], state),
{
    lemma_kinds();
    if tree.kind == "cast_expression"@ {
        lemma_field_at(tree, "value"@, 0, k);
        assert(read_field(tree, "value"@, state) == read_expression(tree.parts[k], state));
    } else {
        lemma_named_at(tree, 0, k);
    }
}

proof fn lemma_named_at(tree: Tree, i: int, k: int)
    requires
        0 <= i <= k < tree.parts.len(),
        tree.parts[k].named,
        forall|j: int| i <= j < k ==> !(#[trigger] tree.parts[j]).named,
    ensures
        named_from(tree, i) == Some(k),
    decreases k - i,
{
    if i < k {
        lemma_named_at(tree, i + 1, k);
    }
}

/// Literals keep what they say: numbers as numbers, and texts, characters and truths
/// as constants. What C calls nothing is one constant, however it is written.
pub proof fn law_literals_keep_what_they_say(tree: Tree, state: Reading)
    ensures
        tree.kind == "number_literal"@ ==> read_expression(tree, state) == (
            leaf(Shape::Number(text_in(tree))),
            state,
        ),
        tree.kind == "string_literal"@ || tree.kind == "char_literal"@ || tree.kind
            == "concatenated_string"@ || tree.kind == "true"@ || tree.kind == "false"@
            ==> read_expression(tree, state) == (leaf(Shape::Constant(text_in(tree))), state),
        tree.kind == "null"@ || (tree.kind == "identifier"@ && text_in(tree) == "NULL"@)
            ==> read_expression(tree, state) == (leaf(Shape::Constant("NULL"@)), state),
{
    lemma_kinds();
}

/// A name is a new hole where nothing is known of it, what it stands for otherwise,
/// and the same ever after.
pub proof fn law_names_stand_for_one_thing(tree: Tree, state: Reading)
    requires
        tree.kind == "identifier"@,
        text_in(tree) != "NULL"@,
    ensures
        ({
            let (term, after) = read_expression(tree, state);
            &&& read_expression(tree, after) == (term, after)
            &&& role_of(state.roles.roles, text_in(tree)) matches Some(known) ==> term == known
                && after == state
            &&& role_of(state.roles.roles, text_in(tree)) is None ==> term == leaf(
                Shape::Free(state.roles.frees as u32),
            ) && after.roles.frees == state.roles.frees + 1
        }),
{
    let name = text_in(tree);
    let roles = state.roles.resolved(name);
    if role_of(state.roles.roles, name) is None {
        assert(roles.roles.last() == (name, leaf(Shape::Free(state.roles.frees as u32))));
    }
}

/// Giving a name to a value binds it afresh: from then on it stands for a local that
/// no name stood for when it was given, and the value is read before.
pub proof fn law_a_declared_name_is_bound(
    tree: Tree,
    declarator: int,
    value: int,
    name: Seq<char>,
    state: Reading,
)
    requires
        tree.kind == "init_declarator"@,
        fills(tree, "declarator"@, declarator),
        fills(tree, "value"@, value),
        tree.parts[declarator].kind == "identifier"@,
        text_in(tree.parts[declarator]) == name,
    ensures
        ({
            let (given, between) = read_expression(tree.parts[value], state);
            let (lets, after) = read_let(tree, state);
            &&& lets == Some(seq![let_term(between.roles.locals as u32, given)])
            &&& role_of(after.roles.roles, name) == Some(
                leaf(Shape::Local(between.roles.locals as u32)),
            )
            &&& after.roles.locals == between.roles.locals + 1
            &&& after.walks == between.walks
        }),
{
    lemma_field_at(tree, "declarator"@, 0, declarator);
    lemma_field_at(tree, "value"@, 0, value);
    let (given, between) = read_expression(tree.parts[value], state);
    assert(read_field(tree, "value"@, state) == (given, between));
    let bound = between.roles.bound(name);
    assert(bound.roles.last().0 == name);
}

/// A counter that starts at zero and runs up to a limit walks forward; one that runs
/// down to a limit walks backward; any other loop is no walk.
pub proof fn law_counters_say_which_way(comparison: Seq<char>, zero: bool, update: Seq<char>)
    ensures
        direction_of(comparison, zero, update) == Some(Direction::Forward) <==> zero && (comparison
            == "<"@ || comparison == "<="@) && !holds_text(update, "--"@),
        direction_of(comparison, zero, update) == Some(Direction::Backward) <==> (comparison
            == ">"@ || comparison == ">="@) && holds_text(update, "--"@),
{
    reveal_strlit("<");
    reveal_strlit("<=");
    reveal_strlit(">");
    reveal_strlit(">=");
    assert("<"@[0] == '<' && "<="@[0] == '<' && ">"@[0] == '>' && ">="@[0] == '>');
}

/// Inside a walk, what is read at the counter is the element; anything else is read
/// at its position.
pub proof fn law_the_counter_reads_the_element(
    tree: Tree,
    argument: int,
    index: int,
    state: Reading,
)
    requires
        tree.kind == "subscript_expression"@,
        fills(tree, "argument"@, argument),
        fills(tree, "index"@, index),
        state.walks.len() > 0,
        state.walks.last().0 == text_in(tree.parts[argument]),
        state.walks.last().1 == text_in(tree.parts[index]),
    ensures
        read_expression(tree, state) == (leaf(Shape::Local(state.walks.last().2)), state),
{
    lemma_kinds();
    lemma_field_at(tree, "argument"@, 0, argument);
    lemma_field_at(tree, "index"@, 0, index);
    assert(read_subscript(tree, state) == (leaf(Shape::Local(state.walks.last().2)), state));
}

/// A loop with a counter that reads a sequence is a walk over it, the way the counter
/// runs, whose element is a local of its own; outside of it the walk is not known.
pub proof fn law_an_index_loop_is_a_walk(tree: Tree, body: int, state: Reading)
    requires
        tree.kind == "for_statement"@,
        fills(tree, "body"@, body),
        counter_of(tree) is Some,
        indexed_in(tree.parts[body], (counter_of(tree)->0).0) is Some,
    ensures
        ({
            let (counter, direction) = counter_of(tree)->0;
            let indexed = indexed_in(tree.parts[body], counter)->0;
            let (sequence, first) = read_expression(indexed.sequence, state);
            let (walk, after) = read_statement(tree, state);
            &&& walk matches Some(walk) && walk.shape == Shape::Traverse(
                binding_term(first.roles.locals as u32),
                direction,
            ) && walk.parts.len() == 2 && walk.parts[0] == sequence
            &&& after.walks == first.walks
        }),
{
    lemma_statement_kinds();
    lemma_field_at(tree, "body"@, 0, body);
    assert(read_for(tree, state) == read_statement(tree, state));
}

} // verus!
