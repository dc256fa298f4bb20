//! How C statements and expressions read as behavior.

use super::lookup::{
    counter_of, find_indexed, indexed_in, indexed_view, innermost_identifier, innermost_name,
    lemma_indexed_in, loop_counter, Indexed,
};
use crate::normalize::form::{
    form_terms, Arm, Direction, Form, Pattern, PatternKind, PatternTerm, Shape, Term,
};
use crate::normalize::laws::rewritten_term;
use crate::normalize::names::leaf;
use crate::normalize::roles::{role_of, Assigned, Roles};
use crate::normalize::select::{arm_terms, in_order, select_term, ArmTerm};
use crate::syntax::{
    field_part, first_named, lemma_field_part, lemma_first_named, lemma_part_height, part_in,
    text_in, tree_height, tree_of, SyntaxNode, Tree,
};
use crate::text::{contains_text, holds_text, same_text};
use vstd::prelude::*;
use vstd::string::*;

verus! {

/// What is known while reading: what names stand for, and the walks a
/// statement is inside of, each as the text of the sequence, the text of the
/// counter, and the local the element is.
#[verifier::ext_equal]
pub struct Reading {
    pub roles: Assigned,
    pub walks: Seq<(Seq<char>, Seq<char>, u32)>,
}

/// Whether names were numbered within range.
pub open spec fn fits(state: Reading) -> bool {
    state.roles.locals <= u32::MAX && state.roles.frees <= u32::MAX
}

/// Whether a state can come after another: no number was taken back, and the
/// walks are the same.
pub open spec fn follows(before: Reading, after: Reading) -> bool {
    &&& before.roles.locals <= after.roles.locals
    &&& before.roles.frees <= after.roles.frees
    &&& before.walks == after.walks
}

/// Syntax with no canonical shape.
pub open spec fn opaque_term(kind: Seq<char>, parts: Seq<Term>) -> Term {
    Term { shape: Shape::Opaque(kind), parts }
}

/// Several steps as one: none is nothing, and one is that step.
pub open spec fn gathered(steps: Seq<Term>) -> Term {
    if steps.len() == 0 {
        leaf(Shape::Literal)
    } else if steps.len() == 1 {
        steps[0]
    } else {
        Term { shape: Shape::Sequence, parts: steps }
    }
}

/// What is there as a list of one, and nothing as an empty list.
pub open spec fn listed(step: Option<Term>) -> Seq<Term> {
    match step {
        Some(step) => seq![step],
        None => Seq::empty(),
    }
}

/// What is there, or the literal that stands for nothing.
pub open spec fn or_literal(step: Option<Term>) -> Term {
    match step {
        Some(step) => step,
        None => leaf(Shape::Literal),
    }
}

/// The text of a field, or a default where there is none.
pub open spec fn field_text(tree: Tree, field: Seq<char>, default: Seq<char>) -> Seq<char> {
    match part_in(tree, field) {
        Some(part) => text_in(part),
        None => default,
    }
}

/// A name, and what it stands for.
pub open spec fn read_name(name: Seq<char>, state: Reading) -> (Term, Reading) {
    let roles = state.roles.resolved(name);
    (role_of(roles.roles, name)->0, Reading { roles, ..state })
}

/// The element an index reads, where it is the counter of a walk over what it
/// indexes; the innermost walk counts.
pub open spec fn walked_item(
    walks: Seq<(Seq<char>, Seq<char>, u32)>,
    sequence: Seq<char>,
    counter: Seq<char>,
) -> Option<u32>
    decreases walks.len(),
{
    if walks.len() == 0 {
        None
    } else if walks.last().0 == sequence && walks.last().1 == counter {
        Some(walks.last().2)
    } else {
        walked_item(walks.drop_last(), sequence, counter)
    }
}

/// An expression.
pub open spec fn read_expression(tree: Tree, state: Reading) -> (Term, Reading)
    decreases tree_height(tree), 2nat, 0int,
{
    if tree.kind == "identifier"@ {
        if text_in(tree) == "NULL"@ {
            (leaf(Shape::Constant("NULL"@)), state)
        } else {
            read_name(text_in(tree), state)
        }
    } else if tree.kind == "number_literal"@ {
        (leaf(Shape::Number(text_in(tree))), state)
    } else if tree.kind == "string_literal"@ || tree.kind == "char_literal"@ || tree.kind
        == "concatenated_string"@ || tree.kind == "true"@ || tree.kind == "false"@ {
        (leaf(Shape::Constant(text_in(tree))), state)
    } else if tree.kind == "null"@ {
        (leaf(Shape::Constant("NULL"@)), state)
    } else if tree.kind == "call_expression"@ {
        read_call(tree, state)
    } else if tree.kind == "field_expression"@ {
        let (value, after) = read_field(tree, "argument"@, state);
        (
            Term {
                shape: Shape::Field(field_text(tree, "field"@, Seq::empty())),
                parts: seq![value],
            },
            after,
        )
    } else if tree.kind == "subscript_expression"@ {
        read_subscript(tree, state)
    } else if tree.kind == "assignment_expression"@ {
        let (parts, after) = read_two(tree, "left"@, "right"@, state);
        (Term { shape: Shape::Assign(field_text(tree, "operator"@, "="@)), parts }, after)
    } else if tree.kind == "binary_expression"@ {
        let (parts, after) = read_two(tree, "left"@, "right"@, state);
        (
            Term {
                shape: Shape::Binary(field_text(tree, "operator"@, Seq::empty())),
                parts,
            },
            after,
        )
    } else if tree.kind == "update_expression"@ {
        let (argument, after) = read_field(tree, "argument"@, state);
        let operator = if holds_text(text_in(tree), "--"@) {
            "-="@
        } else {
            "+="@
        };
        (
            Term {
                shape: Shape::Assign(operator),
                parts: seq![argument, leaf(Shape::Number("1"@))],
            },
            after,
        )
    } else if tree.kind == "conditional_expression"@ {
        read_conditional(tree, state)
    } else if tree.kind == "pointer_expression"@ || tree.kind == "parenthesized_expression"@ {
        match first_named(tree) {
            Some(i) => {
                proof {
                    lemma_first_named(tree, 0);
                }
                read_expression(tree.parts[i], state)
            },
            None => (leaf(Shape::Literal), state),
        }
    } else if tree.kind == "cast_expression"@ {
        read_field(tree, "value"@, state)
    } else if tree.kind == "unary_expression"@ {
        let (argument, after) = read_field(tree, "argument"@, state);
        (opaque_term(field_text(tree, "operator"@, Seq::empty()), seq![argument]), after)
    } else if tree.kind == "comma_expression"@ {
        let (parts, after) = read_list(tree, tree.parts.len() as int, false, state);
        (Term { shape: Shape::Sequence, parts }, after)
    } else if tree.kind == "sizeof_expression"@ {
        (opaque_term("sizeof"@, Seq::empty()), state)
    } else {
        (opaque_term(tree.kind, Seq::empty()), state)
    }
}

/// The expression in a field, or nothing where the field is not filled.
pub open spec fn read_field(tree: Tree, field: Seq<char>, state: Reading) -> (Term, Reading)
    decreases tree_height(tree), 1nat, 0int,
{
    match field_part(tree, field) {
        Some(i) => {
            proof {
                lemma_field_part(tree, field, 0);
            }
            read_expression(tree.parts[i], state)
        },
        None => (leaf(Shape::Literal), state),
    }
}

/// The expressions in two fields, in order.
pub open spec fn read_two(tree: Tree, first: Seq<char>, second: Seq<char>, state: Reading) -> (
    Seq<Term>,
    Reading,
)
    decreases tree_height(tree), 1nat, 1int,
{
    let (left, between) = read_field(tree, first, state);
    let (right, after) = read_field(tree, second, between);
    (seq![left, right], after)
}

/// A choice between two expressions.
pub open spec fn read_conditional(tree: Tree, state: Reading) -> (Term, Reading)
    decreases tree_height(tree), 1nat, 2int,
{
    let (both, between) = read_two(tree, "condition"@, "consequence"@, state);
    match field_part(tree, "alternative"@) {
        Some(i) => {
            let (alternative, after) = read_field(tree, "alternative"@, between);
            (Term { shape: Shape::Branch, parts: both.push(alternative) }, after)
        },
        None => (Term { shape: Shape::Branch, parts: both }, between),
    }
}

/// The named parts before a place as expressions.
pub open spec fn read_list(tree: Tree, n: int, skip_comments: bool, state: Reading) -> (
    Seq<Term>,
    Reading,
)
    decreases tree_height(tree), 0nat, n,
{
    if n <= 0 || n > tree.parts.len() {
        (Seq::empty(), state)
    } else {
        proof {
            lemma_part_height(tree, n - 1);
        }
        let (before, between) = read_list(tree, n - 1, skip_comments, state);
        let part = tree.parts[n - 1];
        if !part.named || (skip_comments && part.kind == "comment"@) {
            (before, between)
        } else {
            let (term, after) = read_expression(part, between);
            (before.push(term), after)
        }
    }
}

/// What a call calls: a name stands for the function of that name.
pub open spec fn read_callee(tree: Tree, state: Reading) -> (Term, Reading)
    decreases tree_height(tree), 1nat, 1int,
{
    match part_in(tree, "function"@) {
        Some(function) => if function.kind == "identifier"@ {
            (leaf(Shape::Path(text_in(function))), state)
        } else {
            read_field(tree, "function"@, state)
        },
        None => (leaf(Shape::Literal), state),
    }
}

/// A call.
pub open spec fn read_call(tree: Tree, state: Reading) -> (Term, Reading)
    decreases tree_height(tree), 1nat, 2int,
{
    let (callee, between) = read_callee(tree, state);
    match field_part(tree, "arguments"@) {
        Some(i) => {
            proof {
                lemma_field_part(tree, "arguments"@, 0);
            }
            let list = tree.parts[i];
            let (arguments, after) = read_list(list, list.parts.len() as int, true, between);
            (Term { shape: Shape::Call, parts: seq![callee] + arguments }, after)
        },
        None => (Term { shape: Shape::Call, parts: seq![callee] + Seq::empty() }, between),
    }
}

/// An index: inside a walk over what it indexes with its counter it is the
/// element.
pub open spec fn read_subscript(tree: Tree, state: Reading) -> (Term, Reading)
    decreases tree_height(tree), 1nat, 2int,
{
    let item = match (part_in(tree, "argument"@), part_in(tree, "index"@)) {
        (Some(argument), Some(index)) => walked_item(
            state.walks,
            text_in(argument),
            text_in(index),
        ),
        _ => None,
    };
    match item {
        Some(item) => (leaf(Shape::Local(item)), state),
        None => {
            let (parts, after) = read_two(tree, "argument"@, "index"@, state);
            (Term { shape: Shape::Method("at"@), parts }, after)
        },
    }
}

/// A statement; one that says nothing is none.
pub open spec fn read_statement(tree: Tree, state: Reading) -> (Option<Term>, Reading)
    decreases tree_height(tree), 5nat, 0int,
{
    if tree.kind == "compound_statement"@ {
        let (steps, after) = read_steps(tree, tree.parts.len() as int, None, state);
        (Some(gathered(steps)), after)
    } else if tree.kind == "declaration"@ {
        let (lets, after) = read_lets(tree, tree.parts.len() as int, state);
        (
            match lets {
                Some(lets) => if lets.len() == 0 {
                    None
                } else {
                    Some(gathered(lets))
                },
                None => None,
            },
            after,
        )
    } else if tree.kind == "expression_statement"@ {
        match first_named(tree) {
            Some(i) => {
                proof {
                    lemma_first_named(tree, 0);
                }
                let (term, after) = read_expression(tree.parts[i], state);
                (Some(term), after)
            },
            None => (None, state),
        }
    } else if tree.kind == "if_statement"@ {
        read_if(tree, state)
    } else if tree.kind == "switch_statement"@ {
        read_switch(tree, state)
    } else if tree.kind == "for_statement"@ {
        read_for(tree, state)
    } else if tree.kind == "while_statement"@ {
        read_repeated(tree, "while"@, state)
    } else if tree.kind == "return_statement"@ {
        match first_named(tree) {
            Some(i) => {
                proof {
                    lemma_first_named(tree, 0);
                }
                let (term, after) = read_expression(tree.parts[i], state);
                (Some(Term { shape: Shape::Return, parts: seq![term] }), after)
            },
            None => (
                Some(Term { shape: Shape::Return, parts: seq![leaf(Shape::Literal)] }),
                state,
            ),
        }
    } else if tree.kind == "break_statement"@ {
        (Some(opaque_term("break"@, Seq::empty())), state)
    } else if tree.kind == "continue_statement"@ {
        (Some(opaque_term("continue"@, Seq::empty())), state)
    } else if tree.kind == "labeled_statement"@ {
        read_labeled(tree, state)
    } else if tree.kind == "goto_statement"@ {
        (Some(opaque_term("goto"@, Seq::empty())), state)
    } else if tree.kind == "do_statement"@ {
        let (body, after) = read_body(tree, "body"@, state);
        (Some(opaque_term("do"@, listed(body))), after)
    } else if tree.kind == "comment"@ || tree.kind == "preproc_call"@ || tree.kind == ";"@ {
        (None, state)
    } else {
        (Some(opaque_term(tree.kind, Seq::empty())), state)
    }
}

/// The statement behind a label: the label is control-flow bookkeeping.
pub open spec fn read_labeled(tree: Tree, state: Reading) -> (Option<Term>, Reading)
    decreases tree_height(tree), 4nat, 0int,
{
    match last_named(tree, tree.parts.len() as int) {
        Some(i) => {
            proof {
                lemma_last_named(tree, tree.parts.len() as int);
            }
            if named_upto(tree, tree.parts.len() as int) - 1 <= u32::MAX {
                read_statement(tree.parts[i], state)
            } else {
                (None, state)
            }
        },
        None => (None, state),
    }
}

/// How many of the parts before a place are named.
pub open spec fn named_upto(tree: Tree, n: int) -> nat
    decreases n,
{
    if n <= 0 || n > tree.parts.len() {
        0
    } else {
        named_upto(tree, n - 1) + if tree.parts[n - 1].named {
            1nat
        } else {
            0
        }
    }
}

/// The last named part before a place.
pub open spec fn last_named(tree: Tree, n: int) -> Option<int>
    decreases n,
{
    if n <= 0 || n > tree.parts.len() {
        None
    } else if tree.parts[n - 1].named {
        Some(n - 1)
    } else {
        last_named(tree, n - 1)
    }
}

/// The last named part is one of the parts.
pub proof fn lemma_last_named(tree: Tree, n: int)
    ensures
        last_named(tree, n) matches Some(i) ==> 0 <= i < tree.parts.len() && tree_height(
            tree.parts[i],
        ) < tree_height(tree),
    decreases n,
{
    if 0 < n <= tree.parts.len() {
        lemma_part_height(tree, n - 1);
        lemma_last_named(tree, n - 1);
    }
}

/// The statement in a field.
pub open spec fn read_body(tree: Tree, field: Seq<char>, state: Reading) -> (Option<Term>, Reading)
    decreases tree_height(tree), 3nat, 0int,
{
    match field_part(tree, field) {
        Some(i) => {
            proof {
                lemma_field_part(tree, field, 0);
            }
            read_statement(tree.parts[i], state)
        },
        None => (None, state),
    }
}

/// A body that repeats in a way with no canonical shape.
pub open spec fn read_repeated(tree: Tree, kind: Seq<char>, state: Reading) -> (
    Option<Term>,
    Reading,
)
    decreases tree_height(tree), 4nat, 0int,
{
    match field_part(tree, "body"@) {
        Some(i) => {
            let (body, after) = read_body(tree, "body"@, state);
            (Some(opaque_term(kind, listed(body))), after)
        },
        None => (None, state),
    }
}

/// The named parts before a place as statements, without comments and without
/// one that is left out.
pub open spec fn read_steps(tree: Tree, n: int, left_out: Option<int>, state: Reading) -> (
    Seq<Term>,
    Reading,
)
    decreases tree_height(tree), 4nat, n,
{
    if n <= 0 || n > tree.parts.len() {
        (Seq::empty(), state)
    } else {
        proof {
            lemma_part_height(tree, n - 1);
        }
        let (before, between) = read_steps(tree, n - 1, left_out, state);
        let part = tree.parts[n - 1];
        if !part.named || part.kind == "comment"@ || left_out == Some(n - 1) {
            (before, between)
        } else {
            let (step, after) = read_statement(part, between);
            (before + listed(step), after)
        }
    }
}

/// A name recorded as one that holds a value.
pub open spec fn declared(name: Seq<char>, state: Reading) -> Reading {
    Reading {
        roles: Assigned {
            values: if state.roles.values.contains(name) {
                state.roles.values
            } else {
                state.roles.values.push(name)
            },
            ..state.roles
        },
        ..state
    }
}

/// A name given to a value.
pub open spec fn let_term(index: u32, value: Term) -> Term {
    Term { shape: Shape::Let(binding_term(index)), parts: seq![value] }
}

/// A pattern that binds one name.
pub open spec fn binding_term(index: u32) -> PatternTerm {
    PatternTerm { kind: PatternKind::Binding(index), parts: Seq::empty() }
}

/// One part of a declaration: an initialized declarator names a value, a bare one
/// binds its name, and the name of a type is only recorded. None where a declarator is incomplete.
pub open spec fn read_let(tree: Tree, state: Reading) -> (Option<Seq<Term>>, Reading)
    decreases tree_height(tree), 4nat, 0int,
{
    if tree.kind != "init_declarator"@ {
        match innermost_name(tree) {
            Some(name) => (
                Some(Seq::empty()),
                if tree.kind == "type_identifier"@ {
                    declared(name, state)
                } else {
                    Reading { roles: state.roles.bound(name), ..state }
                },
            ),
            None => (Some(Seq::empty()), state),
        }
    } else {
        match (part_in(tree, "declarator"@), field_part(tree, "value"@)) {
            (Some(declarator), Some(_)) => match innermost_name(declarator) {
                Some(name) => {
                    let (value, between) = read_field(tree, "value"@, state);
                    (
                        Some(seq![let_term(between.roles.locals as u32, value)]),
                        Reading { roles: between.roles.bound(name), ..between },
                    )
                },
                None => (None, state),
            },
            _ => (None, state),
        }
    }
}

/// The named parts of a declaration before a place; none once a declarator was
/// incomplete.
pub open spec fn read_lets(tree: Tree, n: int, state: Reading) -> (Option<Seq<Term>>, Reading)
    decreases tree_height(tree), 4nat, n,
{
    if n <= 0 || n > tree.parts.len() {
        (Some(Seq::empty()), state)
    } else {
        proof {
            lemma_part_height(tree, n - 1);
        }
        let (before, between) = read_lets(tree, n - 1, state);
        let part = tree.parts[n - 1];
        match before {
            None => (None, between),
            Some(lets) => if !part.named {
                (Some(lets), between)
            } else {
                let (more, after) = read_let(part, between);
                (
                    match more {
                        Some(more) => Some(lets + more),
                        None => None,
                    },
                    after,
                )
            },
        }
    }
}

/// A choice between two statements.
pub open spec fn read_if(tree: Tree, state: Reading) -> (Option<Term>, Reading)
    decreases tree_height(tree), 4nat, 0int,
{
    match field_part(tree, "condition"@) {
        Some(_) => {
            let (condition, first) = read_field(tree, "condition"@, state);
            let (consequence, second) = read_body(tree, "consequence"@, first);
            let (alternative, third) = read_alternative(tree, second);
            (
                Some(
                    Term {
                        shape: Shape::Branch,
                        parts: seq![condition, or_literal(consequence)] + listed(alternative),
                    },
                ),
                third,
            )
        },
        None => (None, state),
    }
}

/// What happens where a condition does not hold.
pub open spec fn read_alternative(tree: Tree, state: Reading) -> (Option<Term>, Reading)
    decreases tree_height(tree), 3nat, 0int,
{
    match field_part(tree, "alternative"@) {
        Some(i) => match first_named(tree.parts[i]) {
            Some(j) => {
                proof {
                    lemma_field_part(tree, "alternative"@, 0);
                    lemma_first_named(tree.parts[i], 0);
                }
                read_statement(tree.parts[i].parts[j], state)
            },
            None => (None, state),
        },
        None => (None, state),
    }
}

/// One case of a choice, named by its value.
pub open spec fn read_case(tree: Tree, state: Reading) -> (ArmTerm, Reading)
    decreases tree_height(tree), 5nat, 0int,
{
    let (steps, after) = read_steps(
        tree,
        tree.parts.len() as int,
        field_part(tree, "value"@),
        state,
    );
    (
        (
            PatternTerm {
                kind: PatternKind::Variant(field_text(tree, "value"@, "default"@)),
                parts: Seq::empty(),
            },
            gathered(steps),
        ),
        after,
    )
}

/// The cases among the parts before a place.
pub open spec fn read_cases(tree: Tree, n: int, state: Reading) -> (Seq<ArmTerm>, Reading)
    decreases tree_height(tree), 4nat, n,
{
    if n <= 0 || n > tree.parts.len() {
        (Seq::empty(), state)
    } else {
        proof {
            lemma_part_height(tree, n - 1);
        }
        let (before, between) = read_cases(tree, n - 1, state);
        let part = tree.parts[n - 1];
        if !part.named || part.kind != "case_statement"@ {
            (before, between)
        } else {
            let (arm, after) = read_case(part, between);
            (before.push(arm), after)
        }
    }
}

/// A choice among cases.
pub open spec fn read_switch(tree: Tree, state: Reading) -> (Option<Term>, Reading)
    decreases tree_height(tree), 4nat, 0int,
{
    match field_part(tree, "condition"@) {
        Some(_) => {
            let (scrutinee, between) = read_field(tree, "condition"@, state);
            match field_part(tree, "body"@) {
                Some(i) => {
                    proof {
                        lemma_field_part(tree, "body"@, 0);
                    }
                    let body = tree.parts[i];
                    let (arms, after) = read_cases(body, body.parts.len() as int, between);
                    (Some(select_term(scrutinee, in_order(arms))), after)
                },
                None => (None, between),
            }
        },
        None => (None, state),
    }
}

/// The steps of a loop body: the statements of a block, or the one statement.
pub open spec fn read_loop_steps(tree: Tree, left_out: Option<int>, state: Reading) -> (
    Seq<Term>,
    Reading,
)
    decreases tree_height(tree), 6nat, 0int,
{
    if tree.kind == "compound_statement"@ {
        read_steps(tree, tree.parts.len() as int, left_out, state)
    } else if tree.kind == "comment"@ {
        (Seq::empty(), state)
    } else {
        let (step, after) = read_statement(tree, state);
        (listed(step), after)
    }
}

/// The name a walk gives its element where the source gives it none.
pub open spec fn element_name(binding: Option<Seq<char>>, counter: Seq<char>) -> Seq<char> {
    match binding {
        Some(name) => name,
        None => "<"@ + counter + ">"@,
    }
}

/// An index walk is a traversal; any other loop keeps its shape.
pub open spec fn read_for(tree: Tree, state: Reading) -> (Option<Term>, Reading)
    decreases tree_height(tree), 4nat, 1int,
{
    match field_part(tree, "body"@) {
        Some(i) => {
            proof {
                lemma_field_part(tree, "body"@, 0);
            }
            let body = tree.parts[i];
            match counter_of(tree) {
                Some((counter, direction)) => match indexed_in(body, counter) {
                    Some(indexed) => {
                        proof {
                            lemma_indexed_in(body, counter);
                        }
                        let (sequence, first) = read_expression(indexed.sequence, state);
                        let index = first.roles.locals as u32;
                        let inside = Reading {
                            roles: first.roles.bound(element_name(indexed.binding, counter)),
                            walks: first.walks.push((text_in(indexed.sequence), counter, index)),
                        };
                        let (steps, last) = read_loop_steps(body, indexed.declaration, inside);
                        (
                            Some(
                                Term {
                                    shape: Shape::Traverse(binding_term(index), direction),
                                    parts: seq![sequence, gathered(steps)],
                                },
                            ),
                            Reading { roles: last.roles, walks: first.walks },
                        )
                    },
                    None => read_repeated(tree, "for"@, state),
                },
                None => read_repeated(tree, "for"@, state),
            }
        },
        None => (None, state),
    }
}

/// Reading an expression numbers names in order and leaves the walks alone.
pub proof fn lemma_expression_follows(tree: Tree, state: Reading)
    ensures
        follows(state, read_expression(tree, state).1),
    decreases tree_height(tree), 2nat, 0int,
{
    lemma_field_follows(tree, "argument"@, state);
    lemma_field_follows(tree, "value"@, state);
    lemma_two_follows(tree, "left"@, "right"@, state);
    lemma_call_follows(tree, state);
    lemma_subscript_follows(tree, state);
    lemma_conditional_follows(tree, state);
    lemma_list_follows(tree, tree.parts.len() as int, false, state);
    lemma_first_named(tree, 0);
    if let Some(i) = first_named(tree) {
        lemma_expression_follows(tree.parts[i], state);
    }
}

pub proof fn lemma_field_follows(tree: Tree, field: Seq<char>, state: Reading)
    ensures
        follows(state, read_field(tree, field, state).1),
    decreases tree_height(tree), 1nat, 0int,
{
    lemma_field_part(tree, field, 0);
    if let Some(i) = field_part(tree, field) {
        lemma_expression_follows(tree.parts[i], state);
    }
}

pub proof fn lemma_two_follows(tree: Tree, first: Seq<char>, second: Seq<char>, state: Reading)
    ensures
        follows(state, read_two(tree, first, second, state).1),
    decreases tree_height(tree), 1nat, 1int,
{
    lemma_field_follows(tree, first, state);
    lemma_field_follows(tree, second, read_field(tree, first, state).1);
}

pub proof fn lemma_conditional_follows(tree: Tree, state: Reading)
    ensures
        follows(state, read_conditional(tree, state).1),
    decreases tree_height(tree), 1nat, 2int,
{
    lemma_two_follows(tree, "condition"@, "consequence"@, state);
    lemma_field_follows(
        tree,
        "alternative"@,
        read_two(tree, "condition"@, "consequence"@, state).1,
    );
}

pub proof fn lemma_list_follows(tree: Tree, n: int, skip_comments: bool, state: Reading)
    ensures
        follows(state, read_list(tree, n, skip_comments, state).1),
    decreases tree_height(tree), 0nat, n,
{
    if 0 < n <= tree.parts.len() {
        lemma_part_height(tree, n - 1);
        lemma_list_follows(tree, n - 1, skip_comments, state);
        lemma_expression_follows(
            tree.parts[n - 1],
            read_list(tree, n - 1, skip_comments, state).1,
        );
    }
}

/// Reading more of a list numbers no fewer names.
pub proof fn lemma_list_grows(tree: Tree, few: int, many: int, skip_comments: bool, state: Reading)
    requires
        0 <= few <= many <= tree.parts.len(),
    ensures
        follows(
            read_list(tree, few, skip_comments, state).1,
            read_list(tree, many, skip_comments, state).1,
        ),
    decreases many,
{
    if few < many {
        lemma_list_grows(tree, few, many - 1, skip_comments, state);
        lemma_expression_follows(
            tree.parts[many - 1],
            read_list(tree, many - 1, skip_comments, state).1,
        );
    }
}

pub proof fn lemma_callee_follows(tree: Tree, state: Reading)
    ensures
        follows(state, read_callee(tree, state).1),
    decreases tree_height(tree), 1nat, 1int,
{
    lemma_field_follows(tree, "function"@, state);
}

pub proof fn lemma_call_follows(tree: Tree, state: Reading)
    ensures
        follows(state, read_call(tree, state).1),
    decreases tree_height(tree), 1nat, 2int,
{
    lemma_callee_follows(tree, state);
    lemma_field_part(tree, "arguments"@, 0);
    if let Some(i) = field_part(tree, "arguments"@) {
        let list = tree.parts[i];
        lemma_list_follows(list, list.parts.len() as int, true, read_callee(tree, state).1);
    }
}

pub proof fn lemma_subscript_follows(tree: Tree, state: Reading)
    ensures
        follows(state, read_subscript(tree, state).1),
    decreases tree_height(tree), 1nat, 2int,
{
    lemma_two_follows(tree, "argument"@, "index"@, state);
}

/// Reading a statement numbers names in order and leaves the walks alone.
pub proof fn lemma_statement_follows(tree: Tree, state: Reading)
    ensures
        follows(state, read_statement(tree, state).1),
    decreases tree_height(tree), 5nat, 0int,
{
    lemma_steps_follows(tree, tree.parts.len() as int, None, state);
    lemma_lets_follows(tree, tree.parts.len() as int, state);
    lemma_if_follows(tree, state);
    lemma_switch_follows(tree, state);
    lemma_for_follows(tree, state);
    lemma_repeated_follows(tree, "while"@, state);
    lemma_body_follows(tree, "body"@, state);
    lemma_first_named(tree, 0);
    if let Some(i) = first_named(tree) {
        lemma_expression_follows(tree.parts[i], state);
    }
    lemma_last_named(tree, tree.parts.len() as int);
    if let Some(i) = last_named(tree, tree.parts.len() as int) {
        lemma_statement_follows(tree.parts[i], state);
    }
}

pub proof fn lemma_body_follows(tree: Tree, field: Seq<char>, state: Reading)
    ensures
        follows(state, read_body(tree, field, state).1),
    decreases tree_height(tree), 3nat, 0int,
{
    lemma_field_part(tree, field, 0);
    if let Some(i) = field_part(tree, field) {
        lemma_statement_follows(tree.parts[i], state);
    }
}

pub proof fn lemma_repeated_follows(tree: Tree, kind: Seq<char>, state: Reading)
    ensures
        follows(state, read_repeated(tree, kind, state).1),
    decreases tree_height(tree), 4nat, 0int,
{
    lemma_body_follows(tree, "body"@, state);
}

pub proof fn lemma_steps_follows(tree: Tree, n: int, left_out: Option<int>, state: Reading)
    ensures
        follows(state, read_steps(tree, n, left_out, state).1),
    decreases tree_height(tree), 4nat, n,
{
    if 0 < n <= tree.parts.len() {
        lemma_part_height(tree, n - 1);
        lemma_steps_follows(tree, n - 1, left_out, state);
        lemma_statement_follows(tree.parts[n - 1], read_steps(tree, n - 1, left_out, state).1);
    }
}

/// Reading more steps numbers no fewer names.
pub proof fn lemma_steps_grow(tree: Tree, few: int, many: int, left_out: Option<int>, state: Reading)
    requires
        0 <= few <= many <= tree.parts.len(),
    ensures
        follows(
            read_steps(tree, few, left_out, state).1,
            read_steps(tree, many, left_out, state).1,
        ),
    decreases many,
{
    if few < many {
        lemma_steps_grow(tree, few, many - 1, left_out, state);
        lemma_statement_follows(
            tree.parts[many - 1],
            read_steps(tree, many - 1, left_out, state).1,
        );
    }
}

pub proof fn lemma_let_follows(tree: Tree, state: Reading)
    ensures
        follows(state, read_let(tree, state).1),
    decreases tree_height(tree), 4nat, 0int,
{
    lemma_field_follows(tree, "value"@, state);
}

pub proof fn lemma_lets_follows(tree: Tree, n: int, state: Reading)
    ensures
        follows(state, read_lets(tree, n, state).1),
    decreases tree_height(tree), 4nat, n,
{
    if 0 < n <= tree.parts.len() {
        lemma_part_height(tree, n - 1);
        lemma_lets_follows(tree, n - 1, state);
        lemma_let_follows(tree.parts[n - 1], read_lets(tree, n - 1, state).1);
    }
}

/// Reading more of a declaration numbers no fewer names, and one once incomplete
/// stays so.
pub proof fn lemma_lets_grow(tree: Tree, few: int, many: int, state: Reading)
    requires
        0 <= few <= many <= tree.parts.len(),
    ensures
        follows(read_lets(tree, few, state).1, read_lets(tree, many, state).1),
        read_lets(tree, few, state).0 is None ==> read_lets(tree, many, state) == read_lets(
            tree,
            few,
            state,
        ),
    decreases many,
{
    if few < many {
        lemma_lets_grow(tree, few, many - 1, state);
        lemma_let_follows(tree.parts[many - 1], read_lets(tree, many - 1, state).1);
    }
}

pub proof fn lemma_if_follows(tree: Tree, state: Reading)
    ensures
        follows(state, read_if(tree, state).1),
    decreases tree_height(tree), 4nat, 0int,
{
    let first = read_field(tree, "condition"@, state).1;
    let second = read_body(tree, "consequence"@, first).1;
    lemma_field_follows(tree, "condition"@, state);
    lemma_body_follows(tree, "consequence"@, first);
    lemma_alternative_follows(tree, second);
}

pub proof fn lemma_alternative_follows(tree: Tree, state: Reading)
    ensures
        follows(state, read_alternative(tree, state).1),
    decreases tree_height(tree), 3nat, 0int,
{
    lemma_field_part(tree, "alternative"@, 0);
    if let Some(i) = field_part(tree, "alternative"@) {
        lemma_first_named(tree.parts[i], 0);
        if let Some(j) = first_named(tree.parts[i]) {
            lemma_statement_follows(tree.parts[i].parts[j], state);
        }
    }
}

pub proof fn lemma_case_follows(tree: Tree, state: Reading)
    ensures
        follows(state, read_case(tree, state).1),
    decreases tree_height(tree), 5nat, 0int,
{
    lemma_steps_follows(tree, tree.parts.len() as int, field_part(tree, "value"@), state);
}

pub proof fn lemma_cases_follows(tree: Tree, n: int, state: Reading)
    ensures
        follows(state, read_cases(tree, n, state).1),
    decreases tree_height(tree), 4nat, n,
{
    if 0 < n <= tree.parts.len() {
        lemma_part_height(tree, n - 1);
        lemma_cases_follows(tree, n - 1, state);
        lemma_case_follows(tree.parts[n - 1], read_cases(tree, n - 1, state).1);
    }
}

/// Reading more cases numbers no fewer names.
pub proof fn lemma_cases_grow(tree: Tree, few: int, many: int, state: Reading)
    requires
        0 <= few <= many <= tree.parts.len(),
    ensures
        follows(read_cases(tree, few, state).1, read_cases(tree, many, state).1),
    decreases many,
{
    if few < many {
        lemma_cases_grow(tree, few, many - 1, state);
        lemma_case_follows(tree.parts[many - 1], read_cases(tree, many - 1, state).1);
    }
}

pub proof fn lemma_switch_follows(tree: Tree, state: Reading)
    ensures
        follows(state, read_switch(tree, state).1),
    decreases tree_height(tree), 4nat, 0int,
{
    lemma_field_follows(tree, "condition"@, state);
    lemma_field_part(tree, "body"@, 0);
    if let Some(i) = field_part(tree, "body"@) {
        let body = tree.parts[i];
        lemma_cases_follows(
            body,
            body.parts.len() as int,
            read_field(tree, "condition"@, state).1,
        );
    }
}

pub proof fn lemma_loop_steps_follows(tree: Tree, left_out: Option<int>, state: Reading)
    ensures
        follows(state, read_loop_steps(tree, left_out, state).1),
    decreases tree_height(tree), 6nat, 0int,
{
    lemma_steps_follows(tree, tree.parts.len() as int, left_out, state);
    lemma_statement_follows(tree, state);
}

pub proof fn lemma_for_follows(tree: Tree, state: Reading)
    ensures
        follows(state, read_for(tree, state).1),
    decreases tree_height(tree), 4nat, 1int,
{
    lemma_repeated_follows(tree, "for"@, state);
    lemma_field_part(tree, "body"@, 0);
    if let Some(i) = field_part(tree, "body"@) {
        let body = tree.parts[i];
        if let Some((counter, _)) = counter_of(tree) {
            lemma_indexed_in(body, counter);
            if let Some(indexed) = indexed_in(body, counter) {
                lemma_expression_follows(indexed.sequence, state);
                let first = read_expression(indexed.sequence, state).1;
                let index = first.roles.locals as u32;
                let inside = Reading {
                    roles: first.roles.bound(element_name(indexed.binding, counter)),
                    walks: first.walks.push((text_in(indexed.sequence), counter, index)),
                };
                lemma_loop_steps_follows(body, indexed.declaration, inside);
            }
        }
    }
}

/// Nothing known yet.
pub open spec fn blank_reading() -> Reading {
    Reading {
        roles: Assigned {
            roles: Seq::empty(),
            values: Seq::empty(),
            ledger: Seq::empty(),
            locals: 0,
            frees: 0,
        },
        walks: Seq::empty(),
    }
}

/// A place in a list.
pub open spec fn place_view(place: Option<usize>) -> Option<int> {
    match place {
        Some(place) => Some(place as int),
        None => None,
    }
}

/// What is known while reading.
pub(crate) struct Reader {
    roles: Roles,
    walks: Vec<(String, String, u32)>,
}

/// The contents of walks.
pub open spec fn walk_views(walks: Seq<(String, String, u32)>) -> Seq<(Seq<char>, Seq<char>, u32)> {
    Seq::new(walks.len(), |i: int| (walks[i].0@, walks[i].1@, walks[i].2))
}

impl View for Reader {
    type V = Reading;

    closed spec fn view(&self) -> Reading {
        Reading { roles: self.roles@, walks: walk_views(self.walks@) }
    }
}

/// Several steps as one.
fn gather(steps: Vec<Form>) -> (form: Form)
    ensures
        form@ == gathered(form_terms(steps@)),
{
    let mut steps = steps;
    let ghost terms = form_terms(steps@);
    assert(terms.len() == steps@.len());
    if steps.len() == 0 {
        Form::Literal
    } else if steps.len() == 1 {
        assert(terms[0] == steps@[0]@);
        steps.swap_remove(0)
    } else {
        Form::Sequence(steps)
    }
}

/// What is there as a list of one.
fn list_of(step: Option<Form>) -> (steps: Vec<Form>)
    ensures
        form_terms(steps@) == listed(rewritten_term(step)),
{
    let mut steps: Vec<Form> = Vec::new();
    match step {
        Some(step) => {
            steps.push(step);
            assert(form_terms(steps@) =~= seq![step@]);
        },
        None => {
            assert(form_terms(steps@) =~= Seq::empty());
        },
    }
    steps
}

/// A form at the end of a list.
fn push_form(steps: &mut Vec<Form>, step: Form)
    ensures
        form_terms(final(steps)@) == form_terms(old(steps)@).push(step@),
{
    let ghost before = steps@;
    steps.push(step);
    assert(form_terms(steps@) =~= form_terms(before).push(step@));
}

/// The text of a field, or a default where there is none.
fn text_of_field(node: &SyntaxNode, field: &str, default: &str, source: &Vec<u8>) -> (text: String)
    ensures
        text@ == field_text(tree_of(*node, source@), field@, default@),
{
    match node.child_by_field(field, Ghost(source@)) {
        Some(child) => child.text_or_empty(source),
        None => default.to_owned(),
    }
}

/// A form with no parts and no canonical shape.
fn opaque_form(kind: &str) -> (form: Form)
    ensures
        form@ == opaque_term(kind@, Seq::empty()),
{
    let none: Vec<Form> = Vec::new();
    assert(form_terms(none@) =~= Seq::empty());
    Form::Opaque { kind: kind.to_owned(), parts: none }
}

impl Reader {
    /// What a name stands for.
    fn name(&mut self, name: &str) -> (form: Form)
        requires
            fits(read_name(name@, old(self)@).1),
        ensures
            (form@, final(self)@) == read_name(name@, old(self)@),
    {
        self.roles.resolve(name)
    }

    /// The element an index reads inside a walk.
    fn item(&self, sequence: &str, counter: &str) -> (item: Option<u32>)
        ensures
            item == walked_item(self@.walks, sequence@, counter@),
    {
        let ghost walks = self@.walks;
        let mut i: usize = self.walks.len();
        assert(walks.take(i as int) =~= walks);
        while i > 0
            invariant
                i <= self.walks@.len(),
                walks == walk_views(self.walks@),
                walks == self@.walks,
                walked_item(walks, sequence@, counter@) == walked_item(
                    walks.take(i as int),
                    sequence@,
                    counter@,
                ),
            decreases i,
        {
            i -= 1;
            proof {
                assert(walks.take(i + 1).last() == walks[i as int]);
                assert(walks.take(i + 1).drop_last() =~= walks.take(i as int));
            }
            let walk = &self.walks[i];
            if same_text(walk.0.as_str(), sequence) && same_text(walk.1.as_str(), counter) {
                return Some(walk.2);
            }
        }
        None
    }

    /// The expression in a field.
    fn field(&mut self, node: &SyntaxNode, field: &str, source: &Vec<u8>) -> (form: Form)
        requires
            fits(read_field(tree_of(*node, source@), field@, old(self)@).1),
        ensures
            (form@, final(self)@) == read_field(tree_of(*node, source@), field@, old(self)@),
        decreases tree_height(tree_of(*node, source@)), 1nat, 0int,
    {
        match node.child_by_field(field, Ghost(source@)) {
            Some(child) => self.expression(child, source),
            None => Form::Literal,
        }
    }

    /// The expressions in two fields.
    fn two(&mut self, node: &SyntaxNode, first: &str, second: &str, source: &Vec<u8>) -> (both: (
        Form,
        Form,
    ))
        requires
            fits(read_two(tree_of(*node, source@), first@, second@, old(self)@).1),
        ensures
            (seq![both.0@, both.1@], final(self)@) == read_two(
                tree_of(*node, source@),
                first@,
                second@,
                old(self)@,
            ),
        decreases tree_height(tree_of(*node, source@)), 1nat, 1int,
    {
        let ghost tree = tree_of(*node, source@);
        proof {
            lemma_field_follows(tree, second@, read_field(tree, first@, self@).1);
        }
        let left = self.field(node, first, source);
        let right = self.field(node, second, source);
        (left, right)
    }

    /// A choice between two expressions.
    fn conditional(&mut self, node: &SyntaxNode, source: &Vec<u8>) -> (form: Form)
        requires
            fits(read_conditional(tree_of(*node, source@), old(self)@).1),
        ensures
            (form@, final(self)@) == read_conditional(tree_of(*node, source@), old(self)@),
        decreases tree_height(tree_of(*node, source@)), 1nat, 2int,
    {
        let ghost tree = tree_of(*node, source@);
        proof {
            lemma_field_follows(
                tree,
                "alternative"@,
                read_two(tree, "condition"@, "consequence"@, self@).1,
            );
        }
        let (condition, consequence) = self.two(node, "condition", "consequence", source);
        let ghost both = seq![condition@, consequence@];
        match node.child_by_field("alternative", Ghost(source@)) {
            Some(_) => {
                let alternative = self.field(node, "alternative", source);
                assert(both.push(alternative@) =~= seq![
                    condition@,
                    consequence@,
                    alternative@,
                ]);
                Form::Branch {
                    condition: Box::new(condition),
                    consequence: Box::new(consequence),
                    alternative: Some(Box::new(alternative)),
                }
            },
            None => Form::Branch {
                condition: Box::new(condition),
                consequence: Box::new(consequence),
                alternative: None,
            },
        }
    }

    /// The named children as expressions.
    fn list(&mut self, node: &SyntaxNode, skip_comments: bool, source: &Vec<u8>) -> (forms: Vec<
        Form,
    >)
        requires
            ({
                let tree = tree_of(*node, source@);
                fits(read_list(tree, tree.parts.len() as int, skip_comments, old(self)@).1)
            }),
        ensures
            ({
                let tree = tree_of(*node, source@);
                (form_terms(forms@), final(self)@) == read_list(
                    tree,
                    tree.parts.len() as int,
                    skip_comments,
                    old(self)@,
                )
            }),
        decreases tree_height(tree_of(*node, source@)), 0nat, 0int,
    {
        let ghost tree = tree_of(*node, source@);
        let ghost start = self@;
        let mut forms: Vec<Form> = Vec::new();
        let mut i: usize = 0;
        assert(tree.parts.len() == node.children@.len());
        assert(form_terms(forms@) =~= Seq::empty());
        while i < node.children.len()
            invariant
                tree == tree_of(*node, source@),
                tree.parts.len() == node.children@.len(),
                i <= node.children@.len(),
                fits(read_list(tree, tree.parts.len() as int, skip_comments, start).1),
                (form_terms(forms@), self@) == read_list(tree, i as int, skip_comments, start),
            decreases node.children@.len() - i,
        {
            let child = &node.children[i];
            proof {
                assert(tree.parts[i as int] == tree_of(*child, source@));
                lemma_part_height(tree, i as int);
                lemma_list_grows(
                    tree,
                    i + 1,
                    tree.parts.len() as int,
                    skip_comments,
                    start,
                );
            }
            if child.named && !(skip_comments && child.is_a("comment")) {
                let form = self.expression(child, source);
                push_form(&mut forms, form);
            }
            i += 1;
        }
        forms
    }

    /// What a call calls.
    fn callee(&mut self, node: &SyntaxNode, source: &Vec<u8>) -> (form: Form)
        requires
            fits(read_callee(tree_of(*node, source@), old(self)@).1),
        ensures
            (form@, final(self)@) == read_callee(tree_of(*node, source@), old(self)@),
        decreases tree_height(tree_of(*node, source@)), 1nat, 1int,
    {
        match node.child_by_field("function", Ghost(source@)) {
            Some(function) => if function.is_a("identifier") {
                Form::Path(function.text_or_empty(source))
            } else {
                self.field(node, "function", source)
            },
            None => Form::Literal,
        }
    }

    /// A call.
    fn call(&mut self, node: &SyntaxNode, source: &Vec<u8>) -> (form: Form)
        requires
            fits(read_call(tree_of(*node, source@), old(self)@).1),
        ensures
            (form@, final(self)@) == read_call(tree_of(*node, source@), old(self)@),
        decreases tree_height(tree_of(*node, source@)), 1nat, 2int,
    {
        let ghost tree = tree_of(*node, source@);
        proof {
            if let Some(i) = field_part(tree, "arguments"@) {
                let list = tree.parts[i];
                lemma_list_follows(list, list.parts.len() as int, true, read_callee(tree, self@).1);
            }
        }
        let callee = self.callee(node, source);
        match node.child_by_field("arguments", Ghost(source@)) {
            Some(list) => {
                let arguments = self.list(list, true, source);
                Form::Call { callee: Box::new(callee), arguments }
            },
            None => {
                let arguments: Vec<Form> = Vec::new();
                assert(form_terms(arguments@) =~= Seq::empty());
                Form::Call { callee: Box::new(callee), arguments }
            },
        }
    }

    /// An index.
    fn subscript(&mut self, node: &SyntaxNode, source: &Vec<u8>) -> (form: Form)
        requires
            fits(read_subscript(tree_of(*node, source@), old(self)@).1),
        ensures
            (form@, final(self)@) == read_subscript(tree_of(*node, source@), old(self)@),
        decreases tree_height(tree_of(*node, source@)), 1nat, 2int,
    {
        let argument = node.child_by_field("argument", Ghost(source@));
        let index = node.child_by_field("index", Ghost(source@));
        if let Some(argument) = argument {
            if let Some(index) = index {
                let item = self.item(
                    argument.text_or_empty(source).as_str(),
                    index.text_or_empty(source).as_str(),
                );
                if let Some(item) = item {
                    return Form::Local(item);
                }
            }
        }
        let (value, at) = self.two(node, "argument", "index", source);
        let mut arguments: Vec<Form> = Vec::new();
        arguments.push(at);
        assert(form_terms(arguments@) =~= seq![at@]);
        assert(seq![value@] + seq![at@] =~= seq![value@, at@]);
        Form::Method { name: "at".to_owned(), receiver: Box::new(value), arguments }
    }

    /// An expression that is not a name, a literal or a call.
    fn compound_expression(&mut self, node: &SyntaxNode, source: &Vec<u8>) -> (form: Form)
        requires
            fits(read_expression(tree_of(*node, source@), old(self)@).1),
            tree_of(*node, source@).kind != "identifier"@,
            tree_of(*node, source@).kind != "number_literal"@,
            tree_of(*node, source@).kind != "string_literal"@,
            tree_of(*node, source@).kind != "char_literal"@,
            tree_of(*node, source@).kind != "concatenated_string"@,
            tree_of(*node, source@).kind != "true"@,
            tree_of(*node, source@).kind != "false"@,
            tree_of(*node, source@).kind != "null"@,
            tree_of(*node, source@).kind != "call_expression"@,
            tree_of(*node, source@).kind != "field_expression"@,
            tree_of(*node, source@).kind != "subscript_expression"@,
        ensures
            (form@, final(self)@) == read_expression(tree_of(*node, source@), old(self)@),
        decreases tree_height(tree_of(*node, source@)), 1nat, 3int,
    {
        if node.is_a("assignment_expression") {
            let operator = text_of_field(node, "operator", "=", source);
            let (target, value) = self.two(node, "left", "right", source);
            Form::Assign { operator, target: Box::new(target), value: Box::new(value) }
        } else if node.is_a("binary_expression") {
            proof {
                reveal_strlit("");
                assert(""@ =~= Seq::<char>::empty());
            }
            let operator = text_of_field(node, "operator", "", source);
            let (left, right) = self.two(node, "left", "right", source);
            Form::Binary { operator, left: Box::new(left), right: Box::new(right) }
        } else if node.is_a("update_expression") {
            let argument = self.field(node, "argument", source);
            let operator = if contains_text(node.text_or_empty(source).as_str(), "--") {
                "-=".to_owned()
            } else {
                "+=".to_owned()
            };
            let one = Form::Number("1".to_owned());
            assert(one@ == leaf(Shape::Number("1"@)));
            Form::Assign { operator, target: Box::new(argument), value: Box::new(one) }
        } else if node.is_a("conditional_expression") {
            self.conditional(node, source)
        } else if node.is_a("pointer_expression") || node.is_a("parenthesized_expression") {
            match node.first_named_child(Ghost(source@)) {
                Some(inner) => self.expression(inner, source),
                None => Form::Literal,
            }
        } else if node.is_a("cast_expression") {
            self.field(node, "value", source)
        } else if node.is_a("unary_expression") {
            proof {
                reveal_strlit("");
                assert(""@ =~= Seq::<char>::empty());
            }
            let operator = text_of_field(node, "operator", "", source);
            let argument = self.field(node, "argument", source);
            let mut parts: Vec<Form> = Vec::new();
            parts.push(argument);
            assert(form_terms(parts@) =~= seq![argument@]);
            Form::Opaque { kind: operator, parts }
        } else if node.is_a("comma_expression") {
            Form::Sequence(self.list(node, false, source))
        } else if node.is_a("sizeof_expression") {
            opaque_form("sizeof")
        } else {
            opaque_form(node.kind.as_str())
        }
    }

    /// An expression.
    pub fn expression(&mut self, node: &SyntaxNode, source: &Vec<u8>) -> (form: Form)
        requires
            fits(read_expression(tree_of(*node, source@), old(self)@).1),
        ensures
            (form@, final(self)@) == read_expression(tree_of(*node, source@), old(self)@),
        decreases tree_height(tree_of(*node, source@)), 2nat, 0int,
    {
        if node.is_a("identifier") {
            let name = node.text_or_empty(source);
            if same_text(name.as_str(), "NULL") {
                return Form::Constant("NULL".to_owned());
            }
            self.name(name.as_str())
        } else if node.is_a("number_literal") {
            Form::Number(node.text_or_empty(source))
        } else if node.is_a("string_literal") || node.is_a("char_literal") || node.is_a(
            "concatenated_string",
        ) || node.is_a("true") || node.is_a("false") {
            Form::Constant(node.text_or_empty(source))
        } else if node.is_a("null") {
            Form::Constant("NULL".to_owned())
        } else if node.is_a("call_expression") {
            self.call(node, source)
        } else if node.is_a("field_expression") {
            proof {
                reveal_strlit("");
                assert(""@ =~= Seq::<char>::empty());
            }
            let value = self.field(node, "argument", source);
            let name = text_of_field(node, "field", "", source);
            Form::Field { value: Box::new(value), name }
        } else if node.is_a("subscript_expression") {
            self.subscript(node, source)
        } else {
            self.compound_expression(node, source)
        }
    }
}

impl Reader {
    /// Nothing known yet.
    pub fn new() -> (reader: Reader)
        ensures
            reader@ == blank_reading(),
    {
        let reader = Reader { roles: Roles::new(), walks: Vec::new() };
        assert(reader@ =~= blank_reading());
        reader
    }

    /// Records a name as one that holds a value.
    pub fn declare(&mut self, name: &str)
        ensures
            final(self)@ == declared(name@, old(self)@),
    {
        self.roles.declare(name);
    }

    /// The statement in a field.
    fn body(&mut self, node: &SyntaxNode, field: &str, source: &Vec<u8>) -> (form: Option<Form>)
        requires
            fits(read_body(tree_of(*node, source@), field@, old(self)@).1),
        ensures
            (rewritten_term(form), final(self)@) == read_body(
                tree_of(*node, source@),
                field@,
                old(self)@,
            ),
        decreases tree_height(tree_of(*node, source@)), 3nat, 0int,
    {
        match node.child_by_field(field, Ghost(source@)) {
            Some(child) => self.statement(child, source),
            None => None,
        }
    }

    /// A body that repeats in a way with no canonical shape.
    fn repeated(&mut self, node: &SyntaxNode, kind: &str, source: &Vec<u8>) -> (form: Option<Form>)
        requires
            fits(read_repeated(tree_of(*node, source@), kind@, old(self)@).1),
        ensures
            (rewritten_term(form), final(self)@) == read_repeated(
                tree_of(*node, source@),
                kind@,
                old(self)@,
            ),
        decreases tree_height(tree_of(*node, source@)), 4nat, 0int,
    {
        match node.child_by_field("body", Ghost(source@)) {
            Some(_) => {
                let body = self.body(node, "body", source);
                Some(Form::Opaque { kind: kind.to_owned(), parts: list_of(body) })
            },
            None => None,
        }
    }

    /// The named children as statements.
    fn steps(&mut self, node: &SyntaxNode, left_out: Option<usize>, source: &Vec<u8>) -> (forms: Vec<
        Form,
    >)
        requires
            ({
                let tree = tree_of(*node, source@);
                fits(
                    read_steps(
                        tree,
                        tree.parts.len() as int,
                        place_view(left_out),
                        old(self)@,
                    ).1,
                )
            }),
        ensures
            ({
                let tree = tree_of(*node, source@);
                (form_terms(forms@), final(self)@) == read_steps(
                    tree,
                    tree.parts.len() as int,
                    place_view(left_out),
                    old(self)@,
                )
            }),
        decreases tree_height(tree_of(*node, source@)), 4nat, 0int,
    {
        let ghost tree = tree_of(*node, source@);
        let ghost start = self@;
        let mut forms: Vec<Form> = Vec::new();
        let mut i: usize = 0;
        assert(tree.parts.len() == node.children@.len());
        assert(form_terms(forms@) =~= Seq::empty());
        while i < node.children.len()
            invariant
                tree == tree_of(*node, source@),
                tree.parts.len() == node.children@.len(),
                i <= node.children@.len(),
                fits(read_steps(tree, tree.parts.len() as int, place_view(left_out), start).1),
                (form_terms(forms@), self@) == read_steps(
                    tree,
                    i as int,
                    place_view(left_out),
                    start,
                ),
            decreases node.children@.len() - i,
        {
            let child = &node.children[i];
            proof {
                assert(tree.parts[i as int] == tree_of(*child, source@));
                lemma_part_height(tree, i as int);
                lemma_steps_grow(
                    tree,
                    i + 1,
                    tree.parts.len() as int,
                    place_view(left_out),
                    start,
                );
            }
            let skipped = match left_out {
                Some(place) => place == i,
                None => false,
            };
            if child.named && !child.is_a("comment") && !skipped {
                let ghost before = form_terms(forms@);
                match self.statement(child, source) {
                    Some(form) => {
                        push_form(&mut forms, form);
                        assert(before.push(form@) =~= before + seq![form@]);
                    },
                    None => {
                        assert(before =~= before + Seq::<Term>::empty());
                    },
                }
            }
            i += 1;
        }
        forms
    }

    /// One part of a declaration.
    fn let_part(&mut self, node: &SyntaxNode, source: &Vec<u8>) -> (lets: Option<Option<Form>>)
        requires
            fits(read_let(tree_of(*node, source@), old(self)@).1),
        ensures
            final(self)@ == read_let(tree_of(*node, source@), old(self)@).1,
            match lets {
                Some(form) => read_let(tree_of(*node, source@), old(self)@).0 == Some(
                    listed(rewritten_term(form)),
                ),
                None => read_let(tree_of(*node, source@), old(self)@).0 is None,
            },
        decreases tree_height(tree_of(*node, source@)), 4nat, 0int,
    {
        if !node.is_a("init_declarator") {
            if let Some(name) = innermost_identifier(node, source) {
                if node.is_a("type_identifier") {
                    self.declare(name.as_str());
                } else {
                    self.roles.bind(name.as_str());
                }
            }
            return Some(None);
        }
        let name = match (
            node.child_by_field("declarator", Ghost(source@)),
            node.child_by_field("value", Ghost(source@)),
        ) {
            (Some(declarator), Some(_)) => match innermost_identifier(declarator, source) {
                Some(name) => name,
                None => {
                    return None;
                },
            },
            _ => {
                return None;
            },
        };
        let value = self.field(node, "value", source);
        let ghost between = self@;
        match self.roles.bind(name.as_str()) {
            Form::Local(index) => {
                let pattern = Pattern::Binding(index);
                assert(pattern@ == binding_term(index));
                let form = Form::Let { pattern: Box::new(pattern), value: Box::new(value) };
                assert(form@ == let_term(index, value@));
                Some(Some(form))
            },
            _ => Some(None),
        }
    }

    /// A declaration: an initialized declarator is a let, and any other binds a
    /// name and says nothing yet.
    fn declaration(&mut self, node: &SyntaxNode, source: &Vec<u8>) -> (lets: Option<Vec<Form>>)
        requires
            ({
                let tree = tree_of(*node, source@);
                fits(read_lets(tree, tree.parts.len() as int, old(self)@).1)
            }),
        ensures
            ({
                let tree = tree_of(*node, source@);
                let read = read_lets(tree, tree.parts.len() as int, old(self)@);
                final(self)@ == read.1 && match lets {
                    Some(lets) => read.0 == Some(form_terms(lets@)),
                    None => read.0 is None,
                }
            }),
        decreases tree_height(tree_of(*node, source@)), 4nat, 0int,
    {
        let ghost tree = tree_of(*node, source@);
        let ghost start = self@;
        let mut lets: Vec<Form> = Vec::new();
        let mut i: usize = 0;
        assert(tree.parts.len() == node.children@.len());
        assert(form_terms(lets@) =~= Seq::empty());
        while i < node.children.len()
            invariant
                tree == tree_of(*node, source@),
                tree.parts.len() == node.children@.len(),
                i <= node.children@.len(),
                fits(read_lets(tree, tree.parts.len() as int, start).1),
                (Some(form_terms(lets@)), self@) == read_lets(tree, i as int, start),
                start == old(self)@,
            decreases node.children@.len() - i,
        {
            let child = &node.children[i];
            proof {
                assert(tree.parts[i as int] == tree_of(*child, source@));
                lemma_part_height(tree, i as int);
                lemma_lets_grow(tree, i + 1, tree.parts.len() as int, start);
            }
            if child.named {
                let ghost before = form_terms(lets@);
                match self.let_part(child, source) {
                    Some(Some(form)) => {
                        push_form(&mut lets, form);
                        assert(before.push(form@) =~= before + seq![form@]);
                    },
                    Some(None) => {
                        assert(before =~= before + Seq::<Term>::empty());
                    },
                    None => {
                        return None;
                    },
                }
            }
            i += 1;
        }
        Some(lets)
    }

    /// What happens where a condition does not hold.
    fn alternative(&mut self, node: &SyntaxNode, source: &Vec<u8>) -> (form: Option<Form>)
        requires
            fits(read_alternative(tree_of(*node, source@), old(self)@).1),
        ensures
            (rewritten_term(form), final(self)@) == read_alternative(
                tree_of(*node, source@),
                old(self)@,
            ),
        decreases tree_height(tree_of(*node, source@)), 3nat, 0int,
    {
        match node.child_by_field("alternative", Ghost(source@)) {
            Some(clause) => match clause.first_named_child(Ghost(source@)) {
                Some(statement) => self.statement(statement, source),
                None => None,
            },
            None => None,
        }
    }

    /// A choice between two statements.
    fn if_statement(&mut self, node: &SyntaxNode, source: &Vec<u8>) -> (form: Option<Form>)
        requires
            fits(read_if(tree_of(*node, source@), old(self)@).1),
        ensures
            (rewritten_term(form), final(self)@) == read_if(tree_of(*node, source@), old(self)@),
        decreases tree_height(tree_of(*node, source@)), 4nat, 0int,
    {
        let ghost tree = tree_of(*node, source@);
        if node.child_by_field("condition", Ghost(source@)).is_none() {
            return None;
        }
        proof {
            let first = read_field(tree, "condition"@, self@).1;
            let second = read_body(tree, "consequence"@, first).1;
            lemma_body_follows(tree, "consequence"@, first);
            lemma_alternative_follows(tree, second);
        }
        let condition = self.field(node, "condition", source);
        let consequence = match self.body(node, "consequence", source) {
            Some(consequence) => consequence,
            None => Form::Literal,
        };
        let alternative = self.alternative(node, source);
        let ghost both = seq![condition@, consequence@];
        match alternative {
            Some(alternative) => {
                assert(both + seq![alternative@] =~= seq![
                    condition@,
                    consequence@,
                    alternative@,
                ]);
                Some(
                    Form::Branch {
                        condition: Box::new(condition),
                        consequence: Box::new(consequence),
                        alternative: Some(Box::new(alternative)),
                    },
                )
            },
            None => {
                assert(both + Seq::<Term>::empty() =~= both);
                Some(
                    Form::Branch {
                        condition: Box::new(condition),
                        consequence: Box::new(consequence),
                        alternative: None,
                    },
                )
            },
        }
    }

    /// One case of a choice.
    fn case(&mut self, node: &SyntaxNode, source: &Vec<u8>) -> (arm: Arm)
        requires
            fits(read_case(tree_of(*node, source@), old(self)@).1),
        ensures
            ((arm.pattern@, arm.body@), final(self)@) == read_case(
                tree_of(*node, source@),
                old(self)@,
            ),
        decreases tree_height(tree_of(*node, source@)), 5nat, 0int,
    {
        let name = text_of_field(node, "value", "default", source);
        let value = node.place_of_field("value", Ghost(source@));
        let steps = self.steps(node, value, source);
        let none: Vec<Pattern> = Vec::new();
        let pattern = Pattern::Variant { name, parts: none };
        assert(pattern@.parts =~= Seq::empty());
        Arm { pattern, body: gather(steps) }
    }

    /// A choice among cases: each case is an arm named by its value.
    fn switch_statement(&mut self, node: &SyntaxNode, source: &Vec<u8>) -> (form: Option<Form>)
        requires
            fits(read_switch(tree_of(*node, source@), old(self)@).1),
        ensures
            (rewritten_term(form), final(self)@) == read_switch(
                tree_of(*node, source@),
                old(self)@,
            ),
        decreases tree_height(tree_of(*node, source@)), 4nat, 0int,
    {
        let ghost whole = tree_of(*node, source@);
        if node.child_by_field("condition", Ghost(source@)).is_none() {
            return None;
        }
        proof {
            if let Some(i) = field_part(whole, "body"@) {
                let body = whole.parts[i];
                lemma_cases_follows(
                    body,
                    body.parts.len() as int,
                    read_field(whole, "condition"@, self@).1,
                );
            }
        }
        let scrutinee = self.field(node, "condition", source);
        let body = match node.child_by_field("body", Ghost(source@)) {
            Some(body) => body,
            None => {
                return None;
            },
        };
        let ghost tree = tree_of(*body, source@);
        let ghost start = self@;
        let mut arms: Vec<Arm> = Vec::new();
        let mut i: usize = 0;
        assert(tree.parts.len() == body.children@.len());
        assert(arm_terms(arms@) =~= Seq::empty());
        while i < body.children.len()
            invariant
                tree == tree_of(*body, source@),
                tree_height(tree) < tree_height(whole),
                tree.parts.len() == body.children@.len(),
                i <= body.children@.len(),
                fits(read_cases(tree, tree.parts.len() as int, start).1),
                (arm_terms(arms@), self@) == read_cases(tree, i as int, start),
                whole == tree_of(*node, source@),
            decreases body.children@.len() - i,
        {
            let child = &body.children[i];
            proof {
                assert(tree.parts[i as int] == tree_of(*child, source@));
                lemma_part_height(tree, i as int);
                lemma_cases_grow(tree, i + 1, tree.parts.len() as int, start);
            }
            if child.named && child.is_a("case_statement") {
                let ghost before = arms@;
                let arm = self.case(child, source);
                arms.push(arm);
                assert(arm_terms(arms@) =~= arm_terms(before).push((arm.pattern@, arm.body@)));
            }
            i += 1;
        }
        Some(Form::select(scrutinee, arms))
    }

    /// The steps of a loop body.
    fn loop_steps(&mut self, node: &SyntaxNode, left_out: Option<usize>, source: &Vec<u8>) -> (forms:
        Vec<Form>)
        requires
            fits(
                read_loop_steps(
                    tree_of(*node, source@),
                    place_view(left_out),
                    old(self)@,
                ).1,
            ),
        ensures
            (form_terms(forms@), final(self)@) == read_loop_steps(
                tree_of(*node, source@),
                place_view(left_out),
                old(self)@,
            ),
        decreases tree_height(tree_of(*node, source@)), 6nat, 0int,
    {
        if node.is_a("compound_statement") {
            self.steps(node, left_out, source)
        } else if node.is_a("comment") {
            list_of(None)
        } else {
            let step = self.statement(node, source);
            list_of(step)
        }
    }

    /// An index walk is a traversal; any other loop keeps its shape.
    fn for_statement(&mut self, node: &SyntaxNode, source: &Vec<u8>) -> (form: Option<Form>)
        requires
            fits(read_for(tree_of(*node, source@), old(self)@).1),
        ensures
            (rewritten_term(form), final(self)@) == read_for(tree_of(*node, source@), old(self)@),
        decreases tree_height(tree_of(*node, source@)), 4nat, 1int,
    {
        let ghost tree = tree_of(*node, source@);
        let body = match node.child_by_field("body", Ghost(source@)) {
            Some(body) => body,
            None => {
                return None;
            },
        };
        let (counter, direction) = match loop_counter(node, source) {
            Some(counter) => counter,
            None => {
                return self.repeated(node, "for", source);
            },
        };
        let indexed = match find_indexed(body, counter.as_str(), source) {
            Some(indexed) => indexed,
            None => {
                return self.repeated(node, "for", source);
            },
        };
        self.walk(node, body, counter, direction, indexed, source)
    }

    /// An index walk.
    fn walk(
        &mut self,
        node: &SyntaxNode,
        body: &SyntaxNode,
        counter: String,
        direction: Direction,
        indexed: Indexed,
        source: &Vec<u8>,
    ) -> (form: Option<Form>)
        requires
            fits(read_for(tree_of(*node, source@), old(self)@).1),
            part_in(tree_of(*node, source@), "body"@) == Some(tree_of(*body, source@)),
            tree_height(tree_of(*body, source@)) < tree_height(tree_of(*node, source@)),
            counter_of(tree_of(*node, source@)) == Some((counter@, direction)),
            indexed_in(tree_of(*body, source@), counter@) == indexed_view(Some(indexed), source@),
            tree_height(tree_of(*indexed.sequence, source@)) < tree_height(
                tree_of(*body, source@),
            ),
        ensures
            (rewritten_term(form), final(self)@) == read_for(tree_of(*node, source@), old(self)@),
        decreases tree_height(tree_of(*node, source@)), 4nat, 0int,
    {
        let ghost tree = tree_of(*node, source@);
        let ghost start = self@;
        let ghost element = indexed_view(Some(indexed), source@)->0;
        let ghost first = read_expression(element.sequence, start).1;
        let ghost inside = Reading {
            roles: first.roles.bound(element_name(element.binding, counter@)),
            walks: first.walks.push(
                (text_in(element.sequence), counter@, first.roles.locals as u32),
            ),
        };
        proof {
            lemma_loop_steps_follows(tree_of(*body, source@), element.declaration, inside);
        }
        let sequence_text = indexed.sequence.text_or_empty(source);
        let sequence = self.expression(indexed.sequence, source);
        let binding = match indexed.binding {
            Some(name) => name,
            None => {
                let mut name = "<".to_owned();
                name.append(counter.as_str());
                name.append(">");
                name
            },
        };
        let index = match self.roles.bind(binding.as_str()) {
            Form::Local(index) => index,
            _ => {
                return None;
            },
        };
        let ghost walks = self.walks@;
        self.walks.push((sequence_text, counter, index));
        proof {
            assert(self@.walks =~= inside.walks);
            assert(self@ =~= inside);
        }
        let steps = self.loop_steps(body, indexed.declaration, source);
        let ghost last = self@;
        let ghost pushed = self.walks@;
        self.walks.pop();
        proof {
            assert(last.walks == inside.walks);
            assert(walk_views(pushed) == inside.walks);
            assert(self.walks@ =~= pushed.drop_last());
            assert forall|i: int| 0 <= i < first.walks.len() implies self@.walks[i]
                == first.walks[i] by {
                assert(walk_views(pushed)[i] == inside.walks[i]);
            }
            assert(pushed.len() == first.walks.len() + 1);
            assert(self@.walks =~= first.walks);
        }
        let walked = gather(steps);
        let item = Pattern::Binding(index);
        assert(item@ == binding_term(index));
        Some(
            Form::Traverse {
                sequence: Box::new(sequence),
                item: Box::new(item),
                body: Box::new(walked),
                direction,
            },
        )
    }

    /// The statement behind a label.
    fn labeled(&mut self, node: &SyntaxNode, source: &Vec<u8>) -> (form: Option<Form>)
        requires
            tree_of(*node, source@).kind == "labeled_statement"@,
            fits(read_labeled(tree_of(*node, source@), old(self)@).1),
        ensures
            (rewritten_term(form), final(self)@) == read_labeled(
                tree_of(*node, source@),
                old(self)@,
            ),
        decreases tree_height(tree_of(*node, source@)), 4nat, 0int,
    {
        let ghost tree = tree_of(*node, source@);
        let mut count: usize = 0;
        let mut last: Option<usize> = None;
        let mut i: usize = 0;
        assert(tree.parts.len() == node.children@.len());
        while i < node.children.len()
            invariant
                tree == tree_of(*node, source@),
                tree.parts.len() == node.children@.len(),
                i <= node.children@.len(),
                count <= i,
                count == named_upto(tree, i as int),
                place_view(last) == last_named(tree, i as int),
                last is Some ==> last->0 < i,
            decreases node.children@.len() - i,
        {
            assert(tree.parts[i as int] == tree_of(node.children@[i as int], source@));
            if node.children[i].named {
                count += 1;
                last = Some(i);
            }
            i += 1;
        }
        match last {
            Some(place) => {
                proof {
                    lemma_part_height(tree, place as int);
                    lemma_named_upto(tree, tree.parts.len() as int);
                    assert(tree.parts[place as int] == tree_of(
                        node.children@[place as int],
                        source@,
                    ));
                }
                if (count - 1) as u64 <= 0xffff_ffff {
                    self.statement(&node.children[place], source)
                } else {
                    None
                }
            },
            None => None,
        }
    }

    /// A statement.
    pub fn statement(&mut self, node: &SyntaxNode, source: &Vec<u8>) -> (form: Option<Form>)
        requires
            fits(read_statement(tree_of(*node, source@), old(self)@).1),
        ensures
            (rewritten_term(form), final(self)@) == read_statement(
                tree_of(*node, source@),
                old(self)@,
            ),
        decreases tree_height(tree_of(*node, source@)), 5nat, 0int,
    {
        if node.is_a("compound_statement") {
            let steps = self.steps(node, None, source);
            Some(gather(steps))
        } else if node.is_a("declaration") {
            match self.declaration(node, source) {
                Some(lets) => {
                    assert(form_terms(lets@).len() == lets@.len());
                    if lets.len() == 0 {
                        None
                    } else {
                        Some(gather(lets))
                    }
                },
                None => None,
            }
        } else if node.is_a("expression_statement") {
            match node.first_named_child(Ghost(source@)) {
                Some(expression) => Some(self.expression(expression, source)),
                None => None,
            }
        } else if node.is_a("if_statement") {
            self.if_statement(node, source)
        } else if node.is_a("switch_statement") {
            self.switch_statement(node, source)
        } else if node.is_a("for_statement") {
            self.for_statement(node, source)
        } else if node.is_a("while_statement") {
            self.repeated(node, "while", source)
        } else if node.is_a("return_statement") {
            let value = match node.first_named_child(Ghost(source@)) {
                Some(value) => self.expression(value, source),
                None => Form::Literal,
            };
            Some(Form::Return(Box::new(value)))
        } else if node.is_a("break_statement") {
            Some(opaque_form("break"))
        } else if node.is_a("continue_statement") {
            Some(opaque_form("continue"))
        } else if node.is_a("labeled_statement") {
            self.labeled(node, source)
        } else if node.is_a("goto_statement") {
            Some(opaque_form("goto"))
        } else if node.is_a("do_statement") {
            let body = self.body(node, "body", source);
            Some(Form::Opaque { kind: "do".to_owned(), parts: list_of(body) })
        } else if node.is_a("comment") || node.is_a("preproc_call") || node.is_a(";") {
            None
        } else {
            Some(opaque_form(node.kind.as_str()))
        }
    }
}

/// The named parts are at least one where there is a last one.
proof fn lemma_named_upto(tree: Tree, n: int)
    ensures
        last_named(tree, n) is Some ==> named_upto(tree, n) > 0,
    decreases n,
{
    if 0 < n <= tree.parts.len() {
        lemma_named_upto(tree, n - 1);
    }
}

} // verus!
