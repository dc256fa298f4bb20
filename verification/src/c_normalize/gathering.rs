//! Which functions, names and cases are found in a file.

use crate::c_normalize::lookup::{innermost_name, parameters, parameters_upto};
use crate::c_normalize::reading::{
    blank_reading, read_case, read_cases, read_let, read_lets, read_statement, read_switch,
    Reading,
};
use crate::c_normalize::{
    declared_all, function_name_of, function_start, function_term, functions_in, FunctionView,
};
use crate::normalize::form::{PatternKind, Shape};
use crate::syntax::{field_part, lemma_part_height, part_in, text_in, tree_height, Tree};
use vstd::prelude::*;
use vstd::string::*;

verus! {

/// Whether a kind of block can hold functions: a preprocessor branch, or what is
/// declared with a linkage.
pub open spec fn is_outer_block(kind: Seq<char>) -> bool {
    kind == "preproc_if"@ || kind == "preproc_ifdef"@ || kind == "preproc_elif"@ || kind
        == "preproc_else"@ || kind == "linkage_specification"@ || kind == "declaration_list"@
}

/// Whether a function is defined in a tree: it is one of its parts, or is defined in
/// one that can hold functions.
pub open spec fn is_defined_in(function: Tree, tree: Tree) -> bool
    decreases tree_height(tree),
{
    function.kind == "function_definition"@ && exists|i: int|
        #![trigger tree.parts[i]]
        0 <= i < tree.parts.len() && {
            proof {
                lemma_part_height(tree, i);
            }
            tree.parts[i] == function || (is_outer_block(tree.parts[i].kind) && is_defined_in(
                function,
                tree.parts[i],
            ))
        }
}

/// What is told of a function: its name, what it does, and the line it begins on.
pub open spec fn told(function: Tree, name: Seq<char>) -> FunctionView {
    FunctionView { name, form: function_term(function), line: function.extent.start_row + 1 }
}

proof fn lemma_kinds_apart()
    ensures
        !is_outer_block("function_definition"@),
{
    reveal_strlit("function_definition");
    reveal_strlit("preproc_if");
    reveal_strlit("preproc_ifdef");
    reveal_strlit("preproc_elif");
    reveal_strlit("preproc_else");
    reveal_strlit("linkage_specification");
    reveal_strlit("declaration_list");
    assert("function_definition"@.len() == 19);
    assert("preproc_if"@.len() == 10);
    assert("preproc_ifdef"@.len() == 13);
    assert("preproc_elif"@.len() == 12);
    assert("preproc_else"@.len() == 12);
    assert("linkage_specification"@.len() == 21);
    assert("declaration_list"@.len() == 16);
}

proof fn lemma_found_upto(tree: Tree, n: int, i: int, function: Tree, name: Seq<char>)
    requires
        0 <= i < n <= tree.parts.len(),
        function_name_of(function) == Some(name),
        function.kind == "function_definition"@,
        tree.parts[i] == function || (is_outer_block(tree.parts[i].kind) && functions_in(
            tree.parts[i],
            tree.parts[i].parts.len() as int,
        ).contains(told(function, name))),
    ensures
        functions_in(tree, n).contains(told(function, name)),
    decreases n,
{
    lemma_kinds_apart();
    let all = functions_in(tree, n);
    let before = functions_in(tree, n - 1);
    let wanted = told(function, name);
    if i == n - 1 {
        if tree.parts[i] == function {
            assert(all.last() == wanted);
        } else {
            let inner = functions_in(tree.parts[i], tree.parts[i].parts.len() as int);
            let k = choose|k: int| 0 <= k < inner.len() && inner[k] == wanted;
            assert(all[before.len() + k] == wanted);
        }
    } else {
        lemma_found_upto(tree, n - 1, i, function, name);
        let k = choose|k: int| 0 <= k < before.len() && before[k] == wanted;
        assert(all[k] == wanted);
    }
}

/// Every function defined in a file that declares a name is found, however deeply it
/// is hidden in preprocessor branches and linkage blocks, with the line it begins on.
pub proof fn law_every_function_is_found(function: Tree, tree: Tree, name: Seq<char>)
    requires
        is_defined_in(function, tree),
        function_name_of(function) == Some(name),
    ensures
        functions_in(tree, tree.parts.len() as int).contains(told(function, name)),
    decreases tree_height(tree),
{
    let i = choose|i: int|
        #![trigger tree.parts[i]]
        0 <= i < tree.parts.len() && (tree.parts[i] == function || (is_outer_block(
            tree.parts[i].kind,
        ) && is_defined_in(function, tree.parts[i])));
    lemma_part_height(tree, i);
    if tree.parts[i] != function {
        law_every_function_is_found(function, tree.parts[i], name);
    }
    lemma_found_upto(tree, tree.parts.len() as int, i, function, name);
}

/// Nothing is found but functions that are defined in the file, under their names.
pub proof fn law_only_defined_functions_are_found(tree: Tree, n: int, found: FunctionView)
    requires
        0 <= n <= tree.parts.len(),
        functions_in(tree, n).contains(found),
    ensures
        exists|function: Tree| #[trigger]
            is_defined_in(function, tree) && function_name_of(function) == Some(found.name)
                && found == told(function, found.name),
    decreases tree_height(tree), n,
{
    let all = functions_in(tree, n);
    let k = choose|k: int| 0 <= k < all.len() && all[k] == found;
    if n > 0 {
        lemma_part_height(tree, n - 1);
        let before = functions_in(tree, n - 1);
        let part = tree.parts[n - 1];
        if k < before.len() {
            assert(before[k] == found);
            law_only_defined_functions_are_found(tree, n - 1, found);
        } else if part.kind == "function_definition"@ {
            assert(is_defined_in(part, tree));
        } else {
            let inner = functions_in(part, part.parts.len() as int);
            assert(inner[k - before.len()] == found);
            law_only_defined_functions_are_found(part, part.parts.len() as int, found);
            let function = choose|function: Tree| #[trigger]
                is_defined_in(function, part) && function_name_of(function) == Some(found.name)
                    && found == told(function, found.name);
            assert(is_defined_in(function, tree));
        }
    }
}

/// A declarator declares the name it wraps, through pointers, arrays, parameter lists
/// and brackets alike; a name alone declares itself, and nothing else declares one.
pub proof fn law_declarators_declare_what_they_wrap(tree: Tree, i: int)
    ensures
        tree.kind == "identifier"@ || tree.kind == "type_identifier"@ ==> innermost_name(tree)
            == Some(text_in(tree)),
        (tree.kind == "pointer_declarator"@ || tree.kind == "array_declarator"@ || tree.kind
            == "function_declarator"@ || tree.kind == "parenthesized_declarator"@ || tree.kind
            == "init_declarator"@) && field_part(tree, "declarator"@) == Some(i)
            ==> innermost_name(tree) == innermost_name(tree.parts[i]),
        tree.kind == "number_literal"@ ==> innermost_name(tree) is None,
{
    reveal_strlit("identifier");
    reveal_strlit("type_identifier");
    reveal_strlit("pointer_declarator");
    reveal_strlit("array_declarator");
    reveal_strlit("function_declarator");
    reveal_strlit("parenthesized_declarator");
    reveal_strlit("init_declarator");
    reveal_strlit("number_literal");
    assert("identifier"@.len() == 10 && "type_identifier"@.len() == 15);
    assert("type_identifier"@[0] == 't' && "init_declarator"@[0] == 'i');
    assert("pointer_declarator"@.len() == 18 && "array_declarator"@.len() == 16);
    assert("function_declarator"@.len() == 19 && "parenthesized_declarator"@.len() == 24);
    assert("init_declarator"@.len() == 15 && "number_literal"@.len() == 14);
}

/// Whether a part of a parameter list declares a name.
pub open spec fn declares_parameter(part: Tree, name: Seq<char>) -> bool {
    part.named && part.kind == "parameter_declaration"@ && (part_in(part, "declarator"@) matches Some(
        inner,
    ) && innermost_name(inner) == Some(name))
}

/// The parameters of a function are the names that its parameter list declares, in
/// the order they are written.
pub proof fn law_parameters_are_those_declared(list: Tree, n: int, name: Seq<char>)
    requires
        0 <= n <= list.parts.len(),
    ensures
        parameters_upto(list, n).contains(name) <==> exists|i: int|
            0 <= i < n && declares_parameter(#[trigger] list.parts[i], name),
        n > 0 && declares_parameter(list.parts[n - 1], name) ==> parameters_upto(list, n).len() > 0
            && parameters_upto(list, n).last() == name,
    decreases n,
{
    let all = parameters_upto(list, n);
    if n > 0 {
        let before = parameters_upto(list, n - 1);
        law_parameters_are_those_declared(list, n - 1, name);
        if before.contains(name) {
            let k = choose|k: int| 0 <= k < before.len() && before[k] == name;
            assert(all[k] == name);
        }
        if declares_parameter(list.parts[n - 1], name) {
            assert(all.last() == name);
        }
        if all.contains(name) && !before.contains(name) {
            let k = choose|k: int| 0 <= k < all.len() && all[k] == name;
            if k < before.len() {
                assert(before[k] == name);
            }
            assert(declares_parameter(list.parts[n - 1], name));
        }
    }
}

proof fn lemma_declared_all(names: Seq<Seq<char>>, state: Reading, name: Seq<char>)
    ensures
        declared_all(names, state).roles.values.contains(name) <==> names.contains(name)
            || state.roles.values.contains(name),
        declared_all(names, state).roles.locals == state.roles.locals,
        declared_all(names, state).roles.roles == state.roles.roles,
        declared_all(names, state).walks == state.walks,
    decreases names.len(),
{
    if names.len() > 0 {
        let before = names.drop_last();
        lemma_declared_all(before, state, name);
        let earlier = declared_all(before, state).roles.values;
        let later = declared_all(names, state).roles.values;
        if earlier.contains(name) {
            let k = choose|k: int| 0 <= k < earlier.len() && earlier[k] == name;
            assert(later[k] == name);
        }
        if names.contains(name) {
            let k = choose|k: int| 0 <= k < names.len() && names[k] == name;
            if k < before.len() {
                assert(before[k] == name);
            } else if !earlier.contains(name) {
                assert(later.last() == name);
            }
        }
        if before.contains(name) {
            let k = choose|k: int| 0 <= k < before.len() && before[k] == name;
            assert(names[k] == name);
        }
        if later.contains(name) && !earlier.contains(name) {
            let k = choose|k: int| 0 <= k < later.len() && later[k] == name;
            if k < earlier.len() {
                assert(earlier[k] == name);
            }
            assert(names[names.len() - 1] == name);
        }
    }
}

/// Where a function's body begins its parameters hold values, and nothing else does.
pub proof fn law_parameters_hold_values(tree: Tree, declarator: Tree, name: Seq<char>)
    requires
        part_in(tree, "declarator"@) == Some(declarator),
    ensures
        function_start(tree).roles.values.contains(name) <==> parameters(declarator).contains(
            name,
        ),
        function_start(tree).roles.locals == 0,
{
    lemma_declared_all(parameters(declarator), blank_reading(), name);
}

/// A case is named by the value it is for, as it is written, and one without a value
/// is the default.
pub proof fn law_cases_are_named_by_their_values(tree: Tree, state: Reading)
    ensures
        read_case(tree, state).0.0.kind == PatternKind::Variant(
            match part_in(tree, "value"@) {
                Some(value) => text_in(value),
                None => "default"@,
            },
        ),
        read_case(tree, state).0.0.parts.len() == 0,
{
}

/// Every named case of a choice is an arm of it, and nothing else is.
pub proof fn law_every_case_is_an_arm(tree: Tree, n: int, state: Reading)
    requires
        0 <= n < tree.parts.len(),
    ensures
        read_cases(tree, 0, state).0.len() == 0,
        tree.parts[n].named && tree.parts[n].kind == "case_statement"@ ==> read_cases(
            tree,
            n + 1,
            state,
        ).0.len() == read_cases(tree, n, state).0.len() + 1 && read_cases(
            tree,
            n + 1,
            state,
        ).0.last() == read_case(tree.parts[n], read_cases(tree, n, state).1).0,
        !(tree.parts[n].named && tree.parts[n].kind == "case_statement"@) ==> read_cases(
            tree,
            n + 1,
            state,
        ) == read_cases(tree, n, state),
{
}

/// A choice among cases decides on its condition, with as many arms as it has cases.
pub proof fn law_a_choice_has_an_arm_for_each_case(
    tree: Tree,
    condition: int,
    body: int,
    state: Reading,
)
    requires
        tree.kind == "switch_statement"@,
        field_part(tree, "condition"@) == Some(condition),
        field_part(tree, "body"@) == Some(body),
    ensures
        ({
            let block = tree.parts[body];
            let (found, between) = crate::c_normalize::reading::read_field(
                tree,
                "condition"@,
                state,
            );
            let (arms, _) = read_cases(block, block.parts.len() as int, between);
            read_statement(tree, state).0 matches Some(choice) && (choice.shape matches Shape::Select(
                patterns,
            ) && patterns.len() == arms.len()) && choice.parts.len() == arms.len() + 1
                && choice.parts[0] == found
        }),
{
    lemma_statement_kinds();
    let block = tree.parts[body];
    let (found, between) = crate::c_normalize::reading::read_field(tree, "condition"@, state);
    let (arms, _) = read_cases(block, block.parts.len() as int, between);
    assert(read_statement(tree, state) == read_switch(tree, state));
    crate::normalize::select::law_select_sorts_stably(arms);
}

proof fn lemma_statement_kinds()
    ensures
        "switch_statement"@ != "compound_statement"@,
        "switch_statement"@ != "declaration"@,
        "switch_statement"@ != "expression_statement"@,
        "switch_statement"@ != "if_statement"@,
{
    reveal_strlit("switch_statement");
    reveal_strlit("compound_statement");
    reveal_strlit("declaration");
    reveal_strlit("expression_statement");
    reveal_strlit("if_statement");
    assert("switch_statement"@.len() == 16);
    assert("compound_statement"@.len() == 18);
    assert("declaration"@.len() == 11);
    assert("expression_statement"@.len() == 20);
    assert("if_statement"@.len() == 12);
}

/// A declaration reads its declarators one after the other: each part that is named
/// adds what it declares, and what is not named adds nothing.
pub proof fn law_declarators_are_read_in_order(tree: Tree, n: int, state: Reading)
    requires
        0 <= n < tree.parts.len(),
        read_lets(tree, n, state).0 is Some,
    ensures
        !tree.parts[n].named ==> read_lets(tree, n + 1, state) == read_lets(tree, n, state),
        tree.parts[n].named && read_let(tree.parts[n], read_lets(tree, n, state).1).0 is Some
            ==> read_lets(tree, n + 1, state).0 == Some(
            read_lets(tree, n, state).0->0 + read_let(
                tree.parts[n],
                read_lets(tree, n, state).1,
            ).0->0,
        ),
        tree.parts[n].named && read_let(tree.parts[n], read_lets(tree, n, state).1).0 is None
            ==> read_lets(tree, n + 1, state).0 is None,
{
}

} // verus!
