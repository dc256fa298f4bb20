use infact::c_normalize::{normalize_body, normalize_file};
use infact::normalize::form::{Direction, Form};
use infact::syntax::SyntaxNode;

/// Reads a tree written as text.
///
/// A node is `(kind child ..)`, a named leaf `kind'text'` and a quoted leaf
/// `'text'`; `field:` before a node names the field it fills. The leaves stand
/// in the source in the order in which they are written.
struct Reader<'a> {
    source: &'a str,
    notation: &'a [u8],
    at: usize,
    seen: usize,
}

impl<'a> Reader<'a> {
    fn blank(&mut self) {
        while self.at < self.notation.len() && self.notation[self.at].is_ascii_whitespace() {
            self.at += 1;
        }
    }

    fn word(&mut self) -> String {
        let start = self.at;
        while self.at < self.notation.len()
            && (self.notation[self.at].is_ascii_alphanumeric() || self.notation[self.at] == b'_')
        {
            self.at += 1;
        }
        String::from_utf8(self.notation[start..self.at].to_vec()).unwrap()
    }

    fn quoted(&mut self) -> String {
        let start = self.at + 1;
        self.at = start;
        while self.notation[self.at] != b'\'' {
            self.at += 1;
        }
        self.at += 1;
        String::from_utf8(self.notation[start..self.at - 1].to_vec()).unwrap()
    }

    fn placed(
        &self,
        kind: String,
        field: Option<String>,
        named: bool,
        start: usize,
        end: usize,
        children: Vec<SyntaxNode>,
    ) -> SyntaxNode {
        let row = |at: usize| self.source[..at].matches('\n').count();
        let column = |at: usize| at - self.source[..at].rfind('\n').map_or(0, |line| line + 1);
        SyntaxNode {
            kind,
            field,
            named,
            missing: false,
            start_byte: start,
            end_byte: end,
            start_row: row(start),
            start_column: column(start),
            end_row: row(end),
            end_column: column(end),
            children,
        }
    }

    fn leaf(&mut self, kind: Option<String>, field: Option<String>) -> SyntaxNode {
        let text = self.quoted();
        let start = self.seen
            + self.source[self.seen..]
                .find(&text)
                .unwrap_or_else(|| panic!("no {text} from {}", self.seen));
        let end = start + text.len();
        self.seen = end;
        let named = kind.is_some();
        self.placed(kind.unwrap_or(text), field, named, start, end, Vec::new())
    }

    fn node(&mut self) -> SyntaxNode {
        self.blank();
        let mut field = None;
        if self.notation[self.at].is_ascii_alphabetic() {
            let start = self.at;
            let word = self.word();
            if self.notation[self.at] == b':' {
                self.at += 1;
                field = Some(word);
            } else {
                self.at = start;
            }
        }
        match self.notation[self.at] {
            b'(' => {
                self.at += 1;
                let kind = self.word();
                let mut children = Vec::new();
                self.blank();
                while self.notation[self.at] != b')' {
                    children.push(self.node());
                    self.blank();
                }
                self.at += 1;
                let start = children.first().map_or(self.seen, |child| child.start_byte);
                let end = children.last().map_or(self.seen, |child| child.end_byte);
                self.placed(kind, field, true, start, end, children)
            }
            b'\'' => self.leaf(None, field),
            _ => {
                let kind = self.word();
                self.leaf(Some(kind), field)
            }
        }
    }
}

fn parse(source: &str, notation: &str) -> SyntaxNode {
    let mut reader = Reader { source, notation: notation.as_bytes(), at: 0, seen: 0 };
    reader.node()
}

fn form(source: &str, notation: &str, function: &str) -> Form {
    let root = parse(source, notation);
    normalize_file(&root, &source.as_bytes().to_vec())
        .into_iter()
        .find(|candidate| candidate.name == function)
        .unwrap_or_else(|| panic!("no function {function}"))
        .form
}

#[test]
fn index_walk_is_a_traversal() {
    let form = form(
        "int sum(int *a, int n) {\n\
         \tint total = 0;\n\
         \tfor (int i = 0; i < n; i++)\n\
         \t\ttotal += a[i];\n\
         \treturn total;\n\
         }\n",
        "(translation_unit (function_definition type:primitive_type'int'
           declarator:(function_declarator declarator:identifier'sum'
             parameters:(parameter_list '('
               (parameter_declaration type:primitive_type'int'
                 declarator:(pointer_declarator '*' declarator:identifier'a')) ','
               (parameter_declaration type:primitive_type'int' declarator:identifier'n') ')'))
           body:(compound_statement '{'
             (declaration type:primitive_type'int'
               declarator:(init_declarator declarator:identifier'total' '='
                 value:number_literal'0') ';')
             (for_statement 'for' '('
               initializer:(declaration type:primitive_type'int'
                 declarator:(init_declarator declarator:identifier'i' '='
                   value:number_literal'0') ';')
               condition:(binary_expression left:identifier'i' operator:'<' right:identifier'n') ';'
               update:(update_expression argument:identifier'i' operator:'++') ')'
               body:(expression_statement
                 (assignment_expression left:identifier'total' operator:'+='
                   right:(subscript_expression argument:identifier'a' '['
                     index:identifier'i' ']')) ';'))
             (return_statement 'return' identifier'total' ';') '}')))",
        "sum",
    );
    let Form::Sequence(steps) = &form else {
        panic!("expected a sequence, got {form:?}");
    };
    let Form::Traverse {
        body, direction, ..
    } = &steps[1]
    else {
        panic!("expected a traversal, got {:?}", steps[1]);
    };
    assert_eq!(*direction, Direction::Forward);
    // `total += a[i]` with the element access replaced by the item.
    let Form::Assign {
        operator, value, ..
    } = body.as_ref()
    else {
        panic!("expected an accumulation body, got {body:?}");
    };
    assert_eq!(operator, "+=");
    assert!(matches!(value.as_ref(), Form::Local(_)));
}

#[test]
fn leading_element_declaration_names_the_item() {
    let form = form(
        "void each(struct entry *entries, int count) {\n\
         \tfor (int i = 0; i < count; i++) {\n\
         \t\tstruct entry e = entries[i];\n\
         \t\tuse(e);\n\
         \t}\n\
         }\n",
        "(translation_unit (function_definition type:primitive_type'void'
           declarator:(function_declarator declarator:identifier'each'
             parameters:(parameter_list '('
               (parameter_declaration type:(struct_specifier 'struct' name:type_identifier'entry')
                 declarator:(pointer_declarator '*' declarator:identifier'entries')) ','
               (parameter_declaration type:primitive_type'int' declarator:identifier'count') ')'))
           body:(compound_statement '{'
             (for_statement 'for' '('
               initializer:(declaration type:primitive_type'int'
                 declarator:(init_declarator declarator:identifier'i' '='
                   value:number_literal'0') ';')
               condition:(binary_expression left:identifier'i' operator:'<'
                 right:identifier'count') ';'
               update:(update_expression argument:identifier'i' operator:'++') ')'
               body:(compound_statement '{'
                 (declaration type:(struct_specifier 'struct' name:type_identifier'entry')
                   declarator:(init_declarator declarator:identifier'e' '='
                     value:(subscript_expression argument:identifier'entries' '['
                       index:identifier'i' ']')) ';')
                 (expression_statement
                   (call_expression function:identifier'use'
                     arguments:(argument_list '(' identifier'e' ')')) ';') '}')) '}')))",
        "each",
    );
    let Form::Traverse { body, .. } = &form else {
        panic!("expected a traversal, got {form:?}");
    };
    // The body is `use(item)`: the declaration was consumed by the binding.
    let Form::Call { arguments, .. } = body.as_ref() else {
        panic!("expected a call body, got {body:?}");
    };
    assert!(matches!(arguments[0], Form::Local(_)));
}

#[test]
fn backwards_walk_carries_its_direction() {
    let form = form(
        "void drain(int *a, int n) {\n\
         \tfor (int i = n - 1; i >= 0; i--)\n\
         \t\ttake(a[i]);\n\
         }\n",
        "(translation_unit (function_definition type:primitive_type'void'
           declarator:(function_declarator declarator:identifier'drain'
             parameters:(parameter_list '('
               (parameter_declaration type:primitive_type'int'
                 declarator:(pointer_declarator '*' declarator:identifier'a')) ','
               (parameter_declaration type:primitive_type'int' declarator:identifier'n') ')'))
           body:(compound_statement '{'
             (for_statement 'for' '('
               initializer:(declaration type:primitive_type'int'
                 declarator:(init_declarator declarator:identifier'i' '='
                   value:(binary_expression left:identifier'n' operator:'-'
                     right:number_literal'1')) ';')
               condition:(binary_expression left:identifier'i' operator:'>='
                 right:number_literal'0') ';'
               update:(update_expression argument:identifier'i' operator:'--') ')'
               body:(expression_statement
                 (call_expression function:identifier'take'
                   arguments:(argument_list '('
                     (subscript_expression argument:identifier'a' '[' index:identifier'i' ']')
                     ')')) ';')) '}')))",
        "drain",
    );
    let Form::Traverse { direction, .. } = &form else {
        panic!("expected a traversal, got {form:?}");
    };
    assert_eq!(*direction, Direction::Backward);
}

#[test]
fn pointer_ceremony_reduces_to_what_it_wraps() {
    let form = form(
        "int deref(int *p) { return *p; }\n",
        "(translation_unit (function_definition type:primitive_type'int'
           declarator:(function_declarator declarator:identifier'deref'
             parameters:(parameter_list '('
               (parameter_declaration type:primitive_type'int'
                 declarator:(pointer_declarator '*' declarator:identifier'p')) ')'))
           body:(compound_statement '{'
             (return_statement 'return'
               (pointer_expression operator:'*' argument:identifier'p') ';') '}')))",
        "deref",
    );
    // `return *p` is `return p` once the ceremony is gone.
    assert!(matches!(form, Form::Return(ref inner)
        if matches!(inner.as_ref(), Form::Free(0))));
}

#[test]
fn casts_are_annotation_not_behavior() {
    let form = form(
        "long widen(int x) { return (long)x; }\n",
        "(translation_unit (function_definition type:primitive_type'long'
           declarator:(function_declarator declarator:identifier'widen'
             parameters:(parameter_list '('
               (parameter_declaration type:primitive_type'int' declarator:identifier'x') ')'))
           body:(compound_statement '{'
             (return_statement 'return'
               (cast_expression '(' type:(type_descriptor type:primitive_type'long') ')'
                 value:identifier'x') ';') '}')))",
        "widen",
    );
    assert!(matches!(form, Form::Return(ref inner)
        if matches!(inner.as_ref(), Form::Free(0))));
}

#[test]
fn a_switch_is_a_select_with_named_arms() {
    let form = form(
        "int pick(int kind) {\n\
         \tswitch (kind) {\n\
         \tcase 1: return 10;\n\
         \tcase 2: return 20;\n\
         \t}\n\
         \treturn 0;\n\
         }\n",
        "(translation_unit (function_definition type:primitive_type'int'
           declarator:(function_declarator declarator:identifier'pick'
             parameters:(parameter_list '('
               (parameter_declaration type:primitive_type'int' declarator:identifier'kind') ')'))
           body:(compound_statement '{'
             (switch_statement 'switch'
               condition:(parenthesized_expression '(' identifier'kind' ')')
               body:(compound_statement '{'
                 (case_statement 'case' value:number_literal'1' ':'
                   (return_statement 'return' number_literal'10' ';'))
                 (case_statement 'case' value:number_literal'2' ':'
                   (return_statement 'return' number_literal'20' ';')) '}'))
             (return_statement 'return' number_literal'0' ';') '}')))",
        "pick",
    );
    let Form::Sequence(steps) = &form else {
        panic!("expected a sequence, got {form:?}");
    };
    let Form::Select { arms, .. } = &steps[0] else {
        panic!("expected a select, got {:?}", steps[0]);
    };
    assert_eq!(arms.len(), 2);
}

#[test]
fn increment_is_accumulation() {
    let form = form(
        "void bump(int x) { x++; }\n",
        "(translation_unit (function_definition type:primitive_type'void'
           declarator:(function_declarator declarator:identifier'bump'
             parameters:(parameter_list '('
               (parameter_declaration type:primitive_type'int' declarator:identifier'x') ')'))
           body:(compound_statement '{'
             (expression_statement
               (update_expression argument:identifier'x' operator:'++') ';') '}')))",
        "bump",
    );
    let Form::Assign {
        operator, value, ..
    } = &form
    else {
        panic!("expected an assignment, got {form:?}");
    };
    assert_eq!(operator, "+=");
    assert_eq!(*value.as_ref(), Form::Number("1".to_owned()));
}

#[test]
fn goto_stays_opaque() {
    let form = form(
        "void jump(int x) {\n\
         \tif (x)\n\
         \t\tgoto out;\n\
         out:\n\
         \treturn;\n\
         }\n",
        "(translation_unit (function_definition type:primitive_type'void'
           declarator:(function_declarator declarator:identifier'jump'
             parameters:(parameter_list '('
               (parameter_declaration type:primitive_type'int' declarator:identifier'x') ')'))
           body:(compound_statement '{'
             (if_statement 'if'
               condition:(parenthesized_expression '(' identifier'x' ')')
               consequence:(goto_statement 'goto' label:statement_identifier'out' ';'))
             (labeled_statement label:statement_identifier'out' ':'
               (return_statement 'return' ';')) '}')))",
        "jump",
    );
    let Form::Sequence(steps) = &form else {
        panic!("expected a sequence, got {form:?}");
    };
    let Form::Branch { consequence, .. } = &steps[0] else {
        panic!("expected a branch, got {:?}", steps[0]);
    };
    assert!(matches!(consequence.as_ref(), Form::Opaque { kind, .. } if kind == "goto"));
}

#[test]
fn null_is_a_constant_not_a_name() {
    let form = form(
        "int check(char *p) { return p == NULL; }\n",
        "(translation_unit (function_definition type:primitive_type'int'
           declarator:(function_declarator declarator:identifier'check'
             parameters:(parameter_list '('
               (parameter_declaration type:primitive_type'char'
                 declarator:(pointer_declarator '*' declarator:identifier'p')) ')'))
           body:(compound_statement '{'
             (return_statement 'return'
               (binary_expression left:identifier'p' operator:'=='
                 right:(null 'NULL')) ';') '}')))",
        "check",
    );
    let Form::Return(inner) = &form else {
        panic!("expected a return, got {form:?}");
    };
    let Form::Binary { right, .. } = inner.as_ref() else {
        panic!("expected a comparison, got {inner:?}");
    };
    assert_eq!(*right.as_ref(), Form::Constant("NULL".to_owned()));
}

#[test]
fn dialect_rewritten_iterator_macros_normalize_too() {
    // An iterator macro reaches the normalizer as a condition; the body under
    // it still normalizes.
    let source = "void walk(struct string_list *list) {\n\
         \tif                       (item, list) {\n\
         \t\tuse(item);\n\
         \t}\n\
         }\n";
    let root = parse(
        source,
        "(translation_unit (function_definition type:primitive_type'void'
           declarator:(function_declarator declarator:identifier'walk'
             parameters:(parameter_list '('
               (parameter_declaration
                 type:(struct_specifier 'struct' name:type_identifier'string_list')
                 declarator:(pointer_declarator '*' declarator:identifier'list')) ')'))
           body:(compound_statement '{'
             (if_statement 'if'
               condition:(parenthesized_expression '('
                 (comma_expression left:identifier'item' ',' right:identifier'list') ')')
               consequence:(compound_statement '{'
                 (expression_statement
                   (call_expression function:identifier'use'
                     arguments:(argument_list '(' identifier'item' ')')) ';') '}')) '}')))",
    );
    let functions = normalize_file(&root, &source.as_bytes().to_vec());
    assert_eq!(functions.len(), 1);
    assert!(matches!(functions[0].form, Form::Branch { .. }));
}

#[test]
fn a_loop_that_walks_nothing_stays_opaque() {
    let source = "{ while (x) { step(); } }";
    let root = parse(
        source,
        "(compound_statement '{'
           (while_statement 'while' condition:(parenthesized_expression '(' identifier'x' ')')
             body:(compound_statement '{'
               (expression_statement
                 (call_expression function:identifier'step'
                   arguments:(argument_list '(' ')')) ';') '}')) '}')",
    );
    assert_eq!(
        normalize_body(&root, &source.as_bytes().to_vec()).display(),
        "(while (call (path step)))"
    );
}

#[test]
fn a_bare_declarator_binds_its_name() {
    let bare = form(
        "int f(void) { int x; return x; }",
        "(translation_unit (function_definition type:primitive_type'int'
           declarator:(function_declarator declarator:identifier'f'
             parameters:(parameter_list '('
               (parameter_declaration type:primitive_type'void') ')'))
           body:(compound_statement '{'
             (declaration type:primitive_type'int' declarator:identifier'x' ';')
             (return_statement 'return' identifier'x' ';') '}')))",
        "f",
    );
    assert_eq!(bare, Form::Return(Box::new(Form::Local(0))));
    // the name of a type takes no number
    let typed = form(
        "int g(void) { size_t x; return x; }",
        "(translation_unit (function_definition type:primitive_type'int'
           declarator:(function_declarator declarator:identifier'g'
             parameters:(parameter_list '('
               (parameter_declaration type:primitive_type'void') ')'))
           body:(compound_statement '{'
             (declaration type:type_identifier'size_t' declarator:identifier'x' ';')
             (return_statement 'return' identifier'x' ';') '}')))",
        "g",
    );
    assert_eq!(typed, Form::Return(Box::new(Form::Local(0))));
}
