use infact::errors::captures::{document_order, innermost, Capture, QueryMatch, Region};
use infact::errors::collect::DiscardQueries;
use infact::errors::naming::{repository_module, simple_type_name, truncate};
use infact::errors::scaffold::{
    containment_of, ErrorHandlingManifest, Propagation, TestMarkers,
};
use infact::errors::{
    analyze_file, analyze_repository_errors, describes_discards, Error, ParseDiagnostic,
    QueriedFile,
};
use infact::facts::{Certainty, Containment, DiscardForm, ErrorDiscard, Reach};
use infact::syntax::{ParsedFile, Provenance, SyntaxNode, Tokenization};

/// Reads a tree written as text.
///
/// A node is `(kind child ..)`, a named leaf `kind'text'` and a quoted leaf
/// `'text'`; `field:` before a node names the field it fills. The leaves stand
/// in the source in the order in which they are written. A kind may carry what
/// queries capture the node as: `@c` for callables or `@d` for discards, the
/// number of the match, and the capture's name after a colon.
struct Reader<'a> {
    source: &'a str,
    notation: &'a [u8],
    at: usize,
    seen: usize,
    callables: Vec<QueryMatch>,
    discards: Vec<QueryMatch>,
}

impl<'a> Reader<'a> {
    fn blank(&mut self) {
        while self.at < self.notation.len() && self.notation[self.at].is_ascii_whitespace() {
            self.at += 1;
        }
    }

    fn word(&mut self) -> String {
        let start = self.at;
        while self.at < self.notation.len()
            && (self.notation[self.at].is_ascii_alphanumeric() || self.notation[self.at] == b'_')
        {
            self.at += 1;
        }
        String::from_utf8(self.notation[start..self.at].to_vec()).unwrap()
    }

    fn quoted(&mut self) -> String {
        let start = self.at + 1;
        self.at = start;
        while self.notation[self.at] != b'\'' {
            self.at += 1;
        }
        self.at += 1;
        String::from_utf8(self.notation[start..self.at - 1].to_vec()).unwrap()
    }

    fn placed(
        &self,
        kind: String,
        field: Option<String>,
        named: bool,
        start: usize,
        end: usize,
        children: Vec<SyntaxNode>,
    ) -> SyntaxNode {
        let row = |at: usize| self.source[..at].matches('\n').count();
        let column = |at: usize| at - self.source[..at].rfind('\n').map_or(0, |line| line + 1);
        SyntaxNode {
            kind,
            field,
            named,
            missing: false,
            start_byte: start,
            end_byte: end,
            start_row: row(start),
            start_column: column(start),
            end_row: row(end),
            end_column: column(end),
            children,
        }
    }

    fn leaf(&mut self, kind: Option<String>, field: Option<String>) -> SyntaxNode {
        let text = self.quoted();
        let start = self.seen
            + self.source[self.seen..]
                .find(&text)
                .unwrap_or_else(|| panic!("no {text} from {}", self.seen));
        let end = start + text.len();
        self.seen = end;
        let named = kind.is_some();
        self.placed(kind.unwrap_or(text), field, named, start, end, Vec::new())
    }

    fn labels(&mut self, path: &[usize]) {
        while self.notation[self.at] == b'@' {
            let callables = self.notation[self.at + 1] == b'c';
            let number = usize::from(self.notation[self.at + 2] - b'0');
            self.at += 4;
            let start = self.at;
            while self.notation[self.at].is_ascii_lowercase()
                || self.notation[self.at] == b'.'
                || self.notation[self.at] == b'-'
            {
                self.at += 1;
            }
            let name = String::from_utf8(self.notation[start..self.at].to_vec()).unwrap();
            let matches = if callables { &mut self.callables } else { &mut self.discards };
            while matches.len() <= number {
                matches.push(QueryMatch { captures: Vec::new() });
            }
            matches[number].captures.push(Capture { name, path: path.to_vec() });
        }
    }

    fn node(&mut self, path: &mut Vec<usize>) -> SyntaxNode {
        self.blank();
        let mut field = None;
        if self.notation[self.at].is_ascii_alphabetic() {
            let start = self.at;
            let word = self.word();
            if self.notation[self.at] == b':' {
                self.at += 1;
                field = Some(word);
            } else {
                self.at = start;
            }
        }
        match self.notation[self.at] {
            b'(' => {
                self.at += 1;
                let kind = self.word();
                self.labels(path);
                let mut children = Vec::new();
                self.blank();
                while self.notation[self.at] != b')' {
                    path.push(children.len());
                    children.push(self.node(path));
                    path.pop();
                    self.blank();
                }
                self.at += 1;
                let start = children.first().map_or(self.seen, |child: &SyntaxNode| child.start_byte);
                let end = children.last().map_or(self.seen, |child: &SyntaxNode| child.end_byte);
                self.placed(kind, field, true, start, end, children)
            }
            b'\'' => self.leaf(None, field),
            _ => {
                let kind = self.word();
                self.labels(path);
                self.leaf(Some(kind), field)
            }
        }
    }
}

fn names(list: &[&str]) -> Vec<String> {
    list.iter().map(|name| (*name).to_owned()).collect()
}

fn unchecked() -> ErrorHandlingManifest {
    ErrorHandlingManifest {
        propagation: Propagation::Unchecked,
        fallible_types: names(&["Promise"]),
        optional_types: Vec::new(),
        ambiguous_forms: Vec::new(),
        non_failure_results_forms: Vec::new(),
        non_failure_results: Vec::new(),
    }
}

fn declared() -> ErrorHandlingManifest {
    ErrorHandlingManifest {
        propagation: Propagation::Declared,
        fallible_types: names(&["Result"]),
        optional_types: names(&["Option"]),
        ambiguous_forms: names(&["unwrap-or"]),
        non_failure_results_forms: names(&["ok-discard"]),
        non_failure_results: names(&["binary_search"]),
    }
}

fn queried(
    path: &str,
    source: &str,
    notation: &str,
    error_handling: ErrorHandlingManifest,
) -> QueriedFile {
    let mut reader = Reader {
        source,
        notation: notation.as_bytes(),
        at: 0,
        seen: 0,
        callables: Vec::new(),
        discards: Vec::new(),
    };
    let root = reader.node(&mut Vec::new());
    QueriedFile {
        file: ParsedFile {
            path: path.to_owned(),
            source: source.as_bytes().to_vec(),
            root,
            comparison_domain: "language".to_owned(),
            tokenization: Tokenization {
                ignored_node_kinds: Vec::new(),
                identifier_node_kinds: Vec::new(),
                literal_node_kinds: Vec::new(),
                unit_node_kinds: Vec::new(),
            },
            provenance: Provenance {
                source_sha256: "source".to_owned(),
                parser_id: "parser".to_owned(),
                parser_version: "1".to_owned(),
                grammar_sha256: "grammar".to_owned(),
                queries_sha256: "queries".to_owned(),
            },
        },
        query_names: names(&["callables", "discards"]),
        queries: DiscardQueries {
            callables: reader.callables,
            discards: reader.discards,
            error_handling,
            tests: TestMarkers { markers: names(&["#[test]"]), module_markers: Vec::new() },
        },
    }
}

fn discards(source: &str, notation: &str) -> Vec<ErrorDiscard> {
    let queried = queried("source.ts", source, notation, unchecked());
    analyze_file(&queried.file, &queried.queries).expect("analyzing source")
}

fn forms(source: &str, notation: &str) -> Vec<DiscardForm> {
    discards(source, notation).into_iter().map(|found| found.form).collect()
}

#[test]
fn recognizes_a_handler_that_binds_nothing() {
    assert_eq!(
        forms(
            "async function a() { try { await f(); } catch { } }",
            "(program (function_declaration@c0:callable.item 'async' 'function'
               name:identifier@c0:callable.name'a' parameters:(formal_parameters '(' ')')
               body:(statement_block@c0:callable.body '{'
                 (try_statement 'try'
                   body:(statement_block '{' (expression_statement (await_expression 'await'
                     (call_expression@c1:call.site function:identifier@c1:call.callee'f'
                       arguments:(arguments '(' ')'))) ';') '}')
                   handler:(catch_clause@d0:discard.err-arm 'catch'
                     body:(statement_block@d0:discard.err-arm.expression '{' '}'))) '}')))"
        ),
        [DiscardForm::ErrArm]
    );
}

#[test]
fn leaves_a_bound_handler_alone() {
    assert!(forms(
        "async function a() { try { await f(); } catch (error) { report(error); } }",
        "(program (function_declaration@c0:callable.item 'async' 'function'
           name:identifier@c0:callable.name'a' parameters:(formal_parameters '(' ')')
           body:(statement_block@c0:callable.body '{'
             (try_statement 'try'
               body:(statement_block '{' (expression_statement (await_expression 'await'
                 (call_expression function:identifier'f' arguments:(arguments '(' ')'))) ';') '}')
               handler:(catch_clause@d0:discard.err-arm 'catch' '('
                 parameter:identifier@d0:discard.err-arm.bind'error' ')'
                 body:(statement_block '{' (expression_statement
                   (call_expression function:identifier'report'
                     arguments:(arguments '(' identifier'error' ')')) ';') '}'))) '}')))"
    )
    .is_empty());
}

#[test]
fn separates_a_swallowed_rejection_from_a_handled_one() {
    assert_eq!(
        forms(
            "async function a() { await f().catch(() => null); }",
            "(program (function_declaration@c0:callable.item 'async' 'function'
               name:identifier@c0:callable.name'a' parameters:(formal_parameters '(' ')')
               body:(statement_block@c0:callable.body '{'
                 (expression_statement (await_expression 'await'
                   (call_expression@d0:discard.ok-discard
                     function:(member_expression
                       object:(call_expression@d0:discard.ok-discard.expression
                         function:identifier'f' arguments:(arguments '(' ')'))
                       '.' property:property_identifier'catch')
                     arguments:(arguments '(' (arrow_function
                       parameters:(formal_parameters '(' ')') '=>' body:(null 'null')) ')')))
                   ';') '}')))"
        ),
        [DiscardForm::OkDiscard]
    );
    assert!(forms(
        "async function a() { await f().catch((e) => report(e)); }",
        "(program (function_declaration@c0:callable.item 'async' 'function'
           name:identifier@c0:callable.name'a' parameters:(formal_parameters '(' ')')
           body:(statement_block@c0:callable.body '{'
             (expression_statement (await_expression 'await'
               (call_expression@d0:discard.ok-discard
                 function:(member_expression
                   object:(call_expression function:identifier'f' arguments:(arguments '(' ')'))
                   '.' property:property_identifier'catch')
                 arguments:(arguments '(' (arrow_function
                   parameters:(formal_parameters '('
                     identifier@d0:discard.ok-discard.bind'e' ')') '=>'
                   body:(call_expression function:identifier'report'
                     arguments:(arguments '(' identifier'e' ')'))) ')'))) ';') '}')))"
    )
    .is_empty());
}

#[test]
fn recognizes_a_deliberately_discarded_call() {
    assert_eq!(
        forms(
            "async function a() { void f(); }",
            "(program (function_declaration@c0:callable.item 'async' 'function'
               name:identifier@c0:callable.name'a' parameters:(formal_parameters '(' ')')
               body:(statement_block@c0:callable.body '{'
                 (expression_statement (unary_expression@d0:discard.let-underscore
                   operator:'void'
                   argument:(call_expression@d0:discard.let-underscore.expression
                     function:identifier'f' arguments:(arguments '(' ')'))) ';') '}')))"
        ),
        [DiscardForm::LetUnderscore]
    );
    assert!(forms(
        "async function a() { f(); }",
        "(program (function_declaration@c0:callable.item 'async' 'function'
           name:identifier@c0:callable.name'a' parameters:(formal_parameters '(' ')')
           body:(statement_block@c0:callable.body '{'
             (expression_statement (call_expression function:identifier'f'
               arguments:(arguments '(' ')')) ';') '}')))"
    )
    .is_empty());
}

#[test]
fn attributes_a_discard_to_its_class_and_method() {
    let found = discards(
        "class Service { async load() { try { await f(); } catch { } } }",
        "(program (class_declaration@c1:impl.item 'class' name:type_identifier@c1:impl.type'Service'
           body:(class_body '{'
             (method_definition@c0:callable.item 'async'
               name:property_identifier@c0:callable.name'load'
               parameters:(formal_parameters '(' ')')
               body:(statement_block@c0:callable.body '{'
                 (try_statement 'try'
                   body:(statement_block '{' (expression_statement (await_expression 'await'
                     (call_expression function:identifier'f'
                       arguments:(arguments '(' ')'))) ';') '}')
                   handler:(catch_clause@d0:discard.err-arm 'catch'
                     body:(statement_block '{' '}'))) '}')) '}')))",
    );
    assert_eq!(found.len(), 1, "{found:?}");
    assert_eq!(found[0].callable, "source::Service::load");
}

#[test]
fn every_callable_could_have_propagated() {
    let found = discards(
        "function sync(): string { try { f(); } catch { } return \"x\"; }",
        "(program (function_declaration@c0:callable.item@c1:callable.with-return 'function'
           name:identifier@c0:callable.name'sync' parameters:(formal_parameters '(' ')')
           return_type:(type_annotation ':' predefined_type@c1:callable.return'string')
           body:(statement_block@c0:callable.body '{'
             (try_statement 'try'
               body:(statement_block '{' (expression_statement
                 (call_expression function:identifier'f' arguments:(arguments '(' ')')) ';') '}')
               handler:(catch_clause@d0:discard.err-arm 'catch' body:(statement_block '{' '}')))
             (return_statement 'return' (string '\"x\"') ';') '}')))",
    );
    assert_eq!(found.len(), 1, "{found:?}");
    assert_eq!(found[0].containment, Containment::Fallible);
    assert_eq!(found[0].reach, Reach::Local);
    assert_eq!(found[0].certainty, Certainty::Certain);
}

/// Two functions, the second of which calls the first and drops nothing.
const CALLED: &str = "fn low() { let _ = f(); }\nfn high() -> Result<()> { low(); }";
const CALLED_TREE: &str = "(source_file
    (function_item@c0:callable.item 'fn' name:identifier@c0:callable.name'low' '(' ')'
      body:(block@c0:callable.body '{'
        (let_declaration@d0:discard.let-underscore 'let' '_' '='
          value:(call_expression@d0:discard.let-underscore.expression
            function:identifier'f' '(' ')') ';') '}'))
    (function_item@c1:callable.item@c2:callable.with-return 'fn'
      name:identifier@c1:callable.name'high' '(' ')' '->'
      return_type:type@c2:callable.return'Result<()>'
      body:(block@c1:callable.body '{'
        (call_expression@c3:call.site function:identifier@c3:call.callee'low' '(' ')') ';' '}')))";

#[test]
fn a_discard_reaches_the_caller_that_could_have_reported_it() {
    let file = queried("src/jobs.rs", CALLED, CALLED_TREE, declared());
    let found = analyze_file(&file.file, &file.queries).unwrap();
    assert_eq!(found.len(), 1);
    assert_eq!(found[0].callable, "src::jobs::low");
    assert_eq!(found[0].containment, Containment::Infallible);
    assert_eq!(found[0].expression, "f()");
    assert_eq!(found[0].reach, Reach::Ancestor);
    assert_eq!(found[0].path.len(), 1);
    assert_eq!(found[0].path[0].caller, "src::jobs::high");
    assert_eq!(found[0].path[0].callee, "src::jobs::low");
    assert_eq!(found[0].span.start_line, 1);
}

#[test]
fn a_report_covers_every_file_and_settles_its_diagnostics() {
    let file = queried("src/jobs.rs", CALLED, CALLED_TREE, declared());
    let mut silent = queried("src/other.rs", CALLED, CALLED_TREE, declared());
    silent.query_names = names(&["callables"]);
    let report = analyze_repository_errors(
        &vec![silent, file],
        vec![
            ParseDiagnostic { path: "z.rs".to_owned(), message: "broken".to_owned() },
            ParseDiagnostic { path: "a.rs".to_owned(), message: "broken".to_owned() },
            ParseDiagnostic { path: "z.rs".to_owned(), message: "broken".to_owned() },
        ],
    )
    .unwrap();
    assert_eq!(report.discards.len(), 1);
    assert_eq!(report.discards[0].derivation.analyzer, "infact-errors");
    assert_eq!(report.discards[0].derivation.inputs[0].path, "src/jobs.rs");
    let paths: Vec<&str> =
        report.diagnostics.iter().map(|diagnostic| diagnostic.path.as_str()).collect();
    assert_eq!(paths, ["a.rs", "z.rs"]);
}

#[test]
fn a_query_that_is_missing_describes_no_discards() {
    assert!(describes_discards(&names(&["discards", "callables"])));
    assert!(!describes_discards(&names(&["callables"])));
    assert!(!describes_discards(&names(&["discards"])));
}

#[test]
fn a_return_type_decides_where_failure_is_declared() {
    assert_eq!(containment_of(Some("Result<u8>"), &declared()), Containment::Fallible);
    assert_eq!(containment_of(Some("Option<u8>"), &declared()), Containment::Optional);
    assert_eq!(containment_of(Some("u8"), &declared()), Containment::Infallible);
    assert_eq!(containment_of(None, &declared()), Containment::Infallible);
    assert_eq!(containment_of(None, &unchecked()), Containment::Fallible);
}

#[test]
fn the_innermost_region_is_the_shortest_that_covers() {
    let regions = vec![
        Region { start: 0, end: 100 },
        Region { start: 10, end: 50 },
        Region { start: 20, end: 60 },
    ];
    assert_eq!(innermost(&regions, 30), Some(1));
    assert_eq!(innermost(&regions, 55), Some(2));
    assert_eq!(innermost(&regions, 5), Some(0));
    assert_eq!(innermost(&regions, 100), None);
    assert_eq!(document_order(&regions), [0, 1, 2]);
}

#[test]
fn names_are_shortened_for_a_report() {
    assert_eq!(simple_type_name("crate::io::Reader<'a, T>"), "Reader");
    assert_eq!(repository_module("lib.rs"), "crate");
    assert_eq!(repository_module("src/lib.rs"), "src");
    assert_eq!(repository_module("src/jobs/mod.rs"), "src::jobs");
    let long = "x".repeat(90);
    assert_eq!(truncate(&long), format!("{}...", "x".repeat(77)));
    assert_eq!(truncate("a\n   b"), "a b");
}

#[test]
fn errors_read_as_sentences() {
    let error = Error::SourceTooLarge { path: "a.rs".to_owned() };
    assert_eq!(error.display(), "source file a.rs is too large for source coordinates");
    let error = Error::MissingParser { pack: "rust".to_owned() };
    assert_eq!(
        error.display(),
        "no loaded parser for pack rust, whose queries the analysis needs"
    );
}

#[test]
fn rows_that_coordinates_cannot_tell_are_refused_in_a_report() {
    let mut file = queried("src/jobs.rs", CALLED, CALLED_TREE, declared());
    file.file.root.children[0].start_row = u32::MAX as usize;
    file.file.root.children[0].end_row = u32::MAX as usize;
    let refused = analyze_file(&file.file, &file.queries);
    assert!(matches!(refused, Err(Error::SourceTooLarge { path }) if path == "src/jobs.rs"));
}

#[test]
fn a_query_result_is_no_failure() {
    let file = queried(
        "src/find.rs",
        "fn find() { v.binary_search(&x).ok(); }",
        "(source_file (function_item@c0:callable.item 'fn' name:identifier@c0:callable.name'find'
           '(' ')' body:(block@c0:callable.body '{'
             (call_expression@d0:discard.ok-discard
               function:(field_expression value:(call_expression@d0:discard.ok-discard.expression
                   function:(field_expression value:identifier'v' '.'
                     field:field_identifier'binary_search')
                   arguments:(arguments '(' '&' identifier'x' ')'))
                 '.' field:field_identifier'ok')
               arguments:(arguments '(' ')')) ';' '}')))",
        declared(),
    );
    assert!(analyze_file(&file.file, &file.queries).unwrap().is_empty());
}

#[test]
fn a_discard_in_a_test_is_marked() {
    let file = queried(
        "src/check.rs",
        "#[test] fn check() { let _ = f(); }",
        "(source_file
           (attribute_item@c1:attribute.item@c1:attribute.text '#' '[' identifier'test' ']')
           (function_item@c0:callable.item 'fn' name:identifier@c0:callable.name'check' '(' ')'
             body:(block@c0:callable.body '{'
               (let_declaration@d0:discard.let-underscore 'let' '_' '='
                 value:(call_expression@d0:discard.let-underscore.expression
                   function:identifier'f' '(' ')') ';') '}')))",
        declared(),
    );
    let found = analyze_file(&file.file, &file.queries).unwrap();
    assert_eq!(found.len(), 1);
    assert!(found[0].in_test);
    assert_eq!(found[0].reach, Reach::Unknown);
}
