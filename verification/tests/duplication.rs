use infact::duplication::engine::ExactEngine;
use infact::duplication::token::{
    changed_token_count, normalized_token_digest, normalized_token_identity, token_digest,
    tokenize, Normalization, SyntaxToken, TokenClass, TokenizedFile,
};
use infact::duplication::{
    analyze_parsed, analyze_parsed_near, AnalysisDiagnostic, Error, ExactConfig, NearConfig,
    NearEngine,
};
use infact::facts::TokenNormalization;
use infact::analysis::{
    analyze_repository, AnalysisSelection, BehaviorsReport, EffectsReport, FactPackSet,
    Observations, PackContents, ParsedRepository,
};
use infact::syntax::{ParsedFile, Provenance, SyntaxNode, Tokenization};

const KEYWORDS: [&str; 6] = ["fn", "let", "mut", "for", "in", "pub"];

fn node(source: &str, kind: &str, start: usize, end: usize, children: Vec<SyntaxNode>) -> SyntaxNode {
    let row = |at: usize| source[..at].matches('\n').count();
    let column = |at: usize| at - source[..at].rfind('\n').map_or(0, |line| line + 1);
    SyntaxNode {
        kind: kind.to_owned(),
        field: None,
        named: true,
        missing: false,
        start_byte: start,
        end_byte: end,
        start_row: row(start),
        start_column: column(start),
        end_row: row(end),
        end_column: column(end),
        children,
    }
}

/// The tokens of a small piece of Rust, under one function.
fn leaves(source: &str) -> Vec<SyntaxNode> {
    let bytes = source.as_bytes();
    let mut found = Vec::new();
    let mut at = 0;
    while at < bytes.len() {
        let start = at;
        let first = bytes[at];
        if first.is_ascii_whitespace() {
            at += 1;
            continue;
        }
        let kind = if source[at..].starts_with("//") {
            at += source[at..].find('\n').unwrap_or(source.len() - at);
            "line_comment".to_owned()
        } else if first == b'"' {
            at += 2 + source[at + 1..].find('"').unwrap();
            "string_literal".to_owned()
        } else if first.is_ascii_digit() {
            while at < bytes.len() && bytes[at].is_ascii_digit() {
                at += 1;
            }
            "integer_literal".to_owned()
        } else if first.is_ascii_alphabetic() {
            while at < bytes.len() && (bytes[at].is_ascii_alphanumeric() || bytes[at] == b'_') {
                at += 1;
            }
            let word = &source[start..at];
            if KEYWORDS.contains(&word) {
                word.to_owned()
            } else {
                "identifier".to_owned()
            }
        } else {
            at += 1;
            source[start..at].to_owned()
        };
        found.push(node(source, &kind, start, at, Vec::new()));
    }
    found
}

fn parsed(path: &str, source: &str) -> ParsedFile {
    let function = node(source, "function_item", 0, source.len(), leaves(source));
    ParsedFile {
        path: path.to_owned(),
        source: source.as_bytes().to_vec(),
        root: node(source, "source_file", 0, source.len(), vec![function]),
        comparison_domain: "rust".to_owned(),
        tokenization: Tokenization {
            ignored_node_kinds: vec!["line_comment".to_owned()],
            identifier_node_kinds: vec!["identifier".to_owned()],
            literal_node_kinds: vec!["integer_literal".to_owned(), "string_literal".to_owned()],
            unit_node_kinds: vec!["function_item".to_owned()],
        },
        provenance: Provenance {
            source_sha256: "source".to_owned(),
            parser_id: "tree-sitter-rust".to_owned(),
            parser_version: "1".to_owned(),
            grammar_sha256: "grammar".to_owned(),
            queries_sha256: "queries".to_owned(),
        },
    }
}

fn tokenized(path: &str, source: &str) -> TokenizedFile {
    tokenize(parsed(path, source)).unwrap()
}

fn identifier(lexeme: &str) -> SyntaxToken {
    token("identifier", lexeme, TokenClass::Identifier)
}

fn other(lexeme: &str) -> SyntaxToken {
    token(lexeme, lexeme, TokenClass::Other)
}

fn token(kind: &str, lexeme: &str, class: TokenClass) -> SyntaxToken {
    SyntaxToken {
        ordinal: 0,
        kind: kind.to_owned(),
        lexeme: lexeme.as_bytes().to_vec(),
        class,
        start_byte: 0,
        end_byte: 1,
        start_line: 1,
        end_line: 1,
    }
}

#[test]
fn normalization_preserves_identifier_equality_patterns() {
    let repeated = vec![identifier("x"), other("+"), identifier("x")];
    let distinct = vec![identifier("a"), other("+"), identifier("b")];
    let normalization = Normalization {
        identifiers: true,
        literals: false,
    };

    assert_ne!(
        normalized_token_identity(&repeated, normalization),
        normalized_token_identity(&distinct, normalization)
    );
}

#[test]
fn consistent_renaming_keeps_the_identity() {
    let first = vec![identifier("x"), other("+"), identifier("y")];
    let second = vec![identifier("a"), other("+"), identifier("b")];
    let normalization = Normalization { identifiers: true, literals: true };
    assert_eq!(
        normalized_token_identity(&first, normalization),
        normalized_token_identity(&second, normalization)
    );
    assert_eq!(
        normalized_token_digest(&first, normalization),
        normalized_token_digest(&second, normalization)
    );
    assert_ne!(token_digest(&first), token_digest(&second));
    assert_eq!(changed_token_count(&first, &second), 2);
}

#[test]
fn an_identity_is_written_byte_by_byte() {
    let normalization = Normalization { identifiers: true, literals: true };
    let mut expected: Vec<u8> = vec![10, 0, 0, 0, 0, 0, 0, 0];
    expected.extend_from_slice(b"identifieri");
    expected.extend_from_slice(&[0, 0, 0, 0]);
    expected.extend_from_slice(&[1, 0, 0, 0, 0, 0, 0, 0]);
    expected.extend_from_slice(b"+e");
    expected.extend_from_slice(&[1, 0, 0, 0, 0, 0, 0, 0]);
    expected.extend_from_slice(b"+");
    assert_eq!(
        normalized_token_identity(&vec![identifier("x"), other("+")], normalization),
        expected
    );
}

#[test]
fn the_digest_of_no_tokens_is_that_of_no_bytes() {
    assert_eq!(
        token_digest(&Vec::new()),
        "e3b0c44298fc1c149afbf4c8996fb92427ae41e4649b934ca495991b7852b855"
    );
}

#[test]
fn replacing_a_file_retracts_stale_matches() {
    let config = ExactConfig {
        min_tokens: 8,
        min_lines: 2,
    };
    let source = "fn one() {\n    let value = 1;\n    println!(\"{}\", value);\n}";
    let changed = "fn two() {\n    let other = 2;\n    drop(other);\n}";
    let mut incremental = ExactEngine::new(config).unwrap();
    incremental.replace(tokenized("a.rs", source));
    incremental.replace(tokenized("b.rs", source));
    assert!(!incremental.facts().is_empty());

    incremental.replace(tokenized("b.rs", changed));
    let incremental_facts = incremental.facts();

    let mut fresh = ExactEngine::new(config).unwrap();
    fresh.replace(tokenized("a.rs", source));
    fresh.replace(tokenized("b.rs", changed));
    assert_eq!(incremental_facts, fresh.facts());
    assert!(incremental_facts.is_empty());
}

#[test]
fn replacing_a_file_retracts_stale_near_matches() {
    let config = NearConfig {
        min_tokens: 8,
        min_lines: 2,
        normalize_identifiers: true,
        normalize_literals: true,
        max_changed_percent: 100,
    };
    let first = "fn total(values: &[u32]) -> u32 {\n let mut sum = 0;\n for value in values { sum += value; }\n sum\n}";
    let renamed = "fn count(items: &[u32]) -> u32 {\n let mut result = 1;\n for item in items { result += item; }\n result\n}";
    let changed = "fn count(items: &[u32]) -> u32 {\n items.len() as u32\n}";
    let mut incremental = NearEngine::new(config).unwrap();
    incremental.replace(tokenized("a.rs", first));
    incremental.replace(tokenized("b.rs", renamed));
    assert!(!incremental.facts().is_empty());

    incremental.replace(tokenized("b.rs", changed));
    let incremental_facts = incremental.facts();

    let mut fresh = NearEngine::new(config).unwrap();
    fresh.replace(tokenized("a.rs", first));
    fresh.replace(tokenized("b.rs", changed));
    assert_eq!(incremental_facts, fresh.facts());
    assert!(incremental_facts.is_empty());
}

#[test]
fn finds_equal_tokens_despite_comments_and_formatting() {
    let first = "pub fn first(items: &[u32]) -> u32 {\n    let mut total = 0;\n    for item in items {\n        total += item;\n    }\n    total\n}\n";
    let second = "pub fn second(items: &[u32]) -> u32 {\n    // Formatting and comments are not syntax tokens.\n    let mut total=0;\n\n    for item in items\n    {\n        total+=item;\n    }\n    total\n}\n";
    let report = analyze_parsed(
        vec![parsed("src/first.rs", first), parsed("src/second.rs", second)],
        Vec::new(),
        ExactConfig {
            min_tokens: 12,
            min_lines: 4,
        },
    )
    .unwrap();

    assert_eq!(report.files_parsed, 2);
    assert!(report.diagnostics.is_empty(), "{:?}", report.diagnostics);
    assert!(report.clones.iter().any(|fact| {
        fact.value.left.path == "src/first.rs"
            && fact.value.right.path == "src/second.rs"
            && fact.value.tokens >= 12
    }));
}

#[test]
fn finds_consistently_renamed_clones_but_excludes_exact_copies() {
    let prices = "pub fn total_prices(prices: &[u32]) -> u32 {\n    let mut total = 0;\n    for price in prices {\n        total += price * 2;\n    }\n    total\n}\n";
    let scores = "pub fn total_scores(scores: &[u32]) -> u32 {\n    let mut aggregate = 1;\n    for score in scores {\n        aggregate += score * 3;\n    }\n    aggregate\n}\n";
    let report = analyze_parsed_near(
        vec![
            parsed("src/prices.rs", prices),
            parsed("src/prices_copy.rs", prices),
            parsed("src/scores.rs", scores),
        ],
        Vec::new(),
        NearConfig {
            min_tokens: 20,
            min_lines: 5,
            normalize_identifiers: true,
            normalize_literals: true,
            max_changed_percent: 50,
        },
    )
    .unwrap();

    assert_eq!(report.files_parsed, 3);
    assert!(report.diagnostics.is_empty(), "{:?}", report.diagnostics);
    assert!(report.clones.iter().any(|fact| {
        fact.value.left.path == "src/prices.rs"
            && fact.value.right.path == "src/scores.rs"
            && fact.value.changed_tokens > 0
            && fact.value.normalizations.contains(&TokenNormalization::Identifiers)
            && fact.value.normalizations.contains(&TokenNormalization::Literals)
    }));
    assert!(!report.clones.iter().any(|fact| {
        fact.value.left.path == "src/prices.rs" && fact.value.right.path == "src/prices_copy.rs"
    }));
}

#[test]
fn limits_of_zero_are_refused() {
    let refused = analyze_parsed(
        Vec::new(),
        Vec::new(),
        ExactConfig { min_tokens: 0, min_lines: 1 },
    );
    assert_eq!(
        refused,
        Err(Error::InvalidConfig("min-tokens must be greater than zero".to_owned()))
    );
    let refused = analyze_parsed(
        Vec::new(),
        Vec::new(),
        ExactConfig { min_tokens: 1, min_lines: 0 },
    );
    assert_eq!(
        refused.unwrap_err().display(),
        "invalid exact-duplication configuration: min-lines must be greater than zero"
    );
}

#[test]
fn diagnostics_are_handed_through() {
    let diagnostic = AnalysisDiagnostic {
        path: "src/broken.rs".to_owned(),
        message: "did not parse".to_owned(),
    };
    let report =
        analyze_parsed(Vec::new(), vec![diagnostic.clone()], ExactConfig::default()).unwrap();
    assert_eq!(report.files_parsed, 0);
    assert!(report.clones.is_empty());
    assert_eq!(report.diagnostics, vec![diagnostic]);
}

#[test]
fn a_file_does_not_match_its_own_overlap() {
    let mut engine = ExactEngine::new(ExactConfig { min_tokens: 2, min_lines: 1 }).unwrap();
    engine.replace(tokenized("a.rs", "a a a"));
    assert!(engine.facts().is_empty());
    engine.replace(tokenized("a.rs", "fn a() { x + y } fn a() { x + y }"));
    let facts = engine.facts();
    assert_eq!(facts.len(), 1);
    assert_eq!(facts[0].value.tokens, 9);
    assert_eq!(facts[0].derivation.analyzer, "duplication.exact-token");
}

#[test]
fn rows_that_coordinates_cannot_tell_are_refused() {
    let mut file = parsed("far.rs", "a b");
    file.root.children[0].children[1].start_row = u32::MAX as usize;
    file.root.children[0].children[1].end_row = u32::MAX as usize;
    let refused = tokenize(file).unwrap_err();
    assert_eq!(refused, Error::SourceTooLarge { path: "far.rs".to_owned() });
    assert_eq!(refused.display(), "source file far.rs is too large for token coordinates");
}

#[test]
fn near_limits_are_checked_first() {
    let config = NearConfig {
        normalize_identifiers: false,
        normalize_literals: false,
        ..NearConfig::default()
    };
    assert!(matches!(
        NearEngine::new(config),
        Err(Error::InvalidConfig(message))
            if message == "near clones must normalize identifiers, literals, or both"
    ));
    let config = NearConfig { max_changed_percent: 101, ..NearConfig::default() };
    assert!(matches!(
        NearEngine::new(config),
        Err(Error::InvalidConfig(message))
            if message == "max-changed-percent must be between 1 and 100"
    ));
}

#[test]
fn two_spellings_of_a_path_are_one_file() {
    let config = ExactConfig { min_tokens: 2, min_lines: 1 };
    let mut engine = ExactEngine::new(config).unwrap();
    engine.replace(tokenized("src/a.rs", "fn a() { x + y }"));
    engine.replace(tokenized("src//a.rs", "fn a() { x + y }"));
    assert!(engine.facts().is_empty());
    engine.replace(tokenized("src/../a.rs", "fn a() { x + y }"));
    assert_eq!(engine.facts().len(), 1);
}

#[test]
fn near_clones_are_changed_but_not_too_much() {
    let config = NearConfig { min_tokens: 3, min_lines: 1, ..NearConfig::default() };
    let mut engine = NearEngine::new(config).unwrap();
    engine.replace(tokenized("a.rs", "fn a() { one + two + three + four }"));
    engine.replace(tokenized("b.rs", "fn a() { one + two + three + five }"));
    engine.replace(tokenized("c.rs", "fn a() { one + two + three + four }"));
    let facts = engine.facts();
    assert!(!facts.is_empty());
    for fact in &facts {
        assert!(fact.value.changed_tokens > 0);
        assert!(fact.value.changed_tokens * 100 <= fact.value.tokens * 30);
    }
}

#[test]
fn a_repository_is_analyzed_with_the_selected_configuration() {
    let first = "pub fn first(items: &[u32]) -> u32 {\n    let mut total = 0;\n    for item in items {\n        total += item;\n    }\n    total\n}\n";
    let second = "pub fn second(items: &[u32]) -> u32 {\n    let mut total = 0;\n    for item in items {\n        total += item;\n    }\n    total\n}\n";
    let found = |min_tokens: u32| {
        let files = || {
            Ok(ParsedRepository {
                files: vec![parsed("src/first.rs", first), parsed("src/second.rs", second)],
                diagnostics: Vec::new(),
            })
        };
        let observed = Observations {
            effects: Ok(EffectsReport { traces: Vec::new(), diagnostics: Vec::new() }),
            exact_clones: files(),
            near_clones: files(),
            library_behaviors: Ok(BehaviorsReport {
                matches: Vec::new(),
                diagnostics: Vec::new(),
            }),
        };
        let packs = FactPackSet::load(
            &Vec::new(),
            PackContents {
                catalogs: Vec::new(),
                behaviors: Vec::new(),
                macro_behaviors: Vec::new(),
                call_effects: Vec::new(),
            },
        );
        let selection = AnalysisSelection {
            exact_clones: Some(ExactConfig { min_tokens, min_lines: 4 }),
            ..AnalysisSelection::default()
        };
        let batch = analyze_repository(&packs, &Vec::new(), &selection, observed).unwrap();
        assert!(batch.near_clones.is_empty());
        batch.exact_clones.len()
    };
    assert_eq!(found(12), 1);
    assert_eq!(found(1000), 0);
}
