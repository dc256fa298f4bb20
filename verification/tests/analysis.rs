use infact::analysis::{
    analyze_repository, content_kind, gathered, AnalysisSelection, BehaviorsReport, ContentKind,
    EffectsReport, Error, FactPackSet, FileDiagnostic, Observations, PackContents,
    ParsedRepository, Reports,
};
use infact::duplication::{AnalysisDiagnostic, AnalysisReport, ExactConfig, NearConfig};
use infact::fact_pack::cache::CachedFactPack;
use infact::fact_pack::manifest::{
    Compatibility, Derivation, FactPackManifest, Subject, SubjectKind, FACT_PACK_SCHEMA,
};
use infact::fact_pack::names::NameSet;
use infact::facts::{CallEffectCatalog, CallEffects, Effect};

fn names(list: &[&str]) -> NameSet {
    NameSet::from_names(list.iter().map(|name| (*name).to_owned()).collect())
}

fn pack(name: &str, revision: u32, provides: &[&str], requires: &[&str]) -> CachedFactPack {
    CachedFactPack {
        manifest: FactPackManifest {
            schema: FACT_PACK_SCHEMA,
            name: name.to_owned(),
            revision,
            subject: Subject {
                kind: SubjectKind::Language,
                language: "rust".to_owned(),
                ecosystem: None,
                name: "rust".to_owned(),
                version: "1.93.1".to_owned(),
            },
            sources: Vec::new(),
            derivation: Derivation {
                generator: "infact".to_owned(),
                generator_version: "0.0.0".to_owned(),
                analyzer_sha256: String::new(),
            },
            compatibility: Compatibility::default(),
            provides: names(provides),
            requires: names(requires),
            contents: Vec::new(),
        },
        manifest_digest: String::new(),
        config_digest: String::new(),
        contents: Vec::new(),
    }
}

fn effects(version: &str) -> CallEffectCatalog {
    CallEffectCatalog {
        schema: 1,
        language: "rust".to_owned(),
        version: version.to_owned(),
        calls: vec![CallEffects {
            path: "std::fs::write".to_owned(),
            effects: vec![Effect::FileWrite],
            evidence: Vec::new(),
        }],
    }
}

fn contents() -> PackContents {
    PackContents {
        catalogs: Vec::new(),
        behaviors: Vec::new(),
        macro_behaviors: Vec::new(),
        call_effects: vec![effects("2"), effects("1")],
    }
}

fn unparsed(path: &str, message: &str) -> AnalysisDiagnostic {
    AnalysisDiagnostic { path: path.to_owned(), message: message.to_owned() }
}

fn note(path: &str, line: u32, message: &str) -> FileDiagnostic {
    FileDiagnostic { path: path.to_owned(), line, message: message.to_owned() }
}

fn observed() -> Observations {
    Observations {
        effects: Ok(EffectsReport {
            traces: Vec::new(),
            diagnostics: vec![note("b.rs", 7, "x"), note("b.rs", 7, "x")],
        }),
        exact_clones: Ok(ParsedRepository {
            files: Vec::new(),
            diagnostics: vec![unparsed("a.rs", "y")],
        }),
        near_clones: Ok(ParsedRepository {
            files: Vec::new(),
            diagnostics: vec![unparsed("a.rs", "y")],
        }),
        library_behaviors: Ok(BehaviorsReport {
            matches: Vec::new(),
            diagnostics: vec![unparsed("c.rs", "z")],
        }),
    }
}

fn everything() -> AnalysisSelection {
    AnalysisSelection {
        exact_clones: Some(ExactConfig::default()),
        near_clones: Some(NearConfig::default()),
        library_behaviors: true,
        call_effects: true,
    }
}

fn told(set: &FactPackSet, selection: &AnalysisSelection) -> Vec<(String, String, u32)> {
    analyze_repository(set, &Vec::new(), selection, observed())
        .unwrap()
        .diagnostics
        .into_iter()
        .map(|note| (note.path, note.analyzer, note.line))
        .collect()
}

fn line(path: &str, analyzer: &str, line: u32) -> (String, String, u32) {
    (path.to_owned(), analyzer.to_owned(), line)
}

#[test]
fn a_set_holds_what_its_packs_offer_in_order() {
    let set = FactPackSet::load(
        &vec![
            pack("rust-itertools", 2, &["rust.library-behaviors"], &[]),
            pack("rust-core", 1, &["rust.call-effects"], &[]),
            pack("rust-itertools", 1, &[], &[]),
        ],
        contents(),
    );
    let held: Vec<(&str, u32)> = set
        .manifests()
        .iter()
        .map(|manifest| (manifest.name.as_str(), manifest.revision))
        .collect();
    assert_eq!(held, [("rust-core", 1), ("rust-itertools", 1), ("rust-itertools", 2)]);
    assert!(set.capabilities().contains(&"rust.call-effects".to_owned()));
    assert!(!set.capabilities().contains(&"rust.types".to_owned()));
    let versions: Vec<&str> =
        set.call_effects().iter().map(|catalog| catalog.version.as_str()).collect();
    assert_eq!(versions, ["1", "2"]);
    assert!(set
        .call_effects()
        .iter()
        .any(|catalog| catalog.calls.iter().any(|call| call.path == "std::fs::write")));
}

#[test]
fn what_a_pack_requires_has_to_be_available() {
    let set = FactPackSet::load(
        &vec![pack("rust-core", 1, &["rust.call-effects"], &["rust.syntax-tree"])],
        contents(),
    );
    assert!(set.validate_runtime(&vec!["c".to_owned(), "rust".to_owned()]).is_ok());
    let refused = set.validate_runtime(&vec!["c".to_owned()]);
    assert!(matches!(
        refused,
        Err(Error::MissingCapability { pack, capability })
            if pack == "rust-core" && capability == "rust.syntax-tree"
    ));
    assert!(matches!(
        analyze_repository(&set, &Vec::new(), &everything(), observed()),
        Err(Error::MissingCapability { .. })
    ));
}

#[test]
fn reports_are_put_together_with_settled_diagnostics() {
    let set = FactPackSet::load(&Vec::new(), contents());
    let batch = gathered(
        &set,
        Reports {
            effects: Some(EffectsReport {
                traces: Vec::new(),
                diagnostics: vec![note("b.rs", 7, "x"), note("b.rs", 7, "x")],
            }),
            exact_clones: Some(AnalysisReport {
                files_parsed: 0,
                clones: Vec::new(),
                diagnostics: vec![unparsed("a.rs", "y")],
            }),
            near_clones: None,
            library_behaviors: None,
        },
    );
    assert!(batch.exact_clones.is_empty());
    assert!(batch.library_behaviors.is_empty());
    let held: Vec<(&str, u32, &str)> = batch
        .diagnostics
        .iter()
        .map(|note| (note.path.as_str(), note.line, note.analyzer.as_str()))
        .collect();
    assert_eq!(held, [("a.rs", 1, "exact-clones"), ("b.rs", 7, "effects")]);
}

#[test]
fn effects_come_with_what_the_packs_know_of_them() {
    let set = FactPackSet::load(&Vec::new(), contents());
    let batch = analyze_repository(&set, &Vec::new(), &everything(), observed()).unwrap();
    assert_eq!(&batch.call_effects, set.call_effects());
    assert_eq!(batch.call_effects, [effects("1"), effects("2")]);
    let without = AnalysisSelection { call_effects: false, ..everything() };
    let batch = analyze_repository(&set, &Vec::new(), &without, observed()).unwrap();
    assert!(batch.call_effects.is_empty());
    assert!(batch.effect_traces.is_empty());
}

#[test]
fn only_what_is_selected_is_told() {
    let set = FactPackSet::load(&Vec::new(), contents());
    assert_eq!(
        told(&set, &everything()),
        [
            line("a.rs", "exact-clones", 1),
            line("a.rs", "near-clones", 1),
            line("b.rs", "effects", 7),
            line("c.rs", "library-behaviors", 1),
        ]
    );
    assert!(told(&set, &AnalysisSelection::default()).is_empty());
    let near = AnalysisSelection {
        near_clones: Some(NearConfig::default()),
        ..AnalysisSelection::default()
    };
    assert_eq!(told(&set, &near), [line("a.rs", "near-clones", 1)]);
    let behaviors = AnalysisSelection { library_behaviors: true, ..AnalysisSelection::default() };
    assert_eq!(told(&set, &behaviors), [line("c.rs", "library-behaviors", 1)]);
}

#[test]
fn the_first_selected_analysis_that_fails_is_told() {
    let set = FactPackSet::load(&Vec::new(), contents());
    let failing = || Observations {
        effects: Err(Error::RustEffects("effects".to_owned())),
        exact_clones: Err(infact::duplication::Error::ParserCatalog("exact".to_owned())),
        near_clones: Err(infact::duplication::Error::ParserCatalog("near".to_owned())),
        library_behaviors: Err(Error::RustBehaviors("behaviors".to_owned())),
    };
    let mut selection = everything();
    assert!(matches!(
        analyze_repository(&set, &Vec::new(), &selection, failing()),
        Err(Error::RustEffects(_))
    ));
    selection.call_effects = false;
    assert!(matches!(
        analyze_repository(&set, &Vec::new(), &selection, failing()),
        Err(Error::Duplication(infact::duplication::Error::ParserCatalog(message)))
            if message == "exact"
    ));
    selection.exact_clones = None;
    assert!(matches!(
        analyze_repository(&set, &Vec::new(), &selection, failing()),
        Err(Error::Duplication(infact::duplication::Error::ParserCatalog(message)))
            if message == "near"
    ));
    selection.near_clones = None;
    assert!(matches!(
        analyze_repository(&set, &Vec::new(), &selection, failing()),
        Err(Error::RustBehaviors(_))
    ));
    selection.library_behaviors = false;
    assert!(analyze_repository(&set, &Vec::new(), &selection, failing()).is_ok());
}

#[test]
fn a_selected_configuration_is_held_to_its_rules() {
    let set = FactPackSet::load(&Vec::new(), contents());
    let selection = AnalysisSelection {
        exact_clones: Some(ExactConfig { min_tokens: 0, min_lines: 5 }),
        ..AnalysisSelection::default()
    };
    assert!(matches!(
        analyze_repository(&set, &Vec::new(), &selection, observed()),
        Err(Error::Duplication(infact::duplication::Error::InvalidConfig(_)))
    ));
}

#[test]
fn contents_are_told_apart_by_their_kind() {
    assert_eq!(content_kind("callable-signatures"), ContentKind::CallableSignatures);
    assert_eq!(content_kind("library-behavior"), ContentKind::LibraryBehavior);
    assert_eq!(content_kind("macro-behavior"), ContentKind::MacroBehavior);
    assert_eq!(content_kind("call-effects"), ContentKind::CallEffects);
    assert_eq!(content_kind("types"), ContentKind::Other);
}
