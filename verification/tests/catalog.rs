use infact::catalog::json::{parse_json, Json};
use infact::catalog::{build_catalog, catalog_document, CatalogRequest, Error};
use infact::external::{CallableContainer, ExternalBound, ExternalType};

const DOCUMENT: &str = r#"{
    "format_version": 60,
    "index": {
        "1": {
            "name": "ExampleTools",
            "inner": {"trait": {"items": [2]} }
        },
        "2": {
            "name": "render",
            "inner": {"function": {
                "sig": {
                    "inputs": [
                        ["self", {"generic": "Self"}],
                        ["separator", {"borrowed_ref": {
                            "is_mutable": false,
                            "type": {"primitive": "str"}
                        }}]
                    ],
                    "output": {"resolved_path": {"path": "String", "args": null}}
                },
                "generics": {"where_predicates": []}
            }}
        },
        "3": {
            "name": "render_all",
            "inner": {"function": {
                "sig": {
                    "inputs": [["value", {"primitive": "str"}]],
                    "output": {"resolved_path": {"path": "String", "args": null}}
                },
                "generics": {"where_predicates": []}
            }}
        }
    },
    "paths": {
        "1": {"path": ["example", "ExampleTools"]},
        "3": {"path": ["example", "render_all"]}
    }
}"#;

fn built(document: &str) -> Result<infact::external::ExternalCatalog, Error> {
    let source = document.as_bytes().to_vec();
    build_catalog(CatalogRequest {
        package: "example",
        version: "1.2.3",
        rustdoc_json: &source,
    })
}

#[test]
fn extracts_trait_methods_and_free_functions() {
    let catalog = built(DOCUMENT).unwrap();

    assert_eq!(catalog.rustdoc_format, 60);
    assert_eq!(catalog.callables.len(), 2);
    assert_eq!(catalog.callables[0].path, "example::ExampleTools::render");
    assert!(matches!(
        catalog.callables[0].signature.as_ref().unwrap().output,
        Some(ExternalType::Path { ref path, .. }) if path == "String"
    ));
    assert_eq!(catalog.callables[1].path, "example::render_all");
    assert_eq!(
        catalog.callables[1].container,
        CallableContainer::Module {
            path: "example".to_owned()
        }
    );
}

#[test]
fn a_catalog_carries_the_digest_of_its_source() {
    let catalog = built(r#"{"format_version":1,"index":{},"paths":{}}"#).unwrap();
    assert_eq!(catalog.package, "example");
    assert_eq!(catalog.version, "1.2.3");
    assert_eq!(catalog.source_sha256.len(), 64);
    assert!(catalog.callables.is_empty());
    let other = built(r#"{"format_version":1,"index":{},"paths":{} }"#).unwrap();
    assert_ne!(catalog.source_sha256, other.source_sha256);
}

#[test]
fn a_document_that_lacks_a_part_is_refused() {
    assert!(matches!(built("{"), Err(Error::Json(_))));
    assert!(matches!(built("{}"), Err(Error::Invalid("format_version"))));
    assert!(matches!(built(r#"{"format_version":1}"#), Err(Error::Missing("index"))));
    assert!(matches!(
        built(r#"{"format_version":"x","index":{},"paths":{}}"#),
        Err(Error::Invalid(_))
    ));
    assert!(built("{}").unwrap_err().display().contains("format_version"));
}

#[test]
fn parameters_and_bounds_are_read() {
    let document = r#"{
        "format_version": 60,
        "index": {"1": {"name": "pick", "inner": {"function": {
            "sig": {
                "inputs": [["items", {"slice": {"generic": "T"}}],
                           ["both", {"tuple": [{"primitive": "u8"}, {"primitive": "u8"}]}]],
                "output": null
            },
            "generics": {"where_predicates": [{"bound_predicate": {
                "type": {"generic": "T"},
                "bounds": [{"trait_bound": {"trait": {"path": "Ord"}}}]
            }}]}
        }}}},
        "paths": {"1": {"path": ["example", "pick"]}}
    }"#;
    let catalog = built(document).unwrap();
    let signature = catalog.callables[0].signature.as_ref().unwrap();
    assert_eq!(signature.inputs[0].name, "items");
    assert!(matches!(signature.inputs[0].ty, ExternalType::Slice { .. }));
    assert!(matches!(
        signature.inputs[1].ty,
        ExternalType::Tuple { ref elements } if elements.len() == 2
    ));
    assert!(signature.output.is_none());
    assert_eq!(signature.requirements.len(), 1);
    assert_eq!(
        signature.requirements[0].bounds,
        vec![ExternalBound::Trait { path: "Ord".to_owned() }]
    );
}

#[test]
fn json_keeps_what_was_written() {
    let text = r#"{"b":[1,-2,1.5,null,true],"a":"\"x\"\n"}"#;
    let json = parse_json(&text.as_bytes().to_vec()).unwrap();
    assert!(json.is_object());
    assert_eq!(json.get("a").and_then(Json::as_str), Some("\"x\"\n"));
    let list = json.get("b").and_then(Json::as_list).unwrap();
    assert_eq!(list.len(), 5);
    assert_eq!(list[0].natural(), Some(1));
    assert_eq!(list[1].natural(), None);
    assert_eq!(list[2].natural(), None);
    assert_eq!(json.compact(), r#"{"a":"\"x\"\n","b":[1,-2,1.5,null,true]}"#);
    assert!(parse_json(&b"[1,".to_vec()).is_err());
}

#[test]
fn a_parsed_document_is_read_without_its_bytes() {
    let json = parse_json(&DOCUMENT.as_bytes().to_vec()).unwrap();
    let (format, callables) = catalog_document(&json, "example").unwrap();
    assert_eq!(format, 60);
    assert_eq!(callables.len(), 2);
    let (_, elsewhere) = catalog_document(&json, "another").unwrap();
    assert_eq!(elsewhere.len(), 1);
    assert_eq!(elsewhere[0].path, "example::ExampleTools::render");
}

#[test]
fn a_text_is_written_with_escapes() {
    let plain = "a\\/é\u{8}\t\n\u{c}\r\u{1}\u{1f}\u{7f}\"";
    assert_eq!(
        Json::Text(plain.to_owned()).compact(),
        "\"a\\\\/é\\b\\t\\n\\f\\r\\u0001\\u001f\u{7f}\\\"\""
    );
}
