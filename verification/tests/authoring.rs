use infact::authoring::{
    accept_unread, account_line, build_subject, catalog_offering, check_compiler, check_paths,
    derived_line, effects_line, function_text, is_wanted, library_line, reason_line,
    unread_names,
};
use infact::external::{CallableContainer, ExternalCallable, ExternalCatalog};

fn names(list: &[&str]) -> Vec<String> {
    list.iter().map(|name| (*name).to_owned()).collect()
}

#[test]
fn only_the_core_of_the_language_is_built() {
    assert_eq!(build_subject("cargo", "core"), Ok(()));
    assert_eq!(
        build_subject("cargo", "itertools"),
        Err(
            "Infact-pack authoring is not implemented for cargo/itertools; supported package is \
             cargo/core"
                .to_owned()
        )
    );
    assert_eq!(
        build_subject("npm", "core"),
        Err("Infact-pack authoring is not implemented for npm; supported ecosystem is cargo"
            .to_owned())
    );
}

#[test]
fn the_compiler_is_the_one_asked_for() {
    assert_eq!(check_compiler("1.93.1", "1.93.1"), Ok(()));
    assert_eq!(
        check_compiler("1.93.1", "1.92.0"),
        Err("requested rust-core 1.93.1, but the active compiler is 1.92.0".to_owned())
    );
}

fn catalog(version: &str, path: &str) -> ExternalCatalog {
    ExternalCatalog {
        schema: 1,
        package: "p".to_owned(),
        version: version.to_owned(),
        rustdoc_format: 60,
        source_sha256: String::new(),
        callables: vec![ExternalCallable {
            path: path.to_owned(),
            container: CallableContainer::Module { path: "p".to_owned() },
            signature: None,
        }],
    }
}

#[test]
fn the_first_catalog_that_offers_a_callable_is_taken() {
    let catalogs = vec![catalog("1", "p::a"), catalog("2", "p::b"), catalog("3", "p::b")];
    assert_eq!(catalog_offering(&catalogs, "p::b").unwrap().version, "2");
    assert_eq!(
        catalog_offering(&catalogs, "p::c").unwrap_err(),
        "no external catalog contains p::c"
    );
}

#[test]
fn holes_are_named_and_refused() {
    let unread = unread_names(names(&["a.ts"]), &names(&["load"]));
    assert_eq!(unread, names(&["a.ts", "load: the parser could not read it whole"]));
    assert_eq!(accept_unread(&unread, true), Ok(()));
    assert_eq!(accept_unread(&Vec::new(), false), Ok(()));
    assert_eq!(
        accept_unread(&unread, false),
        Err("2 holes in what could be read, so anything they cover is missing from this pack; \
             add a rewrite in entl-tree-sitter's dialect module, or pass --allow-unread to accept \
             the gap"
            .to_owned())
    );
}

#[test]
fn paths_are_asked_for_where_they_are_needed() {
    assert_eq!(check_paths(0, "catalog", false), Ok(()));
    assert_eq!(check_paths(1, "catalog", true), Ok(()));
    assert_eq!(
        check_paths(0, "catalog", true),
        Err("no catalog paths configured".to_owned())
    );
}

#[test]
fn functions_are_shown_by_name() {
    assert!(is_wanted("load_all", None));
    assert!(is_wanted("load_all", Some("load")));
    assert!(!is_wanted("load_all", Some("store")));
    assert_eq!(
        function_text("a.rs", 3, "load", "f0", "f1"),
        "a.rs:3  load\n  as written: f0\n  simplified: f1"
    );
}

#[test]
fn counts_are_told_in_columns() {
    assert_eq!(reason_line("no body", 12), "      12  no body");
    assert_eq!(reason_line("no body", 1234567), "  1234567  no body");
    assert_eq!(account_line(7, "unknown"), "     7 unknown");
    assert_eq!(
        effects_line(3, 20, 2),
        "3 effectful public APIs from 20 public callables; 2 direct seeds"
    );
    assert_eq!(
        library_line("p", "1", 4, 2),
        "p 1  4 public callables  2 behaviors"
    );
    assert_eq!(
        derived_line("p::a", 9, &names(&["p::a", "p::b"])),
        "p::a  size 9  from p::a -> p::b"
    );
}
