use infact::command::{auth_from, auth_source, AuthSource};
use infact::registry::{
    listed_tags, FactPackRegistry, FactPackRegistryAuth, RegistryError, RegistryLimits,
    RemoteDescriptor, RemoteManifest, RemoteReference,
};

const ARTIFACT: &str = "application/vnd.infact.fact-pack.v1";

#[test]
fn limits_are_bounded_by_default() {
    let limits = RegistryLimits::default();
    assert!(limits.max_manifest_bytes < limits.max_blob_bytes);
    assert!(limits.max_blob_bytes < limits.max_total_bytes);
}

fn remote(digest: &str, size: i64) -> RemoteDescriptor {
    RemoteDescriptor { digest: digest.to_owned(), size, urls: None }
}

fn small() -> FactPackRegistry {
    FactPackRegistry::new(RegistryLimits {
        max_manifest_bytes: 10,
        max_blob_bytes: 20,
        max_total_bytes: 30,
    })
}

#[test]
fn a_blob_is_fetched_once() {
    let places = small()
        .plan_pull(1, Some(ARTIFACT), &vec![remote("a", 5), remote("b", 5), remote("a", 5)])
        .unwrap();
    assert_eq!(places, [0, 1]);
}

#[test]
fn what_exceeds_a_limit_is_not_fetched() {
    let registry = small();
    assert!(matches!(
        registry.plan_pull(1, Some(ARTIFACT), &vec![remote("a", 21)]),
        Err(RegistryError::Limit { limit: 20, .. })
    ));
    assert!(matches!(
        registry.plan_pull(1, Some(ARTIFACT), &vec![remote("a", 20), remote("b", 20)]),
        Err(RegistryError::Limit { limit: 30, .. })
    ));
    assert!(matches!(
        registry.plan_pull(1, Some(ARTIFACT), &vec![remote("a", -1)]),
        Err(RegistryError::InvalidSize { size: -1, .. })
    ));
    assert!(matches!(
        registry.plan_pull(1, Some("application/other"), &Vec::new()),
        Err(RegistryError::ArtifactType(_))
    ));
    assert!(matches!(
        registry.check_manifest(11, "sha256:a", None),
        Err(RegistryError::Limit { limit: 10, .. })
    ));
}

#[test]
fn a_manifest_is_the_one_that_was_asked_for() {
    let registry = FactPackRegistry::default();
    assert!(registry.check_manifest(5, "sha256:a", None).is_ok());
    assert!(registry.check_manifest(5, "sha256:a", Some("sha256:a")).is_ok());
    assert!(matches!(
        registry.check_manifest(5, "sha256:a", Some("sha256:b")),
        Err(RegistryError::DigestMismatch { .. })
    ));
}

#[test]
fn tags_are_listed_in_order_and_once() {
    let tags = ["b", "a", "b"].iter().map(|tag| (*tag).to_owned()).collect();
    assert_eq!(listed_tags(tags), ["a", "b"]);
}

#[test]
fn credentials_come_from_one_place() {
    assert!(matches!(auth_source(None, None, None), Ok(AuthSource::Anonymous)));
    let source = auth_source(Some("me".to_owned()), Some("PASS".to_owned()), None).unwrap();
    assert!(matches!(
        auth_from(source, "secret".to_owned()),
        Ok(FactPackRegistryAuth::Basic { username, password })
            if username == "me" && password == "secret"
    ));
    let source = auth_source(None, None, Some("TOKEN".to_owned())).unwrap();
    assert!(auth_from(source, String::new()).is_err());
    assert!(auth_source(Some("me".to_owned()), None, None).is_err());
}

#[test]
fn rejects_an_invalid_reference_before_network_access() {
    let result = FactPackRegistry::default().reference("not a reference");
    assert!(matches!(
        &result,
        Err(RegistryError::Reference { reference, .. }) if reference == "not a reference"
    ));
    assert_eq!(
        result.unwrap_err().display(),
        "invalid OCI reference not a reference: invalid reference format"
    );
}

#[test]
fn a_reference_names_a_registry_and_a_repository() {
    let registry = FactPackRegistry::default();
    assert_eq!(
        registry.reference("ghcr.io/test/facts:1.93.1-r1").unwrap(),
        RemoteReference {
            registry: "ghcr.io".to_owned(),
            repository: "test/facts".to_owned(),
            tag: Some("1.93.1-r1".to_owned()),
            digest: None,
        }
    );
    assert_eq!(
        registry.reference("facts").unwrap(),
        RemoteReference {
            registry: "docker.io".to_owned(),
            repository: "library/facts".to_owned(),
            tag: Some("latest".to_owned()),
            digest: None,
        }
    );
}

fn wire(artifact: &str) -> Vec<u8> {
    let blob = |digest: &str, size: i64| {
        format!("{{\"mediaType\":\"m\",\"digest\":\"{digest}\",\"size\":{size}}}")
    };
    let config = blob("sha256:c", 5);
    let first = blob("sha256:a", 7);
    let again = blob("sha256:c", 5);
    format!(
        "{{\"schemaVersion\":2,\"artifactType\":\"{artifact}\",\"config\":{config},\
         \"layers\":[{first},{again}]}}"
    )
    .into_bytes()
}

#[test]
fn a_manifest_tells_what_is_downloaded() {
    let registry = FactPackRegistry::default();
    let blobs = registry
        .plan_bytes(&wire(ARTIFACT), "sha256:m", Some("sha256:m"))
        .unwrap();
    let told: Vec<(&str, i64)> =
        blobs.iter().map(|blob| (blob.digest.as_str(), blob.size)).collect();
    assert_eq!(told, [("sha256:c", 5), ("sha256:a", 7)]);
}

#[test]
fn a_manifest_that_is_not_one_is_refused() {
    let registry = FactPackRegistry::default();
    assert!(matches!(
        registry.plan_bytes(&b"{}".to_vec(), "sha256:m", None),
        Err(RegistryError::ManifestJson(_))
    ));
    assert!(matches!(
        registry.plan_bytes(&wire("application/other"), "sha256:m", None),
        Err(RegistryError::ArtifactType(kind)) if kind == "application/other"
    ));
    assert!(matches!(
        registry.plan_bytes(&wire(ARTIFACT), "sha256:m", Some("sha256:n")),
        Err(RegistryError::DigestMismatch { expected, actual })
            if expected == "sha256:n" && actual == "sha256:m"
    ));
    assert!(matches!(
        small().plan_bytes(&wire(ARTIFACT), "sha256:m", None),
        Err(RegistryError::Limit { limit: 10, .. })
    ));
}

#[test]
fn a_manifest_that_was_read_is_planned_alike() {
    let manifest = |artifact_type: Option<&str>| RemoteManifest {
        artifact_type: artifact_type.map(str::to_owned),
        config: remote("c", 5),
        layers: vec![remote("a", 7), remote("c", 5)],
    };
    let blobs = small().plan_manifest(10, manifest(Some(ARTIFACT))).unwrap();
    assert_eq!(blobs.len(), 2);
    assert_eq!(blobs[1].digest, "a");
    assert!(matches!(
        small().plan_manifest(10, manifest(None)),
        Err(RegistryError::ArtifactType(kind)) if kind == "<missing>"
    ));
    assert!(matches!(
        small().plan_manifest(14, manifest(Some(ARTIFACT))),
        Err(RegistryError::Limit { limit: 30, .. })
    ));
}
