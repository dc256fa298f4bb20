use infact::fact_pack::cache::{
    check_described, check_marker, decode_config, decode_layout, decode_manifest, digest_hex,
    verify_digest, Blob, CacheError, CachedFactPack,
};
use infact::fact_pack::importing::{artifact_plan, layout_plan, ImportStep};
use infact::fact_pack::keeping::{
    layout_files, prepare_output, store_step, OutputState, StoreStep,
};
use infact::fact_pack::layout::{
    build_oci_layout, layout_index, layout_marker, OciLayout, OciManifest,
};
use infact::fact_pack::lock::{requirement_digest, FactPackLock, FactPackLockError};
use infact::fact_pack::manifest::{
    sha256, Compatibility, Compiler, Content, Derivation, FactPackManifest, ManifestError,
    SourceInput, SourceKind, Subject, SubjectKind, Target, FACT_PACK_SCHEMA,
};
use infact::fact_pack::names::NameSet;
use infact::fact_pack::requirement::FactPackRequirement;
use infact::fact_pack::store::{Downloaded, FactPackCache, RootState};
use infact::fact_pack::tree::{source_tree_sha256, tree_step, EntryKind, EntryStep, SourceFile};

const ZERO: &str = "sha256:0000000000000000000000000000000000000000000000000000000000000000";
const ONE: &str = "sha256:1111111111111111111111111111111111111111111111111111111111111111";

fn names(list: &[&str]) -> NameSet {
    NameSet::from_names(list.iter().map(|name| (*name).to_owned()).collect())
}

fn manifest() -> FactPackManifest {
    FactPackManifest {
        schema: FACT_PACK_SCHEMA,
        name: "rust-itertools".to_owned(),
        revision: 1,
        subject: Subject {
            kind: SubjectKind::Library,
            language: "rust".to_owned(),
            ecosystem: Some("cargo".to_owned()),
            name: "itertools".to_owned(),
            version: "0.15.0".to_owned(),
        },
        sources: vec![SourceInput {
            kind: SourceKind::Package,
            name: "itertools".to_owned(),
            version: "0.15.0".to_owned(),
            sha256: ZERO.to_owned(),
        }],
        derivation: Derivation {
            generator: "infact".to_owned(),
            generator_version: "0.0.0".to_owned(),
            analyzer_sha256: ONE.to_owned(),
        },
        compatibility: Compatibility {
            compiler: Some(Compiler {
                name: "rustc".to_owned(),
                version: "1.93.1".to_owned(),
                commit: Some("abc123".to_owned()),
            }),
            target: Some(Target {
                triple: "aarch64-apple-darwin".to_owned(),
                cpu: Some("apple-m2".to_owned()),
                features: names(&["neon"]),
                cfg: names(&["target-pointer-width=64"]),
            }),
            package_features: names(&["use-std"]),
        },
        provides: names(&["rust.call-effects", "rust.library-behaviors"]),
        requires: names(&["rust.syntax-tree"]),
        contents: vec![Content {
            path: "behaviors/counts.json".to_owned(),
            kind: "library-behavior".to_owned(),
            media_type: "application/vnd.infact.library-behavior.v1+json".to_owned(),
            sha256: ZERO.to_owned(),
        }],
    }
}

/// A pack whose one content is `{}` and a newline.
fn fixture(name: &str, revision: u32) -> FactPackManifest {
    let mut pack = manifest();
    pack.name = name.to_owned();
    pack.revision = revision;
    pack.compatibility = Compatibility::default();
    pack.contents[0].sha256 = sha256(&b"{}\n".to_vec());
    pack
}

fn text_of(pack: &FactPackManifest) -> String {
    format!("name = {:?}\nrevision = {}\n", pack.name, pack.revision)
}

fn bytes_of(artifact: &OciManifest) -> Vec<u8> {
    format!("{} {}", artifact.config.digest, artifact.layers.len()).into_bytes()
}

/// The blobs of a pack's layout: its config, its contents and its manifest.
fn blobs(pack: &FactPackManifest, artifact: &OciManifest) -> Vec<Blob> {
    vec![
        Blob {
            digest: artifact.config.digest.clone(),
            bytes: Ok(text_of(pack).into_bytes()),
        },
        Blob {
            digest: pack.contents[0].sha256.clone(),
            bytes: Ok(b"{}\n".to_vec()),
        },
    ]
}

fn built(pack: &FactPackManifest) -> OciManifest {
    build_oci_layout(pack, &text_of(pack).into_bytes(), &vec![b"{}\n".to_vec()]).unwrap()
}

fn imported(pack: &FactPackManifest) -> Result<CachedFactPack, CacheError> {
    let artifact = built(pack);
    let (index, layout) = layout_index(pack, &artifact, &bytes_of(&artifact));
    let descriptor = decode_layout(&layout_marker(), &index)?;
    assert_eq!(descriptor.digest, layout.manifest_digest);
    let blobs = blobs(pack, &artifact);
    let config = decode_config(&artifact, &blobs)?;
    decode_manifest(
        &artifact,
        &descriptor.digest,
        &config,
        pack.clone(),
        &text_of(pack),
        "cache/blobs/sha256",
        &blobs,
    )
}

#[test]
fn compatibility_is_exact() {
    let manifest = manifest();
    assert!(manifest.is_compatible_with(&manifest.compatibility));
    let mut other = manifest.compatibility.clone();
    other.package_features.insert("serde".to_owned());
    assert!(!manifest.is_compatible_with(&other));
}

#[test]
fn rejects_unsafe_and_unsorted_contents() {
    let mut manifest = manifest();
    manifest.contents = vec![
        Content {
            path: "types/z.json".to_owned(),
            kind: "type-facts".to_owned(),
            media_type: "application/vnd.infact.types.v1+json".to_owned(),
            sha256: ZERO.to_owned(),
        },
        Content {
            path: "../secret".to_owned(),
            kind: "type-facts".to_owned(),
            media_type: "application/vnd.infact.types.v1+json".to_owned(),
            sha256: ZERO.to_owned(),
        },
    ];
    let error = manifest.validate().unwrap_err().display();
    assert!(error.contains("normalized relative path"));
    assert!(error.contains("sorted by unique path"));
}

#[test]
fn library_requires_an_ecosystem() {
    let mut manifest = manifest();
    manifest.subject.ecosystem = None;
    assert!(
        manifest
            .validate()
            .unwrap_err()
            .display()
            .contains("ecosystem is required")
    );
}

#[test]
fn a_well_formed_manifest_is_accepted() {
    assert!(manifest().validate().is_ok());
}

#[test]
fn verifies_content_digests() {
    let mut manifest = manifest();
    let contents = vec![b"{}\n".to_vec()];
    manifest.contents[0].sha256 = sha256(&b"{}\n".to_vec());
    manifest.verify_contents(&contents).unwrap();
    manifest.contents[0].sha256 = ZERO.to_owned();
    let error = manifest
        .verify_contents(&contents)
        .unwrap_err()
        .display();
    assert!(error.contains("has digest"));
}

#[test]
fn a_digest_is_that_of_the_bytes() {
    assert_eq!(
        sha256(&b"{}\n".to_vec()),
        "sha256:ca3d163bab055381827226140568f3bef7eaac187cebd76878e0b63e9e442356"
    );
}

#[test]
fn builds_a_deterministic_oci_layout() {
    let mut manifest = manifest();
    manifest.contents[0].sha256 = sha256(&b"{}\n".to_vec());

    let artifact = built(&manifest);
    let (index, first_build) = layout_index(&manifest, &artifact, &bytes_of(&artifact));
    assert_eq!(index.schema_version, 2);
    assert_eq!(index.manifests[0].digest, first_build.manifest_digest);
    assert!(index.manifests[0].has_annotation("org.opencontainers.image.ref.name", "0.15.0-r1"));

    let again = built(&manifest);
    let (second_index, second_build) = layout_index(&manifest, &again, &bytes_of(&again));
    assert_eq!(first_build.manifest_digest, second_build.manifest_digest);
    assert_eq!(first_build.config_digest, second_build.config_digest);
    assert_eq!(index.manifests[0].digest, second_index.manifests[0].digest);
    assert_eq!(artifact.layers[0].digest, manifest.contents[0].sha256);
    assert_eq!(artifact.layers[0].size, 3);
}

#[test]
fn a_layout_of_other_contents_is_not_built() {
    let mut manifest = manifest();
    manifest.contents[0].sha256 = sha256(&b"{}\n".to_vec());
    let refused = build_oci_layout(&manifest, &b"config".to_vec(), &vec![b"[]\n".to_vec()]);
    assert!(matches!(refused, Err(ManifestError::ContentDigest { .. })));
}

fn file(path: &str, bytes: &[u8]) -> SourceFile {
    SourceFile { path: path.to_owned(), bytes: bytes.to_vec() }
}

#[test]
fn source_tree_hash_uses_paths_and_contents() {
    let first = source_tree_sha256(vec![
        file("Cargo.toml", b"[package]\n"),
        file("src/lib.rs", b"pub fn one() {}\n"),
    ]);
    let second = source_tree_sha256(vec![
        file("src/lib.rs", b"pub fn one() {}\n"),
        file("Cargo.toml", b"[package]\n"),
    ]);
    assert_eq!(first, second);

    let changed = source_tree_sha256(vec![
        file("src/lib.rs", b"pub fn two() {}\n"),
        file("Cargo.toml", b"[package]\n"),
    ]);
    assert_ne!(first, changed);
    let moved = source_tree_sha256(vec![
        file("lib.rs", b"pub fn one() {}\n"),
        file("Cargo.toml", b"[package]\n"),
    ]);
    assert_ne!(first, moved);
}

#[test]
fn a_tree_is_walked_without_links() {
    assert_eq!(
        tree_step(EntryKind::SymbolicLink, true),
        EntryStep::Refuse("symbolic links are not included")
    );
    assert_eq!(tree_step(EntryKind::Directory, false), EntryStep::Descend);
    assert_eq!(tree_step(EntryKind::File, true), EntryStep::Collect);
    assert_eq!(
        tree_step(EntryKind::File, false),
        EntryStep::Refuse("paths must be UTF-8")
    );
    assert_eq!(tree_step(EntryKind::Other, true), EntryStep::Skip);
}

#[test]
fn imports_loads_and_resolves_a_layout_idempotently() {
    let pack = fixture("rust-itertools", 1);
    let artifact = built(&pack);
    let (_, layout) = layout_index(&pack, &artifact, &bytes_of(&artifact));
    let (cache, fresh) = FactPackCache::open("cache".to_owned(), RootState::Empty).unwrap();
    assert!(fresh);

    let first = imported(&pack).unwrap();
    assert_eq!(first.manifest_digest, layout.manifest_digest);
    let second = imported(&pack).unwrap();
    assert_eq!(second.manifest_digest, first.manifest_digest);
    assert!(second.manifest.same(&first.manifest));

    let entry = format!("{}.toml", digest_hex(&first.manifest_digest));
    assert_eq!(
        cache.list(&vec![Some(entry)]).unwrap(),
        vec![first.manifest_digest.clone()]
    );
    let resolved = cache
        .resolve(vec![first], &FactPackRequirement::from_manifest(&pack))
        .unwrap()
        .unwrap();
    assert!(resolved.manifest.same(&pack));
    assert_eq!(resolved.contents[0].size, 3);
    assert_eq!(
        resolved.contents[0].blob_path,
        format!("cache/blobs/sha256/{}", digest_hex(&pack.contents[0].sha256))
    );
}

#[test]
fn rejects_a_tampered_layout_blob() {
    let pack = fixture("rust-itertools", 1);
    let artifact = built(&pack);
    let mut tampered = blobs(&pack, &artifact);
    tampered[1].bytes = Ok(b"tampered\n".to_vec());
    let config = decode_config(&artifact, &tampered).unwrap();
    let error = decode_manifest(
        &artifact,
        "sha256:any",
        &config,
        pack.clone(),
        &text_of(&pack),
        "cache/blobs/sha256",
        &tampered,
    )
    .unwrap_err()
    .display();
    assert!(error.contains("has size") || error.contains("has digest"));
}

#[test]
fn resolves_the_highest_compatible_revision() {
    let (cache, _) = FactPackCache::open("cache".to_owned(), RootState::Marked(1)).unwrap();
    let packs = || vec![
        imported(&fixture("rust-itertools", 1)).unwrap(),
        imported(&fixture("rust-itertools", 2)).unwrap(),
    ];
    let requirement = FactPackRequirement::from_manifest(&fixture("rust-itertools", 1));
    let resolved = cache.resolve(packs(), &requirement).unwrap().unwrap();
    assert_eq!(resolved.manifest.revision, 2);

    let mut unavailable = requirement;
    unavailable.derivation.analyzer_sha256 = format!("sha256:{}", "9".repeat(64));
    assert!(cache.resolve(packs(), &unavailable).unwrap().is_none());
}

#[test]
fn two_packs_of_one_revision_are_ambiguous() {
    let (cache, _) = FactPackCache::open("cache".to_owned(), RootState::Marked(1)).unwrap();
    let pack = fixture("rust-itertools", 1);
    let first = imported(&pack).unwrap();
    let mut second = imported(&pack).unwrap();
    second.manifest_digest = ONE.to_owned();
    let refused = cache.resolve(vec![first, second], &FactPackRequirement::from_manifest(&pack));
    assert!(matches!(refused, Err(CacheError::Ambiguous { revision: 1, .. })));
}

#[test]
fn imports_a_downloaded_artifact_without_an_image_layout() {
    let pack = fixture("rust-itertools", 1);
    let artifact = built(&pack);
    let manifest_bytes = bytes_of(&artifact);
    let manifest_digest = sha256(&manifest_bytes);
    let downloaded: Vec<Downloaded> = blobs(&pack, &artifact)
        .into_iter()
        .map(|blob| Downloaded { digest: blob.digest, bytes: blob.bytes.unwrap() })
        .collect();
    let refused = verify_digest(ONE, &manifest_bytes);
    assert!(matches!(refused, Err(CacheError::BlobDigest { .. })));
    let refused = verify_digest("md5:0", &manifest_bytes);
    assert!(matches!(refused, Err(CacheError::InvalidLayout(_))));

    let mut cache = Kept::default();
    let cached = cache.import(&pack, &manifest_digest, &manifest_bytes, &downloaded).unwrap();
    assert!(cached.manifest.same(&pack));
    assert_eq!(cached.manifest_digest, manifest_digest);
    assert_eq!(cache.entries, [manifest_digest.clone()]);

    let again = cache.import(&pack, &manifest_digest, &manifest_bytes, &downloaded).unwrap();
    assert_eq!(again.manifest_digest, manifest_digest);
    assert_eq!(cache.entries, [manifest_digest]);
    assert_eq!(cache.blobs.len(), 3);
}

/// A cache in memory that takes the steps of an import.
#[derive(Default)]
struct Kept {
    blobs: Vec<(String, Vec<u8>)>,
    entries: Vec<String>,
}

impl Kept {
    fn store(&mut self, digest: &str, bytes: &Vec<u8>) -> Result<(), CacheError> {
        let existing =
            self.blobs.iter().find(|blob| blob.0 == digest).map(|blob| Ok(blob.1.clone()));
        if store_step(digest, bytes, &existing)? == StoreStep::Write {
            self.blobs.push((digest.to_owned(), bytes.clone()));
        }
        Ok(())
    }

    fn decode(
        &self,
        pack: &FactPackManifest,
        digest: &str,
    ) -> Result<CachedFactPack, CacheError> {
        let artifact = built(pack);
        let blobs: Vec<Blob> = self
            .blobs
            .iter()
            .map(|blob| Blob { digest: blob.0.clone(), bytes: Ok(blob.1.clone()) })
            .collect();
        let config = decode_config(&artifact, &blobs)?;
        decode_manifest(
            &artifact,
            digest,
            &config,
            pack.clone(),
            &text_of(pack),
            "cache/blobs/sha256",
            &blobs,
        )
    }

    fn import(
        &mut self,
        pack: &FactPackManifest,
        digest: &str,
        bytes: &Vec<u8>,
        blobs: &Vec<Downloaded>,
    ) -> Result<CachedFactPack, CacheError> {
        for step in artifact_plan(blobs.len()) {
            match step {
                ImportStep::Check => verify_digest(digest, bytes)?,
                ImportStep::Keep(i) => self.store(&blobs[i].digest, &blobs[i].bytes)?,
                ImportStep::KeepManifest => self.store(digest, bytes)?,
                ImportStep::Decode => {
                    self.decode(pack, digest)?;
                }
                ImportStep::Enter => {
                    if !self.entries.iter().any(|entry| entry == digest) {
                        self.entries.push(digest.to_owned());
                    }
                }
                ImportStep::Load => {}
            }
        }
        self.decode(pack, digest)
    }
}

#[test]
fn an_artifact_that_does_not_validate_has_no_entry() {
    let pack = fixture("rust-itertools", 1);
    let artifact = built(&pack);
    let bytes = bytes_of(&artifact);
    let digest = sha256(&bytes);
    let downloaded = || -> Vec<Downloaded> {
        blobs(&pack, &artifact)
            .into_iter()
            .map(|blob| Downloaded { digest: blob.digest, bytes: blob.bytes.unwrap() })
            .collect()
    };

    let mut cache = Kept::default();
    assert!(cache.import(&pack, ONE, &bytes, &downloaded()).is_err());
    assert!(cache.blobs.is_empty());
    assert!(cache.entries.is_empty());

    let mut altered = downloaded();
    altered[1].bytes = b"[]\n".to_vec();
    assert!(matches!(
        cache.import(&pack, &digest, &bytes, &altered),
        Err(CacheError::BlobDigest { .. })
    ));
    assert_eq!(cache.blobs.len(), 1);
    assert!(cache.entries.is_empty());

    let mut missing = downloaded();
    missing.pop();
    assert!(cache.import(&pack, &digest, &bytes, &missing).is_err());
    assert_eq!(cache.blobs.len(), 2);
    assert!(cache.entries.is_empty());

    assert!(cache.import(&pack, &digest, &bytes, &downloaded()).is_ok());
    assert_eq!(cache.entries, [digest]);
}

#[test]
fn an_entry_is_made_after_all_else() {
    assert_eq!(
        artifact_plan(2),
        [
            ImportStep::Check,
            ImportStep::Keep(0),
            ImportStep::Keep(1),
            ImportStep::KeepManifest,
            ImportStep::Decode,
            ImportStep::Enter,
            ImportStep::Load,
        ]
    );
    assert_eq!(
        layout_plan(2),
        [ImportStep::Keep(0), ImportStep::Keep(1), ImportStep::Enter, ImportStep::Load]
    );
    assert_eq!(layout_plan(0), [ImportStep::Enter, ImportStep::Load]);
}

#[test]
fn an_entry_is_listed_once() {
    let (cache, _) = FactPackCache::open("cache".to_owned(), RootState::Marked(1)).unwrap();
    let name = |digest: &str| Some(format!("{}.toml", digest_hex(digest)));
    assert_eq!(cache.list(&vec![name(ONE), name(ZERO)]).unwrap(), [ZERO, ONE]);
    assert!(cache.list(&vec![name(ONE), Some("other".to_owned())]).is_err());
}

#[test]
fn the_marker_of_a_layout_tells_its_version() {
    assert!(check_marker(&layout_marker()).is_ok());
    let refused = check_marker(&OciLayout { image_layout_version: "2.0.0".to_owned() });
    assert!(matches!(
        refused,
        Err(CacheError::InvalidLayout(message)) if message == "image layout version is 2.0.0"
    ));
}

#[test]
fn rejects_a_nonempty_unmarked_cache_directory() {
    assert!(
        FactPackCache::open("root".to_owned(), RootState::Occupied)
            .unwrap_err()
            .display()
            .contains("nonempty")
    );
    assert!(FactPackCache::open("root".to_owned(), RootState::Marked(7)).is_err());
}

#[test]
fn a_cache_keeps_entries_and_blobs_apart() {
    let (cache, fresh) = FactPackCache::open("root".to_owned(), RootState::Marked(1)).unwrap();
    assert!(!fresh);
    assert_eq!(cache.root(), "root");
    assert_eq!(cache.blob_root(), "root/blobs/sha256");
    assert_eq!(
        cache.entry_path(ONE),
        format!("root/entries/sha256/{}.toml", "1".repeat(64))
    );
    assert!(cache.check_entry(1, ONE, ONE).is_ok());
    assert!(cache.check_entry(2, ONE, ONE).is_err());
    assert!(cache.check_entry(1, ZERO, ONE).is_err());
    assert!(cache.list(&vec![None]).is_err());
    assert!(cache.list(&vec![Some("notes.txt".to_owned())]).is_err());
}

fn requirement_text(pack: &CachedFactPack) -> String {
    format!("requirement of {}", pack.manifest.name)
}

#[test]
fn lock_round_trips_and_verifies_cached_manifests() {
    let pack = imported(&fixture("rust-core", 1)).unwrap();
    let mut lock = FactPackLock::default();
    lock.insert(
        &pack,
        Some("ghcr.io/acme/rust-core:1.0.0-r1".to_owned()),
        requirement_text(&pack),
    )
    .unwrap();
    assert_eq!(lock.packs.len(), 1);
    assert_eq!(lock.packs[0].manifest_digest, pack.manifest_digest);
    assert!(lock.validate().is_ok());

    let verified = lock.verify(&vec![Ok(pack.clone())]).unwrap();
    assert_eq!(verified.len(), 1);
    assert!(verified[0].manifest.same(&pack.manifest));
    let resolved = lock
        .resolve(
            &vec![Ok(pack.clone())],
            &vec![FactPackRequirement::from_manifest(&pack.manifest)],
        )
        .unwrap();
    assert_eq!(resolved.len(), 1);
    assert_eq!(resolved[0].manifest_digest, pack.manifest_digest);
}

#[test]
fn locked_resolution_rejects_configuration_disagreement() {
    let first = imported(&fixture("rust-core", 1)).unwrap();
    let second = imported(&fixture("rust-itertools", 1)).unwrap();
    let mut lock = FactPackLock::default();
    lock.insert(&first, None, requirement_text(&first)).unwrap();
    lock.insert(&second, None, requirement_text(&second)).unwrap();
    let loaded: Vec<Result<CachedFactPack, CacheError>> = lock
        .packs
        .iter()
        .map(|entry| {
            Ok(if entry.manifest.name == "rust-core" { first.clone() } else { second.clone() })
        })
        .collect();

    let error = lock
        .resolve(&loaded, &vec![FactPackRequirement::from_manifest(&first.manifest)])
        .unwrap_err();
    assert!(matches!(error, FactPackLockError::Extra { .. }));
    let error = lock
        .resolve(
            &loaded,
            &vec![
                FactPackRequirement::from_manifest(&first.manifest),
                FactPackRequirement::from_manifest(&second.manifest),
                FactPackRequirement::from_manifest(&fixture("rust-strum", 1)),
            ],
        )
        .unwrap_err();
    assert!(matches!(error, FactPackLockError::Missing { name } if name == "rust-strum"));
}

#[test]
fn offline_verification_rejects_a_missing_cached_artifact() {
    let pack = imported(&fixture("rust-core", 1)).unwrap();
    let mut lock = FactPackLock::default();
    lock.insert(&pack, None, requirement_text(&pack)).unwrap();
    let missing = CacheError::NotInstalled { digest: pack.manifest_digest.clone() };
    let error = lock.verify(&vec![Err(missing)]).unwrap_err();
    assert!(matches!(
        error,
        FactPackLockError::Cache(CacheError::NotInstalled { digest })
            if digest == pack.manifest_digest
    ));
}

#[test]
fn a_cached_pack_that_differs_from_its_lock_has_drifted() {
    let pack = imported(&fixture("rust-core", 1)).unwrap();
    let mut lock = FactPackLock::default();
    lock.insert(&pack, None, requirement_text(&pack)).unwrap();
    let mut drifted = pack.clone();
    drifted.manifest.revision = 2;
    let error = lock.verify(&vec![Ok(drifted)]).unwrap_err();
    assert!(matches!(error, FactPackLockError::Drift { .. }));
}

#[test]
fn pinning_again_replaces_what_was_pinned() {
    let first = imported(&fixture("rust-core", 1)).unwrap();
    let second = imported(&fixture("rust-core", 2)).unwrap();
    let mut lock = FactPackLock::default();
    lock.insert(&first, None, requirement_text(&first)).unwrap();
    lock.insert(&second, None, requirement_text(&second)).unwrap();
    assert_eq!(lock.packs.len(), 1);
    assert_eq!(lock.packs[0].manifest.revision, 2);
    assert_ne!(requirement_digest("a"), requirement_digest("b"));
}

#[test]
fn a_config_that_is_not_canonical_is_refused() {
    let pack = fixture("rust-core", 1);
    let artifact = built(&pack);
    let blobs = blobs(&pack, &artifact);
    let config = decode_config(&artifact, &blobs).unwrap();
    let error = decode_manifest(
        &artifact,
        ONE,
        &config,
        pack.clone(),
        "something else",
        "cache/blobs/sha256",
        &blobs,
    )
    .unwrap_err();
    assert_eq!(
        error.display(),
        "invalid OCI fact-pack layout: fact-pack config is not canonical TOML"
    );
}

fn decoded(pack: &FactPackManifest, blobs: Vec<Blob>) -> Result<CachedFactPack, CacheError> {
    let artifact = built(pack);
    let config = decode_config(&artifact, &blobs)?;
    decode_manifest(
        &artifact,
        ONE,
        &config,
        pack.clone(),
        &text_of(pack),
        "cache/blobs/sha256",
        &blobs,
    )
}

#[test]
fn a_blob_that_is_missing_or_another_is_refused() {
    let pack = fixture("rust-core", 1);
    let artifact = built(&pack);
    let mut unread = blobs(&pack, &artifact);
    unread[1].bytes = Err(CacheError::Io {
        operation: "reading OCI blob",
        path: "cache/blobs/sha256/1".to_owned(),
        message: "no such file".to_owned(),
    });
    assert_eq!(
        decoded(&pack, unread).unwrap_err().display(),
        "reading OCI blob cache/blobs/sha256/1: no such file"
    );
    let mut longer = blobs(&pack, &artifact);
    longer[1].bytes = Ok(b"{} \n".to_vec());
    assert!(matches!(
        decoded(&pack, longer),
        Err(CacheError::BlobSize { expected: 3, actual: 4, .. })
    ));
    let mut other = blobs(&pack, &artifact);
    other[1].bytes = Ok(b"[]\n".to_vec());
    assert!(matches!(decoded(&pack, other), Err(CacheError::BlobDigest { .. })));
    let mut binary = blobs(&pack, &artifact);
    binary[0].bytes = Ok(vec![0xff; text_of(&pack).len()]);
    assert!(decoded(&pack, binary).is_err());
}

#[test]
fn a_lock_refuses_what_it_cannot_tell_apart() {
    let pack = imported(&fixture("rust-core", 1)).unwrap();
    let mut lock = FactPackLock::default();
    assert!(matches!(
        lock.insert(&pack, Some(String::new()), requirement_text(&pack)),
        Err(FactPackLockError::Invalid(_))
    ));
    let mut lock = FactPackLock::default();
    lock.insert(&pack, None, requirement_text(&pack)).unwrap();
    lock.insert(&pack, None, "another requirement".to_owned()).unwrap();
    assert_eq!(lock.packs.len(), 2);
    let refused = lock.resolve(
        &vec![Ok(pack.clone()), Ok(pack.clone())],
        &vec![FactPackRequirement::from_manifest(&pack.manifest)],
    );
    assert!(matches!(refused, Err(FactPackLockError::Ambiguous { name }) if name == "rust-core"));
    lock.schema = 9;
    assert!(matches!(lock.validate(), Err(FactPackLockError::Invalid(_))));
}

#[test]
fn a_manifest_is_digested_as_it_is_written() {
    let pack = fixture("rust-core", 1);
    assert_eq!(
        pack.manifest_sha256("{}\n").unwrap(),
        sha256(&b"{}\n".to_vec())
    );
    let mut invalid = fixture("rust-core", 1);
    invalid.revision = 0;
    assert!(matches!(invalid.manifest_sha256("{}\n"), Err(ManifestError::Invalid(_))));
}

#[test]
fn the_manifest_of_a_layout_is_held_to_its_descriptor() {
    let pack = fixture("rust-core", 1);
    let artifact = built(&pack);
    let bytes = bytes_of(&artifact);
    let (index, _) = layout_index(&pack, &artifact, &bytes);
    let descriptor = &index.manifests[0];
    assert!(check_described(descriptor, &bytes).is_ok());
    let mut longer = bytes.clone();
    longer.push(b' ');
    assert!(matches!(
        check_described(descriptor, &longer),
        Err(CacheError::BlobSize { expected, actual, .. })
            if expected == bytes.len() && actual == bytes.len() + 1
    ));
    let mut other = bytes.clone();
    other[0] = b'[';
    assert!(matches!(
        check_described(descriptor, &other),
        Err(CacheError::BlobDigest { .. })
    ));
}

#[test]
fn a_blob_is_written_once() {
    let bytes = b"{}\n".to_vec();
    let digest = sha256(&bytes);
    assert_eq!(store_step(&digest, &bytes, &None).unwrap(), StoreStep::Write);
    assert_eq!(
        store_step(&digest, &bytes, &Some(Ok(bytes.clone()))).unwrap(),
        StoreStep::Keep
    );
    assert!(matches!(
        store_step(&digest, &bytes, &Some(Ok(b"[]\n".to_vec()))),
        Err(CacheError::BlobDigest { .. })
    ));
    assert!(matches!(
        store_step(&digest, &b"[]\n".to_vec(), &None),
        Err(CacheError::BlobDigest { .. })
    ));
    let unread = CacheError::NotInstalled { digest: digest.clone() };
    assert!(matches!(
        store_step(&digest, &bytes, &Some(Err(unread))),
        Err(CacheError::NotInstalled { .. })
    ));
}

#[test]
fn a_layout_is_not_written_over_another() {
    assert!(prepare_output("out", OutputState::Missing).unwrap());
    assert!(!prepare_output("out", OutputState::Empty).unwrap());
    let error = prepare_output("out", OutputState::Occupied).unwrap_err();
    assert_eq!(error.display(), "OCI output directory out is not empty");
}

#[test]
fn a_layout_holds_each_blob_under_its_digest() {
    let files = layout_files(vec![b"{}\n".to_vec()], b"marker".to_vec(), b"index".to_vec());
    let paths: Vec<&str> = files.iter().map(|file| file.path.as_str()).collect();
    assert_eq!(
        paths,
        [
            "blobs/sha256/ca3d163bab055381827226140568f3bef7eaac187cebd76878e0b63e9e442356",
            "oci-layout",
            "index.json",
        ]
    );
    assert_eq!(files[0].bytes, b"{}\n");
    assert_eq!(files[2].bytes, b"index");
}
