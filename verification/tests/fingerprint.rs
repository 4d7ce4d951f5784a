use biwac::fingerprint::{
    compiler_hash, fingerprint_file_name, manifest_hash, sort_sources, source_entry, Fingerprint,
    FingerprintDecodeError, Freshness, SourceEntry, StaleReason,
};
use biwac::hash::Hash64;
use biwac::package::{DependedPackage, PackageId, PackageMetadata, PackageName, PackageVersion};

fn sample() -> Fingerprint {
    Fingerprint {
        compiler: Hash64::from_u64(1),
        manifest: Hash64::from_u64(2),
        own_svh: Hash64::from_u64(3),
        deps: vec![
            (PackageId::new(7), Hash64::from_u64(70)),
            (PackageId::new(9), Hash64::from_u64(90)),
        ],
        sources: vec![
            SourceEntry {
                path: "lib.biwa".into(),
                len: 10,
                hash: Hash64::from_u64(11),
            },
            SourceEntry {
                path: "math/pos.biwa".into(),
                len: 20,
                hash: Hash64::from_u64(22),
            },
        ],
    }
}

fn metadata(name: &str, deps: Vec<DependedPackage>) -> PackageMetadata {
    PackageMetadata {
        name: PackageName::parse(name).unwrap(),
        version: PackageVersion::new(1, 2, 3),
        description: None,
        dependencies: deps,
        no_std: false,
    }
}

fn dep(name: &str, min: (usize, usize, usize)) -> DependedPackage {
    DependedPackage {
        name: PackageName::parse(name).unwrap(),
        min_version: PackageVersion::new(min.0, min.1, min.2),
        max_version: None,
    }
}

#[test]
fn round_trip() {
    let fp = sample();
    let decoded = Fingerprint::decode_file(&fp.encode_file()).unwrap();
    assert_eq!(fp, decoded);
}

#[test]
fn rejects_foreign_data() {
    assert!(matches!(
        Fingerprint::decode_file(b"not a fingerprint"),
        Err(FingerprintDecodeError::InvalidMagic)
    ));
}

#[test]
fn round_trip_ignores_trailing_bytes() {
    let fp = sample();
    let mut bytes = fp.encode_file();
    bytes.extend_from_slice(b"tail");
    assert_eq!(Fingerprint::decode_file(&bytes).unwrap(), fp);
}

#[test]
fn encoded_layout_starts_with_magic_and_version() {
    let bytes = sample().encode_file();
    assert_eq!(&bytes[0..4], b"bwfp");
    assert_eq!(&bytes[4..8], &[1, 0, 0, 0]);
    assert_eq!(&bytes[8..16], &[1, 0, 0, 0, 0, 0, 0, 0]);
    // 4 + 4 + 3 * 8 + 4 + 2 * 12 + 4 + (4 + 8 + 16) + (4 + 13 + 16)
    assert_eq!(bytes.len(), 4 + 4 + 24 + 4 + 24 + 4 + 28 + 33);
}

#[test]
fn rejects_other_versions() {
    let mut bytes = sample().encode_file();
    bytes[4] = 2;
    assert_eq!(
        Fingerprint::decode_file(&bytes),
        Err(FingerprintDecodeError::InvalidVersion { got: 2 })
    );
}

#[test]
fn truncated_data_is_unexpected_end() {
    let bytes = sample().encode_file();
    for cut in [0, 3, 4, 7, 20, 35, 40, bytes.len() - 1] {
        assert_eq!(
            Fingerprint::decode_file(&bytes[..cut]),
            Err(FingerprintDecodeError::UnexpectedEnd),
            "cut at {cut}"
        );
    }
}

#[test]
fn invalid_utf8_in_path() {
    let mut fp = sample();
    fp.sources.truncate(1);
    let mut bytes = fp.encode_file();
    let path_start = bytes.len() - 16 - "lib.biwa".len();
    bytes[path_start] = 0xff;
    assert_eq!(
        Fingerprint::decode_file(&bytes),
        Err(FingerprintDecodeError::InvalidUtf8)
    );
}

#[test]
fn decode_error_messages() {
    assert_eq!(
        FingerprintDecodeError::UnexpectedEnd.message(),
        "unexpected end of data"
    );
    assert_eq!(
        FingerprintDecodeError::InvalidVersion { got: 42 }.message(),
        "unsupported .biwafp format version: 42"
    );
    assert_eq!(
        FingerprintDecodeError::InvalidUtf8.message(),
        "invalid UTF-8 in path"
    );
}

#[test]
fn fingerprint_file_is_named_after_the_package() {
    assert_eq!(fingerprint_file_name("core"), "core.biwafp");
}

#[test]
fn fresh_after_build_gives_back_svh() {
    let meta = metadata("app", vec![dep("core", (0, 1, 0))]);
    let compiler = compiler_hash(&[3]);
    let deps = [
        (PackageId::new(9), Hash64::from_u64(90)),
        (PackageId::new(7), Hash64::from_u64(70)),
    ];
    let sources = sample().sources;
    let fp = Fingerprint::of_build(
        compiler,
        &meta,
        Hash64::from_u64(5),
        &deps,
        sources.clone(),
    );
    assert_eq!(fp.deps[0].0, PackageId::new(7));
    assert_eq!(
        fp.freshness(compiler, &meta, &deps, &sources),
        Freshness::Fresh(Hash64::from_u64(5))
    );
    // Dependencies given in another order are still the same graph.
    let reordered = [deps[1], deps[0]];
    assert_eq!(
        fp.freshness(compiler, &meta, &reordered, &sources),
        Freshness::Fresh(Hash64::from_u64(5))
    );
}

#[test]
fn staleness_reasons() {
    let meta = metadata("app", vec![]);
    let compiler = compiler_hash(&[]);
    let deps = [(PackageId::new(7), Hash64::from_u64(70))];
    let sources = sample().sources;
    let fp = Fingerprint::of_build(compiler, &meta, Hash64::from_u64(5), &deps, sources.clone());

    assert_eq!(
        fp.freshness(compiler_hash(&[1]), &meta, &deps, &sources),
        Freshness::Stale(StaleReason::CompilerChanged)
    );
    let other = metadata("app", vec![dep("core", (0, 1, 0))]);
    assert_eq!(
        fp.freshness(compiler, &other, &deps, &sources),
        Freshness::Stale(StaleReason::ManifestChanged)
    );
    let other_deps = [(PackageId::new(7), Hash64::from_u64(71))];
    assert_eq!(
        fp.freshness(compiler, &meta, &other_deps, &sources),
        Freshness::Stale(StaleReason::DependencyChanged)
    );
    assert_eq!(
        fp.freshness(compiler, &meta, &deps, &sources[..1]),
        Freshness::Stale(StaleReason::SourceSetChanged)
    );
    let mut renamed = sources.clone();
    renamed[1].path = "math/neg.biwa".into();
    assert_eq!(
        fp.freshness(compiler, &meta, &deps, &renamed),
        Freshness::Stale(StaleReason::SourceSetChanged)
    );
    let mut edited = sources.clone();
    edited[1].hash = Hash64::from_u64(23);
    assert_eq!(
        fp.freshness(compiler, &meta, &deps, &edited),
        Freshness::Stale(StaleReason::SourceChanged {
            path: "math/pos.biwa".into()
        })
    );
}

#[test]
fn stale_reason_descriptions() {
    assert_eq!(StaleReason::Forced.describe(), "forced by --rebuild");
    assert_eq!(
        StaleReason::SourceChanged {
            path: "lib.biwa".into()
        }
        .describe(),
        "`lib.biwa` changed"
    );
    assert_eq!(StaleReason::NoPreviousBuild.describe(), "no previous build");
}

#[test]
fn manifest_hash_ignores_dependency_order() {
    let a = metadata("app", vec![dep("core", (0, 1, 0)), dep("util", (1, 0, 0))]);
    let b = metadata("app", vec![dep("util", (1, 0, 0)), dep("core", (0, 1, 0))]);
    let c = metadata("app", vec![dep("util", (1, 0, 1)), dep("core", (0, 1, 0))]);
    assert_eq!(manifest_hash(&a), manifest_hash(&b));
    assert_ne!(manifest_hash(&a), manifest_hash(&c));
}

#[test]
fn compiler_hash_depends_on_extra_versions() {
    assert_eq!(compiler_hash(&[1, 2]), compiler_hash(&[1, 2]));
    assert_ne!(compiler_hash(&[1, 2]), compiler_hash(&[2, 1]));
    assert_ne!(compiler_hash(&[]), compiler_hash(&[0]));
}

#[test]
fn source_entry_joins_and_hashes() {
    let components = vec!["math".to_string(), "pos.biwa".to_string()];
    let e = source_entry(&components, b"fn main() {}");
    assert_eq!(e.path, "math/pos.biwa");
    assert_eq!(e.len, 12);
    let mut h = biwac::hash::StableHasher64::new();
    h.write_bytes(b"fn main() {}");
    assert_eq!(e.hash, h.finish());
}

#[test]
fn sources_sorted_by_path_stably() {
    let e = |p: &str, len: u64| SourceEntry { path: p.to_string(), len, hash: Hash64::from_u64(len) };
    let sorted = sort_sources(vec![e("main.biwa", 1), e("math/pos.biwa", 2), e("lib.biwa", 3), e("main.biwa", 4), e("a.biwa", 5)]);
    let got: Vec<(String, u64)> = sorted.into_iter().map(|x| (x.path, x.len)).collect();
    assert_eq!(
        got,
        vec![
            ("a.biwa".to_string(), 5),
            ("lib.biwa".to_string(), 3),
            ("main.biwa".to_string(), 1),
            ("main.biwa".to_string(), 4),
            ("math/pos.biwa".to_string(), 2),
        ]
    );
}

#[test]
fn manifest_hash_ignores_the_description() {
    let a = metadata("app", vec![dep("core", (0, 1, 0))]);
    let mut b = metadata("app", vec![dep("core", (0, 1, 0))]);
    b.description = Some("a game".to_string());
    assert_eq!(manifest_hash(&a), manifest_hash(&b));
}
