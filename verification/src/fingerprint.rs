//! Whether a package is fresh: has anything changed since its last build?
//!
//! When nothing has, the signatures cached in its `.biwameta` are used and
//! the build of the package is skipped. What is compared:
//!
//! 1. the compiler's identity: a change in how outputs are made voids the cache;
//! 2. `biwa-package.json`: dependencies added, removed or re-versioned, `no_std`;
//! 3. the SVH of each package in the (transitive) dependency graph;
//! 4. the contents of `src/**/*.biwa`.
//!
//! Sources are compared by content hash, not by modification time: a package
//! has few files, and reading them all has neither of mtime's holes.

pub mod disk;

use vstd::prelude::*;
use vstd::utf8::encode_utf8;
use crate::hash::{Hash64, StableHasher64, fnv_fold, stream_hash, length_prefixed,
    lemma_fnv_fold_concat, FNV_OFFSET_BASIS};
use crate::le_bytes::{u32_le, u64_le};
use crate::package::{PackageId, PackageMetadata, DependedPackage, PackageVersion, version_text};
use crate::decimal::push_decimal;
use crate::module::{join, push_joined, strings_view};
use crate::sort::{ids_distinct, lemma_sort_by_id_order_free, sort_by_id, sort_deps_by_id, sort_strs, sort_strings, string_views, lex_le, str_le};
use crate::text::{push_char, push_str, string_of_str};
use crate::ident::str_eq;

pub use disk::FingerprintDecodeError;

verus! {

/// The version of the fingerprint file format; raised when the format changes.
pub const BIWAC_FINGERPRINT_FORMAT_VERSION: u32 = 1;

/// Raised by hand when the way outputs are generated changes, to void every
/// cache at once.
pub const BIWAC_FINGERPRINT_COMPILER_EPOCH: u32 = 1;

/// The version of this compiler, part of its identity.
pub const BIWAC_VERSION: &'static str = "0.1.0";

pub const FINGERPRINT_FILE_EXTENSION: &'static str = "biwafp";

/// The name of a package's fingerprint file: `<pkg_name>.biwafp`.
pub fn fingerprint_file_name(pkg_name: &str) -> (r: String)
    ensures
        r@ == pkg_name@ + seq!['.'] + FINGERPRINT_FILE_EXTENSION@,
{
    let mut s = string_of_str(pkg_name);
    push_char(&mut s, '.');
    push_str(&mut s, FINGERPRINT_FILE_EXTENSION);
    s
}

/// One source file.
#[derive(Debug, Clone, PartialEq, Eq)]
pub struct SourceEntry {
    /// The path from the package root, `/`-separated.
    pub path: String,
    pub len: u64,
    pub hash: Hash64,
}

/// The state of one package at its last build.
#[derive(Debug, Clone, PartialEq, Eq)]
pub struct Fingerprint {
    /// The compiler's identity (version, epoch and format versions).
    pub compiler: Hash64,
    /// The normalized `biwa-package.json`.
    pub manifest: Hash64,
    /// The SVH of the `.biwameta` made last time; handed on downstream when
    /// the package is fresh.
    pub own_svh: Hash64,
    /// The SVH of each package of the dependency graph, by ascending id.
    pub deps: Vec<(PackageId, Hash64)>,
    /// `src/**/*.biwa`, by ascending path.
    pub sources: Vec<SourceEntry>,
}

/// The result of the freshness check.
#[derive(Debug, Clone, PartialEq, Eq)]
pub enum Freshness {
    /// No rebuild needed; holds the previous SVH, to hand on downstream.
    Fresh(Hash64),
    /// A rebuild is needed, for this reason.
    Stale(StaleReason),
}

/// Why a rebuild is needed: an incremental build that does not say why it
/// did not apply is very hard to follow.
#[derive(Debug, Clone, PartialEq, Eq)]
pub enum StaleReason {
    /// No previous artifact (first build, or cleaned).
    NoPreviousBuild,
    /// The fingerprint file cannot be read (format change, corruption).
    UnreadableFingerprint,
    CompilerChanged,
    /// `biwa-package.json` changed, dependencies included.
    ManifestChanged,
    /// A dependency's interface, or the shape of the dependency graph, changed.
    DependencyChanged,
    SourceChanged { path: String },
    /// Source files were added or removed.
    SourceSetChanged,
    /// `--rebuild` was given.
    Forced,
    /// The generated output is gone, whatever the record says.
    MissingOutput,
}

impl StaleReason {
    pub fn describe(&self) -> (r: String)
        ensures
            r@ == match self {
                StaleReason::NoPreviousBuild => "no previous build"@,
                StaleReason::UnreadableFingerprint => "fingerprint is unreadable"@,
                StaleReason::CompilerChanged => "the compiler changed"@,
                StaleReason::ManifestChanged => "biwa-package.json changed"@,
                StaleReason::DependencyChanged => "a dependency changed"@,
                StaleReason::SourceChanged { path } => seq!['`'] + path@ + "` changed"@,
                StaleReason::SourceSetChanged => "the set of source files changed"@,
                StaleReason::Forced => "forced by --rebuild"@,
                StaleReason::MissingOutput => "the output is missing"@,
            },
    {
        match self {
            StaleReason::NoPreviousBuild => string_of_str("no previous build"),
            StaleReason::UnreadableFingerprint => string_of_str("fingerprint is unreadable"),
            StaleReason::CompilerChanged => string_of_str("the compiler changed"),
            StaleReason::ManifestChanged => string_of_str("biwa-package.json changed"),
            StaleReason::DependencyChanged => string_of_str("a dependency changed"),
            StaleReason::SourceChanged { path } => {
                let mut s = String::new();
                push_char(&mut s, '`');
                push_str(&mut s, path.as_str());
                push_str(&mut s, "` changed");
                assert(s@ =~= seq!['`'] + path@ + "` changed"@);
                s
            },
            StaleReason::SourceSetChanged => string_of_str("the set of source files changed"),
            StaleReason::Forced => string_of_str("forced by --rebuild"),
            StaleReason::MissingOutput => string_of_str("the output is missing"),
        }
    }
}

/// The little-endian bytes of each value, one after the other.
pub open spec fn u32s_le(vs: Seq<u32>) -> Seq<u8>
    decreases vs.len(),
{
    if vs.len() == 0 {
        Seq::empty()
    } else {
        u32s_le(vs.drop_last()) + u32_le(vs.last())
    }
}

/// What the compiler's identity hashes.
pub open spec fn compiler_stream(extra: Seq<u32>) -> Seq<u8> {
    length_prefixed(encode_utf8("biwac"@)) + length_prefixed(encode_utf8(BIWAC_VERSION@))
        + u32_le(BIWAC_FINGERPRINT_COMPILER_EPOCH) + u32_le(BIWAC_FINGERPRINT_FORMAT_VERSION)
        + u64_le(extra.len() as u64) + u32s_le(extra)
}

/// Feeding `piece` after `stream` is feeding their concatenation.
proof fn lemma_feed(stream: Seq<u8>, piece: Seq<u8>)
    ensures
        fnv_fold(fnv_fold(FNV_OFFSET_BASIS, stream), piece) == fnv_fold(FNV_OFFSET_BASIS, stream + piece),
{
    lemma_fnv_fold_concat(FNV_OFFSET_BASIS, stream, piece);
}

/// The compiler's identity.
///
/// `extra_versions` are the versions of other formats that cached artifacts
/// are read and written in (the `.biwameta` format version, say). Mixing them
/// in makes a format change rebuild rather than fail on an unreadable
/// artifact.
pub fn compiler_hash(extra_versions: &[u32]) -> (r: Hash64)
    ensures
        r.0 == stream_hash(compiler_stream(extra_versions@)),
{
    let mut h = StableHasher64::new();
    let ghost mut stream = Seq::<u8>::empty();
    h.write_str("biwac");
    proof {
        lemma_feed(stream, length_prefixed(encode_utf8("biwac"@)));
        stream = stream + length_prefixed(encode_utf8("biwac"@));
    }
    h.write_str(BIWAC_VERSION);
    proof {
        lemma_feed(stream, length_prefixed(encode_utf8(BIWAC_VERSION@)));
        stream = stream + length_prefixed(encode_utf8(BIWAC_VERSION@));
    }
    h.write_u32(BIWAC_FINGERPRINT_COMPILER_EPOCH);
    proof {
        lemma_feed(stream, u32_le(BIWAC_FINGERPRINT_COMPILER_EPOCH));
        stream = stream + u32_le(BIWAC_FINGERPRINT_COMPILER_EPOCH);
    }
    h.write_u32(BIWAC_FINGERPRINT_FORMAT_VERSION);
    proof {
        lemma_feed(stream, u32_le(BIWAC_FINGERPRINT_FORMAT_VERSION));
        stream = stream + u32_le(BIWAC_FINGERPRINT_FORMAT_VERSION);
    }
    h.write_usize(extra_versions.len());
    proof {
        lemma_feed(stream, u64_le(extra_versions@.len() as u64));
        stream = stream + u64_le(extra_versions@.len() as u64);
    }
    let ghost head = stream;
    let mut i: usize = 0;
    assert(extra_versions@.take(0) =~= Seq::<u32>::empty());
    assert(head + u32s_le(extra_versions@.take(0)) =~= head);
    while i < extra_versions.len()
        invariant
            i <= extra_versions@.len(),
            h.state == fnv_fold(FNV_OFFSET_BASIS, head + u32s_le(extra_versions@.take(i as int))),
        decreases extra_versions@.len() - i,
    {
        let v = extra_versions[i];
        h.write_u32(v);
        proof {
            let t = extra_versions@.take(i + 1);
            assert(t.drop_last() =~= extra_versions@.take(i as int));
            assert(t.last() == v);
            lemma_feed(head + u32s_le(extra_versions@.take(i as int)), u32_le(v));
            assert(head + u32s_le(extra_versions@.take(i as int)) + u32_le(v) =~= head + u32s_le(t));
        }
        i = i + 1;
    }
    assert(extra_versions@.take(extra_versions@.len() as int) =~= extra_versions@);
    assert(head + u32s_le(extra_versions@) =~= compiler_stream(extra_versions@));
    h.finish()
}

/// The text that stands for one dependency in the manifest hash:
/// `name:min:max`, `max` being `*` when there is no upper bound.
pub open spec fn dep_text(d: DependedPackage) -> Seq<char> {
    d.name@ + seq![':'] + version_text(d.min_version.triple()) + seq![':'] + match d.max_version {
        Some(v) => version_text(v.triple()),
        None => seq!['*'],
    }
}

pub open spec fn dep_texts(ds: Seq<DependedPackage>) -> Seq<Seq<char>> {
    ds.map_values(|d: DependedPackage| dep_text(d))
}

/// Each string, length-prefixed, one after the other.
pub open spec fn strs_stream(ss: Seq<Seq<char>>) -> Seq<u8>
    decreases ss.len(),
{
    if ss.len() == 0 {
        Seq::empty()
    } else {
        strs_stream(ss.drop_last()) + length_prefixed(encode_utf8(ss.last()))
    }
}

/// What the manifest hash hashes.
pub open spec fn manifest_stream(m: &PackageMetadata) -> Seq<u8> {
    let v = m.version.triple();
    length_prefixed(encode_utf8("biwa-manifest"@)) + length_prefixed(encode_utf8(m.name@))
        + u64_le(v.0 as u64) + u64_le(v.1 as u64) + u64_le(v.2 as u64)
        + seq![if m.no_std { 1u8 } else { 0u8 }]
        + u64_le(m.dependencies@.len() as u64)
        + strs_stream(sort_strs(dep_texts(m.dependencies@)))
}

/// The manifest hash reads the name, the version, whether the package
/// goes without std, and the dependencies as a set: neither their order
/// nor the description changes it.
pub proof fn lemma_manifest_hash_ignores_order_and_description(m1: &PackageMetadata, m2: &PackageMetadata)
    requires
        m1.name@ == m2.name@,
        m1.version.triple() == m2.version.triple(),
        m1.no_std == m2.no_std,
        m1.dependencies@.to_multiset() == m2.dependencies@.to_multiset(),
    ensures
        manifest_stream(m1) == manifest_stream(m2),
{
    let f = |d: DependedPackage| dep_text(d);
    crate::sort::lemma_map_keeps_multiset(m1.dependencies@, m2.dependencies@, f);
    assert(dep_texts(m1.dependencies@) == m1.dependencies@.map_values(f));
    assert(dep_texts(m2.dependencies@) == m2.dependencies@.map_values(f));
    crate::sort::lemma_sort_strs_order_free(dep_texts(m1.dependencies@), dep_texts(m2.dependencies@));
    vstd::seq_lib::to_multiset_len(m1.dependencies@);
    vstd::seq_lib::to_multiset_len(m2.dependencies@);
}

fn push_version(s: &mut String, v: &PackageVersion)
    ensures
        final(s)@ == old(s)@ + version_text(v.triple()),
{
    push_decimal(s, v.major());
    push_char(s, '.');
    push_decimal(s, v.minor());
    push_char(s, '.');
    push_decimal(s, v.patch());
    assert(s@ =~= old(s)@ + version_text(v.triple()));
}

fn dep_string(d: &DependedPackage) -> (r: String)
    ensures
        r@ == dep_text(*d),
{
    let mut s = string_of_str(d.name.value());
    push_char(&mut s, ':');
    push_version(&mut s, &d.min_version);
    push_char(&mut s, ':');
    match &d.max_version {
        Some(v) => push_version(&mut s, v),
        None => push_char(&mut s, '*'),
    }
    assert(s@ =~= dep_text(*d));
    s
}

/// The text of each dependency, in the order given.
fn dep_strings(deps: &Vec<DependedPackage>) -> (r: Vec<String>)
    ensures
        string_views(r@) == dep_texts(deps@),
{
    let mut out: Vec<String> = Vec::new();
    let mut i: usize = 0;
    while i < deps.len()
        invariant
            i <= deps@.len(),
            string_views(out@) == dep_texts(deps@).take(i as int),
        decreases deps@.len() - i,
    {
        let s = dep_string(&deps[i]);
        let ghost before = out@;
        out.push(s);
        proof {
            assert(out@ == before.push(s));
            assert(string_views(before.push(s)) =~= string_views(before).push(s@));
            assert(dep_texts(deps@)[i as int] == dep_text(deps@[i as int]));
            assert(dep_texts(deps@).take(i + 1) =~= dep_texts(deps@).take(i as int).push(s@));
        }
        i = i + 1;
    }
    assert(dep_texts(deps@).take(deps@.len() as int) =~= dep_texts(deps@));
    out
}

/// Feeds each string, length-prefixed, into the hasher.
fn write_strs(h: &mut StableHasher64, ss: &Vec<String>, Ghost(head): Ghost<Seq<u8>>)
    requires
        old(h).state == fnv_fold(FNV_OFFSET_BASIS, head),
    ensures
        final(h).state == fnv_fold(FNV_OFFSET_BASIS, head + strs_stream(string_views(ss@))),
{
    let ghost sv = string_views(ss@);
    let mut k: usize = 0;
    assert(sv.take(0) =~= Seq::<Seq<char>>::empty());
    assert(head + strs_stream(sv.take(0)) =~= head);
    while k < ss.len()
        invariant
            k <= ss@.len(),
            sv == string_views(ss@),
            h.state == fnv_fold(FNV_OFFSET_BASIS, head + strs_stream(sv.take(k as int))),
        decreases ss@.len() - k,
    {
        h.write_str(ss[k].as_str());
        proof {
            let t = sv.take(k + 1);
            assert(t.drop_last() =~= sv.take(k as int));
            assert(t.last() == ss@[k as int]@);
            let piece = length_prefixed(encode_utf8(ss@[k as int]@));
            lemma_feed(head + strs_stream(sv.take(k as int)), piece);
            assert(head + strs_stream(sv.take(k as int)) + piece =~= head + strs_stream(t));
        }
        k = k + 1;
    }
    assert(sv.take(ss@.len() as int) =~= sv);
}

/// The part of `biwa-package.json` that affects the build, hashed.
///
/// It is made from the parsed fields, not the raw text, so reformatting,
/// reordering keys or adding comments leave it unchanged; the dependencies
/// are sorted, so their order in the file does not matter either.
pub fn manifest_hash(metadata: &PackageMetadata) -> (r: Hash64)
    ensures
        r.0 == stream_hash(manifest_stream(metadata)),
{
    let mut h = StableHasher64::new();
    let ghost mut stream = Seq::<u8>::empty();
    h.write_str("biwa-manifest");
    proof {
        lemma_feed(stream, length_prefixed(encode_utf8("biwa-manifest"@)));
        stream = stream + length_prefixed(encode_utf8("biwa-manifest"@));
    }
    h.write_str(metadata.name.value());
    proof {
        lemma_feed(stream, length_prefixed(encode_utf8(metadata.name@)));
        stream = stream + length_prefixed(encode_utf8(metadata.name@));
    }
    h.write_usize(metadata.version.major());
    proof {
        lemma_feed(stream, u64_le(metadata.version.triple().0 as u64));
        stream = stream + u64_le(metadata.version.triple().0 as u64);
    }
    h.write_usize(metadata.version.minor());
    proof {
        lemma_feed(stream, u64_le(metadata.version.triple().1 as u64));
        stream = stream + u64_le(metadata.version.triple().1 as u64);
    }
    h.write_usize(metadata.version.patch());
    proof {
        lemma_feed(stream, u64_le(metadata.version.triple().2 as u64));
        stream = stream + u64_le(metadata.version.triple().2 as u64);
    }
    h.write_u8(if metadata.no_std { 1u8 } else { 0u8 });
    proof {
        let b = seq![if metadata.no_std { 1u8 } else { 0u8 }];
        lemma_feed(stream, b);
        stream = stream + b;
    }
    let deps = sort_strings(dep_strings(&metadata.dependencies));
    h.write_usize(deps.len());
    proof {
        crate::sort::lemma_sort_strs_len(dep_texts(metadata.dependencies@));
        lemma_feed(stream, u64_le(metadata.dependencies@.len() as u64));
        stream = stream + u64_le(metadata.dependencies@.len() as u64);
    }
    write_strs(&mut h, &deps, Ghost(stream));
    assert(stream + strs_stream(sort_strs(dep_texts(metadata.dependencies@)))
        =~= manifest_stream(metadata));
    h.finish()
}

pub open spec fn source_view(e: SourceEntry) -> (Seq<char>, u64, u64) {
    (e.path@, e.len, e.hash.0)
}

pub open spec fn sources_view(s: Seq<SourceEntry>) -> Seq<(Seq<char>, u64, u64)> {
    s.map_values(|e: SourceEntry| source_view(e))
}

/// The first position, from `i` on, where the recorded and the current
/// sources differ; `(k, true)` when the path differs there, `(k, false)`
/// when only the length or hash does.
pub open spec fn first_source_diff(before: Seq<(Seq<char>, u64, u64)>, now: Seq<(Seq<char>, u64, u64)>, i: int) -> Option<(int, bool)>
    decreases before.len() - i,
{
    if i < 0 || i >= before.len() || i >= now.len() {
        None
    } else if before[i].0 != now[i].0 {
        Some((i, true))
    } else if before[i].1 != now[i].1 || before[i].2 != now[i].2 {
        Some((i, false))
    } else {
        first_source_diff(before, now, i + 1)
    }
}

/// The freshness verdict, as a view: `Ok(svh)` for fresh, `Err(reason)`
/// otherwise, where a changed source carries its current path.
pub ghost enum StaleView {
    CompilerChanged,
    ManifestChanged,
    DependencyChanged,
    SourceChanged(Seq<char>),
    SourceSetChanged,
}

pub open spec fn spec_freshness(
    prev_compiler: u64,
    prev_manifest: u64,
    prev_deps: Seq<(PackageId, Hash64)>,
    prev_sources: Seq<(Seq<char>, u64, u64)>,
    prev_svh: u64,
    compiler: u64,
    manifest: u64,
    deps: Seq<(PackageId, Hash64)>,
    sources: Seq<(Seq<char>, u64, u64)>,
) -> Result<u64, StaleView> {
    if prev_compiler != compiler {
        Err(StaleView::CompilerChanged)
    } else if prev_manifest != manifest {
        Err(StaleView::ManifestChanged)
    } else if prev_deps != sort_by_id(deps) {
        Err(StaleView::DependencyChanged)
    } else if prev_sources.len() != sources.len() {
        Err(StaleView::SourceSetChanged)
    } else {
        match first_source_diff(prev_sources, sources, 0) {
            Some((_, true)) => Err(StaleView::SourceSetChanged),
            Some((k, false)) => Err(StaleView::SourceChanged(sources[k].0)),
            None => Ok(prev_svh),
        }
    }
}

pub open spec fn freshness_view(f: Freshness) -> Result<u64, StaleView> {
    match f {
        Freshness::Fresh(h) => Ok(h.0),
        Freshness::Stale(StaleReason::CompilerChanged) => Err(StaleView::CompilerChanged),
        Freshness::Stale(StaleReason::ManifestChanged) => Err(StaleView::ManifestChanged),
        Freshness::Stale(StaleReason::DependencyChanged) => Err(StaleView::DependencyChanged),
        Freshness::Stale(StaleReason::SourceChanged { path }) => Err(StaleView::SourceChanged(path@)),
        Freshness::Stale(StaleReason::SourceSetChanged) => Err(StaleView::SourceSetChanged),
        // Reasons that the comparison itself never gives.
        Freshness::Stale(_) => Err(StaleView::SourceSetChanged),
    }
}

impl Fingerprint {
    /// Builds the fingerprint of this build.
    pub fn of_build(
        compiler: Hash64,
        metadata: &PackageMetadata,
        own_svh: Hash64,
        deps: &[(PackageId, Hash64)],
        sources: Vec<SourceEntry>,
    ) -> (r: Self)
        ensures
            r.compiler == compiler,
            r.manifest.0 == stream_hash(manifest_stream(metadata)),
            r.own_svh == own_svh,
            r.deps@ == sort_by_id(deps@),
            r.sources@ == sources@,
    {
        let deps = sort_deps_by_id(deps);
        Fingerprint { compiler, manifest: manifest_hash(metadata), own_svh, deps, sources }
    }

    /// Compares the previous fingerprint (`self`) with the current state.
    ///
    /// `sources` are the ones collected now. When everything matches, the
    /// previous SVH comes back and the package's build can be skipped.
    pub fn freshness(
        &self,
        compiler: Hash64,
        metadata: &PackageMetadata,
        deps: &[(PackageId, Hash64)],
        sources: &[SourceEntry],
    ) -> (r: Freshness)
        ensures
            freshness_view(r) == spec_freshness(
                self.compiler.0,
                self.manifest.0,
                self.deps@,
                sources_view(self.sources@),
                self.own_svh.0,
                compiler.0,
                stream_hash(manifest_stream(metadata)),
                deps@,
                sources_view(sources@),
            ),
    {
        if self.compiler.0 != compiler.0 {
            return Freshness::Stale(StaleReason::CompilerChanged);
        }
        if self.manifest.0 != manifest_hash(metadata).0 {
            return Freshness::Stale(StaleReason::ManifestChanged);
        }
        let sorted = sort_deps_by_id(deps);
        if !deps_equal(self.deps.as_slice(), sorted.as_slice()) {
            return Freshness::Stale(StaleReason::DependencyChanged);
        }
        if self.sources.len() != sources.len() {
            return Freshness::Stale(StaleReason::SourceSetChanged);
        }
        let ghost bv = sources_view(self.sources@);
        let ghost nv = sources_view(sources@);
        let mut i: usize = 0;
        while i < sources.len()
            invariant
                i <= sources@.len(),
                self.sources@.len() == sources@.len(),
                self.compiler.0 == compiler.0,
                self.manifest.0 == stream_hash(manifest_stream(metadata)),
                self.deps@ == sort_by_id(deps@),
                bv == sources_view(self.sources@),
                nv == sources_view(sources@),
                first_source_diff(bv, nv, 0) == first_source_diff(bv, nv, i as int),
            decreases sources@.len() - i,
        {
            let before = &self.sources[i];
            let now = &sources[i];
            assert(bv[i as int] == source_view(*before));
            assert(nv[i as int] == source_view(*now));
            if !str_eq(before.path.as_str(), now.path.as_str()) {
                assert(first_source_diff(bv, nv, i as int) == Some((i as int, true)));
                return Freshness::Stale(StaleReason::SourceSetChanged);
            }
            if before.len != now.len || before.hash.0 != now.hash.0 {
                assert(first_source_diff(bv, nv, i as int) == Some((i as int, false)));
                let path = now.path.clone();
                assert(path@ == nv[i as int].0);
                return Freshness::Stale(StaleReason::SourceChanged { path });
            }
            assert(first_source_diff(bv, nv, i as int) == first_source_diff(bv, nv, i + 1));
            i = i + 1;
        }
        assert(first_source_diff(bv, nv, i as int) is None);
        Freshness::Fresh(self.own_svh)
    }
}

fn deps_equal(a: &[(PackageId, Hash64)], b: &[(PackageId, Hash64)]) -> (r: bool)
    ensures
        r == (a@ == b@),
{
    if a.len() != b.len() {
        return false;
    }
    let mut i: usize = 0;
    while i < a.len()
        invariant
            i <= a@.len(),
            a@.len() == b@.len(),
            forall|k: int| 0 <= k < i ==> a@[k] == b@[k],
        decreases a@.len() - i,
    {
        if a[i].0.0 != b[i].0.0 || a[i].1.0 != b[i].1.0 {
            assert(a@[i as int] != b@[i as int]);
            return false;
        }
        i = i + 1;
    }
    assert(a@ =~= b@);
    true
}

/// A fingerprint made from this build is fresh against the same inputs,
/// and hands back the SVH it recorded.
pub proof fn lemma_fresh_after_build(
    compiler: u64,
    manifest: u64,
    deps: Seq<(PackageId, Hash64)>,
    sources: Seq<(Seq<char>, u64, u64)>,
    svh: u64,
)
    ensures
        spec_freshness(compiler, manifest, sort_by_id(deps), sources, svh, compiler, manifest, deps, sources)
            == Ok::<u64, StaleView>(svh),
{
    lemma_no_diff_with_itself(sources, 0);
}

/// A fingerprint made from this build is fresh, and hands back the SVH it
/// recorded, whatever order the same dependencies are given in later, as
/// long as no package is listed twice.
pub proof fn lemma_fresh_after_build_any_order(
    compiler: u64,
    manifest: u64,
    deps: Seq<(PackageId, Hash64)>,
    deps_later: Seq<(PackageId, Hash64)>,
    sources: Seq<(Seq<char>, u64, u64)>,
    svh: u64,
)
    requires
        deps_later.to_multiset() == deps.to_multiset(),
        ids_distinct(deps),
        ids_distinct(deps_later),
    ensures
        spec_freshness(compiler, manifest, sort_by_id(deps), sources, svh, compiler, manifest, deps_later, sources)
            == Ok::<u64, StaleView>(svh),
{
    lemma_sort_by_id_order_free(deps, deps_later);
    lemma_no_diff_with_itself(sources, 0);
}

proof fn lemma_no_diff_with_itself(s: Seq<(Seq<char>, u64, u64)>, i: int)
    requires
        0 <= i,
    ensures
        first_source_diff(s, s, i) is None,
    decreases s.len() - i,
{
    if i < s.len() {
        lemma_no_diff_with_itself(s, i + 1);
    }
}

/// The order in which dependencies are given does not change freshness:
/// both the recorded and the current lists are compared sorted by id.
pub proof fn lemma_recorded_deps_sorted(deps: Seq<(PackageId, Hash64)>)
    ensures
        forall|a: int, b: int| 0 <= a < b < sort_by_id(deps).len() ==>
            #[trigger] sort_by_id(deps)[a].0.0 <= #[trigger] sort_by_id(deps)[b].0.0,
{
    crate::sort::lemma_sorted_by_id_is_sorted(deps);
}

/// The entry of one source file: its `/`-joined path, its byte length, and
/// the hash of its length-prefixed contents.
pub fn source_entry(components: &Vec<String>, bytes: &[u8]) -> (r: SourceEntry)
    ensures
        r.path@ == join(strings_view(components@), '/'),
        r.len == bytes@.len() as u64,
        r.hash.0 == stream_hash(length_prefixed(bytes@)),
{
    let mut h = StableHasher64::new();
    h.write_bytes(bytes);
    let mut path = String::new();
    push_joined(&mut path, components, '/');
    assert(path@ =~= join(strings_view(components@), '/'));
    SourceEntry { path, len: bytes.len() as u64, hash: h.finish() }
}


/// Inserts `x` after the last entry whose path is not greater.
pub open spec fn insert_source(s: Seq<(Seq<char>, u64, u64)>, x: (Seq<char>, u64, u64)) -> Seq<(Seq<char>, u64, u64)>
    decreases s.len(),
{
    if s.len() == 0 {
        seq![x]
    } else if lex_le(s.last().0, x.0) {
        s.push(x)
    } else {
        insert_source(s.drop_last(), x).push(s.last())
    }
}

/// A stable sort of source entries by path.
pub open spec fn sort_sources_spec(s: Seq<(Seq<char>, u64, u64)>) -> Seq<(Seq<char>, u64, u64)>
    decreases s.len(),
{
    if s.len() == 0 {
        Seq::empty()
    } else {
        insert_source(sort_sources_spec(s.drop_last()), s.last())
    }
}

proof fn lemma_insert_source_at(s: Seq<(Seq<char>, u64, u64)>, x: (Seq<char>, u64, u64), j: int)
    requires
        0 <= j <= s.len(),
        forall|k: int| j <= k < s.len() ==> !lex_le(#[trigger] s[k].0, x.0),
        j == 0 || lex_le(s[j - 1].0, x.0),
    ensures
        insert_source(s, x) == s.insert(j, x),
    decreases s.len(),
{
    if s.len() == 0 {
        assert(s.insert(j, x) =~= seq![x]);
    } else if j == s.len() {
        assert(s.insert(j, x) =~= s.push(x));
    } else {
        assert(!lex_le(s[s.len() - 1].0, x.0));
        let t = s.drop_last();
        assert forall|k: int| j <= k < t.len() implies !lex_le(#[trigger] t[k].0, x.0) by {
            assert(t[k] == s[k]);
        }
        lemma_insert_source_at(t, x, j);
        assert(t.insert(j, x).push(s.last()) =~= s.insert(j, x));
    }
}

/// Sorts the source entries by path, as found in no particular order on
/// disk, so the fingerprint does not depend on the order of the directory.
pub fn sort_sources(entries: Vec<SourceEntry>) -> (r: Vec<SourceEntry>)
    ensures
        sources_view(r@) == sort_sources_spec(sources_view(entries@)),
{
    let ghost sv = sources_view(entries@);
    let mut rest = entries;
    let mut out: Vec<SourceEntry> = Vec::new();
    let ghost n = sv.len();
    assert(sv.take(0) =~= Seq::<(Seq<char>, u64, u64)>::empty());
    assert(sources_view(out@) =~= Seq::<(Seq<char>, u64, u64)>::empty());
    while rest.len() > 0
        invariant
            rest@.len() <= n,
            n == sv.len(),
            sources_view(rest@) == sv.skip(n - rest@.len()),
            sources_view(out@) == sort_sources_spec(sv.take(n - rest@.len())),
        decreases rest@.len(),
    {
        let ghost i = n - rest@.len();
        let ghost rb = rest@;
        let x = rest.remove(0);
        proof {
            assert(x == rb[0]);
            assert(sources_view(rb)[0] == source_view(rb[0]));
            assert(sources_view(rb) == sv.skip(i));
            assert(sv.skip(i)[0] == sv[i]);
            assert(source_view(x) == sv[i]);
            assert(rest@ =~= rb.subrange(1, rb.len() as int));
            assert(sources_view(rest@) =~= sv.skip(i + 1)) by {
                assert forall|k: int| 0 <= k < sources_view(rest@).len() implies #[trigger] sources_view(rest@)[k] == sv.skip(i + 1)[k] by {
                    assert(rest@[k] == rb[k + 1]);
                    assert(sources_view(rb)[k + 1] == source_view(rb[k + 1]));
                    assert(sv.skip(i)[k + 1] == sv[i + 1 + k]);
                }
            }
            let t = sv.take(i + 1);
            assert(t.drop_last() =~= sv.take(i));
            assert(t.last() == sv[i]);
        }
        let mut j: usize = out.len();
        while j > 0 && !str_le(out[j - 1].path.as_str(), x.path.as_str())
            invariant
                j <= out@.len(),
                forall|k: int| j <= k < out@.len() ==> !lex_le(#[trigger] sources_view(out@)[k].0, x.path@),
            decreases j,
        {
            assert(sources_view(out@)[j - 1].0 == out@[j - 1].path@);
            j = j - 1;
        }
        proof {
            let so = sources_view(out@);
            if j > 0 {
                assert(so[j - 1].0 == out@[j - 1].path@);
            }
            lemma_insert_source_at(so, source_view(x), j as int);
        }
        let ghost before = out@;
        out.insert(j, x);
        assert(sources_view(out@) =~= sources_view(before).insert(j as int, source_view(x)));
    }
    assert(sv.take(n as int) =~= sv);
    out
}

} // verus!
