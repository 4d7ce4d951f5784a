//! Driving a build: the options, the order in which the dependency
//! packages are built, and the decisions on whether each needs rebuilding.
//! Reading and writing files is left to the caller, which hands the
//! decisions here what it found.

pub mod dep_graph;

use vstd::prelude::*;
use crate::dependency_metadata::format::BIWAC_DEPENDENCY_METADATA_FORMAT_VERSION;
use crate::fingerprint::{
    compiler_hash, compiler_stream, freshness_view, manifest_stream, spec_freshness, sources_view,
    Freshness, SourceEntry, StaleReason,
};
use crate::fingerprint::disk::{parse_fingerprint, FingerprintView};
use crate::fingerprint::Fingerprint;
use crate::hash::{stream_hash, Hash64};
use crate::package::{PackageId, PackageMetadata};
use crate::sort::string_views;
use crate::text::{push_str, string_of_str};

verus! {

/// How a build behaves.
#[derive(Debug, Clone, Copy)]
pub struct BuildOptions {
    /// Skip the freshness check and rebuild every package.
    pub force_rebuild: bool,
    /// Build the MIR and write its text to `<build dir>/<package>.mir`.
    ///
    /// The default build makes no MIR: TypeScript is generated from the
    /// HIR, so the MIR would only be thrown away.
    pub emit_mir: bool,
}

impl Default for BuildOptions {
    fn default() -> (r: Self)
        ensures
            !r.force_rebuild,
            !r.emit_mir,
    {
        BuildOptions { force_rebuild: false, emit_mir: false }
    }
}

impl BuildOptions {
    /// The options a build runs with. The MIR is no artifact and is not
    /// cached, so a build that asks for it rebuilds: skipped as fresh, it
    /// would end having written nothing.
    pub fn effective(self) -> (r: BuildOptions)
        ensures
            r.force_rebuild == (self.force_rebuild || self.emit_mir),
            r.emit_mir == self.emit_mir,
    {
        BuildOptions { force_rebuild: self.force_rebuild || self.emit_mir, emit_mir: self.emit_mir }
    }
}

/// The indentation of the progress lines: the root package and its
/// dependencies only look different.
#[derive(Debug, Clone, Copy, PartialEq, Eq, Structural)]
pub enum DisplayDepth {
    Root,
    Dependency,
}

impl DisplayDepth {
    pub fn indent(&self) -> (r: &'static str)
        ensures
            r@ == match self {
                DisplayDepth::Root => ""@,
                DisplayDepth::Dependency => "  "@,
            },
    {
        match self {
            DisplayDepth::Root => "",
            DisplayDepth::Dependency => "  ",
        }
    }
}

/// The identity of this compiler: when it differs from the previous build,
/// every cache is invalid. The `.biwameta` format version is mixed in, so a
/// format change rebuilds rather than fails on an old artifact.
pub fn compiler_identity() -> (r: Hash64)
    ensures
        r.0 == stream_hash(compiler_stream(seq![BIWAC_DEPENDENCY_METADATA_FORMAT_VERSION])),
{
    let versions = [BIWAC_DEPENDENCY_METADATA_FORMAT_VERSION];
    assert(versions@ =~= seq![BIWAC_DEPENDENCY_METADATA_FORMAT_VERSION]);
    compiler_hash(&versions)
}

/// What the freshness check concludes, as a view (see [`freshness_view`]),
/// from what was found in the build directory: whether the signature cache
/// and the generated output exist, and the bytes of the previous
/// fingerprint if it could be read.
pub open spec fn spec_build_freshness(
    force_rebuild: bool,
    has_metadata: bool,
    has_output: bool,
    fingerprint: Option<Seq<u8>>,
    compiler: u64,
    manifest: u64,
    deps: Seq<(PackageId, Hash64)>,
    sources: Seq<(Seq<char>, u64, u64)>,
) -> Option<Result<u64, crate::fingerprint::StaleView>> {
    if force_rebuild || !has_metadata || !has_output {
        None
    } else {
        match fingerprint {
            None => None,
            Some(bytes) => match parse_fingerprint(bytes) {
                Err(_) => None,
                Ok(prev) => Some(
                    spec_freshness(
                        prev.compiler,
                        prev.manifest,
                        prev.deps,
                        prev.sources,
                        prev.own_svh,
                        compiler,
                        manifest,
                        deps,
                        sources,
                    ),
                ),
            },
        }
    }
}

/// Decides whether a package must be rebuilt, from what the caller found:
/// whether `<package>.biwameta` and the generated output exist, and the
/// previous fingerprint's bytes (`None` when it could not be read).
///
/// A signature cache that is gone makes any record worthless; an output
/// that is gone rebuilds whatever the record says, so that a build never
/// claims "fresh" with nothing generated. A fingerprint of another format,
/// or a broken one, just means the previous build cannot be used.
pub fn build_freshness(
    options: BuildOptions,
    has_metadata: bool,
    has_output: bool,
    fingerprint: Option<&[u8]>,
    metadata: &PackageMetadata,
    dep_svhs: &[(PackageId, Hash64)],
    sources: &[SourceEntry],
) -> (r: Freshness)
    ensures
        options.force_rebuild ==> r == Freshness::Stale(StaleReason::Forced),
        !options.force_rebuild && !has_metadata ==> r == Freshness::Stale(StaleReason::NoPreviousBuild),
        !options.force_rebuild && has_metadata && !has_output ==> r == Freshness::Stale(
            StaleReason::MissingOutput,
        ),
        !options.force_rebuild && has_metadata && has_output ==> match fingerprint {
            None => r == Freshness::Stale(StaleReason::NoPreviousBuild),
            Some(bytes) => match parse_fingerprint(bytes@) {
                Err(_) => r == Freshness::Stale(StaleReason::UnreadableFingerprint),
                Ok(_) => Some(freshness_view(r)) == spec_build_freshness(
                    options.force_rebuild,
                    has_metadata,
                    has_output,
                    Some(bytes@),
                    stream_hash(compiler_stream(seq![BIWAC_DEPENDENCY_METADATA_FORMAT_VERSION])),
                    stream_hash(manifest_stream(metadata)),
                    dep_svhs@,
                    sources_view(sources@),
                ),
            },
        },
{
    if options.force_rebuild {
        return Freshness::Stale(StaleReason::Forced);
    }
    if !has_metadata {
        return Freshness::Stale(StaleReason::NoPreviousBuild);
    }
    if !has_output {
        return Freshness::Stale(StaleReason::MissingOutput);
    }
    let data = match fingerprint {
        Some(d) => d,
        None => return Freshness::Stale(StaleReason::NoPreviousBuild),
    };
    let previous = match Fingerprint::decode_file(data) {
        Ok(p) => p,
        Err(_) => return Freshness::Stale(StaleReason::UnreadableFingerprint),
    };
    previous.freshness(compiler_identity(), metadata, dep_svhs, sources)
}

/// `<package>.<extension>`.
pub open spec fn file_name_with(pkg_name: Seq<char>, extension: Seq<char>) -> Seq<char> {
    pkg_name + seq!['.'] + extension
}

fn file_name(pkg_name: &str, extension: &str) -> (r: String)
    ensures
        r@ == file_name_with(pkg_name@, extension@),
{
    let mut s = string_of_str(pkg_name);
    push_str(&mut s, ".");
    push_str(&mut s, extension);
    proof {
        reveal_strlit(".");
    }
    assert(s@ =~= file_name_with(pkg_name@, extension@));
    s
}

/// The name of a package's signature cache in its build directory.
pub fn metadata_file_name(pkg_name: &str) -> (r: String)
    ensures
        r@ == file_name_with(pkg_name@, "biwameta"@),
{
    file_name(pkg_name, "biwameta")
}

/// The name of a package's generated TypeScript, in the `typescript`
/// directory of its build directory.
pub fn bin_file_name(pkg_name: &str) -> (r: String)
    ensures
        r@ == file_name_with(pkg_name@, "ts"@),
{
    file_name(pkg_name, "ts")
}

/// The name of the MIR text written for `--emit mir`.
pub fn mir_file_name(pkg_name: &str) -> (r: String)
    ensures
        r@ == file_name_with(pkg_name@, "mir"@),
{
    file_name(pkg_name, "mir")
}

/// The generated files the root package's output directory keeps: those
/// of every package of the graph, and its own.
pub open spec fn kept_bins(dep_names: Seq<Seq<char>>, self_pkg: Seq<char>) -> Set<Seq<char>> {
    Set::new(|f: Seq<char>| f == file_name_with(self_pkg, "ts"@) || exists|i: int|
        0 <= i < dep_names.len() && f == file_name_with(#[trigger] dep_names[i], "ts"@))
}

/// Whether a file name ends in `.ts`.
pub open spec fn has_ts_extension(f: Seq<char>) -> bool {
    f.len() >= 3 && f.subrange(f.len() - 3, f.len() as int) == ".ts"@
}

/// Of the files found in the root package's output directory, those to
/// remove: generated files of packages that left the graph. Left there,
/// a dropped dependency's old code would stay in the output.
pub fn stale_bins(files: &[String], dep_names: &[String], self_pkg: &str) -> (r: Vec<String>)
    ensures
        string_views(r@) == string_views(files@).filter(
            |f: Seq<char>| has_ts_extension(f) && !kept_bins(string_views(dep_names@), self_pkg@).contains(f),
        ),
{
    let ghost keep = kept_bins(string_views(dep_names@), self_pkg@);
    let ghost pred = |f: Seq<char>| has_ts_extension(f) && !keep.contains(f);
    let ghost fv = string_views(files@);
    let mut out: Vec<String> = Vec::new();
    let mut i: usize = 0;
    proof {
        reveal_strlit(".ts");
        assert(fv.take(0) =~= Seq::<Seq<char>>::empty());
        reveal(Seq::filter);
    }
    while i < files.len()
        invariant
            i <= files@.len(),
            fv == string_views(files@),
            keep == kept_bins(string_views(dep_names@), self_pkg@),
            pred == (|f: Seq<char>| has_ts_extension(f) && !keep.contains(f)),
            string_views(out@) == fv.take(i as int).filter(pred),
        decreases files@.len() - i,
    {
        let f = files[i].as_str();
        proof {
            let t = fv.take(i + 1);
            assert(t.drop_last() =~= fv.take(i as int));
            assert(t.last() == f@);
            reveal(Seq::filter);
        }
        let is_ts = ends_with_ts(f);
        if is_ts && !is_kept(f, dep_names, self_pkg) {
            let ghost before = out@;
            out.push(string_of_str(f));
            assert(string_views(out@) =~= string_views(before).push(f@));
        }
        i = i + 1;
    }
    assert(fv.take(files@.len() as int) =~= fv);
    out
}

fn ends_with_ts(f: &str) -> (r: bool)
    ensures
        r == has_ts_extension(f@),
{
    let cs = crate::text::chars_of(f);
    let n = cs.len();
    proof {
        reveal_strlit(".ts");
    }
    if n < 3 {
        return false;
    }
    let r = cs[n - 3] == '.' && cs[n - 2] == 't' && cs[n - 1] == 's';
    proof {
        let sub = f@.subrange(n - 3, n as int);
        assert(cs@ == f@);
        assert(".ts"@ =~= seq!['.', 't', 's']);
        if r {
            assert(sub =~= ".ts"@);
        } else if sub == ".ts"@ {
            assert(sub[0] == '.' && sub[1] == 't' && sub[2] == 's');
        }
    }
    r
}

fn is_kept(f: &str, dep_names: &[String], self_pkg: &str) -> (r: bool)
    ensures
        r == kept_bins(string_views(dep_names@), self_pkg@).contains(f@),
{
    let own = bin_file_name(self_pkg);
    if crate::ident::str_eq(own.as_str(), f) {
        return true;
    }
    let mut i: usize = 0;
    while i < dep_names.len()
        invariant
            i <= dep_names@.len(),
            f@ != file_name_with(self_pkg@, "ts"@),
            forall|k: int| 0 <= k < i ==> f@ != file_name_with(#[trigger] string_views(dep_names@)[k], "ts"@),
        decreases dep_names@.len() - i,
    {
        let name = bin_file_name(dep_names[i].as_str());
        if crate::ident::str_eq(name.as_str(), f) {
            assert(string_views(dep_names@)[i as int] == dep_names@[i as int]@);
            return true;
        }
        assert(string_views(dep_names@)[i as int] == dep_names@[i as int]@);
        i = i + 1;
    }
    false
}

/// The interface hash of each package in `names` that has one yet, with
/// its id: what a package's build reads of its dependencies.
pub open spec fn spec_dep_svhs(
    ids: Seq<Option<PackageId>>,
    svhs: Seq<(PackageId, Hash64)>,
) -> Seq<(PackageId, Hash64)>
    decreases ids.len(),
{
    if ids.len() == 0 {
        Seq::empty()
    } else {
        let rest = spec_dep_svhs(ids.drop_last(), svhs);
        match ids.last() {
            None => rest,
            Some(id) => match svh_of(svhs, id) {
                None => rest,
                Some(h) => rest.push((id, h)),
            },
        }
    }
}

/// The hash recorded for `id`, the first one if several are.
pub open spec fn svh_of(svhs: Seq<(PackageId, Hash64)>, id: PackageId) -> Option<Hash64>
    decreases svhs.len(),
{
    if svhs.len() == 0 {
        None
    } else if svhs[0].0 == id {
        Some(svhs[0].1)
    } else {
        svh_of(svhs.drop_first(), id)
    }
}

fn find_svh(svhs: &[(PackageId, Hash64)], id: PackageId) -> (r: Option<Hash64>)
    ensures
        r == svh_of(svhs@, id),
{
    let mut i: usize = 0;
    assert(svhs@.skip(0) =~= svhs@);
    while i < svhs.len()
        invariant
            i <= svhs@.len(),
            svh_of(svhs@, id) == svh_of(svhs@.skip(i as int), id),
        decreases svhs@.len() - i,
    {
        proof {
            let rest = svhs@.skip(i as int);
            assert(rest[0] == svhs@[i as int]);
            assert(rest.drop_first() =~= svhs@.skip(i + 1));
        }
        if svhs[i].0.0 == id.0 {
            return Some(svhs[i].1);
        }
        i = i + 1;
    }
    None
}

/// The interface hashes a package's build reads: for each package of
/// `ids` (looked up in the graph) whose hash is known, the id and hash.
pub fn dep_svhs(ids: &[Option<PackageId>], svhs: &[(PackageId, Hash64)]) -> (r: Vec<(PackageId, Hash64)>)
    ensures
        r@ == spec_dep_svhs(ids@, svhs@),
{
    let mut out: Vec<(PackageId, Hash64)> = Vec::new();
    let mut i: usize = 0;
    assert(ids@.take(0) =~= Seq::<Option<PackageId>>::empty());
    while i < ids.len()
        invariant
            i <= ids@.len(),
            out@ == spec_dep_svhs(ids@.take(i as int), svhs@),
        decreases ids@.len() - i,
    {
        proof {
            let t = ids@.take(i + 1);
            assert(t.drop_last() =~= ids@.take(i as int));
            assert(t.last() == ids@[i as int]);
        }
        match ids[i] {
            None => {},
            Some(id) => match find_svh(svhs, id) {
                None => {},
                Some(h) => {
                    out.push((id, h));
                },
            },
        }
        i = i + 1;
    }
    assert(ids@.take(ids@.len() as int) =~= ids@);
    out
}

/// Whether `name` is among the direct dependencies: only those can be
/// named (imported) by the package being built.
pub fn is_direct(direct_dep_names: &[String], name: &str) -> (r: bool)
    ensures
        r == string_views(direct_dep_names@).contains(name@),
{
    let mut i: usize = 0;
    while i < direct_dep_names.len()
        invariant
            i <= direct_dep_names@.len(),
            forall|k: int| 0 <= k < i ==> #[trigger] string_views(direct_dep_names@)[k] != name@,
        decreases direct_dep_names@.len() - i,
    {
        assert(string_views(direct_dep_names@)[i as int] == direct_dep_names@[i as int]@);
        if crate::ident::str_eq(direct_dep_names[i].as_str(), name) {
            return true;
        }
        i = i + 1;
    }
    false
}

} // verus!
