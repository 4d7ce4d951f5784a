use biwac::driver::dep_graph::{DepDiscovery, DepGraph};
use biwac::driver::{
    bin_file_name, build_freshness, compiler_identity, dep_svhs, is_direct, metadata_file_name,
    mir_file_name, stale_bins, BuildOptions, DisplayDepth,
};
use biwac::fingerprint::{Fingerprint, Freshness, StaleReason};
use biwac::hash::Hash64;
use biwac::package::{PackageId, PackageMetadata, PackageName, PackageVersion};

/// Runs the discovery on a set of manifests: each package with its direct
/// dependencies. Returns the graph and the order the manifests were read in.
fn discover(root: &[&str], manifests: &[(&str, &[&str])]) -> (DepGraph, Vec<String>) {
    let mut d = DepDiscovery::new(root);
    let mut order = Vec::new();
    while let Some(name) = d.next_package() {
        let deps = manifests
            .iter()
            .find(|(n, _)| *n == name)
            .map(|(_, deps)| deps.iter().map(|s| s.to_string()).collect())
            .unwrap_or_default();
        order.push(name);
        d.record(deps);
    }
    (d.into_graph(), order)
}

fn sorted_batches(graph: &DepGraph) -> Result<Vec<Vec<String>>, ()> {
    graph.topo_batches().map(|bs| {
        bs.into_iter()
            .map(|mut b| {
                b.sort();
                b
            })
            .collect()
    })
}

fn strings(v: &[&str]) -> Vec<String> {
    v.iter().map(|s| s.to_string()).collect()
}

#[test]
fn discovery_is_breadth_first_and_visits_once() {
    let (_, order) = discover(
        &["greeter", "std"],
        &[("greeter", &["color", "std"]), ("color", &["std"]), ("std", &[])],
    );
    assert_eq!(order, strings(&["greeter", "std", "color"]));
}

#[test]
fn no_dependencies_give_an_empty_graph() {
    let (graph, order) = discover(&[], &[]);
    assert!(order.is_empty());
    assert!(graph.all_packages().is_empty());
    assert_eq!(graph.topo_batches(), Ok(vec![]));
}

#[test]
fn batches_put_dependencies_first() {
    let (graph, _) = discover(
        &["greeter", "std"],
        &[("greeter", &["color", "std"]), ("color", &["std"]), ("std", &[])],
    );
    assert_eq!(
        sorted_batches(&graph),
        Ok(vec![strings(&["std"]), strings(&["color"]), strings(&["greeter"])])
    );
}

#[test]
fn independent_packages_share_a_batch() {
    let (graph, _) = discover(
        &["app_a", "app_b"],
        &[("app_a", &["std"]), ("app_b", &["std"]), ("std", &[])],
    );
    assert_eq!(
        sorted_batches(&graph),
        Ok(vec![strings(&["std"]), strings(&["app_a", "app_b"])])
    );
}

#[test]
fn circular_dependency_has_no_order() {
    let (graph, _) = discover(&["a"], &[("a", &["b"]), ("b", &["a"])]);
    assert_eq!(graph.topo_batches(), Err(()));
    let (graph, _) = discover(&["a", "c"], &[("a", &["a"]), ("c", &[])]);
    assert_eq!(graph.topo_batches(), Err(()));
}

#[test]
fn all_packages_are_sorted_and_numbered_in_that_order() {
    let (graph, _) = discover(
        &["greeter", "std"],
        &[("greeter", &["color", "std"]), ("color", &["std"]), ("std", &[])],
    );
    assert_eq!(graph.all_packages(), strings(&["color", "greeter", "std"]));
    assert_eq!(graph.pkg_id("color"), Some(PackageId::new(2)));
    assert_eq!(graph.pkg_id("greeter"), Some(PackageId::new(3)));
    assert_eq!(graph.pkg_id("std"), Some(PackageId::new(4)));
    assert_eq!(graph.pkg_id("other"), None);
}

#[test]
fn options_with_emit_rebuild() {
    let o = BuildOptions { force_rebuild: false, emit_mir: true }.effective();
    assert!(o.force_rebuild && o.emit_mir);
    let o = BuildOptions::default().effective();
    assert!(!o.force_rebuild && !o.emit_mir);
    assert_eq!(DisplayDepth::Root.indent(), "");
    assert_eq!(DisplayDepth::Dependency.indent(), "  ");
}

#[test]
fn file_names() {
    assert_eq!(metadata_file_name("color"), "color.biwameta");
    assert_eq!(bin_file_name("color"), "color.ts");
    assert_eq!(mir_file_name("test1"), "test1.mir");
}

#[test]
fn stale_bins_are_those_of_packages_that_left() {
    let files = strings(&["std.ts", "color.ts", "old.ts", "main.ts", "notes.txt", "ts"]);
    let deps = strings(&["std", "color"]);
    assert_eq!(stale_bins(&files, &deps, "main"), strings(&["old.ts"]));
}

#[test]
fn dependency_hashes_follow_the_names() {
    let svhs = vec![
        (PackageId::new(2), Hash64::from_u64(20)),
        (PackageId::new(4), Hash64::from_u64(40)),
    ];
    let ids = vec![Some(PackageId::new(4)), None, Some(PackageId::new(3)), Some(PackageId::new(2))];
    assert_eq!(
        dep_svhs(&ids, &svhs),
        vec![(PackageId::new(4), Hash64::from_u64(40)), (PackageId::new(2), Hash64::from_u64(20))]
    );
    assert!(is_direct(&strings(&["std", "color"]), "color"));
    assert!(!is_direct(&strings(&["std"]), "color"));
}

fn meta() -> PackageMetadata {
    PackageMetadata {
        name: PackageName::parse("demo").unwrap(),
        version: PackageVersion::new(1, 0, 0),
        description: None,
        dependencies: vec![],
        no_std: false,
    }
}

#[test]
fn freshness_decisions() {
    let m = meta();
    let opts = BuildOptions::default();
    assert_eq!(
        build_freshness(BuildOptions { force_rebuild: true, emit_mir: false }, true, true, None, &m, &[], &[]),
        Freshness::Stale(StaleReason::Forced)
    );
    assert_eq!(build_freshness(opts, false, true, None, &m, &[], &[]), Freshness::Stale(StaleReason::NoPreviousBuild));
    assert_eq!(build_freshness(opts, true, false, None, &m, &[], &[]), Freshness::Stale(StaleReason::MissingOutput));
    assert_eq!(build_freshness(opts, true, true, None, &m, &[], &[]), Freshness::Stale(StaleReason::NoPreviousBuild));
    assert_eq!(
        build_freshness(opts, true, true, Some(b"garbage"), &m, &[], &[]),
        Freshness::Stale(StaleReason::UnreadableFingerprint)
    );
    let fp = Fingerprint::of_build(compiler_identity(), &m, Hash64::from_u64(99), &[], vec![]);
    let bytes = fp.encode_file();
    assert_eq!(build_freshness(opts, true, true, Some(&bytes), &m, &[], &[]), Freshness::Fresh(Hash64::from_u64(99)));
    let other = Fingerprint::of_build(Hash64::from_u64(1), &m, Hash64::from_u64(99), &[], vec![]);
    assert_eq!(
        build_freshness(opts, true, true, Some(&other.encode_file()), &m, &[], &[]),
        Freshness::Stale(StaleReason::CompilerChanged)
    );
    assert_eq!(StaleReason::MissingOutput.describe(), "the output is missing");
}

#[test]
fn transitive_dependencies_are_sorted_and_complete() {
    let (graph, _) = discover(
        &["greeter", "std"],
        &[("greeter", &["color", "std"]), ("color", &["std"]), ("std", &[])],
    );
    assert_eq!(graph.transitive_deps("greeter"), strings(&["color", "std"]));
    assert_eq!(graph.transitive_deps("color"), strings(&["std"]));
    assert!(graph.transitive_deps("std").is_empty());
    assert!(graph.transitive_deps("unknown").is_empty());
}

#[test]
fn batch_follows_the_longest_dependency_chain() {
    let (graph, _) = discover(
        &["app", "tool"],
        &[("app", &["gfx", "std"]), ("tool", &["std"]), ("gfx", &["std"]), ("std", &[])],
    );
    assert_eq!(
        sorted_batches(&graph),
        Ok(vec![strings(&["std"]), strings(&["gfx", "tool"]), strings(&["app"])])
    );
}

#[test]
fn self_dependency_has_no_order() {
    let (graph, _) = discover(&["a"], &[("a", &["a"])]);
    assert_eq!(graph.topo_batches(), Err(()));
}
