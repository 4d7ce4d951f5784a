use biwac::fetch::{no_matching_version, pick_version};
use biwac::package::PackageVersion;

fn strings(v: &[&str]) -> Vec<String> {
    v.iter().map(|s| s.to_string()).collect()
}

#[test]
fn newest_in_range_is_picked() {
    let listed = strings(&["0.1.0", "0.3.0", "garbage", "0.2.5", "1.0.0"]);
    let min = PackageVersion::new(0, 2, 0);
    let max = PackageVersion::new(0, 9, 9);
    assert_eq!(pick_version(&listed, &min, Some(&max)), Some(1));
    assert_eq!(pick_version(&listed, &min, None), Some(4));
}

#[test]
fn equal_versions_pick_the_later() {
    let listed = strings(&["1.0.0", "1.0.0"]);
    assert_eq!(pick_version(&listed, &PackageVersion::new(1, 0, 0), None), Some(1));
}

#[test]
fn nothing_fits() {
    let listed = strings(&["0.1.0", "x"]);
    assert_eq!(pick_version(&listed, &PackageVersion::new(2, 0, 0), None), None);
    assert_eq!(
        no_matching_version("color", &PackageVersion::new(2, 0, 0), None),
        "no version of `color` satisfies 2.0.0..*"
    );
    assert_eq!(
        no_matching_version("color", &PackageVersion::new(2, 0, 0), Some(&PackageVersion::new(3, 1, 0))),
        "no version of `color` satisfies 2.0.0..3.1.0"
    );
}
