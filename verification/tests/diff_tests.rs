use yarn_lock_diff::diff::{diff_package_versions, get_changed_packages};
use yarn_lock_diff::PackageVersions;

fn map_of(entries: &[(&str, &[&str])]) -> PackageVersions {
    let mut map = PackageVersions::new();
    for (package, versions) in entries {
        for version in *versions {
            map.insert_version(package, version);
        }
    }
    map
}

#[test]
fn diff_with_bump() {
    let before = map_of(&[("some-package", &["1.0.0"]), ("unchanged-package", &["2.0.0"])]);
    let after = map_of(&[("some-package", &["1.2.3"]), ("unchanged-package", &["2.0.0"])]);

    let diff = diff_package_versions(&before, &after);
    assert_eq!(diff.len(), 1);
    assert!(diff.contains("some-package"));
}

#[test]
fn diff_with_addition() {
    let before = map_of(&[("some-package", &["1.0.0"]), ("unchanged-package", &["2.0.0"])]);
    let after = map_of(
        &[
            ("some-package", &["1.0.0", "1.2.3"] as &[&str]),
            ("unchanged-package", &["2.0.0"]),
            ("new-package", &["3.0.0"]),
        ],
    );

    let diff = diff_package_versions(&before, &after);
    assert_eq!(diff.len(), 2);
    assert!(diff.contains("some-package"));
    assert!(diff.contains("new-package"));
}

#[test]
fn diff_with_removal() {
    let before = map_of(
        &[
            ("some-package", &["1.0.0", "1.2.3"] as &[&str]),
            ("unchanged-package", &["2.0.0"]),
            ("removed-package", &["3.0.0"]),
        ],
    );
    let after = map_of(&[("some-package", &["1.0.0"]), ("unchanged-package", &["2.0.0"])]);

    let diff = diff_package_versions(&before, &after);
    assert_eq!(diff.len(), 2);
    assert!(diff.contains("some-package"));
    assert!(diff.contains("removed-package"));
}

#[test]
fn diff_of_equal_maps_is_empty() {
    let a = map_of(&[("some-package", &["1.0.0", "1.2.3"] as &[&str]), ("other", &["2.0.0"])]);
    let b = map_of(&[("some-package", &["1.0.0", "1.2.3"] as &[&str]), ("other", &["2.0.0"])]);

    let diff = diff_package_versions(&a, &b);
    assert_eq!(diff.len(), 0);
}

#[test]
fn diff_of_empty_maps_is_empty() {
    let a = PackageVersions::new();
    let b = PackageVersions::new();

    let diff = diff_package_versions(&a, &b);
    assert_eq!(diff.len(), 0);
}

#[test]
fn get_changed_packages_diffs_previous_against_current() {
    let previous = map_of(&[("some-package", &["1.0.0"])]);
    let current = map_of(&[("some-package", &["1.0.0"]), ("new-package", &["3.0.0"])]);

    let changed = get_changed_packages(&current, &previous);
    assert_eq!(changed.len(), 1);
    assert!(changed.contains("new-package"));
}

#[test]
fn inserting_a_version_twice_keeps_one_copy() {
    let mut map = PackageVersions::new();
    map.insert_version("pkg", "1.0.0");
    map.insert_version("pkg", "1.0.0");
    assert_eq!(map.package_count(), 1);
    assert_eq!(map.version_count("pkg"), 1);
    assert!(map.has_version("pkg", "1.0.0"));
}

#[test]
fn package_names_lists_each_package_once() {
    let map = map_of(&[("a-package", &["1.0.0"]), ("b-package", &["2.0.0"])]);
    let mut names = map.package_names();
    names.sort();
    assert_eq!(names, vec!["a-package".to_string(), "b-package".to_string()]);
}
