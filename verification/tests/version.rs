use singlerpc::version::is_newer;
use singlerpc::version::latest_version;

fn expected(latest: &str, current: &str) -> bool {
    let parse = |v: &str| -> Vec<u32> { v.split('.').filter_map(|s| s.parse().ok()).collect() };
    parse(latest) > parse(current)
}

#[test]
fn versions_are_ordered_by_their_numbers() {
    assert!(is_newer("1.2.4", "1.2.3"));
    assert!(!is_newer("1.2.3", "1.2.3"));
    assert!(!is_newer("1.2.3", "1.2.4"));
    assert!(is_newer("1.10.0", "1.9.9"));
    assert!(is_newer("1.2.0", "1.2"));
    assert!(!is_newer("", ""));
}

#[test]
fn every_pair_of_odd_versions_is_ordered_as_lists_of_numbers() {
    let versions = [
        "",
        ".",
        "0",
        "+1",
        "-1",
        "-0",
        "+",
        "++1",
        "1.x.3",
        "1.3",
        "1.2.3-rc1",
        "4294967295",
        "4294967296",
        "99999999999999999999",
        "0004294967295",
        "1. 2",
        "1.\u{661}",
        "2.0.0",
        "10",
    ];
    for a in versions {
        for b in versions {
            assert_eq!(is_newer(a, b), expected(a, b), "{a} {b}");
        }
    }
}

#[test]
fn newer_is_a_strict_order() {
    let versions = ["0.9", "1", "1.0", "1.0.1", "1.1", "2"];
    for (i, a) in versions.iter().enumerate() {
        for (j, b) in versions.iter().enumerate() {
            assert_eq!(is_newer(a, b), i > j);
        }
    }
}

#[test]
fn the_version_stands_behind_the_last_tag() {
    let base = "https://github.com/iamkunal9/singleRPC/releases";
    assert_eq!(
        latest_version(&format!("{base}/tag/v1.4.0")),
        Some("1.4.0".to_string())
    );
    assert_eq!(
        latest_version(&format!("{base}/tag/1.4.0 ")),
        Some("1.4.0".to_string())
    );
    assert_eq!(latest_version(&format!("{base}/tag/")), None);
    assert_eq!(latest_version("/tag/tag/"), None);
    assert_eq!(latest_version("/tag/a/tag/vvb"), Some("b".to_string()));
    assert_eq!(latest_version("v2"), Some("2".to_string()));
    assert_eq!(latest_version("v"), Some("".to_string()));
    assert_eq!(latest_version(""), None);
}
