use russus_launcher::order::{compare_versions, version_is_older};
use russus_launcher::version::{normalize_version, parse_parts};
use std::cmp::Ordering;

#[test]
fn numeric_compare_ten_above_nine() {
    assert_eq!(compare_versions("1.10", "1.9"), Ordering::Greater);
    assert_eq!(compare_versions("1.9", "1.10"), Ordering::Less);
}

#[test]
fn compare_ignores_leading_v_and_space() {
    assert_eq!(compare_versions("v1.2.3", "1.2.3"), Ordering::Equal);
    assert_eq!(compare_versions("  V2.0 ", "2.0"), Ordering::Equal);
    assert_eq!(compare_versions("vv3", "3"), Ordering::Equal);
}

#[test]
fn compare_pads_with_zeros() {
    assert_eq!(compare_versions("1.0", "1"), Ordering::Equal);
    assert_eq!(compare_versions("1.0.0.0", "1"), Ordering::Equal);
    assert_eq!(compare_versions("1.0.1", "1"), Ordering::Greater);
    assert_eq!(compare_versions("", "0"), Ordering::Equal);
}

#[test]
fn compare_drops_prerelease_and_build_suffix() {
    assert_eq!(compare_versions("1.2.3-beta.4", "1.2.3"), Ordering::Equal);
    assert_eq!(compare_versions("1.2.3+build7", "1.2.3"), Ordering::Equal);
    assert_eq!(compare_versions("1.2.4-rc1", "1.2.3"), Ordering::Greater);
}

#[test]
fn compare_reads_leading_digits_of_each_part() {
    assert_eq!(compare_versions("1.2a", "1.2"), Ordering::Equal);
    assert_eq!(compare_versions("1.x", "1.0"), Ordering::Equal);
    assert_eq!(compare_versions("0.7.1", "0.7.10"), Ordering::Less);
}

#[test]
fn compare_is_reflexive_and_antisymmetric_on_samples() {
    let vs = ["1", "1.0", "1.2", "1.10", "v2", "2.0.1", "0.9.9", "10", "1.2.3-rc1", ""];
    for a in vs {
        assert_eq!(compare_versions(a, a), Ordering::Equal);
        for b in vs {
            assert_eq!(compare_versions(a, b), compare_versions(b, a).reverse());
            for c in vs {
                if compare_versions(a, b) != Ordering::Greater && compare_versions(b, c) != Ordering::Greater {
                    assert_ne!(compare_versions(a, c), Ordering::Greater);
                }
            }
        }
    }
}

#[test]
fn version_is_older_matches_compare() {
    assert!(version_is_older("0.7.1", "0.8.0"));
    assert!(!version_is_older("0.8.0", "0.8.0"));
    assert!(!version_is_older("1.10", "1.9"));
}

#[test]
fn normalize_strips_v_space_and_suffix() {
    assert_eq!(normalize_version("v1.2.3"), "1.2.3");
    assert_eq!(normalize_version(" V1.2.3-beta+build \n"), "1.2.3");
    assert_eq!(normalize_version("1.0+meta"), "1.0");
    assert_eq!(normalize_version("release"), "release");
    assert_eq!(normalize_version(""), "");
    assert_eq!(normalize_version("\u{3000}v0.1\u{a0}"), "0.1");
}

#[test]
fn normalize_trims_before_the_suffix() {
    assert_eq!(normalize_version("1 -x"), "1");
    assert_eq!(normalize_version("v1.2 +build"), "1.2");
    assert_eq!(normalize_version("v1 -x"), "1");
    for v in ["v1 -x", "1 -x", " V2.0-rc ", "vv3", "", "1.2.3", "x y-z"] {
        let n = normalize_version(v);
        assert_eq!(normalize_version(&n), n);
        assert!(!n.ends_with(char::is_whitespace));
    }
    // white space right after the v letters is kept, so normalising again trims it
    assert_eq!(normalize_version("v 1"), " 1");
    assert_eq!(normalize_version(" 1"), "1");
}

#[test]
fn appending_zero_part_keeps_order() {
    for a in ["1", "1.2", "v1.2.3-rc1", "", " ", "v", "1 ", "1.", "x", "1.2 -b", "vv 3"] {
        assert_eq!(compare_versions(a, &format!("{a}.0")), Ordering::Equal, "{a:?}");
    }
}

#[test]
fn parse_parts_splits_and_reads_numbers() {
    assert_eq!(parse_parts("1.10.3"), vec![1, 10, 3]);
    assert_eq!(parse_parts("v2..5"), vec![2, 0, 5]);
    assert_eq!(parse_parts(""), vec![0]);
    assert_eq!(parse_parts("1.2b.c"), vec![1, 2, 0]);
    assert_eq!(parse_parts("007.1"), vec![7, 1]);
}

#[test]
fn parse_parts_overflow_counts_as_zero() {
    assert_eq!(parse_parts("18446744073709551615.1"), vec![u64::MAX, 1]);
    assert_eq!(parse_parts("18446744073709551616.1"), vec![0, 1]);
    assert_eq!(parse_parts("99999999999999999999999"), vec![0]);
}
