use treeserve::stamp::{changed_count, identity_from, json_string, one_line, rfc3339, BuildInfo};

const FULL: BuildInfo = BuildInfo {
    name: "treesight",
    version: "0.1.0",
    commit: "a1b2c3d4",
    commit_time: "2026-08-28T09:12:31+08:00",
    branch: "main",
    dirty: "0",
    vendored: "",
    vendored_commit: "",
    build_time: "2026-08-28T01:12:44Z",
};

#[test]
fn a_clean_tree_is_the_hash_alone() {
    assert_eq!(FULL.commit_mark(), "a1b2c3d4");
    assert_eq!(FULL.label(), "treesight v0.1.0 (a1b2c3d4)");
}

#[test]
fn a_dirty_tree_says_how_dirty() {
    let b = BuildInfo { dirty: "2", ..FULL };
    assert_eq!(b.label(), "treesight v0.1.0 (a1b2c3d4+2)");
}

#[test]
fn nothing_known_still_renders() {
    let b = BuildInfo { name: "treesight", version: "0.1.0", ..BuildInfo::unknown() };
    assert_eq!(b.label(), "treesight v0.1.0");
    let report = b.report();
    assert!(report.contains("commit     unknown"), "{report}");
    assert!(!report.contains(" on "), "no branch, so no branch clause: {report}");
}

#[test]
fn a_vendored_checkout_is_named_and_dated() {
    let b = BuildInfo { vendored: "treesight", vendored_commit: "5f6a7b8c", ..FULL };
    assert_eq!(b.line(), "treesight v0.1.0 (a1b2c3d4) · treesight 5f6a7b8c · built 2026-08-28");
    assert!(b.report().contains("treesight  5f6a7b8c"), "{}", b.report());
}

#[test]
fn a_build_time_that_is_not_a_date_is_not_truncated() {
    let b = BuildInfo { build_time: "whenever", ..FULL };
    assert!(b.line().ends_with("built whenever"), "{}", b.line());
}

#[test]
fn the_two_fields_are_read_out_of_a_tauri_config() {
    let text = r#"{ "$schema": "x", "productName": "treesight", "version": "1.2.3" }"#;
    assert_eq!(json_string(text, "productName").as_deref(), Some("treesight"));
    assert_eq!(json_string(text, "version").as_deref(), Some("1.2.3"));
    assert_eq!(json_string(text, "identifier"), None);
}

#[test]
fn odd_spacing_reads_and_an_escape_does_not() {
    assert_eq!(json_string("{\"version\"\n  :\t\"9.9.9\"}", "version").as_deref(), Some("9.9.9"));
    assert_eq!(json_string(r#"{"productName": "a\"b"}"#, "productName"), None);
}

#[test]
fn the_epoch_formats_as_the_epoch() {
    assert_eq!(rfc3339(0), "1970-01-01T00:00:00Z");
    assert_eq!(rfc3339(1_700_000_000), "2023-11-14T22:13:20Z");
    assert_eq!(rfc3339(1_709_164_800), "2024-02-29T00:00:00Z");
}

#[test]
fn a_dirty_tree_on_a_branch_reports_both() {
    let b = BuildInfo { dirty: "3", ..FULL };
    let report = b.report();
    assert!(report.contains("a1b2c3d4"), "{report}");
    assert!(report.contains(" on main"), "{report}");
}

#[test]
fn the_config_names_the_product_and_must_agree_on_its_version() {
    let conf = r#"{ "productName": "treesight", "version": "1.2.3" }"#;
    assert_eq!(identity_from("app", "1.2.3", Some(conf)), Ok(("treesight".to_string(), "1.2.3".to_string())));
    assert_eq!(identity_from("app", "1.2.4", Some(conf)), Err(("1.2.3".to_string(), "1.2.4".to_string())));
    assert_eq!(identity_from("app", "0.1.0", None), Ok(("app".to_string(), "0.1.0".to_string())));
    assert_eq!(identity_from("app", "0.1.0", Some("{}")), Ok(("app".to_string(), "0.1.0".to_string())));
}

#[test]
fn a_directive_value_stays_on_one_line() {
    assert_eq!(one_line("a\nb\r\nc"), "a b  c");
    assert_eq!(changed_count("src/a.rs\n\nsrc/b.rs\n"), 2);
    assert_eq!(changed_count(""), 0);
}
