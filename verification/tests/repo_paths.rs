use dupehound::gitsnap::{ls_tree, repo_root};
use dupehound::walk::{content_skip_reason, default_excluded, glob_matches, is_test_path, matches_any, SkipReason};

#[test]
fn repo_root_is_the_trimmed_output() {
    assert_eq!(repo_root("/home/me/repo\n"), "/home/me/repo");
    assert_eq!(repo_root("  /x  \r\n"), "/x");
    assert_eq!(repo_root(""), "");
}

#[test]
fn ls_tree_lists_blobs_only() {
    let listing = "100644 blob 1111\tsrc/a.rs\0040000 tree 2222\tsrc\0100644 blob 3333\tREADME md\0garbage\0\0";
    let entries = ls_tree(listing);
    let got: Vec<(&str, &str)> = entries.iter().map(|e| (e.oid.as_str(), e.path.as_str())).collect();
    assert_eq!(got, vec![("1111", "src/a.rs"), ("3333", "README md")]);
    assert!(ls_tree("").is_empty());
}

#[test]
fn ls_tree_keeps_tabs_in_paths() {
    let entries = ls_tree("100644 blob ab\tdir/with\ttab");
    assert_eq!(entries.len(), 1);
    assert_eq!(entries[0].path, "dir/with\ttab");
}

#[test]
fn test_paths() {
    assert!(is_test_path("tests/check.rs"));
    assert!(is_test_path("src/__tests__/a.ts"));
    assert!(is_test_path("src/money.test.ts"));
    assert!(is_test_path("src/money.spec.js"));
    assert!(is_test_path("pkg/parse_test.go"));
    assert!(is_test_path("test_util.py"));
    assert!(!is_test_path("src/testing.rs"));
    assert!(!is_test_path("src/latest.ts"));
    assert!(!is_test_path("tests"));
}

#[test]
fn excluded_paths() {
    assert!(default_excluded("node_modules/x/index.js"));
    assert!(default_excluded("a/vendor/b.go"));
    assert!(default_excluded("static/app.min.js"));
    assert!(!default_excluded("src/vendor.ts"));
    assert!(!default_excluded("src/build.rs"));
}

#[test]
fn generated_and_minified_contents() {
    assert_eq!(content_skip_reason("// @generated by protoc\nfn x() {}\n"), Some(SkipReason::Generated));
    assert_eq!(content_skip_reason("a\nb\nc\nd\n// Code generated. DO NOT EDIT.\n"), Some(SkipReason::Generated));
    assert_eq!(content_skip_reason("a\nb\nc\nd\ne\n// DO NOT EDIT\n"), None);
    let long = "x".repeat(1001);
    assert_eq!(content_skip_reason(&long), Some(SkipReason::Minified));
    assert_eq!(content_skip_reason(&"x".repeat(1000)), None);
    assert_eq!(content_skip_reason(""), None);
}

fn chars(s: &str) -> Vec<char> {
    s.chars().collect()
}

#[test]
fn glob_patterns_match_whole_paths() {
    assert!(glob_matches(&chars("*.rs"), &chars("src/main.rs")));
    assert!(glob_matches(&chars("src/*"), &chars("src/a/b.ts")));
    assert!(glob_matches(&chars("a?c"), &chars("abc")));
    assert!(!glob_matches(&chars("a?c"), &chars("ac")));
    assert!(!glob_matches(&chars("*.rs"), &chars("src/main.rsx")));
    assert!(glob_matches(&chars("*"), &chars("")));
    assert!(glob_matches(&chars(""), &chars("")));
    assert!(!glob_matches(&chars(""), &chars("x")));
}

#[test]
fn exclusion_patterns_any_match() {
    let patterns = vec!["gen/*".to_string(), "*.pb.go".to_string()];
    assert!(matches_any("gen/api.ts", &patterns));
    assert!(matches_any("svc/user.pb.go", &patterns));
    assert!(!matches_any("src/user.go", &patterns));
    assert!(!matches_any("src/user.go", &Vec::new()));
}
