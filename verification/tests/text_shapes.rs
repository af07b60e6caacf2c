use dupehound::report::card::history_card;
use dupehound::report::{clusters_out, is_false, Stats, JSON_SCHEMA_VERSION};
use dupehound::cluster::{Cluster, Member};
use dupehound::extract::FunctionUnit;
use dupehound::lang::Lang;
use dupehound::scan::{expand_tabs, wrap_to_width};
use dupehound::style::{group_digits, truncate, truncate_left};
use dupehound::text::{parse_i64, parse_u32};

#[test]
fn truncate_left_keeps_the_tail() {
    assert_eq!(truncate_left("src/a.ts:10", 20), "src/a.ts:10");
    assert_eq!(truncate_left("src/very/long/path.ts:10", 10), "…ath.ts:10");
    assert_eq!(truncate_left("abc", 0), "…");
    assert_eq!(truncate_left("abcd", 1), "…");
    // Display columns, not characters: each of these takes two.
    assert_eq!(truncate_left("日本語", 3), "…語");
    assert_eq!(truncate_left("日本語", 6), "日本語");
    assert_eq!(truncate_left("日本語", 2), "…");
    // Control characters take a column inside a string.
    assert_eq!(truncate_left("\t\t", 1), "…");
    assert_eq!(truncate_left("\t\t", 2), "\t\t");
}

#[test]
fn truncate_keeps_the_head() {
    assert_eq!(truncate("formatPrice", 20), "formatPrice");
    assert_eq!(truncate("formatPrice", 6), "forma…");
    assert_eq!(truncate("ab", 0), "…");
}

#[test]
fn digits_are_grouped_in_threes() {
    assert_eq!(group_digits(0), "0");
    assert_eq!(group_digits(999), "999");
    assert_eq!(group_digits(1000), "1,000");
    assert_eq!(group_digits(1_234_567), "1,234,567");
    assert_eq!(group_digits(u64::MAX), "18,446,744,073,709,551,615");
}

#[test]
fn tabs_become_spaces() {
    assert_eq!(expand_tabs("\tx\ty", 4), "    x    y");
    assert_eq!(expand_tabs("none", 4), "none");
    assert_eq!(expand_tabs("\t", 0), "");
}

#[test]
fn lines_wrap_at_the_budget() {
    assert_eq!(wrap_to_width("abcdefgh", 3, 2), vec!["abc", "de", "fg", "h"]);
    assert_eq!(wrap_to_width("", 3, 2), vec![""]);
    assert_eq!(wrap_to_width("abc", 3, 2), vec!["abc"]);
    // Wide characters take two columns.
    assert_eq!(wrap_to_width("日本語", 4, 4), vec!["日本", "語"]);
    // A character wider than the budget still lands somewhere.
    assert_eq!(wrap_to_width("日", 1, 1), vec!["日"]);
    // Control characters take no room.
    assert_eq!(wrap_to_width("a\u{7}b", 2, 2), vec!["a\u{7}b"]);
}

#[test]
fn numbers_parse_as_std_does() {
    for s in ["0", "42", "+7", "4294967295", "4294967296", "", "+", "-1", " 1", "1a"] {
        let chars: Vec<char> = s.chars().collect();
        assert_eq!(parse_u32(&chars), s.parse::<u32>().ok(), "{s:?}");
    }
    for s in ["0", "-0", "-9223372036854775808", "9223372036854775807", "9223372036854775808", "-", "+-1"] {
        let chars: Vec<char> = s.chars().collect();
        assert_eq!(parse_i64(&chars), s.parse::<i64>().ok(), "{s:?}");
    }
}

#[test]
fn history_card_counts_snapshots() {
    assert_eq!(
        history_card(12),
        "<svg xmlns='http://www.w3.org/2000/svg' width='1200' height='630'><text x='60' y='100'>12 snapshots</text></svg>"
    );
}

#[test]
fn report_helpers() {
    assert!(is_false(&false));
    assert!(!is_false(&true));
    assert_eq!(JSON_SCHEMA_VERSION, 1);
    let s = Stats {
        files: 1,
        total_lines: 2,
        significant_lines: 3,
        functions: 4,
        elapsed_ms: 5,
        skipped_generated: 0,
        skipped_minified: 0,
        skipped_non_utf8: 0,
    };
    assert_eq!(s.functions, 4);
}

fn unit(file: u32, name: &str, test: bool) -> FunctionUnit {
    FunctionUnit {
        file,
        lang: Lang::Rust,
        name: name.into(),
        start_line: 3,
        end_line: 9,
        start_byte: 0,
        end_byte: 1,
        sig_lines: 6,
        fingerprints: vec![1],
        is_test: test,
        is_trait_impl_method: false,
    }
}

#[test]
fn clusters_are_reported_numbered_with_the_representative_first() {
    let functions = vec![unit(0, "a", false), unit(1, "b", true)];
    let names = vec!["x.rs".to_string(), "y.rs".to_string()];
    let clusters = vec![Cluster {
        members: vec![Member { func: 1, shared: 4, union: 4 }, Member { func: 0, shared: 3, union: 4 }],
        deletable_lines: 6,
        test_only: false,
        trait_impl_only: false,
    }];
    let out = clusters_out(&clusters, &functions, &names);
    assert_eq!(out.len(), 1);
    assert_eq!(out[0].id, 1);
    assert_eq!(out[0].copies, 2);
    assert_eq!(out[0].deletable_lines, 6);
    assert_eq!(out[0].members[0].file, "y.rs");
    assert_eq!(out[0].members[0].name, "b");
    assert!(out[0].members[0].representative);
    assert!(out[0].members[0].test);
    assert!(!out[0].members[1].representative);
    assert_eq!((out[0].members[1].shared, out[0].members[1].union), (3, 4));
    assert_eq!(out[0].members[1].lines, 6);
}
