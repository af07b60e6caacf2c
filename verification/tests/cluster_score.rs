use dupehound::cluster::{build_clusters, Cluster};
use dupehound::config::TestPolicy;
use dupehound::extract::FunctionUnit;
use dupehound::index::Pair;
use dupehound::lang::Lang;
use dupehound::score::{grade_of, slop_score};

fn cluster(deletable: u64, test_only: bool) -> Cluster {
    Cluster {
        members: vec![],
        deletable_lines: deletable,
        test_only,
        trait_impl_only: false,
    }
}

fn percent(deletable: u64, total: u64) -> f64 {
    if total == 0 {
        0.0
    } else {
        100.0 * deletable as f64 / total as f64
    }
}

#[test]
fn score_excludes_test_clusters_by_default() {
    let clusters = vec![cluster(50, false), cluster(100, true)];
    let s = slop_score(&clusters, 1000, TestPolicy::FlagOnly);
    assert!((percent(s.deletable_lines, s.total_sig_lines) - 5.0).abs() < 1e-9);
    assert_eq!(s.grade, 'B');

    let s = slop_score(&clusters, 1000, TestPolicy::Include);
    assert!((percent(s.deletable_lines, s.total_sig_lines) - 15.0).abs() < 1e-9);
    assert_eq!(s.grade, 'F');
}

#[test]
fn empty_repo_scores_zero() {
    let s = slop_score(&[], 0, TestPolicy::FlagOnly);
    assert_eq!(percent(s.deletable_lines, s.total_sig_lines), 0.0);
    assert_eq!(s.grade, 'A');
}

#[test]
fn grade_buckets() {
    assert_eq!(grade_of(0, 0), 'A');
    assert_eq!(grade_of(29, 1000), 'A');
    assert_eq!(grade_of(30, 1000), 'B');
    assert_eq!(grade_of(59, 1000), 'B');
    assert_eq!(grade_of(60, 1000), 'C');
    assert_eq!(grade_of(99, 1000), 'C');
    assert_eq!(grade_of(100, 1000), 'D');
    assert_eq!(grade_of(149, 1000), 'D');
    assert_eq!(grade_of(150, 1000), 'F');
    assert_eq!(grade_of(u64::MAX, 1), 'F');
}

#[test]
fn skipped_test_policy_still_scores_non_test_clusters() {
    let clusters = vec![cluster(50, false), cluster(100, true)];
    let s = slop_score(&clusters, 1000, TestPolicy::Skip);
    assert_eq!(s.deletable_lines, 50);
}

fn unit(sig_lines: u32, fps: Vec<u64>, is_test: bool) -> FunctionUnit {
    FunctionUnit {
        file: 0,
        lang: Lang::Python,
        name: "f".into(),
        start_line: 1,
        end_line: 2,
        start_byte: 0,
        end_byte: 1,
        sig_lines,
        fingerprints: fps,
        is_test,
        is_trait_impl_method: false,
    }
}

#[test]
fn clusters_are_connected_groups_with_the_largest_kept() {
    let fps: Vec<u64> = (1..=10).collect();
    let functions = vec![
        unit(5, fps.clone(), false),
        unit(9, fps.clone(), false),
        unit(3, fps.clone(), false),
        unit(4, vec![100], false),
        unit(7, fps.clone(), true),
        unit(7, fps.clone(), true),
    ];
    // 0-1, 1-2 chain into one group; 4-5 is a second, test-only group.
    let pairs = vec![Pair { a: 0, b: 1 }, Pair { a: 1, b: 2 }, Pair { a: 4, b: 5 }];
    let clusters = build_clusters(&functions, &pairs);
    assert_eq!(clusters.len(), 2);
    let first: Vec<u32> = clusters[0].members.iter().map(|m| m.func).collect();
    assert_eq!(first, vec![1, 0, 2]);
    assert_eq!(clusters[0].deletable_lines, 8);
    assert!(!clusters[0].test_only);
    assert_eq!((clusters[0].members[1].shared, clusters[0].members[1].union), (10, 10));
    let second: Vec<u32> = clusters[1].members.iter().map(|m| m.func).collect();
    assert_eq!(second, vec![4, 5]);
    assert_eq!(clusters[1].deletable_lines, 7);
    assert!(clusters[1].test_only);
}

#[test]
fn clusters_rank_by_deletable_lines() {
    let fps: Vec<u64> = (1..=10).collect();
    let functions = vec![
        unit(2, fps.clone(), false),
        unit(2, fps.clone(), false),
        unit(20, fps.clone(), false),
        unit(30, fps.clone(), false),
    ];
    let pairs = vec![Pair { a: 0, b: 1 }, Pair { a: 2, b: 3 }];
    let clusters = build_clusters(&functions, &pairs);
    assert_eq!(clusters[0].members[0].func, 3);
    assert_eq!(clusters[0].deletable_lines, 20);
    assert_eq!(clusters[1].members[0].func, 0);
    assert_eq!(clusters[1].deletable_lines, 2);
}

#[test]
fn no_pairs_no_clusters() {
    let functions = vec![unit(2, vec![1], false)];
    assert!(build_clusters(&functions, &vec![]).is_empty());
}

#[test]
fn member_overlap_is_with_the_representative() {
    let functions = vec![unit(10, (1..=10).collect(), false), unit(3, (1..=8).collect(), false)];
    let clusters = build_clusters(&functions, &vec![Pair { a: 0, b: 1 }]);
    let m = &clusters[0].members;
    assert_eq!((m[0].func, m[0].shared, m[0].union), (0, 10, 10));
    assert_eq!((m[1].func, m[1].shared, m[1].union), (1, 8, 10));
}

#[test]
fn trait_impl_clusters_are_kept_out_of_the_score() {
    let fps: Vec<u64> = (1..=10).collect();
    let mut functions = vec![
        unit(6, fps.clone(), false),
        unit(6, fps.clone(), false),
        unit(4, vec![50, 51], false),
        unit(4, vec![50, 51], false),
    ];
    functions[0].is_trait_impl_method = true;
    functions[1].is_trait_impl_method = true;
    functions[2].is_trait_impl_method = true;
    let pairs = vec![Pair { a: 0, b: 1 }, Pair { a: 2, b: 3 }];
    let clusters = build_clusters(&functions, &pairs);
    assert_eq!(clusters.len(), 2);
    assert!(clusters[0].trait_impl_only);
    assert!(!clusters[1].trait_impl_only);
    let s = slop_score(&clusters, 100, TestPolicy::Include);
    assert_eq!(s.deletable_lines, 4);
    let only_impls = vec![Cluster { members: vec![], deletable_lines: 30, test_only: false, trait_impl_only: true }];
    assert_eq!(slop_score(&only_impls, 100, TestPolicy::Include).deletable_lines, 0);
}
