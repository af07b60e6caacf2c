use dupehound::check::{
    check_mode, CheckMode,
    add_untracked, best_match, finding, moved_away, parse_hunks, probe_changed, sort_findings,
    BaseIndex, Finding, Match,
};
use dupehound::extract::FunctionUnit;
use dupehound::lang::Lang;

fn unit(file: u32, name: &str, lines: (u32, u32), fps: Vec<u64>) -> FunctionUnit {
    FunctionUnit {
        file,
        lang: Lang::Typescript,
        name: name.into(),
        start_line: lines.0,
        end_line: lines.1,
        start_byte: 0,
        end_byte: 10,
        sig_lines: lines.1 - lines.0 + 1,
        fingerprints: fps,
        is_test: false,
        is_trait_impl_method: false,
    }
}

#[test]
fn hunks_are_read_from_the_new_side() {
    let diff = "diff --git a/src/a.ts b/src/a.ts\n\
                --- a/src/a.ts\n\
                +++ b/src/a.ts\n\
                @@ -1,0 +2,3 @@ function f() {\n\
                +x\n\
                @@ -10 +12 @@\n\
                -y\n\
                +z\n\
                diff --git a/gone.ts b/gone.ts\n\
                --- a/gone.ts\n\
                +++ /dev/null\n\
                @@ -1,4 +0,0 @@\n\
                diff --git a/src/b.ts b/src/b.ts\n\
                +++ b/src/b.ts\n\
                @@ -3,2 +2,0 @@\n\
                @@ -7,1 +9,2 @@\n";
    let files = parse_hunks(diff);
    assert_eq!(files.len(), 2);
    assert_eq!(files[0].path, "src/a.ts");
    assert_eq!(files[0].hunks, vec![(2, 4), (12, 12)]);
    assert_eq!(files[1].path, "src/b.ts");
    assert_eq!(files[1].hunks, vec![(9, 10)]);
}

#[test]
fn unreadable_hunk_numbers_count_as_zero() {
    let files = parse_hunks("+++ b/x.py\n@@ -1 +abc,2 @@\n@@ -1 +5,zz @@\n");
    assert_eq!(files.len(), 1);
    assert_eq!(files[0].hunks, vec![(0, 1)]);
}

#[test]
fn hunks_before_any_file_are_ignored() {
    assert!(parse_hunks("@@ -1 +1 @@\n").is_empty());
    assert!(parse_hunks("").is_empty());
}

#[test]
fn untracked_files_count_as_changed_throughout() {
    let mut files = parse_hunks("+++ b/src/a.ts\n@@ -1 +1 @@\n");
    add_untracked(&mut files, "src/new.ts\n\nsrc/a.ts\n");
    assert_eq!(files.len(), 2);
    assert_eq!(files[0].hunks, vec![(1, 1), (1, u32::MAX)]);
    assert_eq!(files[1].path, "src/new.ts");
    assert_eq!(files[1].hunks, vec![(1, u32::MAX)]);
}

#[test]
fn best_match_prefers_the_most_similar_then_the_earliest() {
    let base = vec![
        unit(0, "a", (1, 5), (1..=10).collect()),
        unit(0, "b", (6, 9), (1..=9).collect()),
        unit(1, "c", (1, 5), (1..=10).collect()),
        unit(1, "d", (6, 9), (50..=60).collect()),
    ];
    let index = BaseIndex::new(&base);
    let probe: Vec<u64> = (1..=10).collect();
    assert_eq!(best_match(&base, &index, &probe, 850_000), Some(Match { id: 0, shared: 10, union: 10 }));
    let probe: Vec<u64> = (1..=9).collect();
    assert_eq!(best_match(&base, &index, &probe, 850_000), Some(Match { id: 1, shared: 9, union: 9 }));
    let probe: Vec<u64> = (200..=210).collect();
    assert_eq!(best_match(&base, &index, &probe, 0), None);
    // 5 of a 10-fingerprint union: below 0.85, at 0.5.
    let probe: Vec<u64> = (1..=5).collect();
    assert_eq!(best_match(&base, &index, &probe, 850_000), None);
    assert_eq!(best_match(&base, &index, &probe, 500_000).map(|m| m.id), Some(1));
}

#[test]
fn changed_functions_fire_only_on_touched_lines_and_elsewhere() {
    let base = vec![unit(0, "formatPrice", (1, 10), (1..=20).collect())];
    let files = vec!["src/utils/money.ts".to_string()];
    let index = BaseIndex::new(&base);
    let func = unit(0, "displayCurrency", (3, 12), (1..=20).collect());
    let hit = probe_changed(&func, "src/checkout/cart.ts", &[(5, 6)], &base, &files, &index, 850_000);
    assert_eq!(hit, Some(Match { id: 0, shared: 20, union: 20 }));
    // Not touched by the diff.
    let miss = probe_changed(&func, "src/checkout/cart.ts", &[(20, 30)], &base, &files, &index, 850_000);
    assert_eq!(miss, None);
    // The same function edited where it stood.
    let same = unit(0, "formatPrice", (1, 10), (1..=20).collect());
    let edited = probe_changed(&same, "src/utils/money.ts", &[(1, 1)], &base, &files, &index, 850_000);
    assert_eq!(edited, None);
}

#[test]
fn a_moved_original_is_not_a_duplicate() {
    let original: Vec<u64> = (1..=20).collect();
    let still_there = vec![unit(0, "formatPrice", (1, 10), (1..=20).collect())];
    assert!(!moved_away(&still_there, &original));
    // 18 of 22: about 0.82, under the 0.90 bar.
    let changed_a_lot = vec![unit(0, "formatPrice", (1, 10), (1..=18).chain(30..=31).collect())];
    assert!(moved_away(&changed_a_lot, &original));
    assert!(moved_away(&[], &original));
}

#[test]
fn findings_name_the_original_and_how_to_import_it() {
    let base = vec![unit(0, "formatPrice", (4, 10), (1..=20).collect())];
    let files = vec!["src/utils/money.ts".to_string()];
    let func = unit(0, "displayCurrency", (3, 12), (1..=20).collect());
    let f = finding("src/checkout/cart.ts", &func, Match { id: 0, shared: 20, union: 20 }, &base, &files);
    assert_eq!(f.file, "src/checkout/cart.ts");
    assert_eq!(f.line, 3);
    assert_eq!(f.name, "displayCurrency");
    assert_eq!(f.original_file, "src/utils/money.ts");
    assert_eq!(f.original_line, 4);
    assert_eq!(f.original_name, "formatPrice");
    assert_eq!(f.suggestion.as_deref(), Some("import { formatPrice } from '../utils/money';"));
    let go = vec!["pkg/money.go".to_string()];
    let f = finding("pkg/cart.go", &func, Match { id: 0, shared: 20, union: 20 }, &base, &go);
    assert_eq!(f.suggestion, None);
}

fn bare(file: &str, line: u32) -> Finding {
    Finding {
        file: file.into(),
        line,
        name: String::new(),
        shared: 1,
        union: 1,
        original_file: String::new(),
        original_line: 0,
        original_name: String::new(),
        suggestion: None,
    }
}

#[test]
fn findings_sort_by_file_then_line() {
    let sorted = sort_findings(vec![bare("src/b.ts", 3), bare("src/a.ts", 9), bare("src/b.ts", 1), bare("src/a.ts", 2)]);
    let keys: Vec<(String, u32)> = sorted.into_iter().map(|f| (f.file, f.line)).collect();
    assert_eq!(
        keys,
        vec![
            ("src/a.ts".to_string(), 2),
            ("src/a.ts".to_string(), 9),
            ("src/b.ts".to_string(), 1),
            ("src/b.ts".to_string(), 3),
        ]
    );
}

#[test]
fn findings_at_one_place_keep_their_order() {
    let mut first = bare("src/b.ts", 4);
    first.name = "first".into();
    let mut second = bare("src/b.ts", 4);
    second.name = "second".into();
    let mut third = bare("src/b.ts", 4);
    third.name = "third".into();
    let sorted = sort_findings(vec![first, bare("src/a.ts", 1), second, third]);
    let names: Vec<String> = sorted.into_iter().map(|f| f.name).collect();
    assert_eq!(names[1..].to_vec(), vec!["first", "second", "third"]);
}

#[test]
fn check_mode_follows_revision_then_staged_changes() {
    assert_eq!(check_mode(true, "src/a.ts\n"), CheckMode::Range);
    assert_eq!(check_mode(false, "src/a.ts\n"), CheckMode::Staged);
    assert_eq!(check_mode(false, "  \n"), CheckMode::Worktree);
}
