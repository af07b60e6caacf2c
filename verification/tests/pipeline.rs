use dupehound::config::{CommonOptions, Config, TestPolicy, DEFAULT_SCAN_THRESHOLD_PPM, KGRAM};
use dupehound::extract::{analyze_captures, cfg_test_mod_offset, count_lines, Capture, FunctionUnit, Span};
use dupehound::lang::{classify, Lang, TokenClass};
use dupehound::mcp::{check_summary, dispatch, fault_message, Reply, ToolFault, METHOD_NOT_FOUND};
use dupehound::normalize::{normalize, significant_lines, Leaf, ID, NUM, STR};
use dupehound::scan::{assemble, measure_files, sort_files, FileFunctions};

fn leaf(class: TokenClass, kind_id: u16, row: u32) -> Leaf {
    Leaf { class, kind_id, row }
}

fn options(threshold_ppm: Option<u32>, include_tests: bool, exclude_tests: bool) -> CommonOptions {
    CommonOptions {
        threshold_ppm,
        min_tokens: 40,
        excludes: vec!["*.gen.ts".to_string()],
        no_default_excludes: false,
        include_tests,
        exclude_tests,
        json: true,
    }
}

#[test]
fn config_from_flags() {
    let c = Config::from_common(options(None, false, false), DEFAULT_SCAN_THRESHOLD_PPM);
    assert_eq!(c.threshold_ppm, 800_000);
    assert!(c.tests == TestPolicy::FlagOnly);
    assert!(c.default_excludes);
    assert_eq!(c.excludes, vec!["*.gen.ts".to_string()]);
    let c = Config::from_common(options(Some(2_000_000), true, true), DEFAULT_SCAN_THRESHOLD_PPM);
    assert_eq!(c.threshold_ppm, 1_000_000);
    assert!(c.tests == TestPolicy::Include);
    let c = Config::from_common(options(Some(5), false, true), DEFAULT_SCAN_THRESHOLD_PPM);
    assert_eq!(c.threshold_ppm, 5);
    assert!(c.tests == TestPolicy::Skip);
}

#[test]
fn normalization_folds_names_and_literals() {
    let leaves = vec![
        leaf(TokenClass::Other, 7, 0),
        leaf(TokenClass::Ident, 1, 0),
        leaf(TokenClass::Comment, 9, 1),
        leaf(TokenClass::Str, 2, 2),
        leaf(TokenClass::Str, 3, 2),
        leaf(TokenClass::Ident, 1, 2),
        leaf(TokenClass::Num, 4, 3),
        leaf(TokenClass::Num, 4, 3),
    ];
    let n = normalize(&leaves);
    assert_eq!(n.codes, vec![7, ID, STR, ID, NUM]);
    assert_eq!(n.sig_lines, 3);
    assert_eq!(significant_lines(&leaves), 3);
}

#[test]
fn leaf_kinds_are_classified_by_name() {
    assert_eq!(classify("line_comment"), TokenClass::Comment);
    assert_eq!(classify("identifier"), TokenClass::Ident);
    assert_eq!(classify("property_identifier"), TokenClass::Ident);
    assert_eq!(classify("string_fragment"), TokenClass::Str);
    assert_eq!(classify("escape_sequence"), TokenClass::Str);
    assert_eq!(classify("integer_literal"), TokenClass::Num);
    assert_eq!(classify("number"), TokenClass::Num);
    assert_eq!(classify("{"), TokenClass::Other);
    assert_eq!(classify("if"), TokenClass::Other);
}

#[test]
fn cfg_test_module_offsets() {
    assert_eq!(cfg_test_mod_offset("fn a() {}\n#[cfg(test)]\nmod tests {\n}\n"), Some(10));
    assert_eq!(cfg_test_mod_offset("#[cfg(test)]\nuse x;\nfn a() {}\n"), None);
    assert_eq!(cfg_test_mod_offset("#[cfg(test)]\npub mod tests;\n"), None);
    assert_eq!(cfg_test_mod_offset("é#[cfg(test)] mod t {}"), Some(2));
    assert_eq!(count_lines("a\nb\n"), 2);
    assert_eq!(count_lines("a\nb"), 2);
    assert_eq!(count_lines(""), 0);
}

fn body(seed: u16, idents: &[u16], len: usize) -> Vec<Leaf> {
    (0..len)
        .map(|i| {
            if i % 3 == 0 {
                leaf(TokenClass::Ident, idents[i % idents.len()], (i / 5) as u32)
            } else {
                leaf(TokenClass::Other, seed + (i % 11) as u16, (i / 5) as u32)
            }
        })
        .collect()
}

fn capture(name: &str, start_row: u32, start_byte: u32, leaves: Vec<Leaf>) -> Capture {
    Capture {
        name: Some(name.to_string()),
        func: Some(Span { start_row, end_row: start_row + 9, start_byte, end_byte: start_byte + 100 }),
        body: Some(leaves),
        trait_impl: false,
    }
}

#[test]
fn renamed_functions_get_identical_fingerprints() {
    // Spans must fall inside the source: pad its one line.
    let src = &format!("fn a() {{}}{}\n", " ".repeat(600));
    let caps = vec![
        capture("formatPrice", 0, 0, body(100, &[1, 2, 3], 60)),
        capture("displayCurrency", 20, 200, body(100, &[40, 41, 42], 60)),
        capture("tiny", 40, 400, body(100, &[1], KGRAM - 1)),
        Capture { name: Some("headless".into()), func: None, body: Some(body(100, &[1], 60)), trait_impl: false },
    ];
    let fa = analyze_captures(3, Lang::Typescript, src, &caps, &[], 0, false);
    assert_eq!(fa.functions.len(), 2);
    assert_eq!(fa.functions[0].name, "formatPrice");
    assert_eq!(fa.functions[1].name, "displayCurrency");
    assert_eq!(fa.functions[0].fingerprints, fa.functions[1].fingerprints);
    assert!(!fa.functions[0].fingerprints.is_empty());
    assert_eq!(fa.functions[1].start_line, 21);
    assert_eq!(fa.functions[1].end_line, 30);
    assert_eq!(fa.functions[0].file, 3);
    assert_eq!(fa.total_lines, 1);
}

#[test]
fn rust_trait_impl_methods_are_marked() {
    let src = &format!("impl Display for A {{}}{}\n", " ".repeat(200));
    let mut impl_method = capture("fmt", 0, 0, body(100, &[1], 30));
    impl_method.trait_impl = true;
    let caps = vec![impl_method, capture("free", 5, 50, body(100, &[1], 30))];
    let fa = analyze_captures(0, Lang::Rust, src, &caps, &[], 10, false);
    assert!(fa.functions[0].is_trait_impl_method);
    assert!(!fa.functions[1].is_trait_impl_method);
    // Only Rust has trait impls.
    let fa = analyze_captures(0, Lang::Go, src, &caps, &[], 10, false);
    assert!(!fa.functions[0].is_trait_impl_method);
}

#[test]
fn rust_test_modules_mark_their_functions() {
    let src = &format!("fn a() {{}}\n#[cfg(test)]\nmod tests {{\n fn t() {{}}\n}}\n{}", " ".repeat(200));
    let caps = vec![
        capture("a", 0, 0, body(100, &[1], 30)),
        capture("t", 3, 40, body(100, &[1], 30)),
        Capture { name: None, func: Some(Span { start_row: 0, end_row: 0, start_byte: 0, end_byte: 1 }), body: Some(body(5, &[1], 30)), trait_impl: false },
    ];
    let fa = analyze_captures(0, Lang::Rust, src, &caps, &[], 10, false);
    assert_eq!(fa.functions.len(), 3);
    assert!(!fa.functions[0].is_test);
    assert!(fa.functions[1].is_test);
    assert_eq!(fa.functions[2].name, "<anonymous>");
    // Too few tokens: left out.
    let fa = analyze_captures(0, Lang::Rust, src, &caps, &[], 31, false);
    assert!(fa.functions.is_empty());
}

fn unit(name: &str) -> FunctionUnit {
    FunctionUnit {
        file: 99,
        lang: Lang::Go,
        name: name.into(),
        start_line: 1,
        end_line: 2,
        start_byte: 0,
        end_byte: 1,
        sig_lines: 2,
        fingerprints: vec![1, 2],
        is_test: false,
        is_trait_impl_method: false,
    }
}

fn file(rel: &str, source: usize, names: &[&str], sig: u32, test: bool) -> FileFunctions {
    FileFunctions {
        rel: rel.to_string(),
        source,
        functions: names.iter().map(|n| unit(n)).collect(),
        sig_lines: sig,
        total_lines: sig + 1,
        is_test: test,
    }
}

#[test]
fn files_are_ordered_and_numbered() {
    let files = vec![
        file("src/b.go", 0, &["b1", "b2"], 10, false),
        file("src/a.go", 1, &["a1"], 5, true),
        file("lib/c.go", 2, &[], 1, false),
    ];
    let sorted = sort_files(files);
    let rels: Vec<&str> = sorted.iter().map(|f| f.rel.as_str()).collect();
    assert_eq!(rels, vec!["lib/c.go", "src/a.go", "src/b.go"]);
    let a = assemble(sorted);
    assert_eq!(a.file_names, vec!["lib/c.go", "src/a.go", "src/b.go"]);
    assert_eq!(a.sources, vec![2, 1, 0]);
    let got: Vec<(&str, u32, bool)> = a.functions.iter().map(|f| (f.name.as_str(), f.file, f.is_test)).collect();
    assert_eq!(got, vec![("a1", 1, true), ("b1", 2, false), ("b2", 2, false)]);
    assert_eq!(a.sig_lines, 16);
    assert_eq!(a.total_lines, 19);
}

#[test]
fn protocol_replies() {
    assert_eq!(dispatch("initialize", true, None), Reply::Initialize);
    assert_eq!(dispatch("ping", false, None), Reply::Pong);
    assert_eq!(dispatch("tools/list", false, None), Reply::ToolList);
    assert_eq!(dispatch("does/not/exist", false, None), Reply::ProtocolError(METHOD_NOT_FOUND));
    assert_eq!(METHOD_NOT_FOUND, -32601);
    assert_eq!(dispatch("tools/call", true, Some("check_duplication")), Reply::RunCheck);
    assert_eq!(dispatch("tools/call", true, Some("scan_duplication")), Reply::RunScan);
    assert_eq!(dispatch("tools/call", true, Some("nope")), Reply::ToolError(ToolFault::UnknownTool));
    assert_eq!(dispatch("tools/call", true, None), Reply::ToolError(ToolFault::MissingName));
    assert_eq!(dispatch("tools/call", false, None), Reply::ToolError(ToolFault::MissingParams));
    assert_eq!(fault_message(ToolFault::UnknownTool, "nope"), "unknown tool: nope");
    assert_eq!(fault_message(ToolFault::MissingName, ""), "missing tool name");
    assert_eq!(fault_message(ToolFault::MissingParams, ""), "missing params");
}

#[test]
fn check_summaries() {
    assert_eq!(check_summary(false, 0), "No changes to check.");
    assert_eq!(check_summary(true, 0), "No new duplicates of existing code.");
    assert_eq!(
        check_summary(true, 3),
        "3 new duplicate(s) of existing code. Reuse the original each finding points to instead of rewriting it."
    );
}

#[test]
fn files_measure_to_clusters_and_a_score() {
    let mut b = file("src/b.go", 0, &["copy"], 40, false);
    let mut a = file("src/a.go", 1, &["orig", "other"], 60, false);
    b.functions[0].fingerprints = (1..=10).collect();
    b.functions[0].sig_lines = 8;
    a.functions[0].fingerprints = (1..=10).collect();
    a.functions[0].sig_lines = 9;
    a.functions[1].fingerprints = (100..=110).collect();
    let m = measure_files(vec![b, a], 800_000, TestPolicy::FlagOnly);
    assert_eq!(m.file_names, vec!["src/a.go", "src/b.go"]);
    assert_eq!(m.sources, vec![1, 0]);
    assert_eq!(m.functions.len(), 3);
    assert_eq!(m.clusters.len(), 1);
    let members: Vec<u32> = m.clusters[0].members.iter().map(|x| x.func).collect();
    assert_eq!(members, vec![0, 2]);
    assert_eq!(m.clusters[0].deletable_lines, 8);
    let score = m.score.unwrap();
    assert_eq!((score.deletable_lines, score.total_sig_lines), (8, 100));
    assert_eq!(score.grade, 'C');
    assert_eq!(m.sig_lines, 100);
}
