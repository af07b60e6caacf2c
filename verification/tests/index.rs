use dupehound::extract::FunctionUnit;
use dupehound::index::{find_containment, find_pairs, Pair};
use dupehound::lang::Lang;

fn unit(file: u32, bytes: (u32, u32), fps: Vec<u64>) -> FunctionUnit {
    FunctionUnit {
        file,
        lang: Lang::Typescript,
        name: "f".into(),
        start_line: 1,
        end_line: 10,
        start_byte: bytes.0,
        end_byte: bytes.1,
        sig_lines: 10,
        fingerprints: fps,
        is_test: false,
        is_trait_impl_method: false,
    }
}

fn with_lang(lang: Lang, fps: Vec<u64>) -> FunctionUnit {
    let mut u = unit(0, (0, 10), fps);
    u.lang = lang;
    u
}

#[test]
fn small_copied_into_large_is_reported() {
    // 10-fp function fully contained in a 30-fp one, in different files.
    // Jaccard = 10/30 = 0.33 (below 0.80), containment = 10/10 = 1.0.
    let small = (1..=10).collect::<Vec<u64>>();
    let large = (1..=30).collect::<Vec<u64>>();
    let functions = vec![unit(0, (0, 100), small), unit(1, (0, 900), large)];
    let pairs = find_containment(&functions, 800_000, 900_000, 3);
    assert_eq!(pairs.len(), 1);
    assert_eq!(pairs[0].small, 0);
    assert_eq!(pairs[0].large, 1);
    let containment = pairs[0].shared as f64 / pairs[0].small_len as f64;
    assert!((containment - 1.0).abs() < 1e-9);
}

#[test]
fn lexically_nested_pair_is_skipped() {
    // Same file, small's byte range inside large's: a nested closure, not
    // a copy. Must not be reported even though containment is 1.0.
    let small = (1..=10).collect::<Vec<u64>>();
    let large = (1..=30).collect::<Vec<u64>>();
    let functions = vec![unit(0, (100, 400), small), unit(0, (0, 900), large)];
    let pairs = find_containment(&functions, 800_000, 900_000, 3);
    assert!(pairs.is_empty());
}

#[test]
fn near_identical_pair_stays_with_jaccard_scan() {
    // Two same-size functions the normal scan already clusters (Jaccard
    // 1.0) are not re-reported as containment findings.
    let fps = (1..=10).collect::<Vec<u64>>();
    let functions = vec![unit(0, (0, 100), fps.clone()), unit(1, (0, 100), fps)];
    let pairs = find_containment(&functions, 800_000, 900_000, 3);
    assert!(pairs.is_empty());
}

#[test]
fn containment_takes_the_smaller_as_contained_whatever_the_order() {
    let small = (1..=10).collect::<Vec<u64>>();
    let large = (1..=30).collect::<Vec<u64>>();
    let functions = vec![unit(1, (0, 900), large), unit(0, (0, 100), small)];
    let pairs = find_containment(&functions, 800_000, 900_000, 3);
    assert_eq!(pairs.len(), 1);
    assert_eq!((pairs[0].small, pairs[0].large), (1, 0));
    assert_eq!((pairs[0].shared, pairs[0].small_len), (10, 10));
}

#[test]
fn containment_below_its_threshold_is_not_reported() {
    // 9 of 10 shared: 0.9 coverage; a 0.95 bar rejects it, 0.9 accepts.
    let small: Vec<u64> = (1..=9).chain([100]).collect();
    let large = (1..=30).collect::<Vec<u64>>();
    let functions = vec![unit(0, (0, 100), small), unit(1, (0, 900), large)];
    assert!(find_containment(&functions, 800_000, 950_000, 3).is_empty());
    assert_eq!(find_containment(&functions, 800_000, 900_000, 3).len(), 1);
}

#[test]
fn identical_functions_pair_up() {
    let fps = (1..=10).collect::<Vec<u64>>();
    let mut functions = vec![unit(0, (0, 10), fps.clone()), unit(1, (0, 10), fps)];
    let pairs = find_pairs(&mut functions, 800_000, 3);
    assert_eq!(pairs, vec![Pair { a: 0, b: 1 }]);
}

#[test]
fn pairs_need_the_threshold_and_the_shared_minimum() {
    // 8 shared of a 12-fingerprint union: Jaccard 2/3.
    let a: Vec<u64> = (1..=10).collect();
    let b: Vec<u64> = (3..=12).collect();
    let mut functions = vec![unit(0, (0, 10), a.clone()), unit(1, (0, 10), b.clone())];
    assert!(find_pairs(&mut functions, 700_000, 3).is_empty());
    let mut functions = vec![unit(0, (0, 10), a.clone()), unit(1, (0, 10), b.clone())];
    assert_eq!(find_pairs(&mut functions, 666_666, 3), vec![Pair { a: 0, b: 1 }]);
    let mut functions = vec![unit(0, (0, 10), a), unit(1, (0, 10), b)];
    assert!(find_pairs(&mut functions, 600_000, 9).is_empty());
}

#[test]
fn languages_never_pair_with_each_other() {
    let fps = (1..=10).collect::<Vec<u64>>();
    let mut functions = vec![
        with_lang(Lang::Python, fps.clone()),
        with_lang(Lang::Go, fps.clone()),
        with_lang(Lang::Python, fps),
    ];
    let pairs = find_pairs(&mut functions, 800_000, 3);
    assert_eq!(pairs, vec![Pair { a: 0, b: 2 }]);
}

#[test]
fn boilerplate_fingerprints_are_culled() {
    // 101 functions share fingerprint 7 (above the cap of 100), and two of
    // them share 1..=5 besides: 7 is removed from all, 1..=5 stays.
    let mut functions: Vec<FunctionUnit> = (0..101).map(|i| unit(i, (0, 10), vec![7, 1000 + i as u64])).collect();
    functions[0].fingerprints = vec![1, 2, 3, 4, 5, 7];
    functions[1].fingerprints = vec![1, 2, 3, 4, 5, 7];
    let pairs = find_pairs(&mut functions, 800_000, 3);
    assert_eq!(pairs, vec![Pair { a: 0, b: 1 }]);
    assert_eq!(functions[0].fingerprints, vec![1, 2, 3, 4, 5]);
    assert_eq!(functions[5].fingerprints, vec![1005]);
}

#[test]
fn fingerprints_at_the_cap_survive() {
    let mut functions: Vec<FunctionUnit> = (0..100).map(|i| unit(i, (0, 10), vec![7])).collect();
    find_pairs(&mut functions, 800_000, 3);
    assert!(functions.iter().all(|f| f.fingerprints == vec![7]));
}

#[test]
fn each_containment_pair_is_reported_once() {
    // Two small copies inside one large function: two findings, never the
    // same pair twice.
    let small = (1..=10).collect::<Vec<u64>>();
    let large = (1..=30).collect::<Vec<u64>>();
    let functions = vec![
        unit(0, (0, 100), small.clone()),
        unit(1, (0, 900), large),
        unit(2, (0, 100), small),
    ];
    let pairs = find_containment(&functions, 800_000, 900_000, 3);
    let mut seen: Vec<(u32, u32)> = pairs.iter().map(|p| (p.small, p.large)).collect();
    seen.sort();
    assert_eq!(seen, vec![(0, 1), (2, 1)]);
}
