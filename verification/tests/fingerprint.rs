use dupehound::config::{KGRAM, WINDOW};
use dupehound::fingerprint::{intersection_size, kgram_hashes, mix, winnow};

fn pseudo_random_tokens(seed: u64, len: usize) -> Vec<u16> {
    let mut state = seed;
    (0..len)
        .map(|_| {
            state = mix(state);
            (state % 97) as u16
        })
        .collect()
}

#[test]
fn identical_streams_have_identical_fingerprints() {
    let toks = pseudo_random_tokens(7, 300);
    assert_eq!(winnow(&toks, KGRAM, WINDOW), winnow(&toks, KGRAM, WINDOW));
}

#[test]
fn winnowing_guarantee_any_shared_run_of_t_tokens_is_caught() {
    // Plant the same run of exactly t = w + k - 1 tokens inside two
    // otherwise unrelated streams, at many alignments.
    let t = WINDOW + KGRAM - 1;
    let run = pseudo_random_tokens(42, t);
    for offset_a in [0usize, 3, 50, 117] {
        for offset_b in [0usize, 9, 80, 200] {
            let mut a = pseudo_random_tokens(1, 260);
            let mut b = pseudo_random_tokens(2, 260);
            a.splice(offset_a..offset_a + t, run.iter().copied());
            b.splice(offset_b..offset_b + t, run.iter().copied());
            let fa = winnow(&a, KGRAM, WINDOW);
            let fb = winnow(&b, KGRAM, WINDOW);
            assert!(
                intersection_size(&fa, &fb) >= 1,
                "guarantee violated at offsets {offset_a}/{offset_b}"
            );
        }
    }
}

#[test]
fn no_match_shorter_than_k_is_possible() {
    // Streams sharing only runs of k-1 tokens share no k-gram, hence
    // cannot share a fingerprint.
    let shared: Vec<u16> = (0..KGRAM as u16 - 1).collect();
    let mut a = vec![900u16; 40];
    let mut b = vec![901u16; 40];
    a.extend(&shared);
    a.extend(vec![900u16; 40]);
    b.extend(&shared);
    b.extend(vec![901u16; 40]);
    let fa = winnow(&a, KGRAM, WINDOW);
    let fb = winnow(&b, KGRAM, WINDOW);
    assert_eq!(intersection_size(&fa, &fb), 0);
}

#[test]
fn density_is_near_two_over_w_plus_one() {
    let toks = pseudo_random_tokens(99, 20_000);
    let fps = kgram_hashes(&toks, KGRAM).len();
    let selected = winnow(&toks, KGRAM, WINDOW).len();
    let density = selected as f64 / fps as f64;
    let expected = 2.0 / (WINDOW as f64 + 1.0);
    assert!(
        (density - expected).abs() < 0.05,
        "density {density:.3}, expected ~{expected:.3}"
    );
}

#[test]
fn mix_is_the_splitmix64_finalizer() {
    // splitmix64 seeded with 0 yields this first output.
    assert_eq!(mix(0), 0xe220a8397b1dcdaf);
    assert_ne!(mix(1), mix(2));
}

#[test]
fn kgram_hashes_count_and_roll() {
    assert!(kgram_hashes(&[1, 2, 3], 4).is_empty());
    let h = kgram_hashes(&[1, 2, 3, 4, 5], 3);
    assert_eq!(h.len(), 3);
    // Rolling the window gives the same hash as hashing the k-gram afresh.
    let fresh = kgram_hashes(&[2, 3, 4], 3);
    assert_eq!(h[1], fresh[0]);
    // Token 0 still contributes: a run of zeros differs from a shorter run.
    assert_ne!(kgram_hashes(&[0, 0], 2)[0], kgram_hashes(&[0], 1)[0]);
}

#[test]
fn winnow_short_and_empty_streams() {
    assert!(winnow(&[1, 2, 3], KGRAM, WINDOW).is_empty());
    // Fewer k-grams than one window: the global minimum only.
    let codes: Vec<u16> = (0..12).collect();
    let hashes = kgram_hashes(&codes, KGRAM);
    let fps = winnow(&codes, KGRAM, WINDOW);
    assert_eq!(fps, vec![*hashes.iter().min().unwrap()]);
}

#[test]
fn winnow_output_is_sorted_and_distinct() {
    let toks = pseudo_random_tokens(5, 2000);
    let fps = winnow(&toks, KGRAM, WINDOW);
    assert!(fps.windows(2).all(|w| w[0] < w[1]));
    let hashes = kgram_hashes(&toks, KGRAM);
    assert!(fps.iter().all(|f| hashes.contains(f)));
}

#[test]
fn intersection_size_of_sorted_sets() {
    assert_eq!(intersection_size(&[1, 2, 3], &[1, 2, 3]), 3);
    assert_eq!(intersection_size(&[1, 2], &[3, 4]), 0);
    assert_eq!(intersection_size(&[1, 2, 3], &[2, 3, 4]), 2);
    assert_eq!(intersection_size(&[], &[1]), 0);
}
