//! Winnowing fingerprints over normalized token streams, after
//! Schleimer, Wilkerson & Aiken, "Winnowing: Local Algorithms for Document
//! Fingerprinting" (SIGMOD 2003).
//!
//! With k-gram size `k` and window size `w`, winnowing guarantees that any
//! run of at least t = w + k - 1 shared tokens produces at least one shared
//! fingerprint, while every fingerprint is the hash of some k-gram.

use vstd::prelude::*;
use vstd::arithmetic::div_mod::*;
use vstd::arithmetic::power::pow;
use vstd::wrapping::u64_specs;

verus! {

/// Rabin-Karp base, a prime comfortably above the u16 token alphabet.
pub const BASE: u64 = 1_000_003;

/// 2^64, the modulus of all wrapping arithmetic on `u64`.
pub open spec fn modulus() -> int {
    0x1_0000_0000_0000_0000int
}

/// The splitmix64 finalizer, as a mathematical function of its input.
pub open spec fn mixed(x: u64) -> u64 {
    let a = u64_specs::wrapping_add(x, 0x9e3779b97f4a7c15u64);
    let b = u64_specs::wrapping_mul(a ^ (a >> 30u64), 0xbf58476d1ce4e5b9u64);
    let c = u64_specs::wrapping_mul(b ^ (b >> 27u64), 0x94d049bb133111ebu64);
    c ^ (c >> 31u64)
}

/// Multiplying by `c` modulo 2^64 is undone by multiplying by `inv` when
/// `c * inv` is 1 modulo 2^64.
proof fn lemma_unmul(a: u64, c: int, inv: int, q: int)
    requires
        c * inv == 1 + q * 0x1_0000_0000_0000_0000,
    ensures
        ((a * c) % 0x1_0000_0000_0000_0000) * inv % 0x1_0000_0000_0000_0000 == a,
{
    let m: int = 0x1_0000_0000_0000_0000;
    lemma_mul_mod_noop_left(a * c, inv, m);
    assert((a * c) * inv == m * (a * q) + a) by (nonlinear_arith)
        requires
            c * inv == 1 + q * m,
    ;
    lemma_mod_multiples_vanish(a * q, a as int, m);
    lemma_small_mod(a as nat, m as nat);
}

proof fn lemma_wrapping_mul_injective(p: u64, r: u64, c: u64, inv: int, q: int)
    requires
        c * inv == 1 + q * 0x1_0000_0000_0000_0000,
        u64_specs::wrapping_mul(p, c) == u64_specs::wrapping_mul(r, c),
    ensures
        p == r,
{
    let m: int = 0x1_0000_0000_0000_0000;
    assert((p * c) % m == (r * c) % m);
    lemma_unmul(p, c as int, inv, q);
    lemma_unmul(r, c as int, inv, q);
}

/// The hash finalizer loses nothing: distinct inputs give distinct
/// outputs (the added constant, the xor-shifts and the multiplications by
/// odd constants are each invertible modulo 2^64).
pub proof fn lemma_mix_injective(x: u64, y: u64)
    requires
        mixed(x) == mixed(y),
    ensures
        x == y,
{
    let a1 = u64_specs::wrapping_add(x, 0x9e3779b97f4a7c15u64);
    let a2 = u64_specs::wrapping_add(y, 0x9e3779b97f4a7c15u64);
    let b1 = u64_specs::wrapping_mul(a1 ^ (a1 >> 30u64), 0xbf58476d1ce4e5b9u64);
    let b2 = u64_specs::wrapping_mul(a2 ^ (a2 >> 30u64), 0xbf58476d1ce4e5b9u64);
    let c1 = u64_specs::wrapping_mul(b1 ^ (b1 >> 27u64), 0x94d049bb133111ebu64);
    let c2 = u64_specs::wrapping_mul(b2 ^ (b2 >> 27u64), 0x94d049bb133111ebu64);
    assert(c1 ^ (c1 >> 31u64) == c2 ^ (c2 >> 31u64));
    assert(c1 == c2) by (bit_vector)
        requires
            c1 ^ (c1 >> 31u64) == c2 ^ (c2 >> 31u64),
    ;
    lemma_wrapping_mul_injective(
        b1 ^ (b1 >> 27u64),
        b2 ^ (b2 >> 27u64),
        0x94d049bb133111ebu64,
        0x319642b2d24d8ec3,
        2077064247507883091,
    );
    assert(b1 == b2) by (bit_vector)
        requires
            b1 ^ (b1 >> 27u64) == b2 ^ (b2 >> 27u64),
    ;
    lemma_wrapping_mul_injective(
        a1 ^ (a1 >> 30u64),
        a2 ^ (a2 >> 30u64),
        0xbf58476d1ce4e5b9u64,
        0x96de1b173f119089,
        8125545580553827436,
    );
    assert(a1 == a2) by (bit_vector)
        requires
            a1 ^ (a1 >> 30u64) == a2 ^ (a2 >> 30u64),
    ;
}

/// Polynomial hash of a token run: each token contributes `code + 1`
/// (so code 0 still counts), folded Horner-style with wrapping arithmetic.
pub open spec fn poly_hash(s: Seq<u16>) -> u64
    decreases s.len(),
{
    if s.len() == 0 {
        0
    } else {
        u64_specs::wrapping_add(
            u64_specs::wrapping_mul(poly_hash(s.drop_last()), BASE),
            (s.last() as int + 1) as u64,
        )
    }
}

/// The hash of the k-gram starting at token `i`.
pub open spec fn kgram_hash(codes: Seq<u16>, k: nat, i: int) -> u64 {
    mixed(poly_hash(codes.subrange(i, i + k)))
}

/// The hashes of every k-gram of `codes`, in order.
pub open spec fn kgram_hash_seq(codes: Seq<u16>, k: nat) -> Seq<u64> {
    if codes.len() < k {
        Seq::empty()
    } else {
        Seq::new((codes.len() - k + 1) as nat, |i: int| kgram_hash(codes, k, i))
    }
}

/// The same polynomial over the integers, without wrap-around.
spec fn int_poly(s: Seq<u16>) -> int
    decreases s.len(),
{
    if s.len() == 0 {
        0
    } else {
        int_poly(s.drop_last()) * (BASE as int) + (s.last() as int + 1)
    }
}

proof fn lemma_poly_hash_is_int_poly_mod(s: Seq<u16>)
    ensures
        poly_hash(s) as int == int_poly(s) % modulus(),
    decreases s.len(),
{
    if s.len() > 0 {
        let d = s.drop_last();
        lemma_poly_hash_is_int_poly_mod(d);
        let m = modulus();
        let x = poly_hash(d) as int;
        let prod = u64_specs::wrapping_mul(poly_hash(d), BASE) as int;
        let c = s.last() as int + 1;
        assert(prod == (x * (BASE as int)) % m);
        lemma_mul_mod_noop_left(int_poly(d), BASE as int, m);
        assert(prod == (int_poly(d) * (BASE as int)) % m);
        lemma_mod_bound(int_poly(d) * (BASE as int), m);
        lemma_add_mod_noop_right(c, int_poly(d) * (BASE as int), m);
        assert((c + prod) % m == (c + int_poly(d) * (BASE as int)) % m);
        assert(int_poly(s) == int_poly(d) * (BASE as int) + c);
        if prod + c >= m {
            assert((prod + c) % m == prod + c - m) by {
                lemma_fundamental_div_mod(prod + c, m);
                lemma_mod_bound(prod + c, m);
            }
        } else {
            lemma_small_mod((prod + c) as nat, m as nat);
        }
    }
}

proof fn lemma_int_poly_first(s: Seq<u16>)
    requires
        s.len() >= 1,
    ensures
        int_poly(s) == (s[0] as int + 1) * pow(BASE as int, (s.len() - 1) as nat) + int_poly(
            s.drop_first(),
        ),
    decreases s.len(),
{
    let b = BASE as int;
    reveal(pow);
    if s.len() == 1 {
        assert(int_poly(s.drop_last()) == 0);
        assert(int_poly(s.drop_first()) == 0);
        assert(s.last() == s[0]);
        assert(pow(b, 0) == 1);
    } else {
        let d = s.drop_last();
        lemma_int_poly_first(d);
        let n = (s.len() - 1) as nat;
        assert(d.drop_first() =~= s.drop_first().drop_last());
        assert(d[0] == s[0]);
        let a = s[0] as int + 1;
        let p = pow(b, (n - 1) as nat);
        let x = int_poly(d.drop_first());
        assert(pow(b, n) == b * p);
        assert(s.drop_first().last() == s.last());
        assert(int_poly(s.drop_first()) == x * b + (s.last() as int + 1));
        assert(int_poly(d) == a * p + x);
        assert(int_poly(s) == int_poly(d) * b + (s.last() as int + 1));
        assert((a * p + x) * b == a * (b * p) + x * b) by (nonlinear_arith);
    }
}

/// One rolling step of the hash, in modular arithmetic.
proof fn lemma_roll_step(h: u64, pw: u64, c0: u16, c1: u16, s: Seq<u16>, k: nat)
    requires
        k >= 1,
        s.len() == k,
        s[0] == c0,
        h == poly_hash(s),
        pw as int == pow(BASE as int, (k - 1) as nat) % modulus(),
    ensures
        u64_specs::wrapping_add(
            u64_specs::wrapping_mul(
                u64_specs::wrapping_sub(
                    h,
                    u64_specs::wrapping_mul((c0 as int + 1) as u64, pw),
                ),
                BASE,
            ),
            (c1 as int + 1) as u64,
        ) == poly_hash(s.drop_first().push(c1)),
{
    let m = modulus();
    let b = BASE as int;
    let a = c0 as int + 1;
    let big_p = pow(b, (k - 1) as nat);
    let t = s.drop_first().push(c1);
    lemma_poly_hash_is_int_poly_mod(s);
    lemma_poly_hash_is_int_poly_mod(t);
    lemma_int_poly_first(s);
    assert(t.drop_last() =~= s.drop_first());
    assert(int_poly(t) == (int_poly(s) - a * big_p) * b + (c1 as int + 1));
    // term = a * pw mod m
    let term = u64_specs::wrapping_mul(a as u64, pw) as int;
    assert(term == (a * (pw as int)) % m);
    lemma_mul_mod_noop_right(a, big_p, m);
    assert(term == (a * big_p) % m);
    // diff = (h - term) mod m
    let d2 = u64_specs::wrapping_sub(h, term as u64) as int;
    lemma_mod_bound(a * big_p, m);
    assert(d2 == (h as int - term) % m) by {
        if h as int - term < 0 {
            lemma_fundamental_div_mod(h as int - term, m);
            lemma_mod_bound(h as int - term, m);
        } else {
            lemma_small_mod((h as int - term) as nat, m as nat);
        }
    }
    lemma_sub_mod_noop(int_poly(s), a * big_p, m);
    assert(d2 == (int_poly(s) - a * big_p) % m);
    // scaled = d2 * b mod m
    let scaled = u64_specs::wrapping_mul(d2 as u64, BASE) as int;
    assert(scaled == (d2 * b) % m);
    lemma_mul_mod_noop_left(int_poly(s) - a * big_p, b, m);
    assert(scaled == ((int_poly(s) - a * big_p) * b) % m);
    // final add
    let c = c1 as int + 1;
    let fin = u64_specs::wrapping_add(scaled as u64, c as u64) as int;
    lemma_mod_bound((int_poly(s) - a * big_p) * b, m);
    assert(fin == (scaled + c) % m) by {
        if scaled + c >= m {
            lemma_fundamental_div_mod(scaled + c, m);
            lemma_mod_bound(scaled + c, m);
        } else {
            lemma_small_mod((scaled + c) as nat, m as nat);
        }
    }
    lemma_add_mod_noop_right(c, (int_poly(s) - a * big_p) * b, m);
    assert(fin == int_poly(t) % m);
}

/// splitmix64 finalizer: spreads the polynomial hashes uniformly so the
/// per-window minimum acts as a uniform random sample.
pub fn mix(x: u64) -> (r: u64)
    ensures
        r == mixed(x),
{
    let a = x.wrapping_add(0x9e3779b97f4a7c15);
    let b = (a ^ (a >> 30u64)).wrapping_mul(0xbf58476d1ce4e5b9);
    let c = (b ^ (b >> 27u64)).wrapping_mul(0x94d049bb133111eb);
    c ^ (c >> 31u64)
}

/// Hash every k-gram of `codes` with a rolling polynomial hash, O(n).
pub fn kgram_hashes(codes: &[u16], k: usize) -> (hashes: Vec<u64>)
    requires
        k >= 1,
    ensures
        hashes@ == kgram_hash_seq(codes@, k as nat),
{
    let n = codes.len();
    if n < k {
        return Vec::new();
    }
    let ghost m = modulus();
    let mut pw: u64 = 1;
    let mut e: usize = 0;
    proof {
        lemma_small_mod(1nat, m as nat);
        reveal(pow);
    }
    while e < k - 1
        invariant
            e <= k - 1,
            m == modulus(),
            pw as int == pow(BASE as int, e as nat) % m,
        decreases k - 1 - e,
    {
        proof {
            reveal(pow);
            lemma_mul_mod_noop_left(pow(BASE as int, e as nat), BASE as int, m);
            assert(pow(BASE as int, (e + 1) as nat) == BASE as int * pow(BASE as int, e as nat));
            assert(pow(BASE as int, e as nat) * (BASE as int) == (BASE as int) * pow(
                BASE as int,
                e as nat,
            )) by (nonlinear_arith);
        }
        pw = pw.wrapping_mul(BASE);
        e = e + 1;
    }
    let mut h: u64 = 0;
    let mut i: usize = 0;
    while i < k
        invariant
            i <= k <= n == codes@.len(),
            h == poly_hash(codes@.subrange(0, i as int)),
        decreases k - i,
    {
        proof {
            assert(codes@.subrange(0, i + 1).drop_last() =~= codes@.subrange(0, i as int));
        }
        h = h.wrapping_mul(BASE).wrapping_add(codes[i] as u64 + 1);
        i = i + 1;
    }
    let mut hashes: Vec<u64> = Vec::new();
    hashes.push(mix(h));
    let mut i: usize = k;
    while i < n
        invariant
            1 <= k <= i <= n == codes@.len(),
            pw as int == pow(BASE as int, (k - 1) as nat) % modulus(),
            h == poly_hash(codes@.subrange(i - k, i as int)),
            hashes@.len() == i - k + 1,
            forall|j: int| 0 <= j < hashes@.len() ==> hashes@[j] == kgram_hash(codes@, k as nat, j),
        decreases n - i,
    {
        let c0 = codes[i - k];
        let c1 = codes[i];
        proof {
            let s = codes@.subrange(i - k, i as int);
            lemma_roll_step(h, pw, c0, c1, s, k as nat);
            assert(s.drop_first().push(c1) =~= codes@.subrange(i - k + 1, i + 1));
        }
        h = h.wrapping_sub((c0 as u64 + 1).wrapping_mul(pw));
        h = h.wrapping_mul(BASE).wrapping_add(c1 as u64 + 1);
        hashes.push(mix(h));
        i = i + 1;
    }
    assert(hashes@ =~= kgram_hash_seq(codes@, k as nat));
    hashes
}

/// `v` is the minimum of the `len` hashes starting at `start`.
pub open spec fn is_window_min(hs: Seq<u64>, start: int, len: int, v: u64) -> bool {
    &&& exists|j: int| start <= j < start + len && hs[j] == v
    &&& forall|j: int| start <= j < start + len ==> v <= hs[j]
}

/// The window length actually used: `w`, or every hash when there are
/// fewer than one full window of them.
pub open spec fn window_span(n: nat, w: nat) -> nat {
    if n <= w {
        n
    } else {
        w
    }
}

/// `v` is the minimum of some window of `hs`.
pub open spec fn is_selected(hs: Seq<u64>, w: nat, v: u64) -> bool {
    let span = window_span(hs.len(), w);
    exists|s: int| 0 <= s <= hs.len() - span && #[trigger] is_window_min(hs, s, span as int, v)
}

/// The fingerprint set of a token stream: the minimum hash of every window
/// of `w` consecutive k-gram hashes (of all of them when there are at most `w`).
pub open spec fn fingerprint_set(codes: Seq<u16>, k: nat, w: nat) -> Set<u64> {
    Set::new(|v: u64| is_selected(kgram_hash_seq(codes, k), w, v))
}

/// Ascending, without repetition: the canonical listing of a set.
pub open spec fn strictly_increasing(s: Seq<u64>) -> bool {
    forall|i: int, j: int| 0 <= i < j < s.len() ==> s[i] < s[j]
}

/// Some listed value is the minimum of window `s`.
spec fn window_covered(fps: Seq<u64>, hs: Seq<u64>, s: int, w: int) -> bool {
    exists|v: u64| fps.contains(v) && #[trigger] is_window_min(hs, s, w, v)
}

/// Sorts in ascending order. Trusted: calls `slice::sort_unstable`, which
/// std documents as reordering the elements (none added or lost) so that
/// they ascend.
#[verifier::external_body]
fn sort_ascending(v: &mut Vec<u64>)
    ensures
        final(v)@.to_multiset() == old(v)@.to_multiset(),
        forall|i: int, j: int| 0 <= i <= j < final(v)@.len() ==> final(v)@[i] <= final(v)@[j],
{
    v.sort_unstable();
}

/// Sorted copy of `v` without repeated elements.
fn sorted_distinct(v: Vec<u64>) -> (out: Vec<u64>)
    ensures
        strictly_increasing(out@),
        forall|x: u64| out@.contains(x) <==> v@.contains(x),
{
    let mut v = v;
    let ghost before = v@;
    sort_ascending(&mut v);
    proof {
        broadcast use vstd::seq_lib::group_to_multiset_ensures;
        assert forall|x: u64| v@.contains(x) <==> before.contains(x) by {
            assert(v@.contains(x) <==> v@.to_multiset().count(x) > 0);
            assert(before.contains(x) <==> before.to_multiset().count(x) > 0);
        }
    }
    let mut out: Vec<u64> = Vec::new();
    let mut i: usize = 0;
    while i < v.len()
        invariant
            i <= v@.len(),
            forall|a: int, b: int| 0 <= a <= b < v@.len() ==> v@[a] <= v@[b],
            strictly_increasing(out@),
            i > 0 ==> out@.len() > 0 && out@.last() == v@[i - 1],
            i == 0 ==> out@.len() == 0,
            forall|x: u64| out@.contains(x) <==> v@.subrange(0, i as int).contains(x),
        decreases v@.len() - i,
    {
        let x = v[i];
        let ghost prev_out = out@;
        assert(forall|z: u64| prev_out.contains(z) <==> v@.subrange(0, i as int).contains(z));
        if out.len() == 0 || out[out.len() - 1] != x {
            out.push(x);
        }
        proof {
            assert(v@.subrange(0, i + 1) =~= v@.subrange(0, i as int).push(x));
            assert(out@.contains(x)) by {
                if out@.len() > prev_out.len() {
                    assert(out@[out@.len() - 1] == x);
                } else {
                    assert(out@[out@.len() - 1] == x);
                }
            }
            assert forall|y: u64| out@.contains(y) <==> v@.subrange(0, i + 1).contains(y) by {
                let cur = v@.subrange(0, i + 1);
                let pre = v@.subrange(0, i as int);
                if y == x {
                    assert(cur[i as int] == x);
                } else {
                    if cur.contains(y) {
                        let t = choose|t: int| 0 <= t < cur.len() && cur[t] == y;
                        assert(pre[t] == y);
                        assert(prev_out.contains(y));
                        let u = choose|u: int| 0 <= u < prev_out.len() && prev_out[u] == y;
                        assert(out@[u] == y);
                    }
                    if out@.contains(y) {
                        let t = choose|t: int| 0 <= t < out@.len() && out@[t] == y;
                        assert(t < prev_out.len());
                        assert(prev_out[t] == y);
                        assert(prev_out.contains(y));
                        assert(pre.contains(y));
                        let u = choose|u: int| 0 <= u < pre.len() && pre[u] == y;
                        assert(cur[u] == y);
                    }
                }
            }
        }
        i = i + 1;
    }
    assert(v@.subrange(0, v@.len() as int) =~= v@);
    out
}

/// Robust winnowing: in each window of `w` consecutive k-gram hashes select
/// the minimum, breaking ties by taking the rightmost occurrence, and record
/// a fingerprint only when the selected position changes between windows.
/// Returns the distinct fingerprint set, sorted.
pub fn winnow(codes: &[u16], k: usize, w: usize) -> (fps: Vec<u64>)
    requires
        k >= 1,
        w >= 1 || codes@.len() < k,
    ensures
        strictly_increasing(fps@),
        forall|v: u64| fps@.contains(v) <==> fingerprint_set(codes@, k as nat, w as nat).contains(v),
{
    let hashes = kgram_hashes(codes, k);
    let ghost hs = hashes@;
    let n = hashes.len();
    if n == 0 {
        proof {
            assert forall|v: u64| !is_selected(hs, w as nat, v) by {
                if is_selected(hs, w as nat, v) {
                    let s = choose|s: int| 0 <= s <= 0 && #[trigger] is_window_min(hs, s, 0, v);
                }
            }
        }
        return Vec::new();
    }
    let mut fps: Vec<u64> = Vec::new();
    if n <= w {
        let mut best: usize = 0;
        let mut i: usize = 0;
        while i < n
            invariant
                n == hashes@.len() == hs.len(),
                hs == hashes@,
                i <= n,
                best < n,
                best <= i,
                i > 0 ==> best < i,
                forall|j: int| 0 <= j < i ==> hashes@[best as int] <= hashes@[j],
            decreases n - i,
        {
            if hashes[i] <= hashes[best] {
                best = i;
            }
            i = i + 1;
        }
        fps.push(hashes[best]);
        proof {
            assert(is_window_min(hs, 0, n as int, hashes@[best as int]));
            assert forall|v: u64| fps@.contains(v) <==> is_selected(hs, w as nat, v) by {
                if is_selected(hs, w as nat, v) {
                    let s = choose|s: int|
                        0 <= s <= 0 && #[trigger] is_window_min(hs, s, n as int, v);
                    let j = choose|j: int| 0 <= j < n && hs[j] == v;
                    assert(v <= hs[best as int]);
                    assert(hs[best as int] <= v);
                    assert(fps@[0] == v);
                }
                if fps@.contains(v) {
                    assert(fps@[0] == v);
                    assert(is_window_min(hs, 0, n as int, v));
                }
            }
        }
    } else {
        let last = n - w;
        let mut prev: Option<usize> = None;
        let mut start: usize = 0;
        while start <= last
            invariant
                n == hashes@.len() == hs.len(),
                1 <= w < n,
                last == n - w,
                start <= last + 1,
                hs == hashes@,
                prev matches Some(b) ==> b < n && fps@.contains(hashes@[b as int]),
                start > 0 ==> prev is Some,
                prev matches Some(b) ==> start > 0 && is_window_min(hs, start - 1, w as int, hs[b as int]) && start - 1 <= b,
                forall|s: int| 0 <= s < start ==> #[trigger] window_covered(fps@, hs, s, w as int),
                forall|v: u64|
                    fps@.contains(v) ==> exists|s: int| 0 <= s < start && #[trigger] is_window_min(hs, s, w as int, v),
            decreases last + 1 - start,
        {
            let mut best = start;
            let mut i = start;
            while i < start + w
                invariant
                    n == hashes@.len(),
                    hs == hashes@,
                    start + w <= n,
                    start <= best < start + w,
                    start <= i <= start + w,
                    best <= i,
                    i > start ==> best < i,
                    forall|j: int| start <= j < i ==> hashes@[best as int] <= hashes@[j],
                decreases start + w - i,
            {
                if hashes[i] <= hashes[best] {
                    best = i;
                }
                i = i + 1;
            }
            let ghost old_fps = fps@;
            proof {
                assert(hs[best as int] == hashes@[best as int]);
                assert(is_window_min(hs, start as int, w as int, hs[best as int]));
            }
            let same = match prev {
                Some(b) => b == best,
                None => false,
            };
            if !same {
                fps.push(hashes[best]);
                prev = Some(best);
            }
            proof {
                if same {
                    assert(fps@ == old_fps);
                } else {
                    assert(fps@ == old_fps.push(hs[best as int]));
                    assert(fps@[old_fps.len() as int] == hs[best as int]);
                }
                assert(fps@.contains(hs[best as int]));
                assert forall|v: u64| old_fps.contains(v) implies fps@.contains(v) by {
                    let t = choose|t: int| 0 <= t < old_fps.len() && old_fps[t] == v;
                    assert(fps@[t] == v);
                }
                assert forall|s: int| 0 <= s < start + 1 implies #[trigger] window_covered(fps@, hs, s, w as int) by {
                    if s < start {
                        assert(window_covered(old_fps, hs, s, w as int));
                        let v = choose|v: u64| old_fps.contains(v) && #[trigger] is_window_min(hs, s, w as int, v);
                        assert(fps@.contains(v));
                    } else {
                        assert(is_window_min(hs, s, w as int, hs[best as int]));
                    }
                }
                assert forall|v: u64|
                    fps@.contains(v) implies exists|s: int| 0 <= s < start + 1 && #[trigger] is_window_min(hs, s, w as int, v) by {
                    if old_fps.contains(v) {
                        let s = choose|s: int| 0 <= s < start && #[trigger] is_window_min(hs, s, w as int, v);
                        assert(0 <= s < start + 1 && is_window_min(hs, s, w as int, v));
                    } else {
                        assert(v == hs[best as int]);
                        assert(is_window_min(hs, start as int, w as int, v));
                    }
                }
            }
            start = start + 1;
        }
        proof {
            assert(window_span(n as nat, w as nat) == w);
            assert forall|v: u64| fps@.contains(v) <==> is_selected(hs, w as nat, v) by {
                if fps@.contains(v) {
                    let s = choose|s: int| 0 <= s < start && #[trigger] is_window_min(hs, s, w as int, v);
                    assert(0 <= s <= hs.len() - w);
                }
                if is_selected(hs, w as nat, v) {
                    let s = choose|s: int| 0 <= s <= hs.len() - w && #[trigger] is_window_min(hs, s, w as int, v);
                    assert(window_covered(fps@, hs, s, w as int));
                    let u = choose|u: u64| fps@.contains(u) && #[trigger] is_window_min(hs, s, w as int, u);
                    let j1 = choose|j: int| s <= j < s + w && hs[j] == v;
                    let j2 = choose|j: int| s <= j < s + w && hs[j] == u;
                    assert(u == v);
                }
            }
        }
    }
    let out = sorted_distinct(fps);
    proof {
        assert forall|v: u64| out@.contains(v) <==> fingerprint_set(codes@, k as nat, w as nat).contains(v) by {
            assert(fingerprint_set(codes@, k as nat, w as nat).contains(v) == is_selected(hs, w as nat, v));
        }
    }
    out
}

/// Number of fingerprints two sets have in common.
pub open spec fn shared_count(a: Seq<u64>, b: Seq<u64>) -> nat {
    a.to_set().intersect(b.to_set()).len()
}

/// Matches counted by a simultaneous ascending walk over `a` and `b`.
/// For two strictly increasing sequences this is their `shared_count`.
pub open spec fn merge_count(a: Seq<u64>, b: Seq<u64>) -> nat
    decreases a.len() + b.len(),
{
    if a.len() == 0 || b.len() == 0 {
        0
    } else if a[0] < b[0] {
        merge_count(a.drop_first(), b)
    } else if b[0] < a[0] {
        merge_count(a, b.drop_first())
    } else {
        1 + merge_count(a.drop_first(), b.drop_first())
    }
}

proof fn lemma_increasing_drop_first(a: Seq<u64>)
    requires
        strictly_increasing(a),
        a.len() > 0,
    ensures
        strictly_increasing(a.drop_first()),
        !a.drop_first().contains(a[0]),
        forall|x: u64| a.contains(x) ==> a[0] <= x,
        a.to_set() =~= a.drop_first().to_set().insert(a[0]),
{
    assert forall|x: u64| a.contains(x) implies a[0] <= x by {
        let t = choose|t: int| 0 <= t < a.len() && a[t] == x;
        if t > 0 {
            assert(a[0] < a[t]);
        }
    }
    if a.drop_first().contains(a[0]) {
        let t = choose|t: int| 0 <= t < a.drop_first().len() && a.drop_first()[t] == a[0];
        assert(a[t + 1] == a[0]);
        assert(a[0] < a[t + 1]);
    }
    assert forall|x: u64| a.to_set().contains(x) <==> a.drop_first().to_set().insert(a[0]).contains(x) by {
        if a.contains(x) && x != a[0] {
            let t = choose|t: int| 0 <= t < a.len() && a[t] == x;
            assert(a.drop_first()[t - 1] == x);
        }
        if a.drop_first().contains(x) {
            let t = choose|t: int| 0 <= t < a.drop_first().len() && a.drop_first()[t] == x;
            assert(a[t + 1] == x);
        }
        if x == a[0] {
            assert(a.contains(a[0]));
        }
    }
}

/// For two strictly increasing sequences, the ascending walk counts
/// exactly the elements they share.
pub proof fn lemma_merge_count_is_shared_count(a: Seq<u64>, b: Seq<u64>)
    requires
        strictly_increasing(a),
        strictly_increasing(b),
    ensures
        merge_count(a, b) == shared_count(a, b),
    decreases a.len() + b.len(),
{
    broadcast use vstd::seq_lib::seq_to_set_is_finite;
    let sa = a.to_set();
    let sb = b.to_set();
    if a.len() == 0 {
        assert(sa.intersect(sb) =~= Set::empty());
    } else if b.len() == 0 {
        assert(sa.intersect(sb) =~= Set::empty());
    } else {
        lemma_increasing_drop_first(a);
        lemma_increasing_drop_first(b);
        let sa2 = a.drop_first().to_set();
        let sb2 = b.drop_first().to_set();
        if a[0] < b[0] {
            lemma_merge_count_is_shared_count(a.drop_first(), b);
            assert(!b.contains(a[0]));
            assert(sa.intersect(sb) =~= sa2.intersect(sb));
        } else if b[0] < a[0] {
            lemma_merge_count_is_shared_count(a, b.drop_first());
            assert(!a.contains(b[0]));
            assert(sa.intersect(sb) =~= sa.intersect(sb2));
        } else {
            lemma_merge_count_is_shared_count(a.drop_first(), b.drop_first());
            let rest = sa2.intersect(sb2);
            assert(sa.intersect(sb) =~= rest.insert(a[0]));
            assert(!rest.contains(a[0]));
            vstd::set_lib::lemma_len_intersect(sa2, sb2);
            assert(rest.finite());
        }
    }
}

/// Size of the intersection of two sorted, deduplicated fingerprint sets,
/// by a linear merge.
pub fn intersection_size(a: &[u64], b: &[u64]) -> (n: usize)
    ensures
        n == merge_count(a@, b@),
        n <= a@.len(),
        n <= b@.len(),
        strictly_increasing(a@) && strictly_increasing(b@) ==> n == shared_count(a@, b@),
{
    let mut i: usize = 0;
    let mut j: usize = 0;
    let mut n: usize = 0;
    assert(a@.subrange(0, a@.len() as int) =~= a@);
    assert(b@.subrange(0, b@.len() as int) =~= b@);
    while i < a.len() && j < b.len()
        invariant
            i <= a@.len(),
            j <= b@.len(),
            n <= i,
            n <= j,
            n + merge_count(a@.subrange(i as int, a@.len() as int), b@.subrange(j as int, b@.len() as int))
                == merge_count(a@, b@),
        decreases a@.len() - i + b@.len() - j,
    {
        let ghost ra = a@.subrange(i as int, a@.len() as int);
        let ghost rb = b@.subrange(j as int, b@.len() as int);
        proof {
            assert(ra.drop_first() =~= a@.subrange(i + 1, a@.len() as int));
            assert(rb.drop_first() =~= b@.subrange(j + 1, b@.len() as int));
            assert(ra[0] == a@[i as int]);
            assert(rb[0] == b@[j as int]);
        }
        if a[i] < b[j] {
            i = i + 1;
        } else if b[j] < a[i] {
            j = j + 1;
        } else {
            n = n + 1;
            i = i + 1;
            j = j + 1;
        }
    }
    proof {
        let ra = a@.subrange(i as int, a@.len() as int);
        let rb = b@.subrange(j as int, b@.len() as int);
        assert(ra.len() == 0 || rb.len() == 0);
        assert(a@.subrange(0, a@.len() as int) =~= a@);
        assert(b@.subrange(0, b@.len() as int) =~= b@);
        if strictly_increasing(a@) && strictly_increasing(b@) {
            lemma_merge_count_is_shared_count(a@, b@);
        }
    }
    n
}

proof fn lemma_window_has_min(hs: Seq<u64>, start: int, len: int)
    requires
        0 <= start,
        1 <= len,
        start + len <= hs.len(),
    ensures
        exists|v: u64| #[trigger] is_window_min(hs, start, len, v),
    decreases len,
{
    if len == 1 {
        assert(is_window_min(hs, start, 1, hs[start]));
    } else {
        lemma_window_has_min(hs, start, len - 1);
        let v = choose|v: u64| #[trigger] is_window_min(hs, start, len - 1, v);
        let last = hs[start + len - 1];
        if last < v {
            assert forall|j: int| start <= j < start + len implies last <= hs[j] by {
                if j < start + len - 1 {
                    assert(v <= hs[j]);
                }
            }
            assert(is_window_min(hs, start, len, last));
        } else {
            let j0 = choose|j: int| start <= j < start + len - 1 && hs[j] == v;
            assert(start <= j0 < start + len && hs[j0] == v);
            assert(is_window_min(hs, start, len, v));
        }
    }
}

/// The winnowing guarantee: two token streams that share a run of
/// `w + k - 1` tokens (at offset `i` in `a` and `j` in `b`) share at least
/// one fingerprint.
pub proof fn lemma_shared_run_shares_fingerprint(
    a: Seq<u16>,
    b: Seq<u16>,
    i: int,
    j: int,
    k: nat,
    w: nat,
)
    requires
        k >= 1,
        w >= 1,
        0 <= i,
        0 <= j,
        i + w + k - 1 <= a.len(),
        j + w + k - 1 <= b.len(),
        a.subrange(i, i + w + k - 1) == b.subrange(j, j + w + k - 1),
    ensures
        exists|v: u64|
            fingerprint_set(a, k, w).contains(v) && fingerprint_set(b, k, w).contains(v),
{
    let t = (w + k - 1) as int;
    let ha = kgram_hash_seq(a, k);
    let hb = kgram_hash_seq(b, k);
    let ra = a.subrange(i, i + t);
    assert(ha.len() == a.len() - k + 1);
    assert(hb.len() == b.len() - k + 1);
    assert forall|q: int| i <= q < i + w implies #[trigger] ha[q] == hb[j + (q - i)] by {
        let p = q - i;
        assert(a.subrange(i + p, i + p + k) =~= ra.subrange(p, p + k));
        assert(b.subrange(j + p, j + p + k) =~= b.subrange(j, j + t).subrange(p, p + k));
    }
    assert(window_span(ha.len(), w) == w);
    assert(window_span(hb.len(), w) == w);
    lemma_window_has_min(ha, i, w as int);
    let v = choose|v: u64| #[trigger] is_window_min(ha, i, w as int, v);
    let q0 = choose|q: int| i <= q < i + w && ha[q] == v;
    assert(ha[q0] == hb[j + (q0 - i)]);
    assert forall|q: int| j <= q < j + w implies v <= hb[q] by {
        assert(ha[i + (q - j)] == hb[q]);
    }
    assert(is_window_min(hb, j, w as int, v));
    assert(is_selected(ha, w, v));
    assert(is_selected(hb, w, v));
    assert(fingerprint_set(a, k, w).contains(v));
    assert(fingerprint_set(b, k, w).contains(v));
}

/// Every fingerprint is the hash of some k-gram of the stream, so two
/// streams can only share a fingerprint through a shared k-gram hash;
/// no run shorter than `k` tokens is ever fingerprinted on its own.
pub proof fn lemma_fingerprints_are_kgram_hashes(codes: Seq<u16>, k: nat, w: nat, v: u64)
    requires
        fingerprint_set(codes, k, w).contains(v),
    ensures
        exists|i: int| 0 <= i && i + k <= codes.len() && v == #[trigger] kgram_hash(codes, k, i),
{
    let hs = kgram_hash_seq(codes, k);
    let span = window_span(hs.len(), w);
    assert(is_selected(hs, w, v));
    let s = choose|s: int| 0 <= s <= hs.len() - span && #[trigger] is_window_min(hs, s, span as int, v);
    let q = choose|q: int| s <= q < s + span && hs[q] == v;
    assert(hs.len() > 0);
    assert(v == kgram_hash(codes, k, q));
}

/// A strictly increasing listing of a set is unique: two of them with the
/// same elements are the same sequence. Fingerprint lists are therefore
/// a function of the token stream alone.
pub proof fn lemma_increasing_listing_unique(s1: Seq<u64>, s2: Seq<u64>)
    requires
        strictly_increasing(s1),
        strictly_increasing(s2),
        forall|x: u64| s1.contains(x) <==> s2.contains(x),
    ensures
        s1 == s2,
    decreases s1.len(),
{
    if s1.len() == 0 {
        if s2.len() > 0 {
            assert(s2.contains(s2[0]));
        }
        assert(s1 =~= s2);
    } else {
        assert(s1.contains(s1[0]));
        assert(s2.len() > 0);
        assert(s2.contains(s2[0]));
        lemma_increasing_drop_first(s1);
        lemma_increasing_drop_first(s2);
        assert(s1[0] == s2[0]) by {
            assert(s2[0] <= s1[0]);
            assert(s1[0] <= s2[0]);
        }
        assert forall|x: u64| s1.drop_first().contains(x) <==> s2.drop_first().contains(x) by {
            if s1.drop_first().contains(x) {
                let t = choose|t: int| 0 <= t < s1.drop_first().len() && s1.drop_first()[t] == x;
                assert(s1[t + 1] == x);
                assert(s1.contains(x));
                assert(x != s2[0]);
                let u = choose|u: int| 0 <= u < s2.len() && s2[u] == x;
                assert(u > 0);
                assert(s2.drop_first()[u - 1] == x);
            }
            if s2.drop_first().contains(x) {
                let t = choose|t: int| 0 <= t < s2.drop_first().len() && s2.drop_first()[t] == x;
                assert(s2[t + 1] == x);
                assert(s2.contains(x));
                assert(x != s1[0]);
                let u = choose|u: int| 0 <= u < s1.len() && s1[u] == x;
                assert(u > 0);
                assert(s1.drop_first()[u - 1] == x);
            }
        }
        lemma_increasing_listing_unique(s1.drop_first(), s2.drop_first());
        assert(s1 =~= s2) by {
            assert forall|t: int| 0 <= t < s1.len() implies s1[t] == s2[t] by {
                if t > 0 {
                    assert(s1[t] == s1.drop_first()[t - 1]);
                    assert(s2[t] == s2.drop_first()[t - 1]);
                }
            }
        }
    }
}

/// A stream has fingerprints exactly when it has at least one k-gram.
pub proof fn lemma_fingerprint_set_nonempty(codes: Seq<u16>, k: nat, w: nat)
    requires
        k >= 1,
        w >= 1,
    ensures
        (exists|v: u64| fingerprint_set(codes, k, w).contains(v)) <==> codes.len() >= k,
{
    let hs = kgram_hash_seq(codes, k);
    if codes.len() >= k {
        let span = window_span(hs.len(), w);
        lemma_window_has_min(hs, 0, span as int);
        let v = choose|v: u64| #[trigger] is_window_min(hs, 0, span as int, v);
        assert(is_selected(hs, w, v));
        assert(fingerprint_set(codes, k, w).contains(v));
    } else {
        assert forall|v: u64| !fingerprint_set(codes, k, w).contains(v) by {
            if is_selected(hs, w, v) {
                let s = choose|s: int| 0 <= s <= 0 && #[trigger] is_window_min(hs, s, 0, v);
            }
        }
    }
}

} // verus!
