//! Inverted fingerprint index and candidate pair generation. This is the
//! O(n²) firewall: functions only ever get compared when they already share
//! fingerprints, and ultra-common fingerprints (language boilerplate) are
//! culled before they can pair everything with everything.
//!
//! Similarity thresholds are in millionths: a pair sharing `c` of the `u`
//! fingerprints in their union meets threshold `t` when `c / u >= t / 10^6`.

use vstd::prelude::*;
use std::collections::{HashMap, HashSet};
use crate::extract::FunctionUnit;
use crate::fingerprint::{intersection_size, shared_count, strictly_increasing};
use crate::lang::Lang;

verus! {

broadcast use vstd::std_specs::hash::group_hash_axioms;

/// Two functions (by index) that duplicate each other, `a < b`.
#[derive(Clone, Copy, Debug, PartialEq, Eq, Structural)]
pub struct Pair {
    pub a: u32,
    pub b: u32,
}

/// `part / whole >= t / 10^6`, where an empty whole has similarity 0.
pub open spec fn meets_ppm(part: int, whole: int, t: u32) -> bool {
    if whole == 0 {
        t == 0
    } else {
        part * 1_000_000 >= t * whole
    }
}

pub(crate) fn meets_threshold(part: u128, whole: u128, t: u32) -> (r: bool)
    requires
        part <= 0x1_0000_0000_0000_0000_0000u128,
        whole <= 0x1_0000_0000_0000_0000_0000u128,
    ensures
        r == meets_ppm(part as int, whole as int, t),
{
    if whole == 0 {
        t == 0
    } else {
        assert(part * 1_000_000 <= 0x1_0000_0000_0000_0000_0000u128 * 1_000_000) by (nonlinear_arith)
            requires
                part <= 0x1_0000_0000_0000_0000_0000u128,
        ;
        assert((t as u128) * whole <= 0xffff_ffffu128 * 0x1_0000_0000_0000_0000_0000u128) by (
        nonlinear_arith)
            requires
                whole <= 0x1_0000_0000_0000_0000_0000u128,
                t <= 0xffff_ffffu32,
        ;
        part * 1_000_000 >= (t as u128) * whole
    }
}

pub open spec fn increasing_u32(s: Seq<u32>) -> bool {
    forall|i: int, j: int| 0 <= i < j < s.len() ==> s[i] < s[j]
}

/// Position `start` of the first element of the ascending list `list`
/// that is greater than `pos`.
fn first_after(list: &Vec<u32>, pos: u32) -> (start: usize)
    requires
        increasing_u32(list@),
    ensures
        start <= list@.len(),
        forall|j: int| 0 <= j < start ==> list@[j] <= pos,
        forall|j: int| start <= j < list@.len() ==> list@[j] > pos,
{
    let mut lo: usize = 0;
    let mut hi: usize = list.len();
    while lo < hi
        invariant
            lo <= hi <= list@.len(),
            increasing_u32(list@),
            forall|j: int| 0 <= j < lo ==> list@[j] <= pos,
            forall|j: int| hi <= j < list@.len() ==> list@[j] > pos,
        decreases hi - lo,
    {
        let mid = lo + (hi - lo) / 2;
        if list[mid] <= pos {
            lo = mid + 1;
        } else {
            hi = mid;
        }
    }
    lo
}

/// The fingerprints of the group members, by position.
pub open spec fn group_fps(functions: Seq<FunctionUnit>, ids: Seq<u32>) -> Seq<Seq<u64>> {
    Seq::new(ids.len(), |p: int| functions[ids[p] as int].fingerprints@)
}

/// `l` is an ascending list of positions up to `upto` whose fingerprints
/// contain `fp` (at `upto` itself, among its first `k`).
pub open spec fn list_ok(l: Seq<u32>, gf: Seq<Seq<u64>>, upto: int, k: int, fp: u64) -> bool {
    &&& increasing_u32(l)
    &&& forall|j: int|
        #![trigger l[j]]
        0 <= j < l.len() ==> l[j] <= upto && gf[l[j] as int].contains(fp) && (l[j] == upto
            ==> gf[upto].subrange(0, k).contains(fp))
}

/// `m` lists, for every fingerprint, the ascending positions below `upto`
/// whose fingerprints contain it, plus those among the first `k`
/// fingerprints of position `upto`.
pub open spec fn postings_ok(m: Map<u64, Vec<u32>>, gf: Seq<Seq<u64>>, upto: int, k: int) -> bool {
    &&& forall|fp: u64| #[trigger] m.contains_key(fp) ==> list_ok(m[fp]@, gf, upto, k, fp)
    &&& forall|q: int, fp: u64|
        0 <= q < upto && #[trigger] gf[q].contains(fp) ==> m.contains_key(fp) && m[fp]@.contains(
            q as u32,
        )
    &&& forall|fp: u64|
        0 <= k && gf[upto].subrange(0, k).contains(fp) ==> #[trigger] m.contains_key(fp) && m[fp]@.contains(
            upto as u32,
        )
}

proof fn lemma_postings_advance(m: Map<u64, Vec<u32>>, gf: Seq<Seq<u64>>, p: int)
    requires
        0 <= p < gf.len(),
        postings_ok(m, gf, p, gf[p].len() as int),
    ensures
        postings_ok(m, gf, p + 1, 0),
{
    assert(gf[p].subrange(0, gf[p].len() as int) =~= gf[p]);
    assert forall|fp: u64| #[trigger] m.contains_key(fp) implies list_ok(m[fp]@, gf, p + 1, 0, fp) by {
        let l = m[fp]@;
        assert(list_ok(l, gf, p, gf[p].len() as int, fp));
        assert forall|j: int| 0 <= j < l.len() implies #[trigger] l[j] <= p + 1 && gf[l[j] as int].contains(fp)
            && (l[j] == p + 1 ==> gf[p + 1].subrange(0, 0).contains(fp)) by {
            assert(l[j] <= p);
        }
    }
    assert forall|q: int, fp: u64| 0 <= q < p + 1 && #[trigger] gf[q].contains(fp) implies m.contains_key(fp)
        && m[fp]@.contains(q as u32) by {
        if q == p {
            assert(gf[p].subrange(0, gf[p].len() as int).contains(fp));
        }
    }
    assert forall|fp: u64| 0 <= 0 && gf[p + 1].subrange(0, 0).contains(fp) implies #[trigger] m.contains_key(fp)
        && m[fp]@.contains((p + 1) as u32) by {
        assert(gf[p + 1].subrange(0, 0).len() == 0);
    }
}

/// The inverted index of a group: fingerprint -> ascending positions of
/// the members holding it.
pub(crate) fn build_postings(functions: &[FunctionUnit], ids: &Vec<u32>) -> (m: HashMap<u64, Vec<u32>>)
    requires
        ids@.len() < u32::MAX,
        forall|p: int| 0 <= p < ids@.len() ==> (#[trigger] ids@[p] as int) < functions@.len(),
        forall|p: int|
            0 <= p < ids@.len() ==> strictly_increasing(
                (#[trigger] functions@[ids@[p] as int]).fingerprints@,
            ),
    ensures
        postings_ok(m@, group_fps(functions@, ids@), ids@.len() as int, 0),
{
    let ghost gf = group_fps(functions@, ids@);
    let mut m: HashMap<u64, Vec<u32>> = HashMap::new();
    let mut p: usize = 0;
    while p < ids.len()
        invariant
            p <= ids@.len() < u32::MAX,
            gf == group_fps(functions@, ids@),
            forall|p: int| 0 <= p < ids@.len() ==> (#[trigger] ids@[p] as int) < functions@.len(),
            forall|p: int|
                0 <= p < ids@.len() ==> strictly_increasing(
                    (#[trigger] functions@[ids@[p] as int]).fingerprints@,
                ),
            postings_ok(m@, gf, p as int, 0),
        decreases ids@.len() - p,
    {
        let fps = &functions[ids[p] as usize].fingerprints;
        assert(fps@ == gf[p as int]);
        assert(gf[p as int].subrange(0, 0) =~= Seq::<u64>::empty());
        let mut k: usize = 0;
        while k < fps.len()
            invariant
                p < ids@.len() < u32::MAX,
                k <= fps@.len(),
                fps@ == gf[p as int],
                strictly_increasing(fps@),
                postings_ok(m@, gf, p as int, k as int),
            decreases fps@.len() - k,
        {
            let fp = fps[k];
            let ghost before = m@;
            let mut list = match m.remove(&fp) {
                Some(l) => l,
                None => Vec::new(),
            };
            proof {
                assert(!gf[p as int].subrange(0, k as int).contains(fp)) by {
                    if gf[p as int].subrange(0, k as int).contains(fp) {
                        let t = choose|t: int| 0 <= t < k && gf[p as int].subrange(0, k as int)[t] == fp;
                        assert(fps@[t] < fps@[k as int]);
                    }
                }
                if before.contains_key(fp) {
                    assert(list@ == before[fp]@);
                    assert forall|j: int| 0 <= j < list@.len() implies list@[j] < p by {
                        assert(gf[list@[j] as int].contains(fp));
                    }
                } else {
                    assert(list@.len() == 0);
                }
            }
            let ghost old_list = list@;
            let ghost removed = m@;
            list.push(p as u32);
            m.insert(fp, list);
            proof {
                assert(removed == before.remove(fp));
                assert(m@ == removed.insert(fp, list));
                let nk = gf[p as int].subrange(0, k + 1);
                assert(nk =~= gf[p as int].subrange(0, k as int).push(fp));
                assert(nk.contains(fp)) by {
                    assert(nk[k as int] == fp);
                }
                assert forall|x: u64| #[trigger] m@.contains_key(x) implies list_ok(
                    m@[x]@,
                    gf,
                    p as int,
                    k + 1,
                    x,
                ) by {
                    if x != fp {
                        assert(m@[x] == before[x]);
                        assert(list_ok(before[x]@, gf, p as int, k as int, x));
                        assert forall|j: int| 0 <= j < m@[x]@.len() && #[trigger] m@[x]@[j] == p implies nk.contains(x) by {
                            let t = choose|t: int| 0 <= t < k && gf[p as int].subrange(0, k as int)[t] == x;
                            assert(nk[t] == x);
                        }
                    } else {
                        assert(m@[x]@ == old_list.push(p as u32));
                        assert forall|i: int, j: int| 0 <= i < j < m@[x]@.len() implies m@[x]@[i] < m@[x]@[j] by {
                            if j == m@[x]@.len() - 1 {
                                assert(m@[x]@[i] == old_list[i]);
                                assert(old_list[i] < p);
                            } else {
                                assert(before.contains_key(fp));
                                assert(list_ok(before[fp]@, gf, p as int, k as int, fp));
                                assert(old_list == before[fp]@);
                            }
                        }
                        assert forall|j: int| 0 <= j < m@[x]@.len() implies #[trigger] m@[x]@[j] <= p && gf[m@[x]@[j] as int].contains(x)
                            && (m@[x]@[j] == p ==> nk.contains(x)) by {
                            if j < m@[x]@.len() - 1 {
                                assert(before.contains_key(fp));
                                assert(m@[x]@[j] == old_list[j]);
                                assert(list_ok(before[fp]@, gf, p as int, k as int, fp));
                            } else {
                                assert(fps@[k as int] == fp);
                            }
                        }
                    }
                }
                assert forall|q: int, x: u64|
                    0 <= q < p && #[trigger] gf[q].contains(x) implies m@.contains_key(x)
                    && m@[x]@.contains(q as u32) by {
                    assert(before.contains_key(x) && before[x]@.contains(q as u32));
                    if x == fp {
                        let t = choose|t: int| 0 <= t < before[x]@.len() && before[x]@[t] == q as u32;
                        assert(m@[x]@[t] == q as u32);
                    } else {
                        assert(m@[x] == before[x]);
                    }
                }
                assert forall|x: u64| 0 <= k + 1 && nk.contains(x) implies #[trigger] m@.contains_key(x)
                    && m@[x]@.contains(p as u32) by {
                    if x == fp {
                        assert(m@[x]@[m@[x]@.len() - 1] == p as u32);
                    } else {
                        let t = choose|t: int| 0 <= t < k + 1 && nk[t] == x;
                        assert(t < k);
                        assert(gf[p as int].subrange(0, k as int)[t] == x);
                        assert(gf[p as int].subrange(0, k as int).contains(x));
                        assert(before.contains_key(x));
                        assert(m@[x] == before[x]);
                    }
                }
            }
            k = k + 1;
        }
        proof {
            lemma_postings_advance(m@, gf, p as int);
        }
        p = p + 1;
    }
    m
}

/// The two fingerprint lists have an element in common.
pub open spec fn shares(a: Seq<u64>, b: Seq<u64>) -> bool {
    exists|x: u64| a.contains(x) && b.contains(x)
}

pub(crate) proof fn lemma_shares_iff_shared_count(a: Seq<u64>, b: Seq<u64>)
    ensures
        shares(a, b) <==> shared_count(a, b) >= 1,
{
    broadcast use vstd::seq_lib::seq_to_set_is_finite;
    let i = a.to_set().intersect(b.to_set());
    vstd::set_lib::lemma_len_intersect(a.to_set(), b.to_set());
    if shares(a, b) {
        let x = choose|x: u64| a.contains(x) && b.contains(x);
        assert(i.contains(x));
        if i.len() == 0 {
            i.lemma_len0_is_empty();
        }
    }
    if shared_count(a, b) >= 1 {
        if !shares(a, b) {
            assert(i =~= Set::empty());
        }
    }
}

/// Positions after `p` whose fingerprints share at least one with `p`'s,
/// each once.
fn candidates_after(
    functions: &[FunctionUnit],
    ids: &Vec<u32>,
    postings: &HashMap<u64, Vec<u32>>,
    p: usize,
) -> (c: Vec<u32>)
    requires
        p < ids@.len() < u32::MAX,
        forall|q: int| 0 <= q < ids@.len() ==> (#[trigger] ids@[q] as int) < functions@.len(),
        postings_ok(postings@, group_fps(functions@, ids@), ids@.len() as int, 0),
    ensures
        forall|i: int, j: int| 0 <= i < j < c@.len() ==> c@[i] != c@[j],
        forall|i: int|
            0 <= i < c@.len() ==> p < #[trigger] c@[i] < ids@.len() && shares(
                group_fps(functions@, ids@)[p as int],
                group_fps(functions@, ids@)[c@[i] as int],
            ),
        forall|q: int|
            p < q < ids@.len() && shares(
                group_fps(functions@, ids@)[p as int],
                #[trigger] group_fps(functions@, ids@)[q],
            ) ==> c@.contains(q as u32),
{
    let ghost gf = group_fps(functions@, ids@);
    let n = ids.len();
    let fps = &functions[ids[p] as usize].fingerprints;
    assert(fps@ == gf[p as int]);
    let mut c: Vec<u32> = Vec::new();
    let mut seen: HashSet<u32> = HashSet::new();
    let mut k: usize = 0;
    while k < fps.len()
        invariant
            p < n == ids@.len() < u32::MAX,
            gf == group_fps(functions@, ids@),
            fps@ == gf[p as int],
            k <= fps@.len(),
            postings_ok(postings@, gf, n as int, 0),
            forall|x: u32| seen@.contains(x) <==> c@.contains(x),
            forall|i: int, j: int| 0 <= i < j < c@.len() ==> c@[i] != c@[j],
            forall|i: int|
                0 <= i < c@.len() ==> p < #[trigger] c@[i] < n && shares(gf[p as int], gf[c@[i] as int]),
            forall|q: int, x: u64|
                p < q < n && fps@.subrange(0, k as int).contains(x) && #[trigger] gf[q].contains(x)
                    ==> c@.contains(q as u32),
        decreases fps@.len() - k,
    {
        let fp = fps[k];
        proof {
            assert(fps@.contains(fp));
            assert(gf[p as int].contains(fp));
            assert(postings@.contains_key(fp));
        }
        let list = match postings.get(&fp) {
            Some(l) => l,
            None => {
                return c;
            },
        };
        proof {
            assert(list@ == postings@[fp]@);
            assert(list_ok(list@, gf, n as int, 0, fp));
        }
        let start = first_after(list, p as u32);
        let mut j = start;
        while j < list.len()
            invariant
                p < n == ids@.len() < u32::MAX,
                gf == group_fps(functions@, ids@),
                fps@ == gf[p as int],
                k < fps@.len(),
                fp == fps@[k as int],
                list_ok(list@, gf, n as int, 0, fp),
                start <= j <= list@.len(),
                forall|t: int| start <= t < list@.len() ==> list@[t] > p,
                forall|x: u32| seen@.contains(x) <==> c@.contains(x),
                forall|i: int, j: int| 0 <= i < j < c@.len() ==> c@[i] != c@[j],
                forall|i: int|
                    0 <= i < c@.len() ==> p < #[trigger] c@[i] < n && shares(gf[p as int], gf[c@[i] as int]),
                forall|q: int, x: u64|
                    p < q < n && fps@.subrange(0, k as int).contains(x) && #[trigger] gf[q].contains(x)
                        ==> c@.contains(q as u32),
                forall|t: int| start <= t < j ==> c@.contains(#[trigger] list@[t]),
            decreases list@.len() - j,
        {
            let q = list[j];
            proof {
                assert(list@[j as int] == q);
                assert(gf[q as int].contains(fp));
                assert(q < n) by {
                    if q == n {
                        assert(gf[n as int].subrange(0, 0).len() == 0);
                    }
                }
                assert(shares(gf[p as int], gf[q as int])) by {
                    assert(gf[p as int].contains(fp));
                }
            }
            let ghost old_c = c@;
            if !seen.contains(&q) {
                seen.insert(q);
                c.push(q);
                proof {
                    assert forall|x: u32| old_c.contains(x) implies c@.contains(x) by {
                        let t = choose|t: int| 0 <= t < old_c.len() && old_c[t] == x;
                        assert(c@[t] == x);
                    }
                    assert(c@[c@.len() - 1] == q);
                    assert forall|x: u32| seen@.contains(x) <==> c@.contains(x) by {
                        if c@.contains(x) && x != q {
                            let t = choose|t: int| 0 <= t < c@.len() && c@[t] == x;
                            assert(old_c[t] == x);
                        }
                    }
                }
            }
            proof {
                assert(c@.contains(q));
                assert forall|t: int| start <= t < j + 1 implies c@.contains(#[trigger] list@[t]) by {
                    if t < j {
                        assert(old_c.contains(list@[t]));
                        let u = choose|u: int| 0 <= u < old_c.len() && old_c[u] == list@[t];
                        assert(c@[u] == list@[t]);
                    }
                }
            }
            j = j + 1;
        }
        proof {
            assert forall|q: int, x: u64|
                p < q < n && fps@.subrange(0, k + 1).contains(x) && #[trigger] gf[q].contains(x)
                    implies c@.contains(q as u32) by {
                let sub = fps@.subrange(0, k + 1);
                let t = choose|t: int| 0 <= t < sub.len() && sub[t] == x;
                if t < k {
                    assert(fps@.subrange(0, k as int)[t] == x);
                    assert(fps@.subrange(0, k as int).contains(x));
                } else {
                    assert(x == fp);
                    assert(postings@[fp]@.contains(q as u32));
                    let u = choose|u: int| 0 <= u < list@.len() && list@[u] == q as u32;
                    assert(u >= start) by {
                        if u < start {
                            assert(list@[u] <= p);
                        }
                    }
                    assert(c@.contains(list@[u]));
                }
            }
        }
        k = k + 1;
    }
    proof {
        assert(fps@.subrange(0, fps@.len() as int) =~= fps@);
        assert forall|q: int|
            p < q < n && shares(gf[p as int], #[trigger] gf[q]) implies c@.contains(q as u32) by {
            let x = choose|x: u64| gf[p as int].contains(x) && gf[q].contains(x);
            assert(fps@.subrange(0, fps@.len() as int).contains(x));
        }
    }
    c
}

/// Two fingerprint sets are duplicates: they share at least one and at
/// least `min_shared` fingerprints, and their Jaccard similarity
/// (shared / union) reaches `t` millionths.
pub open spec fn pair_ok(fa: Seq<u64>, fb: Seq<u64>, t: u32, min_shared: u32) -> bool {
    let c = shared_count(fa, fb);
    &&& c >= 1
    &&& c >= min_shared
    &&& meets_ppm(c as int, fa.len() + fb.len() - c, t)
}

/// The shared count and the union size of two sorted fingerprint lists.
pub(crate) fn overlap(fa: &Vec<u64>, fb: &Vec<u64>) -> (r: (u128, u128))
    requires
        strictly_increasing(fa@),
        strictly_increasing(fb@),
    ensures
        r.0 == shared_count(fa@, fb@),
        r.1 == fa@.len() + fb@.len() - shared_count(fa@, fb@),
        r.0 <= fa@.len(),
        r.0 <= fb@.len(),
        r.0 <= 0x1_0000_0000_0000_0000_0000u128,
        r.1 <= 0x1_0000_0000_0000_0000_0000u128,
{
    let c = intersection_size(fa.as_slice(), fb.as_slice());
    let u = (fa.len() as u128) + (fb.len() as u128) - (c as u128);
    (c as u128, u)
}

/// The position groups of a language: indices into `functions`, ascending.
pub open spec fn group_ok(functions: Seq<FunctionUnit>, ids: Seq<u32>) -> bool {
    &&& ids.len() < u32::MAX
    &&& increasing_u32(ids)
    &&& forall|p: int| 0 <= p < ids.len() ==> (#[trigger] ids[p] as int) < functions.len()
    &&& forall|p: int|
        0 <= p < ids.len() ==> strictly_increasing((#[trigger] functions[ids[p] as int]).fingerprints@)
}

/// Every pair of group members that are duplicates, as (earlier, later).
fn pairs_within(functions: &[FunctionUnit], ids: &Vec<u32>, threshold: u32, min_shared: u32) -> (out: Vec<Pair>)
    requires
        group_ok(functions@, ids@),
    ensures
        forall|k: int|
            0 <= k < out@.len() ==> {
                let pr = #[trigger] out@[k];
                &&& pr.a < pr.b
                &&& ids@.contains(pr.a)
                &&& ids@.contains(pr.b)
                &&& pair_ok(
                    functions@[pr.a as int].fingerprints@,
                    functions@[pr.b as int].fingerprints@,
                    threshold,
                    min_shared,
                )
            },
        forall|p: int, q: int|
            0 <= p < q < ids@.len() && pair_ok(
                #[trigger] functions@[ids@[p] as int].fingerprints@,
                #[trigger] functions@[ids@[q] as int].fingerprints@,
                threshold,
                min_shared,
            ) ==> out@.contains(Pair { a: ids@[p], b: ids@[q] }),
        out@.no_duplicates(),
{
    let ghost gf = group_fps(functions@, ids@);
    let postings = build_postings(functions, ids);
    let n = ids.len();
    let mut out: Vec<Pair> = Vec::new();
    let mut p: usize = 0;
    while p < n
        invariant
            n == ids@.len(),
            p <= n,
            group_ok(functions@, ids@),
            gf == group_fps(functions@, ids@),
            postings_ok(postings@, gf, n as int, 0),
            forall|k: int|
                0 <= k < out@.len() ==> {
                    let pr = #[trigger] out@[k];
                    &&& pr.a < pr.b
                    &&& ids@.contains(pr.a)
                    &&& ids@.contains(pr.b)
                    &&& pair_ok(
                        functions@[pr.a as int].fingerprints@,
                        functions@[pr.b as int].fingerprints@,
                        threshold,
                        min_shared,
                    )
                },
            forall|p2: int, q: int|
                0 <= p2 < p && p2 < q < n && pair_ok(
                    #[trigger] functions@[ids@[p2] as int].fingerprints@,
                    #[trigger] functions@[ids@[q] as int].fingerprints@,
                    threshold,
                    min_shared,
                ) ==> out@.contains(Pair { a: ids@[p2], b: ids@[q] }),
            out@.no_duplicates(),
            p < n ==> forall|k: int| 0 <= k < out@.len() ==> (#[trigger] out@[k]).a < ids@[p as int],
        decreases n - p,
    {
        let cands = candidates_after(functions, ids, &postings, p);
        let ghost base = out@.len();
        let fa = &functions[ids[p] as usize].fingerprints;
        let mut i: usize = 0;
        while i < cands.len()
            invariant
                n == ids@.len(),
                p < n,
                group_ok(functions@, ids@),
                gf == group_fps(functions@, ids@),
                fa@ == gf[p as int],
                i <= cands@.len(),
                forall|j: int| 0 <= j < cands@.len() ==> p < #[trigger] cands@[j] < n,
                forall|k: int|
                    0 <= k < out@.len() ==> {
                        let pr = #[trigger] out@[k];
                        &&& pr.a < pr.b
                        &&& ids@.contains(pr.a)
                        &&& ids@.contains(pr.b)
                        &&& pair_ok(
                            functions@[pr.a as int].fingerprints@,
                            functions@[pr.b as int].fingerprints@,
                            threshold,
                            min_shared,
                        )
                    },
                forall|p2: int, q: int|
                    0 <= p2 < p && p2 < q < n && pair_ok(
                        #[trigger] functions@[ids@[p2] as int].fingerprints@,
                        #[trigger] functions@[ids@[q] as int].fingerprints@,
                        threshold,
                        min_shared,
                    ) ==> out@.contains(Pair { a: ids@[p2], b: ids@[q] }),
                forall|j: int|
                    0 <= j < i && pair_ok(gf[p as int], gf[#[trigger] cands@[j] as int], threshold, min_shared)
                        ==> out@.contains(Pair { a: ids@[p as int], b: ids@[cands@[j] as int] }),
                forall|a: int, b: int| 0 <= a < b < cands@.len() ==> cands@[a] != cands@[b],
                out@.no_duplicates(),
                base <= out@.len(),
                forall|k: int| 0 <= k < base ==> (#[trigger] out@[k]).a < ids@[p as int],
                forall|k: int|
                    base <= k < out@.len() ==> (#[trigger] out@[k]).a == ids@[p as int] && exists|j: int|
                        0 <= j < i && out@[k].b == ids@[#[trigger] cands@[j] as int],
            decreases cands@.len() - i,
        {
            let q = cands[i] as usize;
            let fb = &functions[ids[q] as usize].fingerprints;
            proof {
                assert(fb@ == gf[q as int]);
                assert(ids@[p as int] < ids@[q as int]);
                assert(ids@.contains(ids@[p as int]));
                assert(ids@.contains(ids@[q as int]));
            }
            let (c, u) = overlap(fa, fb);
            let ghost old_out = out@;
            if c >= 1 && c >= min_shared as u128 && meets_threshold(c, u, threshold) {
                proof {
                    let np = Pair { a: ids@[p as int], b: ids@[q as int] };
                    assert forall|k: int| 0 <= k < old_out.len() implies old_out[k] != np by {
                        if k >= base {
                            let j = choose|j: int| 0 <= j < i && old_out[k].b == ids@[#[trigger] cands@[j] as int];
                            assert(cands@[j] != cands@[i as int]);
                            if cands@[j] < cands@[i as int] {
                                assert(ids@[cands@[j] as int] < ids@[cands@[i as int] as int]);
                            } else {
                                assert(ids@[cands@[i as int] as int] < ids@[cands@[j] as int]);
                            }
                        }
                    }
                }
                out.push(Pair { a: ids[p], b: ids[q] });
            }
            proof {
                assert forall|k: int| base <= k < out@.len() implies (#[trigger] out@[k]).a == ids@[p as int] && exists|j: int|
                    0 <= j < i + 1 && out@[k].b == ids@[#[trigger] cands@[j] as int] by {
                    if k < old_out.len() {
                        assert(out@[k] == old_out[k]);
                        let j = choose|j: int| 0 <= j < i && old_out[k].b == ids@[#[trigger] cands@[j] as int];
                        assert(0 <= j < i + 1 && out@[k].b == ids@[cands@[j] as int]);
                    } else {
                        assert(out@[k].b == ids@[cands@[i as int] as int]);
                    }
                }
                assert forall|x: Pair| old_out.contains(x) implies out@.contains(x) by {
                    let t = choose|t: int| 0 <= t < old_out.len() && old_out[t] == x;
                    assert(out@[t] == x);
                }
                assert forall|k: int| 0 <= k < out@.len() implies {
                    let pr = #[trigger] out@[k];
                    &&& pr.a < pr.b
                    &&& ids@.contains(pr.a)
                    &&& ids@.contains(pr.b)
                    &&& pair_ok(
                        functions@[pr.a as int].fingerprints@,
                        functions@[pr.b as int].fingerprints@,
                        threshold,
                        min_shared,
                    )
                } by {
                    if k < old_out.len() {
                        assert(out@[k] == old_out[k]);
                    }
                }
                if pair_ok(gf[p as int], gf[q as int], threshold, min_shared) {
                    assert(out@[out@.len() - 1] == Pair { a: ids@[p as int], b: ids@[q as int] });
                }
            }
            i = i + 1;
        }
        proof {
            if p + 1 < n {
                assert forall|k: int| 0 <= k < out@.len() implies (#[trigger] out@[k]).a < ids@[p + 1] by {
                    assert(ids@[p as int] < ids@[p + 1]);
                }
            }
            assert forall|p2: int, q: int|
                0 <= p2 < p + 1 && p2 < q < n && pair_ok(
                    #[trigger] functions@[ids@[p2] as int].fingerprints@,
                    #[trigger] functions@[ids@[q] as int].fingerprints@,
                    threshold,
                    min_shared,
                ) implies out@.contains(Pair { a: ids@[p2], b: ids@[q] }) by {
                if p2 == p {
                    assert(gf[p as int] == functions@[ids@[p2] as int].fingerprints@);
                    assert(gf[q] == functions@[ids@[q] as int].fingerprints@);
                    lemma_shares_iff_shared_count(gf[p as int], gf[q]);
                    assert(cands@.contains(q as u32));
                    let j = choose|j: int| 0 <= j < cands@.len() && cands@[j] == q as u32;
                    assert(pair_ok(gf[p as int], gf[cands@[j] as int], threshold, min_shared));
                }
            }
        }
        p = p + 1;
    }
    out
}

/// How many of the fingerprint lists `gf` hold `fp`.
pub open spec fn count_holding(gf: Seq<Seq<u64>>, fp: u64) -> nat
    decreases gf.len(),
{
    if gf.len() == 0 {
        0
    } else {
        count_holding(gf.drop_last(), fp) + if gf.last().contains(fp) {
            1nat
        } else {
            0nat
        }
    }
}

/// Fingerprints shared by more than this many functions of one language
/// are idiom, not duplication (think `if err != nil` ladders). The cap
/// scales with the number of functions but never drops below 100.
pub open spec fn cull_cap_of(n: nat) -> nat {
    if n / 200 > 100 {
        n / 200
    } else {
        100
    }
}

fn cull_cap(function_count: usize) -> (cap: usize)
    ensures
        cap == cull_cap_of(function_count as nat),
{
    let c = function_count / 200;
    if c > 100 {
        c
    } else {
        100
    }
}

/// `fp` is held by no more functions of the group than the cap allows.
pub open spec fn survives(gf: Seq<Seq<u64>>, fp: u64) -> bool {
    count_holding(gf, fp) <= cull_cap_of(gf.len())
}

/// The fields other than the fingerprints agree.
pub open spec fn same_header(a: FunctionUnit, b: FunctionUnit) -> bool {
    &&& a.file == b.file
    &&& a.lang == b.lang
    &&& a.name@ == b.name@
    &&& a.start_line == b.start_line
    &&& a.end_line == b.end_line
    &&& a.start_byte == b.start_byte
    &&& a.end_byte == b.end_byte
    &&& a.sig_lines == b.sig_lines
    &&& a.is_test == b.is_test
    &&& a.is_trait_impl_method == b.is_trait_impl_method
}

proof fn lemma_count_holding_bound(gf: Seq<Seq<u64>>, fp: u64)
    ensures
        count_holding(gf, fp) <= gf.len(),
    decreases gf.len(),
{
    if gf.len() > 0 {
        lemma_count_holding_bound(gf.drop_last(), fp);
    }
}

pub proof fn lemma_filter_increasing(s: Seq<u64>, f: spec_fn(u64) -> bool)
    requires
        strictly_increasing(s),
    ensures
        strictly_increasing(s.filter(f)),
        forall|x: u64| s.filter(f).contains(x) <==> s.contains(x) && f(x),
    decreases s.len(),
{
    reveal(Seq::filter);
    if s.len() > 0 {
        let d = s.drop_last();
        assert(strictly_increasing(d));
        lemma_filter_increasing(d, f);
        let fd = d.filter(f);
        assert forall|x: u64| s.contains(x) <==> d.contains(x) || x == s.last() by {
            if s.contains(x) && x != s.last() {
                let t = choose|t: int| 0 <= t < s.len() && s[t] == x;
                assert(d[t] == x);
            }
            if d.contains(x) {
                let t = choose|t: int| 0 <= t < d.len() && d[t] == x;
                assert(s[t] == x);
            }
            if x == s.last() {
                assert(s[s.len() - 1] == x);
            }
        }
        if f(s.last()) {
            assert forall|t: int| 0 <= t < fd.len() implies fd[t] < s.last() by {
                assert(fd.contains(fd[t]));
                assert(d.contains(fd[t]));
                let u = choose|u: int| 0 <= u < d.len() && d[u] == fd[t];
                assert(s[u] == fd[t]);
            }
            let r = fd.push(s.last());
            assert forall|x: u64| r.contains(x) <==> fd.contains(x) || x == s.last() by {
                if r.contains(x) && x != s.last() {
                    let t = choose|t: int| 0 <= t < r.len() && r[t] == x;
                    assert(fd[t] == x);
                }
                if fd.contains(x) {
                    let t = choose|t: int| 0 <= t < fd.len() && fd[t] == x;
                    assert(r[t] == x);
                }
                if x == s.last() {
                    assert(r[r.len() - 1] == x);
                }
            }
        }
    }
}

/// The map's count for `fp`, zero when absent.
pub open spec fn count_in(m: Map<u64, u32>, fp: u64) -> nat {
    if m.contains_key(fp) {
        m[fp] as nat
    } else {
        0
    }
}

/// How many members of the group hold each fingerprint.
fn holder_counts(functions: &[FunctionUnit], ids: &Vec<u32>) -> (m: HashMap<u64, u32>)
    requires
        group_ok(functions@, ids@),
    ensures
        forall|fp: u64| #[trigger] count_in(m@, fp) == count_holding(group_fps(functions@, ids@), fp),
{
    let ghost gf = group_fps(functions@, ids@);
    let mut m: HashMap<u64, u32> = HashMap::new();
    let mut p: usize = 0;
    assert(gf.subrange(0, 0) =~= Seq::<Seq<u64>>::empty());
    while p < ids.len()
        invariant
            p <= ids@.len(),
            group_ok(functions@, ids@),
            gf == group_fps(functions@, ids@),
            forall|fp: u64| #[trigger] count_in(m@, fp) == count_holding(gf.subrange(0, p as int), fp),
        decreases ids@.len() - p,
    {
        let fps = &functions[ids[p] as usize].fingerprints;
        assert(fps@ == gf[p as int]);
        let mut k: usize = 0;
        while k < fps.len()
            invariant
                p < ids@.len() < u32::MAX,
                gf.len() == ids@.len(),
                k <= fps@.len(),
                fps@ == gf[p as int],
                strictly_increasing(fps@),
                forall|fp: u64|
                    #[trigger] count_in(m@, fp) == count_holding(gf.subrange(0, p as int), fp) + if fps@.subrange(
                        0,
                        k as int,
                    ).contains(fp) {
                        1nat
                    } else {
                        0nat
                    },
            decreases fps@.len() - k,
        {
            let fp = fps[k];
            proof {
                lemma_count_holding_bound(gf.subrange(0, p as int), fp);
                assert(!fps@.subrange(0, k as int).contains(fp)) by {
                    if fps@.subrange(0, k as int).contains(fp) {
                        let t = choose|t: int| 0 <= t < k && fps@.subrange(0, k as int)[t] == fp;
                        assert(fps@[t] < fps@[k as int]);
                    }
                }
                assert(count_in(m@, fp) == count_holding(gf.subrange(0, p as int), fp));
            }
            let old = match m.get(&fp) {
                Some(c) => *c,
                None => 0,
            };
            let ghost before = m@;
            assert(old == count_in(m@, fp));
            m.insert(fp, old + 1);
            proof {
                let nk = fps@.subrange(0, k + 1);
                assert(nk =~= fps@.subrange(0, k as int).push(fp));
                assert forall|x: u64| #[trigger] count_in(m@, x) == count_holding(gf.subrange(0, p as int), x) + if nk.contains(x) {
                    1nat
                } else {
                    0nat
                } by {
                    if x == fp {
                        assert(nk[k as int] == fp);
                    } else {
                        assert(count_in(before, x) == count_in(m@, x));
                        assert(nk.contains(x) == fps@.subrange(0, k as int).contains(x)) by {
                            if nk.contains(x) {
                                let t = choose|t: int| 0 <= t < nk.len() && nk[t] == x;
                                assert(fps@.subrange(0, k as int)[t] == x);
                            }
                            if fps@.subrange(0, k as int).contains(x) {
                                let t = choose|t: int| 0 <= t < k && fps@.subrange(0, k as int)[t] == x;
                                assert(nk[t] == x);
                            }
                        }
                    }
                }
            }
            k = k + 1;
        }
        proof {
            assert(fps@.subrange(0, fps@.len() as int) =~= fps@);
            let np = gf.subrange(0, p + 1);
            assert(np.drop_last() =~= gf.subrange(0, p as int));
            assert(np.last() == gf[p as int]);
            assert forall|fp: u64| #[trigger] count_in(m@, fp) == count_holding(np, fp) by {
                assert(count_in(m@, fp) == count_holding(gf.subrange(0, p as int), fp) + if fps@.subrange(
                    0,
                    fps@.len() as int,
                ).contains(fp) {
                    1nat
                } else {
                    0nat
                });
            }
        }
        p = p + 1;
    }
    assert(gf.subrange(0, ids@.len() as int) =~= gf);
    m
}

/// The fingerprints of `fps` that survive the cull of group `gf`, in order.
fn surviving(fps: &Vec<u64>, counts: &HashMap<u64, u32>, cap: usize, gf: Ghost<Seq<Seq<u64>>>) -> (out: Vec<u64>)
    requires
        cap == cull_cap_of(gf@.len()),
        forall|fp: u64| #[trigger] count_in(counts@, fp) == count_holding(gf@, fp),
    ensures
        out@ == fps@.filter(|fp: u64| survives(gf@, fp)),
{
    let ghost f = |fp: u64| survives(gf@, fp);
    let mut out: Vec<u64> = Vec::new();
    let mut k: usize = 0;
    assert(fps@.subrange(0, 0) =~= Seq::<u64>::empty());
    proof {
        reveal(Seq::filter);
    }
    while k < fps.len()
        invariant
            k <= fps@.len(),
            cap == cull_cap_of(gf@.len()),
            forall|fp: u64| #[trigger] count_in(counts@, fp) == count_holding(gf@, fp),
            f == (|fp: u64| survives(gf@, fp)),
            out@ == fps@.subrange(0, k as int).filter(f),
        decreases fps@.len() - k,
    {
        let fp = fps[k];
        let n: u32 = match counts.get(&fp) {
            Some(c) => *c,
            None => 0,
        };
        assert(n == count_in(counts@, fp));
        proof {
            fps@.subrange(0, k as int).lemma_filter_push(fp, f);
            assert(fps@.subrange(0, k + 1) =~= fps@.subrange(0, k as int).push(fp));
        }
        if (n as usize) <= cap {
            out.push(fp);
        }
        k = k + 1;
    }
    assert(fps@.subrange(0, fps@.len() as int) =~= fps@);
    out
}

/// Drops from every member of the group the fingerprints held by more
/// members than the cap allows.
fn cull(functions: &mut [FunctionUnit], ids: &Vec<u32>)
    requires
        group_ok(old(functions)@, ids@),
    ensures
        final(functions)@.len() == old(functions)@.len(),
        forall|i: int|
            0 <= i < old(functions)@.len() ==> same_header(
                #[trigger] final(functions)@[i],
                old(functions)@[i],
            ),
        forall|i: int|
            0 <= i < old(functions)@.len() && !ids@.contains(i as u32) ==> (
            #[trigger] final(functions)@[i]).fingerprints@ == old(functions)@[i].fingerprints@,
        forall|p: int|
            0 <= p < ids@.len() ==> (#[trigger] final(functions)@[ids@[p] as int]).fingerprints@
                == old(functions)@[ids@[p] as int].fingerprints@.filter(
                |fp: u64| survives(group_fps(old(functions)@, ids@), fp),
            ),
{
    let ghost gf = group_fps(functions@, ids@);
    let ghost start = functions@;
    let cap = cull_cap(ids.len());
    let counts = holder_counts(functions, ids);
    let mut p: usize = 0;
    while p < ids.len()
        invariant
            p <= ids@.len(),
            group_ok(start, ids@),
            gf == group_fps(start, ids@),
            cap == cull_cap_of(gf.len()),
            forall|fp: u64| #[trigger] count_in(counts@, fp) == count_holding(gf, fp),
            functions@.len() == start.len(),
            forall|i: int| 0 <= i < start.len() ==> same_header(#[trigger] functions@[i], start[i]),
            forall|i: int|
                0 <= i < start.len() && !ids@.subrange(0, p as int).contains(i as u32)
                    ==> (#[trigger] functions@[i]).fingerprints@ == start[i].fingerprints@,
            forall|q: int|
                0 <= q < p ==> (#[trigger] functions@[ids@[q] as int]).fingerprints@
                    == start[ids@[q] as int].fingerprints@.filter(|fp: u64| survives(gf, fp)),
        decreases ids@.len() - p,
    {
        let id = ids[p] as usize;
        proof {
            assert(ids@.contains(id as u32) && !ids@.subrange(0, p as int).contains(id as u32)) by {
                assert(ids@[p as int] == id);
                if ids@.subrange(0, p as int).contains(id as u32) {
                    let t = choose|t: int| 0 <= t < p && ids@.subrange(0, p as int)[t] == id as u32;
                    assert(ids@[t] < ids@[p as int]);
                }
            }
            assert(functions@[id as int].fingerprints@ == gf[p as int]);
        }
        let kept = surviving(&functions[id].fingerprints, &counts, cap, Ghost(gf));
        let ghost before = functions@;
        functions[id].fingerprints = kept;
        proof {
            assert(functions@[id as int].fingerprints@ == kept@);
            assert forall|i: int| 0 <= i < start.len() && i != id implies #[trigger] functions@[i] == before[i] by {}
            let np = ids@.subrange(0, p + 1);
            assert(np =~= ids@.subrange(0, p as int).push(id as u32));
            assert forall|i: int|
                0 <= i < start.len() && !np.contains(i as u32) implies (
                #[trigger] functions@[i]).fingerprints@ == start[i].fingerprints@ by {
                assert(np[p as int] == id as u32);
                assert(i != id);
                assert(functions@[i] == before[i]);
                if ids@.subrange(0, p as int).contains(i as u32) {
                    let t = choose|t: int| 0 <= t < p && ids@.subrange(0, p as int)[t] == i as u32;
                    assert(np[t] == i as u32);
                }
            }
            assert forall|q: int| 0 <= q < p + 1 implies (#[trigger] functions@[ids@[q] as int]).fingerprints@
                == start[ids@[q] as int].fingerprints@.filter(|fp: u64| survives(gf, fp)) by {
                if q < p {
                    assert(ids@[q] < ids@[p as int]);
                    assert(functions@[ids@[q] as int] == before[ids@[q] as int]);
                }
            }
        }
        p = p + 1;
    }
    assert(ids@.subrange(0, ids@.len() as int) =~= ids@);
}

/// Positions of the functions written in `lang`, ascending.
pub open spec fn lang_ids(fs: Seq<FunctionUnit>, lang: Lang) -> Seq<u32>
    decreases fs.len(),
{
    if fs.len() == 0 {
        Seq::empty()
    } else {
        let rest = lang_ids(fs.drop_last(), lang);
        if fs.last().lang == lang {
            rest.push((fs.len() - 1) as u32)
        } else {
            rest
        }
    }
}

proof fn lemma_lang_ids(fs: Seq<FunctionUnit>, lang: Lang)
    requires
        fs.len() < u32::MAX,
    ensures
        increasing_u32(lang_ids(fs, lang)),
        lang_ids(fs, lang).len() <= fs.len(),
        forall|j: int|
            0 <= j < lang_ids(fs, lang).len() ==> (#[trigger] lang_ids(fs, lang)[j] as int) < fs.len()
                && fs[lang_ids(fs, lang)[j] as int].lang == lang,
        forall|i: int|
            0 <= i < fs.len() && (#[trigger] fs[i]).lang == lang ==> lang_ids(fs, lang).contains(
                i as u32,
            ),
    decreases fs.len(),
{
    if fs.len() > 0 {
        let d = fs.drop_last();
        lemma_lang_ids(d, lang);
        let r = lang_ids(d, lang);
        assert forall|i: int| 0 <= i < fs.len() && (#[trigger] fs[i]).lang == lang implies lang_ids(
            fs,
            lang,
        ).contains(i as u32) by {
            if i < fs.len() - 1 {
                assert(d[i] == fs[i]);
                let t = choose|t: int| 0 <= t < r.len() && r[t] == i as u32;
                if fs.last().lang == lang {
                    assert(lang_ids(fs, lang)[t] == i as u32);
                }
            } else {
                assert(lang_ids(fs, lang)[r.len() as int] == i as u32);
            }
        }
    }
}

proof fn lemma_lang_ids_same(fs: Seq<FunctionUnit>, gs: Seq<FunctionUnit>, lang: Lang)
    requires
        fs.len() == gs.len(),
        forall|i: int| 0 <= i < fs.len() ==> (#[trigger] fs[i]).lang == gs[i].lang,
    ensures
        lang_ids(fs, lang) == lang_ids(gs, lang),
    decreases fs.len(),
{
    if fs.len() > 0 {
        lemma_lang_ids_same(fs.drop_last(), gs.drop_last(), lang);
        assert(fs.last().lang == gs.last().lang);
    }
}

/// The fingerprints function `i` keeps once its language group is culled.
pub open spec fn culled_fps(fs: Seq<FunctionUnit>, i: int) -> Seq<u64> {
    fs[i].fingerprints@.filter(
        |fp: u64| survives(group_fps(fs, lang_ids(fs, fs[i].lang)), fp),
    )
}

/// The positions of the functions written in `lang`.
fn ids_of(functions: &[FunctionUnit], lang: Lang) -> (ids: Vec<u32>)
    requires
        functions@.len() < u32::MAX,
    ensures
        ids@ == lang_ids(functions@, lang),
{
    let mut ids: Vec<u32> = Vec::new();
    let mut i: usize = 0;
    assert(functions@.subrange(0, 0) =~= Seq::<FunctionUnit>::empty());
    while i < functions.len()
        invariant
            i <= functions@.len() < u32::MAX,
            ids@ == lang_ids(functions@.subrange(0, i as int), lang),
        decreases functions@.len() - i,
    {
        let ghost prev = functions@.subrange(0, i as int);
        let ghost next = functions@.subrange(0, i + 1);
        assert(next.drop_last() =~= prev);
        assert(next.last() == functions@[i as int]);
        if functions[i].lang == lang {
            ids.push(i as u32);
        }
        i = i + 1;
    }
    assert(functions@.subrange(0, functions@.len() as int) =~= functions@);
    ids
}

/// The languages of the functions, each once, in order of first appearance.
fn languages_of(functions: &[FunctionUnit]) -> (langs: Vec<Lang>)
    ensures
        langs@.no_duplicates(),
        forall|i: int| 0 <= i < functions@.len() ==> langs@.contains(#[trigger] functions@[i].lang),
{
    let mut langs: Vec<Lang> = Vec::new();
    let mut i: usize = 0;
    while i < functions.len()
        invariant
            i <= functions@.len(),
            langs@.no_duplicates(),
            forall|j: int| 0 <= j < i ==> langs@.contains(#[trigger] functions@[j].lang),
        decreases functions@.len() - i,
    {
        let lang = functions[i].lang;
        let mut found = false;
        let mut j: usize = 0;
        while j < langs.len()
            invariant
                j <= langs@.len(),
                found <==> langs@.subrange(0, j as int).contains(lang),
            decreases langs@.len() - j,
        {
            proof {
                let a = langs@.subrange(0, j as int);
                let b = langs@.subrange(0, j + 1);
                assert(b =~= a.push(langs@[j as int]));
                assert(b.contains(lang) <==> a.contains(lang) || langs@[j as int] == lang) by {
                    if b.contains(lang) && langs@[j as int] != lang {
                        let t = choose|t: int| 0 <= t < b.len() && b[t] == lang;
                        assert(a[t] == lang);
                    }
                    if a.contains(lang) {
                        let t = choose|t: int| 0 <= t < a.len() && a[t] == lang;
                        assert(b[t] == lang);
                    }
                    if langs@[j as int] == lang {
                        assert(b[j as int] == lang);
                    }
                }
            }
            if langs[j] == lang {
                found = true;
            }
            j = j + 1;
        }
        assert(langs@.subrange(0, langs@.len() as int) =~= langs@);
        let ghost before = langs@;
        if !found {
            langs.push(lang);
            proof {
                assert(langs@[langs@.len() - 1] == lang);
                assert forall|x: Lang| before.contains(x) implies langs@.contains(x) by {
                    let t = choose|t: int| 0 <= t < before.len() && before[t] == x;
                    assert(langs@[t] == x);
                }
            }
        }
        i = i + 1;
    }
    langs
}

/// The pairs found so far are duplicates of one language already handled,
/// earlier function first.
pub open spec fn pairs_sound(
    out: Seq<Pair>,
    fs: Seq<FunctionUnit>,
    start: Seq<FunctionUnit>,
    done: Seq<Lang>,
    threshold: u32,
    min_shared: u32,
) -> bool {
    forall|k: int|
        0 <= k < out.len() ==> {
            let pr = #[trigger] out[k];
            &&& pr.a < pr.b < fs.len()
            &&& start[pr.a as int].lang == start[pr.b as int].lang
            &&& done.contains(start[pr.a as int].lang)
            &&& pair_ok(fs[pr.a as int].fingerprints@, fs[pr.b as int].fingerprints@, threshold, min_shared)
        }
}

/// Every duplicate pair of a language already handled has been found.
pub open spec fn pairs_complete(
    out: Seq<Pair>,
    fs: Seq<FunctionUnit>,
    start: Seq<FunctionUnit>,
    done: Seq<Lang>,
    threshold: u32,
    min_shared: u32,
) -> bool {
    forall|a: int, b: int|
        0 <= a < b < fs.len() && start[a].lang == start[b].lang && done.contains(start[a].lang)
            && pair_ok(
            #[trigger] fs[a].fingerprints@,
            #[trigger] fs[b].fingerprints@,
            threshold,
            min_shared,
        ) ==> out.contains(Pair { a: a as u32, b: b as u32 })
}

/// Find all pairs of functions of the same language whose Jaccard
/// similarity reaches `threshold_ppm` millionths and which share at least
/// `min_shared` fingerprints. Before pairing, each language group is culled:
/// fingerprints held by more of its functions than the cap allows are
/// removed from every function of the group, so downstream similarity
/// math stays consistent.
pub fn find_pairs(functions: &mut [FunctionUnit], threshold_ppm: u32, min_shared: u32) -> (out: Vec<Pair>)
    requires
        old(functions)@.len() < u32::MAX,
        forall|i: int|
            0 <= i < old(functions)@.len() ==> strictly_increasing(
                (#[trigger] old(functions)@[i]).fingerprints@,
            ),
    ensures
        final(functions)@.len() == old(functions)@.len(),
        forall|i: int|
            0 <= i < old(functions)@.len() ==> same_header(
                #[trigger] final(functions)@[i],
                old(functions)@[i],
            ),
        forall|i: int|
            0 <= i < old(functions)@.len() ==> (#[trigger] final(functions)@[i]).fingerprints@
                == culled_fps(old(functions)@, i),
        forall|k: int|
            0 <= k < out@.len() ==> {
                let pr = #[trigger] out@[k];
                &&& pr.a < pr.b < final(functions)@.len()
                &&& final(functions)@[pr.a as int].lang == final(functions)@[pr.b as int].lang
                &&& pair_ok(
                    final(functions)@[pr.a as int].fingerprints@,
                    final(functions)@[pr.b as int].fingerprints@,
                    threshold_ppm,
                    min_shared,
                )
            },
        forall|a: int, b: int|
            0 <= a < b < final(functions)@.len()
                && final(functions)@[a].lang == final(functions)@[b].lang && pair_ok(
                #[trigger] final(functions)@[a].fingerprints@,
                #[trigger] final(functions)@[b].fingerprints@,
                threshold_ppm,
                min_shared,
            ) ==> out@.contains(Pair { a: a as u32, b: b as u32 }),
        out@.no_duplicates(),
{
    let ghost start = functions@;
    let langs = languages_of(functions);
    let mut out: Vec<Pair> = Vec::new();
    let mut li: usize = 0;
    while li < langs.len()
        invariant
            li <= langs@.len(),
            start.len() < u32::MAX,
            langs@.no_duplicates(),
            forall|i: int| 0 <= i < start.len() ==> langs@.contains(#[trigger] start[i].lang),
            functions@.len() == start.len(),
            forall|i: int| 0 <= i < start.len() ==> same_header(#[trigger] functions@[i], start[i]),
            forall|i: int|
                0 <= i < start.len() ==> strictly_increasing((#[trigger] functions@[i]).fingerprints@),
            forall|i: int|
                0 <= i < start.len() ==> (#[trigger] functions@[i]).fingerprints@ == if langs@.subrange(
                    0,
                    li as int,
                ).contains(start[i].lang) {
                    culled_fps(start, i)
                } else {
                    start[i].fingerprints@
                },
            pairs_sound(out@, functions@, start, langs@.subrange(0, li as int), threshold_ppm, min_shared),
            pairs_complete(out@, functions@, start, langs@.subrange(0, li as int), threshold_ppm, min_shared),
            out@.no_duplicates(),
        decreases langs@.len() - li,
    {
        let lang = langs[li];
        let ids = ids_of(functions, lang);
        proof {
            lemma_lang_ids_same(functions@, start, lang);
            lemma_lang_ids(start, lang);
        }
        let ghost before = functions@;
        let ghost done = langs@.subrange(0, li as int);
        let ghost done2 = langs@.subrange(0, li + 1);
        proof {
            assert(done2 =~= done.push(lang));
            assert(!done.contains(lang)) by {
                if done.contains(lang) {
                    let t = choose|t: int| 0 <= t < done.len() && done[t] == lang;
                    assert(langs@[t] == langs@[li as int]);
                }
            }
            assert forall|x: Lang| #[trigger] done2.contains(x) <==> done.contains(x) || x == lang by {
                if done2.contains(x) && x != lang {
                    let t = choose|t: int| 0 <= t < done2.len() && done2[t] == x;
                    assert(done[t] == x);
                }
                if done.contains(x) {
                    let t = choose|t: int| 0 <= t < done.len() && done[t] == x;
                    assert(done2[t] == x);
                }
                if x == lang {
                    assert(done2[li as int] == x);
                }
            }
            assert forall|p: int| 0 <= p < ids@.len() implies #[trigger] before[ids@[p] as int].fingerprints@
                == start[ids@[p] as int].fingerprints@ by {
                assert(start[ids@[p] as int].lang == lang);
            }
            assert(group_fps(before, ids@) =~= group_fps(start, ids@));
        }
        cull(functions, &ids);
        proof {
            assert forall|i: int| 0 <= i < start.len() implies strictly_increasing(
                (#[trigger] functions@[i]).fingerprints@,
            ) by {
                if ids@.contains(i as u32) {
                    let p = choose|p: int| 0 <= p < ids@.len() && ids@[p] == i as u32;
                    assert(functions@[ids@[p] as int] == functions@[i]);
                    lemma_filter_increasing(
                        before[i].fingerprints@,
                        |fp: u64| survives(group_fps(before, ids@), fp),
                    );
                }
            }
        }
        let mut found = pairs_within(functions, &ids, threshold_ppm, min_shared);
        let ghost old_out = out@;
        let ghost new_pairs = found@;
        out.append(&mut found);
        proof {
            assert forall|x: int, y: int| 0 <= x < out@.len() && 0 <= y < out@.len() && x != y implies out@[x] != out@[y] by {
                if x < old_out.len() && y < old_out.len() {
                    assert(old_out[x] == out@[x] && old_out[y] == out@[y]);
                } else if x >= old_out.len() && y >= old_out.len() {
                    assert(new_pairs[x - old_out.len()] == out@[x]);
                    assert(new_pairs[y - old_out.len()] == out@[y]);
                } else {
                    let (o, nw) = if x < old_out.len() { (x, y) } else { (y, x) };
                    assert(old_out[o] == out@[o]);
                    assert(new_pairs[nw - old_out.len()] == out@[nw]);
                    let pn = new_pairs[nw - old_out.len()];
                    let pa = choose|q: int| 0 <= q < ids@.len() && ids@[q] == pn.a;
                    assert(start[ids@[pa] as int].lang == lang);
                    assert(done.contains(start[old_out[o].a as int].lang));
                }
            }
            assert forall|i: int| 0 <= i < start.len() && start[i].lang != lang implies #[trigger] functions@[i].fingerprints@
                == before[i].fingerprints@ by {
                if ids@.contains(i as u32) {
                    let p = choose|p: int| 0 <= p < ids@.len() && ids@[p] == i as u32;
                }
            }
            assert forall|i: int| 0 <= i < start.len() implies (#[trigger] functions@[i]).fingerprints@ == if done2.contains(start[i].lang) {
                culled_fps(start, i)
            } else {
                start[i].fingerprints@
            } by {
                if start[i].lang == lang {
                    assert(ids@.contains(i as u32));
                    let p = choose|p: int| 0 <= p < ids@.len() && ids@[p] == i as u32;
                    assert(functions@[ids@[p] as int] == functions@[i]);
                }
            }
            assert forall|k: int| 0 <= k < out@.len() implies {
                let pr = #[trigger] out@[k];
                &&& pr.a < pr.b < functions@.len()
                &&& start[pr.a as int].lang == start[pr.b as int].lang
                &&& done2.contains(start[pr.a as int].lang)
                &&& pair_ok(functions@[pr.a as int].fingerprints@, functions@[pr.b as int].fingerprints@, threshold_ppm, min_shared)
            } by {
                let pr = out@[k];
                if k < old_out.len() {
                    assert(old_out[k] == pr);
                    assert(start[pr.a as int].lang != lang);
                } else {
                    assert(new_pairs[k - old_out.len()] == pr);
                    let pa = choose|p: int| 0 <= p < ids@.len() && ids@[p] == pr.a;
                    let pb = choose|p: int| 0 <= p < ids@.len() && ids@[p] == pr.b;
                    assert(start[ids@[pa] as int].lang == lang);
                    assert(start[ids@[pb] as int].lang == lang);
                }
            }
            assert forall|a: int, b: int|
                0 <= a < b < functions@.len() && start[a].lang == start[b].lang && done2.contains(start[a].lang)
                    && pair_ok(
                    #[trigger] functions@[a].fingerprints@,
                    #[trigger] functions@[b].fingerprints@,
                    threshold_ppm,
                    min_shared,
                ) implies out@.contains(Pair { a: a as u32, b: b as u32 }) by {
                if start[a].lang == lang {
                    assert(ids@.contains(a as u32));
                    assert(ids@.contains(b as u32));
                    let p = choose|p: int| 0 <= p < ids@.len() && ids@[p] == a as u32;
                    let q = choose|q: int| 0 <= q < ids@.len() && ids@[q] == b as u32;
                    assert(p < q) by {
                        if q <= p {
                            if q < p {
                                assert(ids@[q] < ids@[p]);
                            }
                        }
                    }
                    assert(new_pairs.contains(Pair { a: ids@[p], b: ids@[q] }));
                    let t = choose|t: int| 0 <= t < new_pairs.len() && new_pairs[t] == Pair { a: a as u32, b: b as u32 };
                    assert(out@[old_out.len() + t] == Pair { a: a as u32, b: b as u32 });
                } else {
                    assert(functions@[a].fingerprints@ == before[a].fingerprints@);
                    assert(functions@[b].fingerprints@ == before[b].fingerprints@);
                    assert(old_out.contains(Pair { a: a as u32, b: b as u32 }));
                    let t = choose|t: int| 0 <= t < old_out.len() && old_out[t] == Pair { a: a as u32, b: b as u32 };
                    assert(out@[t] == Pair { a: a as u32, b: b as u32 });
                }
            }
        }
        li = li + 1;
    }
    proof {
        assert(langs@.subrange(0, langs@.len() as int) =~= langs@);
    }
    out
}

/// A small function whose fingerprints are almost entirely contained in a
/// larger one: the "copied into a bigger function" case Jaccard misses,
/// because the larger body inflates the union while the intersection stays
/// bounded by the small one.
#[derive(Clone, Copy, Debug, PartialEq, Eq, Structural)]
pub struct ContainmentPair {
    pub small: u32,
    pub large: u32,
    /// Fingerprints the two share.
    pub shared: usize,
    /// Fingerprints of the small function; `shared / small_len` is how much
    /// of it the larger one covers.
    pub small_len: usize,
}

/// One function's byte range sits inside the other's within the same file:
/// a nested fn or closure that matches only because its parent encloses it.
pub open spec fn nested(a: FunctionUnit, b: FunctionUnit) -> bool {
    let inside = |inner: FunctionUnit, outer: FunctionUnit|
        inner.file == outer.file && outer.start_byte <= inner.start_byte && inner.end_byte
            <= outer.end_byte;
    inside(a, b) || inside(b, a)
}

fn lexically_nested(a: &FunctionUnit, b: &FunctionUnit) -> (r: bool)
    ensures
        r == nested(*a, *b),
{
    (a.file == b.file && b.start_byte <= a.start_byte && a.end_byte <= b.end_byte) || (b.file
        == a.file && a.start_byte <= b.start_byte && b.end_byte <= a.end_byte)
}

/// The containment finding for functions `a < b` of `fs`, if they make one:
/// same language, enough shared fingerprints, Jaccard below
/// `jaccard_threshold` (above it the normal scan already reports them), the
/// smaller set covered to at least `containment_threshold`, and not nested.
/// The smaller set (the earlier function on a tie) is the contained one.
pub open spec fn containment_of(
    fs: Seq<FunctionUnit>,
    a: int,
    b: int,
    jaccard_threshold: u32,
    containment_threshold: u32,
    min_shared: u32,
) -> Option<ContainmentPair> {
    let fa = fs[a].fingerprints@;
    let fb = fs[b].fingerprints@;
    let c = shared_count(fa, fb);
    let small_len = if fa.len() <= fb.len() {
        fa.len()
    } else {
        fb.len()
    };
    if fs[a].lang == fs[b].lang && c >= 1 && c >= min_shared && !meets_ppm(
        c as int,
        fa.len() + fb.len() - c,
        jaccard_threshold,
    ) && small_len > 0 && meets_ppm(c as int, small_len as int, containment_threshold) && !nested(
        fs[a],
        fs[b],
    ) {
        Some(
            ContainmentPair {
                small: if fa.len() <= fb.len() {
                    a as u32
                } else {
                    b as u32
                },
                large: if fa.len() <= fb.len() {
                    b as u32
                } else {
                    a as u32
                },
                shared: c as usize,
                small_len: small_len as usize,
            },
        )
    } else {
        None
    }
}

/// `cp` is the finding of its two functions, taken in order.
pub open spec fn finding_ok(
    fs: Seq<FunctionUnit>,
    cp: ContainmentPair,
    jaccard_threshold: u32,
    containment_threshold: u32,
    min_shared: u32,
) -> bool {
    let (a, b) = if cp.small < cp.large {
        (cp.small as int, cp.large as int)
    } else {
        (cp.large as int, cp.small as int)
    };
    &&& cp.small != cp.large
    &&& cp.small < fs.len()
    &&& cp.large < fs.len()
    &&& containment_of(fs, a, b, jaccard_threshold, containment_threshold, min_shared) == Some(cp)
}

/// The earlier of a finding's two functions.
pub open spec fn lo_of(cp: ContainmentPair) -> u32 {
    if cp.small < cp.large {
        cp.small
    } else {
        cp.large
    }
}

/// The later of a finding's two functions.
pub open spec fn hi_of(cp: ContainmentPair) -> u32 {
    if cp.small < cp.large {
        cp.large
    } else {
        cp.small
    }
}

fn containment_within(
    functions: &[FunctionUnit],
    ids: &Vec<u32>,
    jaccard_threshold: u32,
    containment_threshold: u32,
    min_shared: u32,
) -> (out: Vec<ContainmentPair>)
    requires
        group_ok(functions@, ids@),
        forall|p: int| 0 <= p < ids@.len() ==> #[trigger] functions@[ids@[p] as int].lang == functions@[ids@[0] as int].lang,
    ensures
        forall|k: int|
            0 <= k < out@.len() ==> finding_ok(
                functions@,
                #[trigger] out@[k],
                jaccard_threshold,
                containment_threshold,
                min_shared,
            ),
        forall|p: int, q: int|
            0 <= p < q < ids@.len() && (#[trigger] containment_of(
                functions@,
                ids@[p] as int,
                ids@[q] as int,
                jaccard_threshold,
                containment_threshold,
                min_shared,
            )) is Some ==> out@.contains(
                containment_of(
                    functions@,
                    ids@[p] as int,
                    ids@[q] as int,
                    jaccard_threshold,
                    containment_threshold,
                    min_shared,
                )->0,
            ),
        out@.no_duplicates(),
        forall|k: int| 0 <= k < out@.len() ==> ids@.contains(lo_of(#[trigger] out@[k])),
{
    let ghost gf = group_fps(functions@, ids@);
    let postings = build_postings(functions, ids);
    let n = ids.len();
    let mut out: Vec<ContainmentPair> = Vec::new();
    let mut p: usize = 0;
    while p < n
        invariant
            n == ids@.len(),
            p <= n,
            group_ok(functions@, ids@),
            forall|p: int| 0 <= p < ids@.len() ==> #[trigger] functions@[ids@[p] as int].lang == functions@[ids@[0] as int].lang,
            gf == group_fps(functions@, ids@),
            postings_ok(postings@, gf, n as int, 0),
            forall|k: int|
                0 <= k < out@.len() ==> finding_ok(
                    functions@,
                    #[trigger] out@[k],
                    jaccard_threshold,
                    containment_threshold,
                    min_shared,
                ),
            forall|p2: int, q: int|
                0 <= p2 < p && p2 < q < n && (#[trigger] containment_of(
                    functions@,
                    ids@[p2] as int,
                    ids@[q] as int,
                    jaccard_threshold,
                    containment_threshold,
                    min_shared,
                )) is Some ==> out@.contains(
                    containment_of(
                        functions@,
                        ids@[p2] as int,
                        ids@[q] as int,
                        jaccard_threshold,
                        containment_threshold,
                        min_shared,
                    )->0,
                ),
            out@.no_duplicates(),
            forall|k: int| 0 <= k < out@.len() ==> ids@.contains(lo_of(#[trigger] out@[k])),
            p < n ==> forall|k: int| 0 <= k < out@.len() ==> lo_of(#[trigger] out@[k]) < ids@[p as int],
        decreases n - p,
    {
        let ghost base = out@.len();
        let cands = candidates_after(functions, ids, &postings, p);
        let a = ids[p] as usize;
        let fa = &functions[a].fingerprints;
        let mut i: usize = 0;
        while i < cands.len()
            invariant
                n == ids@.len(),
                p < n,
                a == ids@[p as int],
                group_ok(functions@, ids@),
                forall|p: int| 0 <= p < ids@.len() ==> #[trigger] functions@[ids@[p] as int].lang == functions@[ids@[0] as int].lang,
                gf == group_fps(functions@, ids@),
                fa@ == gf[p as int],
                i <= cands@.len(),
                forall|j: int| 0 <= j < cands@.len() ==> p < #[trigger] cands@[j] < n,
                forall|k: int|
                    0 <= k < out@.len() ==> finding_ok(
                        functions@,
                        #[trigger] out@[k],
                        jaccard_threshold,
                        containment_threshold,
                        min_shared,
                    ),
                forall|p2: int, q: int|
                    0 <= p2 < p && p2 < q < n && (#[trigger] containment_of(
                        functions@,
                        ids@[p2] as int,
                        ids@[q] as int,
                        jaccard_threshold,
                        containment_threshold,
                        min_shared,
                    )) is Some ==> out@.contains(
                        containment_of(
                            functions@,
                            ids@[p2] as int,
                            ids@[q] as int,
                            jaccard_threshold,
                            containment_threshold,
                            min_shared,
                        )->0,
                    ),
                forall|j: int|
                    0 <= j < i && (#[trigger] containment_of(
                        functions@,
                        a as int,
                        ids@[cands@[j] as int] as int,
                        jaccard_threshold,
                        containment_threshold,
                        min_shared,
                    )) is Some ==> out@.contains(
                        containment_of(
                            functions@,
                            a as int,
                            ids@[cands@[j] as int] as int,
                            jaccard_threshold,
                            containment_threshold,
                            min_shared,
                        )->0,
                    ),
                forall|x: int, y: int| 0 <= x < y < cands@.len() ==> cands@[x] != cands@[y],
                out@.no_duplicates(),
                forall|k: int| 0 <= k < out@.len() ==> ids@.contains(lo_of(#[trigger] out@[k])),
                base <= out@.len(),
                forall|k: int| 0 <= k < base ==> lo_of(#[trigger] out@[k]) < ids@[p as int],
                forall|k: int|
                    base <= k < out@.len() ==> lo_of(#[trigger] out@[k]) == ids@[p as int] && exists|j: int|
                        0 <= j < i && hi_of(out@[k]) == ids@[#[trigger] cands@[j] as int],
            decreases cands@.len() - i,
        {
            let q = cands[i] as usize;
            let b = ids[q] as usize;
            let fb = &functions[b].fingerprints;
            proof {
                assert(fb@ == gf[q as int]);
                assert(ids@[p as int] < ids@[q as int]);
                assert(functions@[a as int].lang == functions@[b as int].lang) by {
                    assert(functions@[ids@[p as int] as int].lang == functions@[ids@[0] as int].lang);
                    assert(functions@[ids@[q as int] as int].lang == functions@[ids@[0] as int].lang);
                }
            }
            let (c, u) = overlap(fa, fb);
            let la = fa.len();
            let lb = fb.len();
            let small_len = if la <= lb {
                la
            } else {
                lb
            };
            let ghost old_out = out@;
            let ghost expect = containment_of(
                functions@,
                a as int,
                b as int,
                jaccard_threshold,
                containment_threshold,
                min_shared,
            );
            if c >= 1 && c >= min_shared as u128 && !meets_threshold(c, u, jaccard_threshold) && small_len
                > 0 && meets_threshold(c, small_len as u128, containment_threshold)
                && !lexically_nested(&functions[a], &functions[b]) {
                let (small, large) = if la <= lb {
                    (a as u32, b as u32)
                } else {
                    (b as u32, a as u32)
                };
                let cp = ContainmentPair { small, large, shared: c as usize, small_len };
                assert(expect == Some(cp));
                proof {
                    assert(lo_of(cp) == a && hi_of(cp) == b);
                    assert(ids@.contains(ids@[p as int]));
                    assert forall|k: int| 0 <= k < old_out.len() implies old_out[k] != cp by {
                        if k >= base {
                            let j = choose|j: int| 0 <= j < i && hi_of(old_out[k]) == ids@[#[trigger] cands@[j] as int];
                            assert(cands@[j] != cands@[i as int]);
                            if cands@[j] < cands@[i as int] {
                                assert(ids@[cands@[j] as int] < ids@[cands@[i as int] as int]);
                            } else {
                                assert(ids@[cands@[i as int] as int] < ids@[cands@[j] as int]);
                            }
                        }
                    }
                }
                out.push(cp);
            } else {
                assert(expect is None);
            }
            proof {
                assert forall|x: ContainmentPair| old_out.contains(x) implies out@.contains(x) by {
                    let t = choose|t: int| 0 <= t < old_out.len() && old_out[t] == x;
                    assert(out@[t] == x);
                }
                assert forall|k: int| 0 <= k < out@.len() implies finding_ok(
                    functions@,
                    #[trigger] out@[k],
                    jaccard_threshold,
                    containment_threshold,
                    min_shared,
                ) by {
                    if k < old_out.len() {
                        assert(out@[k] == old_out[k]);
                    }
                }
                if expect is Some {
                    assert(out@[out@.len() - 1] == expect->0);
                }
                assert forall|k: int| 0 <= k < out@.len() implies ids@.contains(lo_of(#[trigger] out@[k])) by {
                    if k < old_out.len() {
                        assert(out@[k] == old_out[k]);
                    }
                }
                assert forall|k: int| 0 <= k < base implies lo_of(#[trigger] out@[k]) < ids@[p as int] by {
                    assert(out@[k] == old_out[k]);
                }
                assert forall|k: int| base <= k < out@.len() implies lo_of(#[trigger] out@[k]) == ids@[p as int]
                    && exists|j: int| 0 <= j < i + 1 && hi_of(out@[k]) == ids@[#[trigger] cands@[j] as int] by {
                    if k < old_out.len() {
                        assert(out@[k] == old_out[k]);
                        let j = choose|j: int| 0 <= j < i && hi_of(old_out[k]) == ids@[#[trigger] cands@[j] as int];
                        assert(0 <= j < i + 1 && hi_of(out@[k]) == ids@[cands@[j] as int]);
                    } else {
                        assert(hi_of(out@[k]) == ids@[cands@[i as int] as int]);
                    }
                }
            }
            i = i + 1;
        }
        proof {
            if p + 1 < n {
                assert forall|k: int| 0 <= k < out@.len() implies lo_of(#[trigger] out@[k]) < ids@[p + 1] by {
                    assert(ids@[p as int] < ids@[p + 1]);
                }
            }
            assert forall|p2: int, q: int|
                0 <= p2 < p + 1 && p2 < q < n && (#[trigger] containment_of(
                    functions@,
                    ids@[p2] as int,
                    ids@[q] as int,
                    jaccard_threshold,
                    containment_threshold,
                    min_shared,
                )) is Some implies out@.contains(
                    containment_of(
                        functions@,
                        ids@[p2] as int,
                        ids@[q] as int,
                        jaccard_threshold,
                        containment_threshold,
                        min_shared,
                    )->0,
                ) by {
                if p2 == p {
                    assert(gf[p as int] == functions@[ids@[p2] as int].fingerprints@);
                    assert(gf[q] == functions@[ids@[q] as int].fingerprints@);
                    lemma_shares_iff_shared_count(gf[p as int], gf[q]);
                    assert(cands@.contains(q as u32));
                    let j = choose|j: int| 0 <= j < cands@.len() && cands@[j] == q as u32;
                    assert(containment_of(
                        functions@,
                        a as int,
                        ids@[cands@[j] as int] as int,
                        jaccard_threshold,
                        containment_threshold,
                        min_shared,
                    ) is Some);
                }
            }
        }
        p = p + 1;
    }
    out
}

/// Find containment pairs the normal (Jaccard) scan misses: the smaller
/// function is at least `containment_threshold_ppm` millionths covered by
/// the larger one, yet their Jaccard stays below `jaccard_threshold_ppm`.
/// Runs on the fingerprints as they stand, so it belongs after
/// `find_pairs`. Pairs where one function is lexically nested inside the
/// other are dropped: that overlap is structural, not a copy.
pub fn find_containment(
    functions: &[FunctionUnit],
    jaccard_threshold_ppm: u32,
    containment_threshold_ppm: u32,
    min_shared: u32,
) -> (out: Vec<ContainmentPair>)
    requires
        functions@.len() < u32::MAX,
        forall|i: int|
            0 <= i < functions@.len() ==> strictly_increasing((#[trigger] functions@[i]).fingerprints@),
    ensures
        forall|k: int|
            0 <= k < out@.len() ==> finding_ok(
                functions@,
                #[trigger] out@[k],
                jaccard_threshold_ppm,
                containment_threshold_ppm,
                min_shared,
            ),
        forall|a: int, b: int|
            0 <= a < b < functions@.len() && (#[trigger] containment_of(
                functions@,
                a,
                b,
                jaccard_threshold_ppm,
                containment_threshold_ppm,
                min_shared,
            )) is Some ==> out@.contains(
                containment_of(
                    functions@,
                    a,
                    b,
                    jaccard_threshold_ppm,
                    containment_threshold_ppm,
                    min_shared,
                )->0,
            ),
        out@.no_duplicates(),
{
    let langs = languages_of(functions);
    let mut out: Vec<ContainmentPair> = Vec::new();
    let mut li: usize = 0;
    while li < langs.len()
        invariant
            li <= langs@.len(),
            functions@.len() < u32::MAX,
            forall|i: int|
                0 <= i < functions@.len() ==> strictly_increasing((#[trigger] functions@[i]).fingerprints@),
            forall|k: int|
                0 <= k < out@.len() ==> finding_ok(
                    functions@,
                    #[trigger] out@[k],
                    jaccard_threshold_ppm,
                    containment_threshold_ppm,
                    min_shared,
                ),
            forall|a: int, b: int|
                0 <= a < b < functions@.len() && langs@.subrange(0, li as int).contains(
                    functions@[a].lang,
                ) && (#[trigger] containment_of(
                    functions@,
                    a,
                    b,
                    jaccard_threshold_ppm,
                    containment_threshold_ppm,
                    min_shared,
                )) is Some ==> out@.contains(
                    containment_of(
                        functions@,
                        a,
                        b,
                        jaccard_threshold_ppm,
                        containment_threshold_ppm,
                        min_shared,
                    )->0,
                ),
            langs@.no_duplicates(),
            out@.no_duplicates(),
            forall|k: int|
                0 <= k < out@.len() ==> lo_of(#[trigger] out@[k]) < functions@.len() && langs@.subrange(
                    0,
                    li as int,
                ).contains(functions@[lo_of(out@[k]) as int].lang),
        decreases langs@.len() - li,
    {
        let lang = langs[li];
        let ids = ids_of(functions, lang);
        proof {
            lemma_lang_ids(functions@, lang);
        }
        let mut found = containment_within(
            functions,
            &ids,
            jaccard_threshold_ppm,
            containment_threshold_ppm,
            min_shared,
        );
        let ghost old_out = out@;
        let ghost new_found = found@;
        out.append(&mut found);
        proof {
            let done2 = langs@.subrange(0, li + 1);
            let done = langs@.subrange(0, li as int);
            assert(done2 =~= done.push(lang));
            assert(!done.contains(lang)) by {
                if done.contains(lang) {
                    let t = choose|t: int| 0 <= t < done.len() && done[t] == lang;
                    assert(langs@[t] == langs@[li as int]);
                }
            }
            assert forall|k: int| 0 <= k < new_found.len() implies lo_of(#[trigger] new_found[k]) < functions@.len()
                && functions@[lo_of(new_found[k]) as int].lang == lang by {
                let t = choose|t: int| 0 <= t < ids@.len() && ids@[t] == lo_of(new_found[k]);
                assert(lang_ids(functions@, lang)[t] == lo_of(new_found[k]));
            }
            assert forall|k: int| 0 <= k < out@.len() implies lo_of(#[trigger] out@[k]) < functions@.len()
                && done2.contains(functions@[lo_of(out@[k]) as int].lang) by {
                if k < old_out.len() {
                    assert(out@[k] == old_out[k]);
                    let x = functions@[lo_of(out@[k]) as int].lang;
                    let t = choose|t: int| 0 <= t < done.len() && done[t] == x;
                    assert(done2[t] == x);
                } else {
                    assert(out@[k] == new_found[k - old_out.len()]);
                    assert(done2[li as int] == lang);
                }
            }
            assert forall|x: int, y: int| 0 <= x < y < out@.len() implies out@[x] != out@[y] by {
                if y < old_out.len() {
                    assert(out@[x] == old_out[x] && out@[y] == old_out[y]);
                } else if x >= old_out.len() {
                    assert(out@[x] == new_found[x - old_out.len()] && out@[y] == new_found[y - old_out.len()]);
                } else {
                    assert(out@[x] == old_out[x]);
                    assert(out@[y] == new_found[y - old_out.len()]);
                    assert(functions@[lo_of(out@[y]) as int].lang == lang);
                    if out@[x] == out@[y] {
                        assert(done.contains(functions@[lo_of(old_out[x]) as int].lang));
                    }
                }
            }
            assert forall|k: int| 0 <= k < out@.len() implies finding_ok(
                functions@,
                #[trigger] out@[k],
                jaccard_threshold_ppm,
                containment_threshold_ppm,
                min_shared,
            ) by {
                if k < old_out.len() {
                    assert(out@[k] == old_out[k]);
                } else {
                    assert(out@[k] == new_found[k - old_out.len()]);
                }
            }
            assert forall|a: int, b: int|
                0 <= a < b < functions@.len() && done2.contains(functions@[a].lang) && (
                #[trigger] containment_of(
                    functions@,
                    a,
                    b,
                    jaccard_threshold_ppm,
                    containment_threshold_ppm,
                    min_shared,
                )) is Some implies out@.contains(
                containment_of(
                    functions@,
                    a,
                    b,
                    jaccard_threshold_ppm,
                    containment_threshold_ppm,
                    min_shared,
                )->0,
            ) by {
                let x = containment_of(
                    functions@,
                    a,
                    b,
                    jaccard_threshold_ppm,
                    containment_threshold_ppm,
                    min_shared,
                )->0;
                if functions@[a].lang == lang {
                    assert(ids@.contains(a as u32));
                    assert(ids@.contains(b as u32));
                    let p = choose|p: int| 0 <= p < ids@.len() && ids@[p] == a as u32;
                    let q = choose|q: int| 0 <= q < ids@.len() && ids@[q] == b as u32;
                    assert(p < q) by {
                        if q < p {
                            assert(ids@[q] < ids@[p]);
                        }
                    }
                    assert(new_found.contains(x));
                    let t = choose|t: int| 0 <= t < new_found.len() && new_found[t] == x;
                    assert(out@[old_out.len() + t] == x);
                } else {
                    assert(done.contains(functions@[a].lang)) by {
                        let t = choose|t: int| 0 <= t < done2.len() && done2[t] == functions@[a].lang;
                        assert(done[t] == functions@[a].lang);
                    }
                    let t = choose|t: int| 0 <= t < old_out.len() && old_out[t] == x;
                    assert(out@[t] == x);
                }
            }
        }
        li = li + 1;
    }
    proof {
        assert(langs@.subrange(0, langs@.len() as int) =~= langs@);
    }
    out
}

proof fn lemma_shared_count_symmetric(a: Seq<u64>, b: Seq<u64>)
    ensures
        shared_count(a, b) == shared_count(b, a),
{
    assert(a.to_set().intersect(b.to_set()) =~= b.to_set().intersect(a.to_set()));
}

/// Whether two functions duplicate each other does not depend on which
/// comes first.
pub proof fn lemma_pair_ok_symmetric(fa: Seq<u64>, fb: Seq<u64>, t: u32, min_shared: u32)
    ensures
        pair_ok(fa, fb, t, min_shared) == pair_ok(fb, fa, t, min_shared),
{
    lemma_shared_count_symmetric(fa, fb);
}

/// A containment finding is never a duplicate pair at the same Jaccard
/// bar: it reports only what the normal scan misses.
pub proof fn lemma_containment_is_not_a_pair(
    fs: Seq<FunctionUnit>,
    a: int,
    b: int,
    jaccard_threshold: u32,
    containment_threshold: u32,
    min_shared: u32,
)
    requires
        containment_of(fs, a, b, jaccard_threshold, containment_threshold, min_shared) is Some,
    ensures
        !pair_ok(fs[a].fingerprints@, fs[b].fingerprints@, jaccard_threshold, min_shared),
{
}

} // verus!