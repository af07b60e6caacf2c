//! Duplicate clusters: the connected groups of functions that the
//! duplicate pairs link, each with its representative (the largest copy,
//! kept) and the lines the other copies make deletable.

use vstd::prelude::*;
use crate::check::{max_fps, shared_of, union_of};
use crate::extract::FunctionUnit;
use crate::fingerprint::strictly_increasing;
use crate::index::{increasing_u32, overlap, Pair};

verus! {

/// Pair `k` links functions `a` and `b`, in either order.
pub open spec fn links(pairs: Seq<Pair>, k: int, a: int, b: int) -> bool {
    (pairs[k].a == a && pairs[k].b == b) || (pairs[k].a == b && pairs[k].b == a)
}

pub open spec fn linked(pairs: Seq<Pair>, a: int, b: int) -> bool {
    exists|k: int| 0 <= k < pairs.len() && #[trigger] links(pairs, k, a, b)
}

/// `p` walks from function to function along pairs.
pub open spec fn is_walk(pairs: Seq<Pair>, p: Seq<int>) -> bool {
    &&& p.len() >= 1
    &&& forall|i: int| 0 <= i < p.len() - 1 ==> #[trigger] linked(pairs, p[i], p[i + 1])
}

/// Some walk along the pairs leads from `a` to `b`.
pub open spec fn connected(pairs: Seq<Pair>, a: int, b: int) -> bool {
    exists|p: Seq<int>| #[trigger] is_walk(pairs, p) && p[0] == a && p.last() == b
}

pub proof fn lemma_connected_refl(pairs: Seq<Pair>, a: int)
    ensures
        connected(pairs, a, a),
{
    let p = seq![a];
    assert(is_walk(pairs, p));
}

pub proof fn lemma_connected_link(pairs: Seq<Pair>, k: int)
    requires
        0 <= k < pairs.len(),
    ensures
        connected(pairs, pairs[k].a as int, pairs[k].b as int),
        connected(pairs, pairs[k].b as int, pairs[k].a as int),
{
    let a = pairs[k].a as int;
    let b = pairs[k].b as int;
    let p = seq![a, b];
    assert(links(pairs, k, a, b));
    assert(linked(pairs, p[0], p[1]));
    assert(is_walk(pairs, p));
    let q = seq![b, a];
    assert(links(pairs, k, b, a));
    assert(linked(pairs, q[0], q[1]));
    assert(is_walk(pairs, q));
}

pub proof fn lemma_connected_trans(pairs: Seq<Pair>, a: int, b: int, c: int)
    requires
        connected(pairs, a, b),
        connected(pairs, b, c),
    ensures
        connected(pairs, a, c),
{
    let p = choose|p: Seq<int>| #[trigger] is_walk(pairs, p) && p[0] == a && p.last() == b;
    let q = choose|q: Seq<int>| #[trigger] is_walk(pairs, q) && q[0] == b && q.last() == c;
    let r = p + q.drop_first();
    assert forall|i: int| 0 <= i < r.len() - 1 implies #[trigger] linked(pairs, r[i], r[i + 1]) by {
        if i < p.len() - 1 {
            assert(linked(pairs, p[i], p[i + 1]));
        } else {
            let j = i - (p.len() - 1);
            assert(linked(pairs, q[j], q[j + 1]));
            if j == 0 {
                assert(r[i] == p.last());
            } else {
                assert(r[i] == q[j]);
            }
            assert(r[i + 1] == q[j + 1]);
        }
    }
    assert(is_walk(pairs, r));
    if q.len() == 1 {
        assert(r.last() == p.last());
    } else {
        assert(r.last() == q.last());
    }
}

pub proof fn lemma_connected_sym(pairs: Seq<Pair>, a: int, b: int)
    requires
        connected(pairs, a, b),
    ensures
        connected(pairs, b, a),
{
    let p = choose|p: Seq<int>| #[trigger] is_walk(pairs, p) && p[0] == a && p.last() == b;
    let r = p.reverse();
    assert forall|i: int| 0 <= i < r.len() - 1 implies #[trigger] linked(pairs, r[i], r[i + 1]) by {
        let j = p.len() - 2 - i;
        assert(linked(pairs, p[j], p[j + 1]));
        let k = choose|k: int| 0 <= k < pairs.len() && #[trigger] links(pairs, k, p[j], p[j + 1]);
        assert(links(pairs, k, r[i], r[i + 1]));
    }
    assert(is_walk(pairs, r));
}

/// Every function's label is a function at or before it, reachable from it.
pub open spec fn labels_ok(pairs: Seq<Pair>, labels: Seq<u32>) -> bool {
    forall|i: int|
        0 <= i < labels.len() ==> #[trigger] labels[i] <= i && connected(pairs, i, labels[i] as int)
}

/// The pairs stay within the first `n` functions.
pub open spec fn pairs_within(pairs: Seq<Pair>, n: int) -> bool {
    forall|k: int| 0 <= k < pairs.len() ==> (#[trigger] pairs[k]).a < n && pairs[k].b < n
}

pub open spec fn label_sum(labels: Seq<u32>) -> int
    decreases labels.len(),
{
    if labels.len() == 0 {
        0
    } else {
        label_sum(labels.drop_last()) + labels.last()
    }
}

proof fn lemma_label_sum_update(labels: Seq<u32>, i: int, v: u32)
    requires
        0 <= i < labels.len(),
    ensures
        label_sum(labels.update(i, v)) == label_sum(labels) - labels[i] + v,
    decreases labels.len(),
{
    let u = labels.update(i, v);
    if i < labels.len() - 1 {
        lemma_label_sum_update(labels.drop_last(), i, v);
        assert(u.drop_last() =~= labels.drop_last().update(i, v));
    } else {
        assert(u.drop_last() =~= labels.drop_last());
    }
}

proof fn lemma_label_sum_nonneg(labels: Seq<u32>)
    ensures
        label_sum(labels) >= 0,
    decreases labels.len(),
{
    if labels.len() > 0 {
        lemma_label_sum_nonneg(labels.drop_last());
    }
}

/// One sweep over the pairs, pulling both ends of each to the smaller
/// label. Reports whether anything moved.
fn sweep(pairs: &Vec<Pair>, labels: &mut Vec<u32>) -> (changed: bool)
    requires
        pairs_within(pairs@, old(labels)@.len() as int),
        labels_ok(pairs@, old(labels)@),
    ensures
        final(labels)@.len() == old(labels)@.len(),
        labels_ok(pairs@, final(labels)@),
        changed ==> label_sum(final(labels)@) < label_sum(old(labels)@),
        !changed ==> final(labels)@ == old(labels)@,
        !changed ==> forall|k: int|
            0 <= k < pairs@.len() ==> final(labels)@[(#[trigger] pairs@[k]).a as int] == final(labels)@[pairs@[k].b as int],
{
    let ghost start = labels@;
    let mut changed = false;
    let mut k: usize = 0;
    while k < pairs.len()
        invariant
            k <= pairs@.len(),
            labels@.len() == start.len(),
            pairs_within(pairs@, start.len() as int),
            labels_ok(pairs@, labels@),
            changed ==> label_sum(labels@) < label_sum(start),
            !changed ==> labels@ == start,
            !changed ==> forall|j: int|
                0 <= j < k ==> labels@[(#[trigger] pairs@[j]).a as int] == labels@[pairs@[j].b as int],
        decreases pairs@.len() - k,
    {
        let a = pairs[k].a as usize;
        let b = pairs[k].b as usize;
        let la = labels[a];
        let lb = labels[b];
        if la != lb {
            let m = if la < lb {
                la
            } else {
                lb
            };
            proof {
                lemma_connected_link(pairs@, k as int);
                let ls = labels@;
                assert(connected(pairs@, a as int, la as int));
                assert(connected(pairs@, b as int, lb as int));
                if la < lb {
                    lemma_connected_trans(pairs@, b as int, a as int, la as int);
                } else {
                    lemma_connected_trans(pairs@, a as int, b as int, lb as int);
                }
                lemma_label_sum_update(ls, a as int, m);
                lemma_label_sum_update(ls.update(a as int, m), b as int, m);
            }
            labels.set(a, m);
            labels.set(b, m);
            changed = true;
        }
        k = k + 1;
    }
    changed
}

/// Labels every function with the first function its pairs connect it to.
fn component_labels(pairs: &Vec<Pair>, n: usize) -> (labels: Vec<u32>)
    requires
        n < u32::MAX,
        pairs_within(pairs@, n as int),
    ensures
        labels@.len() == n,
        labels_ok(pairs@, labels@),
        forall|k: int|
            0 <= k < pairs@.len() ==> labels@[(#[trigger] pairs@[k]).a as int] == labels@[pairs@[k].b as int],
{
    let mut labels: Vec<u32> = Vec::new();
    let mut i: usize = 0;
    while i < n
        invariant
            i <= n < u32::MAX,
            labels@.len() == i,
            forall|j: int| 0 <= j < i ==> labels@[j] == j,
        decreases n - i,
    {
        labels.push(i as u32);
        i = i + 1;
    }
    assert forall|j: int| 0 <= j < labels@.len() implies #[trigger] labels@[j] <= j && connected(
        pairs@,
        j,
        labels@[j] as int,
    ) by {
        lemma_connected_refl(pairs@, j);
    }
    loop
        invariant
            labels@.len() == n,
            pairs_within(pairs@, n as int),
            labels_ok(pairs@, labels@),
        ensures
            labels@.len() == n,
            labels_ok(pairs@, labels@),
            forall|k: int|
                0 <= k < pairs@.len() ==> labels@[(#[trigger] pairs@[k]).a as int] == labels@[pairs@[k].b as int],
        decreases label_sum(labels@),
    {
        let ghost before = labels@;
        let changed = sweep(pairs, &mut labels);
        if !changed {
            break;
        }
        proof {
            lemma_label_sum_nonneg(labels@);
        }
    }
    labels
}

/// Labels that agree across every pair.
pub open spec fn labels_closed(pairs: Seq<Pair>, labels: Seq<u32>) -> bool {
    forall|k: int|
        0 <= k < pairs.len() ==> labels[(#[trigger] pairs[k]).a as int] == labels[pairs[k].b as int]
}

proof fn lemma_walk_same_label(pairs: Seq<Pair>, labels: Seq<u32>, p: Seq<int>)
    requires
        pairs_within(pairs, labels.len() as int),
        labels_closed(pairs, labels),
        is_walk(pairs, p),
        0 <= p[0] < labels.len(),
    ensures
        0 <= p.last() < labels.len(),
        labels[p.last()] == labels[p[0]],
    decreases p.len(),
{
    if p.len() > 1 {
        let q = p.drop_last();
        assert forall|i: int| 0 <= i < q.len() - 1 implies #[trigger] linked(pairs, q[i], q[i + 1]) by {
            assert(linked(pairs, p[i], p[i + 1]));
        }
        lemma_walk_same_label(pairs, labels, q);
        let i = p.len() - 2;
        assert(linked(pairs, p[i], p[i + 1]));
        let k = choose|k: int| 0 <= k < pairs.len() && #[trigger] links(pairs, k, p[i], p[i + 1]);
        assert(pairs[k].a < labels.len());
    }
}

/// Two functions get the same label exactly when the pairs connect them.
proof fn lemma_label_iff_connected(pairs: Seq<Pair>, labels: Seq<u32>, a: int, b: int)
    requires
        pairs_within(pairs, labels.len() as int),
        labels_ok(pairs, labels),
        labels_closed(pairs, labels),
        0 <= a < labels.len(),
        0 <= b < labels.len(),
    ensures
        labels[a] == labels[b] <==> connected(pairs, a, b),
{
    if labels[a] == labels[b] {
        let r = labels[a] as int;
        assert(connected(pairs, a, r));
        assert(connected(pairs, b, r));
        lemma_connected_sym(pairs, b, r);
        lemma_connected_trans(pairs, a, r, b);
    }
    if connected(pairs, a, b) {
        let p = choose|p: Seq<int>| #[trigger] is_walk(pairs, p) && p[0] == a && p.last() == b;
        lemma_walk_same_label(pairs, labels, p);
    }
}

/// The functions labelled `r`, ascending.
pub open spec fn group_of(labels: Seq<u32>, r: int) -> Seq<u32>
    decreases labels.len(),
{
    if labels.len() == 0 {
        Seq::empty()
    } else {
        let rest = group_of(labels.drop_last(), r);
        if labels.last() == r {
            rest.push((labels.len() - 1) as u32)
        } else {
            rest
        }
    }
}

proof fn lemma_group_of(labels: Seq<u32>, r: int)
    requires
        labels.len() < u32::MAX,
    ensures
        increasing_u32(group_of(labels, r)),
        group_of(labels, r).len() <= labels.len(),
        forall|j: int|
            0 <= j < group_of(labels, r).len() ==> (#[trigger] group_of(labels, r)[j]) < labels.len()
                && labels[group_of(labels, r)[j] as int] == r,
        forall|x: int|
            0 <= x < labels.len() && labels[x] == r ==> #[trigger] group_of(labels, r).contains(x as u32),
    decreases labels.len(),
{
    if labels.len() > 0 {
        let d = labels.drop_last();
        lemma_group_of(d, r);
        let g = group_of(labels, r);
        let gd = group_of(d, r);
        assert forall|j: int| 0 <= j < g.len() implies (#[trigger] g[j]) < labels.len() && labels[g[j] as int] == r by {
            if j < gd.len() {
                assert(g[j] == gd[j]);
                assert(d[gd[j] as int] == labels[gd[j] as int]);
            }
        }
        assert forall|x: int| 0 <= x < labels.len() && labels[x] == r implies #[trigger] g.contains(x as u32) by {
            if x < labels.len() - 1 {
                assert(d[x] == labels[x]);
                assert(gd.contains(x as u32));
                let t = choose|t: int| 0 <= t < gd.len() && gd[t] == x as u32;
                assert(g[t] == x as u32);
            } else {
                assert(g[g.len() - 1] == x as u32);
            }
        }
    }
}

/// The functions of each label, ascending.
fn groups_of(labels: &Vec<u32>) -> (groups: Vec<Vec<u32>>)
    requires
        labels@.len() < u32::MAX,
        forall|i: int| 0 <= i < labels@.len() ==> (#[trigger] labels@[i]) < labels@.len(),
    ensures
        groups@.len() == labels@.len(),
        forall|r: int| 0 <= r < groups@.len() ==> (#[trigger] groups@[r])@ == group_of(labels@, r),
{
    let n = labels.len();
    let mut groups: Vec<Vec<u32>> = Vec::new();
    let mut r: usize = 0;
    while r < n
        invariant
            r <= n == labels@.len(),
            groups@.len() == r,
            forall|q: int| 0 <= q < r ==> (#[trigger] groups@[q])@ == Seq::<u32>::empty(),
        decreases n - r,
    {
        groups.push(Vec::new());
        r = r + 1;
    }
    assert forall|q: int| 0 <= q < n implies (#[trigger] groups@[q])@ == group_of(labels@.subrange(0, 0), q) by {}
    let mut i: usize = 0;
    while i < n
        invariant
            i <= n == labels@.len() < u32::MAX,
            groups@.len() == n,
            forall|j: int| 0 <= j < labels@.len() ==> (#[trigger] labels@[j]) < labels@.len(),
            forall|q: int| 0 <= q < n ==> (#[trigger] groups@[q])@ == group_of(labels@.subrange(0, i as int), q),
        decreases n - i,
    {
        let l = labels[i] as usize;
        let ghost pre = labels@.subrange(0, i as int);
        let ghost nxt = labels@.subrange(0, i + 1);
        assert(nxt.drop_last() =~= pre);
        let ghost before = groups@;
        groups[l].push(i as u32);
        proof {
            assert forall|q: int| 0 <= q < n implies (#[trigger] groups@[q])@ == group_of(nxt, q) by {
                if q != l {
                    assert(groups@[q] == before[q]);
                }
            }
        }
        i = i + 1;
    }
    assert(labels@.subrange(0, n as int) =~= labels@);
    groups
}

/// A function of a cluster, with how many fingerprints it shares with the
/// representative out of how many in their union.
#[derive(Clone, Copy, Debug, PartialEq, Eq, Structural)]
pub struct Member {
    pub func: u32,
    pub shared: u64,
    pub union: u64,
}

/// Functions that duplicate each other. The first member is the
/// representative, the copy that is kept; the others make
/// `deletable_lines` significant lines deletable.
pub struct Cluster {
    pub members: Vec<Member>,
    pub deletable_lines: u64,
    pub test_only: bool,
    /// Every member is a Rust trait-impl method.
    pub trait_impl_only: bool,
}

/// The members' functions, in order.
pub open spec fn funcs_of(members: Seq<Member>) -> Seq<u32> {
    members.map_values(|m: Member| m.func)
}

/// Significant lines of the functions `g`.
pub open spec fn lines_total(fs: Seq<FunctionUnit>, g: Seq<u32>) -> int
    decreases g.len(),
{
    if g.len() == 0 {
        0
    } else {
        lines_total(fs, g.drop_last()) + fs[g.last() as int].sig_lines
    }
}

/// Every function of `g` is a test.
pub open spec fn all_tests(fs: Seq<FunctionUnit>, g: Seq<u32>) -> bool {
    forall|j: int| 0 <= j < g.len() ==> fs[(#[trigger] g[j]) as int].is_test
}

/// Every function of `g` is a Rust trait-impl method.
pub open spec fn all_trait_impls(fs: Seq<FunctionUnit>, g: Seq<u32>) -> bool {
    forall|j: int| 0 <= j < g.len() ==> fs[(#[trigger] g[j]) as int].is_trait_impl_method
}

/// A cluster read right: the representative is a largest member (the
/// earliest of the largest), the other members follow in ascending order,
/// the deletable lines are theirs, it is test-only when every member is a
/// test and trait-impl-only when every member is a trait-impl method, and each member's overlap is with the representative.
pub open spec fn cluster_ok(fs: Seq<FunctionUnit>, c: Cluster) -> bool {
    let g = funcs_of(c.members@);
    let rep = g[0];
    let rest = g.drop_first();
    &&& g.len() >= 2
    &&& forall|j: int| 0 <= j < g.len() ==> (#[trigger] g[j]) < fs.len()
    &&& increasing_u32(rest)
    &&& forall|j: int|
        0 < j < g.len() ==> fs[rep as int].sig_lines > fs[(#[trigger] g[j]) as int].sig_lines || (
        fs[rep as int].sig_lines == fs[g[j] as int].sig_lines && rep < g[j])
    &&& c.deletable_lines == lines_total(fs, rest)
    &&& c.test_only == all_tests(fs, g)
    &&& c.trait_impl_only == all_trait_impls(fs, g)
    &&& forall|j: int|
        0 <= j < g.len() ==> {
            let m = #[trigger] c.members@[j];
            &&& m.shared == shared_of(fs[rep as int].fingerprints@, fs[m.func as int].fingerprints@)
            &&& m.union == union_of(fs[rep as int].fingerprints@, fs[m.func as int].fingerprints@)
        }
}

/// The functions are fit to cluster: sorted, distinct fingerprints of a
/// possible length.
pub open spec fn units_ok(fs: Seq<FunctionUnit>) -> bool {
    forall|i: int|
        0 <= i < fs.len() ==> strictly_increasing((#[trigger] fs[i]).fingerprints@)
            && fs[i].fingerprints@.len() <= max_fps()
}

proof fn lemma_lines_total_push(fs: Seq<FunctionUnit>, g: Seq<u32>, x: u32)
    ensures
        lines_total(fs, g.push(x)) == lines_total(fs, g) + fs[x as int].sig_lines,
{
    assert(g.push(x).drop_last() =~= g);
}

proof fn lemma_all_tests_push(fs: Seq<FunctionUnit>, s: Seq<u32>, x: u32)
    ensures
        all_tests(fs, s.push(x)) == (all_tests(fs, s) && fs[x as int].is_test),
{
    let nd = s.push(x);
    if all_tests(fs, s) && fs[x as int].is_test {
        assert forall|t: int| 0 <= t < nd.len() implies fs[(#[trigger] nd[t]) as int].is_test by {
            if t < s.len() {
                assert(nd[t] == s[t]);
            }
        }
    }
    if all_tests(fs, nd) {
        assert(fs[nd[s.len() as int] as int].is_test);
        assert forall|t: int| 0 <= t < s.len() implies fs[(#[trigger] s[t]) as int].is_test by {
            assert(nd[t] == s[t]);
        }
    }
}

proof fn lemma_all_trait_impls_push(fs: Seq<FunctionUnit>, s: Seq<u32>, x: u32)
    ensures
        all_trait_impls(fs, s.push(x)) == (all_trait_impls(fs, s) && fs[x as int].is_trait_impl_method),
{
    let nd = s.push(x);
    if all_trait_impls(fs, s) && fs[x as int].is_trait_impl_method {
        assert forall|t: int| 0 <= t < nd.len() implies fs[(#[trigger] nd[t]) as int].is_trait_impl_method by {
            if t < s.len() {
                assert(nd[t] == s[t]);
            }
        }
    }
    if all_trait_impls(fs, nd) {
        assert(fs[nd[s.len() as int] as int].is_trait_impl_method);
        assert forall|t: int| 0 <= t < s.len() implies fs[(#[trigger] s[t]) as int].is_trait_impl_method by {
            assert(nd[t] == s[t]);
        }
    }
}

/// How many of the first `k` functions of the group are not the
/// representative at `best`.
spec fn others_before(k: int, best: int) -> int {
    if k <= best {
        k
    } else {
        k - 1
    }
}

proof fn lemma_cluster_shape(fs: Seq<FunctionUnit>, g: Seq<u32>, best: int, gs: Seq<u32>)
    requires
        g.len() >= 2,
        0 <= best < g.len(),
        increasing_u32(g),
        forall|j: int| 0 <= j < g.len() ==> (#[trigger] g[j]) < fs.len(),
        forall|t: int|
            0 <= t < g.len() ==> fs[g[best] as int].sig_lines > fs[(#[trigger] g[t]) as int].sig_lines || (
            fs[g[best] as int].sig_lines == fs[g[t] as int].sig_lines && best <= t),
        gs == seq![g[best]] + g.remove(best),
    ensures
        gs.len() >= 2,
        gs[0] == g[best],
        gs.drop_first() == g.remove(best),
        forall|j: int| 0 <= j < gs.len() ==> (#[trigger] gs[j]) < fs.len(),
        increasing_u32(gs.drop_first()),
        forall|j: int|
            0 < j < gs.len() ==> fs[gs[0] as int].sig_lines > fs[(#[trigger] gs[j]) as int].sig_lines || (
            fs[gs[0] as int].sig_lines == fs[gs[j] as int].sig_lines && gs[0] < gs[j]),
        all_tests(fs, gs) == (fs[gs[0] as int].is_test && all_tests(fs, g.remove(best))),
        gs.to_set() == g.to_set(),
{
    let rest = g.remove(best);
    let rep = g[best];
    assert(gs.drop_first() =~= rest);
    assert forall|j: int| 0 <= j < gs.len() implies (#[trigger] gs[j]) < fs.len() by {
        if j > 0 {
            assert(gs[j] == rest[j - 1]);
        }
    }
    assert forall|a: int, b: int| 0 <= a < b < rest.len() implies rest[a] < rest[b] by {
        let ia = if a < best { a } else { a + 1 };
        let ib = if b < best { b } else { b + 1 };
        assert(rest[a] == g[ia]);
        assert(rest[b] == g[ib]);
    }
    assert forall|j: int| 0 < j < gs.len() implies fs[rep as int].sig_lines > fs[(#[trigger] gs[j]) as int].sig_lines
        || (fs[rep as int].sig_lines == fs[gs[j] as int].sig_lines && rep < gs[j]) by {
        let t = if j - 1 < best { j - 1 } else { j };
        assert(gs[j] == rest[j - 1]);
        assert(rest[j - 1] == g[t]);
        if t < best {
            assert(g[t] < g[best]);
        } else {
            assert(g[best] < g[t]);
        }
    }
    assert(gs =~= seq![rep].add(rest));
    assert(all_tests(fs, gs) == (fs[rep as int].is_test && all_tests(fs, rest))) by {
        if fs[rep as int].is_test && all_tests(fs, rest) {
            assert forall|t: int| 0 <= t < gs.len() implies fs[(#[trigger] gs[t]) as int].is_test by {
                if t > 0 {
                    assert(gs[t] == rest[t - 1]);
                }
            }
        }
        if all_tests(fs, gs) {
            assert(fs[gs[0] as int].is_test);
            assert forall|t: int| 0 <= t < rest.len() implies fs[(#[trigger] rest[t]) as int].is_test by {
                assert(gs[t + 1] == rest[t]);
            }
        }
    }
    assert forall|x: u32| gs.to_set().contains(x) <==> g.to_set().contains(x) by {
        if gs.contains(x) {
            let t = choose|t: int| 0 <= t < gs.len() && gs[t] == x;
            if t == 0 {
                assert(g[best] == x);
            } else {
                let i = if t - 1 < best { t - 1 } else { t };
                assert(gs[t] == rest[t - 1]);
                assert(g[i] == x);
            }
        }
        if g.contains(x) {
            let i = choose|i: int| 0 <= i < g.len() && g[i] == x;
            if i == best {
                assert(gs[0] == x);
            } else if i < best {
                assert(rest[i] == x);
                assert(gs[i + 1] == x);
            } else {
                assert(rest[i - 1] == x);
                assert(gs[i] == x);
            }
        }
    }
    assert(gs.to_set() =~= g.to_set());
}

/// The cluster of the functions `g` (ascending, at least two).
fn cluster_of(functions: &[FunctionUnit], g: &Vec<u32>) -> (c: Cluster)
    requires
        g@.len() >= 2,
        g@.len() < u32::MAX,
        increasing_u32(g@),
        forall|j: int| 0 <= j < g@.len() ==> (#[trigger] g@[j]) < functions@.len(),
        units_ok(functions@),
    ensures
        cluster_ok(functions@, c),
        funcs_of(c.members@).to_set() == g@.to_set(),
{
    let ghost fs = functions@;
    let n = g.len();
    let mut best: usize = 0;
    let mut j: usize = 1;
    while j < n
        invariant
            n == g@.len() >= 2,
            1 <= j <= n,
            best < j,
            forall|j: int| 0 <= j < g@.len() ==> (#[trigger] g@[j]) < fs.len(),
            fs == functions@,
            forall|t: int|
                0 <= t < j ==> fs[g@[best as int] as int].sig_lines > fs[(#[trigger] g@[t]) as int].sig_lines
                    || (fs[g@[best as int] as int].sig_lines == fs[g@[t] as int].sig_lines && best <= t),
        decreases n - j,
    {
        if functions[g[j] as usize].sig_lines > functions[g[best] as usize].sig_lines {
            best = j;
        }
        j = j + 1;
    }
    let rep = g[best];
    let rep_fps = &functions[rep as usize].fingerprints;
    let ghost rest = g@.remove(best as int);
    let mut members: Vec<Member> = Vec::new();
    let (c0, u0) = overlap(rep_fps, rep_fps);
    members.push(Member { func: rep, shared: c0 as u64, union: u0 as u64 });
    let mut deletable: u64 = 0;
    let mut others: Vec<u32> = Vec::new();
    let mut k: usize = 0;
    while k < n
        invariant
            n == g@.len() >= 2,
            n < u32::MAX,
            best < n,
            k <= n,
            rep == g@[best as int],
            rest == g@.remove(best as int),
            fs == functions@,
            units_ok(fs),
            rep_fps@ == fs[rep as int].fingerprints@,
            forall|j: int| 0 <= j < g@.len() ==> (#[trigger] g@[j]) < fs.len(),
            others@ == rest.subrange(0, others_before(k as int, best as int)),
            funcs_of(members@) == seq![rep] + others@,
            deletable == lines_total(fs, others@),
            deletable <= k * 0xffff_ffff,
            forall|j: int|
                0 <= j < members@.len() ==> {
                    let m = #[trigger] members@[j];
                    &&& m.shared == shared_of(fs[rep as int].fingerprints@, fs[m.func as int].fingerprints@)
                    &&& m.union == union_of(fs[rep as int].fingerprints@, fs[m.func as int].fingerprints@)
                },
        decreases n - k,
    {
        if k != best {
            let x = g[k];
            let ghost done = others_before(k as int, best as int);
            proof {
                assert(rest[done] == x);
                assert(rest.subrange(0, done + 1) =~= rest.subrange(0, done).push(x));
                lemma_lines_total_push(fs, others@, x);
            }
            let (c, u) = overlap(rep_fps, &functions[x as usize].fingerprints);
            let ghost before = members@;
            members.push(Member { func: x, shared: c as u64, union: u as u64 });
            others.push(x);
            assert(funcs_of(members@) =~= funcs_of(before).push(x));
            deletable = deletable + functions[x as usize].sig_lines as u64;
        }
        k = k + 1;
    }
    let mut test_only = true;
    let mut t: usize = 0;
    while t < n
        invariant
            t <= n == g@.len(),
            fs == functions@,
            forall|j: int| 0 <= j < g@.len() ==> (#[trigger] g@[j]) < fs.len(),
            test_only == all_tests(fs, g@.subrange(0, t as int)),
        decreases n - t,
    {
        proof {
            assert(g@.subrange(0, t + 1) =~= g@.subrange(0, t as int).push(g@[t as int]));
            lemma_all_tests_push(fs, g@.subrange(0, t as int), g@[t as int]);
        }
        test_only = test_only && functions[g[t] as usize].is_test;
        t = t + 1;
    }
    proof {
        assert(rest.subrange(0, n - 1) =~= rest);
        assert(g@.subrange(0, n as int) =~= g@);
        let gs = funcs_of(members@);
        lemma_cluster_shape(fs, g@, best as int, gs);
        assert(all_tests(fs, g@) == all_tests(fs, gs)) by {
            if all_tests(fs, g@) {
                assert forall|i: int| 0 <= i < gs.len() implies fs[(#[trigger] gs[i]) as int].is_test by {
                    assert(gs.to_set().contains(gs[i]));
                    assert(g@.to_set().contains(gs[i]));
                    let q = choose|q: int| 0 <= q < g@.len() && g@[q] == gs[i];
                    assert(fs[g@[q] as int].is_test);
                }
            }
            if all_tests(fs, gs) {
                assert forall|i: int| 0 <= i < g@.len() implies fs[(#[trigger] g@[i]) as int].is_test by {
                    assert(g@.to_set().contains(g@[i]));
                    assert(gs.to_set().contains(g@[i]));
                    let q = choose|q: int| 0 <= q < gs.len() && gs[q] == g@[i];
                    assert(fs[gs[q] as int].is_test);
                }
            }
        }
    }
    let ghost gs = funcs_of(members@);
    let mut trait_impl_only = true;
    let mut t: usize = 0;
    while t < members.len()
        invariant
            t <= members@.len(),
            fs == functions@,
            gs == funcs_of(members@),
            forall|j: int| 0 <= j < gs.len() ==> (#[trigger] gs[j]) < fs.len(),
            trait_impl_only == all_trait_impls(fs, gs.subrange(0, t as int)),
        decreases members@.len() - t,
    {
        proof {
            assert(gs.subrange(0, t + 1) =~= gs.subrange(0, t as int).push(gs[t as int]));
            lemma_all_trait_impls_push(fs, gs.subrange(0, t as int), gs[t as int]);
            assert(gs[t as int] == members@[t as int].func);
        }
        trait_impl_only = trait_impl_only && functions[members[t].func as usize].is_trait_impl_method;
        t = t + 1;
    }
    assert(gs.subrange(0, members@.len() as int) =~= gs);
    Cluster { members, deletable_lines: deletable, test_only, trait_impl_only }
}

/// Some cluster holds function `x`.
pub open spec fn in_some_cluster(cs: Seq<Cluster>, x: u32) -> bool {
    exists|c: int| 0 <= c < cs.len() && #[trigger] funcs_of(cs[c].members@).contains(x)
}

/// Keys (deletable lines, slot) ordered by deletable lines, most first.
pub open spec fn keys_sorted(s: Seq<(u64, usize)>) -> bool {
    forall|i: int, j: int| 0 <= i < j < s.len() ==> (#[trigger] s[i]).0 >= (#[trigger] s[j]).0
}

fn sort_keys(keys: Vec<(u64, usize)>) -> (sorted: Vec<(u64, usize)>)
    ensures
        keys_sorted(sorted@),
        sorted@.to_multiset() == keys@.to_multiset(),
{
    broadcast use vstd::seq_lib::group_to_multiset_ensures;
    broadcast use vstd::multiset::group_multiset_axioms;

    let mut rest = keys;
    let mut out: Vec<(u64, usize)> = Vec::new();
    let ghost whole = rest@.to_multiset();
    while rest.len() > 0
        invariant
            keys_sorted(out@),
            out@.to_multiset().add(rest@.to_multiset()) == whole,
        decreases rest@.len(),
    {
        let ghost rest0 = rest@;
        proof {
            vstd::seq_lib::to_multiset_remove(rest0, 0);
            vstd::seq_lib::to_multiset_contains(rest0, rest0[0]);
            assert(rest0.contains(rest0[0]));
        }
        let x = rest.remove(0);
        let mut j = out.len();
        while j > 0 && out[j - 1].0 < x.0
            invariant
                j <= out@.len(),
                keys_sorted(out@),
                forall|k: int| j <= k < out@.len() ==> (#[trigger] out@[k]).0 < x.0,
            decreases j,
        {
            j = j - 1;
        }
        let ghost before = out@;
        proof {
            vstd::seq_lib::to_multiset_insert(before, j as int, x);
            assert forall|a: int, b: int| 0 <= a < b < before.len() + 1 implies (#[trigger] before.insert(
                j as int,
                x,
            )[a]).0 >= (#[trigger] before.insert(j as int, x)[b]).0 by {
                let s2 = before.insert(j as int, x);
                if b > j {
                    assert(s2[b] == before[b - 1]);
                }
                if a > j {
                    assert(s2[a] == before[a - 1]);
                }
                if a < j && b == j && a < j - 1 {
                    assert(before[a].0 >= before[j - 1].0);
                }
            }
        }
        out.insert(j, x);
        proof {
            assert(out@.to_multiset().add(rest@.to_multiset()) =~= whole);
        }
    }
    out
}

/// The duplicate clusters: the groups of at least two functions that the
/// pairs connect, ranked by deletable lines, most first.
pub fn build_clusters(functions: &[FunctionUnit], pairs: &Vec<Pair>) -> (clusters: Vec<Cluster>)
    requires
        functions@.len() < u32::MAX,
        units_ok(functions@),
        forall|k: int|
            0 <= k < pairs@.len() ==> (#[trigger] pairs@[k]).a < pairs@[k].b < functions@.len(),
    ensures
        forall|c: int| 0 <= c < clusters@.len() ==> cluster_ok(functions@, #[trigger] clusters@[c]),
        forall|c: int, x: int|
            #![trigger funcs_of(clusters@[c].members@).contains(x as u32)]
            #![trigger connected(pairs@, x, clusters@[c].members@[0].func as int)]
            0 <= c < clusters@.len() && 0 <= x < functions@.len() ==> (funcs_of(
                clusters@[c].members@,
            ).contains(x as u32) <==> connected(pairs@, x, clusters@[c].members@[0].func as int)),
        forall|c1: int, c2: int, x: u32|
            0 <= c1 < clusters@.len() && 0 <= c2 < clusters@.len() && c1 != c2 ==> !(#[trigger] funcs_of(
                clusters@[c1].members@,
            ).contains(x) && #[trigger] funcs_of(clusters@[c2].members@).contains(x)),
        forall|k: int| 0 <= k < pairs@.len() ==> in_some_cluster(clusters@, (#[trigger] pairs@[k]).a),
        forall|c1: int, c2: int|
            0 <= c1 < c2 < clusters@.len() ==> (#[trigger] clusters@[c1]).deletable_lines
                >= (#[trigger] clusters@[c2]).deletable_lines,
{
    broadcast use vstd::seq_lib::group_to_multiset_ensures;
    broadcast use vstd::multiset::group_multiset_axioms;

    let n = functions.len();
    let ghost ps = pairs@;
    let labels = component_labels(pairs, n);
    proof {
        lemma_group_of(labels@, 0);
    }
    let groups = groups_of(&labels);
    let mut built: Vec<Option<Cluster>> = Vec::new();
    let mut keys: Vec<(u64, usize)> = Vec::new();
    let ghost mut roots: Seq<int> = Seq::empty();
    let mut r: usize = 0;
    while r < n
        invariant
            r <= n == functions@.len() < u32::MAX,
            units_ok(functions@),
            labels@.len() == n,
            labels_ok(ps, labels@),
            labels_closed(ps, labels@),
            groups@.len() == n,
            forall|q: int| 0 <= q < n ==> (#[trigger] groups@[q])@ == group_of(labels@, q),
            built@.len() == keys@.len() == roots.len() <= r,
            forall|i: int| 0 <= i < roots.len() ==> 0 <= #[trigger] roots[i] < r,
            forall|i: int, j: int| 0 <= i < j < roots.len() ==> roots[i] < roots[j],
            forall|i: int|
                0 <= i < built@.len() ==> {
                    &&& (#[trigger] built@[i]) is Some
                    &&& cluster_ok(functions@, built@[i]->0)
                    &&& funcs_of((built@[i]->0).members@).to_set() == group_of(labels@, roots[i]).to_set()
                    &&& keys@[i] == ((built@[i]->0).deletable_lines, i as usize)
                },
            forall|q: int| 0 <= q < r && group_of(labels@, q).len() >= 2 ==> #[trigger] roots.contains(q),
        decreases n - r,
    {
        let g = &groups[r];
        if g.len() >= 2 {
            proof {
                lemma_group_of(labels@, r as int);
            }
            let c = cluster_of(functions, g);
            let ghost old_roots = roots;
            keys.push((c.deletable_lines, built.len()));
            built.push(Some(c));
            proof {
                roots = roots.push(r as int);
                assert forall|q: int| 0 <= q < r + 1 && group_of(labels@, q).len() >= 2 implies #[trigger] roots.contains(q) by {
                    if q < r {
                        assert(old_roots.contains(q));
                        let t = choose|t: int| 0 <= t < old_roots.len() && old_roots[t] == q;
                        assert(roots[t] == q);
                    } else {
                        assert(roots[roots.len() - 1] == q);
                    }
                }
            }
        }
        r = r + 1;
    }
    let ghost orig = built@;
    let ghost ks = keys@;
    assert(ks.len() <= n);
    proof {
        assert(ks.no_duplicates()) by {
            assert forall|i: int, j: int| 0 <= i < ks.len() && 0 <= j < ks.len() && i != j implies ks[i] != ks[j] by {
                assert(orig[i] is Some);
                assert(orig[j] is Some);
                assert(ks[i].1 == i);
                assert(ks[j].1 == j);
            }
        }
        ks.lemma_multiset_has_no_duplicates();
    }
    let sorted = sort_keys(keys);
    proof {
        sorted@.lemma_multiset_has_no_duplicates_conv();
        assert forall|j: int| 0 <= j < sorted@.len() implies #[trigger] (sorted@[j].1 as int) < orig.len()
            && ks[sorted@[j].1 as int] == sorted@[j] by {
            vstd::seq_lib::to_multiset_contains(sorted@, sorted@[j]);
            assert(sorted@.contains(sorted@[j]));
            vstd::seq_lib::to_multiset_contains(ks, sorted@[j]);
            let i = choose|i: int| 0 <= i < ks.len() && ks[i] == sorted@[j];
            assert(orig[i] is Some);
            assert(ks[i].1 == i);
        }
        assert forall|i: int| 0 <= i < ks.len() implies #[trigger] sorted@.contains(ks[i]) by {
            vstd::seq_lib::to_multiset_contains(ks, ks[i]);
            vstd::seq_lib::to_multiset_contains(sorted@, ks[i]);
        }
    }
    let mut out: Vec<Cluster> = Vec::new();
    let mut t: usize = 0;
    while t < sorted.len()
        invariant
            t <= sorted@.len(),
            built@.len() == orig.len() == ks.len() <= n,
            sorted@.no_duplicates(),
            forall|j: int| 0 <= j < sorted@.len() ==> #[trigger] (sorted@[j].1 as int) < orig.len()
                && ks[sorted@[j].1 as int] == sorted@[j],
            forall|i: int| 0 <= i < orig.len() ==> (#[trigger] orig[i]) is Some && ks[i] == ((orig[i]->0).deletable_lines, i as usize),
            forall|j: int| t <= j < sorted@.len() ==> built@[(#[trigger] sorted@[j]).1 as int] == orig[sorted@[j].1 as int],
            out@.len() == t,
            forall|j: int| 0 <= j < t ==> #[trigger] out@[j] == orig[sorted@[j].1 as int]->0,
        decreases sorted@.len() - t,
    {
        let idx = sorted[t].1;
        assert(built@[idx as int] == orig[idx as int]);
        let ghost before = built@;
        let slot = built[idx].take();
        proof {
            assert forall|j: int| t + 1 <= j < sorted@.len() implies built@[(#[trigger] sorted@[j]).1 as int] == orig[sorted@[j].1 as int] by {
                assert(sorted@[j] != sorted@[t as int]);
                assert(sorted@[j].1 != idx) by {
                    if sorted@[j].1 == idx {
                        assert(ks[idx as int] == sorted@[j]);
                        assert(ks[idx as int] == sorted@[t as int]);
                    }
                }
                assert(built@[sorted@[j].1 as int] == before[sorted@[j].1 as int]);
            }
        }
        match slot {
            Some(c) => {
                out.push(c);
            },
            None => {
                assert(false);
            },
        }
        t = t + 1;
    }
    proof {
        assert forall|c: int| 0 <= c < out@.len() implies cluster_ok(functions@, #[trigger] out@[c]) by {
            let i = sorted@[c].1 as int;
            assert(out@[c] == orig[i]->0);
        }
        assert forall|c: int, x: int|
            #![trigger funcs_of(out@[c].members@).contains(x as u32)]
            #![trigger connected(ps, x, out@[c].members@[0].func as int)]
            0 <= c < out@.len() && 0 <= x < n implies (funcs_of(out@[c].members@).contains(x as u32)
                <==> connected(ps, x, out@[c].members@[0].func as int)) by {
            let i = sorted@[c].1 as int;
            let g = group_of(labels@, roots[i]);
            let fs = funcs_of(out@[c].members@);
            lemma_group_of(labels@, roots[i]);
            let m0 = out@[c].members@[0].func;
            assert(fs[0] == m0);
            assert(fs.to_set() == g.to_set());
            assert(fs.to_set().contains(m0));
            assert(g.contains(m0));
            let t0 = choose|t0: int| 0 <= t0 < g.len() && g[t0] == m0;
            assert(labels@[m0 as int] == roots[i]);
            assert((m0 as int) < n);
            lemma_label_iff_connected(ps, labels@, x, m0 as int);
            if fs.contains(x as u32) {
                assert(fs.to_set().contains(x as u32));
                assert(g.contains(x as u32));
                let tx = choose|tx: int| 0 <= tx < g.len() && g[tx] == x as u32;
            }
            if connected(ps, x, m0 as int) {
                assert(g.contains(x as u32));
                assert(g.to_set().contains(x as u32));
            }
        }
        assert forall|c1: int, c2: int, x: u32|
            0 <= c1 < out@.len() && 0 <= c2 < out@.len() && c1 != c2 implies !(#[trigger] funcs_of(
                out@[c1].members@,
            ).contains(x) && #[trigger] funcs_of(out@[c2].members@).contains(x)) by {
            let i1 = sorted@[c1].1 as int;
            let i2 = sorted@[c2].1 as int;
            assert(i1 != i2) by {
                if i1 == i2 {
                    assert(sorted@[c1] == ks[i1]);
                    assert(sorted@[c2] == ks[i2]);
                }
            }
            let g1 = group_of(labels@, roots[i1]);
            let g2 = group_of(labels@, roots[i2]);
            lemma_group_of(labels@, roots[i1]);
            lemma_group_of(labels@, roots[i2]);
            if funcs_of(out@[c1].members@).contains(x) && funcs_of(out@[c2].members@).contains(x) {
                assert(funcs_of(out@[c1].members@).to_set().contains(x));
                assert(funcs_of(out@[c2].members@).to_set().contains(x));
                assert(g1.contains(x));
                assert(g2.contains(x));
                let a1 = choose|a1: int| 0 <= a1 < g1.len() && g1[a1] == x;
                let a2 = choose|a2: int| 0 <= a2 < g2.len() && g2[a2] == x;
                if i1 < i2 {
                    assert(roots[i1] < roots[i2]);
                } else {
                    assert(roots[i2] < roots[i1]);
                }
            }
        }
        assert forall|k: int| 0 <= k < pairs@.len() implies in_some_cluster(out@, (#[trigger] pairs@[k]).a) by {
            let a = pairs@[k].a as int;
            let b = pairs@[k].b as int;
            let rr = labels@[a] as int;
            assert(labels@[b] == rr);
            assert(labels@[a] <= a);
            lemma_group_of(labels@, rr);
            let g = group_of(labels@, rr);
            assert(g.contains(a as u32));
            assert(g.contains(b as u32));
            assert(g.len() >= 2) by {
                let ta = choose|ta: int| 0 <= ta < g.len() && g[ta] == a as u32;
                let tb = choose|tb: int| 0 <= tb < g.len() && g[tb] == b as u32;
                assert(ta != tb);
            }
            assert(roots.contains(rr));
            let i = choose|i: int| 0 <= i < roots.len() && roots[i] == rr;
            assert(sorted@.contains(ks[i]));
            let c = choose|c: int| 0 <= c < sorted@.len() && sorted@[c] == ks[i];
            assert(orig[i] is Some);
            assert(ks[i].1 == i);
            assert(out@[c] == orig[i]->0);
            assert(funcs_of(out@[c].members@).to_set() == g.to_set());
            assert(g.to_set().contains(a as u32));
            assert(funcs_of(out@[c].members@).to_set().contains(a as u32));
            assert(funcs_of(out@[c].members@).contains(pairs@[k].a));
            assert(0 <= c < out@.len() && funcs_of(out@[c].members@).contains(pairs@[k].a));
        }

        assert forall|c1: int, c2: int| 0 <= c1 < c2 < out@.len() implies (#[trigger] out@[c1]).deletable_lines
            >= (#[trigger] out@[c2]).deletable_lines by {
            assert(sorted@[c1].0 >= sorted@[c2].0);
        }
    }
    out
}

} // verus!