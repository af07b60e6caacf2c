//! The slop score: the share of the code you could delete if every
//! duplicate cluster kept only one copy. The representative copy is exempt,
//! test-only clusters are left out unless tests are included, and nothing
//! here guesses who (or what) wrote the code.

use vstd::prelude::*;
use crate::cluster::Cluster;
use crate::config::TestPolicy;

verus! {

pub struct Score {
    pub deletable_lines: u64,
    pub total_sig_lines: u64,
    pub grade: char,
}

/// The cluster counts toward the score: under the test policy, and never
/// when it is made of Rust trait-impl methods (each impl is required).
pub open spec fn counted(c: Cluster, tests: TestPolicy) -> bool {
    (tests == TestPolicy::Include || !c.test_only) && !c.trait_impl_only
}

/// Deletable lines of the clusters that count.
pub open spec fn deletable_sum(cs: Seq<Cluster>, tests: TestPolicy) -> int
    decreases cs.len(),
{
    if cs.len() == 0 {
        0
    } else {
        deletable_sum(cs.drop_last(), tests) + if counted(cs.last(), tests) {
            cs.last().deletable_lines as int
        } else {
            0
        }
    }
}

/// The grade of `deletable` out of `total` significant lines: under 3%
/// is A, under 6% B, under 10% C, under 15% D, otherwise F; no code at all
/// is 0%.
pub open spec fn grade_for(deletable: int, total: int) -> char {
    if total == 0 || 100 * deletable < 3 * total {
        'A'
    } else if 100 * deletable < 6 * total {
        'B'
    } else if 100 * deletable < 10 * total {
        'C'
    } else if 100 * deletable < 15 * total {
        'D'
    } else {
        'F'
    }
}

/// Grades from best to worst.
pub open spec fn grade_rank(g: char) -> int {
    if g == 'A' {
        0
    } else if g == 'B' {
        1
    } else if g == 'C' {
        2
    } else if g == 'D' {
        3
    } else {
        4
    }
}

/// The grade of `deletable` out of `total` significant lines.
pub fn grade_of(deletable: u64, total: u64) -> (g: char)
    ensures
        g == grade_for(deletable as int, total as int),
{
    let d = (deletable as u128) * 100;
    let t = total as u128;
    if total == 0 || d < 3 * t {
        'A'
    } else if d < 6 * t {
        'B'
    } else if d < 10 * t {
        'C'
    } else if d < 15 * t {
        'D'
    } else {
        'F'
    }
}

/// The score of the clusters over `total_sig_lines` significant lines.
pub fn slop_score(clusters: &[Cluster], total_sig_lines: u64, tests: TestPolicy) -> (s: Score)
    requires
        deletable_sum(clusters@, tests) <= u64::MAX,
    ensures
        s.deletable_lines == deletable_sum(clusters@, tests),
        s.total_sig_lines == total_sig_lines,
        s.grade == grade_for(deletable_sum(clusters@, tests), total_sig_lines as int),
{
    let mut deletable: u64 = 0;
    let mut i: usize = 0;
    while i < clusters.len()
        invariant
            i <= clusters@.len(),
            deletable_sum(clusters@, tests) <= u64::MAX,
            deletable == deletable_sum(clusters@.subrange(0, i as int), tests),
        decreases clusters@.len() - i,
    {
        let ghost pre = clusters@.subrange(0, i as int);
        let ghost nxt = clusters@.subrange(0, i + 1);
        proof {
            assert(nxt.drop_last() =~= pre);
            lemma_deletable_sum_prefix(clusters@, tests, i + 1);
        }
        let c = &clusters[i];
        if (tests == TestPolicy::Include || !c.test_only) && !c.trait_impl_only {
            deletable = deletable + c.deletable_lines;
        }
        i = i + 1;
    }
    assert(clusters@.subrange(0, clusters@.len() as int) =~= clusters@);
    Score { deletable_lines: deletable, total_sig_lines, grade: grade_of(deletable, total_sig_lines) }
}

/// The score, or `None` when the deletable lines that count exceed
/// `u64::MAX` and cannot be summed.
pub(crate) fn checked_score(clusters: &[Cluster], total_sig_lines: u64, tests: TestPolicy) -> (r: Option<Score>)
    ensures
        match r {
            Some(s) => {
                &&& deletable_sum(clusters@, tests) <= u64::MAX
                &&& s.deletable_lines == deletable_sum(clusters@, tests)
                &&& s.total_sig_lines == total_sig_lines
                &&& s.grade == grade_for(deletable_sum(clusters@, tests), total_sig_lines as int)
            },
            None => deletable_sum(clusters@, tests) > u64::MAX,
        },
{
    let mut deletable: u64 = 0;
    let mut i: usize = 0;
    while i < clusters.len()
        invariant
            i <= clusters@.len(),
            deletable == deletable_sum(clusters@.subrange(0, i as int), tests),
        decreases clusters@.len() - i,
    {
        let ghost pre = clusters@.subrange(0, i as int);
        let ghost nxt = clusters@.subrange(0, i + 1);
        proof {
            assert(nxt.drop_last() =~= pre);
            lemma_deletable_sum_prefix(clusters@, tests, i + 1);
        }
        let c = &clusters[i];
        if (tests == TestPolicy::Include || !c.test_only) && !c.trait_impl_only {
            match deletable.checked_add(c.deletable_lines) {
                Some(d) => {
                    deletable = d;
                },
                None => {
                    return None;
                },
            }
        }
        i = i + 1;
    }
    assert(clusters@.subrange(0, clusters@.len() as int) =~= clusters@);
    Some(slop_score(clusters, total_sig_lines, tests))
}

proof fn lemma_deletable_sum_prefix(cs: Seq<Cluster>, tests: TestPolicy, k: int)
    requires
        0 <= k <= cs.len(),
    ensures
        0 <= deletable_sum(cs.subrange(0, k), tests) <= deletable_sum(cs, tests),
    decreases cs.len() - k,
{
    lemma_deletable_sum_nonneg(cs.subrange(0, k), tests);
    if k < cs.len() {
        lemma_deletable_sum_prefix(cs, tests, k + 1);
        assert(cs.subrange(0, k + 1).drop_last() =~= cs.subrange(0, k));
    } else {
        assert(cs.subrange(0, k) =~= cs);
        lemma_deletable_sum_nonneg(cs, tests);
    }
}

proof fn lemma_deletable_sum_nonneg(cs: Seq<Cluster>, tests: TestPolicy)
    ensures
        deletable_sum(cs, tests) >= 0,
    decreases cs.len(),
{
    if cs.len() > 0 {
        lemma_deletable_sum_nonneg(cs.drop_last(), tests);
    }
}

/// A larger share of deletable lines never earns a better grade.
pub proof fn lemma_grade_monotone(d1: nat, t1: nat, d2: nat, t2: nat)
    requires
        t1 > 0,
        t2 > 0,
        d1 * t2 <= d2 * t1,
    ensures
        grade_rank(grade_for(d1 as int, t1 as int)) <= grade_rank(grade_for(d2 as int, t2 as int)),
{
    lemma_share_below(d1, t1, d2, t2, 3);
    lemma_share_below(d1, t1, d2, t2, 6);
    lemma_share_below(d1, t1, d2, t2, 10);
    lemma_share_below(d1, t1, d2, t2, 15);
}

proof fn lemma_share_below(d1: nat, t1: nat, d2: nat, t2: nat, k: nat)
    requires
        t1 > 0,
        t2 > 0,
        d1 * t2 <= d2 * t1,
    ensures
        100 * d2 < k * t2 ==> 100 * d1 < k * t1,
{
    if 100 * d2 < k * t2 {
        assert(100 * d1 < k * t1) by (nonlinear_arith)
            requires
                d1 * t2 <= d2 * t1,
                100 * d2 < k * t2,
                t1 > 0,
                t2 > 0,
        {
            assert(100 * d1 * t2 <= 100 * d2 * t1);
            assert(100 * d2 * t1 < k * t2 * t1);
            assert(k * t2 * t1 == k * t1 * t2);
            assert(100 * d1 * t2 < k * t1 * t2);
        }
    }
}

/// Leaving test-only clusters out never raises the deletable lines above
/// counting every cluster.
pub proof fn lemma_tests_excluded_score_no_higher(cs: Seq<Cluster>)
    ensures
        deletable_sum(cs, TestPolicy::FlagOnly) <= deletable_sum(cs, TestPolicy::Include),
    decreases cs.len(),
{
    if cs.len() > 0 {
        lemma_tests_excluded_score_no_higher(cs.drop_last());
    }
}

} // verus!
