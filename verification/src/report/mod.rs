//! What a scan reports, as values: the run's statistics and each cluster
//! with its members, ready to be rendered or serialized.

pub mod card;

use vstd::prelude::*;
use crate::cluster::{funcs_of, Cluster, Member};
use crate::extract::FunctionUnit;

verus! {

pub const JSON_SCHEMA_VERSION: u32 = 1;

/// What a scan went through.
#[derive(Clone, Copy, Debug, PartialEq, Eq, Structural)]
pub struct Stats {
    pub files: u32,
    pub total_lines: u64,
    pub significant_lines: u64,
    pub functions: u32,
    pub elapsed_ms: u64,
    pub skipped_generated: u32,
    pub skipped_minified: u32,
    pub skipped_non_utf8: u32,
}

/// A member as reported: where it is, how big, and how much of it the
/// representative shares (`shared` of `union` fingerprints).
pub struct MemberSummary {
    pub file: String,
    pub name: String,
    pub start_line: u32,
    pub end_line: u32,
    pub lines: u32,
    pub shared: u64,
    pub union: u64,
    pub representative: bool,
    pub test: bool,
}

/// A cluster as reported, numbered from 1 in rank order.
pub struct ClusterSummary {
    pub id: usize,
    pub copies: usize,
    pub deletable_lines: u64,
    pub test_only: bool,
    pub trait_impl_only: bool,
    pub members: Vec<MemberSummary>,
}

/// `false` values are left out of serialized output.
pub fn is_false(b: &bool) -> (r: bool)
    ensures
        r == !*b,
{
    !*b
}

/// The summary `m` describes member `j` (`c` a cluster member) of a
/// cluster over `functions` with files `file_names`.
pub open spec fn member_summary_ok(
    m: MemberSummary,
    c: Member,
    j: int,
    functions: Seq<FunctionUnit>,
    file_names: Seq<String>,
) -> bool {
    let f = functions[c.func as int];
    &&& m.file@ == file_names[f.file as int]@
    &&& m.name@ == f.name@
    &&& m.start_line == f.start_line
    &&& m.end_line == f.end_line
    &&& m.lines == f.sig_lines
    &&& m.shared == c.shared
    &&& m.union == c.union
    &&& m.representative == (j == 0)
    &&& m.test == f.is_test
}

/// Every cluster member names a function, and every function a file.
pub open spec fn clusters_index_ok(
    clusters: Seq<Cluster>,
    functions: Seq<FunctionUnit>,
    file_names: Seq<String>,
) -> bool {
    &&& forall|c: int, j: int|
        0 <= c < clusters.len() && 0 <= j < clusters[c].members@.len() ==> (
        #[trigger] clusters[c].members@[j]).func < functions.len()
    &&& forall|i: int| 0 <= i < functions.len() ==> (#[trigger] functions[i]).file < file_names.len()
}

fn member_summary(
    c: &Member,
    j: usize,
    functions: &[FunctionUnit],
    file_names: &[String],
) -> (m: MemberSummary)
    requires
        (c.func as int) < functions@.len(),
        forall|i: int| 0 <= i < functions@.len() ==> (#[trigger] functions@[i]).file < file_names@.len(),
    ensures
        member_summary_ok(m, *c, j as int, functions@, file_names@),
{
    let f = &functions[c.func as usize];
    MemberSummary {
        file: file_names[f.file as usize].clone(),
        name: f.name.clone(),
        start_line: f.start_line,
        end_line: f.end_line,
        lines: f.sig_lines,
        shared: c.shared,
        union: c.union,
        representative: j == 0,
        test: f.is_test,
    }
}

/// The clusters in their reported form, numbered from 1; the first member
/// of each is marked the representative.
pub fn clusters_out(clusters: &[Cluster], functions: &[FunctionUnit], file_names: &[String]) -> (out: Vec<
    ClusterSummary,
>)
    requires
        clusters_index_ok(clusters@, functions@, file_names@),
    ensures
        out@.len() == clusters@.len(),
        forall|c: int|
            0 <= c < out@.len() ==> {
                let o = #[trigger] out@[c];
                let k = clusters@[c];
                &&& o.id == c + 1
                &&& o.copies == k.members@.len()
                &&& o.deletable_lines == k.deletable_lines
                &&& o.test_only == k.test_only
                &&& o.trait_impl_only == k.trait_impl_only
                &&& o.members@.len() == k.members@.len()
                &&& forall|j: int|
                    0 <= j < o.members@.len() ==> member_summary_ok(
                        #[trigger] o.members@[j],
                        k.members@[j],
                        j,
                        functions@,
                        file_names@,
                    )
            },
{
    let mut out: Vec<ClusterSummary> = Vec::new();
    let mut c: usize = 0;
    while c < clusters.len()
        invariant
            c <= clusters@.len(),
            clusters_index_ok(clusters@, functions@, file_names@),
            out@.len() == c,
            forall|i: int|
                0 <= i < c ==> {
                    let o = #[trigger] out@[i];
                    let k = clusters@[i];
                    &&& o.id == i + 1
                    &&& o.copies == k.members@.len()
                    &&& o.deletable_lines == k.deletable_lines
                    &&& o.test_only == k.test_only
                    &&& o.trait_impl_only == k.trait_impl_only
                &&& o.trait_impl_only == k.trait_impl_only
                    &&& o.members@.len() == k.members@.len()
                    &&& forall|j: int|
                        0 <= j < o.members@.len() ==> member_summary_ok(
                            #[trigger] o.members@[j],
                            k.members@[j],
                            j,
                            functions@,
                            file_names@,
                        )
                },
        decreases clusters@.len() - c,
    {
        let k = &clusters[c];
        let mut members: Vec<MemberSummary> = Vec::new();
        let mut j: usize = 0;
        while j < k.members.len()
            invariant
                c < clusters@.len(),
                *k == clusters@[c as int],
                clusters_index_ok(clusters@, functions@, file_names@),
                j <= k.members@.len(),
                members@.len() == j,
                forall|t: int|
                    0 <= t < j ==> member_summary_ok(
                        #[trigger] members@[t],
                        k.members@[t],
                        t,
                        functions@,
                        file_names@,
                    ),
            decreases k.members@.len() - j,
        {
            assert((k.members@[j as int].func as int) < functions@.len());
            let m = member_summary(&k.members[j], j, functions, file_names);
            members.push(m);
            j = j + 1;
        }
        out.push(
            ClusterSummary {
                id: c + 1,
                copies: k.members.len(),
                deletable_lines: k.deletable_lines,
                test_only: k.test_only,
                trait_impl_only: k.trait_impl_only,
                members,
            },
        );
        c = c + 1;
    }
    out
}

} // verus!
