//! The decisions of the `check` gate: which new-side lines a diff touched,
//! whether a changed function duplicates base code strongly enough, and
//! whether a hit is really a moved or edited function. Running git and
//! reading files stays with the caller, which feeds the results in here.

use vstd::prelude::*;
use std::collections::{HashMap, HashSet};
use crate::extract::FunctionUnit;
use crate::lang::{lang_of_path, Lang};
use crate::walk::{
    default_excluded, excluded_path, in_snapshot, is_test_path, snapshot_path, test_path,
};
use crate::suggest::{import_suggestion, suggestion_text};
use crate::fingerprint::{shared_count, strictly_increasing};
use crate::index::{
    build_postings, group_fps, lemma_shares_iff_shared_count, list_ok, meets_ppm,
    meets_threshold, overlap, postings_ok, shares,
};
use crate::text::{
    chars_of, has_prefix, trim, trim_chars, lines_chars, lines_of, parse_u32, parse_u32_spec, slice_chars,
    split_chars, split_on, split_once, split_once_chars, starts_with, string_of, views,
};

verus! {

/// The new-side line ranges a diff changed in one file, 1-based and
/// inclusive.
pub struct ChangedFile {
    pub path: String,
    pub hunks: Vec<(u32, u32)>,
}

pub open spec fn lit_new_file() -> Seq<char> {
    seq!['+', '+', '+', ' ', 'b', '/']
}

pub open spec fn lit_dev_null() -> Seq<char> {
    seq!['+', '+', '+', ' ', '/', 'd', 'e', 'v', '/', 'n', 'u', 'l', 'l']
}

pub open spec fn lit_hunk() -> Seq<char> {
    seq!['@', '@', ' ']
}

/// The first of `pieces` that starts with `+`.
pub open spec fn first_plus(pieces: Seq<Seq<char>>) -> Option<Seq<char>>
    decreases pieces.len(),
{
    if pieces.len() == 0 {
        None
    } else if pieces[0].len() > 0 && pieces[0][0] == '+' {
        Some(pieces[0])
    } else {
        first_plus(pieces.drop_first())
    }
}

/// The new-side range of a hunk header's text after `@@ `
/// (`-a,b +c,d @@ ...`): lines `c ..= c + d - 1`, wrapping as `u32`
/// arithmetic does; a missing `,d` means one line, an unreadable number
/// counts as 0, and an empty range gives nothing.
pub open spec fn hunk_range(rest: Seq<char>) -> Option<(u32, u32)> {
    match first_plus(split_on(rest, ' ')) {
        None => None,
        Some(plus) => {
            let nums = plus.drop_first();
            let (start, len) = match split_once(nums, ',') {
                Some((s, l)) => (
                    match parse_u32_spec(s) {
                        Some(v) => v,
                        None => 0u32,
                    },
                    match parse_u32_spec(l) {
                        Some(v) => v,
                        None => 0u32,
                    },
                ),
                None => (
                    match parse_u32_spec(nums) {
                        Some(v) => v,
                        None => 0u32,
                    },
                    1u32,
                ),
            };
            if len > 0 {
                Some((start, ((start + len - 1) % 0x1_0000_0000) as u32))
            } else {
                None
            }
        },
    }
}

/// Position of `path` among the files collected so far.
pub open spec fn file_index(files: Seq<(Seq<char>, Seq<(u32, u32)>)>, path: Seq<char>) -> Option<int>
    decreases files.len(),
{
    if files.len() == 0 {
        None
    } else if files.last().0 == path {
        Some(files.len() - 1)
    } else {
        file_index(files.drop_last(), path)
    }
}

/// `files` with the range `h` appended to `path`'s ranges.
pub open spec fn add_hunk(
    files: Seq<(Seq<char>, Seq<(u32, u32)>)>,
    path: Seq<char>,
    h: (u32, u32),
) -> Seq<(Seq<char>, Seq<(u32, u32)>)> {
    match file_index(files, path) {
        Some(i) => files.update(i, (path, files[i].1.push(h))),
        None => files.push((path, seq![h])),
    }
}

/// The file whose hunks are being read, and the ranges collected, after
/// the diff lines `lines`.
pub open spec fn hunks_after(lines: Seq<Seq<char>>) -> (Option<Seq<char>>, Seq<(Seq<char>, Seq<(u32, u32)>)>)
    decreases lines.len(),
{
    if lines.len() == 0 {
        (None, Seq::empty())
    } else {
        let (current, files) = hunks_after(lines.drop_last());
        let line = lines.last();
        if has_prefix(line, lit_new_file()) {
            (Some(line.subrange(lit_new_file().len() as int, line.len() as int)), files)
        } else if has_prefix(line, lit_dev_null()) {
            (None, files)
        } else if has_prefix(line, lit_hunk()) {
            match current {
                None => (current, files),
                Some(path) => match hunk_range(line.subrange(3, line.len() as int)) {
                    Some(h) => (current, add_hunk(files, path, h)),
                    None => (current, files),
                },
            }
        } else {
            (current, files)
        }
    }
}

proof fn lemma_file_index(files: Seq<(Seq<char>, Seq<(u32, u32)>)>, path: Seq<char>)
    ensures
        file_index(files, path) matches Some(i) ==> 0 <= i < files.len() && files[i].0 == path,
        file_index(files, path) is None ==> forall|i: int| 0 <= i < files.len() ==> files[i].0 != path,
    decreases files.len(),
{
    if files.len() > 0 && files.last().0 != path {
        lemma_file_index(files.drop_last(), path);
        assert forall|i: int| 0 <= i < files.len() - 1 implies files[i] == files.drop_last()[i] by {}
    }
}

fn first_plus_piece(pieces: &Vec<Vec<char>>) -> (r: Option<usize>)
    ensures
        match r {
            Some(i) => i < pieces@.len() && first_plus(views(pieces@)) == Some(pieces@[i as int]@)
                && pieces@[i as int]@.len() > 0,
            None => first_plus(views(pieces@)) is None,
        },
{
    let mut i: usize = 0;
    assert(views(pieces@).subrange(0, pieces@.len() as int) =~= views(pieces@));
    while i < pieces.len()
        invariant
            i <= pieces@.len(),
            first_plus(views(pieces@)) == first_plus(views(pieces@).subrange(i as int, pieces@.len() as int)),
        decreases pieces@.len() - i,
    {
        let ghost rest = views(pieces@).subrange(i as int, pieces@.len() as int);
        assert(rest[0] == pieces@[i as int]@);
        if pieces[i].len() > 0 && pieces[i][0] == '+' {
            return Some(i);
        }
        assert(rest.drop_first() =~= views(pieces@).subrange(i + 1, pieces@.len() as int));
        i = i + 1;
    }
    None
}

fn or_zero(v: Option<u32>) -> (r: u32)
    ensures
        r == match v {
            Some(x) => x,
            None => 0u32,
        },
{
    match v {
        Some(x) => x,
        None => 0,
    }
}

fn hunk_range_of(rest: &[char]) -> (r: Option<(u32, u32)>)
    ensures
        r == hunk_range(rest@),
{
    let pieces = split_chars(rest, ' ');
    assert(views(pieces@) =~= split_on(rest@, ' '));
    match first_plus_piece(&pieces) {
        None => None,
        Some(i) => {
            let plus = &pieces[i];
            let nums = slice_chars(plus.as_slice(), 1, plus.len());
            assert(nums@ =~= plus@.drop_first());
            let (start, len) = match split_once_chars(nums.as_slice(), ',') {
                Some((s, l)) => (or_zero(parse_u32(s.as_slice())), or_zero(parse_u32(l.as_slice()))),
                None => (or_zero(parse_u32(nums.as_slice())), 1u32),
            };
            if len > 0 {
                let end = start.wrapping_add(len - 1);
                assert(end == ((start + len - 1) % 0x1_0000_0000) as u32) by (bit_vector)
                    requires
                        end == start.wrapping_add((len - 1) as u32),
                        len > 0,
                ;
                Some((start, end))
            } else {
                None
            }
        },
    }
}

/// `ChangedFile`s as (path, ranges) values.
pub open spec fn changed_view(files: Seq<ChangedFile>) -> Seq<(Seq<char>, Seq<(u32, u32)>)> {
    files.map_values(|f: ChangedFile| (f.path@, f.hunks@))
}

fn find_file(files: &Vec<ChangedFile>, path: &Vec<char>) -> (r: Option<usize>)
    ensures
        match r {
            Some(i) => file_index(changed_view(files@), path@) == Some(i as int),
            None => file_index(changed_view(files@), path@) is None,
        },
{
    let mut i = files.len();
    assert(changed_view(files@).subrange(0, files@.len() as int) =~= changed_view(files@));
    while i > 0
        invariant
            i <= files@.len(),
            file_index(changed_view(files@), path@) == file_index(
                changed_view(files@).subrange(0, i as int),
                path@,
            ),
        decreases i,
    {
        let ghost pre = changed_view(files@).subrange(0, i as int);
        assert(pre.last() == changed_view(files@)[i - 1]);
        assert(pre.drop_last() =~= changed_view(files@).subrange(0, i - 1));
        let p = chars_of(files[i - 1].path.as_str());
        if crate::text::chars_eq(p.as_slice(), path.as_slice()) {
            return Some(i - 1);
        }
        i = i - 1;
    }
    None
}

/// Every changed file of a `git diff -U0` output with the new-side line
/// ranges of its hunks, files in order of first appearance. Deleted files
/// (`+++ /dev/null`) contribute nothing.
pub fn parse_hunks(diff: &str) -> (files: Vec<ChangedFile>)
    ensures
        changed_view(files@) == hunks_after(lines_of(diff@)).1,
{
    let cs = chars_of(diff);
    let lines = lines_chars(cs.as_slice());
    let ghost ls = lines_of(diff@);
    let new_file: Vec<char> = vec!['+', '+', '+', ' ', 'b', '/'];
    let dev_null: Vec<char> = vec!['+', '+', '+', ' ', '/', 'd', 'e', 'v', '/', 'n', 'u', 'l', 'l'];
    let hunk: Vec<char> = vec!['@', '@', ' '];
    assert(new_file@ =~= lit_new_file());
    assert(dev_null@ =~= lit_dev_null());
    assert(hunk@ =~= lit_hunk());
    let mut files: Vec<ChangedFile> = Vec::new();
    let mut current: Option<Vec<char>> = None;
    let mut i: usize = 0;
    while i < lines.len()
        invariant
            i <= lines@.len(),
            views(lines@) == ls,
            new_file@ == lit_new_file(),
            dev_null@ == lit_dev_null(),
            hunk@ == lit_hunk(),
            ({
                let st = hunks_after(ls.subrange(0, i as int));
                &&& changed_view(files@) == st.1
                &&& match current {
                    Some(c) => st.0 == Some(c@),
                    None => st.0 is None,
                }
            }),
        decreases lines@.len() - i,
    {
        let line = &lines[i];
        let ghost pre = ls.subrange(0, i as int);
        let ghost nxt = ls.subrange(0, i + 1);
        proof {
            assert(nxt.drop_last() =~= pre);
            assert(nxt.last() == line@);
        }
        if starts_with(line.as_slice(), new_file.as_slice()) {
            current = Some(slice_chars(line.as_slice(), 6, line.len()));
        } else if starts_with(line.as_slice(), dev_null.as_slice()) {
            current = None;
        } else if starts_with(line.as_slice(), hunk.as_slice()) {
            match &current {
                None => {},
                Some(path) => {
                    let rest = slice_chars(line.as_slice(), 3, line.len());
                    match hunk_range_of(rest.as_slice()) {
                        None => {},
                        Some(h) => {
                            let ghost fv = changed_view(files@);
                            match find_file(&files, path) {
                                Some(k) => {
                                    proof {
                                        lemma_file_index(fv, path@);
                                    }
                                    files[k].hunks.push(h);
                                    proof {
                                        assert(changed_view(files@) =~= fv.update(
                                            k as int,
                                            (path@, fv[k as int].1.push(h)),
                                        ));
                                    }
                                },
                                None => {
                                    let mut hs: Vec<(u32, u32)> = Vec::new();
                                    hs.push(h);
                                    let p = string_of(path.as_slice());
                                    files.push(ChangedFile { path: p, hunks: hs });
                                    proof {
                                        assert(hs@ =~= seq![h]);
                                        assert(changed_view(files@) =~= fv.push((path@, seq![h])));
                                    }
                                },
                            }
                        },
                    }
                },
            }
        }
        i = i + 1;
    }
    assert(ls.subrange(0, ls.len() as int) =~= ls);
    files
}

/// Ratio `c1 / u1` against `c2 / u2`, for positive `u1`, `u2`: the first
/// is the larger.
pub open spec fn more_similar(c1: nat, u1: nat, c2: nat, u2: nat) -> bool {
    c1 * u2 > c2 * u1
}

proof fn lemma_ratio_order(c1: nat, u1: nat, c2: nat, u2: nat, c3: nat, u3: nat)
    requires
        u1 > 0,
        u2 > 0,
        u3 > 0,
    ensures
        !more_similar(c1, u1, c2, u2) && !more_similar(c2, u2, c3, u3) ==> !more_similar(c1, u1, c3, u3),
        !more_similar(c1, u1, c2, u2) && more_similar(c3, u3, c2, u2) ==> more_similar(c3, u3, c1, u1),
{
    if c1 * u2 <= c2 * u1 && c2 * u3 <= c3 * u2 {
        assert(c1 * u3 <= c3 * u1) by (nonlinear_arith)
            requires
                c1 * u2 <= c2 * u1,
                c2 * u3 <= c3 * u2,
                u1 > 0,
                u2 > 0,
                u3 > 0,
        {
            assert(c1 * u2 * u3 <= c2 * u1 * u3);
            assert(c2 * u3 * u1 <= c3 * u2 * u1);
            assert(c1 * u3 * u2 <= c3 * u1 * u2);
        }
    }
    if c1 * u2 <= c2 * u1 && c3 * u2 > c2 * u3 {
        assert(c3 * u1 > c1 * u3) by (nonlinear_arith)
            requires
                c1 * u2 <= c2 * u1,
                c3 * u2 > c2 * u3,
                u1 > 0,
                u2 > 0,
                u3 > 0,
        {
            assert(c1 * u2 * u3 <= c2 * u1 * u3);
            assert(c3 * u2 * u1 > c2 * u3 * u1);
            assert(c3 * u1 * u2 > c1 * u3 * u2);
        }
    }
}

/// Fingerprint lists longer than this cannot exist: a `Vec<u64>` holds at
/// most `isize::MAX` bytes.
pub open spec fn max_fps() -> nat {
    0x1000_0000_0000_0000
}

/// The positions `0 .. n`.
pub open spec fn all_ids(n: nat) -> Seq<u32> {
    Seq::new(n, |i: int| i as u32)
}

/// The base functions are fit to index: fewer than `u32::MAX`, each with
/// sorted, distinct fingerprints of a possible length.
pub open spec fn base_ok(base: Seq<FunctionUnit>) -> bool {
    &&& base.len() < u32::MAX
    &&& forall|i: int|
        0 <= i < base.len() ==> strictly_increasing((#[trigger] base[i]).fingerprints@)
            && base[i].fingerprints@.len() <= max_fps()
}

/// Which base functions hold each fingerprint.
pub struct BaseIndex {
    postings: HashMap<u64, Vec<u32>>,
}

impl BaseIndex {
    /// The index lists, for every fingerprint, exactly the base functions
    /// holding it.
    pub closed spec fn indexes(&self, base: Seq<FunctionUnit>) -> bool {
        postings_ok(self.postings@, group_fps(base, all_ids(base.len())), base.len() as int, 0)
    }

    pub fn new(base: &[FunctionUnit]) -> (index: Self)
        requires
            base_ok(base@),
        ensures
            index.indexes(base@),
    {
        let mut ids: Vec<u32> = Vec::new();
        let mut i: usize = 0;
        while i < base.len()
            invariant
                i <= base@.len() < u32::MAX,
                ids@ == all_ids(i as nat),
            decreases base@.len() - i,
        {
            ids.push(i as u32);
            assert(ids@ =~= all_ids((i + 1) as nat));
            i = i + 1;
        }
        let postings = build_postings(base, &ids);
        BaseIndex { postings }
    }

    /// The base functions sharing at least one fingerprint with `fps`, each
    /// once.
    fn sharing(&self, base: &[FunctionUnit], fps: &Vec<u64>) -> (c: Vec<u32>)
        requires
            self.indexes(base@),
            base@.len() < u32::MAX,
        ensures
            forall|i: int, j: int| 0 <= i < j < c@.len() ==> c@[i] != c@[j],
            forall|i: int|
                0 <= i < c@.len() ==> (#[trigger] c@[i]) < base@.len() && shares(
                    fps@,
                    base@[c@[i] as int].fingerprints@,
                ),
            forall|q: int|
                0 <= q < base@.len() && shares(fps@, (#[trigger] base@[q]).fingerprints@)
                    ==> c@.contains(q as u32),
    {
        let ghost n = base@.len();
        let ghost gf = group_fps(base@, all_ids(n));
        assert forall|q: int| 0 <= q < n implies #[trigger] gf[q] == base@[q].fingerprints@ by {}
        let mut c: Vec<u32> = Vec::new();
        let mut seen: HashSet<u32> = HashSet::new();
        let mut k: usize = 0;
        while k < fps.len()
            invariant
                n == base@.len() < u32::MAX,
                gf == group_fps(base@, all_ids(n)),
                forall|q: int| 0 <= q < n ==> #[trigger] gf[q] == base@[q].fingerprints@,
                k <= fps@.len(),
                postings_ok(self.postings@, gf, n as int, 0),
                forall|x: u32| seen@.contains(x) <==> c@.contains(x),
                forall|i: int, j: int| 0 <= i < j < c@.len() ==> c@[i] != c@[j],
                forall|i: int|
                    0 <= i < c@.len() ==> (#[trigger] c@[i]) < n && shares(fps@, gf[c@[i] as int]),
                forall|q: int, x: u64|
                    0 <= q < n && fps@.subrange(0, k as int).contains(x) && #[trigger] gf[q].contains(
                        x,
                    ) ==> c@.contains(q as u32),
            decreases fps@.len() - k,
        {
            let fp = fps[k];
            let list = match self.postings.get(&fp) {
                Some(l) => l,
                None => {
                    proof {
                        assert forall|q: int, x: u64|
                            0 <= q < n && fps@.subrange(0, k + 1).contains(x)
                                && #[trigger] gf[q].contains(x) implies c@.contains(q as u32) by {
                            let sub = fps@.subrange(0, k + 1);
                            let t = choose|t: int| 0 <= t < sub.len() && sub[t] == x;
                            if t < k {
                                assert(fps@.subrange(0, k as int)[t] == x);
                                assert(fps@.subrange(0, k as int).contains(x));
                            } else {
                                assert(x == fp);
                            }
                        }
                    }
                    k = k + 1;
                    continue;
                },
            };
            proof {
                assert(list@ == self.postings@[fp]@);
                assert(list_ok(list@, gf, n as int, 0, fp));
            }
            let mut j: usize = 0;
            while j < list.len()
                invariant
                    n == base@.len() < u32::MAX,
                    forall|q: int| 0 <= q < n ==> #[trigger] gf[q] == base@[q].fingerprints@,
                    k < fps@.len(),
                    fp == fps@[k as int],
                    list_ok(list@, gf, n as int, 0, fp),
                    j <= list@.len(),
                    forall|x: u32| seen@.contains(x) <==> c@.contains(x),
                    forall|i: int, j: int| 0 <= i < j < c@.len() ==> c@[i] != c@[j],
                    forall|i: int|
                        0 <= i < c@.len() ==> (#[trigger] c@[i]) < n && shares(fps@, gf[c@[i] as int]),
                    forall|q: int, x: u64|
                        0 <= q < n && fps@.subrange(0, k as int).contains(x) && #[trigger] gf[q].contains(
                            x,
                        ) ==> c@.contains(q as u32),
                    forall|t: int| 0 <= t < j ==> c@.contains(#[trigger] list@[t]),
                decreases list@.len() - j,
            {
                let q = list[j];
                proof {
                    assert(list@[j as int] == q);
                    assert(gf[q as int].contains(fp));
                    assert(q < n) by {
                        if q == n {
                            assert(gf[n as int].subrange(0, 0).len() == 0);
                        }
                    }
                    assert(fps@.contains(fp)) by {
                        assert(fps@[k as int] == fp);
                    }
                    assert(shares(fps@, gf[q as int]));
                }
                let ghost old_c = c@;
                if !seen.contains(&q) {
                    seen.insert(q);
                    c.push(q);
                    proof {
                        assert forall|x: u32| old_c.contains(x) implies c@.contains(x) by {
                            let t = choose|t: int| 0 <= t < old_c.len() && old_c[t] == x;
                            assert(c@[t] == x);
                        }
                        assert(c@[c@.len() - 1] == q);
                        assert forall|x: u32| seen@.contains(x) <==> c@.contains(x) by {
                            if c@.contains(x) && x != q {
                                let t = choose|t: int| 0 <= t < c@.len() && c@[t] == x;
                                assert(old_c[t] == x);
                            }
                        }
                    }
                }
                proof {
                    assert(c@.contains(q));
                    assert forall|t: int| 0 <= t < j + 1 implies c@.contains(#[trigger] list@[t]) by {
                        if t < j {
                            assert(old_c.contains(list@[t]));
                            let u = choose|u: int| 0 <= u < old_c.len() && old_c[u] == list@[t];
                            assert(c@[u] == list@[t]);
                        }
                    }
                }
                j = j + 1;
            }
            proof {
                assert forall|q: int, x: u64|
                    0 <= q < n && fps@.subrange(0, k + 1).contains(x) && #[trigger] gf[q].contains(x)
                        implies c@.contains(q as u32) by {
                    let sub = fps@.subrange(0, k + 1);
                    let t = choose|t: int| 0 <= t < sub.len() && sub[t] == x;
                    if t < k {
                        assert(fps@.subrange(0, k as int)[t] == x);
                        assert(fps@.subrange(0, k as int).contains(x));
                    } else {
                        assert(x == fp);
                        assert(self.postings@.contains_key(fp));
                        assert(self.postings@[fp]@.contains(q as u32));
                        let u = choose|u: int| 0 <= u < list@.len() && list@[u] == q as u32;
                        assert(c@.contains(list@[u]));
                    }
                }
            }
            k = k + 1;
        }
        proof {
            assert(fps@.subrange(0, fps@.len() as int) =~= fps@);
            assert forall|q: int| 0 <= q < n && shares(fps@, (#[trigger] base@[q]).fingerprints@) implies c@.contains(
                q as u32,
            ) by {
                let x = choose|x: u64| fps@.contains(x) && base@[q].fingerprints@.contains(x);
                assert(gf[q] == base@[q].fingerprints@);
                assert(fps@.subrange(0, fps@.len() as int).contains(x));
            }
        }
        c
    }
}

/// The shared count and union size of two fingerprint lists.
pub open spec fn shared_of(a: Seq<u64>, b: Seq<u64>) -> nat {
    shared_count(a, b)
}

pub open spec fn union_of(a: Seq<u64>, b: Seq<u64>) -> nat {
    (a.len() + b.len() - shared_count(a, b)) as nat
}

/// `b` duplicates `a`: they share a fingerprint and their Jaccard
/// similarity reaches `t` millionths.
pub open spec fn dup_of(a: Seq<u64>, b: Seq<u64>, t: u32) -> bool {
    shared_of(a, b) >= 1 && meets_ppm(shared_of(a, b) as int, union_of(a, b) as int, t)
}

proof fn lemma_shared_bounds(a: Seq<u64>, b: Seq<u64>)
    ensures
        shared_of(a, b) <= a.len(),
        shared_of(a, b) <= b.len(),
        shared_of(a, b) >= 1 ==> union_of(a, b) >= 1,
{
    broadcast use vstd::seq_lib::seq_to_set_is_finite;
    vstd::set_lib::lemma_len_intersect(a.to_set(), b.to_set());
    vstd::set_lib::lemma_len_intersect(b.to_set(), a.to_set());
    assert(a.to_set().intersect(b.to_set()) =~= b.to_set().intersect(a.to_set()));
    a.lemma_cardinality_of_set();
    b.lemma_cardinality_of_set();
}

/// The best base function for a changed function: its position and how
/// many fingerprints the two share out of how many in their union.
#[derive(Clone, Copy, Debug, PartialEq, Eq, Structural)]
pub struct Match {
    pub id: u32,
    pub shared: u64,
    pub union: u64,
}

/// `m` is the most similar duplicate of `fps` among `base` (the earliest
/// on a tie), or `None` when `base` holds no duplicate.
pub open spec fn best_of(base: Seq<FunctionUnit>, fps: Seq<u64>, t: u32, m: Option<Match>) -> bool {
    match m {
        Some(m) => {
            let b = base[m.id as int].fingerprints@;
            &&& m.id < base.len()
            &&& dup_of(fps, b, t)
            &&& m.shared == shared_of(fps, b)
            &&& m.union == union_of(fps, b)
            &&& forall|j: int|
                0 <= j < base.len() && dup_of(fps, (#[trigger] base[j]).fingerprints@, t) ==> {
                    let o = base[j].fingerprints@;
                    &&& !more_similar(shared_of(fps, o), union_of(fps, o), shared_of(fps, b), union_of(fps, b))
                    &&& (!more_similar(shared_of(fps, b), union_of(fps, b), shared_of(fps, o), union_of(fps, o))
                        ==> m.id <= j)
                }
        },
        None => forall|j: int| 0 <= j < base.len() ==> !dup_of(fps, (#[trigger] base[j]).fingerprints@, t),
    }
}

/// The base function `fps` duplicates most closely, at similarity
/// `threshold` millionths or more; on a tie the earliest one.
pub fn best_match(base: &[FunctionUnit], index: &BaseIndex, fps: &Vec<u64>, threshold: u32) -> (m: Option<Match>)
    requires
        base_ok(base@),
        index.indexes(base@),
        strictly_increasing(fps@),
        fps@.len() <= max_fps(),
    ensures
        best_of(base@, fps@, threshold, m),
{
    let cands = index.sharing(base, fps);
    let ghost n = base@.len();
    let mut best: Option<Match> = None;
    let mut i: usize = 0;
    while i < cands.len()
        invariant
            n == base@.len(),
            base_ok(base@),
            strictly_increasing(fps@),
            fps@.len() <= max_fps(),
            i <= cands@.len(),
            forall|a: int, b: int| 0 <= a < b < cands@.len() ==> cands@[a] != cands@[b],
            forall|a: int| 0 <= a < cands@.len() ==> (#[trigger] cands@[a]) < n,
            match best {
                Some(m) => {
                    let b = base@[m.id as int].fingerprints@;
                    &&& m.id < n
                    &&& m.shared <= fps@.len()
                    &&& m.union <= fps@.len() + max_fps()
                    &&& cands@.subrange(0, i as int).contains(m.id)
                    &&& dup_of(fps@, b, threshold)
                    &&& m.shared == shared_of(fps@, b)
                    &&& m.union == union_of(fps@, b)
                    &&& forall|a: int|
                        0 <= a < i && dup_of(fps@, base@[#[trigger] cands@[a] as int].fingerprints@, threshold) ==> {
                            let o = base@[cands@[a] as int].fingerprints@;
                            &&& !more_similar(shared_of(fps@, o), union_of(fps@, o), shared_of(fps@, b), union_of(fps@, b))
                            &&& (!more_similar(shared_of(fps@, b), union_of(fps@, b), shared_of(fps@, o), union_of(fps@, o))
                                ==> m.id <= cands@[a])
                        }
                },
                None => forall|a: int| 0 <= a < i ==> !dup_of(fps@, base@[#[trigger] cands@[a] as int].fingerprints@, threshold),
            },
        decreases cands@.len() - i,
    {
        let id = cands[i];
        let other = &base[id as usize].fingerprints;
        let (c, u) = overlap(fps, other);
        let ghost o = other@;
        assert(o.len() <= max_fps());
        if c >= 1 && meets_threshold(c, u, threshold) {
            let replace = match best {
                None => true,
                Some(m) => {

                    assert(c * (m.union as u128) <= max_fps() * (2 * max_fps())) by (nonlinear_arith)
                        requires
                            c <= max_fps(),
                            m.union <= 2 * max_fps(),
                    ;
                    assert((m.shared as u128) * u <= max_fps() * (2 * max_fps())) by (nonlinear_arith)
                        requires
                            m.shared <= max_fps(),
                            u <= 2 * max_fps(),
                    ;
                    let lhs = c * (m.union as u128);
                    let rhs = (m.shared as u128) * u;
                    lhs > rhs || (lhs == rhs && id < m.id)
                },
            };
            if replace {
                proof {
                    match best {
                        Some(m) => {
                            let b = base@[m.id as int].fingerprints@;
                            assert forall|a: int|
                                0 <= a < i && dup_of(fps@, base@[#[trigger] cands@[a] as int].fingerprints@, threshold) implies {
                                    let oa = base@[cands@[a] as int].fingerprints@;
                                    &&& !more_similar(shared_of(fps@, oa), union_of(fps@, oa), shared_of(fps@, o), union_of(fps@, o))
                                    &&& (!more_similar(shared_of(fps@, o), union_of(fps@, o), shared_of(fps@, oa), union_of(fps@, oa))
                                        ==> id <= cands@[a])
                                } by {
                                let oa = base@[cands@[a] as int].fingerprints@;
                                lemma_shared_bounds(fps@, oa);
                                lemma_shared_bounds(fps@, b);
                                lemma_shared_bounds(fps@, o);
                                lemma_ratio_order(
                                    shared_of(fps@, oa), union_of(fps@, oa),
                                    shared_of(fps@, b), union_of(fps@, b),
                                    shared_of(fps@, o), union_of(fps@, o),
                                );
                                lemma_ratio_order(
                                    shared_of(fps@, o), union_of(fps@, o),
                                    shared_of(fps@, b), union_of(fps@, b),
                                    shared_of(fps@, oa), union_of(fps@, oa),
                                );
                                lemma_ratio_order(
                                    shared_of(fps@, b), union_of(fps@, b),
                                    shared_of(fps@, o), union_of(fps@, o),
                                    shared_of(fps@, oa), union_of(fps@, oa),
                                );
                            }
                        },
                        None => {},
                    }
                }
                assert(c <= max_fps());
                assert(u <= 2 * max_fps());
                best = Some(Match { id, shared: c as u64, union: u as u64 });
            }
        }
        proof {
            let sub = cands@.subrange(0, i + 1);
            assert(sub[i as int] == id);
            match best {
                Some(m) => {
                    if m.id != id {
                        let t = choose|t: int| 0 <= t < i && cands@.subrange(0, i as int)[t] == m.id;
                        assert(sub[t] == m.id);
                    }
                },
                None => {},
            }
        }
        i = i + 1;
    }
    proof {
        match best {
            Some(m) => {
                let b = base@[m.id as int].fingerprints@;
                assert forall|j: int|
                    0 <= j < n && dup_of(fps@, (#[trigger] base@[j]).fingerprints@, threshold) implies {
                        let o = base@[j].fingerprints@;
                        &&& !more_similar(shared_of(fps@, o), union_of(fps@, o), shared_of(fps@, b), union_of(fps@, b))
                        &&& (!more_similar(shared_of(fps@, b), union_of(fps@, b), shared_of(fps@, o), union_of(fps@, o))
                            ==> m.id <= j)
                    } by {
                    lemma_shares_iff_shared_count(fps@, base@[j].fingerprints@);
                    assert(cands@.contains(j as u32));
                    let a = choose|a: int| 0 <= a < cands@.len() && cands@[a] == j as u32;
                    assert(dup_of(fps@, base@[cands@[a] as int].fingerprints@, threshold));
                }
            },
            None => {
                assert forall|j: int| 0 <= j < n implies !dup_of(fps@, (#[trigger] base@[j]).fingerprints@, threshold) by {
                    lemma_shares_iff_shared_count(fps@, base@[j].fingerprints@);
                    if dup_of(fps@, base@[j].fingerprints@, threshold) {
                        assert(cands@.contains(j as u32));
                        let a = choose|a: int| 0 <= a < cands@.len() && cands@[a] == j as u32;
                        assert(dup_of(fps@, base@[cands@[a] as int].fingerprints@, threshold));
                    }
                }
            },
        }
    }
    best
}

/// A changed function only fires when it duplicates base code this
/// strongly (millionths) and its original is still in place.
pub const MOVE_EQUIVALENCE_PPM: u32 = 900_000;

/// The function spanning lines `start ..= end` touches one of the changed
/// ranges.
pub open spec fn touches(hunks: Seq<(u32, u32)>, start: u32, end: u32) -> bool {
    exists|k: int| 0 <= k < hunks.len() && start <= (#[trigger] hunks[k]).1 && hunks[k].0 <= end
}

fn touches_exec(hunks: &[(u32, u32)], start: u32, end: u32) -> (r: bool)
    ensures
        r == touches(hunks@, start, end),
{
    let mut k: usize = 0;
    while k < hunks.len()
        invariant
            k <= hunks@.len(),
            forall|j: int| 0 <= j < k ==> !(start <= (#[trigger] hunks@[j]).1 && hunks@[j].0 <= end),
        decreases hunks@.len() - k,
    {
        let (a, b) = hunks[k];
        if start <= b && a <= end {
            return true;
        }
        k = k + 1;
    }
    false
}

/// Every base function names a known file.
pub open spec fn files_ok(base: Seq<FunctionUnit>, base_files: Seq<String>) -> bool {
    forall|i: int| 0 <= i < base.len() ==> (#[trigger] base[i]).file < base_files.len()
}

/// The match is the changed function itself, edited where it stood: same
/// file, same name.
pub open spec fn edited_in_place(
    base: Seq<FunctionUnit>,
    base_files: Seq<String>,
    m: Match,
    path: Seq<char>,
    name: Seq<char>,
) -> bool {
    let f = base[m.id as int];
    base_files[f.file as int]@ == path && f.name@ == name
}

/// The base function a changed function in `path` is reported against:
/// it touches a changed range, has a best duplicate in the base, and that
/// duplicate is not the function itself edited in place.
pub fn probe_changed(
    func: &FunctionUnit,
    path: &str,
    hunks: &[(u32, u32)],
    base: &[FunctionUnit],
    base_files: &[String],
    index: &BaseIndex,
    threshold: u32,
) -> (r: Option<Match>)
    requires
        base_ok(base@),
        files_ok(base@, base_files@),
        index.indexes(base@),
        strictly_increasing(func.fingerprints@),
        func.fingerprints@.len() <= max_fps(),
    ensures
        match r {
            Some(m) => {
                &&& touches(hunks@, func.start_line, func.end_line)
                &&& best_of(base@, func.fingerprints@, threshold, Some(m))
                &&& !edited_in_place(base@, base_files@, m, path@, func.name@)
            },
            None => {
                ||| !touches(hunks@, func.start_line, func.end_line)
                ||| best_of(base@, func.fingerprints@, threshold, None)
                ||| exists|m: Match|
                    best_of(base@, func.fingerprints@, threshold, Some(m)) && edited_in_place(
                        base@,
                        base_files@,
                        m,
                        path@,
                        func.name@,
                    )
            },
        },
{
    if !touches_exec(hunks, func.start_line, func.end_line) {
        return None;
    }
    match best_match(base, index, &func.fingerprints, threshold) {
        None => None,
        Some(m) => {
            let f = &base[m.id as usize];
            let base_path = &base_files[f.file as usize];
            let here = path.to_string();
            let same_file = base_path.eq(&here);
            let same_name = f.name.eq(&func.name);
            if same_file && same_name {
                assert(best_of(base@, func.fingerprints@, threshold, Some(m)) && edited_in_place(
                    base@,
                    base_files@,
                    m,
                    path@,
                    func.name@,
                ));
                None
            } else {
                Some(m)
            }
        },
    }
}

/// No new-side function of the original's file still matches the original
/// closely: the original was moved away, so the hit is the move itself.
pub open spec fn original_gone(originals: Seq<FunctionUnit>, original: Seq<u64>) -> bool {
    forall|i: int|
        0 <= i < originals.len() ==> !meets_ppm(
            shared_of((#[trigger] originals[i]).fingerprints@, original) as int,
            union_of(originals[i].fingerprints@, original) as int,
            MOVE_EQUIVALENCE_PPM,
        )
}

/// Whether the original (with fingerprints `original`) is gone from the
/// new version of its file, whose functions are `originals`.
pub fn moved_away(originals: &[FunctionUnit], original: &Vec<u64>) -> (r: bool)
    requires
        strictly_increasing(original@),
        forall|i: int| 0 <= i < originals@.len() ==> strictly_increasing((#[trigger] originals@[i]).fingerprints@),
    ensures
        r == original_gone(originals@, original@),
{
    let mut i: usize = 0;
    while i < originals.len()
        invariant
            i <= originals@.len(),
            strictly_increasing(original@),
            forall|j: int| 0 <= j < originals@.len() ==> strictly_increasing((#[trigger] originals@[j]).fingerprints@),
            forall|j: int|
                0 <= j < i ==> !meets_ppm(
                    shared_of((#[trigger] originals@[j]).fingerprints@, original@) as int,
                    union_of(originals@[j].fingerprints@, original@) as int,
                    MOVE_EQUIVALENCE_PPM,
                ),
        decreases originals@.len() - i,
    {
        let (c, u) = overlap(&originals[i].fingerprints, original);
        if meets_threshold(c, u, MOVE_EQUIVALENCE_PPM) {
            return false;
        }
        i = i + 1;
    }
    true
}

/// A changed function that duplicates existing code, with the original to
/// reuse; the similarity is `shared / union`.
pub struct Finding {
    pub file: String,
    pub line: u32,
    pub name: String,
    pub shared: u64,
    pub union: u64,
    pub original_file: String,
    pub original_line: u32,
    pub original_name: String,
    /// The import/use line that brings the original into scope, when the
    /// language has one derivable from the path.
    pub suggestion: Option<String>,
}

/// The suggestion for reusing `name` from `file` in `from`.
pub open spec fn reuse_hint(file: Seq<char>, name: Seq<char>, from: Seq<char>) -> Option<Seq<char>> {
    match lang_of_path(file) {
        Some(lang) => suggestion_text(lang, file, name, from),
        None => None,
    }
}

/// The finding for changed function `func` of `path` matched by `m`.
pub fn finding(
    path: &str,
    func: &FunctionUnit,
    m: Match,
    base: &[FunctionUnit],
    base_files: &[String],
) -> (f: Finding)
    requires
        m.id < base@.len(),
        files_ok(base@, base_files@),
    ensures
        f.file@ == path@,
        f.line == func.start_line,
        f.name@ == func.name@,
        f.shared == m.shared,
        f.union == m.union,
        f.original_file@ == base_files@[base@[m.id as int].file as int]@,
        f.original_line == base@[m.id as int].start_line,
        f.original_name@ == base@[m.id as int].name@,
        match f.suggestion {
            Some(s) => reuse_hint(f.original_file@, f.original_name@, path@) == Some(s@),
            None => reuse_hint(f.original_file@, f.original_name@, path@) is None,
        },
{
    let b = &base[m.id as usize];
    let original_file = base_files[b.file as usize].clone();
    let suggestion = match Lang::from_path(original_file.as_str()) {
        Some(lang) => import_suggestion(lang, original_file.as_str(), b.name.as_str(), path),
        None => None,
    };
    Finding {
        file: path.to_string(),
        line: func.start_line,
        name: func.name.clone(),
        shared: m.shared,
        union: m.union,
        original_file,
        original_line: b.start_line,
        original_name: b.name.clone(),
        suggestion,
    }
}

/// `a` comes before `b` in lexicographic (code point) order, as `str`
/// orders.
pub open spec fn chars_lt(a: Seq<char>, b: Seq<char>) -> bool
    decreases a.len(),
{
    if a.len() == 0 {
        b.len() > 0
    } else if b.len() == 0 {
        false
    } else if a[0] != b[0] {
        a[0] < b[0]
    } else {
        chars_lt(a.drop_first(), b.drop_first())
    }
}

/// `chars_lt` is a strict total order.
pub proof fn lemma_chars_lt_facts(a: Seq<char>, b: Seq<char>, c: Seq<char>)
    ensures
        !(chars_lt(a, b) && chars_lt(b, a)),
        !chars_lt(a, a),
        a != b ==> chars_lt(a, b) || chars_lt(b, a),
        chars_lt(a, b) && chars_lt(b, c) ==> chars_lt(a, c),
{
    lemma_chars_lt_basic(a, b);
    lemma_chars_lt_trans(a, b, c);
}

proof fn lemma_chars_lt_basic(a: Seq<char>, b: Seq<char>)
    ensures
        !(chars_lt(a, b) && chars_lt(b, a)),
        !chars_lt(a, a),
        a != b ==> chars_lt(a, b) || chars_lt(b, a),
    decreases a.len(),
{
    if a.len() > 0 {
        lemma_chars_lt_basic(a.drop_first(), a.drop_first());
    }
    if a.len() > 0 && b.len() > 0 {
        lemma_chars_lt_basic(a.drop_first(), b.drop_first());
        if a != b && a[0] == b[0] {
            assert(a.drop_first() != b.drop_first()) by {
                if a.drop_first() == b.drop_first() {
                    assert(a =~= seq![a[0]] + a.drop_first());
                    assert(b =~= seq![b[0]] + b.drop_first());
                }
            }
        }
    }
    if a.len() == 0 && b.len() == 0 {
        assert(a =~= b);
    }
}

proof fn lemma_chars_lt_trans(a: Seq<char>, b: Seq<char>, c: Seq<char>)
    ensures
        chars_lt(a, b) && chars_lt(b, c) ==> chars_lt(a, c),
    decreases a.len(),
{
    if a.len() > 0 && b.len() > 0 && c.len() > 0 {
        lemma_chars_lt_trans(a.drop_first(), b.drop_first(), c.drop_first());
    }
}

/// Findings order by file, then line.
pub open spec fn finding_le(x: Finding, y: Finding) -> bool {
    chars_lt(x.file@, y.file@) || (x.file@ == y.file@ && x.line <= y.line)
}

pub open spec fn findings_sorted(s: Seq<Finding>) -> bool {
    forall|i: int, j: int| 0 <= i < j < s.len() ==> finding_le(#[trigger] s[i], #[trigger] s[j])
}

proof fn lemma_finding_order(x: Finding, y: Finding, z: Finding)
    ensures
        finding_le(x, y) || finding_le(y, x),
        finding_le(x, y) && finding_le(y, z) ==> finding_le(x, z),
{
    lemma_chars_lt_basic(x.file@, y.file@);
    lemma_chars_lt_basic(y.file@, z.file@);
    lemma_chars_lt_basic(x.file@, z.file@);
    lemma_chars_lt_trans(x.file@, y.file@, z.file@);
}

pub(crate) fn chars_lt_exec(a: &[char], b: &[char]) -> (r: bool)
    ensures
        r == chars_lt(a@, b@),
{
    let mut i: usize = 0;
    proof {
        assert(a@.subrange(0, a@.len() as int) =~= a@);
        assert(b@.subrange(0, b@.len() as int) =~= b@);
    }
    while i < a.len() && i < b.len() && a[i] == b[i]
        invariant
            i <= a@.len(),
            i <= b@.len(),
            chars_lt(a@, b@) == chars_lt(a@.subrange(i as int, a@.len() as int), b@.subrange(i as int, b@.len() as int)),
        decreases a@.len() - i,
    {
        proof {
            let sa = a@.subrange(i as int, a@.len() as int);
            let sb = b@.subrange(i as int, b@.len() as int);
            assert(sa.drop_first() =~= a@.subrange(i + 1, a@.len() as int));
            assert(sb.drop_first() =~= b@.subrange(i + 1, b@.len() as int));
        }
        i = i + 1;
    }
    proof {
        assert(a@.subrange(0, a@.len() as int) =~= a@);
        assert(b@.subrange(0, b@.len() as int) =~= b@);
    }
    if i == a.len() {
        i < b.len()
    } else if i == b.len() {
        false
    } else {
        a[i] < b[i]
    }
}

/// Findings at `file`, `line`.
pub open spec fn key_pred(file: Seq<char>, line: u32) -> spec_fn(Finding) -> bool {
    |f: Finding| f.file@ == file && f.line == line
}

/// The findings at `file`, `line`, in their order in `s`.
pub open spec fn at_key(s: Seq<Finding>, file: Seq<char>, line: u32) -> Seq<Finding> {
    s.filter(key_pred(file, line))
}

proof fn lemma_at_key_single(x: Finding, file: Seq<char>, line: u32)
    ensures
        at_key(seq![x], file, line) == if x.file@ == file && x.line == line {
            seq![x]
        } else {
            Seq::<Finding>::empty()
        },
{
    let e = Seq::<Finding>::empty();
    e.lemma_filter_push(x, key_pred(file, line));
    assert(seq![x] =~= e.push(x));
    assert(e.filter(key_pred(file, line)) =~= e) by {
        broadcast use vstd::seq_lib::group_filter_ensures;
    }
    assert(e.push(x) =~= seq![x]);
}

proof fn lemma_at_key_none(s: Seq<Finding>, file: Seq<char>, line: u32)
    requires
        forall|i: int| 0 <= i < s.len() ==> !(#[trigger] s[i].file@ == file && s[i].line == line),
    ensures
        at_key(s, file, line) == Seq::<Finding>::empty(),
{
    broadcast use vstd::seq_lib::group_filter_ensures;

    let f = s.filter(key_pred(file, line));
    if f.len() > 0 {
        assert(key_pred(file, line)(f[0]));
        assert(f.contains(f[0]));
        s.lemma_filter_contains_rev(key_pred(file, line), f[0]);
        let i = choose|i: int| 0 <= i < s.len() && s[i] == f[0];
        assert(s[i].file@ == file && s[i].line == line);
    }
    assert(f =~= Seq::<Finding>::empty());
}

/// Inserting `x` after everything not greater than it keeps, for every
/// key, the findings of that key in order.
proof fn lemma_insert_keeps_order(
    before: Seq<Finding>,
    j: int,
    x: Finding,
    rest: Seq<Finding>,
    file: Seq<char>,
    line: u32,
)
    requires
        0 <= j <= before.len(),
        forall|k: int| j <= k < before.len() ==> !finding_le(#[trigger] before[k], x),
    ensures
        at_key(before.insert(j, x), file, line) + at_key(rest, file, line) == at_key(before, file, line)
            + at_key(seq![x] + rest, file, line),
{
    let p = key_pred(file, line);
    let pre = before.subrange(0, j);
    let post = before.subrange(j, before.len() as int);
    assert(before.insert(j, x) =~= pre + seq![x] + post);
    assert(before =~= pre + post);
    Seq::filter_distributes_over_add(pre + seq![x], post, p);
    Seq::filter_distributes_over_add(pre, seq![x], p);
    Seq::filter_distributes_over_add(pre, post, p);
    Seq::filter_distributes_over_add(seq![x], rest, p);
    lemma_at_key_single(x, file, line);
    if x.file@ == file && x.line == line {
        assert forall|i: int| 0 <= i < post.len() implies !(#[trigger] post[i].file@ == file && post[i].line
            == line) by {
            assert(post[i] == before[j + i]);
            assert(!finding_le(before[j + i], x));
        }
        lemma_at_key_none(post, file, line);
        assert(at_key(before.insert(j, x), file, line) + at_key(rest, file, line) =~= at_key(before, file, line)
            + at_key(seq![x] + rest, file, line));
    } else {
        assert(at_key(before.insert(j, x), file, line) + at_key(rest, file, line) =~= at_key(before, file, line)
            + at_key(seq![x] + rest, file, line));
    }
}

/// The findings ordered by file, then line; findings at the same file
/// and line keep their order (a stable sort).
pub fn sort_findings(findings: Vec<Finding>) -> (sorted: Vec<Finding>)
    ensures
        findings_sorted(sorted@),
        sorted@.to_multiset() == findings@.to_multiset(),
        forall|file: Seq<char>, line: u32| #[trigger] at_key(sorted@, file, line) == at_key(findings@, file, line),
{
    broadcast use vstd::seq_lib::group_to_multiset_ensures;
    broadcast use vstd::multiset::group_multiset_axioms;

    let mut rest = findings;
    let mut out: Vec<Finding> = Vec::new();
    let ghost whole = rest@.to_multiset();
    let ghost input = rest@;
    proof {
        assert forall|file: Seq<char>, line: u32| #[trigger] at_key(input, file, line) == at_key(out@, file, line)
            + at_key(rest@, file, line) by {
            lemma_at_key_none(out@, file, line);
            assert(Seq::<Finding>::empty() + at_key(rest@, file, line) =~= at_key(rest@, file, line));
        }
    }
    while rest.len() > 0
        invariant
            findings_sorted(out@),
            out@.to_multiset().add(rest@.to_multiset()) == whole,
            forall|file: Seq<char>, line: u32| #[trigger] at_key(input, file, line) == at_key(out@, file, line)
                + at_key(rest@, file, line),
        decreases rest@.len(),
    {
        let ghost rest0 = rest@;
        proof {
            vstd::seq_lib::to_multiset_remove(rest0, 0);
            vstd::seq_lib::to_multiset_contains(rest0, rest0[0]);
            assert(rest0.contains(rest0[0]));
        }
        let x = rest.remove(0);
        let xf = chars_of(x.file.as_str());
        let mut j = out.len();
        while j > 0
            invariant
                j <= out@.len(),
                findings_sorted(out@),
                xf@ == x.file@,
                forall|k: int| j <= k < out@.len() ==> !finding_le(#[trigger] out@[k], x),
            ensures
                j <= out@.len(),
                forall|k: int| j <= k < out@.len() ==> !finding_le(#[trigger] out@[k], x),
                j > 0 ==> finding_le(out@[j - 1], x),
            decreases j,
        {
            let yf = chars_of(out[j - 1].file.as_str());
            let lt = chars_lt_exec(yf.as_slice(), xf.as_slice());
            let same = crate::text::chars_eq(yf.as_slice(), xf.as_slice());
            if lt || (same && out[j - 1].line <= x.line) {
                break;
            }
            j = j - 1;
        }
        let ghost before = out@;
        proof {
            vstd::seq_lib::to_multiset_insert(before, j as int, x);
            assert forall|a: int, b: int| 0 <= a < b < before.len() + 1 implies finding_le(
                #[trigger] before.insert(j as int, x)[a],
                #[trigger] before.insert(j as int, x)[b],
            ) by {
                let s2 = before.insert(j as int, x);
                if a < j && b == j {
                    lemma_finding_order(before[a], before[j - 1], x);
                    if a < j - 1 {
                        assert(finding_le(before[a], before[j - 1]));
                    }
                } else if a == j && b > j {
                    assert(s2[b] == before[b - 1]);
                    lemma_finding_order(before[b - 1], x, x);
                } else if a < j && b > j {
                    assert(s2[b] == before[b - 1]);
                } else if a > j {
                    assert(s2[a] == before[a - 1]);
                    assert(s2[b] == before[b - 1]);
                }
            }
        }
        out.insert(j, x);
        proof {
            assert(out@.to_multiset().add(rest@.to_multiset()) =~= whole);
            assert(rest0 =~= seq![x] + rest@);
            assert forall|file: Seq<char>, line: u32| #[trigger] at_key(input, file, line) == at_key(out@, file, line)
                + at_key(rest@, file, line) by {
                lemma_insert_keeps_order(before, j as int, x, rest@, file, line);
                assert(at_key(before, file, line) + at_key(rest0, file, line) == at_key(input, file, line));
                assert(at_key(before, file, line) + at_key(seq![x] + rest@, file, line) == at_key(input, file, line));
            }
        }
    }
    proof {
        assert forall|file: Seq<char>, line: u32| #[trigger] at_key(out@, file, line) == at_key(input, file, line) by {
            lemma_at_key_none(rest@, file, line);
            assert(at_key(out@, file, line) + Seq::<Finding>::empty() =~= at_key(out@, file, line));
        }
    }
    out
}

/// `files` with every path of `paths` marked changed throughout.
pub open spec fn with_untracked(
    files: Seq<(Seq<char>, Seq<(u32, u32)>)>,
    paths: Seq<Seq<char>>,
) -> Seq<(Seq<char>, Seq<(u32, u32)>)>
    decreases paths.len(),
{
    if paths.len() == 0 {
        files
    } else {
        let before = with_untracked(files, paths.drop_last());
        if paths.last().len() == 0 {
            before
        } else {
            add_hunk(before, paths.last(), (1u32, u32::MAX))
        }
    }
}

/// Brand-new untracked files, one per line of `git ls-files --others`
/// output, count as changed from their first line to the last: `git diff
/// HEAD` does not list them.
pub fn add_untracked(files: &mut Vec<ChangedFile>, listing: &str)
    ensures
        changed_view(final(files)@) == with_untracked(changed_view(old(files)@), lines_of(listing@)),
{
    let cs = chars_of(listing);
    let lines = lines_chars(cs.as_slice());
    let ghost ls = lines_of(listing@);
    let ghost start = changed_view(files@);
    let mut i: usize = 0;
    while i < lines.len()
        invariant
            i <= lines@.len(),
            views(lines@) == ls,
            changed_view(files@) == with_untracked(start, ls.subrange(0, i as int)),
        decreases lines@.len() - i,
    {
        let path = &lines[i];
        let ghost pre = ls.subrange(0, i as int);
        let ghost nxt = ls.subrange(0, i + 1);
        proof {
            assert(nxt.drop_last() =~= pre);
            assert(nxt.last() == path@);
        }
        if path.len() > 0 {
            let h: (u32, u32) = (1, u32::MAX);
            let ghost fv = changed_view(files@);
            match find_file(files, path) {
                Some(k) => {
                    proof {
                        lemma_file_index(fv, path@);
                    }
                    files[k].hunks.push(h);
                    proof {
                        assert(changed_view(files@) =~= fv.update(k as int, (path@, fv[k as int].1.push(h))));
                    }
                },
                None => {
                    let mut hs: Vec<(u32, u32)> = Vec::new();
                    hs.push(h);
                    files.push(ChangedFile { path: string_of(path.as_slice()), hunks: hs });
                    proof {
                        assert(hs@ =~= seq![h]);
                        assert(changed_view(files@) =~= fv.push((path@, seq![h])));
                    }
                },
            }
        }
        i = i + 1;
    }
    assert(ls.subrange(0, ls.len() as int) =~= ls);
}

/// The best match is determined by its input: same base, same changed
/// function, same threshold, same verdict.
pub proof fn lemma_best_match_unique(base: Seq<FunctionUnit>, fps: Seq<u64>, t: u32, m1: Option<Match>, m2: Option<Match>)
    requires
        best_of(base, fps, t, m1),
        best_of(base, fps, t, m2),
    ensures
        m1 == m2,
{
    match (m1, m2) {
        (Some(x), Some(y)) => {
            let bx = base[x.id as int].fingerprints@;
            let by = base[y.id as int].fingerprints@;
            assert(dup_of(fps, base[y.id as int].fingerprints@, t));
            assert(dup_of(fps, base[x.id as int].fingerprints@, t));
            assert(x.id <= y.id);
            assert(y.id <= x.id);
        },
        (Some(x), None) => {
            assert(dup_of(fps, base[x.id as int].fingerprints@, t));
        },
        (None, Some(y)) => {
            assert(dup_of(fps, base[y.id as int].fingerprints@, t));
        },
        (None, None) => {},
    }
}

/// A changed file is probed for duplicates when it is in a supported
/// language and is neither under a built-in exclusion nor a test file.
pub open spec fn probed_path(path: Seq<char>) -> bool {
    lang_of_path(path) is Some && !excluded_path(path) && !test_path(path)
}

pub fn is_probed(path: &str) -> (r: bool)
    ensures
        r == probed_path(path@),
{
    Lang::from_path(path).is_some() && !default_excluded(path) && !is_test_path(path)
}

/// A file of the base revision is indexed when a snapshot would read it
/// and it is not a test file.
pub open spec fn base_indexed(path: Seq<char>, default_excludes: bool) -> bool {
    snapshot_path(path, default_excludes) && !test_path(path)
}

pub fn in_base_index(path: &str, default_excludes: bool) -> (r: bool)
    ensures
        r == base_indexed(path@, default_excludes),
{
    in_snapshot(path, default_excludes) && !is_test_path(path)
}

/// What a check compares against.
#[derive(Clone, Copy, PartialEq, Eq, Debug, Structural)]
pub enum CheckMode {
    /// The merge-base of a given revision and HEAD, up to HEAD.
    Range,
    /// The staged index against HEAD.
    Staged,
    /// The working tree against HEAD.
    Worktree,
}

/// With a revision given, the range; otherwise the staged index when `git
/// diff --cached --name-only` lists anything (`staged`, blank when not),
/// else the working tree.
pub open spec fn mode_for(has_revision: bool, staged: Seq<char>) -> CheckMode {
    if has_revision {
        CheckMode::Range
    } else if trim(staged).len() == 0 {
        CheckMode::Worktree
    } else {
        CheckMode::Staged
    }
}

pub fn check_mode(has_revision: bool, staged: &str) -> (m: CheckMode)
    ensures
        m == mode_for(has_revision, staged@),
{
    if has_revision {
        return CheckMode::Range;
    }
    let cs = chars_of(staged);
    let t = trim_chars(cs.as_slice());
    if t.len() == 0 {
        CheckMode::Worktree
    } else {
        CheckMode::Staged
    }
}

/// A function spanning lines `start ..= end` is touched exactly when some
/// changed range `(a, b)` overlaps it (`a <= end` and `start <= b`); in
/// particular a range covering a whole file, as an untracked file gets,
/// touches every function in it.
pub proof fn lemma_touched_means_overlapping(hunks: Seq<(u32, u32)>, start: u32, end: u32)
    ensures
        touches(hunks, start, end) <==> exists|k: int|
            0 <= k < hunks.len() && #[trigger] hunks[k].0 <= end && start <= hunks[k].1,
        hunks.contains((1u32, u32::MAX)) && 1 <= start <= end ==> touches(hunks, start, end),
{
    if hunks.contains((1u32, u32::MAX)) && 1 <= start <= end {
        let k = choose|k: int| 0 <= k < hunks.len() && hunks[k] == (1u32, u32::MAX);
        assert(start <= hunks[k].1 && hunks[k].0 <= end);
    }
    if exists|k: int| 0 <= k < hunks.len() && #[trigger] hunks[k].0 <= end && start <= hunks[k].1 {
        let k = choose|k: int| 0 <= k < hunks.len() && #[trigger] hunks[k].0 <= end && start <= hunks[k].1;
        assert(start <= hunks[k].1 && hunks[k].0 <= end);
    }
}

} // verus!
