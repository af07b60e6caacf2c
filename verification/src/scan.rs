//! The pure parts of `scan`: putting the per-file results together into
//! one numbered list of functions, and laying a function body out for a
//! terminal.

use vstd::prelude::*;
use unicode_width::UnicodeWidthChar;
use crate::check::chars_lt;
use crate::cluster::{build_clusters, cluster_ok, connected, funcs_of, in_some_cluster, units_ok, Cluster};
use crate::check::max_fps;
use crate::config::{TestPolicy, MIN_SHARED_PREFILTER};
use crate::extract::FunctionUnit;
use crate::fingerprint::strictly_increasing;
use crate::index::{
    culled_fps, find_pairs, group_fps, lang_ids, lemma_filter_increasing, pair_ok, same_header, survives, Pair,
};
use crate::report::Stats;
use crate::score::{checked_score, deletable_sum, grade_for, Score};
use crate::text::{chars_eq, chars_of, string_of};

verus! {

/// Display width, in columns, that `unicode-width` gives a character of
/// U+00A0 or above (from its tables).
pub uninterp spec fn table_width(c: char) -> usize;

/// Display width of `c`: `None` for control characters.
pub open spec fn char_width(c: char) -> Option<usize> {
    if '\u{20}' > c {
        None
    } else if '\u{7F}' > c {
        Some(1usize)
    } else if '\u{A0}' > c {
        None
    } else {
        Some(table_width(c))
    }
}

/// `UnicodeWidthChar::width`: control characters (below U+0020, and
/// U+007F to U+009F) have no width, printable ASCII is one column wide,
/// and the rest is looked up in the crate's tables, a `u8` widened to
/// `usize`. What the tables hold is not stated.
#[verifier::external_body]
fn width_of_char(c: char) -> (w: Option<usize>)
    ensures
        w == char_width(c),
        '\u{A0}' <= c ==> w == Some(table_width(c)),
        w matches Some(v) ==> v <= 255,
{
    c.width()
}

/// The width a wrapped line counts for `c`: control characters count 0.
pub open spec fn counted_width(c: char) -> int {
    match char_width(c) {
        Some(w) => w as int,
        None => 0,
    }
}

/// Where wrapping stands after some characters: the finished segments,
/// the segment being filled, its width, and the width it may take.
pub struct WrapState {
    pub segs: Seq<Seq<char>>,
    pub cur: Seq<char>,
    pub cur_w: int,
    pub budget: int,
}

/// Wrapping after the characters `s`: a character that would push a
/// non-empty segment past its budget starts a new segment, whose budget is
/// `cont` from then on.
pub open spec fn wrap_state(s: Seq<char>, first: int, cont: int) -> WrapState
    decreases s.len(),
{
    if s.len() == 0 {
        WrapState { segs: Seq::empty(), cur: Seq::empty(), cur_w: 0, budget: first }
    } else {
        let st = wrap_state(s.drop_last(), first, cont);
        let c = s.last();
        let cw = counted_width(c);
        if st.cur_w + cw > st.budget && st.cur.len() > 0 {
            WrapState { segs: st.segs.push(st.cur), cur: seq![c], cur_w: cw, budget: cont }
        } else {
            WrapState { segs: st.segs, cur: st.cur.push(c), cur_w: st.cur_w + cw, budget: st.budget }
        }
    }
}

/// The segments of `s`: the first capped at `first` columns, the rest at
/// `cont`, cutting on character boundaries; an empty line is one empty
/// segment.
pub open spec fn wrapped(s: Seq<char>, first: int, cont: int) -> Seq<Seq<char>> {
    let st = wrap_state(s, first, cont);
    if st.cur.len() > 0 || st.segs.len() == 0 {
        st.segs.push(st.cur)
    } else {
        st.segs
    }
}

/// Split a line into display-width-bounded segments: the first capped at
/// `first` columns, the rest at `cont`, wrapping on character boundaries
/// and measuring with Unicode display width.
pub fn wrap_to_width(s: &str, first: usize, cont: usize) -> (segs: Vec<String>)
    ensures
        segs@.len() == wrapped(s@, first as int, cont as int).len(),
        forall|i: int| 0 <= i < segs@.len() ==> (#[trigger] segs@[i])@ == wrapped(s@, first as int, cont as int)[i],
{
    let cs = chars_of(s);
    let mut segs: Vec<String> = Vec::new();
    let mut cur: Vec<char> = Vec::new();
    let mut cur_w: u128 = 0;
    let mut budget: usize = first;
    let mut i: usize = 0;
    while i < cs.len()
        invariant
            i <= cs@.len(),
            cs@ == s@,
            ({
                let st = wrap_state(cs@.subrange(0, i as int), first as int, cont as int);
                &&& segs@.len() == st.segs.len()
                &&& forall|j: int| 0 <= j < segs@.len() ==> (#[trigger] segs@[j])@ == st.segs[j]
                &&& cur@ == st.cur
                &&& cur_w == st.cur_w
                &&& budget == st.budget
            }),
            cur_w <= 255 * i,
            i <= usize::MAX,
        decreases cs@.len() - i,
    {
        let c = cs[i];
        let ghost pre = cs@.subrange(0, i as int);
        let ghost nxt = cs@.subrange(0, i + 1);
        proof {
            assert(nxt.drop_last() =~= pre);
            assert(nxt.last() == c);
        }
        let w = width_of_char(c);
        let cw: u128 = match w {
            Some(v) => v as u128,
            None => 0,
        };
        assert(cw <= 255);
        if cur_w + cw > budget as u128 && cur.len() > 0 {
            let ghost before = segs@;
            segs.push(string_of(cur.as_slice()));
            cur = Vec::new();
            cur.push(c);
            cur_w = cw;
            budget = cont;
            proof {
                assert(cur@ =~= seq![c]);
                assert forall|j: int| 0 <= j < segs@.len() implies (#[trigger] segs@[j])@ == wrap_state(nxt, first as int, cont as int).segs[j] by {
                    if j < before.len() {
                        assert(segs@[j] == before[j]);
                    }
                }
            }
        } else {
            cur.push(c);
            cur_w = cur_w + cw;
        }
        i = i + 1;
    }
    assert(cs@.subrange(0, cs@.len() as int) =~= cs@);
    if cur.len() > 0 || segs.len() == 0 {
        let ghost before = segs@;
        segs.push(string_of(cur.as_slice()));
        proof {
            assert forall|j: int| 0 <= j < segs@.len() implies (#[trigger] segs@[j])@ == wrapped(s@, first as int, cont as int)[j] by {
                if j < before.len() {
                    assert(segs@[j] == before[j]);
                }
            }
        }
    }
    segs
}

/// `s` with every tab replaced by `n` spaces.
pub open spec fn tabs_expanded(s: Seq<char>, n: nat) -> Seq<char>
    decreases s.len(),
{
    if s.len() == 0 {
        s
    } else {
        let rest = tabs_expanded(s.drop_last(), n);
        if s.last() == '\t' {
            rest + Seq::new(n, |i: int| ' ')
        } else {
            rest.push(s.last())
        }
    }
}

/// Expand tab characters to `n` spaces so wrapping and indentation line up.
pub fn expand_tabs(s: &str, n: usize) -> (r: String)
    ensures
        r@ == tabs_expanded(s@, n as nat),
{
    let cs = chars_of(s);
    let mut out: Vec<char> = Vec::new();
    let mut i: usize = 0;
    while i < cs.len()
        invariant
            i <= cs@.len(),
            cs@ == s@,
            out@ == tabs_expanded(cs@.subrange(0, i as int), n as nat),
        decreases cs@.len() - i,
    {
        let ghost pre = cs@.subrange(0, i as int);
        let ghost nxt = cs@.subrange(0, i + 1);
        proof {
            assert(nxt.drop_last() =~= pre);
        }
        if cs[i] == '\t' {
            let ghost before = out@;
            let mut k: usize = 0;
            while k < n
                invariant
                    k <= n,
                    out@ == before + Seq::new(k as nat, |j: int| ' '),
                decreases n - k,
            {
                out.push(' ');
                assert(out@ =~= before + Seq::new((k + 1) as nat, |j: int| ' '));
                k = k + 1;
            }
        } else {
            out.push(cs[i]);
        }
        i = i + 1;
    }
    assert(cs@.subrange(0, cs@.len() as int) =~= cs@);
    string_of(out.as_slice())
}

/// What was read from one file: its path relative to the scanned root,
/// its position in the caller's own list of files, its functions and line
/// counts, and whether it is a test file.
pub struct FileFunctions {
    pub rel: String,
    pub source: usize,
    pub functions: Vec<FunctionUnit>,
    pub sig_lines: u32,
    pub total_lines: u32,
    pub is_test: bool,
}

/// Files ordered by relative path.
pub open spec fn files_sorted(s: Seq<FileFunctions>) -> bool {
    forall|i: int, j: int|
        0 <= i < j < s.len() ==> !chars_lt((#[trigger] s[j]).rel@, (#[trigger] s[i]).rel@)
}

proof fn lemma_rel_order(a: Seq<char>, b: Seq<char>, c: Seq<char>)
    ensures
        !chars_lt(a, b) ==> chars_lt(b, a) || a == b,
        !chars_lt(a, b) && !chars_lt(b, c) ==> !chars_lt(a, c),
{
    crate::check::lemma_chars_lt_facts(a, b, c);
    crate::check::lemma_chars_lt_facts(c, b, a);
    crate::check::lemma_chars_lt_facts(b, c, a);
    crate::check::lemma_chars_lt_facts(a, c, b);
}

/// The files ordered by relative path.
pub fn sort_files(files: Vec<FileFunctions>) -> (sorted: Vec<FileFunctions>)
    ensures
        files_sorted(sorted@),
        sorted@.to_multiset() == files@.to_multiset(),
{
    broadcast use vstd::seq_lib::group_to_multiset_ensures;
    broadcast use vstd::multiset::group_multiset_axioms;

    let mut rest = files;
    let mut out: Vec<FileFunctions> = Vec::new();
    let ghost whole = rest@.to_multiset();
    while rest.len() > 0
        invariant
            files_sorted(out@),
            out@.to_multiset().add(rest@.to_multiset()) == whole,
        decreases rest@.len(),
    {
        let ghost rest0 = rest@;
        proof {
            vstd::seq_lib::to_multiset_remove(rest0, 0);
            vstd::seq_lib::to_multiset_contains(rest0, rest0[0]);
            assert(rest0.contains(rest0[0]));
        }
        let x = rest.remove(0);
        let xr = chars_of(x.rel.as_str());
        let mut j = out.len();
        while j > 0
            invariant
                j <= out@.len(),
                files_sorted(out@),
                xr@ == x.rel@,
                forall|k: int| j <= k < out@.len() ==> chars_lt(x.rel@, (#[trigger] out@[k]).rel@),
            ensures
                j <= out@.len(),
                forall|k: int| j <= k < out@.len() ==> chars_lt(x.rel@, (#[trigger] out@[k]).rel@),
                j > 0 ==> !chars_lt(x.rel@, out@[j - 1].rel@),
            decreases j,
        {
            let yr = chars_of(out[j - 1].rel.as_str());
            if !crate::check::chars_lt_exec(xr.as_slice(), yr.as_slice()) {
                break;
            }
            j = j - 1;
        }
        let ghost before = out@;
        proof {
            vstd::seq_lib::to_multiset_insert(before, j as int, x);
            assert forall|a: int, b: int| 0 <= a < b < before.len() + 1 implies !chars_lt(
                (#[trigger] before.insert(j as int, x)[b]).rel@,
                (#[trigger] before.insert(j as int, x)[a]).rel@,
            ) by {
                let s2 = before.insert(j as int, x);
                if b > j {
                    assert(s2[b] == before[b - 1]);
                }
                if a > j {
                    assert(s2[a] == before[a - 1]);
                }
                if a < j && b == j {
                    lemma_rel_order(x.rel@, before[j - 1].rel@, before[a].rel@);
                    if a < j - 1 {
                        assert(!chars_lt(before[j - 1].rel@, before[a].rel@));
                    }
                    lemma_rel_order(before[j - 1].rel@, before[a].rel@, x.rel@);
                }
                if a == j && b > j {
                    lemma_rel_order(x.rel@, before[b - 1].rel@, x.rel@);
                    crate::check::lemma_chars_lt_facts(x.rel@, before[b - 1].rel@, x.rel@);
                }
            }
        }
        out.insert(j, x);
        proof {
            assert(out@.to_multiset().add(rest@.to_multiset()) =~= whole);
        }
    }
    out
}

/// `v` is `u` placed in file `i`, and marked a test when the file is one.
pub open spec fn placed(u: FunctionUnit, i: int, test_file: bool, v: FunctionUnit) -> bool {
    &&& v.file == i
    &&& v.is_test == (u.is_test || test_file)
    &&& v.is_trait_impl_method == u.is_trait_impl_method
    &&& v.lang == u.lang
    &&& v.name@ == u.name@
    &&& v.start_line == u.start_line
    &&& v.end_line == u.end_line
    &&& v.start_byte == u.start_byte
    &&& v.end_byte == u.end_byte
    &&& v.sig_lines == u.sig_lines
    &&& v.fingerprints@ == u.fingerprints@
}

/// How many functions the first `i` files hold.
pub open spec fn units_before(files: Seq<FileFunctions>, i: int) -> int
    decreases i,
{
    if i <= 0 {
        0
    } else {
        units_before(files, i - 1) + files[i - 1].functions@.len()
    }
}

/// Significant and total lines of the first `i` files.
pub open spec fn sig_before(files: Seq<FileFunctions>, i: int) -> int
    decreases i,
{
    if i <= 0 {
        0
    } else {
        sig_before(files, i - 1) + files[i - 1].sig_lines
    }
}

pub open spec fn total_before(files: Seq<FileFunctions>, i: int) -> int
    decreases i,
{
    if i <= 0 {
        0
    } else {
        total_before(files, i - 1) + files[i - 1].total_lines
    }
}

/// The files put together: their names and positions in order, every
/// function numbered by the file it came from, and the line totals.
pub struct Assembly {
    pub file_names: Vec<String>,
    pub sources: Vec<usize>,
    pub functions: Vec<FunctionUnit>,
    pub total_lines: u64,
    pub sig_lines: u64,
}

proof fn lemma_before_bounds(files: Seq<FileFunctions>, i: int)
    requires
        0 <= i,
    ensures
        0 <= sig_before(files, i) <= i * 0xffff_ffff,
        0 <= total_before(files, i) <= i * 0xffff_ffff,
        0 <= units_before(files, i),
    decreases i,
{
    if i > 0 {
        lemma_before_bounds(files, i - 1);
    }
}

/// Every function of every file, numbered by file, in file order.
pub fn assemble(files: Vec<FileFunctions>) -> (a: Assembly)
    requires
        files@.len() < u32::MAX,
    ensures
        a.file_names@.len() == files@.len(),
        a.sources@.len() == files@.len(),
        forall|i: int|
            0 <= i < files@.len() ==> (#[trigger] a.file_names@[i])@ == files@[i].rel@ && a.sources@[i]
                == files@[i].source,
        a.functions@.len() == units_before(files@, files@.len() as int),
        forall|i: int, j: int|
            0 <= i < files@.len() && 0 <= j < files@[i].functions@.len() ==> placed(
                #[trigger] files@[i].functions@[j],
                i,
                files@[i].is_test,
                #[trigger] a.functions@[units_before(files@, i) + j],
            ),
        a.sig_lines == sig_before(files@, files@.len() as int),
        a.total_lines == total_before(files@, files@.len() as int),
{
    let ghost orig = files@;
    let mut files = files;
    let n = files.len();
    let mut file_names: Vec<String> = Vec::new();
    let mut sources: Vec<usize> = Vec::new();
    let mut functions: Vec<FunctionUnit> = Vec::new();
    let mut total_lines: u64 = 0;
    let mut sig_lines: u64 = 0;
    let mut i: usize = 0;
    while i < n
        invariant
            i <= n == files@.len() == orig.len() < u32::MAX,
            forall|t: int|
                0 <= t < n ==> (#[trigger] files@[t]).rel@ == orig[t].rel@ && files@[t].source
                    == orig[t].source && files@[t].sig_lines == orig[t].sig_lines
                    && files@[t].total_lines == orig[t].total_lines && files@[t].is_test
                    == orig[t].is_test,
            forall|t: int| i <= t < n ==> (#[trigger] files@[t]).functions@ == orig[t].functions@,
            file_names@.len() == i,
            sources@.len() == i,
            forall|t: int|
                0 <= t < i ==> (#[trigger] file_names@[t])@ == orig[t].rel@ && sources@[t] == orig[t].source,
            functions@.len() == units_before(orig, i as int),
            forall|t: int, j: int|
                0 <= t < i && 0 <= j < orig[t].functions@.len() ==> placed(
                    #[trigger] orig[t].functions@[j],
                    t,
                    orig[t].is_test,
                    #[trigger] functions@[units_before(orig, t) + j],
                ),
            sig_lines == sig_before(orig, i as int),
            total_lines == total_before(orig, i as int),
        decreases n - i,
    {
        proof {
            lemma_before_bounds(orig, i as int);
            lemma_before_bounds(orig, i + 1);
        }
        let mut fs: Vec<FunctionUnit> = Vec::new();
        std::mem::swap(&mut fs, &mut files[i].functions);
        let test_file = files[i].is_test;
        let ghost taken = fs@;
        assert(taken == orig[i as int].functions@);
        let mut k: usize = 0;
        while k < fs.len()
            invariant
                k <= fs@.len() == taken.len(),
                i < u32::MAX,
                forall|j: int|
                    0 <= j < k ==> placed(taken[j], i as int, test_file, #[trigger] fs@[j]),
                forall|j: int| k <= j < fs@.len() ==> #[trigger] fs@[j] == taken[j],
            decreases fs@.len() - k,
        {
            fs[k].file = i as u32;
            fs[k].is_test = fs[k].is_test || test_file;
            k = k + 1;
        }
        let ghost before = functions@;
        let ghost stamped = fs@;
        functions.append(&mut fs);
        proof {
            assert forall|t: int, j: int|
                0 <= t < i + 1 && 0 <= j < orig[t].functions@.len() implies placed(
                    #[trigger] orig[t].functions@[j],
                    t,
                    orig[t].is_test,
                    #[trigger] functions@[units_before(orig, t) + j],
                ) by {
                if t < i {
                    lemma_before_bounds(orig, t);
                    lemma_units_before_mono(orig, t + 1, i as int);
                    assert(functions@[units_before(orig, t) + j] == before[units_before(orig, t) + j]);
                } else {
                    assert(functions@[units_before(orig, t) + j] == stamped[j]);
                    assert(placed(taken[j], i as int, test_file, stamped[j]));
                }
            }
        }
        file_names.push(files[i].rel.clone());
        sources.push(files[i].source);
        sig_lines = sig_lines + files[i].sig_lines as u64;
        total_lines = total_lines + files[i].total_lines as u64;
        i = i + 1;
    }
    Assembly { file_names, sources, functions, total_lines, sig_lines }
}

proof fn lemma_units_before_mono(files: Seq<FileFunctions>, a: int, b: int)
    requires
        0 <= a <= b,
    ensures
        units_before(files, a) <= units_before(files, b),
    decreases b - a,
{
    if a < b {
        lemma_units_before_mono(files, a, b - 1);
    }
}

/// The segments laid end to end.
pub open spec fn joined(segs: Seq<Seq<char>>) -> Seq<char>
    decreases segs.len(),
{
    if segs.len() == 0 {
        Seq::empty()
    } else {
        joined(segs.drop_last()) + segs.last()
    }
}

proof fn lemma_wrap_state_joins(s: Seq<char>, first: int, cont: int)
    ensures
        joined(wrap_state(s, first, cont).segs) + wrap_state(s, first, cont).cur == s,
    decreases s.len(),
{
    if s.len() > 0 {
        let d = s.drop_last();
        lemma_wrap_state_joins(d, first, cont);
        let st = wrap_state(d, first, cont);
        let c = s.last();
        if st.cur_w + counted_width(c) > st.budget && st.cur.len() > 0 {
            assert(st.segs.push(st.cur).drop_last() =~= st.segs);
            assert(joined(st.segs.push(st.cur)) + seq![c] =~= d.push(c));
        } else {
            assert(joined(st.segs) + st.cur.push(c) =~= d.push(c));
        }
        assert(d.push(c) =~= s);
    } else {
        assert(joined(Seq::<Seq<char>>::empty()) + Seq::<char>::empty() =~= s);
    }
}

/// Wrapping loses and adds nothing: the segments laid end to end are the
/// line.
pub proof fn lemma_wrapped_restores_line(s: Seq<char>, first: int, cont: int)
    ensures
        joined(wrapped(s, first, cont)) == s,
{
    lemma_wrap_state_joins(s, first, cont);
    let st = wrap_state(s, first, cont);
    if st.cur.len() > 0 || st.segs.len() == 0 {
        assert(st.segs.push(st.cur).drop_last() =~= st.segs);
    } else {
        assert(joined(st.segs) + st.cur =~= joined(st.segs));
    }
}

/// The width a segment takes.
pub open spec fn seg_width(seg: Seq<char>) -> int
    decreases seg.len(),
{
    if seg.len() == 0 {
        0
    } else {
        seg_width(seg.drop_last()) + counted_width(seg.last())
    }
}

proof fn lemma_wrap_state_fits(s: Seq<char>, first: int, cont: int)
    ensures
        wrap_state(s, first, cont).cur_w == seg_width(wrap_state(s, first, cont).cur),
        wrap_state(s, first, cont).cur.len() > 1 ==> wrap_state(s, first, cont).cur_w <= wrap_state(
            s,
            first,
            cont,
        ).budget,
        forall|i: int|
            0 <= i < wrap_state(s, first, cont).segs.len() ==> (#[trigger] wrap_state(s, first, cont).segs[i]).len() > 0
                && (wrap_state(s, first, cont).segs[i].len() == 1 || seg_width(
                wrap_state(s, first, cont).segs[i],
            ) <= if i == 0 {
                first
            } else {
                cont
            }),
        wrap_state(s, first, cont).budget == if wrap_state(s, first, cont).segs.len() == 0 {
            first
        } else {
            cont
        },
    decreases s.len(),
{
    if s.len() > 0 {
        let d = s.drop_last();
        lemma_wrap_state_fits(d, first, cont);
        let st = wrap_state(d, first, cont);
        let c = s.last();
        if st.cur_w + counted_width(c) > st.budget && st.cur.len() > 0 {
            let one = seq![c];
            assert(one.drop_last() =~= Seq::<char>::empty());
            assert(seg_width(one.drop_last()) == 0);
            assert(one.last() == c);
            assert(seg_width(one) == counted_width(c));
        } else {
            assert(st.cur.push(c).drop_last() =~= st.cur);
        }
    }
}

/// Each segment fits its budget (the first `first` columns, the others
/// `cont`), unless it is a single character too wide for any budget.
pub proof fn lemma_wrapped_fits(s: Seq<char>, first: int, cont: int, i: int)
    requires
        0 <= i < wrapped(s, first, cont).len(),
        wrapped(s, first, cont)[i].len() > 1,
    ensures
        seg_width(wrapped(s, first, cont)[i]) <= if i == 0 {
            first
        } else {
            cont
        },
{
    lemma_wrap_state_fits(s, first, cont);
    let st = wrap_state(s, first, cont);
    if i < st.segs.len() {
        assert(wrapped(s, first, cont)[i] == st.segs[i]);
    }
}

/// Expanding tabs leaves none behind when tabs become at least one space.
pub proof fn lemma_no_tab_remains(s: Seq<char>, n: nat)
    ensures
        !tabs_expanded(s, n).contains('\t'),
    decreases s.len(),
{
    if s.len() > 0 {
        lemma_no_tab_remains(s.drop_last(), n);
        let rest = tabs_expanded(s.drop_last(), n);
        if s.last() == '\t' {
            let r = rest + Seq::new(n, |i: int| ' ');
            assert forall|j: int| 0 <= j < r.len() implies r[j] != '\t' by {
                if j < rest.len() {
                    assert(r[j] == rest[j]);
                }
            }
        } else {
            let r = rest.push(s.last());
            assert forall|j: int| 0 <= j < r.len() implies r[j] != '\t' by {
                if j < rest.len() {
                    assert(r[j] == rest[j]);
                }
            }
        }
    }
}

/// The files put together as `assemble` does: names and positions in
/// order, every function numbered by its file, and the line totals.
pub open spec fn assembly_ok(
    files: Seq<FileFunctions>,
    file_names: Seq<String>,
    sources: Seq<usize>,
    functions: Seq<FunctionUnit>,
    total_lines: u64,
    sig_lines: u64,
) -> bool {
    &&& file_names.len() == files.len()
    &&& sources.len() == files.len()
    &&& forall|i: int|
        0 <= i < files.len() ==> (#[trigger] file_names[i])@ == files[i].rel@ && sources[i] == files[i].source
    &&& functions.len() == units_before(files, files.len() as int)
    &&& forall|i: int, j: int|
        0 <= i < files.len() && 0 <= j < files[i].functions@.len() ==> placed(
            #[trigger] files[i].functions@[j],
            i,
            files[i].is_test,
            #[trigger] functions[units_before(files, i) + j],
        )
    &&& sig_lines == sig_before(files, files.len() as int)
    &&& total_lines == total_before(files, files.len() as int)
}

/// `after` is `before` with boilerplate fingerprints culled, and `pairs`
/// are exactly its same-language duplicate pairs, each once, as
/// `find_pairs` finds them.
pub open spec fn pairing_ok(
    before: Seq<FunctionUnit>,
    after: Seq<FunctionUnit>,
    pairs: Seq<Pair>,
    threshold_ppm: u32,
) -> bool {
    &&& after.len() == before.len()
    &&& forall|i: int| 0 <= i < before.len() ==> same_header(#[trigger] after[i], before[i])
    &&& forall|i: int| 0 <= i < before.len() ==> (#[trigger] after[i]).fingerprints@ == culled_fps(before, i)
    &&& forall|k: int|
        0 <= k < pairs.len() ==> {
            let pr = #[trigger] pairs[k];
            &&& pr.a < pr.b < after.len()
            &&& after[pr.a as int].lang == after[pr.b as int].lang
            &&& pair_ok(after[pr.a as int].fingerprints@, after[pr.b as int].fingerprints@, threshold_ppm, MIN_SHARED_PREFILTER)
        }
    &&& forall|a: int, b: int|
        0 <= a < b < after.len() && after[a].lang == after[b].lang && pair_ok(
            #[trigger] after[a].fingerprints@,
            #[trigger] after[b].fingerprints@,
            threshold_ppm,
            MIN_SHARED_PREFILTER,
        ) ==> pairs.contains(Pair { a: a as u32, b: b as u32 })
    &&& pairs.no_duplicates()
}

/// `clusters` are the connected groups of `pairs` over `functions`, as
/// `build_clusters` makes them: each read right, exactly a connected
/// component, disjoint, covering every paired function, ranked by
/// deletable lines.
pub open spec fn clustering_ok(functions: Seq<FunctionUnit>, pairs: Seq<Pair>, clusters: Seq<Cluster>) -> bool {
    &&& forall|c: int| 0 <= c < clusters.len() ==> cluster_ok(functions, #[trigger] clusters[c])
    &&& forall|c: int, x: int|
        #![trigger funcs_of(clusters[c].members@).contains(x as u32)]
        #![trigger connected(pairs, x, clusters[c].members@[0].func as int)]
        0 <= c < clusters.len() && 0 <= x < functions.len() ==> (funcs_of(clusters[c].members@).contains(
            x as u32,
        ) <==> connected(pairs, x, clusters[c].members@[0].func as int))
    &&& forall|c1: int, c2: int, x: u32|
        0 <= c1 < clusters.len() && 0 <= c2 < clusters.len() && c1 != c2 ==> !(#[trigger] funcs_of(
            clusters[c1].members@,
        ).contains(x) && #[trigger] funcs_of(clusters[c2].members@).contains(x))
    &&& forall|k: int| 0 <= k < pairs.len() ==> in_some_cluster(clusters, (#[trigger] pairs[k]).a)
    &&& forall|c1: int, c2: int|
        0 <= c1 < c2 < clusters.len() ==> (#[trigger] clusters[c1]).deletable_lines
            >= (#[trigger] clusters[c2]).deletable_lines
}

/// What a set of files measures to.
pub struct Measured {
    pub file_names: Vec<String>,
    pub sources: Vec<usize>,
    /// The functions, numbered by file, with boilerplate culled.
    pub functions: Vec<FunctionUnit>,
    pub clusters: Vec<Cluster>,
    /// `None` when the deletable lines that count exceed `u64::MAX`.
    pub score: Option<Score>,
    pub total_lines: u64,
    pub sig_lines: u64,
    /// The files in the order they were numbered.
    pub order: Ghost<Seq<FileFunctions>>,
    /// The functions as numbered, before culling.
    pub numbered: Ghost<Seq<FunctionUnit>>,
    /// The duplicate pairs the clusters were built from.
    pub pairs: Ghost<Seq<Pair>>,
}

proof fn lemma_units_before_prefix(s1: Seq<FileFunctions>, s2: Seq<FileFunctions>, i: int)
    requires
        0 <= i <= s1.len(),
        i <= s2.len(),
        forall|k: int| 0 <= k < i ==> s1[k] == s2[k],
    ensures
        units_before(s1, i) == units_before(s2, i),
    decreases i,
{
    if i > 0 {
        lemma_units_before_prefix(s1, s2, i - 1);
    }
}

proof fn lemma_units_total_remove(s: Seq<FileFunctions>, t: int)
    requires
        0 <= t < s.len(),
    ensures
        units_before(s, s.len() as int) == units_before(s.remove(t), s.len() - 1) + s[t].functions@.len(),
    decreases s.len(),
{
    let n = s.len() as int;
    let d = s.drop_last();
    lemma_units_before_prefix(s, d, n - 1);
    if t == n - 1 {
        assert(s.remove(t) =~= d);
    } else {
        lemma_units_total_remove(d, t);
        let r = s.remove(t);
        assert(r.drop_last() =~= d.remove(t));
        assert(r.last() == s.last());
        lemma_units_before_prefix(r, r.drop_last(), n - 2);
    }
}

proof fn lemma_units_before_perm(s1: Seq<FileFunctions>, s2: Seq<FileFunctions>)
    requires
        s1.to_multiset() == s2.to_multiset(),
    ensures
        units_before(s1, s1.len() as int) == units_before(s2, s2.len() as int),
    decreases s1.len(),
{
    broadcast use vstd::seq_lib::group_to_multiset_ensures;

    if s1.len() == 0 {
        assert(s2.to_multiset().len() == 0);
    } else {
        let x = s1.last();
        let d = s1.drop_last();
        assert(s1 =~= d.push(x));
        assert(s1.to_multiset().count(x) > 0);
        assert(s2.to_multiset().count(x) > 0);
        assert(s2.contains(x));
        let t = choose|t: int| 0 <= t < s2.len() && s2[t] == x;
        let r = s2.remove(t);
        assert(d.to_multiset() =~= s1.to_multiset().remove(x));
        assert(r.to_multiset() =~= s2.to_multiset().remove(x));
        lemma_units_before_perm(d, r);
        lemma_units_total_remove(s2, t);
        lemma_units_before_prefix(s1, d, s1.len() - 1);
    }
}

/// Position `k` of the numbered functions comes from file `i`, unit `j`.
proof fn lemma_unit_position(files: Seq<FileFunctions>, n: int, k: int) -> (ij: (int, int))
    requires
        0 <= n <= files.len(),
        0 <= k < units_before(files, n),
    ensures
        0 <= ij.0 < n,
        0 <= ij.1 < files[ij.0].functions@.len(),
        k == units_before(files, ij.0) + ij.1,
    decreases n,
{
    lemma_before_bounds(files, n - 1);
    if k >= units_before(files, n - 1) {
        (n - 1, k - units_before(files, n - 1))
    } else {
        lemma_unit_position(files, n - 1, k)
    }
}

/// The whole measurement of a scan or a snapshot: the files ordered by
/// path and numbered, boilerplate culled and duplicate pairs found at
/// `threshold_ppm`, the pairs grouped into clusters, and the clusters
/// scored under the test policy.
pub fn measure_files(files: Vec<FileFunctions>, threshold_ppm: u32, tests: TestPolicy) -> (m: Measured)
    requires
        files@.len() < u32::MAX,
        units_before(files@, files@.len() as int) < u32::MAX,
        forall|i: int, j: int|
            0 <= i < files@.len() && 0 <= j < files@[i].functions@.len() ==> strictly_increasing(
                (#[trigger] files@[i].functions@[j]).fingerprints@,
            ) && files@[i].functions@[j].fingerprints@.len() <= max_fps(),
    ensures
        files_sorted(m.order@),
        m.order@.to_multiset() == files@.to_multiset(),
        assembly_ok(m.order@, m.file_names@, m.sources@, m.numbered@, m.total_lines, m.sig_lines),
        pairing_ok(m.numbered@, m.functions@, m.pairs@, threshold_ppm),
        clustering_ok(m.functions@, m.pairs@, m.clusters@),
        m.file_names@.len() < u32::MAX,
        m.functions@.len() < u32::MAX,
        forall|k: int| 0 <= k < m.functions@.len() ==> (#[trigger] m.functions@[k]).file < m.file_names@.len(),
        match m.score {
            Some(s) => {
                &&& s.deletable_lines == deletable_sum(m.clusters@, tests)
                &&& s.total_sig_lines == m.sig_lines
                &&& s.grade == grade_for(deletable_sum(m.clusters@, tests), m.sig_lines as int)
            },
            None => deletable_sum(m.clusters@, tests) > u64::MAX,
        },
{
    broadcast use vstd::seq_lib::group_to_multiset_ensures;

    let sorted = sort_files(files);
    let ghost order = sorted@;
    proof {
        assert forall|i: int, j: int|
            0 <= i < order.len() && 0 <= j < order[i].functions@.len() implies strictly_increasing(
                (#[trigger] order[i].functions@[j]).fingerprints@,
            ) && order[i].functions@[j].fingerprints@.len() <= max_fps() by {
            assert(order.to_multiset().count(order[i]) > 0);
            assert(files@.to_multiset().count(order[i]) > 0);
            assert(files@.contains(order[i]));
            let t = choose|t: int| 0 <= t < files@.len() && files@[t] == order[i];
            assert(files@[t].functions@[j] == order[i].functions@[j]);
        }
        lemma_units_before_perm(files@, order);
        assert(order.len() == order.to_multiset().len());
        assert(files@.len() == files@.to_multiset().len());
    }
    let a = assemble(sorted);
    let ghost numbered = a.functions@;
    let mut functions = a.functions;
    proof {
        assert forall|k: int| 0 <= k < numbered.len() implies strictly_increasing(
            (#[trigger] numbered[k]).fingerprints@,
        ) && numbered[k].fingerprints@.len() <= max_fps() by {
            let (i, j) = lemma_unit_position(order, order.len() as int, k);
            assert(placed(order[i].functions@[j], i, order[i].is_test, numbered[units_before(order, i) + j]));
        }
    }
    let pairs = find_pairs(&mut functions, threshold_ppm, MIN_SHARED_PREFILTER);
    proof {
        assert forall|i: int| 0 <= i < functions@.len() implies strictly_increasing(
            (#[trigger] functions@[i]).fingerprints@,
        ) && functions@[i].fingerprints@.len() <= max_fps() by {
            let f = |fp: u64| survives(group_fps(numbered, lang_ids(numbered, numbered[i].lang)), fp);
            assert(strictly_increasing(numbered[i].fingerprints@));
            lemma_filter_increasing(numbered[i].fingerprints@, f);
            numbered[i].fingerprints@.lemma_filter_len(f);
        }
    }
    proof {
        assert forall|k: int| 0 <= k < functions@.len() implies (#[trigger] functions@[k]).file < order.len() by {
            let (i, j) = lemma_unit_position(order, order.len() as int, k);
            assert(placed(order[i].functions@[j], i, order[i].is_test, numbered[units_before(order, i) + j]));
            assert(same_header(functions@[k], numbered[k]));
        }
    }
    let clusters = build_clusters(&functions, &pairs);
    let score = checked_score(&clusters, a.sig_lines, tests);
    Measured {
        file_names: a.file_names,
        sources: a.sources,
        functions,
        clusters,
        score,
        total_lines: a.total_lines,
        sig_lines: a.sig_lines,
        order: Ghost(order),
        numbered: Ghost(numbered),
        pairs: Ghost(pairs@),
    }
}

/// The statistics of a scan measured as `m`, with the time it took and
/// the files it skipped.
pub fn scan_stats(
    m: &Measured,
    elapsed_ms: u64,
    skipped_generated: u32,
    skipped_minified: u32,
    skipped_non_utf8: u32,
) -> (st: Stats)
    requires
        m.file_names@.len() < u32::MAX,
        m.functions@.len() < u32::MAX,
    ensures
        st.files == m.file_names@.len(),
        st.functions == m.functions@.len(),
        st.total_lines == m.total_lines,
        st.significant_lines == m.sig_lines,
        st.elapsed_ms == elapsed_ms,
        st.skipped_generated == skipped_generated,
        st.skipped_minified == skipped_minified,
        st.skipped_non_utf8 == skipped_non_utf8,
{
    Stats {
        files: m.file_names.len() as u32,
        total_lines: m.total_lines,
        significant_lines: m.sig_lines,
        functions: m.functions.len() as u32,
        elapsed_ms,
        skipped_generated,
        skipped_minified,
        skipped_non_utf8,
    }
}

} // verus!
