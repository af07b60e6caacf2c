//! Shaping text for the terminal: cutting a line down to a column budget
//! and grouping digits.

use vstd::prelude::*;
use unicode_width::UnicodeWidthStr;
use crate::text::{append_chars, chars_of, decimal, decimal_chars, slice_chars, string_of};

verus! {

/// The display width `unicode-width` gives the string `s` (its
/// `UnicodeWidthStr::width`).
pub uninterp spec fn str_width(s: Seq<char>) -> usize;

/// Trusted: calls `UnicodeWidthStr::width` from `unicode-width`, which
/// folds the characters from the end, control characters taking one column
/// in a string. The empty string has width 0 and the lone ellipsis U+2026
/// width 1 (narrow in its tables); other values come from its tables and
/// are not stated.
#[verifier::external_body]
fn display_width(s: &str) -> (w: usize)
    ensures
        w == str_width(s@),
        s@.len() == 0 ==> w == 0,
        s@ == seq!['\u{2026}'] ==> w == 1,
{
    s.width()
}

/// The last `k` characters of `s`.
pub open spec fn suffix(s: Seq<char>, k: int) -> Seq<char> {
    s.subrange(s.len() - k, s.len() as int)
}

/// The longest tail, of at most `k` characters, that fits in `max`
/// display columns behind an `…`; 0 when none does.
pub open spec fn tail_fit(s: Seq<char>, max: nat, k: int) -> int
    decreases k,
{
    if k <= 0 {
        0
    } else if str_width(seq!['…'] + suffix(s, k)) <= max {
        k
    } else {
        tail_fit(s, max, k - 1)
    }
}

/// `s` cut to at most `max` display columns from the left: unchanged when
/// it fits, otherwise `…` followed by the longest tail that still fits
/// behind it, so the informative end (a file name and line) survives.
pub open spec fn truncated_left(s: Seq<char>, max: nat) -> Seq<char> {
    if str_width(s) <= max {
        s
    } else {
        seq!['…'] + suffix(s, tail_fit(s, max, s.len() as int))
    }
}

/// `s` cut to at most `max` characters from the right, ending in `…`.
pub open spec fn truncated(s: Seq<char>, max: nat) -> Seq<char> {
    if s.len() <= max {
        s
    } else {
        let k = if max >= 1 {
            max - 1
        } else {
            0
        };
        s.subrange(0, k as int) + seq!['…']
    }
}

/// Left-truncate to `max` display columns, prefixing `…`.
pub fn truncate_left(s: &str, max: usize) -> (r: String)
    ensures
        r@ == truncated_left(s@, max as nat),
        max >= 1 ==> str_width(r@) <= max,
{
    if display_width(s) <= max {
        let cs = chars_of(s);
        return string_of(cs.as_slice());
    }
    let cs = chars_of(s);
    let n = cs.len();
    let mut k: usize = n;
    while k > 0
        invariant
            k <= n == s@.len(),
            cs@ == s@,
            tail_fit(s@, max as nat, n as int) == tail_fit(s@, max as nat, k as int),
            str_width(s@) > max,
        decreases k,
    {
        let mut cand: Vec<char> = vec!['…'];
        let tail = slice_chars(cs.as_slice(), n - k, n);
        append_chars(&mut cand, tail.as_slice());
        let cand_str = string_of(cand.as_slice());
        assert(cand_str@ == seq!['…'] + suffix(s@, k as int));
        if display_width(cand_str.as_str()) <= max {
            assert(tail_fit(s@, max as nat, k as int) == k as int);
            assert(suffix(s@, k as int) == cs@.subrange(n - k, n as int));
            return cand_str;
        }
        k = k - 1;
    }
    let out: Vec<char> = vec!['…'];
    let r = string_of(out.as_slice());
    assert(r@ =~= seq!['…'] + suffix(s@, 0));
    let _w = display_width(r.as_str());
    r
}

/// Right-truncate to `max` characters, ending in `…`.
pub fn truncate(s: &str, max: usize) -> (r: String)
    ensures
        r@ == truncated(s@, max as nat),
{
    let cs = chars_of(s);
    let n = cs.len();
    if n <= max {
        return string_of(cs.as_slice());
    }
    let k = if max >= 1 {
        max - 1
    } else {
        0
    };
    let mut out = slice_chars(cs.as_slice(), 0, k);
    out.push('…');
    string_of(out.as_slice())
}

/// The digits `s` with a comma before every group of three counted from
/// the right.
pub open spec fn grouped(s: Seq<char>) -> Seq<char>
    decreases s.len(),
{
    if s.len() <= 3 {
        s
    } else {
        grouped(s.subrange(0, s.len() - 3)) + seq![','] + s.subrange(s.len() - 3, s.len() as int)
    }
}

fn grouped_chars(s: &[char]) -> (r: Vec<char>)
    ensures
        r@ == grouped(s@),
    decreases s@.len(),
{
    let n = s.len();
    if n <= 3 {
        return slice_chars(s, 0, n);
    }
    let head = slice_chars(s, 0, n - 3);
    let mut r = grouped_chars(head.as_slice());
    r.push(',');
    let tail = slice_chars(s, n - 3, n);
    append_chars(&mut r, tail.as_slice());
    r
}

/// `n` in decimal with thousands separated by commas.
pub fn group_digits(n: u64) -> (r: String)
    ensures
        r@ == grouped(decimal(n as nat)),
{
    let d = decimal_chars(n);
    let g = grouped_chars(d.as_slice());
    string_of(g.as_slice())
}

proof fn lemma_tail_fit(s: Seq<char>, max: nat, k: int)
    requires
        0 <= k,
    ensures
        0 <= tail_fit(s, max, k) <= k,
        tail_fit(s, max, k) > 0 ==> str_width(seq!['…'] + suffix(s, tail_fit(s, max, k))) <= max,
        forall|j: int|
            tail_fit(s, max, k) < j <= k ==> #[trigger] str_width(seq!['…'] + suffix(s, j)) > max,
    decreases k,
{
    if k > 0 {
        lemma_tail_fit(s, max, k - 1);
    }
}

/// Truncation keeps what fits: a string that fits in `max` columns is left
/// as it is; otherwise the result is `…` and a tail of `s`, which fits when
/// it is not empty, and no longer tail would fit. Right truncation keeps at
/// most `max` characters.
pub proof fn lemma_truncation_fits(s: Seq<char>, max: nat)
    ensures
        str_width(s) <= max ==> truncated_left(s, max) == s,
        str_width(s) > max ==> truncated_left(s, max) == seq!['…'] + suffix(s, tail_fit(s, max, s.len() as int)),
        0 <= tail_fit(s, max, s.len() as int) <= s.len(),
        tail_fit(s, max, s.len() as int) > 0 ==> str_width(
            seq!['…'] + suffix(s, tail_fit(s, max, s.len() as int)),
        ) <= max,
        forall|j: int|
            tail_fit(s, max, s.len() as int) < j <= s.len() ==> #[trigger] str_width(seq!['…'] + suffix(s, j))
                > max,
        max >= 1 ==> truncated(s, max).len() <= max,
        s.len() <= max ==> truncated(s, max) == s,
{
    lemma_tail_fit(s, max, s.len() as int);
}

/// The digits with the commas taken out.
pub open spec fn without_commas(s: Seq<char>) -> Seq<char> {
    s.filter(|c: char| c != ',')
}

/// Grouping only inserts commas: taking them out gives back the digits.
pub proof fn lemma_grouping_only_adds_commas(s: Seq<char>)
    requires
        !s.contains(','),
    ensures
        without_commas(grouped(s)) == s,
    decreases s.len(),
{
    broadcast use vstd::seq_lib::group_filter_ensures;

    let f = |c: char| c != ',';
    if s.len() <= 3 {
        lemma_filter_keeps_all(s);
    } else {
        let head = s.subrange(0, s.len() - 3);
        let tail = s.subrange(s.len() - 3, s.len() as int);
        assert(!head.contains(',')) by {
            if head.contains(',') {
                let i = choose|i: int| 0 <= i < head.len() && head[i] == ',';
                assert(s[i] == ',');
            }
        }
        assert(!tail.contains(',')) by {
            if tail.contains(',') {
                let i = choose|i: int| 0 <= i < tail.len() && tail[i] == ',';
                assert(s[s.len() - 3 + i] == ',');
            }
        }
        lemma_grouping_only_adds_commas(head);
        lemma_filter_keeps_all(tail);
        let g = grouped(head) + seq![','] + tail;
        Seq::filter_distributes_over_add(grouped(head) + seq![','], tail, f);
        Seq::filter_distributes_over_add(grouped(head), seq![','], f);
        reveal(Seq::filter);
        Seq::<char>::empty().lemma_filter_push(',', f);
        assert(Seq::<char>::empty().filter(f) =~= Seq::<char>::empty());
        assert(seq![','] =~= Seq::<char>::empty().push(','));
        assert(seq![','].filter(f) =~= Seq::<char>::empty());
        assert(head + tail =~= s);
    }
}

proof fn lemma_filter_keeps_all(s: Seq<char>)
    requires
        !s.contains(','),
    ensures
        without_commas(s) == s,
    decreases s.len(),
{
    reveal(Seq::filter);
    if s.len() > 0 {
        let d = s.drop_last();
        assert(!d.contains(',')) by {
            if d.contains(',') {
                let i = choose|i: int| 0 <= i < d.len() && d[i] == ',';
                assert(s[i] == ',');
            }
        }
        lemma_filter_keeps_all(d);
        assert(s.last() != ',') by {
            assert(s[s.len() - 1] == s.last());
        }
        assert(d.push(s.last()) =~= s);
    }
}

} // verus!