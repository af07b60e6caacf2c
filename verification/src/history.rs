//! The calendar and sampling side of `history`: the month a commit falls
//! in, and which commits to measure.

use vstd::prelude::*;
use crate::text::{
    append_chars, chars_eq, chars_of, lines_chars, lines_of, padded, padded_chars, parse_i64,
    parse_i64_spec, split_once, split_once_chars, string_of, trim, trim_chars, views,
};

verus! {

/// Days from March 1 of year 0 to March 1 of year `y` of the proleptic
/// Gregorian calendar: 365 a year plus one per leap year (every fourth
/// year, but not centuries, except every fourth century).
pub open spec fn march_start(y: int) -> int {
    365 * y + y / 4 - y / 100 + y / 400
}

/// Days from March 1 to the first of the `mp`-th month after it (March is
/// 0, February is 11).
pub open spec fn month_offset(mp: int) -> int {
    if mp <= 0 {
        0
    } else if mp == 1 {
        31
    } else if mp == 2 {
        61
    } else if mp == 3 {
        92
    } else if mp == 4 {
        122
    } else if mp == 5 {
        153
    } else if mp == 6 {
        184
    } else if mp == 7 {
        214
    } else if mp == 8 {
        245
    } else if mp == 9 {
        275
    } else if mp == 10 {
        306
    } else {
        337
    }
}

/// The day, counted from 1970-01-01, on which month `m` (1 to 12) of year
/// `y` begins.
pub open spec fn month_start(y: int, m: int) -> int {
    let (yy, mp) = if m >= 3 {
        (y, m - 3)
    } else {
        (y - 1, m + 9)
    };
    march_start(yy) + month_offset(mp) - 719468
}

/// The month after month `m` of year `y`.
pub open spec fn next_month(y: int, m: int) -> (int, int) {
    if m == 12 {
        (y + 1, 1)
    } else {
        (y, m + 1)
    }
}

/// Unix time `ts` falls in month `m` of year `y` (UTC).
pub open spec fn in_month(ts: int, y: int, m: int) -> bool {
    let day = ts / 86400;
    let (ny, nm) = next_month(y, m);
    &&& 1 <= m <= 12
    &&& month_start(y, m) <= day < month_start(ny, nm)
}

spec fn era_days(k: int) -> int {
    365 * k + k / 4 - k / 100 + k / 400
}

proof fn lemma_era_start(e: int, k: int)
    requires
        0 <= k <= 400,
    ensures
        march_start(400 * e + k) == 146097 * e + era_days(k),
{
    vstd::arithmetic::div_mod::lemma_hoist_over_denominator(k, 100 * e, 4);
    vstd::arithmetic::div_mod::lemma_hoist_over_denominator(k, 4 * e, 100);
    vstd::arithmetic::div_mod::lemma_hoist_over_denominator(k, e, 400);
    assert(k + 100 * e * 4 == 400 * e + k);
    assert(k + 4 * e * 100 == 400 * e + k);
    assert(k + e * 400 == 400 * e + k);
}

fn era_days_exec(k: i64) -> (d: i64)
    requires
        0 <= k <= 400,
    ensures
        d == era_days(k as int),
{
    365 * k + k / 4 - k / 100 + k / 400
}

fn month_offset_exec(mp: i64) -> (d: i64)
    ensures
        d == month_offset(mp as int),
{
    if mp <= 0 {
        0
    } else if mp == 1 {
        31
    } else if mp == 2 {
        61
    } else if mp == 3 {
        92
    } else if mp == 4 {
        122
    } else if mp == 5 {
        153
    } else if mp == 6 {
        184
    } else if mp == 7 {
        214
    } else if mp == 8 {
        245
    } else if mp == 9 {
        275
    } else if mp == 10 {
        306
    } else {
        337
    }
}

/// The year and month (UTC) that Unix time `ts` falls in.
pub fn civil_month(ts: i64) -> (r: (i64, i64))
    ensures
        in_month(ts as int, r.0 as int, r.1 as int),
{
    let days = match ts.checked_div_euclid(86400) {
        Some(d) => d,
        None => 0,
    };
    assert(days == ts as int / 86400);
    assert(-0x8000_0000_0000 <= days <= 0x8000_0000_0000) by {
        assert(ts as int >= -0x8000_0000_0000_0000);
        assert(ts as int <= 0x7fff_ffff_ffff_ffff);
    }
    let z = days + 719468;
    let era = match z.checked_div_euclid(146097) {
        Some(e) => e,
        None => 0,
    };
    let doe = match z.checked_rem_euclid(146097) {
        Some(r) => r,
        None => 0,
    };
    proof {
        vstd::arithmetic::div_mod::lemma_fundamental_div_mod(z as int, 146097);
        assert(0 <= doe < 146097);
        assert(z == 146097 * era + doe);
    }
    let mut k: i64 = doe / 366;
    assert(era_days(k as int) <= doe) by {
        assert(k / 4 - k / 100 + k / 400 <= k);
    }
    while k < 399 && era_days_exec(k + 1) <= doe
        invariant
            0 <= k <= 399,
            0 <= doe < 146097,
            era_days(k as int) <= doe,
        decreases 399 - k,
    {
        k = k + 1;
    }
    assert(doe < era_days(k + 1)) by {
        if k == 399 {
            assert(era_days(400) == 146097);
        }
    }
    let doy = doe - era_days_exec(k);
    assert(era_days(k + 1) - era_days(k as int) <= 366);
    let mut mp: i64 = 11;
    while month_offset_exec(mp) > doy
        invariant
            0 <= mp <= 11,
            0 <= doy,
            forall|j: int| mp < j <= 11 ==> month_offset(j) > doy,
        decreases mp,
    {
        mp = mp - 1;
    }
    let yy = 400 * era + k;
    proof {
        lemma_era_start(era as int, k as int);
        lemma_era_start(era as int, k + 1);
        assert(march_start(yy as int) + month_offset(mp as int) <= z);
        assert(mp < 11 ==> z < march_start(yy as int) + month_offset(mp + 1));
        assert(z < march_start(yy + 1));
    }
    if mp < 10 {
        (yy, mp + 3)
    } else {
        (yy + 1, mp - 9)
    }
}

/// The start of the `n`-th month, counting months from January of year 0.
spec fn nth_month_start(n: int) -> int {
    month_start(n / 12, n % 12 + 1)
}

proof fn lemma_month_index(y: int, m: int)
    requires
        1 <= m <= 12,
    ensures
        (12 * y + m - 1) / 12 == y,
        (12 * y + m - 1) % 12 + 1 == m,
        next_month(y, m) == ((12 * y + m) / 12, (12 * y + m) % 12 + 1),
{
    vstd::arithmetic::div_mod::lemma_fundamental_div_mod(12 * y + m - 1, 12);
    vstd::arithmetic::div_mod::lemma_fundamental_div_mod(12 * y + m, 12);
}

proof fn lemma_month_step(n: int)
    ensures
        nth_month_start(n) < nth_month_start(n + 1),
{
    let y = n / 12;
    let m = n % 12 + 1;
    vstd::arithmetic::div_mod::lemma_fundamental_div_mod(n, 12);
    vstd::arithmetic::div_mod::lemma_fundamental_div_mod(n + 1, 12);
    assert(1 <= m <= 12);
    assert(n == 12 * y + m - 1);
    lemma_month_index(y, m);
    if m == 2 {
        assert(march_start(y) - march_start(y - 1) >= 365) by {
            assert(y / 4 - (y - 1) / 4 >= 0);
            assert(y / 100 - (y - 1) / 100 <= 1);
            assert(y / 400 - (y - 1) / 400 >= 0);
        }
    }
}

proof fn lemma_month_mono(a: int, b: int)
    requires
        a <= b,
    ensures
        nth_month_start(a) <= nth_month_start(b),
    decreases b - a,
{
    if a < b {
        lemma_month_step(a);
        lemma_month_mono(a + 1, b);
    }
}

/// Months do not overlap: Unix time `ts` falls in one month only.
pub proof fn lemma_in_month_unique(ts: int, y1: int, m1: int, y2: int, m2: int)
    requires
        in_month(ts, y1, m1),
        in_month(ts, y2, m2),
    ensures
        y1 == y2,
        m1 == m2,
{
    let n1 = 12 * y1 + m1 - 1;
    let n2 = 12 * y2 + m2 - 1;
    lemma_month_index(y1, m1);
    lemma_month_index(y2, m2);
    assert(nth_month_start(n1) == month_start(y1, m1));
    assert(nth_month_start(n2) == month_start(y2, m2));
    assert(nth_month_start(n1 + 1) == month_start(next_month(y1, m1).0, next_month(y1, m1).1));
    assert(nth_month_start(n2 + 1) == month_start(next_month(y2, m2).0, next_month(y2, m2).1));
    if n1 < n2 {
        lemma_month_mono(n1 + 1, n2);
    } else if n2 < n1 {
        lemma_month_mono(n2 + 1, n1);
    }
    assert(n1 == n2);
}

/// The year and month that Unix time `ts` falls in.
pub open spec fn month_of_time(ts: int) -> (int, int) {
    choose|y: int, m: int| in_month(ts, y, m)
}

/// `YYYY-MM` for month `m` of year `y`, as `{y:04}-{m:02}` formats it.
pub open spec fn month_label(y: int, m: int) -> Seq<char> {
    padded(y, 4) + seq!['-'] + padded(m, 2)
}

/// Unix time `ts` as `YYYY-MM` (UTC).
pub fn month_of(ts: i64) -> (label: String)
    ensures
        label@ == month_label(month_of_time(ts as int).0, month_of_time(ts as int).1),
{
    let (y, m) = civil_month(ts);
    proof {
        let (cy, cm) = month_of_time(ts as int);
        assert(in_month(ts as int, y as int, m as int));
        assert(in_month(ts as int, cy, cm));
        lemma_in_month_unique(ts as int, y as int, m as int, cy, cm);
    }
    let mut r = padded_chars(y, 4);
    r.push('-');
    let mm = padded_chars(m, 2);
    append_chars(&mut r, mm.as_slice());
    string_of(r.as_slice())
}

/// A commit and its month.
pub open spec fn snap_view(s: (String, String)) -> (Seq<char>, Seq<char>) {
    (s.0@, s.1@)
}

pub open spec fn snaps_view(s: Seq<(String, String)>) -> Seq<(Seq<char>, Seq<char>)> {
    s.map_values(|x: (String, String)| snap_view(x))
}

/// `s` without each entry whose commit repeats the one kept before it
/// (`dedup_by` on the commit).
pub open spec fn dedup_commits(s: Seq<(Seq<char>, Seq<char>)>) -> Seq<(Seq<char>, Seq<char>)>
    decreases s.len(),
{
    if s.len() == 0 {
        s
    } else {
        let d = dedup_commits(s.drop_last());
        if d.len() > 0 && d.last().0 == s.last().0 {
            d
        } else {
            d.push(s.last())
        }
    }
}

/// Position of the `i`-th of `max` picks spread evenly over `len` items,
/// first and last included.
pub open spec fn pick_index(len: nat, max: nat, i: nat) -> int {
    (i * (len - 1)) as int / (max - 1) as int
}

/// At most `max` of `items`, evenly spaced and ending at the last, with
/// repeated commits dropped; a single pick is the last item.
pub open spec fn spaced(items: Seq<(Seq<char>, Seq<char>)>, max: nat) -> Seq<(Seq<char>, Seq<char>)> {
    if items.len() <= max {
        items
    } else if max == 1 {
        seq![items.last()]
    } else {
        dedup_commits(Seq::new(max, |i: int| items[pick_index(items.len(), max, i as nat)]))
    }
}

proof fn lemma_mul_le(a: nat, b: nat, c: nat)
    requires
        a <= c,
        b <= c,
    ensures
        a * b <= c * c,
{
    assert(a * b <= c * c) by (nonlinear_arith)
        requires
            a <= c,
            b <= c,
    ;
}

fn copy_snap(s: &(String, String)) -> (r: (String, String))
    ensures
        snap_view(r) == snap_view(*s),
{
    (s.0.clone(), s.1.clone())
}

fn evenly_spaced(items: &Vec<(String, String)>, max: usize) -> (picked: Vec<(String, String)>)
    ensures
        snaps_view(picked@) == spaced(snaps_view(items@), max as nat),
{
    let ghost iv = snaps_view(items@);
    if items.len() <= max {
        let mut all: Vec<(String, String)> = Vec::new();
        let mut i: usize = 0;
        while i < items.len()
            invariant
                i <= items@.len(),
                iv == snaps_view(items@),
                snaps_view(all@) == iv.subrange(0, i as int),
            decreases items@.len() - i,
        {
            let ghost before = all@;
            all.push(copy_snap(&items[i]));
            assert(snaps_view(all@) =~= snaps_view(before).push(iv[i as int]));
            assert(iv.subrange(0, i + 1) =~= iv.subrange(0, i as int).push(iv[i as int]));
            i = i + 1;
        }
        assert(iv.subrange(0, iv.len() as int) =~= iv);
        return all;
    }
    if max == 1 {
        let last = copy_snap(&items[items.len() - 1]);
        let one = vec![last];
        assert(snaps_view(one@) =~= seq![iv.last()]);
        return one;
    }
    let ghost picks = Seq::new(max as nat, |i: int| iv[pick_index(iv.len(), max as nat, i as nat)]);
    let n = items.len();
    let mut picked: Vec<(String, String)> = Vec::new();
    let mut i: usize = 0;
    while i < max
        invariant
            n == items@.len() > max >= 2 || (n == items@.len() > max && max == 0),
            i <= max,
            iv == snaps_view(items@),
            picks == Seq::new(max as nat, |i: int| iv[pick_index(iv.len(), max as nat, i as nat)]),
            snaps_view(picked@) == dedup_commits(picks.subrange(0, i as int)),
        decreases max - i,
    {
        proof {
            lemma_mul_le(i as nat, (n - 1) as nat, 0xffff_ffff_ffff_ffff);
        }
        let num: u128 = (i as u128) * ((n - 1) as u128);
        let idx = (num / ((max - 1) as u128)) as usize;
        proof {
            assert(num <= ((max - 1) as u128) * ((n - 1) as u128)) by (nonlinear_arith)
                requires
                    num == (i as u128) * ((n - 1) as u128),
                    i <= max - 1,
            ;
            assert(num / ((max - 1) as u128) <= (n - 1) as u128) by (nonlinear_arith)
                requires
                    num <= ((max - 1) as u128) * ((n - 1) as u128),
                    max - 1 > 0,
            ;
            assert(idx as int == pick_index(iv.len(), max as nat, i as nat));
        }
        let s = copy_snap(&items[idx]);
        let ghost pre = picks.subrange(0, i as int);
        let ghost nxt = picks.subrange(0, i + 1);
        proof {
            assert(nxt.drop_last() =~= pre);
            assert(nxt.last() == snap_view(s));
        }
        let ghost before = picked@;
        let len = picked.len();
        let dup = if len > 0 {
            let a = chars_of(picked[len - 1].0.as_str());
            let b = chars_of(s.0.as_str());
            chars_eq(a.as_slice(), b.as_slice())
        } else {
            false
        };
        if !dup {
            picked.push(s);
            assert(snaps_view(picked@) =~= snaps_view(before).push(snap_view(s)));
        }
        proof {
            if len > 0 {
                assert(snaps_view(before).last() == snap_view(before[len - 1]));
            }
        }
        i = i + 1;
    }
    assert(picks.subrange(0, max as int) =~= picks);
    picked
}

/// The commit and month of a `git log --format='%H %ct'` line, when its
/// timestamp reads as a number.
pub open spec fn log_entry(line: Seq<char>) -> Option<(Seq<char>, Seq<char>)> {
    match split_once(line, ' ') {
        None => None,
        Some((hash, ts)) => match parse_i64_spec(trim(ts)) {
            None => None,
            Some(t) => Some((hash, month_label(month_of_time(t as int).0, month_of_time(t as int).1))),
        },
    }
}

/// Every readable commit of the log lines, in order.
pub open spec fn log_entries(lines: Seq<Seq<char>>) -> Seq<(Seq<char>, Seq<char>)>
    decreases lines.len(),
{
    if lines.len() == 0 {
        Seq::empty()
    } else {
        let rest = log_entries(lines.drop_last());
        match log_entry(lines.last()) {
            Some(e) => rest.push(e),
            None => rest,
        }
    }
}

/// The last commit of each run of commits in the same month.
pub open spec fn by_month(lines: Seq<Seq<char>>) -> Seq<(Seq<char>, Seq<char>)>
    decreases lines.len(),
{
    if lines.len() == 0 {
        Seq::empty()
    } else {
        let rest = by_month(lines.drop_last());
        match log_entry(lines.last()) {
            Some(e) => if rest.len() > 0 && rest.last().1 == e.1 {
                rest.update(rest.len() - 1, e)
            } else {
                rest.push(e)
            },
            None => rest,
        }
    }
}

/// The commits to measure from an oldest-first log. The last commit of
/// each month is taken, spread evenly over at most `max`; a repo younger
/// than six months spreads its commits instead, over at most twelve.
pub open spec fn snapshot_plan(lines: Seq<Seq<char>>, max: nat) -> Seq<(Seq<char>, Seq<char>)> {
    let bm = by_month(lines);
    if bm.len() == 0 {
        Seq::empty()
    } else if bm.len() < 6 {
        let all = log_entries(lines);
        let m = if max < 12 {
            max
        } else {
            12
        };
        spaced(all, m)
    } else {
        spaced(bm, max)
    }
}

fn entry_of_line(line: &Vec<char>) -> (r: Option<(String, String)>)
    ensures
        match r {
            Some(e) => log_entry(line@) == Some(snap_view(e)),
            None => log_entry(line@) is None,
        },
{
    match split_once_chars(line.as_slice(), ' ') {
        None => None,
        Some((hash, ts)) => {
            let t = trim_chars(ts.as_slice());
            match parse_i64(t.as_slice()) {
                None => None,
                Some(v) => Some((string_of(hash.as_slice()), month_of(v))),
            }
        },
    }
}

/// Mainline commits to measure, from `git log --first-parent --reverse
/// --format='%H %ct'` output: (commit, `YYYY-MM`) pairs.
pub fn pick_snapshots(log: &str, max: usize) -> (r: Vec<(String, String)>)
    ensures
        snaps_view(r@) == snapshot_plan(lines_of(log@), max as nat),
{
    let cs = chars_of(log);
    let lines = lines_chars(cs.as_slice());
    let ghost ls = lines_of(log@);
    let mut all: Vec<(String, String)> = Vec::new();
    let mut months: Vec<(String, String)> = Vec::new();
    let mut i: usize = 0;
    while i < lines.len()
        invariant
            i <= lines@.len(),
            views(lines@) == ls,
            snaps_view(all@) == log_entries(ls.subrange(0, i as int)),
            snaps_view(months@) == by_month(ls.subrange(0, i as int)),
        decreases lines@.len() - i,
    {
        let ghost pre = ls.subrange(0, i as int);
        let ghost nxt = ls.subrange(0, i + 1);
        proof {
            assert(nxt.drop_last() =~= pre);
            assert(nxt.last() == lines@[i as int]@);
        }
        match entry_of_line(&lines[i]) {
            None => {},
            Some(e) => {
                let ghost ab = all@;
                all.push(copy_snap(&e));
                assert(snaps_view(all@) =~= snaps_view(ab).push(snap_view(e)));
                let ghost mb = months@;
                let len = months.len();
                let same = if len > 0 {
                    let a = chars_of(months[len - 1].1.as_str());
                    let b = chars_of(e.1.as_str());
                    chars_eq(a.as_slice(), b.as_slice())
                } else {
                    false
                };
                proof {
                    if len > 0 {
                        assert(snaps_view(mb).last() == snap_view(mb[len - 1]));
                    }
                }
                if same {
                    months.set(len - 1, e);
                    assert(snaps_view(months@) =~= snaps_view(mb).update(len - 1, snap_view(e)));
                } else {
                    months.push(e);
                    assert(snaps_view(months@) =~= snaps_view(mb).push(snap_view(e)));
                }
            },
        }
        i = i + 1;
    }
    assert(ls.subrange(0, ls.len() as int) =~= ls);
    if months.len() == 0 {
        let empty: Vec<(String, String)> = Vec::new();
        assert(snaps_view(empty@) =~= Seq::empty());
        return empty;
    }
    if months.len() < 6 {
        let m = if max < 12 {
            max
        } else {
            12
        };
        return evenly_spaced(&all, m);
    }
    evenly_spaced(&months, max)
}

proof fn lemma_dedup_keeps_last_commit(s: Seq<(Seq<char>, Seq<char>)>)
    requires
        s.len() > 0,
    ensures
        dedup_commits(s).len() > 0,
        dedup_commits(s).last().0 == s.last().0,
        dedup_commits(s).len() <= s.len(),
    decreases s.len(),
{
    if s.len() > 1 {
        lemma_dedup_keeps_last_commit(s.drop_last());
    } else {
        assert(dedup_commits(s.drop_last()).len() == 0);
    }
}

/// The snapshots always end at the newest commit: when there is anything to
/// spread, the last one picked is the last item's commit.
pub proof fn lemma_spaced_ends_at_newest(items: Seq<(Seq<char>, Seq<char>)>, max: nat)
    requires
        items.len() > 0,
        max >= 1,
    ensures
        spaced(items, max).len() > 0,
        spaced(items, max).last().0 == items.last().0,
        spaced(items, max).len() <= max,
{
    if items.len() > max && max >= 2 {
        let picks = Seq::new(max, |i: int| items[pick_index(items.len(), max, i as nat)]);
        let l = (items.len() - 1) as nat;
        let m = (max - 1) as nat;
        assert(((max - 1) as nat * l) as int / m as int == l) by (nonlinear_arith)
            requires
                m > 0,
                max - 1 == m,
        ;
        assert(picks.last() == items.last());
        lemma_dedup_keeps_last_commit(picks);
    }
}

/// A log with a readable commit plans its snapshots to end at the newest
/// readable commit.
pub proof fn lemma_plan_ends_at_newest(lines: Seq<Seq<char>>, max: nat)
    requires
        max >= 1,
        by_month(lines).len() > 0,
    ensures
        snapshot_plan(lines, max).len() > 0,
        snapshot_plan(lines, max).last().0 == log_entries(lines).last().0,
{
    lemma_by_month_last(lines);
    let bm = by_month(lines);
    if bm.len() < 6 {
        let all = log_entries(lines);
        let m: nat = if max < 12 { max } else { 12 };
        lemma_spaced_ends_at_newest(all, m);
    } else {
        lemma_spaced_ends_at_newest(bm, max);
    }
}

proof fn lemma_by_month_last(lines: Seq<Seq<char>>)
    ensures
        by_month(lines).len() <= log_entries(lines).len(),
        by_month(lines).len() > 0 ==> log_entries(lines).len() > 0 && by_month(lines).last() == log_entries(
            lines,
        ).last(),
    decreases lines.len(),
{
    if lines.len() > 0 {
        lemma_by_month_last(lines.drop_last());
    }
}

/// Year `y` of the Gregorian calendar is a leap year.
pub open spec fn leap_year(y: int) -> bool {
    y % 4 == 0 && (y % 100 != 0 || y % 400 == 0)
}

/// Days in month `m` (1 to 12) of year `y` in the Gregorian calendar.
pub open spec fn days_in_month(y: int, m: int) -> int {
    if m == 2 {
        if leap_year(y) {
            29
        } else {
            28
        }
    } else if m == 4 || m == 6 || m == 9 || m == 11 {
        30
    } else {
        31
    }
}

/// The month table is the Gregorian calendar counted from the Unix epoch:
/// January 1970 starts on day 0, and each month starts as many days after
/// the one before it as that month has (31, 28 or 29, 31, 30, ...).
pub proof fn lemma_months_follow_the_calendar(y: int, m: int)
    requires
        1 <= m <= 12,
    ensures
        month_start(1970, 1) == 0,
        month_start(next_month(y, m).0, next_month(y, m).1) == month_start(y, m) + days_in_month(y, m),
{
    if m == 2 {
        lemma_year_length(y);
    }
}

/// From March 1 of `y - 1` to March 1 of `y`: 365 days, one more when
/// `y` is a leap year.
proof fn lemma_year_length(y: int)
    ensures
        march_start(y) - march_start(y - 1) == if leap_year(y) {
            366int
        } else {
            365int
        },
{
    let x = y - 1;
    vstd::arithmetic::div_mod::lemma_fundamental_div_mod(y, 4);
    vstd::arithmetic::div_mod::lemma_fundamental_div_mod(x, 4);
    vstd::arithmetic::div_mod::lemma_fundamental_div_mod(y, 100);
    vstd::arithmetic::div_mod::lemma_fundamental_div_mod(x, 100);
    vstd::arithmetic::div_mod::lemma_fundamental_div_mod(y, 400);
    vstd::arithmetic::div_mod::lemma_fundamental_div_mod(x, 400);
}

} // verus!
