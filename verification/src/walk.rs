//! Which files a scan reads: test files, the built-in exclusions
//! (vendored, built and minified paths), and contents that are generated
//! or minified rather than written.

use vstd::prelude::*;
use crate::lang::{lang_of_path, Lang};
use crate::text::{
    chars_eq, chars_of, has_prefix, lemma_split_concat, lemma_split_nonempty,
    lemma_split_without_sep, lines_chars, lines_of, slice_chars, split_chars, split_on,
    starts_with, views,
};

verus! {

/// `p` occurs in `s`.
pub open spec fn occurs(s: Seq<char>, p: Seq<char>) -> bool
    decreases s.len(),
{
    if has_prefix(s, p) {
        true
    } else if s.len() == 0 {
        false
    } else {
        occurs(s.drop_first(), p)
    }
}

fn occurs_exec(s: &[char], p: &[char]) -> (r: bool)
    ensures
        r == occurs(s@, p@),
{
    let n = s.len();
    let mut i: usize = 0;
    assert(s@.subrange(0, n as int) =~= s@);
    while i < n
        invariant
            i <= n,
            n == s@.len(),
            occurs(s@, p@) == occurs(s@.subrange(i as int, n as int), p@),
        decreases n - i,
    {
        let tail = slice_chars(s, i, n);
        if starts_with(tail.as_slice(), p) {
            return true;
        }
        assert(s@.subrange(i as int, n as int).drop_first() =~= s@.subrange(i + 1, n as int));
        i = i + 1;
    }
    let tail = slice_chars(s, n, n);
    starts_with(tail.as_slice(), p)
}

/// One of `comps` is one of `names`.
pub open spec fn any_named(comps: Seq<Seq<char>>, names: Seq<Seq<char>>) -> bool
    decreases comps.len(),
{
    if comps.len() == 0 {
        false
    } else {
        names.contains(comps.last()) || any_named(comps.drop_last(), names)
    }
}

/// Some directory of `path` is one of `names`.
pub open spec fn in_dir_named(path: Seq<char>, names: Seq<Seq<char>>) -> bool {
    any_named(split_on(path, '/').drop_last(), names)
}

fn named_exec(x: &[char], names: &Vec<Vec<char>>) -> (r: bool)
    ensures
        r == views(names@).contains(x@),
{
    let mut k: usize = 0;
    while k < names.len()
        invariant
            k <= names@.len(),
            forall|j: int| 0 <= j < k ==> views(names@)[j] != x@,
        decreases names@.len() - k,
    {
        if chars_eq(names[k].as_slice(), x) {
            assert(views(names@)[k as int] == x@);
            return true;
        }
        k = k + 1;
    }
    false
}

fn in_dir_named_exec(path: &[char], names: &Vec<Vec<char>>) -> (r: bool)
    ensures
        r == in_dir_named(path@, views(names@)),
{
    let comps = split_chars(path, '/');
    let ghost cs = split_on(path@, '/');
    proof {
        lemma_split_nonempty(path@, '/');
    }
    let last = comps.len() - 1;
    let mut k: usize = 0;
    assert(cs.drop_last().subrange(0, 0) =~= Seq::<Seq<char>>::empty());
    while k < last
        invariant
            cs == split_on(path@, '/'),
            comps@.len() == cs.len(),
            last == comps@.len() - 1,
            forall|j: int| 0 <= j < comps@.len() ==> #[trigger] comps@[j]@ == cs[j],
            k <= last,
            !any_named(cs.drop_last().subrange(0, k as int), views(names@)),
        decreases last - k,
    {
        let ghost pre = cs.drop_last().subrange(0, k as int);
        let ghost nxt = cs.drop_last().subrange(0, k + 1);
        assert(nxt.drop_last() =~= pre);
        assert(nxt.last() == comps@[k as int]@);
        if named_exec(comps[k].as_slice(), names) {
            proof {
                assert(views(names@).contains(nxt.last()));
                assert(any_named(nxt, views(names@)));
                lemma_any_named_prefix(cs.drop_last(), views(names@), k + 1);

            }
            return true;
        }
        k = k + 1;
    }
    assert(cs.drop_last().subrange(0, last as int) =~= cs.drop_last());
    false
}

proof fn lemma_any_named_prefix(comps: Seq<Seq<char>>, names: Seq<Seq<char>>, k: int)
    requires
        0 <= k <= comps.len(),
        any_named(comps.subrange(0, k), names),
    ensures
        any_named(comps, names),
    decreases comps.len() - k,
{
    if k < comps.len() {
        let nxt = comps.subrange(0, k + 1);
        assert(nxt.drop_last() =~= comps.subrange(0, k));
        lemma_any_named_prefix(comps, names, k + 1);
    } else {
        assert(comps.subrange(0, k) =~= comps);
    }
}

pub open spec fn test_dirs() -> Seq<Seq<char>> {
    seq!["test"@, "tests"@, "__tests__"@, "spec"@, "testdata"@]
}

pub open spec fn excluded_dirs() -> Seq<Seq<char>> {
    seq!["node_modules"@, "vendor"@, "third_party"@, "dist"@, "build"@, "target"@, ".git"@]
}

/// A test file: it sits in a `test`, `tests`, `__tests__`, `spec` or
/// `testdata` directory, or its name contains `.test.` or `.spec.`, starts
/// with `test_`, or has `_test.` in it.
pub open spec fn test_path(path: Seq<char>) -> bool {
    let name = split_on(path, '/').last();
    ||| in_dir_named(path, test_dirs())
    ||| occurs(name, ".test."@)
    ||| occurs(name, ".spec."@)
    ||| has_prefix(name, "test_"@)
    ||| occurs(name, "_test."@)
}

fn lit(s: &str) -> (v: Vec<char>)
    ensures
        v@ == s@,
{
    chars_of(s)
}

pub fn is_test_path(path: &str) -> (r: bool)
    ensures
        r == test_path(path@),
{
    let p = chars_of(path);
    let comps = split_chars(p.as_slice(), '/');
    proof {
        lemma_split_nonempty(p@, '/');
    }
    let name = &comps[comps.len() - 1];
    let dirs: Vec<Vec<char>> = vec![lit("test"), lit("tests"), lit("__tests__"), lit("spec"), lit("testdata")];
    assert(views(dirs@) =~= test_dirs());
    in_dir_named_exec(p.as_slice(), &dirs) || occurs_exec(name.as_slice(), lit(".test.").as_slice())
        || occurs_exec(name.as_slice(), lit(".spec.").as_slice()) || starts_with(
        name.as_slice(),
        lit("test_").as_slice(),
    ) || occurs_exec(name.as_slice(), lit("_test.").as_slice())
}

/// Left out unless the built-in exclusions are turned off: files under
/// dependency and build directories, and minified bundles (`.min.` in the
/// name).
pub open spec fn excluded_path(path: Seq<char>) -> bool {
    ||| in_dir_named(path, excluded_dirs())
    ||| occurs(split_on(path, '/').last(), ".min."@)
}

pub fn default_excluded(path: &str) -> (r: bool)
    ensures
        r == excluded_path(path@),
{
    let p = chars_of(path);
    let comps = split_chars(p.as_slice(), '/');
    proof {
        lemma_split_nonempty(p@, '/');
    }
    let name = &comps[comps.len() - 1];
    let dirs: Vec<Vec<char>> = vec![
        lit("node_modules"),
        lit("vendor"),
        lit("third_party"),
        lit("dist"),
        lit("build"),
        lit("target"),
        lit(".git"),
    ];
    assert(views(dirs@) =~= excluded_dirs());
    in_dir_named_exec(p.as_slice(), &dirs) || occurs_exec(name.as_slice(), lit(".min.").as_slice())
}

proof fn lemma_any_named_at(comps: Seq<Seq<char>>, names: Seq<Seq<char>>, k: int)
    requires
        0 <= k < comps.len(),
        names.contains(comps[k]),
    ensures
        any_named(comps, names),
    decreases comps.len(),
{
    if k < comps.len() - 1 {
        assert(comps.drop_last()[k] == comps[k]);
        lemma_any_named_at(comps.drop_last(), names, k);
    }
}

/// Every path with a directory named `node_modules`, `vendor`,
/// `third_party`, `dist`, `build`, `target` or `.git` is left out by the
/// built-in exclusions, wherever that directory stands in the path and
/// whatever lies below it.
pub proof fn lemma_built_in_dirs_excluded(dir: Seq<char>, name: Seq<char>, rest: Seq<char>)
    requires
        name == "node_modules"@ || name == "vendor"@ || name == "third_party"@ || name
            == "dist"@ || name == "build"@ || name == "target"@ || name == ".git"@,
    ensures
        excluded_path(dir + seq!['/'] + name + seq!['/'] + rest),
        excluded_path(name + seq!['/'] + rest),
{
    reveal_strlit("node_modules");
    reveal_strlit("vendor");
    reveal_strlit("third_party");
    reveal_strlit("dist");
    reveal_strlit("build");
    reveal_strlit("target");
    reveal_strlit(".git");
    let names = excluded_dirs();
    assert(names.contains(name)) by {
        if name == "node_modules"@ {
            assert(names[0] == name);
        } else if name == "vendor"@ {
            assert(names[1] == name);
        } else if name == "third_party"@ {
            assert(names[2] == name);
        } else if name == "dist"@ {
            assert(names[3] == name);
        } else if name == "build"@ {
            assert(names[4] == name);
        } else if name == "target"@ {
            assert(names[5] == name);
        } else {
            assert(names[6] == name);
        }
    }
    assert(forall|i: int| 0 <= i < name.len() ==> name[i] != '/');
    lemma_split_without_sep(name, '/');
    lemma_split_nonempty(rest, '/');
    let tail = name + seq!['/'] + rest;
    lemma_split_concat(name, rest, '/');
    let tail_comps = split_on(tail, '/');
    assert(tail_comps =~= seq![name] + split_on(rest, '/'));
    assert(tail_comps.drop_last()[0] == name);
    lemma_any_named_at(tail_comps.drop_last(), names, 0);
    let path = dir + seq!['/'] + name + seq!['/'] + rest;
    assert(path =~= dir + seq!['/'] + tail);
    lemma_split_concat(dir, tail, '/');
    let comps = split_on(path, '/');
    let k = split_on(dir, '/').len() as int;
    assert(comps =~= split_on(dir, '/') + tail_comps);
    assert(comps.drop_last()[k] == name);
    lemma_any_named_at(comps.drop_last(), names, k);
}

/// Why a file's contents are not scanned.
#[derive(Clone, Copy, Debug, PartialEq, Eq, Structural)]
pub enum SkipReason {
    Generated,
    Minified,
}

/// Lines longer than this mark minified code.
pub const MINIFIED_LINE: usize = 1000;

/// One of the lines carries `@generated` or `DO NOT EDIT`.
pub open spec fn marked_generated(lines: Seq<Seq<char>>) -> bool
    decreases lines.len(),
{
    if lines.len() == 0 {
        false
    } else {
        occurs(lines.last(), "@generated"@) || occurs(lines.last(), "DO NOT EDIT"@) || marked_generated(
            lines.drop_last(),
        )
    }
}

/// One of the lines is longer than `MINIFIED_LINE` characters.
pub open spec fn has_long_line(lines: Seq<Seq<char>>) -> bool
    decreases lines.len(),
{
    if lines.len() == 0 {
        false
    } else {
        lines.last().len() > MINIFIED_LINE || has_long_line(lines.drop_last())
    }
}

/// Generated: one of the first five lines carries `@generated` or
/// `DO NOT EDIT`. Minified: some line is longer than `MINIFIED_LINE`
/// characters.
pub open spec fn skip_reason(src: Seq<char>) -> Option<SkipReason> {
    let lines = lines_of(src);
    let head = if lines.len() < 5 {
        lines
    } else {
        lines.subrange(0, 5)
    };
    if marked_generated(head) {
        Some(SkipReason::Generated)
    } else if has_long_line(lines) {
        Some(SkipReason::Minified)
    } else {
        None
    }
}

pub fn content_skip_reason(src: &str) -> (r: Option<SkipReason>)
    ensures
        r == skip_reason(src@),
{
    let cs = chars_of(src);
    let lines = lines_chars(cs.as_slice());
    let ghost ls = lines_of(src@);
    let gen = lit("@generated");
    let dne = lit("DO NOT EDIT");
    let top = if lines.len() < 5 {
        lines.len()
    } else {
        5
    };
    let ghost head = if ls.len() < 5 {
        ls
    } else {
        ls.subrange(0, 5)
    };
    assert(head =~= ls.subrange(0, top as int));
    let mut generated = false;
    let mut k: usize = 0;
    while k < top
        invariant
            k <= top <= lines@.len(),
            views(lines@) == ls,
            gen@ == "@generated"@,
            dne@ == "DO NOT EDIT"@,
            generated == marked_generated(ls.subrange(0, k as int)),
        decreases top - k,
    {
        assert(ls.subrange(0, k + 1).drop_last() =~= ls.subrange(0, k as int));
        assert(lines@[k as int]@ == ls[k as int]);
        generated = generated || occurs_exec(lines[k].as_slice(), gen.as_slice()) || occurs_exec(
            lines[k].as_slice(),
            dne.as_slice(),
        );
        k = k + 1;
    }
    if generated {
        return Some(SkipReason::Generated);
    }
    let mut long = false;
    let mut j: usize = 0;
    while j < lines.len()
        invariant
            j <= lines@.len(),
            views(lines@) == ls,
            long == has_long_line(ls.subrange(0, j as int)),
        decreases lines@.len() - j,
    {
        assert(ls.subrange(0, j + 1).drop_last() =~= ls.subrange(0, j as int));
        assert(lines@[j as int]@ == ls[j as int]);
        long = long || lines[j].len() > MINIFIED_LINE;
        j = j + 1;
    }
    assert(ls.subrange(0, ls.len() as int) =~= ls);
    if long {
        Some(SkipReason::Minified)
    } else {
        None
    }
}

/// Shell-style pattern matching: `*` matches any run of characters
/// (slashes included), `?` any one character, anything else itself.
pub open spec fn glob(p: Seq<char>, s: Seq<char>) -> bool
    decreases p.len() + s.len(),
{
    if p.len() == 0 {
        s.len() == 0
    } else if p[0] == '*' {
        glob(p.drop_first(), s) || (s.len() > 0 && glob(p, s.drop_first()))
    } else {
        s.len() > 0 && (p[0] == '?' || p[0] == s[0]) && glob(p.drop_first(), s.drop_first())
    }
}

/// Whether `pattern` matches all of `text`.
pub fn glob_matches(pattern: &[char], text: &[char]) -> (r: bool)
    ensures
        r == glob(pattern@, text@),
{
    let np = pattern.len();
    let ns = text.len();
    // next[u]: the pattern from position i on matches text[u..].
    let mut next: Vec<bool> = Vec::new();
    let mut j: usize = 0;
    while j < ns
        invariant
            j <= ns == text@.len(),
            next@.len() == j,
            forall|t: int| 0 <= t < j ==> !#[trigger] next@[t],
        decreases ns - j,
    {
        next.push(false);
        j = j + 1;
    }
    next.push(true);
    proof {
        assert forall|t: int| 0 <= t <= ns implies #[trigger] next@[t] == glob(
            pattern@.subrange(np as int, np as int),
            text@.subrange(t, ns as int),
        ) by {
            assert(pattern@.subrange(np as int, np as int).len() == 0);
        }
    }
    let mut i = np;
    while i > 0
        invariant
            i <= np == pattern@.len(),
            ns == text@.len(),
            next@.len() == ns + 1,
            forall|t: int|
                0 <= t <= ns ==> #[trigger] next@[t] == glob(
                    pattern@.subrange(i as int, np as int),
                    text@.subrange(t, ns as int),
                ),
        decreases i,
    {
        let c = pattern[i - 1];
        let ghost pi = pattern@.subrange(i - 1, np as int);
        assert(pi.drop_first() =~= pattern@.subrange(i as int, np as int));
        assert(pi[0] == c);
        let mut row: Vec<bool> = Vec::new();
        let mut k: usize = 0;
        while k < ns
            invariant
                k <= ns,
                row@.len() == k,
            decreases ns - k,
        {
            row.push(false);
            k = k + 1;
        }
        row.push(false);
        // The last cell: nothing of the text is left.
        let last = if c == '*' {
            next[ns]
        } else {
            false
        };
        proof {
            let rest = text@.subrange(ns as int, ns as int);
            assert(rest.len() == 0);
        }
        row.set(ns, last);
        let mut t = ns;
        while t > 0
            invariant
                t <= ns,
                row@.len() == ns + 1,
                next@.len() == ns + 1,
                ns == text@.len(),
                i >= 1,
                i <= np == pattern@.len(),
                pi == pattern@.subrange(i - 1, np as int),
                pi[0] == c,
                pi.drop_first() == pattern@.subrange(i as int, np as int),
                forall|u: int|
                    0 <= u <= ns ==> #[trigger] next@[u] == glob(pi.drop_first(), text@.subrange(u, ns as int)),
                forall|u: int| t <= u <= ns ==> #[trigger] row@[u] == glob(pi, text@.subrange(u, ns as int)),
            decreases t,
        {
            let u = t - 1;
            let ghost rest = text@.subrange(u as int, ns as int);
            proof {
                assert(rest.drop_first() =~= text@.subrange(u + 1, ns as int));
                assert(rest[0] == text@[u as int]);
            }
            let v = if c == '*' {
                next[u] || row[u + 1]
            } else {
                (c == '?' || c == text[u]) && next[u + 1]
            };
            row.set(u, v);
            t = u;
        }
        next = row;
        i = i - 1;
    }
    assert(pattern@.subrange(0, np as int) =~= pattern@);
    assert(text@.subrange(0, ns as int) =~= text@);
    next[0]
}

/// `path` matches one of the exclusion patterns.
pub open spec fn excluded_by(path: Seq<char>, patterns: Seq<Seq<char>>) -> bool {
    exists|k: int| 0 <= k < patterns.len() && glob(#[trigger] patterns[k], path)
}

pub fn matches_any(path: &str, patterns: &Vec<String>) -> (r: bool)
    ensures
        r == excluded_by(path@, patterns@.map_values(|p: String| p@)),
{
    let p = chars_of(path);
    let ghost ps = patterns@.map_values(|q: String| q@);
    let mut k: usize = 0;
    while k < patterns.len()
        invariant
            k <= patterns@.len(),
            ps == patterns@.map_values(|q: String| q@),
            p@ == path@,
            forall|j: int| 0 <= j < k ==> !glob(#[trigger] ps[j], path@),
        decreases patterns@.len() - k,
    {
        let pat = chars_of(patterns[k].as_str());
        assert(ps[k as int] == patterns@[k as int]@);
        if glob_matches(pat.as_slice(), p.as_slice()) {
            assert(glob(ps[k as int], path@));
            return true;
        }
        k = k + 1;
    }
    false
}

/// A file of a git snapshot is read when it is in a supported language and,
/// with the built-in exclusions on, not excluded by them.
pub open spec fn snapshot_path(path: Seq<char>, default_excludes: bool) -> bool {
    lang_of_path(path) is Some && !(default_excludes && excluded_path(path))
}

pub fn in_snapshot(path: &str, default_excludes: bool) -> (r: bool)
    ensures
        r == snapshot_path(path@, default_excludes),
{
    Lang::from_path(path).is_some() && !(default_excludes && default_excluded(path))
}

} // verus!
