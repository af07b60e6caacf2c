//! Function units: what a parsed file contributes to the index. The parser
//! reports each captured function (its name, its span and the leaves of its
//! body); this module normalizes and fingerprints the bodies, drops the
//! ones too small to compare, and marks test code.

use vstd::prelude::*;
use crate::config::{KGRAM, WINDOW};
use crate::fingerprint::{fingerprint_set, strictly_increasing, winnow};
use crate::lang::{Lang, TokenClass};
use crate::normalize::{codes_of, line_count, normalize, significant_lines, Leaf};
use crate::text::{chars_of, has_prefix, is_white_space, is_ws, trim_start};

verus! {

/// One function (or method) found in a file. The unit of duplicate
/// comparison is the *body*, so signatures, imports and license headers
/// never participate in matches.
#[derive(Clone, Debug)]
pub struct FunctionUnit {
    pub file: u32,
    pub lang: Lang,
    pub name: String,
    /// 1-based, spanning the whole function node (for reporting).
    pub start_line: u32,
    pub end_line: u32,
    /// Byte range of the whole function node (for --explain output).
    pub start_byte: u32,
    pub end_byte: u32,
    /// Significant lines in the body.
    pub sig_lines: u32,
    /// Sorted, distinct winnowing fingerprints of the body.
    pub fingerprints: Vec<u64>,
    pub is_test: bool,
    /// A Rust method of a trait impl (`impl Display for ..`): each impl is
    /// required, so such copies cannot be merged.
    pub is_trait_impl_method: bool,
}

pub struct FileAnalysis {
    pub functions: Vec<FunctionUnit>,
    pub sig_lines: u32,
    pub total_lines: u32,
}

/// Position of a captured function node: 0-based rows, byte offsets.
#[derive(Clone, Copy, Debug)]
pub struct Span {
    pub start_row: u32,
    pub end_row: u32,
    pub start_byte: u32,
    pub end_byte: u32,
}

/// One match of a language's function query: the `@name` text, the
/// `@func` node's span and the leaves of the `@body` node, each when
/// captured.
pub struct Capture {
    pub name: Option<String>,
    pub func: Option<Span>,
    pub body: Option<Vec<Leaf>>,
    /// The `@func` node is a method inside `impl Trait for Type`.
    pub trait_impl: bool,
}

/// The first `{` or `;` in `s`.
pub open spec fn first_brace_or_semi(s: Seq<char>) -> Option<char>
    decreases s.len(),
{
    if s.len() == 0 {
        None
    } else if s[0] == '{' || s[0] == ';' {
        Some(s[0])
    } else {
        first_brace_or_semi(s.drop_first())
    }
}

pub open spec fn cfg_test_attr() -> Seq<char> {
    seq!['#', '[', 'c', 'f', 'g', '(', 't', 'e', 's', 't', ')', ']']
}

/// What follows a `#[cfg(test)]` introduces an inline module: optional
/// `pub `, then `mod` and a space or tab, with a `{` before any `;`.
pub open spec fn introduces_inline_mod(rest: Seq<char>) -> bool {
    let t = trim_start(rest);
    let t = if has_prefix(t, seq!['p', 'u', 'b', ' ']) {
        t.subrange(4, t.len() as int)
    } else {
        t
    };
    (has_prefix(t, seq!['m', 'o', 'd', ' ']) || has_prefix(t, seq!['m', 'o', 'd', '\t']))
        && first_brace_or_semi(t) == Some('{')
}

/// The `#[cfg(test)]` attribute starts at char index `i` and heads an
/// inline test module.
pub open spec fn test_mod_at(s: Seq<char>, i: int) -> bool {
    &&& 0 <= i
    &&& i + 12 <= s.len()
    &&& s.subrange(i, i + 12) == cfg_test_attr()
    &&& introduces_inline_mod(s.subrange(i + 12, s.len() as int))
}

/// The first char index at or after `from` where a test module starts.
pub open spec fn first_test_mod_from(s: Seq<char>, from: int) -> Option<int>
    decreases s.len() - from,
{
    if from < 0 || from + 12 > s.len() {
        None
    } else if test_mod_at(s, from) {
        Some(from)
    } else {
        first_test_mod_from(s, from + 1)
    }
}

/// Bytes in the UTF-8 encoding of `c`.
pub open spec fn utf8_width(c: char) -> nat {
    if (c as u32) < 0x80 {
        1
    } else if (c as u32) < 0x800 {
        2
    } else if (c as u32) < 0x10000 {
        3
    } else {
        4
    }
}

/// Bytes in the UTF-8 encoding of `s`: the byte offset just past `s`.
pub open spec fn utf8_len(s: Seq<char>) -> nat
    decreases s.len(),
{
    if s.len() == 0 {
        0
    } else {
        utf8_len(s.drop_last()) + utf8_width(s.last())
    }
}

/// Byte offset (truncated to `u32`) of the first `#[cfg(test)]` attribute
/// whose next item is an inline `mod` declaration.
pub open spec fn cfg_test_offset(s: Seq<char>) -> Option<u32> {
    match first_test_mod_from(s, 0) {
        Some(i) => Some(utf8_len(s.subrange(0, i)) as u32),
        None => None,
    }
}

fn trim_start_at(s: &Vec<char>, from: usize) -> (r: usize)
    requires
        from <= s@.len(),
    ensures
        from <= r <= s@.len(),
        s@.subrange(r as int, s@.len() as int) == trim_start(s@.subrange(from as int, s@.len() as int)),
{
    let mut i = from;
    while i < s.len() && is_ws(s[i])
        invariant
            from <= i <= s@.len(),
            trim_start(s@.subrange(i as int, s@.len() as int)) == trim_start(
                s@.subrange(from as int, s@.len() as int),
            ),
        decreases s@.len() - i,
    {
        proof {
            assert(s@.subrange(i as int, s@.len() as int).drop_first() =~= s@.subrange(
                i + 1,
                s@.len() as int,
            ));
        }
        i = i + 1;
    }
    i
}

fn has_prefix_at(s: &Vec<char>, at: usize, p: &Vec<char>) -> (r: bool)
    requires
        at <= s@.len(),
    ensures
        r == has_prefix(s@.subrange(at as int, s@.len() as int), p@),
{
    if p.len() > s.len() - at {
        return false;
    }
    let mut i: usize = 0;
    while i < p.len()
        invariant
            at <= s@.len(),
            s@.len() == s.len(),
            p@.len() <= s@.len() - at,
            i <= p@.len(),
            forall|j: int| 0 <= j < i ==> s@[at + j] == p@[j],
        decreases p@.len() - i,
    {
        if s[at + i] != p[i] {
            assert(s@.subrange(at as int, s@.len() as int).subrange(0, p@.len() as int)[i as int]
                != p@[i as int]);
            return false;
        }
        i = i + 1;
    }
    assert(s@.subrange(at as int, s@.len() as int).subrange(0, p@.len() as int) =~= p@);
    true
}

fn inline_mod_at(s: &Vec<char>, from: usize) -> (r: bool)
    requires
        from <= s@.len(),
    ensures
        r == introduces_inline_mod(s@.subrange(from as int, s@.len() as int)),
{
    let t = trim_start_at(s, from);
    let pub_kw: Vec<char> = vec!['p', 'u', 'b', ' '];
    assert(pub_kw@ =~= seq!['p', 'u', 'b', ' ']);
    let has_pub = has_prefix_at(s, t, &pub_kw);
    let t2 = if has_pub {
        assert(s@.len() == s.len());
        t + 4
    } else {
        t
    };
    proof {
        let ts = s@.subrange(t as int, s@.len() as int);
        if has_prefix(ts, seq!['p', 'u', 'b', ' ']) {
            assert(ts.subrange(4, ts.len() as int) =~= s@.subrange(t2 as int, s@.len() as int));
        }
    }
    let m1: Vec<char> = vec!['m', 'o', 'd', ' '];
    let m2: Vec<char> = vec!['m', 'o', 'd', '\t'];
    assert(m1@ =~= seq!['m', 'o', 'd', ' ']);
    assert(m2@ =~= seq!['m', 'o', 'd', '\t']);
    if !(has_prefix_at(s, t2, &m1) || has_prefix_at(s, t2, &m2)) {
        return false;
    }
    let mut i = t2;
    while i < s.len() && s[i] != '{' && s[i] != ';'
        invariant
            t2 <= i <= s@.len(),
            first_brace_or_semi(s@.subrange(i as int, s@.len() as int)) == first_brace_or_semi(
                s@.subrange(t2 as int, s@.len() as int),
            ),
        decreases s@.len() - i,
    {
        proof {
            assert(s@.subrange(i as int, s@.len() as int).drop_first() =~= s@.subrange(
                i + 1,
                s@.len() as int,
            ));
        }
        i = i + 1;
    }
    i < s.len() && s[i] == '{'
}

/// Byte offset of the first `#[cfg(test)]` attribute whose next item is an
/// inline `mod` declaration (`mod tests { ... }`), if any. A `mod tests;`
/// or a bare `#[cfg(test)] use ...` does not count.
pub fn cfg_test_mod_offset(src: &str) -> (r: Option<u32>)
    ensures
        r == cfg_test_offset(src@),
{
    let s = chars_of(src);
    let attr: Vec<char> = vec!['#', '[', 'c', 'f', 'g', '(', 't', 'e', 's', 't', ')', ']'];
    assert(attr@ =~= cfg_test_attr());
    let n = s.len();
    let mut i: usize = 0;
    let mut bytes: u128 = 0;
    assert(s@.subrange(0, 0) =~= Seq::<char>::empty());
    while i < n && n - i >= 12
        invariant
            n == s@.len(),
            s@ == src@,
            attr@ == cfg_test_attr(),
            i <= n,
            first_test_mod_from(s@, i as int) == first_test_mod_from(s@, 0),
            bytes == utf8_len(s@.subrange(0, i as int)),
            bytes <= 4 * i,
        decreases n - i,
    {
        if has_prefix_at(&s, i, &attr) && inline_mod_at(&s, i + 12) {
            proof {
                assert(s@.subrange(i as int, n as int).subrange(0, 12) =~= s@.subrange(
                    i as int,
                    i + 12,
                ));
                assert(test_mod_at(s@, i as int));
                assert(first_test_mod_from(s@, i as int) == Some(i as int));
                assert(first_test_mod_from(s@, 0) == Some(i as int));
                assert(cfg_test_offset(src@) == Some(utf8_len(s@.subrange(0, i as int)) as u32));
            }
            return Some(bytes as u32);
        }
        proof {
            assert(s@.subrange(i as int, n as int).subrange(0, 12) =~= s@.subrange(
                i as int,
                i + 12,
            ));
            assert(!test_mod_at(s@, i as int));
        }
        let c = s[i];
        let w: u128 = if (c as u32) < 0x80 {
            1
        } else if (c as u32) < 0x800 {
            2
        } else if (c as u32) < 0x10000 {
            3
        } else {
            4
        };
        proof {
            assert(s@.subrange(0, i + 1).drop_last() =~= s@.subrange(0, i as int));
            assert(s@.subrange(0, i + 1).last() == c);
        }
        bytes = bytes + w;
        i = i + 1;
    }
    None
}

/// `src.lines().count()`: lines, where a final line need not end in `\n`
/// and nothing follows a final `\n`.
pub open spec fn newline_count(s: Seq<char>) -> nat
    decreases s.len(),
{
    if s.len() == 0 {
        0
    } else {
        newline_count(s.drop_last()) + if s.last() == '\n' {
            1nat
        } else {
            0nat
        }
    }
}

pub open spec fn lines_in(s: Seq<char>) -> nat {
    if s.len() == 0 {
        0
    } else if s.last() == '\n' {
        newline_count(s)
    } else {
        newline_count(s) + 1
    }
}

proof fn lemma_newline_count_bound(s: Seq<char>)
    ensures
        newline_count(s) <= s.len(),
    decreases s.len(),
{
    if s.len() > 0 {
        lemma_newline_count_bound(s.drop_last());
    }
}

/// Number of lines of `src`, as `str::lines` counts them.
pub fn count_lines(src: &str) -> (n: usize)
    ensures
        n == lines_in(src@),
{
    let s = chars_of(src);
    let mut count: usize = 0;
    let mut i: usize = 0;
    while i < s.len()
        invariant
            i <= s@.len(),
            count == newline_count(s@.subrange(0, i as int)),
            count <= i,
        decreases s@.len() - i,
    {
        proof {
            assert(s@.subrange(0, i + 1).drop_last() =~= s@.subrange(0, i as int));
        }
        if s[i] == '\n' {
            count = count + 1;
        }
        i = i + 1;
    }
    assert(s@.subrange(0, s@.len() as int) =~= s@);
    if s.len() > 0 && s[s.len() - 1] != '\n' {
        proof {
            assert(s@.subrange(0, s@.len() - 1) =~= s@.drop_last());
            lemma_newline_count_bound(s@.drop_last());
        }
        count = count + 1;
    }
    count
}

pub open spec fn anonymous_name() -> Seq<char> {
    seq!['<', 'a', 'n', 'o', 'n', 'y', 'm', 'o', 'u', 's', '>']
}

/// A capture becomes a unit when it has a body and a function node and its
/// body normalizes to at least `min_tokens` codes and one k-gram.
pub open spec fn keeps(c: Capture, min_tokens: nat) -> bool {
    &&& c.func is Some
    &&& c.body is Some
    &&& codes_of(c.body->0@).len() >= min_tokens
    &&& codes_of(c.body->0@).len() >= KGRAM
}

/// Where the test region of a file starts: Rust files not already test
/// files have their tail after the first inline `#[cfg(test)] mod`.
pub open spec fn test_boundary(lang: Lang, src: Seq<char>, file_is_test: bool) -> Option<u32> {
    if lang == Lang::Rust && !file_is_test {
        cfg_test_offset(src)
    } else {
        None
    }
}

/// The unit built from a kept capture.
pub open spec fn unit_matches(
    u: FunctionUnit,
    c: Capture,
    file: u32,
    lang: Lang,
    boundary: Option<u32>,
    file_is_test: bool,
) -> bool {
    let span = c.func->0;
    let body = c.body->0@;
    &&& u.file == file
    &&& u.lang == lang
    &&& u.name@ == match c.name {
        Some(n) => n@,
        None => anonymous_name(),
    }
    &&& u.start_line == span.start_row + 1
    &&& u.end_line == span.end_row + 1
    &&& u.start_byte == span.start_byte
    &&& u.end_byte == span.end_byte
    &&& u.sig_lines == line_count(body)
    &&& strictly_increasing(u.fingerprints@)
    &&& forall|v: u64|
        u.fingerprints@.contains(v) <==> fingerprint_set(codes_of(body), KGRAM as nat, WINDOW as nat).contains(v)
    &&& u.is_test == (file_is_test || match boundary {
        Some(b) => span.start_byte >= b,
        None => false,
    })
    &&& u.is_trait_impl_method == (lang == Lang::Rust && c.trait_impl)
}

/// The captures that become units, in order.
pub open spec fn kept_captures(caps: Seq<Capture>, min_tokens: nat) -> Seq<Capture> {
    caps.filter(|c: Capture| keeps(c, min_tokens))
}

/// A function span as a parser gives it for `src`: rows in order and
/// fitting a 1-based `u32` line number, bytes in order within the source.
pub open spec fn span_ok(s: Span, src: Seq<char>) -> bool {
    &&& s.start_row <= s.end_row < u32::MAX
    &&& s.start_byte <= s.end_byte
    &&& s.end_byte <= utf8_len(src)
}

/// Captures the parser can hand over for `src`: well-formed spans, bodies
/// whose leaf count fits `u32`.
pub open spec fn captures_in_range(caps: Seq<Capture>, src: Seq<char>) -> bool {
    forall|i: int|
        0 <= i < caps.len() ==> {
            &&& (#[trigger] caps[i]).func matches Some(s) ==> span_ok(s, src)
            &&& caps[i].body matches Some(b) ==> b@.len() <= u32::MAX
        }
}

proof fn lemma_kept_push(pre: Seq<Capture>, c: Capture, min_tokens: nat)
    ensures
        kept_captures(pre.push(c), min_tokens) == if keeps(c, min_tokens) {
            kept_captures(pre, min_tokens).push(c)
        } else {
            kept_captures(pre, min_tokens)
        },
{
    reveal(Seq::filter);
    assert(pre.push(c).drop_last() =~= pre);
}

/// The unit a capture yields, if it yields one.
fn unit_of(
    c: &Capture,
    file: u32,
    lang: Lang,
    boundary: Option<u32>,
    min_tokens: usize,
    file_is_test: bool,
) -> (r: Option<FunctionUnit>)
    requires
        c.func matches Some(s) ==> s.start_row < u32::MAX && s.end_row < u32::MAX,
        c.body matches Some(b) ==> b@.len() <= u32::MAX,
    ensures
        r is Some <==> keeps(*c, min_tokens as nat),
        r matches Some(u) ==> unit_matches(u, *c, file, lang, boundary, file_is_test),
{
    match (&c.body, &c.func) {
        (Some(body), Some(span)) => {
            let normalized = normalize(body.as_slice());
            if normalized.codes.len() < min_tokens {
                return None;
            }
            let fps = winnow(normalized.codes.as_slice(), KGRAM, WINDOW);
            proof {
                crate::fingerprint::lemma_fingerprint_set_nonempty(
                    normalized.codes@,
                    KGRAM as nat,
                    WINDOW as nat,
                );
                if fps@.len() > 0 {
                    assert(fps@.contains(fps@[0]));
                } else {
                    assert forall|v: u64| !crate::fingerprint::fingerprint_set(
                        normalized.codes@,
                        KGRAM as nat,
                        WINDOW as nat,
                    ).contains(v) by {
                        assert(!fps@.contains(v));
                    }
                }
            }
            if fps.len() == 0 {
                return None;
            }
            let name = match &c.name {
                Some(n) => n.clone(),
                None => {
                    let a: Vec<char> = vec!['<', 'a', 'n', 'o', 'n', 'y', 'm', 'o', 'u', 's', '>'];
                    assert(a@ =~= anonymous_name());
                    crate::text::string_of(a.as_slice())
                },
            };
            let is_test = file_is_test || match boundary {
                Some(bnd) => span.start_byte >= bnd,
                None => false,
            };
            Some(
                FunctionUnit {
                    file,
                    lang,
                    name,
                    start_line: span.start_row + 1,
                    end_line: span.end_row + 1,
                    start_byte: span.start_byte,
                    end_byte: span.end_byte,
                    sig_lines: normalized.sig_lines,
                    fingerprints: fps,
                    is_test,
                    is_trait_impl_method: lang == Lang::Rust && c.trait_impl,
                },
            )
        },
        _ => None,
    }
}

/// Normalize and fingerprint every captured function of a parsed file.
/// `file` is the caller's file id, stamped on each unit. `file_is_test`
/// marks all units as test code; Rust additionally marks functions inside
/// an inline `#[cfg(test)]` module. Functions under `min_tokens` normalized
/// tokens, or too short for one k-gram, are skipped.
pub fn analyze_captures(
    file: u32,
    lang: Lang,
    src: &str,
    captures: &Vec<Capture>,
    root_leaves: &[Leaf],
    min_tokens: usize,
    file_is_test: bool,
) -> (fa: FileAnalysis)
    requires
        captures_in_range(captures@, src@),
        root_leaves@.len() <= u32::MAX,
    ensures
        fa.sig_lines == line_count(root_leaves@),
        forall|i: int|
            0 <= i < fa.functions@.len() ==> {
                let u = #[trigger] fa.functions@[i];
                &&& 1 <= u.start_line <= u.end_line
                &&& u.start_byte <= u.end_byte
                &&& u.end_byte <= utf8_len(src@)
            },
        fa.total_lines == lines_in(src@) as u32,
        fa.functions@.len() == kept_captures(captures@, min_tokens as nat).len(),
        forall|i: int|
            0 <= i < fa.functions@.len() ==> unit_matches(
                #[trigger] fa.functions@[i],
                kept_captures(captures@, min_tokens as nat)[i],
                file,
                lang,
                test_boundary(lang, src@, file_is_test),
                file_is_test,
            ),
{
    let boundary = if lang == Lang::Rust && !file_is_test {
        cfg_test_mod_offset(src)
    } else {
        None
    };
    let ghost b = test_boundary(lang, src@, file_is_test);
    assert(boundary == b);
    let mut functions: Vec<FunctionUnit> = Vec::new();
    let mut i: usize = 0;
    assert(captures@.subrange(0, 0) =~= Seq::<Capture>::empty());
    while i < captures.len()
        invariant
            i <= captures@.len(),
            captures_in_range(captures@, src@),
            boundary == b,
            functions@.len() == kept_captures(captures@.subrange(0, i as int), min_tokens as nat).len(),
            forall|j: int|
                0 <= j < functions@.len() ==> unit_matches(
                    #[trigger] functions@[j],
                    kept_captures(captures@.subrange(0, i as int), min_tokens as nat)[j],
                    file,
                    lang,
                    b,
                    file_is_test,
                ),
            forall|j: int|
                0 <= j < functions@.len() ==> {
                    let u = #[trigger] functions@[j];
                    &&& 1 <= u.start_line <= u.end_line
                    &&& u.start_byte <= u.end_byte
                    &&& u.end_byte <= utf8_len(src@)
                },
        decreases captures@.len() - i,
    {
        let c = &captures[i];
        let ghost pre = captures@.subrange(0, i as int);
        proof {
            assert(captures@.subrange(0, i + 1) =~= pre.push(*c));
            lemma_kept_push(pre, *c, min_tokens as nat);
            assert(captures@[i as int] == *c);
        }
        let ghost before = functions@;
        let r = unit_of(c, file, lang, boundary, min_tokens, file_is_test);
        match r {
            Some(u) => {
                proof {
                    assert(captures_in_range(captures@, src@));
                    assert(c.func matches Some(sp) ==> span_ok(sp, src@));
                }
                functions.push(u);
            },
            None => {},
        }
        proof {
            let kn = kept_captures(captures@.subrange(0, i + 1), min_tokens as nat);
            assert forall|j: int| 0 <= j < functions@.len() implies unit_matches(
                #[trigger] functions@[j],
                kn[j],
                file,
                lang,
                b,
                file_is_test,
            ) by {
                if j < before.len() {
                    assert(functions@[j] == before[j]);
                }
            }
        }
        i = i + 1;
    }
    assert(captures@.subrange(0, captures@.len() as int) =~= captures@);
    let total = count_lines(src);
    FileAnalysis { functions, sig_lines: significant_lines(root_leaves), total_lines: total as u32 }
}

/// Bodies that differ only in identifiers, literals and the kind ids of
/// folded leaves: leaf for leaf the same class and row, and the same kind
/// id wherever the leaf is structural.
pub open spec fn renamed_bodies(a: Seq<Leaf>, b: Seq<Leaf>) -> bool {
    &&& a.len() == b.len()
    &&& forall|i: int|
        0 <= i < a.len() ==> #[trigger] a[i].class == b[i].class && a[i].row == b[i].row && (
        a[i].class == TokenClass::Other ==> a[i].kind_id == b[i].kind_id)
}

/// A renamed clone is found: two analyzed functions whose bodies differ
/// only by renaming have identical fingerprints and the same number of
/// significant lines.
pub proof fn lemma_renamed_clones_fingerprint_alike(
    u1: FunctionUnit,
    c1: Capture,
    u2: FunctionUnit,
    c2: Capture,
    file: u32,
    lang: Lang,
    boundary: Option<u32>,
    file_is_test: bool,
)
    requires
        unit_matches(u1, c1, file, lang, boundary, file_is_test),
        unit_matches(u2, c2, file, lang, boundary, file_is_test),
        renamed_bodies(c1.body->0@, c2.body->0@),
    ensures
        u1.fingerprints@ == u2.fingerprints@,
        u1.sig_lines == u2.sig_lines,
{
    crate::normalize::lemma_renaming_does_not_affect_normalization(c1.body->0@, c2.body->0@);
    crate::fingerprint::lemma_increasing_listing_unique(u1.fingerprints@, u2.fingerprints@);
}

/// The UTF-8 length of `s`, in bytes.
pub fn utf8_len_of(s: &str) -> (n: u128)
    ensures
        n == utf8_len(s@),
{
    let cs = chars_of(s);
    let mut n: u128 = 0;
    let mut i: usize = 0;
    while i < cs.len()
        invariant
            i <= cs@.len(),
            cs@ == s@,
            n == utf8_len(cs@.subrange(0, i as int)),
            n <= 4 * i,
        decreases cs@.len() - i,
    {
        let u = cs[i] as u32;
        let b: u128 = if u < 0x80 {
            1
        } else if u < 0x800 {
            2
        } else if u < 0x10000 {
            3
        } else {
            4
        };
        proof {
            assert(cs@.subrange(0, i + 1).drop_last() =~= cs@.subrange(0, i as int));
        }
        n = n + b;
        i = i + 1;
    }
    assert(cs@.subrange(0, cs@.len() as int) =~= cs@);
    n
}

/// `fa` is the analysis of `captures` and `root_leaves` of `src`, as
/// `analyze_captures` gives it.
pub open spec fn analysis_ok(
    fa: FileAnalysis,
    captures: Seq<Capture>,
    root_leaves: Seq<Leaf>,
    file: u32,
    lang: Lang,
    src: Seq<char>,
    min_tokens: nat,
    file_is_test: bool,
) -> bool {
    &&& fa.sig_lines == line_count(root_leaves)
    &&& fa.total_lines == lines_in(src) as u32
    &&& fa.functions@.len() == kept_captures(captures, min_tokens).len()
    &&& forall|i: int|
        0 <= i < fa.functions@.len() ==> unit_matches(
            #[trigger] fa.functions@[i],
            kept_captures(captures, min_tokens)[i],
            file,
            lang,
            test_boundary(lang, src, file_is_test),
            file_is_test,
        )
    &&& forall|i: int|
        0 <= i < fa.functions@.len() ==> {
            let u = #[trigger] fa.functions@[i];
            &&& 1 <= u.start_line <= u.end_line
            &&& u.start_byte <= u.end_byte
            &&& u.end_byte <= utf8_len(src)
        }
}

/// A capture is kept only when its body reaches `min_tokens` normalized
/// tokens (comments dropped, runs of one literal counted once), and
/// comment leaves never decide it: a capture and the same capture with
/// its body's comments removed are kept alike.
pub proof fn lemma_kept_by_normalized_tokens(c: Capture, d: Capture, min_tokens: nat)
    requires
        d.func == c.func,
        c.body matches Some(b) && d.body matches Some(e) && e@ == crate::normalize::without_comments(b@),
    ensures
        keeps(c, min_tokens) ==> codes_of(c.body->0@).len() >= min_tokens,
        keeps(c, min_tokens) == keeps(d, min_tokens),
{
    crate::normalize::lemma_comments_do_not_affect_normalization(c.body->0@);
}

} // verus!
