//! Supported languages, recognised by file extension, and the token classes
//! that normalization folds leaves into.

use vstd::prelude::*;
use crate::text::{chars_eq, chars_of, lemma_split_nonempty, split_chars, split_on};

verus! {

#[derive(Clone, Copy, PartialEq, Eq, Hash, Debug, Structural)]
pub enum Lang {
    Typescript,
    Tsx,
    Javascript,
    Python,
    Rust,
    Go,
    Java,
    Ruby,
    Swift,
    C,
    Cpp,
    Php,
    CSharp,
    Kotlin,
}

/// What a syntax leaf becomes in a normalized token stream.
#[derive(Clone, Copy, PartialEq, Eq, Hash, Debug, Structural)]
pub enum TokenClass {
    /// Identifiers: folded to one sentinel so renames do not matter.
    Ident,
    /// String literal pieces: folded to one sentinel.
    Str,
    /// Numeric literals: folded to one sentinel.
    Num,
    /// Comments: dropped.
    Comment,
    /// Everything structural: kept as its grammar kind id.
    Other,
}

/// The last `/`-separated component of a path.
pub open spec fn file_name(path: Seq<char>) -> Seq<char> {
    split_on(path, '/').last()
}

/// The text after the final `.` of the file name; none when the name has no
/// `.`, or its only `.` is the leading one (a dot file).
pub open spec fn extension_of(path: Seq<char>) -> Option<Seq<char>> {
    let parts = split_on(file_name(path), '.');
    if parts.len() < 2 || (parts.len() == 2 && parts[0].len() == 0) {
        None
    } else {
        Some(parts.last())
    }
}

/// The language a file extension names.
pub open spec fn lang_for_extension(e: Seq<char>) -> Option<Lang> {
    if e == seq!['t', 's'] || e == seq!['m', 't', 's'] || e == seq!['c', 't', 's'] {
        Some(Lang::Typescript)
    } else if e == seq!['t', 's', 'x'] {
        Some(Lang::Tsx)
    } else if e == seq!['j', 's'] || e == seq!['j', 's', 'x'] || e == seq!['m', 'j', 's'] || e
        == seq!['c', 'j', 's'] {
        Some(Lang::Javascript)
    } else if e == seq!['p', 'y'] || e == seq!['p', 'y', 'i'] {
        Some(Lang::Python)
    } else if e == seq!['r', 's'] {
        Some(Lang::Rust)
    } else if e == seq!['g', 'o'] {
        Some(Lang::Go)
    } else if e == seq!['j', 'a', 'v', 'a'] {
        Some(Lang::Java)
    } else if e == seq!['r', 'b'] {
        Some(Lang::Ruby)
    } else if e == seq!['s', 'w', 'i', 'f', 't'] {
        Some(Lang::Swift)
    } else if e == seq!['c'] || e == seq!['h'] {
        Some(Lang::C)
    } else if e == seq!['c', 'c'] || e == seq!['c', 'p', 'p'] || e == seq!['c', 'x', 'x'] || e
        == seq!['h', 'h'] || e == seq!['h', 'p', 'p'] || e == seq!['h', 'x', 'x'] {
        Some(Lang::Cpp)
    } else if e == seq!['p', 'h', 'p'] {
        Some(Lang::Php)
    } else if e == seq!['c', 's'] {
        Some(Lang::CSharp)
    } else if e == seq!['k', 't'] || e == seq!['k', 't', 's'] {
        Some(Lang::Kotlin)
    } else {
        None
    }
}

/// The language of the file at `path`, by its extension.
pub open spec fn lang_of_path(path: Seq<char>) -> Option<Lang> {
    match extension_of(path) {
        Some(e) => lang_for_extension(e),
        None => None,
    }
}

fn extension_lang(e: &Vec<char>) -> (r: Option<Lang>)
    ensures
        r == lang_for_extension(e@),
{
    let w_ts: Vec<char> = vec!['t', 's'];
    assert(w_ts@ =~= seq!['t', 's']);
    let w_mts: Vec<char> = vec!['m', 't', 's'];
    assert(w_mts@ =~= seq!['m', 't', 's']);
    let w_cts: Vec<char> = vec!['c', 't', 's'];
    assert(w_cts@ =~= seq!['c', 't', 's']);
    if chars_eq(e.as_slice(), w_ts.as_slice()) || chars_eq(e.as_slice(), w_mts.as_slice()) || chars_eq(e.as_slice(), w_cts.as_slice()) {
        return Some(Lang::Typescript);
    }
    let w_tsx: Vec<char> = vec!['t', 's', 'x'];
    assert(w_tsx@ =~= seq!['t', 's', 'x']);
    if chars_eq(e.as_slice(), w_tsx.as_slice()) {
        return Some(Lang::Tsx);
    }
    let w_js: Vec<char> = vec!['j', 's'];
    assert(w_js@ =~= seq!['j', 's']);
    let w_jsx: Vec<char> = vec!['j', 's', 'x'];
    assert(w_jsx@ =~= seq!['j', 's', 'x']);
    let w_mjs: Vec<char> = vec!['m', 'j', 's'];
    assert(w_mjs@ =~= seq!['m', 'j', 's']);
    let w_cjs: Vec<char> = vec!['c', 'j', 's'];
    assert(w_cjs@ =~= seq!['c', 'j', 's']);
    if chars_eq(e.as_slice(), w_js.as_slice()) || chars_eq(e.as_slice(), w_jsx.as_slice()) || chars_eq(e.as_slice(), w_mjs.as_slice()) || chars_eq(e.as_slice(), w_cjs.as_slice()) {
        return Some(Lang::Javascript);
    }
    let w_py: Vec<char> = vec!['p', 'y'];
    assert(w_py@ =~= seq!['p', 'y']);
    let w_pyi: Vec<char> = vec!['p', 'y', 'i'];
    assert(w_pyi@ =~= seq!['p', 'y', 'i']);
    if chars_eq(e.as_slice(), w_py.as_slice()) || chars_eq(e.as_slice(), w_pyi.as_slice()) {
        return Some(Lang::Python);
    }
    let w_rs: Vec<char> = vec!['r', 's'];
    assert(w_rs@ =~= seq!['r', 's']);
    if chars_eq(e.as_slice(), w_rs.as_slice()) {
        return Some(Lang::Rust);
    }
    let w_go: Vec<char> = vec!['g', 'o'];
    assert(w_go@ =~= seq!['g', 'o']);
    if chars_eq(e.as_slice(), w_go.as_slice()) {
        return Some(Lang::Go);
    }
    let w_java: Vec<char> = vec!['j', 'a', 'v', 'a'];
    assert(w_java@ =~= seq!['j', 'a', 'v', 'a']);
    if chars_eq(e.as_slice(), w_java.as_slice()) {
        return Some(Lang::Java);
    }
    let w_rb: Vec<char> = vec!['r', 'b'];
    assert(w_rb@ =~= seq!['r', 'b']);
    if chars_eq(e.as_slice(), w_rb.as_slice()) {
        return Some(Lang::Ruby);
    }
    let w_swift: Vec<char> = vec!['s', 'w', 'i', 'f', 't'];
    assert(w_swift@ =~= seq!['s', 'w', 'i', 'f', 't']);
    if chars_eq(e.as_slice(), w_swift.as_slice()) {
        return Some(Lang::Swift);
    }
    let w_c: Vec<char> = vec!['c'];
    assert(w_c@ =~= seq!['c']);
    let w_h: Vec<char> = vec!['h'];
    assert(w_h@ =~= seq!['h']);
    if chars_eq(e.as_slice(), w_c.as_slice()) || chars_eq(e.as_slice(), w_h.as_slice()) {
        return Some(Lang::C);
    }
    let w_cc: Vec<char> = vec!['c', 'c'];
    assert(w_cc@ =~= seq!['c', 'c']);
    let w_cpp: Vec<char> = vec!['c', 'p', 'p'];
    assert(w_cpp@ =~= seq!['c', 'p', 'p']);
    let w_cxx: Vec<char> = vec!['c', 'x', 'x'];
    assert(w_cxx@ =~= seq!['c', 'x', 'x']);
    let w_hh: Vec<char> = vec!['h', 'h'];
    assert(w_hh@ =~= seq!['h', 'h']);
    let w_hpp: Vec<char> = vec!['h', 'p', 'p'];
    assert(w_hpp@ =~= seq!['h', 'p', 'p']);
    let w_hxx: Vec<char> = vec!['h', 'x', 'x'];
    assert(w_hxx@ =~= seq!['h', 'x', 'x']);
    if chars_eq(e.as_slice(), w_cc.as_slice()) || chars_eq(e.as_slice(), w_cpp.as_slice()) || chars_eq(e.as_slice(), w_cxx.as_slice()) || chars_eq(e.as_slice(), w_hh.as_slice()) || chars_eq(e.as_slice(), w_hpp.as_slice()) || chars_eq(e.as_slice(), w_hxx.as_slice()) {
        return Some(Lang::Cpp);
    }
    let w_php: Vec<char> = vec!['p', 'h', 'p'];
    assert(w_php@ =~= seq!['p', 'h', 'p']);
    if chars_eq(e.as_slice(), w_php.as_slice()) {
        return Some(Lang::Php);
    }
    let w_cs: Vec<char> = vec!['c', 's'];
    assert(w_cs@ =~= seq!['c', 's']);
    if chars_eq(e.as_slice(), w_cs.as_slice()) {
        return Some(Lang::CSharp);
    }
    let w_kt: Vec<char> = vec!['k', 't'];
    assert(w_kt@ =~= seq!['k', 't']);
    let w_kts: Vec<char> = vec!['k', 't', 's'];
    assert(w_kts@ =~= seq!['k', 't', 's']);
    if chars_eq(e.as_slice(), w_kt.as_slice()) || chars_eq(e.as_slice(), w_kts.as_slice()) {
        return Some(Lang::Kotlin);
    }
    None
}

impl Lang {
    /// The language of `path`, from its file extension; `None` for files
    /// in no supported language.
    pub fn from_path(path: &str) -> (r: Option<Lang>)
        ensures
            r == lang_of_path(path@),
    {
        let chars = chars_of(path);
        let comps = split_chars(chars.as_slice(), '/');
        proof {
            lemma_split_nonempty(chars@, '/');
        }
        let name = &comps[comps.len() - 1];
        let parts = split_chars(name.as_slice(), '.');
        proof {
            assert(name@ == file_name(path@));
        }
        if parts.len() < 2 || (parts.len() == 2 && parts[0].len() == 0) {
            return None;
        }
        let ext = &parts[parts.len() - 1];
        extension_lang(ext)
    }
}

/// The kind name mentions `word`.
pub open spec fn mentions(kind: Seq<char>, word: Seq<char>) -> bool {
    exists|i: int| 0 <= i <= kind.len() - word.len() && #[trigger] kind.subrange(i, i + word.len()) == word
}

/// What a leaf of grammar kind `kind` normalizes as: comments by name;
/// identifiers (`identifier`, and the `*_identifier` and `identifier_*`
/// variants); string pieces (`string`, `char`, `escape`, `heredoc`); and
/// numbers (`number`, `integer`, `float`, `int_literal`).
pub open spec fn class_of(kind: Seq<char>) -> TokenClass {
    if mentions(kind, "comment"@) {
        TokenClass::Comment
    } else if mentions(kind, "identifier"@) {
        TokenClass::Ident
    } else if mentions(kind, "string"@) || mentions(kind, "char"@) || mentions(kind, "escape"@)
        || mentions(kind, "heredoc"@) {
        TokenClass::Str
    } else if mentions(kind, "number"@) || mentions(kind, "integer"@) || mentions(kind, "float"@)
        || mentions(kind, "int_literal"@) {
        TokenClass::Num
    } else {
        TokenClass::Other
    }
}

fn mentions_exec(kind: &Vec<char>, word: &str) -> (r: bool)
    ensures
        r == mentions(kind@, word@),
{
    let w = chars_of(word);
    let n = kind.len();
    let m = w.len();
    if m > n {
        proof {
            assert forall|i: int| 0 <= i <= kind@.len() - word@.len() implies #[trigger] kind@.subrange(i, i + word@.len()) != word@ by {}
        }
        return false;
    }
    let last = n - m;
    let mut i: usize = 0;
    while i < last
        invariant
            m <= n,
            n == kind@.len(),
            m == w@.len(),
            w@ == word@,
            last == n - m,
            i <= last,
            forall|j: int| 0 <= j < i ==> #[trigger] kind@.subrange(j, j + m) != word@,
        decreases last - i,
    {
        let piece = crate::text::slice_chars(kind.as_slice(), i, i + m);
        if chars_eq(piece.as_slice(), w.as_slice()) {
            assert(kind@.subrange(i as int, i + m) == word@);
            return true;
        }
        i = i + 1;
    }
    let piece = crate::text::slice_chars(kind.as_slice(), last, n);
    let found = chars_eq(piece.as_slice(), w.as_slice());
    if found {
        assert(kind@.subrange(last as int, last + m) == word@);
    }
    found
}

/// How a leaf of grammar kind `kind` is normalized.
pub fn classify(kind: &str) -> (c: TokenClass)
    ensures
        c == class_of(kind@),
{
    let k = chars_of(kind);
    if mentions_exec(&k, "comment") {
        TokenClass::Comment
    } else if mentions_exec(&k, "identifier") {
        TokenClass::Ident
    } else if mentions_exec(&k, "string") || mentions_exec(&k, "char") || mentions_exec(&k, "escape")
        || mentions_exec(&k, "heredoc") {
        TokenClass::Str
    } else if mentions_exec(&k, "number") || mentions_exec(&k, "integer") || mentions_exec(&k, "float")
        || mentions_exec(&k, "int_literal") {
        TokenClass::Num
    } else {
        TokenClass::Other
    }
}

} // verus!