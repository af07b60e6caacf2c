//! "Reuse it like this" import suggestions for a duplicate finding.
//!
//! For languages where a single import brings a top-level function into
//! call-by-name scope, the import follows from the file path and the
//! function name alone. Where the answer would be a guess (methods that need
//! their enclosing type, header-based languages, package systems that import
//! the module rather than the symbol) there is no suggestion: a wrong hint is
//! worse than none. This is suggestion text only; nothing edits files.

use vstd::prelude::*;
use crate::lang::Lang;
use crate::text::{
    append_chars, chars_eq, chars_of, has_prefix, join_chars, join_with, lemma_split_concat,
    lemma_split_without_sep, slice_chars,
    split_chars, split_on, starts_with, strip_suffix, strip_suffix_chars, string_of, views,
};

verus! {

pub open spec fn lit_src() -> Seq<char> {
    seq!['s', 'r', 'c']
}

pub open spec fn lit_rs_ext() -> Seq<char> {
    seq!['.', 'r', 's']
}

pub open spec fn lit_py_ext() -> Seq<char> {
    seq!['.', 'p', 'y']
}

pub open spec fn lit_pyi_ext() -> Seq<char> {
    seq!['.', 'p', 'y', 'i']
}

pub open spec fn lit_init() -> Seq<char> {
    seq!['_', '_', 'i', 'n', 'i', 't', '_', '_']
}

pub open spec fn lit_dotdot() -> Seq<char> {
    seq!['.', '.']
}

/// `mod`, `lib` and `main` name the module itself, not a child module.
pub open spec fn is_module_root(c: Seq<char>) -> bool {
    c == seq!['m', 'o', 'd'] || c == seq!['l', 'i', 'b'] || c == seq!['m', 'a', 'i', 'n']
}

/// Index of the last component equal to `x`.
pub open spec fn last_index_of(comps: Seq<Seq<char>>, x: Seq<char>) -> Option<int>
    decreases comps.len(),
{
    if comps.len() == 0 {
        None
    } else if comps.last() == x {
        Some(comps.len() - 1)
    } else {
        last_index_of(comps.drop_last(), x)
    }
}

proof fn lemma_last_index_bounds(comps: Seq<Seq<char>>, x: Seq<char>)
    ensures
        last_index_of(comps, x) matches Some(p) ==> 0 <= p < comps.len() && comps[p] == x,
    decreases comps.len(),
{
    if comps.len() > 0 && comps.last() != x {
        lemma_last_index_bounds(comps.drop_last(), x);
    }
}

/// The Rust module path of a file: everything after the last `src`
/// component, minus a trailing `mod`/`lib`/`main`.
pub open spec fn rust_module_comps(stem: Seq<char>) -> Seq<Seq<char>> {
    let comps = split_on(stem, '/');
    let comps = match last_index_of(comps, lit_src()) {
        Some(p) => comps.subrange(p + 1, comps.len() as int),
        None => comps,
    };
    if comps.len() > 0 && is_module_root(comps.last()) {
        comps.drop_last()
    } else {
        comps
    }
}

/// `src/report/card.rs` + `render` -> `use crate::report::card::render;`;
/// `src/lib.rs` + `run` -> `use crate::run;`; not a `.rs` file -> none.
pub open spec fn rust_use_text(file: Seq<char>, name: Seq<char>) -> Option<Seq<char>> {
    match strip_suffix(file, lit_rs_ext()) {
        None => None,
        Some(stem) => {
            let path = join_with(rust_module_comps(stem), seq![':', ':']);
            if path.len() == 0 {
                Some(seq!['u', 's', 'e', ' ', 'c', 'r', 'a', 't', 'e', ':', ':'] + name + seq![';'])
            } else {
                Some(
                    seq!['u', 's', 'e', ' ', 'c', 'r', 'a', 't', 'e', ':', ':'] + path + seq![
                        ':',
                        ':',
                    ] + name + seq![';'],
                )
            }
        },
    }
}

/// The Python module components of a file stem: a leading `src` and a
/// trailing `__init__` are dropped.
pub open spec fn python_module_comps(stem: Seq<char>) -> Seq<Seq<char>> {
    let comps = split_on(stem, '/');
    let comps = if comps.len() > 0 && comps[0] == lit_src() {
        comps.drop_first()
    } else {
        comps
    };
    if comps.len() > 0 && comps.last() == lit_init() {
        comps.drop_last()
    } else {
        comps
    }
}

/// `pkg/util/parse.py` + `parse_line` -> `from pkg.util.parse import parse_line`;
/// none when the file is not Python or the dotted path is empty.
pub open spec fn python_import_text(file: Seq<char>, name: Seq<char>) -> Option<Seq<char>> {
    let stem = match strip_suffix(file, lit_py_ext()) {
        Some(s) => Some(s),
        None => strip_suffix(file, lit_pyi_ext()),
    };
    match stem {
        None => None,
        Some(stem) => {
            let dotted = join_with(python_module_comps(stem), seq!['.']);
            if dotted.len() == 0 {
                None
            } else {
                Some(
                    seq!['f', 'r', 'o', 'm', ' '] + dotted + seq![
                        ' ',
                        'i',
                        'm',
                        'p',
                        'o',
                        'r',
                        't',
                        ' ',
                    ] + name,
                )
            }
        },
    }
}

/// Index of the last `c` in `s`.
pub open spec fn last_index_of_char(s: Seq<char>, c: char) -> Option<int>
    decreases s.len(),
{
    if s.len() == 0 {
        None
    } else if s.last() == c {
        Some(s.len() - 1)
    } else {
        last_index_of_char(s.drop_last(), c)
    }
}

/// A file name without its extension: the text before its last `.`.
pub open spec fn without_extension(name: Seq<char>) -> Seq<char> {
    match last_index_of_char(name, '.') {
        Some(p) => name.subrange(0, p),
        None => name,
    }
}

/// Length of the shared leading run of `from_dir` and `target`, never
/// counting `target`'s last component.
pub open spec fn shared_prefix_len(from_dir: Seq<Seq<char>>, target: Seq<Seq<char>>, i: nat) -> nat
    decreases from_dir.len() - i,
{
    if i < from_dir.len() && i + 1 < target.len() && from_dir[i as int] == target[i as int] {
        shared_prefix_len(from_dir, target, i + 1)
    } else {
        i
    }
}

/// POSIX relative path from `from_file`'s directory to `target_file`, with
/// the file extension removed and `./` in front when it would otherwise be
/// bare (ES modules need an explicit relative specifier).
pub open spec fn relative_module_text(from_file: Seq<char>, target_file: Seq<char>) -> Seq<char> {
    let from_dir = split_on(from_file, '/').drop_last();
    let t0 = split_on(target_file, '/');
    let target = t0.update(t0.len() - 1, without_extension(t0.last()));
    let i = shared_prefix_len(from_dir, target, 0);
    let ups = Seq::new((from_dir.len() - i) as nat, |_j: int| lit_dotdot());
    let joined = join_with(ups + target.subrange(i as int, target.len() as int), seq!['/']);
    if has_prefix(joined, seq!['.', '.', '/']) || joined == lit_dotdot() {
        joined
    } else {
        seq!['.', '/'] + joined
    }
}

/// `import { name } from '<relative path>';`
pub open spec fn ts_import_text(name: Seq<char>, from_file: Seq<char>, original_file: Seq<char>) -> Seq<char> {
    seq!['i', 'm', 'p', 'o', 'r', 't', ' ', '{', ' '] + name + seq![
        ' ',
        '}',
        ' ',
        'f',
        'r',
        'o',
        'm',
        ' ',
        '\'',
    ] + relative_module_text(from_file, original_file) + seq!['\'', ';']
}

/// The suggestion for a language: Rust `use`, Python `from .. import`,
/// or an ES import for TypeScript, TSX and JavaScript; none otherwise.
pub open spec fn suggestion_text(
    lang: Lang,
    original_file: Seq<char>,
    original_name: Seq<char>,
    from_file: Seq<char>,
) -> Option<Seq<char>> {
    match lang {
        Lang::Rust => rust_use_text(original_file, original_name),
        Lang::Python => python_import_text(original_file, original_name),
        Lang::Typescript | Lang::Tsx | Lang::Javascript => Some(
            ts_import_text(original_name, from_file, original_file),
        ),
        _ => None,
    }
}

/// The module components of `<prefix>src/<root>` when `root` is one piece:
/// nothing but `root` itself follows the last `src`.
proof fn lemma_comps_after_src(prefix: Seq<Seq<char>>, root: Seq<char>)
    requires
        root != lit_src(),
    ensures
        ({
            let comps = prefix + seq![lit_src(), root];
            &&& last_index_of(comps, lit_src()) == Some(prefix.len() as int)
            &&& comps.subrange(prefix.len() + 1int, comps.len() as int) =~= seq![root]
        }),
{
    let comps = prefix + seq![lit_src(), root];
    assert(comps.drop_last() =~= prefix + seq![lit_src()]);
    assert(last_index_of(comps.drop_last(), lit_src()) == Some(prefix.len() as int));
}

/// `mod.rs`, `lib.rs` and `main.rs` are the module they stand in, not a
/// child module of it: for `src/main.rs`, `src/lib.rs`, `src/mod.rs`, and
/// the same under any directory, the suggested line is
/// `use crate::<name>;`.
pub proof fn lemma_module_root_files_use_the_enclosing_module(
    dir: Seq<char>,
    root: Seq<char>,
    name: Seq<char>,
)
    requires
        root == seq!['m', 'o', 'd'] || root == seq!['l', 'i', 'b'] || root == seq![
            'm',
            'a',
            'i',
            'n',
        ],
    ensures
        rust_use_text(seq!['s', 'r', 'c', '/'] + root + seq!['.', 'r', 's'], name) == Some(
            seq!['u', 's', 'e', ' ', 'c', 'r', 'a', 't', 'e', ':', ':'] + name + seq![';'],
        ),
        rust_use_text(dir + seq!['/', 's', 'r', 'c', '/'] + root + seq!['.', 'r', 's'], name)
            == Some(seq!['u', 's', 'e', ' ', 'c', 'r', 'a', 't', 'e', ':', ':'] + name + seq![';']),
{
    let src = lit_src();
    let ext = lit_rs_ext();
    let use_crate = seq!['u', 's', 'e', ' ', 'c', 'r', 'a', 't', 'e', ':', ':'];
    assert(forall|i: int| 0 <= i < root.len() ==> root[i] != '/');
    assert(forall|i: int| 0 <= i < src.len() ==> src[i] != '/');
    assert(root != src);
    lemma_split_without_sep(root, '/');
    lemma_split_without_sep(src, '/');
    let local = src + seq!['/'] + root;
    lemma_split_concat(src, root, '/');
    assert(split_on(local, '/') =~= seq![src, root]);

    let f1 = seq!['s', 'r', 'c', '/'] + root + seq!['.', 'r', 's'];
    assert(f1 =~= local + ext);
    assert(f1.subrange(f1.len() - ext.len(), f1.len() as int) =~= ext);
    assert(strip_suffix(f1, ext) == Some(local)) by {
        assert(f1.subrange(0, f1.len() - ext.len()) =~= local);
    }
    lemma_comps_after_src(Seq::empty(), root);
    assert(Seq::<Seq<char>>::empty() + seq![src, root] =~= seq![src, root]);
    assert(rust_module_comps(local) =~= Seq::<Seq<char>>::empty()) by {
        assert(seq![root].drop_last() =~= Seq::<Seq<char>>::empty());
    }
    assert(join_with(Seq::<Seq<char>>::empty(), seq![':', ':']) =~= Seq::<char>::empty());

    let stem = dir + seq!['/'] + local;
    let f2 = dir + seq!['/', 's', 'r', 'c', '/'] + root + seq!['.', 'r', 's'];
    assert(f2 =~= stem + ext);
    assert(f2.subrange(f2.len() - ext.len(), f2.len() as int) =~= ext);
    assert(strip_suffix(f2, ext) == Some(stem)) by {
        assert(f2.subrange(0, f2.len() - ext.len()) =~= stem);
    }
    lemma_split_concat(dir, local, '/');
    let pre = split_on(dir, '/');
    assert(split_on(stem, '/') =~= pre + seq![src, root]);
    lemma_comps_after_src(pre, root);
    assert(rust_module_comps(stem) =~= Seq::<Seq<char>>::empty()) by {
        assert(seq![root].drop_last() =~= Seq::<Seq<char>>::empty());
    }
}

proof fn lemma_views_push(s: Seq<Vec<char>>, c: Vec<char>)
    ensures
        views(s.push(c)) == views(s).push(c@),
{
    assert(views(s.push(c)) =~= views(s).push(c@));
}

/// A copy of `parts[from..to]`.
fn sub_parts(parts: &Vec<Vec<char>>, from: usize, to: usize) -> (r: Vec<Vec<char>>)
    requires
        from <= to <= parts@.len(),
    ensures
        views(r@) == views(parts@).subrange(from as int, to as int),
{
    let mut r: Vec<Vec<char>> = Vec::new();
    let mut i = from;
    while i < to
        invariant
            from <= i <= to <= parts@.len(),
            views(r@) == views(parts@).subrange(from as int, i as int),
        decreases to - i,
    {
        let c = slice_chars(parts[i].as_slice(), 0, parts[i].len());
        proof {
            assert(parts[i as int]@.subrange(0, parts[i as int]@.len() as int) =~= parts[i as int]@);
        }
        let ghost old_r = r@;
        r.push(c);
        proof {
            lemma_views_push(old_r, c);
            assert(views(r@) =~= views(parts@).subrange(from as int, i + 1));
        }
        i = i + 1;
    }
    r
}

/// Index of the last element of `parts` equal to `x`.
fn last_index(parts: &Vec<Vec<char>>, x: &Vec<char>) -> (r: Option<usize>)
    ensures
        match r {
            Some(p) => last_index_of(views(parts@), x@) == Some(p as int),
            None => last_index_of(views(parts@), x@) is None,
        },
{
    let mut i = parts.len();
    assert(views(parts@).subrange(0, parts@.len() as int) =~= views(parts@));
    while i > 0
        invariant
            i <= parts@.len(),
            last_index_of(views(parts@), x@) == last_index_of(views(parts@).subrange(0, i as int), x@),
        decreases i,
    {
        let ghost pre = views(parts@).subrange(0, i as int);
        proof {
            assert(pre.drop_last() =~= views(parts@).subrange(0, i - 1));
            assert(pre.last() == parts@[i - 1]@);
        }
        if chars_eq(parts[i - 1].as_slice(), x.as_slice()) {
            return Some(i - 1);
        }
        i = i - 1;
    }
    None
}

/// The ES-module relative path from `from_file` to `target_file`.
fn relative_module_path(from_file: &str, target_file: &str) -> (r: String)
    ensures
        r@ == relative_module_text(from_file@, target_file@),
{
    let from_chars = chars_of(from_file);
    let from_all = split_chars(from_chars.as_slice(), '/');
    proof {
        crate::text::lemma_split_nonempty(from_file@, '/');
        assert(views(from_all@) =~= split_on(from_file@, '/'));
    }
    let from_dir = sub_parts(&from_all, 0, from_all.len() - 1);
    let target_chars = chars_of(target_file);
    let target_all = split_chars(target_chars.as_slice(), '/');
    proof {
        crate::text::lemma_split_nonempty(target_file@, '/');
        assert(views(target_all@) =~= split_on(target_file@, '/'));
    }
    let ghost t0 = split_on(target_file@, '/');
    let tl = target_all.len();
    let last = &target_all[tl - 1];
    // The last `.` of the final component, if any.
    let mut q = last.len();
    assert(last@.subrange(0, last@.len() as int) =~= last@);
    while q > 0 && last[q - 1] != '.'
        invariant
            q <= last@.len(),
            last_index_of_char(last@, '.') == last_index_of_char(last@.subrange(0, q as int), '.'),
        decreases q,
    {
        let ghost pre = last@.subrange(0, q as int);
        proof {
            assert(pre.drop_last() =~= last@.subrange(0, q - 1));
        }
        q = q - 1;
    }
    let dot: Option<usize> = if q > 0 {
        Some(q - 1)
    } else {
        None
    };
    proof {
        if q > 0 {
            assert(last@.subrange(0, q as int).last() == '.');
        } else {
            assert(last_index_of_char(last@.subrange(0, 0), '.') is None);
        }
    }
    let stem = match dot {
        Some(p) => slice_chars(last.as_slice(), 0, p),
        None => slice_chars(last.as_slice(), 0, last.len()),
    };
    proof {
        assert(last@ == t0.last());
        assert(stem@ == without_extension(t0.last()));
    }
    let mut target = sub_parts(&target_all, 0, tl - 1);
    let ghost tpre = target@;
    target.push(stem);
    proof {
        lemma_views_push(tpre, stem);
    }
    let ghost tv = t0.update(t0.len() - 1, without_extension(t0.last()));
    proof {
        assert(views(target@) =~= tv);
    }
    let fd = from_dir.len();
    let mut i: usize = 0;
    while i < fd && i + 1 < target.len() && chars_eq(from_dir[i].as_slice(), target[i].as_slice())
        invariant
            i <= fd == from_dir@.len(),
            target@.len() == tv.len(),
            i <= target@.len(),
            views(from_dir@) == split_on(from_file@, '/').drop_last(),
            views(target@) == tv,
            shared_prefix_len(views(from_dir@), tv, i as nat) == shared_prefix_len(
                views(from_dir@),
                tv,
                0,
            ),
        decreases fd - i,
    {
        i = i + 1;
    }
    let ghost fdv = views(from_dir@);
    proof {
        assert(shared_prefix_len(fdv, tv, i as nat) == i);
    }
    let mut parts: Vec<Vec<char>> = Vec::new();
    let mut u: usize = 0;
    while u < fd - i
        invariant
            i <= fd,
            u <= fd - i,
            views(parts@) == Seq::new(u as nat, |_j: int| lit_dotdot()),
        decreases fd - i - u,
    {
        let dd: Vec<char> = vec!['.', '.'];
        proof {
            assert(dd@ =~= lit_dotdot());
        }
        let ghost old_parts = parts@;
        parts.push(dd);
        proof {
            lemma_views_push(old_parts, dd);
            assert(views(parts@) =~= Seq::new((u + 1) as nat, |_j: int| lit_dotdot()));
        }
        u = u + 1;
    }
    let rest = sub_parts(&target, i, target.len());
    let ghost ups = views(parts@);
    let mut k: usize = 0;
    while k < rest.len()
        invariant
            k <= rest@.len(),
            views(parts@) == ups + views(rest@).subrange(0, k as int),
        decreases rest@.len() - k,
    {
        let c = slice_chars(rest[k].as_slice(), 0, rest[k].len());
        proof {
            assert(rest[k as int]@.subrange(0, rest[k as int]@.len() as int) =~= rest[k as int]@);
        }
        let ghost old_parts = parts@;
        parts.push(c);
        proof {
            lemma_views_push(old_parts, c);
            assert(views(parts@) =~= ups + views(rest@).subrange(0, k + 1));
        }
        k = k + 1;
    }
    let slash: Vec<char> = vec!['/'];
    let joined = join_chars(parts.as_slice(), slash.as_slice());
    let dd: Vec<char> = vec!['.', '.'];
    let dds: Vec<char> = vec!['.', '.', '/'];
    proof {
        assert(slash@ =~= seq!['/']);
        assert(dd@ =~= lit_dotdot());
        assert(dds@ =~= seq!['.', '.', '/']);
        assert(views(rest@).subrange(0, rest@.len() as int) =~= views(rest@));
        assert(views(parts@) =~= Seq::new((fd - i) as nat, |_j: int| lit_dotdot()) + tv.subrange(
            i as int,
            tv.len() as int,
        ));
    }
    if starts_with(joined.as_slice(), dds.as_slice()) || chars_eq(joined.as_slice(), dd.as_slice()) {
        string_of(joined.as_slice())
    } else {
        let mut out: Vec<char> = vec!['.', '/'];
        proof {
            assert(out@ =~= seq!['.', '/']);
        }
        append_chars(&mut out, joined.as_slice());
        string_of(out.as_slice())
    }
}

fn is_root(c: &Vec<char>) -> (r: bool)
    ensures
        r == is_module_root(c@),
{
    let m: Vec<char> = vec!['m', 'o', 'd'];
    let l: Vec<char> = vec!['l', 'i', 'b'];
    let n: Vec<char> = vec!['m', 'a', 'i', 'n'];
    assert(m@ =~= seq!['m', 'o', 'd']);
    assert(l@ =~= seq!['l', 'i', 'b']);
    assert(n@ =~= seq!['m', 'a', 'i', 'n']);
    chars_eq(c.as_slice(), m.as_slice()) || chars_eq(c.as_slice(), l.as_slice()) || chars_eq(
        c.as_slice(),
        n.as_slice(),
    )
}

/// `use crate::<module path>::<name>;` for a Rust file, none for other files.
fn rust_use(original_file: &str, name: &str) -> (r: Option<String>)
    ensures
        match r {
            Some(s) => rust_use_text(original_file@, name@) == Some(s@),
            None => rust_use_text(original_file@, name@) is None,
        },
{
    let file = chars_of(original_file);
    let ext: Vec<char> = vec!['.', 'r', 's'];
    assert(ext@ =~= lit_rs_ext());
    let stem = match strip_suffix_chars(file.as_slice(), ext.as_slice()) {
        None => return None,
        Some(s) => s,
    };
    let all = split_chars(stem.as_slice(), '/');
    let ghost comps0 = split_on(stem@, '/');
    assert(views(all@) =~= comps0);
    let src: Vec<char> = vec!['s', 'r', 'c'];
    assert(src@ =~= lit_src());
    proof {
        lemma_last_index_bounds(views(all@), src@);
    }
    let after = match last_index(&all, &src) {
        Some(p) => sub_parts(&all, p + 1, all.len()),
        None => sub_parts(&all, 0, all.len()),
    };
    proof {
        assert(views(all@).subrange(0, all@.len() as int) =~= views(all@));
    }
    let n = after.len();
    let comps = if n > 0 && is_root(&after[n - 1]) {
        sub_parts(&after, 0, n - 1)
    } else {
        sub_parts(&after, 0, n)
    };
    proof {
        assert(views(after@).subrange(0, n as int) =~= views(after@));
        if n > 0 {
            assert(views(after@).last() == after@[n - 1]@);
            assert(views(after@).subrange(0, n - 1) =~= views(after@).drop_last());
        }
        assert(views(comps@) == rust_module_comps(stem@));
    }
    let sep: Vec<char> = vec![':', ':'];
    assert(sep@ =~= seq![':', ':']);
    let path = join_chars(comps.as_slice(), sep.as_slice());
    let mut out: Vec<char> = vec!['u', 's', 'e', ' ', 'c', 'r', 'a', 't', 'e', ':', ':'];
    assert(out@ =~= seq!['u', 's', 'e', ' ', 'c', 'r', 'a', 't', 'e', ':', ':']);
    if path.len() > 0 {
        append_chars(&mut out, path.as_slice());
        append_chars(&mut out, sep.as_slice());
    }
    let name_chars = chars_of(name);
    append_chars(&mut out, name_chars.as_slice());
    out.push(';');
    proof {
        if path@.len() > 0 {
            assert(out@ =~= seq!['u', 's', 'e', ' ', 'c', 'r', 'a', 't', 'e', ':', ':'] + path@ + seq![
                ':',
                ':',
            ] + name@ + seq![';']);
        } else {
            assert(out@ =~= seq!['u', 's', 'e', ' ', 'c', 'r', 'a', 't', 'e', ':', ':'] + name@
                + seq![';']);
        }
    }
    Some(string_of(out.as_slice()))
}

/// `from <dotted module> import <name>` for a Python file, none when the
/// file is not Python or its module path is empty.
fn python_import(original_file: &str, name: &str) -> (r: Option<String>)
    ensures
        match r {
            Some(s) => python_import_text(original_file@, name@) == Some(s@),
            None => python_import_text(original_file@, name@) is None,
        },
{
    let file = chars_of(original_file);
    let py: Vec<char> = vec!['.', 'p', 'y'];
    let pyi: Vec<char> = vec!['.', 'p', 'y', 'i'];
    assert(py@ =~= lit_py_ext());
    assert(pyi@ =~= lit_pyi_ext());
    let stem = match strip_suffix_chars(file.as_slice(), py.as_slice()) {
        Some(s) => s,
        None => match strip_suffix_chars(file.as_slice(), pyi.as_slice()) {
            Some(s) => s,
            None => return None,
        },
    };
    let all = split_chars(stem.as_slice(), '/');
    let ghost comps0 = split_on(stem@, '/');
    assert(views(all@) =~= comps0);
    let src: Vec<char> = vec!['s', 'r', 'c'];
    assert(src@ =~= lit_src());
    let n0 = all.len();
    let first = if n0 > 0 && chars_eq(all[0].as_slice(), src.as_slice()) {
        sub_parts(&all, 1, n0)
    } else {
        sub_parts(&all, 0, n0)
    };
    proof {
        assert(views(all@).subrange(0, n0 as int) =~= views(all@));
        if n0 > 0 {
            assert(views(all@)[0] == all@[0]@);
            assert(views(all@).subrange(1, n0 as int) =~= views(all@).drop_first());
        }
    }
    let init: Vec<char> = vec!['_', '_', 'i', 'n', 'i', 't', '_', '_'];
    assert(init@ =~= lit_init());
    let n = first.len();
    let comps = if n > 0 && chars_eq(first[n - 1].as_slice(), init.as_slice()) {
        sub_parts(&first, 0, n - 1)
    } else {
        sub_parts(&first, 0, n)
    };
    proof {
        assert(views(first@).subrange(0, n as int) =~= views(first@));
        if n > 0 {
            assert(views(first@).last() == first@[n - 1]@);
            assert(views(first@).subrange(0, n - 1) =~= views(first@).drop_last());
        }
        assert(views(comps@) == python_module_comps(stem@));
    }
    let dot: Vec<char> = vec!['.'];
    assert(dot@ =~= seq!['.']);
    let dotted = join_chars(comps.as_slice(), dot.as_slice());
    if dotted.len() == 0 {
        return None;
    }
    let mut out: Vec<char> = vec!['f', 'r', 'o', 'm', ' '];
    assert(out@ =~= seq!['f', 'r', 'o', 'm', ' ']);
    append_chars(&mut out, dotted.as_slice());
    let mid: Vec<char> = vec![' ', 'i', 'm', 'p', 'o', 'r', 't', ' '];
    assert(mid@ =~= seq![' ', 'i', 'm', 'p', 'o', 'r', 't', ' ']);
    append_chars(&mut out, mid.as_slice());
    let name_chars = chars_of(name);
    append_chars(&mut out, name_chars.as_slice());
    proof {
        assert(out@ =~= seq!['f', 'r', 'o', 'm', ' '] + dotted@ + seq![
            ' ',
            'i',
            'm',
            'p',
            'o',
            'r',
            't',
            ' ',
        ] + name@);
    }
    Some(string_of(out.as_slice()))
}

/// `import { <name> } from '<relative path>';`
fn ts_import(name: &str, from_file: &str, original_file: &str) -> (r: String)
    ensures
        r@ == ts_import_text(name@, from_file@, original_file@),
{
    let rel = relative_module_path(from_file, original_file);
    let rel_chars = chars_of(rel.as_str());
    let mut out: Vec<char> = vec!['i', 'm', 'p', 'o', 'r', 't', ' ', '{', ' '];
    assert(out@ =~= seq!['i', 'm', 'p', 'o', 'r', 't', ' ', '{', ' ']);
    let name_chars = chars_of(name);
    append_chars(&mut out, name_chars.as_slice());
    let mid: Vec<char> = vec![' ', '}', ' ', 'f', 'r', 'o', 'm', ' ', '\''];
    assert(mid@ =~= seq![' ', '}', ' ', 'f', 'r', 'o', 'm', ' ', '\'']);
    append_chars(&mut out, mid.as_slice());
    append_chars(&mut out, rel_chars.as_slice());
    let end: Vec<char> = vec!['\'', ';'];
    assert(end@ =~= seq!['\'', ';']);
    append_chars(&mut out, end.as_slice());
    proof {
        assert(out@ =~= ts_import_text(name@, from_file@, original_file@));
    }
    string_of(out.as_slice())
}

/// The import/use line that pulls `original_name` (defined in
/// `original_file`) into `from_file` so the caller can delete the
/// duplicate. `None` when the language has no single-symbol import or the
/// layout is too ambiguous to guess safely.
pub fn import_suggestion(
    lang: Lang,
    original_file: &str,
    original_name: &str,
    from_file: &str,
) -> (r: Option<String>)
    ensures
        match r {
            Some(s) => suggestion_text(lang, original_file@, original_name@, from_file@) == Some(s@),
            None => suggestion_text(lang, original_file@, original_name@, from_file@) is None,
        },
{
    match lang {
        Lang::Rust => rust_use(original_file, original_name),
        Lang::Python => python_import(original_file, original_name),
        Lang::Typescript | Lang::Tsx | Lang::Javascript => Some(
            ts_import(original_name, from_file, original_file),
        ),
        _ => None,
    }
}

} // verus!
