//! From source text to what the analysis reads: the syntax tree, parsed
//! with the language's tree-sitter grammar and flattened in document
//! order; the functions found in it, each with its name, span and body
//! leaves; and the leaves of the whole tree.

use vstd::prelude::*;
use crate::extract::{
    analysis_ok, analyze_captures, captures_in_range, span_ok, utf8_len, utf8_len_of, Capture, FileAnalysis,
    Span,
};
use crate::lang::{class_of, classify, Lang};
use crate::lang::Lang::{Go, Java, Javascript, Python, Rust, Tsx, Typescript};
use crate::normalize::Leaf;
use crate::text::{chars_eq, chars_of};
use tree_sitter_go::LANGUAGE as GO;
use tree_sitter_java::LANGUAGE as JAVA;
use tree_sitter_javascript::LANGUAGE as JAVASCRIPT;
use tree_sitter_python::LANGUAGE as PYTHON;
use tree_sitter_rust::LANGUAGE as RUST;
use tree_sitter_typescript::LANGUAGE_TSX as TSX;
use tree_sitter_typescript::LANGUAGE_TYPESCRIPT as TYPESCRIPT;

verus! {

/// One node of a syntax tree, in document order (preorder): its grammar
/// kind by name and id, its depth below the root, and its span (0-based
/// rows, byte offsets).
pub struct SyntaxNode {
    pub kind: String,
    pub kind_id: u16,
    pub depth: u32,
    pub start_row: usize,
    pub end_row: usize,
    pub start_byte: usize,
    pub end_byte: usize,
}

/// The nodes of the tree tree-sitter parses `src` into with the grammar of
/// `lang`, in preorder; `None` when no grammar for `lang` is linked or the
/// parse fails.
pub uninterp spec fn syntax_nodes_of(lang: Lang, src: Seq<char>) -> Option<Seq<SyntaxNode>>;

/// Trusted: parses `src` with tree-sitter (`Parser::set_language`,
/// `Parser::parse`) and lists the tree's nodes in preorder through a
/// `TreeCursor` (`descendant_count`, `goto_descendant`, `depth`), each as
/// its `kind`, `kind_id`, start and end positions and bytes. A parse is a
/// function of the grammar and the text; nothing more is stated.
#[verifier::external_body]
fn syntax_nodes(lang: Lang, src: &str) -> (r: Option<Vec<SyntaxNode>>)
    ensures
        match r {
            Some(v) => syntax_nodes_of(lang, src@) == Some(v@),
            None => syntax_nodes_of(lang, src@) is None,
        },
{
    let mut parser = tree_sitter::Parser::new();
    parser.set_language(&match lang {
        Python => PYTHON, Rust => RUST, Go => GO, Java => JAVA,
        Javascript => JAVASCRIPT, Typescript => TYPESCRIPT, Tsx => TSX, _ => return None,
    }.into()).ok()?;
    let tree = parser.parse(src, None)?;
    let mut c = tree.walk();
    Some((0..tree.root_node().descendant_count()).map(|i| {
        c.goto_descendant(i); let n = c.node();
        SyntaxNode { kind: n.kind().to_string(), kind_id: n.kind_id(), depth: c.depth(),
            start_row: n.start_position().row, end_row: n.end_position().row,
            start_byte: n.start_byte(), end_byte: n.end_byte() }
    }).collect())
}

/// The text of bytes `start .. end` of `src`; `None` when they are not
/// character boundaries within it.
pub uninterp spec fn byte_text(src: Seq<char>, start: usize, end: usize) -> Option<Seq<char>>;

/// Trusted: calls `str::get` with the byte range `start .. end`.
#[verifier::external_body]
fn text_at(src: &str, start: usize, end: usize) -> (r: Option<String>)
    ensures
        match r {
            Some(t) => byte_text(src@, start, end) == Some(t@),
            None => byte_text(src@, start, end) is None,
        },
{
    src.get(start..end).map(str::to_string)
}

/// Where the subtree of node `i` ends, looking from `j`: the first later
/// node no deeper than it, or the end.
pub open spec fn end_from(ns: Seq<SyntaxNode>, i: int, j: int) -> int
    decreases ns.len() - j,
{
    if j >= ns.len() {
        ns.len() as int
    } else if ns[j].depth <= ns[i].depth {
        j
    } else {
        end_from(ns, i, j + 1)
    }
}

/// One past the last node of the subtree of node `i`.
pub open spec fn subtree_end(ns: Seq<SyntaxNode>, i: int) -> int {
    end_from(ns, i, i + 1)
}

/// Node `j` has no children.
pub open spec fn is_leaf(ns: Seq<SyntaxNode>, j: int) -> bool {
    j + 1 >= ns.len() || ns[j + 1].depth <= ns[j].depth
}

/// The leaf as normalization reads it.
pub open spec fn leaf_of(n: SyntaxNode) -> Leaf {
    Leaf { class: class_of(n.kind@), kind_id: n.kind_id, row: n.start_row as u32 }
}

/// The leaves among nodes `lo .. hi`, in order.
pub open spec fn leaves_between(ns: Seq<SyntaxNode>, lo: int, hi: int) -> Seq<Leaf>
    decreases hi - lo,
{
    if hi <= lo {
        Seq::empty()
    } else {
        let prev = leaves_between(ns, lo, hi - 1);
        if is_leaf(ns, hi - 1) {
            prev.push(leaf_of(ns[hi - 1]))
        } else {
            prev
        }
    }
}

/// The first child of node `i` of kind `k` among nodes `j .. end`.
pub open spec fn child_from(ns: Seq<SyntaxNode>, i: int, end: int, k: Seq<char>, j: int) -> Option<int>
    decreases end - j,
{
    if j >= end {
        None
    } else if ns[j].depth == ns[i].depth + 1 && ns[j].kind@ == k {
        Some(j)
    } else {
        child_from(ns, i, end, k, j + 1)
    }
}

/// The first child of node `i` of kind `k`.
pub open spec fn child_of_kind(ns: Seq<SyntaxNode>, i: int, k: Seq<char>) -> Option<int> {
    child_from(ns, i, subtree_end(ns, i), k, i + 1)
}

/// The function forms of each language: a node of kind `kind` is a
/// function when it has a child of the body kind; its first child of the
/// name kind names it.
pub open spec fn function_shape(lang: Lang, kind: Seq<char>) -> Option<(Seq<char>, Seq<char>)> {
    match lang {
        Lang::Python => if kind == "function_definition"@ {
            Some(("identifier"@, "block"@))
        } else {
            None
        },
        Lang::Rust => if kind == "function_item"@ {
            Some(("identifier"@, "block"@))
        } else {
            None
        },
        Lang::Go => if kind == "function_declaration"@ {
            Some(("identifier"@, "block"@))
        } else if kind == "method_declaration"@ {
            Some(("field_identifier"@, "block"@))
        } else {
            None
        },
        Lang::Java => if kind == "method_declaration"@ {
            Some(("identifier"@, "block"@))
        } else if kind == "constructor_declaration"@ {
            Some(("identifier"@, "constructor_body"@))
        } else {
            None
        },
        Lang::Javascript | Lang::Typescript | Lang::Tsx => if kind == "function_declaration"@ || kind
            == "generator_function_declaration"@ {
            Some(("identifier"@, "statement_block"@))
        } else if kind == "method_definition"@ {
            Some(("property_identifier"@, "statement_block"@))
        } else {
            None
        },
        _ => None,
    }
}

/// Looking back from node `j` for the ancestors at depth `need` and above:
/// whether the nearest `impl_item` among them implements a trait (has a
/// `for` child).
pub open spec fn impl_back(ns: Seq<SyntaxNode>, j: int, need: int) -> bool
    decreases j + 1,
{
    if j < 0 || need < 0 {
        false
    } else if ns[j].depth == need {
        if ns[j].kind@ == "impl_item"@ {
            child_of_kind(ns, j, "for"@) is Some
        } else {
            impl_back(ns, j - 1, need - 1)
        }
    } else {
        impl_back(ns, j - 1, need)
    }
}

/// Node `i` sits inside `impl Trait for Type`.
pub open spec fn in_trait_impl(ns: Seq<SyntaxNode>, i: int) -> bool {
    impl_back(ns, i - 1, ns[i].depth - 1)
}

/// Node `i` is a function of `lang`: a function form with its body.
pub open spec fn is_function(ns: Seq<SyntaxNode>, lang: Lang, i: int) -> bool {
    &&& function_shape(lang, ns[i].kind@) matches Some(shape)
    &&& child_of_kind(ns, i, shape.1) is Some
}

/// The functions among the first `j` nodes, in document order.
pub open spec fn functions_upto(ns: Seq<SyntaxNode>, lang: Lang, j: int) -> Seq<int>
    decreases j,
{
    if j <= 0 {
        Seq::empty()
    } else {
        let prev = functions_upto(ns, lang, j - 1);
        if is_function(ns, lang, j - 1) {
            prev.push(j - 1)
        } else {
            prev
        }
    }
}

/// The span of node `i` as a capture gives it.
pub open spec fn span_of(n: SyntaxNode) -> Span {
    Span {
        start_row: n.start_row as u32,
        end_row: n.end_row as u32,
        start_byte: n.start_byte as u32,
        end_byte: n.end_byte as u32,
    }
}

/// `c` is the capture of function node `i`: its span, the leaves of its
/// body, the text of its name, and whether it sits in a trait impl.
pub open spec fn capture_ok(c: Capture, ns: Seq<SyntaxNode>, src: Seq<char>, lang: Lang, i: int) -> bool {
    let shape = function_shape(lang, ns[i].kind@)->0;
    let b = child_of_kind(ns, i, shape.1)->0;
    &&& c.func == Some(span_of(ns[i]))
    &&& c.body matches Some(v) && v@ == leaves_between(ns, b, subtree_end(ns, b))
    &&& match child_of_kind(ns, i, shape.0) {
        None => c.name is None,
        Some(n) => match byte_text(src, ns[n].start_byte, ns[n].end_byte) {
            None => c.name is None,
            Some(t) => c.name matches Some(s) && s@ == t,
        },
    }
    &&& c.trait_impl == in_trait_impl(ns, i)
}

/// The nodes fit what the analysis takes: at most `u32::MAX` of them,
/// each with rows in order below `u32::MAX` and bytes in order within
/// the source and `u32`.
pub open spec fn nodes_ok(ns: Seq<SyntaxNode>, src: Seq<char>) -> bool {
    &&& ns.len() <= u32::MAX
    &&& forall|i: int|
        0 <= i < ns.len() ==> {
            &&& (#[trigger] ns[i]).start_row <= ns[i].end_row
            &&& ns[i].end_row < u32::MAX
            &&& ns[i].start_byte <= ns[i].end_byte
            &&& ns[i].end_byte <= utf8_len(src)
            &&& ns[i].end_byte <= u32::MAX
        }
}

/// What a parse hands the analysis: the function captures, in document
/// order, and the leaves of the whole tree.
pub struct ParsedSource {
    pub captures: Vec<Capture>,
    pub leaves: Vec<Leaf>,
}

/// `p` is what the nodes `ns` of `src` give.
pub open spec fn parsed_ok(p: ParsedSource, ns: Seq<SyntaxNode>, src: Seq<char>, lang: Lang) -> bool {
    let fs = functions_upto(ns, lang, ns.len() as int);
    &&& p.leaves@ == leaves_between(ns, 0, ns.len() as int)
    &&& p.captures@.len() == fs.len()
    &&& forall|k: int| 0 <= k < fs.len() ==> capture_ok(#[trigger] p.captures@[k], ns, src, lang, fs[k])
}

proof fn lemma_end_from(ns: Seq<SyntaxNode>, i: int, j: int)
    requires
        0 <= i < ns.len(),
        i < j,
    ensures
        j <= end_from(ns, i, j) <= ns.len() || (j > ns.len() && end_from(ns, i, j) == ns.len()),
    decreases ns.len() - j,
{
    if j < ns.len() && ns[j].depth > ns[i].depth {
        lemma_end_from(ns, i, j + 1);
    }
}

fn subtree_end_exec(ns: &Vec<SyntaxNode>, i: usize) -> (e: usize)
    requires
        i < ns@.len(),
    ensures
        e == subtree_end(ns@, i as int),
        i < e <= ns@.len(),
{
    let n = ns.len();
    let mut j: usize = i + 1;
    while j < n && ns[j].depth > ns[i].depth
        invariant
            i < j <= ns@.len(),
            n == ns@.len(),
            end_from(ns@, i as int, i + 1) == end_from(ns@, i as int, j as int),
        decreases ns@.len() - j,
    {
        j = j + 1;
    }
    j
}

proof fn lemma_leaves_len(ns: Seq<SyntaxNode>, lo: int, hi: int)
    requires
        lo <= hi,
    ensures
        leaves_between(ns, lo, hi).len() <= hi - lo,
    decreases hi - lo,
{
    if hi > lo {
        lemma_leaves_len(ns, lo, hi - 1);
    }
}

fn leaves_in(ns: &Vec<SyntaxNode>, lo: usize, hi: usize) -> (v: Vec<Leaf>)
    requires
        lo <= hi <= ns@.len(),
    ensures
        v@ == leaves_between(ns@, lo as int, hi as int),
{
    let mut v: Vec<Leaf> = Vec::new();
    let mut j: usize = lo;
    while j < hi
        invariant
            lo <= j <= hi <= ns@.len(),
            v@ == leaves_between(ns@, lo as int, j as int),
        decreases hi - j,
    {
        let leaf = j + 1 >= ns.len() || ns[j + 1].depth <= ns[j].depth;
        if leaf {
            let n = &ns[j];
            let l = Leaf { class: classify(n.kind.as_str()), kind_id: n.kind_id, row: n.start_row as u32 };
            v.push(l);
        }
        j = j + 1;
    }
    v
}

fn same_text(a: &str, b: &str) -> (r: bool)
    ensures
        r == (a@ == b@),
{
    let x = chars_of(a);
    let y = chars_of(b);
    chars_eq(x.as_slice(), y.as_slice())
}

fn child_kind(ns: &Vec<SyntaxNode>, i: usize, end: usize, k: &str) -> (r: Option<usize>)
    requires
        i < end <= ns@.len(),
    ensures
        match r {
            Some(j) => child_from(ns@, i as int, end as int, k@, i + 1) == Some(j as int) && i < j < end,
            None => child_from(ns@, i as int, end as int, k@, i + 1) is None,
        },
{
    let mut j: usize = i + 1;
    while j < end
        invariant
            i < j <= end <= ns@.len(),
            child_from(ns@, i as int, end as int, k@, i + 1) == child_from(ns@, i as int, end as int, k@, j as int),
        decreases end - j,
    {
        let d = ns[j].depth;
        if d > 0 && d - 1 == ns[i].depth && same_text(ns[j].kind.as_str(), k) {
            return Some(j);
        }
        j = j + 1;
    }
    None
}

fn shape_of(lang: Lang, kind: &str) -> (r: Option<(&'static str, &'static str)>)
    ensures
        match r {
            Some(sh) => function_shape(lang, kind@) == Some((sh.0@, sh.1@)),
            None => function_shape(lang, kind@) is None,
        },
{
    match lang {
        Lang::Python => if same_text(kind, "function_definition") {
            Some(("identifier", "block"))
        } else {
            None
        },
        Lang::Rust => if same_text(kind, "function_item") {
            Some(("identifier", "block"))
        } else {
            None
        },
        Lang::Go => if same_text(kind, "function_declaration") {
            Some(("identifier", "block"))
        } else if same_text(kind, "method_declaration") {
            Some(("field_identifier", "block"))
        } else {
            None
        },
        Lang::Java => if same_text(kind, "method_declaration") {
            Some(("identifier", "block"))
        } else if same_text(kind, "constructor_declaration") {
            Some(("identifier", "constructor_body"))
        } else {
            None
        },
        Lang::Javascript | Lang::Typescript | Lang::Tsx => if same_text(kind, "function_declaration")
            || same_text(kind, "generator_function_declaration") {
            Some(("identifier", "statement_block"))
        } else if same_text(kind, "method_definition") {
            Some(("property_identifier", "statement_block"))
        } else {
            None
        },
        _ => None,
    }
}

fn trait_impl_at(ns: &Vec<SyntaxNode>, i: usize) -> (r: bool)
    requires
        i < ns@.len(),
    ensures
        r == in_trait_impl(ns@, i as int),
{
    let mut jj: usize = i;
    let mut need_plus: u32 = ns[i].depth;
    while jj > 0 && need_plus > 0
        invariant
            jj <= i < ns@.len(),
            in_trait_impl(ns@, i as int) == impl_back(ns@, jj - 1, need_plus - 1),
        decreases jj,
    {
        let j = jj - 1;
        if ns[j].depth == need_plus - 1 {
            if same_text(ns[j].kind.as_str(), "impl_item") {
                let e = subtree_end_exec(ns, j);
                return child_kind(ns, j, e, "for").is_some();
            }
            need_plus = need_plus - 1;
        }
        jj = jj - 1;
    }
    false
}

/// Parse `src` and read it: its function captures in document order and
/// the leaves of the whole tree. `None` when there is no tree, or when a
/// node does not fit the analysis (`nodes_ok`), which tree-sitter's nodes
/// always do.
pub fn parse_source(lang: Lang, src: &str) -> (r: Option<ParsedSource>)
    ensures
        match r {
            None => syntax_nodes_of(lang, src@) is None || (syntax_nodes_of(lang, src@) matches Some(ns) && !nodes_ok(
                ns,
                src@,
            )),
            Some(p) => syntax_nodes_of(lang, src@) matches Some(ns) && nodes_ok(ns, src@) && parsed_ok(
                p,
                ns,
                src@,
                lang,
            ),
        },
{
    let ns = match syntax_nodes(lang, src) {
        None => {
            return None;
        },
        Some(v) => v,
    };
    if ns.len() > 0xffff_ffff {
        return None;
    }
    let total = utf8_len_of(src);
    let mut i: usize = 0;
    while i < ns.len()
        invariant
            i <= ns@.len() <= u32::MAX,
            total == utf8_len(src@),
            syntax_nodes_of(lang, src@) == Some(ns@),
            forall|k: int|
                0 <= k < i ==> {
                    &&& (#[trigger] ns@[k]).start_row <= ns@[k].end_row
                    &&& ns@[k].end_row < u32::MAX
                    &&& ns@[k].start_byte <= ns@[k].end_byte
                    &&& ns@[k].end_byte <= utf8_len(src@)
                    &&& ns@[k].end_byte <= u32::MAX
                },
        decreases ns@.len() - i,
    {
        let n = &ns[i];
        if !(n.start_row <= n.end_row && n.end_row < 0xffff_ffff && n.start_byte <= n.end_byte
            && (n.end_byte as u128) <= total && n.end_byte <= 0xffff_ffff) {
            proof {
                let m = ns@[i as int];
                assert(!(m.start_row <= m.end_row && m.end_row < u32::MAX && m.start_byte <= m.end_byte
                    && m.end_byte <= utf8_len(src@) && m.end_byte <= u32::MAX));
                assert(!nodes_ok(ns@, src@)) by {
                    if nodes_ok(ns@, src@) {
                        assert(ns@[i as int].start_row <= ns@[i as int].end_row);
                    }
                }
            }
            return None;
        }
        i = i + 1;
    }
    let leaves = leaves_in(&ns, 0, ns.len());
    let mut caps: Vec<Capture> = Vec::new();
    let mut i: usize = 0;
    while i < ns.len()
        invariant
            i <= ns@.len(),
            nodes_ok(ns@, src@),
            syntax_nodes_of(lang, src@) == Some(ns@),
            caps@.len() == functions_upto(ns@, lang, i as int).len(),
            forall|k: int|
                0 <= k < caps@.len() ==> capture_ok(
                    #[trigger] caps@[k],
                    ns@,
                    src@,
                    lang,
                    functions_upto(ns@, lang, i as int)[k],
                ),
        decreases ns@.len() - i,
    {
        let ghost before = caps@;
        let ghost fs = functions_upto(ns@, lang, i as int);
        match shape_of(lang, ns[i].kind.as_str()) {
            None => {},
            Some(sh) => {
                let e = subtree_end_exec(&ns, i);
                match child_kind(&ns, i, e, sh.1) {
                    None => {},
                    Some(b) => {
                        let be = subtree_end_exec(&ns, b);
                        let body = leaves_in(&ns, b, be);
                        let name = match child_kind(&ns, i, e, sh.0) {
                            None => None,
                            Some(m) => text_at(src, ns[m].start_byte, ns[m].end_byte),
                        };
                        let ti = trait_impl_at(&ns, i);
                        let n = &ns[i];
                        let span = Span {
                            start_row: n.start_row as u32,
                            end_row: n.end_row as u32,
                            start_byte: n.start_byte as u32,
                            end_byte: n.end_byte as u32,
                        };
                        let c = Capture { name, func: Some(span), body: Some(body), trait_impl: ti };
                        proof {
                            assert(is_function(ns@, lang, i as int));
                            assert(capture_ok(c, ns@, src@, lang, i as int));
                        }
                        caps.push(c);
                        proof {
                            assert forall|k: int| 0 <= k < caps@.len() implies capture_ok(
                                #[trigger] caps@[k],
                                ns@,
                                src@,
                                lang,
                                functions_upto(ns@, lang, i + 1)[k],
                            ) by {
                                if k < before.len() {
                                    assert(caps@[k] == before[k]);
                                }
                            }
                        }
                    },
                }
            },
        }
        i = i + 1;
    }
    let p = ParsedSource { captures: caps, leaves };
    Some(p)
}

/// The captures and leaves of a parse fit what `analyze_captures` takes.
proof fn lemma_parsed_in_range(p: ParsedSource, ns: Seq<SyntaxNode>, src: Seq<char>, lang: Lang)
    requires
        nodes_ok(ns, src),
        parsed_ok(p, ns, src, lang),
    ensures
        captures_in_range(p.captures@, src),
        p.leaves@.len() <= u32::MAX,
{
    lemma_leaves_len(ns, 0, ns.len() as int);
    let fs = functions_upto(ns, lang, ns.len() as int);
    lemma_functions_in(ns, lang, ns.len() as int);
    assert forall|k: int| 0 <= k < p.captures@.len() implies {
        &&& (#[trigger] p.captures@[k]).func matches Some(s) ==> span_ok(s, src)
        &&& p.captures@[k].body matches Some(b) ==> b@.len() <= u32::MAX
    } by {
        let i = fs[k];
        assert(capture_ok(p.captures@[k], ns, src, lang, i));
        let shape = function_shape(lang, ns[i].kind@)->0;
        let b = child_of_kind(ns, i, shape.1)->0;
        lemma_end_from(ns, i, i + 1);
        lemma_child_in(ns, i, shape.1, subtree_end(ns, i), i + 1);
        lemma_end_from(ns, b, b + 1);
        lemma_leaves_len(ns, b, subtree_end(ns, b));
    }
}

proof fn lemma_functions_in(ns: Seq<SyntaxNode>, lang: Lang, j: int)
    requires
        0 <= j <= ns.len(),
    ensures
        forall|k: int|
            0 <= k < functions_upto(ns, lang, j).len() ==> 0 <= #[trigger] functions_upto(ns, lang, j)[k] < j
                && is_function(ns, lang, functions_upto(ns, lang, j)[k]),
    decreases j,
{
    if j > 0 {
        lemma_functions_in(ns, lang, j - 1);
        let prev = functions_upto(ns, lang, j - 1);
        let cur = functions_upto(ns, lang, j);
        assert forall|k: int| 0 <= k < cur.len() implies 0 <= #[trigger] cur[k] < j && is_function(
            ns,
            lang,
            cur[k],
        ) by {
            if k < prev.len() {
                assert(cur[k] == prev[k]);
            }
        }
    }
}

proof fn lemma_child_in(ns: Seq<SyntaxNode>, i: int, k: Seq<char>, end: int, j: int)
    requires
        0 <= i < ns.len(),
        end <= ns.len(),
        i < j,
    ensures
        child_from(ns, i, end, k, j) matches Some(c) ==> j <= c < end,
    decreases end - j,
{
    if j < end && !(ns[j].depth == ns[i].depth + 1 && ns[j].kind@ == k) {
        lemma_child_in(ns, i, k, end, j + 1);
    }
}

/// Parse `src` and analyze every function in it: `None` when there is no
/// tree (no grammar linked for `lang`, or a failed parse) or a node does
/// not fit the analysis; otherwise the analysis of the parse's captures
/// and leaves. `file` is stamped on each unit; `file_is_test` marks all of
/// them as test code.
pub fn analyze_source(
    file: u32,
    lang: Lang,
    src: &str,
    min_tokens: usize,
    file_is_test: bool,
) -> (r: Option<FileAnalysis>)
    ensures
        syntax_nodes_of(lang, src@) is None ==> r is None,
        syntax_nodes_of(lang, src@) matches Some(ns) ==> (r is None <==> !nodes_ok(ns, src@)),
        r matches Some(fa) ==> exists|p: ParsedSource|
            #[trigger] parsed_ok(p, syntax_nodes_of(lang, src@)->0, src@, lang) && analysis_ok(
                fa,
                p.captures@,
                p.leaves@,
                file,
                lang,
                src@,
                min_tokens as nat,
                file_is_test,
            ),
{
    match parse_source(lang, src) {
        None => None,
        Some(p) => {
            proof {
                lemma_parsed_in_range(p, syntax_nodes_of(lang, src@)->0, src@, lang);
            }
            let fa = analyze_captures(file, lang, src, &p.captures, p.leaves.as_slice(), min_tokens, file_is_test);
            assert(parsed_ok(p, syntax_nodes_of(lang, src@)->0, src@, lang));
            Some(fa)
        },
    }
}

} // verus!
