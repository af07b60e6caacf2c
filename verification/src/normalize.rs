//! Turns the leaves of a syntax subtree into a normalized token stream:
//! identifiers and literals are folded to sentinels (so renames and
//! re-literaling don't matter), comments are dropped, and everything
//! structural keeps its grammar kind id verbatim.

use vstd::prelude::*;
use crate::lang::TokenClass;

verus! {

/// Sentinel codes live above any real grammar kind id.
pub const ID: u16 = 0xffff;
pub const STR: u16 = 0xfffe;
pub const NUM: u16 = 0xfffd;

/// One leaf of a syntax tree, as normalization reads it: its class, its
/// grammar kind id and the (0-based) source row it starts on.
#[derive(Clone, Copy, Debug)]
pub struct Leaf {
    pub class: TokenClass,
    pub kind_id: u16,
    pub row: u32,
}

pub struct Normalized {
    pub codes: Vec<u16>,
    /// Distinct source lines holding at least one non-comment token.
    pub sig_lines: u32,
}

/// The code a non-comment leaf contributes.
pub open spec fn leaf_code(l: Leaf) -> u16 {
    match l.class {
        TokenClass::Ident => ID,
        TokenClass::Str => STR,
        TokenClass::Num => NUM,
        _ => l.kind_id,
    }
}

/// The normalized codes of a leaf sequence: comments dropped, every other
/// leaf mapped to its code, and a literal sentinel not repeated right after
/// itself (one literal can span several leaves).
pub open spec fn codes_of(leaves: Seq<Leaf>) -> Seq<u16>
    decreases leaves.len(),
{
    if leaves.len() == 0 {
        Seq::empty()
    } else {
        let prev = codes_of(leaves.drop_last());
        let l = leaves.last();
        if l.class == TokenClass::Comment {
            prev
        } else {
            let c = leaf_code(l);
            if (c == STR || c == NUM) && prev.len() > 0 && prev.last() == c {
                prev
            } else {
                prev.push(c)
            }
        }
    }
}

/// The row of the last non-comment leaf, or `u32::MAX` when there is none.
pub open spec fn last_code_row(leaves: Seq<Leaf>) -> u32
    decreases leaves.len(),
{
    if leaves.len() == 0 {
        u32::MAX
    } else if leaves.last().class == TokenClass::Comment {
        last_code_row(leaves.drop_last())
    } else {
        leaves.last().row
    }
}

/// Number of runs of non-comment leaves on one row: the significant lines
/// of a subtree whose leaves come in source order.
pub open spec fn line_count(leaves: Seq<Leaf>) -> nat
    decreases leaves.len(),
{
    if leaves.len() == 0 {
        0
    } else {
        let prev = line_count(leaves.drop_last());
        let l = leaves.last();
        if l.class == TokenClass::Comment || l.row == last_code_row(leaves.drop_last()) {
            prev
        } else {
            prev + 1
        }
    }
}

proof fn lemma_line_count_bound(leaves: Seq<Leaf>)
    ensures
        line_count(leaves) <= leaves.len(),
    decreases leaves.len(),
{
    if leaves.len() > 0 {
        lemma_line_count_bound(leaves.drop_last());
    }
}

/// Normalize `leaves` (the leaves of one subtree, in source order). A
/// single literal can span several leaves (open quote, content, escapes,
/// close quote), so consecutive equal literal sentinels collapse into one
/// code: `"a${x}b"` becomes STR ID STR rather than STR STR ID STR STR.
pub fn normalize(leaves: &[Leaf]) -> (n: Normalized)
    requires
        leaves@.len() <= u32::MAX,
    ensures
        n.codes@ == codes_of(leaves@),
        n.sig_lines == line_count(leaves@),
{
    let mut codes: Vec<u16> = Vec::new();
    let mut sig_lines: u32 = 0;
    let mut last_line: u32 = u32::MAX;
    let mut i: usize = 0;
    while i < leaves.len()
        invariant
            i <= leaves@.len() <= u32::MAX,
            codes@ == codes_of(leaves@.subrange(0, i as int)),
            sig_lines == line_count(leaves@.subrange(0, i as int)),
            last_line == last_code_row(leaves@.subrange(0, i as int)),
            sig_lines <= i,
        decreases leaves@.len() - i,
    {
        let leaf = leaves[i];
        proof {
            assert(leaves@.subrange(0, i + 1).drop_last() =~= leaves@.subrange(0, i as int));
            assert(leaves@.subrange(0, i + 1).last() == leaf);
        }
        if leaf.class != TokenClass::Comment {
            if leaf.row != last_line {
                sig_lines = sig_lines + 1;
                last_line = leaf.row;
            }
            let code = match leaf.class {
                TokenClass::Ident => ID,
                TokenClass::Str => STR,
                TokenClass::Num => NUM,
                _ => leaf.kind_id,
            };
            let collapsible = code == STR || code == NUM;
            if !(collapsible && codes.len() > 0 && codes[codes.len() - 1] == code) {
                codes.push(code);
            }
        }
        i = i + 1;
    }
    assert(leaves@.subrange(0, leaves@.len() as int) =~= leaves@);
    Normalized { codes, sig_lines }
}

/// Count the distinct lines in a subtree that hold at least one
/// non-comment token (used for whole-file significant line counts).
pub fn significant_lines(leaves: &[Leaf]) -> (count: u32)
    requires
        leaves@.len() <= u32::MAX,
    ensures
        count == line_count(leaves@),
{
    let mut count: u32 = 0;
    let mut last_line: u32 = u32::MAX;
    let mut i: usize = 0;
    while i < leaves.len()
        invariant
            i <= leaves@.len() <= u32::MAX,
            count == line_count(leaves@.subrange(0, i as int)),
            last_line == last_code_row(leaves@.subrange(0, i as int)),
            count <= i,
        decreases leaves@.len() - i,
    {
        let leaf = leaves[i];
        proof {
            assert(leaves@.subrange(0, i + 1).drop_last() =~= leaves@.subrange(0, i as int));
            assert(leaves@.subrange(0, i + 1).last() == leaf);
        }
        if leaf.class != TokenClass::Comment && leaf.row != last_line {
            count = count + 1;
            last_line = leaf.row;
        }
        i = i + 1;
    }
    assert(leaves@.subrange(0, leaves@.len() as int) =~= leaves@);
    count
}

/// The leaves that are not comments.
pub open spec fn without_comments(leaves: Seq<Leaf>) -> Seq<Leaf> {
    leaves.filter(|l: Leaf| l.class != TokenClass::Comment)
}

/// Comments never matter: dropping every comment leaf leaves the
/// normalized codes and the significant line count unchanged.
pub proof fn lemma_comments_do_not_affect_normalization(leaves: Seq<Leaf>)
    ensures
        codes_of(without_comments(leaves)) == codes_of(leaves),
        line_count(without_comments(leaves)) == line_count(leaves),
        last_code_row(without_comments(leaves)) == last_code_row(leaves),
    decreases leaves.len(),
{
    if leaves.len() > 0 {
        let d = leaves.drop_last();
        lemma_comments_do_not_affect_normalization(d);
        reveal(Seq::filter);
        if leaves.last().class != TokenClass::Comment {
            let w = without_comments(leaves);
            assert(w == without_comments(d).push(leaves.last()));
            assert(w.drop_last() =~= without_comments(d));
        } else {
            assert(without_comments(leaves) == without_comments(d));
        }
    }
}

/// Renamed clones normalize identically: two leaf sequences that agree on
/// every leaf's class and row, and on the kind id of every structural
/// leaf, have the same codes and line count, whatever their identifiers
/// and literals were.
pub proof fn lemma_renaming_does_not_affect_normalization(a: Seq<Leaf>, b: Seq<Leaf>)
    requires
        a.len() == b.len(),
        forall|i: int|
            0 <= i < a.len() ==> #[trigger] a[i].class == b[i].class && a[i].row == b[i].row && (
            a[i].class == TokenClass::Other ==> a[i].kind_id == b[i].kind_id),
    ensures
        codes_of(a) == codes_of(b),
        line_count(a) == line_count(b),
        last_code_row(a) == last_code_row(b),
    decreases a.len(),
{
    if a.len() > 0 {
        let n = a.len() - 1;
        assert(a[n].class == b[n].class);
        lemma_renaming_does_not_affect_normalization(a.drop_last(), b.drop_last());
        assert(leaf_code(a.last()) == leaf_code(b.last()) || a.last().class == TokenClass::Comment);
    }
}

} // verus!
