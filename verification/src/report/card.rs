//! The shareable history card.

use vstd::prelude::*;
use crate::text::{append_chars, chars_of, decimal, decimal_chars, string_of};

verus! {

/// The card for a history of `snapshots` measured snapshots.
pub fn history_card(snapshots: usize) -> (svg: String)
    ensures
        svg@ == "<svg xmlns='http://www.w3.org/2000/svg' width='1200' height='630'><text x='60' y='100'>"@
            + decimal(snapshots as nat) + " snapshots</text></svg>"@,
{
    let mut out = chars_of(
        "<svg xmlns='http://www.w3.org/2000/svg' width='1200' height='630'><text x='60' y='100'>",
    );
    let n = decimal_chars(snapshots as u64);
    append_chars(&mut out, n.as_slice());
    let tail = chars_of(" snapshots</text></svg>");
    append_chars(&mut out, tail.as_slice());
    string_of(out.as_slice())
}

} // verus!
