//! The authoritative token count over an assembled document: a
//! character-based heuristic, isolated here so it can be swapped.

use vstd::prelude::*;

verus! {

/// The count a text is charged with: one token per three characters,
/// rounded down.
pub open spec fn spec_count_tokens(s: Seq<char>) -> nat {
    s.len() / 3
}

/// Counts the tokens of `text` by the character heuristic.
pub fn count_tokens(text: &str) -> (r: usize)
    ensures
        r == spec_count_tokens(text@),
{
    let n = text.unicode_len();
    n / 3
}

} // verus!
