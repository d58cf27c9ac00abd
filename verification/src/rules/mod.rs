//! The lint rules, one module per category, and the fence tracking that
//! the table and link rules share.

pub mod code_fences;
pub mod headings;
pub mod links;
pub mod lists;
pub mod tables;
pub mod thematic_break;
pub mod whitespace;

use vstd::prelude::*;

use crate::text::{count_leading, leading_eq, starts_with};

verus! {

/// A line (already trimmed at the start) that opens a fenced block for the
/// purpose of skipping its contents: three or more backticks or tildes.
/// Gives the fence character and the fence length.
pub open spec fn spec_fence_open(trimmed: Seq<char>) -> Option<(char, nat)> {
    if trimmed.len() > 0 && (trimmed[0] == '`' || trimmed[0] == '~') && leading_eq(trimmed, trimmed[0]) >= 3 {
        Some((trimmed[0], leading_eq(trimmed, trimmed[0])))
    } else {
        None
    }
}

/// A line (already trimmed at the start) that closes a block opened with
/// `len` times `ch`: at least `len` times `ch`.
pub open spec fn spec_fence_close(trimmed: Seq<char>, ch: char, len: nat) -> bool {
    starts_with(trimmed, ch) && leading_eq(trimmed, ch) >= len
}

/// `(fence_char, fence_len)` when the trimmed line opens a fence.
pub fn fence_open(trimmed: &Vec<char>) -> (r: Option<(char, usize)>)
    ensures
        match r {
            Some((c, l)) => spec_fence_open(trimmed@) == Some((c, l as nat)),
            None => spec_fence_open(trimmed@) is None,
        },
{
    if trimmed.len() == 0 {
        return None;
    }
    let first = trimmed[0];
    if first != '`' && first != '~' {
        return None;
    }
    let len = count_leading(trimmed, first);
    if len >= 3 {
        Some((first, len))
    } else {
        None
    }
}

/// Whether the trimmed line closes a fence of `fence_len` times `fence_char`.
pub fn fence_close(trimmed: &Vec<char>, fence_char: char, fence_len: usize) -> (r: bool)
    ensures
        r == spec_fence_close(trimmed@, fence_char, fence_len as nat),
{
    if trimmed.len() == 0 || trimmed[0] != fence_char {
        return false;
    }
    let len = count_leading(trimmed, fence_char);
    len >= fence_len
}

} // verus!
