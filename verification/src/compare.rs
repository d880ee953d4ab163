//! Helpers of the spec-comparison table.
use vstd::prelude::*;

verus! {

/// `s` cut to at most `max` characters: longer text keeps its first
/// `max - 3` characters (none when `max < 3`) followed by `...`.
pub open spec fn truncated(s: Seq<char>, max: nat) -> Seq<char> {
    if s.len() <= max {
        s
    } else {
        s.take(if max >= 3 { max - 3 } else { 0 }) + "..."@
    }
}

/// Shorten `s` for a table column of width `max`.
pub fn truncate(s: &str, max: usize) -> (r: String)
    ensures
        r@ == truncated(s@, max as nat),
{
    let n = crate::names::char_len(s);
    if n <= max {
        String::from_str(s)
    } else {
        let take = if max >= 3 { max - 3 } else { 0 };
        let prefix = s.substring_char(0, take);
        let out = String::from_str(prefix);
        out.concat("...")
    }
}

} // verus!
