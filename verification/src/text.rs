//! Character-level helpers for callers that hold text rather than bytes.

use vstd::prelude::*;
use vstd::string::StrSliceExecFns;

verus! {

/// The character at a character (not byte) index. The index must be in
/// range: there is no character to return beyond the end.
pub fn safe_char_at(s: &str, char_index: usize) -> (c: char)
    requires
        char_index < s@.len(),
    ensures
        c == s@[char_index as int],
{
    s.get_char(char_index)
}

} // verus!
