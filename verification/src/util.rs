//! Small display helpers for the renderer.

use vstd::prelude::*;
use vstd::string::StrSliceExecFns;
use vstd::string::StringExecFns;

verus! {

/// Shortens a label to at most `max` characters plus one ellipsis: a string
/// within the limit is returned whole, a longer one is cut to its first
/// `max` characters with an ellipsis appended.
pub fn truncate(s: &str, max: usize) -> (r: String)
    ensures
        s@.len() <= max ==> r@ == s@,
        s@.len() > max ==> r@ == s@.subrange(0, max as int).push('…'),
{
    let n = s.unicode_len();
    if n <= max {
        s.to_owned()
    } else {
        let mut t = s.substring_char(0, max).to_owned();
        t.push('…');
        t
    }
}

} // verus!
