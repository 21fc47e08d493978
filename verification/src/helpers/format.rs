//! Truncation of identifiers for display.
use vstd::prelude::*;
use vstd::string::{StrSliceExecFns, StringExecFns};

verus! {

/// The display form of an identifier: its first 16 characters, followed by `..` if it is longer.
pub open spec fn spec_fmt_id(id: Seq<char>) -> Seq<char> {
    if id.len() > 16 {
        id.subrange(0, 16) + seq!['.', '.']
    } else {
        id
    }
}

/// Formats an ID into a truncated identifier (for logging purposes).
pub fn fmt_id(id: &str) -> (r: String)
    ensures
        r@ == spec_fmt_id(id@),
{
    let count = id.unicode_len();
    if count > 16 {
        let mut formatted_id = String::from_str(id.substring_char(0, 16));
        let dots = "..";
        proof {
            reveal_strlit("..");
        }
        formatted_id.append(dots);
        assert(formatted_id@ =~= id@.subrange(0, 16) + seq!['.', '.']);
        formatted_id
    } else {
        String::from_str(id)
    }
}

} // verus!
