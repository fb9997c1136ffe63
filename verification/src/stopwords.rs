//! The fixed closed set of stop words: high-frequency function words that are
//! removed from a surface form before set-equality matching.

use vstd::prelude::*;

use crate::text::{lc_seq, lc_str, str_eq};

verus! {

/// The word `w` is one of the nine stop words, written in lowercase.
pub open spec fn spec_is_stop(w: Seq<char>) -> bool {
    ||| w == "a"@
    ||| w == "the"@
    ||| w == "and"@
    ||| w == "of"@
    ||| w == "in"@
    ||| w == "to"@
    ||| w == "on"@
    ||| w == "an"@
    ||| w == "with"@
}

/// Return true iff the lowercased `token` is a stop word.
pub fn is_stop(token: &str) -> (r: bool)
    ensures
        r == spec_is_stop(lc_seq(token@)),
{
    let lc = lc_str(token);
    let t = lc.as_str();
    str_eq(t, "a") || str_eq(t, "the") || str_eq(t, "and") || str_eq(t, "of") || str_eq(t, "in")
        || str_eq(t, "to") || str_eq(t, "on") || str_eq(t, "an") || str_eq(t, "with")
}

} // verus!
