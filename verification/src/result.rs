use vstd::prelude::*;

verus! {

/// One completed execution: the seed it ran, the extracted score and the
/// relative score (both as order keys, see the crate doc), and the auxiliary
/// `(key, value)` pairs in first-seen order with unique keys.
pub struct ExecResult {
    pub seed: u64,
    /// Total-order key of the extracted score; `None` when no score was
    /// produced or the produced value was undefined.
    pub score: Option<u64>,
    /// Total-order key of the relative score.
    pub relative: u64,
    pub data: Vec<(String, String)>,
}

/// Strict "less than" on score keys: an undefined score is neither below nor
/// above anything, so a comparison against it never orders a replacement.
pub open spec fn spec_score_lt(a: Option<u64>, b: Option<u64>) -> bool {
    a is Some && b is Some && a->0 < b->0
}

/// Executable form of [`spec_score_lt`].
pub fn score_lt(a: &Option<u64>, b: &Option<u64>) -> (r: bool)
    ensures
        r == spec_score_lt(*a, *b),
{
    match (a, b) {
        (Some(x), Some(y)) => *x < *y,
        _ => false,
    }
}

} // verus!
