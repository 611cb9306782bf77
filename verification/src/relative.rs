use vstd::prelude::*;
use crate::errors::Fault;
use crate::text::str_eq;

verus! {

/// Which formula yields the relative score.
#[derive(Clone, Copy, Debug, PartialEq, Eq, Structural)]
pub enum RelKind {
    /// No history or no score: the relative score is zero.
    Zero,
    /// Minimizing: best over current, times one hundred.
    BestOverScore,
    /// Maximizing: current over best, times one hundred.
    ScoreOverBest,
}

/// What the scoring direction prescribes: with no ledger entry or no score
/// the relative score is zero whatever the direction says; otherwise `min`
/// divides best by current and `max` current by best, and any other
/// direction is a configuration fault.
pub open spec fn relative_rule_spec(
    scoring: Seq<char>,
    best: Option<u64>,
    score: Option<u64>,
) -> Result<RelKind, Fault> {
    if best is None || score is None {
        Ok(RelKind::Zero)
    } else if scoring == "min"@ {
        Ok(RelKind::BestOverScore)
    } else if scoring == "max"@ {
        Ok(RelKind::ScoreOverBest)
    } else {
        Err(Fault::InvalidScoring)
    }
}

/// Decides the relative-score formula for one seed, exactly
/// [`relative_rule_spec`]. `best` and `score` are the score keys; the
/// division itself is carried out by the caller on the underlying values.
pub fn relative_rule(scoring: &str, best: Option<u64>, score: Option<u64>) -> (r: Result<
    RelKind,
    Fault,
>)
    ensures
        r == relative_rule_spec(scoring@, best, score),
{
    if best.is_none() || score.is_none() {
        Ok(RelKind::Zero)
    } else if str_eq(scoring, "min") {
        Ok(RelKind::BestOverScore)
    } else if str_eq(scoring, "max") {
        Ok(RelKind::ScoreOverBest)
    } else {
        Err(Fault::InvalidScoring)
    }
}

} // verus!
