use vstd::prelude::*;

verus! {

/// Whether the extraction pattern compiles; `regex::Regex::new` decides
/// this from the pattern text alone.
pub uninterp spec fn pattern_valid(p: Seq<char>) -> bool;

/// What the pattern's named groups `VARIABLE` and `VALUE` capture on a
/// line, or `None` when the line does not match or the groups are not both
/// present; `regex::Regex::captures` decides this from the pattern and the
/// line alone.
pub uninterp spec fn captures_of(p: Seq<char>, line: Seq<char>) -> Option<(Seq<char>, Seq<char>)>;

#[verifier::external_type_specification]
#[verifier::external_body]
pub struct ExRegexError(regex::Error);

/// Relies on regex::Regex::new (compiling succeeds or fails on the pattern
/// alone) and regex::Regex::captures with Captures::name (the text the
/// named groups `VARIABLE` and `VALUE` capture is a function of pattern and
/// line alone).
#[verifier::external_body]
pub(crate) fn match_line(pattern: &str, line: &str) -> (r: Result<Option<(String, String)>, regex::Error>)
    ensures
        r is Ok <==> pattern_valid(pattern@),
        (match r {
            Ok(Some((var, val))) => captures_of(pattern@, line@) == Some((var@, val@)),
            Ok(None) => captures_of(pattern@, line@) is None,
            Err(_) => true,
        }),
{
    let re = regex::Regex::new(pattern)?;
    match re.captures(line) {
        Some(c) => match (c.name("VARIABLE"), c.name("VALUE")) {
            (Some(var), Some(val)) => Ok(
                Some((var.as_str().to_string(), val.as_str().to_string())),
            ),
            _ => Ok(None),
        },
        None => Ok(None),
    }
}

} // verus!
