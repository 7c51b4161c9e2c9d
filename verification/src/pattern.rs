//! Regular-expression matching of member names.
use vstd::prelude::*;

verus! {

/// Whether `regex::Regex` compiled from `pattern` finds a match in `text` (false when the
/// pattern does not compile).
pub uninterp spec fn regex_matches(pattern: Seq<char>, text: Seq<char>) -> bool;

/// The texts of capture groups 1 and 2 of the first match of `regex::Regex` compiled
/// from `pattern` in `text` (a group that takes no part yields the empty text); `None`
/// when there is no match or the pattern does not compile.
pub uninterp spec fn regex_groups(pattern: Seq<char>, text: Seq<char>) -> Option<
    (Seq<char>, Seq<char>),
>;

/// Trusted: compiles `pattern` with `regex::Regex::new` and tests `text` with
/// `Regex::is_match`; a pattern that does not compile matches nothing. The result is
/// named by `regex_matches`.
#[verifier::external_body]
pub(crate) fn is_match(pattern: &str, text: &str) -> (r: bool)
    ensures
        r == regex_matches(pattern@, text@),
{
    match regex::Regex::new(pattern) {
        Ok(re) => re.is_match(text),
        Err(_) => false,
    }
}

/// Trusted: compiles `pattern` with `regex::Regex::new` and reads groups 1 and 2 of
/// `Regex::captures` on `text`. The result is named by `regex_groups`; as the `regex`
/// documentation states, `captures` finds a match exactly when `is_match` does.
#[verifier::external_body]
pub(crate) fn captures_1_2(pattern: &str, text: &str) -> (r: Option<(String, String)>)
    ensures
        match r {
            Some((a, b)) => regex_groups(pattern@, text@) == Some((a@, b@)),
            None => regex_groups(pattern@, text@) is None,
        },
        r is Some <==> regex_matches(pattern@, text@),
{
    let re = match regex::Regex::new(pattern) {
        Ok(re) => re,
        Err(_) => return None,
    };
    let caps = re.captures(text)?;
    let g1 = caps.get(1).map_or(String::new(), |m| m.as_str().to_string());
    let g2 = caps.get(2).map_or(String::new(), |m| m.as_str().to_string());
    Some((g1, g2))
}

} // verus!
