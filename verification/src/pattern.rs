//! The calls into the `regex` crate.
use vstd::prelude::*;

verus! {

#[verifier::external_type_specification]
#[verifier::external_body]
pub struct ExRegexError(regex::Error);

/// Whether `regex::Regex::new` accepts `pattern`.
pub uninterp spec fn regex_compiles(pattern: Seq<char>) -> bool;

/// The capture groups, group 0 first, of the match that
/// `regex::Regex::captures` reports for `pattern` in `haystack`; `None` when
/// there is no match.
pub uninterp spec fn regex_captures_spec(pattern: Seq<char>, haystack: Seq<char>) -> Option<
    Seq<Option<Seq<char>>>,
>;

/// The capture groups of each match, in order, that `regex::Regex::captures_iter`
/// yields for `pattern` in `haystack`.
pub uninterp spec fn regex_captures_iter_spec(pattern: Seq<char>, haystack: Seq<char>) -> Seq<
    Seq<Option<Seq<char>>>,
>;

/// Compiles `pattern` with `regex::Regex::new` and runs `Regex::captures` on
/// `haystack`, handing back the text of each capture group.
///
/// Claimed: compilation fails exactly when `regex_compiles` says so, and the
/// groups are those `regex_captures_spec` names; what a pattern matches is
/// not stated.
#[verifier::external_body]
pub fn regex_captures(pattern: &str, haystack: &str) -> (r: Result<
    Option<Vec<Option<String>>>,
    regex::Error,
>)
    ensures
        r is Ok <==> regex_compiles(pattern@),
        r matches Ok(c) ==> c.deep_view() == regex_captures_spec(pattern@, haystack@),
{
    let re = regex::Regex::new(pattern)?;
    let Some(caps) = re.captures(haystack) else {
        return Ok(None);
    };
    let mut groups = Vec::new();
    for m in caps.iter() {
        groups.push(match m {
            Some(m) => Some(m.as_str().to_string()),
            None => None,
        });
    }
    Ok(Some(groups))
}

/// Compiles `pattern` with `regex::Regex::new` and collects what
/// `Regex::captures_iter` yields on `haystack`, the text of each group of
/// each match.
///
/// Claimed: compilation fails exactly when `regex_compiles` says so, and the
/// matches are those `regex_captures_iter_spec` names; what a pattern matches
/// is not stated.
#[verifier::external_body]
pub fn regex_captures_iter(pattern: &str, haystack: &str) -> (r: Result<
    Vec<Vec<Option<String>>>,
    regex::Error,
>)
    ensures
        r is Ok <==> regex_compiles(pattern@),
        r matches Ok(c) ==> c.deep_view() == regex_captures_iter_spec(pattern@, haystack@),
{
    let re = regex::Regex::new(pattern)?;
    let mut all = Vec::new();
    for caps in re.captures_iter(haystack) {
        let mut groups = Vec::new();
        for m in caps.iter() {
            groups.push(match m {
                Some(m) => Some(m.as_str().to_string()),
                None => None,
            });
        }
        all.push(groups);
    }
    Ok(all)
}

/// What `regex::Regex::replace` gives for `pattern` on `haystack` with the
/// empty replacement: `haystack` without its leftmost-first match.
pub uninterp spec fn regex_remove_first_spec(pattern: Seq<char>, haystack: Seq<char>) -> Seq<char>;

/// Compiles `pattern` with `regex::Regex::new` and runs `Regex::replace` on
/// `haystack` with an empty replacement, which removes the leftmost-first
/// match.
///
/// Claimed: compilation fails exactly when `regex_compiles` says so; the
/// text is the one `regex_remove_first_spec` names, and, as the crate's
/// documentation says, it is `haystack` itself when the pattern does not
/// match (`Regex::captures` reports nothing). Where a match lies is not
/// stated.
#[verifier::external_body]
pub fn regex_remove_first(pattern: &str, haystack: &str) -> (r: Result<String, regex::Error>)
    ensures
        r is Ok <==> regex_compiles(pattern@),
        r matches Ok(s) ==> s@ == regex_remove_first_spec(pattern@, haystack@),
        r matches Ok(s) ==> (regex_captures_spec(pattern@, haystack@) is None ==> s@ == haystack@),
{
    let re = regex::Regex::new(pattern)?;
    Ok(re.replace(haystack, "").into_owned())
}

} // verus!
