//! The regular-expression engine of the `regex` crate, as the parser of
//! clipping headers uses it.

use vstd::prelude::*;

verus! {

#[verifier::external_type_specification]
#[verifier::external_body]
pub struct ExRegex(regex::Regex);

#[verifier::external_type_specification]
#[verifier::external_body]
pub struct ExRegexError(regex::Error);

/// Whether `regex::Regex::new` accepts `pattern`.
pub uninterp spec fn regex_compiles(pattern: Seq<char>) -> bool;

/// The capture groups that `regex::Regex::captures` reports for the regex
/// compiled from `pattern` on `haystack`: `None` where it does not match,
/// else one entry per group, `None` for a group that did not take part.
pub uninterp spec fn regex_capture_groups(pattern: Seq<char>, haystack: Seq<char>) -> Option<
    Seq<Option<Seq<char>>>,
>;

/// A compiled regular expression together with the pattern it came from.
pub struct CompiledRegex {
    regex: regex::Regex,
    pattern: Ghost<Seq<char>>,
}

impl CompiledRegex {
    /// The pattern this regex was compiled from.
    pub closed spec fn pattern(&self) -> Seq<char> {
        self.pattern@
    }
}

/// The views of capture groups.
pub open spec fn group_views(groups: Seq<Option<String>>) -> Seq<Option<Seq<char>>> {
    groups.map_values(
        |g: Option<String>|
            match g {
                Some(s) => Some(s@),
                None => None,
            },
    )
}

/// Calls `regex::Regex::new`. The contract claims that it succeeds exactly
/// where `regex_compiles` holds, and keeps the pattern beside the result.
#[verifier::external_body]
pub(crate) fn compile_regex(pattern: &str) -> (r: Result<CompiledRegex, regex::Error>)
    ensures
        r is Ok <==> regex_compiles(pattern@),
        r matches Ok(c) ==> c.pattern() == pattern@,
{
    match regex::Regex::new(pattern) {
        Ok(regex) => Ok(CompiledRegex { regex, pattern: Ghost(pattern@) }),
        Err(e) => Err(e),
    }
}

/// Calls `regex::Regex::captures` and copies each group's text out. The
/// contract claims that the groups are those that `regex_capture_groups`
/// names for the regex's pattern and the haystack.
#[verifier::external_body]
pub(crate) fn capture_groups(re: &CompiledRegex, haystack: &str) -> (r: Option<Vec<Option<String>>>)
    ensures
        r is None <==> regex_capture_groups(re.pattern(), haystack@) is None,
        r matches Some(g) ==> group_views(g@) == regex_capture_groups(re.pattern(), haystack@)->0,
{
    let caps = re.regex.captures(haystack)?;
    let mut groups = Vec::new();
    for group in caps.iter() {
        match group {
            Some(m) => groups.push(Some(m.as_str().to_string())),
            None => groups.push(None),
        }
    }
    Some(groups)
}

} // verus!
