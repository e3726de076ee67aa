//! Compiled regular expressions, matched by the `regex` crate.
use vstd::prelude::*;

verus! {

#[verifier::external_type_specification]
#[verifier::external_body]
pub struct ExRegex(regex::Regex);

#[verifier::external_type_specification]
#[verifier::external_body]
pub struct ExRegexError(regex::Error);

/// Whether the `regex` crate accepts `pattern` as a regular expression.
pub uninterp spec fn regex_compiles(pattern: Seq<char>) -> bool;

/// The capture groups of the first match of `pattern` in `text` (group 0
/// being the whole match; a group that took no part is `None`), or `None`
/// where the pattern does not match, as the `regex` crate finds them.
pub uninterp spec fn regex_captures(pattern: Seq<char>, text: Seq<char>) -> Option<
    Seq<Option<Seq<char>>>,
>;

/// A regular expression together with the text it was compiled from.
pub struct Pattern {
    regex: regex::Regex,
    source: String,
}

impl Pattern {
    /// The text the expression was compiled from.
    pub closed spec fn source(&self) -> Seq<char> {
        self.source@
    }
}

/// The views of the capture groups.
pub open spec fn groups_view(g: Seq<Option<String>>) -> Seq<Option<Seq<char>>> {
    g.map_values(
        |o: Option<String>|
            match o {
                Some(s) => Some(s@),
                None => None,
            },
    )
}

/// `regex::Regex::new`: claims that it succeeds exactly on the patterns
/// named `regex_compiles`, and that the compiled pattern keeps its text.
#[verifier::external_body]
pub(crate) fn compile(source: &str) -> (r: Result<Pattern, regex::Error>)
    ensures
        r is Ok <==> regex_compiles(source@),
        r matches Ok(p) ==> p.source() == source@,
{
    match regex::Regex::new(source) {
        Ok(regex) => Ok(Pattern { regex, source: source.to_string() }),
        Err(e) => Err(e),
    }
}

/// `regex::Regex::captures`, each group read with `Captures::get` and
/// `Match::as_str`: claims that the groups are those named by
/// `regex_captures` of the pattern's text and the haystack.
#[verifier::external_body]
pub(crate) fn captures(p: &Pattern, text: &str) -> (r: Option<Vec<Option<String>>>)
    ensures
        match r {
            Some(g) => regex_captures(p.source(), text@) == Some(groups_view(g@)),
            None => regex_captures(p.source(), text@) is None,
        },
{
    let caps = p.regex.captures(text)?;
    let mut groups = Vec::new();
    for m in caps.iter() {
        match m {
            Some(m) => groups.push(Some(m.as_str().to_string())),
            None => groups.push(None),
        }
    }
    Some(groups)
}

/// `regex::Regex::is_match`: its documentation says it is true exactly
/// when the haystack holds a match, which is when `captures` finds one.
#[verifier::external_body]
pub(crate) fn is_match(p: &Pattern, text: &str) -> (r: bool)
    ensures
        r == regex_captures(p.source(), text@) is Some,
{
    p.regex.is_match(text)
}

} // verus!
