//! Regular-expression search over note text, through the `regex` crate.
use vstd::prelude::*;


verus! {

#[verifier::external_type_specification]
#[verifier::external_body]
pub struct ExRegex(regex::Regex);

/// Whether `regex::Regex::new` accepts a pattern.
pub uninterp spec fn regex_compiles(pattern: Seq<char>) -> bool;

/// Whether the regex compiled from `pattern` matches somewhere in `haystack`.
pub uninterp spec fn regex_finds(pattern: Seq<char>, haystack: Seq<char>) -> bool;

/// A compiled pattern, together with the pattern it was compiled from.
pub struct Matcher {
    re: regex::Regex,
    source: String,
}

impl View for Matcher {
    type V = Seq<char>;

    closed spec fn view(&self) -> Seq<char> {
        self.source@
    }
}

/// Relies on `regex::Regex::new`: it compiles the pattern or reports it
/// invalid (a syntax error, or a program over the default size limit), which
/// depends on the pattern alone. A refusal comes back as the error's text.
#[verifier::external_body]
fn compile_regex(pattern: &str) -> (r: Result<Matcher, String>)
    ensures
        r is Ok <==> regex_compiles(pattern@),
        r matches Ok(m) ==> m@ == pattern@,
{
    match regex::Regex::new(pattern) {
        Ok(re) => Ok(Matcher { re, source: pattern.to_string() }),
        Err(e) => Err(e.to_string()),
    }
}

/// Relies on `regex::Regex::is_match`: whether the regex matches anywhere in
/// the haystack, which depends on the pattern and the haystack alone.
#[verifier::external_body]
pub(crate) fn regex_is_match(m: &Matcher, haystack: &str) -> (r: bool)
    ensures
        r == regex_finds(m@, haystack@),
{
    m.re.is_match(haystack)
}

/// The pattern that a search compiles: case-insensitive searches put the
/// inline flag `(?i)` in front of it.
pub open spec fn search_pattern(pattern: Seq<char>, case_sensitive: bool) -> Seq<char> {
    if case_sensitive {
        pattern
    } else {
        "(?i)"@ + pattern
    }
}

/// Compiles a search pattern; an invalid one is a validation error.
pub fn compile_search(pattern: &str, case_sensitive: bool) -> (r: Result<Matcher, crate::error::Error>)
    ensures
        r is Ok <==> regex_compiles(search_pattern(pattern@, case_sensitive)),
        r matches Ok(m) ==> m@ == search_pattern(pattern@, case_sensitive),
        r matches Err(e) ==> e is Validation,
{
    let full = if case_sensitive {
        String::from_str(pattern)
    } else {
        let mut s = String::from_str("(?i)");
        s.append(pattern);
        s
    };
    match compile_regex(full.as_str()) {
        Ok(m) => Ok(m),
        Err(e) => {
            let mut msg = String::from_str("invalid regex: ");
            msg.append(e.as_str());
            Err(crate::error::Error::Validation(msg))
        },
    }
}

/// Whether the matcher finds its pattern in the title or the body.
pub fn text_matches(m: &Matcher, title: &str, body: &str) -> (r: bool)
    ensures
        r == (regex_finds(m@, title@) || regex_finds(m@, body@)),
{
    regex_is_match(m, title) || regex_is_match(m, body)
}

} // verus!
