//! Line matchers (the `grep-regex` crate) as the library sees them: a
//! compiled matcher remembers the source and case flags it was built from.
use vstd::prelude::*;
use grep_matcher::Matcher;

verus! {

#[verifier::external_type_specification]
#[verifier::external_body]
pub struct ExRegexMatcher(grep_regex::RegexMatcher);

#[verifier::external_type_specification]
#[verifier::external_body]
pub struct ExGrepError(grep_regex::Error);

/// Whether `RegexMatcherBuilder` with the given smart-case and
/// case-insensitive flags accepts `pattern`.
pub uninterp spec fn grep_compiles(pattern: Seq<char>, smart: bool, insensitive: bool) -> bool;

/// Whether the matcher built from `pattern` with the given flags matches
/// somewhere in `hay`.
pub uninterp spec fn grep_matches(pattern: Seq<char>, smart: bool, insensitive: bool, hay: Seq<u8>) -> bool;

/// `RegexMatcherBuilder::new().case_smart(smart).case_insensitive(insensitive).build(src)`:
/// succeeds exactly when the pattern is accepted with those flags.
#[verifier::external_body]
fn grep_build(src: &str, smart: bool, insensitive: bool) -> (r: Result<grep_regex::RegexMatcher, grep_regex::Error>)
    ensures
        r is Ok <==> grep_compiles(src@, smart, insensitive),
{
    grep_regex::RegexMatcherBuilder::new().case_smart(smart).case_insensitive(insensitive).build(src)
}

/// The `Display` text of a `grep_regex::Error`. Nothing is stated of it.
#[verifier::external_body]
fn grep_error_message(e: &grep_regex::Error) -> String {
    e.to_string()
}

/// `Matcher::is_match` on the matcher that `t` holds, which was built from
/// `t.source()` with `t.smart()` and `t.insensitive()`. The matcher's error
/// type cannot occur; an error would read as no match.
#[verifier::external_body]
fn grep_is_match(t: &TermMatcher, hay: &[u8]) -> (b: bool)
    ensures
        b == grep_matches(t.source(), t.smart(), t.insensitive(), hay@),
{
    t.m.is_match(hay).unwrap_or(false)
}

/// A compiled line matcher together with what it was built from.
pub struct TermMatcher {
    m: grep_regex::RegexMatcher,
    source: Ghost<Seq<char>>,
    smart: Ghost<bool>,
    insensitive: Ghost<bool>,
}

impl TermMatcher {
    pub closed spec fn source(&self) -> Seq<char> {
        self.source@
    }

    pub closed spec fn smart(&self) -> bool {
        self.smart@
    }

    pub closed spec fn insensitive(&self) -> bool {
        self.insensitive@
    }

    /// Builds a matcher for `src` with the given case flags; `Err` carries the
    /// builder's message and comes exactly when the pattern is not accepted.
    pub fn new(src: &str, smart: bool, insensitive: bool) -> (r: Result<TermMatcher, String>)
        ensures
            r is Ok <==> grep_compiles(src@, smart, insensitive),
            r matches Ok(t) ==> t.source() == src@ && t.smart() == smart && t.insensitive() == insensitive,
    {
        match grep_build(src, smart, insensitive) {
            Ok(m) => Ok(TermMatcher { m, source: Ghost(src@), smart: Ghost(smart), insensitive: Ghost(insensitive) }),
            Err(e) => Err(grep_error_message(&e)),
        }
    }

    /// The compiled matcher held by this term.
    pub closed spec fn compiled(&self) -> grep_regex::RegexMatcher {
        self.m
    }

    /// The compiled matcher itself, for a line scanner to drive.
    pub fn matcher(&self) -> (r: &grep_regex::RegexMatcher)
        ensures
            *r == self.compiled(),
    {
        &self.m
    }

    /// Whether the matcher matches somewhere in `hay`.
    pub fn is_match(&self, hay: &[u8]) -> (b: bool)
        ensures
            b == grep_matches(self.source(), self.smart(), self.insensitive(), hay@),
    {
        grep_is_match(self, hay)
    }
}

} // verus!
