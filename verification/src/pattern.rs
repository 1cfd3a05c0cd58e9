//! Regular expressions (the `regex` crate) as the library sees them: a
//! compiled pattern remembers the source it was compiled from, and every
//! question asked of it is answered in terms of that source.
use vstd::prelude::*;

verus! {

#[verifier::external_type_specification]
#[verifier::external_body]
pub struct ExRegex(regex::Regex);

#[verifier::external_type_specification]
#[verifier::external_body]
pub struct ExRegexError(regex::Error);

/// Whether `regex::Regex::new` accepts `pattern`.
pub uninterp spec fn regex_compiles(pattern: Seq<char>) -> bool;

/// Whether the regex compiled from `pattern` matches somewhere in `haystack`.
pub uninterp spec fn regex_matches(pattern: Seq<char>, haystack: Seq<char>) -> bool;

/// The capture groups (group 0 first; an unmatched group as the empty text)
/// of the leftmost match of the regex compiled from `pattern` in `haystack`,
/// or `None` when there is no match.
pub uninterp spec fn regex_captures(pattern: Seq<char>, haystack: Seq<char>) -> Option<Seq<Seq<char>>>;

/// The byte ranges (start, end) of the successive non-overlapping matches
/// that `Regex::find_iter` reports for the regex compiled from `pattern` in
/// `haystack`, in order.
pub uninterp spec fn regex_match_spans(pattern: Seq<char>, haystack: Seq<char>) -> Seq<(int, int)>;

/// The characters that `regex::escape` prefixes with a backslash.
pub open spec fn is_regex_meta(c: char) -> bool {
    c == '\\' || c == '.' || c == '+' || c == '*' || c == '?' || c == '(' || c == ')' || c == '|'
        || c == '[' || c == ']' || c == '{' || c == '}' || c == '^' || c == '$' || c == '#'
        || c == '&' || c == '-' || c == '~'
}

/// `s` with every regex meta character preceded by a backslash.
pub open spec fn escape_spec(s: Seq<char>) -> Seq<char>
    decreases s.len(),
{
    if s.len() == 0 {
        seq![]
    } else {
        let c = s.last();
        escape_spec(s.drop_last()) + if is_regex_meta(c) { seq!['\\', c] } else { seq![c] }
    }
}

/// `regex::Regex::new`: compiles `src`; succeeds exactly when the pattern is
/// valid (`regex_compiles`). Nothing is said of the compiled value here: the
/// [`Pattern`] built from it remembers `src`.
#[verifier::external_body]
fn regex_new(src: &str) -> (r: Result<regex::Regex, regex::Error>)
    ensures
        r is Ok <==> regex_compiles(src@),
{
    regex::Regex::new(src)
}

/// `regex::Regex::is_match` on the regex that `p` holds, which was compiled
/// from `p.source()`: the answer is `regex_matches(p.source(), hay)`.
#[verifier::external_body]
fn regex_is_match(p: &Pattern, hay: &str) -> (b: bool)
    ensures
        b == regex_matches(p.source(), hay@),
{
    p.re.is_match(hay)
}

/// `regex::Regex::captures` on the regex that `p` holds, with every group's
/// text copied out (an unmatched group as the empty text).
#[verifier::external_body]
fn regex_captures_of(p: &Pattern, hay: &str) -> (r: Option<Vec<String>>)
    ensures
        r is Some <==> regex_captures(p.source(), hay@) is Some,
        r matches Some(v) ==> v@.len() == regex_captures(p.source(), hay@)->0.len()
            && forall|i: int| 0 <= i < v@.len() ==> #[trigger] v@[i]@ == regex_captures(p.source(), hay@)->0[i],
{
    p.re.captures(hay).map(|c| c.iter().map(|m| m.map_or(String::new(), |m| m.as_str().to_string())).collect())
}

/// `regex::Regex::find_iter` on the regex that `p` holds, each match as its
/// byte range.
#[verifier::external_body]
fn regex_find_spans(p: &Pattern, hay: &str) -> (r: Vec<(usize, usize)>)
    ensures
        r@.len() == regex_match_spans(p.source(), hay@).len(),
        forall|i: int| 0 <= i < r@.len() ==> (#[trigger] r@[i]).0 == regex_match_spans(p.source(), hay@)[i].0
            && r@[i].1 == regex_match_spans(p.source(), hay@)[i].1,
{
    p.re.find_iter(hay).map(|m| (m.start(), m.end())).collect()
}

/// `regex::escape`: every meta character of `s` gets a backslash in front.
#[verifier::external_body]
pub(crate) fn escape(s: &str) -> (r: String)
    ensures
        r@ == escape_spec(s@),
{
    regex::escape(s)
}

/// The message of a `regex::Error` (its `Display` text). Nothing is stated
/// of the text.
#[verifier::external_body]
fn regex_error_message(e: &regex::Error) -> String {
    e.to_string()
}

/// Why a pattern did not compile.
#[derive(Clone, Debug)]
pub struct PatternError {
    pub message: String,
}

/// A compiled regular expression together with the source it came from.
pub struct Pattern {
    re: regex::Regex,
    source: Ghost<Seq<char>>,
}

impl Pattern {
    /// The source this pattern was compiled from.
    pub closed spec fn source(&self) -> Seq<char> {
        self.source@
    }

    /// Compile `src`: `Ok` exactly when `regex_compiles(src)`, and then the
    /// pattern's source is `src`.
    pub fn new(src: &str) -> (r: Result<Pattern, PatternError>)
        ensures
            r is Ok <==> regex_compiles(src@),
            r matches Ok(p) ==> p.source() == src@,
    {
        match regex_new(src) {
            Ok(re) => Ok(Pattern { re, source: Ghost(src@) }),
            Err(e) => Err(PatternError { message: regex_error_message(&e) }),
        }
    }

    /// Whether the pattern matches somewhere in `hay`.
    pub fn is_match(&self, hay: &str) -> (b: bool)
        ensures
            b == regex_matches(self.source(), hay@),
    {
        regex_is_match(self, hay)
    }

    /// The byte ranges of the successive non-overlapping matches in `hay`.
    pub fn find_spans(&self, hay: &str) -> (r: Vec<(usize, usize)>)
        ensures
            r@.len() == regex_match_spans(self.source(), hay@).len(),
            forall|i: int| 0 <= i < r@.len() ==> (#[trigger] r@[i]).0 == regex_match_spans(self.source(), hay@)[i].0
                && r@[i].1 == regex_match_spans(self.source(), hay@)[i].1,
    {
        regex_find_spans(self, hay)
    }

    /// The capture groups of the leftmost match in `hay`, if any.
    pub fn captures(&self, hay: &str) -> (r: Option<Vec<String>>)
        ensures
            r is Some <==> regex_captures(self.source(), hay@) is Some,
            r matches Some(v) ==> v@.len() == regex_captures(self.source(), hay@)->0.len()
                && forall|i: int| 0 <= i < v@.len() ==> #[trigger] v@[i]@ == regex_captures(self.source(), hay@)->0[i],
    {
        regex_captures_of(self, hay)
    }
}

} // verus!
