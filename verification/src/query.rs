//! Compiling a [`Query`] into matchers: which regular expressions a query
//! stands for, and when a unit of text satisfies it.
use vstd::prelude::*;
use crate::matcher::{grep_compiles, grep_matches, TermMatcher};
use crate::model::{CaseMode, MatchMode, Query};
use crate::pattern::{escape, escape_spec, regex_compiles, Pattern};
use crate::strings::{push_char, split_whitespace, words};
use crate::text::{byte_len, lemma_byte_len_grows};
use vstd::string::*;

verus! {

/// `\b(?:s)\b` when whole-word matching is on, `s` otherwise.
pub open spec fn wrap_spec(s: Seq<char>, whole_word: bool) -> Seq<char> {
    if whole_word {
        "\\b(?:"@ + s + ")\\b"@
    } else {
        s
    }
}

/// Wraps a regex source in word boundaries when whole-word matching is on.
pub fn wrap_word(src: String, whole_word: bool) -> (r: String)
    ensures
        r@ == wrap_spec(src@, whole_word),
{
    if whole_word {
        let mut r = String::new();
        r.append("\\b(?:");
        r.append(src.as_str());
        r.append(")\\b");
        r
    } else {
        src
    }
}

/// The regex source for a literal term.
pub open spec fn literal_spec(term: Seq<char>, whole_word: bool) -> Seq<char> {
    wrap_spec(escape_spec(term), whole_word)
}

/// The regex source for a literal term (escaped, optionally whole-word).
pub fn literal_term(term: &str, whole_word: bool) -> (r: String)
    ensures
        r@ == literal_spec(term@, whole_word),
{
    wrap_word(escape(term), whole_word)
}

/// The pieces `ps` joined by `|`.
pub open spec fn join_bar(ps: Seq<Seq<char>>) -> Seq<char>
    decreases ps.len(),
{
    if ps.len() == 0 {
        seq![]
    } else if ps.len() == 1 {
        ps[0]
    } else {
        join_bar(ps.drop_last()) + seq!['|'] + ps.last()
    }
}

/// The literal terms for each word of `s`.
pub open spec fn word_terms(s: Seq<char>, whole_word: bool) -> Seq<Seq<char>> {
    words(s).map_values(|w: Seq<char>| literal_spec(w, whole_word))
}

/// The regex sources a unit must match, all of them: the escaped pattern
/// (substring), the pattern itself (regex), one per word (all words), or the
/// alternation of the words (any words; none when there are no words).
pub open spec fn required_spec(q: Query) -> Seq<Seq<char>> {
    match q.mode {
        MatchMode::Substring => seq![literal_spec(q.pattern@, q.whole_word)],
        MatchMode::Regex => seq![wrap_spec(q.pattern@, q.whole_word)],
        MatchMode::AllWords => word_terms(q.pattern@, q.whole_word),
        MatchMode::AnyWords => {
            let alts = word_terms(q.pattern@, q.whole_word);
            if alts.len() == 0 { seq![] } else { seq![join_bar(alts)] }
        },
    }
}

/// The regex sources a unit must match none of: one per excluded word.
pub open spec fn excluded_spec(q: Query) -> Seq<Seq<char>> {
    word_terms(q.exclude@, q.whole_word)
}

/// The matcher flags `(smart, insensitive)` for a case policy.
pub open spec fn case_flags(c: CaseMode) -> (bool, bool) {
    match c {
        CaseMode::Smart => (true, false),
        CaseMode::Sensitive => (false, false),
        CaseMode::Insensitive => (false, true),
    }
}

/// Whether every source in `srcs` is accepted with the given flags.
pub open spec fn all_compile(srcs: Seq<Seq<char>>, flags: (bool, bool)) -> bool {
    forall|i: int| 0 <= i < srcs.len() ==> grep_compiles(#[trigger] srcs[i], flags.0, flags.1)
}

/// A query compiled into matchers: a unit matches when every required
/// matcher matches and no excluded matcher does.
pub struct CompiledQuery {
    required: Vec<TermMatcher>,
    excluded: Vec<TermMatcher>,
    smart: bool,
    insensitive: bool,
}

/// Whether every matcher in `ms` has the given flags and the given sources.
pub open spec fn built_from(ms: Seq<TermMatcher>, srcs: Seq<Seq<char>>, flags: (bool, bool)) -> bool {
    &&& ms.len() == srcs.len()
    &&& forall|i: int| 0 <= i < ms.len() ==> {
        &&& (#[trigger] ms[i]).source() == srcs[i]
        &&& ms[i].smart() == flags.0
        &&& ms[i].insensitive() == flags.1
    }
}

/// Whether text with bytes `hay` satisfies sources `req` and `exc` under `flags`.
pub open spec fn satisfies(req: Seq<Seq<char>>, exc: Seq<Seq<char>>, flags: (bool, bool), hay: Seq<u8>) -> bool {
    &&& forall|i: int| 0 <= i < req.len() ==> grep_matches(#[trigger] req[i], flags.0, flags.1, hay)
    &&& !exists|j: int| 0 <= j < exc.len() && grep_matches(#[trigger] exc[j], flags.0, flags.1, hay)
}

impl CompiledQuery {
    pub closed spec fn required_sources(&self) -> Seq<Seq<char>> {
        self.required@.map_values(|m: TermMatcher| m.source())
    }

    pub closed spec fn excluded_sources(&self) -> Seq<Seq<char>> {
        self.excluded@.map_values(|m: TermMatcher| m.source())
    }

    pub closed spec fn flags(&self) -> (bool, bool) {
        (self.smart, self.insensitive)
    }

    /// The matcher that drives line scans and locates the matched line
    /// within a block: the first required one.
    pub closed spec fn primary_source(&self) -> Seq<char> {
        self.required@[0].source()
    }

    pub closed spec fn wf(&self) -> bool {
        &&& self.required@.len() > 0
        &&& built_from(self.required@, self.required_sources(), self.flags())
        &&& built_from(self.excluded@, self.excluded_sources(), self.flags())
    }

    /// Whether the primary source is the first required one.
    pub proof fn lemma_primary(&self)
        requires
            self.wf(),
        ensures
            self.required_sources().len() > 0,
            self.primary_source() == self.required_sources()[0],
    {
    }

    /// Whether `bytes` satisfies all required matchers and no excluded one.
    pub fn unit_matches(&self, bytes: &[u8]) -> (b: bool)
        requires
            self.wf(),
        ensures
            b == satisfies(self.required_sources(), self.excluded_sources(), self.flags(), bytes@),
    {
        let mut i: usize = 0;
        while i < self.required.len()
            invariant
                self.wf(),
                0 <= i <= self.required@.len(),
                forall|k: int| 0 <= k < i ==> grep_matches(#[trigger] self.required_sources()[k], self.smart, self.insensitive, bytes@),
            decreases self.required@.len() - i,
        {
            let m = &self.required[i];
            assert(self.required_sources()[i as int] == self.required@[i as int].source());
            if !m.is_match(bytes) {
                return false;
            }
            i = i + 1;
        }
        let mut j: usize = 0;
        while j < self.excluded.len()
            invariant
                self.wf(),
                0 <= j <= self.excluded@.len(),
                forall|k: int| 0 <= k < self.required_sources().len() ==> grep_matches(#[trigger] self.required_sources()[k], self.smart, self.insensitive, bytes@),
                forall|k: int| 0 <= k < j ==> !grep_matches(#[trigger] self.excluded_sources()[k], self.smart, self.insensitive, bytes@),
            decreases self.excluded@.len() - j,
        {
            let m = &self.excluded[j];
            assert(self.excluded_sources()[j as int] == self.excluded@[j as int].source());
            if m.is_match(bytes) {
                return false;
            }
            j = j + 1;
        }
        true
    }

    /// The primary matcher, for a line scanner to drive: every line that
    /// satisfies the query matches it.
    pub fn primary(&self) -> (t: &TermMatcher)
        requires
            self.wf(),
        ensures
            t.source() == self.primary_source(),
            t.smart() == self.flags().0,
            t.insensitive() == self.flags().1,
    {
        &self.required[0]
    }

    /// Whether `bytes` matches the primary matcher.
    pub fn primary_matches(&self, bytes: &[u8]) -> (b: bool)
        requires
            self.wf(),
        ensures
            b == grep_matches(self.primary_source(), self.flags().0, self.flags().1, bytes@),
    {
        self.required[0].is_match(bytes)
    }
}


/// The views of a vector of strings.
pub open spec fn string_views(v: Seq<String>) -> Seq<Seq<char>> {
    v.map_values(|s: String| s@)
}

/// One literal term per word of `s`.
fn word_term_list(s: &str, whole_word: bool) -> (r: Vec<String>)
    ensures
        string_views(r@) == word_terms(s@, whole_word),
{
    let ws = split_whitespace(s);
    let ghost wv = ws@.map_values(|w: &str| w@);
    let mut out: Vec<String> = Vec::new();
    for i in 0..ws.len()
        invariant
            wv == ws@.map_values(|w: &str| w@),
            wv == words(s@),
            string_views(out@) == wv.take(i as int).map_values(|w: Seq<char>| literal_spec(w, whole_word)),
    {
        let t = literal_term(ws[i], whole_word);
        let ghost before = out@;
        out.push(t);
        proof {
            assert(wv.take(i + 1) =~= wv.take(i as int).push(ws@[i as int]@));
            assert(string_views(out@) =~= string_views(before).push(t@));
            assert(string_views(out@) =~= wv.take(i + 1).map_values(|w: Seq<char>| literal_spec(w, whole_word)));
        }
    }
    assert(wv.take(ws.len() as int) =~= wv);
    out
}

/// The pieces joined by `|`.
fn join_with_bar(v: &Vec<String>) -> (r: String)
    ensures
        r@ == join_bar(string_views(v@)),
{
    let ghost vs = string_views(v@);
    let mut r = String::new();
    for i in 0..v.len()
        invariant
            vs == string_views(v@),
            r@ == join_bar(vs.take(i as int)),
    {
        if i > 0 {
            push_char(&mut r, '|');
        }
        r.append(v[i].as_str());
        proof {
            let t = vs.take(i + 1);
            assert(t.drop_last() =~= vs.take(i as int));
            assert(t.last() == v@[i as int]@);
            if i == 0 {
                assert(r@ =~= t[0]);
            } else {
                assert(r@ =~= join_bar(t.drop_last()) + seq!['|'] + t.last());
            }
        }
    }
    assert(vs.take(v.len() as int) =~= vs);
    r
}

/// Builds one matcher per source, in order; fails at the first source that
/// is not accepted.
fn compile_all(srcs: &Vec<String>, smart: bool, insensitive: bool) -> (r: Result<Vec<TermMatcher>, String>)
    ensures
        r is Ok <==> all_compile(string_views(srcs@), (smart, insensitive)),
        r matches Ok(ms) ==> built_from(ms@, string_views(srcs@), (smart, insensitive)),
{
    let ghost vs = string_views(srcs@);
    let mut out: Vec<TermMatcher> = Vec::new();
    for i in 0..srcs.len()
        invariant
            vs == string_views(srcs@),
            built_from(out@, vs.take(i as int), (smart, insensitive)),
            forall|k: int| 0 <= k < i ==> grep_compiles(#[trigger] vs[k], smart, insensitive),
    {
        match TermMatcher::new(srcs[i].as_str(), smart, insensitive) {
            Ok(m) => {
                out.push(m);
                assert(vs.take(i + 1) =~= vs.take(i as int).push(vs[i as int]));
            },
            Err(e) => {
                assert(!grep_compiles(vs[i as int], smart, insensitive));
                return Err(e);
            },
        }
    }
    assert(vs.take(srcs.len() as int) =~= vs);
    Ok(out)
}

/// `c` is what compiling `q` gives: well formed, with the query's required
/// and excluded sources and its case policy's flags.
pub open spec fn compiled_from(q: Query, c: CompiledQuery) -> bool {
    &&& c.wf()
    &&& c.required_sources() == required_spec(q)
    &&& c.excluded_sources() == excluded_spec(q)
    &&& c.flags() == case_flags(q.case)
}

/// The case policy decides how every matcher of a compiled query treats
/// case: an ignore-case query builds case-insensitive matchers, a
/// case-sensitive query builds matchers that respect case, and a smart-case
/// query builds smart-case matchers (which ignore case unless the term has
/// an uppercase letter) without forcing case-insensitivity. A unit then
/// satisfies the query exactly when every required term matches and no
/// excluded one does, each under those flags.
pub proof fn law_case_policy_sets_matchers(q: Query, c: CompiledQuery, hay: Seq<u8>)
    requires
        compiled_from(q, c),
    ensures
        q.case == CaseMode::Insensitive ==> c.flags() == (false, true),
        q.case == CaseMode::Sensitive ==> c.flags() == (false, false),
        q.case == CaseMode::Smart ==> c.flags() == (true, false),
        q.case == CaseMode::Insensitive ==> (satisfies(c.required_sources(), c.excluded_sources(), c.flags(), hay) <==> {
            &&& forall|i: int| 0 <= i < required_spec(q).len() ==> grep_matches(#[trigger] required_spec(q)[i], false, true, hay)
            &&& !exists|j: int| 0 <= j < excluded_spec(q).len() && grep_matches(#[trigger] excluded_spec(q)[j], false, true, hay)
        }),
{
}

/// The matcher flags for a case policy.
fn flags_of(c: CaseMode) -> (r: (bool, bool))
    ensures
        r == case_flags(c),
        r.1 <==> c == CaseMode::Insensitive,
        r.0 <==> c == CaseMode::Smart,
{
    match c {
        CaseMode::Smart => (true, false),
        CaseMode::Sensitive => (false, false),
        CaseMode::Insensitive => (false, true),
    }
}

/// Compiles a query. Fails with `"empty query"` when it stands for no
/// required source (words modes with no words), and otherwise exactly when
/// some required or excluded source is not accepted by the matcher builder.
pub fn build_compiled(q: &Query) -> (r: Result<CompiledQuery, String>)
    ensures
        r is Ok <==> (required_spec(*q).len() > 0 && all_compile(required_spec(*q), case_flags(q.case))
            && all_compile(excluded_spec(*q), case_flags(q.case))),
        r matches Ok(c) ==> compiled_from(*q, c),
        r matches Ok(c) ==> (c.flags().1 <==> q.case == CaseMode::Insensitive),
        r matches Ok(c) ==> (c.flags().0 <==> q.case == CaseMode::Smart),
        required_spec(*q).len() == 0 ==> (r matches Err(e) && e@ == "empty query"@),
{
    let ww = q.whole_word;
    let required_src: Vec<String> = match q.mode {
        MatchMode::Substring => {
            let v = vec![literal_term(q.pattern.as_str(), ww)];
            assert(string_views(v@) =~= required_spec(*q));
            v
        },
        MatchMode::Regex => {
            let v = vec![wrap_word(q.pattern.clone(), ww)];
            assert(string_views(v@) =~= required_spec(*q));
            v
        },
        MatchMode::AllWords => word_term_list(q.pattern.as_str(), ww),
        MatchMode::AnyWords => {
            let alts = word_term_list(q.pattern.as_str(), ww);
            if alts.len() == 0 {
                let v: Vec<String> = Vec::new();
                assert(string_views(v@) =~= required_spec(*q));
                v
            } else {
                let v = vec![join_with_bar(&alts)];
                assert(string_views(v@) =~= required_spec(*q));
                v
            }
        },
    };
    if required_src.len() == 0 {
        return Err("empty query".to_string());
    }
    let excluded_src = word_term_list(q.exclude.as_str(), ww);
    let (smart, insensitive) = flags_of(q.case);
    let required = compile_all(&required_src, smart, insensitive)?;
    let excluded = compile_all(&excluded_src, smart, insensitive)?;
    let c = CompiledQuery { required, excluded, smart, insensitive };
    assert(c.required_sources() =~= required_spec(*q));
    assert(c.excluded_sources() =~= excluded_spec(*q));
    Ok(c)
}


/// Whether `char::is_uppercase` holds (the Unicode `Uppercase` property).
pub uninterp spec fn unicode_uppercase(c: char) -> bool;

/// `char::is_uppercase`: whether `c` has the Unicode `Uppercase` property.
#[verifier::external_body]
fn is_uppercase(c: char) -> (b: bool)
    ensures
        b == unicode_uppercase(c),
{
    c.is_uppercase()
}

/// Whether some character of `s` is uppercase.
pub open spec fn has_uppercase(s: Seq<char>) -> bool {
    exists|i: int| 0 <= i < s.len() && unicode_uppercase(#[trigger] s[i])
}

/// Whether some character of `s` is uppercase.
fn any_uppercase(s: &str) -> (b: bool)
    ensures
        b == has_uppercase(s@),
{
    let ghost q = s@;
    let mut found = false;
    for c in it: s.chars()
        invariant
            q == s@,
            it.seq() == q,
            found == exists|i: int| 0 <= i < it.index() && unicode_uppercase(#[trigger] q[i]),
    {
        let ghost k = it.index();
        assert(c == q[k]);
        if is_uppercase(c) {
            found = true;
        }
        assert(found == exists|i: int| 0 <= i < k + 1 && unicode_uppercase(#[trigger] q[i]));
    }
    found
}

/// The non-empty pieces of `ps`, in order.
pub open spec fn non_empty(ps: Seq<Seq<char>>) -> Seq<Seq<char>>
    decreases ps.len(),
{
    if ps.len() == 0 {
        seq![]
    } else if ps.last().len() == 0 {
        non_empty(ps.drop_last())
    } else {
        non_empty(ps.drop_last()).push(ps.last())
    }
}

/// The positive terms of a query before word boundaries are added: the
/// escaped pattern (substring), the pattern (regex), or each word escaped.
pub open spec fn highlight_raw_terms(q: Query) -> Seq<Seq<char>> {
    match q.mode {
        MatchMode::Substring => seq![escape_spec(q.pattern@)],
        MatchMode::Regex => seq![q.pattern@],
        _ => word_terms(q.pattern@, false),
    }
}

/// The highlighting alternatives: the non-empty raw terms, each wrapped in
/// word boundaries when whole-word matching is on.
pub open spec fn highlight_terms(q: Query) -> Seq<Seq<char>> {
    non_empty(highlight_raw_terms(q)).map_values(|t: Seq<char>| wrap_spec(t, q.whole_word))
}

/// Whether highlighting ignores case: always, never, or (smart) when the
/// pattern has no uppercase character.
pub open spec fn highlight_insensitive(q: Query) -> bool {
    match q.case {
        CaseMode::Insensitive => true,
        CaseMode::Sensitive => false,
        CaseMode::Smart => !has_uppercase(q.pattern@),
    }
}

/// The highlighting regex source: the alternatives joined by `|`,
/// prefixed with `(?i)` when case is ignored.
pub open spec fn highlight_source(q: Query) -> Seq<char> {
    let combined = join_bar(highlight_terms(q));
    if highlight_insensitive(q) { "(?i)"@ + combined } else { combined }
}

/// A compiled regex matching any of the query's positive terms, for match
/// highlighting: `None` when the query has no non-empty term (an empty
/// pattern, or no words) or its source does not compile.
pub fn highlight_regex(q: &Query) -> (r: Option<Pattern>)
    ensures
        r is Some <==> (non_empty(highlight_raw_terms(*q)).len() > 0 && regex_compiles(highlight_source(*q))),
        r matches Some(p) ==> p.source() == highlight_source(*q),
{
    let ww = q.whole_word;
    let raw: Vec<String> = match q.mode {
        MatchMode::Substring => {
            let v = vec![escape(q.pattern.as_str())];
            assert(string_views(v@) =~= highlight_raw_terms(*q));
            v
        },
        MatchMode::Regex => {
            let v = vec![q.pattern.clone()];
            assert(string_views(v@) =~= highlight_raw_terms(*q));
            v
        },
        _ => word_term_list(q.pattern.as_str(), false),
    };
    let ghost av = string_views(raw@);
    let mut kept: Vec<String> = Vec::new();
    for i in 0..raw.len()
        invariant
            av == string_views(raw@),
            av == highlight_raw_terms(*q),
            ww == q.whole_word,
            string_views(kept@) == non_empty(av.take(i as int)).map_values(|t: Seq<char>| wrap_spec(t, ww)),
    {
        let ghost t = av.take(i + 1);
        assert(t.drop_last() =~= av.take(i as int));
        assert(t.last() == raw@[i as int]@);
        proof {
            crate::text::lemma_byte_len_grows(raw@[i as int]@, 0, 0);
        }
        if raw[i].as_str().as_bytes().len() > 0 {
            proof {
                if raw@[i as int]@.len() == 0 {
                    assert(crate::text::byte_len(raw@[i as int]@) == 0);
                }
            }
            let w = wrap_word(raw[i].clone(), ww);
            let ghost before = kept@;
            kept.push(w);
            assert(non_empty(t) == non_empty(av.take(i as int)).push(raw@[i as int]@));
            assert(string_views(kept@) =~= string_views(before).push(w@));
            assert(string_views(kept@) =~= non_empty(t).map_values(|t: Seq<char>| wrap_spec(t, ww)));
        }
    }
    assert(av.take(raw.len() as int) =~= av);
    assert(string_views(kept@).len() == kept@.len());
    assert(non_empty(av).len() == kept@.len());
    assert(string_views(kept@) =~= highlight_terms(*q));
    if kept.len() == 0 {
        return None;
    }
    let combined = join_with_bar(&kept);
    let insensitive = match q.case {
        CaseMode::Insensitive => true,
        CaseMode::Sensitive => false,
        CaseMode::Smart => !any_uppercase(q.pattern.as_str()),
    };
    let src = if insensitive {
        let mut r = String::new();
        r.append("(?i)");
        r.append(combined.as_str());
        r
    } else {
        combined
    };
    match Pattern::new(src.as_str()) {
        Ok(p) => Some(p),
        Err(_) => None,
    }
}

} // verus!
