//! The desktop front-end's remembered state: recent queries and saved
//! searches. Storing it is up to the caller.
use vstd::prelude::*;
use crate::renderer::views;
use crate::strings::{is_empty_str, str_eq, trim, trim_spec};

verus! {

/// How many recent queries are remembered.
pub const MAX_RECENT: usize = 20;

/// A saved search: the query options, filters and roots, under a name the
/// user chose. Enum options are small integers; filters are the raw texts of
/// the filter fields, empty meaning no restriction.
#[derive(Clone, Debug)]
pub struct SavedSearch {
    pub name: String,
    pub query: String,
    pub exclude: String,
    pub match_mode: u8,
    pub case: u8,
    pub whole_word: bool,
    pub granularity: u8,
    pub roots: Vec<String>,
    pub filter_name: String,
    pub filter_name_regex: bool,
    pub filter_include_exts: String,
    pub filter_exclude_exts: String,
    pub filter_min_kb: String,
    pub filter_max_kb: String,
    pub filter_days: String,
    pub filter_after: String,
    pub filter_before: String,
    pub filter_ts_after: String,
    pub filter_ts_before: String,
    pub ts_mtime_prefilter: bool,
}

impl Default for SavedSearch {
    /// Everything empty, zero or off.
    fn default() -> (s: SavedSearch)
        ensures
            s.name@.len() == 0,
            s.query@.len() == 0,
            s.exclude@.len() == 0,
            s.match_mode == 0,
            s.case == 0,
            !s.whole_word,
            s.granularity == 0,
            s.roots@.len() == 0,
            s.filter_name@.len() == 0,
            !s.filter_name_regex,
            s.filter_include_exts@.len() == 0,
            s.filter_exclude_exts@.len() == 0,
            s.filter_min_kb@.len() == 0,
            s.filter_max_kb@.len() == 0,
            s.filter_days@.len() == 0,
            s.filter_after@.len() == 0,
            s.filter_before@.len() == 0,
            s.filter_ts_after@.len() == 0,
            s.filter_ts_before@.len() == 0,
            !s.ts_mtime_prefilter,
    {
        SavedSearch {
            name: String::new(),
            query: String::new(),
            exclude: String::new(),
            match_mode: 0,
            case: 0,
            whole_word: false,
            granularity: 0,
            roots: Vec::new(),
            filter_name: String::new(),
            filter_name_regex: false,
            filter_include_exts: String::new(),
            filter_exclude_exts: String::new(),
            filter_min_kb: String::new(),
            filter_max_kb: String::new(),
            filter_days: String::new(),
            filter_after: String::new(),
            filter_before: String::new(),
            filter_ts_after: String::new(),
            filter_ts_before: String::new(),
            ts_mtime_prefilter: false,
        }
    }
}

/// Recent queries (most recent first) and saved searches.
pub struct Session {
    pub recent_queries: Vec<String>,
    pub saved: Vec<SavedSearch>,
}

impl Default for Session {
    /// No recent query and no saved search.
    fn default() -> (s: Session)
        ensures
            s.recent_queries@.len() == 0,
            s.saved@.len() == 0,
    {
        Session { recent_queries: Vec::new(), saved: Vec::new() }
    }
}

/// `r` without the entries equal to `q`, in order.
pub open spec fn without(r: Seq<Seq<char>>, q: Seq<char>) -> Seq<Seq<char>>
    decreases r.len(),
{
    if r.len() == 0 {
        r
    } else if r.last() == q {
        without(r.drop_last(), q)
    } else {
        without(r.drop_last(), q).push(r.last())
    }
}

/// At most the first [`MAX_RECENT`] entries.
pub open spec fn cap_recent(r: Seq<Seq<char>>) -> Seq<Seq<char>> {
    if r.len() > MAX_RECENT { r.take(MAX_RECENT as int) } else { r }
}

/// The recent queries after recording `query`: unchanged when it is blank;
/// otherwise the trimmed query first, then the earlier entries other than it,
/// at most [`MAX_RECENT`] in all.
pub open spec fn record_spec(r: Seq<Seq<char>>, query: Seq<char>) -> Seq<Seq<char>> {
    let q = trim_spec(query);
    if q.len() == 0 { r } else { cap_recent(seq![q] + without(r, q)) }
}

/// No entry occurs twice.
pub open spec fn no_duplicates(r: Seq<Seq<char>>) -> bool {
    forall|i: int, j: int| 0 <= i < j < r.len() ==> r[i] != r[j]
}

/// `s` without the saved searches named `n`, in order.
pub open spec fn without_name(s: Seq<SavedSearch>, n: Seq<char>) -> Seq<SavedSearch>
    decreases s.len(),
{
    if s.len() == 0 {
        s
    } else if s.last().name@ == n {
        without_name(s.drop_last(), n)
    } else {
        without_name(s.drop_last(), n).push(s.last())
    }
}

/// The saved searches after adding `e`: any earlier one with its name goes,
/// and `e` comes last.
pub open spec fn add_spec(s: Seq<SavedSearch>, e: SavedSearch) -> Seq<SavedSearch> {
    without_name(s, e.name@).push(e)
}

/// No two saved searches share a name.
pub open spec fn unique_names(s: Seq<SavedSearch>) -> bool {
    forall|i: int, j: int| 0 <= i < j < s.len() ==> s[i].name@ != s[j].name@
}

/// What `without` keeps: exactly the entries other than `q`, in order; it
/// never lengthens.
proof fn lemma_without(r: Seq<Seq<char>>, q: Seq<char>)
    ensures
        without(r, q).len() <= r.len(),
        forall|x: Seq<char>| without(r, q).contains(x) <==> (r.contains(x) && x != q),
        no_duplicates(r) ==> no_duplicates(without(r, q)),
        !r.contains(q) ==> without(r, q) == r,
    decreases r.len(),
{
    if r.len() > 0 {
        let p = r.drop_last();
        let l = r.last();
        lemma_without(p, q);
        let w = without(p, q);
        assert(r =~= p.push(l));
        assert forall|x: Seq<char>| r.contains(x) <==> (p.contains(x) || x == l) by {
            if r.contains(x) {
                let i = choose|i: int| 0 <= i < r.len() && r[i] == x;
                if i < p.len() {
                    assert(p[i] == x);
                }
            }
            if p.contains(x) {
                let i = choose|i: int| 0 <= i < p.len() && p[i] == x;
                assert(r[i] == x);
            }
            if x == l {
                assert(r[r.len() - 1] == x);
            }
        }
        if l == q {
            assert(without(r, q) == w);
        } else {
            assert(without(r, q) == w.push(l));
            assert forall|x: Seq<char>| w.push(l).contains(x) <==> (w.contains(x) || x == l) by {
                if w.push(l).contains(x) {
                    let i = choose|i: int| 0 <= i < w.push(l).len() && w.push(l)[i] == x;
                    if i < w.len() {
                        assert(w[i] == x);
                    }
                }
                if w.contains(x) {
                    let i = choose|i: int| 0 <= i < w.len() && w[i] == x;
                    assert(w.push(l)[i] == x);
                }
                if x == l {
                    assert(w.push(l)[w.len() as int] == x);
                }
            }
        }
        if no_duplicates(r) {
            assert(no_duplicates(p)) by {
                assert forall|i: int, j: int| 0 <= i < j < p.len() implies p[i] != p[j] by {
                    assert(r[i] == p[i] && r[j] == p[j]);
                }
            }
            if l != q {
                assert(!p.contains(l)) by {
                    if p.contains(l) {
                        let k = choose|k: int| 0 <= k < p.len() && p[k] == l;
                        assert(r[k] == r[r.len() - 1]);
                    }
                }
                assert(!w.contains(l));
                assert forall|i: int, j: int| 0 <= i < j < w.push(l).len()
                    implies w.push(l)[i] != w.push(l)[j] by {
                    if j == w.len() {
                        assert(w.contains(w[i]));
                    }
                }
            }
        }
        if !r.contains(q) {
            assert(l != q);
            assert(!p.contains(q));
        }
    }
}

/// What `without_name` keeps: exactly the saved searches not named `n`, in
/// order; names stay unique.
proof fn lemma_without_name(s: Seq<SavedSearch>, n: Seq<char>)
    ensures
        forall|x: SavedSearch| without_name(s, n).contains(x) <==> (s.contains(x) && x.name@ != n),
        unique_names(s) ==> unique_names(without_name(s, n)),
        forall|i: int| 0 <= i < without_name(s, n).len() ==> (#[trigger] without_name(s, n)[i]).name@ != n,
    decreases s.len(),
{
    if s.len() > 0 {
        let p = s.drop_last();
        let l = s.last();
        lemma_without_name(p, n);
        let w = without_name(p, n);
        assert(s =~= p.push(l));
        assert forall|x: SavedSearch| s.contains(x) <==> (p.contains(x) || x == l) by {
            if s.contains(x) {
                let i = choose|i: int| 0 <= i < s.len() && s[i] == x;
                if i < p.len() {
                    assert(p[i] == x);
                }
            }
            if p.contains(x) {
                let i = choose|i: int| 0 <= i < p.len() && p[i] == x;
                assert(s[i] == x);
            }
            if x == l {
                assert(s[s.len() - 1] == x);
            }
        }
        if l.name@ == n {
            assert(without_name(s, n) == w);
        } else {
            assert(without_name(s, n) == w.push(l));
            assert forall|x: SavedSearch| w.push(l).contains(x) <==> (w.contains(x) || x == l) by {
                if w.push(l).contains(x) {
                    let i = choose|i: int| 0 <= i < w.push(l).len() && w.push(l)[i] == x;
                    if i < w.len() {
                        assert(w[i] == x);
                    }
                }
                if w.contains(x) {
                    let i = choose|i: int| 0 <= i < w.len() && w[i] == x;
                    assert(w.push(l)[i] == x);
                }
                if x == l {
                    assert(w.push(l)[w.len() as int] == x);
                }
            }
        }
        if unique_names(s) {
            assert(unique_names(p)) by {
                assert forall|i: int, j: int| 0 <= i < j < p.len() implies p[i].name@ != p[j].name@ by {
                    assert(s[i] == p[i] && s[j] == p[j]);
                }
            }
            if l.name@ != n {
                assert forall|i: int, j: int| 0 <= i < j < w.push(l).len()
                    implies w.push(l)[i].name@ != w.push(l)[j].name@ by {
                    if j == w.len() {
                        assert(w.contains(w[i]));
                        assert(p.contains(w[i]));
                        let k = choose|k: int| 0 <= k < p.len() && p[k] == w[i];
                        assert(s[k] == p[k]);
                        assert(s[k].name@ != s[s.len() - 1].name@);
                    }
                }
            }
        }
    }
}

impl Session {
    /// Records a query at the front of the recent queries (see
    /// [`record_spec`]): trimmed, without an earlier copy of itself, at most
    /// [`MAX_RECENT`] kept. Returns whether anything was recorded (the query
    /// was not blank), that is, whether the session needs storing again.
    pub fn record_query(&mut self, query: &str) -> (changed: bool)
        ensures
            changed == (trim_spec(query@).len() != 0),
            views(final(self).recent_queries@) == record_spec(views(old(self).recent_queries@), query@),
            final(self).saved@ == old(self).saved@,
    {
        let q = trim(query);
        if is_empty_str(q) {
            return false;
        }
        let ghost r = views(self.recent_queries@);
        let mut out: Vec<String> = Vec::new();
        out.push(q.to_string());
        let ghost mut k: int = 0;
        let mut i: usize = 0;
        proof {
            lemma_without(r, q@);
        }
        assert(views(out@) =~= seq![q@]);
        while i < self.recent_queries.len() && out.len() < MAX_RECENT
            invariant
                r == views(self.recent_queries@),
                0 <= i <= self.recent_queries@.len(),
                1 <= out@.len() <= MAX_RECENT,
                views(out@) == seq![q@] + without(r.take(i as int), q@),
            decreases self.recent_queries@.len() - i,
        {
            let ghost before = out@;
            assert(r.take(i + 1) =~= r.take(i as int).push(r[i as int]));
            assert(r.take(i + 1).drop_last() =~= r.take(i as int));
            if !str_eq(self.recent_queries[i].as_str(), q) {
                out.push(self.recent_queries[i].clone());
                assert(views(out@) =~= views(before).push(r[i as int]));
            }
            i = i + 1;
        }
        proof {
            let full = seq![q@] + without(r, q@);
            assert(r.take(r.len() as int) =~= r);
            if i < r.len() {
                assert(out@.len() == MAX_RECENT);
                lemma_without_prefix(r, q@, i as int);
                assert(views(out@) =~= full.take(MAX_RECENT as int)) by {
                    let w = without(r.take(i as int), q@);
                    assert(w.len() == MAX_RECENT - 1);
                    assert forall|t: int| 0 <= t < MAX_RECENT implies views(out@)[t] == full[t] by {
                        if t > 0 {
                            assert(without(r, q@)[t - 1] == w[t - 1]);
                        }
                    }
                }
            }
        }
        self.recent_queries = out;
        true
    }

    /// Adds a saved search, replacing any earlier one with the same name
    /// (see [`add_spec`]).
    pub fn add_saved(&mut self, entry: SavedSearch)
        ensures
            final(self).saved@ == add_spec(old(self).saved@, entry),
            final(self).recent_queries@ == old(self).recent_queries@,
    {
        self.remove_saved(entry.name.as_str());
        self.saved.push(entry);
    }

    /// Removes every saved search named `name`.
    pub fn remove_saved(&mut self, name: &str)
        ensures
            final(self).saved@ == without_name(old(self).saved@, name@),
            final(self).recent_queries@ == old(self).recent_queries@,
    {
        let ghost s = self.saved@;
        let ghost rq = self.recent_queries@;
        let mut rest: Vec<SavedSearch> = Vec::new();
        std::mem::swap(&mut rest, &mut self.saved);
        let ghost mut k: int = 0;
        while rest.len() > 0
            invariant
                0 <= k <= s.len(),
                rest@ == s.skip(k),
                self.saved@ == without_name(s.take(k), name@),
                self.recent_queries@ == rq,
            decreases rest@.len(),
        {
            let x = rest.remove(0);
            proof {
                assert(x == s[k]);
                assert(s.take(k + 1) =~= s.take(k).push(x));
                assert(s.take(k + 1).drop_last() =~= s.take(k));
                assert(rest@ =~= s.skip(k + 1));
                k = k + 1;
            }
            if !str_eq(x.name.as_str(), name) {
                self.saved.push(x);
            }
        }
        assert(s.take(k) =~= s);
    }
}

/// Entries of `without(r, q)` that come from the first `i` entries of `r`
/// come first.
proof fn lemma_without_prefix(r: Seq<Seq<char>>, q: Seq<char>, i: int)
    requires
        0 <= i <= r.len(),
    ensures
        without(r.take(i), q).len() <= without(r, q).len(),
        forall|t: int| 0 <= t < without(r.take(i), q).len() ==> #[trigger] without(r, q)[t] == without(r.take(i), q)[t],
    decreases r.len() - i,
{
    if i < r.len() {
        lemma_without_prefix(r, q, i + 1);
        assert(r.take(i + 1).drop_last() =~= r.take(i));
    } else {
        assert(r.take(i) =~= r);
    }
}

/// Recording a query twice in a row leaves the recent queries as recording
/// it once does.
pub proof fn law_record_idempotent(r: Seq<Seq<char>>, query: Seq<char>)
    ensures
        record_spec(record_spec(r, query), query) == record_spec(r, query),
{
    let q = trim_spec(query);
    if q.len() > 0 {
        let once = record_spec(r, query);
        lemma_without(r, q);
        let full = seq![q] + without(r, q);
        assert(once[0] == q);
        assert(once.drop_first() =~= if full.len() > MAX_RECENT { without(r, q).take(MAX_RECENT - 1) } else { without(r, q) });
        assert(!once.drop_first().contains(q)) by {
            if once.drop_first().contains(q) {
                let t = choose|t: int| 0 <= t < once.drop_first().len() && once.drop_first()[t] == q;
                assert(without(r, q)[t] == q);
                assert(without(r, q).contains(q));
            }
        }
        assert(once =~= seq![q] + once.drop_first());
        lemma_without_cons(q, once.drop_first());
        lemma_without(once.drop_first(), q);
        assert(without(once, q) == once.drop_first());
        assert(seq![q] + without(once, q) =~= once);
    }
}

/// Removing `q` from a sequence that starts with `q` removes that first entry.
proof fn lemma_without_cons(q: Seq<char>, rest: Seq<Seq<char>>)
    ensures
        without(seq![q] + rest, q) == without(rest, q),
    decreases rest.len(),
{
    let e = Seq::<Seq<char>>::empty();
    if rest.len() == 0 {
        assert(seq![q] + rest =~= seq![q]);
        assert(seq![q].drop_last() =~= e);
        assert(without(seq![q], q) == without(e, q));
        assert(rest =~= e);
    } else {
        lemma_without_cons(q, rest.drop_last());
        let c = seq![q] + rest;
        assert(c.drop_last() =~= seq![q] + rest.drop_last());
        assert(c.last() == rest.last());
        if rest.last() == q {
            assert(without(c, q) == without(c.drop_last(), q));
            assert(without(rest, q) == without(rest.drop_last(), q));
        } else {
            assert(without(c, q) == without(c.drop_last(), q).push(c.last()));
            assert(without(rest, q) == without(rest.drop_last(), q).push(rest.last()));
        }
    }
}

/// Removing a name after adding a saved search under it leaves the saved
/// searches as removing the name alone does.
pub proof fn law_remove_undoes_add(s: Seq<SavedSearch>, e: SavedSearch)
    ensures
        without_name(add_spec(s, e), e.name@) == without_name(s, e.name@),
{
    let w = without_name(s, e.name@);
    assert(add_spec(s, e).drop_last() =~= w);
    lemma_without_name(s, e.name@);
    lemma_without_name_idem(s, e.name@);
}

/// Removing a name twice is removing it once.
proof fn lemma_without_name_idem(s: Seq<SavedSearch>, n: Seq<char>)
    ensures
        without_name(without_name(s, n), n) == without_name(s, n),
    decreases s.len(),
{
    if s.len() > 0 {
        lemma_without_name_idem(s.drop_last(), n);
        if s.last().name@ != n {
            let w = without_name(s.drop_last(), n).push(s.last());
            assert(w.drop_last() =~= without_name(s.drop_last(), n));
        }
    }
}

/// Adding saved searches keeps names unique, and the added one is found by
/// its name.
pub proof fn law_add_keeps_names_unique(s: Seq<SavedSearch>, e: SavedSearch)
    requires
        unique_names(s),
    ensures
        unique_names(add_spec(s, e)),
        add_spec(s, e).last() == e,
{
    lemma_without_name(s, e.name@);
    let w = without_name(s, e.name@);
    assert forall|i: int, j: int| 0 <= i < j < w.push(e).len() implies w.push(e)[i].name@ != w.push(e)[j].name@ by {
        if j == w.len() {
            assert(w[i].name@ != e.name@);
        }
    }
}

/// After recording a non-blank query, it comes first, at most
/// [`MAX_RECENT`] queries are kept, and none occurs twice (when none did
/// before).
pub proof fn law_record_front_unique(r: Seq<Seq<char>>, query: Seq<char>)
    requires
        no_duplicates(r),
        r.len() <= MAX_RECENT,
    ensures
        record_spec(r, query).len() <= MAX_RECENT,
        no_duplicates(record_spec(r, query)),
        trim_spec(query).len() != 0 ==> record_spec(r, query)[0] == trim_spec(query),
{
    let q = trim_spec(query);
    if q.len() > 0 {
        lemma_without(r, q);
        let w = without(r, q);
        let full = seq![q] + w;
        assert(no_duplicates(full)) by {
            assert forall|i: int, j: int| 0 <= i < j < full.len() implies full[i] != full[j] by {
                if i == 0 {
                    assert(full[j] == w[j - 1]);
                    assert(w.contains(w[j - 1]));
                } else {
                    assert(full[i] == w[i - 1] && full[j] == w[j - 1]);
                }
            }
        }
        let out = record_spec(r, query);
        assert forall|i: int, j: int| 0 <= i < j < out.len() implies out[i] != out[j] by {
            assert(out[i] == full[i] && out[j] == full[j]);
        }
    }
}

} // verus!
