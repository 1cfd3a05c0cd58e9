//! The desktop front-end's state apart from drawing: the search form, the
//! result rows and how streamed events change them, the status line, the
//! in-place result filter and the text exports.
use vstd::prelude::*;
use crate::cli::{exts_spec, parse_exts};
use crate::extract::{file_name, lower, path_name_spec};
use crate::filter::{FileFilter, ScanOptions};
use crate::model::{CaseMode, Granularity, Match, MatchMode, Query, SearchEvent};
use crate::pattern::{regex_match_spans, Pattern};
use crate::renderer::views;
use crate::strings::{decimal_spec, parse_u64_spec, push_char, push_decimal, str_eq, to_ascii_lowercase, trim, trim_spec, u64_to_string};
use crate::text::byte_len;

verus! {

/// Queries shorter than this (in bytes, trimmed) are not searched for.
pub const MIN_QUERY_LEN: usize = 2;

/// The most result rows held at once.
pub const MAX_RESULTS: usize = 10_000;

/// A size in KB as bytes; `None` for an empty or invalid text.
pub open spec fn kb_spec(s: Seq<char>) -> Option<u64> {
    match parse_u64_spec(trim_spec(s)) {
        Some(kb) => Some((kb * 1024) as u64),
        None => None,
    }
}

/// Whether a KB text, when it is a number, gives a byte count that fits.
pub open spec fn kb_fits(s: Seq<char>) -> bool {
    parse_u64_spec(trim_spec(s)) matches Some(kb) ==> kb * 1024 <= u64::MAX
}

/// A size in KB as bytes (see [`kb_spec`]).
pub fn parse_kb(s: &str) -> (r: Option<u64>)
    requires
        kb_fits(s@),
    ensures
        r == kb_spec(s@),
{
    match crate::strings::parse_u64(trim(s)) {
        Some(kb) => Some(kb * 1024),
        None => None,
    }
}

/// A positive whole number; `None` for an empty, invalid or zero text.
pub fn parse_u64(s: &str) -> (r: Option<u64>)
    ensures
        r == match parse_u64_spec(trim_spec(s@)) {
            Some(n) => if n > 0 { Some(n) } else { None },
            None => None,
        },
{
    match crate::strings::parse_u64(trim(s)) {
        Some(n) => if n > 0 { Some(n) } else { None },
        None => None,
    }
}

/// A CSV field: quoted, with embedded quotes doubled.
pub open spec fn csv_spec(s: Seq<char>) -> Seq<char>
    decreases s.len(),
{
    if s.len() == 0 {
        seq!['"', '"']
    } else {
        let inner = csv_spec(s.drop_last());
        inner.drop_last() + (if s.last() == '"' { seq!['"', '"'] } else { seq![s.last()] }) + seq!['"']
    }
}

/// `s` with embedded quotes doubled.
pub open spec fn csv_body(s: Seq<char>) -> Seq<char>
    decreases s.len(),
{
    if s.len() == 0 {
        seq![]
    } else {
        csv_body(s.drop_last()) + if s.last() == '"' { seq!['"', '"'] } else { seq![s.last()] }
    }
}

/// A CSV field is the body in quotes.
proof fn lemma_csv(s: Seq<char>)
    ensures
        csv_spec(s) == seq!['"'] + csv_body(s) + seq!['"'],
    decreases s.len(),
{
    if s.len() > 0 {
        lemma_csv(s.drop_last());
        let b = csv_body(s.drop_last());
        assert((seq!['"'] + b + seq!['"']).drop_last() =~= seq!['"'] + b);
    } else {
        assert(seq!['"'] + csv_body(s) + seq!['"'] =~= seq!['"', '"']);
    }
}

/// Quotes a CSV field, doubling embedded quotes (RFC 4180).
pub fn csv_field(s: &str) -> (r: String)
    ensures
        r@ == csv_spec(s@),
{
    let ghost q = s@;
    let mut body = String::new();
    for c in it: s.chars()
        invariant
            q == s@,
            it.seq() == q,
            body@ == csv_body(q.take(it.index())),
    {
        let ghost k = it.index();
        let ghost before = body@;
        assert(c == q[k]);
        if c == '"' {
            push_char(&mut body, '"');
            push_char(&mut body, '"');
        } else {
            push_char(&mut body, c);
        }
        assert(q.take(k + 1).drop_last() =~= q.take(k));
        assert(body@ =~= csv_body(q.take(k + 1)));
    }
    assert(q.take(q.len() as int) =~= q);
    let mut r = String::new();
    push_char(&mut r, '"');
    r.append(body.as_str());
    push_char(&mut r, '"');
    proof {
        lemma_csv(q);
    }
    assert(r@ =~= csv_spec(q));
    r
}

/// The preview of a hit's text: every `'\r'` and `'\n'` shown as ` ⏎ `, so
/// a block fits on one row.
pub open spec fn preview_spec(s: Seq<char>) -> Seq<char>
    decreases s.len(),
{
    if s.len() == 0 {
        seq![]
    } else {
        preview_spec(s.drop_last()) + if s.last() == '\r' || s.last() == '\n' { seq![' ', '⏎', ' '] } else { seq![s.last()] }
    }
}

/// The preview of a hit's text (see [`preview_spec`]).
pub fn preview(s: &str) -> (r: String)
    ensures
        r@ == preview_spec(s@),
{
    let ghost q = s@;
    let mut out = String::new();
    for c in it: s.chars()
        invariant
            q == s@,
            it.seq() == q,
            out@ == preview_spec(q.take(it.index())),
    {
        let ghost k = it.index();
        assert(c == q[k]);
        if c == '\r' || c == '\n' {
            push_char(&mut out, ' ');
            push_char(&mut out, '⏎');
            push_char(&mut out, ' ');
        } else {
            push_char(&mut out, c);
        }
        assert(q.take(k + 1).drop_last() =~= q.take(k));
        assert(out@ =~= preview_spec(q.take(k + 1)));
    }
    assert(q.take(q.len() as int) =~= q);
    out
}

/// A hit with its display texts computed once.
pub struct ResultRow {
    pub path: String,
    /// The file name of the path (empty when it has none).
    pub file_name: String,
    pub path_display: String,
    /// The line number, or `first-last` for a block.
    pub line_label: String,
    /// For a block, which line matched.
    pub line_hover: Option<String>,
    pub preview: String,
    pub full_text: String,
}

/// The line label of a hit: `first-last` for a hit spanning lines, else the
/// line number.
pub open spec fn line_label_spec(m: Match) -> Seq<char> {
    if m.line_end > m.line_start {
        decimal_spec(m.line_start as nat) + seq!['-'] + decimal_spec(m.line_end as nat)
    } else {
        decimal_spec(m.line_start as nat)
    }
}

/// `r` is the row for the hit `m`.
pub open spec fn row_of(r: ResultRow, m: Match) -> bool {
    &&& r.path@ == m.path@
    &&& r.file_name@ == (match path_name_spec(m.path@) { Some(n) => n, None => seq![] })
    &&& r.path_display@ == m.path@
    &&& r.line_label@ == line_label_spec(m)
    &&& (m.line_end > m.line_start <==> r.line_hover is Some)
    &&& (r.line_hover matches Some(h) ==> h@ == "match on line "@ + decimal_spec(m.matched_line as nat))
    &&& r.preview@ == preview_spec(m.text@)
    &&& r.full_text@ == m.text@
}

impl ResultRow {
    /// The row for a hit.
    pub fn from_match(m: Match) -> (r: ResultRow)
        ensures
            row_of(r, m),
    {
        let name = match file_name(m.path.as_str()) {
            Some(n) => n.to_string(),
            None => String::new(),
        };
        let path_display = m.path.clone();
        let (label, hover) = if m.line_end > m.line_start {
            let mut l = String::new();
            push_decimal(&mut l, m.line_start);
            push_char(&mut l, '-');
            push_decimal(&mut l, m.line_end);
            assert(l@ =~= line_label_spec(m));
            let mut h = String::new();
            h.append("match on line ");
            push_decimal(&mut h, m.matched_line);
            assert(h@ =~= "match on line "@ + decimal_spec(m.matched_line as nat));
            (l, Some(h))
        } else {
            (u64_to_string(m.line_start), None)
        };
        let pv = preview(m.text.as_str());
        ResultRow {
            path: m.path,
            file_name: name,
            path_display,
            line_label: label,
            line_hover: hover,
            preview: pv,
            full_text: m.text,
        }
    }
}

/// The search form: the query and filter fields as typed.
pub struct SearchForm {
    pub query_text: String,
    pub exclude_text: String,
    pub match_mode: MatchMode,
    pub case: CaseMode,
    pub whole_word: bool,
    pub granularity: Granularity,
    pub respect_gitignore: bool,
    pub filter_name: String,
    pub filter_name_regex: bool,
    pub filter_include_exts: String,
    pub filter_exclude_exts: String,
    pub filter_min_kb: String,
    pub filter_max_kb: String,
    pub filter_days: String,
}

impl SearchForm {
    /// `f` is the file filter the form describes.
    pub open spec fn filter_of(&self, f: FileFilter) -> bool {
        &&& f.name_pattern@ == trim_spec(self.filter_name@)
        &&& f.name_is_regex == self.filter_name_regex
        &&& views(f.include_exts@) == exts_spec(self.filter_include_exts@)
        &&& views(f.exclude_exts@) == exts_spec(self.filter_exclude_exts@)
        &&& f.min_size == kb_spec(self.filter_min_kb@)
        &&& f.max_size == kb_spec(self.filter_max_kb@)
        &&& f.modified_within_days == match parse_u64_spec(trim_spec(self.filter_days@)) {
            Some(n) => if n > 0 { Some(n) } else { None },
            None => None,
        }
        &&& f.modified_after is None
        &&& f.modified_before is None
    }

    /// The query the form describes.
    pub fn current_query(&self) -> (q: Query)
        ensures
            q.pattern@ == self.query_text@,
            q.exclude@ == self.exclude_text@,
            q.mode == self.match_mode,
            q.case == self.case,
            q.whole_word == self.whole_word,
            q.granularity == self.granularity,
    {
        Query {
            pattern: self.query_text.clone(),
            exclude: self.exclude_text.clone(),
            mode: self.match_mode,
            case: self.case,
            whole_word: self.whole_word,
            granularity: self.granularity,
        }
    }

    /// The file filter the form describes: the name pattern trimmed, the
    /// extension lists parsed, sizes in KB as bytes, the age in positive days;
    /// empty or invalid fields impose nothing.
    pub fn build_filter(&self) -> (f: FileFilter)
        requires
            kb_fits(self.filter_min_kb@),
            kb_fits(self.filter_max_kb@),
        ensures
            self.filter_of(f),
    {
        FileFilter {
            name_pattern: trim(self.filter_name.as_str()).to_string(),
            name_is_regex: self.filter_name_regex,
            include_exts: parse_exts(self.filter_include_exts.as_str()),
            exclude_exts: parse_exts(self.filter_exclude_exts.as_str()),
            min_size: parse_kb(self.filter_min_kb.as_str()),
            max_size: parse_kb(self.filter_max_kb.as_str()),
            modified_within_days: parse_u64(self.filter_days.as_str()),
            modified_after: None,
            modified_before: None,
        }
    }

    /// The walk options: `.gitignore` as the form says, hidden files
    /// searched, links not followed, the form's filter, no entry-time filter.
    pub fn scan_options(&self) -> (o: ScanOptions)
        requires
            kb_fits(self.filter_min_kb@),
            kb_fits(self.filter_max_kb@),
        ensures
            o.respect_gitignore == self.respect_gitignore,
            o.include_hidden,
            !o.follow_links,
            self.filter_of(o.filter),
            o.time is None,
    {
        ScanOptions {
            respect_gitignore: self.respect_gitignore,
            include_hidden: true,
            follow_links: false,
            filter: self.build_filter(),
            time: None,
        }
    }

    /// Whether a search should run: some root is chosen and the trimmed
    /// query is at least [`MIN_QUERY_LEN`] bytes long.
    pub fn should_search(&self, root_count: usize) -> (b: bool)
        ensures
            b == (root_count > 0 && byte_len(trim_spec(self.query_text@)) >= MIN_QUERY_LEN),
    {
        root_count > 0 && trim(self.query_text.as_str()).as_bytes().len() >= MIN_QUERY_LEN
    }
}

/// The result list and the state of the search feeding it.
pub struct ResultsModel {
    /// The generation whose events are taken; others are dropped.
    pub active_generation: u64,
    pub results: Vec<ResultRow>,
    /// Hits were dropped because the list was full.
    pub truncated: bool,
    pub error: Option<String>,
    pub searching: bool,
    pub watching: bool,
    /// The in-place filter over the list.
    pub result_filter: String,
    /// A passing message (such as the outcome of an export).
    pub status_notice: Option<String>,
}

/// The rows whose path is not `p`, in order.
pub open spec fn rows_without(rs: Seq<ResultRow>, p: Seq<char>) -> Seq<ResultRow>
    decreases rs.len(),
{
    if rs.len() == 0 {
        rs
    } else if rs.last().path@ == p {
        rows_without(rs.drop_last(), p)
    } else {
        rows_without(rs.drop_last(), p).push(rs.last())
    }
}

/// Keeping rows never adds any.
proof fn lemma_rows_without_len(rs: Seq<ResultRow>, p: Seq<char>)
    ensures
        rows_without(rs, p).len() <= rs.len(),
    decreases rs.len(),
{
    if rs.len() > 0 {
        lemma_rows_without_len(rs.drop_last(), p);
    }
}

/// The paths of rows.
pub open spec fn row_paths(rs: Seq<ResultRow>) -> Seq<Seq<char>> {
    rs.map_values(|r: ResultRow| r.path@)
}

/// The paths of `ps` other than `p`, in order.
pub open spec fn paths_without(ps: Seq<Seq<char>>, p: Seq<char>) -> Seq<Seq<char>>
    decreases ps.len(),
{
    if ps.len() == 0 {
        ps
    } else if ps.last() == p {
        paths_without(ps.drop_last(), p)
    } else {
        paths_without(ps.drop_last(), p).push(ps.last())
    }
}

/// The paths of the rows, and the truncation mark, after the events `evs`
/// reach a list of rows with paths `ps` and mark `truncated` that takes the
/// events of generation `g`: a hit of `g` adds its path while fewer than
/// [`MAX_RESULTS`] rows are held, else sets the mark; clearing a path of
/// `g` drops its rows, and the mark once there is room; every other event
/// leaves both alone.
pub open spec fn drain_model(ps: Seq<Seq<char>>, truncated: bool, g: u64, evs: Seq<SearchEvent>) -> (Seq<Seq<char>>, bool)
    decreases evs.len(),
{
    if evs.len() == 0 {
        (ps, truncated)
    } else {
        let (q, t) = drain_model(ps, truncated, g, evs.drop_last());
        match evs.last() {
            SearchEvent::Match(h, m) => if h == g {
                if q.len() < MAX_RESULTS { (q.push(m.path@), t) } else { (q, true) }
            } else {
                (q, t)
            },
            SearchEvent::Clear(h, p) => if h == g {
                let r = paths_without(q, p@);
                (r, t && r.len() >= MAX_RESULTS)
            } else {
                (q, t)
            },
            _ => (q, t),
        }
    }
}

/// Where a row of the list comes from during a batch: the row at an index
/// of the list before the batch, or a hit of the batch.
pub ghost enum RowSource {
    Kept(int),
    Hit(Match),
}

/// The path of the row a source stands for.
pub open spec fn source_path(src: RowSource, before: Seq<ResultRow>) -> Seq<char> {
    match src {
        RowSource::Kept(j) => before[j].path@,
        RowSource::Hit(m) => m.path@,
    }
}

/// `r` is the row `src` stands for: the same row kept, or the row of the hit.
pub open spec fn row_from(r: ResultRow, src: RowSource, before: Seq<ResultRow>) -> bool {
    match src {
        RowSource::Kept(j) => 0 <= j < before.len() && r == before[j],
        RowSource::Hit(m) => row_of(r, m),
    }
}

/// Every row of the list before a batch, kept.
pub open spec fn kept_all(n: nat) -> Seq<RowSource> {
    Seq::new(n, |j: int| RowSource::Kept(j))
}

/// The sources of `srcs` whose path is not `p`, in order.
pub open spec fn sources_without(srcs: Seq<RowSource>, before: Seq<ResultRow>, p: Seq<char>) -> Seq<RowSource>
    decreases srcs.len(),
{
    if srcs.len() == 0 {
        srcs
    } else if source_path(srcs.last(), before) == p {
        sources_without(srcs.drop_last(), before, p)
    } else {
        sources_without(srcs.drop_last(), before, p).push(srcs.last())
    }
}

/// Where the rows come from after the events `evs` reach a list whose rows
/// come from `srcs` and that takes the events of generation `g`: a hit of
/// `g` adds its row while fewer than [`MAX_RESULTS`] rows are held;
/// clearing a path of `g` drops its rows; every other event leaves the
/// rows alone.
pub open spec fn drain_sources(srcs: Seq<RowSource>, before: Seq<ResultRow>, g: u64, evs: Seq<SearchEvent>) -> Seq<RowSource>
    decreases evs.len(),
{
    if evs.len() == 0 {
        srcs
    } else {
        let q = drain_sources(srcs, before, g, evs.drop_last());
        match evs.last() {
            SearchEvent::Match(h, m) => if h == g && q.len() < MAX_RESULTS { q.push(RowSource::Hit(m)) } else { q },
            SearchEvent::Clear(h, p) => if h == g { sources_without(q, before, p@) } else { q },
            _ => q,
        }
    }
}

/// The rows `rs` are, one for one, those the sources stand for.
pub open spec fn rows_from(rs: Seq<ResultRow>, srcs: Seq<RowSource>, before: Seq<ResultRow>) -> bool {
    &&& rs.len() == srcs.len()
    &&& forall|i: int| 0 <= i < rs.len() ==> #[trigger] row_from(rs[i], srcs[i], before)
}

/// Dropping a path's rows drops exactly the sources of that path.
proof fn lemma_rows_from_without(rs: Seq<ResultRow>, srcs: Seq<RowSource>, before: Seq<ResultRow>, p: Seq<char>)
    requires
        rows_from(rs, srcs, before),
    ensures
        rows_from(rows_without(rs, p), sources_without(srcs, before, p), before),
    decreases rs.len(),
{
    if rs.len() > 0 {
        assert(rows_from(rs.drop_last(), srcs.drop_last(), before)) by {
            assert forall|i: int| 0 <= i < rs.drop_last().len() implies #[trigger] row_from(rs.drop_last()[i], srcs.drop_last()[i], before) by {
                assert(row_from(rs[i], srcs[i], before));
            }
        }
        lemma_rows_from_without(rs.drop_last(), srcs.drop_last(), before, p);
        assert(row_from(rs[rs.len() - 1], srcs[srcs.len() - 1], before));
        assert(rs.last().path@ == source_path(srcs.last(), before));
        let a = rows_without(rs.drop_last(), p);
        let b = sources_without(srcs.drop_last(), before, p);
        if rs.last().path@ != p {
            let a2 = a.push(rs.last());
            let b2 = b.push(srcs.last());
            assert forall|i: int| 0 <= i < a2.len() implies #[trigger] row_from(a2[i], b2[i], before) by {
                if i < a.len() {
                    assert(row_from(a[i], b[i], before));
                }
            }
        }
    }
}

/// The text of an optional message.
pub open spec fn message_view(e: Option<String>) -> Option<Seq<char>> {
    match e {
        Some(x) => Some(x@),
        None => None,
    }
}

/// The error shown after the events `evs`, starting from `e`: that of the
/// last error of generation `g`, if any.
pub open spec fn error_after(e: Option<Seq<char>>, g: u64, evs: Seq<SearchEvent>) -> Option<Seq<char>>
    decreases evs.len(),
{
    if evs.len() == 0 {
        e
    } else {
        match evs.last() {
            SearchEvent::Error(h, m) => if h == g { Some(m@) } else { error_after(e, g, evs.drop_last()) },
            _ => error_after(e, g, evs.drop_last()),
        }
    }
}

/// Whether `ev` ends the search of generation `g` (its end, or an error).
pub open spec fn ends_search(ev: SearchEvent, g: u64) -> bool {
    match ev {
        SearchEvent::Done(h) => h == g,
        SearchEvent::Error(h, _) => h == g,
        _ => false,
    }
}

/// The generation an event belongs to.
pub open spec fn event_generation(ev: SearchEvent) -> u64 {
    match ev {
        SearchEvent::Match(g, _) => g,
        SearchEvent::Clear(g, _) => g,
        SearchEvent::Done(g) => g,
        SearchEvent::Error(g, _) => g,
    }
}

/// Dropping a path's rows drops exactly that path from their paths.
proof fn lemma_paths_without(rs: Seq<ResultRow>, p: Seq<char>)
    ensures
        row_paths(rows_without(rs, p)) == paths_without(row_paths(rs), p),
        rows_without(rs, p).len() == paths_without(row_paths(rs), p).len(),
    decreases rs.len(),
{
    if rs.len() > 0 {
        lemma_paths_without(rs.drop_last(), p);
        assert(row_paths(rs).drop_last() =~= row_paths(rs.drop_last()));
        assert(row_paths(rs).last() == rs.last().path@);
        if rs.last().path@ != p {
            assert(row_paths(rows_without(rs.drop_last(), p).push(rs.last()))
                =~= row_paths(rows_without(rs.drop_last(), p)).push(rs.last().path@));
        }
    }
}

/// `paths_without` keeps no entry equal to the path, and never lengthens.
proof fn lemma_paths_without_drops(ps: Seq<Seq<char>>, p: Seq<char>)
    ensures
        forall|i: int| 0 <= i < paths_without(ps, p).len() ==> #[trigger] paths_without(ps, p)[i] != p,
        paths_without(ps, p).len() <= ps.len(),
    decreases ps.len(),
{
    if ps.len() > 0 {
        lemma_paths_without_drops(ps.drop_last(), p);
    }
}

/// However many events a batch holds, the list never holds more than
/// [`MAX_RESULTS`] rows.
pub proof fn law_drain_keeps_the_cap(ps: Seq<Seq<char>>, truncated: bool, g: u64, evs: Seq<SearchEvent>)
    requires
        ps.len() <= MAX_RESULTS,
    ensures
        drain_model(ps, truncated, g, evs).0.len() <= MAX_RESULTS,
    decreases evs.len(),
{
    if evs.len() > 0 {
        law_drain_keeps_the_cap(ps, truncated, g, evs.drop_last());
        let q = drain_model(ps, truncated, g, evs.drop_last()).0;
        if let SearchEvent::Clear(h, p) = evs.last() {
            lemma_paths_without_drops(q, p@);
        }
    }
}

/// Events of other generations (a cancelled or superseded search) change
/// neither the rows nor the truncation mark.
pub proof fn law_foreign_events_change_nothing(ps: Seq<Seq<char>>, truncated: bool, g: u64, evs: Seq<SearchEvent>)
    requires
        forall|i: int| 0 <= i < evs.len() ==> event_generation(#[trigger] evs[i]) != g,
    ensures
        drain_model(ps, truncated, g, evs) == (ps, truncated),
    decreases evs.len(),
{
    if evs.len() > 0 {
        assert(event_generation(evs[evs.len() - 1]) != g);
        law_foreign_events_change_nothing(ps, truncated, g, evs.drop_last());
    }
}

/// Hits of the active generation, below the cap and with nothing cleared,
/// are appended in the order they came.
pub proof fn law_hits_append_in_order(ps: Seq<Seq<char>>, truncated: bool, g: u64, ms: Seq<Match>)
    requires
        ps.len() + ms.len() <= MAX_RESULTS,
    ensures
        drain_model(ps, truncated, g, ms.map_values(|m: Match| SearchEvent::Match(g, m)))
            == (ps + ms.map_values(|m: Match| m.path@), truncated),
    decreases ms.len(),
{
    let evs = ms.map_values(|m: Match| SearchEvent::Match(g, m));
    if ms.len() == 0 {
        assert(ps + ms.map_values(|m: Match| m.path@) =~= ps);
    } else {
        law_hits_append_in_order(ps, truncated, g, ms.drop_last());
        assert(evs.drop_last() =~= ms.drop_last().map_values(|m: Match| SearchEvent::Match(g, m)));
        assert(evs.last() == SearchEvent::Match(g, ms.last()));
        assert(ps + ms.map_values(|m: Match| m.path@)
            =~= (ps + ms.drop_last().map_values(|m: Match| m.path@)).push(ms.last().path@));
    }
}

/// After a path of the active generation is cleared, no row of it is left.
pub proof fn law_clear_leaves_no_row_of_the_path(ps: Seq<Seq<char>>, truncated: bool, g: u64, evs: Seq<SearchEvent>, p: String)
    ensures
        forall|i: int| 0 <= i < drain_model(ps, truncated, g, evs.push(SearchEvent::Clear(g, p))).0.len()
            ==> #[trigger] drain_model(ps, truncated, g, evs.push(SearchEvent::Clear(g, p))).0[i] != p@,
{
    let all = evs.push(SearchEvent::Clear(g, p));
    assert(all.drop_last() =~= evs);
    lemma_paths_without_drops(drain_model(ps, truncated, g, evs).0, p@);
}

impl ResultsModel {
    /// An idle model with no rows.
    pub fn new() -> (m: ResultsModel)
        ensures
            m.active_generation == 0,
            m.results@.len() == 0,
            !m.truncated,
            m.error is None,
            !m.searching,
            !m.watching,
            m.result_filter@.len() == 0,
            m.status_notice is None,
    {
        ResultsModel {
            active_generation: 0,
            results: Vec::new(),
            truncated: false,
            error: None,
            searching: false,
            watching: false,
            result_filter: String::new(),
            status_notice: None,
        }
    }

    /// A new search of generation `g` starts: no rows, no error or notice,
    /// searching and not watching.
    pub fn start(&mut self, g: u64)
        ensures
            final(self).active_generation == g,
            final(self).results@.len() == 0,
            !final(self).truncated,
            final(self).error is None,
            final(self).status_notice is None,
            final(self).searching,
            !final(self).watching,
            final(self).result_filter@ == old(self).result_filter@,
    {
        self.active_generation = g;
        self.results = Vec::new();
        self.truncated = false;
        self.error = None;
        self.status_notice = None;
        self.searching = true;
        self.watching = false;
    }

    /// Nothing to search: no rows, no error, nothing running.
    pub fn clear_idle(&mut self)
        ensures
            final(self).active_generation == old(self).active_generation,
            final(self).results@.len() == 0,
            !final(self).truncated,
            final(self).error is None,
            !final(self).searching,
            !final(self).watching,
            final(self).status_notice == old(self).status_notice,
            final(self).result_filter@ == old(self).result_filter@,
    {
        self.results = Vec::new();
        self.truncated = false;
        self.error = None;
        self.searching = false;
        self.watching = false;
    }

    /// Takes one streamed event. Events of another generation change
    /// nothing. A hit becomes a row while fewer than [`MAX_RESULTS`] are
    /// held, else the list is marked truncated; clearing a path drops its
    /// rows (and the truncation mark once there is room again); the end of
    /// the search stops `searching` and returns `true` (a watch waiting for
    /// it may start now); an error is recorded and stops `searching`.
    pub fn apply(&mut self, ev: SearchEvent) -> (start_watch: bool)
        requires
            old(self).results@.len() <= MAX_RESULTS,
        ensures
            final(self).results@.len() <= MAX_RESULTS,
            final(self).active_generation == old(self).active_generation,
            final(self).watching == old(self).watching,
            final(self).result_filter@ == old(self).result_filter@,
            final(self).status_notice == old(self).status_notice,
            start_watch == (ev matches SearchEvent::Done(g) && g == old(self).active_generation),
            match ev {
                SearchEvent::Match(g, m) => if g == old(self).active_generation {
                    &&& (if old(self).results@.len() < MAX_RESULTS {
                        &&& final(self).results@.len() == old(self).results@.len() + 1
                        &&& final(self).results@.drop_last() == old(self).results@
                        &&& row_of(final(self).results@.last(), m)
                        &&& final(self).truncated == old(self).truncated
                    } else {
                        &&& final(self).results@ == old(self).results@
                        &&& final(self).truncated
                    })
                    &&& final(self).error == old(self).error
                    &&& final(self).searching == old(self).searching
                } else {
                    &&& final(self).results@ == old(self).results@
                    &&& final(self).truncated == old(self).truncated
                    &&& final(self).error == old(self).error
                    &&& final(self).searching == old(self).searching
                },
                SearchEvent::Clear(g, p) => if g == old(self).active_generation {
                    &&& final(self).results@ == rows_without(old(self).results@, p@)
                    &&& final(self).truncated == (old(self).truncated && final(self).results@.len() >= MAX_RESULTS)
                    &&& final(self).error == old(self).error
                    &&& final(self).searching == old(self).searching
                } else {
                    &&& final(self).results@ == old(self).results@
                    &&& final(self).truncated == old(self).truncated
                    &&& final(self).error == old(self).error
                    &&& final(self).searching == old(self).searching
                },
                SearchEvent::Done(g) => {
                    &&& final(self).results@ == old(self).results@
                    &&& final(self).truncated == old(self).truncated
                    &&& final(self).error == old(self).error
                    &&& final(self).searching == (old(self).searching && g != old(self).active_generation)
                },
                SearchEvent::Error(g, e) => {
                    &&& final(self).results@ == old(self).results@
                    &&& final(self).truncated == old(self).truncated
                    &&& if g == old(self).active_generation {
                        &&& final(self).error matches Some(x) && x@ == e@
                        &&& !final(self).searching
                    } else {
                        &&& final(self).error == old(self).error
                        &&& final(self).searching == old(self).searching
                    }
                },
            },
    {
        match ev {
            SearchEvent::Match(g, m) => {
                if g == self.active_generation {
                    if self.results.len() < MAX_RESULTS {
                        let row = ResultRow::from_match(m);
                        let ghost before = self.results@;
                        self.results.push(row);
                        assert(self.results@.drop_last() =~= before);
                    } else {
                        self.truncated = true;
                    }
                }
                false
            },
            SearchEvent::Clear(g, path) => {
                if g == self.active_generation {
                    self.remove_path(path.as_str());
                    if self.truncated && self.results.len() < MAX_RESULTS {
                        self.truncated = false;
                    }
                }
                false
            },
            SearchEvent::Done(g) => {
                if g == self.active_generation {
                    self.searching = false;
                    true
                } else {
                    false
                }
            },
            SearchEvent::Error(g, e) => {
                if g == self.active_generation {
                    self.error = Some(e);
                    self.searching = false;
                }
                false
            },
        }
    }

    /// Takes a batch of streamed events, in order (see [`ResultsModel::apply`]).
    /// The paths of the rows and the truncation mark follow [`drain_model`];
    /// `true` when the batch held the end of the active search (a watch
    /// waiting for it may start now).
    pub fn drain_results(&mut self, events: Vec<SearchEvent>) -> (start_watch: bool)
        requires
            old(self).results@.len() <= MAX_RESULTS,
        ensures
            final(self).results@.len() <= MAX_RESULTS,
            final(self).active_generation == old(self).active_generation,
            final(self).watching == old(self).watching,
            final(self).result_filter@ == old(self).result_filter@,
            final(self).status_notice == old(self).status_notice,
            (row_paths(final(self).results@), final(self).truncated)
                == drain_model(row_paths(old(self).results@), old(self).truncated, old(self).active_generation, events@),
            start_watch == exists|i: int| 0 <= i < events@.len()
                && #[trigger] events@[i] == SearchEvent::Done(old(self).active_generation),
            final(self).searching == (old(self).searching && !exists|i: int| 0 <= i < events@.len()
                && ends_search(#[trigger] events@[i], old(self).active_generation)),
            message_view(final(self).error) == error_after(message_view(old(self).error), old(self).active_generation, events@),
            rows_from(final(self).results@,
                drain_sources(kept_all(old(self).results@.len()), old(self).results@, old(self).active_generation, events@),
                old(self).results@),
    {
        let ghost g = self.active_generation;
        let ghost rows0 = self.results@;
        assert(rows_from(rows0, drain_sources(kept_all(rows0.len()), rows0, g, events@.take(0)), rows0)) by {
            assert(events@.take(0).len() == 0);
            let ks = kept_all(rows0.len());
            assert forall|i: int| 0 <= i < rows0.len() implies #[trigger] row_from(rows0[i], ks[i], rows0) by {}
        }
        let ghost ps0 = row_paths(self.results@);
        let ghost t0 = self.truncated;
        let ghost all = events@;
        let n = events.len();
        assert(all.len() == n);
        let mut rest = events;
        let mut start = false;
        let mut k: usize = 0;
        while rest.len() > 0
            invariant
                self.results@.len() <= MAX_RESULTS,
                self.active_generation == g,
                self.watching == old(self).watching,
                self.result_filter@ == old(self).result_filter@,
                self.status_notice == old(self).status_notice,
                k <= all.len(),
                all.len() <= usize::MAX,
                rest@ == all.subrange(k as int, all.len() as int),
                (row_paths(self.results@), self.truncated) == drain_model(ps0, t0, g, all.take(k as int)),
                start == exists|i: int| 0 <= i < k && #[trigger] all[i] == SearchEvent::Done(g),
                self.searching == (old(self).searching && !exists|i: int| 0 <= i < k && ends_search(#[trigger] all[i], g)),
                message_view(self.error) == error_after(message_view(old(self).error), g, all.take(k as int)),
                rows0 == old(self).results@,
                rows_from(self.results@, drain_sources(kept_all(rows0.len()), rows0, g, all.take(k as int)), rows0),
            decreases rest.len(),
        {
            assert(rest@.len() == all.len() - k);
            let ev = rest.remove(0);
            let ghost before = self.results@;
            let ghost ev_view = ev;
            assert(ev_view == all[k as int]);
            let s = self.apply(ev);
            proof {
                let pre = all.take(k as int);
                assert(all.take(k + 1).drop_last() =~= pre);
                assert(all.take(k + 1).last() == ev_view);
                let q = drain_sources(kept_all(rows0.len()), rows0, g, pre);
                assert(rows_from(before, q, rows0));
                match ev_view {
                    SearchEvent::Match(h, m) => {
                        if h == g && before.len() < MAX_RESULTS {
                            assert(row_paths(self.results@) =~= row_paths(before).push(m.path@)) by {
                                assert(self.results@ =~= before.push(self.results@.last()));
                            }
                            let q2 = q.push(RowSource::Hit(m));
                            assert forall|i: int| 0 <= i < self.results@.len() implies #[trigger] row_from(self.results@[i], q2[i], rows0) by {
                                if i < before.len() {
                                    assert(self.results@[i] == self.results@.drop_last()[i]);
                                    assert(row_from(before[i], q[i], rows0));
                                }
                            }
                        }
                    },
                    SearchEvent::Clear(h, p) => {
                        if h == g {
                            lemma_paths_without(before, p@);
                            lemma_rows_from_without(before, q, rows0, p@);
                        }
                    },
                    _ => {},
                }
            }
            if s {
                start = true;
            }
            assert(start == exists|i: int| 0 <= i < k + 1 && #[trigger] all[i] == SearchEvent::Done(g)) by {
                if s {
                    assert(all[k as int] == SearchEvent::Done(g));
                }
                if exists|i: int| 0 <= i < k + 1 && #[trigger] all[i] == SearchEvent::Done(g) {
                    let i = choose|i: int| 0 <= i < k + 1 && #[trigger] all[i] == SearchEvent::Done(g);
                    if i == k {
                        assert(s);
                    }
                }
            }
            assert(self.searching == (old(self).searching && !exists|i: int| 0 <= i < k + 1 && ends_search(#[trigger] all[i], g))) by {
                if exists|i: int| 0 <= i < k + 1 && ends_search(#[trigger] all[i], g) {
                    let i = choose|i: int| 0 <= i < k + 1 && ends_search(#[trigger] all[i], g);
                    if i == k {
                        assert(ends_search(ev_view, g));
                    }
                }
                if ends_search(ev_view, g) {
                    assert(ends_search(all[k as int], g));
                }
            }
            k = k + 1;
        }
        assert(all.take(all.len() as int) =~= all);
        start
    }

    /// Drops the rows of `path`, keeping the others in order.
    fn remove_path(&mut self, path: &str)
        ensures
            final(self).results@ == rows_without(old(self).results@, path@),
            final(self).results@.len() <= old(self).results@.len(),
            final(self).active_generation == old(self).active_generation,
            final(self).truncated == old(self).truncated,
            final(self).error == old(self).error,
            final(self).searching == old(self).searching,
            final(self).watching == old(self).watching,
            final(self).result_filter@ == old(self).result_filter@,
            final(self).status_notice == old(self).status_notice,
    {
        let ghost s = self.results@;
        proof {
            lemma_rows_without_len(s, path@);
        }
        let mut rest: Vec<ResultRow> = Vec::new();
        std::mem::swap(&mut rest, &mut self.results);
        let ghost mut k: int = 0;
        while rest.len() > 0
            invariant
                0 <= k <= s.len(),
                rest@ == s.skip(k),
                self.results@ == rows_without(s.take(k), path@),
                self.active_generation == old(self).active_generation,
                self.truncated == old(self).truncated,
                self.error == old(self).error,
                self.searching == old(self).searching,
                self.watching == old(self).watching,
                self.result_filter@ == old(self).result_filter@,
                self.status_notice == old(self).status_notice,
            decreases rest@.len(),
        {
            let x = rest.remove(0);
            proof {
                assert(x == s[k]);
                assert(s.take(k + 1) =~= s.take(k).push(x));
                assert(s.take(k + 1).drop_last() =~= s.take(k));
                assert(rest@ =~= s.skip(k + 1));
                k = k + 1;
            }
            if !str_eq(x.path.as_str(), path) {
                self.results.push(x);
            }
        }
        assert(s.take(k) =~= s);
    }

    /// The status line: the error if there is one; otherwise the number of
    /// hits, a note when the list was capped, what is running, and the
    /// passing notice.
    pub fn status_line(&self) -> (r: String)
        ensures
            r@ == match self.error {
                Some(e) => "Error: "@ + e@,
                None => decimal_spec(self.results@.len() as nat) + " match(es)"@
                    + (if self.truncated { " (capped at 10000; refine query)"@ } else { ""@ })
                    + (if self.searching { " — searching…"@ } else if self.watching { " — watching for changes"@ } else { ""@ })
                    + (match self.status_notice { Some(n) => "   |   "@ + n@, None => ""@ }),
            },
    {
        match &self.error {
            Some(e) => {
                let mut r = String::new();
                r.append("Error: ");
                r.append(e.as_str());
                r
            },
            None => {
                let mut r = String::new();
                push_decimal(&mut r, self.results.len() as u64);
                r.append(" match(es)");
                if self.truncated {
                    r.append(" (capped at 10000; refine query)");
                } else {
                    r.append("");
                }
                if self.searching {
                    r.append(" — searching…");
                } else if self.watching {
                    r.append(" — watching for changes");
                } else {
                    r.append("");
                }
                match &self.status_notice {
                    Some(n) => {
                        r.append("   |   ");
                        r.append(n.as_str());
                    },
                    None => r.append(""),
                }
                r
            },
        }
    }

    /// Whether row `r` passes the in-place filter `f` (already trimmed and
    /// lowercased): its file name or its preview holds `f`, ASCII case ignored.
    pub open spec fn row_visible(r: ResultRow, f: Seq<char>) -> bool {
        contains_spec(lower(r.file_name@), f) || contains_spec(lower(r.preview@), f)
    }

    /// The indices of the rows the in-place filter shows, in order: all of
    /// them for an empty filter.
    pub fn visible_indices(&self) -> (v: Vec<usize>)
        ensures
            v@ == visible_upto(self.results@, lower(trim_spec(self.result_filter@)), self.results@.len() as int),
    {
        let f = to_ascii_lowercase(trim(self.result_filter.as_str()));
        assert(f@ =~= lower(trim_spec(self.result_filter@)));
        let empty = f.as_str().as_bytes().len() == 0;
        proof {
            if !empty && f@.len() == 0 {
                assert(f@ =~= Seq::<char>::empty());
                assert(byte_len(Seq::<char>::empty()) == 0);
            }
            if empty {
                crate::text::lemma_byte_len_grows(f@, 0, 0);
            }
        }
        let mut v: Vec<usize> = Vec::new();
        let mut i: usize = 0;
        while i < self.results.len()
            invariant
                0 <= i <= self.results@.len(),
                f@ == lower(trim_spec(self.result_filter@)),
                empty == (f@.len() == 0),
                v@ == visible_upto(self.results@, f@, i as int),
            decreases self.results@.len() - i,
        {
            let r = &self.results[i];
            let show = if empty {
                true
            } else {
                let name = to_ascii_lowercase(r.file_name.as_str());
                let pv = to_ascii_lowercase(r.preview.as_str());
                assert(name@ =~= lower(r.file_name@));
                assert(pv@ =~= lower(r.preview@));
                let a = contains(name.as_str(), f.as_str());
                let b = contains(pv.as_str(), f.as_str());
                a || b
            };
            if show {
                v.push(i);
            }
            i = i + 1;
        }
        v
    }
}

/// The indices among the first `n` rows that the filter `f` shows, in
/// order: every index for an empty filter.
pub open spec fn visible_upto(rows: Seq<ResultRow>, f: Seq<char>, n: int) -> Seq<usize>
    decreases n,
{
    if n <= 0 {
        seq![]
    } else {
        let prev = visible_upto(rows, f, n - 1);
        if f.len() == 0 || ResultsModel::row_visible(rows[n - 1], f) { prev.push((n - 1) as usize) } else { prev }
    }
}

/// Whether `needle` occurs in `hay` at position `i`.
pub open spec fn occurs_at(hay: Seq<char>, needle: Seq<char>, i: int) -> bool {
    0 <= i && i + needle.len() <= hay.len() && hay.subrange(i, i + needle.len()) == needle
}

/// Whether `needle` occurs in `hay`.
pub open spec fn contains_spec(hay: Seq<char>, needle: Seq<char>) -> bool {
    exists|i: int| #[trigger] occurs_at(hay, needle, i)
}

/// The characters of a text.
fn chars_of(s: &str) -> (v: Vec<char>)
    ensures
        v@ == s@,
{
    let mut v: Vec<char> = Vec::new();
    for c in it: s.chars()
        invariant
            it.seq() == s@,
            v@ == s@.take(it.index()),
    {
        let ghost k = it.index();
        assert(c == s@[k]);
        v.push(c);
        assert(v@ =~= s@.take(k + 1));
    }
    assert(s@.take(s@.len() as int) =~= s@);
    v
}

/// Whether `needle` occurs in `hay` (`str::contains` for a text).
pub fn contains(hay: &str, needle: &str) -> (b: bool)
    ensures
        b == contains_spec(hay@, needle@),
{
    let h = chars_of(hay);
    let n = chars_of(needle);
    if n.len() > h.len() {
        proof {
            assert forall|i: int| !occurs_at(hay@, needle@, i) by {}
        }
        return false;
    }
    let mut i: usize = 0;
    let last = h.len() - n.len();
    while i <= last
        invariant
            h@ == hay@,
            n@ == needle@,
            n@.len() <= h@.len(),
            last == h@.len() - n@.len(),
            h@.len() <= usize::MAX,
            i <= last + 1,
            forall|j: int| 0 <= j < i ==> !#[trigger] occurs_at(hay@, needle@, j),
        decreases h@.len() - i,
    {
        let mut k: usize = 0;
        let mut same = true;
        while k < n.len()
            invariant
                h@ == hay@,
                n@ == needle@,
                i + n@.len() <= h@.len(),
                h@.len() <= usize::MAX,
                0 <= k <= n@.len(),
                same == forall|t: int| 0 <= t < k ==> h@[i + t] == n@[t],
            decreases n@.len() - k,
        {
            if h[i + k] != n[k] {
                same = false;
            }
            k = k + 1;
        }
        if same {
            assert(hay@.subrange(i as int, i + needle@.len()) =~= needle@);
            assert(occurs_at(hay@, needle@, i as int));
            return true;
        }
        proof {
            assert(!occurs_at(hay@, needle@, i as int)) by {
                if occurs_at(hay@, needle@, i as int) {
                    let t = choose|t: int| 0 <= t < n@.len() && h@[i + t] != n@[t];
                    assert(hay@.subrange(i as int, i + needle@.len())[t] == h@[i + t]);
                }
            }
        }
        i = i + 1;
    }
    proof {
        assert forall|j: int| !occurs_at(hay@, needle@, j) by {
            if j >= i {
                assert(j + needle@.len() > hay@.len());
            }
        }
    }
    false
}

/// The text export formats.
#[derive(Clone, Copy, Debug, PartialEq, Eq, Structural)]
pub enum ExportFormat {
    Csv,
    Json,
    Text,
}

/// One CSV line of a row: path, line label and full text as fields.
pub open spec fn csv_line(r: ResultRow) -> Seq<char> {
    csv_spec(r.path_display@) + seq![','] + csv_spec(r.line_label@) + seq![','] + csv_spec(r.full_text@) + seq!['\n']
}

/// One plain-text line of a row: `path:line: preview`.
pub open spec fn text_line(r: ResultRow) -> Seq<char> {
    r.path_display@ + seq![':'] + r.line_label@ + seq![':', ' '] + r.preview@ + seq!['\n']
}

/// The lines of the rows at `idx`, in order.
pub open spec fn export_lines(rows: Seq<ResultRow>, idx: Seq<usize>, csv: bool) -> Seq<char>
    decreases idx.len(),
{
    if idx.len() == 0 {
        seq![]
    } else {
        let r = rows[idx.last() as int];
        export_lines(rows, idx.drop_last(), csv) + if csv { csv_line(r) } else { text_line(r) }
    }
}

/// The text `serde_json::to_string_pretty` gives for a JSON array with one
/// object per triple, whose string members `path`, `line` and `text` hold
/// the triple's three texts.
pub uninterp spec fn json_rows_text(rows: Seq<(Seq<char>, Seq<char>, Seq<char>)>) -> Seq<char>;

/// The views of string triples.
pub open spec fn triple_views(rows: Seq<(String, String, String)>) -> Seq<(Seq<char>, Seq<char>, Seq<char>)> {
    rows.map_values(|t: (String, String, String)| (t.0@, t.1@, t.2@))
}

/// `serde_json::to_string_pretty` of an array of `{"path", "line", "text"}`
/// objects built with `serde_json::Map` and `Value::String`, one per triple
/// (an empty text should serialisation fail): exactly [`json_rows_text`].
#[verifier::external_body]
fn json_rows(rows: &Vec<(String, String, String)>) -> (r: String)
    ensures
        r@ == json_rows_text(triple_views(rows@)),
{
    let mut arr: Vec<serde_json::Value> = Vec::new();
    for (p, l, t) in rows {
        let mut m = serde_json::Map::new();
        m.insert("path".to_string(), serde_json::Value::String(p.clone()));
        m.insert("line".to_string(), serde_json::Value::String(l.clone()));
        m.insert("text".to_string(), serde_json::Value::String(t.clone()));
        arr.push(serde_json::Value::Object(m));
    }
    serde_json::to_string_pretty(&arr).unwrap_or_default()
}

/// The path, line label and full text of the rows at `idx`, in order.
pub open spec fn json_triples(rows: Seq<ResultRow>, idx: Seq<usize>) -> Seq<(Seq<char>, Seq<char>, Seq<char>)> {
    idx.map_values(|i: usize| (rows[i as int].path_display@, rows[i as int].line_label@, rows[i as int].full_text@))
}

impl ResultsModel {
    /// The export of the rows at `idx` as CSV (a `path,line,text` header, then
    /// one line per row), as pretty-printed JSON (an array of objects with
    /// the members `path`, `line` and `text`), or as plain text (one line per
    /// row).
    pub fn export_text(&self, fmt: ExportFormat, idx: &Vec<usize>) -> (r: String)
        requires
            forall|k: int| 0 <= k < idx@.len() ==> (#[trigger] idx@[k]) < self.results@.len(),
        ensures
            match fmt {
                ExportFormat::Json => r@ == json_rows_text(json_triples(self.results@, idx@)),
                ExportFormat::Csv => r@ == "path,line,text\n"@ + export_lines(self.results@, idx@, true),
                ExportFormat::Text => r@ == export_lines(self.results@, idx@, false),
            },
    {
        let csv = match fmt {
            ExportFormat::Json => return self.export_json(idx),
            ExportFormat::Csv => true,
            ExportFormat::Text => false,
        };
        let mut s = String::new();
        if csv {
            s.append("path,line,text\n");
        }
        let ghost head = s@;
        for k in 0..idx.len()
            invariant
                forall|j: int| 0 <= j < idx@.len() ==> (#[trigger] idx@[j]) < self.results@.len(),
                s@ == head + export_lines(self.results@, idx@.take(k as int), csv),
        {
            let r = &self.results[idx[k]];
            let ghost before = s@;
            if csv {
                s.append(csv_field(r.path_display.as_str()).as_str());
                push_char(&mut s, ',');
                s.append(csv_field(r.line_label.as_str()).as_str());
                push_char(&mut s, ',');
                s.append(csv_field(r.full_text.as_str()).as_str());
                push_char(&mut s, '\n');
                assert(s@ =~= before + csv_line(*r));
            } else {
                s.append(r.path_display.as_str());
                push_char(&mut s, ':');
                s.append(r.line_label.as_str());
                push_char(&mut s, ':');
                push_char(&mut s, ' ');
                s.append(r.preview.as_str());
                push_char(&mut s, '\n');
                assert(s@ =~= before + text_line(*r));
            }
            assert(idx@.take(k + 1).drop_last() =~= idx@.take(k as int));
            assert(s@ =~= head + export_lines(self.results@, idx@.take(k + 1), csv));
        }
        assert(idx@.take(idx.len() as int) =~= idx@);
        s
    }

    /// The JSON export of the rows at `idx`.
    fn export_json(&self, idx: &Vec<usize>) -> (r: String)
        requires
            forall|k: int| 0 <= k < idx@.len() ==> (#[trigger] idx@[k]) < self.results@.len(),
        ensures
            r@ == json_rows_text(json_triples(self.results@, idx@)),
    {
        let mut rows: Vec<(String, String, String)> = Vec::new();
        for k in 0..idx.len()
            invariant
                forall|j: int| 0 <= j < idx@.len() ==> (#[trigger] idx@[j]) < self.results@.len(),
                triple_views(rows@) == json_triples(self.results@, idx@.take(k as int)),
        {
            let r = &self.results[idx[k]];
            let t = (r.path_display.clone(), r.line_label.clone(), r.full_text.clone());
            let ghost before = rows@;
            assert(t.0@ == r.path_display@ && t.1@ == r.line_label@ && t.2@ == r.full_text@);
            rows.push(t);
            proof {
                let want = json_triples(self.results@, idx@.take(k + 1));
                assert(want.len() == k + 1);
                assert(want[k as int] == (r.path_display@, r.line_label@, r.full_text@));
                assert forall|j: int| 0 <= j < k implies #[trigger] want[j] == json_triples(self.results@, idx@.take(k as int))[j] by {
                    assert(idx@.take(k + 1)[j] == idx@.take(k as int)[j]);
                }
                assert(triple_views(rows@) =~= triple_views(before).push(triple_views(rows@)[k as int]));
            }
            assert(triple_views(rows@) =~= json_triples(self.results@, idx@.take(k + 1)));
        }
        assert(idx@.take(idx.len() as int) =~= idx@);
        json_rows(&rows)
    }
}

/// The highlighted and plain byte ranges of a text after the first `n`
/// match spans, and where the last highlighted range ended: a span that
/// starts before that point is skipped; the gap before a span is plain.
pub open spec fn segments_upto(spans: Seq<(int, int)>, n: int) -> (Seq<(int, int, bool)>, int)
    decreases n,
{
    if n <= 0 {
        (seq![], 0)
    } else {
        let (segs, last) = segments_upto(spans, n - 1);
        let (s, e) = spans[n - 1];
        if s < last {
            (segs, last)
        } else {
            let gap = if s > last { segs.push((last, s, false)) } else { segs };
            (gap.push((s, e, true)), e)
        }
    }
}

/// The ranges a text of `len` bytes is shown in, given its match spans:
/// highlighted matches, plain gaps, and a plain tail after the last match.
pub open spec fn segments_spec(spans: Seq<(int, int)>, len: int) -> Seq<(int, int, bool)> {
    let (segs, last) = segments_upto(spans, spans.len() as int);
    if last < len { segs.push((last, len, false)) } else { segs }
}

/// The views of byte ranges.
pub open spec fn range_views(v: Seq<(usize, usize, bool)>) -> Seq<(int, int, bool)> {
    v.map_values(|x: (usize, usize, bool)| (x.0 as int, x.1 as int, x.2))
}

/// How a result preview is shown with the query's matches highlighted: the
/// byte ranges of `text`, each marked highlighted or plain (see
/// [`segments_spec`]).
pub fn highlight_segments(text: &str, re: &Pattern) -> (r: Vec<(usize, usize, bool)>)
    ensures
        range_views(r@) == segments_spec(
            regex_match_spans(re.source(), text@),
            byte_len(text@) as int,
        ),
{
    let spans = re.find_spans(text);
    let ghost sp = regex_match_spans(re.source(), text@);
    let mut out: Vec<(usize, usize, bool)> = Vec::new();
    let mut last: usize = 0;
    for i in 0..spans.len()
        invariant
            sp == regex_match_spans(re.source(), text@),
            spans@.len() == sp.len(),
            forall|k: int| 0 <= k < spans@.len() ==> (#[trigger] spans@[k]).0 == sp[k].0 && spans@[k].1 == sp[k].1,
            (range_views(out@), last as int) == segments_upto(sp, i as int),
    {
        let (s, e) = spans[i];
        let ghost before = out@;
        if s >= last {
            if s > last {
                out.push((last, s, false));
            }
            out.push((s, e, true));
            last = e;
        }
        proof {
            let (segs, l0) = segments_upto(sp, i as int);
            assert(sp[i as int] == (s as int, e as int));
            if s >= l0 {
                let gap = if s > l0 { segs.push((l0, s as int, false)) } else { segs };
                assert(range_views(out@) =~= gap.push((s as int, e as int, true)));
            } else {
                assert(out@ == before);
            }
        }
    }
    let n = text.as_bytes().len();
    if last < n {
        out.push((last, n, false));
    }
    assert(range_views(out@) =~= segments_spec(sp, byte_len(text@) as int));
    out
}

} // verus!
