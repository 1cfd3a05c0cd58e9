//! Searching text that is already in memory: one hit per matching line, or
//! one hit per matching block.
use vstd::prelude::*;
use vstd::string::*;
use vstd::utf8::{decode_utf8, encode_utf8, valid_utf8};
use crate::matcher::grep_matches;
use crate::model::Match;
use crate::query::{satisfies, CompiledQuery};
use crate::split::{block_end, block_starts, lemma_newline_ends_bounds, newline_ends, lemma_block_starts_bounds, lemma_line_ends_bounds, lemma_line_ends_monotone, is_block_unit, is_line_unit, line_ends, line_piece, piece_start, trim_end_crlf, trim_end_crlf_spec, BlockSplitter, LineSplitter};
use crate::strings::{push_char, split_chars, split_spec, lemma_split_nonempty};
use crate::text::{byte_len, lossy_utf8, lemma_byte_len_grows, strip_eol, strip_eol_spec, utf8_lossy};

verus! {

/// The number of characters of a block kept for display.
pub const BLOCK_DISPLAY_CAP: usize = 2000;

/// What a hit says: path, first line, last line, byte offset, text and the
/// line that matched.
pub type MatchView = (Seq<char>, u64, u64, u64, Seq<char>, u64);

/// The view of a hit.
pub open spec fn match_view(m: Match) -> MatchView {
    (m.path@, m.line_start, m.line_end, m.byte_offset, m.text@, m.matched_line)
}

/// The views of a run of hits.
pub open spec fn match_views(ms: Seq<Match>) -> Seq<MatchView> {
    ms.map_values(|m: Match| match_view(m))
}

/// Whether the text `t` satisfies the compiled query: every required term and
/// no excluded one, on its UTF-8 bytes.
pub open spec fn unit_ok(c: CompiledQuery, t: Seq<char>) -> bool {
    satisfies(c.required_sources(), c.excluded_sources(), c.flags(), encode_utf8(t))
}

/// Whether the text `t` matches the query's primary term.
pub open spec fn primary_ok(c: CompiledQuery, t: Seq<char>) -> bool {
    grep_matches(c.primary_source(), c.flags().0, c.flags().1, encode_utf8(t))
}

/// The hits of line mode among the first `n` lines of `s`: one per line
/// whose text (without its terminator) satisfies the query, numbered from 1,
/// with the byte offset of the line's start.
pub open spec fn line_hits(c: CompiledQuery, path: Seq<char>, s: Seq<char>, n: int) -> Seq<MatchView>
    decreases n,
{
    if n <= 0 {
        seq![]
    } else {
        let prev = line_hits(c, path, s, n - 1);
        let j = n - 1;
        let t = strip_eol_spec(line_piece(s, j));
        if unit_ok(c, t) {
            let off = byte_len(s.take(piece_start(line_ends(s), j))) as u64;
            prev.push((path, n as u64, n as u64, off, t, n as u64))
        } else {
            prev
        }
    }
}

/// The index of the first of the first `n` pieces that matches the primary
/// term (each piece without a trailing `'\r'`), if any.
pub open spec fn first_primary(c: CompiledQuery, pieces: Seq<Seq<char>>, n: int) -> Option<int>
    decreases n,
{
    if n <= 0 {
        None
    } else {
        match first_primary(c, pieces, n - 1) {
            Some(i) => Some(i),
            None => if primary_ok(c, strip_eol_spec(pieces[n - 1])) {
                Some(n - 1)
            } else {
                None
            },
        }
    }
}

/// The line of a block that is reported as matched: the first line of its
/// text that matches the primary term, else the block's first line.
pub open spec fn matched_line_spec(c: CompiledQuery, line_start: u64, t: Seq<char>) -> u64 {
    let pieces = split_spec(t, seq!['\n']);
    match first_primary(c, pieces, pieces.len() as int) {
        Some(i) => (line_start + i) as u64,
        None => line_start,
    }
}

/// A block's text as displayed: its first [`BLOCK_DISPLAY_CAP`] characters,
/// followed by `'…'` when some were cut.
pub open spec fn display_spec(t: Seq<char>) -> Seq<char> {
    if t.len() > BLOCK_DISPLAY_CAP {
        t.take(BLOCK_DISPLAY_CAP as int).push('…')
    } else {
        t
    }
}

/// The text of block `j` of `s` described by `starts`.
pub open spec fn block_text(s: Seq<char>, starts: Seq<int>, j: int) -> Seq<char> {
    let ends = line_ends(s);
    trim_end_crlf_spec(s.subrange(piece_start(ends, starts[j]), piece_start(ends, block_end(starts, j, ends.len() as int))))
}

/// The hits of block mode among the first `n` blocks described by `starts`:
/// one per block whose whole text satisfies the query.
pub open spec fn block_hits(c: CompiledQuery, path: Seq<char>, s: Seq<char>, starts: Seq<int>, n: int) -> Seq<MatchView>
    decreases n,
{
    if n <= 0 {
        seq![]
    } else {
        let prev = block_hits(c, path, s, starts, n - 1);
        let j = n - 1;
        let ends = line_ends(s);
        let t = block_text(s, starts, j);
        if unit_ok(c, t) {
            let first = (starts[j] + 1) as u64;
            let last = block_end(starts, j, ends.len() as int) as u64;
            let off = byte_len(s.take(piece_start(ends, starts[j]))) as u64;
            prev.push((path, first, last, off, display_spec(t), matched_line_spec(c, first, t)))
        } else {
            prev
        }
    }
}

/// All block-mode hits of `s` under `splitter`.
pub open spec fn all_block_hits(c: CompiledQuery, splitter: BlockSplitter, path: Seq<char>, s: Seq<char>) -> Seq<MatchView> {
    let n = line_ends(s).len() as int;
    if n == 0 {
        seq![]
    } else {
        let starts = block_starts(splitter.line_flags(s), splitter.max_lines(), n);
        block_hits(c, path, s, starts, starts.len() as int)
    }
}

/// `split` on one character yields at most one more piece than there are
/// characters.
proof fn lemma_split_len(t: Seq<char>, d: Seq<char>)
    ensures
        split_spec(t, d).len() <= t.len() + 1,
    decreases t.len(),
{
    if t.len() > 0 {
        lemma_split_len(t.drop_last(), d);
        lemma_split_nonempty(t.drop_last(), d);
    }
}

/// Trimming never lengthens a text.
proof fn lemma_trim_len(t: Seq<char>)
    ensures
        trim_end_crlf_spec(t).len() <= t.len(),
    decreases t.len(),
{
    if t.len() > 0 && (t.last() == '\r' || t.last() == '\n') {
        lemma_trim_len(t.drop_last());
    }
}

/// A block's first line number and the length of its text are both
/// bounded by the length of the whole text.
proof fn lemma_block_bounds(s: Seq<char>, starts: Seq<int>, j: int)
    requires
        0 <= j < starts.len(),
        forall|i: int| 0 <= i < starts.len() ==> 0 <= #[trigger] starts[i] < line_ends(s).len(),
        forall|i: int, k: int| 0 <= i < k < starts.len() ==> starts[i] < starts[k],
    ensures
        starts[j] + 1 <= s.len(),
        block_text(s, starts, j).len() <= s.len(),
{
    let ends = line_ends(s);
    let n = ends.len() as int;
    let a = starts[j];
    let b = block_end(starts, j, n);
    lemma_line_ends_bounds(s);
    assert(a < b <= n);
    lemma_line_ends_monotone(s, a - 1, b - 1);
    assert(piece_start(ends, b) <= s.len()) by {
        if b > 0 {
            assert(ends[b - 1] <= s.len());
        }
    }
    lemma_trim_len(s.subrange(piece_start(ends, a), piece_start(ends, b)));
}

/// The line reported for a block: the first line of `text` (split on
/// `'\n'`, numbered from `line_start`) that matches the primary term, else
/// `line_start`.
pub fn first_matching_line(c: &CompiledQuery, line_start: u64, text: &str) -> (r: u64)
    requires
        c.wf(),
        line_start + text@.len() + 1 <= u64::MAX,
    ensures
        r == matched_line_spec(*c, line_start, text@),
{
    let pieces = split_chars(text, &['\n']);
    let ghost ps = split_spec(text@, seq!['\n']);
    proof {
        assert(seq!['\n'] =~= ['\n']@);
        lemma_split_len(text@, seq!['\n']);
        assert forall|i: int| 0 <= i < ps.len() implies ps[i] == #[trigger] pieces@[i]@ by {
            assert(pieces@.map_values(|w: &str| w@)[i] == pieces@[i]@);
        }
    }
    let mut k: usize = 0;
    while k < pieces.len()
        invariant
            c.wf(),
            ps == split_spec(text@, seq!['\n']),
            ps.len() == pieces@.len(),
            ps.len() <= text@.len() + 1,
            line_start + text@.len() + 1 <= u64::MAX,
            forall|i: int| 0 <= i < ps.len() ==> ps[i] == #[trigger] pieces@[i]@,
            0 <= k <= pieces.len(),
            first_primary(*c, ps, k as int) is None,
        decreases pieces.len() - k,
    {
        let line = strip_eol(pieces[k]);
        proof {
            c.lemma_primary();
        }
        if c.primary_matches(line.as_bytes()) {
            assert(first_primary(*c, ps, k + 1) == Some(k as int));
            proof {
                lemma_first_primary_stays(*c, ps, k + 1, ps.len() as int);
            }
            return line_start + k as u64;
        }
        k = k + 1;
    }
    line_start
}

/// Once a piece among the first `m` matches, the first match stays the same
/// for every longer prefix.
proof fn lemma_first_primary_stays(c: CompiledQuery, ps: Seq<Seq<char>>, m: int, n: int)
    requires
        0 <= m <= n,
        first_primary(c, ps, m) is Some,
    ensures
        first_primary(c, ps, n) == first_primary(c, ps, m),
    decreases n - m,
{
    if m < n {
        lemma_first_primary_stays(c, ps, m, n - 1);
    }
}

/// A block's text as displayed (see [`display_spec`]).
pub fn display_text(t: &str) -> (r: String)
    ensures
        r@ == display_spec(t@),
{
    let ghost q = t@;
    let mut out = String::new();
    let mut count: usize = 0;
    let total = t.as_bytes().len();
    proof {
        lemma_byte_len_grows(q, 0, 0);
    }
    for c in it: t.chars()
        invariant
            q == t@,
            q.len() <= total,
            it.seq() == q,
            count == it.index(),
            out@ == q.take(if count <= BLOCK_DISPLAY_CAP { count as int } else { BLOCK_DISPLAY_CAP as int }),
    {
        assert(c == q[count as int]);
        if count < BLOCK_DISPLAY_CAP {
            push_char(&mut out, c);
            assert(q.take(count + 1) =~= q.take(count as int).push(c));
        }
        count = count + 1;
    }
    if count > BLOCK_DISPLAY_CAP {
        push_char(&mut out, '…');
    } else {
        assert(q.take(count as int) =~= q);
    }
    out
}

/// The line-mode hits of `text` (the lines of `text.split_inclusive('\n')`),
/// reported for `path`.
pub fn search_text_lines(c: &CompiledQuery, path: &str, text: &str) -> (r: Vec<Match>)
    requires
        c.wf(),
    ensures
        match_views(r@) == line_hits(*c, path@, text@, line_ends(text@).len() as int),
{
    let ghost s = text@;
    let units = LineSplitter.split(text);
    let mut out: Vec<Match> = Vec::new();
    for i in 0..units.len()
        invariant
            c.wf(),
            s == text@,
            units.len() == line_ends(s).len(),
            forall|j: int| 0 <= j < units.len() ==> is_line_unit(s, line_ends(s), j, #[trigger] units[j]),
            match_views(out@) == line_hits(*c, path@, s, i as int),
    {
        let u = units[i];
        assert(is_line_unit(s, line_ends(s), i as int, u));
        assert(u.text@ == strip_eol_spec(line_piece(s, i as int)));
        if c.unit_matches(u.text.as_bytes()) {
            let m = Match {
                path: path.to_string(),
                line_start: u.line_start,
                line_end: u.line_end,
                byte_offset: u.byte_offset,
                text: u.text.to_string(),
                matched_line: u.line_start,
            };
            let ghost before = out@;
            out.push(m);
            assert(match_views(out@) =~= match_views(before).push(match_view(m)));
        }
    }
    out
}

/// The block-mode hits of `text` under `splitter`, reported for `path`.
pub fn search_text_blocks(c: &CompiledQuery, path: &str, splitter: &BlockSplitter, text: &str) -> (r: Vec<Match>)
    requires
        c.wf(),
        byte_len(text@) <= isize::MAX,
    ensures
        match_views(r@) == all_block_hits(*c, *splitter, path@, text@),
        line_ends(text@).len() > 0 ==> {
            let starts = block_starts(splitter.line_flags(text@), splitter.max_lines(), line_ends(text@).len() as int);
            forall|j: int| 0 <= j < starts.len() ==> (
                has_hit_at(match_views(r@), #[trigger] block_first_line(starts, j))
                    <==> unit_ok(*c, block_text(text@, starts, j)))
        },
{
    let ghost s = text@;
    let ghost n = line_ends(s).len() as int;
    let units = splitter.split(text);
    let ghost starts = block_starts(splitter.line_flags(s), splitter.max_lines(), n);
    let mut out: Vec<Match> = Vec::new();
    proof {
        lemma_byte_len_grows(s, 0, 0);
    }
    for i in 0..units.len()
        invariant
            c.wf(),
            s == text@,
            s.len() <= isize::MAX,
            n == line_ends(s).len(),
            starts == block_starts(splitter.line_flags(s), splitter.max_lines(), n),
            n == 0 ==> units.len() == 0,
            n > 0 ==> units.len() == starts.len(),
            n > 0 ==> forall|j: int| 0 <= j < units.len() ==> is_block_unit(s, starts, j, #[trigger] units[j]),
            match_views(out@) == block_hits(*c, path@, s, starts, i as int),
    {
        let u = units[i];
        assert(is_block_unit(s, starts, i as int, u));
        assert(u.text@ == block_text(s, starts, i as int));
        if c.unit_matches(u.text.as_bytes()) {
            proof {
                lemma_block_starts_bounds(splitter.line_flags(s), splitter.max_lines(), n);
                lemma_block_bounds(s, starts, i as int);
            }
            let shown = display_text(u.text);
            let ml = first_matching_line(c, u.line_start, u.text);
            let m = Match {
                path: path.to_string(),
                line_start: u.line_start,
                line_end: u.line_end,
                byte_offset: u.byte_offset,
                text: shown,
                matched_line: ml,
            };
            let ghost before = out@;
            out.push(m);
            assert(match_views(out@) =~= match_views(before).push(match_view(m)));
        }
    }
    proof {
        law_block_reported_iff_whole_block_matches(*c, *splitter, path@, s);
    }
    out
}

/// What line mode reports for a line that the line scanner found: nothing
/// unless the line's bytes satisfy the whole query; else a hit at
/// `line_number` (0 when unknown) and `byte_offset`, whose text is the line
/// decoded (invalid UTF-8 replaced) without trailing `'\r'`/`'\n'`.
pub fn line_hit(c: &CompiledQuery, path: &str, line_number: Option<u64>, byte_offset: u64, bytes: &[u8]) -> (r: Option<Match>)
    requires
        c.wf(),
    ensures
        r is Some <==> satisfies(c.required_sources(), c.excluded_sources(), c.flags(), bytes@),
        r matches Some(m) ==> {
            let ln = match line_number { Some(n) => n, None => 0u64 };
            &&& m.path@ == path@
            &&& m.line_start == ln
            &&& m.line_end == ln
            &&& m.matched_line == ln
            &&& m.byte_offset == byte_offset
            &&& m.text@ == trim_end_crlf_spec(lossy_utf8(bytes@))
            &&& (valid_utf8(bytes@) ==> m.text@ == trim_end_crlf_spec(decode_utf8(bytes@)))
        },
{
    if !c.unit_matches(bytes) {
        return None;
    }
    let ln = match line_number {
        Some(n) => n,
        None => 0,
    };
    let decoded = utf8_lossy(bytes);
    let text = trim_end_crlf(decoded.as_str());
    Some(Match {
        path: path.to_string(),
        line_start: ln,
        line_end: ln,
        byte_offset,
        text: text.to_string(),
        matched_line: ln,
    })
}

/// Block mode reads whole files into memory; larger files are skipped.
pub const MAX_BLOCK_FILE_BYTES: u64 = 256 * 1024 * 1024;

/// Block mode over a file's bytes: nothing (`None`) when a NUL among the
/// first [`BINARY_SNIFF`](crate::watch::BINARY_SNIFF) bytes marks the file
/// as binary; otherwise the block hits of the bytes decoded as UTF-8
/// (invalid sequences replaced, see [`lossy_utf8`]).
pub fn search_bytes_blocks(c: &CompiledQuery, path: &str, splitter: &BlockSplitter, bytes: &[u8]) -> (r: Option<Vec<Match>>)
    requires
        c.wf(),
        3 * bytes@.len() <= isize::MAX,
    ensures
        r is None <==> crate::watch::nul_within(bytes@, crate::watch::BINARY_SNIFF as int),
        r matches Some(hits) ==> match_views(hits@) == all_block_hits(*c, *splitter, path@, lossy_utf8(bytes@)),
        r matches Some(hits) ==> (valid_utf8(bytes@)
            ==> match_views(hits@) == all_block_hits(*c, *splitter, path@, decode_utf8(bytes@))),
{
    if crate::watch::has_nul(bytes, crate::watch::BINARY_SNIFF) {
        return None;
    }
    let text = utf8_lossy(bytes);
    Some(search_text_blocks(c, path, splitter, text.as_str()))
}

/// Every line-mode hit is a line that satisfies the query, its number is
/// a line of the text, and hits come in line order.
pub proof fn law_line_hits_satisfy(c: CompiledQuery, path: Seq<char>, s: Seq<char>, n: int)
    requires
        0 <= n <= line_ends(s).len(),
        line_ends(s).len() <= u64::MAX,
    ensures
        forall|k: int| 0 <= k < line_hits(c, path, s, n).len() ==> {
            let h = #[trigger] line_hits(c, path, s, n)[k];
            &&& 1 <= h.1 <= n
            &&& unit_ok(c, h.4)
            &&& h.4 == strip_eol_spec(line_piece(s, h.1 - 1))
            &&& h.0 == path
        },
        forall|k: int, l: int| 0 <= k < l < line_hits(c, path, s, n).len()
            ==> line_hits(c, path, s, n)[k].1 < line_hits(c, path, s, n)[l].1,
    decreases n,
{
    if n > 0 {
        law_line_hits_satisfy(c, path, s, n - 1);
        let prev = line_hits(c, path, s, n - 1);
        let t = strip_eol_spec(line_piece(s, n - 1));
        if unit_ok(c, t) {
            let off = byte_len(s.take(piece_start(line_ends(s), n - 1))) as u64;
            let h = (path, n as u64, n as u64, off, t, n as u64);
            let cur = prev.push(h);
            assert(line_hits(c, path, s, n) == cur);
            assert(h.1 == n);
            assert forall|k: int| 0 <= k < cur.len() implies {
                let x = #[trigger] cur[k];
                &&& 1 <= x.1 <= n
                &&& unit_ok(c, x.4)
                &&& x.4 == strip_eol_spec(line_piece(s, x.1 - 1))
                &&& x.0 == path
            } by {
                if k < prev.len() {
                    assert(cur[k] == prev[k]);
                }
            }
            assert forall|k: int, l: int| 0 <= k < l < cur.len() implies cur[k].1 < cur[l].1 by {
                assert(cur[k] == prev[k]);
                if l < prev.len() {
                    assert(cur[l] == prev[l]);
                }
            }
        }
    }
}


/// The number of `'\n'` characters in `t`.
pub open spec fn newline_count(t: Seq<char>) -> nat
    decreases t.len(),
{
    if t.len() == 0 {
        0
    } else {
        newline_count(t.drop_last()) + if t.last() == '\n' { 1nat } else { 0nat }
    }
}

/// Splitting on `'\n'` yields one piece more than there are newlines.
proof fn lemma_split_count(t: Seq<char>)
    ensures
        split_spec(t, seq!['\n']).len() == newline_count(t) + 1,
    decreases t.len(),
{
    if t.len() > 0 {
        lemma_split_count(t.drop_last());
        lemma_split_nonempty(t.drop_last(), seq!['\n']);
        if t.last() == '\n' {
            assert(seq!['\n'][0] == '\n');
        }
    }
}

/// Newlines of a concatenation add up.
proof fn lemma_count_concat(u: Seq<char>, v: Seq<char>)
    ensures
        newline_count(u + v) == newline_count(u) + newline_count(v),
    decreases v.len(),
{
    if v.len() > 0 {
        lemma_count_concat(u, v.drop_last());
        assert((u + v).drop_last() =~= u + v.drop_last());
    }
}

/// Trimming trailing `'\r'`/`'\n'` removes newlines only, and removes a
/// final one.
proof fn lemma_trim_count(t: Seq<char>)
    ensures
        newline_count(trim_end_crlf_spec(t)) <= newline_count(t),
        t.len() > 0 && t.last() == '\n' ==> newline_count(trim_end_crlf_spec(t)) + 1 <= newline_count(t),
    decreases t.len(),
{
    if t.len() > 0 && (t.last() == '\r' || t.last() == '\n') {
        lemma_trim_count(t.drop_last());
    }
}

/// The newlines before position `n` are those listed by `newline_ends`, and
/// the prefix up to the `j`-th of them holds `j + 1` newlines.
proof fn lemma_count_newline_ends(s: Seq<char>, n: int)
    requires
        0 <= n <= s.len(),
    ensures
        newline_count(s.take(n)) == newline_ends(s, n).len(),
        forall|j: int| 0 <= j < newline_ends(s, n).len()
            ==> newline_ends(s, #[trigger] newline_ends(s, n)[j]).len() == j + 1,
    decreases n,
{
    if n > 0 {
        lemma_count_newline_ends(s, n - 1);
        assert(s.take(n).drop_last() =~= s.take(n - 1));
        let e = newline_ends(s, n - 1);
        if s[n - 1] == '\n' {
            assert forall|j: int| 0 <= j < newline_ends(s, n).len()
                implies newline_ends(s, #[trigger] newline_ends(s, n)[j]).len() == j + 1 by {
                if j < e.len() {
                    assert(newline_ends(s, n)[j] == e[j]);
                }
            }
        }
    }
}

/// Line `j` starts after exactly `j` newlines, and ends after `j + 1` of
/// them when it ends with one, else after `j`.
proof fn lemma_count_lines(s: Seq<char>, j: int)
    requires
        0 <= j < line_ends(s).len(),
    ensures
        newline_count(s.take(piece_start(line_ends(s), j))) == j,
        newline_count(s.take(line_ends(s)[j]))
            == if s[line_ends(s)[j] - 1] == '\n' { j + 1 } else { j },
{
    let n = s.len() as int;
    let e = newline_ends(s, n);
    let l = line_ends(s);
    lemma_count_newline_ends(s, n);
    lemma_newline_ends_bounds(s, n);
    lemma_line_ends_bounds(s);
    assert(s.take(0) =~= Seq::<char>::empty());
    assert(s.take(n) =~= s);
    if j > 0 {
        assert(l[j - 1] == e[j - 1]);
        lemma_count_newline_ends(s, e[j - 1]);
    }
    if j < e.len() {
        assert(l[j] == e[j]);
        lemma_count_newline_ends(s, e[j]);
    } else {
        assert(l[j] == n);
        assert(s.last() != '\n');
    }
}

/// A first primary match among `n` pieces is one of them.
proof fn lemma_first_primary_bound(c: CompiledQuery, ps: Seq<Seq<char>>, n: int)
    ensures
        first_primary(c, ps, n) matches Some(i) ==> 0 <= i < n,
    decreases n,
{
    if n > 0 {
        lemma_first_primary_bound(c, ps, n - 1);
    }
}

/// The text of lines `a..b`, trimmed, holds fewer newlines than lines.
proof fn lemma_lines_text_count(s: Seq<char>, a: int, b: int)
    requires
        0 <= a < b <= line_ends(s).len(),
    ensures
        newline_count(trim_end_crlf_spec(s.subrange(piece_start(line_ends(s), a), piece_start(line_ends(s), b))))
            + 1 <= b - a,
{
    let l = line_ends(s);
    let pa = piece_start(l, a);
    let pb = piece_start(l, b);
    assert(0 <= pa < pb <= s.len()) by {
        lemma_line_ends_bounds(s);
        lemma_line_ends_monotone(s, a, b - 1);
        assert(pa < l[a]);
    }
    assert(pb == l[b - 1]);
    let raw = s.subrange(pa, pb);
    assert(newline_count(raw) == newline_count(s.take(pb)) - newline_count(s.take(pa))) by {
        assert(s.take(pb) =~= s.take(pa) + raw);
        lemma_count_concat(s.take(pa), raw);
    }
    assert(newline_count(s.take(pa)) == a) by {
        lemma_count_lines(s, a);
    }
    let cb = newline_count(s.take(pb));
    assert(cb == if s[pb - 1] == '\n' { b } else { b - 1 }) by {
        lemma_count_lines(s, b - 1);
    }
    lemma_trim_count(raw);
    if s[pb - 1] == '\n' {
        assert(raw.last() == s[pb - 1]);
    }
}

/// The matched line reported for a block lies within the block.
proof fn lemma_block_matched_line(c: CompiledQuery, s: Seq<char>, starts: Seq<int>, j: int)
    requires
        0 <= j < starts.len(),
        s.len() < u64::MAX,
        forall|i: int| 0 <= i < starts.len() ==> 0 <= #[trigger] starts[i] < line_ends(s).len(),
        forall|i: int, k: int| 0 <= i < k < starts.len() ==> starts[i] < starts[k],
    ensures
        ({
            let first = (starts[j] + 1) as u64;
            let last = block_end(starts, j, line_ends(s).len() as int) as u64;
            &&& first <= matched_line_spec(c, first, block_text(s, starts, j))
            &&& matched_line_spec(c, first, block_text(s, starts, j)) <= last
        }),
{
    let n = line_ends(s).len() as int;
    let a = starts[j];
    let b = block_end(starts, j, n);
    lemma_line_ends_bounds(s);
    assert(a < b <= n);
    lemma_lines_text_count(s, a, b);
    let t = block_text(s, starts, j);
    lemma_split_count(t);
    let ps = split_spec(t, seq!['\n']);
    lemma_first_primary_bound(c, ps, ps.len() as int);
}

/// The block hits among the first `m` blocks report a matched line within
/// their block.
proof fn lemma_block_hits_within(c: CompiledQuery, path: Seq<char>, s: Seq<char>, starts: Seq<int>, m: int)
    requires
        0 <= m <= starts.len(),
        s.len() < u64::MAX,
        forall|i: int| 0 <= i < starts.len() ==> 0 <= #[trigger] starts[i] < line_ends(s).len(),
        forall|i: int, k: int| 0 <= i < k < starts.len() ==> starts[i] < starts[k],
    ensures
        forall|k: int| 0 <= k < block_hits(c, path, s, starts, m).len() ==> {
            let h = #[trigger] block_hits(c, path, s, starts, m)[k];
            h.1 <= h.5 <= h.2
        },
    decreases m,
{
    if m > 0 {
        lemma_block_hits_within(c, path, s, starts, m - 1);
        lemma_block_matched_line(c, s, starts, m - 1);
        let prev = block_hits(c, path, s, starts, m - 1);
        let cur = block_hits(c, path, s, starts, m);
        assert forall|k: int| 0 <= k < cur.len() implies {
            let h = #[trigger] cur[k];
            h.1 <= h.5 <= h.2
        } by {
            if k < prev.len() {
                assert(cur[k] == prev[k]);
            }
        }
    }
}

/// Every block-mode hit reports as its matched line one of the block's own
/// lines: between its first and its last line.
pub proof fn law_block_matched_line_within(c: CompiledQuery, splitter: BlockSplitter, path: Seq<char>, s: Seq<char>)
    requires
        s.len() < u64::MAX,
    ensures
        forall|k: int| 0 <= k < all_block_hits(c, splitter, path, s).len() ==> {
            let h = #[trigger] all_block_hits(c, splitter, path, s)[k];
            &&& h.1 <= h.5
            &&& h.5 <= h.2
        },
{
    let n = line_ends(s).len() as int;
    if n > 0 {
        let starts = block_starts(splitter.line_flags(s), splitter.max_lines(), n);
        lemma_block_starts_bounds(splitter.line_flags(s), splitter.max_lines(), n);
        lemma_block_hits_within(c, path, s, starts, starts.len() as int);
    }
}


/// Some hit of `hits` starts at line `line`.
pub open spec fn has_hit_at(hits: Seq<MatchView>, line: u64) -> bool {
    exists|k: int| 0 <= k < hits.len() && (#[trigger] hits[k]).1 == line
}

/// The first line number of block `j`.
pub open spec fn block_first_line(starts: Seq<int>, j: int) -> u64 {
    (starts[j] + 1) as u64
}

/// `h` starts at the first line of one of the first `m` blocks, one whose
/// whole text satisfies the query.
pub open spec fn from_matching_block(h: MatchView, c: CompiledQuery, s: Seq<char>, starts: Seq<int>, m: int) -> bool {
    exists|j: int| 0 <= j < m && h.1 == block_first_line(starts, j) && #[trigger] unit_ok(c, block_text(s, starts, j))
}

/// Among the first `m` blocks, the hits start exactly at the blocks whose
/// whole text satisfies the query.
proof fn lemma_block_hits_cover(c: CompiledQuery, path: Seq<char>, s: Seq<char>, starts: Seq<int>, m: int)
    requires
        0 <= m <= starts.len(),
    ensures
        forall|k: int| 0 <= k < block_hits(c, path, s, starts, m).len()
            ==> from_matching_block(#[trigger] block_hits(c, path, s, starts, m)[k], c, s, starts, m),
        forall|j: int| 0 <= j < m && unit_ok(c, #[trigger] block_text(s, starts, j))
            ==> has_hit_at(block_hits(c, path, s, starts, m), block_first_line(starts, j)),
    decreases m,
{
    if m > 0 {
        lemma_block_hits_cover(c, path, s, starts, m - 1);
        let prev = block_hits(c, path, s, starts, m - 1);
        let cur = block_hits(c, path, s, starts, m);
        let t = block_text(s, starts, m - 1);
        assert forall|k: int| 0 <= k < prev.len() implies from_matching_block(#[trigger] prev[k], c, s, starts, m) by {
            assert(from_matching_block(prev[k], c, s, starts, m - 1));
            let j = choose|j: int| 0 <= j < m - 1 && prev[k].1 == block_first_line(starts, j)
                && #[trigger] unit_ok(c, block_text(s, starts, j));
            assert(0 <= j < m && prev[k].1 == block_first_line(starts, j) && unit_ok(c, block_text(s, starts, j)));
        }
        if unit_ok(c, t) {
            assert(cur == prev.push(cur.last()));
            assert(cur.last().1 == block_first_line(starts, m - 1));
            assert forall|k: int| 0 <= k < cur.len() implies from_matching_block(#[trigger] cur[k], c, s, starts, m) by {
                if k < prev.len() {
                    assert(cur[k] == prev[k]);
                    assert(from_matching_block(prev[k], c, s, starts, m));
                } else {
                    assert(k == prev.len());
                    assert(cur[k].1 == block_first_line(starts, m - 1) && unit_ok(c, block_text(s, starts, m - 1)));
                }
            }
            assert forall|j: int| 0 <= j < m && unit_ok(c, #[trigger] block_text(s, starts, j))
                implies has_hit_at(cur, block_first_line(starts, j)) by {
                if j < m - 1 {
                    assert(has_hit_at(prev, block_first_line(starts, j)));
                    let k = choose|k: int| 0 <= k < prev.len() && (#[trigger] prev[k]).1 == block_first_line(starts, j);
                    assert(cur[k] == prev[k]);
                } else {
                    assert(cur[prev.len() as int].1 == block_first_line(starts, j));
                }
            }
        } else {
            assert(cur == prev);
            assert forall|j: int| 0 <= j < m && unit_ok(c, #[trigger] block_text(s, starts, j))
                implies has_hit_at(cur, block_first_line(starts, j)) by {
                if j == m - 1 {
                    assert(false);
                }
            }
        }
    }
}

/// In block mode a block is reported exactly when its whole text (not the
/// part kept for display) satisfies the query: for every block, some hit
/// starts at its first line if and only if the block's full text matches.
pub proof fn law_block_reported_iff_whole_block_matches(c: CompiledQuery, splitter: BlockSplitter, path: Seq<char>, s: Seq<char>)
    requires
        s.len() < u64::MAX,
    ensures
        line_ends(s).len() > 0 ==> {
            let starts = block_starts(splitter.line_flags(s), splitter.max_lines(), line_ends(s).len() as int);
            forall|j: int| 0 <= j < starts.len() ==> (
                has_hit_at(all_block_hits(c, splitter, path, s), #[trigger] block_first_line(starts, j))
                    <==> unit_ok(c, block_text(s, starts, j)))
        },
{
    let n = line_ends(s).len() as int;
    if n > 0 {
        let starts = block_starts(splitter.line_flags(s), splitter.max_lines(), n);
        lemma_block_starts_bounds(splitter.line_flags(s), splitter.max_lines(), n);
        lemma_line_ends_bounds(s);
        lemma_block_hits_cover(c, path, s, starts, starts.len() as int);
        let hits = all_block_hits(c, splitter, path, s);
        assert forall|j: int| 0 <= j < starts.len() implies (
            has_hit_at(hits, #[trigger] block_first_line(starts, j)) <==> unit_ok(c, block_text(s, starts, j))) by {
            if has_hit_at(hits, block_first_line(starts, j)) {
                let k = choose|k: int| 0 <= k < hits.len() && (#[trigger] hits[k]).1 == block_first_line(starts, j);
                assert(from_matching_block(hits[k], c, s, starts, starts.len() as int));
                let j2 = choose|j2: int| 0 <= j2 < starts.len()
                    && hits[k].1 == block_first_line(starts, j2)
                    && #[trigger] unit_ok(c, block_text(s, starts, j2));
                if j2 != j {
                    if j2 < j {
                        assert(starts[j2] < starts[j]);
                    } else {
                        assert(starts[j] < starts[j2]);
                    }
                }
            }
        }
    }
}

} // verus!
