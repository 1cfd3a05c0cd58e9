//! Watch mode's line tailing: for each watched file, how far it has been read
//! and how many lines precede that point, and what a newly read chunk adds.
//!
//! A growing log streams only its new complete lines; a shrunk file
//! (truncation or rotation) is read again from the start.
use vstd::prelude::*;
use vstd::string::*;
use vstd::utf8::{decode_utf8, valid_utf8};
use crate::model::Match;
use crate::query::CompiledQuery;
use crate::scan::{match_view, match_views, unit_ok, MatchView};
use crate::split::{line_ends, line_piece, newline_ends, piece_start, is_line_unit, LineSplitter};
use crate::strings::str_eq;
use crate::text::{byte_len, lossy_utf8, strip_eol_spec, utf8_lossy};

verus! {

/// Bytes sniffed for a NUL when deciding that a file is binary.
pub const BINARY_SNIFF: usize = 8192;

/// How far a file has been read, and how many lines precede that point.
#[derive(Clone, Copy, Debug, PartialEq, Eq, Structural)]
pub struct FileState {
    pub offset: u64,
    pub line_base: u64,
}

/// Where to read a file from, and whether its earlier hits must be cleared
/// first.
#[derive(Clone, Copy, Debug, PartialEq, Eq, Structural)]
pub struct TailStart {
    /// Drop the file's earlier hits before reporting new ones.
    pub clear: bool,
    /// The byte offset to read from.
    pub start: u64,
    /// The number of lines before `start`.
    pub line_base: u64,
}

/// The tailing state of every watched file, by path.
pub struct Tails {
    files: Vec<(String, FileState)>,
}

/// Whether `p` has an entry in `fs`.
pub open spec fn has_path(fs: Seq<(String, FileState)>, p: Seq<char>) -> bool {
    exists|i: int| 0 <= i < fs.len() && (#[trigger] fs[i]).0@ == p
}

/// The entry of `p` in `fs`, when it has one.
pub open spec fn entry_of(fs: Seq<(String, FileState)>, p: Seq<char>) -> int {
    choose|i: int| 0 <= i < fs.len() && (#[trigger] fs[i]).0@ == p
}

/// No path has two entries.
pub open spec fn distinct_paths(fs: Seq<(String, FileState)>) -> bool {
    forall|i: int, j: int| 0 <= i < j < fs.len() ==> fs[i].0@ != fs[j].0@
}

/// With distinct paths, the entry of a path is where it sits.
proof fn lemma_entry_unique(fs: Seq<(String, FileState)>, p: Seq<char>, i: int)
    requires
        distinct_paths(fs),
        0 <= i < fs.len(),
        fs[i].0@ == p,
    ensures
        entry_of(fs, p) == i,
{
    assert(has_path(fs, p));
    let c = entry_of(fs, p);
    if c < i {
        assert(fs[c].0@ != fs[i].0@);
    } else if c > i {
        assert(fs[i].0@ != fs[c].0@);
    }
}

/// The state a map of entries describes.
pub open spec fn state_map(fs: Seq<(String, FileState)>) -> Map<Seq<char>, FileState> {
    Map::new(|p: Seq<char>| has_path(fs, p), |p: Seq<char>| fs[entry_of(fs, p)].1)
}

/// Where reading resumes for a file of `size` bytes whose state is `prev`
/// (`None` when it has not been seen): an unseen file is read from the start
/// and its earlier hits cleared; a file that shrank below the offset is read
/// from the start and cleared; otherwise reading resumes at the offset.
pub open spec fn begin_spec(prev: Option<FileState>, size: u64) -> TailStart {
    match prev {
        None => TailStart { clear: true, start: 0, line_base: 0 },
        Some(st) => if size < st.offset {
            TailStart { clear: true, start: 0, line_base: 0 }
        } else {
            TailStart { clear: false, start: st.offset, line_base: st.line_base }
        },
    }
}

impl Tails {
    /// Every path has at most one entry.
    pub closed spec fn wf(&self) -> bool {
        distinct_paths(self.files@)
    }

    /// The state of each watched file.
    pub closed spec fn view(&self) -> Map<Seq<char>, FileState> {
        state_map(self.files@)
    }

    /// No file seen yet.
    pub fn new() -> (t: Tails)
        ensures
            t.wf(),
            t.view() == Map::<Seq<char>, FileState>::empty(),
    {
        let t = Tails { files: Vec::new() };
        assert(t.view() =~= Map::<Seq<char>, FileState>::empty());
        t
    }

    /// The index of `path`'s entry, if any.
    fn find(&self, path: &str) -> (r: Option<usize>)
        requires
            self.wf(),
        ensures
            r is Some <==> has_path(self.files@, path@),
            r matches Some(i) ==> i < self.files@.len() && self.files@[i as int].0@ == path@
                && entry_of(self.files@, path@) == i,
    {
        let mut i: usize = 0;
        while i < self.files.len()
            invariant
                self.wf(),
                0 <= i <= self.files@.len(),
                forall|j: int| 0 <= j < i ==> (#[trigger] self.files@[j]).0@ != path@,
            decreases self.files@.len() - i,
        {
            if str_eq(self.files[i].0.as_str(), path) {
                proof {
                    lemma_entry_unique(self.files@, path@, i as int);
                }
                return Some(i);
            }
            i = i + 1;
        }
        None
    }

    /// The state of `path`, if it has been seen.
    pub fn get(&self, path: &str) -> (r: Option<FileState>)
        requires
            self.wf(),
        ensures
            r is Some <==> self.view().contains_key(path@),
            r matches Some(st) ==> st == self.view()[path@],
    {
        match self.find(path) {
            Some(i) => Some(self.files[i].1),
            None => None,
        }
    }

    /// Records the state of `path`.
    pub fn set(&mut self, path: &str, st: FileState)
        requires
            old(self).wf(),
        ensures
            final(self).wf(),
            final(self).view() == old(self).view().insert(path@, st),
    {
        let ghost before = self.files@;
        match self.find(path) {
            Some(i) => {
                let key = self.files[i].0.clone();
                self.files.set(i, (key, st));
                proof {
                    let now = self.files@;
                    assert forall|j: int| 0 <= j < now.len() implies (#[trigger] now[j]).0@ == before[j].0@ by {}
                    assert forall|p: Seq<char>| has_path(now, p) == has_path(before, p) by {
                        if has_path(before, p) {
                            let j = entry_of(before, p);
                            assert(now[j].0@ == p);
                        }
                        if has_path(now, p) {
                            let j = entry_of(now, p);
                            assert(before[j].0@ == p);
                        }
                    }
                    assert forall|p: Seq<char>| has_path(now, p) implies #[trigger] now[entry_of(now, p)].1
                        == (if p == path@ { st } else { before[entry_of(before, p)].1 }) by {
                        let j = entry_of(now, p);
                        lemma_entry_unique(before, p, j);
                    }
                    assert(self.view() =~= old(self).view().insert(path@, st));
                }
            },
            None => {
                self.files.push((path.to_string(), st));
                proof {
                    let now = self.files@;
                    let n = before.len() as int;
                    assert forall|p: Seq<char>| has_path(now, p) == (has_path(before, p) || p == path@) by {
                        if has_path(before, p) {
                            let j = entry_of(before, p);
                            assert(now[j].0@ == p);
                        }
                        if p == path@ {
                            assert(now[n].0@ == p);
                        }
                        if has_path(now, p) {
                            let j = entry_of(now, p);
                            if j < n {
                                assert(before[j].0@ == p);
                            }
                        }
                    }
                    assert forall|p: Seq<char>| has_path(now, p) implies #[trigger] now[entry_of(now, p)].1
                        == (if p == path@ { st } else { before[entry_of(before, p)].1 }) by {
                        let j = entry_of(now, p);
                        if p == path@ {
                            lemma_entry_unique(now, p, n);
                        } else {
                            assert(j < n);
                            lemma_entry_unique(before, p, j);
                        }
                    }
                    assert(self.view() =~= old(self).view().insert(path@, st));
                }
            },
        }
    }

    /// Forgets `path`.
    pub fn remove(&mut self, path: &str)
        requires
            old(self).wf(),
        ensures
            final(self).wf(),
            final(self).view() == old(self).view().remove(path@),
    {
        let ghost before = self.files@;
        match self.find(path) {
            Some(i) => {
                self.files.remove(i);
                proof {
                    let now = self.files@;
                    assert forall|j: int| 0 <= j < now.len() implies (#[trigger] now[j]) == before[if j < i { j } else { j + 1 }] by {}
                    assert(distinct_paths(now)) by {
                        assert forall|a: int, b: int| 0 <= a < b < now.len() implies now[a].0@ != now[b].0@ by {
                            let a2 = if a < i { a } else { a + 1 };
                            let b2 = if b < i { b } else { b + 1 };
                            assert(now[a] == before[a2]);
                            assert(now[b] == before[b2]);
                        }
                    }
                    assert forall|p: Seq<char>| has_path(now, p) == (has_path(before, p) && p != path@) by {
                        if has_path(before, p) && p != path@ {
                            let j = entry_of(before, p);
                            assert(j != i);
                            if j < i {
                                assert(now[j].0@ == p);
                            } else {
                                assert(now[j - 1].0@ == p);
                            }
                        }
                        if has_path(now, p) {
                            let j = entry_of(now, p);
                            let j2 = if j < i { j } else { j + 1 };
                            assert(before[j2].0@ == p);
                            if p == path@ {
                                assert(j2 != i as int);
                                if j2 < i { assert(before[j2].0@ != before[i as int].0@); }
                                else { assert(before[i as int].0@ != before[j2].0@); }
                            }
                        }
                    }
                    assert forall|p: Seq<char>| has_path(now, p) implies #[trigger] now[entry_of(now, p)].1
                        == before[entry_of(before, p)].1 by {
                        let j = entry_of(now, p);
                        let j2 = if j < i { j } else { j + 1 };
                        assert(now[j] == before[j2]);
                        lemma_entry_unique(before, p, j2);
                    }
                    assert(self.view() =~= old(self).view().remove(path@));
                }
            },
            None => {
                assert(self.view() =~= old(self).view().remove(path@));
            },
        }
    }

    /// Where to read `path` (now `size` bytes) from (see [`begin_spec`]).
    /// A file seen for the first time is recorded as read up to nothing.
    pub fn begin(&mut self, path: &str, size: u64) -> (r: TailStart)
        requires
            old(self).wf(),
        ensures
            final(self).wf(),
            r == begin_spec(
                if old(self).view().contains_key(path@) { Some(old(self).view()[path@]) } else { None },
                size,
            ),
            final(self).view() == if old(self).view().contains_key(path@) {
                old(self).view()
            } else {
                old(self).view().insert(path@, FileState { offset: 0, line_base: 0 })
            },
    {
        match self.get(path) {
            None => {
                self.set(path, FileState { offset: 0, line_base: 0 });
                TailStart { clear: true, start: 0, line_base: 0 }
            },
            Some(st) => {
                if size < st.offset {
                    TailStart { clear: true, start: 0, line_base: 0 }
                } else {
                    TailStart { clear: false, start: st.offset, line_base: st.line_base }
                }
            },
        }
    }
}

/// Whether one of the first `n` bytes of `b` is NUL.
pub open spec fn nul_within(b: Seq<u8>, n: int) -> bool {
    exists|i: int| 0 <= i < n && i < b.len() && b[i] == 0
}

/// The position just past the last newline of `b`, if there is one.
pub open spec fn complete_end(b: Seq<u8>) -> Option<int> {
    if exists|i: int| 0 <= i < b.len() && b[i] == 10 {
        Some((choose|i: int| 0 <= i < b.len() && b[i] == 10 && forall|j: int| i < j < b.len() ==> b[j] != 10) + 1)
    } else {
        None
    }
}

/// The hits among the first `n` lines of the chunk text `s`, numbered after
/// `line_base` and placed after the byte offset `start`.
pub open spec fn chunk_hits(c: CompiledQuery, path: Seq<char>, s: Seq<char>, start: u64, line_base: u64, n: int) -> Seq<MatchView>
    decreases n,
{
    if n <= 0 {
        seq![]
    } else {
        let prev = chunk_hits(c, path, s, start, line_base, n - 1);
        let j = n - 1;
        let t = strip_eol_spec(line_piece(s, j));
        if unit_ok(c, t) {
            let ln = (line_base + n) as u64;
            let off = (start + byte_len(s.take(piece_start(line_ends(s), j)))) as u64;
            prev.push((path, ln, ln, off, t, ln))
        } else {
            prev
        }
    }
}

/// The index of the last newline among the first `k` bytes, if any.
fn last_newline(b: &[u8]) -> (r: Option<usize>)
    ensures
        r is Some <==> exists|i: int| 0 <= i < b@.len() && b@[i] == 10,
        r matches Some(i) ==> i < b@.len() && b@[i as int] == 10
            && forall|j: int| i < j < b@.len() ==> b@[j] != 10,
{
    let mut k: usize = b.len();
    while k > 0
        invariant
            k <= b@.len(),
            forall|j: int| k <= j < b@.len() ==> b@[j] != 10,
        decreases k,
    {
        if b[k - 1] == 10u8 {
            return Some(k - 1);
        }
        k = k - 1;
    }
    None
}

/// Whether one of the first `n` bytes of `b` is NUL.
pub fn has_nul(b: &[u8], n: usize) -> (r: bool)
    ensures
        r == nul_within(b@, n as int),
{
    let mut i: usize = 0;
    while i < n && i < b.len()
        invariant
            forall|j: int| 0 <= j < i && j < b@.len() ==> b@[j] != 0,
            i <= n,
        decreases n - i,
    {
        if b[i] == 0u8 {
            return true;
        }
        i = i + 1;
    }
    false
}

/// What a newly read chunk adds, for a file read from byte `start` with
/// `line_base` lines before it. Nothing (`None`) when the chunk is read from
/// the start and has a NUL among its first [`BINARY_SNIFF`] bytes (a binary
/// file), or when it holds no newline yet. Otherwise only the chunk up to its
/// last newline is taken (a trailing partial line may still be growing): the
/// hits among its lines, and the state after it.
#[verifier::rlimit(40)]
pub fn tail_chunk(c: &CompiledQuery, path: &str, start: u64, line_base: u64, buf: &[u8]) -> (r: Option<(Vec<Match>, FileState)>)
    requires
        c.wf(),
        start + 3 * buf@.len() <= u64::MAX,
        line_base + buf@.len() <= u64::MAX,
    ensures
        r is None <==> ((start == 0 && nul_within(buf@, BINARY_SNIFF as int)) || complete_end(buf@) is None),
        r matches Some((hits, st)) ==> {
            let end = complete_end(buf@)->0;
            &&& st.offset == start + end
            &&& {
                let s = lossy_utf8(buf@.take(end));
                &&& st.line_base == line_base + line_ends(s).len()
                &&& match_views(hits@) == chunk_hits(*c, path@, s, start, line_base, line_ends(s).len() as int)
            }
            &&& (valid_utf8(buf@.take(end)) ==> {
                let s = decode_utf8(buf@.take(end));
                &&& st.line_base == line_base + line_ends(s).len()
                &&& match_views(hits@) == chunk_hits(*c, path@, s, start, line_base, line_ends(s).len() as int)
            })
        },
{
    if start == 0 && has_nul(buf, BINARY_SNIFF) {
        return None;
    }
    let n = buf.len();
    let end = match last_newline(buf) {
        Some(i) => {
            assert(i < n);
            i + 1
        },
        None => return None,
    };
    proof {
        let b = buf@;
        let i = (end - 1) as int;
        assert(exists|i: int| 0 <= i < b.len() && b[i] == 10);
        let ch = choose|i: int| 0 <= i < b.len() && b[i] == 10 && forall|j: int| i < j < b.len() ==> b[j] != 10;
        if ch < i {
            assert(b[i] != 10);
        } else if ch > i {
            assert(b[ch] != 10);
        }
    }
    let chunk = vstd::slice::slice_subrange(buf, 0, end);
    assert(chunk@ =~= buf@.take(end as int));
    let text = utf8_lossy(chunk);
    let ghost s = text@;
    let units = LineSplitter.split(text.as_str());
    proof {
        crate::split::lemma_line_ends_bounds(s);
    }
    let mut out: Vec<Match> = Vec::new();
    let mut count: u64 = 0;
    for i in 0..units.len()
        invariant
            c.wf(),
            s == text@,
            units.len() == line_ends(s).len(),
            line_ends(s).len() <= s.len(),
            s.len() <= buf@.len(),
            byte_len(s) <= 3 * buf@.len(),
            start + 3 * buf@.len() <= u64::MAX,
            line_base + buf@.len() <= u64::MAX,
            forall|j: int| 0 <= j < line_ends(s).len()
                ==> 0 <= piece_start(line_ends(s), j) < #[trigger] line_ends(s)[j] <= s.len(),
            forall|j: int| 0 <= j < units.len() ==> is_line_unit(s, line_ends(s), j, #[trigger] units[j]),
            count == i,
            match_views(out@) == chunk_hits(*c, path@, s, start, line_base, i as int),
    {
        let u = units[i];
        assert(is_line_unit(s, line_ends(s), i as int, u));
        proof {
            let k = piece_start(line_ends(s), i as int);
            assert(0 <= k <= s.len()) by {
                assert(0 <= piece_start(line_ends(s), i as int) < line_ends(s)[i as int]);
            }
            crate::text::lemma_byte_len_grows(s, k, s.len() as int);
            assert(s.take(s.len() as int) =~= s);
        }
        count = count + 1;
        if c.unit_matches(u.text.as_bytes()) {
            let ln = line_base + count;
            let m = Match {
                path: path.to_string(),
                line_start: ln,
                line_end: ln,
                byte_offset: start + u.byte_offset,
                text: u.text.to_string(),
                matched_line: ln,
            };
            let ghost before = out@;
            out.push(m);
            assert(match_views(out@) =~= match_views(before).push(match_view(m)));
        }
    }
    Some((out, FileState { offset: start + end as u64, line_base: line_base + count }))
}

/// The kinds of file-system change that watch mode is told about.
#[derive(Clone, Copy, Debug, PartialEq, Eq, Structural)]
pub enum ChangeKind {
    /// A file was removed.
    Remove,
    /// A file was created.
    Create,
    /// A file's content changed.
    ModifyData,
    /// A file changed in an unspecified way.
    ModifyAny,
    /// A file changed in some other way.
    ModifyOther,
    /// A file was renamed (the event names the old and the new path).
    ModifyName,
    /// Only a file's metadata changed.
    ModifyMetadata,
    /// A file was accessed.
    Access,
    /// Anything else.
    Other,
}

/// What watch mode does for a path named by a change.
#[derive(Clone, Copy, Debug, PartialEq, Eq, Structural)]
pub enum ChangeAction {
    /// Forget the file and drop its hits.
    Remove,
    /// Read the file again.
    Rescan,
    /// Nothing: the content did not change.
    Ignore,
}

/// The action for a path named by a change of kind `k`; for a rename, a
/// path that is now a file is read again and one that is not is forgotten.
pub fn change_action(k: ChangeKind, is_file: bool) -> (a: ChangeAction)
    ensures
        a == match k {
            ChangeKind::Remove => ChangeAction::Remove,
            ChangeKind::Create | ChangeKind::ModifyData | ChangeKind::ModifyAny | ChangeKind::ModifyOther
                => ChangeAction::Rescan,
            ChangeKind::ModifyName => if is_file { ChangeAction::Rescan } else { ChangeAction::Remove },
            _ => ChangeAction::Ignore,
        },
{
    match k {
        ChangeKind::Remove => ChangeAction::Remove,
        ChangeKind::Create | ChangeKind::ModifyData | ChangeKind::ModifyAny | ChangeKind::ModifyOther
            => ChangeAction::Rescan,
        ChangeKind::ModifyName => if is_file { ChangeAction::Rescan } else { ChangeAction::Remove },
        _ => ChangeAction::Ignore,
    }
}

/// Every entry of `e` moved by `d`.
pub open spec fn shift(e: Seq<int>, d: int) -> Seq<int> {
    e.map_values(|x: int| x + d)
}

/// Where the newlines are among the first `n` characters depends on those
/// characters only.
proof fn lemma_newline_ends_prefix(s: Seq<char>, t: Seq<char>, n: int)
    requires
        0 <= n <= s.len(),
        n <= t.len(),
        forall|i: int| 0 <= i < n ==> s[i] == t[i],
    ensures
        newline_ends(s, n) == newline_ends(t, n),
    decreases n,
{
    if n > 0 {
        lemma_newline_ends_prefix(s, t, n - 1);
    }
}

/// The newlines of `a + b` are those of `a`, then those of `b` moved past `a`.
proof fn lemma_newline_ends_concat(a: Seq<char>, b: Seq<char>, m: int)
    requires
        0 <= m <= b.len(),
    ensures
        newline_ends(a + b, a.len() + m) == newline_ends(a, a.len() as int) + shift(newline_ends(b, m), a.len() as int),
    decreases m,
{
    let ab = a + b;
    if m == 0 {
        lemma_newline_ends_prefix(ab, a, a.len() as int);
        assert(shift(newline_ends(b, 0), a.len() as int) =~= Seq::<int>::empty());
        assert(newline_ends(a, a.len() as int) + Seq::<int>::empty() =~= newline_ends(a, a.len() as int));
    } else {
        lemma_newline_ends_concat(a, b, m - 1);
        assert(ab[a.len() + m - 1] == b[m - 1]);
        let na = newline_ends(a, a.len() as int);
        let nb = newline_ends(b, m - 1);
        if b[m - 1] == '\n' {
            assert(shift(nb.push(m), a.len() as int) =~= shift(nb, a.len() as int).push(a.len() + m));
            assert(na + shift(nb, a.len() as int).push(a.len() + m) =~= (na + shift(nb, a.len() as int)).push(a.len() + m));
        }
    }
}

/// The lines of `a + b`, when `a` ends a line (or is empty), are those of
/// `a` followed by those of `b` moved past `a`.
proof fn lemma_line_ends_concat(a: Seq<char>, b: Seq<char>)
    requires
        a.len() == 0 || a.last() == '\n',
    ensures
        line_ends(a + b) == line_ends(a) + shift(line_ends(b), a.len() as int),
{
    let ab = a + b;
    lemma_newline_ends_concat(a, b, b.len() as int);
    let na = newline_ends(a, a.len() as int);
    let nb = newline_ends(b, b.len() as int);
    assert(line_ends(a) == na);
    if b.len() == 0 {
        assert(ab =~= a);
        assert(nb =~= Seq::<int>::empty());
        assert(line_ends(b) =~= Seq::<int>::empty());
        assert(shift(line_ends(b), a.len() as int) =~= Seq::<int>::empty());
        assert(na + Seq::<int>::empty() =~= na);
        if a.len() > 0 {
            assert(newline_ends(ab, ab.len() as int) == na + shift(nb, a.len() as int));
            assert(shift(nb, a.len() as int) =~= Seq::<int>::empty());
        } else {
            assert(newline_ends(ab, 0) =~= Seq::<int>::empty());
        }
    } else {
        assert(ab.last() == b.last());
        assert(ab.len() == a.len() + b.len());
        if b.last() != '\n' {
            assert(shift(nb.push(b.len() as int), a.len() as int) =~= shift(nb, a.len() as int).push(ab.len() as int));
            assert(na + shift(nb, a.len() as int).push(ab.len() as int) =~= (na + shift(nb, a.len() as int)).push(ab.len() as int));
        }
    }
}

/// A line of `a + b` among the lines of `a` is that line of `a`, at the
/// same place.
proof fn lemma_piece_in_a(a: Seq<char>, b: Seq<char>, j: int)
    requires
        a.len() == 0 || a.last() == '\n',
        0 <= j < line_ends(a).len(),
    ensures
        line_piece(a + b, j) == line_piece(a, j),
        byte_len((a + b).take(piece_start(line_ends(a + b), j))) == byte_len(a.take(piece_start(line_ends(a), j))),
{
    let ab = a + b;
    let la = line_ends(a);
    let lab = line_ends(ab);
    lemma_line_ends_concat(a, b);
    crate::split::lemma_line_ends_bounds(a);
    assert(lab[j] == la[j]);
    assert(piece_start(lab, j) == piece_start(la, j)) by {
        if j > 0 {
            assert(lab[j - 1] == la[j - 1]);
        }
    }
    assert(la[j] <= a.len());
    assert(line_piece(ab, j) =~= line_piece(a, j));
    assert(ab.take(piece_start(lab, j)) =~= a.take(piece_start(la, j)));
}

/// Where a line of `a + b` after the lines of `a` starts and ends: where the
/// matching line of `b` does, moved past `a`.
proof fn lemma_bounds_in_b(a: Seq<char>, b: Seq<char>, k: int)
    requires
        a.len() == 0 || a.last() == '\n',
        0 <= k < line_ends(b).len(),
    ensures
        line_ends(a + b)[line_ends(a).len() + k] == line_ends(b)[k] + a.len(),
        piece_start(line_ends(a + b), line_ends(a).len() + k) == piece_start(line_ends(b), k) + a.len(),
{
    let la = line_ends(a);
    let lb = line_ends(b);
    let lab = line_ends(a + b);
    let j = la.len() + k;
    lemma_line_ends_concat(a, b);
    assert(lab[j] == shift(lb, a.len() as int)[k]);
    if k > 0 {
        assert(lab[j - 1] == shift(lb, a.len() as int)[k - 1]);
    } else if la.len() > 0 {
        assert(lab[j - 1] == la[la.len() - 1]);
        crate::split::lemma_line_ends_bounds(a);
    } else {
        crate::split::lemma_line_ends_bounds(a);
    }
}

/// A line of `a + b` after the lines of `a` is the matching line of `b`,
/// placed after `a`.
#[verifier::spinoff_prover]
#[verifier::rlimit(60)]
proof fn lemma_piece_in_b(a: Seq<char>, b: Seq<char>, k: int)
    requires
        a.len() == 0 || a.last() == '\n',
        0 <= k < line_ends(b).len(),
    ensures
        line_piece(a + b, line_ends(a).len() + k) == line_piece(b, k),
        byte_len((a + b).take(piece_start(line_ends(a + b), line_ends(a).len() + k)))
            == byte_len(a) + byte_len(b.take(piece_start(line_ends(b), k))),
        byte_len(b.take(piece_start(line_ends(b), k))) <= byte_len(b),
{
    let ab = a + b;
    let lb = line_ends(b);
    lemma_bounds_in_b(a, b, k);
    crate::split::lemma_line_ends_bounds(b);
    let ps = piece_start(lb, k);
    assert(0 <= ps < lb[k] <= b.len());
    assert(line_piece(ab, line_ends(a).len() + k) =~= line_piece(b, k));
    assert(ab.take(ps + a.len()) =~= a + b.take(ps));
    crate::text::lemma_byte_len_concat(a, b.take(ps));
    crate::text::lemma_byte_len_grows(b, ps, b.len() as int);
    assert(b.take(b.len() as int) =~= b);
}

/// The first `n` hits of reading `a + b` at once: those of `a` alone while
/// `n` stays within its lines, then those of `b` read after `a`.
proof fn lemma_chunk_hits_split(c: CompiledQuery, path: Seq<char>, a: Seq<char>, b: Seq<char>, n: int)
    requires
        a.len() == 0 || a.last() == '\n',
        0 <= n <= line_ends(a + b).len(),
        byte_len(a + b) <= u64::MAX,
        line_ends(a + b).len() <= u64::MAX,
    ensures
        n <= line_ends(a).len() ==> chunk_hits(c, path, a + b, 0, 0, n) == chunk_hits(c, path, a, 0, 0, n),
        n >= line_ends(a).len() ==> chunk_hits(c, path, a + b, 0, 0, n) == chunk_hits(c, path, a, 0, 0, line_ends(a).len() as int)
            + chunk_hits(c, path, b, byte_len(a) as u64, line_ends(a).len() as u64, n - line_ends(a).len()),
    decreases n,
{
    let ab = a + b;
    let la = line_ends(a);
    let lb = line_ends(b);
    assert(line_ends(ab).len() == la.len() + lb.len()) by {
        lemma_line_ends_concat(a, b);
    }
    assert(byte_len(ab) == byte_len(a) + byte_len(b)) by {
        crate::text::lemma_byte_len_concat(a, b);
    }
    if n > 0 {
        lemma_chunk_hits_split(c, path, a, b, n - 1);
        let j = n - 1;
        if j < la.len() {
            lemma_piece_in_a(a, b, j);
            if n == la.len() {
                assert(chunk_hits(c, path, b, byte_len(a) as u64, la.len() as u64, 0) =~= Seq::<MatchView>::empty());
                assert(chunk_hits(c, path, ab, 0, 0, n) =~= chunk_hits(c, path, a, 0, 0, n) + Seq::<MatchView>::empty());
            }
        } else {
            let k = j - la.len();
            lemma_piece_in_b(a, b, k);
            let ps = piece_start(lb, k);
            let prev_b = chunk_hits(c, path, b, byte_len(a) as u64, la.len() as u64, k);
            let t = strip_eol_spec(line_piece(b, k));
            if unit_ok(c, t) {
                let off = (byte_len(a) + byte_len(b.take(ps))) as u64;
                let hb = (path, (la.len() + k + 1) as u64, (la.len() + k + 1) as u64, off, t, (la.len() + k + 1) as u64);
                assert(chunk_hits(c, path, b, byte_len(a) as u64, la.len() as u64, k + 1) == prev_b.push(hb));
                assert(chunk_hits(c, path, ab, 0, 0, n) == chunk_hits(c, path, ab, 0, 0, n - 1).push(hb));
                assert(chunk_hits(c, path, a, 0, 0, la.len() as int) + prev_b.push(hb)
                    =~= (chunk_hits(c, path, a, 0, 0, la.len() as int) + prev_b).push(hb));
            }
        }
    }
}

/// Tailing a log in two steps (first its complete lines `a`, then what was
/// appended, `b`) reports exactly the hits of reading `a + b` at once, with
/// the same line numbers and byte offsets.
pub proof fn law_tailing_in_two_steps(c: CompiledQuery, path: Seq<char>, a: Seq<char>, b: Seq<char>)
    requires
        a.len() == 0 || a.last() == '\n',
        byte_len(a + b) <= u64::MAX,
        line_ends(a + b).len() <= u64::MAX,
    ensures
        chunk_hits(c, path, a + b, 0, 0, line_ends(a + b).len() as int)
            == chunk_hits(c, path, a, 0, 0, line_ends(a).len() as int)
            + chunk_hits(c, path, b, byte_len(a) as u64, line_ends(a).len() as u64, line_ends(b).len() as int),
{
    lemma_line_ends_concat(a, b);
    lemma_chunk_hits_split(c, path, a, b, line_ends(a + b).len() as int);
}

} // verus!
