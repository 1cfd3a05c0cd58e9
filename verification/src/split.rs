//! Dividing text into searchable units: one per line, or one per
//! timestamp-to-timestamp block.
use vstd::prelude::*;
use vstd::string::*;
use crate::pattern::{regex_compiles, regex_matches, Pattern, PatternError};
use crate::text::{byte_len, lemma_last_is, lemma_boundary_at, lemma_byte_len_grows, lemma_byte_len_push, slice, strip_eol, strip_eol_spec, utf8_width};

verus! {

/// A slice of a file's text plus where it came from.
#[derive(Clone, Copy, Debug)]
pub struct Unit<'a> {
    /// The unit's text (a single line, or a whole block).
    pub text: &'a str,
    /// 1-based line number of the unit's first line.
    pub line_start: u64,
    /// 1-based line number of the unit's last line (equal to `line_start` for a line).
    pub line_end: u64,
    /// Byte offset of the unit's start within the text.
    pub byte_offset: u64,
}

/// The positions just past each `'\n'` among the first `n` characters of `s`.
pub open spec fn newline_ends(s: Seq<char>, n: int) -> Seq<int>
    decreases n,
{
    if n <= 0 {
        seq![]
    } else if s[n - 1] == '\n' {
        newline_ends(s, n - 1).push(n)
    } else {
        newline_ends(s, n - 1)
    }
}

/// The end positions of the lines of `s`: every line ends just past a `'\n'`,
/// and a last line without one ends at the end of the text.
pub open spec fn line_ends(s: Seq<char>) -> Seq<int> {
    let e = newline_ends(s, s.len() as int);
    if s.len() > 0 && s.last() != '\n' {
        e.push(s.len() as int)
    } else {
        e
    }
}

/// Where the `j`-th piece described by `ends` starts.
pub open spec fn piece_start(ends: Seq<int>, j: int) -> int {
    if j == 0 {
        0
    } else {
        ends[j - 1]
    }
}

/// The `j`-th line of `s`, terminator included.
pub open spec fn line_piece(s: Seq<char>, j: int) -> Seq<char> {
    s.subrange(piece_start(line_ends(s), j), line_ends(s)[j])
}

/// `u` is the line unit for the `j`-th piece described by `ends`.
pub open spec fn is_line_unit(s: Seq<char>, ends: Seq<int>, j: int, u: Unit) -> bool {
    let start = piece_start(ends, j);
    &&& u.text@ == strip_eol_spec(s.subrange(start, ends[j]))
    &&& u.line_start == j + 1
    &&& u.line_end == j + 1
    &&& u.byte_offset == byte_len(s.take(start))
}

/// The entries of `newline_ends` are increasing positions within `1..=n`.
pub proof fn lemma_newline_ends_bounds(s: Seq<char>, n: int)
    requires
        0 <= n <= s.len(),
    ensures
        forall|j: int| 0 <= j < newline_ends(s, n).len() ==> j < #[trigger] newline_ends(s, n)[j] <= n,
        forall|i: int, j: int| 0 <= i < j < newline_ends(s, n).len()
            ==> newline_ends(s, n)[i] < newline_ends(s, n)[j],
        newline_ends(s, n).len() <= n,
        forall|j: int| 0 <= j < newline_ends(s, n).len() ==> s[#[trigger] newline_ends(s, n)[j] - 1] == '\n',
        n > 0 && s[n - 1] == '\n' ==> newline_ends(s, n).len() > 0 && newline_ends(s, n).last() == n,
    decreases n,
{
    if n > 0 {
        lemma_newline_ends_bounds(s, n - 1);
    }
}

/// One unit per line. Line terminators are not included in `Unit::text`.
#[derive(Clone, Copy, Debug, Default)]
pub struct LineSplitter;

impl LineSplitter {
    /// The units of `text`, in order: one per line of `text.split_inclusive('\n')`,
    /// numbered from 1, each with the byte offset of its first character and
    /// its text without the line terminator.
    pub fn split<'a>(&self, text: &'a str) -> (units: Vec<Unit<'a>>)
        ensures
            units.len() == line_ends(text@).len(),
            forall|j: int| 0 <= j < units.len() ==> is_line_unit(text@, line_ends(text@), j, #[trigger] units[j]),
    {
        let ghost s = text@;
        let mut units: Vec<Unit<'a>> = Vec::new();
        let mut start_byte: usize = 0;
        let mut byte: usize = 0;
        let mut k: usize = 0;
        let ghost mut start_char: int = 0;
        let total = text.as_bytes().len();
        proof {
            lemma_boundary_at(s, s.len() as int);
            assert(s.take(s.len() as int) =~= s);
            lemma_byte_len_grows(s, 0, 0);
        }
        for c in it: text.chars()
            invariant
                s == text@,
                total == byte_len(s),
                k == it.index(),
                it.seq() == s,
                0 <= start_char <= k <= s.len(),
                start_char == piece_start(newline_ends(s, k as int), newline_ends(s, k as int).len() as int),
                start_byte == byte_len(s.take(start_char)),
                byte == byte_len(s.take(k as int)),
                units.len() == newline_ends(s, k as int).len(),
                forall|j: int| 0 <= j < units.len() ==> is_line_unit(s, newline_ends(s, k as int), j, #[trigger] units[j]),
        {
            let ghost old_ends = newline_ends(s, k as int);
            assert(c == s[k as int]);
            proof {
                lemma_byte_len_grows(s, 0, 0);
            }
            let w = utf8_width(c);
            proof {
                lemma_byte_len_push(s.take(k as int), c);
                assert(s.take(k + 1) =~= s.take(k as int).push(c));
                lemma_boundary_at(s, k + 1);
                lemma_newline_ends_bounds(s, k as int);
            }
            byte = byte + w;
            k = k + 1;
            if c == '\n' {
                let piece = slice(text, Ghost(start_char), Ghost(k as int), start_byte, byte);
                let t = strip_eol(piece);
                let n = units.len() as u64;
                let u = Unit { text: t, line_start: n + 1, line_end: n + 1, byte_offset: start_byte as u64 };
                let ghost prev = units@;
                units.push(u);
                proof {
                    let e = newline_ends(s, k as int);
                    assert(e == old_ends.push(k as int));
                    assert forall|j: int| 0 <= j < units.len() implies is_line_unit(s, e, j, #[trigger] units[j]) by {
                        if j < units.len() - 1 {
                            assert(units[j] == prev[j]);
                        }
                    }
                    start_char = k as int;
                }
                start_byte = byte;
            } else {
                proof {
                    assert(newline_ends(s, k as int) == old_ends);
                }
            }
        }
        proof {
            lemma_newline_ends_bounds(s, s.len() as int);
            assert(s.take(s.len() as int) =~= s);
        }
        proof {
            lemma_byte_len_grows(s, 0, 0);
        }
        if start_byte < total {
            let piece = slice(text, Ghost(start_char), Ghost(s.len() as int), start_byte, total);
            let t = strip_eol(piece);
            let n = units.len() as u64;
            let u = Unit { text: t, line_start: n + 1, line_end: n + 1, byte_offset: start_byte as u64 };
            let ghost prev = units@;
            units.push(u);
            proof {
                let e = line_ends(s);
                assert(s.last() != '\n');
                assert(e == newline_ends(s, s.len() as int).push(s.len() as int));
                assert forall|j: int| 0 <= j < units.len() implies is_line_unit(s, e, j, #[trigger] units[j]) by {
                    if j < units.len() - 1 {
                        assert(units[j] == prev[j]);
                    }
                }
            }
        } else {
            proof {
                if start_char < s.len() {
                    lemma_byte_len_grows(s, start_char, s.len() as int);
                }
            }
        }
        units
    }
}

/// What a unit says: its text, first line, last line and byte offset.
pub type UnitView = (Seq<char>, u64, u64, u64);

/// The view of a unit.
pub open spec fn unit_view(u: Unit) -> UnitView {
    (u.text@, u.line_start, u.line_end, u.byte_offset)
}

/// The views of a run of units.
pub open spec fn unit_views(us: Seq<Unit>) -> Seq<UnitView> {
    us.map_values(|u: Unit| unit_view(u))
}

/// Takes units one at a time; answering `false` stops the split.
pub trait UnitSink {
    /// Takes one unit; `false` asks for no more.
    fn accept(&mut self, u: Unit) -> bool;
}

/// A sink together with the record of the units it was handed and of its
/// answers, in order. The record changes only when the sink is called.
pub struct Recorded<S> {
    /// The sink itself.
    pub sink: S,
    received: Ghost<Seq<UnitView>>,
    answers: Ghost<Seq<bool>>,
}

impl<S: UnitSink> Recorded<S> {
    /// The sink held.
    pub closed spec fn held(&self) -> S {
        self.sink
    }

    /// The units handed to the sink so far, in order.
    pub closed spec fn received(&self) -> Seq<UnitView> {
        self.received@
    }

    /// The sink's answers so far, in order.
    pub closed spec fn answers(&self) -> Seq<bool> {
        self.answers@
    }

    /// `sink`, with nothing handed to it yet.
    pub fn new(sink: S) -> (r: Recorded<S>)
        ensures
            r.held() == sink,
            r.received() == Seq::<UnitView>::empty(),
            r.answers() == Seq::<bool>::empty(),
    {
        Recorded { sink, received: Ghost(Seq::empty()), answers: Ghost(Seq::empty()) }
    }

    /// Hands `u` to the sink and records it and the answer.
    fn offer(&mut self, u: Unit) -> (keep: bool)
        ensures
            final(self).received() == old(self).received().push(unit_view(u)),
            final(self).answers() == old(self).answers().push(keep),
    {
        let keep = self.sink.accept(u);
        self.received = Ghost(self.received@.push(unit_view(u)));
        self.answers = Ghost(self.answers@.push(keep));
        keep
    }
}

/// `answers` says yes to all but possibly the last, and says no to the last
/// unless all `total` units were handed over.
pub open spec fn stopped_at_first_no(answers: Seq<bool>, total: int) -> bool {
    &&& forall|i: int| 0 <= i < answers.len() - 1 ==> #[trigger] answers[i]
    &&& (answers.len() < total ==> answers.len() >= 1 && !answers.last())
}

/// Hands `units` to `sink` in order until it answers `false`, and says how
/// many it handed over: all of them, or those up to and including the one
/// that was refused.
fn feed<S: UnitSink>(units: &Vec<Unit>, sink: &mut Recorded<S>) -> (n: usize)
    ensures
        n <= units.len(),
        final(sink).received() == old(sink).received() + unit_views(units@.take(n as int)),
        final(sink).answers().len() == old(sink).answers().len() + n,
        final(sink).answers().take(old(sink).answers().len() as int) == old(sink).answers(),
        stopped_at_first_no(final(sink).answers().skip(old(sink).answers().len() as int), units.len() as int),
{
    let ghost r0 = sink.received();
    let ghost a0 = sink.answers();
    let mut i: usize = 0;
    assert(unit_views(units@.take(0)) =~= Seq::<UnitView>::empty());
    assert(sink.received() =~= r0 + unit_views(units@.take(0)));
    assert(sink.answers().take(a0.len() as int) =~= a0);
    while i < units.len()
        invariant
            i <= units.len(),
            r0 == old(sink).received(),
            a0 == old(sink).answers(),
            sink.received() == r0 + unit_views(units@.take(i as int)),
            sink.answers().len() == a0.len() + i,
            sink.answers().take(a0.len() as int) == a0,
            forall|j: int| a0.len() <= j < sink.answers().len() ==> #[trigger] sink.answers()[j],
        decreases units.len() - i,
    {
        let ghost before_r = sink.received();
        let ghost before_a = sink.answers();
        let keep = sink.offer(units[i]);
        proof {
            assert(units@.take(i + 1) =~= units@.take(i as int).push(units@[i as int]));
            assert(unit_views(units@.take(i + 1)) =~= unit_views(units@.take(i as int)).push(unit_view(units@[i as int])));
            assert(sink.received() =~= r0 + unit_views(units@.take(i + 1)));
            assert(sink.answers().take(a0.len() as int) =~= before_a.take(a0.len() as int));
        }
        i = i + 1;
        if !keep {
            proof {
                let tail = sink.answers().skip(a0.len() as int);
                assert forall|j: int| 0 <= j < tail.len() - 1 implies #[trigger] tail[j] by {
                    assert(tail[j] == sink.answers()[a0.len() + j]);
                    assert(sink.answers()[a0.len() + j] == before_a[a0.len() + j]);
                }
                assert(tail.last() == keep);
            }
            return i;
        }
        proof {
            assert forall|j: int| a0.len() <= j < sink.answers().len() implies #[trigger] sink.answers()[j] by {
                if j < before_a.len() {
                    assert(sink.answers()[j] == before_a[j]);
                }
            }
        }
    }
    proof {
        let tail = sink.answers().skip(a0.len() as int);
        assert forall|j: int| 0 <= j < tail.len() - 1 implies #[trigger] tail[j] by {
            assert(tail[j] == sink.answers()[a0.len() + j]);
        }
    }
    i
}

/// The views of the line units of `s` (see [`is_line_unit`]).
pub open spec fn line_unit_views(s: Seq<char>) -> Seq<UnitView> {
    let ends = line_ends(s);
    Seq::new(ends.len(), |j: int| (
        strip_eol_spec(s.subrange(piece_start(ends, j), ends[j])),
        (j + 1) as u64,
        (j + 1) as u64,
        byte_len(s.take(piece_start(ends, j))) as u64,
    ))
}

/// The views of the block units of `s` described by `starts` (see
/// [`is_block_unit`]).
pub open spec fn block_unit_views(s: Seq<char>, starts: Seq<int>) -> Seq<UnitView> {
    let ends = line_ends(s);
    Seq::new(starts.len(), |j: int| (
        trim_end_crlf_spec(s.subrange(piece_start(ends, starts[j]), piece_start(ends, block_end(starts, j, ends.len() as int)))),
        (starts[j] + 1) as u64,
        block_end(starts, j, ends.len() as int) as u64,
        byte_len(s.take(piece_start(ends, starts[j]))) as u64,
    ))
}

impl LineSplitter {
    /// Hands the units of [`LineSplitter::split`] to `sink` in order until it
    /// answers `false`: the sink receives the first `n` of them, and has
    /// said yes to all but the last, and no to the last unless it received
    /// them all; the number handed over.
    pub fn split_into<S: UnitSink>(&self, text: &str, sink: &mut Recorded<S>) -> (n: usize)
        ensures
            n <= line_ends(text@).len(),
            final(sink).received() == old(sink).received() + line_unit_views(text@).take(n as int),
            final(sink).answers().len() == old(sink).answers().len() + n,
            final(sink).answers().take(old(sink).answers().len() as int) == old(sink).answers(),
            stopped_at_first_no(final(sink).answers().skip(old(sink).answers().len() as int), line_ends(text@).len() as int),
    {
        let units = self.split(text);
        proof {
            assert(unit_views(units@) =~= line_unit_views(text@)) by {
                assert forall|j: int| 0 <= j < units@.len() implies unit_views(units@)[j] == line_unit_views(text@)[j] by {
                    assert(is_line_unit(text@, line_ends(text@), j, units@[j]));
                }
            }
        }
        let n = feed(&units, sink);
        assert(unit_views(units@.take(n as int)) =~= line_unit_views(text@).take(n as int));
        n
    }
}


/// The lines of `s` are consecutive pieces: each starts where the previous
/// one ended, is non-empty, and the last one ends at the end of `s`.
pub proof fn lemma_line_ends_bounds(s: Seq<char>)
    ensures
        forall|j: int| 0 <= j < line_ends(s).len()
            ==> 0 <= piece_start(line_ends(s), j) < #[trigger] line_ends(s)[j] <= s.len(),
        line_ends(s).len() == 0 <==> s.len() == 0,
        line_ends(s).len() > 0 ==> line_ends(s).last() == s.len(),
        line_ends(s).len() <= s.len(),
{
    let n = s.len() as int;
    lemma_newline_ends_bounds(s, n);
    let e = newline_ends(s, n);
    assert forall|j: int| 0 <= j < line_ends(s).len()
        implies piece_start(line_ends(s), j) < #[trigger] line_ends(s)[j] <= s.len() by {
        if j > 0 && j < e.len() {
            assert(e[j - 1] < e[j]);
        }
        if j > 0 && j == e.len() {
            assert(e[j - 1] <= n);
            if e[j - 1] == n {
                assert(s[n - 1] == '\n');
            }
        }
    }
    if n > 0 && s.last() == '\n' {
        assert(s[n - 1] == '\n');
    }
    if n > 0 && s.last() != '\n' && e.len() > 0 {
        assert(e[e.len() - 1] != n);
        assert(e.len() - 1 < e[e.len() - 1]);
    }
}

/// `s` without any trailing run of `'\r'` and `'\n'` characters.
pub open spec fn trim_end_crlf_spec(s: Seq<char>) -> Seq<char>
    decreases s.len(),
{
    if s.len() > 0 && (s.last() == '\r' || s.last() == '\n') {
        trim_end_crlf_spec(s.drop_last())
    } else {
        s
    }
}

/// Removes every trailing `'\r'` and `'\n'` (like `trim_end_matches(['\r', '\n'])`).
pub fn trim_end_crlf(s: &str) -> (r: &str)
    ensures
        r@ == trim_end_crlf_spec(s@),
{
    let mut t = s;
    loop
        invariant
            trim_end_crlf_spec(t@) == trim_end_crlf_spec(s@),
        decreases t@.len(),
    {
        let ghost u = t@;
        let b = t.as_bytes();
        let m = b.len();
        proof {
            if u.len() > 0 {
                lemma_last_is(u, '\n', 10u8);
                lemma_last_is(u, '\r', 13u8);
            } else {
                assert(m == 0);
            }
        }
        if m > 0 && (b[m - 1] == 10u8 || b[m - 1] == 13u8) {
            proof {
                lemma_byte_len_push(u.drop_last(), u.last());
                assert(u.drop_last().push(u.last()) =~= u);
                assert(u.take(u.len() - 1) =~= u.drop_last());
                assert(u.take(0) =~= Seq::<char>::empty());
                assert(u.take(u.len() as int) =~= u);
            }
            let r = slice(t, Ghost(0), Ghost(u.len() - 1), 0, m - 1);
            assert(r@ =~= u.drop_last());
            t = r;
        } else {
            return t;
        }
    }
}

/// Default cap on the number of lines in a single block.
pub const DEFAULT_MAX_BLOCK_LINES: usize = 2000;

/// ISO-8601, optionally bracketed: `2026-08-20 08:00:01`, `[2026-08-20T08:00:01`.
pub const TS_ISO: &'static str = "^\\[?\\d{4}-\\d{2}-\\d{2}[ T]\\d{2}:\\d{2}:\\d{2}";
/// syslog: `Aug 20 08:00:01`.
pub const TS_SYSLOG: &'static str = "^[A-Z][a-z]{2}\\s+\\d{1,2}\\s+\\d{2}:\\d{2}:\\d{2}";
/// US date: `08/20/2026 08:00:01`.
pub const TS_US: &'static str = "^\\d{2}/\\d{2}/\\d{4}\\s+\\d{2}:\\d{2}:\\d{2}";
/// Epoch seconds or milliseconds, optionally bracketed.
pub const TS_EPOCH: &'static str = "^\\[?\\d{10,13}\\]?\\b";

/// The default timestamp patterns, in order (first match wins).
pub open spec fn default_ts_patterns_spec() -> Seq<Seq<char>> {
    seq![TS_ISO@, TS_SYSLOG@, TS_US@, TS_EPOCH@]
}

/// The default timestamp patterns, in order (first match wins): ISO-8601,
/// syslog, US date, and epoch seconds/millis.
pub fn default_ts_patterns() -> (v: Vec<&'static str>)
    ensures
        v@.map_values(|p: &str| p@) == default_ts_patterns_spec(),
{
    let v = vec![TS_ISO, TS_SYSLOG, TS_US, TS_EPOCH];
    assert(v@.map_values(|p: &str| p@) =~= default_ts_patterns_spec());
    v
}

/// `(?:p)`: a non-capturing group around `p`.
pub open spec fn group_spec(p: Seq<char>) -> Seq<char> {
    seq!['(', '?', ':'] + p + seq![')']
}

/// The alternation `(?:p0)|(?:p1)|...` of the patterns `ps`.
pub open spec fn alternation_spec(ps: Seq<Seq<char>>) -> Seq<char>
    decreases ps.len(),
{
    if ps.len() == 0 {
        seq![]
    } else if ps.len() == 1 {
        group_spec(ps[0])
    } else {
        alternation_spec(ps.drop_last()) + seq!['|'] + group_spec(ps.last())
    }
}

/// Builds the alternation of `patterns`, each in its own non-capturing group.
pub fn alternation(patterns: &[&str]) -> (r: String)
    ensures
        r@ == alternation_spec(patterns@.map_values(|p: &str| p@)),
{
    let ghost ps = patterns@.map_values(|p: &str| p@);
    let mut r = String::new();
    let open = "(?:";
    let close = ")";
    let bar = "|";
    proof {
        reveal_strlit("(?:");
        reveal_strlit(")");
        reveal_strlit("|");
    }
    for i in 0..patterns.len()
        invariant
            ps == patterns@.map_values(|p: &str| p@),
            open@ == seq!['(', '?', ':'],
            close@ == seq![')'],
            bar@ == seq!['|'],
            r@ == alternation_spec(ps.take(i as int)),
    {
        let ghost before = r@;
        if i > 0 {
            r.append(bar);
        }
        r.append(open);
        r.append(patterns[i]);
        r.append(close);
        proof {
            let t = ps.take(i + 1);
            assert(t.drop_last() =~= ps.take(i as int));
            assert(t.last() == patterns@[i as int]@);
            if i == 0 {
                assert(before =~= Seq::<char>::empty());
                assert(r@ =~= group_spec(t[0]));
            } else {
                assert(r@ =~= alternation_spec(t.drop_last()) + seq!['|'] + group_spec(t.last()));
            }
        }
    }
    assert(ps.take(patterns.len() as int) =~= ps);
    r
}

/// `max(n, 1)`.
pub open spec fn at_least_one(n: usize) -> nat {
    if n == 0 { 1 } else { n as nat }
}

/// The indices of the lines that open a block, among the first `n` lines
/// (`n >= 1`), given for each line whether it starts with a timestamp. Line 0
/// always opens the first block; a later line opens a new block when it
/// starts with a timestamp or when the block in progress already holds `max`
/// lines.
pub open spec fn block_starts(ts: Seq<bool>, max: nat, n: int) -> Seq<int>
    decreases n,
{
    if n <= 1 {
        seq![0]
    } else {
        let prev = block_starts(ts, max, n - 1);
        if ts[n - 1] || (n - 1) - prev.last() >= max {
            prev.push(n - 1)
        } else {
            prev
        }
    }
}

/// Where the `j`-th block described by `starts` ends (exclusive line index).
pub open spec fn block_end(starts: Seq<int>, j: int, n: int) -> int {
    if j + 1 < starts.len() {
        starts[j + 1]
    } else {
        n
    }
}

/// `u` is the block unit for block `j` of `s` described by `starts`.
pub open spec fn is_block_unit(s: Seq<char>, starts: Seq<int>, j: int, u: Unit) -> bool {
    let ends = line_ends(s);
    let a = starts[j];
    let b = block_end(starts, j, ends.len() as int);
    &&& u.text@ == trim_end_crlf_spec(s.subrange(piece_start(ends, a), piece_start(ends, b)))
    &&& u.line_start == a + 1
    &&& u.line_end == b
    &&& u.byte_offset == byte_len(s.take(piece_start(ends, a)))
}

/// The entries of `block_starts` are increasing line indices below `n`, and
/// the first one is line 0.
pub proof fn lemma_block_starts_bounds(ts: Seq<bool>, max: nat, n: int)
    ensures
        block_starts(ts, max, n).len() >= 1,
        block_starts(ts, max, n)[0] == 0,
        forall|j: int| 0 <= j < block_starts(ts, max, n).len()
            ==> 0 <= #[trigger] block_starts(ts, max, n)[j] < if n <= 1 { 1 } else { n },
        forall|i: int, j: int| 0 <= i < j < block_starts(ts, max, n).len()
            ==> block_starts(ts, max, n)[i] < block_starts(ts, max, n)[j],
    decreases n,
{
    if n > 1 {
        lemma_block_starts_bounds(ts, max, n - 1);
    }
}

/// The block unit for lines `a..b` of `text`, given the line units of `text`.
fn block_unit<'a>(text: &'a str, lines: &Vec<Unit<'a>>, a: usize, b: usize) -> (u: Unit<'a>)
    requires
        lines.len() == line_ends(text@).len(),
        forall|j: int| 0 <= j < lines.len() ==> is_line_unit(text@, line_ends(text@), j, #[trigger] lines[j]),
        a < b <= lines.len(),
    ensures
        u.text@ == trim_end_crlf_spec(text@.subrange(piece_start(line_ends(text@), a as int), piece_start(line_ends(text@), b as int))),
        u.line_start == a + 1,
        u.line_end == b,
        u.byte_offset == byte_len(text@.take(piece_start(line_ends(text@), a as int))),
{
    let ghost s = text@;
    let ghost ends = line_ends(s);
    let ghost ca = piece_start(ends, a as int);
    let ghost cb = piece_start(ends, b as int);
    let total = text.as_bytes().len();
    assert(0 <= ca <= cb <= s.len()) by {
        lemma_line_ends_bounds(s);
        lemma_line_ends_monotone(s, a as int - 1, b as int - 1);
        assert(ends[b - 1] <= s.len());
        assert(0 <= piece_start(ends, a as int) < ends[a as int]);
    }
    proof {
        lemma_boundary_at(s, ca);
        lemma_boundary_at(s, cb);
    }
    assert(is_line_unit(s, ends, a as int, lines[a as int]));
    let start_byte = lines[a].byte_offset as usize;
    let end_byte = if b < lines.len() {
        assert(is_line_unit(s, ends, b as int, lines[b as int]));
        lines[b].byte_offset as usize
    } else {
        proof {
            lemma_line_ends_bounds(s);
            assert(s.take(s.len() as int) =~= s);
        }
        total
    };
    let piece = slice(text, Ghost(ca), Ghost(cb), start_byte, end_byte);
    let t = trim_end_crlf(piece);
    Unit { text: t, line_start: a as u64 + 1, line_end: b as u64, byte_offset: lines[a].byte_offset }
}

/// Line starts are non-decreasing.
pub proof fn lemma_line_ends_monotone(s: Seq<char>, i: int, j: int)
    requires
        -1 <= i <= j < line_ends(s).len(),
    ensures
        piece_start(line_ends(s), i + 1) <= piece_start(line_ends(s), j + 1),
    decreases j - i,
{
    lemma_line_ends_bounds(s);
    if i < j {
        lemma_line_ends_monotone(s, i, j - 1);
        assert(piece_start(line_ends(s), j) < line_ends(s)[j]);
    }
}

/// The shape of blocks over `n >= 1` lines with timestamp flags `ts` and a
/// cap of `max >= 1` lines:
/// - the blocks are consecutive runs of lines covering all `n` lines, the
///   first starting at line 0;
/// - no block holds more than `max` lines;
/// - within a block, only its first line may start with a timestamp;
/// - a block other than the first starts either at a timestamp line or right
///   after a block that reached the cap.
pub proof fn law_block_shape(ts: Seq<bool>, max: nat, n: int)
    requires
        n >= 1,
        ts.len() >= n,
        max >= 1,
    ensures
        ({
            let st = block_starts(ts, max, n);
            &&& st[0] == 0
            &&& forall|j: int| 0 <= j < st.len() ==> st[j] < #[trigger] block_end(st, j, n) <= n
            &&& forall|j: int| 0 <= j < st.len() - 1 ==> #[trigger] block_end(st, j, n) == st[j + 1]
            &&& forall|j: int| 0 <= j < st.len() ==> #[trigger] block_end(st, j, n) - st[j] <= max
            &&& forall|j: int, k: int| #![trigger st[j], ts[k]] 0 <= j < st.len() && st[j] < k < block_end(st, j, n) ==> !ts[k]
            &&& forall|j: int| 0 < j < st.len() ==> #[trigger] ts[st[j]] || block_end(st, j - 1, n) - st[j - 1] == max
        }),
    decreases n,
{
    lemma_block_starts_bounds(ts, max, n);
    if n > 1 {
        law_block_shape(ts, max, n - 1);
        lemma_block_starts_bounds(ts, max, n - 1);
        let prev = block_starts(ts, max, n - 1);
        let st = block_starts(ts, max, n);
        if ts[n - 1] || (n - 1) - prev.last() >= max {
            assert(st == prev.push(n - 1));
            assert forall|j: int| 0 <= j < st.len() - 1 implies block_end(st, j, n) == #[trigger] block_end(prev, j, n - 1) by {
            }
            assert forall|j: int| 0 <= j < st.len() implies #[trigger] block_end(st, j, n) - st[j] <= max by {
                if j < st.len() - 1 {
                    assert(block_end(st, j, n) == block_end(prev, j, n - 1));
                }
            }
            assert forall|j: int, k: int| #![trigger st[j], ts[k]] 0 <= j < st.len() && st[j] < k < block_end(st, j, n) implies !ts[k] by {
                if j < st.len() - 1 {
                    assert(block_end(st, j, n) == block_end(prev, j, n - 1));
                }
            }
            assert forall|j: int| 0 < j < st.len() implies #[trigger] ts[st[j]] || block_end(st, j - 1, n) - st[j - 1] == max by {
                if j < st.len() - 1 {
                    assert(block_end(st, j, n) == block_end(prev, j, n - 1));
                    assert(block_end(st, j - 1, n) == block_end(prev, j - 1, n - 1));
                } else {
                    assert(block_end(st, j - 1, n) == n - 1);
                    assert(block_end(prev, j - 1, n - 1) == n - 1);
                }
            }
        } else {
            assert(st == prev);
            assert forall|j: int| 0 <= j < st.len() implies #[trigger] block_end(st, j, n) - st[j] <= max by {
                if j < st.len() - 1 {
                    assert(block_end(st, j, n) == block_end(prev, j, n - 1));
                }
            }
            assert forall|j: int, k: int| #![trigger st[j], ts[k]] 0 <= j < st.len() && st[j] < k < block_end(st, j, n) implies !ts[k] by {
                if j < st.len() - 1 {
                    assert(block_end(st, j, n) == block_end(prev, j, n - 1));
                } else if k < n - 1 {
                    assert(block_end(prev, j, n - 1) == n - 1);
                }
            }
            assert forall|j: int| 0 < j < st.len() implies #[trigger] ts[st[j]] || block_end(st, j - 1, n) - st[j - 1] == max by {
                assert(block_end(st, j - 1, n) == block_end(prev, j - 1, n - 1));
            }
        }
    }
}

/// Groups lines into timestamp-to-timestamp blocks.
///
/// A line that starts with a recognised timestamp opens a new block; following
/// lines without a timestamp belong to it. Leading lines before the first
/// timestamp form an orphan block. Blocks are capped at `max_lines` lines.
pub struct BlockSplitter {
    ts: Option<Pattern>,
    max_lines: usize,
}

impl BlockSplitter {
    /// Hands the units of [`BlockSplitter::split`] to `sink` in order until
    /// it answers `false`; the number handed over.
    pub fn split_into<S: UnitSink>(&self, text: &str, sink: &mut Recorded<S>) -> (n: usize)
        ensures
            final(sink).answers().len() == old(sink).answers().len() + n,
            final(sink).answers().take(old(sink).answers().len() as int) == old(sink).answers(),
            line_ends(text@).len() == 0 ==> n == 0 && final(sink).received() == old(sink).received(),
            line_ends(text@).len() > 0 ==> {
                let starts = block_starts(self.line_flags(text@), self.max_lines(), line_ends(text@).len() as int);
                &&& n <= starts.len()
                &&& final(sink).received() == old(sink).received() + block_unit_views(text@, starts).take(n as int)
                &&& stopped_at_first_no(final(sink).answers().skip(old(sink).answers().len() as int), starts.len() as int)
            },
    {
        let units = self.split(text);
        let ghost s = text@;
        let ghost n_lines = line_ends(s).len() as int;
        let ghost starts = block_starts(self.line_flags(s), self.max_lines(), n_lines);
        proof {
            if n_lines > 0 {
                assert(unit_views(units@) =~= block_unit_views(s, starts)) by {
                    assert forall|j: int| 0 <= j < units@.len() implies unit_views(units@)[j] == block_unit_views(s, starts)[j] by {
                        assert(is_block_unit(s, starts, j, units@[j]));
                    }
                }
            }
        }
        let n = feed(&units, sink);
        proof {
            if n_lines > 0 {
                assert(unit_views(units@.take(n as int)) =~= block_unit_views(s, starts).take(n as int));
            } else {
                assert(unit_views(units@.take(0)) =~= Seq::<UnitView>::empty());
                assert(final(sink).received() =~= old(sink).received());
            }
        }
        n
    }

    /// Whether a line counts as starting with a timestamp.
    pub closed spec fn is_ts(&self, line: Seq<char>) -> bool {
        match self.ts {
            Some(p) => regex_matches(p.source(), line),
            None => false,
        }
    }

    /// The largest number of lines a block may hold.
    pub closed spec fn max_lines(&self) -> nat {
        self.max_lines as nat
    }

    /// Build with a custom, ordered set of anchored timestamp patterns: a line
    /// starts with a timestamp when the alternation of the patterns matches it.
    /// Fails exactly when that alternation does not compile.
    pub fn with_patterns(patterns: &[&str], max_lines: usize) -> (r: Result<Self, PatternError>)
        ensures
            r is Ok <==> regex_compiles(alternation_spec(patterns@.map_values(|p: &str| p@))),
            r matches Ok(b) ==> {
                &&& b.max_lines() == at_least_one(max_lines)
                &&& forall|line: Seq<char>| #[trigger] b.is_ts(line)
                    == regex_matches(alternation_spec(patterns@.map_values(|p: &str| p@)), line)
            },
    {
        let src = alternation(patterns);
        let p = Pattern::new(src.as_str())?;
        let m = if max_lines == 0 { 1 } else { max_lines };
        Ok(BlockSplitter { ts: Some(p), max_lines: m })
    }

    /// Whether a line begins with a recognised timestamp.
    pub fn is_timestamp_line(&self, line: &str) -> (b: bool)
        ensures
            b == self.is_ts(line@),
    {
        match &self.ts {
            Some(p) => p.is_match(line),
            None => false,
        }
    }

    /// For each line of `s`, whether it starts with a timestamp.
    pub open spec fn line_flags(&self, s: Seq<char>) -> Seq<bool> {
        Seq::new(line_ends(s).len(), |i: int| self.is_ts(strip_eol_spec(line_piece(s, i))))
    }

    /// The blocks of `text`, in order. Each block runs from a line that opens
    /// it (see [`block_starts`]) up to the line before the next block opens;
    /// its text is those lines without the trailing line terminators, its
    /// line numbers are 1-based and inclusive, and its byte offset is that of
    /// its first line. Empty text has no blocks.
    pub fn split<'a>(&self, text: &'a str) -> (units: Vec<Unit<'a>>)
        ensures
            line_ends(text@).len() == 0 ==> units.len() == 0,
            line_ends(text@).len() > 0 ==> {
                let starts = block_starts(self.line_flags(text@), self.max_lines(), line_ends(text@).len() as int);
                &&& units.len() == starts.len()
                &&& forall|j: int| 0 <= j < units.len() ==> is_block_unit(text@, starts, j, #[trigger] units[j])
            },
    {
        let ghost s = text@;
        let ghost ends = line_ends(s);
        let ghost flags = self.line_flags(s);
        let ghost max = self.max_lines();
        let lines = LineSplitter.split(text);
        let n = lines.len();
        let total = text.as_bytes().len();
        proof {
            lemma_line_ends_bounds(s);
            lemma_boundary_at(s, s.len() as int);
            assert(s.take(s.len() as int) =~= s);
        }
        let mut blocks: Vec<Unit<'a>> = Vec::new();
        let mut block_start: usize = 0;
        for i in 0..n
            invariant
                n == ends.len(),
                s == text@,
                ends == line_ends(s),
                flags == self.line_flags(s),
                max == self.max_lines(),
                total == byte_len(s),
                lines.len() == n,
                forall|j: int| 0 <= j < n ==> is_line_unit(s, ends, j, #[trigger] lines[j]),
                forall|j: int| 0 <= j < ends.len()
                    ==> piece_start(ends, j) < #[trigger] ends[j] <= s.len(),
                block_start == block_starts(flags, max, i as int).last(),
                blocks.len() == block_starts(flags, max, i as int).len() - 1,
                forall|j: int| 0 <= j < blocks.len() ==> is_block_unit(s, block_starts(flags, max, i as int), j, #[trigger] blocks[j]),
        {
            let ghost prev = block_starts(flags, max, i as int);
            proof {
                lemma_block_starts_bounds(flags, max, i as int);
            }
            let is_ts = self.is_timestamp_line(lines[i].text);
            let in_block = i - block_start;
            if in_block > 0 && (is_ts || in_block >= self.max_lines) {
                let u = block_unit(text, &lines, block_start, i);
                let ghost before = blocks@;
                blocks.push(u);
                block_start = i;
                proof {
                    let next = block_starts(flags, max, i + 1);
                    assert(next == prev.push(i as int));
                    assert forall|j: int| 0 <= j < blocks.len() implies is_block_unit(s, next, j, #[trigger] blocks[j]) by {
                        if j < blocks.len() - 1 {
                            assert(blocks[j] == before[j]);
                        }
                    }
                }
            } else {
                proof {
                    if i > 0 {
                        assert(block_starts(flags, max, i + 1) == prev);
                    } else {
                        assert(block_starts(flags, max, 1) == prev);
                    }
                }
            }
        }
        if n > 0 {
            proof {
                lemma_block_starts_bounds(flags, max, n as int);
            }
            let u = block_unit(text, &lines, block_start, n);
            let ghost before = blocks@;
            blocks.push(u);
            proof {
                let fin = block_starts(flags, max, n as int);
                assert forall|j: int| 0 <= j < blocks.len() implies is_block_unit(s, fin, j, #[trigger] blocks[j]) by {
                    if j < blocks.len() - 1 {
                        assert(blocks[j] == before[j]);
                    }
                }
            }
        }
        blocks
    }
}

impl Default for BlockSplitter {
    /// The splitter over [`default_ts_patterns`] with [`DEFAULT_MAX_BLOCK_LINES`].
    /// Those patterns are valid; should their alternation ever fail to
    /// compile, no line counts as a timestamp.
    fn default() -> (b: Self)
        ensures
            b.max_lines() == DEFAULT_MAX_BLOCK_LINES,
            forall|line: Seq<char>| #[trigger] b.is_ts(line)
                == (regex_compiles(alternation_spec(default_ts_patterns_spec()))
                    && regex_matches(alternation_spec(default_ts_patterns_spec()), line)),
    {
        let pats = default_ts_patterns();
        match BlockSplitter::with_patterns(pats.as_slice(), DEFAULT_MAX_BLOCK_LINES) {
            Ok(b) => b,
            Err(_) => BlockSplitter { ts: None, max_lines: DEFAULT_MAX_BLOCK_LINES },
        }
    }
}

} // verus!
