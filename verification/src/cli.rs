//! The command-line front-end's argument language: flags, values and what
//! they set, and the small text helpers its output needs.
use vstd::prelude::*;
use vstd::string::*;
use crate::filter::{FileFilter, ScanOptions, TimeFilter, NANOS_PER_SEC};
use crate::model::{CaseMode, Granularity, MatchMode, Query};
use crate::query::non_empty;
use crate::renderer::views;
use crate::strings::{lower_char, push_char, split_chars, split_spec, str_eq, to_ascii_lowercase, trim, trim_spec};
use crate::text::{byte_len, strip_prefix_ascii, trim_start_char, trim_start_char_spec};
use crate::timestamp::{leading_reading, naive_parses, Leading, TimestampParser};

verus! {

/// What to print for the results.
#[derive(Clone, Copy, Debug, PartialEq, Eq, Structural)]
pub enum Output {
    /// `path:line: text`, one hit per line.
    Lines,
    /// One JSON object per hit.
    Json,
    /// Only the number of hits.
    Count,
    /// Only the paths of files with hits, each once.
    FilesOnly,
}

/// A fully parsed invocation.
pub struct Config {
    pub query: Query,
    pub roots: Vec<String>,
    pub opts: ScanOptions,
    pub output: Output,
}

/// The flags the front-end knows.
#[derive(Clone, Copy, Debug, PartialEq, Eq, Structural)]
pub enum CliFlag {
    Regex,
    AllWords,
    AnyWords,
    CaseSensitive,
    IgnoreCase,
    WholeWord,
    Block,
    Gitignore,
    Json,
    Count,
    FilesOnly,
    NameRegex,
    Exclude,
    Name,
    Ext,
    ExcludeExt,
    MinKb,
    MaxKb,
    Days,
    After,
    Before,
    EntryAfter,
    EntryBefore,
}

/// The flag an argument spells, if any.
pub open spec fn flag_spec(a: Seq<char>) -> Option<CliFlag> {
    if a == "--regex"@ { Some(CliFlag::Regex) }
    else if a == "--all-words"@ { Some(CliFlag::AllWords) }
    else if a == "--any-words"@ { Some(CliFlag::AnyWords) }
    else if a == "--case-sensitive"@ { Some(CliFlag::CaseSensitive) }
    else if a == "--ignore-case"@ { Some(CliFlag::IgnoreCase) }
    else if a == "--whole-word"@ { Some(CliFlag::WholeWord) }
    else if a == "--block"@ { Some(CliFlag::Block) }
    else if a == "--gitignore"@ { Some(CliFlag::Gitignore) }
    else if a == "--json"@ { Some(CliFlag::Json) }
    else if a == "--count"@ { Some(CliFlag::Count) }
    else if a == "-l"@ || a == "--files-with-matches"@ { Some(CliFlag::FilesOnly) }
    else if a == "--exclude"@ { Some(CliFlag::Exclude) }
    else if a == "--name"@ { Some(CliFlag::Name) }
    else if a == "--name-regex"@ { Some(CliFlag::NameRegex) }
    else if a == "--ext"@ { Some(CliFlag::Ext) }
    else if a == "--exclude-ext"@ { Some(CliFlag::ExcludeExt) }
    else if a == "--min-kb"@ { Some(CliFlag::MinKb) }
    else if a == "--max-kb"@ { Some(CliFlag::MaxKb) }
    else if a == "--days"@ { Some(CliFlag::Days) }
    else if a == "--after"@ { Some(CliFlag::After) }
    else if a == "--before"@ { Some(CliFlag::Before) }
    else if a == "--entry-after"@ { Some(CliFlag::EntryAfter) }
    else if a == "--entry-before"@ { Some(CliFlag::EntryBefore) }
    else { None }
}

/// Whether a flag takes a value (the next argument).
pub open spec fn takes_value(f: CliFlag) -> bool {
    match f {
        CliFlag::Exclude | CliFlag::Name | CliFlag::Ext | CliFlag::ExcludeExt | CliFlag::MinKb
        | CliFlag::MaxKb | CliFlag::Days | CliFlag::After | CliFlag::Before | CliFlag::EntryAfter
        | CliFlag::EntryBefore => true,
        _ => false,
    }
}

/// What the arguments read so far have set. Dates are kept as the text
/// handed to the timestamp parser.
pub ghost struct CliState {
    pub pattern: Option<Seq<char>>,
    pub roots: Seq<Seq<char>>,
    pub mode: MatchMode,
    pub case: CaseMode,
    pub whole_word: bool,
    pub granularity: Granularity,
    pub exclude: Seq<char>,
    pub gitignore: bool,
    pub output: Output,
    pub name: Seq<char>,
    pub name_regex: bool,
    pub include_exts: Seq<Seq<char>>,
    pub exclude_exts: Seq<Seq<char>>,
    pub min_size: Option<u64>,
    pub max_size: Option<u64>,
    pub days: Option<u64>,
    pub after: Option<Seq<char>>,
    pub before: Option<Seq<char>>,
    pub entry_after: Option<Seq<char>>,
    pub entry_before: Option<Seq<char>>,
}

/// Nothing set yet: a smart-case line-mode substring search printing lines.
pub open spec fn initial_state() -> CliState {
    CliState {
        pattern: None,
        roots: seq![],
        mode: MatchMode::Substring,
        case: CaseMode::Smart,
        whole_word: false,
        granularity: Granularity::Line,
        exclude: seq![],
        gitignore: false,
        output: Output::Lines,
        name: seq![],
        name_regex: false,
        include_exts: seq![],
        exclude_exts: seq![],
        min_size: None,
        max_size: None,
        days: None,
        after: None,
        before: None,
        entry_after: None,
        entry_before: None,
    }
}

/// What a flag without a value sets.
pub open spec fn switch_spec(st: CliState, f: CliFlag) -> CliState {
    match f {
        CliFlag::Regex => CliState { mode: MatchMode::Regex, ..st },
        CliFlag::AllWords => CliState { mode: MatchMode::AllWords, ..st },
        CliFlag::AnyWords => CliState { mode: MatchMode::AnyWords, ..st },
        CliFlag::CaseSensitive => CliState { case: CaseMode::Sensitive, ..st },
        CliFlag::IgnoreCase => CliState { case: CaseMode::Insensitive, ..st },
        CliFlag::WholeWord => CliState { whole_word: true, ..st },
        CliFlag::Block => CliState { granularity: Granularity::Block, ..st },
        CliFlag::Gitignore => CliState { gitignore: true, ..st },
        CliFlag::Json => CliState { output: Output::Json, ..st },
        CliFlag::Count => CliState { output: Output::Count, ..st },
        CliFlag::FilesOnly => CliState { output: Output::FilesOnly, ..st },
        CliFlag::NameRegex => CliState { name_regex: true, ..st },
        _ => st,
    }
}

/// One entry of an extension list: trimmed, leading dots dropped,
/// ASCII-lowercased.
pub open spec fn ext_item(e: Seq<char>) -> Seq<char> {
    trim_start_char_spec(trim_spec(e), '.').map_values(|c: char| lower_char(c))
}

/// The characters that separate entries of an extension list.
pub open spec fn ext_separators() -> Seq<char> {
    seq![',', ';', ' ', '\t']
}

/// An extension list (entries separated by `,`, `;`, space or tab), each
/// entry normalised by [`ext_item`], empty entries dropped.
pub open spec fn exts_spec(s: Seq<char>) -> Seq<Seq<char>> {
    non_empty(split_spec(s, ext_separators()).map_values(|e: Seq<char>| ext_item(e)))
}

/// The error for a number flag whose value is not a number.
pub open spec fn number_error(flag: Seq<char>, v: Seq<char>) -> Seq<char> {
    flag + " expects a number, got '"@ + v + "'"@
}

/// The text a date value is handed to the timestamp parser as: the value
/// trimmed, with ` 00:00:00` added when it is at most 10 bytes long (a date).
pub open spec fn when_candidate(v: Seq<char>) -> Seq<char> {
    let t = trim_spec(v);
    if byte_len(t) <= 10 { t + " 00:00:00"@ } else { t }
}

/// Whether the timestamp parser reads a value from `c`.
pub open spec fn leading_ok(p: TimestampParser, c: Seq<char>) -> bool {
    match p.leading_spec(c) {
        Leading::Unrecognised => false,
        Leading::Naive(s, f) => naive_parses(s, f),
        Leading::Epoch(_) => true,
    }
}

/// The error for a date value the parser cannot read.
pub open spec fn date_error(v: Seq<char>) -> Seq<char> {
    "could not parse date/time: '"@ + trim_spec(v) + "' (use YYYY-MM-DD [HH:MM:SS])"@
}

/// The outcome of one flag with a value.
pub ghost enum ValueStep {
    Assign(CliState),
    Fail(Seq<char>),
    /// A size in KB too large for a byte count.
    Overflow,
}

/// A size flag's value in bytes.
pub open spec fn kb_step(st: CliState, flag: Seq<char>, v: Seq<char>, min: bool) -> ValueStep {
    match crate::strings::parse_u64_spec(trim_spec(v)) {
        None => ValueStep::Fail(number_error(flag, v)),
        Some(n) => if n * 1024 > u64::MAX {
            ValueStep::Overflow
        } else if min {
            ValueStep::Assign(CliState { min_size: Some((n * 1024) as u64), ..st })
        } else {
            ValueStep::Assign(CliState { max_size: Some((n * 1024) as u64), ..st })
        },
    }
}

/// What a flag with the value `v` does.
pub open spec fn value_spec(p: TimestampParser, st: CliState, f: CliFlag, flag: Seq<char>, v: Seq<char>) -> ValueStep {
    let c = when_candidate(v);
    match f {
        CliFlag::Exclude => ValueStep::Assign(CliState { exclude: v, ..st }),
        CliFlag::Name => ValueStep::Assign(CliState { name: v, ..st }),
        CliFlag::Ext => ValueStep::Assign(CliState { include_exts: exts_spec(v), ..st }),
        CliFlag::ExcludeExt => ValueStep::Assign(CliState { exclude_exts: exts_spec(v), ..st }),
        CliFlag::MinKb => kb_step(st, flag, v, true),
        CliFlag::MaxKb => kb_step(st, flag, v, false),
        CliFlag::Days => match crate::strings::parse_u64_spec(trim_spec(v)) {
            None => ValueStep::Fail(number_error(flag, v)),
            Some(n) => ValueStep::Assign(CliState { days: Some(n), ..st }),
        },
        _ => if !leading_ok(p, c) {
            ValueStep::Fail(date_error(v))
        } else {
            match f {
                CliFlag::After => ValueStep::Assign(CliState { after: Some(c), ..st }),
                CliFlag::Before => ValueStep::Assign(CliState { before: Some(c), ..st }),
                CliFlag::EntryAfter => ValueStep::Assign(CliState { entry_after: Some(c), ..st }),
                _ => ValueStep::Assign(CliState { entry_before: Some(c), ..st }),
            }
        },
    }
}

/// The outcome of reading the arguments.
pub ghost enum CliRun {
    Done(CliState),
    Fail(Seq<char>),
    Overflow,
}

/// Reads `args` from position `i` on, in order: a known flag sets what it
/// sets (a flag with a value takes the next argument, and fails when there is
/// none); any other argument starting with `-` (except `-` itself) is an
/// unknown flag; the first remaining argument is the pattern and the rest are
/// roots. The first failure ends the reading.
pub open spec fn run_spec(p: TimestampParser, args: Seq<Seq<char>>, i: int, st: CliState) -> CliRun
    decreases args.len() - i,
{
    if i < 0 || i >= args.len() {
        CliRun::Done(st)
    } else {
        let a = args[i];
        match flag_spec(a) {
            Some(f) => if !takes_value(f) {
                run_spec(p, args, i + 1, switch_spec(st, f))
            } else if i + 1 >= args.len() {
                CliRun::Fail(a + " needs a value"@)
            } else {
                match value_spec(p, st, f, a, args[i + 1]) {
                    ValueStep::Assign(s2) => run_spec(p, args, i + 2, s2),
                    ValueStep::Fail(m) => CliRun::Fail(m),
                    ValueStep::Overflow => CliRun::Overflow,
                }
            },
            None => if a.len() > 0 && a[0] == '-' && a != "-"@ {
                CliRun::Fail("unknown flag: "@ + a)
            } else if st.pattern is None {
                run_spec(p, args, i + 1, CliState { pattern: Some(a), ..st })
            } else {
                run_spec(p, args, i + 1, CliState { roots: st.roots.push(a), ..st })
            },
        }
    }
}

/// Epoch seconds as nanoseconds since the epoch, instants before it
/// clamped to it.
pub open spec fn time_ns(e: i64) -> i128 {
    ((if e < 0 { 0 } else { e as int }) * NANOS_PER_SEC) as i128
}

/// A date field holds a value exactly when a date was given, and the value
/// is one the timestamp parser may read from it.
pub open spec fn date_field(p: TimestampParser, c: Option<Seq<char>>, v: Option<i64>) -> bool {
    &&& (v is Some <==> c is Some)
    &&& (c matches Some(t) ==> (v matches Some(x) ==> leading_reading(p, t, x)))
}

/// The same for a file-date bound held as nanoseconds.
pub open spec fn time_field(p: TimestampParser, c: Option<Seq<char>>, v: Option<i128>) -> bool {
    &&& (v is Some <==> c is Some)
    &&& (c matches Some(t) ==> (v matches Some(n) ==> exists|x: i64| leading_reading(p, t, x) && n == time_ns(x)))
}

/// `c` is the configuration the finished state `st` describes.
pub open spec fn config_of(c: Config, p: TimestampParser, st: CliState, default_root: Seq<char>) -> bool {
    let f = c.opts.filter;
    &&& st.pattern matches Some(pat) && c.query.pattern@ == pat
    &&& c.query.exclude@ == st.exclude
    &&& c.query.mode == st.mode
    &&& c.query.case == st.case
    &&& c.query.whole_word == st.whole_word
    &&& c.query.granularity == st.granularity
    &&& views(c.roots@) == (if st.roots.len() == 0 { seq![default_root] } else { st.roots })
    &&& c.opts.respect_gitignore == st.gitignore
    &&& c.opts.include_hidden
    &&& !c.opts.follow_links
    &&& c.output == st.output
    &&& f.name_pattern@ == st.name
    &&& f.name_is_regex == st.name_regex
    &&& views(f.include_exts@) == st.include_exts
    &&& views(f.exclude_exts@) == st.exclude_exts
    &&& f.min_size == st.min_size
    &&& f.max_size == st.max_size
    &&& f.modified_within_days == st.days
    &&& time_field(p, st.after, f.modified_after)
    &&& time_field(p, st.before, f.modified_before)
    &&& (c.opts.time is Some <==> (st.entry_after is Some || st.entry_before is Some))
    &&& (c.opts.time matches Some(t) ==> {
        &&& date_field(p, st.entry_after, t.after)
        &&& date_field(p, st.entry_before, t.before)
        &&& !t.mtime_prefilter
    })
}

/// The exec counterpart of [`CliState`].
struct Acc {
    pattern: Option<String>,
    roots: Vec<String>,
    mode: MatchMode,
    case: CaseMode,
    whole_word: bool,
    granularity: Granularity,
    exclude: String,
    gitignore: bool,
    output: Output,
    name: String,
    name_regex: bool,
    include_exts: Vec<String>,
    exclude_exts: Vec<String>,
    min_size: Option<u64>,
    max_size: Option<u64>,
    days: Option<u64>,
    after: Option<i64>,
    before: Option<i64>,
    entry_after: Option<i64>,
    entry_before: Option<i64>,
    after_text: Ghost<Option<Seq<char>>>,
    before_text: Ghost<Option<Seq<char>>>,
    entry_after_text: Ghost<Option<Seq<char>>>,
    entry_before_text: Ghost<Option<Seq<char>>>,
}

impl Acc {
    spec fn state(&self) -> CliState {
        CliState {
            pattern: match self.pattern { Some(s) => Some(s@), None => None },
            roots: views(self.roots@),
            mode: self.mode,
            case: self.case,
            whole_word: self.whole_word,
            granularity: self.granularity,
            exclude: self.exclude@,
            gitignore: self.gitignore,
            output: self.output,
            name: self.name@,
            name_regex: self.name_regex,
            include_exts: views(self.include_exts@),
            exclude_exts: views(self.exclude_exts@),
            min_size: self.min_size,
            max_size: self.max_size,
            days: self.days,
            after: self.after_text@,
            before: self.before_text@,
            entry_after: self.entry_after_text@,
            entry_before: self.entry_before_text@,
        }
    }

    spec fn dates_ok(&self, p: TimestampParser) -> bool {
        &&& date_field(p, self.after_text@, self.after)
        &&& date_field(p, self.before_text@, self.before)
        &&& date_field(p, self.entry_after_text@, self.entry_after)
        &&& date_field(p, self.entry_before_text@, self.entry_before)
    }
}

/// The flag `a` spells, if any.
pub fn classify(a: &str) -> (r: Option<CliFlag>)
    ensures
        r == flag_spec(a@),
{
    if str_eq(a, "--regex") { Some(CliFlag::Regex) }
    else if str_eq(a, "--all-words") { Some(CliFlag::AllWords) }
    else if str_eq(a, "--any-words") { Some(CliFlag::AnyWords) }
    else if str_eq(a, "--case-sensitive") { Some(CliFlag::CaseSensitive) }
    else if str_eq(a, "--ignore-case") { Some(CliFlag::IgnoreCase) }
    else if str_eq(a, "--whole-word") { Some(CliFlag::WholeWord) }
    else if str_eq(a, "--block") { Some(CliFlag::Block) }
    else if str_eq(a, "--gitignore") { Some(CliFlag::Gitignore) }
    else if str_eq(a, "--json") { Some(CliFlag::Json) }
    else if str_eq(a, "--count") { Some(CliFlag::Count) }
    else if str_eq(a, "-l") || str_eq(a, "--files-with-matches") { Some(CliFlag::FilesOnly) }
    else if str_eq(a, "--exclude") { Some(CliFlag::Exclude) }
    else if str_eq(a, "--name") { Some(CliFlag::Name) }
    else if str_eq(a, "--name-regex") { Some(CliFlag::NameRegex) }
    else if str_eq(a, "--ext") { Some(CliFlag::Ext) }
    else if str_eq(a, "--exclude-ext") { Some(CliFlag::ExcludeExt) }
    else if str_eq(a, "--min-kb") { Some(CliFlag::MinKb) }
    else if str_eq(a, "--max-kb") { Some(CliFlag::MaxKb) }
    else if str_eq(a, "--days") { Some(CliFlag::Days) }
    else if str_eq(a, "--after") { Some(CliFlag::After) }
    else if str_eq(a, "--before") { Some(CliFlag::Before) }
    else if str_eq(a, "--entry-after") { Some(CliFlag::EntryAfter) }
    else if str_eq(a, "--entry-before") { Some(CliFlag::EntryBefore) }
    else { None }
}

/// The value after a value-taking flag: advances `i` past the flag and
/// returns the next argument, or fails with `"<flag> needs a value"` when
/// there is none.
pub fn take(args: &[String], i: &mut usize, flag: &str) -> (r: Result<String, String>)
    requires
        *old(i) < args@.len(),
    ensures
        *final(i) == *old(i) + 1,
        *old(i) + 1 < args@.len() <==> r is Ok,
        r matches Ok(v) ==> v@ == args@[*old(i) + 1]@,
        r matches Err(e) ==> e@ == flag@ + " needs a value"@,
{
    let n = args.len();
    *i = *i + 1;
    if *i < n {
        Ok(args[*i].clone())
    } else {
        let mut e = flag.to_string();
        e.append(" needs a value");
        Err(e)
    }
}

/// An extension list (see [`exts_spec`]).
pub fn parse_exts(s: &str) -> (r: Vec<String>)
    ensures
        views(r@) == exts_spec(s@),
{
    let pieces = split_chars(s, &[',', ';', ' ', '\t']);
    let ghost ps = split_spec(s@, ext_separators());
    let ghost items = ps.map_values(|e: Seq<char>| ext_item(e));
    proof {
        assert(ext_separators() =~= [',', ';', ' ', '\t']@);
        assert forall|i: int| 0 <= i < ps.len() implies ps[i] == #[trigger] pieces@[i]@ by {
            assert(pieces@.map_values(|w: &str| w@)[i] == pieces@[i]@);
        }
    }
    let mut out: Vec<String> = Vec::new();
    for k in 0..pieces.len()
        invariant
            ps == split_spec(s@, ext_separators()),
            items == ps.map_values(|e: Seq<char>| ext_item(e)),
            ps.len() == pieces@.len(),
            forall|i: int| 0 <= i < ps.len() ==> ps[i] == #[trigger] pieces@[i]@,
            views(out@) == non_empty(items.take(k as int)),
    {
        let e = to_ascii_lowercase(trim_start_char(trim(pieces[k]), '.', 46u8));
        assert(e@ == items[k as int]);
        let ghost before = out@;
        assert(items.take(k + 1).drop_last() =~= items.take(k as int));
        if e.as_str().as_bytes().len() != 0 {
            out.push(e);
            assert(views(out@) =~= views(before).push(e@));
            proof {
                if e@.len() == 0 {
                    assert(e@ =~= Seq::<char>::empty());
                    assert(byte_len(Seq::<char>::empty()) == 0);
                }
            }
        } else {
            proof {
                crate::text::lemma_byte_len_grows(e@, 0, 0);
            }
        }
    }
    assert(items.take(pieces.len() as int) =~= items);
    out
}

/// A number value for `flag`: the value trimmed, as `u64::from_str` reads
/// it; otherwise `"<flag> expects a number, got '<s>'"`.
pub fn parse_u64(s: &str, flag: &str) -> (r: Result<u64, String>)
    ensures
        r is Ok <==> crate::strings::parse_u64_spec(trim_spec(s@)) is Some,
        r matches Ok(n) ==> crate::strings::parse_u64_spec(trim_spec(s@)) == Some(n),
        r matches Err(e) ==> e@ == number_error(flag@, s@),
{
    match crate::strings::parse_u64(trim(s)) {
        Some(n) => Ok(n),
        None => {
            let mut e = flag.to_string();
            e.append(" expects a number, got '");
            e.append(s);
            e.append("'");
            Err(e)
        },
    }
}

/// A date value (`YYYY-MM-DD` or `YYYY-MM-DD HH:MM:SS`, local time) as
/// epoch seconds, read by the timestamp parser from [`when_candidate`];
/// otherwise the date error.
pub fn parse_when(parser: &TimestampParser, v: &str) -> (r: Result<i64, String>)
    requires
        parser.patterns_wf(),
    ensures
        r is Ok <==> leading_ok(*parser, when_candidate(v@)),
        r matches Ok(e) ==> leading_reading(*parser, when_candidate(v@), e),
        r matches Err(m) ==> m@ == date_error(v@),
{
    let t = trim(v);
    let mut candidate = t.to_string();
    if t.as_bytes().len() <= 10 {
        candidate.append(" 00:00:00");
    }
    match parser.parse_leading(candidate.as_str()) {
        Some(e) => Ok(e),
        None => {
            let mut m = String::new();
            m.append("could not parse date/time: '");
            m.append(t);
            m.append("' (use YYYY-MM-DD [HH:MM:SS])");
            Err(m)
        },
    }
}

/// Epoch seconds as an instant (nanoseconds since the epoch); instants
/// before the epoch are clamped to it.
pub fn to_time(epoch: i64) -> (r: i128)
    ensures
        r == time_ns(epoch),
{
    let secs: i128 = if epoch < 0 { 0 } else { epoch as i128 };
    secs * NANOS_PER_SEC
}

/// Why reading the arguments stopped early.
enum Stop {
    /// An error to report.
    Fail(String),
    /// A size in KB too large for a byte count.
    Overflow,
}

/// Applies a flag without a value.
fn apply_switch(acc: &mut Acc, f: CliFlag)
    requires
        !takes_value(f),
    ensures
        final(acc).state() == switch_spec(old(acc).state(), f),
        final(acc).after == old(acc).after,
        final(acc).before == old(acc).before,
        final(acc).entry_after == old(acc).entry_after,
        final(acc).entry_before == old(acc).entry_before,
        final(acc).after_text == old(acc).after_text,
        final(acc).before_text == old(acc).before_text,
        final(acc).entry_after_text == old(acc).entry_after_text,
        final(acc).entry_before_text == old(acc).entry_before_text,
{
    match f {
        CliFlag::Regex => acc.mode = MatchMode::Regex,
        CliFlag::AllWords => acc.mode = MatchMode::AllWords,
        CliFlag::AnyWords => acc.mode = MatchMode::AnyWords,
        CliFlag::CaseSensitive => acc.case = CaseMode::Sensitive,
        CliFlag::IgnoreCase => acc.case = CaseMode::Insensitive,
        CliFlag::WholeWord => acc.whole_word = true,
        CliFlag::Block => acc.granularity = Granularity::Block,
        CliFlag::Gitignore => acc.gitignore = true,
        CliFlag::Json => acc.output = Output::Json,
        CliFlag::Count => acc.output = Output::Count,
        CliFlag::FilesOnly => acc.output = Output::FilesOnly,
        CliFlag::NameRegex => acc.name_regex = true,
        _ => {},
    }
}

/// Applies a flag with the value `v`.
fn apply_value(p: &TimestampParser, acc: &mut Acc, f: CliFlag, flag: &str, v: &str) -> (r: Result<(), Stop>)
    requires
        p.patterns_wf(),
        takes_value(f),
        old(acc).dates_ok(*p),
    ensures
        final(acc).dates_ok(*p),
        match value_spec(*p, old(acc).state(), f, flag@, v@) {
            ValueStep::Assign(s2) => r is Ok && final(acc).state() == s2,
            ValueStep::Fail(m) => r matches Err(Stop::Fail(e)) && e@ == m,
            ValueStep::Overflow => r matches Err(Stop::Overflow),
        },
{
    match f {
        CliFlag::Exclude => {
            acc.exclude = v.to_string();
            Ok(())
        },
        CliFlag::Name => {
            acc.name = v.to_string();
            Ok(())
        },
        CliFlag::Ext => {
            acc.include_exts = parse_exts(v);
            Ok(())
        },
        CliFlag::ExcludeExt => {
            acc.exclude_exts = parse_exts(v);
            Ok(())
        },
        CliFlag::MinKb | CliFlag::MaxKb => {
            let n = match parse_u64(v, flag) {
                Ok(n) => n,
                Err(e) => return Err(Stop::Fail(e)),
            };
            if n > u64::MAX / 1024 {
                return Err(Stop::Overflow);
            }
            if f == CliFlag::MinKb {
                acc.min_size = Some(n * 1024);
            } else {
                acc.max_size = Some(n * 1024);
            }
            Ok(())
        },
        CliFlag::Days => {
            let n = match parse_u64(v, flag) {
                Ok(n) => n,
                Err(e) => return Err(Stop::Fail(e)),
            };
            acc.days = Some(n);
            Ok(())
        },
        _ => {
            let e = match parse_when(p, v) {
                Ok(e) => e,
                Err(m) => return Err(Stop::Fail(m)),
            };
            let ghost c = when_candidate(v@);
            if f == CliFlag::After {
                acc.after = Some(e);
                acc.after_text = Ghost(Some(c));
            } else if f == CliFlag::Before {
                acc.before = Some(e);
                acc.before_text = Ghost(Some(c));
            } else if f == CliFlag::EntryAfter {
                acc.entry_after = Some(e);
                acc.entry_after_text = Ghost(Some(c));
            } else {
                acc.entry_before = Some(e);
                acc.entry_before_text = Ghost(Some(c));
            }
            Ok(())
        },
    }
}

/// An optional date as an optional instant.
fn opt_time(v: Option<i64>) -> (r: Option<i128>)
    ensures
        r is Some <==> v is Some,
        v matches Some(e) ==> r == Some(time_ns(e)),
{
    match v {
        Some(e) => Some(to_time(e)),
        None => None,
    }
}

/// Reads all the arguments (see [`run_spec`]).
fn run(args: &[String], parser: &TimestampParser) -> (r: Result<Acc, Stop>)
    requires
        parser.patterns_wf(),
    ensures
        match run_spec(*parser, views(args@), 0, initial_state()) {
            CliRun::Fail(m) => r matches Err(Stop::Fail(e)) && e@ == m,
            CliRun::Overflow => r matches Err(Stop::Overflow),
            CliRun::Done(st) => r matches Ok(acc) && acc.state() == st && acc.dates_ok(*parser),
        },
{
    let ghost av = views(args@);
    let mut acc = Acc {
        pattern: None,
        roots: Vec::new(),
        mode: MatchMode::Substring,
        case: CaseMode::Smart,
        whole_word: false,
        granularity: Granularity::Line,
        exclude: String::new(),
        gitignore: false,
        output: Output::Lines,
        name: String::new(),
        name_regex: false,
        include_exts: Vec::new(),
        exclude_exts: Vec::new(),
        min_size: None,
        max_size: None,
        days: None,
        after: None,
        before: None,
        entry_after: None,
        entry_before: None,
        after_text: Ghost(None),
        before_text: Ghost(None),
        entry_after_text: Ghost(None),
        entry_before_text: Ghost(None),
    };
    assert(views(acc.roots@) =~= Seq::<Seq<char>>::empty());
    assert(views(acc.include_exts@) =~= Seq::<Seq<char>>::empty());
    assert(acc.state() =~= initial_state());
    let n = args.len();
    let mut i: usize = 0;
    while i < n
        invariant
            n == args@.len(),
            av == views(args@),
            i <= n,
            parser.patterns_wf(),
            acc.dates_ok(*parser),
            run_spec(*parser, av, 0, initial_state()) == run_spec(*parser, av, i as int, acc.state()),
        decreases n - i,
    {
        let a = args[i].as_str();
        assert(a@ == av[i as int]);
        match classify(a) {
            Some(f) => {
                if f == CliFlag::Exclude || f == CliFlag::Name || f == CliFlag::Ext || f == CliFlag::ExcludeExt
                    || f == CliFlag::MinKb || f == CliFlag::MaxKb || f == CliFlag::Days || f == CliFlag::After
                    || f == CliFlag::Before || f == CliFlag::EntryAfter || f == CliFlag::EntryBefore {
                    let v = match take(args, &mut i, a) {
                        Ok(v) => v,
                        Err(e) => return Err(Stop::Fail(e)),
                    };
                    assert(v@ == av[i as int]);
                    apply_value(parser, &mut acc, f, a, v.as_str())?;
                    i = i + 1;
                } else {
                    apply_switch(&mut acc, f);
                    i = i + 1;
                }
            },
            None => {
                if strip_prefix_ascii(a, '-', 45u8).is_some() && !str_eq(a, "-") {
                    let mut e = String::new();
                    e.append("unknown flag: ");
                    e.append(a);
                    return Err(Stop::Fail(e));
                }
                if acc.pattern.is_none() {
                    acc.pattern = Some(a.to_string());
                } else {
                    let ghost before = acc.roots@;
                    acc.roots.push(a.to_string());
                    assert(views(acc.roots@) =~= views(before).push(a@));
                }
                i = i + 1;
            },
        }
    }
    Ok(acc)
}

/// Whether reading the arguments reaches a size in KB whose byte count does
/// not fit in a `u64` (before any error), which [`parse`] does not accept.
pub fn kb_overflows(args: &[String], parser: &TimestampParser) -> (b: bool)
    requires
        parser.patterns_wf(),
    ensures
        b == (run_spec(*parser, views(args@), 0, initial_state()) is Overflow),
{
    match run(args, parser) {
        Err(Stop::Overflow) => true,
        _ => false,
    }
}

/// Parses the arguments (without the program name), given the directory to
/// search when no root is named and the timestamp parser for date values.
/// The outcome is [`run_spec`] from the first argument: its failure message,
/// `"no search pattern given"` when no pattern was found, or the
/// configuration the final state describes. A size in KB whose byte count
/// does not fit in a `u64` is not accepted (see [`kb_overflows`]).
pub fn parse(args: &[String], default_root: &str, parser: &TimestampParser) -> (r: Result<Config, String>)
    requires
        parser.patterns_wf(),
        !(run_spec(*parser, views(args@), 0, initial_state()) is Overflow),
    ensures
        match run_spec(*parser, views(args@), 0, initial_state()) {
            CliRun::Fail(m) => r matches Err(e) && e@ == m,
            CliRun::Done(st) => if st.pattern is None {
                r matches Err(e) && e@ == "no search pattern given"@
            } else {
                r matches Ok(c) && config_of(c, *parser, st, default_root@)
            },
            CliRun::Overflow => false,
        },
{
    let acc = match run(args, parser) {
        Ok(acc) => acc,
        Err(Stop::Fail(e)) => return Err(e),
        Err(Stop::Overflow) => return Err(String::new()),
    };
    let pattern = match acc.pattern {
        Some(p) => p,
        None => return Err("no search pattern given".to_string()),
    };
    let mut roots = acc.roots;
    if roots.len() == 0 {
        roots.push(default_root.to_string());
        assert(views(roots@) =~= seq![default_root@]);
    }
    let time = if acc.entry_after.is_some() || acc.entry_before.is_some() {
        Some(TimeFilter { after: acc.entry_after, before: acc.entry_before, mtime_prefilter: false })
    } else {
        None
    };
    let filter = FileFilter {
        name_pattern: acc.name,
        name_is_regex: acc.name_regex,
        include_exts: acc.include_exts,
        exclude_exts: acc.exclude_exts,
        min_size: acc.min_size,
        max_size: acc.max_size,
        modified_within_days: acc.days,
        modified_after: opt_time(acc.after),
        modified_before: opt_time(acc.before),
    };
    let opts = ScanOptions {
        respect_gitignore: acc.gitignore,
        include_hidden: true,
        follow_links: false,
        filter,
        time,
    };
    Ok(Config {
        query: Query {
            pattern,
            exclude: acc.exclude,
            mode: acc.mode,
            case: acc.case,
            whole_word: acc.whole_word,
            granularity: acc.granularity,
        },
        roots,
        opts,
        output: acc.output,
    })
}

/// The JSON escape of one character: `"`, `\`, newline, carriage return
/// and tab by their short escapes, other control characters as `\u00XX`
/// (lowercase hex), everything else as itself.
pub open spec fn escape_char_spec(c: char) -> Seq<char> {
    if c == '"' {
        seq!['\\', '"']
    } else if c == '\\' {
        seq!['\\', '\\']
    } else if c == '\n' {
        seq!['\\', 'n']
    } else if c == '\r' {
        seq!['\\', 'r']
    } else if c == '\t' {
        seq!['\\', 't']
    } else if (c as u32) < 0x20 {
        seq!['\\', 'u', '0', '0', hex_digit((c as u32) / 16), hex_digit((c as u32) % 16)]
    } else {
        seq![c]
    }
}

/// The lowercase hex digit for `d < 16`.
pub open spec fn hex_digit(d: u32) -> char {
    if d < 10 { (48 + d) as char } else { (87 + d) as char }
}

/// The JSON string escape of `s`, character by character.
pub open spec fn json_escape_spec(s: Seq<char>) -> Seq<char>
    decreases s.len(),
{
    if s.len() == 0 {
        seq![]
    } else {
        json_escape_spec(s.drop_last()) + escape_char_spec(s.last())
    }
}

/// The lowercase hex digit for `d < 16`.
fn hex(d: u32) -> (c: char)
    requires
        d < 16,
    ensures
        c == hex_digit(d),
{
    if d < 10 {
        ((d as u8) + 48) as char
    } else {
        ((d as u8) + 87) as char
    }
}

/// Escapes `s` for use inside a JSON string.
pub fn json_escape(s: &str) -> (r: String)
    ensures
        r@ == json_escape_spec(s@),
{
    let ghost q = s@;
    let mut o = String::new();
    for c in it: s.chars()
        invariant
            q == s@,
            it.seq() == q,
            o@ == json_escape_spec(q.take(it.index())),
    {
        let ghost k = it.index();
        let ghost before = o@;
        assert(c == q[k]);
        if c == '"' {
            push_char(&mut o, '\\');
            push_char(&mut o, '"');
        } else if c == '\\' {
            push_char(&mut o, '\\');
            push_char(&mut o, '\\');
        } else if c == '\n' {
            push_char(&mut o, '\\');
            push_char(&mut o, 'n');
        } else if c == '\r' {
            push_char(&mut o, '\\');
            push_char(&mut o, 'r');
        } else if c == '\t' {
            push_char(&mut o, '\\');
            push_char(&mut o, 't');
        } else if (c as u32) < 0x20 {
            let v = c as u32;
            push_char(&mut o, '\\');
            push_char(&mut o, 'u');
            push_char(&mut o, '0');
            push_char(&mut o, '0');
            push_char(&mut o, hex(v / 16));
            push_char(&mut o, hex(v % 16));
        } else {
            push_char(&mut o, c);
        }
        assert(q.take(k + 1).drop_last() =~= q.take(k));
        assert(o@ =~= before + escape_char_spec(c));
    }
    assert(q.take(q.len() as int) =~= q);
    o
}

/// The escape of a text holds no control character and no unescaped
/// quote: every `"` in it follows a backslash.
pub proof fn law_escape_is_clean(s: Seq<char>)
    ensures
        forall|i: int| 0 <= i < json_escape_spec(s).len() ==> (#[trigger] json_escape_spec(s)[i] as u32) >= 0x20,
        forall|i: int| 0 <= i < json_escape_spec(s).len() && #[trigger] json_escape_spec(s)[i] == '"'
            ==> i > 0 && json_escape_spec(s)[i - 1] == '\\',
    decreases s.len(),
{
    if s.len() > 0 {
        law_escape_is_clean(s.drop_last());
        let p = json_escape_spec(s.drop_last());
        let e = escape_char_spec(s.last());
        let c = s.last();
        let v = c as u32;
        assert(json_escape_spec(s) == p + e);
        if v < 0x20 && c != '\n' && c != '\r' && c != '\t' {
            assert(hex_digit(v / 16) as u32 >= 0x20 && hex_digit(v % 16) as u32 >= 0x20) by {
                assert(v / 16 < 16 && v % 16 < 16);
            }
        }
        assert forall|i: int| 0 <= i < e.len() implies (#[trigger] e[i] as u32) >= 0x20
            && (e[i] == '"' ==> i > 0 && e[i - 1] == '\\') by {
        }
        assert forall|i: int| 0 <= i < (p + e).len() implies (#[trigger] (p + e)[i] as u32) >= 0x20 by {
            if i >= p.len() {
                assert((p + e)[i] == e[i - p.len()]);
            }
        }
        assert forall|i: int| 0 <= i < (p + e).len() && #[trigger] (p + e)[i] == '"' implies i > 0 && (p + e)[i - 1] == '\\' by {
            if i >= p.len() {
                assert((p + e)[i] == e[i - p.len()]);
                assert((p + e)[i - 1] == e[i - p.len() - 1]);
            } else {
                assert((p + e)[i] == p[i]);
                assert((p + e)[i - 1] == p[i - 1]);
            }
        }
    }
}


/// The value of a hex digit (either case).
pub open spec fn hex_value(c: char) -> Option<int> {
    let v = c as u32;
    if 48 <= v <= 57 {
        Some(v - 48)
    } else if 97 <= v <= 102 {
        Some(v - 87)
    } else if 65 <= v <= 70 {
        Some(v - 55)
    } else {
        None
    }
}

/// The value of the four hex digits that `t` starts with, if they are.
pub open spec fn hex4(t: Seq<char>) -> Option<int> {
    if t.len() < 4 {
        None
    } else {
        match (hex_value(t[0]), hex_value(t[1]), hex_value(t[2]), hex_value(t[3])) {
            (Some(a), Some(b), Some(c), Some(d)) => Some(((a * 16 + b) * 16 + c) * 16 + d),
            _ => None,
        }
    }
}

/// The character a two-character JSON escape `\e` stands for.
pub open spec fn short_escape(e: char) -> Option<char> {
    if e == '"' {
        Some('"')
    } else if e == '\\' {
        Some('\\')
    } else if e == '/' {
        Some('/')
    } else if e == 'b' {
        Some('\u{8}')
    } else if e == 'f' {
        Some('\u{c}')
    } else if e == 'n' {
        Some('\n')
    } else if e == 'r' {
        Some('\r')
    } else if e == 't' {
        Some('\t')
    } else {
        None
    }
}

/// `c` in front of a decoded text, if there is one.
pub open spec fn prepend(c: char, r: Option<Seq<char>>) -> Option<Seq<char>> {
    match r {
        Some(x) => Some(seq![c] + x),
        None => None,
    }
}

/// The text a JSON string body (what stands between the quotes) stands for
/// under RFC 8259: `None` when it holds an unescaped quote or control
/// character, or a backslash that starts no valid escape (a `\u` escape of
/// a UTF-16 surrogate must be a high one followed by a low one).
pub open spec fn json_unescape(t: Seq<char>) -> Option<Seq<char>>
    decreases t.len(),
{
    if t.len() == 0 {
        Some(seq![])
    } else if t[0] == '"' || (t[0] as u32) < 0x20 {
        None
    } else if t[0] != '\\' {
        prepend(t[0], json_unescape(t.drop_first()))
    } else if t.len() < 2 {
        None
    } else if short_escape(t[1]) is Some {
        prepend(short_escape(t[1])->0, json_unescape(t.subrange(2, t.len() as int)))
    } else if t[1] == 'u' && hex4(t.subrange(2, t.len() as int)) is Some {
        let v = hex4(t.subrange(2, t.len() as int))->0;
        if 0xD800 <= v < 0xDC00 {
            if t.len() >= 12 && t[6] == '\\' && t[7] == 'u' && hex4(t.subrange(8, t.len() as int)) is Some
                && 0xDC00 <= hex4(t.subrange(8, t.len() as int))->0 < 0xE000 {
                let w = hex4(t.subrange(8, t.len() as int))->0;
                prepend((0x10000 + (v - 0xD800) * 0x400 + (w - 0xDC00)) as u32 as char, json_unescape(t.subrange(12, t.len() as int)))
            } else {
                None
            }
        } else if 0xDC00 <= v < 0xE000 {
            None
        } else {
            prepend(v as u32 as char, json_unescape(t.subrange(6, t.len() as int)))
        }
    } else {
        None
    }
}

/// The escape of a text is the escape of its first character followed by
/// the escape of the rest.
proof fn lemma_escape_front(s: Seq<char>)
    requires
        s.len() > 0,
    ensures
        json_escape_spec(s) == escape_char_spec(s[0]) + json_escape_spec(s.drop_first()),
    decreases s.len(),
{
    if s.len() == 1 {
        assert(s.drop_last().len() == 0);
        assert(s.drop_first().len() == 0);
        assert(json_escape_spec(s.drop_last()) == Seq::<char>::empty());
        assert(json_escape_spec(s.drop_first()) == Seq::<char>::empty());
        assert(s.last() == s[0]);
        assert(json_escape_spec(s) == json_escape_spec(s.drop_last()) + escape_char_spec(s.last()));
        assert(json_escape_spec(s) =~= escape_char_spec(s[0]));
        assert(escape_char_spec(s[0]) + json_escape_spec(s.drop_first()) =~= escape_char_spec(s[0]));
    } else {
        lemma_escape_front(s.drop_last());
        assert(s.drop_last().drop_first() =~= s.drop_first().drop_last());
        assert(s.drop_first().last() == s.last());
        assert(s.drop_last()[0] == s[0]);
        assert(json_escape_spec(s.drop_first())
            == json_escape_spec(s.drop_first().drop_last()) + escape_char_spec(s.drop_first().last()));
        assert(json_escape_spec(s) =~= escape_char_spec(s[0]) + json_escape_spec(s.drop_first()));
    }
}

/// A hex digit reads back as its value.
proof fn lemma_hex_roundtrip(d: u32)
    requires
        d < 16,
    ensures
        hex_value(hex_digit(d)) == Some(d as int),
{
}

/// Decoding the escape of `c` followed by `rest` gives `c` followed by the
/// decoding of `rest`.
proof fn lemma_unescape_one(c: char, rest: Seq<char>)
    ensures
        json_unescape(escape_char_spec(c) + rest) == prepend(c, json_unescape(rest)),
{
    let e = escape_char_spec(c);
    let t = e + rest;
    let v = c as u32;
    if c == '"' || c == '\\' || c == '\n' || c == '\r' || c == '\t' {
        assert(t[0] == '\\');
        assert(t.subrange(2, t.len() as int) =~= rest);
    } else if v < 0x20 {
        let h = t.subrange(2, t.len() as int);
        lemma_hex_roundtrip(v / 16);
        lemma_hex_roundtrip(v % 16);
        assert(h[0] == '0' && h[1] == '0' && h[2] == hex_digit(v / 16) && h[3] == hex_digit(v % 16));
        assert(hex_value('0') == Some(0int));
        assert(hex4(h) == Some(v as int));
        assert(t.subrange(6, t.len() as int) =~= rest);
        assert((v as int) as u32 as char == c);
    } else {
        assert(t[0] == c);
        assert(t.drop_first() =~= rest);
    }
}

/// Decoding the escape of `s` gives `s` back.
proof fn lemma_escape_decodes_back(s: Seq<char>)
    ensures
        json_unescape(json_escape_spec(s)) == Some(s),
    decreases s.len(),
{
    if s.len() == 0 {
        assert(json_escape_spec(s) =~= Seq::<char>::empty());
    } else {
        lemma_escape_front(s);
        lemma_escape_decodes_back(s.drop_first());
        lemma_unescape_one(s[0], json_escape_spec(s.drop_first()));
        assert(seq![s[0]] + s.drop_first() =~= s);
    }
}

/// What [`json_escape`] gives holds no raw control character (nothing
/// below U+0020), and, put between quotes, is a JSON string (RFC 8259)
/// whose value is exactly the input.
pub proof fn law_json_escape_round_trips(s: Seq<char>)
    ensures
        forall|i: int| 0 <= i < json_escape_spec(s).len() ==> (#[trigger] json_escape_spec(s)[i] as u32) >= 0x20,
        json_unescape(json_escape_spec(s)) == Some(s),
{
    law_escape_is_clean(s);
    lemma_escape_decodes_back(s);
}

} // verus!
