//! Which files a search visits: name pattern, extensions, size and age.
use vstd::prelude::*;
use vstd::string::*;
use crate::pattern::{escape, escape_spec, regex_compiles, regex_matches, Pattern};
use crate::strings::{is_empty_str, lower_char, push_char, split_spec, str_eq, to_ascii_lowercase, lemma_split_nonempty, split_chars};
use crate::timestamp::{leading_reading, naive_parses, Leading, TimestampParser};
use crate::text::{byte_len, lemma_boundary_at, lemma_byte_len_grows, lemma_byte_len_push, slice, utf8_width};

verus! {

/// The regex text for one glob character: `*` is any run, `?` any one
/// character, anything else itself (escaped).
pub open spec fn glob_char_spec(c: char) -> Seq<char> {
    if c == '*' {
        seq!['.', '*']
    } else if c == '?' {
        seq!['.']
    } else {
        escape_spec(seq![c])
    }
}

/// The regex text for a glob, character by character.
pub open spec fn glob_body(g: Seq<char>) -> Seq<char>
    decreases g.len(),
{
    if g.len() == 0 {
        seq![]
    } else {
        glob_body(g.drop_last()) + glob_char_spec(g.last())
    }
}

/// The anchored, case-insensitive regex for a shell-style glob.
pub open spec fn glob_regex_spec(g: Seq<char>) -> Seq<char> {
    "(?i)^"@ + glob_body(g) + seq!['$']
}

/// Turns a shell-style glob (`*`, `?`) into an anchored,
/// case-insensitive regex source; all other characters are literal.
pub fn glob_to_regex(glob: &str) -> (r: String)
    ensures
        r@ == glob_regex_spec(glob@),
{
    let ghost q = glob@;
    let mut body = String::new();
    let mut k: usize = 0;
    let mut byte: usize = 0;
    let total = glob.as_bytes().len();
    proof {
        lemma_byte_len_grows(q, 0, 0);
        lemma_boundary_at(q, q.len() as int);
        assert(q.take(q.len() as int) =~= q);
        assert(q.take(0) =~= Seq::<char>::empty());
    }
    for c in it: glob.chars()
        invariant
            q == glob@,
            it.seq() == q,
            k == it.index(),
            total == byte_len(q),
            byte == byte_len(q.take(k as int)),
            body@ == glob_body(q.take(k as int)),
    {
        assert(c == q[k as int]);
        let ghost tk1 = q.take(k + 1);
        proof {
            lemma_byte_len_push(q.take(k as int), c);
            assert(tk1 =~= q.take(k as int).push(c));
            assert(tk1.drop_last() =~= q.take(k as int));
            lemma_boundary_at(q, k + 1);
            lemma_byte_len_grows(q, 0, 0);
        }
        let w = utf8_width(c);
        if c == '*' {
            push_char(&mut body, '.');
            push_char(&mut body, '*');
        } else if c == '?' {
            push_char(&mut body, '.');
        } else {
            let piece = slice(glob, Ghost(k as int), Ghost(k + 1), byte, byte + w);
            assert(piece@ =~= seq![c]);
            body.append(escape(piece).as_str());
        }
        assert(body@ =~= glob_body(tk1));
        byte = byte + w;
        k = k + 1;
    }
    let mut r = String::new();
    r.append("(?i)^");
    r.append(body.as_str());
    push_char(&mut r, '$');
    assert(q.take(k as int) =~= q);
    r
}


/// Nanoseconds per second.
pub const NANOS_PER_SEC: i128 = 1_000_000_000;

/// The earliest and latest instants (nanoseconds since the Unix epoch) that a
/// system time can hold: whole seconds fit in an `i64`.
pub open spec fn time_in_range(t: int) -> bool {
    i64::MIN * NANOS_PER_SEC <= t < (i64::MAX + 1) * NANOS_PER_SEC
}

/// Restricts which files a search visits. Empty fields impose no restriction.
/// Instants are nanoseconds since the Unix epoch.
#[derive(Clone, Debug)]
pub struct FileFilter {
    /// Match the file name against this pattern (a glob, or a regex if
    /// `name_is_regex`), ignoring case. Empty means no name filter.
    pub name_pattern: String,
    pub name_is_regex: bool,
    /// Lowercase extensions to include (without the dot). Empty means all.
    pub include_exts: Vec<String>,
    /// Lowercase extensions to exclude (takes precedence over include).
    pub exclude_exts: Vec<String>,
    /// Inclusive size bounds, in bytes.
    pub min_size: Option<u64>,
    pub max_size: Option<u64>,
    /// Only files modified within this many days.
    pub modified_within_days: Option<u64>,
    /// Only files modified at or after this instant.
    pub modified_after: Option<i128>,
    /// Only files modified at or before this instant.
    pub modified_before: Option<i128>,
}

impl FileFilter {
    /// The filter that restricts nothing.
    pub open spec fn is_unrestricted(&self) -> bool {
        &&& self.name_pattern@.len() == 0
        &&& !self.name_is_regex
        &&& self.include_exts@.len() == 0
        &&& self.exclude_exts@.len() == 0
        &&& self.min_size is None
        &&& self.max_size is None
        &&& self.modified_within_days is None
        &&& self.modified_after is None
        &&& self.modified_before is None
    }
}

impl Default for FileFilter {
    fn default() -> (f: Self)
        ensures
            f.is_unrestricted(),
    {
        FileFilter {
            name_pattern: String::new(),
            name_is_regex: false,
            include_exts: Vec::new(),
            exclude_exts: Vec::new(),
            min_size: None,
            max_size: None,
            modified_within_days: None,
            modified_after: None,
            modified_before: None,
        }
    }
}

/// Bounds on the timestamp inside each matching line or block (epoch seconds).
#[derive(Clone, Copy, Debug)]
pub struct TimeFilter {
    /// Keep entries at or after this instant.
    pub after: Option<i64>,
    /// Keep entries at or before this instant.
    pub before: Option<i64>,
    /// Skip files last modified before `after` without reading them.
    pub mtime_prefilter: bool,
}

/// Options controlling the walk.
#[derive(Clone, Debug)]
pub struct ScanOptions {
    pub respect_gitignore: bool,
    pub include_hidden: bool,
    pub follow_links: bool,
    /// Which files are searched.
    pub filter: FileFilter,
    /// The entry-time filter, if any.
    pub time: Option<TimeFilter>,
}

impl Default for ScanOptions {
    /// See everything: ignore `.gitignore`, descend hidden directories, do not
    /// follow links, no filters.
    fn default() -> (o: Self)
        ensures
            !o.respect_gitignore,
            o.include_hidden,
            !o.follow_links,
            o.filter.is_unrestricted(),
            o.time is None,
    {
        ScanOptions {
            respect_gitignore: false,
            include_hidden: true,
            follow_links: false,
            filter: FileFilter::default(),
            time: None,
        }
    }
}

/// What the filter needs to know of a file besides its name.
#[derive(Clone, Copy, Debug)]
pub struct FileMeta {
    /// Size in bytes.
    pub len: u64,
    /// Last modification instant, if the platform reports one.
    pub modified: Option<i128>,
}

/// The extension of a file name: the part after its last `.`, unless the
/// name has no `.`, is `..`, or has its only `.` at the start.
pub open spec fn ext_spec(name: Seq<char>) -> Option<Seq<char>> {
    let p = split_spec(name, seq!['.']);
    if name == seq!['.', '.'] || p.len() < 2 || (p.len() == 2 && p[0].len() == 0) {
        None
    } else {
        Some(p.last())
    }
}

/// The lowercased extension of an (optional) file name, empty when there is none.
pub open spec fn lower_ext_spec(name: Option<Seq<char>>) -> Seq<char> {
    match name {
        Some(n) => match ext_spec(n) {
            Some(e) => e.map_values(|c: char| lower_char(c)),
            None => seq![],
        },
        None => seq![],
    }
}

/// The extension of a file name (see [`ext_spec`]).
pub fn extension(name: &str) -> (r: Option<&str>)
    ensures
        r is Some <==> ext_spec(name@) is Some,
        r matches Some(e) ==> e@ == ext_spec(name@)->0,
{
    let parts = split_chars(name, &['.']);
    let ghost p = split_spec(name@, seq!['.']);
    proof {
        assert(seq!['.'] =~= ['.']@);
        lemma_split_nonempty(name@, seq!['.']);
        reveal_strlit("..");
        assert(".."@ =~= seq!['.', '.']);
        assert(p.len() == parts@.len());
        assert forall|i: int| 0 <= i < p.len() implies p[i] == #[trigger] parts@[i]@ by {
            assert(parts@.map_values(|w: &str| w@)[i] == parts@[i]@);
        }
    }
    let n = parts.len();
    if str_eq(name, "..") {
        return None;
    }
    if n < 2 || (n == 2 && parts[0].as_bytes().len() == 0) {
        proof {
            if n == 2 && parts@[0]@.len() == 0 {
                assert(parts@[0]@ =~= Seq::<char>::empty());
            }
        }
        None
    } else {
        proof {
            if n == 2 {
                lemma_byte_len_grows(parts@[0]@, 0, 0);
                assert(parts@[0]@.len() != 0) by {
                    if parts@[0]@.len() == 0 {
                        assert(parts@[0]@ =~= Seq::<char>::empty());
                        assert(byte_len(Seq::<char>::empty()) == 0);
                    }
                }
            }
            assert(p.last() == parts@[n - 1]@);
        }
        Some(parts[n - 1])
    }
}

/// The views of a vector of strings.
pub open spec fn views(v: Seq<String>) -> Seq<Seq<char>> {
    v.map_values(|s: String| s@)
}

/// Whether `v` holds a string equal to `s`.
pub fn contains_string(v: &Vec<String>, s: &String) -> (b: bool)
    ensures
        b == views(v@).contains(s@),
{
    let mut i: usize = 0;
    while i < v.len()
        invariant
            0 <= i <= v@.len(),
            forall|j: int| 0 <= j < i ==> v@[j]@ != s@,
        decreases v@.len() - i,
    {
        if v[i] == *s {
            assert(views(v@)[i as int] == s@);
            return true;
        }
        i = i + 1;
    }
    assert(!views(v@).contains(s@)) by {
        if views(v@).contains(s@) {
            let j = choose|j: int| 0 <= j < views(v@).len() && views(v@)[j] == s@;
            assert(v@[j]@ == s@);
        }
    }
    false
}


/// Seconds per day.
pub const SECS_PER_DAY: u64 = 86_400;

/// The regex source a name filter is compiled from: the pattern itself
/// (case-insensitive) when it is a regex, else the regex the glob stands for.
pub open spec fn name_source_spec(f: FileFilter) -> Seq<char> {
    if f.name_is_regex {
        "(?i)"@ + f.name_pattern@
    } else {
        glob_regex_spec(f.name_pattern@)
    }
}

/// The length in nanoseconds of a window of `d` days; the seconds saturate
/// at `u64::MAX`.
pub open spec fn window_nanos(d: u64) -> int {
    let secs = if d * SECS_PER_DAY > u64::MAX { u64::MAX as int } else { d * SECS_PER_DAY };
    secs * NANOS_PER_SEC
}

/// The floor that a relative window puts on the modification time.
pub open spec fn days_floor(f: FileFilter, now: int) -> Option<int> {
    match f.modified_within_days {
        Some(d) => Some(now - window_nanos(d)),
        None => None,
    }
}

/// The effective lower bound on the modification time: the later of the
/// relative window's floor and the absolute bound.
pub open spec fn floor_spec(f: FileFilter, now: int) -> Option<int> {
    match (days_floor(f, now), f.modified_after) {
        (Some(a), Some(b)) => Some(if a >= b { a } else { b as int }),
        (Some(a), None) => Some(a),
        (None, Some(b)) => Some(b as int),
        (None, None) => None,
    }
}

/// What compiling a filter needs: `now` and the window's floor are times a
/// system clock can hold.
pub open spec fn compile_ok(f: FileFilter, now: int) -> bool {
    &&& time_in_range(now)
    &&& (days_floor(f, now) matches Some(a) ==> time_in_range(a))
}

/// A [`FileFilter`] with its name pattern compiled and its age bound resolved
/// to an absolute instant, ready to test candidate files.
pub struct CompiledFilter {
    /// The compiled name pattern; `None` when there is no name filter or the
    /// pattern does not compile.
    pub name: Option<Pattern>,
    pub include_exts: Vec<String>,
    pub exclude_exts: Vec<String>,
    pub min_size: Option<u64>,
    pub max_size: Option<u64>,
    pub modified_after: Option<i128>,
    pub modified_before: Option<i128>,
}

/// The number of nanoseconds in a window of `d` days.
fn window_nanos_of(d: u64) -> (r: i128)
    ensures
        r == window_nanos(d),
{
    let secs: u64 = if d > u64::MAX / SECS_PER_DAY { u64::MAX } else { d * SECS_PER_DAY };
    assert(d > u64::MAX / SECS_PER_DAY <==> d * SECS_PER_DAY > u64::MAX) by (nonlinear_arith);
    (secs as i128) * NANOS_PER_SEC
}

impl CompiledFilter {
    /// Compile `f` at the instant `now` (nanoseconds since the epoch).
    pub fn new(f: &FileFilter, now: i128) -> (c: CompiledFilter)
        requires
            compile_ok(*f, now as int),
        ensures
            f.name_pattern@.len() == 0 ==> c.name is None,
            f.name_pattern@.len() != 0 ==> (c.name is Some <==> regex_compiles(name_source_spec(*f))),
            c.name matches Some(p) ==> p.source() == name_source_spec(*f),
            c.include_exts@ == f.include_exts@,
            c.exclude_exts@ == f.exclude_exts@,
            c.min_size == f.min_size,
            c.max_size == f.max_size,
            c.modified_after == (match floor_spec(*f, now as int) {
                Some(a) => Some(a as i128),
                None => None::<i128>,
            }),
            c.modified_before == f.modified_before,
            f.is_unrestricted() ==> forall|name: Option<Seq<char>>, meta: Option<FileMeta>|
                #[trigger] c.accepts_spec(name, meta),
    {
        let name = if is_empty_str(f.name_pattern.as_str()) {
            None
        } else {
            let src = if f.name_is_regex {
                let mut s = String::new();
                s.append("(?i)");
                s.append(f.name_pattern.as_str());
                s
            } else {
                glob_to_regex(f.name_pattern.as_str())
            };
            match Pattern::new(src.as_str()) {
                Ok(p) => Some(p),
                Err(_) => None,
            }
        };
        let days_after: Option<i128> = match f.modified_within_days {
            Some(d) => Some(now - window_nanos_of(d)),
            None => None,
        };
        let modified_after: Option<i128> = match (days_after, f.modified_after) {
            (Some(a), Some(b)) => Some(if a >= b { a } else { b }),
            (Some(a), None) => Some(a),
            (None, Some(b)) => Some(b),
            (None, None) => None,
        };
        let c = CompiledFilter {
            name,
            include_exts: f.include_exts.clone(),
            exclude_exts: f.exclude_exts.clone(),
            min_size: f.min_size,
            max_size: f.max_size,
            modified_after,
            modified_before: f.modified_before,
        };
        proof {
            if f.is_unrestricted() {
                assert(views(c.exclude_exts@) =~= Seq::<Seq<char>>::empty());
            }
        }
        c
    }
}

impl CompiledFilter {
    /// Whether the size or age of a file is tested (which takes a stat).
    pub open spec fn needs_metadata_spec(&self) -> bool {
        self.min_size is Some || self.max_size is Some || self.modified_after is Some
            || self.modified_before is Some
    }

    /// Whether any test is active at all.
    pub open spec fn is_active_spec(&self) -> bool {
        self.name is Some || self.include_exts@.len() != 0 || self.exclude_exts@.len() != 0
            || self.needs_metadata_spec()
    }

    /// The extension test: excluded extensions never pass; when an include
    /// list is given, only its extensions pass.
    pub open spec fn ext_ok(&self, name: Option<Seq<char>>) -> bool {
        let ext = lower_ext_spec(name);
        &&& !views(self.exclude_exts@).contains(ext)
        &&& (self.include_exts@.len() == 0 || views(self.include_exts@).contains(ext))
    }

    /// The name test, on the file name (empty when there is none).
    pub open spec fn name_ok(&self, name: Option<Seq<char>>) -> bool {
        match self.name {
            Some(p) => regex_matches(p.source(), match name { Some(n) => n, None => seq![] }),
            None => true,
        }
    }

    /// The size and age tests; a file whose metadata (or, when an age bound is
    /// set, whose modification time) cannot be read fails them.
    pub open spec fn meta_ok(&self, meta: Option<FileMeta>) -> bool {
        !self.needs_metadata_spec() || match meta {
            None => false,
            Some(m) => {
                &&& (self.min_size matches Some(min) ==> m.len >= min)
                &&& (self.max_size matches Some(max) ==> m.len <= max)
                &&& ((self.modified_after is Some || self.modified_before is Some) ==> match m.modified {
                    None => false,
                    Some(t) => {
                        &&& (self.modified_after matches Some(a) ==> t >= a)
                        &&& (self.modified_before matches Some(b) ==> t <= b)
                    },
                })
            },
        }
    }

    /// Whether a file with this name and metadata passes the filter.
    pub open spec fn accepts_spec(&self, name: Option<Seq<char>>, meta: Option<FileMeta>) -> bool {
        self.ext_ok(name) && self.name_ok(name) && self.meta_ok(meta)
    }

    /// Whether any test is active (lets the walk skip work when unfiltered).
    pub fn is_active(&self) -> (b: bool)
        ensures
            b == self.is_active_spec(),
    {
        self.name.is_some() || self.include_exts.len() != 0 || self.exclude_exts.len() != 0
            || self.needs_metadata()
    }

    /// Whether the size or age of a file is tested.
    pub fn needs_metadata(&self) -> (b: bool)
        ensures
            b == self.needs_metadata_spec(),
    {
        self.min_size.is_some() || self.max_size.is_some() || self.modified_after.is_some()
            || self.modified_before.is_some()
    }

    /// Whether a file passes the filter. `file_name` is `None` when the path
    /// has no file name in UTF-8; `meta` is `None` when it could not be read.
    pub fn accepts(&self, file_name: Option<&str>, meta: Option<FileMeta>) -> (b: bool)
        ensures
            b == self.accepts_spec(
                match file_name { Some(n) => Some(n@), None => None },
                meta,
            ),
            (file_name matches Some(n) && ext_spec(n@) matches Some(e)
                && exists|i: int| 0 <= i < self.exclude_exts@.len()
                    && (#[trigger] self.exclude_exts@[i])@ == e.map_values(|ch: char| lower_char(ch))) ==> !b,
    {
        let ghost nm: Option<Seq<char>> = match file_name { Some(n) => Some(n@), None => None };
        proof {
            if let Some(n) = file_name {
                if let Some(e) = ext_spec(n@) {
                    if exists|i: int| 0 <= i < self.exclude_exts@.len()
                        && (#[trigger] self.exclude_exts@[i])@ == e.map_values(|ch: char| lower_char(ch)) {
                        let i = choose|i: int| 0 <= i < self.exclude_exts@.len()
                            && (#[trigger] self.exclude_exts@[i])@ == e.map_values(|ch: char| lower_char(ch));
                        law_excluded_extension_never_passes(*self, n@, e, meta, i);
                    }
                }
            }
        }
        if self.include_exts.len() != 0 || self.exclude_exts.len() != 0 {
            let ext: String = match file_name {
                Some(n) => match extension(n) {
                    Some(e) => to_ascii_lowercase(e),
                    None => String::new(),
                },
                None => String::new(),
            };
            assert(ext@ == lower_ext_spec(nm));
            if contains_string(&self.exclude_exts, &ext) {
                return false;
            }
            if self.include_exts.len() != 0 && !contains_string(&self.include_exts, &ext) {
                return false;
            }
        } else {
            assert(views(self.exclude_exts@) =~= Seq::<Seq<char>>::empty());
        }
        assert(self.ext_ok(nm));
        if let Some(re) = &self.name {
            let matched = match file_name {
                Some(n) => re.is_match(n),
                None => re.is_match(""),
            };
            proof {
                reveal_strlit("");
                assert(""@ =~= Seq::<char>::empty());
            }
            if !matched {
                return false;
            }
        }
        if self.needs_metadata() {
            let m = match meta {
                Some(m) => m,
                None => return false,
            };
            if let Some(min) = self.min_size {
                if m.len < min {
                    return false;
                }
            }
            if let Some(max) = self.max_size {
                if m.len > max {
                    return false;
                }
            }
            if self.modified_after.is_some() || self.modified_before.is_some() {
                let t = match m.modified {
                    Some(t) => t,
                    None => return false,
                };
                if let Some(a) = self.modified_after {
                    if t < a {
                        return false;
                    }
                }
                if let Some(b) = self.modified_before {
                    if t > b {
                        return false;
                    }
                }
            }
        }
        true
    }
}

/// Whether an entry whose leading timestamp is `ts` (epoch seconds, `None`
/// when it has none) passes the entry-time filter: with no bound everything
/// passes; with a bound, only entries with a timestamp within it.
pub open spec fn entry_in_window_spec(tf: TimeFilter, ts: Option<i64>) -> bool {
    if tf.after is None && tf.before is None {
        true
    } else {
        match ts {
            None => false,
            Some(t) => {
                &&& (tf.after matches Some(a) ==> t >= a)
                &&& (tf.before matches Some(b) ==> t <= b)
            },
        }
    }
}

/// Whether an entry passes the entry-time filter (see [`entry_in_window_spec`]).
pub fn entry_in_window(tf: &TimeFilter, ts: Option<i64>) -> (b: bool)
    ensures
        b == entry_in_window_spec(*tf, ts),
        (tf.after is None && tf.before is None) ==> b,
        (tf.after is Some || tf.before is Some) && ts is None ==> !b,
        (tf.after matches Some(a) && ts matches Some(t) && t < a) ==> !b,
        (tf.before matches Some(e) && ts matches Some(t) && t > e) ==> !b,
        (ts matches Some(t) && (tf.after matches Some(a) ==> a <= t) && (tf.before matches Some(e) ==> t <= e)) ==> b,
{
    if tf.after.is_none() && tf.before.is_none() {
        return true;
    }
    match ts {
        None => false,
        Some(t) => {
            let after_ok = match tf.after {
                Some(a) => t >= a,
                None => true,
            };
            let before_ok = match tf.before {
                Some(b) => t <= b,
                None => true,
            };
            after_ok && before_ok
        },
    }
}

/// The entry-time window keeps exactly the entries stamped within its
/// bounds: with no bound every entry is kept; with a bound, an entry with no
/// timestamp is dropped, one stamped before `--entry-after` or after
/// `--entry-before` is dropped, and one stamped at or between the bounds is
/// kept.
pub proof fn law_entry_window_bounds(tf: TimeFilter, ts: Option<i64>)
    ensures
        (tf.after is None && tf.before is None) ==> entry_in_window_spec(tf, ts),
        (tf.after is Some || tf.before is Some) && ts is None ==> !entry_in_window_spec(tf, ts),
        (tf.after matches Some(a) && ts matches Some(t) && t < a) ==> !entry_in_window_spec(tf, ts),
        (tf.before matches Some(b) && ts matches Some(t) && t > b) ==> !entry_in_window_spec(tf, ts),
        (ts matches Some(t) && (tf.after matches Some(a) ==> a <= t) && (tf.before matches Some(b) ==> t <= b))
            ==> entry_in_window_spec(tf, ts),
{
}

/// A file whose extension, lowercased, is on the exclude list never passes
/// the filter, whatever its name, metadata or the include list say.
pub proof fn law_excluded_extension_never_passes(
    c: CompiledFilter,
    name: Seq<char>,
    e: Seq<char>,
    meta: Option<FileMeta>,
    i: int,
)
    requires
        ext_spec(name) == Some(e),
        0 <= i < c.exclude_exts@.len(),
        c.exclude_exts@[i]@ == e.map_values(|ch: char| lower_char(ch)),
    ensures
        !c.accepts_spec(Some(name), meta),
{
    assert(views(c.exclude_exts@)[i] == c.exclude_exts@[i]@);
}

/// A file without an extension is excluded exactly when the empty
/// extension is on the exclude list; with an include list it needs the
/// empty extension there.
pub proof fn law_extensionless_files(c: CompiledFilter, name: Seq<char>, meta: Option<FileMeta>)
    requires
        ext_spec(name) is None,
    ensures
        (exists|i: int| 0 <= i < c.exclude_exts@.len() && (#[trigger] c.exclude_exts@[i])@.len() == 0)
            ==> !c.accepts_spec(Some(name), meta),
        (c.include_exts@.len() > 0 && !exists|i: int| 0 <= i < c.include_exts@.len() && (#[trigger] c.include_exts@[i])@.len() == 0)
            ==> !c.accepts_spec(Some(name), meta),
{
    if exists|i: int| 0 <= i < c.exclude_exts@.len() && (#[trigger] c.exclude_exts@[i])@.len() == 0 {
        let i = choose|i: int| 0 <= i < c.exclude_exts@.len() && (#[trigger] c.exclude_exts@[i])@.len() == 0;
        assert(views(c.exclude_exts@)[i] =~= Seq::<char>::empty());
    }
    if c.include_exts@.len() > 0 && !exists|i: int| 0 <= i < c.include_exts@.len() && (#[trigger] c.include_exts@[i])@.len() == 0 {
        if views(c.include_exts@).contains(Seq::<char>::empty()) {
            let i = choose|i: int| 0 <= i < views(c.include_exts@).len() && views(c.include_exts@)[i] == Seq::<char>::empty();
            assert(c.include_exts@[i]@.len() == 0);
        }
    }
}

/// Whether a file last modified at `mtime` (epoch seconds) is skipped
/// unread: only when the prefilter is on and it was modified before the
/// lower bound.
pub fn mtime_skips(tf: &TimeFilter, mtime: i64) -> (b: bool)
    ensures
        b == (tf.mtime_prefilter && (tf.after matches Some(a) && mtime < a)),
{
    tf.mtime_prefilter && match tf.after {
        Some(a) => mtime < a,
        None => false,
    }
}

/// Whether a hit's text passes the entry-time filter, reading its leading
/// timestamp with `parser`: with no bound it always does; a text with no
/// recognised timestamp (or a date-time `chrono` rejects) does not pass a
/// bound; epoch timestamps are compared as read. A zone-less date-time is
/// placed in the local zone, and the window is applied to that instant,
/// which lies within a day of its wall-clock reading.
pub fn keep_entry(parser: &TimestampParser, tf: &TimeFilter, text: &str) -> (b: bool)
    requires
        parser.patterns_wf(),
    ensures
        (tf.after is None && tf.before is None) ==> b,
        match parser.leading_spec(text@) {
            Leading::Unrecognised => b == (tf.after is None && tf.before is None),
            Leading::Naive(s, f) => {
                &&& (!naive_parses(s, f) ==> b == (tf.after is None && tf.before is None))
                &&& (naive_parses(s, f) ==> exists|t: i64| #[trigger] leading_reading(*parser, text@, t)
                    && b == entry_in_window_spec(*tf, Some(t)))
            },
            Leading::Epoch(t) => b == entry_in_window_spec(*tf, Some(t)),
        },
{
    let r = parser.parse_leading(text);
    let b = entry_in_window(tf, r);
    proof {
        if let Leading::Naive(s, f) = parser.leading_spec(text@) {
            if naive_parses(s, f) {
                let t = r->0;
                assert(leading_reading(*parser, text@, t));
            }
        }
    }
    b
}

} // verus!
