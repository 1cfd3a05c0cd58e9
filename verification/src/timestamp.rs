//! Reading a leading timestamp off a log line or block, as epoch seconds.
//!
//! Zone-less date-times are read by `chrono` and placed in the local time
//! zone; epoch numbers are read directly.
use vstd::prelude::*;
use vstd::string::*;
use chrono::{Datelike, TimeZone};
use crate::pattern::{regex_captures, regex_compiles, Pattern};
use crate::strings::{decimal_spec, parse_i64, parse_i64_spec, parse_u64, parse_u64_spec, push_char, push_decimal, trim_start, trim_start_spec};
use crate::text::byte_len;

verus! {

/// The date-time that `NaiveDateTime::parse_from_str` reads from `s` under
/// the format `fmt`, given as its wall-clock seconds since
/// 1970-01-01 00:00:00 (`and_utc().timestamp()`), or `None` when the text
/// does not parse.
pub uninterp spec fn naive_wall_seconds(s: Seq<char>, fmt: Seq<char>) -> Option<i64>;

/// Whether `NaiveDateTime::parse_from_str` accepts `s` under the format `fmt`.
pub open spec fn naive_parses(s: Seq<char>, fmt: Seq<char>) -> bool {
    naive_wall_seconds(s, fmt) is Some
}

/// `NaiveDateTime::parse_from_str(s, fmt)`, its error dropped, the
/// date-time handed back as its wall-clock seconds
/// (`and_utc().timestamp()`).
#[verifier::external_body]
fn parse_naive(s: &str, fmt: &str) -> (r: Option<i64>)
    ensures
        r == naive_wall_seconds(s@, fmt@),
{
    match chrono::NaiveDateTime::parse_from_str(s, fmt) {
        Ok(n) => Some(n.and_utc().timestamp()),
        Err(_) => None,
    }
}

/// `Local.from_local_datetime(..).single()` on the wall-clock time `wall`
/// (seconds since 1970-01-01 00:00:00, rebuilt by
/// `DateTime::from_timestamp(wall, 0)`), as epoch seconds: the instant of
/// that wall time in the machine's time zone, `None` when it is skipped or
/// repeated there. chrono's offsets are under a day
/// (`FixedOffset::east_opt`), so the instant lies within a day of `wall`;
/// which instant it is depends on the time zone and is not stated.
#[verifier::external_body]
fn local_single_seconds(wall: i64) -> (r: Option<i64>)
    ensures
        r matches Some(t) ==> wall - 86400 < t < wall + 86400,
{
    match chrono::DateTime::from_timestamp(wall, 0) {
        Some(d) => chrono::Local.from_local_datetime(&d.naive_utc()).single().map(|dt| dt.timestamp()),
        None => None,
    }
}

/// `Local::now().year()`: the current year in the local time zone. It
/// depends on the clock, so nothing is stated of it.
#[verifier::external_body]
fn current_local_year() -> i32 {
    chrono::Local::now().year()
}

/// A zone-less wall-clock time (seconds since 1970-01-01 00:00:00) placed in
/// the local zone, as epoch seconds; across a gap or fold of the local clock
/// it is read as UTC instead. Either way the result lies within a day of the
/// wall-clock reading.
fn local_epoch(wall: i64) -> (r: i64)
    ensures
        wall - 86400 < r < wall + 86400,
{
    match local_single_seconds(wall) {
        Some(t) => t,
        None => wall,
    }
}

/// Whether the instant `t` lies less than a day (86400 seconds) from the
/// wall-clock reading `wall`, as any time zone's reading of it does.
pub open spec fn within_a_day(t: i64, wall: i64) -> bool {
    wall - 86400 < t < wall + 86400
}

/// Whether `v` is a value `parse_leading` may give for `text`: the epoch
/// number it starts with, or, for a zone-less date-time that parses, an
/// instant within a day of its wall-clock reading.
pub open spec fn leading_reading(p: TimestampParser, text: Seq<char>, v: i64) -> bool {
    match p.leading_spec(text) {
        Leading::Unrecognised => false,
        Leading::Naive(s, f) => naive_parses(s, f) && within_a_day(v, naive_wall_seconds(s, f)->0),
        Leading::Epoch(e) => v == e,
    }
}

/// ISO-8601, optionally bracketed; the date and the `HH:MM:SS` are captured.
pub const ISO_LEADING: &'static str = "^\\[?(\\d{4}-\\d{2}-\\d{2})[ T](\\d{2}:\\d{2}:\\d{2})";
/// Syslog, without a year: month name, day and time are captured.
pub const SYSLOG_LEADING: &'static str = "^([A-Z][a-z]{2})\\s+(\\d{1,2})\\s+(\\d{2}:\\d{2}:\\d{2})";
/// US dates `MM/DD/YYYY HH:MM:SS`: month, day, year and time are captured.
pub const US_LEADING: &'static str = "^(\\d{2})/(\\d{2})/(\\d{4})\\s+(\\d{2}:\\d{2}:\\d{2})";
/// Epoch seconds (10 digits) or milliseconds (13), optionally bracketed.
pub const EPOCH_LEADING: &'static str = "^\\[?(\\d{10,13})\\b";
/// The format ISO and US timestamps are rewritten to before parsing.
pub const DATE_TIME_FORMAT: &'static str = "%Y-%m-%d %H:%M:%S";
/// The format a syslog timestamp is rewritten to (with the assumed year).
pub const SYSLOG_FORMAT: &'static str = "%b %d %H:%M:%S %Y";

/// What the start of a text says about its time.
pub enum Leading {
    /// No recognised timestamp.
    Unrecognised,
    /// A zone-less date-time: the text handed to `chrono` and its format.
    Naive(Seq<char>, Seq<char>),
    /// Epoch seconds, read directly.
    Epoch(i64),
}

/// Reads leading timestamps. The four patterns are compiled once; a pattern
/// that failed to compile is absent and its family is never recognised.
pub struct TimestampParser {
    iso: Option<Pattern>,
    syslog: Option<Pattern>,
    us: Option<Pattern>,
    epoch: Option<Pattern>,
    /// The year assumed for syslog timestamps, which carry none.
    year: i32,
}

/// The capture groups of `p` on `hay`, if `p` is present and matches.
pub open spec fn caps_of(p: Option<Pattern>, hay: Seq<char>) -> Option<Seq<Seq<char>>> {
    match p {
        Some(q) => regex_captures(q.source(), hay),
        None => None,
    }
}

/// `s` left-padded with `'0'` to at least two characters (`{:02}`).
pub open spec fn pad2(s: Seq<char>) -> Seq<char> {
    if s.len() < 2 { seq!['0'] + s } else { s }
}

/// The decimal text of a signed number (`{}` on an `i32`).
pub open spec fn signed_decimal(n: int) -> Seq<char> {
    if n < 0 { seq!['-'] + decimal_spec((0 - n) as nat) } else { decimal_spec(n as nat) }
}

/// `n / 1000`, rounded toward zero as integer division does.
pub open spec fn div1000(n: i64) -> i64 {
    if n >= 0 { (n / 1000) as i64 } else { (0 - ((0 - n) / 1000)) as i64 }
}

impl TimestampParser {
    /// The year assumed for syslog timestamps.
    pub closed spec fn year_spec(&self) -> i32 {
        self.year
    }

    /// Each of the four patterns is present exactly when its source
    /// compiles.
    pub closed spec fn patterns_complete(&self) -> bool {
        &&& (self.iso is Some <==> regex_compiles(ISO_LEADING@))
        &&& (self.syslog is Some <==> regex_compiles(SYSLOG_LEADING@))
        &&& (self.us is Some <==> regex_compiles(US_LEADING@))
        &&& (self.epoch is Some <==> regex_compiles(EPOCH_LEADING@))
    }

    /// Whether the four patterns are present, each compiled from its source.
    pub closed spec fn patterns_wf(&self) -> bool {
        &&& (self.iso matches Some(p) ==> p.source() == ISO_LEADING@)
        &&& (self.syslog matches Some(p) ==> p.source() == SYSLOG_LEADING@)
        &&& (self.us matches Some(p) ==> p.source() == US_LEADING@)
        &&& (self.epoch matches Some(p) ==> p.source() == EPOCH_LEADING@)
    }

    /// What `text` starts with, after leading whitespace: the first family
    /// (ISO, then US, then syslog, then epoch) whose pattern matches decides.
    /// A family whose captures lack a group it needs, a syslog day that is
    /// not a `u32`, or epoch digits that are not an `i64` give
    /// `Unrecognised`. An epoch number of 13 or more bytes, or of at least
    /// `10^12`, is milliseconds and is divided by 1000.
    pub closed spec fn leading_spec(&self, text: Seq<char>) -> Leading {
        let head = trim_start_spec(text);
        if caps_of(self.iso, head) is Some {
            let c = caps_of(self.iso, head)->0;
            if c.len() < 3 {
                Leading::Unrecognised
            } else {
                Leading::Naive(c[1] + seq![' '] + c[2], DATE_TIME_FORMAT@)
            }
        } else if caps_of(self.us, head) is Some {
            let c = caps_of(self.us, head)->0;
            if c.len() < 5 {
                Leading::Unrecognised
            } else {
                Leading::Naive(c[3] + seq!['-'] + c[1] + seq!['-'] + c[2] + seq![' '] + c[4], DATE_TIME_FORMAT@)
            }
        } else if caps_of(self.syslog, head) is Some {
            let c = caps_of(self.syslog, head)->0;
            if c.len() < 4 {
                Leading::Unrecognised
            } else {
                match parse_u64_spec(c[2]) {
                    Some(day) => if day <= u32::MAX {
                        Leading::Naive(
                            c[1] + seq![' '] + pad2(decimal_spec(day as nat)) + seq![' '] + c[3] + seq![' ']
                                + signed_decimal(self.year as int),
                            SYSLOG_FORMAT@,
                        )
                    } else {
                        Leading::Unrecognised
                    },
                    None => Leading::Unrecognised,
                }
            }
        } else if caps_of(self.epoch, head) is Some {
            let c = caps_of(self.epoch, head)->0;
            if c.len() < 2 {
                Leading::Unrecognised
            } else {
                match parse_i64_spec(c[1]) {
                    Some(n) => Leading::Epoch(
                        if byte_len(c[1]) >= 13 || n >= 1_000_000_000_000 { div1000(n) } else { n },
                    ),
                    None => Leading::Unrecognised,
                }
            }
        } else {
            Leading::Unrecognised
        }
    }

    /// A parser that assumes `year` for syslog timestamps.
    pub fn with_year(year: i32) -> (p: TimestampParser)
        ensures
            p.patterns_wf(),
            p.patterns_complete(),
            p.year_spec() == year,
    {
        TimestampParser {
            iso: compile_or_none(ISO_LEADING),
            syslog: compile_or_none(SYSLOG_LEADING),
            us: compile_or_none(US_LEADING),
            epoch: compile_or_none(EPOCH_LEADING),
            year,
        }
    }

    /// Epoch seconds for the timestamp at the start of `text`, or `None`
    /// when it does not begin with a recognised timestamp (see
    /// [`TimestampParser::leading_spec`]). A zone-less date-time is `Some`
    /// exactly when `chrono` parses it; its value is that wall-clock time in
    /// the local zone, which is stated only to lie within a day of the
    /// wall-clock reading.
    pub fn parse_leading(&self, text: &str) -> (r: Option<i64>)
        requires
            self.patterns_wf(),
        ensures
            match self.leading_spec(text@) {
                Leading::Unrecognised => r is None,
                Leading::Naive(s, f) => (r is Some <==> naive_parses(s, f))
                    && (r matches Some(v) ==> within_a_day(v, naive_wall_seconds(s, f)->0)),
                Leading::Epoch(v) => r == Some(v),
            },
    {
        let head = trim_start(text);
        if let Some(c) = captures_opt(&self.iso, head) {
            if c.len() < 3 {
                return None;
            }
            let mut s = String::new();
            s.append(c[1].as_str());
            push_char(&mut s, ' ');
            s.append(c[2].as_str());
            assert(s@ =~= c@[1]@ + seq![' '] + c@[2]@);
            return naive_local(s.as_str(), DATE_TIME_FORMAT);
        }
        if let Some(c) = captures_opt(&self.us, head) {
            if c.len() < 5 {
                return None;
            }
            let mut s = String::new();
            s.append(c[3].as_str());
            push_char(&mut s, '-');
            s.append(c[1].as_str());
            push_char(&mut s, '-');
            s.append(c[2].as_str());
            push_char(&mut s, ' ');
            s.append(c[4].as_str());
            assert(s@ =~= c@[3]@ + seq!['-'] + c@[1]@ + seq!['-'] + c@[2]@ + seq![' '] + c@[4]@);
            return naive_local(s.as_str(), DATE_TIME_FORMAT);
        }
        if let Some(c) = captures_opt(&self.syslog, head) {
            if c.len() < 4 {
                return None;
            }
            let day = match parse_u64(c[2].as_str()) {
                Some(d) => d,
                None => return None,
            };
            if day > 0xFFFF_FFFF {
                return None;
            }
            let mut s = String::new();
            s.append(c[1].as_str());
            push_char(&mut s, ' ');
            if day < 10 {
                push_char(&mut s, '0');
            }
            push_decimal(&mut s, day);
            push_char(&mut s, ' ');
            s.append(c[3].as_str());
            push_char(&mut s, ' ');
            push_signed(&mut s, self.year);
            proof {
                lemma_pad2(day as nat);
            }
            assert(s@ =~= c@[1]@ + seq![' '] + pad2(decimal_spec(day as nat)) + seq![' '] + c@[3]@ + seq![' ']
                + signed_decimal(self.year as int));
            return naive_local(s.as_str(), SYSLOG_FORMAT);
        }
        if let Some(c) = captures_opt(&self.epoch, head) {
            if c.len() < 2 {
                return None;
            }
            let digits = c[1].as_str();
            let n = match parse_i64(digits) {
                Some(n) => n,
                None => return None,
            };
            if digits.as_bytes().len() >= 13 || n >= 1_000_000_000_000 {
                let q = if n >= 0 { n / 1000 } else { 0 - ((0 - (n as i128)) / 1000) as i64 };
                return Some(q);
            }
            return Some(n);
        }
        None
    }
}

impl Default for TimestampParser {
    /// A parser assuming the current local year for syslog timestamps.
    fn default() -> (p: TimestampParser)
        ensures
            p.patterns_wf(),
            p.patterns_complete(),
    {
        TimestampParser::with_year(current_local_year())
    }
}

/// `pad2` of a decimal is the decimal with a `'0'` in front exactly when the
/// number is below 10.
proof fn lemma_pad2(d: nat)
    ensures
        d < 10 ==> pad2(decimal_spec(d)) == seq!['0'] + decimal_spec(d),
        d >= 10 ==> pad2(decimal_spec(d)) == decimal_spec(d),
{
    if d >= 10 {
        lemma_decimal_len(d);
    }
}

/// Numbers of two or more digits have decimals of two or more characters.
proof fn lemma_decimal_len(d: nat)
    requires
        d >= 10,
    ensures
        decimal_spec(d).len() >= 2,
{
    assert(decimal_spec(d) == decimal_spec(d / 10).push(crate::strings::digit_char(d % 10)));
}

/// Appends the decimal text of a signed number.
fn push_signed(out: &mut String, n: i32)
    ensures
        final(out)@ == old(out)@ + signed_decimal(n as int),
{
    if n < 0 {
        push_char(out, '-');
        let m: u64 = (0 - (n as i64)) as u64;
        push_decimal(out, m);
    } else {
        push_decimal(out, n as u64);
    }
    assert(final(out)@ =~= old(out)@ + signed_decimal(n as int));
}

/// The pattern compiled from `src`, or `None` if it does not compile.
fn compile_or_none(src: &str) -> (r: Option<Pattern>)
    ensures
        r is Some <==> regex_compiles(src@),
        r matches Some(p) ==> p.source() == src@,
{
    match Pattern::new(src) {
        Ok(p) => Some(p),
        Err(_) => None,
    }
}

/// The capture groups of an optional pattern on `hay`.
fn captures_opt(p: &Option<Pattern>, hay: &str) -> (r: Option<Vec<String>>)
    ensures
        r is Some <==> caps_of(*p, hay@) is Some,
        r matches Some(v) ==> v@.len() == caps_of(*p, hay@)->0.len()
            && forall|i: int| 0 <= i < v@.len() ==> #[trigger] v@[i]@ == caps_of(*p, hay@)->0[i],
{
    match p {
        Some(q) => q.captures(hay),
        None => None,
    }
}

/// Parses `s` under `fmt` and places it in the local zone.
fn naive_local(s: &str, fmt: &str) -> (r: Option<i64>)
    ensures
        r is Some <==> naive_parses(s@, fmt@),
        r matches Some(v) ==> within_a_day(v, naive_wall_seconds(s@, fmt@)->0),
{
    match parse_naive(s, fmt) {
        Some(n) => Some(local_epoch(n)),
        None => None,
    }
}

} // verus!
