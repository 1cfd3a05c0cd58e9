//! Shared data types for the search engine.
use vstd::prelude::*;

verus! {

/// How a file's text is divided into searchable units.
#[derive(Clone, Copy, Debug, PartialEq, Eq, Structural)]
pub enum Granularity {
    /// One unit per line.
    Line,
    /// One unit per timestamp-to-timestamp block.
    Block,
}

/// Live search-as-you-type vs. watch-folders (log-tailing) mode.
#[derive(Clone, Copy, Debug, PartialEq, Eq, Structural)]
pub enum Mode {
    Live,
    Watch,
}

/// How the pattern is interpreted.
#[derive(Clone, Copy, Debug, PartialEq, Eq, Structural)]
pub enum MatchMode {
    /// The whole pattern as a literal substring.
    Substring,
    /// The pattern as a regular expression.
    Regex,
    /// Every whitespace-separated word must appear (AND).
    AllWords,
    /// Any of the whitespace-separated words may appear (OR).
    AnyWords,
}

/// Case policy.
#[derive(Clone, Copy, Debug, PartialEq, Eq, Structural)]
pub enum CaseMode {
    /// Case-insensitive unless the pattern has an uppercase letter.
    Smart,
    Sensitive,
    Insensitive,
}

/// A user query plus its matching options.
#[derive(Clone, Debug)]
pub struct Query {
    /// The raw pattern, read according to `mode`.
    pub pattern: String,
    /// Whitespace-separated words that must NOT appear.
    pub exclude: String,
    pub mode: MatchMode,
    pub case: CaseMode,
    /// Match whole words only.
    pub whole_word: bool,
    /// Report matches per line or per block.
    pub granularity: Granularity,
}

impl Query {
    /// A smart-case, line-mode substring query for `pattern`.
    pub fn literal(pattern: &str) -> (q: Query)
        ensures
            q.pattern@ == pattern@,
            q.exclude@.len() == 0,
            q.mode == MatchMode::Substring,
            q.case == CaseMode::Smart,
            !q.whole_word,
            q.granularity == Granularity::Line,
    {
        Query {
            pattern: pattern.to_string(),
            exclude: String::new(),
            mode: MatchMode::Substring,
            case: CaseMode::Smart,
            whole_word: false,
            granularity: Granularity::Line,
        }
    }
}

/// A single search hit.
#[derive(Clone, Debug)]
pub struct Match {
    /// The file the hit is in.
    pub path: String,
    /// 1-based line number where the matched unit starts.
    pub line_start: u64,
    /// 1-based line number where the matched unit ends (equal to `line_start`
    /// in line mode).
    pub line_end: u64,
    /// Byte offset of the unit start within the file's text.
    pub byte_offset: u64,
    /// The unit text (a line, or a block capped for display).
    pub text: String,
    /// The line within a block that matched (equal to `line_start` in line mode).
    pub matched_line: u64,
}

/// Streamed from a search worker to its consumer; every event carries the
/// generation of the search that produced it.
#[derive(Clone, Debug)]
pub enum SearchEvent {
    /// A hit.
    Match(u64, Match),
    /// Drop all existing matches for this path.
    Clear(u64, String),
    /// The walk finished (or was cancelled).
    Done(u64),
    /// A fatal error (e.g. an invalid regex).
    Error(u64, String),
}

} // verus!
