use insearch::cli::{json_escape, kb_overflows, parse, parse_exts, parse_when, take, to_time, Config, Output};
use insearch::filter::{entry_in_window, keep_entry, mtime_skips, TimeFilter};
use insearch::model::{CaseMode, Granularity, MatchMode};
use insearch::timestamp::TimestampParser;

fn args(s: &[&str]) -> Vec<String> {
    s.iter().map(|x| x.to_string()).collect()
}

fn run(a: &[&str]) -> Result<Config, String> {
    let p = TimestampParser::default();
    parse(&args(a), ".", &p)
}

#[test]
fn parses_query_and_filters() {
    let cfg = run(&[
        "ERROR",
        "logs",
        "--regex",
        "--ignore-case",
        "--whole-word",
        "--block",
        "--exclude",
        "debug trace",
        "--ext",
        "log,txt",
        "--min-kb",
        "2",
        "--json",
    ])
    .unwrap();
    assert_eq!(cfg.query.pattern, "ERROR");
    assert!(matches!(cfg.query.mode, MatchMode::Regex));
    assert!(matches!(cfg.query.case, CaseMode::Insensitive));
    assert!(cfg.query.whole_word);
    assert!(matches!(cfg.query.granularity, Granularity::Block));
    assert_eq!(cfg.query.exclude, "debug trace");
    assert_eq!(cfg.opts.filter.include_exts, vec!["log", "txt"]);
    assert_eq!(cfg.opts.filter.min_size, Some(2048));
    assert!(cfg.output == Output::Json);
    assert_eq!(cfg.roots.len(), 1);
}

#[test]
fn entry_time_bounds_set_the_time_filter() {
    let cfg = run(&["x", ".", "--entry-after", "2026-08-21"]).unwrap();
    let t = cfg.opts.time.expect("time filter");
    assert!(t.after.is_some());
    assert!(t.before.is_none());
}

#[test]
fn rejects_unknown_flag_and_missing_value() {
    assert!(run(&["x", "--bogus"]).is_err());
    assert!(run(&["x", "--ext"]).is_err()); // needs a value
    assert!(run(&["--regex"]).is_err()); // no pattern
}

#[test]
fn json_escape_handles_quotes_and_controls() {
    assert_eq!(json_escape("a\"b\\c\n"), "a\\\"b\\\\c\\n");
}

#[test]
fn error_messages_name_the_problem() {
    assert_eq!(run(&["x", "--bogus"]).err().unwrap(), "unknown flag: --bogus");
    assert_eq!(run(&["x", "--ext"]).err().unwrap(), "--ext needs a value");
    assert_eq!(run(&["--regex"]).err().unwrap(), "no search pattern given");
    assert_eq!(run(&["x", "--days", "soon"]).err().unwrap(), "--days expects a number, got 'soon'");
    assert_eq!(
        run(&["x", "--after", " not a date "]).err().unwrap(),
        "could not parse date/time: 'not a date' (use YYYY-MM-DD [HH:MM:SS])"
    );
}

#[test]
fn roots_default_and_later_flags_win() {
    let cfg = run(&["needle", "-", "b", "--count", "-l", "--any-words", "--case-sensitive"]).unwrap();
    assert_eq!(cfg.roots, vec!["-".to_string(), "b".to_string()]);
    assert!(cfg.output == Output::FilesOnly);
    assert!(matches!(cfg.query.mode, MatchMode::AnyWords));
    assert!(matches!(cfg.query.case, CaseMode::Sensitive));
    let cfg = run(&["needle"]).unwrap();
    assert_eq!(cfg.roots, vec![".".to_string()]);
    assert!(cfg.opts.include_hidden && !cfg.opts.follow_links && !cfg.opts.respect_gitignore);
    assert!(cfg.opts.time.is_none());
}

#[test]
fn epoch_dates_set_exact_bounds() {
    let cfg = run(&["x", "--after", "1755856200", "--entry-before", "1755856200123", "--max-kb", " 3 ", "--days", "7"])
        .unwrap();
    assert_eq!(cfg.opts.filter.modified_after, Some(1_755_856_200i128 * 1_000_000_000));
    assert_eq!(cfg.opts.time.unwrap().before, Some(1_755_856_200));
    assert_eq!(cfg.opts.filter.max_size, Some(3072));
    assert_eq!(cfg.opts.filter.modified_within_days, Some(7));
}

#[test]
fn helpers_behave() {
    assert_eq!(parse_exts(" .LOG;txt,, ..md\tcsv "), vec!["log", "txt", "md", "csv"]);
    assert_eq!(to_time(-5), 0);
    assert_eq!(to_time(2), 2_000_000_000);
    assert_eq!(json_escape("tab\there\u{1}"), "tab\\there\\u0001");
    let a = args(&["--exclude", "w"]);
    let mut i = 0usize;
    assert_eq!(take(&a, &mut i, "--exclude"), Ok("w".to_string()));
    assert_eq!(i, 1);
    let mut j = 1usize;
    assert_eq!(take(&a, &mut j, "--x"), Err("--x needs a value".to_string()));
    let p = TimestampParser::default();
    assert_eq!(parse_when(&p, " 1755856200 "), Ok(1_755_856_200));
}

#[test]
fn huge_sizes_are_detected_before_parsing() {
    let p = TimestampParser::default();
    assert!(kb_overflows(&args(&["x", "--min-kb", "18446744073709551615"]), &p));
    assert!(!kb_overflows(&args(&["x", "--min-kb", "1024"]), &p));
    // An earlier error stops the reading first.
    assert!(!kb_overflows(&args(&["x", "--bogus", "--max-kb", "18446744073709551615"]), &p));
}

#[test]
fn entry_time_filter_keeps_timestamps_within_bounds() {
    let p = TimestampParser::default();
    let tf = TimeFilter { after: Some(1_755_856_200), before: None, mtime_prefilter: true };
    assert!(keep_entry(&p, &tf, "1755856300 later"));
    assert!(!keep_entry(&p, &tf, "1755856100 earlier"));
    assert!(!keep_entry(&p, &tf, "no timestamp"));
    let open = TimeFilter { after: None, before: None, mtime_prefilter: false };
    assert!(keep_entry(&p, &open, "no timestamp"));
    assert!(entry_in_window(&TimeFilter { after: None, before: Some(5), mtime_prefilter: false }, Some(5)));
    assert!(mtime_skips(&tf, 1_755_856_199));
    assert!(!mtime_skips(&tf, 1_755_856_200));
    assert!(!mtime_skips(&open, 0));
}

#[test]
fn escaped_text_decodes_back_as_a_json_string() {
    let original = "say \"hi\"\\ then\n\ttab\r\u{1}\u{1f} é ✓";
    let quoted = format!("\"{}\"", insearch::cli::json_escape(original));
    let back: String = serde_json::from_str(&quoted).unwrap();
    assert_eq!(back, original);
}
