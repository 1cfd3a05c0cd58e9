use insearch::filter::{extension, glob_to_regex, CompiledFilter, FileFilter, FileMeta};
use insearch::model::{CaseMode, Granularity, MatchMode, Query};
use insearch::pattern::Pattern;
use insearch::query::{build_compiled, highlight_regex};
use insearch::scan::{display_text, search_bytes_blocks, first_matching_line, line_hit, search_text_blocks, search_text_lines};
use insearch::split::BlockSplitter;

fn lines_of(q: &Query, text: &str) -> Vec<u64> {
    let c = build_compiled(q).unwrap();
    search_text_lines(&c, "a.log", text).iter().map(|m| m.line_start).collect()
}

#[test]
fn glob_translation_matches_expected_names() {
    let re = Pattern::new(&glob_to_regex("*.log")).ok().unwrap();
    assert!(re.is_match("app.log"));
    assert!(re.is_match("APP.LOG")); // case-insensitive
    assert!(!re.is_match("app.txt"));
    let re2 = Pattern::new(&glob_to_regex("data?.json")).ok().unwrap();
    assert!(re2.is_match("data1.json"));
    assert!(!re2.is_match("data12.json")); // ? is exactly one char
}

#[test]
fn invalid_regex_reports_error() {
    let q = Query { mode: MatchMode::Regex, ..Query::literal("(unclosed") };
    assert!(build_compiled(&q).is_err());
}

#[test]
fn empty_word_query_is_rejected() {
    let q = Query { mode: MatchMode::AllWords, ..Query::literal("   ") };
    assert_eq!(build_compiled(&q).err(), Some("empty query".to_string()));
}

#[test]
fn finds_literal_matches_in_text() {
    let q = Query::literal("hello");
    assert_eq!(lines_of(&q, "hello world\nno match here\nhello again\n"), vec![1, 3]);
    assert_eq!(lines_of(&q, "nothing\nHELLO upper\n"), vec![2]);
}

#[test]
fn smart_case_respects_uppercase_in_text() {
    let q = Query {
        pattern: "HELLO".into(),
        mode: MatchMode::Substring,
        case: CaseMode::Smart,
        granularity: Granularity::Line,
        ..Query::literal("")
    };
    assert_eq!(lines_of(&q, "hello\nHELLO\nHello\n"), vec![2]);
}

#[test]
fn word_modes_exclusion_and_whole_words_in_text() {
    let all = Query { mode: MatchMode::AllWords, ..Query::literal("alpha beta") };
    assert_eq!(lines_of(&all, "alpha and beta together\nonly alpha here\nbeta only\n"), vec![1]);
    let any = Query { mode: MatchMode::AnyWords, ..Query::literal("alpha beta") };
    assert_eq!(lines_of(&any, "has alpha\nhas beta\nhas gamma\n"), vec![1, 2]);
    let ex = Query { exclude: "ignored".into(), ..Query::literal("error") };
    assert_eq!(lines_of(&ex, "error in module\nerror but ignored\n"), vec![1]);
    let ww = Query { whole_word: true, ..Query::literal("cat") };
    assert_eq!(lines_of(&ww, "cat\ncategory\nscattered\n"), vec![1]);
}

#[test]
fn line_hits_carry_offsets_and_text() {
    let c = build_compiled(&Query::literal("b")).unwrap();
    let hits = search_text_lines(&c, "p", "a\r\nbb\nc\nb");
    assert_eq!(hits.len(), 2);
    assert_eq!((hits[0].line_start, hits[0].byte_offset, hits[0].text.as_str()), (2, 3, "bb"));
    assert_eq!((hits[1].line_start, hits[1].byte_offset, hits[1].matched_line), (4, 8, 4));
    assert_eq!(hits[1].path, "p");
}

#[test]
fn block_mode_returns_one_hit_per_matching_block() {
    let text = "2026-01-01 00:00:01 start\n\
                2026-01-01 00:00:02 boom\n\
                \tcaused by: X\n\
                2026-01-01 00:00:03 done\n";
    let q = Query { granularity: Granularity::Block, ..Query::literal("caused by") };
    let c = build_compiled(&q).unwrap();
    let hits = search_text_blocks(&c, "app.log", &BlockSplitter::default(), text);
    assert_eq!(hits.len(), 1);
    assert_eq!(hits[0].line_start, 2);
    assert_eq!(hits[0].line_end, 3);
    assert_eq!(hits[0].matched_line, 3);
    assert!(hits[0].text.contains("boom") && hits[0].text.contains("caused by"));
}

#[test]
fn block_display_is_capped_with_an_ellipsis() {
    let long: String = "é".repeat(2001);
    let shown = display_text(&long);
    assert_eq!(shown.chars().count(), 2001);
    assert!(shown.ends_with('…'));
    assert_eq!(display_text("short"), "short");
    let exact: String = "x".repeat(2000);
    assert_eq!(display_text(&exact), exact);
}

#[test]
fn first_matching_line_falls_back_to_block_start() {
    let c = build_compiled(&Query::literal("needle")).unwrap();
    assert_eq!(first_matching_line(&c, 10, "a\nb needle\r\nneedle"), 11);
    assert_eq!(first_matching_line(&c, 10, "a\nb"), 10);
}

#[test]
fn line_hit_confirms_the_whole_query() {
    let q = Query { exclude: "skip".into(), ..Query::literal("err") };
    let c = build_compiled(&q).unwrap();
    let m = line_hit(&c, "f", Some(7), 100, b"an err here\r\n").unwrap();
    assert_eq!((m.line_start, m.byte_offset, m.text.as_str()), (7, 100, "an err here"));
    assert!(line_hit(&c, "f", Some(8), 120, b"err but skip\n").is_none());
    assert_eq!(line_hit(&c, "f", None, 0, b"err").unwrap().line_start, 0);
}

#[test]
fn highlight_covers_positive_terms() {
    let q = Query { mode: MatchMode::AnyWords, ..Query::literal("Alpha beta") };
    let re = highlight_regex(&q).unwrap();
    assert!(re.is_match("Alpha and beta"));
    assert!(!re.is_match("BETA"));
    assert!(!re.is_match("alpha"));
    let smart = highlight_regex(&Query::literal("beta")).unwrap();
    assert!(smart.is_match("BETA"));
    assert!(highlight_regex(&Query { mode: MatchMode::AllWords, ..Query::literal(" ") }).is_none());
}

#[test]
fn file_filter_restricts_by_extension_name_size_and_age() {
    let f = FileFilter { include_exts: vec!["log".into(), "txt".into()], ..FileFilter::default() };
    let c = CompiledFilter::new(&f, 0);
    assert!(c.is_active());
    assert!(!c.needs_metadata());
    assert!(c.accepts(Some("a.log"), None));
    assert!(c.accepts(Some("b.TXT"), None));
    assert!(!c.accepts(Some("notes.md"), None));

    let f = FileFilter { name_pattern: "server.*".into(), ..FileFilter::default() };
    let c = CompiledFilter::new(&f, 0);
    assert!(c.accepts(Some("server.log"), None));
    assert!(!c.accepts(Some("client.log"), None));

    let day: i128 = 86_400 * 1_000_000_000;
    let now: i128 = 20_000 * day;
    let f = FileFilter {
        min_size: Some(10),
        modified_within_days: Some(2),
        modified_after: Some(now - 5 * day),
        ..FileFilter::default()
    };
    let c = CompiledFilter::new(&f, now);
    assert_eq!(c.modified_after, Some(now - 2 * day));
    assert!(c.accepts(Some("x"), Some(FileMeta { len: 10, modified: Some(now - day) })));
    assert!(!c.accepts(Some("x"), Some(FileMeta { len: 9, modified: Some(now - day) })));
    assert!(!c.accepts(Some("x"), Some(FileMeta { len: 10, modified: Some(now - 3 * day) })));
    assert!(!c.accepts(Some("x"), Some(FileMeta { len: 10, modified: None })));
    assert!(!c.accepts(Some("x"), None));
    assert!(!CompiledFilter::new(&FileFilter::default(), now).is_active());
}

#[test]
fn file_filter_by_absolute_date() {
    let past: i128 = 946_684_800 * 1_000_000_000;
    let written: i128 = 1_755_856_200 * 1_000_000_000;
    let meta = Some(FileMeta { len: 12, modified: Some(written) });
    let before_past = CompiledFilter::new(&FileFilter { modified_before: Some(past), ..FileFilter::default() }, written);
    assert!(!before_past.accepts(Some("now.log"), meta));
    let after_past = CompiledFilter::new(&FileFilter { modified_after: Some(past), ..FileFilter::default() }, written);
    assert!(after_past.accepts(Some("now.log"), meta));
    let future = written + 86_400 * 3650 * 1_000_000_000;
    let after_future = CompiledFilter::new(&FileFilter { modified_after: Some(future), ..FileFilter::default() }, written);
    assert!(!after_future.accepts(Some("now.log"), meta));
}

#[test]
fn extension_follows_path_rules() {
    assert_eq!(extension("a.tar.gz"), Some("gz"));
    assert_eq!(extension(".bashrc"), None);
    assert_eq!(extension(".."), None);
    assert_eq!(extension("noext"), None);
    assert_eq!(extension("trailing."), Some(""));
    assert_eq!(extension("..foo"), Some("foo"));
}

#[test]
fn block_bytes_skip_binaries_and_decode_text() {
    let c = build_compiled(&Query::literal("boom")).unwrap();
    let bs = BlockSplitter::default();
    assert!(search_bytes_blocks(&c, "f", &bs, b"2026-01-01 00:00:01 boom\0\n").is_none());
    let hits = search_bytes_blocks(&c, "f", &bs, b"2026-01-01 00:00:01 ok\n2026-01-01 00:00:02 boom\n").unwrap();
    assert_eq!(hits.len(), 1);
    assert_eq!(hits[0].line_start, 2);
    assert_eq!(hits[0].byte_offset, 23);
}

#[test]
fn primary_matcher_is_the_first_required_term() {
    let q = Query { mode: MatchMode::AllWords, ..Query::literal("alpha beta") };
    let c = build_compiled(&q).unwrap();
    assert!(c.primary().is_match(b"alpha only"));
    assert!(!c.primary().is_match(b"beta only"));
    assert!(c.primary_matches(b"xx alpha"));
    assert!(!c.unit_matches(b"xx alpha"));
}

#[test]
fn highlight_of_an_empty_pattern_is_none_even_whole_word() {
    assert!(highlight_regex(&Query::literal("")).is_none());
    assert!(highlight_regex(&Query { whole_word: true, ..Query::literal("") }).is_none());
    assert!(highlight_regex(&Query { mode: MatchMode::Regex, whole_word: true, ..Query::literal("") }).is_none());
    let ww = highlight_regex(&Query { whole_word: true, ..Query::literal("err") }).unwrap();
    assert!(ww.is_match("an err here"));
    assert!(!ww.is_match("error"));
}

#[test]
fn latin1_bytes_are_searched_through_lossy_decoding() {
    let c = build_compiled(&Query::literal("boom")).unwrap();
    let bs = BlockSplitter::default();
    let hits = search_bytes_blocks(&c, "f", &bs, b"2026-01-01 00:00:01 caf\xe9 boom\n").unwrap();
    assert_eq!(hits.len(), 1);
    assert_eq!(hits[0].text, "2026-01-01 00:00:01 caf\u{FFFD} boom");
    let m = line_hit(&c, "f", Some(1), 0, b"caf\xe9 boom\n").unwrap();
    assert_eq!(m.text, "caf\u{FFFD} boom");
}
