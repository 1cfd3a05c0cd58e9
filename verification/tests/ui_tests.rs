use insearch::model::{CaseMode, Granularity, Match, MatchMode, SearchEvent};
use insearch::pattern::Pattern;
use insearch::ui::{
    highlight_segments, csv_field, parse_kb, parse_u64, preview, ExportFormat, ResultRow, ResultsModel, SearchForm, MAX_RESULTS,
};

fn hit(path: &str, start: u64, end: u64, matched: u64, text: &str) -> Match {
    Match {
        path: path.to_string(),
        line_start: start,
        line_end: end,
        byte_offset: 0,
        text: text.to_string(),
        matched_line: matched,
    }
}

fn form() -> SearchForm {
    SearchForm {
        query_text: "  ab ".into(),
        exclude_text: "x".into(),
        match_mode: MatchMode::AllWords,
        case: CaseMode::Insensitive,
        whole_word: true,
        granularity: Granularity::Block,
        respect_gitignore: true,
        filter_name: " *.log ".into(),
        filter_name_regex: false,
        filter_include_exts: ".LOG, txt".into(),
        filter_exclude_exts: "".into(),
        filter_min_kb: " 4 ".into(),
        filter_max_kb: "big".into(),
        filter_days: "0".into(),
    }
}

#[test]
fn parses_sizes_and_positive_numbers() {
    assert_eq!(parse_kb(" 2 "), Some(2048));
    assert_eq!(parse_kb(""), None);
    assert_eq!(parse_u64("0"), None);
    assert_eq!(parse_u64(" 7"), Some(7));
    assert_eq!(parse_u64("x"), None);
}

#[test]
fn csv_fields_are_quoted_with_doubled_quotes() {
    assert_eq!(csv_field("a\"b"), "\"a\"\"b\"");
    assert_eq!(csv_field(""), "\"\"");
}

#[test]
fn rows_show_ranges_and_flattened_previews() {
    let r = ResultRow::from_match(hit("/logs/app.log", 4, 6, 5, "one\r\ntwo"));
    assert_eq!(r.file_name, "app.log");
    assert_eq!(r.line_label, "4-6");
    assert_eq!(r.line_hover.as_deref(), Some("match on line 5"));
    assert_eq!(r.preview, "one ⏎  ⏎ two");
    assert_eq!(r.full_text, "one\r\ntwo");
    let s = ResultRow::from_match(hit("x.txt", 9, 9, 9, "single"));
    assert_eq!(s.line_label, "9");
    assert!(s.line_hover.is_none());
    assert_eq!(preview("a\nb"), "a ⏎ b");
}

#[test]
fn form_builds_query_filter_and_options() {
    let f = form();
    let q = f.current_query();
    assert_eq!(q.pattern, "  ab ");
    assert!(q.whole_word);
    let filter = f.build_filter();
    assert_eq!(filter.name_pattern, "*.log");
    assert_eq!(filter.include_exts, vec!["log", "txt"]);
    assert!(filter.exclude_exts.is_empty());
    assert_eq!(filter.min_size, Some(4096));
    assert_eq!(filter.max_size, None);
    assert_eq!(filter.modified_within_days, None);
    let o = f.scan_options();
    assert!(o.respect_gitignore && o.include_hidden && !o.follow_links);
    assert!(f.should_search(1));
    assert!(!f.should_search(0));
    let short = SearchForm { query_text: " a ".into(), ..form() };
    assert!(!short.should_search(3));
}

#[test]
fn events_of_the_active_generation_build_the_list() {
    let mut m = ResultsModel::new();
    m.start(3);
    assert!(!m.apply(SearchEvent::Match(2, hit("old", 1, 1, 1, "stale"))));
    assert!(m.results.is_empty());
    m.apply(SearchEvent::Match(3, hit("a.log", 1, 1, 1, "x")));
    m.apply(SearchEvent::Match(3, hit("b.log", 2, 2, 2, "y")));
    m.apply(SearchEvent::Match(3, hit("a.log", 5, 5, 5, "z")));
    assert_eq!(m.results.len(), 3);
    m.apply(SearchEvent::Clear(3, "a.log".into()));
    assert_eq!(m.results.len(), 1);
    assert_eq!(m.results[0].path, "b.log");
    assert!(!m.apply(SearchEvent::Done(2)));
    assert!(m.searching);
    assert!(m.apply(SearchEvent::Done(3)));
    assert!(!m.searching);
    assert_eq!(m.status_line(), "1 match(es)");
    m.apply(SearchEvent::Error(3, "bad".into()));
    assert_eq!(m.status_line(), "Error: bad");
}

#[test]
fn the_list_is_capped_and_reopens_after_a_clear() {
    let mut m = ResultsModel::new();
    m.start(1);
    for i in 0..MAX_RESULTS {
        m.apply(SearchEvent::Match(1, hit(if i == 0 { "first" } else { "rest" }, 1, 1, 1, "t")));
    }
    assert!(!m.truncated);
    m.apply(SearchEvent::Match(1, hit("extra", 1, 1, 1, "t")));
    assert!(m.truncated);
    assert_eq!(m.results.len(), MAX_RESULTS);
    assert_eq!(m.status_line(), "10000 match(es) (capped at 10000; refine query) — searching…");
    m.apply(SearchEvent::Clear(1, "first".into()));
    assert!(!m.truncated);
    assert_eq!(m.results.len(), MAX_RESULTS - 1);
}

#[test]
fn in_place_filter_and_exports() {
    let mut m = ResultsModel::new();
    m.start(1);
    m.apply(SearchEvent::Match(1, hit("dir/Server.log", 1, 1, 1, "boot ok")));
    m.apply(SearchEvent::Match(1, hit("dir/client.log", 2, 3, 3, "say \"hi\"\nthen")));
    assert_eq!(m.visible_indices(), vec![0, 1]);
    m.result_filter = " SERVER ".into();
    assert_eq!(m.visible_indices(), vec![0]);
    m.result_filter = "HI".into();
    assert_eq!(m.visible_indices(), vec![1]);
    let idx = vec![1usize];
    assert_eq!(
        m.export_text(ExportFormat::Csv, &idx),
        "path,line,text\n\"dir/client.log\",\"2-3\",\"say \"\"hi\"\"\nthen\"\n"
    );
    assert_eq!(
        m.export_text(ExportFormat::Text, &idx),
        "dir/client.log:2-3: say \"hi\" ⏎ then\n"
    );
    assert_eq!(
        m.export_text(ExportFormat::Json, &idx),
        "[\n  {\n    \"line\": \"2-3\",\n    \"path\": \"dir/client.log\",\n    \"text\": \"say \\\"hi\\\"\\nthen\"\n  }\n]"
    );
    assert_eq!(m.export_text(ExportFormat::Json, &vec![]), "[]");
    m.status_notice = Some("Exported".into());
    m.searching = false;
    m.watching = true;
    assert_eq!(m.status_line(), "2 match(es) — watching for changes   |   Exported");
    m.clear_idle();
    assert!(m.results.is_empty() && !m.watching);
}

#[test]
fn highlight_segments_cover_the_text() {
    let re = Pattern::new("ab").ok().unwrap();
    assert_eq!(
        highlight_segments("xxabyab", &re),
        vec![(0, 2, false), (2, 4, true), (4, 5, false), (5, 7, true)]
    );
    assert_eq!(highlight_segments("zzz", &re), vec![(0, 3, false)]);
    assert!(highlight_segments("", &re).is_empty());
}

#[test]
fn draining_a_batch_keeps_order_generation_and_clears() {
    let mut m = ResultsModel::new();
    m.start(2);
    let start = m.drain_results(vec![
        SearchEvent::Match(2, hit("a", 1, 1, 1, "x")),
        SearchEvent::Match(1, hit("stale", 1, 1, 1, "x")),
        SearchEvent::Match(2, hit("b", 2, 2, 2, "y")),
        SearchEvent::Match(2, hit("a", 3, 3, 3, "z")),
        SearchEvent::Clear(2, "a".into()),
        SearchEvent::Match(2, hit("c", 4, 4, 4, "w")),
        SearchEvent::Done(1),
    ]);
    assert!(!start);
    let paths: Vec<&str> = m.results.iter().map(|r| r.path.as_str()).collect();
    assert_eq!(paths, vec!["b", "c"]);
    assert_eq!((m.results[0].full_text.as_str(), m.results[0].line_label.as_str()), ("y", "2"));
    assert_eq!((m.results[1].full_text.as_str(), m.results[1].line_label.as_str()), ("w", "4"));
    assert!(m.searching);
    assert!(m.drain_results(vec![SearchEvent::Done(2)]));
    assert!(!m.searching);
    m.start(3);
    assert!(!m.drain_results(vec![SearchEvent::Error(2, "old".into()), SearchEvent::Error(3, "bad regex".into())]));
    assert_eq!(m.error.as_deref(), Some("bad regex"));
    assert!(!m.searching);
}
