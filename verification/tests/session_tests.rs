use insearch::session::{SavedSearch, Session, MAX_RECENT};

fn named(name: &str, query: &str) -> SavedSearch {
    SavedSearch { name: name.into(), query: query.into(), ..SavedSearch::default() }
}

#[test]
fn recent_queries_are_trimmed_deduplicated_and_capped() {
    let mut s = Session::default();
    assert!(!s.record_query("   "));
    assert!(s.recent_queries.is_empty());
    assert!(s.record_query(" error "));
    assert!(s.record_query("warn"));
    assert!(s.record_query("error"));
    assert_eq!(s.recent_queries, vec!["error".to_string(), "warn".to_string()]);
    for i in 0..30 {
        s.record_query(&format!("q{i}"));
    }
    assert_eq!(s.recent_queries.len(), MAX_RECENT);
    assert_eq!(s.recent_queries[0], "q29");
    assert_eq!(s.recent_queries[MAX_RECENT - 1], "q10");
}

#[test]
fn recording_twice_is_recording_once() {
    let mut a = Session::default();
    a.record_query("x");
    a.record_query("y");
    let mut b = Session { recent_queries: a.recent_queries.clone(), saved: Vec::new() };
    a.record_query("x");
    b.record_query("x");
    b.record_query("x");
    assert_eq!(a.recent_queries, b.recent_queries);
}

#[test]
fn saved_searches_replace_by_name_and_remove() {
    let mut s = Session::default();
    s.add_saved(named("logs", "error"));
    s.add_saved(named("mail", "smtp"));
    s.add_saved(named("logs", "panic"));
    let names: Vec<&str> = s.saved.iter().map(|x| x.name.as_str()).collect();
    assert_eq!(names, vec!["mail", "logs"]);
    assert_eq!(s.saved[1].query, "panic");
    s.remove_saved("logs");
    assert_eq!(s.saved.len(), 1);
    s.remove_saved("absent");
    assert_eq!(s.saved.len(), 1);
}

#[test]
fn removing_after_adding_is_removing() {
    let mut a = Session::default();
    a.add_saved(named("k", "1"));
    a.add_saved(named("j", "2"));
    let mut b = Session { recent_queries: Vec::new(), saved: a.saved.clone() };
    a.add_saved(named("k", "3"));
    a.remove_saved("k");
    b.remove_saved("k");
    let qa: Vec<&str> = a.saved.iter().map(|x| x.query.as_str()).collect();
    let qb: Vec<&str> = b.saved.iter().map(|x| x.query.as_str()).collect();
    assert_eq!(qa, qb);
}
