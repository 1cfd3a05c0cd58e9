use insearch::model::{MatchMode, Query, SearchEvent};
use insearch::query::build_compiled;
use insearch::search::{entry_step, finish, search_start, WalkStep};

#[test]
fn a_search_announces_its_error_or_its_empty_end() {
    let bad = build_compiled(&Query { mode: MatchMode::Regex, ..Query::literal("(unclosed") });
    match search_start(7, &bad, false) {
        Some(SearchEvent::Error(7, e)) => assert!(!e.is_empty()),
        _ => panic!("expected an error event"),
    }
    let good = build_compiled(&Query::literal("x"));
    assert!(matches!(search_start(7, &good, true), Some(SearchEvent::Done(7))));
    assert!(search_start(7, &good, false).is_none());
}

#[test]
fn entries_are_quit_skipped_or_searched() {
    assert_eq!(entry_step(8, 7, true, true), WalkStep::Quit);
    assert_eq!(entry_step(7, 7, false, true), WalkStep::Skip { scanned: false });
    assert_eq!(entry_step(7, 7, true, false), WalkStep::Skip { scanned: true });
    assert_eq!(entry_step(7, 7, true, true), WalkStep::Search);
    assert!(matches!(finish(7), SearchEvent::Done(7)));
}
