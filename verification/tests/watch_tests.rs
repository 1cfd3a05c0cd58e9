use insearch::model::Query;
use insearch::query::build_compiled;
use insearch::watch::{change_action, tail_chunk, ChangeAction, ChangeKind, FileState, Tails};

/// Runs one tailing pass over the file's current bytes, as watch mode does:
/// returns whether its hits were cleared and the line numbers of new hits.
fn pass(tails: &mut Tails, path: &str, bytes: &[u8]) -> (bool, Vec<u64>) {
    let c = build_compiled(&Query::literal("ERROR")).unwrap();
    let start = tails.begin(path, bytes.len() as u64);
    let chunk = &bytes[start.start as usize..];
    match tail_chunk(&c, path, start.start, start.line_base, chunk) {
        Some((hits, st)) => {
            tails.set(path, st);
            (start.clear, hits.iter().map(|m| m.line_start).collect())
        }
        None => (start.clear, Vec::new()),
    }
}

#[test]
fn tailing_reports_only_newly_appended_lines() {
    let mut tails = Tails::new();
    let mut file = b"2026 INFO a\n2026 ERROR b\n".to_vec();
    // First pass: clears prior (initial-scan) matches, then reports line 2.
    let (cleared, lines) = pass(&mut tails, "t.log", &file);
    assert!(cleared);
    assert_eq!(lines, vec![2]);
    // Append one matching complete line + a partial (no newline yet).
    file.extend_from_slice(b"2026 ERROR c\npartial-still-writing");
    let (cleared, lines) = pass(&mut tails, "t.log", &file);
    // No Clear this time; only the new line 3 (partial line withheld).
    assert!(!cleared);
    assert_eq!(lines, vec![3]);
}

#[test]
fn truncation_resets_and_reclears() {
    let mut tails = Tails::new();
    let (_, lines) = pass(&mut tails, "rot.log", b"2026 ERROR one\n2026 ERROR two\n");
    assert_eq!(lines.len(), 2);
    // Rotate: replace with a shorter file.
    let (cleared, lines) = pass(&mut tails, "rot.log", b"2026 INFO fresh\n");
    assert!(cleared);
    assert!(lines.is_empty());
}

#[test]
fn chunks_keep_absolute_offsets_and_skip_binaries() {
    let c = build_compiled(&Query::literal("x")).unwrap();
    let (hits, st) = tail_chunk(&c, "f", 100, 7, b"a\nx1\r\nb\nx2").unwrap();
    assert_eq!(st, FileState { offset: 108, line_base: 10 });
    assert_eq!(hits.len(), 1);
    assert_eq!((hits[0].line_start, hits[0].byte_offset, hits[0].text.as_str()), (9, 102, "x1"));
    assert!(tail_chunk(&c, "f", 0, 0, b"x\0\n").is_none());
    assert!(tail_chunk(&c, "f", 5, 0, b"x\0\n").is_some());
    assert!(tail_chunk(&c, "f", 0, 0, b"no newline").is_none());
}

#[test]
fn forgotten_files_start_over() {
    let mut tails = Tails::new();
    tails.set("a", FileState { offset: 10, line_base: 2 });
    assert_eq!(tails.get("a"), Some(FileState { offset: 10, line_base: 2 }));
    let s = tails.begin("a", 20);
    assert!(!s.clear && s.start == 10 && s.line_base == 2);
    tails.remove("a");
    assert_eq!(tails.get("a"), None);
    let s = tails.begin("a", 20);
    assert!(s.clear && s.start == 0);
    assert_eq!(tails.get("a"), Some(FileState { offset: 0, line_base: 0 }));
}

#[test]
fn changes_map_to_actions() {
    assert_eq!(change_action(ChangeKind::Remove, true), ChangeAction::Remove);
    assert_eq!(change_action(ChangeKind::ModifyData, true), ChangeAction::Rescan);
    assert_eq!(change_action(ChangeKind::Create, false), ChangeAction::Rescan);
    assert_eq!(change_action(ChangeKind::ModifyName, true), ChangeAction::Rescan);
    assert_eq!(change_action(ChangeKind::ModifyName, false), ChangeAction::Remove);
    assert_eq!(change_action(ChangeKind::ModifyMetadata, true), ChangeAction::Ignore);
    assert_eq!(change_action(ChangeKind::Access, true), ChangeAction::Ignore);
}

#[test]
fn two_step_tailing_matches_one_read() {
    let c = build_compiled(&Query::literal("ERROR")).unwrap();
    let a = b"x ERROR 1\nplain\n";
    let b = b"ERROR 3\nmore ERROR\n";
    let whole: Vec<u8> = [&a[..], &b[..]].concat();
    let (all, _) = tail_chunk(&c, "p", 0, 0, &whole).unwrap();
    let (first, st) = tail_chunk(&c, "p", 0, 0, a).unwrap();
    let (second, _) = tail_chunk(&c, "p", st.offset, st.line_base, b).unwrap();
    let view = |v: &Vec<insearch::model::Match>| -> Vec<(u64, u64, String)> {
        v.iter().map(|m| (m.line_start, m.byte_offset, m.text.clone())).collect()
    };
    let mut steps = view(&first);
    steps.extend(view(&second));
    assert_eq!(view(&all), steps);
}

#[test]
fn tailing_decodes_invalid_utf8_lossily() {
    let c = build_compiled(&Query::literal("x")).unwrap();
    let (hits, st) = tail_chunk(&c, "f", 0, 2, b"\xff\xfe x\nno\npart").unwrap();
    assert_eq!(hits.len(), 1);
    assert_eq!(hits[0].line_start, 3);
    assert_eq!(hits[0].text, "\u{FFFD}\u{FFFD} x");
    assert_eq!(st, FileState { offset: 8, line_base: 4 });
}
