use insearch::split::{default_ts_patterns, BlockSplitter, LineSplitter, Recorded, Unit, UnitSink};

fn collect(units: &[Unit<'_>]) -> Vec<(String, u64, u64)> {
    units.iter().map(|u| (u.text.to_string(), u.line_start, u.byte_offset)).collect()
}

fn block_ranges(splitter: &BlockSplitter, text: &str) -> Vec<(u64, u64)> {
    splitter.split(text).iter().map(|u| (u.line_start, u.line_end)).collect()
}

#[test]
fn line_splitter_numbers_and_offsets() {
    let text = "alpha\nbeta\r\ngamma";
    let units = collect(&LineSplitter.split(text));
    assert_eq!(
        units,
        vec![("alpha".into(), 1, 0), ("beta".into(), 2, 6), ("gamma".into(), 3, 12),]
    );
}

/// Counts the units it is handed and refuses more once `limit` are seen.
struct StopAfter {
    seen: usize,
    limit: usize,
}

impl UnitSink for StopAfter {
    fn accept(&mut self, _u: Unit) -> bool {
        self.seen += 1;
        self.seen < self.limit
    }
}

#[test]
fn line_splitter_early_stop() {
    let text = "one\ntwo\nthree";
    let mut sink = Recorded::new(StopAfter { seen: 0, limit: 2 });
    assert_eq!(LineSplitter.split_into(text, &mut sink), 2);
    assert_eq!(sink.sink.seen, 2);
}

#[test]
fn block_groups_untimestamped_continuation_lines() {
    let text = "2026-01-01 00:00:01 A\n\
                2026-01-01 00:00:02 B\n\
                \tstack frame 1\n\
                \tstack frame 2\n\
                2026-01-01 00:00:03 C\n";
    let bs = BlockSplitter::default();
    assert_eq!(block_ranges(&bs, text), vec![(1, 1), (2, 4), (5, 5)]);
}

#[test]
fn block_leading_lines_form_orphan_block() {
    let text = "header without timestamp\n\
                another preamble line\n\
                2026-01-01 00:00:01 first real entry\n";
    let bs = BlockSplitter::default();
    assert_eq!(block_ranges(&bs, text), vec![(1, 2), (3, 3)]);
}

#[test]
fn block_size_cap_force_splits_untimestamped_run() {
    let bs = BlockSplitter::with_patterns(&default_ts_patterns(), 2).unwrap();
    let text = "2026-01-01 00:00:01 A\nx\ny\nz\n";
    assert_eq!(block_ranges(&bs, text), vec![(1, 2), (3, 4)]);
}

#[test]
fn block_recognises_syslog_and_epoch() {
    let bs = BlockSplitter::default();
    assert!(bs.is_timestamp_line("Aug 20 08:00:01 host daemon: msg"));
    assert!(bs.is_timestamp_line("1755676801 event"));
    assert!(bs.is_timestamp_line("2026-08-20T08:00:01 iso"));
    assert!(!bs.is_timestamp_line("    indented continuation line"));
}

#[test]
fn block_text_drops_trailing_terminators_and_keeps_offsets() {
    let bs = BlockSplitter::default();
    let text = "2026-01-01 00:00:01 A\r\nmore\n\n2026-01-01 00:00:02 B\n";
    let units = bs.split(text);
    assert_eq!(units.len(), 2);
    assert_eq!(units[0].text, "2026-01-01 00:00:01 A\r\nmore");
    assert_eq!((units[0].line_start, units[0].line_end), (1, 3));
    assert_eq!(units[1].byte_offset, 29);
    assert!(bs.split("").is_empty());
    assert!(BlockSplitter::with_patterns(&["("], 5).is_err());
}

#[test]
fn block_splitter_feeds_a_sink_until_it_refuses() {
    let text = "2026-01-01 00:00:01 A\n2026-01-01 00:00:02 B\n\tmore\n2026-01-01 00:00:03 C\n";
    let mut all = Recorded::new(StopAfter { seen: 0, limit: 100 });
    assert_eq!(BlockSplitter::default().split_into(text, &mut all), 3);
    assert_eq!(all.sink.seen, 3);
    let mut one = Recorded::new(StopAfter { seen: 0, limit: 1 });
    assert_eq!(BlockSplitter::default().split_into(text, &mut one), 1);
    assert_eq!(one.sink.seen, 1);
    let mut none = Recorded::new(StopAfter { seen: 0, limit: 1 });
    assert_eq!(BlockSplitter::default().split_into("", &mut none), 0);
    assert_eq!(none.sink.seen, 0);
}
