//! Segment names, their order, and the numbering that they carry.

use message_history::config::{history_filepath, HistoryConfig, HISTORY_FILENAME};
use message_history::segments::{parse_segment_start, segment_file_name, segment_path, SegmentSet};
use message_history::text::{chars_of, decimal_string, parse_decimal};
use message_history::{History, HistoryPersistence};
use std::path::PathBuf;

fn set(names: &[&str]) -> SegmentSet {
    SegmentSet::scan(Some(names.iter().map(|n| n.to_string()).collect()))
}

#[test]
fn segment_starts_parse() {
    assert_eq!(parse_segment_start("history.0.jsonl"), Some(0));
    assert_eq!(parse_segment_start("history.10.jsonl"), Some(10));
    assert_eq!(parse_segment_start("history.007.jsonl"), Some(7));
    assert_eq!(parse_segment_start("history.18446744073709551615.jsonl"), Some(u64::MAX));
    assert_eq!(parse_segment_start("history.0018446744073709551615.jsonl"), Some(u64::MAX));
}

#[test]
fn foreign_names_do_not_parse() {
    for name in [
        "",
        "history.jsonl",
        "history..jsonl",
        "history.abc.jsonl",
        "history.10x.jsonl",
        "history.+1.jsonl",
        "history.-1.jsonl",
        "history. 1.jsonl",
        "history.1.json",
        "history.1.jsonl.bak",
        "xhistory.1.jsonl",
        "History.1.jsonl",
        "history.\u{661}.jsonl",
        "history.18446744073709551616.jsonl",
        "history.99999999999999999999999.jsonl",
    ] {
        assert_eq!(parse_segment_start(name), None, "{name}");
    }
}

#[test]
fn segment_names_round_trip() {
    for start in [0, 9, 10, 99, 1234567890, u64::MAX] {
        let name = segment_file_name(start);
        assert_eq!(name, format!("history.{start}.jsonl"));
        assert_eq!(parse_segment_start(&name), Some(start));
    }
}

#[test]
fn numerals() {
    for n in [0, 7, 10, 101, 18446744073709551610, u64::MAX] {
        assert_eq!(decimal_string(n), format!("{n}"));
        assert_eq!(parse_decimal(&chars_of(&format!("{n}"))), Some(n));
    }
    assert_eq!(parse_decimal(&[]), Some(0));
    assert_eq!(parse_decimal(&chars_of("18446744073709551616")), None);
    assert_eq!(parse_decimal(&chars_of("18446744073709551620")), None);
    assert_eq!(chars_of("a\u{1f600}"), vec!['a', '\u{1f600}']);
}

#[test]
fn paths_lie_in_their_directory() {
    let dir = PathBuf::from("home");
    let path = segment_path(&dir, 12);
    assert_eq!(path.dir, &dir);
    assert_eq!(path.file_name, "history.12.jsonl");

    let config = HistoryConfig::new("home", &History::default());
    let path = history_filepath(&config);
    assert_eq!(path.dir, &dir);
    assert_eq!(path.file_name, HISTORY_FILENAME);
}

#[test]
fn config_takes_over_the_settings() {
    let history = History::default();
    assert_eq!(history.persistence, HistoryPersistence::SaveAll);
    assert_eq!(history.max_bytes, None);

    let history = History { persistence: HistoryPersistence::Disabled, max_bytes: Some(9) };
    let config = HistoryConfig::new(PathBuf::from("home"), &history);
    assert_eq!(config.codex_home, PathBuf::from("home"));
    assert_eq!(config.persistence, HistoryPersistence::Disabled);
    assert_eq!(config.max_bytes, Some(9));
    assert_eq!(config.clone(), config);
}

#[test]
fn scan_sorts_by_start_and_skips_the_rest() {
    let found = set(&[
        "history.30.jsonl",
        "history.jsonl",
        "history.4.jsonl",
        "notes.txt",
        "history.100.jsonl",
        "history.x.jsonl",
    ]);
    assert_eq!(
        found.file_names(),
        vec!["history.4.jsonl", "history.30.jsonl", "history.100.jsonl"]
    );
    assert_eq!(found.len(), 3);
    assert!(!found.is_empty());
    assert_eq!(found.get(0).map(|s| s.start), Some(4));
    assert_eq!(found.get(1).map(|s| s.start), Some(30));
    assert_eq!(found.get(3), None);
    assert_eq!(found.newest().map(|s| s.start), Some(100));
    let oldest = found.get(0).cloned();
    assert_eq!(oldest.as_ref(), found.get(0));
}

#[test]
fn equal_starts_keep_the_order_of_the_listing() {
    let found = set(&["history.07.jsonl", "history.1.jsonl", "history.7.jsonl"]);
    assert_eq!(found.file_names(), vec!["history.1.jsonl", "history.07.jsonl", "history.7.jsonl"]);
    let found = set(&["history.7.jsonl", "history.07.jsonl", "history.1.jsonl"]);
    assert_eq!(found.file_names(), vec!["history.1.jsonl", "history.7.jsonl", "history.07.jsonl"]);
}

#[test]
fn unlistable_directory_has_no_segments() {
    let found = SegmentSet::scan(None);
    assert!(found.is_empty());
    assert_eq!(found.newest(), None);
    assert_eq!(found.active_start(5), 0);
    assert_eq!(found.locate(0, 5), None);
    assert_eq!(found.segment_count(0, 5), 0);
}

#[test]
fn active_file_starts_behind_the_newest_segment() {
    let found = set(&["history.0.jsonl", "history.10.jsonl"]);
    assert_eq!(found.active_start(0), 10);
    assert_eq!(found.active_start(3), 13);
    let found = set(&["history.18446744073709551610.jsonl"]);
    assert_eq!(found.active_start(5), u64::MAX);
    assert_eq!(found.active_start(6), u64::MAX);
}

#[test]
fn segment_counts_come_from_names_but_for_the_newest() {
    let found = set(&["history.2.jsonl", "history.5.jsonl", "history.9.jsonl"]);
    assert_eq!(found.segment_count(0, 7), 3);
    assert_eq!(found.segment_count(1, 7), 4);
    assert_eq!(found.segment_count(2, 7), 7);
    assert_eq!(found.segment_count(3, 7), 0);
    assert_eq!(found.segment_count(usize::MAX, 7), 0);
}

#[test]
fn entries_are_located() {
    let found = set(&["history.2.jsonl", "history.5.jsonl", "history.9.jsonl"]);
    assert_eq!(found.locate(1, 2), None);
    assert_eq!(found.locate(2, 2), Some((0, 0)));
    assert_eq!(found.locate(4, 2), Some((0, 2)));
    assert_eq!(found.locate(5, 2), Some((1, 0)));
    assert_eq!(found.locate(8, 2), Some((1, 3)));
    assert_eq!(found.locate(9, 2), Some((2, 0)));
    assert_eq!(found.locate(10, 2), Some((2, 1)));
    assert_eq!(found.locate(11, 2), None);
    assert_eq!(found.locate(u64::MAX, 2), None);
}

#[test]
fn sizes_add_up_and_saturate() {
    assert_eq!(SegmentSet::total_bytes(&vec![]), 0);
    assert_eq!(SegmentSet::total_bytes(&vec![Some(3), None, Some(4)]), 7);
    assert_eq!(SegmentSet::total_bytes(&vec![Some(u64::MAX), Some(1)]), u64::MAX);
}
