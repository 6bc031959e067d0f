//! Counting and reading lines, over chunks of every size.

use message_history::entry::history_line;
use message_history::lines::{LineCounter, LineReader, LineStep, NewlineCounter};

fn count(bytes: &[u8], chunk: usize) -> u64 {
    let mut counter = LineCounter::new();
    for part in bytes.chunks(chunk) {
        counter.feed(part);
    }
    counter.finish()
}

fn read(bytes: &[u8], local: u64, chunk: usize) -> Option<String> {
    let mut reader = LineReader::new(local);
    for part in bytes.chunks(chunk) {
        match reader.feed(part) {
            LineStep::More(next) => reader = next,
            LineStep::Found(line) => return Some(line),
            LineStep::Unreadable => return None,
        }
    }
    reader.finish()
}

#[test]
fn lines_are_counted_with_a_final_unterminated_one() {
    let cases: [(&[u8], u64); 7] = [
        (b"", 0),
        (b"\n", 1),
        (b"a", 1),
        (b"a\n", 1),
        (b"a\nb", 2),
        (b"\n\n\n", 3),
        (b"a\r\nb\r\n", 2),
    ];
    for (bytes, expected) in cases {
        for chunk in 1..8 {
            assert_eq!(count(bytes, chunk), expected);
        }
    }
}

#[test]
fn empty_chunks_change_nothing() {
    let mut counter = LineCounter::new();
    counter.feed(b"a\n");
    counter.feed(b"");
    assert_eq!(counter.finish(), 1);
    counter.feed(b"b");
    counter.feed(b"");
    assert_eq!(counter.finish(), 2);
}

#[test]
fn interrupted_count_leaves_out_the_open_line() {
    let mut counter = LineCounter::new();
    counter.feed(b"a\nb\nc");
    assert_eq!(counter.interrupted(), 2);
    assert_eq!(counter.finish(), 3);
}

#[test]
fn newlines_are_counted_alone() {
    let mut counter = NewlineCounter::new();
    assert_eq!(counter.count(), 0);
    counter.feed(b"a\nb");
    counter.feed(b"\n\nc");
    assert_eq!(counter.count(), 3);
}

#[test]
fn every_line_reads_back() {
    let bytes = "first\n\nthird \u{e9}\u{4e2d}\u{1f600}\r\nlast".as_bytes();
    let expected = ["first", "", "third \u{e9}\u{4e2d}\u{1f600}", "last"];
    for chunk in 1..bytes.len() + 1 {
        for (k, text) in expected.iter().enumerate() {
            assert_eq!(read(bytes, k as u64, chunk), Some(text.to_string()));
        }
        assert_eq!(read(bytes, 4, chunk), None);
        assert_eq!(read(bytes, u64::MAX, chunk), None);
    }
}

#[test]
fn counted_lines_are_the_readable_ones() {
    for text in ["", "\n", "a", "a\n\nb", "\u{e9}\r\n\u{1f600}", "a\nb\n"] {
        let bytes = text.as_bytes();
        let lines = count(bytes, 3);
        for k in 0..lines + 3 {
            assert_eq!(read(bytes, k, 3).is_some(), k < lines);
        }
    }
}

#[test]
fn carriage_return_is_dropped_only_before_a_newline() {
    assert_eq!(read(b"a\r\nb\r", 0, 3), Some("a".to_string()));
    assert_eq!(read(b"a\r\nb\r", 1, 3), Some("b\r".to_string()));
    assert_eq!(read(b"a\r\r\n", 0, 3), Some("a\r".to_string()));
    assert_eq!(read(b"\r\n", 0, 1), Some("".to_string()));
}

#[test]
fn nothing_follows_the_last_newline() {
    assert_eq!(read(b"a\n", 1, 1), None);
    assert_eq!(read(b"", 0, 1), None);
}

#[test]
fn bytes_that_are_no_text_end_the_reading() {
    let bytes = b"ok\n\xff\xfe\nafter\n";
    assert_eq!(read(bytes, 0, 2), Some("ok".to_string()));
    assert_eq!(read(bytes, 1, 2), None);
    assert_eq!(read(bytes, 2, 2), None);
    assert_eq!(read(b"\xc3", 0, 1), None);
    assert_eq!(read(b"\xc3\xa9", 0, 1), Some("\u{e9}".to_string()));
}

#[test]
fn reader_stops_at_the_end_of_its_line() {
    let reader = LineReader::new(1);
    match reader.feed(b"a\nb\n\xff\xff\n") {
        LineStep::Found(line) => assert_eq!(line, "b"),
        LineStep::More(_) => panic!("the line is complete"),
        LineStep::Unreadable => panic!("the line is valid"),
    }
    match LineReader::new(1).feed(b"a\n\xff\n") {
        LineStep::Unreadable => {}
        _ => panic!("the line is not valid"),
    }
}

#[test]
fn stored_line_is_the_record_and_a_newline() {
    assert_eq!(history_line("{\"ts\":1}".to_string()), "{\"ts\":1}\n");
    assert_eq!(history_line("\u{4e2d}".to_string()), "\u{4e2d}\n");
    let line = history_line("record".to_string());
    assert_eq!(read(line.as_bytes(), 0, 2), Some("record".to_string()));
}
