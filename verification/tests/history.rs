//! Whole operations, played against a directory that is kept in memory.

use message_history::append::{
    Append, AppendAction, AppendError, AppendEvent, FileIdentity, LockOutcome,
};
use message_history::config::HISTORY_FILENAME;
use message_history::lines::{LineCounter, LineReader, LineStep, NewlineCounter};
use message_history::lookup::{ActiveFile, Lookup, LookupAction, LookupEvent, SharedLock};
use message_history::metadata::{
    history_metadata, history_metadata_for_file, HISTORY_COUNT_BUFFER_SIZE,
};
use message_history::rotation::{Rotation, RotationAction, RotationEvent};
use message_history::segments::SegmentSet;
use message_history::{History, HistoryConfig, HistoryEntry, HistoryPersistence};
use std::collections::BTreeMap;

struct Stored {
    id: u64,
    mode: u32,
    bytes: Vec<u8>,
}

struct Disk {
    files: BTreeMap<String, Stored>,
    next_id: u64,
    chunk: usize,
    deletions_fail: bool,
    /// How many more tries of a lock find it taken.
    taken: usize,
    /// How many more tries of the exclusive lock lose a rotation race.
    races: usize,
    slept: Vec<u64>,
}

impl Disk {
    fn new() -> Disk {
        Disk {
            files: BTreeMap::new(),
            next_id: 41,
            chunk: 7,
            deletions_fail: false,
            taken: 0,
            races: 0,
            slept: Vec::new(),
        }
    }

    fn write(&mut self, name: &str, bytes: &[u8]) {
        let id = self.next_id;
        self.next_id += 1;
        let stored = Stored { id, mode: 0o100644, bytes: bytes.to_vec() };
        self.files.insert(name.to_string(), stored);
    }

    fn active(&self) -> Option<&Stored> {
        self.files.get(HISTORY_FILENAME)
    }

    fn open_active(&mut self) -> &mut Stored {
        if self.active().is_none() {
            self.write(HISTORY_FILENAME, b"");
            self.files.get_mut(HISTORY_FILENAME).unwrap().mode = 0o100600;
        }
        self.files.get_mut(HISTORY_FILENAME).unwrap()
    }

    /// Newest name first, so that the order of a listing is never the order of
    /// the segments.
    fn listing(&self) -> Option<Vec<String>> {
        Some(self.files.keys().rev().cloned().collect())
    }

    fn count_lines(&self, name: &str) -> u64 {
        let mut counter = LineCounter::new();
        for chunk in self.files[name].bytes.chunks(self.chunk) {
            counter.feed(chunk);
        }
        counter.finish()
    }

    fn read_line(&self, name: &str, local: u64) -> Option<String> {
        let mut reader = LineReader::new(local);
        for chunk in self.files.get(name)?.bytes.chunks(self.chunk) {
            match reader.feed(chunk) {
                LineStep::More(next) => reader = next,
                LineStep::Found(line) => return Some(line),
                LineStep::Unreadable => return None,
            }
        }
        reader.finish()
    }

    fn rotate(&mut self, max_bytes: Option<usize>) -> Result<(), String> {
        let (mut rotation, mut action) = Rotation::start::<String>(max_bytes);
        loop {
            let event = match action {
                RotationAction::Finish(outcome) => return outcome,
                RotationAction::MeasureActive => {
                    RotationEvent::ActiveMeasured(Ok(self.active().unwrap().bytes.len() as u64))
                }
                RotationAction::ListDirectory => RotationEvent::Listed(self.listing()),
                RotationAction::CountLines { file_name } => {
                    RotationEvent::Counted(self.count_lines(&file_name))
                }
                RotationAction::RenameActive { file_name } => {
                    assert!(!self.files.contains_key(&file_name));
                    let stored = self.files.remove(HISTORY_FILENAME).unwrap();
                    self.files.insert(file_name, stored);
                    RotationEvent::Renamed(Ok(()))
                }
                RotationAction::MeasureSegments { file_names } => {
                    let sizes = file_names.iter().map(|n| Some(self.files[n].bytes.len() as u64));
                    RotationEvent::SegmentsMeasured(sizes.collect())
                }
                RotationAction::DeleteSegment { file_name } => {
                    let len = self.files[&file_name].bytes.len() as u64;
                    if !self.deletions_fail {
                        self.files.remove(&file_name);
                    }
                    RotationEvent::Deleted { len, removed: !self.deletions_fail }
                }
            };
            assert!(rotation.expects(&event));
            let (next, asked) = rotation.step(event);
            rotation = next;
            action = asked;
        }
    }

    fn append_entry(
        &mut self,
        text: &str,
        conversation_id: &str,
        config: &HistoryConfig,
    ) -> Result<(), AppendError<String>> {
        let (mut append, mut action) =
            Append::start::<String>(text, conversation_id.to_string(), config);
        loop {
            let event = match action {
                AppendAction::Finish(outcome) => return outcome,
                AppendAction::CreateDirectory => AppendEvent::Done(Ok(())),
                AppendAction::ReadClock => AppendEvent::Clock(Ok(1_700_000_000)),
                AppendAction::Serialize(entry) => AppendEvent::Serialized(Ok(to_json(&entry))),
                AppendAction::ReadMode => AppendEvent::Mode(Ok(Some(self.open_active().mode))),
                AppendAction::SetMode { mode } => {
                    self.open_active().mode = 0o100000 | mode;
                    AppendEvent::Done(Ok(()))
                }
                AppendAction::TryLock => {
                    let id = self.open_active().id;
                    if self.taken > 0 {
                        self.taken -= 1;
                        AppendEvent::LockTried(LockOutcome::WouldBlock)
                    } else if self.races > 0 {
                        self.races -= 1;
                        AppendEvent::LockTried(LockOutcome::Acquired {
                            handle: FileIdentity::Known(id + 1000),
                            path: FileIdentity::Known(id),
                        })
                    } else {
                        AppendEvent::LockTried(LockOutcome::Acquired {
                            handle: FileIdentity::Known(id),
                            path: FileIdentity::Known(id),
                        })
                    }
                }
                AppendAction::Sleep { millis } => {
                    self.slept.push(millis);
                    AppendEvent::Slept
                }
                AppendAction::WriteLine { line } => {
                    self.open_active().bytes.extend_from_slice(line.as_bytes());
                    AppendEvent::Done(Ok(()))
                }
                AppendAction::Rotate { max_bytes } => AppendEvent::Done(self.rotate(max_bytes)),
            };
            assert!(append.expects(&event));
            let (next, asked) = append.step(event);
            append = next;
            action = asked;
        }
    }

    fn measure_active(&self) -> (FileIdentity, Option<usize>) {
        match self.active() {
            None => (FileIdentity::Missing, None),
            Some(stored) => {
                let mut counter = NewlineCounter::new();
                for chunk in stored.bytes.chunks(HISTORY_COUNT_BUFFER_SIZE) {
                    counter.feed(chunk);
                }
                (FileIdentity::Known(stored.id), Some(counter.count()))
            }
        }
    }

    fn metadata_for_file(&self) -> (u64, usize) {
        let (identity, newlines) = self.measure_active();
        history_metadata_for_file(identity, newlines)
    }

    fn metadata(&self) -> (u64, usize) {
        let set = SegmentSet::scan(self.listing());
        let newest_lines = match set.newest() {
            Some(newest) => self.count_lines(&newest.file_name),
            None => 0,
        };
        let (identity, newlines) = self.measure_active();
        history_metadata(identity, newlines, &set, newest_lines)
    }

    fn lookup_line(&mut self, log_id: u64, offset: usize) -> Option<String> {
        let (mut lookup, mut action) = Lookup::start(log_id, offset);
        loop {
            let event = match action {
                LookupAction::ListDirectory => LookupEvent::Listed(self.listing()),
                LookupAction::OpenActive => LookupEvent::ActiveOpened(match self.active() {
                    Some(stored) => ActiveFile::Open { id: Some(stored.id) },
                    None => ActiveFile::Missing,
                }),
                LookupAction::CountLines { file_name } => {
                    LookupEvent::Counted(self.count_lines(&file_name))
                }
                LookupAction::Identify { file_name } => {
                    LookupEvent::Identified(Some(self.files[&file_name].id))
                }
                LookupAction::TryLockShared => {
                    if self.taken > 0 {
                        self.taken -= 1;
                        LookupEvent::LockTried(SharedLock::WouldBlock)
                    } else {
                        LookupEvent::LockTried(SharedLock::Acquired)
                    }
                }
                LookupAction::Sleep { millis } => {
                    self.slept.push(millis);
                    LookupEvent::Slept
                }
                LookupAction::ReadActive { local } => {
                    return self.read_line(HISTORY_FILENAME, local)
                }
                LookupAction::ReadSegment { file_name, local } => {
                    return self.read_line(&file_name, local)
                }
                LookupAction::NotFound => return None,
            };
            assert!(lookup.expects(&event));
            let (next, asked) = lookup.step(event);
            lookup = next;
            action = asked;
        }
    }

    fn lookup(&mut self, log_id: u64, offset: usize) -> Option<HistoryEntry> {
        from_json(&self.lookup_line(log_id, offset)?)
    }

    fn segments(&self) -> SegmentSet {
        SegmentSet::scan(self.listing())
    }

    fn segment_bytes(&self) -> u64 {
        let names = self.segments().file_names();
        let sizes = names.iter().map(|n| Some(self.files[n].bytes.len() as u64)).collect();
        SegmentSet::total_bytes(&sizes)
    }

    fn active_len(&self) -> u64 {
        match self.active() {
            Some(stored) => stored.bytes.len() as u64,
            None => 0,
        }
    }
}

fn to_json(entry: &HistoryEntry) -> String {
    format!(
        "{{\"session_id\":{},\"ts\":{},\"text\":{}}}",
        serde_json::to_string(&entry.session_id).unwrap(),
        entry.ts,
        serde_json::to_string(&entry.text).unwrap(),
    )
}

fn from_json(line: &str) -> Option<HistoryEntry> {
    let value = serde_json::from_str::<serde_json::Value>(line).ok()?;
    Some(HistoryEntry {
        session_id: value.get("session_id")?.as_str()?.to_string(),
        ts: value.get("ts")?.as_u64()?,
        text: value.get("text")?.as_str()?.to_string(),
    })
}

fn entry(session_id: &str, ts: u64, text: &str) -> HistoryEntry {
    HistoryEntry { session_id: session_id.to_string(), ts, text: text.to_string() }
}

fn config_with(max_bytes: Option<usize>) -> HistoryConfig {
    let mut history = History::default();
    history.max_bytes = max_bytes;
    HistoryConfig::new("codex-home", &history)
}

/// The size of one line with this text.
fn entry_len(text: &str) -> u64 {
    let mut disk = Disk::new();
    assert!(disk.append_entry(text, "conversation-id", &config_with(None)).is_ok());
    disk.active_len()
}

#[test]
fn lookup_reads_history_entries() {
    let mut disk = Disk::new();
    let entries = vec![
        entry("first-session", 1, "first"),
        entry("second-session", 2, "second"),
    ];
    let mut bytes = Vec::new();
    for e in &entries {
        bytes.extend_from_slice(to_json(e).as_bytes());
        bytes.push(b'\n');
    }
    disk.write(HISTORY_FILENAME, &bytes);

    let (log_id, count) = disk.metadata_for_file();
    assert_eq!(count, entries.len());

    let second_entry = disk.lookup(log_id, 1).expect("fetch second history entry");
    assert_eq!(second_entry, entries[1]);
}

#[test]
fn history_metadata_counts_newlines_across_read_boundaries() {
    let mut disk = Disk::new();
    let mut contents = vec![b'x'; 3 * HISTORY_COUNT_BUFFER_SIZE + 1];
    let newline_offsets = [
        0,
        HISTORY_COUNT_BUFFER_SIZE - 1,
        HISTORY_COUNT_BUFFER_SIZE,
        2 * HISTORY_COUNT_BUFFER_SIZE,
        contents.len() - 2,
    ];
    for offset in newline_offsets {
        contents[offset] = b'\n';
    }
    disk.write(HISTORY_FILENAME, &contents);

    let (_, count) = disk.metadata_for_file();

    assert_eq!(count, newline_offsets.len());
}

#[test]
fn lookup_uses_stable_log_id_after_appends() {
    let mut disk = Disk::new();
    let initial = entry("first-session", 1, "first");
    let appended = entry("second-session", 2, "second");
    disk.write(HISTORY_FILENAME, format!("{}\n", to_json(&initial)).as_bytes());

    let (log_id, count) = disk.metadata_for_file();
    assert_eq!(count, 1);

    let line = format!("{}\n", to_json(&appended));
    disk.open_active().bytes.extend_from_slice(line.as_bytes());

    let fetched = disk.lookup(log_id, 1).expect("lookup appended history entry");
    assert_eq!(fetched, appended);
}

#[test]
fn append_entry_caps_history_with_segment_rotation() {
    let mut disk = Disk::new();
    let text = "a".repeat(200);
    assert!(disk.append_entry(&text, "conversation-id", &config_with(None)).is_ok());
    let entry_len = disk.active_len();

    // Cap at roughly six entries; rotation triggers near a quarter of that.
    let max_bytes = usize::try_from(entry_len * 6).expect("cap fits usize");
    let config = config_with(Some(max_bytes));
    for _ in 0..40 {
        assert!(disk.append_entry(&text, "conversation-id", &config).is_ok());
    }

    let active_len = disk.active().expect("metadata").bytes.len() as u64;
    assert!(
        active_len < entry_len * 3,
        "active file must stay below the rotation threshold plus one entry"
    );
    assert!(!disk.segments().is_empty(), "rotation must have produced segments");

    // Retained bytes stay bounded: segments within the cap (the newest may
    // overshoot by itself) plus a below-threshold active file.
    let total = disk.segment_bytes() + active_len;
    assert!(
        total <= (max_bytes as u64) + entry_len * 3,
        "retained bytes {total} exceed cap {max_bytes} plus rotation slack"
    );

    // The newest entry is always retrievable at the last global offset.
    let (log_id, count) = disk.metadata();
    assert!(count > 0);
    let newest = disk.lookup(log_id, count - 1).expect("newest entry resolves");
    assert_eq!(newest.text, text);
}

#[test]
fn append_entry_retains_newest_entry_under_tiny_cap() {
    let mut disk = Disk::new();
    // Cap far below one entry: every append rotates immediately and deletes
    // every older segment, but the newest entry must always survive.
    let config = config_with(Some(8));

    for index in 0..5 {
        let text = format!("entry-{index}");
        assert!(disk.append_entry(&text, "conversation-id", &config).is_ok());

        let (log_id, count) = disk.metadata();
        assert!(count > 0);
        let newest = disk.lookup(log_id, count - 1).expect("newest entry resolves");
        assert_eq!(newest.text, text);
        assert_eq!(disk.segments().len(), 1);
    }
}

#[test]
fn lookup_resolves_global_offsets_across_segments() {
    let mut disk = Disk::new();
    let entry_len = entry_len("probe");

    // Threshold of ~2.5 entries with a cap loose enough that nothing is
    // deleted: every entry ever appended must stay reachable via its global
    // offset even though the log spans multiple files.
    let cap = usize::try_from(entry_len * 10).expect("cap fits usize");
    let config = config_with(Some(cap));

    let texts: Vec<String> = (0..8).map(|index| format!("entry-{index}")).collect();
    for text in &texts {
        // Pad to the probe length so rotation cadence is predictable.
        let padded = format!("{text:<width$}", width = "probe".len());
        assert!(disk.append_entry(&padded, "conversation-id", &config).is_ok());
    }
    assert!(
        !disk.segments().is_empty(),
        "the corpus must span rotated segments for this test to bite"
    );

    let (log_id, count) = disk.metadata();
    assert_eq!(count, texts.len());
    for (offset, text) in texts.iter().enumerate() {
        let via_id = disk.lookup(log_id, offset).expect("entry resolves via active id");
        assert_eq!(via_id.text.trim_end(), text.as_str());
        let via_wildcard = disk.lookup(0, offset).expect("entry resolves via wildcard id");
        assert_eq!(via_wildcard.text.trim_end(), text.as_str());
    }
    assert_eq!(disk.lookup(0, texts.len()), None);
}

#[test]
fn lookup_resolves_pre_rotation_identity_locally() {
    let mut disk = Disk::new();
    assert!(disk.append_entry("first", "conversation-id", &config_with(None)).is_ok());
    let entry_len = disk.active_len();

    let cap = usize::try_from(entry_len * 10).expect("cap fits usize");
    let config = config_with(Some(cap));
    assert!(disk.append_entry("second", "conversation-id", &config).is_ok());
    let (pre_rotation_id, pre_count) = disk.metadata();
    assert_eq!(pre_count, 2);

    // Force at least one rotation so the pre-rotation file becomes a segment.
    for index in 0..6 {
        let text = format!("later-{index}");
        assert!(disk.append_entry(&text, "conversation-id", &config).is_ok());
    }
    assert!(!disk.segments().is_empty(), "rotation must have happened");

    // Rotation renames the file in place, so the cached identity still names
    // it and the cached local offset still points at the same line.
    let entry = disk
        .lookup(pre_rotation_id, 1)
        .expect("pre-rotation identity resolves against the rotated segment");
    assert_eq!(entry.text, "second");
}

#[test]
fn active_file_keeps_newest_entries_for_legacy_readers() {
    let mut disk = Disk::new();
    let entry_len = entry_len("probe");
    let cap = usize::try_from(entry_len * 10).expect("cap fits usize");
    let config = config_with(Some(cap));
    for index in 0..8 {
        let text = format!("entry-{index}");
        assert!(disk.append_entry(&text, "conversation-id", &config).is_ok());
    }

    // A reader of `history.jsonl` alone must see a clean JSONL suffix of the
    // logical history, never a corrupt or unrelated file.
    let active = disk.active().expect("read active file");
    let contents = String::from_utf8(active.bytes.clone()).expect("read active file");
    let mut seen = Vec::new();
    for line in contents.lines() {
        seen.push(from_json(line).expect("active line parses").text);
    }
    let (_, total) = disk.metadata();
    assert_eq!(total, 8);
    let expected_suffix: Vec<String> =
        (8 - seen.len()..8).map(|index| format!("entry-{index}")).collect();
    assert_eq!(seen, expected_suffix);
    assert!(!seen.is_empty());
}

#[test]
fn foreign_history_files_are_ignored() {
    let mut disk = Disk::new();
    disk.write("history.abc.jsonl", b"junk\n");
    disk.write("history..jsonl", b"junk\n");
    disk.write("history.10x.jsonl", b"junk\n");

    let config = config_with(None);
    assert!(disk.append_entry("only", "conversation-id", &config).is_ok());

    let (log_id, count) = disk.metadata();
    assert_eq!(count, 1);
    let entry = disk.lookup(log_id, 0).expect("entry resolves");
    assert_eq!(entry.text, "only");
    assert!(disk.segments().is_empty());
}

#[test]
fn rotation_names_each_segment_by_its_first_index() {
    let mut disk = Disk::new();
    let len = entry_len("entry-0");
    let config = config_with(Some((len * 8) as usize));
    for index in 0..5 {
        assert!(disk.append_entry(&format!("entry-{index}"), "conversation-id", &config).is_ok());
    }
    assert_eq!(
        disk.segments().file_names(),
        vec!["history.0.jsonl".to_string(), "history.2.jsonl".to_string()]
    );
    assert_eq!(disk.active_len(), len);
    assert_eq!(disk.metadata().1, 5);
}

#[test]
fn pruned_entries_are_gone_and_the_rest_keep_their_index() {
    let mut disk = Disk::new();
    let len = entry_len("entry-0");
    // Two lines to a segment, and a cap of eight lines.
    let config = config_with(Some((len * 8) as usize));
    for index in 0..10 {
        assert!(disk.append_entry(&format!("entry-{index}"), "conversation-id", &config).is_ok());
    }
    assert_eq!(
        disk.segments().file_names(),
        vec!["history.2.jsonl", "history.4.jsonl", "history.6.jsonl", "history.8.jsonl"]
    );
    assert_eq!(disk.segment_bytes(), len * 8);
    assert_eq!(disk.lookup(0, 0), None);
    assert_eq!(disk.lookup(0, 1), None);
    for index in 2..10 {
        assert_eq!(disk.lookup(0, index).unwrap().text, format!("entry-{index}"));
    }
    assert_eq!(disk.lookup(0, 10), None);
    assert_eq!(disk.metadata().1, 10);
}

#[test]
fn failed_deletions_move_on_but_spare_the_newest() {
    let mut disk = Disk::new();
    disk.deletions_fail = true;
    let config = config_with(Some(8));
    for index in 0..3 {
        assert!(disk.append_entry(&format!("entry-{index}"), "conversation-id", &config).is_ok());
    }
    assert_eq!(disk.segments().len(), 3);
    disk.deletions_fail = false;
    assert!(disk.append_entry("entry-3", "conversation-id", &config).is_ok());
    assert_eq!(disk.segments().file_names(), vec!["history.3.jsonl".to_string()]);
    assert_eq!(disk.lookup(0, 3).unwrap().text, "entry-3");
}

#[test]
fn an_empty_history_has_no_entries() {
    let mut disk = Disk::new();
    assert_eq!(disk.metadata(), (0, 0));
    assert_eq!(disk.lookup(0, 0), None);
    assert_eq!(disk.lookup(5, 0), None);
}

#[test]
fn count_spans_segments_while_the_active_file_is_away() {
    let mut disk = Disk::new();
    disk.write("history.7.jsonl", b"a\nb\n");
    assert_eq!(disk.metadata(), (0, 9));
    assert_eq!(disk.lookup_line(0, 8), Some("b".to_string()));
    assert_eq!(disk.lookup_line(0, 7), Some("a".to_string()));
    assert_eq!(disk.lookup_line(0, 6), None);
    assert_eq!(disk.lookup_line(0, 9), None);
}

#[test]
fn identifiers_keep_their_meaning_while_the_active_file_is_away() {
    let mut disk = Disk::new();
    disk.write("history.7.jsonl", b"a\nb\n");
    assert_eq!(disk.lookup_line(41, 0), Some("a".to_string()));
    assert_eq!(disk.lookup_line(41, 1), Some("b".to_string()));
    assert_eq!(disk.lookup_line(41, 7), None);
    for offset in 0..10 {
        assert_eq!(disk.lookup_line(123, offset), None);
    }
}

#[test]
fn cached_identifier_survives_the_rotation_itself() {
    let mut disk = Disk::new();
    for text in ["first", "second"] {
        assert!(disk.append_entry(text, "conversation-id", &config_with(None)).is_ok());
    }
    let (id, count) = disk.metadata();
    assert_eq!(count, 2);
    assert_eq!(disk.rotate(Some(8)), Ok(()));
    assert!(disk.active().is_none());
    assert_eq!(disk.lookup(id, 0).unwrap().text, "first");
    assert_eq!(disk.lookup(id, 1).unwrap().text, "second");
    assert_eq!(disk.lookup(id, 2), None);
    assert_eq!(disk.metadata(), (0, 2));
}

#[test]
fn foreign_files_keep_their_bytes() {
    let mut disk = Disk::new();
    disk.write("history.abc.jsonl", b"junk\n");
    disk.write("notes.txt", b"mine");
    for index in 0..5 {
        let text = format!("entry-{index}");
        assert!(disk.append_entry(&text, "conversation-id", &config_with(Some(8))).is_ok());
    }
    assert_eq!(disk.files["history.abc.jsonl"].bytes, b"junk\n");
    assert_eq!(disk.files["notes.txt"].bytes, b"mine");
    assert_eq!(disk.files.len(), 3);
}

#[test]
fn stored_record_carries_session_clock_and_text() {
    let mut disk = Disk::new();
    assert!(disk.append_entry("a \"b\"\nc", "session-1", &config_with(None)).is_ok());
    assert_eq!(disk.lookup(0, 0), Some(entry("session-1", 1_700_000_000, "a \"b\"\nc")));
}

#[test]
fn line_after_an_unterminated_one_joins_it() {
    let mut disk = Disk::new();
    disk.write(HISTORY_FILENAME, b"cut");
    assert!(disk.append_entry("only", "conversation-id", &config_with(None)).is_ok());
    assert_eq!(disk.metadata().1, 1);
    assert!(disk.lookup_line(0, 0).unwrap().starts_with("cut{"));
}

#[test]
fn stray_line_in_the_newest_segment_shifts_the_active_entries() {
    let mut disk = Disk::new();
    disk.write("history.0.jsonl", b"a\nb\n");
    disk.write(HISTORY_FILENAME, b"c\n");
    assert_eq!(disk.metadata().1, 3);
    assert_eq!(disk.lookup_line(0, 2), Some("c".to_string()));
    disk.files.get_mut("history.0.jsonl").unwrap().bytes.extend_from_slice(b"stray\n");
    assert_eq!(disk.metadata().1, 4);
    assert_eq!(disk.lookup_line(0, 1), Some("b".to_string()));
    assert_eq!(disk.lookup_line(0, 2), Some("stray".to_string()));
    assert_eq!(disk.lookup_line(0, 3), Some("c".to_string()));
}

#[test]
fn trimmed_active_file_leaves_the_segments_alone() {
    let mut disk = Disk::new();
    disk.write("history.0.jsonl", b"a\nb\n");
    disk.write(HISTORY_FILENAME, b"c\nd\ne\n");
    assert_eq!(disk.metadata().1, 5);
    disk.open_active().bytes = b"e\n".to_vec();
    assert_eq!(disk.metadata().1, 3);
    assert_eq!(disk.lookup_line(0, 0), Some("a".to_string()));
    assert_eq!(disk.lookup_line(0, 1), Some("b".to_string()));
    assert_eq!(disk.lookup_line(0, 2), Some("e".to_string()));
}

#[test]
fn unknown_identifier_finds_nothing() {
    let mut disk = Disk::new();
    disk.write("history.0.jsonl", b"a\n");
    disk.write(HISTORY_FILENAME, b"b\n");
    assert_eq!(disk.lookup_line(9999, 0), None);
    assert_eq!(disk.lookup_line(41, 0), Some("a".to_string()));
    assert_eq!(disk.lookup_line(41, 1), None);
    assert_eq!(disk.lookup_line(42, 1), Some("b".to_string()));
}

#[test]
fn disabled_persistence_records_nothing() {
    let mut disk = Disk::new();
    let history = History { persistence: HistoryPersistence::Disabled, max_bytes: None };
    let config = HistoryConfig::new("codex-home", &history);
    assert!(disk.append_entry("only", "conversation-id", &config).is_ok());
    assert!(disk.files.is_empty());
}

#[test]
fn append_makes_the_file_private() {
    let mut disk = Disk::new();
    disk.write(HISTORY_FILENAME, b"");
    assert!(disk.append_entry("only", "conversation-id", &config_with(None)).is_ok());
    assert_eq!(disk.active().unwrap().mode & 0o777, 0o600);
}

#[test]
fn append_waits_for_a_taken_lock() {
    let mut disk = Disk::new();
    disk.taken = 4;
    disk.races = 5;
    assert!(disk.append_entry("only", "conversation-id", &config_with(None)).is_ok());
    assert_eq!(disk.slept, vec![100; 4]);
    assert_eq!(disk.metadata().1, 1);
}

#[test]
fn append_gives_up_on_a_lock_that_stays_taken() {
    let mut disk = Disk::new();
    disk.taken = 10;
    let outcome = disk.append_entry("only", "conversation-id", &config_with(None));
    assert!(matches!(outcome, Err(AppendError::LockContended)));
    assert_eq!(disk.slept, vec![100; 10]);
    assert_eq!(disk.metadata().1, 0);
}

#[test]
fn append_gives_up_after_too_many_races() {
    let mut disk = Disk::new();
    disk.races = 10;
    let outcome = disk.append_entry("only", "conversation-id", &config_with(None));
    assert!(matches!(outcome, Err(AppendError::LockContended)));
    assert!(disk.slept.is_empty());
    assert_eq!(disk.metadata().1, 0);
}

#[test]
fn lookup_waits_for_a_taken_lock() {
    let mut disk = Disk::new();
    disk.write(HISTORY_FILENAME, b"a\n");
    disk.taken = 9;
    assert_eq!(disk.lookup_line(0, 0), Some("a".to_string()));
    assert_eq!(disk.slept, vec![100; 9]);
    disk.taken = 10;
    assert_eq!(disk.lookup_line(0, 0), None);
    assert_eq!(disk.taken, 0);
}

#[test]
fn segments_are_read_without_a_lock() {
    let mut disk = Disk::new();
    disk.write("history.0.jsonl", b"a\n");
    disk.write(HISTORY_FILENAME, b"b\n");
    disk.taken = 10;
    assert_eq!(disk.lookup_line(0, 0), Some("a".to_string()));
    assert_eq!(disk.taken, 10);
}

#[test]
fn append_behind_a_line_that_is_no_text_is_counted() {
    let mut disk = Disk::new();
    disk.write(HISTORY_FILENAME, b"a\n\xff\nb\n");
    assert!(disk.append_entry("only", "conversation-id", &config_with(None)).is_ok());
    assert_eq!(disk.metadata().1, 4);
    assert_eq!(disk.lookup_line(0, 0), Some("a".to_string()));
    for offset in 1..5 {
        assert_eq!(disk.lookup_line(0, offset), None);
    }
}

#[test]
fn stray_line_behind_one_that_is_no_text_is_counted() {
    let mut disk = Disk::new();
    disk.write("history.0.jsonl", b"a\n\xff\n");
    disk.write(HISTORY_FILENAME, b"c\n");
    assert_eq!(disk.lookup_line(0, 2), Some("c".to_string()));
    disk.files.get_mut("history.0.jsonl").unwrap().bytes.extend_from_slice(b"stray\n");
    assert_eq!(disk.metadata().1, 4);
    assert_eq!(disk.lookup_line(0, 0), Some("a".to_string()));
    assert_eq!(disk.lookup_line(0, 2), None);
    assert_eq!(disk.lookup_line(0, 3), Some("c".to_string()));
}

#[test]
fn cached_identifier_lasts_until_its_file_is_deleted() {
    let mut disk = Disk::new();
    let len = entry_len("entry-0");
    // Two lines to a segment, and a cap of eight lines.
    let config = config_with(Some((len * 8) as usize));
    assert!(disk.append_entry("entry-0", "conversation-id", &config).is_ok());
    let (id, _) = disk.metadata();
    for index in 1..12 {
        assert!(disk.append_entry(&format!("entry-{index}"), "conversation-id", &config).is_ok());
        let kept = disk.files.contains_key("history.0.jsonl");
        assert_eq!(kept, index < 9);
        let first = disk.lookup(id, 0).map(|e| e.text);
        assert_eq!(first, if kept { Some("entry-0".to_string()) } else { None });
    }
    assert!(!disk.files.contains_key("history.0.jsonl"));
}
