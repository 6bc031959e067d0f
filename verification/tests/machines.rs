//! Single steps of the machines: the answers that go wrong, and the bounds.

use message_history::append::{
    locked_handle_matches_path, Append, AppendAction, AppendError, AppendEvent, FileIdentity,
    LockOutcome, LOCK_CONTENDED,
};
use message_history::lookup::{ActiveFile, Lookup, LookupAction, LookupEvent, SharedLock};
use message_history::metadata::{history_metadata, history_metadata_for_file};
use message_history::rotation::{Rotation, RotationAction, RotationEvent};
use message_history::segments::SegmentSet;
use message_history::{History, HistoryConfig};

type Step = (Append, AppendAction<&'static str>);

fn begin() -> Step {
    let config = HistoryConfig::new("home", &History::default());
    Append::start("text", "session".to_string(), &config)
}

fn answer(step: Step, event: AppendEvent<&'static str>) -> Step {
    assert!(step.0.expects(&event));
    step.0.step(event)
}

fn serialized() -> Step {
    let step = answer(begin(), AppendEvent::Done(Ok(())));
    let step = answer(step, AppendEvent::Clock(Ok(77)));
    answer(step, AppendEvent::Serialized(Ok("record".to_string())))
}

fn at_lock() -> Step {
    answer(serialized(), AppendEvent::Mode(Ok(Some(0o600))))
}

fn acquired(handle: FileIdentity, path: FileIdentity) -> AppendEvent<&'static str> {
    AppendEvent::LockTried(LockOutcome::Acquired { handle, path })
}

fn io_error(action: &AppendAction<&'static str>) -> Option<&'static str> {
    match action {
        AppendAction::Finish(Err(AppendError::Io(e))) => Some(e),
        _ => None,
    }
}

fn other_error(action: &AppendAction<&'static str>) -> Option<String> {
    match action {
        AppendAction::Finish(Err(AppendError::Other(message))) => Some(message.clone()),
        _ => None,
    }
}

#[test]
fn append_asks_in_order() {
    let step = begin();
    assert!(matches!(step.1, AppendAction::CreateDirectory));
    assert!(!step.0.expects(&AppendEvent::<&'static str>::Slept));
    let step = answer(step, AppendEvent::Done(Ok(())));
    assert!(matches!(step.1, AppendAction::ReadClock));
    let step = answer(step, AppendEvent::Clock(Ok(77)));
    match &step.1 {
        AppendAction::Serialize(entry) => {
            assert_eq!(entry.session_id, "session");
            assert_eq!(entry.ts, 77);
            assert_eq!(entry.text, "text");
            assert_eq!(entry.clone(), *entry);
        }
        _ => panic!("the entry is to be serialised"),
    }
    let step = answer(step, AppendEvent::Serialized(Ok("record".to_string())));
    assert!(matches!(step.1, AppendAction::ReadMode));
    let step = answer(step, AppendEvent::Mode(Ok(Some(0o100640))));
    assert!(matches!(step.1, AppendAction::SetMode { mode: 0o600 }));
    let step = answer(step, AppendEvent::Done(Ok(())));
    assert!(matches!(step.1, AppendAction::TryLock));
    let step = answer(step, acquired(FileIdentity::Known(4), FileIdentity::Known(4)));
    match &step.1 {
        AppendAction::WriteLine { line } => assert_eq!(line, "record\n"),
        _ => panic!("the line is to be written"),
    }
    let step = answer(step, AppendEvent::Done(Ok(())));
    assert!(matches!(step.1, AppendAction::Rotate { max_bytes: None }));
    let step = answer(step, AppendEvent::Done(Ok(())));
    assert!(matches!(step.1, AppendAction::Finish(Ok(()))));
    assert!(!step.0.expects(&AppendEvent::<&'static str>::Done(Ok(()))));
}

#[test]
fn permission_bits_are_left_alone_where_they_are_right_or_absent() {
    for mode in [Some(0o600), Some(0o100600), Some(0o104600), None] {
        let step = answer(serialized(), AppendEvent::Mode(Ok(mode)));
        assert!(matches!(step.1, AppendAction::TryLock));
    }
    for mode in [0o000, 0o400, 0o601, 0o644, 0o700, 0o777] {
        let step = answer(serialized(), AppendEvent::Mode(Ok(Some(mode))));
        assert!(matches!(step.1, AppendAction::SetMode { mode: 0o600 }));
    }
}

#[test]
fn append_reports_what_failed() {
    let step = answer(begin(), AppendEvent::Done(Err("mkdir")));
    assert_eq!(io_error(&step.1), Some("mkdir"));

    let step = answer(serialized(), AppendEvent::Mode(Err("open")));
    assert_eq!(io_error(&step.1), Some("open"));

    let step = answer(serialized(), AppendEvent::Mode(Ok(Some(0o644))));
    let step = answer(step, AppendEvent::Done(Err("chmod")));
    assert_eq!(io_error(&step.1), Some("chmod"));

    let step = answer(at_lock(), AppendEvent::LockTried(LockOutcome::Failed("lock")));
    assert_eq!(io_error(&step.1), Some("lock"));

    let write = || answer(at_lock(), acquired(FileIdentity::Known(4), FileIdentity::Known(4)));
    let step = answer(write(), AppendEvent::Done(Err("write")));
    assert_eq!(io_error(&step.1), Some("write"));

    let step = answer(write(), AppendEvent::Done(Ok(())));
    let step = answer(step, AppendEvent::Done(Err("rotate")));
    assert_eq!(io_error(&step.1), Some("rotate"));
}

#[test]
fn append_explains_clock_and_serialisation_errors() {
    let step = answer(begin(), AppendEvent::Done(Ok(())));
    let step = answer(step, AppendEvent::Clock(Err("too early".to_string())));
    assert_eq!(
        other_error(&step.1),
        Some("system clock before Unix epoch: too early".to_string())
    );

    let step = answer(begin(), AppendEvent::Done(Ok(())));
    let step = answer(step, AppendEvent::Clock(Ok(77)));
    let step = answer(step, AppendEvent::Serialized(Err("bad".to_string())));
    assert_eq!(
        other_error(&step.1),
        Some("failed to serialise history entry: bad".to_string())
    );
    assert_eq!(
        LOCK_CONTENDED,
        "could not acquire exclusive lock on history file after multiple attempts"
    );
}

#[test]
fn handles_are_compared_by_identity() {
    let known = FileIdentity::Known;
    assert!(locked_handle_matches_path(known(1), known(1)));
    assert!(!locked_handle_matches_path(known(1), known(2)));
    assert!(!locked_handle_matches_path(FileIdentity::Unreadable, known(1)));
    assert!(!locked_handle_matches_path(known(1), FileIdentity::Missing));
    assert!(!locked_handle_matches_path(FileIdentity::Unsupported, FileIdentity::Missing));
    assert!(!locked_handle_matches_path(known(1), FileIdentity::Unreadable));
    assert!(!locked_handle_matches_path(FileIdentity::Unsupported, FileIdentity::Unreadable));
    assert!(locked_handle_matches_path(FileIdentity::Unsupported, FileIdentity::Unsupported));
    assert!(locked_handle_matches_path(FileIdentity::Unsupported, known(1)));
}

#[test]
fn active_file_is_rotated_from_a_quarter_of_the_cap_on() {
    for (cap, len, rotates) in [
        (100, 24, false),
        (100, 25, true),
        (103, 25, true),
        (3, 0, false),
        (3, 1, true),
        (0, 0, false),
        (0, 1, true),
    ] {
        let (rotation, action) = Rotation::start::<()>(Some(cap));
        assert!(matches!(action, RotationAction::MeasureActive));
        let (_, action) = rotation.step(RotationEvent::<()>::ActiveMeasured(Ok(len)));
        assert_eq!(matches!(action, RotationAction::ListDirectory), rotates);
        assert_eq!(matches!(action, RotationAction::Finish(Ok(()))), !rotates);
    }
}

#[test]
fn rotation_without_a_cap_does_nothing() {
    let (rotation, action) = Rotation::start::<()>(None);
    assert!(matches!(action, RotationAction::Finish(Ok(()))));
    assert!(!rotation.expects(&RotationEvent::<()>::ActiveMeasured(Ok(1))));
}

#[test]
fn rotation_reports_what_failed() {
    let (rotation, _) = Rotation::start::<&'static str>(Some(8));
    let (_, action) = rotation.step(RotationEvent::ActiveMeasured(Err("stat")));
    assert!(matches!(action, RotationAction::Finish(Err("stat"))));

    let (rotation, _) = Rotation::start::<&'static str>(Some(8));
    let (rotation, _) = rotation.step(RotationEvent::<&'static str>::ActiveMeasured(Ok(9)));
    let (rotation, action) = rotation.step(RotationEvent::<&'static str>::Listed(None));
    match action {
        RotationAction::RenameActive { file_name } => assert_eq!(file_name, "history.0.jsonl"),
        _ => panic!("the active file is to be renamed"),
    }
    let (_, action) = rotation.step(RotationEvent::Renamed(Err("rename")));
    assert!(matches!(action, RotationAction::Finish(Err("rename"))));
}

#[test]
fn deletion_stops_once_the_rest_fits() {
    let (rotation, _) = Rotation::start::<()>(Some(100));
    let (rotation, _) = rotation.step(RotationEvent::<()>::ActiveMeasured(Ok(30)));
    let names = || Some(vec!["history.3.jsonl".to_string(), "history.0.jsonl".to_string()]);
    let (rotation, action) = rotation.step(RotationEvent::<()>::Listed(names()));
    match action {
        RotationAction::CountLines { file_name } => assert_eq!(file_name, "history.3.jsonl"),
        _ => panic!("the newest segment is to be counted"),
    }
    let (rotation, action) = rotation.step(RotationEvent::<()>::Counted(4));
    match action {
        RotationAction::RenameActive { file_name } => assert_eq!(file_name, "history.7.jsonl"),
        _ => panic!("the active file is to be renamed"),
    }
    let (rotation, action) = rotation.step(RotationEvent::<()>::Renamed(Ok(())));
    assert!(matches!(action, RotationAction::ListDirectory));
    let mut all = names();
    all.as_mut().unwrap().push("history.7.jsonl".to_string());
    let (rotation, action) = rotation.step(RotationEvent::<()>::Listed(all));
    match action {
        RotationAction::MeasureSegments { file_names } => assert_eq!(
            file_names,
            vec!["history.0.jsonl", "history.3.jsonl", "history.7.jsonl"]
        ),
        _ => panic!("the segments are to be measured"),
    }
    let sizes = vec![Some(50), Some(60), Some(30)];
    let (rotation, action) = rotation.step(RotationEvent::<()>::SegmentsMeasured(sizes));
    match action {
        RotationAction::DeleteSegment { file_name } => assert_eq!(file_name, "history.0.jsonl"),
        _ => panic!("the oldest segment is to be deleted"),
    }
    let (_, action) = rotation.step(RotationEvent::<()>::Deleted { len: 50, removed: true });
    assert!(matches!(action, RotationAction::Finish(Ok(()))));
}

#[test]
fn lookup_gives_up_on_a_failed_lock() {
    let (lookup, action) = Lookup::start(0, 3);
    assert!(matches!(action, LookupAction::ListDirectory));
    let (lookup, action) = lookup.step(LookupEvent::Listed(None));
    assert!(matches!(action, LookupAction::OpenActive));
    let (lookup, action) = lookup.step(LookupEvent::ActiveOpened(ActiveFile::Open { id: None }));
    assert!(matches!(action, LookupAction::TryLockShared));
    assert!(!lookup.expects(&LookupEvent::Slept));
    let (_, action) = lookup.step(LookupEvent::LockTried(SharedLock::Failed));
    assert!(matches!(action, LookupAction::NotFound));
}

#[test]
fn lookup_takes_an_unidentified_active_file_for_the_callers() {
    let (lookup, _) = Lookup::start(12, 3);
    let (lookup, _) = lookup.step(LookupEvent::Listed(None));
    let (lookup, _) = lookup.step(LookupEvent::ActiveOpened(ActiveFile::Open { id: None }));
    let (_, action) = lookup.step(LookupEvent::LockTried(SharedLock::Acquired));
    assert!(matches!(action, LookupAction::ReadActive { local: 3 }));
}

#[test]
fn lookup_passes_over_segments_it_cannot_identify() {
    let (lookup, _) = Lookup::start(12, 3);
    let names = vec!["history.0.jsonl".to_string(), "history.5.jsonl".to_string()];
    let (lookup, _) = lookup.step(LookupEvent::Listed(Some(names)));
    let (lookup, action) = lookup.step(LookupEvent::ActiveOpened(ActiveFile::Open { id: Some(1) }));
    assert!(matches!(action, LookupAction::Identify { .. }));
    let (lookup, action) = lookup.step(LookupEvent::Identified(None));
    match action {
        LookupAction::Identify { file_name } => assert_eq!(file_name, "history.5.jsonl"),
        _ => panic!("the next segment is to be identified"),
    }
    let (_, action) = lookup.step(LookupEvent::Identified(Some(12)));
    match action {
        LookupAction::ReadSegment { file_name, local } => {
            assert_eq!(file_name, "history.5.jsonl");
            assert_eq!(local, 3);
        }
        _ => panic!("the segment is to be read"),
    }
}

#[test]
fn metadata_reports_what_is_known() {
    assert_eq!(history_metadata_for_file(FileIdentity::Missing, None), (0, 0));
    assert_eq!(history_metadata_for_file(FileIdentity::Unreadable, Some(3)), (0, 0));
    assert_eq!(history_metadata_for_file(FileIdentity::Unsupported, Some(3)), (0, 3));
    assert_eq!(history_metadata_for_file(FileIdentity::Known(9), Some(3)), (9, 3));
    assert_eq!(history_metadata_for_file(FileIdentity::Known(9), None), (9, 0));
    let none = SegmentSet::scan(None);
    let some = SegmentSet::scan(Some(vec!["history.4.jsonl".to_string()]));
    let known = FileIdentity::Known(9);
    assert_eq!(history_metadata(known, Some(3), &none, 0), (9, 3));
    assert_eq!(history_metadata(known, Some(3), &some, 0), (9, 7));
    assert_eq!(history_metadata(known, Some(3), &some, 10), (9, 17));
    assert_eq!(history_metadata(known, Some(0), &some, 10), (9, 14));
    assert_eq!(history_metadata(known, Some(3), &some, u64::MAX), (9, usize::MAX));
    assert_eq!(history_metadata(known, Some(usize::MAX), &some, 1), (9, usize::MAX));
    assert_eq!(history_metadata(FileIdentity::Unsupported, Some(3), &some, 0), (0, 7));
}

#[test]
fn metadata_of_a_file_that_cannot_be_read() {
    let some = SegmentSet::scan(Some(vec!["history.4.jsonl".to_string()]));
    // The file is there but cannot be opened or scanned.
    assert_eq!(history_metadata(FileIdentity::Known(9), None, &some, 10), (9, 0));
    assert_eq!(history_metadata(FileIdentity::Unsupported, None, &some, 10), (0, 0));
    // Its metadata cannot be read.
    assert_eq!(history_metadata(FileIdentity::Unreadable, None, &some, 10), (0, 0));
    // It is missing: the segments are all there is.
    assert_eq!(history_metadata(FileIdentity::Missing, None, &some, 10), (0, 14));
    assert_eq!(history_metadata(FileIdentity::Missing, None, &SegmentSet::scan(None), 0), (0, 0));
}
