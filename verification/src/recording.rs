//! What an append does to the history, from the first question to the last
//! answer, and what can be read back of it.

use vstd::prelude::*;
use vstd::utf8::encode_utf8;

use crate::append::{
    append_begins, append_expects, append_next, AppendEvent, AppendFailure, AppendRequest,
    AppendState, LockOutcome, MAX_RETRIES,
};
use crate::config::HistoryPersistence;
use crate::directory::{keeps_foreign, represents, Directory};
use crate::entry::EntryView;
use crate::lines::{
    law_read_line_needs_no_more, lemma_terminated_prefix, lines, read_line, terminated,
    unterminated,
};
use crate::log::{
    bytes_of, is_clean, is_one_line, law_append, lemma_line_added, Log, LogSegment, StoredFile,
};
use crate::lookup::is_global;
use crate::maintenance::{
    is_rotation_run, keeps_from, law_maintenance_keeps_entries, law_prune_count,
    law_retained_bytes_bounded, law_rotation_maintains, maintained, prune_count, within_cap,
    RotationMoment,
};
use crate::retrieval::{
    active_in, found, gave_up, is_lookup_run, law_lookup_finds_entry, lemma_no_such_file,
    line_of_file, meant, LookupMoment,
};
use crate::rotation::rotate_threshold;
use crate::segments::segment_start;

verus! {

/// Whether `after` is the directory that opening the active file leaves, which
/// creates the file where it is missing.
pub open spec fn opened(dir: Directory, after: Directory) -> bool {
    &&& after.others == dir.others
    &&& match dir.active {
        Some(_) => after.active == dir.active,
        None => after.active is Some && after.active->0.bytes.len() == 0,
    }
}

/// Whether a rotation with this cap, if there is one, leads from `dir` to
/// `after`.
pub open spec fn rotation_leads<E>(
    max_bytes: Option<usize>,
    dir: Directory,
    after: Directory,
) -> bool {
    match max_bytes {
        None => after == dir,
        Some(cap) => exists|run: Seq<RotationMoment<E>>|
            {
                &&& #[trigger] is_rotation_run(cap as u64, run)
                &&& run[0].dir == dir
                &&& run.last().state is Finished
                &&& run.last().dir == after
            },
    }
}

/// Whether `event` is a true answer to `request` in the directory `dir`, and
/// `after` is the directory that performing the request leaves, when the clock
/// shows `ts` and `json` is how entries are written down: the lock may be taken
/// by another process, or held on a file that is no longer the active one, but
/// every other request succeeds, and nobody else touches the files.
pub open spec fn append_answered<E>(
    ts: u64,
    json: spec_fn(EntryView) -> Seq<char>,
    dir: Directory,
    request: AppendRequest<E>,
    event: AppendEvent<E>,
    after: Directory,
) -> bool {
    match (request, event) {
        (AppendRequest::CreateDirectory, AppendEvent::Done(Ok(_))) => after == dir,
        (AppendRequest::ReadClock, AppendEvent::Clock(Ok(now))) => {
            &&& after == dir
            &&& now == ts
        },
        (AppendRequest::Serialize(asked), AppendEvent::Serialized(Ok(record))) => {
            &&& after == dir
            &&& record@ == json(asked)
        },
        (AppendRequest::ReadMode, AppendEvent::Mode(Ok(_))) => opened(dir, after),
        (AppendRequest::SetMode { .. }, AppendEvent::Done(Ok(_))) => after == dir,
        (AppendRequest::TryLock, AppendEvent::LockTried(outcome)) => {
            &&& opened(dir, after)
            &&& !(outcome is Failed)
        },
        (AppendRequest::Sleep { .. }, AppendEvent::Slept) => after == dir,
        (AppendRequest::WriteLine { line }, AppendEvent::Done(Ok(_))) => {
            &&& dir.active is Some
            &&& after.others == dir.others
            &&& after.active == Some(
                StoredFile {
                    id: dir.active->0.id,
                    bytes: dir.active->0.bytes + encode_utf8(line),
                },
            )
        },
        (AppendRequest::Rotate { max_bytes }, AppendEvent::Done(Ok(_))) => rotation_leads::<E>(
            max_bytes,
            dir,
            after,
        ),
        _ => false,
    }
}

/// A point of an append: where it stands, what it asks for, and the directory
/// at that time.
pub struct AppendMoment<E> {
    pub state: AppendState,
    pub request: AppendRequest<E>,
    pub dir: Directory,
}

/// Whether one question and its answer lead from `before` to `after`.
pub open spec fn append_exchange<E>(
    ts: u64,
    json: spec_fn(EntryView) -> Seq<char>,
    max_bytes: Option<usize>,
    before: AppendMoment<E>,
    after: AppendMoment<E>,
) -> bool {
    exists|event: AppendEvent<E>|
        {
            &&& #[trigger] append_expects(before.state, event)
            &&& append_answered(ts, json, before.dir, before.request, event, after.dir)
            &&& (after.state, after.request) == append_next(max_bytes, before.state, event)
        }
}

/// Whether `run` is an append of `entry` in the making, from its first question
/// on.
pub open spec fn is_append_run<E>(
    entry: EntryView,
    json: spec_fn(EntryView) -> Seq<char>,
    max_bytes: Option<usize>,
    run: Seq<AppendMoment<E>>,
) -> bool {
    &&& run.len() > 0
    &&& (run[0].state, run[0].request) == append_begins::<E>(
        HistoryPersistence::SaveAll,
        entry.session_id,
        entry.text,
    )
    &&& forall|i: int, j: int|
        #![trigger run[i], run[j]]
        0 <= i && j == i + 1 && j < run.len() ==> append_exchange(
            entry.ts,
            json,
            max_bytes,
            run[i],
            run[j],
        )
}

/// The history after rotation with this cap, if there is one.
pub open spec fn capped(log: Log, max_bytes: Option<usize>) -> Log {
    match max_bytes {
        Some(cap) => maintained(log, cap as u64),
        None => log,
    }
}

/// Whether the directory holds `log` with nothing recorded since; the active
/// file may have been created, but is empty then.
pub open spec fn untouched(dir: Directory, log: Log) -> bool {
    ||| represents(dir, log)
    ||| {
        &&& log.active is None
        &&& dir.active is Some
        &&& dir.active->0.bytes.len() == 0
        &&& represents(dir, Log { active: dir.active, ..log })
    }
}

/// Whether the numbers fit once `record` is appended: the indices, and the
/// sizes of the files together.
pub open spec fn has_room(log: Log, record: Seq<char>) -> bool {
    let line = encode_utf8(record.push('\n'));
    &&& log.start() + lines(log.active_bytes() + line).len() <= u64::MAX
    &&& log.rotated_bytes() + log.active_bytes().len() + line.len() <= u64::MAX
}

/// Whether the directory holds `log` with `record` appended and the cap
/// enforced.
pub open spec fn recorded(
    dir: Directory,
    log: Log,
    record: Seq<char>,
    max_bytes: Option<usize>,
) -> bool {
    exists|id: u64| represents(dir, capped(#[trigger] log.appended(record, id), max_bytes))
}

/// What is true `i` exchanges into the append.
spec fn append_stands<E>(
    log: Log,
    entry: EntryView,
    record: Seq<char>,
    max_bytes: Option<usize>,
    i: int,
    moment: AppendMoment<E>,
) -> bool {
    let own_line = record.push('\n');
    match moment.state {
        AppendState::CreatingDirectory { session_id, text } => {
            &&& i == 0
            &&& session_id == entry.session_id
            &&& text == entry.text
            &&& moment.request == AppendRequest::<E>::CreateDirectory
            &&& untouched(moment.dir, log)
        },
        AppendState::ReadingClock { session_id, text } => {
            &&& i == 1
            &&& session_id == entry.session_id
            &&& text == entry.text
            &&& moment.request == AppendRequest::<E>::ReadClock
            &&& untouched(moment.dir, log)
        },
        AppendState::Serializing => {
            &&& i == 2
            &&& moment.request == AppendRequest::<E>::Serialize(entry)
            &&& untouched(moment.dir, log)
        },
        AppendState::ReadingMode { line } => {
            &&& i == 3
            &&& line == own_line
            &&& moment.request == AppendRequest::<E>::ReadMode
            &&& untouched(moment.dir, log)
        },
        AppendState::SettingMode { line } => {
            &&& i == 4
            &&& line == own_line
            &&& moment.request is SetMode
            &&& untouched(moment.dir, log)
        },
        AppendState::Locking { line, attempts } => {
            &&& i <= 5 + 2 * attempts
            &&& attempts < MAX_RETRIES
            &&& line == own_line
            &&& moment.request == AppendRequest::<E>::TryLock
            &&& untouched(moment.dir, log)
        },
        AppendState::Sleeping { line, attempts } => {
            &&& i <= 4 + 2 * attempts
            &&& attempts <= MAX_RETRIES
            &&& line == own_line
            &&& moment.request is Sleep
            &&& untouched(moment.dir, log)
        },
        AppendState::Writing => {
            &&& i <= 4 + 2 * MAX_RETRIES
            &&& moment.request == (AppendRequest::<E>::WriteLine { line: own_line })
            &&& moment.dir.active is Some
            &&& untouched(moment.dir, log)
        },
        AppendState::Rotating => {
            &&& i <= 5 + 2 * MAX_RETRIES
            &&& moment.request == (AppendRequest::<E>::Rotate { max_bytes })
            &&& recorded(moment.dir, log, record, None)
        },
        AppendState::Finished => {
            &&& i <= 6 + 2 * MAX_RETRIES
            &&& {
                ||| {
                    &&& moment.request == AppendRequest::<E>::Finish(Ok(()))
                    &&& recorded(moment.dir, log, record, max_bytes)
                }
                ||| {
                    &&& moment.request == AppendRequest::<E>::Finish(
                        Err(AppendFailure::LockContended),
                    )
                    &&& untouched(moment.dir, log)
                }
            }
        },
    }
}

/// Only the active file differs, in the directory and in the history alike.
proof fn lemma_active_changed(dir: Directory, log: Log, after: Directory, changed: Log)
    requires
        represents(dir, log),
        after.others == dir.others,
        changed.segments == log.segments,
        after.active == changed.active,
    ensures
        represents(after, changed),
{
    assert forall|name: Seq<char>| #[trigger]
        after.others.dom().contains(name) && segment_start(name) is Some implies exists|i: int|
        0 <= i < changed.segments.len() && (#[trigger] changed.segments[i]).file_name == name by {
        assert(dir.others.dom().contains(name));
    }
}

proof fn lemma_opened(log: Log, dir: Directory, after: Directory)
    requires
        untouched(dir, log),
        opened(dir, after),
    ensures
        untouched(after, log),
        after.active is Some,
{
    let held = Log { active: dir.active, ..log };
    assert(represents(dir, held));
    lemma_active_changed(dir, held, after, Log { active: after.active, ..log });
}

proof fn lemma_written(log: Log, record: Seq<char>, dir: Directory, after: Directory)
    requires
        untouched(dir, log),
        dir.active is Some,
        after.others == dir.others,
        after.active == Some(
            StoredFile {
                id: dir.active->0.id,
                bytes: dir.active->0.bytes + encode_utf8(record.push('\n')),
            },
        ),
    ensures
        recorded(after, log, record, None),
{
    let id = dir.active->0.id;
    let grown = log.appended(record, id);
    assert(dir.active->0.bytes =~= log.active_bytes());
    let held = Log { active: dir.active, ..log };
    assert(represents(dir, held));
    lemma_active_changed(dir, held, after, grown);
    assert(represents(after, capped(grown, None)));
}

proof fn lemma_rotated_size(log: Log, record: Seq<char>, id: u64)
    ensures
        log.appended(record, id).rotated().rotated_bytes() == log.rotated_bytes()
            + log.active_bytes().len() + encode_utf8(record.push('\n')).len(),
{
    let rotated = log.appended(record, id).rotated();
    assert(rotated.segments.drop_last() =~= log.segments);
}

proof fn lemma_appended_valid(log: Log, record: Seq<char>, id: u64)
    requires
        log.is_valid(),
        has_room(log, record),
    ensures
        log.appended(record, id).is_valid(),
{
    let grown = log.appended(record, id);
    assert(grown.segments == log.segments);
    assert(grown.start() == log.start());
}

proof fn lemma_rotated_away<E>(
    log: Log,
    record: Seq<char>,
    max_bytes: Option<usize>,
    dir: Directory,
    after: Directory,
)
    requires
        log.is_valid(),
        has_room(log, record),
        recorded(dir, log, record, None),
        rotation_leads::<E>(max_bytes, dir, after),
    ensures
        recorded(after, log, record, max_bytes),
        keeps_foreign(dir, after),
{
    let id = choose|id: u64| represents(dir, capped(#[trigger] log.appended(record, id), None));
    let grown = log.appended(record, id);
    match max_bytes {
        None => {},
        Some(cap) => {
            let run = choose|run: Seq<RotationMoment<E>>|
                {
                    &&& #[trigger] is_rotation_run(cap as u64, run)
                    &&& run[0].dir == dir
                    &&& run.last().state is Finished
                    &&& run.last().dir == after
                };
            lemma_appended_valid(log, record, id);
            lemma_rotated_size(log, record, id);
            law_rotation_maintains(cap as u64, grown, run);
            assert(represents(after, capped(grown, max_bytes)));
        },
    }
}

proof fn lemma_append_step<E>(
    log: Log,
    entry: EntryView,
    json: spec_fn(EntryView) -> Seq<char>,
    max_bytes: Option<usize>,
    i: int,
    before: AppendMoment<E>,
    after: AppendMoment<E>,
)
    requires
        log.is_valid(),
        has_room(log, json(entry)),
        append_stands(log, entry, json(entry), max_bytes, i, before),
        append_exchange(entry.ts, json, max_bytes, before, after),
    ensures
        append_stands(log, entry, json(entry), max_bytes, i + 1, after),
        keeps_foreign(before.dir, after.dir),
{
    let ts = entry.ts;
    let record = json(entry);
    let event = choose|event: AppendEvent<E>|
        {
            &&& #[trigger] append_expects(before.state, event)
            &&& append_answered(ts, json, before.dir, before.request, event, after.dir)
            &&& (after.state, after.request) == append_next(max_bytes, before.state, event)
        };
    match before.state {
        AppendState::ReadingClock { session_id, text } => {
            assert(entry == EntryView { session_id, ts, text });
        },
        AppendState::ReadingMode { .. } => {
            lemma_opened(log, before.dir, after.dir);
        },
        AppendState::Locking { .. } => {
            lemma_opened(log, before.dir, after.dir);
        },
        AppendState::Writing => {
            lemma_written(log, record, before.dir, after.dir);
        },
        AppendState::Rotating => {
            lemma_rotated_away::<E>(log, record, max_bytes, before.dir, after.dir);
        },
        _ => {},
    }
}

proof fn lemma_append_stands<E>(
    log: Log,
    entry: EntryView,
    json: spec_fn(EntryView) -> Seq<char>,
    max_bytes: Option<usize>,
    run: Seq<AppendMoment<E>>,
    i: int,
)
    requires
        log.is_valid(),
        has_room(log, json(entry)),
        is_append_run(entry, json, max_bytes, run),
        represents(run[0].dir, log),
        0 <= i < run.len(),
    ensures
        append_stands(log, entry, json(entry), max_bytes, i, run[i]),
        keeps_foreign(run[0].dir, run[i].dir),
    decreases i,
{
    if i > 0 {
        lemma_append_stands(log, entry, json, max_bytes, run, i - 1);
        assert(append_exchange(entry.ts, json, max_bytes, run[i - 1], run[i]));
        lemma_append_step(log, entry, json, max_bytes, i - 1, run[i - 1], run[i]);
    }
}

/// An append asks a bounded number of questions. It ends well, with the JSON of
/// the entry, which has the caller's session and text and the time of the clock,
/// in the history and the cap enforced; or the lock stayed out of reach, and
/// then it reports so and nothing was recorded. It touches no file that is none
/// of the history's.
pub proof fn law_append_records<E>(
    log: Log,
    entry: EntryView,
    json: spec_fn(EntryView) -> Seq<char>,
    max_bytes: Option<usize>,
    run: Seq<AppendMoment<E>>,
)
    requires
        log.is_valid(),
        has_room(log, json(entry)),
        is_append_run(entry, json, max_bytes, run),
        represents(run[0].dir, log),
    ensures
        run.len() <= 2 * MAX_RETRIES + 7,
        keeps_foreign(run[0].dir, run.last().dir),
        run.last().state is Finished ==> {
            ||| {
                &&& run.last().request == AppendRequest::<E>::Finish(Ok(()))
                &&& recorded(run.last().dir, log, json(entry), max_bytes)
            }
            ||| {
                &&& run.last().request == AppendRequest::<E>::Finish(
                    Err(AppendFailure::LockContended),
                )
                &&& untouched(run.last().dir, log)
            }
        },
{
    lemma_append_stands(log, entry, json, max_bytes, run, run.len() - 1);
}

/// Whether `run` is an append of `entry` in the making that got these answers.
pub open spec fn is_answered_append<E>(
    entry: EntryView,
    json: spec_fn(EntryView) -> Seq<char>,
    max_bytes: Option<usize>,
    run: Seq<AppendMoment<E>>,
    events: Seq<AppendEvent<E>>,
) -> bool {
    &&& run.len() == events.len() + 1
    &&& (run[0].state, run[0].request) == append_begins::<E>(
        HistoryPersistence::SaveAll,
        entry.session_id,
        entry.text,
    )
    &&& forall|i: int|
        0 <= i < events.len() ==> {
            &&& append_expects(run[i].state, #[trigger] events[i])
            &&& append_answered(
                entry.ts,
                json,
                run[i].dir,
                run[i].request,
                events[i],
                run[i + 1].dir,
            )
            &&& (run[i + 1].state, run[i + 1].request) == append_next(
                max_bytes,
                run[i].state,
                events[i],
            )
        }
}

/// What came of the tries of the lock.
pub open spec fn lock_tries<E>(events: Seq<AppendEvent<E>>) -> Seq<LockOutcome<E>>
    decreases events.len(),
{
    if events.len() == 0 {
        Seq::empty()
    } else {
        match events.last() {
            AppendEvent::LockTried(outcome) => lock_tries(events.drop_last()).push(outcome),
            _ => lock_tries(events.drop_last()),
        }
    }
}

proof fn lemma_answered_is_append_run<E>(
    entry: EntryView,
    json: spec_fn(EntryView) -> Seq<char>,
    max_bytes: Option<usize>,
    run: Seq<AppendMoment<E>>,
    events: Seq<AppendEvent<E>>,
)
    requires
        is_answered_append(entry, json, max_bytes, run, events),
    ensures
        is_append_run(entry, json, max_bytes, run),
{
    assert forall|i: int, j: int|
        #![trigger run[i], run[j]]
        0 <= i && j == i + 1 && j < run.len() implies append_exchange(
        entry.ts,
        json,
        max_bytes,
        run[i],
        run[j],
    ) by {
        assert(append_expects(run[i].state, events[i]));
    }
}

/// Whether no try was one that has the line written: the lock was taken, or held
/// on another file than the path names.
pub open spec fn all_missed<E>(tries: Seq<LockOutcome<E>>) -> bool {
    forall|i: int|
        0 <= i < tries.len() ==> match #[trigger] tries[i] {
            LockOutcome::WouldBlock => true,
            LockOutcome::Acquired { handle, path } => {
                ||| handle != path && !(handle is Unsupported) && !(path is Unsupported)
                ||| handle is Missing || handle is Unreadable
                ||| path is Missing || path is Unreadable
            },
            LockOutcome::Failed(_) => false,
        }
}

proof fn lemma_append_tries<E>(
    entry: EntryView,
    json: spec_fn(EntryView) -> Seq<char>,
    max_bytes: Option<usize>,
    run: Seq<AppendMoment<E>>,
    events: Seq<AppendEvent<E>>,
    i: int,
)
    requires
        is_answered_append(entry, json, max_bytes, run, events),
        0 <= i < run.len(),
    ensures
        match run[i].state {
            AppendState::CreatingDirectory { .. } => lock_tries(events.take(i)).len() == 0,
            AppendState::ReadingClock { .. } => lock_tries(events.take(i)).len() == 0,
            AppendState::Serializing => lock_tries(events.take(i)).len() == 0,
            AppendState::ReadingMode { .. } => lock_tries(events.take(i)).len() == 0,
            AppendState::SettingMode { .. } => lock_tries(events.take(i)).len() == 0,
            AppendState::Locking { attempts, .. } => {
                &&& lock_tries(events.take(i)).len() == attempts
                &&& attempts < MAX_RETRIES
                &&& all_missed(lock_tries(events.take(i)))
            },
            AppendState::Sleeping { attempts, .. } => {
                &&& lock_tries(events.take(i)).len() == attempts
                &&& attempts <= MAX_RETRIES
                &&& all_missed(lock_tries(events.take(i)))
            },
            AppendState::Finished => run[i].request == AppendRequest::<E>::Finish(
                Err(AppendFailure::LockContended),
            ) ==> {
                &&& lock_tries(events.take(i)).len() == MAX_RETRIES
                &&& all_missed(lock_tries(events.take(i)))
            },
            _ => true,
        },
    decreases i,
{
    if i > 0 {
        let k = i - 1;
        lemma_append_tries(entry, json, max_bytes, run, events, k);
        assert(append_expects(run[k].state, events[k]));
        assert(events.take(i).drop_last() =~= events.take(k));
        assert(events.take(i).last() == events[k]);
    }
}

proof fn lemma_lock_try_is_among<E>(events: Seq<AppendEvent<E>>, t: int)
    requires
        0 <= t < events.len(),
        events[t] is LockTried,
    ensures
        exists|i: int|
            0 <= i < lock_tries(events).len() && #[trigger] lock_tries(events)[i]
                == events[t]->LockTried_0,
    decreases events.len(),
{
    let front = events.drop_last();
    if t < events.len() - 1 {
        lemma_lock_try_is_among(front, t);
        let i = choose|i: int|
            0 <= i < lock_tries(front).len() && #[trigger] lock_tries(front)[i]
                == events[t]->LockTried_0;
        assert(lock_tries(events)[i] == events[t]->LockTried_0);
    } else {
        assert(lock_tries(events)[lock_tries(front).len() as int] == events[t]->LockTried_0);
    }
}

/// An append fails for the lock only where it had its full number of tries, each
/// of which found the lock taken or held on another file. Where the answers are
/// true it fails for nothing else: for every session, text and time, and every
/// record, it ends well with the record in the history as soon as one try wins the
/// lock on the current file.
pub proof fn law_append_fails_only_on_a_taken_lock<E>(
    log: Log,
    entry: EntryView,
    json: spec_fn(EntryView) -> Seq<char>,
    max_bytes: Option<usize>,
    run: Seq<AppendMoment<E>>,
    events: Seq<AppendEvent<E>>,
)
    requires
        log.is_valid(),
        has_room(log, json(entry)),
        represents(run[0].dir, log),
        is_answered_append(entry, json, max_bytes, run, events),
        run.last().state is Finished,
    ensures
        !(run.last().request == AppendRequest::<E>::Finish(Ok(()))) ==> {
            &&& run.last().request == AppendRequest::<E>::Finish(Err(AppendFailure::LockContended))
            &&& lock_tries(events).len() == MAX_RETRIES
            &&& all_missed(lock_tries(events))
            &&& untouched(run.last().dir, log)
        },
        (exists|t: int|
            0 <= t < events.len() && match #[trigger] events[t] {
                AppendEvent::LockTried(LockOutcome::Acquired { handle, path }) => {
                    &&& handle == path
                    &&& handle is Known || handle is Unsupported
                },
                _ => false,
            }) ==> {
            &&& run.last().request == AppendRequest::<E>::Finish(Ok(()))
            &&& recorded(run.last().dir, log, json(entry), max_bytes)
        },
{
    lemma_answered_is_append_run(entry, json, max_bytes, run, events);
    law_append_records(log, entry, json, max_bytes, run);
    lemma_append_tries(entry, json, max_bytes, run, events, run.len() - 1);
    assert(events.take(run.len() - 1) =~= events);
    if exists|t: int|
        0 <= t < events.len() && match #[trigger] events[t] {
            AppendEvent::LockTried(LockOutcome::Acquired { handle, path }) => {
                &&& handle == path
                &&& handle is Known || handle is Unsupported
            },
            _ => false,
        } {
        let t = choose|t: int|
            0 <= t < events.len() && match #[trigger] events[t] {
                AppendEvent::LockTried(LockOutcome::Acquired { handle, path }) => {
                    &&& handle == path
                    &&& handle is Known || handle is Unsupported
                },
                _ => false,
            };
        lemma_lock_try_is_among(events, t);
    }
}

/// An append never gets stuck: it takes every true answer to its question, and
/// goes on from there.
pub proof fn law_append_goes_on<E>(
    log: Log,
    entry: EntryView,
    json: spec_fn(EntryView) -> Seq<char>,
    max_bytes: Option<usize>,
    run: Seq<AppendMoment<E>>,
    event: AppendEvent<E>,
    after: Directory,
)
    requires
        log.is_valid(),
        has_room(log, json(entry)),
        is_append_run(entry, json, max_bytes, run),
        represents(run[0].dir, log),
        append_answered(entry.ts, json, run.last().dir, run.last().request, event, after),
    ensures
        append_expects(run.last().state, event),
        !(run.last().state is Finished),
        ({
            let (state, request) = append_next(max_bytes, run.last().state, event);
            is_append_run(
                entry,
                json,
                max_bytes,
                run.push(AppendMoment { state, request, dir: after }),
            )
        }),
{
    lemma_append_stands(log, entry, json, max_bytes, run, run.len() - 1);
    let (state, request) = append_next(max_bytes, run.last().state, event);
    let next = AppendMoment { state, request, dir: after };
    let longer = run.push(next);
    assert(append_expects(run.last().state, event));
    assert(append_exchange(entry.ts, json, max_bytes, run.last(), next));
    assert forall|i: int, j: int|
        #![trigger longer[i], longer[j]]
        0 <= i && j == i + 1 && j < longer.len() implies append_exchange(
        entry.ts,
        json,
        max_bytes,
        longer[i],
        longer[j],
    ) by {
        if j < run.len() {
            assert(append_exchange(entry.ts, json, max_bytes, run[i], run[j]));
        }
    }
}

/// With recording turned off, whatever the session and the text, nothing is ever
/// asked for: what there is of an append is its successful end, and the directory
/// is as it was.
pub proof fn law_disabled_history_is_left_alone<E>(
    session_id: Seq<char>,
    text: Seq<char>,
    ts: u64,
    json: spec_fn(EntryView) -> Seq<char>,
    max_bytes: Option<usize>,
    run: Seq<AppendMoment<E>>,
)
    requires
        run.len() > 0,
        (run[0].state, run[0].request) == append_begins::<E>(
            HistoryPersistence::Disabled,
            session_id,
            text,
        ),
        forall|i: int, j: int|
            #![trigger run[i], run[j]]
            0 <= i && j == i + 1 && j < run.len() ==> append_exchange(
                ts,
                json,
                max_bytes,
                run[i],
                run[j],
            ),
    ensures
        run.len() == 1,
        run[0].request == AppendRequest::<E>::Finish(Ok(())),
        run.last().dir == run[0].dir,
{
    if run.len() > 1 {
        assert(append_exchange(ts, json, max_bytes, run[0], run[1]));
    }
}

/// The entry appended last has the last index, whatever the cap, and reads as
/// the record where the file that it was appended to is clean; the history stays
/// fit for the next append, and of the older entries only the oldest can be gone.
pub proof fn law_newest_entry_is_retained(
    log: Log,
    record: Seq<char>,
    id: u64,
    max_bytes: Option<usize>,
)
    requires
        log.is_valid(),
        unterminated(log.active_bytes()).len() == 0,
        !record.contains('\n'),
        log.total() < u64::MAX,
    ensures
        ({
            let grown = log.appended(record, id);
            let after = capped(grown, max_bytes);
            &&& after.is_valid()
            &&& unterminated(after.active_bytes()).len() == 0
            &&& after.total() == log.total() + 1
            &&& after.entry(log.total()) == grown.entry(log.total())
            &&& exists|first: nat|
                #[trigger] keeps_from(grown, after, first) && first <= log.total()
            &&& is_clean(log.active_bytes()) ==> is_clean(after.active_bytes())
            &&& is_clean(log.active_bytes()) && is_one_line(record) ==> after.entry(log.total())
                == Some(record)
        }),
{
    let grown = log.appended(record, id);
    law_append(log, record, id);
    match max_bytes {
        None => {
            assert(keeps_from(grown, grown, 0));
        },
        Some(cap) => {
            law_maintenance_keeps_entries(grown, cap as u64);
        },
    }
}

/// The history that appending `records` one after another makes of `log`; `ids`
/// are the identifiers that files created on the way would get.
pub open spec fn continued(
    log: Log,
    records: Seq<Seq<char>>,
    ids: Seq<u64>,
    max_bytes: Option<usize>,
) -> Log
    decreases records.len(),
{
    if records.len() == 0 {
        log
    } else {
        capped(
            continued(log, records.drop_last(), ids, max_bytes).appended(
                records.last(),
                ids[records.len() - 1],
            ),
            max_bytes,
        )
    }
}

/// The history that appending `records` one after another makes of an empty
/// one.
pub open spec fn history_of(
    records: Seq<Seq<char>>,
    ids: Seq<u64>,
    max_bytes: Option<usize>,
) -> Log {
    continued(Log { segments: Seq::empty(), active: None }, records, ids, max_bytes)
}

/// Whether the entries of `log` are the `records` from index `first` on, each
/// under its own index.
pub open spec fn retains(log: Log, records: Seq<Seq<char>>, first: nat) -> bool {
    forall|k: nat|
        #[trigger] log.entry(k) == (if first <= k < records.len() {
            Some(records[k as int])
        } else {
            None
        })
}

proof fn lemma_retains_appended(
    log: Log,
    records: Seq<Seq<char>>,
    first: nat,
    record: Seq<char>,
    id: u64,
)
    requires
        log.is_valid(),
        is_clean(log.active_bytes()),
        is_one_line(record),
        log.total() == records.len(),
        log.total() < u64::MAX,
        retains(log, records, first),
        first <= records.len(),
    ensures
        retains(log.appended(record, id), records.push(record), first),
{
    let grown = log.appended(record, id);
    let all = records.push(record);
    law_append(log, record, id);
    assert forall|k: nat| #[trigger] grown.entry(k) == (if first <= k < all.len() {
        Some(all[k as int])
    } else {
        None
    }) by {
        if k != records.len() {
            assert(grown.entry(k) == log.entry(k));
        }
    }
}

proof fn lemma_retains_capped(
    log: Log,
    after: Log,
    records: Seq<Seq<char>>,
    first: nat,
    kept_from: nat,
)
    requires
        retains(log, records, first),
        keeps_from(log, after, kept_from),
    ensures
        retains(
            after,
            records,
            if first >= kept_from {
                first
            } else {
                kept_from
            },
        ),
{
    let later = if first >= kept_from {
        first
    } else {
        kept_from
    };
    assert forall|k: nat| #[trigger] after.entry(k) == (if later <= k < records.len() {
        Some(records[k as int])
    } else {
        None
    }) by {
        if k >= kept_from {
            assert(after.entry(k) == log.entry(k));
        } else {
            assert(after.entry(k) is None);
        }
    }
}

/// Whether `log` retains the latest of `records`, and all of them where there
/// is no cap.
pub open spec fn retains_latest(
    log: Log,
    records: Seq<Seq<char>>,
    max_bytes: Option<usize>,
) -> bool {
    exists|first: nat|
        {
            &&& #[trigger] retains(log, records, first)
            &&& records.len() > 0 ==> first < records.len()
            &&& max_bytes is None ==> first == 0
        }
}

proof fn lemma_retains_latest(
    log: Log,
    records: Seq<Seq<char>>,
    record: Seq<char>,
    id: u64,
    max_bytes: Option<usize>,
)
    requires
        log.is_valid(),
        is_clean(log.active_bytes()),
        is_one_line(record),
        log.total() == records.len(),
        log.total() < u64::MAX,
        retains_latest(log, records, max_bytes),
    ensures
        retains_latest(
            capped(log.appended(record, id), max_bytes),
            records.push(record),
            max_bytes,
        ),
{
    let grown = log.appended(record, id);
    let after = capped(grown, max_bytes);
    let all = records.push(record);
    let found_first = choose|first: nat|
        {
            &&& #[trigger] retains(log, records, first)
            &&& records.len() > 0 ==> first < records.len()
            &&& max_bytes is None ==> first == 0
        };
    // An empty history retains nothing, from any index on.
    let first: nat = if records.len() == 0 {
        0
    } else {
        found_first
    };
    assert(retains(log, records, first)) by {
        if records.len() == 0 {
            assert forall|k: nat| #[trigger] log.entry(k) is None by {}
        }
    }
    lemma_retains_appended(log, records, first, record, id);
    law_newest_entry_is_retained(log, record, id, max_bytes);
    if max_bytes is Some {
        let kept_from = choose|kept_from: nat| #[trigger] keeps_from(grown, after, kept_from);
        lemma_retains_capped(grown, after, all, first, kept_from);
        let later = if first >= kept_from {
            first
        } else {
            kept_from
        };
        assert(retains(after, all, later));
        assert(after.entry(records.len()) == Some(record));
        assert(later < all.len());
    } else {
        assert(retains(after, all, first));
    }
}

/// The history of any appends: as many entries are counted as were appended;
/// the retained ones are the latest, each under the index it was given, and the
/// last one is always among them; without a cap, all are. With a cap, the
/// active file stays below the threshold, and the segments within the cap
/// unless there is a single one.
pub proof fn law_history_of_appends(
    records: Seq<Seq<char>>,
    ids: Seq<u64>,
    max_bytes: Option<usize>,
)
    requires
        records.len() <= u64::MAX,
        forall|k: int| 0 <= k < records.len() ==> is_one_line(#[trigger] records[k]),
    ensures
        ({
            let log = history_of(records, ids, max_bytes);
            &&& log.is_valid()
            &&& is_clean(log.active_bytes())
            &&& log.total() == records.len()
            &&& retains_latest(log, records, max_bytes)
            &&& max_bytes matches Some(cap) ==> {
                &&& log.active_bytes().len() < rotate_threshold(cap as u64)
                &&& within_cap(log, cap as u64)
            }
        }),
    decreases records.len(),
{
    let log = history_of(records, ids, max_bytes);
    if records.len() == 0 {
        assert(log.active_bytes() =~= Seq::<u8>::empty());
        assert(retains(log, records, 0));
    } else {
        let before = records.drop_last();
        let record = records.last();
        let id = ids[records.len() - 1];
        assert forall|k: int| 0 <= k < before.len() implies is_one_line(#[trigger] before[k]) by {
            assert(is_one_line(records[k]));
        }
        law_history_of_appends(before, ids, max_bytes);
        let prior = history_of(before, ids, max_bytes);
        assert(is_one_line(records[records.len() - 1]));
        law_newest_entry_is_retained(prior, record, id, max_bytes);
        lemma_retains_latest(prior, before, record, id, max_bytes);
        assert(before.push(record) =~= records);
        if max_bytes is Some {
            law_retained_bytes_bounded(prior.appended(record, id), max_bytes->0 as u64);
        }
    }
}

/// However many records are appended with a cap, the active file stays below a
/// quarter of it, or empty below a cap of eight bytes, and the segments together
/// within it, unless there is but one.
pub proof fn law_history_stays_within_cap(
    records: Seq<Seq<char>>,
    ids: Seq<u64>,
    cap: usize,
)
    requires
        records.len() <= u64::MAX,
        forall|k: int| 0 <= k < records.len() ==> is_one_line(#[trigger] records[k]),
    ensures
        ({
            let log = history_of(records, ids, Some(cap));
            &&& log.active_bytes().len() < (if cap as int / 4 >= 1 {
                cap as int / 4
            } else {
                1
            })
            &&& bytes_of(log.segments) <= cap || log.segments.len() <= 1
        }),
{
    law_history_of_appends(records, ids, Some(cap));
}

/// A completed append to the directory of a history of appends makes it the
/// directory of the history with one append more.
pub proof fn law_append_extends_history<E>(
    records: Seq<Seq<char>>,
    ids: Seq<u64>,
    entry: EntryView,
    json: spec_fn(EntryView) -> Seq<char>,
    max_bytes: Option<usize>,
    run: Seq<AppendMoment<E>>,
)
    requires
        records.len() < u64::MAX,
        ids.len() == records.len(),
        forall|k: int| 0 <= k < records.len() ==> is_one_line(#[trigger] records[k]),
        is_one_line(json(entry)),
        has_room(history_of(records, ids, max_bytes), json(entry)),
        represents(run[0].dir, history_of(records, ids, max_bytes)),
        is_append_run(entry, json, max_bytes, run),
        run.last().request == AppendRequest::<E>::Finish(Ok(())),
    ensures
        exists|id: u64|
            represents(
                run.last().dir,
                history_of(records.push(json(entry)), #[trigger] ids.push(id), max_bytes),
            ),
{
    let log = history_of(records, ids, max_bytes);
    let dir = run.last().dir;
    let record = json(entry);
    law_history_of_appends(records, ids, max_bytes);
    lemma_append_stands(log, entry, json, max_bytes, run, run.len() - 1);
    let id = choose|id: u64|
        represents(dir, capped(#[trigger] log.appended(record, id), max_bytes));
    let all = records.push(record);
    let all_ids = ids.push(id);
    assert(all.drop_last() =~= records);
    lemma_ids_needed(records, ids, all_ids, max_bytes);
    assert(history_of(all, all_ids, max_bytes) == capped(log.appended(record, id), max_bytes));
    assert(represents(dir, history_of(records.push(record), ids.push(id), max_bytes)));
}

/// Only the identifiers of the appends that there were matter.
proof fn lemma_ids_needed(
    records: Seq<Seq<char>>,
    ids: Seq<u64>,
    longer: Seq<u64>,
    max_bytes: Option<usize>,
)
    requires
        records.len() <= ids.len() <= longer.len(),
        forall|k: int| 0 <= k < records.len() ==> ids[k] == #[trigger] longer[k],
    ensures
        history_of(records, ids, max_bytes) == history_of(records, longer, max_bytes),
    decreases records.len(),
{
    if records.len() > 0 {
        lemma_ids_needed(records.drop_last(), ids, longer, max_bytes);
    }
}

/// What an append recorded, a lookup finds under the last index: the JSON of
/// the entry with the caller's session and text and the time of the clock. It
/// finds it with the identifier of the active file or with zero, which is what
/// is reported as the identifier while the active file is away after a rotation,
/// unless the lock stays taken and the lookup gives up. Behind a line that is no
/// text it finds nothing.
pub proof fn law_recorded_entry_is_found<E>(
    log: Log,
    entry: EntryView,
    json: spec_fn(EntryView) -> Seq<char>,
    max_bytes: Option<usize>,
    append: Seq<AppendMoment<E>>,
    log_id: u64,
    lookup: Seq<LookupMoment>,
)
    requires
        log.is_valid(),
        unterminated(log.active_bytes()).len() == 0,
        is_one_line(json(entry)),
        has_room(log, json(entry)),
        is_append_run(entry, json, max_bytes, append),
        represents(append[0].dir, log),
        append.last().request == AppendRequest::<E>::Finish(Ok(())),
        is_global(log_id, active_in(append.last().dir)),
        is_lookup_run(log_id, log.total() as u64, append.last().dir, lookup),
        lookup.last().state is Finished,
    ensures
        found(append.last().dir, lookup.last().request) == (if is_clean(log.active_bytes()) {
            Some(json(entry))
        } else {
            None
        }) || gave_up(lookup),
{
    let dir = append.last().dir;
    let record = json(entry);
    lemma_append_stands(log, entry, json, max_bytes, append, append.len() - 1);
    lemma_line_added(log.active_bytes(), record);
    let id = choose|id: u64|
        represents(dir, capped(#[trigger] log.appended(record, id), max_bytes));
    let after = capped(log.appended(record, id), max_bytes);
    law_append(log, record, id);
    law_newest_entry_is_retained(log, record, id, max_bytes);
    law_lookup_finds_entry(after, dir, log_id, log.total() as u64, lookup);
}

/// An append that does not rotate leaves the identifier of the active file as
/// it was, and with it every complete entry that it named.
pub proof fn law_identity_survives_append(
    log: Log,
    record: Seq<char>,
    id: u64,
    dir: Directory,
    after: Directory,
    offset: nat,
)
    requires
        log.is_valid(),
        !record.contains('\n'),
        log.total() < u64::MAX,
        log.active is Some,
        represents(dir, log),
        represents(after, log.appended(record, id)),
        offset < log.start() + terminated(log.active_bytes()).len(),
    ensures
        active_in(after) == active_in(dir),
        meant(log.appended(record, id), after, log.active->0.id, offset) == meant(
            log,
            dir,
            log.active->0.id,
            offset,
        ),
{
    law_append(log, record, id);
}

/// The first segment with an identifier is the one found by it.
pub proof fn lemma_line_of_file(segments: Seq<LogSegment>, i: int, offset: nat)
    requires
        0 <= i < segments.len(),
        forall|j: int|
            0 <= j < i ==> (#[trigger] segments[j]).file.id != segments[i].file.id,
    ensures
        line_of_file(segments, segments[i].file.id, offset) == read_line(
            segments[i].file.bytes,
            offset,
        ),
    decreases i,
{
    if i > 0 {
        let rest = segments.skip(1);
        assert forall|j: int| 0 <= j < i - 1 implies (#[trigger] rest[j]).file.id
            != rest[i - 1].file.id by {
            assert(segments[j + 1].file.id != segments[i].file.id);
        }
        lemma_line_of_file(rest, i - 1, offset);
        assert(segments[0].file.id != segments[i].file.id);
    }
}

/// The file that was rotated is found among the segments that are left.
proof fn lemma_rotated_file_is_named(log: Log, cap: u64, offset: nat)
    requires
        log.active is Some,
        log.active_bytes().len() >= rotate_threshold(cap),
        forall|i: int|
            0 <= i < log.segments.len() ==> (#[trigger] log.segments[i]).file.id
                != log.active->0.id,
    ensures
        line_of_file(maintained(log, cap).segments, log.active->0.id, offset) == read_line(
            log.active_bytes(),
            offset,
        ),
{
    let rotated = log.rotated().segments;
    let n = prune_count(rotated, cap);
    law_prune_count(rotated, cap);
    let kept = maintained(log, cap).segments;
    let last = kept.len() - 1;
    assert(kept[last] == rotated[rotated.len() - 1]);
    assert forall|j: int| 0 <= j < last implies (#[trigger] kept[j]).file.id
        != kept[last].file.id by {
        assert(kept[j] == rotated[j + n]);
        assert(rotated[j + n] == log.segments[j + n]);
    }
    lemma_line_of_file(kept, last, offset);
}

/// An identifier and a line number from before a rotation still name the same
/// line right after it, while there is no active file.
pub proof fn law_identity_survives_rotation(log: Log, cap: u64, dir: Directory, offset: nat)
    requires
        log.is_valid(),
        log.active is Some,
        log.active->0.id != 0,
        log.active_bytes().len() >= rotate_threshold(cap),
        forall|i: int|
            0 <= i < log.segments.len() ==> (#[trigger] log.segments[i]).file.id
                != log.active->0.id,
        represents(dir, maintained(log, cap)),
    ensures
        meant(maintained(log, cap), dir, log.active->0.id, offset) == read_line(
            log.active_bytes(),
            offset,
        ),
{
    lemma_rotated_file_is_named(log, cap, offset);
}

/// An identifier and a line number from before a rotation still name the same
/// line once a new active file has begun.
pub proof fn law_identity_survives_new_file(
    log: Log,
    cap: u64,
    record: Seq<char>,
    id: u64,
    dir: Directory,
    offset: nat,
)
    requires
        log.is_valid(),
        log.active is Some,
        log.active->0.id != 0,
        log.active_bytes().len() >= rotate_threshold(cap),
        id != log.active->0.id,
        forall|i: int|
            0 <= i < log.segments.len() ==> (#[trigger] log.segments[i]).file.id
                != log.active->0.id,
        represents(dir, maintained(log, cap).appended(record, id)),
    ensures
        meant(
            maintained(log, cap).appended(record, id),
            dir,
            log.active->0.id,
            offset,
        ) == read_line(log.active_bytes(), offset),
{
    lemma_rotated_file_is_named(log, cap, offset);
}

/// Line `offset` of the file whose identifier is `id`, be it the active file or
/// a segment.
pub open spec fn line_in(log: Log, id: u64, offset: nat) -> Option<Seq<char>> {
    match log.active {
        Some(file) if file.id == id => read_line(file.bytes, offset),
        _ => line_of_file(log.segments, id, offset),
    }
}

/// Whether a file of the history has the identifier `id`.
pub open spec fn has_file(log: Log, id: u64) -> bool {
    ||| log.active is Some && log.active->0.id == id
    ||| exists|i: int| 0 <= i < log.segments.len() && (#[trigger] log.segments[i]).file.id == id
}

/// Whether no two files of the history have the identifier `id`.
pub open spec fn at_most_one(log: Log, id: u64) -> bool {
    &&& forall|i: int, j: int|
        0 <= i < j < log.segments.len() ==> (#[trigger] log.segments[i]).file.id != id || (
        #[trigger] log.segments[j]).file.id != id
    &&& log.active is Some && log.active->0.id == id ==> forall|i: int|
        0 <= i < log.segments.len() ==> (#[trigger] log.segments[i]).file.id != id
}

/// Whether line `offset` of the file `id` cannot change any more: the file is
/// not the active one, or the line is complete.
pub open spec fn is_settled(log: Log, id: u64, offset: nat) -> bool {
    log.active is Some && log.active->0.id == id ==> offset < terminated(
        log.active->0.bytes,
    ).len()
}

/// Cap enforcement leaves the line of every file that it does not delete.
proof fn lemma_identity_kept_by_cap(log: Log, max_bytes: u64, id: u64, offset: nat)
    requires
        log.active is Some,
        at_most_one(log, id),
        is_settled(log, id, offset),
    ensures
        ({
            let after = maintained(log, max_bytes);
            &&& at_most_one(after, id)
            &&& is_settled(after, id, offset)
            &&& has_file(after, id) ==> has_file(log, id)
            &&& line_in(after, id, offset) == (if has_file(after, id) {
                line_in(log, id, offset)
            } else {
                None
            })
            &&& log.active->0.id == id ==> has_file(after, id)
        }),
{
    let after = maintained(log, max_bytes);
    if log.active_bytes().len() >= rotate_threshold(max_bytes) {
        let rotated = log.rotated().segments;
        let n = prune_count(rotated, max_bytes);
        law_prune_count(rotated, max_bytes);
        let last = log.segments.len() as int;
        assert forall|i: int, j: int| 0 <= i < j < rotated.len() implies (
        #[trigger] rotated[i]).file.id != id || (#[trigger] rotated[j]).file.id != id by {
            assert(rotated[i] == log.segments[i]);
            if j < last {
                assert(rotated[j] == log.segments[j]);
            }
        }
        assert forall|i: int| 0 <= i < after.segments.len() implies (
        #[trigger] after.segments[i]) == rotated[i + n] by {}
        assert forall|i: int, j: int| 0 <= i < j < after.segments.len() implies (
        #[trigger] after.segments[i]).file.id != id || (#[trigger] after.segments[j]).file.id
            != id by {
            assert(rotated[i + n].file.id != id || rotated[j + n].file.id != id);
        }
        if has_file(after, id) {
            let i = choose|i: int|
                0 <= i < after.segments.len() && (#[trigger] after.segments[i]).file.id == id;
            assert(rotated[i + n].file.id == id);
            lemma_line_of_file(after.segments, i, offset);
            if i + n < last {
                assert(rotated[i + n] == log.segments[i + n]);
                assert forall|j: int| 0 <= j < last && j != i + n implies (
                #[trigger] log.segments[j]).file.id != id by {
                    assert(rotated[j] == log.segments[j]);
                }
                lemma_line_of_file(log.segments, i + n, offset);
                assert(rotated[last].file.id != id);
            }
        } else {
            lemma_no_such_file(after.segments, id, offset);
        }
        if log.active->0.id == id {
            assert(after.segments[last - n].file.id == id);
        }
    } else if !has_file(log, id) {
        lemma_no_such_file(log.segments, id, offset);
    }
}

/// An append, with whatever rotation and deletions follow it, leaves a settled
/// line of any file where it was, under the identifier of that file: the line
/// reads as before, or the file was deleted and there is none.
pub proof fn law_identity_survives_later_append(
    log: Log,
    record: Seq<char>,
    fresh: u64,
    max_bytes: Option<usize>,
    id: u64,
    offset: nat,
)
    requires
        at_most_one(log, id),
        is_settled(log, id, offset),
        fresh != id,
    ensures
        ({
            let after = capped(log.appended(record, fresh), max_bytes);
            &&& at_most_one(after, id)
            &&& is_settled(after, id, offset)
            &&& has_file(after, id) ==> has_file(log, id)
            &&& line_in(after, id, offset) == (if has_file(after, id) {
                line_in(log, id, offset)
            } else {
                None
            })
            &&& log.active is Some && log.active->0.id == id ==> has_file(after, id)
            &&& max_bytes is None ==> has_file(after, id) == has_file(log, id)
        }),
{
    let grown = log.appended(record, fresh);
    let line = encode_utf8(record.push('\n'));
    assert(grown.segments == log.segments);
    if log.active is Some && log.active->0.id == id {
        law_read_line_needs_no_more(log.active->0.bytes, line, offset);
        lemma_terminated_prefix(log.active->0.bytes, line);
    }
    if !has_file(log, id) {
        lemma_no_such_file(log.segments, id, offset);
    }
    assert(has_file(grown, id) == has_file(log, id)) by {
        if exists|i: int|
            0 <= i < log.segments.len() && (#[trigger] log.segments[i]).file.id == id {
            let i = choose|i: int|
                0 <= i < log.segments.len() && (#[trigger] log.segments[i]).file.id == id;
            assert(grown.segments[i].file.id == id);
        }
    }
    assert(at_most_one(grown, id));
    match max_bytes {
        None => {},
        Some(cap) => {
            lemma_identity_kept_by_cap(grown, cap as u64, id, offset);
        },
    }
}

/// The identifier and line number of a settled line name it through any
/// appends and rotations that follow, until its file is deleted; then they name
/// nothing.
pub proof fn law_identity_survives_appends(
    log: Log,
    records: Seq<Seq<char>>,
    ids: Seq<u64>,
    max_bytes: Option<usize>,
    id: u64,
    offset: nat,
)
    requires
        at_most_one(log, id),
        is_settled(log, id, offset),
        forall|k: int| 0 <= k < records.len() ==> #[trigger] ids[k] != id,
    ensures
        ({
            let after = continued(log, records, ids, max_bytes);
            &&& at_most_one(after, id)
            &&& is_settled(after, id, offset)
            &&& has_file(after, id) ==> has_file(log, id)
            &&& line_in(after, id, offset) == (if has_file(after, id) {
                line_in(log, id, offset)
            } else {
                None
            })
            &&& max_bytes is None ==> has_file(after, id) == has_file(log, id)
        }),
    decreases records.len(),
{
    if records.len() == 0 {
        if !has_file(log, id) {
            lemma_no_such_file(log.segments, id, offset);
        }
    } else {
        let before = records.drop_last();
        let fresh = ids[records.len() - 1];
        law_identity_survives_appends(log, before, ids, max_bytes, id, offset);
        let prior = continued(log, before, ids, max_bytes);
        law_identity_survives_later_append(
            prior,
            records.last(),
            fresh,
            max_bytes,
            id,
            offset,
        );
    }
}

/// What a lookup means by an identifier that is not the active file's is the
/// line of the file that has it.
pub proof fn law_old_identifier_means_its_file(
    log: Log,
    dir: Directory,
    id: u64,
    offset: nat,
)
    requires
        represents(dir, log),
        id != 0,
        log.active matches Some(file) ==> file.id != id,
    ensures
        meant(log, dir, id, offset) == line_in(log, id, offset),
{
}

} // verus!
