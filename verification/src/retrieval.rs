//! What a lookup finds, from the first question to the last answer.

use vstd::prelude::*;

use crate::append::MAX_RETRIES;
use crate::directory::{law_listing_shows_history, lemma_starts_ascend, lists, represents, Directory};
use crate::lines::{lines, read_line, saturated};
use crate::log::{lemma_entry_of_segment, Log, LogSegment};
use crate::lookup::{
    holder, is_global, lookup_expects, lookup_next, resolve_global, ActiveFile, LookupEvent,
    LookupRequest, LookupState, SharedLock,
};
use crate::recording::lemma_line_of_file;
use crate::segments::{active_start, ascending, holds_entry, law_entry_in_one_segment};

verus! {

/// The active file, as a lookup finds it in `dir`.
pub open spec fn active_in(dir: Directory) -> ActiveFile {
    match dir.active {
        Some(file) => ActiveFile::Open { id: Some(file.id) },
        None => ActiveFile::Missing,
    }
}

/// Line `offset` of the first of `segments` whose identifier is `id`.
pub open spec fn line_of_file(segments: Seq<LogSegment>, id: u64, offset: nat) -> Option<Seq<char>>
    decreases segments.len(),
{
    if segments.len() == 0 {
        None
    } else if segments[0].file.id == id {
        read_line(segments[0].file.bytes, offset)
    } else {
        line_of_file(segments.skip(1), id, offset)
    }
}

/// The entry that a caller with `log_id` means by `offset`: a global entry, or
/// a line of the file that has since been rotated.
pub open spec fn meant(log: Log, dir: Directory, log_id: u64, offset: nat) -> Option<Seq<char>> {
    if is_global(log_id, active_in(dir)) {
        log.entry(offset)
    } else {
        line_of_file(log.segments, log_id, offset)
    }
}

/// The text that the last request of a lookup stands for.
pub open spec fn found(dir: Directory, request: LookupRequest) -> Option<Seq<char>> {
    match request {
        LookupRequest::ReadActive { local } => match dir.active {
            Some(file) => read_line(file.bytes, local as nat),
            None => None,
        },
        LookupRequest::ReadSegment { file_name, local } => {
            if dir.others.dom().contains(file_name) {
                read_line(dir.others[file_name].bytes, local as nat)
            } else {
                None
            }
        },
        _ => None,
    }
}

/// Whether `event` is a true answer to `request` in the directory `dir`: the
/// lock may be taken by another process, but every other request succeeds.
pub open spec fn lookup_answered(
    dir: Directory,
    request: LookupRequest,
    event: LookupEvent,
) -> bool {
    match (request, event) {
        (LookupRequest::ListDirectory, LookupEvent::Listed(listing)) => lists(dir, listing),
        (LookupRequest::OpenActive, LookupEvent::ActiveOpened(active)) => active == active_in(dir),
        (LookupRequest::CountLines { file_name }, LookupEvent::Counted(n)) => {
            &&& dir.others.dom().contains(file_name)
            &&& n == saturated(lines(dir.others[file_name].bytes).len() as int)
        },
        (LookupRequest::Identify { file_name }, LookupEvent::Identified(id)) => {
            &&& dir.others.dom().contains(file_name)
            &&& id == Some(dir.others[file_name].id)
        },
        (LookupRequest::TryLockShared, LookupEvent::LockTried(outcome)) => outcome
            != SharedLock::Failed,
        (LookupRequest::Sleep { .. }, LookupEvent::Slept) => true,
        _ => false,
    }
}

/// A point of a lookup: where it stands and what it asks for.
pub struct LookupMoment {
    pub state: LookupState,
    pub request: LookupRequest,
}

/// Whether one question and its answer lead from `before` to `after`.
pub open spec fn lookup_exchange(
    log_id: u64,
    offset: u64,
    dir: Directory,
    before: LookupMoment,
    after: LookupMoment,
) -> bool {
    exists|event: LookupEvent|
        {
            &&& #[trigger] lookup_expects(before.state, event)
            &&& lookup_answered(dir, before.request, event)
            &&& (after.state, after.request) == lookup_next(log_id, offset, before.state, event)
        }
}

/// Whether `run` is a lookup in the making, from its first question on.
pub open spec fn is_lookup_run(
    log_id: u64,
    offset: u64,
    dir: Directory,
    run: Seq<LookupMoment>,
) -> bool {
    &&& run.len() > 0
    &&& run[0].state == LookupState::Listing
    &&& run[0].request == LookupRequest::ListDirectory
    &&& forall|i: int, j: int|
        #![trigger run[i], run[j]]
        0 <= i && j == i + 1 && j < run.len() ==> lookup_exchange(
            log_id,
            offset,
            dir,
            run[i],
            run[j],
        )
}

/// Whether the lookup ended because the lock was found taken too often.
pub open spec fn gave_up(run: Seq<LookupMoment>) -> bool {
    &&& run.len() >= 2
    &&& gives_up(run[run.len() - 2], run.last())
}

/// Whether the end is reached from a wait after the last try of the lock.
pub open spec fn gives_up(before: LookupMoment, after: LookupMoment) -> bool {
    &&& before.state matches LookupState::Sleeping { attempts, .. }
    &&& attempts == MAX_RETRIES
    &&& after.request == LookupRequest::NotFound
}

/// What is true `i` exchanges into the lookup.
spec fn lookup_stands(
    log: Log,
    dir: Directory,
    log_id: u64,
    offset: u64,
    i: int,
    moment: LookupMoment,
) -> bool {
    match moment.state {
        LookupState::Listing => {
            &&& i == 0
            &&& moment.request == LookupRequest::ListDirectory
        },
        LookupState::Opening { segments } => {
            &&& i == 1
            &&& segments == log.listed()
            &&& moment.request == LookupRequest::OpenActive
        },
        LookupState::Counting { segments, active } => {
            &&& i == 2
            &&& segments == log.listed()
            &&& segments.len() > 0
            &&& active == active_in(dir)
            &&& is_global(log_id, active)
            &&& moment.request == LookupRequest::CountLines {
                file_name: segments.last().file_name,
            }
        },
        LookupState::Searching { segments, next } => {
            &&& i <= 2 + next
            &&& segments == log.listed()
            &&& next < segments.len()
            &&& !is_global(log_id, active_in(dir))
            &&& line_of_file(log.segments, log_id, offset as nat) == line_of_file(
                log.segments.skip(next as int),
                log_id,
                offset as nat,
            )
            &&& moment.request == LookupRequest::Identify {
                file_name: segments[next as int].file_name,
            }
        },
        LookupState::Locking { local, attempts } => {
            &&& i <= 3 + 2 * attempts
            &&& attempts < MAX_RETRIES
            &&& is_global(log_id, active_in(dir))
            &&& moment.request == LookupRequest::TryLockShared
            &&& meant(log, dir, log_id, offset as nat) == found(
                dir,
                LookupRequest::ReadActive { local },
            )
        },
        LookupState::Sleeping { local, attempts } => {
            &&& i <= 2 + 2 * attempts
            &&& attempts <= MAX_RETRIES
            &&& is_global(log_id, active_in(dir))
            &&& moment.request is Sleep
            &&& meant(log, dir, log_id, offset as nat) == found(
                dir,
                LookupRequest::ReadActive { local },
            )
        },
        LookupState::Finished => i <= 4 + log.segments.len() + 2 * MAX_RETRIES,
    }
}

proof fn lemma_listed_ascending(log: Log)
    requires
        log.is_valid(),
    ensures
        ascending(log.listed()),
{
    assert forall|i: int, j: int| 0 <= i <= j < log.listed().len() implies (
    #[trigger] log.listed()[i]).start <= (#[trigger] log.listed()[j]).start by {
        if i < j {
            lemma_starts_ascend(log, i, j);
        }
    }
}

/// Global resolution ends at the entry.
proof fn lemma_resolve_stands(
    log: Log,
    dir: Directory,
    log_id: u64,
    offset: u64,
    i: int,
    newest_lines: nat,
)
    requires
        log.is_valid(),
        represents(dir, log),
        is_global(log_id, active_in(dir)),
        0 <= i <= 3,
        log.segments.len() > 0 ==> newest_lines == lines(log.segments.last().file.bytes).len(),
    ensures
        ({
            let (state, request) = resolve_global(
                log.listed(),
                active_in(dir),
                newest_lines,
                offset,
            );
            &&& lookup_stands(log, dir, log_id, offset, i, LookupMoment { state, request })
            &&& state is Finished ==> found(dir, request) == meant(
                log,
                dir,
                log_id,
                offset as nat,
            )
        }),
{
    let segments = log.listed();
    let n = segments.len() as int;
    if n > 0 {
        assert(segments.last() == log.segments.last().listed());
    }
    assert(active_start(segments, newest_lines) == log.start());
    if offset < log.start() {
        lemma_listed_ascending(log);
        if exists|k: int| 0 <= k < n && holds_entry(segments, k, offset, newest_lines) {
            let k = holder(segments, offset, newest_lines);
            let file = log.segments[k].file;
            assert(segments[k] == log.segments[k].listed());
            let local = (offset - segments[k].start) as nat;
            if log.segments[k].covers(offset as nat) {
                lemma_entry_of_segment(log, k, offset as nat);
            } else {
                assert(read_line(file.bytes, local) is None);
                assert forall|m: int| 0 <= m < n implies !(#[trigger] log.segments[m]).covers(
                    offset as nat,
                ) by {
                    if log.segments[m].covers(offset as nat) {
                        lemma_covers_holds(log, m, offset, newest_lines);
                        law_entry_in_one_segment(segments, m, k, offset, newest_lines);
                    }
                }
                assert(log.entry(offset as nat) is None);
            }
        } else {
            assert forall|m: int| 0 <= m < n implies !(#[trigger] log.segments[m]).covers(
                offset as nat,
            ) by {
                if log.segments[m].covers(offset as nat) {
                    lemma_covers_holds(log, m, offset, newest_lines);
                }
            }
        }
    }
}

proof fn lemma_covers_holds(log: Log, m: int, offset: u64, newest_lines: nat)
    requires
        log.is_valid(),
        0 <= m < log.segments.len(),
        newest_lines == lines(log.segments.last().file.bytes).len(),
        log.segments[m].covers(offset as nat),
    ensures
        holds_entry(log.listed(), m, offset, newest_lines),
{
    assert(log.listed()[m] == log.segments[m].listed());
    if m + 1 < log.segments.len() {
        assert(log.listed()[m + 1] == log.segments[m + 1].listed());
        assert(log.segments[m].end() <= log.segments[m + 1].start);
    }
}

proof fn lemma_lookup_step(
    log: Log,
    dir: Directory,
    log_id: u64,
    offset: u64,
    i: int,
    before: LookupMoment,
    after: LookupMoment,
)
    requires
        log.is_valid(),
        represents(dir, log),
        i >= 0,
        lookup_stands(log, dir, log_id, offset, i, before),
        lookup_exchange(log_id, offset, dir, before, after),
    ensures
        lookup_stands(log, dir, log_id, offset, i + 1, after),
        after.state is Finished ==> found(dir, after.request) == meant(
            log,
            dir,
            log_id,
            offset as nat,
        ) || gives_up(before, after),
{
    let event = choose|event: LookupEvent|
        {
            &&& #[trigger] lookup_expects(before.state, event)
            &&& lookup_answered(dir, before.request, event)
            &&& (after.state, after.request) == lookup_next(log_id, offset, before.state, event)
        };
    match before.state {
        LookupState::Listing => {
            law_listing_shows_history(dir, log, event->Listed_0);
        },
        LookupState::Opening { segments } => {
            assert(log.segments.skip(0) =~= log.segments);
            if is_global(log_id, active_in(dir)) && segments.len() == 0 {
                lemma_resolve_stands(log, dir, log_id, offset, i + 1, 0);
            }
        },
        LookupState::Counting { segments, active } => {
            let n = event->Counted_0;
            let newest = log.segments.last();
            assert(segments.last() == newest.listed());
            assert(dir.others[log.segments[log.segments.len() - 1].file_name] == newest.file);
            assert(newest.end() <= u64::MAX);
            lemma_resolve_stands(log, dir, log_id, offset, i + 1, n as nat);
        },
        LookupState::Searching { segments, next } => {
            let left = log.segments.skip(next as int);
            let candidate = log.segments[next as int];
            assert(left[0] == candidate);
            assert(dir.others[candidate.file_name] == candidate.file);
            assert(left.skip(1) =~= log.segments.skip((next + 1) as int));
            if next + 1 >= segments.len() {
                assert(line_of_file(left.skip(1), log_id, offset as nat) is None);
            }
        },
        LookupState::Locking { local, attempts } => {},
        LookupState::Sleeping { .. } => {},
        LookupState::Finished => {},
    }
}

proof fn lemma_lookup_stands(
    log: Log,
    dir: Directory,
    log_id: u64,
    offset: u64,
    run: Seq<LookupMoment>,
    i: int,
)
    requires
        log.is_valid(),
        represents(dir, log),
        is_lookup_run(log_id, offset, dir, run),
        0 <= i < run.len(),
    ensures
        lookup_stands(log, dir, log_id, offset, i, run[i]),
    decreases i,
{
    if i > 0 {
        lemma_lookup_stands(log, dir, log_id, offset, run, i - 1);
        assert(lookup_exchange(log_id, offset, dir, run[i - 1], run[i]));
        lemma_lookup_step(log, dir, log_id, offset, i - 1, run[i - 1], run[i]);
    }
}

/// A lookup asks a bounded number of questions and ends at the line that the
/// caller means, or at none where there is no such line, unless it found the
/// lock taken every time and gave up.
pub proof fn law_lookup_finds_entry(
    log: Log,
    dir: Directory,
    log_id: u64,
    offset: u64,
    run: Seq<LookupMoment>,
)
    requires
        log.is_valid(),
        represents(dir, log),
        is_lookup_run(log_id, offset, dir, run),
    ensures
        run.len() <= log.segments.len() + 2 * MAX_RETRIES + 5,
        run.last().state is Finished ==> found(dir, run.last().request) == meant(
            log,
            dir,
            log_id,
            offset as nat,
        ) || gave_up(run),
{
    let n = run.len() - 1;
    lemma_lookup_stands(log, dir, log_id, offset, run, n);
    if n > 0 {
        lemma_lookup_stands(log, dir, log_id, offset, run, n - 1);
        assert(lookup_exchange(log_id, offset, dir, run[n - 1], run[n]));
        lemma_lookup_step(log, dir, log_id, offset, n - 1, run[n - 1], run[n]);
    }
}

/// An identifier that no segment has finds no line.
pub proof fn lemma_no_such_file(segments: Seq<LogSegment>, id: u64, offset: nat)
    requires
        forall|i: int| 0 <= i < segments.len() ==> (#[trigger] segments[i]).file.id != id,
    ensures
        line_of_file(segments, id, offset) is None,
    decreases segments.len(),
{
    if segments.len() > 0 {
        let rest = segments.skip(1);
        assert forall|i: int| 0 <= i < rest.len() implies (#[trigger] rest[i]).file.id != id by {
            assert(rest[i] == segments[i + 1]);
        }
        assert(segments[0].file.id != id);
        lemma_no_such_file(rest, id, offset);
    }
}

/// An identifier that names neither the active file, which may be missing, nor
/// a segment means no entry, whatever the offset.
pub proof fn law_unknown_identifier_means_nothing(
    log: Log,
    dir: Directory,
    log_id: u64,
    offset: nat,
)
    requires
        represents(dir, log),
        log_id != 0,
        log.active matches Some(file) ==> file.id != log_id,
        forall|i: int|
            0 <= i < log.segments.len() ==> (#[trigger] log.segments[i]).file.id != log_id,
    ensures
        meant(log, dir, log_id, offset) is None,
{
    lemma_no_such_file(log.segments, log_id, offset);
}

/// An identifier that is the active file's, whatever number it is, counts over
/// the whole history, and so does zero, whether there is an active file or not:
/// a lookup that does not give up ends at the entry of that index.
pub proof fn law_active_identifier_finds_every_entry(
    log: Log,
    dir: Directory,
    log_id: u64,
    offset: u64,
    run: Seq<LookupMoment>,
)
    requires
        log.is_valid(),
        represents(dir, log),
        log_id == 0 || (log.active is Some && log.active->0.id == log_id),
        is_lookup_run(log_id, offset, dir, run),
        run.last().state is Finished,
    ensures
        found(dir, run.last().request) == log.entry(offset as nat) || gave_up(run),
{
    law_lookup_finds_entry(log, dir, log_id, offset, run);
}

/// An identifier that is not the active file's, whether there is one or not, is
/// that of a segment: a lookup ends at the line of that file, with no lock to
/// wait for.
pub proof fn law_segment_identifier_finds_its_lines(
    log: Log,
    dir: Directory,
    i: int,
    offset: u64,
    run: Seq<LookupMoment>,
)
    requires
        log.is_valid(),
        represents(dir, log),
        0 <= i < log.segments.len(),
        log.segments[i].file.id != 0,
        log.active is Some ==> log.active->0.id != log.segments[i].file.id,
        forall|j: int|
            0 <= j < i ==> (#[trigger] log.segments[j]).file.id != log.segments[i].file.id,
        is_lookup_run(log.segments[i].file.id, offset, dir, run),
        run.last().state is Finished,
    ensures
        found(dir, run.last().request) == read_line(log.segments[i].file.bytes, offset as nat),
{
    let id = log.segments[i].file.id;
    lemma_search_needs_no_lock(log, dir, id, offset, run);
    lemma_line_of_file(log.segments, i, offset as nat);
}

/// An identifier that names neither the active file, which may be missing, nor a
/// segment finds nothing.
pub proof fn law_unknown_identifier_finds_nothing(
    log: Log,
    dir: Directory,
    log_id: u64,
    offset: u64,
    run: Seq<LookupMoment>,
)
    requires
        log.is_valid(),
        represents(dir, log),
        log_id != 0,
        log.active is Some ==> log.active->0.id != log_id,
        forall|i: int|
            0 <= i < log.segments.len() ==> (#[trigger] log.segments[i]).file.id != log_id,
        is_lookup_run(log_id, offset, dir, run),
        run.last().state is Finished,
    ensures
        found(dir, run.last().request) is None,
{
    lemma_search_needs_no_lock(log, dir, log_id, offset, run);
    lemma_no_such_file(log.segments, log_id, offset as nat);
}

proof fn lemma_search_needs_no_lock(
    log: Log,
    dir: Directory,
    log_id: u64,
    offset: u64,
    run: Seq<LookupMoment>,
)
    requires
        log.is_valid(),
        represents(dir, log),
        log_id != 0,
        log.active is Some ==> log.active->0.id != log_id,
        is_lookup_run(log_id, offset, dir, run),
        run.last().state is Finished,
    ensures
        found(dir, run.last().request) == line_of_file(log.segments, log_id, offset as nat),
{
    law_lookup_finds_entry(log, dir, log_id, offset, run);
    if run.len() >= 2 {
        lemma_lookup_stands(log, dir, log_id, offset, run, run.len() - 2);
    }
}

/// Whether `run` is a lookup in the making that got these answers.
pub open spec fn is_answered_lookup(
    log_id: u64,
    offset: u64,
    dir: Directory,
    run: Seq<LookupMoment>,
    events: Seq<LookupEvent>,
) -> bool {
    &&& run.len() == events.len() + 1
    &&& run[0].state == LookupState::Listing
    &&& run[0].request == LookupRequest::ListDirectory
    &&& forall|i: int|
        0 <= i < events.len() ==> {
            &&& lookup_expects(run[i].state, #[trigger] events[i])
            &&& lookup_answered(dir, run[i].request, events[i])
            &&& (run[i + 1].state, run[i + 1].request) == lookup_next(
                log_id,
                offset,
                run[i].state,
                events[i],
            )
        }
}

/// What came of the tries of the lock.
pub open spec fn shared_tries(events: Seq<LookupEvent>) -> Seq<SharedLock>
    decreases events.len(),
{
    if events.len() == 0 {
        Seq::empty()
    } else {
        match events.last() {
            LookupEvent::LockTried(outcome) => shared_tries(events.drop_last()).push(outcome),
            _ => shared_tries(events.drop_last()),
        }
    }
}

proof fn lemma_answered_is_run(
    log_id: u64,
    offset: u64,
    dir: Directory,
    run: Seq<LookupMoment>,
    events: Seq<LookupEvent>,
)
    requires
        is_answered_lookup(log_id, offset, dir, run, events),
    ensures
        is_lookup_run(log_id, offset, dir, run),
{
    assert forall|i: int, j: int|
        #![trigger run[i], run[j]]
        0 <= i && j == i + 1 && j < run.len() implies lookup_exchange(
        log_id,
        offset,
        dir,
        run[i],
        run[j],
    ) by {
        assert(lookup_expects(run[i].state, events[i]));
    }
}

spec fn all_taken(tries: Seq<SharedLock>) -> bool {
    forall|i: int| 0 <= i < tries.len() ==> #[trigger] tries[i] == SharedLock::WouldBlock
}

proof fn lemma_lookup_tries(
    log: Log,
    dir: Directory,
    log_id: u64,
    offset: u64,
    run: Seq<LookupMoment>,
    events: Seq<LookupEvent>,
    i: int,
)
    requires
        log.is_valid(),
        represents(dir, log),
        is_answered_lookup(log_id, offset, dir, run, events),
        0 <= i < run.len(),
    ensures
        match run[i].state {
            LookupState::Locking { attempts, .. } => {
                &&& shared_tries(events.take(i)).len() == attempts
                &&& all_taken(shared_tries(events.take(i)))
            },
            LookupState::Sleeping { attempts, .. } => {
                &&& shared_tries(events.take(i)).len() == attempts
                &&& all_taken(shared_tries(events.take(i)))
            },
            LookupState::Finished => {
                ||| found(dir, run[i].request) == meant(log, dir, log_id, offset as nat)
                ||| {
                    &&& shared_tries(events.take(i)).len() == MAX_RETRIES
                    &&& all_taken(shared_tries(events.take(i)))
                }
            },
            _ => shared_tries(events.take(i)).len() == 0,
        },
    decreases i,
{
    lemma_answered_is_run(log_id, offset, dir, run, events);
    if i > 0 {
        let k = i - 1;
        lemma_lookup_tries(log, dir, log_id, offset, run, events, k);
        lemma_lookup_stands(log, dir, log_id, offset, run, k);
        assert(lookup_expects(run[k].state, events[k]));
        assert(lookup_exchange(log_id, offset, dir, run[k], run[i]));
        lemma_lookup_step(log, dir, log_id, offset, k, run[k], run[i]);
        assert(events.take(i).drop_last() =~= events.take(k));
        assert(events.take(i).last() == events[k]);
    }
}

/// A lookup gives up only where it had its full number of tries of the lock, and
/// found it taken every time. Where it won the lock once, or had no need of it, it
/// ends at the entry.
pub proof fn law_lookup_gives_up_only_on_a_taken_lock(
    log: Log,
    dir: Directory,
    log_id: u64,
    offset: u64,
    run: Seq<LookupMoment>,
    events: Seq<LookupEvent>,
)
    requires
        log.is_valid(),
        represents(dir, log),
        log_id == 0 || (log.active is Some && log.active->0.id == log_id),
        is_answered_lookup(log_id, offset, dir, run, events),
        run.last().state is Finished,
    ensures
        found(dir, run.last().request) == log.entry(offset as nat) || {
            &&& shared_tries(events).len() == MAX_RETRIES
            &&& forall|i: int|
                0 <= i < shared_tries(events).len() ==> #[trigger] shared_tries(events)[i]
                    == SharedLock::WouldBlock
        },
        (exists|t: int|
            0 <= t < events.len() && #[trigger] events[t] == LookupEvent::LockTried(
                SharedLock::Acquired,
            )) ==> found(dir, run.last().request) == log.entry(offset as nat),
{
    lemma_lookup_tries(log, dir, log_id, offset, run, events, run.len() - 1);
    assert(events.take(run.len() - 1) =~= events);
    if exists|t: int|
        0 <= t < events.len() && #[trigger] events[t] == LookupEvent::LockTried(
            SharedLock::Acquired,
        ) {
        let t = choose|t: int|
            0 <= t < events.len() && #[trigger] events[t] == LookupEvent::LockTried(
                SharedLock::Acquired,
            );
        lemma_try_is_among(events, t, SharedLock::Acquired);
    }
}

proof fn lemma_try_is_among(events: Seq<LookupEvent>, t: int, outcome: SharedLock)
    requires
        0 <= t < events.len(),
        events[t] == LookupEvent::LockTried(outcome),
    ensures
        exists|i: int|
            0 <= i < shared_tries(events).len() && #[trigger] shared_tries(events)[i] == outcome,
    decreases events.len(),
{
    let front = events.drop_last();
    if t < events.len() - 1 {
        lemma_try_is_among(front, t, outcome);
        let i = choose|i: int|
            0 <= i < shared_tries(front).len() && #[trigger] shared_tries(front)[i] == outcome;
        assert(shared_tries(events)[i] == outcome);
    } else {
        assert(shared_tries(events)[shared_tries(front).len() as int] == outcome);
    }
}

/// A lookup never gets stuck: it takes every true answer to its question, and
/// goes on from there.
pub proof fn law_lookup_goes_on(
    log: Log,
    dir: Directory,
    log_id: u64,
    offset: u64,
    run: Seq<LookupMoment>,
    event: LookupEvent,
)
    requires
        log.is_valid(),
        represents(dir, log),
        is_lookup_run(log_id, offset, dir, run),
        !(run.last().state is Finished),
        lookup_answered(dir, run.last().request, event),
    ensures
        lookup_expects(run.last().state, event),
        ({
            let (state, request) = lookup_next(log_id, offset, run.last().state, event);
            is_lookup_run(log_id, offset, dir, run.push(LookupMoment { state, request }))
        }),
{
    lemma_lookup_stands(log, dir, log_id, offset, run, run.len() - 1);
    let (state, request) = lookup_next(log_id, offset, run.last().state, event);
    let next = LookupMoment { state, request };
    let longer = run.push(next);
    assert(lookup_expects(run.last().state, event));
    assert(lookup_exchange(log_id, offset, dir, run.last(), next));
    assert forall|i: int, j: int|
        #![trigger longer[i], longer[j]]
        0 <= i && j == i + 1 && j < longer.len() implies lookup_exchange(
        log_id,
        offset,
        dir,
        longer[i],
        longer[j],
    ) by {
        if j < run.len() {
            assert(lookup_exchange(log_id, offset, dir, run[i], run[j]));
        }
    }
}

} // verus!
