//! Finding the line of one history entry.
//!
//! [`Lookup`] decides and asks; whoever drives it performs each
//! [`LookupAction`] and answers with a [`LookupEvent`].

use vstd::prelude::*;

use crate::append::{MAX_RETRIES, RETRY_SLEEP_MILLIS};
use crate::rotation::listed_segments;
use crate::segments::{SegmentSet, SegmentView};
use crate::segments::{active_start, holds_entry, law_entry_in_one_segment};

verus! {

/// The active file, as a lookup finds it.
#[derive(Debug, Clone, Copy, PartialEq, Eq, Structural)]
pub enum ActiveFile {
    /// It could not be opened.
    Missing,
    /// It is open; `id` is its identifier, where there is one to be had.
    Open { id: Option<u64> },
}

/// What came of trying the shared lock of the active file.
#[derive(Debug, Clone, Copy, PartialEq, Eq, Structural)]
pub enum SharedLock {
    Acquired,
    /// Another process holds the file.
    WouldBlock,
    Failed,
}

/// What the driver is asked to do next.
pub enum LookupAction {
    /// List the names in the directory.
    ListDirectory,
    /// Open the active file and read its identifier.
    OpenActive,
    /// Count the lines of a segment.
    CountLines { file_name: String },
    /// Read the identifier of a segment.
    Identify { file_name: String },
    /// Try the shared lock of the active file.
    TryLockShared,
    /// Wait.
    Sleep { millis: u64 },
    /// The entry is this line of the active file, which is locked.
    ReadActive { local: u64 },
    /// The entry is this line of a segment.
    ReadSegment { file_name: String, local: u64 },
    /// There is no such entry, or none that can be read.
    NotFound,
}

/// What a [`LookupAction`] says.
pub enum LookupRequest {
    ListDirectory,
    OpenActive,
    CountLines { file_name: Seq<char> },
    Identify { file_name: Seq<char> },
    TryLockShared,
    Sleep { millis: u64 },
    ReadActive { local: u64 },
    ReadSegment { file_name: Seq<char>, local: u64 },
    NotFound,
}

impl View for LookupAction {
    type V = LookupRequest;

    open spec fn view(&self) -> LookupRequest {
        match *self {
            LookupAction::ListDirectory => LookupRequest::ListDirectory,
            LookupAction::OpenActive => LookupRequest::OpenActive,
            LookupAction::CountLines { file_name } => LookupRequest::CountLines {
                file_name: file_name@,
            },
            LookupAction::Identify { file_name } => LookupRequest::Identify {
                file_name: file_name@,
            },
            LookupAction::TryLockShared => LookupRequest::TryLockShared,
            LookupAction::Sleep { millis } => LookupRequest::Sleep { millis },
            LookupAction::ReadActive { local } => LookupRequest::ReadActive { local },
            LookupAction::ReadSegment { file_name, local } => LookupRequest::ReadSegment {
                file_name: file_name@,
                local,
            },
            LookupAction::NotFound => LookupRequest::NotFound,
        }
    }
}

/// The driver's answer to a [`LookupAction`].
pub enum LookupEvent {
    /// The names in the directory, or none where it could not be listed.
    Listed(Option<Vec<String>>),
    ActiveOpened(ActiveFile),
    /// The number of lines of the segment.
    Counted(u64),
    /// The identifier of the segment, where there is one to be had.
    Identified(Option<u64>),
    LockTried(SharedLock),
    Slept,
}

/// Where a lookup stands.
pub enum LookupState {
    Listing,
    Opening { segments: Seq<SegmentView> },
    Counting { segments: Seq<SegmentView>, active: ActiveFile },
    /// The segments before `next` are not the one that is looked for.
    Searching { segments: Seq<SegmentView>, next: nat },
    /// `attempts` tries of the lock came to nothing.
    Locking { local: u64, attempts: nat },
    Sleeping { local: u64, attempts: nat },
    Finished,
}

/// Whether `offset` counts over the whole history: it does for the identifier
/// of the active file, for zero, which names no file, and while the active file
/// is there but cannot be identified. Any other identifier names a file of its
/// own, whether the active file is there or not.
pub open spec fn is_global(log_id: u64, active: ActiveFile) -> bool {
    log_id == 0 || (match active {
        ActiveFile::Missing => false,
        ActiveFile::Open { id: None } => true,
        ActiveFile::Open { id: Some(id) } => id == log_id,
    })
}

/// Whether `event` answers what was asked for in `state`.
pub open spec fn lookup_expects(state: LookupState, event: LookupEvent) -> bool {
    match state {
        LookupState::Listing => event is Listed,
        LookupState::Opening { .. } => event is ActiveOpened,
        LookupState::Counting { .. } => event is Counted,
        LookupState::Searching { .. } => event is Identified,
        LookupState::Locking { .. } => event is LockTried,
        LookupState::Sleeping { .. } => event is Slept,
        LookupState::Finished => false,
    }
}

/// The next try of the lock after `attempts` that came to nothing, or the end
/// where these were all.
pub open spec fn shared_locking(local: u64, attempts: nat) -> (LookupState, LookupRequest) {
    if attempts < MAX_RETRIES {
        (LookupState::Locking { local, attempts }, LookupRequest::TryLockShared)
    } else {
        (LookupState::Finished, LookupRequest::NotFound)
    }
}

/// The segment that holds the global entry `offset`.
pub open spec fn holder(segments: Seq<SegmentView>, offset: u64, newest_lines: nat) -> int {
    choose|i: int| 0 <= i < segments.len() && holds_entry(segments, i, offset, newest_lines)
}

/// Where the global entry `offset` is found, when the newest segment has
/// `newest_lines` lines.
pub open spec fn resolve_global(
    segments: Seq<SegmentView>,
    active: ActiveFile,
    newest_lines: nat,
    offset: u64,
) -> (LookupState, LookupRequest) {
    let start = active_start(segments, newest_lines);
    if offset >= start {
        if active is Open {
            shared_locking((offset - start) as u64, 0)
        } else {
            (LookupState::Finished, LookupRequest::NotFound)
        }
    } else if exists|i: int|
        0 <= i < segments.len() && holds_entry(segments, i, offset, newest_lines) {
        let i = holder(segments, offset, newest_lines);
        (
            LookupState::Finished,
            LookupRequest::ReadSegment {
                file_name: segments[i].file_name,
                local: (offset - segments[i].start) as u64,
            },
        )
    } else {
        (LookupState::Finished, LookupRequest::NotFound)
    }
}

/// The question for the identifier of the segment at `next`, if there is one.
pub open spec fn searching(segments: Seq<SegmentView>, next: nat) -> (LookupState, LookupRequest) {
    if next < segments.len() {
        (
            LookupState::Searching { segments, next },
            LookupRequest::Identify { file_name: segments[next as int].file_name },
        )
    } else {
        (LookupState::Finished, LookupRequest::NotFound)
    }
}

/// What follows when `event` arrives in `state`. An event that was not asked
/// for has no place here.
pub open spec fn lookup_next(
    log_id: u64,
    offset: u64,
    state: LookupState,
    event: LookupEvent,
) -> (LookupState, LookupRequest) {
    match (state, event) {
        (LookupState::Listing, LookupEvent::Listed(listing)) => (
            LookupState::Opening { segments: listed_segments(listing) },
            LookupRequest::OpenActive,
        ),
        (LookupState::Opening { segments }, LookupEvent::ActiveOpened(active)) => {
            if !is_global(log_id, active) {
                searching(segments, 0)
            } else if segments.len() == 0 {
                resolve_global(segments, active, 0, offset)
            } else {
                (
                    LookupState::Counting { segments, active },
                    LookupRequest::CountLines { file_name: segments.last().file_name },
                )
            }
        },
        (LookupState::Counting { segments, active }, LookupEvent::Counted(n)) => resolve_global(
            segments,
            active,
            n as nat,
            offset,
        ),
        (LookupState::Searching { segments, next }, LookupEvent::Identified(id)) => {
            if id == Some(log_id) {
                (
                    LookupState::Finished,
                    LookupRequest::ReadSegment {
                        file_name: segments[next as int].file_name,
                        local: offset,
                    },
                )
            } else {
                searching(segments, next + 1)
            }
        },
        (LookupState::Locking { local, attempts }, LookupEvent::LockTried(outcome)) => {
            match outcome {
                SharedLock::Acquired => (
                    LookupState::Finished,
                    LookupRequest::ReadActive { local },
                ),
                SharedLock::WouldBlock => (
                    LookupState::Sleeping { local, attempts: attempts + 1 },
                    LookupRequest::Sleep { millis: RETRY_SLEEP_MILLIS },
                ),
                SharedLock::Failed => (LookupState::Finished, LookupRequest::NotFound),
            }
        },
        (LookupState::Sleeping { local, attempts }, LookupEvent::Slept) => shared_locking(
            local,
            attempts,
        ),
        _ => (LookupState::Finished, LookupRequest::NotFound),
    }
}

/// Where a lookup stands that began to try the lock for line `local`, once it
/// found the lock taken `tries` times and every wait is over.
pub open spec fn after_taken(log_id: u64, offset: u64, local: u64, tries: nat) -> (
    LookupState,
    LookupRequest,
)
    decreases tries,
{
    if tries == 0 {
        shared_locking(local, 0)
    } else {
        let state = after_taken(log_id, offset, local, (tries - 1) as nat).0;
        let waiting = lookup_next(
            log_id,
            offset,
            state,
            LookupEvent::LockTried(SharedLock::WouldBlock),
        ).0;
        lookup_next(log_id, offset, waiting, LookupEvent::Slept)
    }
}

/// The shared lock is tried again each time it is found taken, and given up
/// after [`MAX_RETRIES`] times; the try that gets it has the line read.
pub proof fn law_shared_lock_is_retried(log_id: u64, offset: u64, local: u64, tries: nat)
    requires
        tries <= MAX_RETRIES,
    ensures
        after_taken(log_id, offset, local, tries) == shared_locking(local, tries),
        tries == MAX_RETRIES ==> after_taken(log_id, offset, local, tries) == (
            LookupState::Finished,
            LookupRequest::NotFound,
        ),
        tries < MAX_RETRIES ==> lookup_next(
            log_id,
            offset,
            after_taken(log_id, offset, local, tries).0,
            LookupEvent::LockTried(SharedLock::Acquired),
        ) == (LookupState::Finished, LookupRequest::ReadActive { local }),
    decreases tries,
{
    if tries > 0 {
        law_shared_lock_is_retried(log_id, offset, local, (tries - 1) as nat);
    }
}

/// An active file that is open but cannot be identified makes every identifier
/// stand for the whole history, as zero does.
pub proof fn law_unidentified_active_file(
    log_id: u64,
    offset: u64,
    segments: Seq<SegmentView>,
)
    ensures
        lookup_next(
            log_id,
            offset,
            LookupState::Opening { segments },
            LookupEvent::ActiveOpened(ActiveFile::Open { id: None }),
        ) == lookup_next(
            0,
            offset,
            LookupState::Opening { segments },
            LookupEvent::ActiveOpened(ActiveFile::Open { id: None }),
        ),
{
}

/// The identifier of the active file, and zero whatever the active file, lead to
/// the newest segment, whose lines are counted, or at once to the active file
/// where there is no segment. The offset is then the line.
pub proof fn law_whole_history_is_numbered(
    log_id: u64,
    offset: u64,
    segments: Seq<SegmentView>,
    active: ActiveFile,
)
    requires
        log_id == 0 || active == (ActiveFile::Open { id: Some(log_id) }),
    ensures
        ({
            let next = lookup_next(
                log_id,
                offset,
                LookupState::Opening { segments },
                LookupEvent::ActiveOpened(active),
            );
            if segments.len() > 0 {
                next == (
                    LookupState::Counting { segments, active },
                    LookupRequest::CountLines { file_name: segments.last().file_name },
                )
            } else if active is Open {
                next == (
                    LookupState::Locking { local: offset, attempts: 0 },
                    LookupRequest::TryLockShared,
                )
            } else {
                next == (LookupState::Finished, LookupRequest::NotFound)
            }
        }),
{
}

/// Any other identifier is looked for among the segments, from the oldest on,
/// whether the active file is there or not. The one that has it is read at the
/// line of the offset; where none has it, nothing is found.
pub proof fn law_other_identifiers_are_searched(
    log_id: u64,
    offset: u64,
    segments: Seq<SegmentView>,
    active_id: u64,
    next: nat,
    found: Option<u64>,
)
    requires
        log_id != 0,
        log_id != active_id,
        next < segments.len(),
    ensures
        ({
            let opened = lookup_next(
                log_id,
                offset,
                LookupState::Opening { segments },
                LookupEvent::ActiveOpened(ActiveFile::Open { id: Some(active_id) }),
            );
            let missing = lookup_next(
                log_id,
                offset,
                LookupState::Opening { segments },
                LookupEvent::ActiveOpened(ActiveFile::Missing),
            );
            &&& opened == missing
            &&& opened == (
                LookupState::Searching { segments, next: 0 },
                LookupRequest::Identify { file_name: segments[0].file_name },
            )
        }),
        ({
            let none: Seq<SegmentView> = Seq::empty();
            lookup_next(
                log_id,
                offset,
                LookupState::Opening { segments: none },
                LookupEvent::ActiveOpened(ActiveFile::Open { id: Some(active_id) }),
            ) == (LookupState::Finished, LookupRequest::NotFound)
        }),
        ({
            let none: Seq<SegmentView> = Seq::empty();
            lookup_next(
                log_id,
                offset,
                LookupState::Opening { segments: none },
                LookupEvent::ActiveOpened(ActiveFile::Missing),
            ) == (LookupState::Finished, LookupRequest::NotFound)
        }),
        lookup_next(
            log_id,
            offset,
            LookupState::Searching { segments, next },
            LookupEvent::Identified(found),
        ) == (if found == Some(log_id) {
            (
                LookupState::Finished,
                LookupRequest::ReadSegment {
                    file_name: segments[next as int].file_name,
                    local: offset,
                },
            )
        } else if next + 1 < segments.len() {
            (
                LookupState::Searching { segments, next: next + 1 },
                LookupRequest::Identify { file_name: segments[(next + 1) as int].file_name },
            )
        } else {
            (LookupState::Finished, LookupRequest::NotFound)
        }),
{
}

/// Where the newest segment ends, as far as the numbering goes, the active file
/// begins: an offset from there on is a line of the active file, if there is one.
/// An offset before it is a line of the segment whose extent it lies in, and of
/// none if it lies before them all.
pub proof fn law_offsets_are_resolved(
    log_id: u64,
    offset: u64,
    segments: Seq<SegmentView>,
    active: ActiveFile,
    lines: u64,
)
    requires
        segments.len() > 0,
        forall|i: int, j: int|
            0 <= i <= j < segments.len() ==> (#[trigger] segments[i]).start <= (
            #[trigger] segments[j]).start,
    ensures
        ({
            let end = segments.last().start + lines;
            let begin = if end <= u64::MAX {
                end
            } else {
                u64::MAX as int
            };
            let next = lookup_next(
                log_id,
                offset,
                LookupState::Counting { segments, active },
                LookupEvent::Counted(lines),
            );
            &&& offset >= begin && active is Open ==> next == (
                LookupState::Locking { local: (offset - begin) as u64, attempts: 0 },
                LookupRequest::TryLockShared,
            )
            &&& offset >= begin && active is Missing ==> next == (
                LookupState::Finished,
                LookupRequest::NotFound,
            )
            &&& forall|i: int|
                0 <= i < segments.len() && (#[trigger] segments[i]).start <= offset < (if i + 1
                    < segments.len() {
                    segments[i + 1].start as int
                } else {
                    end
                }) && offset < begin ==> next == (
                    LookupState::Finished,
                    LookupRequest::ReadSegment {
                        file_name: segments[i].file_name,
                        local: (offset - segments[i].start) as u64,
                    },
                )
            &&& offset < segments[0].start ==> next == (
                LookupState::Finished,
                LookupRequest::NotFound,
            )
        }),
{
    let end = segments.last().start + lines;
    let begin = if end <= u64::MAX {
        end
    } else {
        u64::MAX as int
    };
    let n = lines as nat;
    let next = lookup_next(
        log_id,
        offset,
        LookupState::Counting { segments, active },
        LookupEvent::Counted(lines),
    );
    assert forall|i: int|
        0 <= i < segments.len() && (#[trigger] segments[i]).start <= offset < (if i + 1
            < segments.len() {
            segments[i + 1].start as int
        } else {
            end
        }) && offset < begin implies next == (
        LookupState::Finished,
        LookupRequest::ReadSegment {
            file_name: segments[i].file_name,
            local: (offset - segments[i].start) as u64,
        },
    ) by {
        assert(holds_entry(segments, i, offset, n));
        law_entry_in_one_segment(segments, i, holder(segments, offset, n), offset, n);
    }
    if offset < segments[0].start {
        assert forall|i: int| 0 <= i < segments.len() implies !holds_entry(
            segments,
            i,
            offset,
            n,
        ) by {
            assert(segments[0].start <= segments[i].start);
        }
    }
}

/// The listing is taken first, then the active file is opened.
pub proof fn law_lookup_lists_first(
    log_id: u64,
    offset: u64,
    listing: Option<Vec<String>>,
)
    ensures
        lookup_next(log_id, offset, LookupState::Listing, LookupEvent::Listed(listing)) == (
            LookupState::Opening { segments: listed_segments(listing) },
            LookupRequest::OpenActive,
        ),
{
}

/// A shared lock that is won has the line read; one that is taken is waited for,
/// a tenth of a second each time, up to ten times; one that fails ends the lookup.
pub proof fn law_shared_lock_outcomes(
    log_id: u64,
    offset: u64,
    local: u64,
    attempts: nat,
)
    requires
        attempts < 10,
    ensures
        lookup_next(
            log_id,
            offset,
            LookupState::Locking { local, attempts },
            LookupEvent::LockTried(SharedLock::Acquired),
        ) == (LookupState::Finished, LookupRequest::ReadActive { local }),
        lookup_next(
            log_id,
            offset,
            LookupState::Locking { local, attempts },
            LookupEvent::LockTried(SharedLock::Failed),
        ) == (LookupState::Finished, LookupRequest::NotFound),
        lookup_next(
            log_id,
            offset,
            LookupState::Locking { local, attempts },
            LookupEvent::LockTried(SharedLock::WouldBlock),
        ) == (
            LookupState::Sleeping { local, attempts: attempts + 1 },
            LookupRequest::Sleep { millis: 100 },
        ),
        lookup_next(
            log_id,
            offset,
            LookupState::Sleeping { local, attempts: attempts + 1 },
            LookupEvent::Slept,
        ) == (if attempts + 1 < 10 {
            (
                LookupState::Locking { local, attempts: attempts + 1 },
                LookupRequest::TryLockShared,
            )
        } else {
            (LookupState::Finished, LookupRequest::NotFound)
        }),
{
}

/// Each question takes every answer of its own kind, whatever it says, and no
/// other; after the end there is nothing to answer.
pub proof fn law_lookup_takes_every_answer(
    segments: Seq<SegmentView>,
    active: ActiveFile,
    next: nat,
    local: u64,
    attempts: nat,
    event: LookupEvent,
)
    ensures
        lookup_expects(LookupState::Listing, event) <==> event is Listed,
        lookup_expects(LookupState::Opening { segments }, event) <==> event is ActiveOpened,
        lookup_expects(LookupState::Counting { segments, active }, event) <==> event is Counted,
        lookup_expects(LookupState::Searching { segments, next }, event) <==> event is Identified,
        lookup_expects(LookupState::Locking { local, attempts }, event) <==> event is LockTried,
        lookup_expects(LookupState::Sleeping { local, attempts }, event) <==> event is Slept,
        !lookup_expects(LookupState::Finished, event),
{
}

/// What an action says is what it holds.
pub proof fn law_lookup_action_says_what_it_holds(action: LookupAction)
    ensures
        match action {
            LookupAction::ListDirectory => action@ == LookupRequest::ListDirectory,
            LookupAction::OpenActive => action@ == LookupRequest::OpenActive,
            LookupAction::CountLines { file_name } => action@ == (LookupRequest::CountLines {
                file_name: file_name@,
            }),
            LookupAction::Identify { file_name } => action@ == (LookupRequest::Identify {
                file_name: file_name@,
            }),
            LookupAction::TryLockShared => action@ == LookupRequest::TryLockShared,
            LookupAction::Sleep { millis } => action@ == (LookupRequest::Sleep { millis }),
            LookupAction::ReadActive { local } => action@ == (LookupRequest::ReadActive { local }),
            LookupAction::ReadSegment { file_name, local } => action@
                == (LookupRequest::ReadSegment { file_name: file_name@, local }),
            LookupAction::NotFound => action@ == LookupRequest::NotFound,
        },
{
}

enum Stage {
    Listing,
    Opening { set: SegmentSet },
    Counting { set: SegmentSet, active: ActiveFile },
    Searching { set: SegmentSet, next: usize },
    Locking { local: u64, attempts: usize },
    Sleeping { local: u64, attempts: usize },
    Finished,
}

/// Looks up a single history entry by file identity and zero-based offset.
///
/// An identifier of zero, that of the active file, or any while the active file
/// is open but cannot be identified, makes `offset` count over rotated segments
/// and active file together. Another identifier predates a rotation: it names
/// what is now an immutable segment, and `offset` is local to that file, also
/// while the active file is missing. One that names no file finds nothing.
///
/// Its view is where it stands.
pub struct Lookup {
    log_id: u64,
    offset: u64,
    stage: Stage,
}

impl View for Lookup {
    type V = LookupState;

    closed spec fn view(&self) -> LookupState {
        state_of(self.stage)
    }
}

spec fn state_of(stage: Stage) -> LookupState {
    match stage {
        Stage::Listing => LookupState::Listing,
        Stage::Opening { set } => LookupState::Opening { segments: set@ },
        Stage::Counting { set, active } => LookupState::Counting { segments: set@, active },
        Stage::Searching { set, next } => LookupState::Searching {
            segments: set@,
            next: next as nat,
        },
        Stage::Locking { local, attempts } => LookupState::Locking {
            local,
            attempts: attempts as nat,
        },
        Stage::Sleeping { local, attempts } => LookupState::Sleeping {
            local,
            attempts: attempts as nat,
        },
        Stage::Finished => LookupState::Finished,
    }
}

spec fn in_bounds(stage: Stage) -> bool {
    &&& stage matches Stage::Locking { attempts, .. } ==> attempts < MAX_RETRIES
    &&& stage matches Stage::Searching { set, next } ==> next < set@.len() && next < usize::MAX
}

/// Asks for the identifier of the segment at `next`, if there is one.
fn search(set: SegmentSet, next: usize) -> (r: (Stage, LookupAction))
    ensures
        (state_of(r.0), r.1@) == searching(set@, next as nat),
        in_bounds(r.0),
{
    if next < set.len() {
        let candidate: Option<String> = match set.get(next) {
            Some(segment) => Some(segment.file_name.clone()),
            None => None,
        };
        match candidate {
            Some(file_name) => {
                return (Stage::Searching { set, next }, LookupAction::Identify { file_name });
            },
            None => {},
        }
    }
    (Stage::Finished, LookupAction::NotFound)
}

/// Tries the shared lock once more, unless it was tried often enough.
///
/// Rotated segments are read without locking because they are frozen after
/// rotation.
fn lock_shared(local: u64, attempts: usize) -> (r: (Stage, LookupAction))
    ensures
        (state_of(r.0), r.1@) == shared_locking(local, attempts as nat),
        in_bounds(r.0),
{
    if attempts < MAX_RETRIES {
        (Stage::Locking { local, attempts }, LookupAction::TryLockShared)
    } else {
        (Stage::Finished, LookupAction::NotFound)
    }
}

/// Finds the file and line of the global entry `offset`.
fn resolve(set: SegmentSet, active: ActiveFile, newest_lines: u64, offset: u64) -> (r: (
    Stage,
    LookupAction,
))
    ensures
        (state_of(r.0), r.1@) == resolve_global(set@, active, newest_lines as nat, offset),
        in_bounds(r.0),
{
    let start: u64 = set.active_start(newest_lines);
    if offset >= start {
        match active {
            ActiveFile::Open { .. } => lock_shared(offset - start, 0),
            ActiveFile::Missing => (Stage::Finished, LookupAction::NotFound),
        }
    } else {
        match set.locate(offset, newest_lines) {
            Some((index, local)) => {
                assert(holds_entry(set@, index as int, offset, newest_lines as nat));
                match set.get(index) {
                    Some(segment) => (
                        Stage::Finished,
                        LookupAction::ReadSegment { file_name: segment.file_name.clone(), local },
                    ),
                    None => (Stage::Finished, LookupAction::NotFound),
                }
            },
            None => (Stage::Finished, LookupAction::NotFound),
        }
    }
}

impl Lookup {
    #[verifier::type_invariant]
    spec fn inv(self) -> bool {
        in_bounds(self.stage)
    }

    /// The caller's identifier.
    pub closed spec fn log_id(&self) -> u64 {
        self.log_id
    }

    /// The caller's offset.
    pub closed spec fn offset(&self) -> u64 {
        self.offset
    }

    /// Begins.
    pub fn start(log_id: u64, offset: usize) -> (r: (Self, LookupAction))
        ensures
            r.0.log_id() == log_id,
            r.0.offset() == offset,
            r.0@ == LookupState::Listing,
            r.1@ == LookupRequest::ListDirectory,
    {
        (
            Lookup { log_id, offset: offset as u64, stage: Stage::Listing },
            LookupAction::ListDirectory,
        )
    }

    /// Whether `event` answers what was asked for.
    pub fn expects(&self, event: &LookupEvent) -> (r: bool)
        ensures
            r == lookup_expects(self@, *event),
    {
        match (&self.stage, event) {
            (Stage::Listing, LookupEvent::Listed(_)) => true,
            (Stage::Opening { .. }, LookupEvent::ActiveOpened(_)) => true,
            (Stage::Counting { .. }, LookupEvent::Counted(_)) => true,
            (Stage::Searching { .. }, LookupEvent::Identified(_)) => true,
            (Stage::Locking { .. }, LookupEvent::LockTried(_)) => true,
            (Stage::Sleeping { .. }, LookupEvent::Slept) => true,
            _ => false,
        }
    }

    /// Takes in the answer to the last action and says what comes next.
    pub fn step(self, event: LookupEvent) -> (r: (Self, LookupAction))
        requires
            lookup_expects(self@, event),
        ensures
            r.0.log_id() == self.log_id(),
            r.0.offset() == self.offset(),
            (r.0@, r.1@) == lookup_next(self.log_id(), self.offset(), self@, event),
    {
        proof {
            use_type_invariant(&self);
        }
        let Lookup { log_id, offset, stage } = self;
        let (next_stage, action): (Stage, LookupAction) = match (stage, event) {
            (Stage::Listing, LookupEvent::Listed(listing)) => (
                Stage::Opening { set: SegmentSet::scan(listing) },
                LookupAction::OpenActive,
            ),
            (Stage::Opening { set }, LookupEvent::ActiveOpened(active)) => {
                let global: bool = log_id == 0 || (match active {
                    ActiveFile::Missing => false,
                    ActiveFile::Open { id: None } => true,
                    ActiveFile::Open { id: Some(id) } => id == log_id,
                });
                if !global {
                    search(set, 0)
                } else {
                    let newest_name: Option<String> = match set.newest() {
                        Some(newest) => Some(newest.file_name.clone()),
                        None => None,
                    };
                    match newest_name {
                        Some(file_name) => (
                            Stage::Counting { set, active },
                            LookupAction::CountLines { file_name },
                        ),
                        None => resolve(set, active, 0, offset),
                    }
                }
            },
            (Stage::Counting { set, active }, LookupEvent::Counted(newest_lines)) => resolve(
                set,
                active,
                newest_lines,
                offset,
            ),
            (Stage::Searching { set, next }, LookupEvent::Identified(id)) => {
                if id == Some(log_id) {
                    match set.get(next) {
                        Some(segment) => (
                            Stage::Finished,
                            LookupAction::ReadSegment {
                                file_name: segment.file_name.clone(),
                                local: offset,
                            },
                        ),
                        None => (Stage::Finished, LookupAction::NotFound),
                    }
                } else {
                    search(set, next + 1)
                }
            },
            (Stage::Locking { local, attempts }, LookupEvent::LockTried(outcome)) => match outcome {
                SharedLock::Acquired => (Stage::Finished, LookupAction::ReadActive { local }),
                SharedLock::WouldBlock => (
                    Stage::Sleeping { local, attempts: attempts + 1 },
                    LookupAction::Sleep { millis: RETRY_SLEEP_MILLIS },
                ),
                SharedLock::Failed => (Stage::Finished, LookupAction::NotFound),
            },
            (Stage::Sleeping { local, attempts }, LookupEvent::Slept) => lock_shared(
                local,
                attempts,
            ),
            _ => (Stage::Finished, LookupAction::NotFound),
        };
        (Lookup { log_id, offset, stage: next_stage }, action)
    }
}

} // verus!
