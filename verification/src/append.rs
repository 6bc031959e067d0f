//! Appending one entry to the history.
//!
//! [`Append`] decides and asks; whoever drives it performs each
//! [`AppendAction`] and answers with an [`AppendEvent`].

use vstd::prelude::*;

use crate::config::{HistoryConfig, HistoryPersistence};
use crate::entry::{history_line, EntryView, HistoryEntry};

verus! {

/// How often the lock is tried before giving up.
pub const MAX_RETRIES: usize = 10;

/// How long to wait, in milliseconds, after the lock was found taken.
pub const RETRY_SLEEP_MILLIS: u64 = 100;

/// The permission bits that a history file must have: read and write for its
/// owner alone.
pub const OWNER_ONLY: u32 = 0o600;

/// What is said of a lock that stayed taken.
pub const LOCK_CONTENDED: &'static str =
    "could not acquire exclusive lock on history file after multiple attempts";

/// Identity of a file, as far as it can be told.
#[derive(Debug, Clone, Copy, PartialEq, Eq, Structural)]
pub enum FileIdentity {
    /// There is no such file.
    Missing,
    /// The metadata could not be read.
    Unreadable,
    /// The platform gives files no identity.
    Unsupported,
    Known(u64),
}

/// Whether a handle and a path with these identities are one file.
pub open spec fn same_file(handle: FileIdentity, path: FileIdentity) -> bool {
    match (handle, path) {
        (FileIdentity::Missing | FileIdentity::Unreadable, _) => false,
        (_, FileIdentity::Missing | FileIdentity::Unreadable) => false,
        (FileIdentity::Known(a), FileIdentity::Known(b)) => a == b,
        _ => true,
    }
}

/// Returns whether a locked handle still refers to the file at the path.
///
/// A concurrent rotation renames the active file after another writer opened
/// it but before that writer acquired the lock; comparing identities detects
/// the swap. Platforms with no file identity treat every handle as current.
pub fn locked_handle_matches_path(handle: FileIdentity, path: FileIdentity) -> (r: bool)
    ensures
        r == same_file(handle, path),
{
    match (handle, path) {
        (FileIdentity::Missing | FileIdentity::Unreadable, _) => false,
        (_, FileIdentity::Missing | FileIdentity::Unreadable) => false,
        (FileIdentity::Known(a), FileIdentity::Known(b)) => a == b,
        _ => true,
    }
}

/// Whether `mode` keeps everyone but the owner out, and lets the owner read
/// and write.
pub open spec fn is_owner_only(mode: u32) -> bool {
    mode & 0o777 == OWNER_ONLY
}

/// What came of opening the active file and trying its exclusive lock.
pub enum LockOutcome<E> {
    /// The lock is held; these are the identities of the handle and of the
    /// file that the path now names.
    Acquired { handle: FileIdentity, path: FileIdentity },
    /// Another process holds it.
    WouldBlock,
    Failed(E),
}

/// Why an entry was not appended.
pub enum AppendError<E> {
    /// What the driver reported.
    Io(E),
    Other(String),
    /// The lock stayed out of reach.
    LockContended,
}

/// What an [`AppendError`] says.
pub enum AppendFailure<E> {
    Io(E),
    Other(Seq<char>),
    LockContended,
}

impl<E> View for AppendError<E> {
    type V = AppendFailure<E>;

    open spec fn view(&self) -> AppendFailure<E> {
        match *self {
            AppendError::Io(e) => AppendFailure::Io(e),
            AppendError::Other(message) => AppendFailure::Other(message@),
            AppendError::LockContended => AppendFailure::LockContended,
        }
    }
}

/// What the driver is asked to do next.
pub enum AppendAction<E> {
    /// Create the directory of the history, with its parents.
    CreateDirectory,
    /// Read the clock, in seconds since the Unix epoch.
    ReadClock,
    /// Turn the entry into a JSON record.
    Serialize(HistoryEntry),
    /// Open the active file, creating it where it is missing, and read its
    /// permission bits.
    ReadMode,
    /// Set the permission bits of the file just opened.
    SetMode { mode: u32 },
    /// Open the active file anew, creating it where it is missing, and try its
    /// exclusive lock.
    TryLock,
    /// Wait.
    Sleep { millis: u64 },
    /// Write the line at the end of the locked file, in one piece.
    WriteLine { line: String },
    /// Run the rotation with this cap, the lock still held.
    Rotate { max_bytes: Option<usize> },
    /// Nothing more: this is the outcome.
    Finish(Result<(), AppendError<E>>),
}

/// What an [`AppendAction`] says.
pub enum AppendRequest<E> {
    CreateDirectory,
    ReadClock,
    Serialize(EntryView),
    ReadMode,
    SetMode { mode: u32 },
    TryLock,
    Sleep { millis: u64 },
    WriteLine { line: Seq<char> },
    Rotate { max_bytes: Option<usize> },
    Finish(Result<(), AppendFailure<E>>),
}

impl<E> View for AppendAction<E> {
    type V = AppendRequest<E>;

    open spec fn view(&self) -> AppendRequest<E> {
        match *self {
            AppendAction::CreateDirectory => AppendRequest::CreateDirectory,
            AppendAction::ReadClock => AppendRequest::ReadClock,
            AppendAction::Serialize(entry) => AppendRequest::Serialize(entry@),
            AppendAction::ReadMode => AppendRequest::ReadMode,
            AppendAction::SetMode { mode } => AppendRequest::SetMode { mode },
            AppendAction::TryLock => AppendRequest::TryLock,
            AppendAction::Sleep { millis } => AppendRequest::Sleep { millis },
            AppendAction::WriteLine { line } => AppendRequest::WriteLine { line: line@ },
            AppendAction::Rotate { max_bytes } => AppendRequest::Rotate { max_bytes },
            AppendAction::Finish(Ok(())) => AppendRequest::Finish(Ok(())),
            AppendAction::Finish(Err(e)) => AppendRequest::Finish(Err(e@)),
        }
    }
}

/// The driver's answer to an [`AppendAction`].
pub enum AppendEvent<E> {
    /// The action was performed, or failed.
    Done(Result<(), E>),
    /// The seconds, or what is wrong with the clock.
    Clock(Result<u64, String>),
    /// The record, or why there is none.
    Serialized(Result<String, String>),
    /// The permission bits; none where the platform has none.
    Mode(Result<Option<u32>, E>),
    LockTried(LockOutcome<E>),
    Slept,
}

/// Where an append stands.
pub enum AppendState {
    CreatingDirectory { session_id: Seq<char>, text: Seq<char> },
    ReadingClock { session_id: Seq<char>, text: Seq<char> },
    Serializing,
    ReadingMode { line: Seq<char> },
    SettingMode { line: Seq<char> },
    /// `attempts` tries of the lock came to nothing.
    Locking { line: Seq<char>, attempts: nat },
    Sleeping { line: Seq<char>, attempts: nat },
    Writing,
    Rotating,
    Finished,
}

/// Whether `event` answers what was asked for in `state`.
pub open spec fn append_expects<E>(state: AppendState, event: AppendEvent<E>) -> bool {
    match state {
        AppendState::CreatingDirectory { .. } => event is Done,
        AppendState::ReadingClock { .. } => event is Clock,
        AppendState::Serializing => event is Serialized,
        AppendState::ReadingMode { .. } => event is Mode,
        AppendState::SettingMode { .. } => event is Done,
        AppendState::Locking { .. } => event is LockTried,
        AppendState::Sleeping { .. } => event is Slept,
        AppendState::Writing => event is Done,
        AppendState::Rotating => event is Done,
        AppendState::Finished => false,
    }
}

/// The outcome.
pub open spec fn append_finished<E>(outcome: Result<(), AppendFailure<E>>) -> (
    AppendState,
    AppendRequest<E>,
) {
    (AppendState::Finished, AppendRequest::Finish(outcome))
}

/// The next try of the lock after `attempts` that came to nothing, or the end
/// where these were all.
pub open spec fn locking<E>(line: Seq<char>, attempts: nat) -> (AppendState, AppendRequest<E>) {
    if attempts < MAX_RETRIES {
        (AppendState::Locking { line, attempts }, AppendRequest::TryLock)
    } else {
        append_finished(Err(AppendFailure::LockContended))
    }
}

/// How an append begins: not at all where nothing is to be recorded.
pub open spec fn append_begins<E>(
    persistence: HistoryPersistence,
    session_id: Seq<char>,
    text: Seq<char>,
) -> (AppendState, AppendRequest<E>) {
    match persistence {
        HistoryPersistence::SaveAll => (
            AppendState::CreatingDirectory { session_id, text },
            AppendRequest::CreateDirectory,
        ),
        HistoryPersistence::Disabled => append_finished(Ok(())),
    }
}

/// What follows when `event` arrives in `state`. An event that was not asked
/// for has no place here.
pub open spec fn append_next<E>(
    max_bytes: Option<usize>,
    state: AppendState,
    event: AppendEvent<E>,
) -> (AppendState, AppendRequest<E>) {
    match (state, event) {
        (AppendState::CreatingDirectory { session_id, text }, AppendEvent::Done(Ok(_))) => (
            AppendState::ReadingClock { session_id, text },
            AppendRequest::ReadClock,
        ),
        (AppendState::ReadingClock { session_id, text }, AppendEvent::Clock(Ok(ts))) => (
            AppendState::Serializing,
            AppendRequest::Serialize(EntryView { session_id, ts, text }),
        ),
        (AppendState::ReadingClock { .. }, AppendEvent::Clock(Err(message))) => append_finished(
            Err(AppendFailure::Other("system clock before Unix epoch: "@ + message@)),
        ),
        (AppendState::Serializing, AppendEvent::Serialized(Ok(record))) => (
            AppendState::ReadingMode { line: record@.push('\n') },
            AppendRequest::ReadMode,
        ),
        (AppendState::Serializing, AppendEvent::Serialized(Err(message))) => append_finished(
            Err(AppendFailure::Other("failed to serialise history entry: "@ + message@)),
        ),
        (AppendState::ReadingMode { line }, AppendEvent::Mode(Ok(Some(mode)))) => {
            if is_owner_only(mode) {
                locking(line, 0)
            } else {
                (AppendState::SettingMode { line }, AppendRequest::SetMode { mode: OWNER_ONLY })
            }
        },
        (AppendState::ReadingMode { line }, AppendEvent::Mode(Ok(None))) => locking(line, 0),
        (AppendState::ReadingMode { .. }, AppendEvent::Mode(Err(e))) => append_finished(
            Err(AppendFailure::Io(e)),
        ),
        (AppendState::SettingMode { line }, AppendEvent::Done(Ok(_))) => locking(line, 0),
        (AppendState::Locking { line, attempts }, AppendEvent::LockTried(outcome)) => {
            match outcome {
                LockOutcome::Acquired { handle, path } => if same_file(handle, path) {
                    (AppendState::Writing, AppendRequest::WriteLine { line })
                } else {
                    locking(line, attempts + 1)
                },
                LockOutcome::WouldBlock => (
                    AppendState::Sleeping { line, attempts: attempts + 1 },
                    AppendRequest::Sleep { millis: RETRY_SLEEP_MILLIS },
                ),
                LockOutcome::Failed(e) => append_finished(Err(AppendFailure::Io(e))),
            }
        },
        (AppendState::Sleeping { line, attempts }, AppendEvent::Slept) => locking(line, attempts),
        (AppendState::Writing, AppendEvent::Done(Ok(_))) => (
            AppendState::Rotating,
            AppendRequest::Rotate { max_bytes },
        ),
        (AppendState::Rotating, AppendEvent::Done(Ok(_))) => append_finished(Ok(())),
        (_, AppendEvent::Done(Err(e))) => append_finished(Err(AppendFailure::Io(e))),
        _ => append_finished(Ok(())),
    }
}

/// Whether a try of the lock with this outcome came to nothing and is to be
/// repeated: the lock was taken, or a rotation race was lost.
pub open spec fn is_miss<E>(outcome: LockOutcome<E>) -> bool {
    match outcome {
        LockOutcome::Acquired { handle, path } => !same_file(handle, path),
        LockOutcome::WouldBlock => true,
        LockOutcome::Failed(_) => false,
    }
}

/// Where an append stands that began to try the lock, once the tries had these
/// outcomes and every wait is over.
pub open spec fn after_tries<E>(
    max_bytes: Option<usize>,
    line: Seq<char>,
    outcomes: Seq<LockOutcome<E>>,
) -> (AppendState, AppendRequest<E>)
    decreases outcomes.len(),
{
    if outcomes.len() == 0 {
        locking(line, 0)
    } else {
        let state = after_tries(max_bytes, line, outcomes.drop_last()).0;
        let (reached, request) = append_next(
            max_bytes,
            state,
            AppendEvent::LockTried(outcomes.last()),
        );
        if reached is Sleeping {
            append_next(max_bytes, reached, AppendEvent::Slept)
        } else {
            (reached, request)
        }
    }
}

/// The lock is tried again after every miss, and given up after
/// [`MAX_RETRIES`] of them; the first try that is no miss gets the line written.
pub proof fn law_lock_is_retried<E>(
    max_bytes: Option<usize>,
    line: Seq<char>,
    misses: Seq<LockOutcome<E>>,
)
    requires
        misses.len() <= MAX_RETRIES,
        forall|i: int| 0 <= i < misses.len() ==> is_miss(#[trigger] misses[i]),
    ensures
        after_tries(max_bytes, line, misses) == locking::<E>(line, misses.len()),
        misses.len() < MAX_RETRIES ==> after_tries(max_bytes, line, misses) == (
            AppendState::Locking { line, attempts: misses.len() },
            AppendRequest::<E>::TryLock,
        ),
        misses.len() == MAX_RETRIES ==> after_tries(max_bytes, line, misses)
            == append_finished::<E>(Err(AppendFailure::LockContended)),
        misses.len() < MAX_RETRIES ==> forall|handle: FileIdentity, path: FileIdentity|
            #[trigger] same_file(handle, path) ==> after_tries(
                max_bytes,
                line,
                misses.push(LockOutcome::Acquired { handle, path }),
            ) == (AppendState::Writing, AppendRequest::<E>::WriteLine { line }),
    decreases misses.len(),
{
    if misses.len() > 0 {
        law_lock_is_retried(max_bytes, line, misses.drop_last());
        assert(is_miss(misses[misses.len() - 1]));
    }
    assert(after_tries(max_bytes, line, misses) == locking::<E>(line, misses.len()));
    assert forall|handle: FileIdentity, path: FileIdentity|
        misses.len() < MAX_RETRIES && #[trigger] same_file(handle, path) implies after_tries(
        max_bytes,
        line,
        misses.push(LockOutcome::Acquired { handle, path }),
    ) == (AppendState::Writing, AppendRequest::<E>::WriteLine { line }) by {
        let all = misses.push(LockOutcome::Acquired { handle, path });
        assert(all.drop_last() =~= misses);
    }
}

/// With recording turned off an append is over before it begins, with success,
/// whatever there is to record, and takes no answer; else it begins by having the
/// directory created.
pub proof fn law_persistence_decides<E>(
    session_id: Seq<char>,
    text: Seq<char>,
    event: AppendEvent<E>,
)
    ensures
        append_begins::<E>(HistoryPersistence::Disabled, session_id, text) == (
            AppendState::Finished,
            AppendRequest::<E>::Finish(Ok(())),
        ),
        !append_expects(
            append_begins::<E>(HistoryPersistence::Disabled, session_id, text).0,
            event,
        ),
        append_begins::<E>(HistoryPersistence::SaveAll, session_id, text) == (
            AppendState::CreatingDirectory { session_id, text },
            AppendRequest::<E>::CreateDirectory,
        ),
{
}

/// A handle and a path are one file when both are identified and alike. One that
/// is missing or cannot be read is never the same as another; where files have no
/// identity, every handle is taken for current.
pub proof fn law_files_are_told_apart(a: u64, b: u64, other: FileIdentity)
    ensures
        same_file(FileIdentity::Known(a), FileIdentity::Known(b)) <==> a == b,
        !same_file(FileIdentity::Missing, other),
        !same_file(other, FileIdentity::Missing),
        !same_file(FileIdentity::Unreadable, other),
        !same_file(other, FileIdentity::Unreadable),
        other is Known || other is Unsupported ==> {
            &&& same_file(FileIdentity::Unsupported, other)
            &&& same_file(other, FileIdentity::Unsupported)
        },
{
}

/// Whatever goes wrong ends the append and is reported: an I/O error as it is,
/// what the clock or the serialiser says behind a few words on the occasion.
pub proof fn law_append_reports_failures<E>(
    max_bytes: Option<usize>,
    state: AppendState,
    event: AppendEvent<E>,
)
    requires
        append_expects(state, event),
    ensures
        event matches AppendEvent::Done(Err(e)) ==> append_next(max_bytes, state, event) == (
            AppendState::Finished,
            AppendRequest::<E>::Finish(Err(AppendFailure::Io(e))),
        ),
        event matches AppendEvent::Mode(Err(e)) ==> append_next(max_bytes, state, event) == (
            AppendState::Finished,
            AppendRequest::<E>::Finish(Err(AppendFailure::Io(e))),
        ),
        event matches AppendEvent::LockTried(LockOutcome::Failed(e)) ==> append_next(
            max_bytes,
            state,
            event,
        ) == (AppendState::Finished, AppendRequest::<E>::Finish(Err(AppendFailure::Io(e)))),
        event matches AppendEvent::Clock(Err(message)) ==> append_next(max_bytes, state, event) == (
            AppendState::Finished,
            AppendRequest::<E>::Finish(
                Err(AppendFailure::Other("system clock before Unix epoch: "@ + message@)),
            ),
        ),
        event matches AppendEvent::Serialized(Err(message)) ==> append_next(
            max_bytes,
            state,
            event,
        ) == (
            AppendState::Finished,
            AppendRequest::<E>::Finish(
                Err(AppendFailure::Other("failed to serialise history entry: "@ + message@)),
            ),
        ),
{
}

/// Up to the lock, success leads on: the entry that is serialised has the
/// caller's session and text and the time of the clock, and the line is the
/// record and a newline.
pub proof fn law_append_prepares_the_line<E>(
    max_bytes: Option<usize>,
    session_id: Seq<char>,
    text: Seq<char>,
    ts: u64,
    record: String,
)
    ensures
        append_next::<E>(
            max_bytes,
            AppendState::CreatingDirectory { session_id, text },
            AppendEvent::Done(Ok(())),
        ) == (
            AppendState::ReadingClock { session_id, text },
            AppendRequest::<E>::ReadClock,
        ),
        append_next::<E>(
            max_bytes,
            AppendState::ReadingClock { session_id, text },
            AppendEvent::Clock(Ok(ts)),
        ) == (
            AppendState::Serializing,
            AppendRequest::<E>::Serialize(EntryView { session_id, ts, text }),
        ),
        append_next::<E>(
            max_bytes,
            AppendState::Serializing,
            AppendEvent::Serialized(Ok(record)),
        ) == (
            AppendState::ReadingMode { line: record@.push('\n') },
            AppendRequest::<E>::ReadMode,
        ),
{
}

/// The permission bits are set to read and write for the owner alone exactly
/// where they are something else; then the lock is tried.
pub proof fn law_file_is_made_private<E>(
    max_bytes: Option<usize>,
    line: Seq<char>,
    mode: u32,
)
    ensures
        append_next::<E>(
            max_bytes,
            AppendState::ReadingMode { line },
            AppendEvent::Mode(Ok(Some(mode))),
        ) == (if mode & 0o777 == 0o600 {
            (AppendState::Locking { line, attempts: 0 }, AppendRequest::<E>::TryLock)
        } else {
            (AppendState::SettingMode { line }, AppendRequest::<E>::SetMode { mode: 0o600 })
        }),
        append_next::<E>(
            max_bytes,
            AppendState::ReadingMode { line },
            AppendEvent::Mode(Ok(None)),
        ) == (AppendState::Locking { line, attempts: 0 }, AppendRequest::<E>::TryLock),
        append_next::<E>(
            max_bytes,
            AppendState::SettingMode { line },
            AppendEvent::Done(Ok(())),
        ) == (AppendState::Locking { line, attempts: 0 }, AppendRequest::<E>::TryLock),
{
}

/// A lock that is taken is waited for, a tenth of a second each time; one that
/// was won on a file that has been rotated away is tried again at once. One that
/// was won on the current file has the line written, and then the rotation run
/// with the cap of the settings; that done, the append has succeeded.
pub proof fn law_lock_outcomes<E>(
    max_bytes: Option<usize>,
    line: Seq<char>,
    attempts: nat,
    a: u64,
    b: u64,
)
    requires
        attempts < 10,
    ensures
        append_next::<E>(
            max_bytes,
            AppendState::Locking { line, attempts },
            AppendEvent::LockTried(LockOutcome::WouldBlock),
        ) == (
            AppendState::Sleeping { line, attempts: attempts + 1 },
            AppendRequest::<E>::Sleep { millis: 100 },
        ),
        a != b ==> append_next::<E>(
            max_bytes,
            AppendState::Locking { line, attempts },
            AppendEvent::LockTried(
                LockOutcome::Acquired {
                    handle: FileIdentity::Known(a),
                    path: FileIdentity::Known(b),
                },
            ),
        ) == append_next::<E>(
            max_bytes,
            AppendState::Sleeping { line, attempts: attempts + 1 },
            AppendEvent::Slept,
        ),
        attempts + 1 < 10 ==> append_next::<E>(
            max_bytes,
            AppendState::Sleeping { line, attempts: attempts + 1 },
            AppendEvent::Slept,
        ) == (
            AppendState::Locking { line, attempts: attempts + 1 },
            AppendRequest::<E>::TryLock,
        ),
        attempts + 1 == 10 ==> append_next::<E>(
            max_bytes,
            AppendState::Sleeping { line, attempts: attempts + 1 },
            AppendEvent::Slept,
        ) == (
            AppendState::Finished,
            AppendRequest::<E>::Finish(Err(AppendFailure::LockContended)),
        ),
        append_next::<E>(
            max_bytes,
            AppendState::Locking { line, attempts },
            AppendEvent::LockTried(
                LockOutcome::Acquired {
                    handle: FileIdentity::Known(a),
                    path: FileIdentity::Known(a),
                },
            ),
        ) == (AppendState::Writing, AppendRequest::<E>::WriteLine { line }),
        append_next::<E>(max_bytes, AppendState::Writing, AppendEvent::Done(Ok(()))) == (
            AppendState::Rotating,
            AppendRequest::<E>::Rotate { max_bytes },
        ),
        append_next::<E>(max_bytes, AppendState::Rotating, AppendEvent::Done(Ok(()))) == (
            AppendState::Finished,
            AppendRequest::<E>::Finish(Ok(())),
        ),
{
}

/// Each question takes every answer of its own kind, whatever it says, and no
/// other; after the end there is nothing to answer.
pub proof fn law_append_takes_every_answer<E>(
    session_id: Seq<char>,
    text: Seq<char>,
    line: Seq<char>,
    attempts: nat,
    event: AppendEvent<E>,
)
    ensures
        append_expects(AppendState::CreatingDirectory { session_id, text }, event) <==> event
            is Done,
        append_expects(AppendState::ReadingClock { session_id, text }, event) <==> event is Clock,
        append_expects(AppendState::Serializing, event) <==> event is Serialized,
        append_expects(AppendState::ReadingMode { line }, event) <==> event is Mode,
        append_expects(AppendState::SettingMode { line }, event) <==> event is Done,
        append_expects(AppendState::Locking { line, attempts }, event) <==> event is LockTried,
        append_expects(AppendState::Sleeping { line, attempts }, event) <==> event is Slept,
        append_expects(AppendState::Writing, event) <==> event is Done,
        append_expects(AppendState::Rotating, event) <==> event is Done,
        !append_expects(AppendState::Finished, event),
{
}

/// What an action says is what it holds.
pub proof fn law_append_action_says_what_it_holds<E>(action: AppendAction<E>)
    ensures
        match action {
            AppendAction::CreateDirectory => action@ == AppendRequest::<E>::CreateDirectory,
            AppendAction::ReadClock => action@ == AppendRequest::<E>::ReadClock,
            AppendAction::Serialize(entry) => {
                &&& action@ matches AppendRequest::Serialize(said)
                &&& said.session_id == entry.session_id@
                &&& said.ts == entry.ts
                &&& said.text == entry.text@
            },
            AppendAction::ReadMode => action@ == AppendRequest::<E>::ReadMode,
            AppendAction::SetMode { mode } => action@ == (AppendRequest::<E>::SetMode { mode }),
            AppendAction::TryLock => action@ == AppendRequest::<E>::TryLock,
            AppendAction::Sleep { millis } => action@ == (AppendRequest::<E>::Sleep { millis }),
            AppendAction::WriteLine { line } => action@ == (AppendRequest::<E>::WriteLine {
                line: line@,
            }),
            AppendAction::Rotate { max_bytes } => action@ == (AppendRequest::<E>::Rotate {
                max_bytes,
            }),
            AppendAction::Finish(Ok(_)) => action@ == AppendRequest::<E>::Finish(Ok(())),
            AppendAction::Finish(Err(AppendError::Io(e))) => action@ == AppendRequest::<E>::Finish(
                Err(AppendFailure::Io(e)),
            ),
            AppendAction::Finish(Err(AppendError::Other(message))) => action@
                == AppendRequest::<E>::Finish(Err(AppendFailure::Other(message@))),
            AppendAction::Finish(Err(AppendError::LockContended)) => action@
                == AppendRequest::<E>::Finish(Err(AppendFailure::LockContended)),
        },
{
}

/// A line is written only in answer to a lock held on the file that the path
/// still names, never to a file that a rotation has moved away; and rotation
/// follows only a line that was written.
pub proof fn law_write_needs_current_lock<E>(
    max_bytes: Option<usize>,
    state: AppendState,
    event: AppendEvent<E>,
)
    requires
        append_expects(state, event),
    ensures
        append_next(max_bytes, state, event).1 matches AppendRequest::WriteLine { line } ==> {
            &&& state matches AppendState::Locking { line: prepared, .. }
            &&& line == prepared
            &&& event matches AppendEvent::LockTried(LockOutcome::Acquired { handle, path })
            &&& same_file(handle, path)
        },
        append_next(max_bytes, state, event).1 is Rotate ==> {
            &&& state is Writing
            &&& event matches AppendEvent::Done(Ok(_))
        },
{
}

enum Stage {
    CreatingDirectory { session_id: String, text: String },
    ReadingClock { session_id: String, text: String },
    Serializing,
    ReadingMode { line: String },
    SettingMode { line: String },
    Locking { line: String, attempts: usize },
    Sleeping { line: String, attempts: usize },
    Writing,
    Rotating,
    Finished,
}

/// Appends a `text` entry associated with a conversation to the history file.
///
/// The whole line is prepared first and written once, under an exclusive
/// advisory lock that is tried a bounded number of times. The file is reopened
/// on every attempt: a concurrent writer may rotate the path between the open
/// and the lock, in which case the locked handle would reference a frozen
/// segment rather than the active file.
///
/// Its view is where it stands.
pub struct Append {
    max_bytes: Option<usize>,
    stage: Stage,
}

impl View for Append {
    type V = AppendState;

    closed spec fn view(&self) -> AppendState {
        match self.stage {
            Stage::CreatingDirectory { session_id, text } => AppendState::CreatingDirectory {
                session_id: session_id@,
                text: text@,
            },
            Stage::ReadingClock { session_id, text } => AppendState::ReadingClock {
                session_id: session_id@,
                text: text@,
            },
            Stage::Serializing => AppendState::Serializing,
            Stage::ReadingMode { line } => AppendState::ReadingMode { line: line@ },
            Stage::SettingMode { line } => AppendState::SettingMode { line: line@ },
            Stage::Locking { line, attempts } => AppendState::Locking {
                line: line@,
                attempts: attempts as nat,
            },
            Stage::Sleeping { line, attempts } => AppendState::Sleeping {
                line: line@,
                attempts: attempts as nat,
            },
            Stage::Writing => AppendState::Writing,
            Stage::Rotating => AppendState::Rotating,
            Stage::Finished => AppendState::Finished,
        }
    }
}

impl Append {
    #[verifier::type_invariant]
    spec fn inv(self) -> bool {
        self.stage matches Stage::Locking { attempts, .. } ==> attempts < MAX_RETRIES
    }

    /// The cap that the rotation will enforce.
    pub closed spec fn max_bytes(&self) -> Option<usize> {
        self.max_bytes
    }

    /// Begins. The entry is silently skipped when nothing is to be recorded.
    pub fn start<E>(text: &str, conversation_id: String, config: &HistoryConfig) -> (r: (
        Self,
        AppendAction<E>,
    ))
        ensures
            r.0.max_bytes() == config.max_bytes,
            (r.0@, r.1@) == append_begins::<E>(config.persistence, conversation_id@, text@),
            config.persistence is Disabled ==> {
                &&& r.0@ is Finished
                &&& r.1 matches AppendAction::Finish(Ok(_))
            },
            config.persistence is SaveAll ==> {
                &&& r.0@ == (AppendState::CreatingDirectory {
                    session_id: conversation_id@,
                    text: text@,
                })
                &&& r.1 is CreateDirectory
            },
    {
        let max_bytes: Option<usize> = config.max_bytes;
        match config.persistence {
            HistoryPersistence::SaveAll => (
                Append {
                    max_bytes,
                    stage: Stage::CreatingDirectory {
                        session_id: conversation_id,
                        text: text.to_owned(),
                    },
                },
                AppendAction::CreateDirectory,
            ),
            HistoryPersistence::Disabled => (
                Append { max_bytes, stage: Stage::Finished },
                AppendAction::Finish(Ok(())),
            ),
        }
    }

    /// Whether `event` answers what was asked for.
    pub fn expects<E>(&self, event: &AppendEvent<E>) -> (r: bool)
        ensures
            r == append_expects(self@, *event),
    {
        match (&self.stage, event) {
            (Stage::CreatingDirectory { .. }, AppendEvent::Done(_)) => true,
            (Stage::ReadingClock { .. }, AppendEvent::Clock(_)) => true,
            (Stage::Serializing, AppendEvent::Serialized(_)) => true,
            (Stage::ReadingMode { .. }, AppendEvent::Mode(_)) => true,
            (Stage::SettingMode { .. }, AppendEvent::Done(_)) => true,
            (Stage::Locking { .. }, AppendEvent::LockTried(_)) => true,
            (Stage::Sleeping { .. }, AppendEvent::Slept) => true,
            (Stage::Writing, AppendEvent::Done(_)) => true,
            (Stage::Rotating, AppendEvent::Done(_)) => true,
            _ => false,
        }
    }

    /// Takes in the answer to the last action and says what comes next.
    pub fn step<E>(self, event: AppendEvent<E>) -> (r: (Self, AppendAction<E>))
        requires
            append_expects(self@, event),
        ensures
            r.0.max_bytes() == self.max_bytes(),
            (r.0@, r.1@) == append_next(self.max_bytes(), self@, event),
    {
        proof {
            use_type_invariant(&self);
        }
        let max_bytes: Option<usize> = self.max_bytes;
        match (self.stage, event) {
            (Stage::CreatingDirectory { session_id, text }, AppendEvent::Done(Ok(_))) => (
                Append { max_bytes, stage: Stage::ReadingClock { session_id, text } },
                AppendAction::ReadClock,
            ),
            (Stage::ReadingClock { session_id, text }, AppendEvent::Clock(Ok(ts))) => (
                Append { max_bytes, stage: Stage::Serializing },
                AppendAction::Serialize(HistoryEntry { session_id, ts, text }),
            ),
            (Stage::ReadingClock { .. }, AppendEvent::Clock(Err(message))) => Self::other_error(
                max_bytes,
                "system clock before Unix epoch: ",
                message,
            ),
            (Stage::Serializing, AppendEvent::Serialized(Ok(record))) => (
                Append { max_bytes, stage: Stage::ReadingMode { line: history_line(record) } },
                AppendAction::ReadMode,
            ),
            (Stage::Serializing, AppendEvent::Serialized(Err(message))) => Self::other_error(
                max_bytes,
                "failed to serialise history entry: ",
                message,
            ),
            (Stage::ReadingMode { line }, AppendEvent::Mode(Ok(Some(mode)))) => {
                if mode & 0o777 == OWNER_ONLY {
                    Self::lock(max_bytes, line, 0)
                } else {
                    (
                        Append { max_bytes, stage: Stage::SettingMode { line } },
                        AppendAction::SetMode { mode: OWNER_ONLY },
                    )
                }
            },
            (Stage::ReadingMode { line }, AppendEvent::Mode(Ok(None))) => Self::lock(
                max_bytes,
                line,
                0,
            ),
            (Stage::ReadingMode { .. }, AppendEvent::Mode(Err(e))) => (
                Append { max_bytes, stage: Stage::Finished },
                AppendAction::Finish(Err(AppendError::Io(e))),
            ),
            (Stage::SettingMode { line }, AppendEvent::Done(Ok(_))) => Self::lock(
                max_bytes,
                line,
                0,
            ),
            (Stage::Locking { line, attempts }, AppendEvent::LockTried(outcome)) => match outcome {
                LockOutcome::Acquired { handle, path } => {
                    if locked_handle_matches_path(handle, path) {
                        (
                            Append { max_bytes, stage: Stage::Writing },
                            AppendAction::WriteLine { line },
                        )
                    } else {
                        // Lost a rotation race; retry against the fresh active file.
                        Self::lock(max_bytes, line, attempts + 1)
                    }
                },
                LockOutcome::WouldBlock => (
                    Append { max_bytes, stage: Stage::Sleeping { line, attempts: attempts + 1 } },
                    AppendAction::Sleep { millis: RETRY_SLEEP_MILLIS },
                ),
                LockOutcome::Failed(e) => (
                    Append { max_bytes, stage: Stage::Finished },
                    AppendAction::Finish(Err(AppendError::Io(e))),
                ),
            },
            (Stage::Sleeping { line, attempts }, AppendEvent::Slept) => Self::lock(
                max_bytes,
                line,
                attempts,
            ),
            (Stage::Writing, AppendEvent::Done(Ok(_))) => (
                Append { max_bytes, stage: Stage::Rotating },
                AppendAction::Rotate { max_bytes },
            ),
            (Stage::Rotating, AppendEvent::Done(Ok(_))) => (
                Append { max_bytes, stage: Stage::Finished },
                AppendAction::Finish(Ok(())),
            ),
            (_, AppendEvent::Done(Err(e))) => (
                Append { max_bytes, stage: Stage::Finished },
                AppendAction::Finish(Err(AppendError::Io(e))),
            ),
            _ => (Append { max_bytes, stage: Stage::Finished }, AppendAction::Finish(Ok(()))),
        }
    }

    fn lock<E>(max_bytes: Option<usize>, line: String, attempts: usize) -> (r: (
        Self,
        AppendAction<E>,
    ))
        ensures
            r.0.max_bytes() == max_bytes,
            (r.0@, r.1@) == locking::<E>(line@, attempts as nat),
    {
        if attempts < MAX_RETRIES {
            (
                Append { max_bytes, stage: Stage::Locking { line, attempts } },
                AppendAction::TryLock,
            )
        } else {
            (
                Append { max_bytes, stage: Stage::Finished },
                AppendAction::Finish(Err(AppendError::LockContended)),
            )
        }
    }

    fn other_error<E>(max_bytes: Option<usize>, what: &str, message: String) -> (r: (
        Self,
        AppendAction<E>,
    ))
        ensures
            r.0.max_bytes() == max_bytes,
            (r.0@, r.1@) == append_finished::<E>(Err(AppendFailure::Other(what@ + message@))),
    {
        let mut text: String = what.to_owned();
        text.append(message.as_str());
        (
            Append { max_bytes, stage: Stage::Finished },
            AppendAction::Finish(Err(AppendError::Other(text))),
        )
    }
}

} // verus!
