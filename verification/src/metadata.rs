//! What is reported of the history as a whole.

use vstd::prelude::*;

use crate::append::FileIdentity;
use crate::directory::{law_listing_shows_history, lists, represents, Directory};
use crate::lines::{lemma_terminated_count, lines, occurrences, unterminated, NEWLINE};
use crate::log::Log;
use crate::rotation::listed_segments;
use crate::segments::{active_start, SegmentSet, SegmentView};

verus! {

/// Size of the buffer for the newline count of a whole file.
pub const HISTORY_COUNT_BUFFER_SIZE: usize = 256 * 1024;

/// Whether there is a file whose metadata could be read.
pub open spec fn is_present(identity: FileIdentity) -> bool {
    identity is Unsupported || identity is Known
}

/// Identifier and entry count of the active file.
///
/// `newlines` is the newline count of the file, where it could be opened and
/// read to its end. Without metadata there is nothing to report; with them, the
/// identifier is reported even where the file could not be read, so that
/// callers can still detect that a history file exists. Zero stands for an
/// identifier that the platform does not give.
pub fn history_metadata_for_file(identity: FileIdentity, newlines: Option<usize>) -> (r: (
    u64,
    usize,
))
    ensures
        r.0 == (match identity {
            FileIdentity::Known(id) => id,
            _ => 0,
        }),
        r.1 == (if is_present(identity) && newlines is Some {
            newlines->0
        } else {
            0
        }),
{
    let id: u64 = match identity {
        FileIdentity::Missing | FileIdentity::Unreadable => {
            return (0, 0);
        },
        FileIdentity::Unsupported => 0,
        FileIdentity::Known(id) => id,
    };
    match newlines {
        Some(count) => (id, count),
        None => (id, 0),
    }
}

/// `n`, or the largest `usize` where `n` does not fit.
pub open spec fn saturated_size(n: int) -> usize {
    if n <= usize::MAX {
        n as usize
    } else {
        usize::MAX
    }
}

/// The newlines in the active file.
pub open spec fn log_newlines(log: Log) -> nat {
    occurrences(log.active_bytes(), NEWLINE)
}

/// Whether this is a true account of `log`, whose active file is complete: the
/// identity and the newline count of that file, the segments, and the line count
/// of the newest.
pub open spec fn is_account_of(
    log: Log,
    identity: FileIdentity,
    newlines: Option<usize>,
    segments: Seq<SegmentView>,
    newest_lines: u64,
) -> bool {
    &&& log.is_valid()
    &&& unterminated(log.active_bytes()).len() == 0
    &&& segments == log.listed()
    &&& log.segments.len() > 0 ==> newest_lines == lines(log.segments.last().file.bytes).len()
    &&& match log.active {
        Some(file) => {
            &&& identity == FileIdentity::Known(file.id)
            &&& newlines is Some
            &&& newlines->0 == log_newlines(log)
        },
        None => identity is Missing,
    }
}

proof fn lemma_account_adds_up(
    log: Log,
    identity: FileIdentity,
    newlines: Option<usize>,
    segments: Seq<SegmentView>,
    newest_lines: u64,
)
    requires
        is_account_of(log, identity, newlines, segments, newest_lines),
    ensures
        active_start(segments, newest_lines as nat) + log_newlines(log) == log.total(),
{
    lemma_terminated_count(log.active_bytes());
    if log.segments.len() > 0 {
        assert(log.listed().last() == log.segments.last().listed());
    }
}

/// Only a file that is missing or whose metadata cannot be read is not there.
pub proof fn law_presence(id: u64)
    ensures
        is_present(FileIdentity::Known(id)),
        is_present(FileIdentity::Unsupported),
        !is_present(FileIdentity::Missing),
        !is_present(FileIdentity::Unreadable),
{
}

/// A count that fits is reported as it is, and a larger one as the largest that
/// fits.
pub proof fn law_reported_counts(n: int)
    ensures
        0 <= n <= usize::MAX ==> saturated_size(n) == n,
        n > usize::MAX ==> saturated_size(n) == usize::MAX,
{
}

/// Identifier and entry count of the history.
///
/// `identity` and `newlines` are those of the active file: its newline count is
/// known where it could be opened and read to its end. The entries of the
/// rotated segments, of which the newest has `newest_lines`, come before its own.
/// While the file is missing, as it is right after a rotation, they are all
/// there are. Metadata that cannot be read make the result `(0, 0)`. If metadata
/// succeed but the file cannot be opened or scanned, the count is zero, so
/// callers can still detect that a history file exists.
pub fn history_metadata(
    identity: FileIdentity,
    newlines: Option<usize>,
    set: &SegmentSet,
    newest_lines: u64,
) -> (r: (u64, usize))
    ensures
        r.0 == (match identity {
            FileIdentity::Known(id) => id,
            _ => 0,
        }),
        identity is Missing ==> r.1 == saturated_size(
            active_start(set@, newest_lines as nat) as int,
        ),
        identity is Unreadable ==> r.1 == 0,
        is_present(identity) && newlines is None ==> r.1 == 0,
        is_present(identity) && newlines is Some ==> r.1 == saturated_size(
            active_start(set@, newest_lines as nat) + newlines->0,
        ),
        forall|log: Log| #[trigger]
            is_account_of(log, identity, newlines, set@, newest_lines) && log.total() <= usize::MAX
                ==> r.1 == log.total(),
        forall|log: Log| #[trigger]
            is_account_of(log, identity, newlines, set@, newest_lines) && log.active is Some
                ==> r.0 == log.active->0.id,
{
    proof {
        assert forall|log: Log| #[trigger]
            is_account_of(log, identity, newlines, set@, newest_lines) implies active_start(
            set@,
            newest_lines as nat,
        ) + log_newlines(log) == log.total() by {
            lemma_account_adds_up(log, identity, newlines, set@, newest_lines);
        }
    }
    let active: (u64, usize) = history_metadata_for_file(identity, newlines);
    let counted: bool = match identity {
        FileIdentity::Missing => true,
        FileIdentity::Unreadable => false,
        _ => newlines.is_some(),
    };
    if !counted {
        return (active.0, 0);
    }
    let start: u64 = set.active_start(newest_lines);
    let before: usize = if start <= usize::MAX as u64 {
        start as usize
    } else {
        usize::MAX
    };
    (active.0, before.saturating_add(active.1))
}

/// The count is the number of entries that the history has had: what a listing
/// and the line count of the newest segment say of the entries before the
/// active file, and the newlines of that file, add up to it.
pub proof fn law_metadata_counts_entries(
    log: Log,
    dir: Directory,
    listing: Option<Vec<String>>,
    newest_lines: nat,
)
    requires
        log.is_valid(),
        unterminated(log.active_bytes()).len() == 0,
        represents(dir, log),
        lists(dir, listing),
        log.segments.len() > 0 ==> newest_lines == lines(log.segments.last().file.bytes).len(),
    ensures
        active_start(listed_segments(listing), newest_lines) + occurrences(
            log.active_bytes(),
            NEWLINE,
        ) == log.total(),
        log.total() <= usize::MAX ==> saturated_size(
            active_start(listed_segments(listing), newest_lines) + occurrences(
                log.active_bytes(),
                NEWLINE,
            ),
        ) == log.total(),
{
    law_listing_shows_history(dir, log, listing);
    lemma_terminated_count(log.active_bytes());
    if log.segments.len() > 0 {
        assert(log.listed().last() == log.segments.last().listed());
    }
}

} // verus!
