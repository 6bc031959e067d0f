//! Rotation of a full active file and enforcement of the size cap.
//!
//! [`Rotation`] decides and asks; whoever drives it performs each
//! [`RotationAction`] and answers with a [`RotationEvent`]. It runs while the
//! append lock is held.

use vstd::prelude::*;

use crate::lines::saturated;
use crate::segments::{segment_file_name, SegmentSet, SegmentView};
use crate::segments::{active_start, arranged, byte_total, names_of, recognised, segment_name};
use crate::text::decimal;

verus! {

/// The size at which an active file is rotated: a quarter of the cap, but at
/// least one byte.
pub open spec fn rotate_threshold(max_bytes: u64) -> u64 {
    if max_bytes / 4 >= 1 {
        max_bytes / 4
    } else {
        1
    }
}

/// What the driver is asked to do next.
pub enum RotationAction<E> {
    /// Read the size of the active file.
    MeasureActive,
    /// List the names in the directory.
    ListDirectory,
    /// Count the lines of a segment.
    CountLines { file_name: String },
    /// Rename the active file.
    RenameActive { file_name: String },
    /// Read the sizes of the segments.
    MeasureSegments { file_names: Vec<String> },
    /// Read the size of a segment and delete it.
    DeleteSegment { file_name: String },
    /// Nothing more: this is the outcome.
    Finish(Result<(), E>),
}

/// What a [`RotationAction`] says.
pub enum RotationRequest<E> {
    MeasureActive,
    ListDirectory,
    CountLines { file_name: Seq<char> },
    RenameActive { file_name: Seq<char> },
    MeasureSegments { file_names: Seq<Seq<char>> },
    DeleteSegment { file_name: Seq<char> },
    Finish(Result<(), E>),
}

impl<E> View for RotationAction<E> {
    type V = RotationRequest<E>;

    open spec fn view(&self) -> RotationRequest<E> {
        match *self {
            RotationAction::MeasureActive => RotationRequest::MeasureActive,
            RotationAction::ListDirectory => RotationRequest::ListDirectory,
            RotationAction::CountLines { file_name } => RotationRequest::CountLines {
                file_name: file_name@,
            },
            RotationAction::RenameActive { file_name } => RotationRequest::RenameActive {
                file_name: file_name@,
            },
            RotationAction::MeasureSegments { file_names } => RotationRequest::MeasureSegments {
                file_names: names_of(file_names@),
            },
            RotationAction::DeleteSegment { file_name } => RotationRequest::DeleteSegment {
                file_name: file_name@,
            },
            RotationAction::Finish(outcome) => RotationRequest::Finish(outcome),
        }
    }
}

/// The driver's answer to a [`RotationAction`].
pub enum RotationEvent<E> {
    /// The size of the active file.
    ActiveMeasured(Result<u64, E>),
    /// The names in the directory, or none where it could not be listed.
    Listed(Option<Vec<String>>),
    /// The number of lines of the segment.
    Counted(u64),
    /// Whether the active file was renamed.
    Renamed(Result<(), E>),
    /// The size of each segment, where it could be read.
    SegmentsMeasured(Vec<Option<u64>>),
    /// The size of the segment, zero where it could not be read, and whether
    /// the segment is gone.
    Deleted { len: u64, removed: bool },
}

/// Where a rotation stands.
pub enum RotationState {
    MeasuringActive,
    Listing,
    Counting { segments: Seq<SegmentView> },
    Renaming,
    Relisting,
    MeasuringSegments { segments: Seq<SegmentView> },
    /// `next` is the oldest segment that has not been considered, `total` what
    /// the segments that are left add up to.
    Deleting { segments: Seq<SegmentView>, total: u64, next: nat },
    Finished,
}

/// The segments that a listing shows.
pub open spec fn listed_segments(listing: Option<Vec<String>>) -> Seq<SegmentView> {
    match listing {
        Some(names) => arranged(recognised(names_of(names@))),
        None => Seq::empty(),
    }
}

/// Whether `event` answers what was asked for in `state`.
pub open spec fn rotation_expects<E>(state: RotationState, event: RotationEvent<E>) -> bool {
    match state {
        RotationState::MeasuringActive => event is ActiveMeasured,
        RotationState::Listing => event is Listed,
        RotationState::Counting { .. } => event is Counted,
        RotationState::Renaming => event is Renamed,
        RotationState::Relisting => event is Listed,
        RotationState::MeasuringSegments { .. } => event is SegmentsMeasured,
        RotationState::Deleting { .. } => event is Deleted,
        RotationState::Finished => false,
    }
}

/// The rename of the active file to the segment that starts at `start`.
pub open spec fn renaming<E>(start: u64) -> (RotationState, RotationRequest<E>) {
    (RotationState::Renaming, RotationRequest::RenameActive { file_name: segment_name(start) })
}

/// The outcome.
pub open spec fn finished<E>(outcome: Result<(), E>) -> (RotationState, RotationRequest<E>) {
    (RotationState::Finished, RotationRequest::Finish(outcome))
}

/// The deletion of the segment at `next`, where the segments that are left are
/// over budget and this is not the newest one.
pub open spec fn deleting<E>(
    segments: Seq<SegmentView>,
    total: u64,
    next: nat,
    budget: u64,
) -> (RotationState, RotationRequest<E>) {
    if next + 1 < segments.len() && total > budget {
        (
            RotationState::Deleting { segments, total, next },
            RotationRequest::DeleteSegment { file_name: segments[next as int].file_name },
        )
    } else {
        finished(Ok(()))
    }
}

/// What follows when `event` arrives in `state`.
pub open spec fn rotation_next<E>(
    max_bytes: u64,
    state: RotationState,
    event: RotationEvent<E>,
) -> (RotationState, RotationRequest<E>) {
    match (state, event) {
        (RotationState::MeasuringActive, RotationEvent::ActiveMeasured(Ok(len))) => {
            if len < rotate_threshold(max_bytes) {
                finished(Ok(()))
            } else {
                (RotationState::Listing, RotationRequest::ListDirectory)
            }
        },
        (RotationState::MeasuringActive, RotationEvent::ActiveMeasured(Err(e))) => finished(Err(e)),
        (RotationState::Listing, RotationEvent::Listed(listing)) => {
            let segments = listed_segments(listing);
            if segments.len() == 0 {
                renaming(0)
            } else {
                (
                    RotationState::Counting { segments },
                    RotationRequest::CountLines { file_name: segments.last().file_name },
                )
            }
        },
        (RotationState::Counting { segments }, RotationEvent::Counted(n)) => renaming(
            active_start(segments, n as nat),
        ),
        (RotationState::Renaming, RotationEvent::Renamed(Ok(_))) => (
            RotationState::Relisting,
            RotationRequest::ListDirectory,
        ),
        (RotationState::Renaming, RotationEvent::Renamed(Err(e))) => finished(Err(e)),
        (RotationState::Relisting, RotationEvent::Listed(listing)) => {
            let segments = listed_segments(listing);
            (
                RotationState::MeasuringSegments { segments },
                RotationRequest::MeasureSegments {
                    file_names: segments.map_values(|s: SegmentView| s.file_name),
                },
            )
        },
        (
            RotationState::MeasuringSegments { segments },
            RotationEvent::SegmentsMeasured(sizes),
        ) => deleting(segments, saturated(byte_total(sizes@) as int), 0, max_bytes),
        (
            RotationState::Deleting { segments, total, next },
            RotationEvent::Deleted { len, removed },
        ) => deleting(
            segments,
            if !removed {
                total
            } else if total >= len {
                (total - len) as u64
            } else {
                0
            },
            next + 1,
            max_bytes,
        ),
        _ => (state, RotationRequest::Finish(Ok(()))),
    }
}

/// Whatever the answers, the only segments that are ever deleted are older
/// ones than the newest, and only while the rest is over the cap.
pub proof fn law_newest_segment_is_kept<E>(
    max_bytes: u64,
    state: RotationState,
    event: RotationEvent<E>,
)
    requires
        rotation_expects(state, event),
    ensures
        rotation_next(max_bytes, state, event).1 matches RotationRequest::DeleteSegment {
            file_name,
        } ==> {
            &&& rotation_next(max_bytes, state, event).0 matches RotationState::Deleting {
                segments,
                total,
                next,
            }
            &&& next + 1 < segments.len()
            &&& total > max_bytes
            &&& file_name == segments[next as int].file_name
        },
{
}

/// The active file is rotated exactly when it has a byte and has reached a
/// quarter of the cap; a smaller one ends the rotation at once.
pub proof fn law_rotation_threshold<E>(max_bytes: u64, len: u64)
    ensures
        ({
            let (state, request) = rotation_next::<E>(
                max_bytes,
                RotationState::MeasuringActive,
                RotationEvent::ActiveMeasured(Ok(len)),
            );
            if len >= 1 && len >= max_bytes as int / 4 {
                &&& state == RotationState::Listing
                &&& request == RotationRequest::<E>::ListDirectory
            } else {
                &&& state == RotationState::Finished
                &&& request == RotationRequest::<E>::Finish(Ok(()))
            }
        }),
{
}

/// What goes wrong with the active file ends the rotation and is its outcome,
/// unchanged.
pub proof fn law_rotation_reports_failures<E>(max_bytes: u64, e: E)
    ensures
        rotation_next(
            max_bytes,
            RotationState::MeasuringActive,
            RotationEvent::ActiveMeasured(Err(e)),
        ) == (RotationState::Finished, RotationRequest::<E>::Finish(Err(e))),
        rotation_next(max_bytes, RotationState::Renaming, RotationEvent::Renamed(Err(e))) == (
            RotationState::Finished,
            RotationRequest::<E>::Finish(Err(e)),
        ),
{
}

/// A listing that could not be had shows no segment; any other is read name by
/// name.
pub proof fn law_listings(names: Vec<String>)
    ensures
        listed_segments(None).len() == 0,
        listed_segments(Some(names)) == arranged(recognised(names_of(names@))),
{
}

/// The active file is renamed to the numeral of the index behind the newest
/// segment: the start of that segment and the lines counted in it, or zero where
/// there is no segment.
pub proof fn law_rotated_file_takes_next_index<E>(
    max_bytes: u64,
    listing: Option<Vec<String>>,
    lines: u64,
)
    ensures
        ({
            let segments = listed_segments(listing);
            let (state, request) = rotation_next::<E>(
                max_bytes,
                RotationState::Listing,
                RotationEvent::Listed(listing),
            );
            if segments.len() == 0 {
                &&& state == RotationState::Renaming
                &&& request == RotationRequest::<E>::RenameActive {
                    file_name: "history."@ + decimal(0) + ".jsonl"@,
                }
            } else {
                let index = segments.last().start + lines;
                let (renaming, rename) = rotation_next::<E>(
                    max_bytes,
                    state,
                    RotationEvent::Counted(lines),
                );
                &&& state == RotationState::Counting { segments }
                &&& request == RotationRequest::<E>::CountLines {
                    file_name: segments.last().file_name,
                }
                &&& renaming == RotationState::Renaming
                &&& index <= u64::MAX ==> rename == RotationRequest::<E>::RenameActive {
                    file_name: "history."@ + decimal(index as nat) + ".jsonl"@,
                }
                &&& index > u64::MAX ==> rename == RotationRequest::<E>::RenameActive {
                    file_name: "history."@ + decimal(u64::MAX as nat) + ".jsonl"@,
                }
            }
        }),
{
}

/// After the rename the directory is listed anew, and every segment that it
/// shows is measured.
pub proof fn law_all_segments_are_measured<E>(max_bytes: u64, listing: Option<Vec<String>>)
    ensures
        rotation_next::<E>(max_bytes, RotationState::Renaming, RotationEvent::Renamed(Ok(()))) == (
            RotationState::Relisting,
            RotationRequest::<E>::ListDirectory,
        ),
        ({
            let segments = listed_segments(listing);
            let (state, request) = rotation_next::<E>(
                max_bytes,
                RotationState::Relisting,
                RotationEvent::Listed(listing),
            );
            &&& state == RotationState::MeasuringSegments { segments }
            &&& request matches RotationRequest::MeasureSegments { file_names }
            &&& file_names.len() == segments.len()
            &&& forall|i: int|
                0 <= i < segments.len() ==> #[trigger] file_names[i] == segments[i].file_name
        }),
{
}

/// Whether the answer to a rotation is the next deletion, of the segment at
/// `next` with `total` bytes left, or the end.
pub open spec fn deletes_or_ends<E>(
    answer: (RotationState, RotationRequest<E>),
    deletes: bool,
    segments: Seq<SegmentView>,
    total: int,
    next: int,
) -> bool {
    if deletes {
        &&& answer.0 matches RotationState::Deleting { segments: rest, total: left, next: at }
        &&& rest == segments
        &&& left == total
        &&& at == next
        &&& answer.1 == RotationRequest::<E>::DeleteSegment {
            file_name: segments[next].file_name,
        }
    } else {
        answer == (RotationState::Finished, RotationRequest::<E>::Finish(Ok(())))
    }
}

/// Segments are deleted from the oldest on, for as long as what is left exceeds
/// the cap and the one in question is not the newest. Only a deletion that
/// succeeded counts, and it counts for the size of the file.
pub proof fn law_deletion_keeps_account<E>(
    max_bytes: u64,
    segments: Seq<SegmentView>,
    sizes: Vec<Option<u64>>,
    total: u64,
    next: nat,
    len: u64,
)
    requires
        byte_total(sizes@) <= u64::MAX,
    ensures
        deletes_or_ends(
            rotation_next::<E>(
                max_bytes,
                RotationState::MeasuringSegments { segments },
                RotationEvent::SegmentsMeasured(sizes),
            ),
            segments.len() >= 2 && byte_total(sizes@) > max_bytes,
            segments,
            byte_total(sizes@) as int,
            0,
        ),
        deletes_or_ends(
            rotation_next::<E>(
                max_bytes,
                RotationState::Deleting { segments, total, next },
                RotationEvent::Deleted { len, removed: true },
            ),
            next + 2 < segments.len() && total - len > max_bytes,
            segments,
            total - len,
            (next + 1) as int,
        ),
        deletes_or_ends(
            rotation_next::<E>(
                max_bytes,
                RotationState::Deleting { segments, total, next },
                RotationEvent::Deleted { len, removed: false },
            ),
            next + 2 < segments.len() && total > max_bytes,
            segments,
            total as int,
            (next + 1) as int,
        ),
{
}

/// Where the sizes add up to more than can be counted, they exceed every cap
/// but the largest.
pub proof fn law_uncountable_sizes_exceed_the_cap<E>(
    max_bytes: u64,
    segments: Seq<SegmentView>,
    sizes: Vec<Option<u64>>,
)
    requires
        byte_total(sizes@) > u64::MAX,
    ensures
        deletes_or_ends(
            rotation_next::<E>(
                max_bytes,
                RotationState::MeasuringSegments { segments },
                RotationEvent::SegmentsMeasured(sizes),
            ),
            segments.len() >= 2 && max_bytes < u64::MAX,
            segments,
            u64::MAX as int,
            0,
        ),
{
}

/// Each question takes every answer of its own kind, whatever it says, and no
/// other; after the end there is nothing to answer.
pub proof fn law_rotation_takes_every_answer<E>(
    segments: Seq<SegmentView>,
    total: u64,
    next: nat,
    event: RotationEvent<E>,
)
    ensures
        rotation_expects(RotationState::MeasuringActive, event) <==> event is ActiveMeasured,
        rotation_expects(RotationState::Listing, event) <==> event is Listed,
        rotation_expects(RotationState::Counting { segments }, event) <==> event is Counted,
        rotation_expects(RotationState::Renaming, event) <==> event is Renamed,
        rotation_expects(RotationState::Relisting, event) <==> event is Listed,
        rotation_expects(RotationState::MeasuringSegments { segments }, event) <==> event
            is SegmentsMeasured,
        rotation_expects(RotationState::Deleting { segments, total, next }, event) <==> event
            is Deleted,
        !rotation_expects(RotationState::Finished, event),
{
}

/// What an action says is what it holds.
pub proof fn law_rotation_action_says_what_it_holds<E>(action: RotationAction<E>)
    ensures
        match action {
            RotationAction::MeasureActive => action@ == RotationRequest::<E>::MeasureActive,
            RotationAction::ListDirectory => action@ == RotationRequest::<E>::ListDirectory,
            RotationAction::CountLines { file_name } => action@
                == RotationRequest::<E>::CountLines { file_name: file_name@ },
            RotationAction::RenameActive { file_name } => action@
                == RotationRequest::<E>::RenameActive { file_name: file_name@ },
            RotationAction::MeasureSegments { file_names } => {
                &&& action@ matches RotationRequest::MeasureSegments { file_names: names }
                &&& names.len() == file_names@.len()
                &&& forall|i: int| 0 <= i < names.len() ==> #[trigger] names[i] == file_names@[i]@
            },
            RotationAction::DeleteSegment { file_name } => action@
                == RotationRequest::<E>::DeleteSegment { file_name: file_name@ },
            RotationAction::Finish(outcome) => action@ == RotationRequest::<E>::Finish(outcome),
        },
{
}

enum Stage {
    MeasuringActive,
    Listing,
    Counting { set: SegmentSet },
    Renaming,
    Relisting,
    MeasuringSegments { set: SegmentSet },
    Deleting { set: SegmentSet, total: u64, next: usize },
    Finished,
}

/// Rotates a full active file into an immutable segment and enforces the cap.
///
/// When the active file reaches a quarter of the cap it is renamed to
/// `history.<start>.jsonl`; the next append recreates the active file. Cap
/// enforcement then deletes whole segments oldest-first, never the newest
/// segment, so the most recent entry always survives.
///
/// Its view is where it stands.
pub struct Rotation {
    max_bytes: u64,
    stage: Stage,
}

impl View for Rotation {
    type V = RotationState;

    closed spec fn view(&self) -> RotationState {
        match self.stage {
            Stage::MeasuringActive => RotationState::MeasuringActive,
            Stage::Listing => RotationState::Listing,
            Stage::Counting { set } => RotationState::Counting { segments: set@ },
            Stage::Renaming => RotationState::Renaming,
            Stage::Relisting => RotationState::Relisting,
            Stage::MeasuringSegments { set } => RotationState::MeasuringSegments {
                segments: set@,
            },
            Stage::Deleting { set, total, next } => RotationState::Deleting {
                segments: set@,
                total,
                next: next as nat,
            },
            Stage::Finished => RotationState::Finished,
        }
    }
}

impl Rotation {
    #[verifier::type_invariant]
    spec fn inv(self) -> bool {
        self.stage matches Stage::Deleting { next, .. } ==> next < usize::MAX
    }

    /// The cap.
    pub closed spec fn max_bytes(&self) -> u64 {
        self.max_bytes
    }

    /// Begins; without a cap there is nothing to do.
    pub fn start<E>(max_bytes: Option<usize>) -> (r: (Self, RotationAction<E>))
        ensures
            match max_bytes {
                Some(cap) => {
                    &&& r.0.max_bytes() == cap
                    &&& r.0@ == RotationState::MeasuringActive
                    &&& r.1@ == RotationRequest::<E>::MeasureActive
                },
                None => (r.0@, r.1@) == finished::<E>(Ok(())),
            },
    {
        match max_bytes {
            Some(cap) => (
                Rotation { max_bytes: cap as u64, stage: Stage::MeasuringActive },
                RotationAction::MeasureActive,
            ),
            None => (
                Rotation { max_bytes: 0, stage: Stage::Finished },
                RotationAction::Finish(Ok(())),
            ),
        }
    }

    /// Whether `event` answers what was asked for.
    pub fn expects<E>(&self, event: &RotationEvent<E>) -> (r: bool)
        ensures
            r == rotation_expects(self@, *event),
    {
        match (&self.stage, event) {
            (Stage::MeasuringActive, RotationEvent::ActiveMeasured(_)) => true,
            (Stage::Listing, RotationEvent::Listed(_)) => true,
            (Stage::Counting { .. }, RotationEvent::Counted(_)) => true,
            (Stage::Renaming, RotationEvent::Renamed(_)) => true,
            (Stage::Relisting, RotationEvent::Listed(_)) => true,
            (Stage::MeasuringSegments { .. }, RotationEvent::SegmentsMeasured(_)) => true,
            (Stage::Deleting { .. }, RotationEvent::Deleted { .. }) => true,
            _ => false,
        }
    }

    /// Takes in the answer to the last action and says what comes next.
    pub fn step<E>(self, event: RotationEvent<E>) -> (r: (Self, RotationAction<E>))
        requires
            rotation_expects(self@, event),
        ensures
            r.0.max_bytes() == self.max_bytes(),
            (r.0@, r.1@) == rotation_next(self.max_bytes(), self@, event),
    {
        proof {
            use_type_invariant(&self);
        }
        let max_bytes: u64 = self.max_bytes;
        match (self.stage, event) {
            (Stage::MeasuringActive, RotationEvent::ActiveMeasured(Ok(len))) => {
                let quarter: u64 = max_bytes / 4;
                let threshold: u64 = if quarter >= 1 {
                    quarter
                } else {
                    1
                };
                if len < threshold {
                    (
                        Rotation { max_bytes, stage: Stage::Finished },
                        RotationAction::Finish(Ok(())),
                    )
                } else {
                    (
                        Rotation { max_bytes, stage: Stage::Listing },
                        RotationAction::ListDirectory,
                    )
                }
            },
            (Stage::MeasuringActive, RotationEvent::ActiveMeasured(Err(e))) => (
                Rotation { max_bytes, stage: Stage::Finished },
                RotationAction::Finish(Err(e)),
            ),
            (Stage::Listing, RotationEvent::Listed(listing)) => {
                let set: SegmentSet = SegmentSet::scan(listing);
                let newest_name: Option<String> = match set.newest() {
                    Some(newest) => Some(newest.file_name.clone()),
                    None => None,
                };
                match newest_name {
                    Some(file_name) => (
                        Rotation { max_bytes, stage: Stage::Counting { set } },
                        RotationAction::CountLines { file_name },
                    ),
                    None => (
                        Rotation { max_bytes, stage: Stage::Renaming },
                        RotationAction::RenameActive {
                            file_name: segment_file_name(set.active_start(0)),
                        },
                    ),
                }
            },
            (Stage::Counting { set }, RotationEvent::Counted(newest_lines)) => (
                Rotation { max_bytes, stage: Stage::Renaming },
                RotationAction::RenameActive {
                    file_name: segment_file_name(set.active_start(newest_lines)),
                },
            ),
            (Stage::Renaming, RotationEvent::Renamed(Ok(_))) => (
                Rotation { max_bytes, stage: Stage::Relisting },
                RotationAction::ListDirectory,
            ),
            (Stage::Renaming, RotationEvent::Renamed(Err(e))) => (
                Rotation { max_bytes, stage: Stage::Finished },
                RotationAction::Finish(Err(e)),
            ),
            (Stage::Relisting, RotationEvent::Listed(listing)) => {
                let set: SegmentSet = SegmentSet::scan(listing);
                let file_names: Vec<String> = set.file_names();
                (
                    Rotation { max_bytes, stage: Stage::MeasuringSegments { set } },
                    RotationAction::MeasureSegments { file_names },
                )
            },
            (Stage::MeasuringSegments { set }, RotationEvent::SegmentsMeasured(sizes)) => {
                let total: u64 = SegmentSet::total_bytes(&sizes);
                Self::delete_oldest_over_budget(set, total, 0, max_bytes)
            },
            (Stage::Deleting { set, total, next }, RotationEvent::Deleted { len, removed }) => {
                let left: u64 = if removed {
                    total.saturating_sub(len)
                } else {
                    total
                };
                Self::delete_oldest_over_budget(set, left, next + 1, max_bytes)
            },
            (stage, _) => (Rotation { max_bytes, stage }, RotationAction::Finish(Ok(()))),
        }
    }

    /// Deletes oldest segments until rotated bytes fit within `budget`.
    ///
    /// The newest segment is never deleted: it holds the most recently rotated
    /// entries.
    fn delete_oldest_over_budget<E>(
        set: SegmentSet,
        total: u64,
        next: usize,
        budget: u64,
    ) -> (r: (Self, RotationAction<E>))
        ensures
            r.0.max_bytes() == budget,
            (r.0@, r.1@) == deleting::<E>(set@, total, next as nat, budget),
    {
        let deletable: usize = set.len().saturating_sub(1);
        if next < deletable && total > budget {
            let victim: Option<String> = match set.get(next) {
                Some(segment) => Some(segment.file_name.clone()),
                None => None,
            };
            match victim {
                Some(file_name) => {
                    return (
                        Rotation {
                            max_bytes: budget,
                            stage: Stage::Deleting { set, total, next },
                        },
                        RotationAction::DeleteSegment { file_name },
                    );
                },
                None => {},
            }
        }
        (Rotation { max_bytes: budget, stage: Stage::Finished }, RotationAction::Finish(Ok(())))
    }
}

} // verus!
