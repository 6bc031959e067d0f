//! What a rotation does to the history, from the first question to the last
//! answer.

use vstd::prelude::*;

use crate::directory::{
    keeps_foreign, law_listing_shows_history, lemma_starts_ascend, lists, represents, Directory,
};
use crate::lines::{lemma_line_count, lines, occurrences, saturated, NEWLINE};
use crate::log::{bytes_of, law_prune, law_rotate, Log, LogSegment};
use crate::rotation::{
    deleting, rotate_threshold, rotation_expects, rotation_next, RotationEvent, RotationRequest,
    RotationState,
};
use crate::segments::{
    active_start, byte_total, law_active_file_is_no_segment, law_segment_name_round_trip,
    segment_name, segment_start, SegmentView,
};

verus! {

/// How many of the oldest segments have to go: none once the rest fits the
/// budget, and never the newest.
pub open spec fn prune_count(segments: Seq<LogSegment>, budget: u64) -> nat
    decreases segments.len(),
{
    if segments.len() <= 1 || bytes_of(segments) <= budget {
        0
    } else {
        1 + prune_count(segments.skip(1), budget)
    }
}

/// The history after rotation with a cap of `max_bytes`: an active file below
/// the threshold stays, a larger one becomes the newest segment, and as many of
/// the oldest segments go as the cap asks for.
pub open spec fn maintained(log: Log, max_bytes: u64) -> Log {
    if log.active_bytes().len() < rotate_threshold(max_bytes) {
        log
    } else {
        log.rotated().pruned(prune_count(log.rotated().segments, max_bytes))
    }
}

proof fn lemma_bytes_of_skip(segments: Seq<LogSegment>)
    requires
        segments.len() > 0,
    ensures
        bytes_of(segments) == segments[0].file.bytes.len() + bytes_of(segments.skip(1)),
    decreases segments.len(),
{
    if segments.len() == 1 {
        assert(segments.skip(1) =~= Seq::<LogSegment>::empty());
        assert(segments.drop_last() =~= Seq::<LogSegment>::empty());
    } else {
        lemma_bytes_of_skip(segments.drop_last());
        assert(segments.drop_last().skip(1) =~= segments.skip(1).drop_last());
    }
}

/// Pruning keeps the newest segment, ends within the budget unless the newest
/// alone exceeds it, and deletes nothing that could have stayed.
pub proof fn law_prune_count(segments: Seq<LogSegment>, budget: u64)
    requires
        segments.len() > 0,
    ensures
        ({
            let n = prune_count(segments, budget);
            &&& n < segments.len()
            &&& bytes_of(segments.skip(n as int)) <= budget || n + 1 == segments.len()
            &&& forall|m: nat| m < n ==> bytes_of(#[trigger] segments.skip(m as int)) > budget
        }),
    decreases segments.len(),
{
    assert(segments.skip(0) =~= segments);
    if segments.len() > 1 && bytes_of(segments) > budget {
        let rest = segments.skip(1);
        law_prune_count(rest, budget);
        let n = prune_count(rest, budget);
        assert(rest.skip(n as int) =~= segments.skip((n + 1) as int));
        assert forall|m: nat| m < n + 1 implies bytes_of(#[trigger] segments.skip(m as int))
            > budget by {
            if m > 0 {
                assert(rest.skip(m - 1) =~= segments.skip(m as int));
            }
        }
    }
}

/// Whether the rotated segments are within the cap, or there is but one.
pub open spec fn within_cap(log: Log, max_bytes: u64) -> bool {
    log.rotated_bytes() <= max_bytes || log.segments.len() <= 1
}

/// Rotation leaves an active file below the threshold. It brings the segments
/// within the cap whenever it rotates, and leaves them there when it does not.
pub proof fn law_retained_bytes_bounded(log: Log, max_bytes: u64)
    requires
        log.active is Some,
    ensures
        maintained(log, max_bytes).active_bytes().len() < rotate_threshold(max_bytes),
        log.active_bytes().len() >= rotate_threshold(max_bytes) || within_cap(log, max_bytes)
            ==> within_cap(maintained(log, max_bytes), max_bytes),
{
    if log.active_bytes().len() >= rotate_threshold(max_bytes) {
        law_prune_count(log.rotated().segments, max_bytes);
    }
}

/// Rotation is due exactly when the active file has a byte and has reached a
/// quarter of the cap. It then becomes the newest segment, whole, under the index
/// of its first entry, and of the older segments the latest stay. Else nothing
/// changes.
pub proof fn law_due_file_is_rotated(log: Log, max_bytes: u64)
    requires
        log.is_valid(),
        log.active is Some,
    ensures
        ({
            let bytes = log.active->0.bytes;
            let after = maintained(log, max_bytes);
            if bytes.len() >= 1 && bytes.len() >= max_bytes as int / 4 {
                &&& after.active is None
                &&& after.segments.len() >= 1
                &&& after.segments.last().file == log.active->0
                &&& after.segments.last().start == log.start()
                &&& after.segments.len() <= log.segments.len() + 1
                &&& after.segments.drop_last() == log.segments.skip(
                    log.segments.len() + 1 - after.segments.len(),
                )
                &&& bytes_of(after.segments) <= max_bytes || after.segments.len() == 1
            } else {
                after == log
            }
        }),
{
    if log.active_bytes().len() >= rotate_threshold(max_bytes) {
        let rotated = log.rotated().segments;
        let n = prune_count(rotated, max_bytes);
        law_prune_count(rotated, max_bytes);
        let after = maintained(log, max_bytes);
        assert(after.segments.drop_last() =~= log.segments.skip(n as int));
    }
}

/// The bytes of segments are those of their files together.
pub proof fn law_segment_bytes_add_up(segments: Seq<LogSegment>, added: LogSegment)
    ensures
        bytes_of(Seq::<LogSegment>::empty()) == 0,
        bytes_of(segments.push(added)) == bytes_of(segments) + added.file.bytes.len(),
{
    assert(segments.push(added).drop_last() =~= segments);
}

/// A file that has bytes has a line.
proof fn lemma_clean_has_line(bytes: Seq<u8>)
    requires
        bytes.len() > 0,
    ensures
        lines(bytes).len() > 0,
{
    lemma_line_count(bytes);
    assert(bytes.last() == NEWLINE ==> occurrences(bytes, NEWLINE) > 0);
}

/// Rotation keeps a valid history valid, the next index where it was, and the
/// newest entry under its index; every entry that is still there reads as it
/// did, and only entries older than all of those are gone.
pub proof fn law_maintenance_keeps_entries(log: Log, max_bytes: u64)
    requires
        log.is_valid(),
        log.active is Some,
    ensures
        ({
            let after = maintained(log, max_bytes);
            &&& after.is_valid()
            &&& after.total() == log.total()
            &&& log.total() > 0 ==> after.entry((log.total() - 1) as nat) == log.entry(
                (log.total() - 1) as nat,
            )
            &&& exists|first: nat|
                #[trigger] keeps_from(log, after, first) && (log.total() > 0 ==> first
                    < log.total())
        }),
{
    if log.active_bytes().len() < rotate_threshold(max_bytes) {
        assert(keeps_from(log, log, 0));
    } else {
        lemma_clean_has_line(log.active_bytes());
        law_rotate(log);
        let rotated = log.rotated();
        law_prune_count(rotated.segments, max_bytes);
        let n = prune_count(rotated.segments, max_bytes);
        law_prune(rotated, n);
        let first = rotated.segments[n as int].start as nat;
        assert(keeps_from(log, rotated.pruned(n), first));
        if n + 1 < rotated.segments.len() {
            lemma_starts_ascend(rotated, n as int, rotated.segments.len() - 1);
        }
        assert(rotated.segments.last().end() == log.total());
        assert(first <= log.total() - 1);
    }
}

/// Whether `after` has the entries of `before` from `first` on, and none
/// before.
pub open spec fn keeps_from(before: Log, after: Log, first: nat) -> bool {
    &&& forall|offset: nat|
        offset >= first ==> #[trigger] after.entry(offset) == before.entry(offset)
    &&& forall|offset: nat| offset < first ==> #[trigger] after.entry(offset) is None
}

/// Whether `event` is a true answer to `request` in the directory `dir`, and
/// `after` is the directory that performing the request leaves: every request
/// succeeds, and nobody else touches the files.
pub open spec fn rotation_answered<E>(
    dir: Directory,
    request: RotationRequest<E>,
    event: RotationEvent<E>,
    after: Directory,
) -> bool {
    match (request, event) {
        (RotationRequest::MeasureActive, RotationEvent::ActiveMeasured(Ok(len))) => {
            &&& after == dir
            &&& dir.active is Some
            &&& len == dir.active->0.bytes.len()
        },
        (RotationRequest::ListDirectory, RotationEvent::Listed(listing)) => {
            &&& after == dir
            &&& lists(dir, listing)
        },
        (RotationRequest::CountLines { file_name }, RotationEvent::Counted(n)) => {
            &&& after == dir
            &&& dir.others.dom().contains(file_name)
            &&& n == saturated(lines(dir.others[file_name].bytes).len() as int)
        },
        (RotationRequest::RenameActive { file_name }, RotationEvent::Renamed(Ok(_))) => {
            &&& dir.active is Some
            &&& after.active is None
            &&& after.others == dir.others.insert(file_name, dir.active->0)
        },
        (
            RotationRequest::MeasureSegments { file_names },
            RotationEvent::SegmentsMeasured(sizes),
        ) => {
            &&& after == dir
            &&& sizes@.len() == file_names.len()
            &&& forall|i: int|
                0 <= i < file_names.len() ==> {
                    &&& dir.others.dom().contains(#[trigger] file_names[i])
                    &&& sizes@[i] is Some
                    &&& sizes@[i]->0 == dir.others[file_names[i]].bytes.len()
                }
        },
        (RotationRequest::DeleteSegment { file_name }, RotationEvent::Deleted { len, removed }) => {
            &&& removed
            &&& dir.others.dom().contains(file_name)
            &&& len == dir.others[file_name].bytes.len()
            &&& after.active == dir.active
            &&& after.others == dir.others.remove(file_name)
        },
        _ => false,
    }
}

/// A point of a rotation: where it stands, what it asks for, and the directory
/// at that time.
pub struct RotationMoment<E> {
    pub state: RotationState,
    pub request: RotationRequest<E>,
    pub dir: Directory,
}

/// Whether one question and its answer lead from `before` to `after`.
pub open spec fn rotation_exchange<E>(
    max_bytes: u64,
    before: RotationMoment<E>,
    after: RotationMoment<E>,
) -> bool {
    exists|event: RotationEvent<E>|
        {
            &&& #[trigger] rotation_expects(before.state, event)
            &&& rotation_answered(before.dir, before.request, event, after.dir)
            &&& (after.state, after.request) == rotation_next(max_bytes, before.state, event)
        }
}

/// Whether `run` is a rotation in the making, from its first question on.
pub open spec fn is_rotation_run<E>(max_bytes: u64, run: Seq<RotationMoment<E>>) -> bool {
    &&& run.len() > 0
    &&& run[0].state == RotationState::MeasuringActive
    &&& run[0].request == RotationRequest::<E>::MeasureActive
    &&& forall|i: int, j: int|
        #![trigger run[i], run[j]]
        0 <= i && j == i + 1 && j < run.len() ==> rotation_exchange(max_bytes, run[i], run[j])
}

/// What is true `i` exchanges into the rotation of `log`.
spec fn rotation_stands<E>(max_bytes: u64, log: Log, i: int, moment: RotationMoment<E>) -> bool {
    let due = log.active_bytes().len() >= rotate_threshold(max_bytes);
    let rotated = log.rotated();
    match moment.state {
        RotationState::MeasuringActive => {
            &&& i == 0
            &&& moment.request == RotationRequest::<E>::MeasureActive
            &&& represents(moment.dir, log)
        },
        RotationState::Listing => {
            &&& i == 1
            &&& due
            &&& moment.request == RotationRequest::<E>::ListDirectory
            &&& represents(moment.dir, log)
        },
        RotationState::Counting { segments } => {
            &&& i == 2
            &&& due
            &&& segments == log.listed()
            &&& log.segments.len() > 0
            &&& moment.request == RotationRequest::<E>::CountLines {
                file_name: log.segments.last().file_name,
            }
            &&& represents(moment.dir, log)
        },
        RotationState::Renaming => {
            &&& i <= 3
            &&& due
            &&& moment.request == RotationRequest::<E>::RenameActive {
                file_name: segment_name(log.start() as u64),
            }
            &&& represents(moment.dir, log)
        },
        RotationState::Relisting => {
            &&& i <= 4
            &&& due
            &&& moment.request == RotationRequest::<E>::ListDirectory
            &&& represents(moment.dir, rotated)
        },
        RotationState::MeasuringSegments { segments } => {
            &&& i <= 5
            &&& due
            &&& segments == rotated.listed()
            &&& moment.request == RotationRequest::<E>::MeasureSegments {
                file_names: segments.map_values(|s: SegmentView| s.file_name),
            }
            &&& represents(moment.dir, rotated)
        },
        RotationState::Deleting { segments, total, next } => {
            &&& i <= 6 + next
            &&& due
            &&& segments == rotated.listed()
            &&& next + 1 < rotated.segments.len()
            &&& total == bytes_of(rotated.segments.skip(next as int))
            &&& total > max_bytes
            &&& prune_count(rotated.segments, max_bytes) == next + prune_count(
                rotated.segments.skip(next as int),
                max_bytes,
            )
            &&& moment.request == RotationRequest::<E>::DeleteSegment {
                file_name: rotated.segments[next as int].file_name,
            }
            &&& represents(moment.dir, rotated.pruned(next))
        },
        RotationState::Finished => {
            &&& i <= 6 + log.segments.len()
            &&& moment.request == RotationRequest::<E>::Finish(Ok(()))
            &&& represents(moment.dir, maintained(log, max_bytes))
        },
    }
}

proof fn lemma_sizes_total(segments: Seq<LogSegment>, sizes: Seq<Option<u64>>)
    requires
        segments.len() == sizes.len(),
        forall|i: int|
            0 <= i < sizes.len() ==> {
                &&& (#[trigger] sizes[i]) is Some
                &&& sizes[i]->0 == segments[i].file.bytes.len()
            },
    ensures
        byte_total(sizes) == bytes_of(segments),
    decreases sizes.len(),
{
    if sizes.len() > 0 {
        lemma_sizes_total(segments.drop_last(), sizes.drop_last());
    }
}

/// The active file of a valid history becomes a segment of its own.
proof fn lemma_rename(log: Log, dir: Directory, after: Directory)
    requires
        log.is_valid(),
        log.active is Some,
        represents(dir, log),
        after.active is None,
        after.others == dir.others.insert(segment_name(log.start() as u64), log.active->0),
    ensures
        represents(after, log.rotated()),
{
    let name = segment_name(log.start() as u64);
    let rotated = log.rotated();
    let n = log.segments.len() as int;
    law_segment_name_round_trip(log.start() as u64);
    law_active_file_is_no_segment();
    assert forall|i: int| 0 <= i < rotated.segments.len() implies after.others.dom().contains(
        (#[trigger] rotated.segments[i]).file_name,
    ) && after.others[rotated.segments[i].file_name] == rotated.segments[i].file by {
        if i < n {
            assert(rotated.segments[i] == log.segments[i]);
            assert(log.segments[i].start < log.start()) by {
                if i < n - 1 {
                    lemma_starts_ascend(log, i, n - 1);
                }
                assert(lines(log.segments[n - 1].file.bytes).len() > 0);
            }
            assert(log.segments[i].file_name != name);
        }
    }
    assert forall|other: Seq<char>| #[trigger]
        after.others.dom().contains(other) && segment_start(
            other,
        ) is Some implies exists|i: int|
        0 <= i < rotated.segments.len() && (#[trigger] rotated.segments[i]).file_name == other by {
        if other == name {
            assert(rotated.segments[n].file_name == other);
        } else {
            assert(dir.others.dom().contains(other));
            let i = choose|i: int|
                0 <= i < log.segments.len() && (#[trigger] log.segments[i]).file_name == other;
            assert(rotated.segments[i].file_name == other);
        }
    }
}

/// Deleting the oldest segment of a valid history prunes it by one.
proof fn lemma_delete(log: Log, n: nat, dir: Directory, after: Directory)
    requires
        log.is_valid(),
        n < log.segments.len(),
        represents(dir, log.pruned(n)),
        after.active == dir.active,
        after.others == dir.others.remove(log.segments[n as int].file_name),
    ensures
        represents(after, log.pruned(n + 1)),
{
    let before = log.pruned(n);
    let pruned = log.pruned(n + 1);
    let gone = log.segments[n as int].file_name;
    assert forall|i: int| 0 <= i < pruned.segments.len() implies after.others.dom().contains(
        (#[trigger] pruned.segments[i]).file_name,
    ) && after.others[pruned.segments[i].file_name] == pruned.segments[i].file by {
        assert(pruned.segments[i] == before.segments[i + 1]);
        assert(pruned.segments[i] == log.segments[i + n + 1]);
        lemma_starts_ascend(log, n as int, i + n + 1);
        assert(pruned.segments[i].file_name != gone);
    }
    assert forall|other: Seq<char>| #[trigger]
        after.others.dom().contains(other) && segment_start(
            other,
        ) is Some implies exists|i: int|
        0 <= i < pruned.segments.len() && (#[trigger] pruned.segments[i]).file_name == other by {
        assert(dir.others.dom().contains(other));
        let i = choose|i: int|
            0 <= i < before.segments.len() && (#[trigger] before.segments[i]).file_name == other;
        if i == 0 {
            assert(before.segments[0] == log.segments[n as int]);
        }
        assert(pruned.segments[i - 1] == before.segments[i]);
    }
}

/// What `deleting` leads to keeps the account straight.
proof fn lemma_deleting_stands<E>(
    max_bytes: u64,
    log: Log,
    i: int,
    total: u64,
    next: nat,
    dir: Directory,
)
    requires
        log.active is Some,
        log.active_bytes().len() >= rotate_threshold(max_bytes),
        i <= 6 + next,
        next < log.rotated().segments.len(),
        total == bytes_of(log.rotated().segments.skip(next as int)),
        prune_count(log.rotated().segments, max_bytes) == next + prune_count(
            log.rotated().segments.skip(next as int),
            max_bytes,
        ),
        represents(dir, log.rotated().pruned(next)),
    ensures
        ({
            let (state, request) = deleting::<E>(log.rotated().listed(), total, next, max_bytes);
            rotation_stands(max_bytes, log, i, RotationMoment { state, request, dir })
        }),
{
}

proof fn lemma_rotation_step<E>(
    max_bytes: u64,
    log: Log,
    i: int,
    before: RotationMoment<E>,
    after: RotationMoment<E>,
)
    requires
        log.is_valid(),
        log.active is Some,
        log.rotated().rotated_bytes() <= u64::MAX,
        rotation_stands(max_bytes, log, i, before),
        rotation_exchange(max_bytes, before, after),
    ensures
        rotation_stands(max_bytes, log, i + 1, after),
{
    let event = choose|event: RotationEvent<E>|
        {
            &&& #[trigger] rotation_expects(before.state, event)
            &&& rotation_answered(before.dir, before.request, event, after.dir)
            &&& (after.state, after.request) == rotation_next(max_bytes, before.state, event)
        };
    let rotated = log.rotated();
    if log.active_bytes().len() >= rotate_threshold(max_bytes) {
        lemma_clean_has_line(log.active_bytes());
        law_rotate(log);
    }
    match before.state {
        RotationState::MeasuringActive => {},
        RotationState::Listing => {
            let listing = event->Listed_0;
            law_listing_shows_history(before.dir, log, listing);
            if log.segments.len() > 0 {
                assert(log.listed().last() == log.segments.last().listed());
            }
        },
        RotationState::Counting { segments } => {
            let newest = log.segments.last();
            assert(log.listed().last() == newest.listed());
            assert(before.dir.others[log.segments[log.segments.len() - 1].file_name]
                == newest.file);
            let n = event->Counted_0;
            assert(newest.end() <= u64::MAX);
            assert(n == lines(newest.file.bytes).len());
            assert(active_start(segments, n as nat) == log.start());
        },
        RotationState::Renaming => {
            lemma_rename(log, before.dir, after.dir);
        },
        RotationState::Relisting => {
            let listing = event->Listed_0;
            law_listing_shows_history(before.dir, rotated, listing);
        },
        RotationState::MeasuringSegments { segments } => {
            let sizes = event->SegmentsMeasured_0@;
            let file_names = segments.map_values(|s: SegmentView| s.file_name);
            assert forall|k: int| 0 <= k < sizes.len() implies {
                &&& (#[trigger] sizes[k]) is Some
                &&& sizes[k]->0 == rotated.segments[k].file.bytes.len()
            } by {
                assert(file_names[k] == rotated.segments[k].file_name);
            }
            lemma_sizes_total(rotated.segments, sizes);
            assert(rotated.segments.skip(0) =~= rotated.segments);
            assert(rotated.pruned(0) == rotated);
            let total = saturated(byte_total(sizes) as int);
            lemma_deleting_stands::<E>(max_bytes, log, i + 1, total, 0, after.dir);
        },
        RotationState::Deleting { segments, total, next } => {
            let victim = rotated.segments[next as int];
            let left = rotated.segments.skip(next as int);
            assert(rotated.pruned(next).segments[0] == victim);
            assert(before.dir.others[victim.file_name] == victim.file);
            lemma_bytes_of_skip(left);
            assert(left.skip(1) =~= rotated.segments.skip((next + 1) as int));
            lemma_delete(rotated, next, before.dir, after.dir);
            let len = event->Deleted_len;
            lemma_deleting_stands::<E>(
                max_bytes,
                log,
                i + 1,
                (total - len) as u64,
                next + 1,
                after.dir,
            );
        },
        RotationState::Finished => {},
    }
}

proof fn lemma_rotation_stands<E>(
    max_bytes: u64,
    log: Log,
    run: Seq<RotationMoment<E>>,
    i: int,
)
    requires
        is_rotation_run(max_bytes, run),
        0 <= i < run.len(),
        represents(run[0].dir, log),
        log.is_valid(),
        log.active is Some,
        log.rotated().rotated_bytes() <= u64::MAX,
    ensures
        rotation_stands(max_bytes, log, i, run[i]),
    decreases i,
{
    if i > 0 {
        lemma_rotation_stands(max_bytes, log, run, i - 1);
        assert(rotation_exchange(max_bytes, run[i - 1], run[i]));
        lemma_rotation_step(max_bytes, log, i - 1, run[i - 1], run[i]);
    }
}

proof fn lemma_rotation_keeps_foreign<E>(
    max_bytes: u64,
    log: Log,
    run: Seq<RotationMoment<E>>,
    i: int,
)
    requires
        is_rotation_run(max_bytes, run),
        0 <= i < run.len(),
        represents(run[0].dir, log),
        log.is_valid(),
        log.active is Some,
        log.rotated().rotated_bytes() <= u64::MAX,
    ensures
        keeps_foreign(run[0].dir, run[i].dir),
    decreases i,
{
    if i > 0 {
        let before = run[i - 1];
        lemma_rotation_keeps_foreign(max_bytes, log, run, i - 1);
        lemma_rotation_stands(max_bytes, log, run, i - 1);
        assert(rotation_exchange(max_bytes, before, run[i]));
        law_segment_name_round_trip(log.start() as u64);
        if before.state is Deleting {
            lemma_clean_has_line(log.active_bytes());
            law_rotate(log);
            let victim = log.rotated().segments[before.state->next as int];
            assert(segment_start(victim.file_name) == Some(victim.start));
        }
        assert(keeps_foreign(before.dir, run[i].dir));
    }
}

/// A rotation whose requests succeed asks a bounded number of questions, ends
/// well, and leaves the directory with the maintained history. It touches no
/// file that is none of the history's.
pub proof fn law_rotation_maintains<E>(max_bytes: u64, log: Log, run: Seq<RotationMoment<E>>)
    requires
        is_rotation_run(max_bytes, run),
        represents(run[0].dir, log),
        log.is_valid(),
        log.active is Some,
        log.rotated().rotated_bytes() <= u64::MAX,
    ensures
        run.len() <= log.segments.len() + 7,
        keeps_foreign(run[0].dir, run.last().dir),
        run.last().state is Finished ==> {
            &&& run.last().request == RotationRequest::<E>::Finish(Ok(()))
            &&& represents(run.last().dir, maintained(log, max_bytes))
        },
{
    lemma_rotation_stands(max_bytes, log, run, run.len() - 1);
    lemma_rotation_keeps_foreign(max_bytes, log, run, run.len() - 1);
}

/// A rotation never gets stuck: until it has finished, it takes every true
/// answer to its question, and goes on from there; and it has finished exactly
/// when it asks for nothing more.
pub proof fn law_rotation_goes_on<E>(
    max_bytes: u64,
    log: Log,
    run: Seq<RotationMoment<E>>,
    event: RotationEvent<E>,
    after: Directory,
)
    requires
        is_rotation_run(max_bytes, run),
        represents(run[0].dir, log),
        log.is_valid(),
        log.active is Some,
        log.rotated().rotated_bytes() <= u64::MAX,
        rotation_answered(run.last().dir, run.last().request, event, after),
    ensures
        rotation_expects(run.last().state, event),
        !(run.last().state is Finished),
        ({
            let (state, request) = rotation_next(max_bytes, run.last().state, event);
            is_rotation_run(max_bytes, run.push(RotationMoment { state, request, dir: after }))
        }),
{
    lemma_rotation_stands(max_bytes, log, run, run.len() - 1);
    let (state, request) = rotation_next(max_bytes, run.last().state, event);
    let next = RotationMoment { state, request, dir: after };
    let longer = run.push(next);
    assert(rotation_expects(run.last().state, event));
    assert(rotation_exchange(max_bytes, run.last(), next));
    assert forall|i: int, j: int|
        #![trigger longer[i], longer[j]]
        0 <= i && j == i + 1 && j < longer.len() implies rotation_exchange(
        max_bytes,
        longer[i],
        longer[j],
    ) by {
        if j < run.len() {
            assert(rotation_exchange(max_bytes, run[i], run[j]));
        }
    }
}

} // verus!
