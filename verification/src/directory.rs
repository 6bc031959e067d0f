//! The directory that holds the history, and how its contents stand for the
//! logical history whatever order they are listed in.

use vstd::prelude::*;

use crate::config::HISTORY_FILENAME;
use crate::lines::lines;
use crate::log::{Log, StoredFile};
use crate::rotation::listed_segments;
use crate::segments::{
    arranged, insert_ordered, law_active_file_is_no_segment, names_of, recognised, segment_start,
    SegmentView,
};

verus! {

/// The files of a directory: the active file, and the others by their names.
pub struct Directory {
    pub active: Option<StoredFile>,
    pub others: Map<Seq<char>, StoredFile>,
}

/// Whether `listing` names each file of the directory once, in any order.
pub open spec fn lists(dir: Directory, listing: Option<Vec<String>>) -> bool {
    match listing {
        Some(names) => {
            &&& names_of(names@).no_duplicates()
            &&& forall|name: Seq<char>| #[trigger]
                names_of(names@).contains(name) <==> (dir.others.dom().contains(name) || (name
                    == HISTORY_FILENAME@ && dir.active is Some))
        },
        None => false,
    }
}

/// Whether the directory holds exactly the files of `log`, besides files that
/// have nothing to do with the history.
pub open spec fn represents(dir: Directory, log: Log) -> bool {
    &&& dir.active == log.active
    &&& forall|i: int|
        0 <= i < log.segments.len() ==> dir.others.dom().contains(
            (#[trigger] log.segments[i]).file_name,
        ) && dir.others[log.segments[i].file_name] == log.segments[i].file
    &&& forall|name: Seq<char>| #[trigger]
        dir.others.dom().contains(name) && segment_start(name) is Some ==> exists|i: int|
            0 <= i < log.segments.len() && (#[trigger] log.segments[i]).file_name == name
    &&& !dir.others.dom().contains(HISTORY_FILENAME@)
}

/// Whether files that have nothing to do with the history are the same in both
/// directories.
pub open spec fn keeps_foreign(before: Directory, after: Directory) -> bool {
    forall|name: Seq<char>|
        segment_start(name) is None ==> {
            &&& #[trigger] after.others.dom().contains(name) <==> before.others.dom().contains(name)
            &&& before.others.dom().contains(name) ==> after.others[name] == before.others[name]
        }
}

spec fn strictly_ascending(segments: Seq<SegmentView>) -> bool {
    forall|i: int, j: int|
        0 <= i < j < segments.len() ==> (#[trigger] segments[i]).start < (
        #[trigger] segments[j]).start
}

proof fn lemma_same_elements(a: Seq<SegmentView>, b: Seq<SegmentView>)
    requires
        strictly_ascending(a),
        strictly_ascending(b),
        forall|v: SegmentView| #[trigger] a.contains(v) <==> b.contains(v),
    ensures
        a == b,
    decreases a.len(),
{
    if a.len() == 0 {
        if b.len() > 0 {
            assert(a.contains(b[0]));
        }
    } else {
        assert(a.contains(a.last()));
        let j = choose|j: int| 0 <= j < b.len() && b[j] == a.last();
        assert(b.contains(b.last()));
        assert(a.contains(b.last()));
        let i = choose|i: int| 0 <= i < a.len() && a[i] == b.last();
        if j < b.len() - 1 {
            assert(b[j].start < b[b.len() - 1].start);
            if i < a.len() - 1 {
                assert(a[i].start < a[a.len() - 1].start);
            }
        }
        assert(a.last() == b.last());
        let fa = a.drop_last();
        let fb = b.drop_last();
        assert forall|v: SegmentView| #[trigger] fa.contains(v) <==> fb.contains(v) by {
            if fa.contains(v) {
                let k = choose|k: int| 0 <= k < fa.len() && fa[k] == v;
                assert(a[k].start < a[a.len() - 1].start);
                assert(a.contains(v));
                let m = choose|m: int| 0 <= m < b.len() && b[m] == v;
                assert(fb[m] == v);
            }
            if fb.contains(v) {
                let k = choose|k: int| 0 <= k < fb.len() && fb[k] == v;
                assert(b[k].start < b[b.len() - 1].start);
                assert(b.contains(v));
                assert(a.contains(v));
                let m = choose|m: int| 0 <= m < a.len() && a[m] == v;
                assert(fa[m] == v);
            }
        }
        lemma_same_elements(fa, fb);
        assert(a =~= fa.push(a.last()));
        assert(b =~= fb.push(b.last()));
    }
}

proof fn lemma_insert_elements(segments: Seq<SegmentView>, added: SegmentView)
    ensures
        forall|v: SegmentView| #[trigger]
            insert_ordered(segments, added).contains(v) <==> segments.contains(v) || v == added,
    decreases segments.len(),
{
    let result = insert_ordered(segments, added);
    if segments.len() == 0 || segments.last().start <= added.start {
        assert forall|v: SegmentView| #[trigger] result.contains(v) <==> segments.contains(v) || v
            == added by {
            if segments.contains(v) {
                let k = choose|k: int| 0 <= k < segments.len() && segments[k] == v;
                assert(result[k] == v);
            }
            assert(result[segments.len() as int] == added);
        }
    } else {
        let front = segments.drop_last();
        let inner = insert_ordered(front, added);
        lemma_insert_elements(front, added);
        assert forall|v: SegmentView| #[trigger] result.contains(v) <==> segments.contains(v) || v
            == added by {
            if result.contains(v) {
                let k = choose|k: int| 0 <= k < result.len() && result[k] == v;
                if k < inner.len() {
                    assert(inner.contains(v));
                    if front.contains(v) {
                        let m = choose|m: int| 0 <= m < front.len() && front[m] == v;
                        assert(segments[m] == v);
                    }
                } else {
                    assert(segments[segments.len() - 1] == v);
                }
            }
            if segments.contains(v) {
                let k = choose|k: int| 0 <= k < segments.len() && segments[k] == v;
                if k < front.len() {
                    assert(front[k] == v);
                    assert(inner.contains(v));
                    let m = choose|m: int| 0 <= m < inner.len() && inner[m] == v;
                    assert(result[m] == v);
                } else {
                    assert(result[inner.len() as int] == v);
                }
            }
            if v == added {
                assert(inner.contains(v));
                let m = choose|m: int| 0 <= m < inner.len() && inner[m] == v;
                assert(result[m] == v);
            }
        }
    }
}

proof fn lemma_insert_strict(segments: Seq<SegmentView>, added: SegmentView)
    requires
        strictly_ascending(segments),
        forall|i: int| 0 <= i < segments.len() ==> (#[trigger] segments[i]).start != added.start,
    ensures
        strictly_ascending(insert_ordered(segments, added)),
    decreases segments.len(),
{
    if segments.len() == 0 || segments.last().start <= added.start {
        let result = segments.push(added);
        assert forall|i: int, j: int| 0 <= i < j < result.len() implies (
        #[trigger] result[i]).start < (#[trigger] result[j]).start by {
            if j == segments.len() && i < segments.len() - 1 {
                assert(segments[i].start < segments[segments.len() - 1].start);
            }
        }
    } else {
        let front = segments.drop_last();
        lemma_insert_strict(front, added);
        lemma_insert_elements(front, added);
        let inner = insert_ordered(front, added);
        let result = inner.push(segments.last());
        assert forall|i: int, j: int| 0 <= i < j < result.len() implies (
        #[trigger] result[i]).start < (#[trigger] result[j]).start by {
            if j == inner.len() {
                assert(inner.contains(inner[i]));
                if inner[i] != added {
                    let m = choose|m: int| 0 <= m < front.len() && front[m] == inner[i];
                    assert(segments[m].start < segments[segments.len() - 1].start);
                }
            }
        }
    }
}

/// No two segments with one start.
spec fn distinct_starts(segments: Seq<SegmentView>) -> bool {
    forall|i: int, j: int|
        0 <= i < j < segments.len() ==> (#[trigger] segments[i]).start != (
        #[trigger] segments[j]).start
}

proof fn lemma_arranged_elements(segments: Seq<SegmentView>)
    ensures
        forall|v: SegmentView| #[trigger] arranged(segments).contains(v) <==> segments.contains(v),
        distinct_starts(segments) ==> strictly_ascending(arranged(segments)),
    decreases segments.len(),
{
    if segments.len() > 0 {
        let front = segments.drop_last();
        let inner = arranged(front);
        let added = segments.last();
        lemma_arranged_elements(front);
        lemma_insert_elements(inner, added);
        assert forall|v: SegmentView| #[trigger]
            arranged(segments).contains(v) <==> segments.contains(v) by {
            if front.contains(v) {
                let m = choose|m: int| 0 <= m < front.len() && front[m] == v;
                assert(segments[m] == v);
            }
            if segments.contains(v) && v != added {
                let m = choose|m: int| 0 <= m < segments.len() && segments[m] == v;
                assert(front[m] == v);
            }
            assert(segments[segments.len() - 1] == added);
        }
        if distinct_starts(segments) {
            assert forall|i: int, j: int| 0 <= i < j < front.len() implies (
            #[trigger] front[i]).start != (#[trigger] front[j]).start by {
                assert(segments[i].start != segments[j].start);
            }
            assert forall|i: int| 0 <= i < inner.len() implies (#[trigger] inner[i]).start
                != added.start by {
                assert(inner.contains(inner[i]));
                let m = choose|m: int| 0 <= m < front.len() && front[m] == inner[i];
                assert(segments[m].start != segments[segments.len() - 1].start);
            }
            lemma_insert_strict(inner, added);
        }
    }
}

proof fn lemma_recognised_elements(names: Seq<Seq<char>>)
    ensures
        forall|v: SegmentView| #[trigger]
            recognised(names).contains(v) <==> (names.contains(v.file_name) && segment_start(
                v.file_name,
            ) == Some(v.start)),
    decreases names.len(),
{
    if names.len() > 0 {
        let front = names.drop_last();
        lemma_recognised_elements(front);
        assert forall|v: SegmentView| #[trigger]
            recognised(names).contains(v) <==> (names.contains(v.file_name) && segment_start(
                v.file_name,
            ) == Some(v.start)) by {
            let all = recognised(names);
            let some = recognised(front);
            if all.contains(v) {
                let k = choose|k: int| 0 <= k < all.len() && all[k] == v;
                if k < some.len() {
                    assert(some.contains(v));
                    let m = choose|m: int| 0 <= m < front.len() && front[m] == v.file_name;
                    assert(names[m] == v.file_name);
                } else {
                    assert(names[names.len() - 1] == v.file_name);
                }
            }
            if names.contains(v.file_name) && segment_start(v.file_name) == Some(v.start) {
                let m = choose|m: int| 0 <= m < names.len() && names[m] == v.file_name;
                if m < front.len() {
                    assert(front[m] == v.file_name);
                    assert(some.contains(v));
                    let k = choose|k: int| 0 <= k < some.len() && some[k] == v;
                    assert(all[k] == v);
                } else {
                    assert(all[some.len() as int] == v);
                }
            }
        }
    }
}

proof fn lemma_recognised_distinct(names: Seq<Seq<char>>)
    requires
        names.no_duplicates(),
        forall|a: Seq<char>, b: Seq<char>|
            #![trigger segment_start(a), segment_start(b)]
            names.contains(a) && names.contains(b) && segment_start(a) is Some && segment_start(a)
                == segment_start(b) ==> a == b,
    ensures
        distinct_starts(recognised(names)),
    decreases names.len(),
{
    if names.len() > 0 {
        let front = names.drop_last();
        assert forall|a: Seq<char>| #[trigger] front.contains(a) implies names.contains(a) by {
            let m = choose|m: int| 0 <= m < front.len() && front[m] == a;
            assert(names[m] == a);
        }
        lemma_recognised_distinct(front);
        lemma_recognised_elements(front);
        let some = recognised(front);
        let all = recognised(names);
        assert forall|i: int, j: int| 0 <= i < j < all.len() implies (#[trigger] all[i]).start != (
        #[trigger] all[j]).start by {
            if j == some.len() {
                assert(some.contains(all[i]));
                assert(front.contains(all[i].file_name));
                let m = choose|m: int| 0 <= m < front.len() && front[m] == all[i].file_name;
                assert(names.contains(names.last()));
                assert(names[m] != names[names.len() - 1]);
                if all[i].start == all[j].start {
                    assert(segment_start(all[i].file_name) == segment_start(names.last()));
                }
            }
        }
    }
}

/// The segments of a valid history start one after another.
pub proof fn lemma_starts_ascend(log: Log, i: int, j: int)
    requires
        log.is_valid(),
        0 <= i < j < log.segments.len(),
    ensures
        log.segments[i].start < log.segments[j].start,
{
    assert(log.segments[i].end() <= log.segments[j].start);
    assert(lines(log.segments[i].file.bytes).len() > 0);
}

/// Whatever order a directory is listed in, and whatever foreign files lie in
/// it, its listing shows the segments of the history, oldest first.
pub proof fn law_listing_shows_history(dir: Directory, log: Log, listing: Option<Vec<String>>)
    requires
        log.is_valid(),
        represents(dir, log),
        lists(dir, listing),
    ensures
        listed_segments(listing) == log.listed(),
{
    let names = names_of(listing->0@);
    let found = recognised(names);
    let expected = log.listed();
    assert forall|i: int, j: int| 0 <= i < j < expected.len() implies (
    #[trigger] expected[i]).start < (#[trigger] expected[j]).start by {
        lemma_starts_ascend(log, i, j);
    }
    law_active_file_is_no_segment();
    assert forall|name: Seq<char>| names.contains(name) && #[trigger] segment_start(
        name,
    ) is Some implies exists|i: int|
        0 <= i < log.segments.len() && (#[trigger] log.segments[i]).file_name == name by {
        assert(dir.others.dom().contains(name));
    }
    assert forall|a: Seq<char>, b: Seq<char>|
        #![trigger segment_start(a), segment_start(b)]
        names.contains(a) && names.contains(b) && segment_start(a) is Some && segment_start(a)
            == segment_start(b) implies a == b by {
        let i = choose|i: int|
            0 <= i < log.segments.len() && (#[trigger] log.segments[i]).file_name == a;
        let j = choose|j: int|
            0 <= j < log.segments.len() && (#[trigger] log.segments[j]).file_name == b;
        if i < j {
            lemma_starts_ascend(log, i, j);
        } else if j < i {
            lemma_starts_ascend(log, j, i);
        }
    }
    lemma_recognised_distinct(names);
    lemma_recognised_elements(names);
    lemma_arranged_elements(found);
    assert forall|v: SegmentView| #[trigger]
        arranged(found).contains(v) <==> expected.contains(v) by {
        if arranged(found).contains(v) {
            assert(found.contains(v));
            let i = choose|i: int|
                0 <= i < log.segments.len() && (#[trigger] log.segments[i]).file_name
                    == v.file_name;
            assert(expected[i] == v);
        }
        if expected.contains(v) {
            let i = choose|i: int| 0 <= i < expected.len() && expected[i] == v;
            assert(log.segments[i].file_name == v.file_name);
            assert(names.contains(v.file_name));
            assert(found.contains(v));
        }
    }
    lemma_same_elements(arranged(found), expected);
}

} // verus!
