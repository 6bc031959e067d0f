//! Segment layout of the message history log.
//!
//! The logical history is one active file plus zero or more immutable rotated
//! segments named `history.<start>.jsonl`, where `<start>` is the global
//! zero-based entry index of the segment's first line. Appends only ever touch
//! the active file. When the active file reaches the rotation threshold it is
//! renamed into place as the newest segment, which preserves its identity for
//! cached lookups, and a fresh active file begins. Cap enforcement deletes
//! whole segments oldest-first and never rewrites retained bytes.

use std::path::PathBuf;
use vstd::prelude::*;
use vstd::slice::slice_subrange;

use crate::config::FilePath;
use crate::config::HISTORY_FILENAME;
use crate::lines::saturated;
use crate::text::{chars_of, decimal_string, parse_decimal};
use crate::text::{
    all_digits, decimal, decimal_value, law_digits_are_ascii, lemma_decimal_round_trip,
};

verus! {

pub const SEGMENT_PREFIX: &'static str = "history.";

pub const SEGMENT_SUFFIX: &'static str = ".jsonl";

/// The name of the segment whose first line has the global index `start`.
pub open spec fn segment_name(start: u64) -> Seq<char> {
    SEGMENT_PREFIX@ + decimal(start as nat) + SEGMENT_SUFFIX@
}

/// What stands between prefix and suffix in a name that has both.
pub open spec fn middle(name: Seq<char>) -> Seq<char> {
    name.subrange(SEGMENT_PREFIX@.len() as int, name.len() - SEGMENT_SUFFIX@.len())
}

/// The start index that a file name `history.<digits>.jsonl` gives. Any other
/// name, or digits that denote more than a `u64` holds, gives none.
pub open spec fn segment_start(name: Seq<char>) -> Option<u64> {
    if name == SEGMENT_PREFIX@ + middle(name) + SEGMENT_SUFFIX@ && middle(name).len() > 0
        && all_digits(middle(name)) && decimal_value(middle(name)) <= u64::MAX {
        Some(decimal_value(middle(name)) as u64)
    } else {
        None
    }
}

proof fn lemma_affixes()
    ensures
        SEGMENT_PREFIX@ == seq!['h', 'i', 's', 't', 'o', 'r', 'y', '.'],
        SEGMENT_SUFFIX@ == seq!['.', 'j', 's', 'o', 'n', 'l'],
{
    reveal_strlit("history.");
    reveal_strlit(".jsonl");
    assert(SEGMENT_PREFIX@ =~= seq!['h', 'i', 's', 't', 'o', 'r', 'y', '.']);
    assert(SEGMENT_SUFFIX@ =~= seq!['.', 'j', 's', 'o', 'n', 'l']);
}

/// The name made for a segment is read back as the index it was made from.
pub proof fn law_segment_name_round_trip(start: u64)
    ensures
        segment_start(segment_name(start)) == Some(start),
{
    lemma_decimal_round_trip(start as nat);
    assert(middle(segment_name(start)) =~= decimal(start as nat));
}

/// A segment is named `history.<start>.jsonl`, with the start as a numeral.
pub proof fn law_segment_names(start: u64)
    ensures
        segment_name(start) == "history."@ + decimal(start as nat) + ".jsonl"@,
{
}

/// Every name `history.<digits>.jsonl` gives the number that its digits denote,
/// if it fits.
pub proof fn law_segment_names_are_read(digits: Seq<char>)
    requires
        digits.len() > 0,
        forall|i: int| 0 <= i < digits.len() ==> 48 <= (#[trigger] digits[i]) as int <= 57,
    ensures
        segment_start("history."@ + digits + ".jsonl"@) == (if decimal_value(digits) <= u64::MAX {
            Some(decimal_value(digits) as u64)
        } else {
            None
        }),
{
    let name = "history."@ + digits + ".jsonl"@;
    assert(middle(name) =~= digits);
    law_digits_are_ascii(digits);
}

/// No other name gives a number.
pub proof fn law_other_names_are_refused(name: Seq<char>)
    ensures
        segment_start(name) is Some ==> exists|digits: Seq<char>|
            {
                &&& name == #[trigger] ("history."@ + digits) + ".jsonl"@
                &&& digits.len() > 0
                &&& forall|i: int|
                    0 <= i < digits.len() ==> 48 <= (#[trigger] digits[i]) as int <= 57
            },
{
    if segment_start(name) is Some {
        let digits = middle(name);
        law_digits_are_ascii(digits);
        assert(name == ("history."@ + digits) + ".jsonl"@);
    }
}

/// The active file is called `history.jsonl`.
pub proof fn law_active_file_name()
    ensures
        HISTORY_FILENAME@ == "history.jsonl"@,
{
}

/// The active file is never taken for a segment.
pub proof fn law_active_file_is_no_segment()
    ensures
        segment_start(HISTORY_FILENAME@) is None,
{
    lemma_affixes();
    reveal_strlit("history.jsonl");
    assert(HISTORY_FILENAME@.len() == 13);
}

/// Whether `chars` holds `part` from index `at` on.
fn holds_at(chars: &Vec<char>, at: usize, part: &Vec<char>) -> (r: bool)
    requires
        at + part.len() <= chars.len(),
    ensures
        r == (chars@.subrange(at as int, at + part.len()) == part@),
{
    let mut i: usize = 0;
    while i < part.len()
        invariant
            i <= part.len(),
            at + part.len() <= chars.len(),
            forall|j: int| 0 <= j < i ==> chars@[at + j] == part@[j],
        decreases part.len() - i,
    {
        if chars[at + i] != part[i] {
            assert(chars@.subrange(at as int, at + part.len())[i as int] != part@[i as int]);
            return false;
        }
        i = i + 1;
    }
    assert(chars@.subrange(at as int, at + part.len()) =~= part@);
    true
}

/// Whether `chars` are ASCII digits throughout.
fn are_digits(chars: &[char]) -> (r: bool)
    ensures
        r == all_digits(chars@),
{
    let mut i: usize = 0;
    while i < chars.len()
        invariant
            i <= chars.len(),
            forall|j: int| 0 <= j < i ==> crate::text::is_digit(#[trigger] chars@[j]),
        decreases chars.len() - i,
    {
        if chars[i] < '0' || chars[i] > '9' {
            assert(!crate::text::is_digit(chars@[i as int]));
            return false;
        }
        i = i + 1;
    }
    true
}

/// Parses `history.<digits>.jsonl` into the segment start index.
pub fn parse_segment_start(name: &str) -> (r: Option<u64>)
    ensures
        r == segment_start(name@),
{
    let chars: Vec<char> = chars_of(name);
    let prefix: Vec<char> = chars_of(SEGMENT_PREFIX);
    let suffix: Vec<char> = chars_of(SEGMENT_SUFFIX);
    proof {
        lemma_affixes();
    }
    let n: usize = chars.len();
    if n <= prefix.len() + suffix.len() {
        return None;
    }
    if !holds_at(&chars, 0, &prefix) || !holds_at(&chars, n - suffix.len(), &suffix) {
        proof {
            let whole = SEGMENT_PREFIX@ + middle(name@) + SEGMENT_SUFFIX@;
            if whole == name@ {
                assert(whole.subrange(0, 8) =~= SEGMENT_PREFIX@);
                assert(whole.subrange(n - 6, n as int) =~= SEGMENT_SUFFIX@);
            }
        }
        return None;
    }
    assert(SEGMENT_PREFIX@ + middle(name@) + SEGMENT_SUFFIX@ =~= name@) by {
        assert(name@.subrange(0, 8) == SEGMENT_PREFIX@);
        assert(name@.subrange(n - 6, n as int) == SEGMENT_SUFFIX@);
        assert(name@ =~= name@.subrange(0, 8) + middle(name@) + name@.subrange(n - 6, n as int));
    }
    let digits: &[char] = slice_subrange(chars.as_slice(), prefix.len(), n - suffix.len());
    if !are_digits(digits) {
        return None;
    }
    parse_decimal(digits)
}

/// The name of the segment whose first line has the global index `start`.
pub fn segment_file_name(start: u64) -> (r: String)
    ensures
        r@ == segment_name(start),
{
    let mut name: String = SEGMENT_PREFIX.to_owned();
    name.append(decimal_string(start).as_str());
    name.append(SEGMENT_SUFFIX);
    name
}

/// Returns the path a rotation of the active file must rename it to.
pub fn segment_path(dir: &PathBuf, start: u64) -> (r: FilePath<'_>)
    ensures
        r.dir == dir,
        r.file_name@ == segment_name(start),
{
    FilePath { dir, file_name: segment_file_name(start) }
}

/// One rotated, effectively immutable history segment.
#[derive(Debug, PartialEq, Eq)]
pub struct Segment {
    /// Global entry index of this segment's first line.
    pub start: u64,
    pub file_name: String,
}

impl Clone for Segment {
    fn clone(&self) -> (r: Self)
        ensures
            r == *self,
    {
        Segment { start: self.start, file_name: self.file_name.clone() }
    }
}

/// What a [`Segment`] says.
pub struct SegmentView {
    pub start: u64,
    pub file_name: Seq<char>,
}

impl View for Segment {
    type V = SegmentView;

    open spec fn view(&self) -> SegmentView {
        SegmentView { start: self.start, file_name: self.file_name@ }
    }
}

/// The names in a directory listing that are names of segments, in the order
/// of the listing.
pub open spec fn recognised(names: Seq<Seq<char>>) -> Seq<SegmentView>
    decreases names.len(),
{
    if names.len() == 0 {
        Seq::empty()
    } else {
        match segment_start(names.last()) {
            Some(start) => recognised(names.drop_last()).push(
                SegmentView { start, file_name: names.last() },
            ),
            None => recognised(names.drop_last()),
        }
    }
}

/// Whether no segment starts before one that stands ahead of it.
pub open spec fn ascending(segments: Seq<SegmentView>) -> bool {
    forall|i: int, j: int|
        0 <= i <= j < segments.len() ==> (#[trigger] segments[i]).start <= (
        #[trigger] segments[j]).start
}

/// `segments` with `added` behind the last one that does not start after it.
pub open spec fn insert_ordered(
    segments: Seq<SegmentView>,
    added: SegmentView,
) -> Seq<SegmentView>
    decreases segments.len(),
{
    if segments.len() == 0 || segments.last().start <= added.start {
        segments.push(added)
    } else {
        insert_ordered(segments.drop_last(), added).push(segments.last())
    }
}

/// The segments of a directory listing, oldest first.
pub open spec fn arranged(segments: Seq<SegmentView>) -> Seq<SegmentView>
    decreases segments.len(),
{
    if segments.len() == 0 {
        Seq::empty()
    } else {
        insert_ordered(arranged(segments.drop_last()), segments.last())
    }
}

/// The segments of `segments` that start at `start`, in their order.
pub open spec fn starting_at(segments: Seq<SegmentView>, start: u64) -> Seq<SegmentView> {
    segments.filter(|s: SegmentView| s.start == start)
}

proof fn lemma_insert_ordered(segments: Seq<SegmentView>, added: SegmentView)
    requires
        ascending(segments),
    ensures
        ascending(insert_ordered(segments, added)),
        insert_ordered(segments, added).len() == segments.len() + 1,
        insert_ordered(segments, added).last().start == (if segments.len() > 0
            && segments.last().start > added.start {
            segments.last().start
        } else {
            added.start
        }),
        forall|start: u64| #[trigger]
            starting_at(insert_ordered(segments, added), start) == starting_at(
                segments.push(added),
                start,
            ),
    decreases segments.len(),
{
    if !(segments.len() == 0 || segments.last().start <= added.start) {
        let front = segments.drop_last();
        lemma_insert_ordered(front, added);
        let inner = insert_ordered(front, added);
        assert forall|start: u64| #[trigger]
            starting_at(insert_ordered(segments, added), start) == starting_at(
                segments.push(added),
                start,
            ) by {
            let f = |s: SegmentView| s.start == start;
            reveal(Seq::filter);
            assert(starting_at(inner, start) == starting_at(front.push(added), start));
            assert(inner.push(segments.last()).drop_last() =~= inner);
            assert(front.push(added).drop_last() =~= front);
            assert(segments.push(added).drop_last() =~= segments);
            assert(inner.push(segments.last()).filter(f) == if f(segments.last()) {
                inner.filter(f).push(segments.last())
            } else {
                inner.filter(f)
            });
            assert(front.push(added).filter(f) == if f(added) {
                front.filter(f).push(added)
            } else {
                front.filter(f)
            });
            assert(segments.filter(f) == if f(segments.last()) {
                front.filter(f).push(segments.last())
            } else {
                front.filter(f)
            });
            assert(segments.push(added).filter(f) == if f(added) {
                segments.filter(f).push(added)
            } else {
                segments.filter(f)
            });
        }
    }
}

/// Arranging sorts by start and is stable: nothing is lost or added, and
/// segments with one start keep their order.
pub proof fn law_arranged_sorts(segments: Seq<SegmentView>)
    ensures
        ascending(arranged(segments)),
        arranged(segments).len() == segments.len(),
        forall|start: u64| #[trigger]
            starting_at(arranged(segments), start) == starting_at(segments, start),
    decreases segments.len(),
{
    if segments.len() > 0 {
        let front = segments.drop_last();
        law_arranged_sorts(front);
        lemma_insert_ordered(arranged(front), segments.last());
        assert forall|start: u64| #[trigger]
            starting_at(arranged(segments), start) == starting_at(segments, start) by {
            let f = |s: SegmentView| s.start == start;
            reveal(Seq::filter);
            let added = segments.last();
            assert(starting_at(arranged(front), start) == starting_at(front, start));
            assert(arranged(front).push(added).drop_last() =~= arranged(front));
            assert(arranged(front).push(added).filter(f) == if f(added) {
                arranged(front).filter(f).push(added)
            } else {
                arranged(front).filter(f)
            });
        }
    } else {
        assert(arranged(segments) =~= segments);
    }
}

proof fn lemma_recognised_by_start(names: Seq<Seq<char>>, start: u64)
    ensures
        recognised(names).filter(|s: SegmentView| s.start == start) == names.filter(
            |n: Seq<char>| segment_start(n) == Some(start),
        ).map_values(|n: Seq<char>| SegmentView { start, file_name: n }),
    decreases names.len(),
{
    let by_start = |s: SegmentView| s.start == start;
    let named = |n: Seq<char>| segment_start(n) == Some(start);
    let view = |n: Seq<char>| SegmentView { start, file_name: n };
    reveal(Seq::filter);
    if names.len() == 0 {
        assert(recognised(names).filter(by_start) =~= names.filter(named).map_values(view));
    } else {
        let front = names.drop_last();
        lemma_recognised_by_start(front, start);
        assert(names.filter(named) == if named(names.last()) {
            front.filter(named).push(names.last())
        } else {
            front.filter(named)
        });
        match segment_start(names.last()) {
            Some(found) => {
                let added = SegmentView { start: found, file_name: names.last() };
                let all = recognised(front).push(added);
                assert(all.drop_last() =~= recognised(front));
                assert(all.filter(by_start) == if by_start(added) {
                    recognised(front).filter(by_start).push(added)
                } else {
                    recognised(front).filter(by_start)
                });
            },
            None => {},
        }
        assert(recognised(names).filter(by_start) =~= names.filter(named).map_values(view));
    }
}

/// A listing is read completely and in order: the segments come by ascending
/// start, and those with any one start are exactly the listed names that give
/// it, as often and in the order that they were listed.
pub proof fn law_listing_is_read_in_order(names: Seq<Seq<char>>, start: u64)
    ensures
        ({
            let segments = arranged(recognised(names));
            &&& forall|i: int, j: int|
                0 <= i < j < segments.len() ==> (#[trigger] segments[i]).start <= (
                #[trigger] segments[j]).start
            &&& segments.filter(|s: SegmentView| s.start == start) == names.filter(
                |n: Seq<char>| segment_start(n) == Some(start),
            ).map_values(|n: Seq<char>| SegmentView { start, file_name: n })
        }),
{
    law_arranged_sorts(recognised(names));
    lemma_recognised_by_start(names, start);
    assert(starting_at(arranged(recognised(names)), start) == starting_at(
        recognised(names),
        start,
    ));
}

/// Inserting at the first segment that starts later is ordered insertion.
proof fn lemma_insert_at_partition(segments: Seq<SegmentView>, at: int, added: SegmentView)
    requires
        ascending(segments),
        0 <= at <= segments.len(),
        forall|j: int| 0 <= j < at ==> (#[trigger] segments[j]).start <= added.start,
        forall|j: int| at <= j < segments.len() ==> (#[trigger] segments[j]).start > added.start,
    ensures
        segments.insert(at, added) == insert_ordered(segments, added),
    decreases segments.len(),
{
    if at == segments.len() {
        assert(segments.insert(at, added) =~= segments.push(added));
    } else {
        lemma_insert_at_partition(segments.drop_last(), at, added);
        assert(segments.insert(at, added) =~= segments.drop_last().insert(at, added).push(
            segments.last(),
        ));
    }
}

/// The views of a list of segments.
pub open spec fn views(segments: Seq<Segment>) -> Seq<SegmentView> {
    segments.map_values(|s: Segment| s@)
}

/// The characters of a list of names.
pub open spec fn names_of(names: Seq<String>) -> Seq<Seq<char>> {
    names.map_values(|s: String| s@)
}

/// The number of segments of an ascending list that start at `offset` or
/// before.
fn partition_point(segments: &Vec<Segment>, offset: u64) -> (r: usize)
    requires
        ascending(views(segments@)),
    ensures
        r <= segments.len(),
        forall|j: int| 0 <= j < r ==> (#[trigger] segments@[j]).start <= offset,
        forall|j: int| r <= j < segments.len() ==> (#[trigger] segments@[j]).start > offset,
{
    let mut low: usize = 0;
    let mut high: usize = segments.len();
    while low < high
        invariant
            low <= high <= segments.len(),
            ascending(views(segments@)),
            forall|j: int| 0 <= j < low ==> (#[trigger] segments@[j]).start <= offset,
            forall|j: int| high <= j < segments.len() ==> (#[trigger] segments@[j]).start > offset,
        decreases high - low,
    {
        let mid: usize = low + (high - low) / 2;
        assert forall|i: int, j: int| 0 <= i <= j < segments.len() implies (
        #[trigger] segments@[i]).start <= (#[trigger] segments@[j]).start by {
            assert(views(segments@)[i].start <= views(segments@)[j].start);
        }
        if segments[mid].start <= offset {
            low = mid + 1;
        } else {
            high = mid;
        }
    }
    low
}

/// Sorted view of the rotated segments beside an active history file.
#[derive(Debug)]
pub struct SegmentSet {
    segments: Vec<Segment>,
}

impl View for SegmentSet {
    type V = Seq<SegmentView>;

    closed spec fn view(&self) -> Seq<SegmentView> {
        views(self.segments@)
    }
}

impl SegmentSet {
    #[verifier::type_invariant]
    spec fn inv(self) -> bool {
        ascending(views(self.segments@))
    }

    /// Picks the `history.<digits>.jsonl` files out of a directory listing,
    /// oldest first. A directory that could not be listed has none.
    ///
    /// Unparseable names are ignored rather than treated as errors so foreign
    /// files cannot break history reads.
    pub fn scan(listing: Option<Vec<String>>) -> (r: Self)
        ensures
            r@ == (match listing {
                Some(names) => arranged(recognised(names_of(names@))),
                None => Seq::empty(),
            }),
            ascending(r@),
    {
        let mut segments: Vec<Segment> = Vec::new();
        assert(views(segments@) =~= Seq::<SegmentView>::empty());
        let names: Vec<String> = match listing {
            Some(names) => names,
            None => {
                return SegmentSet { segments };
            },
        };
        let ghost all = names_of(names@);
        let mut i: usize = 0;
        assert(all.take(0) =~= Seq::<Seq<char>>::empty());
        while i < names.len()
            invariant
                i <= names.len(),
                all == names_of(names@),
                views(segments@) == arranged(recognised(all.take(i as int))),
                ascending(views(segments@)),
            decreases names.len() - i,
        {
            let ghost before = views(segments@);
            assert(all.take(i + 1).drop_last() =~= all.take(i as int));
            assert(all.take(i + 1).last() == names@[i as int]@);
            match parse_segment_start(names[i].as_str()) {
                Some(start) => {
                    let added: Segment = Segment { start, file_name: names[i].clone() };
                    let at: usize = partition_point(&segments, start);
                    proof {
                        assert forall|j: int| 0 <= j < at implies (#[trigger] before[j]).start
                            <= start by {
                            assert(segments@[j].start <= start);
                        }
                        assert forall|j: int| at <= j < before.len() implies (
                        #[trigger] before[j]).start > start by {
                            assert(segments@[j].start > start);
                        }
                        lemma_insert_at_partition(before, at as int, added@);
                        lemma_insert_ordered(before, added@);
                        let so_far = recognised(all.take(i as int));
                        assert(so_far.push(added@).drop_last() =~= so_far);
                    }
                    segments.insert(at, added);
                    assert(views(segments@) =~= before.insert(at as int, added@));
                },
                None => {},
            }
            i = i + 1;
        }
        assert(all.take(all.len() as int) =~= all);
        SegmentSet { segments }
    }

    /// How many segments there are.
    pub fn len(&self) -> (r: usize)
        ensures
            r == self@.len(),
    {
        self.segments.len()
    }

    /// Whether there is no segment.
    pub fn is_empty(&self) -> (r: bool)
        ensures
            r == (self@.len() == 0),
    {
        self.segments.len() == 0
    }

    /// The segment at `index`, counted from the oldest.
    pub fn get(&self, index: usize) -> (r: Option<&Segment>)
        ensures
            match r {
                Some(segment) => index < self@.len() && segment@ == self@[index as int],
                None => index >= self@.len(),
            },
    {
        if index < self.segments.len() {
            Some(&self.segments[index])
        } else {
            None
        }
    }

    /// The newest segment.
    pub fn newest(&self) -> (r: Option<&Segment>)
        ensures
            match r {
                Some(segment) => self@.len() > 0 && segment@ == self@.last(),
                None => self@.len() == 0,
            },
    {
        if self.segments.len() == 0 {
            None
        } else {
            Some(&self.segments[self.segments.len() - 1])
        }
    }

    /// The file names of the segments, oldest first.
    pub fn file_names(&self) -> (r: Vec<String>)
        ensures
            names_of(r@) == self@.map_values(|s: SegmentView| s.file_name),
    {
        let mut names: Vec<String> = Vec::new();
        let mut i: usize = 0;
        while i < self.segments.len()
            invariant
                i <= self.segments.len(),
                names@.len() == i,
                forall|j: int|
                    0 <= j < i ==> (#[trigger] names@[j])@ == self.segments@[j].file_name@,
            decreases self.segments.len() - i,
        {
            names.push(self.segments[i].file_name.clone());
            i = i + 1;
        }
        assert(names_of(names@) =~= self@.map_values(|s: SegmentView| s.file_name));
        names
    }

    /// Total bytes across all rotated segments; one whose size could not be
    /// read adds nothing.
    pub fn total_bytes(sizes: &Vec<Option<u64>>) -> (r: u64)
        ensures
            r == saturated(byte_total(sizes@) as int),
    {
        let mut total: u64 = 0;
        let mut i: usize = 0;
        assert(sizes@.take(0) =~= Seq::<Option<u64>>::empty());
        while i < sizes.len()
            invariant
                i <= sizes.len(),
                total == saturated(byte_total(sizes@.take(i as int)) as int),
            decreases sizes.len() - i,
        {
            assert(sizes@.take(i + 1).drop_last() =~= sizes@.take(i as int));
            match sizes[i] {
                Some(size) => {
                    total = total.saturating_add(size);
                },
                None => {},
            }
            i = i + 1;
        }
        assert(sizes@.take(sizes@.len() as int) =~= sizes@);
        total
    }

    /// Global entry index of the active file's first line.
    ///
    /// Derived as the newest segment's start plus its entry count, which is
    /// `newest_lines`; counting by reading (instead of trusting the next name)
    /// lets stray appends from pre-segmentation writers self-correct into the
    /// numbering.
    pub fn active_start(&self, newest_lines: u64) -> (r: u64)
        ensures
            r == active_start(self@, newest_lines as nat),
    {
        match self.newest() {
            Some(newest) => newest.start.saturating_add(newest_lines),
            None => 0,
        }
    }

    /// Entry count of the segment at `index`, using name arithmetic for all but
    /// the newest segment and the count `newest_lines` for the newest.
    pub fn segment_count(&self, index: usize, newest_lines: u64) -> (r: u64)
        ensures
            r == segment_count(self@, index as int, newest_lines as nat),
    {
        proof {
            use_type_invariant(self);
        }
        let n: usize = self.segments.len();
        if index < n && index + 1 < n {
            assert(views(self.segments@)[index as int].start <= views(
                self.segments@,
            )[index + 1].start);
            self.segments[index + 1].start - self.segments[index].start
        } else if index < n {
            newest_lines
        } else {
            0
        }
    }

    /// Locates the segment containing global entry `offset`, returning the
    /// segment index and the offset local to that segment's file. The newest
    /// segment has `newest_lines` entries.
    pub fn locate(&self, offset: u64, newest_lines: u64) -> (r: Option<(usize, u64)>)
        ensures
            match r {
                Some((index, local)) => {
                    &&& index < self@.len()
                    &&& holds_entry(self@, index as int, offset, newest_lines as nat)
                    &&& forall|i: int|
                        0 <= i < self@.len() && holds_entry(self@, i, offset, newest_lines as nat)
                            ==> i == index
                    &&& local == offset - self@[index as int].start
                },
                None => forall|i: int|
                    0 <= i < self@.len() ==> !holds_entry(self@, i, offset, newest_lines as nat),
            },
    {
        proof {
            use_type_invariant(self);
        }
        let at: usize = partition_point(&self.segments, offset);
        if at == 0 {
            assert forall|i: int| 0 <= i < self@.len() implies !holds_entry(
                self@,
                i,
                offset,
                newest_lines as nat,
            ) by {
                assert(self.segments@[i].start > offset);
            }
            return None;
        }
        let index: usize = at - 1;
        let local: u64 = offset - self.segments[index].start;
        if local < self.segment_count(index, newest_lines) {
            assert forall|i: int|
                0 <= i < self@.len() && holds_entry(
                    self@,
                    i,
                    offset,
                    newest_lines as nat,
                ) implies i == index by {
                law_entry_in_one_segment(
                    self@,
                    i,
                    index as int,
                    offset,
                    newest_lines as nat,
                );
            }
            Some((index, local))
        } else {
            assert forall|i: int| 0 <= i < self@.len() implies !holds_entry(
                self@,
                i,
                offset,
                newest_lines as nat,
            ) by {
                if i < index {
                    assert(self@[i + 1].start <= self@[index as int].start);
                } else if i > index {
                    assert(self.segments@[i].start > offset);
                }
            }
            None
        }
    }
}

/// The sum of the sizes that are known.
pub open spec fn byte_total(sizes: Seq<Option<u64>>) -> nat
    decreases sizes.len(),
{
    if sizes.len() == 0 {
        0
    } else {
        byte_total(sizes.drop_last()) + (match sizes.last() {
            Some(size) => size as nat,
            None => 0,
        })
    }
}

/// Where the active file starts in the global numbering: behind the newest
/// segment, which has `newest_lines` lines.
pub open spec fn active_start(segments: Seq<SegmentView>, newest_lines: nat) -> u64 {
    if segments.len() == 0 {
        0
    } else {
        saturated(segments.last().start + newest_lines)
    }
}

/// How many entries the segment at `index` has: up to where the next one
/// starts, and `newest_lines` for the newest.
pub open spec fn segment_count(
    segments: Seq<SegmentView>,
    index: int,
    newest_lines: nat,
) -> int {
    if 0 <= index && index + 1 < segments.len() {
        segments[index + 1].start - segments[index].start
    } else if 0 <= index < segments.len() {
        newest_lines as int
    } else {
        0
    }
}

/// Whether the global entry `offset` lies in the segment at `index`.
pub open spec fn holds_entry(
    segments: Seq<SegmentView>,
    index: int,
    offset: u64,
    newest_lines: nat,
) -> bool {
    segments[index].start <= offset < segments[index].start + segment_count(
        segments,
        index,
        newest_lines,
    )
}

/// No entry lies in two segments.
pub proof fn law_entry_in_one_segment(
    segments: Seq<SegmentView>,
    i: int,
    j: int,
    offset: u64,
    newest_lines: nat,
)
    requires
        ascending(segments),
        0 <= i < segments.len(),
        0 <= j < segments.len(),
        holds_entry(segments, i, offset, newest_lines),
        holds_entry(segments, j, offset, newest_lines),
    ensures
        i == j,
{
    if i < j {
        assert(segments[i + 1].start <= segments[j].start);
    } else if j < i {
        assert(segments[j + 1].start <= segments[i].start);
    }
}

/// The names of a list are the characters of its strings.
pub proof fn law_names_of_strings(names: Seq<String>)
    ensures
        names_of(names).len() == names.len(),
        forall|i: int| 0 <= i < names.len() ==> #[trigger] names_of(names)[i] == names[i]@,
{
}

/// What a segment says is what it holds.
pub proof fn law_segment_says_what_it_holds(segment: Segment)
    ensures
        segment@.start == segment.start,
        segment@.file_name == segment.file_name@,
{
}

/// Sizes add up; one that is not known adds nothing.
pub proof fn law_sizes_add_up(sizes: Seq<Option<u64>>, size: u64)
    ensures
        byte_total(Seq::<Option<u64>>::empty()) == 0,
        byte_total(sizes.push(Some(size))) == byte_total(sizes) + size,
        byte_total(sizes.push(None)) == byte_total(sizes),
{
    assert(sizes.push(Some(size)).drop_last() =~= sizes);
    assert(sizes.push(None).drop_last() =~= sizes);
}

/// Without segments the active file starts at zero; else right behind the
/// newest, as far as the numbering goes.
pub proof fn law_active_file_follows_newest(segments: Seq<SegmentView>, newest_lines: nat)
    ensures
        segments.len() == 0 ==> active_start(segments, newest_lines) == 0,
        segments.len() > 0 && segments.last().start + newest_lines <= u64::MAX ==> active_start(
            segments,
            newest_lines,
        ) == segments.last().start + newest_lines,
        segments.len() > 0 && segments.last().start + newest_lines > u64::MAX ==> active_start(
            segments,
            newest_lines,
        ) == u64::MAX,
{
}

/// A segment has the entries from its start to that of the next one, and the
/// newest has as many as it has lines.
pub proof fn law_segment_extent(
    segments: Seq<SegmentView>,
    index: int,
    offset: u64,
    newest_lines: nat,
)
    requires
        0 <= index < segments.len(),
    ensures
        index + 1 < segments.len() ==> {
            &&& segment_count(segments, index, newest_lines) == segments[index + 1].start
                - segments[index].start
            &&& holds_entry(segments, index, offset, newest_lines) <==> segments[index].start
                <= offset < segments[index + 1].start
        },
        index + 1 == segments.len() ==> {
            &&& segment_count(segments, index, newest_lines) == newest_lines
            &&& holds_entry(segments, index, offset, newest_lines) <==> segments[index].start
                <= offset < segments[index].start + newest_lines
        },
        segment_count(segments, segments.len() as int, newest_lines) == 0,
{
}

} // verus!
