//! The logical history: what the files of the history mean together, and what
//! appending, rotating and pruning do to it.

use vstd::prelude::*;
use vstd::utf8::{
    encode_scalar, encode_utf8, encode_utf8_decode_utf8, encode_utf8_valid_utf8,
    has_width_1_encoding, has_width_2_encoding, has_width_3_encoding, valid_utf8,
};

use crate::lines::{
    law_read_line_needs_no_more, lemma_unterminated_extends, line_bytes, lines, read_line,
    readable_through, terminated, unterminated, without_carriage_return,
};
use crate::lines::{CARRIAGE_RETURN, NEWLINE};
use crate::segments::{
    law_segment_name_round_trip, segment_name, segment_start, SegmentView,
};

verus! {

/// A file and its identifier, which a rename does not change.
pub struct StoredFile {
    pub id: u64,
    pub bytes: Seq<u8>,
}

/// A rotated file with its place in the global numbering.
pub struct LogSegment {
    pub start: u64,
    pub file_name: Seq<char>,
    pub file: StoredFile,
}

impl LogSegment {
    /// What a directory listing shows of it.
    pub open spec fn listed(self) -> SegmentView {
        SegmentView { start: self.start, file_name: self.file_name }
    }

    /// The index behind its last entry.
    pub open spec fn end(self) -> nat {
        (self.start + lines(self.file.bytes).len()) as nat
    }

    /// Whether the global entry `offset` is one of its lines.
    pub open spec fn covers(self, offset: nat) -> bool {
        self.start <= offset < self.end()
    }
}

/// The logical history: rotated segments, oldest first, and the active file.
pub struct Log {
    pub segments: Seq<LogSegment>,
    pub active: Option<StoredFile>,
}

/// Whether every line of a file is complete and valid UTF-8.
pub open spec fn is_clean(bytes: Seq<u8>) -> bool {
    &&& unterminated(bytes).len() == 0
    &&& readable_through(terminated(bytes), terminated(bytes).len())
}

impl Log {
    /// The bytes of the active file.
    pub open spec fn active_bytes(self) -> Seq<u8> {
        match self.active {
            Some(file) => file.bytes,
            None => Seq::empty(),
        }
    }

    /// What a directory listing shows of the segments.
    pub open spec fn listed(self) -> Seq<SegmentView> {
        self.segments.map_values(|s: LogSegment| s.listed())
    }

    /// Global index of the active file's first line.
    pub open spec fn start(self) -> nat {
        if self.segments.len() == 0 {
            0
        } else {
            self.segments.last().end()
        }
    }

    /// Global index of the next entry.
    pub open spec fn total(self) -> nat {
        self.start() + lines(self.active_bytes()).len()
    }

    /// The text of the global entry `offset`.
    pub open spec fn entry(self, offset: nat) -> Option<Seq<char>> {
        if offset >= self.start() {
            read_line(self.active_bytes(), (offset - self.start()) as nat)
        } else if exists|i: int| 0 <= i < self.segments.len() && #[trigger]
            self.segments[i].covers(offset) {
            let i = choose|i: int|
                0 <= i < self.segments.len() && #[trigger] self.segments[i].covers(offset);
            read_line(
                self.segments[i].file.bytes,
                (offset - self.segments[i].start) as nat,
            )
        } else {
            None
        }
    }

    /// What every operation keeps: the segments follow one another without
    /// overlap, each is named by its start and has an entry, and the numbering
    /// fits a `u64`.
    pub open spec fn is_valid(self) -> bool {
        &&& forall|i: int, j: int|
            0 <= i < j < self.segments.len() ==> (#[trigger] self.segments[i]).end() <= (
            #[trigger] self.segments[j]).start
        &&& forall|i: int|
            0 <= i < self.segments.len() ==> {
                &&& segment_start((#[trigger] self.segments[i]).file_name) == Some(
                    self.segments[i].start,
                )
                &&& lines(self.segments[i].file.bytes).len() > 0
            }
        &&& self.total() <= u64::MAX
    }

    /// The history with `record` added as a line of the active file; `id` is
    /// the identifier of that file where it has to be created.
    pub open spec fn appended(self, record: Seq<char>, id: u64) -> Log {
        let id = match self.active {
            Some(file) => file.id,
            None => id,
        };
        Log {
            active: Some(
                StoredFile { id, bytes: self.active_bytes() + encode_utf8(record.push('\n')) },
            ),
            ..self
        }
    }

    /// The history with the active file as the newest segment.
    pub open spec fn rotated(self) -> Log {
        match self.active {
            Some(file) => Log {
                segments: self.segments.push(
                    LogSegment {
                        start: self.start() as u64,
                        file_name: segment_name(self.start() as u64),
                        file,
                    },
                ),
                active: None,
            },
            None => self,
        }
    }

    /// The history without its `n` oldest segments.
    pub open spec fn pruned(self, n: nat) -> Log {
        Log { segments: self.segments.skip(n as int), ..self }
    }

    /// The history with `record` added as a line of the newest segment, as a
    /// writer leaves it that opened the file before it was rotated.
    pub open spec fn strayed(self, record: Seq<char>) -> Log {
        let newest = self.segments.last();
        Log {
            segments: self.segments.drop_last().push(
                LogSegment {
                    file: StoredFile {
                        bytes: newest.file.bytes + encode_utf8(record.push('\n')),
                        ..newest.file
                    },
                    ..newest
                },
            ),
            ..self
        }
    }

    /// Total bytes across all rotated segments.
    pub open spec fn rotated_bytes(self) -> nat {
        bytes_of(self.segments)
    }
}

/// The sum of the sizes of `segments`.
pub open spec fn bytes_of(segments: Seq<LogSegment>) -> nat
    decreases segments.len(),
{
    if segments.len() == 0 {
        0
    } else {
        bytes_of(segments.drop_last()) + segments.last().file.bytes.len()
    }
}

/// Whether `record` is one line: it has no newline, and no carriage return
/// that would be taken for part of the line's end.
pub open spec fn is_one_line(record: Seq<char>) -> bool {
    !record.contains('\n') && (record.len() > 0 ==> record.last() != '\r')
}

proof fn lemma_encode_concat(a: Seq<char>, b: Seq<char>)
    ensures
        encode_utf8(a + b) == encode_utf8(a) + encode_utf8(b),
    decreases a.len(),
{
    if a.len() == 0 {
        assert(a + b =~= b);
        assert(encode_utf8(a) + encode_utf8(b) =~= encode_utf8(b));
    } else {
        assert((a + b).drop_first() =~= a.drop_first() + b);
        lemma_encode_concat(a.drop_first(), b);
        assert(encode_utf8(a + b) =~= encode_utf8(a) + encode_utf8(b));
    }
}

/// A byte below 0x80 in the encoding of a character is that character.
proof fn lemma_encode_scalar_ascii(c: char, i: int)
    requires
        0 <= i < encode_scalar(c as u32).len(),
        encode_scalar(c as u32)[i] < 0x80,
    ensures
        encode_scalar(c as u32).len() == 1,
        i == 0,
        encode_scalar(c as u32)[0] as char == c,
{
    let s = c as u32;
    vstd::utf8::char_u32_cast(c, s);
    vstd::utf8::char_is_scalar(c);
    assert(0xC0u8 | ((s >> 6) & 0x1F) as u8 >= 0x80u8) by (bit_vector);
    assert(0xE0u8 | ((s >> 12) & 0x0F) as u8 >= 0x80u8) by (bit_vector);
    assert(0xF0u8 | ((s >> 18) & 0x7) as u8 >= 0x80u8) by (bit_vector);
    assert(0x80u8 | (s & 0x3F) as u8 >= 0x80u8) by (bit_vector);
    assert(0x80u8 | ((s >> 6) & 0x3F) as u8 >= 0x80u8) by (bit_vector);
    assert(0x80u8 | ((s >> 12) & 0x3F) as u8 >= 0x80u8) by (bit_vector);
    if has_width_1_encoding(s) {
        assert((s & 0x7F) as u8 == s) by (bit_vector)
            requires
                s <= 0x7F,
        ;
    } else if has_width_2_encoding(s) {
    } else if has_width_3_encoding(s) {
    }
}

proof fn lemma_encode_one_line(record: Seq<char>)
    requires
        is_one_line(record),
    ensures
        !encode_utf8(record).contains(NEWLINE),
        without_carriage_return(encode_utf8(record)) == encode_utf8(record),
{
    lemma_encode_no_newline(record);
    if record.len() > 0 {
        let front = record.drop_last();
        let end = seq![record.last()];
        reveal_with_fuel(encode_utf8, 2);
        assert(front + end =~= record);
        lemma_encode_concat(front, end);
        assert(end.drop_first() =~= Seq::<char>::empty());
        assert(encode_utf8(end) =~= encode_scalar(record.last() as u32));
        let last = encode_scalar(record.last() as u32);
        if encode_utf8(record).last() == CARRIAGE_RETURN {
            assert(last[last.len() - 1] == CARRIAGE_RETURN);
            lemma_encode_scalar_ascii(record.last(), last.len() - 1);
        }
    }
}

proof fn lemma_encode_no_newline(record: Seq<char>)
    requires
        !record.contains('\n'),
    ensures
        !encode_utf8(record).contains(NEWLINE),
    decreases record.len(),
{
    if record.len() > 0 {
        let rest = record.drop_first();
        assert forall|i: int| 0 <= i < rest.len() implies rest[i] != '\n' by {
            assert(record.contains(record[i + 1]));
        }
        lemma_encode_no_newline(rest);
        let first = encode_scalar(record[0] as u32);
        assert(record.contains(record[0]));
        assert forall|i: int| 0 <= i < encode_utf8(record).len() implies encode_utf8(record)[i]
            != NEWLINE by {
            if i < first.len() {
                if first[i] == NEWLINE {
                    lemma_encode_scalar_ascii(record[0], i);
                }
            } else {
                assert(encode_utf8(rest).contains(encode_utf8(rest)[i - first.len()]));
            }
        }
    }
}

/// One more write of a line at the end of a file: the complete lines stay as
/// they are, and what was written ends one more. It can be read where the file
/// was clean, and leaves it so; behind a line that is no text it cannot be read.
pub proof fn lemma_line_added(bytes: Seq<u8>, record: Seq<char>)
    requires
        !record.contains('\n'),
    ensures
        ({
            let after = bytes + encode_utf8(record.push('\n'));
            let n = terminated(bytes).len();
            &&& unterminated(after).len() == 0
            &&& lines(after).len() == n + 1
            &&& forall|k: nat| k < n ==> #[trigger] read_line(after, k) == read_line(bytes, k)
            &&& forall|k: nat| k > n ==> #[trigger] read_line(after, k) is None
            &&& is_clean(bytes) ==> is_clean(after)
            &&& is_clean(bytes) && is_one_line(record) ==> read_line(after, n) == Some(record)
            &&& unterminated(bytes).len() == 0 && !is_clean(bytes) ==> read_line(after, n) is None
        }),
{
    let text = encode_utf8(record);
    let newline = seq!['\n'];
    let line = encode_utf8(record.push('\n'));
    assert(record.push('\n') =~= record + newline);
    lemma_encode_concat(record, newline);
    assert(newline.drop_first() =~= Seq::<char>::empty());
    assert((10u32 & 0x7F) as u8 == 10u8) by (bit_vector);
    reveal_with_fuel(encode_utf8, 2);
    assert(encode_utf8(newline) =~= seq![NEWLINE]);
    let after = bytes + line;
    assert(after =~= (bytes + text).push(NEWLINE));
    assert(after.drop_last() =~= bytes + text);
    lemma_encode_no_newline(record);
    lemma_unterminated_extends(bytes, text);
    let n = terminated(bytes).len();
    assert(terminated(after) == terminated(bytes).push(unterminated(bytes) + text));
    assert forall|k: nat| k < n implies #[trigger] read_line(after, k) == read_line(bytes, k) by {
        law_read_line_needs_no_more(bytes, line, k);
    }
    encode_utf8_valid_utf8(record);
    encode_utf8_decode_utf8(record);
    if is_clean(bytes) {
        assert(unterminated(bytes) + text =~= text);
        assert forall|j: int| 0 <= j < terminated(after).len() implies valid_utf8(
            #[trigger] terminated(after)[j],
        ) by {
            if j < n {
                assert(valid_utf8(terminated(bytes)[j]));
            }
        }
        if is_one_line(record) {
            lemma_encode_one_line(record);
            assert(line_bytes(after, n as int) == text);
        }
    } else if unterminated(bytes).len() == 0 {
        let j = choose|j: int| 0 <= j < n && !valid_utf8(#[trigger] terminated(bytes)[j]);
        assert(lines(after)[j] == terminated(bytes)[j]);
    }
}

/// What the clean file `bytes` has at line `k`.
proof fn lemma_clean_line(bytes: Seq<u8>, k: nat)
    requires
        is_clean(bytes),
    ensures
        read_line(bytes, k) is Some <==> k < lines(bytes).len(),
{
    if k < lines(bytes).len() {
        assert forall|j: int| 0 <= j < k + 1 && j < lines(bytes).len() implies valid_utf8(
            #[trigger] lines(bytes)[j],
        ) by {
            assert(valid_utf8(terminated(bytes)[j]));
        }
    }
}

/// An entry that a segment covers is that segment's.
pub proof fn lemma_entry_of_segment(log: Log, i: int, offset: nat)
    requires
        log.is_valid(),
        0 <= i < log.segments.len(),
        log.segments[i].covers(offset),
    ensures
        offset < log.start(),
        log.entry(offset) == read_line(
            log.segments[i].file.bytes,
            (offset - log.segments[i].start) as nat,
        ),
{
    let n = log.segments.len();
    if i < n - 1 {
        assert(log.segments[i].end() <= log.segments[n - 1].start);
    }
    let j = choose|j: int| 0 <= j < n && #[trigger] log.segments[j].covers(offset);
    if j < i {
        assert(log.segments[j].end() <= log.segments[i].start);
    } else if i < j {
        assert(log.segments[i].end() <= log.segments[j].start);
    }
}

/// Every line of a clean file is an entry, and there is none behind the last.
pub proof fn law_entries_present(log: Log, offset: nat)
    requires
        log.is_valid(),
    ensures
        log.start() <= offset < log.total() && is_clean(log.active_bytes()) ==> log.entry(
            offset,
        ) is Some,
        forall|i: int|
            0 <= i < log.segments.len() && #[trigger] log.segments[i].covers(offset) && is_clean(
                log.segments[i].file.bytes,
            ) ==> log.entry(offset) is Some,
        offset >= log.total() ==> log.entry(offset) is None,
{
    if log.start() <= offset < log.total() && is_clean(log.active_bytes()) {
        lemma_clean_line(log.active_bytes(), (offset - log.start()) as nat);
    }
    assert forall|i: int|
        0 <= i < log.segments.len() && #[trigger] log.segments[i].covers(offset) && is_clean(
            log.segments[i].file.bytes,
        ) implies log.entry(offset) is Some by {
        lemma_entry_of_segment(log, i, offset);
        lemma_clean_line(
            log.segments[i].file.bytes,
            (offset - log.segments[i].start) as nat,
        );
    }
}

/// Appending leaves every other entry as it was and the file complete. To a
/// complete file it adds an entry with the next index; to one whose last line was
/// cut short, that line and the record together are the last entry. The new entry
/// reads as the record where every line of the active file is text.
pub proof fn law_append(log: Log, record: Seq<char>, id: u64)
    requires
        log.is_valid(),
        !record.contains('\n'),
        log.total() < u64::MAX,
    ensures
        ({
            let bytes = log.active_bytes();
            let after = log.appended(record, id);
            let at = log.start() + terminated(bytes).len();
            &&& after.is_valid()
            &&& unterminated(after.active_bytes()).len() == 0
            &&& after.total() == at + 1
            &&& forall|offset: nat|
                offset != at ==> #[trigger] after.entry(offset) == log.entry(offset)
            &&& unterminated(bytes).len() == 0 ==> after.total() == log.total() + 1
            &&& unterminated(bytes).len() > 0 ==> after.total() == log.total()
            &&& is_clean(bytes) ==> is_clean(after.active_bytes())
            &&& is_clean(bytes) && is_one_line(record) ==> after.entry(log.total()) == Some(record)
            &&& unterminated(bytes).len() == 0 && !is_clean(bytes) ==> after.entry(
                log.total(),
            ) is None
        }),
{
    let bytes = log.active_bytes();
    let after = log.appended(record, id);
    let n = terminated(bytes).len();
    lemma_line_added(bytes, record);
    assert(after.start() == log.start());
    assert forall|offset: nat| offset != log.start() + n implies #[trigger] after.entry(offset)
        == log.entry(offset) by {
        if offset >= log.start() {
            let k = (offset - log.start()) as nat;
            if k < n {
                assert(read_line(after.active_bytes(), k) == read_line(bytes, k));
            } else {
                assert(read_line(after.active_bytes(), k) is None);
                assert(read_line(bytes, k) is None);
            }
        } else if exists|i: int|
            0 <= i < log.segments.len() && #[trigger] log.segments[i].covers(offset) {
            let i = choose|i: int|
                0 <= i < log.segments.len() && #[trigger] log.segments[i].covers(offset);
            lemma_entry_of_segment(log, i, offset);
            assert(after.segments[i].covers(offset));
            lemma_entry_of_segment(after, i, offset);
        }
    }
}

/// Rotating changes no entry and no index: what was the active file is the
/// newest segment, and the next entry follows it.
pub proof fn law_rotate(log: Log)
    requires
        log.is_valid(),
        log.active is Some,
        lines(log.active_bytes()).len() > 0,
    ensures
        log.rotated().is_valid(),
        is_clean(log.rotated().active_bytes()),
        log.rotated().total() == log.total(),
        log.rotated().start() == log.total(),
        forall|offset: nat| #[trigger] log.rotated().entry(offset) == log.entry(offset),
{
    let after = log.rotated();
    let n = log.segments.len() as int;
    law_segment_name_round_trip(log.start() as u64);
    assert forall|i: int, j: int| 0 <= i < j < after.segments.len() implies (
    #[trigger] after.segments[i]).end() <= (#[trigger] after.segments[j]).start by {
        if j == n {
            assert(after.segments[i] == log.segments[i]);
            if i < n - 1 {
                assert(log.segments[i].end() <= log.segments[n - 1].start);
            }
        } else {
            assert(log.segments[i].end() <= log.segments[j].start);
        }
    }
    assert forall|i: int| 0 <= i < after.segments.len() implies {
        &&& segment_start((#[trigger] after.segments[i]).file_name) == Some(after.segments[i].start)
        &&& lines(after.segments[i].file.bytes).len() > 0
    } by {
        if i < n {
            assert(after.segments[i] == log.segments[i]);
        }
    }
    assert(after.active_bytes() =~= Seq::<u8>::empty());
    assert(after.is_valid());
    assert forall|offset: nat| #[trigger] after.entry(offset) == log.entry(offset) by {
        if offset >= log.total() {
            law_entries_present(log, offset);
            law_entries_present(after, offset);
        } else if offset >= log.start() {
            assert(after.segments[n].covers(offset));
            lemma_entry_of_segment(after, n, offset);
        } else if exists|i: int| 0 <= i < n && #[trigger] log.segments[i].covers(offset) {
            let i = choose|i: int| 0 <= i < n && #[trigger] log.segments[i].covers(offset);
            lemma_entry_of_segment(log, i, offset);
            assert(after.segments[i] == log.segments[i]);
            lemma_entry_of_segment(after, i, offset);
        } else {
            assert forall|i: int| 0 <= i < after.segments.len() implies !(
            #[trigger] after.segments[i]).covers(offset) by {
                if i < n {
                    assert(after.segments[i] == log.segments[i]);
                }
            }
        }
    }
}

/// Deleting oldest segments, but not the newest, leaves every retained entry
/// under its index and the next index where it was; what was deleted is gone.
pub proof fn law_prune(log: Log, n: nat)
    requires
        log.is_valid(),
        n < log.segments.len(),
    ensures
        log.pruned(n).is_valid(),
        log.pruned(n).total() == log.total(),
        forall|offset: nat|
            offset >= log.segments[n as int].start ==> #[trigger] log.pruned(n).entry(offset)
                == log.entry(offset),
        forall|offset: nat|
            offset < log.segments[n as int].start ==> #[trigger] log.pruned(n).entry(offset) is None,
{
    let after = log.pruned(n);
    let len = log.segments.len();
    assert(after.segments.last() == log.segments.last());
    assert forall|i: int, j: int| 0 <= i < j < after.segments.len() implies (
    #[trigger] after.segments[i]).end() <= (#[trigger] after.segments[j]).start by {
        assert(log.segments[i + n].end() <= log.segments[j + n].start);
    }
    assert forall|i: int| 0 <= i < after.segments.len() implies {
        &&& segment_start((#[trigger] after.segments[i]).file_name) == Some(after.segments[i].start)
        &&& lines(after.segments[i].file.bytes).len() > 0
    } by {
        assert(after.segments[i] == log.segments[i + n]);
    }
    assert(after.is_valid());
    assert forall|offset: nat|
        offset >= log.segments[n as int].start implies #[trigger] after.entry(offset) == log.entry(
        offset,
    ) by {
        if offset < log.start() {
            if exists|i: int| 0 <= i < len && #[trigger] log.segments[i].covers(offset) {
                let i = choose|i: int| 0 <= i < len && #[trigger] log.segments[i].covers(offset);
                if i < n {
                    assert(log.segments[i].end() <= log.segments[n as int].start);
                }
                lemma_entry_of_segment(log, i, offset);
                assert(after.segments[i - n] == log.segments[i]);
                lemma_entry_of_segment(after, i - n, offset);
            } else {
                assert forall|i: int| 0 <= i < after.segments.len() implies !(
                #[trigger] after.segments[i]).covers(offset) by {
                    assert(after.segments[i] == log.segments[i + n]);
                }
            }
        }
    }
    assert forall|offset: nat|
        offset < log.segments[n as int].start implies #[trigger] after.entry(offset) is None by {
        assert(after.segments[0] == log.segments[n as int]);
        assert forall|i: int| 0 <= i < after.segments.len() implies !(
        #[trigger] after.segments[i]).covers(offset) by {
            if i > 0 {
                assert(after.segments[0].end() <= after.segments[i].start);
            }
        }
        if after.segments.len() > 1 {
            assert(after.segments[0].end() <= after.segments.last().start);
        }
    }
}

/// The active file alone is a suffix of the history: its lines are the last
/// entries, in order.
pub proof fn law_active_file_is_suffix(log: Log, k: nat)
    requires
        log.is_valid(),
    ensures
        read_line(log.active_bytes(), k) == log.entry(log.start() + k),
        log.start() + lines(log.active_bytes()).len() == log.total(),
{
}

/// A line that strays into the newest segment takes its place in the
/// numbering: it comes right after the segment's other entries, which stay, and
/// the entries of the active file move up by one. It reads as the record where
/// every line of the segment is text.
pub proof fn law_stray_append(log: Log, record: Seq<char>)
    requires
        log.is_valid(),
        log.segments.len() > 0,
        unterminated(log.segments.last().file.bytes).len() == 0,
        !record.contains('\n'),
        log.total() < u64::MAX,
    ensures
        log.strayed(record).is_valid(),
        log.strayed(record).total() == log.total() + 1,
        forall|offset: nat|
            offset < log.start() ==> #[trigger] log.strayed(record).entry(offset) == log.entry(
                offset,
            ),
        forall|offset: nat|
            offset >= log.start() ==> log.strayed(record).entry(offset + 1)
                == #[trigger] log.entry(offset),
        is_clean(log.segments.last().file.bytes) && is_one_line(record) ==> log.strayed(
            record,
        ).entry(log.start()) == Some(record),
        !is_clean(log.segments.last().file.bytes) ==> log.strayed(record).entry(log.start()) is None,
{
    let after = log.strayed(record);
    let n = log.segments.len() - 1;
    let newest = log.segments[n];
    lemma_line_added(newest.file.bytes, record);
    assert(after.segments.len() == n + 1);
    assert(after.start() == log.start() + 1);
    assert forall|i: int, j: int| 0 <= i < j < after.segments.len() implies (
    #[trigger] after.segments[i]).end() <= (#[trigger] after.segments[j]).start by {
        assert(after.segments[i] == log.segments[i]);
        assert(log.segments[i].end() <= log.segments[j].start);
    }
    assert forall|i: int| 0 <= i < after.segments.len() implies {
        &&& segment_start((#[trigger] after.segments[i]).file_name) == Some(after.segments[i].start)
        &&& lines(after.segments[i].file.bytes).len() > 0
    } by {
        assert(segment_start(log.segments[i].file_name) == Some(log.segments[i].start));
    }
    assert(after.segments[n].covers(log.start()));
    lemma_entry_of_segment(after, n, log.start());
    assert forall|offset: nat| offset < log.start() implies #[trigger] after.entry(offset)
        == log.entry(offset) by {
        if exists|i: int| 0 <= i <= n && #[trigger] log.segments[i].covers(offset) {
            let i = choose|i: int| 0 <= i <= n && #[trigger] log.segments[i].covers(offset);
            lemma_entry_of_segment(log, i, offset);
            assert(after.segments[i].covers(offset));
            lemma_entry_of_segment(after, i, offset);
        } else {
            assert forall|i: int| 0 <= i < after.segments.len() implies !(
            #[trigger] after.segments[i]).covers(offset) by {
                assert(!log.segments[i].covers(offset));
            }
        }
    }
}

/// Whatever another program makes of the active file, the rotated entries stay
/// as they are and the count follows the lines that are there.
pub proof fn law_active_file_rewritten(log: Log, file: Option<StoredFile>)
    requires
        log.is_valid(),
        (Log { active: file, ..log }).total() <= u64::MAX,
    ensures
        ({
            let after = Log { active: file, ..log };
            &&& after.is_valid()
            &&& after.total() == log.start() + lines(after.active_bytes()).len()
            &&& forall|offset: nat|
                offset < log.start() ==> #[trigger] after.entry(offset) == log.entry(offset)
        }),
{
    let after = Log { active: file, ..log };
    assert forall|offset: nat| offset < log.start() implies #[trigger] after.entry(offset)
        == log.entry(offset) by {
        if exists|i: int|
            0 <= i < log.segments.len() && #[trigger] log.segments[i].covers(offset) {
            let i = choose|i: int|
                0 <= i < log.segments.len() && #[trigger] log.segments[i].covers(offset);
            lemma_entry_of_segment(log, i, offset);
            assert(after.segments[i].covers(offset));
            lemma_entry_of_segment(after, i, offset);
        }
    }
}

} // verus!
