//! Lines of a history file: what they are, how they are counted and how one of
//! them is read, all over bytes that arrive in chunks of any size.

use vstd::prelude::*;
use vstd::utf8::{
    decode_utf8, is_char_boundary_iff_not_is_continuation_byte, is_continuation_byte,
    pop_first_scalar, valid_utf8, valid_utf8_concat, valid_utf8_split,
};

use crate::text::string_from_utf8;

verus! {

/// The byte that ends a line.
pub const NEWLINE: u8 = 10;

/// The byte that may stand before the newline and is not part of the line.
pub const CARRIAGE_RETURN: u8 = 13;

/// How often `needle` occurs in `haystack`.
pub open spec fn occurrences(haystack: Seq<u8>, needle: u8) -> nat
    decreases haystack.len(),
{
    if haystack.len() == 0 {
        0
    } else {
        occurrences(haystack.drop_last(), needle) + (if haystack.last() == needle {
            1nat
        } else {
            0nat
        })
    }
}

/// The bytes after the last newline.
pub open spec fn unterminated(bytes: Seq<u8>) -> Seq<u8>
    decreases bytes.len(),
{
    if bytes.len() == 0 || bytes.last() == NEWLINE {
        Seq::empty()
    } else {
        unterminated(bytes.drop_last()).push(bytes.last())
    }
}

/// The lines that a newline ends, each without that newline.
pub open spec fn terminated(bytes: Seq<u8>) -> Seq<Seq<u8>>
    decreases bytes.len(),
{
    if bytes.len() == 0 {
        Seq::empty()
    } else if bytes.last() == NEWLINE {
        terminated(bytes.drop_last()).push(unterminated(bytes.drop_last()))
    } else {
        terminated(bytes.drop_last())
    }
}

/// All lines: the terminated ones and, where bytes follow the last newline,
/// one more that these bytes form.
pub open spec fn lines(bytes: Seq<u8>) -> Seq<Seq<u8>> {
    if unterminated(bytes).len() == 0 {
        terminated(bytes)
    } else {
        terminated(bytes).push(unterminated(bytes))
    }
}

/// What a reader gets of line `k`: a terminated line loses a carriage return
/// at its end.
pub open spec fn line_bytes(bytes: Seq<u8>, k: int) -> Seq<u8> {
    if k < terminated(bytes).len() {
        without_carriage_return(lines(bytes)[k])
    } else {
        lines(bytes)[k]
    }
}

/// `line` without a carriage return at its end.
pub open spec fn without_carriage_return(line: Seq<u8>) -> Seq<u8> {
    if line.len() > 0 && line.last() == CARRIAGE_RETURN {
        line.drop_last()
    } else {
        line
    }
}

/// Whether each of the first `n` lines is valid UTF-8.
pub open spec fn readable_through(all: Seq<Seq<u8>>, n: nat) -> bool {
    forall|j: int| 0 <= j < n && j < all.len() ==> valid_utf8(#[trigger] all[j])
}

/// The text of the zero-based line `k`, where there is such a line and it and
/// every line before it are valid UTF-8.
pub open spec fn read_line(bytes: Seq<u8>, k: nat) -> Option<Seq<char>> {
    if k < lines(bytes).len() && readable_through(lines(bytes), k + 1) {
        Some(decode_utf8(line_bytes(bytes, k as int)))
    } else {
        None
    }
}

/// `n`, or the largest `u64` where `n` does not fit.
pub open spec fn saturated(n: int) -> u64 {
    if n <= u64::MAX {
        n as u64
    } else {
        u64::MAX
    }
}

/// Occurrences add up over a concatenation.
pub proof fn lemma_occurrences_concat(a: Seq<u8>, b: Seq<u8>, needle: u8)
    ensures
        occurrences(a + b, needle) == occurrences(a, needle) + occurrences(b, needle),
    decreases b.len(),
{
    if b.len() == 0 {
        assert(a + b =~= a);
    } else {
        assert((a + b).drop_last() =~= a + b.drop_last());
        lemma_occurrences_concat(a, b.drop_last(), needle);
    }
}

/// A byte occurs no more often than there are bytes.
pub proof fn lemma_occurrences_bound(a: Seq<u8>, needle: u8)
    ensures
        occurrences(a, needle) <= a.len(),
    decreases a.len(),
{
    if a.len() > 0 {
        lemma_occurrences_bound(a.drop_last(), needle);
    }
}

/// There are as many terminated lines as newlines.
pub proof fn lemma_terminated_count(bytes: Seq<u8>)
    ensures
        terminated(bytes).len() == occurrences(bytes, NEWLINE),
    decreases bytes.len(),
{
    if bytes.len() > 0 {
        lemma_terminated_count(bytes.drop_last());
    }
}

/// The number of lines is the number of newlines, plus one where the bytes
/// are neither empty nor end with a newline.
pub proof fn lemma_line_count(bytes: Seq<u8>)
    ensures
        lines(bytes).len() == occurrences(bytes, NEWLINE) + (if bytes.len() > 0 && bytes.last()
            != NEWLINE {
            1nat
        } else {
            0nat
        }),
{
    lemma_terminated_count(bytes);
}

/// Bytes that follow leave the terminated lines as they are.
pub proof fn lemma_terminated_prefix(a: Seq<u8>, b: Seq<u8>)
    ensures
        terminated(a).len() <= terminated(a + b).len(),
        forall|j: int|
            0 <= j < terminated(a).len() ==> #[trigger] terminated(a + b)[j] == terminated(a)[j],
    decreases b.len(),
{
    if b.len() == 0 {
        assert(a + b =~= a);
    } else {
        assert((a + b).drop_last() =~= a + b.drop_last());
        lemma_terminated_prefix(a, b.drop_last());
    }
}

/// Bytes without a newline join the unterminated end.
pub proof fn lemma_unterminated_extends(a: Seq<u8>, b: Seq<u8>)
    requires
        !b.contains(NEWLINE),
    ensures
        terminated(a + b) == terminated(a),
        unterminated(a + b) == unterminated(a) + b,
    decreases b.len(),
{
    if b.len() == 0 {
        assert(a + b =~= a);
        assert(unterminated(a) + b =~= unterminated(a));
    } else {
        assert((a + b).drop_last() =~= a + b.drop_last());
        assert(b.contains(b.last()));
        assert forall|i: int| 0 <= i < b.drop_last().len() implies b.drop_last()[i] != NEWLINE by {
            assert(b.contains(b[i]));
        }
        lemma_unterminated_extends(a, b.drop_last());
        assert(unterminated(a) + b =~= (unterminated(a) + b.drop_last()).push(b.last()));
    }
}

/// Splitting loses nothing: the terminated lines, each followed by a newline,
/// and then the unterminated end are the bytes again, and no line holds a
/// newline.
pub proof fn law_lines_rejoin(bytes: Seq<u8>)
    ensures
        terminated(bytes).map_values(|l: Seq<u8>| l.push(NEWLINE)).flatten() + unterminated(bytes)
            == bytes,
        forall|j: int| 0 <= j < lines(bytes).len() ==> !(#[trigger] lines(bytes)[j]).contains(NEWLINE),
    decreases bytes.len(),
{
    let f = |l: Seq<u8>| l.push(NEWLINE);
    if bytes.len() == 0 {
        assert(terminated(bytes).map_values(f) =~= Seq::<Seq<u8>>::empty());
        assert(terminated(bytes).map_values(f).flatten() + unterminated(bytes) =~= bytes);
    } else {
        let front = bytes.drop_last();
        law_lines_rejoin(front);
        lemma_unterminated_has_no_newline(front);
        lemma_unterminated_has_no_newline(bytes);
        assert forall|j: int| 0 <= j < terminated(front).len() implies !(
        #[trigger] terminated(front)[j]).contains(NEWLINE) by {
            assert(lines(front)[j] == terminated(front)[j]);
        }
        if bytes.last() == NEWLINE {
            let head = terminated(front).map_values(f);
            let added = unterminated(front).push(NEWLINE);
            assert(terminated(bytes).map_values(f) =~= head.push(added));
            head.lemma_flatten_push(added);
            assert(head.flatten() + added + unterminated(bytes) =~= bytes) by {
                assert(head.flatten() + unterminated(front) == front);
                assert(head.flatten() + added =~= front.push(NEWLINE));
            }
        } else {
            let flat = terminated(front).map_values(f).flatten();
            assert(flat + unterminated(bytes) =~= (flat + unterminated(front)).push(bytes.last()));
            assert(front.push(bytes.last()) =~= bytes);
        }
    }
}

proof fn lemma_unterminated_has_no_newline(bytes: Seq<u8>)
    ensures
        !unterminated(bytes).contains(NEWLINE),
    decreases bytes.len(),
{
    if bytes.len() > 0 && bytes.last() != NEWLINE {
        lemma_unterminated_has_no_newline(bytes.drop_last());
        let front = unterminated(bytes.drop_last());
        assert forall|i: int| 0 <= i < unterminated(bytes).len() implies unterminated(bytes)[i]
            != NEWLINE by {
            if i < front.len() {
                assert(front.contains(front[i]));
            }
        }
    }
}

/// The unterminated end follows a newline, or is all there is.
proof fn lemma_unterminated_is_end(bytes: Seq<u8>)
    ensures
        unterminated(bytes).len() <= bytes.len(),
        ({
            let at = bytes.len() - unterminated(bytes).len();
            &&& unterminated(bytes) == bytes.skip(at)
            &&& at > 0 ==> bytes[at - 1] == NEWLINE
        }),
    decreases bytes.len(),
{
    if bytes.len() > 0 && bytes.last() != NEWLINE {
        let front = bytes.drop_last();
        lemma_unterminated_is_end(front);
        let at = front.len() - unterminated(front).len();
        assert(bytes.skip(at) =~= front.skip(at).push(bytes.last()));
        assert(at > 0 ==> bytes[at - 1] == front[at - 1]);
    }
}

/// Every line of valid UTF-8 is valid UTF-8.
proof fn lemma_valid_lines(bytes: Seq<u8>)
    requires
        valid_utf8(bytes),
    ensures
        readable_through(lines(bytes), lines(bytes).len()),
    decreases bytes.len(),
{
    lemma_unterminated_is_end(bytes);
    let end = unterminated(bytes);
    let at = bytes.len() - end.len();
    if at == 0 {
        assert(bytes.skip(0) =~= bytes);
        lemma_unterminated_has_no_newline(bytes);
        lemma_unterminated_extends(Seq::empty(), bytes);
        assert(Seq::<u8>::empty() + bytes =~= bytes);
    } else {
        let front = bytes.take(at - 1);
        let tail = bytes.skip(at - 1);
        is_char_boundary_iff_not_is_continuation_byte(bytes, at - 1);
        assert(!is_continuation_byte(bytes[at - 1]));
        valid_utf8_split(bytes, at - 1);
        assert(bytes.subrange(0, at - 1) =~= front);
        assert(bytes.subrange(at - 1, bytes.len() as int) =~= tail);
        assert(tail[0] == NEWLINE);
        assert(pop_first_scalar(tail) =~= end);
        lemma_valid_lines(front);
        let closed = front.push(NEWLINE);
        assert(closed.drop_last() =~= front);
        assert(closed + end =~= bytes);
        lemma_unterminated_has_no_newline(bytes);
        lemma_unterminated_extends(closed, end);
        assert(terminated(bytes) == terminated(front).push(unterminated(front)));
        assert(valid_utf8(unterminated(front))) by {
            if unterminated(front).len() > 0 {
                assert(valid_utf8(lines(front)[terminated(front).len() as int]));
            }
        }
        assert forall|j: int| 0 <= j < lines(bytes).len() implies valid_utf8(
            #[trigger] lines(bytes)[j],
        ) by {
            if j < terminated(front).len() {
                assert(lines(front)[j] == lines(bytes)[j]);
            }
        }
    }
}

/// In a file that is valid UTF-8, exactly the lines that are counted can be
/// read.
pub proof fn law_counted_lines_are_readable(bytes: Seq<u8>, k: nat)
    requires
        valid_utf8(bytes),
    ensures
        read_line(bytes, k) is Some <==> k < lines(bytes).len(),
{
    lemma_valid_lines(bytes);
}

/// A count of occurrences is what it says: as many as the haystack, taken
/// without its order, holds of the needle.
pub proof fn law_occurrences_are_counted(haystack: Seq<u8>, needle: u8)
    ensures
        occurrences(haystack, needle) == haystack.to_multiset().count(needle),
    decreases haystack.len(),
{
    broadcast use vstd::seq_lib::group_to_multiset_ensures;

    if haystack.len() > 0 {
        law_occurrences_are_counted(haystack.drop_last(), needle);
        assert(haystack =~= haystack.drop_last().push(haystack.last()));
    }
}

/// A number that fits is kept, and a larger one is the largest that fits.
pub proof fn law_counts_saturate(n: int)
    ensures
        0 <= n <= u64::MAX ==> saturated(n) == n,
        n > u64::MAX ==> saturated(n) == u64::MAX,
{
}

/// `parts`, each with a newline behind it.
pub open spec fn joined(parts: Seq<Seq<u8>>) -> Seq<u8>
    decreases parts.len(),
{
    if parts.len() == 0 {
        Seq::empty()
    } else {
        joined(parts.drop_last()) + parts.last() + seq![10u8]
    }
}

/// Text is split at its newlines and nowhere else: parts without a newline that
/// are joined by newlines are its lines again, and what follows the last newline
/// is one more line unless it is empty.
pub proof fn law_lines_of_joined_parts(parts: Seq<Seq<u8>>, tail: Seq<u8>)
    requires
        forall|i: int| 0 <= i < parts.len() ==> !(#[trigger] parts[i]).contains(10u8),
        !tail.contains(10u8),
    ensures
        terminated(joined(parts) + tail) == parts,
        unterminated(joined(parts) + tail) == tail,
        lines(joined(parts) + tail) == (if tail.len() == 0 {
            parts
        } else {
            parts.push(tail)
        }),
    decreases parts.len(),
{
    if parts.len() == 0 {
        assert(joined(parts) + tail =~= Seq::<u8>::empty() + tail);
        lemma_unterminated_extends(Seq::empty(), tail);
        assert(unterminated(Seq::<u8>::empty()) + tail =~= tail);
        assert(terminated(joined(parts) + tail) =~= parts);
    } else {
        let front = parts.drop_last();
        let last = parts.last();
        assert forall|i: int| 0 <= i < front.len() implies !(#[trigger] front[i]).contains(
            10u8,
        ) by {
            assert(!parts[i].contains(10u8));
        }
        assert(!parts[parts.len() - 1].contains(10u8));
        law_lines_of_joined_parts(front, last);
        let whole = joined(parts);
        assert(whole.drop_last() =~= joined(front) + last);
        assert(whole.last() == NEWLINE);
        assert(terminated(whole) =~= parts);
        lemma_unterminated_extends(whole, tail);
        assert(unterminated(whole) + tail =~= tail);
    }
}

/// A line reads as its text when it and every line before it are valid UTF-8,
/// and else not at all: a carriage return in front of its newline is left out,
/// and only one. Behind the last line there is nothing to read.
pub proof fn law_lines_read_as_text(parts: Seq<Seq<u8>>, tail: Seq<u8>, k: nat)
    requires
        forall|i: int| 0 <= i < parts.len() ==> !(#[trigger] parts[i]).contains(10u8),
        !tail.contains(10u8),
    ensures
        k < parts.len() && (forall|i: int| 0 <= i <= k ==> valid_utf8(#[trigger] parts[i]))
            ==> read_line(joined(parts) + tail, k) == Some(
            decode_utf8(
                if parts[k as int].len() > 0 && parts[k as int].last() == 13u8 {
                    parts[k as int].drop_last()
                } else {
                    parts[k as int]
                },
            ),
        ),
        k == parts.len() && tail.len() > 0 && valid_utf8(tail) && (forall|i: int|
            0 <= i < k ==> valid_utf8(#[trigger] parts[i])) ==> read_line(
            joined(parts) + tail,
            k,
        ) == Some(decode_utf8(tail)),
        (exists|i: int| 0 <= i <= k && i < parts.len() && !valid_utf8(#[trigger] parts[i]))
            ==> read_line(joined(parts) + tail, k) is None,
        k == parts.len() && !valid_utf8(tail) ==> read_line(joined(parts) + tail, k) is None,
        k == parts.len() && tail.len() == 0 ==> read_line(joined(parts) + tail, k) is None,
        k > parts.len() ==> read_line(joined(parts) + tail, k) is None,
{
    law_lines_of_joined_parts(parts, tail);
    let all = lines(joined(parts) + tail);
    assert(forall|i: int| 0 <= i < parts.len() ==> all[i] == parts[i]);
    if k == parts.len() && tail.len() > 0 {
        assert(all[k as int] == tail);
    }
    if exists|i: int| 0 <= i <= k && i < parts.len() && !valid_utf8(#[trigger] parts[i]) {
        let i = choose|i: int| 0 <= i <= k && i < parts.len() && !valid_utf8(#[trigger] parts[i]);
        assert(!valid_utf8(all[i]));
    }
}

/// Once a line has its newline, or a line up to it has turned out not to be
/// UTF-8, what is read of it is the same whatever bytes follow.
pub proof fn law_read_line_needs_no_more(a: Seq<u8>, b: Seq<u8>, k: nat)
    requires
        k < terminated(a).len() || !readable_through(terminated(a), k + 1),
    ensures
        read_line(a + b, k) == read_line(a, k),
{
    lemma_terminated_prefix(a, b);
    assert forall|j: int| 0 <= j < terminated(a).len() implies lines(a + b)[j] == lines(a)[j]
        && lines(a)[j] == terminated(a)[j] by {
        assert(terminated(a + b)[j] == terminated(a)[j]);
    }
    if !readable_through(terminated(a), k + 1) {
        let j = choose|j: int|
            0 <= j < k + 1 && j < terminated(a).len() && !valid_utf8(#[trigger] terminated(a)[j]);
        assert(!valid_utf8(lines(a)[j]));
        assert(!valid_utf8(lines(a + b)[j]));
    } else {
        assert forall|j: int| 0 <= j < k + 1 && j < lines(a + b).len() implies valid_utf8(
            #[trigger] lines(a + b)[j],
        ) by {
            assert(valid_utf8(terminated(a)[j]));
        }
        assert forall|j: int| 0 <= j < k + 1 && j < lines(a).len() implies valid_utf8(
            #[trigger] lines(a)[j],
        ) by {
            assert(valid_utf8(terminated(a)[j]));
        }
    }
}

/// A carriage return at its end makes a line neither valid nor invalid.
proof fn lemma_carriage_return_valid(line: Seq<u8>)
    ensures
        valid_utf8(without_carriage_return(line)) == valid_utf8(line),
{
    if line.len() > 0 && line.last() == CARRIAGE_RETURN {
        let end = seq![CARRIAGE_RETURN];
        reveal_with_fuel(valid_utf8, 2);
        assert(valid_utf8(end)) by {
            vstd::utf8::is_ascii_chars_encode_utf8(seq!['\r']);
            vstd::utf8::encode_utf8_valid_utf8(seq!['\r']);
            assert(vstd::utf8::encode_utf8(seq!['\r']) =~= end);
        }
        assert(line.drop_last() + end =~= line);
        if valid_utf8(line.drop_last()) {
            valid_utf8_concat(line.drop_last(), end);
        }
        if valid_utf8(line) {
            is_char_boundary_iff_not_is_continuation_byte(line, line.len() - 1);
            assert(!is_continuation_byte(line[line.len() - 1]));
            valid_utf8_split(line, line.len() - 1);
            assert(line.subrange(0, line.len() - 1) =~= line.drop_last());
        }
    }
}

/// `memchr::memchr_iter(needle, haystack).count()`: the number of positions of
/// `haystack` that hold `needle`.
#[verifier::external_body]
pub(crate) fn bytecount(haystack: &[u8], needle: u8) -> (r: usize)
    ensures
        r == occurrences(haystack@, needle),
{
    memchr::memchr_iter(needle, haystack).count()
}

/// Counts the lines of a file from chunks of its bytes.
///
/// Its view is the bytes that it has been given so far.
pub struct LineCounter {
    count: u64,
    ends_with_newline: bool,
    saw_any: bool,
    seen: Ghost<Seq<u8>>,
}

impl View for LineCounter {
    type V = Seq<u8>;

    closed spec fn view(&self) -> Seq<u8> {
        self.seen@
    }
}

impl LineCounter {
    #[verifier::type_invariant]
    spec fn inv(self) -> bool {
        &&& self.count == saturated(occurrences(self.seen@, NEWLINE) as int)
        &&& self.saw_any == (self.seen@.len() > 0)
        &&& self.saw_any ==> self.ends_with_newline == (self.seen@.last() == NEWLINE)
    }

    /// A counter that has seen nothing.
    pub fn new() -> (r: Self)
        ensures
            r@ == Seq::<u8>::empty(),
    {
        LineCounter {
            count: 0,
            ends_with_newline: true,
            saw_any: false,
            seen: Ghost(Seq::empty()),
        }
    }

    /// Takes in the next bytes of the file.
    pub fn feed(&mut self, chunk: &[u8])
        ensures
            final(self)@ == old(self)@ + chunk@,
    {
        proof {
            use_type_invariant(&*self);
        }
        if chunk.len() == 0 {
            assert(self@ + chunk@ =~= self@);
            return ;
        }
        let newlines: usize = bytecount(chunk, NEWLINE);
        proof {
            lemma_occurrences_concat(self.seen@, chunk@, NEWLINE);
            assert((self.seen@ + chunk@).last() == chunk@.last());
        }
        *self = LineCounter {
            count: self.count.saturating_add(newlines as u64),
            ends_with_newline: chunk[chunk.len() - 1] == NEWLINE,
            saw_any: true,
            seen: Ghost(self.seen@ + chunk@),
        };
    }

    /// The number of lines of a file whose bytes have all been seen.
    pub fn finish(&self) -> (r: u64)
        ensures
            r == saturated(lines(self@).len() as int),
    {
        proof {
            use_type_invariant(self);
            lemma_line_count(self.seen@);
        }
        if self.saw_any && !self.ends_with_newline {
            self.count.saturating_add(1)
        } else {
            self.count
        }
    }

    /// The number of lines of a file that could not be read further: bytes
    /// after the last newline do not count.
    pub fn interrupted(&self) -> (r: u64)
        ensures
            r == saturated(terminated(self@).len() as int),
    {
        proof {
            use_type_invariant(self);
            lemma_terminated_count(self.seen@);
        }
        self.count
    }
}

/// Counts the newlines of a file from chunks of its bytes.
///
/// Its view is the bytes that it has been given so far.
pub struct NewlineCounter {
    count: usize,
    seen: Ghost<Seq<u8>>,
}

impl View for NewlineCounter {
    type V = Seq<u8>;

    closed spec fn view(&self) -> Seq<u8> {
        self.seen@
    }
}

impl NewlineCounter {
    #[verifier::type_invariant]
    spec fn inv(self) -> bool {
        self.count == occurrences(self.seen@, NEWLINE)
    }

    /// A counter that has seen nothing.
    pub fn new() -> (r: Self)
        ensures
            r@ == Seq::<u8>::empty(),
    {
        NewlineCounter { count: 0, seen: Ghost(Seq::empty()) }
    }

    /// Takes in the next bytes of the file. The newlines seen in all must be
    /// few enough for a `usize`.
    pub fn feed(&mut self, chunk: &[u8])
        requires
            occurrences(old(self)@ + chunk@, NEWLINE) <= usize::MAX,
        ensures
            final(self)@ == old(self)@ + chunk@,
    {
        proof {
            use_type_invariant(&*self);
            lemma_occurrences_concat(self.seen@, chunk@, NEWLINE);
        }
        *self = NewlineCounter {
            count: self.count + bytecount(chunk, NEWLINE),
            seen: Ghost(self.seen@ + chunk@),
        };
    }

    /// The newlines seen so far.
    pub fn count(&self) -> (r: usize)
        ensures
            r == occurrences(self@, NEWLINE),
    {
        proof {
            use_type_invariant(self);
        }
        self.count
    }
}

/// The characters of an optional string.
pub open spec fn text_of(s: Option<String>) -> Option<Seq<char>> {
    match s {
        Some(s) => Some(s@),
        None => None,
    }
}

/// The text of a string is its characters.
pub proof fn law_text_of_strings(s: String)
    ensures
        text_of(Some(s)) == Some(s@),
        text_of(None) is None,
{
}

/// Reads one line of a file from chunks of its bytes, and asks for no more of
/// them than it needs.
///
/// Its view is the bytes that it has been given so far.
pub struct LineReader {
    wanted: u64,
    passed: u64,
    current: Vec<u8>,
    seen: Ghost<Seq<u8>>,
}

/// What a [`LineReader`] makes of the bytes it has.
pub enum LineStep {
    /// The line has not ended yet: feed the reader that is handed back.
    More(LineReader),
    /// The line, without the newline or carriage return and newline at its end.
    Found(String),
    /// The line, or one before it, is not valid UTF-8.
    Unreadable,
}

impl View for LineReader {
    type V = Seq<u8>;

    closed spec fn view(&self) -> Seq<u8> {
        self.seen@
    }
}

impl LineReader {
    /// The zero-based number of the line that is looked for.
    pub closed spec fn wanted(&self) -> nat {
        self.wanted as nat
    }

    #[verifier::type_invariant]
    spec fn inv(self) -> bool {
        &&& self.current@ == unterminated(self.seen@)
        &&& self.passed == terminated(self.seen@).len()
        &&& self.passed <= self.wanted
        &&& readable_through(terminated(self.seen@), terminated(self.seen@).len())
    }

    /// A reader of the zero-based line `local_offset`.
    pub fn new(local_offset: u64) -> (r: Self)
        ensures
            r@ == Seq::<u8>::empty(),
            r.wanted() == local_offset,
    {
        LineReader {
            wanted: local_offset,
            passed: 0,
            current: Vec::new(),
            seen: Ghost(Seq::empty()),
        }
    }

    /// Takes in the next bytes of the file.
    pub fn feed(self, chunk: &[u8]) -> (r: LineStep)
        ensures
            match r {
                LineStep::More(next) => {
                    &&& next@ == self@ + chunk@
                    &&& next.wanted() == self.wanted()
                    &&& terminated(self@ + chunk@).len() <= self.wanted()
                    &&& readable_through(terminated(self@ + chunk@), self.wanted() + 1)
                },
                LineStep::Found(line) => {
                    &&& self.wanted() < terminated(self@ + chunk@).len()
                    &&& read_line(self@ + chunk@, self.wanted()) == Some(line@)
                },
                LineStep::Unreadable => !readable_through(
                    terminated(self@ + chunk@),
                    self.wanted() + 1,
                ),
            },
    {
        proof {
            use_type_invariant(&self);
        }
        let ghost before = self.seen@;
        let LineReader { wanted, passed: passed_before, current: current_before, seen: _ } = self;
        let mut passed: u64 = passed_before;
        let mut current: Vec<u8> = current_before;
        let mut i: usize = 0;
        assert(before + chunk@.take(0) =~= before);
        while i < chunk.len()
            invariant
                i <= chunk.len(),
                before == self@,
                wanted == self.wanted(),
                current@ == unterminated(before + chunk@.take(i as int)),
                passed == terminated(before + chunk@.take(i as int)).len(),
                passed <= wanted,
                readable_through(
                    terminated(before + chunk@.take(i as int)),
                    terminated(before + chunk@.take(i as int)).len(),
                ),
            decreases chunk.len() - i,
        {
            let byte: u8 = chunk[i];
            let ghost so_far = before + chunk@.take(i as int);
            let ghost next = before + chunk@.take(i + 1);
            let ghost rest = chunk@.skip(i + 1);
            proof {
                assert(next.drop_last() =~= so_far);
                assert(next.last() == byte);
                assert(next + rest =~= before + chunk@);
                lemma_terminated_prefix(next, rest);
            }
            if byte == NEWLINE {
                let line: Vec<u8> = current;
                current = Vec::new();
                proof {
                    assert(terminated(next)[passed as int] == line@);
                    assert(terminated(before + chunk@)[passed as int] == line@);
                }
                if passed == wanted {
                    let found: Option<String> = line_text(line);
                    proof {
                        lemma_carriage_return_valid(line@);
                        law_read_line_needs_no_more(next, rest, wanted as nat);
                    }
                    match found {
                        Some(text) => {
                            assert(lines(next)[passed as int] == line@);
                            assert(readable_through(lines(next), (wanted + 1) as nat));
                            return LineStep::Found(text);
                        },
                        None => {
                            return LineStep::Unreadable;
                        },
                    }
                }
                if string_from_utf8(line).is_none() {
                    return LineStep::Unreadable;
                }
                passed = passed + 1;
            } else {
                current.push(byte);
            }
            i = i + 1;
        }
        assert(chunk@.take(chunk@.len() as int) =~= chunk@);
        LineStep::More(LineReader { wanted, passed, current, seen: Ghost(before + chunk@) })
    }

    /// The line, now that the file has no more bytes.
    pub fn finish(self) -> (r: Option<String>)
        ensures
            text_of(r) == read_line(self@, self.wanted()),
    {
        proof {
            use_type_invariant(&self);
        }
        let ghost seen = self.seen@;
        if self.passed < self.wanted || self.current.len() == 0 {
            return None;
        }
        assert(lines(seen)[self.wanted as int] == self.current@);
        assert forall|j: int| 0 <= j < self.passed implies lines(seen)[j] == terminated(seen)[j] by {}
        string_from_utf8(self.current)
    }
}

/// The text of a terminated line.
fn line_text(line: Vec<u8>) -> (r: Option<String>)
    ensures
        r is Some <==> valid_utf8(without_carriage_return(line@)),
        r matches Some(s) ==> s@ == decode_utf8(without_carriage_return(line@)),
{
    let mut line: Vec<u8> = line;
    let n: usize = line.len();
    if n > 0 && line[n - 1] == CARRIAGE_RETURN {
        line.truncate(n - 1);
    }
    string_from_utf8(line)
}

} // verus!
