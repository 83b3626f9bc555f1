use vstd::prelude::*;

use crate::ring::RingBuffer;

verus! {

/// Index of the first newline byte in `b`, or `b.len()` when there is none.
pub open spec fn first_nl(b: Seq<u8>) -> int
    decreases b.len(),
{
    if b.len() == 0 {
        0
    } else if b[0] == 10 {
        0
    } else {
        1 + first_nl(b.skip(1))
    }
}

pub proof fn lemma_first_nl(b: Seq<u8>)
    ensures
        0 <= first_nl(b) <= b.len(),
        forall|j: int| 0 <= j < first_nl(b) ==> b[j] != 10,
        first_nl(b) < b.len() ==> b[first_nl(b)] == 10,
    decreases b.len(),
{
    if b.len() == 0 {
    } else if b[0] == 10 {
    } else {
        lemma_first_nl(b.skip(1));
        assert forall|j: int| 0 <= j < first_nl(b) implies b[j] != 10 by {
            if j > 0 {
                assert(b.skip(1)[j - 1] == b[j]);
            }
        }
        if first_nl(b) < b.len() {
            assert(b.skip(1)[first_nl(b) - 1] == b[first_nl(b)]);
        }
    }
}

/// `first_nl` is pinned down by its characteristic properties.
pub proof fn lemma_first_nl_is(b: Seq<u8>, m: int)
    requires
        0 <= m <= b.len(),
        forall|j: int| 0 <= j < m ==> b[j] != 10,
        m < b.len() ==> b[m] == 10,
    ensures
        first_nl(b) == m,
    decreases b.len(),
{
    if b.len() == 0 {
    } else if b[0] == 10 {
        assert(m == 0);
    } else {
        assert(m >= 1);
        assert forall|j: int| 0 <= j < m - 1 implies b.skip(1)[j] != 10 by {
            assert(b.skip(1)[j] == b[j + 1]);
        }
        if m - 1 < b.len() - 1 {
            assert(b.skip(1)[m - 1] == b[m]);
        }
        lemma_first_nl_is(b.skip(1), m - 1);
    }
}

/// One carriage return before the line feed is part of the line ending, not
/// of the line.
pub open spec fn strip_cr(b: Seq<u8>) -> Seq<u8> {
    if b.len() > 0 && b[b.len() - 1] == 13 {
        b.drop_last()
    } else {
        b
    }
}

/// The newline-terminated lines of `b`, in order, line endings removed.  A
/// trailing partial line without its newline is not part of the result.
pub open spec fn complete_lines(b: Seq<u8>) -> Seq<Seq<u8>>
    decreases b.len(),
{
    let i = first_nl(b);
    if 0 <= i < b.len() {
        seq![strip_cr(b.take(i))] + complete_lines(b.skip(i + 1))
    } else {
        Seq::empty()
    }
}

/// How many leading bytes of `b` belong to newline-terminated lines: the
/// offset just past the last newline, or zero when there is none.
pub open spec fn consumed_len(b: Seq<u8>) -> int
    decreases b.len(),
{
    let i = first_nl(b);
    if 0 <= i < b.len() {
        i + 1 + consumed_len(b.skip(i + 1))
    } else {
        0
    }
}

/// `consumed_len` is pinned down by its characteristic properties: `m` sits
/// just past a newline (or at the start) and no newline follows it.
pub proof fn lemma_consumed_len_is(b: Seq<u8>, m: int)
    requires
        0 <= m <= b.len(),
        m > 0 ==> b[m - 1] == 10,
        forall|k: int| m <= k < b.len() ==> b[k] != 10,
    ensures
        consumed_len(b) == m,
    decreases b.len(),
{
    let i = first_nl(b);
    lemma_first_nl(b);
    if 0 <= i < b.len() {
        assert(b[i] == 10);
        assert(i < m);
        assert forall|k: int| m - i - 1 <= k < b.skip(i + 1).len() implies #[trigger] b.skip(i + 1)[k] != 10 by {
            assert(b.skip(i + 1)[k] == b[k + i + 1]);
        }
        if m - i - 1 > 0 {
            assert(b.skip(i + 1)[m - i - 2] == b[m - 1]);
        }
        lemma_consumed_len_is(b.skip(i + 1), m - i - 1);
    } else {
        assert(m == 0);
    }
}

/// What `String::from_utf8_lossy` makes of a byte sequence.
pub uninterp spec fn lossy_of(b: Seq<u8>) -> Seq<char>;

/// Relies on String::from_utf8_lossy: the decoding is a function of the bytes
/// alone, and valid UTF-8 — in particular plain ASCII — passes through
/// unchanged.
#[verifier::external_body]
fn decode_lossy(b: &Vec<u8>) -> (r: String)
    ensures
        r@ == lossy_of(b@),
        (forall|i: int| 0 <= i < b@.len() ==> b@[i] < 128) ==> r@ == b@.map_values(|x: u8| x as char),
{
    String::from_utf8_lossy(b.as_slice()).into_owned()
}

/// Split a delta read into its decoded complete lines and the number of
/// leading bytes they cover.
fn split_complete(bytes: &Vec<u8>) -> (r: (Vec<String>, usize))
    ensures
        r.1 as int == consumed_len(bytes@),
        r.1 <= bytes@.len(),
        r.0@.len() == complete_lines(bytes@).len(),
        forall|i: int| 0 <= i < r.0@.len() ==> (#[trigger] r.0@[i])@ == lossy_of(complete_lines(bytes@)[i]),
{
    let n = bytes.len();

    // Find the boundary just past the last newline: only bytes before it
    // belong to complete lines.
    let mut consumed: usize = n;
    while consumed > 0 && bytes[consumed - 1] != 10
        invariant
            consumed <= n,
            n == bytes@.len(),
            forall|k: int| consumed <= k < n ==> bytes@[k] != 10,
        decreases consumed,
    {
        consumed = consumed - 1;
    }
    proof {
        lemma_consumed_len_is(bytes@, consumed as int);
    }

    let mut lines: Vec<String> = Vec::new();
    let mut pos: usize = 0;
    proof {
        assert(bytes@.skip(0) =~= bytes@);
        assert(complete_lines(bytes@).skip(0) =~= complete_lines(bytes@));
    }
    while pos < consumed
        invariant
            pos <= consumed <= n,
            n == bytes@.len(),
            consumed as int == consumed_len(bytes@),
            consumed > 0 ==> bytes@[consumed - 1] == 10,
            lines@.len() <= complete_lines(bytes@).len(),
            complete_lines(bytes@.skip(pos as int)) == complete_lines(bytes@).skip(lines@.len() as int),
            consumed_len(bytes@) == pos + consumed_len(bytes@.skip(pos as int)),
            forall|i: int| 0 <= i < lines@.len() ==> (#[trigger] lines@[i])@ == lossy_of(complete_lines(bytes@)[i]),
        decreases consumed - pos,
    {
        // Scan for the newline that ends the current line; one exists before
        // `consumed`.
        let mut j = pos;
        while bytes[j] != 10
            invariant
                pos <= j < consumed <= n,
                n == bytes@.len(),
                bytes@[consumed - 1] == 10,
                forall|k: int| pos <= k < j ==> bytes@[k] != 10,
            decreases consumed - j,
        {
            j = j + 1;
        }
        proof {
            let rest = bytes@.skip(pos as int);
            assert forall|jj: int| 0 <= jj < j - pos implies rest[jj] != 10 by {
                assert(rest[jj] == bytes@[pos + jj]);
            }
            assert(rest[j - pos] == bytes@[j as int]);
            lemma_first_nl_is(rest, j - pos);
        }

        // The line's bytes, without a carriage return before the newline.
        let end = if j > pos && bytes[j - 1] == 13 {
            j - 1
        } else {
            j
        };
        let mut lb: Vec<u8> = Vec::new();
        let mut k = pos;
        while k < end
            invariant
                pos <= k <= end <= n,
                n == bytes@.len(),
                lb@ =~= bytes@.subrange(pos as int, k as int),
            decreases end - k,
        {
            lb.push(bytes[k]);
            k = k + 1;
        }
        proof {
            let rest = bytes@.skip(pos as int);
            let i = j - pos;
            assert(rest.take(i) =~= bytes@.subrange(pos as int, j as int));
            assert(lb@ =~= strip_cr(rest.take(i)));
        }

        let line = decode_lossy(&lb);
        proof {
            let rest = bytes@.skip(pos as int);
            let i = j - pos;
            let cl = complete_lines(bytes@);
            let ll = lines@.len() as int;
            assert(complete_lines(rest) == seq![strip_cr(rest.take(i))] + complete_lines(rest.skip(i + 1)));
            assert(complete_lines(rest)[0] == strip_cr(rest.take(i)));
            assert(complete_lines(rest).len() >= 1);
            assert(cl.skip(ll).len() == cl.len() - ll);
            assert(cl.len() > ll);
            assert(cl.skip(ll)[0] == cl[ll]);
            assert(cl[ll] == strip_cr(rest.take(i)));
        }
        lines.push(line);
        proof {
            let rest = bytes@.skip(pos as int);
            let i = j - pos;
            assert(rest.skip(i + 1) =~= bytes@.skip(j + 1));
            assert(complete_lines(rest).skip(1) =~= complete_lines(rest.skip(i + 1)));
            assert(complete_lines(bytes@).skip(lines@.len() - 1).skip(1)
                =~= complete_lines(bytes@).skip(lines@.len() as int));
            assert(consumed_len(rest) == i + 1 + consumed_len(rest.skip(i + 1)));
        }
        pos = j + 1;
    }
    proof {
        let rest = bytes@.skip(pos as int);
        assert forall|k: int| 0 <= k < rest.len() implies rest[k] != 10 by {
            assert(rest[k] == bytes@[pos + k]);
        }
        lemma_first_nl_is(rest, rest.len() as int);
        assert(complete_lines(rest) =~= Seq::<Seq<u8>>::empty());
        assert(complete_lines(bytes@).skip(lines@.len() as int).len() == 0);
        assert(lines@.len() == complete_lines(bytes@).len());
    }
    (lines, pos)
}

/// Default bound on the lines of history kept per file.
pub const DEFAULT_HISTORY_CAPACITY: usize = 10000;

/// Per-file read position: the byte offset already consumed, and the file
/// length seen at the last poll.  A file observed shorter than `position`
/// has been truncated or rotated.
pub struct TailCursor {
    pub position: u64,
    pub last_known_length: u64,
}

/// What one poll cycle did: how many newly completed lines it surfaced, and
/// whether it found the file truncated.
#[derive(Clone, Copy, Debug, PartialEq, Eq, Structural)]
pub struct PollOutcome {
    pub new_lines: usize,
    pub truncated: bool,
}

impl PollOutcome {
    /// A change notification is owed exactly when the cycle surfaced at least
    /// one new line; a cycle that found nothing must stay silent.
    pub fn should_notify(&self) -> (r: bool)
        ensures
            r == (self.new_lines > 0),
    {
        self.new_lines > 0
    }
}

/// The tail of one watched file: its path, the read cursor, and a bounded
/// history of the most recent complete lines.
pub struct FileWatcher {
    path: String,
    cursor: TailCursor,
    history: RingBuffer<String>,
}

impl FileWatcher {
    pub closed spec fn path_view(&self) -> Seq<char> {
        self.path@
    }

    pub closed spec fn position(&self) -> u64 {
        self.cursor.position
    }

    pub closed spec fn known_length(&self) -> u64 {
        self.cursor.last_known_length
    }

    pub closed spec fn entries(&self) -> Seq<String> {
        self.history@
    }

    pub closed spec fn history_cap(&self) -> nat {
        self.history.cap()
    }

    /// The history as a sequence of lines, oldest first.
    pub open spec fn lines(&self) -> Seq<Seq<char>> {
        self.entries().map_values(|s: String| s@)
    }

    /// On a well-behaved append-only file the consumed offset never passes
    /// the length last seen, and the history honours its bound.
    pub open spec fn wf(&self) -> bool {
        &&& self.position() <= self.known_length()
        &&& self.entries().len() <= self.history_cap()
    }

    /// A fresh tailer: cursor at the start, empty history, default capacity.
    pub fn new(file: &str) -> (r: Self)
        ensures
            r.path_view() == file@,
            r.position() == 0,
            r.known_length() == 0,
            r.lines() == Seq::<Seq<char>>::empty(),
            r.history_cap() == DEFAULT_HISTORY_CAPACITY,
            r.wf(),
    {
        Self::with_capacity(file, DEFAULT_HISTORY_CAPACITY)
    }

    /// A fresh tailer whose history keeps at most `capacity` lines.
    pub fn with_capacity(file: &str, capacity: usize) -> (r: Self)
        ensures
            r.path_view() == file@,
            r.position() == 0,
            r.known_length() == 0,
            r.lines() == Seq::<Seq<char>>::empty(),
            r.history_cap() == capacity,
            r.wf(),
    {
        let w = FileWatcher {
            path: file.to_owned(),
            cursor: TailCursor { position: 0, last_known_length: 0 },
            history: RingBuffer::new(capacity),
        };
        proof {
            assert(w.lines() =~= Seq::<Seq<char>>::empty());
        }
        w
    }

    /// The path this tailer follows.
    pub fn path(&self) -> (r: &String)
        ensures
            r@ == self.path_view(),
    {
        &self.path
    }

    /// How many lines the history currently holds.
    pub fn history_len(&self) -> (r: usize)
        ensures
            r == self.lines().len(),
    {
        self.history.len()
    }

    /// The byte offset already consumed.
    pub fn cursor_position(&self) -> (r: u64)
        ensures
            r == self.position(),
    {
        self.cursor.position
    }

    /// The file length seen at the last poll.
    pub fn last_length(&self) -> (r: u64)
        ensures
            r == self.known_length(),
    {
        self.cursor.last_known_length
    }

    /// Where the next delta read must start when the file currently has
    /// `observed_len` bytes: from the cursor, or from the top again after a
    /// truncation.
    pub open spec fn spec_read_offset(&self, observed_len: u64) -> u64 {
        if observed_len < self.position() {
            0
        } else {
            self.position()
        }
    }

    pub fn read_offset(&self, observed_len: u64) -> (r: u64)
        ensures
            r == self.spec_read_offset(observed_len),
    {
        if observed_len < self.cursor.position {
            0
        } else {
            self.cursor.position
        }
    }

    /// Fold one delta read into the tailer.  `bytes` is what the file holds
    /// from `read_offset(observed_len)` up to `observed_len`.  A file found
    /// shorter than the cursor was truncated: the stale history is dropped
    /// and the bytes count as a fresh read from the top.  Every newly
    /// completed line is appended to the history; a trailing partial line is
    /// left for the next poll, so the cursor advances only past the last
    /// newline.
    pub fn apply_poll(&mut self, observed_len: u64, bytes: &Vec<u8>) -> (out: PollOutcome)
        requires
            old(self).wf(),
            bytes@.len() == observed_len - old(self).spec_read_offset(observed_len),
        ensures
            final(self).wf(),
            out.truncated == (observed_len < old(self).position()),
            out.new_lines == complete_lines(bytes@).len(),
            final(self).lines() == RingBuffer::<Seq<char>>::pushed_all(
                if out.truncated { Seq::<Seq<char>>::empty() } else { old(self).lines() },
                old(self).history_cap(),
                complete_lines(bytes@).map_values(|l: Seq<u8>| lossy_of(l)),
            ),
            final(self).position() == old(self).spec_read_offset(observed_len) + consumed_len(bytes@),
            final(self).known_length() == observed_len,
            final(self).history_cap() == old(self).history_cap(),
            final(self).path_view() == old(self).path_view(),
    {
        let offset = self.read_offset(observed_len);
        let truncated = observed_len < self.cursor.position;
        if truncated {
            self.history.clear();
        }
        let ghost base = self.lines();
        let ghost cap = self.history_cap();
        let ghost decoded = complete_lines(bytes@).map_values(|l: Seq<u8>| lossy_of(l));
        proof {
            if truncated {
                assert(base =~= Seq::<Seq<char>>::empty());
            }
            assert(decoded.take(0) =~= Seq::<Seq<char>>::empty());
        }

        let (lines, consumed) = split_complete(bytes);
        let count = lines.len();
        let mut k: usize = 0;
        while k < count
            invariant
                k <= count,
                count == lines@.len(),
                lines@.len() == decoded.len(),
                forall|i: int| 0 <= i < lines@.len() ==> (#[trigger] lines@[i])@ == decoded[i],
                self.history.wf(),
                self.history.cap() == cap,
                self.lines() == RingBuffer::<Seq<char>>::pushed_all(base, cap, decoded.take(k as int)),
                self.path == old(self).path,
                self.cursor.position == old(self).cursor.position,
                self.cursor.last_known_length == old(self).cursor.last_known_length,
            decreases count - k,
        {
            let ghost pre_entries = self.history@;
            let s = lines[k].clone();
            self.history.push(s);
            proof {
                lemma_pushed_views(pre_entries, cap, s);
                RingBuffer::<Seq<char>>::lemma_pushed_all_snoc(base, cap, decoded.take(k as int), decoded[k as int]);
                assert(decoded.take(k as int).push(decoded[k as int]) =~= decoded.take(k as int + 1));
            }
            k = k + 1;
        }
        proof {
            assert(decoded.take(count as int) =~= decoded);
        }

        self.cursor.position = offset + consumed as u64;
        self.cursor.last_known_length = observed_len;
        PollOutcome { new_lines: count, truncated }
    }

    /// Clones of the last `n` history lines, oldest of the window first.
    pub fn iter_tail(&self, n: usize) -> (r: Vec<String>)
        ensures
            r@.len() == if n as int <= self.lines().len() { n as int } else { self.lines().len() as int },
            forall|i: int| 0 <= i < r@.len() ==> (#[trigger] r@[i])@ == self.lines()[self.lines().len() - r@.len() + i],
    {
        let refs = self.history.iter_last(n);
        let mut out: Vec<String> = Vec::new();
        let mut i: usize = 0;
        while i < refs.len()
            invariant
                i <= refs@.len(),
                refs@.len() <= self.entries().len(),
                forall|j: int| 0 <= j < refs@.len() ==> *(#[trigger] refs@[j]) == self.entries()[self.entries().len() - refs@.len() + j],
                out@.len() == i,
                forall|j: int| 0 <= j < out@.len() ==> (#[trigger] out@[j])@ == self.lines()[self.lines().len() - refs@.len() + j],
            decreases refs@.len() - i,
        {
            let s: String = refs[i].clone();
            out.push(s);
            i = i + 1;
        }
        out
    }
}

/// Pushing a line into a bounded history and then looking at the lines is
/// the same as pushing the line's characters into the bounded sequence of
/// lines.
proof fn lemma_pushed_views(pre: Seq<String>, c: nat, x: String)
    ensures
        RingBuffer::<String>::pushed(pre, c, x).map_values(|s: String| s@)
            =~= RingBuffer::<Seq<char>>::pushed(pre.map_values(|s: String| s@), c, x@),
{
}

/// Law: a trailing partial line is surfaced exactly once.  A read that finds
/// no newline surfaces no line and consumes nothing, so the next read covers
/// the same bytes again; once a write brings a newline, the waiting line is
/// surfaced in that one later read, never twice.
pub proof fn lemma_partial_line_once(b1: Seq<u8>, b2: Seq<u8>)
    requires
        forall|i: int| 0 <= i < b1.len() ==> b1[i] != 10,
        exists|i: int| 0 <= i < b2.len() && b2[i] == 10,
    ensures
        complete_lines(b1).len() == 0,
        consumed_len(b1) == 0,
        complete_lines(b1 + b2).len() >= 1,
{
    lemma_first_nl_is(b1, b1.len() as int);
    let w = b1 + b2;
    lemma_first_nl(w);
    let i = choose|i: int| 0 <= i < b2.len() && b2[i] == 10;
    assert(w[b1.len() + i] == 10);
    assert(first_nl(w) < w.len());
}

} // verus!
