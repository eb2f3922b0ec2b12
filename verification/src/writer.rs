use vstd::prelude::*;
use vstd::slice::slice_subrange;
use bstr::ByteSlice;
use crate::codec::MAX_TEXT_LEN;
use crate::error::IndexError;
use crate::lines::{newline_free, NEWLINE};
use crate::results::{is_entry_at, is_entry_of};
use crate::subindex::{is_text_blob, lines_view};

verus! {

/// The highest chunk ceiling: a chunk may pass its ceiling by the newline
/// of a single entry of full length, and must still fit a record.
pub const MAX_CHUNK_LEN: usize = 0x3FFF_FFFE;

/// The ceiling that a writer has where none is asked for: 512 MiB.
pub const DEFAULT_CHUNK_LEN: usize = 0x2000_0000;

/// An entry as the buffer stores it: its bytes and a newline.
pub open spec fn stored(entry: Seq<u8>) -> Seq<u8> {
    entry.push(NEWLINE)
}

/// Whether the buffer has to be flushed before `entry` goes in: it holds
/// something, and would pass the ceiling with the entry and its newline.
pub open spec fn must_flush(buffer: Seq<u8>, entry: Seq<u8>, ceiling: nat) -> bool {
    buffer.len() > 0 && buffer.len() + entry.len() + 1 > ceiling
}

/// What adding `entry` does to the finished chunks and the buffer.
pub open spec fn add_step(state: (Seq<Seq<u8>>, Seq<u8>), entry: Seq<u8>, ceiling: nat) -> (
    Seq<Seq<u8>>,
    Seq<u8>,
) {
    if must_flush(state.1, entry, ceiling) {
        (state.0.push(state.1), stored(entry))
    } else {
        (state.0, state.1 + stored(entry))
    }
}

/// What adding `entries` one by one does to the finished chunks and the
/// buffer.
pub open spec fn add_all(state: (Seq<Seq<u8>>, Seq<u8>), entries: Seq<Seq<u8>>, ceiling: nat) -> (
    Seq<Seq<u8>>,
    Seq<u8>,
)
    decreases entries.len(),
{
    if entries.len() == 0 {
        state
    } else {
        add_step(add_all(state, entries.drop_last(), ceiling), entries.last(), ceiling)
    }
}

/// What flushing does: a buffer that holds something becomes a finished
/// chunk.
pub open spec fn flush_step(state: (Seq<Seq<u8>>, Seq<u8>)) -> (Seq<Seq<u8>>, Seq<u8>) {
    if state.1.len() > 0 {
        (state.0.push(state.1), Seq::empty())
    } else {
        state
    }
}

/// All chunks of a new writer to which `entries` were added and which was
/// then finalized.
pub open spec fn written_chunks(entries: Seq<Seq<u8>>, ceiling: nat) -> Seq<Seq<u8>> {
    flush_step(add_all((Seq::empty(), Seq::empty()), entries, ceiling)).0
}

/// Every entry is short enough for the ceiling and holds no newline.
pub open spec fn entries_fit(entries: Seq<Seq<u8>>, ceiling: nat) -> bool {
    forall|k: int|
        0 <= k < entries.len() ==> newline_free(#[trigger] entries[k]) && entries[k].len()
            <= ceiling
}

/// How many of `lines`, from the first on, are added before one is longer
/// than the ceiling.
pub open spec fn accepted(lines: Seq<Seq<u8>>, ceiling: nat) -> int
    decreases lines.len(),
{
    if lines.len() == 0 {
        0
    } else {
        let before = accepted(lines.drop_last(), ceiling);
        if before == lines.len() - 1 && lines.last().len() <= ceiling {
            before + 1
        } else {
            before
        }
    }
}

/// A piece of a source without the newline that ends it. No other byte
/// goes: a carriage return before the newline is part of the line.
pub open spec fn without_newline(piece: Seq<u8>) -> Seq<u8> {
    if piece.len() > 0 && piece.last() == NEWLINE {
        piece.drop_last()
    } else {
        piece
    }
}

/// The offset of the first newline of `b`, or the length of `b`.
pub open spec fn first_newline(b: Seq<u8>) -> nat
    decreases b.len(),
{
    if b.len() == 0 || b[0] == NEWLINE {
        0
    } else {
        1 + first_newline(b.drop_first())
    }
}

/// The pieces of a source, cut after each newline, each with its newline.
/// What follows the last newline is a piece too, unless it is empty.
pub open spec fn terminated_lines(source: Seq<u8>) -> Seq<Seq<u8>>
    decreases source.len(),
{
    if source.len() == 0 {
        Seq::empty()
    } else {
        let end = first_newline(source) as int;
        if end >= source.len() {
            seq![source]
        } else {
            seq![source.subrange(0, end + 1)] + terminated_lines(source.skip(end + 1))
        }
    }
}

/// The lines of a source: its pieces, each without the newline that ends
/// it.
pub open spec fn byte_lines(source: Seq<u8>) -> Seq<Seq<u8>> {
    terminated_lines(source).map_values(|piece: Seq<u8>| without_newline(piece))
}

/// An entry stored in a text is still stored in it when the text grows
/// at its end.
pub proof fn lemma_entry_stays(t: Seq<u8>, more: Seq<u8>, e: Seq<u8>)
    requires
        is_entry_of(t, e),
    ensures
        is_entry_of(t + more, e),
{
    let s = choose|s: int| is_entry_at(t, e, s);
    assert((t + more).subrange(s, s + e.len()) =~= t.subrange(s, s + e.len()));
    assert(is_entry_at(t + more, e, s));
}

/// An entry is stored in the text that ends with it.
pub proof fn lemma_entry_goes_in(t: Seq<u8>, e: Seq<u8>)
    requires
        t.len() > 0 ==> t.last() == NEWLINE,
        newline_free(e),
    ensures
        is_entry_of(t + stored(e), e),
{
    let s = t.len() as int;
    assert((t + stored(e)).subrange(s, s + e.len()) =~= e);
    assert(is_entry_at(t + stored(e), e, s));
}

/// Every chunk is a text blob, at most one byte longer than the ceiling.
pub open spec fn all_blobs(chunks: Seq<Seq<u8>>, ceiling: nat) -> bool {
    forall|c: int|
        0 <= c < chunks.len() ==> is_text_blob(#[trigger] chunks[c]) && chunks[c].len() <= ceiling
            + 1
}

/// A buffer is at most one byte longer than the ceiling, and ends with a
/// newline if it holds anything.
pub open spec fn buffer_sound(buffer: Seq<u8>, ceiling: nat) -> bool {
    &&& buffer.len() <= ceiling + 1
    &&& buffer.len() > 0 ==> buffer.last() == NEWLINE
}

/// The finished chunks are text blobs, and so is a buffer that holds
/// something.
pub open spec fn chunks_sound(state: (Seq<Seq<u8>>, Seq<u8>), ceiling: nat) -> bool {
    all_blobs(state.0, ceiling) && buffer_sound(state.1, ceiling)
}

/// `e` is stored whole in one of the finished chunks or in the buffer.
pub open spec fn holds_entry(state: (Seq<Seq<u8>>, Seq<u8>), e: Seq<u8>) -> bool {
    is_entry_of(state.1, e) || exists|c: int|
        0 <= c < state.0.len() && is_entry_of(#[trigger] state.0[c], e)
}

/// Adding an entry keeps the chunks sound, keeps what was stored, and
/// stores the entry whole.
pub proof fn lemma_add_step_holds(state: (Seq<Seq<u8>>, Seq<u8>), e: Seq<u8>, ceiling: nat)
    requires
        chunks_sound(state, ceiling),
        e.len() <= ceiling,
    ensures
        chunks_sound(add_step(state, e, ceiling), ceiling),
        newline_free(e) ==> holds_entry(add_step(state, e, ceiling), e),
        forall|x: Seq<u8>| holds_entry(state, x) ==> holds_entry(add_step(state, e, ceiling), x),
{
    let next = add_step(state, e, ceiling);
    if newline_free(e) {
        if must_flush(state.1, e, ceiling) {
            lemma_entry_goes_in(Seq::empty(), e);
        } else {
            lemma_entry_goes_in(state.1, e);
        }
    }
    assert forall|x: Seq<u8>| holds_entry(state, x) implies holds_entry(next, x) by {
        if is_entry_of(state.1, x) {
            if must_flush(state.1, e, ceiling) {
                let c = state.0.len() as int;
                assert(next.0[c] == state.1);
            } else {
                lemma_entry_stays(state.1, stored(e), x);
            }
        } else {
            let c = choose|c: int| 0 <= c < state.0.len() && is_entry_of(#[trigger] state.0[c], x);
            assert(next.0[c] == state.0[c]);
        }
    }
}

/// Entries are never split: each one is stored whole in one chunk, or in
/// the buffer, and the chunks stay sound.
pub proof fn lemma_add_all_holds(
    state: (Seq<Seq<u8>>, Seq<u8>),
    entries: Seq<Seq<u8>>,
    ceiling: nat,
)
    requires
        chunks_sound(state, ceiling),
        entries_fit(entries, ceiling),
    ensures
        chunks_sound(add_all(state, entries, ceiling), ceiling),
        forall|k: int|
            0 <= k < entries.len() ==> holds_entry(
                add_all(state, entries, ceiling),
                #[trigger] entries[k],
            ),
        forall|x: Seq<u8>|
            holds_entry(state, x) ==> holds_entry(add_all(state, entries, ceiling), x),
    decreases entries.len(),
{
    if entries.len() > 0 {
        let before = entries.drop_last();
        assert forall|k: int| 0 <= k < before.len() implies newline_free(#[trigger] before[k])
            && before[k].len() <= ceiling by {}
        lemma_add_all_holds(state, before, ceiling);
        let mid = add_all(state, before, ceiling);
        lemma_add_step_holds(mid, entries.last(), ceiling);
        assert forall|k: int| 0 <= k < entries.len() implies holds_entry(
            add_all(state, entries, ceiling),
            #[trigger] entries[k],
        ) by {
            if k < before.len() {
                assert(before[k] == entries[k]);
            }
        }
    }
}

/// After finalizing a new writer, every entry that was added is stored
/// whole in one of the chunks, and every chunk is a text blob that a
/// record can hold.
pub proof fn lemma_written_chunks_hold_entries(entries: Seq<Seq<u8>>, ceiling: nat)
    requires
        entries_fit(entries, ceiling),
        ceiling <= MAX_CHUNK_LEN,
    ensures
        forall|c: int|
            0 <= c < written_chunks(entries, ceiling).len() ==> is_text_blob(
                #[trigger] written_chunks(entries, ceiling)[c],
            ) && written_chunks(entries, ceiling)[c].len() <= MAX_TEXT_LEN,
        forall|k: int|
            0 <= k < entries.len() ==> exists|c: int|
                0 <= c < written_chunks(entries, ceiling).len() && is_entry_of(
                    #[trigger] written_chunks(entries, ceiling)[c],
                    #[trigger] entries[k],
                ),
{
    let start = (Seq::<Seq<u8>>::empty(), Seq::<u8>::empty());
    lemma_add_all_holds(start, entries, ceiling);
    let state = add_all(start, entries, ceiling);
    let all = written_chunks(entries, ceiling);
    assert forall|k: int| 0 <= k < entries.len() implies exists|c: int|
        0 <= c < all.len() && is_entry_of(#[trigger] all[c], #[trigger] entries[k]) by {
        if is_entry_of(state.1, entries[k]) {
            assert(all[state.0.len() as int] == state.1);
        } else {
            let c = choose|c: int|
                0 <= c < state.0.len() && is_entry_of(#[trigger] state.0[c], entries[k]);
            assert(all[c] == state.0[c]);
        }
    }
}

/// Taking the finished chunks out early changes nothing in what is
/// produced: what was finished before stands before what comes after.
pub proof fn lemma_taking_early(
    finished: Seq<Seq<u8>>,
    buffer: Seq<u8>,
    entries: Seq<Seq<u8>>,
    ceiling: nat,
)
    ensures
        add_all((finished, buffer), entries, ceiling) == (
            finished + add_all((Seq::empty(), buffer), entries, ceiling).0,
            add_all((Seq::empty(), buffer), entries, ceiling).1,
        ),
    decreases entries.len(),
{
    if entries.len() > 0 {
        lemma_taking_early(finished, buffer, entries.drop_last(), ceiling);
    }
}

/// The first newline of a string lies within it or at its end, a newline
/// stands there if it lies within, and none stands before it.
pub proof fn lemma_first_newline(b: Seq<u8>)
    ensures
        first_newline(b) <= b.len(),
        first_newline(b) < b.len() ==> b[first_newline(b) as int] == NEWLINE,
        forall|j: int| 0 <= j < first_newline(b) ==> b[j] != NEWLINE,
    decreases b.len(),
{
    if b.len() > 0 && b[0] != NEWLINE {
        let rest = b.drop_first();
        lemma_first_newline(rest);
        assert forall|j: int| 0 <= j < first_newline(b) implies b[j] != NEWLINE by {
            if j > 0 {
                assert(rest[j - 1] == b[j]);
            }
        }
    }
}

/// What follows a string does not move its first newline.
pub proof fn lemma_first_newline_stays(a: Seq<u8>, b: Seq<u8>)
    requires
        first_newline(a) < a.len(),
    ensures
        first_newline(a + b) == first_newline(a),
    decreases a.len(),
{
    if a[0] != NEWLINE {
        assert((a + b).drop_first() =~= a.drop_first() + b);
        lemma_first_newline_stays(a.drop_first(), b);
    }
}

/// A source that comes in two parts, the first of them ending with a
/// newline, has the lines of the first part and then those of the second.
pub proof fn lemma_lines_of_parts(a: Seq<u8>, b: Seq<u8>)
    requires
        a.len() > 0 ==> a.last() == NEWLINE,
    ensures
        terminated_lines(a + b) == terminated_lines(a) + terminated_lines(b),
        byte_lines(a + b) == byte_lines(a) + byte_lines(b),
    decreases a.len(),
{
    if a.len() == 0 {
    } else {
        lemma_first_newline(a);
        let end = first_newline(a) as int;
        lemma_first_newline_stays(a, b);
        let rest = a.skip(end + 1);
        assert((a + b).skip(end + 1) =~= rest + b);
        assert((a + b).subrange(0, end + 1) =~= a.subrange(0, end + 1));
        lemma_lines_of_parts(rest, b);
    }
}

/// Adding entries in two runs is adding them in one.
pub proof fn lemma_add_all_in_runs(
    state: (Seq<Seq<u8>>, Seq<u8>),
    first: Seq<Seq<u8>>,
    second: Seq<Seq<u8>>,
    ceiling: nat,
)
    ensures
        add_all(state, first + second, ceiling) == add_all(
            add_all(state, first, ceiling),
            second,
            ceiling,
        ),
    decreases second.len(),
{
    if second.len() == 0 {
    } else {
        assert((first + second).drop_last() =~= first + second.drop_last());
        lemma_add_all_in_runs(state, first, second.drop_last(), ceiling);
    }
}

/// Once a line is too long, no later line is counted.
pub proof fn lemma_accepted_stops(lines: Seq<Seq<u8>>, ceiling: nat, i: int, m: int)
    requires
        0 <= i < m <= lines.len(),
        accepted(lines.take(i), ceiling) == i,
        lines[i].len() > ceiling,
    ensures
        accepted(lines.take(m), ceiling) == i,
    decreases m - i,
{
    assert(lines.take(m).drop_last() =~= lines.take(m - 1));
    if m > i + 1 {
        lemma_accepted_stops(lines, ceiling, i, m - 1);
    }
}

/// The pieces of a source, each with the newline that ends it.
///
/// This is `bstr::ByteSlice::lines_with_terminator`, which cuts after each
/// `\n`, leaves every byte in its piece, and gives what follows the last
/// `\n` unless that is empty.
#[verifier::external_body]
fn split_lines(source: &[u8]) -> (pieces: Vec<Vec<u8>>)
    ensures
        lines_view(pieces@) == terminated_lines(source@),
{
    source.lines_with_terminator().map(|piece| piece.to_vec()).collect()
}

/// Collects entries into chunks of bounded length.
///
/// The writer holds the chunk that is being filled and the chunks that are
/// finished. The caller takes the finished chunks, has the suffix array of
/// each built, encodes the two as a record and appends it to the container.
pub struct Writer {
    buffer: Vec<u8>,
    max_chunk_len: usize,
    finished: Vec<Vec<u8>>,
}

impl View for Writer {
    type V = (Seq<Seq<u8>>, Seq<u8>);

    /// The finished chunks that were not taken yet, and the bytes of the
    /// chunk that is being filled.
    closed spec fn view(&self) -> (Seq<Seq<u8>>, Seq<u8>) {
        (lines_view(self.finished@), self.buffer@)
    }
}

impl Writer {
    /// The chunk ceiling.
    pub closed spec fn ceiling(&self) -> nat {
        self.max_chunk_len as nat
    }

    #[verifier::type_invariant]
    pub closed spec fn well_formed(&self) -> bool {
        &&& self.max_chunk_len <= MAX_CHUNK_LEN
        &&& all_blobs(lines_view(self.finished@), self.max_chunk_len as nat)
        &&& buffer_sound(self.buffer@, self.max_chunk_len as nat)
    }

    /// A writer with nothing in it and the given ceiling, or the default
    /// one.
    pub fn new(max_chunk_len: Option<usize>) -> (w: Writer)
        requires
            max_chunk_len matches Some(m) ==> m <= MAX_CHUNK_LEN,
        ensures
            w@ == (Seq::<Seq<u8>>::empty(), Seq::<u8>::empty()),
            w.ceiling() == match max_chunk_len {
                Some(m) => m,
                None => DEFAULT_CHUNK_LEN,
            },
    {
        let max_chunk_len = match max_chunk_len {
            Some(m) => m,
            None => DEFAULT_CHUNK_LEN,
        };
        let finished: Vec<Vec<u8>> = Vec::new();
        Writer { buffer: Vec::new(), max_chunk_len, finished }
    }

    /// The chunk ceiling.
    pub fn max_chunk_len(&self) -> (m: usize)
        ensures
            m == self.ceiling(),
            m <= MAX_CHUNK_LEN,
    {
        proof {
            use_type_invariant(self);
        }
        self.max_chunk_len
    }

    /// The bytes of the chunk that is being filled.
    pub fn buffer(&self) -> (b: &[u8])
        ensures
            b@ == self@.1,
            chunks_sound(self@, self.ceiling()),
    {
        proof {
            use_type_invariant(self);
        }
        self.buffer.as_slice()
    }

    /// Adds an entry and its newline to the buffer. Where the buffer would
    /// pass the ceiling, it first becomes a finished chunk, and the entry
    /// opens the next one. An entry longer than the ceiling is refused and
    /// changes nothing.
    pub fn add_entry(&mut self, entry: &[u8]) -> (r: Result<(), IndexError>)
        ensures
            final(self).ceiling() == old(self).ceiling(),
            r == if entry@.len() <= old(self).ceiling() {
                Ok::<(), IndexError>(())
            } else {
                Err::<(), IndexError>(IndexError::EntryTooLarge)
            },
            final(self)@ == if entry@.len() <= old(self).ceiling() {
                add_step(old(self)@, entry@, old(self).ceiling())
            } else {
                old(self)@
            },
    {
        proof {
            use_type_invariant(&*self);
        }
        if entry.len() > self.max_chunk_len {
            return Err(IndexError::EntryTooLarge);
        }
        proof {
            lemma_add_step_holds(self@, entry@, self.ceiling());
        }
        let mut filling: Vec<u8> = Vec::new();
        core::mem::swap(&mut self.buffer, &mut filling);
        if filling.len() > 0 && filling.len() + entry.len() + 1 > self.max_chunk_len {
            let mut finished: Vec<Vec<u8>> = Vec::new();
            core::mem::swap(&mut self.finished, &mut finished);
            let ghost before = finished@;
            finished.push(filling);
            assert(lines_view(finished@) =~= lines_view(before).push(old(self)@.1));
            filling = Vec::new();
            self.finished = finished;
        }
        filling.extend_from_slice(entry);
        filling.push(NEWLINE);
        self.buffer = filling;
        Ok(())
    }

    /// Adds each line of `source`, the contents of a file or a part of
    /// them, as an entry. A line ends at a newline, and only that byte is
    /// taken off it. The first line that is longer than the ceiling ends the
    /// adding: the lines before it are in, that line and those after it are
    /// not.
    pub fn add_entries_from_file_lines(&mut self, source: &[u8]) -> (r: Result<(), IndexError>)
        ensures
            final(self).ceiling() == old(self).ceiling(),
            final(self)@ == add_all(
                old(self)@,
                byte_lines(source@).take(accepted(byte_lines(source@), old(self).ceiling())),
                old(self).ceiling(),
            ),
            r == if accepted(byte_lines(source@), old(self).ceiling()) == byte_lines(
                source@,
            ).len() {
                Ok::<(), IndexError>(())
            } else {
                Err::<(), IndexError>(IndexError::EntryTooLarge)
            },
    {
        let pieces = split_lines(source);
        let ghost all = byte_lines(source@);
        let ghost ceiling = self.ceiling();
        let mut i: usize = 0;
        while i < pieces.len()
            invariant
                i <= pieces.len(),
                lines_view(pieces@) == terminated_lines(source@),
                all.len() == pieces@.len(),
                all == byte_lines(source@),
                ceiling == old(self).ceiling(),
                self.ceiling() == ceiling,
                accepted(all.take(i as int), ceiling) == i,
                self@ == add_all(old(self)@, all.take(i as int), ceiling),
            decreases pieces.len() - i,
        {
            let piece = pieces[i].as_slice();
            let len = piece.len();
            let line = if len > 0 && piece[len - 1] == NEWLINE {
                slice_subrange(piece, 0, len - 1)
            } else {
                piece
            };
            proof {
                let now = all.take(i as int + 1);
                assert(now.drop_last() =~= all.take(i as int));
            }
            match self.add_entry(line) {
                Ok(()) => {},
                Err(e) => {
                    proof {
                        lemma_accepted_stops(all, ceiling, i as int, all.len() as int);
                        assert(all.take(all.len() as int) =~= all);
                    }
                    return Err(e);
                },
            }
            i = i + 1;
        }
        assert(all.take(i as int) =~= all);
        Ok(())
    }

    /// Makes the buffer a finished chunk and leaves it empty. An empty
    /// buffer stays as it is.
    pub fn dump_data(&mut self)
        ensures
            final(self).ceiling() == old(self).ceiling(),
            final(self)@ == flush_step(old(self)@),
    {
        proof {
            use_type_invariant(&*self);
        }
        if self.buffer.len() == 0 {
            return ;
        }
        let mut filling: Vec<u8> = Vec::new();
        core::mem::swap(&mut self.buffer, &mut filling);
        let mut finished: Vec<Vec<u8>> = Vec::new();
        core::mem::swap(&mut self.finished, &mut finished);
        let ghost before = finished@;
        finished.push(filling);
        assert(lines_view(finished@) =~= lines_view(before).push(old(self)@.1));
        self.finished = finished;
    }

    /// Ends the writing: what is left in the buffer becomes the last
    /// chunk. A second call changes nothing.
    pub fn finalize(&mut self)
        ensures
            final(self).ceiling() == old(self).ceiling(),
            final(self)@ == flush_step(old(self)@),
            flush_step(final(self)@) == final(self)@,
    {
        self.dump_data();
    }

    /// Hands over the finished chunks, oldest first, and keeps none. Each
    /// is a text blob that a record can hold.
    pub fn take_chunks(&mut self) -> (chunks: Vec<Vec<u8>>)
        ensures
            final(self).ceiling() == old(self).ceiling(),
            lines_view(chunks@) == old(self)@.0,
            final(self)@ == (Seq::<Seq<u8>>::empty(), old(self)@.1),
            forall|c: int|
                0 <= c < chunks@.len() ==> is_text_blob((#[trigger] chunks@[c])@) && chunks@[c]@.len()
                    <= MAX_TEXT_LEN,
    {
        proof {
            use_type_invariant(&*self);
        }
        let mut chunks: Vec<Vec<u8>> = Vec::new();
        core::mem::swap(&mut self.finished, &mut chunks);
        proof {
            assert forall|c: int| 0 <= c < chunks@.len() implies is_text_blob(
                (#[trigger] chunks@[c])@,
            ) && chunks@[c]@.len() <= MAX_TEXT_LEN by {
                assert(lines_view(chunks@)[c] == chunks@[c]@);
            }
        }
        chunks
    }
}

} // verus!
