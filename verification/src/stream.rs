//! A snapshot as one stream of bytes: the chunks in their order, and how far
//! the transfer has come.
use vstd::prelude::*;
use crate::checksum::{crc32_extend, crc32_update};
use crate::error::{Cause, Error};

verus! {

/// One chunk of the stream.
#[derive(Clone, Copy, PartialEq, Eq, Debug, Structural)]
pub struct StreamChunk {
    /// The column family that the chunk belongs to.
    pub cf_index: usize,
    /// Which chunk of its column family it is.
    pub file_index: usize,
    /// The bytes that the metadata declares for it.
    pub size: u64,
    /// The checksum that the metadata declares for it.
    pub checksum: u32,
    /// The bytes transferred so far.
    pub done: u64,
    /// The checksum of the bytes transferred so far.
    pub digest: u32,
}

/// A run of bytes of a buffer that goes to one chunk.
#[derive(Clone, Copy, PartialEq, Eq, Debug, Structural)]
pub struct WriteSegment {
    /// The place of the chunk in the stream.
    pub chunk: usize,
    /// Where the run begins in the buffer.
    pub start: usize,
    /// Where the run ends in the buffer.
    pub end: usize,
    /// Whether the run completes the chunk.
    pub last: bool,
}

/// What a write takes of a buffer: so many bytes from its start, in these runs.
#[derive(Debug)]
pub struct WritePlan {
    pub written: usize,
    pub segments: Vec<WriteSegment>,
}

pub open spec fn clamp(x: int, lo: int, hi: int) -> int {
    if x < lo {
        lo
    } else if x > hi {
        hi
    } else {
        x
    }
}

/// Where chunk `k` begins in the stream: the sizes of the chunks before it.
pub open spec fn offset(chunks: Seq<StreamChunk>, k: int) -> nat
    decreases k,
{
    if k <= 0 {
        0
    } else {
        offset(chunks, k - 1) + chunks[k - 1].size as nat
    }
}

/// The bytes of the whole stream.
pub open spec fn capacity(chunks: Seq<StreamChunk>) -> nat {
    offset(chunks, chunks.len() as int)
}

/// Of the `n` bytes that follow place `from` of the stream, where those of chunk `k` begin.
pub open spec fn seg_start(chunks: Seq<StreamChunk>, k: int, from: nat, n: nat) -> int {
    clamp(offset(chunks, k) - from, 0, n as int)
}

/// Of the `n` bytes that follow place `from` of the stream, where those of chunk `k` end.
pub open spec fn seg_end(chunks: Seq<StreamChunk>, k: int, from: nat, n: nat) -> int {
    clamp(offset(chunks, k) + chunks[k].size - from, 0, n as int)
}

/// Chunk `k` after the first `n` bytes of `buf` were written at place `from` of
/// the stream: what falls to it is counted and taken into its checksum.
#[verifier::opaque]
pub open spec fn written_chunk(
    chunks: Seq<StreamChunk>,
    from: nat,
    n: nat,
    buf: Seq<u8>,
    k: int,
) -> StreamChunk {
    let lo = seg_start(chunks, k, from, n);
    let hi = seg_end(chunks, k, from, n);
    if lo < hi {
        StreamChunk {
            done: (chunks[k].done + (hi - lo)) as u64,
            digest: crc32_update(chunks[k].digest, buf.subrange(lo, hi)),
            ..chunks[k]
        }
    } else {
        chunks[k]
    }
}

/// The run of the first `n` bytes of a buffer that goes to chunk `k`.
#[verifier::opaque]
pub open spec fn segment_of(chunks: Seq<StreamChunk>, from: nat, n: nat, k: int) -> WriteSegment {
    WriteSegment {
        chunk: k as usize,
        start: seg_start(chunks, k, from, n) as usize,
        end: seg_end(chunks, k, from, n) as usize,
        last: offset(chunks, k) + chunks[k].size - from <= n,
    }
}

pub struct StreamView {
    pub chunks: Seq<StreamChunk>,
    /// The chunk at which the transfer stands.
    pub cursor: int,
}

impl StreamView {
    /// No chunk is empty; the chunks before the cursor are complete, the one
    /// at the cursor is not, and those behind it are untouched.
    pub open spec fn wf(self) -> bool {
        &&& 0 <= self.cursor <= self.chunks.len()
        &&& forall|k: int|
            0 <= k < self.chunks.len() ==> {
                let c = #[trigger] self.chunks[k];
                &&& c.size > 0
                &&& k < self.cursor ==> c.done == c.size
                &&& k == self.cursor ==> c.done < c.size
                &&& k > self.cursor ==> c.done == 0
            }
    }

    /// The bytes transferred so far.
    pub open spec fn received(self) -> nat {
        offset(self.chunks, self.cursor) + if self.cursor < self.chunks.len() {
            self.chunks[self.cursor].done as nat
        } else {
            0
        }
    }

    /// The bytes that are still to come.
    pub open spec fn remaining(self) -> int {
        capacity(self.chunks) - self.received()
    }

    pub open spec fn complete(self) -> bool {
        self.cursor == self.chunks.len()
    }
}

/// A later chunk does not begin before an earlier one ends.
pub proof fn lemma_offset_mono(chunks: Seq<StreamChunk>, i: int, j: int)
    requires
        0 <= i <= j,
    ensures
        offset(chunks, i) <= offset(chunks, j),
        i < j ==> offset(chunks, i) + chunks[i].size <= offset(chunks, j),
    decreases j - i,
{
    if i < j {
        lemma_offset_mono(chunks, i, j - 1);
    }
}

/// Where a chunk begins depends on the sizes before it alone.
pub proof fn lemma_offset_same_sizes(a: Seq<StreamChunk>, b: Seq<StreamChunk>, k: int)
    requires
        0 <= k <= a.len(),
        a.len() == b.len(),
        forall|j: int| 0 <= j < a.len() ==> (#[trigger] a[j]).size == b[j].size,
    ensures
        offset(a, k) == offset(b, k),
    decreases k,
{
    if k > 0 {
        lemma_offset_same_sizes(a, b, k - 1);
    }
}

/// The chunks of a snapshot in the order of transfer, with the progress of each.
#[derive(Debug)]
pub struct Stream {
    chunks: Vec<StreamChunk>,
    cursor: usize,
}

impl View for Stream {
    type V = StreamView;

    closed spec fn view(&self) -> StreamView {
        StreamView { chunks: self.chunks@, cursor: self.cursor as int }
    }
}

impl Stream {
    /// A stream of no chunks.
    pub fn empty() -> (s: Stream)
        ensures
            s@.wf(),
            s@.chunks.len() == 0,
            s@.cursor == 0,
    {
        Stream { chunks: Vec::new(), cursor: 0 }
    }

    /// A stream of the given chunks, at its start.
    pub fn new(chunks: Vec<StreamChunk>) -> (s: Stream)
        requires
            forall|k: int|
                0 <= k < chunks@.len() ==> (#[trigger] chunks@[k]).size > 0 && chunks@[k].done == 0,
        ensures
            s@.wf(),
            s@.chunks == chunks@,
            s@.cursor == 0,
    {
        Stream { chunks, cursor: 0 }
    }

    pub fn chunks(&self) -> (chunks: &Vec<StreamChunk>)
        ensures
            chunks@ == self@.chunks,
    {
        &self.chunks
    }

    /// The chunk at which the transfer stands, unless the stream is complete.
    pub fn current(&self) -> (r: Option<usize>)
        requires
            self@.wf(),
        ensures
            match r {
                Some(k) => k == self@.cursor && k < self@.chunks.len(),
                None => self@.complete(),
            },
    {
        if self.cursor < self.chunks.len() {
            Some(self.cursor)
        } else {
            None
        }
    }

    /// Takes the chunk at the cursor as transferred in full and moves on to the next.
    pub fn finish_current(&mut self)
        requires
            old(self)@.wf(),
        ensures
            final(self)@.wf(),
            old(self)@.complete() ==> final(self)@ == old(self)@,
            !old(self)@.complete() ==> {
                let k = old(self)@.cursor;
                let c = old(self)@.chunks[k];
                &&& final(self)@.cursor == k + 1
                &&& final(self)@.chunks == old(self)@.chunks.update(
                    k,
                    StreamChunk { done: c.size, ..c },
                )
            },
    {
        if self.cursor < self.chunks.len() {
            let k: usize = self.cursor;
            let c = self.chunks[k];
            self.chunks.set(k, StreamChunk { done: c.size, ..c });
            self.cursor = k + 1;
        }
    }

    /// Takes bytes from the start of `buf` into the stream: as many as the
    /// chunks that are not yet complete still lack, across chunk boundaries,
    /// each chunk counting its bytes and taking them into its checksum. The
    /// plan says how many bytes were taken and which run of them belongs to
    /// which chunk, for the caller to put on disk: the runs follow each other
    /// and cover the bytes taken.
    pub fn write(&mut self, buf: &[u8]) -> (plan: WritePlan)
        requires
            old(self)@.wf(),
        ensures
            write_post(old(self)@, final(self)@, buf@, plan.written as int, plan.segments@),
    {
        let ghost old_view = self@;
        let mut segments: Vec<WriteSegment> = Vec::new();
        let mut pos: usize = 0;
        let mut k: usize = self.cursor;
        proof {
            lemma_write_start(old_view, buf@);
        }
        while k < self.chunks.len() && self.chunks[k].size - self.chunks[k].done <= (buf.len()
            - pos) as u64
            invariant
                old_view == old(self)@,
                old_view.wf(),
                self.chunks@.len() == old_view.chunks.len(),
                pos <= buf@.len(),
                stands_at(old_view, k as int, pos as int),
                forall|j: int|
                    0 <= j < old_view.chunks.len() ==> #[trigger] self.chunks@[j] == written_chunk(
                        old_view.chunks,
                        old_view.received(),
                        pos as nat,
                        buf@,
                        j,
                    ),
                forall|j: int|
                    k <= j < old_view.chunks.len() ==> #[trigger] self.chunks@[j]
                        == old_view.chunks[j],
                segments@.len() == k - old_view.cursor,
                forall|j: int|
                    0 <= j < segments@.len() ==> #[trigger] segments@[j] == segment_of(
                        old_view.chunks,
                        old_view.received(),
                        pos as nat,
                        old_view.cursor + j,
                    ),
                runs_cover(segments@, pos as int),
            decreases old_view.chunks.len() - k,
        {
            let c = self.chunks[k];
            proof {
                lemma_untouched(old_view, k as int, pos as int, buf@);
            }
            let take: usize = (c.size - c.done) as usize;
            let end: usize = pos + take;
            let piece = vstd::slice::slice_subrange(buf, pos, end);
            let digest: u32 = crc32_extend(c.digest, piece);
            let ghost before = segments@;
            self.chunks.set(k, StreamChunk { done: c.size, digest, ..c });
            segments.push(WriteSegment { chunk: k, start: pos, end, last: true });
            proof {
                lemma_write_step(old_view, k as int, pos as int, take as int, buf@);
                lemma_push_run(old_view, k as int, pos as int, take as int, buf@, before, segments@);
            }
            k += 1;
            pos = end;
        }
        if k < self.chunks.len() && pos < buf.len() {
            let c = self.chunks[k];
            proof {
                lemma_untouched(old_view, k as int, pos as int, buf@);
            }
            let take: usize = buf.len() - pos;
            let end: usize = buf.len();
            let piece = vstd::slice::slice_subrange(buf, pos, end);
            let digest: u32 = crc32_extend(c.digest, piece);
            let ghost before = segments@;
            self.chunks.set(k, StreamChunk { done: c.done + take as u64, digest, ..c });
            segments.push(WriteSegment { chunk: k, start: pos, end, last: false });
            proof {
                lemma_write_step(old_view, k as int, pos as int, take as int, buf@);
                lemma_push_run(old_view, k as int, pos as int, take as int, buf@, before, segments@);
            }
            pos = end;
        }
        self.cursor = k;
        proof {
            assert(self@.chunks =~= Seq::new(
                old_view.chunks.len(),
                |j: int| written_chunk(old_view.chunks, old_view.received(), pos as nat, buf@, j),
            ));
            if k < old_view.chunks.len() {
                lemma_offset_mono(old_view.chunks, old_view.cursor, k as int);
            }
            lemma_write_end(old_view, k as int, pos as int, buf@);
        }
        WritePlan { written: pos, segments }
    }
}

/// What a write of `buf` does to a stream and what it reports: `written` bytes
/// are taken, which are all of `buf` or all that the stream still lacks; each
/// chunk gets what falls to it; the runs reported are those of the chunks that
/// got bytes, in order, and cover the bytes taken.
pub open spec fn write_post(
    old: StreamView,
    fin: StreamView,
    buf: Seq<u8>,
    written: int,
    segments: Seq<WriteSegment>,
) -> bool {
    &&& fin.wf()
    &&& fin.chunks.len() == old.chunks.len()
    &&& written == if buf.len() <= old.remaining() {
        buf.len() as int
    } else {
        old.remaining()
    }
    &&& fin.received() == old.received() + written
    &&& forall|k: int|
        0 <= k < old.chunks.len() ==> #[trigger] fin.chunks[k] == written_chunk(
            old.chunks,
            old.received(),
            written as nat,
            buf,
            k,
        )
    &&& old.cursor + segments.len() <= old.chunks.len()
    &&& forall|j: int|
        0 <= j < segments.len() ==> #[trigger] segments[j] == segment_of(
            old.chunks,
            old.received(),
            written as nat,
            old.cursor + j,
        )
    &&& runs_cover(segments, written)
}

/// The runs follow each other from the start of the buffer and end at `n`.
pub open spec fn runs_cover(segments: Seq<WriteSegment>, n: int) -> bool {
    &&& segments.len() == 0 <==> n == 0
    &&& segments.len() > 0 ==> segments[0].start == 0 && segments.last().end == n
    &&& forall|j: int|
        0 <= j < segments.len() - 1 ==> (#[trigger] segments[j]).end == segments[j + 1].start
    &&& forall|j: int| 0 <= j < segments.len() ==> (#[trigger] segments[j]).start < segments[j].end
}

/// After `pos` bytes written into a stream that stood as `old`, the next byte
/// goes to chunk `k`, which has got no byte of them yet.
pub open spec fn stands_at(old: StreamView, k: int, pos: int) -> bool {
    &&& old.cursor <= k <= old.chunks.len()
    &&& 0 <= pos
    &&& k < old.chunks.len() ==> old.received() + pos == offset(old.chunks, k) + old.chunks[k].done
    &&& k == old.chunks.len() ==> old.received() + pos == capacity(old.chunks)
}

proof fn lemma_write_start(old: StreamView, buf: Seq<u8>)
    requires
        old.wf(),
    ensures
        stands_at(old, old.cursor, 0),
        forall|j: int|
            0 <= j < old.chunks.len() ==> #[trigger] old.chunks[j] == written_chunk(
                old.chunks,
                old.received(),
                0,
                buf,
                j,
            ),
{
    reveal(written_chunk);
    reveal(segment_of);
}

/// Before a chunk gets its first byte of a write, it is as it was.
proof fn lemma_untouched(old: StreamView, k: int, pos: int, buf: Seq<u8>)
    requires
        old.wf(),
        stands_at(old, k, pos),
        k < old.chunks.len(),
    ensures
        written_chunk(old.chunks, old.received(), pos as nat, buf, k) == old.chunks[k],
        old.chunks[k].done < old.chunks[k].size,
        k > old.cursor ==> old.chunks[k].done == 0,
{
    reveal(written_chunk);
    reveal(segment_of);
}

/// What `take` more bytes for chunk `k` change: that chunk, and nothing else.
proof fn lemma_write_step(old: StreamView, k: int, pos: int, take: int, buf: Seq<u8>)
    requires
        old.wf(),
        stands_at(old, k, pos),
        k < old.chunks.len(),
        0 < take <= old.chunks[k].size - old.chunks[k].done,
        pos + take <= buf.len(),
    ensures
        forall|j: int|
            0 <= j < old.chunks.len() && j != k ==> #[trigger] written_chunk(
                old.chunks,
                old.received(),
                (pos + take) as nat,
                buf,
                j,
            ) == written_chunk(old.chunks, old.received(), pos as nat, buf, j),
        written_chunk(old.chunks, old.received(), (pos + take) as nat, buf, k) == (StreamChunk {
            done: (old.chunks[k].done + take) as u64,
            digest: crc32_update(old.chunks[k].digest, buf.subrange(pos, pos + take)),
            ..old.chunks[k]
        }),
        segment_of(old.chunks, old.received(), (pos + take) as nat, k) == (WriteSegment {
            chunk: k as usize,
            start: pos as usize,
            end: (pos + take) as usize,
            last: take == old.chunks[k].size - old.chunks[k].done,
        }),
        forall|j: int|
            old.cursor <= j < k ==> #[trigger] segment_of(
                old.chunks,
                old.received(),
                (pos + take) as nat,
                j,
            ) == segment_of(old.chunks, old.received(), pos as nat, j),
        take == old.chunks[k].size - old.chunks[k].done ==> stands_at(old, k + 1, pos + take),
{
    reveal(written_chunk);
    reveal(segment_of);
    let chunks = old.chunks;
    let from = old.received();
    lemma_offset_mono(chunks, old.cursor, k);
    assert forall|j: int| 0 <= j < chunks.len() && j != k implies #[trigger] written_chunk(
        chunks,
        from,
        (pos + take) as nat,
        buf,
        j,
    ) == written_chunk(chunks, from, pos as nat, buf, j) by {
        if j < k {
            lemma_offset_mono(chunks, j, k);
        } else {
            lemma_offset_mono(chunks, k + 1, j);
        }
    }
    assert forall|j: int| old.cursor <= j < k implies #[trigger] segment_of(
        chunks,
        from,
        (pos + take) as nat,
        j,
    ) == segment_of(chunks, from, pos as nat, j) by {
        lemma_offset_mono(chunks, j, k);
    }
    if k + 1 < chunks.len() {
        assert(chunks[k + 1].done == 0);
    }
}

/// Where a write ends, the stream is in order again and has the bytes written more.
proof fn lemma_write_end(old: StreamView, k: int, pos: int, buf: Seq<u8>)
    requires
        old.wf(),
        old.cursor <= k <= old.chunks.len(),
        0 <= pos <= buf.len(),
        k < old.chunks.len() ==> {
            &&& pos == buf.len()
            &&& offset(old.chunks, k) + old.chunks[k].done <= old.received() + pos
            &&& old.received() + pos < offset(old.chunks, k) + old.chunks[k].size
        },
        k == old.chunks.len() ==> old.received() + pos == capacity(old.chunks),
    ensures
        ({
            let fin = StreamView {
                chunks: Seq::new(
                    old.chunks.len(),
                    |j: int| written_chunk(old.chunks, old.received(), pos as nat, buf, j),
                ),
                cursor: k,
            };
            &&& fin.wf()
            &&& fin.received() == old.received() + pos
            &&& pos == if buf.len() <= old.remaining() {
                buf.len() as int
            } else {
                old.remaining()
            }
        }),
{
    reveal(written_chunk);
    reveal(segment_of);
    let chunks = old.chunks;
    let from = old.received();
    let fin = StreamView {
        chunks: Seq::new(chunks.len(), |j: int| written_chunk(chunks, from, pos as nat, buf, j)),
        cursor: k,
    };
    lemma_offset_mono(chunks, old.cursor, k);
    lemma_offset_mono(chunks, k, chunks.len() as int);
    assert forall|j: int| 0 <= j < fin.chunks.len() implies {
        let cj = #[trigger] fin.chunks[j];
        &&& cj.size > 0
        &&& j < fin.cursor ==> cj.done == cj.size
        &&& j == fin.cursor ==> cj.done < cj.size
        &&& j > fin.cursor ==> cj.done == 0
    } by {
        assert(chunks[j].size > 0);
        assert(fin.chunks[j] == written_chunk(chunks, from, pos as nat, buf, j));
        if j < old.cursor {
            lemma_offset_mono(chunks, j, old.cursor);
        } else {
            lemma_offset_mono(chunks, old.cursor, j);
            if j < k {
                lemma_offset_mono(chunks, j, k);
            } else if j > k {
                lemma_offset_mono(chunks, k + 1, j);
            }
        }
    }
    lemma_offset_same_sizes(fin.chunks, chunks, k);
}

/// A further run, for chunk `k`, joins the runs that are there.
proof fn lemma_push_run(
    old: StreamView,
    k: int,
    pos: int,
    take: int,
    buf: Seq<u8>,
    before: Seq<WriteSegment>,
    after: Seq<WriteSegment>,
)
    requires
        old.wf(),
        stands_at(old, k, pos),
        k < old.chunks.len(),
        0 < take <= old.chunks[k].size - old.chunks[k].done,
        pos + take <= buf.len() <= usize::MAX,
        before.len() == k - old.cursor,
        forall|j: int|
            0 <= j < before.len() ==> #[trigger] before[j] == segment_of(
                old.chunks,
                old.received(),
                pos as nat,
                old.cursor + j,
            ),
        runs_cover(before, pos),
        after == before.push(
            WriteSegment {
                chunk: k as usize,
                start: pos as usize,
                end: (pos + take) as usize,
                last: take == old.chunks[k].size - old.chunks[k].done,
            },
        ),
    ensures
        forall|j: int|
            0 <= j < after.len() ==> #[trigger] after[j] == segment_of(
                old.chunks,
                old.received(),
                (pos + take) as nat,
                old.cursor + j,
            ),
        runs_cover(after, pos + take),
{
    lemma_write_step(old, k, pos, take, buf);
    assert forall|j: int| 0 <= j < after.len() implies #[trigger] after[j] == segment_of(
        old.chunks,
        old.received(),
        (pos + take) as nat,
        old.cursor + j,
    ) by {
        if j < before.len() {
            assert(after[j] == before[j]);
        }
    }
    assert forall|j: int| 0 <= j < after.len() - 1 implies (#[trigger] after[j]).end == after[j
        + 1].start by {
        assert(after[j] == before[j]);
        if j + 1 < before.len() {
            assert(after[j + 1] == before[j + 1]);
        }
    }
    assert forall|j: int| 0 <= j < after.len() implies (#[trigger] after[j]).start
        < after[j].end by {
        if j < before.len() {
            assert(after[j] == before[j]);
        }
    }
    if before.len() > 0 {
        assert(after[0] == before[0]);
    }
}


/// The size of the units in which the rate limiter is asked for bytes.
pub const IO_LIMITER_CHUNK_SIZE: usize = 4 * 1024;

/// What is wrong with a chunk at the end of a transfer, if anything: it lacks
/// bytes, or has them all under another checksum than the one declared.
pub open spec fn chunk_fault(c: StreamChunk) -> Option<Cause> {
    if c.done != c.size {
        Some(
            Cause::WrittenSize {
                cf_index: c.cf_index,
                file_index: c.file_index,
                got: c.done,
                expected: c.size,
            },
        )
    } else if c.digest != c.checksum {
        Some(
            Cause::WrittenChecksum {
                cf_index: c.cf_index,
                file_index: c.file_index,
                got: c.digest,
                expected: c.checksum,
            },
        )
    } else {
        None
    }
}

/// The first of the first `n` chunks that has a fault, if one has.
pub open spec fn first_fault(chunks: Seq<StreamChunk>, n: int) -> Option<Cause>
    decreases n,
{
    if n <= 0 {
        None
    } else {
        match first_fault(chunks, n - 1) {
            Some(c) => Some(c),
            None => chunk_fault(chunks[n - 1]),
        }
    }
}

/// No fault is found exactly where every chunk is complete under its declared checksum.
pub proof fn lemma_first_fault(chunks: Seq<StreamChunk>, n: int)
    requires
        0 <= n <= chunks.len(),
    ensures
        first_fault(chunks, n) is None <==> forall|k: int|
            0 <= k < n ==> (#[trigger] chunks[k]).done == chunks[k].size && chunks[k].digest
                == chunks[k].checksum,
    decreases n,
{
    if n > 0 {
        lemma_first_fault(chunks, n - 1);
    }
}

impl Stream {
    /// Whether the transfer is complete and sound: every chunk has all its
    /// bytes, and their checksum is the one declared. The first chunk of which
    /// that does not hold is reported.
    pub fn check_complete(&self) -> (r: Result<(), Error>)
        ensures
            match first_fault(self@.chunks, self@.chunks.len() as int) {
                Some(c) => r == Err::<(), Error>(Error::Other(c)),
                None => r == Ok::<(), Error>(()),
            },
    {
        let mut k: usize = 0;
        while k < self.chunks.len()
            invariant
                k <= self.chunks@.len(),
                first_fault(self@.chunks, k as int) is None,
            decreases self.chunks@.len() - k,
        {
            let c = self.chunks[k];
            if c.done != c.size {
                proof {
                    lemma_first_fault_stays(self@.chunks, k as int + 1, self@.chunks.len() as int);
                }
                return Err(
                    Error::Other(
                        Cause::WrittenSize {
                            cf_index: c.cf_index,
                            file_index: c.file_index,
                            got: c.done,
                            expected: c.size,
                        },
                    ),
                );
            }
            if c.digest != c.checksum {
                proof {
                    lemma_first_fault_stays(self@.chunks, k as int + 1, self@.chunks.len() as int);
                }
                return Err(
                    Error::Other(
                        Cause::WrittenChecksum {
                            cf_index: c.cf_index,
                            file_index: c.file_index,
                            got: c.digest,
                            expected: c.checksum,
                        },
                    ),
                );
            }
            k += 1;
        }
        Ok(())
    }
}

/// A fault that was found stays the first one.
pub proof fn lemma_first_fault_stays(chunks: Seq<StreamChunk>, k: int, n: int)
    requires
        0 <= k <= n,
        first_fault(chunks, k) is Some,
    ensures
        first_fault(chunks, n) == first_fault(chunks, k),
    decreases n - k,
{
    if k < n {
        lemma_first_fault_stays(chunks, k, n - 1);
    }
}

/// The next unit of a write of `len` bytes of which `start` are written: how
/// many bytes to ask the rate limiter for and to write, and whether that is
/// the last unit.
pub fn next_io_unit(len: usize, start: usize) -> (r: (usize, bool))
    requires
        start <= len,
    ensures
        r.0 == if len - start < IO_LIMITER_CHUNK_SIZE {
            len - start
        } else {
            IO_LIMITER_CHUNK_SIZE as int
        },
        r.1 == (start + r.0 == len),
{
    let acquire: usize = if len - start < IO_LIMITER_CHUNK_SIZE {
        len - start
    } else {
        IO_LIMITER_CHUNK_SIZE
    };
    (acquire, start + acquire == len)
}


/// A stream is complete exactly when all its bytes have arrived.
pub proof fn lemma_complete_when_full(s: StreamView)
    requires
        s.wf(),
    ensures
        s.complete() <==> s.received() == capacity(s.chunks),
        s.received() <= capacity(s.chunks),
        s.complete() ==> forall|k: int|
            0 <= k < s.chunks.len() ==> (#[trigger] s.chunks[k]).done == s.chunks[k].size,
{
    lemma_offset_mono(s.chunks, s.cursor, s.chunks.len() as int);
}

/// Bytes that arrive in pieces are taken in full until the stream is
/// complete: after a write the stream lacks what it lacked before, less the
/// bytes of the piece, and a piece that holds all that the stream lacks
/// completes it.
pub proof fn lemma_write_completes(
    old: StreamView,
    fin: StreamView,
    buf: Seq<u8>,
    written: int,
    segments: Seq<WriteSegment>,
)
    requires
        old.wf(),
        write_post(old, fin, buf, written, segments),
    ensures
        fin.remaining() == old.remaining() - written,
        buf.len() <= old.remaining() ==> written == buf.len(),
        buf.len() >= old.remaining() ==> fin.complete(),
{
    lemma_complete_when_full(old);
    lemma_complete_when_full(fin);
    assert forall|k: int| 0 <= k < old.chunks.len() implies (#[trigger] fin.chunks[k]).size
        == old.chunks[k].size by {
        reveal(written_chunk);
    }
    lemma_offset_same_sizes(fin.chunks, old.chunks, old.chunks.len() as int);
}


/// The bytes of chunk `k` in a buffer that holds the whole stream.
pub open spec fn chunk_bytes(chunks: Seq<StreamChunk>, buf: Seq<u8>, k: int) -> Seq<u8> {
    buf.subrange(offset(chunks, k) as int, offset(chunks, k) + chunks[k].size)
}

/// What was sent is what is received: a stream at its start that takes, in
/// one write, the bytes of all its chunks, each chunk declared with the
/// checksum of its bytes, is complete and sound.
pub proof fn lemma_whole_stream_is_sound(
    old: StreamView,
    fin: StreamView,
    buf: Seq<u8>,
    written: int,
    segments: Seq<WriteSegment>,
)
    requires
        old.wf(),
        old.cursor == 0,
        buf.len() == capacity(old.chunks),
        forall|k: int|
            0 <= k < old.chunks.len() ==> (#[trigger] old.chunks[k]).done == 0
                && old.chunks[k].digest == 0 && old.chunks[k].checksum == crate::checksum::crc32(
                chunk_bytes(old.chunks, buf, k),
            ),
        write_post(old, fin, buf, written, segments),
    ensures
        written == buf.len(),
        fin.complete(),
        first_fault(fin.chunks, fin.chunks.len() as int) is None,
{
    assert(old.received() == 0) by {
        if old.chunks.len() > 0 {
            assert(old.chunks[0].done == 0);
        }
    }
    lemma_write_completes(old, fin, buf, written, segments);
    lemma_complete_when_full(fin);
    let n = old.chunks.len() as int;
    assert forall|k: int| 0 <= k < n implies (#[trigger] fin.chunks[k]).done == fin.chunks[k].size
        && fin.chunks[k].digest == fin.chunks[k].checksum by {
        reveal(written_chunk);
        lemma_offset_mono(old.chunks, k, n);
        lemma_offset_mono(old.chunks, 0, k);
        assert(old.chunks[k].size > 0);
        assert(old.chunks[k].done == 0);
        assert(old.received() == 0);
        assert(fin.chunks[k] == written_chunk(old.chunks, 0, written as nat, buf, k));
        assert(seg_start(old.chunks, k, 0, written as nat) == offset(old.chunks, k));
        assert(seg_end(old.chunks, k, 0, written as nat) == offset(old.chunks, k)
            + old.chunks[k].size);
    }
    lemma_first_fault(fin.chunks, n);
}

} // verus!
