//! Append-only arena of input chunks, addressed by compact handles.
use vstd::prelude::*;

verus! {

/// A handle to a contiguous byte range inside one chunk of the arena.
///
/// Handles compare by identity (chunk, start, end), not by the bytes they name.
#[derive(Debug, Clone, Copy, PartialEq, Eq, Structural)]
pub struct ChunkSlice {
    /// Index of the chunk in the arena.
    pub chunk_idx: u32,
    /// Start offset within the chunk.
    pub start: u32,
    /// End offset within the chunk (exclusive).
    pub end: u32,
}

impl ChunkSlice {
    /// Create a handle from its three coordinates.
    pub fn new(chunk_idx: u32, start: u32, end: u32) -> (r: ChunkSlice)
        ensures
            r.chunk_idx == chunk_idx,
            r.start == start,
            r.end == end,
    {
        ChunkSlice { chunk_idx, start, end }
    }

    /// Length of the named range in bytes.
    pub fn len(&self) -> (r: usize)
        requires
            self.start <= self.end,
        ensures
            r == self.end - self.start,
    {
        (self.end - self.start) as usize
    }

    /// Whether the named range is empty.
    pub fn is_empty(&self) -> (r: bool)
        ensures
            r == (self.start == self.end),
    {
        self.start == self.end
    }
}

/// Sum of the lengths of a sequence of byte strings.
pub open spec fn total_len(chunks: Seq<Seq<u8>>) -> nat
    decreases chunks.len(),
{
    if chunks.len() == 0 {
        0
    } else {
        total_len(chunks.drop_last()) + chunks.last().len()
    }
}

/// One owned chunk of input together with its offset in the whole stream.
#[derive(Debug)]
pub struct Chunk {
    data: Vec<u8>,
    stream_offset: u64,
}

impl Chunk {
    /// The bytes held by the chunk.
    pub closed spec fn bytes(&self) -> Seq<u8> {
        self.data@
    }

    /// Where the chunk's first byte stands in the input stream.
    pub closed spec fn offset(&self) -> nat {
        self.stream_offset as nat
    }

    /// Take ownership of `data` as a chunk that starts at `stream_offset`.
    pub fn new(data: Vec<u8>, stream_offset: u64) -> (r: Chunk)
        ensures
            r.bytes() == data@,
            r.offset() == stream_offset,
    {
        Chunk { data, stream_offset }
    }

    /// The bytes from `start` up to (not including) `end`.
    pub fn slice(&self, start: u32, end: u32) -> (r: &[u8])
        requires
            start <= end <= self.bytes().len(),
        ensures
            r@ == self.bytes().subrange(start as int, end as int),
    {
        &self.data.as_slice()[start as usize..end as usize]
    }

    /// All bytes of the chunk.
    pub fn data(&self) -> (r: &[u8])
        ensures
            r@ == self.bytes(),
    {
        self.data.as_slice()
    }

    /// Offset of the chunk's first byte in the input stream.
    pub fn stream_offset(&self) -> (r: u64)
        ensures
            r == self.offset(),
    {
        self.stream_offset
    }
}

/// Owner of all input chunks of one parse.
///
/// Chunks are only ever appended, so a handle stays valid until `clear`.
#[derive(Debug)]
pub struct ChunkArena {
    chunks: Vec<Chunk>,
    total_bytes: u64,
    min_referenced: usize,
}

impl View for ChunkArena {
    type V = Seq<Seq<u8>>;

    /// The contents of the chunks, in the order they were appended.
    closed spec fn view(&self) -> Seq<Seq<u8>> {
        self.chunks@.map_values(|c: Chunk| c.bytes())
    }
}

impl ChunkArena {
    /// Stream offset of chunk `i`: the total length of the chunks before it.
    pub open spec fn offset_of(&self, i: int) -> nat {
        total_len(self@.take(i))
    }

    /// Chunk `i` as the arena holds it.
    pub closed spec fn chunk(&self, i: int) -> Chunk {
        self.chunks@[i]
    }

    /// Lowest chunk index that unconsumed events may still refer to.
    pub closed spec fn min_referenced_chunk(&self) -> nat {
        self.min_referenced as nat
    }

    /// Total number of bytes appended so far.
    pub closed spec fn total(&self) -> nat {
        self.total_bytes as nat
    }

    /// Each chunk's offset is the length of what came before it, and the
    /// running total is the length of everything.
    pub closed spec fn wf(&self) -> bool {
        &&& self.total_bytes == total_len(self@)
        &&& forall|i: int|
            0 <= i < self.chunks@.len() ==> #[trigger] self.chunks@[i].offset() == total_len(
                self@.take(i),
            )
    }

    /// Whether `s` names a byte range that lies inside one of the chunks.
    pub open spec fn valid_slice(&self, s: ChunkSlice) -> bool {
        &&& s.chunk_idx < self@.len()
        &&& s.start <= s.end <= self@[s.chunk_idx as int].len()
    }

    /// The bytes that a valid handle names.
    pub open spec fn resolved(&self, s: ChunkSlice) -> Seq<u8> {
        self@[s.chunk_idx as int].subrange(s.start as int, s.end as int)
    }

    /// The running total of a well-formed arena is the length of its chunks.
    pub proof fn lemma_total(&self)
        requires
            self.wf(),
        ensures
            self.total() == total_len(self@),
    {
    }

    /// An arena that holds no chunk.
    pub fn new() -> (r: ChunkArena)
        ensures
            r.wf(),
            r@ == Seq::<Seq<u8>>::empty(),
            r.total() == 0,
            r.min_referenced_chunk() == 0,
    {
        let r = ChunkArena { chunks: Vec::with_capacity(16), total_bytes: 0, min_referenced: 0 };
        assert(r@ =~= Seq::<Seq<u8>>::empty());
        r
    }

    /// Append `data` as a new chunk and return its index.
    pub fn push(&mut self, data: Vec<u8>) -> (idx: u32)
        requires
            old(self).wf(),
            old(self)@.len() < u32::MAX,
            old(self).total() + data@.len() <= u64::MAX,
        ensures
            final(self).wf(),
            idx == old(self)@.len(),
            final(self)@ == old(self)@.push(data@),
            final(self).total() == old(self).total() + data@.len(),
            final(self).chunk(idx as int).offset() == old(self).total(),
            final(self).min_referenced_chunk() == old(self).min_referenced_chunk(),
    {
        let idx = self.chunks.len() as u32;
        let offset = self.total_bytes;
        let ghost old_view = self@;
        let ghost added = data@;
        self.total_bytes = self.total_bytes + data.len() as u64;
        self.chunks.push(Chunk::new(data, offset));
        proof {
            assert(self@ =~= old_view.push(added));
            assert(self@.drop_last() =~= old_view);
            assert forall|i: int| 0 <= i < self.chunks@.len() implies #[trigger] self.chunks@[
                i
            ].offset() == total_len(self@.take(i)) by {
                if i < old_view.len() {
                    assert(self@.take(i) =~= old_view.take(i));
                } else {
                    assert(self@.take(i) =~= old_view);
                }
            }
        }
        idx
    }

    /// The chunk at `idx`, if there is one.
    pub fn get(&self, idx: u32) -> (r: Option<&Chunk>)
        requires
            self.wf(),
        ensures
            r.is_some() == (idx < self@.len()),
            r.is_some() ==> r.unwrap().bytes() == self@[idx as int],
            r.is_some() ==> r.unwrap().offset() == self.offset_of(idx as int),
    {
        if (idx as usize) < self.chunks.len() {
            let c = &self.chunks[idx as usize];
            assert(c.bytes() == self@[idx as int]);
            Some(c)
        } else {
            None
        }
    }

    /// The bytes that `slice` names, or `None` where it points outside the arena.
    pub fn resolve(&self, slice: ChunkSlice) -> (r: Option<&[u8]>)
        ensures
            r.is_some() == self.valid_slice(slice),
            r.is_some() ==> r.unwrap()@ == self.resolved(slice),
    {
        if (slice.chunk_idx as usize) < self.chunks.len() {
            let chunk = &self.chunks[slice.chunk_idx as usize];
            assert(chunk.bytes() == self@[slice.chunk_idx as int]);
            if slice.start <= slice.end && (slice.end as usize) <= chunk.data.len() {
                Some(chunk.slice(slice.start, slice.end))
            } else {
                None
            }
        } else {
            None
        }
    }

    /// Record that no unconsumed event refers to a chunk below `min_chunk`.
    pub fn advance_consumed(&mut self, min_chunk: usize)
        ensures
            final(self)@ == old(self)@,
            final(self).total() == old(self).total(),
            final(self).wf() == old(self).wf(),
            final(self).min_referenced_chunk() == if min_chunk > old(self).min_referenced_chunk() {
                min_chunk as nat
            } else {
                old(self).min_referenced_chunk()
            },
    {
        if min_chunk > self.min_referenced {
            self.min_referenced = min_chunk;
        }
    }

    /// Number of chunks held.
    pub fn len(&self) -> (r: usize)
        ensures
            r == self@.len(),
    {
        self.chunks.len()
    }

    /// Whether the arena holds no chunk.
    pub fn is_empty(&self) -> (r: bool)
        ensures
            r == (self@.len() == 0),
    {
        self.chunks.len() == 0
    }

    /// Total number of bytes appended since creation or the last `clear`.
    pub fn total_bytes(&self) -> (r: u64)
        ensures
            r == self.total(),
    {
        self.total_bytes
    }

    /// Drop every chunk and reset the counters; allocated capacity is kept.
    pub fn clear(&mut self)
        ensures
            final(self).wf(),
            final(self)@ == Seq::<Seq<u8>>::empty(),
            final(self).total() == 0,
            final(self).min_referenced_chunk() == 0,
    {
        self.chunks.clear();
        self.total_bytes = 0;
        self.min_referenced = 0;
        assert(self@ =~= Seq::<Seq<u8>>::empty());
    }
}

impl Default for ChunkArena {
    fn default() -> (r: ChunkArena)
        ensures
            r.wf(),
            r@ == Seq::<Seq<u8>>::empty(),
            r.total() == 0,
    {
        ChunkArena::new()
    }
}

} // verus!
