//! The chunked framing spoken between the distributor and each backend node.
//!
//! A message is written in blocks of `CHUNK_SIZE` bytes, the last one possibly
//! shorter. The reader accumulates blocks until one is shorter than
//! `CHUNK_SIZE` (a zero-byte read, when the peer closes, counts as shorter).
use vstd::prelude::*;

verus! {

/// Size of one block on the wire, for writes and for reads.
pub const CHUNK_SIZE: usize = 1024;

/// The blocks that a writer sends for `data` once it has sent everything
/// before offset `start`.
pub open spec fn chunks_from(data: Seq<u8>, start: int) -> Seq<Seq<u8>>
    decreases data.len() - start,
{
    if start < 0 || start >= data.len() {
        Seq::empty()
    } else {
        let end = if start + CHUNK_SIZE < data.len() { start + CHUNK_SIZE } else { data.len() as int };
        seq![data.subrange(start, end)] + chunks_from(data, end)
    }
}

/// The blocks that a writer sends for the whole of `data`.
pub open spec fn chunks_of(data: Seq<u8>) -> Seq<Seq<u8>> {
    chunks_from(data, 0)
}

/// All blocks joined in order.
pub open spec fn flatten(blocks: Seq<Seq<u8>>) -> Seq<u8>
    decreases blocks.len(),
{
    if blocks.len() == 0 {
        Seq::empty()
    } else {
        blocks[0] + flatten(blocks.skip(1))
    }
}

/// A block that ends a message: shorter than a full chunk.
pub open spec fn is_final_read(block: Seq<u8>) -> bool {
    block.len() < CHUNK_SIZE
}

/// The reads make up exactly one message: every read but the last is a full
/// chunk, and the last one is short.
pub open spec fn is_complete_message(reads: Seq<Seq<u8>>) -> bool {
    &&& reads.len() > 0
    &&& is_final_read(reads.last())
    &&& forall|i: int| 0 <= i < reads.len() - 1 ==> #[trigger] reads[i].len() == CHUNK_SIZE
}

/// What a reader sees when a writer sends `data` and then closes: the blocks
/// as written, followed by a zero-byte read where the last block was full
/// (or where there was none).
pub open spec fn wire_reads(data: Seq<u8>) -> Seq<Seq<u8>> {
    if data.len() % (CHUNK_SIZE as nat) == 0 {
        chunks_of(data).push(Seq::empty())
    } else {
        chunks_of(data)
    }
}

/// The byte range of the block to write next, once `sent` bytes of a
/// message of `len` bytes are written; `None` once all are.
pub fn next_chunk(len: usize, sent: usize) -> (r: Option<(usize, usize)>)
    requires
        sent <= len,
    ensures
        r is None <==> sent == len,
        r matches Some((start, end)) ==> {
            &&& start == sent
            &&& end == if sent + CHUNK_SIZE < len { sent + CHUNK_SIZE } else { len as int }
        },
{
    if sent == len {
        None
    } else if len - sent > CHUNK_SIZE {
        Some((sent, sent + CHUNK_SIZE))
    } else {
        Some((sent, len))
    }
}

/// Adds one read to the bytes received so far, and tells whether it ends the
/// message (a short or zero-byte read).
pub fn append_read(buffer: &mut Vec<u8>, block: &[u8]) -> (done: bool)
    ensures
        final(buffer)@ == old(buffer)@ + block@,
        done == is_final_read(block@),
{
    let mut i: usize = 0;
    while i < block.len()
        invariant
            i <= block@.len(),
            buffer@ == old(buffer)@ + block@.subrange(0, i as int),
        decreases block@.len() - i,
    {
        buffer.push(block[i]);
        i = i + 1;
        assert(block@.subrange(0, i as int) =~= block@.subrange(0, i - 1) + seq![block@[i - 1]]);
    }
    assert(block@.subrange(0, i as int) =~= block@);
    block.len() < CHUNK_SIZE
}

proof fn lemma_flatten_cons(head: Seq<u8>, rest: Seq<Seq<u8>>)
    ensures
        flatten(seq![head] + rest) == head + flatten(rest),
{
    assert((seq![head] + rest).skip(1) =~= rest);
}

proof fn lemma_flatten_push(blocks: Seq<Seq<u8>>, block: Seq<u8>)
    ensures
        flatten(blocks.push(block)) == flatten(blocks) + block,
    decreases blocks.len(),
{
    if blocks.len() == 0 {
        assert(blocks.push(block) =~= seq![block] + Seq::<Seq<u8>>::empty());
        lemma_flatten_cons(block, Seq::empty());
        assert(block + Seq::<u8>::empty() =~= block);
    } else {
        assert(blocks.push(block).skip(1) =~= blocks.skip(1).push(block));
        lemma_flatten_push(blocks.skip(1), block);
        assert(blocks[0] + (flatten(blocks.skip(1)) + block) =~= (blocks[0] + flatten(blocks.skip(1)))
            + block);
    }
}

/// The blocks written from `start` on rebuild the rest of the data; all but
/// the last are full, and the last is full exactly when the remaining length
/// is a multiple of the chunk size.
proof fn lemma_chunks_from(data: Seq<u8>, start: int)
    requires
        0 <= start <= data.len(),
    ensures
        flatten(chunks_from(data, start)) == data.subrange(start, data.len() as int),
        start < data.len() ==> chunks_from(data, start).len() > 0,
        start < data.len() ==> (chunks_from(data, start).last().len() == CHUNK_SIZE <==> (data.len()
            - start) % (CHUNK_SIZE as int) == 0),
        forall|i: int|
            0 <= i < chunks_from(data, start).len() ==> #[trigger] chunks_from(data, start)[i].len()
                <= CHUNK_SIZE,
        forall|i: int|
            0 <= i < chunks_from(data, start).len() - 1 ==> #[trigger] chunks_from(
                data,
                start,
            )[i].len() == CHUNK_SIZE,
    decreases data.len() - start,
{
    if start < data.len() {
        let end = if start + CHUNK_SIZE < data.len() { start + CHUNK_SIZE } else { data.len() as int };
        lemma_chunks_from(data, end);
        let head = data.subrange(start, end);
        let rest = chunks_from(data, end);
        lemma_flatten_cons(head, rest);
        assert(head + data.subrange(end, data.len() as int) =~= data.subrange(start, data.len() as int));
        assert(chunks_from(data, start) == seq![head] + rest);
        if end == data.len() {
            assert(rest.len() == 0);
        } else {
            assert((data.len() - start) % 1024 == (data.len() - end) % 1024);
        }
    } else {
        assert(data.subrange(start, data.len() as int) =~= Seq::<u8>::empty());
    }
}

/// Sending `data` in chunks and reading until a short read gives back exactly
/// `data`: the reads that reach the reader form one complete message, no read
/// exceeds a chunk, and joined they are the data.
pub proof fn lemma_framing_round_trip(data: Seq<u8>)
    ensures
        is_complete_message(wire_reads(data)),
        flatten(wire_reads(data)) == data,
        flatten(chunks_of(data)) == data,
        forall|i: int|
            0 <= i < wire_reads(data).len() ==> #[trigger] wire_reads(data)[i].len() <= CHUNK_SIZE,
{
    lemma_chunks_from(data, 0);
    assert(data.subrange(0, data.len() as int) =~= data);
    let chunks = chunks_of(data);
    if data.len() % (CHUNK_SIZE as nat) == 0 {
        lemma_flatten_push(chunks, Seq::empty());
        assert(data + Seq::<u8>::empty() =~= data);
        let reads = wire_reads(data);
        assert forall|i: int| 0 <= i < reads.len() - 1 implies #[trigger] reads[i].len() == CHUNK_SIZE by {
            assert(reads[i] == chunks[i]);
            if i == chunks.len() - 1 {
                assert(chunks.last().len() == CHUNK_SIZE);
            }
        }
        assert forall|i: int| 0 <= i < reads.len() implies #[trigger] reads[i].len() <= CHUNK_SIZE by {
            if i < chunks.len() {
                assert(reads[i] == chunks[i]);
            }
        }
    } else {
        assert(data.len() > 0);
    }
}

} // verus!
