//! The random bytes of a transfer, one chunk at a time.
use vstd::prelude::*;

use crate::config::MIB;
use crate::crypto;
use crate::crypto::Generator;

verus! {

/// The least of two integers.
pub open spec fn least(a: nat, b: nat) -> nat {
    if a <= b {
        a
    } else {
        b
    }
}

/// The lengths of the chunks that a file of `size` bytes is sent in: all of them `chunk` bytes, but
/// for what is left over at the end.
pub open spec fn chunk_lengths(size: nat, chunk: nat) -> Seq<nat>
    recommends
        chunk > 0,
    decreases size,
{
    if size == 0 || chunk == 0 {
        seq![]
    } else {
        seq![least(size, chunk)] + chunk_lengths((size - least(size, chunk)) as nat, chunk)
    }
}

/// The sum of lengths.
pub open spec fn total_length(lengths: Seq<nat>) -> nat
    decreases lengths.len(),
{
    if lengths.len() == 0 {
        0
    } else {
        lengths[0] + total_length(lengths.drop_first())
    }
}

/// The sizes in bytes are 64-bit integers, and a chunk can be held.
pub open spec fn transfer_fits(file_size_mib: u64, chunk_size_mib: u64) -> bool {
    &&& file_size_mib * MIB <= u64::MAX
    &&& chunk_size_mib * MIB <= u64::MAX
    &&& least((file_size_mib * MIB) as nat, (chunk_size_mib * MIB) as nat) <= isize::MAX
}

/// Random bytes that are handed out in chunks, each made when it is asked for.
pub struct ChunkSource {
    rng: Generator,
    remaining: u64,
    chunk_size: u64,
}

impl ChunkSource {
    /// The number of bytes still to be handed out.
    pub closed spec fn left(self) -> nat {
        self.remaining as nat
    }

    /// The size of a chunk.
    pub closed spec fn chunk(self) -> nat {
        self.chunk_size as nat
    }

    /// All the bytes that the generator has given.
    pub closed spec fn drawn(self) -> Seq<u8> {
        self.rng.given()
    }

    /// A chunk can be held.
    pub closed spec fn valid(self) -> bool {
        least(self.remaining as nat, self.chunk_size as nat) <= isize::MAX
    }

    /// A source of a file of random bytes; none if the sizes in bytes, or a chunk, are beyond what
    /// can be held.
    pub fn new(file_size_mib: u64, chunk_size_mib: u64) -> (r: Option<ChunkSource>)
        ensures
            r is Some <==> transfer_fits(file_size_mib, chunk_size_mib),
            r matches Some(s) ==> {
                &&& s.valid()
                &&& s.left() == file_size_mib * MIB
                &&& s.chunk() == chunk_size_mib * MIB
                &&& s.drawn() == Seq::<u8>::empty()
            },
    {
        let longest: u64 = u64::MAX / MIB;
        if file_size_mib > longest || chunk_size_mib > longest {
            return None;
        }
        let file_size: u64 = file_size_mib * MIB;
        let chunk_size: u64 = chunk_size_mib * MIB;
        if file_size > isize::MAX as u64 && chunk_size > isize::MAX as u64 {
            return None;
        }
        Some(ChunkSource { rng: crypto::seeded_generator(), remaining: file_size, chunk_size })
    }

    /// The next chunk; none once all the bytes have been handed out.
    pub fn next_chunk(&mut self) -> (r: Option<Vec<u8>>)
        requires
            old(self).valid(),
        ensures
            final(self).valid(),
            r is None <==> old(self).left() == 0,
            r matches Some(buf) ==> buf@.len() == least(old(self).left(), old(self).chunk()),
            final(self).left() == old(self).left() - least(old(self).left(), old(self).chunk()),
            final(self).chunk() == old(self).chunk(),
            final(self).drawn() == (match r {
                Some(buf) => old(self).drawn() + buf@,
                None => old(self).drawn(),
            }),
            r matches Some(buf) ==> old(self).chunk() > 0 ==> chunk_lengths(
                old(self).left(),
                old(self).chunk(),
            ) == seq![buf@.len()] + chunk_lengths(final(self).left(), final(self).chunk()),
    {
        if self.remaining == 0 {
            return None;
        }
        let this_chunk: u64 = if self.remaining <= self.chunk_size {
            self.remaining
        } else {
            self.chunk_size
        };
        let mut buf: Vec<u8> = vec![0u8; this_chunk as usize];
        crypto::fill_random(&mut self.rng, &mut buf);
        self.remaining = self.remaining - this_chunk;
        Some(buf)
    }
}

/// The chunks of a file make up the file.
pub proof fn lemma_chunks_cover(size: nat, chunk: nat)
    requires
        chunk > 0,
    ensures
        total_length(chunk_lengths(size, chunk)) == size,
    decreases size,
{
    if size > 0 {
        let first = least(size, chunk);
        let rest = chunk_lengths((size - first) as nat, chunk);
        lemma_chunks_cover((size - first) as nat, chunk);
        assert((seq![first] + rest).drop_first() =~= rest);
    }
}

/// There are as many chunks as the size goes into, a part counting as one; all but the last are
/// full, and none is empty or more than full.
pub proof fn lemma_chunk_count(size: nat, chunk: nat)
    requires
        chunk > 0,
    ensures
        chunk_lengths(size, chunk).len() == (size + chunk - 1) / (chunk as int),
        forall|i: int|
            0 <= i < chunk_lengths(size, chunk).len() ==> 0 < #[trigger] chunk_lengths(
                size,
                chunk,
            )[i] <= chunk,
        forall|i: int|
            0 <= i < chunk_lengths(size, chunk).len() - 1 ==> #[trigger] chunk_lengths(
                size,
                chunk,
            )[i] == chunk,
    decreases size,
{
    let c = chunk as int;
    if size == 0 {
        vstd::arithmetic::div_mod::lemma_basic_div(c - 1, c);
    } else if size <= chunk {
        assert(chunk_lengths(0, chunk) =~= seq![]);
        assert((size + c - 1) / c == 1) by (nonlinear_arith)
            requires
                0 < size <= c,
        ;
    } else {
        let left = (size - chunk) as nat;
        lemma_chunk_count(left, chunk);
        vstd::arithmetic::div_mod::lemma_div_plus_one(left + c - 1, c);
        assert(c + (left + c - 1) == size + c - 1);
    }
}

/// Every byte of a chunk is the generator's, and the generator gives no byte that is not in it.
proof fn lemma_chunk_is_drawn(source: &mut ChunkSource, r: Option<Vec<u8>>)
    requires
        call_ensures(ChunkSource::next_chunk, (source,), r),
    ensures
        r matches Some(buf) ==> final(source).rng.given() == old(source).rng.given() + buf@,
        r is None ==> final(source).rng.given() == old(source).rng.given(),
        r matches Some(buf) ==> buf@.len() == (if old(source).remaining <= old(source).chunk_size {
            old(source).remaining
        } else {
            old(source).chunk_size
        }),
        r is None <==> old(source).remaining == 0,
        r matches Some(buf) ==> final(source).remaining + buf@.len() == old(source).remaining,
{
}

/// A source starts with the whole file to hand out, in chunks of the size asked for, and with a
/// generator that has given nothing.
proof fn lemma_source_starts(file_size_mib: u64, chunk_size_mib: u64, r: Option<ChunkSource>)
    requires
        call_ensures(ChunkSource::new, (file_size_mib, chunk_size_mib), r),
    ensures
        r matches Some(s) ==> {
            &&& s.remaining == file_size_mib * 1_048_576
            &&& s.chunk_size == chunk_size_mib * 1_048_576
            &&& s.rng.given() == Seq::<u8>::empty()
        },
        r is Some <==> {
            &&& file_size_mib * 1_048_576 <= u64::MAX
            &&& chunk_size_mib * 1_048_576 <= u64::MAX
            &&& file_size_mib * 1_048_576 <= isize::MAX || chunk_size_mib * 1_048_576 <= isize::MAX
        },
{
}

/// The chunks of a transfer, joined, are all that the generator gave, and as long as the file.
pub proof fn lemma_transfer(states: Seq<ChunkSource>, chunks: Seq<Seq<u8>>)
    requires
        states.len() == chunks.len() + 1,
        states[0].drawn() == Seq::<u8>::empty(),
        forall|i: int|
            0 <= i < chunks.len() ==> #[trigger] states[i + 1].drawn() == states[i].drawn()
                + chunks[i],
        forall|i: int|
            0 <= i < chunks.len() ==> #[trigger] states[i + 1].left() + chunks[i].len()
                == states[i].left(),
        states.last().left() == 0,
    ensures
        chunks.flatten() == states.last().drawn(),
        chunks.flatten().len() == states[0].left(),
{
    lemma_so_far(states, chunks, chunks.len() as int);
    assert(chunks.take(chunks.len() as int) =~= chunks);
}

proof fn lemma_so_far(states: Seq<ChunkSource>, chunks: Seq<Seq<u8>>, n: int)
    requires
        0 <= n <= chunks.len(),
        states.len() == chunks.len() + 1,
        states[0].drawn() == Seq::<u8>::empty(),
        forall|i: int|
            0 <= i < chunks.len() ==> #[trigger] states[i + 1].drawn() == states[i].drawn()
                + chunks[i],
        forall|i: int|
            0 <= i < chunks.len() ==> #[trigger] states[i + 1].left() + chunks[i].len()
                == states[i].left(),
    ensures
        chunks.take(n).flatten() == states[n].drawn(),
        chunks.take(n).flatten().len() + states[n].left() == states[0].left(),
    decreases n,
{
    if n == 0 {
        assert(chunks.take(0).flatten() =~= seq![]);
    } else {
        lemma_so_far(states, chunks, n - 1);
        assert(chunks.take(n) =~= chunks.take(n - 1).push(chunks[n - 1]));
        chunks.take(n - 1).lemma_flatten_push(chunks[n - 1]);
        assert(states[n - 1 + 1].drawn() == states[n - 1].drawn() + chunks[n - 1]);
        assert(states[n - 1 + 1].left() + chunks[n - 1].len() == states[n - 1].left());
    }
}

} // verus!
