//! What becomes of an upload: the body is cut into chunks, which are hashed as one message and
//! encrypted one by one.
use sha2::Sha512;
use vstd::prelude::*;

use crate::blocks;
use crate::blocks::EncryptBuffer;
use crate::config::MIB;
use crate::crypto;
use crate::crypto::Generator;
use crate::rounding;
use crate::sealing;
use crate::source;

verus! {

/// How many pieces of the body may wait for the worker.
pub const READ_AHEAD_CHUNKS: usize = 4;

/// How many results of the worker may wait to be added up.
pub const WRITE_BACK_CHUNKS: usize = 4;

/// What the worker reports of a chunk.
#[derive(Debug, Clone, Copy, PartialEq, Eq, Structural)]
pub struct CryptoResult {
    pub bytes_processed: usize,
}

/// What the server answers to an upload.
#[derive(Debug, PartialEq, Eq)]
pub struct UploadResponse {
    pub bytes_received: u64,
    pub sha512_hex: String,
    pub chunks_processed: u64,
}

/// A chunk of that many MiB can be held and its blocks numbered.
pub open spec fn chunk_size_fits(chunk_size_mib: u64) -> bool {
    chunk_size_mib * MIB <= blocks::MAX_CHUNK_BYTES && chunk_size_mib * MIB <= isize::MAX
}

/// The chunk size in bytes; none if chunks of that size cannot be handled.
pub fn chunk_size_bytes(chunk_size_mib: u64) -> (r: Option<usize>)
    ensures
        r is Some <==> chunk_size_fits(chunk_size_mib),
        r matches Some(size) ==> size == chunk_size_mib * MIB,
{
    if chunk_size_mib <= blocks::MAX_CHUNK_BYTES / MIB && chunk_size_mib * MIB
        <= isize::MAX as u64 {
        Some((chunk_size_mib * MIB) as usize)
    } else {
        None
    }
}

/// How far an upload has come.
#[verifier::ext_equal]
pub struct Progress {
    pub key: Seq<u8>,
    pub chunk_size: nat,
    /// The chunks that have been processed.
    pub chunks: Seq<Seq<u8>>,
    /// What has been received and not processed.
    pub pending: Seq<u8>,
}

impl Progress {
    /// All that has been received.
    pub open spec fn received(self) -> Seq<u8> {
        self.chunks.flatten() + self.pending
    }

    /// After more of the body has come in.
    pub open spec fn with_received(self, data: Seq<u8>) -> Progress {
        Progress { pending: self.pending + data, ..self }
    }

    /// After the first `len` pending bytes have been processed as a chunk.
    pub open spec fn with_chunk(self, len: int) -> Progress {
        Progress {
            chunks: self.chunks.push(self.pending.take(len)),
            pending: self.pending.skip(len),
            ..self
        }
    }

    /// After all the full chunks have been processed.
    pub open spec fn drained(self) -> Progress
        decreases self.pending.len(),
    {
        if self.chunk_size == 0 || self.pending.len() < self.chunk_size {
            self
        } else {
            self.with_chunk(self.chunk_size as int).drained()
        }
    }

    /// After the end of the body: what is left over is a chunk of its own.
    pub open spec fn ended(self) -> Progress {
        if self.pending.len() == 0 {
            self
        } else {
            self.with_chunk(self.pending.len() as int)
        }
    }

    /// After the pieces of a body have come in, each followed by the processing of the chunks that
    /// it completes.
    pub open spec fn fed(self, pieces: Seq<Seq<u8>>) -> Progress
        decreases pieces.len(),
    {
        if pieces.len() == 0 {
            self
        } else {
            self.fed(pieces.drop_last()).with_received(pieces.last()).drained()
        }
    }
}

/// An upload under way.
pub struct UploadPipeline {
    hasher: Sha512,
    rng: Generator,
    key: Vec<u8>,
    chunk_size: usize,
    buffer: Vec<u8>,
    encrypt_buf: EncryptBuffer,
    chunks_processed: u64,
    chunks: Ghost<Seq<Seq<u8>>>,
}

impl View for UploadPipeline {
    type V = Progress;

    closed spec fn view(&self) -> Progress {
        Progress {
            key: self.key@,
            chunk_size: self.chunk_size as nat,
            chunks: self.chunks@,
            pending: self.buffer@,
        }
    }
}

/// The encryptions that a sequence of chunks gives rise to.
pub open spec fn all_seals(key: Seq<u8>, chunks: Seq<Seq<u8>>) -> Seq<sealing::Seal>
    decreases chunks.len(),
{
    if chunks.len() == 0 {
        seq![]
    } else {
        all_seals(key, chunks.drop_last()) + blocks::chunk_seals(
            key,
            chunks.last(),
            (chunks.len() - 1) as nat,
        )
    }
}

impl UploadPipeline {
    /// The encryptions made so far.
    pub closed spec fn seals(self) -> Seq<sealing::Seal> {
        self.encrypt_buf.done()
    }

    /// All the bytes that the generator has given.
    pub closed spec fn drawn(self) -> Seq<u8> {
        self.rng.given()
    }

    /// The key is the generator's, and the chunks have been hashed, encrypted and counted.
    pub closed spec fn valid(self) -> bool {
        &&& self.key@.len() == 32
        &&& self.rng.given() == self.key@
        &&& self.chunk_size <= blocks::MAX_CHUNK_BYTES
        &&& crypto::absorbed(self.hasher) == self.chunks@.flatten()
        &&& self.encrypt_buf.done() == all_seals(self.key@, self.chunks@)
        &&& self.chunks_processed == self.chunks@.len()
    }

    /// An upload of which nothing has been received, under a random key.
    pub fn new(chunk_size: usize) -> (p: UploadPipeline)
        requires
            chunk_size <= blocks::MAX_CHUNK_BYTES,
            chunk_size <= isize::MAX,
        ensures
            p.valid(),
            p@.key.len() == 32,
            p.drawn() == p@.key,
            p@.chunk_size == chunk_size,
            p@.chunks == Seq::<Seq<u8>>::empty(),
            p@.pending == Seq::<u8>::empty(),
            p.seals() == Seq::<sealing::Seal>::empty(),
    {
        let mut rng = crypto::seeded_generator();
        let mut key: Vec<u8> = vec![0u8; 32];
        crypto::fill_random(&mut rng, &mut key);
        let p = UploadPipeline {
            hasher: crypto::new_hasher(),
            rng,
            key,
            chunk_size,
            buffer: Vec::with_capacity(chunk_size),
            encrypt_buf: EncryptBuffer::new(),
            chunks_processed: 0,
            chunks: Ghost(Seq::empty()),
        };
        assert(p.chunks@.flatten() =~= seq![]);
        assert(p.rng.given() =~= p.key@);
        p
    }

    /// Takes in more of the body.
    pub fn receive(&mut self, data: &[u8])
        requires
            old(self).valid(),
        ensures
            final(self).valid(),
            final(self)@ == old(self)@.with_received(data@),
            final(self).seals() == old(self).seals(),
    {
        self.buffer.extend_from_slice(data);
        assert(self@ =~= old(self)@.with_received(data@));
    }

    /// Hashes and encrypts a chunk.
    fn process(&mut self, chunk: &Vec<u8>) -> (r: CryptoResult)
        requires
            old(self).valid(),
            chunk@.len() <= blocks::MAX_CHUNK_BYTES,
            old(self)@.chunks.len() < u64::MAX,
        ensures
            final(self).valid(),
            final(self)@ == (Progress { chunks: old(self)@.chunks.push(chunk@), ..old(self)@ }),
            final(self).seals() == old(self).seals() + blocks::chunk_seals(
                old(self)@.key,
                chunk@,
                old(self)@.chunks.len(),
            ),
            r.bytes_processed == chunk@.len(),
    {
        crypto::absorb(&mut self.hasher, chunk.as_slice());
        blocks::encrypt_chunk_in_blocks(
            self.key.as_slice(),
            chunk.as_slice(),
            self.chunks_processed,
            &mut self.encrypt_buf,
        );
        self.chunks_processed = self.chunks_processed + 1;
        proof {
            let before = self.chunks@;
            before.lemma_flatten_push(chunk@);
            assert(before.push(chunk@).drop_last() =~= before);
        }
        self.chunks = Ghost(self.chunks@.push(chunk@));
        CryptoResult { bytes_processed: chunk.len() }
    }

    /// Processes the next full chunk; none if less than a chunk is pending.
    pub fn next_chunk(&mut self) -> (r: Option<CryptoResult>)
        requires
            old(self).valid(),
            old(self)@.pending.len() >= old(self)@.chunk_size ==> old(self)@.chunks.len()
                < u64::MAX,
        ensures
            final(self).valid(),
            r is Some <==> old(self)@.pending.len() >= old(self)@.chunk_size,
            match r {
                Some(result) => {
                    &&& result.bytes_processed == old(self)@.chunk_size
                    &&& final(self)@ == old(self)@.with_chunk(old(self)@.chunk_size as int)
                    &&& final(self).seals() == old(self).seals() + blocks::chunk_seals(
                        old(self)@.key,
                        old(self)@.pending.take(old(self)@.chunk_size as int),
                        old(self)@.chunks.len(),
                    )
                },
                None => final(self)@ == old(self)@ && final(self).seals() == old(self).seals(),
            },
    {
        if self.buffer.len() < self.chunk_size {
            return None;
        }
        let mut chunk: Vec<u8> = self.buffer.split_off(self.chunk_size);
        core::mem::swap(&mut self.buffer, &mut chunk);
        proof {
            assert(chunk@ =~= old(self)@.pending.take(old(self)@.chunk_size as int));
            assert(self.buffer@ =~= old(self)@.pending.skip(old(self)@.chunk_size as int));
        }
        Some(self.process(&chunk))
    }

    /// Processes what is left over at the end of the body; none if nothing is.
    pub fn last_chunk(&mut self) -> (r: Option<CryptoResult>)
        requires
            old(self).valid(),
            old(self)@.pending.len() <= blocks::MAX_CHUNK_BYTES,
            old(self)@.pending.len() > 0 ==> old(self)@.chunks.len() < u64::MAX,
        ensures
            final(self).valid(),
            final(self)@ == old(self)@.ended(),
            r is Some <==> old(self)@.pending.len() > 0,
            match r {
                Some(result) => {
                    &&& result.bytes_processed == old(self)@.pending.len()
                    &&& final(self).seals() == old(self).seals() + blocks::chunk_seals(
                        old(self)@.key,
                        old(self)@.pending,
                        old(self)@.chunks.len(),
                    )
                },
                None => final(self).seals() == old(self).seals(),
            },
    {
        if self.buffer.len() == 0 {
            return None;
        }
        let mut chunk: Vec<u8> = Vec::new();
        core::mem::swap(&mut self.buffer, &mut chunk);
        proof {
            let pending = old(self)@.pending;
            assert(pending.take(pending.len() as int) =~= pending);
            assert(pending.skip(pending.len() as int) =~= seq![]);
        }
        let r = self.process(&chunk);
        assert(self@ =~= old(self)@.ended());
        Some(r)
    }

    /// The answer to the upload: the bytes that were added up, the digest of the chunks in
    /// hexadecimal, and the number of chunks.
    pub fn finish(self, bytes_received: u64) -> (r: UploadResponse)
        requires
            self.valid(),
        ensures
            r.bytes_received == bytes_received,
            r.sha512_hex@ == crypto::hex(crypto::sha512(self@.chunks.flatten())),
            r.sha512_hex@.len() == 128,
            r.chunks_processed == self@.chunks.len(),
    {
        let digest: Vec<u8> = crypto::finish_hash(self.hasher);
        UploadResponse {
            bytes_received,
            sha512_hex: crypto::encode_hex(digest.as_slice()),
            chunks_processed: self.chunks_processed,
        }
    }

    /// The key that is used is 32 bytes of the generator, and all that the generator has given.
    proof fn lemma_key_is_drawn(self)
        requires
            self.valid(),
        ensures
            self@.key == self.key@,
            self.rng.given() == self.key@,
            self.key@.len() == 32,
    {
    }

    /// The encryptions made are those of the chunks processed.
    pub proof fn lemma_seals(self)
        requires
            self.valid(),
        ensures
            self.seals() == all_seals(self@.key, self@.chunks),
    {
    }
}

/// Adds up what the worker reports.
pub fn add_result(total_bytes: u64, result: &CryptoResult) -> (total: u64)
    requires
        total_bytes + result.bytes_processed <= u64::MAX,
    ensures
        total == total_bytes + result.bytes_processed,
{
    total_bytes + result.bytes_processed as u64
}

/// A body cut into chunks: all of them full, but for what is left over at the end.
pub open spec fn cut(body: Seq<u8>, chunk_size: nat) -> Seq<Seq<u8>>
    decreases body.len(),
{
    if chunk_size == 0 || body.len() == 0 {
        seq![]
    } else if body.len() <= chunk_size {
        seq![body]
    } else {
        seq![body.take(chunk_size as int)] + cut(body.skip(chunk_size as int), chunk_size)
    }
}

/// All the chunks are full.
pub open spec fn all_full(chunks: Seq<Seq<u8>>, chunk_size: nat) -> bool {
    forall|i: int| 0 <= i < chunks.len() ==> (#[trigger] chunks[i]).len() == chunk_size
}

impl Progress {
    /// All the chunks are full, and less than a chunk is pending.
    pub open spec fn at_rest(self) -> bool {
        &&& all_full(self.chunks, self.chunk_size)
        &&& self.pending.len() < self.chunk_size
    }
}

/// The response answers the upload of a body in chunks of that size.
pub open spec fn answers(r: UploadResponse, body: Seq<u8>, chunk_size: nat) -> bool {
    &&& r.bytes_received == body.len()
    &&& r.sha512_hex@ == crypto::hex(crypto::sha512(body))
    &&& r.chunks_processed == (body.len() + chunk_size - 1) / (chunk_size as int)
}

/// The chunks of a body make up the body. There are as many as the body goes into, a part counting
/// as one; all but the last are full, and none is empty or more than full.
pub proof fn lemma_cut(body: Seq<u8>, chunk_size: nat)
    requires
        chunk_size > 0,
    ensures
        cut(body, chunk_size).flatten() == body,
        cut(body, chunk_size).len() == (body.len() + chunk_size - 1) / (chunk_size as int),
        forall|i: int|
            0 <= i < cut(body, chunk_size).len() - 1 ==> (#[trigger] cut(
                body,
                chunk_size,
            )[i]).len() == chunk_size,
        forall|i: int|
            0 <= i < cut(body, chunk_size).len() ==> 0 < (#[trigger] cut(
                body,
                chunk_size,
            )[i]).len() <= chunk_size,
    decreases body.len(),
{
    let n = chunk_size as int;
    let chunks = cut(body, chunk_size);
    if body.len() == 0 {
        assert(chunks.flatten() =~= body);
        vstd::arithmetic::div_mod::lemma_basic_div(n - 1, n);
    } else if body.len() <= n {
        chunks.lemma_flatten_one_element();
        assert((body.len() + n - 1) / n == 1) by (nonlinear_arith)
            requires
                0 < body.len() <= n,
        ;
    } else {
        let tail = cut(body.skip(n), chunk_size);
        lemma_cut(body.skip(n), chunk_size);
        assert(chunks.drop_first() =~= tail);
        assert(body.take(n) + body.skip(n) =~= body);
        vstd::arithmetic::div_mod::lemma_div_plus_one(body.len() - 1, n);
        assert(n + (body.len() - n + n - 1) == body.len() + n - 1);
    }
}

/// Full chunks at the front of a body are cut off first.
proof fn lemma_cut_after_full(chunks: Seq<Seq<u8>>, rest: Seq<u8>, chunk_size: nat)
    requires
        chunk_size > 0,
        all_full(chunks, chunk_size),
    ensures
        cut(chunks.flatten() + rest, chunk_size) == chunks + cut(rest, chunk_size),
    decreases chunks.len(),
{
    if chunks.len() == 0 {
        assert(chunks.flatten() + rest =~= rest);
        assert(chunks + cut(rest, chunk_size) =~= cut(rest, chunk_size));
    } else {
        let n = chunk_size as int;
        let first = chunks.first();
        let others = chunks.drop_first();
        let body = chunks.flatten() + rest;
        lemma_cut_after_full(others, rest, chunk_size);
        assert(first == chunks[0]);
        assert(body =~= first + (others.flatten() + rest));
        assert(body.take(n) =~= first);
        assert(body.skip(n) =~= others.flatten() + rest);
        assert(chunks =~= seq![first] + others);
        if body.len() <= n {
            assert((others.flatten() + rest).len() == 0);
            assert(body =~= first);
        }
        assert(cut(body, chunk_size) =~= seq![first] + cut(others.flatten() + rest, chunk_size));
        assert(chunks + cut(rest, chunk_size) =~= seq![first] + (others + cut(rest, chunk_size)));
    }
}

impl Progress {
    proof fn lemma_with_chunk(self, len: int)
        requires
            0 <= len <= self.pending.len(),
        ensures
            self.with_chunk(len).received() == self.received(),
    {
        self.chunks.lemma_flatten_push(self.pending.take(len));
        assert(self.pending.take(len) + self.pending.skip(len) =~= self.pending);
        assert(self.with_chunk(len).received() =~= self.received());
    }

    /// Processing the full chunks loses nothing of what was received, and leaves less than a chunk.
    pub proof fn lemma_drained(self)
        requires
            self.chunk_size > 0,
            all_full(self.chunks, self.chunk_size),
        ensures
            self.drained().received() == self.received(),
            self.drained().pending.len() < self.chunk_size,
            all_full(self.drained().chunks, self.chunk_size),
            self.drained().chunk_size == self.chunk_size,
            self.drained().key == self.key,
        decreases self.pending.len(),
    {
        if self.pending.len() >= self.chunk_size {
            self.lemma_with_chunk(self.chunk_size as int);
            self.with_chunk(self.chunk_size as int).lemma_drained();
        }
    }

    proof fn lemma_fed(self, pieces: Seq<Seq<u8>>)
        requires
            self.at_rest(),
        ensures
            self.fed(pieces).received() == self.received() + pieces.flatten(),
            self.fed(pieces).at_rest(),
            self.fed(pieces).chunk_size == self.chunk_size,
            self.fed(pieces).key == self.key,
        decreases pieces.len(),
    {
        if pieces.len() == 0 {
            assert(self.received() + pieces.flatten() =~= self.received());
        } else {
            let before = self.fed(pieces.drop_last());
            self.lemma_fed(pieces.drop_last());
            let more = before.with_received(pieces.last());
            more.lemma_drained();
            assert(more.received() =~= before.received() + pieces.last());
            pieces.drop_last().lemma_flatten_push(pieces.last());
            assert(pieces.drop_last().push(pieces.last()) =~= pieces);
            assert(more.received() =~= self.received() + pieces.flatten());
        }
    }
}

/// In whatever pieces the rest of a body comes in, the chunks processed in the end are the body,
/// cut.
pub proof fn lemma_upload(start: Progress, pieces: Seq<Seq<u8>>)
    requires
        start.at_rest(),
    ensures
        start.fed(pieces).ended() == (Progress {
            chunks: cut(start.received() + pieces.flatten(), start.chunk_size),
            pending: seq![],
            ..start
        }),
{
    let fed = start.fed(pieces);
    let body = start.received() + pieces.flatten();
    start.lemma_fed(pieces);
    lemma_cut_after_full(fed.chunks, fed.pending, start.chunk_size);
    if fed.pending.len() > 0 {
        assert(fed.pending.take(fed.pending.len() as int) =~= fed.pending);
        assert(fed.chunks + seq![fed.pending] =~= fed.chunks.push(fed.pending));
    } else {
        assert(fed.chunks + Seq::<Seq<u8>>::empty() =~= fed.chunks);
    }
    assert(fed.ended() =~= (Progress {
        chunks: cut(body, start.chunk_size),
        pending: seq![],
        ..start
    }));
}

/// What is reported of an upload, whatever its pieces and its key, answers the body as a whole.
pub proof fn lemma_upload_answered(start: Progress, pieces: Seq<Seq<u8>>, r: UploadResponse)
    requires
        start.chunk_size > 0,
        start.chunks.len() == 0,
        start.pending.len() == 0,
        r.bytes_received == start.fed(pieces).ended().chunks.flatten().len(),
        r.sha512_hex@ == crypto::hex(
            crypto::sha512(start.fed(pieces).ended().chunks.flatten()),
        ),
        r.chunks_processed == start.fed(pieces).ended().chunks.len(),
    ensures
        answers(r, pieces.flatten(), start.chunk_size),
{
    lemma_upload(start, pieces);
    assert(start.received() + pieces.flatten() =~= pieces.flatten());
    lemma_cut(pieces.flatten(), start.chunk_size);
}

/// The same bytes, in whatever pieces they come and in whatever chunks they are processed, have
/// the same digest and length. Larger chunks are no more of them, and chunks of the same size as
/// many.
pub proof fn lemma_framing_irrelevant(
    a: Seq<Seq<u8>>,
    size_a: nat,
    r_a: UploadResponse,
    b: Seq<Seq<u8>>,
    size_b: nat,
    r_b: UploadResponse,
)
    requires
        a.flatten() == b.flatten(),
        0 < size_a <= size_b,
        answers(r_a, a.flatten(), size_a),
        answers(r_b, b.flatten(), size_b),
    ensures
        r_a.sha512_hex@ == r_b.sha512_hex@,
        r_a.bytes_received == r_b.bytes_received,
        r_a.chunks_processed >= r_b.chunks_processed,
        size_a == size_b ==> r_a.chunks_processed == r_b.chunks_processed,
{
    let len = a.flatten().len();
    let k = r_a.chunks_processed as nat;
    rounding::lemma_rounded_up(len, size_a, k);
    assert(k * size_a <= k * size_b) by (nonlinear_arith)
        requires
            size_a <= size_b,
    ;
    rounding::lemma_rounded_up(len, size_b, k);
}

/// The bytes of full chunks.
proof fn lemma_full_length(chunks: Seq<Seq<u8>>, chunk_size: nat)
    requires
        all_full(chunks, chunk_size),
    ensures
        chunks.flatten().len() == chunks.len() * chunk_size,
    decreases chunks.len(),
{
    if chunks.len() > 0 {
        lemma_full_length(chunks.drop_first(), chunk_size);
        assert(chunks.len() * chunk_size == chunk_size + (chunks.len() - 1) * chunk_size)
            by (nonlinear_arith);
    } else {
        assert(0 * chunk_size == 0) by (nonlinear_arith);
    }
}

/// The bytes of the pieces of a body.
pub open spec fn contents(pieces: Seq<Vec<u8>>) -> Seq<Seq<u8>> {
    pieces.map_values(|piece: Vec<u8>| piece@)
}

/// Processes the full chunks that are pending, and adds them up.
fn drain(pipeline: &mut UploadPipeline, total_bytes: u64) -> (total: u64)
    requires
        old(pipeline).valid(),
        old(pipeline)@.chunk_size > 0,
        all_full(old(pipeline)@.chunks, old(pipeline)@.chunk_size),
        old(pipeline)@.received().len() <= u64::MAX,
        total_bytes <= old(pipeline)@.chunks.flatten().len(),
    ensures
        final(pipeline).valid(),
        final(pipeline)@ == old(pipeline)@.drained(),
        total - total_bytes == final(pipeline)@.chunks.flatten().len()
            - old(pipeline)@.chunks.flatten().len(),
{
    let mut total: u64 = total_bytes;
    let mut more: bool = true;
    while more
        invariant
            pipeline.valid(),
            pipeline@.chunk_size > 0,
            all_full(pipeline@.chunks, pipeline@.chunk_size),
            pipeline@.received().len() <= u64::MAX,
            pipeline@.drained() == old(pipeline)@.drained(),
            total_bytes <= old(pipeline)@.chunks.flatten().len(),
            total - total_bytes == pipeline@.chunks.flatten().len()
                - old(pipeline)@.chunks.flatten().len(),
            !more ==> pipeline@.pending.len() < pipeline@.chunk_size,
        decreases pipeline@.pending.len(), more as int,
    {
        let ghost before = pipeline@;
        proof {
            let n = before.chunk_size as int;
            lemma_full_length(before.chunks, before.chunk_size);
            assert(before.chunks.len() <= before.chunks.len() * n) by (nonlinear_arith)
                requires
                    n >= 1,
            ;
            if before.pending.len() >= n {
                before.lemma_with_chunk(n);
                before.chunks.lemma_flatten_push(before.pending.take(n));
            }
        }
        match pipeline.next_chunk() {
            Some(result) => {
                total = add_result(total, &result);
            },
            None => {
                more = false;
            },
        }
    }
    total
}

/// Takes in the rest of a body, piece by piece, processes all of it, and adds up what it processes.
pub fn receive_rest(pipeline: &mut UploadPipeline, pieces: &Vec<Vec<u8>>) -> (total: u64)
    requires
        old(pipeline).valid(),
        old(pipeline)@.at_rest(),
        old(pipeline)@.received().len() + contents(pieces@).flatten().len() <= u64::MAX,
    ensures
        final(pipeline).valid(),
        final(pipeline)@ == old(pipeline)@.fed(contents(pieces@)).ended(),
        final(pipeline)@.chunks == cut(
            old(pipeline)@.received() + contents(pieces@).flatten(),
            old(pipeline)@.chunk_size,
        ),
        final(pipeline).seals() == all_seals(
            old(pipeline)@.key,
            cut(
                old(pipeline)@.received() + contents(pieces@).flatten(),
                old(pipeline)@.chunk_size,
            ),
        ),
        total == old(pipeline)@.pending.len() + contents(pieces@).flatten().len(),
{
    let mut total: u64 = 0;
    let mut i: usize = 0;
    let ghost start = pipeline@;
    let ghost all = contents(pieces@);
    while i < pieces.len()
        invariant
            i <= pieces@.len(),
            all == contents(pieces@),
            start.at_rest(),
            start.received().len() + all.flatten().len() <= u64::MAX,
            pipeline.valid(),
            pipeline@ == start.fed(all.take(i as int)),
            total == pipeline@.chunks.flatten().len() - start.chunks.flatten().len(),
        decreases pieces@.len() - i,
    {
        proof {
            let seen = all.take(i as int);
            let next = all.take(i + 1);
            start.lemma_fed(seen);
            assert(next.drop_last() =~= seen);
            assert(next.last() == pieces@[i as int]@);
            seen.lemma_flatten_push(next.last());
            assert(seen.push(next.last()) =~= next);
            vstd::seq_lib::lemma_flatten_concat(next, all.skip(i + 1));
            assert(next + all.skip(i + 1) =~= all);
            let more = start.fed(seen).with_received(next.last());
            assert(more.received() =~= start.fed(seen).received() + next.last());
        }
        pipeline.receive(pieces[i].as_slice());
        total = drain(pipeline, total);
        i = i + 1;
    }
    let ghost left = pipeline@;
    proof {
        assert(all.take(i as int) =~= all);
        start.lemma_fed(all);
        lemma_upload(start, all);
        lemma_full_length(left.chunks, left.chunk_size);
        assert(left.chunks.len() <= left.chunks.len() * left.chunk_size) by (nonlinear_arith)
            requires
                left.chunk_size >= 1,
        ;
        if left.pending.len() > 0 {
            left.lemma_with_chunk(left.pending.len() as int);
        }
    }
    match pipeline.last_chunk() {
        Some(result) => {
            total = add_result(total, &result);
        },
        None => {},
    }
    proof {
        pipeline.lemma_seals();
    }
    total
}

/// Processes a body that comes in pieces, as a whole.
pub fn process_body(chunk_size: usize, pieces: &Vec<Vec<u8>>) -> (r: UploadResponse)
    requires
        0 < chunk_size <= blocks::MAX_CHUNK_BYTES,
        chunk_size <= isize::MAX,
        contents(pieces@).flatten().len() <= u64::MAX,
    ensures
        answers(r, contents(pieces@).flatten(), chunk_size as nat),
        r.sha512_hex@.len() == 128,
{
    let mut pipeline: UploadPipeline = UploadPipeline::new(chunk_size);
    let ghost body = contents(pieces@).flatten();
    proof {
        assert(pipeline@.chunks.flatten() =~= seq![]);
        assert(pipeline@.received() =~= seq![]);
        assert(pipeline@.received() + body =~= body);
        lemma_cut(body, chunk_size as nat);
    }
    let total: u64 = receive_rest(&mut pipeline, pieces);
    pipeline.finish(total)
}

/// The lengths that the worker reports add up to what it processed.
pub proof fn lemma_reported_total(chunks: Seq<Seq<u8>>)
    ensures
        source::total_length(chunks.map_values(|c: Seq<u8>| c.len())) == chunks.flatten().len(),
    decreases chunks.len(),
{
    let lengths = chunks.map_values(|c: Seq<u8>| c.len());
    if chunks.len() > 0 {
        lemma_reported_total(chunks.drop_first());
        assert(lengths.drop_first() =~= chunks.drop_first().map_values(|c: Seq<u8>| c.len()));
    }
}

/// Every encryption is AES-256-GCM under the upload's key, without associated data, of at least one
/// byte and at most 64 KiB.
pub proof fn lemma_seals_are_aes(key: Seq<u8>, chunks: Seq<Seq<u8>>, i: int)
    requires
        0 <= i < all_seals(key, chunks).len(),
    ensures
        ({
            let s = all_seals(key, chunks)[i];
            &&& s.output == crypto::aes256_gcm(key, s.nonce, Seq::empty(), s.message)
            &&& s.nonce.len() == 12
            &&& 0 < s.message.len() <= 65536
        }),
    decreases chunks.len(),
{
    let earlier = all_seals(key, chunks.drop_last());
    if i < earlier.len() {
        lemma_seals_are_aes(key, chunks.drop_last(), i);
    } else {
        let last = (chunks.len() - 1) as nat;
        blocks::lemma_chunk_seals(key, chunks.last(), last, i - earlier.len());
    }
}

/// What was encrypted is what was processed, byte for byte.
pub proof fn lemma_all_encrypted(key: Seq<u8>, chunks: Seq<Seq<u8>>)
    ensures
        all_seals(key, chunks).map_values(|s: sealing::Seal| s.message).flatten()
            == chunks.flatten(),
    decreases chunks.len(),
{
    let message = |s: sealing::Seal| s.message;
    let messages = all_seals(key, chunks).map_values(message);
    if chunks.len() == 0 {
        assert(messages.flatten() =~= chunks.flatten());
    } else {
        let earlier = all_seals(key, chunks.drop_last());
        let last = chunks.last();
        let latest = blocks::chunk_seals(key, last, (chunks.len() - 1) as nat);
        lemma_all_encrypted(key, chunks.drop_last());
        assert(messages =~= earlier.map_values(message) + latest.map_values(message));
        assert(latest.map_values(message) =~= Seq::new(
            blocks::block_count(last.len()),
            |i: int| blocks::block(last, i),
        ));
        blocks::lemma_blocks_cover(last);
        vstd::seq_lib::lemma_flatten_concat(
            earlier.map_values(message),
            latest.map_values(message),
        );
        chunks.drop_last().lemma_flatten_push(last);
        assert(chunks.drop_last().push(last) =~= chunks);
    }
}

/// The nonce of an encryption is that of a block of a chunk.
proof fn lemma_seal_origin(key: Seq<u8>, chunks: Seq<Seq<u8>>, i: int) -> (origin: (nat, nat))
    requires
        0 <= i < all_seals(key, chunks).len(),
    ensures
        origin.0 < chunks.len(),
        origin.1 < blocks::block_count(chunks[origin.0 as int].len()),
        all_seals(key, chunks)[i].nonce == sealing::nonce(origin.0, origin.1),
    decreases chunks.len(),
{
    let earlier = all_seals(key, chunks.drop_last());
    if i < earlier.len() {
        lemma_seal_origin(key, chunks.drop_last(), i)
    } else {
        ((chunks.len() - 1) as nat, (i - earlier.len()) as nat)
    }
}

/// No two encryptions under a key share a nonce.
pub proof fn lemma_nonces_differ(key: Seq<u8>, chunks: Seq<Seq<u8>>, i: int, j: int)
    requires
        chunks.len() <= u64::MAX,
        forall|c: int|
            0 <= c < chunks.len() ==> (#[trigger] chunks[c]).len() <= blocks::MAX_CHUNK_BYTES,
        0 <= i < j < all_seals(key, chunks).len(),
    ensures
        all_seals(key, chunks)[i].nonce != all_seals(key, chunks)[j].nonce,
    decreases chunks.len(),
{
    let earlier = all_seals(key, chunks.drop_last());
    if j < earlier.len() {
        assert forall|c: int| 0 <= c < chunks.drop_last().len() implies (
        #[trigger] chunks.drop_last()[c]).len() <= blocks::MAX_CHUNK_BYTES by {
            assert(chunks.drop_last()[c] == chunks[c]);
        }
        lemma_nonces_differ(key, chunks.drop_last(), i, j);
    } else {
        let last = (chunks.len() - 1) as nat;
        let b = (j - earlier.len()) as nat;
        assert(all_seals(key, chunks)[j].nonce == sealing::nonce(last, b));
        assert(b < blocks::block_count(chunks[last as int].len()));
        if all_seals(key, chunks)[i].nonce == all_seals(key, chunks)[j].nonce {
            if i < earlier.len() {
                let c = lemma_seal_origin(key, chunks.drop_last(), i);
                assert(c.1 < blocks::block_count(chunks[c.0 as int].len()));
                sealing::lemma_nonce_injective(c.0 as u64, c.1 as u32, last as u64, b as u32);
            } else {
                let d = (i - earlier.len()) as nat;
                assert(all_seals(key, chunks)[i].nonce == sealing::nonce(last, d));
                sealing::lemma_nonce_injective(last as u64, d as u32, last as u64, b as u32);
            }
        }
    }
}

} // verus!
