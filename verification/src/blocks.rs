//! Chunks encrypted in blocks, each under a nonce of its own.
use vstd::prelude::*;

use crate::crypto;
use crate::sealing;

pub use crate::sealing::{block_nonce, EncryptBuffer, AES_BLOCK_SIZE, AES_TAG_SIZE};

verus! {

/// The most bytes of a chunk whose blocks 32 bits can number, and count.
pub const MAX_CHUNK_BYTES: u64 = 0xffff_ffff * 65536;

/// The number of blocks of a chunk.
pub open spec fn block_count(len: nat) -> nat {
    (len + AES_BLOCK_SIZE - 1) as nat / AES_BLOCK_SIZE as nat
}

/// Where a block ends.
pub open spec fn block_end(len: nat, block_id: int) -> int {
    if (block_id + 1) * AES_BLOCK_SIZE <= len {
        (block_id + 1) * AES_BLOCK_SIZE
    } else {
        len as int
    }
}

/// A block of a chunk: 64 KiB, or what is left.
pub open spec fn block(data: Seq<u8>, block_id: int) -> Seq<u8> {
    data.subrange(block_id * AES_BLOCK_SIZE, block_end(data.len(), block_id))
}

/// The encryptions that a chunk gives rise to.
pub open spec fn chunk_seals(key: Seq<u8>, data: Seq<u8>, chunk_id: nat) -> Seq<sealing::Seal> {
    Seq::new(
        block_count(data.len()),
        |i: int| sealing::seal(key, chunk_id, i as nat, block(data, i)),
    )
}

/// Encrypts a chunk, block after block, in one buffer.
pub fn encrypt_chunk_in_blocks(key: &[u8], data: &[u8], chunk_id: u64, buf: &mut EncryptBuffer)
    requires
        key@.len() == 32,
        data@.len() <= MAX_CHUNK_BYTES,
    ensures
        final(buf).done() == old(buf).done() + chunk_seals(key@, data@, chunk_id as nat),
        final(buf).bytes() == (if data@.len() == 0 {
            old(buf).bytes()
        } else {
            final(buf).done().last().output
        }),
        data@.len() > 0 ==> final(buf).bytes().len() == (data@.len() - 1) % (AES_BLOCK_SIZE as int)
            + 1 + AES_TAG_SIZE,
{
    let mut offset: usize = 0;
    let mut block_id: u32 = 0;
    let ghost seals = chunk_seals(key@, data@, chunk_id as nat);
    assert(buf.done() + seals.take(0) =~= buf.done());
    while offset < data.len()
        invariant
            key@.len() == 32,
            data@.len() <= MAX_CHUNK_BYTES,
            seals == chunk_seals(key@, data@, chunk_id as nat),
            offset <= data@.len(),
            offset < data@.len() ==> offset == block_id * AES_BLOCK_SIZE,
            offset == data@.len() ==> block_id == seals.len(),
            block_id <= seals.len(),
            buf.done() == old(buf).done() + seals.take(block_id as int),
            buf.bytes() == (if block_id == 0 {
                old(buf).bytes()
            } else {
                buf.done().last().output
            }),
            block_id > 0 ==> buf.bytes().len() == block(data@, block_id - 1).len() + AES_TAG_SIZE,
        decreases data@.len() - offset,
    {
        let end: usize = if data.len() - offset <= AES_BLOCK_SIZE {
            data.len()
        } else {
            offset + AES_BLOCK_SIZE
        };
        buf.encrypt_block(key, chunk_id, block_id, &data[offset..end]);
        proof {
            assert(data@.subrange(offset as int, end as int) == block(data@, block_id as int));
            assert(block_id < seals.len());
            assert(seals.take(block_id + 1) =~= seals.take(block_id as int).push(
                seals[block_id as int],
            ));
        }
        offset = end;
        block_id = block_id + 1;
    }
    assert(seals.take(seals.len() as int) =~= seals);
}

/// The blocks of a chunk up to some block, one after the other.
proof fn lemma_leading_blocks(data: Seq<u8>, k: nat)
    requires
        k <= block_count(data.len()),
    ensures
        Seq::new(k, |i: int| block(data, i)).flatten() == data.take(
            if k == block_count(data.len()) {
                data.len() as int
            } else {
                k * AES_BLOCK_SIZE
            },
        ),
    decreases k,
{
    let blocks = Seq::new(k, |i: int| block(data, i));
    if k == 0 {
        assert(blocks.flatten() =~= data.take(0));
    } else {
        let before = Seq::new((k - 1) as nat, |i: int| block(data, i));
        lemma_leading_blocks(data, (k - 1) as nat);
        assert(blocks =~= before.push(block(data, k - 1)));
        before.lemma_flatten_push(block(data, k - 1));
        let end = block_end(data.len(), k - 1);
        assert(data.take((k - 1) * AES_BLOCK_SIZE) + block(data, k - 1) =~= data.take(end));
    }
}

/// The blocks of a chunk make up the chunk.
pub proof fn lemma_blocks_cover(data: Seq<u8>)
    ensures
        Seq::new(block_count(data.len()), |i: int| block(data, i)).flatten() == data,
{
    lemma_leading_blocks(data, block_count(data.len()));
    assert(data.take(data.len() as int) =~= data);
}

/// No block is empty, and none is longer than a block may be.
pub proof fn lemma_block_length(data: Seq<u8>, i: int)
    requires
        0 <= i < block_count(data.len()),
    ensures
        0 < block(data, i).len() <= AES_BLOCK_SIZE,
        i < block_count(data.len()) - 1 ==> block(data, i).len() == AES_BLOCK_SIZE,
{
}

/// The `i`-th encryption of a chunk is AES-256-GCM of the `i`-th 64 KiB of it, or of what is left,
/// without associated data. Its nonce is the number of the chunk in 8 bytes and `i` in 4, the least
/// significant byte first.
pub proof fn lemma_chunk_seals(key: Seq<u8>, data: Seq<u8>, chunk_id: nat, i: int)
    requires
        0 <= i < chunk_seals(key, data, chunk_id).len(),
    ensures
        ({
            let s = chunk_seals(key, data, chunk_id)[i];
            let end = if 65536 * (i + 1) <= data.len() {
                65536 * (i + 1)
            } else {
                data.len() as int
            };
            &&& s.message == data.subrange(65536 * i, end)
            &&& 0 < s.message.len() <= 65536
            &&& s.output == crypto::aes256_gcm(key, s.nonce, Seq::empty(), s.message)
            &&& s.nonce.len() == 12
            &&& forall|j: int|
                0 <= j < 8 ==> #[trigger] s.nonce[j] == chunk_id / sealing::pow256(j as nat) % 256
            &&& forall|j: int|
                8 <= j < 12 ==> #[trigger] s.nonce[j] == i as nat / sealing::pow256((j - 8) as nat) % 256
        }),
        65536 * (chunk_seals(key, data, chunk_id).len() - 1) < data.len(),
        data.len() <= 65536 * chunk_seals(key, data, chunk_id).len(),
{
    lemma_block_length(data, i);
    sealing::lemma_nonce_bytes(chunk_id, i as nat);
}

} // verus!
