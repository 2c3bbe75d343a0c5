//! One block encrypted under a nonce of its own, and the buffer in which that is done.
use vstd::prelude::*;

use crate::crypto;

verus! {

/// The bytes that are encrypted at a time: 64 KiB.
pub const AES_BLOCK_SIZE: usize = 65536;

/// The tag that encryption appends.
pub const AES_TAG_SIZE: usize = 16;

/// The lowest `width` bytes of an integer, the least significant first.
pub open spec fn le_bytes(n: nat, width: nat) -> Seq<u8>
    decreases width,
{
    if width == 0 {
        seq![]
    } else {
        seq![(n % 256) as u8] + le_bytes(n / 256, (width - 1) as nat)
    }
}

/// The nonce of a block: 8 bytes for the chunk, 4 for the block within it.
pub open spec fn nonce(chunk_id: nat, block_id: nat) -> Seq<u8> {
    le_bytes(chunk_id, 8) + le_bytes(block_id, 4)
}

/// One encryption: what went in and what came out.
#[verifier::ext_equal]
pub struct Seal {
    pub nonce: Seq<u8>,
    pub message: Seq<u8>,
    pub output: Seq<u8>,
}

/// The encryption of one block.
pub open spec fn seal(key: Seq<u8>, chunk_id: nat, block_id: nat, message: Seq<u8>) -> Seal {
    Seal {
        nonce: nonce(chunk_id, block_id),
        message,
        output: crypto::aes256_gcm(key, nonce(chunk_id, block_id), seq![], message),
    }
}

/// Appends the lowest `width` bytes of an integer.
fn push_le_bytes(out: &mut Vec<u8>, n: u64, width: usize)
    ensures
        final(out)@ == old(out)@ + le_bytes(n as nat, width as nat),
{
    let mut rest: u64 = n;
    let mut left: usize = width;
    assert(out@ + le_bytes(n as nat, width as nat) == old(out)@ + le_bytes(n as nat, width as nat));
    while left > 0
        invariant
            out@ + le_bytes(rest as nat, left as nat) == old(out)@ + le_bytes(
                n as nat,
                width as nat,
            ),
        decreases left,
    {
        let ghost before = out@;
        out.push((rest % 256) as u8);
        proof {
            let tail = le_bytes(rest as nat / 256, (left - 1) as nat);
            assert(before + (seq![(rest % 256) as u8] + tail) =~= before.push((rest % 256) as u8)
                + tail);
        }
        rest = rest / 256;
        left = left - 1;
    }
    assert(out@ + seq![] =~= out@);
}

/// The nonce of a block.
pub fn block_nonce(chunk_id: u64, block_id: u32) -> (r: Vec<u8>)
    ensures
        r@ == nonce(chunk_id as nat, block_id as nat),
{
    let mut bytes: Vec<u8> = Vec::new();
    push_le_bytes(&mut bytes, chunk_id, 8);
    push_le_bytes(&mut bytes, block_id as u64, 4);
    assert(seq![] + le_bytes(chunk_id as nat, 8) =~= le_bytes(chunk_id as nat, 8));
    bytes
}

/// The length is the width.
proof fn lemma_le_bytes_len(n: nat, width: nat)
    ensures
        le_bytes(n, width).len() == width,
    decreases width,
{
    if width > 0 {
        lemma_le_bytes_len(n / 256, (width - 1) as nat);
    }
}

/// The buffer in which blocks are encrypted, used over and over.
pub struct EncryptBuffer {
    bytes: Vec<u8>,
    done: Ghost<Seq<Seal>>,
}

impl EncryptBuffer {
    /// What the buffer holds.
    pub closed spec fn bytes(self) -> Seq<u8> {
        self.bytes@
    }

    /// The encryptions made in the buffer so far, the latest last.
    pub closed spec fn done(self) -> Seq<Seal> {
        self.done@
    }

    /// A buffer with room for a block and its tag.
    pub fn new() -> (b: EncryptBuffer)
        ensures
            b.bytes() == Seq::new((AES_BLOCK_SIZE + AES_TAG_SIZE) as nat, |i: int| 0u8),
            b.done() == Seq::<Seal>::empty(),
    {
        let b = EncryptBuffer {
            bytes: vec![0u8; AES_BLOCK_SIZE + AES_TAG_SIZE],
            done: Ghost(Seq::empty()),
        };
        assert(b.bytes@ =~= Seq::new((AES_BLOCK_SIZE + AES_TAG_SIZE) as nat, |i: int| 0u8));
        b
    }

    /// The bytes that the buffer holds.
    pub fn as_slice(&self) -> (s: &[u8])
        ensures
            s@ == self.bytes(),
    {
        self.bytes.as_slice()
    }

    /// Encrypts one block.
    pub fn encrypt_block(&mut self, key: &[u8], chunk_id: u64, block_id: u32, message: &[u8])
        requires
            key@.len() == 32,
            message@.len() <= AES_BLOCK_SIZE,
        ensures
            final(self).done() == old(self).done().push(
                seal(key@, chunk_id as nat, block_id as nat, message@),
            ),
            final(self).bytes() == final(self).done().last().output,
            final(self).bytes().len() == message@.len() + AES_TAG_SIZE,
    {
        self.bytes.clear();
        self.bytes.extend_from_slice(message);
        assert(self.bytes@ =~= message@);
        let at: Vec<u8> = block_nonce(chunk_id, block_id);
        let associated: Vec<u8> = Vec::new();
        proof {
            lemma_le_bytes_len(chunk_id as nat, 8);
            lemma_le_bytes_len(block_id as nat, 4);
            assert(associated@ =~= seq![]);
        }
        let _ = crypto::encrypt_in_place(
            key,
            at.as_slice(),
            associated.as_slice(),
            &mut self.bytes,
        );
        self.done = Ghost(
            self.done@.push(seal(key@, chunk_id as nat, block_id as nat, message@)),
        );
    }
}

/// Numbers that fit the width differ if their bytes do.
proof fn lemma_le_bytes_injective(a: nat, b: nat, width: nat)
    requires
        a < vstd::arithmetic::power::pow(256, width),
        b < vstd::arithmetic::power::pow(256, width),
        le_bytes(a, width) == le_bytes(b, width),
    ensures
        a == b,
    decreases width,
{
    vstd::arithmetic::power::lemma_pow0(256);
    if width > 0 {
        let w = (width - 1) as nat;
        let bound = vstd::arithmetic::power::pow(256, w);
        vstd::arithmetic::power::lemma_pow1(256);
        vstd::arithmetic::power::lemma_pow_adds(256, 1, w);
        assert(a < 256 * bound && b < 256 * bound);
        let (ha, hb) = (seq![(a % 256) as u8], seq![(b % 256) as u8]);
        let (ta, tb) = (le_bytes(a / 256, w), le_bytes(b / 256, w));
        assert(ha + ta == hb + tb);
        assert((ha + ta)[0] == (hb + tb)[0]);
        assert((ha + ta).skip(1) =~= ta);
        assert((hb + tb).skip(1) =~= tb);
        lemma_le_bytes_injective(a / 256, b / 256, w);
        assert(a == a / 256 * 256 + a % 256);
        assert(b == b / 256 * 256 + b % 256);
    }
}

/// No two blocks share a nonce: a nonce gives back the chunk and the block.
pub proof fn lemma_nonce_injective(chunk_a: u64, block_a: u32, chunk_b: u64, block_b: u32)
    requires
        nonce(chunk_a as nat, block_a as nat) == nonce(chunk_b as nat, block_b as nat),
    ensures
        chunk_a == chunk_b,
        block_a == block_b,
{
    let (ca, cb) = (chunk_a as nat, chunk_b as nat);
    let (ba, bb) = (block_a as nat, block_b as nat);
    lemma_le_bytes_len(ca, 8);
    lemma_le_bytes_len(cb, 8);
    assert(nonce(ca, ba).take(8) =~= le_bytes(ca, 8));
    assert(nonce(cb, bb).take(8) =~= le_bytes(cb, 8));
    assert(nonce(ca, ba).skip(8) =~= le_bytes(ba, 4));
    assert(nonce(cb, bb).skip(8) =~= le_bytes(bb, 4));
    reveal(vstd::arithmetic::power::pow);
    assert(vstd::arithmetic::power::pow(256, 4) == 0x1_0000_0000) by {
        reveal_with_fuel(vstd::arithmetic::power::pow, 5);
    }
    assert(vstd::arithmetic::power::pow(256, 8) == 0x1_0000_0000_0000_0000) by {
        vstd::arithmetic::power::lemma_pow_adds(256, 4, 4);
    }
    lemma_le_bytes_injective(ca, cb, 8);
    lemma_le_bytes_injective(ba, bb, 4);
}

/// `256^k`.
pub open spec fn pow256(k: nat) -> nat
    decreases k,
{
    if k == 0 {
        1
    } else {
        256 * pow256((k - 1) as nat)
    }
}

proof fn lemma_le_byte(n: nat, width: nat, j: int)
    requires
        0 <= j < width,
    ensures
        le_bytes(n, width).len() == width,
        le_bytes(n, width)[j] == n / pow256(j as nat) % 256,
    decreases width,
{
    lemma_le_bytes_len(n, width);
    lemma_le_bytes_len(n / 256, (width - 1) as nat);
    if j == 0 {
        assert(n / 1 == n);
    } else {
        lemma_le_byte(n / 256, (width - 1) as nat, j - 1);
        lemma_pow256_positive((j - 1) as nat);
        vstd::arithmetic::div_mod::lemma_div_denominator(
            n as int,
            256,
            pow256((j - 1) as nat) as int,
        );
    }
}

proof fn lemma_pow256_positive(k: nat)
    ensures
        pow256(k) > 0,
    decreases k,
{
    if k > 0 {
        lemma_pow256_positive((k - 1) as nat);
    }
}

/// A nonce is the number of the chunk in 8 bytes and that of the block in 4, the least significant
/// byte first.
pub proof fn lemma_nonce_bytes(chunk_id: nat, block_id: nat)
    ensures
        nonce(chunk_id, block_id).len() == 12,
        forall|j: int|
            0 <= j < 8 ==> #[trigger] nonce(chunk_id, block_id)[j] == chunk_id / pow256(j as nat)
                % 256,
        forall|j: int|
            8 <= j < 12 ==> #[trigger] nonce(chunk_id, block_id)[j] == block_id / pow256(
                (j - 8) as nat,
            ) % 256,
{
    let whole = nonce(chunk_id, block_id);
    lemma_le_bytes_len(chunk_id, 8);
    lemma_le_bytes_len(block_id, 4);
    assert forall|j: int| 0 <= j < 8 implies #[trigger] whole[j] == chunk_id / pow256(j as nat)
        % 256 by {
        lemma_le_byte(chunk_id, 8, j);
    }
    assert forall|j: int| 8 <= j < 12 implies #[trigger] whole[j] == block_id / pow256(
        (j - 8) as nat,
    ) % 256 by {
        lemma_le_byte(block_id, 4, j - 8);
    }
}

} // verus!
