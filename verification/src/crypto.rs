//! Hashing, encryption and random bytes, as the `sha2`, `hex`, `aes-gcm` and `rand` crates do them.
use aes_gcm::{AeadInPlace, Aes256Gcm, KeyInit, Nonce};
use rand::rngs::StdRng;
use rand::{RngCore, SeedableRng};
use sha2::{Digest, Sha512};
use vstd::prelude::*;

verus! {

/// A SHA-512 computation under way.
#[verifier::external_type_specification]
#[verifier::external_body]
pub struct ExSha512(sha2::Sha512);

/// A generator of random bytes.
#[verifier::external_type_specification]
#[verifier::external_body]
pub struct ExStdRng(rand::rngs::StdRng);

/// A generator of random bytes, with all that it has given so far.
pub struct Generator {
    rng: StdRng,
    given: Ghost<Seq<u8>>,
}

impl Generator {
    /// The bytes that the generator has given, the latest last.
    pub closed spec fn given(self) -> Seq<u8> {
        self.given@
    }
}

/// The bytes that a SHA-512 computation has been given.
pub uninterp spec fn absorbed(h: Sha512) -> Seq<u8>;

/// The SHA-512 digest of a message.
pub uninterp spec fn sha512(message: Seq<u8>) -> Seq<u8>;

/// AES-256-GCM: the ciphertext of a message, followed by the authentication tag.
pub uninterp spec fn aes256_gcm(
    key: Seq<u8>,
    nonce: Seq<u8>,
    associated: Seq<u8>,
    message: Seq<u8>,
) -> Seq<u8>;

/// A lower-case hexadecimal digit.
pub open spec fn hex_digit(d: nat) -> char {
    if d < 10 {
        (48 + d) as char
    } else {
        (87 + d) as char
    }
}

/// Bytes in lower-case hexadecimal, two digits each.
pub open spec fn hex(bytes: Seq<u8>) -> Seq<char> {
    Seq::new(
        2 * bytes.len(),
        |i: int|
            hex_digit(
                if i % 2 == 0 {
                    bytes[i / 2] as nat / 16
                } else {
                    bytes[i / 2] as nat % 16
                },
            ),
    )
}

/// Starts a SHA-512 computation.
///
/// `sha2::Digest::new` gives a hasher that has processed nothing.
#[verifier::external_body]
pub(crate) fn new_hasher() -> (h: Sha512)
    ensures
        absorbed(h) == Seq::<u8>::empty(),
{
    Sha512::new()
}

/// Gives more of the message to a SHA-512 computation.
///
/// `sha2::Digest::update` processes the data after what was processed before.
#[verifier::external_body]
pub(crate) fn absorb(h: &mut Sha512, data: &[u8])
    ensures
        absorbed(*final(h)) == absorbed(*old(h)) + data@,
{
    h.update(data)
}

/// Ends a SHA-512 computation.
///
/// `sha2::Digest::finalize` gives the digest, of 64 bytes, of all that was processed, however it
/// was cut into pieces.
#[verifier::external_body]
pub(crate) fn finish_hash(h: Sha512) -> (digest: Vec<u8>)
    ensures
        digest@ == sha512(absorbed(h)),
        digest@.len() == 64,
{
    h.finalize().to_vec()
}

/// Writes bytes in hexadecimal.
///
/// `hex::encode` writes the high and then the low half of each byte, in lower case.
#[verifier::external_body]
pub(crate) fn encode_hex(bytes: &[u8]) -> (s: String)
    ensures
        s@ == hex(bytes@),
{
    hex::encode(bytes)
}

/// Encrypts a message in place and appends the tag.
///
/// `aes_gcm::Aes256Gcm` takes a key of 32 bytes and a nonce of 12.
/// `aead::AeadInPlace::encrypt_in_place` replaces the message by a ciphertext of its length and
/// appends a tag of 16 bytes; all of it depends on key, nonce, associated data and message alone.
/// It fails only where message or associated data are longer than `2^36` bytes.
#[verifier::external_body]
pub(crate) fn encrypt_in_place(key: &[u8], nonce: &[u8], associated: &[u8], buf: &mut Vec<u8>) -> (
    ok: bool)
    requires
        key@.len() == 32,
        nonce@.len() == 12,
        associated@.len() <= 0x10_0000_0000,
        old(buf)@.len() <= 0x10_0000_0000,
    ensures
        ok,
        final(buf)@ == aes256_gcm(key@, nonce@, associated@, old(buf)@),
        final(buf)@.len() == old(buf)@.len() + 16,
{
    let cipher = Aes256Gcm::new_from_slice(key).unwrap();
    cipher.encrypt_in_place(Nonce::from_slice(nonce), associated, buf).is_ok()
}

/// A generator seeded by the operating system.
///
/// `rand::SeedableRng::from_entropy` takes its seed from the system, so nothing is known of what
/// the generator will give. It panics where the system has no entropy at all.
#[verifier::external_body]
pub(crate) fn seeded_generator() -> (g: Generator)
    ensures
        g.given() == Seq::<u8>::empty(),
{
    Generator { rng: StdRng::from_entropy(), given: Ghost(Seq::empty()) }
}

/// Overwrites a buffer with random bytes.
///
/// `rand::RngCore::fill_bytes` fills all of the buffer with what the generator gives next. Nothing
/// is known of the bytes but that they are the generator's.
#[verifier::external_body]
pub(crate) fn fill_random(g: &mut Generator, buf: &mut Vec<u8>)
    ensures
        final(buf)@.len() == old(buf)@.len(),
        final(g).given() == old(g).given() + final(buf)@,
{
    g.rng.fill_bytes(buf);
    g.given = Ghost(g.given@ + buf@);
}

} // verus!
