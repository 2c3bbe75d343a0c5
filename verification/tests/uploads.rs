use aes_gcm::{AeadInPlace, Aes256Gcm, KeyInit, Nonce};
use streaming_bench::blocks::{
    block_nonce, encrypt_chunk_in_blocks, EncryptBuffer, AES_BLOCK_SIZE, AES_TAG_SIZE,
};
use streaming_bench::source::ChunkSource;
use streaming_bench::upload::{
    add_result, chunk_size_bytes, process_body, receive_rest, CryptoResult, UploadPipeline,
    UploadResponse,
};

/// Runs an upload that comes in these pieces.
fn upload(chunk_size: usize, pieces: &[&[u8]]) -> UploadResponse {
    let mut p = UploadPipeline::new(chunk_size);
    let mut total = 0u64;
    for piece in pieces {
        p.receive(piece);
        while let Some(r) = p.next_chunk() {
            total = add_result(total, &r);
        }
    }
    if let Some(r) = p.last_chunk() {
        total = add_result(total, &r);
    }
    p.finish(total)
}

fn bytes(n: usize) -> Vec<u8> {
    (0..n).map(|i| (i * 7 % 251) as u8).collect()
}

#[test]
fn the_digest_is_that_of_the_body() {
    let r = upload(1024, &[b"abc"]);
    assert_eq!(
        r.sha512_hex,
        "ddaf35a193617abacc417349ae20413112e6fa4e89a97ea20a9eeee64b55d39a\
         2192992a274fc1a836ba3c23a3feebbd454d4423643ce80e2a9ac94fa54ca49f"
    );
    assert_eq!(r.bytes_received, 3);
    assert_eq!(r.chunks_processed, 1);
}

#[test]
fn an_empty_body_has_no_chunks() {
    let r = upload(1024, &[]);
    assert_eq!(
        r.sha512_hex,
        "cf83e1357eefb8bdf1542850d66d8007d620e4050b5715dc83f4a921d36ce9ce\
         47d0d13c5d85f2b0ff8318d2877eec2f63b931bd47417a81a538327af927da3e"
    );
    assert_eq!((r.bytes_received, r.chunks_processed), (0, 0));
}

#[test]
fn the_pieces_make_no_difference() {
    let body = bytes(10_000);
    let whole = upload(999, &[&body]);
    assert_eq!(whole.chunks_processed, 11);
    assert_eq!(whole.bytes_received, 10_000);
    assert_eq!(upload(999, &[&body[..1], &body[1..998], &body[998..4000], &body[4000..]]), whole);
    let ones: Vec<&[u8]> = body.chunks(1).collect();
    assert_eq!(upload(999, &ones), whole);
}

#[test]
fn a_body_processed_as_a_whole() {
    let body = bytes(10_000);
    let pieces = vec![body[..1].to_vec(), Vec::new(), body[1..7000].to_vec(), body[7000..].to_vec()];
    assert_eq!(process_body(999, &pieces), upload(999, &[&body]));
    let r = process_body(1, &vec![b"abc".to_vec()]);
    assert_eq!((r.bytes_received, r.chunks_processed), (3, 3));
    assert!(r.sha512_hex.starts_with("ddaf35a193617aba"));
    assert_eq!(process_body(5, &Vec::new()), upload(5, &[]));
}

#[test]
fn the_rest_of_a_body_follows_what_came_before() {
    let body = bytes(5_000);
    let mut p = UploadPipeline::new(1000);
    p.receive(&body[..1500]);
    assert_eq!(p.next_chunk(), Some(CryptoResult { bytes_processed: 1000 }));
    assert_eq!(p.next_chunk(), None);
    let rest = vec![body[1500..1501].to_vec(), body[1501..].to_vec()];
    assert_eq!(receive_rest(&mut p, &rest), 4000);
    assert_eq!(p.finish(5000), upload(1000, &[&body]));
}

#[test]
fn larger_chunks_are_no_more_of_them() {
    let body = bytes(10_000);
    let mut fewest = u64::MAX;
    for size in [1, 7, 1000, 1001, 9_999, 10_000, 10_001, 65_536] {
        let r = process_body(size, &vec![body[..size % 10_000].to_vec(), body[size % 10_000..].to_vec()]);
        assert_eq!(r.sha512_hex, process_body(4096, &vec![body.clone()]).sha512_hex);
        assert_eq!(r.sha512_hex.len(), 128);
        assert_eq!(r.bytes_received, 10_000);
        assert!(r.chunks_processed <= fewest);
        fewest = r.chunks_processed;
    }
    assert_eq!(fewest, 1);
}

#[test]
fn the_last_block_has_what_is_left() {
    let key = bytes(32);
    for (len, left) in [(1, 17), (65_535, 65_551), (65_536, 65_552), (65_537, 17), (131_073, 17)] {
        let mut b = EncryptBuffer::new();
        encrypt_chunk_in_blocks(&key, &bytes(len), 0, &mut b);
        assert_eq!(b.as_slice().len(), left);
    }
}

#[test]
fn chunks_are_full_but_for_the_last() {
    assert_eq!(upload(1000, &[&bytes(3000)]).chunks_processed, 3);
    assert_eq!(upload(1000, &[&bytes(3001)]).chunks_processed, 4);
    assert_eq!(upload(1000, &[&bytes(999)]).chunks_processed, 1);
    let mut p = UploadPipeline::new(1000);
    p.receive(&bytes(2500));
    assert_eq!(p.next_chunk(), Some(CryptoResult { bytes_processed: 1000 }));
    assert_eq!(p.next_chunk(), Some(CryptoResult { bytes_processed: 1000 }));
    assert_eq!(p.next_chunk(), None);
    assert_eq!(p.last_chunk(), Some(CryptoResult { bytes_processed: 500 }));
    assert_eq!(p.last_chunk(), None);
    assert_eq!(p.finish(2500).chunks_processed, 3);
}

#[test]
fn without_a_chunk_size_every_step_is_an_empty_chunk() {
    let mut p = UploadPipeline::new(0);
    p.receive(b"x");
    assert_eq!(p.next_chunk(), Some(CryptoResult { bytes_processed: 0 }));
    assert_eq!(p.next_chunk(), Some(CryptoResult { bytes_processed: 0 }));
}

#[test]
fn chunk_sizes_beyond_what_fits_are_refused() {
    assert_eq!(chunk_size_bytes(64), Some(67_108_864));
    assert_eq!(chunk_size_bytes(0), Some(0));
    assert_eq!(chunk_size_bytes(268_435_455), Some(268_435_455 * 1_048_576));
    assert_eq!(chunk_size_bytes(268_435_456), None);
    assert_eq!(chunk_size_bytes(u64::MAX), None);
}

#[test]
fn nonces_hold_chunk_and_block() {
    assert_eq!(block_nonce(0x0102_0304_0506_0708, 0x0a0b_0c0d), [8, 7, 6, 5, 4, 3, 2, 1, 13, 12, 11, 10]);
    assert_eq!(block_nonce(1, 0), [1, 0, 0, 0, 0, 0, 0, 0, 0, 0, 0, 0]);
    assert_ne!(block_nonce(1, 0), block_nonce(0, 1));
}

fn sealed(key: &[u8], nonce: &[u8], message: &[u8]) -> Vec<u8> {
    let mut out = message.to_vec();
    let cipher = Aes256Gcm::new_from_slice(key).unwrap();
    cipher.encrypt_in_place(Nonce::from_slice(nonce), b"", &mut out).unwrap();
    out
}

#[test]
fn a_block_is_sealed_under_its_nonce() {
    let key = bytes(32);
    let mut b = EncryptBuffer::new();
    assert_eq!(b.as_slice(), vec![0u8; AES_BLOCK_SIZE + AES_TAG_SIZE].as_slice());
    b.encrypt_block(&key, 5, 6, b"message");
    assert_eq!(b.as_slice(), sealed(&key, &[5, 0, 0, 0, 0, 0, 0, 0, 6, 0, 0, 0], b"message"));
    assert_eq!(b.as_slice().len(), 7 + 16);
}

#[test]
fn a_chunk_leaves_its_last_block() {
    let key = bytes(32);
    let data = bytes(2 * AES_BLOCK_SIZE + 10);
    let mut b = EncryptBuffer::new();
    encrypt_chunk_in_blocks(&key, &data, 9, &mut b);
    let nonce = [9, 0, 0, 0, 0, 0, 0, 0, 2, 0, 0, 0];
    assert_eq!(b.as_slice(), sealed(&key, &nonce, &data[2 * AES_BLOCK_SIZE..]));
    let before = b.as_slice().to_vec();
    encrypt_chunk_in_blocks(&key, &[], 10, &mut b);
    assert_eq!(b.as_slice(), before);
    encrypt_chunk_in_blocks(&key, &data[..2 * AES_BLOCK_SIZE], 11, &mut b);
    let nonce = [11, 0, 0, 0, 0, 0, 0, 0, 1, 0, 0, 0];
    assert_eq!(b.as_slice(), sealed(&key, &nonce, &data[AES_BLOCK_SIZE..2 * AES_BLOCK_SIZE]));
}

#[test]
fn a_source_hands_out_the_file_in_chunks() {
    let mut s = ChunkSource::new(5, 2).unwrap();
    let mut lengths: Vec<usize> = Vec::new();
    while let Some(c) = s.next_chunk() {
        lengths.push(c.len());
    }
    assert_eq!(lengths, [2 << 20, 2 << 20, 1 << 20]);
    assert!(s.next_chunk().is_none());
}

#[test]
fn a_source_of_nothing_hands_out_nothing() {
    assert!(ChunkSource::new(0, 4).unwrap().next_chunk().is_none());
}

#[test]
fn a_source_without_a_chunk_size_hands_out_empty_chunks() {
    let mut s = ChunkSource::new(1, 0).unwrap();
    assert_eq!(s.next_chunk(), Some(Vec::new()));
    assert_eq!(s.next_chunk(), Some(Vec::new()));
}

#[test]
fn a_source_is_refused_where_sizes_do_not_fit() {
    assert!(ChunkSource::new(u64::MAX, 1).is_none());
    assert!(ChunkSource::new(1, u64::MAX).is_none());
    assert!(ChunkSource::new(1 << 43, 1 << 43).is_none());
    assert!(ChunkSource::new(1 << 43, 1).is_some());
    assert!(ChunkSource::new(1, 1 << 43).is_some());
}

#[test]
fn random_chunks_are_not_all_the_same() {
    let mut s = ChunkSource::new(2, 1).unwrap();
    let a = s.next_chunk().unwrap();
    let b = s.next_chunk().unwrap();
    assert_ne!(a, b);
    assert!(a.iter().any(|&x| x != 0));
}
