//! The streaming hash engine against the reference one-shot hash.

use xxhash_verify::{compute_hash, HashEngine, CHUNK_SIZE};

#[test]
fn hashing_twice_gives_the_same_digest() {
    let data = b"hello".to_vec();
    assert_eq!(compute_hash(&data), compute_hash(&data));
}

#[test]
fn matches_the_one_shot_hash() {
    for data in [&b""[..], b"hello", b"hello!", b"\x00\x01\x02\xff"] {
        assert_eq!(compute_hash(data), xxhash_rust::xxh3::xxh3_128(data));
    }
}

#[test]
fn distinct_contents_give_distinct_digests() {
    assert_ne!(compute_hash(b"hello"), compute_hash(b"hello!"));
    assert_ne!(compute_hash(b""), compute_hash(b"\x00"));
    assert_ne!(compute_hash(b"ab"), compute_hash(b"ba"));
}

#[test]
fn chunked_feeding_matches_whole_stream() {
    // More than three chunks, not a multiple of the chunk size.
    let n = CHUNK_SIZE * 3 + 12345;
    let mut data = Vec::with_capacity(n);
    for i in 0..n {
        data.push((i % 251) as u8);
    }
    assert_eq!(compute_hash(&data), xxhash_rust::xxh3::xxh3_128(&data));

    // Feeding by hand in uneven pieces gives the same digest.
    let mut engine = HashEngine::new();
    engine.update(&data[..7]);
    engine.update(&data[7..CHUNK_SIZE + 1]);
    engine.update(&data[CHUNK_SIZE + 1..]);
    assert_eq!(engine.digest128(), compute_hash(&data));
}

#[test]
fn digest_depends_on_bytes_alone() {
    // The same bytes arriving from different buffers hash alike.
    let a = b"same content".to_vec();
    let b = b"same content".to_vec();
    assert_eq!(compute_hash(&a), compute_hash(&b));
}
