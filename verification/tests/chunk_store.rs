use file_storage::chunks::{ChunkStore, CHUNK_SIZE};
use file_storage::errors::FsError;

#[test]
fn put_is_dedup_idempotent() {
    let mut store = ChunkStore::new();
    let d1 = store.put(vec![1, 2, 3]);
    let d2 = store.put(vec![1, 2, 3]);
    assert_eq!(d1, d2);
    assert_eq!(store.num_chunks(), 1);
    let other = store.put(vec![4, 5]);
    assert_ne!(d1, other);
    assert_eq!(store.num_chunks(), 2);
}

#[test]
fn identity_is_the_sha256_of_the_bytes() {
    let mut store = ChunkStore::new();
    let digest = store.put(b"abc".to_vec());
    let expected: Vec<u8> = vec![
        0xba, 0x78, 0x16, 0xbf, 0x8f, 0x01, 0xcf, 0xea, 0x41, 0x41, 0x40, 0xde, 0x5d, 0xae, 0x22,
        0x23, 0xb0, 0x03, 0x61, 0xa3, 0x96, 0x17, 0x7a, 0x9c, 0xb4, 0x10, 0xff, 0x61, 0xf2, 0x00,
        0x15, 0xad,
    ];
    assert_eq!(digest, expected);
}

#[test]
fn get_returns_the_stored_bytes() {
    let mut store = ChunkStore::new();
    let digest = store.put(vec![9, 8, 7]);
    assert_eq!(store.get(&digest).unwrap(), vec![9, 8, 7]);
    let absent = vec![0u8; 32];
    assert_eq!(store.get(&absent), Err(FsError::NotFound));
}

#[test]
fn delete_is_unconditional() {
    let mut store = ChunkStore::new();
    let digest = store.put(vec![1]);
    store.delete(&digest);
    assert_eq!(store.get(&digest), Err(FsError::NotFound));
    assert_eq!(store.num_chunks(), 0);
    // deleting an absent identity is a no-op
    store.delete(&digest);
    assert_eq!(store.num_chunks(), 0);
}

#[test]
fn split_cuts_fixed_size_chunks() {
    let empty = ChunkStore::split(&Vec::new(), CHUNK_SIZE);
    assert_eq!(empty.len(), 0);

    let exact = ChunkStore::split(&vec![1u8; CHUNK_SIZE], CHUNK_SIZE);
    assert_eq!(exact.len(), 1);
    assert_eq!(exact[0].len(), CHUNK_SIZE);

    let just_over = ChunkStore::split(&vec![1u8; CHUNK_SIZE + 1], CHUNK_SIZE);
    assert_eq!(just_over.len(), 2);
    assert_eq!(just_over[0].len(), CHUNK_SIZE);
    assert_eq!(just_over[1].len(), 1);

    let small = ChunkStore::split(&vec![1, 2, 3], 2);
    assert_eq!(small, vec![vec![1, 2], vec![3]]);
}

#[test]
fn chunk_file_stores_every_chunk() {
    let mut store = ChunkStore::new();
    let content: Vec<u8> = (0..10u8).collect();
    let digests = store.chunk_file(&content);
    assert_eq!(digests.len(), 1);
    assert_eq!(store.get(&digests[0]).unwrap(), content);
}
