use saorsa_sync::cache::ChunkCache;
use saorsa_sync::chunk::{check_digest, same_address, ChunkError, ChunkManager, MAX_CHUNK_SIZE};
use saorsa_sync::index::SyncIndex;

fn bytes(len: usize, seed: u8) -> Vec<u8> {
    let mut out = Vec::with_capacity(len);
    let mut x = seed as u32;
    for _ in 0..len {
        x = x.wrapping_mul(1_103_515_245).wrapping_add(12_345);
        out.push((x >> 16) as u8);
    }
    out
}

fn fill(cache: &mut ChunkCache, index: &SyncIndex, manager: &ChunkManager, data: &[u8]) -> Vec<[u8; 32]> {
    let chunks = manager.split(data);
    let manifest = ChunkManager::manifest(&chunks);
    for chunk in chunks {
        cache.put(chunk.address, chunk.data, index).unwrap();
    }
    manifest
}

#[test]
fn max_chunk_size_is_four_mib_less_framing() {
    assert_eq!(MAX_CHUNK_SIZE, 4 * 1024 * 1024 - 256);
    assert_eq!(MAX_CHUNK_SIZE, 4_194_048);
    assert_eq!(ChunkManager::new().chunk_size(), MAX_CHUNK_SIZE);
    assert_eq!(ChunkManager::default().chunk_size(), MAX_CHUNK_SIZE);
}

#[test]
fn chunk_size_must_lie_between_one_and_the_maximum() {
    assert!(ChunkManager::with_chunk_size(0).is_none());
    assert!(ChunkManager::with_chunk_size(MAX_CHUNK_SIZE + 1).is_none());
    assert_eq!(ChunkManager::with_chunk_size(1).unwrap().chunk_size(), 1);
    assert_eq!(ChunkManager::with_chunk_size(MAX_CHUNK_SIZE).unwrap().chunk_size(), MAX_CHUNK_SIZE);
}

#[test]
fn split_of_empty_file_has_no_chunks() {
    let manager = ChunkManager::new();
    assert_eq!(manager.split(&[]).len(), 0);
}

#[test]
fn split_cuts_at_the_chunk_size_and_keeps_the_remainder_last() {
    let manager = ChunkManager::with_chunk_size(4).unwrap();
    let data = [1u8, 2, 3, 4, 5, 6, 7, 8, 9, 10];
    let chunks = manager.split(&data);
    assert_eq!(chunks.len(), 3);
    assert_eq!(chunks[0].data, vec![1, 2, 3, 4]);
    assert_eq!(chunks[1].data, vec![5, 6, 7, 8]);
    assert_eq!(chunks[2].data, vec![9, 10]);
}

#[test]
fn split_of_an_exact_multiple_has_no_empty_chunk() {
    let manager = ChunkManager::with_chunk_size(5).unwrap();
    let chunks = manager.split(&[7u8; 10]);
    assert_eq!(chunks.len(), 2);
    assert_eq!(chunks[0].data.len(), 5);
    assert_eq!(chunks[1].data.len(), 5);
}

#[test]
fn ten_mebibytes_make_three_chunks() {
    let manager = ChunkManager::new();
    let data = bytes(10 * 1024 * 1024, 3);
    let chunks = manager.split(&data);
    assert_eq!(chunks.len(), 3);
    assert_eq!(chunks[0].data.len(), MAX_CHUNK_SIZE);
    assert_eq!(chunks[1].data.len(), MAX_CHUNK_SIZE);
    assert_eq!(chunks[2].data.len(), 10 * 1024 * 1024 - 2 * MAX_CHUNK_SIZE);
}

#[test]
fn address_is_the_blake3_hash_of_the_chunk() {
    let manager = ChunkManager::with_chunk_size(8).unwrap();
    let chunks = manager.split(b"hello world");
    assert_eq!(chunks.len(), 2);
    assert_eq!(chunks[0].address, *blake3::hash(b"hello wo").as_bytes());
    assert_eq!(chunks[1].address, *blake3::hash(b"rld").as_bytes());
    assert_ne!(chunks[0].address.to_vec(), chunks[0].data);
}

#[test]
fn content_hash_of_no_bytes_is_the_known_digest() {
    let manager = ChunkManager::new();
    let (record, chunks) = manager.describe(String::from("empty"), 5, &[]);
    let expected: [u8; 32] = [
        0xaf, 0x13, 0x49, 0xb9, 0xf5, 0xf9, 0xa1, 0xa6, 0xa0, 0x40, 0x4d, 0xea, 0x36, 0xdc, 0xc9,
        0x49, 0x9b, 0xcb, 0x25, 0xc9, 0xad, 0xc1, 0x12, 0xb7, 0xcc, 0x9a, 0x93, 0xca, 0xe4, 0x1f,
        0x32, 0x62,
    ];
    assert_eq!(record.content_hash, expected);
    assert_eq!(record.size, 0);
    assert_eq!(record.modified_time, 5);
    assert!(record.chunk_manifest.is_empty());
    assert!(chunks.is_empty());
}

#[test]
fn describe_gives_size_hash_and_manifest() {
    let manager = ChunkManager::with_chunk_size(4).unwrap();
    let data = b"abcdefghij";
    let (record, chunks) = manager.describe(String::from("a.txt"), 42, data);
    assert_eq!(record.path, "a.txt");
    assert_eq!(record.size, 10);
    assert_eq!(record.modified_time, 42);
    assert_eq!(record.content_hash, *blake3::hash(data).as_bytes());
    assert_eq!(record.chunk_manifest, ChunkManager::manifest(&chunks));
    assert_eq!(record.chunk_manifest.len(), 3);
    assert_eq!(record.version().size, 10);
}

#[test]
fn round_trip_gives_the_file_back() {
    let manager = ChunkManager::with_chunk_size(64).unwrap();
    let index = SyncIndex::new();
    for len in [0usize, 1, 63, 64, 65, 128, 1000] {
        let data = bytes(len, len as u8);
        let mut cache = ChunkCache::with_capacity(4, 64);
        let manifest = fill(&mut cache, &index, &manager, &data);
        assert_eq!(manager.reassemble(&manifest, &cache), Ok(data));
    }
}

#[test]
fn round_trip_of_a_large_file_at_the_full_chunk_size() {
    let manager = ChunkManager::new();
    let index = SyncIndex::new();
    let data = bytes(MAX_CHUNK_SIZE + 17, 9);
    let mut cache = ChunkCache::new();
    let manifest = fill(&mut cache, &index, &manager, &data);
    assert_eq!(manifest.len(), 2);
    assert_eq!(manager.reassemble(&manifest, &cache).unwrap(), data);
}

#[test]
fn reassemble_reports_the_first_missing_chunk() {
    let manager = ChunkManager::with_chunk_size(4).unwrap();
    let index = SyncIndex::new();
    let mut cache = ChunkCache::new();
    let manifest = fill(&mut cache, &index, &manager, b"abcdefghijkl");
    assert!(cache.invalidate(&manifest[1]));
    assert!(cache.invalidate(&manifest[2]));
    assert_eq!(
        manager.reassemble(&manifest, &cache),
        Err(ChunkError::MissingChunk { index: 1 })
    );
}

#[test]
fn reassemble_reports_bytes_that_do_not_hash_to_their_address() {
    let manager = ChunkManager::with_chunk_size(4).unwrap();
    let index = SyncIndex::new();
    let mut cache = ChunkCache::new();
    let manifest = fill(&mut cache, &index, &manager, b"abcdefgh");
    cache.put(manifest[1], b"XXXX".to_vec(), &index).unwrap();
    assert_eq!(
        manager.reassemble(&manifest, &cache),
        Err(ChunkError::ChecksumMismatch { index: 1 })
    );
}

#[test]
fn a_missing_chunk_before_a_corrupt_one_is_reported_first() {
    let manager = ChunkManager::with_chunk_size(2).unwrap();
    let index = SyncIndex::new();
    let mut cache = ChunkCache::new();
    let manifest = fill(&mut cache, &index, &manager, b"abcdef");
    cache.invalidate(&manifest[0]);
    cache.put(manifest[2], b"zz".to_vec(), &index).unwrap();
    assert_eq!(
        manager.reassemble(&manifest, &cache),
        Err(ChunkError::MissingChunk { index: 0 })
    );
}

#[test]
fn check_digest_accepts_equal_and_rejects_other_digests() {
    let a = [1u8; 32];
    let mut b = [1u8; 32];
    assert_eq!(check_digest(&a, &b, 7), Ok(()));
    b[31] = 2;
    assert_eq!(check_digest(&a, &b, 7), Err(ChunkError::ChecksumMismatch { index: 7 }));
    assert!(same_address(&a, &a));
    assert!(!same_address(&a, &b));
}

#[test]
fn files_that_share_a_chunk_share_its_address() {
    let manager = ChunkManager::with_chunk_size(4).unwrap();
    let first = manager.split(b"AAAAsameBBBB");
    let second = manager.split(b"samezzzz");
    assert_eq!(first[1].address, second[0].address);
    assert_ne!(first[0].address, second[1].address);
}
