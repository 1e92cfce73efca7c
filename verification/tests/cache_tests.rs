use saorsa_sync::cache::{CacheError, ChunkCache, DEFAULT_DISK_CHUNKS, DEFAULT_MEMORY_CHUNKS};
use saorsa_sync::index::{FileRecord, SyncIndex};

fn addr(n: u8) -> [u8; 32] {
    [n; 32]
}

fn index_with_file(path: &str, chunks: &[u8]) -> SyncIndex {
    let mut index = SyncIndex::new();
    let mut manifest = Vec::new();
    for &c in chunks {
        index.register_chunk(addr(c), 1).unwrap();
        manifest.push(addr(c));
    }
    let record = FileRecord {
        path: String::from(path),
        size: chunks.len() as u64,
        modified_time: 1,
        content_hash: [9; 32],
        chunk_manifest: manifest,
    };
    index.commit([1; 16], record).unwrap();
    index
}

#[test]
fn a_new_cache_is_empty() {
    let cache = ChunkCache::new();
    assert_eq!(cache.memory_len(), 0);
    assert_eq!(cache.disk_len(), 0);
    assert!(!cache.contains(&addr(1)));
    assert_eq!(DEFAULT_MEMORY_CHUNKS, 32);
    assert_eq!(DEFAULT_DISK_CHUNKS, 4096);
    assert_eq!(ChunkCache::default().disk_len(), 0);
}

#[test]
fn put_writes_through_both_tiers() {
    let index = SyncIndex::new();
    let mut cache = ChunkCache::with_capacity(2, 4);
    assert_eq!(cache.put(addr(1), vec![1, 2, 3], &index), Ok(()));
    assert_eq!(cache.memory_len(), 1);
    assert_eq!(cache.disk_len(), 1);
    assert!(cache.contains(&addr(1)));
    assert_eq!(cache.get(&addr(1)), Some(vec![1, 2, 3]));
    assert_eq!(cache.peek(&addr(1)), Some(vec![1, 2, 3]));
}

#[test]
fn get_of_an_unknown_address_is_a_miss() {
    let mut cache = ChunkCache::with_capacity(2, 4);
    assert_eq!(cache.get(&addr(1)), None);
    assert_eq!(cache.peek(&addr(1)), None);
    assert_eq!(cache.memory_len(), 0);
}

#[test]
fn memory_tier_evicts_the_least_recently_used_chunk() {
    let index = SyncIndex::new();
    let mut cache = ChunkCache::with_capacity(2, 8);
    cache.put(addr(1), vec![1], &index).unwrap();
    cache.put(addr(2), vec![2], &index).unwrap();
    // Using chunk 1 makes chunk 2 the least recently used one.
    assert_eq!(cache.get(&addr(1)), Some(vec![1]));
    cache.put(addr(3), vec![3], &index).unwrap();
    assert_eq!(cache.memory_len(), 2);
    assert_eq!(cache.disk_len(), 3);
    // Chunk 2 left the memory tier but is still served from the disk tier.
    assert_eq!(cache.get(&addr(2)), Some(vec![2]));
    assert_eq!(cache.memory_len(), 2);
}

#[test]
fn a_disk_hit_is_promoted_to_memory() {
    let index = SyncIndex::new();
    let mut cache = ChunkCache::with_capacity(1, 8);
    cache.put(addr(1), vec![1], &index).unwrap();
    cache.put(addr(2), vec![2], &index).unwrap();
    assert_eq!(cache.memory_len(), 1);
    assert_eq!(cache.get(&addr(1)), Some(vec![1]));
    assert_eq!(cache.memory_len(), 1);
    assert_eq!(cache.disk_len(), 2);
}

#[test]
fn a_cache_without_memory_tier_serves_from_disk() {
    let index = SyncIndex::new();
    let mut cache = ChunkCache::with_capacity(0, 2);
    cache.put(addr(1), vec![1], &index).unwrap();
    assert_eq!(cache.memory_len(), 0);
    assert_eq!(cache.get(&addr(1)), Some(vec![1]));
    assert_eq!(cache.memory_len(), 0);
}

#[test]
fn a_chunk_is_stored_once() {
    let index = SyncIndex::new();
    let mut cache = ChunkCache::with_capacity(4, 4);
    cache.put(addr(1), vec![1], &index).unwrap();
    cache.put(addr(1), vec![1], &index).unwrap();
    cache.put(addr(1), vec![1], &index).unwrap();
    assert_eq!(cache.disk_len(), 1);
    assert_eq!(cache.memory_len(), 1);
}

#[test]
fn a_full_disk_tier_evicts_the_first_unreferenced_chunk() {
    let index = index_with_file("a", &[1]);
    let mut cache = ChunkCache::with_capacity(1, 3);
    cache.put(addr(1), vec![1], &index).unwrap();
    cache.put(addr(2), vec![2], &index).unwrap();
    cache.put(addr(3), vec![3], &index).unwrap();
    assert_eq!(cache.put(addr(4), vec![4], &index), Ok(()));
    assert_eq!(cache.disk_len(), 3);
    assert!(cache.contains(&addr(1)));
    assert!(!cache.contains(&addr(2)));
    assert!(cache.contains(&addr(3)));
    assert!(cache.contains(&addr(4)));
}

#[test]
fn a_referenced_chunk_is_never_evicted_from_the_disk_tier() {
    let index = index_with_file("a", &[1, 2]);
    let mut cache = ChunkCache::with_capacity(1, 2);
    cache.put(addr(1), vec![1], &index).unwrap();
    cache.put(addr(2), vec![2], &index).unwrap();
    assert_eq!(cache.put(addr(3), vec![3], &index), Err(CacheError::DiskFull));
    assert_eq!(cache.disk_len(), 2);
    assert_eq!(cache.memory_len(), 1);
    assert_eq!(cache.peek(&addr(1)), Some(vec![1]));
    assert_eq!(cache.peek(&addr(2)), Some(vec![2]));
    assert!(!cache.contains(&addr(3)));
    // Reading does not evict from the disk tier either.
    assert_eq!(cache.get(&addr(1)), Some(vec![1]));
    assert_eq!(cache.get(&addr(2)), Some(vec![2]));
    assert_eq!(cache.disk_len(), 2);
}

#[test]
fn invalidate_takes_a_chunk_out_of_both_tiers() {
    let index = SyncIndex::new();
    let mut cache = ChunkCache::with_capacity(2, 2);
    cache.put(addr(1), vec![1], &index).unwrap();
    assert!(cache.invalidate(&addr(1)));
    assert!(!cache.contains(&addr(1)));
    assert_eq!(cache.memory_len(), 0);
    assert_eq!(cache.disk_len(), 0);
    assert!(!cache.invalidate(&addr(1)));
}
