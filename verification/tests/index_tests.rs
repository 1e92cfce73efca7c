use saorsa_sync::chunk::MAX_CHUNK_SIZE;
use saorsa_sync::index::{
    same_folder, same_version, FileRecord, FileVersion, IndexError, ObservedFile, SyncIndex,
};

const FOLDER: [u8; 16] = [1; 16];
const OTHER: [u8; 16] = [2; 16];

fn addr(n: u8) -> [u8; 32] {
    [n; 32]
}

fn record(path: &str, chunks: &[u8], size: u64) -> FileRecord {
    FileRecord {
        path: String::from(path),
        size,
        modified_time: 10,
        content_hash: [7; 32],
        chunk_manifest: chunks.iter().map(|&c| addr(c)).collect(),
    }
}

fn seen(path: &str, hash: u8, size: u64, time: i64) -> ObservedFile {
    ObservedFile {
        path: String::from(path),
        version: FileVersion { content_hash: [hash; 32], size, modified_time: time },
    }
}

fn sorted(mut paths: Vec<String>) -> Vec<String> {
    paths.sort();
    paths
}

#[test]
fn a_new_index_holds_nothing() {
    let index = SyncIndex::new();
    assert_eq!(index.len(), 0);
    assert!(index.get(&FOLDER, &String::from("a")).is_none());
    assert!(index.chunk(&addr(1)).is_none());
    assert_eq!(index.reference_count(&addr(1)), 0);
    assert!(index.unreferenced().is_empty());
}

#[test]
fn register_chunk_checks_the_size() {
    let mut index = SyncIndex::new();
    assert_eq!(index.register_chunk(addr(1), MAX_CHUNK_SIZE as u64), Ok(()));
    assert_eq!(
        index.register_chunk(addr(2), MAX_CHUNK_SIZE as u64 + 1),
        Err(IndexError::ChunkTooLarge)
    );
    assert!(index.chunk(&addr(2)).is_none());
    assert_eq!(index.register_chunk(addr(1), MAX_CHUNK_SIZE as u64), Ok(()));
    assert_eq!(index.register_chunk(addr(1), 5), Err(IndexError::ChunkSizeConflict));
    let chunk = index.chunk(&addr(1)).unwrap();
    assert_eq!(chunk.size, MAX_CHUNK_SIZE as u64);
    assert_eq!(chunk.reference_count, 0);
    assert_eq!(index.unreferenced(), vec![addr(1)]);
}

#[test]
fn commit_stores_the_record_and_counts_references() {
    let mut index = SyncIndex::new();
    index.register_chunk(addr(1), 4).unwrap();
    index.register_chunk(addr(2), 3).unwrap();
    assert_eq!(index.commit(FOLDER, record("a", &[1, 2, 1], 11)), Ok(()));
    assert_eq!(index.len(), 1);
    let stored = index.get(&FOLDER, &String::from("a")).unwrap();
    assert_eq!(stored.size, 11);
    assert_eq!(stored.chunk_manifest, vec![addr(1), addr(2), addr(1)]);
    assert_eq!(index.reference_count(&addr(1)), 2);
    assert_eq!(index.reference_count(&addr(2)), 1);
    assert!(index.unreferenced().is_empty());
    assert!(index.get(&OTHER, &String::from("a")).is_none());
}

#[test]
fn commit_refuses_an_unregistered_chunk_and_changes_nothing() {
    let mut index = SyncIndex::new();
    index.register_chunk(addr(1), 4).unwrap();
    assert_eq!(
        index.commit(FOLDER, record("a", &[1, 2, 3], 4)),
        Err(IndexError::UnknownChunk { position: 1 })
    );
    assert_eq!(index.len(), 0);
    assert_eq!(index.reference_count(&addr(1)), 0);
}

#[test]
fn commit_refuses_a_size_that_is_not_the_sum_of_the_chunks() {
    let mut index = SyncIndex::new();
    index.register_chunk(addr(1), 4).unwrap();
    index.register_chunk(addr(2), 3).unwrap();
    assert_eq!(index.commit(FOLDER, record("a", &[1, 2], 8)), Err(IndexError::SizeMismatch));
    assert_eq!(index.len(), 0);
    assert_eq!(index.reference_count(&addr(1)), 0);
    assert_eq!(index.commit(FOLDER, record("a", &[1, 2], 7)), Ok(()));
}

#[test]
fn committing_again_moves_the_references() {
    let mut index = SyncIndex::new();
    for c in 1..=3u8 {
        index.register_chunk(addr(c), 1).unwrap();
    }
    index.commit(FOLDER, record("a", &[1, 2], 2)).unwrap();
    index.commit(FOLDER, record("a", &[2, 3], 2)).unwrap();
    assert_eq!(index.len(), 1);
    assert_eq!(index.reference_count(&addr(1)), 0);
    assert_eq!(index.reference_count(&addr(2)), 1);
    assert_eq!(index.reference_count(&addr(3)), 1);
    assert_eq!(index.unreferenced(), vec![addr(1)]);
}

#[test]
fn two_files_share_one_chunk_record() {
    let mut index = SyncIndex::new();
    index.register_chunk(addr(1), 1).unwrap();
    index.register_chunk(addr(2), 1).unwrap();
    index.commit(FOLDER, record("a", &[1, 2], 2)).unwrap();
    index.commit(FOLDER, record("b", &[2], 1)).unwrap();
    assert_eq!(index.reference_count(&addr(2)), 2);
    let gone = index.remove(&FOLDER, &String::from("a")).unwrap();
    assert_eq!(gone.path, "a");
    assert_eq!(index.reference_count(&addr(2)), 1);
    assert_eq!(index.reference_count(&addr(1)), 0);
    assert!(index.remove(&FOLDER, &String::from("a")).is_none());
    assert_eq!(index.len(), 1);
}

#[test]
fn forget_chunk_drops_only_unreferenced_chunks() {
    let mut index = SyncIndex::new();
    index.register_chunk(addr(1), 1).unwrap();
    index.register_chunk(addr(2), 1).unwrap();
    index.commit(FOLDER, record("a", &[1], 1)).unwrap();
    assert!(!index.forget_chunk(&addr(1)));
    assert!(index.forget_chunk(&addr(2)));
    assert!(!index.forget_chunk(&addr(2)));
    assert!(!index.forget_chunk(&addr(3)));
    assert!(index.chunk(&addr(1)).is_some());
    assert!(index.chunk(&addr(2)).is_none());
}

#[test]
fn paths_and_remove_folder_keep_folders_apart() {
    let mut index = SyncIndex::new();
    index.register_chunk(addr(1), 1).unwrap();
    index.commit(FOLDER, record("a", &[1], 1)).unwrap();
    index.commit(FOLDER, record("b", &[1], 1)).unwrap();
    index.commit(OTHER, record("c", &[1], 1)).unwrap();
    assert_eq!(sorted(index.paths(&FOLDER)), vec!["a", "b"]);
    assert_eq!(index.paths(&OTHER), vec!["c"]);
    assert_eq!(sorted(index.remove_folder(&FOLDER)), vec!["a", "b"]);
    assert!(index.paths(&FOLDER).is_empty());
    assert_eq!(index.len(), 1);
    assert_eq!(index.reference_count(&addr(1)), 1);
    assert!(index.remove_folder(&FOLDER).is_empty());
}

#[test]
fn diff_lists_changed_new_and_vanished_paths() {
    let mut index = SyncIndex::new();
    index.register_chunk(addr(1), 1).unwrap();
    index.commit(FOLDER, record("same", &[1], 1)).unwrap();
    index.commit(FOLDER, record("edited", &[1], 1)).unwrap();
    index.commit(FOLDER, record("gone", &[1], 1)).unwrap();
    index.commit(OTHER, record("elsewhere", &[1], 1)).unwrap();
    let observed = vec![
        seen("same", 7, 1, 10),
        seen("edited", 8, 1, 11),
        seen("new", 5, 3, 12),
    ];
    assert_eq!(sorted(index.diff(&FOLDER, &observed)), vec!["edited", "gone", "new"]);
}

#[test]
fn diff_of_an_unchanged_folder_is_empty() {
    let mut index = SyncIndex::new();
    index.register_chunk(addr(1), 1).unwrap();
    index.commit(FOLDER, record("a", &[1], 1)).unwrap();
    assert!(index.diff(&FOLDER, &vec![seen("a", 7, 1, 10)]).is_empty());
    // A changed modification time alone is a difference.
    assert_eq!(index.diff(&FOLDER, &vec![seen("a", 7, 1, 11)]), vec!["a"]);
}

#[test]
fn versions_and_folders_compare_by_value() {
    let v = FileVersion { content_hash: [1; 32], size: 2, modified_time: 3 };
    let mut w = v;
    assert!(same_version(&v, &w));
    w.modified_time = 4;
    assert!(!same_version(&v, &w));
    assert!(same_folder(&FOLDER, &FOLDER));
    assert!(!same_folder(&FOLDER, &OTHER));
    let r = record("a", &[1], 1);
    let copy = r.clone();
    assert_eq!(copy.path, r.path);
    assert_eq!(copy.chunk_manifest, r.chunk_manifest);
    assert_eq!(r.version(), FileVersion { content_hash: [7; 32], size: 1, modified_time: 10 });
}
