use saorsa_sync::chunk::ChunkManager;
use saorsa_sync::config::SyncConfig;
use saorsa_sync::engine::{add_capped, look_up, SyncEngine, SyncEngineState, SyncError};
use saorsa_sync::index::{FileRecord, FileVersion, ObservedFile};
use saorsa_sync::plan::{Outcome, Pool, TransferKind};
use saorsa_sync::services::sync::{
    ConflictResolution, SyncFolderOptions, SyncHistoryOperation, SyncMode,
};
use saorsa_sync::state::SyncFolderStatus;

const F: [u8; 16] = [1; 16];
const G: [u8; 16] = [2; 16];

fn config(uploads: usize, downloads: usize) -> SyncConfig {
    SyncConfig {
        max_concurrent_uploads: uploads,
        max_concurrent_downloads: downloads,
        sync_interval_seconds: 60,
        exclude_patterns: vec![String::from("*.tmp")],
    }
}

fn engine(uploads: usize, downloads: usize) -> SyncEngine {
    let mut engine = SyncEngine::with_config(config(uploads, downloads));
    engine
        .add_folder(F, String::from("/home/me/docs"), String::from("docs"), true, SyncFolderOptions::default())
        .unwrap();
    engine.start().unwrap();
    engine
}

fn version(hash: u8, size: u64, time: i64) -> FileVersion {
    FileVersion { content_hash: [hash; 32], size, modified_time: time }
}

fn seen(path: &str, hash: u8, size: u64, time: i64) -> ObservedFile {
    ObservedFile { path: String::from(path), version: version(hash, size, time) }
}

/// The record of a file of one chunk, registered with the engine.
fn record(engine: &mut SyncEngine, path: &str, hash: u8, size: u64, time: i64) -> FileRecord {
    engine.register_chunk([hash; 32], size).unwrap();
    FileRecord {
        path: String::from(path),
        size,
        modified_time: time,
        content_hash: [hash; 32],
        chunk_manifest: vec![[hash; 32]],
    }
}

fn s(path: &str) -> String {
    String::from(path)
}

/// Syncs one file of one chunk so that the index records it.
fn sync_file(engine: &mut SyncEngine, path: &str, hash: u8, time: i64) {
    // What is recorded is seen unchanged on both sides.
    let mut remote = Vec::new();
    for known in engine.index().paths(&F) {
        let version = engine.index().get(&F, &known).unwrap().version();
        remote.push(ObservedFile { path: known, version });
    }
    let mut local: Vec<ObservedFile> =
        remote.iter().map(|o| ObservedFile { path: o.path.clone(), version: o.version }).collect();
    local.push(seen(path, hash, 4, time));
    engine.scan(&F, &local, &remote, time).unwrap();
    let task = engine.next_transfer(time).unwrap();
    assert_eq!(task.path, path);
    let rec = record(engine, path, hash, 4, time);
    assert_eq!(
        engine.complete_transfer(&F, &s(path), Outcome::Done, Some(rec), s(""), time),
        Ok(Outcome::Done)
    );
}

#[test]
fn a_new_engine_is_stopped_and_empty() {
    let engine = SyncEngine::new();
    assert_eq!(engine.state(), SyncEngineState::Stopped);
    assert!(engine.list_folders().is_empty());
    assert!(engine.get_conflicts().is_empty());
    assert!(engine.history(10).is_empty());
    let stats = engine.stats();
    assert_eq!(stats.files_synced, 0);
    assert_eq!(stats.bytes_synced, 0);
    assert_eq!(stats.files_pending, 0);
    assert_eq!(stats.last_sync, None);
    assert_eq!(engine.index().len(), 0);
    assert_eq!(SyncEngine::default().state(), SyncEngineState::Stopped);
    assert_eq!(SyncEngineState::default(), SyncEngineState::Stopped);
}

#[test]
fn start_pause_resume_and_stop_follow_the_state_machine() {
    let mut engine = SyncEngine::new();
    engine.pause();
    assert_eq!(engine.state(), SyncEngineState::Stopped);
    engine.resume();
    assert_eq!(engine.state(), SyncEngineState::Stopped);
    assert_eq!(engine.start(), Ok(()));
    assert_eq!(engine.state(), SyncEngineState::Running);
    assert_eq!(engine.start(), Err(SyncError::AlreadyStarted));
    engine.resume();
    assert_eq!(engine.state(), SyncEngineState::Running);
    engine.pause();
    assert_eq!(engine.state(), SyncEngineState::Paused);
    assert_eq!(engine.start(), Err(SyncError::AlreadyStarted));
    engine.resume();
    assert_eq!(engine.state(), SyncEngineState::Running);
    engine.stop();
    assert_eq!(engine.state(), SyncEngineState::Stopped);
    assert_eq!(engine.start(), Ok(()));
}

#[test]
fn add_folder_rejects_what_is_not_a_folder_or_is_there_already() {
    let mut engine = SyncEngine::new();
    let options = SyncFolderOptions::default;
    assert_eq!(engine.add_folder(F, s("/a"), s("a"), false, options()), Err(SyncError::InvalidFolder));
    assert_eq!(engine.add_folder(F, s(""), s("a"), true, options()), Err(SyncError::InvalidFolder));
    assert_eq!(engine.add_folder(F, s("/a"), s("a"), true, options()), Ok(F));
    assert_eq!(engine.add_folder(F, s("/b"), s("b"), true, options()), Err(SyncError::FolderExists));
    assert_eq!(engine.add_folder(G, s("/a"), s("b"), true, options()), Err(SyncError::FolderExists));
    assert_eq!(engine.add_folder(G, s("/b"), s("b"), true, options()), Ok(G));
    let folders = engine.list_folders();
    assert_eq!(folders.len(), 2);
    assert_eq!(folders[0].id, F);
    assert_eq!(folders[0].local_path, "/a");
    assert_eq!(folders[0].name, "a");
    assert_eq!(folders[0].last_sync, 0);
    assert_eq!(folders[0].status, SyncFolderStatus::Pending);
    assert_eq!(folders[1].id, G);
}

#[test]
fn unknown_folders_are_reported() {
    let mut engine = engine(2, 2);
    assert_eq!(engine.folder_status(&G), None);
    assert_eq!(engine.remove_folder(&G), Err(SyncError::FolderNotFound));
    assert_eq!(engine.sync_now(&G), Err(SyncError::FolderNotFound));
    assert_eq!(engine.update_folder_options(&G, SyncFolderOptions::default()), Err(SyncError::FolderNotFound));
    assert_eq!(engine.scan(&G, &vec![], &vec![], 1), Err(SyncError::FolderNotFound));
}

#[test]
fn a_stopped_engine_takes_no_scan() {
    let mut engine = engine(2, 2);
    engine.stop();
    assert_eq!(engine.scan(&F, &vec![seen("a", 1, 4, 1)], &vec![], 1), Err(SyncError::NotRunning));
    assert_eq!(engine.stats().files_pending, 0);
}

#[test]
fn a_folder_is_pending_until_it_is_scanned() {
    let mut engine = engine(2, 2);
    assert_eq!(engine.folder_status(&F), Some(SyncFolderStatus::Pending));
    assert_eq!(engine.due_folders(5), vec![F]);
    engine.scan(&F, &vec![], &vec![], 100).unwrap();
    assert_eq!(engine.folder_status(&F), Some(SyncFolderStatus::Synced));
    assert_eq!(engine.list_folders()[0].last_sync, 100);
    assert!(engine.due_folders(159).is_empty());
    assert_eq!(engine.due_folders(160), vec![F]);
    engine.sync_now(&F).unwrap();
    assert_eq!(engine.due_folders(101), vec![F]);
    assert_eq!(engine.folder_status(&F), Some(SyncFolderStatus::Pending));
    engine.pause();
    assert!(engine.due_folders(500).is_empty());
}

#[test]
fn sync_all_now_asks_for_a_scan_of_every_folder() {
    let mut engine = engine(2, 2);
    engine.add_folder(G, s("/b"), s("b"), true, SyncFolderOptions::default()).unwrap();
    engine.scan(&F, &vec![], &vec![], 100).unwrap();
    engine.scan(&G, &vec![], &vec![], 100).unwrap();
    assert!(engine.due_folders(101).is_empty());
    engine.sync_all_now();
    assert_eq!(engine.due_folders(101), vec![F, G]);
}

#[test]
fn a_new_local_file_is_uploaded_and_recorded() {
    let mut engine = engine(2, 2);
    engine.scan(&F, &vec![seen("a.txt", 5, 4, 10)], &vec![], 10).unwrap();
    assert_eq!(engine.path_status(&F, &s("a.txt")), Some(SyncFolderStatus::Pending));
    assert_eq!(engine.folder_status(&F), Some(SyncFolderStatus::Pending));
    assert_eq!(engine.stats().files_pending, 1);
    let task = engine.next_transfer(10).unwrap();
    assert_eq!(task.folder, F);
    assert_eq!(task.path, "a.txt");
    assert_eq!(task.kind, TransferKind::Upload);
    assert_eq!(task.target, Some(version(5, 4, 10)));
    assert_eq!(task.attempts, 0);
    assert_eq!(engine.path_status(&F, &s("a.txt")), Some(SyncFolderStatus::Syncing));
    assert_eq!(engine.folder_status(&F), Some(SyncFolderStatus::Syncing));
    assert_eq!(engine.active_count(Pool::Uploads), 1);
    assert!(engine.next_transfer(10).is_none());
    let rec = record(&mut engine, "a.txt", 5, 4, 10);
    assert_eq!(
        engine.complete_transfer(&F, &s("a.txt"), Outcome::Done, Some(rec), s(""), 11),
        Ok(Outcome::Done)
    );
    assert_eq!(engine.active_count(Pool::Uploads), 0);
    assert_eq!(engine.path_status(&F, &s("a.txt")), Some(SyncFolderStatus::Synced));
    assert_eq!(engine.folder_status(&F), Some(SyncFolderStatus::Synced));
    let stored = engine.index().get(&F, &s("a.txt")).unwrap();
    assert_eq!(stored.chunk_manifest, vec![[5u8; 32]]);
    assert_eq!(engine.index().reference_count(&[5; 32]), 1);
    let stats = engine.stats();
    assert_eq!(stats.files_synced, 1);
    assert_eq!(stats.bytes_synced, 4);
    assert_eq!(stats.files_pending, 0);
    assert_eq!(stats.last_sync, Some(11));
    let history = engine.history(10);
    assert_eq!(history.len(), 1);
    assert_eq!(history[0].path, "a.txt");
    assert_eq!(history[0].operation, SyncHistoryOperation::Upload);
    assert_eq!(history[0].timestamp, 11);
    assert_eq!(history[0].result, Ok(()));
}

#[test]
fn a_second_scan_of_the_same_state_changes_nothing() {
    let mut engine = engine(2, 2);
    let local = vec![seen("a", 1, 4, 10), seen("b", 2, 4, 10), seen("c", 7, 4, 10)];
    let remote = vec![seen("c", 8, 4, 11), seen("d", 3, 4, 10)];
    engine.scan(&F, &local, &remote, 10).unwrap();
    let pending = engine.stats().files_pending;
    assert_eq!(pending, 3);
    let states: Vec<_> = ["a", "b", "c", "d"].iter().map(|p| engine.path_state(&F, &s(p))).collect();
    engine.scan(&F, &local, &remote, 20).unwrap();
    assert_eq!(engine.stats().files_pending, pending);
    let again: Vec<_> = ["a", "b", "c", "d"].iter().map(|p| engine.path_state(&F, &s(p))).collect();
    assert_eq!(states, again);
    assert_eq!(engine.get_conflicts().len(), 1);
    assert_eq!(engine.index().len(), 0);
}

#[test]
fn a_scan_of_a_folder_in_sync_plans_nothing() {
    let mut engine = engine(2, 2);
    sync_file(&mut engine, "a", 5, 10);
    let both = vec![seen("a", 5, 4, 10)];
    engine.scan(&F, &both, &both, 20).unwrap();
    assert_eq!(engine.stats().files_pending, 0);
    assert!(engine.next_transfer(20).is_none());
    assert_eq!(engine.index().len(), 1);
    assert_eq!(engine.folder_status(&F), Some(SyncFolderStatus::Synced));
}

#[test]
fn excluded_and_oversized_files_are_left_out() {
    let mut engine = engine(2, 2);
    engine
        .update_folder_options(
            &F,
            SyncFolderOptions {
                mode: SyncMode::Bidirectional,
                exclude_patterns: vec![s("secret/**")],
                max_file_size: Some(100),
            },
        )
        .unwrap();
    let local = vec![
        seen("draft.tmp", 1, 4, 10),
        seen("secret/key", 2, 4, 10),
        seen("huge.bin", 3, 101, 10),
        seen("fits.bin", 4, 100, 10),
    ];
    engine.scan(&F, &local, &vec![], 10).unwrap();
    assert_eq!(engine.stats().files_pending, 1);
    assert_eq!(engine.path_status(&F, &s("fits.bin")), Some(SyncFolderStatus::Pending));
    assert_eq!(engine.path_status(&F, &s("draft.tmp")), None);
    assert_eq!(engine.path_status(&F, &s("secret/key")), None);
    assert_eq!(engine.path_status(&F, &s("huge.bin")), None);
}

#[test]
fn new_options_count_from_the_next_scan() {
    let mut engine = engine(2, 2);
    let local = vec![seen("a.log", 1, 4, 10)];
    engine.scan(&F, &local, &vec![], 10).unwrap();
    assert_eq!(engine.stats().files_pending, 1);
    engine
        .update_folder_options(
            &F,
            SyncFolderOptions { mode: SyncMode::Bidirectional, exclude_patterns: vec![s("*.log")], max_file_size: None },
        )
        .unwrap();
    assert_eq!(engine.stats().files_pending, 1);
    engine.scan(&F, &local, &vec![], 20).unwrap();
    assert_eq!(engine.stats().files_pending, 0);
}

#[test]
fn no_more_uploads_run_than_the_configured_number() {
    // Five new local files of 10 MiB, three chunks apiece, two uploads at a time.
    let manager = ChunkManager::new();
    let mut engine = engine(2, 1);
    let names = ["one", "two", "three", "four", "five"];
    let mut records = Vec::new();
    let mut local = Vec::new();
    for (n, name) in names.iter().enumerate() {
        let data = vec![n as u8 + 1; 10 * 1024 * 1024];
        let (record, chunks) = manager.describe(s(name), 10, &data);
        assert_eq!(chunks.len(), 3);
        for chunk in &chunks {
            engine.register_chunk(chunk.address, chunk.data.len() as u64).unwrap();
        }
        local.push(ObservedFile { path: s(name), version: record.version() });
        records.push(record);
    }
    engine.scan(&F, &local, &vec![], 10).unwrap();
    assert_eq!(engine.stats().files_pending, 5);
    let mut running = Vec::new();
    let mut finished = 0;
    while finished < 5 {
        while let Some(task) = engine.next_transfer(10) {
            running.push(task);
        }
        // Exactly two files are in transfer while more than one is left.
        assert_eq!(running.len(), std::cmp::min(2, 5 - finished));
        assert_eq!(engine.active_count(Pool::Uploads), running.len());
        assert!(engine.active_count(Pool::Uploads) <= 2);
        let task = running.remove(0);
        let record = records.iter().find(|r| r.path == task.path).unwrap().clone();
        assert_eq!(
            engine.complete_transfer(&F, &task.path, Outcome::Done, Some(record), s(""), 11),
            Ok(Outcome::Done)
        );
        finished += 1;
    }
    assert!(engine.next_transfer(10).is_none());
    assert_eq!(engine.index().len(), 5);
    for name in names {
        let stored = engine.index().get(&F, &s(name)).unwrap();
        assert_eq!(stored.chunk_manifest.len(), 3);
        assert_eq!(stored.size, 10 * 1024 * 1024);
    }
    assert_eq!(engine.stats().files_synced, 5);
    assert_eq!(engine.stats().bytes_synced, 50 * 1024 * 1024);
    assert_eq!(engine.folder_status(&F), Some(SyncFolderStatus::Synced));
}

#[test]
fn uploads_and_downloads_have_pools_of_their_own() {
    let mut engine = engine(1, 1);
    let local = vec![seen("up1", 1, 4, 10), seen("up2", 2, 4, 10)];
    let remote = vec![seen("down1", 3, 4, 10), seen("down2", 4, 4, 10)];
    engine.scan(&F, &local, &remote, 10).unwrap();
    let first = engine.next_transfer(10).unwrap();
    let second = engine.next_transfer(10).unwrap();
    assert!(engine.next_transfer(10).is_none());
    assert_eq!(first.kind, TransferKind::Upload);
    assert_eq!(first.path, "up1");
    assert_eq!(second.kind, TransferKind::Download);
    assert_eq!(second.path, "down1");
    assert_eq!(engine.active_count(Pool::Uploads), 1);
    assert_eq!(engine.active_count(Pool::Downloads), 1);
}

#[test]
fn a_paused_engine_hands_out_nothing_and_keeps_what_is_under_way() {
    let mut engine = engine(2, 2);
    engine.scan(&F, &vec![seen("a", 1, 4, 10), seen("b", 2, 4, 10)], &vec![], 10).unwrap();
    let task = engine.next_transfer(10).unwrap();
    engine.pause();
    assert!(engine.next_transfer(10).is_none());
    assert_eq!(engine.active_count(Pool::Uploads), 1);
    let rec = record(&mut engine, &task.path, 1, 4, 10);
    assert_eq!(
        engine.complete_transfer(&F, &task.path, Outcome::Done, Some(rec), s(""), 11),
        Ok(Outcome::Done)
    );
    engine.resume();
    assert_eq!(engine.next_transfer(10).unwrap().path, "b");
}

#[test]
fn stop_calls_off_all_transfers_and_leaves_the_index() {
    let mut engine = engine(2, 2);
    sync_file(&mut engine, "kept", 9, 5);
    engine.scan(&F, &vec![seen("kept", 9, 4, 5), seen("a", 1, 4, 10), seen("b", 2, 4, 10)], &vec![], 10).unwrap();
    engine.next_transfer(10).unwrap();
    engine.stop();
    assert_eq!(engine.state(), SyncEngineState::Stopped);
    assert_eq!(engine.active_count(Pool::Uploads), 0);
    assert_eq!(engine.stats().files_pending, 0);
    assert_eq!(engine.index().len(), 1);
    assert_eq!(
        engine.complete_transfer(&F, &s("a"), Outcome::Done, None, s(""), 11),
        Err(SyncError::NoTransfer)
    );
    assert_eq!(engine.index().len(), 1);
}

#[test]
fn completing_what_is_not_under_way_is_refused() {
    let mut engine = engine(2, 2);
    engine.scan(&F, &vec![seen("a", 1, 4, 10)], &vec![], 10).unwrap();
    assert_eq!(
        engine.complete_transfer(&F, &s("a"), Outcome::Done, None, s(""), 11),
        Err(SyncError::NoTransfer)
    );
    assert_eq!(
        engine.complete_transfer(&F, &s("zzz"), Outcome::Transient, None, s(""), 11),
        Err(SyncError::NoTransfer)
    );
}

#[test]
fn a_record_that_is_not_the_targets_is_refused() {
    let mut engine = engine(2, 2);
    engine.scan(&F, &vec![seen("a", 1, 4, 10)], &vec![], 10).unwrap();
    engine.next_transfer(10).unwrap();
    assert_eq!(
        engine.complete_transfer(&F, &s("a"), Outcome::Done, None, s(""), 11),
        Err(SyncError::RecordMismatch)
    );
    let other_content = record(&mut engine, "a", 2, 4, 10);
    assert_eq!(
        engine.complete_transfer(&F, &s("a"), Outcome::Done, Some(other_content), s(""), 11),
        Err(SyncError::RecordMismatch)
    );
    let other_path = record(&mut engine, "b", 1, 4, 10);
    assert_eq!(
        engine.complete_transfer(&F, &s("a"), Outcome::Done, Some(other_path), s(""), 11),
        Err(SyncError::RecordMismatch)
    );
    assert_eq!(engine.path_status(&F, &s("a")), Some(SyncFolderStatus::Syncing));
    assert_eq!(engine.index().len(), 0);
}

#[test]
fn a_record_that_the_index_refuses_fails_on_the_data() {
    let mut engine = engine(2, 2);
    engine.scan(&F, &vec![seen("a", 1, 4, 10)], &vec![], 10).unwrap();
    engine.next_transfer(10).unwrap();
    // The chunk of the manifest was never registered.
    let rec = FileRecord {
        path: s("a"),
        size: 4,
        modified_time: 10,
        content_hash: [1; 32],
        chunk_manifest: vec![[1; 32]],
    };
    assert_eq!(
        engine.complete_transfer(&F, &s("a"), Outcome::Done, Some(rec), s("ignored"), 11),
        Ok(Outcome::Integrity)
    );
    assert_eq!(engine.path_status(&F, &s("a")), Some(SyncFolderStatus::Error));
    assert_eq!(engine.index().len(), 0);
    assert_eq!(engine.stats().files_synced, 0);
    let history = engine.history(5);
    assert_eq!(history.len(), 1);
    assert_eq!(history[0].result, Err(s("the index refused the record")));
}

#[test]
fn three_failures_in_a_row_mark_the_path_failed_and_spare_its_siblings() {
    let mut engine = engine(2, 2);
    engine.scan(&F, &vec![seen("bad", 1, 4, 10), seen("good", 2, 4, 10)], &vec![], 10).unwrap();
    let mut now = 10;
    for attempt in 0..3u32 {
        let task = engine.next_transfer(now).unwrap();
        assert_eq!(task.path, "bad");
        if attempt == 0 {
            // The sibling is transferred while the first attempt is under way.
            let sibling = engine.next_transfer(now).unwrap();
            assert_eq!(sibling.path, "good");
            let rec = record(&mut engine, "good", 2, 4, 10);
            assert_eq!(
                engine.complete_transfer(&F, &s("good"), Outcome::Done, Some(rec), s(""), now),
                Ok(Outcome::Done)
            );
        }
        assert_eq!(task.attempts, attempt);
        assert_eq!(
            engine.complete_transfer(&F, &s("bad"), Outcome::Transient, None, s("network down"), now),
            Ok(Outcome::Transient)
        );
        if attempt < 2 {
            assert_eq!(engine.path_status(&F, &s("bad")), Some(SyncFolderStatus::Pending));
            // The transfer waits out the delay before it starts again.
            assert!(engine.next_transfer(now).is_none());
            now += 1 << attempt;
        }
    }
    assert_eq!(engine.path_status(&F, &s("bad")), Some(SyncFolderStatus::Error));
    assert_eq!(engine.path_status(&F, &s("good")), Some(SyncFolderStatus::Synced));
    assert_eq!(engine.folder_status(&F), Some(SyncFolderStatus::Error));
    assert!(engine.next_transfer(now + 1000).is_none());
    assert!(engine.index().get(&F, &s("good")).is_some());
    assert!(engine.index().get(&F, &s("bad")).is_none());
    let history = engine.history(10);
    assert_eq!(history.len(), 2);
    assert_eq!(history[0].path, "good");
    assert_eq!(history[0].result, Ok(()));
    assert_eq!(history[1].path, "bad");
    assert_eq!(history[1].operation, SyncHistoryOperation::Upload);
    assert_eq!(history[1].result, Err(s("network down")));
    // The same content is not tried again by the next scan; new content is.
    engine.scan(&F, &vec![seen("bad", 1, 4, 10), seen("good", 2, 4, 10)], &vec![seen("good", 2, 4, 10)], now).unwrap();
    assert_eq!(engine.path_status(&F, &s("bad")), Some(SyncFolderStatus::Error));
    engine.scan(&F, &vec![seen("bad", 9, 4, 50), seen("good", 2, 4, 10)], &vec![seen("good", 2, 4, 10)], now).unwrap();
    assert_eq!(engine.path_status(&F, &s("bad")), Some(SyncFolderStatus::Pending));
}

#[test]
fn edits_on_both_sides_raise_a_conflict_and_keep_both_resolves_it() {
    let mut engine = engine(2, 2);
    sync_file(&mut engine, "notes.txt", 1, 10);
    let local = vec![seen("notes.txt", 2, 40, 100)];
    let remote = vec![seen("notes.txt", 3, 60, 200)];
    engine.scan(&F, &local, &remote, 300).unwrap();
    let conflicts = engine.get_conflicts();
    assert_eq!(conflicts.len(), 1);
    assert_eq!(conflicts[0].path, "notes.txt");
    assert_eq!(conflicts[0].local_modified, 100);
    assert_eq!(conflicts[0].remote_modified, 200);
    assert_eq!(conflicts[0].local_size, 40);
    assert_eq!(conflicts[0].remote_size, 60);
    assert_eq!(engine.folder_status(&F), Some(SyncFolderStatus::Conflict));
    assert_eq!(engine.path_status(&F, &s("notes.txt")), Some(SyncFolderStatus::Conflict));
    assert!(engine.next_transfer(300).is_none());
    // Both versions are still there: nothing was moved yet.
    assert_eq!(engine.index().get(&F, &s("notes.txt")).unwrap().content_hash, [1; 32]);
    let before = engine.history(100).len();

    let plan = engine.resolve_conflict(&F, &s("notes.txt"), ConflictResolution::KeepBoth, 310).unwrap();
    assert_eq!(plan.keep_copy, Some(s("notes.txt.conflict")));
    assert_eq!(plan.target, version(3, 60, 200));
    assert!(engine.get_conflicts().is_empty());
    assert_ne!(engine.folder_status(&F), Some(SyncFolderStatus::Conflict));
    let history = engine.history(100);
    assert_eq!(history.len(), before + 2);
    assert_eq!(history[before].path, "notes.txt");
    assert_eq!(history[before].operation, SyncHistoryOperation::ConflictResolved);
    assert_eq!(history[before + 1].path, "notes.txt.conflict");
    assert_eq!(history[before + 1].operation, SyncHistoryOperation::ConflictResolved);

    // The remote version comes down under the name of the conflict.
    let task = engine.next_transfer(310).unwrap();
    assert_eq!(task.path, "notes.txt");
    assert_eq!(task.kind, TransferKind::Download);
    assert_eq!(task.target, Some(version(3, 60, 200)));
    // A scan in between does not raise the conflict again.
    engine.scan(&F, &local, &remote, 311).unwrap();
    assert!(engine.get_conflicts().is_empty());
    let rec = record(&mut engine, "notes.txt", 3, 60, 200);
    engine.complete_transfer(&F, &s("notes.txt"), Outcome::Done, Some(rec), s(""), 312).unwrap();
    assert_eq!(engine.path_status(&F, &s("notes.txt")), Some(SyncFolderStatus::Synced));

    // The copy holds the local version and goes up as a new file.
    let local = vec![seen("notes.txt", 3, 60, 200), seen("notes.txt.conflict", 2, 40, 100)];
    engine.scan(&F, &local, &vec![seen("notes.txt", 3, 60, 200)], 320).unwrap();
    let task = engine.next_transfer(320).unwrap();
    assert_eq!(task.path, "notes.txt.conflict");
    assert_eq!(task.kind, TransferKind::Upload);
    let rec = record(&mut engine, "notes.txt.conflict", 2, 40, 100);
    engine.complete_transfer(&F, &s("notes.txt.conflict"), Outcome::Done, Some(rec), s(""), 321).unwrap();
    assert_eq!(engine.index().len(), 2);
    assert_eq!(engine.folder_status(&F), Some(SyncFolderStatus::Synced));
}

#[test]
fn keep_local_and_keep_remote_queue_one_transfer_each() {
    for (resolution, kind, hash) in [
        (ConflictResolution::KeepLocal, TransferKind::Upload, 2u8),
        (ConflictResolution::KeepRemote, TransferKind::Download, 3u8),
    ] {
        let mut engine = engine(2, 2);
        engine.scan(&F, &vec![seen("a", 2, 4, 10)], &vec![seen("a", 3, 4, 11)], 20).unwrap();
        let before = engine.history(100).len();
        let plan = engine.resolve_conflict(&F, &s("a"), resolution, 21).unwrap();
        assert_eq!(plan.keep_copy, None);
        assert_eq!(engine.history(100).len(), before + 1);
        let task = engine.next_transfer(21).unwrap();
        assert_eq!(task.kind, kind);
        assert_eq!(task.target.unwrap().content_hash, [hash; 32]);
    }
}

#[test]
fn resolving_is_refused_where_there_is_nothing_to_resolve() {
    let mut engine = engine(2, 2);
    assert_eq!(
        engine.resolve_conflict(&F, &s("a"), ConflictResolution::KeepLocal, 1).err(),
        Some(SyncError::NoConflict)
    );
    engine.scan(&F, &vec![seen("a", 2, 4, 10), seen("a.conflict", 5, 4, 10)], &vec![seen("a", 3, 4, 11)], 20).unwrap();
    assert_eq!(
        engine.resolve_conflict(&F, &s("a"), ConflictResolution::KeepBoth, 21).err(),
        Some(SyncError::CopyPathTaken)
    );
    assert_eq!(engine.get_conflicts().len(), 1);
    assert!(engine.resolve_conflict(&F, &s("a"), ConflictResolution::KeepLocal, 21).is_ok());
}

#[test]
fn all_conflicts_are_resolved_or_none() {
    let mut engine = engine(2, 2);
    let local = vec![seen("a", 2, 4, 10), seen("b", 4, 4, 10), seen("b.conflict", 9, 4, 10)];
    let remote = vec![seen("a", 3, 4, 11), seen("b", 5, 4, 11)];
    engine.scan(&F, &local, &remote, 20).unwrap();
    assert_eq!(engine.get_conflicts().len(), 2);
    let before = engine.history(100).len();
    // The copy of `b` cannot be made, so nothing is resolved.
    assert_eq!(
        engine.resolve_all_conflicts(ConflictResolution::KeepBoth, 21).err(),
        Some(SyncError::CopyPathTaken)
    );
    assert_eq!(engine.get_conflicts().len(), 2);
    assert_eq!(engine.history(100).len(), before);
    let done = engine.resolve_all_conflicts(ConflictResolution::KeepRemote, 22).unwrap();
    assert_eq!(done.len(), 2);
    assert!(engine.get_conflicts().is_empty());
    // One record for each path that was resolved.
    let history = engine.history(100);
    assert_eq!(history.len(), before + 2);
    let mut paths: Vec<_> = history[before..].iter().map(|e| e.path.clone()).collect();
    paths.sort();
    assert_eq!(paths, vec!["a", "b"]);
    assert!(history[before..].iter().all(|e| e.operation == SyncHistoryOperation::ConflictResolved));
    assert_eq!(engine.resolve_all_conflicts(ConflictResolution::KeepLocal, 23).unwrap().len(), 0);
}

#[test]
fn deletions_drop_the_record_when_carried_out() {
    let mut engine = engine(2, 2);
    sync_file(&mut engine, "a", 5, 10);
    engine.scan(&F, &vec![], &vec![seen("a", 5, 4, 10)], 20).unwrap();
    let task = engine.next_transfer(20).unwrap();
    assert_eq!(task.kind, TransferKind::DeleteRemote);
    assert_eq!(task.target, None);
    assert_eq!(
        engine.complete_transfer(&F, &s("a"), Outcome::Done, None, s(""), 21),
        Ok(Outcome::Done)
    );
    assert_eq!(engine.index().len(), 0);
    assert_eq!(engine.index().reference_count(&[5; 32]), 0);
    assert_eq!(engine.path_status(&F, &s("a")), None);
    let history = engine.history(1);
    assert_eq!(history[0].operation, SyncHistoryOperation::DeleteRemote);
}

#[test]
fn a_file_gone_on_both_sides_is_forgotten_without_history() {
    let mut engine = engine(2, 2);
    sync_file(&mut engine, "a", 5, 10);
    let before = engine.history(100).len();
    engine.scan(&F, &vec![], &vec![], 20).unwrap();
    let task = engine.next_transfer(20).unwrap();
    assert_eq!(task.kind, TransferKind::Forget);
    engine.complete_transfer(&F, &s("a"), Outcome::Done, None, s(""), 21).unwrap();
    assert_eq!(engine.index().len(), 0);
    assert_eq!(engine.history(100).len(), before);
}

#[test]
fn remove_folder_drops_paths_and_records() {
    let mut engine = engine(2, 2);
    engine.add_folder(G, s("/b"), s("b"), true, SyncFolderOptions::default()).unwrap();
    sync_file(&mut engine, "kept", 5, 10);
    engine.scan(&F, &vec![seen("kept", 5, 4, 10), seen("new", 6, 4, 10)], &vec![seen("kept", 5, 4, 10)], 20).unwrap();
    engine.scan(&G, &vec![seen("other", 7, 4, 10)], &vec![], 20).unwrap();
    assert_eq!(engine.remove_folder(&F), Ok(vec![s("kept")]));
    assert_eq!(engine.list_folders().len(), 1);
    assert_eq!(engine.list_folders()[0].id, G);
    assert_eq!(engine.index().len(), 0);
    assert_eq!(engine.path_status(&F, &s("new")), None);
    assert_eq!(engine.path_status(&G, &s("other")), Some(SyncFolderStatus::Pending));
    assert_eq!(engine.stats().files_pending, 1);
}

#[test]
fn history_keeps_the_most_recent_records() {
    let mut engine = engine(1, 1);
    for n in 0..5u8 {
        sync_file(&mut engine, &format!("f{}", n), n + 1, 10 + n as i64);
    }
    let all = engine.history(100);
    assert_eq!(all.len(), 5);
    let last_two = engine.history(2);
    assert_eq!(last_two.len(), 2);
    assert_eq!(last_two[0].path, "f3");
    assert_eq!(last_two[1].path, "f4");
    assert!(engine.history(0).is_empty());
}

#[test]
fn the_first_observation_of_a_path_counts() {
    let observed = vec![seen("a", 1, 4, 10), seen("b", 2, 4, 10), seen("a", 3, 4, 10)];
    assert_eq!(look_up(&observed, &s("a")), Some(version(1, 4, 10)));
    assert_eq!(look_up(&observed, &s("b")), Some(version(2, 4, 10)));
    assert_eq!(look_up(&observed, &s("c")), None);
}

#[test]
fn counters_stop_at_the_largest_number() {
    assert_eq!(add_capped(1, 2), 3);
    assert_eq!(add_capped(u64::MAX, 1), u64::MAX);
    assert_eq!(add_capped(u64::MAX - 1, 1), u64::MAX);
    assert_eq!(add_capped(5, u64::MAX - 4), u64::MAX);
}
