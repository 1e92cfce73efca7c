use saorsa_sync::config::{copy_strings, NodeConfig, SyncConfig, UiConfig, WalletConfig};
use saorsa_sync::error::{Error, ErrorKind};
use saorsa_sync::events::{create_event_bus, AppEvent, EventBus, DEFAULT_CAPACITY};
use saorsa_sync::glob::{chars_of, glob_match, is_excluded, last_segment};
use saorsa_sync::services::sync::{SyncFolderOptions, SyncHistoryEntry, SyncHistoryOperation, SyncMode};
use saorsa_sync::session::{lock_due, SessionManager, SessionState, DEFAULT_TIMEOUT_SECONDS};
use saorsa_sync::state::{SyncFolder, SyncFolderStatus, SyncStats};
use saorsa_sync::watcher::{ChangeKind, FileWatcher, DEFAULT_DEBOUNCE_SECONDS};
use std::time::Duration;

fn glob(pattern: &str, text: &str) -> bool {
    glob_match(&chars_of(pattern), &chars_of(text))
}

fn s(text: &str) -> String {
    String::from(text)
}

#[test]
fn glob_literals_match_themselves_only() {
    assert!(glob("", ""));
    assert!(!glob("", "a"));
    assert!(glob("Thumbs.db", "Thumbs.db"));
    assert!(!glob("Thumbs.db", "Thumbs.dbx"));
    assert!(!glob("Thumbs.db", "thumbs.db"));
    assert!(!glob("abc", "ab"));
}

#[test]
fn glob_star_stays_within_a_segment() {
    assert!(glob("*.tmp", "a.tmp"));
    assert!(glob("*.tmp", ".tmp"));
    assert!(!glob("*.tmp", "dir/a.tmp"));
    assert!(!glob("*.tmp", "a.tmpx"));
    assert!(glob("a*c", "abbbc"));
    assert!(glob("a*c", "ac"));
    assert!(!glob("a*c", "a/c"));
    assert!(glob("*", ""));
    assert!(glob("a*b*c", "aXbXbYc"));
}

#[test]
fn glob_double_star_crosses_segments() {
    assert!(glob(".git/**", ".git/"));
    assert!(glob(".git/**", ".git/objects/ab/cdef"));
    assert!(!glob(".git/**", ".git"));
    assert!(!glob(".git/**", "x/.git/config"));
    assert!(glob("**/*.rs", "src/a/b.rs"));
    assert!(glob("**", "anything/at/all"));
}

#[test]
fn glob_question_mark_is_one_character_of_a_segment() {
    assert!(glob("a?c", "abc"));
    assert!(!glob("a?c", "ac"));
    assert!(!glob("a?c", "a/c"));
    assert!(glob("?", "é"));
}

#[test]
fn last_segment_is_what_follows_the_last_slash() {
    let name = |p: &str| -> String { last_segment(&chars_of(p)).into_iter().collect() };
    assert_eq!(name("a/b/c.txt"), "c.txt");
    assert_eq!(name("c.txt"), "c.txt");
    assert_eq!(name("a/b/"), "");
    assert_eq!(name(""), "");
}

#[test]
fn patterns_without_a_directory_match_in_any_directory() {
    let patterns = SyncConfig::default().exclude_patterns;
    assert!(is_excluded(&patterns, "a.tmp"));
    assert!(is_excluded(&patterns, "deep/down/a.tmp"));
    assert!(is_excluded(&patterns, "photos/.DS_Store"));
    assert!(is_excluded(&patterns, "Thumbs.db"));
    assert!(is_excluded(&patterns, ".git/HEAD"));
    assert!(!is_excluded(&patterns, "sub/.git/HEAD"));
    assert!(!is_excluded(&patterns, "notes.txt"));
    assert!(!is_excluded(&Vec::new(), "a.tmp"));
}

#[test]
fn default_configuration_has_the_documented_values() {
    let sync = SyncConfig::default();
    assert_eq!(sync.max_concurrent_uploads, 8);
    assert_eq!(sync.max_concurrent_downloads, 16);
    assert_eq!(sync.sync_interval_seconds, 60);
    assert_eq!(sync.exclude_patterns, vec!["*.tmp", ".DS_Store", "Thumbs.db", ".git/**"]);
    let copy = sync.clone();
    assert_eq!(copy.exclude_patterns, sync.exclude_patterns);
    assert_eq!(copy_strings(&sync.exclude_patterns), sync.exclude_patterns);
    let node = NodeConfig::default();
    assert!(node.embedded);
    assert_eq!(node.port, 0);
    assert!(node.bootstrap_peers.is_empty());
    let ui = UiConfig::default();
    assert_eq!(ui.theme, "system");
    assert_eq!((ui.window_width, ui.window_height), (1280, 800));
    let wallet = WalletConfig::default();
    assert_eq!(wallet.auto_lock_seconds, 900);
    assert_eq!(wallet.vault_path, None);
    assert_eq!(wallet.auto_lock_timeout(), Duration::from_secs(900));
    let other = WalletConfig { auto_lock_seconds: 7, vault_path: None };
    assert_eq!(other.auto_lock_timeout(), Duration::from_secs(7));
}

#[test]
fn default_folder_options_sync_both_ways_without_limits() {
    let options = SyncFolderOptions::default();
    assert_eq!(options.mode, SyncMode::Bidirectional);
    assert!(options.exclude_patterns.is_empty());
    assert_eq!(options.max_file_size, None);
    assert_eq!(SyncMode::default(), SyncMode::Bidirectional);
    assert_eq!(SyncFolderStatus::default(), SyncFolderStatus::Synced);
    let copy = SyncFolderOptions { mode: SyncMode::UploadOnly, exclude_patterns: vec![s("x")], max_file_size: Some(3) }.clone();
    assert_eq!(copy.mode, SyncMode::UploadOnly);
    assert_eq!(copy.exclude_patterns, vec!["x"]);
    assert_eq!(copy.max_file_size, Some(3));
}

#[test]
fn shared_types_copy_by_value() {
    let folder = SyncFolder { id: [3; 16], local_path: s("/x"), name: s("x"), last_sync: 9, status: SyncFolderStatus::Error };
    let copy = folder.clone();
    assert_eq!(copy.id, [3; 16]);
    assert_eq!(copy.local_path, "/x");
    assert_eq!(copy.name, "x");
    assert_eq!(copy.last_sync, 9);
    assert_eq!(copy.status, SyncFolderStatus::Error);
    let entry = SyncHistoryEntry { path: s("p"), operation: SyncHistoryOperation::Download, timestamp: 4, result: Err(s("why")) };
    let copy = entry.clone();
    assert_eq!(copy.path, "p");
    assert_eq!(copy.operation, SyncHistoryOperation::Download);
    assert_eq!(copy.timestamp, 4);
    assert_eq!(copy.result, Err(s("why")));
    assert_eq!(SyncStats::default().files_synced, 0);
}

#[test]
fn errors_name_their_layer() {
    let cases = [
        (ErrorKind::Config, "Configuration error: x"),
        (ErrorKind::Network, "Network error: x"),
        (ErrorKind::Crypto, "Cryptographic error: x"),
        (ErrorKind::Storage, "Storage error: x"),
        (ErrorKind::Serialization, "Serialization error: x"),
        (ErrorKind::FileSystem, "File system error: x"),
        (ErrorKind::Wallet, "Wallet error: x"),
        (ErrorKind::Sync, "Sync error: x"),
        (ErrorKind::Media, "Media error: x"),
        (ErrorKind::Migration, "Migration error: x"),
        (ErrorKind::Internal, "Internal error: x"),
    ];
    for (kind, text) in cases {
        let error = Error::new(kind, s("x"));
        assert_eq!(error.kind(), kind);
        assert_eq!(error.detail(), "x");
        assert_eq!(error.message(), text);
    }
    assert_eq!(Error::Sync(s("folder not found")).message(), "Sync error: folder not found");
}

#[test]
fn watcher_hands_on_one_change_for_a_burst() {
    let mut watcher = FileWatcher::new();
    assert_eq!(DEFAULT_DEBOUNCE_SECONDS, 2);
    assert!(watcher.record(s("a.txt"), ChangeKind::Created, 100));
    assert!(watcher.record(s("a.txt"), ChangeKind::Modified, 101));
    assert!(watcher.record(s("a.txt"), ChangeKind::Modified, 102));
    assert_eq!(watcher.pending_len(), 1);
    // Not quiet for the whole window yet.
    assert!(watcher.drain(103).is_empty());
    assert_eq!(watcher.pending_len(), 1);
    let events = watcher.drain(104);
    assert_eq!(events.len(), 1);
    assert_eq!(events[0].path, "a.txt");
    assert_eq!(events[0].kind, ChangeKind::Modified);
    assert_eq!(watcher.pending_len(), 0);
    assert!(watcher.drain(200).is_empty());
}

#[test]
fn watcher_keeps_the_order_and_holds_back_what_is_not_quiet() {
    let mut watcher = FileWatcher::with_options(10, 60, Vec::new());
    watcher.record(s("a"), ChangeKind::Created, 100);
    watcher.record(s("b"), ChangeKind::Deleted, 105);
    watcher.record(s("c"), ChangeKind::Renamed, 101);
    let events = watcher.drain(111);
    let got: Vec<(String, ChangeKind)> = events.into_iter().map(|e| (e.path, e.kind)).collect();
    assert_eq!(got, vec![(s("a"), ChangeKind::Created), (s("c"), ChangeKind::Renamed)]);
    assert_eq!(watcher.pending_len(), 1);
    let events = watcher.drain(115);
    assert_eq!(events.len(), 1);
    assert_eq!(events[0].path, "b");
    assert_eq!(events[0].kind, ChangeKind::Deleted);
}

#[test]
fn watcher_drops_excluded_paths() {
    let mut watcher = FileWatcher::with_options(0, 60, vec![s("*.tmp"), s(".git/**")]);
    assert!(!watcher.record(s("a.tmp"), ChangeKind::Created, 1));
    assert!(!watcher.record(s("x/y/a.tmp"), ChangeKind::Created, 1));
    assert!(!watcher.record(s(".git/HEAD"), ChangeKind::Modified, 1));
    assert!(watcher.record(s("a.txt"), ChangeKind::Created, 1));
    assert_eq!(watcher.pending_len(), 1);
    let events = watcher.drain(1);
    assert_eq!(events.len(), 1);
    assert_eq!(events[0].path, "a.txt");
}

#[test]
fn watcher_falls_back_to_full_scans() {
    let mut watcher = FileWatcher::with_options(2, 300, Vec::new());
    assert!(!watcher.is_degraded());
    assert!(!watcher.poll_rescan(10_000));
    assert!(watcher.degrade(1000));
    assert!(watcher.is_degraded());
    // The mode is news once.
    assert!(!watcher.degrade(1001));
    assert!(!watcher.poll_rescan(1299));
    assert!(watcher.poll_rescan(1300));
    assert!(!watcher.poll_rescan(1301));
    assert!(watcher.poll_rescan(1600));
    assert!(!FileWatcher::default().is_degraded());
}

#[test]
fn bus_hands_every_event_to_every_subscriber_in_order() {
    let mut bus = EventBus::new(4);
    let a = bus.subscribe();
    let b = bus.subscribe();
    assert_eq!((a, b), (0, 1));
    assert_eq!(bus.subscriber_count(), 2);
    bus.publish(AppEvent::SyncStarted { path: s("x") });
    bus.publish(AppEvent::SyncProgress { completed: 1, total: 2 });
    for id in [a, b] {
        match bus.poll(id) {
            Some(AppEvent::SyncStarted { path }) => assert_eq!(path, "x"),
            other => panic!("unexpected event {:?}", other),
        }
        match bus.poll(id) {
            Some(AppEvent::SyncProgress { completed, total }) => assert_eq!((completed, total), (1, 2)),
            other => panic!("unexpected event {:?}", other),
        }
        assert!(bus.poll(id).is_none());
    }
    assert!(bus.poll(7).is_none());
}

#[test]
fn a_slow_subscriber_loses_its_oldest_events() {
    let mut bus = EventBus::new(2);
    let slow = bus.subscribe();
    for n in 0..5u64 {
        bus.publish(AppEvent::SyncProgress { completed: n, total: 5 });
    }
    let mut seen = Vec::new();
    while let Some(AppEvent::SyncProgress { completed, .. }) = bus.poll(slow) {
        seen.push(completed);
    }
    assert_eq!(seen, vec![3, 4]);
    // A subscriber gets what is published after it subscribed.
    let late = bus.subscribe();
    assert!(bus.poll(late).is_none());
    bus.publish(AppEvent::NodeStarted);
    assert!(matches!(bus.poll(late), Some(AppEvent::NodeStarted)));
}

#[test]
fn a_bus_without_room_delivers_nothing_and_never_blocks() {
    let mut bus = EventBus::new(0);
    let id = bus.subscribe();
    bus.publish(AppEvent::WalletLocked);
    assert!(bus.poll(id).is_none());
    let mut unheard = EventBus::default();
    unheard.publish(AppEvent::NodeStopped);
    assert_eq!(unheard.subscriber_count(), 0);
    assert_eq!(DEFAULT_CAPACITY, 256);
    assert_eq!(create_event_bus().subscriber_count(), 0);
}

#[test]
fn events_copy_by_value() {
    let event = AppEvent::SyncConflict { path: s("p"), local_modified: 1, remote_modified: 2 };
    match event.clone() {
        AppEvent::SyncConflict { path, local_modified, remote_modified } => {
            assert_eq!(path, "p");
            assert_eq!((local_modified, remote_modified), (1, 2));
        }
        other => panic!("unexpected event {:?}", other),
    }
    match (AppEvent::Toast { message: s("m"), level: s("info") }).clone() {
        AppEvent::Toast { message, level } => assert_eq!((message.as_str(), level.as_str()), ("m", "info")),
        other => panic!("unexpected event {:?}", other),
    }
}

#[test]
fn only_an_unlocked_session_that_was_idle_long_enough_locks() {
    assert!(lock_due(SessionState::Unlocked, 10, 10));
    assert!(lock_due(SessionState::Unlocked, 11, 10));
    assert!(!lock_due(SessionState::Unlocked, 9, 10));
    assert!(!lock_due(SessionState::Locked, 100, 10));
    assert!(!lock_due(SessionState::Unlocking, 100, 10));
    assert!(!lock_due(SessionState::Locking, 100, 10));
}

#[test]
fn session_manager_starts_locked() {
    let mut manager = SessionManager::new(Duration::from_secs(0));
    assert_eq!(manager.state(), SessionState::Locked);
    assert!(!manager.should_lock());
    manager.set_state(SessionState::Unlocked);
    assert_eq!(manager.state(), SessionState::Unlocked);
    // With no timeout at all the session is due at once.
    assert!(manager.should_lock());
    manager.touch();
    assert_eq!(manager.state(), SessionState::Unlocked);
    let mut patient = SessionManager::default();
    assert_eq!(DEFAULT_TIMEOUT_SECONDS, 900);
    patient.set_state(SessionState::Unlocked);
    assert!(!patient.should_lock());
}

#[test]
fn the_default_key_derivation_costs_256_mib_and_four_rounds() {
    let params = saorsa_sync::vault::Argon2Params::default();
    assert_eq!(params.m_cost, 262_144);
    assert_eq!(params.t_cost, 4);
    assert_eq!(params.p_cost, 4);
    assert_eq!(params.output_len, 32);
}

#[test]
fn a_vault_remembers_its_path() {
    let vault = saorsa_sync::vault::Vault::new(String::from("/home/user/.saorsa/wallet.vault"));
    assert_eq!(vault.path(), "/home/user/.saorsa/wallet.vault");
}
