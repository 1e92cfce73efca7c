use saorsa_sync::conflict::{
    content_matches, ConflictResolver, Sighting, SyncDecision,
};
use saorsa_sync::index::FileVersion;
use saorsa_sync::services::sync::{ConflictResolution, SyncMode};

fn v(hash: u8, time: i64) -> Option<FileVersion> {
    Some(FileVersion { content_hash: [hash; 32], size: hash as u64 * 10, modified_time: time })
}

fn decide(mode: SyncMode, base: Option<FileVersion>, local: Option<FileVersion>, remote: Option<FileVersion>) -> SyncDecision {
    ConflictResolver::new().decide(mode, base, Sighting { local, remote })
}

#[test]
fn nothing_changed_is_unchanged() {
    assert_eq!(decide(SyncMode::Bidirectional, v(1, 1), v(1, 1), v(1, 1)), SyncDecision::Unchanged);
    assert_eq!(decide(SyncMode::Bidirectional, None, None, None), SyncDecision::Unchanged);
    // A new modification time with the same content is no change.
    assert_eq!(decide(SyncMode::Bidirectional, v(1, 1), v(1, 5), v(1, 9)), SyncDecision::Unchanged);
}

#[test]
fn a_local_change_is_uploaded() {
    assert_eq!(decide(SyncMode::Bidirectional, v(1, 1), v(2, 2), v(1, 1)), SyncDecision::Upload);
    assert_eq!(decide(SyncMode::Bidirectional, None, v(2, 2), None), SyncDecision::Upload);
}

#[test]
fn a_remote_change_is_downloaded() {
    assert_eq!(decide(SyncMode::Bidirectional, v(1, 1), v(1, 1), v(3, 2)), SyncDecision::Download);
    assert_eq!(decide(SyncMode::Bidirectional, None, None, v(3, 2)), SyncDecision::Download);
}

#[test]
fn the_same_edit_on_both_sides_is_adopted() {
    assert_eq!(decide(SyncMode::Bidirectional, v(1, 1), v(2, 2), v(2, 3)), SyncDecision::Adopt);
    assert_eq!(decide(SyncMode::Bidirectional, None, v(2, 2), v(2, 3)), SyncDecision::Adopt);
}

#[test]
fn different_edits_are_a_conflict() {
    assert_eq!(decide(SyncMode::Bidirectional, v(1, 1), v(2, 2), v(3, 3)), SyncDecision::Conflict);
    assert_eq!(decide(SyncMode::Bidirectional, None, v(2, 2), v(3, 3)), SyncDecision::Conflict);
}

#[test]
fn deletions_are_carried_over() {
    assert_eq!(decide(SyncMode::Bidirectional, v(1, 1), None, v(1, 1)), SyncDecision::DeleteRemote);
    assert_eq!(decide(SyncMode::Bidirectional, v(1, 1), v(1, 1), None), SyncDecision::DeleteLocal);
    assert_eq!(decide(SyncMode::Bidirectional, v(1, 1), None, None), SyncDecision::Forget);
}

#[test]
fn an_edit_beats_a_deletion() {
    assert_eq!(decide(SyncMode::Bidirectional, v(1, 1), None, v(3, 3)), SyncDecision::Download);
    assert_eq!(decide(SyncMode::Bidirectional, v(1, 1), v(2, 2), None), SyncDecision::Upload);
}

#[test]
fn an_upload_only_folder_takes_no_notice_of_the_remote_side() {
    assert_eq!(decide(SyncMode::UploadOnly, v(1, 1), v(1, 1), v(3, 3)), SyncDecision::Unchanged);
    assert_eq!(decide(SyncMode::UploadOnly, v(1, 1), v(2, 2), v(3, 3)), SyncDecision::Upload);
    assert_eq!(decide(SyncMode::UploadOnly, v(1, 1), None, v(3, 3)), SyncDecision::DeleteRemote);
    assert_eq!(decide(SyncMode::UploadOnly, None, None, v(3, 3)), SyncDecision::Unchanged);
}

#[test]
fn a_download_only_folder_takes_no_notice_of_the_local_side() {
    assert_eq!(decide(SyncMode::DownloadOnly, v(1, 1), v(2, 2), v(1, 1)), SyncDecision::Unchanged);
    assert_eq!(decide(SyncMode::DownloadOnly, v(1, 1), v(2, 2), v(3, 3)), SyncDecision::Download);
    assert_eq!(decide(SyncMode::DownloadOnly, v(1, 1), v(2, 2), None), SyncDecision::DeleteLocal);
    assert_eq!(decide(SyncMode::DownloadOnly, None, v(2, 2), None), SyncDecision::Unchanged);
}

#[test]
fn the_order_in_which_the_sides_are_seen_makes_no_difference() {
    let resolver = ConflictResolver::new();
    let local_first = Sighting::new().with_local(v(2, 20)).with_remote(v(3, 30));
    let remote_first = Sighting::new().with_remote(v(3, 30)).with_local(v(2, 20));
    let a = resolver.decide(SyncMode::Bidirectional, v(1, 1), local_first);
    let b = resolver.decide(SyncMode::Bidirectional, v(1, 1), remote_first);
    assert_eq!(a, SyncDecision::Conflict);
    assert_eq!(a, b);
    let path = String::from("p.txt");
    for resolution in [ConflictResolution::KeepLocal, ConflictResolution::KeepRemote, ConflictResolution::KeepBoth] {
        let one = resolver.plan(&path, &local_first.local.unwrap(), &local_first.remote.unwrap(), resolution);
        let two = resolver.plan(&path, &remote_first.local.unwrap(), &remote_first.remote.unwrap(), resolution);
        assert_eq!(one.keep_copy, two.keep_copy);
        assert_eq!(one.transfer, two.transfer);
        assert_eq!(one.target, two.target);
    }
}

#[test]
fn a_conflict_carries_the_times_and_sizes_of_both_sides() {
    let resolver = ConflictResolver::default();
    let conflict = resolver.describe(&String::from("notes.txt"), &v(2, 20).unwrap(), &v(3, 30).unwrap());
    assert_eq!(conflict.path, "notes.txt");
    assert_eq!(conflict.local_modified, 20);
    assert_eq!(conflict.remote_modified, 30);
    assert_eq!(conflict.local_size, 20);
    assert_eq!(conflict.remote_size, 30);
    let copy = conflict.clone();
    assert_eq!(copy.path, "notes.txt");
}

#[test]
fn keep_local_uploads_the_local_version() {
    let plan = ConflictResolver::new().plan(&String::from("a"), &v(2, 2).unwrap(), &v(3, 3).unwrap(), ConflictResolution::KeepLocal);
    assert_eq!(plan.keep_copy, None);
    assert_eq!(plan.transfer, SyncDecision::Upload);
    assert_eq!(plan.target, v(2, 2).unwrap());
}

#[test]
fn keep_remote_downloads_the_remote_version() {
    let plan = ConflictResolver::new().plan(&String::from("a"), &v(2, 2).unwrap(), &v(3, 3).unwrap(), ConflictResolution::KeepRemote);
    assert_eq!(plan.keep_copy, None);
    assert_eq!(plan.transfer, SyncDecision::Download);
    assert_eq!(plan.target, v(3, 3).unwrap());
}

#[test]
fn keep_both_moves_the_local_file_aside_and_downloads() {
    let resolver = ConflictResolver::new();
    let plan = resolver.plan(&String::from("notes.txt"), &v(2, 2).unwrap(), &v(3, 3).unwrap(), ConflictResolution::KeepBoth);
    assert_eq!(plan.keep_copy, Some(String::from("notes.txt.conflict")));
    assert_eq!(plan.transfer, SyncDecision::Download);
    assert_eq!(plan.target, v(3, 3).unwrap());
    assert_eq!(resolver.copy_name(&String::from("a/b")), "a/b.conflict");
}

#[test]
fn content_is_compared_by_hash_alone() {
    assert!(content_matches(&None, &None));
    assert!(content_matches(&v(1, 1), &v(1, 99)));
    assert!(!content_matches(&v(1, 1), &v(2, 1)));
    assert!(!content_matches(&v(1, 1), &None));
    assert!(!content_matches(&None, &v(1, 1)));
}
