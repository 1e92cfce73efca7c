use saorsa_sync::conflict::{Sighting, SyncDecision};
use saorsa_sync::index::FileVersion;
use saorsa_sync::plan::{
    finished, later, pool, resolved, same_target, same_wanted, settle, started, status, wanted,
    Job, Outcome, PathState, Pool, RetryPolicy, TransferKind, Wanted,
};
use saorsa_sync::state::SyncFolderStatus;

fn v(hash: u8) -> FileVersion {
    FileVersion { content_hash: [hash; 32], size: 1, modified_time: 1 }
}

fn idle() -> PathState {
    PathState { job: None, clash: None, failed: None }
}

fn active_upload(attempts: u32) -> PathState {
    PathState {
        job: Some(Job {
            kind: TransferKind::Upload,
            target: Some(v(2)),
            attempts,
            not_before: 0,
            active: true,
            resolution: false,
            ticket: 4,
        }),
        clash: None,
        failed: None,
    }
}

#[test]
fn backoff_doubles_up_to_the_longest_wait() {
    let policy = RetryPolicy::new();
    assert_eq!(policy, RetryPolicy { max_attempts: 3, base_delay: 1, max_delay: 60 });
    assert_eq!(RetryPolicy::default(), policy);
    let delays: Vec<u32> = (0..9).map(|n| policy.backoff(n)).collect();
    assert_eq!(delays, vec![1, 2, 4, 8, 16, 32, 60, 60, 60]);
    let odd = RetryPolicy { max_attempts: 5, base_delay: 7, max_delay: 20 };
    assert_eq!(odd.backoff(0), 7);
    assert_eq!(odd.backoff(1), 14);
    assert_eq!(odd.backoff(2), 20);
    let capped = RetryPolicy { max_attempts: 5, base_delay: 90, max_delay: 20 };
    assert_eq!(capped.backoff(0), 20);
    let none = RetryPolicy { max_attempts: 5, base_delay: 0, max_delay: 20 };
    assert_eq!(none.backoff(10), 0);
}

#[test]
fn later_adds_seconds_and_stops_at_the_latest_time() {
    assert_eq!(later(100, 5), 105);
    assert_eq!(later(-3, 5), 2);
    assert_eq!(later(i64::MAX - 2, 5), i64::MAX);
    assert_eq!(later(i64::MAX - 5, 5), i64::MAX);
}

#[test]
fn pools_are_told_apart_by_what_a_transfer_writes() {
    assert_eq!(pool(TransferKind::Upload), Pool::Uploads);
    assert_eq!(pool(TransferKind::DeleteRemote), Pool::Uploads);
    assert_eq!(pool(TransferKind::Adopt), Pool::Uploads);
    assert_eq!(pool(TransferKind::Forget), Pool::Uploads);
    assert_eq!(pool(TransferKind::Download), Pool::Downloads);
    assert_eq!(pool(TransferKind::DeleteLocal), Pool::Downloads);
}

#[test]
fn each_decision_calls_for_its_transfer() {
    let s = Sighting { local: Some(v(2)), remote: Some(v(3)) };
    assert_eq!(wanted(SyncDecision::Upload, &s), Some(Wanted { kind: TransferKind::Upload, target: Some(v(2)) }));
    assert_eq!(wanted(SyncDecision::Download, &s), Some(Wanted { kind: TransferKind::Download, target: Some(v(3)) }));
    assert_eq!(wanted(SyncDecision::Adopt, &s), Some(Wanted { kind: TransferKind::Adopt, target: Some(v(2)) }));
    assert_eq!(wanted(SyncDecision::Forget, &s), Some(Wanted { kind: TransferKind::Forget, target: None }));
    assert_eq!(wanted(SyncDecision::DeleteLocal, &s), Some(Wanted { kind: TransferKind::DeleteLocal, target: None }));
    assert_eq!(wanted(SyncDecision::DeleteRemote, &s), Some(Wanted { kind: TransferKind::DeleteRemote, target: None }));
    assert_eq!(wanted(SyncDecision::Unchanged, &s), None);
    assert_eq!(wanted(SyncDecision::Conflict, &s), None);
}

#[test]
fn settling_queues_a_job_once() {
    let s = Sighting { local: Some(v(2)), remote: None };
    let once = settle(&idle(), SyncDecision::Upload, &s, 100, 7);
    let job = once.job.unwrap();
    assert_eq!(job.kind, TransferKind::Upload);
    assert_eq!(job.target, Some(v(2)));
    assert_eq!(job.attempts, 0);
    assert_eq!(job.not_before, 100);
    assert!(!job.active);
    assert!(!job.resolution);
    assert_eq!(job.ticket, 7);
    let twice = settle(&once, SyncDecision::Upload, &s, 200, 8);
    assert_eq!(twice, once);
}

#[test]
fn settling_on_unchanged_calls_a_queued_job_off() {
    let s = Sighting { local: Some(v(2)), remote: None };
    let queued = settle(&idle(), SyncDecision::Upload, &s, 100, 7);
    assert_eq!(settle(&queued, SyncDecision::Unchanged, &s, 101, 8), idle());
}

#[test]
fn settling_retargets_a_queued_job_in_its_place() {
    let first = Sighting { local: Some(v(2)), remote: None };
    let second = Sighting { local: Some(v(5)), remote: None };
    let queued = settle(&idle(), SyncDecision::Upload, &first, 100, 7);
    let again = settle(&queued, SyncDecision::Upload, &second, 150, 9);
    let job = again.job.unwrap();
    assert_eq!(job.target, Some(v(5)));
    assert_eq!(job.ticket, 7);
    assert_eq!(job.not_before, 150);
}

#[test]
fn settling_leaves_a_transfer_under_way_alone() {
    let s = Sighting { local: Some(v(9)), remote: None };
    let after = settle(&active_upload(1), SyncDecision::Upload, &s, 100, 7);
    assert_eq!(after, active_upload(1));
    assert_eq!(settle(&active_upload(1), SyncDecision::Unchanged, &s, 100, 7), active_upload(1));
}

#[test]
fn settling_on_a_conflict_records_both_versions() {
    let s = Sighting { local: Some(v(2)), remote: Some(v(3)) };
    let after = settle(&idle(), SyncDecision::Conflict, &s, 100, 7);
    assert!(after.job.is_none());
    let clash = after.clash.unwrap();
    assert_eq!(clash.local, v(2));
    assert_eq!(clash.remote, v(3));
    assert_eq!(status(&after, true), Some(SyncFolderStatus::Conflict));
}

#[test]
fn a_failed_transfer_is_not_queued_again_for_the_same_content() {
    let s = Sighting { local: Some(v(2)), remote: None };
    let failed = finished(&active_upload(0), Outcome::Integrity, &RetryPolicy::new(), 10);
    assert_eq!(failed.failed, Some(Wanted { kind: TransferKind::Upload, target: Some(v(2)) }));
    assert_eq!(settle(&failed, SyncDecision::Upload, &s, 20, 9), failed);
    // Other content is a new start.
    let other = Sighting { local: Some(v(6)), remote: None };
    let retried = settle(&failed, SyncDecision::Upload, &other, 20, 9);
    assert!(retried.failed.is_none());
    assert_eq!(retried.job.unwrap().target, Some(v(6)));
}

#[test]
fn a_passing_failure_is_tried_again_after_the_wait() {
    let policy = RetryPolicy::new();
    let once = finished(&active_upload(0), Outcome::Transient, &policy, 1000);
    let job = once.job.unwrap();
    assert_eq!(job.attempts, 1);
    assert!(!job.active);
    assert_eq!(job.not_before, 1001);
    assert!(once.failed.is_none());
    let twice = finished(&started(&once), Outcome::Transient, &policy, 2000);
    let job = twice.job.unwrap();
    assert_eq!(job.attempts, 2);
    assert_eq!(job.not_before, 2002);
}

#[test]
fn the_third_failure_in_a_row_is_final() {
    let policy = RetryPolicy::new();
    let mut state = active_upload(0);
    for _ in 0..2 {
        state = finished(&state, Outcome::Transient, &policy, 50);
        assert_eq!(status(&state, false), Some(SyncFolderStatus::Pending));
        state = started(&state);
    }
    state = finished(&state, Outcome::Transient, &policy, 50);
    assert!(state.job.is_none());
    assert_eq!(state.failed, Some(Wanted { kind: TransferKind::Upload, target: Some(v(2)) }));
    assert_eq!(status(&state, false), Some(SyncFolderStatus::Error));
}

#[test]
fn a_failure_on_the_data_is_final_at_once() {
    let state = finished(&active_upload(0), Outcome::Integrity, &RetryPolicy::new(), 50);
    assert!(state.job.is_none());
    assert!(state.failed.is_some());
}

#[test]
fn a_transfer_that_was_carried_out_leaves_the_path_idle() {
    assert_eq!(finished(&active_upload(2), Outcome::Done, &RetryPolicy::new(), 50), idle());
    // Only a transfer under way can end.
    let s = Sighting { local: Some(v(2)), remote: None };
    let queued = settle(&idle(), SyncDecision::Upload, &s, 100, 7);
    assert_eq!(finished(&queued, Outcome::Done, &RetryPolicy::new(), 50), queued);
    assert_eq!(finished(&idle(), Outcome::Done, &RetryPolicy::new(), 50), idle());
}

#[test]
fn status_follows_what_is_held() {
    assert_eq!(status(&idle(), false), None);
    assert_eq!(status(&idle(), true), Some(SyncFolderStatus::Synced));
    assert_eq!(status(&active_upload(0), true), Some(SyncFolderStatus::Syncing));
    assert_eq!(started(&idle()), idle());
}

#[test]
fn a_resolution_queues_its_transfer_and_clears_the_conflict() {
    let s = Sighting { local: Some(v(2)), remote: Some(v(3)) };
    let clashed = settle(&idle(), SyncDecision::Conflict, &s, 100, 7);
    let w = Wanted { kind: TransferKind::Download, target: Some(v(3)) };
    let after = resolved(&clashed, &w, 120, 8);
    assert!(after.clash.is_none());
    let job = after.job.unwrap();
    assert!(job.resolution);
    assert_eq!(job.kind, TransferKind::Download);
    assert_eq!(job.target, Some(v(3)));
    assert_eq!(job.ticket, 8);
    assert_eq!(job.not_before, 120);
    // While the resolution is on its way the conflict is not raised again.
    assert_eq!(settle(&after, SyncDecision::Conflict, &s, 130, 9), after);
}

#[test]
fn wanted_transfers_compare_by_value() {
    let a = Wanted { kind: TransferKind::Upload, target: Some(v(1)) };
    let b = Wanted { kind: TransferKind::Upload, target: Some(v(2)) };
    let c = Wanted { kind: TransferKind::Download, target: Some(v(1)) };
    assert!(same_wanted(&a, &a));
    assert!(!same_wanted(&a, &b));
    assert!(!same_wanted(&a, &c));
    assert!(same_target(&None, &None));
    assert!(!same_target(&None, &Some(v(1))));
}
