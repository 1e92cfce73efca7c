//! The state of one path between scans: the transfer that is planned or
//! under way for it, the conflict that awaits a decision, the failure that
//! stopped it. All of it changes by the pure steps of this module.

use crate::conflict::{SyncDecision, Sighting};
use crate::index::{same_version, FileVersion};
use crate::state::SyncFolderStatus;
use vstd::prelude::*;

verus! {

/// What a transfer does.
#[derive(Debug, Clone, Copy, PartialEq, Eq, Structural)]
pub enum TransferKind {
    /// Sends the local file to the store.
    Upload,
    /// Fetches the remote file.
    Download,
    /// Deletes the local file.
    DeleteLocal,
    /// Deletes the remote file.
    DeleteRemote,
    /// Records a state that both sides reached on their own.
    Adopt,
    /// Drops the record of a file that is gone on both sides.
    Forget,
}

/// The two worker pools.
#[derive(Debug, Clone, Copy, PartialEq, Eq, Structural)]
pub enum Pool {
    Uploads,
    Downloads,
}

/// The pool that runs transfers of `kind`: what writes to the local folder
/// runs with the downloads, everything else with the uploads.
pub open spec fn pool_of(kind: TransferKind) -> Pool {
    match kind {
        TransferKind::Download | TransferKind::DeleteLocal => Pool::Downloads,
        _ => Pool::Uploads,
    }
}

/// A transfer that a path calls for: what to do, and the version that the
/// path holds on both sides afterwards (`None` where the file goes away).
#[derive(Debug, Clone, Copy, PartialEq, Eq)]
pub struct Wanted {
    pub kind: TransferKind,
    pub target: Option<FileVersion>,
}

/// A transfer that is queued or under way.
#[derive(Debug, Clone, Copy, PartialEq, Eq)]
pub struct Job {
    pub kind: TransferKind,
    pub target: Option<FileVersion>,
    /// Failed attempts so far.
    pub attempts: u32,
    /// The earliest time at which the transfer may start.
    pub not_before: i64,
    /// Whether a worker is running it.
    pub active: bool,
    /// Whether it carries out the resolution of a conflict.
    pub resolution: bool,
    /// Its place in the queue: lower tickets start first.
    pub ticket: u64,
}

/// The two versions of a conflict.
#[derive(Debug, Clone, Copy, PartialEq, Eq)]
pub struct Clash {
    pub local: FileVersion,
    pub remote: FileVersion,
}

/// What the engine holds for one path.
#[derive(Debug, Clone, Copy, PartialEq, Eq)]
pub struct PathState {
    pub job: Option<Job>,
    pub clash: Option<Clash>,
    /// The transfer that failed for good, until the path calls for another.
    pub failed: Option<Wanted>,
}

impl Job {
    /// What the job is about.
    pub open spec fn wanted(self) -> Wanted {
        Wanted { kind: self.kind, target: self.target }
    }
}

impl PathState {
    /// Nothing planned, nothing in conflict, nothing failed.
    pub open spec fn idle() -> PathState {
        PathState { job: None, clash: None, failed: None }
    }

    pub open spec fn is_idle(self) -> bool {
        self.job is None && self.clash is None && self.failed is None
    }

    /// Whether a worker of `pool` is busy with the path.
    pub open spec fn busy_in(self, pool: Pool) -> bool {
        self.job matches Some(job) && job.active && pool_of(job.kind) == pool
    }
}

/// The status of a path: in conflict, else being transferred, else failed,
/// else waiting, else in sync if it is tracked. `None` for a path that is
/// neither tracked nor held.
pub open spec fn path_status(state: PathState, indexed: bool) -> Option<SyncFolderStatus> {
    if state.clash is Some {
        Some(SyncFolderStatus::Conflict)
    } else if state.job is Some {
        if state.job->0.active {
            Some(SyncFolderStatus::Syncing)
        } else {
            Some(SyncFolderStatus::Pending)
        }
    } else if state.failed is Some {
        Some(SyncFolderStatus::Error)
    } else if indexed {
        Some(SyncFolderStatus::Synced)
    } else {
        None
    }
}

/// The transfer that a decision calls for, if any.
pub open spec fn wanted_for(decision: SyncDecision, sighting: Sighting) -> Option<Wanted> {
    match decision {
        SyncDecision::Upload => Some(Wanted { kind: TransferKind::Upload, target: sighting.local }),
        SyncDecision::Download => Some(
            Wanted { kind: TransferKind::Download, target: sighting.remote },
        ),
        SyncDecision::Adopt => Some(Wanted { kind: TransferKind::Adopt, target: sighting.local }),
        SyncDecision::Forget => Some(Wanted { kind: TransferKind::Forget, target: None }),
        SyncDecision::DeleteLocal => Some(Wanted { kind: TransferKind::DeleteLocal, target: None }),
        SyncDecision::DeleteRemote => Some(
            Wanted { kind: TransferKind::DeleteRemote, target: None },
        ),
        SyncDecision::Unchanged | SyncDecision::Conflict => None,
    }
}

/// The conflict that a decision raises, if any.
pub open spec fn clash_for(decision: SyncDecision, sighting: Sighting) -> Option<Clash> {
    if decision == SyncDecision::Conflict && sighting.local is Some && sighting.remote is Some {
        Some(Clash { local: sighting.local->0, remote: sighting.remote->0 })
    } else {
        None
    }
}

/// Whether the path is being brought to one of the two versions seen, on
/// the strength of a resolution: the conflict is then not raised again.
pub open spec fn resolving(state: PathState, sighting: Sighting) -> bool {
    state.job matches Some(job) && job.resolution && job.target is Some && (job.target
        == sighting.local || job.target == sighting.remote)
}

/// A fresh job for `wanted`, queued at `now` under `ticket`.
pub open spec fn fresh_job(wanted: Wanted, now: i64, ticket: u64) -> Job {
    Job {
        kind: wanted.kind,
        target: wanted.target,
        attempts: 0,
        not_before: now,
        active: false,
        resolution: false,
        ticket,
    }
}

/// The state of a path after a scan has decided on it.
///
/// A resolution under way is left alone while the conflict it resolves is
/// still seen. A transfer under way is never disturbed; what the scan found
/// is taken up by the scan after it. Otherwise the path gets the job that
/// the decision calls for: none, the job it has if that is the one, or a
/// new one (in the place of the old one in the queue, or under `ticket`),
/// unless that very transfer has failed for good. The conflict recorded is
/// the one that the decision raises.
pub open spec fn settle_spec(
    state: PathState,
    decision: SyncDecision,
    sighting: Sighting,
    now: i64,
    ticket: u64,
) -> PathState {
    let wanted = wanted_for(decision, sighting);
    if decision == SyncDecision::Conflict && resolving(state, sighting) {
        state
    } else if state.job is Some && state.job->0.active {
        PathState { job: state.job, clash: clash_for(decision, sighting), failed: None }
    } else if wanted is Some {
        let w = wanted->0;
        if state.failed == Some(w) {
            PathState { job: None, clash: None, failed: state.failed }
        } else if state.job is Some {
            let job = state.job->0;
            if job.wanted() == w {
                PathState { job: state.job, clash: None, failed: None }
            } else {
                PathState {
                    job: Some(fresh_job(w, now, job.ticket)),
                    clash: None,
                    failed: None,
                }
            }
        } else {
            PathState { job: Some(fresh_job(w, now, ticket)), clash: None, failed: None }
        }
    } else {
        PathState { job: None, clash: clash_for(decision, sighting), failed: None }
    }
}

/// Whether settling consumes the ticket it was offered.
pub open spec fn takes_ticket(state: PathState, decision: SyncDecision, sighting: Sighting) -> bool {
    &&& !(decision == SyncDecision::Conflict && resolving(state, sighting))
    &&& state.job is None
    &&& wanted_for(decision, sighting) matches Some(w)
    &&& state.failed != Some(w)
}

/// Scanning twice changes nothing the second time: a path that was settled
/// on a decision is left as it is when it is settled on the same decision
/// again, whatever the time and the ticket.
pub proof fn lemma_settle_idempotent(
    state: PathState,
    decision: SyncDecision,
    sighting: Sighting,
    now: i64,
    ticket: u64,
    later: i64,
    next: u64,
)
    ensures
        settle_spec(settle_spec(state, decision, sighting, now, ticket), decision, sighting, later, next)
            == settle_spec(state, decision, sighting, now, ticket),
        !takes_ticket(settle_spec(state, decision, sighting, now, ticket), decision, sighting),
{
}

/// Whether two transfers are the same.
pub fn same_wanted(a: &Wanted, b: &Wanted) -> (same: bool)
    ensures
        same == (*a == *b),
{
    a.kind == b.kind && same_target(&a.target, &b.target)
}

/// Whether two targets are the same version, or both none.
pub fn same_target(a: &Option<FileVersion>, b: &Option<FileVersion>) -> (same: bool)
    ensures
        same == (*a == *b),
{
    match (a, b) {
        (None, None) => true,
        (Some(x), Some(y)) => same_version(x, y),
        _ => false,
    }
}

/// The pool that runs transfers of `kind`.
pub fn pool(kind: TransferKind) -> (pool: Pool)
    ensures
        pool == pool_of(kind),
{
    match kind {
        TransferKind::Download | TransferKind::DeleteLocal => Pool::Downloads,
        _ => Pool::Uploads,
    }
}

/// The status of a path.
pub fn status(state: &PathState, indexed: bool) -> (status: Option<SyncFolderStatus>)
    ensures
        status == path_status(*state, indexed),
{
    if state.clash.is_some() {
        Some(SyncFolderStatus::Conflict)
    } else if let Some(job) = state.job {
        if job.active {
            Some(SyncFolderStatus::Syncing)
        } else {
            Some(SyncFolderStatus::Pending)
        }
    } else if state.failed.is_some() {
        Some(SyncFolderStatus::Error)
    } else if indexed {
        Some(SyncFolderStatus::Synced)
    } else {
        None
    }
}

/// The transfer that a decision calls for, if any.
pub fn wanted(decision: SyncDecision, sighting: &Sighting) -> (wanted: Option<Wanted>)
    ensures
        wanted == wanted_for(decision, *sighting),
{
    match decision {
        SyncDecision::Upload => Some(Wanted { kind: TransferKind::Upload, target: sighting.local }),
        SyncDecision::Download => Some(
            Wanted { kind: TransferKind::Download, target: sighting.remote },
        ),
        SyncDecision::Adopt => Some(Wanted { kind: TransferKind::Adopt, target: sighting.local }),
        SyncDecision::Forget => Some(Wanted { kind: TransferKind::Forget, target: None }),
        SyncDecision::DeleteLocal => Some(Wanted { kind: TransferKind::DeleteLocal, target: None }),
        SyncDecision::DeleteRemote => Some(
            Wanted { kind: TransferKind::DeleteRemote, target: None },
        ),
        SyncDecision::Unchanged | SyncDecision::Conflict => None,
    }
}

fn clash(decision: SyncDecision, sighting: &Sighting) -> (clash: Option<Clash>)
    ensures
        clash == clash_for(decision, *sighting),
{
    if decision == SyncDecision::Conflict {
        match (sighting.local, sighting.remote) {
            (Some(local), Some(remote)) => Some(Clash { local, remote }),
            _ => None,
        }
    } else {
        None
    }
}

fn is_resolving(state: &PathState, sighting: &Sighting) -> (yes: bool)
    ensures
        yes == resolving(*state, *sighting),
{
    match state.job {
        Some(job) => job.resolution && job.target.is_some() && (same_target(
            &job.target,
            &sighting.local,
        ) || same_target(&job.target, &sighting.remote)),
        None => false,
    }
}

/// The state of a path after a scan has decided on it.
pub fn settle(state: &PathState, decision: SyncDecision, sighting: &Sighting, now: i64, ticket: u64) -> (after:
    PathState)
    ensures
        after == settle_spec(*state, decision, *sighting, now, ticket),
{
    if decision == SyncDecision::Conflict && is_resolving(state, sighting) {
        return *state;
    }
    if let Some(job) = state.job {
        if job.active {
            return PathState { job: state.job, clash: clash(decision, sighting), failed: None };
        }
    }
    match wanted(decision, sighting) {
        Some(w) => {
            let failed_same = match state.failed {
                Some(f) => same_wanted(&f, &w),
                None => false,
            };
            if failed_same {
                PathState { job: None, clash: None, failed: state.failed }
            } else {
                match state.job {
                    Some(job) => {
                        let current = Wanted { kind: job.kind, target: job.target };
                        if same_wanted(&current, &w) {
                            PathState { job: state.job, clash: None, failed: None }
                        } else {
                            PathState {
                                job: Some(
                                    Job {
                                        kind: w.kind,
                                        target: w.target,
                                        attempts: 0,
                                        not_before: now,
                                        active: false,
                                        resolution: false,
                                        ticket: job.ticket,
                                    },
                                ),
                                clash: None,
                                failed: None,
                            }
                        }
                    },
                    None => PathState {
                        job: Some(
                            Job {
                                kind: w.kind,
                                target: w.target,
                                attempts: 0,
                                not_before: now,
                                active: false,
                                resolution: false,
                                ticket,
                            },
                        ),
                        clash: None,
                        failed: None,
                    },
                }
            }
        },
        None => PathState { job: None, clash: clash(decision, sighting), failed: None },
    }
}

/// How failed transfers are tried again.
#[derive(Debug, Clone, Copy, PartialEq, Eq)]
pub struct RetryPolicy {
    /// A transfer that has failed this many times is given up.
    pub max_attempts: u32,
    /// Seconds to wait after the first failure.
    pub base_delay: u32,
    /// The longest wait, in seconds.
    pub max_delay: u32,
}

/// How a transfer ended.
#[derive(Debug, Clone, Copy, PartialEq, Eq, Structural)]
pub enum Outcome {
    /// It was carried out.
    Done,
    /// It failed in a way that may pass: the network, the file system.
    Transient,
    /// It failed on the data itself: a hash that does not match, a record
    /// that the index refuses. Such a transfer is never tried again.
    Integrity,
}

/// Seconds to wait after the failure that follows `attempts` earlier ones:
/// the base delay, doubled with every failure, and never more than the
/// longest wait.
pub open spec fn backoff_spec(policy: RetryPolicy, attempts: nat) -> nat
    decreases attempts,
{
    if attempts == 0 {
        if policy.base_delay <= policy.max_delay {
            policy.base_delay as nat
        } else {
            policy.max_delay as nat
        }
    } else {
        let before = backoff_spec(policy, (attempts - 1) as nat);
        if 2 * before <= policy.max_delay {
            2 * before
        } else {
            policy.max_delay as nat
        }
    }
}

/// The wait never exceeds the longest wait and never shrinks from one
/// failure to the next.
pub proof fn lemma_backoff_bounded(policy: RetryPolicy, attempts: nat)
    ensures
        backoff_spec(policy, attempts) <= policy.max_delay,
        attempts > 0 ==> backoff_spec(policy, (attempts - 1) as nat) <= backoff_spec(
            policy,
            attempts,
        ),
    decreases attempts,
{
    if attempts > 0 {
        lemma_backoff_bounded(policy, (attempts - 1) as nat);
    }
}

/// `time` plus `seconds`, or the latest time there is.
pub open spec fn later_spec(time: i64, seconds: nat) -> i64 {
    if time + seconds > i64::MAX {
        i64::MAX
    } else {
        (time + seconds) as i64
    }
}

/// The state of a path once a worker has taken its job.
pub open spec fn started_spec(state: PathState) -> PathState {
    if state.job is Some {
        PathState { job: Some(Job { active: true, ..state.job->0 }), ..state }
    } else {
        state
    }
}

/// The state of a path once the transfer under way has ended.
///
/// A transfer that was carried out leaves the path without a job. One that
/// failed in passing goes back into the queue, to start no sooner than
/// after the wait, unless it has now failed `max_attempts` times: then, as
/// after a failure on the data, the path has no job and is marked failed.
pub open spec fn finished_spec(
    state: PathState,
    outcome: Outcome,
    policy: RetryPolicy,
    now: i64,
) -> PathState {
    if state.job is Some && state.job->0.active {
        let job = state.job->0;
        match outcome {
            Outcome::Done => PathState { job: None, clash: state.clash, failed: None },
            Outcome::Transient => if job.attempts + 1 >= policy.max_attempts {
                PathState { job: None, clash: state.clash, failed: Some(job.wanted()) }
            } else {
                PathState {
                    job: Some(
                        Job {
                            attempts: (job.attempts + 1) as u32,
                            active: false,
                            not_before: later_spec(now, backoff_spec(policy, job.attempts as nat)),
                            ..job
                        },
                    ),
                    clash: state.clash,
                    failed: None,
                }
            },
            Outcome::Integrity => PathState {
                job: None,
                clash: state.clash,
                failed: Some(job.wanted()),
            },
        }
    } else {
        state
    }
}

/// A transfer is tried `max_attempts` times at most: the failure that makes
/// it that many marks the path failed, and every earlier passing failure
/// queues the transfer again.
pub proof fn lemma_retry_budget(state: PathState, policy: RetryPolicy, now: i64)
    requires
        state.job is Some,
        state.job->0.active,
    ensures
        finished_spec(state, Outcome::Transient, policy, now).failed is Some
            <==> state.job->0.attempts + 1 >= policy.max_attempts,
        finished_spec(state, Outcome::Transient, policy, now).job is Some
            <==> state.job->0.attempts + 1 < policy.max_attempts,
        finished_spec(state, Outcome::Integrity, policy, now).failed is Some,
        finished_spec(state, Outcome::Integrity, policy, now).job is None,
{
}

/// The state of a path whose conflict is resolved by the transfer
/// `wanted`: the conflict is gone, and the transfer is queued as a
/// resolution (in the place of a job that was queued, or under `ticket`).
pub open spec fn resolved_spec(state: PathState, wanted: Wanted, now: i64, ticket: u64) -> PathState {
    PathState {
        job: Some(
            Job {
                kind: wanted.kind,
                target: wanted.target,
                attempts: 0,
                not_before: now,
                active: false,
                resolution: true,
                ticket: if state.job is Some {
                    state.job->0.ticket
                } else {
                    ticket
                },
            },
        ),
        clash: None,
        failed: None,
    }
}

impl RetryPolicy {
    /// Three attempts, waiting one second after the first failure and at
    /// most a minute.
    pub fn new() -> (policy: Self)
        ensures
            policy == (RetryPolicy { max_attempts: 3, base_delay: 1, max_delay: 60 }),
    {
        RetryPolicy { max_attempts: 3, base_delay: 1, max_delay: 60 }
    }

    /// Seconds to wait after the failure that follows `attempts` earlier ones.
    pub fn backoff(&self, attempts: u32) -> (seconds: u32)
        ensures
            seconds == backoff_spec(*self, attempts as nat),
    {
        let mut delay: u32 = if self.base_delay <= self.max_delay {
            self.base_delay
        } else {
            self.max_delay
        };
        let mut i: u32 = 0;
        while i < attempts
            invariant
                i <= attempts,
                delay == backoff_spec(*self, i as nat),
                delay <= self.max_delay,
            decreases attempts - i,
        {
            delay = if delay <= self.max_delay / 2 {
                delay * 2
            } else {
                self.max_delay
            };
            i = i + 1;
        }
        delay
    }
}

impl Default for RetryPolicy {
    fn default() -> (policy: Self)
        ensures
            policy == (RetryPolicy { max_attempts: 3, base_delay: 1, max_delay: 60 }),
    {
        RetryPolicy::new()
    }
}

/// `time` plus `seconds`, or the latest time there is.
pub fn later(time: i64, seconds: u32) -> (sum: i64)
    ensures
        sum == later_spec(time, seconds as nat),
{
    if time > i64::MAX - seconds as i64 {
        i64::MAX
    } else {
        time + seconds as i64
    }
}

/// The state of a path once a worker has taken its job.
pub fn started(state: &PathState) -> (after: PathState)
    ensures
        after == started_spec(*state),
{
    match state.job {
        Some(job) => PathState {
            job: Some(
                Job {
                    kind: job.kind,
                    target: job.target,
                    attempts: job.attempts,
                    not_before: job.not_before,
                    active: true,
                    resolution: job.resolution,
                    ticket: job.ticket,
                },
            ),
            clash: state.clash,
            failed: state.failed,
        },
        None => *state,
    }
}

/// The state of a path once the transfer under way has ended.
pub fn finished(state: &PathState, outcome: Outcome, policy: &RetryPolicy, now: i64) -> (after:
    PathState)
    ensures
        after == finished_spec(*state, outcome, *policy, now),
{
    match state.job {
        Some(job) => {
            if !job.active {
                return *state;
            }
            let wanted = Wanted { kind: job.kind, target: job.target };
            let give_up = PathState { job: None, clash: state.clash, failed: Some(wanted) };
            match outcome {
                Outcome::Done => PathState { job: None, clash: state.clash, failed: None },
                Outcome::Integrity => give_up,
                Outcome::Transient => {
                    if job.attempts >= policy.max_attempts || job.attempts + 1
                        >= policy.max_attempts {
                        give_up
                    } else {
                        PathState {
                            job: Some(
                                Job {
                                    kind: job.kind,
                                    target: job.target,
                                    attempts: job.attempts + 1,
                                    not_before: later(now, policy.backoff(job.attempts)),
                                    active: false,
                                    resolution: job.resolution,
                                    ticket: job.ticket,
                                },
                            ),
                            clash: state.clash,
                            failed: None,
                        }
                    }
                },
            }
        },
        None => *state,
    }
}

/// The state of a path whose conflict is resolved by the transfer `wanted`.
pub fn resolved(state: &PathState, wanted: &Wanted, now: i64, ticket: u64) -> (after: PathState)
    ensures
        after == resolved_spec(*state, *wanted, now, ticket),
{
    PathState {
        job: Some(
            Job {
                kind: wanted.kind,
                target: wanted.target,
                attempts: 0,
                not_before: now,
                active: false,
                resolution: true,
                ticket: match state.job {
                    Some(job) => job.ticket,
                    None => ticket,
                },
            },
        ),
        clash: None,
        failed: None,
    }
}

} // verus!
