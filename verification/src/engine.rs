//! The sync engine: folders, the state of their paths, the index, and the
//! scheduling of transfers. The engine decides; reading folders, moving
//! bytes and waiting are left to whoever drives it.

use crate::assoc::{
    as_map, count_if, keys_where, lemma_as_map_at, lemma_as_map_push, lemma_as_map_remove,
    lemma_as_map_update, lemma_count_if_bounds, lemma_count_if_keys, lemma_count_if_push,
    lemma_count_if_remove, lemma_count_if_update,
};
use crate::config::{SyncConfig, SyncConfigModel};
use crate::conflict::{
    conflict_of, copy_path, decide_spec, plan_spec, ConflictResolver, ResolutionPlan, Sighting,
    SyncDecision,
};
use crate::glob::{excluded, is_excluded};
use crate::index::{
    lemma_dropped_absent, lists, observed_models, path_models, same_folder, same_version,
    FileRecord, FileRecordModel, FileVersion, IndexModel, ObservedFile, ObservedFileModel, PathKey,
    SyncIndex,
};
use crate::plan::{
    finished, finished_spec, lemma_settle_idempotent, path_status, pool, pool_of, resolved,
    resolved_spec, settle, settle_spec, started, started_spec, status, Outcome, PathState, Pool,
    RetryPolicy, TransferKind, Wanted,
};
use crate::services::sync::{
    ConflictResolution, SyncFolderOptions, SyncFolderOptionsModel, SyncHistoryEntry,
    SyncHistoryEntryModel, SyncHistoryOperation,
};
use crate::state::{SyncConflict, SyncFolder, SyncFolderModel, SyncFolderStatus, SyncStats};
use vstd::prelude::*;
use vstd::string::*;

verus! {

broadcast use vstd::array::group_array_axioms;

/// Number of history records that an engine keeps unless told otherwise.
pub const DEFAULT_HISTORY_LIMIT: usize = 256;

/// Whether the engine schedules work.
#[derive(Debug, Clone, Copy, PartialEq, Eq, Structural, Default)]
pub enum SyncEngineState {
    /// Not started, or stopped: nothing is scheduled and nothing is under way.
    #[default]
    Stopped,
    /// Transfers are handed out.
    Running,
    /// No transfer is handed out; those under way go on.
    Paused,
}

/// Why the engine refused a request. A refused request changes nothing.
#[derive(Debug, Clone, Copy, PartialEq, Eq)]
pub enum SyncError {
    /// No folder has this identifier.
    FolderNotFound,
    /// The identifier, or the local path, belongs to a folder already.
    FolderExists,
    /// The local path of the folder does not exist, or is empty.
    InvalidFolder,
    /// The engine is not stopped.
    AlreadyStarted,
    /// The engine is stopped.
    NotRunning,
    /// No transfer is under way for the path.
    NoTransfer,
    /// No conflict is recorded for the path.
    NoConflict,
    /// A transfer is under way for the path.
    Busy,
    /// The name under which the local version would be kept is in use.
    CopyPathTaken,
    /// No more transfers can be queued.
    QueueFull,
    /// The record handed in is not that of the transfer's path and target.
    RecordMismatch,
}

/// The version in which `path` was observed: that of its first observation.
pub open spec fn seen(observed: Seq<ObservedFileModel>, path: Seq<char>) -> Option<FileVersion>
    decreases observed.len(),
{
    if observed.len() == 0 {
        None
    } else {
        match seen(observed.drop_last(), path) {
            Some(version) => Some(version),
            None => if observed.last().path == path {
                Some(observed.last().version)
            } else {
                None
            },
        }
    }
}

/// What was seen of `path` on the two sides.
pub open spec fn sighting_of(
    local: Seq<ObservedFileModel>,
    remote: Seq<ObservedFileModel>,
    path: Seq<char>,
) -> Sighting {
    Sighting { local: seen(local, path), remote: seen(remote, path) }
}

/// A path is seen exactly when an observation names it; what is seen in a
/// list is seen in every longer list.
pub proof fn lemma_seen(observed: Seq<ObservedFileModel>, path: Seq<char>, upto: int)
    requires
        0 <= upto <= observed.len(),
    ensures
        seen(observed, path) is Some <==> crate::index::observed_at(observed, path),
        seen(observed.subrange(0, upto), path) is Some ==> seen(observed, path) == seen(
            observed.subrange(0, upto),
            path,
        ),
    decreases observed.len(),
{
    if observed.len() > 0 {
        let rest = observed.drop_last();
        if upto == observed.len() {
            assert(observed.subrange(0, upto) =~= observed);
            lemma_seen(rest, path, 0);
        } else {
            lemma_seen(rest, path, upto);
            assert(rest.subrange(0, upto) =~= observed.subrange(0, upto));
        }
        if crate::index::observed_at(rest, path) {
            let i = choose|i: int| 0 <= i < rest.len() && (#[trigger] rest[i]).path == path;
            assert(observed[i].path == path);
        }
        if crate::index::observed_at(observed, path) && observed.last().path != path {
            let i = choose|i: int| 0 <= i < observed.len() && (#[trigger] observed[i]).path == path;
            assert(rest[i].path == path);
        }
        if observed.last().path == path {
            assert(observed[observed.len() - 1].path == path);
        }
    } else {
        assert(observed.subrange(0, upto) =~= observed);
    }
}

/// Mathematical model of a folder of the engine.
pub struct FolderModel {
    pub id: [u8; 16],
    pub local_path: Seq<char>,
    pub name: Seq<char>,
    pub last_sync: i64,
    /// Whether a scan was asked for and has not been made yet.
    pub scan_requested: bool,
    pub options: SyncFolderOptionsModel,
}

/// Mathematical model of a [`SyncEngine`].
pub struct EngineModel {
    pub state: SyncEngineState,
    pub config: SyncConfigModel,
    pub policy: RetryPolicy,
    /// The folders, in the order in which they were added.
    pub folders: Seq<FolderModel>,
    /// What is held for each path that is not idle.
    pub paths: Map<PathKey, PathState>,
    pub index: IndexModel,
    pub stats: SyncStats,
    /// The history, oldest record first.
    pub history: Seq<SyncHistoryEntryModel>,
    pub history_limit: nat,
    /// The ticket that the next new job gets.
    pub next_ticket: u64,
}

impl EngineModel {
    /// The paths whose transfer keeps a worker of `pool` busy.
    pub open spec fn running(self, pool: Pool) -> Set<PathKey> {
        Set::new(|k: PathKey| self.paths.contains_key(k) && self.paths[k].busy_in(pool))
    }

    /// The paths whose transfer is queued and not yet under way.
    pub open spec fn pending(self) -> Set<PathKey> {
        Set::new(
            |k: PathKey|
                self.paths.contains_key(k) && self.paths[k].job is Some
                    && !self.paths[k].job->0.active,
        )
    }

    /// What is held for the path under `key`.
    pub open spec fn state_at(self, key: PathKey) -> PathState {
        if self.paths.contains_key(key) {
            self.paths[key]
        } else {
            PathState::idle()
        }
    }

    /// The paths with `state` held under `key` (or nothing, if it is idle).
    pub open spec fn with_state(self, key: PathKey, state: PathState) -> Map<PathKey, PathState> {
        if state.is_idle() {
            self.paths.remove(key)
        } else {
            self.paths.insert(key, state)
        }
    }

    /// The ticket counter after `state` was stored: it moves on when the
    /// state holds a job under the ticket that was next.
    pub open spec fn ticket_after(self, state: PathState) -> u64 {
        if state.job is Some && state.job->0.ticket == self.next_ticket && self.next_ticket
            < u64::MAX {
            (self.next_ticket + 1) as u64
        } else {
            self.next_ticket
        }
    }

    /// Whether a folder has the identifier `id`.
    pub open spec fn has_folder(self, id: [u8; 16]) -> bool {
        exists|i: int| 0 <= i < self.folders.len() && (#[trigger] self.folders[i]).id == id
    }

    /// Whether a folder has the local path `path`.
    pub open spec fn has_local_path(self, path: Seq<char>) -> bool {
        exists|i: int| 0 <= i < self.folders.len() && (#[trigger] self.folders[i]).local_path == path
    }

    /// Where the folder with the identifier `id` stands.
    pub open spec fn folder_position(self, id: [u8; 16]) -> int {
        choose|i: int| 0 <= i < self.folders.len() && (#[trigger] self.folders[i]).id == id
    }

    /// The paths without those of `folder`.
    pub open spec fn without_folder(self, folder: [u8; 16]) -> Map<PathKey, PathState> {
        Map::new(
            |k: PathKey| self.paths.contains_key(k) && k.0 != folder,
            |k: PathKey| self.paths[k],
        )
    }

    /// The state at the last sync of the path under `key`.
    pub open spec fn base_of(self, key: PathKey) -> Option<FileVersion> {
        if self.index.files.contains_key(key) {
            Some(self.index.files[key].version())
        } else {
            None
        }
    }

    /// Whether the folder at `position` keeps `path` out of the sync: one
    /// of the engine's or of the folder's patterns excludes it, or the
    /// local file is larger than the folder lets files be.
    pub open spec fn skips(self, position: int, path: Seq<char>, sighting: Sighting) -> bool {
        let options = self.folders[position].options;
        ||| excluded(self.config.exclude_patterns, path)
        ||| excluded(options.exclude_patterns, path)
        ||| (options.max_file_size is Some && sighting.local is Some && sighting.local->0.size
            > options.max_file_size->0)
    }

    /// What a scan of the folder at `position` decides for `path`.
    pub open spec fn decision_for(self, position: int, path: Seq<char>, sighting: Sighting) -> SyncDecision {
        if self.skips(position, path, sighting) {
            SyncDecision::Unchanged
        } else {
            decide_spec(
                self.folders[position].options.mode,
                self.base_of((self.folders[position].id, path)),
                sighting,
            )
        }
    }

    /// What a scan of the folder at `position` makes of the state held for
    /// `path`, a new job getting `ticket`.
    pub open spec fn scanned(
        self,
        position: int,
        path: Seq<char>,
        sighting: Sighting,
        now: i64,
        ticket: u64,
    ) -> PathState {
        settle_spec(
            self.state_at((self.folders[position].id, path)),
            self.decision_for(position, path, sighting),
            sighting,
            now,
            ticket,
        )
    }

    /// Whether `after` holds for `path` what a scan of the folder at
    /// `position` makes of what `self` holds for it, a new job having got
    /// one of the tickets handed out in between.
    pub open spec fn settled_in(
        self,
        after: EngineModel,
        position: int,
        path: Seq<char>,
        sighting: Sighting,
        now: i64,
    ) -> bool {
        exists|ticket: u64|
            self.next_ticket <= ticket <= after.next_ticket && after.state_at(
                (self.folders[position].id, path),
            ) == #[trigger] self.scanned(position, path, sighting, now, ticket)
    }

    /// The most tickets that a scan may hand out: one for each observation,
    /// each recorded file and each path for which something is held.
    pub open spec fn scan_need(self, local: nat, remote: nat) -> nat {
        local + remote + self.index.files.dom().len() + self.paths.dom().len()
    }

    /// Why a scan of the folder `id` is refused, if it is.
    pub open spec fn scan_refusal(self, id: [u8; 16], local: nat, remote: nat) -> Option<
        SyncError,
    > {
        if !self.has_folder(id) {
            Some(SyncError::FolderNotFound)
        } else if self.state == SyncEngineState::Stopped {
            Some(SyncError::NotRunning)
        } else if self.next_ticket + self.scan_need(local, remote) > u64::MAX {
            Some(SyncError::QueueFull)
        } else {
            None
        }
    }

    /// Whether a transfer is under way for the path under `key`.
    pub open spec fn under_way(self, key: PathKey) -> bool {
        self.state_at(key).job is Some && self.state_at(key).job->0.active
    }

    /// Whether `record` is the record that the transfer under way for `key`
    /// is to end with: that of the path, in the version of the target.
    pub open spec fn record_fits(self, key: PathKey, record: Option<FileRecordModel>) -> bool {
        record is Some && record->0.path == key.1 && Some(record->0.version()) == self.state_at(
            key,
        ).job->0.target
    }

    /// How the end of the transfer under way for `key` counts: a transfer
    /// that was carried out but whose record the index refuses has failed
    /// on the data.
    pub open spec fn effective(self, key: PathKey, outcome: Outcome, record: Option<FileRecordModel>) -> Outcome {
        if outcome == Outcome::Done && needs_record(self.state_at(key).job->0.kind)
            && !self.index.accepts(key.0, record->0) {
            Outcome::Integrity
        } else {
            outcome
        }
    }

    /// The index after the transfer under way for `key` ended.
    pub open spec fn index_after(self, key: PathKey, outcome: Outcome, record: Option<FileRecordModel>) -> IndexModel {
        if self.effective(key, outcome, record) != Outcome::Done {
            self.index
        } else if needs_record(self.state_at(key).job->0.kind) {
            self.index.committed(key.0, record->0)
        } else {
            self.index.dropped(key)
        }
    }

    /// The record that enters the history when the transfer under way for
    /// `key` ends, if one does: none for a failure that is tried again.
    pub open spec fn history_entry(
        self,
        key: PathKey,
        outcome: Outcome,
        record: Option<FileRecordModel>,
        message: Seq<char>,
        now: i64,
    ) -> Option<SyncHistoryEntryModel> {
        let job = self.state_at(key).job->0;
        let effective = self.effective(key, outcome, record);
        let after = finished_spec(self.state_at(key), effective, self.policy, now);
        if history_operation(job.kind) is None {
            None
        } else if effective == Outcome::Done {
            Some(
                SyncHistoryEntryModel {
                    path: key.1,
                    operation: history_operation(job.kind)->0,
                    timestamp: now,
                    result: Ok(()),
                },
            )
        } else if after.failed is Some {
            Some(
                SyncHistoryEntryModel {
                    path: key.1,
                    operation: history_operation(job.kind)->0,
                    timestamp: now,
                    result: Err(
                        if outcome == Outcome::Done {
                            refusal_text()
                        } else {
                            message
                        },
                    ),
                },
            )
        } else {
            None
        }
    }

    /// The engine after the transfer under way for `key` ended.
    pub open spec fn completed(
        self,
        key: PathKey,
        outcome: Outcome,
        record: Option<FileRecordModel>,
        message: Seq<char>,
        now: i64,
    ) -> EngineModel {
        let effective = self.effective(key, outcome, record);
        let entry = self.history_entry(key, outcome, record, message, now);
        EngineModel {
            paths: self.with_state(
                key,
                finished_spec(self.state_at(key), effective, self.policy, now),
            ),
            index: self.index_after(key, outcome, record),
            stats: if effective == Outcome::Done {
                stats_after(
                    self.stats,
                    if needs_record(self.state_at(key).job->0.kind) {
                        record->0.size
                    } else {
                        0
                    },
                    now,
                )
            } else {
                self.stats
            },
            history: if entry is Some {
                history_after(self.history, self.history_limit, entry->0)
            } else {
                self.history
            },
            ..self
        }
    }

    /// What is held for a path once its job is called off.
    pub open spec fn called_off(self, key: PathKey) -> PathState {
        PathState { job: None, clash: self.state_at(key).clash, failed: self.state_at(key).failed }
    }

    /// Whether a conflict is recorded for the path under `key`.
    pub open spec fn in_conflict(self, key: PathKey) -> bool {
        self.paths.contains_key(key) && self.paths[key].clash is Some
    }

    /// Whether anything is known of the path under `key`: a record, or
    /// something held.
    pub open spec fn knows_path(self, key: PathKey) -> bool {
        self.paths.contains_key(key) || self.index.files.contains_key(key)
    }

    /// Why resolving the conflict of the path under `key` is refused, if it is.
    pub open spec fn resolve_refusal(self, key: PathKey, resolution: ConflictResolution) -> Option<
        SyncError,
    > {
        if !self.in_conflict(key) {
            Some(SyncError::NoConflict)
        } else if self.under_way(key) {
            Some(SyncError::Busy)
        } else if resolution == ConflictResolution::KeepBoth && self.knows_path(
            (key.0, copy_path(key.1)),
        ) {
            Some(SyncError::CopyPathTaken)
        } else if self.paths[key].job is None && self.next_ticket == u64::MAX {
            Some(SyncError::QueueFull)
        } else {
            None
        }
    }

    /// The transfer that resolves the conflict of the path under `key`.
    pub open spec fn resolving_transfer(self, key: PathKey, resolution: ConflictResolution) -> Wanted {
        let clash = self.paths[key].clash->0;
        let plan = plan_spec(key.1, clash.local, clash.remote, resolution);
        Wanted {
            kind: if plan.transfer == SyncDecision::Upload {
                TransferKind::Upload
            } else {
                TransferKind::Download
            },
            target: Some(plan.target),
        }
    }

    /// The record that the history gets for a path that a resolution settled.
    pub open spec fn resolution_entry(path: Seq<char>, now: i64) -> SyncHistoryEntryModel {
        SyncHistoryEntryModel {
            path,
            operation: SyncHistoryOperation::ConflictResolved,
            timestamp: now,
            result: Ok(()),
        }
    }

    /// The engine after the conflict of the path under `key` was resolved:
    /// the conflict is gone, the transfer that carries the resolution out
    /// is queued, and the history has one record more for each path that
    /// the resolution settles: the path itself and, where both versions
    /// are kept, the copy.
    pub open spec fn resolved(self, key: PathKey, resolution: ConflictResolution, now: i64) -> EngineModel {
        let state = resolved_spec(
            self.paths[key],
            self.resolving_transfer(key, resolution),
            now,
            self.next_ticket,
        );
        let first = history_after(
            self.history,
            self.history_limit,
            Self::resolution_entry(key.1, now),
        );
        EngineModel {
            paths: self.paths.insert(key, state),
            next_ticket: self.ticket_after(state),
            history: if resolution == ConflictResolution::KeepBoth {
                history_after(
                    first,
                    self.history_limit,
                    Self::resolution_entry(copy_path(key.1), now),
                )
            } else {
                first
            },
            ..self
        }
    }

    /// Whether a path of `folder` has the status `want`.
    pub open spec fn folder_has(self, folder: [u8; 16], want: SyncFolderStatus) -> bool {
        exists|path: Seq<char>| #[trigger]
            self.paths.contains_key((folder, path)) && path_status(
                self.paths[(folder, path)],
                false,
            ) == Some(want)
    }

    /// The status of the folder at `position`: in conflict if one of its
    /// paths is, else syncing if a transfer is under way, else failed if a
    /// path has failed, else pending if a transfer is queued or a scan was
    /// asked for, else in sync.
    pub open spec fn folder_status(self, position: int) -> SyncFolderStatus {
        let folder = self.folders[position];
        if self.folder_has(folder.id, SyncFolderStatus::Conflict) {
            SyncFolderStatus::Conflict
        } else if self.folder_has(folder.id, SyncFolderStatus::Syncing) {
            SyncFolderStatus::Syncing
        } else if self.folder_has(folder.id, SyncFolderStatus::Error) {
            SyncFolderStatus::Error
        } else if self.folder_has(folder.id, SyncFolderStatus::Pending) || folder.scan_requested {
            SyncFolderStatus::Pending
        } else {
            SyncFolderStatus::Synced
        }
    }

    /// The folder at `position` as the rest of the application sees it.
    pub open spec fn folder_view(self, position: int) -> SyncFolderModel {
        SyncFolderModel {
            id: self.folders[position].id,
            local_path: self.folders[position].local_path,
            name: self.folders[position].name,
            last_sync: self.folders[position].last_sync,
            status: self.folder_status(position),
        }
    }

    /// A folder is in conflict exactly when a conflict is recorded for one
    /// of its paths.
    pub proof fn lemma_conflict_status(self, position: int)
        ensures
            self.folder_status(position) == SyncFolderStatus::Conflict <==> exists|
                path: Seq<char>,
            | #[trigger] self.in_conflict((self.folders[position].id, path)),
    {
        let id = self.folders[position].id;
        if self.folder_has(id, SyncFolderStatus::Conflict) {
            let path = choose|path: Seq<char>| #[trigger]
                self.paths.contains_key((id, path)) && path_status(self.paths[(id, path)], false)
                    == Some(SyncFolderStatus::Conflict);
            assert(self.in_conflict((id, path)));
        }
        if exists|path: Seq<char>| #[trigger] self.in_conflict((id, path)) {
            let path = choose|path: Seq<char>| #[trigger] self.in_conflict((id, path));
            assert(self.paths.contains_key((id, path)) && path_status(
                self.paths[(id, path)],
                false,
            ) == Some(SyncFolderStatus::Conflict));
        }
    }

    /// The engine after the conflicts of the paths under `keys` were
    /// resolved, one after the other.
    pub open spec fn resolved_all(
        self,
        keys: Seq<PathKey>,
        resolution: ConflictResolution,
        now: i64,
    ) -> EngineModel
        decreases keys.len(),
    {
        if keys.len() == 0 {
            self
        } else {
            self.resolved_all(keys.drop_last(), resolution, now).resolved(
                keys.last(),
                resolution,
                now,
            )
        }
    }

    /// The paths that are in conflict.
    pub open spec fn conflicted(self) -> Set<PathKey> {
        Set::new(|key: PathKey| self.in_conflict(key))
    }

    /// The conflict that is recorded for the path under `key`, as the rest
    /// of the application sees it.
    pub open spec fn conflict_at(self, key: PathKey) -> crate::state::SyncConflictModel {
        conflict_of(key.1, self.paths[key].clash->0.local, self.paths[key].clash->0.remote)
    }

    /// Whether `conflict` is the conflict that is recorded for some path.
    pub open spec fn has_conflict(self, conflict: crate::state::SyncConflictModel) -> bool {
        exists|key: PathKey| #[trigger] self.in_conflict(key) && self.conflict_at(key) == conflict
    }

    /// Why resolving all conflicts at once is refused on account of the
    /// path under `key`, if it is. Room in the queue is asked for every
    /// path that is held, so that no resolution can fail half way.
    pub open spec fn bulk_refusal(self, key: PathKey, resolution: ConflictResolution) -> Option<
        SyncError,
    > {
        if self.under_way(key) {
            Some(SyncError::Busy)
        } else if resolution == ConflictResolution::KeepBoth && self.knows_path(
            (key.0, copy_path(key.1)),
        ) {
            Some(SyncError::CopyPathTaken)
        } else if self.next_ticket + self.paths.dom().len() > u64::MAX {
            Some(SyncError::QueueFull)
        } else {
            None
        }
    }

    /// Whether the folder at `position` is to be scanned at `now`: a scan
    /// was asked for, or the scan interval has passed since the last one.
    /// No folder of a stopped or paused engine is.
    pub open spec fn scan_due(self, position: int, now: i64) -> bool {
        &&& self.state == SyncEngineState::Running
        &&& (self.folders[position].scan_requested || now - self.folders[position].last_sync
            >= self.config.sync_interval_seconds)
    }

    /// The identifiers of those of the first `upto` folders that are to be
    /// scanned at `now`, in the order of the folders.
    pub open spec fn due_upto(self, upto: int, now: i64) -> Seq<[u8; 16]>
        decreases upto,
    {
        if upto <= 0 {
            Seq::empty()
        } else if self.scan_due(upto - 1, now) {
            self.due_upto(upto - 1, now).push(self.folders[upto - 1].id)
        } else {
            self.due_upto(upto - 1, now)
        }
    }

    /// Whether the folder with the identifier `id` is to be scanned at `now`.
    pub open spec fn due_id(self, id: [u8; 16], now: i64) -> bool {
        exists|i: int|
            0 <= i < self.folders.len() && (#[trigger] self.folders[i]).id == id && self.scan_due(
                i,
                now,
            )
    }

    /// The folders with a scan asked for in every one of them.
    pub open spec fn all_requested(self) -> Seq<FolderModel> {
        Seq::new(
            self.folders.len(),
            |i: int| FolderModel { scan_requested: true, ..self.folders[i] },
        )
    }

    /// The number of workers that `pool` may run at a time.
    pub open spec fn limit(self, pool: Pool) -> nat {
        match pool {
            Pool::Uploads => self.config.max_concurrent_uploads as nat,
            Pool::Downloads => self.config.max_concurrent_downloads as nat,
        }
    }

    /// The queue is in order: no path is held idle, every job has a ticket
    /// below the next one, and no two jobs share a ticket.
    pub open spec fn queue_wf(self) -> bool {
        &&& forall|k: PathKey| #[trigger] self.paths.contains_key(k) ==> !self.paths[k].is_idle()
        &&& forall|k: PathKey| #[trigger]
            self.paths.contains_key(k) && self.paths[k].job is Some ==> self.paths[k].job->0.ticket
                < self.next_ticket
        &&& forall|a: PathKey, b: PathKey|
            #![trigger self.paths.contains_key(a), self.paths.contains_key(b)]
            self.paths.contains_key(a) && self.paths.contains_key(b) && a != b
                && self.paths[a].job is Some && self.paths[b].job is Some
                ==> self.paths[a].job->0.ticket != self.paths[b].job->0.ticket
        &&& self.history.len() <= self.history_limit
    }

    /// Whether `state` may take the place of what is held under `key`: a job
    /// keeps the ticket of the job it replaces, or takes the next ticket.
    pub open spec fn admits(self, key: PathKey, state: PathState) -> bool {
        state.job is Some ==> (self.state_at(key).job is Some && self.state_at(key).job->0.ticket
            == state.job->0.ticket) || (self.state_at(key).job is None && state.job->0.ticket
            == self.next_ticket && self.next_ticket < u64::MAX)
    }
}

/// Idempotence of the scan: a second scan of the same observations, with
/// nothing changed in between, settles every path on the state it is in.
/// No transfer is added, none is dropped; and no scan touches the index.
pub proof fn lemma_rescan_changes_nothing(
    first: EngineModel,
    second: EngineModel,
    third: EngineModel,
    position: int,
    path: Seq<char>,
    sighting: Sighting,
    now: i64,
    later: i64,
)
    requires
        0 <= position < first.folders.len(),
        second.folders.len() == first.folders.len(),
        second.folders[position].id == first.folders[position].id,
        second.folders[position].options == first.folders[position].options,
        second.config == first.config,
        second.index == first.index,
        first.settled_in(second, position, path, sighting, now),
        second.settled_in(third, position, path, sighting, later),
    ensures
        third.state_at((first.folders[position].id, path)) == second.state_at(
            (first.folders[position].id, path),
        ),
{
    let key = (first.folders[position].id, path);
    let t1 = choose|t: u64|
        first.next_ticket <= t <= second.next_ticket && second.state_at(key)
            == #[trigger] first.scanned(position, path, sighting, now, t);
    let t2 = choose|t: u64|
        second.next_ticket <= t <= third.next_ticket && third.state_at(key)
            == #[trigger] second.scanned(position, path, sighting, later, t);
    assert(second.decision_for(position, path, sighting) == first.decision_for(
        position,
        path,
        sighting,
    ));
    lemma_settle_idempotent(
        first.state_at(key),
        first.decision_for(position, path, sighting),
        sighting,
        now,
        t1,
        later,
        t2,
    );
}

/// Whether a transfer of `kind` ends with a record to commit.
pub open spec fn needs_record(kind: TransferKind) -> bool {
    kind == TransferKind::Upload || kind == TransferKind::Download || kind == TransferKind::Adopt
}

/// The operation under which a transfer of `kind` enters the history, if
/// it does: a record that is adopted or forgotten moves no file.
pub open spec fn history_operation(kind: TransferKind) -> Option<SyncHistoryOperation> {
    match kind {
        TransferKind::Upload => Some(SyncHistoryOperation::Upload),
        TransferKind::Download => Some(SyncHistoryOperation::Download),
        TransferKind::DeleteLocal => Some(SyncHistoryOperation::DeleteLocal),
        TransferKind::DeleteRemote => Some(SyncHistoryOperation::DeleteRemote),
        TransferKind::Adopt | TransferKind::Forget => None,
    }
}

/// The history after `entry` was added: the oldest record leaves where the
/// history is full.
pub open spec fn history_after(
    history: Seq<SyncHistoryEntryModel>,
    limit: nat,
    entry: SyncHistoryEntryModel,
) -> Seq<SyncHistoryEntryModel> {
    if limit == 0 {
        history
    } else if history.len() < limit {
        history.push(entry)
    } else {
        history.remove(0).push(entry)
    }
}

/// `a + b`, or the largest number there is.
pub open spec fn capped_sum(a: u64, b: u64) -> u64 {
    if a + b > u64::MAX {
        u64::MAX
    } else {
        (a + b) as u64
    }
}

/// The counters after a transfer of `bytes` bytes was carried out at `now`.
pub open spec fn stats_after(stats: SyncStats, bytes: u64, now: i64) -> SyncStats {
    SyncStats {
        files_synced: capped_sum(stats.files_synced, 1),
        bytes_synced: capped_sum(stats.bytes_synced, bytes),
        files_pending: stats.files_pending,
        last_sync: Some(now),
    }
}

/// What the history says of a record that the index refused.
pub open spec fn refusal_text() -> Seq<char> {
    "the index refused the record"@
}

/// A conflict that was resolved, with what is to be done about it.
#[derive(Debug)]
pub struct Resolved {
    pub folder: [u8; 16],
    pub path: String,
    pub plan: ResolutionPlan,
}

/// The paths of a list of resolved conflicts, in order.
pub open spec fn resolved_keys(resolved: Seq<Resolved>) -> Seq<PathKey> {
    Seq::new(resolved.len(), |i: int| (resolved[i].folder, resolved[i].path@))
}

/// A transfer handed to a worker.
#[derive(Debug)]
pub struct TransferTask {
    pub folder: [u8; 16],
    pub path: String,
    pub kind: TransferKind,
    /// The version that the path holds on both sides once the transfer is
    /// done; `None` where the file goes away.
    pub target: Option<FileVersion>,
    /// Failed attempts before this one.
    pub attempts: u32,
}

pub(crate) struct FolderEntry {
    pub(crate) id: [u8; 16],
    pub(crate) local_path: String,
    pub(crate) name: String,
    pub(crate) last_sync: i64,
    pub(crate) scan_requested: bool,
    pub(crate) options: SyncFolderOptions,
}

pub(crate) struct PathEntry {
    pub(crate) folder: [u8; 16],
    pub(crate) path: String,
    pub(crate) state: PathState,
}

pub(crate) open spec fn folder_models(folders: Seq<FolderEntry>) -> Seq<FolderModel> {
    Seq::new(
        folders.len(),
        |i: int|
            FolderModel {
                id: folders[i].id,
                local_path: folders[i].local_path@,
                name: folders[i].name@,
                last_sync: folders[i].last_sync,
                scan_requested: folders[i].scan_requested,
                options: folders[i].options@,
            },
    )
}

pub(crate) open spec fn path_keys(paths: Seq<PathEntry>) -> Seq<PathKey> {
    Seq::new(paths.len(), |i: int| (paths[i].folder, paths[i].path@))
}

pub(crate) open spec fn path_states(paths: Seq<PathEntry>) -> Seq<PathState> {
    Seq::new(paths.len(), |i: int| paths[i].state)
}

pub open spec fn history_models(history: Seq<SyncHistoryEntry>) -> Seq<
    SyncHistoryEntryModel,
> {
    Seq::new(history.len(), |i: int| history[i]@)
}

pub(crate) open spec fn busy(pool: Pool) -> spec_fn(PathState) -> bool {
    |s: PathState| s.busy_in(pool)
}

/// One if the state keeps a worker of `pool` busy, else zero.
pub open spec fn load(state: PathState, pool: Pool) -> nat {
    if state.busy_in(pool) {
        1
    } else {
        0
    }
}

/// The core sync engine.
pub struct SyncEngine {
    pub(crate) state: SyncEngineState,
    pub(crate) config: SyncConfig,
    pub(crate) policy: RetryPolicy,
    pub(crate) folders: Vec<FolderEntry>,
    pub(crate) paths: Vec<PathEntry>,
    pub(crate) index: SyncIndex,
    pub(crate) stats: SyncStats,
    pub(crate) history: Vec<SyncHistoryEntry>,
    pub(crate) history_limit: usize,
    pub(crate) next_ticket: u64,
}

impl View for SyncEngine {
    type V = EngineModel;

    closed spec fn view(&self) -> EngineModel {
        EngineModel {
            state: self.state,
            config: self.config@,
            policy: self.policy,
            folders: folder_models(self.folders@),
            paths: as_map(path_keys(self.paths@), path_states(self.paths@)),
            index: self.index@,
            stats: self.stats,
            history: history_models(self.history@),
            history_limit: self.history_limit as nat,
            next_ticket: self.next_ticket,
        }
    }
}

impl SyncEngine {
    /// The number of transfers that workers of `pool` are running.
    pub closed spec fn active(&self, pool: Pool) -> nat {
        count_if(path_states(self.paths@), busy(pool))
    }

    /// The number of transfers that are queued and not under way.
    pub closed spec fn queued(&self) -> nat {
        count_if(path_states(self.paths@), waiting())
    }

    /// What the counts count: the paths that have a job of the pool under
    /// way, and the paths whose job waits.
    pub proof fn lemma_counts(&self, pool: Pool)
        requires
            self.wf(),
        ensures
            self@.running(pool).finite(),
            self.active(pool) == self@.running(pool).len(),
            self@.pending().finite(),
            self.queued() == self@.pending().len(),
    {
        let keys = path_keys(self.paths@);
        let states = path_states(self.paths@);
        lemma_count_if_keys(keys, states, busy(pool));
        lemma_count_if_keys(keys, states, waiting());
        assert(self@.running(pool) =~= keys_where(self@.paths, busy(pool)));
        assert(self@.pending() =~= keys_where(self@.paths, waiting()));
    }

    /// The invariant of the engine: the index and the queue are in order, no
    /// folder and no path is held twice, and neither pool runs more
    /// transfers than it may.
    pub closed spec fn wf(&self) -> bool {
        &&& self.index.wf()
        &&& self@.queue_wf()
        &&& path_keys(self.paths@).no_duplicates()
        &&& forall|i: int, j: int|
            0 <= i < self.folders@.len() && 0 <= j < self.folders@.len() && i != j
                ==> self.folders@[i].id != self.folders@[j].id
        &&& self.active(Pool::Uploads) <= self@.limit(Pool::Uploads)
        &&& self.active(Pool::Downloads) <= self@.limit(Pool::Downloads)
    }

    /// Concurrency bound: an engine in order runs no more uploads than
    /// `max_concurrent_uploads` and no more downloads than
    /// `max_concurrent_downloads`.
    pub proof fn lemma_concurrency_bound(&self, pool: Pool)
        requires
            self.wf(),
        ensures
            self@.running(pool).finite(),
            self@.running(pool).len() <= self@.limit(pool),
            self.active(pool) == self@.running(pool).len(),
            self@.queue_wf(),
    {
        self.lemma_counts(pool);
    }

    /// A stopped engine with no folders, the given configuration and the
    /// default retry policy.
    pub fn with_config(config: SyncConfig) -> (engine: Self)
        ensures
            engine.wf(),
            engine@.state == SyncEngineState::Stopped,
            engine@.config == config@,
            engine@.policy == (RetryPolicy { max_attempts: 3, base_delay: 1, max_delay: 60 }),
            engine@.folders.len() == 0,
            engine@.paths == Map::<PathKey, PathState>::empty(),
            engine@.index.files == Map::<PathKey, FileRecordModel>::empty(),
            engine@.history.len() == 0,
            engine@.history_limit == DEFAULT_HISTORY_LIMIT,
            engine@.stats == (SyncStats {
                files_synced: 0,
                bytes_synced: 0,
                files_pending: 0,
                last_sync: None,
            }),
            engine.active(Pool::Uploads) == 0,
            engine.active(Pool::Downloads) == 0,
    {
        let engine = SyncEngine {
            state: SyncEngineState::Stopped,
            config,
            policy: RetryPolicy::new(),
            folders: Vec::new(),
            paths: Vec::new(),
            index: SyncIndex::new(),
            stats: SyncStats { files_synced: 0, bytes_synced: 0, files_pending: 0, last_sync: None },
            history: Vec::new(),
            history_limit: DEFAULT_HISTORY_LIMIT,
            next_ticket: 0,
        };
        proof {
            assert(engine@.paths =~= Map::<PathKey, PathState>::empty());
        }
        engine
    }

    /// A stopped engine with no folders and the default configuration.
    pub fn new() -> (engine: Self)
        ensures
            engine.wf(),
            engine@.state == SyncEngineState::Stopped,
            engine@.config == (SyncConfigModel {
                max_concurrent_uploads: 8,
                max_concurrent_downloads: 16,
                sync_interval_seconds: 60,
                exclude_patterns: seq!["*.tmp"@, ".DS_Store"@, "Thumbs.db"@, ".git/**"@],
            }),
            engine@.policy == (RetryPolicy { max_attempts: 3, base_delay: 1, max_delay: 60 }),
            engine@.folders.len() == 0,
            engine@.paths == Map::<PathKey, PathState>::empty(),
            engine@.index.files == Map::<PathKey, FileRecordModel>::empty(),
            engine@.history.len() == 0,
            engine@.history_limit == DEFAULT_HISTORY_LIMIT,
            engine.active(Pool::Uploads) == 0,
            engine.active(Pool::Downloads) == 0,
    {
        SyncEngine::with_config(SyncConfig::default())
    }

    /// Whether the engine schedules work.
    pub fn state(&self) -> (state: SyncEngineState)
        ensures
            state == self@.state,
    {
        self.state
    }

    /// The index of the engine.
    pub fn index(&self) -> (index: &SyncIndex)
        ensures
            index@ == self@.index,
            self.wf() ==> index.wf(),
    {
        &self.index
    }

    /// Starts a stopped engine.
    pub fn start(&mut self) -> (r: Result<(), SyncError>)
        requires
            old(self).wf(),
        ensures
            final(self).wf(),
            r == (if old(self)@.state == SyncEngineState::Stopped {
                Ok::<(), SyncError>(())
            } else {
                Err(SyncError::AlreadyStarted)
            }),
            final(self)@ == (if r is Ok {
                EngineModel { state: SyncEngineState::Running, ..old(self)@ }
            } else {
                old(self)@
            }),
            final(self).active(Pool::Uploads) == old(self).active(Pool::Uploads),
            final(self).active(Pool::Downloads) == old(self).active(Pool::Downloads),
    {
        if self.state == SyncEngineState::Stopped {
            self.state = SyncEngineState::Running;
            Ok(())
        } else {
            Err(SyncError::AlreadyStarted)
        }
    }

    /// Pauses a running engine: no transfer is handed out until it is
    /// resumed; those under way go on. Any other engine is left as it is.
    pub fn pause(&mut self)
        requires
            old(self).wf(),
        ensures
            final(self).wf(),
            final(self)@ == (EngineModel {
                state: if old(self)@.state == SyncEngineState::Running {
                    SyncEngineState::Paused
                } else {
                    old(self)@.state
                },
                ..old(self)@
            }),
            final(self).active(Pool::Uploads) == old(self).active(Pool::Uploads),
            final(self).active(Pool::Downloads) == old(self).active(Pool::Downloads),
    {
        if self.state == SyncEngineState::Running {
            self.state = SyncEngineState::Paused;
        }
    }

    /// Resumes a paused engine. Any other engine is left as it is.
    pub fn resume(&mut self)
        requires
            old(self).wf(),
        ensures
            final(self).wf(),
            final(self)@ == (EngineModel {
                state: if old(self)@.state == SyncEngineState::Paused {
                    SyncEngineState::Running
                } else {
                    old(self)@.state
                },
                ..old(self)@
            }),
            final(self).active(Pool::Uploads) == old(self).active(Pool::Uploads),
            final(self).active(Pool::Downloads) == old(self).active(Pool::Downloads),
    {
        if self.state == SyncEngineState::Paused {
            self.state = SyncEngineState::Running;
        }
    }
}

impl Default for SyncEngine {
    fn default() -> (engine: Self)
        ensures
            engine.wf(),
            engine@.state == SyncEngineState::Stopped,
    {
        SyncEngine::new()
    }
}

impl SyncEngine {
    pub(crate) fn find_path(&self, folder: &[u8; 16], path: &String) -> (found: Option<usize>)
        requires
            path_keys(self.paths@).no_duplicates(),
        ensures
            found matches Some(i) ==> i < self.paths@.len() && self.paths@[i as int].folder
                == *folder && self.paths@[i as int].path@ == path@ && self@.paths.contains_key(
                (*folder, path@),
            ) && self@.paths[(*folder, path@)] == self.paths@[i as int].state,
            found is None ==> !self@.paths.contains_key((*folder, path@)),
    {
        let mut i: usize = 0;
        while i < self.paths.len()
            invariant
                i <= self.paths@.len(),
                path_keys(self.paths@).no_duplicates(),
                forall|j: int|
                    0 <= j < i ==> !(self.paths@[j].folder == *folder && self.paths@[j].path@
                        == path@),
            decreases self.paths@.len() - i,
        {
            if same_folder(&self.paths[i].folder, folder) && self.paths[i].path == *path {
                proof {
                    assert(path_keys(self.paths@)[i as int] == (*folder, path@));
                    lemma_as_map_at(path_keys(self.paths@), path_states(self.paths@), i as int);
                }
                return Some(i);
            }
            i = i + 1;
        }
        proof {
            if path_keys(self.paths@).contains((*folder, path@)) {
                let j = path_keys(self.paths@).index_of((*folder, path@));
                assert(path_keys(self.paths@)[j] == (*folder, path@));
            }
        }
        None
    }

    /// What is held for `path` in `folder`.
    pub fn path_state(&self, folder: &[u8; 16], path: &String) -> (state: PathState)
        requires
            self.wf(),
        ensures
            state == self@.state_at((*folder, path@)),
    {
        match self.find_path(folder, path) {
            Some(i) => self.paths[i].state,
            None => PathState { job: None, clash: None, failed: None },
        }
    }

    /// Puts `state` in the place of what is held for `path` in `folder`.
    pub(crate) fn store(&mut self, folder: &[u8; 16], path: &String, state: PathState)
        requires
            old(self).wf(),
            old(self)@.admits((*folder, path@), state),
            forall|pool: Pool|
                state.busy_in(pool) && !old(self)@.state_at((*folder, path@)).busy_in(pool)
                    ==> old(self).active(pool) < old(self)@.limit(pool),
        ensures
            final(self).wf(),
            final(self)@ == (EngineModel {
                paths: old(self)@.with_state((*folder, path@), state),
                next_ticket: old(self)@.ticket_after(state),
                ..old(self)@
            }),
            forall|pool: Pool|
                final(self).active(pool) + load(old(self)@.state_at((*folder, path@)), pool)
                    == old(self).active(pool) + load(state, pool),
    {
        let ghost before = *self;
        let ghost key = (*folder, path@);
        let ghost keys = path_keys(self.paths@);
        let ghost states = path_states(self.paths@);
        let idle = state.job.is_none() && state.clash.is_none() && state.failed.is_none();
        let takes = match state.job {
            Some(job) => job.ticket == self.next_ticket,
            None => false,
        };
        match self.find_path(folder, path) {
            Some(i) => {
                if idle {
                    proof {
                        lemma_as_map_remove(keys, states, i as int);
                        lemma_count_if_remove(states, i as int, busy(Pool::Uploads));
                        lemma_count_if_remove(states, i as int, busy(Pool::Downloads));
                    }
                    self.paths.remove(i);
                    proof {
                        assert(path_keys(self.paths@) =~= keys.remove(i as int));
                        assert(path_states(self.paths@) =~= states.remove(i as int));
                    }
                } else {
                    proof {
                        lemma_as_map_update(keys, states, i as int, state);
                        lemma_count_if_update(states, i as int, state, busy(Pool::Uploads));
                        lemma_count_if_update(states, i as int, state, busy(Pool::Downloads));
                    }
                    self.paths[i].state = state;
                    proof {
                        assert(path_keys(self.paths@) =~= keys);
                        assert(path_states(self.paths@) =~= states.update(i as int, state));
                    }
                }
            },
            None => {
                if !idle {
                    proof {
                        lemma_as_map_push(keys, states, key, state);
                        lemma_count_if_push(states, state, busy(Pool::Uploads));
                        lemma_count_if_push(states, state, busy(Pool::Downloads));
                    }
                    self.paths.push(PathEntry { folder: *folder, path: path.clone(), state });
                    proof {
                        assert(path_keys(self.paths@) =~= keys.push(key));
                        assert(path_states(self.paths@) =~= states.push(state));
                    }
                } else {
                    proof {
                        assert(before@.paths.remove(key) =~= before@.paths);
                    }
                }
            },
        }
        if takes && self.next_ticket < u64::MAX {
            self.next_ticket = self.next_ticket + 1;
        }
        proof {
            assert(self@.paths == before@.with_state(key, state));
            assert forall|pool: Pool|
                self.active(pool) + load(before@.state_at(key), pool) == before.active(pool)
                    + load(state, pool) by {
                match pool {
                    Pool::Uploads => {},
                    Pool::Downloads => {},
                }
            }
            assert(self.active(Pool::Uploads) <= self@.limit(Pool::Uploads));
            assert(self.active(Pool::Downloads) <= self@.limit(Pool::Downloads));
        }
    }
}

impl SyncEngine {
    pub(crate) fn find_folder(&self, id: &[u8; 16]) -> (found: Option<usize>)
        ensures
            found matches Some(i) ==> i < self.folders@.len() && self.folders@[i as int].id == *id,
            found is Some <==> self@.has_folder(*id),
    {
        let mut i: usize = 0;
        while i < self.folders.len()
            invariant
                i <= self.folders@.len(),
                forall|j: int| 0 <= j < i ==> (#[trigger] self@.folders[j]).id != *id,
            decreases self.folders@.len() - i,
        {
            if same_folder(&self.folders[i].id, id) {
                assert(self@.folders[i as int].id == *id);
                return Some(i);
            }
            i = i + 1;
        }
        None
    }

    fn find_local_path(&self, path: &String) -> (found: bool)
        ensures
            found == self@.has_local_path(path@),
    {
        let mut i: usize = 0;
        while i < self.folders.len()
            invariant
                i <= self.folders@.len(),
                forall|j: int| 0 <= j < i ==> (#[trigger] self@.folders[j]).local_path != path@,
            decreases self.folders@.len() - i,
        {
            if self.folders[i].local_path == *path {
                assert(self@.folders[i as int].local_path == path@);
                return true;
            }
            i = i + 1;
        }
        false
    }

    /// Adds a folder: it is new, never scanned, and a scan is asked for.
    /// `found_on_disk` says whether the local path was found to be a directory. A
    /// path that does not exist or is empty is refused, and so is an
    /// identifier or a local path that another folder has.
    pub fn add_folder(
        &mut self,
        id: [u8; 16],
        local_path: String,
        name: String,
        found_on_disk: bool,
        options: SyncFolderOptions,
    ) -> (r: Result<[u8; 16], SyncError>)
        requires
            old(self).wf(),
        ensures
            final(self).wf(),
            r == (if !found_on_disk || local_path@.len() == 0 {
                Err::<[u8; 16], SyncError>(SyncError::InvalidFolder)
            } else if old(self)@.has_folder(id) || old(self)@.has_local_path(local_path@) {
                Err(SyncError::FolderExists)
            } else {
                Ok(id)
            }),
            final(self)@ == (if r is Ok {
                EngineModel {
                    folders: old(self)@.folders.push(
                        FolderModel {
                            id,
                            local_path: local_path@,
                            name: name@,
                            last_sync: 0,
                            scan_requested: true,
                            options: options@,
                        },
                    ),
                    ..old(self)@
                }
            } else {
                old(self)@
            }),
            final(self).active(Pool::Uploads) == old(self).active(Pool::Uploads),
            final(self).active(Pool::Downloads) == old(self).active(Pool::Downloads),
    {
        if !found_on_disk || local_path.as_str().unicode_len() == 0 {
            return Err(SyncError::InvalidFolder);
        }
        if self.find_folder(&id).is_some() || self.find_local_path(&local_path) {
            return Err(SyncError::FolderExists);
        }
        let ghost before = *self;
        let ghost model = FolderModel {
            id,
            local_path: local_path@,
            name: name@,
            last_sync: 0,
            scan_requested: true,
            options: options@,
        };
        self.folders.push(
            FolderEntry { id, local_path, name, last_sync: 0, scan_requested: true, options },
        );
        proof {
            assert(self@.folders =~= before@.folders.push(model));
            assert forall|i: int, j: int|
                0 <= i < self.folders@.len() && 0 <= j < self.folders@.len() && i
                    != j implies self.folders@[i].id != self.folders@[j].id by {
                if i < before.folders@.len() {
                    assert(before@.folders[i].id == before.folders@[i].id);
                }
                if j < before.folders@.len() {
                    assert(before@.folders[j].id == before.folders@[j].id);
                }
            }
        }
        Ok(id)
    }

    /// The paths of `folder` for which something is held.
    pub(crate) fn held_paths(&self, folder: &[u8; 16]) -> (found: Vec<String>)
        requires
            self.wf(),
        ensures
            forall|path: Seq<char>|
                lists(found@, path) <==> self@.paths.contains_key((*folder, path)),
            found@.len() <= self@.paths.dom().len(),
    {
        proof {
            crate::assoc::lemma_dom_len(path_keys(self.paths@), path_states(self.paths@));
        }
        let mut found: Vec<String> = Vec::new();
        let mut k: usize = 0;
        let ghost keys = path_keys(self.paths@);
        while k < self.paths.len()
            invariant
                k <= self.paths@.len(),
                keys == path_keys(self.paths@),
                forall|path: Seq<char>|
                    lists(found@, path) <==> exists|j: int|
                        0 <= j < k && #[trigger] keys[j] == (*folder, path),
                found@.len() <= k,
            decreases self.paths@.len() - k,
        {
            let entry = &self.paths[k];
            assert(keys[k as int] == (entry.folder, entry.path@));
            let ghost before = found@;
            let inside = same_folder(&entry.folder, folder);
            if inside {
                found.push(entry.path.clone());
            }
            proof {
                assert forall|path: Seq<char>|
                    lists(found@, path) <==> exists|j: int|
                        0 <= j < k + 1 && #[trigger] keys[j] == (*folder, path) by {
                    if inside {
                        let added = found@.last();
                        assert(found@ =~= before.push(added));
                        if lists(before, path) {
                            let x = choose|x: int|
                                0 <= x < before.len() && (#[trigger] before[x])@ == path;
                            assert(found@[x]@ == path);
                        }
                        if added@ == path {
                            assert(found@[before.len() as int]@ == path);
                        }
                        if lists(found@, path) {
                            let x = choose|x: int|
                                0 <= x < found@.len() && (#[trigger] found@[x])@ == path;
                            if x < before.len() {
                                assert(before[x]@ == path);
                            }
                        }
                    }
                    if exists|j: int| 0 <= j < k && #[trigger] keys[j] == (*folder, path) {
                        let j = choose|j: int| 0 <= j < k && #[trigger] keys[j] == (*folder, path);
                        assert(0 <= j < k + 1 && keys[j] == (*folder, path));
                    }
                    if exists|j: int| 0 <= j < k + 1 && #[trigger] keys[j] == (*folder, path) {
                        let j = choose|j: int|
                            0 <= j < k + 1 && #[trigger] keys[j] == (*folder, path);
                        if j < k {
                        } else {
                            assert(inside);
                        }
                    }
                }
            }
            k = k + 1;
        }
        proof {
            assert forall|path: Seq<char>|
                lists(found@, path) <==> self@.paths.contains_key((*folder, path)) by {
                if exists|j: int| 0 <= j < keys.len() && #[trigger] keys[j] == (*folder, path) {
                    let j = choose|j: int|
                        0 <= j < keys.len() && #[trigger] keys[j] == (*folder, path);
                    assert(keys.contains((*folder, path)));
                }
                if self@.paths.contains_key((*folder, path)) {
                    let j = keys.index_of((*folder, path));
                    assert(0 <= j < keys.len() && keys[j] == (*folder, path));
                }
            }
        }
        found
    }
}

impl SyncEngine {
    proof fn lemma_folder_position(&self, i: int)
        requires
            self.wf(),
            0 <= i < self.folders@.len(),
        ensures
            self@.folder_position(self.folders@[i].id) == i,
            self@.has_folder(self.folders@[i].id),
    {
        let id = self.folders@[i].id;
        assert(self@.folders[i].id == id);
        let j = self@.folder_position(id);
        assert(0 <= j < self@.folders.len() && self@.folders[j].id == id);
        assert(self.folders@[j].id == self@.folders[j].id);
    }

    /// Drops everything that is held for the paths of `folder`.
    fn clear_folder(&mut self, folder: &[u8; 16])
        requires
            old(self).wf(),
        ensures
            final(self).wf(),
            final(self)@ == (EngineModel {
                paths: old(self)@.without_folder(*folder),
                ..old(self)@
            }),
            forall|pool: Pool| final(self).active(pool) <= old(self).active(pool),
    {
        let held = self.held_paths(folder);
        let ghost start = *self;
        let mut n: usize = 0;
        while n < held.len()
            invariant
                n <= held@.len(),
                self.wf(),
                start.wf(),
                forall|path: Seq<char>|
                    lists(held@, path) <==> start@.paths.contains_key((*folder, path)),
                self@ == (EngineModel { paths: self@.paths, ..start@ }),
                forall|k: PathKey|
                    k.0 != *folder ==> (#[trigger] self@.paths.contains_key(k)
                        <==> start@.paths.contains_key(k)),
                forall|k: PathKey|
                    k.0 != *folder && start@.paths.contains_key(k) ==> #[trigger] self@.paths[k]
                        == start@.paths[k],
                forall|k: PathKey| #[trigger]
                    self@.paths.contains_key(k) ==> start@.paths.contains_key(k),
                forall|x: int|
                    0 <= x < n ==> !self@.paths.contains_key((*folder, #[trigger] held@[x]@)),
                forall|pool: Pool| self.active(pool) <= start.active(pool),
            decreases held@.len() - n,
        {
            let ghost before = *self;
            self.store(folder, &held[n], PathState { job: None, clash: None, failed: None });
            proof {
                assert forall|pool: Pool| self.active(pool) <= start.active(pool) by {
                    assert(self.active(pool) + load(
                        before@.state_at((*folder, held@[n as int]@)),
                        pool,
                    ) == before.active(pool) + load(PathState::idle(), pool));
                }
            }
            n = n + 1;
        }
        proof {
            assert forall|k: PathKey| self@.paths.contains_key(k) implies k.0 != *folder by {
                if k.0 == *folder {
                    assert(start@.paths.contains_key((*folder, k.1)));
                    assert(lists(held@, k.1));
                    let x = choose|x: int| 0 <= x < held@.len() && (#[trigger] held@[x])@ == k.1;
                    assert(!self@.paths.contains_key((*folder, held@[x]@)));
                }
            }
            assert(self@.paths =~= start@.without_folder(*folder));
        }
    }

    /// Removes a folder with everything that is held and recorded for its
    /// paths. Hands back the paths whose records were dropped.
    pub fn remove_folder(&mut self, id: &[u8; 16]) -> (r: Result<Vec<String>, SyncError>)
        requires
            old(self).wf(),
        ensures
            final(self).wf(),
            r is Ok <==> old(self)@.has_folder(*id),
            r matches Err(e) ==> e == SyncError::FolderNotFound && final(self)@ == old(self)@,
            r matches Ok(gone) ==> final(self)@ == (EngineModel {
                folders: old(self)@.folders.remove(old(self)@.folder_position(*id)),
                paths: old(self)@.without_folder(*id),
                index: old(self)@.index.dropped_all(*id, path_models(gone@)),
                ..old(self)@
            }) && (forall|path: Seq<char>|
                lists(gone@, path) <==> old(self)@.index.files.contains_key((*id, path))),
            forall|pool: Pool| final(self).active(pool) <= old(self).active(pool),
    {
        match self.find_folder(id) {
            None => Err(SyncError::FolderNotFound),
            Some(i) => {
                let ghost before = *self;
                proof {
                    self.lemma_folder_position(i as int);
                }
                self.clear_folder(id);
                let ghost cleared = *self;
                let gone = self.index.remove_folder(id);
                self.folders.remove(i);
                proof {
                    assert(path_states(self.paths@) == path_states(cleared.paths@));
                    assert(self@.folders =~= before@.folders.remove(i as int));
                    assert forall|a: int, b: int|
                        0 <= a < self.folders@.len() && 0 <= b < self.folders@.len() && a
                            != b implies self.folders@[a].id != self.folders@[b].id by {
                        let a2 = if a < i {
                            a
                        } else {
                            a + 1
                        };
                        let b2 = if b < i {
                            b
                        } else {
                            b + 1
                        };
                        assert(before.folders@[a2].id != before.folders@[b2].id);
                    }
                }
                Ok(gone)
            },
        }
    }

    /// Replaces the options of a folder. They count from the next scan on.
    pub fn update_folder_options(&mut self, id: &[u8; 16], options: SyncFolderOptions) -> (r:
        Result<(), SyncError>)
        requires
            old(self).wf(),
        ensures
            final(self).wf(),
            r is Ok <==> old(self)@.has_folder(*id),
            r matches Err(e) ==> e == SyncError::FolderNotFound && final(self)@ == old(self)@,
            r is Ok ==> final(self)@ == (EngineModel {
                folders: old(self)@.folders.update(
                    old(self)@.folder_position(*id),
                    FolderModel {
                        options: options@,
                        ..old(self)@.folders[old(self)@.folder_position(*id)]
                    },
                ),
                ..old(self)@
            }),
            final(self).active(Pool::Uploads) == old(self).active(Pool::Uploads),
            final(self).active(Pool::Downloads) == old(self).active(Pool::Downloads),
    {
        match self.find_folder(id) {
            None => Err(SyncError::FolderNotFound),
            Some(i) => {
                let ghost before = *self;
                proof {
                    self.lemma_folder_position(i as int);
                }
                self.folders[i].options = options;
                proof {
                    assert(self@.folders =~= before@.folders.update(
                        i as int,
                        FolderModel { options: options@, ..before@.folders[i as int] },
                    ));
                }
                Ok(())
            },
        }
    }

    /// Asks for a scan of a folder, to be made as soon as the engine is
    /// driven next, whatever the scan interval.
    pub fn sync_now(&mut self, id: &[u8; 16]) -> (r: Result<(), SyncError>)
        requires
            old(self).wf(),
        ensures
            final(self).wf(),
            r is Ok <==> old(self)@.has_folder(*id),
            r matches Err(e) ==> e == SyncError::FolderNotFound && final(self)@ == old(self)@,
            r is Ok ==> final(self)@ == (EngineModel {
                folders: old(self)@.folders.update(
                    old(self)@.folder_position(*id),
                    FolderModel {
                        scan_requested: true,
                        ..old(self)@.folders[old(self)@.folder_position(*id)]
                    },
                ),
                ..old(self)@
            }),
            final(self).active(Pool::Uploads) == old(self).active(Pool::Uploads),
            final(self).active(Pool::Downloads) == old(self).active(Pool::Downloads),
    {
        match self.find_folder(id) {
            None => Err(SyncError::FolderNotFound),
            Some(i) => {
                let ghost before = *self;
                proof {
                    self.lemma_folder_position(i as int);
                }
                self.folders[i].scan_requested = true;
                proof {
                    assert(self@.folders =~= before@.folders.update(
                        i as int,
                        FolderModel { scan_requested: true, ..before@.folders[i as int] },
                    ));
                }
                Ok(())
            },
        }
    }
}

/// The version in which `path` was observed, if it was.
pub fn look_up(observed: &Vec<ObservedFile>, path: &String) -> (found: Option<FileVersion>)
    ensures
        found == seen(observed_models(observed@), path@),
{
    let ghost models = observed_models(observed@);
    let mut i: usize = 0;
    proof {
        assert(models.subrange(0, 0) =~= Seq::<ObservedFileModel>::empty());
    }
    while i < observed.len()
        invariant
            i <= observed@.len(),
            models == observed_models(observed@),
            seen(models.subrange(0, i as int), path@) is None,
        decreases observed@.len() - i,
    {
        proof {
            let next = models.subrange(0, i + 1);
            assert(next.drop_last() =~= models.subrange(0, i as int));
            assert(next.last() == observed@[i as int]@);
            lemma_seen(models, path@, i + 1);
        }
        if observed[i].path == *path {
            return Some(observed[i].version);
        }
        i = i + 1;
    }
    proof {
        assert(models.subrange(0, models.len() as int) =~= models);
    }
    None
}

impl SyncEngine {
    /// Settles one path of the folder at `position` on what a scan saw.
    fn settle_path(
        &mut self,
        position: usize,
        path: &String,
        local: &Vec<ObservedFile>,
        remote: &Vec<ObservedFile>,
        now: i64,
    )
        requires
            old(self).wf(),
            position < old(self)@.folders.len(),
            old(self)@.next_ticket < u64::MAX,
        ensures
            final(self).wf(),
            final(self)@ == (EngineModel {
                paths: old(self)@.with_state(
                    (old(self)@.folders[position as int].id, path@),
                    old(self)@.scanned(
                        position as int,
                        path@,
                        sighting_of(observed_models(local@), observed_models(remote@), path@),
                        now,
                        old(self)@.next_ticket,
                    ),
                ),
                next_ticket: old(self)@.ticket_after(
                    old(self)@.scanned(
                        position as int,
                        path@,
                        sighting_of(observed_models(local@), observed_models(remote@), path@),
                        now,
                        old(self)@.next_ticket,
                    ),
                ),
                ..old(self)@
            }),
            forall|pool: Pool| final(self).active(pool) == old(self).active(pool),
    {
        let folder = self.folders[position].id;
        let ghost key = (folder, path@);
        assert(self@.folders[position as int].id == folder);
        let sighting = Sighting { local: look_up(local, path), remote: look_up(remote, path) };
        let oversize = match (self.folders[position].options.max_file_size, sighting.local) {
            (Some(limit), Some(version)) => version.size > limit,
            _ => false,
        };
        let skip = oversize || is_excluded(&self.config.exclude_patterns, path.as_str())
            || is_excluded(&self.folders[position].options.exclude_patterns, path.as_str());
        let decision = if skip {
            SyncDecision::Unchanged
        } else {
            let base = match self.index.get(&folder, path) {
                Some(record) => Some(record.version()),
                None => None,
            };
            ConflictResolver::new().decide(self.folders[position].options.mode, base, sighting)
        };
        let held = self.path_state(&folder, path);
        let after = settle(&held, decision, &sighting, now, self.next_ticket);
        let ghost before = *self;
        self.store(&folder, path, after);
        proof {
            assert forall|pool: Pool| self.active(pool) == before.active(pool) by {
                assert(self.active(pool) + load(before@.state_at(key), pool) == before.active(pool)
                    + load(after, pool));
            }
        }
    }
}

impl SyncEngine {
    /// Settles the paths of `paths`, one after the other.
    fn settle_list(
        &mut self,
        position: usize,
        paths: &Vec<String>,
        local: &Vec<ObservedFile>,
        remote: &Vec<ObservedFile>,
        now: i64,
    )
        requires
            old(self).wf(),
            position < old(self)@.folders.len(),
            old(self)@.next_ticket + paths@.len() <= u64::MAX,
        ensures
            final(self).wf(),
            final(self)@ == (EngineModel {
                paths: final(self)@.paths,
                next_ticket: final(self)@.next_ticket,
                ..old(self)@
            }),
            old(self)@.next_ticket <= final(self)@.next_ticket <= old(self)@.next_ticket
                + paths@.len(),
            forall|pool: Pool| final(self).active(pool) == old(self).active(pool),
            forall|k: PathKey|
                k.0 != old(self)@.folders[position as int].id ==> #[trigger] final(self)@.state_at(
                    k,
                ) == old(self)@.state_at(k),
            forall|path: Seq<char>|
                lists(paths@, path) ==> #[trigger] old(self)@.settled_in(
                    final(self)@,
                    position as int,
                    path,
                    sighting_of(observed_models(local@), observed_models(remote@), path),
                    now,
                ),
            forall|path: Seq<char>|
                !lists(paths@, path) ==> final(self)@.state_at(
                    (old(self)@.folders[position as int].id, path),
                ) == old(self)@.state_at((old(self)@.folders[position as int].id, path)),
    {
        let ghost start = *self;
        let ghost id = self@.folders[position as int].id;
        let ghost ls = observed_models(local@);
        let ghost rs = observed_models(remote@);
        let mut n: usize = 0;
        while n < paths.len()
            invariant
                n <= paths@.len(),
                self.wf(),
                start.wf(),
                position < start@.folders.len(),
                id == start@.folders[position as int].id,
                ls == observed_models(local@),
                rs == observed_models(remote@),
                self@ == (EngineModel {
                    paths: self@.paths,
                    next_ticket: self@.next_ticket,
                    ..start@
                }),
                start@.next_ticket + paths@.len() <= u64::MAX,
                start@.next_ticket <= self@.next_ticket <= start@.next_ticket + n,
                forall|pool: Pool| self.active(pool) == start.active(pool),
                forall|k: PathKey| k.0 != id ==> #[trigger] self@.state_at(k) == start@.state_at(k),
                forall|path: Seq<char>|
                    (exists|x: int| 0 <= x < n && (#[trigger] paths@[x])@ == path)
                        ==> #[trigger] start@.settled_in(
                        self@,
                        position as int,
                        path,
                        sighting_of(ls, rs, path),
                        now,
                    ),
                forall|path: Seq<char>|
                    !(exists|x: int| 0 <= x < n && (#[trigger] paths@[x])@ == path)
                        ==> #[trigger] self@.state_at((id, path)) == start@.state_at((id, path)),
            decreases paths@.len() - n,
        {
            let ghost before = *self;
            let ghost q = paths@[n as int]@;
            let ghost sq = sighting_of(ls, rs, q);
            self.settle_path(position, &paths[n], local, remote, now);
            proof {
                let key = (id, q);
                let done = before@.scanned(position as int, q, sq, now, before@.next_ticket);
                assert(self@.state_at(key) == done);
                assert(before@.decision_for(position as int, q, sq) == start@.decision_for(
                    position as int,
                    q,
                    sq,
                ));
                assert forall|k: PathKey| k.0 != id implies #[trigger] self@.state_at(k)
                    == start@.state_at(k) by {
                    assert(before@.state_at(k) == start@.state_at(k));
                }
                assert forall|path: Seq<char>|
                    (exists|x: int| 0 <= x < n + 1 && (#[trigger] paths@[x])@ == path)
                        implies #[trigger] start@.settled_in(
                        self@,
                        position as int,
                        path,
                        sighting_of(ls, rs, path),
                        now,
                    ) by {
                    let s = sighting_of(ls, rs, path);
                    if exists|x: int| 0 <= x < n && (#[trigger] paths@[x])@ == path {
                        assert(start@.settled_in(before@, position as int, path, s, now));
                        let t = choose|t: u64|
                            start@.next_ticket <= t <= before@.next_ticket && before@.state_at(
                                (id, path),
                            ) == #[trigger] start@.scanned(position as int, path, s, now, t);
                        if path == q {
                            lemma_settle_idempotent(
                                start@.state_at(key),
                                start@.decision_for(position as int, q, sq),
                                sq,
                                now,
                                t,
                                now,
                                before@.next_ticket,
                            );
                            assert(self@.state_at(key) == start@.scanned(
                                position as int,
                                path,
                                s,
                                now,
                                t,
                            ));
                        } else {
                            assert(self@.state_at((id, path)) == before@.state_at((id, path)));
                            assert(self@.state_at((id, path)) == start@.scanned(
                                position as int,
                                path,
                                s,
                                now,
                                t,
                            ));
                        }
                    } else {
                        let x = choose|x: int| 0 <= x < n + 1 && (#[trigger] paths@[x])@ == path;
                        assert(x == n);
                        assert(path == q);
                        assert(before@.state_at(key) == start@.state_at(key));
                        assert(self@.state_at(key) == start@.scanned(
                            position as int,
                            path,
                            s,
                            now,
                            before@.next_ticket,
                        ));
                    }
                }
                assert forall|path: Seq<char>|
                    !(exists|x: int| 0 <= x < n + 1 && (#[trigger] paths@[x])@ == path)
                        implies #[trigger] self@.state_at((id, path)) == start@.state_at(
                        (id, path),
                    ) by {
                    if path == q {
                        assert(paths@[n as int]@ == path);
                    }
                    if exists|x: int| 0 <= x < n && (#[trigger] paths@[x])@ == path {
                        let x = choose|x: int| 0 <= x < n && (#[trigger] paths@[x])@ == path;
                        assert(0 <= x < n + 1 && paths@[x]@ == path);
                    }
                    assert(self@.state_at((id, path)) == before@.state_at((id, path)));
                }
            }
            n = n + 1;
        }
    }
}

/// Appends copies of the paths of `more` to `paths`.
fn append_paths(paths: &mut Vec<String>, more: &Vec<String>)
    ensures
        final(paths)@.len() == old(paths)@.len() + more@.len(),
        forall|path: Seq<char>|
            #![trigger lists(final(paths)@, path)]
            lists(final(paths)@, path) <==> lists(old(paths)@, path) || lists(more@, path),
{
    let ghost start = paths@;
    let mut i: usize = 0;
    while i < more.len()
        invariant
            i <= more@.len(),
            paths@.len() == start.len() + i,
            forall|x: int| 0 <= x < start.len() ==> paths@[x] == start[x],
            forall|x: int| 0 <= x < i ==> (#[trigger] paths@[start.len() + x])@ == more@[x]@,
        decreases more@.len() - i,
    {
        paths.push(more[i].clone());
        i = i + 1;
    }
    proof {
        assert forall|path: Seq<char>|
            lists(paths@, path) <==> lists(start, path) || lists(more@, path) by {
            if lists(start, path) {
                let x = choose|x: int| 0 <= x < start.len() && (#[trigger] start[x])@ == path;
                assert(paths@[x]@ == path);
            }
            if lists(more@, path) {
                let x = choose|x: int| 0 <= x < more@.len() && (#[trigger] more@[x])@ == path;
                assert(paths@[start.len() + x]@ == path);
            }
            if lists(paths@, path) {
                let x = choose|x: int| 0 <= x < paths@.len() && (#[trigger] paths@[x])@ == path;
                if x < start.len() {
                    assert(start[x]@ == path);
                } else {
                    assert(paths@[start.len() + (x - start.len())]@ == more@[x - start.len()]@);
                    assert(more@[x - start.len()]@ == path);
                }
            }
        }
    }
}

/// Appends copies of the paths that were observed to `paths`.
fn append_observed(paths: &mut Vec<String>, observed: &Vec<ObservedFile>)
    ensures
        final(paths)@.len() == old(paths)@.len() + observed@.len(),
        forall|path: Seq<char>|
            #![trigger lists(final(paths)@, path)]
            lists(final(paths)@, path) <==> lists(old(paths)@, path) || crate::index::observed_at(
                observed_models(observed@),
                path,
            ),
{
    let mut names: Vec<String> = Vec::new();
    let mut i: usize = 0;
    while i < observed.len()
        invariant
            i <= observed@.len(),
            names@.len() == i,
            forall|x: int| 0 <= x < i ==> (#[trigger] names@[x])@ == observed@[x].path@,
        decreases observed@.len() - i,
    {
        names.push(observed[i].path.clone());
        i = i + 1;
    }
    proof {
        let models = observed_models(observed@);
        assert forall|path: Seq<char>|
            lists(names@, path) <==> crate::index::observed_at(models, path) by {
            if lists(names@, path) {
                let x = choose|x: int| 0 <= x < names@.len() && (#[trigger] names@[x])@ == path;
                assert(models[x].path == path);
            }
            if crate::index::observed_at(models, path) {
                let x = choose|x: int| 0 <= x < models.len() && (#[trigger] models[x]).path == path;
                assert(names@[x]@ == path);
            }
        }
    }
    let ghost before = paths@;
    append_paths(paths, &names);
    proof {
        let models = observed_models(observed@);
        assert forall|path: Seq<char>|
            lists(paths@, path) <==> lists(before, path) || crate::index::observed_at(
                models,
                path,
            ) by {
            assert(lists(names@, path) <==> crate::index::observed_at(models, path));
        }
    }
}

impl SyncEngine {
    /// Takes in what a scan of a folder saw on the two sides, and plans
    /// what follows from it. Every path of the folder is settled on the
    /// decision that its three states call for (the recorded one, the local
    /// one and the remote one), under the folder's mode, patterns and size
    /// limit. The index is not touched: records change when transfers end.
    /// The folder is marked as scanned at `now`.
    pub fn scan(
        &mut self,
        id: &[u8; 16],
        local: &Vec<ObservedFile>,
        remote: &Vec<ObservedFile>,
        now: i64,
    ) -> (r: Result<(), SyncError>)
        requires
            old(self).wf(),
        ensures
            final(self).wf(),
            r is Ok <==> old(self)@.scan_refusal(*id, local@.len(), remote@.len()) is None,
            r matches Err(e) ==> Some(e) == old(self)@.scan_refusal(
                *id,
                local@.len(),
                remote@.len(),
            ) && final(self)@ == old(self)@,
            r is Ok ==> final(self)@ == (EngineModel {
                paths: final(self)@.paths,
                next_ticket: final(self)@.next_ticket,
                folders: old(self)@.folders.update(
                    old(self)@.folder_position(*id),
                    FolderModel {
                        last_sync: now,
                        scan_requested: false,
                        ..old(self)@.folders[old(self)@.folder_position(*id)]
                    },
                ),
                ..old(self)@
            }),
            r is Ok ==> old(self)@.next_ticket <= final(self)@.next_ticket,
            r is Ok ==> forall|k: PathKey|
                k.0 != *id ==> #[trigger] final(self)@.state_at(k) == old(self)@.state_at(k),
            r is Ok ==> forall|path: Seq<char>| #[trigger]
                old(self)@.settled_in(
                    final(self)@,
                    old(self)@.folder_position(*id),
                    path,
                    sighting_of(observed_models(local@), observed_models(remote@), path),
                    now,
                ),
            forall|pool: Pool| final(self).active(pool) == old(self).active(pool),
    {
        let position = match self.find_folder(id) {
            None => {
                return Err(SyncError::FolderNotFound);
            },
            Some(i) => i,
        };
        if self.state == SyncEngineState::Stopped {
            return Err(SyncError::NotRunning);
        }
        proof {
            self.lemma_folder_position(position as int);
            crate::assoc::lemma_dom_len(path_keys(self.paths@), path_states(self.paths@));
        }
        let need: u128 = local.len() as u128 + remote.len() as u128 + self.index.len() as u128
            + self.paths.len() as u128;
        if self.next_ticket as u128 + need > u64::MAX as u128 {
            return Err(SyncError::QueueFull);
        }
        let ghost start = *self;
        let ghost ls = observed_models(local@);
        let ghost rs = observed_models(remote@);
        let mut candidates: Vec<String> = Vec::new();
        let ghost c0 = candidates@;
        append_observed(&mut candidates, local);
        let ghost c1 = candidates@;
        append_observed(&mut candidates, remote);
        let ghost c2 = candidates@;
        let recorded = self.index.paths(id);
        append_paths(&mut candidates, &recorded);
        let ghost c3 = candidates@;
        let held = self.held_paths(id);
        append_paths(&mut candidates, &held);
        proof {
            assert forall|path: Seq<char>|
                lists(candidates@, path) <==> (crate::index::observed_at(ls, path)
                    || crate::index::observed_at(rs, path) || start@.index.files.contains_key(
                    (*id, path),
                ) || start@.paths.contains_key((*id, path))) by {
                assert(!lists(c0, path));
                assert(lists(c1, path) <==> lists(c0, path) || crate::index::observed_at(
                    ls,
                    path,
                ));
                assert(lists(c2, path) <==> lists(c1, path) || crate::index::observed_at(
                    rs,
                    path,
                ));
                assert(lists(c3, path) <==> lists(c2, path) || lists(recorded@, path));
                assert(lists(candidates@, path) <==> lists(c3, path) || lists(held@, path));
            }
        }
        self.settle_list(position, &candidates, local, remote, now);
        let ghost settled = *self;
        self.folders[position].last_sync = now;
        self.folders[position].scan_requested = false;
        proof {
            assert(path_states(self.paths@) == path_states(settled.paths@));
            assert(self@.paths == settled@.paths);
            assert forall|k: PathKey| k.0 != *id implies #[trigger] self@.state_at(k)
                == start@.state_at(k) by {
                assert(settled@.state_at(k) == start@.state_at(k));
            }
            assert(self@.folders =~= start@.folders.update(
                position as int,
                FolderModel {
                    last_sync: now,
                    scan_requested: false,
                    ..start@.folders[position as int]
                },
            ));
            assert forall|i: int, j: int|
                0 <= i < self.folders@.len() && 0 <= j < self.folders@.len() && i
                    != j implies self.folders@[i].id != self.folders@[j].id by {
                assert(settled.folders@[i].id != settled.folders@[j].id);
            }
            assert forall|path: Seq<char>| #[trigger]
                start@.settled_in(self@, position as int, path, sighting_of(ls, rs, path), now) by {
                let s = sighting_of(ls, rs, path);
                if lists(candidates@, path) {
                    assert(start@.settled_in(settled@, position as int, path, s, now));
                    let t = choose|t: u64|
                        start@.next_ticket <= t <= settled@.next_ticket && settled@.state_at(
                            (*id, path),
                        ) == #[trigger] start@.scanned(position as int, path, s, now, t);
                    assert(self@.state_at((*id, path)) == start@.scanned(
                        position as int,
                        path,
                        s,
                        now,
                        t,
                    ));
                } else {
                    lemma_seen(ls, path, 0);
                    lemma_seen(rs, path, 0);
                    assert(!start@.paths.contains_key((*id, path)));
                    assert(!start@.index.files.contains_key((*id, path)));
                    assert(start@.state_at((*id, path)) == PathState::idle());
                    assert(self@.state_at((*id, path)) == start@.scanned(
                        position as int,
                        path,
                        s,
                        now,
                        start@.next_ticket,
                    ));
                }
            }
        }
        Ok(())
    }
}

impl SyncEngine {
    /// Whether the job of the path under `key` may start at `now`: it is
    /// queued, its time has come, and its pool has a worker to spare.
    pub open spec fn eligible(&self, key: PathKey, now: i64) -> bool {
        &&& self@.paths.contains_key(key)
        &&& self@.paths[key].job is Some
        &&& !self@.paths[key].job->0.active
        &&& self@.paths[key].job->0.not_before <= now
        &&& self.active(pool_of(self@.paths[key].job->0.kind)) < self@.limit(
            pool_of(self@.paths[key].job->0.kind),
        )
    }

    /// The number of transfers that workers of `which` are running.
    pub fn active_count(&self, which: Pool) -> (n: usize)
        ensures
            n == self.active(which),
    {
        let ghost states = path_states(self.paths@);
        let mut n: usize = 0;
        let mut i: usize = 0;
        proof {
            assert(states.subrange(0, 0) =~= Seq::<PathState>::empty());
        }
        while i < self.paths.len()
            invariant
                i <= self.paths@.len(),
                states == path_states(self.paths@),
                n == count_if(states.subrange(0, i as int), busy(which)),
                n <= i,
            decreases self.paths@.len() - i,
        {
            proof {
                lemma_count_if_push(states.subrange(0, i as int), states[i as int], busy(which));
                assert(states.subrange(0, i as int).push(states[i as int]) =~= states.subrange(
                    0,
                    i + 1,
                ));
            }
            let is_busy = match self.paths[i].state.job {
                Some(job) => job.active && pool(job.kind) == which,
                None => false,
            };
            if is_busy {
                n = n + 1;
            }
            i = i + 1;
        }
        proof {
            assert(states.subrange(0, states.len() as int) =~= states);
        }
        n
    }

    /// Hands the next transfer to a worker: of the jobs that may start at
    /// `now`, the one with the lowest ticket. An engine that is not running
    /// hands out nothing.
    pub fn next_transfer(&mut self, now: i64) -> (task: Option<TransferTask>)
        requires
            old(self).wf(),
        ensures
            final(self).wf(),
            task is None <==> (old(self)@.state != SyncEngineState::Running || forall|k: PathKey|
                !old(self).eligible(k, now)),
            task is None ==> final(self)@ == old(self)@ && forall|pool: Pool|
                final(self).active(pool) == old(self).active(pool),
            task matches Some(t) ==> {
                let key = (t.folder, t.path@);
                let job = old(self)@.paths[key].job->0;
                &&& old(self).eligible(key, now)
                &&& forall|k: PathKey| #[trigger]
                    old(self).eligible(k, now) ==> job.ticket <= old(self)@.paths[k].job->0.ticket
                &&& t.kind == job.kind
                &&& t.target == job.target
                &&& t.attempts == job.attempts
                &&& final(self)@ == (EngineModel {
                    paths: old(self)@.paths.insert(key, started_spec(old(self)@.paths[key])),
                    ..old(self)@
                })
                &&& final(self).active(pool_of(job.kind)) == old(self).active(pool_of(job.kind))
                    + 1
                &&& forall|pool: Pool|
                    pool != pool_of(job.kind) ==> final(self).active(pool) == old(self).active(
                        pool,
                    )
            },
    {
        if self.state != SyncEngineState::Running {
            return None;
        }
        let uploads = self.active_count(Pool::Uploads);
        let downloads = self.active_count(Pool::Downloads);
        let ghost keys = path_keys(self.paths@);
        let ghost states = path_states(self.paths@);
        let mut best: Option<usize> = None;
        let mut i: usize = 0;
        while i < self.paths.len()
            invariant
                i <= self.paths@.len(),
                self.wf(),
                keys == path_keys(self.paths@),
                states == path_states(self.paths@),
                uploads == self.active(Pool::Uploads),
                downloads == self.active(Pool::Downloads),
                best matches Some(b) ==> b < i && self.eligible(keys[b as int], now),
                best matches Some(b) ==> forall|j: int|
                    0 <= j < i && self.eligible(#[trigger] keys[j], now)
                        ==> states[b as int].job->0.ticket <= states[j].job->0.ticket,
                best is None ==> forall|j: int| 0 <= j < i ==> !self.eligible(#[trigger] keys[j], now),
            decreases self.paths@.len() - i,
        {
            proof {
                lemma_as_map_at(keys, states, i as int);
                if let Some(b) = best {
                    lemma_as_map_at(keys, states, b as int);
                }
            }
            let fits = match self.paths[i].state.job {
                Some(job) => {
                    let room = match pool(job.kind) {
                        Pool::Uploads => uploads < self.config.max_concurrent_uploads,
                        Pool::Downloads => downloads < self.config.max_concurrent_downloads,
                    };
                    !job.active && job.not_before <= now && room
                },
                None => false,
            };
            if fits {
                let better = match best {
                    Some(b) => {
                        let ticket = match self.paths[i].state.job {
                            Some(job) => job.ticket,
                            None => 0,
                        };
                        let least = match self.paths[b].state.job {
                            Some(job) => job.ticket,
                            None => 0,
                        };
                        ticket < least
                    },
                    None => true,
                };
                if better {
                    best = Some(i);
                }
            }
            proof {
                assert forall|j: int| 0 <= j < i + 1 implies (#[trigger] self@.paths[keys[j]])
                    == states[j] by {
                    lemma_as_map_at(keys, states, j);
                }
            }
            i = i + 1;
        }
        match best {
            None => {
                proof {
                    assert forall|k: PathKey| !self.eligible(k, now) by {
                        if self@.paths.contains_key(k) {
                            let j = keys.index_of(k);
                            assert(keys[j] == k);
                        }
                    }
                }
                None
            },
            Some(b) => {
                let ghost before = *self;
                let ghost key = keys[b as int];
                proof {
                    lemma_as_map_at(keys, states, b as int);
                    assert forall|k: PathKey| #[trigger] self.eligible(k, now) implies states[b as int].job->0.ticket
                        <= self@.paths[k].job->0.ticket by {
                        let j = keys.index_of(k);
                        assert(keys[j] == k);
                        lemma_as_map_at(keys, states, j);
                    }
                }
                let folder = self.paths[b].folder;
                let path = self.paths[b].path.clone();
                let held = self.paths[b].state;
                let after = started(&held);
                let task = match held.job {
                    Some(job) => TransferTask {
                        folder,
                        path: path.clone(),
                        kind: job.kind,
                        target: job.target,
                        attempts: job.attempts,
                    },
                    None => TransferTask {
                        folder,
                        path: path.clone(),
                        kind: TransferKind::Forget,
                        target: None,
                        attempts: 0,
                    },
                };
                self.store(&folder, &path, after);
                proof {
                    let job = held.job->0;
                    assert(self.active(pool_of(job.kind)) + load(held, pool_of(job.kind))
                        == before.active(pool_of(job.kind)) + load(after, pool_of(job.kind)));
                    assert forall|pool: Pool| pool != pool_of(job.kind) implies self.active(pool)
                        == before.active(pool) by {
                        assert(self.active(pool) + load(held, pool) == before.active(pool) + load(
                            after,
                            pool,
                        ));
                    }
                }
                Some(task)
            },
        }
    }
}

/// `a + b`, or the largest number there is.
pub fn add_capped(a: u64, b: u64) -> (sum: u64)
    ensures
        sum == capped_sum(a, b),
{
    if a > u64::MAX - b {
        u64::MAX
    } else {
        a + b
    }
}

impl SyncEngine {
    /// Adds a record to the history; the oldest one leaves where the
    /// history is full.
    pub(crate) fn remember(&mut self, entry: SyncHistoryEntry)
        requires
            old(self).wf(),
        ensures
            final(self).wf(),
            final(self)@ == (EngineModel {
                history: history_after(old(self)@.history, old(self)@.history_limit, entry@),
                ..old(self)@
            }),
            forall|pool: Pool| final(self).active(pool) == old(self).active(pool),
    {
        let ghost before = *self;
        if self.history_limit == 0 {
            return ;
        }
        if self.history.len() >= self.history_limit {
            self.history.remove(0);
            proof {
                assert(history_models(self.history@) =~= before@.history.remove(0));
            }
        }
        let ghost middle = history_models(self.history@);
        self.history.push(entry);
        proof {
            assert(history_models(self.history@) =~= middle.push(entry@));
        }
    }

    /// Takes in the end of the transfer that is under way for a path.
    ///
    /// A transfer that was carried out ends with the record of the file
    /// (for an upload, a download or an adopted state), which is committed
    /// to the index, or with the file gone, whose record is dropped. A
    /// record that the index refuses makes the transfer one that failed on
    /// the data. A transfer that failed in passing is queued again, to
    /// start after a wait that grows with every failure; at the last
    /// attempt, and after a failure on the data, the path is marked failed
    /// instead. Hands back how the end of the transfer counted.
    pub fn complete_transfer(
        &mut self,
        folder: &[u8; 16],
        path: &String,
        outcome: Outcome,
        record: Option<FileRecord>,
        message: String,
        now: i64,
    ) -> (r: Result<Outcome, SyncError>)
        requires
            old(self).wf(),
        ensures
            final(self).wf(),
            r == (if !old(self)@.under_way((*folder, path@)) {
                Err::<Outcome, SyncError>(SyncError::NoTransfer)
            } else if outcome == Outcome::Done && needs_record(
                old(self)@.state_at((*folder, path@)).job->0.kind,
            ) && !old(self)@.record_fits((*folder, path@), option_model(record)) {
                Err(SyncError::RecordMismatch)
            } else {
                Ok(old(self)@.effective((*folder, path@), outcome, option_model(record)))
            }),
            r is Err ==> final(self)@ == old(self)@ && forall|pool: Pool|
                final(self).active(pool) == old(self).active(pool),
            r is Ok ==> final(self)@ == old(self)@.completed(
                (*folder, path@),
                outcome,
                option_model(record),
                message@,
                now,
            ),
            r is Ok ==> forall|pool: Pool|
                final(self).active(pool) + load(old(self)@.state_at((*folder, path@)), pool)
                    == old(self).active(pool),
    {
        let ghost before = *self;
        let ghost key = (*folder, path@);
        let ghost given = option_model(record);
        let held = self.path_state(folder, path);
        let job = match held.job {
            Some(job) => job,
            None => {
                return Err(SyncError::NoTransfer);
            },
        };
        if !job.active {
            return Err(SyncError::NoTransfer);
        }
        let with_record = job.kind == TransferKind::Upload || job.kind == TransferKind::Download
            || job.kind == TransferKind::Adopt;
        let mut effective = outcome;
        let mut bytes: u64 = 0;
        if outcome == Outcome::Done {
            if with_record {
                let fits = match &record {
                    Some(rec) => {
                        let version = rec.version();
                        rec.path == *path && match job.target {
                            Some(target) => same_version(&version, &target),
                            None => false,
                        }
                    },
                    None => false,
                };
                if !fits {
                    return Err(SyncError::RecordMismatch);
                }
                let rec = record.unwrap();
                bytes = rec.size;
                match self.index.commit(*folder, rec) {
                    Ok(()) => {},
                    Err(_) => {
                        effective = Outcome::Integrity;
                    },
                }
            } else {
                let gone = self.index.remove(folder, path);
                proof {
                    if gone is None {
                        lemma_dropped_absent(before@.index, key);
                    }
                }
            }
        }
        proof {
            assert(effective == before@.effective(key, outcome, given));
            assert(self.index@ == before@.index_after(key, outcome, given));
            assert(path_states(self.paths@) == path_states(before.paths@));
        }
        let after = finished(&held, effective, &self.policy, now);
        let ghost indexed = *self;
        self.store(folder, path, after);
        proof {
            assert forall|pool: Pool|
                self.active(pool) + load(held, pool) == before.active(pool) by {
                assert(self.active(pool) + load(indexed@.state_at(key), pool) == indexed.active(
                    pool,
                ) + load(after, pool));
            }
        }
        if effective == Outcome::Done {
            self.stats = SyncStats {
                files_synced: add_capped(self.stats.files_synced, 1),
                bytes_synced: add_capped(self.stats.bytes_synced, bytes),
                files_pending: self.stats.files_pending,
                last_sync: Some(now),
            };
        }
        let operation = match job.kind {
            TransferKind::Upload => Some(SyncHistoryOperation::Upload),
            TransferKind::Download => Some(SyncHistoryOperation::Download),
            TransferKind::DeleteLocal => Some(SyncHistoryOperation::DeleteLocal),
            TransferKind::DeleteRemote => Some(SyncHistoryOperation::DeleteRemote),
            TransferKind::Adopt | TransferKind::Forget => None,
        };
        proof {
            assert(path_states(self.paths@) == path_states(self.paths@));
        }
        if let Some(operation) = operation {
            if effective == Outcome::Done {
                self.remember(
                    SyncHistoryEntry { path: path.clone(), operation, timestamp: now, result: Ok(()) },
                );
            } else if after.failed.is_some() {
                let text = if outcome == Outcome::Done {
                    String::from_str("the index refused the record")
                } else {
                    message
                };
                self.remember(
                    SyncHistoryEntry {
                        path: path.clone(),
                        operation,
                        timestamp: now,
                        result: Err(text),
                    },
                );
            }
        }
        Ok(effective)
    }
}

/// The model of a record that may be there.
pub open spec fn option_model(record: Option<FileRecord>) -> Option<FileRecordModel> {
    match record {
        Some(rec) => Some(rec@),
        None => None,
    }
}

impl SyncEngine {
    /// Registers a chunk with the index of the engine.
    pub fn register_chunk(&mut self, address: [u8; 32], size: u64) -> (r: Result<
        (),
        crate::index::IndexError,
    >)
        requires
            old(self).wf(),
        ensures
            final(self).wf(),
            r is Ok <==> size <= crate::chunk::MAX_CHUNK_SIZE && !(old(
                self,
            )@.index.chunks.contains_key(address) && old(self)@.index.chunks[address].size != size),
            final(self)@ == (EngineModel { index: final(self)@.index, ..old(self)@ }),
            final(self)@.index.files == old(self)@.index.files,
            final(self)@.index.entries == old(self)@.index.entries,
            final(self)@.index.chunks == (if r is Ok && !old(self)@.index.chunks.contains_key(
                address,
            ) {
                old(self)@.index.chunks.insert(
                    address,
                    crate::index::ChunkRecord { address, size, reference_count: 0 },
                )
            } else {
                old(self)@.index.chunks
            }),
            forall|pool: Pool| final(self).active(pool) == old(self).active(pool),
    {
        self.index.register_chunk(address, size)
    }

    /// Stops the engine and calls off every transfer, queued or under way.
    /// Conflicts, failures and the index stay as they are.
    pub fn stop(&mut self)
        requires
            old(self).wf(),
        ensures
            final(self).wf(),
            final(self)@ == (EngineModel {
                state: SyncEngineState::Stopped,
                paths: final(self)@.paths,
                ..old(self)@
            }),
            forall|k: PathKey| #[trigger] final(self)@.state_at(k) == old(self)@.called_off(k),
            forall|pool: Pool| final(self).active(pool) == 0,
    {
        let ghost start = *self;
        let mut folders: Vec<[u8; 16]> = Vec::new();
        let mut names: Vec<String> = Vec::new();
        let mut i: usize = 0;
        while i < self.paths.len()
            invariant
                i <= self.paths@.len(),
                folders@.len() == i,
                names@.len() == i,
                forall|x: int|
                    0 <= x < i ==> (folders@[x], (#[trigger] names@[x])@) == path_keys(
                        self.paths@,
                    )[x],
            decreases self.paths@.len() - i,
        {
            folders.push(self.paths[i].folder);
            names.push(self.paths[i].path.clone());
            i = i + 1;
        }
        let ghost keys = path_keys(start.paths@);
        let mut n: usize = 0;
        while n < names.len()
            invariant
                n <= names@.len(),
                names@.len() == keys.len(),
                folders@.len() == keys.len(),
                keys == path_keys(start.paths@),
                forall|x: int|
                    0 <= x < keys.len() ==> (folders@[x], (#[trigger] names@[x])@) == keys[x],
                self.wf(),
                start.wf(),
                self@ == (EngineModel { paths: self@.paths, ..start@ }),
                forall|k: PathKey|
                    (exists|x: int| 0 <= x < n && #[trigger] keys[x] == k)
                        ==> #[trigger] self@.state_at(k) == start@.called_off(k),
                forall|k: PathKey|
                    !(exists|x: int| 0 <= x < n && #[trigger] keys[x] == k)
                        ==> #[trigger] self@.state_at(k) == start@.state_at(k),
            decreases names@.len() - n,
        {
            let ghost before = *self;
            let ghost key = keys[n as int];
            let held = self.path_state(&folders[n], &names[n]);
            let after = PathState { job: None, clash: held.clash, failed: held.failed };
            self.store(&folders[n], &names[n], after);
            proof {
                assert(key == (folders@[n as int], names@[n as int]@));
                assert forall|k: PathKey|
                    (exists|x: int| 0 <= x < n + 1 && #[trigger] keys[x] == k)
                        implies #[trigger] self@.state_at(k) == start@.called_off(k) by {
                    if k == key {
                        if exists|x: int| 0 <= x < n && #[trigger] keys[x] == k {
                            assert(before@.state_at(k) == start@.called_off(k));
                        } else {
                            assert(before@.state_at(k) == start@.state_at(k));
                        }
                    } else {
                        let x = choose|x: int| 0 <= x < n + 1 && #[trigger] keys[x] == k;
                        assert(x < n);
                        assert(self@.state_at(k) == before@.state_at(k));
                    }
                }
                assert forall|k: PathKey|
                    !(exists|x: int| 0 <= x < n + 1 && #[trigger] keys[x] == k)
                        implies #[trigger] self@.state_at(k) == start@.state_at(k) by {
                    if k == key {
                        assert(keys[n as int] == k);
                    }
                    if exists|x: int| 0 <= x < n && #[trigger] keys[x] == k {
                        let x = choose|x: int| 0 <= x < n && #[trigger] keys[x] == k;
                        assert(0 <= x < n + 1 && keys[x] == k);
                    }
                    assert(self@.state_at(k) == before@.state_at(k));
                }
            }
            n = n + 1;
        }
        let ghost done = *self;
        self.state = SyncEngineState::Stopped;
        proof {
            assert(path_states(self.paths@) == path_states(done.paths@));
            assert(self@.paths == done@.paths);
            assert forall|k: PathKey| #[trigger] self@.state_at(k) == start@.called_off(k) by {
                assert(self@.state_at(k) == done@.state_at(k));
                if exists|x: int| 0 <= x < keys.len() && #[trigger] keys[x] == k {
                    assert(done@.state_at(k) == start@.called_off(k));
                } else {
                    assert(done@.state_at(k) == start@.state_at(k));
                    if start@.paths.contains_key(k) {
                        let x = keys.index_of(k);
                        assert(keys[x] == k);
                    }
                    assert(start@.state_at(k) == PathState::idle());
                }
            }
            let now_keys = path_keys(self.paths@);
            let now_states = path_states(self.paths@);
            assert forall|pool: Pool| self.active(pool) == 0 by {
                lemma_count_if_bounds(now_states, busy(pool));
                assert forall|x: int| 0 <= x < now_states.len() implies !busy(pool)(
                    #[trigger] now_states[x],
                ) by {
                    lemma_as_map_at(now_keys, now_states, x);
                    assert(self@.state_at(now_keys[x]) == now_states[x]);
                }
            }
        }
    }
}

impl SyncEngine {
    /// Resolves the conflict of one path as `resolution` says. Hands back
    /// what is to be done on the local side first (moving the local file
    /// aside where both versions are kept) and the transfer that is queued.
    pub fn resolve_conflict(
        &mut self,
        folder: &[u8; 16],
        path: &String,
        resolution: ConflictResolution,
        now: i64,
    ) -> (r: Result<ResolutionPlan, SyncError>)
        requires
            old(self).wf(),
        ensures
            final(self).wf(),
            r is Ok <==> old(self)@.resolve_refusal((*folder, path@), resolution) is None,
            r matches Err(e) ==> Some(e) == old(self)@.resolve_refusal(
                (*folder, path@),
                resolution,
            ) && final(self)@ == old(self)@,
            r matches Ok(plan) ==> plan@ == plan_spec(
                path@,
                old(self)@.paths[(*folder, path@)].clash->0.local,
                old(self)@.paths[(*folder, path@)].clash->0.remote,
                resolution,
            ) && final(self)@ == old(self)@.resolved((*folder, path@), resolution, now),
            forall|pool: Pool| final(self).active(pool) == old(self).active(pool),
    {
        let ghost before = *self;
        let ghost key = (*folder, path@);
        let held = self.path_state(folder, path);
        let clash = match held.clash {
            Some(clash) => clash,
            None => {
                return Err(SyncError::NoConflict);
            },
        };
        if let Some(job) = held.job {
            if job.active {
                return Err(SyncError::Busy);
            }
        }
        let resolver = ConflictResolver::new();
        if resolution == ConflictResolution::KeepBoth {
            let copy = resolver.copy_name(path);
            if self.find_path(folder, &copy).is_some() || self.index.get(folder, &copy).is_some() {
                return Err(SyncError::CopyPathTaken);
            }
        }
        if held.job.is_none() && self.next_ticket == u64::MAX {
            return Err(SyncError::QueueFull);
        }
        let plan = resolver.plan(path, &clash.local, &clash.remote, resolution);
        let wanted = Wanted {
            kind: if plan.transfer == SyncDecision::Upload {
                TransferKind::Upload
            } else {
                TransferKind::Download
            },
            target: Some(plan.target),
        };
        let after = resolved(&held, &wanted, now, self.next_ticket);
        self.store(folder, path, after);
        proof {
            assert forall|pool: Pool| self.active(pool) == before.active(pool) by {
                assert(self.active(pool) + load(held, pool) == before.active(pool) + load(
                    after,
                    pool,
                ));
            }
        }
        self.remember(
            SyncHistoryEntry {
                path: path.clone(),
                operation: SyncHistoryOperation::ConflictResolved,
                timestamp: now,
                result: Ok(()),
            },
        );
        if resolution == ConflictResolution::KeepBoth {
            self.remember(
                SyncHistoryEntry {
                    path: resolver.copy_name(path),
                    operation: SyncHistoryOperation::ConflictResolved,
                    timestamp: now,
                    result: Ok(()),
                },
            );
        }
        Ok(plan)
    }
}

impl SyncEngine {
    /// Whether a path of `folder` has the status `want`.
    fn folder_holds(&self, folder: &[u8; 16], want: SyncFolderStatus) -> (held: bool)
        requires
            self.wf(),
        ensures
            held == self@.folder_has(*folder, want),
    {
        let ghost keys = path_keys(self.paths@);
        let ghost states = path_states(self.paths@);
        let mut i: usize = 0;
        while i < self.paths.len()
            invariant
                i <= self.paths@.len(),
                self.wf(),
                keys == path_keys(self.paths@),
                states == path_states(self.paths@),
                forall|j: int|
                    0 <= j < i ==> !((#[trigger] keys[j]).0 == *folder && path_status(
                        states[j],
                        false,
                    ) == Some(want)),
            decreases self.paths@.len() - i,
        {
            let entry = &self.paths[i];
            let found = same_folder(&entry.folder, folder) && match status(&entry.state, false) {
                Some(s) => s == want,
                None => false,
            };
            if found {
                proof {
                    lemma_as_map_at(keys, states, i as int);
                    assert(keys[i as int] == (*folder, entry.path@));
                    assert(self@.paths.contains_key((*folder, entry.path@)));
                }
                return true;
            }
            assert(keys[i as int] == (entry.folder, entry.path@));
            i = i + 1;
        }
        proof {
            if self@.folder_has(*folder, want) {
                let path = choose|path: Seq<char>| #[trigger]
                    self@.paths.contains_key((*folder, path)) && path_status(
                        self@.paths[(*folder, path)],
                        false,
                    ) == Some(want);
                let j = keys.index_of((*folder, path));
                assert(keys[j] == (*folder, path));
                lemma_as_map_at(keys, states, j);
            }
        }
        false
    }

    fn status_at(&self, position: usize) -> (status: SyncFolderStatus)
        requires
            self.wf(),
            position < self@.folders.len(),
        ensures
            status == self@.folder_status(position as int),
    {
        let id = self.folders[position].id;
        assert(self@.folders[position as int].id == id);
        if self.folder_holds(&id, SyncFolderStatus::Conflict) {
            SyncFolderStatus::Conflict
        } else if self.folder_holds(&id, SyncFolderStatus::Syncing) {
            SyncFolderStatus::Syncing
        } else if self.folder_holds(&id, SyncFolderStatus::Error) {
            SyncFolderStatus::Error
        } else if self.folder_holds(&id, SyncFolderStatus::Pending)
            || self.folders[position].scan_requested {
            SyncFolderStatus::Pending
        } else {
            SyncFolderStatus::Synced
        }
    }

    /// The status of a folder, if there is such a folder.
    pub fn folder_status(&self, id: &[u8; 16]) -> (status: Option<SyncFolderStatus>)
        requires
            self.wf(),
        ensures
            status is Some <==> self@.has_folder(*id),
            status matches Some(s) ==> s == self@.folder_status(self@.folder_position(*id)),
    {
        match self.find_folder(id) {
            None => None,
            Some(i) => {
                proof {
                    self.lemma_folder_position(i as int);
                }
                Some(self.status_at(i))
            },
        }
    }

    /// The folders, in the order in which they were added, each with its
    /// status.
    pub fn list_folders(&self) -> (folders: Vec<SyncFolder>)
        requires
            self.wf(),
        ensures
            folders@.len() == self@.folders.len(),
            forall|i: int|
                0 <= i < folders@.len() ==> (#[trigger] folders@[i])@ == self@.folder_view(i),
    {
        let mut folders: Vec<SyncFolder> = Vec::new();
        let mut i: usize = 0;
        while i < self.folders.len()
            invariant
                i <= self.folders@.len(),
                self.wf(),
                folders@.len() == i,
                forall|j: int| 0 <= j < i ==> (#[trigger] folders@[j])@ == self@.folder_view(j),
            decreases self.folders@.len() - i,
        {
            let status = self.status_at(i);
            let entry = &self.folders[i];
            assert(self@.folders[i as int].id == entry.id);
            folders.push(
                SyncFolder {
                    id: entry.id,
                    local_path: entry.local_path.clone(),
                    name: entry.name.clone(),
                    last_sync: entry.last_sync,
                    status,
                },
            );
            i = i + 1;
        }
        folders
    }

    /// The status of a path: `None` for a path of which nothing is known.
    pub fn path_status(&self, folder: &[u8; 16], path: &String) -> (status: Option<
        SyncFolderStatus,
    >)
        requires
            self.wf(),
        ensures
            status == path_status(
                self@.state_at((*folder, path@)),
                self@.index.files.contains_key((*folder, path@)),
            ),
    {
        let held = self.path_state(folder, path);
        let recorded = self.index.get(folder, path).is_some();
        status(&held, recorded)
    }

    /// The counters of the engine, with the number of queued transfers.
    pub fn stats(&self) -> (stats: SyncStats)
        requires
            self.wf(),
        ensures
            stats.files_synced == self@.stats.files_synced,
            stats.bytes_synced == self@.stats.bytes_synced,
            stats.last_sync == self@.stats.last_sync,
            stats.files_pending == self.queued(),
    {
        let ghost states = path_states(self.paths@);
        let mut pending: u64 = 0;
        let mut i: usize = 0;
        proof {
            assert(states.subrange(0, 0) =~= Seq::<PathState>::empty());
        }
        while i < self.paths.len()
            invariant
                i <= self.paths@.len(),
                states == path_states(self.paths@),
                pending == count_if(states.subrange(0, i as int), waiting()),
                pending <= i,
            decreases self.paths@.len() - i,
        {
            proof {
                lemma_count_if_push(states.subrange(0, i as int), states[i as int], waiting());
                assert(states.subrange(0, i as int).push(states[i as int]) =~= states.subrange(
                    0,
                    i + 1,
                ));
            }
            let waits = match self.paths[i].state.job {
                Some(job) => !job.active,
                None => false,
            };
            if waits {
                pending = pending + 1;
            }
            i = i + 1;
        }
        proof {
            assert(states.subrange(0, states.len() as int) =~= states);
        }
        SyncStats {
            files_synced: self.stats.files_synced,
            bytes_synced: self.stats.bytes_synced,
            files_pending: pending,
            last_sync: self.stats.last_sync,
        }
    }

    /// The last `limit` records of the history, oldest first.
    pub fn history(&self, limit: usize) -> (recent: Vec<SyncHistoryEntry>)
        ensures
            history_models(recent@) == recent_of(self@.history, limit as nat),
    {
        let total = self.history.len();
        let start = if limit < total {
            total - limit
        } else {
            0
        };
        let mut recent: Vec<SyncHistoryEntry> = Vec::new();
        let mut i: usize = start;
        while i < total
            invariant
                start <= i <= total,
                total == self.history@.len(),
                recent@.len() == i - start,
                forall|j: int|
                    0 <= j < recent@.len() ==> (#[trigger] recent@[j])@ == self.history@[start + j]@,
            decreases total - i,
        {
            recent.push(self.history[i].clone());
            i = i + 1;
        }
        proof {
            assert(history_models(recent@) =~= recent_of(self@.history, limit as nat));
        }
        recent
    }
}

pub(crate) open spec fn clashing() -> spec_fn(PathState) -> bool {
    |s: PathState| s.clash is Some
}

pub(crate) open spec fn waiting() -> spec_fn(PathState) -> bool {
    |s: PathState| s.job is Some && !s.job->0.active
}

/// The last `limit` records of a history.
pub open spec fn recent_of(history: Seq<SyncHistoryEntryModel>, limit: nat) -> Seq<
    SyncHistoryEntryModel,
> {
    if limit < history.len() {
        history.subrange(history.len() - limit, history.len() as int)
    } else {
        history
    }
}

impl SyncEngine {
    /// The conflicts that await a decision.
    pub fn get_conflicts(&self) -> (conflicts: Vec<SyncConflict>)
        requires
            self.wf(),
        ensures
            self@.conflicted().finite(),
            conflicts@.len() == self@.conflicted().len(),
            forall|x: int|
                0 <= x < conflicts@.len() ==> self@.has_conflict((#[trigger] conflicts@[x])@),
            forall|key: PathKey| #[trigger]
                self@.in_conflict(key) ==> reports(conflicts@, self@.conflict_at(key)),
    {
        let ghost keys = path_keys(self.paths@);
        let ghost states = path_states(self.paths@);
        let resolver = ConflictResolver::new();
        let mut conflicts: Vec<SyncConflict> = Vec::new();
        let mut i: usize = 0;
        proof {
            assert(states.subrange(0, 0) =~= Seq::<PathState>::empty());
        }
        while i < self.paths.len()
            invariant
                i <= self.paths@.len(),
                conflicts@.len() == count_if(states.subrange(0, i as int), clashing()),
                self.wf(),
                keys == path_keys(self.paths@),
                states == path_states(self.paths@),
                forall|x: int|
                    0 <= x < conflicts@.len() ==> self@.has_conflict((#[trigger] conflicts@[x])@),
                forall|j: int|
                    0 <= j < i && (#[trigger] states[j]).clash is Some ==> reports(
                        conflicts@,
                        self@.conflict_at(keys[j]),
                    ),
            decreases self.paths@.len() - i,
        {
            let entry = &self.paths[i];
            proof {
                lemma_as_map_at(keys, states, i as int);
                assert(keys[i as int] == (entry.folder, entry.path@));
                assert(states.subrange(0, i + 1) =~= states.subrange(0, i as int).push(
                    states[i as int],
                ));
                lemma_count_if_push(states.subrange(0, i as int), states[i as int], clashing());
            }
            if let Some(clash) = entry.state.clash {
                let ghost before = conflicts@;
                conflicts.push(resolver.describe(&entry.path, &clash.local, &clash.remote));
                proof {
                    let key = keys[i as int];
                    assert(self@.in_conflict(key));
                    assert(conflicts@[before.len() as int]@ == self@.conflict_at(key));
                    assert forall|x: int| 0 <= x < conflicts@.len() implies self@.has_conflict(
                        (#[trigger] conflicts@[x])@,
                    ) by {
                        if x < before.len() {
                            assert(conflicts@[x] == before[x]);
                        }
                    }
                    assert forall|j: int|
                        0 <= j < i + 1 && (#[trigger] states[j]).clash is Some implies reports(
                        conflicts@,
                        self@.conflict_at(keys[j]),
                    ) by {
                        if j < i {
                            let x = choose|x: int|
                                0 <= x < before.len() && (#[trigger] before[x])@
                                    == self@.conflict_at(keys[j]);
                            assert(conflicts@[x] == before[x]);
                        }
                    }
                }
            }
            i = i + 1;
        }
        proof {
            assert(states.subrange(0, states.len() as int) =~= states);
            lemma_count_if_keys(keys, states, clashing());
            assert(self@.conflicted() =~= keys_where(self@.paths, clashing()));
            assert forall|key: PathKey| #[trigger] self@.in_conflict(key) implies reports(
                conflicts@,
                self@.conflict_at(key),
            ) by {
                let j = keys.index_of(key);
                assert(keys[j] == key);
                lemma_as_map_at(keys, states, j);
                assert(states[j].clash is Some);
            }
        }
        conflicts
    }
}

/// Whether `conflict` is one of `conflicts`.
pub open spec fn reports(conflicts: Seq<SyncConflict>, conflict: crate::state::SyncConflictModel) -> bool {
    exists|x: int| 0 <= x < conflicts.len() && (#[trigger] conflicts[x])@ == conflict
}

impl SyncEngine {
    /// Resolves every conflict as `resolution` says, or none: if one of
    /// them cannot be resolved, nothing is changed. Hands back what was
    /// resolved, with what is to be done about each path.
    pub fn resolve_all_conflicts(&mut self, resolution: ConflictResolution, now: i64) -> (r: Result<
        Vec<Resolved>,
        SyncError,
    >)
        requires
            old(self).wf(),
        ensures
            final(self).wf(),
            r is Ok <==> forall|key: PathKey| #[trigger]
                old(self)@.in_conflict(key) ==> old(self)@.bulk_refusal(key, resolution) is None,
            r matches Err(e) ==> final(self)@ == old(self)@ && exists|key: PathKey| #[trigger]
                old(self)@.in_conflict(key) && old(self)@.bulk_refusal(key, resolution) == Some(e),
            r matches Ok(done) ==> {
                &&& resolved_keys(done@).no_duplicates()
                &&& forall|key: PathKey| #[trigger]
                    old(self)@.in_conflict(key) <==> resolved_keys(done@).contains(key)
                &&& forall|x: int|
                    0 <= x < done@.len() ==> (#[trigger] done@[x]).plan@ == plan_spec(
                        done@[x].path@,
                        old(self)@.paths[(done@[x].folder, done@[x].path@)].clash->0.local,
                        old(self)@.paths[(done@[x].folder, done@[x].path@)].clash->0.remote,
                        resolution,
                    )
                &&& final(self)@ == old(self)@.resolved_all(resolved_keys(done@), resolution, now)
            },
            forall|pool: Pool| final(self).active(pool) == old(self).active(pool),
    {
        let ghost start = *self;
        let ghost all_keys = path_keys(self.paths@);
        let ghost all_states = path_states(self.paths@);
        proof {
            crate::assoc::lemma_dom_len(all_keys, all_states);
        }
        // The paths that are in conflict.
        let mut folders: Vec<[u8; 16]> = Vec::new();
        let mut names: Vec<String> = Vec::new();
        let ghost mut source: Seq<int> = Seq::empty();
        let mut i: usize = 0;
        while i < self.paths.len()
            invariant
                i <= self.paths@.len(),
                *self == start,
                all_keys == path_keys(self.paths@),
                all_states == path_states(self.paths@),
                folders@.len() == names@.len(),
                source.len() == names@.len(),
                names@.len() <= i,
                forall|x: int| 0 <= x < source.len() ==> 0 <= #[trigger] source[x] < i,
                forall|x: int, y: int| 0 <= x < y < source.len() ==> source[x] < source[y],
                forall|x: int|
                    0 <= x < source.len() ==> (folders@[x], (#[trigger] names@[x])@)
                        == all_keys[source[x]] && all_states[source[x]].clash is Some,
                forall|j: int|
                    0 <= j < i && (#[trigger] all_states[j]).clash is Some ==> source.contains(j),
            decreases self.paths@.len() - i,
        {
            if self.paths[i].state.clash.is_some() {
                let ghost before = source;
                folders.push(self.paths[i].folder);
                names.push(self.paths[i].path.clone());
                proof {
                    source = source.push(i as int);
                    assert forall|j: int|
                        0 <= j < i + 1 && (#[trigger] all_states[j]).clash is Some implies source.contains(
                        j,
                    ) by {
                        if j < i {
                            let x = before.index_of(j);
                            assert(source[x] == j);
                        } else {
                            assert(source[before.len() as int] == j);
                        }
                    }
                }
            }
            i = i + 1;
        }
        let ghost keys = Seq::new(names@.len(), |x: int| (folders@[x], names@[x]@));
        proof {
            assert forall|x: int, y: int|
                0 <= x < keys.len() && 0 <= y < keys.len() && x != y implies keys[x] != keys[y] by {
                if x < y {
                    assert(source[x] < source[y]);
                } else {
                    assert(source[y] < source[x]);
                }
                assert(all_keys[source[x]] != all_keys[source[y]]);
            }
            assert forall|key: PathKey| #[trigger] start@.in_conflict(key) <==> keys.contains(
                key,
            ) by {
                if start@.in_conflict(key) {
                    let j = all_keys.index_of(key);
                    assert(all_keys[j] == key);
                    lemma_as_map_at(all_keys, all_states, j);
                    assert(all_states[j].clash is Some);
                    let x = source.index_of(j);
                    assert(source[x] == j);
                    assert(keys[x] == key);
                }
                if keys.contains(key) {
                    let x = keys.index_of(key);
                    assert(keys[x] == key);
                    lemma_as_map_at(all_keys, all_states, source[x]);
                }
            }
        }
        // Nothing is changed unless every conflict can be resolved.
        let room = (u64::MAX - self.next_ticket) as u128 >= self.paths.len() as u128;
        let resolver = ConflictResolver::new();
        let mut n: usize = 0;
        while n < names.len()
            invariant
                n <= names@.len(),
                *self == start,
                self.wf(),
                folders@.len() == names@.len(),
                keys == Seq::new(names@.len(), |x: int| (folders@[x], names@[x]@)),
                room == (start@.next_ticket + start@.paths.dom().len() <= u64::MAX),
                forall|key: PathKey| #[trigger] start@.in_conflict(key) <==> keys.contains(key),
                forall|x: int|
                    0 <= x < n ==> start@.bulk_refusal(#[trigger] keys[x], resolution) is None,
            decreases names@.len() - n,
        {
            let ghost key = keys[n as int];
            assert(keys.contains(key));
            assert(start@.in_conflict(key));
            let held = self.path_state(&folders[n], &names[n]);
            let busy_now = match held.job {
                Some(job) => job.active,
                None => false,
            };
            if busy_now {
                return Err(SyncError::Busy);
            }
            if resolution == ConflictResolution::KeepBoth {
                let copy = resolver.copy_name(&names[n]);
                if self.find_path(&folders[n], &copy).is_some() || self.index.get(
                    &folders[n],
                    &copy,
                ).is_some() {
                    return Err(SyncError::CopyPathTaken);
                }
            }
            if !room {
                return Err(SyncError::QueueFull);
            }
            n = n + 1;
        }
        proof {
            assert forall|key: PathKey| #[trigger] start@.in_conflict(key) implies start@.bulk_refusal(
                key,
                resolution,
            ) is None by {
                let x = keys.index_of(key);
                assert(keys[x] == key);
            }
            assert(keys.subrange(0, 0) =~= Seq::<PathKey>::empty());
        }
        // Every conflict is resolved.
        let mut done: Vec<Resolved> = Vec::new();
        let mut m: usize = 0;
        while m < names.len()
            invariant
                m <= names@.len(),
                self.wf(),
                start.wf(),
                folders@.len() == names@.len(),
                keys == Seq::new(names@.len(), |x: int| (folders@[x], names@[x]@)),
                keys.no_duplicates(),
                keys.len() <= start@.paths.dom().len(),
                forall|x: int|
                    0 <= x < keys.len() ==> start@.in_conflict(#[trigger] keys[x])
                        && start@.bulk_refusal(keys[x], resolution) is None,
                self@ == start@.resolved_all(keys.subrange(0, m as int), resolution, now),
                start@.next_ticket <= self@.next_ticket <= start@.next_ticket + m,
                self@.paths.dom() == start@.paths.dom(),
                self@.index == start@.index,
                forall|x: int|
                    m <= x < keys.len() ==> self@.paths[#[trigger] keys[x]] == start@.paths[keys[x]],
                forall|pool: Pool| self.active(pool) == start.active(pool),
                done@.len() == m,
                resolved_keys(done@) == keys.subrange(0, m as int),
                forall|x: int|
                    0 <= x < m ==> (#[trigger] done@[x]).plan@ == plan_spec(
                        done@[x].path@,
                        start@.paths[(done@[x].folder, done@[x].path@)].clash->0.local,
                        start@.paths[(done@[x].folder, done@[x].path@)].clash->0.remote,
                        resolution,
                    ),
            decreases names@.len() - m,
        {
            let ghost before = *self;
            let ghost key = keys[m as int];
            proof {
                assert(start@.in_conflict(key) && start@.bulk_refusal(key, resolution) is None);
                assert(before@.paths.contains_key(key));
                assert(before@.paths[key] == start@.paths[key]);
                assert(before@.resolve_refusal(key, resolution) is None);
            }
            let outcome = self.resolve_conflict(&folders[m], &names[m], resolution, now);
            let plan = match outcome {
                Ok(plan) => plan,
                Err(e) => {
                    proof {
                        assert(false);
                    }
                    return Err(e);
                },
            };
            let ghost old_done = done@;
            done.push(Resolved { folder: folders[m], path: names[m].clone(), plan });
            proof {
                let head = keys.subrange(0, m + 1);
                assert(head.drop_last() =~= keys.subrange(0, m as int));
                assert(head.last() == key);
                assert(self@.paths.dom() =~= start@.paths.dom());
                assert forall|x: int| m + 1 <= x < keys.len() implies self@.paths[#[trigger] keys[x]]
                    == start@.paths[keys[x]] by {
                    assert(keys[x] != key);
                    assert(before@.paths[keys[x]] == start@.paths[keys[x]]);
                }
                assert(resolved_keys(done@) =~= keys.subrange(0, m + 1)) by {
                    assert forall|x: int| 0 <= x < m + 1 implies resolved_keys(done@)[x]
                        == keys[x] by {
                        if x < m {
                            assert(done@[x] == old_done[x]);
                            assert(resolved_keys(old_done)[x] == keys.subrange(0, m as int)[x]);
                        }
                    }
                }
                assert forall|x: int| 0 <= x < m + 1 implies (#[trigger] done@[x]).plan@
                    == plan_spec(
                    done@[x].path@,
                    start@.paths[(done@[x].folder, done@[x].path@)].clash->0.local,
                    start@.paths[(done@[x].folder, done@[x].path@)].clash->0.remote,
                    resolution,
                ) by {
                    if x < m {
                        assert(done@[x] == old_done[x]);
                    }
                }
            }
            m = m + 1;
        }
        proof {
            assert(keys.subrange(0, keys.len() as int) =~= keys);
            assert(resolved_keys(done@) == keys);
        }
        Ok(done)
    }
}

impl SyncEngine {
    /// The folders that are to be scanned at `now`, in the order in which
    /// they were added.
    pub fn due_folders(&self, now: i64) -> (due: Vec<[u8; 16]>)
        requires
            self.wf(),
        ensures
            due@ == self@.due_upto(self@.folders.len() as int, now),
            forall|x: int| 0 <= x < due@.len() ==> self@.due_id(#[trigger] due@[x], now),
            forall|i: int|
                0 <= i < self@.folders.len() && self@.scan_due(i, now) ==> due@.contains(
                    (#[trigger] self@.folders[i]).id,
                ),
    {
        let mut due: Vec<[u8; 16]> = Vec::new();
        let mut i: usize = 0;
        while i < self.folders.len()
            invariant
                i <= self.folders@.len(),
                due@ == self@.due_upto(i as int, now),
                forall|x: int| 0 <= x < due@.len() ==> self@.due_id(#[trigger] due@[x], now),
                forall|j: int|
                    0 <= j < i && self@.scan_due(j, now) ==> due@.contains(
                        (#[trigger] self@.folders[j]).id,
                    ),
            decreases self.folders@.len() - i,
        {
            let folder = &self.folders[i];
            assert(self@.folders[i as int].id == folder.id);
            let passed = (now as i128 - folder.last_sync as i128)
                >= self.config.sync_interval_seconds as i128;
            let is_due = self.state == SyncEngineState::Running && (folder.scan_requested
                || passed);
            if is_due {
                let ghost before = due@;
                due.push(folder.id);
                proof {
                    assert(due@[before.len() as int] == folder.id);
                    assert forall|x: int| 0 <= x < due@.len() implies self@.due_id(
                        #[trigger] due@[x],
                        now,
                    ) by {
                        if x < before.len() {
                            assert(due@[x] == before[x]);
                        } else {
                            assert(self@.folders[i as int].id == due@[x]);
                        }
                    }
                    assert forall|j: int| 0 <= j < i + 1 && self@.scan_due(j, now) implies due@.contains(
                        (#[trigger] self@.folders[j]).id,
                    ) by {
                        if j < i {
                            let x = before.index_of(self@.folders[j].id);
                            assert(due@[x] == before[x]);
                        }
                    }
                }
            }
            i = i + 1;
        }
        due
    }

    /// Asks for a scan of every folder.
    pub fn sync_all_now(&mut self)
        requires
            old(self).wf(),
        ensures
            final(self).wf(),
            final(self)@ == (EngineModel { folders: old(self)@.all_requested(), ..old(self)@ }),
            forall|pool: Pool| final(self).active(pool) == old(self).active(pool),
    {
        let ghost start = *self;
        let mut i: usize = 0;
        while i < self.folders.len()
            invariant
                i <= self.folders@.len(),
                self.wf(),
                self.folders@.len() == start.folders@.len(),
                self@ == (EngineModel { folders: self@.folders, ..start@ }),
                forall|pool: Pool| self.active(pool) == start.active(pool),
                forall|j: int|
                    0 <= j < i ==> (#[trigger] self@.folders[j]) == (FolderModel {
                        scan_requested: true,
                        ..start@.folders[j]
                    }),
                forall|j: int|
                    i <= j < self.folders@.len() ==> (#[trigger] self@.folders[j])
                        == start@.folders[j],
            decreases self.folders@.len() - i,
        {
            let ghost before = *self;
            self.folders[i].scan_requested = true;
            proof {
                assert(path_states(self.paths@) == path_states(before.paths@));
                assert forall|a: int, b: int|
                    0 <= a < self.folders@.len() && 0 <= b < self.folders@.len() && a
                        != b implies self.folders@[a].id != self.folders@[b].id by {
                    assert(before.folders@[a].id != before.folders@[b].id);
                }
                assert forall|j: int| 0 <= j < i + 1 implies (#[trigger] self@.folders[j]) == (
                FolderModel { scan_requested: true, ..start@.folders[j] }) by {
                    if j < i {
                        assert(self@.folders[j] == before@.folders[j]);
                    } else {
                        assert(before@.folders[j] == start@.folders[j]);
                        assert(self.folders@[j].id == before.folders@[j].id);
                        assert(self.folders@[j].options == before.folders@[j].options);
                    }
                }
                assert forall|j: int| i + 1 <= j < self.folders@.len() implies (
                #[trigger] self@.folders[j]) == start@.folders[j] by {
                    assert(self@.folders[j] == before@.folders[j]);
                }
            }
            i = i + 1;
        }
        proof {
            assert(self@.folders =~= start@.all_requested());
        }
    }
}

} // verus!
