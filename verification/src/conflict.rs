//! Deciding, for one path, what the states of its two sides call for, and
//! what a chosen resolution of a conflict amounts to.

use crate::chunk::same_address;
use crate::index::FileVersion;
use crate::services::sync::{ConflictResolution, SyncMode};
use crate::state::{SyncConflict, SyncConflictModel};
use vstd::prelude::*;
use vstd::string::*;

verus! {

broadcast use vstd::array::group_array_axioms;

/// What the states of a path call for.
#[derive(Debug, Clone, Copy, PartialEq, Eq, Structural)]
pub enum SyncDecision {
    /// Neither side changed since the last sync.
    Unchanged,
    /// Only the local side changed: the file goes up.
    Upload,
    /// Only the remote side changed: the file comes down.
    Download,
    /// Both sides changed to the same content: nothing moves, the new state
    /// is recorded as synced.
    Adopt,
    /// Both sides deleted the file: its record is dropped.
    Forget,
    /// The remote side deleted the file: the local file goes too.
    DeleteLocal,
    /// The local side deleted the file: the remote file goes too.
    DeleteRemote,
    /// Both sides changed, to different content.
    Conflict,
}

/// What was seen of a path on its two sides; `None` stands for "no file".
#[derive(Debug, Clone, Copy)]
pub struct Sighting {
    pub local: Option<FileVersion>,
    pub remote: Option<FileVersion>,
}

impl Sighting {
    /// The sighting with the local side seen as `local`.
    pub open spec fn seen_local(self, local: Option<FileVersion>) -> Sighting {
        Sighting { local, remote: self.remote }
    }

    /// The sighting with the remote side seen as `remote`.
    pub open spec fn seen_remote(self, remote: Option<FileVersion>) -> Sighting {
        Sighting { local: self.local, remote }
    }

    /// Nothing seen on either side.
    pub fn new() -> (sighting: Sighting)
        ensures
            sighting == (Sighting { local: None, remote: None }),
    {
        Sighting { local: None, remote: None }
    }

    /// Records what the local side holds.
    pub fn with_local(self, local: Option<FileVersion>) -> (sighting: Sighting)
        ensures
            sighting == self.seen_local(local),
    {
        Sighting { local, remote: self.remote }
    }

    /// Records what the remote side holds.
    pub fn with_remote(self, remote: Option<FileVersion>) -> (sighting: Sighting)
        ensures
            sighting == self.seen_remote(remote),
    {
        Sighting { local: self.local, remote }
    }
}

/// Whether two states of a path hold the same content: both no file, or
/// files with the same hash.
pub open spec fn same_content(a: Option<FileVersion>, b: Option<FileVersion>) -> bool {
    match (a, b) {
        (None, None) => true,
        (Some(x), Some(y)) => x.content_hash == y.content_hash,
        _ => false,
    }
}

/// The local side as the mode lets it count: a folder that only downloads
/// takes no notice of local changes.
pub open spec fn effective_local(
    mode: SyncMode,
    base: Option<FileVersion>,
    sighting: Sighting,
) -> Option<FileVersion> {
    if mode == SyncMode::DownloadOnly {
        base
    } else {
        sighting.local
    }
}

/// The remote side as the mode lets it count: a folder that only uploads
/// takes no notice of remote changes.
pub open spec fn effective_remote(
    mode: SyncMode,
    base: Option<FileVersion>,
    sighting: Sighting,
) -> Option<FileVersion> {
    if mode == SyncMode::UploadOnly {
        base
    } else {
        sighting.remote
    }
}

/// What the states of a path call for, `base` being the state at the last
/// sync. A side has changed when its content is no longer that of `base`.
/// A change on one side alone is carried to the other. Changes on both
/// sides to the same content need no transfer. Where one side deleted the
/// file and the other edited it, the edit is carried over, so that nothing
/// is lost. Two different edits are a conflict.
pub open spec fn decide_spec(
    mode: SyncMode,
    base: Option<FileVersion>,
    sighting: Sighting,
) -> SyncDecision {
    let local = effective_local(mode, base, sighting);
    let remote = effective_remote(mode, base, sighting);
    let local_changed = !same_content(local, base);
    let remote_changed = !same_content(remote, base);
    if !local_changed && !remote_changed {
        SyncDecision::Unchanged
    } else if !remote_changed {
        if local is Some {
            SyncDecision::Upload
        } else {
            SyncDecision::DeleteRemote
        }
    } else if !local_changed {
        if remote is Some {
            SyncDecision::Download
        } else {
            SyncDecision::DeleteLocal
        }
    } else if same_content(local, remote) {
        if local is Some {
            SyncDecision::Adopt
        } else {
            SyncDecision::Forget
        }
    } else if local is None {
        SyncDecision::Download
    } else if remote is None {
        SyncDecision::Upload
    } else {
        SyncDecision::Conflict
    }
}

/// The record of a conflict between `local` and `remote` at `path`.
pub open spec fn conflict_of(path: Seq<char>, local: FileVersion, remote: FileVersion) -> SyncConflictModel {
    SyncConflictModel {
        path,
        local_modified: local.modified_time,
        remote_modified: remote.modified_time,
        local_size: local.size,
        remote_size: remote.size,
    }
}

/// What is appended to a path to name the copy that keeps the local version
/// when both versions are kept.
pub open spec fn copy_suffix() -> Seq<char> {
    ".conflict"@
}

/// The path under which the local version is kept when both are kept.
pub open spec fn copy_path(path: Seq<char>) -> Seq<char> {
    path + copy_suffix()
}

/// What resolving a conflict amounts to.
#[derive(Debug)]
pub struct ResolutionPlan {
    /// Where the local file is moved first, if it is to be kept beside the
    /// remote version.
    pub keep_copy: Option<String>,
    /// The transfer that brings the two sides together: `Upload` or `Download`.
    pub transfer: SyncDecision,
    /// The version that both sides hold once the transfer is done.
    pub target: FileVersion,
}

/// Mathematical model of a [`ResolutionPlan`].
pub struct ResolutionPlanModel {
    pub keep_copy: Option<Seq<char>>,
    pub transfer: SyncDecision,
    pub target: FileVersion,
}

impl View for ResolutionPlan {
    type V = ResolutionPlanModel;

    open spec fn view(&self) -> ResolutionPlanModel {
        ResolutionPlanModel {
            keep_copy: match self.keep_copy {
                Some(path) => Some(path@),
                None => None,
            },
            transfer: self.transfer,
            target: self.target,
        }
    }
}

/// What `resolution` amounts to for a conflict between `local` and `remote`
/// at `path`: keeping the local version uploads it; keeping the remote
/// version downloads it; keeping both moves the local file aside and then
/// downloads the remote version under the path of the conflict.
pub open spec fn plan_spec(
    path: Seq<char>,
    local: FileVersion,
    remote: FileVersion,
    resolution: ConflictResolution,
) -> ResolutionPlanModel {
    match resolution {
        ConflictResolution::KeepLocal => ResolutionPlanModel {
            keep_copy: None,
            transfer: SyncDecision::Upload,
            target: local,
        },
        ConflictResolution::KeepRemote => ResolutionPlanModel {
            keep_copy: None,
            transfer: SyncDecision::Download,
            target: remote,
        },
        ConflictResolution::KeepBoth => ResolutionPlanModel {
            keep_copy: Some(copy_path(path)),
            transfer: SyncDecision::Download,
            target: remote,
        },
    }
}

/// Whether two states of a path hold the same content.
pub fn content_matches(a: &Option<FileVersion>, b: &Option<FileVersion>) -> (same: bool)
    ensures
        same == same_content(*a, *b),
{
    match (a, b) {
        (None, None) => true,
        (Some(x), Some(y)) => same_address(&x.content_hash, &y.content_hash),
        _ => false,
    }
}

/// Decides what to do about paths, and about conflicts.
#[derive(Debug, Clone, Copy)]
pub struct ConflictResolver {}

impl ConflictResolver {
    /// A resolver.
    pub fn new() -> (resolver: Self) {
        ConflictResolver {  }
    }

    /// What the states of a path call for, `base` being its state at the
    /// last sync.
    pub fn decide(&self, mode: SyncMode, base: Option<FileVersion>, sighting: Sighting) -> (decision:
        SyncDecision)
        ensures
            decision == decide_spec(mode, base, sighting),
    {
        let local = if mode == SyncMode::DownloadOnly {
            base
        } else {
            sighting.local
        };
        let remote = if mode == SyncMode::UploadOnly {
            base
        } else {
            sighting.remote
        };
        let local_changed = !content_matches(&local, &base);
        let remote_changed = !content_matches(&remote, &base);
        if !local_changed && !remote_changed {
            SyncDecision::Unchanged
        } else if !remote_changed {
            if local.is_some() {
                SyncDecision::Upload
            } else {
                SyncDecision::DeleteRemote
            }
        } else if !local_changed {
            if remote.is_some() {
                SyncDecision::Download
            } else {
                SyncDecision::DeleteLocal
            }
        } else if content_matches(&local, &remote) {
            if local.is_some() {
                SyncDecision::Adopt
            } else {
                SyncDecision::Forget
            }
        } else if local.is_none() {
            SyncDecision::Download
        } else if remote.is_none() {
            SyncDecision::Upload
        } else {
            SyncDecision::Conflict
        }
    }

    /// The record of a conflict between `local` and `remote` at `path`, with
    /// the modification times and sizes of both sides.
    pub fn describe(&self, path: &String, local: &FileVersion, remote: &FileVersion) -> (conflict:
        SyncConflict)
        ensures
            conflict@ == conflict_of(path@, *local, *remote),
    {
        SyncConflict {
            path: path.clone(),
            local_modified: local.modified_time,
            remote_modified: remote.modified_time,
            local_size: local.size,
            remote_size: remote.size,
        }
    }

    /// The path under which the local version is kept when both are kept.
    pub fn copy_name(&self, path: &String) -> (copy: String)
        ensures
            copy@ == copy_path(path@),
    {
        path.clone().concat(".conflict")
    }

    /// What `resolution` amounts to for a conflict between `local` and
    /// `remote` at `path`.
    pub fn plan(
        &self,
        path: &String,
        local: &FileVersion,
        remote: &FileVersion,
        resolution: ConflictResolution,
    ) -> (plan: ResolutionPlan)
        ensures
            plan@ == plan_spec(path@, *local, *remote, resolution),
    {
        match resolution {
            ConflictResolution::KeepLocal => ResolutionPlan {
                keep_copy: None,
                transfer: SyncDecision::Upload,
                target: *local,
            },
            ConflictResolution::KeepRemote => ResolutionPlan {
                keep_copy: None,
                transfer: SyncDecision::Download,
                target: *remote,
            },
            ConflictResolution::KeepBoth => ResolutionPlan {
                keep_copy: Some(self.copy_name(path)),
                transfer: SyncDecision::Download,
                target: *remote,
            },
        }
    }
}

impl Default for ConflictResolver {
    fn default() -> Self {
        ConflictResolver::new()
    }
}

/// Conflict symmetry: it makes no difference which side's change is seen
/// first. The two orders give the same sighting, hence the same decision,
/// the same conflict record and, under one resolution, the same plan.
pub proof fn lemma_detection_order(
    mode: SyncMode,
    base: Option<FileVersion>,
    before: Sighting,
    local: Option<FileVersion>,
    remote: Option<FileVersion>,
    path: Seq<char>,
    resolution: ConflictResolution,
)
    ensures
        before.seen_local(local).seen_remote(remote) == before.seen_remote(remote).seen_local(
            local,
        ),
        decide_spec(mode, base, before.seen_local(local).seen_remote(remote)) == decide_spec(
            mode,
            base,
            before.seen_remote(remote).seen_local(local),
        ),
        local is Some && remote is Some ==> ({
            let one = before.seen_local(local).seen_remote(remote);
            let other = before.seen_remote(remote).seen_local(local);
            &&& one.local == local && one.remote == remote
            &&& conflict_of(path, one.local->0, one.remote->0) == conflict_of(
                path,
                other.local->0,
                other.remote->0,
            )
            &&& plan_spec(path, one.local->0, one.remote->0, resolution) == plan_spec(
                path,
                other.local->0,
                other.remote->0,
                resolution,
            )
        }),
{
}

/// A conflict is raised exactly when, among the sides that count in the
/// folder's mode, both hold a file, the two files differ in content, and
/// neither has the content of the last sync.
pub proof fn lemma_conflict_condition(mode: SyncMode, base: Option<FileVersion>, sighting: Sighting)
    ensures
        decide_spec(mode, base, sighting) == SyncDecision::Conflict <==> {
            let local = effective_local(mode, base, sighting);
            let remote = effective_remote(mode, base, sighting);
            &&& local is Some
            &&& remote is Some
            &&& local->0.content_hash != remote->0.content_hash
            &&& !same_content(local, base)
            &&& !same_content(remote, base)
        },
{
}

/// A folder that syncs one way only never raises a conflict, and never
/// moves a file against its direction.
pub proof fn lemma_one_way(mode: SyncMode, base: Option<FileVersion>, sighting: Sighting)
    ensures
        mode == SyncMode::UploadOnly ==> {
            let d = decide_spec(mode, base, sighting);
            d == SyncDecision::Unchanged || d == SyncDecision::Upload || d
                == SyncDecision::DeleteRemote
        },
        mode == SyncMode::DownloadOnly ==> {
            let d = decide_spec(mode, base, sighting);
            d == SyncDecision::Unchanged || d == SyncDecision::Download || d
                == SyncDecision::DeleteLocal
        },
{
}

} // verus!
