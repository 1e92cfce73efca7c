//! The change watcher: takes in raw notifications of changes to files and
//! hands them on once a path has been quiet for the debounce window, one
//! notification for each path, with the latest kind of change.

use crate::config::texts;
use crate::glob::{excluded, is_excluded};
use vstd::prelude::*;

verus! {

/// Seconds for which a path has to be quiet before its change is handed on.
pub const DEFAULT_DEBOUNCE_SECONDS: u32 = 2;

/// Seconds between two full scans of a folder whose notifications fail.
pub const DEFAULT_RESCAN_SECONDS: u32 = 300;

/// What happened to a file.
#[derive(Debug, Clone, Copy, PartialEq, Eq, Structural)]
pub enum ChangeKind {
    Created,
    Modified,
    Deleted,
    Renamed,
}

/// A change that is handed on.
#[derive(Debug)]
pub struct ChangeEvent {
    pub path: String,
    pub kind: ChangeKind,
}

/// Mathematical model of a change that waits in the watcher.
pub struct PendingModel {
    pub path: Seq<char>,
    pub kind: ChangeKind,
    /// When the path was last notified of.
    pub last_seen: i64,
}

/// Mathematical model of a [`FileWatcher`].
pub struct WatcherModel {
    pub debounce: u32,
    pub rescan: u32,
    pub patterns: Seq<Seq<char>>,
    /// The changes that wait, in the order in which their paths came up.
    pub pending: Seq<PendingModel>,
    /// Whether notifications failed, so that the folder is scanned in full
    /// from time to time instead.
    pub degraded: bool,
    /// When the folder was last scanned in full in degraded mode.
    pub last_rescan: i64,
}

/// Where `path` waits in `pending`, or the length of `pending` if it does not.
pub open spec fn slot_of(pending: Seq<PendingModel>, path: Seq<char>) -> int
    decreases pending.len(),
{
    if pending.len() == 0 {
        0
    } else {
        let before = slot_of(pending.drop_last(), path);
        if before < pending.len() - 1 {
            before
        } else if pending.last().path == path {
            pending.len() - 1
        } else {
            pending.len() as int
        }
    }
}

/// Whether a change that was last notified of at `last_seen` has been quiet
/// for the whole window at `now`.
pub open spec fn is_quiet(last_seen: i64, debounce: u32, now: i64) -> bool {
    now - last_seen >= debounce
}

/// The changes of `pending` that may be handed on at `now`, in order.
pub open spec fn due(pending: Seq<PendingModel>, debounce: u32, now: i64) -> Seq<PendingModel>
    decreases pending.len(),
{
    if pending.len() == 0 {
        pending
    } else if is_quiet(pending.last().last_seen, debounce, now) {
        due(pending.drop_last(), debounce, now).push(pending.last())
    } else {
        due(pending.drop_last(), debounce, now)
    }
}

/// The changes of `pending` that still have to wait at `now`, in order.
pub open spec fn held_back(pending: Seq<PendingModel>, debounce: u32, now: i64) -> Seq<
    PendingModel,
>
    decreases pending.len(),
{
    if pending.len() == 0 {
        pending
    } else if is_quiet(pending.last().last_seen, debounce, now) {
        held_back(pending.drop_last(), debounce, now)
    } else {
        held_back(pending.drop_last(), debounce, now).push(pending.last())
    }
}

impl WatcherModel {
    /// The watcher after a notification of `kind` for `path` at `now`: an
    /// excluded path leaves no trace; a path that waits already now waits
    /// with the new kind, from `now` on; any other path is added.
    pub open spec fn noted(self, path: Seq<char>, kind: ChangeKind, now: i64) -> WatcherModel {
        let entry = PendingModel { path, kind, last_seen: now };
        let slot = slot_of(self.pending, path);
        if excluded(self.patterns, path) {
            self
        } else if slot < self.pending.len() {
            WatcherModel { pending: self.pending.update(slot, entry), ..self }
        } else {
            WatcherModel { pending: self.pending.push(entry), ..self }
        }
    }

    /// Whether a full scan is due at `now`: only in degraded mode, and then
    /// once the rescan interval has passed.
    pub open spec fn rescan_due(self, now: i64) -> bool {
        self.degraded && now - self.last_rescan >= self.rescan
    }
}

struct Pending {
    path: String,
    kind: ChangeKind,
    last_seen: i64,
}

spec fn pending_models(pending: Seq<Pending>) -> Seq<PendingModel> {
    Seq::new(
        pending.len(),
        |i: int|
            PendingModel {
                path: pending[i].path@,
                kind: pending[i].kind,
                last_seen: pending[i].last_seen,
            },
    )
}

/// The models of the changes handed on: each with the path and the kind of
/// the change that waited.
pub open spec fn event_models(events: Seq<ChangeEvent>) -> Seq<(Seq<char>, ChangeKind)> {
    Seq::new(events.len(), |i: int| (events[i].path@, events[i].kind))
}

/// The paths and kinds of a sequence of waiting changes.
pub open spec fn changes_of(pending: Seq<PendingModel>) -> Seq<(Seq<char>, ChangeKind)> {
    Seq::new(pending.len(), |i: int| (pending[i].path, pending[i].kind))
}

/// Watches for changes to files and coalesces them.
pub struct FileWatcher {
    debounce: u32,
    rescan: u32,
    patterns: Vec<String>,
    pending: Vec<Pending>,
    degraded: bool,
    last_rescan: i64,
}

impl View for FileWatcher {
    type V = WatcherModel;

    closed spec fn view(&self) -> WatcherModel {
        WatcherModel {
            debounce: self.debounce,
            rescan: self.rescan,
            patterns: texts(self.patterns@),
            pending: pending_models(self.pending@),
            degraded: self.degraded,
            last_rescan: self.last_rescan,
        }
    }
}

impl FileWatcher {
    /// A watcher with the default window, no exclusions and nothing waiting.
    pub fn new() -> (watcher: Self)
        ensures
            watcher@ == (WatcherModel {
                debounce: DEFAULT_DEBOUNCE_SECONDS,
                rescan: DEFAULT_RESCAN_SECONDS,
                patterns: Seq::empty(),
                pending: Seq::empty(),
                degraded: false,
                last_rescan: 0,
            }),
    {
        let patterns: Vec<String> = Vec::new();
        assert(texts(patterns@) =~= Seq::<Seq<char>>::empty());
        FileWatcher::with_options(DEFAULT_DEBOUNCE_SECONDS, DEFAULT_RESCAN_SECONDS, patterns)
    }

    /// A watcher with the given window, rescan interval and exclusions.
    pub fn with_options(debounce: u32, rescan: u32, patterns: Vec<String>) -> (watcher: Self)
        ensures
            watcher@ == (WatcherModel {
                debounce,
                rescan,
                patterns: texts(patterns@),
                pending: Seq::empty(),
                degraded: false,
                last_rescan: 0,
            }),
    {
        let watcher = FileWatcher {
            debounce,
            rescan,
            patterns,
            pending: Vec::new(),
            degraded: false,
            last_rescan: 0,
        };
        assert(watcher@.pending =~= Seq::<PendingModel>::empty());
        watcher
    }

    /// Number of changes that wait.
    pub fn pending_len(&self) -> (n: usize)
        ensures
            n == self@.pending.len(),
    {
        self.pending.len()
    }

    /// Whether the watcher is in degraded mode.
    pub fn is_degraded(&self) -> (degraded: bool)
        ensures
            degraded == self@.degraded,
    {
        self.degraded
    }

    fn slot(&self, path: &String) -> (slot: usize)
        ensures
            slot == slot_of(self@.pending, path@),
            slot <= self@.pending.len(),
    {
        let ghost models = pending_models(self.pending@);
        let mut i: usize = 0;
        proof {
            assert(models.subrange(0, 0) =~= Seq::<PendingModel>::empty());
        }
        while i < self.pending.len()
            invariant
                i <= self.pending@.len(),
                models == pending_models(self.pending@),
                slot_of(models.subrange(0, i as int), path@) == i,
            decreases self.pending@.len() - i,
        {
            proof {
                let next = models.subrange(0, i + 1);
                assert(next.drop_last() =~= models.subrange(0, i as int));
                assert(next.last() == models[i as int]);
                lemma_slot_stays(models, path@, i + 1);
            }
            if self.pending[i].path == *path {
                return i;
            }
            i = i + 1;
        }
        proof {
            assert(models.subrange(0, models.len() as int) =~= models);
        }
        i
    }

    /// Takes in a notification. Says whether it was taken: a notification
    /// for a path that the patterns exclude is dropped.
    pub fn record(&mut self, path: String, kind: ChangeKind, now: i64) -> (taken: bool)
        ensures
            taken == !excluded(old(self)@.patterns, path@),
            final(self)@ == old(self)@.noted(path@, kind, now),
    {
        if is_excluded(&self.patterns, path.as_str()) {
            return false;
        }
        let ghost before = self@;
        let slot = self.slot(&path);
        if slot < self.pending.len() {
            let ghost entry = PendingModel { path: path@, kind, last_seen: now };
            self.pending[slot] = Pending { path, kind, last_seen: now };
            assert(self@.pending =~= before.pending.update(slot as int, entry));
        } else {
            let ghost entry = PendingModel { path: path@, kind, last_seen: now };
            self.pending.push(Pending { path, kind, last_seen: now });
            assert(self@.pending =~= before.pending.push(entry));
        }
        true
    }

    /// Hands on the changes whose paths have been quiet for the window, in
    /// the order in which the paths came up; the others go on waiting.
    pub fn drain(&mut self, now: i64) -> (events: Vec<ChangeEvent>)
        ensures
            event_models(events@) == changes_of(due(old(self)@.pending, old(self)@.debounce, now)),
            final(self)@ == (WatcherModel {
                pending: held_back(old(self)@.pending, old(self)@.debounce, now),
                ..old(self)@
            }),
    {
        let ghost before = self@;
        let ghost models = pending_models(self.pending@);
        let mut events: Vec<ChangeEvent> = Vec::new();
        let mut kept: Vec<Pending> = Vec::new();
        let mut i: usize = 0;
        proof {
            assert(models.subrange(0, 0) =~= Seq::<PendingModel>::empty());
            assert(event_models(events@) =~= changes_of(due(models.subrange(0, 0), self.debounce, now)));
            assert(pending_models(kept@) =~= held_back(models.subrange(0, 0), self.debounce, now));
        }
        while i < self.pending.len()
            invariant
                i <= self.pending@.len(),
                self@ == before,
                models == pending_models(self.pending@),
                event_models(events@) == changes_of(
                    due(models.subrange(0, i as int), self.debounce, now),
                ),
                pending_models(kept@) == held_back(models.subrange(0, i as int), self.debounce, now),
            decreases self.pending@.len() - i,
        {
            let entry = &self.pending[i];
            let ghost head = models.subrange(0, i as int);
            let ghost next = models.subrange(0, i + 1);
            proof {
                assert(next.drop_last() =~= head);
                assert(next.last() == models[i as int]);
            }
            let quiet = entry.last_seen <= now && (now as i128 - entry.last_seen as i128)
                >= self.debounce as i128;
            if quiet {
                let ghost old_events = event_models(events@);
                events.push(ChangeEvent { path: entry.path.clone(), kind: entry.kind });
                proof {
                    assert(event_models(events@) =~= old_events.push(
                        (models[i as int].path, models[i as int].kind),
                    ));
                    assert(changes_of(due(head, self.debounce, now).push(models[i as int]))
                        =~= changes_of(due(head, self.debounce, now)).push(
                        (models[i as int].path, models[i as int].kind),
                    ));
                }
            } else {
                let ghost old_kept = pending_models(kept@);
                kept.push(
                    Pending {
                        path: entry.path.clone(),
                        kind: entry.kind,
                        last_seen: entry.last_seen,
                    },
                );
                proof {
                    assert(pending_models(kept@) =~= old_kept.push(models[i as int]));
                }
            }
            i = i + 1;
        }
        proof {
            assert(models.subrange(0, models.len() as int) =~= models);
        }
        self.pending = kept;
        events
    }

    /// Falls back to full scans, as when notifications are not to be had
    /// for the folder. Says whether this is news: the mode is reported once.
    pub fn degrade(&mut self, now: i64) -> (news: bool)
        ensures
            news == !old(self)@.degraded,
            final(self)@ == (if old(self)@.degraded {
                old(self)@
            } else {
                WatcherModel { degraded: true, last_rescan: now, ..old(self)@ }
            }),
    {
        if self.degraded {
            false
        } else {
            self.degraded = true;
            self.last_rescan = now;
            true
        }
    }

    /// Says whether a full scan is due at `now`, and if so notes that it is
    /// made.
    pub fn poll_rescan(&mut self, now: i64) -> (is_due: bool)
        ensures
            is_due == old(self)@.rescan_due(now),
            final(self)@ == (if is_due {
                WatcherModel { last_rescan: now, ..old(self)@ }
            } else {
                old(self)@
            }),
    {
        let passed = self.last_rescan <= now && (now as i128 - self.last_rescan as i128)
            >= self.rescan as i128;
        if self.degraded && passed {
            self.last_rescan = now;
            true
        } else {
            false
        }
    }
}

impl Default for FileWatcher {
    fn default() -> (watcher: Self)
        ensures
            watcher@.pending.len() == 0,
            !watcher@.degraded,
    {
        FileWatcher::new()
    }
}

/// Where a path waits in a list is where it waits in every longer list.
proof fn lemma_slot_stays(pending: Seq<PendingModel>, path: Seq<char>, upto: int)
    requires
        0 <= upto <= pending.len(),
    ensures
        slot_of(pending.subrange(0, upto), path) < upto ==> slot_of(pending, path) == slot_of(
            pending.subrange(0, upto),
            path,
        ),
        slot_of(pending, path) <= pending.len(),
    decreases pending.len(),
{
    if pending.len() > 0 {
        let rest = pending.drop_last();
        if upto == pending.len() {
            assert(pending.subrange(0, upto) =~= pending);
            lemma_slot_stays(rest, path, 0);
        } else {
            lemma_slot_stays(rest, path, upto);
            assert(rest.subrange(0, upto) =~= pending.subrange(0, upto));
        }
    } else {
        assert(pending.subrange(0, upto) =~= pending);
    }
}

/// Coalescing: a path never waits twice. Of a burst of notifications for
/// one path, one change is left, with the kind of the last notification.
pub proof fn lemma_noted_twice(
    watcher: WatcherModel,
    path: Seq<char>,
    first: ChangeKind,
    second: ChangeKind,
    now: i64,
    later: i64,
)
    requires
        !excluded(watcher.patterns, path),
    ensures
        watcher.noted(path, first, now).noted(path, second, later).pending.len() == watcher.noted(
            path,
            first,
            now,
        ).pending.len(),
        watcher.noted(path, first, now).noted(path, second, later) == watcher.noted(
            path,
            second,
            later,
        ),
{
    let once = watcher.noted(path, first, now);
    let slot = slot_of(watcher.pending, path);
    lemma_slot_stays(watcher.pending, path, 0);
    lemma_slot_found(watcher.pending, path);
    lemma_slot_found(once.pending, path);
    if slot < watcher.pending.len() {
        lemma_slot_update(watcher.pending, path, first, now);
    } else {
        lemma_slot_stays(once.pending, path, watcher.pending.len() as int);
        assert(once.pending.drop_last() =~= watcher.pending);
    }
    let twice = once.noted(path, second, later);
    assert(twice.pending =~= watcher.noted(path, second, later).pending);
}

proof fn lemma_slot_found(pending: Seq<PendingModel>, path: Seq<char>)
    ensures
        0 <= slot_of(pending, path) <= pending.len(),
        slot_of(pending, path) < pending.len() ==> pending[slot_of(pending, path)].path == path,
        forall|i: int| 0 <= i < slot_of(pending, path) ==> (#[trigger] pending[i]).path != path,
    decreases pending.len(),
{
    if pending.len() > 0 {
        lemma_slot_found(pending.drop_last(), path);
        assert forall|i: int| 0 <= i < slot_of(pending, path) implies (#[trigger] pending[i]).path
            != path by {
            if i < pending.len() - 1 {
                assert(pending.drop_last()[i] == pending[i]);
            }
        }
    }
}

proof fn lemma_slot_update(pending: Seq<PendingModel>, path: Seq<char>, kind: ChangeKind, now: i64)
    requires
        slot_of(pending, path) < pending.len(),
    ensures
        slot_of(
            pending.update(slot_of(pending, path), PendingModel { path, kind, last_seen: now }),
            path,
        ) == slot_of(pending, path),
    decreases pending.len(),
{
    let slot = slot_of(pending, path);
    let entry = PendingModel { path, kind, last_seen: now };
    let after = pending.update(slot, entry);
    lemma_slot_found(pending, path);
    if pending.len() > 0 {
        let rest = pending.drop_last();
        if slot < pending.len() - 1 {
            lemma_slot_update(rest, path, kind, now);
            assert(after.drop_last() =~= rest.update(slot, entry));
        } else {
            assert(after.drop_last() =~= rest);
        }
    }
}

} // verus!
