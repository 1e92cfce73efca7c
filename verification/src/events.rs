//! The event bus: one publisher side, any number of subscribers, each with
//! a backlog of bounded length. Publishing never waits: a subscriber that
//! falls behind loses its oldest events.

use vstd::prelude::*;

verus! {

/// Number of events that a subscriber of a default bus may fall behind.
pub const DEFAULT_CAPACITY: usize = 256;

/// What the parts of the application tell each other.
#[derive(Debug)]
pub enum AppEvent {
    /// Node started successfully.
    NodeStarted,
    /// Node stopped.
    NodeStopped,
    /// Peer connected.
    PeerConnected { peer_id: String },
    /// Peer disconnected.
    PeerDisconnected { peer_id: String },
    /// Wallet unlocked.
    WalletUnlocked,
    /// Wallet locked.
    WalletLocked,
    /// Active wallet changed.
    WalletChanged { wallet_id: [u8; 16] },
    /// File sync started.
    SyncStarted { path: String },
    /// File sync completed.
    SyncCompleted { path: String },
    /// Sync conflict detected.
    SyncConflict { path: String, local_modified: i64, remote_modified: i64 },
    /// Sync progress update.
    SyncProgress { completed: u64, total: u64 },
    /// Playback started.
    PlaybackStarted { track: String },
    /// Playback paused.
    PlaybackPaused,
    /// Playback stopped.
    PlaybackStopped,
    /// Playback position changed, in milliseconds.
    PlaybackPosition { position_millis: u64, duration_millis: u64 },
    /// Migration started.
    MigrationStarted { total_items: u64 },
    /// Migration progress.
    MigrationProgress { migrated: u64, total: u64 },
    /// Migration completed.
    MigrationCompleted { successful: u64, failed: u64 },
    /// Error occurred.
    Error { message: String },
    /// Toast notification.
    Toast { message: String, level: String },
}

/// Mathematical model of an [`AppEvent`].
pub enum EventModel {
    NodeStarted,
    NodeStopped,
    PeerConnected { peer_id: Seq<char> },
    PeerDisconnected { peer_id: Seq<char> },
    WalletUnlocked,
    WalletLocked,
    WalletChanged { wallet_id: [u8; 16] },
    SyncStarted { path: Seq<char> },
    SyncCompleted { path: Seq<char> },
    SyncConflict { path: Seq<char>, local_modified: i64, remote_modified: i64 },
    SyncProgress { completed: u64, total: u64 },
    PlaybackStarted { track: Seq<char> },
    PlaybackPaused,
    PlaybackStopped,
    PlaybackPosition { position_millis: u64, duration_millis: u64 },
    MigrationStarted { total_items: u64 },
    MigrationProgress { migrated: u64, total: u64 },
    MigrationCompleted { successful: u64, failed: u64 },
    Error { message: Seq<char> },
    Toast { message: Seq<char>, level: Seq<char> },
}

impl View for AppEvent {
    type V = EventModel;

    open spec fn view(&self) -> EventModel {
        match self {
            AppEvent::NodeStarted => EventModel::NodeStarted,
            AppEvent::NodeStopped => EventModel::NodeStopped,
            AppEvent::PeerConnected { peer_id } => EventModel::PeerConnected { peer_id: peer_id@ },
            AppEvent::PeerDisconnected { peer_id } => EventModel::PeerDisconnected {
                peer_id: peer_id@,
            },
            AppEvent::WalletUnlocked => EventModel::WalletUnlocked,
            AppEvent::WalletLocked => EventModel::WalletLocked,
            AppEvent::WalletChanged { wallet_id } => EventModel::WalletChanged {
                wallet_id: *wallet_id,
            },
            AppEvent::SyncStarted { path } => EventModel::SyncStarted { path: path@ },
            AppEvent::SyncCompleted { path } => EventModel::SyncCompleted { path: path@ },
            AppEvent::SyncConflict { path, local_modified, remote_modified } => {
                EventModel::SyncConflict {
                    path: path@,
                    local_modified: *local_modified,
                    remote_modified: *remote_modified,
                }
            },
            AppEvent::SyncProgress { completed, total } => EventModel::SyncProgress {
                completed: *completed,
                total: *total,
            },
            AppEvent::PlaybackStarted { track } => EventModel::PlaybackStarted { track: track@ },
            AppEvent::PlaybackPaused => EventModel::PlaybackPaused,
            AppEvent::PlaybackStopped => EventModel::PlaybackStopped,
            AppEvent::PlaybackPosition { position_millis, duration_millis } => {
                EventModel::PlaybackPosition {
                    position_millis: *position_millis,
                    duration_millis: *duration_millis,
                }
            },
            AppEvent::MigrationStarted { total_items } => EventModel::MigrationStarted {
                total_items: *total_items,
            },
            AppEvent::MigrationProgress { migrated, total } => EventModel::MigrationProgress {
                migrated: *migrated,
                total: *total,
            },
            AppEvent::MigrationCompleted { successful, failed } => EventModel::MigrationCompleted {
                successful: *successful,
                failed: *failed,
            },
            AppEvent::Error { message } => EventModel::Error { message: message@ },
            AppEvent::Toast { message, level } => EventModel::Toast {
                message: message@,
                level: level@,
            },
        }
    }
}

impl Clone for AppEvent {
    fn clone(&self) -> (copy: Self)
        ensures
            copy@ == self@,
    {
        match self {
            AppEvent::NodeStarted => AppEvent::NodeStarted,
            AppEvent::NodeStopped => AppEvent::NodeStopped,
            AppEvent::PeerConnected { peer_id } => AppEvent::PeerConnected {
                peer_id: peer_id.clone(),
            },
            AppEvent::PeerDisconnected { peer_id } => AppEvent::PeerDisconnected {
                peer_id: peer_id.clone(),
            },
            AppEvent::WalletUnlocked => AppEvent::WalletUnlocked,
            AppEvent::WalletLocked => AppEvent::WalletLocked,
            AppEvent::WalletChanged { wallet_id } => AppEvent::WalletChanged {
                wallet_id: *wallet_id,
            },
            AppEvent::SyncStarted { path } => AppEvent::SyncStarted { path: path.clone() },
            AppEvent::SyncCompleted { path } => AppEvent::SyncCompleted { path: path.clone() },
            AppEvent::SyncConflict { path, local_modified, remote_modified } => {
                AppEvent::SyncConflict {
                    path: path.clone(),
                    local_modified: *local_modified,
                    remote_modified: *remote_modified,
                }
            },
            AppEvent::SyncProgress { completed, total } => AppEvent::SyncProgress {
                completed: *completed,
                total: *total,
            },
            AppEvent::PlaybackStarted { track } => AppEvent::PlaybackStarted {
                track: track.clone(),
            },
            AppEvent::PlaybackPaused => AppEvent::PlaybackPaused,
            AppEvent::PlaybackStopped => AppEvent::PlaybackStopped,
            AppEvent::PlaybackPosition { position_millis, duration_millis } => {
                AppEvent::PlaybackPosition {
                    position_millis: *position_millis,
                    duration_millis: *duration_millis,
                }
            },
            AppEvent::MigrationStarted { total_items } => AppEvent::MigrationStarted {
                total_items: *total_items,
            },
            AppEvent::MigrationProgress { migrated, total } => AppEvent::MigrationProgress {
                migrated: *migrated,
                total: *total,
            },
            AppEvent::MigrationCompleted { successful, failed } => AppEvent::MigrationCompleted {
                successful: *successful,
                failed: *failed,
            },
            AppEvent::Error { message } => AppEvent::Error { message: message.clone() },
            AppEvent::Toast { message, level } => AppEvent::Toast {
                message: message.clone(),
                level: level.clone(),
            },
        }
    }
}

/// The models of a sequence of events, in order.
pub open spec fn event_models(events: Seq<AppEvent>) -> Seq<EventModel> {
    Seq::new(events.len(), |i: int| events[i]@)
}

/// Mathematical model of one subscriber: what it has not read yet, oldest
/// first, and how many events it lost.
pub struct SubscriberModel {
    pub backlog: Seq<EventModel>,
    pub missed: u64,
}

/// One more missed event; the count stops at the largest number there is.
pub open spec fn one_more(missed: u64) -> u64 {
    if missed < u64::MAX {
        (missed + 1) as u64
    } else {
        missed
    }
}

/// A backlog after `event` was added: where it is full, the oldest event
/// leaves and counts as missed.
pub open spec fn delivered(subscriber: SubscriberModel, capacity: nat, event: EventModel) -> SubscriberModel {
    if capacity == 0 {
        SubscriberModel { backlog: subscriber.backlog, missed: one_more(subscriber.missed) }
    } else if subscriber.backlog.len() < capacity {
        SubscriberModel { backlog: subscriber.backlog.push(event), missed: subscriber.missed }
    } else {
        SubscriberModel {
            backlog: subscriber.backlog.remove(0).push(event),
            missed: one_more(subscriber.missed),
        }
    }
}

struct Subscriber {
    backlog: Vec<AppEvent>,
    missed: u64,
}

/// The bus.
pub struct EventBus {
    capacity: usize,
    subscribers: Vec<Subscriber>,
}

spec fn subscriber_models(subscribers: Seq<Subscriber>) -> Seq<SubscriberModel> {
    Seq::new(
        subscribers.len(),
        |i: int|
            SubscriberModel {
                backlog: event_models(subscribers[i].backlog@),
                missed: subscribers[i].missed,
            },
    )
}

impl EventBus {
    /// The length that a backlog may have.
    pub closed spec fn capacity(&self) -> nat {
        self.capacity as nat
    }

    /// The subscribers, in the order in which they subscribed.
    pub closed spec fn subscribers(&self) -> Seq<SubscriberModel> {
        subscriber_models(self.subscribers@)
    }

    /// The invariant of the bus: no backlog is longer than the capacity.
    pub closed spec fn wf(&self) -> bool {
        forall|i: int|
            0 <= i < self.subscribers@.len() ==> (#[trigger] self.subscribers@[i]).backlog@.len()
                <= self.capacity
    }

    /// Capacity bound: in a bus that is in order, no subscriber has more
    /// events to read than the capacity.
    pub proof fn lemma_backlog_bounded(&self, i: int)
        requires
            self.wf(),
            0 <= i < self.subscribers().len(),
        ensures
            self.subscribers()[i].backlog.len() <= self.capacity(),
    {
        assert(self.subscribers@[i].backlog@.len() <= self.capacity);
    }

    /// A bus without subscribers whose backlogs hold up to `capacity` events.
    pub fn new(capacity: usize) -> (bus: Self)
        ensures
            bus.wf(),
            bus.capacity() == capacity,
            bus.subscribers().len() == 0,
    {
        EventBus { capacity, subscribers: Vec::new() }
    }

    /// Number of subscribers.
    pub fn subscriber_count(&self) -> (n: usize)
        ensures
            n == self.subscribers().len(),
    {
        self.subscribers.len()
    }

    /// Adds a subscriber with an empty backlog. Hands back its number.
    pub fn subscribe(&mut self) -> (id: usize)
        requires
            old(self).wf(),
        ensures
            final(self).wf(),
            final(self).capacity() == old(self).capacity(),
            id == old(self).subscribers().len(),
            final(self).subscribers() == old(self).subscribers().push(
                SubscriberModel { backlog: Seq::empty(), missed: 0 },
            ),
    {
        let ghost before = self.subscribers();
        let id = self.subscribers.len();
        self.subscribers.push(Subscriber { backlog: Vec::new(), missed: 0 });
        proof {
            assert(self.subscribers() =~= before.push(
                SubscriberModel { backlog: Seq::empty(), missed: 0 },
            )) by {
                assert(event_models(Seq::<AppEvent>::empty()) =~= Seq::<EventModel>::empty());
            }
        }
        id
    }

    /// Hands `event` to every subscriber. Never waits: where a backlog is
    /// full, its oldest event makes room.
    pub fn publish(&mut self, event: AppEvent)
        requires
            old(self).wf(),
        ensures
            final(self).wf(),
            final(self).capacity() == old(self).capacity(),
            final(self).subscribers().len() == old(self).subscribers().len(),
            forall|i: int|
                0 <= i < old(self).subscribers().len() ==> (#[trigger] final(self).subscribers()[i])
                    == delivered(old(self).subscribers()[i], old(self).capacity(), event@),
    {
        let ghost before = self.subscribers();
        let mut i: usize = 0;
        while i < self.subscribers.len()
            invariant
                i <= self.subscribers@.len(),
                self.wf(),
                self.capacity() == old(self).capacity(),
                self.subscribers().len() == before.len(),
                before == old(self).subscribers(),
                forall|j: int|
                    0 <= j < i ==> (#[trigger] self.subscribers()[j]) == delivered(
                        before[j],
                        self.capacity(),
                        event@,
                    ),
                forall|j: int| i <= j < before.len() ==> (#[trigger] self.subscribers()[j]) == before[j],
            decreases self.subscribers@.len() - i,
        {
            let ghost snapshot = self.subscribers();
            let ghost backlog = event_models(self.subscribers@[i as int].backlog@);
            let ghost lost = self.subscribers@[i as int].missed;
            assert(snapshot[i as int] == (SubscriberModel { backlog, missed: lost }));
            let mut full = false;
            if self.capacity == 0 {
                full = true;
            } else {
                if self.subscribers[i].backlog.len() >= self.capacity {
                    self.subscribers[i].backlog.remove(0);
                    full = true;
                    assert(event_models(self.subscribers@[i as int].backlog@) =~= backlog.remove(0));
                }
                let ghost middle = event_models(self.subscribers@[i as int].backlog@);
                self.subscribers[i].backlog.push(event.clone());
                assert(event_models(self.subscribers@[i as int].backlog@) =~= middle.push(event@));
            }
            if full {
                if self.subscribers[i].missed < u64::MAX {
                    self.subscribers[i].missed = self.subscribers[i].missed + 1;
                }
            }
            proof {
                assert(self.subscribers()[i as int] == delivered(
                    before[i as int],
                    self.capacity(),
                    event@,
                ));
                assert forall|j: int| 0 <= j < i + 1 implies (#[trigger] self.subscribers()[j])
                    == delivered(before[j], self.capacity(), event@) by {
                    if j < i {
                        assert(self.subscribers()[j] == snapshot[j]);
                    }
                }
                assert forall|j: int| i + 1 <= j < before.len() implies (
                #[trigger] self.subscribers()[j]) == before[j] by {
                    assert(self.subscribers()[j] == snapshot[j]);
                }
            }
            i = i + 1;
        }
    }

    /// Takes the oldest event that the subscriber has not read yet, if
    /// there is one; `None` too for a number that no subscriber has.
    pub fn poll(&mut self, id: usize) -> (event: Option<AppEvent>)
        requires
            old(self).wf(),
        ensures
            final(self).wf(),
            final(self).capacity() == old(self).capacity(),
            event is Some <==> id < old(self).subscribers().len() && old(
                self,
            ).subscribers()[id as int].backlog.len() > 0,
            event matches Some(e) ==> e@ == old(self).subscribers()[id as int].backlog[0]
                && final(self).subscribers() == old(self).subscribers().update(
                id as int,
                SubscriberModel {
                    backlog: old(self).subscribers()[id as int].backlog.remove(0),
                    missed: old(self).subscribers()[id as int].missed,
                },
            ),
            event is None ==> final(self).subscribers() == old(self).subscribers(),
    {
        if id >= self.subscribers.len() {
            return None;
        }
        let ghost before = self.subscribers();
        assert(before[id as int].backlog == event_models(self.subscribers@[id as int].backlog@));
        if self.subscribers[id].backlog.len() == 0 {
            return None;
        }
        let event = self.subscribers[id].backlog.remove(0);
        proof {
            assert(self.subscribers() =~= before.update(
                id as int,
                SubscriberModel {
                    backlog: before[id as int].backlog.remove(0),
                    missed: before[id as int].missed,
                },
            )) by {
                assert(event_models(self.subscribers@[id as int].backlog@)
                    =~= before[id as int].backlog.remove(0));
            }
        }
        Some(event)
    }
}

impl Default for EventBus {
    fn default() -> (bus: Self)
        ensures
            bus.wf(),
            bus.capacity() == DEFAULT_CAPACITY,
            bus.subscribers().len() == 0,
    {
        EventBus::new(DEFAULT_CAPACITY)
    }
}

/// A bus of the default capacity.
pub fn create_event_bus() -> (bus: EventBus)
    ensures
        bus.wf(),
        bus.capacity() == DEFAULT_CAPACITY,
        bus.subscribers().len() == 0,
{
    EventBus::default()
}

} // verus!
