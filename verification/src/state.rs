//! The state that the application's layers share: what is known of the
//! node, the wallets, the synced folders and a running migration.

use std::collections::VecDeque;
use vstd::prelude::*;

verus! {

/// Node connection state.
#[derive(Debug, Clone, Default)]
pub struct NodeState {
    /// Current status.
    pub status: NodeStatus,
    /// Number of connected peers.
    pub peer_count: usize,
    /// Network statistics.
    pub stats: NetworkStats,
    /// Recent events, newest last.
    pub recent_events: VecDeque<String>,
}

/// Node connection status.
#[derive(Debug, Clone, Copy, PartialEq, Eq, Default)]
pub enum NodeStatus {
    /// Not connected.
    #[default]
    Disconnected,
    /// Connecting to the network.
    Connecting,
    /// Connected and operational.
    Connected,
    /// Synchronizing with the network.
    Syncing {
        /// Progress in percent, 0 to 100.
        progress: u8,
    },
    /// Error state.
    Error,
}

/// Network statistics.
#[derive(Debug, Clone, Default)]
pub struct NetworkStats {
    /// Bytes uploaded.
    pub bytes_uploaded: u64,
    /// Bytes downloaded.
    pub bytes_downloaded: u64,
    /// Chunks stored on the network.
    pub chunks_stored: u64,
    /// Chunks retrieved from the network.
    pub chunks_retrieved: u64,
}

/// Wallet state.
#[derive(Debug, Clone, Default)]
pub struct WalletState {
    /// Current session state.
    pub session: SessionState,
    /// Available wallets (metadata only).
    pub wallets: Vec<WalletInfo>,
    /// Active wallet.
    pub active_wallet: Option<[u8; 16]>,
    /// Wallet balances.
    pub balances: Vec<WalletBalance>,
    /// Loading indicator.
    pub is_loading: bool,
    /// Error message, if any.
    pub error: Option<String>,
}

/// Wallet session state.
#[derive(Debug, Clone, Copy, PartialEq, Eq, Default)]
pub enum SessionState {
    /// No vault exists.
    Uninitialized,
    /// A vault exists and is locked.
    #[default]
    Locked,
    /// Unlocking in progress.
    Unlocking,
    /// Unlocked and ready.
    Unlocked,
    /// Locking in progress.
    Locking,
}

/// Wallet info (non-sensitive metadata).
#[derive(Debug, Clone)]
pub struct WalletInfo {
    /// Unique wallet ID.
    pub id: [u8; 16],
    /// Human-readable name.
    pub name: String,
    /// Network address.
    pub saorsa_address: [u8; 32],
    /// EVM address, if any.
    pub evm_address: Option<[u8; 20]>,
    /// Creation timestamp.
    pub created_at: i64,
    /// Last used timestamp.
    pub last_used: i64,
}

/// Wallet balance info.
#[derive(Debug, Clone)]
pub struct WalletBalance {
    /// Wallet ID.
    pub wallet_id: [u8; 16],
    /// Native token balance, in the smallest unit.
    pub native_balance: String,
    /// Token balances.
    pub tokens: Vec<TokenBalance>,
}

/// Token balance.
#[derive(Debug, Clone)]
pub struct TokenBalance {
    /// Token symbol.
    pub symbol: String,
    /// Token balance.
    pub balance: String,
    /// Token contract address.
    pub contract: [u8; 20],
}

/// A synced folder as the rest of the application sees it.
#[derive(Debug)]
pub struct SyncFolder {
    /// Unique folder ID.
    pub id: [u8; 16],
    /// Local path.
    pub local_path: String,
    /// Display name.
    pub name: String,
    /// Time of the last completed scan.
    pub last_sync: i64,
    /// Sync status.
    pub status: SyncFolderStatus,
}

/// Mathematical model of a [`SyncFolder`].
pub struct SyncFolderModel {
    pub id: [u8; 16],
    pub local_path: Seq<char>,
    pub name: Seq<char>,
    pub last_sync: i64,
    pub status: SyncFolderStatus,
}

impl View for SyncFolder {
    type V = SyncFolderModel;

    open spec fn view(&self) -> SyncFolderModel {
        SyncFolderModel {
            id: self.id,
            local_path: self.local_path@,
            name: self.name@,
            last_sync: self.last_sync,
            status: self.status,
        }
    }
}

impl Clone for SyncFolder {
    fn clone(&self) -> (copy: Self)
        ensures
            copy@ == self@,
    {
        SyncFolder {
            id: self.id,
            local_path: self.local_path.clone(),
            name: self.name.clone(),
            last_sync: self.last_sync,
            status: self.status,
        }
    }
}

/// Sync status of a folder, or of one path in it.
#[derive(Debug, Clone, Copy, PartialEq, Eq, Structural, Default)]
pub enum SyncFolderStatus {
    /// Up to date.
    #[default]
    Synced,
    /// Transfers in progress.
    Syncing,
    /// Changes are waiting.
    Pending,
    /// Edits on both sides that await a decision.
    Conflict,
    /// A transfer failed for good.
    Error,
}

/// Kind of work in flight.
#[derive(Debug, Clone, Copy, PartialEq, Eq, Structural)]
pub enum SyncOperationType {
    /// Uploading a file.
    Upload,
    /// Downloading a file.
    Download,
    /// Scanning for changes.
    Scan,
}

/// Aggregate counters of the sync engine.
#[derive(Debug, Clone, Copy, PartialEq, Eq, Structural, Default)]
pub struct SyncStats {
    /// Files synced so far.
    pub files_synced: u64,
    /// Bytes synced so far.
    pub bytes_synced: u64,
    /// Files that wait for a transfer.
    pub files_pending: u64,
    /// When the last transfer completed.
    pub last_sync: Option<i64>,
}

/// Two sides of a path that were edited apart.
#[derive(Debug)]
pub struct SyncConflict {
    /// File path.
    pub path: String,
    /// Local modification time.
    pub local_modified: i64,
    /// Remote modification time.
    pub remote_modified: i64,
    /// Local file size.
    pub local_size: u64,
    /// Remote file size.
    pub remote_size: u64,
}

/// Mathematical model of a [`SyncConflict`].
pub struct SyncConflictModel {
    pub path: Seq<char>,
    pub local_modified: i64,
    pub remote_modified: i64,
    pub local_size: u64,
    pub remote_size: u64,
}

impl View for SyncConflict {
    type V = SyncConflictModel;

    open spec fn view(&self) -> SyncConflictModel {
        SyncConflictModel {
            path: self.path@,
            local_modified: self.local_modified,
            remote_modified: self.remote_modified,
            local_size: self.local_size,
            remote_size: self.remote_size,
        }
    }
}

impl Clone for SyncConflict {
    fn clone(&self) -> (copy: Self)
        ensures
            copy@ == self@,
    {
        SyncConflict {
            path: self.path.clone(),
            local_modified: self.local_modified,
            remote_modified: self.remote_modified,
            local_size: self.local_size,
            remote_size: self.remote_size,
        }
    }
}

/// Playback state.
#[derive(Debug, Clone, Copy, PartialEq, Eq, Default)]
pub enum PlaybackState {
    /// Stopped.
    #[default]
    Stopped,
    /// Playing.
    Playing,
    /// Paused.
    Paused,
    /// Buffering.
    Buffering,
}

/// Track type.
#[derive(Debug, Clone, Copy, PartialEq, Eq, Default)]
pub enum TrackType {
    /// Audio track.
    #[default]
    Audio,
    /// Video track.
    Video,
}

/// Migration state.
#[derive(Debug, Clone, Default)]
pub struct MigrationState {
    /// Migration status.
    pub status: MigrationStatus,
    /// Total items discovered.
    pub total_items: u64,
    /// Items migrated.
    pub migrated_items: u64,
    /// Items failed.
    pub failed_items: u64,
    /// Item being migrated.
    pub current_item: Option<String>,
    /// Discovered data sources.
    pub sources: Vec<MigrationSource>,
}

/// Migration status.
#[derive(Debug, Clone, Copy, PartialEq, Eq, Default)]
pub enum MigrationStatus {
    /// Not started.
    #[default]
    Idle,
    /// Scanning for data.
    Scanning,
    /// Ready to migrate.
    Ready,
    /// Migration in progress.
    InProgress,
    /// Migration completed.
    Completed,
    /// Migration failed.
    Failed,
}

/// Migration source info.
#[derive(Debug, Clone)]
pub struct MigrationSource {
    /// Source type.
    pub source_type: MigrationSourceType,
    /// Source path or identifier.
    pub identifier: String,
    /// Items found.
    pub item_count: u64,
    /// Total size in bytes.
    pub total_bytes: u64,
}

/// Migration source type.
#[derive(Debug, Clone, Copy, PartialEq, Eq)]
pub enum MigrationSourceType {
    /// Data of a local node.
    LocalAntNode,
    /// Data on the network.
    AutonomiNetwork,
}

} // verus!
