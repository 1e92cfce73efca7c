//! Values of the migration service.

use crate::state::{MigrationSource, MigrationSourceType, MigrationStatus};
use vstd::prelude::*;

verus! {

/// Migration plan details.
#[derive(Debug, Clone)]
pub struct MigrationPlan {
    /// Sources discovered.
    pub sources: Vec<MigrationSource>,
    /// Total items to migrate.
    pub total_items: u64,
    /// Total bytes to migrate.
    pub total_bytes: u64,
    /// Estimated cost, if payment is required.
    pub estimated_cost: Option<String>,
    /// Items that need no migration.
    pub already_migrated: u64,
}

/// Migration progress info.
#[derive(Debug, Clone)]
pub struct MigrationProgress {
    /// Current status.
    pub status: MigrationStatus,
    /// Items migrated successfully.
    pub migrated: u64,
    /// Items failed.
    pub failed: u64,
    /// Total items.
    pub total: u64,
    /// Item being processed.
    pub current_item: Option<String>,
    /// Bytes transferred.
    pub bytes_transferred: u64,
}

/// Migration history entry.
#[derive(Debug, Clone)]
pub struct MigrationHistoryEntry {
    /// Timestamp.
    pub timestamp: i64,
    /// Source type.
    pub source_type: MigrationSourceType,
    /// Items migrated.
    pub items_migrated: u64,
    /// Items failed.
    pub items_failed: u64,
    /// Duration in seconds.
    pub duration_secs: u64,
}

/// Verification result.
#[derive(Debug, Clone)]
pub struct VerificationResult {
    /// Data address.
    pub address: [u8; 32],
    /// Whether verification passed.
    pub verified: bool,
    /// Error message if verification failed.
    pub error: Option<String>,
}

} // verus!
