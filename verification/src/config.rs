//! Configuration of the application and of the sync engine.

use crate::time::{duration_from_secs, duration_nanos, NANOS_PER_SECOND};
use std::time::Duration;
use vstd::prelude::*;
use vstd::string::*;

verus! {

/// Node connection configuration.
#[derive(Debug, Clone)]
pub struct NodeConfig {
    /// Whether to run an embedded node or connect to an external one.
    pub embedded: bool,
    /// Port for the embedded node (0 = chosen by the system).
    pub port: u16,
    /// Bootstrap peers for the network connection.
    pub bootstrap_peers: Vec<String>,
}

impl Default for NodeConfig {
    fn default() -> (config: Self)
        ensures
            config.embedded,
            config.port == 0,
            config.bootstrap_peers@.len() == 0,
    {
        NodeConfig { embedded: true, port: 0, bootstrap_peers: Vec::new() }
    }
}

/// Wallet configuration.
#[derive(Debug, Clone)]
pub struct WalletConfig {
    /// Auto-lock timeout in seconds.
    pub auto_lock_seconds: u64,
    /// Path to the vault file (`None` = default location).
    pub vault_path: Option<String>,
}

impl Default for WalletConfig {
    fn default() -> (config: Self)
        ensures
            config.auto_lock_seconds == 15 * 60,
            config.vault_path is None,
    {
        WalletConfig { auto_lock_seconds: 15 * 60, vault_path: None }
    }
}

impl WalletConfig {
    /// The auto-lock timeout as a `Duration`.
    pub fn auto_lock_timeout(&self) -> (timeout: Duration)
        ensures
            duration_nanos(timeout) == self.auto_lock_seconds * NANOS_PER_SECOND,
    {
        duration_from_secs(self.auto_lock_seconds)
    }
}

/// Sync configuration.
#[derive(Debug)]
pub struct SyncConfig {
    /// Maximum concurrent uploads.
    pub max_concurrent_uploads: usize,
    /// Maximum concurrent downloads.
    pub max_concurrent_downloads: usize,
    /// Seconds between two periodic scans of a folder.
    pub sync_interval_seconds: u64,
    /// Glob patterns of paths that are never synced, in every folder.
    pub exclude_patterns: Vec<String>,
}

/// The character sequences of a list of strings, in order.
pub open spec fn texts(strings: Seq<String>) -> Seq<Seq<char>> {
    Seq::new(strings.len(), |i: int| strings[i]@)
}

/// A copy of a list of strings.
pub fn copy_strings(strings: &Vec<String>) -> (copy: Vec<String>)
    ensures
        texts(copy@) == texts(strings@),
{
    let mut copy: Vec<String> = Vec::new();
    let mut i: usize = 0;
    while i < strings.len()
        invariant
            i <= strings@.len(),
            copy@.len() == i,
            forall|j: int| 0 <= j < i ==> copy@[j]@ == strings@[j]@,
        decreases strings@.len() - i,
    {
        copy.push(strings[i].clone());
        i = i + 1;
    }
    assert(texts(copy@) =~= texts(strings@));
    copy
}

/// Mathematical model of a [`SyncConfig`].
pub struct SyncConfigModel {
    pub max_concurrent_uploads: usize,
    pub max_concurrent_downloads: usize,
    pub sync_interval_seconds: u64,
    pub exclude_patterns: Seq<Seq<char>>,
}

impl View for SyncConfig {
    type V = SyncConfigModel;

    open spec fn view(&self) -> SyncConfigModel {
        SyncConfigModel {
            max_concurrent_uploads: self.max_concurrent_uploads,
            max_concurrent_downloads: self.max_concurrent_downloads,
            sync_interval_seconds: self.sync_interval_seconds,
            exclude_patterns: texts(self.exclude_patterns@),
        }
    }
}

impl Clone for SyncConfig {
    fn clone(&self) -> (copy: Self)
        ensures
            copy@ == self@,
    {
        SyncConfig {
            max_concurrent_uploads: self.max_concurrent_uploads,
            max_concurrent_downloads: self.max_concurrent_downloads,
            sync_interval_seconds: self.sync_interval_seconds,
            exclude_patterns: copy_strings(&self.exclude_patterns),
        }
    }
}

impl Default for SyncConfig {
    fn default() -> (config: Self)
        ensures
            config@ == (SyncConfigModel {
                max_concurrent_uploads: 8,
                max_concurrent_downloads: 16,
                sync_interval_seconds: 60,
                exclude_patterns: seq!["*.tmp"@, ".DS_Store"@, "Thumbs.db"@, ".git/**"@],
            }),
    {
        let mut exclude_patterns: Vec<String> = Vec::new();
        exclude_patterns.push(String::from_str("*.tmp"));
        exclude_patterns.push(String::from_str(".DS_Store"));
        exclude_patterns.push(String::from_str("Thumbs.db"));
        exclude_patterns.push(String::from_str(".git/**"));
        let config = SyncConfig {
            max_concurrent_uploads: 8,
            max_concurrent_downloads: 16,
            sync_interval_seconds: 60,
            exclude_patterns,
        };
        assert(config@.exclude_patterns =~= seq![
            "*.tmp"@,
            ".DS_Store"@,
            "Thumbs.db"@,
            ".git/**"@,
        ]);
        config
    }
}

/// User-interface configuration.
#[derive(Debug, Clone)]
pub struct UiConfig {
    /// Theme (light, dark, system).
    pub theme: String,
    /// Window width.
    pub window_width: u32,
    /// Window height.
    pub window_height: u32,
}

impl Default for UiConfig {
    fn default() -> (config: Self)
        ensures
            config.theme@ == "system"@,
            config.window_width == 1280,
            config.window_height == 800,
    {
        UiConfig { theme: String::from_str("system"), window_width: 1280, window_height: 800 }
    }
}

} // verus!
