//! Options, choices and history records of the sync service.

use crate::config::{copy_strings, texts};
use vstd::prelude::*;

verus! {

/// Which way a folder is synced.
#[derive(Debug, Clone, Copy, PartialEq, Eq, Structural, Default)]
pub enum SyncMode {
    /// Upload and download.
    #[default]
    Bidirectional,
    /// Upload only.
    UploadOnly,
    /// Download only.
    DownloadOnly,
}

/// How a folder is synced.
#[derive(Debug)]
pub struct SyncFolderOptions {
    /// Sync mode.
    pub mode: SyncMode,
    /// Glob patterns of paths that are not synced.
    pub exclude_patterns: Vec<String>,
    /// Largest file that is synced, in bytes (`None` = no limit).
    pub max_file_size: Option<u64>,
}

/// Mathematical model of [`SyncFolderOptions`].
pub struct SyncFolderOptionsModel {
    pub mode: SyncMode,
    pub exclude_patterns: Seq<Seq<char>>,
    pub max_file_size: Option<u64>,
}

impl View for SyncFolderOptions {
    type V = SyncFolderOptionsModel;

    open spec fn view(&self) -> SyncFolderOptionsModel {
        SyncFolderOptionsModel {
            mode: self.mode,
            exclude_patterns: texts(self.exclude_patterns@),
            max_file_size: self.max_file_size,
        }
    }
}

impl Clone for SyncFolderOptions {
    fn clone(&self) -> (copy: Self)
        ensures
            copy@ == self@,
    {
        SyncFolderOptions {
            mode: self.mode,
            exclude_patterns: copy_strings(&self.exclude_patterns),
            max_file_size: self.max_file_size,
        }
    }
}

impl Default for SyncFolderOptions {
    fn default() -> (options: Self)
        ensures
            options@ == (SyncFolderOptionsModel {
                mode: SyncMode::Bidirectional,
                exclude_patterns: Seq::empty(),
                max_file_size: None,
            }),
    {
        let options = SyncFolderOptions {
            mode: SyncMode::Bidirectional,
            exclude_patterns: Vec::new(),
            max_file_size: None,
        };
        assert(options@.exclude_patterns =~= Seq::<Seq<char>>::empty());
        options
    }
}

/// What to do about a conflict.
#[derive(Debug, Clone, Copy, PartialEq, Eq, Structural)]
pub enum ConflictResolution {
    /// Keep the local version.
    KeepLocal,
    /// Keep the remote version.
    KeepRemote,
    /// Keep both: the local version under another name.
    KeepBoth,
}

/// Kind of operation in the sync history.
#[derive(Debug, Clone, Copy, PartialEq, Eq, Structural)]
pub enum SyncHistoryOperation {
    /// Uploaded a file.
    Upload,
    /// Downloaded a file.
    Download,
    /// Deleted the local file.
    DeleteLocal,
    /// Deleted the remote file.
    DeleteRemote,
    /// Resolved a conflict.
    ConflictResolved,
}

/// One record of the sync history.
#[derive(Debug)]
pub struct SyncHistoryEntry {
    /// File path.
    pub path: String,
    /// Operation type.
    pub operation: SyncHistoryOperation,
    /// Timestamp.
    pub timestamp: i64,
    /// Success, or the message of the failure.
    pub result: Result<(), String>,
}

/// Mathematical model of a [`SyncHistoryEntry`].
pub struct SyncHistoryEntryModel {
    pub path: Seq<char>,
    pub operation: SyncHistoryOperation,
    pub timestamp: i64,
    pub result: Result<(), Seq<char>>,
}

impl View for SyncHistoryEntry {
    type V = SyncHistoryEntryModel;

    open spec fn view(&self) -> SyncHistoryEntryModel {
        SyncHistoryEntryModel {
            path: self.path@,
            operation: self.operation,
            timestamp: self.timestamp,
            result: match self.result {
                Ok(()) => Ok(()),
                Err(message) => Err(message@),
            },
        }
    }
}

impl Clone for SyncHistoryEntry {
    fn clone(&self) -> (copy: Self)
        ensures
            copy@ == self@,
    {
        SyncHistoryEntry {
            path: self.path.clone(),
            operation: self.operation,
            timestamp: self.timestamp,
            result: match &self.result {
                Ok(()) => Ok(()),
                Err(message) => Err(message.clone()),
            },
        }
    }
}

} // verus!
