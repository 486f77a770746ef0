use vstd::prelude::*;
use crate::archive::ArchiveLocation;
use crate::taildrive::TaildriveLocation;

verus! {

/// A change to local files that a worker carries out; `current` is the
/// folder the user was in.
#[derive(Debug, Clone)]
pub enum LocalFileCommand {
    CreateDir { current: String, path: String },
    CopyMove { current: String, source: String, destination: String, cut: bool, replace: bool },
    Delete { current: String, path: String },
    Rename { current: String, source: String, destination: String },
}

impl LocalFileCommand {
    /// The folder the user was in when the command was given.
    pub open spec fn current_spec(&self) -> Seq<char> {
        match self {
            LocalFileCommand::CreateDir { current, .. } => current@,
            LocalFileCommand::CopyMove { current, .. } => current@,
            LocalFileCommand::Delete { current, .. } => current@,
            LocalFileCommand::Rename { current, .. } => current@,
        }
    }

    /// The folder the user was in when the command was given.
    pub fn current(&self) -> (r: &String)
        ensures
            r@ == self.current_spec(),
    {
        match self {
            LocalFileCommand::CreateDir { current, .. } => current,
            LocalFileCommand::CopyMove { current, .. } => current,
            LocalFileCommand::Delete { current, .. } => current,
            LocalFileCommand::Rename { current, .. } => current,
        }
    }
}

/// A finished local file command and how it went.
#[derive(Debug)]
pub struct LocalFileEvent {
    pub command: LocalFileCommand,
    pub result: Result<(), String>,
}

/// How large the cache of opened remote files may grow and how long an
/// unused file stays (0 for either: no limit).
#[derive(Debug, Clone, Copy, PartialEq, Eq, Structural)]
pub struct RemoteCacheSettings {
    pub limit_mib: u32,
    pub expiration_hours: u32,
}

/// Work on the cache of opened remote files; `protected` names the cache
/// files that running transfers still need.
#[derive(Debug, Clone)]
pub enum CacheCommand {
    Maintain { root: String, settings: RemoteCacheSettings, protected: Vec<String>, usage_refresh_id: u64 },
    Clear { root: String, settings: RemoteCacheSettings, protected: Vec<String>, usage_refresh_id: u64 },
    Record {
        root: String,
        source_key: String,
        destination: String,
        display_name: String,
        remote_size: u64,
        remote_modified: String,
        settings: RemoteCacheSettings,
        protected: Vec<String>,
    },
    RemoveTemp { root: String, path: String, settings: RemoteCacheSettings, protected: Vec<String> },
}

/// The cache's size after a cache command, and which usage request it
/// answers.
#[derive(Debug)]
pub struct CacheEvent {
    pub result: Result<u64, String>,
    pub usage_refresh_id: Option<u64>,
}

/// Bytes to write to a file, replacing it at once.
#[derive(Debug, Clone)]
pub struct PersistCommand {
    pub path: String,
    pub bytes: Vec<u8>,
}

/// What a remote file is fetched for.
#[derive(Debug, Clone)]
pub enum RemotePreparePurpose {
    Open,
    Share,
    ImportArchive { current: ArchiveLocation, name: String, replace: bool },
}

/// A remote file to make available locally, with what is known of its
/// version.
#[derive(Debug, Clone)]
pub struct RemotePrepareRequest {
    pub source: TaildriveLocation,
    pub source_location: String,
    pub display_name: String,
    pub remote_size: u64,
    pub remote_modified: String,
    pub cache_root: String,
    pub cache_settings: RemoteCacheSettings,
    pub purpose: RemotePreparePurpose,
}

/// A cached copy to use, or where to download the file.
#[derive(Debug)]
pub enum RemotePrepareResult {
    Cached(String),
    Download { destination: String, cache_file_name: String, source_key: String },
}

/// The answer to a remote prepare request.
#[derive(Debug)]
pub struct RemotePrepareEvent {
    pub request: RemotePrepareRequest,
    pub result: Result<RemotePrepareResult, String>,
}

/// What is known of the cache's size: the usage request still awaited, the
/// last size reported, and whether another request waits for it.
#[derive(Debug, Clone, Copy)]
pub struct CacheUsage {
    pub pending: Option<u64>,
    pub bytes: u64,
    pub refresh_queued: bool,
}

impl CacheUsage {
    /// Takes in the answer to a cache command: it completes the awaited
    /// usage request only when it answers that very request; any size it
    /// reports is kept. Answers whether a queued usage request must be sent
    /// now (the awaited one completed while another waited).
    pub fn apply_cache_event(&mut self, event: CacheEvent) -> (send_queued: bool)
        ensures
            ({
                let completes = event.usage_refresh_id matches Some(id) && old(self).pending == Some(id);
                &&& final(self).pending == (if completes {
                    None
                } else {
                    old(self).pending
                })
                &&& final(self).bytes == (match event.result {
                    Ok(b) => b,
                    Err(_) => old(self).bytes,
                })
                &&& send_queued == (completes && old(self).refresh_queued)
                &&& final(self).refresh_queued == (old(self).refresh_queued && !completes)
            }),
    {
        let completes = match event.usage_refresh_id {
            Some(id) => match self.pending {
                Some(p) => p == id,
                None => false,
            },
            None => false,
        };
        if completes {
            self.pending = None;
        }
        if let Ok(b) = event.result {
            self.bytes = b;
        }
        if completes && self.refresh_queued {
            self.refresh_queued = false;
            true
        } else {
            false
        }
    }
}

/// What is open when the system's back gesture comes.
#[derive(Debug, Clone, Copy)]
pub struct BackState {
    pub delete_confirmation: bool,
    pub paste_conflict: bool,
    pub rename_active: bool,
    pub tab_overlay: bool,
    pub transfer_popup: bool,
    pub sort_popup: bool,
    pub file_more_popup: bool,
    pub settings_open: bool,
    pub can_go_back: bool,
}

/// What the system's back gesture does.
#[derive(Debug, Clone, Copy, PartialEq, Eq, Structural)]
pub enum BackAction {
    CancelDeleteConfirmation,
    CancelPasteConflict,
    CancelRename,
    CloseTabOverlays,
    CloseTransferPopup,
    CloseSortPopup,
    CloseFileMorePopup,
    CloseSettings,
    GoBack,
    Exit,
}

/// The back gesture closes the innermost thing open, in this order: a
/// delete confirmation, a paste conflict, a rename, a tab menu or group
/// editor, the transfer list, the sort menu, the file menu, the settings;
/// else it goes back in the tab's history, and with no history left the
/// app exits.
pub open spec fn back_action_of(s: BackState) -> BackAction {
    if s.delete_confirmation {
        BackAction::CancelDeleteConfirmation
    } else if s.paste_conflict {
        BackAction::CancelPasteConflict
    } else if s.rename_active {
        BackAction::CancelRename
    } else if s.tab_overlay {
        BackAction::CloseTabOverlays
    } else if s.transfer_popup {
        BackAction::CloseTransferPopup
    } else if s.sort_popup {
        BackAction::CloseSortPopup
    } else if s.file_more_popup {
        BackAction::CloseFileMorePopup
    } else if s.settings_open {
        BackAction::CloseSettings
    } else if s.can_go_back {
        BackAction::GoBack
    } else {
        BackAction::Exit
    }
}

/// Decides what the system's back gesture does (see `back_action_of`).
pub fn system_back_action(s: BackState) -> (r: BackAction)
    ensures
        r == back_action_of(s),
{
    if s.delete_confirmation {
        BackAction::CancelDeleteConfirmation
    } else if s.paste_conflict {
        BackAction::CancelPasteConflict
    } else if s.rename_active {
        BackAction::CancelRename
    } else if s.tab_overlay {
        BackAction::CloseTabOverlays
    } else if s.transfer_popup {
        BackAction::CloseTransferPopup
    } else if s.sort_popup {
        BackAction::CloseSortPopup
    } else if s.file_more_popup {
        BackAction::CloseFileMorePopup
    } else if s.settings_open {
        BackAction::CloseSettings
    } else if s.can_go_back {
        BackAction::GoBack
    } else {
        BackAction::Exit
    }
}

} // verus!
