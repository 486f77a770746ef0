use vstd::prelude::*;
use crate::commands::RemotePreparePurpose;
use crate::names::{is_aab_name, is_aab_spec, is_android_install_name, is_android_install_spec};
use crate::text::concat_texts;

verus! {

/// The text of `a`, then `b`, then `c`.
fn concat3(a: &str, b: &str, c: &str) -> (r: String)
    ensures
        r@ == a@ + b@ + c@,
{
    let ab = concat_texts(a, b);
    concat_texts(ab.as_str(), c)
}

/// Whether opening `display_name` means installing an app: an Android
/// package to open.
pub open spec fn prepares_install(purpose: RemotePreparePurpose, display_name: Seq<char>) -> bool {
    purpose is Open && is_android_install_spec(display_name)
}

/// The phase a download of `display_name` for `purpose` shows.
pub open spec fn download_phase_of(purpose: RemotePreparePurpose, display_name: Seq<char>) -> Seq<char> {
    match purpose {
        RemotePreparePurpose::Share => "Downloading to share"@,
        RemotePreparePurpose::ImportArchive { .. } => "Downloading for archive"@,
        RemotePreparePurpose::Open => if is_android_install_spec(display_name) {
            "Preparing app install"@
        } else {
            "Downloading"@
        },
    }
}

/// Names the phase of a download (see `download_phase_of`).
pub fn download_phase(purpose: &RemotePreparePurpose, display_name: &str) -> (r: String)
    ensures
        r@ == download_phase_of(*purpose, display_name@),
{
    match purpose {
        RemotePreparePurpose::Share => "Downloading to share".to_owned(),
        RemotePreparePurpose::ImportArchive { .. } => "Downloading for archive".to_owned(),
        RemotePreparePurpose::Open => if is_android_install_name(display_name) {
            "Preparing app install".to_owned()
        } else {
            "Downloading".to_owned()
        },
    }
}

/// The status line when a download of `display_name` for `purpose`
/// starts.
pub open spec fn download_start_status_of(purpose: RemotePreparePurpose, display_name: Seq<char>) -> Seq<char> {
    match purpose {
        RemotePreparePurpose::Share => "Downloading "@ + display_name + " for Quick Share…"@,
        RemotePreparePurpose::ImportArchive { .. } => "Downloading "@ + display_name + " for archive…"@,
        RemotePreparePurpose::Open => if is_android_install_spec(display_name) {
            "Preparing "@ + display_name + " for installation…"@
        } else {
            "Downloading TailDrive file: "@ + display_name + "…"@
        },
    }
}

/// Writes the status line when a download starts (see
/// `download_start_status_of`).
pub fn download_start_status(purpose: &RemotePreparePurpose, display_name: &str) -> (r: String)
    ensures
        r@ == download_start_status_of(*purpose, display_name@),
{
    match purpose {
        RemotePreparePurpose::Share => concat3("Downloading ", display_name, " for Quick Share…"),
        RemotePreparePurpose::ImportArchive { .. } => concat3("Downloading ", display_name, " for archive…"),
        RemotePreparePurpose::Open => if is_android_install_name(display_name) {
            concat3("Preparing ", display_name, " for installation…")
        } else {
            concat3("Downloading TailDrive file: ", display_name, "…")
        },
    }
}

/// The status line when a remote file could not be made available for
/// `purpose`.
pub open spec fn prepare_failure_status_of(purpose: RemotePreparePurpose, error: Seq<char>) -> Seq<char> {
    match purpose {
        RemotePreparePurpose::Share => "Cannot prepare TailDrive file for sharing: "@ + error,
        RemotePreparePurpose::ImportArchive { .. } => "Cannot prepare TailDrive file for archive: "@ + error,
        RemotePreparePurpose::Open => "Cannot prepare TailDrive file: "@ + error,
    }
}

/// Writes the status line when a remote file could not be made available
/// (see `prepare_failure_status_of`).
pub fn prepare_failure_status(purpose: &RemotePreparePurpose, error: &str) -> (r: String)
    ensures
        r@ == prepare_failure_status_of(*purpose, error@),
{
    match purpose {
        RemotePreparePurpose::Share => concat_texts("Cannot prepare TailDrive file for sharing: ", error),
        RemotePreparePurpose::ImportArchive { .. } => concat_texts("Cannot prepare TailDrive file for archive: ", error),
        RemotePreparePurpose::Open => concat_texts("Cannot prepare TailDrive file: ", error),
    }
}

/// The status line after opening `display_name`, as `how` says it was
/// fetched (`"from cache"` or `"TailDrive file"`), with the outcome of
/// handing it to the system: an app bundle is being prepared, a package
/// opens its installer.
pub open spec fn open_status_of(display_name: Seq<char>, how: Seq<char>, outcome: Result<(), String>) -> Seq<char> {
    match outcome {
        Ok(_) => if is_aab_spec(display_name) {
            "Preparing installer: "@ + display_name
        } else if is_android_install_spec(display_name) {
            "Installer opened: "@ + display_name
        } else {
            "Opened "@ + how + ": "@ + display_name
        },
        Err(e) => "Cannot open TailDrive file: "@ + e@,
    }
}

/// Writes the status line after opening a fetched file (see
/// `open_status_of`).
pub fn open_status(display_name: &str, how: &str, outcome: Result<(), String>) -> (r: String)
    ensures
        r@ == open_status_of(display_name@, how@, outcome),
{
    match outcome {
        Ok(()) => if is_aab_name(display_name) {
            concat_texts("Preparing installer: ", display_name)
        } else if is_android_install_name(display_name) {
            concat_texts("Installer opened: ", display_name)
        } else {
            let a = concat3("Opened ", how, ": ");
            concat_texts(a.as_str(), display_name)
        },
        Err(e) => concat_texts("Cannot open TailDrive file: ", e.as_str()),
    }
}

/// The status line after sharing a fetched file: from the cache, or just
/// downloaded.
pub open spec fn share_status_of(display_name: Seq<char>, from_cache: bool, outcome: Result<(), String>) -> Seq<char> {
    match outcome {
        Ok(_) => if from_cache {
            "Sharing from cache: "@ + display_name
        } else {
            "Sharing TailDrive file: "@ + display_name
        },
        Err(e) => "Cannot share TailDrive file: "@ + e@,
    }
}

/// Writes the status line after sharing a fetched file (see
/// `share_status_of`).
pub fn share_status(display_name: &str, from_cache: bool, outcome: Result<(), String>) -> (r: String)
    ensures
        r@ == share_status_of(display_name@, from_cache, outcome),
{
    match outcome {
        Ok(()) => if from_cache {
            concat_texts("Sharing from cache: ", display_name)
        } else {
            concat_texts("Sharing TailDrive file: ", display_name)
        },
        Err(e) => concat_texts("Cannot share TailDrive file: ", e.as_str()),
    }
}

/// The status line after handing a cached file named `name` to the
/// archive worker: none there (`None`), gone (`Some(false)`), or taking it
/// (`Some(true)`).
pub open spec fn archive_handoff_status_of(name: Seq<char>, sent: Option<bool>) -> Seq<char> {
    match sent {
        None => "Archive worker is not ready"@,
        Some(false) => "Archive worker stopped"@,
        Some(true) => "Adding "@ + name + " to archive…"@,
    }
}

/// Writes the status line after handing a cached file to the archive
/// worker (see `archive_handoff_status_of`).
pub fn archive_handoff_status(name: &str, sent: Option<bool>) -> (r: String)
    ensures
        r@ == archive_handoff_status_of(name@, sent),
{
    match sent {
        None => "Archive worker is not ready".to_owned(),
        Some(false) => "Archive worker stopped".to_owned(),
        Some(true) => concat3("Adding ", name, " to archive…"),
    }
}

/// The status line after a downloaded file named `name` was handed to the
/// archive worker, or why it could not be.
pub open spec fn archive_import_status_of(name: Seq<char>, outcome: Result<(), String>) -> Seq<char> {
    match outcome {
        Ok(_) => "Adding "@ + name + " to archive…"@,
        Err(e) => "Cannot add TailDrive file to archive: "@ + e@,
    }
}

/// Writes the status line after a downloaded file was handed to the
/// archive worker (see `archive_import_status_of`).
pub fn archive_import_status(name: &str, outcome: Result<(), String>) -> (r: String)
    ensures
        r@ == archive_import_status_of(name@, outcome),
{
    match outcome {
        Ok(()) => concat3("Adding ", name, " to archive…"),
        Err(e) => concat_texts("Cannot add TailDrive file to archive: ", e.as_str()),
    }
}

/// The status line after a TailDrive download of `display_name` failed:
/// one fetched to be used (`open_after`) names the use, a plain copy says
/// it could not be copied.
pub open spec fn download_failure_status_of(
    display_name: Seq<char>,
    open_after: bool,
    purpose: RemotePreparePurpose,
    error: Seq<char>,
) -> Seq<char> {
    if open_after {
        match purpose {
            RemotePreparePurpose::Share => "Cannot prepare TailDrive file "@ + display_name + " for sharing: "@ + error,
            RemotePreparePurpose::ImportArchive { .. } => "Cannot prepare TailDrive file "@ + display_name
                + " for archive: "@ + error,
            RemotePreparePurpose::Open => "Cannot open TailDrive file "@ + display_name + ": "@ + error,
        }
    } else {
        "Cannot copy TailDrive item "@ + display_name + ": "@ + error
    }
}

/// Writes the status line after a TailDrive download failed (see
/// `download_failure_status_of`).
pub fn download_failure_status(
    display_name: &str,
    open_after: bool,
    purpose: &RemotePreparePurpose,
    error: &str,
) -> (r: String)
    ensures
        r@ == download_failure_status_of(display_name@, open_after, *purpose, error@),
{
    let head = if open_after {
        match purpose {
            RemotePreparePurpose::Share => concat3("Cannot prepare TailDrive file ", display_name, " for sharing: "),
            RemotePreparePurpose::ImportArchive { .. } => concat3(
                "Cannot prepare TailDrive file ",
                display_name,
                " for archive: ",
            ),
            RemotePreparePurpose::Open => concat3("Cannot open TailDrive file ", display_name, ": "),
        }
    } else {
        concat3("Cannot copy TailDrive item ", display_name, ": ")
    };
    concat_texts(head.as_str(), error)
}

/// The status line after `display_name` was copied out of TailDrive; a
/// cut keeps the remote source.
pub open spec fn copied_from_taildrive_status_of(display_name: Seq<char>, source_was_cut: bool) -> Seq<char> {
    if source_was_cut {
        "Copied from TailDrive: "@ + display_name + ". Remote source kept for safety."@
    } else {
        "Copied from TailDrive: "@ + display_name
    }
}

/// Writes the status line after a copy out of TailDrive (see
/// `copied_from_taildrive_status_of`).
pub fn copied_from_taildrive_status(display_name: &str, source_was_cut: bool) -> (r: String)
    ensures
        r@ == copied_from_taildrive_status_of(display_name@, source_was_cut),
{
    if source_was_cut {
        concat3("Copied from TailDrive: ", display_name, ". Remote source kept for safety.")
    } else {
        concat_texts("Copied from TailDrive: ", display_name)
    }
}

} // verus!
