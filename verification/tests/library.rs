use fast_explorer::address::{resolve_taildrive_address, DeviceAliases, ProfileAliases};
use fast_explorer::archive::{
    child_location, delete_member_plan, display_path as archive_display_path, import_member_name,
    new_directory_member, parent_path, parse_display_path, rename_target, renamed_members,
    replace_member_plan, title as archive_title, unique_sibling, virtual_path, zip_datetime_sort_key,
    ArchiveLocation,
};
use fast_explorer::archive_list::{list_archive_members, ArchiveMember};
use fast_explorer::cache::{
    plan_cache_cleanup, remote_cache_acquire_decision, remote_cache_filename, remote_cache_index_path,
    AcquireDecision, CacheEntry, FileFacts,
};
use fast_explorer::cli::{AppearanceMode, CliOptions, SearchMode, ThemeColor};
use fast_explorer::commands::RemoteCacheSettings;
use fast_explorer::entries::{
    display_path, format_size, remote_modified_sort_key, system_time_sort_key, EntryKind,
    FileCategory, FileEntry, SortDirection,
};
use fast_explorer::names::{
    keyboard_rename_suffix_for, single_line_input, taildrive_device_name_with_suffix,
};
use fast_explorer::commands::RemotePreparePurpose;
use fast_explorer::prepare_status::{
    archive_handoff_status, archive_import_status, copied_from_taildrive_status, download_failure_status,
    download_phase, download_start_status, open_status, prepare_failure_status, share_status,
};
use fast_explorer::remote_list::{
    device_entries, devices_status, missing_device_status, parse_u64_text, ping_status_text, remote_loading_status,
    share_entries, shares_status, status_reload_location, taildrive_list_entries, tailnet_entries, tailnets_status,
    PingReply, ProfileFlags, TaildriveItem,
};
use fast_explorer::strip::TabStrip;
use fast_explorer::tabs::{EntryActivation, SavedTab, TabGroupColor, TabGroupState, TabState};
use fast_explorer::commands::{
    system_back_action, BackAction, BackState, CacheEvent, CacheUsage, LocalFileCommand, LocalFileEvent,
};
use fast_explorer::cache::stray_cache_files;
use fast_explorer::remote_list::{cache_record, cached_list_entries, disconnect_status, listing_is_current, sign_out_status};
use fast_explorer::tailnets::{assign_device_path_names, assign_tailnet_paths, profile_transitions};
use fast_explorer::tabs::clipboard_after_local_event;
use fast_explorer::unique_names::{unique_entry_copy_name, unique_entry_name};
use fast_explorer::taildrive::taildrive_parse_would_panic;
use fast_explorer::entries::SortField;
use fast_explorer::taildrive::{parse_taildrive_path, taildrive_path, TaildriveLocation};
use fast_explorer::transfer::{
    initial_phase, local_staging_path, taildrive_control_ids, LocalControl, TaildriveProgress,
    TransferJob, TransferRegistry, TRANSFER_HISTORY_LIMIT,
};

fn reference_format_size(bytes: u64) -> String {
    let units = ["B", "KB", "MB", "GB", "TB"];
    let mut value = bytes as f64;
    let mut unit = 0;
    while value >= 1024.0 && unit < units.len() - 1 {
        value /= 1024.0;
        unit += 1;
    }
    if unit == 0 {
        format!("{bytes} B")
    } else {
        format!("{value:.1} {}", units[unit])
    }
}

#[test]
fn format_size_gives_the_same_text_as_floating_point() {
    let mut samples: Vec<u64> = vec![
        0,
        1,
        1023,
        1024,
        1025,
        1075,
        1076,
        1280,
        1331,
        1536,
        1_048_575,
        1_048_576,
        1_310_720,
        5 * 1024 * 1024,
        1 << 30,
        (1 << 40) - 1,
        1 << 40,
        (1 << 50) + 12345,
        u64::MAX,
    ];
    let mut x: u64 = 0x9e37_79b9_7f4a_7c15;
    for _ in 0..20_000 {
        x = x.wrapping_mul(6364136223846793005).wrapping_add(1442695040888963407);
        samples.push(x >> (x % 64));
    }
    for bytes in samples {
        assert_eq!(format_size(bytes), reference_format_size(bytes), "bytes = {bytes}");
    }
}

#[test]
fn format_size_examples() {
    assert_eq!(format_size(0), "0 B");
    assert_eq!(format_size(1023), "1023 B");
    assert_eq!(format_size(1024), "1.0 KB");
    assert_eq!(format_size(1280), "1.2 KB");
    assert_eq!(format_size(1536), "1.5 KB");
    assert_eq!(format_size(5 * 1024 * 1024), "5.0 MB");
    assert_eq!(format_size(u64::MAX), "16777216.0 TB");
}

fn file(name: &str, kind: EntryKind, size: u64) -> FileEntry {
    FileEntry {
        path: format!("/data/{name}"),
        name: name.to_owned(),
        kind,
        size,
        modified_sort_key: 0,
        remote: None,
        remote_modified: None,
    }
}

#[test]
fn entry_labels_follow_kind_and_extension() {
    assert_eq!(file("notes.TXT", EntryKind::File, 10).category(), FileCategory::Text);
    assert_eq!(file("clip.mkv", EntryKind::File, 10).category(), FileCategory::Video);
    assert_eq!(file("song.flac", EntryKind::File, 10).category(), FileCategory::Audio);
    assert_eq!(file("pack.zst", EntryKind::File, 10).category(), FileCategory::Archive);
    assert_eq!(file("deck.pptx", EntryKind::File, 10).category(), FileCategory::Presentation);
    assert_eq!(file("README", EntryKind::File, 10).category(), FileCategory::Generic);
    assert_eq!(file("photos", EntryKind::Directory, 0).category(), FileCategory::Folder);
    assert_eq!(file("link", EntryKind::Symlink, 0).category(), FileCategory::Symlink);
    assert_eq!(file("photos", EntryKind::Directory, 0).kind_label(), "File folder");
    assert_eq!(file("main.rs", EntryKind::File, 10).kind_label(), "Source file");
    assert_eq!(file("photos", EntryKind::Directory, 4096).size_label(), "");
    assert_eq!(file("big.bin", EntryKind::File, 2048).size_label(), "2.0 KB");
    let mut device = file("desktop", EntryKind::Directory, 0);
    device.remote = Some(TaildriveLocation::Device {
        profile_id: "work".to_owned(),
        device_id: "pc".to_owned(),
    });
    assert_eq!(device.category(), FileCategory::Network);
    assert_eq!(SortDirection::Ascending.symbol(), "↑");
    assert_eq!(SortDirection::Descending.symbol(), "↓");
}

#[test]
fn tab_group_colors_have_labels_and_palette_slots() {
    assert_eq!(TabGroupColor::default(), TabGroupColor::Blue);
    for index in 0..8 {
        let color = TabGroupColor::at_palette_index(index);
        assert_eq!(color.palette_index(), index);
    }
    assert_eq!(TabGroupColor::at_palette_index(7).label(), "Orange");
    assert_eq!(TabGroupColor::Cyan.label(), "Cyan");
}

#[test]
fn history_goes_back_and_forward() {
    let mut tab = TabState::from_path(1, "/home/ada".to_owned());
    assert!(tab.navigate_to("/home/ada/docs".to_owned(), true));
    assert!(tab.navigate_to("/home/ada/docs/old".to_owned(), true));
    assert!(tab.can_go_back());
    assert!(!tab.can_go_forward());
    assert!(tab.go_back());
    assert_eq!(tab.current_dir, "/home/ada/docs");
    assert!(tab.can_go_forward());
    assert!(tab.go_forward());
    assert_eq!(tab.current_dir, "/home/ada/docs/old");
    assert!(!tab.can_go_forward());
    // opening the same folder again only asks for a new listing
    assert!(tab.navigate_to("/home/ada/docs/old".to_owned(), true));
    assert!(tab.go_back());
    assert_eq!(tab.current_dir, "/home/ada/docs");
    // opening a new folder drops the forward history
    assert!(tab.navigate_to("/tmp".to_owned(), true));
    assert!(!tab.can_go_forward());
}

#[test]
fn navigation_refuses_a_file() {
    let mut tab = TabState::from_path(1, "/home/ada".to_owned());
    assert!(!tab.navigate_to("/home/ada/notes.txt".to_owned(), false));
    assert_eq!(tab.current_dir, "/home/ada");
    assert_eq!(tab.status, "Not a directory: /home/ada/notes.txt");
    assert_eq!(tab.address_input, "/home/ada");
    assert!(!tab.can_go_back());
}

#[test]
fn scroll_key_changes_with_the_folder() {
    let mut tab = TabState::from_path(1, "/".to_owned());
    let before = tab.scroll_reset_key();
    tab.set_current_dir("/usr".to_owned());
    assert_ne!(tab.scroll_reset_key(), before);
}

#[test]
fn typed_addresses_resolve_against_home_and_current_folder() {
    let tab = TabState::from_path(1, "/srv/data".to_owned());
    assert_eq!(tab.address_target("~", Some("/home/ada")), "/home/ada");
    assert_eq!(tab.address_target("  ~/docs ", Some("/home/ada")), "/home/ada/docs");
    assert_eq!(tab.address_target("~\\docs", Some("/home/ada")), "/home/ada/docs");
    assert_eq!(tab.address_target("~", None), "/srv/data");
    assert_eq!(tab.address_target("~/docs", None), "/srv/data/~/docs");
    assert_eq!(tab.address_target("logs", None), "/srv/data/logs");
    assert_eq!(tab.address_target("/etc", Some("/home/ada")), "/etc");

    let mut tab = TabState::from_path(1, "/srv/data".to_owned());
    assert!(tab.submit_address("logs".to_owned(), None, true));
    assert_eq!(tab.current_dir, "/srv/data/logs");
    assert!(tab.can_go_back());
}

#[test]
fn tilde_slash_address_opens_under_home() {
    let mut tab = TabState::from_path(1, "/".to_owned());
    assert!(tab.submit_address("~/".to_owned(), Some("/home/ada"), true));
    assert_eq!(tab.current_dir, "/home/ada/");
}

#[test]
fn clicks_select_then_a_quick_second_click_opens() {
    let mut tab = TabState::from_path(1, "/data".to_owned());
    tab.entries = vec![file("docs", EntryKind::Directory, 0), file("a.txt", EntryKind::File, 3)];
    assert_eq!(tab.click_entry("/data/a.txt".to_owned(), 1_000, false), EntryActivation::Selected);
    assert_eq!(tab.selected_path.as_deref(), Some("/data/a.txt"));
    assert_eq!(tab.status, "Selected: a.txt");
    // too slow for a double click
    assert_eq!(tab.click_entry("/data/a.txt".to_owned(), 1_600, false), EntryActivation::Selected);
    assert_eq!(tab.click_entry("/data/a.txt".to_owned(), 1_900, false), EntryActivation::OpenWithSystem);
    tab.finish_open("/data/a.txt", Ok(()));
    assert_eq!(tab.status, "Opened: a.txt");
    tab.finish_open("/data/a.txt", Err("no handler".to_owned()));
    assert_eq!(tab.status, "Cannot open a.txt: no handler");
    // a click on another entry in between starts over
    assert_eq!(tab.click_entry("/data/docs".to_owned(), 2_000, true), EntryActivation::Selected);
    assert_eq!(tab.click_entry("/data/a.txt".to_owned(), 2_100, false), EntryActivation::Selected);
    assert_eq!(tab.click_entry("/data/docs".to_owned(), 2_200, true), EntryActivation::Selected);
    assert_eq!(tab.click_entry("/data/docs".to_owned(), 2_300, true), EntryActivation::ReadListing);
    assert_eq!(tab.current_dir, "/data/docs");
}

#[test]
fn restored_location_falls_back_with_a_warning() {
    let mut tab = TabState::from_path(1, "/gone".to_owned());
    let fallback = tab.fallback_restored_location("/gone", "not found", "/home/ada".to_owned());
    assert_eq!(fallback, "/home/ada");
    assert_eq!(tab.current_dir, "/home/ada");
    assert_eq!(tab.address_input, "/home/ada");
}

fn strip_of(count: u64) -> TabStrip {
    let mut strip = TabStrip::new(TabState::from_path(1, "/t1".to_owned()));
    for id in 2..=count {
        strip.new_tab(TabState::from_path(id, format!("/t{id}")));
    }
    strip
}

fn ids(strip: &TabStrip) -> Vec<u64> {
    strip.tabs().iter().map(|tab| tab.id()).collect()
}

fn groups_of(strip: &TabStrip) -> Vec<Option<u64>> {
    strip.tabs().iter().map(|tab| tab.group_id()).collect()
}

#[test]
fn new_tabs_are_appended_and_activated() {
    let strip = strip_of(3);
    assert_eq!(ids(&strip), vec![1, 2, 3]);
    assert_eq!(strip.active_index(), 2);
    assert!(strip.groups().is_empty());
}

#[test]
fn group_membership_stays_contiguous_and_empty_groups_go() {
    let mut strip = strip_of(4);
    assert!(strip.create_tab_group_for_tab(1, 100));
    strip.assign_tab_to_group(2, 100);
    strip.assign_tab_to_group(3, 100);
    assert_eq!(groups_of(&strip), vec![Some(100), Some(100), Some(100), None]);
    strip.remove_tab_from_group(2);
    assert_eq!(ids(&strip), vec![1, 3, 2, 4]);
    assert_eq!(groups_of(&strip), vec![Some(100), Some(100), None, None]);
    strip.remove_tab_from_group(1);
    strip.remove_tab_from_group(3);
    assert!(strip.groups().is_empty());
    assert!(groups_of(&strip).iter().all(|g| g.is_none()));
    // the active tab stayed the same tab
    assert_eq!(strip.tabs()[strip.active_index()].id(), 4);
}

#[test]
fn closing_a_group_that_holds_every_tab_asks_to_exit() {
    let mut strip = strip_of(2);
    assert!(strip.create_tab_group_for_tab(1, 7));
    strip.assign_tab_to_group(2, 7);
    assert!(strip.close_tab_group(7));
    assert_eq!(ids(&strip), vec![1, 2]);
    assert_eq!(groups_of(&strip), vec![Some(7), Some(7)]);
}

#[test]
fn closing_a_group_removes_its_tabs_and_keeps_the_active_tab() {
    let mut strip = strip_of(4);
    assert!(strip.create_tab_group_for_tab(2, 9));
    strip.assign_tab_to_group(3, 9);
    assert!(strip.select_tab(3));
    assert!(!strip.close_tab_group(9));
    assert_eq!(ids(&strip), vec![1, 4]);
    assert!(strip.groups().is_empty());
    assert_eq!(strip.tabs()[strip.active_index()].id(), 4);
    // a group without tabs changes nothing
    assert!(!strip.close_tab_group(42));
    assert_eq!(ids(&strip), vec![1, 4]);
}

#[test]
fn closing_the_group_of_the_active_tab_activates_a_neighbour() {
    let mut strip = strip_of(3);
    assert!(strip.create_tab_group_for_tab(3, 5));
    assert!(strip.select_tab(2));
    assert!(!strip.close_tab_group(5));
    assert_eq!(ids(&strip), vec![1, 2]);
    assert_eq!(strip.active_index(), 1);
}

#[test]
fn moving_a_group_keeps_both_groups_whole_and_in_order() {
    let mut strip = strip_of(5);
    assert!(strip.create_tab_group_for_tab(2, 10));
    strip.assign_tab_to_group(3, 10);
    assert!(strip.create_tab_group_for_tab(4, 20));
    strip.assign_tab_to_group(5, 20);
    assert_eq!(ids(&strip), vec![1, 2, 3, 4, 5]);
    assert!(strip.move_tab_group_near(10, 4, true));
    assert_eq!(ids(&strip), vec![1, 4, 5, 2, 3]);
    assert_eq!(groups_of(&strip), vec![None, Some(20), Some(20), Some(10), Some(10)]);
    assert!(strip.move_tab_group_near(20, 1, false));
    assert_eq!(ids(&strip), vec![4, 5, 1, 2, 3]);
    // a target inside the group itself is refused
    assert!(!strip.move_tab_group_near(20, 5, true));
    assert_eq!(ids(&strip), vec![4, 5, 1, 2, 3]);
}

#[test]
fn dragging_one_tab_onto_another_makes_a_pair_group() {
    let mut strip = strip_of(4);
    assert!(strip.create_tab_group_from_drag(1, 3, 50));
    assert_eq!(ids(&strip), vec![2, 1, 3, 4]);
    assert_eq!(groups_of(&strip), vec![None, Some(50), Some(50), None]);
    assert_eq!(strip.groups().len(), 1);
    // grouped tabs cannot be dragged into a new group
    assert!(!strip.create_tab_group_from_drag(4, 3, 51));
    assert!(!strip.create_tab_group_from_drag(4, 4, 51));
    assert_eq!(strip.groups().len(), 1);
    let mut strip = strip_of(3);
    assert!(strip.create_tab_group_from_drag(3, 1, 60));
    assert_eq!(ids(&strip), vec![1, 3, 2]);
}

#[test]
fn new_groups_prefer_unused_colors() {
    let mut strip = strip_of(8);
    let mut colors = Vec::new();
    for id in 1..=8u64 {
        assert!(strip.create_tab_group_for_tab(id, 100 + id));
        let group = strip.groups().iter().find(|group| group.id() == 100 + id).unwrap();
        assert!(!colors.contains(&group.color()));
        colors.push(group.color());
    }
    assert_eq!(colors.len(), 8);
}

#[test]
fn group_settings_change_only_that_group() {
    let mut strip = strip_of(2);
    assert!(strip.create_tab_group_for_tab(1, 3));
    let long = "x".repeat(60);
    strip.set_tab_group_name(3, long);
    strip.set_tab_group_color(3, TabGroupColor::Green);
    assert!(strip.toggle_tab_group_collapsed(3));
    assert!(!strip.toggle_tab_group_collapsed(4));
    let group = &strip.groups()[0];
    assert_eq!(group.name().chars().count(), 48);
    assert_eq!(group.color(), TabGroupColor::Green);
    assert!(group.collapsed());
}

#[test]
fn new_tab_in_group_joins_its_end() {
    let mut strip = strip_of(3);
    assert!(strip.create_tab_group_for_tab(1, 8));
    strip.new_tab_in_group(8, TabState::from_path(9, "/t9".to_owned()));
    assert_eq!(ids(&strip), vec![1, 9, 2, 3]);
    assert_eq!(strip.active_index(), 1);
    strip.ungroup_tab_group(8);
    assert!(strip.groups().is_empty());
    assert!(groups_of(&strip).iter().all(|g| g.is_none()));
}

#[test]
fn closing_tabs_requests_exit_only_for_the_last() {
    let mut strip = strip_of(2);
    assert!(!strip.close_tab(0));
    assert_eq!(ids(&strip), vec![2]);
    assert!(strip.close_tab(0));
    assert_eq!(ids(&strip), vec![2]);
}

fn progress(phase: &str, done: u64, total: u64) -> TaildriveProgress {
    TaildriveProgress {
        phase: phase.to_owned(),
        paused: false,
        cancelled: false,
        bytes_done: done,
        bytes_total: total,
        items_done: 0,
        items_total: 1,
    }
}

#[test]
fn transfer_registry_tracks_progress_and_completion() {
    let mut registry = TransferRegistry::new();
    assert!(!registry.has_active_transfers());
    let job = TransferJob::TaildriveUpload;
    let phase = initial_phase(&job);
    assert_eq!(phase, "Uploading");
    registry.register_transfer("t1".to_owned(), "a.bin".to_owned(), phase, vec![], job);
    assert!(registry.has_active_transfers());
    registry.update_taildrive_progress("t1", progress("Sending", 5, 10));
    let snap = &registry.snapshots()[0];
    assert_eq!(snap.phase, "Sending");
    assert_eq!((snap.bytes_done, snap.bytes_total), (5, 10));
    registry.finish_transfer("t1", None);
    let snap = &registry.snapshots()[0];
    assert!(snap.done);
    assert_eq!(snap.phase, "Completed");
    assert_eq!(snap.bytes_done, 10);
    assert_eq!(snap.items_done, 1);
    assert!(!registry.has_active_transfers());
    assert_eq!(registry.retry("t1").unwrap_err(), "only failed or cancelled transfers can be retried");
}

#[test]
fn app_install_download_keeps_its_phase() {
    let job = TransferJob::TaildriveDownload { display_name: "sample.apk".to_owned(), open_after: true };
    let phase = initial_phase(&job);
    assert_eq!(phase, "Preparing app install");
    let mut registry = TransferRegistry::new();
    registry.register_transfer("apk".to_owned(), "sample.apk".to_owned(), phase, vec![], job);
    registry.update_taildrive_progress("apk", progress("Downloading", 50, 100));
    let snap = &registry.snapshots()[0];
    assert_eq!(snap.phase, "Preparing app install");
    assert_eq!(snap.bytes_done, 50);
}

#[test]
fn failed_transfers_can_be_retried_from_the_start() {
    let mut registry = TransferRegistry::new();
    let job = TransferJob::LocalCopyMove { cut: true };
    registry.register_transfer("m".to_owned(), "dir".to_owned(), initial_phase(&job), vec![], job);
    registry.update_local_progress("m", 3, 9, 1, 3);
    registry.finish_transfer("m", Some("disk full".to_owned()));
    let snap = &registry.snapshots()[0];
    assert_eq!(snap.phase, "Failed");
    assert_eq!(snap.error.as_deref(), Some("disk full"));
    let job = registry.retry("m").expect("retry");
    assert!(matches!(job, TransferJob::LocalCopyMove { cut: true }));
    let snap = &registry.snapshots()[0];
    assert_eq!(snap.phase, "Moving");
    assert_eq!((snap.bytes_done, snap.bytes_total, snap.items_done), (0, 0, 0));
    assert!(!snap.done);
    assert!(snap.error.is_none());
    assert_eq!(registry.retry("m").unwrap_err(), "transfer cannot be retried");
}

#[test]
fn pause_resume_and_cancel_follow_the_worker() {
    let mut registry = TransferRegistry::new();
    let job = TransferJob::TaildriveRelay;
    registry.register_transfer("r".to_owned(), "x".to_owned(), initial_phase(&job), vec![], job);
    assert_eq!(registry.prepare_pause("r"), Ok(true));
    assert_eq!(registry.pause("r", false).unwrap_err(), "cannot pause transfer right now");
    assert!(registry.pause("r", true).is_ok());
    assert_eq!(registry.snapshots()[0].phase, "Paused");
    assert!(registry.snapshots()[0].paused);
    assert_eq!(registry.prepare_resume("r"), Ok(true));
    assert!(registry.resume("r", true).is_ok());
    assert_eq!(registry.snapshots()[0].phase, "Copying");
    assert_eq!(registry.cancel("r"), Ok(true));
    assert_eq!(registry.snapshots()[0].phase, "Cancelling");
    assert_eq!(registry.cancel("r"), Ok(false));
    assert_eq!(
        registry.prepare_pause("r").unwrap_err(),
        "transfer is finishing and cannot be paused safely"
    );
    registry.finish_transfer("r", Some("boom".to_owned()));
    let snap = &registry.snapshots()[0];
    assert!(snap.cancelled);
    assert_eq!(snap.phase, "Cancelled");
    assert!(snap.error.is_none());
    assert_eq!(registry.cancel("r").unwrap_err(), "transfer is not active");
    assert!(registry.retry("r").is_ok());
}

#[test]
fn finishing_transfers_cannot_be_paused_or_cancelled() {
    let mut registry = TransferRegistry::new();
    let job = TransferJob::LocalCopyMove { cut: false };
    registry.register_transfer("c".to_owned(), "x".to_owned(), initial_phase(&job), vec![], job);
    assert_eq!(registry.local_control("c"), LocalControl::Proceed);
    registry.set_transfer_phase("c", "Finishing");
    assert_eq!(registry.prepare_pause("c").unwrap_err(), "transfer is finishing and cannot be paused safely");
    assert_eq!(registry.cancel("c").unwrap_err(), "transfer is already being committed");
    assert_eq!(registry.prepare_pause("missing").unwrap_err(), "transfer is not active");
}

#[test]
fn a_cancelled_local_transfer_tells_its_worker_to_stop() {
    let mut registry = TransferRegistry::new();
    let job = TransferJob::LocalOther;
    registry.register_transfer("l".to_owned(), "x".to_owned(), initial_phase(&job), vec![], job);
    assert_eq!(registry.cancel("l"), Ok(false));
    assert!(matches!(registry.local_control("l"), LocalControl::Stop(_)));
    registry.finish_transfer("l", Some("Transfer Cancelled".to_owned()));
    assert!(registry.snapshots()[0].cancelled);
}

#[test]
fn transfer_history_keeps_at_most_the_limit_of_finished_entries() {
    let mut registry = TransferRegistry::new();
    for n in 0..(TRANSFER_HISTORY_LIMIT + 5) {
        let id = format!("t{n}");
        registry.register_transfer(id.clone(), id.clone(), "Copying".to_owned(), vec![], TransferJob::LocalOther);
        registry.finish_transfer(&id, None);
    }
    let snaps = registry.snapshots();
    assert_eq!(snaps.len(), TRANSFER_HISTORY_LIMIT);
    assert_eq!(snaps.last().unwrap().transfer_id, format!("t{}", TRANSFER_HISTORY_LIMIT + 4));
    assert!(snaps.iter().all(|snap| snap.transfer_id != "t0"));
}

#[test]
fn running_transfers_protect_their_cache_files() {
    let mut registry = TransferRegistry::new();
    registry.register_transfer(
        "d".to_owned(),
        "x".to_owned(),
        "Downloading".to_owned(),
        vec!["123-4.pdf".to_owned()],
        TransferJob::TaildriveOther,
    );
    assert_eq!(registry.protected_cache_files(), vec!["123-4.pdf".to_owned()]);
    registry.finish_transfer("d", None);
    assert!(registry.protected_cache_files().is_empty());
}

#[test]
fn transfer_helpers_name_ids_and_staging_files() {
    assert_eq!(
        taildrive_control_ids(&TransferJob::TaildriveRelay, "job"),
        vec!["job-download".to_owned(), "job-upload".to_owned()]
    );
    assert_eq!(taildrive_control_ids(&TransferJob::TaildriveUpload, "job"), vec!["job".to_owned()]);
    assert_eq!(local_staging_path("/data/out/file.txt", "7"), "/data/out/.fastexplorer-transfer-7");
    assert_eq!(local_staging_path("file.txt", "7"), ".fastexplorer-transfer-7");
}

fn cache_entry(file_name: &str, accessed: u64) -> CacheEntry {
    CacheEntry {
        key: file_name.to_owned(),
        file_name: file_name.to_owned(),
        display_name: file_name.to_owned(),
        remote_size: 700 * 1024,
        remote_modified: "v1".to_owned(),
        cached_unix_ms: accessed,
        last_accessed_unix_ms: accessed,
    }
}

#[test]
fn cache_limit_evicts_the_least_recently_used_file() {
    let now = 10_000_000;
    let entries = vec![cache_entry("old.bin", now - 2_000), cache_entry("new.bin", now - 1_000)];
    let facts = vec![FileFacts { is_file: true, size: Some(700 * 1024) }; 2];
    let settings = RemoteCacheSettings { limit_mib: 1, expiration_hours: 720 };
    let plan = plan_cache_cleanup(&entries, &facts, now, settings, &vec![]);
    assert_eq!(plan.keep, vec![false, true]);
    assert_eq!(plan.delete_file, vec![true, false]);
    assert_eq!(plan.usage, 700 * 1024);
}

#[test]
fn protected_cache_file_survives_expiry_and_eviction() {
    let now = 100 * 3_600_000;
    let entries = vec![cache_entry("busy.bin", 0), cache_entry("idle.bin", 0), cache_entry("fresh.bin", now)];
    let facts = vec![
        FileFacts { is_file: true, size: Some(900 * 1024) },
        FileFacts { is_file: true, size: Some(10) },
        FileFacts { is_file: true, size: Some(900 * 1024) },
    ];
    let settings = RemoteCacheSettings { limit_mib: 1, expiration_hours: 1 };
    let plan = plan_cache_cleanup(&entries, &facts, now, settings, &vec!["busy.bin".to_owned()]);
    // idle.bin expired; busy.bin is protected; the walk passes over busy.bin
    // and evicts fresh.bin, the only other survivor
    assert_eq!(plan.keep, vec![true, false, false]);
    assert_eq!(plan.delete_file, vec![false, true, true]);
    assert_eq!(plan.usage, 900 * 1024);
}

#[test]
fn cache_cleanup_drops_entries_whose_file_is_gone() {
    let entries = vec![cache_entry("gone.bin", 5)];
    let facts = vec![FileFacts { is_file: false, size: None }];
    let settings = RemoteCacheSettings { limit_mib: 0, expiration_hours: 0 };
    let plan = plan_cache_cleanup(&entries, &facts, 10, settings, &vec![]);
    assert_eq!(plan.keep, vec![false]);
    assert_eq!(plan.delete_file, vec![false]);
    assert_eq!(plan.usage, 0);
}

#[test]
fn cache_lookups_hit_only_the_same_remote_version() {
    let settings = RemoteCacheSettings { limit_mib: 0, expiration_hours: 720 };
    let mut entry = cache_entry("cached.pdf", 1_000);
    entry.remote_size = 3;
    assert_eq!(remote_cache_acquire_decision(Some(&entry), true, 3, "v1", 2_000, settings), AcquireDecision::Hit);
    assert_eq!(remote_cache_acquire_decision(Some(&entry), true, 3, "v2", 2_000, settings), AcquireDecision::Drop);
    assert_eq!(remote_cache_acquire_decision(Some(&entry), true, 4, "v1", 2_000, settings), AcquireDecision::Drop);
    assert_eq!(remote_cache_acquire_decision(Some(&entry), false, 3, "v1", 2_000, settings), AcquireDecision::Drop);
    assert_eq!(remote_cache_acquire_decision(Some(&entry), true, 3, "", 2_000, settings), AcquireDecision::Miss);
    assert_eq!(remote_cache_acquire_decision(None, true, 3, "v1", 2_000, settings), AcquireDecision::Miss);
    let expired_at = 1_000 + 720 * 3_600_000 + 1;
    assert_eq!(
        remote_cache_acquire_decision(Some(&entry), true, 3, "v1", expired_at, settings),
        AcquireDecision::Drop
    );
    entry.remote_modified = String::new();
    assert_eq!(remote_cache_acquire_decision(Some(&entry), true, 3, "v1", 2_000, settings), AcquireDecision::Drop);
}

#[test]
fn cache_file_names_keep_plain_extensions() {
    assert_eq!(remote_cache_filename("report.pdf", 42, 1234), "42-1234.pdf");
    assert_eq!(remote_cache_filename("archive.tar.gz", 1, 2), "1-2.gz");
    assert_eq!(remote_cache_filename("notes", 1, 2), "1-2");
    assert_eq!(remote_cache_filename("weird.ex-t", 1, 2), "1-2");
    assert_eq!(remote_cache_index_path("/cache"), "/cache/index.json");
    assert_eq!(remote_cache_index_path("/cache/"), "/cache/index.json");
}

fn args(list: &[&str]) -> Vec<String> {
    list.iter().map(|arg| (*arg).to_owned()).collect()
}

#[test]
fn command_line_options_parse() {
    let options = CliOptions::parse_args(&args(&[
        "--appearance=dark",
        "--color",
        "teal",
        "--intensity",
        "40",
        "--search-mode=everything",
        "--no-ipc",
        "/data",
    ]))
    .expect("valid options");
    assert_eq!(options.theme_overrides.appearance, Some(AppearanceMode::Dark));
    assert_eq!(options.theme_overrides.color, Some(ThemeColor::Teal));
    assert_eq!(options.theme_overrides.intensity, Some(40));
    assert_eq!(options.search_override, Some(SearchMode::Everything));
    assert!(!options.ipc_enabled);
    assert_eq!(options.startup_path.as_deref(), Some("/data"));
    assert!(!options.show_help);

    let options = CliOptions::parse_args(&args(&["-h"])).expect("help");
    assert!(options.show_help);
    assert!(options.ipc_enabled);
}

#[test]
fn command_line_errors_name_the_problem() {
    assert_eq!(
        CliOptions::parse_args(&args(&["a", "b"])).unwrap_err(),
        "multiple startup paths are not supported: b"
    );
    assert_eq!(CliOptions::parse_args(&args(&["--bogus"])).unwrap_err(), "unknown argument: --bogus");
    assert_eq!(CliOptions::parse_args(&args(&["--color"])).unwrap_err(), "missing value for --color");
    assert_eq!(
        CliOptions::parse_args(&args(&["--intensity=300"])).unwrap_err(),
        "invalid intensity: 300"
    );
    assert_eq!(
        CliOptions::parse_args(&args(&["--intensity=101"])).unwrap_err(),
        "intensity must be 0..=100, got 101"
    );
    assert_eq!(
        CliOptions::parse_args(&args(&["--appearance", "sepia"])).unwrap_err(),
        "invalid appearance: sepia"
    );
    assert!(CliOptions::HELP.starts_with("FastExplorer [path]\n"));
}

fn location(archive: &str, inner: &str) -> ArchiveLocation {
    ArchiveLocation { archive_path: archive.to_owned(), inner_path: inner.to_owned() }
}

fn names(list: &[&str]) -> Vec<String> {
    list.iter().map(|name| (*name).to_owned()).collect()
}

#[test]
fn archive_locations_show_and_parse() {
    let loc = location("/data/pack.zip", "docs\\./a.txt");
    assert_eq!(archive_display_path(&loc), "/data/pack.zip!/docs/a.txt");
    assert_eq!(parse_display_path(" /data/pack.ZIP!/docs/a.txt "), Some(location("/data/pack.ZIP", "docs/a.txt")));
    assert_eq!(parse_display_path("/data/pack.tar!/x"), None);
    assert_eq!(archive_title(&loc), "a.txt");
    assert_eq!(archive_title(&location("/data/pack.zip", "")), "pack.zip");
    assert_eq!(child_location(&location("/p.zip", "a"), "b/"), location("/p.zip", "a/b"));
    assert_eq!(parent_path(&location("/data/p.zip", "")), Some("/data".to_owned()));
    assert_eq!(parent_path(&location("/data/p.zip", "a/b")), Some(virtual_path(&location("/data/p.zip", "a"))));
    assert_eq!(zip_datetime_sort_key(2024, 3, 9, 14, 5, 7), 20240309140507);
}

#[test]
fn archive_delete_keeps_everything_outside_the_member() {
    let all = names(&["a.txt", "docs/", "docs/x.txt", "docs2/y.txt", "./docs/z.txt"]);
    assert_eq!(
        delete_member_plan(&location("/p.zip", "docs"), &all),
        Ok(vec![true, false, false, true, false])
    );
    assert_eq!(
        delete_member_plan(&location("/p.zip", "/"), &all),
        Err("cannot delete the archive root".to_owned())
    );
}

#[test]
fn archive_rename_moves_the_member_and_its_contents() {
    let (old, renamed) = rename_target(&location("/p.zip", "docs/old"), "new").expect("target");
    assert_eq!((old.as_str(), renamed.as_str()), ("docs/old", "docs/new"));
    let all = names(&["docs/old/", "docs/old/a.txt", "docs/older.txt", "x"]);
    assert_eq!(
        renamed_members(&old, &renamed, &all),
        Ok(names(&["docs/new", "docs/new/a.txt", "docs/older.txt", "x"]))
    );
    assert_eq!(
        renamed_members("gone", "b", &all),
        Err("archive member no longer exists: gone".to_owned())
    );
    assert_eq!(rename_target(&location("/p.zip", ""), "x"), Err("cannot rename the archive root".to_owned()));
    assert_eq!(rename_target(&location("/p.zip", "a"), "b/c"), Err("invalid archive member name".to_owned()));
    assert_eq!(rename_target(&location("/p.zip", "a"), ".."), Err("invalid archive member name".to_owned()));
}

#[test]
fn archive_replace_and_new_members() {
    let all = names(&["a.txt", "b.txt"]);
    assert_eq!(replace_member_plan(&location("/p.zip", "b.txt"), &all), Ok(vec![true, false]));
    assert_eq!(
        replace_member_plan(&location("/p.zip", "c.txt"), &all),
        Err("archive member no longer exists: c.txt".to_owned())
    );
    assert_eq!(new_directory_member(&location("/p.zip", "docs"), "new"), Ok("docs/new/".to_owned()));
    assert_eq!(
        new_directory_member(&location("/p.zip", ""), "."),
        Err("invalid archive directory name".to_owned())
    );
    assert_eq!(import_member_name(&location("/p.zip", "docs"), "f.txt"), Ok("docs/f.txt".to_owned()));
    assert_eq!(import_member_name(&location("/p.zip", ""), ""), Err("invalid archive member name".to_owned()));
    assert_eq!(
        unique_sibling("/data/pack.zip", "rewrite", 99, 3),
        "/data/.pack.zip.fastexplorer-rewrite-99-3"
    );
    assert_eq!(unique_sibling("pack.zip", "backup", 1, 2), ".pack.zip.fastexplorer-backup-1-2");
}

#[test]
fn small_text_helpers() {
    assert_eq!(keyboard_rename_suffix_for(EntryKind::File, "source.txt"), ".txt");
    assert_eq!(keyboard_rename_suffix_for(EntryKind::File, "Makefile"), "");
    assert_eq!(keyboard_rename_suffix_for(EntryKind::Directory, "dir.d"), "");
    assert_eq!(single_line_input("Pasted\r\nname\r\r\nhere\n".to_owned()), "Pasted name here");
    assert_eq!(taildrive_device_name_with_suffix("laptop", 2), "laptop-2");
    assert_eq!(
        taildrive_device_name_with_suffix("a-very-long-device-name-here", 12),
        "a-very-long-device-na-12"
    );
    assert_eq!(taildrive_device_name_with_suffix("--", 3), "d-3");
    assert_eq!(display_path("C:\\a\\b"), "C:/a/b");
}

#[test]
fn remote_dates_sort_by_their_time() {
    assert_eq!(remote_modified_sort_key("Sun, 06 Nov 1994 08:49:37 GMT"), 784_111_777_000);
    assert_eq!(remote_modified_sort_key("not a date"), 0);
    assert_eq!(system_time_sort_key(Some(1_500)), 1_500);
    assert_eq!(system_time_sort_key(Some(u128::MAX)), u64::MAX);
    assert_eq!(system_time_sort_key(None), 0);
}

#[test]
fn taildrive_paths_round_trip() {
    let location = TaildriveLocation::Profile { profile_id: "home".to_owned() };
    assert_eq!(parse_taildrive_path(&taildrive_path(&location)), Some(location));
    assert_eq!(parse_taildrive_path("/home/ada"), None);
}

fn member(name: &str, is_dir: bool, size: u64, modified: u64) -> ArchiveMember {
    ArchiveMember { name: name.to_owned(), is_dir, size, modified_sort_key: modified }
}

#[test]
fn archive_folders_list_their_direct_children() {
    let members = vec![
        member("readme.txt", false, 10, 5),
        member("docs/", true, 0, 1),
        member("docs\\guide.md", false, 20, 9),
        member("docs/img/logo.png", false, 30, 7),
        member(".hidden", false, 1, 1),
        member("Zeta.txt", false, 2, 3),
        member("alpha.txt", false, 4, 4),
    ];
    let root = list_archive_members(&members, "", false);
    let shown: Vec<(&str, bool, u64, u64)> = root
        .iter()
        .map(|e| (e.name.as_str(), e.directory, e.size, e.modified_sort_key))
        .collect();
    assert_eq!(
        shown,
        vec![("docs", true, 0, 9), ("alpha.txt", false, 4, 4), ("readme.txt", false, 10, 5), ("Zeta.txt", false, 2, 3)]
    );
    let with_hidden = list_archive_members(&members, "", true);
    assert_eq!(with_hidden[1].name, ".hidden");
    let docs = list_archive_members(&members, "/docs/", false);
    let shown: Vec<(&str, bool)> = docs.iter().map(|e| (e.name.as_str(), e.directory)).collect();
    assert_eq!(shown, vec![("img", true), ("guide.md", false)]);
    assert!(list_archive_members(&members, "missing", false).is_empty());
}

#[test]
fn keyboard_rename_replaces_then_types_before_the_extension() {
    let mut tab = TabState::from_path(1, "/data".to_owned());
    tab.entries = vec![file("source.txt", EntryKind::File, 4), file("docs", EntryKind::Directory, 0)];
    tab.select_entry("/data/source.txt".to_owned());
    tab.begin_rename(true);
    assert_eq!(tab.rename_input.as_deref(), Some("source.txt"));
    tab.type_rename_text("renamed".to_owned());
    assert_eq!(tab.rename_input.as_deref(), Some("renamed.txt"));
    tab.type_rename_text("2".to_owned());
    assert_eq!(tab.rename_input.as_deref(), Some("renamed2.txt"));
    tab.backspace_rename();
    tab.backspace_rename();
    assert_eq!(tab.rename_input.as_deref(), Some("rename.txt"));
    tab.type_rename_text("é".to_owned());
    assert_eq!(tab.rename_input.as_deref(), Some("renameé.txt"));
    tab.backspace_rename();
    assert_eq!(tab.rename_input.as_deref(), Some("rename.txt"));
    tab.cancel_rename();
    assert_eq!(tab.rename_input, None);
}

#[test]
fn rename_of_a_folder_edits_the_whole_name() {
    let mut tab = TabState::from_path(1, "/data".to_owned());
    tab.entries = vec![file("docs", EntryKind::Directory, 0)];
    tab.select_entry("/data/docs".to_owned());
    tab.begin_rename(false);
    assert_eq!(tab.rename_input, None);
    tab.begin_rename(true);
    tab.backspace_rename();
    assert_eq!(tab.rename_input.as_deref(), Some(""));
    tab.type_rename_text("papers".to_owned());
    tab.backspace_rename();
    assert_eq!(tab.rename_input.as_deref(), Some("paper"));
}

#[test]
fn pasted_rename_text_becomes_one_line() {
    let mut tab = TabState::from_path(1, "/data".to_owned());
    tab.set_rename_input("ignored".to_owned());
    assert_eq!(tab.rename_input, None);
    tab.entries = vec![file("a.txt", EntryKind::File, 1)];
    tab.select_entry("/data/a.txt".to_owned());
    tab.begin_rename(true);
    tab.set_rename_input("Pasted\nname".to_owned());
    assert_eq!(tab.rename_input.as_deref(), Some("Pasted name"));
    // without a kept suffix typing appends and erasing drops the last character
    tab.type_rename_text("!".to_owned());
    assert_eq!(tab.rename_input.as_deref(), Some("Pasted name!"));
    tab.backspace_rename();
    assert_eq!(tab.rename_input.as_deref(), Some("Pasted name"));
}

#[test]
fn keyboard_selection_moves_and_clamps() {
    let mut tab = TabState::from_path(1, "/data".to_owned());
    tab.entries = vec![
        file("a.txt", EntryKind::File, 1),
        file("b.txt", EntryKind::File, 1),
        file("c.txt", EntryKind::File, 1),
    ];
    assert_eq!(tab.move_selection(1), Some(0));
    assert_eq!(tab.selected_entry_index(), Some(0));
    assert_eq!(tab.move_selection(1), Some(1));
    assert_eq!(tab.move_selection(100), Some(2));
    assert_eq!(tab.move_selection(-100), Some(0));
    assert_eq!(tab.select_last_entry(), Some(2));
    assert_eq!(tab.select_first_entry(), Some(0));
    assert_eq!(tab.selected_path.as_deref(), Some("/data/a.txt"));
}

#[test]
fn keyboard_selection_in_an_empty_folder_selects_nothing() {
    let mut tab = TabState::from_path(1, "/data".to_owned());
    assert_eq!(tab.move_selection(1), None);
    assert_eq!(tab.select_first_entry(), None);
    assert_eq!(tab.select_last_entry(), None);
    assert_eq!(tab.selected_path, None);
}

#[test]
fn keyboard_activation_opens_selected_directory() {
    let mut tab = TabState::from_path(1, "/data".to_owned());
    tab.entries = vec![file("child", EntryKind::Directory, 0), file("file.txt", EntryKind::File, 4)];
    assert_eq!(tab.activate_selected(), None);
    assert_eq!(tab.select_first_entry(), Some(0));
    assert_eq!(tab.selected_path.as_deref(), Some("/data/child"));
    assert_eq!(tab.activate_selected(), Some(EntryActivation::ReadListing));
    assert_eq!(tab.current_dir, "/data/child");
    assert_eq!(tab.selected_path, None);
}

#[test]
fn touch_entry_opens_directories_but_only_selects_files() {
    let mut tab = TabState::from_path(1, "/data".to_owned());
    tab.entries = vec![file("child", EntryKind::Directory, 0), file("note.txt", EntryKind::File, 4)];
    assert_eq!(tab.touch_entry("/data/note.txt".to_owned(), 1_000), EntryActivation::Selected);
    assert_eq!(tab.current_dir, "/data");
    assert_eq!(tab.selected_path.as_deref(), Some("/data/note.txt"));
    assert_eq!(tab.touch_entry("/data/note.txt".to_owned(), 1_400), EntryActivation::OpenWithSystem);
    assert_eq!(tab.touch_entry("/data/child".to_owned(), 1_500), EntryActivation::ReadListing);
    assert_eq!(tab.current_dir, "/data/child");
    assert_eq!(tab.selected_path, None);
}

#[test]
fn typeahead_selects_matching_initial_and_repeated_key_cycles() {
    let mut tab = TabState::from_path(1, "/data".to_owned());
    tab.entries = vec![
        file("alpha.txt", EntryKind::File, 1),
        file("apricot.txt", EntryKind::File, 1),
        file("beta.txt", EntryKind::File, 1),
    ];
    assert_eq!(tab.typeahead_select("a".to_owned(), 10_000, false), Some(0));
    assert_eq!(tab.entries[0].name, "alpha.txt");
    assert_eq!(tab.typeahead_select("a".to_owned(), 10_100, false), Some(1));
    assert_eq!(tab.entries[1].name, "apricot.txt");
    assert_eq!(tab.typeahead_select("b".to_owned(), 10_200, false), Some(2));
    assert_eq!(tab.entries[2].name, "beta.txt");
}

#[test]
fn typeahead_extends_quick_keys_and_starts_over_after_a_pause() {
    let mut tab = TabState::from_path(1, "/data".to_owned());
    tab.entries = vec![
        file("Alpha.txt", EntryKind::File, 1),
        file("apricot.txt", EntryKind::File, 1),
        file("beta.txt", EntryKind::File, 1),
    ];
    assert_eq!(tab.typeahead_select("A".to_owned(), 0, false), Some(0));
    assert_eq!(tab.typeahead_select("p".to_owned(), 500, false), Some(1));
    assert_eq!(tab.typeahead_text(), "ap");
    // after more than a second the keys start a new search
    assert_eq!(tab.typeahead_select("b".to_owned(), 2_000, false), Some(2));
    assert_eq!(tab.typeahead_text(), "b");
    // no match leaves the selection
    assert_eq!(tab.typeahead_select("z".to_owned(), 5_000, false), Some(2));
    // during a rename, or for control keys, nothing changes
    assert_eq!(tab.typeahead_select("a".to_owned(), 9_000, true), Some(2));
    assert_eq!(tab.typeahead_select("\t".to_owned(), 9_000, false), Some(2));
    assert_eq!(tab.typeahead_text(), "z");
}

#[test]
fn size_texts_read_as_std_parses_them() {
    for text in [
        "42", "+7", "", "+", "-1", "007", "1a", " 5", "18446744073709551615", "18446744073709551616",
        "99999999999999999999999",
    ] {
        assert_eq!(parse_u64_text(text), text.parse::<u64>().ok(), "{text}");
    }
    assert_eq!(parse_u64_text("18446744073709551615"), Some(u64::MAX));
}

fn remote(path: &str) -> TaildriveLocation {
    TaildriveLocation::Remote {
        profile_id: "work".to_owned(),
        device_id: "nas".to_owned(),
        share: "docs".to_owned(),
        remote_path: path.to_owned(),
    }
}

fn item(name: &str, path: &str, directory: bool, size: &str, modified: &str) -> TaildriveItem {
    TaildriveItem {
        name: name.to_owned(),
        path: path.to_owned(),
        directory,
        size: size.to_owned(),
        modified: modified.to_owned(),
    }
}

#[test]
fn taildrive_listings_become_entries() {
    let items = vec![
        item("b.txt", "dir/b.txt", false, "12", "Sun, 06 Nov 1994 08:49:37 GMT"),
        item(".hidden", "dir/.hidden", false, "1", ""),
        item("Sub", "dir/Sub", true, "oops", ""),
    ];
    let shown = taildrive_list_entries(&items, "work", "nas", "docs", false);
    assert_eq!(shown.len(), 2);
    assert_eq!(shown[0].name, "b.txt");
    assert_eq!(shown[0].path, taildrive_path(&remote("dir/b.txt")));
    assert_eq!(shown[0].size, 12);
    assert_eq!(shown[0].kind, EntryKind::File);
    assert_eq!(shown[0].modified_sort_key, remote_modified_sort_key("Sun, 06 Nov 1994 08:49:37 GMT"));
    assert_eq!(shown[0].remote_modified.as_deref(), Some("Sun, 06 Nov 1994 08:49:37 GMT"));
    assert_eq!(shown[0].remote, Some(remote("dir/b.txt")));
    assert_eq!(shown[1].name, "Sub");
    assert_eq!(shown[1].kind, EntryKind::Directory);
    assert_eq!(shown[1].size, 0);
    assert_eq!(shown[1].remote_modified, None);
    assert_eq!(taildrive_list_entries(&items, "work", "nas", "docs", true).len(), 3);

    let mut tab = TabState::from_path(1, taildrive_path(&remote("dir")));
    tab.finish_taildrive_list(shown);
    assert_eq!(tab.status, "2 TailDrive item(s)");
    assert_eq!(tab.entries[0].name, "Sub");
    assert_eq!(tab.entries[1].name, "b.txt");
}

#[test]
fn failed_taildrive_listings_say_why() {
    let mut tab = TabState::from_path(1, taildrive_path(&remote("dir")));
    tab.fail_taildrive_list("service not running", false);
    assert_eq!(tab.status, "Connecting to TailDrive…");
    tab.fail_taildrive_list("boom", false);
    assert_eq!(tab.status, "TailDrive: boom");
    tab.entries = vec![file("a", EntryKind::File, 1), file("b", EntryKind::File, 1)];
    tab.fail_taildrive_list("boom", true);
    assert_eq!(tab.status, "Reconnecting to TailDrive… Showing 2 cached item(s).");
    tab.fail_taildrive_list("peer not currently available", false);
    assert_eq!(tab.status, "Reconnecting to TailDrive… Showing 2 cached item(s).");
    tab.fail_taildrive_list("boom", false);
    assert_eq!(tab.status, "TailDrive unavailable: boom. Showing 2 cached item(s).");
}

fn remote_entry(name: &str, path: &str, directory: bool) -> FileEntry {
    let items = vec![item(name, path, directory, "3", "")];
    taildrive_list_entries(&items, "work", "nas", "docs", true).remove(0)
}

#[test]
fn finished_taildrive_changes_update_the_listing() {
    let folder = taildrive_path(&remote("dir"));
    let mut tab = TabState::from_path(1, folder.clone());
    tab.entries = vec![remote_entry("a.txt", "dir/a.txt", false), remote_entry("b.txt", "dir/b.txt", false)];
    // another folder: nothing changes
    assert!(!tab.finish_remote_delete("/elsewhere", "dir/a.txt", Ok(())));
    assert_eq!(tab.entries.len(), 2);
    tab.select_entry(taildrive_path(&remote("dir/a.txt")));
    assert!(tab.finish_remote_delete(&folder, "dir/a.txt", Ok(())));
    assert_eq!(tab.entries.len(), 1);
    assert_eq!(tab.selected_path, None);
    assert_eq!(tab.status, "Deleted from TailDrive");
    assert!(!tab.finish_remote_delete(&folder, "dir/b.txt", Err("denied".to_owned())));
    assert_eq!(tab.status, "TailDrive delete failed: denied");

    assert!(tab.finish_remote_rename(&folder, "dir/b.txt", "c.txt", Ok(())));
    assert_eq!(tab.entries[0].name, "c.txt");
    assert_eq!(tab.entries[0].remote, Some(remote("dir/c.txt")));
    assert_eq!(tab.entries[0].path, taildrive_path(&remote("dir/c.txt")));
    assert_eq!(tab.selected_path.as_deref(), Some(taildrive_path(&remote("dir/c.txt")).as_str()));
    assert_eq!(tab.status, "Renamed: c.txt");
    assert!(!tab.finish_remote_rename(&folder, "dir/c.txt", "d.txt", Err("busy".to_owned())));
    assert_eq!(tab.status, "TailDrive rename failed: busy");

    assert!(tab.finish_remote_mkdir(&folder, "dir/New", Ok(())));
    assert_eq!(tab.selected_path.as_deref(), Some(taildrive_path(&remote("dir/New")).as_str()));
    tab.entries.push(remote_entry("Bad", "dir/Bad", true));
    tab.select_entry(taildrive_path(&remote("dir/Bad")));
    assert!(!tab.finish_remote_mkdir(&folder, "dir/Bad", Err("exists".to_owned())));
    assert_eq!(tab.entries.len(), 1);
    assert_eq!(tab.selected_path, None);
    assert_eq!(tab.status, "Cannot create TailDrive folder: exists");

    assert!(tab.finish_remote_upload(&folder, "dir/up.bin", Some((EntryKind::File, 9)), true, Ok(())));
    assert_eq!(tab.entries.len(), 2);
    assert_eq!(tab.entries[1].name, "up.bin");
    assert_eq!(tab.entries[1].size, 9);
    assert_eq!(tab.status, "Uploaded: up.bin. Local source kept because cross-filesystem Cut is not atomic.");
    assert!(tab.finish_remote_upload(&folder, "dir/up.bin", None, false, Ok(())));
    assert_eq!(tab.entries.len(), 2);
    assert_eq!(tab.status, "Uploaded: up.bin");
    assert!(tab.finish_remote_upload(&folder, "dir/", None, false, Ok(())));
    assert_eq!(tab.status, "Uploaded: Uploaded file");
    assert!(!tab.finish_remote_upload(&folder, "dir/x", None, false, Err("full".to_owned())));
    assert_eq!(tab.status, "TailDrive upload failed: full");

    assert!(tab.finish_remote_copy(&folder, "c.txt", true, Ok(())));
    assert_eq!(tab.status, "Copied in TailDrive: c.txt. Remote source kept for safety.");
    assert!(!tab.finish_remote_copy(&folder, "c.txt", false, Err("gone".to_owned())));
    assert_eq!(tab.status, "TailDrive copy failed: gone");
}

#[test]
fn status_reports_reload_the_shown_taildrive_location() {
    let idle = ProfileFlags { running: false, service_ready: false, scanning: false };
    let running = ProfileFlags { running: true, service_ready: false, scanning: false };
    let share_folder = taildrive_path(&remote("dir"));
    assert_eq!(status_reload_location(&share_folder, "work", running, running, false), None);
    assert_eq!(status_reload_location(&share_folder, "work", idle, running, false), Some(remote("dir")));
    assert_eq!(status_reload_location(&share_folder, "work", running, running, true), Some(remote("dir")));
    assert_eq!(status_reload_location(&share_folder, "home", idle, running, false), None);
    let root = taildrive_path(&TaildriveLocation::Root);
    assert_eq!(status_reload_location(&root, "home", running, running, false), Some(TaildriveLocation::Root));
    assert_eq!(status_reload_location("/data", "work", idle, running, false), None);
}

#[test]
fn ping_replies_become_status_lines() {
    let reply = |ok: bool, remote: Option<(&str, &str)>, latency_ms: i64, error: &str| PingReply {
        ok,
        remote: remote.map(|(d, h)| (d.to_owned(), h.to_owned())),
        latency_ms,
        error: error.to_owned(),
    };
    assert_eq!(
        ping_status_text("nas", Ok(reply(true, Some(("nas.tail.net", "nas")), 23, ""))),
        "nas: reached nas.tail.net in 23 ms"
    );
    assert_eq!(ping_status_text("nas", Ok(reply(true, Some(("", "nas-host")), -4, ""))), "nas: reached nas-host in 0 ms");
    assert_eq!(ping_status_text("nas", Ok(reply(true, None, 5, ""))), "nas: reached nas in 5 ms");
    assert_eq!(ping_status_text("nas", Ok(reply(false, None, 0, "timeout"))), "nas: timeout");
    assert_eq!(ping_status_text("nas", Err("offline".to_owned())), "nas: offline");
}

#[test]
fn taildrive_levels_list_profiles_devices_and_shares() {
    let mut tab = TabState::from_path(1, taildrive_path(&TaildriveLocation::Root));
    tab.search_input = "x".to_owned();
    tab.search_active = true;
    tab.begin_taildrive_load();
    assert!(tab.entries.is_empty());
    assert_eq!(tab.search_input, "");
    assert!(!tab.search_active);

    let profiles = vec![("home".to_owned(), "Zeta".to_owned()), ("work".to_owned(), "alpha".to_owned())];
    let entries = tailnet_entries(&profiles);
    assert_eq!(entries[0].remote, Some(TaildriveLocation::Profile { profile_id: "home".to_owned() }));
    tab.show_taildrive_level(entries, tailnets_status(profiles.len()));
    assert_eq!(tab.status, "2 Tailnet(s)");
    assert_eq!(tab.entries[0].name, "alpha");
    assert_eq!(tab.entries[0].kind, EntryKind::Directory);
    assert_eq!(tailnets_status(0), "No Tailnets configured");

    let devices = vec![("n1".to_owned(), "NAS".to_owned())];
    let listed = device_entries("work", &devices);
    assert_eq!(
        listed[0].path,
        taildrive_path(&TaildriveLocation::Device { profile_id: "work".to_owned(), device_id: "n1".to_owned() })
    );
    assert_eq!(devices_status(1, true, false, ""), "1 TailDrive device(s)");
    assert_eq!(devices_status(0, false, true, "x"), "Connecting to TailDrive…");
    assert_eq!(devices_status(0, true, true, "x"), "Scanning TailDrive devices…");
    assert_eq!(devices_status(0, true, false, "x"), "TailDrive: x");
    assert_eq!(devices_status(0, true, false, ""), "No TailDrive devices found");
    assert_eq!(missing_device_status(true), "Connecting to TailDrive…");
    assert_eq!(missing_device_status(false), "TailDrive device is unavailable");

    let shares = share_entries("work", "nas", &vec!["docs".to_owned()]);
    assert_eq!(shares[0].remote, Some(remote("")));
    assert_eq!(shares[0].name, "docs");
    assert_eq!(shares_status(1), "1 TailDrive share(s)");
    assert_eq!(shares_status(0), "This device has no accessible TailDrive shares");
    assert_eq!(remote_loading_status(0, true), "Connecting to TailDrive…");
    assert_eq!(remote_loading_status(3, true), "Reconnecting to TailDrive… Showing 3 cached item(s).");
    assert_eq!(remote_loading_status(0, false), "TailDrive worker is starting…");
    assert_eq!(remote_loading_status(2, false), "TailDrive worker is starting… Showing 2 cached item(s).");
}

#[test]
fn remote_preparation_statuses_follow_the_purpose() {
    let import = RemotePreparePurpose::ImportArchive {
        current: location("/p.zip", "docs"),
        name: "r.pdf".to_owned(),
        replace: false,
    };
    assert_eq!(download_phase(&RemotePreparePurpose::Share, "a.txt"), "Downloading to share");
    assert_eq!(download_phase(&import, "a.txt"), "Downloading for archive");
    assert_eq!(download_phase(&RemotePreparePurpose::Open, "app.apk"), "Preparing app install");
    assert_eq!(download_phase(&RemotePreparePurpose::Open, "a.txt"), "Downloading");
    assert_eq!(download_start_status(&RemotePreparePurpose::Share, "a.txt"), "Downloading a.txt for Quick Share…");
    assert_eq!(download_start_status(&import, "a.txt"), "Downloading a.txt for archive…");
    assert_eq!(download_start_status(&RemotePreparePurpose::Open, "app.apk"), "Preparing app.apk for installation…");
    assert_eq!(download_start_status(&RemotePreparePurpose::Open, "a.txt"), "Downloading TailDrive file: a.txt…");
    assert_eq!(prepare_failure_status(&RemotePreparePurpose::Share, "e"), "Cannot prepare TailDrive file for sharing: e");
    assert_eq!(prepare_failure_status(&import, "e"), "Cannot prepare TailDrive file for archive: e");
    assert_eq!(prepare_failure_status(&RemotePreparePurpose::Open, "e"), "Cannot prepare TailDrive file: e");
    assert_eq!(open_status("a.txt", "from cache", Ok(())), "Opened from cache: a.txt");
    assert_eq!(open_status("a.txt", "TailDrive file", Ok(())), "Opened TailDrive file: a.txt");
    assert_eq!(open_status("b.aab", "from cache", Ok(())), "Preparing installer: b.aab");
    assert_eq!(open_status("b.apk", "from cache", Ok(())), "Installer opened: b.apk");
    assert_eq!(open_status("a.txt", "from cache", Err("no app".to_owned())), "Cannot open TailDrive file: no app");
    assert_eq!(share_status("a.txt", true, Ok(())), "Sharing from cache: a.txt");
    assert_eq!(share_status("a.txt", false, Ok(())), "Sharing TailDrive file: a.txt");
    assert_eq!(share_status("a.txt", false, Err("x".to_owned())), "Cannot share TailDrive file: x");
    assert_eq!(archive_handoff_status("r.pdf", None), "Archive worker is not ready");
    assert_eq!(archive_handoff_status("r.pdf", Some(false)), "Archive worker stopped");
    assert_eq!(archive_handoff_status("r.pdf", Some(true)), "Adding r.pdf to archive…");
    assert_eq!(archive_import_status("r.pdf", Err("gone".to_owned())), "Cannot add TailDrive file to archive: gone");
    assert_eq!(
        download_failure_status("a.txt", true, &RemotePreparePurpose::Share, "e"),
        "Cannot prepare TailDrive file a.txt for sharing: e"
    );
    assert_eq!(download_failure_status("a.txt", true, &import, "e"), "Cannot prepare TailDrive file a.txt for archive: e");
    assert_eq!(download_failure_status("a.txt", true, &RemotePreparePurpose::Open, "e"), "Cannot open TailDrive file a.txt: e");
    assert_eq!(download_failure_status("a.txt", false, &RemotePreparePurpose::Open, "e"), "Cannot copy TailDrive item a.txt: e");
    assert_eq!(copied_from_taildrive_status("a.txt", true), "Copied from TailDrive: a.txt. Remote source kept for safety.");
    assert_eq!(copied_from_taildrive_status("a.txt", false), "Copied from TailDrive: a.txt");
}

#[test]
fn dropping_a_lone_group_tab_into_another_group_does_not_split_it() {
    let mut strip = strip_of(3);
    assert!(strip.create_tab_group_for_tab(1, 1));
    strip.assign_tab_to_group(2, 1);
    assert!(strip.create_tab_group_for_tab(3, 2));
    assert_eq!(groups_of(&strip), vec![Some(1), Some(1), Some(2)]);
    // dropping C between A and B, into its own group, moves it to the edge of g1
    strip.drop_tab_at(3, 1, Some(2), false);
    assert_eq!(ids(&strip), vec![3, 1, 2]);
    assert_eq!(groups_of(&strip), vec![Some(2), Some(1), Some(1)]);
    strip.drop_tab_at(3, 1, Some(2), true);
    assert_eq!(ids(&strip), vec![1, 2, 3]);
    assert_eq!(groups_of(&strip), vec![Some(1), Some(1), Some(2)]);
}

fn saved(dir: &str, group_id: Option<u64>) -> SavedTab {
    SavedTab {
        group_id,
        current_dir: dir.to_owned(),
        show_hidden: true,
        sort_field: SortField::Size,
        sort_direction: SortDirection::Descending,
        back_stack: vec!["/back".to_owned()],
        forward_stack: Vec::new(),
    }
}

#[test]
fn sessions_restore_tabs_groups_and_the_active_tab() {
    assert!(TabStrip::restore(0, Vec::new(), Vec::new(), 1).is_none());
    let groups = vec![TabGroupState::new(5, "Work".to_owned(), TabGroupColor::Green, false)];
    let strip = TabStrip::restore(9, vec![saved("/a", Some(5)), saved("/b", Some(8))], groups, 40).expect("tabs");
    assert_eq!(ids(&strip), vec![40, 41]);
    assert_eq!(groups_of(&strip), vec![Some(5), None]);
    assert_eq!(strip.active_index(), 1);
    assert_eq!(strip.groups().len(), 1);
    let tab = &strip.tabs()[0];
    assert_eq!(tab.current_dir, "/a");
    assert!(tab.show_hidden);
    assert_eq!(tab.sort_field, SortField::Size);
    assert_eq!(tab.status, "Loading restored folder…");
    assert!(tab.can_go_back());
    assert_eq!(tab.saved().back_stack, vec!["/back".to_owned()]);
    let strip = TabStrip::restore(0, vec![saved("/a", None), saved("/b", None)], Vec::new(), 1).expect("tabs");
    assert_eq!(strip.active_index(), 0);
    assert_eq!(TabStrip::next_group_id_after(&vec![
        TabGroupState::new(5, String::new(), TabGroupColor::Blue, false),
        TabGroupState::new(12, String::new(), TabGroupColor::Red, false),
    ]), Some(13));
    assert_eq!(TabStrip::next_group_id_after(&Vec::new()), None);
}

#[test]
fn cache_cleanup_sweeps_unindexed_files() {
    let names = vec!["index.json".to_owned(), "a.bin".to_owned(), "b.bin".to_owned(), "c.part".to_owned()];
    let strays = stray_cache_files(&names, &vec!["a.bin".to_owned()], &vec!["c.part".to_owned()]);
    assert_eq!(strays, vec!["b.bin".to_owned()]);
}

#[test]
fn stale_or_foreign_taildrive_listings_are_ignored() {
    let folder = taildrive_path(&remote("dir"));
    assert!(listing_is_current(3, 3, &folder, "work", "nas", "docs", "dir"));
    assert!(!listing_is_current(2, 3, &folder, "work", "nas", "docs", "dir"));
    assert!(!listing_is_current(3, 3, &folder, "work", "nas", "docs", "other"));
    assert!(!listing_is_current(3, 3, "/data", "work", "nas", "docs", "dir"));
}

#[test]
fn taildrive_paths_can_be_tested_before_parsing() {
    assert!(!taildrive_parse_would_panic("/data"));
    assert!(!taildrive_parse_would_panic(&taildrive_path(&remote("dir/x"))));
}

#[test]
fn local_file_events_update_the_tab_that_shows_their_folder() {
    let mut tab = TabState::from_path(1, "/data".to_owned());
    let made = LocalFileEvent {
        command: LocalFileCommand::CreateDir { current: "/data".to_owned(), path: "/data/New folder".to_owned() },
        result: Ok(()),
    };
    assert!(tab.apply_local_file_event(made, false));
    assert_eq!(tab.selected_path.as_deref(), Some("/data/New folder"));
    assert_eq!(tab.rename_input.as_deref(), Some("New folder"));
    let elsewhere = LocalFileEvent {
        command: LocalFileCommand::Delete { current: "/other".to_owned(), path: "/other/x".to_owned() },
        result: Ok(()),
    };
    assert!(!tab.apply_local_file_event(elsewhere, false));
    assert_eq!(tab.selected_path.as_deref(), Some("/data/New folder"));
    let failed = LocalFileEvent {
        command: LocalFileCommand::Delete { current: "/data".to_owned(), path: "/data/x".to_owned() },
        result: Err("busy".to_owned()),
    };
    assert!(!tab.apply_local_file_event(failed, false));
    assert_eq!(tab.status, "Move to Trash failed: busy");
    let renamed = LocalFileEvent {
        command: LocalFileCommand::Rename {
            current: "/data".to_owned(),
            source: "/data/New folder".to_owned(),
            destination: "/data/Docs".to_owned(),
        },
        result: Ok(()),
    };
    assert!(tab.apply_local_file_event(renamed, true));
    assert_eq!(tab.rename_input, None);
    assert_eq!(tab.selected_path.as_deref(), Some("/data/Docs"));
}

fn aliases() -> Vec<ProfileAliases> {
    vec![ProfileAliases {
        id: "p1".to_owned(),
        label: "Work".to_owned(),
        tailnet_path: "office".to_owned(),
        path_names: vec![("dev1".to_owned(), "nas".to_owned())],
        devices: vec![DeviceAliases {
            id: "dev1".to_owned(),
            hostname: "nas-host".to_owned(),
            dns_name: "nas.tail.net".to_owned(),
            target: "100.64.0.1".to_owned(),
        }],
        configured_devices: vec!["dev9".to_owned()],
        remembered: vec![("dev7".to_owned(), "old-box".to_owned())],
    }]
}

#[test]
fn typed_taildrive_addresses_resolve_profile_and_device_names() {
    let ps = aliases();
    assert_eq!(resolve_taildrive_address("TD", &ps), Some(TaildriveLocation::Root));
    assert_eq!(
        resolve_taildrive_address("td/Office", &ps),
        Some(TaildriveLocation::Profile { profile_id: "p1".to_owned() })
    );
    assert_eq!(
        resolve_taildrive_address("TD/work/NAS", &ps),
        Some(TaildriveLocation::Device { profile_id: "p1".to_owned(), device_id: "dev1".to_owned() })
    );
    assert_eq!(
        resolve_taildrive_address(" TD\\office\\nas.tail.net\\docs\\a\\b ", &ps),
        Some(TaildriveLocation::Remote {
            profile_id: "p1".to_owned(),
            device_id: "dev1".to_owned(),
            share: "docs".to_owned(),
            remote_path: "a/b".to_owned(),
        })
    );
    assert_eq!(
        resolve_taildrive_address("TD/office/old-box", &ps),
        Some(TaildriveLocation::Device { profile_id: "p1".to_owned(), device_id: "dev7".to_owned() })
    );
    assert_eq!(resolve_taildrive_address("TD/unknown", &ps), None);
    assert_eq!(resolve_taildrive_address("TD/office/nobody", &ps), None);
    assert_eq!(
        resolve_taildrive_address("TailDrive/unknown/thing", &ps),
        Some(TaildriveLocation::Device { profile_id: "unknown".to_owned(), device_id: "thing".to_owned() })
    );
    assert_eq!(
        resolve_taildrive_address("TailDrive/P1/DEV9", &ps),
        Some(TaildriveLocation::Device { profile_id: "p1".to_owned(), device_id: "dev9".to_owned() })
    );
    assert_eq!(resolve_taildrive_address("/data", &ps), None);
}

#[test]
fn cache_usage_loading_ignores_unrelated_and_stale_cache_events() {
    let mut usage = CacheUsage { pending: Some(2), bytes: 0, refresh_queued: true };
    assert!(!usage.apply_cache_event(CacheEvent { result: Ok(42), usage_refresh_id: None }));
    assert_eq!(usage.pending, Some(2));
    assert!(!usage.apply_cache_event(CacheEvent { result: Ok(63), usage_refresh_id: Some(1) }));
    assert_eq!(usage.pending, Some(2));
    assert!(usage.apply_cache_event(CacheEvent { result: Ok(84), usage_refresh_id: Some(2) }));
    assert_eq!(usage.pending, None);
    assert_eq!(usage.bytes, 84);
    assert!(!usage.refresh_queued);
    assert!(!usage.apply_cache_event(CacheEvent { result: Err("io".to_owned()), usage_refresh_id: Some(2) }));
    assert_eq!(usage.bytes, 84);
}

#[test]
fn stale_search_results_are_rejected() {
    let mut tab = TabState::from_path(1, "/data".to_owned());
    tab.search_input = " needle ".to_owned();
    tab.search_active = true;
    assert!(tab.accepts_search_result(4, 4, "/data", "needle"));
    assert!(!tab.accepts_search_result(3, 4, "/data", "needle"));
    assert!(!tab.accepts_search_result(4, 4, "/other", "needle"));
    assert!(!tab.accepts_search_result(4, 4, "/data", "hay"));
    tab.search_active = false;
    assert!(!tab.accepts_search_result(4, 4, "/data", "needle"));
}

#[test]
fn new_names_skip_the_ones_taken() {
    let entries = vec![
        file("New folder", EntryKind::Directory, 0),
        file("new folder (2)", EntryKind::Directory, 0),
        file("New Folder (3)", EntryKind::Directory, 0),
    ];
    assert_eq!(unique_entry_name(&entries, "New folder"), "New folder (4)");
    assert_eq!(unique_entry_name(&entries, "Other"), "Other");
    assert_eq!(unique_entry_name(&Vec::new(), "New folder"), "New folder");
}

#[test]
fn copies_get_copy_names_that_are_free() {
    let entries = vec![
        file("report.pdf", EntryKind::File, 1),
        file("report - copy.pdf", EntryKind::File, 1),
        file("notes", EntryKind::File, 1),
    ];
    assert_eq!(unique_entry_copy_name(&entries, "report.pdf"), "report - Copy (2).pdf");
    assert_eq!(unique_entry_copy_name(&entries, "notes"), "notes - Copy");
    assert_eq!(unique_entry_copy_name(&entries, "fresh.txt"), "fresh.txt");
}

#[test]
fn back_closes_the_innermost_thing_first() {
    let nothing = BackState {
        delete_confirmation: false,
        paste_conflict: false,
        rename_active: false,
        tab_overlay: false,
        transfer_popup: false,
        sort_popup: false,
        file_more_popup: false,
        settings_open: false,
        can_go_back: false,
    };
    assert_eq!(system_back_action(nothing), BackAction::Exit);
    assert_eq!(system_back_action(BackState { can_go_back: true, ..nothing }), BackAction::GoBack);
    assert_eq!(
        system_back_action(BackState { settings_open: true, can_go_back: true, ..nothing }),
        BackAction::CloseSettings
    );
    assert_eq!(
        system_back_action(BackState { rename_active: true, sort_popup: true, ..nothing }),
        BackAction::CancelRename
    );
    assert_eq!(
        system_back_action(BackState { delete_confirmation: true, paste_conflict: true, ..nothing }),
        BackAction::CancelDeleteConfirmation
    );
}

fn strings(list: &[&str]) -> Vec<String> {
    list.iter().map(|s| s.to_string()).collect()
}

#[test]
fn tailnet_paths_are_made_unique_ignoring_case() {
    let requested = strings(&["", "", "home", "HOME", "home"]);
    let automatic = strings(&["tn-a", "tn-a", "x", "y", "z"]);
    assert_eq!(assign_tailnet_paths(&requested, &automatic), strings(&["", "tn1", "home", "HOME-2", "home-3"]));
    let requested = strings(&["", "tn1", ""]);
    let automatic = strings(&["tn1", "q", "tn1"]);
    assert_eq!(assign_tailnet_paths(&requested, &automatic), strings(&["", "tn1-2", "tn2"]));
}

#[test]
fn profile_changes_start_and_stop_nodes() {
    let previous = vec![("a".to_owned(), true), ("b".to_owned(), true), ("c".to_owned(), false)];
    let next = vec![("a".to_owned(), true), ("b".to_owned(), false), ("c".to_owned(), true), ("d".to_owned(), true)];
    let (stops, starts) = profile_transitions(&previous, &next);
    assert_eq!(stops, strings(&["b"]));
    assert_eq!(starts, strings(&["c", "d"]));
}

#[test]
fn the_clipboard_follows_local_file_commands() {
    let clip = Some("/data/a.txt".to_owned());
    let cut = LocalFileCommand::CopyMove {
        current: "/data".to_owned(),
        source: "/data/a.txt".to_owned(),
        destination: "/other/a.txt".to_owned(),
        cut: true,
        replace: false,
    };
    assert_eq!(clipboard_after_local_event(clip.clone(), &cut, &Ok(())), None);
    assert_eq!(clipboard_after_local_event(clip.clone(), &cut, &Err("no".to_owned())), clip);
    let copy = LocalFileCommand::CopyMove {
        current: "/data".to_owned(),
        source: "/data/a.txt".to_owned(),
        destination: "/other/a.txt".to_owned(),
        cut: false,
        replace: false,
    };
    assert_eq!(clipboard_after_local_event(clip.clone(), &copy, &Ok(())), clip);
    let delete = LocalFileCommand::Delete { current: "/data".to_owned(), path: "/data/a.txt".to_owned() };
    assert_eq!(clipboard_after_local_event(clip.clone(), &delete, &Ok(())), None);
    let rename = LocalFileCommand::Rename {
        current: "/data".to_owned(),
        source: "/data/a.txt".to_owned(),
        destination: "/data/b.txt".to_owned(),
    };
    assert_eq!(clipboard_after_local_event(clip.clone(), &rename, &Ok(())), Some("/data/b.txt".to_owned()));
    assert_eq!(clipboard_after_local_event(None, &rename, &Ok(())), None);
}

#[test]
fn stopping_and_signing_out_report_how_it_went() {
    assert_eq!(disconnect_status(Ok(())), "Disconnected; identity preserved");
    assert_eq!(disconnect_status(Err("busy".to_owned())), "Tailscale disconnect failed: busy");
    assert_eq!(sign_out_status(Ok(())), "Signed out of Tailscale");
    assert_eq!(sign_out_status(Err("offline".to_owned())), "Tailscale sign-out failed: offline");
}

#[test]
fn cached_taildrive_listings_keep_no_dates() {
    let items = vec![item("a.txt", "dir/a.txt", false, "12", "Sun, 06 Nov 1994 08:49:37 GMT"), item(".h", "dir/.h", false, "1", "")];
    let cached: Vec<_> = items.iter().map(cache_record).collect();
    assert_eq!(cached[0].size, 12);
    let shown = cached_list_entries(&cached, "work", "nas", "docs", false);
    assert_eq!(shown.len(), 1);
    assert_eq!(shown[0].path, taildrive_path(&remote("dir/a.txt")));
    assert_eq!(shown[0].remote_modified, None);
    assert_eq!(shown[0].modified_sort_key, remote_modified_sort_key("Sun, 06 Nov 1994 08:49:37 GMT"));
    assert_eq!(cached_list_entries(&cached, "work", "nas", "docs", true).len(), 2);
}

#[test]
fn device_path_names_are_made_unique_ignoring_case() {
    let bases = strings(&["nas", "NAS", "nas", "pc"]);
    assert_eq!(assign_device_path_names(&bases), strings(&["nas", "NAS-2", "nas-3", "pc"]));
    let long = "abcdefghijklmnopqrstuvwxyz";
    let named = assign_device_path_names(&strings(&[long, long]));
    assert_eq!(named[1], "abcdefghijklmnopqrstuv-2");
}
