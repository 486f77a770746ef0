use fast_explorer::cache::{plan_cache_cleanup, CacheEntry, FileFacts};
use fast_explorer::commands::RemoteCacheSettings;
use fast_explorer::strip::TabStrip;
use fast_explorer::sync::{apply_sync_event, InboxEntry, SyncEvent, SyncState};
use fast_explorer::tabs::TabState;
use fast_explorer::transfer_list::{
    begin_file_transfer, clear_finished_transfers, finish_file_transfer, record_transfer_progress, transfer_for_icon,
    FileTransferItem,
};
use fast_explorer::taildrive::{taildrive_path, TaildriveLocation};
use fast_explorer::names::taildrive_device_stable_name;
use fast_explorer::tailnets::{
    device_name_candidate, is_of_removed_profile, keep_paths_of_profiles, prune_drafts, taildrive_device_base_name,
};

fn profile_path(id: &str) -> String {
    taildrive_path(&TaildriveLocation::Profile { profile_id: id.to_owned() })
}

fn device_path(id: &str, device: &str) -> String {
    taildrive_path(&TaildriveLocation::Device { profile_id: id.to_owned(), device_id: device.to_owned() })
}

fn ids(list: &[&str]) -> Vec<String> {
    list.iter().map(|s| s.to_string()).collect()
}

fn signed_in_state() -> SyncState<String, u32> {
    SyncState {
        signed_in: true,
        user_email: "ada@example.com".to_owned(),
        status: String::new(),
        devices: vec!["laptop".to_owned()],
        inbox: vec![
            InboxEntry { id: "t1".to_owned(), item: 1 },
            InboxEntry { id: "t2".to_owned(), item: 2 },
        ],
        push_token: "tok".to_owned(),
    }
}

fn inbox_ids(state: &SyncState<String, u32>) -> Vec<String> {
    state.inbox.iter().map(|e| e.id.clone()).collect()
}

#[test]
fn sign_out_clears_devices_inbox_and_token() {
    let mut state = signed_in_state();
    let n = apply_sync_event(
        &mut state,
        SyncEvent::AuthState { signed_in: false, email: String::new(), status: "Signed out".to_owned() },
    );
    assert_eq!(n, 0);
    assert!(!state.signed_in);
    assert!(state.devices.is_empty());
    assert!(state.inbox.is_empty());
    assert!(state.push_token.is_empty());
    assert_eq!(state.status, "Signed out");
}

#[test]
fn sign_in_keeps_devices_and_inbox() {
    let mut state = signed_in_state();
    apply_sync_event(
        &mut state,
        SyncEvent::AuthState { signed_in: true, email: "bo@example.com".to_owned(), status: "Signed in".to_owned() },
    );
    assert_eq!(state.user_email, "bo@example.com");
    assert_eq!(state.devices, vec!["laptop".to_owned()]);
    assert_eq!(inbox_ids(&state), ids(&["t1", "t2"]));
    assert_eq!(state.push_token, "tok");
}

#[test]
fn inbox_refresh_counts_only_new_ids() {
    let mut state = signed_in_state();
    let n = apply_sync_event(
        &mut state,
        SyncEvent::Inbox(Ok(vec![
            InboxEntry { id: "t2".to_owned(), item: 2 },
            InboxEntry { id: "t3".to_owned(), item: 3 },
            InboxEntry { id: "t4".to_owned(), item: 4 },
        ])),
    );
    assert_eq!(n, 2);
    assert_eq!(inbox_ids(&state), ids(&["t2", "t3", "t4"]));
}

#[test]
fn inbox_failure_sets_status_only() {
    let mut state = signed_in_state();
    let n = apply_sync_event(&mut state, SyncEvent::Inbox(Err("offline".to_owned())));
    assert_eq!(n, 0);
    assert_eq!(state.status, "offline");
    assert_eq!(inbox_ids(&state), ids(&["t1", "t2"]));
}

#[test]
fn received_file_leaves_inbox() {
    let mut state = signed_in_state();
    apply_sync_event(
        &mut state,
        SyncEvent::FileReceived { transfer_id: "t1".to_owned(), result: Ok("/home/ada/a.txt".to_owned()) },
    );
    assert_eq!(inbox_ids(&state), ids(&["t2"]));
    assert_eq!(state.status, "Received /home/ada/a.txt");
}

#[test]
fn acknowledged_transfer_leaves_inbox_and_failure_keeps_it() {
    let mut state = signed_in_state();
    apply_sync_event(&mut state, SyncEvent::TransferAcked { transfer_id: "t2".to_owned(), result: Ok(()) });
    assert_eq!(inbox_ids(&state), ids(&["t1"]));
    apply_sync_event(
        &mut state,
        SyncEvent::TransferAcked { transfer_id: "t1".to_owned(), result: Err("denied".to_owned()) },
    );
    assert_eq!(inbox_ids(&state), ids(&["t1"]));
    assert_eq!(state.status, "denied");
}

#[test]
fn device_list_and_push_token_replies() {
    let mut state = signed_in_state();
    apply_sync_event(&mut state, SyncEvent::Devices(Ok(vec!["phone".to_owned(), "tablet".to_owned()])));
    assert_eq!(state.devices, vec!["phone".to_owned(), "tablet".to_owned()]);
    assert_eq!(state.status, "Device list updated");
    apply_sync_event(&mut state, SyncEvent::PushTokenUpdated { token: "new".to_owned(), result: Ok(()) });
    assert_eq!(state.push_token, "new");
    apply_sync_event(&mut state, SyncEvent::Sent(Err("too big".to_owned())));
    assert_eq!(state.status, "too big");
    apply_sync_event(&mut state, SyncEvent::OtpSent("Code sent".to_owned()));
    assert_eq!(state.status, "Code sent");
}

#[test]
fn drafts_of_removed_profiles_are_pruned() {
    let drafts = vec![
        ("a".to_owned(), "work".to_owned()),
        ("b".to_owned(), "home".to_owned()),
        ("c".to_owned(), "lab".to_owned()),
    ];
    let kept = prune_drafts(drafts, &ids(&["c", "a"]));
    assert_eq!(kept, vec![("a".to_owned(), "work".to_owned()), ("c".to_owned(), "lab".to_owned())]);
}

#[test]
fn removed_profile_places_are_recognised() {
    let valid = ids(&["a"]);
    assert!(!is_of_removed_profile(&profile_path("a"), &valid));
    assert!(is_of_removed_profile(&device_path("b", "d1"), &valid));
    assert!(!is_of_removed_profile(&taildrive_path(&TaildriveLocation::Root), &valid));
    assert!(!is_of_removed_profile("/home/ada", &valid));
}

#[test]
fn history_keeps_only_places_of_kept_profiles() {
    let paths = vec!["/home".to_owned(), profile_path("a"), profile_path("b"), device_path("b", "x")];
    let kept = keep_paths_of_profiles(&paths, &ids(&["a"]));
    assert_eq!(kept, vec!["/home".to_owned(), profile_path("a")]);
}

#[test]
fn tab_in_removed_profile_returns_to_root() {
    let mut tab = TabState::from_path(1, "/home".to_owned());
    tab.navigate_to(profile_path("a"), true);
    tab.navigate_to(profile_path("b"), true);
    let reset = tab.forget_removed_profiles(&ids(&["a"]));
    assert!(reset);
    let saved = tab.saved();
    assert_eq!(saved.current_dir, taildrive_path(&TaildriveLocation::Root));
    assert_eq!(saved.back_stack, vec!["/home".to_owned(), profile_path("a")]);
    assert_eq!(tab.status, "Tailnet removed; opened TD root");
}

#[test]
fn tab_of_kept_profile_stays() {
    let mut tab = TabState::from_path(1, "/home".to_owned());
    tab.navigate_to(profile_path("b"), true);
    tab.navigate_to(profile_path("a"), true);
    let reset = tab.forget_removed_profiles(&ids(&["a"]));
    assert!(!reset);
    let saved = tab.saved();
    assert_eq!(saved.current_dir, profile_path("a"));
    assert_eq!(saved.back_stack, vec!["/home".to_owned()]);
}

#[test]
fn strip_reports_whether_active_tab_was_reset() {
    let mut strip = TabStrip::new(TabState::from_path(1, profile_path("b")));
    strip.new_tab(TabState::from_path(2, "/home".to_owned()));
    let active = strip.active_index();
    let reset = strip.forget_removed_profiles(&ids(&["a"]));
    assert_eq!(reset, active == 0);
    assert_eq!(strip.tabs()[0].saved().current_dir, taildrive_path(&TaildriveLocation::Root));
    assert_eq!(strip.tabs()[1].saved().current_dir, "/home");
}

fn entry(name: &str, last_accessed: u64) -> CacheEntry {
    CacheEntry {
        key: name.to_owned(),
        file_name: name.to_owned(),
        display_name: name.to_owned(),
        remote_size: 0,
        remote_modified: "v1".to_owned(),
        cached_unix_ms: last_accessed,
        last_accessed_unix_ms: last_accessed,
    }
}

#[test]
fn eviction_takes_oldest_unneeded_entries_until_it_fits() {
    let entries = vec![entry("new", 300), entry("old", 100), entry("mid", 200), entry("pinned", 50)];
    let facts = vec![FileFacts { is_file: true, size: Some(4 * 1024 * 1024) }; 4];
    let settings = RemoteCacheSettings { limit_mib: 9, expiration_hours: 0 };
    let plan = plan_cache_cleanup(&entries, &facts, 400, settings, &vec!["pinned".to_owned()]);
    // 16 MiB against 9: "pinned" is passed over, "old" then "mid" go, and 8 MiB is left.
    assert_eq!(plan.keep, vec![true, false, false, true]);
    assert_eq!(plan.delete_file, vec![false, true, true, false]);
    assert_eq!(plan.usage, 8 * 1024 * 1024);
}

#[test]
fn stable_device_name_hashes_the_id() {
    assert_eq!(taildrive_device_stable_name("laptop", "dev1"), "laptop-0992f7");
    // 17 characters of the name are kept, then trailing dashes go.
    assert_eq!(taildrive_device_stable_name("abcdefghijklmnop-qrs", "dev1"), "abcdefghijklmnop-0992f7");
    assert_eq!(taildrive_device_stable_name("abcdefghijklmnop--", "n123"), "abcdefghijklmnop-6ad75f");
    assert_eq!(taildrive_device_stable_name("", "dev1"), "d-0992f7");
}

#[test]
fn default_device_name_candidate_order() {
    assert_eq!(device_name_candidate("host", "dns.example.ts.net", "10.0.0.1", "id"), "host");
    assert_eq!(device_name_candidate("  ", "dns.example.ts.net", "10.0.0.1", "id"), "dns");
    assert_eq!(device_name_candidate("", " ", "box.lan", "id"), "box");
    assert_eq!(device_name_candidate("", "", "", "id"), "id");
}

#[test]
fn device_base_name_prefers_configured_name() {
    assert_eq!(taildrive_device_base_name(Some("nas"), Some("box"), "dev1"), "nas");
    assert_eq!(taildrive_device_base_name(Some(""), Some("box"), "dev1"), "box-0992f7");
    assert_eq!(taildrive_device_base_name(None, None, "dev1"), "d-0992f7");
    assert_eq!(taildrive_device_base_name(Some(".."), None, "dev1"), "d-0992f7");
    assert_eq!(taildrive_device_base_name(Some("."), Some("box"), "dev1"), "d-0992f7");
}

fn transfer_ids(list: &[FileTransferItem]) -> Vec<String> {
    list.iter().map(|t| t.transfer_id.clone()).collect()
}

#[test]
fn finished_transfer_completes_its_counters() {
    let mut list = Vec::new();
    begin_file_transfer(&mut list, "a".to_owned(), "a.txt".to_owned(), "Downloading");
    record_transfer_progress(&mut list, "a", "Copying", 10, 40, 1, 3);
    assert_eq!(list[0].phase, "Copying");
    assert_eq!((list[0].bytes_done, list[0].bytes_total, list[0].items_done, list[0].items_total), (10, 40, 1, 3));
    finish_file_transfer(&mut list, "a", None);
    assert!(list[0].done);
    assert_eq!(list[0].phase, "Completed");
    assert_eq!(list[0].bytes_done, 40);
    assert_eq!(list[0].items_done, 3);
}

#[test]
fn cancelled_and_failed_transfers() {
    let mut list = Vec::new();
    begin_file_transfer(&mut list, "a".to_owned(), "a".to_owned(), "Uploading");
    begin_file_transfer(&mut list, "b".to_owned(), "b".to_owned(), "Uploading");
    finish_file_transfer(&mut list, "a", Some("Transfer Cancelled".to_owned()));
    finish_file_transfer(&mut list, "b", Some("disk full".to_owned()));
    assert!(list[0].cancelled);
    assert_eq!(list[0].error, None);
    assert_eq!(list[0].phase, "Cancelled");
    assert!(!list[1].cancelled);
    assert_eq!(list[1].error, Some("disk full".to_owned()));
    assert_eq!(list[1].phase, "Failed");
    finish_file_transfer(&mut list, "zzz", None);
    assert_eq!(transfer_ids(&list), vec!["a".to_owned(), "b".to_owned()]);
}

#[test]
fn install_phase_is_kept_during_progress() {
    let mut list = Vec::new();
    begin_file_transfer(&mut list, "apk".to_owned(), "app.apk".to_owned(), "Preparing app install");
    record_transfer_progress(&mut list, "apk", "Downloading", 1, 2, 0, 0);
    assert_eq!(list[0].phase, "Preparing app install");
    record_transfer_progress(&mut list, "apk", "", 2, 2, 0, 0);
    assert_eq!(list[0].bytes_done, 2);
}

#[test]
fn full_list_drops_oldest_finished_transfer_first() {
    let mut list = Vec::new();
    for i in 0..32 {
        begin_file_transfer(&mut list, format!("t{i}"), format!("f{i}"), "Copying");
    }
    finish_file_transfer(&mut list, "t5", None);
    begin_file_transfer(&mut list, "new".to_owned(), "new".to_owned(), "Copying");
    assert_eq!(list.len(), 32);
    assert!(!transfer_ids(&list).contains(&"t5".to_owned()));
    assert_eq!(list.last().unwrap().transfer_id, "new");
    begin_file_transfer(&mut list, "newer".to_owned(), "newer".to_owned(), "Copying");
    assert_eq!(list.len(), 32);
    assert_eq!(list[0].transfer_id, "t1");
}

#[test]
fn icon_follows_oldest_unfinished_transfer_and_clear_keeps_running_ones() {
    let mut list = Vec::new();
    assert_eq!(transfer_for_icon(&list), None);
    begin_file_transfer(&mut list, "a".to_owned(), "a".to_owned(), "Copying");
    begin_file_transfer(&mut list, "b".to_owned(), "b".to_owned(), "Copying");
    finish_file_transfer(&mut list, "a", None);
    assert_eq!(transfer_for_icon(&list), Some(1));
    finish_file_transfer(&mut list, "b", None);
    assert_eq!(transfer_for_icon(&list), Some(1));
    begin_file_transfer(&mut list, "c".to_owned(), "c".to_owned(), "Copying");
    clear_finished_transfers(&mut list);
    assert_eq!(transfer_ids(&list), vec!["c".to_owned()]);
}
