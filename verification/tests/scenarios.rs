use fast_explorer::archive::{parse_virtual_path, virtual_path, ArchiveLocation};
use fast_explorer::entries::{display_path, EntryKind, FileCategory, FileEntry, SortDirection, SortField};
use fast_explorer::names::{
    generated_tailscale_hostname, is_aab_name, is_android_install_name, normalize_tailscale_hostname,
};
use fast_explorer::tabs::TabState;
use fast_explorer::taildrive::{
    parse_taildrive_display_path, parse_taildrive_path, taildrive_directory_cache_key,
    taildrive_display_path, taildrive_path, TaildriveLocation,
};

#[test]
fn tailscale_hostnames_are_short_stable_and_normalized() {
    let generated = generated_tailscale_hostname("tailnet-very-long-internal-profile-id");
    assert!(generated.starts_with("fe-"));
    assert_eq!(generated.len(), 9);
    assert_eq!(
        generated,
        generated_tailscale_hostname("tailnet-very-long-internal-profile-id")
    );
    assert_eq!(
        normalize_tailscale_hostname("  My Fast Explorer!!  "),
        "my-fast-explorer"
    );
    assert_eq!(
        normalize_tailscale_hostname("---WORK__PHONE---"),
        "work-phone"
    );
}

#[test]
fn display_path_always_uses_forward_slashes() {
    assert_eq!(
        display_path(r"C:\Users\Ada\Documents\report.txt"),
        "C:/Users/Ada/Documents/report.txt"
    );
}

#[test]
fn taildrive_virtual_path_round_trips_and_has_human_title() {
    let location = TaildriveLocation::Remote {
        profile_id: "work".to_owned(),
        device_id: "desktop-1".to_owned(),
        share: "My Docs".to_owned(),
        remote_path: "projects/日本語/report.pdf".to_owned(),
    };
    let path = taildrive_path(&location);
    assert_eq!(parse_taildrive_path(&path), Some(location.clone()));
    let display = display_path(&path);
    assert_eq!(
        display,
        "TD/work/desktop-1/My Docs/projects/日本語/report.pdf"
    );
    assert_eq!(parse_taildrive_display_path(&display), Some(location));
    let tab = TabState::from_path(1, path);
    assert_eq!(tab.title(None), "report.pdf");
}

#[test]
fn taildrive_display_and_cache_keys_escape_separator_like_names() {
    let first = TaildriveLocation::Remote {
        profile_id: "work/team".to_owned(),
        device_id: "desktop%1".to_owned(),
        share: "a/b".to_owned(),
        remote_path: "c/100%/notes\\old.txt".to_owned(),
    };
    let second = TaildriveLocation::Remote {
        profile_id: "work/team".to_owned(),
        device_id: "desktop%1".to_owned(),
        share: "a".to_owned(),
        remote_path: "b/c/100%/notes\\old.txt".to_owned(),
    };
    let display = taildrive_display_path(&first);
    assert_eq!(parse_taildrive_display_path(&display), Some(first.clone()));
    assert_ne!(
        taildrive_directory_cache_key(&first),
        taildrive_directory_cache_key(&second)
    );
}

#[test]
fn aab_is_treated_as_android_install_package() {
    assert!(is_android_install_name("sample.apk"));
    assert!(is_android_install_name("sample.APKS"));
    assert!(is_android_install_name("sample.AAB"));
    assert!(is_aab_name("sample.aab"));
    assert!(!is_android_install_name("sample.pdf"));
}

fn entry_with(name: &str, kind: EntryKind, size: u64, modified_sort_key: u64) -> FileEntry {
    FileEntry {
        path: name.to_owned(),
        name: name.to_owned(),
        kind,
        size,
        modified_sort_key,
        remote: None,
        remote_modified: None,
    }
}

#[test]
fn common_sorting_keeps_folders_first_and_orders_size_and_date() {
    let mut tab = TabState::from_path(1, "/".to_owned());
    tab.entries = vec![
        entry_with("tiny.txt", EntryKind::File, 1, 30),
        entry_with("folder", EntryKind::Directory, 0, 5),
        entry_with("large.bin", EntryKind::File, 100, 20),
    ];
    tab.sort_field = SortField::Size;
    tab.sort_direction = SortDirection::Descending;
    tab.apply_sort();
    assert_eq!(
        tab.entries
            .iter()
            .map(|entry| entry.name.as_str())
            .collect::<Vec<_>>(),
        ["folder", "large.bin", "tiny.txt"]
    );
    tab.sort_field = SortField::DateModified;
    tab.sort_direction = SortDirection::Ascending;
    tab.apply_sort();
    assert_eq!(
        tab.entries
            .iter()
            .map(|entry| entry.name.as_str())
            .collect::<Vec<_>>(),
        ["folder", "large.bin", "tiny.txt"]
    );
}

#[test]
fn semantic_file_categories_follow_filename_extension() {
    let entry = |name: &str| FileEntry {
        path: name.to_owned(),
        name: name.to_owned(),
        kind: EntryKind::File,
        size: 0,
        modified_sort_key: 0,
        remote: None,
        remote_modified: None,
    };
    assert_eq!(entry("photo.png").category(), FileCategory::Image);
    assert_eq!(entry("main.rs").category(), FileCategory::Code);
    assert_eq!(entry("sheet.xlsx").category(), FileCategory::Spreadsheet);
    assert_eq!(entry("data.json").category(), FileCategory::Json);
}

#[test]
fn virtual_path_round_trips() {
    let location = ArchiveLocation {
        archive_path: "/tmp/example archive.zip".to_owned(),
        inner_path: "日本語/with space.txt".to_owned(),
    };
    assert_eq!(parse_virtual_path(&virtual_path(&location)), Some(location));
}
