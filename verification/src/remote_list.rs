use vstd::prelude::*;
use crate::entries::{http_date_seconds, remote_modified_sort_key, remote_sort_key_of, EntryKind, FileEntry};
use crate::taildrive::{
    parse_taildrive_path, parse_taildrive_spec, taildrive_parse_panics, taildrive_path, taildrive_path_of, LocationView,
    TaildriveLocation,
};
use crate::text::{chars_of, concat_texts, decimal_chars, decimal_of, string_from_chars};

verus! {

/// One item of a TailDrive folder listing as the TailDrive service reports
/// it: its name, its path in the share, whether it is a folder, its size
/// as decimal text and its modification date as HTTP date text.
pub struct TaildriveItem {
    pub name: String,
    pub path: String,
    pub directory: bool,
    pub size: String,
    pub modified: String,
}

/// The mathematical content of a [`TaildriveItem`].
pub struct ItemView {
    pub name: Seq<char>,
    pub path: Seq<char>,
    pub directory: bool,
    pub size: Seq<char>,
    pub modified: Seq<char>,
}

impl View for TaildriveItem {
    type V = ItemView;

    open spec fn view(&self) -> ItemView {
        ItemView {
            name: self.name@,
            path: self.path@,
            directory: self.directory,
            size: self.size@,
            modified: self.modified@,
        }
    }
}

/// Whether a character is an ASCII decimal digit.
pub open spec fn is_digit(c: char) -> bool {
    '0' <= c && c <= '9'
}

/// The value of a string of decimal digits.
pub open spec fn digits_value(s: Seq<char>) -> nat
    decreases s.len(),
{
    if s.len() == 0 {
        0
    } else {
        digits_value(s.drop_last()) * 10 + ((s.last() as int) - 48) as nat
    }
}

/// A text without its leading `+`, if it has one.
pub open spec fn unsigned_digits(s: Seq<char>) -> Seq<char> {
    if s.len() > 0 && s[0] == '+' {
        s.skip(1)
    } else {
        s
    }
}

/// Whether every character is a decimal digit.
pub open spec fn all_digits(s: Seq<char>) -> bool {
    forall|k: int| 0 <= k < s.len() ==> is_digit(#[trigger] s[k])
}

/// What `str::parse::<u64>` gives for a text: an optional `+`, then at
/// least one decimal digit and nothing else, of a value that fits in 64
/// bits.
pub open spec fn parsed_u64(s: Seq<char>) -> Option<u64> {
    let digits = unsigned_digits(s);
    if digits.len() > 0 && all_digits(digits) && digits_value(digits) <= u64::MAX {
        Some(digits_value(digits) as u64)
    } else {
        None
    }
}

/// The size a listing reports for an item: its size text read as a
/// number, zero when it is not one.
pub open spec fn item_size(s: Seq<char>) -> u64 {
    match parsed_u64(s) {
        Some(v) => v,
        None => 0,
    }
}

proof fn lemma_digits_step(s: Seq<char>, c: char)
    ensures
        digits_value(s.push(c)) == digits_value(s) * 10 + ((c as int) - 48) as nat,
{
    assert(s.push(c).drop_last() =~= s);
}

/// Reads a text as an unsigned 64-bit number, as `str::parse::<u64>` does.
pub fn parse_u64_text(text: &str) -> (r: Option<u64>)
    ensures
        r == parsed_u64(text@),
{
    let cs = chars_of(text);
    let start: usize = if cs.len() > 0 && cs[0] == '+' {
        1
    } else {
        0
    };
    let ghost digits = cs@.skip(start as int);
    assert(digits =~= unsigned_digits(cs@));
    if start >= cs.len() {
        return None;
    }
    let limit: u128 = 0x1_0000_0000_0000_0000;
    let mut acc: u128 = 0;
    let mut i: usize = start;
    assert(cs@.subrange(start as int, start as int) =~= Seq::<char>::empty());
    while i < cs.len()
        invariant
            start <= i <= cs@.len(),
            cs@ == text@,
            digits == cs@.skip(start as int),
            digits == unsigned_digits(cs@),
            limit == 0x1_0000_0000_0000_0000u128,
            forall|k: int| start <= k < i ==> is_digit(#[trigger] cs@[k]),
            acc == if digits_value(cs@.subrange(start as int, i as int)) < limit {
                digits_value(cs@.subrange(start as int, i as int))
            } else {
                limit as nat
            },
        decreases cs@.len() - i,
    {
        let c = cs[i];
        if !('0' <= c && c <= '9') {
            proof {
                let k = i - start;
                assert(digits[k] == c);
                assert(!is_digit(digits[k]));
                assert(!all_digits(digits));
            }
            return None;
        }
        let d = (c as u32 - 48) as u128;
        proof {
            assert(cs@.subrange(start as int, i + 1) =~= cs@.subrange(start as int, i as int).push(c));
            lemma_digits_step(cs@.subrange(start as int, i as int), c);
        }
        let next = acc * 10 + d;
        acc = if next >= limit {
            limit
        } else {
            next
        };
        i = i + 1;
    }
    assert(cs@.subrange(start as int, cs@.len() as int) =~= digits);
    assert(all_digits(digits)) by {
        assert forall|k: int| 0 <= k < digits.len() implies is_digit(#[trigger] digits[k]) by {
            assert(digits[k] == cs@[k + start]);
        }
    }
    if acc >= limit {
        None
    } else {
        Some(acc as u64)
    }
}

/// The location of a listed item in the share `share` of the device
/// `device` of the tailnet profile `profile`.
pub open spec fn item_location(profile: Seq<char>, device: Seq<char>, share: Seq<char>, item: ItemView) -> LocationView {
    LocationView::Remote(profile, device, share, item.path)
}

/// Whether `e` is the listing entry of the item: named as it, at its
/// TailDrive path, a folder when the item is one, with the size and
/// modification key its texts give and its date text kept when there is
/// one.
pub open spec fn listed_entry(e: FileEntry, item: ItemView, profile: Seq<char>, device: Seq<char>, share: Seq<char>) -> bool {
    let loc = item_location(profile, device, share, item);
    &&& e.path@ == taildrive_path_of(loc)
    &&& e.name@ == item.name
    &&& e.kind == (if item.directory {
        EntryKind::Directory
    } else {
        EntryKind::File
    })
    &&& e.size == item_size(item.size)
    &&& e.modified_sort_key == remote_sort_key_of(http_date_seconds(item.modified))
    &&& e.remote matches Some(l) && l@ == loc
    &&& match e.remote_modified {
        Some(m) => item.modified.len() > 0 && m@ == item.modified,
        None => item.modified.len() == 0,
    }
}

/// Builds the listing entry of one TailDrive item.
pub fn taildrive_list_entry(item: &TaildriveItem, profile_id: &str, device_id: &str, share: &str) -> (e: FileEntry)
    ensures
        listed_entry(e, item@, profile_id@, device_id@, share@),
{
    let remote = TaildriveLocation::Remote {
        profile_id: profile_id.to_owned(),
        device_id: device_id.to_owned(),
        share: share.to_owned(),
        remote_path: item.path.clone(),
    };
    let path = taildrive_path(&remote);
    let modified_sort_key = remote_modified_sort_key(item.modified.as_str());
    let size = match parse_u64_text(item.size.as_str()) {
        Some(v) => v,
        None => 0,
    };
    let remote_modified = if item.modified.as_str().is_empty() {
        None
    } else {
        Some(item.modified.clone())
    };
    FileEntry {
        path,
        name: item.name.clone(),
        kind: if item.directory {
            EntryKind::Directory
        } else {
            EntryKind::File
        },
        size,
        modified_sort_key,
        remote: Some(remote),
        remote_modified,
    }
}

/// Whether a listing shows an item: one whose name starts with `.` is
/// hidden unless hidden entries are shown.
pub open spec fn shows_item(item: ItemView, show_hidden: bool) -> bool {
    show_hidden || !(item.name.len() > 0 && item.name[0] == '.')
}

/// The items a listing shows, in the order they came.
pub open spec fn shown_items(items: Seq<ItemView>, show_hidden: bool) -> Seq<ItemView>
    decreases items.len(),
{
    if items.len() == 0 {
        Seq::empty()
    } else if shows_item(items.last(), show_hidden) {
        shown_items(items.drop_last(), show_hidden).push(items.last())
    } else {
        shown_items(items.drop_last(), show_hidden)
    }
}

/// The views of a list of items.
pub open spec fn item_views(items: Seq<TaildriveItem>) -> Seq<ItemView> {
    items.map_values(|t: TaildriveItem| t@)
}

fn is_hidden_name(name: &str) -> (r: bool)
    ensures
        r == (name@.len() > 0 && name@[0] == '.'),
{
    let cs = chars_of(name);
    cs.len() > 0 && cs[0] == '.'
}

/// Builds the listing of a TailDrive folder of the share `share` of the
/// device `device_id` of the profile `profile_id`: one entry per shown
/// item (see `shows_item`), in the order the items came.
pub fn taildrive_list_entries(
    items: &Vec<TaildriveItem>,
    profile_id: &str,
    device_id: &str,
    share: &str,
    show_hidden: bool,
) -> (r: Vec<FileEntry>)
    ensures
        r@.len() == shown_items(item_views(items@), show_hidden).len(),
        forall|k: int|
            0 <= k < r@.len() ==> listed_entry(
                #[trigger] r@[k],
                shown_items(item_views(items@), show_hidden)[k],
                profile_id@,
                device_id@,
                share@,
            ),
{
    let ghost all = item_views(items@);
    let mut r: Vec<FileEntry> = Vec::new();
    assert(all.take(0) =~= Seq::<ItemView>::empty());
    for i in 0..items.len()
        invariant
            all == item_views(items@),
            r@.len() == shown_items(all.take(i as int), show_hidden).len(),
            forall|k: int|
                0 <= k < r@.len() ==> listed_entry(
                    #[trigger] r@[k],
                    shown_items(all.take(i as int), show_hidden)[k],
                    profile_id@,
                    device_id@,
                    share@,
                ),
    {
        let item = &items[i];
        proof {
            assert(all.take(i + 1).drop_last() =~= all.take(i as int));
            assert(all.take(i + 1).last() == item@);
        }
        if show_hidden || !is_hidden_name(item.name.as_str()) {
            let e = taildrive_list_entry(item, profile_id, device_id, share);
            r.push(e);
        }
    }
    assert(all.take(items@.len() as int) =~= all);
    r
}

/// What a status report of a tailnet profile says about it.
#[derive(Clone, Copy)]
pub struct ProfileFlags {
    pub running: bool,
    pub service_ready: bool,
    pub scanning: bool,
}

/// Whether a status report brought TailDrive closer to working: the
/// profile started running, its service became ready, a device scan
/// finished, or the devices or their shares changed.
pub open spec fn status_transition(before: ProfileFlags, after: ProfileFlags, devices_changed: bool) -> bool {
    (!before.running && after.running) || (!before.service_ready && after.service_ready) || (before.scanning
        && !after.scanning) || devices_changed
}

/// Whether a TailDrive location belongs to the profile `profile_id`: the
/// root belongs to every profile.
pub open spec fn location_of_profile(loc: LocationView, profile_id: Seq<char>) -> bool {
    match loc {
        LocationView::Root => true,
        LocationView::Profile(p) => p == profile_id,
        LocationView::Device(p, _) => p == profile_id,
        LocationView::Remote(p, _, _, _) => p == profile_id,
    }
}

/// The TailDrive location to list again after a status report of the
/// profile `profile_id`, when the folder `current` shows one of its
/// locations: a share folder only when the report brought TailDrive closer
/// to working, any other location always.
pub open spec fn status_reload(current: Seq<char>, profile_id: Seq<char>, transition: bool) -> Option<LocationView> {
    match parse_taildrive_spec(current) {
        Some(loc) => if location_of_profile(loc, profile_id) && (!(loc is Remote) || transition) {
            Some(loc)
        } else {
            None
        },
        None => None,
    }
}

/// Decides which TailDrive location to list again after a status report
/// of the profile `profile_id` moved it from `before` to `after` (see
/// `status_reload`).
pub fn status_reload_location(
    current_dir: &str,
    profile_id: &str,
    before: ProfileFlags,
    after: ProfileFlags,
    devices_changed: bool,
) -> (r: Option<TaildriveLocation>)
    requires
        !taildrive_parse_panics(current_dir@),
    ensures
        match status_reload(current_dir@, profile_id@, status_transition(before, after, devices_changed)) {
            Some(loc) => r matches Some(l) && l@ == loc,
            None => r is None,
        },
{
    let transition = (!before.running && after.running) || (!before.service_ready && after.service_ready) || (
    before.scanning && !after.scanning) || devices_changed;
    let location = match parse_taildrive_path(current_dir) {
        Some(l) => l,
        None => {
            return None;
        },
    };
    let (mine, remote) = match &location {
        TaildriveLocation::Root => (true, false),
        TaildriveLocation::Profile { profile_id: p } => (same_str(p.as_str(), profile_id), false),
        TaildriveLocation::Device { profile_id: p, .. } => (same_str(p.as_str(), profile_id), false),
        TaildriveLocation::Remote { profile_id: p, .. } => (same_str(p.as_str(), profile_id), true),
    };
    if mine && (!remote || transition) {
        Some(location)
    } else {
        None
    }
}

fn same_str(a: &str, b: &str) -> (r: bool)
    ensures
        r == (a@ == b@),
{
    crate::text::same_text(a, b)
}

/// What a ping of a tailnet peer answered: whether it got through, the
/// peer's DNS name and host name when it is known, the round trip in
/// milliseconds, and the error when it did not get through.
pub struct PingReply {
    pub ok: bool,
    pub remote: Option<(String, String)>,
    pub latency_ms: i64,
    pub error: String,
}

/// The name a ping reply shows for the peer: its DNS name, else its host
/// name, else the label it was pinged by.
pub open spec fn ping_peer_name(label: Seq<char>, reply: PingReply) -> Seq<char> {
    match reply.remote {
        Some((dns, host)) => if dns@.len() == 0 {
            host@
        } else {
            dns@
        },
        None => label,
    }
}

/// The line a profile shows after pinging the peer `label`.
pub open spec fn ping_status_of(label: Seq<char>, result: Result<PingReply, String>) -> Seq<char> {
    match result {
        Ok(reply) => if reply.ok {
            label + ": reached "@ + ping_peer_name(label, reply) + " in "@ + decimal_of(
                if reply.latency_ms < 0 {
                    0nat
                } else {
                    reply.latency_ms as nat
                },
            ) + " ms"@
        } else {
            label + ": "@ + reply.error@
        },
        Err(e) => label + ": "@ + e@,
    }
}

/// Writes the line a profile shows after pinging the peer `label` (see
/// `ping_status_of`).
pub fn ping_status_text(label: &str, result: Result<PingReply, String>) -> (r: String)
    ensures
        r@ == ping_status_of(label@, result),
{
    let head = concat_texts(label, ": ");
    match result {
        Ok(reply) => if reply.ok {
            let peer: &str = match &reply.remote {
                Some((dns, host)) => if dns.as_str().is_empty() {
                    host.as_str()
                } else {
                    dns.as_str()
                },
                None => label,
            };
            let ms: u128 = if reply.latency_ms < 0 {
                0
            } else {
                reply.latency_ms as u128
            };
            let count = string_from_chars(decimal_chars(ms).as_slice());
            let a = concat_texts(label, ": reached ");
            let b = concat_texts(a.as_str(), peer);
            let c = concat_texts(b.as_str(), " in ");
            let d = concat_texts(c.as_str(), count.as_str());
            concat_texts(d.as_str(), " ms")
        } else {
            concat_texts(head.as_str(), reply.error.as_str())
        },
        Err(e) => concat_texts(head.as_str(), e.as_str()),
    }
}

/// Whether `e` is the folder entry named `name` that stands for the
/// TailDrive location `loc`.
pub open spec fn location_entry(e: FileEntry, loc: LocationView, name: Seq<char>) -> bool {
    &&& e.path@ == taildrive_path_of(loc)
    &&& e.name@ == name
    &&& e.kind == EntryKind::Directory
    &&& e.size == 0
    &&& e.modified_sort_key == 0
    &&& e.remote matches Some(l) && l@ == loc
    &&& e.remote_modified is None
}

/// Builds the folder entry named `name` for a TailDrive location.
pub fn location_folder_entry(location: TaildriveLocation, name: String) -> (e: FileEntry)
    ensures
        location_entry(e, location@, name@),
{
    let path = taildrive_path(&location);
    FileEntry {
        path,
        name,
        kind: EntryKind::Directory,
        size: 0,
        modified_sort_key: 0,
        remote: Some(location),
        remote_modified: None,
    }
}

/// Lists the tailnet profiles at the TailDrive root: one folder per
/// profile, given as its id and its label, named by the label.
pub fn tailnet_entries(profiles: &Vec<(String, String)>) -> (r: Vec<FileEntry>)
    ensures
        r@.len() == profiles@.len(),
        forall|k: int|
            0 <= k < r@.len() ==> location_entry(
                #[trigger] r@[k],
                LocationView::Profile(profiles@[k].0@),
                profiles@[k].1@,
            ),
{
    let mut r: Vec<FileEntry> = Vec::new();
    for i in 0..profiles.len()
        invariant
            r@.len() == i,
            forall|k: int|
                0 <= k < i ==> location_entry(
                    #[trigger] r@[k],
                    LocationView::Profile(profiles@[k].0@),
                    profiles@[k].1@,
                ),
    {
        let loc = TaildriveLocation::Profile { profile_id: profiles[i].0.clone() };
        r.push(location_folder_entry(loc, profiles[i].1.clone()));
    }
    r
}

/// Lists the TailDrive devices of the profile `profile_id`: one folder per
/// device, given as its id and the name it is shown by.
pub fn device_entries(profile_id: &str, devices: &Vec<(String, String)>) -> (r: Vec<FileEntry>)
    ensures
        r@.len() == devices@.len(),
        forall|k: int|
            0 <= k < r@.len() ==> location_entry(
                #[trigger] r@[k],
                LocationView::Device(profile_id@, devices@[k].0@),
                devices@[k].1@,
            ),
{
    let mut r: Vec<FileEntry> = Vec::new();
    for i in 0..devices.len()
        invariant
            r@.len() == i,
            forall|k: int|
                0 <= k < i ==> location_entry(
                    #[trigger] r@[k],
                    LocationView::Device(profile_id@, devices@[k].0@),
                    devices@[k].1@,
                ),
    {
        let loc = TaildriveLocation::Device { profile_id: profile_id.to_owned(), device_id: devices[i].0.clone() };
        r.push(location_folder_entry(loc, devices[i].1.clone()));
    }
    r
}

/// Lists the shares of the device `device_id` of the profile
/// `profile_id`: one folder per share, at the top of the share.
pub fn share_entries(profile_id: &str, device_id: &str, shares: &Vec<String>) -> (r: Vec<FileEntry>)
    ensures
        r@.len() == shares@.len(),
        forall|k: int|
            0 <= k < r@.len() ==> location_entry(
                #[trigger] r@[k],
                LocationView::Remote(profile_id@, device_id@, shares@[k]@, Seq::empty()),
                shares@[k]@,
            ),
{
    let mut r: Vec<FileEntry> = Vec::new();
    for i in 0..shares.len()
        invariant
            r@.len() == i,
            forall|k: int|
                0 <= k < i ==> location_entry(
                    #[trigger] r@[k],
                    LocationView::Remote(profile_id@, device_id@, shares@[k]@, Seq::empty()),
                    shares@[k]@,
                ),
    {
        let loc = TaildriveLocation::Remote {
            profile_id: profile_id.to_owned(),
            device_id: device_id.to_owned(),
            share: shares[i].clone(),
            remote_path: String::new(),
        };
        r.push(location_folder_entry(loc, shares[i].clone()));
    }
    r
}

fn count_text(n: usize, noun: &str) -> (r: String)
    ensures
        r@ == decimal_of(n as nat) + noun@,
{
    let count = string_from_chars(decimal_chars(n as u128).as_slice());
    concat_texts(count.as_str(), noun)
}

/// The status line at the TailDrive root listing `count` tailnets.
pub open spec fn tailnets_status_of(count: nat) -> Seq<char> {
    if count == 0 {
        "No Tailnets configured"@
    } else {
        decimal_of(count) + " Tailnet(s)"@
    }
}

/// Writes the status line at the TailDrive root (see `tailnets_status_of`).
pub fn tailnets_status(count: usize) -> (r: String)
    ensures
        r@ == tailnets_status_of(count as nat),
{
    if count == 0 {
        "No Tailnets configured".to_owned()
    } else {
        count_text(count, " Tailnet(s)")
    }
}

/// The status line of a profile folder listing `count` devices, given
/// whether the profile runs with its service ready, whether it is scanning
/// for devices, and the last TailDrive error it reported.
pub open spec fn devices_status_of(count: nat, ready: bool, scanning: bool, error: Seq<char>) -> Seq<char> {
    if count > 0 {
        decimal_of(count) + " TailDrive device(s)"@
    } else if !ready {
        "Connecting to TailDrive…"@
    } else if scanning {
        "Scanning TailDrive devices…"@
    } else if error.len() > 0 {
        "TailDrive: "@ + error
    } else {
        "No TailDrive devices found"@
    }
}

/// Writes the status line of a profile folder (see `devices_status_of`).
pub fn devices_status(count: usize, ready: bool, scanning: bool, error: &str) -> (r: String)
    ensures
        r@ == devices_status_of(count as nat, ready, scanning, error@),
{
    if count > 0 {
        count_text(count, " TailDrive device(s)")
    } else if !ready {
        "Connecting to TailDrive…".to_owned()
    } else if scanning {
        "Scanning TailDrive devices…".to_owned()
    } else if !error.is_empty() {
        concat_texts("TailDrive: ", error)
    } else {
        "No TailDrive devices found".to_owned()
    }
}

/// The status line of a device folder listing `count` shares.
pub open spec fn shares_status_of(count: nat) -> Seq<char> {
    if count == 0 {
        "This device has no accessible TailDrive shares"@
    } else {
        decimal_of(count) + " TailDrive share(s)"@
    }
}

/// Writes the status line of a device folder (see `shares_status_of`).
pub fn shares_status(count: usize) -> (r: String)
    ensures
        r@ == shares_status_of(count as nat),
{
    if count == 0 {
        "This device has no accessible TailDrive shares".to_owned()
    } else {
        count_text(count, " TailDrive share(s)")
    }
}

/// The status line of a device folder whose device is not known: still
/// connecting, or gone.
pub open spec fn missing_device_status_of(reconnecting: bool) -> Seq<char> {
    if reconnecting {
        "Connecting to TailDrive…"@
    } else {
        "TailDrive device is unavailable"@
    }
}

/// Writes the status line of a device folder whose device is not known.
pub fn missing_device_status(reconnecting: bool) -> (r: String)
    ensures
        r@ == missing_device_status_of(reconnecting),
{
    if reconnecting {
        "Connecting to TailDrive…".to_owned()
    } else {
        "TailDrive device is unavailable".to_owned()
    }
}

/// The status line of a share folder while its listing is asked for,
/// showing `cached` entries from the cache, given whether the TailDrive
/// worker is there to ask.
pub open spec fn remote_loading_status_of(cached: nat, worker_ready: bool) -> Seq<char> {
    if worker_ready {
        if cached == 0 {
            "Connecting to TailDrive…"@
        } else {
            "Reconnecting to TailDrive… Showing "@ + decimal_of(cached) + " cached item(s)."@
        }
    } else if cached == 0 {
        "TailDrive worker is starting…"@
    } else {
        "TailDrive worker is starting… Showing "@ + decimal_of(cached) + " cached item(s)."@
    }
}

/// Writes the status line of a share folder while it loads (see
/// `remote_loading_status_of`).
pub fn remote_loading_status(cached: usize, worker_ready: bool) -> (r: String)
    ensures
        r@ == remote_loading_status_of(cached as nat, worker_ready),
{
    let count = string_from_chars(decimal_chars(cached as u128).as_slice());
    if worker_ready {
        if cached == 0 {
            "Connecting to TailDrive…".to_owned()
        } else {
            let a = concat_texts("Reconnecting to TailDrive… Showing ", count.as_str());
            concat_texts(a.as_str(), " cached item(s).")
        }
    } else if cached == 0 {
        "TailDrive worker is starting…".to_owned()
    } else {
        let a = concat_texts("TailDrive worker is starting… Showing ", count.as_str());
        concat_texts(a.as_str(), " cached item(s).")
    }
}

/// Whether a TailDrive listing still belongs in the tab: it answers the
/// latest request (`generation` is the current one) and the tab still
/// shows the folder `path` of the share `share` of device `device_id` of
/// profile `profile_id`.
pub fn listing_is_current(
    generation: u64,
    current_generation: u64,
    current_dir: &str,
    profile_id: &str,
    device_id: &str,
    share: &str,
    path: &str,
) -> (r: bool)
    requires
        !taildrive_parse_panics(current_dir@),
    ensures
        r == (generation == current_generation && parse_taildrive_spec(current_dir@) == Some(
            LocationView::Remote(profile_id@, device_id@, share@, path@),
        )),
{
    if generation != current_generation {
        return false;
    }
    match parse_taildrive_path(current_dir) {
        Some(TaildriveLocation::Remote { profile_id: p, device_id: d, share: s, remote_path: rp }) => {
            same_str(p.as_str(), profile_id) && same_str(d.as_str(), device_id) && same_str(s.as_str(), share)
                && same_str(rp.as_str(), path)
        },
        _ => false,
    }
}

/// The line a profile shows after its node was asked to stop: it keeps
/// its identity, or the stop failed.
pub open spec fn disconnect_status_of(result: Result<(), String>) -> Seq<char> {
    match result {
        Ok(_) => "Disconnected; identity preserved"@,
        Err(e) => "Tailscale disconnect failed: "@ + e@,
    }
}

/// Writes the line a profile shows after its node was asked to stop.
pub fn disconnect_status(result: Result<(), String>) -> (r: String)
    ensures
        r@ == disconnect_status_of(result),
{
    match result {
        Ok(()) => "Disconnected; identity preserved".to_owned(),
        Err(e) => concat_texts("Tailscale disconnect failed: ", e.as_str()),
    }
}

/// The line a profile shows after signing out of Tailscale.
pub open spec fn sign_out_status_of(result: Result<(), String>) -> Seq<char> {
    match result {
        Ok(_) => "Signed out of Tailscale"@,
        Err(e) => "Tailscale sign-out failed: "@ + e@,
    }
}

/// Writes the line a profile shows after signing out of Tailscale.
pub fn sign_out_status(result: Result<(), String>) -> (r: String)
    ensures
        r@ == sign_out_status_of(result),
{
    match result {
        Ok(()) => "Signed out of Tailscale".to_owned(),
        Err(e) => concat_texts("Tailscale sign-out failed: ", e.as_str()),
    }
}

/// An item of a TailDrive folder as the directory cache keeps it: its
/// size already read as a number.
pub struct CachedTaildriveEntry {
    pub name: String,
    pub remote_path: String,
    pub directory: bool,
    pub size: u64,
    pub modified: String,
}

/// What the directory cache keeps of a listed item.
pub fn cache_record(item: &TaildriveItem) -> (r: CachedTaildriveEntry)
    ensures
        r.name@ == item.name@,
        r.remote_path@ == item.path@,
        r.directory == item.directory,
        r.size == item_size(item.size@),
        r.modified@ == item.modified@,
{
    CachedTaildriveEntry {
        name: item.name.clone(),
        remote_path: item.path.clone(),
        directory: item.directory,
        size: match parse_u64_text(item.size.as_str()) {
            Some(v) => v,
            None => 0,
        },
        modified: item.modified.clone(),
    }
}

/// Whether `e` is the listing entry of a cached item: like a listed one,
/// but with no date text kept, as a cached date proves nothing about the
/// remote file now.
pub open spec fn cached_listing_entry(e: FileEntry, c: CachedTaildriveEntry, profile: Seq<char>, device: Seq<char>, share: Seq<char>) -> bool {
    let loc = LocationView::Remote(profile, device, share, c.remote_path@);
    &&& e.path@ == taildrive_path_of(loc)
    &&& e.name@ == c.name@
    &&& e.kind == (if c.directory {
        EntryKind::Directory
    } else {
        EntryKind::File
    })
    &&& e.size == c.size
    &&& e.modified_sort_key == remote_sort_key_of(http_date_seconds(c.modified@))
    &&& e.remote matches Some(l) && l@ == loc
    &&& e.remote_modified is None
}

/// The cached items a listing shows, in order: hidden ones only when
/// hidden entries are shown.
pub open spec fn shown_cached(items: Seq<CachedTaildriveEntry>, show_hidden: bool) -> Seq<CachedTaildriveEntry>
    decreases items.len(),
{
    if items.len() == 0 {
        Seq::empty()
    } else if show_hidden || !(items.last().name@.len() > 0 && items.last().name@[0] == '.') {
        shown_cached(items.drop_last(), show_hidden).push(items.last())
    } else {
        shown_cached(items.drop_last(), show_hidden)
    }
}

/// Builds the listing of a TailDrive share folder from the directory
/// cache: one entry per shown cached item (see `cached_listing_entry`).
pub fn cached_list_entries(
    items: &Vec<CachedTaildriveEntry>,
    profile_id: &str,
    device_id: &str,
    share: &str,
    show_hidden: bool,
) -> (r: Vec<FileEntry>)
    ensures
        r@.len() == shown_cached(items@, show_hidden).len(),
        forall|k: int|
            0 <= k < r@.len() ==> cached_listing_entry(
                #[trigger] r@[k],
                shown_cached(items@, show_hidden)[k],
                profile_id@,
                device_id@,
                share@,
            ),
{
    let mut r: Vec<FileEntry> = Vec::new();
    assert(items@.take(0) =~= Seq::<CachedTaildriveEntry>::empty());
    for i in 0..items.len()
        invariant
            r@.len() == shown_cached(items@.take(i as int), show_hidden).len(),
            forall|k: int|
                0 <= k < r@.len() ==> cached_listing_entry(
                    #[trigger] r@[k],
                    shown_cached(items@.take(i as int), show_hidden)[k],
                    profile_id@,
                    device_id@,
                    share@,
                ),
    {
        let c = &items[i];
        proof {
            assert(items@.take(i + 1).drop_last() =~= items@.take(i as int));
            assert(items@.take(i + 1).last() == items@[i as int]);
        }
        if show_hidden || !is_hidden_name(c.name.as_str()) {
            let remote = TaildriveLocation::Remote {
                profile_id: profile_id.to_owned(),
                device_id: device_id.to_owned(),
                share: share.to_owned(),
                remote_path: c.remote_path.clone(),
            };
            let path = taildrive_path(&remote);
            let key = remote_modified_sort_key(c.modified.as_str());
            r.push(FileEntry {
                path,
                name: c.name.clone(),
                kind: if c.directory {
                    EntryKind::Directory
                } else {
                    EntryKind::File
                },
                size: c.size,
                modified_sort_key: key,
                remote: Some(remote),
                remote_modified: None,
            });
        }
    }
    assert(items@.take(items@.len() as int) =~= items@);
    r
}

} // verus!
