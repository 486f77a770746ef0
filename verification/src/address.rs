use vstd::prelude::*;
use crate::taildrive::{parse_taildrive_display_path, parse_taildrive_display_spec, LocationView, TaildriveLocation};
use crate::text::{
    backslash_to_slash, chars_eq_ignore_ascii_case, chars_of, eq_ignore_ascii_case, keep_nonempty, segments,
    slashes_for_backslashes, split_chars, trim, trim_chars,
};

verus! {

/// A TailDrive device as a profile's status reports it: its id and the
/// names it answers to.
pub struct DeviceAliases {
    pub id: String,
    pub hostname: String,
    pub dns_name: String,
    pub target: String,
}

/// What a typed TailDrive address may call a tailnet profile and its
/// devices: the profile's id, label and tailnet path; each device's id and
/// path name (`path_names`); the devices its status reports; the ids of the
/// devices it has names configured for, in order; and the ids, in order, of
/// other devices that open tabs remember, with the names they are shown by.
pub struct ProfileAliases {
    pub id: String,
    pub label: String,
    pub tailnet_path: String,
    pub path_names: Vec<(String, String)>,
    pub devices: Vec<DeviceAliases>,
    pub configured_devices: Vec<String>,
    pub remembered: Vec<(String, String)>,
}

/// ASCII case-insensitive equality of two texts.
pub open spec fn same_ci(a: Seq<char>, b: Seq<char>) -> bool {
    eq_ignore_ascii_case(a, b)
}

fn same_ci_exec(a: &str, b: &[char]) -> (r: bool)
    ensures
        r == same_ci(a@, b@),
{
    let ca = chars_of(a);
    chars_eq_ignore_ascii_case(ca.as_slice(), b)
}

/// The id of the first profile whose tailnet path is `v`.
pub open spec fn profile_by_path(ps: Seq<ProfileAliases>, v: Seq<char>) -> Option<Seq<char>>
    decreases ps.len(),
{
    if ps.len() == 0 {
        None
    } else if same_ci(ps[0].tailnet_path@, v) {
        Some(ps[0].id@)
    } else {
        profile_by_path(ps.skip(1), v)
    }
}

/// The id of the first profile whose id or label is `v`.
pub open spec fn profile_by_name(ps: Seq<ProfileAliases>, v: Seq<char>) -> Option<Seq<char>>
    decreases ps.len(),
{
    if ps.len() == 0 {
        None
    } else if same_ci(ps[0].id@, v) || same_ci(ps[0].label@, v) {
        Some(ps[0].id@)
    } else {
        profile_by_name(ps.skip(1), v)
    }
}

/// The id of the first profile whose id is `v`.
pub open spec fn profile_by_id(ps: Seq<ProfileAliases>, v: Seq<char>) -> Option<Seq<char>>
    decreases ps.len(),
{
    if ps.len() == 0 {
        None
    } else if same_ci(ps[0].id@, v) {
        Some(ps[0].id@)
    } else {
        profile_by_id(ps.skip(1), v)
    }
}

/// The index of the profile with exactly the id `id`.
pub open spec fn profile_index(ps: Seq<ProfileAliases>, id: Seq<char>) -> Option<int>
    decreases ps.len(),
{
    if ps.len() == 0 {
        None
    } else if ps[0].id@ == id {
        Some(0)
    } else {
        match profile_index(ps.skip(1), id) {
            Some(k) => Some(k + 1),
            None => None,
        }
    }
}

/// The first of two answers that is there.
pub open spec fn either<A>(a: Option<A>, b: Option<A>) -> Option<A> {
    match a {
        Some(x) => Some(x),
        None => b,
    }
}

/// The profile a typed name stands for: first by tailnet path, then by id
/// or label.
pub open spec fn resolve_profile(ps: Seq<ProfileAliases>, v: Seq<char>) -> Option<Seq<char>> {
    either(profile_by_path(ps, v), profile_by_name(ps, v))
}

/// The id of the first device whose path name is `v`.
pub open spec fn device_by_path_name(names: Seq<(String, String)>, v: Seq<char>) -> Option<Seq<char>>
    decreases names.len(),
{
    if names.len() == 0 {
        None
    } else if same_ci(names[0].1@, v) {
        Some(names[0].0@)
    } else {
        device_by_path_name(names.skip(1), v)
    }
}

/// The id of the first reported device that answers to `v`; with
/// `ids_only`, only by its id.
pub open spec fn device_by_alias(ds: Seq<DeviceAliases>, v: Seq<char>, ids_only: bool) -> Option<Seq<char>>
    decreases ds.len(),
{
    if ds.len() == 0 {
        None
    } else if same_ci(ds[0].id@, v) || (!ids_only && (same_ci(ds[0].hostname@, v) || same_ci(ds[0].dns_name@, v)
        || same_ci(ds[0].target@, v))) {
        Some(ds[0].id@)
    } else {
        device_by_alias(ds.skip(1), v, ids_only)
    }
}

/// The first of the ids that is `v`.
pub open spec fn id_named(ids: Seq<String>, v: Seq<char>) -> Option<Seq<char>>
    decreases ids.len(),
{
    if ids.len() == 0 {
        None
    } else if same_ci(ids[0]@, v) {
        Some(ids[0]@)
    } else {
        id_named(ids.skip(1), v)
    }
}

/// The device of the profile `profile_id` that a typed name stands for:
/// by path name, then by a reported device's id, host name, DNS name or
/// target, then by a configured device id, then by the name of a
/// remembered device.
pub open spec fn resolve_device(ps: Seq<ProfileAliases>, profile_id: Seq<char>, v: Seq<char>) -> Option<Seq<char>> {
    match profile_index(ps, profile_id) {
        None => None,
        Some(k) => {
            let p = ps[k];
            either(
                device_by_path_name(p.path_names@, v),
                either(
                    device_by_alias(p.devices@, v, false),
                    either(id_named(p.configured_devices@, v), device_by_path_name(p.remembered@, v)),
                ),
            )
        },
    }
}

/// In a `TailDrive/…` address, the device a typed name stands for: a
/// reported device or a configured one with that id first.
pub open spec fn legacy_device(ps: Seq<ProfileAliases>, profile_id: Seq<char>, v: Seq<char>) -> Option<Seq<char>> {
    match profile_index(ps, profile_id) {
        None => None,
        Some(k) => either(device_by_alias(ps[k].devices@, v, true), id_named(ps[k].configured_devices@, v)),
    }
}

/// Whether a typed address uses the long root name `TailDrive`.
pub open spec fn legacy_address(value: Seq<char>) -> bool {
    let c = segments(backslash_to_slash(trim(value)), '/');
    c.len() > 0 && same_ci(c[0], "TailDrive"@)
}

/// The profile id an address names: under `TailDrive`, a profile id first
/// and the typed text itself last; under `TD`, only a profile that the
/// text stands for.
pub open spec fn address_profile(ps: Seq<ProfileAliases>, legacy: bool, v: Seq<char>) -> Option<Seq<char>> {
    if legacy {
        Some(
            match either(profile_by_id(ps, v), resolve_profile(ps, v)) {
                Some(x) => x,
                None => v,
            },
        )
    } else {
        resolve_profile(ps, v)
    }
}

/// The device id an address names, in the same way.
pub open spec fn address_device(ps: Seq<ProfileAliases>, legacy: bool, profile_id: Seq<char>, v: Seq<char>) -> Option<
    Seq<char>,
> {
    if legacy {
        Some(
            match either(legacy_device(ps, profile_id, v), resolve_device(ps, profile_id, v)) {
                Some(x) => x,
                None => v,
            },
        )
    } else {
        resolve_device(ps, profile_id, v)
    }
}

/// The TailDrive location a typed address stands for: its shape is read as
/// `parse_taildrive_display_spec` reads it, and the profile and device
/// names are resolved against what the profiles are called.
pub open spec fn resolved_address(value: Seq<char>, ps: Seq<ProfileAliases>) -> Option<LocationView> {
    let legacy = legacy_address(value);
    match parse_taildrive_display_spec(value) {
        None => None,
        Some(LocationView::Root) => Some(LocationView::Root),
        Some(LocationView::Profile(pc)) => match address_profile(ps, legacy, pc) {
            Some(p) => Some(LocationView::Profile(p)),
            None => None,
        },
        Some(LocationView::Device(pc, dc)) => match address_profile(ps, legacy, pc) {
            Some(p) => match address_device(ps, legacy, p, dc) {
                Some(d) => Some(LocationView::Device(p, d)),
                None => None,
            },
            None => None,
        },
        Some(LocationView::Remote(pc, dc, s, r)) => match address_profile(ps, legacy, pc) {
            Some(p) => match address_device(ps, legacy, p, dc) {
                Some(d) => Some(LocationView::Remote(p, d, s, r)),
                None => None,
            },
            None => None,
        },
    }
}

fn find_profile_by_path(ps: &Vec<ProfileAliases>, v: &[char]) -> (r: Option<String>)
    ensures
        opt_view(r) == profile_by_path(ps@, v@),
{
    let ghost s = ps@;
    let mut i: usize = 0;
    assert(s.skip(0) == s);
    while i < ps.len()
        invariant
            i <= s.len(),
            s == ps@,
            profile_by_path(s, v@) == profile_by_path(s.skip(i as int), v@),
        decreases s.len() - i,
    {
        assert(s.skip(i as int)[0] == s[i as int]);
        assert(s.skip(i as int).skip(1) == s.skip(i + 1));
        if same_ci_exec(ps[i].tailnet_path.as_str(), v) {
            return Some(ps[i].id.clone());
        }
        i = i + 1;
    }
    None
}

fn find_profile_by_name(ps: &Vec<ProfileAliases>, v: &[char], ids_only: bool) -> (r: Option<String>)
    ensures
        ids_only ==> opt_view(r) == profile_by_id(ps@, v@),
        !ids_only ==> opt_view(r) == profile_by_name(ps@, v@),
{
    let ghost s = ps@;
    let mut i: usize = 0;
    assert(s.skip(0) == s);
    while i < ps.len()
        invariant
            i <= s.len(),
            s == ps@,
            ids_only ==> profile_by_id(s, v@) == profile_by_id(s.skip(i as int), v@),
            !ids_only ==> profile_by_name(s, v@) == profile_by_name(s.skip(i as int), v@),
        decreases s.len() - i,
    {
        assert(s.skip(i as int)[0] == s[i as int]);
        assert(s.skip(i as int).skip(1) == s.skip(i + 1));
        if same_ci_exec(ps[i].id.as_str(), v) || (!ids_only && same_ci_exec(ps[i].label.as_str(), v)) {
            return Some(ps[i].id.clone());
        }
        i = i + 1;
    }
    None
}

fn find_profile_index(ps: &Vec<ProfileAliases>, id: &str) -> (r: Option<usize>)
    ensures
        match r {
            Some(k) => profile_index(ps@, id@) == Some(k as int) && k < ps@.len(),
            None => profile_index(ps@, id@) is None,
        },
{
    let ghost s = ps@;
    let mut i: usize = 0;
    assert(s.skip(0) == s);
    while i < ps.len()
        invariant
            i <= s.len(),
            s == ps@,
            profile_index(s, id@) == match profile_index(s.skip(i as int), id@) {
                Some(k) => Some(k + i),
                None => None::<int>,
            },
        decreases s.len() - i,
    {
        assert(s.skip(i as int)[0] == s[i as int]);
        assert(s.skip(i as int).skip(1) == s.skip(i + 1));
        if crate::text::same_text(ps[i].id.as_str(), id) {
            return Some(i);
        }
        i = i + 1;
    }
    None
}

fn find_by_path_name(names: &Vec<(String, String)>, v: &[char]) -> (r: Option<String>)
    ensures
        opt_view(r) == device_by_path_name(names@, v@),
{
    let ghost s = names@;
    let mut i: usize = 0;
    assert(s.skip(0) == s);
    while i < names.len()
        invariant
            i <= s.len(),
            s == names@,
            device_by_path_name(s, v@) == device_by_path_name(s.skip(i as int), v@),
        decreases s.len() - i,
    {
        assert(s.skip(i as int)[0] == s[i as int]);
        assert(s.skip(i as int).skip(1) == s.skip(i + 1));
        if same_ci_exec(names[i].1.as_str(), v) {
            return Some(names[i].0.clone());
        }
        i = i + 1;
    }
    None
}

fn find_by_alias(ds: &Vec<DeviceAliases>, v: &[char], ids_only: bool) -> (r: Option<String>)
    ensures
        opt_view(r) == device_by_alias(ds@, v@, ids_only),
{
    let ghost s = ds@;
    let mut i: usize = 0;
    assert(s.skip(0) == s);
    while i < ds.len()
        invariant
            i <= s.len(),
            s == ds@,
            device_by_alias(s, v@, ids_only) == device_by_alias(s.skip(i as int), v@, ids_only),
        decreases s.len() - i,
    {
        assert(s.skip(i as int)[0] == s[i as int]);
        assert(s.skip(i as int).skip(1) == s.skip(i + 1));
        let d = &ds[i];
        if same_ci_exec(d.id.as_str(), v) || (!ids_only && (same_ci_exec(d.hostname.as_str(), v) || same_ci_exec(
            d.dns_name.as_str(),
            v,
        ) || same_ci_exec(d.target.as_str(), v))) {
            return Some(d.id.clone());
        }
        i = i + 1;
    }
    None
}

fn find_id_named(ids: &Vec<String>, v: &[char]) -> (r: Option<String>)
    ensures
        opt_view(r) == id_named(ids@, v@),
{
    let ghost s = ids@;
    let mut i: usize = 0;
    assert(s.skip(0) == s);
    while i < ids.len()
        invariant
            i <= s.len(),
            s == ids@,
            id_named(s, v@) == id_named(s.skip(i as int), v@),
        decreases s.len() - i,
    {
        assert(s.skip(i as int)[0] == s[i as int]);
        assert(s.skip(i as int).skip(1) == s.skip(i + 1));
        if same_ci_exec(ids[i].as_str(), v) {
            return Some(ids[i].clone());
        }
        i = i + 1;
    }
    None
}

/// The text of an optional string.
pub open spec fn opt_view(o: Option<String>) -> Option<Seq<char>> {
    match o {
        Some(s) => Some(s@),
        None => None,
    }
}

fn resolve_profile_exec(ps: &Vec<ProfileAliases>, legacy: bool, v: &str) -> (r: Option<String>)
    ensures
        opt_view(r) == address_profile(ps@, legacy, v@),
{
    let vc = chars_of(v);
    if legacy {
        if let Some(id) = find_profile_by_name(ps, vc.as_slice(), true) {
            return Some(id);
        }
    }
    let found = match find_profile_by_path(ps, vc.as_slice()) {
        Some(id) => Some(id),
        None => find_profile_by_name(ps, vc.as_slice(), false),
    };
    if legacy {
        match found {
            Some(id) => Some(id),
            None => Some(v.to_owned()),
        }
    } else {
        found
    }
}

fn resolve_device_exec(ps: &Vec<ProfileAliases>, legacy: bool, profile_id: &str, v: &str) -> (r: Option<String>)
    ensures
        opt_view(r) == address_device(ps@, legacy, profile_id@, v@),
{
    let vc = chars_of(v);
    let index = find_profile_index(ps, profile_id);
    if legacy {
        if let Some(k) = index {
            let p = &ps[k];
            if let Some(id) = find_by_alias(&p.devices, vc.as_slice(), true) {
                return Some(id);
            }
            if let Some(id) = find_id_named(&p.configured_devices, vc.as_slice()) {
                return Some(id);
            }
        }
    }
    let found = match index {
        None => None,
        Some(k) => {
            let p = &ps[k];
            match find_by_path_name(&p.path_names, vc.as_slice()) {
                Some(id) => Some(id),
                None => match find_by_alias(&p.devices, vc.as_slice(), false) {
                    Some(id) => Some(id),
                    None => match find_id_named(&p.configured_devices, vc.as_slice()) {
                        Some(id) => Some(id),
                        None => find_by_path_name(&p.remembered, vc.as_slice()),
                    },
                },
            }
        },
    };
    if legacy {
        match found {
            Some(id) => Some(id),
            None => Some(v.to_owned()),
        }
    } else {
        found
    }
}

fn is_legacy_address(value: &str) -> (r: bool)
    ensures
        r == legacy_address(value@),
{
    let cs = chars_of(value);
    let trimmed = trim_chars(cs.as_slice());
    let normalized = slashes_for_backslashes(trimmed.as_slice());
    let split = split_chars(normalized.as_slice(), '/');
    let comps = keep_nonempty(&split);
    let ghost c = comps@.map_values(|p: Vec<char>| p@);
    if comps.len() == 0 {
        return false;
    }
    assert(comps[0]@ == c[0]);
    let long_name = chars_of("TailDrive");
    chars_eq_ignore_ascii_case(comps[0].as_slice(), long_name.as_slice())
}

/// Reads a typed TailDrive address (`TD/…`, or the older `TailDrive/…`)
/// and resolves its profile and device names against what the profiles
/// `profiles` are called (see `resolved_address`).
pub fn resolve_taildrive_address(address: &str, profiles: &Vec<ProfileAliases>) -> (r: Option<TaildriveLocation>)
    ensures
        match resolved_address(address@, profiles@) {
            Some(loc) => r matches Some(l) && l@ == loc,
            None => r is None,
        },
{
    let legacy = is_legacy_address(address);
    match parse_taildrive_display_path(address) {
        None => None,
        Some(TaildriveLocation::Root) => Some(TaildriveLocation::Root),
        Some(TaildriveLocation::Profile { profile_id }) => match resolve_profile_exec(profiles, legacy, profile_id.as_str()) {
            Some(p) => Some(TaildriveLocation::Profile { profile_id: p }),
            None => None,
        },
        Some(TaildriveLocation::Device { profile_id, device_id }) => match resolve_profile_exec(
            profiles,
            legacy,
            profile_id.as_str(),
        ) {
            Some(p) => match resolve_device_exec(profiles, legacy, p.as_str(), device_id.as_str()) {
                Some(d) => Some(TaildriveLocation::Device { profile_id: p, device_id: d }),
                None => None,
            },
            None => None,
        },
        Some(TaildriveLocation::Remote { profile_id, device_id, share, remote_path }) => match resolve_profile_exec(
            profiles,
            legacy,
            profile_id.as_str(),
        ) {
            Some(p) => match resolve_device_exec(profiles, legacy, p.as_str(), device_id.as_str()) {
                Some(d) => Some(TaildriveLocation::Remote { profile_id: p, device_id: d, share, remote_path }),
                None => None,
            },
            None => None,
        },
    }
}

} // verus!
