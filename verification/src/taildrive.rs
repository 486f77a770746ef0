use vstd::prelude::*;
use vstd::utf8::{decode_utf8, encode_utf8, is_ascii_chars, is_continuation_byte};
use crate::paths::{
    lemma_components_of_join, lemma_join_first, lemma_push_all_join, lemma_push_all_push,
    plain_piece, push_all, push_piece, push_rel,
    body_parts, components, cur_dir_lead, has_root, is_skippable, named_parts, path_components,
};
use crate::tailnets::location_profile;
use crate::text::{
    hex_pair_value_exec, bytes_from_hex, hexed, lemma_encode_nonempty, lemma_hexed_piece,
    chars_of, hex_decode, hex_decoded, lemma_hex_round_trip, lemma_hex_text_round_trip,
    lemma_split_join, lemma_split_len, nonempty_parts, split_on, trim, trim_chars, chars_eq_ignore_ascii_case,
    eq_ignore_ascii_case, is_whitespace, trim_end, trim_start, backslash_to_slash, slashes_for_backslashes, hex_encode, hex_of_bytes, hex_pair_value, join_chars,
    join_with, keep_nonempty, segments, split_chars, string_from_chars,
};

verus! {

/// A place inside the TailDrive tree: the root, one tailnet profile, one
/// device of a profile, or a path inside a shared folder of a device.
#[derive(Debug, Clone, PartialEq, Eq)]
pub enum TaildriveLocation {
    Root,
    Profile { profile_id: String },
    Device { profile_id: String, device_id: String },
    Remote { profile_id: String, device_id: String, share: String, remote_path: String },
}

/// The mathematical content of a [`TaildriveLocation`].
pub enum LocationView {
    Root,
    Profile(Seq<char>),
    Device(Seq<char>, Seq<char>),
    Remote(Seq<char>, Seq<char>, Seq<char>, Seq<char>),
}

impl View for TaildriveLocation {
    type V = LocationView;

    open spec fn view(&self) -> LocationView {
        match self {
            TaildriveLocation::Root => LocationView::Root,
            TaildriveLocation::Profile { profile_id } => LocationView::Profile(profile_id@),
            TaildriveLocation::Device { profile_id, device_id } => LocationView::Device(
                profile_id@,
                device_id@,
            ),
            TaildriveLocation::Remote { profile_id, device_id, share, remote_path } =>
                LocationView::Remote(profile_id@, device_id@, share@, remote_path@),
        }
    }
}

/// The first component of every internal TailDrive path.
pub open spec fn taildrive_root() -> Seq<char> {
    "__fast_explorer_taildrive__"@
}

/// The pieces pushed after the root for a location.
pub open spec fn location_pieces(loc: LocationView) -> Seq<Seq<char>> {
    match loc {
        LocationView::Root => Seq::empty(),
        LocationView::Profile(p) => seq![seq!['p'], hexed(p)],
        LocationView::Device(p, d) => seq![seq!['p'], hexed(p), seq!['d'], hexed(d)],
        LocationView::Remote(p, d, s, r) => seq![
            seq!['p'],
            hexed(p),
            seq!['d'],
            hexed(d),
            seq!['s'],
            hexed(s),
        ] + segments(r, '/').map_values(|c: Seq<char>| hexed(c)),
    }
}

/// The internal path that stands for a TailDrive location.
pub open spec fn taildrive_path_of(loc: LocationView) -> Seq<char> {
    push_all(taildrive_root(), location_pieces(loc))
}

fn taildrive_root_chars() -> (r: Vec<char>)
    ensures
        r@ == taildrive_root(),
{
    chars_of("__fast_explorer_taildrive__")
}

fn push_letter(buf: &mut Vec<char>, c: char)
    ensures
        final(buf)@ == push_rel(old(buf)@, seq![c]),
{
    let v = vec![c];
    assert(v@ =~= seq![c]);
    push_piece(buf, v.as_slice());
}

fn push_hexed(buf: &mut Vec<char>, text: &str)
    ensures
        final(buf)@ == push_rel(old(buf)@, hexed(text@)),
{
    let h = hex_encode(text);
    let hc = chars_of(h.as_str());
    push_piece(buf, hc.as_slice());
}

/// The internal path that stands for a TailDrive location.
pub fn taildrive_path(location: &TaildriveLocation) -> (out: String)
    ensures
        out@ == taildrive_path_of(location@),
{
    let mut buf = taildrive_root_chars();
    let ghost root = buf@;
    let ghost mut pushed: Seq<Seq<char>> = Seq::empty();
    match location {
        TaildriveLocation::Root => {},
        TaildriveLocation::Profile { profile_id } => {
            push_letter(&mut buf, 'p');
            proof { lemma_push_all_push(root, pushed, seq!['p']); pushed = pushed.push(seq!['p']); }
            push_hexed(&mut buf, profile_id.as_str());
            proof { lemma_push_all_push(root, pushed, hexed(profile_id@)); pushed = pushed.push(hexed(profile_id@)); }
        },
        TaildriveLocation::Device { profile_id, device_id } => {
            push_letter(&mut buf, 'p');
            proof { lemma_push_all_push(root, pushed, seq!['p']); pushed = pushed.push(seq!['p']); }
            push_hexed(&mut buf, profile_id.as_str());
            proof { lemma_push_all_push(root, pushed, hexed(profile_id@)); pushed = pushed.push(hexed(profile_id@)); }
            push_letter(&mut buf, 'd');
            proof { lemma_push_all_push(root, pushed, seq!['d']); pushed = pushed.push(seq!['d']); }
            push_hexed(&mut buf, device_id.as_str());
            proof { lemma_push_all_push(root, pushed, hexed(device_id@)); pushed = pushed.push(hexed(device_id@)); }
        },
        TaildriveLocation::Remote { profile_id, device_id, share, remote_path } => {
            push_letter(&mut buf, 'p');
            proof { lemma_push_all_push(root, pushed, seq!['p']); pushed = pushed.push(seq!['p']); }
            push_hexed(&mut buf, profile_id.as_str());
            proof { lemma_push_all_push(root, pushed, hexed(profile_id@)); pushed = pushed.push(hexed(profile_id@)); }
            push_letter(&mut buf, 'd');
            proof { lemma_push_all_push(root, pushed, seq!['d']); pushed = pushed.push(seq!['d']); }
            push_hexed(&mut buf, device_id.as_str());
            proof { lemma_push_all_push(root, pushed, hexed(device_id@)); pushed = pushed.push(hexed(device_id@)); }
            push_letter(&mut buf, 's');
            proof { lemma_push_all_push(root, pushed, seq!['s']); pushed = pushed.push(seq!['s']); }
            push_hexed(&mut buf, share.as_str());
            proof { lemma_push_all_push(root, pushed, hexed(share@)); pushed = pushed.push(hexed(share@)); }
            let ghost head = pushed;
            let rc = chars_of(remote_path.as_str());
            let pieces = split_chars(rc.as_slice(), '/');
            let segs = keep_nonempty(&pieces);
            let ghost sv = segs@.map_values(|p: Vec<char>| p@);
            assert(sv == segments(remote_path@, '/'));
            for i in 0..segs.len()
                invariant
                    sv == segs@.map_values(|p: Vec<char>| p@),
                    pushed == head + sv.take(i as int).map_values(|c: Seq<char>| hexed(c)),
                    buf@ == push_all(root, pushed),
            {
                let seg = string_from_chars(segs[i].as_slice());
                assert(seg@ == sv[i as int]);
                push_hexed(&mut buf, seg.as_str());
                proof {
                    lemma_push_all_push(root, pushed, hexed(seg@));
                    pushed = pushed.push(hexed(seg@));
                    assert(pushed =~= head + sv.take(i + 1).map_values(|c: Seq<char>| hexed(c)));
                }
            }
            assert(sv.take(sv.len() as int) == sv);
        },
    }
    assert(pushed =~= location_pieces(location@));
    string_from_chars(buf.as_slice())
}

/// Lowercase hexadecimal spelling of the UTF-8 bytes of a path component.
pub fn encode_virtual_component(value: &str) -> (out: String)
    ensures
        out@ == hexed(value@),
{
    hex_encode(value)
}

/// Whether byte offset `i` starts or ends a character of UTF-8 text `b`
/// (`str::is_char_boundary`).
pub open spec fn byte_boundary(b: Seq<u8>, i: int) -> bool {
    i == 0 || i == b.len() || (0 < i < b.len() && !is_continuation_byte(b[i]))
}

/// Decoding two bytes at a time by slicing the text at byte offsets stops
/// with a panic when an offset falls inside a character before a pair
/// fails to parse.
pub open spec fn slicing_panics_from(b: Seq<u8>, i: int) -> bool
    decreases b.len() - i,
{
    if i < 0 || i >= b.len() {
        false
    } else if !byte_boundary(b, i) || !byte_boundary(b, i + 2) {
        true
    } else if hex_pair_value(b[i], b[i + 1]) is None {
        false
    } else {
        slicing_panics_from(b, i + 2)
    }
}

/// Whether decoding this component by byte slices would panic.
pub open spec fn component_decode_panics(c: Seq<char>) -> bool {
    encode_utf8(c).len() % 2 == 0 && slicing_panics_from(encode_utf8(c), 0)
}

/// The text a hexadecimal path component spells, if any.
pub fn decode_virtual_component(value: &str) -> (r: Option<String>)
    requires
        !component_decode_panics(value@),
    ensures
        r matches Some(s) ==> hex_decoded(value@) == Some(s@),
        r is None ==> hex_decoded(value@) is None,
{
    hex_decode(value)
}

/// Decodes every piece, failing when any piece fails.
pub open spec fn decode_all(parts: Seq<Seq<char>>) -> Option<Seq<Seq<char>>>
    decreases parts.len(),
{
    if parts.len() == 0 {
        Some(Seq::empty())
    } else {
        match (decode_all(parts.drop_last()), hex_decoded(parts.last())) {
            (Some(init), Some(last)) => Some(init.push(last)),
            _ => None,
        }
    }
}

/// Decoding the pieces in order panics at the first piece that panics before
/// any piece fails.
pub open spec fn decode_all_panics(parts: Seq<Seq<char>>) -> bool
    decreases parts.len(),
{
    parts.len() > 0 && (component_decode_panics(parts[0]) || (hex_decoded(parts[0]) is Some
        && decode_all_panics(parts.drop_first())))
}

/// The location an internal path stands for, read from its components.
pub open spec fn parse_components(c: Seq<Seq<char>>) -> Option<LocationView> {
    if c.len() == 0 || c[0] != taildrive_root() {
        None
    } else if c.len() == 1 {
        Some(LocationView::Root)
    } else if c.len() < 3 || c[1] != seq!['p'] {
        None
    } else {
        match hex_decoded(c[2]) {
            None => None,
            Some(p) => if c.len() == 3 {
                Some(LocationView::Profile(p))
            } else if c.len() < 5 || c[3] != seq!['d'] {
                None
            } else {
                match hex_decoded(c[4]) {
                    None => None,
                    Some(d) => if c.len() == 5 {
                        Some(LocationView::Device(p, d))
                    } else if c.len() < 7 || c[5] != seq!['s'] {
                        None
                    } else {
                        match hex_decoded(c[6]) {
                            None => None,
                            Some(sh) => match decode_all(c.skip(7)) {
                                None => None,
                                Some(rest) => Some(
                                    LocationView::Remote(p, d, sh, join_with(rest, seq!['/'])),
                                ),
                            },
                        }
                    }
                }
            },
        }
    }
}

/// Whether reading the components as a TailDrive location would panic.
pub open spec fn parse_components_panics(c: Seq<Seq<char>>) -> bool {
    &&& c.len() >= 3
    &&& c[0] == taildrive_root()
    &&& c[1] == seq!['p']
    &&& (component_decode_panics(c[2]) || (hex_decoded(c[2]) is Some && c.len() >= 5 && c[3]
        == seq!['d'] && (component_decode_panics(c[4]) || (hex_decoded(c[4]) is Some && c.len()
        >= 7 && c[5] == seq!['s'] && (component_decode_panics(c[6]) || (hex_decoded(c[6]) is Some
        && decode_all_panics(c.skip(7))))))))
}

/// The location an internal path stands for.
pub open spec fn parse_taildrive_spec(path: Seq<char>) -> Option<LocationView> {
    parse_components(path_components(path))
}

/// Whether parsing this path as a TailDrive location would panic.
pub open spec fn taildrive_parse_panics(path: Seq<char>) -> bool {
    parse_components_panics(path_components(path))
}

fn chars_eq(a: &[char], b: &[char]) -> (r: bool)
    ensures
        r == (a@ == b@),
{
    if a.len() != b.len() {
        return false;
    }
    for i in 0..a.len()
        invariant
            a@.len() == b@.len(),
            forall|k: int| 0 <= k < i ==> a@[k] == b@[k],
    {
        if a[i] != b[i] {
            return false;
        }
    }
    assert(a@ =~= b@);
    true
}

fn is_letter(v: &Vec<char>, c: char) -> (r: bool)
    ensures
        r == (v@ == seq![c]),
{
    if v.len() == 1 && v[0] == c {
        assert(v@ =~= seq![c]);
        true
    } else {
        false
    }
}

fn decode_piece(v: &Vec<char>) -> (r: Option<String>)
    requires
        !component_decode_panics(v@),
    ensures
        r matches Some(s) ==> hex_decoded(v@) == Some(s@),
        r is None ==> hex_decoded(v@) is None,
{
    let s = string_from_chars(v.as_slice());
    decode_virtual_component(s.as_str())
}

/// Reads the TailDrive location that an internal path stands for.
pub fn parse_taildrive_path(path: &str) -> (r: Option<TaildriveLocation>)
    requires
        !taildrive_parse_panics(path@),
    ensures
        r matches Some(loc) ==> parse_taildrive_spec(path@) == Some(loc@),
        r is None ==> parse_taildrive_spec(path@) is None,
{
    let comps = components(path);
    let ghost c = comps@.map_values(|p: Vec<char>| p@);
    let root = taildrive_root_chars();
    let n = comps.len();
    if n == 0 {
        return None;
    }
    assert(comps[0]@ == c[0]);
    if !chars_eq(comps[0].as_slice(), root.as_slice()) {
        return None;
    }
    if n == 1 {
        return Some(TaildriveLocation::Root);
    }
    assert(comps[1]@ == c[1]);
    if n < 3 || !is_letter(&comps[1], 'p') {
        return None;
    }
    assert(comps[2]@ == c[2]);
    let profile_id = match decode_piece(&comps[2]) {
        Some(p) => p,
        None => return None,
    };
    if n == 3 {
        return Some(TaildriveLocation::Profile { profile_id });
    }
    assert(comps[3]@ == c[3]);
    if n < 5 || !is_letter(&comps[3], 'd') {
        return None;
    }
    assert(comps[4]@ == c[4]);
    let device_id = match decode_piece(&comps[4]) {
        Some(d) => d,
        None => return None,
    };
    if n == 5 {
        return Some(TaildriveLocation::Device { profile_id, device_id });
    }
    assert(comps[5]@ == c[5]);
    if n < 7 || !is_letter(&comps[5], 's') {
        return None;
    }
    assert(comps[6]@ == c[6]);
    let share = match decode_piece(&comps[6]) {
        Some(sh) => sh,
        None => return None,
    };
    let ghost tail = c.skip(7);
    let mut decoded: Vec<Vec<char>> = Vec::new();
    let mut i: usize = 7;
    while i < n
        invariant
            7 <= i <= n,
            n == c.len(),
            c == path_components(path@),
            c[0] == taildrive_root(),
            c[1] == seq!['p'],
            c[3] == seq!['d'],
            c[5] == seq!['s'],
            hex_decoded(c[2]) == Some(profile_id@),
            hex_decoded(c[4]) == Some(device_id@),
            hex_decoded(c[6]) == Some(share@),
            c == comps@.map_values(|p: Vec<char>| p@),
            tail == c.skip(7),
            !decode_all_panics(c.skip(i as int)),
            decode_all(tail.take(i - 7)) == Some(decoded@.map_values(|p: Vec<char>| p@)),
        decreases n - i,
    {
        assert(comps[i as int]@ == c[i as int]);
        assert(c.skip(i as int)[0] == c[i as int]);
        assert(tail.take(i - 6).drop_last() =~= tail.take(i - 7));
        assert(tail.take(i - 6).last() == c[i as int]);
        match decode_piece(&comps[i]) {
            Some(part) => {
                let pc = chars_of(part.as_str());
                let ghost before = decoded@.map_values(|p: Vec<char>| p@);
                decoded.push(pc);
                assert(decoded@.map_values(|p: Vec<char>| p@) =~= before.push(part@));
                assert(c.skip(i as int).drop_first() =~= c.skip(i + 1));
                i = i + 1;
            },
            None => {
                proof {
                    assert(decode_all(tail.take(i - 6)) is None);
                    lemma_decode_all_none_extends(tail, i - 6);
                    assert(decode_all(c.skip(7)) is None);
                    assert(hex_decoded(c[2]) == Some(profile_id@));
                    assert(hex_decoded(c[4]) == Some(device_id@));
                    assert(hex_decoded(c[6]) == Some(share@));
                    assert(parse_components(c) is None);
                }
                return None;
            },
        }
    }
    assert(tail.take(n - 7) =~= tail);
    let slash = vec!['/'];
    assert(slash@ =~= seq!['/']);
    let joined = join_chars(&decoded, slash.as_slice());
    Some(TaildriveLocation::Remote {
        profile_id,
        device_id,
        share,
        remote_path: string_from_chars(joined.as_slice()),
    })
}

fn byte_boundary_exec(b: &[u8], i: usize) -> (r: bool)
    requires
        i <= b@.len(),
    ensures
        r == byte_boundary(b@, i as int),
{
    i == 0 || i == b.len() || !(0x80 <= b[i] && b[i] <= 0xbf)
}

fn slicing_panics_exec(b: &[u8]) -> (r: bool)
    ensures
        r == slicing_panics_from(b@, 0),
{
    let n = b.len();
    let mut i: usize = 0;
    while i < n
        invariant
            n == b@.len(),
            slicing_panics_from(b@, 0) == slicing_panics_from(b@, i as int),
        decreases n - i,
    {
        if !byte_boundary_exec(b, i) {
            return true;
        }
        if n - i < 2 {
            return true;
        }
        if !byte_boundary_exec(b, i + 2) {
            return true;
        }
        if hex_pair_value_exec(b[i], b[i + 1]).is_none() {
            return false;
        }
        i = i + 2;
    }
    false
}

fn component_decode_would_panic(c: &Vec<char>) -> (r: bool)
    ensures
        r == component_decode_panics(c@),
{
    let s = string_from_chars(c.as_slice());
    let b = s.as_str().as_bytes();
    b.len() % 2 == 0 && slicing_panics_exec(b)
}

/// Whether parsing this path as a TailDrive location would panic (see
/// `taildrive_parse_panics`), so that callers can test a path first.
pub fn taildrive_parse_would_panic(path: &str) -> (r: bool)
    ensures
        r == taildrive_parse_panics(path@),
{
    let comps = components(path);
    let ghost c = comps@.map_values(|p: Vec<char>| p@);
    let n = comps.len();
    if n < 3 {
        return false;
    }
    let root = taildrive_root_chars();
    assert(comps[0]@ == c[0]);
    assert(comps[1]@ == c[1]);
    if !chars_eq(comps[0].as_slice(), root.as_slice()) || !is_letter(&comps[1], 'p') {
        return false;
    }
    assert(comps[2]@ == c[2]);
    if component_decode_would_panic(&comps[2]) {
        return true;
    }
    if decode_piece(&comps[2]).is_none() {
        return false;
    }
    if n < 5 {
        return false;
    }
    assert(comps[3]@ == c[3]);
    if !is_letter(&comps[3], 'd') {
        return false;
    }
    assert(comps[4]@ == c[4]);
    if component_decode_would_panic(&comps[4]) {
        return true;
    }
    if decode_piece(&comps[4]).is_none() {
        return false;
    }
    if n < 7 {
        return false;
    }
    assert(comps[5]@ == c[5]);
    if !is_letter(&comps[5], 's') {
        return false;
    }
    assert(comps[6]@ == c[6]);
    if component_decode_would_panic(&comps[6]) {
        return true;
    }
    if decode_piece(&comps[6]).is_none() {
        return false;
    }
    assert(taildrive_parse_panics(path@) == decode_all_panics(c.skip(7)));
    let mut i: usize = 7;
    assert(c.skip(7).skip(0) =~= c.skip(7));
    while i < n
        invariant
            7 <= i <= n,
            n == c.len(),
            c == comps@.map_values(|p: Vec<char>| p@),
            decode_all_panics(c.skip(7)) == decode_all_panics(c.skip(i as int)),
            taildrive_parse_panics(path@) == decode_all_panics(c.skip(7)),
        decreases n - i,
    {
        assert(comps[i as int]@ == c[i as int]);
        assert(c.skip(i as int)[0] == c[i as int]);
        assert(c.skip(i as int).drop_first() =~= c.skip(i + 1));
        if component_decode_would_panic(&comps[i]) {
            return true;
        }
        if decode_piece(&comps[i]).is_none() {
            return false;
        }
        i = i + 1;
    }
    false
}

proof fn lemma_decode_all_none_extends(parts: Seq<Seq<char>>, k: int)
    requires
        0 <= k <= parts.len(),
        decode_all(parts.take(k)) is None,
    ensures
        decode_all(parts) is None,
    decreases parts.len() - k,
{
    if k < parts.len() {
        assert(parts.take(k + 1).drop_last() =~= parts.take(k));
        lemma_decode_all_none_extends(parts, k + 1);
    } else {
        assert(parts.take(k) =~= parts);
    }
}

/// A location with every remote path written as its non-empty segments
/// joined by `/`, the form in which parsing gives it back.
pub open spec fn canonical(loc: LocationView) -> LocationView {
    match loc {
        LocationView::Remote(p, d, s, r) => LocationView::Remote(
            p,
            d,
            s,
            join_with(segments(r, '/'), seq!['/']),
        ),
        other => other,
    }
}

/// The profile, device and share names a location holds are all non-empty.
pub open spec fn ids_nonempty(loc: LocationView) -> bool {
    match loc {
        LocationView::Root => true,
        LocationView::Profile(p) => p.len() > 0,
        LocationView::Device(p, d) => p.len() > 0 && d.len() > 0,
        LocationView::Remote(p, d, s, _) => p.len() > 0 && d.len() > 0 && s.len() > 0,
    }
}

proof fn lemma_root_piece()
    ensures
        plain_piece(taildrive_root()),
        taildrive_root()[0] == '_',
        taildrive_root().last() != '/',
{
    reveal_strlit("__fast_explorer_taildrive__");
    assert(!taildrive_root().contains('/')) by {
        if taildrive_root().contains('/') {
            let k = choose|k: int| 0 <= k < taildrive_root().len() && taildrive_root()[k] == '/';
        }
    }
}

/// Slicing text free of multi-byte characters never panics.
proof fn lemma_ascii_slicing_safe(b: Seq<u8>, i: int)
    requires
        forall|k: int| 0 <= k < b.len() ==> #[trigger] b[k] < 128,
        b.len() % 2 == 0,
        i >= 0,
        i % 2 == 0,
    ensures
        !slicing_panics_from(b, i),
    decreases b.len() - i,
{
    if i < b.len() {
        assert(byte_boundary(b, i)) by {
            if 0 < i < b.len() {
                let x = b[i];
                assert(x < 128 ==> !is_continuation_byte(x)) by (bit_vector);
            }
        }
        assert(byte_boundary(b, i + 2)) by {
            if 0 < i + 2 < b.len() {
                let x = b[i + 2];
                assert(x < 128 ==> !is_continuation_byte(x)) by (bit_vector);
            }
        }
        lemma_ascii_slicing_safe(b, i + 2);
    }
}

proof fn lemma_hexed_decodes(x: Seq<char>)
    requires
        x.len() > 0,
    ensures
        !component_decode_panics(hexed(x)),
        hex_decoded(hexed(x)) == Some(x),
{
    lemma_hexed_piece(x);
    lemma_hex_text_round_trip(x);
    let h = hexed(x);
    vstd::utf8::is_ascii_chars_encode_utf8(h);
    let b = encode_utf8(h);
    assert forall|k: int| 0 <= k < b.len() implies #[trigger] b[k] < 128 by {
        assert(h[k] as u8 == b[k]);
        assert('\0' <= h[k] <= '\u{7f}');
    }
    lemma_ascii_slicing_safe(b, 0);
}

pub proof fn lemma_decode_all_hexed(segs: Seq<Seq<char>>)
    requires
        forall|i: int| 0 <= i < segs.len() ==> (#[trigger] segs[i]).len() > 0,
    ensures
        decode_all(segs.map_values(|c: Seq<char>| hexed(c))) == Some(segs),
        !decode_all_panics(segs.map_values(|c: Seq<char>| hexed(c))),
    decreases segs.len(),
{
    let hs = segs.map_values(|c: Seq<char>| hexed(c));
    if segs.len() > 0 {
        assert(segs[segs.len() - 1].len() > 0);
        assert(segs[0].len() > 0);
        lemma_hexed_decodes(segs.last());
        lemma_hexed_decodes(segs[0]);
        let init = segs.drop_last();
        assert forall|i: int| 0 <= i < init.len() implies (#[trigger] init[i]).len() > 0 by {
            assert(init[i] == segs[i]);
        }
        lemma_decode_all_hexed(init);
        assert(hs.drop_last() =~= init.map_values(|c: Seq<char>| hexed(c)));
        assert(init.push(segs.last()) =~= segs);
        let rest = segs.drop_first();
        assert forall|i: int| 0 <= i < rest.len() implies (#[trigger] rest[i]).len() > 0 by {
            assert(rest[i] == segs[i + 1]);
        }
        lemma_decode_all_hexed(rest);
        assert(hs.drop_first() =~= rest.map_values(|c: Seq<char>| hexed(c)));
    }
}

pub proof fn lemma_segments_nonempty(parts: Seq<Seq<char>>)
    ensures
        forall|i: int| 0 <= i < nonempty_parts(parts).len() ==> (#[trigger] nonempty_parts(parts)[i]).len() > 0,
    decreases parts.len(),
{
    if parts.len() > 0 {
        lemma_segments_nonempty(parts.drop_last());
        let init = nonempty_parts(parts.drop_last());
        if parts.last().len() > 0 {
            assert forall|i: int| 0 <= i < init.push(parts.last()).len() implies (#[trigger] init.push(parts.last())[i]).len() > 0 by {
                if i < init.len() {
                    assert(init.push(parts.last())[i] == init[i]);
                }
            }
        }
    }
}

proof fn lemma_letter_piece(c: char)
    requires
        c != '/',
        c != '.',
    ensures
        plain_piece(seq![c]),
{
    assert(seq![c][0] == c);
    assert(!seq![c].contains('/')) by {
        if seq![c].contains('/') {
            let k = choose|k: int| 0 <= k < 1 && seq![c][k] == '/';
        }
    }
    assert(seq![c] != seq!['.']) by {
        if seq![c] == seq!['.'] {
            assert(seq!['.'][0] == '.');
        }
    }
}

proof fn lemma_pieces_plain(loc: LocationView)
    requires
        ids_nonempty(loc),
    ensures
        forall|i: int| 0 <= i < location_pieces(loc).len() ==> plain_piece(#[trigger] location_pieces(loc)[i]),
{
    let xs = location_pieces(loc);
    lemma_letter_piece('p');
    lemma_letter_piece('d');
    lemma_letter_piece('s');
    match loc {
        LocationView::Root => {},
        LocationView::Profile(p) => {
            lemma_hexed_piece(p);
        },
        LocationView::Device(p, d) => {
            lemma_hexed_piece(p);
            lemma_hexed_piece(d);
        },
        LocationView::Remote(p, d, sh, r) => {
            lemma_hexed_piece(p);
            lemma_hexed_piece(d);
            lemma_hexed_piece(sh);
            let segs = segments(r, '/');
            lemma_segments_nonempty(split_on(r, '/'));
            assert forall|i: int| 0 <= i < xs.len() implies plain_piece(#[trigger] xs[i]) by {
                if i >= 6 {
                    assert(xs[i] == hexed(segs[i - 6]));
                    lemma_hexed_piece(segs[i - 6]);
                }
            }
        },
    }
}

proof fn lemma_location_components(loc: LocationView)
    requires
        ids_nonempty(loc),
    ensures
        path_components(taildrive_path_of(loc)) == seq![taildrive_root()] + location_pieces(loc),
{
    lemma_root_piece();
    lemma_pieces_plain(loc);
    let xs = location_pieces(loc);
    lemma_push_all_join(taildrive_root(), xs);
    let parts = seq![taildrive_root()] + xs;
    assert forall|i: int| 0 <= i < parts.len() implies plain_piece(#[trigger] parts[i]) by {
        if i > 0 {
            assert(parts[i] == xs[i - 1]);
        }
    }
    lemma_components_of_join(parts);
}

#[verifier::rlimit(40)]
proof fn lemma_parse_remote(p: Seq<char>, d: Seq<char>, sh: Seq<char>, r: Seq<char>)
    requires
        p.len() > 0,
        d.len() > 0,
        sh.len() > 0,
    ensures
        ({
            let loc = LocationView::Remote(p, d, sh, r);
            let c = seq![taildrive_root()] + location_pieces(loc);
            &&& !parse_components_panics(c)
            &&& parse_components(c) == Some(canonical(loc))
        }),
{
    let loc = LocationView::Remote(p, d, sh, r);
    let c = seq![taildrive_root()] + location_pieces(loc);
    let segs = segments(r, '/');
    lemma_hexed_decodes(p);
    lemma_hexed_decodes(d);
    lemma_hexed_decodes(sh);
    lemma_segments_nonempty(split_on(r, '/'));
    lemma_decode_all_hexed(segs);
    assert(c.skip(7) =~= segs.map_values(|x: Seq<char>| hexed(x)));
    assert(c[1] == seq!['p']);
    assert(c[2] == hexed(p));
    assert(c[3] == seq!['d']);
    assert(c[4] == hexed(d));
    assert(c[5] == seq!['s']);
    assert(c[6] == hexed(sh));
}

proof fn lemma_named_parts_nonempty(parts: Seq<Seq<char>>)
    ensures
        forall|i: int| 0 <= i < named_parts(parts).len() ==> (#[trigger] named_parts(parts)[i]).len() > 0,
    decreases parts.len(),
{
    if parts.len() > 0 {
        lemma_named_parts_nonempty(parts.drop_last());
        let init = named_parts(parts.drop_last());
        if !is_skippable(parts.last()) {
            assert forall|i: int| 0 <= i < init.push(parts.last()).len() implies (#[trigger] init.push(parts.last())[i]).len() > 0 by {
                if i < init.len() {
                    assert(init.push(parts.last())[i] == init[i]);
                }
            }
        }
    }
}

proof fn lemma_components_nonempty(path: Seq<char>, i: int)
    requires
        1 <= i < path_components(path).len(),
    ensures
        path_components(path)[i].len() > 0,
{
    let lead: Seq<Seq<char>> = if has_root(path) {
        seq![seq!['/']]
    } else if cur_dir_lead(path) {
        seq![seq!['.']]
    } else {
        Seq::empty()
    };
    let named = named_parts(body_parts(path));
    lemma_named_parts_nonempty(body_parts(path));
    assert(path_components(path) == lead + named);
    if i >= lead.len() {
        assert(path_components(path)[i] == named[i - lead.len()]);
    }
}

proof fn lemma_hex_decoded_nonempty(c: Seq<char>)
    requires
        c.len() > 0,
        hex_decoded(c) is Some,
    ensures
        hex_decoded(c).unwrap().len() > 0,
{
    lemma_encode_nonempty(c);
    let b = encode_utf8(c);
    let bytes = bytes_from_hex(b).unwrap();
    assert(bytes.len() > 0);
    reveal_with_fuel(decode_utf8, 1);
}

/// The ids that a parsed TailDrive path names are never empty.
pub proof fn lemma_parsed_ids_nonempty(path: Seq<char>)
    ensures
        parse_taildrive_spec(path) matches Some(loc) ==> ids_nonempty(loc),
{
    let c = path_components(path);
    if let Some(loc) = parse_taildrive_spec(path) {
        if c.len() >= 3 {
            lemma_components_nonempty(path, 2);
            if hex_decoded(c[2]) is Some {
                lemma_hex_decoded_nonempty(c[2]);
            }
        }
        if c.len() >= 5 {
            lemma_components_nonempty(path, 4);
            if hex_decoded(c[4]) is Some {
                lemma_hex_decoded_nonempty(c[4]);
            }
        }
        if c.len() >= 7 {
            lemma_components_nonempty(path, 6);
            if hex_decoded(c[6]) is Some {
                lemma_hex_decoded_nonempty(c[6]);
            }
        }
    }
}

/// Reading back the internal path of a location gives the location, with a
/// remote path in canonical form, and never panics.
pub proof fn lemma_taildrive_path_round_trip(loc: LocationView)
    requires
        ids_nonempty(loc),
    ensures
        !taildrive_parse_panics(taildrive_path_of(loc)),
        parse_taildrive_spec(taildrive_path_of(loc)) == Some(canonical(loc)),
{
    lemma_location_components(loc);
    let c = seq![taildrive_root()] + location_pieces(loc);
    lemma_root_piece();
    match loc {
        LocationView::Root => {},
        LocationView::Profile(p) => {
            lemma_hexed_decodes(p);
            assert(c[1] == seq!['p']);
            assert(c[2] == hexed(p));
        },
        LocationView::Device(p, d) => {
            lemma_hexed_decodes(p);
            lemma_hexed_decodes(d);
            assert(c[1] == seq!['p']);
            assert(c[2] == hexed(p));
            assert(c[3] == seq!['d']);
            assert(c[4] == hexed(d));
        },
        LocationView::Remote(p, d, sh, r) => {
            lemma_parse_remote(p, d, sh, r);
        },
    }
}

/// How one character is written in a human-readable TailDrive path.
pub open spec fn escape_char(c: char) -> Seq<char> {
    if c == '%' {
        seq!['%', '2', '5']
    } else if c == '/' {
        seq!['%', '2', 'F']
    } else if c == '\\' {
        seq!['%', '5', 'C']
    } else {
        seq![c]
    }
}

/// A name written so that it holds no `/` or `\\`: `%`, `/` and `\\` become
/// `%25`, `%2F` and `%5C`.
pub open spec fn display_escape(s: Seq<char>) -> Seq<char>
    decreases s.len(),
{
    if s.len() == 0 {
        Seq::empty()
    } else {
        display_escape(s.drop_last()) + escape_char(s.last())
    }
}

/// Reads escapes back, left to right: `%5C`, `%2F` and `%25` become `\\`,
/// `/` and `%`; every other character stays.
pub open spec fn display_unescape(s: Seq<char>) -> Seq<char>
    decreases s.len(),
{
    if s.len() >= 3 && s[0] == '%' && s[1] == '5' && s[2] == 'C' {
        seq!['\\'] + display_unescape(s.skip(3))
    } else if s.len() >= 3 && s[0] == '%' && s[1] == '2' && s[2] == 'F' {
        seq!['/'] + display_unescape(s.skip(3))
    } else if s.len() >= 3 && s[0] == '%' && s[1] == '2' && s[2] == '5' {
        seq!['%'] + display_unescape(s.skip(3))
    } else if s.len() == 0 {
        Seq::empty()
    } else {
        seq![s[0]] + display_unescape(s.skip(1))
    }
}

proof fn lemma_escape_concat(a: Seq<char>, b: Seq<char>)
    ensures
        display_escape(a + b) == display_escape(a) + display_escape(b),
    decreases b.len(),
{
    if b.len() == 0 {
        assert(a + b == a);
    } else {
        assert((a + b).drop_last() == a + b.drop_last());
        lemma_escape_concat(a, b.drop_last());
    }
}

proof fn lemma_escape_front(s: Seq<char>)
    requires
        s.len() > 0,
    ensures
        display_escape(s) == escape_char(s[0]) + display_escape(s.skip(1)),
{
    assert(s == seq![s[0]] + s.skip(1));
    lemma_escape_concat(seq![s[0]], s.skip(1));
    assert(seq![s[0]].drop_last() == Seq::<char>::empty());
    let one = seq![s[0]];
    assert(one.len() == 1);
    assert(one.last() == s[0]);
    assert(display_escape(one.drop_last()) == Seq::<char>::empty());
    assert(Seq::<char>::empty() + escape_char(s[0]) =~= escape_char(s[0]));
    assert(display_escape(one) == escape_char(s[0]));
}

/// Reading back an escaped name gives the name.
pub proof fn lemma_unescape_escape(s: Seq<char>)
    ensures
        display_unescape(display_escape(s)) == s,
    decreases s.len(),
{
    if s.len() == 0 {
    } else {
        lemma_escape_front(s);
        lemma_unescape_escape(s.skip(1));
        let e = escape_char(s[0]);
        let rest = display_escape(s.skip(1));
        assert((e + rest).skip(e.len() as int) == rest);
        assert(seq![s[0]] + s.skip(1) == s);
    }
}

/// An escaped name holds no `/` and no `\\`.
pub proof fn lemma_escape_no_separator(s: Seq<char>)
    ensures
        !display_escape(s).contains('/'),
        !display_escape(s).contains('\\'),
        display_escape(s).len() >= s.len(),
        s.len() > 0 ==> display_escape(s).last() == escape_char(s.last()).last(),
    decreases s.len(),
{
    if s.len() > 0 {
        lemma_escape_no_separator(s.drop_last());
        let a = display_escape(s.drop_last());
        let e = escape_char(s.last());
        assert forall|k: int| 0 <= k < (a + e).len() implies (a + e)[k] != '/' && (a + e)[k] != '\\' by {
            if k < a.len() {
                assert((a + e)[k] == a[k]);
                assert(!a.contains('/'));
                if a[k] == '/' {
                    assert(a.contains('/'));
                }
                if a[k] == '\\' {
                    assert(a.contains('\\'));
                }
            }
        }
    }
}

/// Escapes a name for a human-readable TailDrive path.
pub fn encode_taildrive_display_component(value: &str) -> (out: String)
    ensures
        out@ == display_escape(value@),
{
    let cs = chars_of(value);
    let mut out: Vec<char> = Vec::new();
    for i in 0..cs.len()
        invariant
            cs@ == value@,
            out@ == display_escape(cs@.take(i as int)),
    {
        let c = cs[i];
        assert(cs@.take(i + 1).drop_last() == cs@.take(i as int));
        if c == '%' {
            out.push('%');
            out.push('2');
            out.push('5');
        } else if c == '/' {
            out.push('%');
            out.push('2');
            out.push('F');
        } else if c == '\\' {
            out.push('%');
            out.push('5');
            out.push('C');
        } else {
            out.push(c);
        }
        assert(out@ =~= display_escape(cs@.take(i + 1)));
    }
    assert(cs@.take(cs@.len() as int) == cs@);
    string_from_chars(out.as_slice())
}

/// Reads the escapes of a human-readable TailDrive path component.
pub fn decode_taildrive_display_component(value: &str) -> (out: String)
    ensures
        out@ == display_unescape(value@),
{
    let cs = chars_of(value);
    let mut out: Vec<char> = Vec::new();
    let mut i: usize = 0;
    assert(cs@.skip(0) == cs@);
    while i < cs.len()
        invariant
            cs@ == value@,
            i <= cs@.len(),
            out@ + display_unescape(cs@.skip(i as int)) == display_unescape(cs@),
        decreases cs.len() - i,
    {
        let ghost rest = cs@.skip(i as int);
        if cs.len() - i >= 3 && cs[i] == '%' && cs[i + 1] == '5' && cs[i + 2] == 'C' {
            assert(rest.skip(3) == cs@.skip(i + 3));
            out.push('\\');
            i = i + 3;
        } else if cs.len() - i >= 3 && cs[i] == '%' && cs[i + 1] == '2' && cs[i + 2] == 'F' {
            assert(rest.skip(3) == cs@.skip(i + 3));
            out.push('/');
            i = i + 3;
        } else if cs.len() - i >= 3 && cs[i] == '%' && cs[i + 1] == '2' && cs[i + 2] == '5' {
            assert(rest.skip(3) == cs@.skip(i + 3));
            out.push('%');
            i = i + 3;
        } else {
            assert(rest.skip(1) == cs@.skip(i + 1));
            out.push(cs[i]);
            i = i + 1;
        }
    }
    assert(cs@.skip(cs@.len() as int) == Seq::<char>::empty());
    string_from_chars(out.as_slice())
}

/// The pieces of the human-readable path of a location, before joining.
pub open spec fn display_pieces(loc: LocationView) -> Seq<Seq<char>> {
    match loc {
        LocationView::Root => seq![seq!['T', 'D']],
        LocationView::Profile(p) => seq![seq!['T', 'D'], display_escape(p)],
        LocationView::Device(p, d) => seq![seq!['T', 'D'], display_escape(p), display_escape(d)],
        LocationView::Remote(p, d, s, r) => seq![
            seq!['T', 'D'],
            display_escape(p),
            display_escape(d),
            display_escape(s),
        ] + segments(r, '/').map_values(|c: Seq<char>| display_escape(c)),
    }
}

/// The human-readable path of a location: `TD` and the escaped names,
/// separated by `/`.
pub open spec fn taildrive_display_of(loc: LocationView) -> Seq<char> {
    join_with(display_pieces(loc), seq!['/'])
}

fn push_display_piece(out: &mut Vec<char>, name: &str)
    ensures
        final(out)@ == old(out)@ + seq!['/'] + display_escape(name@),
{
    let e = encode_taildrive_display_component(name);
    let ec = chars_of(e.as_str());
    out.push('/');
    let ghost mid = out@;
    for i in 0..ec.len()
        invariant
            out@ == mid + ec@.take(i as int),
    {
        out.push(ec[i]);
        assert(ec@.take(i + 1) == ec@.take(i as int).push(ec@[i as int]));
    }
    assert(ec@.take(ec@.len() as int) == ec@);
}

proof fn lemma_join_push(parts: Seq<Seq<char>>, x: Seq<char>)
    requires
        parts.len() >= 1,
    ensures
        join_with(parts.push(x), seq!['/']) == join_with(parts, seq!['/']) + seq!['/'] + x,
{
    assert(parts.push(x).drop_last() == parts);
}

/// The human-readable path of a location.
pub fn taildrive_display_path(location: &TaildriveLocation) -> (out: String)
    ensures
        out@ == taildrive_display_of(location@),
{
    let mut out: Vec<char> = vec!['T', 'D'];
    let ghost mut pieces: Seq<Seq<char>> = seq![seq!['T', 'D']];
    assert(out@ == join_with(pieces, seq!['/']));
    match location {
        TaildriveLocation::Root => {},
        TaildriveLocation::Profile { profile_id } => {
            push_display_piece(&mut out, profile_id.as_str());
            proof { lemma_join_push(pieces, display_escape(profile_id@)); pieces = pieces.push(display_escape(profile_id@)); }
        },
        TaildriveLocation::Device { profile_id, device_id } => {
            push_display_piece(&mut out, profile_id.as_str());
            proof { lemma_join_push(pieces, display_escape(profile_id@)); pieces = pieces.push(display_escape(profile_id@)); }
            push_display_piece(&mut out, device_id.as_str());
            proof { lemma_join_push(pieces, display_escape(device_id@)); pieces = pieces.push(display_escape(device_id@)); }
        },
        TaildriveLocation::Remote { profile_id, device_id, share, remote_path } => {
            push_display_piece(&mut out, profile_id.as_str());
            proof { lemma_join_push(pieces, display_escape(profile_id@)); pieces = pieces.push(display_escape(profile_id@)); }
            push_display_piece(&mut out, device_id.as_str());
            proof { lemma_join_push(pieces, display_escape(device_id@)); pieces = pieces.push(display_escape(device_id@)); }
            push_display_piece(&mut out, share.as_str());
            proof { lemma_join_push(pieces, display_escape(share@)); pieces = pieces.push(display_escape(share@)); }
            let ghost head = pieces;
            let rc = chars_of(remote_path.as_str());
            let split = split_chars(rc.as_slice(), '/');
            let segs = keep_nonempty(&split);
            let ghost sv = segs@.map_values(|p: Vec<char>| p@);
            assert(sv == segments(remote_path@, '/'));
            for i in 0..segs.len()
                invariant
                    sv == segs@.map_values(|p: Vec<char>| p@),
                    pieces.len() >= 1,
                    pieces == head + sv.take(i as int).map_values(|c: Seq<char>| display_escape(c)),
                    out@ == join_with(pieces, seq!['/']),
            {
                let seg = string_from_chars(segs[i].as_slice());
                assert(seg@ == sv[i as int]);
                push_display_piece(&mut out, seg.as_str());
                proof {
                    lemma_join_push(pieces, display_escape(seg@));
                    pieces = pieces.push(display_escape(seg@));
                    assert(pieces =~= head + sv.take(i + 1).map_values(|c: Seq<char>| display_escape(c)));
                }
            }
            assert(sv.take(sv.len() as int) == sv);
        },
    }
    assert(pieces =~= display_pieces(location@));
    string_from_chars(out.as_slice())
}

/// Reads a human-readable TailDrive path typed by the user: surrounding
/// whitespace is ignored, `\\` counts as `/`, empty pieces are skipped and the
/// first piece must be `TailDrive` or `TD` in any ASCII case.
pub open spec fn parse_taildrive_display_spec(value: Seq<char>) -> Option<LocationView> {
    let c = segments(backslash_to_slash(trim(value)), '/');
    if c.len() == 0 || !(eq_ignore_ascii_case(c[0], "TailDrive"@) || eq_ignore_ascii_case(
        c[0],
        "TD"@,
    )) {
        None
    } else if c.len() == 1 {
        Some(LocationView::Root)
    } else if c.len() == 2 {
        Some(LocationView::Profile(display_unescape(c[1])))
    } else if c.len() == 3 {
        Some(LocationView::Device(display_unescape(c[1]), display_unescape(c[2])))
    } else {
        Some(
            LocationView::Remote(
                display_unescape(c[1]),
                display_unescape(c[2]),
                display_unescape(c[3]),
                join_with(c.skip(4).map_values(|x: Seq<char>| display_unescape(x)), seq!['/']),
            ),
        )
    }
}

fn unescape_piece(v: &Vec<char>) -> (r: String)
    ensures
        r@ == display_unescape(v@),
{
    let s = string_from_chars(v.as_slice());
    decode_taildrive_display_component(s.as_str())
}

/// Reads a human-readable TailDrive path typed by the user.
pub fn parse_taildrive_display_path(value: &str) -> (r: Option<TaildriveLocation>)
    ensures
        r matches Some(loc) ==> parse_taildrive_display_spec(value@) == Some(loc@),
        r is None ==> parse_taildrive_display_spec(value@) is None,
{
    let cs = chars_of(value);
    let trimmed = trim_chars(cs.as_slice());
    let normalized = slashes_for_backslashes(trimmed.as_slice());
    let split = split_chars(normalized.as_slice(), '/');
    let comps = keep_nonempty(&split);
    let ghost c = comps@.map_values(|p: Vec<char>| p@);
    let n = comps.len();
    if n == 0 {
        return None;
    }
    let long_name = chars_of("TailDrive");
    let short_name = chars_of("TD");
    assert(comps[0]@ == c[0]);
    if !chars_eq_ignore_ascii_case(comps[0].as_slice(), long_name.as_slice())
        && !chars_eq_ignore_ascii_case(comps[0].as_slice(), short_name.as_slice()) {
        return None;
    }
    if n == 1 {
        return Some(TaildriveLocation::Root);
    }
    assert(comps[1]@ == c[1]);
    let profile_id = unescape_piece(&comps[1]);
    if n == 2 {
        return Some(TaildriveLocation::Profile { profile_id });
    }
    assert(comps[2]@ == c[2]);
    let device_id = unescape_piece(&comps[2]);
    if n == 3 {
        return Some(TaildriveLocation::Device { profile_id, device_id });
    }
    assert(comps[3]@ == c[3]);
    let share = unescape_piece(&comps[3]);
    let mut rest: Vec<Vec<char>> = Vec::new();
    for i in 4..n
        invariant
            n == c.len(),
            c == comps@.map_values(|p: Vec<char>| p@),
            rest@.map_values(|p: Vec<char>| p@) == c.skip(4).take(i - 4).map_values(|x: Seq<char>| display_unescape(x)),
    {
        assert(comps[i as int]@ == c[i as int]);
        let piece = unescape_piece(&comps[i]);
        let pc = chars_of(piece.as_str());
        let ghost before = rest@.map_values(|p: Vec<char>| p@);
        rest.push(pc);
        assert(rest@.map_values(|p: Vec<char>| p@) =~= before.push(display_unescape(c[i as int])));
        assert(c.skip(4).take(i - 3).map_values(|x: Seq<char>| display_unescape(x)) =~= before.push(display_unescape(c[i as int])));
    }
    assert(c.skip(4).take(n - 4) == c.skip(4));
    let slash = vec!['/'];
    assert(slash@ =~= seq!['/']);
    let joined = join_chars(&rest, slash.as_slice());
    Some(TaildriveLocation::Remote {
        profile_id,
        device_id,
        share,
        remote_path: string_from_chars(joined.as_slice()),
    })
}

/// A display piece: non-empty and free of `/` and `\\`.
pub open spec fn display_piece(x: Seq<char>) -> bool {
    x.len() > 0 && !x.contains('/') && !x.contains('\\')
}

pub proof fn lemma_nonempty_parts_all(parts: Seq<Seq<char>>)
    requires
        forall|i: int| 0 <= i < parts.len() ==> (#[trigger] parts[i]).len() > 0,
    ensures
        nonempty_parts(parts) == parts,
    decreases parts.len(),
{
    if parts.len() > 0 {
        let init = parts.drop_last();
        assert forall|i: int| 0 <= i < init.len() implies (#[trigger] init[i]).len() > 0 by {
            assert(init[i] == parts[i]);
        }
        lemma_nonempty_parts_all(init);
        assert(parts[parts.len() - 1].len() > 0);
        assert(init.push(parts.last()) =~= parts);
    }
}

pub proof fn lemma_join_no_backslash(parts: Seq<Seq<char>>)
    requires
        forall|i: int| 0 <= i < parts.len() ==> !(#[trigger] parts[i]).contains('\\'),
    ensures
        !join_with(parts, seq!['/']).contains('\\'),
    decreases parts.len(),
{
    if parts.len() > 1 {
        let init = parts.drop_last();
        assert forall|i: int| 0 <= i < init.len() implies !(#[trigger] init[i]).contains('\\') by {
            assert(init[i] == parts[i]);
        }
        lemma_join_no_backslash(init);
        let a = join_with(init, seq!['/']);
        let l = parts.last();
        assert(!l.contains('\\')) by {
            assert(parts[parts.len() - 1] == l);
        }
        let j = a + seq!['/'] + l;
        assert forall|k: int| 0 <= k < j.len() implies j[k] != '\\' by {
            if k < a.len() {
                if a[k] == '\\' {
                    assert(a.contains('\\'));
                }
            } else if k > a.len() {
                if l[k - a.len() - 1] == '\\' {
                    assert(l.contains('\\'));
                }
            }
        }
    } else if parts.len() == 1 {
        assert(parts[0] == join_with(parts, seq!['/']));
    }
}

proof fn lemma_display_pieces(loc: LocationView)
    requires
        ids_nonempty(loc),
    ensures
        forall|i: int| 0 <= i < display_pieces(loc).len() ==> display_piece(#[trigger] display_pieces(loc)[i]),
        display_pieces(loc)[0] == seq!['T', 'D'],
{
    let xs = display_pieces(loc);
    assert(display_piece(seq!['T', 'D'])) by {
        assert(!seq!['T', 'D'].contains('/')) by {
            if seq!['T', 'D'].contains('/') {
                let k = choose|k: int| 0 <= k < 2 && seq!['T', 'D'][k] == '/';
            }
        }
        assert(!seq!['T', 'D'].contains('\\')) by {
            if seq!['T', 'D'].contains('\\') {
                let k = choose|k: int| 0 <= k < 2 && seq!['T', 'D'][k] == '\\';
            }
        }
    }
    assert forall|i: int| 0 <= i < xs.len() implies display_piece(#[trigger] xs[i]) by {
        if i > 0 {
            match loc {
                LocationView::Root => {},
                LocationView::Profile(p) => lemma_escape_no_separator(p),
                LocationView::Device(p, d) => {
                    lemma_escape_no_separator(p);
                    lemma_escape_no_separator(d);
                },
                LocationView::Remote(p, d, sh, r) => {
                    lemma_escape_no_separator(p);
                    lemma_escape_no_separator(d);
                    lemma_escape_no_separator(sh);
                    if i >= 4 {
                        let segs = segments(r, '/');
                        lemma_segments_nonempty(split_on(r, '/'));
                        assert(xs[i] == display_escape(segs[i - 4]));
                        lemma_escape_no_separator(segs[i - 4]);
                    }
                },
            }
        }
    }
}

/// Reading back the human-readable path of a location gives the location,
/// with a remote path in canonical form, when the path does not end in
/// whitespace (which reading trims away).
pub proof fn lemma_taildrive_display_round_trip(loc: LocationView)
    requires
        ids_nonempty(loc),
        !is_whitespace(taildrive_display_of(loc).last()),
    ensures
        parse_taildrive_display_spec(taildrive_display_of(loc)) == Some(canonical(loc)),
{
    let xs = display_pieces(loc);
    let d = taildrive_display_of(loc);
    lemma_display_pieces(loc);
    assert forall|i: int| 0 <= i < xs.len() implies !(#[trigger] xs[i]).contains('/') && !xs[i].contains('\\') && xs[i].len() > 0 by {
        assert(display_piece(xs[i]));
    }
    lemma_join_first(xs);
    assert(d[0] == 'T');
    assert(!is_whitespace(d[0]));
    assert(trim_start(d) == d);
    assert(trim_end(d) == d);
    assert(trim(d) == d);
    lemma_join_no_backslash(xs);
    assert(backslash_to_slash(d) =~= d) by {
        assert forall|k: int| 0 <= k < d.len() implies d[k] != '\\' by {
            if d[k] == '\\' {
                assert(d.contains('\\'));
            }
        }
    }
    lemma_split_join(xs, '/');
    lemma_nonempty_parts_all(xs);
    let c = segments(backslash_to_slash(trim(d)), '/');
    assert(c == xs);
    reveal_strlit("TD");
    assert("TD"@ =~= seq!['T', 'D']);
    assert(eq_ignore_ascii_case(c[0], "TD"@));
    match loc {
        LocationView::Root => {},
        LocationView::Profile(p) => {
            lemma_unescape_escape(p);
        },
        LocationView::Device(p, dv) => {
            lemma_unescape_escape(p);
            lemma_unescape_escape(dv);
        },
        LocationView::Remote(p, dv, sh, r) => {
            lemma_unescape_escape(p);
            lemma_unescape_escape(dv);
            lemma_unescape_escape(sh);
            let segs = segments(r, '/');
            assert forall|i: int| 0 <= i < segs.len() implies display_unescape(display_escape(#[trigger] segs[i])) == segs[i] by {
                lemma_unescape_escape(segs[i]);
            }
            assert(c.skip(4).map_values(|x: Seq<char>| display_unescape(x)) =~= segs);
        },
    }
}

/// The tailnet profile a location belongs to, if any.
pub fn taildrive_profile_id(location: &TaildriveLocation) -> (r: Option<&str>)
    ensures
        r matches Some(p) ==> match location@ {
            LocationView::Profile(q) => p@ == q,
            LocationView::Device(q, _) => p@ == q,
            LocationView::Remote(q, _, _, _) => p@ == q,
            LocationView::Root => false,
        },
        r is None <==> location@ is Root,
{
    match location {
        TaildriveLocation::Root => None,
        TaildriveLocation::Profile { profile_id } => Some(profile_id.as_str()),
        TaildriveLocation::Device { profile_id, .. } => Some(profile_id.as_str()),
        TaildriveLocation::Remote { profile_id, .. } => Some(profile_id.as_str()),
    }
}

/// The location one level up: the root has none, a profile's parent is the
/// root, a device's parent is its profile, and a remote path loses its last
/// non-empty segment (a share root goes up to its device).
pub open spec fn taildrive_parent_of(loc: LocationView) -> Option<LocationView> {
    match loc {
        LocationView::Root => None,
        LocationView::Profile(_) => Some(LocationView::Root),
        LocationView::Device(p, _) => Some(LocationView::Profile(p)),
        LocationView::Remote(p, d, s, r) => {
            let segs = segments(r, '/');
            if segs.len() > 0 {
                Some(LocationView::Remote(p, d, s, join_with(segs.drop_last(), seq!['/'])))
            } else {
                Some(LocationView::Device(p, d))
            }
        },
    }
}

/// The location one level up.
pub fn taildrive_parent(location: &TaildriveLocation) -> (r: Option<TaildriveLocation>)
    ensures
        r matches Some(l) ==> taildrive_parent_of(location@) == Some(l@),
        r is None ==> taildrive_parent_of(location@) is None,
{
    match location {
        TaildriveLocation::Root => None,
        TaildriveLocation::Profile { .. } => Some(TaildriveLocation::Root),
        TaildriveLocation::Device { profile_id, .. } => Some(
            TaildriveLocation::Profile { profile_id: profile_id.clone() },
        ),
        TaildriveLocation::Remote { profile_id, device_id, share, remote_path } => {
            let rc = chars_of(remote_path.as_str());
            let split = split_chars(rc.as_slice(), '/');
            let mut segs = keep_nonempty(&split);
            if segs.len() > 0 {
                let ghost before = segs@.map_values(|p: Vec<char>| p@);
                segs.pop();
                assert(segs@.map_values(|p: Vec<char>| p@) =~= before.drop_last());
                let slash = vec!['/'];
                assert(slash@ =~= seq!['/']);
                let joined = join_chars(&segs, slash.as_slice());
                Some(
                    TaildriveLocation::Remote {
                        profile_id: profile_id.clone(),
                        device_id: device_id.clone(),
                        share: share.clone(),
                        remote_path: string_from_chars(joined.as_slice()),
                    },
                )
            } else {
                Some(
                    TaildriveLocation::Device {
                        profile_id: profile_id.clone(),
                        device_id: device_id.clone(),
                    },
                )
            }
        },
    }
}

/// The key under which cached data about a location is stored: the
/// components of its internal path joined by `/`.
pub open spec fn location_key_of(loc: LocationView) -> Seq<char> {
    join_with(path_components(taildrive_path_of(loc)), seq!['/'])
}

fn location_key(location: &TaildriveLocation) -> (out: String)
    ensures
        out@ == location_key_of(location@),
{
    let path = taildrive_path(location);
    let comps = components(path.as_str());
    let slash = vec!['/'];
    assert(slash@ =~= seq!['/']);
    let joined = join_chars(&comps, slash.as_slice());
    string_from_chars(joined.as_slice())
}

/// The key of a location in the cache of opened remote files.
pub fn remote_cache_source_key(location: &TaildriveLocation) -> (out: String)
    ensures
        out@ == location_key_of(location@),
{
    location_key(location)
}

/// The key of a location in the cache of remote directory listings.
pub fn taildrive_directory_cache_key(location: &TaildriveLocation) -> (out: String)
    ensures
        out@ == location_key_of(location@),
{
    location_key(location)
}

/// Distinct locations never share a cache key: equal keys mean equal
/// locations once remote paths are put in canonical form.
pub proof fn lemma_location_key_injective(a: LocationView, b: LocationView)
    requires
        ids_nonempty(a),
        ids_nonempty(b),
        location_key_of(a) == location_key_of(b),
    ensures
        canonical(a) == canonical(b),
{
    lemma_key_is_path(a);
    lemma_key_is_path(b);
    lemma_taildrive_path_round_trip(a);
    lemma_taildrive_path_round_trip(b);
}

proof fn lemma_key_is_path(loc: LocationView)
    requires
        ids_nonempty(loc),
    ensures
        location_key_of(loc) == taildrive_path_of(loc),
{
    lemma_location_components(loc);
    lemma_root_piece();
    lemma_pieces_plain(loc);
    lemma_push_all_join(taildrive_root(), location_pieces(loc));
}

/// Drops trailing `/` characters.
pub open spec fn trim_trailing_slashes(s: Seq<char>) -> Seq<char>
    decreases s.len(),
{
    if s.len() > 0 && s.last() == '/' {
        trim_trailing_slashes(s.drop_last())
    } else {
        s
    }
}

/// The remote path of a child: the name itself under an empty parent, else
/// the parent without trailing slashes, a `/`, and the name.
pub open spec fn remote_child_path_of(parent: Seq<char>, name: Seq<char>) -> Seq<char> {
    if parent.len() == 0 {
        name
    } else {
        trim_trailing_slashes(parent) + seq!['/'] + name
    }
}

/// The remote path of a child entry.
pub fn remote_child_path(parent: &str, name: &str) -> (out: String)
    ensures
        out@ == remote_child_path_of(parent@, name@),
{
    let pc = chars_of(parent);
    if pc.len() == 0 {
        return name.to_owned();
    }
    let mut end = pc.len();
    assert(pc@.take(end as int) == pc@);
    while end > 0 && pc[end - 1] == '/'
        invariant
            end <= pc@.len(),
            trim_trailing_slashes(pc@) == trim_trailing_slashes(pc@.take(end as int)),
        decreases end,
    {
        assert(pc@.take(end as int).drop_last() == pc@.take(end - 1));
        end = end - 1;
    }
    let mut out: Vec<char> = Vec::new();
    for i in 0..end
        invariant
            end <= pc@.len(),
            out@ == pc@.take(i as int),
    {
        out.push(pc[i]);
        assert(pc@.take(i + 1) == pc@.take(i as int).push(pc@[i as int]));
    }
    assert(trim_trailing_slashes(pc@.take(end as int)) == pc@.take(end as int));
    out.push('/');
    let nc = chars_of(name);
    let ghost mid = out@;
    for i in 0..nc.len()
        invariant
            out@ == mid + nc@.take(i as int),
    {
        out.push(nc[i]);
        assert(nc@.take(i + 1) == nc@.take(i as int).push(nc@[i as int]));
    }
    assert(nc@.take(nc@.len() as int) == nc@);
    string_from_chars(out.as_slice())
}

pub proof fn lemma_split_pieces_free(s: Seq<char>, sep: char)
    ensures
        forall|i: int| 0 <= i < split_on(s, sep).len() ==> !(#[trigger] split_on(s, sep)[i]).contains(sep),
    decreases s.len(),
{
    if s.len() > 0 {
        lemma_split_pieces_free(s.drop_last(), sep);
        lemma_split_len(s.drop_last(), sep);
        let init = split_on(s.drop_last(), sep);
        if s.last() == sep {
            assert forall|i: int| 0 <= i < init.push(Seq::empty()).len() implies !(#[trigger] init.push(
                Seq::<char>::empty(),
            )[i]).contains(sep) by {
                if i < init.len() {
                    assert(init.push(Seq::empty())[i] == init[i]);
                }
            }
        } else {
            let x = init.last();
            let y = x.push(s.last());
            assert(!x.contains(sep)) by {
                assert(init[init.len() - 1] == x);
            }
            assert(!y.contains(sep)) by {
                if y.contains(sep) {
                    let k = choose|k: int| 0 <= k < y.len() && y[k] == sep;
                    assert(x[k] == sep);
                }
            }
            let up = init.update(init.len() - 1, y);
            assert forall|i: int| 0 <= i < up.len() implies !(#[trigger] up[i]).contains(sep) by {
                if i < init.len() - 1 {
                    assert(up[i] == init[i]);
                }
            }
        }
    }
}

proof fn lemma_nonempty_parts_free(parts: Seq<Seq<char>>, sep: char)
    requires
        forall|i: int| 0 <= i < parts.len() ==> !(#[trigger] parts[i]).contains(sep),
    ensures
        forall|i: int| 0 <= i < nonempty_parts(parts).len() ==> !(#[trigger] nonempty_parts(parts)[i]).contains(sep),
    decreases parts.len(),
{
    if parts.len() > 0 {
        let init = parts.drop_last();
        assert forall|i: int| 0 <= i < init.len() implies !(#[trigger] init[i]).contains(sep) by {
            assert(init[i] == parts[i]);
        }
        lemma_nonempty_parts_free(init, sep);
        let prev = nonempty_parts(init);
        assert(!parts.last().contains(sep)) by {
            assert(parts[parts.len() - 1] == parts.last());
        }
        if parts.last().len() > 0 {
            assert forall|i: int| 0 <= i < prev.push(parts.last()).len() implies !(#[trigger] prev.push(
                parts.last(),
            )[i]).contains(sep) by {
                if i < prev.len() {
                    assert(prev.push(parts.last())[i] == prev[i]);
                }
            }
        }
    }
}

/// Dropping the last segment of a path and joining the rest gives a path
/// whose segments are the rest.
proof fn lemma_segments_drop_last(r: Seq<char>)
    requires
        segments(r, '/').len() > 0,
    ensures
        segments(join_with(segments(r, '/').drop_last(), seq!['/']), '/') == segments(r, '/').drop_last(),
{
    let segs = segments(r, '/');
    let d = segs.drop_last();
    lemma_split_pieces_free(r, '/');
    lemma_nonempty_parts_free(split_on(r, '/'), '/');
    lemma_segments_nonempty(split_on(r, '/'));
    assert forall|i: int| 0 <= i < d.len() implies (#[trigger] d[i]).len() > 0 && !d[i].contains('/') by {
        assert(d[i] == segs[i]);
    }
    if d.len() == 0 {
        assert(split_on(Seq::<char>::empty(), '/') == seq![Seq::<char>::empty()]);
        let one = seq![Seq::<char>::empty()];
        assert(one.last().len() == 0);
        assert(one.drop_last() =~= Seq::<Seq<char>>::empty());
        assert(nonempty_parts(one.drop_last()) =~= Seq::<Seq<char>>::empty());
        assert(nonempty_parts(one) =~= Seq::<Seq<char>>::empty());
    } else {
        lemma_split_join(d, '/');
        lemma_nonempty_parts_all(d);
    }
}

/// How far a location lies below the TailDrive root: a profile one level,
/// a device two, a share three, and one more for each folder in it.
pub open spec fn location_depth(loc: LocationView) -> int {
    match loc {
        LocationView::Root => 0,
        LocationView::Profile(_) => 1,
        LocationView::Device(_, _) => 2,
        LocationView::Remote(_, _, _, r) => 3 + segments(r, '/').len() as int,
    }
}

/// Going up leads exactly one level up, and only the root has no parent;
/// from a device or anything in it, going up stays in the same tailnet
/// profile, and from inside a share it stays on the same device and share
/// or reaches that device (at the share root); inside a share it drops
/// the last folder of the path and keeps the others.
pub proof fn lemma_parent_one_level_up(loc: LocationView)
    ensures
        taildrive_parent_of(loc) is None <==> loc is Root,
        taildrive_parent_of(loc) matches Some(up) ==> location_depth(up) + 1 == location_depth(loc),
        loc is Profile ==> taildrive_parent_of(loc) == Some(LocationView::Root),
        (loc is Device || loc is Remote) ==> (taildrive_parent_of(loc) matches Some(up) && location_profile(up)
            == location_profile(loc)),
        loc matches LocationView::Remote(p, d, s, _) ==> (taildrive_parent_of(loc) == Some(LocationView::Device(p, d))
            || (taildrive_parent_of(loc) matches Some(LocationView::Remote(p2, d2, s2, _)) && p2 == p && d2 == d && s2
            == s)),
        loc matches LocationView::Remote(p, d, _, r) ==> (segments(r, '/').len() == 0 <==> taildrive_parent_of(loc)
            == Some(LocationView::Device(p, d))),
        loc matches LocationView::Remote(_, _, _, r) ==> (taildrive_parent_of(loc) matches Some(
            LocationView::Remote(_, _, _, r2),
        ) ==> segments(r2, '/') == segments(r, '/').drop_last()),
{
    if let LocationView::Remote(p, d, s, r) = loc {
        if segments(r, '/').len() > 0 {
            lemma_segments_drop_last(r);
        }
    }
}

} // verus!
