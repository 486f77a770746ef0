use vstd::prelude::*;
use crate::paths::{
    components, extension, file_name, lemma_components_of_join, lemma_push_all_join,
    lemma_push_all_push, parent, path_components, path_extension, path_file_name, path_parent,
    plain_piece, push_all, push_piece, push_rel,
};
use crate::taildrive::{
    decode_all, lemma_decode_all_hexed, lemma_join_no_backslash, lemma_nonempty_parts_all,
    lemma_split_pieces_free,
};
use crate::text::{
    concat_texts, decimal_chars, decimal_of, same_chars,
    backslash_to_slash, chars_eq_ignore_ascii_case, chars_of, eq_ignore_ascii_case, hex_decode,
    hex_decoded, hex_encode, hexed, join_chars, join_with, keep_nonempty, segments,
    slashes_for_backslashes, split_chars, split_on, string_from_chars, trim, trim_chars, trim_end, trim_start,
    is_whitespace,
    lemma_split_len, lemma_split_join, lemma_hexed_piece, lemma_hex_text_round_trip,
    nonempty_parts,
};

verus! {

/// A folder or member inside a ZIP archive: the archive file and the
/// `/`-separated path inside it (empty for the archive root).
#[derive(Debug, Clone, PartialEq, Eq, PartialOrd, Ord, Hash)]
pub struct ArchiveLocation {
    pub archive_path: String,
    pub inner_path: String,
}

impl View for ArchiveLocation {
    type V = (Seq<char>, Seq<char>);

    open spec fn view(&self) -> (Seq<char>, Seq<char>) {
        (self.archive_path@, self.inner_path@)
    }
}

/// One row of an archive folder listing.
#[derive(Debug, Clone)]
pub struct ArchiveEntry {
    pub name: String,
    pub directory: bool,
    pub size: u64,
    pub modified_sort_key: u64,
}

/// The first component of every internal archive path.
pub open spec fn archive_root() -> Seq<char> {
    "__fast_explorer_archive__"@
}

/// A piece of an inner path that names a member: not empty, `.` or `..`.
pub open spec fn is_proper_part(p: Seq<char>) -> bool {
    p.len() > 0 && p != seq!['.'] && p != seq!['.', '.']
}

/// The pieces that name members, in order.
pub open spec fn proper_parts(parts: Seq<Seq<char>>) -> Seq<Seq<char>>
    decreases parts.len(),
{
    if parts.len() == 0 {
        Seq::empty()
    } else if is_proper_part(parts.last()) {
        proper_parts(parts.drop_last()).push(parts.last())
    } else {
        proper_parts(parts.drop_last())
    }
}

/// The member names along an inner path, with `\` read as `/` and empty,
/// `.` and `..` pieces dropped.
pub open spec fn inner_parts(v: Seq<char>) -> Seq<Seq<char>> {
    proper_parts(split_on(backslash_to_slash(v), '/'))
}

/// The canonical spelling of an inner path.
pub open spec fn normalize_inner_of(v: Seq<char>) -> Seq<char> {
    join_with(inner_parts(v), seq!['/'])
}

fn is_proper_part_exec(p: &Vec<char>) -> (r: bool)
    ensures
        r == is_proper_part(p@),
{
    if p.len() == 0 {
        false
    } else if p.len() == 1 && p[0] == '.' {
        assert(p@ =~= seq!['.']);
        false
    } else if p.len() == 2 && p[0] == '.' && p[1] == '.' {
        assert(p@ =~= seq!['.', '.']);
        false
    } else {
        assert(p@.len() == 1 ==> p@ != seq!['.']) by {
            if p@.len() == 1 && p@ == seq!['.'] {
                assert(p@[0] == '.');
            }
        }
        assert(p@.len() == 2 ==> p@ != seq!['.', '.']) by {
            if p@.len() == 2 && p@ == seq!['.', '.'] {
                assert(p@[0] == '.' && p@[1] == '.');
            }
        }
        true
    }
}

fn inner_parts_exec(value: &str) -> (out: Vec<Vec<char>>)
    ensures
        out@.map_values(|p: Vec<char>| p@) == inner_parts(value@),
{
    let cs = chars_of(value);
    let slashed = slashes_for_backslashes(cs.as_slice());
    let split = split_chars(slashed.as_slice(), '/');
    let ghost all = split@.map_values(|p: Vec<char>| p@);
    let mut out: Vec<Vec<char>> = Vec::new();
    for i in 0..split.len()
        invariant
            all == split@.map_values(|p: Vec<char>| p@),
            out@.map_values(|p: Vec<char>| p@) == proper_parts(all.take(i as int)),
    {
        assert(all.take(i + 1).drop_last() == all.take(i as int));
        assert(split[i as int]@ == all[i as int]);
        if is_proper_part_exec(&split[i]) {
            let part = split[i].clone();
            let ghost before = out@.map_values(|p: Vec<char>| p@);
            out.push(part);
            assert(out@.map_values(|p: Vec<char>| p@) =~= before.push(all[i as int]));
        }
    }
    assert(all.take(all.len() as int) == all);
    out
}

/// The canonical spelling of an inner path: `\` read as `/`, and empty, `.`
/// and `..` pieces dropped.
pub fn normalize_inner(value: &str) -> (out: String)
    ensures
        out@ == normalize_inner_of(value@),
{
    let parts = inner_parts_exec(value);
    let slash = vec!['/'];
    assert(slash@ =~= seq!['/']);
    let joined = join_chars(&parts, slash.as_slice());
    string_from_chars(joined.as_slice())
}

fn hex_encode_text(value: &str) -> (out: String)
    ensures
        out@ == hexed(value@),
{
    hex_encode(value)
}

fn hex_decode_text(value: &str) -> (r: Option<String>)
    ensures
        r matches Some(s) ==> hex_decoded(value@) == Some(s@),
        r is None ==> hex_decoded(value@) is None,
{
    hex_decode(value)
}

/// The internal path that stands for an archive location: the archive root
/// component, the hex-spelled archive path, then one hex-spelled component
/// per member name.
pub open spec fn virtual_path_of(l: (Seq<char>, Seq<char>)) -> Seq<char> {
    push_all(
        archive_root(),
        seq![hexed(l.0)] + segments(normalize_inner_of(l.1), '/').map_values(|c: Seq<char>| hexed(c)),
    )
}

/// The internal path that stands for an archive location.
pub fn virtual_path(location: &ArchiveLocation) -> (out: String)
    ensures
        out@ == virtual_path_of(location@),
{
    let mut buf = chars_of("__fast_explorer_archive__");
    let ghost root = buf@;
    let archive_hex = hex_encode_text(location.archive_path.as_str());
    let ac = chars_of(archive_hex.as_str());
    push_piece(&mut buf, ac.as_slice());
    let ghost head: Seq<Seq<char>> = seq![hexed(location.archive_path@)];
    proof {
        lemma_push_all_push(root, Seq::empty(), hexed(location.archive_path@));
        assert(Seq::<Seq<char>>::empty().push(hexed(location.archive_path@)) =~= head);
    }
    let inner = normalize_inner(location.inner_path.as_str());
    let ic = chars_of(inner.as_str());
    let split = split_chars(ic.as_slice(), '/');
    let segs = keep_nonempty(&split);
    let ghost sv = segs@.map_values(|p: Vec<char>| p@);
    let ghost mut pushed = head;
    for i in 0..segs.len()
        invariant
            sv == segs@.map_values(|p: Vec<char>| p@),
            pushed == head + sv.take(i as int).map_values(|c: Seq<char>| hexed(c)),
            buf@ == push_all(root, pushed),
    {
        let seg = string_from_chars(segs[i].as_slice());
        assert(seg@ == sv[i as int]);
        let h = hex_encode_text(seg.as_str());
        let hc = chars_of(h.as_str());
        push_piece(&mut buf, hc.as_slice());
        proof {
            lemma_push_all_push(root, pushed, hexed(seg@));
            pushed = pushed.push(hexed(seg@));
            assert(pushed =~= head + sv.take(i + 1).map_values(|c: Seq<char>| hexed(c)));
        }
    }
    assert(sv.take(sv.len() as int) == sv);
    string_from_chars(buf.as_slice())
}

/// The archive location an internal path stands for.
pub open spec fn parse_virtual_spec(path: Seq<char>) -> Option<(Seq<char>, Seq<char>)> {
    let c = path_components(path);
    if c.len() < 2 || c[0] != archive_root() {
        None
    } else {
        match hex_decoded(c[1]) {
            None => None,
            Some(a) => match decode_all(c.skip(2)) {
                None => None,
                Some(inner) => Some((a, normalize_inner_of(join_with(inner, seq!['/'])))),
            },
        }
    }
}

fn chars_eq(a: &[char], b: &[char]) -> (r: bool)
    ensures
        r == (a@ == b@),
{
    if a.len() != b.len() {
        return false;
    }
    for i in 0..a.len()
        invariant
            a@.len() == b@.len(),
            forall|k: int| 0 <= k < i ==> a@[k] == b@[k],
    {
        if a[i] != b[i] {
            return false;
        }
    }
    assert(a@ =~= b@);
    true
}

/// Reads the archive location an internal path stands for.
pub fn parse_virtual_path(path: &str) -> (r: Option<ArchiveLocation>)
    ensures
        r matches Some(l) ==> parse_virtual_spec(path@) == Some(l@),
        r is None ==> parse_virtual_spec(path@) is None,
{
    let comps = components(path);
    let ghost c = comps@.map_values(|p: Vec<char>| p@);
    let n = comps.len();
    if n < 2 {
        return None;
    }
    let root = chars_of("__fast_explorer_archive__");
    assert(comps[0]@ == c[0]);
    if !chars_eq(comps[0].as_slice(), root.as_slice()) {
        return None;
    }
    assert(comps[1]@ == c[1]);
    let archive_text = string_from_chars(comps[1].as_slice());
    let archive_path = match hex_decode_text(archive_text.as_str()) {
        Some(a) => a,
        None => return None,
    };
    let ghost tail = c.skip(2);
    let mut decoded: Vec<Vec<char>> = Vec::new();
    let mut i: usize = 2;
    while i < n
        invariant
            2 <= i <= n,
            n == c.len(),
            c == comps@.map_values(|p: Vec<char>| p@),
            c == path_components(path@),
            c[0] == archive_root(),
            hex_decoded(c[1]) == Some(archive_path@),
            tail == c.skip(2),
            decode_all(tail.take(i - 2)) == Some(decoded@.map_values(|p: Vec<char>| p@)),
        decreases n - i,
    {
        assert(comps[i as int]@ == c[i as int]);
        assert(tail.take(i - 1).drop_last() =~= tail.take(i - 2));
        assert(tail.take(i - 1).last() == c[i as int]);
        let piece = string_from_chars(comps[i].as_slice());
        match hex_decode_text(piece.as_str()) {
            Some(part) => {
                let pc = chars_of(part.as_str());
                let ghost before = decoded@.map_values(|p: Vec<char>| p@);
                decoded.push(pc);
                assert(decoded@.map_values(|p: Vec<char>| p@) =~= before.push(part@));
                i = i + 1;
            },
            None => {
                proof {
                    assert(decode_all(tail.take(i - 1)) is None);
                    lemma_decode_all_none_grows(tail, i - 1);
                }
                return None;
            },
        }
    }
    assert(tail.take(n - 2) =~= tail);
    let slash = vec!['/'];
    assert(slash@ =~= seq!['/']);
    let joined = join_chars(&decoded, slash.as_slice());
    let joined_text = string_from_chars(joined.as_slice());
    Some(ArchiveLocation { archive_path, inner_path: normalize_inner(joined_text.as_str()) })
}

proof fn lemma_decode_all_none_grows(parts: Seq<Seq<char>>, k: int)
    requires
        0 <= k <= parts.len(),
        decode_all(parts.take(k)) is None,
    ensures
        decode_all(parts) is None,
    decreases parts.len() - k,
{
    if k < parts.len() {
        assert(parts.take(k + 1).drop_last() =~= parts.take(k));
        lemma_decode_all_none_grows(parts, k + 1);
    } else {
        assert(parts.take(k) =~= parts);
    }
}


fn append_chars(out: &mut Vec<char>, x: &[char])
    ensures
        final(out)@ == old(out)@ + x@,
{
    let ghost mid = out@;
    for i in 0..x.len()
        invariant
            out@ == mid + x@.take(i as int),
    {
        out.push(x[i]);
        assert(x@.take(i + 1) == x@.take(i as int).push(x@[i as int]));
    }
    assert(x@.take(x@.len() as int) == x@);
}

/// The human-readable path of an archive location: the archive path with
/// `/` for `\`, then `!/`, then the canonical inner path.
pub open spec fn archive_display_of(l: (Seq<char>, Seq<char>)) -> Seq<char> {
    backslash_to_slash(l.0) + seq!['!', '/'] + normalize_inner_of(l.1)
}

/// The human-readable path of an archive location.
pub fn display_path(location: &ArchiveLocation) -> (out: String)
    ensures
        out@ == archive_display_of(location@),
{
    let ac = chars_of(location.archive_path.as_str());
    let mut out = slashes_for_backslashes(ac.as_slice());
    out.push('!');
    out.push('/');
    let inner = normalize_inner(location.inner_path.as_str());
    let ic = chars_of(inner.as_str());
    append_chars(&mut out, ic.as_slice());
    string_from_chars(out.as_slice())
}

/// Whether a path names a ZIP archive: its extension is `zip` in any ASCII
/// case.
pub open spec fn is_supported_archive_spec(path: Seq<char>) -> bool {
    match path_extension(path) {
        Some(e) => eq_ignore_ascii_case(e, "zip"@),
        None => false,
    }
}

/// Whether a path names a ZIP archive.
pub fn is_supported_archive(path: &str) -> (r: bool)
    ensures
        r == is_supported_archive_spec(path@),
{
    match extension(path) {
        Some(e) => {
            let ec = chars_of(e.as_str());
            let zip = chars_of("zip");
            chars_eq_ignore_ascii_case(ec.as_slice(), zip.as_slice())
        },
        None => false,
    }
}

/// The index of the first `!/` in a text.
pub open spec fn first_bang_slash(n: Seq<char>) -> Option<int>
    decreases n.len(),
{
    if n.len() < 2 {
        None
    } else if n[0] == '!' && n[1] == '/' {
        Some(0)
    } else {
        match first_bang_slash(n.drop_first()) {
            Some(k) => Some(k + 1),
            None => None,
        }
    }
}

/// Reads a human-readable archive path: surrounding whitespace is ignored,
/// `\` counts as `/`, the text before the first `!/` must name a ZIP
/// archive, and the rest is the inner path.
pub open spec fn parse_archive_display_spec(value: Seq<char>) -> Option<(Seq<char>, Seq<char>)> {
    let n = backslash_to_slash(trim(value));
    match first_bang_slash(n) {
        None => None,
        Some(k) => if is_supported_archive_spec(n.take(k)) {
            Some((n.take(k), normalize_inner_of(n.skip(k + 2))))
        } else {
            None
        },
    }
}

proof fn lemma_first_bang_slash_concat(a: Seq<char>, t: Seq<char>)
    requires
        first_bang_slash(a) is None,
        t.len() >= 2,
        t[0] == '!',
        t[1] == '/',
    ensures
        first_bang_slash(a + t) == Some(a.len() as int),
    decreases a.len(),
{
    let n = a + t;
    if a.len() == 0 {
        assert(n =~= t);
    } else {
        assert(n[0] == a[0]);
        if a.len() > 1 {
            assert(n[1] == a[1]);
        }
        assert(n.drop_first() =~= a.drop_first() + t);
        lemma_first_bang_slash_concat(a.drop_first(), t);
    }
}

/// Reading back the human-readable path of an archive location gives the
/// location with its inner path in normal form, when the archive path names
/// a ZIP archive, holds no backslash and no `!/` and does not start with
/// whitespace, and the inner path's normal form does not end in whitespace.
pub proof fn lemma_display_path_round_trip(l: (Seq<char>, Seq<char>))
    requires
        is_supported_archive_spec(l.0),
        !l.0.contains('\\'),
        first_bang_slash(l.0) is None,
        l.0.len() > 0 ==> !is_whitespace(l.0[0]),
        normalize_inner_of(l.1).len() > 0 ==> !is_whitespace(normalize_inner_of(l.1).last()),
    ensures
        parse_archive_display_spec(archive_display_of(l)) == Some((l.0, normalize_inner_of(l.1))),
{
    let a = l.0;
    let ni = normalize_inner_of(l.1);
    assert(backslash_to_slash(a) =~= a) by {
        assert forall|i: int| 0 <= i < a.len() implies a[i] != '\\' by {
            if a[i] == '\\' {
                assert(a.contains('\\'));
            }
        }
    }
    let d = archive_display_of(l);
    let t = seq!['!', '/'] + ni;
    assert(d =~= a + t);
    lemma_inner_parts_shape(l.1);
    lemma_join_no_backslash(inner_parts(l.1));
    assert(!ni.contains('\\'));
    if a.len() > 0 {
        assert(d[0] == a[0]);
    } else {
        assert(d[0] == '!');
    }
    assert(trim_start(d) == d);
    if ni.len() > 0 {
        assert(d.last() == ni.last());
    } else {
        assert(d.last() == '/');
    }
    assert(trim_end(d) == d);
    assert(trim(d) == d);
    assert(backslash_to_slash(d) =~= d) by {
        assert forall|i: int| 0 <= i < d.len() implies d[i] != '\\' by {
            if i < a.len() {
                assert(d[i] == a[i]);
                if a[i] == '\\' {
                    assert(a.contains('\\'));
                }
            } else if i >= a.len() + 2 {
                assert(d[i] == ni[i - a.len() - 2]);
                if ni[i - a.len() - 2] == '\\' {
                    assert(ni.contains('\\'));
                }
            }
        }
    }
    lemma_first_bang_slash_concat(a, t);
    assert(d.take(a.len() as int) =~= a);
    assert(d.skip(a.len() as int + 2) =~= ni);
    lemma_normalize_inner_idempotent(l.1);
}

fn first_bang_slash_exec(n: &Vec<char>) -> (r: Option<usize>)
    ensures
        r matches Some(k) ==> (first_bang_slash(n@) == Some(k as int) && k + 2 <= n@.len()),
        r is None ==> first_bang_slash(n@) is None,
{
    let mut i: usize = 0;
    assert(n@.skip(0) == n@);
    while n.len() - i >= 2
        invariant
            i <= n@.len(),
            first_bang_slash(n@) == match first_bang_slash(n@.skip(i as int)) {
                Some(k) => Some(k + i),
                None => None,
            },
        decreases n.len() - i,
    {
        if n[i] == '!' && n[i + 1] == '/' {
            assert(n@.skip(i as int)[0] == '!' && n@.skip(i as int)[1] == '/');
            return Some(i);
        }
        assert(n@.skip(i as int).drop_first() == n@.skip(i + 1));
        i = i + 1;
    }
    assert(n@.skip(i as int).len() < 2);
    None
}

fn subrange_chars(v: &Vec<char>, from: usize, to: usize) -> (out: Vec<char>)
    requires
        from <= to <= v@.len(),
    ensures
        out@ == v@.subrange(from as int, to as int),
{
    let mut out: Vec<char> = Vec::new();
    for i in from..to
        invariant
            from <= to <= v@.len(),
            out@ == v@.subrange(from as int, i as int),
    {
        out.push(v[i]);
        assert(v@.subrange(from as int, i + 1) == v@.subrange(from as int, i as int).push(v@[i as int]));
    }
    out
}

/// Reads a human-readable archive path typed by the user.
pub fn parse_display_path(value: &str) -> (r: Option<ArchiveLocation>)
    ensures
        r matches Some(l) ==> parse_archive_display_spec(value@) == Some(l@),
        r is None ==> parse_archive_display_spec(value@) is None,
{
    let cs = chars_of(value);
    let trimmed = trim_chars(cs.as_slice());
    let n = slashes_for_backslashes(trimmed.as_slice());
    let found = first_bang_slash_exec(&n);
    match found {
        None => None,
        Some(k) => {
            assert(first_bang_slash(n@) == Some(k as int) && k + 2 <= n@.len());
            let archive = subrange_chars(&n, 0, k);
            assert(archive@ =~= n@.take(k as int));
            let len = n.len();
            assert(k + 2 <= len);
            let rest = subrange_chars(&n, k + 2, len);
            assert(rest@ =~= n@.skip(k + 2));
            let archive_path = string_from_chars(archive.as_slice());
            if is_supported_archive(archive_path.as_str()) {
                let rest_text = string_from_chars(rest.as_slice());
                Some(
                    ArchiveLocation {
                        archive_path,
                        inner_path: normalize_inner(rest_text.as_str()),
                    },
                )
            } else {
                None
            }
        },
    }
}

/// The internal path one level up from an archive location: the folder that
/// holds the archive for the archive root, else the parent member folder.
pub open spec fn archive_parent_of(l: (Seq<char>, Seq<char>)) -> Option<Seq<char>> {
    let inner = normalize_inner_of(l.1);
    if inner.len() == 0 {
        path_parent(l.0)
    } else {
        Some(virtual_path_of((l.0, join_with(split_on(inner, '/').drop_last(), seq!['/']))))
    }
}

/// The internal path one level up from an archive location.
pub fn parent_path(location: &ArchiveLocation) -> (r: Option<String>)
    ensures
        r matches Some(p) ==> archive_parent_of(location@) == Some(p@),
        r is None ==> archive_parent_of(location@) is None,
{
    let inner = normalize_inner(location.inner_path.as_str());
    let ic = chars_of(inner.as_str());
    if ic.len() == 0 {
        return parent(location.archive_path.as_str());
    }
    let mut parts = split_chars(ic.as_slice(), '/');
    let ghost all = parts@.map_values(|p: Vec<char>| p@);
    proof {
        lemma_split_len(ic@, '/');
    }
    parts.pop();
    assert(parts@.map_values(|p: Vec<char>| p@) =~= all.drop_last());
    let slash = vec!['/'];
    assert(slash@ =~= seq!['/']);
    let joined = join_chars(&parts, slash.as_slice());
    let up = ArchiveLocation {
        archive_path: location.archive_path.clone(),
        inner_path: string_from_chars(joined.as_slice()),
    };
    Some(virtual_path(&up))
}

/// The location of a member named `name` inside the folder `parent`.
pub open spec fn child_location_of(parent: (Seq<char>, Seq<char>), name: Seq<char>) -> (Seq<char>, Seq<char>) {
    let inner = normalize_inner_of(parent.1);
    (
        parent.0,
        if inner.len() == 0 {
            normalize_inner_of(name)
        } else {
            inner + seq!['/'] + normalize_inner_of(name)
        },
    )
}

/// The location of a member named `name` inside the folder `parent`.
pub fn child_location(parent: &ArchiveLocation, name: &str) -> (r: ArchiveLocation)
    ensures
        r@ == child_location_of(parent@, name@),
{
    let inner = normalize_inner(parent.inner_path.as_str());
    let ic = chars_of(inner.as_str());
    let child = normalize_inner(name);
    if ic.len() == 0 {
        ArchiveLocation { archive_path: parent.archive_path.clone(), inner_path: child }
    } else {
        let mut out = ic;
        out.push('/');
        let cc = chars_of(child.as_str());
        append_chars(&mut out, cc.as_slice());
        ArchiveLocation {
            archive_path: parent.archive_path.clone(),
            inner_path: string_from_chars(out.as_slice()),
        }
    }
}

/// The title shown for an archive location: the last member name, else the
/// archive's file name, else `Archive`.
pub open spec fn archive_title_of(l: (Seq<char>, Seq<char>)) -> Seq<char> {
    let segs = segments(normalize_inner_of(l.1), '/');
    if segs.len() > 0 {
        segs.last()
    } else {
        match path_file_name(l.0) {
            Some(f) => f,
            None => "Archive"@,
        }
    }
}

/// The title shown for an archive location.
pub fn title(location: &ArchiveLocation) -> (out: String)
    ensures
        out@ == archive_title_of(location@),
{
    let inner = normalize_inner(location.inner_path.as_str());
    let ic = chars_of(inner.as_str());
    let split = split_chars(ic.as_slice(), '/');
    let segs = keep_nonempty(&split);
    let n = segs.len();
    if n > 0 {
        assert(segs[n - 1]@ == segs@.map_values(|p: Vec<char>| p@).last());
        string_from_chars(segs[n - 1].as_slice())
    } else {
        match file_name(location.archive_path.as_str()) {
            Some(f) => f,
            None => "Archive".to_owned(),
        }
    }
}


/// No piece of a split holds the separator.
proof fn lemma_split_pieces(s: Seq<char>, sep: char, c: char)
    requires
        c == sep || !s.contains(c),
    ensures
        forall|i: int| 0 <= i < split_on(s, sep).len() ==> !(#[trigger] split_on(s, sep)[i]).contains(c),
    decreases s.len(),
{
    if s.len() > 0 {
        assert(!s.drop_last().contains(c) || c == sep) by {
            if s.drop_last().contains(c) && c != sep {
                let k = choose|k: int| 0 <= k < s.drop_last().len() && s.drop_last()[k] == c;
                assert(s[k] == c);
            }
        }
        lemma_split_pieces(s.drop_last(), sep, c);
        lemma_split_len(s.drop_last(), sep);
        let init = split_on(s.drop_last(), sep);
        if s.last() != sep {
            assert(s.last() != c) by {
                if s.last() == c {
                    assert(s[s.len() - 1] == c);
                }
            }
            let grown = init.last().push(s.last());
            assert(!grown.contains(c)) by {
                if grown.contains(c) {
                    let k = choose|k: int| 0 <= k < grown.len() && grown[k] == c;
                    if k < init.last().len() {
                        assert(init[init.len() - 1] == init.last());
                        assert(init.last().contains(c));
                    }
                }
            }
            assert forall|i: int| 0 <= i < split_on(s, sep).len() implies !(#[trigger] split_on(s, sep)[i]).contains(c) by {
                if i < init.len() - 1 {
                    assert(split_on(s, sep)[i] == init[i]);
                }
            }
        } else {
            assert(!Seq::<char>::empty().contains(c));
            assert forall|i: int| 0 <= i < split_on(s, sep).len() implies !(#[trigger] split_on(s, sep)[i]).contains(c) by {
                if i < init.len() {
                    assert(split_on(s, sep)[i] == init[i]);
                }
            }
        }
    }
}

proof fn lemma_no_backslash_after_conversion(s: Seq<char>)
    ensures
        !backslash_to_slash(s).contains('\\'),
{
    if backslash_to_slash(s).contains('\\') {
        let k = choose|k: int| 0 <= k < backslash_to_slash(s).len() && backslash_to_slash(s)[k] == '\\';
    }
}

proof fn lemma_proper_parts_sub(parts: Seq<Seq<char>>, c: char)
    requires
        forall|i: int| 0 <= i < parts.len() ==> !(#[trigger] parts[i]).contains(c),
    ensures
        forall|i: int| 0 <= i < proper_parts(parts).len() ==> !(#[trigger] proper_parts(parts)[i]).contains(c),
        forall|i: int| 0 <= i < proper_parts(parts).len() ==> is_proper_part(#[trigger] proper_parts(parts)[i]),
    decreases parts.len(),
{
    if parts.len() > 0 {
        let init = parts.drop_last();
        assert forall|i: int| 0 <= i < init.len() implies !(#[trigger] init[i]).contains(c) by {
            assert(init[i] == parts[i]);
        }
        lemma_proper_parts_sub(init, c);
        assert(!parts[parts.len() - 1].contains(c));
        let pi = proper_parts(init);
        if is_proper_part(parts.last()) {
            assert forall|i: int| 0 <= i < pi.push(parts.last()).len() implies !(#[trigger] pi.push(parts.last())[i]).contains(c) && is_proper_part(pi.push(parts.last())[i]) by {
                if i < pi.len() {
                    assert(pi.push(parts.last())[i] == pi[i]);
                }
            }
        }
    }
}

/// The member names of an inner path are proper and hold no `/` or `\\`.
proof fn lemma_inner_parts_shape(v: Seq<char>)
    ensures
        forall|i: int| 0 <= i < inner_parts(v).len() ==> is_proper_part(#[trigger] inner_parts(v)[i])
            && !inner_parts(v)[i].contains('/') && !inner_parts(v)[i].contains('\\'),
{
    let b = backslash_to_slash(v);
    lemma_no_backslash_after_conversion(v);
    lemma_split_pieces(b, '/', '/');
    lemma_split_pieces(b, '/', '\\');
    lemma_proper_parts_sub(split_on(b, '/'), '/');
    lemma_proper_parts_sub(split_on(b, '/'), '\\');
}

proof fn lemma_proper_parts_all(parts: Seq<Seq<char>>)
    requires
        forall|i: int| 0 <= i < parts.len() ==> is_proper_part(#[trigger] parts[i]),
    ensures
        proper_parts(parts) == parts,
    decreases parts.len(),
{
    if parts.len() > 0 {
        let init = parts.drop_last();
        assert forall|i: int| 0 <= i < init.len() implies is_proper_part(#[trigger] init[i]) by {
            assert(init[i] == parts[i]);
        }
        lemma_proper_parts_all(init);
        assert(is_proper_part(parts[parts.len() - 1]));
        assert(init.push(parts.last()) =~= parts);
    }
}

/// Reading the joined member names of a canonical inner path gives the same
/// names back.
proof fn lemma_inner_parts_of_join(parts: Seq<Seq<char>>)
    requires
        forall|i: int| 0 <= i < parts.len() ==> is_proper_part(#[trigger] parts[i]) && !parts[i].contains('/')
            && !parts[i].contains('\\'),
    ensures
        inner_parts(join_with(parts, seq!['/'])) == parts,
        segments(join_with(parts, seq!['/']), '/') == parts,
{
    let j = join_with(parts, seq!['/']);
    lemma_join_no_backslash(parts);
    assert(backslash_to_slash(j) =~= j) by {
        assert forall|k: int| 0 <= k < j.len() implies j[k] != '\\' by {
            if j[k] == '\\' {
                assert(j.contains('\\'));
            }
        }
    }
    if parts.len() == 0 {
        assert(j == Seq::<char>::empty());
        let e = seq![Seq::<char>::empty()];
        assert(split_on(j, '/') == e);
        assert(e.len() == 1);
        assert(e.last() == Seq::<char>::empty());
        assert(!is_proper_part(e.last()));
        assert(e.drop_last() =~= Seq::<Seq<char>>::empty());
        assert(proper_parts(e) == proper_parts(e.drop_last()));
        assert(nonempty_parts(e) == nonempty_parts(e.drop_last()));
        assert(proper_parts(split_on(j, '/')) =~= parts);
        assert(nonempty_parts(split_on(j, '/')) =~= parts);
    } else {
        lemma_split_join(parts, '/');
        lemma_proper_parts_all(parts);
        assert forall|i: int| 0 <= i < parts.len() implies (#[trigger] parts[i]).len() > 0 by {
            assert(is_proper_part(parts[i]));
        }
        lemma_nonempty_parts_all(parts);
    }
}

/// Putting an inner path in canonical form twice changes nothing more.
pub proof fn lemma_normalize_inner_idempotent(v: Seq<char>)
    ensures
        normalize_inner_of(normalize_inner_of(v)) == normalize_inner_of(v),
        segments(normalize_inner_of(v), '/') == inner_parts(v),
        inner_parts(normalize_inner_of(v)) == inner_parts(v),
{
    lemma_inner_parts_shape(v);
    lemma_inner_parts_of_join(inner_parts(v));
}

proof fn lemma_archive_root_piece()
    ensures
        plain_piece(archive_root()),
        archive_root()[0] == '_',
{
    reveal_strlit("__fast_explorer_archive__");
    assert(!archive_root().contains('/')) by {
        if archive_root().contains('/') {
            let k = choose|k: int| 0 <= k < archive_root().len() && archive_root()[k] == '/';
        }
    }
}

/// Reading back the internal path of an archive location gives the archive
/// path and the canonical inner path.
pub proof fn lemma_virtual_path_round_trip(l: (Seq<char>, Seq<char>))
    requires
        l.0.len() > 0,
    ensures
        parse_virtual_spec(virtual_path_of(l)) == Some((l.0, normalize_inner_of(l.1))),
{
    lemma_normalize_inner_idempotent(l.1);
    lemma_inner_parts_shape(l.1);
    let parts = inner_parts(l.1);
    let xs = seq![hexed(l.0)] + parts.map_values(|c: Seq<char>| hexed(c));
    assert(segments(normalize_inner_of(l.1), '/') == parts);
    lemma_archive_root_piece();
    lemma_hexed_piece(l.0);
    assert forall|i: int| 0 <= i < xs.len() implies plain_piece(#[trigger] xs[i]) by {
        if i > 0 {
            assert(xs[i] == hexed(parts[i - 1]));
            assert(is_proper_part(parts[i - 1]));
            lemma_hexed_piece(parts[i - 1]);
        }
    }
    lemma_push_all_join(archive_root(), xs);
    let all = seq![archive_root()] + xs;
    assert forall|i: int| 0 <= i < all.len() implies plain_piece(#[trigger] all[i]) by {
        if i > 0 {
            assert(all[i] == xs[i - 1]);
        }
    }
    lemma_components_of_join(all);
    let c = path_components(virtual_path_of(l));
    assert(c == all);
    lemma_hex_text_round_trip(l.0);
    assert(c.skip(2) =~= parts.map_values(|x: Seq<char>| hexed(x)));
    assert forall|i: int| 0 <= i < parts.len() implies (#[trigger] parts[i]).len() > 0 by {
        assert(is_proper_part(parts[i]));
    }
    lemma_decode_all_hexed(parts);
}

/// Going up from a member returns to the internal path of the folder that
/// holds it, which reads back as that folder.
pub proof fn lemma_parent_of_child(parent: (Seq<char>, Seq<char>), name: Seq<char>)
    requires
        inner_parts(name).len() == 1,
    ensures
        archive_parent_of(child_location_of(parent, name)) == Some(virtual_path_of(parent)),
{
    let pi = normalize_inner_of(parent.1);
    let ni = normalize_inner_of(name);
    let child = child_location_of(parent, name);
    let pp = inner_parts(parent.1);
    let np = inner_parts(name);
    lemma_inner_parts_shape(parent.1);
    lemma_inner_parts_shape(name);
    let all = pp.push(np[0]);
    assert(ni == np[0]);
    assert forall|i: int| 0 <= i < all.len() implies is_proper_part(#[trigger] all[i]) && !all[i].contains('/')
        && !all[i].contains('\\') by {
        if i < pp.len() {
            assert(all[i] == pp[i]);
        }
    }
    if pp.len() == 0 {
        assert(pi == Seq::<char>::empty());
        assert(child.1 == ni);
        assert(all =~= seq![np[0]]);
        assert(join_with(all, seq!['/']) == ni);
    } else {
        assert(all.drop_last() == pp);
        assert(child.1 == join_with(all, seq!['/']));
    }
    lemma_inner_parts_of_join(all);
    assert(normalize_inner_of(child.1) == join_with(all, seq!['/']));
    assert(join_with(all, seq!['/']).len() > 0) by {
        assert(is_proper_part(all[all.len() - 1]));
        if all.len() > 1 {
            assert(join_with(all, seq!['/']) == join_with(all.drop_last(), seq!['/']) + seq!['/'] + all.last());
        }
    }
    assert(all.len() >= 1);
    lemma_split_join(all, '/');
    assert(split_on(normalize_inner_of(child.1), '/').drop_last() == pp);
    lemma_normalize_inner_idempotent(parent.1);
    lemma_inner_parts_of_join(pp);
    assert(segments(normalize_inner_of(join_with(pp, seq!['/'])), '/') == segments(pi, '/'));
}

/// The sort key of a ZIP time stamp: its fields read as the decimal digits
/// `YYYYMMDDhhmmss`.
pub open spec fn datetime_key_of(year: u16, month: u8, day: u8, hour: u8, minute: u8, second: u8) -> int {
    year * 10_000_000_000 + month * 100_000_000 + day * 1_000_000 + hour * 10_000 + minute * 100 + second
}

/// The sort key of a ZIP time stamp.
pub fn zip_datetime_sort_key(year: u16, month: u8, day: u8, hour: u8, minute: u8, second: u8) -> (r: u64)
    ensures
        r == datetime_key_of(year, month, day, hour, minute, second),
{
    year as u64 * 10_000_000_000 + month as u64 * 100_000_000 + day as u64 * 1_000_000 + hour as u64 * 10_000
        + minute as u64 * 100 + second as u64
}

/// Whether member path `n` is `t` or lies inside the folder `t`.
pub open spec fn within(n: Seq<char>, t: Seq<char>) -> bool {
    n == t || (n.len() > t.len() && n.take(t.len() as int) == t && n[t.len() as int] == '/')
}

fn within_exec(n: &[char], t: &[char]) -> (r: bool)
    ensures
        r == within(n@, t@),
{
    if same_chars(n, t) {
        return true;
    }
    let tl = t.len();
    if n.len() <= tl || n[tl] != '/' {
        return false;
    }
    let head = vstd::slice::slice_subrange(n, 0, tl);
    assert(head@ == n@.take(tl as int));
    same_chars(head, t)
}

/// The member a location names, or the error for the archive root.
pub open spec fn member_of(l: (Seq<char>, Seq<char>), root_error: Seq<char>) -> Result<Seq<char>, Seq<char>> {
    let m = normalize_inner_of(l.1);
    if m.len() == 0 {
        Err(root_error)
    } else {
        Ok(m)
    }
}

fn member_or(location: &ArchiveLocation, root_error: &str) -> (r: Result<String, String>)
    ensures
        match r {
            Ok(m) => member_of(location@, root_error@) == Ok::<Seq<char>, Seq<char>>(m@),
            Err(e) => member_of(location@, root_error@) == Err::<Seq<char>, Seq<char>>(e@),
        },
{
    let m = normalize_inner(location.inner_path.as_str());
    if chars_of(m.as_str()).len() == 0 {
        Err(root_error.to_string())
    } else {
        Ok(m)
    }
}

/// The member to extract from an archive; the root is no file.
pub fn extract_target(location: &ArchiveLocation) -> (r: Result<String, String>)
    ensures
        match r {
            Ok(m) => member_of(location@, "archive root is not a file"@) == Ok::<Seq<char>, Seq<char>>(m@),
            Err(e) => member_of(location@, "archive root is not a file"@) == Err::<Seq<char>, Seq<char>>(e@),
        },
{
    member_or(location, "archive root is not a file")
}

/// The member to delete, checked before the archive is opened; the root
/// cannot be deleted.
pub fn delete_target(location: &ArchiveLocation) -> (r: Result<String, String>)
    ensures
        match r {
            Ok(m) => member_of(location@, "cannot delete the archive root"@) == Ok::<Seq<char>, Seq<char>>(m@),
            Err(e) => member_of(location@, "cannot delete the archive root"@) == Err::<Seq<char>, Seq<char>>(e@),
        },
{
    member_or(location, "cannot delete the archive root")
}

/// The member to replace with a new copy, checked before the archive is
/// opened; the root cannot be replaced.
pub fn replace_target(location: &ArchiveLocation) -> (r: Result<String, String>)
    ensures
        match r {
            Ok(m) => member_of(location@, "cannot replace the archive root"@) == Ok::<Seq<char>, Seq<char>>(m@),
            Err(e) => member_of(location@, "cannot replace the archive root"@) == Err::<Seq<char>, Seq<char>>(e@),
        },
{
    member_or(location, "cannot replace the archive root")
}

/// Which members stay when the member `target` is deleted: all but the
/// member itself and, for a folder, what lies inside it.
pub open spec fn kept_after_delete(target: Seq<char>, names: Seq<Seq<char>>) -> Seq<bool> {
    Seq::new(names.len(), |i: int| !within(normalize_inner_of(names[i]), target))
}

/// Which of the archive's members (by name, in order) stay when the member
/// at `location` is deleted; the archive root cannot be deleted.
pub fn delete_member_plan(location: &ArchiveLocation, names: &Vec<String>) -> (r: Result<Vec<bool>, String>)
    ensures
        match member_of(location@, "cannot delete the archive root"@) {
            Ok(t) => r matches Ok(keep) && keep@ == kept_after_delete(t, names@.map_values(|n: String| n@)),
            Err(e) => r matches Err(m) && m@ == e,
        },
{
    let target = member_or(location, "cannot delete the archive root")?;
    let tc = chars_of(target.as_str());
    let ghost ns = names@.map_values(|n: String| n@);
    let mut keep: Vec<bool> = Vec::new();
    for i in 0..names.len()
        invariant
            ns == names@.map_values(|n: String| n@),
            tc@ == target@,
            keep@ == kept_after_delete(target@, ns).take(i as int),
    {
        let n = normalize_inner(names[i].as_str());
        let nc = chars_of(n.as_str());
        let k = !within_exec(nc.as_slice(), tc.as_slice());
        keep.push(k);
        assert(keep@ =~= kept_after_delete(target@, ns).take(i + 1));
    }
    assert(keep@ =~= kept_after_delete(target@, ns));
    Ok(keep)
}

/// Which members stay when the member at `l` is replaced by a new copy:
/// all but the member itself, which must exist.
pub open spec fn replace_plan_of(l: (Seq<char>, Seq<char>), names: Seq<Seq<char>>) -> Result<Seq<bool>, Seq<char>> {
    match member_of(l, "cannot replace the archive root"@) {
        Err(e) => Err(e),
        Ok(m) => if exists|i: int| 0 <= i < names.len() && normalize_inner_of(names[i]) == m {
            Ok(Seq::new(names.len(), |i: int| normalize_inner_of(names[i]) != m))
        } else {
            Err("archive member no longer exists: "@ + m)
        },
    }
}

/// Which of the archive's members (by name, in order) are copied over when
/// the member at `location` is replaced with a new copy; the caller then
/// writes that copy under [`normalize_inner`] of the location.
pub fn replace_member_plan(location: &ArchiveLocation, names: &Vec<String>) -> (r: Result<Vec<bool>, String>)
    ensures
        match replace_plan_of(location@, names@.map_values(|n: String| n@)) {
            Ok(k) => r matches Ok(keep) && keep@ == k,
            Err(e) => r matches Err(m) && m@ == e,
        },
{
    let member = member_or(location, "cannot replace the archive root")?;
    let mc = chars_of(member.as_str());
    let ghost ns = names@.map_values(|n: String| n@);
    let mut keep: Vec<bool> = Vec::new();
    let mut found = false;
    for i in 0..names.len()
        invariant
            ns == names@.map_values(|n: String| n@),
            mc@ == member@,
            keep@ == Seq::new(ns.len(), |j: int| normalize_inner_of(ns[j]) != member@).take(i as int),
            found == exists|j: int| 0 <= j < i && normalize_inner_of(ns[j]) == member@,
    {
        let n = normalize_inner(names[i].as_str());
        let nc = chars_of(n.as_str());
        let same = same_chars(nc.as_slice(), mc.as_slice());
        assert(names@[i as int]@ == ns[i as int]);
        assert(same == (normalize_inner_of(ns[i as int]) == member@));
        if same {
            found = true;
        }
        keep.push(!same);
        assert(keep@ =~= Seq::new(ns.len(), |j: int| normalize_inner_of(ns[j]) != member@).take(i + 1));
    }
    if !found {
        return Err(concat_texts("archive member no longer exists: ", member.as_str()));
    }
    assert(keep@ =~= Seq::new(ns.len(), |j: int| normalize_inner_of(ns[j]) != member@));
    Ok(keep)
}

/// The path a member gets when the member `old` is renamed to `renamed`:
/// the member itself and what lies inside it move along; others stay.
pub open spec fn renamed_name(old: Seq<char>, renamed: Seq<char>, n: Seq<char>) -> Seq<char> {
    if n == old {
        renamed
    } else if within(n, old) {
        renamed + n.skip(old.len() as int)
    } else {
        n
    }
}

/// The member renamed and its new path when the member at `l` is renamed
/// to `new_name`: the new path stays in the same folder; the root cannot
/// be renamed and the new name must be one plain member name.
pub open spec fn rename_target_of(l: (Seq<char>, Seq<char>), new_name: Seq<char>) -> Result<(Seq<char>, Seq<char>), Seq<char>> {
    match member_of(l, "cannot rename the archive root"@) {
        Err(e) => Err(e),
        Ok(old) => {
            let clean = normalize_inner_of(new_name);
            if clean.len() == 0 || clean.contains('/') {
                Err("invalid archive member name"@)
            } else {
                let parts = split_on(old, '/');
                Ok((
                    old,
                    if parts.len() <= 1 {
                        clean
                    } else {
                        join_with(parts.drop_last(), seq!['/']) + seq!['/'] + clean
                    },
                ))
            }
        },
    }
}

/// The member renamed and its new path, checked before the archive is
/// opened.
pub fn rename_target(location: &ArchiveLocation, new_name: &str) -> (r: Result<(String, String), String>)
    ensures
        match rename_target_of(location@, new_name@) {
            Ok((o, n)) => r matches Ok((a, b)) && a@ == o && b@ == n,
            Err(e) => r matches Err(m) && m@ == e,
        },
{
    let old = member_or(location, "cannot rename the archive root")?;
    let clean = normalize_inner(new_name);
    let cc = chars_of(clean.as_str());
    let mut has_slash = false;
    for i in 0..cc.len()
        invariant
            cc@ == clean@,
            has_slash == exists|j: int| 0 <= j < i && cc@[j] == '/',
    {
        if cc[i] == '/' {
            has_slash = true;
        }
    }
    assert(has_slash == clean@.contains('/'));
    if cc.len() == 0 || has_slash {
        return Err("invalid archive member name".to_string());
    }
    let oc = chars_of(old.as_str());
    let mut parts = split_chars(oc.as_slice(), '/');
    let ghost all = parts@.map_values(|p: Vec<char>| p@);
    proof {
        lemma_split_len(oc@, '/');
    }
    if parts.len() <= 1 {
        return Ok((old, clean));
    }
    parts.pop();
    assert(parts@.map_values(|p: Vec<char>| p@) =~= all.drop_last());
    let slash = vec!['/'];
    assert(slash@ =~= seq!['/']);
    let mut out = join_chars(&parts, slash.as_slice());
    out.push('/');
    append_chars(&mut out, cc.as_slice());
    Ok((old, string_from_chars(out.as_slice())))
}

/// The new names of the archive's members (in order) when the member `old`
/// becomes `renamed`; the member must exist.
pub open spec fn renamed_members_of(old: Seq<char>, renamed: Seq<char>, names: Seq<Seq<char>>) -> Result<Seq<Seq<char>>, Seq<char>> {
    if exists|i: int| 0 <= i < names.len() && within(normalize_inner_of(names[i]), old) {
        Ok(Seq::new(names.len(), |i: int| renamed_name(old, renamed, normalize_inner_of(names[i]))))
    } else {
        Err("archive member no longer exists: "@ + old)
    }
}

/// The new names of the archive's members when `old` becomes `renamed`
/// (see [`rename_target`]).
pub fn renamed_members(old: &str, renamed: &str, names: &Vec<String>) -> (r: Result<Vec<String>, String>)
    ensures
        match renamed_members_of(old@, renamed@, names@.map_values(|n: String| n@)) {
            Ok(v) => r matches Ok(out) && out@.map_values(|n: String| n@) == v,
            Err(e) => r matches Err(m) && m@ == e,
        },
{
    let oc = chars_of(old);
    let rc = chars_of(renamed);
    let ghost ns = names@.map_values(|n: String| n@);
    let ghost want = Seq::new(ns.len(), |i: int| renamed_name(old@, renamed@, normalize_inner_of(ns[i])));
    let mut out: Vec<String> = Vec::new();
    let mut found = false;
    for i in 0..names.len()
        invariant
            ns == names@.map_values(|n: String| n@),
            want == Seq::new(ns.len(), |j: int| renamed_name(old@, renamed@, normalize_inner_of(ns[j]))),
            oc@ == old@,
            rc@ == renamed@,
            out@.map_values(|n: String| n@) == want.take(i as int),
            found == exists|j: int| 0 <= j < i && within(normalize_inner_of(ns[j]), old@),
    {
        let n = normalize_inner(names[i].as_str());
        let nc = chars_of(n.as_str());
        let inside = within_exec(nc.as_slice(), oc.as_slice());
        let target = if same_chars(nc.as_slice(), oc.as_slice()) {
            string_from_chars(rc.as_slice())
        } else if inside {
            let rest = vstd::slice::slice_subrange(nc.as_slice(), oc.len(), nc.len());
            let mut t = rc.clone();
            append_chars(&mut t, rest);
            string_from_chars(t.as_slice())
        } else {
            n
        };
        if inside {
            found = true;
        }
        let ghost before = out@.map_values(|n: String| n@);
        out.push(target);
        assert(out@.map_values(|n: String| n@) =~= before.push(want[i as int]));
        assert(want.take(i + 1) =~= want.take(i as int).push(want[i as int]));
    }
    if !found {
        return Err(concat_texts("archive member no longer exists: ", old));
    }
    assert(want.take(ns.len() as int) =~= want);
    Ok(out)
}

/// The member a new folder named `name` inside `parent` is stored as: its
/// path and a trailing `/`; the name must name something.
pub open spec fn new_directory_member_of(parent: (Seq<char>, Seq<char>), name: Seq<char>) -> Result<Seq<char>, Seq<char>> {
    let m = normalize_inner_of(child_location_of(parent, name).1);
    if m.len() == 0 {
        Err("invalid archive directory name"@)
    } else {
        Ok(m + seq!['/'])
    }
}

/// The member a new folder inside an archive folder is stored as.
pub fn new_directory_member(parent: &ArchiveLocation, name: &str) -> (r: Result<String, String>)
    ensures
        match new_directory_member_of(parent@, name@) {
            Ok(m) => r matches Ok(s) && s@ == m,
            Err(e) => r matches Err(s) && s@ == e,
        },
{
    let location = child_location(parent, name);
    let m = normalize_inner(location.inner_path.as_str());
    let mut mc = chars_of(m.as_str());
    if mc.len() == 0 {
        return Err("invalid archive directory name".to_string());
    }
    mc.push('/');
    Ok(string_from_chars(mc.as_slice()))
}

/// The member a file imported as `name` into `parent` is stored as; the
/// name must name something.
pub open spec fn import_member_of(parent: (Seq<char>, Seq<char>), name: Seq<char>) -> Result<Seq<char>, Seq<char>> {
    let m = normalize_inner_of(child_location_of(parent, name).1);
    if m.len() == 0 {
        Err("invalid archive member name"@)
    } else {
        Ok(m)
    }
}

/// The member a file imported into an archive folder is stored as.
pub fn import_member_name(parent: &ArchiveLocation, name: &str) -> (r: Result<String, String>)
    ensures
        match import_member_of(parent@, name@) {
            Ok(m) => r matches Ok(s) && s@ == m,
            Err(e) => r matches Err(s) && s@ == e,
        },
{
    let location = child_location(parent, name);
    let m = normalize_inner(location.inner_path.as_str());
    if chars_of(m.as_str()).len() == 0 {
        return Err("invalid archive member name".to_string());
    }
    Ok(m)
}

/// A fresh file beside `path` for rewriting it: in the same folder (`.`
/// when it has none), named `.`, the file name, `.fastexplorer-`, the
/// label, and the time stamp and counter the caller took, `-` between.
pub open spec fn unique_sibling_of(path: Seq<char>, label: Seq<char>, stamp: u128, id: u64) -> Seq<char> {
    let dir = match path_parent(path) {
        Some(p) => p,
        None => seq!['.'],
    };
    let name = match path_file_name(path) {
        Some(f) => f,
        None => Seq::empty(),
    };
    push_rel(
        dir,
        seq!['.'] + name + ".fastexplorer-"@ + label + seq!['-'] + decimal_of(stamp as nat) + seq!['-'] + decimal_of(
            id as nat,
        ),
    )
}

/// A fresh file beside `path` for rewriting it.
pub fn unique_sibling(path: &str, label: &str, stamp: u128, id: u64) -> (r: String)
    ensures
        r@ == unique_sibling_of(path@, label@, stamp, id),
{
    let dir = match parent(path) {
        Some(p) => chars_of(p.as_str()),
        None => vec!['.'],
    };
    assert(path_parent(path@) is None ==> dir@ == seq!['.']);
    let mut piece: Vec<char> = vec!['.'];
    let ghost name = match path_file_name(path@) {
        Some(f) => f,
        None => Seq::<char>::empty(),
    };
    match file_name(path) {
        Some(f) => {
            let fc = chars_of(f.as_str());
            append_chars(&mut piece, fc.as_slice());
        },
        None => {},
    }
    assert(piece@ =~= seq!['.'] + name);
    let tag = chars_of(".fastexplorer-");
    append_chars(&mut piece, tag.as_slice());
    let lc = chars_of(label);
    append_chars(&mut piece, lc.as_slice());
    piece.push('-');
    let sc = decimal_chars(stamp);
    append_chars(&mut piece, sc.as_slice());
    piece.push('-');
    let ic = decimal_chars(id as u128);
    append_chars(&mut piece, ic.as_slice());
    assert(piece@ =~= seq!['.'] + name + ".fastexplorer-"@ + label@ + seq!['-'] + decimal_of(stamp as nat)
        + seq!['-'] + decimal_of(id as nat));
    let mut buf = dir;
    push_piece(&mut buf, piece.as_slice());
    string_from_chars(buf.as_slice())
}


/// The member copied and the name its copy gets inside `target_parent`
/// under `name`: the archive root cannot be copied, and the target must
/// name a member.
pub open spec fn copy_member_target_of(
    source: (Seq<char>, Seq<char>),
    target_parent: (Seq<char>, Seq<char>),
    name: Seq<char>,
) -> Result<(Seq<char>, Seq<char>), Seq<char>> {
    match member_of(source, "cannot copy the archive root"@) {
        Err(e) => Err(e),
        Ok(src) => {
            let dir = normalize_inner_of(target_parent.1);
            let target = (if dir.len() == 0 {
                dir
            } else {
                dir + seq!['/']
            }) + normalize_inner_of(name);
            if target.len() == 0 || target.last() == '/' {
                Err("invalid target archive member name"@)
            } else {
                Ok((src, target))
            }
        },
    }
}

/// The member copied and the name of its copy, checked before any archive
/// is opened.
pub fn copy_member_target(source: &ArchiveLocation, target_parent: &ArchiveLocation, name: &str) -> (r: Result<(String, String), String>)
    ensures
        match copy_member_target_of(source@, target_parent@, name@) {
            Ok((a, b)) => r matches Ok((x, y)) && x@ == a && y@ == b,
            Err(e) => r matches Err(m) && m@ == e,
        },
{
    let src = member_or(source, "cannot copy the archive root")?;
    let dir = normalize_inner(target_parent.inner_path.as_str());
    let mut target = chars_of(dir.as_str());
    if target.len() > 0 {
        target.push('/');
    }
    let nm = normalize_inner(name);
    let nc = chars_of(nm.as_str());
    append_chars(&mut target, nc.as_slice());
    let n = target.len();
    if n == 0 || target[n - 1] == '/' {
        return Err("invalid target archive member name".to_string());
    }
    Ok((src, string_from_chars(target.as_slice())))
}

/// A copied member lands inside the target folder: its name is the
/// folder's member name, `/` and the given name (both in normal form), or
/// the given name alone at the archive root; the source is the member the
/// source location names, and the archive root cannot be copied.
pub proof fn lemma_copy_lands_in_target_folder(
    source: (Seq<char>, Seq<char>),
    target_parent: (Seq<char>, Seq<char>),
    name: Seq<char>,
)
    ensures
        normalize_inner_of(source.1).len() == 0 ==> copy_member_target_of(source, target_parent, name) == Err::<
            (Seq<char>, Seq<char>),
            Seq<char>,
        >("cannot copy the archive root"@),
        copy_member_target_of(source, target_parent, name) matches Ok((src, target)) ==> {
            let dir = normalize_inner_of(target_parent.1);
            &&& src == normalize_inner_of(source.1)
            &&& src.len() > 0
            &&& dir.len() == 0 ==> target == normalize_inner_of(name)
            &&& dir.len() > 0 ==> {
                &&& target.len() > dir.len()
                &&& target.take(dir.len() as int) == dir
                &&& target[dir.len() as int] == '/'
                &&& target.skip(dir.len() as int + 1) == normalize_inner_of(name)
            }
        },
{
    let dir = normalize_inner_of(target_parent.1);
    let nm = normalize_inner_of(name);
    if dir.len() > 0 {
        let target = dir + seq!['/'] + nm;
        assert(target.take(dir.len() as int) =~= dir);
        assert(target.skip(dir.len() as int + 1) =~= nm);
    }
}

proof fn lemma_proper_parts_pieces(parts: Seq<Seq<char>>)
    requires
        forall|i: int| 0 <= i < parts.len() ==> !(#[trigger] parts[i]).contains('/'),
    ensures
        forall|i: int| 0 <= i < proper_parts(parts).len() ==> (#[trigger] proper_parts(parts)[i]).len() > 0
            && !proper_parts(parts)[i].contains('/'),
    decreases parts.len(),
{
    if parts.len() > 0 {
        let init = parts.drop_last();
        assert forall|i: int| 0 <= i < init.len() implies !(#[trigger] init[i]).contains('/') by {
            assert(init[i] == parts[i]);
        }
        lemma_proper_parts_pieces(init);
        let prev = proper_parts(init);
        assert(!parts.last().contains('/')) by {
            assert(parts[parts.len() - 1] == parts.last());
        }
        if is_proper_part(parts.last()) {
            assert forall|i: int| 0 <= i < prev.push(parts.last()).len() implies (#[trigger] prev.push(
                parts.last(),
            )[i]).len() > 0 && !prev.push(parts.last())[i].contains('/') by {
                if i < prev.len() {
                    assert(prev.push(parts.last())[i] == prev[i]);
                }
            }
        }
    }
}

proof fn lemma_join_last(parts: Seq<Seq<char>>)
    requires
        parts.len() > 0,
        parts.last().len() > 0,
    ensures
        join_with(parts, seq!['/']).len() > 0,
        join_with(parts, seq!['/']).last() == parts.last().last(),
{
    if parts.len() == 1 {
        assert(parts[0] == parts.last());
    } else {
        let j = join_with(parts.drop_last(), seq!['/']) + seq!['/'] + parts.last();
        assert(j[j.len() - 1] == parts.last()[parts.last().len() - 1]);
    }
}

/// A member name in normal form never ends in `/`.
pub proof fn lemma_normal_name_no_trailing_slash(v: Seq<char>)
    ensures
        normalize_inner_of(v).len() > 0 ==> normalize_inner_of(v).last() != '/',
{
    let parts = inner_parts(v);
    lemma_split_pieces_free(backslash_to_slash(v), '/');
    lemma_proper_parts_pieces(split_on(backslash_to_slash(v), '/'));
    if parts.len() > 0 {
        let last = parts.last();
        assert(parts[parts.len() - 1] == last);
        lemma_join_last(parts);
        assert(last.contains(last.last())) by {
            assert(last[last.len() - 1] == last.last());
        }
    }
}

/// A copy can be made exactly when the source names a member and the
/// given name names one.
pub proof fn lemma_copy_target_defined(
    source: (Seq<char>, Seq<char>),
    target_parent: (Seq<char>, Seq<char>),
    name: Seq<char>,
)
    ensures
        copy_member_target_of(source, target_parent, name) is Ok <==> (normalize_inner_of(source.1).len() > 0
            && normalize_inner_of(name).len() > 0),
{
    let dir = normalize_inner_of(target_parent.1);
    let nm = normalize_inner_of(name);
    lemma_normal_name_no_trailing_slash(name);
    let target = (if dir.len() == 0 { dir } else { dir + seq!['/'] }) + nm;
    if nm.len() > 0 {
        assert(target.last() == nm.last());
    } else {
        assert(target =~= (if dir.len() == 0 { dir } else { dir + seq!['/'] }));
    }
}

} // verus!
