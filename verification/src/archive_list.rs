use vstd::prelude::*;
use crate::archive::{normalize_inner, normalize_inner_of, ArchiveEntry};
use crate::entries::{compare_texts, lowercase, lowercase_chars, text_order};
use crate::text::{backslash_to_slash, chars_of, slashes_for_backslashes, string_from_chars};

verus! {

/// One member of a ZIP archive as the archive's directory lists it.
#[derive(Debug, Clone)]
pub struct ArchiveMember {
    pub name: String,
    pub is_dir: bool,
    pub size: u64,
    pub modified_sort_key: u64,
}

/// The mathematical content of an [`ArchiveEntry`].
pub struct ListedView {
    pub name: Seq<char>,
    pub directory: bool,
    pub size: u64,
    pub modified: u64,
}

impl View for ArchiveEntry {
    type V = ListedView;

    open spec fn view(&self) -> ListedView {
        ListedView {
            name: self.name@,
            directory: self.directory,
            size: self.size,
            modified: self.modified_sort_key,
        }
    }
}

/// Drops leading `/`.
pub open spec fn trim_start_slashes(s: Seq<char>) -> Seq<char>
    decreases s.len(),
{
    if s.len() > 0 && s[0] == '/' {
        trim_start_slashes(s.drop_first())
    } else {
        s
    }
}

/// Drops trailing `/`.
pub open spec fn trim_end_slashes(s: Seq<char>) -> Seq<char>
    decreases s.len(),
{
    if s.len() > 0 && s.last() == '/' {
        trim_end_slashes(s.drop_last())
    } else {
        s
    }
}

/// The index of the first `/`, or the length when there is none.
pub open spec fn first_slash(s: Seq<char>) -> int
    decreases s.len(),
{
    if s.len() == 0 {
        0
    } else if s[0] == '/' {
        0
    } else {
        1 + first_slash(s.drop_first())
    }
}

/// What a folder listing starts member names with: the folder's path and
/// `/`, or nothing at the root.
pub open spec fn listing_prefix(inner: Seq<char>) -> Seq<char> {
    let i = normalize_inner_of(inner);
    if i.len() == 0 {
        i
    } else {
        i + seq!['/']
    }
}

/// The name a member shows under in the folder with prefix `prefix`, and
/// whether more of its path follows (it then stands for a folder): with
/// `\` read as `/`, the member must start with the prefix, and what
/// follows, without `/` at either end, must not be empty; its name is the
/// part before the first `/`.
pub open spec fn member_head(name: Seq<char>, prefix: Seq<char>) -> Option<(Seq<char>, bool)> {
    let n = backslash_to_slash(name);
    if n.len() >= prefix.len() && n.take(prefix.len() as int) == prefix {
        let rem = trim_end_slashes(trim_start_slashes(n.skip(prefix.len() as int)));
        if rem.len() == 0 {
            None
        } else {
            Some((rem.take(first_slash(rem)), first_slash(rem) < rem.len()))
        }
    } else {
        None
    }
}

/// The position of the first listed entry with this name.
pub open spec fn name_index(g: Seq<ListedView>, name: Seq<char>) -> Option<int>
    decreases g.len(),
{
    if g.len() == 0 {
        None
    } else {
        match name_index(g.drop_last(), name) {
            Some(k) => Some(k),
            None => if g.last().name == name {
                Some(g.len() - 1)
            } else {
                None
            },
        }
    }
}

/// The entries of a folder listing, in the order their names first
/// appear: members not in the folder, and hidden names (starting with
/// `.`) unless they are shown, are left out; members under one name merge
/// into one entry, which is a folder when any of them is (or lies deeper),
/// keeps the size of the first one (0 for a folder) and the latest
/// modification key.
pub open spec fn grouped(ms: Seq<ArchiveMember>, prefix: Seq<char>, show_hidden: bool) -> Seq<ListedView>
    decreases ms.len(),
{
    if ms.len() == 0 {
        Seq::empty()
    } else {
        let g = grouped(ms.drop_last(), prefix, show_hidden);
        let m = ms.last();
        match member_head(m.name@, prefix) {
            None => g,
            Some((first, nested)) => if first.len() == 0 || (!show_hidden && first[0] == '.') {
                g
            } else {
                let directory = nested || m.is_dir;
                match name_index(g, first) {
                    Some(k) => g.update(
                        k,
                        ListedView {
                            directory: g[k].directory || directory,
                            modified: if g[k].modified >= m.modified_sort_key {
                                g[k].modified
                            } else {
                                m.modified_sort_key
                            },
                            ..g[k]
                        },
                    ),
                    None => g.push(
                        ListedView {
                            name: first,
                            directory,
                            size: if directory {
                                0
                            } else {
                                m.size
                            },
                            modified: m.modified_sort_key,
                        },
                    ),
                }
            },
        }
    }
}

/// The order of a folder listing: folders first, then by lowercased name,
/// then by name.
pub open spec fn listing_order(a: ListedView, b: ListedView) -> int {
    if a.directory != b.directory {
        if a.directory {
            -1
        } else {
            1
        }
    } else {
        let lower = text_order(lowercase(a.name), lowercase(b.name));
        if lower != 0 {
            lower
        } else {
            text_order(a.name, b.name)
        }
    }
}

/// Where an insertion puts `x` into a sorted listing: before the first
/// entry that `x` precedes.
pub open spec fn listing_insertion_point(sorted: Seq<ListedView>, x: ListedView) -> int
    decreases sorted.len(),
{
    if sorted.len() == 0 {
        0
    } else if listing_order(sorted[0], x) > 0 {
        0
    } else {
        1 + listing_insertion_point(sorted.skip(1), x)
    }
}

/// A listing sorted by `listing_order`, entry by entry.
pub open spec fn sorted_listing(s: Seq<ListedView>) -> Seq<ListedView>
    decreases s.len(),
{
    if s.len() == 0 {
        s
    } else {
        let prev = sorted_listing(s.drop_last());
        prev.insert(listing_insertion_point(prev, s.last()), s.last())
    }
}

/// The listing of the archive folder `inner` made from the archive's
/// members: see `grouped` and `listing_order`.
pub open spec fn archive_listing_of(ms: Seq<ArchiveMember>, inner: Seq<char>, show_hidden: bool) -> Seq<ListedView> {
    sorted_listing(grouped(ms, listing_prefix(inner), show_hidden))
}

fn head_of(name: &str, prefix: &[char]) -> (r: Option<(Vec<char>, bool)>)
    ensures
        match member_head(name@, prefix@) {
            None => r is None,
            Some((first, nested)) => r matches Some((f, d)) && f@ == first && d == nested,
        },
{
    let raw = chars_of(name);
    let n = slashes_for_backslashes(raw.as_slice());
    assert(n@ == backslash_to_slash(name@));
    let pl = prefix.len();
    if n.len() < pl {
        return None;
    }
    let mut k: usize = 0;
    while k < pl
        invariant
            pl == prefix@.len(),
            pl <= n@.len(),
            n@ == backslash_to_slash(name@),
            k <= pl,
            forall|j: int| 0 <= j < k ==> n@[j] == prefix@[j],
        decreases pl - k,
    {
        if n[k] != prefix[k] {
            assert(n@.take(pl as int)[k as int] != prefix@[k as int]);
            return None;
        }
        k = k + 1;
    }
    assert(n@.take(pl as int) =~= prefix@);
    let s = vstd::slice::slice_subrange(n.as_slice(), pl, n.len());
    assert(s@ == n@.skip(pl as int));
    let mut start: usize = 0;
    assert(s@.skip(0) == s@);
    while start < s.len() && s[start] == '/'
        invariant
            start <= s@.len(),
            trim_start_slashes(s@) == trim_start_slashes(s@.skip(start as int)),
        decreases s.len() - start,
    {
        assert(s@.skip(start as int).drop_first() == s@.skip(start + 1));
        start = start + 1;
    }
    assert(trim_start_slashes(s@) == s@.skip(start as int)) by {
        assert(s@.skip(start as int).len() > 0 ==> s@.skip(start as int)[0] == s@[start as int]);
    }
    let mut end: usize = s.len();
    assert(s@.skip(start as int) == s@.subrange(start as int, end as int));
    while end > start && s[end - 1] == '/'
        invariant
            start <= end <= s@.len(),
            trim_end_slashes(trim_start_slashes(s@)) == trim_end_slashes(s@.subrange(start as int, end as int)),
        decreases end,
    {
        assert(s@.subrange(start as int, end as int).drop_last() == s@.subrange(start as int, end - 1));
        end = end - 1;
    }
    let rem = vstd::slice::slice_subrange(s, start, end);
    assert(trim_end_slashes(trim_start_slashes(s@)) == rem@) by {
        assert(rem@.len() > 0 ==> rem@.last() == s@[end - 1]);
    }
    if rem.len() == 0 {
        return None;
    }
    let mut i: usize = 0;
    assert(rem@.skip(0) == rem@);
    while i < rem.len() && rem[i] != '/'
        invariant
            i <= rem@.len(),
            first_slash(rem@) == i + first_slash(rem@.skip(i as int)),
        decreases rem.len() - i,
    {
        assert(rem@.skip(i as int)[0] == rem@[i as int]);
        assert(rem@.skip(i as int).drop_first() == rem@.skip(i + 1));
        i = i + 1;
    }
    assert(first_slash(rem@) == i) by {
        if i < rem@.len() {
            assert(rem@.skip(i as int)[0] == rem@[i as int]);
        }
    }
    let mut first: Vec<char> = Vec::new();
    for j in 0..i
        invariant
            i <= rem@.len(),
            first@ == rem@.take(j as int),
    {
        first.push(rem[j]);
        assert(rem@.take(j + 1) == rem@.take(j as int).push(rem@[j as int]));
    }
    Some((first, i < rem.len()))
}

proof fn lemma_name_index(g: Seq<ListedView>, name: Seq<char>, k: int)
    requires
        0 <= k <= g.len(),
        forall|j: int| 0 <= j < k ==> g[j].name != name,
    ensures
        k < g.len() && g[k].name == name ==> name_index(g, name) == Some(k),
        k == g.len() ==> name_index(g, name) is None,
    decreases g.len(),
{
    if g.len() > 0 {
        if k < g.len() {
            if k < g.len() - 1 {
                lemma_name_index(g.drop_last(), name, k);
            } else {
                lemma_name_index(g.drop_last(), name, k);
            }
        } else {
            lemma_name_index(g.drop_last(), name, k - 1);
        }
    }
}

fn find_listed(found: &Vec<ArchiveEntry>, name: &[char]) -> (r: Option<usize>)
    ensures
        r matches Some(k) ==> k < found@.len() && name_index(found@.map_values(|e: ArchiveEntry| e@), name@) == Some(
            k as int,
        ),
        r is None ==> name_index(found@.map_values(|e: ArchiveEntry| e@), name@) is None,
{
    let ghost g = found@.map_values(|e: ArchiveEntry| e@);
    for k in 0..found.len()
        invariant
            g == found@.map_values(|e: ArchiveEntry| e@),
            forall|j: int| 0 <= j < k ==> g[j].name != name@,
    {
        let c = chars_of(found[k].name.as_str());
        assert(g[k as int].name == found@[k as int].name@);
        if compare_texts(c.as_slice(), name) == 0 {
            proof {
                crate::entries::lemma_text_order_zero(c@, name@);
                lemma_name_index(g, name@, k as int);
            }
            return Some(k);
        }
        proof {
            crate::entries::lemma_text_order_zero(c@, name@);
        }
    }
    proof {
        lemma_name_index(g, name@, g.len() as int);
    }
    None
}

/// Compares two listing entries in the order of a folder listing.
fn compare_listed(a: &ArchiveEntry, b: &ArchiveEntry) -> (r: i8)
    ensures
        r == listing_order(a@, b@),
{
    if a.directory != b.directory {
        return if a.directory {
            -1
        } else {
            1
        };
    }
    let la = lowercase_chars(a.name.as_str());
    let lb = lowercase_chars(b.name.as_str());
    let lower = compare_texts(la.as_slice(), lb.as_slice());
    if lower != 0 {
        return lower;
    }
    let na = chars_of(a.name.as_str());
    let nb = chars_of(b.name.as_str());
    compare_texts(na.as_slice(), nb.as_slice())
}

/// Lists an archive folder from the archive's members (see
/// `archive_listing_of`); the caller reads the members from the archive.
#[verifier::rlimit(40)]
pub fn list_archive_members(members: &Vec<ArchiveMember>, inner: &str, show_hidden: bool) -> (r: Vec<ArchiveEntry>)
    ensures
        r@.map_values(|e: ArchiveEntry| e@) == archive_listing_of(members@, inner@, show_hidden),
{
    let folder = normalize_inner(inner);
    let mut prefix = chars_of(folder.as_str());
    if prefix.len() > 0 {
        prefix.push('/');
    }
    assert(prefix@ == listing_prefix(inner@));
    let ghost pre = prefix@;
    let ghost ms = members@;
    let mut found: Vec<ArchiveEntry> = Vec::new();
    for i in 0..members.len()
        invariant
            ms == members@,
            pre == prefix@,
            pre == listing_prefix(inner@),
            found@.map_values(|e: ArchiveEntry| e@) == grouped(ms.take(i as int), pre, show_hidden),
    {
        let ghost g = found@.map_values(|e: ArchiveEntry| e@);
        assert(ms.take(i + 1).drop_last() == ms.take(i as int));
        assert(ms.take(i + 1).last() == ms[i as int]);
        let m = &members[i];
        match head_of(m.name.as_str(), prefix.as_slice()) {
            None => {},
            Some((first, nested)) => {
                if first.len() == 0 || (!show_hidden && first[0] == '.') {
                } else {
                    let directory = nested || m.is_dir;
                    match find_listed(&found, first.as_slice()) {
                        Some(k) => {
                            let mut e = found.remove(k);
                            e.directory = e.directory || directory;
                            if e.modified_sort_key < m.modified_sort_key {
                                e.modified_sort_key = m.modified_sort_key;
                            }
                            found.insert(k, e);
                            assert(found@.map_values(|e: ArchiveEntry| e@) =~= g.update(k as int, e@));
                        },
                        None => {
                            let e = ArchiveEntry {
                                name: string_from_chars(first.as_slice()),
                                directory,
                                size: if directory {
                                    0
                                } else {
                                    m.size
                                },
                                modified_sort_key: m.modified_sort_key,
                            };
                            found.push(e);
                            assert(found@.map_values(|e: ArchiveEntry| e@) =~= g.push(e@));
                        },
                    }
                }
            },
        }
    }
    assert(ms.take(ms.len() as int) == ms);
    sort_listing(&mut found);
    found
}

fn sort_listing(entries: &mut Vec<ArchiveEntry>)
    ensures
        final(entries)@.map_values(|e: ArchiveEntry| e@) == sorted_listing(old(entries)@.map_values(|e: ArchiveEntry| e@)),
{
    let ghost orig = entries@.map_values(|e: ArchiveEntry| e@);
    let n = entries.len();
    let mut i: usize = 0;
    assert(orig.take(0) == Seq::<ListedView>::empty());
    assert(orig.skip(0) == orig);
    while i < n
        invariant
            n == orig.len(),
            i <= n,
            entries@.len() == n,
            entries@.map_values(|e: ArchiveEntry| e@).take(i as int) == sorted_listing(orig.take(i as int)),
            entries@.map_values(|e: ArchiveEntry| e@).skip(i as int) == orig.skip(i as int),
        decreases n - i,
    {
        let ghost cur = entries@.map_values(|e: ArchiveEntry| e@);
        let ghost prefix = cur.take(i as int);
        let ghost rest = cur.skip(i as int);
        assert(cur == prefix + rest);
        let x = entries.remove(i);
        assert(x@ == orig[i as int]) by {
            assert(rest[0] == orig.skip(i as int)[0]);
        }
        assert(entries@.map_values(|e: ArchiveEntry| e@) == prefix + orig.skip(i + 1)) by {
            assert(orig.skip(i as int).skip(1) == orig.skip(i + 1));
            assert(entries@.map_values(|e: ArchiveEntry| e@) =~= cur.remove(i as int));
        }
        let mut j: usize = 0;
        assert(prefix.skip(0) == prefix);
        while j < i && compare_listed(&entries[j], &x) <= 0
            invariant
                j <= i,
                i < n,
                entries@.len() == n - 1,
                entries@.map_values(|e: ArchiveEntry| e@) == prefix + orig.skip(i + 1),
                prefix.len() == i,
                listing_insertion_point(prefix, x@) == j + listing_insertion_point(prefix.skip(j as int), x@),
            decreases i - j,
        {
            assert(entries@.map_values(|e: ArchiveEntry| e@)[j as int] == prefix[j as int]);
            assert(entries@[j as int]@ == prefix[j as int]);
            assert(prefix.skip(j as int)[0] == prefix[j as int]);
            assert(prefix.skip(j as int).skip(1) == prefix.skip(j + 1));
            j = j + 1;
        }
        proof {
            if j < i {
                assert(entries@.map_values(|e: ArchiveEntry| e@)[j as int] == prefix[j as int]);
                assert(entries@[j as int]@ == prefix[j as int]);
                assert(prefix.skip(j as int)[0] == prefix[j as int]);
            } else {
                assert(prefix.skip(j as int).len() == 0);
            }
            assert(orig.take(i + 1).drop_last() == orig.take(i as int));
            assert(orig.take(i + 1).last() == x@);
        }
        let ghost before = entries@.map_values(|e: ArchiveEntry| e@);
        entries.insert(j, x);
        proof {
            let now = entries@.map_values(|e: ArchiveEntry| e@);
            assert(now =~= before.insert(j as int, x@));
            assert(now == prefix.insert(j as int, x@) + orig.skip(i + 1));
            assert(now.take(i + 1) == prefix.insert(j as int, x@));
            assert(now.skip(i + 1) == orig.skip(i + 1));
        }
        i = i + 1;
    }
    proof {
        let now = entries@.map_values(|e: ArchiveEntry| e@);
        assert(orig.take(n as int) == orig);
        assert(now.take(n as int) == now);
    }
}

} // verus!
