use vstd::prelude::*;
use crate::text::{
    chars_of, join_chars, join_with, lemma_split_join, split_chars, split_on, string_from_chars,
};

verus! {

/// Whether a path starts at the filesystem root.
pub open spec fn has_root(s: Seq<char>) -> bool {
    s.len() > 0 && s[0] == '/'
}

/// Whether a relative path starts with a `.` component.
pub open spec fn cur_dir_lead(s: Seq<char>) -> bool {
    !has_root(s) && split_on(s, '/')[0] == seq!['.']
}

/// The `/`-separated pieces after the root or leading `.`, untouched.
pub open spec fn body_parts(s: Seq<char>) -> Seq<Seq<char>> {
    if has_root(s) || cur_dir_lead(s) {
        split_on(s, '/').drop_first()
    } else {
        split_on(s, '/')
    }
}

/// Pieces that name no component: empty ones and `.`.
pub open spec fn is_skippable(p: Seq<char>) -> bool {
    p.len() == 0 || p == seq!['.']
}

/// Drops trailing pieces that name no component.
pub open spec fn trim_skippable(parts: Seq<Seq<char>>) -> Seq<Seq<char>>
    decreases parts.len(),
{
    if parts.len() > 0 && is_skippable(parts.last()) {
        trim_skippable(parts.drop_last())
    } else {
        parts
    }
}

/// The pieces that name components, in order.
pub open spec fn named_parts(parts: Seq<Seq<char>>) -> Seq<Seq<char>>
    decreases parts.len(),
{
    if parts.len() == 0 {
        Seq::empty()
    } else if is_skippable(parts.last()) {
        named_parts(parts.drop_last())
    } else {
        named_parts(parts.drop_last()).push(parts.last())
    }
}

/// The components of a path, spelled as text: `/` for the root, `.` for a
/// leading current-directory component, then every named component.
pub open spec fn path_components(s: Seq<char>) -> Seq<Seq<char>> {
    let lead: Seq<Seq<char>> = if has_root(s) {
        seq![seq!['/']]
    } else if cur_dir_lead(s) {
        seq![seq!['.']]
    } else {
        Seq::empty()
    };
    lead + named_parts(body_parts(s))
}

/// The final named component, unless the path ends in `..` or has none.
pub open spec fn path_file_name(s: Seq<char>) -> Option<Seq<char>> {
    let b = trim_skippable(body_parts(s));
    if b.len() > 0 && b.last() != seq!['.', '.'] {
        Some(b.last())
    } else {
        None
    }
}

/// The path without its final component, unless it is the root or empty.
pub open spec fn path_parent(s: Seq<char>) -> Option<Seq<char>> {
    let b = trim_skippable(body_parts(s));
    if b.len() == 0 {
        if cur_dir_lead(s) {
            Some(Seq::empty())
        } else {
            None
        }
    } else {
        let rest = trim_skippable(b.drop_last());
        Some(
            if has_root(s) {
                seq!['/'] + join_with(rest, seq!['/'])
            } else if cur_dir_lead(s) {
                if rest.len() == 0 {
                    seq!['.']
                } else {
                    seq!['.', '/'] + join_with(rest, seq!['/'])
                }
            } else {
                join_with(rest, seq!['/'])
            },
        )
    }
}

/// The index of the last `.` in a name.
pub open spec fn last_dot(f: Seq<char>) -> Option<int>
    decreases f.len(),
{
    if f.len() == 0 {
        None
    } else if f.last() == '.' {
        Some(f.len() - 1)
    } else {
        last_dot(f.drop_last())
    }
}

/// The text after the last `.` of the file name, when that dot is not the
/// name's first character.
pub open spec fn path_extension(s: Seq<char>) -> Option<Seq<char>> {
    match path_file_name(s) {
        Some(f) => match last_dot(f) {
            Some(k) => if k > 0 {
                Some(f.skip(k + 1))
            } else {
                None
            },
            None => None,
        },
        None => None,
    }
}

/// The file name without its extension.
pub open spec fn path_file_stem(s: Seq<char>) -> Option<Seq<char>> {
    match path_file_name(s) {
        Some(f) => match last_dot(f) {
            Some(k) => if k > 0 {
                Some(f.take(k))
            } else {
                Some(f)
            },
            None => Some(f),
        },
        None => None,
    }
}

fn is_skippable_exec(p: &Vec<char>) -> (r: bool)
    ensures
        r == is_skippable(p@),
{
    if p.len() == 0 {
        true
    } else if p.len() == 1 && p[0] == '.' {
        assert(p@ == seq!['.']);
        true
    } else {
        assert(p@.len() == 1 ==> p@ != seq!['.'] || p@[0] == '.');
        false
    }
}

fn is_dot_dot(p: &Vec<char>) -> (r: bool)
    ensures
        r == (p@ == seq!['.', '.']),
{
    if p.len() == 2 && p[0] == '.' && p[1] == '.' {
        assert(p@ == seq!['.', '.']);
        true
    } else {
        false
    }
}

fn trim_skippable_exec(parts: &mut Vec<Vec<char>>)
    ensures
        final(parts)@.map_values(|p: Vec<char>| p@) == trim_skippable(old(parts)@.map_values(|p: Vec<char>| p@)),
    decreases old(parts)@.len(),
{
    let n = parts.len();
    if n > 0 && is_skippable_exec(&parts[n - 1]) {
        let ghost before = parts@.map_values(|p: Vec<char>| p@);
        parts.pop();
        assert(parts@.map_values(|p: Vec<char>| p@) =~= before.drop_last());
        trim_skippable_exec(parts);
    }
}

/// Splits a path into its root flag, leading-`.` flag and body pieces.
fn path_body(s: &[char]) -> (r: (bool, bool, Vec<Vec<char>>))
    ensures
        r.0 == has_root(s@),
        r.1 == cur_dir_lead(s@),
        r.2@.map_values(|p: Vec<char>| p@) == body_parts(s@),
{
    let mut parts = split_chars(s, '/');
    let ghost all = parts@.map_values(|p: Vec<char>| p@);
    proof {
        lemma_split_len(s@);
    }
    let root = s.len() > 0 && s[0] == '/';
    let cur = !root && parts[0].len() == 1 && parts[0][0] == '.';
    assert(parts[0]@ == all[0]);
    assert(cur == cur_dir_lead(s@)) by {
        if !root && all[0].len() == 1 && all[0][0] == '.' {
            assert(all[0] == seq!['.']);
        }
    }
    if root || cur {
        parts.remove(0);
        assert(parts@.map_values(|p: Vec<char>| p@) =~= all.drop_first());
    }
    (root, cur, parts)
}

proof fn lemma_split_len(s: Seq<char>)
    ensures
        split_on(s, '/').len() >= 1,
    decreases s.len(),
{
    if s.len() > 0 {
        lemma_split_len(s.drop_last());
    }
}

/// The final named component of a path (`Path::file_name`).
pub fn file_name(path: &str) -> (r: Option<String>)
    ensures
        r matches Some(f) ==> path_file_name(path@) == Some(f@),
        r is None ==> path_file_name(path@) is None,
{
    let cs = chars_of(path);
    let (_root, _cur, mut parts) = path_body(cs.as_slice());
    trim_skippable_exec(&mut parts);
    let n = parts.len();
    if n > 0 && !is_dot_dot(&parts[n - 1]) {
        Some(string_from_chars(parts[n - 1].as_slice()))
    } else {
        None
    }
}

/// The path without its final component (`Path::parent`).
pub fn parent(path: &str) -> (r: Option<String>)
    ensures
        r matches Some(p) ==> path_parent(path@) == Some(p@),
        r is None ==> path_parent(path@) is None,
{
    let cs = chars_of(path);
    let (root, cur, mut parts) = path_body(cs.as_slice());
    trim_skippable_exec(&mut parts);
    if parts.len() == 0 {
        return if cur {
            Some(String::new())
        } else {
            None
        };
    }
    let ghost b = parts@.map_values(|p: Vec<char>| p@);
    parts.pop();
    assert(parts@.map_values(|p: Vec<char>| p@) =~= b.drop_last());
    trim_skippable_exec(&mut parts);
    let ghost rest = parts@.map_values(|p: Vec<char>| p@);
    assert(rest == trim_skippable(b.drop_last()));
    let slash = vec!['/'];
    assert(slash@ == seq!['/']);
    let body = join_chars(&parts, slash.as_slice());
    assert(body@ == join_with(rest, seq!['/']));
    let mut out: Vec<char> = Vec::new();
    if root {
        out.push('/');
    } else if cur {
        out.push('.');
        if parts.len() > 0 {
            out.push('/');
        }
    }
    let ghost lead = out@;
    for i in 0..body.len()
        invariant
            out@ == lead + body@.take(i as int),
    {
        out.push(body[i]);
        assert(body@.take(i + 1) == body@.take(i as int).push(body@[i as int]));
    }
    assert(body@.take(body@.len() as int) == body@);
    proof {
        if !root && cur && parts@.len() == 0 {
            assert(body@ == Seq::<char>::empty());
            assert(out@ =~= seq!['.']);
        }
        if root {
            assert(out@ =~= seq!['/'] + body@);
        }
        if !root && cur && parts@.len() > 0 {
            assert(out@ =~= seq!['.', '/'] + body@);
        }
        if !root && !cur {
            assert(out@ =~= body@);
        }
    }
    Some(string_from_chars(out.as_slice()))
}

fn last_dot_exec(f: &Vec<char>) -> (r: Option<usize>)
    ensures
        r matches Some(k) ==> last_dot(f@) == Some(k as int) && k < f@.len(),
        r is None ==> last_dot(f@) is None,
{
    let mut i = f.len();
    assert(f@.take(i as int) == f@);
    while i > 0
        invariant
            i <= f@.len(),
            last_dot(f@) == last_dot(f@.take(i as int)),
        decreases i,
    {
        assert(f@.take(i as int).drop_last() == f@.take(i - 1));
        if f[i - 1] == '.' {
            return Some(i - 1);
        }
        i = i - 1;
    }
    assert(f@.take(0) == Seq::<char>::empty());
    None
}

/// The extension of the file name (`Path::extension`).
pub fn extension(path: &str) -> (r: Option<String>)
    ensures
        r matches Some(e) ==> path_extension(path@) == Some(e@),
        r is None ==> path_extension(path@) is None,
{
    match file_name(path) {
        Some(f) => {
            let fc = chars_of(f.as_str());
            match last_dot_exec(&fc) {
                Some(k) => if k > 0 {
                    let mut out: Vec<char> = Vec::new();
                    for i in k + 1..fc.len()
                        invariant
                            k + 1 <= fc@.len(),
                            out@ == fc@.subrange(k + 1, i as int),
                    {
                        out.push(fc[i]);
                        assert(fc@.subrange(k + 1, i + 1) == fc@.subrange(k + 1, i as int).push(fc@[i as int]));
                    }
                    assert(fc@.subrange(k + 1, fc@.len() as int) == fc@.skip(k + 1));
                    Some(string_from_chars(out.as_slice()))
                } else {
                    None
                },
                None => None,
            }
        },
        None => None,
    }
}

/// The file name without its extension (`Path::file_stem`).
pub fn file_stem(path: &str) -> (r: Option<String>)
    ensures
        r matches Some(e) ==> path_file_stem(path@) == Some(e@),
        r is None ==> path_file_stem(path@) is None,
{
    match file_name(path) {
        Some(f) => {
            let fc = chars_of(f.as_str());
            match last_dot_exec(&fc) {
                Some(k) => if k > 0 {
                    let mut out: Vec<char> = Vec::new();
                    for i in 0..k
                        invariant
                            k <= fc@.len(),
                            out@ == fc@.take(i as int),
                    {
                        out.push(fc[i]);
                        assert(fc@.take(i + 1) == fc@.take(i as int).push(fc@[i as int]));
                    }
                    Some(string_from_chars(out.as_slice()))
                } else {
                    Some(f)
                },
                None => Some(f),
            }
        },
        None => None,
    }
}

fn named_parts_exec(parts: &Vec<Vec<char>>) -> (out: Vec<Vec<char>>)
    ensures
        out@.map_values(|p: Vec<char>| p@) == named_parts(parts@.map_values(|p: Vec<char>| p@)),
{
    let mut out: Vec<Vec<char>> = Vec::new();
    let ghost all = parts@.map_values(|p: Vec<char>| p@);
    for i in 0..parts.len()
        invariant
            all == parts@.map_values(|p: Vec<char>| p@),
            out@.map_values(|p: Vec<char>| p@) == named_parts(all.take(i as int)),
    {
        assert(all.take(i + 1).drop_last() == all.take(i as int));
        assert(parts[i as int]@ == all[i as int]);
        if !is_skippable_exec(&parts[i]) {
            let part = parts[i].clone();
            let ghost before = out@.map_values(|p: Vec<char>| p@);
            out.push(part);
            assert(out@.map_values(|p: Vec<char>| p@) =~= before.push(all[i as int]));
        }
    }
    assert(all.take(all.len() as int) == all);
    out
}

/// The components of a path, spelled as text (`Path::components`).
pub fn components(path: &str) -> (out: Vec<Vec<char>>)
    ensures
        out@.map_values(|p: Vec<char>| p@) == path_components(path@),
{
    let cs = chars_of(path);
    let (root, cur, parts) = path_body(cs.as_slice());
    let named = named_parts_exec(&parts);
    let mut out: Vec<Vec<char>> = Vec::new();
    if root {
        let v = vec!['/'];
        assert(v@ =~= seq!['/']);
        out.push(v);
    } else if cur {
        let v = vec!['.'];
        assert(v@ =~= seq!['.']);
        out.push(v);
    }
    let ghost lead = out@.map_values(|p: Vec<char>| p@);
    assert(root ==> lead =~= seq![seq!['/']]);
    assert(!root && cur ==> lead =~= seq![seq!['.']]);
    for i in 0..named.len()
        invariant
            out@.map_values(|p: Vec<char>| p@) == lead + named@.map_values(|p: Vec<char>| p@).take(i as int),
    {
        let part = named[i].clone();
        assert(part@ == named@.map_values(|p: Vec<char>| p@)[i as int]);
        let ghost before = out@.map_values(|p: Vec<char>| p@);
        out.push(part);
        assert(out@.map_values(|p: Vec<char>| p@) =~= before.push(part@));
        assert(named@.map_values(|p: Vec<char>| p@).take(i + 1) =~= named@.map_values(|p: Vec<char>| p@).take(i as int).push(part@));
        assert(out@.map_values(|p: Vec<char>| p@) =~= lead + named@.map_values(|p: Vec<char>| p@).take(i + 1));
    }
    assert(named@.map_values(|p: Vec<char>| p@).take(named@.len() as int) == named@.map_values(|p: Vec<char>| p@));
    out
}

/// Appends a relative piece to a path the way `PathBuf::push` does on Unix:
/// a `/` goes in between unless the path is empty or already ends in `/`.
pub open spec fn push_rel(buf: Seq<char>, x: Seq<char>) -> Seq<char> {
    if buf.len() > 0 && buf.last() != '/' {
        buf + seq!['/'] + x
    } else {
        buf + x
    }
}

/// Joins a path onto a folder the way `Path::join` does on Unix: a path
/// from the root replaces the folder, anything else is pushed onto it.
pub open spec fn joined(base: Seq<char>, rel: Seq<char>) -> Seq<char> {
    if has_root(rel) {
        rel
    } else {
        push_rel(base, rel)
    }
}

/// Pushes a relative piece onto a path held as characters.
pub fn push_piece(buf: &mut Vec<char>, x: &[char])
    ensures
        final(buf)@ == push_rel(old(buf)@, x@),
{
    let n = buf.len();
    if n > 0 && buf[n - 1] != '/' {
        buf.push('/');
    }
    let ghost mid = buf@;
    for i in 0..x.len()
        invariant
            buf@ == mid + x@.take(i as int),
    {
        buf.push(x[i]);
        assert(x@.take(i + 1) == x@.take(i as int).push(x@[i as int]));
    }
    assert(x@.take(x@.len() as int) == x@);
}

/// `Path::join` on Unix.
pub fn join_path(base: &str, rel: &str) -> (r: String)
    ensures
        r@ == joined(base@, rel@),
{
    let rc = chars_of(rel);
    if rc.len() > 0 && rc[0] == '/' {
        return string_from_chars(rc.as_slice());
    }
    let mut buf = chars_of(base);
    push_piece(&mut buf, rc.as_slice());
    string_from_chars(buf.as_slice())
}

/// Pushes every piece in order onto `base`.
pub open spec fn push_all(base: Seq<char>, xs: Seq<Seq<char>>) -> Seq<char>
    decreases xs.len(),
{
    if xs.len() == 0 {
        base
    } else {
        push_rel(push_all(base, xs.drop_last()), xs.last())
    }
}

pub proof fn lemma_push_all_push(base: Seq<char>, xs: Seq<Seq<char>>, x: Seq<char>)
    ensures
        push_all(base, xs.push(x)) == push_rel(push_all(base, xs), x),
{
    assert(xs.push(x).drop_last() =~= xs);
}

/// A piece that a joined path keeps as one component.
pub open spec fn plain_piece(x: Seq<char>) -> bool {
    x.len() > 0 && !x.contains('/') && x != seq!['.']
}

pub proof fn lemma_join_last(parts: Seq<Seq<char>>)
    requires
        parts.len() >= 1,
        forall|i: int| 0 <= i < parts.len() ==> plain_piece(#[trigger] parts[i]),
    ensures
        join_with(parts, seq!['/']).len() > 0,
        join_with(parts, seq!['/']).last() == parts.last().last(),
{
    assert(plain_piece(parts[parts.len() - 1]));
}

/// Pushing plain pieces onto a plain base joins them with `/`.
pub proof fn lemma_push_all_join(base: Seq<char>, xs: Seq<Seq<char>>)
    requires
        plain_piece(base),
        forall|i: int| 0 <= i < xs.len() ==> plain_piece(#[trigger] xs[i]),
    ensures
        push_all(base, xs) == join_with(seq![base] + xs, seq!['/']),
    decreases xs.len(),
{
    if xs.len() > 0 {
        let init = xs.drop_last();
        assert forall|i: int| 0 <= i < init.len() implies plain_piece(#[trigger] init[i]) by {
            assert(init[i] == xs[i]);
        }
        lemma_push_all_join(base, init);
        let parts = seq![base] + init;
        assert forall|i: int| 0 <= i < parts.len() implies plain_piece(#[trigger] parts[i]) by {
            if i > 0 {
                assert(parts[i] == init[i - 1]);
            }
        }
        lemma_join_last(parts);
        assert(plain_piece(parts.last()));
        assert(parts.last().last() != '/') by {
            assert(parts.last()[parts.last().len() - 1] == parts.last().last());
        }
        assert((seq![base] + xs).drop_last() =~= parts);
        assert((seq![base] + xs).last() == xs.last());
    }
}

pub proof fn lemma_named_parts_plain(parts: Seq<Seq<char>>)
    requires
        forall|i: int| 0 <= i < parts.len() ==> plain_piece(#[trigger] parts[i]),
    ensures
        named_parts(parts) == parts,
    decreases parts.len(),
{
    if parts.len() > 0 {
        let init = parts.drop_last();
        assert forall|i: int| 0 <= i < init.len() implies plain_piece(#[trigger] init[i]) by {
            assert(init[i] == parts[i]);
        }
        lemma_named_parts_plain(init);
        assert(plain_piece(parts[parts.len() - 1]));
        assert(!is_skippable(parts.last()));
        assert(init.push(parts.last()) =~= parts);
    }
}

/// The components of a path made of plain pieces joined by `/` are the pieces.
pub proof fn lemma_components_of_join(parts: Seq<Seq<char>>)
    requires
        parts.len() >= 1,
        forall|i: int| 0 <= i < parts.len() ==> plain_piece(#[trigger] parts[i]),
        parts[0][0] != '/',
    ensures
        path_components(join_with(parts, seq!['/'])) == parts,
{
    let s = join_with(parts, seq!['/']);
    assert forall|i: int| 0 <= i < parts.len() implies !(#[trigger] parts[i]).contains('/') by {
        assert(plain_piece(parts[i]));
    }
    lemma_split_join(parts, '/');
    lemma_join_first(parts);
    assert(plain_piece(parts[0]));
    assert(!has_root(s));
    assert(!cur_dir_lead(s));
    assert(body_parts(s) == parts);
    lemma_named_parts_plain(parts);
    assert(path_components(s) =~= parts);
}

pub proof fn lemma_join_first(parts: Seq<Seq<char>>)
    requires
        parts.len() >= 1,
        parts[0].len() > 0,
    ensures
        join_with(parts, seq!['/']).len() > 0,
        join_with(parts, seq!['/'])[0] == parts[0][0],
    decreases parts.len(),
{
    if parts.len() > 1 {
        lemma_join_first(parts.drop_last());
    }
}

}
