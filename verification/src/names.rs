use vstd::prelude::*;
use crate::paths::{extension, path_extension};
use crate::entries::EntryKind;
use crate::text::{
    concat_texts, join_chars, join_with, keep_nonempty, segments, split_chars,
    ascii_lower, ascii_lower_char, chars_eq_ignore_ascii_case, chars_of, decimal_chars, decimal_of,
    eq_ignore_ascii_case, hex_padded, hex_padded_chars, is_whitespace, is_whitespace_char,
    string_from_chars, trim, trim_chars, trim_end, trim_start,
};

verus! {

/// The 32-bit FNV-1a hash of a byte sequence.
pub open spec fn fnv1a(bytes: Seq<u8>) -> u32
    decreases bytes.len(),
{
    if bytes.len() == 0 {
        0x811c9dc5u32
    } else {
        (fnv1a(bytes.drop_last()) ^ (bytes.last() as u32)).wrapping_mul(0x01000193u32)
    }
}

/// The automatic tailnet host name of a profile: `fe-` and six hexadecimal
/// digits of the FNV-1a hash of the profile id.
pub open spec fn generated_hostname_of(profile_id: Seq<char>) -> Seq<char> {
    seq!['f', 'e', '-'] + hex_padded((fnv1a(vstd::utf8::encode_utf8(profile_id)) & 0x00ff_ffffu32) as nat, 6)
}

/// The automatic tailnet host name of a profile.
pub fn generated_tailscale_hostname(profile_id: &str) -> (out: String)
    ensures
        out@ == generated_hostname_of(profile_id@),
        out@.len() == 9,
{
    let bytes = profile_id.as_bytes();
    let mut hash: u32 = 0x811c9dc5;
    for i in 0..bytes.len()
        invariant
            bytes@ == vstd::utf8::encode_utf8(profile_id@),
            hash == fnv1a(bytes@.take(i as int)),
    {
        assert(bytes@.take(i + 1).drop_last() == bytes@.take(i as int));
        hash = (hash ^ (bytes[i] as u32)).wrapping_mul(0x01000193);
    }
    assert(bytes@.take(bytes@.len() as int) == bytes@);
    let mut out = vec!['f', 'e', '-'];
    let digits = hex_padded_chars((hash & 0x00ff_ffff) as u64, 6);
    proof {
        lemma_hex_padded_len((hash & 0x00ff_ffff) as nat, 6);
    }
    let ghost head = out@;
    for i in 0..digits.len()
        invariant
            out@ == head + digits@.take(i as int),
    {
        out.push(digits[i]);
        assert(digits@.take(i + 1) == digits@.take(i as int).push(digits@[i as int]));
    }
    assert(digits@.take(digits@.len() as int) == digits@);
    assert(head =~= seq!['f', 'e', '-']);
    string_from_chars(out.as_slice())
}

proof fn lemma_hex_padded_len(n: nat, width: nat)
    ensures
        hex_padded(n, width).len() == width,
    decreases width,
{
    if width > 0 {
        lemma_hex_padded_len(n / 16, (width - 1) as nat);
    }
}

/// ASCII letters and digits.
pub open spec fn is_ascii_alphanumeric(c: char) -> bool {
    ('0' <= c <= '9') || ('a' <= c <= 'z') || ('A' <= c <= 'Z')
}

/// Builds a host name from the remaining characters: letters and digits are
/// kept in lowercase, every other character becomes one `-` that is only
/// written after some letter or digit and never twice in a row, and writing
/// stops at 32 characters.
pub open spec fn hostname_from(acc: Seq<char>, previous_dash: bool, rest: Seq<char>) -> Seq<char>
    decreases rest.len(),
{
    if rest.len() == 0 || acc.len() >= 32 {
        acc
    } else {
        let ch = ascii_lower(rest[0]);
        if is_ascii_alphanumeric(ch) {
            hostname_from(acc.push(ch), false, rest.skip(1))
        } else if previous_dash || acc.len() == 0 {
            hostname_from(acc, previous_dash, rest.skip(1))
        } else {
            hostname_from(acc.push('-'), true, rest.skip(1))
        }
    }
}

/// Drops trailing dashes.
pub open spec fn trim_trailing_dashes(s: Seq<char>) -> Seq<char>
    decreases s.len(),
{
    if s.len() > 0 && s.last() == '-' {
        trim_trailing_dashes(s.drop_last())
    } else {
        s
    }
}

/// The tailnet host name chosen from what the user typed.
pub open spec fn normalized_hostname_of(value: Seq<char>) -> Seq<char> {
    trim_trailing_dashes(hostname_from(Seq::empty(), false, trim(value)))
}

/// A well-formed host name: at most 32 characters, only lowercase ASCII
/// letters, digits and `-`, no `-` at either end and never two in a row.
pub open spec fn is_hostname_shape(s: Seq<char>) -> bool {
    &&& s.len() <= 32
    &&& forall|i: int| 0 <= i < s.len() ==> ('0' <= #[trigger] s[i] <= '9') || ('a' <= s[i] <= 'z') || s[i] == '-'
    &&& s.len() > 0 ==> s[0] != '-' && s.last() != '-'
    &&& forall|i: int| 0 <= i < s.len() - 1 ==> !(#[trigger] s[i] == '-' && s[i + 1] == '-')
}

/// The shape kept while building: letters, digits and single inner dashes;
/// `previous_dash` tells whether the last character is a dash.
pub open spec fn building_shape(acc: Seq<char>, previous_dash: bool) -> bool {
    &&& acc.len() <= 32
    &&& forall|i: int| 0 <= i < acc.len() ==> ('0' <= #[trigger] acc[i] <= '9') || ('a' <= acc[i] <= 'z') || acc[i] == '-'
    &&& acc.len() > 0 ==> acc[0] != '-'
    &&& forall|i: int| 0 <= i < acc.len() - 1 ==> !(#[trigger] acc[i] == '-' && acc[i + 1] == '-')
    &&& (acc.len() > 0 ==> (previous_dash <==> acc.last() == '-'))
}

proof fn lemma_hostname_from_shape(acc: Seq<char>, previous_dash: bool, rest: Seq<char>)
    requires
        building_shape(acc, previous_dash),
        acc.len() == 0 ==> !previous_dash,
    ensures
        building_shape(hostname_from(acc, previous_dash, rest), true)
            || building_shape(hostname_from(acc, previous_dash, rest), false),
        hostname_from(acc, previous_dash, rest).len() <= 32,
    decreases rest.len(),
{
    if rest.len() == 0 || acc.len() >= 32 {
        if acc.len() > 0 {
            if acc.last() == '-' {
                assert(building_shape(acc, true));
            } else {
                assert(building_shape(acc, false));
            }
        }
    } else {
        let ch = ascii_lower(rest[0]);
        if is_ascii_alphanumeric(ch) {
            let next = acc.push(ch);
            assert(('0' <= ch <= '9') || ('a' <= ch <= 'z')) by {
                assert(!('A' <= ch <= 'Z'));
            }
            assert(building_shape(next, false)) by {
                assert forall|i: int| 0 <= i < next.len() - 1 implies !(#[trigger] next[i] == '-' && next[i + 1] == '-') by {
                    if i < acc.len() - 1 {
                        assert(next[i] == acc[i] && next[i + 1] == acc[i + 1]);
                    }
                }
            }
            lemma_hostname_from_shape(next, false, rest.skip(1));
        } else if previous_dash || acc.len() == 0 {
            lemma_hostname_from_shape(acc, previous_dash, rest.skip(1));
        } else {
            let next = acc.push('-');
            assert(building_shape(next, true)) by {
                assert forall|i: int| 0 <= i < next.len() - 1 implies !(#[trigger] next[i] == '-' && next[i + 1] == '-') by {
                    if i < acc.len() - 1 {
                        assert(next[i] == acc[i] && next[i + 1] == acc[i + 1]);
                    } else {
                        assert(next[i] == acc.last());
                    }
                }
            }
            lemma_hostname_from_shape(next, true, rest.skip(1));
        }
    }
}

proof fn lemma_trim_dashes_shape(s: Seq<char>, previous_dash: bool)
    requires
        building_shape(s, previous_dash),
    ensures
        is_hostname_shape(trim_trailing_dashes(s)),
    decreases s.len(),
{
    if s.len() > 0 && s.last() == '-' {
        let t = s.drop_last();
        assert(building_shape(t, t.len() > 0 && t.last() == '-')) by {
            assert forall|i: int| 0 <= i < t.len() - 1 implies !(#[trigger] t[i] == '-' && t[i + 1] == '-') by {
                assert(t[i] == s[i] && t[i + 1] == s[i + 1]);
            }
            assert forall|i: int| 0 <= i < t.len() implies ('0' <= #[trigger] t[i] <= '9') || ('a' <= t[i] <= 'z') || t[i] == '-' by {
                assert(t[i] == s[i]);
            }
        }
        lemma_trim_dashes_shape(t, t.len() > 0 && t.last() == '-');
    }
}

/// Every host name chosen from user text has the host name shape.
pub proof fn lemma_normalized_hostname_shape(value: Seq<char>)
    ensures
        is_hostname_shape(normalized_hostname_of(value)),
{
    let built = hostname_from(Seq::empty(), false, trim(value));
    lemma_hostname_from_shape(Seq::empty(), false, trim(value));
    if building_shape(built, true) {
        lemma_trim_dashes_shape(built, true);
    } else {
        lemma_trim_dashes_shape(built, false);
    }
}

proof fn lemma_hostname_copies(acc: Seq<char>, previous_dash: bool, rest: Seq<char>)
    requires
        acc.len() + rest.len() <= 32,
        previous_dash == (acc.len() > 0 && acc.last() == '-'),
        forall|i: int| 0 <= i < rest.len() ==> ('0' <= #[trigger] rest[i] <= '9') || ('a' <= rest[i] <= 'z') || rest[i] == '-',
        forall|i: int| 0 <= i < rest.len() - 1 ==> !(#[trigger] rest[i] == '-' && rest[i + 1] == '-'),
        rest.len() > 0 && rest[0] == '-' ==> !previous_dash && acc.len() > 0,
    ensures
        hostname_from(acc, previous_dash, rest) == acc + rest,
    decreases rest.len(),
{
    if rest.len() == 0 {
        assert(acc + rest =~= acc);
    } else {
        let c = rest[0];
        assert(ascii_lower(c) == c);
        let next = acc.push(c);
        let tail = rest.skip(1);
        assert forall|i: int| 0 <= i < tail.len() implies ('0' <= #[trigger] tail[i] <= '9') || ('a' <= tail[i] <= 'z') || tail[i] == '-' by {
            assert(tail[i] == rest[i + 1]);
        }
        assert forall|i: int| 0 <= i < tail.len() - 1 implies !(#[trigger] tail[i] == '-' && tail[i + 1] == '-') by {
            assert(tail[i] == rest[i + 1] && tail[i + 1] == rest[i + 2]);
        }
        if tail.len() > 0 {
            assert(tail[0] == rest[1]);
        }
        lemma_hostname_copies(next, c == '-', tail);
        assert(next + tail =~= acc + rest);
    }
}

proof fn lemma_trim_start_plain(s: Seq<char>)
    requires
        s.len() == 0 || !is_whitespace(s[0]),
    ensures
        trim_start(s) == s,
{
}

proof fn lemma_trim_end_plain(s: Seq<char>)
    requires
        s.len() == 0 || !is_whitespace(s.last()),
    ensures
        trim_end(s) == s,
{
}

/// Choosing a host name from a well-formed host name gives it back.
pub proof fn lemma_normalize_hostname_idempotent(name: Seq<char>)
    requires
        is_hostname_shape(name),
    ensures
        normalized_hostname_of(name) == name,
{
    if name.len() > 0 {
        assert(!is_whitespace(name[0]));
        assert(!is_whitespace(name.last()));
    }
    lemma_trim_start_plain(name);
    lemma_trim_end_plain(name);
    assert(trim(name) == name);
    lemma_hostname_copies(Seq::empty(), false, name);
    assert(Seq::<char>::empty() + name =~= name);
}

/// Normalizing a normalized host name changes nothing.
pub proof fn lemma_normalized_hostname_stable(value: Seq<char>)
    ensures
        normalized_hostname_of(normalized_hostname_of(value)) == normalized_hostname_of(value),
{
    lemma_normalized_hostname_shape(value);
    lemma_normalize_hostname_idempotent(normalized_hostname_of(value));
}

/// The tailnet host name chosen from what the user typed.
pub fn normalize_tailscale_hostname(value: &str) -> (out: String)
    ensures
        out@ == normalized_hostname_of(value@),
        is_hostname_shape(out@),
{
    let cs = chars_of(value);
    let t = trim_chars(cs.as_slice());
    let mut acc: Vec<char> = Vec::new();
    let mut previous_dash = false;
    let mut i: usize = 0;
    assert(t@.skip(0) == t@);
    while i < t.len() && acc.len() < 32
        invariant
            i <= t@.len(),
            hostname_from(Seq::empty(), false, t@) == hostname_from(acc@, previous_dash, t@.skip(i as int)),
        decreases t.len() - i,
    {
        let ch = ascii_lower_char(t[i]);
        assert(t@.skip(i as int)[0] == t@[i as int]);
        assert(t@.skip(i as int).skip(1) == t@.skip(i + 1));
        if ('0' <= ch && ch <= '9') || ('a' <= ch && ch <= 'z') || ('A' <= ch && ch <= 'Z') {
            acc.push(ch);
            previous_dash = false;
        } else if previous_dash || acc.len() == 0 {
        } else {
            acc.push('-');
            previous_dash = true;
        }
        i = i + 1;
    }
    let mut n = acc.len();
    assert(acc@.take(n as int) == acc@);
    while n > 0 && acc[n - 1] == '-'
        invariant
            n <= acc@.len(),
            trim_trailing_dashes(acc@) == trim_trailing_dashes(acc@.take(n as int)),
        decreases n,
    {
        assert(acc@.take(n as int).drop_last() == acc@.take(n - 1));
        n = n - 1;
    }
    let mut out: Vec<char> = Vec::new();
    for k in 0..n
        invariant
            n <= acc@.len(),
            out@ == acc@.take(k as int),
    {
        out.push(acc[k]);
        assert(acc@.take(k + 1) == acc@.take(k as int).push(acc@[k as int]));
    }
    proof {
        lemma_normalized_hostname_shape(value@);
    }
    string_from_chars(out.as_slice())
}


/// Whether a file name is an Android package to install: its extension is
/// `apk`, `apks` or `aab` in any ASCII case.
pub open spec fn is_android_install_spec(name: Seq<char>) -> bool {
    match path_extension(name) {
        Some(e) => eq_ignore_ascii_case(e, "apk"@) || eq_ignore_ascii_case(e, "apks"@)
            || eq_ignore_ascii_case(e, "aab"@),
        None => false,
    }
}

/// Whether a file name is an Android App Bundle: its extension is `aab` in
/// any ASCII case.
pub open spec fn is_aab_spec(name: Seq<char>) -> bool {
    match path_extension(name) {
        Some(e) => eq_ignore_ascii_case(e, "aab"@),
        None => false,
    }
}

fn extension_is(e: &[char], word: &str) -> (r: bool)
    ensures
        r == eq_ignore_ascii_case(e@, word@),
{
    let w = chars_of(word);
    chars_eq_ignore_ascii_case(e, w.as_slice())
}

/// Whether a file name is an Android package to install.
pub fn is_android_install_name(name: &str) -> (r: bool)
    ensures
        r == is_android_install_spec(name@),
{
    match extension(name) {
        Some(e) => {
            let ec = chars_of(e.as_str());
            extension_is(ec.as_slice(), "apk") || extension_is(ec.as_slice(), "apks")
                || extension_is(ec.as_slice(), "aab")
        },
        None => false,
    }
}

/// Whether a file name is an Android App Bundle.
pub fn is_aab_name(name: &str) -> (r: bool)
    ensures
        r == is_aab_spec(name@),
{
    match extension(name) {
        Some(e) => {
            let ec = chars_of(e.as_str());
            extension_is(ec.as_slice(), "aab")
        },
        None => false,
    }
}

/// The part of a name that typing over a selected name keeps: `.` and the
/// extension for a file that has one, nothing for a folder.
pub open spec fn rename_suffix_of(is_dir: bool, name: Seq<char>) -> Seq<char> {
    if is_dir {
        Seq::empty()
    } else {
        match path_extension(name) {
            Some(e) => seq!['.'] + e,
            None => Seq::empty(),
        }
    }
}

/// The part of a name that typing over a selected name keeps.
pub fn keyboard_rename_suffix_for(kind: EntryKind, name: &str) -> (r: String)
    ensures
        r@ == rename_suffix_of(kind == EntryKind::Directory, name@),
{
    if kind == EntryKind::Directory {
        return String::new();
    }
    match extension(name) {
        Some(e) => {
            proof {
                reveal_strlit(".");
            }
            concat_texts(".", e.as_str())
        },
        None => String::new(),
    }
}

/// Drops every trailing `-` and whitespace character.
pub open spec fn trim_end_dashes_spaces(s: Seq<char>) -> Seq<char>
    decreases s.len(),
{
    if s.len() > 0 && (s.last() == '-' || is_whitespace(s.last())) {
        trim_end_dashes_spaces(s.drop_last())
    } else {
        s
    }
}

/// A device name with a tail after it: the name is cut so the whole
/// stays within 24 characters (at least one character of it is kept) and
/// loses trailing `-` and whitespace; an empty stem becomes `d`.
pub open spec fn name_with_tail_of(base: Seq<char>, tail: Seq<char>) -> Seq<char> {
    let keep = if tail.len() >= 24 {
        1
    } else {
        (24 - tail.len()) as nat
    };
    let stem = trim_end_dashes_spaces(base.take(if keep <= base.len() { keep as int } else { base.len() as int }));
    (if stem.len() == 0 {
        seq!['d']
    } else {
        stem
    }) + tail
}

/// A device name made unique by a number: `-` and the number after the
/// name (see [`name_with_tail_of`]).
pub open spec fn name_with_suffix_of(base: Seq<char>, suffix: nat) -> Seq<char> {
    name_with_tail_of(base, seq!['-'] + decimal_of(suffix))
}

/// A device's name that stays the same for its id: the given name (in
/// normal form) followed by `-` and six hexadecimal digits of the FNV-1a
/// hash of the device id (see [`name_with_tail_of`]).
pub open spec fn stable_name_of(base: Seq<char>, device_id: Seq<char>) -> Seq<char> {
    name_with_tail_of(
        base,
        seq!['-'] + hex_padded((fnv1a(vstd::utf8::encode_utf8(device_id)) & 0x00ff_ffffu32) as nat, 6),
    )
}

/// A device name with a tail after it.
fn name_with_tail(base: &str, tail: &Vec<char>) -> (r: String)
    ensures
        r@ == name_with_tail_of(base@, tail@),
{
    let keep: usize = if tail.len() >= 24 {
        1
    } else {
        24 - tail.len()
    };
    let bc = chars_of(base);
    let take = if keep <= bc.len() {
        keep
    } else {
        bc.len()
    };
    let mut n = take;
    assert(bc@.take(take as int).take(n as int) == bc@.take(take as int));
    while n > 0 && (bc[n - 1] == '-' || is_whitespace_char(bc[n - 1]))
        invariant
            n <= take <= bc@.len(),
            trim_end_dashes_spaces(bc@.take(take as int)) == trim_end_dashes_spaces(bc@.take(n as int)),
        decreases n,
    {
        assert(bc@.take(n as int).drop_last() == bc@.take(n - 1));
        n = n - 1;
    }
    let mut out: Vec<char> = Vec::new();
    if n == 0 {
        out.push('d');
    } else {
        for k in 0..n
            invariant
                n <= bc@.len(),
                out@ == bc@.take(k as int),
        {
            out.push(bc[k]);
            assert(bc@.take(k + 1) == bc@.take(k as int).push(bc@[k as int]));
        }
    }
    assert(out@ == (if n == 0 { seq!['d'] } else { bc@.take(n as int) }));
    for k in 0..tail.len()
        invariant
            out@ == (if n == 0 { seq!['d'] } else { bc@.take(n as int) }) + tail@.take(k as int),
    {
        out.push(tail[k]);
        assert(tail@.take(k + 1) == tail@.take(k as int).push(tail@[k as int]));
    }
    assert(tail@.take(tail@.len() as int) == tail@);
    string_from_chars(out.as_slice())
}

/// `-` followed by the given characters.
fn dash_then(digits: &Vec<char>) -> (r: Vec<char>)
    ensures
        r@ == seq!['-'] + digits@,
{
    let mut tail: Vec<char> = vec!['-'];
    for i in 0..digits.len()
        invariant
            tail@ == seq!['-'] + digits@.take(i as int),
    {
        tail.push(digits[i]);
        assert(digits@.take(i + 1) == digits@.take(i as int).push(digits@[i as int]));
    }
    assert(digits@.take(digits@.len() as int) == digits@);
    tail
}

/// A device name made unique by a number.
pub fn taildrive_device_name_with_suffix(base: &str, suffix: usize) -> (r: String)
    ensures
        r@ == name_with_suffix_of(base@, suffix as nat),
{
    let digits = decimal_chars(suffix as u128);
    let tail = dash_then(&digits);
    name_with_tail(base, &tail)
}

/// The FNV-1a hash of a text's UTF-8 bytes.
fn fnv1a_of_text(value: &str) -> (hash: u32)
    ensures
        hash == fnv1a(vstd::utf8::encode_utf8(value@)),
{
    let bytes = value.as_bytes();
    let mut hash: u32 = 0x811c9dc5;
    for i in 0..bytes.len()
        invariant
            bytes@ == vstd::utf8::encode_utf8(value@),
            hash == fnv1a(bytes@.take(i as int)),
    {
        assert(bytes@.take(i + 1).drop_last() == bytes@.take(i as int));
        hash = (hash ^ (bytes[i] as u32)).wrapping_mul(0x01000193);
    }
    assert(bytes@.take(bytes@.len() as int) == bytes@);
    hash
}

/// A device's name that stays the same for its id; `base` is a device
/// name in normal form.
pub fn taildrive_device_stable_name(base: &str, device_id: &str) -> (r: String)
    ensures
        r@ == stable_name_of(base@, device_id@),
{
    let hash = fnv1a_of_text(device_id);
    let digits = hex_padded_chars((hash & 0x00ff_ffff) as u64, 6);
    let tail = dash_then(&digits);
    name_with_tail(base, &tail)
}

/// A text on one line: line breaks (`\r\n`, `\r` or `\n`) split it and the
/// non-empty lines are joined by single spaces.
pub open spec fn single_line_of(value: Seq<char>) -> Seq<char> {
    join_with(segments(unify_breaks(value), '\n'), seq![' '])
}

/// Every `\r\n` and every other `\r` written as `\n`.
pub open spec fn unify_breaks(s: Seq<char>) -> Seq<char>
    decreases s.len(),
{
    if s.len() == 0 {
        s
    } else if s[0] == '\r' && s.len() > 1 && s[1] == '\n' {
        seq!['\n'] + unify_breaks(s.skip(2))
    } else if s[0] == '\r' {
        seq!['\n'] + unify_breaks(s.skip(1))
    } else {
        seq![s[0]] + unify_breaks(s.skip(1))
    }
}

fn unify_breaks_exec(s: &[char]) -> (out: Vec<char>)
    ensures
        out@ == unify_breaks(s@),
{
    let mut out: Vec<char> = Vec::new();
    let mut i: usize = 0;
    assert(s@.skip(0) == s@);
    while i < s.len()
        invariant
            i <= s@.len(),
            unify_breaks(s@) == out@ + unify_breaks(s@.skip(i as int)),
        decreases s.len() - i,
    {
        let ghost rest = s@.skip(i as int);
        assert(rest[0] == s@[i as int]);
        if s[i] == '\r' && i + 1 < s.len() && s[i + 1] == '\n' {
            assert(rest[1] == s@[i + 1]);
            assert(rest.skip(2) == s@.skip(i + 2));
            out.push('\n');
            i = i + 2;
        } else {
            assert(rest.skip(1) == s@.skip(i + 1));
            if s[i] == '\r' {
                out.push('\n');
            } else {
                out.push(s[i]);
            }
            i = i + 1;
        }
    }
    assert(s@.skip(i as int).len() == 0);
    assert(out@ + Seq::<char>::empty() == out@);
    out
}

/// A text on one line (typed names may not hold line breaks).
pub fn single_line_input(value: String) -> (r: String)
    ensures
        r@ == single_line_of(value@),
{
    let cs = chars_of(value.as_str());
    let unified = unify_breaks_exec(cs.as_slice());
    let parts = split_chars(unified.as_slice(), '\n');
    let kept = keep_nonempty(&parts);
    let space: Vec<char> = vec![' '];
    let joined = join_chars(&kept, space.as_slice());
    assert(space@ =~= seq![' ']);
    string_from_chars(joined.as_slice())
}

}
