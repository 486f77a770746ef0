use vstd::prelude::*;
use vstd::utf8::*;
use crate::paths::plain_piece;

verus! {

broadcast use vstd::utf8::is_ascii_chars_encode_utf8;

/// The characters of a string slice, in order.
pub fn chars_of(s: &str) -> (out: Vec<char>)
    ensures
        out@ == s@,
{
    let mut out: Vec<char> = Vec::new();
    for c in it: s.chars()
        invariant
            out@ == it.seq().take(it.index() as int),
            it.seq() == s@,
    {
        out.push(c);
    }
    out
}

/// Appends one character to a string (`String::push`).
#[verifier::external_body]
pub(crate) fn push_char(s: &mut String, c: char)
    ensures
        final(s)@ == old(s)@.push(c),
{
    s.push(c);
}

/// Builds a string holding exactly the given characters.
pub fn string_from_chars(cs: &[char]) -> (out: String)
    ensures
        out@ == cs@,
{
    let mut out = String::new();
    for i in 0..cs.len()
        invariant
            out@ == cs@.take(i as int),
    {
        push_char(&mut out, cs[i]);
        assert(cs@.take(i + 1) == cs@.take(i as int).push(cs@[i as int]));
    }
    assert(cs@.take(cs@.len() as int) == cs@);
    out
}

/// The lowercase hexadecimal digit for a value below sixteen.
pub open spec fn hex_digit(n: int) -> char {
    if n < 10 {
        (48 + n) as char
    } else {
        (87 + n) as char
    }
}

/// Two lowercase hexadecimal digits per byte, most significant digit first.
pub open spec fn hex_of_bytes(bytes: Seq<u8>) -> Seq<char>
    decreases bytes.len(),
{
    if bytes.len() == 0 {
        Seq::empty()
    } else {
        hex_of_bytes(bytes.drop_last()) + seq![
            hex_digit(bytes.last() as int / 16),
            hex_digit(bytes.last() as int % 16),
        ]
    }
}

fn hex_digit_char(n: u8) -> (c: char)
    requires
        n < 16,
    ensures
        c == hex_digit(n as int),
{
    if n < 10 {
        (48u8 + n) as char
    } else {
        (87u8 + n) as char
    }
}

/// The lowercase hexadecimal spelling of the UTF-8 bytes of `value`.
pub fn hex_encode(value: &str) -> (out: String)
    ensures
        out@ == hex_of_bytes(encode_utf8(value@)),
{
    let bytes = value.as_bytes();
    let mut out = String::new();
    for i in 0..bytes.len()
        invariant
            bytes@ == encode_utf8(value@),
            out@ == hex_of_bytes(bytes@.take(i as int)),
    {
        let b = bytes[i];
        assert(bytes@.take(i + 1).drop_last() == bytes@.take(i as int));
        push_char(&mut out, hex_digit_char(b / 16));
        push_char(&mut out, hex_digit_char(b % 16));
    }
    assert(bytes@.take(bytes@.len() as int) == bytes@);
    out
}

/// The value of one ASCII hexadecimal digit byte, either case.
pub open spec fn hex_value(b: u8) -> Option<u8> {
    if 48 <= b <= 57 {
        Some((b - 48) as u8)
    } else if 97 <= b <= 102 {
        Some((b - 87) as u8)
    } else if 65 <= b <= 70 {
        Some((b - 55) as u8)
    } else {
        None
    }
}

/// The byte that a two-byte radix-16 numeral denotes; a leading `+` sign is
/// accepted in front of a single digit, as `u8::from_str_radix` does.
pub open spec fn hex_pair_value(a: u8, b: u8) -> Option<u8> {
    if a == 43 {
        hex_value(b)
    } else {
        match (hex_value(a), hex_value(b)) {
            (Some(x), Some(y)) => Some((x * 16 + y) as u8),
            _ => None,
        }
    }
}

/// The bytes spelled by consecutive two-byte numerals, or `None` when the
/// length is odd or some pair is not a numeral.
pub open spec fn bytes_from_hex(b: Seq<u8>) -> Option<Seq<u8>>
    decreases b.len(),
{
    if b.len() % 2 != 0 {
        None
    } else if b.len() == 0 {
        Some(Seq::empty())
    } else {
        match bytes_from_hex(b.take(b.len() - 2)) {
            Some(prefix) => match hex_pair_value(b[b.len() - 2], b[b.len() - 1]) {
                Some(v) => Some(prefix.push(v)),
                None => None,
            },
            None => None,
        }
    }
}

/// The text whose UTF-8 bytes `s` spells in hexadecimal, when there is one.
pub open spec fn hex_decoded(s: Seq<char>) -> Option<Seq<char>> {
    match bytes_from_hex(encode_utf8(s)) {
        Some(b) => if valid_utf8(b) {
            Some(decode_utf8(b))
        } else {
            None
        },
        None => None,
    }
}

/// Interprets bytes as UTF-8 (`String::from_utf8`): the result is present
/// exactly when the bytes are well-formed UTF-8, and then holds their decoding.
#[verifier::external_body]
pub(crate) fn string_from_utf8(bytes: Vec<u8>) -> (r: Option<String>)
    ensures
        r is Some <==> valid_utf8(bytes@),
        r matches Some(s) ==> s@ == decode_utf8(bytes@),
{
    String::from_utf8(bytes).ok()
}

fn hex_value_exec(b: u8) -> (r: Option<u8>)
    ensures
        r == hex_value(b),
{
    if 48 <= b && b <= 57 {
        Some(b - 48)
    } else if 97 <= b && b <= 102 {
        Some(b - 87)
    } else if 65 <= b && b <= 70 {
        Some(b - 55)
    } else {
        None
    }
}

pub(crate) fn hex_pair_value_exec(a: u8, b: u8) -> (r: Option<u8>)
    ensures
        r == hex_pair_value(a, b),
{
    if a == 43 {
        hex_value_exec(b)
    } else {
        match (hex_value_exec(a), hex_value_exec(b)) {
            (Some(x), Some(y)) => Some(x * 16 + y),
            _ => None,
        }
    }
}

/// Decodes bytes given as hexadecimal numerals.
pub fn bytes_from_hex_exec(b: &[u8]) -> (r: Option<Vec<u8>>)
    ensures
        r matches Some(v) ==> bytes_from_hex(b@) == Some(v@),
        r is None ==> bytes_from_hex(b@) is None,
{
    if b.len() % 2 != 0 {
        return None;
    }
    let mut out: Vec<u8> = Vec::new();
    let mut i: usize = 0;
    while i < b.len()
        invariant
            b@.len() % 2 == 0,
            i % 2 == 0,
            i <= b@.len(),
            bytes_from_hex(b@.take(i as int)) == Some(out@),
        decreases b.len() - i,
    {
        assert(b@.take(i + 2).take(i as int) == b@.take(i as int));
        match hex_pair_value_exec(b[i], b[i + 1]) {
            Some(v) => {
                out.push(v);
                i = i + 2;
            },
            None => {
                proof {
                    lemma_bytes_from_hex_prefix_none(b@, i as int + 2);
                }
                return None;
            },
        }
    }
    assert(b@.take(b@.len() as int) == b@);
    Some(out)
}

/// A failing prefix makes every even-length extension fail too.
proof fn lemma_bytes_from_hex_prefix_none(b: Seq<u8>, n: int)
    requires
        0 <= n <= b.len(),
        n % 2 == 0,
        b.len() % 2 == 0,
        bytes_from_hex(b.take(n)) is None,
    ensures
        bytes_from_hex(b) is None,
    decreases b.len() - n,
{
    if n < b.len() {
        let m = n + 2;
        let next = b.take(m);
        assert(next.take(next.len() - 2) == b.take(n));
        lemma_bytes_from_hex_prefix_none(b, m);
    } else {
        assert(b.take(n) == b);
    }
}

/// Decodes a hexadecimal spelling of UTF-8 bytes back into text.
pub fn hex_decode(value: &str) -> (r: Option<String>)
    ensures
        r matches Some(s) ==> hex_decoded(value@) == Some(s@),
        r is None ==> hex_decoded(value@) is None,
{
    let bytes = value.as_bytes();
    match bytes_from_hex_exec(bytes) {
        Some(decoded) => string_from_utf8(decoded),
        None => None,
    }
}

/// Every byte survives the round trip through its hexadecimal spelling.
pub proof fn lemma_hex_round_trip(b: Seq<u8>)
    ensures
        is_ascii_chars(hex_of_bytes(b)),
        bytes_from_hex(encode_utf8(hex_of_bytes(b))) == Some(b),
    decreases b.len(),
{
    let h = hex_of_bytes(b);
    if b.len() == 0 {
        assert(encode_utf8(h) =~= Seq::<u8>::empty());
    } else {
        lemma_hex_round_trip(b.drop_last());
        let h0 = hex_of_bytes(b.drop_last());
        let last = b.last();
        let d1 = hex_digit(last as int / 16);
        let d2 = hex_digit(last as int % 16);
        assert(h == h0 + seq![d1, d2]);
        assert(is_ascii_chars(h));
        let e = encode_utf8(h);
        let e0 = encode_utf8(h0);
        assert(e.len() == h.len());
        assert(e.take(e.len() - 2) =~= e0) by {
            assert forall|i| 0 <= i < e0.len() implies e.take(e.len() - 2)[i] == e0[i] by {
                assert(h[i] == h0[i]);
            }
        }
        assert(e[e.len() - 2] == d1 as u8);
        assert(e[e.len() - 1] == d2 as u8);
        assert(hex_pair_value(d1 as u8, d2 as u8) == Some(last));
    }
}

/// Decoding a hexadecimal spelling gives back the original text.
pub proof fn lemma_hex_text_round_trip(s: Seq<char>)
    ensures
        hex_decoded(hex_of_bytes(encode_utf8(s))) == Some(s),
{
    lemma_hex_round_trip(encode_utf8(s));
    encode_utf8_valid_utf8(s);
    encode_utf8_decode_utf8(s);
}

/// The pieces of `s` between occurrences of `sep`, in order, as `str::split`
/// yields them: there is always at least one piece, possibly empty.
pub open spec fn split_on(s: Seq<char>, sep: char) -> Seq<Seq<char>>
    decreases s.len(),
{
    if s.len() == 0 {
        seq![Seq::empty()]
    } else {
        let init = split_on(s.drop_last(), sep);
        if s.last() == sep {
            init.push(Seq::empty())
        } else {
            init.update(init.len() - 1, init.last().push(s.last()))
        }
    }
}

/// The parts that are not empty, in order.
pub open spec fn nonempty_parts(parts: Seq<Seq<char>>) -> Seq<Seq<char>>
    decreases parts.len(),
{
    if parts.len() == 0 {
        Seq::empty()
    } else if parts.last().len() == 0 {
        nonempty_parts(parts.drop_last())
    } else {
        nonempty_parts(parts.drop_last()).push(parts.last())
    }
}

/// The parts written one after another with `sep` between neighbours.
pub open spec fn join_with(parts: Seq<Seq<char>>, sep: Seq<char>) -> Seq<char>
    decreases parts.len(),
{
    if parts.len() == 0 {
        Seq::empty()
    } else if parts.len() == 1 {
        parts[0]
    } else {
        join_with(parts.drop_last(), sep) + sep + parts.last()
    }
}

/// The non-empty pieces of `s` between occurrences of `sep`.
pub open spec fn segments(s: Seq<char>, sep: char) -> Seq<Seq<char>> {
    nonempty_parts(split_on(s, sep))
}

proof fn lemma_split_nonempty(s: Seq<char>, sep: char)
    ensures
        split_on(s, sep).len() >= 1,
    decreases s.len(),
{
    if s.len() > 0 {
        lemma_split_nonempty(s.drop_last(), sep);
    }
}

/// Splits a character sequence at every `sep`, as `str::split` does.
pub fn split_chars(s: &[char], sep: char) -> (out: Vec<Vec<char>>)
    ensures
        out@.map_values(|p: Vec<char>| p@) == split_on(s@, sep),
{
    let mut done: Vec<Vec<char>> = Vec::new();
    let mut cur: Vec<char> = Vec::new();
    for i in 0..s.len()
        invariant
            split_on(s@.take(i as int), sep) == done@.map_values(|p: Vec<char>| p@).push(cur@),
    {
        let c = s[i];
        let ghost prev = s@.take(i as int);
        assert(s@.take(i + 1).drop_last() == prev);
        proof {
            lemma_split_nonempty(prev, sep);
        }
        if c == sep {
            let finished = cur;
            done.push(finished);
            cur = Vec::new();
            assert(done@.map_values(|p: Vec<char>| p@) =~= split_on(prev, sep));
        } else {
            cur.push(c);
        }
        assert(split_on(s@.take(i + 1), sep) =~= done@.map_values(|p: Vec<char>| p@).push(cur@));
    }
    assert(s@.take(s@.len() as int) == s@);
    let ghost before = done@.map_values(|p: Vec<char>| p@);
    done.push(cur);
    assert(done@.map_values(|p: Vec<char>| p@) =~= before.push(cur@));
    done
}

/// Keeps the parts that are not empty.
pub fn keep_nonempty(parts: &Vec<Vec<char>>) -> (out: Vec<Vec<char>>)
    ensures
        out@.map_values(|p: Vec<char>| p@) == nonempty_parts(parts@.map_values(|p: Vec<char>| p@)),
{
    let mut out: Vec<Vec<char>> = Vec::new();
    let ghost all = parts@.map_values(|p: Vec<char>| p@);
    for i in 0..parts.len()
        invariant
            all == parts@.map_values(|p: Vec<char>| p@),
            out@.map_values(|p: Vec<char>| p@) == nonempty_parts(all.take(i as int)),
    {
        let part = parts[i].clone();
        assert(part@ == all[i as int]);
        assert(all.take(i + 1).drop_last() == all.take(i as int));
        if part.len() > 0 {
            let ghost before = out@.map_values(|p: Vec<char>| p@);
            out.push(part);
            assert(out@.map_values(|p: Vec<char>| p@) =~= before.push(part@));
        }
    }
    assert(all.take(all.len() as int) == all);
    out
}

/// Writes the parts one after another with `sep` between neighbours.
pub fn join_chars(parts: &Vec<Vec<char>>, sep: &[char]) -> (out: Vec<char>)
    ensures
        out@ == join_with(parts@.map_values(|p: Vec<char>| p@), sep@),
{
    let mut out: Vec<char> = Vec::new();
    for i in 0..parts.len()
        invariant
            out@ == join_with(parts@.map_values(|p: Vec<char>| p@).take(i as int), sep@),
    {
        let ghost before = out@;
        assert(parts@.map_values(|p: Vec<char>| p@).take(i + 1).drop_last() == parts@.map_values(|p: Vec<char>| p@).take(i as int));
        if i > 0 {
            for j in 0..sep.len()
                invariant
                    out@ == before + sep@.take(j as int),
            {
                out.push(sep[j]);
                assert(sep@.take(j + 1) == sep@.take(j as int).push(sep@[j as int]));
            }
            assert(sep@.take(sep@.len() as int) == sep@);
        }
        let ghost mid = out@;
        let part = &parts[i];
        for j in 0..part.len()
            invariant
                out@ == mid + part@.take(j as int),
        {
            out.push(part[j]);
            assert(part@.take(j + 1) == part@.take(j as int).push(part@[j as int]));
        }
        assert(part@.take(part@.len() as int) == part@);
        assert(parts@.map_values(|p: Vec<char>| p@)[i as int] == part@);
    }
    assert(parts@.map_values(|p: Vec<char>| p@).take(parts@.map_values(|p: Vec<char>| p@).len() as int) == parts@.map_values(|p: Vec<char>| p@));
    out
}

/// Splitting a concatenation at a separator between the halves splits each
/// half on its own.
pub proof fn lemma_split_concat(a: Seq<char>, b: Seq<char>, sep: char)
    ensures
        split_on(a + seq![sep] + b, sep) == split_on(a, sep) + split_on(b, sep),
    decreases b.len(),
{
    if b.len() == 0 {
        assert(a + seq![sep] + b == (a + seq![sep]));
        assert((a + seq![sep]).drop_last() == a);
        assert(split_on(b, sep) == seq![Seq::<char>::empty()]);
    } else {
        let whole = a + seq![sep] + b;
        assert(whole.drop_last() == a + seq![sep] + b.drop_last());
        assert(whole.last() == b.last());
        lemma_split_concat(a, b.drop_last(), sep);
        lemma_split_len(b.drop_last(), sep);
        let sa = split_on(a, sep);
        let sb = split_on(b.drop_last(), sep);
        if b.last() == sep {
            assert(split_on(whole, sep) =~= sa + sb.push(Seq::empty()));
        } else {
            assert(split_on(whole, sep) =~= sa + sb.update(sb.len() - 1, sb.last().push(b.last())));
        }
    }
}

pub proof fn lemma_split_len(s: Seq<char>, sep: char)
    ensures
        split_on(s, sep).len() >= 1,
    decreases s.len(),
{
    if s.len() > 0 {
        lemma_split_len(s.drop_last(), sep);
    }
}

/// A piece free of the separator splits into itself.
pub proof fn lemma_split_single(s: Seq<char>, sep: char)
    requires
        !s.contains(sep),
    ensures
        split_on(s, sep) == seq![s],
    decreases s.len(),
{
    if s.len() > 0 {
        assert(!s.drop_last().contains(sep)) by {
            if s.drop_last().contains(sep) {
                let k = choose|k: int| 0 <= k < s.drop_last().len() && s.drop_last()[k] == sep;
                assert(s[k] == sep);
            }
        }
        lemma_split_single(s.drop_last(), sep);
        assert(s.last() != sep) by {
            assert(s[s.len() - 1] == s.last());
        }
        assert(s.drop_last().push(s.last()) =~= s);
        assert(seq![s.drop_last()].update(0, s) =~= seq![s]);
    } else {
        assert(s =~= Seq::<char>::empty());
    }
}

/// Joining separator-free pieces and splitting again gives the pieces back.
pub proof fn lemma_split_join(parts: Seq<Seq<char>>, sep: char)
    requires
        parts.len() >= 1,
        forall|i: int| 0 <= i < parts.len() ==> !(#[trigger] parts[i]).contains(sep),
    ensures
        split_on(join_with(parts, seq![sep]), sep) == parts,
    decreases parts.len(),
{
    if parts.len() == 1 {
        lemma_split_single(parts[0], sep);
        assert(seq![parts[0]] =~= parts);
    } else {
        let init = parts.drop_last();
        assert forall|i: int| 0 <= i < init.len() implies !(#[trigger] init[i]).contains(sep) by {
            assert(init[i] == parts[i]);
        }
        lemma_split_join(init, sep);
        assert(!parts.last().contains(sep)) by {
            assert(parts[parts.len() - 1] == parts.last());
        }
        lemma_split_single(parts.last(), sep);
        lemma_split_concat(join_with(init, seq![sep]), parts.last(), sep);
        assert(init + seq![parts.last()] =~= parts);
    }
}

/// Whether a character has the Unicode `White_Space` property
/// (`char::is_whitespace`).
pub open spec fn is_whitespace(c: char) -> bool {
    ||| c == ' '
    ||| ('\u{9}' <= c <= '\u{d}')
    ||| c == '\u{85}'
    ||| c == '\u{a0}'
    ||| c == '\u{1680}'
    ||| ('\u{2000}' <= c <= '\u{200a}')
    ||| c == '\u{2028}'
    ||| c == '\u{2029}'
    ||| c == '\u{202f}'
    ||| c == '\u{205f}'
    ||| c == '\u{3000}'
}

/// Decides the `White_Space` property of a character.
pub fn is_whitespace_char(c: char) -> (r: bool)
    ensures
        r == is_whitespace(c),
{
    c == ' ' || ('\u{9}' <= c && c <= '\u{d}') || c == '\u{85}' || c == '\u{a0}' || c
        == '\u{1680}' || ('\u{2000}' <= c && c <= '\u{200a}') || c == '\u{2028}' || c
        == '\u{2029}' || c == '\u{202f}' || c == '\u{205f}' || c == '\u{3000}'
}

/// Drops leading whitespace.
pub open spec fn trim_start(s: Seq<char>) -> Seq<char>
    decreases s.len(),
{
    if s.len() > 0 && is_whitespace(s[0]) {
        trim_start(s.drop_first())
    } else {
        s
    }
}

/// Drops trailing whitespace.
pub open spec fn trim_end(s: Seq<char>) -> Seq<char>
    decreases s.len(),
{
    if s.len() > 0 && is_whitespace(s.last()) {
        trim_end(s.drop_last())
    } else {
        s
    }
}

/// Drops leading and trailing whitespace (`str::trim`).
pub open spec fn trim(s: Seq<char>) -> Seq<char> {
    trim_end(trim_start(s))
}

/// Drops leading and trailing whitespace (`str::trim`).
pub fn trim_chars(s: &[char]) -> (out: Vec<char>)
    ensures
        out@ == trim(s@),
{
    let mut start: usize = 0;
    assert(s@.skip(0) == s@);
    while start < s.len() && is_whitespace_char(s[start])
        invariant
            start <= s@.len(),
            trim_start(s@) == trim_start(s@.skip(start as int)),
        decreases s.len() - start,
    {
        assert(s@.skip(start as int).drop_first() == s@.skip(start + 1));
        start = start + 1;
    }
    assert(trim_start(s@) == s@.skip(start as int)) by {
        assert(s@.skip(start as int).len() > 0 ==> s@.skip(start as int)[0] == s@[start as int]);
    }
    let mut end: usize = s.len();
    while end > start && is_whitespace_char(s[end - 1])
        invariant
            start <= end <= s@.len(),
            trim(s@) == trim_end(s@.subrange(start as int, end as int)),
        decreases end,
    {
        assert(s@.subrange(start as int, end as int).drop_last() == s@.subrange(start as int, end - 1));
        end = end - 1;
    }
    let mut out: Vec<char> = Vec::new();
    for i in start..end
        invariant
            start <= end <= s@.len(),
            out@ == s@.subrange(start as int, i as int),
    {
        out.push(s[i]);
        assert(s@.subrange(start as int, i + 1) == s@.subrange(start as int, i as int).push(s@[i as int]));
    }
    out
}

/// The ASCII lowercase form of a character; other characters stay.
pub open spec fn ascii_lower(c: char) -> char {
    if 'A' <= c <= 'Z' {
        ((c as u32) + 32) as char
    } else {
        c
    }
}

/// Lowers the ASCII letters of a character (`char::to_ascii_lowercase`).
pub fn ascii_lower_char(c: char) -> (r: char)
    ensures
        r == ascii_lower(c),
{
    if 'A' <= c && c <= 'Z' {
        ((c as u8) + 32) as char
    } else {
        c
    }
}

/// Equality up to ASCII case (`str::eq_ignore_ascii_case`).
pub open spec fn eq_ignore_ascii_case(a: Seq<char>, b: Seq<char>) -> bool {
    a.len() == b.len() && forall|i: int| 0 <= i < a.len() ==> ascii_lower(#[trigger] a[i]) == ascii_lower(b[i])
}

/// Decides equality up to ASCII case.
pub fn chars_eq_ignore_ascii_case(a: &[char], b: &[char]) -> (r: bool)
    ensures
        r == eq_ignore_ascii_case(a@, b@),
{
    if a.len() != b.len() {
        return false;
    }
    for i in 0..a.len()
        invariant
            a@.len() == b@.len(),
            forall|k: int| 0 <= k < i ==> ascii_lower(#[trigger] a@[k]) == ascii_lower(b@[k]),
    {
        if ascii_lower_char(a[i]) != ascii_lower_char(b[i]) {
            return false;
        }
    }
    true
}

/// Every `\\` written as `/`.
pub open spec fn backslash_to_slash(s: Seq<char>) -> Seq<char> {
    s.map_values(|c: char| if c == '\\' { '/' } else { c })
}

/// Writes every `\\` as `/`.
pub fn slashes_for_backslashes(s: &[char]) -> (out: Vec<char>)
    ensures
        out@ == backslash_to_slash(s@),
{
    let mut out: Vec<char> = Vec::new();
    for i in 0..s.len()
        invariant
            out@ == backslash_to_slash(s@.take(i as int)),
    {
        let c = s[i];
        out.push(if c == '\\' { '/' } else { c });
        assert(out@ =~= backslash_to_slash(s@.take(i + 1)));
    }
    assert(s@.take(s@.len() as int) == s@);
    out
}

/// Lowercase hexadecimal spelling of the UTF-8 bytes of a text.
pub open spec fn hexed(s: Seq<char>) -> Seq<char> {
    hex_of_bytes(encode_utf8(s))
}

pub proof fn lemma_hexed_piece(x: Seq<char>)
    requires
        x.len() > 0,
    ensures
        plain_piece(hexed(x)),
        is_ascii_chars(hexed(x)),
        hexed(x).len() % 2 == 0,
{
    lemma_hex_round_trip(encode_utf8(x));
    lemma_hex_len(encode_utf8(x));
    lemma_encode_nonempty(x);
    assert(!hexed(x).contains('/')) by {
        if hexed(x).contains('/') {
            let k = choose|k: int| 0 <= k < hexed(x).len() && hexed(x)[k] == '/';
            lemma_hex_digits(encode_utf8(x), k);
        }
    }
    if hexed(x) == seq!['.'] {
        lemma_hex_digits(encode_utf8(x), 0);
    }
}

pub proof fn lemma_encode_nonempty(x: Seq<char>)
    requires
        x.len() > 0,
    ensures
        encode_utf8(x).len() > 0,
{
    reveal_with_fuel(encode_utf8, 1);
}

pub proof fn lemma_hex_len(b: Seq<u8>)
    ensures
        hex_of_bytes(b).len() == 2 * b.len(),
    decreases b.len(),
{
    if b.len() > 0 {
        lemma_hex_len(b.drop_last());
    }
}

pub proof fn lemma_hex_digits(b: Seq<u8>, k: int)
    requires
        0 <= k < hex_of_bytes(b).len(),
    ensures
        ('0' <= hex_of_bytes(b)[k] <= '9') || ('a' <= hex_of_bytes(b)[k] <= 'f'),
    decreases b.len(),
{
    lemma_hex_len(b);
    if b.len() > 0 {
        lemma_hex_len(b.drop_last());
        if k < hex_of_bytes(b.drop_last()).len() {
            lemma_hex_digits(b.drop_last(), k);
        }
    }
}


/// The decimal digit for a value below ten.
pub open spec fn decimal_digit(n: int) -> char {
    (48 + n) as char
}

/// The decimal spelling of a natural number, without leading zeros.
pub open spec fn decimal_of(n: nat) -> Seq<char>
    decreases n,
{
    if n < 10 {
        seq![decimal_digit(n as int)]
    } else {
        decimal_of(n / 10) + seq![decimal_digit((n % 10) as int)]
    }
}

/// Writes a number in decimal.
pub fn decimal_chars(n: u128) -> (out: Vec<char>)
    ensures
        out@ == decimal_of(n as nat),
    decreases n,
{
    if n < 10 {
        let v = vec![((48 + n) as u8) as char];
        assert(v@ =~= seq![decimal_digit(n as int)]);
        v
    } else {
        let mut out = decimal_chars(n / 10);
        out.push(((48 + n % 10) as u8) as char);
        out
    }
}

/// The last `width` lowercase hexadecimal digits of a natural number, most
/// significant first (its zero-padded spelling when it has at most `width`
/// digits).
pub open spec fn hex_padded(n: nat, width: nat) -> Seq<char>
    decreases width,
{
    if width == 0 {
        Seq::empty()
    } else {
        hex_padded(n / 16, (width - 1) as nat) + seq![hex_digit((n % 16) as int)]
    }
}

/// Writes the last `width` hexadecimal digits of a number.
pub fn hex_padded_chars(n: u64, width: u64) -> (out: Vec<char>)
    ensures
        out@ == hex_padded(n as nat, width as nat),
    decreases width,
{
    if width == 0 {
        Vec::new()
    } else {
        let mut out = hex_padded_chars(n / 16, width - 1);
        out.push(hex_digit_char((n % 16) as u8));
        out
    }
}


/// Whether two character slices hold the same characters.
pub fn same_chars(a: &[char], b: &[char]) -> (r: bool)
    ensures
        r == (a@ == b@),
{
    if a.len() != b.len() {
        return false;
    }
    for i in 0..a.len()
        invariant
            a@.len() == b@.len(),
            forall|k: int| 0 <= k < i ==> a@[k] == b@[k],
    {
        if a[i] != b[i] {
            return false;
        }
    }
    assert(a@ =~= b@);
    true
}

/// Whether the characters spell exactly the given text.
pub fn spells(a: &[char], text: &str) -> (r: bool)
    ensures
        r == (a@ == text@),
{
    let t = chars_of(text);
    same_chars(a, t.as_slice())
}

/// The ASCII lowercase form of every character.
pub open spec fn lowered(s: Seq<char>) -> Seq<char> {
    s.map_values(|c: char| ascii_lower(c))
}

/// Lowers the ASCII letters of every character (`str::to_ascii_lowercase`).
pub fn lower_chars(s: &[char]) -> (out: Vec<char>)
    ensures
        out@ == lowered(s@),
{
    let mut out: Vec<char> = Vec::new();
    for i in 0..s.len()
        invariant
            out@ == lowered(s@.take(i as int)),
    {
        out.push(ascii_lower_char(s[i]));
        assert(out@ =~= lowered(s@.take(i + 1)));
    }
    assert(s@.take(s@.len() as int) == s@);
    out
}


/// The text of `a` followed by the text of `b`.
pub fn concat_texts(a: &str, b: &str) -> (r: String)
    ensures
        r@ == a@ + b@,
{
    let mut v = chars_of(a);
    let w = chars_of(b);
    for i in 0..w.len()
        invariant
            v@ == a@ + w@.take(i as int),
    {
        v.push(w[i]);
        assert(w@.take(i + 1) == w@.take(i as int).push(w@[i as int]));
    }
    assert(w@.take(w@.len() as int) == w@);
    string_from_chars(v.as_slice())
}


/// Whether two texts are the same.
pub fn same_text(a: &str, b: &str) -> (r: bool)
    ensures
        r == (a@ == b@),
{
    let ca = chars_of(a);
    let cb = chars_of(b);
    same_chars(ca.as_slice(), cb.as_slice())
}

/// Whether `needle` occurs in `hay`.
pub open spec fn has_infix(hay: Seq<char>, needle: Seq<char>) -> bool {
    exists|i: int| 0 <= i && i + needle.len() <= hay.len() && #[trigger] hay.subrange(i, i + needle.len()) == needle
}

/// Whether `needle` occurs in `hay` (`str::contains`).
pub fn contains_text(hay: &str, needle: &str) -> (r: bool)
    ensures
        r == has_infix(hay@, needle@),
{
    let h = chars_of(hay);
    let n = chars_of(needle);
    if n.len() > h.len() {
        assert forall|i: int| 0 <= i && i + n@.len() <= h@.len() implies #[trigger] h@.subrange(i, i + n@.len()) != n@ by {}
        return false;
    }
    let hl = h.len();
    let nl = n.len();
    let last = hl - nl;
    let mut i: usize = 0;
    loop
        invariant
            h@ == hay@,
            n@ == needle@,
            hl == h@.len(),
            nl == n@.len(),
            last == hl - nl,
            nl <= hl,
            i <= last,
            forall|j: int| 0 <= j < i ==> #[trigger] h@.subrange(j, j + n@.len()) != n@,
        decreases last - i,
    {
        let piece = vstd::slice::slice_subrange(h.as_slice(), i, i + nl);
        if same_chars(piece, n.as_slice()) {
            return true;
        }
        if i == last {
            assert forall|j: int| 0 <= j && j + n@.len() <= h@.len() implies #[trigger] h@.subrange(j, j + n@.len()) != n@ by {
                assert(j <= i);
            }
            return false;
        }
        i = i + 1;
    }
}

}
