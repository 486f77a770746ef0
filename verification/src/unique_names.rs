use vstd::prelude::*;
use crate::entries::FileEntry;
use crate::paths::{extension, file_stem, path_extension, path_file_stem};
use crate::text::{
    ascii_lower, chars_eq_ignore_ascii_case, chars_of, decimal_chars, decimal_digit, decimal_of,
    eq_ignore_ascii_case, string_from_chars,
};

verus! {

/// Whether a listed entry is named `name` up to ASCII case.
pub open spec fn name_taken(entries: Seq<FileEntry>, name: Seq<char>) -> bool {
    exists|i: int| 0 <= i < entries.len() && eq_ignore_ascii_case(#[trigger] entries[i].name@, name)
}

/// The `k`-th numbered variant of a name: `name (k)`.
pub open spec fn numbered_name(base: Seq<char>, k: nat) -> Seq<char> {
    base + " ("@ + decimal_of(k) + ")"@
}

/// Whether no numbered variant from 2 up to, but not including, `k` is
/// free.
pub open spec fn variants_taken_below(entries: Seq<FileEntry>, base: Seq<char>, k: nat) -> bool {
    forall|j: nat| 2 <= j < k ==> name_taken(entries, #[trigger] numbered_name(base, j))
}

/// The name a new entry called `base` gets among the listed entries: the
/// name itself when no entry has it (up to ASCII case), else the first
/// numbered variant `base (k)`, from 2 on, that no entry has.
pub open spec fn unique_name_of(entries: Seq<FileEntry>, base: Seq<char>, result: Seq<char>) -> bool {
    if !name_taken(entries, base) {
        result == base
    } else {
        exists|k: nat|
            k >= 2 && result == numbered_name(base, k) && !name_taken(entries, numbered_name(base, k))
                && variants_taken_below(entries, base, k)
    }
}

proof fn lemma_ci_trans(a: Seq<char>, b: Seq<char>, c: Seq<char>)
    requires
        eq_ignore_ascii_case(a, b),
        eq_ignore_ascii_case(a, c),
    ensures
        eq_ignore_ascii_case(b, c),
{
    assert forall|i: int| 0 <= i < b.len() implies ascii_lower(#[trigger] b[i]) == ascii_lower(c[i]) by {
        assert(ascii_lower(a[i]) == ascii_lower(b[i]));
        assert(ascii_lower(a[i]) == ascii_lower(c[i]));
    }
}

pub(crate) proof fn lemma_decimal_digits(n: nat)
    ensures
        decimal_of(n).len() >= 1,
        n < 10 <==> decimal_of(n).len() == 1,
        forall|i: int| 0 <= i < decimal_of(n).len() ==> '0' <= #[trigger] decimal_of(n)[i] <= '9',
    decreases n,
{
    if n >= 10 {
        lemma_decimal_digits(n / 10);
        let d = decimal_of(n);
        assert forall|i: int| 0 <= i < d.len() implies '0' <= #[trigger] d[i] <= '9' by {
            if i < decimal_of(n / 10).len() {
                assert(d[i] == decimal_of(n / 10)[i]);
            }
        }
    }
}

pub(crate) proof fn lemma_decimal_injective(n: nat, m: nat)
    requires
        decimal_of(n) == decimal_of(m),
    ensures
        n == m,
    decreases n,
{
    lemma_decimal_digits(n);
    lemma_decimal_digits(m);
    if n >= 10 && m >= 10 {
        let dn = decimal_of(n);
        assert(dn.drop_last() =~= decimal_of(n / 10));
        assert(decimal_of(m).drop_last() =~= decimal_of(m / 10));
        lemma_decimal_injective(n / 10, m / 10);
        assert(dn.last() == decimal_digit((n % 10) as int));
        assert(decimal_of(m).last() == decimal_digit((m % 10) as int));
        lemma_digit_injective((n % 10) as int, (m % 10) as int);
    } else if n < 10 && m < 10 {
        assert(decimal_of(n)[0] == decimal_digit(n as int));
        assert(decimal_of(m)[0] == decimal_digit(m as int));
        lemma_digit_injective(n as int, m as int);
    }
}

proof fn lemma_digit_injective(x: int, y: int)
    requires
        0 <= x < 10,
        0 <= y < 10,
        decimal_digit(x) == decimal_digit(y),
    ensures
        x == y,
{
    assert(decimal_digit(x) as int == 48 + x);
    assert(decimal_digit(y) as int == 48 + y);
}

proof fn lemma_numbered_distinct(base: Seq<char>, k: nat, m: nat)
    requires
        k != m,
    ensures
        !eq_ignore_ascii_case(numbered_name(base, k), numbered_name(base, m)),
{
    let a = numbered_name(base, k);
    let b = numbered_name(base, m);
    if eq_ignore_ascii_case(a, b) {
        reveal_strlit(" (");
        reveal_strlit(")");
        let dk = decimal_of(k);
        let dm = decimal_of(m);
        lemma_decimal_digits(k);
        lemma_decimal_digits(m);
        let off = base.len() + 2;
        assert(dk.len() == dm.len());
        assert forall|i: int| 0 <= i < dk.len() implies dk[i] == dm[i] by {
            assert(a[off + i] == dk[i]);
            assert(b[off + i] == dm[i]);
            assert(ascii_lower(a[off + i]) == ascii_lower(b[off + i]));
        }
        assert(dk =~= dm);
        lemma_decimal_injective(k, m);
    }
}

/// Among more pairwise different names (up to ASCII case) than there are
/// entries, some name is free.
proof fn lemma_some_free(es: Seq<FileEntry>, cands: Seq<Seq<char>>)
    requires
        cands.len() > es.len(),
        forall|i: int, j: int| 0 <= i < j < cands.len() ==> !eq_ignore_ascii_case(#[trigger] cands[i], #[trigger] cands[j]),
    ensures
        exists|k: int| 0 <= k < cands.len() && !name_taken(es, #[trigger] cands[k]),
    decreases es.len(),
{
    if es.len() == 0 {
        assert(!name_taken(es, cands[0]));
    } else {
        let rest = es.drop_last();
        let e = es.last().name@;
        if exists|c: int| 0 <= c < cands.len() && eq_ignore_ascii_case(e, cands[c]) {
            let c = choose|c: int| 0 <= c < cands.len() && eq_ignore_ascii_case(e, cands[c]);
            let fewer = cands.remove(c);
            assert forall|i: int, j: int| 0 <= i < j < fewer.len() implies !eq_ignore_ascii_case(
                #[trigger] fewer[i],
                #[trigger] fewer[j],
            ) by {
                let oi = if i < c { i } else { i + 1 };
                let oj = if j < c { j } else { j + 1 };
                assert(fewer[i] == cands[oi] && fewer[j] == cands[oj]);
            }
            lemma_some_free(rest, fewer);
            let k = choose|k: int| 0 <= k < fewer.len() && !name_taken(rest, #[trigger] fewer[k]);
            let ok = if k < c { k } else { k + 1 };
            assert(fewer[k] == cands[ok]);
            if name_taken(es, cands[ok]) {
                let i = choose|i: int| 0 <= i < es.len() && eq_ignore_ascii_case(#[trigger] es[i].name@, cands[ok]);
                if i < rest.len() {
                    assert(rest[i] == es[i]);
                } else {
                    lemma_ci_trans(e, cands[c], cands[ok]);
                    if ok < c {
                        assert(!eq_ignore_ascii_case(cands[ok], cands[c]));
                        lemma_ci_sym(cands[c], cands[ok]);
                    }
                }
            }
        } else {
            lemma_some_free(rest, cands);
            let k = choose|k: int| 0 <= k < cands.len() && !name_taken(rest, #[trigger] cands[k]);
            if name_taken(es, cands[k]) {
                let i = choose|i: int| 0 <= i < es.len() && eq_ignore_ascii_case(#[trigger] es[i].name@, cands[k]);
                if i < rest.len() {
                    assert(rest[i] == es[i]);
                }
            }
        }
    }
}

proof fn lemma_ci_sym(a: Seq<char>, b: Seq<char>)
    requires
        eq_ignore_ascii_case(a, b),
    ensures
        eq_ignore_ascii_case(b, a),
{
    assert forall|i: int| 0 <= i < b.len() implies ascii_lower(#[trigger] b[i]) == ascii_lower(a[i]) by {
        assert(ascii_lower(a[i]) == ascii_lower(b[i]));
    }
}

/// Some numbered variant from 2 to `entries.len() + 2` is free.
proof fn lemma_numbered_free(es: Seq<FileEntry>, base: Seq<char>)
    ensures
        exists|k: nat| 2 <= k <= es.len() + 2 && !name_taken(es, #[trigger] numbered_name(base, k)),
{
    let cands = Seq::new((es.len() + 1) as nat, |i: int| numbered_name(base, (i + 2) as nat));
    assert forall|i: int, j: int| 0 <= i < j < cands.len() implies !eq_ignore_ascii_case(
        #[trigger] cands[i],
        #[trigger] cands[j],
    ) by {
        lemma_numbered_distinct(base, (i + 2) as nat, (j + 2) as nat);
    }
    lemma_some_free(es, cands);
    let k = choose|k: int| 0 <= k < cands.len() && !name_taken(es, #[trigger] cands[k]);
    assert(cands[k] == numbered_name(base, (k + 2) as nat));
}

fn taken_exec(entries: &Vec<FileEntry>, name: &[char]) -> (r: bool)
    ensures
        r == name_taken(entries@, name@),
{
    for i in 0..entries.len()
        invariant
            forall|q: int| 0 <= q < i ==> !eq_ignore_ascii_case(#[trigger] entries@[q].name@, name@),
    {
        let n = chars_of(entries[i].name.as_str());
        if chars_eq_ignore_ascii_case(n.as_slice(), name) {
            return true;
        }
    }
    false
}

fn numbered_chars(base: &[char], k: u64) -> (r: Vec<char>)
    ensures
        r@ == numbered_name(base@, k as nat),
{
    let mut out: Vec<char> = Vec::new();
    for i in 0..base.len()
        invariant
            out@ == base@.take(i as int),
    {
        out.push(base[i]);
        assert(base@.take(i + 1) == base@.take(i as int).push(base@[i as int]));
    }
    assert(base@.take(base@.len() as int) == base@);
    out.push(' ');
    out.push('(');
    let digits = decimal_chars(k as u128);
    let ghost before = out@;
    for i in 0..digits.len()
        invariant
            out@ == before + digits@.take(i as int),
    {
        out.push(digits[i]);
        assert(digits@.take(i + 1) == digits@.take(i as int).push(digits@[i as int]));
    }
    assert(digits@.take(digits@.len() as int) == digits@);
    out.push(')');
    assert(out@ =~= base@ + " ("@ + decimal_of(k as nat) + ")"@) by {
        reveal_strlit(" (");
        reveal_strlit(")");
    }
    out
}

/// The name a new entry called `base` gets among the listed entries (see
/// `unique_name_of`).
pub fn unique_entry_name(entries: &Vec<FileEntry>, base: &str) -> (r: String)
    requires
        entries@.len() + 2 <= u64::MAX,
    ensures
        unique_name_of(entries@, base@, r@),
{
    let bc = chars_of(base);
    if !taken_exec(entries, bc.as_slice()) {
        return base.to_owned();
    }
    proof {
        lemma_numbered_free(entries@, base@);
    }
    let last: u64 = entries.len() as u64 + 2;
    let mut k: u64 = 2;
    loop
        invariant
            2 <= k <= last,
            last == entries@.len() + 2,
            bc@ == base@,
            name_taken(entries@, base@),
            variants_taken_below(entries@, base@, k as nat),
            exists|j: nat| k <= j <= last && !name_taken(entries@, #[trigger] numbered_name(base@, j)),
        decreases last - k,
    {
        let candidate = numbered_chars(bc.as_slice(), k);
        if !taken_exec(entries, candidate.as_slice()) {
            return string_from_chars(candidate.as_slice());
        }
        proof {
            assert forall|j: nat| 2 <= j < k + 1 implies name_taken(entries@, #[trigger] numbered_name(base@, j)) by {
                if j < k {
                    assert(variants_taken_below(entries@, base@, k as nat));
                }
            }
            let j = choose|j: nat| k <= j <= last && !name_taken(entries@, #[trigger] numbered_name(base@, j));
            assert(j != k);
        }
        k = k + 1;
    }
}

/// The `k`-th copy name of an entry with the stem `stem` and the extension
/// `ext`: `stem - Copy.ext`, then `stem - Copy (k).ext` from 2 on.
pub open spec fn copy_name(stem: Seq<char>, ext: Option<Seq<char>>, k: nat) -> Seq<char> {
    let suffix = if k == 1 {
        " - Copy"@
    } else {
        " - Copy ("@ + decimal_of(k) + ")"@
    };
    match ext {
        Some(e) => stem + suffix + "."@ + e,
        None => stem + suffix,
    }
}

/// The stem a copy name is built on: the file stem, else the whole name.
pub open spec fn copy_stem(source: Seq<char>) -> Seq<char> {
    match path_file_stem(source) {
        Some(s) => s,
        None => source,
    }
}

/// The name a copy of `source` gets among the listed entries: the name
/// itself when no entry has it (up to ASCII case), else the first copy name
/// (see `copy_name`) that no entry has.
pub open spec fn unique_copy_name_of(entries: Seq<FileEntry>, source: Seq<char>, result: Seq<char>) -> bool {
    let stem = copy_stem(source);
    let ext = path_extension(source);
    if !name_taken(entries, source) {
        result == source
    } else {
        exists|k: nat|
            k >= 1 && result == copy_name(stem, ext, k) && !name_taken(entries, copy_name(stem, ext, k)) && forall|
                j: nat,
            |
                1 <= j < k ==> name_taken(entries, #[trigger] copy_name(stem, ext, j))
    }
}

proof fn lemma_copy_names_distinct(stem: Seq<char>, ext: Option<Seq<char>>, k: nat, m: nat)
    requires
        1 <= k,
        1 <= m,
        k != m,
    ensures
        !eq_ignore_ascii_case(copy_name(stem, ext, k), copy_name(stem, ext, m)),
{
    reveal_strlit(" - Copy");
    reveal_strlit(" - Copy (");
    reveal_strlit(")");
    reveal_strlit(".");
    let a = copy_name(stem, ext, k);
    let b = copy_name(stem, ext, m);
    lemma_decimal_digits(k);
    lemma_decimal_digits(m);
    if eq_ignore_ascii_case(a, b) {
        if k == 1 || m == 1 {
            assert(a.len() != b.len());
        } else {
            let dk = decimal_of(k);
            let dm = decimal_of(m);
            assert(dk.len() == dm.len());
            let off = stem.len() + 9;
            assert forall|i: int| 0 <= i < dk.len() implies dk[i] == dm[i] by {
                assert(a[off + i] == dk[i]);
                assert(b[off + i] == dm[i]);
                assert(ascii_lower(a[off + i]) == ascii_lower(b[off + i]));
            }
            assert(dk =~= dm);
            lemma_decimal_injective(k, m);
        }
    }
}

proof fn lemma_copy_free(es: Seq<FileEntry>, stem: Seq<char>, ext: Option<Seq<char>>)
    ensures
        exists|k: nat| 1 <= k <= es.len() + 1 && !name_taken(es, #[trigger] copy_name(stem, ext, k)),
{
    let cands = Seq::new((es.len() + 1) as nat, |i: int| copy_name(stem, ext, (i + 1) as nat));
    assert forall|i: int, j: int| 0 <= i < j < cands.len() implies !eq_ignore_ascii_case(
        #[trigger] cands[i],
        #[trigger] cands[j],
    ) by {
        lemma_copy_names_distinct(stem, ext, (i + 1) as nat, (j + 1) as nat);
    }
    lemma_some_free(es, cands);
    let k = choose|k: int| 0 <= k < cands.len() && !name_taken(es, #[trigger] cands[k]);
    assert(cands[k] == copy_name(stem, ext, (k + 1) as nat));
}

fn push_all_chars(out: &mut Vec<char>, s: &[char])
    ensures
        final(out)@ == old(out)@ + s@,
{
    let ghost before = out@;
    for i in 0..s.len()
        invariant
            out@ == before + s@.take(i as int),
    {
        out.push(s[i]);
        assert(s@.take(i + 1) == s@.take(i as int).push(s@[i as int]));
    }
    assert(s@.take(s@.len() as int) == s@);
}

fn copy_name_chars(stem: &[char], ext: &Option<Vec<char>>, k: u64) -> (r: Vec<char>)
    requires
        k >= 1,
    ensures
        r@ == copy_name(stem@, match ext {
            Some(e) => Some(e@),
            None => None,
        }, k as nat),
{
    let mut out: Vec<char> = Vec::new();
    push_all_chars(&mut out, stem);
    let ghost s0 = out@;
    if k == 1 {
        let w = chars_of(" - Copy");
        push_all_chars(&mut out, w.as_slice());
    } else {
        let w = chars_of(" - Copy (");
        push_all_chars(&mut out, w.as_slice());
        let d = decimal_chars(k as u128);
        push_all_chars(&mut out, d.as_slice());
        out.push(')');
        assert(out@ =~= s0 + (" - Copy ("@ + decimal_of(k as nat) + ")"@)) by {
            reveal_strlit(")");
        }
    }
    assert(s0 =~= stem@);
    match ext {
        Some(e) => {
            out.push('.');
            push_all_chars(&mut out, e.as_slice());
            proof {
                reveal_strlit(".");
            }
            assert(out@ =~= copy_name(stem@, Some(e@), k as nat));
        },
        None => {
            assert(out@ =~= copy_name(stem@, None, k as nat));
        },
    }
    out
}

/// The name a copy of `source` gets among the listed entries (see
/// `unique_copy_name_of`).
pub fn unique_entry_copy_name(entries: &Vec<FileEntry>, source: &str) -> (r: String)
    requires
        entries@.len() + 1 <= u64::MAX,
    ensures
        unique_copy_name_of(entries@, source@, r@),
{
    let sc = chars_of(source);
    if !taken_exec(entries, sc.as_slice()) {
        return source.to_owned();
    }
    let stem = match file_stem(source) {
        Some(s) => chars_of(s.as_str()),
        None => sc,
    };
    let ext: Option<Vec<char>> = match extension(source) {
        Some(e) => Some(chars_of(e.as_str())),
        None => None,
    };
    let ghost st = copy_stem(source@);
    let ghost ex = path_extension(source@);
    assert(stem@ == st);
    assert(match ext {
        Some(e) => Some(e@),
        None => None,
    } == ex);
    proof {
        lemma_copy_free(entries@, st, ex);
    }
    let last: u64 = entries.len() as u64 + 1;
    let mut k: u64 = 1;
    loop
        invariant
            1 <= k <= last,
            last == entries@.len() + 1,
            stem@ == st,
            (match ext {
                Some(e) => Some(e@),
                None => None,
            }) == ex,
            st == copy_stem(source@),
            ex == path_extension(source@),
            name_taken(entries@, source@),
            forall|j: nat| 1 <= j < k ==> name_taken(entries@, #[trigger] copy_name(st, ex, j)),
            exists|j: nat| k <= j <= last && !name_taken(entries@, #[trigger] copy_name(st, ex, j)),
        decreases last - k,
    {
        let candidate = copy_name_chars(stem.as_slice(), &ext, k);
        if !taken_exec(entries, candidate.as_slice()) {
            return string_from_chars(candidate.as_slice());
        }
        proof {
            let j = choose|j: nat| k <= j <= last && !name_taken(entries@, #[trigger] copy_name(st, ex, j));
            assert(j != k);
        }
        k = k + 1;
    }
}

} // verus!
