use vstd::prelude::*;
use vstd::utf8::is_ascii_chars;
use crate::entries::{lowercase, lowercase_chars};
use crate::text::{ascii_lower, chars_of, decimal_chars, decimal_of, lowered, same_chars, same_text, string_from_chars, trim, trim_chars};
use crate::unique_names::{lemma_decimal_digits, lemma_decimal_injective};
use crate::names::{name_with_suffix_of, stable_name_of, taildrive_device_name_with_suffix, taildrive_device_stable_name, trim_end_dashes_spaces};
use crate::tabs::{paths_showable, texts};
use crate::taildrive::{parse_taildrive_path, parse_taildrive_spec, taildrive_parse_panics, taildrive_profile_id, LocationView};

verus! {

/// Whether some profile in the list has the id `id` and is enabled.
pub open spec fn enabled_in(profiles: Seq<(String, bool)>, id: Seq<char>) -> bool {
    exists|k: int| 0 <= k < profiles.len() && (#[trigger] profiles[k]).0@ == id && profiles[k].1
}

/// Whether the first profile in the list with the id `id` is enabled.
pub open spec fn first_enabled(profiles: Seq<(String, bool)>, id: Seq<char>) -> bool
    decreases profiles.len(),
{
    if profiles.len() == 0 {
        false
    } else if profiles[0].0@ == id {
        profiles[0].1
    } else {
        first_enabled(profiles.skip(1), id)
    }
}

/// The ids of the profiles, in order, that were enabled and have no enabled
/// profile with their id in `next`: their nodes stop.
pub open spec fn stopped_profiles(previous: Seq<(String, bool)>, next: Seq<(String, bool)>) -> Seq<Seq<char>>
    decreases previous.len(),
{
    if previous.len() == 0 {
        Seq::empty()
    } else {
        let rest = stopped_profiles(previous.drop_last(), next);
        let p = previous.last();
        if p.1 && !enabled_in(next, p.0@) {
            rest.push(p.0@)
        } else {
            rest
        }
    }
}

/// The ids of the profiles of `next`, in order, that are enabled and were
/// not before (the first earlier profile with the id was not enabled, or
/// there was none): their nodes start.
pub open spec fn started_profiles(previous: Seq<(String, bool)>, next: Seq<(String, bool)>) -> Seq<Seq<char>>
    decreases next.len(),
{
    if next.len() == 0 {
        Seq::empty()
    } else {
        let rest = started_profiles(previous, next.drop_last());
        let p = next.last();
        if p.1 && !first_enabled(previous, p.0@) {
            rest.push(p.0@)
        } else {
            rest
        }
    }
}

/// The texts of a list of strings.
pub open spec fn texts_of(v: Seq<String>) -> Seq<Seq<char>> {
    v.map_values(|s: String| s@)
}

fn has_enabled(profiles: &Vec<(String, bool)>, id: &str) -> (r: bool)
    ensures
        r == enabled_in(profiles@, id@),
{
    for k in 0..profiles.len()
        invariant
            forall|q: int| 0 <= q < k ==> !((#[trigger] profiles@[q]).0@ == id@ && profiles@[q].1),
    {
        if profiles[k].1 && same_text(profiles[k].0.as_str(), id) {
            return true;
        }
    }
    false
}

fn was_enabled(profiles: &Vec<(String, bool)>, id: &str) -> (r: bool)
    ensures
        r == first_enabled(profiles@, id@),
{
    let ghost s = profiles@;
    let mut i: usize = 0;
    assert(s.skip(0) == s);
    while i < profiles.len()
        invariant
            i <= s.len(),
            s == profiles@,
            first_enabled(s, id@) == first_enabled(s.skip(i as int), id@),
        decreases s.len() - i,
    {
        assert(s.skip(i as int)[0] == s[i as int]);
        assert(s.skip(i as int).skip(1) == s.skip(i + 1));
        if same_text(profiles[i].0.as_str(), id) {
            return profiles[i].1;
        }
        i = i + 1;
    }
    false
}

/// Which tailnet nodes stop and which start when the profiles change from
/// `previous` to `next` (each an id and whether it is enabled): see
/// `stopped_profiles` and `started_profiles`.
pub fn profile_transitions(previous: &Vec<(String, bool)>, next: &Vec<(String, bool)>) -> (r: (Vec<String>, Vec<String>))
    ensures
        texts_of(r.0@) == stopped_profiles(previous@, next@),
        texts_of(r.1@) == started_profiles(previous@, next@),
{
    let mut stops: Vec<String> = Vec::new();
    assert(previous@.take(0) =~= Seq::<(String, bool)>::empty());
    assert(texts_of(stops@) =~= Seq::<Seq<char>>::empty());
    for i in 0..previous.len()
        invariant
            texts_of(stops@) == stopped_profiles(previous@.take(i as int), next@),
    {
        proof {
            assert(previous@.take(i + 1).drop_last() =~= previous@.take(i as int));
            assert(previous@.take(i + 1).last() == previous@[i as int]);
        }
        if previous[i].1 && !has_enabled(next, previous[i].0.as_str()) {
            let ghost before = texts_of(stops@);
            stops.push(previous[i].0.clone());
            assert(texts_of(stops@) =~= before.push(previous@[i as int].0@));
        }
    }
    assert(previous@.take(previous@.len() as int) =~= previous@);
    let mut starts: Vec<String> = Vec::new();
    assert(next@.take(0) =~= Seq::<(String, bool)>::empty());
    assert(texts_of(starts@) =~= Seq::<Seq<char>>::empty());
    for i in 0..next.len()
        invariant
            texts_of(starts@) == started_profiles(previous@, next@.take(i as int)),
    {
        proof {
            assert(next@.take(i + 1).drop_last() =~= next@.take(i as int));
            assert(next@.take(i + 1).last() == next@[i as int]);
        }
        if next[i].1 && !was_enabled(previous, next[i].0.as_str()) {
            let ghost before = texts_of(starts@);
            starts.push(next[i].0.clone());
            assert(texts_of(starts@) =~= before.push(next@[i as int].0@));
        }
    }
    assert(next@.take(next@.len() as int) =~= next@);
    (stops, starts)
}

/// The `k`-th numbered tailnet path: `tn{k}`.
pub open spec fn tn_name(k: nat) -> Seq<char> {
    "tn"@ + decimal_of(k)
}

/// A requested tailnet path with the number `k` appended: `{base}-{k}`.
pub open spec fn suffixed(base: Seq<char>, k: nat) -> Seq<char> {
    base + "-"@ + decimal_of(k)
}

/// The first numbered path `tn{k}`, trying `fuel` numbers from `k` on,
/// whose lowercase form is not taken.
pub open spec fn free_tn(used: Seq<Seq<char>>, k: nat, fuel: nat) -> nat
    decreases fuel,
{
    if fuel == 0 || !used.contains(lowercase(tn_name(k))) {
        k
    } else {
        free_tn(used, k + 1, (fuel - 1) as nat)
    }
}

/// The first number `k`, trying `fuel` numbers from `k` on, for which the
/// lowercase form of `{base}-{k}` is not taken.
pub open spec fn free_suffix(used: Seq<Seq<char>>, base: Seq<char>, k: nat, fuel: nat) -> nat
    decreases fuel,
{
    if fuel == 0 || !used.contains(lowercase(suffixed(base, k))) {
        k
    } else {
        free_suffix(used, base, k + 1, (fuel - 1) as nat)
    }
}

/// The path a profile is known by: the path it keeps, or its automatic
/// path when it keeps none.
pub open spec fn effective_path(stored: Seq<char>, automatic: Seq<char>) -> Seq<char> {
    if stored.len() == 0 {
        automatic
    } else {
        stored
    }
}

/// Where assigning tailnet paths stands: the lowercase forms of the paths
/// given so far, the next number for a `tn{k}` path, and the paths kept.
pub struct PathAssignment {
    pub used: Seq<Seq<char>>,
    pub next_default: nat,
    pub stored: Seq<Seq<char>>,
}

/// One profile's turn: a requested path (or, for none, the automatic path)
/// whose lowercase form is free is kept as requested; a taken automatic
/// path becomes the first free `tn{k}` from the shared counter on; a taken
/// requested path becomes the first free `{base}-{k}` from 2 on.
pub open spec fn assign_step(a: PathAssignment, req: Seq<char>, auto: Seq<char>) -> PathAssignment {
    let eff = effective_path(req, auto);
    if a.used.contains(lowercase(eff)) {
        if req.len() == 0 {
            let k = free_tn(a.used, a.next_default, a.used.len() + 1);
            PathAssignment {
                used: a.used.push(lowercase(tn_name(k))),
                next_default: k + 1,
                stored: a.stored.push(tn_name(k)),
            }
        } else {
            let k = free_suffix(a.used, req, 2, a.used.len() + 1);
            PathAssignment {
                used: a.used.push(lowercase(suffixed(req, k))),
                next_default: a.next_default,
                stored: a.stored.push(suffixed(req, k)),
            }
        }
    } else {
        PathAssignment { used: a.used.push(lowercase(eff)), next_default: a.next_default, stored: a.stored.push(req) }
    }
}

/// The assignment after the first `n` profiles.
pub open spec fn assigned(requested: Seq<String>, automatic: Seq<String>, n: nat) -> PathAssignment
    decreases n,
{
    if n == 0 {
        PathAssignment { used: Seq::empty(), next_default: 1, stored: Seq::empty() }
    } else {
        assign_step(
            assigned(requested, automatic, (n - 1) as nat),
            requested[n - 1]@,
            automatic[n - 1]@,
        )
    }
}

/// The path kept for the `i`-th profile.
pub open spec fn assigned_path_spec(requested: Seq<String>, automatic: Seq<String>, i: int) -> Seq<char> {
    assigned(requested, automatic, requested.len()).stored[i]
}

proof fn lemma_not_all_taken(used: Seq<Seq<char>>, cands: Seq<Seq<char>>)
    requires
        cands.len() > used.len(),
        forall|a: int, b: int| 0 <= a < b < cands.len() ==> #[trigger] cands[a] != #[trigger] cands[b],
    ensures
        exists|k: int| 0 <= k < cands.len() && !used.contains(#[trigger] cands[k]),
    decreases used.len(),
{
    if used.len() == 0 {
        assert(!used.contains(cands[0]));
    } else {
        let rest = used.drop_last();
        let e = used.last();
        if exists|c: int| 0 <= c < cands.len() && cands[c] == e {
            let c = choose|c: int| 0 <= c < cands.len() && cands[c] == e;
            let fewer = cands.remove(c);
            assert forall|a: int, b: int| 0 <= a < b < fewer.len() implies #[trigger] fewer[a] != #[trigger] fewer[b] by {
                let oa = if a < c { a } else { a + 1 };
                let ob = if b < c { b } else { b + 1 };
                assert(fewer[a] == cands[oa] && fewer[b] == cands[ob]);
            }
            lemma_not_all_taken(rest, fewer);
            let k = choose|k: int| 0 <= k < fewer.len() && !rest.contains(#[trigger] fewer[k]);
            let ok = if k < c { k } else { k + 1 };
            assert(fewer[k] == cands[ok]);
            if used.contains(cands[ok]) {
                let i = choose|i: int| 0 <= i < used.len() && used[i] == cands[ok];
                if i < rest.len() {
                    assert(rest[i] == used[i]);
                } else {
                    assert(cands[ok] == cands[c]);
                }
            }
        } else {
            lemma_not_all_taken(rest, cands);
            let k = choose|k: int| 0 <= k < cands.len() && !rest.contains(#[trigger] cands[k]);
            if used.contains(cands[k]) {
                let i = choose|i: int| 0 <= i < used.len() && used[i] == cands[k];
                if i < rest.len() {
                    assert(rest[i] == used[i]);
                }
            }
        }
    }
}

proof fn lemma_digits_plain(n: nat)
    ensures
        is_ascii_chars(decimal_of(n)),
        lowered(decimal_of(n)) == decimal_of(n),
{
    lemma_decimal_digits(n);
    let d = decimal_of(n);
    assert forall|i: int| 0 <= i < d.len() implies '\0' <= #[trigger] d[i] <= '\u{7f}' by {}
    assert(lowered(d) =~= d) by {
        assert forall|i: int| 0 <= i < d.len() implies lowered(d)[i] == d[i] by {
            assert('0' <= d[i] <= '9');
        }
    }
}

proof fn lemma_tn_plain(k: nat)
    ensures
        is_ascii_chars(tn_name(k)),
        lowered(tn_name(k)) == tn_name(k),
{
    reveal_strlit("tn");
    lemma_digits_plain(k);
    let d = decimal_of(k);
    let t = tn_name(k);
    assert forall|i: int| 0 <= i < t.len() implies '\0' <= #[trigger] t[i] <= '\u{7f}' by {
        if i >= 2 {
            assert(t[i] == d[i - 2]);
        }
    }
    assert(lowered(t) =~= t) by {
        assert forall|i: int| 0 <= i < t.len() implies lowered(t)[i] == t[i] by {
            if i >= 2 {
                assert(t[i] == d[i - 2]);
                assert(lowered(d)[i - 2] == d[i - 2]);
            }
        }
    }
}

proof fn lemma_tn_distinct(a: nat, b: nat)
    requires
        a != b,
    ensures
        tn_name(a) != tn_name(b),
{
    reveal_strlit("tn");
    if tn_name(a) == tn_name(b) {
        assert(tn_name(a).skip(2) =~= decimal_of(a));
        assert(tn_name(b).skip(2) =~= decimal_of(b));
        lemma_decimal_injective(a, b);
    }
}

proof fn lemma_suffixed_lowered(base: Seq<char>, k: nat)
    requires
        is_ascii_chars(base),
    ensures
        is_ascii_chars(suffixed(base, k)),
        lowered(suffixed(base, k)) == lowered(base) + "-"@ + decimal_of(k),
{
    reveal_strlit("-");
    lemma_digits_plain(k);
    let d = decimal_of(k);
    let t = suffixed(base, k);
    let n = base.len();
    assert forall|i: int| 0 <= i < t.len() implies '\0' <= #[trigger] t[i] <= '\u{7f}' by {
        if i < n {
            assert(t[i] == base[i]);
        } else if i > n {
            assert(t[i] == d[i - n - 1]);
        }
    }
    assert(lowered(t) =~= lowered(base) + "-"@ + d) by {
        assert forall|i: int| 0 <= i < t.len() implies lowered(t)[i] == (lowered(base) + "-"@ + d)[i] by {
            if i < n {
                assert(t[i] == base[i]);
            } else if i > n {
                assert(t[i] == d[i - n - 1]);
                assert(lowered(d)[i - n - 1] == d[i - n - 1]);
            }
        }
    }
}

proof fn lemma_suffixed_distinct(lb: Seq<char>, a: nat, b: nat)
    requires
        a != b,
    ensures
        lb + "-"@ + decimal_of(a) != lb + "-"@ + decimal_of(b),
{
    reveal_strlit("-");
    let x = lb + "-"@ + decimal_of(a);
    let y = lb + "-"@ + decimal_of(b);
    if x == y {
        assert(x.skip(lb.len() as int + 1) =~= decimal_of(a));
        assert(y.skip(lb.len() as int + 1) =~= decimal_of(b));
        lemma_decimal_injective(a, b);
    }
}

fn contains_chars(used: &Vec<Vec<char>>, x: &Vec<char>) -> (r: bool)
    ensures
        r == used@.map_values(|v: Vec<char>| v@).contains(x@),
{
    let ghost uv = used@.map_values(|v: Vec<char>| v@);
    for i in 0..used.len()
        invariant
            uv == used@.map_values(|v: Vec<char>| v@),
            forall|q: int| 0 <= q < i ==> uv[q] != x@,
    {
        if same_chars(used[i].as_slice(), x.as_slice()) {
            assert(uv[i as int] == x@);
            return true;
        }
    }
    false
}

fn tn_text(k: u64) -> (r: String)
    ensures
        r@ == tn_name(k as nat),
{
    let mut v = chars_of("tn");
    let d = decimal_chars(k as u128);
    let ghost before = v@;
    for i in 0..d.len()
        invariant
            v@ == before + d@.take(i as int),
    {
        v.push(d[i]);
        assert(d@.take(i + 1) == d@.take(i as int).push(d@[i as int]));
    }
    assert(d@.take(d@.len() as int) == d@);
    string_from_chars(v.as_slice())
}

fn suffixed_text(base: &str, k: u64) -> (r: String)
    ensures
        r@ == suffixed(base@, k as nat),
{
    let mut v = chars_of(base);
    v.push('-');
    let d = decimal_chars(k as u128);
    let ghost before = v@;
    for i in 0..d.len()
        invariant
            v@ == before + d@.take(i as int),
    {
        v.push(d[i]);
        assert(d@.take(i + 1) == d@.take(i as int).push(d@[i as int]));
    }
    assert(d@.take(d@.len() as int) == d@);
    assert(v@ =~= suffixed(base@, k as nat)) by {
        reveal_strlit("-");
    }
    string_from_chars(v.as_slice())
}

fn free_default(used: &Vec<Vec<char>>, from: u64) -> (k: u64)
    requires
        from + used@.len() + 1 <= u64::MAX,
    ensures
        k == free_tn(used@.map_values(|v: Vec<char>| v@), from as nat, (used@.len() + 1) as nat),
        k <= from + used@.len(),
        !used@.map_values(|v: Vec<char>| v@).contains(lowercase(tn_name(k as nat))),
{
    let ghost uv = used@.map_values(|v: Vec<char>| v@);
    let m = used.len() as u64;
    let mut t: u64 = 0;
    while t <= m
        invariant
            m == used@.len(),
            uv == used@.map_values(|v: Vec<char>| v@),
            from + m + 1 <= u64::MAX,
            t <= m + 1,
            free_tn(uv, from as nat, (m + 1) as nat) == free_tn(uv, (from + t) as nat, (m + 1 - t) as nat),
            forall|s: int| 0 <= s < t ==> #[trigger] lowercase(tn_name((from + s) as nat)) == tn_name((from + s) as nat)
                && uv.contains(tn_name((from + s) as nat)),
        decreases m + 1 - t,
    {
        let k = from + t;
        let c = tn_text(k);
        let lc = lowercase_chars(c.as_str());
        proof {
            lemma_tn_plain(k as nat);
        }
        if !contains_chars(used, &lc) {
            return k;
        }
        t = t + 1;
    }
    proof {
        let cands = Seq::new((m + 1) as nat, |s: int| tn_name((from + s) as nat));
        assert forall|a: int, b: int| 0 <= a < b < cands.len() implies #[trigger] cands[a] != #[trigger] cands[b] by {
            lemma_tn_distinct((from + a) as nat, (from + b) as nat);
        }
        lemma_not_all_taken(uv, cands);
        let k = choose|k: int| 0 <= k < cands.len() && !uv.contains(#[trigger] cands[k]);
        assert(lowercase(tn_name((from + k) as nat)) == tn_name((from + k) as nat));
        assert(false);
    }
    from
}

fn free_suffix_exec(used: &Vec<Vec<char>>, base: &str) -> (k: u64)
    requires
        used@.len() + 3 <= u64::MAX,
        is_ascii_chars(base@),
    ensures
        k == free_suffix(used@.map_values(|v: Vec<char>| v@), base@, 2, (used@.len() + 1) as nat),
        k <= 2 + used@.len(),
        !used@.map_values(|v: Vec<char>| v@).contains(lowercase(suffixed(base@, k as nat))),
{
    let ghost uv = used@.map_values(|v: Vec<char>| v@);
    let ghost lb = lowered(base@);
    let m = used.len() as u64;
    let mut t: u64 = 0;
    while t <= m
        invariant
            m == used@.len(),
            uv == used@.map_values(|v: Vec<char>| v@),
            m + 3 <= u64::MAX,
            is_ascii_chars(base@),
            lb == lowered(base@),
            t <= m + 1,
            free_suffix(uv, base@, 2, (m + 1) as nat) == free_suffix(uv, base@, (2 + t) as nat, (m + 1 - t) as nat),
            forall|s: int| 0 <= s < t ==> #[trigger] lowercase(suffixed(base@, (2 + s) as nat)) == lb + "-"@ + decimal_of(
                (2 + s) as nat,
            ) && uv.contains(lb + "-"@ + decimal_of((2 + s) as nat)),
        decreases m + 1 - t,
    {
        let k = 2 + t;
        let c = suffixed_text(base, k);
        let lc = lowercase_chars(c.as_str());
        proof {
            lemma_suffixed_lowered(base@, k as nat);
        }
        if !contains_chars(used, &lc) {
            return k;
        }
        t = t + 1;
    }
    proof {
        let cands = Seq::new((m + 1) as nat, |s: int| lb + "-"@ + decimal_of((2 + s) as nat));
        assert forall|a: int, b: int| 0 <= a < b < cands.len() implies #[trigger] cands[a] != #[trigger] cands[b] by {
            lemma_suffixed_distinct(lb, (2 + a) as nat, (2 + b) as nat);
        }
        lemma_not_all_taken(uv, cands);
        let k = choose|k: int| 0 <= k < cands.len() && !uv.contains(#[trigger] cands[k]);
        assert(lowercase(suffixed(base@, (2 + k) as nat)) == lb + "-"@ + decimal_of((2 + k) as nat));
        assert(cands[k] == lb + "-"@ + decimal_of((2 + k) as nat));
        assert(false);
    }
    2
}

proof fn lemma_counter_bounds(nd: int, i: int, n: int)
    requires
        0 <= i < n,
        n < 0xFFFF_FFFF,
        nd <= 1 + i * (n + 1),
    ensures
        nd + i + 1 <= 1 + (i + 1) * (n + 1),
        1 + (i + 1) * (n + 1) <= 0xFFFF_FFFF_FFFF_FFFF,
{
    assert(nd + i + 1 <= 1 + (i + 1) * (n + 1)) by (nonlinear_arith)
        requires
            nd <= 1 + i * (n + 1),
            0 <= i <= n,
    ;
    assert((i + 1) * (n + 1) <= (n + 1) * (n + 1)) by (nonlinear_arith)
        requires
            0 <= i < n,
    ;
    assert((n + 1) * (n + 1) <= 0xFFFF_FFFF * 0xFFFF_FFFF) by (nonlinear_arith)
        requires
            0 <= n < 0xFFFF_FFFF,
    ;
}

/// Gives every tailnet profile a path, one after the other (see
/// `assign_step`): `requested` holds the normalized paths the profiles ask
/// for (empty for none, otherwise ASCII) and `automatic` their automatic
/// paths. The paths the profiles are known by then differ from each other
/// even ignoring case.
pub fn assign_tailnet_paths(requested: &Vec<String>, automatic: &Vec<String>) -> (r: Vec<String>)
    requires
        requested@.len() == automatic@.len(),
        requested@.len() < 0xFFFF_FFFF,
        forall|i: int| 0 <= i < requested@.len() ==> is_ascii_chars(#[trigger] requested@[i]@),
    ensures
        r@.len() == requested@.len(),
        forall|i: int| 0 <= i < r@.len() ==> #[trigger] r@[i]@ == assigned_path_spec(requested@, automatic@, i),
        forall|i: int, j: int|
            0 <= i < j < r@.len() ==> lowercase(effective_path(#[trigger] r@[i]@, automatic@[i]@)) != lowercase(
                effective_path(#[trigger] r@[j]@, automatic@[j]@),
            ),
{
    let n = requested.len();
    let mut used: Vec<Vec<char>> = Vec::new();
    let mut stored: Vec<String> = Vec::new();
    let mut nd: u64 = 1;
    let mut i: usize = 0;
    assert(used@.map_values(|v: Vec<char>| v@) =~= Seq::<Seq<char>>::empty());
    assert(texts_of(stored@) =~= Seq::<Seq<char>>::empty());
    while i < n
        invariant
            n == requested@.len(),
            n == automatic@.len(),
            n < 0xFFFF_FFFF,
            forall|q: int| 0 <= q < requested@.len() ==> is_ascii_chars(#[trigger] requested@[q]@),
            i <= n,
            assigned(requested@, automatic@, i as nat) == (PathAssignment {
                used: used@.map_values(|v: Vec<char>| v@),
                next_default: nd as nat,
                stored: texts_of(stored@),
            }),
            used@.len() == i,
            stored@.len() == i,
            forall|j: int| 0 <= j < i ==> (#[trigger] used@[j])@ == lowercase(effective_path(stored@[j]@, automatic@[j]@)),
            forall|a: int, b: int| 0 <= a < b < i ==> (#[trigger] used@[a])@ != (#[trigger] used@[b])@,
            1 <= nd,
            nd <= 1 + i * (n + 1),
        decreases n - i,
    {
        let ghost uv = used@.map_values(|v: Vec<char>| v@);
        let ghost before = assigned(requested@, automatic@, i as nat);
        let req = &requested[i];
        let auto = &automatic[i];
        let empty = req.as_str().is_empty();
        let le = if empty {
            lowercase_chars(auto.as_str())
        } else {
            lowercase_chars(req.as_str())
        };
        proof {
            lemma_counter_bounds(nd as int, i as int, n as int);
            assert(le@ == lowercase(effective_path(req@, auto@)));
        }
        let new_used: Vec<char>;
        let new_stored: String;
        if contains_chars(&used, &le) {
            if empty {
                let k = free_default(&used, nd);
                let c = tn_text(k);
                let lc = lowercase_chars(c.as_str());
                proof {
                    reveal_strlit("tn");
                    assert(c@.len() > 0);
                }
                new_used = lc;
                new_stored = c;
                nd = k + 1;
            } else {
                let k = free_suffix_exec(&used, req.as_str());
                let c = suffixed_text(req.as_str(), k);
                let lc = lowercase_chars(c.as_str());
                new_used = lc;
                new_stored = c;
            }
        } else {
            new_used = le;
            new_stored = req.clone();
        }
        proof {
            assert(new_used@ == lowercase(effective_path(new_stored@, auto@)));
            assert(!uv.contains(new_used@));
        }
        let ghost old_used = used@;
        let ghost old_stored = stored@;
        used.push(new_used);
        stored.push(new_stored);
        proof {
            assert(used@.map_values(|v: Vec<char>| v@) =~= uv.push(used@[i as int]@));
            assert(texts_of(stored@) =~= texts_of(old_stored).push(stored@[i as int]@));
            assert(assigned(requested@, automatic@, (i + 1) as nat) == assign_step(before, req@, auto@));
            assert forall|j: int| 0 <= j < i + 1 implies (#[trigger] used@[j])@ == lowercase(
                effective_path(stored@[j]@, automatic@[j]@),
            ) by {
                if j < i {
                    assert(used@[j] == old_used[j] && stored@[j] == old_stored[j]);
                }
            }
            assert forall|a: int, b: int| 0 <= a < b < i + 1 implies (#[trigger] used@[a])@ != (#[trigger] used@[b])@ by {
                assert(used@[a] == old_used[a]);
                if b < i {
                    assert(used@[b] == old_used[b]);
                } else {
                    assert(uv[a] == old_used[a]@);
                }
            }
        }
        i = i + 1;
    }
    proof {
        assert forall|q: int| 0 <= q < n implies #[trigger] stored@[q]@ == assigned_path_spec(requested@, automatic@, q) by {
            assert(texts_of(stored@)[q] == stored@[q]@);
        }
        assert forall|a: int, b: int| 0 <= a < b < stored@.len() implies lowercase(
            effective_path(#[trigger] stored@[a]@, automatic@[a]@),
        ) != lowercase(effective_path(#[trigger] stored@[b]@, automatic@[b]@)) by {
            assert(used@[a]@ == lowercase(effective_path(stored@[a]@, automatic@[a]@)));
            assert(used@[b]@ == lowercase(effective_path(stored@[b]@, automatic@[b]@)));
            assert(used@[a]@ != used@[b]@);
        }
    }
    stored
}

/// The first number `k`, trying `fuel` numbers from `k` on, for which the
/// lowercase form of the device name `base` numbered `k` is not taken.
pub open spec fn free_device_suffix(used: Seq<Seq<char>>, base: Seq<char>, k: nat, fuel: nat) -> nat
    decreases fuel,
{
    if fuel == 0 || !used.contains(lowercase(name_with_suffix_of(base, k))) {
        k
    } else {
        free_device_suffix(used, base, k + 1, (fuel - 1) as nat)
    }
}

/// The path name a device with the name `base` gets when the lowercase
/// forms `used` are taken: `base` itself when free, else the first free
/// numbered name from 2 on.
pub open spec fn device_name_given(used: Seq<Seq<char>>, base: Seq<char>) -> Seq<char> {
    if !used.contains(lowercase(base)) {
        base
    } else {
        name_with_suffix_of(base, free_device_suffix(used, base, 2, used.len() + 1))
    }
}

/// The path names of the first `n` devices, one after the other, and the
/// lowercase forms they take.
pub open spec fn device_names_of(bases: Seq<String>, n: nat) -> (Seq<Seq<char>>, Seq<Seq<char>>)
    decreases n,
{
    if n == 0 {
        (Seq::empty(), Seq::empty())
    } else {
        let (used, names) = device_names_of(bases, (n - 1) as nat);
        let name = device_name_given(used, bases[n - 1]@);
        (used.push(lowercase(name)), names.push(name))
    }
}

proof fn lemma_trim_end_prefix(s: Seq<char>)
    ensures
        exists|m: int| 0 <= m <= s.len() && trim_end_dashes_spaces(s) == s.take(m),
    decreases s.len(),
{
    if s.len() > 0 && (s.last() == '-' || crate::text::is_whitespace(s.last())) {
        lemma_trim_end_prefix(s.drop_last());
        let m = choose|m: int| 0 <= m <= s.drop_last().len() && trim_end_dashes_spaces(s.drop_last()) == s.drop_last().take(m);
        assert(s.drop_last().take(m) =~= s.take(m));
    } else {
        assert(s.take(s.len() as int) =~= s);
    }
}

proof fn lemma_numbered_device_name(base: Seq<char>, k: nat)
    requires
        is_ascii_chars(base),
    ensures
        exists|stem: Seq<char>| is_ascii_chars(stem) && name_with_suffix_of(base, k) == #[trigger] suffixed(stem, k),
{
    reveal_strlit("-");
    let tail = seq!['-'] + decimal_of(k);
    let keep = if tail.len() >= 24 { 1 } else { (24 - tail.len()) as nat };
    let cut = base.take(if keep <= base.len() { keep as int } else { base.len() as int });
    let t = trim_end_dashes_spaces(cut);
    lemma_trim_end_prefix(cut);
    let m = choose|m: int| 0 <= m <= cut.len() && t == cut.take(m);
    let stem = if t.len() == 0 { seq!['d'] } else { t };
    assert forall|i: int| 0 <= i < stem.len() implies '\0' <= #[trigger] stem[i] <= '\u{7f}' by {
        if t.len() > 0 {
            assert(stem[i] == base[i]);
        }
    }
    assert(name_with_suffix_of(base, k) =~= suffixed(stem, k));
}

proof fn lemma_digit_tails(p: Seq<char>, q: Seq<char>, a: nat, b: nat)
    requires
        p + "-"@ + decimal_of(a) == q + "-"@ + decimal_of(b),
    ensures
        a == b,
{
    reveal_strlit("-");
    lemma_decimal_digits(a);
    lemma_decimal_digits(b);
    let da = decimal_of(a);
    let db = decimal_of(b);
    let x = p + "-"@ + da;
    let y = q + "-"@ + db;
    if da.len() == db.len() {
        assert(x.skip(x.len() - da.len()) =~= da);
        assert(y.skip(y.len() - db.len()) =~= db);
        lemma_decimal_injective(a, b);
    } else if da.len() < db.len() {
        let idx = x.len() - da.len() - 1;
        assert(x[idx] == '-');
        assert(y[idx] == db[db.len() - da.len() - 1]);
    } else {
        let idx = y.len() - db.len() - 1;
        assert(y[idx] == '-');
        assert(x[idx] == da[da.len() - db.len() - 1]);
    }
}

fn free_device_suffix_exec(used: &Vec<Vec<char>>, base: &str) -> (k: usize)
    requires
        used@.len() + 3 <= usize::MAX,
        is_ascii_chars(base@),
    ensures
        k == free_device_suffix(used@.map_values(|v: Vec<char>| v@), base@, 2, (used@.len() + 1) as nat),
        !used@.map_values(|v: Vec<char>| v@).contains(lowercase(name_with_suffix_of(base@, k as nat))),
{
    let ghost uv = used@.map_values(|v: Vec<char>| v@);
    let m = used.len();
    let mut t: usize = 0;
    while t <= m
        invariant
            m == used@.len(),
            uv == used@.map_values(|v: Vec<char>| v@),
            m + 3 <= usize::MAX,
            is_ascii_chars(base@),
            t <= m + 1,
            free_device_suffix(uv, base@, 2, (m + 1) as nat) == free_device_suffix(uv, base@, (2 + t) as nat, (m + 1 - t) as nat),
            forall|s: int| 0 <= s < t ==> uv.contains(#[trigger] lowercase(name_with_suffix_of(base@, (2 + s) as nat)))
                && lowercase(name_with_suffix_of(base@, (2 + s) as nat)) == lowered(name_with_suffix_of(base@, (2 + s) as nat)),
        decreases m + 1 - t,
    {
        let k = 2 + t;
        let c = taildrive_device_name_with_suffix(base, k);
        proof {
            lemma_numbered_device_name(base@, k as nat);
            let stem = choose|stem: Seq<char>| is_ascii_chars(stem) && name_with_suffix_of(base@, k as nat) == #[trigger] suffixed(stem, k as nat);
            lemma_suffixed_lowered(stem, k as nat);
        }
        let lc = lowercase_chars(c.as_str());
        if !contains_chars(used, &lc) {
            return k;
        }
        t = t + 1;
    }
    proof {
        let cands = Seq::new((m + 1) as nat, |s: int| lowered(name_with_suffix_of(base@, (2 + s) as nat)));
        assert forall|a: int, b: int| 0 <= a < b < cands.len() implies #[trigger] cands[a] != #[trigger] cands[b] by {
            let ka = (2 + a) as nat;
            let kb = (2 + b) as nat;
            lemma_numbered_device_name(base@, ka);
            lemma_numbered_device_name(base@, kb);
            let sa = choose|stem: Seq<char>| is_ascii_chars(stem) && name_with_suffix_of(base@, ka) == #[trigger] suffixed(stem, ka);
            let sb = choose|stem: Seq<char>| is_ascii_chars(stem) && name_with_suffix_of(base@, kb) == #[trigger] suffixed(stem, kb);
            lemma_suffixed_lowered(sa, ka);
            lemma_suffixed_lowered(sb, kb);
            if cands[a] == cands[b] {
                lemma_digit_tails(lowered(sa), lowered(sb), ka, kb);
            }
        }
        lemma_not_all_taken(uv, cands);
        let k = choose|k: int| 0 <= k < cands.len() && !uv.contains(#[trigger] cands[k]);
        assert(uv.contains(lowercase(name_with_suffix_of(base@, (2 + k) as nat))));
        assert(false);
    }
    2
}

/// Gives every device a path name, one after the other (see
/// `device_name_given`): `bases` holds each device's name (ASCII), in the
/// order of the device ids. The names differ from each other even ignoring
/// case.
pub fn assign_device_path_names(bases: &Vec<String>) -> (r: Vec<String>)
    requires
        bases@.len() + 3 <= usize::MAX,
        forall|i: int| 0 <= i < bases@.len() ==> is_ascii_chars(#[trigger] bases@[i]@),
    ensures
        texts_of(r@) == device_names_of(bases@, bases@.len()).1,
        forall|i: int, j: int| 0 <= i < j < r@.len() ==> lowercase(#[trigger] r@[i]@) != lowercase(#[trigger] r@[j]@),
{
    let n = bases.len();
    let mut used: Vec<Vec<char>> = Vec::new();
    let mut names: Vec<String> = Vec::new();
    let mut i: usize = 0;
    assert(used@.map_values(|v: Vec<char>| v@) =~= Seq::<Seq<char>>::empty());
    assert(texts_of(names@) =~= Seq::<Seq<char>>::empty());
    while i < n
        invariant
            n == bases@.len(),
            n + 3 <= usize::MAX,
            forall|q: int| 0 <= q < bases@.len() ==> is_ascii_chars(#[trigger] bases@[q]@),
            i <= n,
            device_names_of(bases@, i as nat) == (used@.map_values(|v: Vec<char>| v@), texts_of(names@)),
            used@.len() == i,
            names@.len() == i,
            forall|j: int| 0 <= j < i ==> (#[trigger] used@[j])@ == lowercase(names@[j]@),
            forall|a: int, b: int| 0 <= a < b < i ==> (#[trigger] used@[a])@ != (#[trigger] used@[b])@,
        decreases n - i,
    {
        let ghost uv = used@.map_values(|v: Vec<char>| v@);
        let base = &bases[i];
        let lb = lowercase_chars(base.as_str());
        let name: String = if contains_chars(&used, &lb) {
            let k = free_device_suffix_exec(&used, base.as_str());
            taildrive_device_name_with_suffix(base.as_str(), k)
        } else {
            base.clone()
        };
        let ln = lowercase_chars(name.as_str());
        proof {
            assert(name@ == device_name_given(uv, base@));
            assert(!uv.contains(ln@));
        }
        let ghost old_used = used@;
        let ghost old_names = names@;
        used.push(ln);
        names.push(name);
        proof {
            assert(used@.map_values(|v: Vec<char>| v@) =~= uv.push(used@[i as int]@));
            assert(texts_of(names@) =~= texts_of(old_names).push(names@[i as int]@));
            assert forall|j: int| 0 <= j < i + 1 implies (#[trigger] used@[j])@ == lowercase(names@[j]@) by {
                if j < i {
                    assert(used@[j] == old_used[j] && names@[j] == old_names[j]);
                }
            }
            assert forall|a: int, b: int| 0 <= a < b < i + 1 implies (#[trigger] used@[a])@ != (#[trigger] used@[b])@ by {
                assert(used@[a] == old_used[a]);
                if b < i {
                    assert(used@[b] == old_used[b]);
                } else {
                    assert(uv[a] == old_used[a]@);
                }
            }
        }
        i = i + 1;
    }
    proof {
        assert forall|a: int, b: int| 0 <= a < b < names@.len() implies lowercase(#[trigger] names@[a]@) != lowercase(
            #[trigger] names@[b]@,
        ) by {
            assert(used@[a]@ == lowercase(names@[a]@));
            assert(used@[b]@ == lowercase(names@[b]@));
        }
    }
    names
}

} // verus!

verus! {

/// Whether `ids` holds the text `id`.
fn holds_id(ids: &Vec<String>, id: &str) -> (r: bool)
    ensures
        r == texts(ids@).contains(id@),
{
    let mut i: usize = 0;
    while i < ids.len()
        invariant
            i <= ids@.len(),
            forall|k: int| 0 <= k < i ==> ids@[k]@ != id@,
        decreases ids@.len() - i,
    {
        if same_text(ids[i].as_str(), id) {
            assert(texts(ids@)[i as int] == id@);
            return true;
        }
        i = i + 1;
    }
    proof {
        if texts(ids@).contains(id@) {
            let k = choose|k: int| 0 <= k < texts(ids@).len() && texts(ids@)[k] == id@;
            assert(ids@[k]@ == id@);
        }
    }
    false
}

/// The drafts (keyed by the profile they were typed for) whose profile is
/// still among `ids`, in their order.
pub open spec fn kept_drafts<V>(drafts: Seq<(String, V)>, ids: Seq<Seq<char>>) -> Seq<(String, V)>
    decreases drafts.len(),
{
    if drafts.len() == 0 {
        seq![]
    } else {
        let rest = kept_drafts(drafts.drop_last(), ids);
        if ids.contains(drafts.last().0@) {
            rest.push(drafts.last())
        } else {
            rest
        }
    }
}

/// Forgets the drafts typed for profiles that no longer exist.
pub fn prune_drafts<V>(drafts: Vec<(String, V)>, profile_ids: &Vec<String>) -> (r: Vec<(String, V)>)
    ensures
        r@ == kept_drafts(drafts@, texts(profile_ids@)),
{
    let ghost orig = drafts@;
    let n = drafts.len();
    assert(orig.skip(0) == orig);
    assert(orig.take(0) == Seq::<(String, V)>::empty());
    let mut rest = drafts;
    let mut kept: Vec<(String, V)> = Vec::new();
    let mut k: usize = 0;
    while k < n
        invariant
            n == orig.len(),
            k <= n,
            rest@ == orig.skip(k as int),
            kept@ == kept_drafts(orig.take(k as int), texts(profile_ids@)),
        decreases n - k,
    {
        let e = rest.remove(0);
        assert(orig.take(k + 1).drop_last() == orig.take(k as int));
        assert(rest@ == orig.skip(k + 1));
        if holds_id(profile_ids, e.0.as_str()) {
            kept.push(e);
        }
        k = k + 1;
    }
    assert(orig.take(k as int) == orig);
    kept
}

/// The tailnet profile a TailDrive location belongs to; the root belongs
/// to none.
pub open spec fn location_profile(loc: LocationView) -> Option<Seq<char>> {
    match loc {
        LocationView::Root => None,
        LocationView::Profile(p) => Some(p),
        LocationView::Device(p, _) => Some(p),
        LocationView::Remote(p, _, _, _) => Some(p),
    }
}

/// Whether `path` is a TailDrive place of a profile that is not among
/// `ids`.
pub open spec fn of_removed_profile(path: Seq<char>, ids: Seq<Seq<char>>) -> bool {
    match parse_taildrive_spec(path) {
        Some(loc) => match location_profile(loc) {
            Some(p) => !ids.contains(p),
            None => false,
        },
        None => false,
    }
}

/// Whether `path` is a TailDrive place of a profile that is not among
/// `profile_ids`.
pub fn is_of_removed_profile(path: &str, profile_ids: &Vec<String>) -> (r: bool)
    requires
        !taildrive_parse_panics(path@),
    ensures
        r == of_removed_profile(path@, texts(profile_ids@)),
{
    match parse_taildrive_path(path) {
        None => false,
        Some(loc) => match taildrive_profile_id(&loc) {
            None => false,
            Some(p) => !holds_id(profile_ids, p),
        },
    }
}

/// The paths that do not belong to a removed profile, in their order.
pub open spec fn paths_kept(paths: Seq<Seq<char>>, ids: Seq<Seq<char>>) -> Seq<Seq<char>>
    decreases paths.len(),
{
    if paths.len() == 0 {
        seq![]
    } else {
        let rest = paths_kept(paths.drop_last(), ids);
        if of_removed_profile(paths.last(), ids) {
            rest
        } else {
            rest.push(paths.last())
        }
    }
}

/// Drops the paths that belong to a profile no longer among `profile_ids`
/// (history stacks, pinned places).
pub fn keep_paths_of_profiles(paths: &Vec<String>, profile_ids: &Vec<String>) -> (r: Vec<String>)
    requires
        paths_showable(texts(paths@)),
    ensures
        texts(r@) == paths_kept(texts(paths@), texts(profile_ids@)),
{
    let mut kept: Vec<String> = Vec::new();
    let mut i: usize = 0;
    while i < paths.len()
        invariant
            i <= paths@.len(),
            paths_showable(texts(paths@)),
            texts(kept@) == paths_kept(texts(paths@).take(i as int), texts(profile_ids@)),
        decreases paths@.len() - i,
    {
        assert(texts(paths@).take(i + 1).drop_last() == texts(paths@).take(i as int));
        assert(texts(paths@)[i as int] == paths@[i as int]@);
        if !is_of_removed_profile(paths[i].as_str(), profile_ids) {
            let p = paths[i].clone();
            let ghost before = kept@;
            kept.push(p);
            assert(texts(kept@) == texts(before).push(paths@[i as int]@));
        }
        i = i + 1;
    }
    assert(texts(paths@).take(paths@.len() as int) == texts(paths@));
    kept
}

} // verus!

verus! {

/// Where the first `.`-separated label of a text ends.
pub open spec fn label_end(s: Seq<char>) -> int
    decreases s.len(),
{
    if s.len() == 0 || s[0] == '.' {
        0
    } else {
        1 + label_end(s.skip(1))
    }
}

/// The text before its first `.` (all of it when there is none).
pub open spec fn first_label(s: Seq<char>) -> Seq<char> {
    s.take(label_end(s))
}

proof fn lemma_label_end_range(s: Seq<char>)
    ensures
        0 <= label_end(s) <= s.len(),
    decreases s.len(),
{
    if s.len() > 0 && s[0] != '.' {
        lemma_label_end_range(s.skip(1));
    }
}

fn first_label_text(value: &str) -> (r: String)
    ensures
        r@ == first_label(value@),
{
    let cs = chars_of(value);
    let mut i: usize = 0;
    assert(cs@.skip(0) == cs@);
    while i < cs.len() && cs[i] != '.'
        invariant
            i <= cs@.len(),
            label_end(cs@) == i + label_end(cs@.skip(i as int)),
        decreases cs@.len() - i,
    {
        assert(cs@.skip(i as int).skip(1) == cs@.skip(i + 1));
        i = i + 1;
    }
    let mut out: Vec<char> = Vec::new();
    for k in 0..i
        invariant
            i <= cs@.len(),
            out@ == cs@.take(k as int),
    {
        out.push(cs[k]);
        assert(cs@.take(k + 1) == cs@.take(k as int).push(cs@[k as int]));
    }
    proof {
        lemma_label_end_range(cs@.skip(i as int));
    }
    string_from_chars(out.as_slice())
}

/// The text a device's default name is made from: its host name, else
/// the first label of its DNS name, else the first label of its address,
/// else its id (a text that is only whitespace counts as absent).
pub open spec fn device_name_candidate_of(hostname: Seq<char>, dns_name: Seq<char>, target: Seq<char>, id: Seq<char>) -> Seq<char> {
    if trim(hostname).len() != 0 {
        hostname
    } else if trim(dns_name).len() != 0 {
        first_label(dns_name)
    } else if trim(target).len() != 0 {
        first_label(target)
    } else {
        id
    }
}

fn blank(value: &str) -> (r: bool)
    ensures
        r == (trim(value@).len() == 0),
{
    let cs = chars_of(value);
    trim_chars(cs.as_slice()).len() == 0
}

/// The text a device's default name is made from (the caller puts it in
/// normal form).
pub fn device_name_candidate(hostname: &str, dns_name: &str, target: &str, device_id: &str) -> (r: String)
    ensures
        r@ == device_name_candidate_of(hostname@, dns_name@, target@, device_id@),
{
    if !blank(hostname) {
        hostname.to_owned()
    } else if !blank(dns_name) {
        first_label_text(dns_name)
    } else if !blank(target) {
        first_label_text(target)
    } else {
        device_id.to_owned()
    }
}

/// The name a device is given before names are made unique: its
/// configured name (in normal form) when there is one, else a stable name
/// made from its default name when the device is known, else from `d`; a
/// name that is empty, `.` or `..` is replaced by the stable name made
/// from `d`.
pub open spec fn device_base_of(configured: Option<Seq<char>>, default_name: Option<Seq<char>>, id: Seq<char>) -> Seq<char> {
    let base = match configured {
        Some(c) if c.len() != 0 => c,
        _ => match default_name {
            Some(d) => stable_name_of(d, id),
            None => stable_name_of(seq!['d'], id),
        },
    };
    if base.len() == 0 || base == seq!['.'] || base == seq!['.', '.'] {
        stable_name_of(seq!['d'], id)
    } else {
        base
    }
}

/// The name a device is given before names are made unique.
pub fn taildrive_device_base_name(configured: Option<&str>, default_name: Option<&str>, device_id: &str) -> (r: String)
    ensures
        r@ == device_base_of(opt_str_text(configured), opt_str_text(default_name), device_id@),
{
    proof {
        reveal_strlit("d");
        assert("d"@ =~= seq!['d']);
    }
    let base = match configured {
        Some(c) if !c.is_empty() => c.to_owned(),
        _ => match default_name {
            Some(d) => taildrive_device_stable_name(d, device_id),
            None => taildrive_device_stable_name("d", device_id),
        },
    };
    proof {
        reveal_strlit(".");
        reveal_strlit("..");
        assert("."@ =~= seq!['.']);
        assert(".."@ =~= seq!['.', '.']);
    }
    if base.as_str().is_empty() || same_text(base.as_str(), ".") || same_text(base.as_str(), "..") {
        taildrive_device_stable_name("d", device_id)
    } else {
        base
    }
}

/// The text of an optional string slice.
pub open spec fn opt_str_text(o: Option<&str>) -> Option<Seq<char>> {
    match o {
        Some(s) => Some(s@),
        None => None,
    }
}

} // verus!
