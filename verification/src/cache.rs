use vstd::prelude::*;
use crate::commands::RemoteCacheSettings;
use crate::names::is_ascii_alphanumeric;
use crate::paths::{extension, path_extension, push_rel};
use crate::text::{chars_of, concat_texts, decimal_chars, decimal_of, same_chars, string_from_chars};

verus! {

/// One file of the cache of opened remote files, under the key of the
/// remote file it copies.
#[derive(Debug, Clone)]
pub struct CacheEntry {
    pub key: String,
    pub file_name: String,
    pub display_name: String,
    pub remote_size: u64,
    pub remote_modified: String,
    pub cached_unix_ms: u64,
    pub last_accessed_unix_ms: u64,
}

/// What the disk says of an entry's file: whether it is there as a file,
/// and its size when it can be read.
#[derive(Debug, Clone, Copy)]
pub struct FileFacts {
    pub is_file: bool,
    pub size: Option<u64>,
}

/// What a cleanup keeps and frees, entry by entry, and the cache's size
/// afterwards.
#[derive(Debug, Clone)]
pub struct CleanupPlan {
    /// Whether each entry stays in the index.
    pub keep: Vec<bool>,
    /// Whether each entry's file is deleted.
    pub delete_file: Vec<bool>,
    /// The bytes the kept entries take.
    pub usage: u64,
}

/// `a - b`, or 0 when `b` is larger.
pub open spec fn sat_sub(a: u64, b: u64) -> u64 {
    if a >= b {
        (a - b) as u64
    } else {
        0
    }
}

/// `a * b`, or the largest `u64` when it does not fit.
pub open spec fn sat_mul(a: u64, b: u64) -> u64 {
    if a * b > u64::MAX {
        u64::MAX
    } else {
        (a * b) as u64
    }
}

/// How long an unused file may stay, in milliseconds (0: for ever).
pub open spec fn expiry_ms(s: RemoteCacheSettings) -> u64 {
    sat_mul(s.expiration_hours as u64, 3_600_000)
}

/// How many bytes the cache may take (0: no limit).
pub open spec fn limit_bytes(s: RemoteCacheSettings) -> u64 {
    sat_mul(s.limit_mib as u64, 1_048_576)
}

/// Whether a running transfer still needs this cache file.
pub open spec fn is_protected(protected: Seq<Seq<char>>, name: Seq<char>) -> bool {
    protected.contains(name)
}

/// Whether an entry has gone unused for longer than the cache keeps files.
pub open spec fn is_expired(e: CacheEntry, now: u64, s: RemoteCacheSettings) -> bool {
    expiry_ms(s) > 0 && sat_sub(now, e.last_accessed_unix_ms) > expiry_ms(s)
}

/// Whether an entry survives the first pass: its file is there, and it is
/// needed by a transfer or not expired.
pub open spec fn survives(e: CacheEntry, f: FileFacts, now: u64, s: RemoteCacheSettings, protected: Seq<Seq<char>>) -> bool {
    f.is_file && (is_protected(protected, e.file_name@) || !is_expired(e, now, s))
}

/// The bytes of a file, 0 when its size cannot be read.
pub open spec fn size_of(f: FileFacts) -> nat {
    match f.size {
        Some(n) => n as nat,
        None => 0,
    }
}

/// The bytes the surviving entries among the first `n` take.
pub open spec fn survivor_usage(
    entries: Seq<CacheEntry>,
    facts: Seq<FileFacts>,
    now: u64,
    s: RemoteCacheSettings,
    protected: Seq<Seq<char>>,
    n: int,
) -> nat
    decreases n,
{
    if n <= 0 {
        0
    } else {
        survivor_usage(entries, facts, now, s, protected, n - 1) + if survives(
            entries[n - 1],
            facts[n - 1],
            now,
            s,
            protected,
        ) {
            size_of(facts[n - 1])
        } else {
            0
        }
    }
}

/// Where a stable insertion puts index `x` into `sorted`: before the first
/// index whose entry was used later than `x`'s.
pub open spec fn access_insertion_point(entries: Seq<CacheEntry>, sorted: Seq<int>, x: int) -> int
    decreases sorted.len(),
{
    if sorted.len() == 0 {
        0
    } else if entries[sorted[0]].last_accessed_unix_ms > entries[x].last_accessed_unix_ms {
        0
    } else {
        1 + access_insertion_point(entries, sorted.skip(1), x)
    }
}

/// Indices sorted stably by last use, oldest first.
pub open spec fn by_last_access(entries: Seq<CacheEntry>, idx: Seq<int>) -> Seq<int>
    decreases idx.len(),
{
    if idx.len() == 0 {
        idx
    } else {
        let prev = by_last_access(entries, idx.drop_last());
        prev.insert(access_insertion_point(entries, prev, idx.last()), idx.last())
    }
}

/// The indices of the surviving entries among the first `n`, in order.
pub open spec fn survivor_indices(
    entries: Seq<CacheEntry>,
    facts: Seq<FileFacts>,
    now: u64,
    s: RemoteCacheSettings,
    protected: Seq<Seq<char>>,
    n: int,
) -> Seq<int>
    decreases n,
{
    if n <= 0 {
        Seq::empty()
    } else {
        let prev = survivor_indices(entries, facts, now, s, protected, n - 1);
        if survives(entries[n - 1], facts[n - 1], now, s, protected) {
            prev.push(n - 1)
        } else {
            prev
        }
    }
}

/// The eviction walk over entries oldest first: it stops once the cache
/// fits or one entry is left; entries still needed by transfers are passed
/// over; every other entry is evicted and its bytes are freed. Gives the
/// bytes left and the evicted indices.
pub open spec fn evict_walk(
    entries: Seq<CacheEntry>,
    facts: Seq<FileFacts>,
    protected: Seq<Seq<char>>,
    order: Seq<int>,
    limit: u64,
    usage: u64,
    count: nat,
) -> (u64, Set<int>)
    decreases order.len(),
{
    if order.len() == 0 || usage <= limit || count <= 1 {
        (usage, Set::empty())
    } else {
        let i = order[0];
        if is_protected(protected, entries[i].file_name@) {
            evict_walk(entries, facts, protected, order.skip(1), limit, usage, count)
        } else {
            let rest = evict_walk(
                entries,
                facts,
                protected,
                order.skip(1),
                limit,
                if usage >= size_of(facts[i]) {
                    (usage - size_of(facts[i])) as u64
                } else {
                    0
                },
                (count - 1) as nat,
            );
            (rest.0, rest.1.insert(i))
        }
    }
}


/// The texts of a list of strings.
pub open spec fn texts_of(v: Seq<String>) -> Seq<Seq<char>> {
    v.map_values(|s: String| s@)
}

/// What a cleanup does: entries whose file is gone, or that expired
/// without a transfer needing them, leave the index (their files are
/// deleted); when the rest take more than the limit, the oldest unneeded
/// entries are evicted until the cache fits or one entry is left. Gives,
/// per entry, whether it stays and whether its file is deleted, and the
/// bytes the cache takes afterwards.
pub open spec fn cleanup_outcome(
    entries: Seq<CacheEntry>,
    facts: Seq<FileFacts>,
    now: u64,
    s: RemoteCacheSettings,
    protected: Seq<Seq<char>>,
) -> (Seq<bool>, Seq<bool>, u64) {
    let n = entries.len() as int;
    let survivors = survivor_indices(entries, facts, now, s, protected, n);
    let usage0 = survivor_usage(entries, facts, now, s, protected, n) as u64;
    let limit = limit_bytes(s);
    let walked = if limit > 0 && usage0 > limit {
        evict_walk(entries, facts, protected, by_last_access(entries, survivors), limit, usage0, survivors.len())
    } else {
        (usage0, Set::empty())
    };
    (
        Seq::new(entries.len(), |i: int| survives(entries[i], facts[i], now, s, protected) && !walked.1.contains(i)),
        Seq::new(
            entries.len(),
            |i: int| (facts[i].is_file && !survives(entries[i], facts[i], now, s, protected)) || walked.1.contains(i),
        ),
        walked.0,
    )
}

fn protected_has(protected: &Vec<String>, name: &str) -> (r: bool)
    ensures
        r == is_protected(texts_of(protected@), name@),
{
    let nc = chars_of(name);
    for j in 0..protected.len()
        invariant
            nc@ == name@,
            forall|t: int| 0 <= t < j ==> texts_of(protected@)[t] != name@,
    {
        let a = chars_of(protected[j].as_str());
        if same_chars(a.as_slice(), nc.as_slice()) {
            assert(texts_of(protected@)[j as int] == name@);
            return true;
        }
    }
    false
}

fn sat_mul_exec(a: u64, b: u64) -> (r: u64)
    ensures
        r == sat_mul(a, b),
{
    match a.checked_mul(b) {
        Some(m) => m,
        None => u64::MAX,
    }
}

fn survives_exec(e: &CacheEntry, f: FileFacts, now: u64, s: RemoteCacheSettings, protected: &Vec<String>) -> (r: bool)
    ensures
        r == survives(*e, f, now, s, texts_of(protected@)),
{
    let expiry = sat_mul_exec(s.expiration_hours as u64, 3_600_000);
    let idle = if now >= e.last_accessed_unix_ms {
        now - e.last_accessed_unix_ms
    } else {
        0
    };
    let expired = expiry > 0 && idle > expiry;
    f.is_file && (protected_has(protected, e.file_name.as_str()) || !expired)
}

fn sort_by_last_access(entries: &Vec<CacheEntry>, idx: Vec<usize>) -> (r: Vec<usize>)
    requires
        forall|k: int| 0 <= k < idx@.len() ==> idx@[k] < entries@.len(),
    ensures
        r@.map_values(|x: usize| x as int) == by_last_access(entries@, idx@.map_values(|x: usize| x as int)),
        forall|k: int| 0 <= k < r@.len() ==> r@[k] < entries@.len(),
{
    let ghost orig = idx@.map_values(|x: usize| x as int);
    let mut out: Vec<usize> = Vec::new();
    for i in 0..idx.len()
        invariant
            orig == idx@.map_values(|x: usize| x as int),
            forall|k: int| 0 <= k < idx@.len() ==> idx@[k] < entries@.len(),
            out@.map_values(|x: usize| x as int) == by_last_access(entries@, orig.take(i as int)),
            forall|k: int| 0 <= k < out@.len() ==> out@[k] < entries@.len(),
    {
        let x = idx[i];
        let ghost prev = out@.map_values(|x: usize| x as int);
        let mut j: usize = 0;
        assert(prev.skip(0) == prev);
        while j < out.len() && entries[out[j]].last_accessed_unix_ms <= entries[x].last_accessed_unix_ms
            invariant
                j <= out@.len(),
                prev == out@.map_values(|x: usize| x as int),
                forall|k: int| 0 <= k < out@.len() ==> out@[k] < entries@.len(),
                x < entries@.len(),
                access_insertion_point(entries@, prev, x as int) == j + access_insertion_point(entries@, prev.skip(j as int), x as int),
            decreases out@.len() - j,
        {
            assert(prev.skip(j as int)[0] == prev[j as int]);
            assert(prev.skip(j as int).skip(1) == prev.skip(j + 1));
            j = j + 1;
        }
        proof {
            if j < out@.len() {
                assert(prev.skip(j as int)[0] == prev[j as int]);
            } else {
                assert(prev.skip(j as int).len() == 0);
            }
            assert(orig.take(i + 1).drop_last() == orig.take(i as int));
            assert(orig.take(i + 1).last() == x as int);
        }
        out.insert(j, x);
        assert(out@.map_values(|x: usize| x as int) =~= prev.insert(j as int, x as int));
    }
    assert(orig.take(idx@.len() as int) == orig);
    out
}

/// Decides what a cleanup of the cache does (see `cleanup_outcome`); the
/// caller reads the index and the files before, and deletes and saves
/// after.
pub fn plan_cache_cleanup(
    entries: &Vec<CacheEntry>,
    facts: &Vec<FileFacts>,
    now: u64,
    settings: RemoteCacheSettings,
    protected: &Vec<String>,
) -> (plan: CleanupPlan)
    requires
        facts@.len() == entries@.len(),
        survivor_usage(entries@, facts@, now, settings, texts_of(protected@), entries@.len() as int) <= u64::MAX,
    ensures
        plan.keep@ == cleanup_outcome(entries@, facts@, now, settings, texts_of(protected@)).0,
        plan.delete_file@ == cleanup_outcome(entries@, facts@, now, settings, texts_of(protected@)).1,
        plan.usage == cleanup_outcome(entries@, facts@, now, settings, texts_of(protected@)).2,
{
    let ghost pv = texts_of(protected@);
    let n = entries.len();
    let mut survive: Vec<bool> = Vec::new();
    let mut survivors: Vec<usize> = Vec::new();
    let mut usage: u64 = 0;
    for i in 0..n
        invariant
            n == entries@.len(),
            facts@.len() == n,
            pv == texts_of(protected@),
            survivor_usage(entries@, facts@, now, settings, pv, n as int) <= u64::MAX,
            survive@.len() == i,
            forall|k: int| 0 <= k < i ==> survive@[k] == survives(entries@[k], facts@[k], now, settings, pv),
            survivors@.map_values(|x: usize| x as int) == survivor_indices(entries@, facts@, now, settings, pv, i as int),
            forall|k: int| 0 <= k < survivors@.len() ==> survivors@[k] < i,
            usage == survivor_usage(entries@, facts@, now, settings, pv, i as int),
    {
        let keep = survives_exec(&entries[i], facts[i], now, settings, protected);
        survive.push(keep);
        proof {
            lemma_survivor_usage_mono(entries@, facts@, now, settings, pv, i + 1, n as int);
        }
        if keep {
            let size = match facts[i].size {
                Some(b) => b,
                None => 0,
            };
            usage = usage + size;
            survivors.push(i);
            assert(survivors@.map_values(|x: usize| x as int) =~= survivor_indices(entries@, facts@, now, settings, pv, i as int).push(i as int));
        }
    }
    let limit = sat_mul_exec(settings.limit_mib as u64, 1_048_576);
    let mut evicted: Vec<bool> = Vec::new();
    for i in 0..n
        invariant
            evicted@ == Seq::new(i as nat, |q: int| false),
    {
        evicted.push(false);
        assert(evicted@ =~= Seq::new((i + 1) as nat, |q: int| false));
    }
    let ghost usage0 = usage;
    let ghost sv = survivors@.map_values(|x: usize| x as int);
    let ghost order_spec = by_last_access(entries@, sv);
    let ghost walked = if limit > 0 && usage0 > limit {
        evict_walk(entries@, facts@, pv, order_spec, limit, usage0, sv.len())
    } else {
        (usage0, Set::<int>::empty())
    };
    let mut walked_usage = usage;
    let ghost mut walked_set: Set<int> = Set::empty();
    assert(forall|q: int| 0 <= q < n ==> evicted@[q] == walked_set.contains(q));
    if limit > 0 && usage > limit {
        proof {
            lemma_by_last_access_len(entries@, sv);
        }
        let order = sort_by_last_access(entries, survivors);
        let mut count: usize = order.len();
        let mut k: usize = 0;
        assert(order_spec.skip(0) == order_spec);
        assert(walked.1.union(Set::<int>::empty()) =~= walked.1);
        while k < order.len()
            invariant
                order@.map_values(|x: usize| x as int) == order_spec,
                forall|q: int| 0 <= q < order@.len() ==> order@[q] < n,
                n == entries@.len(),
                facts@.len() == n,
                pv == texts_of(protected@),
                k <= order@.len(),
                evicted@.len() == n,
                count <= order@.len(),
                walked.0 == evict_walk(entries@, facts@, pv, order_spec.skip(k as int), limit, walked_usage, count as nat).0,
                walked.1 == evict_walk(entries@, facts@, pv, order_spec.skip(k as int), limit, walked_usage, count as nat).1.union(walked_set),
                forall|q: int| 0 <= q < n ==> evicted@[q] == walked_set.contains(q),
            ensures
                walked.0 == walked_usage,
                walked.1 == walked_set,
            decreases order@.len() - k,
        {
            if walked_usage <= limit || count <= 1 {
                assert(walked.1 =~= walked_set);
                break;
            }
            let i = order[k];
            assert(order_spec.skip(k as int)[0] == i as int);
            assert(order_spec.skip(k as int).skip(1) == order_spec.skip(k + 1));
            if !protected_has(protected, entries[i].file_name.as_str()) {
                let size = match facts[i].size {
                    Some(b) => b,
                    None => 0,
                };
                walked_usage = if walked_usage >= size {
                    walked_usage - size
                } else {
                    0
                };
                count = count - 1;
                evicted.set(i, true);
                proof {
                    let rest = evict_walk(entries@, facts@, pv, order_spec.skip(k + 1), limit, walked_usage, count as nat);
                    assert(rest.1.insert(i as int).union(walked_set) =~= rest.1.union(walked_set.insert(i as int)));
                    walked_set = walked_set.insert(i as int);
                }
            }
            k = k + 1;
        }
        proof {
            if k == order@.len() {
                assert(order_spec.skip(k as int).len() == 0);
                assert(walked.1 =~= walked_set);
            }
        }
    }
    assert(walked.0 == walked_usage);
    assert(walked.1 =~= walked_set);
    assert(limit == limit_bytes(settings));
    let ghost co = cleanup_outcome(entries@, facts@, now, settings, pv);
    assert(co.2 == walked.0);
    assert(forall|q: int| 0 <= q < n ==> co.0[q] == (survives(entries@[q], facts@[q], now, settings, pv) && !walked.1.contains(q)));
    assert(forall|q: int| 0 <= q < n ==> co.1[q] == ((facts@[q].is_file && !survives(entries@[q], facts@[q], now, settings, pv)) || walked.1.contains(q)));
    let mut keep: Vec<bool> = Vec::new();
    let mut delete_file: Vec<bool> = Vec::new();
    for i in 0..n
        invariant
            n == entries@.len(),
            facts@.len() == n,
            survive@.len() == n,
            evicted@.len() == n,
            forall|q: int| 0 <= q < n ==> survive@[q] == survives(entries@[q], facts@[q], now, settings, pv),
            forall|q: int| 0 <= q < n ==> evicted@[q] == walked.1.contains(q),
            keep@.len() == i,
            delete_file@.len() == i,
            co == cleanup_outcome(entries@, facts@, now, settings, pv),
            forall|q: int| 0 <= q < n ==> co.0[q] == (survives(entries@[q], facts@[q], now, settings, pv) && !walked.1.contains(q)),
            forall|q: int| 0 <= q < n ==> co.1[q] == ((facts@[q].is_file && !survives(entries@[q], facts@[q], now, settings, pv)) || walked.1.contains(q)),
            forall|q: int| 0 <= q < i ==> keep@[q] == co.0[q],
            forall|q: int| 0 <= q < i ==> delete_file@[q] == co.1[q],
    {
        keep.push(survive[i] && !evicted[i]);
        delete_file.push((facts[i].is_file && !survive[i]) || evicted[i]);
    }
    assert(keep@ =~= co.0);
    assert(delete_file@ =~= co.1);
    CleanupPlan { keep, delete_file, usage: walked_usage }
}

proof fn lemma_by_last_access_len(entries: Seq<CacheEntry>, idx: Seq<int>)
    ensures
        by_last_access(entries, idx).len() == idx.len(),
    decreases idx.len(),
{
    if idx.len() > 0 {
        lemma_by_last_access_len(entries, idx.drop_last());
        lemma_insertion_point_range(entries, by_last_access(entries, idx.drop_last()), idx.last());
    }
}

proof fn lemma_insertion_point_range(entries: Seq<CacheEntry>, sorted: Seq<int>, x: int)
    ensures
        0 <= access_insertion_point(entries, sorted, x) <= sorted.len(),
    decreases sorted.len(),
{
    if sorted.len() > 0 {
        lemma_insertion_point_range(entries, sorted.skip(1), x);
    }
}

proof fn lemma_survivor_usage_mono(
    entries: Seq<CacheEntry>,
    facts: Seq<FileFacts>,
    now: u64,
    s: RemoteCacheSettings,
    protected: Seq<Seq<char>>,
    a: int,
    b: int,
)
    requires
        0 <= a <= b,
    ensures
        survivor_usage(entries, facts, now, s, protected, a) <= survivor_usage(entries, facts, now, s, protected, b),
    decreases b - a,
{
    if a < b {
        lemma_survivor_usage_mono(entries, facts, now, s, protected, a, b - 1);
    }
}

proof fn lemma_walk_spares_protected(
    entries: Seq<CacheEntry>,
    facts: Seq<FileFacts>,
    protected: Seq<Seq<char>>,
    order: Seq<int>,
    limit: u64,
    usage: u64,
    count: nat,
)
    ensures
        forall|i: int|
            #[trigger] evict_walk(entries, facts, protected, order, limit, usage, count).1.contains(i) ==> !is_protected(
                protected,
                entries[i].file_name@,
            ) && order.contains(i),
    decreases order.len(),
{
    if !(order.len() == 0 || usage <= limit || count <= 1) {
        let i = order[0];
        let next_usage = if usage >= size_of(facts[i]) {
            (usage - size_of(facts[i])) as u64
        } else {
            0
        };
        lemma_walk_spares_protected(entries, facts, protected, order.skip(1), limit, usage, count);
        if count >= 1 {
            lemma_walk_spares_protected(entries, facts, protected, order.skip(1), limit, next_usage, (count - 1) as nat);
        }
        assert forall|j: int| order.skip(1).contains(j) implies order.contains(j) by {
            let q = choose|q: int| 0 <= q < order.skip(1).len() && order.skip(1)[q] == j;
            assert(order[q + 1] == j);
        }
        assert(order[0] == i);
        assert(order.contains(i));
        let r = evict_walk(entries, facts, protected, order, limit, usage, count);
        if !is_protected(protected, entries[i].file_name@) {
            let rest = evict_walk(entries, facts, protected, order.skip(1), limit, next_usage, (count - 1) as nat);
            assert(r.1 == rest.1.insert(i));
            assert forall|j: int| #[trigger] r.1.contains(j) implies !is_protected(protected, entries[j].file_name@) && order.contains(j) by {
                if j != i {
                    assert(rest.1.contains(j));
                    assert(order.skip(1).contains(j));
                }
            }
        } else {
            let rest = evict_walk(entries, facts, protected, order.skip(1), limit, usage, count);
            assert(r.1 == rest.1);
            assert forall|j: int| #[trigger] r.1.contains(j) implies !is_protected(protected, entries[j].file_name@) && order.contains(j) by {
                assert(order.skip(1).contains(j));
            }
        }
    }
}

/// A cache file that a running transfer needs is never deleted and never
/// leaves the index while it is on disk, whatever its age and the limit.
pub proof fn lemma_cleanup_spares_protected(
    entries: Seq<CacheEntry>,
    facts: Seq<FileFacts>,
    now: u64,
    s: RemoteCacheSettings,
    protected: Seq<Seq<char>>,
    i: int,
)
    requires
        0 <= i < entries.len(),
        facts.len() == entries.len(),
        facts[i].is_file,
        is_protected(protected, entries[i].file_name@),
    ensures
        cleanup_outcome(entries, facts, now, s, protected).0[i],
        !cleanup_outcome(entries, facts, now, s, protected).1[i],
{
    let n = entries.len() as int;
    let survivors = survivor_indices(entries, facts, now, s, protected, n);
    let usage0 = survivor_usage(entries, facts, now, s, protected, n) as u64;
    lemma_walk_spares_protected(entries, facts, protected, by_last_access(entries, survivors), limit_bytes(s), usage0, survivors.len());
}

/// What opening a remote file does with the cache: use the cached copy,
/// drop a stale entry, or find nothing.
#[derive(Debug, Clone, Copy, PartialEq, Eq, Structural)]
pub enum AcquireDecision {
    /// No entry to use: download, leaving the index as it is.
    Miss,
    /// The entry is stale (file gone, expired, or another remote version):
    /// remove it and download.
    Drop,
    /// Use the cached file and mark it used now.
    Hit,
}

/// Whether a cached copy may stand for the remote file: both modification
/// stamps are known and equal, and the sizes agree.
pub open spec fn same_version(e: CacheEntry, remote_size: u64, remote_modified: Seq<char>) -> bool {
    remote_modified.len() > 0 && e.remote_modified@.len() > 0 && e.remote_size == remote_size
        && e.remote_modified@ == remote_modified
}

/// What opening a remote file does with its cache entry, if any.
pub open spec fn acquire_of(
    entry: Option<CacheEntry>,
    is_file: bool,
    remote_size: u64,
    remote_modified: Seq<char>,
    now: u64,
    s: RemoteCacheSettings,
) -> AcquireDecision {
    if remote_modified.len() == 0 {
        AcquireDecision::Miss
    } else {
        match entry {
            None => AcquireDecision::Miss,
            Some(e) => if !is_file || is_expired(e, now, s) || !same_version(e, remote_size, remote_modified) {
                AcquireDecision::Drop
            } else {
                AcquireDecision::Hit
            },
        }
    }
}

/// Decides what opening a remote file does with its cache entry; the
/// caller looks the entry up and checks its file.
pub fn remote_cache_acquire_decision(
    entry: Option<&CacheEntry>,
    is_file: bool,
    remote_size: u64,
    remote_modified: &str,
    now: u64,
    settings: RemoteCacheSettings,
) -> (r: AcquireDecision)
    ensures
        r == acquire_of(
            match entry {
                Some(e) => Some(*e),
                None => None,
            },
            is_file,
            remote_size,
            remote_modified@,
            now,
            settings,
        ),
{
    let rm = chars_of(remote_modified);
    if rm.len() == 0 {
        return AcquireDecision::Miss;
    }
    match entry {
        None => AcquireDecision::Miss,
        Some(e) => {
            let expiry = sat_mul_exec(settings.expiration_hours as u64, 3_600_000);
            let idle = if now >= e.last_accessed_unix_ms {
                now - e.last_accessed_unix_ms
            } else {
                0
            };
            let expired = expiry > 0 && idle > expiry;
            let em = chars_of(e.remote_modified.as_str());
            let same = em.len() > 0 && e.remote_size == remote_size && same_chars(em.as_slice(), rm.as_slice());
            if !is_file || expired || !same {
                AcquireDecision::Drop
            } else {
                AcquireDecision::Hit
            }
        },
    }
}

/// A cached copy is used only for the same remote version: a changed size
/// or modification stamp, or an unknown stamp, never gives a hit.
pub proof fn lemma_hit_needs_same_version(
    e: CacheEntry,
    is_file: bool,
    remote_size: u64,
    remote_modified: Seq<char>,
    now: u64,
    s: RemoteCacheSettings,
)
    ensures
        acquire_of(Some(e), is_file, remote_size, remote_modified, now, s) == AcquireDecision::Hit ==> same_version(
            e,
            remote_size,
            remote_modified,
        ) && is_file && !is_expired(e, now, s),
{
}

/// Whether an extension may be kept on a cache file name: 1 to 24 ASCII
/// letters and digits.
pub open spec fn cache_extension_ok(e: Seq<char>) -> bool {
    0 < e.len() <= 24 && forall|k: int| 0 <= k < e.len() ==> is_ascii_alphanumeric(#[trigger] e[k])
}

/// The name of a new cache file: the process id, `-`, a time stamp, and
/// `.` with the extension of the shown name when it is a plain one.
pub open spec fn cache_file_name_of(display_name: Seq<char>, process_id: u32, stamp: u128) -> Seq<char> {
    let base = decimal_of(process_id as nat) + seq!['-'] + decimal_of(stamp as nat);
    match path_extension(display_name) {
        Some(e) => if cache_extension_ok(e) {
            base + seq!['.'] + e
        } else {
            base
        },
        None => base,
    }
}

/// The name of a new cache file for a remote file.
pub fn remote_cache_filename(display_name: &str, process_id: u32, stamp: u128) -> (r: String)
    ensures
        r@ == cache_file_name_of(display_name@, process_id, stamp),
{
    let mut out = decimal_chars(process_id as u128);
    out.push('-');
    let st = decimal_chars(stamp);
    let ghost base0 = out@;
    for k in 0..st.len()
        invariant
            out@ == base0 + st@.take(k as int),
    {
        out.push(st[k]);
        assert(st@.take(k + 1) == st@.take(k as int).push(st@[k as int]));
    }
    assert(st@.take(st@.len() as int) == st@);
    if let Some(e) = extension(display_name) {
        let ec = chars_of(e.as_str());
        let mut ok = ec.len() > 0 && ec.len() <= 24;
        for k in 0..ec.len()
            invariant
                ok == (0 < ec@.len() <= 24 && forall|q: int| 0 <= q < k ==> is_ascii_alphanumeric(#[trigger] ec@[q])),
        {
            let c = ec[k];
            if !(('0' <= c && c <= '9') || ('a' <= c && c <= 'z') || ('A' <= c && c <= 'Z')) {
                ok = false;
            }
        }
        if ok {
            let ghost base = out@;
            out.push('.');
            for k in 0..ec.len()
                invariant
                    out@ == base + seq!['.'] + ec@.take(k as int),
            {
                out.push(ec[k]);
                assert(ec@.take(k + 1) == ec@.take(k as int).push(ec@[k as int]));
            }
            assert(ec@.take(ec@.len() as int) == ec@);
        }
    }
    string_from_chars(out.as_slice())
}

/// Where the cache keeps its index: `index.json` in its folder.
pub open spec fn cache_index_path_of(root: Seq<char>) -> Seq<char> {
    push_rel(root, "index.json"@)
}

/// Where the cache keeps its index.
pub fn remote_cache_index_path(root: &str) -> (r: String)
    ensures
        r@ == cache_index_path_of(root@),
{
    let rc = chars_of(root);
    if rc.len() > 0 && rc[rc.len() - 1] != '/' {
        let with_sep = concat_texts(root, "/");
        proof {
            reveal_strlit("/");
        }
        concat_texts(with_sep.as_str(), "index.json")
    } else {
        concat_texts(root, "index.json")
    }
}

/// Whether a text is among the texts.
pub open spec fn names_contain(names: Seq<String>, name: Seq<char>) -> bool {
    exists|k: int| 0 <= k < names.len() && (#[trigger] names[k])@ == name
}

/// Whether a file in the cache folder is a stray: not the index, named by
/// no index entry, and needed by no running transfer.
pub open spec fn is_stray_cache_file(name: Seq<char>, indexed: Seq<String>, protected: Seq<String>) -> bool {
    name != "index.json"@ && !names_contain(indexed, name) && !names_contain(protected, name)
}

/// The strays among the files in order.
pub open spec fn strays(names: Seq<String>, indexed: Seq<String>, protected: Seq<String>) -> Seq<Seq<char>>
    decreases names.len(),
{
    if names.len() == 0 {
        Seq::empty()
    } else if is_stray_cache_file(names.last()@, indexed, protected) {
        strays(names.drop_last(), indexed, protected).push(names.last()@)
    } else {
        strays(names.drop_last(), indexed, protected)
    }
}

fn contains_name(names: &Vec<String>, name: &str) -> (r: bool)
    ensures
        r == names_contain(names@, name@),
{
    for k in 0..names.len()
        invariant
            forall|q: int| 0 <= q < k ==> (#[trigger] names@[q])@ != name@,
    {
        if crate::text::same_text(names[k].as_str(), name) {
            return true;
        }
    }
    false
}

/// The files of the cache folder that a cleanup deletes besides the
/// entries it drops: every file named `names` other than `index.json` that
/// no index entry names (`indexed`) and no running transfer needs
/// (`protected`), in order.
pub fn stray_cache_files(names: &Vec<String>, indexed: &Vec<String>, protected: &Vec<String>) -> (r: Vec<String>)
    ensures
        r@.map_values(|n: String| n@) == strays(names@, indexed@, protected@),
{
    let mut r: Vec<String> = Vec::new();
    assert(names@.take(0) =~= Seq::<String>::empty());
    assert(r@.map_values(|n: String| n@) =~= Seq::<Seq<char>>::empty());
    for i in 0..names.len()
        invariant
            r@.map_values(|n: String| n@) == strays(names@.take(i as int), indexed@, protected@),
    {
        let name = names[i].as_str();
        proof {
            assert(names@.take(i + 1).drop_last() =~= names@.take(i as int));
            assert(names@.take(i + 1).last() == names@[i as int]);
        }
        let stray = !crate::text::same_text(name, "index.json") && !contains_name(indexed, name) && !contains_name(
            protected,
            name,
        );
        if stray {
            let ghost before = r@.map_values(|n: String| n@);
            r.push(names[i].clone());
            assert(r@.map_values(|n: String| n@) =~= before.push(names@[i as int]@));
        }
    }
    assert(names@.take(names@.len() as int) =~= names@);
    r
}

proof fn lemma_insertion_point_split(entries: Seq<CacheEntry>, sorted: Seq<int>, x: int)
    ensures
        forall|k: int|
            0 <= k < access_insertion_point(entries, sorted, x) ==> entries[#[trigger] sorted[k]].last_accessed_unix_ms
                <= entries[x].last_accessed_unix_ms,
        access_insertion_point(entries, sorted, x) < sorted.len() ==> entries[sorted[access_insertion_point(
            entries,
            sorted,
            x,
        )]].last_accessed_unix_ms > entries[x].last_accessed_unix_ms,
    decreases sorted.len(),
{
    lemma_insertion_point_range(entries, sorted, x);
    if sorted.len() > 0 && entries[sorted[0]].last_accessed_unix_ms <= entries[x].last_accessed_unix_ms {
        lemma_insertion_point_split(entries, sorted.skip(1), x);
        let p = access_insertion_point(entries, sorted, x);
        assert(p == 1 + access_insertion_point(entries, sorted.skip(1), x));
        lemma_insertion_point_range(entries, sorted.skip(1), x);
        assert forall|k: int| 0 <= k < p implies entries[#[trigger] sorted[k]].last_accessed_unix_ms
            <= entries[x].last_accessed_unix_ms by {
            if k > 0 {
                assert(sorted[k] == sorted.skip(1)[k - 1]);
            }
        }
        if p < sorted.len() {
            assert(sorted[p] == sorted.skip(1)[p - 1]);
        }
    }
}

/// Sorting indices by last use, for indices given in increasing order:
/// the result holds the same indices, oldest use first, and indices used
/// at the same time keep their order.
pub proof fn lemma_by_last_access_sorted(entries: Seq<CacheEntry>, idx: Seq<int>)
    requires
        forall|a: int, b: int| 0 <= a < b < idx.len() ==> idx[a] < idx[b],
    ensures
        by_last_access(entries, idx).len() == idx.len(),
        by_last_access(entries, idx).to_set() == idx.to_set(),
        forall|a: int, b: int|
            0 <= a < b < idx.len() ==> entries[#[trigger] by_last_access(entries, idx)[a]].last_accessed_unix_ms
                <= entries[#[trigger] by_last_access(entries, idx)[b]].last_accessed_unix_ms,
        forall|a: int, b: int|
            0 <= a < b < idx.len() && entries[by_last_access(entries, idx)[a]].last_accessed_unix_ms
                == entries[by_last_access(entries, idx)[b]].last_accessed_unix_ms ==> #[trigger] by_last_access(
                entries,
                idx,
            )[a] < #[trigger] by_last_access(entries, idx)[b],
    decreases idx.len(),
{
    lemma_by_last_access_len(entries, idx);
    if idx.len() == 0 {
        assert(by_last_access(entries, idx).to_set() =~= idx.to_set());
    } else {
        let init = idx.drop_last();
        let x = idx.last();
        lemma_by_last_access_sorted(entries, init);
        let prev = by_last_access(entries, init);
        let p = access_insertion_point(entries, prev, x);
        lemma_insertion_point_range(entries, prev, x);
        lemma_insertion_point_split(entries, prev, x);
        let out = prev.insert(p, x);
        assert(out == by_last_access(entries, idx));
        let ax = entries[x].last_accessed_unix_ms;
        assert forall|k: int| 0 <= k < prev.len() implies prev[k] < x by {
            assert(prev.to_set().contains(prev[k]));
            assert(init.to_set().contains(prev[k]));
            let j = choose|j: int| 0 <= j < init.len() && init[j] == prev[k];
            assert(idx[j] < idx[idx.len() - 1]);
        }
        assert forall|k: int| p <= k < prev.len() implies entries[#[trigger] prev[k]].last_accessed_unix_ms > ax by {
            if k > p {
                assert(entries[prev[p]].last_accessed_unix_ms <= entries[prev[k]].last_accessed_unix_ms);
            }
        }
        assert forall|a: int, b: int| 0 <= a < b < out.len() implies entries[#[trigger] out[a]].last_accessed_unix_ms
            <= entries[#[trigger] out[b]].last_accessed_unix_ms by {
            if a < p && b < p {
                assert(out[a] == prev[a] && out[b] == prev[b]);
            } else if a < p && b == p {
                assert(out[a] == prev[a]);
            } else if a < p {
                assert(out[a] == prev[a] && out[b] == prev[b - 1]);
            } else if a == p {
                assert(out[b] == prev[b - 1]);
            } else {
                assert(out[a] == prev[a - 1] && out[b] == prev[b - 1]);
            }
        }
        assert forall|a: int, b: int| 0 <= a < b < out.len() && entries[out[a]].last_accessed_unix_ms
            == entries[out[b]].last_accessed_unix_ms implies #[trigger] out[a] < #[trigger] out[b] by {
            if a < p && b < p {
                assert(out[a] == prev[a] && out[b] == prev[b]);
            } else if a < p && b == p {
                assert(out[a] == prev[a]);
            } else if a < p {
                assert(out[a] == prev[a] && out[b] == prev[b - 1]);
            } else if a == p {
                assert(out[b] == prev[b - 1]);
            } else {
                assert(out[a] == prev[a - 1] && out[b] == prev[b - 1]);
            }
        }
        assert(out.to_set() =~= idx.to_set()) by {
            assert forall|y: int| out.to_set().contains(y) implies idx.to_set().contains(y) by {
                let k = choose|k: int| 0 <= k < out.len() && out[k] == y;
                if k != p {
                    let pk = if k < p { k } else { k - 1 };
                    assert(out[k] == prev[pk]);
                    assert(prev.to_set().contains(prev[pk]));
                    assert(init.to_set().contains(y));
                    let j = choose|j: int| 0 <= j < init.len() && init[j] == y;
                    assert(idx[j] == y);
                } else {
                    assert(idx[idx.len() - 1] == y);
                }
            }
            assert forall|y: int| idx.to_set().contains(y) implies out.to_set().contains(y) by {
                let j = choose|j: int| 0 <= j < idx.len() && idx[j] == y;
                if j < idx.len() - 1 {
                    assert(init[j] == y);
                    assert(init.to_set().contains(y));
                    assert(prev.to_set().contains(y));
                    let k = choose|k: int| 0 <= k < prev.len() && prev[k] == y;
                    let ok = if k < p { k } else { k + 1 };
                    assert(out[ok] == y);
                } else {
                    assert(out[p] == y);
                }
            }
        }
    }
}


/// The entries of an eviction order that no transfer still needs, in
/// that order.
pub open spec fn unprotected_order(entries: Seq<CacheEntry>, protected: Seq<Seq<char>>, order: Seq<int>) -> Seq<int>
    decreases order.len(),
{
    if order.len() == 0 {
        Seq::empty()
    } else if is_protected(protected, entries[order[0]].file_name@) {
        unprotected_order(entries, protected, order.skip(1))
    } else {
        seq![order[0]] + unprotected_order(entries, protected, order.skip(1))
    }
}

/// The bytes left once the file of entry `i` is gone (never below zero).
pub open spec fn usage_without(facts: Seq<FileFacts>, usage: u64, i: int) -> u64 {
    if usage >= size_of(facts[i]) {
        (usage - size_of(facts[i])) as u64
    } else {
        0
    }
}

/// The bytes left once the first `j` entries of `u` are gone.
pub open spec fn usage_after(facts: Seq<FileFacts>, u: Seq<int>, usage: u64, j: int) -> u64
    decreases j,
{
    if j <= 0 {
        usage
    } else {
        usage_without(facts, usage_after(facts, u, usage, j - 1), u[j - 1])
    }
}

proof fn lemma_usage_after_shift(facts: Seq<FileFacts>, x: int, rest: Seq<int>, usage: u64, i: int)
    requires
        0 <= i <= rest.len(),
    ensures
        usage_after(facts, seq![x] + rest, usage, i + 1) == usage_after(facts, rest, usage_without(facts, usage, x), i),
    decreases i,
{
    let u = seq![x] + rest;
    let next = usage_without(facts, usage, x);
    assert(u[0] == x);
    if i == 0 {
        assert(usage_after(facts, u, usage, 0) == usage);
        assert(usage_after(facts, u, usage, 1) == usage_without(facts, usage_after(facts, u, usage, 0), u[0]));
        assert(usage_after(facts, rest, next, 0) == next);
    } else {
        lemma_usage_after_shift(facts, x, rest, usage, i - 1);
        assert(u[i] == rest[i - 1]);
        assert(usage_after(facts, u, usage, i + 1) == usage_without(facts, usage_after(facts, u, usage, i), u[i]));
        assert(usage_after(facts, rest, next, i) == usage_without(facts, usage_after(facts, rest, next, i - 1), rest[i - 1]));
    }
}

/// The eviction walk evicts the shortest run of unneeded entries, taken
/// oldest first, after which the cache fits or one entry would be left:
/// for the returned length `j`, the evicted set is the first `j` unneeded
/// entries of the order, the bytes left are what their removal leaves,
/// the walk stops there, and it could not have stopped earlier.
pub proof fn lemma_evict_walk_prefix(
    entries: Seq<CacheEntry>,
    facts: Seq<FileFacts>,
    protected: Seq<Seq<char>>,
    order: Seq<int>,
    limit: u64,
    usage: u64,
    count: nat,
) -> (j: int)
    ensures
        0 <= j <= unprotected_order(entries, protected, order).len(),
        evict_walk(entries, facts, protected, order, limit, usage, count) == (
            usage_after(facts, unprotected_order(entries, protected, order), usage, j),
            unprotected_order(entries, protected, order).take(j).to_set(),
        ),
        j == unprotected_order(entries, protected, order).len()
            || usage_after(facts, unprotected_order(entries, protected, order), usage, j) <= limit
            || count - j <= 1,
        forall|i: int| 0 <= i < j ==> #[trigger] usage_after(facts, unprotected_order(entries, protected, order), usage, i)
            > limit && count - i > 1,
    decreases order.len(),
{
    let u = unprotected_order(entries, protected, order);
    if order.len() == 0 || usage <= limit || count <= 1 {
        assert(u.take(0).to_set() =~= Set::<int>::empty());
        0
    } else {
        let x = order[0];
        if is_protected(protected, entries[x].file_name@) {
            lemma_evict_walk_prefix(entries, facts, protected, order.skip(1), limit, usage, count)
        } else {
            let next = usage_without(facts, usage, x);
            let rest_u = unprotected_order(entries, protected, order.skip(1));
            assert(u == seq![x] + rest_u);
            let j0 = lemma_evict_walk_prefix(entries, facts, protected, order.skip(1), limit, next, (count - 1) as nat);
            let j = j0 + 1;
            lemma_usage_after_shift(facts, x, rest_u, usage, j0);
            assert(u.take(j).to_set() =~= rest_u.take(j0).to_set().insert(x)) by {
                assert forall|y: int| u.take(j).to_set().contains(y) implies rest_u.take(j0).to_set().insert(x).contains(y) by {
                    let k = choose|k: int| 0 <= k < u.take(j).len() && u.take(j)[k] == y;
                    if k > 0 {
                        assert(rest_u.take(j0)[k - 1] == y);
                    }
                }
                assert forall|y: int| rest_u.take(j0).to_set().insert(x).contains(y) implies u.take(j).to_set().contains(y) by {
                    if y == x {
                        assert(u.take(j)[0] == x);
                    } else {
                        let k = choose|k: int| 0 <= k < rest_u.take(j0).len() && rest_u.take(j0)[k] == y;
                        assert(u.take(j)[k + 1] == y);
                    }
                }
            }
            assert forall|i: int| 0 <= i < j implies #[trigger] usage_after(facts, u, usage, i) > limit && count - i > 1 by {
                if i > 0 {
                    lemma_usage_after_shift(facts, x, rest_u, usage, i - 1);
                    assert(usage_after(facts, rest_u, next, i - 1) > limit);
                }
            }
            j
        }
    }
}

} // verus!
