use vstd::prelude::*;
use vstd::pervasive::cloned;
use vstd::string::StringExecFns;
use crate::config::CacheConfig;

verus! {

/// Error taxonomy of the cache.
///
/// `LockError` is surfaced when shared state around a store cannot be
/// acquired; the store itself owns its state outright, so none of its own
/// operations produce it, but callers that wrap a store in a lock map their
/// failure into this variant. `MaxSizeExceeded` is reserved for a policy that
/// refuses inserts instead of evicting. `InvalidKey` reports an empty key.
#[derive(Debug)]
pub enum CacheError {
    LockError(String),
    MaxSizeExceeded,
    InvalidKey(String),
}

impl CacheError {
    /// The full text of [`CacheError::message`], as a sequence of characters.
    pub open spec fn spec_message(&self) -> Seq<char> {
        match self {
            CacheError::LockError(m) => "Cache lock error: "@ + m@,
            CacheError::MaxSizeExceeded => "Cache maximum size exceeded"@,
            CacheError::InvalidKey(k) => "Invalid cache key: "@ + k@,
        }
    }

    /// Human-readable description of the error.
    pub fn message(&self) -> (r: String)
        ensures
            r@ == self.spec_message(),
    {
        match self {
            CacheError::LockError(m) => {
                let mut s: String = "Cache lock error: ".to_owned();
                s.append(m.as_str());
                s
            }
            CacheError::MaxSizeExceeded => "Cache maximum size exceeded".to_owned(),
            CacheError::InvalidKey(k) => {
                let mut s: String = "Invalid cache key: ".to_owned();
                s.append(k.as_str());
                s
            }
        }
    }
}

/// `c + 1`, saturating at the top of `u64`.
pub open spec fn inc_sat(c: u64) -> u64 {
    if c == u64::MAX {
        c
    } else {
        (c + 1) as u64
    }
}

/// `a + b`, saturating at the top of `u64`.
pub open spec fn add_sat(a: u64, b: u64) -> u64 {
    if a + b > u64::MAX {
        u64::MAX
    } else {
        (a + b) as u64
    }
}

/// `c + 1` on a `u64` counter, saturating instead of overflowing.
fn sat_inc64(c: u64) -> (r: u64)
    ensures
        r == inc_sat(c),
{
    if c == u64::MAX {
        c
    } else {
        c + 1
    }
}

/// `a + b` on `u64` counters, saturating instead of overflowing.
fn sat_add64(a: u64, b: u64) -> (r: u64)
    ensures
        r == add_sat(a, b),
{
    if b > u64::MAX - a {
        u64::MAX
    } else {
        a + b
    }
}

/// Relies on std::time::SystemTime::now, read as whole seconds since the
/// Unix epoch (zero if the system clock reads before the epoch). Nothing is
/// assumed of the value: the verified callers clamp it so that a store's
/// observed time never runs backwards.
#[verifier::external_body]
fn clock_seconds() -> u64 {
    match std::time::SystemTime::now().duration_since(std::time::UNIX_EPOCH) {
        Ok(d) => d.as_secs(),
        Err(_) => 0,
    }
}

/// Monotonically-increasing counters describing a store's activity.
/// `removes` accumulates explicit removals, evictions and expirations alike.
#[derive(Debug, Clone, Copy, PartialEq, Eq, Structural)]
pub struct CacheStats {
    pub hits: u64,
    pub misses: u64,
    pub inserts: u64,
    pub removes: u64,
    pub cleanups: u64,
}

impl CacheStats {
    /// The all-zero statistics of a fresh or cleared store.
    pub open spec fn zeroed() -> CacheStats {
        CacheStats { hits: 0, misses: 0, inserts: 0, removes: 0, cleanups: 0 }
    }

    /// The hit rate as a fraction `(numerator, denominator)`: hits over
    /// hits plus misses, the denominator saturating at the top of `u64`.
    /// The rate itself is the quotient, taken as zero when the denominator
    /// is zero.
    pub fn hit_rate_parts(&self) -> (r: (u64, u64))
        ensures
            r.0 == self.hits,
            r.1 == add_sat(self.hits, self.misses),
    {
        let den: u64 = if self.misses > u64::MAX - self.hits {
            u64::MAX
        } else {
            self.hits + self.misses
        };
        (self.hits, den)
    }
}

impl Default for CacheStats {
    fn default() -> (r: Self)
        ensures
            r == CacheStats::zeroed(),
    {
        CacheStats { hits: 0, misses: 0, inserts: 0, removes: 0, cleanups: 0 }
    }
}

/// One stored value together with its creation time (seconds) and the number
/// of times it has been read; the counter only breaks ties during eviction.
#[derive(Debug, Clone)]
pub struct CacheEntry<V> {
    pub value: V,
    pub created_at: u64,
    pub access_count: u64,
}

impl<V: Clone> CacheEntry<V> {
    /// A fresh entry created at time `now`, counted as accessed once.
    pub fn new(value: V, now: u64) -> (r: Self)
        ensures
            r == (CacheEntry { value, created_at: now, access_count: 1u64 }),
    {
        CacheEntry { value, created_at: now, access_count: 1 }
    }

    /// Whether the entry's age at time `now` exceeds the time-to-live
    /// `expiration` (in seconds).
    pub open spec fn spec_expired(&self, expiration: u32, now: u64) -> bool {
        now > self.created_at + expiration
    }

    /// Whether the entry has expired by time `now`.
    pub fn is_expired(&self, expiration: u32, now: u64) -> (r: bool)
        ensures
            r == self.spec_expired(expiration, now),
    {
        now > self.created_at && now - self.created_at > expiration as u64
    }

    /// Record a read: bump the access counter and hand back a duplicate of
    /// the value.
    pub fn access(&mut self) -> (r: V)
        ensures
            final(self).value == old(self).value,
            final(self).created_at == old(self).created_at,
            final(self).access_count == inc_sat(old(self).access_count),
            cloned(old(self).value, r),
    {
        self.access_count = sat_inc64(self.access_count);
        self.value.clone()
    }
}

/// Entry order used by eviction: earlier creation first, ties broken by the
/// lower access count.
pub open spec fn entry_le<V>(a: CacheEntry<V>, b: CacheEntry<V>) -> bool {
    a.created_at < b.created_at || (a.created_at == b.created_at && a.access_count
        <= b.access_count)
}

/// `j` names an entry of `m` that the eviction order places at least as early
/// as every entry of `m`.
pub open spec fn is_lru<V>(m: Map<Seq<char>, CacheEntry<V>>, j: Seq<char>) -> bool {
    &&& m.contains_key(j)
    &&& forall|i: Seq<char>| #[trigger] m.contains_key(i) ==> entry_le(m[j], m[i])
}

/// No two slots of the backing vector hold the same key.
spec fn keys_unique<V>(s: Seq<(String, CacheEntry<V>)>) -> bool {
    forall|i: int, j: int|
        0 <= i < j < s.len() ==> (#[trigger] s[i]).0@ != (#[trigger] s[j]).0@
}

/// The mapping that a key/entry vector represents; later slots win, though
/// under [`keys_unique`] there is nothing to win over.
spec fn map_of<V>(s: Seq<(String, CacheEntry<V>)>) -> Map<Seq<char>, CacheEntry<V>>
    decreases s.len(),
{
    if s.len() == 0 {
        Map::empty()
    } else {
        map_of(s.drop_last()).insert(s.last().0@, s.last().1)
    }
}

proof fn lemma_map_of_contains<V>(s: Seq<(String, CacheEntry<V>)>, k: Seq<char>)
    ensures
        map_of(s).contains_key(k) <==> exists|i: int| 0 <= i < s.len() && (#[trigger] s[i]).0@ == k,
    decreases s.len(),
{
    if s.len() > 0 {
        let t = s.drop_last();
        lemma_map_of_contains(t, k);
        if map_of(s).contains_key(k) {
            if s.last().0@ == k {
                assert((s[s.len() - 1]).0@ == k);
            } else {
                let i = choose|i: int| 0 <= i < t.len() && (#[trigger] t[i]).0@ == k;
                assert((s[i]).0@ == k);
            }
        }
        if exists|i: int| 0 <= i < s.len() && (#[trigger] s[i]).0@ == k {
            let i = choose|i: int| 0 <= i < s.len() && (#[trigger] s[i]).0@ == k;
            if i < s.len() - 1 {
                assert((t[i]).0@ == k);
            }
        }
    }
}

proof fn lemma_map_of_index<V>(s: Seq<(String, CacheEntry<V>)>, i: int)
    requires
        keys_unique(s),
        0 <= i < s.len(),
    ensures
        map_of(s).contains_key((s[i]).0@),
        map_of(s)[(s[i]).0@] == (s[i]).1,
    decreases s.len(),
{
    let t = s.drop_last();
    if i < s.len() - 1 {
        assert(keys_unique(t));
        lemma_map_of_index(t, i);
        assert((s[i]).0@ != s.last().0@);
    }
}

proof fn lemma_keys_unique_remove<V>(s: Seq<(String, CacheEntry<V>)>, i: int)
    requires
        keys_unique(s),
        0 <= i < s.len(),
    ensures
        keys_unique(s.remove(i)),
{
    let s2 = s.remove(i);
    assert forall|a: int, b: int|
        0 <= a < b < s2.len() implies (#[trigger] s2[a]).0@ != (#[trigger] s2[b]).0@ by {
        let a0 = if a < i { a } else { a + 1 };
        let b0 = if b < i { b } else { b + 1 };
        assert(s2[a] == s[a0]);
        assert(s2[b] == s[b0]);
    }
}

proof fn lemma_map_of_remove<V>(s: Seq<(String, CacheEntry<V>)>, i: int)
    requires
        keys_unique(s),
        0 <= i < s.len(),
    ensures
        keys_unique(s.remove(i)),
        map_of(s.remove(i)) == map_of(s).remove((s[i]).0@),
    decreases s.len(),
{
    lemma_keys_unique_remove(s, i);
    let s2 = s.remove(i);
    let t = s.drop_last();
    let k = (s[i]).0@;
    assert(keys_unique(t));
    if i == s.len() - 1 {
        assert(s2 =~= t);
        lemma_map_of_contains(t, k);
        if map_of(t).contains_key(k) {
            let j = choose|j: int| 0 <= j < t.len() && (#[trigger] t[j]).0@ == k;
            assert((s[j]).0@ == (s[s.len() - 1]).0@);
            assert(false);
        }
        assert(map_of(s).remove(k) =~= map_of(t));
    } else {
        lemma_map_of_remove(t, i);
        assert(s2.drop_last() =~= t.remove(i));
        assert(s2.last() == s.last());
        assert((s[i]).0@ != (s[s.len() - 1]).0@);
        assert(map_of(s2) == map_of(t.remove(i)).insert(s.last().0@, s.last().1));
        assert(map_of(t).remove(k).insert(s.last().0@, s.last().1) =~= map_of(t).insert(
            s.last().0@,
            s.last().1,
        ).remove(k));
    }
}

proof fn lemma_map_of_update<V>(
    s: Seq<(String, CacheEntry<V>)>,
    i: int,
    p: (String, CacheEntry<V>),
)
    requires
        keys_unique(s),
        0 <= i < s.len(),
        p.0@ == (s[i]).0@,
    ensures
        keys_unique(s.update(i, p)),
        map_of(s.update(i, p)) == map_of(s).insert(p.0@, p.1),
    decreases s.len(),
{
    let s2 = s.update(i, p);
    assert forall|a: int, b: int|
        0 <= a < b < s2.len() implies (#[trigger] s2[a]).0@ != (#[trigger] s2[b]).0@ by {
        assert((s2[a]).0@ == (s[a]).0@);
        assert((s2[b]).0@ == (s[b]).0@);
    }
    let t = s.drop_last();
    if i == s.len() - 1 {
        assert(s2.drop_last() =~= t);
        assert(s2.last() == p);
        assert(map_of(t).insert(s.last().0@, s.last().1).insert(p.0@, p.1) =~= map_of(t).insert(
            p.0@,
            p.1,
        ));
    } else {
        assert(keys_unique(t));
        lemma_map_of_update(t, i, p);
        assert(s2.drop_last() =~= t.update(i, p));
        assert(s2.last() == s.last());
        assert((s[i]).0@ != (s[s.len() - 1]).0@);
        assert(map_of(s2) == map_of(t.update(i, p)).insert(s.last().0@, s.last().1));
        assert(map_of(t).insert(p.0@, p.1).insert(s.last().0@, s.last().1) =~= map_of(t).insert(
            s.last().0@,
            s.last().1,
        ).insert(p.0@, p.1));
    }
}

proof fn lemma_map_of_push<V>(s: Seq<(String, CacheEntry<V>)>, p: (String, CacheEntry<V>))
    requires
        keys_unique(s),
        forall|i: int| 0 <= i < s.len() ==> (#[trigger] s[i]).0@ != p.0@,
    ensures
        keys_unique(s.push(p)),
        map_of(s.push(p)) == map_of(s).insert(p.0@, p.1),
{
    let s2 = s.push(p);
    assert forall|a: int, b: int|
        0 <= a < b < s2.len() implies (#[trigger] s2[a]).0@ != (#[trigger] s2[b]).0@ by {
        if b < s.len() {
            assert(s2[a] == s[a]);
            assert(s2[b] == s[b]);
        } else {
            assert(s2[a] == s[a]);
            assert(s2[b] == p);
        }
    }
    assert(s2.drop_last() =~= s);
    assert(s2.last() == p);
}

proof fn lemma_filter_singleton<A>(x: A, pred: spec_fn(A) -> bool)
    ensures
        pred(x) ==> seq![x].filter(pred) == seq![x],
        !pred(x) ==> seq![x].filter(pred) == Seq::<A>::empty(),
{
    reveal(Seq::filter);
    let s = seq![x];
    assert(s.drop_last() =~= Seq::<A>::empty());
    assert(s.drop_last().filter(pred) == Seq::<A>::empty().filter(pred));
    assert(Seq::<A>::empty().filter(pred) == Seq::<A>::empty());
    assert(s.last() == x);
    if pred(x) {
        assert(s.filter(pred) == s.drop_last().filter(pred).push(x));
        assert(Seq::<A>::empty().push(x) =~= s);
    }
}

proof fn lemma_map_of_filter<V>(
    s: Seq<(String, CacheEntry<V>)>,
    pred: spec_fn((String, CacheEntry<V>)) -> bool,
    epred: spec_fn(CacheEntry<V>) -> bool,
)
    requires
        keys_unique(s),
        forall|p: (String, CacheEntry<V>)| #[trigger] pred(p) == epred(p.1),
    ensures
        keys_unique(s.filter(pred)),
        forall|k: Seq<char>|
            #[trigger] map_of(s.filter(pred)).contains_key(k) <==> map_of(s).contains_key(k)
                && epred(map_of(s)[k]),
        forall|k: Seq<char>|
            #[trigger] map_of(s.filter(pred)).contains_key(k) ==> map_of(s.filter(pred))[k]
                == map_of(s)[k],
    decreases s.len(),
{
    reveal(Seq::filter);
    if s.len() == 0 {
    } else {
        let t = s.drop_last();
        assert(keys_unique(t));
        lemma_map_of_filter(t, pred, epred);
        let fs = s.filter(pred);
        let ft = t.filter(pred);
        let lk = s.last().0@;
        let lv = s.last().1;
        lemma_map_of_contains(t, lk);
        if map_of(t).contains_key(lk) {
            let j = choose|j: int| 0 <= j < t.len() && (#[trigger] t[j]).0@ == lk;
            assert((s[j]).0@ == (s[s.len() - 1]).0@);
            assert(false);
        }
        lemma_map_of_index(s, s.len() - 1);
        if pred(s.last()) {
            assert(fs == ft.push(s.last()));
            assert forall|i: int| 0 <= i < ft.len() implies (#[trigger] ft[i]).0@ != lk by {
                assert(keys_unique(ft));
                lemma_map_of_index(ft, i);
                lemma_map_of_contains(ft, (ft[i]).0@);
            }
            lemma_map_of_push(ft, s.last());
            assert forall|k: Seq<char>| #[trigger] map_of(fs).contains_key(k) implies map_of(
                s,
            ).contains_key(k) && epred(map_of(s)[k]) by {
                if k != lk {
                    assert(map_of(ft).contains_key(k));
                }
            }
            assert forall|k: Seq<char>|
                map_of(s).contains_key(k) && epred(map_of(s)[k]) implies #[trigger] map_of(
                fs,
            ).contains_key(k) by {
                if k != lk {
                    assert(map_of(t).contains_key(k));
                }
            }
        } else {
            assert(fs == ft);
            assert forall|k: Seq<char>| #[trigger] map_of(fs).contains_key(k) implies map_of(
                s,
            ).contains_key(k) && epred(map_of(s)[k]) by {
                assert(map_of(t).contains_key(k));
                assert(k != lk);
            }
            assert forall|k: Seq<char>|
                map_of(s).contains_key(k) && epred(map_of(s)[k]) implies #[trigger] map_of(
                fs,
            ).contains_key(k) by {
                if k == lk {
                    assert(epred(lv));
                    assert(!pred(s.last()));
                    assert(false);
                } else {
                    assert(map_of(t).contains_key(k));
                }
            }
        }
    }
}

/// The statistics after one hit.
pub open spec fn with_hit(s: CacheStats) -> CacheStats {
    CacheStats {
        hits: inc_sat(s.hits),
        misses: s.misses,
        inserts: s.inserts,
        removes: s.removes,
        cleanups: s.cleanups,
    }
}

/// The statistics after one miss.
pub open spec fn with_miss(s: CacheStats) -> CacheStats {
    CacheStats {
        hits: s.hits,
        misses: inc_sat(s.misses),
        inserts: s.inserts,
        removes: s.removes,
        cleanups: s.cleanups,
    }
}

/// The statistics after one removal.
pub open spec fn with_remove(s: CacheStats) -> CacheStats {
    CacheStats {
        hits: s.hits,
        misses: s.misses,
        inserts: s.inserts,
        removes: inc_sat(s.removes),
        cleanups: s.cleanups,
    }
}

/// The in-memory cache: a capacity- and time-bounded mapping from string
/// keys to timestamped entries, with activity counters.
///
/// The store owns its state; shared use goes through a caller-side lock. Its
/// abstract value (`self@`) is the mapping from key characters to entries.
/// Operations that consult the clock exist in two forms: one taking the
/// current time in seconds as an argument, with an exact contract, and one
/// reading the system clock and delegating to the first.
pub struct InmemoryCache<V> {
    entries: Vec<(String, CacheEntry<V>)>,
    config: CacheConfig,
    stats: CacheStats,
    clock: u64,
}

impl<V> View for InmemoryCache<V> {
    type V = Map<Seq<char>, CacheEntry<V>>;

    closed spec fn view(&self) -> Map<Seq<char>, CacheEntry<V>> {
        map_of(self.entries@)
    }
}

impl<V> InmemoryCache<V> {
    /// The configuration the store was built with.
    pub closed spec fn spec_config(&self) -> CacheConfig {
        self.config
    }

    /// The store's activity counters.
    pub closed spec fn spec_stats(&self) -> CacheStats {
        self.stats
    }

    /// The latest time (seconds) the store has observed; clock readings are
    /// clamped to it so that time never runs backwards within one store.
    pub closed spec fn spec_clock(&self) -> u64 {
        self.clock
    }

    /// The number of entries the store can hold: `max_size`, except that a
    /// store configured with capacity zero still admits the one entry that
    /// an insert stores after eviction finds nothing to remove.
    pub open spec fn spec_cap(&self) -> int {
        if self.spec_config().max_size == 0 {
            1
        } else {
            self.spec_config().max_size as int
        }
    }

    /// Well-formedness: keys are distinct and non-empty, the entry count is
    /// within capacity, and no entry was created after the observed clock.
    pub closed spec fn wf(&self) -> bool {
        &&& keys_unique(self.entries@)
        &&& self.entries@.len() <= self.spec_cap()
        &&& forall|i: int|
            0 <= i < self.entries@.len() ==> (#[trigger] self.entries@[i]).1.created_at
                <= self.clock
        &&& forall|i: int| 0 <= i < self.entries@.len() ==> (#[trigger] self.entries@[i]).0@.len() > 0
    }
}

proof fn lemma_map_of_len<V>(s: Seq<(String, CacheEntry<V>)>)
    requires
        keys_unique(s),
    ensures
        map_of(s).dom().finite(),
        map_of(s).len() == s.len(),
    decreases s.len(),
{
    if s.len() > 0 {
        let t = s.drop_last();
        assert(keys_unique(t));
        lemma_map_of_len(t);
        lemma_map_of_contains(t, s.last().0@);
        if map_of(t).contains_key(s.last().0@) {
            let i = choose|i: int| 0 <= i < t.len() && (#[trigger] t[i]).0@ == s.last().0@;
            assert((s[i]).0@ == (s[s.len() - 1]).0@);
            assert(false);
        }
    }
}

impl<V: Clone> InmemoryCache<V> {
    /// A fresh store with the given configuration: no entries, all counters
    /// zero, no time observed yet.
    pub fn new(config: CacheConfig) -> (r: Self)
        ensures
            r.wf(),
            r@ == Map::<Seq<char>, CacheEntry<V>>::empty(),
            r.spec_stats() == CacheStats::zeroed(),
            r.spec_config() == config,
            r.spec_clock() == 0,
    {
        InmemoryCache {
            entries: Vec::new(),
            config,
            stats: CacheStats::default(),
            clock: 0,
        }
    }

    /// A fresh store with the convenience configuration: kind `"memory"`,
    /// room for 1000 entries, one hour of time-to-live.
    pub fn with_defaults() -> (r: Self)
        ensures
            r.wf(),
            r@ == Map::<Seq<char>, CacheEntry<V>>::empty(),
            r.spec_stats() == CacheStats::zeroed(),
            r.spec_clock() == 0,
            r.spec_config().kind@ == "memory"@,
            r.spec_config().max_size == 1000,
            r.spec_config().expiration == 3600,
    {
        Self::new(
            CacheConfig { kind: "memory".to_owned(), max_size: 1000, expiration: 3600 },
        )
    }

    /// Whether the configuration enables the cache: its kind is `"memory"`.
    /// Advisory only — no store operation consults it.
    pub fn is_enabled(&self) -> (r: bool)
        ensures
            r == (self.spec_config().kind@ == "memory"@),
    {
        let memory: String = "memory".to_owned();
        self.config.kind == memory
    }

    /// The store's configuration.
    pub fn config(&self) -> (r: &CacheConfig)
        ensures
            *r == self.spec_config(),
    {
        &self.config
    }

    /// A snapshot of the activity counters. Always present: the store owns
    /// its statistics, so nothing can fail to be acquired.
    pub fn stats(&self) -> (r: Option<CacheStats>)
        ensures
            r == Some(self.spec_stats()),
    {
        Some(
            CacheStats {
                hits: self.stats.hits,
                misses: self.stats.misses,
                inserts: self.stats.inserts,
                removes: self.stats.removes,
                cleanups: self.stats.cleanups,
            },
        )
    }

    /// The hit rate as a fraction `(hits, hits + misses)`, the denominator
    /// saturating; the rate is the quotient, zero when the denominator is.
    pub fn hit_rate_parts(&self) -> (r: (u64, u64))
        ensures
            r.0 == self.spec_stats().hits,
            r.1 == add_sat(self.spec_stats().hits, self.spec_stats().misses),
    {
        self.stats.hit_rate_parts()
    }

    /// The current number of entries.
    pub fn size(&self) -> (r: usize)
        requires
            self.wf(),
        ensures
            r == self@.len(),
    {
        proof {
            lemma_map_of_len(self.entries@);
        }
        self.entries.len()
    }

    /// The slot holding `key`, if any.
    fn index_of(&self, key: &String) -> (r: Option<usize>)
        ensures
            match r {
                Some(i) => i < self.entries@.len() && self.entries@[i as int].0@ == key@,
                None => forall|i: int|
                    0 <= i < self.entries@.len() ==> (#[trigger] self.entries@[i]).0@ != key@,
            },
    {
        let n = self.entries.len();
        let mut i: usize = 0;
        while i < n
            invariant
                n == self.entries@.len(),
                i <= n,
                forall|j: int| 0 <= j < i ==> (#[trigger] self.entries@[j]).0@ != key@,
            decreases n - i,
        {
            if self.entries[i].0 == *key {
                return Some(i);
            }
            i += 1;
        }
        None
    }

    /// Whether `key` is present, expired or not; the original recency and
    /// statistics are untouched.
    pub fn contains_key(&self, key: &str) -> (r: bool)
        ensures
            r == self@.contains_key(key@),
    {
        let k: String = key.to_owned();
        proof {
            lemma_map_of_contains(self.entries@, k@);
        }
        self.index_of(&k).is_some()
    }

    /// An unordered snapshot of the stored keys: every key once, and nothing
    /// else.
    pub fn keys(&self) -> (r: Vec<String>)
        requires
            self.wf(),
        ensures
            r@.len() == self@.len(),
            forall|i: int| 0 <= i < r@.len() ==> self@.contains_key((#[trigger] r@[i])@),
            forall|k: Seq<char>|
                #[trigger] self@.contains_key(k) ==> exists|i: int|
                    0 <= i < r@.len() && (#[trigger] r@[i])@ == k,
            forall|i: int, j: int| 0 <= i < j < r@.len() ==> (#[trigger] r@[i])@ != (#[trigger] r@[j])@,
    {
        let n = self.entries.len();
        let mut out: Vec<String> = Vec::new();
        let mut i: usize = 0;
        while i < n
            invariant
                n == self.entries@.len(),
                i <= n,
                out@.len() == i,
                forall|j: int| 0 <= j < i ==> (#[trigger] out@[j])@ == self.entries@[j].0@,
            decreases n - i,
        {
            out.push(self.entries[i].0.clone());
            i += 1;
        }
        proof {
            lemma_map_of_len(self.entries@);
            assert forall|i2: int| 0 <= i2 < out@.len() implies self@.contains_key(
                (out@[i2])@,
            ) by {
                lemma_map_of_index(self.entries@, i2);
            }
            assert forall|k: Seq<char>| #[trigger] self@.contains_key(k) implies exists|i2: int|
                0 <= i2 < out@.len() && (#[trigger] out@[i2])@ == k by {
                lemma_map_of_contains(self.entries@, k);
                let i2 = choose|i2: int|
                    0 <= i2 < self.entries@.len() && (#[trigger] self.entries@[i2]).0@ == k;
                assert((out@[i2])@ == k);
            }
        }
        out
    }

    /// The entry as it stands after one successful read.
    pub open spec fn accessed(e: CacheEntry<V>) -> CacheEntry<V> {
        CacheEntry { value: e.value, created_at: e.created_at, access_count: inc_sat(e.access_count) }
    }

    /// The entry a successful insert stores at time `now`.
    pub open spec fn fresh_entry(v: V, now: u64) -> CacheEntry<V> {
        CacheEntry { value: v, created_at: now, access_count: 1u64 }
    }

    /// How a lookup of `k` at time `now` takes `pre` to `post` with result
    /// `r`: an empty key is rejected without any side effect; an expired
    /// entry is removed and counted as a miss; a live entry has its access
    /// counter bumped, is counted as a hit, and a duplicate of its value is
    /// returned; an absent key is counted as a miss.
    pub open spec fn get_post(pre: Self, post: Self, k: Seq<char>, now: u64, r: Option<V>) -> bool {
        if k.len() == 0 {
            &&& post == pre
            &&& r is None
        } else {
            &&& post.spec_config() == pre.spec_config()
            &&& post.spec_clock() == now
            &&& if pre@.contains_key(k) {
                if pre@[k].spec_expired(pre.spec_config().expiration, now) {
                    &&& post@ == pre@.remove(k)
                    &&& post.spec_stats() == with_miss(pre.spec_stats())
                    &&& r is None
                } else {
                    &&& post@ == pre@.insert(k, Self::accessed(pre@[k]))
                    &&& post.spec_stats() == with_hit(pre.spec_stats())
                    &&& r matches Some(v) && cloned(pre@[k].value, v)
                }
            } else {
                &&& post@ == pre@
                &&& post.spec_stats() == with_miss(pre.spec_stats())
                &&& r is None
            }
        }
    }

    /// Look up `key` as of time `now` (seconds). Time must not run backwards
    /// with respect to what the store has already observed.
    pub fn get_at(&mut self, key: &str, now: u64) -> (r: Option<V>)
        requires
            old(self).wf(),
            now >= old(self).spec_clock(),
        ensures
            final(self).wf(),
            Self::get_post(*old(self), *final(self), key@, now, r),
    {
        if key.is_empty() {
            return None;
        }
        let k: String = key.to_owned();
        proof {
            lemma_map_of_contains(self.entries@, k@);
        }
        match self.index_of(&k) {
            None => {
                self.stats.misses = sat_inc64(self.stats.misses);
                self.clock = now;
                None
            }
            Some(i) => {
                proof {
                    lemma_map_of_index(self.entries@, i as int);
                }
                let expiration = self.config.expiration;
                if self.entries[i].1.is_expired(expiration, now) {
                    let ghost pre_entries = self.entries@;
                    proof {
                        lemma_map_of_remove(pre_entries, i as int);
                    }
                    let _dropped = self.entries.remove(i);
                    self.stats.misses = sat_inc64(self.stats.misses);
                    self.clock = now;
                    None
                } else {
                    let ghost pre_entries = self.entries@;
                    let (ks, mut e) = self.entries.remove(i);
                    let v = e.access();
                    let ghost gpair = (ks, e);
                    self.entries.insert(i, (ks, e));
                    proof {
                        assert(self.entries@ =~= pre_entries.update(i as int, gpair));
                        lemma_map_of_update(pre_entries, i as int, gpair);
                    }
                    self.stats.hits = sat_inc64(self.stats.hits);
                    self.clock = now;
                    Some(v)
                }
            }
        }
    }

    /// Remove one entry that the eviction order places earliest, provided
    /// the store is at or over its configured capacity; below capacity, or
    /// with nothing stored, this does nothing. Never fails.
    fn evict_lru(&mut self) -> (r: Result<(), CacheError>)
        requires
            old(self).wf(),
        ensures
            final(self).wf(),
            r is Ok,
            final(self).spec_config() == old(self).spec_config(),
            final(self).spec_clock() == old(self).spec_clock(),
            final(self).spec_stats().hits == old(self).spec_stats().hits,
            final(self).spec_stats().misses == old(self).spec_stats().misses,
            final(self).spec_stats().inserts == old(self).spec_stats().inserts,
            final(self).spec_stats().cleanups == old(self).spec_stats().cleanups,
            if old(self)@.len() < old(self).spec_config().max_size as int || old(self)@.len()
                == 0 {
                *final(self) == *old(self)
            } else {
                exists|j: Seq<char>|
                    #[trigger] is_lru(old(self)@, j) && final(self)@ == old(self)@.remove(j)
                        && final(self).spec_stats().removes == inc_sat(
                        old(self).spec_stats().removes,
                    )
            },
    {
        proof {
            lemma_map_of_len(self.entries@);
        }
        if self.entries.len() < self.config.max_size as usize {
            return Ok(());
        }
        if self.entries.len() == 0 {
            return Ok(());
        }
        let n = self.entries.len();
        let mut best: usize = 0;
        let mut i: usize = 1;
        while i < n
            invariant
                n == self.entries@.len(),
                0 < n,
                best < i,
                i <= n,
                forall|j: int|
                    0 <= j < i ==> entry_le(
                        self.entries@[best as int].1,
                        (#[trigger] self.entries@[j]).1,
                    ),
            decreases n - i,
        {
            let better = self.entries[i].1.created_at < self.entries[best].1.created_at || (
            self.entries[i].1.created_at == self.entries[best].1.created_at
                && self.entries[i].1.access_count < self.entries[best].1.access_count);
            if better {
                best = i;
            }
            i += 1;
        }
        proof {
            let s = self.entries@;
            let bk = (s[best as int]).0@;
            lemma_map_of_index(s, best as int);
            assert forall|kk: Seq<char>| #[trigger] map_of(s).contains_key(kk) implies entry_le(
                map_of(s)[bk],
                map_of(s)[kk],
            ) by {
                lemma_map_of_contains(s, kk);
                let j = choose|j: int| 0 <= j < s.len() && (#[trigger] s[j]).0@ == kk;
                lemma_map_of_index(s, j);
            }
            assert(is_lru(map_of(s), bk));
            lemma_map_of_remove(s, best as int);
        }
        let _victim = self.entries.remove(best);
        self.stats.removes = sat_inc64(self.stats.removes);
        Ok(())
    }

    /// How an insert of `k` at time `now` takes `pre` to `post` with result
    /// `r`: an empty key fails with `InvalidKey` and no side effect.
    /// Otherwise a fresh entry replaces whatever `k` held, the insert is
    /// counted, and — only when `k` is new and the store full — one entry
    /// that the eviction order places earliest is removed first and counted.
    pub open spec fn insert_post(
        pre: Self,
        post: Self,
        k: Seq<char>,
        v: V,
        now: u64,
        r: Result<(), CacheError>,
    ) -> bool {
        if k.len() == 0 {
            &&& post == pre
            &&& r matches Err(e) && e matches CacheError::InvalidKey(m) && m@
                == "Key cannot be empty"@
        } else {
            &&& post.spec_config() == pre.spec_config()
            &&& post.spec_clock() == now
            &&& r is Ok
            &&& post.spec_stats().inserts == inc_sat(pre.spec_stats().inserts)
            &&& post.spec_stats().hits == pre.spec_stats().hits
            &&& post.spec_stats().misses == pre.spec_stats().misses
            &&& post.spec_stats().cleanups == pre.spec_stats().cleanups
            &&& if pre@.contains_key(k) || pre@.len() < pre.spec_config().max_size as int
                || pre@.len() == 0 {
                &&& post@ == pre@.insert(k, Self::fresh_entry(v, now))
                &&& post.spec_stats().removes == pre.spec_stats().removes
            } else {
                exists|j: Seq<char>|
                    #[trigger] is_lru(pre@, j) && j != k && post@ == pre@.remove(j).insert(
                        k,
                        Self::fresh_entry(v, now),
                    ) && post.spec_stats().removes == inc_sat(pre.spec_stats().removes)
            }
        }
    }

    /// Store `value` under `key` as of time `now` (seconds), evicting first
    /// if the store is full and `key` is new.
    pub fn insert_at(&mut self, key: String, value: V, now: u64) -> (r: Result<(), CacheError>)
        requires
            old(self).wf(),
            now >= old(self).spec_clock(),
        ensures
            final(self).wf(),
            Self::insert_post(*old(self), *final(self), key@, value, now, r),
    {
        if key.as_str().is_empty() {
            return Err(CacheError::InvalidKey("Key cannot be empty".to_owned()));
        }
        proof {
            lemma_map_of_contains(self.entries@, key@);
            lemma_map_of_len(self.entries@);
        }
        match self.index_of(&key) {
            Some(i) => {
                let ghost pre_entries = self.entries@;
                let (ks, _replaced) = self.entries.remove(i);
                let e = CacheEntry::new(value, now);
                let ghost gpair = (ks, e);
                self.entries.insert(i, (ks, e));
                proof {
                    assert(self.entries@ =~= pre_entries.update(i as int, gpair));
                    lemma_map_of_update(pre_entries, i as int, gpair);
                }
                self.stats.inserts = sat_inc64(self.stats.inserts);
                self.clock = now;
                Ok(())
            }
            None => {
                if self.entries.len() >= self.config.max_size as usize {
                    match self.evict_lru() {
                        Ok(_) => {}
                        Err(e) => {
                            return Err(e);
                        }
                    }
                }
                proof {
                    lemma_map_of_contains(self.entries@, key@);
                    lemma_map_of_len(self.entries@);
                }
                let ghost pre2 = self.entries@;
                let e = CacheEntry::new(value, now);
                let ghost gpair = (key, e);
                self.entries.push((key, e));
                proof {
                    lemma_map_of_push(pre2, gpair);
                }
                self.stats.inserts = sat_inc64(self.stats.inserts);
                self.clock = now;
                Ok(())
            }
        }
    }

    /// How a removal of `k` takes `pre` to `post` with result `r`: an empty
    /// or absent key does nothing; a present key's entry is deleted, the
    /// removal counted, and the stored value handed back.
    pub open spec fn remove_post(pre: Self, post: Self, k: Seq<char>, r: Option<V>) -> bool {
        if k.len() == 0 || !pre@.contains_key(k) {
            &&& post == pre
            &&& r is None
        } else {
            &&& post.spec_config() == pre.spec_config()
            &&& post.spec_clock() == pre.spec_clock()
            &&& post@ == pre@.remove(k)
            &&& post.spec_stats() == with_remove(pre.spec_stats())
            &&& r == Some(pre@[k].value)
        }
    }

    /// Delete `key`'s entry, if present, and hand back its value. Expiration
    /// is not consulted; no clock is read.
    pub fn remove(&mut self, key: &str) -> (r: Option<V>)
        requires
            old(self).wf(),
        ensures
            final(self).wf(),
            Self::remove_post(*old(self), *final(self), key@, r),
    {
        if key.is_empty() {
            return None;
        }
        let k: String = key.to_owned();
        proof {
            lemma_map_of_contains(self.entries@, k@);
        }
        match self.index_of(&k) {
            None => None,
            Some(i) => {
                proof {
                    lemma_map_of_index(self.entries@, i as int);
                    lemma_map_of_remove(self.entries@, i as int);
                }
                let (_ks, e) = self.entries.remove(i);
                self.stats.removes = sat_inc64(self.stats.removes);
                Some(e.value)
            }
        }
    }

    /// Delete every entry and reset every counter to zero.
    pub fn clear(&mut self)
        requires
            old(self).wf(),
        ensures
            final(self).wf(),
            final(self)@ == Map::<Seq<char>, CacheEntry<V>>::empty(),
            final(self).spec_stats() == CacheStats::zeroed(),
            final(self).spec_config() == old(self).spec_config(),
            final(self).spec_clock() == old(self).spec_clock(),
    {
        self.entries.clear();
        self.stats = CacheStats::default();
    }

    /// How a cleanup pass at time `now` takes `pre` to `post`: every entry
    /// older than the time-to-live is removed and nothing else changes; the
    /// removals are counted, and the pass itself is counted exactly when it
    /// removed something.
    pub open spec fn cleanup_post(pre: Self, post: Self, now: u64) -> bool {
        &&& post.spec_config() == pre.spec_config()
        &&& post.spec_clock() == now
        &&& forall|k: Seq<char>|
            #![trigger post@.contains_key(k)]
            #![trigger pre@.contains_key(k)]
            post@.contains_key(k) <==> pre@.contains_key(k) && !pre@[k].spec_expired(
                pre.spec_config().expiration,
                now,
            )
        &&& forall|k: Seq<char>| #[trigger] post@.contains_key(k) ==> post@[k] == pre@[k]
        &&& post@.len() <= pre@.len()
        &&& post.spec_stats().hits == pre.spec_stats().hits
        &&& post.spec_stats().misses == pre.spec_stats().misses
        &&& post.spec_stats().inserts == pre.spec_stats().inserts
        &&& post.spec_stats().removes == add_sat(
            pre.spec_stats().removes,
            (pre@.len() - post@.len()) as u64,
        )
        &&& post.spec_stats().cleanups == if post@.len() < pre@.len() {
            inc_sat(pre.spec_stats().cleanups)
        } else {
            pre.spec_stats().cleanups
        }
    }

    /// Remove every entry whose age at time `now` (seconds) exceeds the
    /// time-to-live.
    pub fn cleanup_expired_entries(&mut self, now: u64)
        requires
            old(self).wf(),
            now >= old(self).spec_clock(),
        ensures
            final(self).wf(),
            Self::cleanup_post(*old(self), *final(self), now),
    {
        let expiration = self.config.expiration;
        let ghost pre_entries = self.entries@;
        let ghost pred = |p: (String, CacheEntry<V>)| !p.1.spec_expired(expiration, now);
        let ghost epred = |e: CacheEntry<V>| !e.spec_expired(expiration, now);
        proof {
            reveal(Seq::filter);
            assert(pre_entries.take(0).filter(pred) =~= Seq::<(String, CacheEntry<V>)>::empty());
            assert(self.entries@.take(0) =~= Seq::<(String, CacheEntry<V>)>::empty());
            assert(self.entries@.skip(0) =~= pre_entries.skip(0));
        }
        let pre_len = self.entries.len();
        let mut i: usize = 0;
        while i < self.entries.len()
            invariant
                self.config == old(self).config,
                self.stats == old(self).stats,
                self.clock == old(self).clock,
                expiration == self.config.expiration,
                pred == (|p: (String, CacheEntry<V>)| !p.1.spec_expired(expiration, now)),
                pre_len == pre_entries.len(),
                i <= self.entries@.len(),
                self.entries@.len() <= pre_entries.len(),
                self.entries@.take(i as int) == pre_entries.take(
                    i + pre_entries.len() - self.entries@.len(),
                ).filter(pred),
                self.entries@.skip(i as int) == pre_entries.skip(
                    i + pre_entries.len() - self.entries@.len(),
                ),
            decreases self.entries@.len() - i,
        {
            let ghost s_before = self.entries@;
            let ghost j0 = i + pre_entries.len() - s_before.len();
            proof {
                assert(s_before.skip(i as int)[0] == pre_entries.skip(j0)[0]);
                assert(s_before[i as int] == pre_entries[j0]);
            }
            if self.entries[i].1.is_expired(expiration, now) {
                let _dropped = self.entries.remove(i);
                proof {
                    let x = pre_entries[j0];
                    assert(pre_entries.take(j0 + 1) =~= pre_entries.take(j0) + seq![x]);
                    Seq::filter_distributes_over_add(pre_entries.take(j0), seq![x], pred);
                    lemma_filter_singleton(x, pred);
                    assert(pre_entries.take(j0 + 1).filter(pred) =~= pre_entries.take(j0).filter(
                        pred,
                    ));
                    assert(self.entries@.take(i as int) =~= s_before.take(i as int));
                    assert forall|m: int|
                        0 <= m < s_before.skip(i as int + 1).len() implies #[trigger] s_before.skip(
                        i as int + 1,
                    )[m] == pre_entries.skip(j0 + 1)[m] by {
                        assert(s_before.skip(i as int)[m + 1] == pre_entries.skip(j0)[m + 1]);
                    }
                    assert(s_before.skip(i as int + 1) =~= pre_entries.skip(j0 + 1));
                    assert forall|m: int|
                        0 <= m < self.entries@.skip(i as int).len() implies #[trigger] self.entries@.skip(
                        i as int,
                    )[m] == s_before.skip(i as int + 1)[m] by {
                        assert(self.entries@[i + m] == s_before.remove(i as int)[i + m]);
                    }
                    assert(self.entries@.skip(i as int) =~= s_before.skip(i as int + 1));
                }
            } else {
                i += 1;
                proof {
                    let x = pre_entries[j0];
                    assert(pred(x));
                    assert(pre_entries.take(j0 + 1) =~= pre_entries.take(j0) + seq![x]);
                    Seq::filter_distributes_over_add(pre_entries.take(j0), seq![x], pred);
                    lemma_filter_singleton(x, pred);
                    assert(pre_entries.take(j0 + 1).filter(pred) =~= pre_entries.take(j0).filter(
                        pred,
                    ) + seq![x]);
                    assert(self.entries@.take(i as int) =~= self.entries@.take(i as int - 1) + seq![
                        x,
                    ]);
                    assert forall|m: int|
                        0 <= m < self.entries@.skip(i as int).len() implies #[trigger] self.entries@.skip(
                        i as int,
                    )[m] == pre_entries.skip(j0 + 1)[m] by {
                        assert(self.entries@.skip(i as int - 1)[m + 1] == pre_entries.skip(j0)[m
                            + 1]);
                    }
                    assert(self.entries@.skip(i as int) =~= pre_entries.skip(j0 + 1));
                }
            }
        }
        let removed = pre_len - self.entries.len();
        proof {
            assert(self.entries@.take(i as int) =~= self.entries@);
            assert(i + pre_entries.len() - self.entries@.len() == pre_entries.len());
            assert(pre_entries.take(pre_entries.len() as int) =~= pre_entries);
            assert(self.entries@ == pre_entries.filter(pred));
            assert forall|p: (String, CacheEntry<V>)| #[trigger] pred(p) == epred(p.1) by {}
            lemma_map_of_filter(pre_entries, pred, epred);
            lemma_map_of_len(pre_entries);
            lemma_map_of_len(self.entries@);
            assert forall|m: int| 0 <= m < self.entries@.len() implies (
            #[trigger] self.entries@[m]).1.created_at <= now && (self.entries@[m]).0@.len()
                > 0 by {
                lemma_map_of_index(self.entries@, m);
                let k = (self.entries@[m]).0@;
                lemma_map_of_contains(pre_entries, k);
                let ii = choose|ii: int|
                    0 <= ii < pre_entries.len() && (#[trigger] pre_entries[ii]).0@ == k;
                lemma_map_of_index(pre_entries, ii);
            }
        }
        if removed > 0 {
            self.stats.cleanups = sat_inc64(self.stats.cleanups);
            self.stats.removes = sat_add64(self.stats.removes, removed as u64);
        }
        self.clock = now;
    }

    /// The observed current time: the system clock, clamped so it never runs
    /// behind what the store has already seen.
    fn now_clamped(&self) -> (r: u64)
        ensures
            r >= self.spec_clock(),
    {
        let raw = clock_seconds();
        if raw < self.clock {
            self.clock
        } else {
            raw
        }
    }

    /// Look up `key` as of the system clock: for some observed time `now`
    /// not before anything the store has seen, the lookup behaves exactly as
    /// [`InmemoryCache::get_at`] at `now`.
    pub fn get(&mut self, key: &str) -> (r: Option<V>)
        requires
            old(self).wf(),
        ensures
            final(self).wf(),
            exists|now: u64|
                now >= old(self).spec_clock() && #[trigger] Self::get_post(
                    *old(self),
                    *final(self),
                    key@,
                    now,
                    r,
                ),
    {
        let now = self.now_clamped();
        self.get_at(key, now)
    }

    /// Store `value` under `key` as of the system clock: for some observed
    /// time `now` not before anything the store has seen, the insert behaves
    /// exactly as [`InmemoryCache::insert_at`] at `now`.
    pub fn insert(&mut self, key: String, value: V) -> (r: Result<(), CacheError>)
        requires
            old(self).wf(),
        ensures
            final(self).wf(),
            exists|now: u64|
                now >= old(self).spec_clock() && #[trigger] Self::insert_post(
                    *old(self),
                    *final(self),
                    key@,
                    value,
                    now,
                    r,
                ),
    {
        let now = self.now_clamped();
        self.insert_at(key, value, now)
    }

    /// Run a cleanup pass as of the system clock: for some observed time
    /// `now` not before anything the store has seen, the pass behaves
    /// exactly as [`InmemoryCache::cleanup_expired_entries`] at `now`.
    pub fn cleanup_expired(&mut self)
        requires
            old(self).wf(),
        ensures
            final(self).wf(),
            exists|now: u64|
                now >= old(self).spec_clock() && #[trigger] Self::cleanup_post(
                    *old(self),
                    *final(self),
                    now,
                ),
    {
        let now = self.now_clamped();
        self.cleanup_expired_entries(now);
    }

    /// Law: an insert of a non-empty key succeeds, and a lookup of that key
    /// immediately after — that is, with nothing in between and within the
    /// time-to-live — returns the value just stored. Eviction never removes
    /// the key being inserted, so no capacity condition is needed.
    pub proof fn lemma_insert_then_get(
        pre: Self,
        mid: Self,
        post: Self,
        k: Seq<char>,
        v: V,
        now1: u64,
        now2: u64,
        r1: Result<(), CacheError>,
        r2: Option<V>,
    )
        requires
            k.len() > 0,
            Self::insert_post(pre, mid, k, v, now1, r1),
            Self::get_post(mid, post, k, now2, r2),
            now2 <= now1 + mid.spec_config().expiration,
        ensures
            r1 is Ok,
            r2 matches Some(x) && cloned(v, x),
    {
        assert(mid@.contains_key(k));
        assert(mid@[k] == Self::fresh_entry(v, now1));
    }

    /// Law: inserting a new key into a store holding exactly `max_size`
    /// entries removes exactly one prior entry, so the entry count stays at
    /// `max_size`, and the new key is present afterwards.
    pub proof fn lemma_insert_at_capacity(
        pre: Self,
        post: Self,
        k: Seq<char>,
        v: V,
        now: u64,
        r: Result<(), CacheError>,
    )
        requires
            pre.wf(),
            k.len() > 0,
            !pre@.contains_key(k),
            pre@.len() == pre.spec_config().max_size as int,
            pre@.len() > 0,
            Self::insert_post(pre, post, k, v, now, r),
        ensures
            r is Ok,
            post@.len() == pre@.len(),
            post@.contains_key(k),
            exists|j: Seq<char>|
                #![trigger pre@.contains_key(j)]
                pre@.contains_key(j) && j != k && !post@.contains_key(j),
    {
        lemma_map_of_len(pre.entries@);
        let j = choose|j: Seq<char>|
            #[trigger] is_lru(pre@, j) && j != k && post@ == pre@.remove(j).insert(
                k,
                Self::fresh_entry(v, now),
            ) && post.spec_stats().removes == inc_sat(pre.spec_stats().removes);
        assert(pre@.contains_key(j) && j != k && !post@.contains_key(j));
    }

    /// Law: an entry older than the time-to-live is never served. A lookup
    /// at such a time reports a miss, removes the entry, and leaves its key
    /// out of the entry count.
    pub proof fn lemma_expired_not_served(
        pre: Self,
        post: Self,
        k: Seq<char>,
        now: u64,
        r: Option<V>,
    )
        requires
            pre.wf(),
            pre@.contains_key(k),
            pre@[k].spec_expired(pre.spec_config().expiration, now),
            Self::get_post(pre, post, k, now, r),
        ensures
            r is None,
            !post@.contains_key(k),
            post@.len() == pre@.len() - 1,
    {
        lemma_map_of_contains(pre.entries@, k);
        let i = choose|i: int|
            0 <= i < pre.entries@.len() && (#[trigger] pre.entries@[i]).0@ == k;
        assert(k.len() > 0);
        lemma_map_of_len(pre.entries@);
    }

    /// Law: the hit rate is hits over hits + misses throughout — the pair
    /// `hit_rate_parts` returns, zero on a fresh store — and each lookup of
    /// a non-empty key moves it exactly as its outcome says: the denominator
    /// grows by one (saturating) and the numerator grows exactly on a hit.
    pub proof fn lemma_hit_rate_bookkeeping(
        pre: Self,
        post: Self,
        k: Seq<char>,
        now: u64,
        r: Option<V>,
    )
        requires
            k.len() > 0,
            Self::get_post(pre, post, k, now, r),
        ensures
            r is Some ==> post.spec_stats().hits == inc_sat(pre.spec_stats().hits)
                && post.spec_stats().misses == pre.spec_stats().misses,
            r is None ==> post.spec_stats().misses == inc_sat(pre.spec_stats().misses)
                && post.spec_stats().hits == pre.spec_stats().hits,
            post.spec_stats().inserts == pre.spec_stats().inserts,
            post.spec_stats().removes == pre.spec_stats().removes,
            post.spec_stats().cleanups == pre.spec_stats().cleanups,
    {
    }

    /// Law: a cleanup pass removes exactly the entries older than the
    /// time-to-live; every survivor keeps its entry unchanged, and nothing
    /// appears out of nowhere.
    pub proof fn lemma_cleanup_expired_exact(pre: Self, post: Self, now: u64, k: Seq<char>)
        requires
            Self::cleanup_post(pre, post, now),
        ensures
            pre@.contains_key(k) && pre@[k].spec_expired(pre.spec_config().expiration, now)
                ==> !post@.contains_key(k),
            pre@.contains_key(k) && !pre@[k].spec_expired(pre.spec_config().expiration, now)
                ==> post@.contains_key(k) && post@[k] == pre@[k],
            post@.contains_key(k) ==> pre@.contains_key(k),
    {
    }
}

impl<V: Clone> Default for InmemoryCache<V> {
    fn default() -> (r: Self)
        ensures
            r.wf(),
            r@ == Map::<Seq<char>, CacheEntry<V>>::empty(),
            r.spec_stats() == CacheStats::zeroed(),
            r.spec_clock() == 0,
            r.spec_config().kind@ == "memory"@,
            r.spec_config().max_size == 1000,
            r.spec_config().expiration == 3600,
    {
        Self::with_defaults()
    }
}

} // verus!
