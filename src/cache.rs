use vstd::prelude::*;

use crate::error::LookupError;

verus! {

/// One stored entry: a key, its value, and the instant it was stored.
pub struct CacheEntry {
    pub key: String,
    pub value: i64,
    pub inserted_at: u64,
}

/// The mathematical view of one entry.
pub struct EntryModel {
    pub key: Seq<char>,
    pub value: i64,
    pub inserted_at: nat,
    pub expires_at: nat,
}

/// The mathematical view of a cache: entries in recency order, least recently
/// used first, and the two counters.
pub struct CacheModel {
    pub capacity: nat,
    pub ttl: nat,
    pub entries: Seq<EntryModel>,
    pub hits: nat,
    pub misses: nat,
}

/// A cache of at most `capacity` entries, each live for `ttl` time units after
/// it was stored, evicting the least recently used entry when full.
pub struct LruCache {
    capacity: usize,
    ttl: u64,
    entries: Vec<CacheEntry>,
    hits: u64,
    misses: u64,
}

pub open spec fn entry_model(e: CacheEntry, ttl: nat) -> EntryModel {
    EntryModel {
        key: e.key@,
        value: e.value,
        inserted_at: e.inserted_at as nat,
        expires_at: e.inserted_at as nat + ttl,
    }
}

/// No key occurs twice among the entries.
pub open spec fn keys_distinct(es: Seq<EntryModel>) -> bool {
    forall|i: int, j: int| 0 <= i < es.len() && 0 <= j < es.len() && i != j
        ==> es[i].key != es[j].key
}

/// Whether some entry holds `key`.
pub open spec fn holds_key(es: Seq<EntryModel>, key: Seq<char>) -> bool {
    exists|i: int| 0 <= i < es.len() && es[i].key == key
}

/// The position of the entry holding `key`, or -1 where there is none.
pub open spec fn position_of(es: Seq<EntryModel>, key: Seq<char>) -> int {
    if holds_key(es, key) {
        choose|i: int| 0 <= i < es.len() && es[i].key == key
    } else {
        -1
    }
}

/// A cache in a state that its operations preserve.
pub open spec fn model_wf(m: CacheModel) -> bool {
    &&& m.capacity >= 1
    &&& m.entries.len() <= m.capacity
    &&& keys_distinct(m.entries)
    &&& forall|i: int| 0 <= i < m.entries.len()
        ==> #[trigger] m.entries[i].expires_at == m.entries[i].inserted_at + m.ttl
}

/// A lookup of `key` at `now` is served from the cache: an entry holds the key
/// and has not expired.
pub open spec fn is_hit(m: CacheModel, key: Seq<char>, now: nat) -> bool {
    let i = position_of(m.entries, key);
    i >= 0 && now < m.entries[i].expires_at
}

/// The cache after a hit on `key`: its entry moves to the most recent end.
pub open spec fn promote(m: CacheModel, key: Seq<char>) -> CacheModel {
    let i = position_of(m.entries, key);
    CacheModel { entries: m.entries.remove(i).push(m.entries[i]), hits: m.hits + 1, ..m }
}

/// The entries that stay when a fresh entry for `key` is stored: a stale entry
/// of the same key is dropped; otherwise, in a full cache, the least recently
/// used entry is evicted.
pub open spec fn kept_on_insert(m: CacheModel, key: Seq<char>) -> Seq<EntryModel> {
    let i = position_of(m.entries, key);
    if i >= 0 {
        m.entries.remove(i)
    } else if m.entries.len() >= m.capacity {
        m.entries.subrange(1, m.entries.len() as int)
    } else {
        m.entries
    }
}

/// The cache after a miss on `key` at `now`, given what the data source
/// answered: the miss is counted, and a value is stored as the most recent entry.
pub open spec fn after_miss(
    m: CacheModel,
    key: Seq<char>,
    now: nat,
    fetched: Result<i64, LookupError>,
) -> CacheModel {
    match fetched {
        Ok(v) => CacheModel {
            entries: kept_on_insert(m, key).push(
                EntryModel { key, value: v, inserted_at: now, expires_at: now + m.ttl },
            ),
            misses: m.misses + 1,
            ..m
        },
        Err(_) => CacheModel { misses: m.misses + 1, ..m },
    }
}

/// One lookup of `key` at `now`: the next state and the answer. `fetched` is
/// what the data source answers, consulted on a miss only.
pub open spec fn lookup_step(
    m: CacheModel,
    key: Seq<char>,
    now: nat,
    fetched: Result<i64, LookupError>,
) -> (CacheModel, Result<i64, LookupError>) {
    if is_hit(m, key, now) {
        (promote(m, key), Ok(m.entries[position_of(m.entries, key)].value))
    } else {
        (after_miss(m, key, now, fetched), fetched)
    }
}

impl View for LruCache {
    type V = CacheModel;

    closed spec fn view(&self) -> CacheModel {
        CacheModel {
            capacity: self.capacity as nat,
            ttl: self.ttl as nat,
            entries: self.entries@.map_values(|e: CacheEntry| entry_model(e, self.ttl as nat)),
            hits: self.hits as nat,
            misses: self.misses as nat,
        }
    }
}

impl LruCache {
    pub open spec fn wf(&self) -> bool {
        model_wf(self@)
    }

    /// An empty cache with room for `capacity` entries, each live for `ttl`.
    pub fn new(capacity: usize, ttl: u64) -> (r: LruCache)
        requires
            capacity >= 1,
        ensures
            r.wf(),
            r@.capacity == capacity,
            r@.ttl == ttl,
            r@.entries.len() == 0,
            r@.hits == 0,
            r@.misses == 0,
    {
        LruCache { capacity, ttl, entries: Vec::new(), hits: 0, misses: 0 }
    }

    /// The number of lookups served from the cache.
    pub fn hits(&self) -> (r: u64)
        ensures
            r == self@.hits,
    {
        self.hits
    }

    /// The number of lookups that went to the data source.
    pub fn misses(&self) -> (r: u64)
        ensures
            r == self@.misses,
    {
        self.misses
    }

    /// The number of entries stored, live or expired.
    pub fn len(&self) -> (r: usize)
        ensures
            r == self@.entries.len(),
    {
        self.entries.len()
    }

    /// The most entries the cache holds.
    pub fn capacity(&self) -> (r: usize)
        ensures
            r == self@.capacity,
    {
        self.capacity
    }

    /// Where the entry holding `key` stands, if one does.
    fn find(&self, key: &String) -> (r: Option<usize>)
        requires
            self.wf(),
        ensures
            match r {
                Some(i) => i == position_of(self@.entries, key@) && i < self@.entries.len(),
                None => !holds_key(self@.entries, key@) && position_of(self@.entries, key@) == -1,
            },
    {
        let mut i: usize = 0;
        while i < self.entries.len()
            invariant
                self.wf(),
                i <= self.entries@.len(),
                forall|j: int| 0 <= j < i ==> self@.entries[j].key != key@,
            decreases self.entries@.len() - i,
        {
            if self.entries[i].key.eq(key) {
                assert(self@.entries[i as int].key == key@);
                let ghost p = position_of(self@.entries, key@);
                assert(holds_key(self@.entries, key@));
                assert(p == i as int);
                return Some(i);
            }
            i += 1;
        }
        None
    }

    /// Whether the entry at `i` is still live at `now`.
    fn live_at(&self, i: usize, now: u64) -> (r: bool)
        requires
            self.wf(),
            i < self@.entries.len(),
        ensures
            r == (now < self@.entries[i as int].expires_at),
    {
        let at = self.entries[i].inserted_at;
        now < at || now - at < self.ttl
    }

    /// Serves `key` from the cache if a live entry holds it: counts a hit, makes
    /// the entry the most recently used and returns its value. Otherwise
    /// changes nothing and returns `None`.
    pub fn lookup_cached(&mut self, key: &String, now: u64) -> (r: Option<i64>)
        requires
            old(self).wf(),
            old(self)@.hits + old(self)@.misses < u64::MAX,
        ensures
            final(self).wf(),
            is_hit(old(self)@, key@, now as nat) ==> {
                &&& final(self)@ == promote(old(self)@, key@)
                &&& r == Some(old(self)@.entries[position_of(old(self)@.entries, key@)].value)
            },
            !is_hit(old(self)@, key@, now as nat) ==> final(self)@ == old(self)@ && r is None,
    {
        match self.find(key) {
            Some(i) => {
                if self.live_at(i, now) {
                    let ghost before = self@;
                    let e = self.entries.remove(i);
                    let v = e.value;
                    self.entries.push(e);
                    self.hits = self.hits + 1;
                    assert(self@.entries =~= before.entries.remove(i as int).push(
                        before.entries[i as int],
                    ));
                    proof {
                        lemma_promote_keeps_wf(before, key@);
                    }
                    Some(v)
                } else {
                    None
                }
            },
            None => None,
        }
    }

    /// Records a miss on `key` at `now`, given what the data source answered:
    /// counts the miss and, on a value, stores it as the most recently used
    /// entry, dropping a stale entry of the same key or, in a full cache, the
    /// least recently used one. Returns the answer.
    pub fn record_miss(
        &mut self,
        key: &String,
        fetched: Result<i64, LookupError>,
        now: u64,
    ) -> (r: Result<i64, LookupError>)
        requires
            old(self).wf(),
            old(self)@.hits + old(self)@.misses < u64::MAX,
        ensures
            final(self).wf(),
            final(self)@ == after_miss(old(self)@, key@, now as nat, fetched),
            r == fetched,
    {
        let ghost before = self@;
        self.misses = self.misses + 1;
        match fetched {
            Ok(v) => {
                let ghost kept = kept_on_insert(before, key@);
                match self.find(key) {
                    Some(i) => {
                        self.entries.remove(i);
                    },
                    None => {
                        if self.entries.len() >= self.capacity {
                            self.entries.remove(0);
                        }
                    },
                }
                assert(self@.entries =~= kept);
                self.entries.push(CacheEntry { key: key.clone(), value: v, inserted_at: now });
                assert(self@.entries =~= kept.push(
                    EntryModel { key: key@, value: v, inserted_at: now as nat, expires_at: now as nat + before.ttl },
                ));
                proof {
                    lemma_insert_keeps_wf(before, key@, now as nat, v);
                }
            },
            Err(_) => {},
        }
        assert(self@ =~= after_miss(before, key@, now as nat, fetched));
        fetched
    }

    /// Looks `key` up at `now`: from the cache when a live entry holds it (a
    /// hit), else from `source` (a miss), whose value is then cached.
    pub fn get<F>(&mut self, key: &String, now: u64, source: &F) -> (r: Result<i64, LookupError>) where
        F: Fn(&String) -> Result<i64, LookupError>,

        requires
            old(self).wf(),
            old(self)@.hits + old(self)@.misses < u64::MAX,
            forall|k: &String| source.requires((k,)),
        ensures
            final(self).wf(),
            (final(self)@, r) == lookup_step(old(self)@, key@, now as nat, r),
            !is_hit(old(self)@, key@, now as nat) ==> source.ensures((key,), r),
            final(self)@.entries.len() <= final(self)@.capacity,
            final(self)@.capacity == old(self)@.capacity,
            !is_hit(old(self)@, key@, now as nat) && r is Ok && old(self)@.entries.len()
                == old(self)@.capacity && !holds_key(old(self)@.entries, key@)
                ==> final(self)@.entries == old(self)@.entries.subrange(
                1,
                old(self)@.entries.len() as int,
            ).push(
                EntryModel {
                    key: key@,
                    value: r->Ok_0,
                    inserted_at: now as nat,
                    expires_at: now as nat + old(self)@.ttl,
                },
            ),
            !is_hit(old(self)@, key@, now as nat) && r is Ok ==> forall|t: nat|
                now <= t < now + old(self)@.ttl ==> #[trigger] is_hit(final(self)@, key@, t)
                    && final(self)@.entries[position_of(final(self)@.entries, key@)].value == r->Ok_0,
    {
        let ghost before = self@;
        let r = match self.lookup_cached(key, now) {
            Some(v) => Ok(v),
            None => {
                let fetched = source(key);
                self.record_miss(key, fetched, now)
            },
        };
        proof {
            crate::cache_laws::lemma_lookup_respects_capacity(before, key@, now as nat, r);
            if !is_hit(before, key@, now as nat) && r is Ok {
                let v = r->Ok_0;
                assert(r == Ok::<i64, LookupError>(v));
                if before.entries.len() == before.capacity && !holds_key(before.entries, key@) {
                    crate::cache_laws::lemma_full_cache_evicts_least_recent(before, key@, now as nat, v);
                }
                assert forall|t: nat| now <= t < now + before.ttl implies #[trigger] is_hit(self@, key@, t)
                    && self@.entries[position_of(self@.entries, key@)].value == v by {
                    crate::cache_laws::lemma_stored_value_is_served(before, key@, now as nat, v, t, r);
                }
            }
        }
        r
    }
}

/// Moving an entry to the most recent end keeps a cache well formed.
pub proof fn lemma_promote_keeps_wf(m: CacheModel, key: Seq<char>)
    requires
        model_wf(m),
        position_of(m.entries, key) >= 0,
    ensures
        model_wf(promote(m, key)),
{
    let i = position_of(m.entries, key);
    let es = promote(m, key).entries;
    assert forall|a: int, b: int| 0 <= a < es.len() && 0 <= b < es.len() && a != b
        implies es[a].key != es[b].key by {
        let oa = if a == es.len() - 1 { i } else if a < i { a } else { a + 1 };
        let ob = if b == es.len() - 1 { i } else if b < i { b } else { b + 1 };
        assert(es[a] == m.entries[oa]);
        assert(es[b] == m.entries[ob]);
    }
    assert forall|a: int| 0 <= a < es.len() implies #[trigger] es[a].expires_at
        == es[a].inserted_at + m.ttl by {
        let oa = if a == es.len() - 1 { i } else if a < i { a } else { a + 1 };
        assert(es[a] == m.entries[oa]);
    }
}

/// Where the entry at `a` of `kept_on_insert(m, key)` stood before.
spec fn kept_origin(m: CacheModel, key: Seq<char>, a: int) -> int {
    let i = position_of(m.entries, key);
    if i >= 0 {
        if a < i { a } else { a + 1 }
    } else if m.entries.len() >= m.capacity {
        a + 1
    } else {
        a
    }
}

proof fn lemma_kept_origin(m: CacheModel, key: Seq<char>, a: int)
    requires
        model_wf(m),
        0 <= a < kept_on_insert(m, key).len(),
    ensures
        0 <= kept_origin(m, key, a) < m.entries.len(),
        kept_on_insert(m, key)[a] == m.entries[kept_origin(m, key, a)],
        kept_on_insert(m, key)[a].key != key,
{
    let i = position_of(m.entries, key);
    let o = kept_origin(m, key, a);
    if i >= 0 {
        assert(holds_key(m.entries, key));
        assert(m.entries[i].key == key);
        assert(o != i);
    } else {
        assert(!holds_key(m.entries, key));
        assert(m.entries[o].key != key);
    }
}

/// Storing a fresh entry after a miss keeps a cache well formed.
pub proof fn lemma_insert_keeps_wf(m: CacheModel, key: Seq<char>, now: nat, v: i64)
    requires
        model_wf(m),
    ensures
        model_wf(after_miss(m, key, now, Ok(v))),
{
    let kept = kept_on_insert(m, key);
    let es = after_miss(m, key, now, Ok(v)).entries;
    if position_of(m.entries, key) >= 0 {
        assert(holds_key(m.entries, key));
    }
    assert forall|a: int, b: int| 0 <= a < es.len() && 0 <= b < es.len() && a != b
        implies es[a].key != es[b].key by {
        if a < kept.len() {
            lemma_kept_origin(m, key, a);
        }
        if b < kept.len() {
            lemma_kept_origin(m, key, b);
        }
    }
    assert forall|a: int| 0 <= a < es.len() implies #[trigger] es[a].expires_at
        == es[a].inserted_at + m.ttl by {
        if a < kept.len() {
            lemma_kept_origin(m, key, a);
            let o = kept_origin(m, key, a);
            assert(m.entries[o].expires_at == m.entries[o].inserted_at + m.ttl);
        }
    }
}

} // verus!
