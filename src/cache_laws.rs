use vstd::prelude::*;

use crate::cache::{
    after_miss, holds_key, is_hit, keys_distinct, kept_on_insert, lemma_insert_keeps_wf, lemma_promote_keeps_wf,
    lookup_step, model_wf, position_of, promote, CacheModel, EntryModel,
};
use crate::error::LookupError;

verus! {

/// Every lookup keeps a well-formed cache well formed; in particular it never
/// holds more entries than its capacity.
pub proof fn lemma_lookup_respects_capacity(
    m: CacheModel,
    key: Seq<char>,
    now: nat,
    fetched: Result<i64, LookupError>,
)
    requires
        model_wf(m),
    ensures
        model_wf(lookup_step(m, key, now, fetched).0),
        lookup_step(m, key, now, fetched).0.entries.len() <= m.capacity,
        lookup_step(m, key, now, fetched).0.capacity == m.capacity,
{
    if is_hit(m, key, now) {
        lemma_promote_keeps_wf(m, key);
    } else {
        match fetched {
            Ok(v) => lemma_insert_keeps_wf(m, key, now, v),
            Err(_) => {},
        }
    }
}

/// Every lookup counts exactly one hit or exactly one miss.
pub proof fn lemma_lookup_counts_once(
    m: CacheModel,
    key: Seq<char>,
    now: nat,
    fetched: Result<i64, LookupError>,
)
    ensures
        ({
            let n = lookup_step(m, key, now, fetched).0;
            &&& n.hits + n.misses == m.hits + m.misses + 1
            &&& n.hits >= m.hits
            &&& n.misses >= m.misses
            &&& is_hit(m, key, now) ==> n.hits == m.hits + 1
            &&& !is_hit(m, key, now) ==> n.misses == m.misses + 1
        }),
{
}

/// Storing a key that the cache does not hold into a full cache evicts exactly
/// one entry, the least recently used one, and appends the new entry.
pub proof fn lemma_full_cache_evicts_least_recent(
    m: CacheModel,
    key: Seq<char>,
    now: nat,
    v: i64,
)
    requires
        model_wf(m),
        m.entries.len() == m.capacity,
        !holds_key(m.entries, key),
    ensures
        !is_hit(m, key, now),
        lookup_step(m, key, now, Ok(v)).0.entries == m.entries.subrange(1, m.entries.len() as int).push(
            EntryModel { key, value: v, inserted_at: now, expires_at: now + m.ttl },
        ),
        lookup_step(m, key, now, Ok(v)).0.entries.len() == m.entries.len(),
        !holds_key(lookup_step(m, key, now, Ok(v)).0.entries, m.entries[0].key),
{
    let n = lookup_step(m, key, now, Ok(v)).0;
    let first = m.entries[0].key;
    if holds_key(n.entries, first) {
        let j = choose|j: int| 0 <= j < n.entries.len() && n.entries[j].key == first;
        if j < n.entries.len() - 1 {
            assert(n.entries[j] == m.entries[j + 1]);
        } else {
            assert(m.entries[0].key != key);
        }
    }
}

/// The entry that a miss stores is found again: a lookup of the same key
/// before its time to live has passed is a hit with the stored value.
pub proof fn lemma_stored_value_is_served(
    m: CacheModel,
    key: Seq<char>,
    now: nat,
    v: i64,
    later: nat,
    fetched: Result<i64, LookupError>,
)
    requires
        model_wf(m),
        !is_hit(m, key, now),
        later < now + m.ttl,
    ensures
        ({
            let m1 = lookup_step(m, key, now, Ok(v)).0;
            &&& is_hit(m1, key, later)
            &&& lookup_step(m1, key, later, fetched).1 == Ok::<i64, LookupError>(v)
            &&& lookup_step(m1, key, later, fetched).0.hits == m1.hits + 1
        }),
{
    let m1 = lookup_step(m, key, now, Ok(v)).0;
    lemma_insert_keeps_wf(m, key, now, v);
    let last = m1.entries.len() - 1;
    assert(m1.entries[last].key == key);
    assert(holds_key(m1.entries, key));
    assert(position_of(m1.entries, key) == last);
}

/// Once an entry's time to live has passed, a lookup of its key is a miss,
/// though the entry is still stored: the answer is the data source's.
pub proof fn lemma_expired_entry_misses(
    m: CacheModel,
    key: Seq<char>,
    now: nat,
    fetched: Result<i64, LookupError>,
)
    requires
        model_wf(m),
        holds_key(m.entries, key),
        now >= m.entries[position_of(m.entries, key)].inserted_at + m.ttl,
    ensures
        !is_hit(m, key, now),
        lookup_step(m, key, now, fetched).0.misses == m.misses + 1,
        lookup_step(m, key, now, fetched).0.hits == m.hits,
        lookup_step(m, key, now, fetched).1 == fetched,
{
    let i = position_of(m.entries, key);
    assert(m.entries[i].expires_at == m.entries[i].inserted_at + m.ttl);
}

/// The cache after looking up `keys[j]` at `times[j]`, for each `j` in turn,
/// where `answers[j]` is what the data source answers should that lookup miss.
pub open spec fn replay(
    m: CacheModel,
    keys: Seq<Seq<char>>,
    times: Seq<nat>,
    answers: Seq<Result<i64, LookupError>>,
) -> CacheModel
    decreases keys.len(),
{
    if keys.len() == 0 {
        m
    } else {
        let prev = replay(m, keys.drop_last(), times, answers);
        lookup_step(prev, keys.last(), times[keys.len() - 1], answers[keys.len() - 1]).0
    }
}

/// The keys of the entries, in recency order.
pub open spec fn key_seq(es: Seq<EntryModel>) -> Seq<Seq<char>> {
    es.map_values(|e: EntryModel| e.key)
}

/// The first `n` lookups all happen in `[base, base + ttl)`.
pub open spec fn within_window(times: Seq<nat>, n: int, base: nat, ttl: nat) -> bool {
    &&& times.len() >= n
    &&& forall|j: int| 0 <= j < n ==> base <= #[trigger] times[j] < base + ttl
}

/// A replay reads only as many times and answers as there are keys.
pub proof fn lemma_replay_reads_prefix(
    m: CacheModel,
    keys: Seq<Seq<char>>,
    times: Seq<nat>,
    answers: Seq<Result<i64, LookupError>>,
    times2: Seq<nat>,
    answers2: Seq<Result<i64, LookupError>>,
)
    requires
        times.len() >= keys.len(),
        times2.len() >= keys.len(),
        answers.len() >= keys.len(),
        answers2.len() >= keys.len(),
        forall|j: int| 0 <= j < keys.len() ==> times[j] == times2[j] && answers[j] == answers2[j],
    ensures
        replay(m, keys, times, answers) == replay(m, keys, times2, answers2),
    decreases keys.len(),
{
    if keys.len() > 0 {
        lemma_replay_reads_prefix(m, keys.drop_last(), times, answers, times2, answers2);
    }
}

/// One more lookup appended to a run is one more step.
pub proof fn lemma_replay_push(
    m: CacheModel,
    keys: Seq<Seq<char>>,
    times: Seq<nat>,
    answers: Seq<Result<i64, LookupError>>,
    key: Seq<char>,
    now: nat,
    answer: Result<i64, LookupError>,
)
    requires
        times.len() == keys.len(),
        answers.len() == keys.len(),
    ensures
        replay(m, keys.push(key), times.push(now), answers.push(answer)) == lookup_step(
            replay(m, keys, times, answers),
            key,
            now,
            answer,
        ).0,
{
    assert(keys.push(key).drop_last() =~= keys);
    lemma_replay_reads_prefix(m, keys, times.push(now), answers.push(answer), times, answers);
}

proof fn lemma_replay_prefix(
    m: CacheModel,
    keys: Seq<Seq<char>>,
    times: Seq<nat>,
    answers: Seq<Result<i64, LookupError>>,
    p: int,
)
    requires
        0 <= p < keys.len(),
    ensures
        replay(m, keys.subrange(0, p + 1), times, answers) == lookup_step(
            replay(m, keys.subrange(0, p), times, answers),
            keys[p],
            times[p],
            answers[p],
        ).0,
{
    assert(keys.subrange(0, p + 1).drop_last() =~= keys.subrange(0, p));
}

/// Looking up one key again and again, within its time to live and from an
/// empty cache, where the data source answers the first lookup with a value:
/// one miss, and a hit on every later lookup.
pub proof fn lemma_constant_key_misses_once(
    m: CacheModel,
    key: Seq<char>,
    keys: Seq<Seq<char>>,
    times: Seq<nat>,
    answers: Seq<Result<i64, LookupError>>,
    base: nat,
)
    requires
        model_wf(m),
        m.entries.len() == 0,
        m.hits == 0,
        m.misses == 0,
        keys.len() >= 1,
        forall|j: int| 0 <= j < keys.len() ==> #[trigger] keys[j] == key,
        answers.len() >= keys.len(),
        answers[0] is Ok,
        within_window(times, keys.len() as int, base, m.ttl),
    ensures
        replay(m, keys, times, answers).misses == 1,
        replay(m, keys, times, answers).hits == keys.len() - 1,
{
    lemma_replay_prefix(m, keys, times, answers, 0);
    assert(keys.subrange(0, 0) =~= Seq::<Seq<char>>::empty());
    let e = EntryModel { key, value: answers[0]->Ok_0, inserted_at: times[0], expires_at: times[0] + m.ttl };
    let m1 = replay(m, keys.subrange(0, 1), times, answers);
    assert(!holds_key(m.entries, key));
    assert(kept_on_insert(m, key) =~= m.entries);
    assert(m1.entries =~= seq![e]);
    let rest = keys.subrange(1, keys.len() as int);
    let rest_times = times.subrange(1, times.len() as int);
    let rest_answers = answers.subrange(1, answers.len() as int);
    lemma_constant_key_stays(m1, key, rest, rest_times, rest_answers, base, rest.len() as int);
    lemma_replay_split(m, keys, times, answers, 1);
    assert(rest.subrange(0, rest.len() as int) =~= rest);
}

/// A run is its first `p` lookups followed by the others.
pub proof fn lemma_replay_split(
    m: CacheModel,
    keys: Seq<Seq<char>>,
    times: Seq<nat>,
    answers: Seq<Result<i64, LookupError>>,
    p: int,
)
    requires
        0 <= p <= keys.len(),
        times.len() >= keys.len(),
        answers.len() >= keys.len(),
    ensures
        replay(m, keys, times, answers) == replay(
            replay(m, keys.subrange(0, p), times, answers),
            keys.subrange(p, keys.len() as int),
            times.subrange(p, times.len() as int),
            answers.subrange(p, answers.len() as int),
        ),
    decreases keys.len(),
{
    if keys.len() == p {
        assert(keys.subrange(0, p) =~= keys);
        assert(keys.subrange(p, keys.len() as int) =~= Seq::<Seq<char>>::empty());
    } else {
        let short = keys.drop_last();
        lemma_replay_split(m, short, times, answers, p);
        assert(short.subrange(0, p) =~= keys.subrange(0, p));
        let mid = replay(m, keys.subrange(0, p), times, answers);
        let tail = keys.subrange(p, keys.len() as int);
        assert(tail.drop_last() =~= short.subrange(p, short.len() as int));
        assert(tail.last() == keys.last());
    }
}

/// From a cache whose only entry holds `key`, stored no earlier than `base`,
/// lookups of `key` within `[base, base + ttl)` are all hits and change
/// nothing but the hit count.
pub proof fn lemma_constant_key_stays(
    m: CacheModel,
    key: Seq<char>,
    keys: Seq<Seq<char>>,
    times: Seq<nat>,
    answers: Seq<Result<i64, LookupError>>,
    base: nat,
    p: int,
)
    requires
        model_wf(m),
        m.entries.len() == 1,
        m.entries[0].key == key,
        m.entries[0].inserted_at >= base,
        forall|j: int| 0 <= j < keys.len() ==> #[trigger] keys[j] == key,
        within_window(times, keys.len() as int, base, m.ttl),
        0 <= p <= keys.len(),
    ensures
        replay(m, keys.subrange(0, p), times, answers) == (CacheModel { hits: m.hits + p as nat, ..m }),
    decreases p,
{
    if p == 0 {
        assert(keys.subrange(0, 0) =~= Seq::<Seq<char>>::empty());
    } else {
        lemma_constant_key_stays(m, key, keys, times, answers, base, p - 1);
        lemma_replay_prefix(m, keys, times, answers, p - 1);
        let prev = replay(m, keys.subrange(0, p - 1), times, answers);
        assert(keys[p - 1] == key);
        assert(holds_key(prev.entries, key));
        assert(position_of(prev.entries, key) == 0);
        assert(base <= times[p - 1] < base + m.ttl);
        assert(m.entries[0].expires_at == m.entries[0].inserted_at + m.ttl);
        assert(is_hit(prev, key, times[p - 1]));
        assert(promote(prev, key).entries =~= m.entries);
    }
}

/// From an empty cache, where every lookup that misses gets no value from the
/// data source, nothing is ever stored and every lookup is a miss.
pub proof fn lemma_failing_source_always_misses(
    m: CacheModel,
    keys: Seq<Seq<char>>,
    times: Seq<nat>,
    answers: Seq<Result<i64, LookupError>>,
)
    requires
        m.entries.len() == 0,
        forall|j: int|
            0 <= j < keys.len() && !is_hit(replay(m, keys.subrange(0, j), times, answers), keys[j], times[j])
                ==> (#[trigger] answers[j]) is Err,
    ensures
        replay(m, keys, times, answers).entries.len() == 0,
        replay(m, keys, times, answers).hits == m.hits,
        replay(m, keys, times, answers).misses == m.misses + keys.len(),
    decreases keys.len(),
{
    if keys.len() > 0 {
        let short = keys.drop_last();
        assert forall|j: int|
            0 <= j < short.len() && !is_hit(replay(m, short.subrange(0, j), times, answers), short[j], times[j])
                implies (#[trigger] answers[j]) is Err by {
            assert(short.subrange(0, j) =~= keys.subrange(0, j));
        }
        lemma_failing_source_always_misses(m, short, times, answers);
        let prev = replay(m, short, times, answers);
        let last = keys.len() - 1;
        assert(keys.subrange(0, last) =~= short);
        assert(!holds_key(prev.entries, keys.last()));
        assert(!is_hit(prev, keys[last], times[last]));
        assert(answers[last] is Err);
    }
}

/// From an empty cache, a run of at least one lookup counts at least one miss:
/// the first lookup finds nothing stored.
pub proof fn lemma_first_lookup_misses(
    m: CacheModel,
    keys: Seq<Seq<char>>,
    times: Seq<nat>,
    answers: Seq<Result<i64, LookupError>>,
)
    requires
        m.entries.len() == 0,
        keys.len() >= 1,
    ensures
        replay(m, keys, times, answers).misses >= m.misses + 1,
    decreases keys.len(),
{
    if keys.len() == 1 {
        assert(keys.drop_last() =~= Seq::<Seq<char>>::empty());
        assert(replay(m, keys.drop_last(), times, answers) == m);
        assert(!holds_key(m.entries, keys.last()));
        assert(!is_hit(m, keys.last(), times[0]));
    } else {
        lemma_first_lookup_misses(m, keys.drop_last(), times, answers);
        let prev = replay(m, keys.drop_last(), times, answers);
        lemma_lookup_counts_once(prev, keys.last(), times[keys.len() - 1], answers[keys.len() - 1]);
    }
}

/// Every lookup of the run that misses gets a value from the data source.
pub open spec fn misses_answered(
    m: CacheModel,
    keys: Seq<Seq<char>>,
    times: Seq<nat>,
    answers: Seq<Result<i64, LookupError>>,
) -> bool {
    &&& answers.len() >= keys.len()
    &&& forall|j: int|
        0 <= j < keys.len() && !is_hit(replay(m, keys.subrange(0, j), times, answers), keys[j], times[j])
            ==> (#[trigger] answers[j]) is Ok
}

/// Where all the keys looked up fit in the cache at once, every miss gets a
/// value and every lookup falls within one time to live: a run from an empty
/// cache misses once per distinct key and hits on every other lookup.
pub proof fn lemma_misses_count_distinct_keys(
    m: CacheModel,
    keys: Seq<Seq<char>>,
    times: Seq<nat>,
    answers: Seq<Result<i64, LookupError>>,
    base: nat,
)
    requires
        model_wf(m),
        m.entries.len() == 0,
        keys.to_set().len() <= m.capacity,
        misses_answered(m, keys, times, answers),
        within_window(times, keys.len() as int, base, m.ttl),
    ensures
        replay(m, keys, times, answers).misses == m.misses + keys.to_set().len(),
{
    lemma_repeat_prefix(m, keys, times, answers, base, keys.len() as int);
    assert(keys.subrange(0, keys.len() as int) =~= keys);
}

/// The invariant behind `lemma_repeat_within_capacity_hits`: after a prefix of
/// the lookups, the cache holds exactly the keys seen so far, each stored no
/// earlier than `base`.
pub open spec fn replay_holds_seen(m: CacheModel, start: CacheModel, seen: Seq<Seq<char>>, base: nat) -> bool {
    &&& model_wf(m)
    &&& m.capacity == start.capacity
    &&& m.ttl == start.ttl
    &&& key_seq(m.entries).to_set() == seen.to_set()
    &&& forall|i: int| 0 <= i < m.entries.len() ==> base <= #[trigger] m.entries[i].inserted_at
}

proof fn lemma_distinct_keys_card(es: Seq<EntryModel>)
    requires
        keys_distinct(es),
    ensures
        key_seq(es).to_set().len() == es.len(),
        key_seq(es).to_set().finite(),
{
    let ks = key_seq(es);
    assert(ks.no_duplicates()) by {
        assert forall|i: int, j: int| 0 <= i < ks.len() && 0 <= j < ks.len() && i != j implies ks[i] != ks[j] by {
            assert(ks[i] == es[i].key && ks[j] == es[j].key);
        }
    }
    ks.unique_seq_to_set();
    vstd::seq_lib::seq_to_set_is_finite(ks);
}

#[verifier::rlimit(80)]
proof fn lemma_repeat_prefix(
    m: CacheModel,
    keys: Seq<Seq<char>>,
    times: Seq<nat>,
    answers: Seq<Result<i64, LookupError>>,
    base: nat,
    p: int,
)
    requires
        model_wf(m),
        m.entries.len() == 0,
        keys.to_set().len() <= m.capacity,
        answers.len() >= keys.len(),
        misses_answered(m, keys, times, answers),
        within_window(times, keys.len() as int, base, m.ttl),
        0 <= p <= keys.len(),
    ensures
        replay_holds_seen(replay(m, keys.subrange(0, p), times, answers), m, keys.subrange(0, p), base),
        replay(m, keys.subrange(0, p), times, answers).misses == m.misses + keys.subrange(0, p).to_set().len(),
    decreases p,
{
    vstd::seq_lib::seq_to_set_is_finite(keys);
    if p == 0 {
        assert(keys.subrange(0, 0) =~= Seq::<Seq<char>>::empty());
        assert(key_seq(m.entries) =~= Seq::<Seq<char>>::empty());
        assert(key_seq(m.entries).to_set() =~= keys.subrange(0, 0).to_set());
        assert(keys.subrange(0, 0).to_set() =~= Set::<Seq<char>>::empty());
    } else {
        let q = p - 1;
        lemma_repeat_prefix(m, keys, times, answers, base, q);
        lemma_replay_prefix(m, keys, times, answers, q);
        let prev = replay(m, keys.subrange(0, q), times, answers);
        let k = keys[q];
        let t = times[q];
        let seen = keys.subrange(0, q);
        let seen1 = keys.subrange(0, p);
        assert(seen1 =~= seen.push(k));
        assert(seen1.to_set() =~= seen.to_set().insert(k));
        vstd::seq_lib::seq_to_set_is_finite(seen);
        let next = lookup_step(prev, k, t, answers[q]).0;
        lemma_lookup_respects_capacity(prev, k, t, answers[q]);
        assert(base <= t < base + m.ttl);
        if holds_key(prev.entries, k) {
            let i = position_of(prev.entries, k);
            assert(prev.entries[i].expires_at == prev.entries[i].inserted_at + m.ttl);
            assert(is_hit(prev, k, t));
            let es = next.entries;
            assert(es =~= prev.entries.remove(i).push(prev.entries[i]));
            assert forall|a: int| 0 <= a < es.len() implies exists|o: int|
                0 <= o < prev.entries.len() && #[trigger] es[a] == prev.entries[o] by {
                let o = if a == es.len() - 1 { i } else if a < i { a } else { a + 1 };
                assert(es[a] == prev.entries[o]);
            }
            assert forall|o: int| 0 <= o < prev.entries.len() implies exists|a: int|
                0 <= a < es.len() && es[a] == #[trigger] prev.entries[o] by {
                let a = if o == i { es.len() - 1 } else if o < i { o } else { o - 1 };
                assert(es[a] == prev.entries[o]);
            }
            assert(prev.entries[i].key == k);
            assert(key_seq(prev.entries)[i] == k);
            assert forall|x: Seq<char>| key_seq(es).to_set().contains(x) <==> seen1.to_set().contains(x) by {
                if key_seq(es).to_set().contains(x) {
                    let a = choose|a: int| 0 <= a < key_seq(es).len() && key_seq(es)[a] == x;
                    let o = choose|o: int| 0 <= o < prev.entries.len() && es[a] == prev.entries[o];
                    assert(key_seq(prev.entries)[o] == x);
                }
                if seen1.to_set().contains(x) {
                    assert(key_seq(prev.entries).to_set().contains(x));
                    let o = choose|o: int| 0 <= o < key_seq(prev.entries).len() && key_seq(prev.entries)[o] == x;
                    let a = choose|a: int| 0 <= a < es.len() && es[a] == prev.entries[o];
                    assert(key_seq(es)[a] == x);
                }
            }
            assert(key_seq(es).to_set() =~= seen1.to_set());
            assert(key_seq(prev.entries).to_set().contains(k));
            assert(seen1.to_set() =~= seen.to_set());
            assert forall|a: int| 0 <= a < es.len() implies base <= #[trigger] es[a].inserted_at by {
                let o = choose|o: int| 0 <= o < prev.entries.len() && es[a] == prev.entries[o];
            }
        } else {
            assert(!is_hit(prev, k, t));
            assert(!key_seq(prev.entries).to_set().contains(k)) by {
                if key_seq(prev.entries).to_set().contains(k) {
                    let o = choose|o: int| 0 <= o < key_seq(prev.entries).len() && key_seq(prev.entries)[o] == k;
                    assert(prev.entries[o].key == k);
                }
            }
            lemma_distinct_keys_card(prev.entries);
            assert(seen1.to_set().len() == prev.entries.len() + 1);
            assert(seen1.to_set().subset_of(keys.to_set())) by {
                assert forall|x: Seq<char>| seen1.to_set().contains(x) implies keys.to_set().contains(x) by {
                    let a = choose|a: int| 0 <= a < seen1.len() && seen1[a] == x;
                    assert(keys[a] == x);
                }
            }
            vstd::set_lib::lemma_len_subset(seen1.to_set(), keys.to_set());
            assert(prev.entries.len() < prev.capacity);
            assert(position_of(prev.entries, k) == -1);
            assert(kept_on_insert(prev, k) == prev.entries);
            assert(answers[q] is Ok);
            let v = answers[q]->Ok_0;
            assert(answers[q] == Ok::<i64, LookupError>(v));
            let e = EntryModel { key: k, value: v, inserted_at: t, expires_at: t + m.ttl };
            let es = next.entries;
            assert(es =~= prev.entries.push(e));
            assert(key_seq(es) =~= key_seq(prev.entries).push(k));
            let ks0 = key_seq(prev.entries);
            let ks1 = key_seq(es);
            assert forall|x: Seq<char>| ks1.to_set().contains(x) <==> ks0.to_set().insert(k).contains(x) by {
                if ks1.to_set().contains(x) {
                    let a = choose|a: int| 0 <= a < ks1.len() && ks1[a] == x;
                    if a < ks0.len() {
                        assert(ks0[a] == x);
                    }
                }
                if ks0.to_set().contains(x) {
                    let a = choose|a: int| 0 <= a < ks0.len() && ks0[a] == x;
                    assert(ks1[a] == x);
                }
                if x == k {
                    assert(ks1[ks0.len() as int] == x);
                }
            }
            assert(ks1.to_set() =~= ks0.to_set().insert(k));
            assert forall|a: int| 0 <= a < es.len() implies base <= #[trigger] es[a].inserted_at by {
                if a < prev.entries.len() {
                    assert(es[a] == prev.entries[a]);
                }
            }
        }
    }
}

/// Where all the keys looked up fit in the cache at once, the data source
/// answers every miss with a value and every lookup falls within one time to
/// live, `[base, base + ttl)`: once a key has been looked up, every later
/// lookup of it is a hit. In particular, after a full pass over the keys
/// every lookup is a hit.
pub proof fn lemma_repeat_within_capacity_hits(
    m: CacheModel,
    keys: Seq<Seq<char>>,
    times: Seq<nat>,
    answers: Seq<Result<i64, LookupError>>,
    base: nat,
    j: int,
)
    requires
        model_wf(m),
        m.entries.len() == 0,
        keys.to_set().len() <= m.capacity,
        answers.len() >= keys.len(),
        misses_answered(m, keys, times, answers),
        within_window(times, keys.len() as int, base, m.ttl),
        0 <= j < keys.len(),
        keys.subrange(0, j).contains(keys[j]),
    ensures
        is_hit(replay(m, keys.subrange(0, j), times, answers), keys[j], times[j]),
        lookup_step(
            replay(m, keys.subrange(0, j), times, answers),
            keys[j],
            times[j],
            answers[j],
        ).0.hits == replay(m, keys.subrange(0, j), times, answers).hits + 1,
{
    lemma_repeat_prefix(m, keys, times, answers, base, j);
    let prev = replay(m, keys.subrange(0, j), times, answers);
    let k = keys[j];
    assert(keys.subrange(0, j).to_set().contains(k));
    assert(key_seq(prev.entries).to_set().contains(k));
    let o = choose|o: int| 0 <= o < key_seq(prev.entries).len() && key_seq(prev.entries)[o] == k;
    assert(prev.entries[o].key == k);
    assert(holds_key(prev.entries, k));
    let i = position_of(prev.entries, k);
    assert(prev.entries[i].expires_at == prev.entries[i].inserted_at + m.ttl);
    assert(base <= times[j] < base + m.ttl);
    assert(base <= prev.entries[i].inserted_at);
}

proof fn lemma_distinct_prefix_kept(
    m: CacheModel,
    keys: Seq<Seq<char>>,
    times: Seq<nat>,
    answers: Seq<Result<i64, LookupError>>,
    p: int,
)
    requires
        model_wf(m),
        m.entries.len() == 0,
        keys.no_duplicates(),
        answers.len() >= keys.len(),
        forall|j: int| 0 <= j < keys.len() ==> (#[trigger] answers[j]) is Ok,
        times.len() >= keys.len(),
        0 <= p <= keys.len(),
        p <= m.capacity,
    ensures
        model_wf(replay(m, keys.subrange(0, p), times, answers)),
        replay(m, keys.subrange(0, p), times, answers).capacity == m.capacity,
        replay(m, keys.subrange(0, p), times, answers).ttl == m.ttl,
        key_seq(replay(m, keys.subrange(0, p), times, answers).entries) == keys.subrange(0, p),
    decreases p,
{
    if p == 0 {
        assert(keys.subrange(0, 0) =~= Seq::<Seq<char>>::empty());
        assert(key_seq(m.entries) =~= Seq::<Seq<char>>::empty());
    } else {
        let q = p - 1;
        lemma_distinct_prefix_kept(m, keys, times, answers, q);
        lemma_replay_prefix(m, keys, times, answers, q);
        let prev = replay(m, keys.subrange(0, q), times, answers);
        let k = keys[q];
        lemma_lookup_respects_capacity(prev, k, times[q], answers[q]);
        assert(!holds_key(prev.entries, k)) by {
            if holds_key(prev.entries, k) {
                let o = choose|o: int| 0 <= o < prev.entries.len() && prev.entries[o].key == k;
                assert(key_seq(prev.entries)[o] == keys[o]);
            }
        }
        assert(prev.entries.len() == q);
        assert(kept_on_insert(prev, k) == prev.entries);
        let next = replay(m, keys.subrange(0, p), times, answers);
        assert(key_seq(next.entries) =~= key_seq(prev.entries).push(k));
        assert(keys.subrange(0, p) =~= keys.subrange(0, q).push(k));
    }
}

/// Looking up `capacity + 1` distinct keys in an empty cache, the data source
/// answering each with a value: the first `capacity` fill it without an eviction, and the
/// last evicts exactly one entry, that of the first key, the least recently
/// used at that time.
pub proof fn lemma_one_past_capacity_evicts_first(
    m: CacheModel,
    keys: Seq<Seq<char>>,
    times: Seq<nat>,
    answers: Seq<Result<i64, LookupError>>,
)
    requires
        model_wf(m),
        m.entries.len() == 0,
        keys.len() == m.capacity + 1,
        keys.no_duplicates(),
        answers.len() >= keys.len(),
        forall|j: int| 0 <= j < keys.len() ==> (#[trigger] answers[j]) is Ok,
        times.len() >= keys.len(),
    ensures
        key_seq(replay(m, keys.drop_last(), times, answers).entries) == keys.drop_last(),
        key_seq(replay(m, keys, times, answers).entries) == keys.subrange(1, keys.len() as int),
{
    let c = m.capacity as int;
    lemma_distinct_prefix_kept(m, keys, times, answers, c);
    lemma_replay_prefix(m, keys, times, answers, c);
    assert(keys.subrange(0, c) =~= keys.drop_last());
    assert(keys.subrange(0, c + 1) =~= keys);
    let prev = replay(m, keys.subrange(0, c), times, answers);
    let k = keys[c];
    assert(!holds_key(prev.entries, k)) by {
        if holds_key(prev.entries, k) {
            let o = choose|o: int| 0 <= o < prev.entries.len() && prev.entries[o].key == k;
            assert(key_seq(prev.entries)[o] == keys[o]);
        }
    }
    assert(answers[c] == Ok::<i64, LookupError>(answers[c]->Ok_0));
    lemma_full_cache_evicts_least_recent(prev, k, times[c], answers[c]->Ok_0);
    let next = replay(m, keys, times, answers);
    assert(key_seq(next.entries) =~= keys.subrange(1, keys.len() as int)) by {
        assert forall|a: int| 0 <= a < next.entries.len() implies key_seq(next.entries)[a]
            == keys.subrange(1, keys.len() as int)[a] by {
            if a < c - 1 {
                assert(next.entries[a] == prev.entries[a + 1]);
                assert(key_seq(prev.entries)[a + 1] == keys[a + 1]);
            }
        }
    }
}

/// Over a whole run, hits and misses together count the lookups made.
pub proof fn lemma_run_counts_every_lookup(
    m: CacheModel,
    keys: Seq<Seq<char>>,
    times: Seq<nat>,
    answers: Seq<Result<i64, LookupError>>,
)
    ensures
        replay(m, keys, times, answers).hits + replay(m, keys, times, answers).misses == m.hits + m.misses
            + keys.len(),
    decreases keys.len(),
{
    if keys.len() > 0 {
        lemma_run_counts_every_lookup(m, keys.drop_last(), times, answers);
        let prev = replay(m, keys.drop_last(), times, answers);
        lemma_lookup_counts_once(prev, keys.last(), times[keys.len() - 1], answers[keys.len() - 1]);
    }
}

} // verus!
