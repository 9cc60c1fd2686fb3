use vstd::prelude::*;

use crate::cache::{after_miss, holds_key, is_hit, kept_on_insert, CacheModel, LruCache};
use crate::cache_laws::{
    lemma_constant_key_stays, lemma_failing_source_always_misses, lemma_first_lookup_misses,
    lemma_misses_count_distinct_keys, lemma_replay_push, lemma_replay_reads_prefix, replay,
};
use crate::keys::decimal;
use crate::error::LookupError;
use crate::pattern::{AccessPattern, KeyStream};

verus! {

/// How long a cached value stays live in the benchmarks, in microseconds.
pub const BENCH_TTL_MICROS: u64 = 30_000_000;

/// One measured run: which test, under which parameter (a cache size or a
/// number of accesses), how long it took, and what the cache counted.
pub struct BenchmarkResult {
    pub test_name: String,
    pub parameter: u64,
    pub elapsed_micros: u64,
    pub lookups: u64,
    pub hits: u64,
    pub misses: u64,
}

/// The time from `start` to `end`; none where the clock went back.
pub open spec fn elapsed_between(start: u64, end: u64) -> u64 {
    if end >= start { (end - start) as u64 } else { 0 }
}

fn elapsed(start: u64, end: u64) -> (r: u64)
    ensures
        r == elapsed_between(start, end),
{
    if end >= start { end - start } else { 0 }
}

/// The keys of a run as character sequences.
pub open spec fn key_views(ks: Seq<String>) -> Seq<Seq<char>> {
    ks.map_values(|k: String| k@)
}

/// The clock readings of a run as numbers.
pub open spec fn time_views(ts: Seq<u64>) -> Seq<nat> {
    ts.map_values(|t: u64| t as nat)
}

/// A cached run took the cache from `start` to `end` by looking up `ks[j]` at
/// clock reading `ts[j]`, for each `j` in turn: each key is one that `pattern`
/// allows, each reading one that `clock` can give, and on each miss `ans[j]`
/// is an answer that `source` can give for that key.
pub open spec fn run_explains<F, C>(
    start: CacheModel,
    end: CacheModel,
    pattern: AccessPattern,
    source: F,
    clock: C,
    ks: Seq<String>,
    ts: Seq<u64>,
    ans: Seq<Result<i64, LookupError>>,
) -> bool where F: Fn(&String) -> Result<i64, LookupError>, C: Fn() -> u64 {
    &&& ts.len() == ks.len()
    &&& ans.len() == ks.len()
    &&& forall|j: int| 0 <= j < ks.len() ==> pattern.allows(#[trigger] ks[j]@)
    &&& forall|j: int| 0 <= j < ks.len() ==> clock.ensures((), #[trigger] ts[j])
    &&& forall|j: int|
        0 <= j < ks.len() && !is_hit(
            replay(start, key_views(ks).subrange(0, j), time_views(ts), ans),
            ks[j]@,
            ts[j] as nat,
        ) ==> source.ensures((&ks[j],), #[trigger] ans[j])
    &&& end == replay(start, key_views(ks), time_views(ts), ans)
}

/// The source never answers with a value.
pub open spec fn source_always_fails<F>(source: F) -> bool where F: Fn(&String) -> Result<i64, LookupError> {
    forall|k: &String, r: Result<i64, LookupError>| #[trigger] source.ensures((k,), r) ==> r is Err
}

/// The source answers every lookup of `key` with a value.
pub open spec fn source_answers_value<F>(source: F, key: Seq<char>) -> bool where F: Fn(&String) -> Result<i64, LookupError> {
    forall|k: &String, r: Result<i64, LookupError>| k@ == key && #[trigger] source.ensures((k,), r) ==> r is Ok
}

/// The source answers every lookup with a value.
pub open spec fn source_always_answers<F>(source: F) -> bool where F: Fn(&String) -> Result<i64, LookupError> {
    forall|k: &String, r: Result<i64, LookupError>| #[trigger] source.ensures((k,), r) ==> r is Ok
}

/// Every reading of the clock lies in `[base, base + width)`.
pub open spec fn clock_window<C>(clock: C, base: u64, width: u64) -> bool where C: Fn() -> u64 {
    forall|t: u64| #[trigger] clock.ensures((), t) ==> base <= t && (t as int) < base + width
}

/// Looks up every key left in `keys` through `cache`, reading the time from
/// `clock` before each lookup. The final cache is the replay of the keys
/// drawn, the readings taken and the answers received.
pub fn drive_cache<F, C>(cache: &mut LruCache, keys: &mut KeyStream, source: &F, clock: &C) where
    F: Fn(&String) -> Result<i64, LookupError>,
    C: Fn() -> u64,

    requires
        old(cache).wf(),
        old(keys).wf(),
        old(cache)@.hits + old(cache)@.misses + old(keys).remaining() <= u64::MAX,
        forall|k: &String| source.requires((k,)),
        clock.requires(()),
    ensures
        final(cache).wf(),
        final(keys).remaining() == 0,
        final(cache)@.capacity == old(cache)@.capacity,
        final(cache)@.hits >= old(cache)@.hits,
        final(cache)@.misses >= old(cache)@.misses,
        final(cache)@.hits + final(cache)@.misses == old(cache)@.hits + old(cache)@.misses
            + old(keys).remaining(),
        exists|ks: Seq<String>, ts: Seq<u64>, ans: Seq<Result<i64, LookupError>>|
            ks.len() == old(keys).remaining() && #[trigger] run_explains(
                old(cache)@,
                final(cache)@,
                old(keys).pattern(),
                *source,
                *clock,
                ks,
                ts,
                ans,
            ),
{
    let ghost start = cache@;
    let ghost start_count = cache@.hits + cache@.misses;
    let ghost total = keys.remaining();
    let ghost pattern = keys.pattern();
    let ghost mut ks: Seq<String> = Seq::empty();
    let ghost mut ts: Seq<u64> = Seq::empty();
    let ghost mut ans: Seq<Result<i64, LookupError>> = Seq::empty();
    proof {
        assert(key_views(ks) =~= Seq::<Seq<char>>::empty());
    }
    while keys.len() > 0
        invariant
            cache.wf(),
            keys.wf(),
            keys.pattern() == pattern,
            cache@.capacity == start.capacity,
            cache@.hits >= start.hits,
            cache@.misses >= start.misses,
            keys.remaining() <= total,
            start_count + total <= u64::MAX,
            cache@.hits + cache@.misses == start_count + (total - keys.remaining()),
            ks.len() == total - keys.remaining(),
            run_explains(start, cache@, pattern, *source, *clock, ks, ts, ans),
            forall|k: &String| source.requires((k,)),
            clock.requires(()),
        decreases keys.remaining(),
    {
        match keys.next_key() {
            Some(key) => {
                let now = clock();
                let ghost before = cache@;
                let r = cache.get(&key, now, source);
                proof {
                    let ks2 = ks.push(key);
                    let ts2 = ts.push(now);
                    let ans2 = ans.push(r);
                    assert(key_views(ks2) =~= key_views(ks).push(key@));
                    assert(time_views(ts2) =~= time_views(ts).push(now as nat));
                    lemma_replay_push(start, key_views(ks), time_views(ts), ans, key@, now as nat, r);
                    assert forall|j: int|
                        0 <= j < ks2.len() && !is_hit(
                            replay(start, key_views(ks2).subrange(0, j), time_views(ts2), ans2),
                            ks2[j]@,
                            ts2[j] as nat,
                        ) implies source.ensures((&ks2[j],), #[trigger] ans2[j]) by {
                        assert(key_views(ks2).subrange(0, j) =~= key_views(ks).subrange(0, j)) by {
                            if j == ks.len() {
                                assert(key_views(ks).subrange(0, j) =~= key_views(ks));
                            }
                        }
                        lemma_replay_reads_prefix(
                            start,
                            key_views(ks).subrange(0, j),
                            time_views(ts2),
                            ans2,
                            time_views(ts),
                            ans,
                        );
                        if j == ks.len() {
                            assert(key_views(ks).subrange(0, j) =~= key_views(ks));
                            assert(ks2[j] == key);
                        } else {
                            assert(ks2[j] == ks[j] && ts2[j] == ts[j] && ans2[j] == ans[j]);
                        }
                    }
                    assert forall|j: int| 0 <= j < ks2.len() implies pattern.allows(#[trigger] ks2[j]@) by {
                        if j < ks.len() {
                            assert(ks2[j] == ks[j]);
                        }
                    }
                    assert forall|j: int| 0 <= j < ks2.len() implies clock.ensures((), #[trigger] ts2[j]) by {
                        if j < ks.len() {
                            assert(ts2[j] == ts[j]);
                        }
                    }
                    ks = ks2;
                    ts = ts2;
                    ans = ans2;
                }
            },
            None => {},
        }
    }
    assert(run_explains(start, cache@, pattern, *source, *clock, ks, ts, ans));
}

/// What a cached run from an empty cache counts: a miss on its first lookup,
/// and only misses where the source never answers with a value.
proof fn lemma_run_from_empty<F, C>(
    start: CacheModel,
    end: CacheModel,
    pattern: AccessPattern,
    source: F,
    clock: C,
    ks: Seq<String>,
    ts: Seq<u64>,
    ans: Seq<Result<i64, LookupError>>,
) where F: Fn(&String) -> Result<i64, LookupError>, C: Fn() -> u64
    requires
        run_explains(start, end, pattern, source, clock, ks, ts, ans),
        start.entries.len() == 0,
    ensures
        ks.len() >= 1 ==> end.misses >= start.misses + 1,
        source_always_fails(source) ==> end.hits == start.hits && end.misses == start.misses + ks.len(),
{
    let kv = key_views(ks);
    let tv = time_views(ts);
    if ks.len() >= 1 {
        lemma_first_lookup_misses(start, kv, tv, ans);
    }
    if source_always_fails(source) {
        assert forall|j: int|
            0 <= j < kv.len() && !is_hit(replay(start, kv.subrange(0, j), tv, ans), kv[j], tv[j])
                implies (#[trigger] ans[j]) is Err by {
            assert(kv[j] == ks[j]@ && tv[j] == ts[j] as nat);
            assert(source.ensures((&ks[j],), ans[j]));
        }
        lemma_failing_source_always_misses(start, kv, tv, ans);
    }
}

/// Looks up every key left in `keys` directly in `source`, with no cache;
/// returns how many lookups were made.
pub fn drive_direct<F>(keys: &mut KeyStream, source: &F) -> (r: u64) where
    F: Fn(&String) -> Result<i64, LookupError>,

    requires
        old(keys).wf(),
        forall|k: &String| source.requires((k,)),
    ensures
        final(keys).remaining() == 0,
        r == old(keys).remaining(),
{
    let mut done: u64 = 0;
    let count = keys.len();
    let ghost total = count as nat;
    while keys.len() > 0
        invariant
            keys.wf(),
            keys.remaining() <= total,
            total <= u64::MAX,
            done == total - keys.remaining(),
            forall|k: &String| source.requires((k,)),
        decreases keys.remaining(),
    {
        match keys.next_key() {
            Some(key) => {
                let _ = source(&key);
                done = done + 1;
            },
            None => {},
        }
    }
    done
}

/// Runs the keys of `keys` through a fresh cache of `capacity` entries, each
/// live for `ttl`, and times the whole run with `clock`.
pub fn run_cached<F, C>(
    test_name: String,
    capacity: usize,
    ttl: u64,
    keys: &mut KeyStream,
    source: &F,
    clock: &C,
) -> (r: BenchmarkResult) where
    F: Fn(&String) -> Result<i64, LookupError>,
    C: Fn() -> u64,

    requires
        capacity >= 1,
        old(keys).wf(),
        forall|k: &String| source.requires((k,)),
        clock.requires(()),
    ensures
        final(keys).remaining() == 0,
        r.test_name@ == test_name@,
        r.parameter == capacity,
        r.lookups == old(keys).remaining(),
        r.hits + r.misses == r.lookups,
        r.lookups >= 1 ==> r.misses >= 1,
        source_always_fails(*source) ==> r.hits == 0 && r.misses == r.lookups,
        old(keys).pattern() is Uniform && capacity + 1 >= old(keys).pattern()->Uniform_key_range
            && source_always_answers(*source) && (exists|base: u64|
            #[trigger] clock_window(*clock, base, ttl)) ==> r.misses
            < old(keys).pattern()->Uniform_key_range,
{
    let lookups = keys.len();
    let mut cache = LruCache::new(capacity, ttl);
    let ghost fresh = cache@;
    let ghost pattern = keys.pattern();
    let start = clock();
    drive_cache(&mut cache, keys, source, clock);
    proof {
        let (ks, ts, ans) = choose|ks: Seq<String>, ts: Seq<u64>, ans: Seq<Result<i64, LookupError>>|
            ks.len() == lookups && #[trigger] run_explains(fresh, cache@, pattern, *source, *clock, ks, ts, ans);
        lemma_run_from_empty(fresh, cache@, pattern, *source, *clock, ks, ts, ans);
        if pattern is Uniform && capacity + 1 >= pattern->Uniform_key_range && source_always_answers(
            *source,
        ) && (exists|base: u64| #[trigger] clock_window(*clock, base, ttl)) {
            let base = choose|base: u64| #[trigger] clock_window(*clock, base, ttl);
            let kr = pattern->Uniform_key_range;
            let kv = key_views(ks);
            let tv = time_views(ts);
            let f = |i: int| decimal(i as nat);
            let range = vstd::set_lib::set_int_range(1, kr as int);
            vstd::set_lib::lemma_int_range(1, kr as int);
            vstd::set_lib::lemma_map_size_bound(range, range.map(f), f);
            vstd::seq_lib::seq_to_set_is_finite(kv);
            assert forall|x: Seq<char>| kv.to_set().contains(x) implies range.map(f).contains(x) by {
                let j = choose|j: int| 0 <= j < kv.len() && kv[j] == x;
                assert(pattern.allows(ks[j]@));
                let n = choose|n: nat| 1 <= n < kr && ks[j]@ == #[trigger] decimal(n);
                assert(range.contains(n as int) && x == f(n as int));
            }
            vstd::set_lib::lemma_len_subset(kv.to_set(), range.map(f));
            assert forall|j: int|
                0 <= j < kv.len() && !is_hit(replay(fresh, kv.subrange(0, j), tv, ans), kv[j], tv[j])
                    implies (#[trigger] ans[j]) is Ok by {
                assert(kv[j] == ks[j]@ && tv[j] == ts[j] as nat);
                assert(source.ensures((&ks[j],), ans[j]));
            }
            assert forall|j: int| 0 <= j < kv.len() implies base <= #[trigger] tv[j] < base + fresh.ttl by {
                assert(clock.ensures((), ts[j]));
            }
            lemma_misses_count_distinct_keys(fresh, kv, tv, ans, base as nat);
        }
    }
    let end = clock();
    BenchmarkResult {
        test_name,
        parameter: capacity as u64,
        elapsed_micros: elapsed(start, end),
        lookups,
        hits: cache.hits(),
        misses: cache.misses(),
    }
}

/// Runs the keys of `keys` directly against `source` and times the run.
/// A direct run counts neither hits nor misses.
pub fn run_direct<F, C>(test_name: String, parameter: u64, keys: &mut KeyStream, source: &F, clock: &C) -> (r: BenchmarkResult) where
    F: Fn(&String) -> Result<i64, LookupError>,
    C: Fn() -> u64,

    requires
        old(keys).wf(),
        forall|k: &String| source.requires((k,)),
        clock.requires(()),
    ensures
        final(keys).remaining() == 0,
        r.test_name@ == test_name@,
        r.parameter == parameter,
        r.lookups == old(keys).remaining(),
        r.hits == 0,
        r.misses == 0,
{
    let start = clock();
    let lookups = drive_direct(keys, source);
    let end = clock();
    BenchmarkResult { test_name, parameter, elapsed_micros: elapsed(start, end), lookups, hits: 0, misses: 0 }
}

/// The constant pattern on key `"1"`.
fn key_one_pattern() -> (r: AccessPattern)
    ensures
        r.wf(),
        r == (AccessPattern::Constant { key: r->key }) && r->key@ == seq!['1'],
{
    proof {
        reveal_strlit("1");
    }
    AccessPattern::Constant { key: String::from_str("1") }
}

/// Looks key `"1"` up `iterations` times through a fresh cache of
/// `cache_size` entries. The first lookup fills the cache and is left out of
/// the time; the time covers the remaining ones.
pub fn test_same_value_cache<F, C>(cache_size: usize, iterations: u64, source: &F, clock: &C) -> (r: BenchmarkResult) where
    F: Fn(&String) -> Result<i64, LookupError>,
    C: Fn() -> u64,

    requires
        cache_size >= 1,
        forall|k: &String| source.requires((k,)),
        clock.requires(()),
    ensures
        r.test_name@ == "same_value_cache"@,
        r.parameter == iterations,
        r.lookups == iterations,
        r.hits + r.misses == iterations,
        iterations >= 1 ==> r.misses >= 1,
        source_always_fails(*source) ==> r.hits == 0 && r.misses == iterations,
        iterations >= 1 && source_answers_value(*source, seq!['1']) && (exists|base: u64|
            #[trigger] clock_window(*clock, base, BENCH_TTL_MICROS)) ==> r.misses == 1 && r.hits
            == iterations - 1,
{
    let mut cache = LruCache::new(cache_size, BENCH_TTL_MICROS);
    let pattern = key_one_pattern();
    let ghost one = pattern->key@;
    let mut keys = KeyStream::new(pattern, iterations, 0);
    let ghost fresh = cache@;
    let ghost mut first_time: u64 = 0;
    match keys.next_key() {
        Some(key) => {
            let now = clock();
            let r0 = cache.get(&key, now, source);
            proof {
                first_time = now;
                assert(!holds_key(fresh.entries, key@));
                assert(!is_hit(fresh, key@, now as nat));
                if source_always_fails(*source) {
                    assert(r0 is Err);
                    assert(cache@.entries == fresh.entries);
                }
                if source_answers_value(*source, seq!['1']) {
                    assert(key@ == one);
                    assert(r0 is Ok);
                    assert(kept_on_insert(fresh, key@) == fresh.entries);
                    assert(cache@.entries.len() == 1);
                    assert(cache@.entries[0].key == key@);
                    assert(cache@.entries[0].inserted_at == now as nat);
                }
            }
        },
        None => {},
    }
    let ghost warm = cache@;
    let ghost pat = keys.pattern();
    let ghost left = keys.remaining();
    let start = clock();
    drive_cache(&mut cache, &mut keys, source, clock);
    proof {
        let (ks, ts, ans) = choose|ks: Seq<String>, ts: Seq<u64>, ans: Seq<Result<i64, LookupError>>|
            ks.len() == left && #[trigger] run_explains(
                warm,
                cache@,
                pat,
                *source,
                *clock,
                ks,
                ts,
                ans,
            );
        if source_always_fails(*source) {
            lemma_run_from_empty(warm, cache@, pat, *source, *clock, ks, ts, ans);
        }
        if iterations >= 1 && source_answers_value(*source, seq!['1']) && (exists|base: u64|
            #[trigger] clock_window(*clock, base, BENCH_TTL_MICROS)) {
            let base = choose|base: u64| #[trigger] clock_window(*clock, base, BENCH_TTL_MICROS);
            let kv = key_views(ks);
            let tv = time_views(ts);
            assert(clock.ensures((), first_time));
            assert forall|j: int| 0 <= j < kv.len() implies #[trigger] kv[j] == one by {
                assert(pat.allows(ks[j]@));
            }
            assert forall|j: int| 0 <= j < kv.len() implies base <= #[trigger] tv[j] < base + warm.ttl by {
                assert(clock.ensures((), ts[j]));
            }
            lemma_constant_key_stays(warm, one, kv, tv, ans, base as nat, kv.len() as int);
            assert(kv.subrange(0, kv.len() as int) =~= kv);
        }
    }
    let end = clock();
    BenchmarkResult {
        test_name: String::from_str("same_value_cache"),
        parameter: iterations,
        elapsed_micros: elapsed(start, end),
        lookups: iterations,
        hits: cache.hits(),
        misses: cache.misses(),
    }
}

/// Looks key `"1"` up `iterations` times directly in `source` and times it.
pub fn test_same_value<F, C>(iterations: u64, source: &F, clock: &C) -> (r: BenchmarkResult) where
    F: Fn(&String) -> Result<i64, LookupError>,
    C: Fn() -> u64,

    requires
        forall|k: &String| source.requires((k,)),
        clock.requires(()),
    ensures
        r.test_name@ == "same_value"@,
        r.parameter == iterations,
        r.lookups == iterations,
        r.hits == 0,
        r.misses == 0,
{
    let mut keys = KeyStream::new(key_one_pattern(), iterations, 0);
    run_direct(String::from_str("same_value"), iterations, &mut keys, source, clock)
}

/// The powers-of-two multiples of `start` up to `max`: `start`, `2 * start`,
/// `4 * start`, ... while at most `max`.
pub open spec fn doubling_from(start: nat, max: nat) -> Seq<nat>
    decreases (if start <= max { max + 1 - start } else { 0 }),
{
    if start == 0 || start > max {
        seq![]
    } else {
        seq![start] + doubling_from(2 * start, max)
    }
}

/// The parameter sweep `min_value`, `2 * min_value`, ... up to `max_value`.
pub fn generate_doubling_array(min_value: usize, max_value: i32) -> (r: Vec<usize>)
    requires
        min_value >= 1,
        max_value >= 0,
    ensures
        r@.map_values(|x: usize| x as nat) == doubling_from(min_value as nat, max_value as nat),
{
    let mut array: Vec<usize> = Vec::new();
    let mut current: usize = min_value;
    let max = max_value as usize;
    while current <= max
        invariant
            current >= 1,
            max == max_value,
            max <= i32::MAX,
            array@.map_values(|x: usize| x as nat) + doubling_from(current as nat, max as nat)
                == doubling_from(min_value as nat, max as nat),
        decreases (if current <= max { max + 1 - current } else { 0 }),
    {
        let ghost before = array@;
        array.push(current);
        assert(doubling_from(current as nat, max as nat) == seq![current as nat] + doubling_from(
            2 * current as nat,
            max as nat,
        ));
        assert(array@.map_values(|x: usize| x as nat) =~= before.map_values(|x: usize| x as nat)
            + seq![current as nat]);
        current = current * 2;
        assert(array@.map_values(|x: usize| x as nat) + doubling_from(current as nat, max as nat)
            =~= before.map_values(|x: usize| x as nat) + (seq![(current / 2) as nat] + doubling_from(
            current as nat,
            max as nat,
        )));
    }
    assert(doubling_from(current as nat, max as nat) == Seq::<nat>::empty());
    assert(array@.map_values(|x: usize| x as nat) =~= array@.map_values(|x: usize| x as nat)
        + doubling_from(current as nat, max as nat));
    array
}

} // verus!
