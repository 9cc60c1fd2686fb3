use cache_bench::cache::LruCache;
use cache_bench::error::LookupError;
use cache_bench::source::lookup_in_text;

const DATA: &str = "{\"1\": 100, \"2\": 200, \"3\": 300, \"4\": 400, \"5\": 500}";

fn source(key: &String) -> Result<i64, LookupError> {
    lookup_in_text(DATA, key)
}

fn k(s: &str) -> String {
    s.to_string()
}

#[test]
fn capacity_one_evicts_every_time() {
    let data = "{\"1\":100,\"2\":200}";
    let src = |key: &String| lookup_in_text(data, key);
    let mut cache = LruCache::new(1, 1_000_000);
    assert_eq!(cache.get(&k("1"), 0, &src), Ok(100));
    assert_eq!((cache.hits(), cache.misses()), (0, 1));
    assert_eq!(cache.get(&k("2"), 1, &src), Ok(200));
    assert_eq!((cache.hits(), cache.misses()), (0, 2));
    assert_eq!(cache.get(&k("1"), 2, &src), Ok(100));
    assert_eq!((cache.hits(), cache.misses()), (0, 3));
    assert_eq!(cache.len(), 1);
}

#[test]
fn capacity_two_hits_on_repeats() {
    let data = "{\"1\":100,\"2\":200}";
    let src = |key: &String| lookup_in_text(data, key);
    let mut cache = LruCache::new(2, 1_000_000);
    let mut seen = Vec::new();
    for (t, key) in ["1", "1", "2", "2", "1"].iter().enumerate() {
        let before = cache.hits();
        let v = cache.get(&k(key), t as u64, &src);
        seen.push((v, cache.hits() > before));
    }
    assert_eq!(
        seen,
        vec![(Ok(100), false), (Ok(100), true), (Ok(200), false), (Ok(200), true), (Ok(100), true)]
    );
    assert_eq!((cache.hits(), cache.misses()), (3, 2));
}

#[test]
fn size_never_exceeds_capacity() {
    let mut cache = LruCache::new(3, 1_000_000);
    for (t, key) in ["1", "2", "3", "4", "5", "1", "2", "9"].iter().enumerate() {
        let _ = cache.get(&k(key), t as u64, &source);
        assert!(cache.len() <= 3);
    }
    assert_eq!(cache.capacity(), 3);
}

#[test]
fn full_cache_evicts_least_recently_used() {
    let mut cache = LruCache::new(2, 1_000_000);
    cache.get(&k("1"), 0, &source).unwrap();
    cache.get(&k("2"), 1, &source).unwrap();
    // "1" becomes the most recently used, so "2" is the one to go.
    cache.get(&k("1"), 2, &source).unwrap();
    cache.get(&k("3"), 3, &source).unwrap();
    assert_eq!(cache.len(), 2);
    assert_eq!(cache.lookup_cached(&k("1"), 4), Some(100));
    assert_eq!(cache.lookup_cached(&k("2"), 4), None);
    assert_eq!(cache.lookup_cached(&k("3"), 4), Some(300));
}

#[test]
fn distinct_keys_past_capacity_evict_exactly_one() {
    let mut cache = LruCache::new(3, 1_000_000);
    for (t, key) in ["1", "2", "3", "4"].iter().enumerate() {
        cache.get(&k(key), t as u64, &source).unwrap();
    }
    assert_eq!(cache.len(), 3);
    assert_eq!(cache.lookup_cached(&k("1"), 10), None);
    for key in ["2", "3", "4"] {
        assert!(cache.lookup_cached(&k(key), 10).is_some());
    }
}

#[test]
fn value_stored_on_miss_is_served_next() {
    let mut cache = LruCache::new(4, 100);
    assert_eq!(cache.get(&k("2"), 50, &source), Ok(200));
    let fail = |_: &String| -> Result<i64, LookupError> { Err(LookupError::IoError) };
    assert_eq!(cache.get(&k("2"), 149, &fail), Ok(200));
    assert_eq!((cache.hits(), cache.misses()), (1, 1));
}

#[test]
fn expired_entry_is_a_miss() {
    let mut cache = LruCache::new(4, 10);
    assert_eq!(cache.get(&k("3"), 5, &source), Ok(300));
    assert_eq!(cache.lookup_cached(&k("3"), 15), None);
    assert_eq!(cache.len(), 1);
    let other = |_: &String| -> Result<i64, LookupError> { Ok(7) };
    assert_eq!(cache.get(&k("3"), 15, &other), Ok(7));
    assert_eq!((cache.hits(), cache.misses()), (0, 2));
    assert_eq!(cache.len(), 1);
    assert_eq!(cache.get(&k("3"), 24, &source), Ok(7));
}

#[test]
fn failed_lookup_counts_a_miss_and_stores_nothing() {
    let mut cache = LruCache::new(2, 100);
    assert_eq!(cache.get(&k("77"), 0, &source), Err(LookupError::NotFound));
    assert_eq!((cache.hits(), cache.misses()), (0, 1));
    assert_eq!(cache.len(), 0);
    assert_eq!(cache.record_miss(&k("5"), Err(LookupError::Malformed), 1), Err(LookupError::Malformed));
    assert_eq!(cache.len(), 0);
    assert_eq!(cache.misses(), 2);
}

#[test]
fn record_miss_stores_value() {
    let mut cache = LruCache::new(1, 100);
    assert_eq!(cache.record_miss(&k("x"), Ok(-4), 0), Ok(-4));
    assert_eq!(cache.lookup_cached(&k("x"), 99), Some(-4));
    assert_eq!(cache.lookup_cached(&k("x"), 100), None);
    assert_eq!((cache.hits(), cache.misses()), (1, 1));
}
