use cache_bench::error::LookupError;
use cache_bench::pattern::{skewed_bounds, AccessPattern, KeyStream};
use cache_bench::report::{Dimension, Parameters, Report};
use cache_bench::runner::{
    generate_doubling_array, run_cached, run_direct, test_same_value, test_same_value_cache,
};
use cache_bench::source::lookup_in_text;

fn dataset(n: u64) -> String {
    let body: Vec<String> = (0..n).map(|i| format!("\"{}\": {}", i, i * 10)).collect();
    format!("{{{}}}", body.join(", "))
}

fn drain(mut s: KeyStream) -> Vec<String> {
    let mut out = Vec::new();
    while let Some(k) = s.next_key() {
        out.push(k);
    }
    out
}

#[test]
fn stream_yields_exactly_count_keys() {
    let s = KeyStream::new(AccessPattern::Uniform { key_range: 10 }, 25, 3);
    assert_eq!(s.len(), 25);
    let keys = drain(s);
    assert_eq!(keys.len(), 25);
    for key in &keys {
        let n: u64 = key.parse().unwrap();
        assert!((1..10).contains(&n));
    }
    assert!(drain(KeyStream::new(AccessPattern::Uniform { key_range: 10 }, 0, 3)).is_empty());
}

#[test]
fn same_seed_same_keys() {
    let p = || AccessPattern::Skewed { key_range: 100, hot_percent: 80, hot_weight: 2, total_weight: 9 };
    assert_eq!(drain(KeyStream::new(p(), 40, 11)), drain(KeyStream::new(p(), 40, 11)));
}

#[test]
fn skewed_keys_stay_in_range() {
    let p = AccessPattern::Skewed { key_range: 512, hot_percent: 80, hot_weight: 2, total_weight: 9 };
    let keys = drain(KeyStream::new(p, 500, 5));
    assert_eq!(keys.len(), 500);
    let upper = keys.iter().filter(|k| k.parse::<u64>().unwrap() >= 409).count();
    for key in &keys {
        let n: u64 = key.parse().unwrap();
        assert!((1..512).contains(&n));
    }
    // Seven draws in nine go to the upper part [409, 512).
    assert!(upper > 250);
}

#[test]
fn constant_pattern_repeats_its_key() {
    let keys = drain(KeyStream::new(AccessPattern::Constant { key: "1".to_string() }, 4, 0));
    assert_eq!(keys, vec!["1", "1", "1", "1"]);
}

#[test]
fn cached_run_counts_every_lookup() {
    let data = dataset(64);
    let src = |k: &String| lookup_in_text(&data, k);
    let mut keys = KeyStream::new(AccessPattern::Uniform { key_range: 64 }, 300, 9);
    let r = run_cached("random_cache".to_string(), 16, 1_000_000, &mut keys, &src, &|| 0);
    assert_eq!(r.lookups, 300);
    assert_eq!(r.hits + r.misses, 300);
    assert_eq!(r.parameter, 16);
    assert_eq!(r.test_name, "random_cache");
    assert_eq!(keys.len(), 0);
}

#[test]
fn constant_run_misses_once() {
    let data = dataset(4);
    let src = |k: &String| lookup_in_text(&data, k);
    let mut keys = KeyStream::new(AccessPattern::Constant { key: "1".to_string() }, 50, 0);
    let r = run_cached("same".to_string(), 1, 1_000, &mut keys, &src, &|| 5);
    assert_eq!((r.hits, r.misses), (49, 1));
}

#[test]
fn uniform_run_hits_after_first_pass() {
    let data = dataset(8);
    let src = |k: &String| lookup_in_text(&data, k);
    let keys = drain(KeyStream::new(AccessPattern::Uniform { key_range: 8 }, 400, 21));
    let mut cache = cache_bench::cache::LruCache::new(7, 1_000_000);
    let mut seen = std::collections::HashSet::new();
    for (t, key) in keys.iter().enumerate() {
        let before = cache.hits();
        let _ = cache.get(key, t as u64, &src);
        if seen.contains(key) {
            assert_eq!(cache.hits(), before + 1);
        }
        seen.insert(key.clone());
    }
    assert_eq!(seen.len(), 7);
    assert_eq!(cache.misses(), 7);
}

#[test]
fn direct_run_counts_lookups() {
    let data = dataset(8);
    let src = |k: &String| lookup_in_text(&data, k);
    let mut keys = KeyStream::new(AccessPattern::Uniform { key_range: 8 }, 30, 2);
    let r = run_direct("random".to_string(), 30, &mut keys, &src, &|| 0);
    assert_eq!((r.lookups, r.hits, r.misses, r.parameter), (30, 0, 0, 30));
}

#[test]
fn elapsed_time_comes_from_clock() {
    let data = dataset(4);
    let src = |k: &String| lookup_in_text(&data, k);
    let ticks = std::cell::Cell::new(0u64);
    let clock = || {
        ticks.set(ticks.get() + 3);
        ticks.get()
    };
    let mut keys = KeyStream::new(AccessPattern::Uniform { key_range: 4 }, 2, 2);
    let r = run_direct("random".to_string(), 2, &mut keys, &src, &clock);
    assert_eq!(r.elapsed_micros, 3);
}

#[test]
fn same_value_cache_hits_after_first() {
    let data = dataset(4);
    let src = |k: &String| lookup_in_text(&data, k);
    let r = test_same_value_cache(256, 64, &src, &|| 0);
    assert_eq!(r.test_name, "same_value_cache");
    assert_eq!((r.hits, r.misses, r.lookups, r.parameter), (63, 1, 64, 64));
}

#[test]
fn same_value_direct() {
    let data = dataset(4);
    let src = |k: &String| lookup_in_text(&data, k);
    let r = test_same_value(64, &src, &|| 0);
    assert_eq!(r.test_name, "same_value");
    assert_eq!((r.hits, r.misses, r.lookups), (0, 0, 64));
}

#[test]
fn doubling_sweep() {
    assert_eq!(generate_doubling_array(16, 512), vec![16, 32, 64, 128, 256, 512]);
    assert_eq!(generate_doubling_array(64, 8192), vec![64, 128, 256, 512, 1024, 2048, 4096, 8192]);
    assert_eq!(generate_doubling_array(3, 20), vec![3, 6, 12]);
    assert!(generate_doubling_array(16, 15).is_empty());
}

#[test]
fn report_keeps_rounds_in_order() {
    let params = Parameters { key_count: 512, access_count: 2048, measurement_rounds: 3 };
    let mut report = Report::new(params);
    let data = dataset(4);
    let src = |k: &String| lookup_in_text(&data, k);
    for n in [10, 20, 10] {
        let r = test_same_value(n, &src, &|| 0);
        report.record(Dimension::AccessCount, r);
    }
    let r = test_same_value(10, &src, &|| 0);
    report.record(Dimension::CacheSize, r);
    assert_eq!(report.len(), 4);
    assert_eq!(report.parameters(), params);
    let name = "same_value".to_string();
    assert_eq!(report.rounds_of(Dimension::AccessCount, &name, 10), vec![0, 2]);
    assert_eq!(report.rounds_of(Dimension::AccessCount, &name, 20), vec![1]);
    assert_eq!(report.rounds_of(Dimension::CacheSize, &name, 10), vec![3]);
    assert!(report.rounds_of(Dimension::HitMissRatio, &name, 10).is_empty());
    assert_eq!(report.measurement(1).parameter, 20);
}

#[test]
fn failing_source_never_aborts_a_run() {
    let src = |_: &String| -> Result<i64, LookupError> { Err(LookupError::NotFound) };
    let mut keys = KeyStream::new(AccessPattern::Uniform { key_range: 5 }, 20, 1);
    let r = run_cached("random_cache".to_string(), 2, 100, &mut keys, &src, &|| 0);
    assert_eq!((r.hits, r.misses), (0, 20));
}

#[test]
fn skewed_bounds_pick_the_part_by_coin() {
    assert_eq!(skewed_bounds(512, 80, 2, 0), (1, 409));
    assert_eq!(skewed_bounds(512, 80, 2, 1), (1, 409));
    assert_eq!(skewed_bounds(512, 80, 2, 2), (409, 512));
    assert_eq!(skewed_bounds(512, 80, 2, 8), (409, 512));
    assert_eq!(skewed_bounds(100, 50, 3, 2), (1, 50));
    assert_eq!(skewed_bounds(u64::MAX, 100, 1, 0), (1, u64::MAX));
}

#[test]
fn same_value_cache_with_failing_source_only_misses() {
    let src = |_: &String| -> Result<i64, LookupError> { Err(LookupError::IoError) };
    let r = test_same_value_cache(8, 10, &src, &|| 0);
    assert_eq!((r.hits, r.misses, r.lookups), (0, 10, 10));
}

#[test]
fn single_lookup_run_is_a_miss() {
    let data = dataset(4);
    let src = |k: &String| lookup_in_text(&data, k);
    let mut keys = KeyStream::new(AccessPattern::Uniform { key_range: 4 }, 1, 8);
    let r = run_cached("random_cache".to_string(), 4, 100, &mut keys, &src, &|| 0);
    assert_eq!((r.hits, r.misses), (0, 1));
}

#[test]
fn uniform_run_within_capacity_misses_once_per_key() {
    let data = dataset(8);
    let src = |k: &String| lookup_in_text(&data, k);
    let mut keys = KeyStream::new(AccessPattern::Uniform { key_range: 8 }, 400, 21);
    let r = run_cached("random_cache".to_string(), 7, 1_000_000, &mut keys, &src, &|| 10);
    assert!(r.misses <= 7);
    assert_eq!(r.hits + r.misses, 400);
}
