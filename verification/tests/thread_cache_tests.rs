//! The thread cache: admission, lookup, eviction, merging, convergence,
//! and the export/import round trip.

use std::time::Instant;

use lychrel_finder::{lychrel_iteration_with_cache, BigDecimalInt, ThreadCache, ThreadInfo};

fn info_for(seed: u64, max_iterations_tested: u32) -> ThreadInfo {
    ThreadInfo {
        seed_number: BigDecimalInt::from_u64(seed),
        iterations_from_seed: 0,
        max_iterations_tested,
        final_digits: 50,
        reached_palindrome: false,
        palindrome_at_iteration: None,
    }
}

#[test]
fn test_cache_new() {
    let cache = ThreadCache::new(1000);
    assert_eq!(cache.len(), 0);
    let stats = cache.stats();
    assert_eq!(stats.hits, 0);
    assert_eq!(stats.misses, 0);
}

#[test]
fn test_cache_add_and_check() {
    let mut cache = ThreadCache::new(1000);

    let path = vec![
        BigDecimalInt::from_u64(887),
        BigDecimalInt::from_u64(1675),
        BigDecimalInt::from_u64(7436),
    ];

    let info = ThreadInfo {
        seed_number: BigDecimalInt::from_u64(196),
        iterations_from_seed: 0,
        max_iterations_tested: 100,
        final_digits: 50,
        reached_palindrome: false,
        palindrome_at_iteration: None,
    };

    cache.add_thread(&path, info);

    // Check should find the first value
    let result = cache.check(&BigDecimalInt::from_u64(887));
    assert!(result.is_some());
    assert_eq!(cache.stats().hits, 1);

    // Check unknown value
    let result = cache.check(&BigDecimalInt::from_u64(999));
    assert!(result.is_none());
    assert_eq!(cache.stats().misses, 1);
}

#[test]
fn test_should_cache() {
    let cache = ThreadCache::new(1000);
    assert!(!cache.should_cache(10));
    assert!(!cache.should_cache(49));
    assert!(cache.should_cache(50));
    assert!(cache.should_cache(100));
}

#[test]
fn test_cache_eviction() {
    let mut cache = ThreadCache::new(10);

    // Add more entries than capacity
    for i in 0..20u64 {
        let path = vec![BigDecimalInt::from_u64(i * 1000)];
        let info = info_for(i, 50 + i as u32);
        cache.add_thread(&path, info);
    }

    // Cache should have evicted entries to stay under max_size
    assert!(cache.len() <= 10);
}

#[test]
fn test_hit_rate() {
    let mut cache = ThreadCache::new(1000);

    let path = vec![BigDecimalInt::from_u64(887)];
    let info = ThreadInfo {
        seed_number: BigDecimalInt::from_u64(196),
        iterations_from_seed: 0,
        max_iterations_tested: 100,
        final_digits: 50,
        reached_palindrome: false,
        palindrome_at_iteration: None,
    };
    cache.add_thread(&path, info);

    // 2 hits, 3 misses = 40% hit rate
    cache.check(&BigDecimalInt::from_u64(887));
    cache.check(&BigDecimalInt::from_u64(887));
    cache.check(&BigDecimalInt::from_u64(999));
    cache.check(&BigDecimalInt::from_u64(998));
    cache.check(&BigDecimalInt::from_u64(997));

    let stats = cache.stats();
    assert_eq!(stats.hits, 2);
    assert_eq!(stats.misses, 3);
    let hit_rate = stats.hits as f64 / (stats.hits + stats.misses) as f64;
    assert!((hit_rate - 0.4).abs() < 0.01);
}

#[test]
fn test_thread_convergence_196_295() {
    let mut cache = ThreadCache::new(10000);

    // Test 196 first (it's a known Lychrel candidate)
    let result1 = lychrel_iteration_with_cache(BigDecimalInt::from_u64(196), 100, &mut cache);
    assert!(!result1.is_palindrome);
    assert!(result1.is_potential_lychrel);

    // Test 295 - should converge to same thread as 196
    // 295 + 592 = 887
    // 196 + 691 = 887
    // They should converge at 887!
    let result2 = lychrel_iteration_with_cache(BigDecimalInt::from_u64(295), 100, &mut cache);

    // Should have cache hit for 295 since it converges with 196
    let stats = cache.stats();
    assert!(stats.hits > 0, "Should have cache hit for 295 convergence");

    // Both should be potential Lychrel
    assert!(!result2.is_palindrome);
    assert!(result2.is_potential_lychrel);
}

#[test]
fn test_thread_convergence_multiple() {
    let mut cache = ThreadCache::new(10000);

    // Test a group of numbers that converge to the same thread
    // These all converge quickly
    let numbers: Vec<u64> = vec![196, 295, 394, 493, 592, 689, 788];

    for &n in &numbers {
        let _result = lychrel_iteration_with_cache(BigDecimalInt::from_u64(n), 50, &mut cache);
    }

    let stats = cache.stats();

    // After testing all these numbers, we should have several cache hits
    // because they converge to the same sequences
    println!("Cache stats after testing convergent numbers:");
    println!("  Entries: {}", stats.entries);
    println!("  Hits: {}", stats.hits);
    println!("  Misses: {}", stats.misses);

    assert!(stats.hits > 0, "Should have cache hits from convergence");
}

#[test]
fn test_cache_speeds_up_computation() {
    // Without cache
    let start = Instant::now();
    for i in 1u64..=1000 {
        let _ = lychrel_iteration_with_cache(
            BigDecimalInt::from_u64(i),
            100,
            &mut ThreadCache::new(0),
        );
    }
    let without_cache = start.elapsed();

    // With cache
    let start = Instant::now();
    let mut cache = ThreadCache::new(100000);
    for i in 1u64..=1000 {
        let _ = lychrel_iteration_with_cache(BigDecimalInt::from_u64(i), 100, &mut cache);
    }
    let with_cache = start.elapsed();

    println!("Without cache: {:?}", without_cache);
    println!("With cache: {:?}", with_cache);

    let stats = cache.stats();
    assert!(stats.hits > 0, "Cache should have hits");
}

#[test]
fn test_cache_save_and_load() {
    // Create and populate cache
    let mut cache = ThreadCache::new(10000);
    for i in 1u64..=100 {
        let _ = lychrel_iteration_with_cache(BigDecimalInt::from_u64(i), 50, &mut cache);
    }

    let original_entries = cache.len();

    // Export the entries a saved file would hold, and rebuild from them;
    // the embedding application serializes these to disk.
    let exported = cache.export_entries();
    let loaded_cache = ThreadCache::from_entries(&exported, 10000);

    assert_eq!(loaded_cache.len(), original_entries);
}

#[test]
fn test_export_import_preserves_lookups() {
    let mut cache = ThreadCache::new(10000);
    let _ = lychrel_iteration_with_cache(BigDecimalInt::from_u64(196), 100, &mut cache);
    assert!(cache.len() > 0);

    let exported = cache.export_entries();
    let mut loaded = ThreadCache::from_entries(&exported, 10000);

    // Every entry of the original answers identically in the rebuilt
    // cache; the counters start afresh.
    assert_eq!(loaded.stats().hits, 0);
    for (key, info) in exported.iter() {
        let found = loaded.check(key).expect("rebuilt cache must know every exported key");
        assert_eq!(found.max_iterations_tested, info.max_iterations_tested);
        assert_eq!(found.reached_palindrome, info.reached_palindrome);
    }
}

#[test]
fn test_palindrome_numbers_not_cached() {
    let mut cache = ThreadCache::new(10000);

    // Test numbers that quickly become palindromes
    let result = lychrel_iteration_with_cache(BigDecimalInt::from_u64(89), 100, &mut cache);
    assert!(result.is_palindrome);

    // Low iteration count shouldn't be cached (threshold is 50)
    // 89 takes 24 iterations, which is below threshold
    assert_eq!(cache.len(), 0, "Short iterations shouldn't be cached");
}

#[test]
fn test_long_iteration_cached() {
    let mut cache = ThreadCache::new(10000);

    // 196 requires many iterations and never reaches palindrome in 100 steps
    let _result = lychrel_iteration_with_cache(BigDecimalInt::from_u64(196), 100, &mut cache);

    // Should be cached because it has 100 iterations (above 50 threshold)
    assert!(cache.len() > 0, "Long iterations should be cached");
}

#[test]
fn test_added_path_found_at_once() {
    // A just-admitted path answers a lookup of its first element.
    let mut cache = ThreadCache::new(1000);
    let path = vec![
        BigDecimalInt::from_u64(887),
        BigDecimalInt::from_u64(1675),
    ];
    cache.add_thread(&path, info_for(196, 100));
    let found = cache.check(&BigDecimalInt::from_u64(887));
    assert!(found.is_some());
    assert_eq!(found.unwrap().iterations_from_seed, 0);
    let second = cache.check(&BigDecimalInt::from_u64(1675));
    assert_eq!(second.unwrap().iterations_from_seed, 1);
}

#[test]
fn test_merge_keeps_larger_iteration_bound() {
    // After a merge, every key of the merged-in cache is present with at
    // least its old tested bound.
    let mut a = ThreadCache::new(1000);
    a.add_thread(&vec![BigDecimalInt::from_u64(887)], info_for(196, 60));
    a.add_thread(&vec![BigDecimalInt::from_u64(500)], info_for(5, 90));

    let mut b = ThreadCache::new(1000);
    b.add_thread(&vec![BigDecimalInt::from_u64(887)], info_for(295, 120));
    b.add_thread(&vec![BigDecimalInt::from_u64(600)], info_for(6, 70));

    a.merge(b);

    let at_887 = a.check(&BigDecimalInt::from_u64(887)).unwrap();
    assert_eq!(at_887.max_iterations_tested, 120);
    let at_500 = a.check(&BigDecimalInt::from_u64(500)).unwrap();
    assert_eq!(at_500.max_iterations_tested, 90);
    let at_600 = a.check(&BigDecimalInt::from_u64(600)).unwrap();
    assert_eq!(at_600.max_iterations_tested, 70);
}

#[test]
fn test_eviction_drops_lowest_tested() {
    let mut cache = ThreadCache::new(2);
    cache.add_thread(&vec![BigDecimalInt::from_u64(11)], info_for(1, 55));
    cache.add_thread(&vec![BigDecimalInt::from_u64(22)], info_for(2, 95));
    cache.add_thread(&vec![BigDecimalInt::from_u64(33)], info_for(3, 75));
    assert_eq!(cache.len(), 2);
    // The entry tested least far is the one that left.
    assert!(cache.check(&BigDecimalInt::from_u64(11)).is_none());
    assert!(cache.check(&BigDecimalInt::from_u64(22)).is_some());
    assert!(cache.check(&BigDecimalInt::from_u64(33)).is_some());
}

#[test]
fn test_export_important_filters() {
    let mut cache = ThreadCache::new(1000);
    cache.add_thread(&vec![BigDecimalInt::from_u64(11)], info_for(1, 150));
    cache.add_thread(&vec![BigDecimalInt::from_u64(22)], info_for(2, 250));
    let important = cache.export_important();
    assert_eq!(important.len(), 1);
    assert_eq!(important[0].1.max_iterations_tested, 250);
}

#[test]
fn test_snapshot_isolation() {
    // Mutations after a snapshot do not reach the shared view; a worker
    // over the view sees the snapshotted entries.
    let mut cache = ThreadCache::new(1000);
    cache.add_thread(&vec![BigDecimalInt::from_u64(887)], info_for(196, 100));
    let view = cache.take_snapshot();
    assert_eq!(cache.len(), 0);
    cache.add_thread(&vec![BigDecimalInt::from_u64(999)], info_for(42, 80));

    let mut worker = ThreadCache::new_worker(view, 100);
    assert!(worker.check(&BigDecimalInt::from_u64(887)).is_some());
    assert!(worker.check(&BigDecimalInt::from_u64(999)).is_none());
}

#[test]
fn test_with_cache_agrees_with_plain_on_empty_cache() {
    // Against an empty cache the two engines agree on the verdict and
    // the iteration count.
    for n in [10u64, 89, 121, 196, 295, 1186060307891929990] {
        let plain = lychrel_finder::lychrel_iteration(BigDecimalInt::from_u64(n), 60);
        let mut cache = ThreadCache::new(0);
        let cached =
            lychrel_iteration_with_cache(BigDecimalInt::from_u64(n), 60, &mut cache);
        assert_eq!(plain.is_palindrome, cached.is_palindrome);
        assert_eq!(plain.iterations, cached.iterations);
    }
}

#[test]
fn test_merge_tie_keeps_receiver_entry() {
    // At an equal tested bound either entry may stay; here the
    // receiver's does.
    let mut a = ThreadCache::new(1000);
    a.add_thread(&vec![BigDecimalInt::from_u64(887)], info_for(196, 100));
    let mut b = ThreadCache::new(1000);
    b.add_thread(&vec![BigDecimalInt::from_u64(887)], info_for(295, 100));
    a.merge(b);
    let kept = a.check(&BigDecimalInt::from_u64(887)).unwrap();
    assert_eq!(kept.max_iterations_tested, 100);
    assert_eq!(kept.seed_number, BigDecimalInt::from_u64(196));
}
