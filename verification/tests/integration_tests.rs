//! Range searches and long runs, end to end.

use lychrel_finder::{lychrel_iteration, search_range, BigDecimalInt, SearchConfig};

#[test]
fn test_known_lychrel_candidate_196() {
    let result = lychrel_iteration(BigDecimalInt::from_u64(196), 1000);
    assert!(!result.is_palindrome);
    assert!(result.is_potential_lychrel);
    assert_eq!(result.start_number, BigDecimalInt::from_u64(196));
}

#[test]
fn test_number_89_reaches_palindrome() {
    let result = lychrel_iteration(BigDecimalInt::from_u64(89), 1000);
    assert!(result.is_palindrome);
    assert!(!result.is_potential_lychrel);
    assert_eq!(result.iterations, 24);
}

#[test]
fn test_number_10_reaches_palindrome() {
    let result = lychrel_iteration(BigDecimalInt::from_u64(10), 1000);
    assert!(result.is_palindrome);
    assert!(!result.is_potential_lychrel);
    assert_eq!(result.iterations, 1);
    assert_eq!(result.final_number, Some(BigDecimalInt::from_u64(11)));
}

#[test]
fn test_number_10_in_5_iterations() {
    let result = lychrel_iteration(BigDecimalInt::from_u64(10), 5);
    assert!(result.is_palindrome);
    assert_eq!(result.iterations, 1);
    assert_eq!(result.final_number, Some(BigDecimalInt::from_u64(11)));
}

#[test]
fn test_search_small_range() {
    let config = SearchConfig {
        start: BigDecimalInt::from_u64(1),
        end: BigDecimalInt::from_u64(10),
        max_iterations: 100,
        parallel: false,
        checkpoint_interval: None,
        checkpoint_file: None,
    };

    let results = search_range(config);
    assert_eq!(results.total_tested, 10);
}

#[test]
fn test_search_finds_196() {
    let config = SearchConfig {
        start: BigDecimalInt::from_u64(196),
        end: BigDecimalInt::from_u64(196),
        max_iterations: 50,
        parallel: false,
        checkpoint_interval: None,
        checkpoint_file: None,
    };

    let results = search_range(config);
    assert_eq!(results.potential_lychrel.len(), 1);
    assert_eq!(
        results.potential_lychrel[0].start_number,
        BigDecimalInt::from_u64(196)
    );
}

#[test]
fn test_search_range_finds_multiple_lychrel() {
    let config = SearchConfig {
        start: BigDecimalInt::from_u64(190),
        end: BigDecimalInt::from_u64(200),
        max_iterations: 100,
        parallel: false,
        checkpoint_interval: None,
        checkpoint_file: None,
    };

    let results = search_range(config);

    assert_eq!(results.total_tested, 11);
    assert!(results.potential_lychrel.len() > 0);

    let has_196 = results
        .potential_lychrel
        .iter()
        .any(|r| r.start_number == BigDecimalInt::from_u64(196));
    assert!(has_196);
}

#[test]
fn test_parallel_vs_sequential() {
    let config_seq = SearchConfig {
        start: BigDecimalInt::from_u64(1),
        end: BigDecimalInt::from_u64(100),
        max_iterations: 100,
        parallel: false,
        checkpoint_interval: None,
        checkpoint_file: None,
    };

    let config_par = SearchConfig {
        start: BigDecimalInt::from_u64(1),
        end: BigDecimalInt::from_u64(100),
        max_iterations: 100,
        parallel: true,
        checkpoint_interval: None,
        checkpoint_file: None,
    };

    let results_seq = search_range(config_seq);
    let results_par = search_range(config_par);

    assert_eq!(results_seq.total_tested, results_par.total_tested);
    assert_eq!(
        results_seq.potential_lychrel.len(),
        results_par.potential_lychrel.len()
    );
}

#[test]
fn test_large_number() {
    let large = BigDecimalInt::from_decimal_bytes(b"12345678901234567890").unwrap();
    let result = lychrel_iteration(large.clone(), 10);

    assert_eq!(result.start_number, large);
    assert!(result.iterations <= 10);
}
