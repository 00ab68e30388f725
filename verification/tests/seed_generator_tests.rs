//! The seed generator and its orbit-representative filter.

use lychrel_finder::{reverse_number, BigDecimalInt, GeneratorMode, SeedGenerator};

#[test]
fn test_is_potential_seed() {
    let gen = SeedGenerator::new(5, GeneratorMode::Sequential);

    // 19991 reversed = 19991 (palindrome, should pass)
    assert!(gen.is_potential_seed(&BigDecimalInt::from_u64(19991)));

    // 12345 reversed = 54321 > 12345 (should pass, it's a potential seed)
    assert!(gen.is_potential_seed(&BigDecimalInt::from_u64(12345)));

    // 54321 reversed = 12345 < 54321 (should fail, 12345 is the seed)
    assert!(!gen.is_potential_seed(&BigDecimalInt::from_u64(54321)));

    // 10000 reversed = 00001 = 1 < 10000 (should fail)
    assert!(!gen.is_potential_seed(&BigDecimalInt::from_u64(10000)));
}

#[test]
fn test_generator_sequential() {
    let mut gen = SeedGenerator::new(3, GeneratorMode::Sequential);

    // First number with 3 digits is 100
    let first = gen.next();
    assert!(first.is_some());

    // Should generate some numbers
    let mut count = 0;
    for _ in 0..10 {
        if gen.next().is_some() {
            count += 1;
        }
    }
    assert_eq!(count, 10);
}

#[test]
fn test_generator_filters_reversed() {
    let mut gen = SeedGenerator::new(3, GeneratorMode::Sequential);

    // Collect first 50 numbers
    let mut numbers: Vec<BigDecimalInt> = Vec::new();
    while numbers.len() < 50 {
        numbers.push(gen.next().expect("the width holds at least 50 admitted seeds"));
    }

    // Check that none of them have reverse < themselves
    for n in &numbers {
        let reversed = reverse_number(n);
        assert!(
            !reversed.less_than(n),
            "Generated number {:?} has reverse {:?} < itself",
            n,
            reversed
        );
    }
}

#[test]
fn test_generator_stats() {
    let mut gen = SeedGenerator::new(3, GeneratorMode::Sequential);

    // Generate some numbers
    for _ in 0..100 {
        let _ = gen.next();
    }

    let stats = gen.get_stats();
    assert_eq!(stats.generated_count, 100);
    assert!(stats.skip_count > 0, "Should have skipped some numbers");

    println!(
        "Generated: {}, Skipped: {}",
        stats.generated_count, stats.skip_count
    );
}

#[test]
fn test_generator_from_checkpoint() {
    let start = BigDecimalInt::from_u64(50000);
    let mut gen = SeedGenerator::from_checkpoint(5, GeneratorMode::Sequential, start.clone());

    let first = gen.next().unwrap();
    assert!(!first.less_than(&start));
}

#[test]
fn test_generator_exhausts_width() {
    // Width 1 admits every digit (all single digits are palindromes).
    let mut gen = SeedGenerator::new(1, GeneratorMode::Sequential);
    let mut produced: Vec<BigDecimalInt> = Vec::new();
    while let Some(c) = gen.next() {
        produced.push(c);
    }
    assert_eq!(produced.len(), 9);
    assert_eq!(produced[0], BigDecimalInt::from_u64(1));
    assert_eq!(produced[8], BigDecimalInt::from_u64(9));
}

#[test]
fn test_smart_random_yields_admitted_width_candidates() {
    let mut gen = SeedGenerator::new(4, GeneratorMode::SmartRandom);
    for _ in 0..20 {
        let c = gen.next().expect("random mode yields while the width is open");
        assert_eq!(c.digit_count(), 4);
        let reversed = reverse_number(&c);
        assert!(!reversed.less_than(&c));
    }
}

#[test]
fn test_next_raw_batch_is_consecutive() {
    let mut gen = SeedGenerator::new(3, GeneratorMode::Sequential);
    let batch = gen.next_raw_batch(5);
    assert_eq!(batch.len(), 5);
    for (i, c) in batch.iter().enumerate() {
        assert_eq!(*c, BigDecimalInt::from_u64(100 + i as u64));
    }
    assert_eq!(gen.current_position(), BigDecimalInt::from_u64(105));

    // The batch stops at the width's end.
    let mut near_end =
        SeedGenerator::from_checkpoint(3, GeneratorMode::Sequential, BigDecimalInt::from_u64(998));
    let tail = near_end.next_raw_batch(10);
    assert_eq!(tail.len(), 2);
}

#[test]
fn test_skip_count_is_exact() {
    // From 100: the filter rejects 100 (reverse 1) and admits 101 (a
    // palindrome), so one skip and one admission.
    let mut gen = SeedGenerator::new(3, GeneratorMode::Sequential);
    let first = gen.next().unwrap();
    assert_eq!(first, BigDecimalInt::from_u64(101));
    let stats = gen.get_stats();
    assert_eq!(stats.generated_count, 1);
    assert_eq!(stats.skip_count, 1);
}
