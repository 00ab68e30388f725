//! The record hunter end to end, checkpoint values, and the
//! configuration file image.

use lychrel_finder::record_hunt::WORKER_CACHE_SIZE;
use lychrel_finder::{
    BatchStart, BigDecimalInt, CheckpointConfig, ConfigError, GeneratorMode, HuntConfig,
    HuntStatistics, RecordHuntCheckpoint, RecordHunter, ThreadCache,
};

fn small_config() -> HuntConfig {
    HuntConfig {
        min_digits: 3,
        max_digits: Some(3),
        target_iterations: 20,
        max_iterations: 100,
        target_final_digits: 5,
        cache_size: 10000,
        generator_mode: GeneratorMode::Sequential,
        checkpoint_interval: 1000000,
        checkpoint_file: "hunt_checkpoint.json".to_string(),
        warmup: false,
    }
}

#[test]
fn test_hunt_three_digit_width() {
    let config = small_config();
    assert!(config.validate().is_ok());
    let mut hunter = RecordHunter::new(config);
    let results = hunter.hunt();

    // All 900 three-digit integers are pulled and counted; the filter
    // admits those whose last digit is at least their first: 450 seeds.
    assert_eq!(results.numbers_tested, 900);
    assert_eq!(results.seeds_tested, 450);

    // Every recorded candidate satisfies the record predicate.
    for record in &results.records {
        assert!(record.iterations >= 20);
        assert!(record.iterations <= 100);
        assert!(record.final_digits >= 5);
    }
}

#[test]
fn test_hunt_advances_width() {
    let mut config = small_config();
    config.min_digits = 1;
    config.max_digits = Some(2);
    let mut hunter = RecordHunter::new(config);
    let results = hunter.hunt();
    // 9 one-digit and 90 two-digit numbers.
    assert_eq!(results.numbers_tested, 99);
}

#[test]
fn test_validate_rejects_bad_configs() {
    let mut config = small_config();
    config.target_iterations = 200;
    config.max_iterations = 100;
    assert_eq!(config.validate(), Err(ConfigError::WindowEmpty));

    let mut config = small_config();
    config.min_digits = 0;
    assert_eq!(config.validate(), Err(ConfigError::MinDigitsZero));

    let mut config = small_config();
    config.warmup = true;
    config.cache_size = 0;
    assert_eq!(config.validate(), Err(ConfigError::CacheSizeZeroWithWarmup));
}

#[test]
fn test_config_default_values() {
    let config = HuntConfig::default();
    assert_eq!(config.min_digits, 23);
    assert_eq!(config.max_digits, None);
    assert_eq!(config.target_iterations, 289);
    assert_eq!(config.max_iterations, 300);
    assert_eq!(config.target_final_digits, 142);
    assert!(config.validate().is_ok());
}

#[test]
fn test_config_file_image() {
    let config = small_config();
    let bytes = config.save_to_file();
    let expected = "{\"min_digits\":3,\"max_digits\":3,\"target_iterations\":20,\"max_iterations\":100,\"target_final_digits\":5,\"cache_size\":10000,\"generator_mode\":\"Sequential\",\"checkpoint_interval\":1000000,\"checkpoint_file\":\"hunt_checkpoint.json\",\"warmup\":false}";
    assert_eq!(bytes, expected.as_bytes().to_vec());

    let mut open_ended = small_config();
    open_ended.max_digits = None;
    open_ended.warmup = true;
    let bytes2 = open_ended.save_to_file();
    let text = String::from_utf8(bytes2).unwrap();
    assert!(text.contains("\"max_digits\":null"));
    assert!(text.contains("\"warmup\":true"));
}

fn stats_for_checkpoint() -> HuntStatistics {
    HuntStatistics {
        numbers_tested: 50000,
        seeds_tested: 25000,
        cache_hits: 10000,
        cache_misses: 15000,
        best_iterations_found: 150,
        best_digits_found: 75,
        candidates_above_200: vec![],
    }
}

#[test]
fn test_checkpoint_save_load() {
    let stats = stats_for_checkpoint();

    let config = CheckpointConfig {
        min_digits: 23,
        max_digits: None,
        target_iterations: 289,
        max_iterations: 300,
        target_final_digits: 142,
        cache_size: 1000000,
        checkpoint_interval: 100000,
    };

    let checkpoint = RecordHuntCheckpoint::new(
        &BigDecimalInt::from_u64(123456789),
        23,
        GeneratorMode::Sequential,
        &stats,
        "cache.json".to_string(),
        config,
    );

    // The checkpoint value carries the statistics and position; the
    // embedding application writes and reads the file around it.
    assert_eq!(checkpoint.statistics.numbers_tested, 50000);
    assert_eq!(checkpoint.statistics.seeds_tested, 25000);
    assert_eq!(checkpoint.generator_state.digits, 23);
    assert_eq!(
        checkpoint.get_current_position(),
        BigDecimalInt::from_u64(123456789)
    );
}

#[test]
fn test_get_current_position() {
    let stats = HuntStatistics {
        numbers_tested: 0,
        seeds_tested: 0,
        cache_hits: 0,
        cache_misses: 0,
        best_iterations_found: 0,
        best_digits_found: 0,
        candidates_above_200: vec![],
    };

    let config = CheckpointConfig {
        min_digits: 20,
        max_digits: None,
        target_iterations: 200,
        max_iterations: 250,
        target_final_digits: 100,
        cache_size: 10000,
        checkpoint_interval: 10000,
    };

    let position = BigDecimalInt::from_decimal_bytes(b"99999999999999999999").unwrap();
    let checkpoint = RecordHuntCheckpoint::new(
        &position,
        20,
        GeneratorMode::Sequential,
        &stats,
        "cache.json".to_string(),
        config,
    );

    let loaded_position = checkpoint.get_current_position();
    assert_eq!(loaded_position, position);
}

#[test]
fn test_build_checkpoint_reflects_hunter() {
    let mut hunter = RecordHunter::new(small_config());
    let _ = hunter.hunt();
    let checkpoint = hunter.build_checkpoint("hunt_checkpoint.json_cache.json".to_string());
    assert_eq!(checkpoint.generator_state.digits, 3);
    assert_eq!(checkpoint.statistics.numbers_tested, 900);
    assert_eq!(
        checkpoint.get_current_position(),
        BigDecimalInt::from_u64(1000)
    );
}

#[test]
fn test_width_estimates() {
    // Three-digit width: (1000 - 100) / 2 = 450 expected seeds.
    let hunter = RecordHunter::new(small_config());
    assert_eq!(hunter.calculate_total_numbers(), 450);
    assert_eq!(hunter.calculate_processed_numbers(), 0);

    let mut wide = small_config();
    wide.min_digits = 1;
    wide.max_digits = Some(2);
    let hunter2 = RecordHunter::new(wide);
    // (10 - 1) / 2 + (100 - 10) / 2 = 4 + 45.
    assert_eq!(hunter2.calculate_total_numbers(), 49);
}

#[test]
fn test_config_image_round_trip() {
    // Saving and loading the byte image gives the configuration back,
    // and the reloaded configuration writes the same bytes again.
    let config = small_config();
    let bytes = config.save_to_file();
    let loaded = HuntConfig::load_from_file(&bytes).expect("canonical image parses");
    assert_eq!(loaded.min_digits, 3);
    assert_eq!(loaded.max_digits, Some(3));
    assert_eq!(loaded.target_iterations, 20);
    assert_eq!(loaded.max_iterations, 100);
    assert_eq!(loaded.target_final_digits, 5);
    assert_eq!(loaded.cache_size, 10000);
    assert_eq!(loaded.generator_mode, GeneratorMode::Sequential);
    assert_eq!(loaded.checkpoint_interval, 1000000);
    assert_eq!(loaded.checkpoint_file, "hunt_checkpoint.json");
    assert_eq!(loaded.warmup, false);
    assert_eq!(loaded.save_to_file(), bytes);

    // A mangled image is rejected.
    let mut bad = bytes.clone();
    bad[0] = b'[';
    assert!(HuntConfig::load_from_file(&bad).is_none());
    assert!(HuntConfig::load_from_file(b"").is_none());
}

#[test]
fn test_loader_rejects_tampered_tail() {
    // The loader accepts only a whole image: trailing garbage is refused.
    let config = small_config();
    let mut bytes = config.save_to_file();
    bytes.push(b' ');
    assert!(HuntConfig::load_from_file(&bytes).is_none());
}

#[test]
fn test_batch_units_agree_with_hunt_step() {
    // Driving the batch explicitly through begin/process/absorb gives
    // the same totals as the packaged step.
    let mut hunter = RecordHunter::new(small_config());
    loop {
        match hunter.begin_batch() {
            BatchStart::Candidates { candidates, snapshot } => {
                let mut worker = ThreadCache::new_worker(snapshot, WORKER_CACHE_SIZE);
                let results = RecordHunter::process_batch(
                    &candidates,
                    &mut worker,
                    hunter.target_iterations,
                    hunter.max_iterations,
                    hunter.target_final_digits,
                );
                let batch_len = candidates.len() as u64;
                let lychrel_finder::BatchResults {
                    records: _,
                    promising,
                    seeds_tested,
                    best_iterations,
                    best_digits,
                } = results;
                let _ = hunter.absorb_batch(
                    batch_len,
                    seeds_tested,
                    best_iterations,
                    best_digits,
                    promising,
                    worker,
                );
            }
            BatchStart::WidthAdvanced => {}
            BatchStart::Finished => break,
        }
    }
    assert_eq!(hunter.stats.numbers_tested, 900);
    assert_eq!(hunter.stats.seeds_tested, 450);
}
