use collider::pipeline::run;
use collider::sampler::{generate_sample, sample_batch};
use collider::Config;

#[test]
fn default_configuration() {
    let cfg = Config::default();
    assert_eq!(cfg.batch_size, 10000);
    assert_eq!(cfg.digest_bytes, 2);
    assert_eq!(cfg.sample_length, 10);
    assert_eq!(cfg.collision_threshold, 3);
}

#[test]
fn sample_has_requested_length() {
    for len in [0usize, 1, 10, 64] {
        assert_eq!(generate_sample(len).chars().count(), len);
    }
}

#[test]
fn sampler_returns_exact_batch() {
    let batch = sample_batch(25, 10);
    assert_eq!(batch.len(), 25);
    for s in &batch {
        assert_eq!(s.chars().count(), 10);
    }
}

#[test]
fn sampler_empty_batch() {
    assert_eq!(sample_batch(0, 10).len(), 0);
}

#[test]
fn run_with_empty_digests_collapses_to_one_record() {
    // With a zero-byte digest every sample collides, so the report holds one
    // record counting the whole batch.
    let cfg = Config {
        batch_size: 50,
        digest_bytes: 0,
        sample_length: 4,
        collision_threshold: 0,
    };
    let report = run(&cfg);
    assert_eq!(report.len(), 1);
    assert_eq!(report[0].hash.len(), 0);
    assert_eq!(report[0].count, 50);
}

#[test]
fn run_respects_threshold() {
    // Every reported value must be a collision occurring strictly more often
    // than the threshold, and the reported counts cannot exceed the batch.
    let cfg = Config {
        batch_size: 40,
        digest_bytes: 1,
        sample_length: 3,
        collision_threshold: 2,
    };
    let report = run(&cfg);
    let total: usize = report.iter().map(|r| r.count).sum();
    assert!(total <= 40);
    for r in &report {
        assert_eq!(r.hash.len(), 1);
        assert!(r.count > 2);
    }
}
