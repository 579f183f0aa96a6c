use pool_stats::report::{ValidationError, WorkerReport};
use pool_stats::store::ReportStore;

fn report(worker_id: &str, pool: &str, hashrate_milli: i64, temperature: i32, timestamp: i64) -> WorkerReport {
    WorkerReport {
        worker_id: worker_id.to_string(),
        pool: pool.to_string(),
        hashrate_milli,
        temperature,
        timestamp,
    }
}

const NOW: i64 = 1_700_000_000;

#[test]
fn test_post_report_valid() {
    let mut store = ReportStore::new();
    let result = store.submit(report("worker-123", "us-east", 50_500, 68, NOW));
    assert!(result.is_ok());
    assert_eq!(store.len(), 1);
}

#[test]
fn test_post_report_invalid_worker_id() {
    let mut store = ReportStore::new();
    let result = store.submit(report("", "us-east", 50_500, 68, NOW));
    assert!(result.is_err());
    assert_eq!(result.unwrap_err(), ValidationError::InvalidWorkerId);
    assert_eq!(store.len(), 0);
}

#[test]
fn test_get_stats_empty() {
    let store = ReportStore::new();
    let stats = store.query_stats(NOW);
    assert_eq!(stats.pool_count(), 0);
}

#[test]
fn validation_empty_pool() {
    let mut store = ReportStore::new();
    let result = store.submit(report("w1", "", 1_000, 50, NOW));
    assert_eq!(result.unwrap_err(), ValidationError::InvalidPool);
}

#[test]
fn validation_negative_hashrate() {
    let mut store = ReportStore::new();
    let result = store.submit(report("w1", "us-east", -1, 50, NOW));
    assert_eq!(result.unwrap_err(), ValidationError::InvalidHashrate);
}

#[test]
fn validation_nonpositive_timestamp() {
    let mut store = ReportStore::new();
    assert_eq!(
        store.submit(report("w1", "us-east", 1_000, 50, 0)).unwrap_err(),
        ValidationError::InvalidTimestamp
    );
    assert_eq!(
        store.submit(report("w1", "us-east", 1_000, 50, -5)).unwrap_err(),
        ValidationError::InvalidTimestamp
    );
}

#[test]
fn validation_fail_fast_order() {
    let mut store = ReportStore::new();
    // Several fields invalid at once: the first in validation order decides.
    let result = store.submit(report("", "", -1, 50, 0));
    assert_eq!(result.unwrap_err(), ValidationError::InvalidWorkerId);
    let result = store.submit(report("w1", "", -1, 50, 0));
    assert_eq!(result.unwrap_err(), ValidationError::InvalidPool);
    let result = store.submit(report("w1", "p", -1, 50, 0));
    assert_eq!(result.unwrap_err(), ValidationError::InvalidHashrate);
    assert_eq!(store.len(), 0);
}

#[test]
fn validation_one_invalid_field_regardless_of_others() {
    let mut store = ReportStore::new();
    // Exactly one invalid field, the others valid: the error names that field.
    assert_eq!(
        store.submit(report("", "us-east", 1_000, -40, NOW)).unwrap_err(),
        ValidationError::InvalidWorkerId
    );
    assert_eq!(
        store.submit(report("w1", "us-east", -7, 120, NOW)).unwrap_err(),
        ValidationError::InvalidHashrate
    );
    assert_eq!(
        store.submit(report("w1", "us-east", 0, 50, -1)).unwrap_err(),
        ValidationError::InvalidTimestamp
    );
}

#[test]
fn negative_temperature_accepted() {
    let mut store = ReportStore::new();
    assert!(store.submit(report("w1", "arctic", 1_000, -25, NOW)).is_ok());
    let stats = store.query_stats(NOW);
    let entry = stats.get(&"arctic".to_string()).unwrap();
    assert_eq!(entry.avg_temp_tenths, -250);
}

#[test]
fn submitted_report_visible() {
    let mut store = ReportStore::new();
    assert!(store.submit(report("w1", "us-east", 10_000, 60, NOW)).is_ok());
    let stats = store.query_stats(NOW + 100);
    let entry = stats.get(&"us-east".to_string()).unwrap();
    assert!(entry.workers >= 1);
}

#[test]
fn window_boundary_exclusive_inclusive() {
    let mut store = ReportStore::new();
    assert!(store.submit(report("w-old", "edge", 1_000, 50, NOW - 300)).is_ok());
    assert!(store.submit(report("w-new", "edge", 1_000, 50, NOW - 299)).is_ok());
    let stats = store.query_stats(NOW);
    let entry = stats.get(&"edge".to_string()).unwrap();
    // Only the report at now - 299 is inside the window.
    assert_eq!(entry.workers, 1);
    let older = store.query_stats(NOW + 1);
    // One second later both reports have fallen out of the window.
    assert!(older.get(&"edge".to_string()).is_none());
}

#[test]
fn future_timestamp_included() {
    let mut store = ReportStore::new();
    assert!(store.submit(report("w1", "ahead", 2_000, 50, NOW + 1_000)).is_ok());
    let stats = store.query_stats(NOW);
    let entry = stats.get(&"ahead".to_string()).unwrap();
    assert_eq!(entry.workers, 1);
    assert_eq!(entry.avg_hashrate_tenths, 20);
}

#[test]
fn averaging_three_reports() {
    let mut store = ReportStore::new();
    // Hashrates 10.0, 20.0, 30.3 units and temperatures 60, 70, 80.
    assert!(store.submit(report("w1", "us-east", 10_000, 60, NOW)).is_ok());
    assert!(store.submit(report("w2", "us-east", 20_000, 70, NOW)).is_ok());
    assert!(store.submit(report("w3", "us-east", 30_300, 80, NOW)).is_ok());
    let stats = store.query_stats(NOW);
    assert_eq!(stats.pool_count(), 1);
    let entry = stats.get(&"us-east".to_string()).unwrap();
    assert_eq!(entry.workers, 3);
    // Mean hashrate 20.1, mean temperature 70.0.
    assert_eq!(entry.avg_hashrate_tenths, 201);
    assert_eq!(entry.avg_temp_tenths, 700);
}

#[test]
fn rounding_half_away_from_zero() {
    let mut store = ReportStore::new();
    // Four reports of 0.05 units each: the mean is 0.05, whose tenths digit
    // rounds half up to 0.1.
    for w in ["a", "b", "c", "d"] {
        assert!(store.submit(report(w, "tiny", 50, 0, NOW)).is_ok());
    }
    let stats = store.query_stats(NOW);
    let entry = stats.get(&"tiny".to_string()).unwrap();
    assert_eq!(entry.avg_hashrate_tenths, 1);

    let mut store2 = ReportStore::new();
    // Temperatures {-1, 0, 0, 0}: mean -0.25, tenths digit rounds half away
    // from zero to -0.3.
    assert!(store2.submit(report("a", "cold", 0, -1, NOW)).is_ok());
    for w in ["b", "c", "d"] {
        assert!(store2.submit(report(w, "cold", 0, 0, NOW)).is_ok());
    }
    let entry2 = store2.query_stats(NOW);
    let cold = entry2.get(&"cold".to_string()).unwrap();
    assert_eq!(cold.avg_temp_tenths, -3);
}

#[test]
fn same_worker_counted_once() {
    let mut store = ReportStore::new();
    assert!(store.submit(report("w1", "us-east", 10_000, 60, NOW - 10)).is_ok());
    assert!(store.submit(report("w1", "us-east", 12_000, 62, NOW - 5)).is_ok());
    let stats = store.query_stats(NOW);
    let entry = stats.get(&"us-east".to_string()).unwrap();
    assert_eq!(entry.workers, 1);
    assert_eq!(entry.avg_hashrate_tenths, 110);
}

#[test]
fn pools_are_isolated() {
    let mut store = ReportStore::new();
    assert!(store.submit(report("w1", "us-east", 10_000, 60, NOW)).is_ok());
    assert!(store.submit(report("w2", "eu-west", 90_000, 90, NOW)).is_ok());
    assert!(store.submit(report("w3", "eu-west", 70_000, 70, NOW)).is_ok());
    let stats = store.query_stats(NOW);
    assert_eq!(stats.pool_count(), 2);
    let us = stats.get(&"us-east".to_string()).unwrap();
    assert_eq!(us.workers, 1);
    assert_eq!(us.avg_hashrate_tenths, 100);
    assert_eq!(us.avg_temp_tenths, 600);
    let eu = stats.get(&"eu-west".to_string()).unwrap();
    assert_eq!(eu.workers, 2);
    assert_eq!(eu.avg_hashrate_tenths, 800);
    assert_eq!(eu.avg_temp_tenths, 800);
}

#[test]
fn stale_pool_omitted() {
    let mut store = ReportStore::new();
    assert!(store.submit(report("w1", "historic", 10_000, 60, NOW - 10_000)).is_ok());
    assert!(store.submit(report("w2", "active", 20_000, 65, NOW)).is_ok());
    let stats = store.query_stats(NOW);
    assert_eq!(stats.pool_count(), 1);
    assert!(stats.get(&"historic".to_string()).is_none());
    assert!(stats.get(&"active".to_string()).is_some());
}

#[test]
fn many_submissions_all_visible() {
    let mut store = ReportStore::new();
    for i in 0..3 {
        let worker = format!("us-{i}");
        assert!(store.submit(report(&worker, "us-east", 10_000, 60, NOW)).is_ok());
    }
    for i in 0..4 {
        let worker = format!("eu-{i}");
        assert!(store.submit(report(&worker, "eu-west", 10_000, 60, NOW)).is_ok());
    }
    assert_eq!(store.len(), 7);
    let stats = store.query_stats(NOW);
    assert_eq!(stats.pool_count(), 2);
    assert_eq!(stats.get(&"us-east".to_string()).unwrap().workers, 3);
    assert_eq!(stats.get(&"eu-west".to_string()).unwrap().workers, 4);
}

#[test]
fn snapshot_preserves_fields() {
    let mut store = ReportStore::new();
    assert!(store.submit(report("w1", "us-east", 12_345, -7, NOW)).is_ok());
    let snap = store.snapshot();
    assert_eq!(snap.len(), 1);
    assert_eq!(snap[0].worker_id, "w1");
    assert_eq!(snap[0].pool, "us-east");
    assert_eq!(snap[0].hashrate_milli, 12_345);
    assert_eq!(snap[0].temperature, -7);
    assert_eq!(snap[0].timestamp, NOW);
}

#[test]
fn single_report_group_averages_its_values() {
    let mut store = ReportStore::new();
    assert!(store.submit(report("w1", "solo", 55_550, 68, NOW)).is_ok());
    let stats = store.query_stats(NOW);
    let entry = stats.get(&"solo".to_string()).unwrap();
    assert_eq!(entry.workers, 1);
    // 55.550 units: the tenths digit rounds 55.55 half up to 55.6.
    assert_eq!(entry.avg_hashrate_tenths, 556);
    assert_eq!(entry.avg_temp_tenths, 680);
}
