use dirsweep::reclaim::{
    aggregate, deletion_result, metadata_failure, total_size, Outcome, ReclaimResult,
};

#[test]
fn empty_target_set_reclaims_nothing() {
    let report = aggregate(&Vec::new());
    assert_eq!(report.total_bytes_freed, 0);
    assert!(report.failures.is_empty());
}

#[test]
fn all_successes_sum_every_size() {
    let results = vec![
        deletion_result("p/a".to_string(), 4096, Ok(())),
        deletion_result("p/b".to_string(), 8192, Ok(())),
        deletion_result("p/c".to_string(), 96, Ok(())),
    ];
    let report = aggregate(&results);
    assert_eq!(report.total_bytes_freed, 4096 + 8192 + 96);
    assert!(report.failures.is_empty());
}

#[test]
fn failed_deletion_is_reported_and_not_counted() {
    let results = vec![
        deletion_result("p/a".to_string(), 4096, Ok(())),
        deletion_result("p/locked".to_string(), 8192, Err("Permission denied".to_string())),
        deletion_result("p/c".to_string(), 100, Ok(())),
    ];
    let report = aggregate(&results);
    assert_eq!(report.total_bytes_freed, 4196);
    assert_eq!(report.failures.len(), 1);
    assert_eq!(report.failures[0].path, "p/locked");
    assert_eq!(report.failures[0].reason, "Permission denied");
}

#[test]
fn metadata_failure_counts_as_failure() {
    let r = metadata_failure("p/x".to_string(), "No such file".to_string());
    assert_eq!(r.size_bytes, 0);
    assert_eq!(r.outcome, Outcome::Failed("No such file".to_string()));
    let report = aggregate(&vec![r]);
    assert_eq!(report.total_bytes_freed, 0);
    assert_eq!(report.failures.len(), 1);
    assert_eq!(report.failures[0].path, "p/x");
}

#[test]
fn deletion_result_keeps_measured_size_on_failure() {
    let r = deletion_result("p/y".to_string(), 512, Err("busy".to_string()));
    assert_eq!(r.size_bytes, 512);
    assert_eq!(r.path, "p/y");
    assert_eq!(r.outcome, Outcome::Failed("busy".to_string()));
}

#[test]
fn aggregate_is_independent_of_completion_order() {
    let a = ReclaimResult { path: "a".to_string(), size_bytes: 10, outcome: Outcome::Success };
    let b = ReclaimResult { path: "b".to_string(), size_bytes: 20, outcome: Outcome::Success };
    let c = ReclaimResult {
        path: "c".to_string(),
        size_bytes: 30,
        outcome: Outcome::Failed("x".to_string()),
    };
    let r1 = aggregate(&vec![a.clone(), b.clone(), c.clone()]);
    let r2 = aggregate(&vec![c, b, a]);
    assert_eq!(r1.total_bytes_freed, 30);
    assert_eq!(r2.total_bytes_freed, 30);
    assert_eq!(r1.failures, r2.failures);
}

#[test]
fn total_saturates_instead_of_overflowing() {
    let results = vec![
        deletion_result("a".to_string(), u64::MAX, Ok(())),
        deletion_result("b".to_string(), 1, Ok(())),
    ];
    assert_eq!(aggregate(&results).total_bytes_freed, u64::MAX);
}

#[test]
fn listing_total_sums_sizes() {
    assert_eq!(total_size(&vec![]), 0);
    assert_eq!(total_size(&vec![4096, 4096, 12]), 8204);
    assert_eq!(total_size(&vec![u64::MAX, 5]), u64::MAX);
}
