use unit_sphere_distribution::coordinator::{OptimizationData, OptimizationRunner};

#[test]
fn new_runner_has_no_result() {
    let mut runner: OptimizationRunner<Vec<u8>> = OptimizationRunner::new();
    assert_eq!(runner.latest_request_id(), 0);
    assert_eq!(runner.get_latest_result(), None);
}

#[test]
fn requests_get_increasing_ids() {
    let mut runner: OptimizationRunner<&str> = OptimizationRunner::new();
    let first = runner.request_optimization("a");
    let second = runner.request_optimization("b");
    assert_eq!(first.request_id, 1);
    assert_eq!(first.points, "a");
    assert_eq!(second.request_id, 2);
    assert_eq!(runner.latest_request_id(), 2);
}

#[test]
fn request_superseded_before_start_is_skipped() {
    let mut runner: OptimizationRunner<Vec<i64>> = OptimizationRunner::new();
    let first = runner.request_optimization(vec![1]);
    let second = runner.request_optimization(vec![2]);
    assert!(!runner.is_current(first.request_id));
    assert!(runner.is_current(second.request_id));
    runner.store_result(OptimizationData { request_id: second.request_id, points: vec![20] });
    assert_eq!(runner.get_latest_result(), Some(vec![20]));
    assert_eq!(runner.get_latest_result(), None);
}

#[test]
fn result_finished_after_newer_request_is_never_returned() {
    let mut runner: OptimizationRunner<Vec<i64>> = OptimizationRunner::new();
    let first = runner.request_optimization(vec![1]);
    assert!(runner.is_current(first.request_id));
    let second = runner.request_optimization(vec![2]);
    runner.store_result(OptimizationData { request_id: first.request_id, points: vec![10] });
    assert_eq!(runner.get_latest_result(), None);
    assert_eq!(runner.get_latest_result(), None);
    runner.store_result(OptimizationData { request_id: second.request_id, points: vec![20] });
    assert_eq!(runner.get_latest_result(), Some(vec![20]));
}

#[test]
fn newer_result_overwrites_stored_one() {
    let mut runner: OptimizationRunner<i32> = OptimizationRunner::new();
    let first = runner.request_optimization(1);
    let second = runner.request_optimization(2);
    runner.store_result(OptimizationData { request_id: second.request_id, points: 20 });
    runner.store_result(OptimizationData { request_id: first.request_id, points: 10 });
    assert_eq!(runner.get_latest_result(), None);
    runner.store_result(OptimizationData { request_id: first.request_id, points: 10 });
    runner.store_result(OptimizationData { request_id: second.request_id, points: 20 });
    assert_eq!(runner.get_latest_result(), Some(20));
}
