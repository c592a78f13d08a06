use unit_sphere_distribution::animation::{
    advance_frame, interpolate, reconcile_lengths, step_fraction, STEP_CAP,
};
use unit_sphere_distribution::fixed::UNIT;

#[test]
fn step_fraction_grows_with_elapsed_time_up_to_cap() {
    assert_eq!(step_fraction(0), 0);
    assert_eq!(step_fraction(1_000_000), 7_000_000);
    assert_eq!(step_fraction(4_285_714), 29_999_998);
    assert_eq!(step_fraction(4_285_715), STEP_CAP);
    assert_eq!(step_fraction(10_000_000), 30_000_000);
    assert_eq!(step_fraction(u64::MAX), STEP_CAP);
}

#[test]
fn growing_target_appends_its_tail() {
    let mut points = vec![[1, 0, 0]];
    let target = vec![[0, 1, 0], [0, 0, 1]];
    reconcile_lengths(&mut points, &target);
    assert_eq!(points, vec![[1, 0, 0], [0, 0, 1]]);
}

#[test]
fn shrinking_target_truncates() {
    let mut points = vec![[1, 0, 0], [0, 0, 1]];
    let target = vec![[0, 1, 0]];
    reconcile_lengths(&mut points, &target);
    assert_eq!(points, vec![[1, 0, 0]]);
}

#[test]
fn interpolation_moves_toward_target() {
    let mut points = vec![[UNIT, 0, 0]];
    let target = vec![[0, UNIT, 0]];
    interpolate(&mut points, &target, 30_000_000);
    assert_eq!(points, vec![[1048074, 32414, 0]]);
    let mut points = vec![[UNIT, 0, 0]];
    interpolate(&mut points, &target, 7_000_000);
    assert_eq!(points, vec![[1048549, 7391, 0]]);
}

#[test]
fn frame_with_new_point_keeps_first_trajectory() {
    let mut points = vec![[UNIT, 0, 0]];
    let target = vec![[0, UNIT, 0]];
    advance_frame(&mut points, &target, 16_000_000);
    assert_eq!(points, vec![[1048074, 32414, 0]]);
    let mut alone = points.clone();
    let grown = vec![[0, UNIT, 0], [0, 0, UNIT]];
    advance_frame(&mut points, &grown, 16_000_000);
    advance_frame(&mut alone, &target, 16_000_000);
    assert_eq!(points.len(), 2);
    assert_eq!(points[0], alone[0]);
    assert_eq!(points[1], [0, 0, UNIT]);
    let shrunk = vec![[0, UNIT, 0]];
    advance_frame(&mut points, &shrunk, 16_000_000);
    assert_eq!(points.len(), 1);
}

#[test]
fn repeated_frames_converge_on_the_sphere() {
    let mut points = vec![[UNIT, 0, 0], [0, 0, -UNIT]];
    let target = vec![[0, UNIT, 0], [UNIT, 0, 0]];
    let dist = |p: &[i64; 3], q: &[i64; 3]| -> f64 {
        let d: Vec<f64> = (0..3).map(|k| (p[k] - q[k]) as f64 / UNIT as f64).collect();
        (d[0] * d[0] + d[1] * d[1] + d[2] * d[2]).sqrt()
    };
    let max_dist = |ps: &Vec<[i64; 3]>| -> f64 {
        ps.iter().zip(target.iter()).map(|(p, q)| dist(p, q)).fold(0.0, f64::max)
    };
    let mut last = max_dist(&points);
    for _ in 0..200 {
        advance_frame(&mut points, &target, 16_000_000);
        let now = max_dist(&points);
        assert!(now <= last);
        last = now;
        for p in &points {
            let n = (p.iter().map(|&c| (c as f64) * (c as f64)).sum::<f64>()).sqrt() / UNIT as f64;
            assert!((n - 1.0).abs() < 1e-5);
        }
    }
    assert!(last < 0.01);
}
