use unit_sphere_distribution::fixed::{normalize, UNIT};
use unit_sphere_distribution::pairs::{extract, zip};

#[test]
fn zip_groups_consecutive_pairs() {
    let flat = vec![1.5f64, 2.5, 3.5, 4.5];
    let pairs = zip(&flat);
    assert_eq!(pairs, vec![[1.5, 2.5], [3.5, 4.5]]);
}

#[test]
fn zip_drops_trailing_odd_element() {
    let flat = vec![1, 2, 3];
    assert_eq!(zip(&flat), vec![[1, 2]]);
    let empty: Vec<i32> = Vec::new();
    assert!(zip(&empty).is_empty());
}

#[test]
fn extract_flattens_pairs() {
    let pairs = vec![[0.25f64, -1.0], [2.0, 3.0]];
    assert_eq!(extract(&pairs), vec![0.25, -1.0, 2.0, 3.0]);
}

#[test]
fn zip_after_extract_gives_pairs_back() {
    let pairs = vec![[1u32, 2], [3, 4], [5, 6]];
    assert_eq!(zip(&extract(&pairs)), pairs);
}

#[test]
fn normalize_scales_to_unit_length() {
    assert_eq!(normalize(&[3, 0, 4]), [629145, 0, 838860]);
    assert_eq!(normalize(&[-3, 0, 4]), [-629145, 0, 838860]);
    assert_eq!(normalize(&[UNIT, 0, 0]), [UNIT, 0, 0]);
    assert_eq!(normalize(&[0, 0, -5 * UNIT]), [0, 0, -UNIT]);
}

#[test]
fn normalize_short_inputs_reach_unit_length() {
    let cases = [[1i64, 1, 0], [1, 1, 1], [1000, 1000, 0], [UNIT, UNIT, 0], [0, -1, 0]];
    for p in cases {
        let r = normalize(&p);
        let n: i128 = r.iter().map(|&c| (c as i128) * (c as i128)).sum();
        let u = UNIT as i128;
        assert!((u - 5) * (u - 5) <= n && n <= u * u, "{:?} -> {:?}", p, r);
    }
    assert_eq!(normalize(&[1, 1, 0]), [741454, 741454, 0]);
    assert_eq!(normalize(&[1000, 1000, 0]), [741455, 741455, 0]);
    assert_eq!(normalize(&[UNIT, UNIT, 0]), [741455, 741455, 0]);
    assert_eq!(normalize(&[0, -1, 0]), [0, -UNIT, 0]);
}

#[test]
fn normalize_is_nearly_idempotent() {
    let once = normalize(&[1, 2, 2]);
    let twice = normalize(&once);
    for k in 0..3 {
        assert!((once[k] - twice[k]).abs() <= 2);
    }
}

#[test]
fn normalize_keeps_zero_vector() {
    assert_eq!(normalize(&[0, 0, 0]), [0, 0, 0]);
}
