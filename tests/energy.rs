use unit_sphere_distribution::energy::energy;

#[test]
fn antipodal_pair_has_energy_128() {
    let points = [[1, 0, 0], [-1, 0, 0]];
    assert_eq!(energy(&points, 1), 128);
}

#[test]
fn single_point_has_only_its_diagonal_term() {
    assert_eq!(energy(&[[0, 0, 1]], 1), 64);
    assert_eq!(energy(&[[0, 3, 4]], 25), 64 * 25i128.pow(6));
}

#[test]
fn diagonal_offset_is_64_per_point() {
    // Mutually orthogonal unit vectors: every off-diagonal pair gives (0 + 1)^6 = 1.
    let points = [[1, 0, 0], [0, 1, 0], [0, 0, 1]];
    assert_eq!(energy(&points, 1), 64 * 3 + 6);
}

#[test]
fn coincident_points_have_highest_energy() {
    let points = [[0, 1, 0], [0, 1, 0]];
    assert_eq!(energy(&points, 1), 4 * 64);
}

#[test]
fn energy_ignores_point_order() {
    let a = [[3, 4, 0], [0, 5, 0], [-3, 0, 4], [0, 0, -5]];
    let b = [[0, 0, -5], [-3, 0, 4], [3, 4, 0], [0, 5, 0]];
    assert_eq!(energy(&a, 25), energy(&b, 25));
}

#[test]
fn empty_set_has_zero_energy() {
    let points: [[i64; 3]; 0] = [];
    assert_eq!(energy(&points, 1), 0);
}

#[test]
fn energy_at_largest_bounds() {
    let points = vec![[128i64, 128, 128]; 4096];
    let expected = 4096i128 * 4096 * 98304i128.pow(6);
    assert_eq!(energy(&points, 49152), expected);
}
