use neighbor_query::grid::{
    add, floor_div, hash_key, is_on_lattice, quantize, same_key, COORD_LIMIT,
};
use neighbor_query::metric::{distance_sq, radius_squared};

#[test]
fn quantize_rounds_down() {
    assert_eq!([0, 0, 0, 1, 1, 2], quantize([0, 1, 9, 10, 19, 20], 10));
    assert_eq!([-1, -1, -1, -2, -2, -3], quantize([-1, -9, -10, -11, -20, -21], 10));
}

#[test]
fn quantize_with_unit_cells_is_the_identity() {
    assert_eq!([-5, 0, 7], quantize([-5, 0, 7], 1));
}

#[test]
fn quantize_at_the_ends_of_the_range() {
    assert_eq!([i32::MIN, i32::MAX], quantize([i32::MIN, i32::MAX], 1));
    assert_eq!([-1073741824, 1073741823], quantize([i32::MIN, i32::MAX], 2));
    assert_eq!([-2, 1], quantize([i32::MIN, i32::MAX], i32::MAX));
    assert_eq!([-1, 0], quantize([-1, i32::MAX - 1], i32::MAX));
    assert_eq!([-1, 1], quantize([-i32::MAX, i32::MAX], i32::MAX));
}

#[test]
fn floor_div_agrees_with_euclidean_division() {
    for c in -50i32..50 {
        for r in 1i32..12 {
            assert_eq!(c.div_euclid(r), floor_div(c, r));
        }
    }
}

#[test]
fn close_coordinates_have_adjacent_cells() {
    for r in 1i32..9 {
        for a in -40i32..40 {
            for b in (a - r)..=(a + r) {
                assert!((floor_div(a, r) - floor_div(b, r)).abs() <= 1);
            }
        }
    }
}

#[test]
fn add_sums_axis_by_axis() {
    assert_eq!([0, 5, -3], add([1, 2, -3], [-1, 3, 0]));
    assert_eq!([i32::MAX, i32::MIN], add([i32::MAX - 1, i32::MIN + 1], [1, -1]));
    let empty: [i32; 0] = [];
    assert_eq!(empty, add(empty, empty));
}

#[test]
fn distance_sq_of_a_known_triangle() {
    assert_eq!(25, distance_sq([0, 0], [3, 4]));
    assert_eq!(25, distance_sq([3, 4], [0, 0]));
    assert_eq!(0, distance_sq([7, -7, 7], [7, -7, 7]));
    assert_eq!(3, distance_sq([0, 0, 0], [1, -1, 1]));
}

#[test]
fn distance_sq_does_not_overflow() {
    assert_eq!(18446744065119617025, distance_sq([i32::MIN], [i32::MAX]));
    assert_eq!(
        36893488130239234050,
        distance_sq([i32::MIN, i32::MAX], [i32::MAX, i32::MIN])
    );
    let empty: [i32; 0] = [];
    assert_eq!(0, distance_sq(empty, empty));
}

#[test]
fn radius_squared_is_exact() {
    assert_eq!(0, radius_squared(0));
    assert_eq!(100, radius_squared(10));
    assert_eq!(100, radius_squared(-10));
    assert_eq!(4611686014132420609, radius_squared(i32::MAX));
    assert_eq!(4611686018427387904, radius_squared(i32::MIN));
}

#[test]
fn lattice_ends_at_the_coordinate_limit() {
    assert_eq!(2147483646, COORD_LIMIT);
    assert!(is_on_lattice(&[0, COORD_LIMIT, -COORD_LIMIT]));
    assert!(!is_on_lattice(&[0, i32::MAX]));
    assert!(!is_on_lattice(&[i32::MIN, 0]));
    assert!(!is_on_lattice(&[-i32::MAX]));
    let empty: [i32; 0] = [];
    assert!(is_on_lattice(&empty));
}

#[test]
fn same_key_compares_every_axis() {
    assert!(same_key(&[1, 2, 3], &[1, 2, 3]));
    assert!(!same_key(&[1, 2, 3], &[1, 2, 4]));
    assert!(!same_key(&[0, 2, 3], &[1, 2, 3]));
}

#[test]
fn hash_key_has_known_values() {
    let empty: [i32; 0] = [];
    assert_eq!(14695981039346656037, hash_key(&empty));
    assert_eq!(12638152016183539244, hash_key(&[1]));
    assert_eq!(94448226179066244, hash_key(&[-1, 2]));
    assert_eq!(590684067820433389, hash_key(&[0, 0]));
}

#[test]
fn hash_key_tells_neighboring_cells_apart() {
    let mut seen = Vec::new();
    for x in -3..=3 {
        for y in -3..=3 {
            seen.push(hash_key(&[x, y]));
        }
    }
    seen.sort();
    seen.dedup();
    assert_eq!(49, seen.len());
}
