use neighbor_query::{random_indices, random_points};

#[test]
fn random_indices_stay_below_the_bound() {
    let indices = random_indices(1000, 10);
    assert_eq!(1000, indices.len());
    assert!(indices.iter().all(|&i| i < 10));
}

#[test]
fn random_indices_with_one_choice() {
    assert_eq!(vec![0; 25], random_indices(25, 1));
}

#[test]
fn random_indices_vary() {
    let indices = random_indices(1000, 1_000_000);
    let first = indices[0];
    assert!(indices.iter().any(|&i| i != first));
}

#[test]
fn random_indices_may_be_none() {
    assert!(random_indices(0, 5).is_empty());
}

#[test]
fn random_points_stay_within_the_size() {
    let points = random_points::<3>(500, 40);
    assert_eq!(500, points.len());
    for p in &points {
        for &c in p {
            assert!(-40 <= c && c < 40);
        }
    }
}

#[test]
fn random_points_vary() {
    let points = random_points::<2>(1000, 1_000_000);
    let first = points[0];
    assert!(points.iter().any(|p| *p != first));
    assert!(points.iter().any(|p| p[0] != -1_000_000));
    assert!(points.iter().any(|p| p[0] != p[1]));
}

#[test]
fn random_points_with_the_smallest_size() {
    let points = random_points::<1>(200, 1);
    assert!(points.iter().all(|p| p[0] == -1 || p[0] == 0));
}

#[test]
fn random_points_without_axes() {
    let points = random_points::<0>(4, 9);
    assert_eq!(4, points.len());
}
