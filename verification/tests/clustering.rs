use neighbor_query::{dbscan, naive_query, random_points, Error, Label};

/// The lattice coordinate of a position, a thousand steps to the unit.
fn lattice(x: f32) -> i32 {
    (x * 1000.0).round() as i32
}

fn lattice_points<const D: usize>(points: &[[f32; D]]) -> Vec<[i32; D]> {
    points.iter().map(|p| p.map(lattice)).collect()
}

#[test]
fn three_close_points_and_one_far_away() {
    let points = lattice_points(&[[0.0, 0.0], [0.05, 0.0], [0.05, 0.05], [5.0, 5.0]]);
    let labels = dbscan(&points, lattice(0.2), 2).unwrap();
    assert_eq!(
        vec![Label::Cluster(1), Label::Cluster(1), Label::Cluster(1), Label::Noise],
        labels
    );
}

#[test]
fn a_border_point_joins_the_cluster_of_its_core_point() {
    // point 3 has one neighbor, point 2, which is a core point
    let points = vec![[0], [1], [2], [4]];
    let labels = dbscan(&points, 2, 2).unwrap();
    assert_eq!(1, naive_query(&points, 3, 2).len());
    assert_eq!(3, naive_query(&points, 2, 2).len());
    assert_eq!(vec![Label::Cluster(1); 4], labels);
}

#[test]
fn a_point_marked_noise_is_taken_in_later() {
    // point 0 is scanned first and has too few neighbors, so it is noise
    // until the cluster of point 1 reaches it
    let points = vec![[0], [2], [3], [4]];
    let labels = dbscan(&points, 2, 2).unwrap();
    assert_eq!(vec![1], naive_query(&points, 0, 2));
    assert_eq!(vec![Label::Cluster(1); 4], labels);
}

#[test]
fn a_border_point_does_not_carry_the_cluster_on() {
    // point 2 is the only core point, and 0, 1 and 3 are the border points
    // of its cluster; point 4 is next to the border point 3 only, which
    // does not carry the cluster on
    let points = vec![[0], [1], [2], [4], [6]];
    let labels = dbscan(&points, 2, 3).unwrap();
    assert_eq!(
        vec![
            Label::Cluster(1),
            Label::Cluster(1),
            Label::Cluster(1),
            Label::Cluster(1),
            Label::Noise
        ],
        labels
    );
    let points = vec![[0], [1], [2], [5], [7]];
    let labels = dbscan(&points, 2, 2).unwrap();
    assert_eq!(
        vec![
            Label::Cluster(1),
            Label::Cluster(1),
            Label::Cluster(1),
            Label::Noise,
            Label::Noise
        ],
        labels
    );
}

#[test]
fn clusters_are_numbered_in_the_order_found() {
    let points = vec![[100, 0], [0, 0], [101, 0], [1, 0], [50, 50], [102, 1], [0, 1]];
    let labels = dbscan(&points, 3, 2).unwrap();
    assert_eq!(
        vec![
            Label::Cluster(1),
            Label::Cluster(2),
            Label::Cluster(1),
            Label::Cluster(2),
            Label::Noise,
            Label::Cluster(1),
            Label::Cluster(2)
        ],
        labels
    );
}

#[test]
fn a_point_between_two_clusters_joins_the_first() {
    // the core points are 0 and 4, too far apart to be neighbors; point 3
    // lies within the radius of both and is no core point itself
    let points = vec![[2, 0], [3, 0], [2, 1], [1, 0], [0, 0], [-1, 0], [0, 1]];
    assert_eq!(vec![1, 2, 3], naive_query(&points, 0, 1));
    assert_eq!(vec![0, 4], naive_query(&points, 3, 1));
    assert_eq!(vec![3, 5, 6], naive_query(&points, 4, 1));
    let labels = dbscan(&points, 1, 3).unwrap();
    assert_eq!(
        vec![
            Label::Cluster(1),
            Label::Cluster(1),
            Label::Cluster(1),
            Label::Cluster(1),
            Label::Cluster(2),
            Label::Cluster(2),
            Label::Cluster(2)
        ],
        labels
    );
}

#[test]
fn a_noise_point_between_two_clusters_joins_the_first() {
    // as before, but the point between the clusters is scanned first
    let points = vec![[1, 0], [0, 0], [-1, 0], [0, 1], [2, 0], [3, 0], [2, 1]];
    let labels = dbscan(&points, 1, 3).unwrap();
    assert_eq!(
        vec![
            Label::Cluster(1),
            Label::Cluster(1),
            Label::Cluster(1),
            Label::Cluster(1),
            Label::Cluster(2),
            Label::Cluster(2),
            Label::Cluster(2)
        ],
        labels
    );
}

#[test]
fn the_point_itself_does_not_count_towards_the_threshold() {
    let points = vec![[0, 0], [1, 0]];
    assert_eq!(vec![Label::Cluster(1); 2], dbscan(&points, 1, 1).unwrap());
    assert_eq!(vec![Label::Noise; 2], dbscan(&points, 1, 2).unwrap());
}

#[test]
fn a_lone_point_is_noise() {
    assert_eq!(vec![Label::Noise], dbscan(&[[3, 3]], 10, 1).unwrap());
}

#[test]
fn no_points_give_no_labels() {
    let none: Vec<[i32; 2]> = vec![];
    assert_eq!(Vec::<Label>::new(), dbscan(&none, 1, 1).unwrap());
}

#[test]
fn no_label_is_left_undefined() {
    for min_pts in 1..6 {
        let points = random_points::<2>(400, 30);
        let labels = dbscan(&points, 3, min_pts).unwrap();
        assert_eq!(points.len(), labels.len());
        assert!(labels.iter().all(|l| *l != Label::Undefined));
    }
}

#[test]
fn clustering_twice_gives_the_same_labels() {
    let points = random_points::<2>(500, 40);
    assert_eq!(dbscan(&points, 4, 3), dbscan(&points, 4, 3));
}

#[test]
fn labels_follow_from_core_points() {
    let points = random_points::<2>(400, 40);
    let radius = 4;
    let min_pts = 3;
    let labels = dbscan(&points, radius, min_pts).unwrap();
    let neighbors: Vec<Vec<usize>> =
        (0..points.len()).map(|i| naive_query(&points, i, radius)).collect();
    let core: Vec<bool> = neighbors.iter().map(|n| n.len() >= min_pts).collect();
    let mut highest = 0;
    for p in 0..points.len() {
        match labels[p] {
            Label::Undefined => panic!("point {} is undefined", p),
            Label::Noise => {
                assert!(!core[p]);
                assert!(neighbors[p].iter().all(|&q| !core[q]));
            }
            Label::Cluster(id) => {
                assert!(id >= 1);
                if core[p] {
                    // among the core points, cluster numbers first appear in order
                    if id > highest {
                        assert_eq!(highest + 1, id);
                        highest = id;
                    }
                    for &q in &neighbors[p] {
                        if core[q] {
                            assert_eq!(labels[p], labels[q]);
                        } else {
                            assert!(matches!(labels[q], Label::Cluster(other) if other <= id));
                        }
                    }
                } else {
                    let first = neighbors[p]
                        .iter()
                        .filter(|&&q| core[q])
                        .map(|&q| labels[q])
                        .min_by_key(|l| match l {
                            Label::Cluster(other) => *other,
                            _ => 0,
                        });
                    assert_eq!(Some(labels[p]), first);
                }
            }
        }
    }
}

#[test]
fn a_threshold_of_zero_is_refused() {
    assert_eq!(Err(Error::Config), dbscan(&[[0, 0], [1, 1]], 2, 0));
}

#[test]
fn clustering_refuses_a_radius_that_is_not_positive() {
    assert_eq!(Err(Error::Config), dbscan(&[[0, 0], [1, 1]], 0, 2));
    assert_eq!(Err(Error::Config), dbscan(&[[0, 0], [1, 1]], -3, 2));
    assert_eq!(Err(Error::Config), dbscan(&[[0, i32::MAX]], 0, 0));
}

#[test]
fn clustering_refuses_a_point_off_the_lattice() {
    assert_eq!(Err(Error::Input), dbscan(&[[0, 0], [i32::MIN, 1]], 2, 2));
    assert_eq!(Err(Error::Input), dbscan(&[[i32::MAX, 0]], 2, 2));
}
