use neighbor_query::{naive_query, random_indices, random_points, Error, QueryAccelerator};

/// The lattice coordinate of a position, a thousand steps to the unit.
fn lattice(x: f32) -> i32 {
    (x * 1000.0).round() as i32
}

fn lattice_points<const D: usize>(points: &[[f32; D]]) -> Vec<[i32; D]> {
    points.iter().map(|p| p.map(lattice)).collect()
}

fn sorted(mut list: Vec<usize>) -> Vec<usize> {
    list.sort();
    list
}

#[test]
fn query_accel_test_answers_agree() {
    let n_points = 1000;
    let n_test_indices = 100;
    let scale = lattice(3.343);

    let radius = lattice(0.75);

    let points = random_points::<2>(n_points, scale);

    let query_accel = QueryAccelerator::new(&points, radius).unwrap();

    for &test_idx in &random_indices(n_test_indices, points.len()) {
        let mut naive: Vec<usize> = naive_query(&points, test_idx, radius);
        let mut accel: Vec<usize> = query_accel.query_neighbors(&points, test_idx).unwrap();
        naive.sort();
        accel.sort();
        assert_eq!(naive, accel);
    }
}

#[test]
fn main_test_answers_agree() {
    let n_points = 1000;
    let n_test_indices = 100;
    let scale = lattice(3.343);

    let radius = lattice(0.75);

    let points = random_points::<2>(n_points, scale);

    let query_accel = QueryAccelerator::new(&points, radius).unwrap().sort_indices();

    for &test_idx in &random_indices(n_test_indices, points.len()) {
        let mut naive: Vec<usize> = naive_query(&points, test_idx, radius);
        let mut accel: Vec<usize> = query_accel.query_neighbors(&points, test_idx).unwrap();
        naive.sort();
        accel.sort();
        assert_eq!(naive, accel);
    }
}

#[test]
fn answers_agree_in_space_with_crowded_cells() {
    let points = random_points::<3>(600, 40);
    let accel = QueryAccelerator::new(&points, 9).unwrap();
    for idx in 0..points.len() {
        let found = accel.query_neighbors(&points, idx).unwrap();
        assert_eq!(naive_query(&points, idx, 9), sorted(found));
    }
}

#[test]
fn answers_agree_on_a_line_with_unit_cells() {
    let points = random_points::<1>(300, 50);
    let accel = QueryAccelerator::new(&points, 1).unwrap();
    for idx in 0..points.len() {
        let found = accel.query_neighbors(&points, idx).unwrap();
        assert_eq!(naive_query(&points, idx, 1), sorted(found));
    }
}

#[test]
fn two_points_find_each_other() {
    let points = lattice_points(&[[0.0, 0.0], [0.05, 0.0]]);
    let index = QueryAccelerator::new(&points, lattice(0.1)).unwrap();
    assert_eq!(Ok(vec![1]), index.query_neighbors(&points, 0));
    assert_eq!(Ok(vec![0]), index.query_neighbors(&points, 1));
}

#[test]
fn a_point_at_the_radius_is_a_neighbor() {
    let points = vec![[0, 0], [3, 4], [3, 5], [-5, 0], [0, -6]];
    let index = QueryAccelerator::new(&points, 5).unwrap();
    assert_eq!(vec![1, 3], sorted(index.query_neighbors(&points, 0).unwrap()));
    assert_eq!(vec![1, 3], naive_query(&points, 0, 5));
}

#[test]
fn the_queried_point_is_left_out() {
    let points = vec![[4, 4], [4, 4], [4, 4], [5, 4]];
    let index = QueryAccelerator::new(&points, 2).unwrap();
    for idx in 0..points.len() {
        let found = index.query_neighbors(&points, idx).unwrap();
        assert!(!found.contains(&idx));
        assert_eq!(3, found.len());
        assert!(!naive_query(&points, idx, 2).contains(&idx));
    }
}

#[test]
fn no_point_is_found_twice() {
    let points = random_points::<2>(400, 30);
    let index = QueryAccelerator::new(&points, 7).unwrap();
    for idx in 0..points.len() {
        let found = index.query_neighbors(&points, idx).unwrap();
        let mut distinct = found.clone();
        distinct.sort();
        distinct.dedup();
        assert_eq!(found.len(), distinct.len());
    }
}

#[test]
fn neighbors_are_mutual() {
    let points = random_points::<2>(200, 25);
    let index = QueryAccelerator::new(&points, 6).unwrap();
    let found: Vec<Vec<usize>> =
        (0..points.len()).map(|i| index.query_neighbors(&points, i).unwrap()).collect();
    for i in 0..points.len() {
        for j in 0..points.len() {
            if i != j {
                assert_eq!(found[i].contains(&j), found[j].contains(&i));
            }
        }
    }
}

#[test]
fn a_query_can_be_repeated() {
    let points = random_points::<2>(300, 20);
    let index = QueryAccelerator::new(&points, 4).unwrap();
    for idx in 0..points.len() {
        assert_eq!(index.query_neighbors(&points, idx), index.query_neighbors(&points, idx));
    }
}

#[test]
fn results_come_cell_by_cell_in_index_order() {
    // cells of side 10 around the cell (0, 0) of point 0, visited with the
    // first axis running fastest
    let points = vec![
        [5, 5],
        [12, 12],
        [4, 4],
        [-2, 12],
        [6, 6],
        [12, -2],
        [-2, -2],
        [5, 12],
    ];
    let index = QueryAccelerator::new(&points, 10).unwrap();
    assert_eq!(Ok(vec![6, 5, 2, 4, 3, 7, 1]), index.query_neighbors(&points, 0));
    assert_eq!(vec![1, 2, 3, 4, 5, 6, 7], naive_query(&points, 0, 10));
}

#[test]
fn sorting_keeps_every_result() {
    let points = random_points::<2>(500, 30);
    let plain = QueryAccelerator::new(&points, 5).unwrap();
    let ordered = QueryAccelerator::new(&points, 5).unwrap().sort_indices();
    for idx in 0..points.len() {
        let a = plain.query_neighbors(&points, idx).unwrap();
        let b = ordered.query_neighbors(&points, idx).unwrap();
        assert_eq!(sorted(a.clone()), sorted(b.clone()));
        assert_eq!(a, b);
    }
}

#[test]
fn sorting_twice_is_sorting_once() {
    let points = random_points::<2>(200, 30);
    let once = QueryAccelerator::new(&points, 5).unwrap().sort_indices();
    let twice = QueryAccelerator::new(&points, 5).unwrap().sort_indices().sort_indices();
    for idx in 0..points.len() {
        assert_eq!(once.query_neighbors(&points, idx), twice.query_neighbors(&points, idx));
    }
}

#[test]
fn a_lone_point_has_no_neighbors() {
    let points = vec![[0, 0, 0]];
    let index = QueryAccelerator::new(&points, 100).unwrap();
    assert_eq!(Ok(vec![]), index.query_neighbors(&points, 0));
    assert!(naive_query(&points, 0, 100).is_empty());
}

#[test]
fn points_without_axes_are_all_neighbors() {
    let points: Vec<[i32; 0]> = vec![[], [], []];
    let index = QueryAccelerator::new(&points, 1).unwrap();
    assert_eq!(Ok(vec![0, 2]), index.query_neighbors(&points, 1));
    assert_eq!(vec![0, 2], naive_query(&points, 1, 1));
}

#[test]
fn points_at_the_edge_of_the_lattice() {
    let far = neighbor_query::grid::COORD_LIMIT;
    let points = vec![[far, far], [far - 1, far], [-far, -far], [-far, 1 - far], [0, 0]];
    for radius in [1, 2, i32::MAX] {
        let index = QueryAccelerator::new(&points, radius).unwrap();
        for idx in 0..points.len() {
            let found = index.query_neighbors(&points, idx).unwrap();
            assert_eq!(naive_query(&points, idx, radius), sorted(found));
        }
    }
    let index = QueryAccelerator::new(&points, 1).unwrap();
    assert_eq!(Ok(vec![1]), index.query_neighbors(&points, 0));
    assert_eq!(Ok(vec![2]), index.query_neighbors(&points, 3));
}

#[test]
fn naive_query_squares_the_radius() {
    let points = vec![[0], [3], [-3], [4]];
    assert_eq!(vec![1, 2], naive_query(&points, 0, 3));
    assert_eq!(vec![1, 2], naive_query(&points, 0, -3));
    assert!(naive_query(&points, 0, 0).is_empty());
}

#[test]
fn a_radius_that_is_not_positive_is_refused() {
    let points = vec![[0, 0], [1, 1]];
    assert_eq!(Some(Error::Config), QueryAccelerator::new(&points, 0).err());
    assert_eq!(Some(Error::Config), QueryAccelerator::new(&points, -1).err());
    assert_eq!(Some(Error::Config), QueryAccelerator::new(&points, i32::MIN).err());
    let none: Vec<[i32; 2]> = vec![];
    assert_eq!(Some(Error::Config), QueryAccelerator::new(&none, 0).err());
}

#[test]
fn a_point_off_the_lattice_is_refused() {
    assert_eq!(Some(Error::Input), QueryAccelerator::new(&[[0, 0], [0, i32::MAX]], 5).err());
    assert_eq!(Some(Error::Input), QueryAccelerator::new(&[[i32::MIN, 0]], 5).err());
    assert_eq!(Some(Error::Input), QueryAccelerator::new(&[[1], [2], [-i32::MAX]], 1).err());
    assert!(QueryAccelerator::new(&[[i32::MAX - 1], [1 - i32::MAX]], 1).is_ok());
}

#[test]
fn a_bad_radius_is_reported_before_a_bad_point() {
    assert_eq!(Some(Error::Config), QueryAccelerator::new(&[[i32::MAX]], 0).err());
}

#[test]
fn an_index_out_of_range_is_refused() {
    let points = vec![[0, 0], [1, 1]];
    let index = QueryAccelerator::new(&points, 3).unwrap();
    assert_eq!(Err(Error::Index), index.query_neighbors(&points, 2));
    assert_eq!(Err(Error::Index), index.query_neighbors(&points, usize::MAX));
    let none: Vec<[i32; 2]> = vec![];
    let empty = QueryAccelerator::new(&none, 3).unwrap();
    assert_eq!(Err(Error::Index), empty.query_neighbors(&none, 0));
}

#[test]
fn an_array_of_another_length_is_refused() {
    let points = vec![[0, 0], [1, 1]];
    let index = QueryAccelerator::new(&points, 3).unwrap();
    assert_eq!(Err(Error::Index), index.query_neighbors(&[[0, 0], [1, 1], [2, 2]], 0));
    assert_eq!(Err(Error::Index), index.query_neighbors(&[[0, 0]], 0));
}
