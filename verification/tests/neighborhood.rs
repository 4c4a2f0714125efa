use neighbor_query::offsets::{combos, neighborhood};

#[test]
fn test_neighbors() {
    let mut expect = vec![
        [-1, -1],
        [0, -1],
        [1, -1],
        [-1, 0],
        [0, 0],
        [1, 0],
        [-1, 1],
        [0, 1],
        [1, 1],
    ];
    expect.sort();
    let mut output = neighborhood::<2>();
    output.sort();

    assert_eq!(expect, output);
}

#[test]
fn neighborhood_lists_first_axis_fastest() {
    let expect = vec![
        [-1, -1],
        [0, -1],
        [1, -1],
        [-1, 0],
        [0, 0],
        [1, 0],
        [-1, 1],
        [0, 1],
        [1, 1],
    ];
    assert_eq!(expect, neighborhood::<2>());
}

#[test]
fn neighborhood_on_a_line() {
    assert_eq!(vec![[-1], [0], [1]], neighborhood::<1>());
}

#[test]
fn neighborhood_without_axes_is_the_one_empty_offset() {
    let empty: [i32; 0] = [];
    assert_eq!(vec![empty], neighborhood::<0>());
}

#[test]
fn neighborhood_in_space_has_27_distinct_offsets() {
    let mut output = neighborhood::<3>();
    assert_eq!(27, output.len());
    assert_eq!([-1, -1, -1], output[0]);
    assert_eq!([0, 0, 0], output[13]);
    assert_eq!([1, 1, 1], output[26]);
    assert_eq!([1, -1, 0], output[2 + 0 * 3 + 1 * 9]);
    output.sort();
    output.dedup();
    assert_eq!(27, output.len());
    for offset in output {
        for c in offset {
            assert!((-1..=1).contains(&c));
        }
    }
}

#[test]
fn combos_with_a_wider_step() {
    let expect = vec![
        [0, 0],
        [2, 0],
        [4, 0],
        [0, 2],
        [2, 2],
        [4, 2],
        [0, 4],
        [2, 4],
        [4, 4],
    ];
    assert_eq!(expect, combos::<2>(0, 4, 2));
}

#[test]
fn combos_of_a_single_value() {
    assert_eq!(vec![[7, 7, 7]], combos::<3>(7, 7, 5));
}

#[test]
fn combos_over_the_whole_range_of_the_type() {
    assert_eq!(vec![[-i32::MAX], [0], [i32::MAX]], combos::<1>(-i32::MAX, i32::MAX, i32::MAX));
    assert_eq!(vec![[i32::MIN], [-1]], combos::<1>(i32::MIN, -1, i32::MAX));
}

#[test]
fn combos_entry_spells_its_place() {
    let list = combos::<3>(-3, 5, 4);
    assert_eq!(27, list.len());
    for (k, entry) in list.iter().enumerate() {
        let digits = [k % 3, (k / 3) % 3, (k / 9) % 3];
        for axis in 0..3 {
            assert_eq!(-3 + 4 * digits[axis] as i32, entry[axis]);
        }
    }
}
