use parallel_labs::lab5::serial::floyd_fits_check;
use parallel_labs::lab5::serial::{dummy_data_initialization, min, serial_floyd};

#[test]
fn min_treats_negatives_as_no_path() {
    assert_eq!(min(3, 5), 3);
    assert_eq!(min(5, 3), 3);
    assert_eq!(min(-1, 7), 7);
    assert_eq!(min(7, -1), 7);
    assert_eq!(min(-1, -1), -1);
    assert_eq!(min(-5, -2), -1);
    assert_eq!(min(0, -1), 0);
    assert_eq!(min(4, 4), 4);
}

#[test]
fn min_is_commutative_on_samples() {
    let values = [-3, -1, 0, 1, 2, 9, i32::MAX];
    for &a in values.iter() {
        for &b in values.iter() {
            assert_eq!(min(a, b), min(b, a));
        }
    }
}

#[test]
fn dummy_data_builds_a_star_graph() {
    let size = 4;
    let mut matrix = vec![7; size * size + 2];
    dummy_data_initialization(&mut matrix, size);
    let expected = vec![
        0, 1, 2, 3, //
        1, 0, -1, -1, //
        2, -1, 0, -1, //
        3, -1, -1, 0,
    ];
    assert_eq!(&matrix[..size * size], &expected[..]);
    assert_eq!(&matrix[size * size..], &[7, 7]);
}

#[test]
fn floyd_on_star_graph_goes_through_the_centre() {
    let size = 5;
    let mut matrix = vec![0; size * size];
    dummy_data_initialization(&mut matrix, size);
    serial_floyd(&mut matrix, size);
    for i in 0..size {
        for j in 0..size {
            let expected = if i == j { 0 } else { (i + j) as i32 };
            assert_eq!(matrix[i * size + j], expected, "entry ({}, {})", i, j);
        }
    }
}

#[test]
fn floyd_keeps_unreachable_pairs_at_minus_one() {
    // 0 -> 1 (weight 4), 1 -> 2 (weight 1), 0 -> 2 (weight 7); 3 isolated.
    let size = 4;
    let mut matrix = vec![
        0, 4, 7, -1, //
        -1, 0, 1, -1, //
        -1, -1, 0, -1, //
        -1, -1, -1, 0,
    ];
    serial_floyd(&mut matrix, size);
    let expected = vec![
        0, 4, 5, -1, //
        -1, 0, 1, -1, //
        -1, -1, 0, -1, //
        -1, -1, -1, 0,
    ];
    assert_eq!(matrix, expected);
}

#[test]
fn floyd_finds_longer_but_cheaper_paths() {
    let size = 4;
    let mut matrix = vec![
        0, 1, -1, 10, //
        -1, 0, 1, -1, //
        -1, -1, 0, 1, //
        -1, -1, -1, 0,
    ];
    serial_floyd(&mut matrix, size);
    assert_eq!(matrix[3], 3);
    assert_eq!(matrix[2], 2);
    assert_eq!(matrix[1 * size + 3], 2);
    assert_eq!(matrix[3 * size + 0], -1);
}

#[test]
fn floyd_on_empty_and_single_vertex() {
    let mut empty: Vec<i32> = vec![];
    serial_floyd(&mut empty, 0);
    assert!(empty.is_empty());
    let mut one = vec![5];
    serial_floyd(&mut one, 1);
    assert_eq!(one, vec![5]);
}

#[test]
fn floyd_runs_in_place_with_negative_entries() {
    // An entry below -1 is not "no path": the in-place rounds relax with it.
    let size = 2;
    let mut matrix = vec![-3, 2, 4, 0];
    serial_floyd(&mut matrix, size);
    // Round 0, cell (0,0): -3 + -3 = -6, both negative -> -1.
    // Cell (0,1): via (0,0) = -1 now, no change. Cell (1,0): 4 + -1? (0,0) is -1, no change.
    // Cell (1,1): (1,0) = 4, (0,1) = 2 -> min(0, 6) = 0.
    // Round 1: cell (0,0): (0,1) = 2, (1,0) = 4 -> min(-1, 6) = 6.
    assert_eq!(matrix, vec![6, 2, 4, 0]);
}

#[test]
fn overflow_check_before_floyd() {
    let size = 2;
    let big = vec![0, i32::MAX, i32::MAX, 0];
    // Relaxing (0, 0) through 1 adds i32::MAX twice.
    assert!(!floyd_fits_check(&big, size));
    assert_eq!(big, vec![0, i32::MAX, i32::MAX, 0]);
    let small = vec![0, 5, 7, 0];
    assert!(floyd_fits_check(&small, size));
    let mut star = vec![0; 16];
    dummy_data_initialization(&mut star, 4);
    assert!(floyd_fits_check(&star, 4));
    // Entries below -1 are added too: (1, 1) through 1 adds i32::MIN twice.
    let low = vec![0, -1, -1, i32::MIN];
    assert!(!floyd_fits_check(&low, size));
    // Sums of negatives that fit are taken as "no path".
    let fits = vec![0, i32::MIN, i32::MIN, 0];
    assert!(floyd_fits_check(&fits, size));
}

#[test]
fn floyd_on_a_larger_star_graph() {
    let size = 40;
    let mut matrix = vec![0; size * size];
    dummy_data_initialization(&mut matrix, size);
    assert!(floyd_fits_check(&matrix, size));
    serial_floyd(&mut matrix, size);
    for i in 0..size {
        for j in 0..size {
            let expected = if i == j { 0 } else { (i + j) as i32 };
            assert_eq!(matrix[i * size + j], expected, "entry ({}, {})", i, j);
        }
    }
}

#[test]
fn floyd_twice_changes_nothing() {
    let size = 5;
    let mut matrix = vec![
        0, 3, -1, 8, -1, //
        -1, 0, 2, -1, 9, //
        4, -1, 0, 1, -1, //
        -1, 7, -1, 0, 2, //
        1, -1, 6, -1, 0,
    ];
    assert!(floyd_fits_check(&matrix, size));
    serial_floyd(&mut matrix, size);
    let once = matrix.clone();
    assert_eq!(once[0 * size + 4], 8);
    assert_eq!(once[4 * size + 3], 7);
    assert!(floyd_fits_check(&matrix, size));
    serial_floyd(&mut matrix, size);
    assert_eq!(matrix, once);
}
