use parallel_labs::lab2::serial::product_entries_fit;
use parallel_labs::lab1::parallel::SizeVerdict;
use parallel_labs::lab2::parallel::check_size;
use parallel_labs::lab2::serial::{dummy_data_init, matrix_matrix_product, random_data_initialization};
use parallel_labs::lab3::parallel::calculate_rows_for_process;

#[test]
fn dummy_matrices_hold_row_number_plus_one() {
    let (a, b) = dummy_data_init(2);
    assert_eq!(a, vec![1, 1, 2, 2]);
    assert_eq!(b, vec![1, 1, 2, 2]);
}

#[test]
fn product_of_dummy_matrices() {
    let size = 4u64;
    let (a, b) = dummy_data_init(size);
    let c = matrix_matrix_product(&a, &b, size as usize);
    let n = size as u128;
    for i in 0..size as usize {
        for j in 0..size as usize {
            // row i of a is (i + 1), column j of b is 1, 2, .., n.
            assert_eq!(c[i * size as usize + j], (i as u128 + 1) * n * (n + 1) / 2);
        }
    }
}

#[test]
fn product_with_identity() {
    let a = vec![1, 2, 3, 4, 5, 6, 7, 8, 9];
    let id = vec![1, 0, 0, 0, 1, 0, 0, 0, 1];
    let expected: Vec<u128> = a.iter().map(|&x| x as u128).collect();
    assert_eq!(matrix_matrix_product(&a, &id, 3), expected);
    assert_eq!(matrix_matrix_product(&id, &a, 3), expected);
}

#[test]
fn product_widens_to_u128() {
    let a = vec![u64::MAX];
    let b = vec![u64::MAX];
    let c = matrix_matrix_product(&a, &b, 1);
    assert_eq!(c, vec![(u64::MAX as u128) * (u64::MAX as u128)]);
    assert_eq!(matrix_matrix_product(&[], &[], 0), Vec::<u128>::new());
}

#[test]
fn random_matrices_have_the_right_shape_and_range() {
    let (a, b) = random_data_initialization(6);
    assert_eq!(a.len(), 36);
    assert_eq!(b.len(), 36);
    assert!(a.iter().chain(b.iter()).all(|&x| x < u16::MAX as u64));
    assert!(a.iter().any(|&x| x > 0));
}

#[test]
fn size_checks_of_the_grid_program() {
    assert_eq!(check_size(0, 2, 4), SizeVerdict::Zero);
    assert_eq!(check_size(3, 2, 4), SizeVerdict::FewerRowsThanProcesses);
    assert_eq!(check_size(5, 2, 4), SizeVerdict::NotMultipleOfGrid);
    assert_eq!(check_size(6, 2, 4), SizeVerdict::Accepted);
    assert_eq!(check_size(0, 0, 4), SizeVerdict::Zero);
}

#[test]
fn rows_for_process_share_the_remainder() {
    assert_eq!(calculate_rows_for_process(0, 3, 10), 4);
    assert_eq!(calculate_rows_for_process(1, 3, 10), 3);
    assert_eq!(calculate_rows_for_process(2, 3, 10), 3);
    let total: usize = (0..4).map(|r| calculate_rows_for_process(r, 4, 9)).sum();
    assert_eq!(total, 9);
    // A negative rank becomes a huge usize: it never takes an extra row.
    assert_eq!(calculate_rows_for_process(-1, 3, 10), 3);
}

#[test]
fn overflow_check_before_matrix_product() {
    assert!(product_entries_fit(&[u64::MAX], &[u64::MAX], 1));
    let a = vec![u64::MAX; 4];
    assert!(!product_entries_fit(&a, &a, 2));
    let (d, e) = dummy_data_init(3);
    assert!(product_entries_fit(&d, &e, 3));
}
