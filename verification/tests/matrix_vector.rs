use parallel_labs::lab1::parallel::rows_product_fits;
use parallel_labs::lab1::parallel::{
    check_size, compute_rows_for_rank, get_dispels, process_rows_and_vector_multiplication,
    replication_layout, SizeVerdict,
};
use parallel_labs::lab1::parallel::example::results_identical;
use parallel_labs::lab1::serial::{
    dummy_data_init, matrix_vector_product, random_data_initialization,
    ref_random_data_initialization,
};

#[test]
fn dummy_data_rows_hold_their_index() {
    let (m, v) = dummy_data_init(3);
    assert_eq!(m, vec![0, 0, 0, 1, 1, 1, 2, 2, 2]);
    assert_eq!(v, vec![1, 1, 1]);
}

#[test]
fn product_of_dummy_data_is_row_index_times_size() {
    let size = 6u64;
    let (m, v) = dummy_data_init(size);
    let res = matrix_vector_product(&m, &v);
    let expected: Vec<u64> = (0..size).map(|i| i * size).collect();
    assert_eq!(res, expected);
}

#[test]
fn product_on_a_small_matrix() {
    let m = vec![1, 2, 3, 4];
    let v = vec![5, 6];
    assert_eq!(matrix_vector_product(&m, &v), vec![17, 39]);
}

#[test]
fn stripe_product_handles_a_short_last_row() {
    let stripe = vec![1, 2, 3, 4, 5];
    let v = vec![10, 1];
    assert_eq!(process_rows_and_vector_multiplication(&stripe, &v), vec![12, 34, 50]);
    let empty: Vec<u64> = vec![];
    assert_eq!(process_rows_and_vector_multiplication(&empty, &v), Vec::<u64>::new());
}

#[test]
fn stripes_gathered_give_the_full_product() {
    let size = 5u64;
    let (m, v) = random_data_initialization(size);
    let m: Vec<u64> = m.iter().map(|x| x % 1000).collect();
    let v: Vec<u64> = v.iter().map(|x| x % 1000).collect();
    let full = matrix_vector_product(&m, &v);
    let (counts, dispels) = replication_layout(size, 3);
    let n = size as usize;
    let mut gathered = Vec::new();
    for r in 0..3 {
        let lo = dispels[r] as usize;
        let hi = lo + counts[r] as usize;
        gathered.extend(process_rows_and_vector_multiplication(&m[lo * n..hi * n], &v));
    }
    assert_eq!(gathered, full);
}

#[test]
fn rows_for_rank_share_the_remainder_with_low_ranks() {
    assert_eq!(compute_rows_for_rank(0, 10, 3, 1), 4);
    assert_eq!(compute_rows_for_rank(1, 10, 3, 1), 3);
    assert_eq!(compute_rows_for_rank(2, 10, 3, 1), 3);
    assert_eq!(compute_rows_for_rank(0, 0, 4, 0), 0);
}

#[test]
fn rows_for_rank_truncates_toward_zero() {
    // 4294967289 as i32 is -7, and -7 / 2 is -3 on machine integers.
    assert_eq!(compute_rows_for_rank(5, 4294967289, 2, 0), -3);
    assert_eq!(compute_rows_for_rank(0, 7, -2, 0), -3);
}

#[test]
fn dispels_are_prefix_sums() {
    assert_eq!(get_dispels(&[2, 3, 1]), vec![0, 2, 5]);
    assert_eq!(get_dispels(&[]), Vec::<i32>::new());
    assert_eq!(get_dispels(&[-4, 4]), vec![0, -4]);
}

#[test]
fn replication_layout_covers_all_rows() {
    let (counts, dispels) = replication_layout(10, 3);
    assert_eq!(counts, vec![4, 3, 3]);
    assert_eq!(dispels, vec![0, 4, 7]);
    let (counts, dispels) = replication_layout(2, 4);
    assert_eq!(counts, vec![1, 1, 0, 0]);
    assert_eq!(dispels, vec![0, 1, 2, 2]);
    let total: i32 = counts.iter().sum();
    assert_eq!(total, 2);
}

#[test]
fn size_checks_of_the_vector_program() {
    assert_eq!(check_size(0, 4), SizeVerdict::Zero);
    assert!(check_size(0, 4).asks_again());
    assert_eq!(check_size(3, 4), SizeVerdict::FewerRowsThanProcesses);
    assert!(!check_size(3, 4).asks_again());
    assert_eq!(check_size(4, 4), SizeVerdict::Accepted);
    assert_eq!(check_size(9, 4), SizeVerdict::Accepted);
}

#[test]
fn random_data_has_the_right_shape_and_range() {
    let (m, v) = random_data_initialization(7);
    assert_eq!(m.len(), 49);
    assert_eq!(v.len(), 7);
    assert!(m.iter().all(|&x| x < u32::MAX as u64));
    assert!(v.iter().all(|&x| x < u32::MAX as u64));
    // Draws are spread over the range, not stuck at its lower end.
    assert!(m.iter().any(|&x| x > 0));
}

#[test]
fn ref_random_data_replaces_the_vectors() {
    let mut m = vec![u64::MAX; 3];
    let mut v = vec![];
    ref_random_data_initialization(4, &mut m, &mut v);
    assert_eq!(m.len(), 16);
    assert_eq!(v.len(), 4);
    assert!(m.iter().all(|&x| x < u32::MAX as u64));
    assert!(v.iter().all(|&x| x < u32::MAX as u64));
}

#[test]
fn results_identical_compares_a_prefix() {
    assert!(results_identical(&[1, 2, 3], &[1, 2, 3], 3));
    assert!(!results_identical(&[1, 2, 3], &[1, 0, 3], 3));
    assert!(results_identical(&[1, 2, 3], &[1, 2, 4], 2));
    assert!(results_identical(&[], &[], 0));
    assert!(results_identical(&[1], &[2], -1));
}

#[test]
fn overflow_check_before_products() {
    assert!(rows_product_fits(&[1, 2, 3, 4], &[5, 6]));
    assert!(!rows_product_fits(&[u64::MAX, 1], &[2, 0]));
    assert!(!rows_product_fits(&[u64::MAX, 1], &[1, 1]));
    assert!(rows_product_fits(&[u64::MAX, 0], &[1, 7]));
    assert!(rows_product_fits(&[], &[1]));
}
