use gpu_compute::{
    ascending_values_of_len, exclusive_scan, inclusive_scan, scatter_if_non_zero,
    scatter_with_value, sum, zeroed_array_of_size,
};

#[test]
fn sum_concrete() {
    assert_eq!(sum(&[5, 4, 0, 3, 5, 5, 5, 5, 5, 5]), 42);
}

#[test]
fn sum_empty() {
    assert_eq!(sum(&[]), 0);
}

#[test]
fn sum_wraps_on_overflow() {
    assert_eq!(sum(&[u32::MAX, 2]), 1);
    assert_eq!(sum(&[u32::MAX, u32::MAX]), u32::MAX - 1);
}

#[test]
fn exclusive_scan_concrete() {
    let xs = [5, 4, 0, 3, 5, 5, 5, 5, 5, 5];
    assert_eq!(exclusive_scan(&xs), vec![0, 5, 9, 9, 12, 17, 22, 27, 32, 37]);
}

#[test]
fn exclusive_scan_recurrence() {
    let xs = [7, 0, 9, u32::MAX, 3, 1];
    let ys = exclusive_scan(&xs);
    assert_eq!(ys[0], 0);
    for i in 1..xs.len() {
        assert_eq!(ys[i], ys[i - 1].wrapping_add(xs[i - 1]));
    }
}

#[test]
fn scans_of_empty_input() {
    assert_eq!(exclusive_scan(&[]), Vec::<u32>::new());
    assert_eq!(inclusive_scan(&[]), Vec::<u32>::new());
}

#[test]
fn inclusive_scan_concrete() {
    let xs = [5, 4, 0, 3];
    assert_eq!(inclusive_scan(&xs), vec![5, 9, 9, 12]);
}

#[test]
fn inclusive_is_exclusive_plus_element() {
    let xs = [2, 8, 0, u32::MAX, 5, 64, 64];
    let inc = inclusive_scan(&xs);
    let exc = exclusive_scan(&xs);
    for i in 0..xs.len() {
        assert_eq!(inc[i], exc[i].wrapping_add(xs[i]));
    }
}

#[test]
fn scatter_with_value_concrete() {
    let mut out = vec![9, 9, 9, 9, 9];
    scatter_with_value(&mut out, &[1, 3], 77);
    assert_eq!(out, vec![9, 77, 9, 77, 9]);
}

#[test]
fn scatter_with_value_duplicate_indices() {
    let mut out = vec![0, 0, 0];
    scatter_with_value(&mut out, &[2, 2, 0], 5);
    assert_eq!(out, vec![5, 0, 5]);
}

#[test]
fn scatter_with_value_twice_is_once() {
    let indices = [0, 2, 2, 4];
    let mut once = vec![1, 2, 3, 4, 5];
    scatter_with_value(&mut once, &indices, 8);
    let mut twice = vec![1, 2, 3, 4, 5];
    scatter_with_value(&mut twice, &indices, 8);
    scatter_with_value(&mut twice, &indices, 8);
    assert_eq!(once, twice);
}

#[test]
fn scatter_if_non_zero_skips_zeroes() {
    let mut out = vec![1, 1, 1, 1];
    scatter_if_non_zero(&mut out, &[0, 1, 2, 3], &[4, 0, 6, 0]);
    assert_eq!(out, vec![4, 1, 6, 1]);
}

#[test]
fn scatter_if_non_zero_smallest_index_wins() {
    let mut out = vec![0, 0, 0];
    scatter_if_non_zero(&mut out, &[2, 2], &[7, 8]);
    assert_eq!(out, vec![0, 0, 7]);
}

#[test]
fn zeroed_array_concrete() {
    assert_eq!(zeroed_array_of_size(4), vec![0, 0, 0, 0]);
    assert_eq!(zeroed_array_of_size(0), Vec::<u32>::new());
}

#[test]
fn ascending_values_are_unit_markers() {
    assert_eq!(ascending_values_of_len(5), vec![1, 1, 1, 1, 1]);
    assert_eq!(ascending_values_of_len(0), Vec::<u32>::new());
}

#[test]
fn scatters_agree_on_constant_input() {
    let indices = [1, 4, 1, 0];
    let values = [6, 6, 6, 6];
    let mut a = vec![9, 9, 9, 9, 9];
    scatter_if_non_zero(&mut a, &indices, &values);
    let mut b = vec![9, 9, 9, 9, 9];
    scatter_with_value(&mut b, &indices, 6);
    assert_eq!(a, b);
    assert_eq!(a, vec![6, 6, 9, 9, 6]);
}

#[test]
fn run_length_decompression_composes() {
    // Run lengths expand via exclusive scan (offsets), sum (total size)
    // and scatter (run markers).
    let runs = [3, 1, 2];
    let offsets = exclusive_scan(&runs);
    assert_eq!(offsets, vec![0, 3, 4]);
    let total = sum(&runs);
    assert_eq!(total, 6);
    let mut expanded = zeroed_array_of_size(total);
    scatter_if_non_zero(&mut expanded, &offsets, &[1, 2, 3]);
    assert_eq!(expanded, vec![1, 0, 0, 2, 3, 0]);
}
