use graphc::dedup::delete_duplicate_rows;
use graphc::merge::merge_2cols;
use graphc::triplets::prune_ld_triplets;
use graphc::csr::Csr;
use graphc::sms_text::parse_sms;
use graphc::kernel::{find_coefficients, nonzero_rows_transposed};

#[test]
fn duplicate_rows_deleted_and_combined() {
    let mut m = vec![
        ([1, 1], 2),
        ([1, 2], 4),
        ([2, 1], -3),
        ([2, 2], -6),
        ([3, 1], 1),
        ([3, 2], 3),
    ];
    let r = delete_duplicate_rows(&mut m, [3, 3]);
    assert_eq!(r, Some((2, true)));
    assert_eq!(m, vec![([1, 1], 1), ([1, 2], 2), ([2, 2], 1)]);
}

#[test]
fn distinct_rows_kept() {
    let mut m = vec![([1, 1], 3), ([2, 2], -5)];
    let r = delete_duplicate_rows(&mut m, [2, 2]);
    assert_eq!(r, Some((2, false)));
    assert_eq!(m, vec![([1, 1], 1), ([2, 2], 1)]);
}

#[test]
fn dependent_triplet_row_deleted() {
    let mut m = vec![
        ([1, 1], 1),
        ([1, 2], 1),
        ([2, 2], 1),
        ([2, 3], 1),
        ([3, 1], 1),
        ([3, 3], -1),
    ];
    let rows = prune_ld_triplets(&mut m, [3, 3]);
    assert_eq!(rows, 2);
    assert_eq!(m, vec![([1, 2], 1), ([1, 3], 1), ([2, 1], 1), ([2, 3], -1)]);
}

#[test]
fn independent_rows_not_pruned() {
    let mut m = vec![([1, 1], 1), ([1, 2], 1), ([2, 2], 1), ([2, 3], 1), ([3, 1], 1), ([3, 3], 2)];
    let rows = prune_ld_triplets(&mut m, [3, 3]);
    assert_eq!(rows, 3);
    assert_eq!(m.len(), 6);
}

#[test]
fn two_entry_row_merges_columns() {
    let mut m = vec![
        ([1, 1], 2),
        ([1, 3], 4),
        ([2, 1], 1),
        ([2, 2], 5),
        ([2, 3], 3),
    ];
    let d = merge_2cols(&mut m, [2, 3]);
    assert_eq!(d, Some([2, 2]));
    assert_eq!(m, vec![([2, 1], -1), ([2, 2], 5)]);
}

#[test]
fn chained_operations_merge_columns() {
    let mut m = vec![
        ([1, 1], 1),
        ([1, 2], 1),
        ([2, 2], 1),
        ([2, 3], 2),
        ([3, 1], 1),
        ([3, 3], 1),
        ([3, 4], 1),
    ];
    let d = merge_2cols(&mut m, [3, 4]);
    assert_eq!(d, Some([3, 2]));
    assert_eq!(m, vec![([3, 1], 3), ([3, 2], 1)]);
}

#[test]
fn no_two_entry_rows_leaves_matrix() {
    let mut m = vec![([1, 1], 1), ([1, 2], 1), ([1, 3], 1)];
    let d = merge_2cols(&mut m, [1, 3]);
    assert_eq!(d, Some([1, 3]));
    assert_eq!(m, vec![([1, 1], 1), ([1, 2], 1), ([1, 3], 1)]);
}

#[test]
fn compressed_rows_and_kernel_mask() {
    let coo = vec![([1, 1], 1), ([1, 2], -1), ([2, 2], 2)];
    let csr = Csr::from_coo(&coo, [2, 2]);
    assert_eq!(csr.indices, vec![0, 1, 1]);
    assert_eq!(csr.values, vec![1, -1, 2]);
    assert_eq!(csr.rows, vec![0, 2, 3]);
    assert_eq!(csr.multiplies_to_zero(&[1, 1, 1, 0], 2), 3);
    assert_eq!(csr.multiplies_to_zero(&[0, 1, 0, 0], 2), 2);
    assert_eq!(csr.nonzero_flags(&[0, 1, 0, 0], 2), vec![false, true]);
    assert_eq!(csr.multiply_vectors(&[1, 1, 1, 0], 2), vec![0, 1, 2, 0]);
    assert_eq!(csr.row_products(&[1, 1, 1, 0], 2, 1), vec![2, 0]);
}

#[test]
fn least_multipliers_found() {
    let coo = vec![([1, 1], 1), ([1, 2], 1)];
    let csr = Csr::from_coo(&coo, [1, 2]);
    let coeffs = find_coefficients(&csr, &vec![1, 2, 6, 3], 2, 7);
    assert_eq!(coeffs, vec![1, 0]);
}

#[test]
fn leading_rows_transposed() {
    let rows = vec![vec![1, 0, 2], vec![0, 3, 0], vec![0, 0, 0]];
    let (v, n) = nonzero_rows_transposed(&rows);
    assert_eq!(n, 2);
    assert_eq!(v, vec![1, 0, 0, 3, 2, 0]);
}

#[test]
fn sms_text_read() {
    let r = parse_sms("3 2 M\n1 1 5\n2 2 -1\n0 0 0\n");
    assert_eq!(r, Some(([3, 2], vec![([1, 1], 5), ([2, 2], -1)])));
    assert_eq!(parse_sms("3\n0 0 0\n"), None);
    assert_eq!(parse_sms("3 2 M\n1 x 5\n0 0 0\n"), None);
    assert_eq!(parse_sms("2 2\n"), Some(([2, 2], vec![])));
}

#[test]
fn prune_to_fixpoint_keeps_block() {
    let mut m = vec![([1, 1], 1), ([2, 2], 1), ([2, 3], 2), ([3, 2], 3), ([3, 3], 1)];
    let mut sep = Some(1u32);
    let mut reg = None;
    let dims = graphc::pipeline::prune_to_fixpoint::<0>(&mut m, [3, 3], &mut sep, &mut reg, true);
    assert_eq!(dims, Some([2, 2]));
    assert_eq!(m, vec![([1, 1], 1), ([1, 2], 2), ([2, 1], 3), ([2, 2], 1)]);
    assert_eq!(sep, Some(0));
    assert_eq!(reg, Some([vec![1, 2], vec![1, 2]]));
}

#[test]
fn prune_to_fixpoint_to_nothing() {
    let mut m = vec![([1, 1], 1), ([2, 1], 1), ([2, 2], 1)];
    let mut sep = None;
    let mut reg = None;
    let dims = graphc::pipeline::prune_to_fixpoint::<0>(&mut m, [2, 2], &mut sep, &mut reg, false);
    assert_eq!(dims, Some([0, 0]));
    assert!(m.is_empty());
    assert_eq!(reg, None);
}

#[test]
fn prune_to_fixpoint_loses_separator() {
    let mut m = vec![([1, 1], 1), ([2, 2], 1), ([2, 3], 2), ([3, 2], 3), ([3, 3], 1)];
    let mut sep = Some(0u32);
    let mut reg = None;
    let dims = graphc::pipeline::prune_to_fixpoint::<0>(&mut m, [3, 3], &mut sep, &mut reg, false);
    assert_eq!(dims, None);
}

#[test]
fn split_blocks_two_components() {
    let lines = vec![([1, 1], 1), ([1, 3], 2), ([2, 2], 5), ([3, 1], 4)];
    let blocks = graphc::blocks::split_blocks(&lines, [3, 3]);
    assert_eq!(blocks.len(), 2);
    assert_eq!(blocks[0], ([2, 2], vec![([1, 1], 1), ([1, 2], 2), ([2, 1], 4)]));
    assert_eq!(blocks[1], ([1, 1], vec![([1, 1], 5)]));
}

#[test]
fn prune_pipeline_to_nothing() {
    let mut m = vec![([1, 1], 1), ([2, 1], 1), ([2, 2], 1)];
    let r = graphc::pruning::prune_pipeline(&mut m, [2, 2], None, false, false, false);
    assert_eq!(r, Some(([0, 0], 2, None, None)));
    assert!(m.is_empty());
}

#[test]
fn prune_pipeline_deletes_duplicate_row() {
    let mut m = vec![([1, 1], 1), ([1, 2], 1), ([2, 1], 2), ([2, 2], 2)];
    let r = graphc::pruning::prune_pipeline(&mut m, [2, 2], None, false, true, false);
    assert_eq!(r, Some(([1, 2], 0, None, None)));
    assert_eq!(m, vec![([1, 1], 1), ([1, 2], 1)]);
}

#[test]
fn prune_pipeline_refuses_separator_outside() {
    let mut m = vec![([1, 1], 1), ([1, 2], 1)];
    let r = graphc::pruning::prune_pipeline(&mut m, [1, 2], Some(5), false, false, false);
    assert_eq!(r, None);
}

#[test]
fn split_at_separator_renumbers_lower_rows() {
    let lines = vec![([1, 1], 1), ([2, 3], 4), ([3, 2], -1), ([4, 1], 2)];
    let (upper, lower) = graphc::pruning::split_at_separator(&lines, 2);
    assert_eq!(upper, vec![([1, 1], 1), ([2, 3], 4)]);
    assert_eq!(lower, vec![([1, 2], -1), ([2, 1], 2)]);
}
