use stamp_folding::{FoldError, StampFolder};

#[test]
fn partition_counts_sum_to_total() {
    // The partition property holds for 2 <= total_parts <= leaf count.
    for total_parts in [2usize, 3, 4, 7] {
        for dims in [vec![2, 2], vec![3, 3], vec![2, 4], vec![2, 2, 2]] {
            let leaves: i32 = dims.iter().product();
            if total_parts > leaves as usize {
                continue;
            }
            let whole = StampFolder::calculate_sequence(&dims).unwrap();
            let mut sum = 0i64;
            for part in 0..total_parts {
                sum += StampFolder::calculate_sequence_part(&dims, part, total_parts).unwrap();
            }
            assert_eq!(
                sum, whole,
                "partition sum mismatch for dims {:?} with {} parts",
                dims, total_parts
            );
        }
    }
}

#[test]
fn partition_of_degenerate_grid() {
    for part in 0..5usize {
        let expected = if part == 0 { 1 } else { 0 };
        assert_eq!(
            StampFolder::calculate_sequence_part(&[0, 7], part, 5).unwrap(),
            expected
        );
    }
}

#[test]
fn degenerate_grids_count_one() {
    assert_eq!(StampFolder::calculate_sequence(&[0, 5]).unwrap(), 1);
    assert_eq!(StampFolder::calculate_sequence(&[0]).unwrap(), 1);
    assert_eq!(StampFolder::calculate_sequence(&[3, 0, 2]).unwrap(), 1);
    assert_eq!(StampFolder::calculate_sequence(&[7, 0]).unwrap(), 1);
    assert_eq!(StampFolder::calculate_sequence_parallel(&[0, 9], 4).unwrap(), 1);
}

#[test]
fn capacity_boundary_is_an_error() {
    // 8 * 8 = 64 leaves: exactly the capacity, so it must be refused.
    assert_eq!(
        StampFolder::calculate_sequence(&[8, 8]),
        Err(FoldError::CapacityExceeded)
    );
    assert_eq!(
        StampFolder::calculate_sequence(&[65]),
        Err(FoldError::CapacityExceeded)
    );
    assert_eq!(
        StampFolder::calculate_sequence_part(&[64, 2], 0, 2),
        Err(FoldError::CapacityExceeded)
    );
    assert_eq!(
        StampFolder::calculate_sequence_parallel(&[16, 4], 4),
        Err(FoldError::CapacityExceeded)
    );
}

#[test]
fn end_to_end_scenarios() {
    assert_eq!(StampFolder::calculate_sequence(&[2, 2]).unwrap(), 8);
    assert_eq!(StampFolder::calculate_sequence(&[3, 3]).unwrap(), 1368);
    assert_eq!(StampFolder::calculate_sequence(&[0, 5]).unwrap(), 1);
    // Equal area, different shape, different count.
    let long = StampFolder::calculate_sequence(&[2, 6]).unwrap();
    let wide = StampFolder::calculate_sequence(&[3, 4]).unwrap();
    assert_ne!(long, wide);
}

#[test]
fn foldings_accumulates_counts() {
    // Two unguarded runs over the unit square accumulate into one counter.
    let mut folder = StampFolder::new();
    assert_eq!(folder.count, 0);
    folder.foldings(&[2, 2], false, 0, 0);
    assert_eq!(folder.count, 32);
    folder.foldings(&[2, 2], true, 0, 0);
    assert_eq!(folder.count, 40);
}

#[test]
fn single_partition_equals_restricted_runs() {
    // With 2 parts over the 2x2 grid, the two partial counts split 8.
    let p0 = StampFolder::calculate_sequence_part(&[2, 2], 0, 2).unwrap();
    let p1 = StampFolder::calculate_sequence_part(&[2, 2], 1, 2).unwrap();
    assert_eq!(p0 + p1, 8);
}

#[test]
fn parallel_matches_direct_on_small_grids() {
    // Below the partition threshold the direct engine answers.
    assert_eq!(StampFolder::calculate_sequence_parallel(&[3, 1], 8).unwrap(), 6);
    assert_eq!(StampFolder::calculate_sequence_parallel(&[1, 1], 2).unwrap(), 1);
    assert_eq!(StampFolder::calculate_sequence_parallel(&[], 3).unwrap(), 1);
}

#[test]
fn one_dimensional_strips() {
    // Foldings of a 1 x n strip.
    let expected = vec![1i64, 1, 2, 6];
    for (i, &value) in expected.iter().enumerate() {
        let dims = vec![1, i as i32];
        if i == 0 {
            assert_eq!(StampFolder::calculate_sequence(&dims).unwrap(), 1);
        } else {
            assert_eq!(
                StampFolder::calculate_sequence(&dims).unwrap(),
                value,
                "failed for strip length {}",
                i
            );
        }
    }
}
