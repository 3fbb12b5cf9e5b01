use stamp_folding::StampFolder;

#[test]
fn lib_test_sequence_n_2() {
    let expected = vec![
        1, 2, 8, 60, 320, 1980, 10512, 60788, 320896, 1787904, 9381840, 51081844,
    ];

    for (i, &expected_value) in expected.iter().enumerate() {
        let dimensions = vec![i as i32, 2];
        let result = StampFolder::calculate_sequence_parallel(&dimensions, 4).unwrap();
        assert_eq!(
            result, expected_value,
            "Failed for n={}, width=2: expected {}, got {}",
            i, expected_value, result
        );
    }
}

#[test]
fn lib_test_sequence_n_3() {
    let expected = vec![1, 6, 60, 1368, 15552, 201240, 2016432, 21582624];

    for (i, &expected_value) in expected.iter().enumerate() {
        let dimensions = vec![i as i32, 3];
        let result = StampFolder::calculate_sequence_parallel(&dimensions, 4).unwrap();
        assert_eq!(
            result, expected_value,
            "Failed for n={}, width=3: expected {}, got {}",
            i, expected_value, result
        );
    }
}

#[test]
fn lib_test_sequence_n_n() {
    let expected = vec![1, 1, 8, 1368, 300608];

    for (i, &expected_value) in expected.iter().enumerate() {
        let n = i as i32;
        let dimensions = vec![n, n];
        let result = StampFolder::calculate_sequence_parallel(&dimensions, 4).unwrap();
        assert_eq!(
            result, expected_value,
            "Failed for n×n where n={}: expected {}, got {}",
            n, expected_value, result
        );
    }
}

#[test]
fn main_test_sequence_n_2() {
    let expected = vec![
        1, 2, 8, 60, 320, 1980, 10512, 60788, 320896, 1787904, 9381840, 51081844,
    ];

    for (i, &expected_value) in expected.iter().enumerate() {
        let dimensions = vec![i as i32, 2];
        let result = StampFolder::calculate_sequence(&dimensions).unwrap();
        assert_eq!(
            result, expected_value,
            "Failed for n={}, width=2: expected {}, got {}",
            i, expected_value, result
        );
    }
}

#[test]
fn main_test_sequence_n_3() {
    let expected = vec![1, 6, 60, 1368, 15552, 201240, 2016432, 21582624];

    for (i, &expected_value) in expected.iter().enumerate() {
        let dimensions = vec![i as i32, 3];
        let result = StampFolder::calculate_sequence(&dimensions).unwrap();
        assert_eq!(
            result, expected_value,
            "Failed for n={}, width=3: expected {}, got {}",
            i, expected_value, result
        );
    }
}

#[test]
fn main_test_sequence_n_n() {
    let expected = vec![1, 1, 8, 1368, 300608];

    for (i, &expected_value) in expected.iter().enumerate() {
        let n = i as i32;
        let dimensions = vec![n, n];
        let result = StampFolder::calculate_sequence(&dimensions).unwrap();
        assert_eq!(
            result, expected_value,
            "Failed for n×n where n={}: expected {}, got {}",
            n, expected_value, result
        );
    }
}
