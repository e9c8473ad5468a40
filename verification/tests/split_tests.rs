use wall_e1::split::{dataset_indices, k_fold_split, k_fold_split_with, split_by_sizes, split_dataset_by_sizes};

#[test]
fn test_split_dataset() {
    let data: Vec<i32> = (0..100).collect();

    // 70%, 15% and 15% of 100 items
    let split = split_dataset_by_sizes(&data, 70, 15, 15, false);

    assert_eq!(split.train.len(), 70);
    assert_eq!(split.validation.len(), 15);
    assert_eq!(split.test.len(), 15);

    // Verify that the data were divided correctly
    for i in 0..70 {
        assert_eq!(split.train[i], i as i32);
    }

    for i in 0..15 {
        assert_eq!(split.validation[i], (i + 70) as i32);
    }

    for i in 0..15 {
        assert_eq!(split.test[i], (i + 85) as i32);
    }
}

#[test]
fn test_k_fold_split() {
    let data: Vec<i32> = (0..100).collect();

    let folds = k_fold_split(&data, 5, false);

    assert_eq!(folds.len(), 5);

    for (fold_idx, (train, val)) in folds.iter().enumerate() {
        assert_eq!(train.len(), 80);
        assert_eq!(val.len(), if fold_idx == 4 { 20 } else { 20 });
    }
}

#[test]
fn split_test_size_is_capped_by_the_rest() {
    let data: Vec<u8> = (0..10).collect();
    let split = split_dataset_by_sizes(&data, 6, 3, 5, false);
    assert_eq!(split.train, vec![0, 1, 2, 3, 4, 5]);
    assert_eq!(split.validation, vec![6, 7, 8]);
    assert_eq!(split.test, vec![9]);
}

#[test]
fn split_follows_the_given_order() {
    let data = vec!['a', 'b', 'c', 'd'];
    let split = split_by_sizes(&data, &[3, 1, 0, 2], 1, 2, 1);
    assert_eq!(split.train, vec!['d']);
    assert_eq!(split.validation, vec!['b', 'a']);
    assert_eq!(split.test, vec!['c']);
}

#[test]
fn k_fold_last_fold_takes_the_rest() {
    let data: Vec<u32> = (0..11).collect();
    let folds = k_fold_split(&data, 3, false);
    assert_eq!(folds[0].1, vec![0, 1, 2]);
    assert_eq!(folds[0].0, vec![3, 4, 5, 6, 7, 8, 9, 10]);
    assert_eq!(folds[1].1, vec![3, 4, 5]);
    assert_eq!(folds[1].0, vec![0, 1, 2, 6, 7, 8, 9, 10]);
    assert_eq!(folds[2].1, vec![6, 7, 8, 9, 10]);
    assert_eq!(folds[2].0, vec![0, 1, 2, 3, 4, 5]);
    // every item is in exactly one validation set
    let mut all: Vec<u32> = folds.iter().flat_map(|f| f.1.clone()).collect();
    all.sort();
    assert_eq!(all, data);
}

#[test]
fn k_fold_with_given_order() {
    let data = vec![10, 20, 30, 40];
    let folds = k_fold_split_with(&data, &[2, 0, 3, 1], 2);
    assert_eq!(folds[0], (vec![40, 20], vec![30, 10]));
    assert_eq!(folds[1], (vec![30, 10], vec![40, 20]));
}

#[test]
fn shuffled_indices_are_a_permutation() {
    let mut idx = dataset_indices(50, true);
    assert_eq!(idx.len(), 50);
    idx.sort();
    assert_eq!(idx, (0..50).collect::<Vec<usize>>());
    assert_eq!(dataset_indices(4, false), vec![0, 1, 2, 3]);
}

#[test]
fn shuffled_split_keeps_sizes_and_items() {
    let data: Vec<i32> = (0..30).collect();
    let split = split_dataset_by_sizes(&data, 20, 5, 5, true);
    assert_eq!(split.train.len(), 20);
    assert_eq!(split.validation.len(), 5);
    assert_eq!(split.test.len(), 5);
    let mut all: Vec<i32> = split.train.iter().chain(&split.validation).chain(&split.test).cloned().collect();
    all.sort();
    assert_eq!(all, data);
    let folds = k_fold_split(&data, 4, true);
    for (train, val) in &folds {
        assert_eq!(train.len() + val.len(), 30);
    }
}
