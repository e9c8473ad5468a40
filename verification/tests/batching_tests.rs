use wall_e1::batching::{prepare_batch, prepare_validation_data};

#[test]
fn batching_cuts_to_shortest_and_pads_targets() {
    let inputs = vec![vec![1, 2, 3, 4, 5, 6], vec![7, 8, 9, 10, 11], vec![1, 1]];
    let targets = vec![vec![2, 3, 4, 5, 6, 7], vec![8, 9]];
    let (batch, rows) = prepare_batch(&inputs, &targets, &[0, 1, 9], 8);
    assert_eq!(batch, vec![vec![1, 2, 3, 4, 5], vec![7, 8, 9, 10, 11]]);
    assert_eq!(rows, vec![vec![2, 3, 4, 5, 6], vec![8, 9, 0, 0, 0], vec![0, 0, 0, 0, 0]]);
}

#[test]
fn batching_respects_maximum_length() {
    let inputs = vec![vec![1, 2, 3, 4, 5, 6], vec![7, 8, 9, 10, 11, 12]];
    let targets = inputs.clone();
    let (batch, rows) = prepare_batch(&inputs, &targets, &[1, 0], 4);
    assert_eq!(batch, vec![vec![7, 8, 9, 10], vec![1, 2, 3, 4]]);
    assert_eq!(rows, vec![vec![7, 8, 9, 10], vec![1, 2, 3, 4]]);
}

#[test]
fn batching_empty_cases() {
    let inputs = vec![vec![1, 2, 3], vec![4, 5, 6, 7]];
    let none: (Vec<Vec<usize>>, Vec<Vec<usize>>) = (vec![], vec![]);
    // no index
    assert_eq!(prepare_batch(&inputs, &inputs, &[], 10), none);
    // no index within range
    assert_eq!(prepare_batch(&inputs, &inputs, &[5], 10), none);
    // sequences too short
    assert_eq!(prepare_batch(&inputs, &inputs, &[0, 1], 10), none);
}

#[test]
fn validation_windows_shift_by_one() {
    let tokens: Vec<usize> = (0..40).collect();
    let mut inputs = vec![vec![99]];
    let mut targets = vec![vec![98]];
    prepare_validation_data(&tokens, &mut inputs, &mut targets);
    // windows of 16 start at 0 and 16; one window of 32 starts at 0; none of 64
    assert_eq!(inputs.len(), 4);
    assert_eq!(targets.len(), 4);
    assert_eq!(inputs[1], (0..16).collect::<Vec<usize>>());
    assert_eq!(targets[1], (1..17).collect::<Vec<usize>>());
    assert_eq!(inputs[2], (16..32).collect::<Vec<usize>>());
    assert_eq!(targets[2], (17..33).collect::<Vec<usize>>());
    assert_eq!(inputs[3], (0..32).collect::<Vec<usize>>());
    assert_eq!(targets[3], (1..33).collect::<Vec<usize>>());
    assert_eq!(inputs[0], vec![99]);
}

#[test]
fn validation_windows_need_one_token_more() {
    let tokens: Vec<usize> = (0..16).collect();
    let mut inputs = Vec::new();
    let mut targets = Vec::new();
    prepare_validation_data(&tokens, &mut inputs, &mut targets);
    assert!(inputs.is_empty());
    let tokens: Vec<usize> = (0..17).collect();
    prepare_validation_data(&tokens, &mut inputs, &mut targets);
    assert_eq!(inputs.len(), 1);
}
