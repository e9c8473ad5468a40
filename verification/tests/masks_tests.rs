use wall_e1::masks::{create_causal_mask, create_combined_mask, create_padding_mask};

fn shape(m: &Vec<Vec<Vec<bool>>>) -> [usize; 3] {
    [m.len(), m.first().map_or(0, |r| r.len()), m.first().and_then(|r| r.first()).map_or(0, |c| c.len())]
}

#[test]
fn test_causal_mask() {
    let seq_len = 5;

    // Create a causal mask
    let mask = create_causal_mask(seq_len);

    // Verify mask dimensions
    assert_eq!(shape(&mask), [1, seq_len, seq_len]);

    // Verify that the mask has 1 on the diagonal and below, 0 above
    for i in 0..seq_len {
        for j in 0..seq_len {
            let expected = j <= i;
            assert_eq!(mask[0][i][j], expected, "Causal mask at position [{}, {}] should be {}", i, j, expected);
        }
    }

    // Test for sequence length = 1
    let mask_1 = create_causal_mask(1);
    assert_eq!(shape(&mask_1), [1, 1, 1]);
    assert!(mask_1[0][0][0]);

    // Test for large sequence length
    let large_seq_len = 100;
    let large_mask = create_causal_mask(large_seq_len);
    assert_eq!(shape(&large_mask), [1, large_seq_len, large_seq_len]);

    // Check some example points
    assert!(large_mask[0][0][0]); // Diagonal
    assert!(large_mask[0][99][99]); // Diagonal
    assert!(large_mask[0][99][0]); // Below diagonal
    assert!(!large_mask[0][0][99]); // Above diagonal
}

#[test]
fn test_padding_mask() {
    // Basic test
    let seq_len = 5;
    let valid_lens = vec![3, 4];

    let mask = create_padding_mask(seq_len, &valid_lens);

    // Verify mask dimensions
    assert_eq!(shape(&mask), [valid_lens.len(), seq_len, seq_len]);

    // Verify mask values for first batch (valid_len = 3)
    for i in 0..seq_len {
        for j in 0..seq_len {
            let expected = i < valid_lens[0] && j < valid_lens[0];
            assert_eq!(mask[0][i][j], expected, "Padding mask [0, {}, {}] should be {}", i, j, expected);
        }
    }

    // Verify mask values for second batch (valid_len = 4)
    for i in 0..seq_len {
        for j in 0..seq_len {
            let expected = i < valid_lens[1] && j < valid_lens[1];
            assert_eq!(mask[1][i][j], expected, "Padding mask [1, {}, {}] should be {}", i, j, expected);
        }
    }
}

#[test]
fn test_combined_mask() {
    let seq_len = 5;
    let valid_lens = vec![3, 4];

    let mask = create_combined_mask(seq_len, &valid_lens);

    // Verify mask dimensions
    assert_eq!(shape(&mask), [valid_lens.len(), seq_len, seq_len]);

    // Verify mask values for first batch (valid_len = 3)
    for i in 0..seq_len {
        for j in 0..seq_len {
            let expected = i < valid_lens[0] && j < valid_lens[0] && j <= i;
            assert_eq!(mask[0][i][j], expected, "Combined mask [0, {}, {}] should be {}", i, j, expected);
        }
    }

    // Verify mask values for second batch (valid_len = 4)
    for i in 0..seq_len {
        for j in 0..seq_len {
            let expected = i < valid_lens[1] && j < valid_lens[1] && j <= i;
            assert_eq!(mask[1][i][j], expected, "Combined mask [1, {}, {}] should be {}", i, j, expected);
        }
    }
}

#[test]
fn masks_combined_is_causal_and_padding() {
    let valid_lens = vec![0, 2, 6];
    let causal = create_causal_mask(6);
    let padding = create_padding_mask(6, &valid_lens);
    let combined = create_combined_mask(6, &valid_lens);
    for b in 0..valid_lens.len() {
        for i in 0..6 {
            for j in 0..6 {
                assert_eq!(combined[b][i][j], causal[0][i][j] && padding[b][i][j]);
            }
        }
    }
}

#[test]
fn masks_empty_cases() {
    assert_eq!(create_causal_mask(0), vec![Vec::<Vec<bool>>::new()]);
    assert!(create_padding_mask(4, &[]).is_empty());
    // with no positions, any valid length is accepted
    assert_eq!(create_padding_mask(0, &[7]), vec![Vec::<Vec<bool>>::new()]);
    // the combined mask never looks past the sequence
    let m = create_combined_mask(2, &[5]);
    assert_eq!(m, vec![vec![vec![true, false], vec![true, true]]]);
}
