use nanogallery::weights::compute_weights;

fn table(src: u32, target: u32) -> Vec<(u32, Vec<u64>, u128)> {
    compute_weights(src, target)
        .into_iter()
        .map(|w| (w.start, w.nums, w.den))
        .collect()
}

#[test]
fn upsampling_two_to_four() {
    assert_eq!(
        table(2, 4),
        vec![
            (0, vec![2, 6], 8),
            (0, vec![0, 6], 6),
            (0, vec![0, 2], 2),
            (0, vec![0, 0], 0),
        ]
    );
}

#[test]
fn downsampling_four_to_two() {
    assert_eq!(table(4, 2), vec![(0, vec![2, 6, 6], 14), (1, vec![0, 2, 6], 8)]);
}

#[test]
fn same_length_puts_all_weight_on_one_sample() {
    let t = table(3, 3);
    assert_eq!(t, vec![(0, vec![0, 6], 6), (0, vec![0, 0, 6], 6), (1, vec![0, 0], 0)]);
    for (o, (start, nums, den)) in t.iter().enumerate().take(2) {
        let nonzero: Vec<usize> = (0..nums.len()).filter(|&k| nums[k] != 0).collect();
        assert_eq!(nonzero.len(), 1);
        assert_eq!(*start as usize + nonzero[0], o + 1);
        assert_eq!(nums[nonzero[0]] as u128, *den);
    }
}

#[test]
fn normalised_weights_sum_to_one() {
    for (src, target) in [(1u32, 1u32), (2, 4), (4, 2), (7, 3), (3, 7), (10, 10), (100, 33)] {
        let t = compute_weights(src, target);
        assert_eq!(t.len(), target as usize);
        for w in t {
            let sum: u128 = w.nums.iter().map(|&n| n as u128).sum();
            assert_eq!(sum, w.den);
            assert!(w.start < src);
            assert!(w.start as usize + w.nums.len() <= src as usize);
            assert!(!w.nums.is_empty());
        }
    }
}
