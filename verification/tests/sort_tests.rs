use nanorand::{Rng, WyRand};
use rdst::director::radix_sort_unstable;
use rdst::RadixSort;

fn assert_sorted_permutation(input: &[u32], output: &[u32]) {
    let mut expected = input.to_vec();
    expected.sort_unstable();
    assert_eq!(output, &expected[..]);
}

#[test]
fn test_sample() {
    let mut data = vec![9, 8, 7, 6, 5, 4, 3, 2, 1, 0u32];

    data.radix_sort_unstable();

    assert_eq!(data, vec![0, 1, 2, 3u32, 4, 5, 6, 7, 8, 9]);
}

#[test]
fn test_empty() {
    let mut data: Vec<u32> = vec![];
    radix_sort_unstable(&mut data);
    assert_eq!(data, Vec::<u32>::new());
}

#[test]
fn test_singleton() {
    let mut data: Vec<u32> = vec![417];
    radix_sort_unstable(&mut data);
    assert_eq!(data, vec![417u32]);
}

#[test]
fn test_already_sorted_u32() {
    let mut data: Vec<u32> = (0..10).collect();
    radix_sort_unstable(&mut data);
    let expected: Vec<u32> = (0..10).collect();
    assert_eq!(data, expected);
}

#[test]
fn test_reverse_u32() {
    let mut data: Vec<u32> = (0..10).rev().collect();
    radix_sort_unstable(&mut data);
    let expected: Vec<u32> = (0..10).collect();
    assert_eq!(data, expected);
}

#[test]
fn test_all_equal_u64() {
    let mut data: Vec<u64> = vec![42; 10_000];
    radix_sort_unstable(&mut data);
    assert_eq!(data, vec![42u64; 10_000]);
}

#[test]
fn test_duplicates() {
    let mut data: Vec<u32> = vec![3, 1, 4, 1, 5, 9, 2, 6, 5, 3, 5];
    radix_sort_unstable(&mut data);
    assert_eq!(data, vec![1, 1, 2, 3, 3, 4, 5, 5, 5, 6, 9]);
}

#[test]
fn test_idempotent_u32() {
    let mut rng = WyRand::new();
    let mut once: Vec<u32> = (0..2000).map(|_| rng.generate::<u32>() >> 16).collect();
    radix_sort_unstable(&mut once);
    let mut twice = once.clone();
    radix_sort_unstable(&mut twice);
    assert_eq!(once, twice);
}

#[test]
fn test_random_u32_small_sizes() {
    let mut rng = WyRand::new();
    for n in [100usize, 1_000, 10_000] {
        let input: Vec<u32> = (0..n).map(|_| rng.generate::<u32>()).collect();
        let mut data = input.clone();
        radix_sort_unstable(&mut data);
        assert_sorted_permutation(&input, &data);
    }
}

#[test]
fn test_random_u32_hundred_thousand() {
    let mut rng = WyRand::new();
    let input: Vec<u32> = (0..100_000).map(|_| rng.generate::<u32>()).collect();
    let mut data = input.clone();
    radix_sort_unstable(&mut data);
    assert_sorted_permutation(&input, &data);
}

#[test]
fn test_random_u32_million() {
    let mut rng = WyRand::new();
    let input: Vec<u32> = (0..1_000_000).map(|_| rng.generate::<u32>()).collect();
    let mut data = input.clone();
    radix_sort_unstable(&mut data);
    assert_sorted_permutation(&input, &data);
}

#[test]
fn test_random_skewed_distribution() {
    // half the values share one high byte: exercises the distributed rules
    let mut rng = WyRand::new();
    let input: Vec<u32> = (0..50_000)
        .map(|i| {
            if i % 2 == 0 {
                0x2a000000 | (rng.generate::<u32>() & 0xffffff)
            } else {
                rng.generate::<u32>()
            }
        })
        .collect();
    let mut data = input.clone();
    radix_sort_unstable(&mut data);
    assert_sorted_permutation(&input, &data);
}

#[test]
fn test_homogenous_top_byte() {
    // every element shares its most significant byte: the director skips the
    // level and the result equals the recursion on the remaining bytes
    let mut rng = WyRand::new();
    let input: Vec<u32> = (0..5_000).map(|_| 0x2a000000 | (rng.generate::<u32>() & 0xffffff)).collect();
    let mut data = input.clone();
    radix_sort_unstable(&mut data);
    assert_sorted_permutation(&input, &data);
}

#[test]
fn test_u8_sort() {
    let mut data: Vec<u8> = vec![200, 3, 255, 0, 17, 17, 90];
    radix_sort_unstable(&mut data);
    assert_eq!(data, vec![0, 3, 17, 17, 90, 200, 255u8]);
}

#[test]
fn test_u16_sort() {
    let mut rng = WyRand::new();
    let input: Vec<u16> = (0..3_000).map(|_| rng.generate::<u16>()).collect();
    let mut data = input.clone();
    radix_sort_unstable(&mut data);
    let mut expected = input;
    expected.sort_unstable();
    assert_eq!(data, expected);
}

#[test]
fn test_u64_sort() {
    let mut rng = WyRand::new();
    let input: Vec<u64> = (0..3_000).map(|_| rng.generate::<u64>()).collect();
    let mut data = input.clone();
    radix_sort_unstable(&mut data);
    let mut expected = input;
    expected.sort_unstable();
    assert_eq!(data, expected);
}

#[test]
fn test_u128_sort() {
    let mut rng = WyRand::new();
    let input: Vec<u128> = (0..500).map(|_| rng.generate::<u128>()).collect();
    let mut data = input.clone();
    radix_sort_unstable(&mut data);
    let mut expected = input;
    expected.sort_unstable();
    assert_eq!(data, expected);
}

#[test]
fn test_usize_sort() {
    let mut rng = WyRand::new();
    let input: Vec<usize> = (0..2_000).map(|_| rng.generate::<usize>()).collect();
    let mut data = input.clone();
    radix_sort_unstable(&mut data);
    let mut expected = input;
    expected.sort_unstable();
    assert_eq!(data, expected);
}
