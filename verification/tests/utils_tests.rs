use nanorand::{Rng, WyRand};
use rdst::sort_utils::{
    aggregate_tile_counts, cdiv, get_counts, get_end_offsets, get_prefix_sums, get_tile_counts,
    is_homogenous_bucket, par_get_counts, thread_count,
};
use rdst::sorts::out_of_place_sort::{out_of_place_sort, out_of_place_sort_with_counts};
use rdst::sorts::scanning_sort::scanning_radix_sort;
use rdst::sorts::mt_lsb_sort::{mt_lsb_sort_adapter, mt_oop_sort_adapter};
use rdst::sorts::comparative_sort::comparative_sort;
use rdst::sorts::lsb_sort::lsb_radix_sort_adapter;
use rdst::director::{director, oop_partition};
use rdst::tuner::DefaultTuner;

#[test]
fn test_get_counts_exact() {
    // bytes at level 0: 0x01, 0x01; at level 1: 0x02, 0xff
    let data: Vec<u32> = vec![0x01020304, 0x01ff0304];
    let c0 = get_counts(&data, 0);
    assert_eq!(c0[0x01], 2);
    assert_eq!(c0[0x00], 0);
    let c1 = get_counts(&data, 1);
    assert_eq!(c1[0x02], 1);
    assert_eq!(c1[0xff], 1);
    let total: usize = c0.iter().sum();
    assert_eq!(total, 2);
}

#[test]
fn test_prefix_sums_and_end_offsets() {
    let mut counts = vec![0usize; 256];
    counts[1] = 3;
    counts[4] = 2;
    counts[255] = 1;
    let ps = get_prefix_sums(&counts);
    assert_eq!(ps[0], 0);
    assert_eq!(ps[1], 0);
    assert_eq!(ps[2], 3);
    assert_eq!(ps[4], 3);
    assert_eq!(ps[5], 5);
    assert_eq!(ps[255], 5);
    let ends = get_end_offsets(&counts, &ps);
    assert_eq!(ends[0], 0);
    assert_eq!(ends[1], 3);
    assert_eq!(ends[4], 5);
    assert_eq!(ends[255], 6);
}

#[test]
fn test_is_homogenous_bucket() {
    let mut counts = vec![0usize; 256];
    assert!(is_homogenous_bucket(&counts));
    counts[7] = 9;
    assert!(is_homogenous_bucket(&counts));
    counts[8] = 1;
    assert!(!is_homogenous_bucket(&counts));
}

#[test]
fn test_cdiv() {
    assert_eq!(cdiv(0, 3), 0);
    assert_eq!(cdiv(1, 3), 1);
    assert_eq!(cdiv(3, 3), 1);
    assert_eq!(cdiv(4, 3), 2);
    assert_eq!(cdiv(17, 1), 17);
}

#[test]
fn test_thread_count_positive() {
    assert!(thread_count() >= 1);
}

#[test]
fn test_tile_counts_consistency() {
    // columnwise sums of the tile histograms equal the whole histogram,
    // for a tile size that does not divide the input length
    let mut rng = WyRand::new();
    let data: Vec<u32> = (0..1000).map(|_| rng.generate::<u32>()).collect();
    for tile_size in [1usize, 7, 256, 1000, 2048] {
        let tiles = get_tile_counts(&data, tile_size, 2);
        assert_eq!(tiles.len(), cdiv(data.len(), tile_size));
        let agg = aggregate_tile_counts(&tiles);
        let whole = get_counts(&data, 2);
        assert_eq!(agg, whole);
    }
}

#[test]
fn test_par_get_counts_large() {
    // large enough to cross the parallel counting threshold
    let data: Vec<u32> = vec![0x05060708; 450_000];
    let counts = par_get_counts(&data, 0);
    assert_eq!(counts[5], 450_000);
    assert_eq!(counts[6], 0);
    let tiles = get_tile_counts(&data, 100_000, 1);
    assert_eq!(tiles.len(), 5);
    assert_eq!(tiles[0][6], 100_000);
    assert_eq!(tiles[4][6], 50_000);
}

#[test]
fn test_out_of_place_sort_stable_scatter() {
    // level-0 bytes: 1, 2, 1 -> bucket 1 keeps source order
    let src: Vec<u16> = vec![0x0102, 0x0201, 0x0103];
    let mut dst: Vec<u16> = vec![0; 3];
    let counts = get_counts(&src, 0);
    out_of_place_sort(&src, &mut dst, &counts, 0);
    assert_eq!(dst, vec![0x0102, 0x0103, 0x0201]);
}

#[test]
fn test_out_of_place_sort_with_counts_next_level() {
    let src: Vec<u16> = vec![0x0102, 0x0201, 0x0103];
    let mut dst: Vec<u16> = vec![0; 3];
    let counts = get_counts(&src, 0);
    let next = out_of_place_sort_with_counts(&src, &mut dst, &counts, 0);
    assert_eq!(dst, vec![0x0102, 0x0103, 0x0201]);
    // level-1 bytes of the source: 0x02, 0x01, 0x03
    assert_eq!(next[1], 1);
    assert_eq!(next[2], 1);
    assert_eq!(next[3], 1);
    assert_eq!(next[0], 0);
}

#[test]
fn test_oop_partition_groups_top_byte() {
    let mut data: Vec<u32> = vec![0x03000000, 0x01000000, 0x02000000, 0x01000001];
    let counts = get_counts(&data, 0);
    oop_partition(&mut data, 0, 4, &counts, 0);
    assert_eq!(data, vec![0x01000000, 0x01000001, 0x02000000, 0x03000000]);
}

#[test]
fn test_scanning_radix_sort_partitions() {
    let mut rng = WyRand::new();
    let input: Vec<u32> = (0..20_000).map(|_| rng.generate::<u32>()).collect();
    let mut data = input.clone();
    let counts = get_counts(&data, 0);
    scanning_radix_sort(&mut data, 0, input.len(), &counts, 0);
    // grouped by the top byte
    for w in data.windows(2) {
        assert!(w[0] >> 24 <= w[1] >> 24);
    }
    // a permutation of the input
    let mut a = input.clone();
    let mut b = data.clone();
    a.sort_unstable();
    b.sort_unstable();
    assert_eq!(a, b);
}

#[test]
fn test_mt_lsb_sort_adapter_sorts() {
    let mut rng = WyRand::new();
    let input: Vec<u32> = (0..10_000).map(|_| rng.generate::<u32>()).collect();
    let mut data = input.clone();
    let tile_size = cdiv(data.len(), thread_count());
    let n = data.len();
    mt_lsb_sort_adapter(&mut data, 0, n, 0, 3, tile_size);
    let mut expected = input;
    expected.sort_unstable();
    assert_eq!(data, expected);
}

#[test]
fn test_mt_oop_sort_adapter_partitions() {
    let data_in: Vec<u32> = vec![0x03000000, 0x01000000, 0x02000000, 0x01000001];
    let mut data = data_in.clone();
    let tiles = get_tile_counts(&data, 2, 0);
    mt_oop_sort_adapter(&mut data, 0, 4, &tiles, 2, 0);
    assert_eq!(data, vec![0x01000000, 0x01000001, 0x02000000, 0x03000000]);
}

#[test]
fn test_comparative_sort_range() {
    let mut data: Vec<u32> = vec![99, 5, 3, 4, 1, 88];
    comparative_sort(&mut data, 1, 5, 0);
    assert_eq!(data, vec![99, 1, 3, 4, 5, 88]);
}

#[test]
fn test_lsb_adapter_range() {
    let mut data: Vec<u32> = vec![77, 9, 200, 15, 3, 66];
    lsb_radix_sort_adapter(&mut data, 1, 5, 0);
    assert_eq!(data, vec![77, 3, 9, 15, 200, 66]);
}

#[test]
fn test_director_range() {
    let mut rng = WyRand::new();
    let mut data: Vec<u32> = (0..500).map(|_| rng.generate::<u32>()).collect();
    let head = data[0];
    let mut middle: Vec<u32> = data[1..499].to_vec();
    let tail = data[499];
    let tuner = DefaultTuner {};
    director(&tuner, false, &mut data, 1, 499, 0, 500);
    middle.sort_unstable();
    assert_eq!(data[0], head);
    assert_eq!(data[499], tail);
    assert_eq!(&data[1..499], &middle[..]);
}

#[test]
fn test_director_in_place_mode() {
    let mut rng = WyRand::new();
    let input: Vec<u32> = (0..30_000).map(|_| rng.generate::<u32>()).collect();
    let mut data = input.clone();
    let n = data.len();
    let tuner = DefaultTuner {};
    director(&tuner, true, &mut data, 0, n, 0, n);
    let mut expected = input;
    expected.sort_unstable();
    assert_eq!(data, expected);
}

#[test]
fn test_ska_sort_partitions() {
    let input: Vec<u32> = vec![
        0x03000001, 0x01000002, 0x02000003, 0x01000004, 0x03000005, 0x02000006, 0x01000007,
    ];
    let mut data = input.clone();
    let counts = get_counts(&data, 0);
    let n = data.len();
    rdst::sorts::ska_sort::ska_sort(&mut data, 0, n, &counts, 0);
    for w in data.windows(2) {
        assert!(w[0] >> 24 <= w[1] >> 24);
    }
    let mut a = input.clone();
    let mut b = data.clone();
    a.sort_unstable();
    b.sort_unstable();
    assert_eq!(a, b);
}

#[test]
fn test_detect_plateaus_finds_long_run() {
    // 4096 elements: a plateau of byte 7 spanning [1000, 2500)
    let mut data: Vec<u32> = Vec::new();
    for i in 0..4096u32 {
        if (1000..2500).contains(&i) {
            data.push(0x07000000 | i);
        } else {
            data.push((i % 7) << 24 | i);
        }
    }
    let plateaus = rdst::plateaus::detect_plateaus(&data, 0);
    assert!(plateaus.iter().any(|&(radix, l, r)| radix == 7 && l == 1000 && r == 2500));
    // every reported run is maximal, homogeneous and long
    for &(radix, l, r) in &plateaus {
        assert!(r - l >= 4096 / 16);
        for k in l..r {
            assert_eq!((data[k] >> 24) as u8, radix);
        }
        assert!(l == 0 || (data[l - 1] >> 24) as u8 != radix);
        assert!(r == data.len() || (data[r] >> 24) as u8 != radix);
    }
}

#[test]
fn test_detect_plateaus_small_bucket_empty() {
    let data: Vec<u32> = vec![5; 100];
    let plateaus = rdst::plateaus::detect_plateaus(&data, 0);
    assert!(plateaus.is_empty());
}

#[test]
fn test_apply_plateaus_moves_block() {
    // bucket of 8: bytes [1,1,0,0,0,0,1,1]; one plateau (0, [2,6))
    let mut data: Vec<u32> = vec![
        0x01000000, 0x01000001, 0x00000002, 0x00000003, 0x00000004, 0x00000005, 0x01000006,
        0x01000007,
    ];
    let counts = get_counts(&data, 0);
    let plateaus: Vec<(u8, usize, usize)> = vec![(0, 2, 6)];
    let (ps, ends) = rdst::plateaus::apply_plateaus(&mut data, &counts, &plateaus);
    // the byte-0 bucket starts at offset 0; the write area [0, 4) and the
    // plateau [2, 6) overlap, so only the non-overlapping tails swap:
    // [0, 2) exchanges with [4, 6)
    assert_eq!(
        data,
        vec![
            0x00000004, 0x00000005, 0x00000002, 0x00000003, 0x01000000, 0x01000001, 0x01000006,
            0x01000007,
        ]
    );
    // the destination now holds exactly the plateau's elements
    let mut dest: Vec<u32> = data[0..4].to_vec();
    dest.sort_unstable();
    assert_eq!(dest, vec![2, 3, 4, 5]);
    assert_eq!(ps[0], 4);
    assert_eq!(ps[1], 4);
    assert_eq!(ends[0], 4);
    assert_eq!(ends[1], 8);
}

#[test]
fn test_lr_lsb_sort_two_ended_scatter() {
    // level-0 bytes: 1, 2, 1, 1 -> front half forward, back half backward:
    // bucket 1 holds [0x0102] from the front and [0x0103, 0x0104] from the
    // back in source order
    let src: Vec<u16> = vec![0x0102, 0x0201, 0x0103, 0x0104];
    let mut dst: Vec<u16> = vec![0; 4];
    let counts = get_counts(&src, 0);
    rdst::sorts::lr_lsb_sort::lr_lsb_sort(&src, &mut dst, &counts, 0);
    assert_eq!(dst, vec![0x0102, 0x0103, 0x0104, 0x0201]);
}

#[test]
fn test_lr_lsb_sort_adapter_sorts() {
    let mut rng = WyRand::new();
    let input: Vec<u32> = (0..6_000).map(|_| rng.generate::<u32>()).collect();
    let mut data = input.clone();
    let n = data.len();
    rdst::sorts::lr_lsb_sort::lr_lsb_sort_adapter(&mut data, 0, n, 0);
    let mut expected = input;
    expected.sort_unstable();
    assert_eq!(data, expected);
}

#[test]
fn test_director_in_place_ska_regime() {
    let mut rng = WyRand::new();
    let input: Vec<u32> = (0..60_000).map(|_| rng.generate::<u32>()).collect();
    let mut data = input.clone();
    let n = data.len();
    let tuner = DefaultTuner {};
    director(&tuner, true, &mut data, 0, n, 0, n);
    let mut expected = input;
    expected.sort_unstable();
    assert_eq!(data, expected);
}

#[test]
fn test_sort_skewed_ska_regime() {
    // 250 000 skewed elements pick the in-place cycle pass at the top level
    let mut rng = WyRand::new();
    let input: Vec<u32> = (0..250_000)
        .map(|i| {
            if i % 2 == 0 {
                0x2a000000 | (rng.generate::<u32>() & 0xffffff)
            } else {
                rng.generate::<u32>()
            }
        })
        .collect();
    let mut data = input.clone();
    rdst::director::radix_sort_unstable(&mut data);
    let mut expected = input;
    expected.sort_unstable();
    assert_eq!(data, expected);
}

#[test]
fn test_sort_last_level_mt_regime() {
    // all elements share the upper bytes and half share the last byte: the
    // recursion skips to the last level, where the skewed counts pick the
    // multi-threaded LSB pass
    let mut rng = WyRand::new();
    let input: Vec<u32> = (0..400_000)
        .map(|i| {
            if i % 2 == 0 {
                0xaabbcc42
            } else {
                0xaabbcc00 | (rng.generate::<u32>() & 0xff)
            }
        })
        .collect();
    let mut data = input.clone();
    rdst::director::radix_sort_unstable(&mut data);
    let mut expected = input;
    expected.sort_unstable();
    assert_eq!(data, expected);
}
