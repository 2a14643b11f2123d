use rdst::tuner::{pick_algorithm_in_place, pick_algorithm_standard, Algorithm, TuningParams};

fn params(level: usize, total_levels: usize, input_len: usize, in_place: bool) -> TuningParams {
    TuningParams {
        threads: 4,
        level,
        total_levels,
        input_len,
        parent_len: input_len,
        in_place,
    }
}

fn uniform_counts() -> Vec<usize> {
    vec![0usize; 256]
}

fn skewed_counts(len: usize) -> Vec<usize> {
    // one bin holds at least twice the mean bin load
    let mut counts = vec![0usize; 256];
    counts[7] = (len / 256) * 2 + 1;
    counts
}

#[test]
fn test_standard_tiny_is_comparative() {
    let p = params(0, 4, 128, false);
    assert_eq!(pick_algorithm_standard(&p, &uniform_counts()), Algorithm::ComparativeSort);
}

#[test]
fn test_standard_depth_positive_table() {
    // depth > 0, not distributed
    let c = uniform_counts();
    assert_eq!(pick_algorithm_standard(&params(0, 4, 129, false), &c), Algorithm::LsbSort);
    assert_eq!(pick_algorithm_standard(&params(0, 4, 200_000, false), &c), Algorithm::LsbSort);
    assert_eq!(pick_algorithm_standard(&params(0, 4, 200_001, false), &c), Algorithm::SkaSort);
    assert_eq!(pick_algorithm_standard(&params(0, 4, 800_000, false), &c), Algorithm::SkaSort);
    assert_eq!(
        pick_algorithm_standard(&params(0, 4, 800_001, false), &c),
        Algorithm::RecombinatingSort
    );
    assert_eq!(
        pick_algorithm_standard(&params(0, 4, 50_000_000, false), &c),
        Algorithm::RecombinatingSort
    );
    assert_eq!(
        pick_algorithm_standard(&params(0, 4, 50_000_001, false), &c),
        Algorithm::ScanningSort
    );
}

#[test]
fn test_standard_depth_zero_table() {
    // depth == 0, not distributed
    let c = uniform_counts();
    assert_eq!(pick_algorithm_standard(&params(3, 4, 150_000, false), &c), Algorithm::LsbSort);
    assert_eq!(pick_algorithm_standard(&params(3, 4, 150_001, false), &c), Algorithm::SkaSort);
    assert_eq!(pick_algorithm_standard(&params(3, 4, 260_000, false), &c), Algorithm::SkaSort);
    assert_eq!(
        pick_algorithm_standard(&params(3, 4, 260_001, false), &c),
        Algorithm::RecombinatingSort
    );
    assert_eq!(
        pick_algorithm_standard(&params(3, 4, 50_000_001, false), &c),
        Algorithm::ScanningSort
    );
}

#[test]
fn test_standard_distributed_depth_zero_table() {
    assert_eq!(
        pick_algorithm_standard(&params(3, 4, 5_000, false), &skewed_counts(5_000)),
        Algorithm::LrLsbSort
    );
    assert_eq!(
        pick_algorithm_standard(&params(3, 4, 200_001, false), &skewed_counts(200_001)),
        Algorithm::SkaSort
    );
    assert_eq!(
        pick_algorithm_standard(&params(3, 4, 350_001, false), &skewed_counts(350_001)),
        Algorithm::MtLsbSort
    );
    assert_eq!(
        pick_algorithm_standard(&params(3, 4, 4_000_001, false), &skewed_counts(4_000_001)),
        Algorithm::RegionsSort
    );
}

#[test]
fn test_standard_distributed_deeper_table() {
    assert_eq!(
        pick_algorithm_standard(&params(0, 4, 350_001, false), &skewed_counts(350_001)),
        Algorithm::SkaSort
    );
    assert_eq!(
        pick_algorithm_standard(&params(0, 4, 800_001, false), &skewed_counts(800_001)),
        Algorithm::RecombinatingSort
    );
    assert_eq!(
        pick_algorithm_standard(&params(0, 4, 5_000_001, false), &skewed_counts(5_000_001)),
        Algorithm::RegionsSort
    );
}

#[test]
fn test_in_place_table() {
    let c = uniform_counts();
    assert_eq!(pick_algorithm_in_place(&params(0, 4, 100, true), &c), Algorithm::ComparativeSort);
    assert_eq!(pick_algorithm_in_place(&params(0, 4, 50_000, true), &c), Algorithm::LsbSort);
    assert_eq!(pick_algorithm_in_place(&params(0, 4, 50_001, true), &c), Algorithm::SkaSort);
    assert_eq!(pick_algorithm_in_place(&params(0, 4, 1_000_000, true), &c), Algorithm::SkaSort);
    assert_eq!(pick_algorithm_in_place(&params(0, 4, 1_000_001, true), &c), Algorithm::RegionsSort);
    assert_eq!(
        pick_algorithm_in_place(&params(0, 4, 50_001, true), &skewed_counts(50_001)),
        Algorithm::SkaSort
    );
    assert_eq!(
        pick_algorithm_in_place(&params(0, 4, 5_000, true), &skewed_counts(5_000)),
        Algorithm::LrLsbSort
    );
}
