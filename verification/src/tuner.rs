//! The tuner: a pure rule table mapping the shape of a bucket (its length,
//! recursion depth, count distribution and in-place mode) to the bucketing
//! algorithm best suited to it. Any choice is correct; the table only decides
//! performance.

use vstd::prelude::*;

verus! {

/// What the director knows about the bucket when it asks for an algorithm.
#[derive(Clone, Copy)]
pub struct TuningParams {
    /// Workers available to parallel algorithms.
    pub threads: usize,
    /// The level about to be bucketed; 0 is the most significant byte.
    pub level: usize,
    /// The total number of key levels of the element type.
    pub total_levels: usize,
    /// The length of the bucket at hand.
    pub input_len: usize,
    /// The length of the bucket this one was partitioned out of.
    pub parent_len: usize,
    /// Whether the caller forbids scratch allocations of the bucket's size.
    pub in_place: bool,
}

/// The byte-bucketing algorithms the director can run.
#[derive(Debug, Clone, Copy, Eq, PartialEq)]
pub enum Algorithm {
    /// Multi-threaded out-of-place scatter, then recursion.
    MtOopSort,
    /// Multi-threaded LSB passes over per-tile slabs.
    MtLsbSort,
    /// Cooperative in-place scanning pass over 256 locked buckets.
    ScanningSort,
    /// Per-tile local partition, recombined into global buckets.
    RecombinatingSort,
    /// In-place comparison sort for tiny buckets.
    ComparativeSort,
    /// Two-ended LSB passes, filling each bucket from both ends.
    LrLsbSort,
    /// Plain out-of-place LSB passes.
    LsbSort,
    /// In-place pass moving elements between equal-sized regions.
    RegionsSort,
    /// In-place cycle-driven single-byte partition, then recursion.
    SkaSort,
}

/// At least one count reaches twice the mean bin load: the histogram is
/// skewed enough for the distribution-sensitive algorithms to pay off.
pub open spec fn spec_distributed(input_len: int, counts: Seq<usize>) -> bool {
    exists|b: int| 0 <= b < counts.len() && counts[b] >= (input_len / 256) * 2
}

/// The standard-mode decision table.
pub open spec fn spec_pick_standard(p: TuningParams, counts: Seq<usize>) -> Algorithm {
    let depth = p.total_levels - p.level - 1;
    if p.input_len <= 128 {
        Algorithm::ComparativeSort
    } else if p.input_len >= 5000 && spec_distributed(p.input_len as int, counts) {
        if depth == 0 {
            if p.input_len <= 200000 {
                Algorithm::LrLsbSort
            } else if p.input_len <= 350000 {
                Algorithm::SkaSort
            } else if p.input_len <= 4000000 {
                Algorithm::MtLsbSort
            } else {
                Algorithm::RegionsSort
            }
        } else {
            if p.input_len <= 200000 {
                Algorithm::LrLsbSort
            } else if p.input_len <= 800000 {
                Algorithm::SkaSort
            } else if p.input_len <= 5000000 {
                Algorithm::RecombinatingSort
            } else {
                Algorithm::RegionsSort
            }
        }
    } else if depth > 0 {
        if p.input_len <= 200000 {
            Algorithm::LsbSort
        } else if p.input_len <= 800000 {
            Algorithm::SkaSort
        } else if p.input_len <= 50000000 {
            Algorithm::RecombinatingSort
        } else {
            Algorithm::ScanningSort
        }
    } else {
        if p.input_len <= 150000 {
            Algorithm::LsbSort
        } else if p.input_len <= 260000 {
            Algorithm::SkaSort
        } else if p.input_len <= 50000000 {
            Algorithm::RecombinatingSort
        } else {
            Algorithm::ScanningSort
        }
    }
}

/// The in-place decision table: the large regimes collapse to the regions
/// sort, and no algorithm that allocates bucket-sized scratch is chosen.
pub open spec fn spec_pick_in_place(p: TuningParams, counts: Seq<usize>) -> Algorithm {
    if p.input_len <= 128 {
        Algorithm::ComparativeSort
    } else if p.input_len >= 5000 && spec_distributed(p.input_len as int, counts) {
        if p.input_len <= 50000 {
            Algorithm::LrLsbSort
        } else if p.input_len <= 1000000 {
            Algorithm::SkaSort
        } else {
            Algorithm::RegionsSort
        }
    } else {
        if p.input_len <= 50000 {
            Algorithm::LsbSort
        } else if p.input_len <= 1000000 {
            Algorithm::SkaSort
        } else {
            Algorithm::RegionsSort
        }
    }
}

/// Reports whether some count reaches twice the mean bin load.
fn is_distributed(input_len: usize, counts: &Vec<usize>) -> (r: bool)
    ensures
        r == spec_distributed(input_len as int, counts@),
{
    let distribution_threshold = (input_len / 256) * 2;
    let n = counts.len();
    let mut b: usize = 0;
    while b < n
        invariant
            b <= n,
            n == counts@.len(),
            distribution_threshold == (input_len as int / 256) * 2,
            forall|k: int| 0 <= k < b ==> #[trigger] counts@[k] < (input_len as int / 256) * 2,
        decreases n - b,
    {
        if counts[b] >= distribution_threshold {
            return true;
        }
        b = b + 1;
    }
    false
}

/// Picks the algorithm for a bucket in standard mode, per the decision
/// table: tiny buckets fall back to comparison; skewed ones prefer the
/// distribution-sensitive family; the rest grade from plain LSB passes
/// through in-place and recombinating passes up to the scanning sort.
pub fn pick_algorithm_standard(p: &TuningParams, counts: &Vec<usize>) -> (r: Algorithm)
    requires
        p.level < p.total_levels,
    ensures
        r == spec_pick_standard(*p, counts@),
{
    if p.input_len <= 128 {
        return Algorithm::ComparativeSort;
    }
    let depth = p.total_levels - p.level - 1;
    if p.input_len >= 5000 && is_distributed(p.input_len, counts) {
        if depth == 0 {
            if p.input_len <= 200000 {
                Algorithm::LrLsbSort
            } else if p.input_len <= 350000 {
                Algorithm::SkaSort
            } else if p.input_len <= 4000000 {
                Algorithm::MtLsbSort
            } else {
                Algorithm::RegionsSort
            }
        } else {
            if p.input_len <= 200000 {
                Algorithm::LrLsbSort
            } else if p.input_len <= 800000 {
                Algorithm::SkaSort
            } else if p.input_len <= 5000000 {
                Algorithm::RecombinatingSort
            } else {
                Algorithm::RegionsSort
            }
        }
    } else if depth > 0 {
        if p.input_len <= 200000 {
            Algorithm::LsbSort
        } else if p.input_len <= 800000 {
            Algorithm::SkaSort
        } else if p.input_len <= 50000000 {
            Algorithm::RecombinatingSort
        } else {
            Algorithm::ScanningSort
        }
    } else {
        if p.input_len <= 150000 {
            Algorithm::LsbSort
        } else if p.input_len <= 260000 {
            Algorithm::SkaSort
        } else if p.input_len <= 50000000 {
            Algorithm::RecombinatingSort
        } else {
            Algorithm::ScanningSort
        }
    }
}

/// Picks the algorithm for a bucket when scratch allocations of the bucket's
/// size are forbidden, per the in-place decision table.
pub fn pick_algorithm_in_place(p: &TuningParams, counts: &Vec<usize>) -> (r: Algorithm)
    requires
        p.level < p.total_levels,
    ensures
        r == spec_pick_in_place(*p, counts@),
{
    if p.input_len <= 128 {
        return Algorithm::ComparativeSort;
    }
    if p.input_len >= 5000 && is_distributed(p.input_len, counts) {
        if p.input_len <= 50000 {
            Algorithm::LrLsbSort
        } else if p.input_len <= 1000000 {
            Algorithm::SkaSort
        } else {
            Algorithm::RegionsSort
        }
    } else {
        if p.input_len <= 50000 {
            Algorithm::LsbSort
        } else if p.input_len <= 1000000 {
            Algorithm::SkaSort
        } else {
            Algorithm::RegionsSort
        }
    }
}

/// A source of algorithm decisions. The default decision is the rule table;
/// an implementation may override it to re-tune for other hardware, since
/// the director is correct under every choice.
pub trait Tuner {
    /// Chooses the algorithm for the bucket described by `p` and `counts`.
    fn pick_algorithm(&self, p: &TuningParams, counts: &Vec<usize>) -> Algorithm
        requires
            p.level < p.total_levels,
    {
        if p.in_place {
            pick_algorithm_in_place(p, counts)
        } else {
            pick_algorithm_standard(p, counts)
        }
    }
}

/// The tuner with the stock rule table: its choice is exactly what the two
/// tables say for the mode at hand.
pub struct DefaultTuner {}

impl Tuner for DefaultTuner {
    fn pick_algorithm(&self, p: &TuningParams, counts: &Vec<usize>) -> (r: Algorithm)
        ensures
            r == if p.in_place {
                spec_pick_in_place(*p, counts@)
            } else {
                spec_pick_standard(*p, counts@)
            },
    {
        if p.in_place {
            pick_algorithm_in_place(p, counts)
        } else {
            pick_algorithm_standard(p, counts)
        }
    }
}

} // verus!
