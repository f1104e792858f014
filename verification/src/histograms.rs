//! Prefix sums over per-chunk histograms.
//!
//! Row `i` of the result holds, for every partition bin, the number of
//! tuples contributed by chunks `0..i`; the final row is therefore the exact
//! size of each destination partition.

use vstd::prelude::*;

verus! {

/// Sum of column `j` over the first `n` histogram rows.
pub open spec fn col_sum(h: Seq<Vec<u64>>, n: int, j: int) -> int
    decreases n,
{
    if n <= 0 {
        0
    } else {
        col_sum(h, n - 1, j) + h[n - 1]@[j]
    }
}

/// Sum of the first `n` entries of one histogram or prefix-sum row.
pub open spec fn row_sum(r: Seq<u64>, n: int) -> int
    decreases n,
{
    if n <= 0 {
        0
    } else {
        row_sum(r, n - 1) + r[n - 1]
    }
}

/// Column sums only grow as more rows are added.
pub proof fn lemma_col_sum_mono(h: Seq<Vec<u64>>, n1: int, n2: int, j: int)
    requires
        0 <= n1 <= n2,
    ensures
        col_sum(h, n1, j) <= col_sum(h, n2, j),
    decreases n2,
{
    if n1 < n2 {
        lemma_col_sum_mono(h, n1, n2 - 1, j);
    }
}

/// Turns per-chunk histograms into the cumulative-offset matrix: row 0 is all
/// zeros and row `i + 1` adds histogram row `i` elementwise, so row `i` holds
/// the totals contributed by chunks `0..i`.
pub fn prefix_sums(histograms: &Vec<Vec<u64>>) -> (ps: Vec<Vec<u64>>)
    requires
        histograms.len() >= 1,
        forall|i: int|
            0 <= i < histograms@.len() ==> (#[trigger] histograms@[i])@.len()
                == histograms@[0]@.len(),
        forall|j: int|
            0 <= j < histograms@[0]@.len() ==> col_sum(histograms@, histograms@.len() as int, j)
                <= u64::MAX,
    ensures
        ps@.len() == histograms@.len() + 1,
        forall|i: int| 0 <= i < ps@.len() ==> (#[trigger] ps@[i])@.len() == histograms@[0]@.len(),
        forall|i: int, j: int|
            0 <= i < ps@.len() && 0 <= j < histograms@[0]@.len() ==> (#[trigger] ps@[i]@[j])
                == col_sum(histograms@, i, j),
{
    let num_histograms = histograms.len();
    let num_bins = histograms[0].len();

    let mut ps: Vec<Vec<u64>> = Vec::new();

    // The first prefix sum is all zeroes since that data gets written to the
    // start of each chunk.
    let mut cur_ps: Vec<u64> = vec![0u64; num_bins];
    assert(forall|j: int| 0 <= j < num_bins ==> cur_ps@[j] == 0);
    ps.push(cur_ps.clone());

    assert(cur_ps@ =~= ps@[0]@);

    let mut i: usize = 0;
    while i < num_histograms
        invariant
            num_histograms == histograms@.len(),
            num_bins == histograms@[0]@.len(),
            forall|n: int|
                0 <= n < histograms@.len() ==> (#[trigger] histograms@[n])@.len() == num_bins,
            forall|j: int|
                0 <= j < num_bins ==> col_sum(histograms@, histograms@.len() as int, j)
                    <= u64::MAX,
            0 <= i <= num_histograms,
            ps@.len() == i + 1,
            cur_ps@.len() == num_bins,
            forall|n: int| 0 <= n <= i ==> (#[trigger] ps@[n])@.len() == num_bins,
            forall|j: int| 0 <= j < num_bins ==> cur_ps@[j] == col_sum(histograms@, i as int, j),
            forall|n: int, j: int|
                0 <= n <= i && 0 <= j < num_bins ==> (#[trigger] ps@[n]@[j])
                    == col_sum(histograms@, n, j),
        decreases num_histograms - i,
    {
        let histogram = &histograms[i];
        let mut j: usize = 0;
        while j < num_bins
            invariant
                num_histograms == histograms@.len(),
                num_bins == histograms@[0]@.len(),
                forall|n: int|
                    0 <= n < histograms@.len() ==> (#[trigger] histograms@[n])@.len() == num_bins,
                forall|jj: int|
                    0 <= jj < num_bins ==> col_sum(histograms@, histograms@.len() as int, jj)
                        <= u64::MAX,
                0 <= i < num_histograms,
                0 <= j <= num_bins,
                histogram == &histograms@[i as int],
                cur_ps@.len() == num_bins,
                forall|jj: int|
                    j <= jj < num_bins ==> cur_ps@[jj] == col_sum(histograms@, i as int, jj),
                forall|jj: int|
                    0 <= jj < j ==> cur_ps@[jj] == col_sum(histograms@, i + 1, jj),
            decreases num_bins - j,
        {
            proof {
                lemma_col_sum_mono(histograms@, i + 1, histograms@.len() as int, j as int);
            }
            let sum = cur_ps[j] + histogram[j];
            cur_ps[j] = sum;
            j += 1;
        }
        ps.push(cur_ps.clone());
        proof {
            assert(ps@[i + 1]@ =~= cur_ps@);
        }
        i += 1;
    }
    ps
}

} // verus!
