//! Mathematical model of the cumulative-weight index.
//!
//! A histogram is a sequence of `(center, count)` bins together with the bin
//! width used when the histogram was produced. Every bin with a non-zero
//! count contributes one interval to a cumulative index over "weight space":
//! the interval covers a span of `count * weight` weight units, where
//! `weight` is the per-item weight of the bin, and maps draws inside the span
//! to `count` consecutive value ids.

use vstd::arithmetic::mul::{lemma_mul_nonnegative, lemma_mul_strictly_positive};
use vstd::prelude::*;

verus! {

/// Per-item weight of a bin, scaled by 4 to stay integral.
///
/// A bin centered on `center > 0` stands for values spread over
/// `[center - bin_width/2, center + bin_width/2)`, whose average is `center`.
/// The bin centered on `0` only holds values in `[0, bin_width/2)` (anything
/// larger would round to the next bin), so its average is `bin_width / 4`.
/// To avoid fractions, every weight is oversampled by a factor of 4:
/// `4 * center` for a positive center and exactly `bin_width` for the zero
/// bin, which distributes the quarter-width evenly with no truncated
/// remainder.
pub open spec fn bin_weight(center: usize, bin_width: usize) -> int {
    if center == 0 {
        bin_width as int
    } else {
        4 * (center as int)
    }
}

/// Total weight of a histogram: the sum over all bins of `count * weight`.
/// This is the exclusive upper bound for valid draws.
pub open spec fn total_weight_of(bins: Seq<(usize, usize)>, bin_width: usize) -> int
    decreases bins.len(),
{
    if bins.len() == 0 {
        0
    } else {
        total_weight_of(bins.drop_last(), bin_width) + (bins.last().1 as int) * bin_weight(
            bins.last().0,
            bin_width,
        )
    }
}

/// Total number of value ids: the sum of all bin counts.
pub open spec fn total_count_of(bins: Seq<(usize, usize)>) -> int
    decreases bins.len(),
{
    if bins.len() == 0 {
        0
    } else {
        total_count_of(bins.drop_last()) + bins.last().1 as int
    }
}

/// The input policy on bin order: centers must be strictly increasing, which
/// in particular rejects duplicate centers.
pub open spec fn centers_strictly_increasing(bins: Seq<(usize, usize)>) -> bool {
    forall|i: int| 0 <= i < bins.len() - 1 ==> (#[trigger] bins[i]).0 < bins[i + 1].0
}

/// A histogram the index builder accepts: a positive bin width, strictly
/// increasing centers, and totals that fit in a machine word.
pub open spec fn valid_bins(bins: Seq<(usize, usize)>, bin_width: usize) -> bool {
    &&& bin_width >= 1
    &&& centers_strictly_increasing(bins)
    &&& total_weight_of(bins, bin_width) <= usize::MAX
    &&& total_count_of(bins) <= usize::MAX
}

/// One interval of the cumulative index: draws in
/// `[start, start + count * weight)` map to the ids
/// `[first_id, first_id + count)`, by `first_id + (draw - start) % count`.
pub struct IntervalModel {
    /// Inclusive lower bound of the interval in weight space.
    pub start: int,
    /// First value id assigned to this interval's bin.
    pub first_id: int,
    /// Number of ids assigned to this interval's bin.
    pub count: int,
    /// Per-item weight of this interval's bin; the interval spans
    /// `count * weight` weight units.
    pub weight: int,
}

/// The cumulative index built from a histogram: one interval per bin with a
/// non-zero count, in input order, with cumulative start offsets and
/// contiguously assigned ids.
pub open spec fn index_of(bins: Seq<(usize, usize)>, bin_width: usize) -> Seq<IntervalModel>
    decreases bins.len(),
{
    if bins.len() == 0 {
        Seq::empty()
    } else {
        let prefix = index_of(bins.drop_last(), bin_width);
        if bins.last().1 == 0 {
            prefix
        } else {
            prefix.push(
                IntervalModel {
                    start: total_weight_of(bins.drop_last(), bin_width),
                    first_id: total_count_of(bins.drop_last()),
                    count: bins.last().1 as int,
                    weight: bin_weight(bins.last().0, bin_width),
                },
            )
        }
    }
}

/// Index of the interval a draw falls into: the greatest `i` with
/// `ivs[i].start <= draw`, or `-1` if there is none.
pub open spec fn interval_index(ivs: Seq<IntervalModel>, draw: int) -> int
    decreases ivs.len(),
{
    if ivs.len() == 0 {
        -1
    } else if ivs.last().start <= draw {
        ivs.len() - 1
    } else {
        interval_index(ivs.drop_last(), draw)
    }
}

/// The value id a draw maps to: the id derived from the interval the draw
/// falls into.
pub open spec fn spec_sample(ivs: Seq<IntervalModel>, draw: int) -> int {
    let i: int = interval_index(ivs, draw);
    ivs[i].first_id + (draw - ivs[i].start) % ivs[i].count
}

/// The interval contributed by bin `j`, when its count is non-zero.
pub(crate) open spec fn interval_for(bins: Seq<(usize, usize)>, bin_width: usize, j: int) -> IntervalModel {
    IntervalModel {
        start: total_weight_of(bins.take(j), bin_width),
        first_id: total_count_of(bins.take(j)),
        count: bins[j].1 as int,
        weight: bin_weight(bins[j].0, bin_width),
    }
}

/// Extending a histogram prefix by one bin extends its totals by that bin's
/// contribution, and its index by that bin's interval when the count is
/// non-zero.
pub(crate) proof fn lemma_take_step(bins: Seq<(usize, usize)>, bin_width: usize, j: int)
    requires
        0 <= j < bins.len(),
    ensures
        total_weight_of(bins.take(j + 1), bin_width) == total_weight_of(bins.take(j), bin_width)
            + (bins[j].1 as int) * bin_weight(bins[j].0, bin_width),
        total_count_of(bins.take(j + 1)) == total_count_of(bins.take(j)) + bins[j].1 as int,
        bins[j].1 == 0 ==> index_of(bins.take(j + 1), bin_width) == index_of(
            bins.take(j),
            bin_width,
        ),
        bins[j].1 != 0 ==> index_of(bins.take(j + 1), bin_width) == index_of(
            bins.take(j),
            bin_width,
        ).push(interval_for(bins, bin_width, j)),
{
    assert(bins.take(j + 1).drop_last() =~= bins.take(j));
    assert(bins.take(j + 1).last() == bins[j]);
}

/// Both totals are sums of non-negative terms, hence non-negative.
pub(crate) proof fn lemma_totals_nonneg(bins: Seq<(usize, usize)>, bin_width: usize)
    ensures
        total_weight_of(bins, bin_width) >= 0,
        total_count_of(bins) >= 0,
    decreases bins.len(),
{
    if bins.len() > 0 {
        lemma_totals_nonneg(bins.drop_last(), bin_width);
        lemma_mul_nonnegative(bins.last().1 as int, bin_weight(bins.last().0, bin_width));
    }
}

/// The totals of a histogram prefix never exceed the totals of the whole
/// histogram.
pub(crate) proof fn lemma_totals_take_le(bins: Seq<(usize, usize)>, bin_width: usize, j: int)
    requires
        0 <= j <= bins.len(),
    ensures
        0 <= total_weight_of(bins.take(j), bin_width) <= total_weight_of(bins, bin_width),
        0 <= total_count_of(bins.take(j)) <= total_count_of(bins),
    decreases bins.len() - j,
{
    lemma_totals_nonneg(bins.take(j), bin_width);
    if j == bins.len() {
        assert(bins.take(j) =~= bins);
    } else {
        lemma_take_step(bins, bin_width, j);
        lemma_mul_nonnegative(bins[j].1 as int, bin_weight(bins[j].0, bin_width));
        lemma_totals_take_le(bins, bin_width, j + 1);
    }
}

/// Shape of the cumulative index (when the bin width is positive): counts and
/// weights are at least one; start offsets are strictly increasing from zero;
/// consecutive intervals abut exactly, so the final interval's end equals the
/// total weight; ids are assigned contiguously from zero and cover exactly
/// `[0, total_count)`; and the index is empty exactly when the total weight
/// is zero.
pub proof fn lemma_index_offsets(bins: Seq<(usize, usize)>, bin_width: usize)
    requires
        bin_width >= 1,
    ensures
        ({
            let ivs = index_of(bins, bin_width);
            let total = total_weight_of(bins, bin_width);
            let nvalues = total_count_of(bins);
            &&& forall|i: int| 0 <= i < ivs.len() ==> (#[trigger] ivs[i]).count >= 1
            &&& forall|i: int| 0 <= i < ivs.len() ==> (#[trigger] ivs[i]).weight >= 1
            &&& forall|i: int| 0 <= i < ivs.len() ==> (#[trigger] ivs[i]).count * ivs[i].weight
                >= 1
            &&& forall|i: int, j: int|
                0 <= i < j < ivs.len() ==> (#[trigger] ivs[i]).start < (#[trigger] ivs[j]).start
            &&& ivs.len() > 0 ==> ivs[0].start == 0 && ivs[0].first_id == 0
            &&& forall|i: int|
                0 <= i < ivs.len() - 1 ==> (#[trigger] ivs[i]).start + ivs[i].count * ivs[i].weight
                    == ivs[i + 1].start
            &&& forall|i: int|
                0 <= i < ivs.len() - 1 ==> (#[trigger] ivs[i]).first_id + ivs[i].count == ivs[i
                    + 1].first_id
            &&& ivs.len() > 0 ==> ivs.last().start + ivs.last().count * ivs.last().weight == total
            &&& ivs.len() > 0 ==> ivs.last().first_id + ivs.last().count == nvalues
            &&& forall|i: int|
                0 <= i < ivs.len() ==> (#[trigger] ivs[i]).start >= 0 && ivs[i].first_id >= 0
            &&& forall|i: int|
                0 <= i < ivs.len() ==> (#[trigger] ivs[i]).start + ivs[i].count * ivs[i].weight
                    <= total
            &&& forall|i: int|
                0 <= i < ivs.len() ==> (#[trigger] ivs[i]).first_id + ivs[i].count <= nvalues
            &&& (ivs.len() == 0 <==> total == 0)
            &&& ivs.len() == 0 ==> nvalues == 0
        }),
    decreases bins.len(),
{
    if bins.len() > 0 {
        let prefix = bins.drop_last();
        lemma_index_offsets(prefix, bin_width);
        lemma_totals_nonneg(prefix, bin_width);
        let center: usize = bins.last().0;
        let n: int = bins.last().1 as int;
        let w: int = bin_weight(center, bin_width);
        lemma_mul_nonnegative(n, w);
        if n == 0 {
            assert(n * w == 0) by (nonlinear_arith)
                requires
                    n == 0,
            ;
        } else {
            lemma_mul_strictly_positive(n, w);
            let ivs = index_of(bins, bin_width);
            let pivs = index_of(prefix, bin_width);
            let ptotal: int = total_weight_of(prefix, bin_width);
            assert(ivs == pivs.push(
                IntervalModel {
                    start: ptotal,
                    first_id: total_count_of(prefix),
                    count: n,
                    weight: w,
                },
            ));
            assert(forall|i: int| 0 <= i < pivs.len() ==> ivs[i] == (#[trigger] pivs[i]));
            assert(forall|i: int|
                0 <= i < pivs.len() ==> (#[trigger] pivs[i]).start + pivs[i].count * pivs[i].weight
                    <= ptotal);
        }
    }
}

/// `interval_index` finds a valid interval for any draw at or above the first
/// start offset: the chosen interval starts at or below the draw and the next
/// one, if any, starts above it.
pub(crate) proof fn lemma_interval_index_props(ivs: Seq<IntervalModel>, draw: int)
    requires
        ivs.len() > 0,
        ivs[0].start <= draw,
        forall|i: int, j: int|
            0 <= i < j < ivs.len() ==> (#[trigger] ivs[i]).start < (#[trigger] ivs[j]).start,
    ensures
        ({
            let k: int = interval_index(ivs, draw);
            &&& 0 <= k < ivs.len()
            &&& ivs[k].start <= draw
            &&& k < ivs.len() - 1 ==> draw < ivs[k + 1].start
        }),
    decreases ivs.len(),
{
    if ivs.last().start <= draw {
    } else {
        let prefix = ivs.drop_last();
        assert(prefix[0] == ivs[0]);
        lemma_interval_index_props(prefix, draw);
        let k: int = interval_index(prefix, draw);
        assert(prefix[k] == ivs[k]);
        if k < prefix.len() - 1 {
            assert(prefix[k + 1] == ivs[k + 1]);
        }
    }
}

/// The interval found for a draw is the only one that starts at or below the
/// draw while the next one, if any, starts above it.
pub(crate) proof fn lemma_interval_index_unique(ivs: Seq<IntervalModel>, draw: int, k: int)
    requires
        ivs.len() > 0,
        ivs[0].start <= draw,
        forall|i: int, j: int|
            0 <= i < j < ivs.len() ==> (#[trigger] ivs[i]).start < (#[trigger] ivs[j]).start,
        0 <= k < ivs.len(),
        ivs[k].start <= draw,
        k < ivs.len() - 1 ==> draw < ivs[k + 1].start,
    ensures
        k == interval_index(ivs, draw),
{
    lemma_interval_index_props(ivs, draw);
    let k0: int = interval_index(ivs, draw);
    if k < k0 {
        assert(ivs[k + 1].start <= ivs[k0].start);
    } else if k0 < k {
        assert(ivs[k0 + 1].start <= ivs[k].start);
    }
}

} // verus!
